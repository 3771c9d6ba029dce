//! The folded program and the plain program of a source text do the same:
//! each step of the one is matched by steps of the other.

use vstd::prelude::*;
use crate::interpreter::advance;
use crate::interpreter::cell_minus;
use crate::interpreter::cell_plus;
use crate::interpreter::initial_machine;
use crate::interpreter::lemma_run_from_add;
use crate::interpreter::lemma_run_from_settled;
use crate::interpreter::lemma_run_settles;
use crate::interpreter::relocated;
use crate::interpreter::run;
use crate::interpreter::run_from;
use crate::interpreter::start;
use crate::interpreter::MachineState;
use crate::interpreter::Session;
use crate::interpreter::STACK_LIMIT;
use crate::parser::consistent;
use crate::parser::feed_all;
use crate::parser::initial_state;
use crate::parser::jump_is_paired;
use crate::parser::lemma_finish_well_formed;
use crate::parser::parse;
use crate::parser::well_formed;
use crate::plain::lemma_feed_all_plain_length;
use crate::plain::parse_plain;
use crate::source::fold_clear_idiom;
use crate::source::lemma_strip_keeps_operators;
use crate::source::strip;
use crate::program::Instruction;
use crate::unfolding::block_matches;
use crate::unfolding::lemma_feed_all_in_step;
use crate::unfolding::lemma_offset_rises;
use crate::unfolding::mirrors;
use crate::unfolding::offset;
use crate::unfolding::unfolds;
use crate::unfolding::unit_run;
use crate::unfolding::width;

verus! {

/// True when two runs cannot be told apart from outside: they stand alike,
/// have written and read the same, and hold the same tape.
pub open spec fn same_observables(a: Session, b: Session) -> bool {
    &&& a.status == b.status
    &&& a.output == b.output
    &&& a.consumed == b.consumed
    &&& a.machine.cells == b.machine.cells
}

/// True for the two scan instructions.
pub open spec fn is_scan(instruction: Instruction) -> bool {
    instruction is FindZeroRight || instruction is FindZeroLeft
}

/// True when `plain` is the well-formed `program` unfolded, and short
/// enough for its indices to be jump targets.
pub open spec fn linked(program: Seq<Instruction>, plain: Seq<Instruction>) -> bool {
    &&& well_formed(program)
    &&& unfolds(program, plain)
    &&& plain.len() <= usize::MAX
}

/// True when the run `b` of the plain program stands where the run `a` of
/// the folded program stands: alike from outside and, while they run, on
/// the same cell, with `b` at the start of the block of the instruction
/// that `a` is at. Within a scan `b` may also stand behind the opening jump
/// of the loop, on a cell that is not zero.
pub open spec fn in_step(
    program: Seq<Instruction>,
    plain: Seq<Instruction>,
    a: Session,
    b: Session,
) -> bool {
    &&& same_observables(a, b)
    &&& a.machine.valid()
    &&& b.machine.valid()
    &&& a.status is Running ==> {
        &&& a.machine.dp == b.machine.dp
        &&& a.machine.ip <= program.len()
        &&& {
            ||| b.machine.ip == offset(program, a.machine.ip)
            ||| {
                &&& a.machine.ip < program.len()
                &&& is_scan(program[a.machine.ip])
                &&& b.machine.ip == offset(program, a.machine.ip) + 1
                &&& a.machine.current() != 0
            }
        }
    }
}

/// The run `b` with `value` in its current cell and its machine at the
/// instruction `ip`.
pub open spec fn stored(b: Session, value: u32, ip: int) -> Session {
    Session {
        machine: MachineState {
            cells: b.machine.cells.update(b.machine.dp, value),
            ip,
            ..b.machine
        },
        ..b
    }
}

/// True when `r` is the run `b` stopped at the edge of the tape, with
/// nothing else changed that shows.
pub open spec fn stopped_at_edge(b: Session, r: Session) -> bool {
    &&& r.status is OutOfBounds
    &&& r.output == b.output
    &&& r.consumed == b.consumed
    &&& r.machine.cells == b.machine.cells
    &&& r.machine.valid()
}

/// A run of `n` unit moves to the right moves the data pointer by `n`, or
/// stops at the edge of the tape.
proof fn lemma_plain_right(plain: Seq<Instruction>, input: Seq<u8>, b: Session, n: nat)
    requires
        b.status is Running,
        b.machine.valid(),
        unit_run(plain, b.machine.ip, n as int, Instruction::IncPtr(1)),
        b.machine.ip + n <= plain.len(),
    ensures
        b.machine.dp + n < STACK_LIMIT ==> run_from(plain, input, b, n) == relocated(
            b,
            b.machine.dp + n,
            b.machine.ip + n,
        ),
        b.machine.dp + n >= STACK_LIMIT ==> stopped_at_edge(b, run_from(plain, input, b, n)),
    decreases n,
{
    if n == 0 {
        assert(relocated(b, b.machine.dp, b.machine.ip) == b);
    } else {
        lemma_plain_right(plain, input, b, (n - 1) as nat);
        assert(plain[b.machine.ip + n - 1] == Instruction::IncPtr(1));
    }
}

/// A run of `n` unit moves to the left moves the data pointer by `n`, or
/// stops at the edge of the tape.
proof fn lemma_plain_left(plain: Seq<Instruction>, input: Seq<u8>, b: Session, n: nat)
    requires
        b.status is Running,
        b.machine.valid(),
        unit_run(plain, b.machine.ip, n as int, Instruction::DecPtr(1)),
        b.machine.ip + n <= plain.len(),
    ensures
        b.machine.dp - n >= 0 ==> run_from(plain, input, b, n) == relocated(
            b,
            b.machine.dp - n,
            b.machine.ip + n,
        ),
        b.machine.dp - n < 0 ==> stopped_at_edge(b, run_from(plain, input, b, n)),
    decreases n,
{
    if n == 0 {
        assert(relocated(b, b.machine.dp, b.machine.ip) == b);
    } else {
        lemma_plain_left(plain, input, b, (n - 1) as nat);
        assert(plain[b.machine.ip + n - 1] == Instruction::DecPtr(1));
    }
}

/// A run of `n` unit increments adds `n` to the current cell.
proof fn lemma_plain_plus(plain: Seq<Instruction>, input: Seq<u8>, b: Session, n: nat)
    requires
        b.status is Running,
        b.machine.valid(),
        unit_run(plain, b.machine.ip, n as int, Instruction::IncCell(1)),
        b.machine.ip + n <= plain.len(),
        n <= u32::MAX,
    ensures
        run_from(plain, input, b, n) == stored(
            b,
            cell_plus(b.machine.current(), n as u32),
            b.machine.ip + n,
        ),
    decreases n,
{
    let cells = b.machine.cells;
    let dp = b.machine.dp;
    if n == 0 {
        assert(cells.update(dp, cells[dp]) == cells);
    } else {
        lemma_plain_plus(plain, input, b, (n - 1) as nat);
        assert(plain[b.machine.ip + n - 1] == Instruction::IncCell(1));
        let before = cell_plus(cells[dp], (n - 1) as u32);
        assert(cells.update(dp, before).update(dp, cell_plus(before, 1)) == cells.update(
            dp,
            cell_plus(cells[dp], n as u32),
        ));
    }
}

/// A run of `n` unit decrements takes `n` from the current cell.
proof fn lemma_plain_minus(plain: Seq<Instruction>, input: Seq<u8>, b: Session, n: nat)
    requires
        b.status is Running,
        b.machine.valid(),
        unit_run(plain, b.machine.ip, n as int, Instruction::DecCell(1)),
        b.machine.ip + n <= plain.len(),
        n <= u32::MAX,
    ensures
        run_from(plain, input, b, n) == stored(
            b,
            cell_minus(b.machine.current(), n as u32),
            b.machine.ip + n,
        ),
    decreases n,
{
    let cells = b.machine.cells;
    let dp = b.machine.dp;
    if n == 0 {
        assert(cells.update(dp, cells[dp]) == cells);
    } else {
        lemma_plain_minus(plain, input, b, (n - 1) as nat);
        assert(plain[b.machine.ip + n - 1] == Instruction::DecCell(1));
        let before = cell_minus(cells[dp], (n - 1) as u32);
        assert(cells.update(dp, before).update(dp, cell_minus(before, 1)) == cells.update(
            dp,
            cell_minus(cells[dp], n as u32),
        ));
    }
}

/// The block of an instruction begins at its offset, ends where the next
/// begins, lies inside the plain program and matches.
proof fn lemma_block_inside(program: Seq<Instruction>, plain: Seq<Instruction>, at: int)
    requires
        linked(program, plain),
        0 <= at < program.len(),
    ensures
        0 <= offset(program, at),
        offset(program, at) + width(program[at]) == offset(program, at + 1),
        offset(program, at + 1) <= plain.len(),
        block_matches(program, plain, at),
        jump_is_paired(program, at),
{
    lemma_offset_rises(program, 0, at);
    lemma_offset_rises(program, at + 1, program.len() as int);
}

/// One step over an instruction that carries a count is matched by as many
/// steps of the plain program as the count says.
proof fn lemma_counted_in_step(
    program: Seq<Instruction>,
    plain: Seq<Instruction>,
    input: Seq<u8>,
    a: Session,
    b: Session,
) -> (n: nat)
    requires
        linked(program, plain),
        in_step(program, plain, a, b),
        a.status is Running,
        0 <= a.machine.ip < program.len(),
        b.machine.ip == offset(program, a.machine.ip),
        program[a.machine.ip] is IncPtr || program[a.machine.ip] is DecPtr
            || program[a.machine.ip] is IncCell || program[a.machine.ip] is DecCell,
    ensures
        n >= 1,
        in_step(program, plain, advance(program, input, a), run_from(plain, input, b, n)),
{
    let at = a.machine.ip;
    lemma_block_inside(program, plain, at);
    match program[at] {
        Instruction::IncPtr(k) => {
            lemma_plain_right(plain, input, b, k as nat);
            k as nat
        },
        Instruction::DecPtr(k) => {
            lemma_plain_left(plain, input, b, k as nat);
            k as nat
        },
        Instruction::IncCell(k) => {
            lemma_plain_plus(plain, input, b, k as nat);
            k as nat
        },
        _ => {
            let k = width(program[at]) as nat;
            lemma_plain_minus(plain, input, b, k);
            k
        },
    }
}

/// A plain cell-clearing loop, entered behind its opening jump on a cell
/// that holds `value`, leaves the cell at zero after two steps for each
/// unit of the value.
proof fn lemma_plain_clear(
    plain: Seq<Instruction>,
    input: Seq<u8>,
    b: Session,
    from: int,
    value: nat,
)
    requires
        b.status is Running,
        b.machine.valid(),
        0 <= from,
        from + 2 < plain.len() <= usize::MAX,
        b.machine.ip == from + 1,
        plain[from + 1] == Instruction::DecCell(1),
        plain[from + 2] == Instruction::JumpBackward(from as usize),
        b.machine.current() == value,
        value >= 1,
    ensures
        run_from(plain, input, b, 2 * value) == stored(b, 0, from + 3),
    decreases value,
{
    let cells = b.machine.cells;
    let dp = b.machine.dp;
    let less = (value - 1) as u32;
    let one = run_from(plain, input, b, 1);
    let two = run_from(plain, input, b, 2);
    assert(one == stored(b, less, from + 2)) by {
        reveal_with_fuel(run_from, 2);
    }
    assert(two == advance(plain, input, one));
    lemma_run_from_add(plain, input, b, 2, (2 * value - 2) as nat);
    if value == 1 {
        assert(two == stored(b, 0, from + 3));
    } else {
        assert(two == stored(b, less, from + 1));
        lemma_plain_clear(plain, input, two, from, (value - 1) as nat);
        assert(cells.update(dp, less).update(dp, 0) == cells.update(dp, 0));
    }
}

/// One step that clears a cell is matched by the whole plain loop that
/// counts the cell down.
proof fn lemma_clear_in_step(
    program: Seq<Instruction>,
    plain: Seq<Instruction>,
    input: Seq<u8>,
    a: Session,
    b: Session,
) -> (n: nat)
    requires
        linked(program, plain),
        in_step(program, plain, a, b),
        a.status is Running,
        0 <= a.machine.ip < program.len(),
        b.machine.ip == offset(program, a.machine.ip),
        program[a.machine.ip] is ZeroCell,
    ensures
        n >= 1,
        in_step(program, plain, advance(program, input, a), run_from(plain, input, b, n)),
{
    let at = a.machine.ip;
    let from = offset(program, at);
    lemma_block_inside(program, plain, at);
    let value = a.machine.current();
    let entered = advance(plain, input, b);
    assert(run_from(plain, input, b, 1) == advance(plain, input, run_from(plain, input, b, 0)));
    assert(plain[from] == Instruction::JumpForward((from + 2) as usize));
    assert(plain[from + 1] == Instruction::DecCell(1));
    if value == 0 {
        assert(a.machine.cells.update(a.machine.dp, 0) == a.machine.cells);
        1
    } else {
        lemma_plain_clear(plain, input, entered, from, value as nat);
        lemma_run_from_add(plain, input, b, 1, (2 * value) as nat);
        (1 + 2 * value) as nat
    }
}

/// One step over an instruction that stands for itself is matched by one
/// step of the plain program.
proof fn lemma_single_in_step(
    program: Seq<Instruction>,
    plain: Seq<Instruction>,
    input: Seq<u8>,
    a: Session,
    b: Session,
)
    requires
        linked(program, plain),
        in_step(program, plain, a, b),
        a.status is Running,
        0 <= a.machine.ip < program.len(),
        b.machine.ip == offset(program, a.machine.ip),
        program[a.machine.ip] is Output || program[a.machine.ip] is Input
            || program[a.machine.ip] is JumpForward || program[a.machine.ip] is JumpBackward,
    ensures
        in_step(program, plain, advance(program, input, a), run_from(plain, input, b, 1)),
{
    let at = a.machine.ip;
    lemma_block_inside(program, plain, at);
    assert(run_from(plain, input, b, 1) == advance(plain, input, run_from(plain, input, b, 0)));
    match program[at] {
        Instruction::JumpForward(t) => {
            lemma_block_inside(program, plain, t as int);
        },
        Instruction::JumpBackward(t) => {
            lemma_block_inside(program, plain, t as int);
        },
        _ => {},
    }
}

/// At the end of the folded program the plain program is at its end too.
proof fn lemma_halt_in_step(
    program: Seq<Instruction>,
    plain: Seq<Instruction>,
    input: Seq<u8>,
    a: Session,
    b: Session,
)
    requires
        linked(program, plain),
        in_step(program, plain, a, b),
        a.status is Running,
        a.machine.ip == program.len(),
    ensures
        in_step(program, plain, advance(program, input, a), run_from(plain, input, b, 1)),
{
    assert(run_from(plain, input, b, 1) == advance(plain, input, run_from(plain, input, b, 0)));
}

/// One stride of a scan is matched by the body of the plain loop and its
/// closing jump, or by the part of the body that reaches the edge of the
/// tape.
proof fn lemma_stride_in_step(
    program: Seq<Instruction>,
    plain: Seq<Instruction>,
    input: Seq<u8>,
    a: Session,
    b: Session,
) -> (n: nat)
    requires
        linked(program, plain),
        in_step(program, plain, a, b),
        a.status is Running,
        0 <= a.machine.ip < program.len(),
        is_scan(program[a.machine.ip]),
        b.machine.ip == offset(program, a.machine.ip) + 1,
        a.machine.current() != 0,
    ensures
        n >= 1,
        in_step(program, plain, advance(program, input, a), run_from(plain, input, b, n)),
{
    let at = a.machine.ip;
    let from = offset(program, at);
    lemma_block_inside(program, plain, at);
    let k = (width(program[at]) - 2) as nat;
    let dp = a.machine.dp;
    let leaves = match program[at] {
        Instruction::FindZeroRight(_) => {
            lemma_plain_right(plain, input, b, k);
            dp + k >= STACK_LIMIT
        },
        _ => {
            lemma_plain_left(plain, input, b, k);
            dp - k < 0
        },
    };
    if leaves {
        k
    } else {
        let body = run_from(plain, input, b, k);
        assert(run_from(plain, input, b, k + 1) == advance(plain, input, body));
        assert(plain[from + k + 1] == Instruction::JumpBackward(from as usize));
        k + 1
    }
}

/// One step at a scan is matched from the opening jump of the plain loop:
/// by the jump alone where the cell is zero, else by the jump and one turn
/// of the loop.
proof fn lemma_scan_in_step(
    program: Seq<Instruction>,
    plain: Seq<Instruction>,
    input: Seq<u8>,
    a: Session,
    b: Session,
) -> (n: nat)
    requires
        linked(program, plain),
        in_step(program, plain, a, b),
        a.status is Running,
        0 <= a.machine.ip < program.len(),
        is_scan(program[a.machine.ip]),
        b.machine.ip == offset(program, a.machine.ip),
    ensures
        n >= 1,
        in_step(program, plain, advance(program, input, a), run_from(plain, input, b, n)),
{
    let at = a.machine.ip;
    let from = offset(program, at);
    lemma_block_inside(program, plain, at);
    let k = width(program[at]) - 2;
    let entered = advance(plain, input, b);
    assert(run_from(plain, input, b, 1) == advance(plain, input, run_from(plain, input, b, 0)));
    assert(plain[from] == Instruction::JumpForward((from + k + 1) as usize));
    if a.machine.current() == 0 {
        1
    } else {
        assert(in_step(program, plain, a, entered));
        let turn = lemma_stride_in_step(program, plain, input, a, entered);
        lemma_run_from_add(plain, input, b, 1, turn);
        1 + turn
    }
}

/// One step of the folded program is matched by one or more steps of the
/// plain program.
pub proof fn lemma_step_in_step(
    program: Seq<Instruction>,
    plain: Seq<Instruction>,
    input: Seq<u8>,
    a: Session,
    b: Session,
) -> (n: nat)
    requires
        linked(program, plain),
        in_step(program, plain, a, b),
        a.status is Running,
        0 <= a.machine.ip,
    ensures
        n >= 1,
        in_step(program, plain, advance(program, input, a), run_from(plain, input, b, n)),
{
    let at = a.machine.ip;
    if at == program.len() {
        lemma_halt_in_step(program, plain, input, a, b);
        1
    } else if b.machine.ip != offset(program, at) {
        lemma_stride_in_step(program, plain, input, a, b)
    } else if is_scan(program[at]) {
        lemma_scan_in_step(program, plain, input, a, b)
    } else if program[at] is Output || program[at] is Input || program[at] is JumpForward
        || program[at] is JumpBackward {
        lemma_single_in_step(program, plain, input, a, b);
        1
    } else if program[at] is ZeroCell {
        lemma_clear_in_step(program, plain, input, a, b)
    } else {
        lemma_counted_in_step(program, plain, input, a, b)
    }
}

/// Whatever the folded program has done after `steps` steps, the plain
/// program has done after `n` steps, and `n` is no less than `steps`.
pub proof fn lemma_runs_in_step(
    program: Seq<Instruction>,
    plain: Seq<Instruction>,
    input: Seq<u8>,
    steps: nat,
) -> (n: nat)
    requires
        linked(program, plain),
    ensures
        n >= steps,
        in_step(program, plain, run(program, input, steps), run(plain, input, n)),
    decreases steps,
{
    if steps == 0 {
        assert(initial_machine().valid());
        0
    } else {
        let before = lemma_runs_in_step(program, plain, input, (steps - 1) as nat);
        let a = run(program, input, (steps - 1) as nat);
        let b = run(plain, input, before);
        if a.status is Running {
            let more = lemma_step_in_step(program, plain, input, a, b);
            lemma_run_from_add(plain, input, start(), before, more);
            before + more
        } else {
            lemma_run_from_settled(plain, input, b, 1);
            lemma_run_from_add(plain, input, start(), before, 1);
            before + 1
        }
    }
}

/// Folding does not change what a program does. The folded program and
/// the plain program of a source text exist together, and on every input:
/// whatever the folded program has written, read and left on the tape after
/// some number of steps, the plain program has after some number that is no
/// smaller; and once the plain program has ended, the folded program has
/// ended in the same way after as many steps.
pub proof fn lemma_folding_keeps_the_run(source: Seq<char>, input: Seq<u8>, steps: nat)
    requires
        source.len() <= usize::MAX,
    ensures
        parse(source) is Ok <==> parse_plain(source) is Ok,
        parse(source) is Ok ==> {
            let folded = parse(source)->Ok_0;
            let plain = parse_plain(source)->Ok_0;
            &&& exists|n: nat|
                n >= steps && same_observables(
                    run(folded, input, steps),
                    #[trigger] run(plain, input, n),
                )
            &&& !(run(plain, input, steps).status is Running) ==> same_observables(
                run(folded, input, steps),
                run(plain, input, steps),
            )
        },
{
    let text = strip(source);
    lemma_strip_keeps_operators(source);
    assert(consistent(initial_state()));
    assert(mirrors(initial_state(), initial_state()));
    lemma_feed_all_in_step(initial_state(), initial_state(), text);
    if parse(source) is Ok {
        let fast = feed_all(initial_state(), fold_clear_idiom(text))->Ok_0;
        let folded = parse(source)->Ok_0;
        let plain = parse_plain(source)->Ok_0;
        lemma_finish_well_formed(fast);
        lemma_feed_all_plain_length(initial_state(), text);
        assert(linked(folded, plain));
        let n = lemma_runs_in_step(folded, plain, input, steps);
        assert(same_observables(run(folded, input, steps), run(plain, input, n)));
        if !(run(plain, input, steps).status is Running) {
            lemma_run_settles(plain, input, steps, n);
        }
    }
}

} // verus!
