//! How a folded program lies over the plain program of the same text: each
//! of its instructions stands for a block of plain instructions.

use vstd::prelude::*;
use crate::parser::absorbed;
use crate::parser::consistent;
use crate::parser::feed;
use crate::parser::feed_all;
use crate::parser::lemma_feed_consistent;
use crate::parser::is_directional;
use crate::parser::jump_is_paired;
use crate::parser::scan_for;
use crate::parser::unit_instruction;
use crate::parser::ParseError;
use crate::parser::ParseState;
use crate::plain::feed_all_plain;
use crate::plain::feed_plain;
use crate::plain::lemma_feed_all_plain_add;
use crate::program::Instruction;
use crate::source::clear_idiom_at;
use crate::source::fold_clear_idiom;
use crate::source::is_operator;
use crate::source::ZERO_TOKEN;

verus! {

/// The number of plain instructions that one instruction of a folded
/// program stands for.
pub open spec fn width(instruction: Instruction) -> int {
    match instruction {
        Instruction::IncPtr(n) => n as int,
        Instruction::DecPtr(n) => n as int,
        Instruction::IncCell(n) => n as int,
        Instruction::DecCell(n) => n as int,
        Instruction::FindZeroRight(n) => n + 2,
        Instruction::FindZeroLeft(n) => n + 2,
        Instruction::ZeroCell => 3,
        _ => 1,
    }
}

/// The index in the plain program at which the instruction `at` of the
/// folded program begins: the widths of all instructions before it.
pub open spec fn offset(program: Seq<Instruction>, at: int) -> int
    decreases at,
{
    if at <= 0 {
        0
    } else {
        offset(program, at - 1) + width(program[at - 1])
    }
}

/// True when the `n` instructions of `plain` from `from` on are all `unit`.
pub open spec fn unit_run(plain: Seq<Instruction>, from: int, n: int, unit: Instruction) -> bool {
    forall|j: int| from <= j < from + n ==> #[trigger] plain[j] == unit
}

/// True when `plain` holds a loop from `from` on whose body is `n` times
/// `unit`.
pub open spec fn unit_loop(plain: Seq<Instruction>, from: int, n: int, unit: Instruction) -> bool {
    &&& n >= 1
    &&& plain[from] == Instruction::JumpForward((from + n + 1) as usize)
    &&& unit_run(plain, from + 1, n, unit)
    &&& plain[from + n + 1] == Instruction::JumpBackward(from as usize)
}

/// True when the plain program holds, at its place, what the instruction
/// `at` of the folded program stands for.
pub open spec fn block_matches(program: Seq<Instruction>, plain: Seq<Instruction>, at: int) -> bool {
    let from = offset(program, at);
    match program[at] {
        Instruction::IncPtr(n) => n >= 1 && unit_run(plain, from, n as int, Instruction::IncPtr(1)),
        Instruction::DecPtr(n) => n >= 1 && unit_run(plain, from, n as int, Instruction::DecPtr(1)),
        Instruction::IncCell(n) => n >= 1 && unit_run(
            plain,
            from,
            n as int,
            Instruction::IncCell(1),
        ),
        Instruction::DecCell(n) => n >= 1 && unit_run(
            plain,
            from,
            n as int,
            Instruction::DecCell(1),
        ),
        Instruction::Output => plain[from] == Instruction::Output,
        Instruction::Input => plain[from] == Instruction::Input,
        Instruction::JumpForward(target) => plain[from] == Instruction::JumpForward(
            offset(program, target as int) as usize,
        ),
        Instruction::JumpBackward(target) => plain[from] == Instruction::JumpBackward(
            offset(program, target as int) as usize,
        ),
        Instruction::FindZeroRight(n) => unit_loop(plain, from, n as int, Instruction::IncPtr(1)),
        Instruction::FindZeroLeft(n) => unit_loop(plain, from, n as int, Instruction::DecPtr(1)),
        Instruction::ZeroCell => unit_loop(plain, from, 1, Instruction::DecCell(1)),
    }
}

/// True when `plain` is `program` unfolded: block for block, and nothing
/// more.
pub open spec fn unfolds(program: Seq<Instruction>, plain: Seq<Instruction>) -> bool {
    &&& plain.len() == offset(program, program.len() as int)
    &&& forall|at: int| 0 <= at < program.len() ==> #[trigger] block_matches(program, plain, at)
}

/// True when the plain pass stands where the folding pass stands: its
/// instructions are those of the folding pass unfolded, and the same loops
/// are open.
pub open spec fn mirrors(fast: ParseState, plain: ParseState) -> bool {
    &&& unfolds(fast.emitted, plain.emitted)
    &&& plain.pending.len() == fast.pending.len()
    &&& forall|k: int|
        0 <= k < fast.pending.len() ==> (#[trigger] plain.pending[k]) as int == offset(
            fast.emitted,
            fast.pending[k] as int,
        )
}

/// Offsets depend on the widths before them alone.
pub proof fn lemma_offset_agrees(a: Seq<Instruction>, b: Seq<Instruction>, at: int)
    requires
        forall|j: int| 0 <= j < at ==> width(#[trigger] a[j]) == width(b[j]),
    ensures
        offset(a, at) == offset(b, at),
    decreases at,
{
    if at > 0 {
        lemma_offset_agrees(a, b, at - 1);
    }
}

/// Offsets rise with the index.
pub proof fn lemma_offset_rises(program: Seq<Instruction>, from: int, to: int)
    requires
        from <= to,
    ensures
        offset(program, from) <= offset(program, to),
        0 <= offset(program, from),
    decreases to - from,
{
    if from < to {
        lemma_offset_rises(program, from, to - 1);
    } else {
        lemma_offset_positive(program, from);
    }
}

/// No offset is negative.
proof fn lemma_offset_positive(program: Seq<Instruction>, at: int)
    ensures
        0 <= offset(program, at),
    decreases at,
{
    if at > 0 {
        lemma_offset_positive(program, at - 1);
    }
}

/// A block that matched still matches after both programs changed, where
/// the change kept the widths before `upto`, the instruction itself, the
/// part of the plain program that the block covers, and the targets that a
/// jump names.
proof fn lemma_block_kept(
    e: Seq<Instruction>,
    n: Seq<Instruction>,
    e2: Seq<Instruction>,
    n2: Seq<Instruction>,
    at: int,
    upto: int,
)
    requires
        0 <= at < upto,
        block_matches(e, n, at),
        forall|j: int| 0 <= j < upto ==> width(#[trigger] e2[j]) == width(e[j]),
        e2[at] == e[at],
        forall|j: int| offset(e, at) <= j < offset(e, at + 1) ==> #[trigger] n2[j] == n[j],
        e[at] matches Instruction::JumpForward(t) ==> t <= upto,
        e[at] matches Instruction::JumpBackward(t) ==> t <= upto,
    ensures
        block_matches(e2, n2, at),
{
    lemma_offset_agrees(e2, e, at);
    lemma_offset_agrees(e2, e, at + 1);
    let from = offset(e, at);
    match e[at] {
        Instruction::JumpForward(t) => {
            lemma_offset_agrees(e2, e, t as int);
        },
        Instruction::JumpBackward(t) => {
            lemma_offset_agrees(e2, e, t as int);
        },
        Instruction::IncPtr(k) => {
            assert forall|j: int| from <= j < from + k implies #[trigger] n2[j]
                == Instruction::IncPtr(1) by {
                assert(n2[j] == n[j]);
            }
        },
        Instruction::DecPtr(k) => {
            assert forall|j: int| from <= j < from + k implies #[trigger] n2[j]
                == Instruction::DecPtr(1) by {
                assert(n2[j] == n[j]);
            }
        },
        Instruction::IncCell(k) => {
            assert forall|j: int| from <= j < from + k implies #[trigger] n2[j]
                == Instruction::IncCell(1) by {
                assert(n2[j] == n[j]);
            }
        },
        Instruction::DecCell(k) => {
            assert forall|j: int| from <= j < from + k implies #[trigger] n2[j]
                == Instruction::DecCell(1) by {
                assert(n2[j] == n[j]);
            }
        },
        Instruction::FindZeroRight(k) => {
            assert(n2[from] == n[from]);
            assert(n2[from + k + 1] == n[from + k + 1]);
            assert forall|j: int| from + 1 <= j < from + 1 + k implies #[trigger] n2[j]
                == Instruction::IncPtr(1) by {
                assert(n2[j] == n[j]);
            }
        },
        Instruction::FindZeroLeft(k) => {
            assert(n2[from] == n[from]);
            assert(n2[from + k + 1] == n[from + k + 1]);
            assert forall|j: int| from + 1 <= j < from + 1 + k implies #[trigger] n2[j]
                == Instruction::DecPtr(1) by {
                assert(n2[j] == n[j]);
            }
        },
        Instruction::ZeroCell => {
            assert(n2[from] == n[from]);
            assert(n2[from + 1] == n[from + 1]);
            assert(n2[from + 2] == n[from + 2]);
        },
        _ => {
            assert(n2[from] == n[from]);
        },
    }
}

/// In a consistent pass every jump names an index before the end: an
/// opening jump its closing jump or, while it is pending, the start; a
/// closing jump its opening jump.
proof fn lemma_targets_inside(state: ParseState, at: int)
    requires
        consistent(state),
        0 <= at < state.emitted.len() <= usize::MAX,
    ensures
        state.emitted[at] matches Instruction::JumpForward(t) ==> t < state.emitted.len() && (t
            == 0 || state.emitted[t as int] is JumpBackward),
        state.emitted[at] matches Instruction::JumpBackward(t) ==> t < state.emitted.len()
            && state.emitted[t as int] is JumpForward,
{
    if state.pending.contains(at as usize) {
        let k = choose|k: int| 0 <= k < state.pending.len() && state.pending[k] == at as usize;
        assert(state.emitted[state.pending[k] as int] == Instruction::JumpForward(0));
    } else {
        assert(jump_is_paired(state.emitted, at));
    }
}

/// The blocks before `upto` still match after both programs changed,
/// where the folded program kept its first `upto` instructions but for the
/// target of the jump at `skip`, and the plain program kept what those
/// blocks cover but for the jump at `hole`, which is where `skip` begins.
proof fn lemma_blocks_kept(
    fast: ParseState,
    n: Seq<Instruction>,
    e2: Seq<Instruction>,
    n2: Seq<Instruction>,
    upto: int,
    skip: int,
    hole: int,
)
    requires
        consistent(fast),
        fast.emitted.len() <= usize::MAX,
        unfolds(fast.emitted, n),
        0 <= upto <= fast.emitted.len(),
        forall|j: int| 0 <= j < upto ==> width(#[trigger] e2[j]) == width(fast.emitted[j]),
        forall|j: int| 0 <= j < upto && j != skip ==> #[trigger] e2[j] == fast.emitted[j],
        forall|j: int|
            0 <= j < offset(fast.emitted, upto) && j != hole ==> #[trigger] n2[j] == n[j],
        0 <= skip < upto ==> hole == offset(fast.emitted, skip) && width(fast.emitted[skip]) >= 1,
        !(0 <= skip < upto) ==> hole < 0,
        forall|at: int|
            0 <= at < upto ==> !((#[trigger] fast.emitted[at]) is JumpForward
                && fast.emitted[at]->JumpForward_0 > upto),
    ensures
        forall|at: int| 0 <= at < upto && at != skip ==> #[trigger] block_matches(e2, n2, at),
{
    let e = fast.emitted;
    assert forall|at: int| 0 <= at < upto && at != skip implies #[trigger] block_matches(
        e2,
        n2,
        at,
    ) by {
        assert(block_matches(e, n, at));
        lemma_offset_rises(e, at + 1, upto);
        lemma_offset_rises(e, 0, at);
        if 0 <= skip < upto {
            if at < skip {
                lemma_offset_rises(e, at + 1, skip);
            } else {
                lemma_offset_rises(e, skip + 1, at);
            }
        }
        lemma_targets_inside(fast, at);
        assert(jump_is_paired(e, at) || fast.pending.contains(at as usize));
        lemma_block_kept(e, n, e2, n2, at, upto);
    }
}

/// In a consistent pass no jump names an index past the end.
proof fn lemma_targets_before_end(fast: ParseState)
    requires
        consistent(fast),
        fast.emitted.len() <= usize::MAX,
    ensures
        forall|at: int|
            0 <= at < fast.emitted.len() ==> !((#[trigger] fast.emitted[at]) is JumpForward
                && fast.emitted[at]->JumpForward_0 > fast.emitted.len()),
{
    assert forall|at: int| 0 <= at < fast.emitted.len() implies !((
    #[trigger] fast.emitted[at]) is JumpForward && fast.emitted[at]->JumpForward_0
        > fast.emitted.len()) by {
        lemma_targets_inside(fast, at);
    }
}

/// Both passes stay in step over an instruction that stands for itself.
proof fn lemma_push_in_step(fast: ParseState, plain: ParseState, instruction: Instruction)
    requires
        consistent(fast),
        mirrors(fast, plain),
        fast.emitted.len() < usize::MAX,
        width(instruction) == 1,
        !(instruction is JumpForward),
        !(instruction is JumpBackward),
    ensures
        mirrors(
            ParseState { emitted: fast.emitted.push(instruction), ..fast },
            ParseState { emitted: plain.emitted.push(instruction), ..plain },
        ),
{
    let e = fast.emitted;
    let n = plain.emitted;
    let e2 = e.push(instruction);
    let n2 = n.push(instruction);
    let len = e.len() as int;
    lemma_targets_before_end(fast);
    lemma_blocks_kept(fast, n, e2, n2, len, -1, -1);
    lemma_offset_agrees(e2, e, len);
    assert(block_matches(e2, n2, len));
    assert forall|k: int| 0 <= k < fast.pending.len() implies (#[trigger] plain.pending[k]) as int
        == offset(e2, fast.pending[k] as int) by {
        lemma_offset_agrees(e2, e, fast.pending[k] as int);
    }
}

/// Both passes stay in step when the folding pass lets its last
/// instruction absorb a directional character.
proof fn lemma_merge_in_step(fast: ParseState, plain: ParseState, c: char)
    requires
        consistent(fast),
        mirrors(fast, plain),
        fast.emitted.len() < usize::MAX,
        is_directional(c),
        fast.emitted.len() > 0,
        absorbed(fast.emitted.last(), c) is Some,
    ensures
        mirrors(
            ParseState {
                emitted: fast.emitted.drop_last().push(absorbed(fast.emitted.last(), c)->0),
                ..fast
            },
            ParseState { emitted: plain.emitted.push(unit_instruction(c)), ..plain },
        ),
{
    let e = fast.emitted;
    let n = plain.emitted;
    let e2 = e.drop_last().push(absorbed(e.last(), c)->0);
    let n2 = n.push(unit_instruction(c));
    let len = e.len() as int;
    assert forall|at: int| 0 <= at < len - 1 implies !((#[trigger] e[at]) is JumpForward
        && e[at]->JumpForward_0 > len - 1) by {
        lemma_targets_inside(fast, at);
    }
    lemma_blocks_kept(fast, n, e2, n2, len - 1, -1, -1);
    lemma_offset_agrees(e2, e, len - 1);
    assert(block_matches(e, n, len - 1));
    let from = offset(e, len - 1);
    lemma_offset_positive(e, len - 1);
    assert(offset(e, len) == from + width(e[len - 1]));
    assert(n2[n.len() as int] == unit_instruction(c));
    assert forall|j: int| from <= j < from + width(e[len - 1]) + 1 implies #[trigger] n2[j]
        == unit_instruction(c) by {
        if j < n.len() {
            assert(n2[j] == n[j]);
        }
    }
    assert(block_matches(e2, n2, len - 1));
    assert(offset(e2, len) == offset(e2, len - 1) + width(e2[len - 1]));
    assert forall|k: int| 0 <= k < fast.pending.len() implies (#[trigger] plain.pending[k]) as int
        == offset(e2, fast.pending[k] as int) by {
        assert(fast.pending[k] < len);
        assert(e[fast.pending[k] as int] == Instruction::JumpForward(0));
        lemma_offset_agrees(e2, e, fast.pending[k] as int);
    }
}

/// Both passes stay in step over a `[`.
proof fn lemma_open_in_step(fast: ParseState, plain: ParseState)
    requires
        consistent(fast),
        mirrors(fast, plain),
        fast.emitted.len() < usize::MAX,
        plain.emitted.len() < usize::MAX,
    ensures
        mirrors(feed(fast, '[')->Ok_0, feed_plain(plain, '[')->Ok_0),
{
    let e = fast.emitted;
    let n = plain.emitted;
    let e2 = e.push(Instruction::JumpForward(0));
    let n2 = n.push(Instruction::JumpForward(0));
    let len = e.len() as int;
    lemma_targets_before_end(fast);
    lemma_blocks_kept(fast, n, e2, n2, len, -1, -1);
    lemma_offset_agrees(e2, e, len);
    assert(block_matches(e2, n2, len));
    let p2 = fast.pending.push(len as usize);
    let q2 = plain.pending.push(n.len() as usize);
    assert forall|k: int| 0 <= k < p2.len() implies (#[trigger] q2[k]) as int == offset(
        e2,
        p2[k] as int,
    ) by {
        lemma_offset_agrees(e2, e, p2[k] as int);
        if k < fast.pending.len() {
            assert(q2[k] == plain.pending[k]);
        }
    }
}

/// Both passes stay in step over a `]` that closes a loop which is kept.
proof fn lemma_close_in_step(fast: ParseState, plain: ParseState)
    requires
        consistent(fast),
        mirrors(fast, plain),
        fast.emitted.len() < usize::MAX,
        plain.emitted.len() < usize::MAX,
        fast.pending.len() > 0,
        scan_for(fast.emitted) is None,
    ensures
        mirrors(feed(fast, ']')->Ok_0, feed_plain(plain, ']')->Ok_0),
        feed_plain(plain, ']')->Ok_0.emitted.len() == plain.emitted.len() + 1,
{
    let e = fast.emitted;
    let n = plain.emitted;
    let len = e.len() as int;
    let top = fast.pending.len() - 1;
    let o = fast.pending[top];
    let q = plain.pending[top];
    let e2 = e.push(Instruction::JumpBackward(o)).update(
        o as int,
        Instruction::JumpForward(len as usize),
    );
    let n2 = n.push(Instruction::JumpBackward(q)).update(
        q as int,
        Instruction::JumpForward(n.len() as usize),
    );
    assert(feed(fast, ']')->Ok_0.emitted == e2);
    assert(feed_plain(plain, ']')->Ok_0.emitted == n2);
    assert(e[o as int] == Instruction::JumpForward(0));
    assert(q as int == offset(e, o as int));
    lemma_offset_positive(e, o as int);
    lemma_offset_rises(e, o + 1, len);
    assert(offset(e, o + 1) == offset(e, o as int) + width(e[o as int]));
    lemma_targets_before_end(fast);
    lemma_blocks_kept(fast, n, e2, n2, len, o as int, q as int);
    lemma_offset_agrees(e2, e, len);
    lemma_offset_agrees(e2, e, o as int);
    assert(block_matches(e2, n2, o as int));
    assert(block_matches(e2, n2, len));
    let p2 = fast.pending.drop_last();
    let q2 = plain.pending.drop_last();
    assert forall|k: int| 0 <= k < p2.len() implies (#[trigger] q2[k]) as int == offset(
        e2,
        p2[k] as int,
    ) by {
        assert(q2[k] == plain.pending[k]);
        assert(fast.pending[k] < len);
        lemma_offset_agrees(e2, e, p2[k] as int);
    }
}

/// Where a scan can be folded, the opening jump that goes is the innermost
/// pending one.
proof fn lemma_scan_opening(fast: ParseState)
    requires
        consistent(fast),
        fast.emitted.len() <= usize::MAX,
        fast.pending.len() > 0,
        scan_for(fast.emitted) is Some,
    ensures
        fast.pending.last() == fast.emitted.len() - 2,
{
    let e = fast.emitted;
    let p = fast.pending;
    let len = e.len() as int;
    let top = p.len() - 1;
    if !p.contains((len - 2) as usize) {
        assert(jump_is_paired(e, len - 2));
    }
    let k = choose|k: int| 0 <= k < p.len() && p[k] == (len - 2) as usize;
    if k < top {
        assert(p[k] < p[top]);
        assert(e[p[top] as int] == Instruction::JumpForward(0));
    }
}

/// Both passes stay in step over a `]` that folds a scan.
proof fn lemma_scan_in_step(fast: ParseState, plain: ParseState)
    requires
        consistent(fast),
        mirrors(fast, plain),
        fast.emitted.len() < usize::MAX,
        plain.emitted.len() < usize::MAX,
        fast.pending.len() > 0,
        scan_for(fast.emitted) is Some,
    ensures
        mirrors(feed(fast, ']')->Ok_0, feed_plain(plain, ']')->Ok_0),
        feed_plain(plain, ']')->Ok_0.emitted.len() == plain.emitted.len() + 1,
{
    let e = fast.emitted;
    let n = plain.emitted;
    let len = e.len() as int;
    let top = fast.pending.len() - 1;
    let q = plain.pending[top];
    let scan = scan_for(e)->0;
    let e2 = e.take(len - 2).push(scan);
    let n2 = n.push(Instruction::JumpBackward(q)).update(
        q as int,
        Instruction::JumpForward(n.len() as usize),
    );
    lemma_scan_opening(fast);
    assert(feed(fast, ']')->Ok_0.emitted == e2);
    assert(feed_plain(plain, ']')->Ok_0.emitted == n2);
    let from = offset(e, len - 2);
    assert(q as int == from);
    lemma_offset_positive(e, len - 2);
    assert(offset(e, len - 1) == from + width(e[len - 2]));
    assert(offset(e, len) == offset(e, len - 1) + width(e[len - 1]));
    assert(block_matches(e, n, len - 2));
    assert(block_matches(e, n, len - 1));
    assert forall|at: int| 0 <= at < len - 2 implies !((#[trigger] e[at]) is JumpForward
        && e[at]->JumpForward_0 > len - 2) by {
        lemma_targets_inside(fast, at);
    }
    lemma_blocks_kept(fast, n, e2, n2, len - 2, -1, -1);
    lemma_offset_agrees(e2, e, len - 2);
    let k = width(e[len - 1]);
    assert forall|j: int| from + 1 <= j < from + 1 + k implies #[trigger] n2[j] == n[j] by {}
    assert(block_matches(e2, n2, len - 2));
    assert(offset(e2, len - 1) == offset(e2, len - 2) + width(e2[len - 2]));
    let p2 = fast.pending.drop_last();
    let q2 = plain.pending.drop_last();
    assert forall|j: int| 0 <= j < p2.len() implies (#[trigger] q2[j]) as int == offset(
        e2,
        p2[j] as int,
    ) by {
        assert(q2[j] == plain.pending[j]);
        assert(fast.pending[j] < fast.pending[top]);
        lemma_offset_agrees(e2, e, p2[j] as int);
    }
}

/// Both passes accept the same operators and stay in step over each.
pub proof fn lemma_feed_in_step(fast: ParseState, plain: ParseState, c: char)
    requires
        consistent(fast),
        mirrors(fast, plain),
        fast.emitted.len() < usize::MAX,
        plain.emitted.len() < usize::MAX,
        is_operator(c),
    ensures
        feed(fast, c) is Ok <==> feed_plain(plain, c) is Ok,
        feed(fast, c) is Ok ==> mirrors(feed(fast, c)->Ok_0, feed_plain(plain, c)->Ok_0),
        feed(fast, c) is Ok ==> feed_plain(plain, c)->Ok_0.emitted.len() <= plain.emitted.len()
            + 1,
{
    if is_directional(c) {
        if fast.emitted.len() > 0 && absorbed(fast.emitted.last(), c) is Some {
            lemma_merge_in_step(fast, plain, c);
        } else {
            lemma_push_in_step(fast, plain, unit_instruction(c));
        }
    } else if c == ',' {
        lemma_push_in_step(fast, plain, Instruction::Input);
    } else if c == '.' {
        lemma_push_in_step(fast, plain, Instruction::Output);
    } else if c == '[' {
        lemma_open_in_step(fast, plain);
    } else if fast.pending.len() > 0 {
        if scan_for(fast.emitted) is Some {
            lemma_scan_in_step(fast, plain);
        } else {
            lemma_close_in_step(fast, plain);
        }
    }
}

/// Both passes stay in step over a cell-clearing loop, which the folding
/// pass reads as one token and the plain pass as three operators.
proof fn lemma_clear_in_step(fast: ParseState, plain: ParseState)
    requires
        consistent(fast),
        mirrors(fast, plain),
        fast.emitted.len() < usize::MAX,
        plain.emitted.len() + 3 <= usize::MAX,
    ensures
        feed_all_plain(plain, seq!['[', '-', ']']) is Ok,
        mirrors(feed(fast, ZERO_TOKEN)->Ok_0, feed_all_plain(plain, seq!['[', '-', ']'])->Ok_0),
        feed_all_plain(plain, seq!['[', '-', ']'])->Ok_0.emitted.len() == plain.emitted.len() + 3,
{
    let e = fast.emitted;
    let n = plain.emitted;
    let len = e.len() as int;
    let from = n.len() as int;
    let text = seq!['[', '-', ']'];
    let opened = feed_plain(plain, '[')->Ok_0;
    let inside = feed_plain(opened, '-')->Ok_0;
    let closed = feed_plain(inside, ']')->Ok_0;
    assert(feed_all_plain(plain, text) == Ok::<ParseState, ParseError>(closed)) by {
        reveal_with_fuel(feed_all_plain, 4);
        assert(text.skip(1)[0] == '-');
        assert(text.skip(1).skip(1)[0] == ']');
        assert(text.skip(1).skip(1).skip(1).len() == 0);
    }
    assert(opened.pending.drop_last() == plain.pending);
    let e2 = e.push(Instruction::ZeroCell);
    let n2 = closed.emitted;
    assert(n2.len() == from + 3);
    assert(n2[from] == Instruction::JumpForward((from + 2) as usize));
    assert(n2[from + 1] == Instruction::DecCell(1));
    assert(n2[from + 2] == Instruction::JumpBackward(from as usize));
    lemma_targets_before_end(fast);
    lemma_blocks_kept(fast, n, e2, n2, len, -1, -1);
    lemma_offset_agrees(e2, e, len);
    assert(block_matches(e2, n2, len));
    assert forall|k: int| 0 <= k < fast.pending.len() implies (#[trigger] closed.pending[k]) as int
        == offset(e2, fast.pending[k] as int) by {
        assert(closed.pending[k] == plain.pending[k]);
        lemma_offset_agrees(e2, e, fast.pending[k] as int);
    }
}

/// Over a text of operators both passes fail together or end in step, the
/// folding pass on the folded text and the plain pass on the text as it is.
pub proof fn lemma_feed_all_in_step(fast: ParseState, plain: ParseState, text: Seq<char>)
    requires
        consistent(fast),
        mirrors(fast, plain),
        fast.emitted.len() + text.len() <= usize::MAX,
        plain.emitted.len() + text.len() <= usize::MAX,
        forall|i: int| 0 <= i < text.len() ==> is_operator(#[trigger] text[i]),
    ensures
        feed_all(fast, fold_clear_idiom(text)) is Ok <==> feed_all_plain(plain, text) is Ok,
        feed_all(fast, fold_clear_idiom(text)) is Ok ==> {
            &&& mirrors(
                feed_all(fast, fold_clear_idiom(text))->Ok_0,
                feed_all_plain(plain, text)->Ok_0,
            )
            &&& consistent(feed_all(fast, fold_clear_idiom(text))->Ok_0)
        },
    decreases text.len(),
{
    let folded = fold_clear_idiom(text);
    if text.len() == 0 {
    } else if clear_idiom_at(text, 0) {
        let rest = text.skip(3);
        let idiom = seq!['[', '-', ']'];
        assert(folded.skip(1) == fold_clear_idiom(rest));
        assert(text == idiom + rest);
        lemma_clear_in_step(fast, plain);
        lemma_feed_all_plain_add(plain, idiom, rest);
        lemma_feed_consistent(fast, ZERO_TOKEN);
        lemma_feed_all_in_step(
            feed(fast, ZERO_TOKEN)->Ok_0,
            feed_all_plain(plain, idiom)->Ok_0,
            rest,
        );
    } else {
        let c = text[0];
        let rest = text.skip(1);
        assert(folded.skip(1) == fold_clear_idiom(rest));
        lemma_feed_in_step(fast, plain, c);
        if feed(fast, c) is Ok {
            lemma_feed_consistent(fast, c);
            lemma_feed_all_in_step(feed(fast, c)->Ok_0, feed_plain(plain, c)->Ok_0, rest);
        }
    }
}

} // verus!
