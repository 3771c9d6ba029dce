//! The machine that executes a program, and runs of it.

use vstd::prelude::*;
use crate::program::Instruction;
use crate::program::Program;

verus! {

/// The number of cells of the memory tape.
pub const STACK_LIMIT: usize = 30000;

/// Why a run was cut short.
#[derive(Debug, PartialEq, Eq)]
pub enum RuntimeError {
    /// The input channel could not deliver a byte; the text says why.
    InputError(String),
    /// The data pointer left the tape, at either end.
    RegisterLimitExceededError,
}

/// The machine as a mathematical value.
pub struct MachineState {
    /// The tape, [`STACK_LIMIT`] cells long.
    pub cells: Seq<u32>,
    /// Index of the next instruction.
    pub ip: int,
    /// Index of the current cell.
    pub dp: int,
}

/// What one step asks of the host that drives the machine.
#[derive(Clone, Copy, Debug, PartialEq, Eq, Structural)]
pub enum Action {
    /// Nothing: step again.
    Continue,
    /// The byte offered with the step was stored: offer the next one from
    /// now on.
    Consumed,
    /// Write this cell value to the output channel, see [`cell_text`].
    Emit(u32),
    /// The machine stands at a read and no byte was offered: step again
    /// with one.
    AwaitInput,
    /// The instruction pointer is past the end of the program.
    Halt,
}

/// What one step does, with leaving the tape among the outcomes.
pub enum Effect {
    /// The step was taken and asks this of the host.
    Done(Action),
    /// The step would have moved the data pointer off the tape; the
    /// machine is unchanged.
    OutOfBounds,
}

/// A machine state together with the effect of the step that led to it.
pub struct Outcome {
    pub machine: MachineState,
    pub effect: Effect,
}

/// The state in which every run starts: a zeroed tape and both pointers at
/// the start.
pub open spec fn initial_machine() -> MachineState {
    MachineState { cells: Seq::new(STACK_LIMIT as nat, |i: int| 0u32), ip: 0, dp: 0 }
}

/// The cell value `n` steps above `value`, wrapping past the largest cell
/// value to zero.
pub open spec fn cell_plus(value: u32, n: u32) -> u32 {
    if value + n > u32::MAX {
        (value + n - 0x1_0000_0000) as u32
    } else {
        (value + n) as u32
    }
}

/// The cell value `n` steps below `value`, wrapping past zero to the
/// largest cell value.
pub open spec fn cell_minus(value: u32, n: u32) -> u32 {
    if value - n < 0 {
        (value - n + 0x1_0000_0000) as u32
    } else {
        (value - n) as u32
    }
}

/// Where a taken jump leaves the instruction pointer: one past its target,
/// or at the end of the program when the target is no instruction of it.
pub open spec fn landing(program: Seq<Instruction>, target: usize) -> int {
    if target < program.len() {
        target + 1
    } else {
        program.len() as int
    }
}

impl MachineState {
    /// The value of the current cell.
    pub open spec fn current(self) -> u32 {
        self.cells[self.dp]
    }

    /// The machine with the current cell set to `value` and the instruction
    /// pointer advanced.
    pub open spec fn store(self, value: u32) -> MachineState {
        MachineState { cells: self.cells.update(self.dp, value), ip: self.ip + 1, ..self }
    }

    /// The machine with the instruction pointer advanced.
    pub open spec fn next(self) -> MachineState {
        MachineState { ip: self.ip + 1, ..self }
    }

    /// True when the tape has its full length and the data pointer rests on
    /// it.
    pub open spec fn valid(self) -> bool {
        &&& self.cells.len() == STACK_LIMIT
        &&& 0 <= self.dp < STACK_LIMIT
        &&& 0 <= self.ip
    }
}

/// The outcome of a step that was taken.
pub open spec fn done(machine: MachineState, action: Action) -> Outcome {
    Outcome { machine, effect: Effect::Done(action) }
}

/// The outcome of a step that would have left the tape.
pub open spec fn out_of_bounds(machine: MachineState) -> Outcome {
    Outcome { machine, effect: Effect::OutOfBounds }
}

/// One step of the machine on `program`. `input` is the byte that the host
/// offers; only a read takes it.
pub open spec fn step(program: Seq<Instruction>, m: MachineState, input: Option<u8>) -> Outcome {
    if m.ip >= program.len() {
        done(m, Action::Halt)
    } else {
        match program[m.ip] {
            Instruction::IncPtr(n) => if m.dp + n >= STACK_LIMIT {
                out_of_bounds(m)
            } else {
                done(MachineState { dp: m.dp + n, ..m.next() }, Action::Continue)
            },
            Instruction::DecPtr(n) => if m.dp - n < 0 {
                out_of_bounds(m)
            } else {
                done(MachineState { dp: m.dp - n, ..m.next() }, Action::Continue)
            },
            Instruction::IncCell(n) => done(m.store(cell_plus(m.current(), n)), Action::Continue),
            Instruction::DecCell(n) => done(m.store(cell_minus(m.current(), n)), Action::Continue),
            Instruction::Output => done(m.next(), Action::Emit(m.current())),
            Instruction::Input => match input {
                Some(byte) => done(m.store(byte as u32), Action::Consumed),
                None => done(m, Action::AwaitInput),
            },
            Instruction::JumpForward(target) => if m.current() == 0 {
                done(MachineState { ip: landing(program, target), ..m }, Action::Continue)
            } else {
                done(m.next(), Action::Continue)
            },
            Instruction::JumpBackward(target) => if m.current() != 0 {
                done(MachineState { ip: landing(program, target), ..m }, Action::Continue)
            } else {
                done(m.next(), Action::Continue)
            },
            Instruction::ZeroCell => done(m.store(0), Action::Continue),
            Instruction::FindZeroRight(stride) => if m.current() == 0 {
                done(m.next(), Action::Continue)
            } else if m.dp + stride >= STACK_LIMIT {
                out_of_bounds(m)
            } else {
                done(scan_to(m, m.dp + stride), Action::Continue)
            },
            Instruction::FindZeroLeft(stride) => if m.current() == 0 {
                done(m.next(), Action::Continue)
            } else if m.dp - stride < 0 {
                out_of_bounds(m)
            } else {
                done(scan_to(m, m.dp - stride), Action::Continue)
            },
        }
    }
}

/// The machine after one stride of a scan that brings the data pointer to
/// `dp`: the scan is over when the cell there is zero, else it is the next
/// instruction again.
pub open spec fn scan_to(m: MachineState, dp: int) -> MachineState {
    MachineState { dp, ip: if m.cells[dp] == 0 { m.ip + 1 } else { m.ip }, ..m }
}

/// The effect that a step result stands for.
pub open spec fn effect_of(result: Result<Action, RuntimeError>) -> Effect {
    match result {
        Ok(action) => Effect::Done(action),
        Err(_) => Effect::OutOfBounds,
    }
}

/// A tape with an instruction pointer and a data pointer.
pub struct Machine {
    cells: Vec<u32>,
    ip: usize,
    dp: usize,
}

impl View for Machine {
    type V = MachineState;

    closed spec fn view(&self) -> MachineState {
        MachineState { cells: self.cells@, ip: self.ip as int, dp: self.dp as int }
    }
}

impl Machine {
    /// A machine at the start of a run.
    pub fn new() -> (machine: Machine)
        ensures
            machine@ == initial_machine(),
            machine@.valid(),
    {
        let mut cells: Vec<u32> = Vec::new();
        let mut filled: usize = 0;
        while filled < STACK_LIMIT
            invariant
                filled <= STACK_LIMIT,
                cells@.len() == filled,
                forall|i: int| 0 <= i < filled ==> cells@[i] == 0u32,
            decreases STACK_LIMIT - filled,
        {
            cells.push(0);
            filled += 1;
        }
        assert(cells@ == initial_machine().cells);
        Machine { cells, ip: 0, dp: 0 }
    }

    /// The tape.
    pub fn cells(&self) -> (cells: &Vec<u32>)
        ensures
            cells@ == self@.cells,
    {
        &self.cells
    }

    /// The index of the current cell.
    pub fn data_pointer(&self) -> (dp: usize)
        ensures
            dp == self@.dp,
    {
        self.dp
    }

    /// The index of the next instruction.
    pub fn instruction_pointer(&self) -> (ip: usize)
        ensures
            ip == self@.ip,
    {
        self.ip
    }

    /// Executes the instruction under the instruction pointer. `input` is
    /// the next byte of the input channel, if the host has one at hand.
    pub fn step(&mut self, program: &Program, input: Option<u8>) -> (result: Result<
        Action,
        RuntimeError,
    >)
        requires
            old(self)@.valid(),
        ensures
            step(program@, old(self)@, input) == (Outcome {
                machine: final(self)@,
                effect: effect_of(result),
            }),
            result matches Err(e) ==> e == RuntimeError::RegisterLimitExceededError,
            final(self)@.valid(),
    {
        if self.ip >= program.len() {
            return Ok(Action::Halt);
        }
        let value = self.cells[self.dp];
        match program[self.ip] {
            Instruction::IncPtr(n) => {
                if n >= STACK_LIMIT - self.dp {
                    return Err(RuntimeError::RegisterLimitExceededError);
                }
                self.dp = self.dp + n;
                self.ip = self.ip + 1;
                Ok(Action::Continue)
            },
            Instruction::DecPtr(n) => {
                if n > self.dp {
                    return Err(RuntimeError::RegisterLimitExceededError);
                }
                self.dp = self.dp - n;
                self.ip = self.ip + 1;
                Ok(Action::Continue)
            },
            Instruction::IncCell(n) => {
                self.cells.set(self.dp, value.wrapping_add(n));
                self.ip = self.ip + 1;
                Ok(Action::Continue)
            },
            Instruction::DecCell(n) => {
                self.cells.set(self.dp, value.wrapping_sub(n));
                self.ip = self.ip + 1;
                Ok(Action::Continue)
            },
            Instruction::Output => {
                self.ip = self.ip + 1;
                Ok(Action::Emit(value))
            },
            Instruction::Input => match input {
                Some(byte) => {
                    self.cells.set(self.dp, byte as u32);
                    self.ip = self.ip + 1;
                    Ok(Action::Consumed)
                },
                None => Ok(Action::AwaitInput),
            },
            Instruction::JumpForward(target) => {
                if value == 0 {
                    self.ip = if target < program.len() {
                        target + 1
                    } else {
                        program.len()
                    };
                } else {
                    self.ip = self.ip + 1;
                }
                Ok(Action::Continue)
            },
            Instruction::JumpBackward(target) => {
                if value != 0 {
                    self.ip = if target < program.len() {
                        target + 1
                    } else {
                        program.len()
                    };
                } else {
                    self.ip = self.ip + 1;
                }
                Ok(Action::Continue)
            },
            Instruction::ZeroCell => {
                self.cells.set(self.dp, 0);
                self.ip = self.ip + 1;
                Ok(Action::Continue)
            },
            Instruction::FindZeroRight(stride) => {
                if value != 0 {
                    if stride >= STACK_LIMIT - self.dp {
                        return Err(RuntimeError::RegisterLimitExceededError);
                    }
                    self.dp = self.dp + stride;
                }
                if self.cells[self.dp] == 0 {
                    self.ip = self.ip + 1;
                }
                Ok(Action::Continue)
            },
            Instruction::FindZeroLeft(stride) => {
                if value != 0 {
                    if stride > self.dp {
                        return Err(RuntimeError::RegisterLimitExceededError);
                    }
                    self.dp = self.dp - stride;
                }
                if self.cells[self.dp] == 0 {
                    self.ip = self.ip + 1;
                }
                Ok(Action::Continue)
            },
        }
    }
}

/// Specifies `char::from_u32`: the character with the given code, where the
/// code is a Unicode scalar value, and nothing for a surrogate or a code
/// past the last one.
pub assume_specification[ char::from_u32 ](i: u32) -> (c: Option<char>)
    ensures
        c == if is_scalar_value(i) {
            Some(i as char)
        } else {
            None::<char>
        },
;

/// True when `value` is the code of a character.
pub open spec fn is_scalar_value(value: u32) -> bool {
    value <= 0xD7FF || 0xE000 <= value <= 0x10FFFF
}

/// The character for a decimal digit.
pub open spec fn digit(d: int) -> char {
    ('0' as u32 + d) as char
}

/// The decimal numeral of `n`, without leading zeros.
pub open spec fn decimal(n: nat) -> Seq<char>
    decreases n,
{
    if n < 10 {
        seq![digit(n as int)]
    } else {
        decimal(n / 10).push(digit((n % 10) as int))
    }
}

/// What the output channel receives for a cell value: the character with
/// that code, or the decimal numeral of a value that is no character code.
pub open spec fn cell_text(value: u32) -> Seq<char> {
    if is_scalar_value(value) {
        seq![value as char]
    } else {
        decimal(value as nat)
    }
}

/// The text of the error for a read that failed for the reason `detail`.
pub open spec fn input_failure(detail: Seq<char>) -> Seq<char> {
    "Error while reading from console! Error: "@ + detail
}

/// The reason given when the input channel has no byte left.
pub open spec fn exhausted() -> Seq<char> {
    "failed to fill whole buffer"@
}

fn digit_char(d: u32) -> (c: char)
    requires
        d < 10,
    ensures
        c == digit(d as int),
{
    if d == 0 {
        '0'
    } else if d == 1 {
        '1'
    } else if d == 2 {
        '2'
    } else if d == 3 {
        '3'
    } else if d == 4 {
        '4'
    } else if d == 5 {
        '5'
    } else if d == 6 {
        '6'
    } else if d == 7 {
        '7'
    } else if d == 8 {
        '8'
    } else {
        '9'
    }
}

fn write_decimal(out: &mut String, n: u32)
    ensures
        final(out)@ == old(out)@ + decimal(n as nat),
    decreases n,
{
    if n >= 10 {
        write_decimal(out, n / 10);
    }
    out.push(digit_char(n % 10));
    proof {
        if n >= 10 {
            assert(old(out)@ + decimal(n as nat / 10).push(digit(n as int % 10)) == (old(out)@
                + decimal((n / 10) as nat)).push(digit((n % 10) as int)));
        } else {
            assert(old(out)@ + seq![digit(n as int)] == old(out)@.push(digit(n as int)));
        }
    }
}

/// Appends to `out` what the output channel receives for `value`.
pub fn write_cell(out: &mut String, value: u32)
    ensures
        final(out)@ == old(out)@ + cell_text(value),
{
    match char::from_u32(value) {
        Some(c) => {
            out.push(c);
            assert(old(out)@.push(c) == old(out)@ + seq![c]);
        },
        None => write_decimal(out, value),
    }
}

/// The error for a read that failed for the reason `detail`.
pub fn input_error(detail: &str) -> (error: RuntimeError)
    ensures
        error matches RuntimeError::InputError(text) && text@ == input_failure(detail@),
{
    let mut text = String::from_str("Error while reading from console! Error: ");
    text.append(detail);
    RuntimeError::InputError(text)
}

/// Where a run stands.
pub enum Status {
    /// More steps can be taken.
    Running,
    /// The instruction pointer ran off the end of the program.
    Finished,
    /// The data pointer was about to leave the tape.
    OutOfBounds,
    /// A read found the input channel empty.
    InputExhausted,
}

/// A run as a mathematical value: the machine, how much of the input
/// channel was read, what was written to the output channel, and where the
/// run stands.
pub struct Session {
    pub machine: MachineState,
    pub consumed: int,
    pub output: Seq<char>,
    pub status: Status,
}

/// The run before its first step.
pub open spec fn start() -> Session {
    Session {
        machine: initial_machine(),
        consumed: 0,
        output: Seq::empty(),
        status: Status::Running,
    }
}

/// The byte that the input channel offers once `consumed` bytes are gone.
pub open spec fn offered(input: Seq<u8>, consumed: int) -> Option<u8> {
    if 0 <= consumed < input.len() {
        Some(input[consumed])
    } else {
        None
    }
}

/// The run one step on. A run that is over stays as it is.
pub open spec fn advance(program: Seq<Instruction>, input: Seq<u8>, s: Session) -> Session {
    if s.status is Running {
        let outcome = step(program, s.machine, offered(input, s.consumed));
        let moved = Session { machine: outcome.machine, ..s };
        match outcome.effect {
            Effect::OutOfBounds => Session { status: Status::OutOfBounds, ..moved },
            Effect::Done(Action::Continue) => moved,
            Effect::Done(Action::Consumed) => Session { consumed: s.consumed + 1, ..moved },
            Effect::Done(Action::Emit(value)) => Session {
                output: s.output + cell_text(value),
                ..moved
            },
            Effect::Done(Action::AwaitInput) => Session { status: Status::InputExhausted, ..moved },
            Effect::Done(Action::Halt) => Session { status: Status::Finished, ..moved },
        }
    } else {
        s
    }
}

/// The run `steps` steps on from `from`, or as it ended if it ended before.
pub open spec fn run_from(
    program: Seq<Instruction>,
    input: Seq<u8>,
    from: Session,
    steps: nat,
) -> Session
    decreases steps,
{
    if steps == 0 {
        from
    } else {
        advance(program, input, run_from(program, input, from, (steps - 1) as nat))
    }
}

/// The run after `steps` steps from the start, or as it ended if it ended
/// before.
pub open spec fn run(program: Seq<Instruction>, input: Seq<u8>, steps: nat) -> Session {
    run_from(program, input, start(), steps)
}

/// A run that is over stays as it is, however many steps it is given.
pub proof fn lemma_run_from_settled(
    program: Seq<Instruction>,
    input: Seq<u8>,
    from: Session,
    steps: nat,
)
    requires
        !(from.status is Running),
    ensures
        run_from(program, input, from, steps) == from,
    decreases steps,
{
    if steps > 0 {
        lemma_run_from_settled(program, input, from, (steps - 1) as nat);
    }
}

/// Running on in two stretches is running on in one.
pub proof fn lemma_run_from_add(
    program: Seq<Instruction>,
    input: Seq<u8>,
    from: Session,
    first: nat,
    then: nat,
)
    ensures
        run_from(program, input, run_from(program, input, from, first), then) == run_from(
            program,
            input,
            from,
            first + then,
        ),
    decreases then,
{
    if then > 0 {
        lemma_run_from_add(program, input, from, first, (then - 1) as nat);
    }
}

/// A run that is over after `at` steps is the same after any number of
/// steps beyond.
pub proof fn lemma_run_settles(program: Seq<Instruction>, input: Seq<u8>, at: nat, later: nat)
    requires
        at <= later,
        !(run(program, input, at).status is Running),
    ensures
        run(program, input, later) == run(program, input, at),
{
    lemma_run_from_add(program, input, start(), at, (later - at) as nat);
    lemma_run_from_settled(program, input, run(program, input, at), (later - at) as nat);
}

/// The run `s` with its machine on the cell `dp` and at the instruction
/// `ip`.
pub open spec fn relocated(s: Session, dp: int, ip: int) -> Session {
    Session { machine: MachineState { dp, ip, ..s.machine }, ..s }
}

/// The index of the cell `strides` strides to the right of `dp`.
pub open spec fn ahead(dp: int, stride: usize, strides: int) -> int {
    dp + strides * stride
}

/// The index of the cell `strides` strides to the left of `dp`.
pub open spec fn behind(dp: int, stride: usize, strides: int) -> int {
    dp - strides * stride
}

/// While a scan to the right meets cells that are not zero it stays the
/// next instruction, and each step takes it one stride on.
pub proof fn lemma_scan_right_goes_on(
    program: Seq<Instruction>,
    input: Seq<u8>,
    s: Session,
    stride: usize,
    strides: nat,
)
    requires
        s.status is Running,
        s.machine.valid(),
        s.machine.ip < program.len(),
        program[s.machine.ip] == Instruction::FindZeroRight(stride),
        ahead(s.machine.dp, stride, strides as int) < STACK_LIMIT,
        forall|j: int|
            0 <= j <= strides ==> s.machine.cells[#[trigger] ahead(s.machine.dp, stride, j)] != 0,
    ensures
        run_from(program, input, s, strides) == relocated(
            s,
            ahead(s.machine.dp, stride, strides as int),
            s.machine.ip,
        ),
    decreases strides,
{
    let dp = s.machine.dp;
    if strides == 0 {
        lemma_one_stride(stride, 0);
        assert(relocated(s, dp, s.machine.ip) == s);
    } else {
        let before = (strides - 1) as int;
        lemma_one_stride(stride, before);
        lemma_scan_right_goes_on(program, input, s, stride, before as nat);
        assert(s.machine.cells[ahead(dp, stride, before)] != 0);
        assert(s.machine.cells[ahead(dp, stride, before + 1)] != 0);
    }
}

/// A scan to the right ends on the first cell, counted in strides from the
/// current cell, that holds zero: after as many steps as strides the data
/// pointer rests there and the scan is behind the instruction pointer.
pub proof fn lemma_scan_right_finds_zero(
    program: Seq<Instruction>,
    input: Seq<u8>,
    s: Session,
    stride: usize,
    strides: nat,
)
    requires
        s.status is Running,
        s.machine.valid(),
        s.machine.ip < program.len(),
        program[s.machine.ip] == Instruction::FindZeroRight(stride),
        strides >= 1,
        ahead(s.machine.dp, stride, strides as int) < STACK_LIMIT,
        forall|j: int|
            0 <= j < strides ==> s.machine.cells[#[trigger] ahead(s.machine.dp, stride, j)] != 0,
        s.machine.cells[ahead(s.machine.dp, stride, strides as int)] == 0,
    ensures
        run_from(program, input, s, strides) == relocated(
            s,
            ahead(s.machine.dp, stride, strides as int),
            s.machine.ip + 1,
        ),
{
    let dp = s.machine.dp;
    let before = (strides - 1) as int;
    lemma_one_stride(stride, before);
    lemma_scan_right_goes_on(program, input, s, stride, before as nat);
    assert(s.machine.cells[ahead(dp, stride, before)] != 0);
}

/// While a scan to the left meets cells that are not zero it stays the
/// next instruction, and each step takes it one stride on.
pub proof fn lemma_scan_left_goes_on(
    program: Seq<Instruction>,
    input: Seq<u8>,
    s: Session,
    stride: usize,
    strides: nat,
)
    requires
        s.status is Running,
        s.machine.valid(),
        s.machine.ip < program.len(),
        program[s.machine.ip] == Instruction::FindZeroLeft(stride),
        behind(s.machine.dp, stride, strides as int) >= 0,
        forall|j: int|
            0 <= j <= strides ==> s.machine.cells[#[trigger] behind(s.machine.dp, stride, j)]
                != 0,
    ensures
        run_from(program, input, s, strides) == relocated(
            s,
            behind(s.machine.dp, stride, strides as int),
            s.machine.ip,
        ),
    decreases strides,
{
    let dp = s.machine.dp;
    if strides == 0 {
        lemma_one_stride(stride, 0);
        assert(relocated(s, dp, s.machine.ip) == s);
    } else {
        let before = (strides - 1) as int;
        lemma_one_stride(stride, before);
        lemma_scan_left_goes_on(program, input, s, stride, before as nat);
        assert(s.machine.cells[behind(dp, stride, before)] != 0);
        assert(s.machine.cells[behind(dp, stride, before + 1)] != 0);
    }
}

/// A scan to the left ends on the first cell, counted in strides from the
/// current cell, that holds zero: after as many steps as strides the data
/// pointer rests there and the scan is behind the instruction pointer.
pub proof fn lemma_scan_left_finds_zero(
    program: Seq<Instruction>,
    input: Seq<u8>,
    s: Session,
    stride: usize,
    strides: nat,
)
    requires
        s.status is Running,
        s.machine.valid(),
        s.machine.ip < program.len(),
        program[s.machine.ip] == Instruction::FindZeroLeft(stride),
        strides >= 1,
        behind(s.machine.dp, stride, strides as int) >= 0,
        forall|j: int|
            0 <= j < strides ==> s.machine.cells[#[trigger] behind(s.machine.dp, stride, j)] != 0,
        s.machine.cells[behind(s.machine.dp, stride, strides as int)] == 0,
    ensures
        run_from(program, input, s, strides) == relocated(
            s,
            behind(s.machine.dp, stride, strides as int),
            s.machine.ip + 1,
        ),
{
    let dp = s.machine.dp;
    let before = (strides - 1) as int;
    lemma_one_stride(stride, before);
    lemma_scan_left_goes_on(program, input, s, stride, before as nat);
    assert(s.machine.cells[behind(dp, stride, before)] != 0);
}

/// One more stride is one more stride's length, and no strides are no
/// length.
proof fn lemma_one_stride(stride: usize, strides: int)
    requires
        strides >= 0,
    ensures
        (strides + 1) * stride == strides * stride + stride,
        strides * stride >= 0,
        0 * stride == 0,
{
    assert((strides + 1) * stride == strides * stride + stride) by (nonlinear_arith);
    assert(strides * stride >= 0) by (nonlinear_arith)
        requires
            strides >= 0,
            stride >= 0,
    ;
}

/// The status that the result of a run stands for; no result yet means
/// that the run can go on.
pub open spec fn status_of(result: Option<Result<(), RuntimeError>>) -> Status {
    match result {
        None => Status::Running,
        Some(Ok(_)) => Status::Finished,
        Some(Err(RuntimeError::RegisterLimitExceededError)) => Status::OutOfBounds,
        Some(Err(RuntimeError::InputError(_))) => Status::InputExhausted,
    }
}

/// A run of a program on a given input channel.
pub struct Execution {
    /// The machine as the run left it.
    pub machine: Machine,
    /// The number of bytes read from the input channel.
    pub consumed: usize,
    /// Everything written to the output channel.
    pub output: String,
    /// How the run ended, or nothing if it was stopped before its end.
    pub result: Option<Result<(), RuntimeError>>,
}

impl View for Execution {
    type V = Session;

    open spec fn view(&self) -> Session {
        Session {
            machine: self.machine@,
            consumed: self.consumed as int,
            output: self.output@,
            status: status_of(self.result),
        }
    }
}

/// Runs `program` from a fresh machine for at most `max_steps` steps, with
/// `input` as the input channel. A read from the exhausted channel ends the
/// run with an input error.
pub fn run_program(program: &Program, input: &[u8], max_steps: usize) -> (execution: Execution)
    ensures
        execution@ == run(program@, input@, max_steps as nat),
        execution.result matches Some(Err(RuntimeError::InputError(text))) ==> text@
            == input_failure(exhausted()),
{
    let mut execution = Execution {
        machine: Machine::new(),
        consumed: 0,
        output: String::new(),
        result: None,
    };
    let mut steps: usize = 0;
    while steps < max_steps && execution.result.is_none()
        invariant
            steps <= max_steps,
            execution.machine@.valid(),
            execution.consumed <= input@.len(),
            execution@ == run(program@, input@, steps as nat),
            execution.result matches Some(Err(RuntimeError::InputError(text))) ==> text@
                == input_failure(exhausted()),
        decreases max_steps - steps,
    {
        let next = if execution.consumed < input.len() {
            Some(input[execution.consumed])
        } else {
            None
        };
        match execution.machine.step(program, next) {
            Ok(Action::Continue) => {},
            Ok(Action::Consumed) => {
                execution.consumed = execution.consumed + 1;
            },
            Ok(Action::Emit(value)) => {
                write_cell(&mut execution.output, value);
            },
            Ok(Action::AwaitInput) => {
                execution.result = Some(Err(input_error("failed to fill whole buffer")));
            },
            Ok(Action::Halt) => {
                execution.result = Some(Ok(()));
            },
            Err(e) => {
                execution.result = Some(Err(e));
            },
        }
        steps = steps + 1;
    }
    proof {
        if execution.result.is_some() {
            lemma_run_settles(program@, input@, steps as nat, max_steps as nat);
        }
    }
    execution
}

} // verus!
