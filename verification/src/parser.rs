//! The structural pass: from a folded text to a program with its jumps
//! resolved.

use vstd::prelude::*;
use crate::program::Instruction;
use crate::program::Program;
use crate::source::characters;
use crate::source::clear_idiom_at;
use crate::source::fold_clear_idiom;
use crate::source::is_operator;
use crate::source::lemma_fold_length;
use crate::source::lemma_fold_without_idiom;
use crate::source::lemma_strip_idempotent;
use crate::source::lemma_strip_keeps_operators;
use crate::source::lemma_strip_operators;
use crate::source::lemma_strip_skips_comment;
use crate::source::pre_process_program;
use crate::source::strip;
use crate::source::strip_program;
use crate::source::ZERO_TOKEN;

verus! {

/// Why a source text was rejected.
#[derive(Clone, Copy, Debug, PartialEq, Eq, Structural)]
pub enum ParseError {
    /// A bracket has no partner. The number is an instruction index, not a
    /// position in the source text: for a stray `]` the count of
    /// instructions emitted before it, for an unclosed `[` the index of the
    /// outermost pending opening jump.
    BracketError(usize),
}

/// What the structural pass holds between two characters.
pub struct ParseState {
    /// The instructions emitted so far.
    pub emitted: Seq<Instruction>,
    /// Indices of the opening jumps that still wait for their `]`,
    /// outermost first.
    pub pending: Seq<usize>,
}

/// The state before the first character.
pub open spec fn initial_state() -> ParseState {
    ParseState { emitted: Seq::empty(), pending: Seq::empty() }
}

/// True for the four operators that carry a count once emitted.
pub open spec fn is_directional(c: char) -> bool {
    c == '>' || c == '<' || c == '+' || c == '-'
}

/// The instruction for a single directional character.
pub open spec fn unit_instruction(c: char) -> Instruction {
    if c == '>' {
        Instruction::IncPtr(1)
    } else if c == '<' {
        Instruction::DecPtr(1)
    } else if c == '+' {
        Instruction::IncCell(1)
    } else {
        Instruction::DecCell(1)
    }
}

/// `last` with its count raised by one, when `last` is the instruction that
/// `c` stands for and its count can still grow.
pub open spec fn absorbed(last: Instruction, c: char) -> Option<Instruction> {
    match last {
        Instruction::IncPtr(n) => if c == '>' && n < usize::MAX {
            Some(Instruction::IncPtr((n + 1) as usize))
        } else {
            None
        },
        Instruction::DecPtr(n) => if c == '<' && n < usize::MAX {
            Some(Instruction::DecPtr((n + 1) as usize))
        } else {
            None
        },
        Instruction::IncCell(n) => if c == '+' && n < u32::MAX {
            Some(Instruction::IncCell((n + 1) as u32))
        } else {
            None
        },
        Instruction::DecCell(n) => if c == '-' && n < u32::MAX {
            Some(Instruction::DecCell((n + 1) as u32))
        } else {
            None
        },
        _ => None,
    }
}

/// The instructions after a directional character: the last one absorbs it
/// where it can, else a fresh unit instruction is appended.
pub open spec fn emit_directional(emitted: Seq<Instruction>, c: char) -> Seq<Instruction> {
    if emitted.len() > 0 && absorbed(emitted.last(), c) is Some {
        emitted.drop_last().push(absorbed(emitted.last(), c)->0)
    } else {
        emitted.push(unit_instruction(c))
    }
}

/// The scan instruction that replaces the tail of `emitted` when a loop
/// closes right after an opening jump and one pointer move, with at least
/// one instruction before them.
pub open spec fn scan_for(emitted: Seq<Instruction>) -> Option<Instruction> {
    if emitted.len() >= 3 && emitted[emitted.len() - 2] is JumpForward {
        match emitted.last() {
            Instruction::IncPtr(n) => Some(Instruction::FindZeroRight(n)),
            Instruction::DecPtr(n) => Some(Instruction::FindZeroLeft(n)),
            _ => None,
        }
    } else {
        None
    }
}

/// `emitted` with its last two instructions replaced by the scan that
/// [`scan_for`] finds, or unchanged when it finds none.
pub open spec fn with_scan(emitted: Seq<Instruction>) -> Seq<Instruction> {
    match scan_for(emitted) {
        Some(scan) => emitted.take(emitted.len() - 2).push(scan),
        None => emitted,
    }
}

/// The state after a `]`.
pub open spec fn close_loop(state: ParseState) -> Result<ParseState, ParseError> {
    if state.pending.len() == 0 {
        Err(ParseError::BracketError(state.emitted.len() as usize))
    } else {
        let opening = state.pending.last();
        let here = state.emitted.len() as usize;
        Ok(
            ParseState {
                emitted: if scan_for(state.emitted) is Some {
                    with_scan(state.emitted)
                } else {
                    state.emitted.push(Instruction::JumpBackward(opening)).update(
                        opening as int,
                        Instruction::JumpForward(here),
                    )
                },
                pending: state.pending.drop_last(),
            },
        )
    }
}

/// The state after one more character of the folded text.
pub open spec fn feed(state: ParseState, c: char) -> Result<ParseState, ParseError> {
    if is_directional(c) {
        Ok(ParseState { emitted: emit_directional(state.emitted, c), ..state })
    } else if c == ',' {
        Ok(ParseState { emitted: state.emitted.push(Instruction::Input), ..state })
    } else if c == '.' {
        Ok(ParseState { emitted: state.emitted.push(Instruction::Output), ..state })
    } else if c == ZERO_TOKEN {
        Ok(ParseState { emitted: state.emitted.push(Instruction::ZeroCell), ..state })
    } else if c == '[' {
        Ok(
            ParseState {
                emitted: state.emitted.push(Instruction::JumpForward(0)),
                pending: state.pending.push(state.emitted.len() as usize),
            },
        )
    } else if c == ']' {
        close_loop(state)
    } else {
        Ok(state)
    }
}

/// The state after all of `tokens`, read from `state` on, or the error of
/// the first character that is rejected.
pub open spec fn feed_all(state: ParseState, tokens: Seq<char>) -> Result<ParseState, ParseError>
    decreases tokens.len(),
{
    if tokens.len() == 0 {
        Ok(state)
    } else {
        match feed(state, tokens[0]) {
            Ok(next) => feed_all(next, tokens.skip(1)),
            Err(e) => Err(e),
        }
    }
}

/// The program that a final state stands for: its instructions when no
/// loop is left open.
pub open spec fn finish(state: ParseState) -> Result<Seq<Instruction>, ParseError> {
    if state.pending.len() > 0 {
        Err(ParseError::BracketError(state.pending[0]))
    } else {
        Ok(state.emitted)
    }
}

/// The program that a folded text stands for.
pub open spec fn parse_tokens(tokens: Seq<char>) -> Result<Seq<Instruction>, ParseError> {
    match feed_all(initial_state(), tokens) {
        Ok(state) => finish(state),
        Err(e) => Err(e),
    }
}

/// The program that a source text stands for: comments are dropped, the
/// cell-clearing loops folded, and the rest read from the left.
pub open spec fn parse(source: Seq<char>) -> Result<Seq<Instruction>, ParseError> {
    parse_tokens(fold_clear_idiom(strip(source)))
}

/// A program result with the program taken as a sequence.
pub open spec fn parsed(result: Result<Program, ParseError>) -> Result<
    Seq<Instruction>,
    ParseError,
> {
    match result {
        Ok(program) => Ok(program@),
        Err(e) => Err(e),
    }
}

/// True when the jump at `at` and its partner point at each other: an
/// opening jump at its closing jump further on, a closing jump at its
/// opening jump further back. Holds of every other instruction.
pub open spec fn jump_is_paired(program: Seq<Instruction>, at: int) -> bool {
    match program[at] {
        Instruction::JumpForward(target) => {
            &&& at < target < program.len()
            &&& program[target as int] == Instruction::JumpBackward(at as usize)
        },
        Instruction::JumpBackward(target) => {
            &&& target < at
            &&& program[target as int] == Instruction::JumpForward(at as usize)
        },
        _ => true,
    }
}

/// The invariant of a finished program: every jump names a valid index and
/// the two jumps of a loop name each other.
pub open spec fn well_formed(program: Seq<Instruction>) -> bool {
    forall|at: int| 0 <= at < program.len() ==> #[trigger] jump_is_paired(program, at)
}

/// The invariant of the structural pass: the pending indices rise, each
/// names an opening jump that still holds its placeholder, and every other
/// jump is paired.
pub open spec fn consistent(state: ParseState) -> bool {
    &&& forall|k: int|
        0 <= k < state.pending.len() ==> {
            &&& (#[trigger] state.pending[k]) < state.emitted.len()
            &&& state.emitted[state.pending[k] as int] == Instruction::JumpForward(0)
        }
    &&& forall|j: int, k: int|
        0 <= j < k < state.pending.len() ==> (#[trigger] state.pending[j]) < (
        #[trigger] state.pending[k])
    &&& forall|at: int|
        0 <= at < state.emitted.len() ==> state.pending.contains(at as usize)
            || #[trigger] jump_is_paired(state.emitted, at)
}

/// One character keeps the structural pass consistent, and emits at most
/// one instruction.
pub proof fn lemma_feed_consistent(state: ParseState, c: char)
    requires
        consistent(state),
        state.emitted.len() < usize::MAX,
        feed(state, c) is Ok,
    ensures
        consistent(feed(state, c)->Ok_0),
        feed(state, c)->Ok_0.emitted.len() <= state.emitted.len() + 1,
{
    let next = feed(state, c)->Ok_0;
    let e = state.emitted;
    let p = state.pending;
    let len = e.len() as int;
    if is_directional(c) {
        if len > 0 && absorbed(e.last(), c) is Some {
            assert(!(e.last() is JumpForward));
            assert forall|at: int| 0 <= at < next.emitted.len() implies p.contains(at as usize)
                || #[trigger] jump_is_paired(next.emitted, at) by {
                if at < len - 1 {
                    if !p.contains(at as usize) {
                        assert(jump_is_paired(e, at));
                    }
                } else {
                }
            }
            assert forall|k: int| 0 <= k < p.len() implies (#[trigger] p[k]) < next.emitted.len()
                && next.emitted[p[k] as int] == Instruction::JumpForward(0) by {
                assert(p[k] != len - 1);
            }
        } else {
            lemma_push_plain(state, unit_instruction(c));
        }
    } else if c == ',' {
        lemma_push_plain(state, Instruction::Input);
    } else if c == '.' {
        lemma_push_plain(state, Instruction::Output);
    } else if c == ZERO_TOKEN {
        lemma_push_plain(state, Instruction::ZeroCell);
    } else if c == '[' {
        let q = next.pending;
        assert forall|at: int| 0 <= at < next.emitted.len() implies q.contains(at as usize)
            || #[trigger] jump_is_paired(next.emitted, at) by {
            if at < len {
                if p.contains(at as usize) {
                    let k = choose|k: int| 0 <= k < p.len() && p[k] == at as usize;
                    assert(q[k] == at as usize);
                } else {
                    assert(jump_is_paired(e, at));
                }
            } else {
                assert(q[p.len() as int] == at as usize);
            }
        }
    } else if c == ']' {
        lemma_close_consistent(state);
    } else {
    }
}

/// Appending an instruction that is no jump keeps the pass consistent.
proof fn lemma_push_plain(state: ParseState, instruction: Instruction)
    requires
        consistent(state),
        !(instruction is JumpForward),
        !(instruction is JumpBackward),
    ensures
        consistent(ParseState { emitted: state.emitted.push(instruction), ..state }),
{
    let next = ParseState { emitted: state.emitted.push(instruction), ..state };
    assert forall|at: int| 0 <= at < next.emitted.len() implies next.pending.contains(at as usize)
        || #[trigger] jump_is_paired(next.emitted, at) by {
        if at < state.emitted.len() {
            if !state.pending.contains(at as usize) {
                assert(jump_is_paired(state.emitted, at));
            }
        }
    }
}

/// A `]` keeps the pass consistent, whether it folds a scan or closes a
/// loop.
proof fn lemma_close_consistent(state: ParseState)
    requires
        consistent(state),
        state.emitted.len() < usize::MAX,
        close_loop(state) is Ok,
    ensures
        consistent(close_loop(state)->Ok_0),
        close_loop(state)->Ok_0.emitted.len() <= state.emitted.len() + 1,
{
    let next = close_loop(state)->Ok_0;
    let e = state.emitted;
    let p = state.pending;
    let q = next.pending;
    let len = e.len() as int;
    let top = p.len() - 1;
    let opening = p[top];
    assert(forall|k: int| 0 <= k < q.len() ==> q[k] == p[k]);
    if scan_for(e) is Some {
        // The opening jump that is folded away is the innermost pending one.
        if !p.contains((len - 2) as usize) {
            assert(jump_is_paired(e, len - 2));
        }
        let k = choose|k: int| 0 <= k < p.len() && p[k] == (len - 2) as usize;
        if k < top {
            assert(p[k] < p[top]);
            assert(e[p[top] as int] == Instruction::JumpForward(0));
        }
        assert(opening == len - 2);
        assert forall|j: int| 0 <= j < q.len() implies (#[trigger] q[j]) < next.emitted.len()
            && next.emitted[q[j] as int] == Instruction::JumpForward(0) by {
            assert(p[j] < p[top]);
        }
        assert forall|at: int| 0 <= at < next.emitted.len() implies q.contains(at as usize)
            || #[trigger] jump_is_paired(next.emitted, at) by {
            if at < len - 2 {
                if p.contains(at as usize) {
                    let j = choose|j: int| 0 <= j < p.len() && p[j] == at as usize;
                    assert(q[j] == at as usize);
                } else {
                    assert(jump_is_paired(e, at));
                }
            }
        }
    } else {
        assert forall|j: int| 0 <= j < q.len() implies (#[trigger] q[j]) < next.emitted.len()
            && next.emitted[q[j] as int] == Instruction::JumpForward(0) by {
            assert(p[j] < p[top]);
        }
        assert forall|at: int| 0 <= at < next.emitted.len() implies q.contains(at as usize)
            || #[trigger] jump_is_paired(next.emitted, at) by {
            if at == len || at == opening {
            } else if p.contains(at as usize) {
                let j = choose|j: int| 0 <= j < p.len() && p[j] == at as usize;
                assert(q[j] == at as usize);
            } else {
                assert(jump_is_paired(e, at));
            }
        }
    }
}

/// A consistent state with no loop left open holds a well-formed program.
pub proof fn lemma_finish_well_formed(state: ParseState)
    requires
        consistent(state),
        state.pending.len() == 0,
    ensures
        well_formed(state.emitted),
{
    assert forall|at: int| 0 <= at < state.emitted.len() implies #[trigger] jump_is_paired(
        state.emitted,
        at,
    ) by {
        assert(!state.pending.contains(at as usize));
    }
}

/// Reading any text keeps the structural pass consistent, and emits at most
/// one instruction for each character.
pub proof fn lemma_feed_all_consistent(state: ParseState, tokens: Seq<char>)
    requires
        consistent(state),
        state.emitted.len() + tokens.len() <= usize::MAX,
    ensures
        feed_all(state, tokens) matches Ok(end) ==> consistent(end) && end.emitted.len()
            <= state.emitted.len() + tokens.len(),
    decreases tokens.len(),
{
    if tokens.len() > 0 && feed(state, tokens[0]) is Ok {
        lemma_feed_consistent(state, tokens[0]);
        lemma_feed_all_consistent(feed(state, tokens[0])->Ok_0, tokens.skip(1));
    }
}

/// Every program that a source text of representable length is read as is
/// well formed.
pub proof fn lemma_parse_well_formed(source: Seq<char>)
    requires
        source.len() <= usize::MAX,
    ensures
        parse(source) matches Ok(program) ==> well_formed(program),
{
    let tokens = fold_clear_idiom(strip(source));
    lemma_strip_keeps_operators(source);
    lemma_fold_length(strip(source));
    lemma_feed_all_consistent(initial_state(), tokens);
    if parse(source) is Ok {
        lemma_finish_well_formed(feed_all(initial_state(), tokens)->Ok_0);
    }
}

/// The instruction that a run of `n` copies of the directional character
/// `c` stands for.
pub open spec fn counted(c: char, n: nat) -> Instruction {
    if c == '>' {
        Instruction::IncPtr(n as usize)
    } else if c == '<' {
        Instruction::DecPtr(n as usize)
    } else if c == '+' {
        Instruction::IncCell(n as u32)
    } else {
        Instruction::DecCell(n as u32)
    }
}

/// The largest count that the instruction for the directional character
/// `c` can carry.
pub open spec fn largest_count(c: char) -> nat {
    if c == '>' || c == '<' {
        usize::MAX as nat
    } else {
        u32::MAX as nat
    }
}

/// A text of `n` copies of `c`.
pub open spec fn repeated(c: char, n: nat) -> Seq<char> {
    Seq::new(n, |i: int| c)
}

/// A run of a directional character is absorbed whole by an instruction
/// for that character, as far as its count can grow.
pub proof fn lemma_run_is_absorbed(state: ParseState, c: char, k: nat, n: nat)
    requires
        is_directional(c),
        1 <= k,
        k + n <= largest_count(c),
        state.emitted.len() > 0,
        state.emitted.last() == counted(c, k),
    ensures
        feed_all(state, repeated(c, n)) == Ok::<ParseState, ParseError>(
            ParseState { emitted: state.emitted.drop_last().push(counted(c, k + n)), ..state },
        ),
    decreases n,
{
    let text = repeated(c, n);
    if n == 0 {
        assert(state.emitted.drop_last().push(counted(c, k)) == state.emitted);
    } else {
        assert(text.skip(1) == repeated(c, (n - 1) as nat));
        assert(absorbed(state.emitted.last(), c) == Some(counted(c, k + 1)));
        let next = feed(state, c)->Ok_0;
        lemma_run_is_absorbed(next, c, k + 1, (n - 1) as nat);
        assert(next.emitted.drop_last() == state.emitted.drop_last());
    }
}

/// A run of one directional character is read as a single instruction that
/// carries the length of the run.
pub proof fn lemma_run_is_one_instruction(c: char, n: nat)
    requires
        is_directional(c),
        1 <= n <= largest_count(c),
    ensures
        parse(repeated(c, n)) == Ok::<Seq<Instruction>, ParseError>(seq![counted(c, n)]),
{
    let text = repeated(c, n);
    let first = feed(initial_state(), c)->Ok_0;
    assert(first.emitted == seq![counted(c, 1)]);
    assert(text.skip(1) == repeated(c, (n - 1) as nat));
    lemma_run_is_absorbed(first, c, 1, (n - 1) as nat);
    assert(first.emitted.drop_last().push(counted(c, n)) == seq![counted(c, n)]);
    assert forall|at: int| !clear_idiom_at(text, at) by {
        if clear_idiom_at(text, at) {
            assert(text[at] == c && text[at + 1] == c);
        }
    }
    lemma_strip_operators(text);
    lemma_fold_without_idiom(text);
}

/// Comment characters change nothing: a text reads the same with a stretch
/// of them put in at any place.
pub proof fn lemma_comments_are_skipped(before: Seq<char>, comment: Seq<char>, after: Seq<char>)
    requires
        forall|i: int|
            0 <= i < comment.len() ==> !is_operator(#[trigger] comment[i]),
    ensures
        parse(before + comment + after) == parse(before + after),
{
    lemma_strip_skips_comment(before, comment, after);
}

/// A text reads the same once it is stripped of its comments, however
/// often.
pub proof fn lemma_stripping_is_idempotent(source: Seq<char>)
    ensures
        strip(strip(source)) == strip(source),
        parse(strip(source)) == parse(source),
{
    lemma_strip_idempotent(source);
}

/// Folds an opening jump and the pointer move behind it into one scan
/// instruction, where the instructions end in that pattern and at least one
/// instruction stands before it. Returns whether it did.
///
/// `current_instruction_index` is the index that a failure would report;
/// no instructions make this function fail.
pub fn look_for_find_zero(instructions: &mut Program, current_instruction_index: usize) -> (found:
    Result<bool, ParseError>)
    ensures
        found == Ok::<bool, ParseError>(scan_for(old(instructions)@) is Some),
        final(instructions)@ == with_scan(old(instructions)@),
{
    let len = instructions.len();
    if len > 2 {
        let opens = match instructions[len - 2] {
            Instruction::JumpForward(_) => true,
            _ => false,
        };
        match instructions[len - 1] {
            Instruction::DecPtr(stride) => {
                if opens {
                    instructions.pop();
                    instructions.pop();
                    instructions.push(Instruction::FindZeroLeft(stride));
                    assert(instructions@ == with_scan(old(instructions)@));
                    Ok(true)
                } else {
                    Ok(false)
                }
            },
            Instruction::IncPtr(stride) => {
                if opens {
                    instructions.pop();
                    instructions.pop();
                    instructions.push(Instruction::FindZeroRight(stride));
                    assert(instructions@ == with_scan(old(instructions)@));
                    Ok(true)
                } else {
                    Ok(false)
                }
            },
            _ => Ok(false),
        }
    } else {
        Ok(false)
    }
}

/// Appends a directional character to the instructions: the last
/// instruction absorbs it where it can.
fn push_directional(instructions: &mut Program, c: char)
    requires
        is_directional(c),
    ensures
        final(instructions)@ == emit_directional(old(instructions)@, c),
{
    let len = instructions.len();
    if len > 0 {
        let merged = match instructions[len - 1] {
            Instruction::IncPtr(n) => if c == '>' && n < usize::MAX {
                Some(Instruction::IncPtr(n + 1))
            } else {
                None
            },
            Instruction::DecPtr(n) => if c == '<' && n < usize::MAX {
                Some(Instruction::DecPtr(n + 1))
            } else {
                None
            },
            Instruction::IncCell(n) => if c == '+' && n < u32::MAX {
                Some(Instruction::IncCell(n + 1))
            } else {
                None
            },
            Instruction::DecCell(n) => if c == '-' && n < u32::MAX {
                Some(Instruction::DecCell(n + 1))
            } else {
                None
            },
            _ => None,
        };
        if let Some(instruction) = merged {
            instructions.pop();
            instructions.push(instruction);
            return ;
        }
    }
    let unit = if c == '>' {
        Instruction::IncPtr(1)
    } else if c == '<' {
        Instruction::DecPtr(1)
    } else if c == '+' {
        Instruction::IncCell(1)
    } else {
        Instruction::DecCell(1)
    };
    instructions.push(unit);
}

/// Compiles a source text. The text itself is left stripped of its
/// comments.
pub fn parse_program(raw_input: &mut String) -> (result: Result<Program, ParseError>)
    ensures
        final(raw_input)@ == strip(old(raw_input)@),
        parsed(result) == parse(old(raw_input)@),
        result matches Ok(program) ==> well_formed(program@),
{
    strip_program(raw_input);
    let folded = pre_process_program(raw_input);
    let chars = characters(folded.as_str());
    let mut instructions: Program = Vec::new();
    let mut markers_forward: Vec<usize> = Vec::new();
    let mut at: usize = 0;
    proof {
        assert(chars@.skip(0) == chars@);
        assert(ParseState { emitted: instructions@, pending: markers_forward@ }
            == initial_state());
    }
    while at < chars.len()
        invariant
            at <= chars.len(),
            raw_input@ == strip(old(raw_input)@),
            chars@ == fold_clear_idiom(raw_input@),
            instructions@.len() <= at,
            feed_all(
                ParseState { emitted: instructions@, pending: markers_forward@ },
                chars@.skip(at as int),
            ) == feed_all(initial_state(), chars@),
            consistent(ParseState { emitted: instructions@, pending: markers_forward@ }),
        decreases chars.len() - at,
    {
        let c = chars[at];
        let ghost before = ParseState { emitted: instructions@, pending: markers_forward@ };
        proof {
            assert(chars@.skip(at as int)[0] == c);
            assert(chars@.skip(at as int).skip(1) == chars@.skip(at + 1));
            if feed(before, c) is Ok {
                lemma_feed_consistent(before, c);
            }
        }
        if c == '>' || c == '<' || c == '+' || c == '-' {
            push_directional(&mut instructions, c);
        } else if c == ',' {
            instructions.push(Instruction::Input);
        } else if c == '.' {
            instructions.push(Instruction::Output);
        } else if c == '[' {
            markers_forward.push(instructions.len());
            instructions.push(Instruction::JumpForward(0));
        } else if c == ']' {
            let current_instruction_index = instructions.len();
            match markers_forward.pop() {
                Some(opening_bracket_index) => {
                    let found = look_for_find_zero(&mut instructions, current_instruction_index);
                    if let Ok(false) = found {
                        instructions.push(Instruction::JumpBackward(opening_bracket_index));
                        instructions.set(
                            opening_bracket_index,
                            Instruction::JumpForward(current_instruction_index),
                        );
                    }
                },
                None => {
                    return Err(ParseError::BracketError(current_instruction_index));
                },
            }
        } else if c == ZERO_TOKEN {
            instructions.push(Instruction::ZeroCell);
        }
        assert(feed(before, c) == Ok::<ParseState, ParseError>(
            ParseState { emitted: instructions@, pending: markers_forward@ },
        ));
        at += 1;
    }
    proof {
        assert(chars@.skip(at as int).len() == 0);
        if markers_forward.len() == 0 {
            lemma_finish_well_formed(
                ParseState { emitted: instructions@, pending: markers_forward@ },
            );
        }
    }
    if markers_forward.len() > 0 {
        return Err(ParseError::BracketError(markers_forward[0]));
    }
    Ok(instructions)
}

} // verus!
