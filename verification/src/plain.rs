//! The plain reading of a source text: one instruction for each operator.
//! Nothing executes it; it is what the folded program is measured against.

use vstd::prelude::*;
use crate::parser::finish;
use crate::parser::initial_state;
use crate::parser::is_directional;
use crate::parser::unit_instruction;
use crate::parser::ParseError;
use crate::parser::ParseState;
use crate::program::Instruction;
use crate::source::strip;

verus! {

/// The state after one more operator when nothing is folded: every
/// directional character is an instruction of its own, and every loop keeps
/// both of its jumps.
pub open spec fn feed_plain(state: ParseState, c: char) -> Result<ParseState, ParseError> {
    if is_directional(c) {
        Ok(ParseState { emitted: state.emitted.push(unit_instruction(c)), ..state })
    } else if c == ',' {
        Ok(ParseState { emitted: state.emitted.push(Instruction::Input), ..state })
    } else if c == '.' {
        Ok(ParseState { emitted: state.emitted.push(Instruction::Output), ..state })
    } else if c == '[' {
        Ok(
            ParseState {
                emitted: state.emitted.push(Instruction::JumpForward(0)),
                pending: state.pending.push(state.emitted.len() as usize),
            },
        )
    } else if c == ']' {
        if state.pending.len() == 0 {
            Err(ParseError::BracketError(state.emitted.len() as usize))
        } else {
            let opening = state.pending.last();
            let here = state.emitted.len() as usize;
            Ok(
                ParseState {
                    emitted: state.emitted.push(Instruction::JumpBackward(opening)).update(
                        opening as int,
                        Instruction::JumpForward(here),
                    ),
                    pending: state.pending.drop_last(),
                },
            )
        }
    } else {
        Ok(state)
    }
}

/// The state after all of `tokens`, read from `state` on, when nothing is
/// folded.
pub open spec fn feed_all_plain(state: ParseState, tokens: Seq<char>) -> Result<
    ParseState,
    ParseError,
>
    decreases tokens.len(),
{
    if tokens.len() == 0 {
        Ok(state)
    } else {
        match feed_plain(state, tokens[0]) {
            Ok(next) => feed_all_plain(next, tokens.skip(1)),
            Err(e) => Err(e),
        }
    }
}

/// The plain pass emits at most one instruction for each character.
pub proof fn lemma_feed_all_plain_length(state: ParseState, tokens: Seq<char>)
    requires
        forall|k: int|
            0 <= k < state.pending.len() ==> (#[trigger] state.pending[k]) < state.emitted.len(),
    ensures
        feed_all_plain(state, tokens) matches Ok(end) ==> end.emitted.len() <= state.emitted.len()
            + tokens.len(),
    decreases tokens.len(),
{
    if tokens.len() > 0 && feed_plain(state, tokens[0]) is Ok {
        let next = feed_plain(state, tokens[0])->Ok_0;
        assert forall|k: int| 0 <= k < next.pending.len() implies (#[trigger] next.pending[k])
            < next.emitted.len() by {
            if k < state.pending.len() {
                assert(next.pending[k] == state.pending[k]);
            }
        }
        lemma_feed_all_plain_length(next, tokens.skip(1));
    }
}

/// Reading a text in two parts is reading it whole.
pub proof fn lemma_feed_all_plain_add(state: ParseState, first: Seq<char>, then: Seq<char>)
    ensures
        feed_all_plain(state, first + then) == match feed_all_plain(state, first) {
            Ok(middle) => feed_all_plain(middle, then),
            Err(e) => Err(e),
        },
    decreases first.len(),
{
    if first.len() == 0 {
        assert(first + then == then);
    } else {
        assert((first + then)[0] == first[0]);
        assert((first + then).skip(1) == first.skip(1) + then);
        if feed_plain(state, first[0]) is Ok {
            lemma_feed_all_plain_add(feed_plain(state, first[0])->Ok_0, first.skip(1), then);
        }
    }
}

/// The program that a source text stands for when it is read operator by
/// operator, with no run merged and no loop folded.
pub open spec fn parse_plain(source: Seq<char>) -> Result<Seq<Instruction>, ParseError> {
    match feed_all_plain(initial_state(), strip(source)) {
        Ok(state) => finish(state),
        Err(e) => Err(e),
    }
}

} // verus!
