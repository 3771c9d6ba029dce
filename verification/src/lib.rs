//! An optimizing compiler and interpreter for an eight-operator tape
//! language.
//!
//! A source text is compiled by [`parse_program`] into a [`Program`]: runs of
//! one operator become one instruction with a count, the loop that clears a
//! cell becomes one instruction, and a loop that only moves the data pointer
//! becomes a scan. A [`Machine`] executes a program one step at a time, and
//! [`run_program`] drives a machine over an input held in memory. The module
//! [`equivalence`] proves that the compiled program does what the source
//! text, read operator by operator, does.

pub mod equivalence;
pub mod interpreter;
pub mod parser;
pub mod plain;
pub mod program;
pub mod source;
pub mod unfolding;

use vstd::prelude::*;

pub use crate::interpreter::run_program;
pub use crate::interpreter::Action;
pub use crate::interpreter::Execution;
pub use crate::interpreter::Machine;
pub use crate::interpreter::RuntimeError;
pub use crate::parser::look_for_find_zero;
pub use crate::parser::parse_program;
pub use crate::parser::ParseError;
pub use crate::program::Instruction;
pub use crate::program::Program;
pub use crate::source::pre_process_program;
pub use crate::source::strip_program;

verus! {

/// Compiles `input` and runs the program for at most `max_steps` steps with
/// `stdin` as its input channel. A text that does not compile is not run.
pub fn parse_and_run(input: String, stdin: &[u8], max_steps: usize) -> (outcome: Result<
    Execution,
    ParseError,
>)
    ensures
        match parser::parse(input@) {
            Ok(program) => outcome matches Ok(execution) && execution@ == interpreter::run(
                program,
                stdin@,
                max_steps as nat,
            ),
            Err(e) => outcome == Err::<Execution, ParseError>(e),
        },
        outcome matches Ok(execution) ==> (execution.result matches Some(
            Err(RuntimeError::InputError(text)),
        ) ==> text@ == interpreter::input_failure(interpreter::exhausted())),
{
    let mut source = input;
    match parse_program(&mut source) {
        Ok(program) => Ok(run_program(&program, stdin, max_steps)),
        Err(e) => Err(e),
    }
}

} // verus!
