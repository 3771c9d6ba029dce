//! The instruction set.

use vstd::prelude::*;

verus! {

/// One step of a compiled program.
///
/// Counts, strides and jump targets are plain non-negative integers; the
/// jump targets are indices into the program that holds the instruction.
#[derive(Clone, Copy, Debug, PartialEq, Eq, Structural)]
pub enum Instruction {
    /// Move the data pointer right by the count.
    IncPtr(usize),
    /// Move the data pointer left by the count.
    DecPtr(usize),
    /// Add the count to the current cell.
    IncCell(u32),
    /// Subtract the count from the current cell.
    DecCell(u32),
    /// Emit the current cell.
    Output,
    /// Read one byte into the current cell.
    Input,
    /// Jump to the index if the current cell is zero.
    JumpForward(usize),
    /// Jump to the index if the current cell is not zero.
    JumpBackward(usize),
    /// Set the current cell to zero.
    ZeroCell,
    /// Advance the data pointer by the stride until it rests on a zero cell.
    FindZeroRight(usize),
    /// Move the data pointer back by the stride until it rests on a zero cell.
    FindZeroLeft(usize),
}

/// A compiled program: instructions in execution order.
pub type Program = Vec<Instruction>;

} // verus!
