//! Error types of the parser and of the interpreter.

use crate::inst::RoLoc;
use crate::integer::Integer;
use vstd::prelude::*;

verus! {

/// The error type returned when one source line cannot be parsed.
#[derive(Clone, Copy, PartialEq, Eq, Structural, Hash, Debug)]
pub enum ParseInstructionError {
    /// The opcode was not recognized.
    UnknownInstruction,
    /// Invalid `<value>` operand: not a constant of the word type.
    InvalidValue,
    /// Invalid `<register>` operand: not a register index.
    InvalidRegister,
    /// Invalid `<address>` operand: not an instruction index.
    InvalidAddress,
    /// An indirect jump operand, which this machine does not offer.
    DisabledIndirect,
}

/// The error type returned when a program text cannot be parsed.
#[derive(Clone, PartialEq, Eq, Debug)]
pub enum ParseCodeError {
    /// The text holds no instruction at all.
    NoInst,
    /// A line cannot be parsed: its 0-based index, its raw bytes, and the cause.
    Inst(usize, Vec<u8>, ParseInstructionError),
}

/// Spec-level run error: the abstract counterpart of [`RunError`].
pub enum ErrS {
    /// A read instruction found no input left.
    ReadEof,
    /// The cell at this index was read before any write to it.
    ReadUninit(nat),
    /// This cell value is no valid cell index.
    InvalidAddress(int),
    /// Checked arithmetic failed; a zero divisor counts as overflow.
    IntegerOverflow,
    /// A jump was taken to an index at or past the end of the code.
    InexistentJump,
    /// Execution fell past the last instruction without a `STOP`.
    Eof,
}

/// The error type returned by [`Ram::step`](crate::runner::Ram::step).
#[derive(Clone, Copy, PartialEq, Eq, Hash, Debug)]
pub enum RunError<T: Integer> {
    /// A `READ` was issued, but nothing was left to read.
    ReadEof,
    /// An uninitialized memory location was read.
    ReadUninit { adr: RoLoc },
    /// An indirect access went through a cell whose value is no address.
    InvalidAddress { adr: T },
    /// An arithmetic instruction overflowed, or divided by zero.
    IntegerOverflow,
    /// A jump landed at or past the end of the code.
    InexistentJump,
    /// `step` was called with no instruction left to execute.
    Eof,
}

impl<T: Integer> View for RunError<T> {
    type V = ErrS;

    open spec fn view(&self) -> ErrS {
        match *self {
            RunError::ReadEof => ErrS::ReadEof,
            RunError::ReadUninit { adr } => ErrS::ReadUninit(adr.0 as nat),
            RunError::InvalidAddress { adr } => ErrS::InvalidAddress(adr.v()),
            RunError::IntegerOverflow => ErrS::IntegerOverflow,
            RunError::InexistentJump => ErrS::InexistentJump,
            RunError::Eof => ErrS::Eof,
        }
    }
}

} // verus!
