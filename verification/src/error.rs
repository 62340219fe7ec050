//! Assembly-time errors. Every fatal condition of the assembler is reported
//! as a value of `AsmError`, carrying the offending token or label.

use vstd::prelude::*;

verus! {

/// A fatal assembly error.
#[derive(Debug, Clone, PartialEq, Eq)]
pub enum AsmError {
    /// The first token of an instruction is not a known mnemonic.
    UnknownMnemonic(Vec<u8>),
    /// A mnemonic was given fewer operands than its shape needs.
    MissingOperand(Vec<u8>),
    /// A register operand is not `$N` with `N` in 0..=31 decimal.
    MalformedRegister(Vec<u8>),
    /// The same label is defined on two distinct lines.
    DuplicateLabel(Vec<u8>),
    /// An operand refers to a label that no line defines.
    UndefinedLabel(Vec<u8>),
}

/// The mathematical model of an `AsmError`.
pub enum SpecAsmError {
    UnknownMnemonic(Seq<u8>),
    MissingOperand(Seq<u8>),
    MalformedRegister(Seq<u8>),
    DuplicateLabel(Seq<u8>),
    UndefinedLabel(Seq<u8>),
}

impl View for AsmError {
    type V = SpecAsmError;

    open spec fn view(&self) -> SpecAsmError {
        match self {
            AsmError::UnknownMnemonic(t) => SpecAsmError::UnknownMnemonic(t@),
            AsmError::MissingOperand(t) => SpecAsmError::MissingOperand(t@),
            AsmError::MalformedRegister(t) => SpecAsmError::MalformedRegister(t@),
            AsmError::DuplicateLabel(t) => SpecAsmError::DuplicateLabel(t@),
            AsmError::UndefinedLabel(t) => SpecAsmError::UndefinedLabel(t@),
        }
    }
}

} // verus!
