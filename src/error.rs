use vstd::prelude::*;

verus! {

/// Why an object could not be read.
#[derive(Debug, PartialEq, Eq, Clone, Copy, Structural)]
pub enum Violation {
    /// A `:` or a token inside an object, with no key/value phase to place it in.
    NoPhase,
    /// A `:` that follows another `:` with no new key in between.
    PhaseWasValue,
    /// An object entry whose key is missing or is not a string.
    KeyNotString,
}

/// Why a text is not accepted; positions are character offsets.
#[derive(Debug, PartialEq, Eq, Clone, Copy, Structural)]
pub enum SyntaxError {
    /// The input is empty, or holds no value at all.
    EndOfInputTooEarly,
    /// A character that no grammar rule accepts at this point.
    UnexpectedCharacterAt(usize),
    /// A malformed object.
    StructuralViolation(Violation, usize),
    /// The input ended while a string, literal, array or object was still open.
    UnterminatedInput,
    /// The input holds more than one top-level value.
    MultipleRootValues,
}

} // verus!
