use vstd::prelude::*;

verus! {

/// What can go wrong in the core. Validation errors (`InvalidCharacter`,
/// `TooLong`) are the caller's fault; the others come from data or services.
#[derive(PartialEq, Eq, Structural, Clone, Copy, Debug)]
pub enum NameError {
    /// A label holds a character outside `[a-z0-9_-]`.
    InvalidCharacter,
    /// A label is longer than its field.
    TooLong,
    /// Decoded bytes are not UTF-8 text.
    InvalidEncoding,
    /// A line of ledger text matches none of the known shapes.
    TranscodeError,
    /// A document lacks a field a record needs, or holds it in the wrong kind.
    ShapeMismatch,
    /// The hash primitive refused its input.
    HashPrimitiveError,
    /// The ledger holds no value under the key.
    NotFound,
    /// The ledger could not be reached.
    TransportError,
    /// A parent chain ran longer than the traversal allows.
    ChainTooDeep,
}

} // verus!
