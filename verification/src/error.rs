use vstd::prelude::*;

verus! {

/// Typed failures of the codec and the layers around it. Every fallible
/// operation of this library reports one of these; no operation panics on
/// malformed input.
#[derive(Clone, Copy, PartialEq, Eq, Structural, Debug)]
pub enum AbiError {
    /// The contract descriptor violates the schema (duplicate names, bad tags).
    MalformedAbi,
    /// No function with the requested name is declared.
    FunctionNotFound,
    /// A value's runtime shape disagrees with its declared parameter type.
    TypeMismatch,
    /// The argument list's length differs from the declared parameter list's.
    ArgumentCountMismatch,
    /// A body's leading selector is not the expected one.
    SelectorMismatch,
    /// Fewer bits or reference slots remain than the declared type needs.
    CellUnderflow,
    /// A tag or prefix read from the body is out of range.
    InvalidEncoding,
    /// The function declares outputs but no outbound body supplied them.
    OutputNotFound,
    /// A decoded hash or signature has the wrong byte length.
    InvalidLength,
    /// Initial-state bytes do not parse as a code/data pair.
    InvalidStateInit,
    /// An address string does not follow the standard workchain:hex form.
    AddressParseError,
}

} // verus!
