//! The ways in which resolving, packing and unpacking can fail.
use vstd::prelude::*;

verus! {

/// Why a template could not be resolved, packed or unpacked.
#[derive(Clone, Copy, Debug, PartialEq, Eq, Structural)]
pub enum TemplateError {
    /// An address descriptor that is malformed or does not resolve to an address.
    InvalidAddress,
    /// String data that is neither valid hex nor valid base64.
    InvalidEncoding,
    /// A typed-value tag that is not recognised.
    UnsupportedType,
    /// An address descriptor of a shape that is not recognised.
    UnsupportedDescriptor,
    /// A read past the end of the buffer.
    OutOfBounds,
    /// A required key that is absent.
    MissingField,
    /// Data of a kind or form that the typed value cannot hold.
    InvalidValue,
    /// No instruction of the template has the program id asked for.
    ProgramNotFound,
}

} // verus!
