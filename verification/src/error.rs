//! The failures that resolving, decoding and encoding can report.

use vstd::prelude::*;

verus! {

/// Every way in which an operation of this crate can fail.
#[derive(Clone, Debug, PartialEq, Eq)]
pub enum MemflowPyError {
    /// The base-type name of a host type is none of the recognised ones.
    InvalidType(String),
    /// A structure field was declared without a type.
    NoType(String),
    /// A scalar type code names a kind that has no conversion.
    UnsupportedIdentifier,
    /// The object being encoded lacks an attribute that the structure declares.
    MissingAttribute(String),
    /// A byte buffer does not have the exact length its descriptor asks for.
    SliceConversion,
    /// The host object or host type is not of the shape that was asked for.
    HostModelError,
    /// The described layout does not fit in the address space.
    SizeOverflow,
}

/// The mathematical model of a failure: names are sequences of characters.
pub enum Failure {
    InvalidType(Seq<char>),
    NoType(Seq<char>),
    UnsupportedIdentifier,
    MissingAttribute(Seq<char>),
    SliceConversion,
    HostModelError,
    SizeOverflow,
}

impl View for MemflowPyError {
    type V = Failure;

    open spec fn view(&self) -> Failure {
        match self {
            MemflowPyError::InvalidType(name) => Failure::InvalidType(name@),
            MemflowPyError::NoType(name) => Failure::NoType(name@),
            MemflowPyError::UnsupportedIdentifier => Failure::UnsupportedIdentifier,
            MemflowPyError::MissingAttribute(name) => Failure::MissingAttribute(name@),
            MemflowPyError::SliceConversion => Failure::SliceConversion,
            MemflowPyError::HostModelError => Failure::HostModelError,
            MemflowPyError::SizeOverflow => Failure::SizeOverflow,
        }
    }
}

/// The model of a result: the model of what it holds, on either side.
pub open spec fn outcome<T: View>(r: Result<T, MemflowPyError>) -> Result<T::V, Failure> {
    match r {
        Ok(value) => Ok(value@),
        Err(e) => Err(e@),
    }
}

} // verus!
