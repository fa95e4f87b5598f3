//! Decoding of MessagePack values.
use vstd::prelude::*;

pub mod value_ref;

pub use self::value_ref::{read_value_ref, read_value_ref_with_max_depth, BorrowRead};



verus! {

#[verifier::external_type_specification]
#[verifier::external_body]
pub struct ExIoError(std::io::Error);

/// The maximum recursion depth before [`Error::DepthLimitExceeded`] is returned.
pub const MAX_DEPTH: usize = 1024;

/// All the errors that can occur when a value is decoded; `E` is the error of the reader.
#[derive(Debug)]
pub enum Error<E = std::io::Error> {
    /// Error while reading marker byte.
    InvalidMarkerRead(E),
    /// Error while reading data.
    InvalidDataRead(E),
    /// The depth limit [`MAX_DEPTH`] was exceeded.
    DepthLimitExceeded,
}

/// The category of an [`Error`], in the terms of `std::io::ErrorKind`.
#[derive(Clone, Copy, Debug, PartialEq, Eq)]
pub enum ErrorKind {
    /// `std::io::ErrorKind::Other`.
    Other,
    /// `std::io::ErrorKind::Unsupported`.
    Unsupported,
}

impl<E> Error<E> {
    /// The category of the error: a failed read is `Other`, an exceeded depth `Unsupported`.
    pub fn kind(&self) -> (k: ErrorKind)
        ensures
            k == (if self is DepthLimitExceeded {
                ErrorKind::Unsupported
            } else {
                ErrorKind::Other
            }),
    {
        match *self {
            Error::InvalidMarkerRead(_) => ErrorKind::Other,
            Error::InvalidDataRead(_) => ErrorKind::Other,
            Error::DepthLimitExceeded => ErrorKind::Unsupported,
        }
    }
}

/// One level of depth less, or the depth error when none is left.
pub(crate) fn decrement_depth<E>(depth: u16) -> (r: Result<u16, Error<E>>)
    ensures
        depth > 0 ==> r == Ok::<u16, Error<E>>((depth - 1) as u16),
        depth == 0 ==> r matches Err(Error::DepthLimitExceeded),
{
    match depth.checked_sub(1) {
        Some(d) => Ok(d),
        None => Err(Error::DepthLimitExceeded),
    }
}

} // verus!
