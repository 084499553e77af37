use vstd::prelude::*;

verus! {

/// The ways a decode or a bit set operation can fail.
#[derive(Debug, Clone, Copy, PartialEq, Eq, Structural)]
pub enum ErrorKind {
    /// The input ended before the bytes a value needs were available.
    UnexpectedEOF,
    /// A caller-supplied buffer or array is too small for the request.
    IllegalArgument,
    /// The encoded data is malformed, or an object is in the wrong state.
    IllegalState,
}

pub type Result<T> = core::result::Result<T, ErrorKind>;

} // verus!
