//! The errors of the store.

use vstd::prelude::*;
use crate::codec::DecodeError;

verus! {

/// Why an operation of the store or of the index did not succeed.
#[derive(Clone, Copy, Debug, PartialEq, Eq)]
pub enum Error {
    /// A session was to be started while another one is open.
    SessionAlreadyOpen,
    /// A record was to be appended, or a session stopped, with none open.
    NoOpenSession,
    /// No session has the identifier that was asked for.
    NotFound,
    /// The bytes of the log could not be decoded.
    Decode(DecodeError),
    /// The newest session has the greatest identifier there is, so no new
    /// session can get a greater one.
    IdSpaceExhausted,
}

} // verus!
