//! The system error codes that the socket logic tells apart.
use vstd::prelude::*;

verus! {

/// An error code of a socket call.
///
/// The codes that decide something have a variant of their own; every other
/// code is carried through unread.
#[derive(Clone, Copy, Debug, PartialEq, Eq, Structural)]
pub enum Errno {
    ENOENT,
    ECONNREFUSED,
    EACCES,
    EINPROGRESS,
    EAGAIN,
    EINVAL,
    Other(i32),
}

} // verus!
