//! The error taxonomy of the service, as an explicit enum of kinds so that
//! callers can branch on the kind of failure.

use vstd::prelude::*;

verus! {

/// What went wrong, by kind: a malformed configuration, an I/O failure while
/// reading the corpus or the connection, a matrix text that does not frame as
/// a square grid, or a factorization that could not be carried out.  The
/// engine deliberately detects no failure of its own -- a zero pivot flows
/// through as non-finite entries -- so the last kind is reserved for callers
/// that choose to surface one.
#[derive(Clone, Copy, Debug, PartialEq, Eq, Structural)]
pub enum ErrorKind {
    Config,
    Io,
    Decode,
    Factorization,
}

} // verus!
