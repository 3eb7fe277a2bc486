//! The kinds of failure that persistence adapters around the forest report.
use vstd::prelude::*;

verus! {

/// A failure of a persistence adapter; the forest itself never fails.
#[derive(PartialEq, Eq, Structural, Clone, Copy, Debug)]
pub enum Error {
    /// A byte sink or source failed.
    Io,
    /// A state snapshot could not be encoded or decoded.
    Serde,
    /// Any other failure.
    Unknown,
}

/// A result whose failure is an [`Error`].
pub type Result<T> = core::result::Result<T, Error>;

} // verus!
