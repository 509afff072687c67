//! Errors reported by the storage engines.
use vstd::prelude::*;

verus! {

/// What the library reports when it refuses input.
#[derive(Debug, Clone, Copy, PartialEq, Eq, Structural)]
pub enum Error {
    /// A log record that is cut short, has lengths that do not match its
    /// size, has an unknown type tag, or is a delete that carries a value.
    InvalidWalRecord,
}

/// The result type of the engines.
pub type KvResult<T> = core::result::Result<T, Error>;

} // verus!
