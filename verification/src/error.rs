//! Error kinds of the store.

use vstd::prelude::*;

verus! {

/// What a store operation can fail with.
///
/// `LocalLevelMismatch` is the internal concurrency-retry signal: the
/// directory snapshot an operation read raced a completed split, and the
/// caller must retry from a fresh snapshot. `Codec` reports a page chain
/// whose pages cannot be read back as valid frames. `IO` carries the raw
/// errno of a failed device call.
#[derive(Clone, Copy, Debug, PartialEq, Eq, Structural)]
pub enum Error {
    LocalLevelMismatch,
    Codec,
    IO(i32),
}

pub type Result<T> = core::result::Result<T, Error>;

} // verus!
