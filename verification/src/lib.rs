//! A set whose elements carry their own keys.
//!
//! An element reports its key through [`Dual::key`]. The set files each
//! element under the key it reports, and moves it to its new place whenever a
//! mutation that goes through the set changes that key.

pub mod hash;
pub mod model;
pub mod sweep;

pub use hash::DualHashSet;

use vstd::prelude::*;

verus! {

/// A value that contains its own key.
///
/// The key may depend on any part of the value, so it may change when the
/// value is mutated. `spec_key` is the key as contracts see it; `key` is the
/// accessor that compiled code calls, and it must report exactly that: it is
/// a function of the value alone and has no effect.
///
/// An implementation that is to be verified says in `spec_key` what the key
/// is, and `key` is proved against it. An implementation in plain Rust writes
/// `key` only, and its author answers for it.
pub trait Dual {
    /// The key type.
    type Key: Clone + Eq;

    /// The key that the value currently reports.
    open spec fn spec_key(&self) -> Self::Key {
        arbitrary()
    }

    /// Get a reference to the key.
    fn key(&self) -> (k: &Self::Key)
        ensures
            *k == self.spec_key(),
    ;
}

} // verus!
