//! The ownership box a schema lives in.
//!
//! The GATT module owns each schema through such a box; per-connection views
//! resolve against the box they were derived from, and the module stops
//! resolving a view as soon as the box it came from is gone, so a view never
//! outlives its schema observably.

use vstd::prelude::*;

verus! {

/// Owns a value on behalf of exactly one holder; views derived from the box
/// only ever borrow it.
#[derive(Clone, Debug)]
pub struct SharedBox<T> {
    /// The owned value.
    pub value: T,
}

impl<T> SharedBox<T> {
    /// Takes ownership of `value`.
    pub fn new(value: T) -> (r: SharedBox<T>)
        ensures
            r.value == value,
    {
        SharedBox { value }
    }
}

} // verus!
