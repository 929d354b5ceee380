//! Three-component integer vectors.

use vstd::prelude::*;

verus! {

/// A vector with three components of one type.
#[derive(Clone, Copy, Debug, PartialEq, Eq, Hash)]
pub struct Vector3<T> {
    pub x: T,
    pub y: T,
    pub z: T,
}

impl<T> Vector3<T> {
    /// Builds the vector `(x, y, z)`.
    pub fn new(x: T, y: T, z: T) -> (v: Self)
        ensures
            v == (Vector3 { x, y, z }),
    {
        Vector3 { x, y, z }
    }
}

} // verus!
