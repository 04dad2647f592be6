//! Calls into the vector library.

use vstd::prelude::*;

verus! {

/// glam's `UVec3::max_element` on the vector `(x, y, z)`: the largest of the
/// three components.
#[verifier::external_body]
pub(crate) fn max_element(x: u32, y: u32, z: u32) -> (m: u32)
    ensures
        m >= x,
        m >= y,
        m >= z,
        m == x || m == y || m == z,
{
    glam::UVec3::new(x, y, z).max_element()
}

} // verus!
