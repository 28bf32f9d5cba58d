#![allow(non_snake_case)]

use vstd::prelude::*;

pub mod matrix;
pub mod msolver;
pub mod perm;
pub mod preconditioner;
pub mod scalar;
pub mod vector;

verus! {

/// Sum of two machine integers; the small arithmetic helper the mesh side of
/// the project exposes.
pub fn add(left: usize, right: usize) -> (r: usize)
    requires
        left + right <= usize::MAX,
    ensures
        r == left + right,
{
    left + right
}

} // verus!
