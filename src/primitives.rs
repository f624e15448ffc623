use vstd::prelude::*;

use crate::errors::BVHBuildError;

verus! {

/// Positions that make one triangle.
pub const POSITIONS_PER_TRIANGLE: usize = 3;

/// Number of triangles in a buffer of `position_count` positions, three
/// consecutive positions to a triangle.
pub fn triangle_count(position_count: usize) -> (r: Result<u32, BVHBuildError>)
    ensures
        position_count % 3 != 0 ==> r == Err::<u32, BVHBuildError>(BVHBuildError::NotTriangulated(position_count)),
        position_count % 3 == 0 && position_count / 3 > u32::MAX ==> r == Err::<u32, BVHBuildError>(
            BVHBuildError::TooManyPrimitives(position_count),
        ),
        position_count % 3 == 0 && position_count / 3 <= u32::MAX ==> r == Ok::<u32, BVHBuildError>(
            (position_count / 3) as u32,
        ),
{
    if position_count % POSITIONS_PER_TRIANGLE != 0 {
        return Err(BVHBuildError::NotTriangulated(position_count));
    }
    let n = position_count / POSITIONS_PER_TRIANGLE;
    if n > u32::MAX as usize {
        return Err(BVHBuildError::TooManyPrimitives(position_count));
    }
    Ok(n as u32)
}

/// The index array of a fresh build: slot `i` holds primitive `i`.
pub fn identity_indices(count: u32) -> (r: Vec<u32>)
    ensures
        r@.len() == count,
        forall|i: int| 0 <= i < count ==> #[trigger] r@[i] == i,
{
    let mut v: Vec<u32> = Vec::new();
    let mut i: u32 = 0;
    while i < count
        invariant
            i <= count,
            v@.len() == i,
            forall|k: int| 0 <= k < i ==> #[trigger] v@[k] == k,
        decreases count - i,
    {
        v.push(i);
        i = i + 1;
    }
    v
}

} // verus!
