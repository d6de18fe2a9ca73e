//! The uniform grid: its step and the coordinates of its nodes.

use crate::scalar::{Arithmetic, Scalar};
use vstd::prelude::*;

verus! {

/// The distance between neighbouring nodes when `count` nodes span `[lo, hi]`:
/// `(hi - lo) / (count - 1)`.
pub open spec fn step<T: Arithmetic>(count: usize, lo: T, hi: T) -> T {
    hi.minus(lo).over(T::of_count(count).minus(T::of_count(1)))
}

/// The coordinate of node `index` on the grid that starts at `lo` with step
/// `dx`: `lo + index * dx`.
pub open spec fn node<T: Arithmetic>(index: usize, dx: T, lo: T) -> T {
    lo.plus(T::of_count(index).times(dx))
}

/// Computes the step of a grid of `x_discrete` nodes, both ends included.
///
/// With fewer than two nodes there is no step; the quotient is then whatever
/// the number type makes of it.
pub fn compute_dx<T: Scalar>(x_discrete: usize, x_min: T, x_max: T) -> (dx: T)
    ensures
        dx == step(x_discrete, x_min, x_max),
{
    x_max.sub(x_min).div(T::from_count(x_discrete).sub(T::from_count(1)))
}

/// Computes the coordinate of node `index`.
pub fn compute_x<T: Scalar>(index: usize, dx: T, x_min: T) -> (x: T)
    ensures
        x == node(index, dx, x_min),
{
    x_min.add(T::from_count(index).mul(dx))
}

} // verus!
