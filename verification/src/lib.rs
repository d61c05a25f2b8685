pub mod algorithms;
pub mod args;
pub mod cluster;
pub mod clustered_trajectories;
pub mod corridor;
pub mod geometry;
pub mod input_od_line;
pub mod priority_queue;
pub mod raw_trajectory_store;
pub mod gui_parallel_runner;
pub mod trajectory;
pub mod view_model;

use vstd::prelude::*;

verus! {

/// Width of the angle circle in centidegrees: angles are stored as
/// hundredths of a degree in the half-open range `[0, FULL_TURN_CD)`.
pub const FULL_TURN_CD: u32 = 36000;

/// Circular distance between two direction angles, in centidegrees:
/// the shorter way around the circle from `a` to `b`.
pub open spec fn spec_circular_diff_cd(a: u32, b: u32) -> int {
    let d = if a >= b { a - b } else { b - a };
    if d <= FULL_TURN_CD - d { d } else { FULL_TURN_CD - d }
}

/// Circular distance between two direction angles in centidegrees.
pub fn circular_diff_cd(a: u32, b: u32) -> (r: u32)
    requires
        a < FULL_TURN_CD,
        b < FULL_TURN_CD,
    ensures
        r == spec_circular_diff_cd(a, b),
        r <= FULL_TURN_CD / 2,
{
    let d: u32 = if a >= b { a - b } else { b - a };
    if d <= FULL_TURN_CD - d {
        d
    } else {
        FULL_TURN_CD - d
    }
}

} // verus!
