use vstd::prelude::*;
use crate::trajectory::{SEGMENT_SIZE_LIMIT, MAX_DIST_LIMIT};

verus! {

/// How the discovery pass is scheduled.  The serial pass lives in this
/// crate; the work-stealing variant drives the same per-trajectory
/// function from a thread pool outside of it.
#[derive(Clone, Copy, Debug, PartialEq, Eq, Structural)]
pub enum ExecutionMode {
    Serial,
    ParallelRayon,
}

/// Which front ends are active around a run.
#[derive(Clone, Copy, Debug, PartialEq, Eq, Structural)]
pub enum InterfaceMode {
    Gui,
    Logger,
    GuiAndLogger,
    Performance,
}

/// Upper bound for `max_angle`: 22.5 degrees in centidegrees, matching
/// the bucket-size constraint of the angle store.
pub const MAX_ANGLE_LIMIT_CD: u32 = 2250;

/// The two tab-separated layouts of the per-segment output.
#[derive(Clone, Copy, Debug, PartialEq, Eq, Structural)]
pub enum SegmentOutputFormat {
    OldTraclus,
    NewTraclus,
}

pub fn default_max_dist() -> (r: u64)
    ensures
        r == 250,
{
    250
}

pub fn default_min_density() -> (r: u32)
    ensures
        r == 3,
{
    3
}

pub fn default_max_angle() -> (r: u32)
    ensures
        r == 500,
{
    500
}

pub fn default_segment_size() -> (r: u64)
    ensures
        r == 500,
{
    500
}

pub fn default_mode() -> (r: ExecutionMode)
    ensures
        r == ExecutionMode::Serial,
{
    ExecutionMode::Serial
}

pub fn default_interface_mode() -> (r: InterfaceMode)
    ensures
        r == InterfaceMode::Gui,
{
    InterfaceMode::Gui
}

/// The clustering configuration.  Distances and sizes are in grid
/// units; angles are in centidegrees (hundredths of a degree).
#[derive(Clone, Debug)]
pub struct TraclusArgs {
    pub file: String,
    pub max_dist: u64,
    pub min_density: u32,
    pub max_angle: u32,
    pub segment_size: u64,
    pub mode: ExecutionMode,
    pub interface_mode: InterfaceMode,
}

impl TraclusArgs {
    /// Every parameter is in its documented range: `max_dist >= 0` (by
    /// type), `min_density >= 1`, `max_angle` at most 22.5 degrees, and
    /// a positive `segment_size`.
    pub open spec fn wf(self) -> bool {
        &&& self.max_dist <= MAX_DIST_LIMIT
        &&& self.min_density >= 1
        &&& self.max_angle <= MAX_ANGLE_LIMIT_CD
        &&& 1 <= self.segment_size <= SEGMENT_SIZE_LIMIT
    }

    /// Runtime check of the same ranges, for callers arriving from
    /// unchecked input.
    pub fn validate(&self) -> (r: bool)
        ensures
            r == self.wf(),
    {
        self.max_dist <= MAX_DIST_LIMIT && self.min_density >= 1 && self.max_angle
            <= MAX_ANGLE_LIMIT_CD && 1 <= self.segment_size && self.segment_size
            <= SEGMENT_SIZE_LIMIT
    }
}

} // verus!
