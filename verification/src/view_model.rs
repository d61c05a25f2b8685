use vstd::prelude::*;

verus! {

/// Computation strategy selected in a front end's form.
#[derive(Clone, Copy, Debug, PartialEq, Eq, Structural)]
pub enum ComputeMode {
    Serial,
    Parallel,
}

impl Default for ComputeMode {
    fn default() -> (r: ComputeMode)
        ensures
            r == ComputeMode::Parallel,
    {
        ComputeMode::Parallel
    }
}

/// One committed parameter set of a front end's form.  Values are in
/// the units the form edits; a front end converts them to grid units
/// and centidegrees before running the engine.
#[derive(Clone, Copy, Debug, PartialEq, Eq, Structural)]
pub struct ParameterSet {
    pub max_angle: i32,
    pub min_density: i32,
    pub max_distance: i32,
    pub seg_size: i32,
}

impl Default for ParameterSet {
    fn default() -> (r: ParameterSet)
        ensures
            r == (ParameterSet { max_angle: 10, min_density: 2, max_distance: 10, seg_size: 5 }),
    {
        ParameterSet { max_angle: 10, min_density: 2, max_distance: 10, seg_size: 5 }
    }
}

} // verus!
