use vstd::prelude::*;
use crate::geometry::Point;

verus! {

/// One parsed origin-destination input line: an identifier, a traveler
/// count, and the two endpoints on the integer grid.
#[derive(Clone, Copy, Debug)]
pub struct InputODLine {
    pub line_id: usize,
    pub weight: u32,
    pub start: Point,
    pub end: Point,
}

impl InputODLine {
    /// The line is acceptable as input: endpoints within the input
    /// coordinate bound and a positive weight.
    pub open spec fn wf(self) -> bool {
        self.start.wf_input() && self.end.wf_input() && self.weight >= 1
    }
}

} // verus!
