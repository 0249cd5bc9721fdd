use vstd::prelude::*;

verus! {

/// A remembered cursor of a request, to which the request can be sent back
/// after probing ahead.
pub struct RequestRestorePoint {
    point: usize,
}

impl View for RequestRestorePoint {
    type V = int;

    closed spec fn view(&self) -> int {
        self.point as int
    }
}

impl RequestRestorePoint {
    pub(super) fn new(point: usize) -> (mark: Self)
        ensures
            mark@ == point,
    {
        Self { point }
    }

    pub fn get(&self) -> (point: usize)
        ensures
            point == self@,
    {
        self.point
    }
}

} // verus!
