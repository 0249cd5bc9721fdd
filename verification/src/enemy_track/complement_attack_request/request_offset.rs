use vstd::prelude::*;

verus! {

/// A position among the demand frames of a request, held by whoever probes
/// the request. It may point past the last frame.
pub struct RequestOffset {
    request_offset: usize,
}

impl View for RequestOffset {
    type V = int;

    closed spec fn view(&self) -> int {
        self.request_offset as int
    }
}

impl RequestOffset {
    pub fn new_default() -> (offset: Self)
        ensures
            offset@ == 0,
    {
        Self::new(0)
    }

    pub fn new(point: usize) -> (offset: Self)
        ensures
            offset@ == point,
    {
        Self { request_offset: point }
    }

    pub fn get(&self) -> (point: usize)
        ensures
            point == self@,
    {
        self.request_offset
    }
}

} // verus!
