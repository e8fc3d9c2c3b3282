//! Ordering of outside text fetches: only the answer to the most recent
//! request may replace what is shown.
use vstd::prelude::*;

verus! {

/// Numbers the fetch requests and tells the current one from superseded ones.
pub struct RequestTracker {
    latest: u64,
}

impl RequestTracker {
    pub closed spec fn latest_spec(&self) -> int {
        self.latest as int
    }

    /// A tracker before any request.
    pub fn new() -> (r: RequestTracker)
        ensures
            r.latest_spec() == 0,
    {
        RequestTracker { latest: 0 }
    }

    /// Starts a request; every one started before it is superseded.
    pub fn issue(&mut self) -> (id: u64)
        requires
            old(self).latest_spec() < u64::MAX,
        ensures
            id == old(self).latest_spec() + 1,
            final(self).latest_spec() == id,
    {
        self.latest = self.latest + 1;
        self.latest
    }

    /// Whether the answer to request `id` may be shown: only where no later
    /// request was started.
    pub fn is_current(&self, id: u64) -> (r: bool)
        ensures
            r == (id == self.latest_spec()),
    {
        id == self.latest
    }

    /// Whether another request can still be numbered.
    pub fn can_issue(&self) -> (r: bool)
        ensures
            r == (self.latest_spec() < u64::MAX),
    {
        self.latest < u64::MAX
    }
}

} // verus!
