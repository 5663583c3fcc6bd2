//! Sequential identifiers for services and requests.
use vstd::prelude::*;

verus! {

/// Identifies a registered service. Handed out in increasing order.
#[derive(Copy, Clone, Default, PartialEq, Eq, Structural, Hash, Debug)]
pub struct SrvId(pub usize);

/// Identifies one in-flight request. Handed out in increasing order.
#[derive(Copy, Clone, Default, PartialEq, Eq, Structural, Hash, Debug)]
pub struct ReqId(pub usize);

impl SrvId {
    /// The identifier allocated after this one.
    pub fn next(&self) -> (r: Self)
        requires
            self.0 < usize::MAX,
        ensures
            r.0 == self.0 + 1,
    {
        SrvId(self.0 + 1)
    }
}

impl ReqId {
    /// The identifier allocated after this one.
    pub fn next(&self) -> (r: Self)
        requires
            self.0 < usize::MAX,
        ensures
            r.0 == self.0 + 1,
    {
        ReqId(self.0 + 1)
    }
}

} // verus!
