use vstd::prelude::*;

verus! {

/// The funnel: height `1 / (u² + v²)` over the parameter plane, singular at the origin.
#[derive(Clone, Copy, Debug, PartialEq, Eq, Structural)]
pub struct Hole;

impl Hole {
    pub fn new() -> (r: Hole)
        ensures
            r == Hole,
    {
        Hole
    }
}

} // verus!
