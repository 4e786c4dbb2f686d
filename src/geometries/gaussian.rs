use vstd::prelude::*;

verus! {

/// The Gaussian bump: height `exp(-(u² + v²))` over the parameter plane.
#[derive(Clone, Copy, Debug, PartialEq, Eq, Structural)]
pub struct Gaussian;

impl Gaussian {
    pub fn new() -> (r: Gaussian)
        ensures
            r == Gaussian,
    {
        Gaussian
    }
}

} // verus!
