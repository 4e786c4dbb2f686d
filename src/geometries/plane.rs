use vstd::prelude::*;

verus! {

/// The flat plane `(u, v) -> (u, v, 0)`.
#[derive(Clone, Copy, Debug, PartialEq, Eq, Structural)]
pub struct Plane;

impl Plane {
    pub fn new() -> (r: Plane)
        ensures
            r == Plane,
    {
        Plane
    }
}

} // verus!
