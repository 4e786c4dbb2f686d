use vstd::prelude::*;

verus! {

/// The unit sphere in spherical coordinates: `u` is the polar angle, `v` the azimuth.
#[derive(Clone, Copy, Debug, PartialEq, Eq, Structural)]
pub struct Sphere;

impl Sphere {
    pub fn new() -> (r: Sphere)
        ensures
            r == Sphere,
    {
        Sphere
    }
}

} // verus!
