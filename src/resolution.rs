use vstd::prelude::*;

verus! {

/// Pixel dimensions of a raster target.
#[derive(Clone, Copy, Debug, PartialEq, Eq, Structural)]
pub struct Resolution {
    pub width: u32,
    pub height: u32,
}

impl Resolution {
    /// The number of pixels, `width * height`.
    pub open spec fn spec_area(&self) -> nat {
        (self.width * self.height) as nat
    }

    pub fn new(width: u32, height: u32) -> (r: Resolution)
        ensures
            r.width == width,
            r.height == height,
    {
        Resolution { width, height }
    }

    /// Number of pixels. The product is formed in `u32`, so it must fit there.
    pub fn area(self) -> (r: usize)
        requires
            self.width * self.height <= u32::MAX,
        ensures
            r == self.spec_area(),
    {
        (self.width * self.height) as usize
    }
}

} // verus!
