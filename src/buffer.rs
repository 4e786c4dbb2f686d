use vstd::prelude::*;

use crate::resolution::Resolution;

verus! {

/// A gray-scale raster, one byte per pixel, row after row.
pub struct Buffer {
    pub resolution: Resolution,
    pub pixels: Vec<u8>,
}

impl Buffer {
    /// One byte for each pixel of the resolution.
    pub open spec fn wf(&self) -> bool {
        self.pixels.len() == self.resolution.spec_area()
    }

    /// A black raster of the given size.
    pub fn new(resolution: Resolution) -> (r: Buffer)
        requires
            resolution.width * resolution.height <= u32::MAX,
        ensures
            r.wf(),
            r.resolution == resolution,
            forall|i: int| 0 <= i < r.pixels.len() ==> #[trigger] r.pixels[i] == 0,
    {
        let area = resolution.area();
        let mut pixels: Vec<u8> = Vec::new();
        while pixels.len() < area
            invariant
                pixels.len() <= area,
                forall|i: int| 0 <= i < pixels.len() ==> #[trigger] pixels[i] == 0,
            decreases area - pixels.len(),
        {
            pixels.push(0);
        }
        Buffer { resolution, pixels }
    }
}

/// The pixel `(x, y)` lies on the raster.
pub open spec fn on_raster(r: Resolution, x: i32, y: i32) -> bool {
    0 <= x < r.width && 0 <= y < r.height
}

/// Sets pixel `(x, y)` to `gray`; a pixel off the raster is ignored.
pub fn pixel(target: &mut Buffer, x: i32, y: i32, gray: u8)
    requires
        old(target).wf(),
    ensures
        final(target).resolution == old(target).resolution,
        final(target).wf(),
        on_raster(old(target).resolution, x, y) ==> final(target).pixels@ == old(
            target,
        ).pixels@.update(x + y * old(target).resolution.width, gray),
        !on_raster(old(target).resolution, x, y) ==> final(target).pixels@ == old(target).pixels@,
{
    if x < 0 || x as i64 >= target.resolution.width as i64 || y < 0 || y as i64
        >= target.resolution.height as i64 {
        return ;
    }
    let stride = target.resolution.width as usize;
    let ghost w = target.resolution.width as int;
    let ghost h = target.resolution.height as int;
    proof {
        assert(0 <= y < h && 0 <= x < w ==> x + y * w < w * h) by (nonlinear_arith);
        assert(0 <= y && 0 <= w ==> 0 <= y * w) by (nonlinear_arith);
    }
    let index = x as usize + y as usize * stride;
    target.pixels.set(index, gray);
}

} // verus!
