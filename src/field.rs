use vstd::prelude::*;
use vstd::std_specs::ops::MulSpec;

use crate::resolution::Resolution;

verus! {

/// A grid of values over a raster, row after row.
pub struct Field<T> {
    pub resolution: Resolution,
    pub values: Vec<T>,
}

impl<T> Field<T> {
    pub fn width(&self) -> (r: usize)
        ensures
            r == self.resolution.width,
    {
        self.resolution.width as usize
    }

    pub fn height(&self) -> (r: usize)
        ensures
            r == self.resolution.height,
    {
        self.resolution.height as usize
    }

    /// The value at column `x` of row `y`.
    pub fn at(&self, x: usize, y: usize) -> (r: &T)
        requires
            x + y * self.resolution.width < self.values.len(),
        ensures
            *r == self.values[x + y * self.resolution.width],
    {
        let w = self.width();
        proof {
            assert(0 <= y && 0 <= w ==> 0 <= y * w) by (nonlinear_arith);
        }
        &self.values[x + y * w]
    }
}

impl<T: Clone> Field<T> {
    /// A field that holds a copy of `buffer`.
    pub fn from_buffer(resolution: Resolution, buffer: &Vec<T>) -> (r: Field<T>)
        ensures
            r.resolution == resolution,
            r.values.len() == buffer.len(),
            forall|i: int| 0 <= i < buffer.len() ==> cloned(buffer[i], #[trigger] r.values[i]),
    {
        Field { resolution, values: buffer.clone() }
    }

    /// A field with `value` at every pixel.
    pub fn fill(resolution: Resolution, value: T) -> (r: Field<T>)
        requires
            resolution.width * resolution.height <= u32::MAX,
        ensures
            r.resolution == resolution,
            r.values.len() == resolution.spec_area(),
            forall|i: int| 0 <= i < r.values.len() ==> cloned(value, #[trigger] r.values[i]),
    {
        let area = resolution.area();
        Field { resolution, values: vec![value; area] }
    }
}

/// Two fields can be combined only over the same raster.
pub fn assert_same_resolution(lhs: &Resolution, rhs: &Resolution)
    requires
        lhs.width == rhs.width,
        lhs.height == rhs.height,
{
}

/// Combines two fields value by value with `f`, as far as the shorter one
/// reaches.
pub fn combine_fields<T: Copy, F: Fn(T, T) -> T>(
    resolution: Resolution,
    lhs: Vec<T>,
    rhs: Vec<T>,
    f: F,
) -> (r: Field<T>)
    requires
        forall|i: int| 0 <= i < lhs.len() && 0 <= i < rhs.len() ==> f.requires((lhs[i], rhs[i])),
    ensures
        r.resolution == resolution,
        r.values.len() == if lhs.len() <= rhs.len() { lhs.len() } else { rhs.len() },
        forall|i: int|
            0 <= i < r.values.len() ==> f.ensures((lhs[i], rhs[i]), #[trigger] r.values[i]),
{
    let n = if lhs.len() <= rhs.len() { lhs.len() } else { rhs.len() };
    let mut values: Vec<T> = Vec::new();
    let mut i: usize = 0;
    while i < n
        invariant
            n <= lhs.len(),
            n <= rhs.len(),
            i <= n,
            values.len() == i,
            forall|j: int| 0 <= j < n ==> f.requires((lhs[j], rhs[j])),
            forall|j: int| 0 <= j < i ==> f.ensures((lhs[j], rhs[j]), #[trigger] values[j]),
        decreases n - i,
    {
        let v = f(lhs[i], rhs[i]);
        values.push(v);
        i += 1;
    }
    Field { resolution, values }
}

/// Multiplies every value of a field by `scalar`.
pub fn scale_field<T: Copy + core::ops::Mul<S, Output = T>, S: Copy>(
    resolution: Resolution,
    values: Vec<T>,
    scalar: S,
) -> (r: Field<T>)
    requires
        forall|i: int| 0 <= i < values.len() ==> #[trigger] values[i].mul_req(scalar),
    ensures
        r.resolution == resolution,
        r.values.len() == values.len(),
        T::obeys_mul_spec() ==> forall|i: int|
            0 <= i < values.len() ==> #[trigger] r.values[i] == values[i].mul_spec(scalar),
{
    let mut scaled: Vec<T> = Vec::new();
    let mut i: usize = 0;
    while i < values.len()
        invariant
            i <= values.len(),
            scaled.len() == i,
            forall|j: int| 0 <= j < values.len() ==> #[trigger] values[j].mul_req(scalar),
            T::obeys_mul_spec() ==> forall|j: int|
                0 <= j < i ==> #[trigger] scaled[j] == values[j].mul_spec(scalar),
        decreases values.len() - i,
    {
        let v = values[i] * scalar;
        scaled.push(v);
        i += 1;
    }
    Field { resolution, values: scaled }
}

} // verus!
