use vstd::prelude::*;

verus! {

/// A drawing area `(x, y, width, height)` in millimetres.
pub type ViewBox = (i32, i32, i32, i32);

/// The area shrunk by `amount` on every side.
pub fn pad(view_box: ViewBox, amount: i32) -> (r: ViewBox)
    requires
        i32::MIN <= view_box.0 + amount <= i32::MAX,
        i32::MIN <= view_box.1 + amount <= i32::MAX,
        i32::MIN <= view_box.2 - 2 * amount <= i32::MAX,
        i32::MIN <= view_box.3 - 2 * amount <= i32::MAX,
    ensures
        r.0 == view_box.0 + amount,
        r.1 == view_box.1 + amount,
        r.2 == view_box.2 - 2 * amount,
        r.3 == view_box.3 - 2 * amount,
{
    let (x, y, w, h) = view_box;
    let twice = 2 * amount as i64;
    ((x + amount), (y + amount), (w as i64 - twice) as i32, (h as i64 - twice) as i32)
}

} // verus!
