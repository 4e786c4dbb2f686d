use std::time::Duration;

use plotter::buffer::{pixel, Buffer};
use plotter::duration_extras::{format_duration, format_seconds};
use plotter::field::{combine_fields, scale_field, Field};
use plotter::geometries::{gaussian::Gaussian, hole::Hole, plane::Plane, sphere::Sphere};
use plotter::paper::pad;
use plotter::resolution::Resolution;

#[test]
fn resolution_area() {
    let r = Resolution::new(506, 253);
    assert_eq!(r.width, 506);
    assert_eq!(r.height, 253);
    assert_eq!(r.area(), 128018);
}

#[test]
fn buffer_starts_black() {
    let b = Buffer::new(Resolution::new(4, 3));
    assert_eq!(b.pixels, vec![0u8; 12]);
}

#[test]
fn pixel_sets_row_major() {
    let mut b = Buffer::new(Resolution::new(4, 3));
    pixel(&mut b, 1, 2, 200);
    assert_eq!(b.pixels[9], 200);
    assert_eq!(b.pixels.iter().filter(|&&p| p != 0).count(), 1);
}

#[test]
fn pixel_off_raster_ignored() {
    let mut b = Buffer::new(Resolution::new(4, 3));
    pixel(&mut b, -1, 0, 9);
    pixel(&mut b, 4, 0, 9);
    pixel(&mut b, 0, 3, 9);
    pixel(&mut b, 0, -5, 9);
    assert_eq!(b.pixels, vec![0u8; 12]);
}

#[test]
fn field_fill_and_index() {
    let f = Field::fill(Resolution::new(3, 2), 7u32);
    assert_eq!(f.width(), 3);
    assert_eq!(f.height(), 2);
    assert_eq!(f.values.len(), 6);
    assert_eq!(*f.at(2, 1), 7);
}

#[test]
fn field_from_buffer_row_major() {
    let values = vec![0, 1, 2, 3, 4, 5];
    let f = Field::from_buffer(Resolution::new(3, 2), &values);
    assert_eq!(f.values, values);
    assert_eq!(*f.at(1, 1), 4);
    assert_eq!(*f.at(2, 0), 2);
}

#[test]
fn fields_combine_and_scale() {
    let r = Resolution::new(2, 2);
    let sum = combine_fields(r, vec![1, 2, 3, 4], vec![10, 20, 30, 40], |a: i64, b: i64| a + b);
    assert_eq!(sum.values, vec![11, 22, 33, 44]);
    let short = combine_fields(r, vec![1, 2, 3], vec![5, 5], |a: i64, b: i64| a * b);
    assert_eq!(short.values, vec![5, 10]);
    let scaled = scale_field(r, vec![1u32, 2, 3, 4], 3u32);
    assert_eq!(scaled.values, vec![3, 6, 9, 12]);
    assert_eq!(scaled.resolution, r);
}

#[test]
fn duration_under_an_hour() {
    assert_eq!(format_seconds(65), "1m 5s");
    assert_eq!(format_seconds(0), "0m 0s");
    assert_eq!(format_seconds(3599), "59m 59s");
}

#[test]
fn duration_with_hours() {
    assert_eq!(format_seconds(3600), "1h 0m 0s");
    assert_eq!(format_seconds(3725), "1h 2m 5s");
    assert_eq!(format_seconds(100 * 3600 + 61), "100h 1m 1s");
}

#[test]
fn duration_from_std() {
    assert_eq!(format_duration(Duration::from_secs(3725)), "1h 2m 5s");
    assert_eq!(format_duration(Duration::from_millis(65_900)), "1m 5s");
}

#[test]
fn pad_shrinks_each_side() {
    assert_eq!(pad((0, 0, 210, 297), 10), (10, 10, 190, 277));
    assert_eq!(pad((5, -5, 100, 50), -2), (3, -7, 104, 54));
}

#[test]
fn geometries_construct() {
    assert_eq!(Plane::new(), Plane);
    assert_eq!(Sphere::new(), Sphere);
    assert_eq!(Gaussian::new(), Gaussian);
    assert_eq!(Hole::new(), Hole);
}
