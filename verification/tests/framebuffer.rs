use oxideav_render::framebuffer::{Framebuffer, Rgba8};
use oxideav_render::Real;

fn r(x: f32) -> Real {
    Real { bits: x.to_bits() }
}

fn gray(v: u8) -> Rgba8 {
    Rgba8::of([v, v, v, 255])
}

#[test]
fn cleared_framebuffer_is_the_background() {
    let fb = Framebuffer::new(3, 2, Rgba8::of([1, 2, 3, 4]));
    assert_eq!((fb.width(), fb.height()), (3, 2));
    let img = fb.into_image();
    assert_eq!((img.width, img.height, img.stride), (3, 2, 12));
    for px in img.pixels_rgba() {
        assert_eq!(px, [1, 2, 3, 4]);
    }
}

#[test]
fn nearest_fragment_shows_in_either_order() {
    for flip in [false, true] {
        let mut fb = Framebuffer::new(2, 1, gray(0));
        let mut frags = vec![(r(0.5), gray(50)), (r(-0.5), gray(90))];
        if flip {
            frags.reverse();
        }
        for (z, c) in frags {
            fb.set_pixel(1, 0, z, c);
        }
        let img = fb.into_image();
        assert_eq!(img.pixel(0, 0), Some([0, 0, 0, 255]));
        assert_eq!(img.pixel(1, 0), Some([90, 90, 90, 255]));
    }
}

#[test]
fn first_of_equally_near_fragments_stays() {
    let mut fb = Framebuffer::new(1, 1, gray(0));
    fb.set_pixel(0, 0, r(0.25), gray(10));
    fb.set_pixel(0, 0, r(0.25), gray(20));
    assert_eq!(fb.into_image().pixel(0, 0), Some([10, 10, 10, 255]));
}

#[test]
fn lost_fragments_change_nothing() {
    let mut fb = Framebuffer::new(2, 2, gray(7));
    for (x, y) in [(-1, 0), (0, -1), (2, 0), (0, 2), (i32::MAX, i32::MAX), (i32::MIN, 0)] {
        fb.set_pixel(x, y, r(0.0), gray(200));
    }
    fb.set_pixel(0, 0, r(f32::NAN), gray(200));
    fb.set_pixel(1, 1, r(f32::INFINITY), gray(200));
    for px in fb.into_image().pixels_rgba() {
        assert_eq!(px, [7, 7, 7, 255]);
    }
}

#[test]
fn pixels_land_where_they_are_put() {
    let mut fb = Framebuffer::new(3, 2, gray(0));
    fb.set_pixel(2, 1, r(1.0e30), gray(9));
    let img = fb.into_image();
    assert_eq!(img.pixel(2, 1), Some([9, 9, 9, 255]));
    assert_eq!(img.pixels.iter().filter(|b| **b == 9).count(), 3);
}
