use oxideav_render::number::{
    num, EPSILON, HALF, INFINITY, MINUS_HALF, MINUS_ONE, MINUS_TWO, MIN_POSITIVE, NEG_INFINITY,
    ONE, TWO, ZERO,
};
use oxideav_render::options::{FORTY_FIVE, SIXTY, STRAIGHT_ANGLE};
use oxideav_render::{camera, raster, raycast, scanline, shade, Real};

fn r(x: f32) -> Real {
    Real { bits: x.to_bits() }
}

fn f(x: Real) -> f32 {
    f32::from_bits(x.bits)
}

/// Numbers of every kind: zeros, subnormals, powers of two and their
/// neighbours, halves, large ones, infinities and NaNs.
fn zoo() -> Vec<f32> {
    let mut out: Vec<f32> = vec![
        0.0,
        0.1,
        0.49999997,
        0.5,
        0.50000006,
        0.99999994,
        1.0,
        1.0000001,
        1.5,
        2.5,
        3.5,
        254.5,
        255.49,
        255.5,
        1000.75,
        8388607.5,
        8388608.0,
        16777216.0,
        16777218.0,
        2147483520.0,
        2147483648.0,
        4294967296.0,
        f32::MAX,
        f32::MIN_POSITIVE,
        f32::from_bits(1),
        f32::from_bits(0x007f_ffff),
        f32::INFINITY,
        f32::NAN,
    ];
    for e in 0..255_u32 {
        out.push(f32::from_bits((e << 23) | 0x0012_3456));
    }
    let negatives: Vec<f32> = out.iter().map(|x| -x).collect();
    out.extend(negatives);
    out
}

#[test]
fn order_is_that_of_the_machine() {
    let zoo = zoo();
    for &a in &zoo {
        for &b in &zoo {
            assert_eq!(r(a).lt(r(b)), a < b, "{a} < {b}");
            assert_eq!(r(a).le(r(b)), a <= b, "{a} <= {b}");
            assert_eq!(r(a) == r(b), a == b, "{a} == {b}");
        }
    }
}

#[test]
fn extremes_are_those_of_the_machine() {
    let zoo = zoo();
    for &a in &zoo {
        for &b in &zoo {
            let (lo, hi) = (f(r(a).min(r(b))), f(r(a).max(r(b))));
            let (mlo, mhi) = (a.min(b), a.max(b));
            assert!(lo == mlo || (lo.is_nan() && mlo.is_nan()), "min {a} {b}");
            assert!(hi == mhi || (hi.is_nan() && mhi.is_nan()), "max {a} {b}");
        }
    }
}

#[test]
fn sign_and_class_are_those_of_the_machine() {
    for a in zoo() {
        assert_eq!(r(a).is_nan(), a.is_nan());
        assert_eq!(r(a).is_finite(), a.is_finite());
        assert_eq!(r(a).abs().bits, a.abs().to_bits());
        assert_eq!(r(a).neg().bits, (-a).to_bits());
        if !a.is_nan() {
            assert_eq!(f(r(a).clamp(r(-2.0), r(3.0))), a.clamp(-2.0, 3.0));
            assert_eq!(f(r(a).unit_clamp()), a.clamp(0.0, 1.0));
            assert_eq!(f(r(a).sign_clamp()), a.clamp(-1.0, 1.0));
        } else {
            assert!(f(r(a).unit_clamp()).is_nan());
        }
    }
}

#[test]
fn rounding_is_that_of_the_machine() {
    for a in zoo() {
        assert_eq!(r(a).floor_i32(), a.floor() as i32, "floor {a}");
        assert_eq!(r(a).ceil_i32(), a.ceil() as i32, "ceil {a}");
        assert_eq!(r(a).round_i32(), a.round() as i32, "round {a}");
        assert_eq!(r(a).byte(), a.round() as u8, "byte {a}");
    }
}

#[test]
fn integers_become_their_nearest_numbers() {
    let mut ints: Vec<u32> = vec![0, 1, 2, 3, 255, 16777215, 16777216, 16777217, 16777219];
    ints.extend([33554434, 33554438, 0x7fff_ffff, 0x8000_0000, 0x8000_0080, 0x8000_0180]);
    ints.extend([0xffff_ff7f, 0xffff_ff80, u32::MAX]);
    for s in 0..32_u32 {
        ints.push((0x9abc_def1_u32) >> s);
    }
    for n in ints {
        assert_eq!(Real::of_u32(n).bits, (n as f32).to_bits(), "{n}");
        assert_eq!(Real::of_i64(n as i64).bits, (n as f32).to_bits(), "{n}");
        if n > 0 {
            assert_eq!(Real::of_i64(-(n as i64)).bits, (-(n as f32)).to_bits());
        }
    }
}

#[test]
fn small_integers_round_trip() {
    for n in [-16777215_i64, -1000, -1, 0, 1, 7, 4096, 16777215] {
        let x = Real::of_i64(n);
        assert_eq!(x.floor_i32() as i64, n);
        assert_eq!(x.ceil_i32() as i64, n);
        assert_eq!(x.round_i32() as i64, n);
    }
}

#[test]
fn constants_have_their_values() {
    let table: [(u32, f32); 34] = [
        (ZERO, 0.0),
        (ONE, 1.0),
        (TWO, 2.0),
        (HALF, 0.5),
        (MINUS_ONE, -1.0),
        (MINUS_TWO, -2.0),
        (INFINITY, f32::INFINITY),
        (NEG_INFINITY, f32::NEG_INFINITY),
        (EPSILON, f32::EPSILON),
        (MIN_POSITIVE, f32::MIN_POSITIVE),
        (FORTY_FIVE, 45.0),
        (SIXTY, 60.0),
        (STRAIGHT_ANGLE, 180.0),
        (shade::AMBIENT, 0.2),
        (shade::TOP_BYTE, 255.0),
        (shade::SRGB_KNEE, 0.003_130_8),
        (shade::SRGB_SLOPE, 12.92),
        (shade::SRGB_SCALE, 1.055),
        (shade::SRGB_OFFSET, 0.055),
        (shade::SRGB_GAMMA, 2.4),
        (raster::TINY_AREA, 1.0e-6),
        (MINUS_HALF, -0.5),
        (camera::LEAST_EXTENT, 1.0e-3),
        (camera::MARGIN, 1.2),
        (camera::PARALLEL_DISTANCE, 1.5),
        (camera::NEAR_SHARE, 0.01),
        (scanline::FALLBACK_RED_GREEN, 0.7),
        (scanline::FALLBACK_BLUE, 0.75),
        (raycast::RAY_EPSILON, 1.0e-4),
        (raycast::MINUS_RAY_EPSILON, -1.0e-4),
        (raycast::SECONDARY_RAY_THRESHOLD, 1.0e-2),
        (raycast::WIREFRAME_EDGE_WIDTH, 0.03),
        (raycast::DIELECTRIC_REFLECTANCE, 0.04),
        (raycast::METAL_SHARE, 0.96),
    ];
    for (bits, value) in table {
        assert_eq!(bits, value.to_bits(), "{value}");
        assert_eq!(num(bits).bits, bits);
    }
    assert_eq!(raycast::DEFAULT_IOR, 1.5_f32.to_bits());
}
