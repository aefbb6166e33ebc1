//! Shading helpers shared by both backends: the directional light, the
//! Lambert-with-ambient pixel shade, and the encoding of linear colours,
//! normals and depths as bytes.
//!
//! Keeping these in one module guarantees that the two backends produce
//! matching colours for a surface with the same normal under the same light.

use crate::arith::{
    cosine, difference, in_radians, orderly, power, product, quotient, repeatable, sine, sum,
    Arith,
};
use crate::framebuffer::Rgba8;
use crate::math::{dot, normalised, vec3, vec3_dot, vec3_normalise, vec4, Vec3, Vec4};
use crate::number::{
    law_bytes_keep_order, lemma_between_finite, lemma_worth_order, num, one_worth, worth, Real,
    HALF, MINUS_HALF, MINUS_ONE, ONE, ZERO,
};
use crate::options::LightSpec;
use crate::precision::{
    about, amount, exact_dot, hair, law_normalised, lemma_bounded_product, lemma_byte,
    lemma_byte_near, lemma_difference, lemma_dot, lemma_order, lemma_pattern, lemma_plain_amounts,
    lemma_product, lemma_quotient, lemma_sum, lemma_unit_part, precise, short, size, unit_part,
    within,
};
use vstd::arithmetic::power2::{lemma2_to64, lemma_pow2_adds, lemma_pow2_pos, pow2};
use vstd::prelude::*;

verus! {

/// Constant ambient term added to every shaded pixel, so that back-faces stay
/// visible: `0.2` as a bit pattern.
pub const AMBIENT: u32 = 0x3e4c_cccd;

/// `255.0` as a bit pattern.
pub const TOP_BYTE: u32 = 0x437f_0000;

/// `0.0031308`, where the sRGB curve leaves its linear segment, as a bit
/// pattern.
pub const SRGB_KNEE: u32 = 0x3b4d_2e1c;

/// `12.92`, the slope of the linear segment, as a bit pattern.
pub const SRGB_SLOPE: u32 = 0x414e_b852;

/// `1.055` as a bit pattern.
pub const SRGB_SCALE: u32 = 0x3f87_0a3d;

/// `0.055` as a bit pattern.
pub const SRGB_OFFSET: u32 = 0x3d61_47ae;

/// `2.4` as a bit pattern.
pub const SRGB_GAMMA: u32 = 0x4019_999a;

/// Resolved directional light.
#[derive(Debug, Clone, Copy, PartialEq)]
pub struct DirLight {
    /// Unit vector pointing toward the light source from the surface.
    pub direction: Vec3,
    /// Diffuse multiplier.
    pub intensity: Real,
}

/// Direction of a yaw around `+Y` and a pitch above the `XZ` plane, in
/// degrees.
pub open spec fn orbit_toward<K: Arith>(k: &K, azimuth_deg: Real, elevation_deg: Real) -> Vec3 {
    let az = in_radians(k, azimuth_deg);
    let el = in_radians(k, elevation_deg);
    let cos_el = cosine(k, el);
    vec3(product(k, cos_el, sine(k, az)), sine(k, el), product(k, cos_el, cosine(k, az)))
}

/// Direction of a yaw around `+Y` and a pitch above the `XZ` plane, in
/// degrees.
pub fn orbit_direction<K: Arith>(k: &K, azimuth_deg: Real, elevation_deg: Real) -> (r: Vec3)
    ensures
        repeatable(k) ==> r == orbit_toward(k, azimuth_deg, elevation_deg),
{
    let az = k.radians(azimuth_deg);
    let el = k.radians(elevation_deg);
    let cos_el = k.cos(el);
    vec3(k.times(cos_el, k.sin(az)), k.sin(el), k.times(cos_el, k.cos(az)))
}

/// Resolves a light's angles into a unit direction.
pub open spec fn light_of<K: Arith>(k: &K, spec: LightSpec) -> DirLight {
    DirLight {
        direction: normalised(k, orbit_toward(k, spec.azimuth_deg, spec.elevation_deg)),
        intensity: spec.intensity,
    }
}

/// Resolves a light's angles into a unit direction.
pub fn build_light<K: Arith>(k: &K, spec: LightSpec) -> (r: DirLight)
    ensures
        repeatable(k) ==> r == light_of(k, spec),
{
    DirLight {
        direction: vec3_normalise(k, orbit_direction(k, spec.azimuth_deg, spec.elevation_deg)),
        intensity: spec.intensity,
    }
}

/// Lambertian diffuse plus ambient, in linear space. `normal` is in world
/// space; alpha is the base colour's.
pub open spec fn lit<K: Arith>(k: &K, base: Vec4, normal: Vec3, light: &DirLight) -> Vec4 {
    let cos_theta = dot(k, normal, light.direction).greater(num(ZERO));
    let share = product(k, difference(k, num(ONE), num(AMBIENT)), cos_theta);
    let diffuse = sum(k, num(AMBIENT), product(k, share, light.intensity));
    let factor = diffuse.in_unit();
    vec4(
        product(k, base.x, factor),
        product(k, base.y, factor),
        product(k, base.z, factor),
        base.w,
    )
}

/// Lambertian diffuse plus ambient, in linear space. `normal` is in world
/// space; alpha is the base colour's.
pub fn shade_pixel<K: Arith>(k: &K, base: Vec4, normal: Vec3, light: &DirLight) -> (r: Vec4)
    ensures
        repeatable(k) ==> r == lit(k, base, normal, light),
{
    let cos_theta = vec3_dot(k, normal, light.direction).max(num(ZERO));
    let share = k.times(k.minus(num(ONE), num(AMBIENT)), cos_theta);
    let diffuse = k.plus(num(AMBIENT), k.times(share, light.intensity));
    let factor = diffuse.unit_clamp();
    vec4(k.times(base.x, factor), k.times(base.y, factor), k.times(base.z, factor), base.w)
}

/// Encodes one linear-space channel as an sRGB byte (IEC 61966-2-1).
pub open spec fn srgb_byte<K: Arith>(k: &K, c: Real) -> u8 {
    let c = c.in_unit();
    let v = if c.at_most(num(SRGB_KNEE)) {
        product(k, num(SRGB_SLOPE), c)
    } else {
        let curve = power(k, c, quotient(k, num(ONE), num(SRGB_GAMMA)));
        difference(k, product(k, num(SRGB_SCALE), curve), num(SRGB_OFFSET))
    };
    product(k, v.in_unit(), num(TOP_BYTE)).as_byte()
}

/// Encodes one linear-space channel as an sRGB byte (IEC 61966-2-1).
pub fn linear_to_srgb_u8<K: Arith>(k: &K, c: Real) -> (r: u8)
    ensures
        repeatable(k) ==> r == srgb_byte(k, c),
{
    let c = c.unit_clamp();
    let v = if c.le(num(SRGB_KNEE)) {
        k.times(num(SRGB_SLOPE), c)
    } else {
        let curve = k.powf(c, k.over(num(ONE), num(SRGB_GAMMA)));
        k.minus(k.times(num(SRGB_SCALE), curve), num(SRGB_OFFSET))
    };
    k.times(v.unit_clamp(), num(TOP_BYTE)).byte()
}

/// Encodes a linear-space colour as sRGB bytes; alpha stays linear.
pub open spec fn srgb_pixel<K: Arith>(k: &K, c: Vec4) -> Rgba8 {
    Rgba8 {
        r: srgb_byte(k, c.x),
        g: srgb_byte(k, c.y),
        b: srgb_byte(k, c.z),
        a: product(k, c.w.in_unit(), num(TOP_BYTE)).as_byte(),
    }
}

/// Encodes a linear-space colour as sRGB bytes; alpha stays linear.
pub fn linear_rgba_to_srgb_u8<K: Arith>(k: &K, c: Vec4) -> (r: Rgba8)
    ensures
        repeatable(k) ==> r == srgb_pixel(k, c),
{
    Rgba8 {
        r: linear_to_srgb_u8(k, c.x),
        g: linear_to_srgb_u8(k, c.y),
        b: linear_to_srgb_u8(k, c.z),
        a: k.times(c.w.unit_clamp(), num(TOP_BYTE)).byte(),
    }
}

/// Maps a component of a unit normal to a colour channel by
/// `(n + 1) / 2 * 255`. What is not finite counts as zero and gives 128.
pub open spec fn normal_byte<K: Arith>(k: &K, n: Real) -> u8 {
    if !n.finite() {
        128
    } else {
        let shifted = sum(k, n.in_sign(), num(ONE));
        product(k, product(k, shifted, num(HALF)), num(TOP_BYTE)).as_byte()
    }
}

/// Maps a component of a unit normal to a colour channel by
/// `(n + 1) / 2 * 255`. What is not finite counts as zero and gives 128.
pub fn normal_to_byte<K: Arith>(k: &K, n: Real) -> (r: u8)
    ensures
        repeatable(k) ==> r == normal_byte(k, n),
{
    if !n.is_finite() {
        128
    } else {
        let shifted = k.plus(n.sign_clamp(), num(ONE));
        k.times(k.times(shifted, num(HALF)), num(TOP_BYTE)).byte()
    }
}

/// Maps a depth in `-1 ..= 1` to a gray level, near to 255 and far to 0.
/// A depth out of range is clamped, an infinite one too; a NaN counts as far.
pub open spec fn depth_byte<K: Arith>(k: &K, z: Real) -> u8 {
    if z.nan() {
        0
    } else {
        let t = sum(k, product(k, z.in_sign(), num(HALF)), num(HALF));
        product(k, difference(k, num(ONE), t), num(TOP_BYTE)).as_byte()
    }
}

/// Maps a depth in `-1 ..= 1` to a gray level, near to 255 and far to 0.
/// A depth out of range is clamped, an infinite one too; a NaN counts as far.
pub fn depth_to_byte<K: Arith>(k: &K, z: Real) -> (r: u8)
    ensures
        repeatable(k) ==> r == depth_byte(k, z),
{
    if z.is_nan() {
        0
    } else {
        let t = k.plus(k.times(z.sign_clamp(), num(HALF)), num(HALF));
        k.times(k.minus(num(ONE), t), num(TOP_BYTE)).byte()
    }
}

/// A unit normal as an opaque colour.
pub open spec fn normal_pixel<K: Arith>(k: &K, n: Vec3) -> Rgba8 {
    Rgba8 { r: normal_byte(k, n.x), g: normal_byte(k, n.y), b: normal_byte(k, n.z), a: 255 }
}

/// A unit normal as an opaque colour.
pub fn normal_to_rgba<K: Arith>(k: &K, n: Vec3) -> (r: Rgba8)
    ensures
        repeatable(k) ==> r == normal_pixel(k, n),
{
    Rgba8 {
        r: normal_to_byte(k, n.x),
        g: normal_to_byte(k, n.y),
        b: normal_to_byte(k, n.z),
        a: 255,
    }
}

/// A depth as an opaque gray.
pub open spec fn depth_pixel<K: Arith>(k: &K, z: Real) -> Rgba8 {
    let g: u8 = depth_byte(k, z);
    Rgba8 { r: g, g, b: g, a: 255 }
}

/// A depth as an opaque gray.
pub fn depth_to_rgba<K: Arith>(k: &K, z: Real) -> (r: Rgba8)
    ensures
        repeatable(k) ==> r == depth_pixel(k, z),
{
    let g: u8 = depth_to_byte(k, z);
    Rgba8 { r: g, g, b: g, a: 255 }
}

/// Lighting keeps the base colour's alpha.
pub proof fn law_lighting_keeps_alpha<K: Arith>(
    k: &K,
    base: Vec4,
    normal: Vec3,
    light: &DirLight,
)
    ensures
        lit(k, base, normal, light).w == base.w,
{
}

/// A depth shows as an opaque gray, and a normal as an opaque colour.
pub proof fn law_debug_colours_are_opaque<K: Arith>(k: &K, z: Real, n: Vec3)
    ensures
        depth_pixel(k, z).r == depth_pixel(k, z).g == depth_pixel(k, z).b,
        depth_pixel(k, z).a == 255,
        normal_pixel(k, n).a == 255,
{
}

/// What is not finite is encoded as the zero normal. As a depth a NaN is far,
/// and an infinity counts as the end of the range on its side.
pub proof fn law_encoding_of_what_is_not_finite<K: Arith>(k: &K, v: Real)
    requires
        !v.finite(),
    ensures
        normal_byte(k, v) == 128,
        v.nan() ==> depth_byte(k, v) == 0,
        !v.nan() && v.negative() ==> depth_byte(k, v) == depth_byte(k, num(MINUS_ONE)),
        !v.nan() && !v.negative() ==> depth_byte(k, v) == depth_byte(k, num(ONE)),
{
    lemma_worth_order(v.magnitude(), num(ONE).magnitude());
    lemma_worth_order(v.magnitude(), 0);
    lemma_worth_order(num(ONE).magnitude(), 0);
}

/// A depth out of range is clamped: one at or before the near end shows as
/// the near end does, and one at or behind the far end as the far end does.
pub proof fn law_depth_is_clamped<K: Arith>(k: &K, z: Real)
    ensures
        z.at_most(num(MINUS_ONE)) ==> depth_byte(k, z) == depth_byte(k, num(MINUS_ONE)),
        num(ONE).at_most(z) ==> depth_byte(k, z) == depth_byte(k, num(ONE)),
{
    lemma_worth_order(z.magnitude(), num(ONE).magnitude());
    lemma_worth_order(z.magnitude(), 0);
    lemma_worth_order(num(ONE).magnitude(), 0);
    if z.at_most(num(MINUS_ONE)) && !z.below(num(MINUS_ONE)) {
        assert(z == num(MINUS_ONE));
    }
    if num(ONE).at_most(z) && !num(ONE).below(z) {
        assert(z == num(ONE));
    }
}

/// Whether the arithmetic is exact where the ends of the depth range are
/// encoded.
pub open spec fn exact_at_ends<K: Arith>(k: &K) -> bool {
    &&& product(k, num(MINUS_ONE), num(HALF)) == num(MINUS_HALF)
    &&& product(k, num(ONE), num(HALF)) == num(HALF)
    &&& sum(k, num(MINUS_HALF), num(HALF)) == num(ZERO)
    &&& sum(k, num(HALF), num(HALF)) == num(ONE)
    &&& difference(k, num(ONE), num(ZERO)) == num(ONE)
    &&& difference(k, num(ONE), num(ONE)) == num(ZERO)
    &&& product(k, num(ONE), num(TOP_BYTE)) == num(TOP_BYTE)
    &&& product(k, num(ZERO), num(TOP_BYTE)) == num(ZERO)
}

/// The number 255 is encoded as the byte 255, and zero as zero.
proof fn lemma_end_bytes()
    ensures
        num(TOP_BYTE).as_byte() == 255,
        num(ZERO).as_byte() == 0,
{
    let one = one_worth();
    lemma_pow2_pos(149);
    lemma_pow2_adds(16, 133);
    lemma2_to64();
    let p = pow2(133) as int;
    assert(num(TOP_BYTE).magnitude() / 0x80_0000 == 134);
    assert(num(TOP_BYTE).magnitude() % 0x80_0000 == 0x7f_0000);
    assert(worth(num(TOP_BYTE).magnitude()) == 0xff_0000 * p);
    assert(one == 0x1_0000 * p);
    assert(2 * (0xff_0000 * p) + one == 255 * (2 * one) + one) by (nonlinear_arith)
        requires
            one == 0x1_0000 * p,
    ;
    vstd::arithmetic::div_mod::lemma_fundamental_div_mod_converse(
        2 * worth(num(TOP_BYTE).magnitude()) + one,
        2 * one,
        255,
        one,
    );
    vstd::arithmetic::div_mod::lemma_fundamental_div_mod_converse(one, 2 * one, 0, one);
}

/// Near is white and far is black: a depth at or before the near end shows as
/// 255, and one at or behind the far end as 0.
pub proof fn law_near_is_white_far_is_black<K: Arith>(k: &K, z: Real)
    requires
        exact_at_ends(k),
    ensures
        z.at_most(num(MINUS_ONE)) ==> depth_byte(k, z) == 255,
        num(ONE).at_most(z) ==> depth_byte(k, z) == 0,
{
    law_depth_is_clamped(k, z);
    lemma_end_bytes();
    lemma_ends_are_in_range();
}

/// The ends of the depth range are in it.
proof fn lemma_ends_are_in_range()
    ensures
        num(MINUS_ONE).in_sign() == num(MINUS_ONE),
        num(ONE).in_sign() == num(ONE),
        num(MINUS_ONE).below(num(ONE)),
        num(MINUS_HALF).at_most(num(HALF)),
        num(ZERO).below(num(HALF)),
        num(ZERO).below(num(ONE)),
        num(ZERO).below(num(TOP_BYTE)),
{
    lemma_worth_order(0, num(ONE).magnitude());
    lemma_worth_order(0, num(HALF).magnitude());
    lemma_worth_order(0, num(TOP_BYTE).magnitude());
    assert(worth(0) == 0);
    assert(num(MINUS_ONE).magnitude() == num(ONE).magnitude());
    assert(num(MINUS_HALF).magnitude() == num(HALF).magnitude());
}

/// Nearer is no darker: of two depths that are no NaN, in range or not, the
/// nearer one shows as no lower gray level.
pub proof fn law_nearer_is_no_darker<K: Arith>(k: &K, z1: Real, z2: Real)
    requires
        orderly(k),
        exact_at_ends(k),
        z1.at_most(z2),
    ensures
        depth_byte(k, z2) <= depth_byte(k, z1),
{
    lemma_ends_are_in_range();
    let (lo, hi) = (num(MINUS_ONE), num(ONE));
    let (a, b) = (z1.in_sign(), z2.in_sign());
    assert(lo.at_most(a) && a.at_most(b) && b.at_most(hi));
    lemma_between_finite(lo, a, hi);
    lemma_between_finite(lo, b, hi);
    let (pa, pb) = (product(k, a, num(HALF)), product(k, b, num(HALF)));
    assert(product(k, lo, num(HALF)).at_most(pa) && pa.at_most(pb) && pb.at_most(
        product(k, hi, num(HALF)),
    ));
    lemma_between_finite(num(MINUS_HALF), pa, num(HALF));
    lemma_between_finite(num(MINUS_HALF), pb, num(HALF));
    let (ta, tb) = (sum(k, pa, num(HALF)), sum(k, pb, num(HALF)));
    assert(sum(k, num(MINUS_HALF), num(HALF)).at_most(ta) && ta.at_most(tb) && tb.at_most(
        sum(k, num(HALF), num(HALF)),
    ));
    lemma_between_finite(num(ZERO), ta, num(ONE));
    lemma_between_finite(num(ZERO), tb, num(ONE));
    let (da, db) = (difference(k, num(ONE), ta), difference(k, num(ONE), tb));
    assert(difference(k, num(ONE), num(ONE)).at_most(db) && db.at_most(da) && da.at_most(
        difference(k, num(ONE), num(ZERO)),
    ));
    lemma_between_finite(num(ZERO), da, num(ONE));
    lemma_between_finite(num(ZERO), db, num(ONE));
    assert(product(k, db, num(TOP_BYTE)).at_most(product(k, da, num(TOP_BYTE))));
    law_bytes_keep_order(product(k, db, num(TOP_BYTE)), product(k, da, num(TOP_BYTE)));
}

/// The share of its colour that a surface shows: a fifth of ambient light, and
/// the rest in proportion to the cosine between normal and light and to the
/// light's intensity.
pub open spec fn lambert(cosine: real, intensity: real) -> real {
    let facing = if cosine < 0 as real {
        0 as real
    } else {
        cosine
    };
    unit_part(1 as real / 5 as real + (4 as real / 5 as real) * facing * intensity)
}

/// The ambient term amounts to a fifth.
proof fn lemma_ambient()
    ensures
        num(AMBIENT).finite(),
        within(amount(num(AMBIENT)), 1 as real / 5 as real, 1 as real / 10000000 as real),
{
    lemma2_to64();
    lemma_pattern(num(AMBIENT), 124, 0x4c_cccd, 0x400_0000);
}

/// The factor of Lambert's law, in steps: what each step may be off by adds
/// up.
proof fn lemma_lambert_steps(
    cosine: real,
    intensity: real,
    ambient: real,
    facing: real,
    rest: real,
    share: real,
    spread: real,
    total: real,
)
    requires
        size(cosine) <= 2 as real,
        0 as real <= intensity <= 8 as real,
        within(ambient, 1 as real / 5 as real, hair()),
        within(
            facing,
            if cosine < 0 as real {
                0 as real
            } else {
                cosine
            },
            5 as real * hair(),
        ),
        within(rest, 1 as real - ambient, hair()),
        within(share, rest * facing, hair()),
        within(spread, share * intensity, hair()),
        within(total, ambient + spread, hair()),
    ensures
        within(unit_part(total), lambert(cosine, intensity), 1 as real / 1000 as real),
{
    let c = if cosine < 0 as real {
        0 as real
    } else {
        cosine
    };
    let four_fifths = 4 as real / 5 as real;
    assert(within(rest * facing, four_fifths * c, 9 as real * hair())) by (nonlinear_arith)
        requires
            0 as real <= c <= 2 as real,
            within(facing, c, 5 as real * hair()),
            within(rest, four_fifths, 2 as real * hair()),
            four_fifths == 4 as real / 5 as real,
    ;
    assert(within(share * intensity, four_fifths * c * intensity, 80 as real * hair()))
        by (nonlinear_arith)
        requires
            0 as real <= intensity <= 8 as real,
            within(share, four_fifths * c, 10 as real * hair()),
    ;
}

/// A surface is lit by Lambert's law: what it shows is its colour times
/// [`lambert`] of the cosine between its normal and the direction of the
/// light, but for rounding. Alpha stays.
pub proof fn law_lambert<K: Arith>(k: &K, base: Vec4, normal: Vec3, light: &DirLight)
    requires
        precise(k),
        short(normal),
        short(light.direction),
        size(exact_dot(normal, light.direction)) <= 2 as real,
        light.intensity.finite(),
        0 as real <= amount(light.intensity) <= 8 as real,
        base.x.finite() && size(amount(base.x)) <= 1 as real,
        base.y.finite() && size(amount(base.y)) <= 1 as real,
        base.z.finite() && size(amount(base.z)) <= 1 as real,
    ensures
        ({
            let shown = lit(k, base, normal, light);
            let share = lambert(exact_dot(normal, light.direction), amount(light.intensity));
            let slack = 1 as real / 500 as real;
            &&& shown.x.finite() && shown.y.finite() && shown.z.finite()
            &&& within(amount(shown.x), amount(base.x) * share, slack)
            &&& within(amount(shown.y), amount(base.y) * share, slack)
            &&& within(amount(shown.z), amount(base.z) * share, slack)
            &&& shown.w == base.w
        }),
{
    lemma_plain_amounts();
    lemma_ambient();
    lemma_dot(k, normal, light.direction);
    let d = dot(k, normal, light.direction);
    lemma_order(d, num(ZERO));
    let facing = d.greater(num(ZERO));
    lemma_difference(k, num(ONE), num(AMBIENT));
    let rest = difference(k, num(ONE), num(AMBIENT));
    assert(size(amount(rest) * amount(facing)) <= 4 as real) by (nonlinear_arith)
        requires
            size(amount(rest)) <= 1 as real,
            size(amount(facing)) <= 3 as real,
    ;
    lemma_product(k, rest, facing);
    let share = product(k, rest, facing);
    assert(size(amount(rest) * amount(facing)) <= (19 as real / 10 as real)) by (nonlinear_arith)
        requires
            within(amount(rest), 4 as real / 5 as real, 3 as real * hair()),
            size(amount(facing)) <= 2 as real + 5 as real * hair(),
    ;
    assert(size(amount(share) * amount(light.intensity)) <= (155 as real / 10 as real))
        by (nonlinear_arith)
        requires
            size(amount(share)) <= (191 as real / 100 as real),
            0 as real <= amount(light.intensity) <= 8 as real,
    ;
    lemma_product(k, share, light.intensity);
    let spread = product(k, share, light.intensity);
    lemma_sum(k, num(AMBIENT), spread);
    let total = sum(k, num(AMBIENT), spread);
    lemma_unit_part(total);
    lemma_lambert_steps(
        exact_dot(normal, light.direction),
        amount(light.intensity),
        amount(num(AMBIENT)),
        amount(facing),
        amount(rest),
        amount(share),
        amount(spread),
        amount(total),
    );
    let factor = total.in_unit();
    let exact = lambert(exact_dot(normal, light.direction), amount(light.intensity));
    lemma_tinted_channel(k, base.x, factor, exact);
    lemma_tinted_channel(k, base.y, factor, exact);
    lemma_tinted_channel(k, base.z, factor, exact);
}

/// One channel times a factor.
proof fn lemma_tinted_channel<K: Arith>(k: &K, c: Real, factor: Real, exact: real)
    requires
        precise(k),
        c.finite() && size(amount(c)) <= 1 as real,
        factor.finite(),
        0 as real <= amount(factor) <= 1 as real,
        within(amount(factor), exact, 1 as real / 1000 as real),
    ensures
        product(k, c, factor).finite(),
        within(amount(product(k, c, factor)), amount(c) * exact, 1 as real / 500 as real),
{
    let (x, f) = (amount(c), amount(factor));
    assert(size(x * f) <= 1 as real && within(x * f, x * exact, 1 as real / 1000 as real))
        by (nonlinear_arith)
        requires
            size(x) <= 1 as real,
            0 as real <= f <= 1 as real,
            within(f, exact, 1 as real / 1000 as real),
    ;
    lemma_product(k, c, factor);
}

/// A clearly smaller share of a channel is less.
proof fn lemma_darker_channel(x: real, p: real, q: real, dark: Real, bright: Real)
    requires
        (1 as real / 2 as real) <= x <= 1 as real,
        p + 1 as real / 40 as real <= q,
        !dark.nan(),
        !bright.nan(),
        within(amount(dark), x * p, 1 as real / 500 as real),
        within(amount(bright), x * q, 1 as real / 500 as real),
    ensures
        dark.below(bright),
{
    assert(x * p + 1 as real / 80 as real <= x * q) by (nonlinear_arith)
        requires
            (1 as real / 2 as real) <= x <= 1 as real,
            p + 1 as real / 40 as real <= q,
    ;
    lemma_order(dark, bright);
}

/// A smaller cosine is darker: of two surfaces of one colour under one light,
/// the one that is turned farther from it shows less of each channel, unless
/// one of them is in full light or the difference is lost in rounding.
pub proof fn law_smaller_cosine_is_darker<K: Arith>(
    k: &K,
    base: Vec4,
    turned: Vec3,
    facing: Vec3,
    light: &DirLight,
)
    requires
        precise(k),
        short(turned) && short(facing) && short(light.direction),
        0 as real <= exact_dot(turned, light.direction),
        exact_dot(turned, light.direction) + 1 as real / 16 as real <= exact_dot(
            facing,
            light.direction,
        ),
        exact_dot(facing, light.direction) <= 1 as real,
        light.intensity.finite(),
        (1 as real / 2 as real) <= amount(light.intensity) <= 1 as real,
        base.x.finite() && (1 as real / 2 as real) <= amount(base.x) <= 1 as real,
        base.y.finite() && (1 as real / 2 as real) <= amount(base.y) <= 1 as real,
        base.z.finite() && (1 as real / 2 as real) <= amount(base.z) <= 1 as real,
    ensures
        lit(k, base, turned, light).x.below(lit(k, base, facing, light).x),
        lit(k, base, turned, light).y.below(lit(k, base, facing, light).y),
        lit(k, base, turned, light).z.below(lit(k, base, facing, light).z),
{
    law_lambert(k, base, turned, light);
    law_lambert(k, base, facing, light);
    let (c, d) = (exact_dot(turned, light.direction), exact_dot(facing, light.direction));
    let i = amount(light.intensity);
    let (p, q) = (lambert(c, i), lambert(d, i));
    let f = 4 as real / 5 as real;
    assert(f * c * i + 1 as real / 40 as real <= f * d * i && f * d * i <= f && 0 as real <= f * c
        * i) by (nonlinear_arith)
        requires
            0 as real <= c,
            c + 1 as real / 16 as real <= d,
            d <= 1 as real,
            (1 as real / 2 as real) <= i <= 1 as real,
            f == 4 as real / 5 as real,
    ;
    lemma_darker_channel(
        amount(base.x),
        p,
        q,
        lit(k, base, turned, light).x,
        lit(k, base, facing, light).x,
    );
    lemma_darker_channel(
        amount(base.y),
        p,
        q,
        lit(k, base, turned, light).y,
        lit(k, base, facing, light).y,
    );
    lemma_darker_channel(
        amount(base.z),
        p,
        q,
        lit(k, base, turned, light).z,
        lit(k, base, facing, light).z,
    );
}

/// Powers between zero and one: of such a base, with such an exponent, a power
/// is between zero and one too, and a power of one is one, but for rounding.
pub open spec fn powers_in_unit<K: Arith>(k: &K) -> bool {
    forall|a: Real, b: Real|
        a.finite() && b.finite() && 0 as real <= amount(a) <= 1 as real && 0 as real <= amount(b)
            <= 1 as real ==> {
            let r = #[trigger] power(k, a, b);
            &&& r.finite()
            &&& 0 as real <= amount(r) <= 1 as real + hair()
            &&& amount(a) == 1 as real ==> within(amount(r), 1 as real, hair())
        }
}

/// The constants of the sRGB curve amount to what the standard says.
proof fn lemma_srgb_constants()
    ensures
        num(SRGB_KNEE).finite() && num(SRGB_SLOPE).finite() && num(SRGB_SCALE).finite(),
        num(SRGB_OFFSET).finite() && num(SRGB_GAMMA).finite() && num(TOP_BYTE).finite(),
        within(
            amount(num(SRGB_KNEE)),
            31308 as real / 10000000 as real,
            1 as real / 1000000000 as real,
        ),
        within(amount(num(SRGB_SLOPE)), 1292 as real / 100 as real, 1 as real / 1000000 as real),
        within(amount(num(SRGB_SCALE)), 1055 as real / 1000 as real, 1 as real / 1000000 as real),
        within(amount(num(SRGB_OFFSET)), 55 as real / 1000 as real, 1 as real / 1000000 as real),
        within(amount(num(SRGB_GAMMA)), 24 as real / 10 as real, 1 as real / 1000000 as real),
        amount(num(TOP_BYTE)) == 255 as real,
{
    lemma2_to64();
    lemma_pattern(num(SRGB_KNEE), 118, 0x4d_2e1c, 0x1_0000_0000);
    lemma_pattern(num(SRGB_SLOPE), 130, 0x4e_b852, 0x10_0000);
    lemma_pattern(num(SRGB_SCALE), 127, 0x07_0a3d, 0x80_0000);
    lemma_pattern(num(SRGB_OFFSET), 122, 0x61_47ae, 0x1000_0000);
    lemma_pattern(num(SRGB_GAMMA), 128, 0x19_999a, 0x40_0000);
    lemma_pattern(num(TOP_BYTE), 134, 0x7f_0000, 0x1_0000);
}

/// A byte that is scaled from an amount in `0 ..= 1`.
proof fn lemma_scaled_byte<K: Arith>(k: &K, v: Real, exact: real)
    requires
        precise(k),
        v.finite(),
        0 as real <= amount(v) <= 1 as real,
        within(amount(v), exact, 1 as real / 40000 as real),
    ensures
        within(
            product(k, v, num(TOP_BYTE)).as_byte() as real,
            255 as real * exact,
            51 as real / 100 as real,
        ),
{
    lemma_srgb_constants();
    let p = product(k, v, num(TOP_BYTE));
    let x = amount(v) * 255 as real;
    assert(about(p, x));
    if amount(p) < 0 as real {
        lemma_byte(p, 0);
    } else if amount(p) > 255 as real {
        lemma_byte(p, 255);
    } else {
        lemma_byte_near(p);
    }
}

/// The byte of a channel follows the sRGB curve: 255 times `12.92 c` up to the
/// knee, and 255 times `1.055 p - 0.055`, moved into range, above it, where `p`
/// is the channel to the power of `1 / 2.4`. A channel out of range counts as
/// the nearest one in it. The byte is the nearest, but for rounding.
pub proof fn law_srgb_curve<K: Arith>(k: &K, c: Real)
    requires
        precise(k),
        powers_in_unit(k),
        c.finite(),
    ensures
        ({
            let x = unit_part(amount(c));
            let byte = srgb_byte(k, c) as real;
            let slack = 51 as real / 100 as real;
            &&& x <= (31307 as real / 10000000 as real) ==> within(
                byte,
                255 as real * (1292 as real / 100 as real * x),
                slack,
            )
            &&& x >= (31309 as real / 10000000 as real) ==> exists|g: Real|
                g.finite() && within(amount(g), 5 as real / 12 as real, hair()) && within(
                    byte,
                    255 as real * unit_part(
                        1055 as real / 1000 as real * amount(
                            #[trigger] power(k, c.in_unit(), g),
                        ) - 55 as real / 1000 as real,
                    ),
                    slack,
                )
        }),
{
    lemma_srgb_constants();
    lemma_plain_amounts();
    lemma_unit_part(c);
    let u = c.in_unit();
    let x = amount(u);
    lemma_order(u, num(SRGB_KNEE));
    if u.at_most(num(SRGB_KNEE)) {
        let slope = amount(num(SRGB_SLOPE));
        assert(0 as real <= slope * x && slope * x <= 1 as real && within(
            slope * x,
            1292 as real / 100 as real * x,
            hair(),
        )) by (nonlinear_arith)
            requires
                0 as real <= x <= (32 as real / 10000 as real),
                within(slope, 1292 as real / 100 as real, 1 as real / 1000000 as real),
        ;
        lemma_product(k, num(SRGB_SLOPE), u);
        let v = product(k, num(SRGB_SLOPE), u);
        lemma_unit_part(v);
        lemma_scaled_byte(k, v.in_unit(), 1292 as real / 100 as real * x);
    } else {
        let gamma = amount(num(SRGB_GAMMA));
        assert(within(1 as real / gamma, 5 as real / 12 as real, 1 as real / 1000000 as real))
            by (nonlinear_arith)
            requires
                within(gamma, 24 as real / 10 as real, 1 as real / 1000000 as real),
        ;
        lemma_quotient(k, num(ONE), num(SRGB_GAMMA));
        let g = quotient(k, num(ONE), num(SRGB_GAMMA));
        assert(about(g, 1 as real / gamma));
        assert(within(amount(g), 5 as real / 12 as real, hair()));
        let p = power(k, u, g);
        let y = amount(p);
        let scale = amount(num(SRGB_SCALE));
        assert(size(scale * y) <= 2 as real && within(
            scale * y,
            1055 as real / 1000 as real * y,
            1 as real / 500000 as real,
        )) by (nonlinear_arith)
            requires
                0 as real <= y <= 1 as real + hair(),
                within(scale, 1055 as real / 1000 as real, 1 as real / 1000000 as real),
        ;
        let q = product(k, num(SRGB_SCALE), p);
        assert(about(q, scale * y));
        let v = difference(k, q, num(SRGB_OFFSET));
        assert(about(v, amount(q) - amount(num(SRGB_OFFSET))));
        lemma_unit_part(v);
        let exact = 1055 as real / 1000 as real * y - 55 as real / 1000 as real;
        assert(within(amount(v), exact, 1 as real / 50000 as real));
        lemma_scaled_byte(k, v.in_unit(), unit_part(exact));
    }
}

/// The ends of the sRGB curve: nothing, or less, encodes to 0, and full light,
/// or more, to 255.
pub proof fn law_srgb_ends<K: Arith>(k: &K, c: Real)
    requires
        precise(k),
        powers_in_unit(k),
        c.finite(),
    ensures
        amount(c) <= 0 as real ==> srgb_byte(k, c) == 0,
        amount(c) >= 1 as real ==> srgb_byte(k, c) == 255,
{
    law_srgb_curve(k, c);
    lemma_unit_part(c);
    let byte = srgb_byte(k, c);
    if amount(c) <= 0 as real {
        assert(byte as real <= (51 as real / 100 as real));
    }
    if amount(c) >= 1 as real {
        let g = choose|g: Real|
            g.finite() && within(amount(g), 5 as real / 12 as real, hair()) && within(
                byte as real,
                255 as real * unit_part(
                    1055 as real / 1000 as real * amount(#[trigger] power(k, c.in_unit(), g))
                        - 55 as real / 1000 as real,
                ),
                51 as real / 100 as real,
            );
        let y = amount(power(k, c.in_unit(), g));
        assert(within(y, 1 as real, hair()));
        assert(byte as real >= (254 as real + 3 as real / 10 as real));
    }
}

/// Every byte of an encoded colour is that of its own channel, in the order
/// red, green, blue, alpha: colours that agree in a channel agree in its byte,
/// whatever the others are, and red, green and blue are encoded alike.
pub proof fn law_channels_are_separate<K: Arith>(k: &K, c: Vec4, d: Vec4)
    ensures
        c.x == d.x ==> srgb_pixel(k, c).r == srgb_pixel(k, d).r,
        c.y == d.y ==> srgb_pixel(k, c).g == srgb_pixel(k, d).g,
        c.z == d.z ==> srgb_pixel(k, c).b == srgb_pixel(k, d).b,
        c.w == d.w ==> srgb_pixel(k, c).a == srgb_pixel(k, d).a,
        c.x == d.y ==> srgb_pixel(k, c).r == srgb_pixel(k, d).g,
        c.x == d.z ==> srgb_pixel(k, c).r == srgb_pixel(k, d).b,
{
}

/// The ends of each channel: a colour without red has a red byte of 0 and one
/// with full red one of 255, and so for green, blue and alpha, each whatever
/// the others are. So pure green encodes to 0, 255, 0, 255.
pub proof fn law_pure_channels<K: Arith>(k: &K, c: Vec4)
    requires
        precise(k),
        powers_in_unit(k),
        c.x.finite() && c.y.finite() && c.z.finite() && c.w.finite(),
    ensures
        amount(c.x) <= 0 as real ==> srgb_pixel(k, c).r == 0,
        amount(c.x) >= 1 as real ==> srgb_pixel(k, c).r == 255,
        amount(c.y) <= 0 as real ==> srgb_pixel(k, c).g == 0,
        amount(c.y) >= 1 as real ==> srgb_pixel(k, c).g == 255,
        amount(c.z) <= 0 as real ==> srgb_pixel(k, c).b == 0,
        amount(c.z) >= 1 as real ==> srgb_pixel(k, c).b == 255,
        amount(c.w) <= 0 as real ==> srgb_pixel(k, c).a == 0,
        amount(c.w) >= 1 as real ==> srgb_pixel(k, c).a == 255,
{
    law_srgb_ends(k, c.x);
    law_srgb_ends(k, c.y);
    law_srgb_ends(k, c.z);
    law_alpha_is_linear(k, c);
}

/// Alpha is encoded without a curve: its byte is the nearest to 255 times the
/// alpha, but for rounding.
pub proof fn law_alpha_is_linear<K: Arith>(k: &K, c: Vec4)
    requires
        precise(k),
        c.w.finite(),
    ensures
        within(
            srgb_pixel(k, c).a as real,
            255 as real * unit_part(amount(c.w)),
            51 as real / 100 as real,
        ),
{
    lemma_unit_part(c.w);
    lemma_scaled_byte(k, c.w.in_unit(), unit_part(amount(c.w)));
}

/// Depth is encoded linearly: a depth of -1 is white, one of 1 is black, and
/// one between them is as far between these, but for rounding.
pub proof fn law_depth_is_linear<K: Arith>(k: &K, z: Real)
    requires
        precise(k),
        z.finite(),
        size(amount(z)) <= 1 as real,
    ensures
        within(
            depth_byte(k, z) as real,
            255 as real * (1 as real - amount(z)) / 2 as real,
            52 as real / 100 as real,
        ),
{
    lemma_plain_amounts();
    lemma_order(z, num(MINUS_ONE));
    lemma_order(num(ONE), z);
    lemma_product(k, z, num(HALF));
    let h = product(k, z, num(HALF));
    lemma_sum(k, h, num(HALF));
    let t = sum(k, h, num(HALF));
    lemma_difference(k, num(ONE), t);
    lemma_loose_byte(k, difference(k, num(ONE), t), (1 as real - amount(z)) / 2 as real);
}

/// A normal is encoded linearly: a component of -1 is 0, one of 1 is 255, and
/// one between them is as far between these, but for rounding.
pub proof fn law_normal_is_linear<K: Arith>(k: &K, n: Real)
    requires
        precise(k),
        n.finite(),
        size(amount(n)) <= 1 as real,
    ensures
        within(
            normal_byte(k, n) as real,
            255 as real * (1 as real + amount(n)) / 2 as real,
            52 as real / 100 as real,
        ),
{
    lemma_plain_amounts();
    lemma_order(n, num(MINUS_ONE));
    lemma_order(num(ONE), n);
    lemma_sum(k, n, num(ONE));
    let s = sum(k, n, num(ONE));
    lemma_product(k, s, num(HALF));
    lemma_loose_byte(k, product(k, s, num(HALF)), (1 as real + amount(n)) / 2 as real);
}

/// A byte that is scaled from an amount close to `0 ..= 1`.
proof fn lemma_loose_byte<K: Arith>(k: &K, v: Real, exact: real)
    requires
        precise(k),
        v.finite(),
        0 as real <= exact <= 1 as real,
        within(amount(v), exact, 4 as real * hair()),
    ensures
        within(
            product(k, v, num(TOP_BYTE)).as_byte() as real,
            255 as real * exact,
            52 as real / 100 as real,
        ),
{
    lemma_srgb_constants();
    let p = product(k, v, num(TOP_BYTE));
    assert(about(p, amount(v) * 255 as real));
    if amount(p) < 0 as real {
        lemma_byte(p, 0);
    } else if amount(p) > 255 as real {
        lemma_byte(p, 255);
    } else {
        lemma_byte_near(p);
    }
}

/// The light stands where its angles say: its direction, times the exact
/// length of the vector that the angles give, is that vector, with the height
/// `se`, and `ce` in the plane, of which `sa` is along `+X` and `ca` along
/// `+Z`, where `sa` and `ca` are the sine and cosine of the azimuth and `se`
/// and `ce` those of the elevation, but for rounding. Its intensity stays.
pub proof fn law_light_follows_the_angles<K: Arith>(k: &K, spec: LightSpec, length: real)
    requires
        precise(k),
        ({
            let v = orbit_toward(k, spec.azimuth_deg, spec.elevation_deg);
            length * length == exact_dot(v, v)
        }),
        (1 as real / 4 as real) <= length <= 4 as real,
        sine(k, in_radians(k, spec.azimuth_deg)).finite(),
        cosine(k, in_radians(k, spec.azimuth_deg)).finite(),
        sine(k, in_radians(k, spec.elevation_deg)).finite(),
        cosine(k, in_radians(k, spec.elevation_deg)).finite(),
        size(amount(sine(k, in_radians(k, spec.azimuth_deg)))) <= 1 as real,
        size(amount(cosine(k, in_radians(k, spec.azimuth_deg)))) <= 1 as real,
        size(amount(sine(k, in_radians(k, spec.elevation_deg)))) <= 1 as real,
        size(amount(cosine(k, in_radians(k, spec.elevation_deg)))) <= 1 as real,
    ensures
        ({
            let l = light_of(k, spec);
            let sa = amount(sine(k, in_radians(k, spec.azimuth_deg)));
            let ca = amount(cosine(k, in_radians(k, spec.azimuth_deg)));
            let se = amount(sine(k, in_radians(k, spec.elevation_deg)));
            let ce = amount(cosine(k, in_radians(k, spec.elevation_deg)));
            let slack = 1 as real / 200 as real;
            &&& within(amount(l.direction.x) * length, ce * sa, slack)
            &&& within(amount(l.direction.y) * length, se, slack)
            &&& within(amount(l.direction.z) * length, ce * ca, slack)
            &&& l.intensity == spec.intensity
        }),
{
    let sa = sine(k, in_radians(k, spec.azimuth_deg));
    let ca = cosine(k, in_radians(k, spec.azimuth_deg));
    let ce = cosine(k, in_radians(k, spec.elevation_deg));
    lemma_bounded_product(amount(ce), amount(sa), 1 as real, 1 as real);
    lemma_bounded_product(amount(ce), amount(ca), 1 as real, 1 as real);
    lemma_product(k, ce, sa);
    lemma_product(k, ce, ca);
    law_normalised(k, orbit_toward(k, spec.azimuth_deg, spec.elevation_deg), length);
}

/// Every byte of an encoded normal is that of its own component, in the order
/// `x`, `y`, `z`, and all three are encoded alike.
pub proof fn law_normal_components_are_separate<K: Arith>(k: &K, m: Vec3, n: Vec3)
    ensures
        m.x == n.x ==> normal_pixel(k, m).r == normal_pixel(k, n).r,
        m.y == n.y ==> normal_pixel(k, m).g == normal_pixel(k, n).g,
        m.z == n.z ==> normal_pixel(k, m).b == normal_pixel(k, n).b,
        m.x == n.y ==> normal_pixel(k, m).r == normal_pixel(k, n).g,
        m.x == n.z ==> normal_pixel(k, m).r == normal_pixel(k, n).b,
{
}

} // verus!
