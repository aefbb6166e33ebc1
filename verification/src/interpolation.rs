//! What interpolation over a triangle is for: every corner counts with its
//! weight, for every precise arithmetic.

use crate::arith::Arith;
use crate::math::vec3;
use crate::number::Real;
use crate::precision::{amount, hair, lemma_dot, precise, short, within};
use crate::raster::{centre_of, mixed, pixel_fragments, weights_of, Paint, Tri, Weights};
use vstd::prelude::*;

verus! {

/// The exact weighted sum of what three corners have.
pub open spec fn weighted(w: Weights, u: Real, v: Real, t: Real) -> real {
    amount(w.w0) * amount(u) + amount(w.w1) * amount(v) + amount(w.w2) * amount(t)
}

/// Mixing what three corners have gives each its weight, but for rounding.
pub proof fn law_every_corner_counts<K: Arith>(k: &K, w: Weights, u: Real, v: Real, t: Real)
    requires
        precise(k),
        short(vec3(w.w0, w.w1, w.w2)),
        short(vec3(u, v, t)),
    ensures
        mixed(k, w, u, v, t).finite(),
        within(amount(mixed(k, w, u, v, t)), weighted(w, u, v, t), 5 as real * hair()),
{
    lemma_dot(k, vec3(w.w0, w.w1, w.w2), vec3(u, v, t));
}

/// The depth of a covered pixel is interpolated from the depths of all three
/// corners: each counts with the barycentric weight that the pixel's centre has
/// for it, but for rounding.
pub proof fn law_depth_is_interpolated<K: Arith>(
    k: &K,
    t: &Tri,
    area_inv: Real,
    paint: &Paint,
    x: int,
    y: int,
)
    requires
        precise(k),
        pixel_fragments(k, t, area_inv, paint, x, y).len() > 0,
        short(vec3(t.a.z, t.b.z, t.c.z)),
        ({
            let w = weights_of(k, t, area_inv, centre_of(k, x, y));
            short(vec3(w.w0, w.w1, w.w2))
        }),
    ensures
        ({
            let w = weights_of(k, t, area_inv, centre_of(k, x, y));
            let z = pixel_fragments(k, t, area_inv, paint, x, y)[0].z;
            &&& z.finite()
            &&& within(amount(z), weighted(w, t.a.z, t.b.z, t.c.z), 5 as real * hair())
        }),
{
    let w = weights_of(k, t, area_inv, centre_of(k, x, y));
    law_every_corner_counts(k, w, t.a.z, t.b.z, t.c.z);
}

/// At a corner a pixel has that corner's depth: where the weight of one corner
/// is one and those of the others are zero, the depth is that corner's, for
/// each of the three, but for rounding.
pub proof fn law_corner_has_its_depth<K: Arith>(
    k: &K,
    t: &Tri,
    area_inv: Real,
    paint: &Paint,
    x: int,
    y: int,
)
    requires
        precise(k),
        pixel_fragments(k, t, area_inv, paint, x, y).len() > 0,
        short(vec3(t.a.z, t.b.z, t.c.z)),
        ({
            let w = weights_of(k, t, area_inv, centre_of(k, x, y));
            short(vec3(w.w0, w.w1, w.w2))
        }),
    ensures
        ({
            let w = weights_of(k, t, area_inv, centre_of(k, x, y));
            let z = amount(pixel_fragments(k, t, area_inv, paint, x, y)[0].z);
            let (p, q, r) = (amount(w.w0), amount(w.w1), amount(w.w2));
            let slack = 5 as real * hair();
            &&& p == 1 as real && q == 0 as real && r == 0 as real ==> within(
                z,
                amount(t.a.z),
                slack,
            )
            &&& p == 0 as real && q == 1 as real && r == 0 as real ==> within(
                z,
                amount(t.b.z),
                slack,
            )
            &&& p == 0 as real && q == 0 as real && r == 1 as real ==> within(
                z,
                amount(t.c.z),
                slack,
            )
        }),
{
    law_depth_is_interpolated(k, t, area_inv, paint, x, y);
    lemma_zero_and_one(amount(t.a.z));
    lemma_zero_and_one(amount(t.b.z));
    lemma_zero_and_one(amount(t.c.z));
}

/// Nothing times an amount is nothing, and once an amount is that amount.
proof fn lemma_zero_and_one(x: real)
    ensures
        0 as real * x == 0 as real,
        1 as real * x == x,
{
}

/// Turning the corners of a triangle, each with its depth, leaves what it
/// covers as it is, and the depth of each pixel but for rounding.
pub proof fn law_turning_keeps_depth<K: Arith>(
    k: &K,
    t: &Tri,
    area_inv: Real,
    paint: &Paint,
    x: int,
    y: int,
)
    requires
        precise(k),
        short(vec3(t.a.z, t.b.z, t.c.z)),
        ({
            let w = weights_of(k, t, area_inv, centre_of(k, x, y));
            short(vec3(w.w0, w.w1, w.w2))
        }),
    ensures
        ({
            let turned = Tri { a: t.b, b: t.c, c: t.a };
            let before = pixel_fragments(k, t, area_inv, paint, x, y);
            let after = pixel_fragments(k, &turned, area_inv, paint, x, y);
            &&& before.len() == after.len()
            &&& before.len() > 0 ==> within(
                amount(before[0].z),
                amount(after[0].z),
                10 as real * hair(),
            )
        }),
{
    let turned = Tri { a: t.b, b: t.c, c: t.a };
    let w = weights_of(k, t, area_inv, centre_of(k, x, y));
    let v = weights_of(k, &turned, area_inv, centre_of(k, x, y));
    assert(v == (Weights { w0: w.w1, w1: w.w2, w2: w.w0 }));
    law_every_corner_counts(k, w, t.a.z, t.b.z, t.c.z);
    law_every_corner_counts(k, v, t.b.z, t.c.z, t.a.z);
}

} // verus!
