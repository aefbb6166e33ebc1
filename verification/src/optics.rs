//! What refraction is for: Snell's law at a surface, for every precise
//! arithmetic.

use crate::arith::{difference, product, quotient, Arith};
use crate::math::{dot, Vec3};
use crate::number::{num, one_worth, Real, MINUS_ONE, ONE};
use crate::precision::{
    amount, exact_dot, hair, lemma_bounded_product, lemma_close_product, lemma_difference,
    lemma_dot, lemma_order, lemma_plain_amounts, lemma_product, lemma_quotient, lemma_square,
    lemma_twice_product, precise, short, size, within,
};
use crate::raycast::{bent_toward, ShadeMaterial, Site};
use vstd::arithmetic::power2::lemma_pow2_pos;
use vstd::prelude::*;

verus! {

/// Whether a vector is finite and of unit length, but for a ten-thousandth.
pub open spec fn unit_long(v: Vec3) -> bool {
    short(v) && within(exact_dot(v, v), 1 as real, 1 as real / 10000 as real)
}

/// How fast light crosses a surface, relative to the other side: dividing by
/// the index of the material on the way in, multiplying by it on the way out.
pub open spec fn tangent_ratio(index: real, entering: bool) -> real {
    if entering {
        1 as real / index
    } else {
        index
    }
}

/// The dot product of vectors of unit length is hardly more than one.
proof fn lemma_unit_dot(a: Vec3, b: Vec3)
    requires
        unit_long(a),
        unit_long(b),
    ensures
        size(exact_dot(a, b)) <= 1 as real + 1 as real / 10000 as real,
{
    lemma_twice_product(amount(a.x), amount(b.x));
    lemma_twice_product(amount(a.y), amount(b.y));
    lemma_twice_product(amount(a.z), amount(b.z));
}

/// The cosine of incidence, from vectors of unit length that meet head on.
proof fn lemma_cosine_in<K: Arith>(k: &K, d: Vec3, n: Vec3)
    requires
        precise(k),
        unit_long(d),
        unit_long(n),
        exact_dot(d, n) <= 0 as real,
    ensures
        ({
            let c = dot(k, d, n).flipped().in_sign();
            &&& c.finite()
            &&& size(amount(c)) <= 1 as real
            &&& within(amount(c), 0 as real - exact_dot(d, n), 15 as real * hair())
        }),
{
    lemma_unit_dot(d, n);
    lemma_dot(k, d, n);
    lemma_plain_amounts();
    let f = dot(k, d, n).flipped();
    lemma_flipped(dot(k, d, n));
    lemma_order(f, num(MINUS_ONE));
    lemma_order(num(ONE), f);
}

/// Flipping the sign flips the amount.
proof fn lemma_flipped(a: Real)
    requires
        a.finite(),
    ensures
        a.flipped().finite(),
        amount(a.flipped()) == 0 as real - amount(a),
{
    let u = one_worth() as real;
    let v = a.value() as real;
    lemma_pow2_pos(149);
    assert(a.flipped().magnitude() == a.magnitude());
    assert(a.flipped().value() == -a.value());
    assert((0 as real - v) / u == 0 as real - v / u) by (nonlinear_arith)
        requires
            u > 0 as real,
    ;
}

/// The squared sine of refraction.
proof fn lemma_sine_out<K: Arith>(k: &K, eta: Real, e: real, c: Real, g: real)
    requires
        precise(k),
        eta.finite(),
        within(amount(eta), e, hair()),
        0 as real <= e <= 3 as real,
        c.finite(),
        size(amount(c)) <= 1 as real,
        within(amount(c), g, 15 as real * hair()),
        0 as real <= g <= 1 as real + 10 as real * hair(),
    ensures
        ({
            let s = product(
                k,
                product(k, eta, eta),
                difference(k, num(ONE), product(k, c, c)),
            );
            &&& s.finite()
            &&& within(amount(s), (e * e) * (1 as real - g * g), 450 as real * hair())
        }),
{
    lemma_plain_amounts();
    lemma_square(amount(c));
    lemma_bounded_product(amount(c), amount(c), 1 as real, 1 as real);
    lemma_product(k, c, c);
    let c2 = product(k, c, c);
    lemma_close_product(
        amount(c),
        g,
        amount(c),
        g,
        15 as real * hair(),
        15 as real * hair(),
        2 as real,
        1 as real,
    );
    lemma_difference(k, num(ONE), c2);
    let f = difference(k, num(ONE), c2);
    lemma_close_product(amount(eta), e, amount(eta), e, hair(), hair(), 3 as real, 4 as real);
    lemma_bounded_product(
        amount(eta),
        amount(eta),
        301 as real / 100 as real,
        301 as real / 100 as real,
    );
    lemma_product(k, eta, eta);
    let e2 = product(k, eta, eta);
    lemma_bounded_product(e, e, 3 as real, 3 as real);
    lemma_square(g);
    assert(size(amount(f)) <= (11 as real / 10 as real));
    lemma_bounded_product(
        amount(e2),
        amount(f),
        91 as real / 10 as real,
        11 as real / 10 as real,
    );
    lemma_product(k, e2, f);
    lemma_close_product(
        amount(e2),
        e * e,
        amount(f),
        1 as real - g * g,
        8 as real * hair(),
        47 as real * hair(),
        9 as real,
        2 as real,
    );
}

/// What Snell's law speaks of: a surface of unit normal that a ray of unit
/// direction meets from the side of the normal, and a material whose index is
/// at least one, and at most three.
pub open spec fn meets_surface(m: &ShadeMaterial, site: &Site) -> bool {
    &&& unit_long(site.in_dir)
    &&& unit_long(site.normal)
    &&& exact_dot(site.in_dir, site.normal) <= 0 as real
    &&& m.ior.finite()
    &&& 1 as real <= amount(m.ior) <= 3 as real
}

/// The squared sine of the angle behind the surface, by Snell's law: that
/// before it, divided by the squared index on the way in and multiplied by it
/// on the way out.
pub open spec fn squared_sine_behind(m: &ShadeMaterial, site: &Site) -> real {
    let ratio = tangent_ratio(amount(m.ior), site.entering);
    let cosine = exact_dot(site.in_dir, site.normal);
    (ratio * ratio) * (1 as real - cosine * cosine)
}

/// The relative index that refraction works with.
spec fn relative_index<K: Arith>(k: &K, m: &ShadeMaterial, site: &Site) -> Real {
    if site.entering {
        quotient(k, num(ONE), m.ior)
    } else {
        m.ior
    }
}

/// The relative index is the ratio of Snell's law.
proof fn lemma_relative_index<K: Arith>(k: &K, m: &ShadeMaterial, site: &Site)
    requires
        precise(k),
        meets_surface(m, site),
    ensures
        ({
            let eta = relative_index(k, m, site);
            let ratio = tangent_ratio(amount(m.ior), site.entering);
            &&& eta.finite()
            &&& within(amount(eta), ratio, hair())
            &&& 0 as real <= ratio <= 3 as real
        }),
{
    lemma_plain_amounts();
    let i = amount(m.ior);
    assert(0 as real <= 1 as real / i && 1 as real / i <= 1 as real) by (nonlinear_arith)
        requires
            1 as real <= i,
    ;
    if site.entering {
        lemma_quotient(k, num(ONE), m.ior);
    }
}

/// Total internal reflection, by Snell's law: a direction is given where the
/// sine behind the surface is less than one, and none where it is more, unless
/// the two are closer than a two-hundredth.
pub proof fn law_total_reflection<K: Arith>(k: &K, m: &ShadeMaterial, site: &Site)
    requires
        precise(k),
        meets_surface(m, site),
    ensures
        squared_sine_behind(m, site) <= 1 as real - 1 as real / 200 as real ==> bent_toward(
            k,
            m,
            site,
        ) is Some,
        squared_sine_behind(m, site) >= 1 as real + 1 as real / 200 as real ==> bent_toward(
            k,
            m,
            site,
        ) is None,
{
    lemma_relative_index(k, m, site);
    lemma_plain_amounts();
    let (d, n) = (site.in_dir, site.normal);
    lemma_unit_dot(d, n);
    lemma_cosine_in(k, d, n);
    let eta = relative_index(k, m, site);
    let c = dot(k, d, n).flipped().in_sign();
    let g = 0 as real - exact_dot(d, n);
    let e = tangent_ratio(amount(m.ior), site.entering);
    lemma_sine_out(k, eta, e, c, g);
    lemma_squared_negation(exact_dot(d, n));
    let s = product(k, product(k, eta, eta), difference(k, num(ONE), product(k, c, c)));
    lemma_order(num(ONE), s);
}

/// A square does not see the sign.
proof fn lemma_squared_negation(x: real)
    ensures
        (0 as real - x) * (0 as real - x) == x * x,
{
    assert((0 as real - x) * (0 as real - x) == x * x) by (nonlinear_arith);
}

/// Light that enters a material is never reflected totally: there is a
/// direction behind the surface whatever the angle, for every index from
/// clearly more than one to three.
pub proof fn law_entering_light_passes<K: Arith>(k: &K, m: &ShadeMaterial, site: &Site)
    requires
        precise(k),
        meets_surface(m, site),
        site.entering,
        amount(m.ior) >= (101 as real / 100 as real),
    ensures
        bent_toward(k, m, site) is Some,
{
    let i = amount(m.ior);
    let e = 1 as real / i;
    let c = exact_dot(site.in_dir, site.normal);
    assert(0 as real <= e && e <= (100 as real / 101 as real)) by (nonlinear_arith)
        requires
            i >= (101 as real / 100 as real),
            e == 1 as real / i,
    ;
    assert(0 as real <= e * e && e * e <= (99 as real / 100 as real)) by (nonlinear_arith)
        requires
            0 as real <= e,
            e <= (100 as real / 101 as real),
    ;
    lemma_square(c);
    lemma_relative_index(k, m, site);
    lemma_unit_dot(site.in_dir, site.normal);
    let f = 1 as real - c * c;
    assert((e * e) * f <= (99 as real / 100 as real)) by (nonlinear_arith)
        requires
            0 as real <= e * e,
            e * e <= (99 as real / 100 as real),
            f <= 1 as real,
    ;
    law_total_reflection(k, m, site);
}

/// Entering a material is leaving one of the reciprocal index: light that
/// meets two surfaces alike, and enters the one but leaves the other, goes on
/// in the same direction, or is totally reflected, at both.
pub proof fn law_entering_is_leaving_the_reciprocal<K: Arith>(
    k: &K,
    m: &ShadeMaterial,
    site: &Site,
    other: &ShadeMaterial,
    back: &Site,
)
    requires
        site.entering,
        !back.entering,
        back.in_dir == site.in_dir,
        back.normal == site.normal,
        other.ior == quotient(k, num(ONE), m.ior),
    ensures
        bent_toward(k, m, site) == bent_toward(k, other, back),
{
}

} // verus!
