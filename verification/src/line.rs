//! Lines on the pixel grid.

use crate::arith::{difference, hypotenuse, product, quotient, repeatable, sum, Arith};
use crate::framebuffer::{Fragment, Framebuffer, Rgba8};
use crate::math::Vec3;
use crate::number::{num, number_of, Real, ONE};
use vstd::prelude::*;

verus! {

/// Distance between two integers.
pub open spec fn gap(a: int, b: int) -> int {
    if a <= b {
        b - a
    } else {
        a - b
    }
}

/// Direction in which `b` lies from `a`.
pub open spec fn heading(a: int, b: int) -> int {
    if a < b {
        1
    } else {
        -1
    }
}

/// `i * s / l` rounded to the nearest integer, halves up.
pub open spec fn proportional(i: int, s: int, l: int) -> int {
    (2 * i * s + l) / (2 * l)
}

/// Number of steps from one end of a line to the other when it covers `d`
/// columns and `e` rows.
pub open spec fn line_steps(d: int, e: int) -> int {
    if d >= e {
        d
    } else {
        e
    }
}

/// Columns and rows gone after `i` steps: one step each along the longer
/// axis, and the nearest whole share of the shorter one.
pub open spec fn line_point(d: int, e: int, i: int) -> (int, int) {
    if d == 0 && e == 0 {
        (0, 0)
    } else if d >= e {
        (i, proportional(i, e, d))
    } else {
        (proportional(i, d, e), i)
    }
}

/// Depth of the line from `a` to `b` where it is `p` columns and `q` rows
/// away from its start, and `d` and `e` in all.
pub open spec fn line_depth<K: Arith>(
    k: &K,
    a: Vec3,
    b: Vec3,
    d: int,
    e: int,
    p: int,
    q: int,
) -> Real {
    let len = hypotenuse(k, number_of(d), number_of(-e)).greater(num(ONE));
    let t = quotient(k, hypotenuse(k, number_of(p), number_of(q)), len);
    sum(k, a.z, product(k, difference(k, b.z, a.z), t))
}

/// The fragments of the line from `a` to `b`, from its start to its end.
pub open spec fn line_fragments<K: Arith>(k: &K, a: Vec3, b: Vec3, colour: Rgba8) -> Seq<
    Fragment,
> {
    let (x0, y0) = (a.x.rounded(), a.y.rounded());
    let (x1, y1) = (b.x.rounded(), b.y.rounded());
    let (d, e) = (gap(x0, x1), gap(y0, y1));
    Seq::new(
        (line_steps(d, e) + 1) as nat,
        |i: int|
            {
                let p = heading(x0, x1) * line_point(d, e, i).0;
                let q = heading(y0, y1) * line_point(d, e, i).1;
                Fragment { x: x0 + p, y: y0 + q, z: line_depth(k, a, b, d, e, p, q), colour }
            },
    )
}

/// What one more step adds to the nearest share.
proof fn lemma_proportional(i: int, s: int, l: int)
    requires
        0 <= i < l,
        0 <= s <= l,
    ensures
        0 <= proportional(i, s, l) <= s,
        proportional(0, s, l) == 0,
        proportional(l, s, l) == s,
        ((2 * proportional(i, s, l) + 1) * l <= 2 * (i + 1) * s) == (proportional(i + 1, s, l)
            == proportional(i, s, l) + 1),
        proportional(i + 1, s, l) == proportional(i, s, l) || proportional(i + 1, s, l)
            == proportional(i, s, l) + 1,
        2 * (proportional(i, s, l) + 1) * l >= (2 * i + 1) * s,
{
    let b = proportional(i, s, l);
    let c = proportional(i + 1, s, l);
    let n = 2 * i * s + l;
    let m = 2 * (i + 1) * s + l;
    vstd::arithmetic::div_mod::lemma_fundamental_div_mod(n, 2 * l);
    vstd::arithmetic::div_mod::lemma_fundamental_div_mod(m, 2 * l);
    let r = n % (2 * l);
    let t = m % (2 * l);
    assert(n == 2 * (b * l) + r && m == 2 * (c * l) + t) by (nonlinear_arith)
        requires
            n == (2 * l) * b + r,
            m == (2 * l) * c + t,
    ;
    assert(m == n + 2 * s) by (nonlinear_arith)
        requires
            n == 2 * i * s + l,
            m == 2 * (i + 1) * s + l,
    ;
    assert((2 * b + 1) * l == 2 * (b * l) + l) by (nonlinear_arith);
    assert((b + 1) * l == b * l + l) by (nonlinear_arith);
    assert(2 * (b + 1) * l == 2 * (b * l) + 2 * l) by (nonlinear_arith);
    assert((2 * i + 1) * s == 2 * i * s + s) by (nonlinear_arith);
    assert(c >= b && c <= b + 1) by (nonlinear_arith)
        requires
            2 * (c * l) + t == 2 * (b * l) + r + 2 * s,
            0 <= r < 2 * l,
            0 <= t < 2 * l,
            0 <= s <= l,
            l > 0,
    ;
    if c == b {
        assert(t == r + 2 * s);
    }
    assert(b >= 0 && b <= s) by (nonlinear_arith)
        requires
            n == 2 * (b * l) + r,
            n == 2 * i * s + l,
            0 <= r < 2 * l,
            0 <= i < l,
            0 <= s,
            l > 0,
    ;
    vstd::arithmetic::div_mod::lemma_fundamental_div_mod_converse(l, 2 * l, 0, l);
    assert(2 * 0 * s + l == l) by (nonlinear_arith);
    assert(2 * l * s + l == s * (2 * l) + l) by (nonlinear_arith);
    vstd::arithmetic::div_mod::lemma_fundamental_div_mod_converse(2 * l * s + l, 2 * l, s, l);
}

/// Ends of a line.
proof fn lemma_line_ends(d: int, e: int)
    requires
        0 <= d,
        0 <= e,
    ensures
        line_point(d, e, 0) == (0int, 0int),
        line_point(d, e, line_steps(d, e)) == (d, e),
{
    if d >= e && d > 0 {
        lemma_proportional(0, e, d);
    } else if e > d {
        lemma_proportional(0, d, e);
    }
}

/// How a step moves, told from the signed error term that the walk keeps.
proof fn lemma_line_step(d: int, e: int, i: int)
    requires
        0 <= d,
        0 <= e,
        0 <= i < line_steps(d, e),
    ensures
        ({
            let (a, b) = line_point(d, e, i);
            let (c, f) = line_point(d, e, i + 1);
            let err = (b + 1) * d - (a + 1) * e;
            &&& 0 <= a <= d
            &&& 0 <= b <= e
            &&& (a, b) != (d, e)
            &&& c == (if 2 * err >= -e {
                a + 1
            } else {
                a
            })
            &&& f == (if 2 * err <= d {
                b + 1
            } else {
                b
            })
        }),
{
    let (a, b) = line_point(d, e, i);
    let err = (b + 1) * d - (a + 1) * e;
    assert(2 * (b + 1) * d == 2 * ((b + 1) * d) && 2 * (a + 1) * e == 2 * ((a + 1) * e) && (2 * a
        + 1) * e == 2 * ((a + 1) * e) - e && (2 * b + 1) * d == 2 * ((b + 1) * d) - d)
        by (nonlinear_arith);
    if d >= e {
        lemma_proportional(i, e, d);
    } else {
        lemma_proportional(i, d, e);
    }
}

/// What the error term becomes.
proof fn lemma_error_term(d: int, e: int, a: int, b: int)
    ensures
        (b + 1) * d - (a + 2) * e == (b + 1) * d - (a + 1) * e - e,
        (b + 2) * d - (a + 1) * e == (b + 1) * d - (a + 1) * e + d,
        (b + 2) * d - (a + 2) * e == (b + 1) * d - (a + 1) * e - e + d,
{
    assert((a + 2) * e == (a + 1) * e + e && (b + 2) * d == (b + 1) * d + d) by (nonlinear_arith);
}

/// Bresenham line between a pair of projected vertices. Depth runs from end
/// to end with the distance from the start.
pub fn draw_line<K: Arith>(k: &K, fb: &mut Framebuffer, a: Vec3, b: Vec3, colour: Rgba8)
    requires
        old(fb).wf(),
    ensures
        final(fb).wf(),
        final(fb)@.width == old(fb)@.width,
        final(fb)@.height == old(fb)@.height,
        repeatable(k) ==> final(fb)@ == old(fb)@.painted(line_fragments(k, a, b, colour)),
{
    let x0: i64 = a.x.round_i32() as i64;
    let y0: i64 = a.y.round_i32() as i64;
    let x1: i64 = b.x.round_i32() as i64;
    let y1: i64 = b.y.round_i32() as i64;
    let dx: i64 = if x0 <= x1 {
        x1 - x0
    } else {
        x0 - x1
    };
    let dy: i64 = if y0 <= y1 {
        y0 - y1
    } else {
        y1 - y0
    };
    let sx: i64 = if x0 < x1 {
        1
    } else {
        -1
    };
    let sy: i64 = if y0 < y1 {
        1
    } else {
        -1
    };
    let len = k.hypot(Real::of_i64(dx), Real::of_i64(dy)).max(num(ONE));
    let dz = k.minus(b.z, a.z);
    let mut x: i64 = x0;
    let mut y: i64 = y0;
    let mut err: i64 = dx + dy;
    let ghost start = fb@;
    let ghost d = dx as int;
    let ghost e = -dy as int;
    let ghost frags = line_fragments(k, a, b, colour);
    let ghost mut i: int = 0;
    proof {
        lemma_line_ends(d, e);
        assert(frags.take(0) =~= Seq::empty());
        assert(sx * 0 == 0 && sy * 0 == 0) by (nonlinear_arith);
        assert((0 + 1) * d - (0 + 1) * e == d - e) by (nonlinear_arith);
        fb.lemma_view_wf();
    }
    loop
        invariant_except_break
            repeatable(k) ==> fb@ == start.painted(frags.take(i)),
        invariant
            fb.wf(),
            fb@.width == start.width,
            fb@.height == start.height,
            i32::MIN <= x0 <= i32::MAX,
            i32::MIN <= y0 <= i32::MAX,
            i32::MIN <= x1 <= i32::MAX,
            i32::MIN <= y1 <= i32::MAX,
            x0 == a.x.rounded(),
            y0 == a.y.rounded(),
            x1 == b.x.rounded(),
            y1 == b.y.rounded(),
            d == gap(x0 as int, x1 as int),
            e == gap(y0 as int, y1 as int),
            dx == d,
            dy == -e,
            sx == heading(x0 as int, x1 as int),
            sy == heading(y0 as int, y1 as int),
            repeatable(k) ==> len == hypotenuse(k, number_of(d), number_of(-e)).greater(num(ONE)),
            repeatable(k) ==> dz == difference(k, b.z, a.z),
            frags == line_fragments(k, a, b, colour),
            0 <= i <= line_steps(d, e),
            0 <= line_point(d, e, i).0 <= d,
            0 <= line_point(d, e, i).1 <= e,
            x == x0 + sx * line_point(d, e, i).0,
            y == y0 + sy * line_point(d, e, i).1,
            err == (line_point(d, e, i).1 + 1) * d - (line_point(d, e, i).0 + 1) * e,
            -0x2_0000_0000 <= err <= 0x2_0000_0000,
        ensures
            fb.wf(),
            fb@.width == start.width,
            fb@.height == start.height,
            repeatable(k) ==> fb@ == start.painted(frags),
        decreases line_steps(d, e) - i,
    {
        let t = k.over(k.hypot(Real::of_i64(x - x0), Real::of_i64(y - y0)), len);
        let z = k.plus(a.z, k.times(dz, t));
        fb.set_pixel(x as i32, y as i32, z, colour);
        proof {
            if repeatable(k) {
                assert(frags.take(i + 1).drop_last() =~= frags.take(i));
                assert(frags.take(i + 1).last() == frags[i]);
            }
            fb.lemma_view_wf();
        }
        if x == x1 && y == y1 {
            proof {
                if i < line_steps(d, e) {
                    lemma_line_step(d, e, i);
                }
                assert(frags.take(i + 1) =~= frags);
            }
            break;
        }
        proof {
            if i == line_steps(d, e) {
                lemma_line_ends(d, e);
            }
            lemma_line_step(d, e, i);
            lemma_error_term(d, e, line_point(d, e, i).0, line_point(d, e, i).1);
            if i + 1 < line_steps(d, e) {
                lemma_line_step(d, e, i + 1);
            } else {
                lemma_line_ends(d, e);
            }
        }
        let e2: i64 = 2 * err;
        if e2 >= dy {
            err = err + dy;
            x = x + sx;
        }
        if e2 <= dx {
            err = err + dx;
            y = y + sy;
        }
        proof {
            i = i + 1;
        }
    }
}

/// Going the distance in the right direction leads there.
proof fn lemma_heading(a: int, b: int)
    ensures
        a + heading(a, b) * gap(a, b) == b,
{
    let h = heading(a, b);
    let g = gap(a, b);
    assert(h * g == (if h == 1 {
        g
    } else {
        -g
    })) by (nonlinear_arith)
        requires
            h == 1 || h == -1,
    ;
}

/// A line reaches both its ends, and has one fragment for each step along
/// its longer axis.
pub proof fn law_line_reaches_both_ends<K: Arith>(k: &K, a: Vec3, b: Vec3, colour: Rgba8)
    ensures
        ({
            let frags = line_fragments(k, a, b, colour);
            let d = gap(a.x.rounded(), b.x.rounded());
            let e = gap(a.y.rounded(), b.y.rounded());
            &&& frags.len() == line_steps(d, e) + 1
            &&& frags.first().x == a.x.rounded()
            &&& frags.first().y == a.y.rounded()
            &&& frags.last().x == b.x.rounded()
            &&& frags.last().y == b.y.rounded()
        }),
{
    let (x0, y0) = (a.x.rounded(), a.y.rounded());
    let (x1, y1) = (b.x.rounded(), b.y.rounded());
    let (d, e) = (gap(x0, x1), gap(y0, y1));
    lemma_line_ends(d, e);
    assert(heading(x0, x1) * 0 == 0 && heading(y0, y1) * 0 == 0) by (nonlinear_arith);
    lemma_heading(x0, x1);
    lemma_heading(y0, y1);
}

/// A line is connected: each fragment is a neighbour of the one before, and
/// another pixel.
pub proof fn law_line_is_connected<K: Arith>(k: &K, a: Vec3, b: Vec3, colour: Rgba8, i: int)
    requires
        0 <= i,
        i + 1 < line_fragments(k, a, b, colour).len(),
    ensures
        ({
            let f = line_fragments(k, a, b, colour)[i];
            let g = line_fragments(k, a, b, colour)[i + 1];
            &&& gap(f.x, g.x) <= 1
            &&& gap(f.y, g.y) <= 1
            &&& (f.x, f.y) != (g.x, g.y)
        }),
{
    let (x0, y0) = (a.x.rounded(), a.y.rounded());
    let (x1, y1) = (b.x.rounded(), b.y.rounded());
    let (d, e) = (gap(x0, x1), gap(y0, y1));
    lemma_line_step(d, e, i);
    let (p, q) = line_point(d, e, i);
    let (r, s) = line_point(d, e, i + 1);
    let hx = heading(x0, x1);
    let hy = heading(y0, y1);
    assert(r == p || r == p + 1);
    assert(s == q || s == q + 1);
    assert(hx * (p + 1) == hx * p + hx && hy * (q + 1) == hy * q + hy) by (nonlinear_arith);
}

/// A line stays within half a pixel of the ideal one along its shorter axis.
pub proof fn law_line_is_straight(d: int, e: int, i: int)
    requires
        0 <= d,
        0 <= e,
        0 <= i <= line_steps(d, e),
    ensures
        ({
            let (p, q) = line_point(d, e, i);
            &&& d >= e ==> -d <= 2 * (q * d - p * e) <= d
            &&& e >= d ==> -e <= 2 * (p * e - q * d) <= e
        }),
{
    let (p, q) = line_point(d, e, i);
    if d == 0 && e == 0 {
        assert(0 * d == 0 && 0 * e == 0) by (nonlinear_arith);
    } else if d >= e {
        lemma_share(i, e, d);
    } else {
        lemma_share(i, d, e);
    }
}

/// The nearest share is no more than half off.
proof fn lemma_share(i: int, s: int, l: int)
    requires
        0 <= i <= l,
        0 <= s <= l,
        l > 0,
    ensures
        -l <= 2 * (proportional(i, s, l) * l - i * s) <= l,
{
    let b = proportional(i, s, l);
    let n = 2 * i * s + l;
    let r = n % (2 * l);
    vstd::arithmetic::div_mod::lemma_fundamental_div_mod(n, 2 * l);
    assert(2 * (b * l - i * s) == l - r) by (nonlinear_arith)
        requires
            n == (2 * l) * b + r,
            n == 2 * i * s + l,
    ;
}

} // verus!
