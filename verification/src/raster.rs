//! Triangle rasterisation with half-space edge functions.
//!
//! Every shading mode fills a triangle the same way and differs only in the
//! colour of a covered pixel, which a [`Paint`] decides.

use crate::arith::{difference, product, quotient, repeatable, sum, Arith};
use crate::framebuffer::{lemma_painted_add, Canvas, Fragment, Framebuffer, Rgba8};
use crate::math::{normalised, vec3, vec3_normalise, vec4, Vec3, Vec4};
use crate::number::{num, number_of, Real, HALF, ONE, ZERO};
use crate::shade::{
    depth_pixel, depth_to_rgba, linear_rgba_to_srgb_u8, lit, normal_pixel, normal_to_rgba,
    shade_pixel, srgb_pixel, DirLight,
};
use vstd::prelude::*;

verus! {

/// `1.0e-6`, the area under which a triangle is degenerate, as a bit
/// pattern.
pub const TINY_AREA: u32 = 0x3586_37bd;

/// A triangle in screen space: pixel coordinates and depth.
#[derive(Debug, Clone, Copy, PartialEq)]
pub struct Tri {
    /// First corner.
    pub a: Vec3,
    /// Second corner.
    pub b: Vec3,
    /// Third corner.
    pub c: Vec3,
}

/// Barycentric weights of a point.
#[derive(Debug, Clone, Copy, PartialEq)]
pub struct Weights {
    /// Weight of the first corner.
    pub w0: Real,
    /// Weight of the second corner.
    pub w1: Real,
    /// Weight of the third corner.
    pub w2: Real,
}

/// How the pixels of a triangle get their colour.
#[derive(Debug, Clone, Copy, PartialEq)]
pub enum Paint {
    /// The same colour everywhere.
    Flat(Rgba8),
    /// Linear colours of the corners, interpolated.
    Gouraud(Vec4, Vec4, Vec4),
    /// Normals of the corners, interpolated, then lit with a base colour.
    Phong(Vec3, Vec3, Vec3, Vec4, DirLight),
    /// Normals of the corners, interpolated and shown as a colour.
    Normal(Vec3, Vec3, Vec3),
    /// Depth as a gray level.
    Depth,
}

/// Edge function: twice the signed area of the triangle `a`, `b`, `c`.
pub open spec fn edge_of<K: Arith>(k: &K, a: Vec3, b: Vec3, c: Vec3) -> Real {
    difference(
        k,
        product(k, difference(k, b.x, a.x), difference(k, c.y, a.y)),
        product(k, difference(k, b.y, a.y), difference(k, c.x, a.x)),
    )
}

/// Edge function: twice the signed area of the triangle `a`, `b`, `c`.
pub fn edge<K: Arith>(k: &K, a: Vec3, b: Vec3, c: Vec3) -> (r: Real)
    ensures
        repeatable(k) ==> r == edge_of(k, a, b, c),
{
    k.minus(
        k.times(k.minus(b.x, a.x), k.minus(c.y, a.y)),
        k.times(k.minus(b.y, a.y), k.minus(c.x, a.x)),
    )
}

/// Centre of pixel `(x, y)`.
pub open spec fn centre_of<K: Arith>(k: &K, x: int, y: int) -> Vec3 {
    vec3(sum(k, number_of(x), num(HALF)), sum(k, number_of(y), num(HALF)), num(ZERO))
}

/// Centre of pixel `(x, y)`.
fn pixel_centre<K: Arith>(k: &K, x: i32, y: i32) -> (p: Vec3)
    ensures
        repeatable(k) ==> p == centre_of(k, x as int, y as int),
{
    let px = k.plus(Real::of_i64(x as i64), num(HALF));
    let py = k.plus(Real::of_i64(y as i64), num(HALF));
    vec3(px, py, num(ZERO))
}

/// Barycentric weights of `p`.
pub open spec fn weights_of<K: Arith>(k: &K, t: &Tri, area_inv: Real, p: Vec3) -> Weights {
    Weights {
        w0: product(k, edge_of(k, t.b, t.c, p), area_inv),
        w1: product(k, edge_of(k, t.c, t.a, p), area_inv),
        w2: product(k, edge_of(k, t.a, t.b, p), area_inv),
    }
}

/// Barycentric weights of `p`.
pub fn weights_at<K: Arith>(k: &K, t: &Tri, area_inv: Real, p: Vec3) -> (r: Weights)
    ensures
        repeatable(k) ==> r == weights_of(k, t, area_inv, p),
{
    Weights {
        w0: k.times(edge(k, t.b, t.c, p), area_inv),
        w1: k.times(edge(k, t.c, t.a, p), area_inv),
        w2: k.times(edge(k, t.a, t.b, p), area_inv),
    }
}

/// Whether weights are those of a covered point: all three on one side.
pub open spec fn covered(w: Weights) -> bool {
    let zero = num(ZERO);
    ||| zero.at_most(w.w0) && zero.at_most(w.w1) && zero.at_most(w.w2)
    ||| w.w0.at_most(zero) && w.w1.at_most(zero) && w.w2.at_most(zero)
}

/// Whether weights are those of a covered point.
pub fn covers(w: Weights) -> (r: bool)
    ensures
        r == covered(w),
{
    let zero = num(ZERO);
    (zero.le(w.w0) && zero.le(w.w1) && zero.le(w.w2)) || (w.w0.le(zero) && w.w1.le(zero)
        && w.w2.le(zero))
}

/// Weighted sum of three numbers.
pub open spec fn mixed<K: Arith>(k: &K, w: Weights, u: Real, v: Real, t: Real) -> Real {
    sum(k, sum(k, product(k, w.w0, u), product(k, w.w1, v)), product(k, w.w2, t))
}

/// Weighted sum of three numbers.
pub fn mix<K: Arith>(k: &K, w: Weights, u: Real, v: Real, t: Real) -> (r: Real)
    ensures
        repeatable(k) ==> r == mixed(k, w, u, v, t),
{
    k.plus(k.plus(k.times(w.w0, u), k.times(w.w1, v)), k.times(w.w2, t))
}

/// Weighted sum of three vectors.
pub open spec fn mixed3<K: Arith>(k: &K, w: Weights, u: Vec3, v: Vec3, t: Vec3) -> Vec3 {
    vec3(mixed(k, w, u.x, v.x, t.x), mixed(k, w, u.y, v.y, t.y), mixed(k, w, u.z, v.z, t.z))
}

/// Weighted sum of three vectors.
pub fn mix3<K: Arith>(k: &K, w: Weights, u: Vec3, v: Vec3, t: Vec3) -> (r: Vec3)
    ensures
        repeatable(k) ==> r == mixed3(k, w, u, v, t),
{
    vec3(mix(k, w, u.x, v.x, t.x), mix(k, w, u.y, v.y, t.y), mix(k, w, u.z, v.z, t.z))
}

/// Weighted sum of three colours.
pub open spec fn mixed4<K: Arith>(k: &K, w: Weights, u: Vec4, v: Vec4, t: Vec4) -> Vec4 {
    vec4(
        mixed(k, w, u.x, v.x, t.x),
        mixed(k, w, u.y, v.y, t.y),
        mixed(k, w, u.z, v.z, t.z),
        mixed(k, w, u.w, v.w, t.w),
    )
}

/// Weighted sum of three colours.
pub fn mix4<K: Arith>(k: &K, w: Weights, u: Vec4, v: Vec4, t: Vec4) -> (r: Vec4)
    ensures
        repeatable(k) ==> r == mixed4(k, w, u, v, t),
{
    vec4(
        mix(k, w, u.x, v.x, t.x),
        mix(k, w, u.y, v.y, t.y),
        mix(k, w, u.z, v.z, t.z),
        mix(k, w, u.w, v.w, t.w),
    )
}

/// Colour of a covered pixel with the given weights and depth.
pub open spec fn paint_of<K: Arith>(k: &K, paint: &Paint, w: Weights, z: Real) -> Rgba8 {
    match *paint {
        Paint::Flat(colour) => colour,
        Paint::Gouraud(ca, cb, cc) => srgb_pixel(k, mixed4(k, w, ca, cb, cc)),
        Paint::Phong(na, nb, nc, colour, light) => {
            let normal = normalised(k, mixed3(k, w, na, nb, nc));
            srgb_pixel(k, lit(k, colour, normal, &light))
        },
        Paint::Normal(na, nb, nc) => normal_pixel(k, normalised(k, mixed3(k, w, na, nb, nc))),
        Paint::Depth => depth_pixel(k, z),
    }
}

/// Colour of a covered pixel with the given weights and depth.
pub fn paint_pixel<K: Arith>(k: &K, paint: &Paint, w: Weights, z: Real) -> (r: Rgba8)
    ensures
        repeatable(k) ==> r == paint_of(k, paint, w, z),
{
    match *paint {
        Paint::Flat(colour) => colour,
        Paint::Gouraud(ca, cb, cc) => linear_rgba_to_srgb_u8(k, mix4(k, w, ca, cb, cc)),
        Paint::Phong(na, nb, nc, colour, light) => {
            let normal = vec3_normalise(k, mix3(k, w, na, nb, nc));
            linear_rgba_to_srgb_u8(k, shade_pixel(k, colour, normal, &light))
        },
        Paint::Normal(na, nb, nc) => normal_to_rgba(k, vec3_normalise(k, mix3(k, w, na, nb, nc))),
        Paint::Depth => depth_to_rgba(k, z),
    }
}

/// The fragment of pixel `(x, y)`, if the triangle covers its centre.
pub open spec fn pixel_fragments<K: Arith>(
    k: &K,
    t: &Tri,
    area_inv: Real,
    paint: &Paint,
    x: int,
    y: int,
) -> Seq<Fragment> {
    let w = weights_of(k, t, area_inv, centre_of(k, x, y));
    let z = mixed(k, w, t.a.z, t.b.z, t.c.z);
    if covered(w) {
        seq![Fragment { x, y, z, colour: paint_of(k, paint, w, z) }]
    } else {
        seq![]
    }
}

/// The fragments of `n` pixels of row `y`, starting at column `x0`.
pub open spec fn row_fragments<K: Arith>(
    k: &K,
    t: &Tri,
    area_inv: Real,
    paint: &Paint,
    y: int,
    x0: int,
    n: int,
) -> Seq<Fragment>
    decreases n,
{
    if n <= 0 {
        seq![]
    } else {
        row_fragments(k, t, area_inv, paint, y, x0, n - 1) + pixel_fragments(
            k,
            t,
            area_inv,
            paint,
            x0 + n - 1,
            y,
        )
    }
}

/// A range of columns and a range of rows, ends included.
#[derive(Debug, Clone, Copy, PartialEq, Eq)]
pub struct PixelBox {
    /// First column.
    pub min_x: i32,
    /// First row.
    pub min_y: i32,
    /// Last column.
    pub max_x: i32,
    /// Last row.
    pub max_y: i32,
}

/// The fragments of the first `n` rows of a box.
pub open spec fn rows_fragments<K: Arith>(
    k: &K,
    t: &Tri,
    area_inv: Real,
    paint: &Paint,
    within: PixelBox,
    n: int,
) -> Seq<Fragment>
    decreases n,
{
    if n <= 0 {
        seq![]
    } else {
        rows_fragments(k, t, area_inv, paint, within, n - 1) + row_fragments(
            k,
            t,
            area_inv,
            paint,
            within.min_y + n - 1,
            within.min_x as int,
            within.max_x - within.min_x + 1,
        )
    }
}

/// The pixels that can be covered: the triangle's bounding box, cut to a
/// canvas of `width` by `height`.
pub open spec fn bounds_of<K: Arith>(k: &K, width: int, height: int, t: &Tri) -> PixelBox {
    let last_x = difference(k, number_of(width), num(ONE));
    let last_y = difference(k, number_of(height), num(ONE));
    PixelBox {
        min_x: t.a.x.lesser(t.b.x).lesser(t.c.x).greater(num(ZERO)).floored() as i32,
        min_y: t.a.y.lesser(t.b.y).lesser(t.c.y).greater(num(ZERO)).floored() as i32,
        max_x: t.a.x.greater(t.b.x).greater(t.c.x).lesser(last_x).ceiled() as i32,
        max_y: t.a.y.greater(t.b.y).greater(t.c.y).lesser(last_y).ceiled() as i32,
    }
}

/// The pixels that can be covered.
pub fn tri_bbox<K: Arith>(k: &K, width: u32, height: u32, t: &Tri) -> (r: PixelBox)
    ensures
        repeatable(k) ==> r == bounds_of(k, width as int, height as int, t),
{
    let last_x = k.minus(Real::of_u32(width), num(ONE));
    let last_y = k.minus(Real::of_u32(height), num(ONE));
    PixelBox {
        min_x: t.a.x.min(t.b.x).min(t.c.x).max(num(ZERO)).floor_i32(),
        min_y: t.a.y.min(t.b.y).min(t.c.y).max(num(ZERO)).floor_i32(),
        max_x: t.a.x.max(t.b.x).max(t.c.x).min(last_x).ceil_i32(),
        max_y: t.a.y.max(t.b.y).max(t.c.y).min(last_y).ceil_i32(),
    }
}

/// The fragments of a triangle on a canvas of `width` by `height`, row after
/// row; none if the triangle is degenerate.
pub open spec fn triangle_fragments<K: Arith>(
    k: &K,
    width: int,
    height: int,
    t: &Tri,
    paint: &Paint,
) -> Seq<Fragment> {
    let area = edge_of(k, t.a, t.b, t.c);
    let within = bounds_of(k, width, height, t);
    if area.unsigned().below(num(TINY_AREA)) {
        seq![]
    } else {
        rows_fragments(
            k,
            t,
            quotient(k, num(ONE), area),
            paint,
            within,
            within.max_y - within.min_y + 1,
        )
    }
}

/// Tries pixel `(x, y)` of a triangle.
fn fill_pixel<K: Arith>(
    k: &K,
    fb: &mut Framebuffer,
    t: &Tri,
    area_inv: Real,
    paint: &Paint,
    x: i32,
    y: i32,
)
    requires
        old(fb).wf(),
    ensures
        final(fb).wf(),
        final(fb)@.width == old(fb)@.width,
        final(fb)@.height == old(fb)@.height,
        repeatable(k) ==> final(fb)@ == old(fb)@.painted(
            pixel_fragments(k, t, area_inv, paint, x as int, y as int),
        ),
{
    let w = weights_at(k, t, area_inv, pixel_centre(k, x, y));
    if covers(w) {
        let z = mix(k, w, t.a.z, t.b.z, t.c.z);
        let colour = paint_pixel(k, paint, w, z);
        proof {
            let f = Fragment { x: x as int, y: y as int, z, colour };
            assert(seq![f].drop_last() =~= seq![]);
            reveal_with_fuel(Canvas::painted, 2);
        }
        fb.set_pixel(x, y, z, colour);
    }
}

/// Fills row `y` of a triangle between two columns, ends included.
fn fill_row<K: Arith>(
    k: &K,
    fb: &mut Framebuffer,
    t: &Tri,
    area_inv: Real,
    paint: &Paint,
    y: i32,
    min_x: i32,
    max_x: i32,
)
    requires
        old(fb).wf(),
    ensures
        final(fb).wf(),
        final(fb)@.width == old(fb)@.width,
        final(fb)@.height == old(fb)@.height,
        repeatable(k) ==> final(fb)@ == old(fb)@.painted(
            row_fragments(k, t, area_inv, paint, y as int, min_x as int, max_x - min_x + 1),
        ),
{
    let ghost start = fb@;
    let mut x: i64 = min_x as i64;
    while x <= max_x as i64
        invariant
            fb.wf(),
            fb@.width == start.width,
            fb@.height == start.height,
            min_x <= x,
            x <= max_x + 1 || x == min_x,
            repeatable(k) ==> fb@ == start.painted(
                row_fragments(k, t, area_inv, paint, y as int, min_x as int, x - min_x),
            ),
        decreases max_x + 1 - x,
    {
        proof {
            lemma_painted_add(
                start,
                row_fragments(k, t, area_inv, paint, y as int, min_x as int, x - min_x),
                pixel_fragments(k, t, area_inv, paint, x as int, y as int),
            );
        }
        fill_pixel(k, fb, t, area_inv, paint, x as i32, y);
        x = x + 1;
    }
}

/// Fills a triangle.
pub fn fill_triangle<K: Arith>(k: &K, fb: &mut Framebuffer, t: &Tri, paint: &Paint)
    requires
        old(fb).wf(),
    ensures
        final(fb).wf(),
        final(fb)@.width == old(fb)@.width,
        final(fb)@.height == old(fb)@.height,
        repeatable(k) ==> final(fb)@ == old(fb)@.painted(
            triangle_fragments(k, old(fb)@.width, old(fb)@.height, t, paint),
        ),
{
    let area = edge(k, t.a, t.b, t.c);
    if area.abs().lt(num(TINY_AREA)) {
        return;
    }
    let within = tri_bbox(k, fb.width(), fb.height(), t);
    let area_inv = k.over(num(ONE), area);
    let ghost start = fb@;
    let mut y: i64 = within.min_y as i64;
    while y <= within.max_y as i64
        invariant
            fb.wf(),
            fb@.width == start.width,
            fb@.height == start.height,
            within.min_y <= y,
            y <= within.max_y + 1 || y == within.min_y,
            repeatable(k) ==> fb@ == start.painted(
                rows_fragments(k, t, area_inv, paint, within, y - within.min_y),
            ),
        decreases within.max_y + 1 - y,
    {
        proof {
            lemma_painted_add(
                start,
                rows_fragments(k, t, area_inv, paint, within, y - within.min_y),
                row_fragments(
                    k,
                    t,
                    area_inv,
                    paint,
                    y as int,
                    within.min_x as int,
                    within.max_x - within.min_x + 1,
                ),
            );
        }
        fill_row(k, fb, t, area_inv, paint, y as i32, within.min_x, within.max_x);
        y = y + 1;
    }
}

/// Whether a fragment comes before a pixel in reading order.
pub open spec fn reads_before(f: Fragment, x: int, y: int) -> bool {
    f.y < y || (f.y == y && f.x < x)
}

/// Whether fragments lie in a box and come in reading order, so that no
/// pixel occurs twice.
pub open spec fn in_reading_order(frags: Seq<Fragment>, within: PixelBox) -> bool {
    &&& forall|i: int|
        0 <= i < frags.len() ==> within.min_x <= (#[trigger] frags[i]).x <= within.max_x
            && within.min_y <= frags[i].y <= within.max_y
    &&& forall|i: int, j: int|
        0 <= i < j < frags.len() ==> reads_before(
            #[trigger] frags[i],
            (#[trigger] frags[j]).x,
            frags[j].y,
        )
}

/// Fragments of a row lie in it, left to right.
proof fn lemma_row_order<K: Arith>(
    k: &K,
    t: &Tri,
    area_inv: Real,
    paint: &Paint,
    y: int,
    x0: int,
    n: int,
)
    ensures
        ({
            let frags = row_fragments(k, t, area_inv, paint, y, x0, n);
            &&& forall|i: int|
                0 <= i < frags.len() ==> x0 <= (#[trigger] frags[i]).x < x0 + n && frags[i].y == y
            &&& forall|i: int, j: int|
                0 <= i < j < frags.len() ==> (#[trigger] frags[i]).x < (#[trigger] frags[j]).x
        }),
    decreases n,
{
    if n > 0 {
        lemma_row_order(k, t, area_inv, paint, y, x0, n - 1);
        let done = row_fragments(k, t, area_inv, paint, y, x0, n - 1);
        let here = pixel_fragments(k, t, area_inv, paint, x0 + n - 1, y);
        let frags = row_fragments(k, t, area_inv, paint, y, x0, n);
        assert(frags == done + here);
        assert forall|i: int| 0 <= i < frags.len() implies x0 <= (#[trigger] frags[i]).x < x0 + n
            && frags[i].y == y by {
            if i < done.len() {
                assert(frags[i] == done[i]);
            }
        }
        assert forall|i: int, j: int| 0 <= i < j < frags.len() implies (#[trigger] frags[i]).x < (
        #[trigger] frags[j]).x by {
            assert(frags[i] == done[i]);
            if j < done.len() {
                assert(frags[j] == done[j]);
            }
        }
    }
}

/// Fragments of the first rows of a box lie in them, in reading order.
proof fn lemma_rows_order<K: Arith>(
    k: &K,
    t: &Tri,
    area_inv: Real,
    paint: &Paint,
    within: PixelBox,
    n: int,
)
    requires
        n <= within.max_y - within.min_y + 1,
    ensures
        ({
            let frags = rows_fragments(k, t, area_inv, paint, within, n);
            &&& in_reading_order(frags, within)
            &&& forall|i: int|
                0 <= i < frags.len() ==> (#[trigger] frags[i]).y < within.min_y + n
        }),
    decreases n,
{
    if n > 0 {
        let y = within.min_y + n - 1;
        let w = within.max_x - within.min_x + 1;
        lemma_rows_order(k, t, area_inv, paint, within, n - 1);
        lemma_row_order(k, t, area_inv, paint, y, within.min_x as int, w);
        let done = rows_fragments(k, t, area_inv, paint, within, n - 1);
        let row = row_fragments(k, t, area_inv, paint, y, within.min_x as int, w);
        let frags = rows_fragments(k, t, area_inv, paint, within, n);
        assert(frags == done + row);
        assert forall|i: int| 0 <= i < frags.len() implies within.min_x <= (#[trigger] frags[i]).x
            <= within.max_x && within.min_y <= frags[i].y <= within.max_y && frags[i].y
            < within.min_y + n by {
            if i < done.len() {
                assert(frags[i] == done[i]);
            } else {
                assert(frags[i] == row[i - done.len()]);
            }
        }
        assert forall|i: int, j: int| 0 <= i < j < frags.len() implies reads_before(
            #[trigger] frags[i],
            (#[trigger] frags[j]).x,
            frags[j].y,
        ) by {
            if j < done.len() {
                assert(frags[i] == done[i] && frags[j] == done[j]);
            } else if i < done.len() {
                assert(frags[i] == done[i] && frags[j] == row[j - done.len()]);
            } else {
                assert(frags[i] == row[i - done.len()] && frags[j] == row[j - done.len()]);
            }
        }
    }
}

/// A triangle is drawn within its bounding box, and tries no pixel twice.
pub proof fn law_triangle_tries_each_pixel_once<K: Arith>(
    k: &K,
    width: int,
    height: int,
    t: &Tri,
    paint: &Paint,
)
    ensures
        in_reading_order(
            triangle_fragments(k, width, height, t, paint),
            bounds_of(k, width, height, t),
        ),
{
    let within = bounds_of(k, width, height, t);
    let area = edge_of(k, t.a, t.b, t.c);
    lemma_rows_order(
        k,
        t,
        quotient(k, num(ONE), area),
        paint,
        within,
        within.max_y - within.min_y + 1,
    );
}

/// Fragments of a row are those of its covered pixels.
proof fn lemma_row_complete<K: Arith>(
    k: &K,
    t: &Tri,
    area_inv: Real,
    paint: &Paint,
    y: int,
    x0: int,
    n: int,
    x: int,
)
    requires
        x0 <= x < x0 + n,
    ensures
        pixel_fragments(k, t, area_inv, paint, x, y).len() > 0 ==> row_fragments(
            k,
            t,
            area_inv,
            paint,
            y,
            x0,
            n,
        ).contains(pixel_fragments(k, t, area_inv, paint, x, y)[0]),
    decreases n,
{
    let here = pixel_fragments(k, t, area_inv, paint, x, y);
    let done = row_fragments(k, t, area_inv, paint, y, x0, n - 1);
    let row = row_fragments(k, t, area_inv, paint, y, x0, n);
    if here.len() > 0 {
        if x < x0 + n - 1 {
            lemma_row_complete(k, t, area_inv, paint, y, x0, n - 1, x);
            let i = choose|i: int| 0 <= i < done.len() && done[i] == here[0];
            assert(row[i] == here[0]);
        } else {
            assert(row[done.len() as int] == here[0]);
        }
    }
}

/// Fragments of the rows of a box are those of their covered pixels.
proof fn lemma_rows_complete<K: Arith>(
    k: &K,
    t: &Tri,
    area_inv: Real,
    paint: &Paint,
    within: PixelBox,
    n: int,
    x: int,
    y: int,
)
    requires
        within.min_x <= x <= within.max_x,
        within.min_y <= y < within.min_y + n,
    ensures
        pixel_fragments(k, t, area_inv, paint, x, y).len() > 0 ==> rows_fragments(
            k,
            t,
            area_inv,
            paint,
            within,
            n,
        ).contains(pixel_fragments(k, t, area_inv, paint, x, y)[0]),
    decreases n,
{
    let here = pixel_fragments(k, t, area_inv, paint, x, y);
    let w = within.max_x - within.min_x + 1;
    let done = rows_fragments(k, t, area_inv, paint, within, n - 1);
    let row = row_fragments(k, t, area_inv, paint, within.min_y + n - 1, within.min_x as int, w);
    let rows = rows_fragments(k, t, area_inv, paint, within, n);
    if here.len() > 0 {
        if y < within.min_y + n - 1 {
            lemma_rows_complete(k, t, area_inv, paint, within, n - 1, x, y);
            let i = choose|i: int| 0 <= i < done.len() && done[i] == here[0];
            assert(rows[i] == here[0]);
        } else {
            lemma_row_complete(k, t, area_inv, paint, y, within.min_x as int, w, x);
            let i = choose|i: int| 0 <= i < row.len() && row[i] == here[0];
            assert(rows[done.len() + i] == here[0]);
        }
    }
}

/// Filling leaves no holes: every pixel of the bounding box whose centre a
/// triangle covers has its fragment.
pub proof fn law_triangle_leaves_no_holes<K: Arith>(
    k: &K,
    width: int,
    height: int,
    t: &Tri,
    paint: &Paint,
    x: int,
    y: int,
)
    requires
        !edge_of(k, t.a, t.b, t.c).unsigned().below(num(TINY_AREA)),
        bounds_of(k, width, height, t).min_x <= x <= bounds_of(k, width, height, t).max_x,
        bounds_of(k, width, height, t).min_y <= y <= bounds_of(k, width, height, t).max_y,
    ensures
        ({
            let area_inv = quotient(k, num(ONE), edge_of(k, t.a, t.b, t.c));
            let here = pixel_fragments(k, t, area_inv, paint, x, y);
            here.len() > 0 ==> triangle_fragments(k, width, height, t, paint).contains(here[0])
        }),
{
    let within = bounds_of(k, width, height, t);
    lemma_rows_complete(
        k,
        t,
        quotient(k, num(ONE), edge_of(k, t.a, t.b, t.c)),
        paint,
        within,
        within.max_y - within.min_y + 1,
        x,
        y,
    );
}

/// A degenerate triangle draws nothing.
pub proof fn law_degenerate_triangle<K: Arith>(
    k: &K,
    width: int,
    height: int,
    t: &Tri,
    paint: &Paint,
)
    requires
        edge_of(k, t.a, t.b, t.c).unsigned().below(num(TINY_AREA)),
    ensures
        triangle_fragments(k, width, height, t, paint).len() == 0,
{
}
/// Whether a fragment is the one of a pixel that a triangle covers.
pub open spec fn is_pixel_of<K: Arith>(
    k: &K,
    t: &Tri,
    area_inv: Real,
    paint: &Paint,
    f: Fragment,
) -> bool {
    pixel_fragments(k, t, area_inv, paint, f.x, f.y) == seq![f]
}

/// Fragments of a row are those of its pixels.
proof fn lemma_row_sound<K: Arith>(
    k: &K,
    t: &Tri,
    area_inv: Real,
    paint: &Paint,
    y: int,
    x0: int,
    n: int,
)
    ensures
        ({
            let frags = row_fragments(k, t, area_inv, paint, y, x0, n);
            forall|i: int|
                0 <= i < frags.len() ==> is_pixel_of(k, t, area_inv, paint, #[trigger] frags[i])
        }),
    decreases n,
{
    if n > 0 {
        lemma_row_sound(k, t, area_inv, paint, y, x0, n - 1);
        let done = row_fragments(k, t, area_inv, paint, y, x0, n - 1);
        let here = pixel_fragments(k, t, area_inv, paint, x0 + n - 1, y);
        let frags = row_fragments(k, t, area_inv, paint, y, x0, n);
        assert(frags == done + here);
        assert forall|i: int| 0 <= i < frags.len() implies is_pixel_of(
            k,
            t,
            area_inv,
            paint,
            #[trigger] frags[i],
        ) by {
            if i < done.len() {
                assert(frags[i] == done[i]);
            } else {
                assert(frags[i] == here[0]);
                assert(here =~= seq![frags[i]]);
            }
        }
    }
}

/// Fragments of the rows of a box are those of their pixels.
proof fn lemma_rows_sound<K: Arith>(
    k: &K,
    t: &Tri,
    area_inv: Real,
    paint: &Paint,
    within: PixelBox,
    n: int,
)
    ensures
        ({
            let frags = rows_fragments(k, t, area_inv, paint, within, n);
            forall|i: int|
                0 <= i < frags.len() ==> is_pixel_of(k, t, area_inv, paint, #[trigger] frags[i])
        }),
    decreases n,
{
    if n > 0 {
        let y = within.min_y + n - 1;
        let w = within.max_x - within.min_x + 1;
        lemma_rows_sound(k, t, area_inv, paint, within, n - 1);
        lemma_row_sound(k, t, area_inv, paint, y, within.min_x as int, w);
        let done = rows_fragments(k, t, area_inv, paint, within, n - 1);
        let row = row_fragments(k, t, area_inv, paint, y, within.min_x as int, w);
        let frags = rows_fragments(k, t, area_inv, paint, within, n);
        assert(frags == done + row);
        assert forall|i: int| 0 <= i < frags.len() implies is_pixel_of(
            k,
            t,
            area_inv,
            paint,
            #[trigger] frags[i],
        ) by {
            if i < done.len() {
                assert(frags[i] == done[i]);
            } else {
                assert(frags[i] == row[i - done.len()]);
            }
        }
    }
}

/// Filling draws nothing but covered pixels: every fragment of a triangle is
/// the one of a pixel whose centre it covers.
pub proof fn law_triangle_draws_covered_pixels<K: Arith>(
    k: &K,
    width: int,
    height: int,
    t: &Tri,
    paint: &Paint,
    i: int,
)
    requires
        0 <= i < triangle_fragments(k, width, height, t, paint).len(),
    ensures
        is_pixel_of(
            k,
            t,
            quotient(k, num(ONE), edge_of(k, t.a, t.b, t.c)),
            paint,
            triangle_fragments(k, width, height, t, paint)[i],
        ),
{
    let within = bounds_of(k, width, height, t);
    lemma_rows_sound(
        k,
        t,
        quotient(k, num(ONE), edge_of(k, t.a, t.b, t.c)),
        paint,
        within,
        within.max_y - within.min_y + 1,
    );
}

} // verus!
