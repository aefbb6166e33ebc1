//! Colour and depth buffer of the rasteriser.
//!
//! Whatever is drawn is a sequence of [`Fragment`]s, and what a frame looks
//! like is what is left when each has been tried against the depth buffer in
//! turn.

use crate::image::RgbaImage;
use crate::number::{num, Real, INFINITY};
use vstd::prelude::*;

verus! {

/// One RGBA8 pixel.
#[derive(Debug, Clone, Copy, PartialEq, Eq, Structural)]
pub struct Rgba8 {
    /// Red.
    pub r: u8,
    /// Green.
    pub g: u8,
    /// Blue.
    pub b: u8,
    /// Alpha.
    pub a: u8,
}

impl Rgba8 {
    /// The four channels in memory order.
    pub open spec fn bytes(self) -> Seq<u8> {
        seq![self.r, self.g, self.b, self.a]
    }

    /// The pixel whose channels are `quad`.
    pub open spec fn from_bytes(quad: Seq<u8>) -> Rgba8 {
        Rgba8 { r: quad[0], g: quad[1], b: quad[2], a: quad[3] }
    }

    /// The pixel with the given channels.
    pub fn of(quad: [u8; 4]) -> (c: Rgba8)
        ensures
            c == Rgba8::from_bytes(quad@),
            c.bytes() == quad@,
    {
        let c = Rgba8 { r: quad[0], g: quad[1], b: quad[2], a: quad[3] };
        assert(c.bytes() =~= quad@);
        c
    }
}

/// A pixel that something drawn would cover.
pub struct Fragment {
    /// Column.
    pub x: int,
    /// Row.
    pub y: int,
    /// Depth; smaller is nearer.
    pub z: Real,
    /// Colour.
    pub colour: Rgba8,
}

/// What the framebuffer holds for one pixel.
pub struct Cell {
    /// Depth of what is shown.
    pub depth: Real,
    /// Colour of what is shown.
    pub colour: Rgba8,
}

/// Number of columns or rows that a signed coordinate can reach.
pub open spec fn reach(n: int) -> int {
    if n <= i32::MAX {
        n
    } else {
        0
    }
}

/// The mathematical content of a framebuffer: its cells, row after row.
#[verifier::ext_equal]
pub struct Canvas {
    /// Columns.
    pub width: int,
    /// Rows.
    pub height: int,
    /// One cell per pixel.
    pub cells: Seq<Cell>,
}

impl Canvas {
    /// One cell per pixel.
    pub open spec fn wf(self) -> bool {
        &&& self.width >= 0
        &&& self.height >= 0
        &&& self.cells.len() == self.width * self.height
    }

    /// Whether `(x, y)` can be drawn to.
    pub open spec fn drawable(self, x: int, y: int) -> bool {
        0 <= x < reach(self.width) && 0 <= y < reach(self.height)
    }

    /// Place of pixel `(x, y)` among the cells.
    pub open spec fn slot(self, x: int, y: int) -> int {
        y * self.width + x
    }

    /// The cell of pixel `(x, y)`.
    pub open spec fn at(self, x: int, y: int) -> Cell {
        self.cells[self.slot(x, y)]
    }

    /// Whether a fragment is on the canvas and nearer than what is shown.
    pub open spec fn takes(self, f: Fragment) -> bool {
        self.drawable(f.x, f.y) && f.z.below(self.at(f.x, f.y).depth)
    }

    /// The canvas after one fragment was tried.
    pub open spec fn put(self, f: Fragment) -> Canvas {
        if self.takes(f) {
            Canvas {
                cells: self.cells.update(
                    self.slot(f.x, f.y),
                    Cell { depth: f.z, colour: f.colour },
                ),
                ..self
            }
        } else {
            self
        }
    }

    /// The canvas after the fragments were tried in order.
    pub open spec fn painted(self, frags: Seq<Fragment>) -> Canvas
        decreases frags.len(),
    {
        if frags.len() == 0 {
            self
        } else {
            self.painted(frags.drop_last()).put(frags.last())
        }
    }

    /// A cleared canvas.
    pub open spec fn cleared(width: int, height: int, colour: Rgba8) -> Canvas {
        Canvas {
            width,
            height,
            cells: Seq::new(
                (width * height) as nat,
                |i: int| Cell { depth: num(INFINITY), colour },
            ),
        }
    }

    /// Whether `image` shows the colours of the canvas.
    pub open spec fn shown_by(self, image: RgbaImage) -> bool {
        &&& image.width == self.width
        &&& image.height == self.height
        &&& image.packed()
        &&& forall|x: int, y: int| #[trigger]
            image.in_bounds(x, y) ==> image.quad(x, y) == self.at(x, y).colour.bytes()
    }
}

/// A pixel's slot lies among the cells, and no other pixel shares it.
pub proof fn lemma_slot(c: Canvas, x: int, y: int)
    requires
        c.wf(),
        0 <= x < c.width,
        0 <= y < c.height,
    ensures
        0 <= c.slot(x, y) < c.cells.len(),
        forall|u: int, v: int|
            0 <= u < c.width && 0 <= v < c.height && #[trigger] c.slot(u, v) == c.slot(x, y)
                ==> u == x && v == y,
{
    assert(0 <= y * c.width + x < c.width * c.height) by (nonlinear_arith)
        requires
            0 <= x < c.width,
            0 <= y < c.height,
    ;
    assert forall|u: int, v: int|
        0 <= u < c.width && 0 <= v < c.height && #[trigger] c.slot(u, v) == c.slot(x, y) implies u
        == x && v == y by {
        assert(u == x && v == y) by (nonlinear_arith)
            requires
                v * c.width + u == y * c.width + x,
                0 <= u < c.width,
                0 <= x < c.width,
        ;
    }
}

/// Painting keeps the size of the canvas.
pub proof fn lemma_painted_wf(c: Canvas, frags: Seq<Fragment>)
    requires
        c.wf(),
    ensures
        c.painted(frags).wf(),
        c.painted(frags).width == c.width,
        c.painted(frags).height == c.height,
    decreases frags.len(),
{
    if frags.len() > 0 {
        lemma_painted_wf(c, frags.drop_last());
        let d = c.painted(frags.drop_last());
        let f = frags.last();
        if d.takes(f) {
            lemma_slot(d, f.x, f.y);
        }
    }
}

/// Painting one batch after another is painting both in a row.
pub proof fn lemma_painted_add(c: Canvas, a: Seq<Fragment>, b: Seq<Fragment>)
    ensures
        c.painted(a + b) == c.painted(a).painted(b),
    decreases b.len(),
{
    if b.len() == 0 {
        assert(a + b =~= a);
    } else {
        assert((a + b).drop_last() =~= a + b.drop_last());
        lemma_painted_add(c, a, b.drop_last());
    }
}

/// Colour and depth buffer.
pub struct Framebuffer {
    width: u32,
    height: u32,
    rgba: Vec<u8>,
    zbuf: Vec<Real>,
}

impl View for Framebuffer {
    type V = Canvas;

    closed spec fn view(&self) -> Canvas {
        Canvas {
            width: self.width as int,
            height: self.height as int,
            cells: Seq::new(
                self.zbuf@.len(),
                |i: int|
                    Cell {
                        depth: self.zbuf@[i],
                        colour: Rgba8::from_bytes(self.rgba@.subrange(4 * i, 4 * i + 4)),
                    },
            ),
        }
    }
}

impl Framebuffer {
    /// The buffers hold one entry for every pixel.
    pub closed spec fn wf(&self) -> bool {
        &&& self.zbuf@.len() == self.width * self.height
        &&& self.rgba@.len() == 4 * self.zbuf@.len()
    }

    /// A framebuffer cleared to `background`, with everything infinitely
    /// far away.
    pub fn new(width: u32, height: u32, background: Rgba8) -> (fb: Self)
        requires
            width * height * 4 <= isize::MAX,
        ensures
            fb.wf(),
            fb@ == Canvas::cleared(width as int, height as int, background),
    {
        proof {
            assert(0 <= width * height) by (nonlinear_arith);
        }
        let n: usize = (width as usize) * (height as usize);
        let mut rgba: Vec<u8> = Vec::with_capacity(n * 4);
        let mut zbuf: Vec<Real> = Vec::with_capacity(n);
        let mut i: usize = 0;
        while i < n
            invariant
                i <= n,
                zbuf@.len() == i,
                rgba@.len() == 4 * i,
                forall|k: int| 0 <= k < i ==> zbuf@[k] == num(INFINITY),
                forall|k: int|
                    0 <= k < i ==> #[trigger] rgba@.subrange(4 * k, 4 * k + 4)
                        == background.bytes(),
            decreases n - i,
        {
            let ghost before = rgba@;
            rgba.push(background.r);
            rgba.push(background.g);
            rgba.push(background.b);
            rgba.push(background.a);
            zbuf.push(num(INFINITY));
            proof {
                assert forall|k: int| 0 <= k < i + 1 implies #[trigger] rgba@.subrange(
                    4 * k,
                    4 * k + 4,
                ) == background.bytes() by {
                    if k < i {
                        assert(rgba@.subrange(4 * k, 4 * k + 4) == before.subrange(
                            4 * k,
                            4 * k + 4,
                        ));
                    } else {
                        assert(rgba@.subrange(4 * k, 4 * k + 4) =~= background.bytes());
                    }
                }
            }
            i += 1;
        }
        let fb = Framebuffer { width, height, rgba, zbuf };
        proof {
            let c = Canvas::cleared(width as int, height as int, background);
            assert forall|k: int| 0 <= k < fb@.cells.len() implies fb@.cells[k] == c.cells[k] by {
                assert(rgba@.subrange(4 * k, 4 * k + 4) == background.bytes());
            }
            assert(fb@.cells =~= c.cells);
        }
        fb
    }

    /// Columns.
    pub fn width(&self) -> (w: u32)
        ensures
            w == self@.width,
    {
        self.width
    }

    /// Rows.
    pub fn height(&self) -> (h: u32)
        ensures
            h == self@.height,
    {
        self.height
    }

    /// The view of a well-formed framebuffer is well formed.
    pub proof fn lemma_view_wf(&self)
        requires
            self.wf(),
        ensures
            self@.wf(),
            0 <= self@.width <= u32::MAX,
            0 <= self@.height <= u32::MAX,
    {
    }

    /// Shows `colour` at `(x, y)` if that is on the canvas and `z` is nearer
    /// than what is shown there.
    pub fn set_pixel(&mut self, x: i32, y: i32, z: Real, colour: Rgba8)
        requires
            old(self).wf(),
        ensures
            final(self).wf(),
            final(self)@ == old(self)@.put(Fragment { x: x as int, y: y as int, z, colour }),
    {
        let ghost before = self@;
        let ghost f = Fragment { x: x as int, y: y as int, z, colour };
        if self.width > 0x7fff_ffff || self.height > 0x7fff_ffff {
            return;
        }
        if x < 0 || y < 0 || x >= self.width as i32 || y >= self.height as i32 {
            return;
        }
        proof {
            lemma_slot(before, x as int, y as int);
            assert(0 <= y * self.width) by (nonlinear_arith)
                requires
                    y >= 0,
            ;
            assert(self.zbuf@.len() == self.zbuf.len() && self.rgba@.len() == self.rgba.len());
        }
        let idx: usize = (y as usize) * (self.width as usize) + (x as usize);
        if z.lt(self.zbuf[idx]) {
            self.zbuf[idx] = z;
            let p: usize = idx * 4;
            self.rgba[p] = colour.r;
            self.rgba[p + 1] = colour.g;
            self.rgba[p + 2] = colour.b;
            self.rgba[p + 3] = colour.a;
            proof {
                let after = before.put(f);
                assert forall|k: int| 0 <= k < self@.cells.len() implies self@.cells[k]
                    == after.cells[k] by {
                    if k != idx {
                        assert(self.rgba@.subrange(4 * k, 4 * k + 4) =~= old(
                            self,
                        ).rgba@.subrange(4 * k, 4 * k + 4));
                    }
                }
                assert(self@.cells =~= after.cells);
            }
        }
    }

    /// The colours as an image.
    pub fn into_image(self) -> (image: RgbaImage)
        requires
            self.wf(),
            self@.width * 4 <= usize::MAX,
        ensures
            self@.shown_by(image),
    {
        let ghost c = self@;
        let stride: usize = (self.width as usize) * 4;
        let image = RgbaImage {
            width: self.width,
            height: self.height,
            stride,
            pixels: self.rgba,
        };
        proof {
            assert(image.pixels@.len() == image.height * image.stride) by (nonlinear_arith)
                requires
                    image.pixels@.len() == 4 * (self.width * self.height),
                    image.stride == self.width * 4,
                    image.height == self.height,
            ;
            assert forall|x: int, y: int| #[trigger] image.in_bounds(x, y) implies image.quad(x, y)
                == c.at(x, y).colour.bytes() by {
                lemma_slot(c, x, y);
                let k = c.slot(x, y);
                assert(image.offset(x, y) == 4 * k) by (nonlinear_arith)
                    requires
                        image.offset(x, y) == y * image.stride + x * 4,
                        image.stride == c.width * 4,
                        k == y * c.width + x,
                ;
                assert(image.quad(x, y) =~= c.at(x, y).colour.bytes());
            }
        }
        image
    }
}

/// A fragment that is off the canvas, or whose depth is a NaN, changes
/// nothing.
pub proof fn law_lost_fragment(c: Canvas, f: Fragment)
    requires
        !c.drawable(f.x, f.y) || f.z.nan(),
    ensures
        c.put(f) == c,
{
}

/// Of two fragments the nearer one wins in whichever order they come; so it
/// does not matter which is drawn first, unless they are equally far away at
/// the same pixel.
pub proof fn law_order_does_not_matter(c: Canvas, f: Fragment, g: Fragment)
    requires
        c.wf(),
        (f.x, f.y) != (g.x, g.y) || f.z.below(g.z) || g.z.below(f.z),
    ensures
        c.put(f).put(g) == c.put(g).put(f),
{
    if c.drawable(f.x, f.y) && c.drawable(g.x, g.y) {
        lemma_slot(c, f.x, f.y);
        lemma_slot(c, g.x, g.y);
        if (f.x, f.y) != (g.x, g.y) {
            assert(c.slot(f.x, f.y) != c.slot(g.x, g.y));
        }
        assert(c.put(f).put(g).cells =~= c.put(g).put(f).cells);
    }
}

/// Painting changes only pixels that have a fragment.
pub proof fn law_untouched(c: Canvas, frags: Seq<Fragment>, x: int, y: int)
    requires
        c.wf(),
        0 <= x < c.width,
        0 <= y < c.height,
        forall|i: int| 0 <= i < frags.len() ==> ((#[trigger] frags[i]).x, frags[i].y) != (x, y),
    ensures
        c.painted(frags).at(x, y) == c.at(x, y),
    decreases frags.len(),
{
    if frags.len() > 0 {
        let rest = frags.drop_last();
        let f = frags.last();
        assert forall|i: int| 0 <= i < rest.len() implies ((#[trigger] rest[i]).x, rest[i].y) != (
            x,
            y,
        ) by {
            assert(rest[i] == frags[i]);
        }
        law_untouched(c, rest, x, y);
        lemma_painted_wf(c, rest);
        let d = c.painted(rest);
        assert(f == frags[frags.len() - 1]);
        if d.takes(f) {
            lemma_slot(d, f.x, f.y);
            lemma_slot(d, x, y);
            assert(d.slot(f.x, f.y) != d.slot(x, y));
        }
    }
}

/// What a pixel shows after painting: either what it showed before, or the
/// colour and depth of one of its fragments.
pub open spec fn shows_one_of(
    before: Cell,
    after: Cell,
    frags: Seq<Fragment>,
    x: int,
    y: int,
) -> bool {
    ||| after == before
    ||| exists|i: int|
        0 <= i < frags.len() && wins(#[trigger] frags[i], frags.take(i), before, x, y) && after == (
        Cell { depth: frags[i].z, colour: frags[i].colour })
}

/// Whether a fragment is nearer than what was shown and than every earlier
/// fragment of its pixel.
pub open spec fn wins(f: Fragment, earlier: Seq<Fragment>, before: Cell, x: int, y: int) -> bool {
    &&& f.x == x
    &&& f.y == y
    &&& f.z.below(before.depth)
    &&& forall|j: int|
        0 <= j < earlier.len() && (#[trigger] earlier[j]).x == x && earlier[j].y == y
            && !earlier[j].z.nan() ==> f.z.below(earlier[j].z)
}

/// The nearest fragment shows: after painting, no fragment of a pixel is
/// nearer than what the pixel shows, and what it shows is either what it
/// showed before or the first of its nearest fragments.
pub proof fn law_nearest_shows(c: Canvas, frags: Seq<Fragment>, x: int, y: int)
    requires
        c.wf(),
        c.drawable(x, y),
    ensures
        forall|i: int|
            0 <= i < frags.len() && (#[trigger] frags[i]).x == x && frags[i].y == y
                ==> !frags[i].z.below(c.painted(frags).at(x, y).depth),
        shows_one_of(c.at(x, y), c.painted(frags).at(x, y), frags, x, y),
        c.painted(frags).at(x, y) == c.at(x, y) || c.painted(frags).at(x, y).depth.below(
            c.at(x, y).depth,
        ),
    decreases frags.len(),
{
    if frags.len() > 0 {
        let n = frags.len() - 1;
        let rest = frags.drop_last();
        let f = frags.last();
        law_nearest_shows(c, rest, x, y);
        lemma_painted_wf(c, rest);
        let d = c.painted(rest);
        let old_cell = d.at(x, y);
        let new_cell = c.painted(frags).at(x, y);
        lemma_slot(d, x, y);
        if d.takes(f) {
            lemma_slot(d, f.x, f.y);
            if (f.x, f.y) != (x, y) {
                assert(d.slot(f.x, f.y) != d.slot(x, y));
            }
        }
        assert forall|i: int|
            0 <= i < frags.len() && (#[trigger] frags[i]).x == x && frags[i].y
                == y implies !frags[i].z.below(new_cell.depth) by {
            if i < n {
                assert(rest[i] == frags[i]);
            }
        }
        if d.takes(f) && (f.x, f.y) == (x, y) {
            assert(frags.take(n) =~= rest);
            assert(wins(frags[n], frags.take(n), c.at(x, y), x, y)) by {
                assert forall|j: int|
                    0 <= j < rest.len() && (#[trigger] rest[j]).x == x && rest[j].y == y
                        && !rest[j].z.nan() implies f.z.below(rest[j].z) by {
                    assert(!rest[j].z.below(old_cell.depth));
                }
            }
        } else if old_cell != c.at(x, y) {
            let i = choose|i: int|
                0 <= i < rest.len() && wins(
                    #[trigger] rest[i],
                    rest.take(i),
                    c.at(x, y),
                    x,
                    y,
                ) && old_cell == (Cell { depth: rest[i].z, colour: rest[i].colour });
            assert(frags[i] == rest[i]);
            assert(frags.take(i) =~= rest.take(i));
        }
    }
}

/// Painting invents no colours: what a pixel shows is what it showed before,
/// or the colour of a fragment.
pub proof fn law_painting_invents_no_colours(c: Canvas, frags: Seq<Fragment>, x: int, y: int)
    requires
        c.wf(),
        0 <= x < c.width,
        0 <= y < c.height,
    ensures
        c.painted(frags).at(x, y).colour == c.at(x, y).colour || exists|i: int|
            0 <= i < frags.len() && c.painted(frags).at(x, y).colour == (
            #[trigger] frags[i]).colour,
    decreases frags.len(),
{
    if frags.len() > 0 {
        let rest = frags.drop_last();
        let f = frags.last();
        law_painting_invents_no_colours(c, rest, x, y);
        lemma_painted_wf(c, rest);
        let d = c.painted(rest);
        lemma_slot(d, x, y);
        assert(f == frags[frags.len() - 1]);
        if d.takes(f) {
            lemma_slot(d, f.x, f.y);
        }
        if d.at(x, y).colour != c.at(x, y).colour {
            let i = choose|i: int|
                0 <= i < rest.len() && d.at(x, y).colour == (#[trigger] rest[i]).colour;
            assert(frags[i] == rest[i]);
        }
    }
}

} // verus!
