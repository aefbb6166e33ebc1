//! Output image surface produced by a renderer, and the box filter that
//! brings a supersampled frame down to the requested size.

use vstd::prelude::*;

verus! {

/// Packed RGBA8 raster image. The buffer is the contract with downstream
/// encoders: every backend, whatever its internal precision, commits to
/// this shape on output.
///
/// `stride` is bytes per row; for the default RGBA8 layout it equals
/// `width * 4`. A padded layout has a larger one, which is why the field is
/// carried explicitly rather than computed.
#[derive(Debug, Clone, PartialEq, Eq)]
pub struct RgbaImage {
    /// Image width in pixels.
    pub width: u32,
    /// Image height in pixels.
    pub height: u32,
    /// Pixel bytes, row after row.
    pub pixels: Vec<u8>,
    /// Bytes per row.
    pub stride: usize,
}

/// The smaller of two integers.
pub open spec fn min_int(a: int, b: int) -> int {
    if a <= b {
        a
    } else {
        b
    }
}

/// Sum of `n` bytes of `bytes`, four apart, starting at `base`.
pub open spec fn run_sum(bytes: Seq<u8>, base: int, n: nat) -> int
    decreases n,
{
    if n == 0 {
        0
    } else {
        run_sum(bytes, base, (n - 1) as nat) + bytes[base + 4 * (n - 1)]
    }
}

/// Sum of one channel over a block of `rows` by `cols` pixels whose first
/// byte of that channel lies at `base`.
pub open spec fn block_sum(bytes: Seq<u8>, base: int, stride: int, rows: nat, cols: nat) -> int
    decreases rows,
{
    if rows == 0 {
        0
    } else {
        block_sum(bytes, base, stride, (rows - 1) as nat, cols) + run_sum(
            bytes,
            base + (rows - 1) * stride,
            cols,
        )
    }
}

impl RgbaImage {
    /// Offset of the first byte of pixel `(x, y)`.
    pub open spec fn offset(&self, x: int, y: int) -> int {
        y * self.stride + x * 4
    }

    /// Whether `(x, y)` is a coordinate of the image.
    pub open spec fn in_bounds(&self, x: int, y: int) -> bool {
        0 <= x < self.width && 0 <= y < self.height
    }

    /// The four bytes of pixel `(x, y)`.
    pub open spec fn quad(&self, x: int, y: int) -> Seq<u8> {
        self.pixels@.subrange(self.offset(x, y), self.offset(x, y) + 4)
    }

    /// The buffer with the bytes of pixel `(x, y)` replaced by `quad`.
    pub open spec fn overwritten(&self, x: int, y: int, quad: Seq<u8>) -> Seq<u8> {
        let base = self.offset(x, y);
        self.pixels@.subrange(0, base) + quad + self.pixels@.subrange(
            base + 4,
            self.pixels@.len() as int,
        )
    }

    /// The buffer holds every pixel that the dimensions promise, and no two
    /// rows overlap.
    pub open spec fn complete(&self) -> bool {
        &&& self.width * 4 <= self.stride
        &&& self.height * self.stride <= self.pixels@.len()
    }

    /// A complete image without row padding or trailing bytes.
    pub open spec fn packed(&self) -> bool {
        &&& self.stride == self.width * 4
        &&& self.pixels@.len() == self.height * self.stride
    }

    /// Number of leading bytes that belong to some row.
    pub open spec fn usable(&self) -> int {
        min_int(self.height * self.stride, self.pixels@.len() as int)
    }

    /// Number of rows that [`RgbaImage::rows`] yields: none for an image
    /// with a zero width, height or stride, and otherwise as many as start
    /// inside the buffer.
    pub open spec fn row_count(&self) -> int {
        if self.width == 0 || self.height == 0 || self.stride == 0 {
            0
        } else {
            (self.usable() + self.stride - 1) / (self.stride as int)
        }
    }

    /// Bytes of row `y`: `stride` of them, fewer where the buffer ends.
    pub open spec fn row(&self, y: int) -> Seq<u8> {
        self.pixels@.subrange(
            y * self.stride,
            min_int((y + 1) * self.stride, self.usable()),
        )
    }

    /// Whole pixels of row `y`, at most `width` of them.
    pub open spec fn row_quads(&self, y: int) -> Seq<Seq<u8>> {
        Seq::new(
            min_int(self.row(y).len() as int / 4, self.width as int) as nat,
            |x: int| self.row(y).subrange(4 * x, 4 * x + 4),
        )
    }

    /// Pixels of the first `n` rows, row after row.
    pub open spec fn quads(&self, n: nat) -> Seq<Seq<u8>>
        decreases n,
    {
        if n == 0 {
            Seq::empty()
        } else {
            self.quads((n - 1) as nat) + self.row_quads(n - 1)
        }
    }

    /// Mean of channel `c` over the `aa` by `aa` block of pixels that
    /// shrinks to pixel `(x, y)`, rounded down.
    pub open spec fn block_mean(&self, x: int, y: int, aa: int, c: int) -> int {
        block_sum(
            self.pixels@,
            self.offset(x * aa, y * aa) + c,
            self.stride as int,
            aa as nat,
            aa as nat,
        ) / (aa * aa)
    }

    /// Allocate a `width` by `height` RGBA8 image filled with the given
    /// `[R, G, B, A]` colour.
    #[must_use]
    pub fn filled(width: u32, height: u32, rgba: [u8; 4]) -> (image: Self)
        requires
            width * 4 <= usize::MAX,
            width * height * 4 <= isize::MAX,
        ensures
            image.width == width,
            image.height == height,
            image.packed(),
            forall|x: int, y: int| #[trigger]
                image.in_bounds(x, y) ==> image.quad(x, y) == rgba@,
    {
        let stride: usize = (width as usize) * 4;
        proof {
            lemma_area(width as int, height as int);
        }
        let count: usize = (width as usize) * (height as usize);
        let mut pixels: Vec<u8> = Vec::with_capacity(count * 4);
        let mut i: usize = 0;
        while i < count
            invariant
                i <= count,
                pixels@.len() == i * 4,
                forall|k: int|
                    0 <= k < i ==> #[trigger] pixels@.subrange(4 * k, 4 * k + 4) == rgba@,
            decreases count - i,
        {
            let ghost before = pixels@;
            pixels.push(rgba[0]);
            pixels.push(rgba[1]);
            pixels.push(rgba[2]);
            pixels.push(rgba[3]);
            proof {
                assert forall|k: int| 0 <= k < i + 1 implies #[trigger] pixels@.subrange(
                    4 * k,
                    4 * k + 4,
                ) == rgba@ by {
                    if k < i {
                        assert(pixels@.subrange(4 * k, 4 * k + 4) == before.subrange(
                            4 * k,
                            4 * k + 4,
                        ));
                    } else {
                        assert(pixels@.subrange(4 * k, 4 * k + 4) == rgba@);
                    }
                }
            }
            i += 1;
        }
        let image = Self { width, height, pixels, stride };
        proof {
            assert(image.pixels@.len() == image.height * image.stride) by (nonlinear_arith)
                requires
                    image.pixels@.len() == (width * height) * 4,
                    image.stride == width * 4,
                    image.height == height,
            ;
            assert forall|x: int, y: int| #[trigger] image.in_bounds(x, y) implies image.quad(x, y)
                == rgba@ by {
                let k = y * width + x;
                assert(0 <= k < width * height && image.offset(x, y) == 4 * k) by (nonlinear_arith)
                    requires
                        k == y * width + x,
                        image.offset(x, y) == y * image.stride + x * 4,
                        image.stride == width * 4,
                        0 <= x < width,
                        0 <= y < height,
                ;
                assert(pixels@.subrange(4 * k, 4 * k + 4) == rgba@);
            }
        }
        image
    }

    /// Return the four-byte pixel at `(x, y)`. `None` when out of bounds.
    #[must_use]
    pub fn pixel(&self, x: u32, y: u32) -> (px: Option<[u8; 4]>)
        requires
            self.in_bounds(x as int, y as int) ==> self.offset(x as int, y as int) + 4
                <= self.pixels@.len(),
        ensures
            px is Some <==> self.in_bounds(x as int, y as int),
            px matches Some(quad) ==> quad@ == self.quad(x as int, y as int),
    {
        if x >= self.width || y >= self.height {
            return None;
        }
        proof {
            lemma_offset(y as int, self.stride as int, x as int);
            assert(self.pixels@.len() == self.pixels.len());
        }
        let base: usize = (y as usize) * self.stride + (x as usize) * 4;
        let quad = [
            self.pixels[base],
            self.pixels[base + 1],
            self.pixels[base + 2],
            self.pixels[base + 3],
        ];
        assert(quad@ == self.quad(x as int, y as int));
        Some(quad)
    }

    /// Overwrite the pixel at `(x, y)` with `rgba`. Returns `true` on a
    /// successful write, `false` when the coordinate is outside the image
    /// (in which case the image is left untouched).
    pub fn set_pixel(&mut self, x: u32, y: u32, rgba: [u8; 4]) -> (written: bool)
        requires
            old(self).in_bounds(x as int, y as int) ==> old(self).offset(x as int, y as int) + 4
                <= old(self).pixels@.len(),
        ensures
            written == old(self).in_bounds(x as int, y as int),
            !written ==> *final(self) == *old(self),
            final(self).width == old(self).width,
            final(self).height == old(self).height,
            final(self).stride == old(self).stride,
            written ==> final(self).pixels@ == old(self).overwritten(x as int, y as int, rgba@),
    {
        if x >= self.width || y >= self.height {
            return false;
        }
        proof {
            lemma_offset(y as int, self.stride as int, x as int);
            assert(self.pixels@.len() == self.pixels.len());
        }
        let base: usize = (y as usize) * self.stride + (x as usize) * 4;
        self.pixels[base] = rgba[0];
        self.pixels[base + 1] = rgba[1];
        self.pixels[base + 2] = rgba[2];
        self.pixels[base + 3] = rgba[3];
        true
    }

    /// Total pixel count, widened so that it cannot overflow.
    #[must_use]
    pub fn pixel_count(&self) -> (n: u64)
        ensures
            n == self.width * self.height,
    {
        proof {
            lemma_area(self.width as int, self.height as int);
        }
        (self.width as u64) * (self.height as u64)
    }

    /// `true` when either dimension is zero: no pixels addressable.
    #[must_use]
    pub fn is_empty(&self) -> (empty: bool)
        ensures
            empty == (forall|x: int, y: int| !#[trigger] self.in_bounds(x, y)),
    {
        proof {
            if self.width != 0 && self.height != 0 {
                assert(self.in_bounds(0, 0));
            }
        }
        self.width == 0 || self.height == 0
    }

    /// The image as packed `[u8; 4]` pixels in row-major order.
    ///
    /// Walks the buffer stride-aware, so padded rows are handled, and skips
    /// any trailing bytes of a row that do not make up a whole pixel.
    pub fn pixels_rgba(&self) -> (list: Vec<[u8; 4]>)
        ensures
            list@.map_values(|p: [u8; 4]| p@) == self.quads(self.row_count() as nat),
    {
        let width: usize = self.width as usize;
        let rows = self.rows();
        let mut list: Vec<[u8; 4]> = Vec::new();
        let ghost view = |p: [u8; 4]| p@;
        let mut y: usize = 0;
        assert(list@.map_values(view) =~= self.quads(0));
        while y < rows.len()
            invariant
                y <= rows@.len(),
                rows@.len() == self.row_count(),
                width == self.width,
                forall|k: int| 0 <= k < rows@.len() ==> (#[trigger] rows@[k])@ == self.row(k),
                view == (|p: [u8; 4]| p@),
                list@.map_values(view) == self.quads(y as nat),
            decreases rows@.len() - y,
        {
            let row: &[u8] = rows[y];
            let len: usize = row.len();
            let whole: usize = len / 4;
            let n: usize = if whole < width {
                whole
            } else {
                width
            };
            assert(self.row_quads(y as int).len() == n);
            let mut x: usize = 0;
            while x < n
                invariant
                    x <= n <= len / 4,
                    len == row@.len(),
                    row@ == self.row(y as int),
                    self.row_quads(y as int).len() == n,
                    view == (|p: [u8; 4]| p@),
                    list@.map_values(view) == self.quads(y as nat) + self.row_quads(
                        y as int,
                    ).take(x as int),
                decreases n - x,
            {
                let p = [row[4 * x], row[4 * x + 1], row[4 * x + 2], row[4 * x + 3]];
                let ghost before = list@;
                list.push(p);
                proof {
                    let quads = self.row_quads(y as int);
                    assert(p@ =~= row@.subrange(4 * x as int, 4 * x + 4));
                    assert(quads[x as int] == p@);
                    assert(list@.map_values(view) =~= before.map_values(view).push(p@));
                    assert(quads.take(x + 1) =~= quads.take(x as int).push(p@));
                }
                x += 1;
            }
            proof {
                let quads = self.row_quads(y as int);
                assert(quads.take(n as int) =~= quads);
            }
            y += 1;
        }
        list
    }

    /// The image one row at a time, as slices of length `stride`. Useful
    /// for streaming the frame into an encoder that wants whole rows.
    ///
    /// A zero-width, zero-height or zero-stride image yields no rows. Where
    /// the buffer is shorter than the dimensions promise, the last row that
    /// it reaches is cut short and the rows after it are missing.
    pub fn rows(&self) -> (list: Vec<&[u8]>)
        ensures
            list@.len() == self.row_count(),
            forall|y: int| 0 <= y < list@.len() ==> (#[trigger] list@[y])@ == self.row(y),
    {
        let mut list: Vec<&[u8]> = Vec::new();
        let stride: usize = self.stride;
        if self.width == 0 || self.height == 0 || stride == 0 {
            return list;
        }
        let len: usize = self.pixels.len();
        let usable: usize = match stride.checked_mul(self.height as usize) {
            Some(total) => if total < len {
                total
            } else {
                len
            },
            None => len,
        };
        proof {
            vstd::arithmetic::mul::lemma_mul_is_commutative(stride as int, self.height as int);
            assert(usable == self.usable());
            assert(0 * stride == 0) by (nonlinear_arith);
        }
        let mut start: usize = 0;
        while start < usable
            invariant
                stride == self.stride,
                stride > 0,
                usable == self.usable(),
                usable <= self.pixels@.len(),
                start == min_int(list@.len() * stride, usable as int),
                list@.len() * stride < usable + stride,
                forall|y: int| 0 <= y < list@.len() ==> (#[trigger] list@[y])@ == self.row(y),
            decreases usable - start,
        {
            let end: usize = if usable - start > stride {
                start + stride
            } else {
                usable
            };
            let ghost y = list@.len() as int;
            list.push(vstd::slice::slice_subrange(self.pixels.as_slice(), start, end));
            proof {
                assert((y + 1) * stride == y * stride + stride) by (nonlinear_arith);
                assert(list@[y]@ =~= self.row(y));
            }
            start = end;
        }
        proof {
            let n = list@.len() as int;
            let s = stride as int;
            assert(n == (usable + s - 1) / s) by {
                assert(n * s <= usable + s - 1 < n * s + s);
                vstd::arithmetic::div_mod::lemma_fundamental_div_mod_converse(
                    usable + s - 1,
                    s,
                    n,
                    usable + s - 1 - n * s,
                );
            }
        }
        list
    }
}

/// In a complete image every pixel has its own four bytes inside the buffer.
proof fn lemma_own_bytes(image: RgbaImage, x: int, y: int, u: int, v: int)
    requires
        image.complete(),
        image.in_bounds(x, y),
        image.in_bounds(u, v),
    ensures
        0 <= image.offset(x, y),
        image.offset(x, y) + 4 <= image.pixels@.len(),
        v < y || (v == y && u < x) ==> image.offset(u, v) + 4 <= image.offset(x, y),
{
    let s = image.stride as int;
    assert(0 <= y * s && y * s + s <= image.height * s) by (nonlinear_arith)
        requires
            0 <= y < image.height,
            s >= 0,
    ;
    if v < y {
        assert(v * s + s <= y * s) by (nonlinear_arith)
            requires
                v < y,
                s >= 0,
        ;
    }
}

/// Reading back what was written: after `quad` was written to pixel `(x, y)`
/// of a complete image, that pixel is `quad` and every other pixel is as
/// before.
pub proof fn law_write_then_read(
    before: RgbaImage,
    after: RgbaImage,
    x: int,
    y: int,
    quad: Seq<u8>,
    u: int,
    v: int,
)
    requires
        before.complete(),
        before.in_bounds(x, y),
        before.in_bounds(u, v),
        quad.len() == 4,
        after.width == before.width,
        after.height == before.height,
        after.stride == before.stride,
        after.pixels@ == before.overwritten(x, y, quad),
    ensures
        after.complete(),
        after.quad(x, y) == quad,
        (u, v) != (x, y) ==> after.quad(u, v) == before.quad(u, v),
{
    lemma_own_bytes(before, x, y, u, v);
    lemma_own_bytes(before, u, v, x, y);
    assert(after.quad(x, y) =~= quad);
    if (u, v) != (x, y) {
        assert(after.quad(u, v) =~= before.quad(u, v));
    }
}

/// A complete image with pixels yields one row per line, each as long as the
/// stride; an image without pixels yields none.
pub proof fn law_rows(image: RgbaImage)
    requires
        image.complete(),
    ensures
        image.width == 0 || image.height == 0 ==> image.row_count() == 0,
        image.width > 0 ==> image.row_count() == image.height,
        image.width > 0 ==> forall|y: int|
            0 <= y < image.height ==> (#[trigger] image.row(y)).len() == image.stride,
{
    let s = image.stride as int;
    if image.width > 0 {
        if image.height > 0 {
            let h = image.height as int;
            assert(h * s + s - 1 == h * s + (s - 1));
            vstd::arithmetic::div_mod::lemma_fundamental_div_mod_converse(
                h * s + s - 1,
                s,
                h,
                s - 1,
            );
        }
        assert forall|y: int| 0 <= y < image.height implies (#[trigger] image.row(y)).len()
            == image.stride by {
            assert((y + 1) * s == y * s + s && 0 <= y * s && (y + 1) * s <= image.height * s)
                by (nonlinear_arith)
                requires
                    0 <= y < image.height,
                    s >= 0,
            ;
        }
    }
}

/// Pixels of the first `n` rows of a complete image, counted and placed.
proof fn lemma_quads(image: RgbaImage, n: nat)
    requires
        image.complete(),
        image.width > 0,
        n <= image.height,
    ensures
        image.quads(n).len() == n * image.width,
        forall|x: int, y: int|
            0 <= x < image.width && 0 <= y < n ==> #[trigger] image.quads(n)[y * image.width + x]
                == image.quad(x, y),
    decreases n,
{
    let w = image.width as int;
    if n > 0 {
        let m = (n - 1) as nat;
        lemma_quads(image, m);
        law_rows(image);
        let s = image.stride as int;
        let row = image.row(m as int);
        assert(image.row_quads(m as int).len() == w);
        assert(m * w + w == n * w) by (nonlinear_arith)
            requires
                n == m + 1,
        ;
        assert forall|x: int, y: int| 0 <= x < w && 0 <= y < n implies #[trigger] image.quads(
            n,
        )[y * w + x] == image.quad(x, y) by {
            if y < m {
                assert(0 <= y * w + x < m * w) by (nonlinear_arith)
                    requires
                        0 <= x < w,
                        0 <= y < m,
                ;
                assert(image.quads(m)[y * w + x] == image.quad(x, y));
            } else {
                assert(image.quads(n)[y * w + x] == image.row_quads(m as int)[x]);
                assert(0 <= m * s && (m + 1) * s == m * s + s && (m + 1) * s <= image.height * s)
                    by (nonlinear_arith)
                    requires
                        s >= 0,
                        0 <= m,
                        m + 1 <= image.height,
                ;
                assert(row.subrange(4 * x, 4 * x + 4) =~= image.quad(x, y));
                assert(image.row_quads(m as int)[x] =~= image.quad(x, y));
            }
        }
    } else {
        assert(0 * w == 0) by (nonlinear_arith);
    }
}

/// The pixel list of a complete image holds every pixel once, row after row:
/// as many as the image has, pixel `(x, y)` at place `y * width + x`.
pub proof fn law_row_major(image: RgbaImage)
    requires
        image.complete(),
    ensures
        image.quads(image.row_count() as nat).len() == image.width * image.height,
        forall|x: int, y: int| #[trigger]
            image.in_bounds(x, y) ==> image.quads(image.row_count() as nat)[y * image.width + x]
                == image.quad(x, y),
{
    law_rows(image);
    if image.width > 0 {
        lemma_quads(image, image.height as nat);
        assert(image.height * image.width == image.width * image.height) by (nonlinear_arith);
    } else {
        assert(image.width * image.height == 0) by (nonlinear_arith)
            requires
                image.width == 0,
        ;
    }
}

/// A sum of bytes within bounds is within as many times the bounds.
proof fn lemma_run_bounds(bytes: Seq<u8>, base: int, n: nat, lo: int, hi: int)
    requires
        forall|i: int| 0 <= i < n ==> lo <= #[trigger] bytes[base + 4 * i] <= hi,
    ensures
        n * lo <= run_sum(bytes, base, n) <= n * hi,
    decreases n,
{
    if n > 0 {
        lemma_run_bounds(bytes, base, (n - 1) as nat, lo, hi);
        assert(bytes[base + 4 * (n - 1)] <= hi);
        assert((n - 1) * lo + lo == n * lo && (n - 1) * hi + hi == n * hi) by (nonlinear_arith);
    } else {
        assert(0 * lo == 0 && 0 * hi == 0) by (nonlinear_arith);
    }
}

/// A sum over a block of bytes within bounds is within as many times the
/// bounds.
proof fn lemma_block_bounds(
    bytes: Seq<u8>,
    base: int,
    stride: int,
    rows: nat,
    cols: nat,
    lo: int,
    hi: int,
)
    requires
        forall|i: int, j: int|
            0 <= i < cols && 0 <= j < rows ==> lo <= #[trigger] bytes[base + j * stride + 4 * i]
                <= hi,
    ensures
        rows * cols * lo <= block_sum(bytes, base, stride, rows, cols) <= rows * cols * hi,
    decreases rows,
{
    if rows > 0 {
        let m = (rows - 1) as nat;
        lemma_block_bounds(bytes, base, stride, m, cols, lo, hi);
        assert forall|i: int| 0 <= i < cols implies lo <= #[trigger] bytes[base + m * stride + 4
            * i] <= hi by {}
        lemma_run_bounds(bytes, base + m * stride, cols, lo, hi);
        assert(m * cols * lo + cols * lo == rows * cols * lo && m * cols * hi + cols * hi == rows
            * cols * hi) by (nonlinear_arith)
            requires
                rows == m + 1,
        ;
    } else {
        assert(0 * cols * lo == 0 && 0 * cols * hi == 0) by (nonlinear_arith);
    }
}

/// Box filtering stays within the range of what it averages: where a channel
/// of every source pixel of a block lies between `lo` and `hi`, so does the
/// mean. A uniform block keeps its value.
pub proof fn law_mean_in_range(src: RgbaImage, x: int, y: int, aa: int, c: int, lo: int, hi: int)
    requires
        aa >= 1,
        forall|i: int, j: int|
            0 <= i < aa && 0 <= j < aa ==> lo <= #[trigger] src.pixels@[src.offset(
                x * aa,
                y * aa,
            ) + c + j * src.stride + 4 * i] <= hi,
    ensures
        lo <= src.block_mean(x, y, aa, c) <= hi,
{
    let base = src.offset(x * aa, y * aa) + c;
    lemma_block_bounds(src.pixels@, base, src.stride as int, aa as nat, aa as nat, lo, hi);
    lemma_mean_range(
        block_sum(src.pixels@, base, src.stride as int, aa as nat, aa as nat),
        aa,
        lo,
        hi,
    );
}

/// Dividing by the number of samples keeps bounds.
pub proof fn lemma_mean_range(sum: int, aa: int, lo: int, hi: int)
    requires
        aa >= 1,
        aa * aa * lo <= sum <= aa * aa * hi,
    ensures
        lo <= sum / (aa * aa) <= hi,
{
    let d = aa * aa;
    assert(d >= 1) by (nonlinear_arith)
        requires
            d == aa * aa,
            aa >= 1,
    ;
    assert(lo <= sum / d <= hi) by (nonlinear_arith)
        requires
            d >= 1,
            d * lo <= sum <= d * hi,
    ;
}

/// The product of two 32-bit dimensions fits in 64 bits.
proof fn lemma_area(w: int, h: int)
    requires
        0 <= w <= u32::MAX,
        0 <= h <= u32::MAX,
    ensures
        0 <= w * h <= u64::MAX,
{
    assert(0 <= w * h <= 0xffff_ffff * 0xffff_ffff) by (nonlinear_arith)
        requires
            0 <= w <= 0xffff_ffff,
            0 <= h <= 0xffff_ffff,
    ;
}

/// Both terms of a byte offset are non-negative.
proof fn lemma_offset(y: int, stride: int, x: int)
    requires
        y >= 0,
        stride >= 0,
        x >= 0,
    ensures
        y * stride >= 0,
        x * 4 >= 0,
{
    assert(y * stride >= 0) by (nonlinear_arith)
        requires
            y >= 0,
            stride >= 0,
    ;
}

/// Whether `image` is a `dst_w` by `dst_h` image whose pixels are the means of
/// `aa` by `aa` blocks of `src`. An `aa` of zero counts as one.
pub open spec fn box_filtered(
    src: RgbaImage,
    dst_w: u32,
    dst_h: u32,
    aa: u32,
    image: RgbaImage,
) -> bool {
    let n = if aa == 0 {
        1
    } else {
        aa as int
    };
    &&& image.width == dst_w
    &&& image.height == dst_h
    &&& image.packed()
    &&& forall|x: int, y: int, c: int| #[trigger]
        image.in_bounds(x, y) && 0 <= c < 4 ==> #[trigger] image.quad(x, y)[c] == src.block_mean(
            x,
            y,
            n,
            c,
        )
}

/// Box-filter `src` (which is `aa` times `dst_w` by `aa` times `dst_h`) down
/// to `dst_w` by `dst_h`. Each output pixel averages `aa * aa` source pixels
/// in straight byte space, with no gamma round-trip. An `aa` of zero counts
/// as one.
pub fn downsample_box(src: &RgbaImage, dst_w: u32, dst_h: u32, aa: u32) -> (image: RgbaImage)
    requires
        aa <= 0xffff,
        dst_w * 4 <= usize::MAX,
        dst_w * dst_h * 4 <= isize::MAX,
        ({
            let n = if aa == 0 {
                1
            } else {
                aa as int
            };
            dst_w > 0 && dst_h > 0 ==> dst_h * n <= usize::MAX && src.offset(
                dst_w * n,
                dst_h * n - 1,
            ) <= src.pixels@.len()
        }),
    ensures
        box_filtered(*src, dst_w, dst_h, aa, image),
{
    let aa: usize = if aa < 1 {
        1
    } else {
        aa as usize
    };
    let w: usize = dst_w as usize;
    let h: usize = dst_h as usize;
    proof {
        lemma_area(dst_w as int, dst_h as int);
    }
    let mut pixels: Vec<u8> = Vec::with_capacity(w * h * 4);
    let ghost n = aa as int;
    let mut y: usize = 0;
    while y < h
        invariant
            y <= h,
            n == aa,
            1 <= n <= 0xffff,
            w <= u32::MAX,
            h <= u32::MAX,
            w > 0 && h > 0 ==> h * n <= usize::MAX && src.offset(w * n, h * n - 1)
                <= src.pixels@.len(),
            pixels@.len() == y * w * 4,
            forall|i: int, j: int, c: int|
                0 <= i < w && 0 <= j < y && 0 <= c < 4 ==> #[trigger] pixels@[(j * w + i) * 4 + c]
                    == src.block_mean(i, j, n, c),
        decreases h - y,
    {
        let mut x: usize = 0;
        while x < w
            invariant
                x <= w,
                y < h,
                n == aa,
                1 <= n <= 0xffff,
                w <= u32::MAX,
                h <= u32::MAX,
                w > 0 && h > 0 ==> h * n <= usize::MAX && src.offset(w * n, h * n - 1)
                    <= src.pixels@.len(),
                pixels@.len() == (y * w + x) * 4,
                forall|i: int, j: int, c: int|
                    0 <= i < w && 0 <= c < 4 && (0 <= j < y || j == y && i < x)
                        ==> #[trigger] pixels@[(j * w + i) * 4 + c] == src.block_mean(i, j, n, c),
            decreases w - x,
        {
            proof {
                lemma_block_inside(src, w as int, h as int, x as int, y as int, n);
            }
            let mean = block_average(src, x, y, aa);
            let ghost before = pixels@;
            pixels.push(mean[0]);
            pixels.push(mean[1]);
            pixels.push(mean[2]);
            pixels.push(mean[3]);
            proof {
                assert forall|i: int, j: int, c: int|
                    0 <= i < w && 0 <= c < 4 && (0 <= j < y || j == y && i < x
                        + 1) implies #[trigger] pixels@[(j * w + i) * 4 + c] == src.block_mean(
                    i,
                    j,
                    n,
                    c,
                ) by {
                    if j == y && i == x {
                        assert(pixels@[(j * w + i) * 4 + c] == mean@[c]);
                    } else {
                        assert(0 <= j * w + i < y * w + x) by (nonlinear_arith)
                            requires
                                0 <= i < w,
                                0 <= j,
                                j < y || (j == y && i < x),
                                0 <= x,
                        ;
                        assert(pixels@[(j * w + i) * 4 + c] == before[(j * w + i) * 4 + c]);
                    }
                }
            }
            x += 1;
        }
        assert(y * w + w == (y + 1) * w) by (nonlinear_arith);
        y += 1;
    }
    let image = RgbaImage { width: dst_w, height: dst_h, stride: w * 4, pixels };
    proof {
        assert(image.pixels@.len() == image.height * image.stride) by (nonlinear_arith)
            requires
                image.pixels@.len() == h * w * 4,
                image.stride == w * 4,
                image.height == h,
        ;
        assert forall|x: int, y: int, c: int| #[trigger]
            image.in_bounds(x, y) && 0 <= c < 4 implies #[trigger] image.quad(x, y)[c]
            == src.block_mean(x, y, n, c) by {
            assert(image.offset(x, y) == (y * w + x) * 4 && 0 <= (y * w + x) * 4 + 4 <= h * w * 4)
                by (nonlinear_arith)
                requires
                    image.offset(x, y) == y * image.stride + x * 4,
                    image.stride == w * 4,
                    0 <= x < w,
                    0 <= y < h,
            ;
            assert(image.quad(x, y)[c] == pixels@[(y * w + x) * 4 + c]);
        }
    }
    image
}

/// The four channel means of the block that shrinks to pixel `(x, y)`.
fn block_average(src: &RgbaImage, x: usize, y: usize, aa: usize) -> (mean: [u8; 4])
    requires
        1 <= aa <= 0xffff,
        x <= u32::MAX,
        y <= u32::MAX,
        (y + 1) * aa <= usize::MAX,
        src.offset((x + 1) * aa, (y + 1) * aa - 1) <= src.pixels@.len(),
    ensures
        forall|c: int| 0 <= c < 4 ==> #[trigger] mean@[c] == src.block_mean(
            x as int,
            y as int,
            aa as int,
            c,
        ),
{
    let stride: usize = src.stride;
    let ghost base = src.offset(x * aa, y * aa);
    let ghost bytes = src.pixels@;
    let ghost s = stride as int;
    let ghost n = aa as nat;
    let mut acc0: u64 = 0;
    let mut acc1: u64 = 0;
    let mut acc2: u64 = 0;
    let mut acc3: u64 = 0;
    let mut j: usize = 0;
    while j < aa
        invariant
            j <= aa,
            1 <= aa <= 0xffff,
            x <= u32::MAX,
            y <= u32::MAX,
            stride == src.stride,
            s == stride,
            n == aa,
            bytes == src.pixels@,
            base == src.offset(x * aa, y * aa),
            (y + 1) * aa <= usize::MAX,
            src.offset((x + 1) * aa, (y + 1) * aa - 1) <= src.pixels@.len(),
            acc0 == block_sum(bytes, base, s, j as nat, n),
            acc1 == block_sum(bytes, base + 1, s, j as nat, n),
            acc2 == block_sum(bytes, base + 2, s, j as nat, n),
            acc3 == block_sum(bytes, base + 3, s, j as nat, n),
            acc0 <= 255 * j * aa,
            acc1 <= 255 * j * aa,
            acc2 <= 255 * j * aa,
            acc3 <= 255 * j * aa,
        decreases aa - j,
    {
        proof {
            lemma_block_row(src, x as int, y as int, aa as int, j as int);
            lemma_small_product(j as int, aa as int);
        }
        assert(src.pixels@.len() == src.pixels.len());
        let row_base: usize = (y * aa + j) * stride + x * aa * 4;
        let ghost start = base + j * s;
        let mut i: usize = 0;
        while i < aa
            invariant
                i <= aa,
                j < aa <= 0xffff,
                n == aa,
                bytes == src.pixels@,
                row_base == start,
                start == base + j * s,
                start + 4 * n <= bytes.len(),
                255 * j * aa <= 255 * 0xffff * 0xffff,
                acc0 == block_sum(bytes, base, s, j as nat, n) + run_sum(bytes, start, i as nat),
                acc1 == block_sum(bytes, base + 1, s, j as nat, n) + run_sum(
                    bytes,
                    start + 1,
                    i as nat,
                ),
                acc2 == block_sum(bytes, base + 2, s, j as nat, n) + run_sum(
                    bytes,
                    start + 2,
                    i as nat,
                ),
                acc3 == block_sum(bytes, base + 3, s, j as nat, n) + run_sum(
                    bytes,
                    start + 3,
                    i as nat,
                ),
                acc0 <= 255 * j * aa + 255 * i,
                acc1 <= 255 * j * aa + 255 * i,
                acc2 <= 255 * j * aa + 255 * i,
                acc3 <= 255 * j * aa + 255 * i,
            decreases aa - i,
        {
            assert(src.pixels@.len() == src.pixels.len());
            let p: usize = row_base + i * 4;
            acc0 = acc0 + src.pixels[p] as u64;
            acc1 = acc1 + src.pixels[p + 1] as u64;
            acc2 = acc2 + src.pixels[p + 2] as u64;
            acc3 = acc3 + src.pixels[p + 3] as u64;
            i += 1;
        }
        assert(255 * j * aa + 255 * aa == 255 * (j + 1) * aa) by (nonlinear_arith);
        j += 1;
    }
    proof {
        lemma_small_product(aa as int, aa as int);
        lemma_mean_bound(acc0 as int, aa as int);
        lemma_mean_bound(acc1 as int, aa as int);
        lemma_mean_bound(acc2 as int, aa as int);
        lemma_mean_bound(acc3 as int, aa as int);
    }
    let div: u64 = (aa * aa) as u64;
    [(acc0 / div) as u8, (acc1 / div) as u8, (acc2 / div) as u8, (acc3 / div) as u8]
}

/// The block of an output pixel ends no later than the last block does.
proof fn lemma_block_inside(src: &RgbaImage, w: int, h: int, x: int, y: int, n: int)
    requires
        n >= 1,
        0 <= x < w,
        0 <= y < h,
    ensures
        (y + 1) * n <= h * n,
        src.offset((x + 1) * n, (y + 1) * n - 1) <= src.offset(w * n, h * n - 1),
{
    let s = src.stride as int;
    assert((y + 1) * n <= h * n && (x + 1) * n <= w * n) by (nonlinear_arith)
        requires
            n >= 1,
            x < w,
            y < h,
    ;
    let a = (y + 1) * n - 1;
    let b = h * n - 1;
    assert(a * s <= b * s) by (nonlinear_arith)
        requires
            a <= b,
            s >= 0,
    ;
}

/// Where row `j` of a block starts, and that its bytes are in the buffer.
proof fn lemma_block_row(src: &RgbaImage, x: int, y: int, aa: int, j: int)
    requires
        aa >= 1,
        0 <= x,
        0 <= y,
        0 <= j < aa,
        (y + 1) * aa <= usize::MAX,
        src.offset((x + 1) * aa, (y + 1) * aa - 1) <= src.pixels@.len(),
    ensures
        0 <= y * aa <= y * aa + j <= usize::MAX,
        0 <= x * aa <= x * aa * 4 <= usize::MAX,
        0 <= (y * aa + j) * src.stride <= usize::MAX,
        (y * aa + j) * src.stride + x * aa * 4 == src.offset(x * aa, y * aa) + j * src.stride,
        src.offset(x * aa, y * aa) + j * src.stride + 4 * aa <= src.pixels@.len(),
{
    let s = src.stride as int;
    assert(src.pixels@.len() == src.pixels.len());
    let p = y * aa;
    let q = x * aa;
    assert(p >= 0 && q >= 0 && (y + 1) * aa == p + aa && (x + 1) * aa == q + aa)
        by (nonlinear_arith)
        requires
            p == y * aa,
            q == x * aa,
            x >= 0,
            y >= 0,
            aa >= 1,
    ;
    assert(0 <= (p + j) * s <= (p + aa - 1) * s && (p + j) * s == p * s + j * s)
        by (nonlinear_arith)
        requires
            p >= 0,
            s >= 0,
            0 <= j < aa,
    ;
}

/// A product of two small factors, and the block total that it allows.
proof fn lemma_small_product(a: int, b: int)
    requires
        0 <= a <= 0xffff,
        0 <= b <= 0xffff,
    ensures
        0 <= a * b <= 0xffff * 0xffff,
        255 * a * b <= 255 * 0xffff * 0xffff,
{
    assert(0 <= a * b <= 0xffff * 0xffff) by (nonlinear_arith)
        requires
            0 <= a <= 0xffff,
            0 <= b <= 0xffff,
    ;
    assert(255 * a * b == 255 * (a * b)) by (nonlinear_arith);
}

/// The mean of bytes is a byte.
proof fn lemma_mean_bound(sum: int, aa: int)
    requires
        aa >= 1,
        0 <= sum <= 255 * aa * aa,
    ensures
        aa * aa >= 1,
        0 <= sum / (aa * aa) <= 255,
{
    assert(aa * aa >= 1 && 255 * aa * aa == 255 * (aa * aa)) by (nonlinear_arith)
        requires
            aa >= 1,
    ;
    let d = aa * aa;
    assert(0 <= sum / d <= 255) by (nonlinear_arith)
        requires
            d >= 1,
            0 <= sum <= 255 * d,
    ;
}

/// The sum over a block of one pixel is that pixel's byte.
proof fn lemma_block_of_one(bytes: Seq<u8>, base: int, stride: int)
    ensures
        block_sum(bytes, base, stride, 1, 1) / (1int * 1int) == bytes[base],
{
    assert((1nat - 1) * stride == 0) by (nonlinear_arith);
    reveal_with_fuel(block_sum, 2);
    reveal_with_fuel(run_sum, 2);
}

/// Packed images of one size that show the same pixels hold the same bytes.
pub proof fn lemma_same_pixels(a: RgbaImage, b: RgbaImage)
    requires
        a.packed(),
        b.packed(),
        a.width == b.width,
        a.height == b.height,
        forall|x: int, y: int, c: int| #[trigger]
            a.in_bounds(x, y) && 0 <= c < 4 ==> #[trigger] a.quad(x, y)[c] == b.quad(x, y)[c],
    ensures
        a.stride == b.stride,
        a.pixels@ == b.pixels@,
{
    let (w, h) = (a.width as int, a.height as int);
    assert forall|i: int| 0 <= i < a.pixels@.len() implies a.pixels@[i] == b.pixels@[i] by {
        let q = i / 4;
        let c = i % 4;
        assert(0 <= q < w * h) by (nonlinear_arith)
            requires
                0 <= i < h * (w * 4),
                q == i / 4,
        ;
        assert(w > 0) by (nonlinear_arith)
            requires
                0 <= q < w * h,
                w >= 0,
        ;
        let x = q % w;
        let y = q / w;
        vstd::arithmetic::div_mod::lemma_fundamental_div_mod(q, w);
        assert(0 <= y < h) by (nonlinear_arith)
            requires
                q == w * y + x,
                0 <= x < w,
                0 <= q < w * h,
        ;
        assert(a.offset(x, y) + c == i) by (nonlinear_arith)
            requires
                a.offset(x, y) == y * a.stride + x * 4,
                a.stride == w * 4,
                q == w * y + x,
                i == 4 * q + c,
        ;
        assert(a.offset(x, y) + 4 <= a.pixels@.len()) by (nonlinear_arith)
            requires
                a.offset(x, y) == y * a.stride + x * 4,
                a.stride == w * 4,
                a.pixels@.len() == h * a.stride,
                0 <= x < w,
                0 <= y < h,
        ;
        assert(a.in_bounds(x, y));
        assert(a.quad(x, y)[c] == a.pixels@[i]);
        assert(b.quad(x, y)[c] == b.pixels@[i]);
    }
    assert(a.pixels@ =~= b.pixels@);
}

/// Shrinking by a factor of at most one keeps a packed image as it is: what
/// [`downsample_box`] makes of it at its own size has the same dimensions and
/// the same bytes.
pub proof fn law_shrinking_by_one_is_identity(src: RgbaImage, image: RgbaImage, aa: u32)
    requires
        src.packed(),
        aa <= 1,
        box_filtered(src, src.width, src.height, aa, image),
    ensures
        image.width == src.width,
        image.height == src.height,
        image.stride == src.stride,
        image.pixels@ == src.pixels@,
{
    assert forall|x: int, y: int, c: int| #[trigger]
        image.in_bounds(x, y) && 0 <= c < 4 implies #[trigger] image.quad(x, y)[c] == src.quad(
        x,
        y,
    )[c] by {
        assert(0 <= src.offset(x, y) && src.offset(x, y) + 4 <= src.pixels@.len())
            by (nonlinear_arith)
            requires
                src.offset(x, y) == y * src.stride + x * 4,
                src.stride == src.width * 4,
                src.pixels@.len() == src.height * src.stride,
                0 <= x < src.width,
                0 <= y < src.height,
        ;
        assert(src.offset(x * 1, y * 1) == src.offset(x, y));
        lemma_block_of_one(src.pixels@, src.offset(x, y) + c, src.stride as int);
    }
    lemma_same_pixels(image, src);
}

} // verus!
