//! Frame size and supersampling, shared by both backends.

use crate::framebuffer::Rgba8;
use crate::image::{block_sum, downsample_box, lemma_mean_range, run_sum, RgbaImage};
use crate::options::RenderOptions;
use vstd::prelude::*;

verus! {

/// What a backend computes before supersampling: a colour for every sample.
pub type Samples = spec_fn(int, int) -> Rgba8;

impl RenderOptions {
    /// Width of the output: a width of zero counts as one.
    pub open spec fn frame_width(&self) -> int {
        if self.width < 1 {
            1
        } else {
            self.width as int
        }
    }

    /// Height of the output: a height of zero counts as one.
    pub open spec fn frame_height(&self) -> int {
        if self.height < 1 {
            1
        } else {
            self.height as int
        }
    }

    /// Samples per pixel along each axis: `aa` moved into `1..=8`.
    pub open spec fn frame_samples(&self) -> int {
        if self.aa < 1 {
            1
        } else if self.aa > 8 {
            8
        } else {
            self.aa as int
        }
    }

    /// Columns of samples.
    pub open spec fn sample_columns(&self) -> int {
        self.frame_width() * self.frame_samples()
    }

    /// Rows of samples.
    pub open spec fn sample_rows(&self) -> int {
        self.frame_height() * self.frame_samples()
    }

    /// The supersampled frame can be addressed and held in memory.
    pub open spec fn fits(&self) -> bool {
        &&& self.sample_columns() <= u32::MAX
        &&& self.sample_rows() <= u32::MAX
        &&& self.sample_columns() * 4 <= usize::MAX
        &&& self.sample_rows() <= usize::MAX
        &&& self.sample_columns() * self.sample_rows() * 4 <= isize::MAX
    }

    /// Checks that the supersampled frame can be addressed and held in
    /// memory.
    pub fn can_render(&self) -> (r: bool)
        ensures
            r == self.fits(),
    {
        let (w, h, aa) = self.frame_size();
        proof {
            lemma_sample_count(w as int, aa as int);
            lemma_sample_count(h as int, aa as int);
        }
        let cols: u64 = (w as u64) * (aa as u64);
        let rows: u64 = (h as u64) * (aa as u64);
        if cols > u32::MAX as u64 || rows > u32::MAX as u64 {
            return false;
        }
        proof {
            assert(cols * rows <= 0xffff_ffff * 0xffff_ffff) by (nonlinear_arith)
                requires
                    0 <= cols <= 0xffff_ffff,
                    0 <= rows <= 0xffff_ffff,
            ;
            assert(0 <= cols * rows) by (nonlinear_arith);
        }
        let area: u128 = (cols as u128) * (rows as u128) * 4;
        cols * 4 <= usize::MAX as u64 && rows <= usize::MAX as u64 && area <= isize::MAX as u128
    }

    /// Width, height and samples per axis of the output.
    pub fn frame_size(&self) -> (r: (u32, u32, u32))
        ensures
            r.0 == self.frame_width(),
            r.1 == self.frame_height(),
            r.2 == self.frame_samples(),
    {
        let w: u32 = if self.width < 1 {
            1
        } else {
            self.width
        };
        let h: u32 = if self.height < 1 {
            1
        } else {
            self.height
        };
        let aa: u32 = if self.aa < 1 {
            1
        } else if self.aa > 8 {
            8
        } else {
            self.aa
        };
        (w, h, aa)
    }
}

/// Supersampling makes at most eight times as many.
proof fn lemma_sample_count(n: int, aa: int)
    requires
        0 <= n <= 0xffff_ffff,
        1 <= aa <= 8,
    ensures
        0 <= n * aa <= 8 * 0xffff_ffff,
{
    assert(0 <= n * aa <= 8 * 0xffff_ffff) by (nonlinear_arith)
        requires
            0 <= n <= 0xffff_ffff,
            1 <= aa <= 8,
    ;
}

/// Whether `full` is a packed image of `w` by `h` samples.
pub open spec fn shows(full: RgbaImage, w: int, h: int, samples: Samples) -> bool {
    &&& full.width == w
    &&& full.height == h
    &&& full.packed()
    &&& forall|x: int, y: int| #[trigger]
        full.in_bounds(x, y) ==> full.quad(x, y) == samples(x, y).bytes()
}

/// Sum of channel `c` over `n` samples of row `y`, starting at column `x0`.
pub open spec fn row_total(samples: Samples, x0: int, y: int, n: nat, c: int) -> int
    decreases n,
{
    if n == 0 {
        0
    } else {
        row_total(samples, x0, y, (n - 1) as nat, c) + samples(x0 + n - 1, y).bytes()[c]
    }
}

/// Sum of channel `c` over a block of `rows` by `cols` samples.
pub open spec fn block_total(
    samples: Samples,
    x0: int,
    y0: int,
    rows: nat,
    cols: nat,
    c: int,
) -> int
    decreases rows,
{
    if rows == 0 {
        0
    } else {
        block_total(samples, x0, y0, (rows - 1) as nat, cols, c) + row_total(
            samples,
            x0,
            y0 + rows - 1,
            cols,
            c,
        )
    }
}

/// Whether `image` is the `w` by `h` frame in which every pixel is the mean
/// of its `aa` by `aa` samples, rounded down.
pub open spec fn resolved(image: RgbaImage, w: int, h: int, aa: int, samples: Samples) -> bool {
    &&& image.width == w
    &&& image.height == h
    &&& image.packed()
    &&& forall|x: int, y: int, c: int| #[trigger]
        image.in_bounds(x, y) && 0 <= c < 4 ==> #[trigger] image.quad(x, y)[c] == block_total(
            samples,
            x * aa,
            y * aa,
            aa as nat,
            aa as nat,
            c,
        ) / (aa * aa)
}

/// Summing bytes of an image is summing the samples that it shows.
proof fn lemma_row_total(
    full: RgbaImage,
    w: int,
    h: int,
    samples: Samples,
    x0: int,
    y: int,
    n: nat,
    c: int,
)
    requires
        shows(full, w, h, samples),
        0 <= x0,
        x0 + n <= w,
        0 <= y < h,
        0 <= c < 4,
    ensures
        run_sum(full.pixels@, full.offset(x0, y) + c, n) == row_total(samples, x0, y, n, c),
    decreases n,
{
    if n > 0 {
        lemma_row_total(full, w, h, samples, x0, y, (n - 1) as nat, c);
        let x = x0 + n - 1;
        assert(full.in_bounds(x, y));
        assert(0 <= full.offset(x, y) && full.offset(x, y) + 4 <= full.pixels@.len())
            by (nonlinear_arith)
            requires
                full.offset(x, y) == y * full.stride + x * 4,
                full.stride == w * 4,
                full.pixels@.len() == h * full.stride,
                0 <= x < w,
                0 <= y < h,
        ;
        assert(full.quad(x, y)[c] == full.pixels@[full.offset(x, y) + c]);
        assert(full.offset(x0, y) + c + 4 * (n - 1) == full.offset(x, y) + c);
    }
}

/// Summing a block of bytes is summing a block of samples.
proof fn lemma_block_total(
    full: RgbaImage,
    w: int,
    h: int,
    samples: Samples,
    x0: int,
    y0: int,
    rows: nat,
    cols: nat,
    c: int,
)
    requires
        shows(full, w, h, samples),
        0 <= x0,
        x0 + cols <= w,
        0 <= y0,
        y0 + rows <= h,
        0 <= c < 4,
    ensures
        block_sum(full.pixels@, full.offset(x0, y0) + c, full.stride as int, rows, cols)
            == block_total(samples, x0, y0, rows, cols, c),
    decreases rows,
{
    if rows > 0 {
        lemma_block_total(full, w, h, samples, x0, y0, (rows - 1) as nat, cols, c);
        lemma_row_total(full, w, h, samples, x0, y0 + rows - 1, cols, c);
        assert(full.offset(x0, y0) + c + (rows - 1) * full.stride == full.offset(
            x0,
            y0 + rows - 1,
        ) + c) by (nonlinear_arith)
            requires
                full.offset(x0, y0) == y0 * full.stride + x0 * 4,
                full.offset(x0, y0 + rows - 1) == (y0 + rows - 1) * full.stride + x0 * 4,
        ;
    }
}

/// A block of one sample is that sample.
proof fn lemma_single_sample(samples: Samples, x: int, y: int, c: int)
    requires
        0 <= c < 4,
    ensures
        block_total(samples, x * 1, y * 1, 1, 1, c) / (1int * 1int) == samples(x, y).bytes()[c],
{
    reveal_with_fuel(block_total, 2);
    reveal_with_fuel(row_total, 2);
}

/// Brings a supersampled frame down to the requested size; with one sample
/// per pixel it is handed back as it is.
pub fn resolve(full: RgbaImage, opts: &RenderOptions) -> (image: RgbaImage)
    requires
        opts.fits(),
        full.width == opts.sample_columns(),
        full.height == opts.sample_rows(),
        full.packed(),
    ensures
        image.width == opts.frame_width(),
        image.height == opts.frame_height(),
        image.packed(),
        opts.frame_samples() == 1 ==> image == full,
        forall|samples: Samples| #[trigger]
            shows(full, opts.sample_columns(), opts.sample_rows(), samples) ==> resolved(
                image,
                opts.frame_width(),
                opts.frame_height(),
                opts.frame_samples(),
                samples,
            ),
{
    let (w, h, aa) = opts.frame_size();
    if aa <= 1 {
        proof {
            assert forall|samples: Samples| #[trigger]
                shows(full, opts.sample_columns(), opts.sample_rows(), samples) implies resolved(
                full,
                w as int,
                h as int,
                1,
                samples,
            ) by {
                assert forall|x: int, y: int, c: int| #[trigger]
                    full.in_bounds(x, y) && 0 <= c < 4 implies #[trigger] full.quad(x, y)[c]
                    == block_total(samples, x * 1, y * 1, 1, 1, c) / (1int * 1int) by {
                    lemma_single_sample(samples, x, y, c);
                }
            }
        }
        full
    } else {
        let ghost n = aa as int;
        let ghost cols = opts.sample_columns();
        let ghost rows = opts.sample_rows();
        proof {
            assert(w * 4 <= cols * 4 && w * h * 4 <= cols * rows * 4 && h <= rows)
                by (nonlinear_arith)
                requires
                    cols == w * n,
                    rows == h * n,
                    n >= 1,
                    w >= 1,
                    h >= 1,
            ;
            assert(full.offset(cols, rows - 1) <= full.pixels@.len()) by (nonlinear_arith)
                requires
                    full.offset(cols, rows - 1) == (rows - 1) * full.stride + cols * 4,
                    full.stride == cols * 4,
                    full.pixels@.len() == rows * full.stride,
            ;
        }
        let image = downsample_box(&full, w, h, aa);
        proof {
            assert forall|samples: Samples| #[trigger]
                shows(full, cols, rows, samples) implies resolved(
                image,
                w as int,
                h as int,
                n,
                samples,
            ) by {
                assert forall|x: int, y: int, c: int| #[trigger]
                    image.in_bounds(x, y) && 0 <= c < 4 implies #[trigger] image.quad(x, y)[c]
                    == block_total(samples, x * n, y * n, n as nat, n as nat, c) / (n * n) by {
                    assert(0 <= x * n && x * n + n <= cols && 0 <= y * n && y * n + n <= rows)
                        by (nonlinear_arith)
                        requires
                            cols == w * n,
                            rows == h * n,
                            0 <= x < w,
                            0 <= y < h,
                            n >= 1,
                    ;
                    lemma_block_total(
                        full,
                        cols,
                        rows,
                        samples,
                        x * n,
                        y * n,
                        n as nat,
                        n as nat,
                        c,
                    );
                }
            }
        }
        image
    }
}

/// With one sample per pixel the frame is the samples themselves: turning
/// supersampling off and asking for one sample are the same.
pub proof fn law_one_sample(image: RgbaImage, w: int, h: int, samples: Samples)
    requires
        resolved(image, w, h, 1, samples),
    ensures
        shows(image, w, h, samples),
{
    assert forall|x: int, y: int| #[trigger] image.in_bounds(x, y) implies image.quad(x, y)
        == samples(x, y).bytes() by {
        lemma_quad_length(image, x, y);
        let shown = samples(x, y).bytes();
        assert forall|c: int| 0 <= c < 4 implies image.quad(x, y)[c] == shown[c] by {
            lemma_single_sample(samples, x, y, c);
            assert(image.in_bounds(x, y));
        }
        assert(image.quad(x, y) =~= samples(x, y).bytes());
    }
}

/// A pixel of a packed image has four bytes.
proof fn lemma_quad_length(image: RgbaImage, x: int, y: int)
    requires
        image.packed(),
        image.in_bounds(x, y),
    ensures
        image.quad(x, y).len() == 4,
{
    assert(0 <= y * image.stride + x * 4 && y * image.stride + x * 4 + 4 <= image.height
        * image.stride) by (nonlinear_arith)
        requires
            0 <= x < image.width,
            0 <= y < image.height,
            image.stride == image.width * 4,
    ;
}

/// A total over a row of samples within bounds is within as many times the
/// bounds.
proof fn lemma_row_range(
    samples: Samples,
    x0: int,
    y: int,
    n: nat,
    c: int,
    lo: int,
    hi: int,
)
    requires
        forall|i: int|
            x0 <= i < x0 + n ==> lo <= (#[trigger] samples(i, y)).bytes()[c] <= hi,
    ensures
        n * lo <= row_total(samples, x0, y, n, c) <= n * hi,
    decreases n,
{
    if n > 0 {
        lemma_row_range(samples, x0, y, (n - 1) as nat, c, lo, hi);
        assert(lo <= samples(x0 + n - 1, y).bytes()[c] <= hi);
        assert((n - 1) * lo + lo == n * lo && (n - 1) * hi + hi == n * hi) by (nonlinear_arith);
    } else {
        assert(0 * lo == 0 && 0 * hi == 0) by (nonlinear_arith);
    }
}

/// A total over a block of samples within bounds is within as many times the
/// bounds.
proof fn lemma_block_range(
    samples: Samples,
    x0: int,
    y0: int,
    rows: nat,
    cols: nat,
    c: int,
    lo: int,
    hi: int,
)
    requires
        forall|i: int, j: int|
            x0 <= i < x0 + cols && y0 <= j < y0 + rows ==> lo <= (#[trigger] samples(
                i,
                j,
            )).bytes()[c] <= hi,
    ensures
        rows * cols * lo <= block_total(samples, x0, y0, rows, cols, c) <= rows * cols * hi,
    decreases rows,
{
    if rows > 0 {
        let m = (rows - 1) as nat;
        lemma_block_range(samples, x0, y0, m, cols, c, lo, hi);
        lemma_row_range(samples, x0, y0 + rows - 1, cols, c, lo, hi);
        assert(m * cols * lo + cols * lo == rows * cols * lo && m * cols * hi + cols * hi == rows
            * cols * hi) by (nonlinear_arith)
            requires
                rows == m + 1,
        ;
    } else {
        assert(0 * cols * lo == 0 && 0 * cols * hi == 0) by (nonlinear_arith);
    }
}

/// Supersampling stays within the range of what it averages: where a channel
/// of every sample of a pixel lies between `lo` and `hi`, so does the
/// channel of the pixel.
pub proof fn law_pixel_in_range(
    image: RgbaImage,
    w: int,
    h: int,
    aa: int,
    samples: Samples,
    x: int,
    y: int,
    c: int,
    lo: int,
    hi: int,
)
    requires
        resolved(image, w, h, aa, samples),
        aa >= 1,
        image.in_bounds(x, y),
        0 <= c < 4,
        forall|i: int, j: int|
            x * aa <= i < x * aa + aa && y * aa <= j < y * aa + aa ==> lo <= (#[trigger] samples(
                i,
                j,
            )).bytes()[c] <= hi,
    ensures
        lo <= image.quad(x, y)[c] <= hi,
{
    lemma_block_range(samples, x * aa, y * aa, aa as nat, aa as nat, c, lo, hi);
    lemma_mean_range(
        block_total(samples, x * aa, y * aa, aa as nat, aa as nat, c),
        aa,
        lo,
        hi,
    );
    assert(image.in_bounds(x, y) && 0 <= c < 4 ==> image.quad(x, y)[c] == block_total(
        samples,
        x * aa,
        y * aa,
        aa as nat,
        aa as nat,
        c,
    ) / (aa * aa));
}

/// Supersampling a uniform field gives the same uniform field.
pub proof fn law_uniform_samples(
    image: RgbaImage,
    w: int,
    h: int,
    aa: int,
    samples: Samples,
    colour: Rgba8,
)
    requires
        resolved(image, w, h, aa, samples),
        aa >= 1,
        forall|i: int, j: int|
            0 <= i < w * aa && 0 <= j < h * aa ==> #[trigger] samples(i, j) == colour,
    ensures
        forall|x: int, y: int| #[trigger]
            image.in_bounds(x, y) ==> image.quad(x, y) == colour.bytes(),
{
    assert forall|x: int, y: int| #[trigger] image.in_bounds(x, y) implies image.quad(x, y)
        == colour.bytes() by {
        lemma_quad_length(image, x, y);
        assert(0 <= x * aa && x * aa + aa <= w * aa && 0 <= y * aa && y * aa + aa <= h * aa)
            by (nonlinear_arith)
            requires
                0 <= x < w,
                0 <= y < h,
                aa >= 1,
        ;
        assert forall|c: int| 0 <= c < 4 implies image.quad(x, y)[c] == colour.bytes()[c] by {
            let v = colour.bytes()[c] as int;
            law_pixel_in_range(image, w, h, aa, samples, x, y, c, v, v);
        }
        assert(image.quad(x, y) =~= colour.bytes());
    }
}

/// Options that pass validation are taken at their word: no dimension and no
/// sample count is clamped.
pub proof fn law_valid_options_are_kept(opts: RenderOptions)
    requires
        opts.fault() is None,
    ensures
        opts.frame_width() == opts.width,
        opts.frame_height() == opts.height,
        opts.frame_samples() == opts.aa,
{
}

/// The sample count is always between one and eight.
pub proof fn law_samples_range(opts: RenderOptions)
    ensures
        1 <= opts.frame_samples() <= 8,
        opts.aa <= 1 ==> opts.frame_samples() == 1,
{
}

} // verus!
