//! Dithering engine: strategies that convert a grayscale buffer into the
//! printer's binary (0/255) pixel convention.

use vstd::prelude::*;

verus! {

/// The closed set of dithering strategies a print job can select.
#[derive(Debug, Clone, Copy, PartialEq, Eq, Structural)]
pub enum ImageDithering {
    Threshold,
    FloydSteinberg,
    Atkinson,
    Halftone,
    Bayer,
}

/// The hard-threshold quantization of one pixel: the inclusive boundary 127
/// maps to white.
pub open spec fn threshold_px(p: u8) -> u8 {
    if p >= 127 {
        255u8
    } else {
        0u8
    }
}

/// Hard-threshold dithering: each pixel is cut at 127, the inclusive
/// boundary mapping to white.
pub fn threshold_dither(pixels: &mut Vec<u8>)
    ensures
        final(pixels)@ == old(pixels)@.map_values(|p: u8| threshold_px(p)),
{
    let ghost orig = pixels@;
    let n = pixels.len();
    let mut i: usize = 0;
    while i < n
        invariant
            0 <= i <= n,
            n == orig.len() == pixels@.len(),
            forall|j: int| 0 <= j < i ==> pixels@[j] == threshold_px(orig[j]),
            forall|j: int| i <= j < n ==> pixels@[j] == orig[j],
        decreases n - i,
    {
        let p = pixels[i];
        pixels[i] = if p >= 127 {
            255
        } else {
            0
        };
        i = i + 1;
    }
    proof {
        assert(pixels@ =~= orig.map_values(|p: u8| threshold_px(p)));
    }
}

/// The 4x4 ordered-dither threshold matrix, indexed by `(row % 4, col % 4)`.
/// Values span 0 to 15.
pub open spec fn bayer_cell(r: int, c: int) -> u8 {
    if r == 0 {
        if c == 0 { 0u8 } else if c == 1 { 8u8 } else if c == 2 { 2u8 } else { 10u8 }
    } else if r == 1 {
        if c == 0 { 12u8 } else if c == 1 { 4u8 } else if c == 2 { 14u8 } else { 6u8 }
    } else if r == 2 {
        if c == 0 { 3u8 } else if c == 1 { 11u8 } else if c == 2 { 1u8 } else { 9u8 }
    } else {
        if c == 0 { 15u8 } else if c == 1 { 7u8 } else if c == 2 { 13u8 } else { 5u8 }
    }
}

/// The ordered-dither quantization of the pixel at column `x`, row `y`: its
/// intensity divided by 16 is compared against the matrix cell at
/// `(y % 4, x % 4)`; greater-than yields white, otherwise black.
pub open spec fn bayer_px(p: u8, x: int, y: int) -> u8 {
    if p / 16 > bayer_cell(y % 4, x % 4) {
        255u8
    } else {
        0u8
    }
}

/// Returns the ordered-dither matrix threshold for column `x`, row `y`.
fn bayer_threshold(x: usize, y: usize) -> (r: u8)
    ensures
        r == bayer_cell(y as int % 4, x as int % 4),
{
    let rr = y % 4;
    let cc = x % 4;
    if rr == 0 {
        if cc == 0 { 0 } else if cc == 1 { 8 } else if cc == 2 { 2 } else { 10 }
    } else if rr == 1 {
        if cc == 0 { 12 } else if cc == 1 { 4 } else if cc == 2 { 14 } else { 6 }
    } else if rr == 2 {
        if cc == 0 { 3 } else if cc == 1 { 11 } else if cc == 2 { 1 } else { 9 }
    } else {
        if cc == 0 { 15 } else if cc == 1 { 7 } else if cc == 2 { 13 } else { 5 }
    }
}

/// Bayer dithering: a fixed 4x4 ordered threshold matrix, purely positional,
/// with no error propagation. Pixels beyond `width * height` are untouched.
pub fn bayer_dither(pixels: &mut Vec<u8>, width: usize, height: usize)
    requires
        width * height <= old(pixels)@.len(),
    ensures
        final(pixels)@.len() == old(pixels)@.len(),
        forall|i: int|
            0 <= i < width * height ==> final(pixels)@[i] == bayer_px(
                old(pixels)@[i],
                i % (width as int),
                i / (width as int),
            ),
        forall|i: int|
            width * height <= i < old(pixels)@.len() ==> final(pixels)@[i] == old(pixels)@[i],
{
    let ghost orig = pixels@;
    let buf_len = pixels.len();
    assert(width * height <= buf_len);
    let n = width * height;
    if n == 0 {
        return ;
    }
    assert(width >= 1);
    let mut i: usize = 0;
    while i < n
        invariant
            0 <= i <= n,
            width >= 1,
            n == width * height <= pixels@.len(),
            pixels@.len() == orig.len(),
            forall|j: int|
                0 <= j < i ==> pixels@[j] == bayer_px(orig[j], j % (width as int), j / (
                width as int)),
            forall|j: int| i <= j < orig.len() ==> pixels@[j] == orig[j],
        decreases n - i,
    {
        let x = i % width;
        let y = i / width;
        let t = bayer_threshold(x, y);
        let p = pixels[i];
        pixels[i] = if p / 16 > t {
            255
        } else {
            0
        };
        i = i + 1;
    }
}

/// Quantization to the nearest of 0 and 255.
pub open spec fn quantize_px(p: u8) -> u8 {
    if p > 127 {
        255u8
    } else {
        0u8
    }
}

/// One eighth of the signed quantization error `p - quantize_px(p)`,
/// truncated toward zero.
pub open spec fn eighth_error(p: u8) -> int {
    if p > 127 {
        -((255 - p) / 8)
    } else {
        (p as int) / 8
    }
}

/// A pixel nudged by a signed error share, clamped to the byte range.
pub open spec fn clamp_add(p: u8, e: int) -> u8 {
    let v = p + e;
    if v < 0 {
        0u8
    } else if v > 255 {
        255u8
    } else {
        v as u8
    }
}

/// Adds the error share `e` to the pixel at `(x, y)` of a `w`-wide,
/// `h`-high image, clamping to the byte range; coordinates outside the
/// image bounds leave the buffer unchanged.
pub open spec fn diffuse_one(s: Seq<u8>, w: int, h: int, x: int, y: int, e: int) -> Seq<u8> {
    if 0 <= x < w && 0 <= y < h && y * w + x < s.len() {
        s.update(y * w + x, clamp_add(s[y * w + x], e))
    } else {
        s
    }
}

/// One Atkinson step at `(x, y)`: quantize the pixel, then hand one eighth
/// of the signed error to each of the six forward and downward neighbors,
/// in this fixed order.
pub open spec fn atkinson_step(s: Seq<u8>, w: int, h: int, x: int, y: int) -> Seq<u8> {
    let idx = y * w + x;
    let e = eighth_error(s[idx]);
    let s0 = s.update(idx, quantize_px(s[idx]));
    let s1 = diffuse_one(s0, w, h, x + 1, y, e);
    let s2 = diffuse_one(s1, w, h, x + 2, y, e);
    let s3 = diffuse_one(s2, w, h, x - 1, y + 1, e);
    let s4 = diffuse_one(s3, w, h, x, y + 1, e);
    let s5 = diffuse_one(s4, w, h, x + 1, y + 1, e);
    diffuse_one(s5, w, h, x, y + 2, e)
}

/// The buffer after the first `k` Atkinson steps in raster order (row-major,
/// left to right, top to bottom). The order is load-bearing: later pixels
/// see the error the earlier ones propagated.
pub open spec fn atkinson_process(s: Seq<u8>, w: int, h: int, k: int) -> Seq<u8>
    decreases k,
{
    if k <= 0 {
        s
    } else {
        atkinson_step(atkinson_process(s, w, h, k - 1), w, h, (k - 1) % w, (k - 1) / w)
    }
}

/// Adds (`down == false`) or subtracts (`down == true`) an error share to
/// the pixel at `idx`, clamping at the byte range's ends.
fn apply_error(pixels: &mut Vec<u8>, idx: usize, down: bool, mag: u8)
    requires
        idx < old(pixels)@.len(),
    ensures
        final(pixels)@ == old(pixels)@.update(
            idx as int,
            clamp_add(
                old(pixels)@[idx as int],
                if down {
                    -(mag as int)
                } else {
                    mag as int
                },
            ),
        ),
{
    let cur = pixels[idx];
    let nv: u8 = if down {
        if cur >= mag {
            cur - mag
        } else {
            0
        }
    } else {
        if cur as u16 + mag as u16 > 255 {
            255
        } else {
            cur + mag
        }
    };
    pixels[idx] = nv;
}

/// The index of in-bounds coordinates lies below `w * h`.
proof fn lemma_coord_index(w: int, h: int, x: int, y: int)
    by (nonlinear_arith)
    requires
        0 <= x < w,
        0 <= y < h,
    ensures
        0 <= y * w + x < w * h,
{
}

/// After `k` steps the first `k` pixels are settled at 0 or 255: every step
/// quantizes its own pixel and nudges only pixels at strictly larger raster
/// indices, so settled pixels are never revisited. Bytes beyond the image
/// are never touched.
proof fn lemma_atkinson_settled(s: Seq<u8>, w: int, h: int, k: int)
    requires
        1 <= w,
        0 <= h,
        w * h <= s.len(),
        0 <= k <= w * h,
    ensures
        atkinson_process(s, w, h, k).len() == s.len(),
        forall|i: int|
            0 <= i < k ==> (atkinson_process(s, w, h, k)[i] == 0 || atkinson_process(s, w, h, k)[i]
                == 255),
        forall|i: int| w * h <= i < s.len() ==> atkinson_process(s, w, h, k)[i] == s[i],
    decreases k,
{
    if k > 0 {
        lemma_atkinson_settled(s, w, h, k - 1);
        let prev = atkinson_process(s, w, h, k - 1);
        let x = (k - 1) % w;
        let y = (k - 1) / w;
        assert(0 <= x < w && 0 <= y < h && y * w + x == k - 1) by (nonlinear_arith)
            requires 1 <= w, 0 <= h, 0 <= k - 1 < w * h, x == (k - 1) % w, y == (k - 1) / w;
        let idx = k - 1;
        let e = eighth_error(prev[idx]);
        let s0 = prev.update(idx, quantize_px(prev[idx]));
        let s1 = diffuse_one(s0, w, h, x + 1, y, e);
        let s2 = diffuse_one(s1, w, h, x + 2, y, e);
        let s3 = diffuse_one(s2, w, h, x - 1, y + 1, e);
        let s4 = diffuse_one(s3, w, h, x, y + 1, e);
        let s5 = diffuse_one(s4, w, h, x + 1, y + 1, e);
        let s6 = diffuse_one(s5, w, h, x, y + 2, e);
        assert(atkinson_process(s, w, h, k) == s6);
        assert(x + 1 < w ==> y * w + (x + 1) == idx + 1) by (nonlinear_arith)
            requires y * w + x == idx;
        assert(x + 2 < w ==> y * w + (x + 2) == idx + 2) by (nonlinear_arith)
            requires y * w + x == idx;
        assert((y + 1) * w + (x - 1) == idx + w - 1 && (y + 1) * w + x == idx + w && (y + 1) * w + (
        x + 1) == idx + w + 1 && (y + 2) * w + x == idx + 2 * w) by (nonlinear_arith)
            requires y * w + x == idx;
        assert(x >= 1 ==> w >= 2);
        if x + 1 < w {
            lemma_coord_index(w, h, x + 1, y);
        }
        if x + 2 < w {
            lemma_coord_index(w, h, x + 2, y);
        }
        if y + 1 < h {
            if x >= 1 {
                lemma_coord_index(w, h, x - 1, y + 1);
            }
            lemma_coord_index(w, h, x, y + 1);
            if x + 1 < w {
                lemma_coord_index(w, h, x + 1, y + 1);
            }
        }
        if y + 2 < h {
            lemma_coord_index(w, h, x, y + 2);
        }
        assert forall|i: int| 0 <= i < k implies (s6[i] == 0 || s6[i] == 255) by {
            if i < idx {
                assert(s6[i] == prev[i]);
            } else {
                assert(s6[idx] == quantize_px(prev[idx]));
            }
        }
        assert forall|i: int| w * h <= i < s.len() implies s6[i] == s[i] by {
            assert(s6[i] == prev[i]);
        }
    }
}

/// Atkinson error-diffusion dithering over the leading `width * height`
/// bytes of the buffer, in raster order; bytes beyond the image are left
/// unchanged, and every image pixel ends settled at 0 or 255.
#[verifier::rlimit(60)]
pub fn atkinson_dither(pixels: &mut Vec<u8>, width: usize, height: usize)
    requires
        width * height <= old(pixels)@.len(),
    ensures
        final(pixels)@ == atkinson_process(
            old(pixels)@,
            width as int,
            height as int,
            (width * height) as int,
        ),
        final(pixels)@.len() == old(pixels)@.len(),
        forall|i: int|
            0 <= i < width * height ==> (final(pixels)@[i] == 0 || final(pixels)@[i] == 255),
        forall|i: int|
            width * height <= i < old(pixels)@.len() ==> final(pixels)@[i] == old(pixels)@[i],
{
    let ghost orig = pixels@;
    let buf_len = pixels.len();
    assert(width * height <= buf_len);
    let n = width * height;
    if n == 0 {
        return ;
    }
    assert(width >= 1 && height >= 1);
    let mut k: usize = 0;
    while k < n
        invariant
            0 <= k <= n,
            width >= 1,
            height >= 1,
            n == width * height <= orig.len() <= usize::MAX,
            pixels@.len() == orig.len(),
            pixels@ == atkinson_process(orig, width as int, height as int, k as int),
        decreases n - k,
    {
        let x = k % width;
        let y = k / width;
        proof {
            assert(0 <= x < width && 0 <= y < height && y * width + x == k) by (nonlinear_arith)
                requires
                    width >= 1,
                    0 <= k < width * height,
                    x == k as int % width as int,
                    y == k as int / width as int;
        }
        let ghost prev = pixels@;
        let ghost w = width as int;
        let ghost h = height as int;
        let old_px = pixels[k];
        let q: u8 = if old_px > 127 {
            255
        } else {
            0
        };
        pixels[k] = q;
        let down = old_px > 127;
        let mag: u8 = if old_px > 127 {
            (255 - old_px) / 8
        } else {
            old_px / 8
        };
        let ghost e = eighth_error(old_px);
        let ghost s0 = prev.update(k as int, quantize_px(old_px));
        assert(pixels@ == s0);
        let ghost s1 = diffuse_one(s0, w, h, x as int + 1, y as int, e);
        if width - x > 1 {
            proof {
                lemma_coord_index(w, h, x as int + 1, y as int);
                assert(y as int * w + (x as int + 1) == k + 1) by (nonlinear_arith)
                    requires y * w + x == k;
            }
            apply_error(pixels, k + 1, down, mag);
        }
        assert(pixels@ == s1);
        let ghost s2 = diffuse_one(s1, w, h, x as int + 2, y as int, e);
        if width - x > 2 {
            proof {
                lemma_coord_index(w, h, x as int + 2, y as int);
                assert(y as int * w + (x as int + 2) == k + 2) by (nonlinear_arith)
                    requires y * w + x == k;
            }
            apply_error(pixels, k + 2, down, mag);
        }
        assert(pixels@ == s2);
        let ghost s3 = diffuse_one(s2, w, h, x as int - 1, y as int + 1, e);
        if x >= 1 && height - y > 1 {
            proof {
                lemma_coord_index(w, h, x as int - 1, y as int + 1);
                assert((y as int + 1) * w + (x as int - 1) == k + width - 1) by (nonlinear_arith)
                    requires y * w + x == k, w == width;
            }
            apply_error(pixels, k + width - 1, down, mag);
        }
        assert(pixels@ == s3);
        let ghost s4 = diffuse_one(s3, w, h, x as int, y as int + 1, e);
        if height - y > 1 {
            proof {
                lemma_coord_index(w, h, x as int, y as int + 1);
                assert((y as int + 1) * w + x == k + width) by (nonlinear_arith)
                    requires y * w + x == k, w == width;
            }
            apply_error(pixels, k + width, down, mag);
        }
        assert(pixels@ == s4);
        let ghost s5 = diffuse_one(s4, w, h, x as int + 1, y as int + 1, e);
        if width - x > 1 && height - y > 1 {
            proof {
                lemma_coord_index(w, h, x as int + 1, y as int + 1);
                assert((y as int + 1) * w + (x as int + 1) == k + width + 1) by (nonlinear_arith)
                    requires y * w + x == k, w == width;
            }
            apply_error(pixels, k + width + 1, down, mag);
        }
        assert(pixels@ == s5);
        let ghost s6 = diffuse_one(s5, w, h, x as int, y as int + 2, e);
        if height - y > 2 {
            proof {
                lemma_coord_index(w, h, x as int, y as int + 2);
                assert((y as int + 2) * w + x == k + 2 * width) by (nonlinear_arith)
                    requires y * w + x == k, w == width;
            }
            apply_error(pixels, k + 2 * width, down, mag);
        }
        assert(pixels@ == s6);
        proof {
            assert(s6 == atkinson_step(prev, w, h, x as int, y as int));
            assert(x as int == (k as int) % w && y as int == (k as int) / w) by (nonlinear_arith)
                requires
                    w >= 1,
                    0 <= x < w,
                    0 <= y,
                    y * w + x == k,
            ;
            assert(pixels@ == atkinson_process(orig, w, h, k + 1));
        }
        k = k + 1;
    }
    proof {
        lemma_atkinson_settled(orig, width as int, height as int, (width * height) as int);
    }
}

/// What drawing a filled circle of the given radius and color about
/// `(cx, cy)` over a `side` x `side` one-color background yields, row-major:
/// a fixed function of its arguments, left without a definition because the
/// drawing crate's rasterization takes pages to state.
pub uninterp spec fn circle_cell(
    side: int,
    background: u8,
    cx: int,
    cy: int,
    radius: int,
    color: u8,
) -> Seq<u8>;

/// Relies on imageproc::drawing::draw_filled_circle_mut: draws as much of a
/// filled circle of the given radius about `(cx, cy)` as lies inside a
/// `side` x `side` cell of the background color, writing only the drawn
/// color. The result depends on the arguments alone. The bounds on the
/// center and radius keep the crate's midpoint-circle arithmetic, which
/// works in 32-bit integers around `cx + radius`, far from overflow.
#[verifier::external_body]
fn draw_circle_cell(side: u32, background: u8, cx: i32, cy: i32, radius: i32, color: u8) -> (r:
    Vec<u8>)
    requires
        side as int * side as int <= usize::MAX,
        side < 0x10000,
        0 <= cx < side,
        0 <= cy < side,
        0 <= radius <= 2 * side,
    ensures
        r@ == circle_cell(side as int, background, cx as int, cy as int, radius as int, color),
        r@.len() == side as int * side as int,
        forall|i: int| 0 <= i < r@.len() ==> r@[i] == background || r@[i] == color,
{
    let mut cell = image::GrayImage::from_pixel(side, side, image::Luma([background]));
    imageproc::drawing::draw_filled_circle_mut(&mut cell, (cx, cy), radius, image::Luma([color]));
    cell.into_raw()
}

/// The sum of the intensities of the first `k` (of up to 16) cells of the
/// 4x4 block whose top-left pixel is `(x0, y0)`, skipping cells outside the
/// image bounds.
pub open spec fn block_sum(s: Seq<u8>, w: int, h: int, x0: int, y0: int, k: int) -> int
    decreases k,
{
    if k <= 0 {
        0
    } else {
        block_sum(s, w, h, x0, y0, k - 1) + (if x0 + (k - 1) % 4 < w && y0 + (k - 1) / 4 < h {
            s[(y0 + (k - 1) / 4) * w + (x0 + (k - 1) % 4)] as int
        } else {
            0
        })
    }
}

/// How many of the first `k` cells of the block at `(x0, y0)` lie inside
/// the image bounds.
pub open spec fn block_count(w: int, h: int, x0: int, y0: int, k: int) -> int
    decreases k,
{
    if k <= 0 {
        0
    } else {
        block_count(w, h, x0, y0, k - 1) + (if x0 + (k - 1) % 4 < w && y0 + (k - 1) / 4 < h {
            1int
        } else {
            0int
        })
    }
}

/// The halftone circle radius of the block at `(x0, y0)`: the block's
/// average intensity, inverted and scaled so that black maps to 6 and white
/// to 0, truncated toward zero.
pub open spec fn block_radius(s: Seq<u8>, w: int, h: int, x0: int, y0: int) -> int {
    let n = block_count(w, h, x0, y0, 16);
    if n <= 0 {
        0
    } else {
        (6 * (255 * n - block_sum(s, w, h, x0, y0, 16))) / (255 * n)
    }
}

/// The output pixel at `(ox, oy)` of the halftone rendering: the 4x4 cell of
/// its block is blank (all white) when the block's radius is zero, else the
/// drawn circle cell of that radius.
pub open spec fn halftone_value(s: Seq<u8>, w: int, h: int, ox: int, oy: int) -> u8 {
    let r = block_radius(s, w, h, (ox / 4) * 4, (oy / 4) * 4);
    if r > 0 {
        circle_cell(4, 255, 2, 2, r, 0)[(oy % 4) * 4 + ox % 4]
    } else {
        255u8
    }
}

/// The full halftone rendering: the image is downsampled in non-overlapping
/// 4x4 blocks, and each block becomes a 4x4 output cell holding a filled
/// circle whose radius scales with the block's inverse average intensity.
pub open spec fn halftone_spec(s: Seq<u8>, w: int, h: int) -> Seq<u8> {
    let wo = 4 * ((w + 3) / 4);
    let ho = 4 * ((h + 3) / 4);
    Seq::new((wo * ho) as nat, |i: int| halftone_value(s, w, h, i % wo, i / wo))
}

/// A block whose top-left pixel lies inside the image holds at least one
/// in-bounds pixel.
proof fn lemma_block_count_at_least_one(w: int, h: int, x0: int, y0: int, k: int)
    requires
        1 <= k,
        0 <= x0 < w,
        0 <= y0 < h,
    ensures
        block_count(w, h, x0, y0, k) >= 1,
    decreases k,
{
    if k > 1 {
        lemma_block_count_at_least_one(w, h, x0, y0, k - 1);
    } else {
        assert(block_count(w, h, x0, y0, 0) == 0);
    }
}

/// Computes the circle radius of the 4x4 block whose top-left pixel is
/// `(x0, y0)`, from the block's average intensity over its in-bounds pixels.
fn halftone_block_radius(pixels: &Vec<u8>, width: usize, height: usize, x0: usize, y0: usize) -> (r:
    u32)
    requires
        width * height <= pixels@.len(),
        x0 < width,
        y0 < height,
    ensures
        r == block_radius(pixels@, width as int, height as int, x0 as int, y0 as int),
        r <= 6,
{
    let buf_len = pixels.len();
    assert(width * height <= buf_len);
    let mut sum: u32 = 0;
    let mut cnt: u32 = 0;
    let mut k: usize = 0;
    while k < 16
        invariant
            0 <= k <= 16,
            width * height <= pixels@.len() <= usize::MAX,
            x0 < width,
            y0 < height,
            sum == block_sum(pixels@, width as int, height as int, x0 as int, y0 as int, k as int),
            cnt == block_count(width as int, height as int, x0 as int, y0 as int, k as int),
            sum <= 255 * cnt,
            cnt <= k,
        decreases 16 - k,
    {
        let dx = k % 4;
        let dy = k / 4;
        if dx < width - x0 && dy < height - y0 {
            proof {
                lemma_coord_index(
                    width as int,
                    height as int,
                    x0 as int + dx as int,
                    y0 as int + dy as int,
                );
            }
            let px = pixels[(y0 + dy) * width + (x0 + dx)];
            sum = sum + px as u32;
            cnt = cnt + 1;
        }
        k = k + 1;
    }
    proof {
        lemma_block_count_at_least_one(width as int, height as int, x0 as int, y0 as int, 16);
    }
    let r = (6 * (255 * cnt - sum)) / (255 * cnt);
    assert(r <= 6) by (nonlinear_arith)
        requires
            r == (6 * (255 * cnt - sum)) / (255 * cnt),
            sum <= 255 * cnt,
            cnt >= 1,
    ;
    r
}

/// The output index of the `j`-th pixel (row-major within the cell) of the
/// 4x4 output cell whose top-left corner is `(x0, y0)`, in a `wo`-wide
/// output image.
spec fn cell_index(x0: int, y0: int, wo: int, j: int) -> int {
    (y0 + j / 4) * wo + (x0 + j % 4)
}

/// Halftone dithering: the image is downsampled in non-overlapping 4x4
/// blocks, and each block's average intensity becomes an inverse-scaled
/// filled circle drawn into a 4x4 white cell of the output, which is scaled
/// up to `4 * ceil(dim / 4)` per axis. A zero radius yields a blank cell.
/// Returns the output buffer with its width and height.
#[verifier::rlimit(60)]
pub fn halftone_dither(pixels: &Vec<u8>, width: usize, height: usize) -> (r: (Vec<u8>, usize, usize))
    requires
        width * height <= pixels@.len(),
        width <= usize::MAX - 3,
        height <= usize::MAX - 3,
        4 * ((width + 3) / 4) * (4 * ((height + 3) / 4)) <= usize::MAX,
    ensures
        r.1 == 4 * ((width + 3) / 4),
        r.2 == 4 * ((height + 3) / 4),
        r.0@ == halftone_spec(pixels@, width as int, height as int),
        forall|i: int| 0 <= i < r.0@.len() ==> r.0@[i] == 0 || r.0@[i] == 255,
{
    let buf_len = pixels.len();
    assert(width * height <= buf_len);
    let wo = 4 * ((width + 3) / 4);
    let ho = 4 * ((height + 3) / 4);
    if width == 0 || height == 0 {
        proof {
            assert(wo * ho == 0) by (nonlinear_arith)
                requires
                    wo == 4 * ((width + 3) / 4),
                    ho == 4 * ((height + 3) / 4),
                    width == 0 || height == 0,
                    width >= 0,
                    height >= 0,
            ;
            assert(halftone_spec(pixels@, width as int, height as int) =~= Seq::<u8>::empty());
        }
        return (Vec::new(), wo, ho);
    }
    let bw = (width + 3) / 4;
    let bh = (height + 3) / 4;
    let ghost ht = halftone_spec(pixels@, width as int, height as int);
    proof {
        assert(ht.len() == wo * ho);
        assert(wo <= width + 3 && ho <= height + 3);
        assert(bw >= 1 && bh >= 1 && wo == 4 * bw && ho == 4 * bh);
    }
    let mut out: Vec<u8> = vec![255u8; wo * ho];
    let mut by: usize = 0;
    while by < bh
        invariant
            0 <= by <= bh,
            width >= 1,
            height >= 1,
            width * height <= pixels@.len() <= usize::MAX,
            wo == 4 * ((width + 3) / 4) <= width + 3,
            ho == 4 * ((height + 3) / 4) <= height + 3,
            bw == (width + 3) / 4,
            bh == (height + 3) / 4,
            bw >= 1 && bh >= 1 && wo == 4 * bw && ho == 4 * bh,
            wo * ho <= usize::MAX,
            out@.len() == wo * ho,
            ht == halftone_spec(pixels@, width as int, height as int),
            ht.len() == wo * ho,
            forall|i: int|
                0 <= i < wo * ho && (i / (wo as int)) / 4 < by ==> #[trigger] out@[i] == ht[i],
            forall|i: int|
                0 <= i < wo * ho && !((i / (wo as int)) / 4 < by) ==> #[trigger] out@[i] == 255,
            forall|i: int| 0 <= i < out@.len() ==> out@[i] == 0 || out@[i] == 255,
        decreases bh - by,
    {
        let y0 = by * 4;
        proof {
            assert(y0 + 4 <= ho && y0 < height) by (nonlinear_arith)
                requires
                    y0 == by * 4,
                    by < bh,
                    bh == (height + 3) / 4,
                    ho == 4 * bh,
                    ho <= height + 3,
            ;
        }
        let mut bx: usize = 0;
        while bx < bw
            invariant
                0 <= bx <= bw,
                0 <= by < bh,
                y0 == by * 4,
                y0 + 4 <= ho,
                y0 < height,
                width >= 1,
                height >= 1,
                width * height <= pixels@.len() <= usize::MAX,
                wo == 4 * ((width + 3) / 4) <= width + 3,
                ho == 4 * ((height + 3) / 4) <= height + 3,
                bw == (width + 3) / 4,
                bh == (height + 3) / 4,
                bw >= 1 && bh >= 1 && wo == 4 * bw && ho == 4 * bh,
                wo * ho <= usize::MAX,
                out@.len() == wo * ho,
                ht == halftone_spec(pixels@, width as int, height as int),
                ht.len() == wo * ho,
                forall|i: int|
                    0 <= i < wo * ho && ((i / (wo as int)) / 4 < by || ((i / (wo as int)) / 4 == by
                        && (i % (wo as int)) / 4 < bx)) ==> #[trigger] out@[i] == ht[i],
                forall|i: int|
                    0 <= i < wo * ho && !((i / (wo as int)) / 4 < by || ((i / (wo as int)) / 4 == by
                        && (i % (wo as int)) / 4 < bx)) ==> #[trigger] out@[i] == 255,
                forall|i: int| 0 <= i < out@.len() ==> out@[i] == 0 || out@[i] == 255,
            decreases bw - bx,
        {
            let x0 = bx * 4;
            proof {
                assert(x0 + 4 <= wo && x0 < width) by (nonlinear_arith)
                    requires
                        x0 == bx * 4,
                        bx < bw,
                        bw == (width + 3) / 4,
                        wo == 4 * bw,
                        wo <= width + 3,
                ;
            }
            let radius = halftone_block_radius(pixels, width, height, x0, y0);
            let ghost pre_block = out@;
            if radius > 0 {
                let cell = draw_circle_cell(4, 255, 2, 2, radius as i32, 0);
                let mut m: usize = 0;
                while m < 16
                    invariant
                        0 <= m <= 16,
                        0 <= bx < bw,
                        0 <= by < bh,
                        x0 == bx * 4,
                        y0 == by * 4,
                        x0 + 4 <= wo,
                        y0 + 4 <= ho,
                        wo * ho <= usize::MAX,
                        out@.len() == wo * ho == pre_block.len(),
                        cell@.len() == 16,
                        cell@ == circle_cell(4, 255, 2, 2, radius as int, 0),
                        forall|j: int| 0 <= j < 16 ==> cell@[j] == 255 || cell@[j] == 0,
                        forall|i: int|
                            0 <= i < wo * ho && !((y0 <= i / (wo as int) < y0 + 4) && (x0 <= i % (
                            wo as int) < x0 + 4)) ==> out@[i] == pre_block[i],
                        forall|i: int| 0 <= i < out@.len() ==> out@[i] == 0 || out@[i] == 255,
                        forall|j: int|
                            0 <= j < m ==> out@[cell_index(x0 as int, y0 as int, wo as int, j)]
                                == cell@[j],
                        forall|j: int|
                            m <= j < 16 ==> out@[cell_index(x0 as int, y0 as int, wo as int, j)]
                                == pre_block[cell_index(x0 as int, y0 as int, wo as int, j)],
                    decreases 16 - m,
                {
                    let cy = m / 4;
                    let cx = m % 4;
                    proof {
                        lemma_coord_index(wo as int, ho as int, x0 as int + cx as int, y0 as int
                            + cy as int);
                        assert forall|j: int| 0 <= j < 16 implies 0 <= #[trigger] cell_index(
                            x0 as int,
                            y0 as int,
                            wo as int,
                            j,
                        ) < wo * ho && cell_index(x0 as int, y0 as int, wo as int, j) / (wo as int)
                            == y0 + j / 4 && cell_index(x0 as int, y0 as int, wo as int, j) % (
                        wo as int) == x0 + j % 4 by {
                            assert(0 <= (y0 as int + j / 4) * wo + (x0 as int + j % 4) < wo * ho
                                && ((y0 as int + j / 4) * wo + (x0 as int + j % 4)) / (wo as int)
                                == y0 + j / 4 && ((y0 as int + j / 4) * wo + (x0 as int + j % 4)) % (
                            wo as int) == x0 + j % 4) by (nonlinear_arith)
                                requires
                                    0 <= j < 16,
                                    x0 + 4 <= wo,
                                    y0 + 4 <= ho,
                                    wo >= 4,
                                    ho >= 4,
                            ;
                        }
                        assert forall|j: int| 0 <= j < 16 implies (#[trigger] cell_index(
                            x0 as int,
                            y0 as int,
                            wo as int,
                            j,
                        ) == cell_index(x0 as int, y0 as int, wo as int, m as int) <==> j == m) by {
                            assert((y0 as int + j / 4) * wo + (x0 as int + j % 4) == (y0 as int
                                + m as int / 4) * wo + (x0 as int + m as int % 4) <==> j == m) by (
                            nonlinear_arith)
                                requires
                                    0 <= j < 16,
                                    0 <= m < 16,
                                    x0 + 4 <= wo,
                                    wo >= 4,
                            ;
                        }
                        assert(cell_index(x0 as int, y0 as int, wo as int, m as int) == (y0 as int
                            + cy as int) * wo + (x0 as int + cx as int));
                    }
                    out[(y0 + cy) * wo + (x0 + cx)] = cell[m];
                    m = m + 1;
                }
                proof {
                    assert forall|i: int|
                        0 <= i < wo * ho && ((i / (wo as int)) / 4 == by && (i % (wo as int)) / 4
                            == bx) implies out@[i] == ht[i] by {
                        let oy = i / (wo as int);
                        let ox = i % (wo as int);
                        assert(oy * wo + ox == i && 0 <= ox < wo && 0 <= oy < ho) by (
                        nonlinear_arith)
                            requires
                                0 <= i < wo * ho,
                                oy == i / (wo as int),
                                ox == i % (wo as int),
                                wo >= 4,
                        ;
                        let cy = oy % 4;
                        let cx = ox % 4;
                        assert(oy == y0 + cy && ox == x0 + cx) by (nonlinear_arith)
                            requires
                                oy / 4 == by,
                                ox / 4 == bx,
                                cy == oy % 4,
                                cx == ox % 4,
                                y0 == by * 4,
                                x0 == bx * 4,
                        ;
                        let j = cy * 4 + cx;
                        assert(0 <= j < 16 && j / 4 == cy && j % 4 == cx) by (nonlinear_arith)
                            requires
                                0 <= cy < 4,
                                0 <= cx < 4,
                                j == cy * 4 + cx,
                        ;
                        assert(out@[cell_index(x0 as int, y0 as int, wo as int, j)] == cell@[j]);
                        assert(cell_index(x0 as int, y0 as int, wo as int, j) == i);
                        assert((ox / 4) * 4 == x0 && (oy / 4) * 4 == y0);
                        assert(ht[i] == halftone_value(
                            pixels@,
                            width as int,
                            height as int,
                            ox,
                            oy,
                        ));
                        assert(ht[i] == cell@[j]);
                    }
                }
            } else {
                proof {
                    assert forall|i: int|
                        0 <= i < wo * ho && ((i / (wo as int)) / 4 == by && (i % (wo as int)) / 4
                            == bx) implies out@[i] == ht[i] by {
                        let oy = i / (wo as int);
                        let ox = i % (wo as int);
                        assert(0 <= ox < wo && 0 <= oy < ho) by (nonlinear_arith)
                            requires
                                0 <= i < wo * ho,
                                oy == i / (wo as int),
                                ox == i % (wo as int),
                                wo >= 4,
                        ;
                        assert((ox / 4) * 4 == x0 && (oy / 4) * 4 == y0) by (nonlinear_arith)
                            requires
                                oy / 4 == by,
                                ox / 4 == bx,
                                y0 == by * 4,
                                x0 == bx * 4,
                        ;
                        assert(ht[i] == halftone_value(
                            pixels@,
                            width as int,
                            height as int,
                            ox,
                            oy,
                        ));
                        assert(ht[i] == 255);
                    }
                }
            }
            proof {
                assert forall|i: int|
                    0 <= i < wo * ho && ((i / (wo as int)) / 4 < by || ((i / (wo as int)) / 4 == by
                        && (i % (wo as int)) / 4 < bx + 1)) implies #[trigger] out@[i] == ht[i] by {
                    let oy = i / (wo as int);
                    let ox = i % (wo as int);
                    if oy / 4 < by || (oy / 4 == by && ox / 4 < bx) {
                        assert(!((y0 <= oy < y0 + 4) && (x0 <= ox < x0 + 4))) by (nonlinear_arith)
                            requires
                                oy / 4 < by || (oy / 4 == by && ox / 4 < bx),
                                y0 == by * 4,
                                x0 == bx * 4,
                                0 <= oy,
                                0 <= ox,
                        ;
                        assert(out@[i] == pre_block[i]);
                    }
                }
                assert forall|i: int|
                    0 <= i < wo * ho && !((i / (wo as int)) / 4 < by || ((i / (wo as int)) / 4 == by
                        && (i % (wo as int)) / 4 < bx + 1)) implies #[trigger] out@[i] == 255 by {
                    let oy = i / (wo as int);
                    let ox = i % (wo as int);
                    assert(!((y0 <= oy < y0 + 4) && (x0 <= ox < x0 + 4))) by (nonlinear_arith)
                        requires
                            !(oy / 4 < by || (oy / 4 == by && ox / 4 < bx + 1)),
                            y0 == by * 4,
                            x0 == bx * 4,
                            0 <= oy,
                            0 <= ox,
                    ;
                    assert(out@[i] == pre_block[i]);
                    assert(!(oy / 4 < by || (oy / 4 == by && ox / 4 < bx)));
                    assert(pre_block[i] == 255);
                }
            }
            bx = bx + 1;
        }
        proof {
            assert forall|i: int|
                0 <= i < wo * ho && (i / (wo as int)) / 4 < by + 1 implies #[trigger] out@[i]
                == ht[i] by {
                assert((i % (wo as int)) / 4 < bw) by (nonlinear_arith)
                    requires
                        0 <= i < wo * ho,
                        wo == 4 * bw,
                ;
            }
            assert forall|i: int|
                0 <= i < wo * ho && !((i / (wo as int)) / 4 < by + 1) implies #[trigger] out@[i]
                == 255 by {
                assert(!((i / (wo as int)) / 4 < by || ((i / (wo as int)) / 4 == by && (i % (
                wo as int)) / 4 < bw)));
            }
        }
        by = by + 1;
    }
    proof {
        assert forall|i: int| 0 <= i < wo * ho implies #[trigger] out@[i] == ht[i] by {
            assert((i / (wo as int)) / 4 < bh) by (nonlinear_arith)
                requires
                    0 <= i < wo * ho,
                    wo == 4 * bw,
                    ho == 4 * bh,
            ;
        }
        assert(out@ =~= ht);
    }
    (out, wo, ho)
}

/// What Floyd-Steinberg error diffusion to the two-color set {0, 255} makes
/// of a `w` x `h` grayscale buffer: a fixed function of its arguments, left
/// without a definition because the quantization crate's diffusion schedule
/// takes pages to state.
pub uninterp spec fn floyd_steinberg_of(s: Seq<u8>, w: int, h: int) -> Seq<u8>;

/// Relies on image::imageops::dither with the image::imageops::BiLevel color
/// map: Floyd-Steinberg error diffusion over the two-color set {0, 255}. It
/// maps every pixel through the color map, so the whole result is 0/255 and
/// the length is kept; the result depends on the buffer and the dimensions
/// alone. The crate's diffusion indexes one column past the current pixel
/// and one short row loop below it, so it needs a width of at least 2 and a
/// nonzero height.
#[verifier::external_body]
fn floyd_steinberg_dither(pixels: &mut Vec<u8>, width: u32, height: u32)
    requires
        old(pixels)@.len() == width * height,
        width >= 2,
        height >= 1,
    ensures
        final(pixels)@ == floyd_steinberg_of(old(pixels)@, width as int, height as int),
        final(pixels)@.len() == old(pixels)@.len(),
        forall|i: int|
            0 <= i < final(pixels)@.len() ==> final(pixels)@[i] == 0 || final(pixels)@[i] == 255,
{
    let buf = core::mem::take(pixels);
    let mut img = image::GrayImage::from_raw(width, height, buf).unwrap();
    image::imageops::dither(&mut img, &image::imageops::BiLevel);
    *pixels = img.into_raw();
}

/// Applies the selected dithering strategy to a grayscale buffer and returns
/// the binarized buffer with its (possibly rescaled) width and height.
/// Threshold, Atkinson and Bayer work in place over the leading
/// `width * height` bytes; Floyd-Steinberg trims the buffer to the image and
/// delegates to the quantization crate; halftone produces a new buffer
/// scaled up to `4 * ceil(dim / 4)` per axis.
pub fn dither_image(
    pixels: Vec<u8>,
    width: usize,
    height: usize,
    algorithm: ImageDithering,
) -> (r: (Vec<u8>, usize, usize))
    requires
        width * height <= pixels@.len(),
        algorithm == ImageDithering::FloydSteinberg ==> 2 <= width <= u32::MAX && 1 <= height
            <= u32::MAX,
        algorithm == ImageDithering::Halftone ==> width <= usize::MAX - 3 && height <= usize::MAX
            - 3 && 4 * ((width + 3) / 4) * (4 * ((height + 3) / 4)) <= usize::MAX,
    ensures
        match algorithm {
            ImageDithering::Threshold => r.0@ == pixels@.map_values(|p: u8| threshold_px(p)) && r.1
                == width && r.2 == height,
            ImageDithering::FloydSteinberg => r.0@ == floyd_steinberg_of(
                pixels@.subrange(0, width * height),
                width as int,
                height as int,
            ) && r.0@.len() == width * height && (forall|i: int|
                0 <= i < r.0@.len() ==> r.0@[i] == 0 || r.0@[i] == 255) && r.1 == width && r.2
                == height,
            ImageDithering::Atkinson => r.0@ == atkinson_process(
                pixels@,
                width as int,
                height as int,
                (width * height) as int,
            ) && r.1 == width && r.2 == height,
            ImageDithering::Bayer => r.0@.len() == pixels@.len() && r.1 == width && r.2 == height
                && (forall|i: int|
                0 <= i < width * height ==> r.0@[i] == bayer_px(
                    pixels@[i],
                    i % (width as int),
                    i / (width as int),
                )) && (forall|i: int|
                width * height <= i < pixels@.len() ==> r.0@[i] == pixels@[i]),
            ImageDithering::Halftone => r.0@ == halftone_spec(pixels@, width as int, height as int)
                && (forall|i: int| 0 <= i < r.0@.len() ==> r.0@[i] == 0 || r.0@[i] == 255) && r.1
                == 4 * ((width + 3) / 4) && r.2 == 4 * ((height + 3) / 4),
        },
{
    let mut buf = pixels;
    match algorithm {
        ImageDithering::Threshold => {
            threshold_dither(&mut buf);
            (buf, width, height)
        },
        ImageDithering::FloydSteinberg => {
            let buf_len = buf.len();
            assert(width * height <= buf_len);
            buf.truncate(width * height);
            proof {
                assert(buf@ =~= pixels@.subrange(0, width * height));
            }
            floyd_steinberg_dither(&mut buf, width as u32, height as u32);
            (buf, width, height)
        },
        ImageDithering::Atkinson => {
            atkinson_dither(&mut buf, width, height);
            (buf, width, height)
        },
        ImageDithering::Bayer => {
            bayer_dither(&mut buf, width, height);
            (buf, width, height)
        },
        ImageDithering::Halftone => {
            let (out, wo, ho) = halftone_dither(&buf, width, height);
            (out, wo, ho)
        },
    }
}

} // verus!
