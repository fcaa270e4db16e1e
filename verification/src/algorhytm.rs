//! The sampling-grid generator and region-averaging filter.
//!
//! The grid generator computes the ordered anchor coordinates for an image;
//! the region averager overwrites the square block around one anchor with its
//! arithmetic mean color.

use crate::error::RunError;
use crate::error::ScaleIssue;
use crate::image_buf::decode_of;
use crate::image_buf::decode_rgba;
use crate::image_buf::ImageBuf;
use vstd::arithmetic::div_mod::lemma_div_by_multiple;
use vstd::arithmetic::div_mod::lemma_fundamental_div_mod_converse_div;
use vstd::arithmetic::div_mod::lemma_fundamental_div_mod_converse_mod;
use vstd::arithmetic::div_mod::lemma_multiply_divide_lt;
use vstd::arithmetic::mul::lemma_mul_is_commutative;
use vstd::prelude::*;

verus! {

/// The number of anchors along one dimension of extent `d` with stride `s`:
/// how many multiples of `s` lie in `[s, d)`.
pub open spec fn grid_count(d: int, s: int) -> int {
    (d - 1) / s
}

/// The ordered anchor sequence for a `w` by `h` image with stride `s`: every
/// `(x, y)` with `x` a multiple of `s` in `[s, w)` and `y` a multiple of `s`
/// in `[s, h)`, ordered row-major by `x` then `y` (all `y` values for one `x`
/// before the next `x`).
pub open spec fn grid_seq(w: int, h: int, s: int) -> Seq<(u32, u32)> {
    let nx = grid_count(w, s);
    let ny = grid_count(h, s);
    if nx <= 0 || ny <= 0 {
        Seq::empty()
    } else {
        Seq::new((nx * ny) as nat, |i: int| (((i / ny + 1) * s) as u32, ((i % ny + 1) * s) as u32))
    }
}

/// Byte index of channel `c` of the pixel at `(x, y)` in a `w`-wide image.
pub open spec fn px_idx(w: int, x: int, y: int, c: int) -> int {
    4 * (y * w + x) + c
}

/// The x coordinate of the pixel that byte `i` belongs to.
pub open spec fn px_of(w: int, i: int) -> int {
    (i / 4) % w
}

/// The y coordinate of the pixel that byte `i` belongs to.
pub open spec fn py_of(w: int, i: int) -> int {
    (i / 4) / w
}

/// Whether the anchor `(x, y)` is skipped: too close to the left or top edge
/// for a symmetric block, or touching the last column or row.
pub open spec fn skip_anchor(w: int, h: int, x: int, y: int, s: int) -> bool {
    x < s / 2 || y < s / 2 || x + 1 == w || y + 1 == h
}

/// Lower bound (inclusive) of the block around coordinate `v`.
pub open spec fn block_lo(v: int, s: int) -> int {
    v - s / 2
}

/// Upper bound (exclusive) of the block around coordinate `v`, clamped to the
/// image extent `d`.
pub open spec fn block_hi(d: int, v: int, s: int) -> int {
    if v - s / 2 + s < d {
        v - s / 2 + s
    } else {
        d
    }
}

/// Sum of channel `c` over column `x`, rows `y1..y2`.
pub open spec fn col_sum(data: Seq<u8>, w: int, x: int, y1: int, y2: int, c: int) -> int
    decreases y2 - y1,
{
    if y2 <= y1 {
        0
    } else {
        col_sum(data, w, x, y1, y2 - 1, c) + data[px_idx(w, x, y2 - 1, c)]
    }
}

/// Sum of channel `c` over the block `[x1, x2) x [y1, y2)`.
pub open spec fn block_sum(data: Seq<u8>, w: int, x1: int, x2: int, y1: int, y2: int, c: int) -> int
    decreases x2 - x1,
{
    if x2 <= x1 {
        0
    } else {
        block_sum(data, w, x1, x2 - 1, y1, y2, c) + col_sum(data, w, x2 - 1, y1, y2, c)
    }
}

/// The number of pixels in the block `[x1, x2) x [y1, y2)`.
pub open spec fn block_n(x1: int, x2: int, y1: int, y2: int) -> int {
    (x2 - x1) * (y2 - y1)
}

/// The mean of channel `c` over the block: the channel sum divided by the
/// pixel count, truncating toward zero.
pub open spec fn mean_chan(data: Seq<u8>, w: int, x1: int, x2: int, y1: int, y2: int, c: int) -> int {
    block_sum(data, w, x1, x2, y1, y2, c) / block_n(x1, x2, y1, y2)
}

/// Whether byte `i` belongs to a pixel of the block `[x1, x2) x [y1, y2)`.
pub open spec fn in_block(w: int, i: int, x1: int, x2: int, y1: int, y2: int) -> bool {
    x1 <= px_of(w, i) < x2 && y1 <= py_of(w, i) < y2
}

/// The buffer after averaging the block of one anchor: a skipped anchor or an
/// empty block leaves the buffer untouched; otherwise every channel of every
/// block pixel becomes the block's mean for that channel, and all other bytes
/// are unchanged.
pub open spec fn blended(data: Seq<u8>, w: int, h: int, x: int, y: int, s: int) -> Seq<u8> {
    if skip_anchor(w, h, x, y, s) {
        data
    } else {
        let x1 = block_lo(x, s);
        let x2 = block_hi(w, x, s);
        let y1 = block_lo(y, s);
        let y2 = block_hi(h, y, s);
        if x2 <= x1 || y2 <= y1 {
            data
        } else {
            Seq::new(
                data.len(),
                |i: int|
                    if in_block(w, i, x1, x2, y1, y2) {
                        mean_chan(data, w, x1, x2, y1, y2, i % 4) as u8
                    } else {
                        data[i]
                    },
            )
        }
    }
}

/// The buffer after blending the blocks of all given anchors, in order:
/// later anchors fully overwrite what earlier overlapping anchors wrote.
pub open spec fn apply_anchors(
    data: Seq<u8>,
    w: int,
    h: int,
    s: int,
    anchors: Seq<(u32, u32)>,
) -> Seq<u8>
    decreases anchors.len(),
{
    if anchors.len() == 0 {
        data
    } else {
        let prev = apply_anchors(data, w, h, s, anchors.drop_last());
        blended(prev, w, h, anchors.last().0 as int, anchors.last().1 as int, s)
    }
}

/// The whole filter: blending every anchor of the grid, in grid order.
pub open spec fn filter_spec(data: Seq<u8>, w: int, h: int, s: int) -> Seq<u8> {
    apply_anchors(data, w, h, s, grid_seq(w, h, s))
}

/// Whether the scale `s` passes validation against a `w` by `h` image: it
/// must exceed one pixel, be strictly smaller than both dimensions, be at
/// most half of each, and divide both evenly.
pub open spec fn scale_ok(w: int, h: int, s: int) -> bool {
    s < w && s < h && 2 <= s && s <= w / 2 && s <= h / 2 && w % s == 0 && h % s == 0
}

/// The first validation check that a rejected scale fails, in validation
/// order.
pub open spec fn scale_issue_of(w: int, h: int, s: int) -> ScaleIssue {
    if s >= w || s >= h {
        ScaleIssue::LargerThanImage
    } else if s <= 1 {
        ScaleIssue::TooSmall
    } else {
        ScaleIssue::Uneven
    }
}

/// A channel sum over one column is at most 255 per pixel.
proof fn lemma_col_sum_bound(data: Seq<u8>, w: int, x: int, y1: int, y2: int, c: int)
    requires
        y1 <= y2,
    ensures
        0 <= col_sum(data, w, x, y1, y2, c) <= 255 * (y2 - y1),
    decreases y2 - y1,
{
    if y2 > y1 {
        lemma_col_sum_bound(data, w, x, y1, y2 - 1, c);
    }
}

/// A channel sum over a block is at most 255 per pixel.
proof fn lemma_block_sum_bound(data: Seq<u8>, w: int, x1: int, x2: int, y1: int, y2: int, c: int)
    requires
        x1 <= x2,
        y1 <= y2,
    ensures
        0 <= block_sum(data, w, x1, x2, y1, y2, c) <= 255 * ((x2 - x1) * (y2 - y1)),
    decreases x2 - x1,
{
    if x2 > x1 {
        lemma_block_sum_bound(data, w, x1, x2 - 1, y1, y2, c);
        lemma_col_sum_bound(data, w, x2 - 1, y1, y2, c);
        assert(255 * ((x2 - 1 - x1) * (y2 - y1)) + 255 * (y2 - y1) == 255 * ((x2 - x1) * (y2
            - y1))) by (nonlinear_arith);
    }
}

/// The mean of a channel over a non-empty block is itself a channel value.
proof fn lemma_mean_bound(data: Seq<u8>, w: int, x1: int, x2: int, y1: int, y2: int, c: int)
    requires
        x1 < x2,
        y1 < y2,
    ensures
        0 <= mean_chan(data, w, x1, x2, y1, y2, c) <= 255,
{
    let n = block_n(x1, x2, y1, y2);
    let sum = block_sum(data, w, x1, x2, y1, y2, c);
    assert(n >= 1) by (nonlinear_arith)
        requires
            x1 < x2 && y1 < y2 && n == (x2 - x1) * (y2 - y1),
    ;
    lemma_block_sum_bound(data, w, x1, x2, y1, y2, c);
    vstd::arithmetic::div_mod::lemma_div_is_ordered(sum, 255 * n, n);
    lemma_div_by_multiple(255, n);
    vstd::arithmetic::div_mod::lemma_div_pos_is_pos(sum, n);
}

/// Every byte index of the image decomposes uniquely into a pixel coordinate
/// and a channel.
proof fn lemma_idx_decomp(w: int, i: int)
    requires
        1 <= w,
        0 <= i,
    ensures
        i == px_idx(w, px_of(w, i), py_of(w, i), i % 4),
        0 <= px_of(w, i) < w,
        0 <= py_of(w, i),
        0 <= i % 4 < 4,
{
    vstd::arithmetic::div_mod::lemma_fundamental_div_mod(i, 4);
    vstd::arithmetic::div_mod::lemma_fundamental_div_mod(i / 4, w);
    lemma_mul_is_commutative(py_of(w, i), w);
    vstd::arithmetic::div_mod::lemma_mod_division_less_than_divisor(i, 4);
    vstd::arithmetic::div_mod::lemma_mod_division_less_than_divisor(i / 4, w);
    vstd::arithmetic::div_mod::lemma_div_pos_is_pos(i, 4);
    vstd::arithmetic::div_mod::lemma_div_pos_is_pos(i / 4, w);
}

/// The byte index of a channel of an in-image pixel is in range, and maps
/// back to that pixel and channel.
proof fn lemma_px_idx_bounds(w: int, h: int, x: int, y: int, c: int)
    requires
        1 <= w,
        1 <= h,
        0 <= x < w,
        0 <= y < h,
        0 <= c < 4,
    ensures
        0 <= px_idx(w, x, y, c),
        px_idx(w, x, y, c) < 4 * w * h,
        px_of(w, px_idx(w, x, y, c)) == x,
        py_of(w, px_idx(w, x, y, c)) == y,
        px_idx(w, x, y, c) % 4 == c,
{
    let i = px_idx(w, x, y, c);
    assert(0 <= 4 * (y * w + x) + c < 4 * w * h) by (nonlinear_arith)
        requires
            0 <= x < w && 0 <= y < h && 0 <= c < 4,
    ;
    lemma_fundamental_div_mod_converse_div(i, 4, y * w + x, c);
    lemma_fundamental_div_mod_converse_mod(i, 4, y * w + x, c);
    lemma_fundamental_div_mod_converse_div(y * w + x, w, y, x);
    lemma_fundamental_div_mod_converse_mod(y * w + x, w, y, x);
}

/// An image not strictly wider and taller than the stride yields an empty
/// anchor grid.
pub proof fn lemma_empty_grid(w: int, h: int, s: int)
    requires
        1 <= w,
        1 <= h,
        1 <= s,
        s >= w || s >= h,
    ensures
        grid_seq(w, h, s).len() == 0,
{
    if s >= w {
        vstd::arithmetic::div_mod::lemma_basic_div(w - 1, s);
    } else {
        vstd::arithmetic::div_mod::lemma_basic_div(h - 1, s);
    }
}

/// A skipped anchor (too close to the left or top edge for a symmetric
/// block, or touching the last column or row) leaves the buffer
/// byte-identical.
pub proof fn lemma_boundary_skip(data: Seq<u8>, w: int, h: int, x: int, y: int, s: int)
    requires
        skip_anchor(w, h, x, y, s),
    ensures
        blended(data, w, h, x, y, s) == data,
{
}

proof fn lemma_col_sum_uniform(data: Seq<u8>, w: int, x: int, y1: int, y2: int, c: int, v: u8)
    requires
        y1 <= y2,
        forall|yy: int| y1 <= yy < y2 ==> data[px_idx(w, x, yy, c)] == v,
    ensures
        col_sum(data, w, x, y1, y2, c) == (y2 - y1) * v,
    decreases y2 - y1,
{
    if y2 <= y1 {
        assert((y2 - y1) * v == 0) by (nonlinear_arith)
            requires
                y2 - y1 == 0,
        ;
    } else {
        lemma_col_sum_uniform(data, w, x, y1, y2 - 1, c, v);
        assert((y2 - 1 - y1) * v + v == (y2 - y1) * v) by (nonlinear_arith);
    }
}

proof fn lemma_block_sum_uniform(
    data: Seq<u8>,
    w: int,
    x1: int,
    x2: int,
    y1: int,
    y2: int,
    c: int,
    v: u8,
)
    requires
        x1 <= x2,
        y1 <= y2,
        forall|xx: int, yy: int|
            x1 <= xx < x2 && y1 <= yy < y2 ==> data[px_idx(w, xx, yy, c)] == v,
    ensures
        block_sum(data, w, x1, x2, y1, y2, c) == ((x2 - x1) * (y2 - y1)) * v,
    decreases x2 - x1,
{
    if x2 <= x1 {
        assert(((x2 - x1) * (y2 - y1)) * v == 0) by (nonlinear_arith)
            requires
                x2 - x1 == 0,
        ;
    } else {
        lemma_block_sum_uniform(data, w, x1, x2 - 1, y1, y2, c, v);
        lemma_col_sum_uniform(data, w, x2 - 1, y1, y2, c, v);
        assert((((x2 - 1) - x1) * (y2 - y1)) * v + (y2 - y1) * v == ((x2 - x1) * (y2 - y1))
            * v) by (nonlinear_arith);
    }
}

/// Averaging a uniform region is exact: where a channel is `v` on every
/// pixel of a non-empty block, the truncated mean of that channel is `v`
/// itself, so blending writes the original color back.
pub proof fn lemma_uniform_block_mean(
    data: Seq<u8>,
    w: int,
    x1: int,
    x2: int,
    y1: int,
    y2: int,
    c: int,
    v: u8,
)
    requires
        x1 < x2,
        y1 < y2,
        forall|xx: int, yy: int|
            x1 <= xx < x2 && y1 <= yy < y2 ==> data[px_idx(w, xx, yy, c)] == v,
    ensures
        mean_chan(data, w, x1, x2, y1, y2, c) == v,
{
    lemma_block_sum_uniform(data, w, x1, x2, y1, y2, c, v);
    let n = block_n(x1, x2, y1, y2);
    assert(n >= 1) by (nonlinear_arith)
        requires
            x1 < x2 && y1 < y2 && n == (x2 - x1) * (y2 - y1),
    ;
    lemma_mul_is_commutative(n, v as int);
    vstd::arithmetic::div_mod::lemma_div_multiples_vanish(v as int, n);
}

/// Every anchor the grid generator produces is a multiple of the stride, at
/// least one stride from the left and top edges, and strictly inside the
/// image extent.
pub proof fn lemma_grid_anchors_valid(w: int, h: int, s: int, i: int)
    requires
        1 <= s,
        w <= u32::MAX,
        h <= u32::MAX,
        0 <= i < grid_seq(w, h, s).len(),
    ensures
        grid_seq(w, h, s)[i].0 as int % s == 0,
        s <= grid_seq(w, h, s)[i].0 < w,
        grid_seq(w, h, s)[i].1 as int % s == 0,
        s <= grid_seq(w, h, s)[i].1 < h,
{
    let nx = grid_count(w, s);
    let ny = grid_count(h, s);
    let q = i / ny;
    let rr = i % ny;
    vstd::arithmetic::div_mod::lemma_mod_division_less_than_divisor(i, ny);
    vstd::arithmetic::div_mod::lemma_div_pos_is_pos(i, ny);
    lemma_mul_is_commutative(nx, ny);
    lemma_multiply_divide_lt(i, ny, nx);
    vstd::arithmetic::mul::lemma_mul_inequality(q + 1, nx, s);
    vstd::arithmetic::div_mod::lemma_fundamental_div_mod(w - 1, s);
    vstd::arithmetic::div_mod::lemma_mod_division_less_than_divisor(w - 1, s);
    lemma_mul_is_commutative(nx, s);
    assert((q + 1) * s <= w - 1);
    vstd::arithmetic::mul::lemma_mul_inequality(1, q + 1, s);
    vstd::arithmetic::div_mod::lemma_mod_multiples_basic(q + 1, s);
    vstd::arithmetic::mul::lemma_mul_inequality(rr + 1, ny, s);
    vstd::arithmetic::div_mod::lemma_fundamental_div_mod(h - 1, s);
    vstd::arithmetic::div_mod::lemma_mod_division_less_than_divisor(h - 1, s);
    lemma_mul_is_commutative(ny, s);
    assert((rr + 1) * s <= h - 1);
    vstd::arithmetic::mul::lemma_mul_inequality(1, rr + 1, s);
    vstd::arithmetic::div_mod::lemma_mod_multiples_basic(rr + 1, s);
}

/// Conversely, every multiple of the stride that is at least one stride from
/// the left and top edges and strictly inside the image appears in the grid,
/// at its row-major position.
pub proof fn lemma_grid_complete(w: int, h: int, s: int, x: int, y: int)
    requires
        1 <= s,
        x % s == 0,
        s <= x < w,
        y % s == 0,
        s <= y < h,
    ensures
        ({
            let i = (x / s - 1) * grid_count(h, s) + (y / s - 1);
            0 <= i < grid_seq(w, h, s).len() && grid_seq(w, h, s)[i] == (x as u32, y as u32)
        }),
{
    let nx = grid_count(w, s);
    let ny = grid_count(h, s);
    let k = x / s;
    let j = y / s;
    vstd::arithmetic::div_mod::lemma_fundamental_div_mod(x, s);
    vstd::arithmetic::div_mod::lemma_fundamental_div_mod(y, s);
    vstd::arithmetic::div_mod::lemma_div_is_ordered(s, x, s);
    vstd::arithmetic::div_mod::lemma_div_by_self(s);
    vstd::arithmetic::div_mod::lemma_div_is_ordered(x, w - 1, s);
    vstd::arithmetic::div_mod::lemma_div_is_ordered(s, y, s);
    vstd::arithmetic::div_mod::lemma_div_is_ordered(y, h - 1, s);
    assert(1 <= k <= nx && 1 <= j <= ny);
    let i = (k - 1) * ny + (j - 1);
    assert(0 <= (k - 1) * ny) by (nonlinear_arith)
        requires
            0 <= k - 1 && 0 <= ny,
    ;
    assert(i < nx * ny) by (nonlinear_arith)
        requires
            k <= nx && 1 <= j <= ny && 1 <= k && i == (k - 1) * ny + (j - 1),
    ;
    lemma_fundamental_div_mod_converse_div(i, ny, k - 1, j - 1);
    lemma_fundamental_div_mod_converse_mod(i, ny, k - 1, j - 1);
    lemma_mul_is_commutative(s, k);
    lemma_mul_is_commutative(s, j);
}

/// The box-blur pixelation filter.
pub struct BoxBlur;

impl BoxBlur {
    /// Overwrites the square block around `anchor` with the block's mean
    /// color, channel by channel, truncating each mean toward zero.
    ///
    /// Anchors too close to the left or top edge for a symmetric block, or
    /// touching the last column or row, are skipped and leave the buffer
    /// byte-identical; so does a block whose bounds collapse to an empty
    /// range. The image dimensions are always preserved.
    #[verifier::loop_isolation(false)]
    pub fn blend_rectangle(img: &mut ImageBuf, anchor: (u32, u32), s: u32)
        requires
            old(img).wf(),
        ensures
            final(img).wf(),
            final(img).spec_width() == old(img).spec_width(),
            final(img).spec_height() == old(img).spec_height(),
            final(img)@ == blended(
                old(img)@,
                old(img).spec_width() as int,
                old(img).spec_height() as int,
                anchor.0 as int,
                anchor.1 as int,
                s as int,
            ),
    {
        let (x, y) = anchor;
        let w = img.width();
        let h = img.height();
        let half = s / 2;
        if x < half || y < half {
            return;
        }
        if x as u64 + 1 == w as u64 || y as u64 + 1 == h as u64 {
            return;
        }
        let ghost data0 = img@;
        let ghost wi = w as int;
        let ghost hi = h as int;
        let w64: u64 = w as u64;
        let h64: u64 = h as u64;
        let s64: u64 = s as u64;
        let x1: u64 = (x - half) as u64;
        let y1: u64 = (y - half) as u64;
        let x2: u64 = if x1 + s64 < w64 {
            x1 + s64
        } else {
            w64
        };
        let y2: u64 = if y1 + s64 < h64 {
            y1 + s64
        } else {
            h64
        };
        if x2 <= x1 || y2 <= y1 {
            return;
        }
        let len = img.len();
        assert(len == 4 * wi * hi);

        // First pass: accumulate the channel sums over the block.
        let mut r_sum: u128 = 0;
        let mut g_sum: u128 = 0;
        let mut b_sum: u128 = 0;
        let mut o_sum: u128 = 0;
        let mut xi: u64 = x1;
        while xi < x2
            invariant
                x1 <= xi <= x2,
                r_sum == block_sum(data0, wi, x1 as int, xi as int, y1 as int, y2 as int, 0),
                g_sum == block_sum(data0, wi, x1 as int, xi as int, y1 as int, y2 as int, 1),
                b_sum == block_sum(data0, wi, x1 as int, xi as int, y1 as int, y2 as int, 2),
                o_sum == block_sum(data0, wi, x1 as int, xi as int, y1 as int, y2 as int, 3),
            decreases x2 - xi,
        {
            let mut yi: u64 = y1;
            while yi < y2
                invariant
                    x1 <= xi < x2,
                    y1 <= yi <= y2,
                    r_sum == block_sum(data0, wi, x1 as int, xi as int, y1 as int, y2 as int, 0)
                        + col_sum(data0, wi, xi as int, y1 as int, yi as int, 0),
                    g_sum == block_sum(data0, wi, x1 as int, xi as int, y1 as int, y2 as int, 1)
                        + col_sum(data0, wi, xi as int, y1 as int, yi as int, 1),
                    b_sum == block_sum(data0, wi, x1 as int, xi as int, y1 as int, y2 as int, 2)
                        + col_sum(data0, wi, xi as int, y1 as int, yi as int, 2),
                    o_sum == block_sum(data0, wi, x1 as int, xi as int, y1 as int, y2 as int, 3)
                        + col_sum(data0, wi, xi as int, y1 as int, yi as int, 3),
                decreases y2 - yi,
            {
                proof {
                    assert(yi * w64 + xi < w64 * h64) by (nonlinear_arith)
                        requires
                            0 <= xi < w64 && 0 <= yi < h64,
                    ;
                    assert(w64 * h64 == wi * hi);
                    lemma_px_idx_bounds(wi, hi, xi as int, yi as int, 0);
                    lemma_px_idx_bounds(wi, hi, xi as int, yi as int, 3);
                    assert((xi - x1) * (y2 - y1) < 0x1_0000_0000_0000_0000) by (nonlinear_arith)
                        requires
                            0 <= xi - x1 < 0x1_0000_0000 && 0 <= y2 - y1 <= 0x1_0000_0000,
                    ;
                    lemma_block_sum_bound(data0, wi, x1 as int, xi as int, y1 as int, y2 as int, 0);
                    lemma_block_sum_bound(data0, wi, x1 as int, xi as int, y1 as int, y2 as int, 1);
                    lemma_block_sum_bound(data0, wi, x1 as int, xi as int, y1 as int, y2 as int, 2);
                    lemma_block_sum_bound(data0, wi, x1 as int, xi as int, y1 as int, y2 as int, 3);
                    lemma_col_sum_bound(data0, wi, xi as int, y1 as int, yi as int, 0);
                    lemma_col_sum_bound(data0, wi, xi as int, y1 as int, yi as int, 1);
                    lemma_col_sum_bound(data0, wi, xi as int, y1 as int, yi as int, 2);
                    lemma_col_sum_bound(data0, wi, xi as int, y1 as int, yi as int, 3);
                }
                let idx64: u64 = 4 * (yi * w64 + xi);
                let idx: usize = idx64 as usize;
                r_sum = r_sum + img.byte_at(idx) as u128;
                g_sum = g_sum + img.byte_at(idx + 1) as u128;
                b_sum = b_sum + img.byte_at(idx + 2) as u128;
                o_sum = o_sum + img.byte_at(idx + 3) as u128;
                yi = yi + 1;
            }
            xi = xi + 1;
        }

        // The block is non-empty, so each channel mean is a channel value.
        proof {
            assert(0 < (x2 - x1) * (y2 - y1) < 0x1_0000_0000_0000_0000) by (nonlinear_arith)
                requires
                    0 < x2 - x1 < 0x1_0000_0000 && 0 < y2 - y1 <= 0x1_0000_0000,
            ;
        }
        let n64: u64 = (x2 - x1) * (y2 - y1);
        proof {
            lemma_mean_bound(data0, wi, x1 as int, x2 as int, y1 as int, y2 as int, 0);
            lemma_mean_bound(data0, wi, x1 as int, x2 as int, y1 as int, y2 as int, 1);
            lemma_mean_bound(data0, wi, x1 as int, x2 as int, y1 as int, y2 as int, 2);
            lemma_mean_bound(data0, wi, x1 as int, x2 as int, y1 as int, y2 as int, 3);
        }
        let n128: u128 = n64 as u128;
        let mr: u8 = (r_sum / n128) as u8;
        let mg: u8 = (g_sum / n128) as u8;
        let mb: u8 = (b_sum / n128) as u8;
        let mo: u8 = (o_sum / n128) as u8;
        assert(mr == mean_chan(data0, wi, x1 as int, x2 as int, y1 as int, y2 as int, 0));
        assert(mg == mean_chan(data0, wi, x1 as int, x2 as int, y1 as int, y2 as int, 1));
        assert(mb == mean_chan(data0, wi, x1 as int, x2 as int, y1 as int, y2 as int, 2));
        assert(mo == mean_chan(data0, wi, x1 as int, x2 as int, y1 as int, y2 as int, 3));

        // Second pass: write the mean color back over the whole block.
        let mut xi: u64 = x1;
        while xi < x2
            invariant
                x1 <= xi <= x2,
                img.wf(),
                img.spec_width() == old(img).spec_width(),
                img.spec_height() == old(img).spec_height(),
                img@.len() == data0.len(),
                forall|i: int|
                    0 <= i < img@.len() ==> img@[i] == (if x1 <= px_of(wi, i) < xi && y1 <= py_of(
                        wi,
                        i,
                    ) < y2 {
                        mean_chan(
                            data0,
                            wi,
                            x1 as int,
                            x2 as int,
                            y1 as int,
                            y2 as int,
                            i % 4,
                        ) as u8
                    } else {
                        data0[i]
                    }),
            decreases x2 - xi,
        {
            let mut yi: u64 = y1;
            while yi < y2
                invariant
                    x1 <= xi < x2,
                    y1 <= yi <= y2,
                    img.wf(),
                    img.spec_width() == old(img).spec_width(),
                    img.spec_height() == old(img).spec_height(),
                    img@.len() == data0.len(),
                    forall|i: int|
                        0 <= i < img@.len() ==> img@[i] == (if (x1 <= px_of(wi, i) < xi && y1
                            <= py_of(wi, i) < y2) || (px_of(wi, i) == xi && y1 <= py_of(wi, i)
                            < yi) {
                            mean_chan(
                                data0,
                                wi,
                                x1 as int,
                                x2 as int,
                                y1 as int,
                                y2 as int,
                                i % 4,
                            ) as u8
                        } else {
                            data0[i]
                        }),
                decreases y2 - yi,
            {
                proof {
                    assert(yi * w64 + xi < w64 * h64) by (nonlinear_arith)
                        requires
                            0 <= xi < w64 && 0 <= yi < h64,
                    ;
                    assert(w64 * h64 == wi * hi);
                    lemma_px_idx_bounds(wi, hi, xi as int, yi as int, 0);
                    lemma_px_idx_bounds(wi, hi, xi as int, yi as int, 1);
                    lemma_px_idx_bounds(wi, hi, xi as int, yi as int, 2);
                    lemma_px_idx_bounds(wi, hi, xi as int, yi as int, 3);
                }
                let idx64: u64 = 4 * (yi * w64 + xi);
                let idx: usize = idx64 as usize;
                img.set_byte(idx, mr);
                img.set_byte(idx + 1, mg);
                img.set_byte(idx + 2, mb);
                img.set_byte(idx + 3, mo);
                proof {
                    assert forall|i: int|
                        0 <= i < img@.len() implies img@[i] == (if (x1 <= px_of(wi, i) < xi && y1
                        <= py_of(wi, i) < y2) || (px_of(wi, i) == xi && y1 <= py_of(wi, i) < yi
                        + 1) {
                        mean_chan(
                            data0,
                            wi,
                            x1 as int,
                            x2 as int,
                            y1 as int,
                            y2 as int,
                            i % 4,
                        ) as u8
                    } else {
                        data0[i]
                    }) by {
                        lemma_idx_decomp(wi, i);
                        if px_of(wi, i) == xi && py_of(wi, i) == yi {
                            assert(i == px_idx(wi, xi as int, yi as int, i % 4));
                        }
                    }
                }
                yi = yi + 1;
            }
            xi = xi + 1;
        }
        proof {
            let b = blended(data0, wi, hi, x as int, y as int, s as int);
            assert forall|i: int| 0 <= i < img@.len() implies img@[i] == b[i] by {}
            assert(img@ =~= b);
        }
    }

    /// Validates a scale factor against the image dimensions, returning the
    /// first failed check in validation order, or `Ok` exactly when the scale
    /// passes every check.
    pub fn validate_scale(w: u32, h: u32, s: u32) -> (r: Result<(), ScaleIssue>)
        ensures
            r is Ok <==> scale_ok(w as int, h as int, s as int),
            r matches Err(e) ==> e == scale_issue_of(w as int, h as int, s as int),
    {
        if s >= w || s >= h {
            Err(ScaleIssue::LargerThanImage)
        } else if s <= 1 {
            Err(ScaleIssue::TooSmall)
        } else if s > w / 2 || s > h / 2 || w % s != 0 || h % s != 0 {
            Err(ScaleIssue::Uneven)
        } else {
            Ok(())
        }
    }

    /// Validates the scale and, where it passes, blends every anchor of the
    /// grid in grid order, mutating the image in place. A rejected scale
    /// leaves the image byte-identical. The image dimensions are preserved
    /// either way.
    #[verifier::loop_isolation(false)]
    pub fn pixelate(img: &mut ImageBuf, scale: u32) -> (r: Result<(), ScaleIssue>)
        requires
            old(img).wf(),
        ensures
            final(img).wf(),
            final(img).spec_width() == old(img).spec_width(),
            final(img).spec_height() == old(img).spec_height(),
            match r {
                Ok(()) => scale_ok(
                    old(img).spec_width() as int,
                    old(img).spec_height() as int,
                    scale as int,
                ) && final(img)@ == filter_spec(
                    old(img)@,
                    old(img).spec_width() as int,
                    old(img).spec_height() as int,
                    scale as int,
                ),
                Err(e) => !scale_ok(
                    old(img).spec_width() as int,
                    old(img).spec_height() as int,
                    scale as int,
                ) && e == scale_issue_of(
                    old(img).spec_width() as int,
                    old(img).spec_height() as int,
                    scale as int,
                ) && final(img)@ == old(img)@,
            },
    {
        let w = img.width();
        let h = img.height();
        if let Err(e) = Self::validate_scale(w, h, scale) {
            return Err(e);
        }
        let ghost wi = w as int;
        let ghost hi = h as int;
        let ghost si = scale as int;
        let ghost data0 = img@;
        let grid = Self::uniform_grid(w, h, scale);
        let mut k: usize = 0;
        while k < grid.len()
            invariant
                k <= grid.len(),
                img.wf(),
                img.spec_width() == old(img).spec_width(),
                img.spec_height() == old(img).spec_height(),
                img@ == apply_anchors(data0, wi, hi, si, grid@.take(k as int)),
            decreases grid.len() - k,
        {
            let a = grid[k];
            Self::blend_rectangle(img, a, scale);
            proof {
                assert(grid@.take(k as int + 1).drop_last() =~= grid@.take(k as int));
                assert(grid@.take(k as int + 1).last() == grid@[k as int]);
            }
            k = k + 1;
        }
        proof {
            assert(grid@.take(grid@.len() as int) =~= grid@);
        }
        Ok(())
    }

    /// Decodes the input bytes, validates the scale, and pixelates the
    /// decoded image, surfacing a decode failure or the first failed
    /// validation check; on success the result has the decoded image's
    /// dimensions and the fully filtered contents.
    pub fn run(buf: &[u8], scale: u32) -> (r: Result<ImageBuf, RunError>)
        ensures
            r matches Err(RunError::Decode(_)) <==> decode_of(buf@) is None,
            decode_of(buf@) matches Some(t) ==> ({
                let ok = scale_ok(t.0 as int, t.1 as int, scale as int);
                &&& ok ==> (r matches Ok(img) && img.wf() && img.spec_width() == t.0
                    && img.spec_height() == t.1 && img@ == filter_spec(
                    t.2,
                    t.0 as int,
                    t.1 as int,
                    scale as int,
                ))
                &&& !ok ==> (r matches Err(RunError::InvalidScale(e)) && e == scale_issue_of(
                    t.0 as int,
                    t.1 as int,
                    scale as int,
                ))
            }),
    {
        let mut img = match decode_rgba(buf) {
            Ok(img) => img,
            Err(e) => {
                return Err(RunError::Decode(e));
            },
        };
        match Self::pixelate(&mut img, scale) {
            Ok(()) => Ok(img),
            Err(e) => Err(RunError::InvalidScale(e)),
        }
    }

    /// Produces the anchor grid for a `w` by `h` image with stride `s`.
    ///
    /// The result is a pure function of `(w, h, s)` alone, so the grid is
    /// deterministic: two calls on the same arguments yield the same ordered
    /// sequence.
    pub fn uniform_grid(w: u32, h: u32, s: u32) -> (r: Vec<(u32, u32)>)
        requires
            1 <= w,
            1 <= h,
            1 <= s,
        ensures
            r@ == grid_seq(w as int, h as int, s as int),
    {
        let ghost nx: int = grid_count(w as int, s as int);
        let ghost ny: int = grid_count(h as int, s as int);
        let w64: u64 = w as u64;
        let h64: u64 = h as u64;
        let s64: u64 = s as u64;
        let mut out: Vec<(u32, u32)> = Vec::new();
        let mut x: u64 = s64;
        let ghost mut kx: int = 1;
        while x < w64
            invariant
                1 <= w && 1 <= h && 1 <= s,
                w64 == w && h64 == h && s64 == s,
                nx == grid_count(w as int, s as int),
                ny == grid_count(h as int, s as int),
                1 <= kx,
                x == kx * s,
                (kx - 1) * s <= w - 1,
                out@.len() == (kx - 1) * ny,
                forall|i: int| 0 <= i < out@.len()
                    ==> out@[i] == (((i / ny + 1) * s) as u32, ((i % ny + 1) * s) as u32),
            decreases w64 + s64 - x,
        {
            let mut y: u64 = s64;
            let ghost mut ky: int = 1;
            while y < h64
                invariant
                    1 <= w && 1 <= h && 1 <= s,
                    w64 == w && h64 == h && s64 == s,
                    nx == grid_count(w as int, s as int),
                    ny == grid_count(h as int, s as int),
                    1 <= kx,
                    x == kx * s,
                    x < w,
                    1 <= ky,
                    y == ky * s,
                    (ky - 1) * s <= h - 1,
                    out@.len() == (kx - 1) * ny + (ky - 1),
                    forall|i: int| 0 <= i < out@.len()
                        ==> out@[i] == (((i / ny + 1) * s) as u32, ((i % ny + 1) * s) as u32),
                decreases h64 + s64 - y,
            {
                proof {
                    // The index about to be written decomposes as kx - 1
                    // columns of ny anchors plus ky - 1 anchors: recover the
                    // column and row from it by the division converse.
                    let i = (kx - 1) * ny + (ky - 1);
                    lemma_div_by_multiple(ky, s as int);
                    vstd::arithmetic::div_mod::lemma_div_is_ordered(
                        (ky * s) as int,
                        (h - 1) as int,
                        s as int,
                    );
                    assert(ky - 1 < ny);
                    lemma_fundamental_div_mod_converse_div(i, ny, kx - 1, ky - 1);
                    lemma_fundamental_div_mod_converse_mod(i, ny, kx - 1, ky - 1);
                }
                out.push((x as u32, y as u32));
                y = y + s64;
                proof {
                    ky = ky + 1;
                    assert((kx - 1) * ny + (ky - 1) == out@.len());
                    assert(y == ky * s) by (nonlinear_arith)
                        requires
                            y == (ky - 1) * s + s,
                    ;
                }
            }
            proof {
                // The inner loop ran ny times: ky - 1 == ny.
                assert(ky * s > h - 1);
                lemma_mul_is_commutative(ky, s as int);
                lemma_multiply_divide_lt(h - 1, s as int, ky);
                assert(ny < ky);
                lemma_div_by_multiple(ky - 1, s as int);
                vstd::arithmetic::div_mod::lemma_div_is_ordered(
                    ((ky - 1) * s) as int,
                    (h - 1) as int,
                    s as int,
                );
                assert(ky - 1 <= ny);
                assert(ky - 1 == ny);
                assert((kx - 1) * ny + ny == kx * ny) by (nonlinear_arith);
            }
            x = x + s64;
            proof {
                kx = kx + 1;
                assert(x == kx * s) by (nonlinear_arith)
                    requires
                        x == (kx - 1) * s + s,
                ;
            }
        }
        proof {
            // The outer loop ran nx times: kx - 1 == nx, so every anchor is
            // present and the vector matches the grid pointwise.
            assert(kx * s > w - 1);
            lemma_mul_is_commutative(kx, s as int);
            lemma_multiply_divide_lt(w - 1, s as int, kx);
            assert(nx < kx);
            lemma_div_by_multiple(kx - 1, s as int);
            vstd::arithmetic::div_mod::lemma_div_is_ordered(
                ((kx - 1) * s) as int,
                (w - 1) as int,
                s as int,
            );
            assert(kx - 1 == nx);
            if nx <= 0 || ny <= 0 {
                assert(nx * ny <= 0) by (nonlinear_arith)
                    requires
                        0 <= nx && 0 <= ny && (nx <= 0 || ny <= 0),
                ;
                assert(out@ =~= grid_seq(w as int, h as int, s as int));
            } else {
                assert(out@ =~= grid_seq(w as int, h as int, s as int));
            }
        }
        out
    }
}

} // verus!

