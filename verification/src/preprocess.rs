//! Frame geometry and the integer half of contrast-limited adaptive
//! histogram equalisation (CLAHE): tiling, per-tile histograms, clipping
//! with redistribution, and cumulative counts. Mapping counts to output
//! levels and blending between tiles is done in floating point by the
//! caller.
use vstd::prelude::*;
use crate::capture::IrFrame;

verus! {

/// Number of tiles along each side used by default.
pub const CLAHE_TILES: u32 = 8;

/// Histogram bins: one per 8-bit level.
pub const BINS: usize = 256;

/// A 16-bit greyscale image in row-major order: pixel `(x, y)` is
/// `pixels[y * width + x]`.
pub struct Luma16Image {
    pub width: u32,
    pub height: u32,
    pub pixels: Vec<u16>,
}

impl Luma16Image {
    /// `(width, height)`.
    pub fn dimensions(&self) -> (r: (u32, u32))
        ensures
            r == (self.width, self.height),
    {
        (self.width, self.height)
    }
}

/// Why a frame cannot be used as an image of its stated size.
#[derive(Debug, Clone, Copy, PartialEq, Eq, Structural)]
pub enum GeometryError {
    /// Width or height is zero.
    ZeroExtent,
    /// Fewer samples than `width * height`.
    TooShort { got: usize, expected: u64 },
}

/// Wrap a captured frame as an image of its stated size.
///
/// A frame shorter than `width * height` is refused rather than padded;
/// samples beyond `width * height` (padding some drivers report) are
/// dropped.
pub fn frame_to_luma16(frame: &IrFrame) -> (r: Result<Luma16Image, GeometryError>)
    ensures
        frame.width == 0 || frame.height == 0 ==> r == Err::<Luma16Image, GeometryError>(
            GeometryError::ZeroExtent,
        ),
        frame.width > 0 && frame.height > 0 && frame.data@.len() < frame.width * frame.height
            ==> r == Err::<Luma16Image, GeometryError>(
            GeometryError::TooShort {
                got: frame.data@.len() as usize,
                expected: (frame.width * frame.height) as u64,
            },
        ),
        frame.width > 0 && frame.height > 0 && frame.data@.len() >= frame.width * frame.height
            ==> (r matches Ok(img) && img.width == frame.width && img.height == frame.height
            && img.pixels@ == frame.data@.subrange(0, frame.width * frame.height)),
{
    let width = frame.width;
    let height = frame.height;
    if width == 0 || height == 0 {
        return Err(GeometryError::ZeroExtent);
    }
    proof {
        let w = width as int;
        let h = height as int;
        assert(w * h <= 0xffff_ffff * 0xffff_ffff) by (nonlinear_arith)
            requires
                0 <= w <= 0xffff_ffff,
                0 <= h <= 0xffff_ffff,
        ;
    }
    let expected: u64 = width as u64 * height as u64;
    if (frame.data.len() as u64) < expected {
        return Err(GeometryError::TooShort { got: frame.data.len(), expected });
    }
    let n = expected as usize;
    let mut pixels: Vec<u16> = Vec::new();
    let mut i: usize = 0;
    while i < n
        invariant
            i <= n <= frame.data@.len(),
            pixels@ == frame.data@.subrange(0, i as int),
        decreases n - i,
    {
        pixels.push(frame.data[i]);
        assert(pixels@ =~= frame.data@.subrange(0, i + 1));
        i += 1;
    }
    Ok(Luma16Image { width, height, pixels })
}

// ---------------------------------------------------------------------------
// Tiles
// ---------------------------------------------------------------------------
/// How a frame is divided into tiles: `tiles` by `tiles` tiles of
/// `tile_w` by `tile_h` pixels (the last row and column may be smaller).
pub struct ClaheGrid {
    pub width: usize,
    pub height: usize,
    pub tiles: usize,
    pub tile_w: usize,
    pub tile_h: usize,
}

pub open spec fn div_ceil(a: int, b: int) -> int {
    (a + b - 1) / b
}

/// Whether CLAHE applies to a frame: it is non-empty, has non-zero extent
/// and holds at least `width * height` samples.
pub open spec fn clahe_applies(frame: IrFrame) -> bool {
    &&& frame.data@.len() > 0
    &&& frame.width > 0 && frame.height > 0
    &&& frame.data@.len() >= frame.width * frame.height
}

/// The tiling of a frame for `tiles` tiles per side (at least one), or
/// `None` when the frame is left alone.
pub fn clahe_grid(frame: &IrFrame, tiles: u32) -> (r: Option<ClaheGrid>)
    ensures
        r is Some <==> clahe_applies(*frame),
        r matches Some(g) ==> {
            &&& g.width == frame.width && g.height == frame.height
            &&& g.tiles == (if tiles == 0 {
                1
            } else {
                tiles
            })
            &&& g.tile_w == div_ceil(g.width as int, g.tiles as int)
            &&& g.tile_h == div_ceil(g.height as int, g.tiles as int)
            &&& g.width * g.height <= frame.data@.len()
            &&& grid_ok(g)
        },
{
    if frame.data.len() == 0 || frame.width == 0 || frame.height == 0 {
        return None;
    }
    proof {
        let w = frame.width as int;
        let h = frame.height as int;
        assert(w * h <= 0xffff_ffff * 0xffff_ffff) by (nonlinear_arith)
            requires
                0 <= w <= 0xffff_ffff,
                0 <= h <= 0xffff_ffff,
        ;
    }
    if (frame.data.len() as u64) < frame.width as u64 * frame.height as u64 {
        return None;
    }
    let w = frame.width as usize;
    let h = frame.height as usize;
    let t: usize = if tiles == 0 {
        1
    } else {
        tiles as usize
    };
    let tile_w = (w - 1) / t + 1;
    let tile_h = (h - 1) / t + 1;
    proof {
        lemma_div_ceil(w as int, t as int);
        lemma_div_ceil(h as int, t as int);
    }
    Some(ClaheGrid { width: w, height: h, tiles: t, tile_w, tile_h })
}

proof fn lemma_div_ceil(a: int, b: int)
    requires
        a >= 1,
        b >= 1,
    ensures
        (a - 1) / b + 1 == div_ceil(a, b),
{
    assert((a - 1) / b + 1 == (a - 1 + b) / b) by (nonlinear_arith)
        requires
            a >= 1,
            b >= 1,
    {
        vstd::arithmetic::div_mod::lemma_div_plus_one(a - 1, b);
    }
}

/// Whether a grid is one that `clahe_grid` hands out.
pub open spec fn grid_ok(g: ClaheGrid) -> bool {
    &&& 1 <= g.width <= u32::MAX && 1 <= g.height <= u32::MAX
    &&& 1 <= g.tiles <= u32::MAX
    &&& g.tile_w == div_ceil(g.width as int, g.tiles as int)
    &&& g.tile_h == div_ceil(g.height as int, g.tiles as int)
}

pub open spec fn min_int(a: int, b: int) -> int {
    if a <= b {
        a
    } else {
        b
    }
}

/// The pixels of tile `(tx, ty)`: columns `x0..x1` and rows `y0..y1`,
/// where a tile starts at its index times the tile size and is cut off at
/// the frame's edge. `None` when that leaves nothing (with many tiles and a
/// small frame, the last tiles can start past the edge).
pub open spec fn tile_bounds_spec(g: ClaheGrid, tx: int, ty: int) -> Option<
    (usize, usize, usize, usize),
> {
    let x0 = tx * g.tile_w;
    let y0 = ty * g.tile_h;
    let x1 = min_int(x0 + g.tile_w, g.width as int);
    let y1 = min_int(y0 + g.tile_h, g.height as int);
    if x0 >= x1 || y0 >= y1 {
        None
    } else {
        Some((x0 as usize, x1 as usize, y0 as usize, y1 as usize))
    }
}

/// The pixel rectangle of one tile, `(x0, x1, y0, y1)`, or `None` for an
/// empty tile.
pub fn tile_bounds(g: &ClaheGrid, tx: usize, ty: usize) -> (r: Option<
    (usize, usize, usize, usize),
>)
    requires
        grid_ok(*g),
        tx < g.tiles,
        ty < g.tiles,
    ensures
        r == tile_bounds_spec(*g, tx as int, ty as int),
        r matches Some(b) ==> b.0 < b.1 <= g.width && b.2 < b.3 <= g.height,
{
    proof {
        lemma_div_ceil_le(g.width as int, g.tiles as int);
        lemma_div_ceil_le(g.height as int, g.tiles as int);
        let (a, b, c) = (tx as int, g.tiles as int, g.tile_w as int);
        assert(a * c <= b * c) by (nonlinear_arith)
            requires
                0 <= a < b,
                0 <= c,
        ;
        assert(b * c <= 0xffff_ffff * 0xffff_ffff) by (nonlinear_arith)
            requires
                0 <= b <= 0xffff_ffff,
                0 <= c <= 0xffff_ffff,
        ;
        let (d, e) = (ty as int, g.tile_h as int);
        assert(d * e <= b * e) by (nonlinear_arith)
            requires
                0 <= d < b,
                0 <= e,
        ;
        assert(b * e <= 0xffff_ffff * 0xffff_ffff) by (nonlinear_arith)
            requires
                0 <= b <= 0xffff_ffff,
                0 <= e <= 0xffff_ffff,
        ;
    }
    let x0: u64 = tx as u64 * g.tile_w as u64;
    let y0: u64 = ty as u64 * g.tile_h as u64;
    if x0 >= g.width as u64 || y0 >= g.height as u64 {
        return None;
    }
    let x0 = x0 as usize;
    let y0 = y0 as usize;
    let x1 = if g.tile_w <= g.width - x0 {
        x0 + g.tile_w
    } else {
        g.width
    };
    let y1 = if g.tile_h <= g.height - y0 {
        y0 + g.tile_h
    } else {
        g.height
    };
    Some((x0, x1, y0, y1))
}

proof fn lemma_div_ceil_le(a: int, b: int)
    requires
        a >= 1,
        b >= 1,
    ensures
        1 <= div_ceil(a, b) <= a,
{
    lemma_div_ceil(a, b);
    assert((a - 1) / b <= a - 1) by (nonlinear_arith)
        requires
            a >= 1,
            b >= 1,
    {
        vstd::arithmetic::div_mod::lemma_div_is_ordered_by_denominator(a - 1, 1, b);
    }
    assert((a - 1) / b >= 0) by (nonlinear_arith)
        requires
            a >= 1,
            b >= 1,
    ;
}

// ---------------------------------------------------------------------------
// Histograms
// ---------------------------------------------------------------------------
/// The 8-bit level of a sample (its high byte).
pub open spec fn level(v: u16) -> int {
    v as int / 256
}

/// How many of `data[row + x0 .. row + x1]` are at level `b`.
pub open spec fn count_row(data: Seq<u16>, row: int, x0: int, x1: int, b: int) -> nat
    decreases x1 - x0,
{
    if x1 <= x0 {
        0
    } else {
        count_row(data, row, x0, x1 - 1, b) + if level(data[row + x1 - 1]) == b {
            1nat
        } else {
            0nat
        }
    }
}

/// How many pixels of the rectangle `x0..x1` by `y0..y1` of a row-major
/// image of width `w` are at level `b`.
pub open spec fn count_rect(
    data: Seq<u16>,
    w: int,
    x0: int,
    x1: int,
    y0: int,
    y1: int,
    b: int,
) -> nat
    decreases y1 - y0,
{
    if y1 <= y0 {
        0
    } else {
        count_rect(data, w, x0, x1, y0, y1 - 1, b) + count_row(data, (y1 - 1) * w, x0, x1, b)
    }
}

/// The total of `s`.
pub open spec fn sum(s: Seq<u32>) -> int
    decreases s.len(),
{
    if s.len() == 0 {
        0
    } else {
        sum(s.drop_last()) + s.last()
    }
}

proof fn lemma_sum_update(s: Seq<u32>, i: int, v: u32)
    requires
        0 <= i < s.len(),
    ensures
        sum(s.update(i, v)) == sum(s) - s[i] + v,
    decreases s.len(),
{
    let t = s.update(i, v);
    if i == s.len() - 1 {
        assert(t.drop_last() =~= s.drop_last());
    } else {
        lemma_sum_update(s.drop_last(), i, v);
        assert(t.drop_last() =~= s.drop_last().update(i, v));
    }
}

proof fn lemma_sum_bounds(s: Seq<u32>, i: int)
    requires
        0 <= i < s.len(),
    ensures
        s[i] <= sum(s),
        sum(s) >= 0,
    decreases s.len(),
{
    lemma_sum_nonneg(s.drop_last());
    if i < s.len() - 1 {
        lemma_sum_bounds(s.drop_last(), i);
    }
}

proof fn lemma_sum_nonneg(s: Seq<u32>)
    ensures
        sum(s) >= 0,
    decreases s.len(),
{
    if s.len() > 0 {
        lemma_sum_nonneg(s.drop_last());
    }
}

/// The level histogram of one tile: bin `b` counts the pixels of
/// `x0..x1` by `y0..y1` whose high byte is `b`; the bins add up to the
/// number of pixels in the tile.
pub fn tile_histogram(data: &[u16], w: usize, x0: usize, x1: usize, y0: usize, y1: usize) -> (h:
    Vec<u32>)
    requires
        x0 <= x1 <= w,
        y0 <= y1,
        y1 * w <= data@.len(),
        (x1 - x0) * (y1 - y0) <= u32::MAX,
    ensures
        h@.len() == BINS,
        forall|b: int| 0 <= b < BINS ==> #[trigger] h@[b] == count_rect(
            data@,
            w as int,
            x0 as int,
            x1 as int,
            y0 as int,
            y1 as int,
            b,
        ),
        sum(h@) == (x1 - x0) * (y1 - y0),
{
    let mut hist: Vec<u32> = Vec::new();
    let mut b: usize = 0;
    while b < BINS
        invariant
            b <= BINS,
            hist@.len() == b,
            forall|k: int| 0 <= k < b ==> #[trigger] hist@[k] == 0,
            sum(hist@) == 0,
        decreases BINS - b,
    {
        let ghost before = hist@;
        hist.push(0);
        assert(hist@.drop_last() =~= before);
        b += 1;
    }
    let ghost total = (x1 - x0) * (y1 - y0);
    let n = data.len();
    let mut y = y0;
    let mut seen: u32 = 0;
    while y < y1
        invariant
            x0 <= x1 <= w,
            y0 <= y <= y1,
            y1 * w <= data@.len(),
            n == data@.len(),
            total == (x1 - x0) * (y1 - y0),
            total <= u32::MAX,
            hist@.len() == BINS,
            seen == (y - y0) * (x1 - x0),
            sum(hist@) == seen,
            forall|k: int| 0 <= k < BINS ==> #[trigger] hist@[k] == count_rect(
                data@,
                w as int,
                x0 as int,
                x1 as int,
                y0 as int,
                y as int,
                k,
            ),
        decreases y1 - y,
    {
        proof {
            assert((y + 1) * w <= y1 * w) by (nonlinear_arith)
                requires
                    y < y1,
            ;
            assert(y * w + w == (y + 1) * w) by (nonlinear_arith);
            assert(y * w <= y1 * w) by (nonlinear_arith)
                requires
                    y < y1,
            ;
        }
        let row = y * w;
        let mut x = x0;
        while x < x1
            invariant
                x0 <= x <= x1 <= w,
                y0 <= y < y1,
                row == y * w,
                row + w <= data@.len(),
                n == data@.len(),
                total == (x1 - x0) * (y1 - y0),
                total <= u32::MAX,
                hist@.len() == BINS,
                seen == (y - y0) * (x1 - x0) + (x - x0),
                sum(hist@) == seen,
                forall|k: int| 0 <= k < BINS ==> #[trigger] hist@[k] == count_rect(
                    data@,
                    w as int,
                    x0 as int,
                    x1 as int,
                    y0 as int,
                    y as int,
                    k,
                ) + count_row(data@, row as int, x0 as int, x as int, k),
            decreases x1 - x,
        {
            let v = data[row + x];
            let bin = (v / 256) as usize;
            proof {
                assert(seen + 1 <= total) by (nonlinear_arith)
                    requires
                        seen == (y - y0) * (x1 - x0) + (x - x0),
                        total == (x1 - x0) * (y1 - y0),
                        y0 <= y < y1,
                        x0 <= x < x1,
                ;
                lemma_sum_bounds(hist@, bin as int);
                lemma_sum_update(hist@, bin as int, (hist@[bin as int] + 1) as u32);
            }
            let ghost before = hist@;
            let c = hist[bin];
            hist.set(bin, c + 1);
            seen += 1;
            proof {
                assert forall|k: int| 0 <= k < BINS implies #[trigger] hist@[k] == count_rect(
                    data@,
                    w as int,
                    x0 as int,
                    x1 as int,
                    y0 as int,
                    y as int,
                    k,
                ) + count_row(data@, row as int, x0 as int, x + 1, k) by {
                    assert(count_row(data@, row as int, x0 as int, x + 1, k) == count_row(
                        data@,
                        row as int,
                        x0 as int,
                        x as int,
                        k,
                    ) + if level(data@[row + x]) == k {
                        1nat
                    } else {
                        0nat
                    });
                    if k != bin {
                        assert(hist@[k] == before[k]);
                    }
                }
            }
            x += 1;
        }
        proof {
            assert(seen == (y + 1 - y0) * (x1 - x0)) by (nonlinear_arith)
                requires
                    seen == (y - y0) * (x1 - x0) + (x1 - x0),
            ;
        }
        y += 1;
    }
    assert((y1 - y0) * (x1 - x0) == (x1 - x0) * (y1 - y0)) by (nonlinear_arith);
    hist
}

/// The total excess above `limit` over the bins of `s`.
pub open spec fn excess_over(s: Seq<u32>, limit: u32) -> int
    decreases s.len(),
{
    if s.len() == 0 {
        0
    } else {
        excess_over(s.drop_last(), limit) + if s.last() > limit {
            s.last() - limit
        } else {
            0
        }
    }
}

pub open spec fn min_u32(a: u32, b: u32) -> u32 {
    if a < b {
        a
    } else {
        b
    }
}

/// The histogram after clipping at `limit` and handing the clipped mass
/// back evenly: each bin is capped at `limit`, every bin then gets
/// `excess / 256`, and the first `excess % 256` bins one more.
pub open spec fn clipped(s: Seq<u32>, limit: u32) -> Seq<int> {
    let e = excess_over(s, limit);
    Seq::new(
        s.len(),
        |i: int|
            min_u32(s[i], limit) + e / 256 + if i < e % 256 {
                1int
            } else {
                0int
            },
    )
}

proof fn lemma_excess_le_sum(s: Seq<u32>, limit: u32)
    ensures
        0 <= excess_over(s, limit) <= sum(s),
    decreases s.len(),
{
    if s.len() > 0 {
        lemma_excess_le_sum(s.drop_last(), limit);
    }
}

/// The sum of the capped bins plus the excess is the unclipped sum.
proof fn lemma_capped_plus_excess(s: Seq<u32>, limit: u32)
    ensures
        sum(s.map_values(|v: u32| min_u32(v, limit))) + excess_over(s, limit) == sum(s),
    decreases s.len(),
{
    if s.len() > 0 {
        lemma_capped_plus_excess(s.drop_last(), limit);
        assert(s.map_values(|v: u32| min_u32(v, limit)).drop_last() =~= s.drop_last().map_values(
            |v: u32| min_u32(v, limit),
        ));
    }
}

/// Clip a histogram at `limit` and redistribute the excess.
pub fn clip_histogram(hist: &mut Vec<u32>, limit: u32)
    requires
        old(hist)@.len() == BINS,
        sum(old(hist)@) <= u32::MAX,
    ensures
        final(hist)@.len() == BINS,
        forall|i: int| 0 <= i < BINS ==> #[trigger] final(hist)@[i] == clipped(old(hist)@, limit)[i],
{
    let ghost orig = hist@;
    let mut excess: u32 = 0;
    let mut i: usize = 0;
    proof {
        lemma_excess_le_sum(orig, limit);
    }
    while i < BINS
        invariant
            i <= BINS,
            hist@.len() == BINS,
            orig.len() == BINS,
            sum(orig) <= u32::MAX,
            excess == excess_over(orig.subrange(0, i as int), limit),
            excess_over(orig.subrange(0, i as int), limit) <= sum(orig.subrange(0, i as int)),
            forall|k: int| 0 <= k < i ==> #[trigger] hist@[k] == min_u32(orig[k], limit),
            forall|k: int| i <= k < BINS ==> #[trigger] hist@[k] == orig[k],
        decreases BINS - i,
    {
        let b = hist[i];
        let ghost pre = orig.subrange(0, i as int);
        let ghost next = orig.subrange(0, i + 1);
        assert(next.drop_last() =~= pre);
        proof {
            lemma_excess_le_sum(next, limit);
            lemma_sum_prefix_le(orig, i + 1);
        }
        if b > limit {
            excess = excess + (b - limit);
            hist.set(i, limit);
        }
        i += 1;
    }
    assert(orig.subrange(0, BINS as int) =~= orig);
    let share = excess / 256;
    let mut remainder = excess % 256;
    let mut j: usize = 0;
    proof {
        lemma_excess_le_sum(orig, limit);
        lemma_capped_plus_excess(orig, limit);
    }
    while j < BINS
        invariant
            j <= BINS,
            hist@.len() == BINS,
            orig.len() == BINS,
            excess == excess_over(orig, limit),
            share == excess / 256,
            remainder == if j < excess % 256 {
                excess % 256 - j
            } else {
                0
            },
            sum(orig.map_values(|v: u32| min_u32(v, limit))) + excess == sum(orig),
            sum(orig) <= u32::MAX,
            forall|k: int| 0 <= k < j ==> #[trigger] hist@[k] == clipped(orig, limit)[k],
            forall|k: int| j <= k < BINS ==> #[trigger] hist@[k] == min_u32(orig[k], limit),
        decreases BINS - j,
    {
        proof {
            lemma_clipped_bound(orig, limit, j as int);
        }
        let mut v = hist[j] + share;
        if remainder > 0 {
            v = v + 1;
            remainder = remainder - 1;
        }
        hist.set(j, v);
        j += 1;
    }
}

proof fn lemma_sum_prefix_le(s: Seq<u32>, i: int)
    requires
        0 <= i <= s.len(),
    ensures
        sum(s.subrange(0, i)) <= sum(s),
    decreases s.len() - i,
{
    if i < s.len() {
        lemma_sum_prefix_le(s, i + 1);
        assert(s.subrange(0, i + 1).drop_last() =~= s.subrange(0, i));
    } else {
        assert(s.subrange(0, i) =~= s);
    }
}

proof fn lemma_sum_ge_elem_int(s: Seq<int>, i: int)
    requires
        0 <= i < s.len(),
        forall|k: int| 0 <= k < s.len() ==> #[trigger] s[k] >= 0,
    ensures
        s[i] <= sum_int(s),
    decreases s.len(),
{
    if i < s.len() - 1 {
        lemma_sum_ge_elem_int(s.drop_last(), i);
        lemma_sum_int_nonneg(s.drop_last());
    } else {
        lemma_sum_int_nonneg(s.drop_last());
    }
}

proof fn lemma_sum_int_nonneg(s: Seq<int>)
    requires
        forall|k: int| 0 <= k < s.len() ==> #[trigger] s[k] >= 0,
    ensures
        sum_int(s) >= 0,
    decreases s.len(),
{
    if s.len() > 0 {
        lemma_sum_int_nonneg(s.drop_last());
    }
}

/// The total of a sequence of integers.
pub open spec fn sum_int(s: Seq<int>) -> int
    decreases s.len(),
{
    if s.len() == 0 {
        0
    } else {
        sum_int(s.drop_last()) + s.last()
    }
}

/// Every bin after clipping fits in a `u32` when the unclipped total does.
proof fn lemma_clipped_bound(s: Seq<u32>, limit: u32, i: int)
    requires
        s.len() == BINS,
        0 <= i < BINS,
        sum(s) <= u32::MAX,
    ensures
        clipped(s, limit)[i] <= u32::MAX,
{
    lemma_clipping_conserves_mass(s, limit);
    let c = clipped(s, limit);
    assert forall|k: int| 0 <= k < c.len() implies #[trigger] c[k] >= 0 by {
        lemma_excess_le_sum(s, limit);
    }
    lemma_sum_ge_elem_int(c, i);
}

spec fn remainder_share(e: int, n: int) -> int
    decreases n,
{
    if n <= 0 {
        0
    } else {
        remainder_share(e, n - 1) + if n - 1 < e % 256 {
            1int
        } else {
            0int
        }
    }
}

proof fn lemma_remainder_share(e: int, n: int)
    requires
        e >= 0,
        0 <= n,
    ensures
        remainder_share(e, n) == if n < e % 256 {
            n
        } else {
            e % 256
        },
    decreases n,
{
    if n > 0 {
        lemma_remainder_share(e, n - 1);
    }
}

proof fn lemma_clipped_prefix_sum(s: Seq<u32>, limit: u32, n: int)
    requires
        0 <= n <= s.len(),
    ensures
        sum_int(clipped(s, limit).subrange(0, n)) == sum(
            s.subrange(0, n).map_values(|v: u32| min_u32(v, limit)),
        ) + n * (excess_over(s, limit) / 256) + remainder_share(excess_over(s, limit), n),
    decreases n,
{
    let e = excess_over(s, limit);
    if n > 0 {
        lemma_clipped_prefix_sum(s, limit, n - 1);
        assert(clipped(s, limit).subrange(0, n).drop_last() =~= clipped(s, limit).subrange(
            0,
            n - 1,
        ));
        assert(s.subrange(0, n).map_values(|v: u32| min_u32(v, limit)).drop_last()
            =~= s.subrange(0, n - 1).map_values(|v: u32| min_u32(v, limit)));
        assert(n * (e / 256) == (n - 1) * (e / 256) + e / 256) by (nonlinear_arith);
    } else {
        assert(clipped(s, limit).subrange(0, 0) =~= Seq::<int>::empty());
        assert(s.subrange(0, 0).map_values(|v: u32| min_u32(v, limit)) =~= Seq::<u32>::empty());
    }
}

/// Clipping moves counts between bins but never creates or loses any: the
/// clipped histogram has the same total as the unclipped one.
pub proof fn lemma_clipping_conserves_mass(s: Seq<u32>, limit: u32)
    requires
        s.len() == BINS,
    ensures
        sum_int(clipped(s, limit)) == sum(s),
{
    let e = excess_over(s, limit);
    lemma_excess_le_sum(s, limit);
    lemma_clipped_prefix_sum(s, limit, BINS as int);
    lemma_remainder_share(e, BINS as int);
    lemma_capped_plus_excess(s, limit);
    assert(clipped(s, limit).subrange(0, BINS as int) =~= clipped(s, limit));
    assert(s.subrange(0, BINS as int) =~= s);
    assert(256 * (e / 256) + e % 256 == e) by (nonlinear_arith)
        requires
            e >= 0,
    ;
}

/// Running totals: entry `i` is the sum of bins `0..=i`.
pub open spec fn cumulative(s: Seq<u32>, i: int) -> int {
    sum(s.subrange(0, i + 1))
}

/// The running totals of a histogram; the last one is the histogram's
/// total.
pub fn cumulative_counts(hist: &[u32]) -> (c: Vec<u32>)
    requires
        sum(hist@) <= u32::MAX,
    ensures
        c@.len() == hist@.len(),
        forall|i: int| 0 <= i < hist@.len() ==> #[trigger] c@[i] == cumulative(hist@, i),
        hist@.len() > 0 ==> c@[hist@.len() - 1] == sum(hist@),
{
    let mut c: Vec<u32> = Vec::new();
    let mut acc: u32 = 0;
    let mut i: usize = 0;
    while i < hist.len()
        invariant
            i <= hist@.len(),
            sum(hist@) <= u32::MAX,
            c@.len() == i,
            acc == sum(hist@.subrange(0, i as int)),
            forall|k: int| 0 <= k < i ==> #[trigger] c@[k] == cumulative(hist@, k),
        decreases hist@.len() - i,
    {
        proof {
            lemma_sum_prefix_le(hist@, i + 1);
            assert(hist@.subrange(0, i + 1).drop_last() =~= hist@.subrange(0, i as int));
        }
        acc = acc + hist[i];
        c.push(acc);
        i += 1;
    }
    proof {
        assert(hist@.subrange(0, hist@.len() as int) =~= hist@);
    }
    c
}

} // verus!
