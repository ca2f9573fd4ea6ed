//! The merged mosaic: where each source grid lands in the output raster, in which
//! order the sources are laid down, and how the output is assembled tile by tile
//! while the sources stream in.
//!
//! Every source grid has the same shape `src_w` x `src_h` and sits at a pixel
//! offset `(col_off, row_off)` of the mosaic. The mosaic is written in square
//! tiles of `TIFF_TILE_W` x `TIFF_TILE_H` pixels; a tile is handed out as soon as
//! the last source that reaches it has been laid down. Where sources overlap, the
//! one laid down later wins; pixels that no source covers keep the fill value.
use std::collections::HashMap;
use vstd::prelude::*;

verus! {

broadcast use vstd::std_specs::hash::group_hash_axioms;

/// The width of an output tile, in pixels.
pub const TIFF_TILE_W: usize = 256;

/// The height of an output tile, in pixels.
pub const TIFF_TILE_H: usize = 256;

/// The number of pixels of an output tile.
pub const TILE_LEN: usize = TIFF_TILE_W * TIFF_TILE_H;

/// The first and last tile column and row that a source at `(col_off, row_off)`
/// of shape `w` x `h` reaches: `(first col, last col, first row, last row)`.
pub open spec fn tile_span(p: (usize, usize), w: usize, h: usize) -> (int, int, int, int) {
    (
        p.0 as int / TIFF_TILE_W as int,
        (p.0 + w - 1) / TIFF_TILE_W as int,
        p.1 as int / TIFF_TILE_H as int,
        (p.1 + h - 1) / TIFF_TILE_H as int,
    )
}

/// Whether the source at `p` of shape `w` x `h` reaches tile column `tc`, row `tr`.
pub open spec fn touches(p: (usize, usize), w: usize, h: usize, tc: int, tr: int) -> bool {
    let s = tile_span(p, w, h);
    s.0 <= tc <= s.1 && s.2 <= tr <= s.3
}

/// Whether the source at `p` of shape `w` x `h` covers mosaic pixel `(x, y)`.
pub open spec fn covers(p: (usize, usize), w: usize, h: usize, x: int, y: int) -> bool {
    p.0 <= x < p.0 + w && p.1 <= y < p.1 + h
}

/// The value that the source at `p` of width `w`, with values `vals` in row-major
/// order, gives mosaic pixel `(x, y)`.
pub open spec fn source_value<T>(p: (usize, usize), w: usize, vals: Seq<T>, x: int, y: int) -> T {
    vals[(y - p.1) * w + (x - p.0)]
}

/// The mosaic column of pixel `i` of tile column `tc`.
pub open spec fn pixel_x(tc: int, i: int) -> int {
    tc * TIFF_TILE_W as int + i % TIFF_TILE_W as int
}

/// The mosaic row of pixel `i` of tile row `tr`.
pub open spec fn pixel_y(tr: int, i: int) -> int {
    tr * TIFF_TILE_H as int + i / TIFF_TILE_W as int
}

/// Whether the placement `p` of a `w` x `h` source lies where the tile arithmetic
/// of the mosaic stays within `usize`, and every tile it reaches starts inside a
/// mosaic of `width` x `height` pixels.
pub open spec fn placement_fits(
    p: (usize, usize),
    w: usize,
    h: usize,
    width: usize,
    height: usize,
) -> bool {
    let s = tile_span(p, w, h);
    &&& p.0 + w <= usize::MAX
    &&& p.1 + h <= usize::MAX
    &&& s.1 * TIFF_TILE_W as int + TIFF_TILE_W as int <= usize::MAX
    &&& s.3 * TIFF_TILE_H as int + TIFF_TILE_H as int <= usize::MAX
    &&& s.1 * TIFF_TILE_W as int <= width
    &&& s.3 * TIFF_TILE_H as int <= height
}

/// Pixel `i` of a tile sits at row `i / TIFF_TILE_W`, column `i % TIFF_TILE_W`.
pub proof fn lemma_tile_pixel(r: int, c: int)
    requires
        0 <= r,
        0 <= c < TIFF_TILE_W,
    ensures
        (r * TIFF_TILE_W as int + c) / TIFF_TILE_W as int == r,
        (r * TIFF_TILE_W as int + c) % TIFF_TILE_W as int == c,
{
    vstd::arithmetic::div_mod::lemma_fundamental_div_mod_converse(
        r * TIFF_TILE_W as int + c,
        TIFF_TILE_W as int,
        r,
        c,
    );
}

/// A cell `(r, c)` of a `w`-wide row-major grid of `h` rows lies inside it.
pub proof fn lemma_grid_cell(r: int, c: int, w: int, h: int)
    requires
        0 <= r < h,
        0 <= c < w,
    ensures
        0 <= r * w + c < h * w,
        h * w == w * h,
        r * w <= (h - 1) * w,
{
    assert(h * w == w * h) by (nonlinear_arith);
    assert(0 <= r * w + c < h * w) by (nonlinear_arith)
        requires
            0 <= r < h,
            0 <= c < w,
    ;
    assert(r * w <= (h - 1) * w) by (nonlinear_arith)
        requires
            0 <= r < h,
            0 <= c < w,
    ;
}

/// The tile columns and rows that a source at `(col_off, row_off)` of shape
/// `fgd_w` x `fgd_h` reaches: `(first col, last col, first row, last row)`.
pub fn tiff_tile_range(col_off: usize, row_off: usize, fgd_w: usize, fgd_h: usize) -> (res: (
    usize,
    usize,
    usize,
    usize,
))
    requires
        fgd_w >= 1,
        fgd_h >= 1,
        col_off + fgd_w <= usize::MAX + 1,
        row_off + fgd_h <= usize::MAX + 1,
    ensures
        res.0 == tile_span((col_off, row_off), fgd_w, fgd_h).0,
        res.1 == tile_span((col_off, row_off), fgd_w, fgd_h).1,
        res.2 == tile_span((col_off, row_off), fgd_w, fgd_h).2,
        res.3 == tile_span((col_off, row_off), fgd_w, fgd_h).3,
{
    let tc_lo = col_off / TIFF_TILE_W;
    let tc_hi = (col_off + (fgd_w - 1)) / TIFF_TILE_W;
    let tr_lo = row_off / TIFF_TILE_H;
    let tr_hi = (row_off + (fgd_h - 1)) / TIFF_TILE_H;
    (tc_lo, tc_hi, tr_lo, tr_hi)
}

/// Whether the placement `p` of a `w` x `h` source fits a `width` x `height`
/// mosaic (see `placement_fits`).
pub fn placement_fits_exec(p: (usize, usize), w: usize, h: usize, width: usize, height: usize) -> (b:
    bool)
    requires
        w >= 1,
        h >= 1,
    ensures
        b == placement_fits(p, w, h, width, height),
{
    let x_end = match p.0.checked_add(w) {
        Some(e) => e,
        None => return false,
    };
    let y_end = match p.1.checked_add(h) {
        Some(e) => e,
        None => return false,
    };
    let tc_hi = (x_end - 1) / TIFF_TILE_W;
    let tr_hi = (y_end - 1) / TIFF_TILE_H;
    let x_start = match tc_hi.checked_mul(TIFF_TILE_W) {
        Some(v) => v,
        None => return false,
    };
    let y_start = match tr_hi.checked_mul(TIFF_TILE_H) {
        Some(v) => v,
        None => return false,
    };
    match (x_start.checked_add(TIFF_TILE_W), y_start.checked_add(TIFF_TILE_H)) {
        (Some(_), Some(_)) => x_start <= width && y_start <= height,
        _ => false,
    }
}

/// Whether sources of shape `w` x `h` placed at `placements` can be assembled into
/// a `width` x `height` mosaic (see `layout_ok`).
pub fn layout_fits(width: usize, height: usize, w: usize, h: usize, placements: &Vec<(usize, usize)>) -> (b: bool)
    ensures
        b == layout_ok(width, height, w, h, placements@),
{
    if w == 0 || h == 0 {
        return false;
    }
    for j in 0..placements.len()
        invariant
            w >= 1,
            h >= 1,
            forall|q: int| 0 <= q < j ==> placement_fits(#[trigger] placements@[q], w, h, width, height),
    {
        if !placement_fits_exec(placements[j], w, h, width, height) {
            return false;
        }
    }
    true
}

/// Lays the source at `p` of shape `w` x `h`, with values `values` in row-major
/// order, over tile `(tc, tr)` held in `buf`: each pixel of the tile that the
/// source covers takes the source's value, and the others keep theirs.
#[verifier::loop_isolation(false)]
pub fn blit_source<T: Copy>(
    buf: &mut Vec<T>,
    tc: usize,
    tr: usize,
    p: (usize, usize),
    w: usize,
    h: usize,
    values: &Vec<T>,
)
    requires
        old(buf)@.len() == TILE_LEN,
        w >= 1,
        h >= 1,
        placement_fits(p, w, h, usize::MAX, usize::MAX),
        touches(p, w, h, tc as int, tr as int),
        values@.len() >= w * h,
    ensures
        final(buf)@.len() == TILE_LEN,
        forall|i: int|
            0 <= i < TILE_LEN ==> #[trigger] final(buf)@[i] == if covers(
                p,
                w,
                h,
                pixel_x(tc as int, i),
                pixel_y(tr as int, i),
            ) {
                source_value(p, w, values@, pixel_x(tc as int, i), pixel_y(tr as int, i))
            } else {
                old(buf)@[i]
            },
{
    let (col_off, row_off) = p;
    let tiff_x = tc * TIFF_TILE_W;
    let tiff_y = tr * TIFF_TILE_H;
    let inter_x_lo = if col_off > tiff_x {
        col_off
    } else {
        tiff_x
    };
    let inter_x_hi = if col_off + w < tiff_x + TIFF_TILE_W {
        col_off + w
    } else {
        tiff_x + TIFF_TILE_W
    };
    let inter_y_lo = if row_off > tiff_y {
        row_off
    } else {
        tiff_y
    };
    let inter_y_hi = if row_off + h < tiff_y + TIFF_TILE_H {
        row_off + h
    } else {
        tiff_y + TIFF_TILE_H
    };
    let ghost old_buf = buf@;
    let mut y = inter_y_lo;
    while y < inter_y_hi
        invariant
            buf@.len() == TILE_LEN,
            inter_y_lo <= y <= inter_y_hi,
            forall|i: int|
                0 <= i < TILE_LEN ==> #[trigger] buf@[i] == if covers(
                    p,
                    w,
                    h,
                    pixel_x(tc as int, i),
                    pixel_y(tr as int, i),
                ) && pixel_y(tr as int, i) < y {
                    source_value(p, w, values@, pixel_x(tc as int, i), pixel_y(tr as int, i))
                } else {
                    old_buf[i]
                },
        decreases inter_y_hi - y,
    {
        let fgd_row = y - row_off;
        let tiff_row = y - tiff_y;
        let fgd_x = inter_x_lo - col_off;
        let tiff_xx = inter_x_lo - tiff_x;
        let n = inter_x_hi - inter_x_lo;
        let mut m: usize = 0;
        while m < n
            invariant
                buf@.len() == TILE_LEN,
                m <= n,
                forall|i: int|
                    0 <= i < TILE_LEN ==> #[trigger] buf@[i] == if covers(
                        p,
                        w,
                        h,
                        pixel_x(tc as int, i),
                        pixel_y(tr as int, i),
                    ) && (pixel_y(tr as int, i) < y || (pixel_y(tr as int, i) == y && pixel_x(
                        tc as int,
                        i,
                    ) < inter_x_lo + m)) {
                        source_value(
                            p,
                            w,
                            values@,
                            pixel_x(tc as int, i),
                            pixel_y(tr as int, i),
                        )
                    } else {
                        old_buf[i]
                    },
            decreases n - m,
        {
            proof {
                lemma_grid_cell(fgd_row as int, (fgd_x + m) as int, w as int, h as int);
                lemma_tile_pixel(tiff_row as int, (tiff_xx + m) as int);
            }
            assert(fgd_row * w + fgd_x + m < w * h);
            assert(w * h <= values.len());
            let src = fgd_row * w + fgd_x + m;
            let dst = tiff_row * TIFF_TILE_W + tiff_xx + m;
            buf.set(dst, values[src]);
            m = m + 1;
        }
        y = y + 1;
    }
}

/// A tile buffer with every pixel set to `fill`.
pub fn fill_tile<T: Copy>(fill: T) -> (buf: Vec<T>)
    ensures
        buf@.len() == TILE_LEN,
        forall|i: int| 0 <= i < TILE_LEN ==> #[trigger] buf@[i] == fill,
{
    let mut buf: Vec<T> = Vec::new();
    for i in 0..TILE_LEN
        invariant
            buf@.len() == i,
            forall|j: int| 0 <= j < i ==> #[trigger] buf@[j] == fill,
    {
        buf.push(fill);
    }
    buf
}

/// A finished tile of the mosaic: the part of a tile buffer that lies inside
/// the mosaic, at pixel offset `(x, y)`, `width` x `height` pixels in row-major
/// order.
#[derive(Debug)]
pub struct FinishedTile<T> {
    pub x: usize,
    pub y: usize,
    pub width: usize,
    pub height: usize,
    pub data: Vec<T>,
}

/// The smaller of `a` and `b`.
pub open spec fn min_int(a: int, b: int) -> int {
    if a < b {
        a
    } else {
        b
    }
}

/// Whether `t` is the part of tile `(tc, tr)`, held in `buf`, that lies inside a
/// mosaic of `width` x `height` pixels.
pub open spec fn cropped_from<T>(
    t: FinishedTile<T>,
    buf: Seq<T>,
    tc: int,
    tr: int,
    width: int,
    height: int,
) -> bool {
    &&& t.x == tc * TIFF_TILE_W as int
    &&& t.y == tr * TIFF_TILE_H as int
    &&& t.width == min_int(width - t.x, TIFF_TILE_W as int)
    &&& t.height == min_int(height - t.y, TIFF_TILE_H as int)
    &&& t.data@.len() == t.width * t.height
    &&& forall|i: int|
        0 <= i < t.data@.len() ==> #[trigger] t.data@[i] == buf[(i / t.width as int)
            * TIFF_TILE_W as int + i % t.width as int]
}

/// Why a tile buffer could not be cropped.
#[derive(Clone, Copy, Debug, PartialEq, Eq, Structural)]
pub enum CropError {
    /// The buffer holds this many values, not one per pixel of a tile.
    BufferLength(usize),
}

/// The part of tile `(tc, tr)`, held in `buf`, that lies inside a mosaic of
/// `width` x `height` pixels; an error when `buf` does not hold exactly one
/// value per pixel of a tile.
pub fn crop_tile<T: Copy>(buf: &Vec<T>, tc: usize, tr: usize, width: usize, height: usize) -> (res:
    Result<FinishedTile<T>, CropError>)
    requires
        tc * TIFF_TILE_W <= width,
        tr * TIFF_TILE_H <= height,
    ensures
        buf@.len() != TILE_LEN ==> res == Err::<FinishedTile<T>, CropError>(
            CropError::BufferLength(buf@.len() as usize),
        ),
        buf@.len() == TILE_LEN ==> (res matches Ok(t) && cropped_from(
            t,
            buf@,
            tc as int,
            tr as int,
            width as int,
            height as int,
        )),
{
    let tiff_x = tc * TIFF_TILE_W;
    let tiff_y = tr * TIFF_TILE_H;
    let expected_w = if width - tiff_x < TIFF_TILE_W {
        width - tiff_x
    } else {
        TIFF_TILE_W
    };
    let expected_h = if height - tiff_y < TIFF_TILE_H {
        height - tiff_y
    } else {
        TIFF_TILE_H
    };
    if buf.len() != TILE_LEN {
        return Err(CropError::BufferLength(buf.len()));
    }
    let mut data: Vec<T> = Vec::new();
    let mut r: usize = 0;
    while r < expected_h
        invariant
            buf@.len() == TILE_LEN,
            expected_w <= TIFF_TILE_W,
            expected_h <= TIFF_TILE_H,
            r <= expected_h,
            data@.len() == r * expected_w,
            forall|i: int|
                0 <= i < data@.len() ==> #[trigger] data@[i] == buf@[(i / expected_w as int)
                    * TIFF_TILE_W as int + i % expected_w as int],
        decreases expected_h - r,
    {
        let mut c: usize = 0;
        while c < expected_w
            invariant
                buf@.len() == TILE_LEN,
                expected_w <= TIFF_TILE_W,
                expected_h <= TIFF_TILE_H,
                r < expected_h,
                c <= expected_w,
                data@.len() == r * expected_w + c,
                forall|i: int|
                    0 <= i < data@.len() ==> #[trigger] data@[i] == buf@[(i / expected_w as int)
                        * TIFF_TILE_W as int + i % expected_w as int],
            decreases expected_w - c,
        {
            proof {
                vstd::arithmetic::div_mod::lemma_fundamental_div_mod_converse(
                    r * expected_w + c,
                    expected_w as int,
                    r as int,
                    c as int,
                );
            }
            data.push(buf[r * TIFF_TILE_W + c]);
            c = c + 1;
        }
        assert((r + 1) * expected_w == r * expected_w + expected_w) by (nonlinear_arith);
        r = r + 1;
    }
    assert(expected_h * expected_w == expected_w * expected_h) by (nonlinear_arith);
    Ok(FinishedTile { x: tiff_x, y: tiff_y, width: expected_w, height: expected_h, data })
}

/// The number of sources among `ps[lo..hi]` that reach tile `(tc, tr)`.
pub open spec fn touch_count(
    ps: Seq<(usize, usize)>,
    w: usize,
    h: usize,
    lo: int,
    hi: int,
    tc: int,
    tr: int,
) -> nat
    decreases hi - lo,
{
    if hi <= lo {
        0
    } else {
        touch_count(ps, w, h, lo, hi - 1, tc, tr) + if touches(ps[hi - 1], w, h, tc, tr) {
            1nat
        } else {
            0nat
        }
    }
}

/// Counting from the front: the first source and the rest.
pub proof fn lemma_touch_count_front(
    ps: Seq<(usize, usize)>,
    w: usize,
    h: usize,
    lo: int,
    hi: int,
    tc: int,
    tr: int,
)
    requires
        lo < hi,
    ensures
        touch_count(ps, w, h, lo, hi, tc, tr) == touch_count(ps, w, h, lo + 1, hi, tc, tr) + if touches(
            ps[lo],
            w,
            h,
            tc,
            tr,
        ) {
            1nat
        } else {
            0nat
        },
    decreases hi - lo,
{
    if lo + 1 < hi {
        lemma_touch_count_front(ps, w, h, lo, hi - 1, tc, tr);
        assert(touch_count(ps, w, h, lo + 1, hi, tc, tr) == touch_count(ps, w, h, lo + 1, hi - 1, tc, tr)
            + if touches(ps[hi - 1], w, h, tc, tr) {
            1nat
        } else {
            0nat
        });
    } else {
        assert(touch_count(ps, w, h, lo, lo, tc, tr) == 0);
        assert(touch_count(ps, w, h, lo + 1, hi, tc, tr) == 0);
    }
}

/// No more sources reach a tile than there are sources.
pub proof fn lemma_touch_count_bound(
    ps: Seq<(usize, usize)>,
    w: usize,
    h: usize,
    lo: int,
    hi: int,
    tc: int,
    tr: int,
)
    requires
        lo <= hi,
    ensures
        touch_count(ps, w, h, lo, hi, tc, tr) <= hi - lo,
    decreases hi - lo,
{
    if lo < hi {
        lemma_touch_count_bound(ps, w, h, lo, hi - 1, tc, tr);
    }
}

/// The count is positive exactly when some source in the range reaches the tile.
pub proof fn lemma_touch_count_positive(
    ps: Seq<(usize, usize)>,
    w: usize,
    h: usize,
    lo: int,
    hi: int,
    tc: int,
    tr: int,
)
    ensures
        touch_count(ps, w, h, lo, hi, tc, tr) > 0 <==> exists|j: int|
            lo <= j < hi && #[trigger] touches(ps[j], w, h, tc, tr),
    decreases hi - lo,
{
    if lo < hi {
        lemma_touch_count_positive(ps, w, h, lo, hi - 1, tc, tr);
        if touch_count(ps, w, h, lo, hi, tc, tr) > 0 && !touches(ps[hi - 1], w, h, tc, tr) {
            let j = choose|j: int| lo <= j < hi - 1 && #[trigger] touches(ps[j], w, h, tc, tr);
            assert(lo <= j < hi);
        }
        if exists|j: int| lo <= j < hi && #[trigger] touches(ps[j], w, h, tc, tr) {
            let j = choose|j: int| lo <= j < hi && #[trigger] touches(ps[j], w, h, tc, tr);
            if j < hi - 1 {
                assert(touch_count(ps, w, h, lo, hi - 1, tc, tr) > 0);
            }
        }
    }
}

/// The value of mosaic pixel `(x, y)` once the first `k` sources (placed at `ps`,
/// with values `vals`) have been laid down in order over the fill value `fill`:
/// the value of the last of them that covers the pixel, or `fill`.
pub open spec fn composite<T>(
    ps: Seq<(usize, usize)>,
    vals: Seq<Seq<T>>,
    w: usize,
    h: usize,
    k: int,
    x: int,
    y: int,
    fill: T,
) -> T
    decreases k,
{
    if k <= 0 {
        fill
    } else if covers(ps[k - 1], w, h, x, y) {
        source_value(ps[k - 1], w, vals[k - 1], x, y)
    } else {
        composite(ps, vals, w, h, k - 1, x, y, fill)
    }
}

/// A source that covers a pixel of a tile reaches that tile.
pub proof fn lemma_covers_touches(p: (usize, usize), w: usize, h: usize, tc: int, tr: int, i: int)
    requires
        w >= 1,
        h >= 1,
        0 <= tc,
        0 <= tr,
        0 <= i < TILE_LEN,
        covers(p, w, h, pixel_x(tc, i), pixel_y(tr, i)),
    ensures
        touches(p, w, h, tc, tr),
{
    let x = pixel_x(tc, i);
    let y = pixel_y(tr, i);
    let c = i % TIFF_TILE_W as int;
    let r = i / TIFF_TILE_W as int;
    assert(0 <= c < TIFF_TILE_W);
    assert(0 <= r < TIFF_TILE_H) by {
        vstd::arithmetic::div_mod::lemma_div_is_ordered(i, TILE_LEN as int - 1, TIFF_TILE_W as int);
    }
    lemma_tile_pixel(tc, c);
    lemma_tile_pixel(tr, r);
    vstd::arithmetic::div_mod::lemma_div_is_ordered(p.0 as int, x, TIFF_TILE_W as int);
    vstd::arithmetic::div_mod::lemma_div_is_ordered(x, p.0 + w - 1, TIFF_TILE_W as int);
    vstd::arithmetic::div_mod::lemma_div_is_ordered(p.1 as int, y, TIFF_TILE_H as int);
    vstd::arithmetic::div_mod::lemma_div_is_ordered(y, p.1 + h - 1, TIFF_TILE_H as int);
}

/// The base of the key that identifies a tile: one more than any tile index.
pub open spec fn key_base() -> int {
    0x1_0000_0000_0000_0000
}

/// The key of tile `(tc, tr)` in the assembler's maps.
pub open spec fn tile_key(tc: int, tr: int) -> u128 {
    (tr * key_base() + tc) as u128
}

/// The tile column that key `k` stands for.
pub open spec fn key_col(k: u128) -> int {
    k as int % key_base()
}

/// The tile row that key `k` stands for.
pub open spec fn key_row(k: u128) -> int {
    k as int / key_base()
}

/// A key names exactly one tile, and every tile one key.
pub proof fn lemma_tile_key(tc: int, tr: int)
    requires
        0 <= tc < key_base(),
        0 <= tr < key_base(),
    ensures
        0 <= tr * key_base() + tc <= u128::MAX,
        key_col(tile_key(tc, tr)) == tc,
        key_row(tile_key(tc, tr)) == tr,
{
    assert(0 <= tr * key_base() + tc <= u128::MAX);
    vstd::arithmetic::div_mod::lemma_fundamental_div_mod_converse(
        tr * key_base() + tc,
        key_base(),
        tr,
        tc,
    );
}

/// Decoding a key and encoding the tile again gives the key back.
pub proof fn lemma_key_tile(k: u128)
    ensures
        0 <= key_col(k) < key_base(),
        0 <= key_row(k) < key_base(),
        tile_key(key_col(k), key_row(k)) == k,
{
    vstd::arithmetic::div_mod::lemma_fundamental_div_mod(k as int, key_base());
    vstd::arithmetic::div_mod::lemma_div_is_ordered(k as int, u128::MAX as int, key_base());
}

fn tile_key_of(tc: usize, tr: usize) -> (k: u128)
    ensures
        k == tile_key(tc as int, tr as int),
        key_col(k) == tc,
        key_row(k) == tr,
{
    proof {
        lemma_tile_key(tc as int, tr as int);
    }
    (tr as u128) * 0x1_0000_0000_0000_0000u128 + (tc as u128)
}

/// Only the first `k` sources' values matter to the mosaic after `k` sources.
pub proof fn lemma_composite_prefix<T>(
    ps: Seq<(usize, usize)>,
    v1: Seq<Seq<T>>,
    v2: Seq<Seq<T>>,
    w: usize,
    h: usize,
    k: int,
    x: int,
    y: int,
    fill: T,
)
    requires
        v1.len() >= k,
        v2.len() >= k,
        forall|j: int| 0 <= j < k ==> v1[j] == v2[j],
    ensures
        composite(ps, v1, w, h, k, x, y, fill) == composite(ps, v2, w, h, k, x, y, fill),
    decreases k,
{
    if k > 0 {
        lemma_composite_prefix(ps, v1, v2, w, h, k - 1, x, y, fill);
    }
}

/// A pixel of a tile that none of the first `k` sources reaches keeps the fill
/// value.
pub proof fn lemma_composite_untouched<T>(
    ps: Seq<(usize, usize)>,
    vals: Seq<Seq<T>>,
    w: usize,
    h: usize,
    k: int,
    tc: int,
    tr: int,
    i: int,
    fill: T,
)
    requires
        w >= 1,
        h >= 1,
        0 <= tc,
        0 <= tr,
        0 <= i < TILE_LEN,
        touch_count(ps, w, h, 0, k, tc, tr) == 0,
    ensures
        composite(ps, vals, w, h, k, pixel_x(tc, i), pixel_y(tr, i), fill) == fill,
    decreases k,
{
    if k > 0 {
        if covers(ps[k - 1], w, h, pixel_x(tc, i), pixel_y(tr, i)) {
            lemma_covers_touches(ps[k - 1], w, h, tc, tr, i);
        }
        lemma_composite_untouched(ps, vals, w, h, k - 1, tc, tr, i, fill);
    }
}

/// A source that does not reach a tile leaves its pixels as they were.
pub proof fn lemma_composite_skip<T>(
    ps: Seq<(usize, usize)>,
    vals: Seq<Seq<T>>,
    w: usize,
    h: usize,
    k: int,
    tc: int,
    tr: int,
    i: int,
    fill: T,
)
    requires
        w >= 1,
        h >= 1,
        0 <= k,
        0 <= tc,
        0 <= tr,
        0 <= i < TILE_LEN,
        !touches(ps[k], w, h, tc, tr),
    ensures
        composite(ps, vals, w, h, k + 1, pixel_x(tc, i), pixel_y(tr, i), fill) == composite(
            ps,
            vals,
            w,
            h,
            k,
            pixel_x(tc, i),
            pixel_y(tr, i),
            fill,
        ),
{
    if covers(ps[k], w, h, pixel_x(tc, i), pixel_y(tr, i)) {
        lemma_covers_touches(ps[k], w, h, tc, tr, i);
    }
}

/// Whether a mosaic of `width` x `height` pixels can be assembled from sources
/// of shape `w` x `h` placed at `ps`: the shape is not empty and every placement
/// fits.
pub open spec fn layout_ok(width: usize, height: usize, w: usize, h: usize, ps: Seq<(usize, usize)>) -> bool {
    &&& w >= 1
    &&& h >= 1
    &&& forall|j: int| 0 <= j < ps.len() ==> placement_fits(#[trigger] ps[j], w, h, width, height)
}

/// Whether `buf` holds tile `(tc, tr)` of the mosaic after the first `s` sources.
pub open spec fn tile_holds<T>(
    buf: Seq<T>,
    ps: Seq<(usize, usize)>,
    vals: Seq<Seq<T>>,
    w: usize,
    h: usize,
    s: int,
    tc: int,
    tr: int,
    fill: T,
) -> bool {
    &&& buf.len() == TILE_LEN
    &&& forall|i: int|
        0 <= i < TILE_LEN ==> #[trigger] buf[i] == composite(
            ps,
            vals,
            w,
            h,
            s,
            pixel_x(tc, i),
            pixel_y(tr, i),
            fill,
        )
}

/// Whether the assembler's maps hold the right state for the tile with key `key`
/// once the first `s` of the `n` sources have been laid down: a count of the
/// sources still to reach it while there are any, and its contents while some
/// source has reached it and another still will.
pub open spec fn key_state_ok<T>(
    rem: Map<u128, usize>,
    act: Map<u128, Vec<T>>,
    ps: Seq<(usize, usize)>,
    vals: Seq<Seq<T>>,
    w: usize,
    h: usize,
    n: int,
    fill: T,
    s: int,
    key: u128,
) -> bool {
    let a = key_col(key);
    let b = key_row(key);
    &&& rem.contains_key(key) <==> touch_count(ps, w, h, s, n, a, b) > 0
    &&& rem.contains_key(key) ==> rem[key] == touch_count(ps, w, h, s, n, a, b)
    &&& act.contains_key(key) <==> (touch_count(ps, w, h, 0, s, a, b) > 0 && touch_count(
        ps,
        w,
        h,
        s,
        n,
        a,
        b,
    ) > 0)
    &&& act.contains_key(key) ==> tile_holds(act[key]@, ps, vals, w, h, s, a, b, fill)
}

/// Whether tile `(a, b)`, which the source at `p` reaches, comes before the tile
/// `(tc, tr)` in row-major order.
pub open spec fn processed(p: (usize, usize), w: usize, h: usize, a: int, b: int, tc: int, tr: int) -> bool {
    touches(p, w, h, a, b) && (b < tr || (b == tr && a < tc))
}

/// The state of the tile with key `key` while source `k` is being laid down over
/// its tiles in row-major order, up to but not including tile `(tc, tr)`.
pub open spec fn laying_key_ok<T>(
    rem: Map<u128, usize>,
    act: Map<u128, Vec<T>>,
    ps: Seq<(usize, usize)>,
    vals: Seq<Seq<T>>,
    w: usize,
    h: usize,
    n: int,
    fill: T,
    k: int,
    tc: int,
    tr: int,
    key: u128,
) -> bool {
    key_state_ok(
        rem,
        act,
        ps,
        vals,
        w,
        h,
        n,
        fill,
        if processed(ps[k], w, h, key_col(key), key_row(key), tc, tr) {
            k + 1
        } else {
            k
        },
        key,
    )
}

/// The tile column of a finished tile.
pub open spec fn tile_col_of<T>(t: FinishedTile<T>) -> int {
    t.x as int / TIFF_TILE_W as int
}

/// The tile row of a finished tile.
pub open spec fn tile_row_of<T>(t: FinishedTile<T>) -> int {
    t.y as int / TIFF_TILE_H as int
}

/// Whether finished tile `t` comes before finished tile `u` in row-major order.
pub open spec fn tile_before<T>(t: FinishedTile<T>, u: FinishedTile<T>) -> bool {
    t.y < u.y || (t.y == u.y && t.x < u.x)
}

/// Whether `t` is a whole tile of a `width` x `height` mosaic, cut to the
/// mosaic's edge, whose pixels hold the mosaic after the first `s` sources.
pub open spec fn finished_tile<T>(
    t: FinishedTile<T>,
    ps: Seq<(usize, usize)>,
    vals: Seq<Seq<T>>,
    w: usize,
    h: usize,
    s: int,
    width: int,
    height: int,
    fill: T,
) -> bool {
    &&& t.x == tile_col_of(t) * TIFF_TILE_W as int
    &&& t.y == tile_row_of(t) * TIFF_TILE_H as int
    &&& t.width == min_int(width - t.x, TIFF_TILE_W as int)
    &&& t.height == min_int(height - t.y, TIFF_TILE_H as int)
    &&& t.data@.len() == t.width * t.height
    &&& forall|j: int|
        0 <= j < t.data@.len() ==> #[trigger] t.data@[j] == composite(
            ps,
            vals,
            w,
            h,
            s,
            t.x + j % t.width as int,
            t.y + j / t.width as int,
            fill,
        )
}

/// A cell of a row-major grid `tw` wide and `th` high has a row below `th` and
/// a column below `tw`.
pub proof fn lemma_row_major_index(j: int, tw: int, th: int)
    requires
        tw > 0,
        th >= 0,
        0 <= j < tw * th,
    ensures
        0 <= j / tw < th,
        0 <= j % tw < tw,
{
    vstd::arithmetic::div_mod::lemma_fundamental_div_mod(j, tw);
    assert(0 <= j / tw < th) by (nonlinear_arith)
        requires
            tw > 0,
            0 <= j < tw * th,
            j == tw * (j / tw) + j % tw,
            0 <= j % tw < tw,
    ;
}

/// Cropping a tile that holds the mosaic gives a finished tile of it.
pub proof fn lemma_crop_finished<T>(
    t: FinishedTile<T>,
    buf: Seq<T>,
    ps: Seq<(usize, usize)>,
    vals: Seq<Seq<T>>,
    w: usize,
    h: usize,
    s: int,
    tc: int,
    tr: int,
    width: int,
    height: int,
    fill: T,
)
    requires
        0 <= tc,
        0 <= tr,
        tc * TIFF_TILE_W as int <= width,
        tr * TIFF_TILE_H as int <= height,
        cropped_from(t, buf, tc, tr, width, height),
        tile_holds(buf, ps, vals, w, h, s, tc, tr, fill),
    ensures
        finished_tile(t, ps, vals, w, h, s, width, height, fill),
        tile_col_of(t) == tc,
        tile_row_of(t) == tr,
{
    lemma_tile_pixel(tc, 0);
    lemma_tile_pixel(tr, 0);
    assert forall|j: int| 0 <= j < t.data@.len() implies #[trigger] t.data@[j] == composite(
        ps,
        vals,
        w,
        h,
        s,
        t.x + j % t.width as int,
        t.y + j / t.width as int,
        fill,
    ) by {
        let tw = t.width as int;
        let th = t.height as int;
        assert(tw > 0) by {
            if tw == 0 {
                assert(t.data@.len() == 0) by (nonlinear_arith)
                    requires
                        t.data@.len() == tw * th,
                        tw == 0,
                ;
            }
        }
        lemma_row_major_index(j, tw, th);
        let r = j / tw;
        let c = j % tw;
        lemma_tile_pixel(r, c);
        let m = r * TIFF_TILE_W as int + c;
        assert(0 <= m < TILE_LEN);
        assert(buf[m] == composite(ps, vals, w, h, s, pixel_x(tc, m), pixel_y(tr, m), fill));
    }
}

/// A mosaic under assembly. The sources are laid down one by one, in the order of
/// their placements; the tiles that some laid source reaches and that a later
/// source will still reach are held, with a count of the sources still to come.
pub struct TileAssembler<T> {
    width: usize,
    height: usize,
    src_w: usize,
    src_h: usize,
    placements: Vec<(usize, usize)>,
    fill: T,
    next: usize,
    remaining: HashMap<u128, usize>,
    active: HashMap<u128, Vec<T>>,
    laid: Ghost<Seq<Seq<T>>>,
}

impl<T: Copy> TileAssembler<T> {
    /// The mosaic's width, in pixels.
    pub closed spec fn mosaic_width(&self) -> usize {
        self.width
    }

    /// The mosaic's height, in pixels.
    pub closed spec fn mosaic_height(&self) -> usize {
        self.height
    }

    /// The width of every source, in pixels.
    pub closed spec fn source_width(&self) -> usize {
        self.src_w
    }

    /// The height of every source, in pixels.
    pub closed spec fn source_height(&self) -> usize {
        self.src_h
    }

    /// The placements of the sources, in the order they are laid down.
    pub closed spec fn sources(&self) -> Seq<(usize, usize)> {
        self.placements@
    }

    /// The value of the pixels that no source covers.
    pub closed spec fn fill_value(&self) -> T {
        self.fill
    }

    /// The values of the sources laid down so far.
    pub closed spec fn laid(&self) -> Seq<Seq<T>> {
        self.laid@
    }

    /// The internal invariant: the counts of the sources still to come, and the
    /// contents of the tiles held.
    pub closed spec fn wf(&self) -> bool {
        let ps = self.placements@;
        let n = ps.len() as int;
        let s = self.next as int;
        let w = self.src_w;
        let h = self.src_h;
        &&& layout_ok(self.width, self.height, w, h, ps)
        &&& s <= n
        &&& self.laid@.len() == s
        &&& forall|j: int| 0 <= j < s ==> (#[trigger] self.laid@[j]).len() >= w * h
        &&& forall|k: u128|
            #[trigger] key_state_ok(
                self.remaining@,
                self.active@,
                ps,
                self.laid@,
                w,
                h,
                n,
                self.fill,
                s,
                k,
            )
    }

    /// An assembler for a `width` x `height` mosaic of `src_w` x `src_h` sources
    /// placed at `placements`, laid down in that order over `fill`.
    pub fn new(
        width: usize,
        height: usize,
        src_w: usize,
        src_h: usize,
        placements: Vec<(usize, usize)>,
        fill: T,
    ) -> (a: Self)
        requires
            layout_ok(width, height, src_w, src_h, placements@),
        ensures
            a.wf(),
            a.mosaic_width() == width,
            a.mosaic_height() == height,
            a.source_width() == src_w,
            a.source_height() == src_h,
            a.source_width() >= 1,
            a.source_height() >= 1,
            a.sources() == placements@,
            a.fill_value() == fill,
            a.laid() == Seq::<Seq<T>>::empty(),
    {
        let ghost ps = placements@;
        let n = placements.len();
        let mut remaining: HashMap<u128, usize> = HashMap::new();
        for j in 0..n
            invariant
                n == ps.len(),
                ps == placements@,
                layout_ok(width, height, src_w, src_h, ps),
                forall|k: u128|
                    #[trigger] remaining@.contains_key(k) <==> touch_count(
                        ps,
                        src_w,
                        src_h,
                        0,
                        j as int,
                        key_col(k),
                        key_row(k),
                    ) > 0,
                forall|k: u128|
                    #[trigger] remaining@.contains_key(k) ==> remaining@[k] == touch_count(
                        ps,
                        src_w,
                        src_h,
                        0,
                        j as int,
                        key_col(k),
                        key_row(k),
                    ),
        {
            let p = placements[j];
            assert(placement_fits(ps[j as int], src_w, src_h, width, height));
            let (tc_lo, tc_hi, tr_lo, tr_hi) = tiff_tile_range(p.0, p.1, src_w, src_h);
            let mut tr = tr_lo;
            while tr <= tr_hi
                invariant
                    n == ps.len(),
                    ps == placements@,
                    j < n,
                    p == ps[j as int],
                    layout_ok(width, height, src_w, src_h, ps),
                    tc_lo == tile_span(p, src_w, src_h).0,
                    tc_hi == tile_span(p, src_w, src_h).1,
                    tr_lo == tile_span(p, src_w, src_h).2,
                    tr_hi == tile_span(p, src_w, src_h).3,
                    tr_lo <= tr <= tr_hi + 1,
                    tr_hi < usize::MAX,
                    forall|k: u128|
                        #[trigger] remaining@.contains_key(k) <==> touch_count(
                            ps,
                            src_w,
                            src_h,
                            0,
                            j as int,
                            key_col(k),
                            key_row(k),
                        ) + (if touches(p, src_w, src_h, key_col(k), key_row(k)) && key_row(k)
                            < tr {
                            1int
                        } else {
                            0int
                        }) > 0,
                    forall|k: u128|
                        #[trigger] remaining@.contains_key(k) ==> remaining@[k] == touch_count(
                            ps,
                            src_w,
                            src_h,
                            0,
                            j as int,
                            key_col(k),
                            key_row(k),
                        ) + (if touches(p, src_w, src_h, key_col(k), key_row(k)) && key_row(k)
                            < tr {
                            1int
                        } else {
                            0int
                        }),
                decreases tr_hi + 1 - tr,
            {
                let mut tc = tc_lo;
                while tc <= tc_hi
                    invariant
                        n == ps.len(),
                        ps == placements@,
                        j < n,
                        p == ps[j as int],
                        layout_ok(width, height, src_w, src_h, ps),
                        tc_lo == tile_span(p, src_w, src_h).0,
                        tc_hi == tile_span(p, src_w, src_h).1,
                        tr_lo == tile_span(p, src_w, src_h).2,
                        tr_hi == tile_span(p, src_w, src_h).3,
                        tr_lo <= tr <= tr_hi,
                        tr_hi < usize::MAX,
                        tc_lo <= tc <= tc_hi + 1,
                        tc_hi < usize::MAX,
                        forall|k: u128|
                            #[trigger] remaining@.contains_key(k) <==> touch_count(
                                ps,
                                src_w,
                                src_h,
                                0,
                                j as int,
                                key_col(k),
                                key_row(k),
                            ) + (if touches(p, src_w, src_h, key_col(k), key_row(k)) && (key_row(
                                k,
                            ) < tr || (key_row(k) == tr && key_col(k) < tc)) {
                                1int
                            } else {
                                0int
                            }) > 0,
                        forall|k: u128|
                            #[trigger] remaining@.contains_key(k) ==> remaining@[k]
                                == touch_count(
                                ps,
                                src_w,
                                src_h,
                                0,
                                j as int,
                                key_col(k),
                                key_row(k),
                            ) + (if touches(p, src_w, src_h, key_col(k), key_row(k)) && (key_row(
                                k,
                            ) < tr || (key_row(k) == tr && key_col(k) < tc)) {
                                1int
                            } else {
                                0int
                            }),
                    decreases tc_hi + 1 - tc,
                {
                    let key = tile_key_of(tc, tr);
                    let count = match remaining.get(&key) {
                        Some(c) => *c,
                        None => 0,
                    };
                    proof {
                        lemma_touch_count_bound(ps, src_w, src_h, 0, j as int, tc as int, tr as int);
                        assert forall|k: u128| k != key implies (key_col(k) != tc || key_row(k)
                            != tr) by {
                            lemma_key_tile(k);
                        }
                    }
                    remaining.insert(key, count + 1);
                    tc = tc + 1;
                }
                tr = tr + 1;
            }
        }
        let a = TileAssembler {
            width,
            height,
            src_w,
            src_h,
            placements,
            fill,
            next: 0,
            remaining,
            active: HashMap::new(),
            laid: Ghost(Seq::empty()),
        };
        assert forall|k: u128|
            #[trigger] key_state_ok(
                a.remaining@,
                a.active@,
                ps,
                a.laid@,
                src_w,
                src_h,
                n as int,
                fill,
                0,
                k,
            ) by {
            assert(a.remaining@.contains_key(k) <==> touch_count(
                ps,
                src_w,
                src_h,
                0,
                n as int,
                key_col(k),
                key_row(k),
            ) > 0);
            assert(touch_count(ps, src_w, src_h, 0, 0, key_col(k), key_row(k)) == 0);
        }
        a
    }

    /// Lays down the next source, whose values (row-major, `source_width()` per
    /// row) are `values`, over the tiles it reaches in row-major order, and hands
    /// out, in that order, the tiles that no later source reaches: each cut to the
    /// mosaic's edge and holding the mosaic after this source.
    pub fn add_next(&mut self, values: &Vec<T>) -> (done: Vec<FinishedTile<T>>)
        requires
            old(self).wf(),
            old(self).laid().len() < old(self).sources().len(),
            values@.len() >= old(self).source_width() * old(self).source_height(),
        ensures
            final(self).wf(),
            final(self).mosaic_width() == old(self).mosaic_width(),
            final(self).mosaic_height() == old(self).mosaic_height(),
            final(self).source_width() == old(self).source_width(),
            final(self).source_height() == old(self).source_height(),
            final(self).source_width() >= 1,
            final(self).source_height() >= 1,
            final(self).sources() == old(self).sources(),
            final(self).fill_value() == old(self).fill_value(),
            final(self).laid() == old(self).laid().push(values@),
            forall|i: int|
                0 <= i < done@.len() ==> {
                    let t = #[trigger] done@[i];
                    let k = old(self).laid().len() as int;
                    &&& finished_tile(
                        t,
                        old(self).sources(),
                        final(self).laid(),
                        old(self).source_width(),
                        old(self).source_height(),
                        k + 1,
                        old(self).mosaic_width() as int,
                        old(self).mosaic_height() as int,
                        old(self).fill_value(),
                    )
                    &&& touches(
                        old(self).sources()[k],
                        old(self).source_width(),
                        old(self).source_height(),
                        tile_col_of(t),
                        tile_row_of(t),
                    )
                    &&& touch_count(
                        old(self).sources(),
                        old(self).source_width(),
                        old(self).source_height(),
                        k + 1,
                        old(self).sources().len() as int,
                        tile_col_of(t),
                        tile_row_of(t),
                    ) == 0
                },
            forall|i: int, j: int|
                0 <= i < j < done@.len() ==> tile_before(#[trigger] done@[i], #[trigger] done@[j]),
            forall|a: int, b: int|
                #![trigger touches(old(self).sources()[old(self).laid().len() as int], old(self).source_width(), old(self).source_height(), a, b)]
                touches(
                    old(self).sources()[old(self).laid().len() as int],
                    old(self).source_width(),
                    old(self).source_height(),
                    a,
                    b,
                ) && touch_count(
                    old(self).sources(),
                    old(self).source_width(),
                    old(self).source_height(),
                    old(self).laid().len() as int + 1,
                    old(self).sources().len() as int,
                    a,
                    b,
                ) == 0 ==> exists|i: int|
                    0 <= i < done@.len() && tile_col_of(#[trigger] done@[i]) == a && tile_row_of(
                        done@[i],
                    ) == b,
    {
        let ghost ps = self.placements@;
        let ghost n = ps.len() as int;
        let ghost fill = self.fill;
        let width = self.width;
        let height = self.height;
        let w = self.src_w;
        let h = self.src_h;
        let k = self.next;
        let p = self.placements[k];
        let count_sources = self.placements.len();
        assert(k < count_sources);
        let after = k + 1;
        let ghost old_laid = self.laid@;
        let ghost vals = self.laid@.push(values@);
        assert(placement_fits(ps[k as int], w, h, width, height));
        let (tc_lo, tc_hi, tr_lo, tr_hi) = tiff_tile_range(p.0, p.1, w, h);
        proof {
            assert forall|key: u128|
                #[trigger] laying_key_ok(
                    self.remaining@,
                    self.active@,
                    ps,
                    vals,
                    w,
                    h,
                    n,
                    fill,
                    k as int,
                    tc_lo as int,
                    tr_lo as int,
                    key,
                ) by {
                assert(key_state_ok(
                    self.remaining@,
                    self.active@,
                    ps,
                    old_laid,
                    w,
                    h,
                    n,
                    fill,
                    k as int,
                    key,
                ));
                if self.active@.contains_key(key) {
                    assert forall|i: int| 0 <= i < TILE_LEN implies #[trigger] self.active@[key]@[i]
                        == composite(
                        ps,
                        vals,
                        w,
                        h,
                        k as int,
                        pixel_x(key_col(key), i),
                        pixel_y(key_row(key), i),
                        fill,
                    ) by {
                        lemma_composite_prefix(
                            ps,
                            old_laid,
                            vals,
                            w,
                            h,
                            k as int,
                            pixel_x(key_col(key), i),
                            pixel_y(key_row(key), i),
                            fill,
                        );
                    }
                }
            }
        }
        self.laid = Ghost(vals);
        let mut out: Vec<FinishedTile<T>> = Vec::new();
        let mut tr = tr_lo;
        while tr <= tr_hi
            invariant
                self.placements@ == ps,
                n == ps.len(),
                self.width == width,
                self.height == height,
                self.src_w == w,
                self.src_h == h,
                self.fill == fill,
                self.next == k,
                self.laid@ == vals,
                k < n,
                p == ps[k as int],
                vals.len() == k + 1,
                vals[k as int] == values@,
                values@.len() >= w * h,
                layout_ok(width, height, w, h, ps),
                tc_lo == tile_span(p, w, h).0,
                tc_hi == tile_span(p, w, h).1,
                tr_lo == tile_span(p, w, h).2,
                tr_hi == tile_span(p, w, h).3,
                tr_lo <= tr <= tr_hi + 1,
                tr_hi < usize::MAX,
                forall|key: u128|
                    #[trigger] laying_key_ok(
                        self.remaining@,
                        self.active@,
                        ps,
                        vals,
                        w,
                        h,
                        n,
                        fill,
                        k as int,
                        tc_lo as int,
                        tr as int,
                        key,
                    ),
                forall|i: int|
                    0 <= i < out@.len() ==> {
                        let t = #[trigger] out@[i];
                        &&& finished_tile(t, ps, vals, w, h, k + 1, width as int, height as int, fill)
                        &&& processed(p, w, h, tile_col_of(t), tile_row_of(t), tc_lo as int, tr as int)
                        &&& touch_count(ps, w, h, k + 1, n, tile_col_of(t), tile_row_of(t)) == 0
                    },
                forall|i: int, j: int|
                    0 <= i < j < out@.len() ==> tile_before(#[trigger] out@[i], #[trigger] out@[j]),
                forall|a: int, b: int|
                    #![trigger processed(p, w, h, a, b, tc_lo as int, tr as int)]
                    processed(p, w, h, a, b, tc_lo as int, tr as int) && touch_count(
                        ps,
                        w,
                        h,
                        k + 1,
                        n,
                        a,
                        b,
                    ) == 0 ==> exists|i: int|
                        0 <= i < out@.len() && tile_col_of(#[trigger] out@[i]) == a
                            && tile_row_of(out@[i]) == b,
            decreases tr_hi + 1 - tr,
        {
            let mut tc = tc_lo;
            while tc <= tc_hi
                invariant
                    self.placements@ == ps,
                    n == ps.len(),
                    self.width == width,
                    self.height == height,
                    self.src_w == w,
                    self.src_h == h,
                    self.fill == fill,
                    self.next == k,
                    self.laid@ == vals,
                    k < n,
                    p == ps[k as int],
                    vals.len() == k + 1,
                    vals[k as int] == values@,
                    values@.len() >= w * h,
                    layout_ok(width, height, w, h, ps),
                    tc_lo == tile_span(p, w, h).0,
                    tc_hi == tile_span(p, w, h).1,
                    tr_lo == tile_span(p, w, h).2,
                    tr_hi == tile_span(p, w, h).3,
                    tr_lo <= tr <= tr_hi,
                    tr_hi < usize::MAX,
                    tc_lo <= tc <= tc_hi + 1,
                    tc_hi < usize::MAX,
                    forall|key: u128|
                        #[trigger] laying_key_ok(
                            self.remaining@,
                            self.active@,
                            ps,
                            vals,
                            w,
                            h,
                            n,
                            fill,
                            k as int,
                            tc as int,
                            tr as int,
                            key,
                        ),
                    forall|i: int|
                        0 <= i < out@.len() ==> {
                            let t = #[trigger] out@[i];
                            &&& finished_tile(
                                t,
                                ps,
                                vals,
                                w,
                                h,
                                k + 1,
                                width as int,
                                height as int,
                                fill,
                            )
                            &&& processed(p, w, h, tile_col_of(t), tile_row_of(t), tc as int, tr as int)
                            &&& touch_count(ps, w, h, k + 1, n, tile_col_of(t), tile_row_of(t)) == 0
                        },
                    forall|i: int, j: int|
                        0 <= i < j < out@.len() ==> tile_before(
                            #[trigger] out@[i],
                            #[trigger] out@[j],
                        ),
                    forall|a: int, b: int|
                        #![trigger processed(p, w, h, a, b, tc as int, tr as int)]
                        processed(p, w, h, a, b, tc as int, tr as int) && touch_count(
                            ps,
                            w,
                            h,
                            k + 1,
                            n,
                            a,
                            b,
                        ) == 0 ==> exists|i: int|
                            0 <= i < out@.len() && tile_col_of(#[trigger] out@[i]) == a
                                && tile_row_of(out@[i]) == b,
                decreases tc_hi + 1 - tc,
            {
                let key = tile_key_of(tc, tr);
                let ghost old_rem = self.remaining@;
                let ghost old_act = self.active@;
                let ghost old_out = out@;
                proof {
                    assert(laying_key_ok(
                        self.remaining@,
                        self.active@,
                        ps,
                        vals,
                        w,
                        h,
                        n,
                        fill,
                        k as int,
                        tc as int,
                        tr as int,
                        key,
                    ));
                    assert(touches(p, w, h, tc as int, tr as int));
                    assert(!processed(p, w, h, tc as int, tr as int, tc as int, tr as int));
                    lemma_touch_count_front(ps, w, h, k as int, n, tc as int, tr as int);
                    assert(placement_fits(p, w, h, width, height));
                }
                let mut buf = match self.active.remove(&key) {
                    Some(b) => b,
                    None => {
                        let b = fill_tile(self.fill);
                        proof {
                            assert forall|i: int| 0 <= i < TILE_LEN implies #[trigger] b@[i]
                                == composite(
                                ps,
                                vals,
                                w,
                                h,
                                k as int,
                                pixel_x(tc as int, i),
                                pixel_y(tr as int, i),
                                fill,
                            ) by {
                                lemma_composite_untouched(
                                    ps,
                                    vals,
                                    w,
                                    h,
                                    k as int,
                                    tc as int,
                                    tr as int,
                                    i,
                                    fill,
                                );
                            }
                        }
                        b
                    },
                };
                assert(tile_holds(buf@, ps, vals, w, h, k as int, tc as int, tr as int, fill));
                let ghost before_blit = buf@;
                blit_source(&mut buf, tc, tr, p, w, h, values);
                assert(tile_holds(buf@, ps, vals, w, h, k + 1, tc as int, tr as int, fill)) by {
                    assert forall|i: int| 0 <= i < TILE_LEN implies #[trigger] buf@[i]
                        == composite(
                        ps,
                        vals,
                        w,
                        h,
                        k + 1,
                        pixel_x(tc as int, i),
                        pixel_y(tr as int, i),
                        fill,
                    ) by {
                        assert(before_blit[i] == composite(
                            ps,
                            vals,
                            w,
                            h,
                            k as int,
                            pixel_x(tc as int, i),
                            pixel_y(tr as int, i),
                            fill,
                        ));
                    }
                }
                let count = match self.remaining.get(&key) {
                    Some(c) => *c,
                    None => 1,
                };
                assert(count == touch_count(ps, w, h, k as int, n, tc as int, tr as int));
                let ghost act_removed = self.active@;
                if count == 1 {
                    self.remaining.remove(&key);
                    match crop_tile(&buf, tc, tr, width, height) {
                        Ok(t) => {
                            proof {
                                lemma_crop_finished(
                                t,
                                buf@,
                                ps,
                                vals,
                                w,
                                h,
                                k + 1,
                                tc as int,
                                tr as int,
                                width as int,
                                height as int,
                                fill,
                            );
                        }
                        out.push(t);
                        },
                        Err(_) => {},
                    }
                } else {
                    self.remaining.insert(key, count - 1);
                    self.active.insert(key, buf);
                }
                proof {
                    assert forall|key2: u128|
                        #[trigger] laying_key_ok(
                            self.remaining@,
                            self.active@,
                            ps,
                            vals,
                            w,
                            h,
                            n,
                            fill,
                            k as int,
                            tc + 1,
                            tr as int,
                            key2,
                        ) by {
                        lemma_key_tile(key2);
                        if key2 != key {
                            assert(laying_key_ok(
                                old_rem,
                                old_act,
                                ps,
                                vals,
                                w,
                                h,
                                n,
                                fill,
                                k as int,
                                tc as int,
                                tr as int,
                                key2,
                            ));
                            assert(processed(p, w, h, key_col(key2), key_row(key2), tc + 1, tr as int)
                                == processed(
                                p,
                                w,
                                h,
                                key_col(key2),
                                key_row(key2),
                                tc as int,
                                tr as int,
                            ));
                        } else {
                            assert(processed(p, w, h, tc as int, tr as int, tc + 1, tr as int));
                            assert(touch_count(ps, w, h, 0, k + 1, tc as int, tr as int) > 0);
                        }
                    }
                    assert forall|a: int, b: int|
                        #![trigger processed(p, w, h, a, b, tc + 1, tr as int)]
                        processed(p, w, h, a, b, tc + 1, tr as int) && touch_count(
                            ps,
                            w,
                            h,
                            k + 1,
                            n,
                            a,
                            b,
                        ) == 0 implies exists|i: int|
                            0 <= i < out@.len() && tile_col_of(#[trigger] out@[i]) == a
                                && tile_row_of(out@[i]) == b by {
                        if a == tc && b == tr {
                            assert(tile_col_of(out@[out@.len() - 1]) == a);
                        } else {
                            assert(processed(p, w, h, a, b, tc as int, tr as int));
                            let i = choose|i: int|
                                0 <= i < old_out.len() && tile_col_of(#[trigger] old_out[i]) == a
                                    && tile_row_of(old_out[i]) == b;
                            assert(out@[i] == old_out[i]);
                        }
                    }
                }
                tc = tc + 1;
            }
            proof {
                assert forall|key2: u128|
                    #[trigger] laying_key_ok(
                        self.remaining@,
                        self.active@,
                        ps,
                        vals,
                        w,
                        h,
                        n,
                        fill,
                        k as int,
                        tc_lo as int,
                        tr + 1,
                        key2,
                    ) by {
                    assert(laying_key_ok(
                        self.remaining@,
                        self.active@,
                        ps,
                        vals,
                        w,
                        h,
                        n,
                        fill,
                        k as int,
                        tc as int,
                        tr as int,
                        key2,
                    ));
                    assert(processed(p, w, h, key_col(key2), key_row(key2), tc as int, tr as int)
                        == processed(p, w, h, key_col(key2), key_row(key2), tc_lo as int, tr + 1));
                }
                assert forall|a: int, b: int|
                    #![trigger processed(p, w, h, a, b, tc_lo as int, tr + 1)]
                    processed(p, w, h, a, b, tc_lo as int, tr + 1) && touch_count(
                        ps,
                        w,
                        h,
                        k + 1,
                        n,
                        a,
                        b,
                    ) == 0 implies exists|i: int|
                        0 <= i < out@.len() && tile_col_of(#[trigger] out@[i]) == a
                            && tile_row_of(out@[i]) == b by {
                    assert(processed(p, w, h, a, b, tc as int, tr as int));
                }
                assert forall|i: int| 0 <= i < out@.len() implies processed(
                    p,
                    w,
                    h,
                    tile_col_of(#[trigger] out@[i]),
                    tile_row_of(out@[i]),
                    tc_lo as int,
                    tr + 1,
                ) by {
                    assert(processed(
                        p,
                        w,
                        h,
                        tile_col_of(out@[i]),
                        tile_row_of(out@[i]),
                        tc as int,
                        tr as int,
                    ));
                }
            }
            tr = tr + 1;
        }
        self.next = after;
        proof {
            assert forall|key2: u128|
                #[trigger] key_state_ok(
                    self.remaining@,
                    self.active@,
                    ps,
                    vals,
                    w,
                    h,
                    n,
                    fill,
                    k + 1,
                    key2,
                ) by {
                lemma_key_tile(key2);
                assert(laying_key_ok(
                    self.remaining@,
                    self.active@,
                    ps,
                    vals,
                    w,
                    h,
                    n,
                    fill,
                    k as int,
                    tc_lo as int,
                    tr as int,
                    key2,
                ));
                let a = key_col(key2);
                let b = key_row(key2);
                if !touches(p, w, h, a, b) {
                    lemma_touch_count_front(ps, w, h, k as int, n, a, b);
                    if self.active@.contains_key(key2) {
                        assert forall|i: int| 0 <= i < TILE_LEN implies #[trigger] self.active@[key2]@[i]
                            == composite(
                            ps,
                            vals,
                            w,
                            h,
                            k + 1,
                            pixel_x(a, i),
                            pixel_y(b, i),
                            fill,
                        ) by {
                            lemma_composite_skip(ps, vals, w, h, k as int, a, b, i, fill);
                        }
                    }
                } else {
                    assert(processed(p, w, h, a, b, tc_lo as int, tr as int));
                }
            }
            assert forall|a: int, b: int|
                #![trigger touches(ps[k as int], w, h, a, b)]
                touches(ps[k as int], w, h, a, b) && touch_count(ps, w, h, k + 1, n, a, b)
                    == 0 implies exists|i: int|
                    0 <= i < out@.len() && tile_col_of(#[trigger] out@[i]) == a && tile_row_of(
                        out@[i],
                    ) == b by {
                assert(processed(p, w, h, a, b, tc_lo as int, tr as int));
            }
        }
        out
    }

    /// Whether `len` values are enough for one source: at least
    /// `source_width() * source_height()`.
    pub fn holds_source(&self, len: usize) -> (b: bool)
        ensures
            b == (len >= self.source_width() * self.source_height()),
    {
        match self.src_w.checked_mul(self.src_h) {
            Some(need) => len >= need,
            None => false,
        }
    }

    /// The number of sources laid down so far.
    pub fn laid_count(&self) -> (c: usize)
        requires
            self.wf(),
        ensures
            c == self.laid().len(),
    {
        self.next
    }

    /// The number of sources of the mosaic.
    pub fn source_count(&self) -> (c: usize)
        ensures
            c == self.sources().len(),
    {
        self.placements.len()
    }

    /// Whether no tile is held and no source is still to come: true exactly when
    /// every source has been laid down.
    pub fn is_drained(&self) -> (b: bool)
        requires
            self.wf(),
        ensures
            b == (self.laid().len() == self.sources().len()),
    {
        let ghost ps = self.placements@;
        let ghost n = ps.len() as int;
        let ghost s = self.next as int;
        let b = self.active.is_empty() && self.remaining.is_empty();
        proof {
            if s == n {
                assert forall|key: u128| !self.remaining@.contains_key(key) by {
                    assert(key_state_ok(
                        self.remaining@,
                        self.active@,
                        ps,
                        self.laid@,
                        self.src_w,
                        self.src_h,
                        n,
                        self.fill,
                        s,
                        key,
                    ));
                }
                assert forall|key: u128| !self.active@.contains_key(key) by {
                    assert(key_state_ok(
                        self.remaining@,
                        self.active@,
                        ps,
                        self.laid@,
                        self.src_w,
                        self.src_h,
                        n,
                        self.fill,
                        s,
                        key,
                    ));
                }
                assert(self.remaining@ =~= Map::empty());
                assert(self.active@ =~= Map::empty());
            } else {
                let p = ps[s];
                assert(placement_fits(p, self.src_w, self.src_h, self.width, self.height));
                let tc = tile_span(p, self.src_w, self.src_h).0;
                let tr = tile_span(p, self.src_w, self.src_h).2;
                vstd::arithmetic::div_mod::lemma_div_is_ordered(p.0 as int, p.0 + self.src_w - 1, TIFF_TILE_W as int);
                vstd::arithmetic::div_mod::lemma_div_is_ordered(p.1 as int, p.1 + self.src_h - 1, TIFF_TILE_H as int);
                assert(touches(p, self.src_w, self.src_h, tc, tr));
                assert(0 <= tc < key_base()) by {
                    vstd::arithmetic::div_mod::lemma_div_is_ordered(p.0 as int, usize::MAX as int, TIFF_TILE_W as int);
                }
                assert(0 <= tr < key_base()) by {
                    vstd::arithmetic::div_mod::lemma_div_is_ordered(p.1 as int, usize::MAX as int, TIFF_TILE_H as int);
                }
                lemma_tile_key(tc, tr);
                let key = tile_key(tc, tr);
                lemma_touch_count_front(ps, self.src_w, self.src_h, s, n, tc, tr);
                assert(key_state_ok(
                    self.remaining@,
                    self.active@,
                    ps,
                    self.laid@,
                    self.src_w,
                    self.src_h,
                    n,
                    self.fill,
                    s,
                    key,
                ));
                assert(self.remaining@.contains_key(key));
                assert(self.remaining@.dom().contains(key));
            }
        }
        b
    }
}

/// The pixels of a tile that no source in `ps[lo..hi]` reaches keep the value
/// they had after the first `lo` sources.
pub proof fn lemma_composite_stable<T>(
    ps: Seq<(usize, usize)>,
    vals: Seq<Seq<T>>,
    w: usize,
    h: usize,
    lo: int,
    hi: int,
    tc: int,
    tr: int,
    i: int,
    fill: T,
)
    requires
        w >= 1,
        h >= 1,
        0 <= lo <= hi,
        0 <= tc,
        0 <= tr,
        0 <= i < TILE_LEN,
        touch_count(ps, w, h, lo, hi, tc, tr) == 0,
    ensures
        composite(ps, vals, w, h, hi, pixel_x(tc, i), pixel_y(tr, i), fill) == composite(
            ps,
            vals,
            w,
            h,
            lo,
            pixel_x(tc, i),
            pixel_y(tr, i),
            fill,
        ),
    decreases hi - lo,
{
    if lo < hi {
        lemma_composite_stable(ps, vals, w, h, lo, hi - 1, tc, tr, i, fill);
        lemma_composite_skip(ps, vals, w, h, hi - 1, tc, tr, i, fill);
    }
}

/// A tile handed out after source `k` already holds the final mosaic: when no
/// later source among the `n` reaches it, its pixels are those of the mosaic
/// with all `n` sources laid down, whatever the later sources hold.
pub proof fn lemma_handed_out_tile_is_final<T>(
    t: FinishedTile<T>,
    ps: Seq<(usize, usize)>,
    laid: Seq<Seq<T>>,
    all: Seq<Seq<T>>,
    w: usize,
    h: usize,
    k: int,
    n: int,
    width: int,
    height: int,
    fill: T,
)
    requires
        w >= 1,
        h >= 1,
        0 <= k < n,
        laid.len() == k + 1,
        all.len() >= n,
        all.take(k + 1) == laid,
        finished_tile(t, ps, laid, w, h, k + 1, width, height, fill),
        touch_count(ps, w, h, k + 1, n, tile_col_of(t), tile_row_of(t)) == 0,
    ensures
        finished_tile(t, ps, all, w, h, n, width, height, fill),
{
    let tc = tile_col_of(t);
    let tr = tile_row_of(t);
    assert forall|j: int| 0 <= j < t.data@.len() implies #[trigger] t.data@[j] == composite(
        ps,
        all,
        w,
        h,
        n,
        t.x + j % t.width as int,
        t.y + j / t.width as int,
        fill,
    ) by {
        let tw = t.width as int;
        let th = t.height as int;
        assert(tw > 0) by {
            if tw == 0 {
                assert(t.data@.len() == 0) by (nonlinear_arith)
                    requires
                        t.data@.len() == tw * th,
                        tw == 0,
                ;
            }
        }
        lemma_row_major_index(j, tw, th);
        let r = j / tw;
        let c = j % tw;
        lemma_tile_pixel(r, c);
        let m = r * TIFF_TILE_W as int + c;
        assert(0 <= m < TILE_LEN);
        assert(pixel_x(tc, m) == t.x + c);
        assert(pixel_y(tr, m) == t.y + r);
        assert(0 <= tc) by {
            vstd::arithmetic::div_mod::lemma_div_is_ordered(0, t.x as int, TIFF_TILE_W as int);
        }
        assert(0 <= tr) by {
            vstd::arithmetic::div_mod::lemma_div_is_ordered(0, t.y as int, TIFF_TILE_H as int);
        }
        lemma_composite_stable(ps, all, w, h, k + 1, n, tc, tr, m, fill);
        lemma_composite_prefix(ps, laid, all, w, h, k + 1, pixel_x(tc, m), pixel_y(tr, m), fill);
    }
}

/// Each tile that some source reaches is the last-reached tile of exactly one
/// source: over a whole assembly it is handed out once, after that source.
pub proof fn lemma_tile_handed_out_once(
    ps: Seq<(usize, usize)>,
    w: usize,
    h: usize,
    n: int,
    tc: int,
    tr: int,
)
    requires
        0 <= n,
        touch_count(ps, w, h, 0, n, tc, tr) > 0,
    ensures
        exists|k: int|
            0 <= k < n && #[trigger] touches(ps[k], w, h, tc, tr) && touch_count(
                ps,
                w,
                h,
                k + 1,
                n,
                tc,
                tr,
            ) == 0,
        forall|k1: int, k2: int|
            0 <= k1 < n && 0 <= k2 < n && #[trigger] touches(ps[k1], w, h, tc, tr) && touch_count(
                ps,
                w,
                h,
                k1 + 1,
                n,
                tc,
                tr,
            ) == 0 && #[trigger] touches(ps[k2], w, h, tc, tr) && touch_count(
                ps,
                w,
                h,
                k2 + 1,
                n,
                tc,
                tr,
            ) == 0 ==> k1 == k2,
{
    lemma_touch_count_positive(ps, w, h, 0, n, tc, tr);
    lemma_last_toucher(ps, w, h, n, n, tc, tr);
    assert forall|k1: int, k2: int|
        0 <= k1 < n && 0 <= k2 < n && #[trigger] touches(ps[k1], w, h, tc, tr) && touch_count(
            ps,
            w,
            h,
            k1 + 1,
            n,
            tc,
            tr,
        ) == 0 && #[trigger] touches(ps[k2], w, h, tc, tr) && touch_count(
            ps,
            w,
            h,
            k2 + 1,
            n,
            tc,
            tr,
        ) == 0 implies k1 == k2 by {
        if k1 < k2 {
            lemma_touch_count_positive(ps, w, h, k1 + 1, n, tc, tr);
        } else if k2 < k1 {
            lemma_touch_count_positive(ps, w, h, k2 + 1, n, tc, tr);
        }
    }
}

/// Among the first `m` sources, when one reaches the tile, some source is the
/// last of those to reach it.
proof fn lemma_last_toucher(
    ps: Seq<(usize, usize)>,
    w: usize,
    h: usize,
    m: int,
    n: int,
    tc: int,
    tr: int,
)
    requires
        0 <= m <= n,
        touch_count(ps, w, h, m, n, tc, tr) == 0,
        exists|j: int| 0 <= j < m && #[trigger] touches(ps[j], w, h, tc, tr),
    ensures
        exists|k: int|
            0 <= k < n && #[trigger] touches(ps[k], w, h, tc, tr) && touch_count(
                ps,
                w,
                h,
                k + 1,
                n,
                tc,
                tr,
            ) == 0,
    decreases m,
{
    if touches(ps[m - 1], w, h, tc, tr) {
        assert(touches(ps[m - 1], w, h, tc, tr) && touch_count(ps, w, h, m, n, tc, tr) == 0);
    } else {
        lemma_touch_count_front(ps, w, h, m - 1, n, tc, tr);
        let j = choose|j: int| 0 <= j < m && #[trigger] touches(ps[j], w, h, tc, tr);
        assert(j < m - 1);
        lemma_last_toucher(ps, w, h, m - 1, n, tc, tr);
    }
}

/// A mosaic of one source is that source where it lies, and the fill value
/// elsewhere: merging a single grid reproduces the grid.
pub proof fn lemma_single_source_mosaic<T>(
    p: (usize, usize),
    vals: Seq<T>,
    w: usize,
    h: usize,
    x: int,
    y: int,
    fill: T,
)
    ensures
        composite(seq![p], seq![vals], w, h, 1, x, y, fill) == if covers(p, w, h, x, y) {
            vals[(y - p.1) * w + (x - p.0)]
        } else {
            fill
        },
{
    assert(composite(seq![p], seq![vals], w, h, 0, x, y, fill) == fill);
}

/// Whether at most one of the first `n` sources covers pixel `(x, y)`.
pub open spec fn covered_at_most_once(
    ps: Seq<(usize, usize)>,
    w: usize,
    h: usize,
    n: int,
    x: int,
    y: int,
) -> bool {
    forall|a: int, b: int|
        0 <= a < n && 0 <= b < n && #[trigger] covers(ps[a], w, h, x, y) && #[trigger] covers(
            ps[b],
            w,
            h,
            x,
            y,
        ) ==> a == b
}

/// Where at most one source covers a pixel, the mosaic holds that source's value
/// there, or the fill value where none does: the order of the sources plays no
/// part.
pub proof fn lemma_single_cover<T>(
    ps: Seq<(usize, usize)>,
    vals: Seq<Seq<T>>,
    w: usize,
    h: usize,
    n: int,
    x: int,
    y: int,
    fill: T,
)
    requires
        0 <= n,
        covered_at_most_once(ps, w, h, n, x, y),
    ensures
        forall|j: int|
            0 <= j < n && #[trigger] covers(ps[j], w, h, x, y) ==> composite(
                ps,
                vals,
                w,
                h,
                n,
                x,
                y,
                fill,
            ) == source_value(ps[j], w, vals[j], x, y),
        (forall|j: int| 0 <= j < n ==> !#[trigger] covers(ps[j], w, h, x, y)) ==> composite(
            ps,
            vals,
            w,
            h,
            n,
            x,
            y,
            fill,
        ) == fill,
    decreases n,
{
    if n > 0 {
        lemma_single_cover(ps, vals, w, h, n - 1, x, y, fill);
    }
}

/// Whether some entry of `perm` is `j`.
pub open spec fn takes_value(perm: Seq<int>, j: int) -> bool {
    exists|i: int| 0 <= i < perm.len() && #[trigger] perm[i] == j
}

/// Merging grids whose footprints do not overlap gives the same mosaic whatever
/// order the grids come in: laying the sources down in any permuted order
/// `perm` gives every pixel that at most one source covers the same value.
pub proof fn lemma_disjoint_order_free<T>(
    ps: Seq<(usize, usize)>,
    vals: Seq<Seq<T>>,
    perm: Seq<int>,
    w: usize,
    h: usize,
    x: int,
    y: int,
    fill: T,
)
    requires
        perm.len() == ps.len(),
        vals.len() == ps.len(),
        forall|i: int| 0 <= i < perm.len() ==> 0 <= #[trigger] perm[i] < perm.len(),
        forall|i: int, k: int|
            0 <= i < perm.len() && 0 <= k < perm.len() && #[trigger] perm[i] == #[trigger] perm[k]
                ==> i == k,
        forall|j: int| 0 <= j < perm.len() ==> #[trigger] takes_value(perm, j),
        covered_at_most_once(ps, w, h, ps.len() as int, x, y),
    ensures
        composite(ps, vals, w, h, ps.len() as int, x, y, fill) == composite(
            Seq::new(ps.len(), |i: int| ps[perm[i]]),
            Seq::new(ps.len(), |i: int| vals[perm[i]]),
            w,
            h,
            ps.len() as int,
            x,
            y,
            fill,
        ),
{
    let n = ps.len() as int;
    let qs = Seq::new(ps.len(), |i: int| ps[perm[i]]);
    let ws = Seq::new(ps.len(), |i: int| vals[perm[i]]);
    assert forall|a: int, b: int|
        0 <= a < n && 0 <= b < n && #[trigger] covers(qs[a], w, h, x, y) && #[trigger] covers(
            qs[b],
            w,
            h,
            x,
            y,
        ) implies a == b by {
        assert(covers(ps[perm[a]], w, h, x, y) && covers(ps[perm[b]], w, h, x, y));
    }
    lemma_single_cover(ps, vals, w, h, n, x, y, fill);
    lemma_single_cover(qs, ws, w, h, n, x, y, fill);
    if exists|j: int| 0 <= j < n && #[trigger] covers(ps[j], w, h, x, y) {
        let j = choose|j: int| 0 <= j < n && #[trigger] covers(ps[j], w, h, x, y);
        assert(takes_value(perm, j));
        let i = choose|i: int| 0 <= i < n && #[trigger] perm[i] == j;
        assert(qs[i] == ps[j] && ws[i] == vals[j]);
        assert(covers(qs[i], w, h, x, y));
    } else {
        assert forall|i: int| 0 <= i < n implies !#[trigger] covers(qs[i], w, h, x, y) by {
            assert(qs[i] == ps[perm[i]]);
            if covers(qs[i], w, h, x, y) {
                assert(covers(ps[perm[i]], w, h, x, y));
            }
        }
    }
}

/// Whether source `a` is laid down before source `b` when the sources sit at
/// `offsets`: by row offset, then by column offset, then in input order.
pub open spec fn laid_before(offsets: Seq<(usize, usize)>, a: int, b: int) -> bool {
    let pa = offsets[a];
    let pb = offsets[b];
    pa.1 < pb.1 || (pa.1 == pb.1 && (pa.0 < pb.0 || (pa.0 == pb.0 && a < b)))
}

/// Whether `a` occurs in `order`.
pub open spec fn lists(order: Seq<usize>, a: int) -> bool {
    exists|i: int| 0 <= i < order.len() && #[trigger] order[i] == a
}

fn lays_before(offsets: &Vec<(usize, usize)>, a: usize, b: usize) -> (res: bool)
    requires
        a < offsets@.len(),
        b < offsets@.len(),
    ensures
        res == laid_before(offsets@, a as int, b as int),
{
    let pa = offsets[a];
    let pb = offsets[b];
    pa.1 < pb.1 || (pa.1 == pb.1 && (pa.0 < pb.0 || (pa.0 == pb.0 && a < b)))
}

/// The order in which the sources at `offsets` are laid down: a permutation of
/// their indices, sorted by row offset, then column offset, and stable for equal
/// offsets.
pub fn processing_order(offsets: &Vec<(usize, usize)>) -> (order: Vec<usize>)
    ensures
        order@.len() == offsets@.len(),
        forall|i: int| 0 <= i < order@.len() ==> (#[trigger] order@[i]) < offsets@.len(),
        forall|a: int| 0 <= a < offsets@.len() ==> #[trigger] lists(order@, a),
        forall|i: int, j: int|
            0 <= i < j < order@.len() ==> laid_before(offsets@, #[trigger] order@[i] as int, #[trigger] order@[j] as int),
{
    let n = offsets.len();
    let mut order: Vec<usize> = Vec::new();
    for i in 0..n
        invariant
            n == offsets@.len(),
            order@.len() == i,
            forall|q: int| 0 <= q < order@.len() ==> (#[trigger] order@[q]) < i,
            forall|a: int| 0 <= a < i ==> #[trigger] lists(order@, a),
            forall|q: int, r: int|
                0 <= q < r < order@.len() ==> laid_before(offsets@, #[trigger] order@[q] as int, #[trigger] order@[r] as int),
    {
        let mut pos: usize = 0;
        while pos < order.len() && lays_before(offsets, order[pos], i)
            invariant
                n == offsets@.len(),
                i < n,
                order@.len() == i,
                pos <= order@.len(),
                forall|q: int| 0 <= q < order@.len() ==> (#[trigger] order@[q]) < i,
                forall|q: int| 0 <= q < pos ==> laid_before(offsets@, #[trigger] order@[q] as int, i as int),
            decreases order@.len() - pos,
        {
            pos = pos + 1;
        }
        let ghost old_order = order@;
        order.insert(pos, i);
        proof {
            assert forall|q: int, r: int|
                0 <= q < r < order@.len() implies laid_before(offsets@, #[trigger] order@[q] as int, #[trigger] order@[r] as int) by {
                if r < pos {
                    assert(order@[q] == old_order[q] && order@[r] == old_order[r]);
                } else if r == pos {
                    assert(order@[q] == old_order[q]);
                } else if q == pos {
                    assert(order@[r] == old_order[r - 1]);
                    assert(!laid_before(offsets@, old_order[pos as int] as int, i as int));
                    if r - 1 > pos {
                        assert(laid_before(offsets@, old_order[pos as int] as int, old_order[r - 1] as int));
                    }
                } else if q < pos {
                    assert(order@[q] == old_order[q] && order@[r] == old_order[r - 1]);
                } else {
                    assert(order@[q] == old_order[q - 1] && order@[r] == old_order[r - 1]);
                }
            }
            assert forall|a: int| 0 <= a < i + 1 implies #[trigger] lists(order@, a) by {
                if a == i {
                    assert(order@[pos as int] == a);
                } else {
                    assert(lists(old_order, a));
                    let q = choose|q: int| 0 <= q < old_order.len() && #[trigger] old_order[q] == a;
                    if q < pos {
                        assert(order@[q] == a);
                    } else {
                        assert(order@[q + 1] == a);
                    }
                }
            }
            assert forall|q: int| 0 <= q < order@.len() implies (#[trigger] order@[q]) < i + 1 by {
                if q < pos {
                    assert(order@[q] == old_order[q]);
                } else if q > pos {
                    assert(order@[q] == old_order[q - 1]);
                }
            }
        }
    }
    order
}

/// Why sources cannot be merged into one mosaic.
#[derive(Clone, Copy, Debug)]
pub enum MergeError {
    /// There is no source to merge.
    NoInputs,
    /// Source `index` has the shape `found`, not the `expected` shape of the first.
    ShapeMismatch { index: usize, expected: (usize, usize), found: (usize, usize) },
}

/// The shape that all sources of a mosaic share: the first source's shape,
/// unless there is no source or some source has another shape (the first such
/// is reported).
pub fn common_tile_shape(shapes: &Vec<(usize, usize)>) -> (res: Result<(usize, usize), MergeError>)
    ensures
        shapes@.len() == 0 ==> res == Err::<(usize, usize), MergeError>(MergeError::NoInputs),
        shapes@.len() > 0 ==> match res {
            Ok(s) => s == shapes@[0] && forall|i: int| 0 <= i < shapes@.len() ==> #[trigger] shapes@[i] == s,
            Err(MergeError::ShapeMismatch { index, expected, found }) => {
                &&& expected == shapes@[0]
                &&& index < shapes@.len()
                &&& found == shapes@[index as int]
                &&& found != expected
                &&& forall|i: int| 0 <= i < index ==> #[trigger] shapes@[i] == expected
            },
            Err(MergeError::NoInputs) => false,
        },
{
    if shapes.len() == 0 {
        return Err(MergeError::NoInputs);
    }
    let expected = shapes[0];
    for i in 0..shapes.len()
        invariant
            shapes@.len() > 0,
            expected == shapes@[0],
            forall|j: int| 0 <= j < i ==> #[trigger] shapes@[j] == expected,
    {
        let found = shapes[i];
        if found.0 != expected.0 || found.1 != expected.1 {
            return Err(MergeError::ShapeMismatch { index: i, expected, found });
        }
    }
    Ok(expected)
}

/// A grid that lies inside the mosaic fits it, however many tiles it spans, as
/// long as the mosaic's size leaves room for one more tile in `usize`.
pub proof fn lemma_inside_placement_fits(
    p: (usize, usize),
    w: usize,
    h: usize,
    width: usize,
    height: usize,
)
    requires
        w >= 1,
        h >= 1,
        p.0 + w <= width,
        p.1 + h <= height,
        width + TIFF_TILE_W <= usize::MAX,
        height + TIFF_TILE_H <= usize::MAX,
    ensures
        placement_fits(p, w, h, width, height),
{
    vstd::arithmetic::div_mod::lemma_fundamental_div_mod(p.0 + w - 1, TIFF_TILE_W as int);
    vstd::arithmetic::div_mod::lemma_fundamental_div_mod(p.1 + h - 1, TIFF_TILE_H as int);
    let s = tile_span(p, w, h);
    assert(s.1 * TIFF_TILE_W as int <= p.0 + w - 1);
    assert(s.3 * TIFF_TILE_H as int <= p.1 + h - 1);
}

/// Grids that all lie inside the mosaic make a layout that can be assembled.
pub proof fn lemma_inside_layout_ok(
    width: usize,
    height: usize,
    w: usize,
    h: usize,
    ps: Seq<(usize, usize)>,
)
    requires
        w >= 1,
        h >= 1,
        width + TIFF_TILE_W <= usize::MAX,
        height + TIFF_TILE_H <= usize::MAX,
        forall|j: int| 0 <= j < ps.len() ==> (#[trigger] ps[j]).0 + w <= width && ps[j].1 + h <= height,
    ensures
        layout_ok(width, height, w, h, ps),
{
    assert forall|j: int| 0 <= j < ps.len() implies placement_fits(#[trigger] ps[j], w, h, width, height) by {
        lemma_inside_placement_fits(ps[j], w, h, width, height);
    }
}

} // verus!
