//! The lossless transforms, undone.
//!
//! Each works over a range of rows of a flat picture of `u32` pixels,
//! addressed by the offset of its first row and a stride. A pixel's four bytes,
//! lowest first, are alpha, red, green and blue.

use vstd::prelude::*;
use vstd::arithmetic::power2::pow2;
use crate::dsp::vp8l::{chan, le_byte, pixel, lemma_chan_bits, pred_at, chain, spec_add_pixels, add_pixels, pred_add_1, pred_add_row, BLACK};
use crate::error::{Error, Result};
use super::state::{ImageContext, Picture, Transform};

verus! {

/// The picture with the `n` pixels at `at` reconstructed by predictor `m`
/// from their residuals, the row segment above them starting at `up`, and the
/// pixels to their left and above-left.
pub open spec fn tiled(p: Seq<u32>, m: int, at: int, up: int, n: int) -> Seq<u32> {
    Seq::new(
        p.len(),
        |i: int|
            if at <= i < at + n {
                pred_at(m, p.subrange(at, at + n), p.subrange(up, up + n + 1), p[at - 1], p[up - 1], i - at)
            } else {
                p[i]
            },
    )
}

/// The predictor mode of the tile holding pixel `(x, y)`: the green byte of
/// the tile's entry in the mode image.
pub open spec fn tile_mode(modes: Seq<u32>, ms: int, tb: nat, y: int, x: int) -> int {
    chan(modes[(y / pow2(tb) as int) * ms + x / pow2(tb) as int], 2)
}

/// Where the tile holding column `x` ends, within a row of `width`.
pub open spec fn tile_end(x: int, ts: int, width: int) -> int {
    if (x / ts) * ts + ts < width { (x / ts) * ts + ts } else { width }
}

/// Row `y`, from column `x` on, tile by tile; stops, reporting failure, at a
/// tile whose mode is not one of the fourteen predictors.
pub open spec fn row_tiles(p: Seq<u32>, row: int, up: int, width: int, modes: Seq<u32>, ms: int, tb: nat, y: int, x: int) -> (Seq<u32>, bool)
    decreases width - x,
{
    if x >= width || x < 0 {
        (p, true)
    } else {
        let m = tile_mode(modes, ms, tb, y, x);
        if m > 13 {
            (p, false)
        } else {
            let xe = tile_end(x, pow2(tb) as int, width);
            if xe <= x {
                (p, true)
            } else {
                row_tiles(tiled(p, m, row + x, up + x, xe - x), row, up, width, modes, ms, tb, y, xe)
            }
        }
    }
}

/// Row `y` reconstructed: its first pixel from the one above, the slot just
/// past the row above set to this row's first pixel (the top-right neighbour
/// of the row's last pixel) unless that is where the row already starts, and
/// then the rest tile by tile.
pub open spec fn row_done(p: Seq<u32>, row: int, up: int, width: int, modes: Seq<u32>, ms: int, tb: nat, y: int) -> (Seq<u32>, bool) {
    let p1 = p.update(row, spec_add_pixels(p[row], p[up]));
    let p2 = if up + width != row { p1.update(up + width, p1[row]) } else { p1 };
    row_tiles(p2, row, up, width, modes, ms, tb, y, 1)
}

/// Rows `y` to `y1`, the first at `row` below the row at `up`, each next one
/// `stride` further on; stops at the first row that fails.
pub open spec fn rows_done(p: Seq<u32>, row: int, up: int, stride: int, width: int, modes: Seq<u32>, ms: int, tb: nat, y: int, y1: int) -> (Seq<u32>, bool)
    decreases y1 - y,
{
    if y >= y1 {
        (p, true)
    } else {
        let (q, ok) = row_done(p, row, up, width, modes, ms, tb, y);
        if !ok {
            (q, false)
        } else {
            rows_done(q, row + stride, row, stride, width, modes, ms, tb, y + 1, y1)
        }
    }
}

/// The picture's first row: black predicts its first pixel, the left
/// neighbour each one after.
pub open spec fn first_row(p: Seq<u32>, row: int, width: int) -> Seq<u32> {
    let p1 = p.update(row, spec_add_pixels(p[row], BLACK));
    Seq::new(
        p.len(),
        |i: int| if row + 1 <= i < row + width { chain(p1.subrange(row + 1, row + width), p1[row], i - row - 1) } else { p1[i] },
    )
}

/// The spatial predictor undone over rows `y0` to `y1` (the first one at
/// `base`), with whether every tile's mode was a predictor.
pub open spec fn predicted(p: Seq<u32>, base: int, stride: int, width: int, modes: Seq<u32>, ms: int, tb: nat, y0: int, y1: int, upper0: Option<usize>) -> (Seq<u32>, bool) {
    if width == 0 || y1 <= y0 {
        (p, true)
    } else if y0 == 0 {
        rows_done(first_row(p, base, width), base + stride, base, stride, width, modes, ms, tb, 1, y1)
    } else {
        match upper0 {
            None => (p, true),
            Some(u) => rows_done(p, base, u as int, stride, width, modes, ms, tb, y0, y1),
        }
    }
}

/// Reconstructs `n` pixels at `at` with predictor `mode` from the row segment
/// at `up`.
fn pred_tile(plane: &mut [u32], mode: u8, at: usize, up: usize, n: usize)
    requires
        mode <= 13,
        1 <= at,
        1 <= up,
        at + n <= old(plane).len(),
        up + n + 1 <= old(plane).len(),
    ensures
        final(plane)@ == tiled(old(plane)@, mode as int, at as int, up as int, n as int),
{
    let mut out: Vec<u32> = Vec::new();
    let mut i: usize = 0;
    while i < n
        invariant
            i <= n,
            at + n <= plane.len(),
            out@ == plane@.subrange(at as int, at + i),
        decreases n - i,
    {
        out.push(plane[at + i]);
        i += 1;
    }
    let mut upper: Vec<u32> = Vec::new();
    let mut i: usize = 0;
    while i < n + 1
        invariant
            i <= n + 1,
            up + n + 1 <= plane.len(),
            upper@ == plane@.subrange(up as int, up + i),
        decreases n + 1 - i,
    {
        upper.push(plane[up + i]);
        i += 1;
    }
    let left = plane[at - 1];
    let tl = plane[up - 1];
    let ghost res = out@;
    pred_add_row(mode, out.as_mut_slice(), upper.as_slice(), left, tl);
    let ghost before = plane@;
    let mut i: usize = 0;
    while i < n
        invariant
            i <= n,
            at + n <= plane.len(),
            plane.len() == before.len(),
            out@.len() == n,
            forall|j: int| 0 <= j < n ==> #[trigger] out@[j] == pred_at(mode as int, res, upper@, left, tl, j),
            plane@ == Seq::new(before.len(), |k: int| if at <= k < at + i { out@[k - at] } else { before[k] }),
        decreases n - i,
    {
        plane[at + i] = out[i];
        i += 1;
        assert(plane@ =~= Seq::new(before.len(), |k: int| if at <= k < at + i { out@[k - at] } else { before[k] }));
    }
    assert(plane@ =~= tiled(before, mode as int, at as int, up as int, n as int));
}

/// What undoing the predictor asks of its arguments: the rows fit in the
/// plane, the row each one is predicted from lies clear of the row being
/// written (apart from the slot just past it), and every tile has its entry in
/// the mode image.
pub open spec fn predictor_fits(
    len: int,
    base: int,
    stride: int,
    width: int,
    modes_len: int,
    ms: int,
    tb: nat,
    y0: int,
    y1: int,
    upper0: Option<usize>,
) -> bool {
    width > 0 && y1 > y0 ==> {
        &&& y0 >= 0
        &&& base + (y1 - y0) * stride <= usize::MAX
        &&& base + (y1 - y0 - 1) * stride + width <= len
        &&& y1 - y0 > 1 ==> stride >= width
        &&& width > 1 ==> ((y1 - 1) / (pow2(tb) as int)) * ms + (width - 1) / (pow2(tb) as int) < modes_len
        &&& y0 > 0 ==> upper_clear(len, base, width, upper0)
    }
}

/// The row above the first, where the caller gives one, lies clear of it.
pub open spec fn upper_clear(len: int, base: int, width: int, upper0: Option<usize>) -> bool {
    match upper0 {
        None => true,
        Some(u) => u + width < len && (u + width <= base || u >= base + width + 1),
    }
}

proof fn lemma_mode_index(y: int, y1: int, x: int, width: int, ts: int, ms: int)
    requires
        0 <= y < y1,
        1 <= x < width,
        ts >= 1,
        ms >= 0,
    ensures
        (y / ts) * ms + x / ts <= ((y1 - 1) / ts) * ms + (width - 1) / ts,
        0 <= (y / ts) * ms + x / ts,
{
    vstd::arithmetic::div_mod::lemma_div_is_ordered(y, y1 - 1, ts);
    vstd::arithmetic::div_mod::lemma_div_is_ordered(x, width - 1, ts);
    vstd::arithmetic::div_mod::lemma_div_pos_is_pos(y, ts);
    vstd::arithmetic::div_mod::lemma_div_pos_is_pos(x, ts);
    assert((y / ts) * ms <= ((y1 - 1) / ts) * ms) by (nonlinear_arith)
        requires
            y / ts <= (y1 - 1) / ts,
            ms >= 0,
    ;
    assert(0 <= (y / ts) * ms) by (nonlinear_arith)
        requires
            y / ts >= 0,
            ms >= 0,
    ;
}

/// Reconstructs the picture's first row at `row`.
fn predict_first_row(plane: &mut [u32], row: usize, width: usize)
    requires
        width >= 1,
        row + width <= old(plane).len(),
    ensures
        final(plane)@ == first_row(old(plane)@, row as int, width as int),
{
    let ghost p0 = plane@;
    let v = add_pixels(plane[row], BLACK);
    plane[row] = v;
    if width > 1 {
        let mut seg: Vec<u32> = Vec::new();
        let mut i: usize = 0;
        while i < width - 1
            invariant
                i <= width - 1,
                row + width <= plane.len(),
                seg@ == plane@.subrange(row + 1, row + 1 + i),
            decreases width - 1 - i,
        {
            seg.push(plane[row + 1 + i]);
            i += 1;
        }
        let ghost res = seg@;
        let left = plane[row];
        pred_add_1(seg.as_mut_slice(), left);
        let ghost before = plane@;
        let mut i: usize = 0;
        while i < width - 1
            invariant
                i <= width - 1,
                row + width <= plane.len(),
                plane.len() == before.len(),
                seg@.len() == width - 1,
                forall|j: int| 0 <= j < width - 1 ==> #[trigger] seg@[j] == chain(res, left, j),
                plane@ == Seq::new(before.len(), |k: int| if row + 1 <= k < row + 1 + i { seg@[k - row - 1] } else { before[k] }),
            decreases width - 1 - i,
        {
            plane[row + 1 + i] = seg[i];
            i += 1;
            assert(plane@ =~= Seq::new(before.len(), |k: int| if row + 1 <= k < row + 1 + i { seg@[k - row - 1] } else { before[k] }));
        }
    }
    assert(plane@ =~= first_row(p0, row as int, width as int));
}

/// Reconstructs row `y` at `row` from the row at `up`; false where a tile's
/// mode is not a predictor, with the row done up to that tile.
fn predict_row(
    plane: &mut [u32],
    row: usize,
    up: usize,
    width: usize,
    modes: &[u32],
    modes_stride: usize,
    tile_size: usize,
    Ghost(tb): Ghost<nat>,
    y: i32,
    Ghost(y1): Ghost<int>,
) -> (ok: bool)
    requires
        0 <= y < y1,
        width >= 1,
        tile_size == pow2(tb),
        tile_size >= 1,
        row + width <= old(plane).len(),
        up + width < old(plane).len(),
        up + width <= row || up >= row + width + 1,
        width > 1 ==> ((y1 - 1) / (pow2(tb) as int)) * modes_stride + (width - 1) / (pow2(tb) as int) < modes.len(),
    ensures
        final(plane).len() == old(plane).len(),
        (final(plane)@, ok) == row_done(old(plane)@, row as int, up as int, width as int, modes@, modes_stride as int, tb, y as int),
{
    let ghost rowres = row_done(plane@, row as int, up as int, width as int, modes@, modes_stride as int, tb, y as int);
    let v = add_pixels(plane[row], plane[up]);
    plane[row] = v;
    if up + width != row {
        let w = plane[row];
        plane[up + width] = w;
    }
    let mut modes_row: usize = 0;
    if width > 1 {
        proof {
            lemma_mode_index(y as int, y1, 1, width as int, tile_size as int, modes_stride as int);
        }
        modes_row = (y as usize / tile_size) * modes_stride;
    }
    let mut x: usize = 1;
    while x < width
        invariant
            1 <= x,
            0 <= y < y1,
            width > 1 ==> modes_row == ((y as int) / (pow2(tb) as int)) * modes_stride,
            tile_size == pow2(tb),
            tile_size >= 1,
            row + width <= plane.len(),
            up + width < plane.len(),
            up + width <= row || up >= row + width + 1,
            width > 1 ==> ((y1 - 1) / (pow2(tb) as int)) * modes_stride + (width - 1) / (pow2(tb) as int) < modes.len(),
            plane.len() == old(plane).len(),
            rowres == row_done(old(plane)@, row as int, up as int, width as int, modes@, modes_stride as int, tb, y as int),
            row_tiles(plane@, row as int, up as int, width as int, modes@, modes_stride as int, tb, y as int, x as int) == rowres,
        decreases width - x,
    {
        proof {
            lemma_mode_index(y as int, y1, x as int, width as int, tile_size as int, modes_stride as int);
        }
        let entry = modes[modes_row + x / tile_size];
        proof {
            lemma_chan_bits(entry);
        }
        let mode = ((entry >> 16) & 0xff) as u8;
        if mode > 13 {
            return false;
        }
        proof {
            vstd::arithmetic::div_mod::lemma_fundamental_div_mod(x as int, tile_size as int);
            assert((x / tile_size) * tile_size <= x) by (nonlinear_arith)
                requires
                    x == tile_size * (x / tile_size) + x % tile_size,
                    0 <= x % tile_size,
            ;
            assert((x / tile_size) * tile_size + tile_size > x) by (nonlinear_arith)
                requires
                    x == tile_size * (x / tile_size) + x % tile_size,
                    x % tile_size < tile_size,
            ;
        }
        let start = (x / tile_size) * tile_size;
        let x_end = if width - start > tile_size { start + tile_size } else { width };
        assert(x_end == tile_end(x as int, tile_size as int, width as int));
        pred_tile(plane, mode, row + x, up + x, x_end - x);
        x = x_end;
    }
    true
}

/// Undoes the spatial predictor over rows `y0..y1`.
///
/// `base` is the offset of row `y0`, and `upper0` the offset of the row above
/// it, which is not simply `base - stride` when the caller keeps that row
/// somewhere else. For `y0 == 0` there is no row above and the first row is
/// coded against its own left neighbour instead. A tile whose mode is not a
/// predictor stops the work with [`Error::InvalidData`].
pub fn predictor_rows(
    plane: &mut [u32],
    base: usize,
    stride: usize,
    width: usize,
    modes: &[u32],
    modes_stride: usize,
    tile_bits: u32,
    y0: i32,
    y1: i32,
    upper0: Option<usize>,
) -> (r: Result<()>)
    requires
        tile_bits < 32,
        predictor_fits(
            old(plane).len() as int,
            base as int,
            stride as int,
            width as int,
            modes.len() as int,
            modes_stride as int,
            tile_bits as nat,
            y0 as int,
            y1 as int,
            upper0,
        ),
    ensures
        final(plane)@ == predicted(
            old(plane)@,
            base as int,
            stride as int,
            width as int,
            modes@,
            modes_stride as int,
            tile_bits as nat,
            y0 as int,
            y1 as int,
            upper0,
        ).0,
        r is Ok == predicted(
            old(plane)@,
            base as int,
            stride as int,
            width as int,
            modes@,
            modes_stride as int,
            tile_bits as nat,
            y0 as int,
            y1 as int,
            upper0,
        ).1,
        r is Err ==> r == Err::<(), Error>(Error::InvalidData),
        final(plane).len() == old(plane).len(),
{
    if width == 0 || y1 <= y0 {
        return Ok(());
    }
    proof {
        vstd::bits::lemma_u32_pow2_no_overflow(tile_bits as nat);
        vstd::bits::lemma_u32_shl_is_mul(1, tile_bits);
    }
    let tile_size = (1u32 << tile_bits) as usize;
    let ghost tb = tile_bits as nat;
    let ghost p0 = plane@;
    let ghost target = predicted(p0, base as int, stride as int, width as int, modes@, modes_stride as int, tb, y0 as int, y1 as int, upper0);
    let mut row = base;
    let mut up: usize = 0;
    let mut y = y0;
    assert(base + width <= plane.len()) by (nonlinear_arith)
        requires
            base + (y1 - y0 - 1) * stride + width <= plane.len(),
            y1 - y0 - 1 >= 0,
    ;
    if y0 == 0 {
        predict_first_row(plane, row, width);
        up = row;
        assert(base + stride <= base + (y1 - y0) * stride) by (nonlinear_arith)
            requires
                y1 - y0 >= 1,
        ;
        row = row + stride;
        y = 1;
        proof {
            if y < y1 {
                assert(row + width <= plane.len()) by (nonlinear_arith)
                    requires
                        row == base + 1 * stride,
                        base + (y1 - y0 - 1) * stride + width <= plane.len(),
                        y1 - y0 - 1 >= 1,
                ;
            }
        }
    } else {
        match upper0 {
            None => {
                return Ok(());
            },
            Some(u) => {
                up = u;
            },
        }
    }
    while y < y1
        invariant
            1 <= y <= y1,
            0 <= y0 <= y,
            width > 0,
            tile_size == pow2(tb),
            tile_size >= 1,
            tb == tile_bits as nat,
            plane.len() == old(plane).len(),
            row == base + (y - y0) * stride,
            base + (y1 - y0) * stride <= usize::MAX,
            base + (y1 - y0 - 1) * stride + width <= plane.len(),
            y1 - y0 > 1 ==> stride >= width,
            width > 1 ==> ((y1 - 1) / (pow2(tb) as int)) * modes_stride + (width - 1) / (pow2(tb) as int) < modes.len(),
            y < y1 ==> up + width < plane.len() && (up + width <= row || up >= row + width + 1),
            rows_done(plane@, row as int, up as int, stride as int, width as int, modes@, modes_stride as int, tb, y as int, y1 as int) == target,
            target == predicted(old(plane)@, base as int, stride as int, width as int, modes@, modes_stride as int, tb, y0 as int, y1 as int, upper0),
        decreases y1 - y,
    {
        assert(row + width <= plane.len()) by (nonlinear_arith)
            requires
                row == base + (y - y0) * stride,
                y < y1,
                base + (y1 - y0 - 1) * stride + width <= plane.len(),
        ;
        let ok = predict_row(plane, row, up, width, modes, modes_stride, tile_size, Ghost(tb), y, Ghost(y1 as int));
        if !ok {
            return Err(Error::InvalidData);
        }
        let ghost old_row = row as int;
        up = row;
        y = y + 1;
        assert(row + stride <= base + (y1 - y0) * stride && row + stride == base + (y - y0) * stride) by (nonlinear_arith)
            requires
                row == base + (y - 1 - y0) * stride,
                y <= y1,
        ;
        row = row + stride;
        proof {
            if y < y1 {
                assert(row + width <= plane.len()) by (nonlinear_arith)
                    requires
                        row == base + (y - y0) * stride,
                        y < y1,
                        base + (y1 - y0 - 1) * stride + width <= plane.len(),
                ;
                assert(stride >= width);
            }
        }
    }
    Ok(())
}

/// What the predictor calls of a batch of rows `y0` to `y1` need: rows that
/// fit, tiles that have their modes, and, past the picture's first row, room
/// in `scratch` for the row above (its first `width + 1` entries) and for the
/// batch's first row behind it at `fw`.
pub open spec fn batch_fits(
    plen: int,
    slen: int,
    base: int,
    stride: int,
    width: int,
    fw: int,
    mlen: int,
    ms: int,
    tb: nat,
    y0: int,
    y1: int,
) -> bool {
    width > 0 && y1 > y0 ==> if y0 == 0 {
        predictor_fits(plen, base, stride, width, mlen, ms, tb, y0, y1, None)
    } else {
        &&& base + width <= plen
        &&& base + stride <= usize::MAX
        &&& fw + width <= slen
        &&& predictor_fits(slen, fw, stride, width, mlen, ms, tb, y0, y0 + 1, Some(0))
        &&& predictor_fits(plen, base + stride, stride, width, mlen, ms, tb, y0 + 1, y1, Some(base as usize))
    }
}

/// A batch of rows `y0` to `y1` predicted, with the row above the batch held
/// in `scratch`: the picture's first row needs none; otherwise the batch's
/// first row is copied in behind the row above at `fw`, predicted there and
/// copied back, and the rows after it have their row above in the picture.
/// Gives the picture, the scratch row, and whether every tile's mode was a
/// predictor.
pub open spec fn batch_predicted(
    p: Seq<u32>,
    s: Seq<u32>,
    base: int,
    stride: int,
    width: int,
    fw: int,
    modes: Seq<u32>,
    ms: int,
    tb: nat,
    y0: int,
    y1: int,
) -> (Seq<u32>, Seq<u32>, bool) {
    if width == 0 || y1 <= y0 {
        (p, s, true)
    } else if y0 == 0 {
        let q = predicted(p, base, stride, width, modes, ms, tb, y0, y1, None);
        (q.0, s, q.1)
    } else {
        let s1 = Seq::new(s.len(), |i: int| if fw <= i < fw + width { p[base + i - fw] } else { s[i] });
        let s2 = predicted(s1, fw, stride, width, modes, ms, tb, y0, y0 + 1, Some(0));
        if !s2.1 {
            (p, s2.0, false)
        } else {
            let p1 = Seq::new(p.len(), |i: int| if base <= i < base + width { s2.0[fw + i - base] } else { p[i] });
            let q = predicted(p1, base + stride, stride, width, modes, ms, tb, y0 + 1, y1, Some(base as usize));
            (q.0, s2.0, q.1)
        }
    }
}

/// Undoes the spatial predictor over a batch of rows whose row above is not
/// in the picture but at the head of `scratch`, as [`batch_predicted`] says.
pub fn predict_batch(
    plane: &mut [u32],
    scratch: &mut [u32],
    base: usize,
    stride: usize,
    width: usize,
    full_width: usize,
    modes: &[u32],
    modes_stride: usize,
    tile_bits: u32,
    y0: i32,
    y1: i32,
) -> (r: Result<()>)
    requires
        tile_bits < 32,
        batch_fits(
            old(plane).len() as int,
            old(scratch).len() as int,
            base as int,
            stride as int,
            width as int,
            full_width as int,
            modes.len() as int,
            modes_stride as int,
            tile_bits as nat,
            y0 as int,
            y1 as int,
        ),
    ensures
        (final(plane)@, final(scratch)@, r is Ok) == batch_predicted(
            old(plane)@,
            old(scratch)@,
            base as int,
            stride as int,
            width as int,
            full_width as int,
            modes@,
            modes_stride as int,
            tile_bits as nat,
            y0 as int,
            y1 as int,
        ),
        r is Err ==> r == Err::<(), Error>(Error::InvalidData),
        final(plane).len() == old(plane).len(),
        final(scratch).len() == old(scratch).len(),
{
    if width == 0 || y1 <= y0 {
        return Ok(());
    }
    if y0 == 0 {
        return predictor_rows(plane, base, stride, width, modes, modes_stride, tile_bits, y0, y1, None);
    }
    let ghost s0 = scratch@;
    let ghost p0 = plane@;
    let mut i: usize = 0;
    while i < width
        invariant
            i <= width,
            base + width <= plane.len(),
            full_width + width <= scratch.len(),
            scratch.len() == s0.len(),
            plane@ == p0,
            scratch@ == Seq::new(s0.len(), |k: int| if full_width <= k < full_width + i { p0[base + k - full_width] } else { s0[k] }),
        decreases width - i,
    {
        scratch[full_width + i] = plane[base + i];
        i += 1;
        assert(scratch@ =~= Seq::new(s0.len(), |k: int| if full_width <= k < full_width + i { p0[base + k - full_width] } else { s0[k] }));
    }
    let first = predictor_rows(scratch, full_width, stride, width, modes, modes_stride, tile_bits, y0, y0 + 1, Some(0));
    if first.is_err() {
        return Err(Error::InvalidData);
    }
    let ghost s2 = scratch@;
    let mut i: usize = 0;
    while i < width
        invariant
            i <= width,
            base + width <= plane.len(),
            full_width + width <= scratch.len(),
            plane.len() == p0.len(),
            scratch@ == s2,
            plane@ == Seq::new(p0.len(), |k: int| if base <= k < base + i { s2[full_width + k - base] } else { p0[k] }),
        decreases width - i,
    {
        plane[base + i] = scratch[full_width + i];
        i += 1;
        assert(plane@ =~= Seq::new(p0.len(), |k: int| if base <= k < base + i { s2[full_width + k - base] } else { p0[k] }));
    }
    predictor_rows(plane, base + stride, stride, width, modes, modes_stride, tile_bits, y0 + 1, y1, Some(base))
}

/// A pixel with green added back into red and blue, each channel wrapping.
pub open spec fn green_added(v: u32) -> u32 {
    pixel(chan(v, 0), (chan(v, 1) + chan(v, 2)) % 256, chan(v, 2), (chan(v, 3) + chan(v, 2)) % 256) as u32
}

fn add_green(v: u32) -> (r: u32)
    ensures
        r == green_added(v),
{
    let g = (v >> 16) & 0xff;
    assert((v >> 8u32) & 0xff <= 255 && (v >> 16u32) & 0xff <= 255 && v >> 24u32 <= 255) by (bit_vector);
    let red = (((v >> 8) & 0xff) + g) & 0xff;
    let blue = ((v >> 24) + g) & 0xff;
    let r = (v & 0x00ff_00ff) | (red << 8) | (blue << 24);
    proof {
        lemma_chan_bits(v);
        lemma_chan_bits(r);
        assert(r & 0xff == v & 0xff && (r >> 8u32) & 0xff == (((v >> 8u32) & 0xff) + ((v >> 16u32) & 0xff)) % 256
            && (r >> 16u32) & 0xff == (v >> 16u32) & 0xff && (r >> 24u32) & 0xff == (((v >> 24u32) & 0xff) + ((v
            >> 16u32) & 0xff)) % 256) by (bit_vector)
            requires
                g == (v >> 16u32) & 0xff,
                red == ((((v >> 8u32) & 0xff) + g) as u32) & 0xff,
                blue == (((v >> 24u32) + g) as u32) & 0xff,
                r == (v & 0x00ff_00ff) | (red << 8u32) | (blue << 24u32),
        ;
    }
    r
}

/// The picture with green added back into the `width` pixels at `at`.
pub open spec fn green_row(p: Seq<u32>, at: int, width: int) -> Seq<u32> {
    Seq::new(p.len(), |i: int| if at <= i < at + width { green_added(p[i]) } else { p[i] })
}

/// The picture after the first `y` rows, `stride` apart from `base`, had green
/// added back.
pub open spec fn green_rows(p: Seq<u32>, base: int, stride: int, width: int, y: int) -> Seq<u32>
    decreases y,
{
    if y <= 0 {
        p
    } else {
        green_row(green_rows(p, base, stride, width, y - 1), base + (y - 1) * stride, width)
    }
}

/// Adds green back into red and blue over `rows` rows of `width` pixels.
pub fn subtract_green_rows(plane: &mut [u32], base: usize, stride: usize, width: usize, rows: i32)
    requires
        rows <= 0 || base + (rows - 1) * stride + width <= old(plane).len(),
    ensures
        final(plane)@ == green_rows(old(plane)@, base as int, stride as int, width as int, rows as int),
        final(plane).len() == old(plane).len(),
{
    if rows <= 0 {
        return;
    }
    let mut row = base;
    let mut y: i32 = 0;
    while y < rows
        invariant
            0 <= y <= rows,
            base + (rows - 1) * stride + width <= plane.len(),
            plane.len() == old(plane).len(),
            y < rows ==> row == base + y * stride,
            plane@ == green_rows(old(plane)@, base as int, stride as int, width as int, y as int),
        decreases rows - y,
    {
        assert(row + width <= plane.len()) by (nonlinear_arith)
            requires
                row == base + y * stride,
                y <= rows - 1,
                base + (rows - 1) * stride + width <= plane.len(),
        ;
        let ghost before = plane@;
        let mut x: usize = 0;
        while x < width
            invariant
                row + width <= plane.len(),
                plane.len() == before.len(),
                x <= width,
                plane@ == Seq::new(
                    before.len(),
                    |i: int| if row <= i < row + x { green_added(before[i]) } else { before[i] },
                ),
            decreases width - x,
        {
            let v = add_green(plane[row + x]);
            plane[row + x] = v;
            x += 1;
            assert(plane@ =~= Seq::new(
                before.len(),
                |i: int| if row <= i < row + x { green_added(before[i]) } else { before[i] },
            ));
        }
        assert(plane@ =~= green_row(before, row as int, width as int));
        if y + 1 < rows {
            assert(row + stride <= plane.len()) by (nonlinear_arith)
                requires
                    row == base + y * stride,
                    y + 1 <= rows - 1,
                    base + (rows - 1) * stride + width <= plane.len(),
            ;
            assert(row + stride == base + (y + 1) * stride) by (nonlinear_arith)
                requires
                    row == base + y * stride,
            ;
            row = row + stride;
        }
        y += 1;
    }
}

/// A byte read as a two's-complement signed value.
pub open spec fn signed(x: int) -> int {
    if x < 128 { x } else { x - 256 }
}

/// What the cross-colour transform adds to a channel: the signed multiplier
/// times the signed colour it is predicted from, scaled down by 32 (rounding
/// towards minus infinity).
pub open spec fn color_delta(mult: int, c: int) -> int {
    (signed(mult) * c) / 32
}

/// A pixel with the cross-colour transform undone by the multipliers in `m`
/// (green-to-red in its blue byte, green-to-blue in its green byte,
/// red-to-blue in its red byte): red gets back what green predicted of it,
/// blue what green and the restored red did, each channel wrapping.
pub open spec fn color_inverted(v: u32, m: u32) -> u32 {
    let g = signed(chan(v, 2));
    let r = (chan(v, 1) + color_delta(chan(m, 3), g)) % 256;
    let b = (chan(v, 3) + color_delta(chan(m, 2), g) + color_delta(chan(m, 1), signed(r))) % 256;
    pixel(chan(v, 0), r, chan(v, 2), b) as u32
}

fn signed_byte(x: u32) -> (r: i32)
    requires
        x < 256,
    ensures
        r == signed(x as int),
{
    if x < 128 {
        x as i32
    } else {
        x as i32 - 256
    }
}

fn delta(mult: u32, c: i32) -> (r: i32)
    requires
        mult < 256,
        -128 <= c < 128,
    ensures
        r == color_delta(mult as int, c as int),
        -512 <= r <= 512,
{
    let sm = signed_byte(mult);
    assert(-16384 <= sm * c <= 16384) by (nonlinear_arith)
        requires
            -128 <= sm < 128,
            -128 <= c < 128,
    ;
    let prod = sm * c;
    assert((prod >> 5i32) as int == (prod as int + 16384) / 32 - 512) by (bit_vector)
        requires
            -16384 <= prod <= 16384,
    ;
    prod >> 5
}

fn invert_color(v: u32, m: u32) -> (r: u32)
    ensures
        r == color_inverted(v, m),
{
    proof {
        lemma_chan_bits(v);
        lemma_chan_bits(m);
        assert(v >> 24u32 <= 255 && m >> 24u32 <= 255 && (v >> 24u32) & 0xff == v >> 24u32 && (m >> 24u32) & 0xff
            == m >> 24u32) by (bit_vector);
    }
    let g = signed_byte((v >> 16) & 0xff);
    let red = ((v >> 8) & 0xff) as i32 + delta(m >> 24, g);
    let new_red = ((red + 512) % 256) as u32;
    let blue = (v >> 24) as i32 + delta((m >> 16) & 0xff, g) + delta((m >> 8) & 0xff, signed_byte(new_red));
    let new_blue = ((blue + 1024) % 256) as u32;
    let r = (v & 0x00ff_00ff) | (new_red << 8) | (new_blue << 24);
    proof {
        assert(new_red == (red as int) % 256) by {
            vstd::arithmetic::div_mod::lemma_mod_add_multiples_vanish(red as int, 256);
            vstd::arithmetic::div_mod::lemma_mod_add_multiples_vanish(red as int + 256, 256);
        }
        assert(new_blue == (blue as int) % 256) by {
            vstd::arithmetic::div_mod::lemma_mod_add_multiples_vanish(blue as int, 256);
            vstd::arithmetic::div_mod::lemma_mod_add_multiples_vanish(blue as int + 256, 256);
            vstd::arithmetic::div_mod::lemma_mod_add_multiples_vanish(blue as int + 512, 256);
            vstd::arithmetic::div_mod::lemma_mod_add_multiples_vanish(blue as int + 768, 256);
        }
        lemma_chan_bits(r);
        assert(r & 0xff == v & 0xff && (r >> 8u32) & 0xff == new_red && (r >> 16u32) & 0xff == (v >> 16u32) & 0xff
            && (r >> 24u32) & 0xff == new_blue) by (bit_vector)
            requires
                new_red < 256,
                new_blue < 256,
                r == (v & 0x00ff_00ff) | (new_red << 8u32) | (new_blue << 24u32),
        ;
    }
    r
}

/// The picture with the cross-colour transform undone over the `width`
/// pixels at `at`, the multipliers of column `x` taken from the mode row at
/// `mrow`, one entry per `ts` columns.
pub open spec fn color_row_done(p: Seq<u32>, at: int, width: int, mult: Seq<u32>, mrow: int, ts: int) -> Seq<u32> {
    Seq::new(
        p.len(),
        |i: int| if at <= i < at + width { color_inverted(p[i], mult[mrow + (i - at) / ts]) } else { p[i] },
    )
}

/// The picture after the first `k` of the rows from `y0` on, `stride` apart
/// from `base`, had the cross-colour transform undone; row `y` takes its
/// multipliers from row `y / ts` of the multiplier image.
pub open spec fn color_rows_done(p: Seq<u32>, base: int, stride: int, width: int, mult: Seq<u32>, ms: int, ts: int, y0: int, k: int) -> Seq<u32>
    decreases k,
{
    if k <= 0 {
        p
    } else {
        let q = color_rows_done(p, base, stride, width, mult, ms, ts, y0, k - 1);
        color_row_done(q, base + (k - 1) * stride, width, mult, ((y0 + k - 1) / ts) * ms, ts)
    }
}

proof fn lemma_no_columns(p: Seq<u32>, base: int, stride: int, mult: Seq<u32>, ms: int, ts: int, y0: int, k: int)
    ensures
        color_rows_done(p, base, stride, 0, mult, ms, ts, y0, k) == p,
    decreases k,
{
    if k > 0 {
        lemma_no_columns(p, base, stride, mult, ms, ts, y0, k - 1);
        assert(color_row_done(p, base + (k - 1) * stride, 0, mult, ((y0 + k - 1) / ts) * ms, ts) =~= p);
    }
}

proof fn lemma_same_tile(x: int, xx: int, ts: int)
    requires
        ts > 0,
        x % ts == 0,
        x <= xx < x + ts,
    ensures
        xx / ts == x / ts,
{
    vstd::arithmetic::div_mod::lemma_fundamental_div_mod(x, ts);
    vstd::arithmetic::div_mod::lemma_div_multiples_vanish_fancy(x / ts, xx - x, ts);
}

/// Undoes the cross-colour transform over rows `y0` to `y1` of `width`
/// pixels, the first at `base`, each next `stride` further on. The
/// multipliers come from an image with one pixel per `2^tile_bits` square
/// tile, its rows `mult_stride` apart.
pub fn color_rows(
    plane: &mut [u32],
    base: usize,
    stride: usize,
    width: usize,
    mult: &[u32],
    mult_stride: usize,
    tile_bits: u32,
    y0: i32,
    y1: i32,
)
    requires
        tile_bits < 32,
        y0 < y1 ==> 0 <= y0 && base + (y1 - y0 - 1) * stride + width <= old(plane).len(),
        y0 < y1 && width > 0 ==> ((y1 - 1) / (pow2(tile_bits as nat) as int)) * mult_stride + (width - 1) / (pow2(
            tile_bits as nat,
        ) as int) < mult.len(),
    ensures
        final(plane)@ == color_rows_done(
            old(plane)@,
            base as int,
            stride as int,
            width as int,
            mult@,
            mult_stride as int,
            pow2(tile_bits as nat) as int,
            y0 as int,
            y1 - y0,
        ),
        final(plane).len() == old(plane).len(),
{
    let ghost ts_int = pow2(tile_bits as nat) as int;
    if y1 <= y0 {
        return;
    }
    if width == 0 {
        proof {
            lemma_no_columns(plane@, base as int, stride as int, mult@, mult_stride as int, ts_int, y0 as int, y1 - y0);
        }
        return;
    }
    let tb = tile_bits as usize;
    proof {
        vstd::bits::lemma_usize_pow2_no_overflow(tb as nat);
        vstd::bits::lemma_usize_shl_is_mul(1, tb);
        vstd::arithmetic::power2::lemma_pow2_pos(tb as nat);
    }
    let tile_size: usize = 1usize << tb;
    assert(tile_size == ts_int);
    let mut row = base;
    let mut y: i32 = y0;
    while y < y1
        invariant
            0 <= y0 <= y <= y1,
            width > 0,
            tb == tile_bits,
            tb < 32,
            tile_size == ts_int,
            ts_int == pow2(tile_bits as nat),
            ts_int > 0,
            base + (y1 - y0 - 1) * stride + width <= plane.len(),
            ((y1 - 1) / ts_int) * mult_stride + (width - 1) / ts_int < mult.len(),
            plane.len() == old(plane).len(),
            y < y1 ==> row == base + (y - y0) * stride,
            plane@ == color_rows_done(
                old(plane)@,
                base as int,
                stride as int,
                width as int,
                mult@,
                mult_stride as int,
                ts_int,
                y0 as int,
                y - y0,
            ),
        decreases y1 - y,
    {
        assert(row + width <= plane.len()) by (nonlinear_arith)
            requires
                row == base + (y - y0) * stride,
                y - y0 <= y1 - y0 - 1,
                base + (y1 - y0 - 1) * stride + width <= plane.len(),
        ;
        proof {
            vstd::bits::lemma_usize_shr_is_div(y as usize, tb);
            vstd::arithmetic::div_mod::lemma_div_is_ordered(y as int, y1 - 1, ts_int);
            vstd::arithmetic::div_mod::lemma_div_is_ordered(0, width - 1, ts_int);
            vstd::arithmetic::div_mod::lemma_div_pos_is_pos(y as int, ts_int);
            vstd::arithmetic::mul::lemma_mul_inequality(y as int / ts_int, (y1 - 1) / ts_int, mult_stride as int);
            vstd::arithmetic::mul::lemma_mul_nonnegative(y as int / ts_int, mult_stride as int);
        }
        let mult_row = ((y as usize) >> tb) * mult_stride;
        let ghost mrow = mult_row as int;
        let ghost before = plane@;
        let mut x: usize = 0;
        while x < width
            invariant
                row + width <= plane.len(),
                plane.len() == before.len(),
                x <= width,
                tile_size == ts_int,
                ts_int == pow2(tb as nat),
                ts_int > 0,
                tb < 32,
                x < width ==> (x as int) % ts_int == 0,
                mrow == mult_row,
                mult_row + (width - 1) / ts_int < mult.len(),
                plane@ == Seq::new(
                    before.len(),
                    |i: int| if row <= i < row + x { color_inverted(before[i], mult@[mrow + (i - row) / ts_int]) } else { before[i] },
                ),
            decreases width - x,
        {
            proof {
                vstd::bits::lemma_usize_shr_is_div(x, tb);
                vstd::arithmetic::div_mod::lemma_div_is_ordered(x as int, width - 1, ts_int);
            }
            let cp = mult[mult_row + (x >> tb)];
            let x_end = if width - x > tile_size { x + tile_size } else { width };
            let ghost x0 = x as int;
            let mut xx = x;
            while xx < x_end
                invariant
                    row + width <= plane.len(),
                    plane.len() == before.len(),
                    x0 <= xx <= x_end <= width,
                    x_end <= x0 + ts_int,
                    x0 % ts_int == 0,
                    ts_int > 0,
                    cp == mult@[mrow + x0 / ts_int],
                    plane@ == Seq::new(
                        before.len(),
                        |i: int| if row <= i < row + xx { color_inverted(before[i], mult@[mrow + (i - row) / ts_int]) } else { before[i] },
                    ),
                decreases x_end - xx,
            {
                proof {
                    lemma_same_tile(x0, xx as int, ts_int);
                }
                let v = invert_color(plane[row + xx], cp);
                plane[row + xx] = v;
                xx += 1;
                assert(plane@ =~= Seq::new(
                    before.len(),
                    |i: int| if row <= i < row + xx { color_inverted(before[i], mult@[mrow + (i - row) / ts_int]) } else { before[i] },
                ));
            }
            proof {
                if x_end < width {
                    vstd::arithmetic::div_mod::lemma_mod_add_multiples_vanish(x0, ts_int);
                }
            }
            x = x_end;
        }
        assert(plane@ =~= color_row_done(before, row as int, width as int, mult@, ((y0 + (y - y0)) / ts_int) * mult_stride, ts_int));
        if y + 1 < y1 {
            assert(row + stride <= plane.len()) by (nonlinear_arith)
                requires
                    row == base + (y - y0) * stride,
                    y + 1 - y0 <= y1 - y0 - 1,
                    base + (y1 - y0 - 1) * stride + width <= plane.len(),
            ;
            assert(row + stride == base + (y + 1 - y0) * stride) by (nonlinear_arith)
                requires
                    row == base + (y - y0) * stride,
            ;
            row = row + stride;
        }
        y += 1;
    }
}

/// The green byte of palette entry `i`, or zero past the palette's end (the
/// palette is padded to 256 entries).
pub open spec fn alpha_palette(pal: Seq<u32>, i: int) -> u8 {
    if 0 <= i < pal.len() && i < 256 {
        le_byte(pal[i], 2)
    } else {
        0
    }
}

/// How many palette indices one source pixel packs, by the size reduction.
pub open spec fn group_size(sr: u32) -> int {
    if sr == 0 {
        1
    } else if sr == 1 {
        2
    } else if sr == 2 {
        4
    } else {
        8
    }
}

/// The width of one packed index.
pub open spec fn index_bits(sr: u32) -> int {
    8int / group_size(sr)
}

/// The palette index of output sample `x` of a row whose source starts at
/// `at`: the `x % group`-th field, lowest first, of the green byte of source
/// pixel `x / group`.
pub open spec fn packed_index(src: Seq<u32>, at: int, sr: u32, x: int) -> int {
    let g = group_size(sr);
    let b = index_bits(sr);
    (chan(src[at + x / g], 2) / (pow2(((x % g) * b) as nat) as int)) % (pow2(b as nat) as int)
}

/// How many samples of row `y` are written: as many as the source row has
/// pixels for, or the whole row where a partial last group is there to read.
pub open spec fn alpha_row_len(src_len: int, at: int, width: int, sr: u32) -> int {
    let g = group_size(sr);
    let left = src_len - at;
    if sr == 0 {
        if width < left { width } else { left }
    } else if width % g != 0 {
        width
    } else if width / g < left {
        width
    } else {
        left * g
    }
}

/// Row `y` can be read and written: its source row starts within the source,
/// a partial last group has its pixel there, and the output row fits.
pub open spec fn alpha_row_fits(src_len: int, ss: int, dst_len: int, ds: int, width: int, sr: u32, y: int) -> bool {
    &&& y * ss <= src_len
    &&& y * ds + width <= dst_len
    &&& sr > 0 && width % group_size(sr) != 0 ==> y * ss + width / group_size(sr) < src_len
}

/// The alpha plane after row `y` is written.
pub open spec fn alpha_row(d: Seq<u8>, src: Seq<u32>, ss: int, ds: int, width: int, pal: Seq<u32>, sr: u32, y: int) -> Seq<u8> {
    let n = alpha_row_len(src.len() as int, y * ss, width, sr);
    Seq::new(
        d.len(),
        |i: int|
            if y * ds <= i < y * ds + n {
                alpha_palette(pal, packed_index(src, y * ss, sr, i - y * ds))
            } else {
                d[i]
            },
    )
}

/// The alpha plane after the first `y` rows are written.
pub open spec fn alpha_rows(d: Seq<u8>, src: Seq<u32>, ss: int, ds: int, width: int, pal: Seq<u32>, sr: u32, y: int) -> Seq<u8>
    decreases y,
{
    if y <= 0 {
        d
    } else {
        alpha_row(alpha_rows(d, src, ss, ds, width, pal, sr, y - 1), src, ss, ds, width, pal, sr, y - 1)
    }
}

/// The palette transform when the picture is an alpha plane and nothing else
/// was applied to it: each index is looked up straight into the green byte of
/// its palette entry, into the caller's plane of `dst_stride`-byte rows.
pub fn color_indexing_alpha(
    src: &[u32],
    src_stride: usize,
    width: usize,
    height: i32,
    pal: &[u32],
    size_reduction: u32,
    dst: &mut [u8],
    dst_stride: usize,
)
    requires
        height >= 0,
        size_reduction < 32,
        forall|y: int|
            0 <= y < height ==> #[trigger] alpha_row_fits(
                src.len() as int,
                src_stride as int,
                old(dst).len() as int,
                dst_stride as int,
                width as int,
                size_reduction,
                y,
            ),
    ensures
        final(dst)@ == alpha_rows(
            old(dst)@,
            src@,
            src_stride as int,
            dst_stride as int,
            width as int,
            pal@,
            size_reduction,
            height as int,
        ),
{
    let mut palette = [0u8; 256];
    let mut i: usize = 0;
    while i < 256 && i < pal.len()
        invariant
            i <= 256,
            forall|k: int| 0 <= k < 256 ==> #[trigger] palette@[k] == if k < i { alpha_palette(pal@, k) } else { 0u8 },
        decreases 256 - i,
    {
        proof {
            lemma_chan_bits(pal@[i as int]);
        }
        palette[i] = ((pal[i] >> 16) & 0xff) as u8;
        i += 1;
    }
    assert forall|k: int| 0 <= k < 256 implies #[trigger] palette@[k] == alpha_palette(pal@, k) by {}
    let g: usize = if size_reduction == 0 {
        1
    } else if size_reduction == 1 {
        2
    } else if size_reduction == 2 {
        4
    } else {
        8
    };
    let b: u32 = (8 / g) as u32;
    let pm: u32 = if b == 8 { 256 } else if b == 4 { 16 } else if b == 2 { 4 } else { 2 };
    proof {
        vstd::arithmetic::power2::lemma2_to64();
    }
    let mut y: usize = 0;
    while y < height as usize
        invariant
            y <= height,
            height >= 0,
            g == group_size(size_reduction),
            b == index_bits(size_reduction),
            pm == pow2(b as nat),
            1 <= pm <= 256,
            forall|k: int| 0 <= k < 256 ==> #[trigger] palette@[k] == alpha_palette(pal@, k),
            dst.len() == old(dst).len(),
            forall|yy: int|
                0 <= yy < height ==> #[trigger] alpha_row_fits(
                    src.len() as int,
                    src_stride as int,
                    old(dst).len() as int,
                    dst_stride as int,
                    width as int,
                    size_reduction,
                    yy,
                ),
            dst@ == alpha_rows(old(dst)@, src@, src_stride as int, dst_stride as int, width as int, pal@, size_reduction, y as int),
        decreases height - y,
    {
        assert(alpha_row_fits(
            src.len() as int,
            src_stride as int,
            old(dst).len() as int,
            dst_stride as int,
            width as int,
            size_reduction,
            y as int,
        ));
        let at = y * src_stride;
        let out = y * dst_stride;
        let left = src.len() - at;
        let n: usize = if size_reduction == 0 {
            if width < left { width } else { left }
        } else if width % g != 0 {
            width
        } else if width / g < left {
            width
        } else {
            left * g
        };
        assert(n == alpha_row_len(src.len() as int, at as int, width as int, size_reduction));
        assert(n <= width);
        let ghost before = dst@;
        let mut x: usize = 0;
        while x < n
            invariant
                x <= n <= width,
                out + width <= dst.len(),
                dst.len() == before.len(),
                g == group_size(size_reduction),
                b == index_bits(size_reduction),
                pm == pow2(b as nat),
                1 <= pm <= 256,
                1 <= g <= 8,
                g == 1 || g == 2 || g == 4 || g == 8,
                b <= 8,
                forall|k: int| 0 <= k < 256 ==> #[trigger] palette@[k] == alpha_palette(pal@, k),
                n == alpha_row_len(src.len() as int, at as int, width as int, size_reduction),
                at <= src.len(),
                size_reduction > 0 && width % g != 0 ==> at + width / g < src.len(),
                dst@ == Seq::new(
                    before.len(),
                    |i: int|
                        if out <= i < out + x {
                            alpha_palette(pal@, packed_index(src@, at as int, size_reduction, i - out))
                        } else {
                            before[i]
                        },
                ),
            decreases n - x,
        {
            let gi = x / g;
            let j = x % g;
            assert(at + gi < src.len()) by (nonlinear_arith)
                requires
                    gi == x / g,
                    x < n,
                    n == alpha_row_len(src.len() as int, at as int, width as int, size_reduction),
                    g == group_size(size_reduction),
                    1 <= g,
                    at <= src.len(),
                    size_reduction > 0 && width % g != 0 ==> at + width / g < src.len(),
                    x < width,
            {
                if size_reduction == 0 {
                    assert(g == 1);
                } else if width % g != 0 {
                    assert(gi <= width / g) by {
                        vstd::arithmetic::div_mod::lemma_div_is_ordered(x as int, width as int, g as int);
                    }
                } else if width / g < src.len() - at {
                    assert(gi <= width / g) by {
                        vstd::arithmetic::div_mod::lemma_div_is_ordered(x as int, width as int, g as int);
                    }
                } else {
                    vstd::arithmetic::div_mod::lemma_div_by_multiple_is_strongly_ordered(x as int, (src.len() - at) * g, src.len() - at, g as int);
                }
            };
            let idx = (src[at + gi] >> 16) & 0xff;
            proof {
                lemma_chan_bits(src@[at + gi]);
            }
            assert(j < g);
            assert((j as u32) * b <= 64) by (nonlinear_arith)
                requires
                    j < 8,
                    b <= 8,
            ;
            let sh: u32 = (j as u32) * b;
            assert(sh < 8) by (nonlinear_arith)
                requires
                    sh == j * b,
                    j < g,
                    b == 8int / (g as int),
                    g == 1 || g == 2 || g == 4 || g == 8,
            ;
            let pw: u32 = 1u32 << sh;
            proof {
                vstd::bits::lemma_u32_pow2_no_overflow(sh as nat);
                vstd::bits::lemma_u32_shl_is_mul(1, sh);
            }
            let v = (idx / pw) % pm;
            let ghost mid = dst@;
            dst[out + x] = palette[v as usize];
            x += 1;
            assert(dst@ =~= Seq::new(
                before.len(),
                |i: int|
                    if out <= i < out + x {
                        alpha_palette(pal@, packed_index(src@, at as int, size_reduction, i - out))
                    } else {
                        before[i]
                    },
            ));
        }
        assert(dst@ =~= alpha_row(before, src@, src_stride as int, dst_stride as int, width as int, pal@, size_reduction, y as int));
        y += 1;
    }
}

/// Palette entry `i`, or zero past the palette's end (the palette is padded
/// to 256 entries).
pub open spec fn pal_value(pal: Seq<u32>, i: int) -> u32 {
    if 0 <= i < pal.len() {
        pal[i]
    } else {
        0
    }
}

/// The picture with the `width` pixels at `at` each replaced by the palette
/// entry its green byte indexes.
pub open spec fn mapped_row(p: Seq<u32>, at: int, width: int, pal: Seq<u32>) -> Seq<u32> {
    Seq::new(p.len(), |i: int| if at <= i < at + width { pal_value(pal, chan(p[i], 2)) } else { p[i] })
}

/// The picture with the `width` pixels at `dst` written from the packed
/// indices of the source row at `src`, read as they were before the writes.
pub open spec fn expanded_row(p: Seq<u32>, src: int, dst: int, width: int, pal: Seq<u32>, sr: u32) -> Seq<u32> {
    Seq::new(
        p.len(),
        |i: int| if dst <= i < dst + width { pal_value(pal, packed_index(p, src, sr, i - dst)) } else { p[i] },
    )
}

/// The picture after the palette transform: without packing, each row mapped
/// in place from the top; with packing, each row widened into its `dst_stride`
/// slot from the bottom up, so that every write lands at or past what it
/// derives from. `k` rows are done.
pub open spec fn indexed_rows(p: Seq<u32>, base: int, ds: int, ss: int, width: int, height: int, pal: Seq<u32>, sr: u32, k: int) -> Seq<u32>
    decreases k,
{
    if k <= 0 {
        p
    } else {
        let q = indexed_rows(p, base, ds, ss, width, height, pal, sr, k - 1);
        if sr == 0 {
            mapped_row(q, base + (k - 1) * ds, width, pal)
        } else {
            let y = height - k;
            expanded_row(q, base + y * ss, base + y * ds, width, pal, sr)
        }
    }
}

/// Every row of the palette transform can be read and written: the widened
/// row starts at or past its packed source, and fits in the picture.
pub open spec fn indexing_fits(len: int, base: int, ds: int, ss: int, width: int, sr: u32, y: int) -> bool {
    &&& base + y * ds + width <= len
    &&& sr > 0 ==> y * ss <= y * ds
}

/// Replaces each palette index by the colour it stands for, over `height`
/// rows of `width` pixels. When the palette is small enough that several
/// indices were packed into one pixel (`size_reduction` above zero), each row
/// also widens from `src_stride` to `dst_stride`, and the rows are rewritten
/// bottom-up. `big` picks the table-driven path for large pictures, which
/// gives the same picture.
pub fn color_indexing_rows(
    plane: &mut [u32],
    base: usize,
    dst_stride: usize,
    src_stride: usize,
    width: usize,
    height: i32,
    pal: &[u32],
    size_reduction: u32,
    big: bool,
)
    requires
        height >= 0,
        pal.len() <= 256,
        size_reduction < 32,
        forall|y: int|
            0 <= y < height ==> #[trigger] indexing_fits(
                old(plane).len() as int,
                base as int,
                dst_stride as int,
                src_stride as int,
                width as int,
                size_reduction,
                y,
            ),
    ensures
        final(plane)@ == indexed_rows(
            old(plane)@,
            base as int,
            dst_stride as int,
            src_stride as int,
            width as int,
            height as int,
            pal@,
            size_reduction,
            height as int,
        ),
        final(plane).len() == old(plane).len(),
{
    let mut palette = [0u32; 256];
    let mut i: usize = 0;
    while i < pal.len()
        invariant
            i <= pal.len() <= 256,
            forall|k: int| 0 <= k < 256 ==> #[trigger] palette@[k] == if k < i { pal_value(pal@, k) } else { 0u32 },
        decreases pal.len() - i,
    {
        palette[i] = pal[i];
        i += 1;
    }
    assert forall|k: int| 0 <= k < 256 implies #[trigger] palette@[k] == pal_value(pal@, k) by {}
    let h = height as usize;
    if size_reduction == 0 {
        let mut y: usize = 0;
        while y < h
            invariant
                y <= h == height,
                size_reduction == 0,
                forall|k: int| 0 <= k < 256 ==> #[trigger] palette@[k] == pal_value(pal@, k),
                plane.len() == old(plane).len(),
                forall|yy: int|
                    0 <= yy < height ==> #[trigger] indexing_fits(
                        old(plane).len() as int,
                        base as int,
                        dst_stride as int,
                        src_stride as int,
                        width as int,
                        size_reduction,
                        yy,
                    ),
                plane@ == indexed_rows(old(plane)@, base as int, dst_stride as int, src_stride as int, width as int, height as int, pal@, size_reduction, y as int),
            decreases h - y,
        {
            assert(indexing_fits(old(plane).len() as int, base as int, dst_stride as int, src_stride as int, width as int, size_reduction, y as int));
            let at = base + y * dst_stride;
            let ghost before = plane@;
            let mut x: usize = 0;
            while x < width
                invariant
                    x <= width,
                    at + width <= plane.len(),
                    plane.len() == before.len(),
                    forall|k: int| 0 <= k < 256 ==> #[trigger] palette@[k] == pal_value(pal@, k),
                    plane@ == Seq::new(
                        before.len(),
                        |i: int| if at <= i < at + x { pal_value(pal@, chan(before[i], 2)) } else { before[i] },
                    ),
                decreases width - x,
            {
                let v = plane[at + x];
                proof {
                    lemma_chan_bits(v);
                }
                let index = ((v >> 16) & 0xff) as usize;
                plane[at + x] = palette[index];
                x += 1;
                assert(plane@ =~= Seq::new(
                    before.len(),
                    |i: int| if at <= i < at + x { pal_value(pal@, chan(before[i], 2)) } else { before[i] },
                ));
            }
            assert(plane@ =~= mapped_row(before, at as int, width as int, pal@));
            y += 1;
        }
        return;
    }
    let g: usize = if size_reduction == 1 {
        2
    } else if size_reduction == 2 {
        4
    } else {
        8
    };
    let b: u32 = (8 / g) as u32;
    let pm: u32 = if b == 4 { 16 } else if b == 2 { 4 } else { 2 };
    proof {
        vstd::arithmetic::power2::lemma2_to64();
    }
    let mut k: usize = 0;
    while k < h
        invariant
            k <= h == height,
            size_reduction > 0,
            g == group_size(size_reduction),
            g == 2 || g == 4 || g == 8,
            b == index_bits(size_reduction),
            b <= 4,
            pm == pow2(b as nat),
            1 <= pm <= 16,
            forall|kk: int| 0 <= kk < 256 ==> #[trigger] palette@[kk] == pal_value(pal@, kk),
            plane.len() == old(plane).len(),
            forall|yy: int|
                0 <= yy < height ==> #[trigger] indexing_fits(
                    old(plane).len() as int,
                    base as int,
                    dst_stride as int,
                    src_stride as int,
                    width as int,
                    size_reduction,
                    yy,
                ),
            plane@ == indexed_rows(old(plane)@, base as int, dst_stride as int, src_stride as int, width as int, height as int, pal@, size_reduction, k as int),
        decreases h - k,
    {
        let y = h - 1 - k;
        assert(indexing_fits(old(plane).len() as int, base as int, dst_stride as int, src_stride as int, width as int, size_reduction, y as int));
        let src = base + y * src_stride;
        let dst = base + y * dst_stride;
        let n_src = if width % g != 0 { width / g + 1 } else { width / g };
        assert(src + n_src <= plane.len()) by (nonlinear_arith)
            requires
                n_src == (if width % g != 0 { width / g + 1 } else { (width / g) as int }),
                g >= 2,
                src <= dst,
                dst + width <= plane.len(),
        {
            vstd::arithmetic::div_mod::lemma_fundamental_div_mod(width as int, g as int);
        };
        let mut row: Vec<u32> = Vec::new();
        let mut i: usize = 0;
        while i < n_src
            invariant
                i <= n_src,
                src + n_src <= plane.len(),
                row@ == plane@.subrange(src as int, src + i),
            decreases n_src - i,
        {
            row.push(plane[src + i]);
            i += 1;
        }
        let ghost before = plane@;
        let mut x: usize = 0;
        while x < width
            invariant
                x <= width,
                dst + width <= plane.len(),
                plane.len() == before.len(),
                g == group_size(size_reduction),
                g == 2 || g == 4 || g == 8,
                b == index_bits(size_reduction),
                b <= 4,
                pm == pow2(b as nat),
                1 <= pm <= 16,
                n_src == (if width % g != 0 { width / g + 1 } else { (width / g) as int }),
                src + n_src <= before.len(),
                row@ == before.subrange(src as int, src + n_src),
                forall|kk: int| 0 <= kk < 256 ==> #[trigger] palette@[kk] == pal_value(pal@, kk),
                plane@ == Seq::new(
                    before.len(),
                    |i: int| if dst <= i < dst + x { pal_value(pal@, packed_index(before, src as int, size_reduction, i - dst)) } else { before[i] },
                ),
            decreases width - x,
        {
            let gi = x / g;
            let j = x % g;
            assert(gi < n_src) by (nonlinear_arith)
                requires
                    gi == x / g,
                    x < width,
                    g >= 2,
                    n_src == (if width % g != 0 { width / g + 1 } else { (width / g) as int }),
            {
                vstd::arithmetic::div_mod::lemma_fundamental_div_mod(width as int, g as int);
                vstd::arithmetic::div_mod::lemma_fundamental_div_mod(x as int, g as int);
                vstd::arithmetic::div_mod::lemma_div_is_ordered(x as int, width as int, g as int);
            };
            let v = row[gi];
            proof {
                lemma_chan_bits(v);
            }
            let idx = (v >> 16) & 0xff;
            assert((j as u32) * b <= 32) by (nonlinear_arith)
                requires
                    j < 8,
                    b <= 4,
            ;
            let sh: u32 = (j as u32) * b;
            assert(sh < 8) by (nonlinear_arith)
                requires
                    sh == j * b,
                    j < g,
                    b == 8int / (g as int),
                    g == 2 || g == 4 || g == 8,
            ;
            proof {
                vstd::bits::lemma_u32_pow2_no_overflow(sh as nat);
                vstd::bits::lemma_u32_shl_is_mul(1, sh);
            }
            let pw: u32 = 1u32 << sh;
            let index = (idx / pw) % pm;
            plane[dst + x] = palette[index as usize];
            x += 1;
            assert(plane@ =~= Seq::new(
                before.len(),
                |i: int| if dst <= i < dst + x { pal_value(pal@, packed_index(before, src as int, size_reduction, i - dst)) } else { before[i] },
            ));
        }
        assert(plane@ =~= expanded_row(before, src as int, dst as int, width as int, pal@, size_reduction));
        k += 1;
    }
}

/// The picture with `n` pixels copied to `at` from `from` in `a`.
pub open spec fn row_copied(p: Seq<u32>, a: Seq<u32>, at: int, from: int, n: int) -> Seq<u32> {
    Seq::new(p.len(), |i: int| if at <= i < at + n { a[from + i - at] } else { p[i] })
}

/// The picture after the first `k` rows from `y0` on were copied in from `a`:
/// row `y` of `a` (rows `ss` apart) to `base`, then every `stride` further on.
pub open spec fn rows_copied(p: Seq<u32>, a: Seq<u32>, base: int, stride: int, y0: int, ss: int, n: int, k: int) -> Seq<u32>
    decreases k,
{
    if k <= 0 {
        p
    } else {
        row_copied(rows_copied(p, a, base, stride, y0, ss, n, k - 1), a, base + (k - 1) * stride, (y0 + k - 1) * ss, n)
    }
}

/// Whether the transforms `ts[k - 1]` down to `ts[0]` can all be run over rows
/// `y0` to `y1` (the first at `base`) of a picture `plen` pixels long, `w`
/// pixels of each row coded, with a scratch row `slen` long and the sub-images
/// `mlen`, `clen` and `pal_len` long: what each of them needs of its
/// arguments. The palette transform widens what the ones run after it see to
/// `width`.
pub open spec fn transforms_fit(
    plen: int,
    slen: int,
    ts: Seq<Transform>,
    k: int,
    w: int,
    base: int,
    stride: int,
    width: int,
    y0: int,
    y1: int,
    mlen: int,
    ms: int,
    mtb: nat,
    clen: int,
    cs: int,
    ctb: nat,
    pal_len: int,
    psr: u32,
    out_w: int,
) -> bool
    decreases k,
{
    if k <= 0 {
        true
    } else {
        let last = base + (y1 - 1 - y0) * stride;
        let here = match ts[k - 1] {
            Transform::Predictor => {
                &&& mtb < 32
                &&& batch_fits(plen, slen, base, stride, w, width, mlen, ms, mtb, y0, y1)
                &&& w <= slen
                &&& last + w <= plen
            },
            Transform::Color => {
                &&& ctb < 32
                &&& last + w <= plen
                &&& w > 0 ==> ((y1 - 1) / (pow2(ctb) as int)) * cs + (w - 1) / (pow2(ctb) as int) < clen
            },
            Transform::SubtractGreen => last + w <= plen,
            Transform::ColorIndexing => {
                &&& pal_len <= 256
                &&& psr < 32
                &&& forall|y: int| 0 <= y < y1 - y0 ==> #[trigger] indexing_fits(plen, base, stride, stride, out_w, psr, y)
            },
        };
        let w2 = if ts[k - 1] == Transform::ColorIndexing { width } else { w };
        here && transforms_fit(plen, slen, ts, k - 1, w2, base, stride, width, y0, y1, mlen, ms, mtb, clen, cs, ctb, pal_len, psr, out_w)
    }
}

/// Rows `y0` to `y1` (the first at `base`) with the transforms `ts[k - 1]`
/// down to `ts[0]` undone, each as its own function says, `w` pixels of each
/// row coded until the palette transform widens them to `width`; after the
/// predictor, the batch's last row is kept in the scratch row for the next
/// batch. Stops at a predictor batch that fails. Gives the picture, the
/// scratch row, and whether every transform succeeded.
pub open spec fn transforms_applied(
    p: Seq<u32>,
    s: Seq<u32>,
    ts: Seq<Transform>,
    k: int,
    w: int,
    base: int,
    stride: int,
    width: int,
    y0: int,
    y1: int,
    modes: Seq<u32>,
    ms: int,
    mtb: nat,
    mult: Seq<u32>,
    cs: int,
    ctb: nat,
    pal: Seq<u32>,
    psr: u32,
    out_w: int,
) -> (Seq<u32>, Seq<u32>, bool)
    decreases k,
{
    if k <= 0 {
        (p, s, true)
    } else {
        match ts[k - 1] {
            Transform::Predictor => {
                let b = batch_predicted(p, s, base, stride, w, width, modes, ms, mtb, y0, y1);
                if !b.2 {
                    (b.0, b.1, false)
                } else {
                    let last = base + (y1 - 1 - y0) * stride;
                    let s2 = Seq::new(b.1.len(), |i: int| if 0 <= i < w { b.0[last + i] } else { b.1[i] });
                    transforms_applied(b.0, s2, ts, k - 1, w, base, stride, width, y0, y1, modes, ms, mtb, mult, cs, ctb, pal, psr, out_w)
                }
            },
            Transform::Color => transforms_applied(
                color_rows_done(p, base, stride, w, mult, cs, pow2(ctb) as int, y0, y1 - y0),
                s,
                ts,
                k - 1,
                w,
                base,
                stride,
                width,
                y0,
                y1,
                modes,
                ms,
                mtb,
                mult,
                cs,
                ctb,
                pal,
                psr,
                out_w,
            ),
            Transform::SubtractGreen => transforms_applied(
                green_rows(p, base, stride, w, y1 - y0),
                s,
                ts,
                k - 1,
                w,
                base,
                stride,
                width,
                y0,
                y1,
                modes,
                ms,
                mtb,
                mult,
                cs,
                ctb,
                pal,
                psr,
                out_w,
            ),
            Transform::ColorIndexing => transforms_applied(
                indexed_rows(p, base, stride, stride, out_w, y1 - y0, pal, psr, y1 - y0),
                s,
                ts,
                k - 1,
                width,
                base,
                stride,
                width,
                y0,
                y1,
                modes,
                ms,
                mtb,
                mult,
                cs,
                ctb,
                pal,
                psr,
                out_w,
            ),
        }
    }
}

/// Produces rows `y0` to `y1` of the output picture: the coded rows are
/// copied over from `argb`, then the first `nb_transforms` transforms are
/// undone, last first, as [`transforms_applied`] says. The predictor needs
/// the row above the batch as it left it, which `scratch` keeps between
/// batches.
#[verifier::rlimit(60)]
pub fn transform_rows(
    out: &mut Picture,
    argb: &Picture,
    scratch: &mut [u32],
    transforms: &[Transform; 4],
    nb_transforms: usize,
    modes: &ImageContext,
    mult: &ImageContext,
    pal: &ImageContext,
    reduced_width: i32,
    width: i32,
    y0: i32,
    y1: i32,
) -> (r: Result<()>)
    requires
        0 <= y0 < y1,
        nb_transforms <= 4,
        0 <= reduced_width,
        0 <= width,
        0 <= old(out).width,
        0 <= old(out).height,
        0 <= pal.storage.width <= pal.storage.data@.len(),
        y0 * old(out).stride + (y1 - y0 - 1) * old(out).stride + reduced_width <= old(out).data@.len(),
        (y1 - 1) * argb.stride + reduced_width <= argb.data@.len(),
        transforms_fit(
            old(out).data@.len() as int,
            old(scratch).len() as int,
            transforms@,
            nb_transforms as int,
            reduced_width as int,
            y0 * old(out).stride,
            old(out).stride as int,
            width as int,
            y0 as int,
            y1 as int,
            modes.storage.data@.len() as int,
            modes.storage.stride as int,
            modes.size_reduction as nat,
            mult.storage.data@.len() as int,
            mult.storage.stride as int,
            mult.size_reduction as nat,
            pal.storage.width as int,
            pal.size_reduction,
            old(out).width as int,
        ),
    ensures
        final(out).stride == old(out).stride,
        final(out).width == old(out).width,
        final(out).height == old(out).height,
        ({
            let base = y0 * old(out).stride;
            let copied = rows_copied(
                old(out).data@,
                argb.data@,
                base,
                old(out).stride as int,
                y0 as int,
                argb.stride as int,
                reduced_width as int,
                y1 - y0,
            );
            let t = transforms_applied(
                copied,
                old(scratch)@,
                transforms@,
                nb_transforms as int,
                reduced_width as int,
                base,
                old(out).stride as int,
                width as int,
                y0 as int,
                y1 as int,
                modes.storage.data@,
                modes.storage.stride as int,
                modes.size_reduction as nat,
                mult.storage.data@,
                mult.storage.stride as int,
                mult.size_reduction as nat,
                pal.storage.data@.subrange(0, pal.storage.width as int),
                pal.size_reduction,
                old(out).width as int,
            );
            &&& final(out).data@ == t.0
            &&& final(scratch)@ == t.1
            &&& r is Ok == t.2
        }),
        r is Err ==> r == Err::<(), Error>(Error::InvalidData),
{
    let stride = out.stride;
    let src_stride = argb.stride;
    let packed_row = reduced_width as usize;
    let out_w = out.width;
    let out_h = out.height;
    let plen = out.data.len();
    let alen = argb.data.len();
    assert(0 <= (y1 - y0 - 1) * stride) by (nonlinear_arith)
        requires
            y0 < y1,
    ;
    assert(0 <= y0 * stride) by (nonlinear_arith)
        requires
            0 <= y0,
    ;
    let base = (y0 as usize) * stride;
    let rows = (y1 - y0) as usize;
    let ghost p0 = out.data@;
    let mut i: usize = 0;
    while i < rows
        invariant
            i <= rows,
            rows == y1 - y0,
            0 <= y0 < y1,
            base == y0 * stride,
            out.stride == stride,
            out.width == out_w,
            out.height == out_h,
            argb.stride == src_stride,
            out.data@.len() == p0.len(),
            p0.len() == plen,
            argb.data@.len() == alen,
            base + (y1 - y0 - 1) * stride + packed_row <= p0.len(),
            (y1 - 1) * src_stride + packed_row <= argb.data@.len(),
            out.data@ == rows_copied(p0, argb.data@, base as int, stride as int, y0 as int, src_stride as int, packed_row as int, i as int),
        decreases rows - i,
    {
        assert(base + i * stride + packed_row <= p0.len()) by (nonlinear_arith)
            requires
                i < rows,
                rows == y1 - y0,
                base + (y1 - y0 - 1) * stride + packed_row <= p0.len(),
        ;
        assert((y0 + i) * src_stride + packed_row <= argb.data@.len()) by (nonlinear_arith)
            requires
                i < rows,
                rows == y1 - y0,
                0 <= y0,
                (y1 - 1) * src_stride + packed_row <= argb.data@.len(),
        ;
        let dst = base + i * stride;
        let src = (y0 as usize + i) * src_stride;
        let ghost before = out.data@;
        let mut j: usize = 0;
        while j < packed_row
            invariant
                j <= packed_row,
                dst + packed_row <= out.data@.len(),
                src + packed_row <= argb.data@.len(),
                out.data@.len() == before.len(),
                before.len() == plen,
                argb.data@.len() == alen,
                out.stride == stride,
                out.width == out_w,
                out.height == out_h,
                out.data@ == Seq::new(before.len(), |k: int| if dst <= k < dst + j { argb.data@[src + k - dst] } else { before[k] }),
            decreases packed_row - j,
        {
            let v = argb.data[src + j];
            out.data.set(dst + j, v);
            j += 1;
            assert(out.data@ =~= Seq::new(before.len(), |k: int| if dst <= k < dst + j { argb.data@[src + k - dst] } else { before[k] }));
        }
        assert(out.data@ =~= row_copied(before, argb.data@, dst as int, src as int, packed_row as int));
        i += 1;
    }
    let ghost copied = out.data@;
    let ghost pal_seq = pal.storage.data@.subrange(0, pal.storage.width as int);
    let ghost total = transforms_applied(
        copied,
        scratch@,
        transforms@,
        nb_transforms as int,
        reduced_width as int,
        base as int,
        stride as int,
        width as int,
        y0 as int,
        y1 as int,
        modes.storage.data@,
        modes.storage.stride as int,
        modes.size_reduction as nat,
        mult.storage.data@,
        mult.storage.stride as int,
        mult.size_reduction as nat,
        pal_seq,
        pal.size_reduction,
        out_w as int,
    );
    assert((out_h as u64) * (out_w as u64) <= 0x7fff_ffff * 0x7fff_ffff) by (nonlinear_arith)
        requires
            0 <= out_h <= 0x7fff_ffff,
            0 <= out_w <= 0x7fff_ffff,
    ;
    let big = (out_h as u64) * (out_w as u64) > 300;
    let mut w: usize = packed_row;
    let mut k: usize = nb_transforms;
    while k > 0
        invariant
            total == transforms_applied(
                copied,
                old(scratch)@,
                transforms@,
                nb_transforms as int,
                reduced_width as int,
                base as int,
                stride as int,
                width as int,
                y0 as int,
                y1 as int,
                modes.storage.data@,
                modes.storage.stride as int,
                modes.size_reduction as nat,
                mult.storage.data@,
                mult.storage.stride as int,
                mult.size_reduction as nat,
                pal_seq,
                pal.size_reduction,
                out_w as int,
            ),
            copied == rows_copied(
                old(out).data@,
                argb.data@,
                base as int,
                stride as int,
                y0 as int,
                argb.stride as int,
                reduced_width as int,
                y1 - y0,
            ),
            k <= nb_transforms <= 4,
            stride == old(out).stride,
            out_w == old(out).width,
            out_h == old(out).height,
            copied.len() == plen,
            0 <= y0 < y1,
            base == y0 * stride,
            out.stride == stride,
            out.width == out_w,
            out.height == out_h,
            0 <= out_w,
            0 <= width,
            0 <= pal.storage.width <= pal.storage.data@.len(),
            pal_seq == pal.storage.data@.subrange(0, pal.storage.width as int),
            out.data@.len() == copied.len(),
            scratch.len() == old(scratch).len(),
            transforms_fit(
                copied.len() as int,
                old(scratch).len() as int,
                transforms@,
                k as int,
                w as int,
                base as int,
                stride as int,
                width as int,
                y0 as int,
                y1 as int,
                modes.storage.data@.len() as int,
                modes.storage.stride as int,
                modes.size_reduction as nat,
                mult.storage.data@.len() as int,
                mult.storage.stride as int,
                mult.size_reduction as nat,
                pal.storage.width as int,
                pal.size_reduction,
                out_w as int,
            ),
            transforms_applied(
                out.data@,
                scratch@,
                transforms@,
                k as int,
                w as int,
                base as int,
                stride as int,
                width as int,
                y0 as int,
                y1 as int,
                modes.storage.data@,
                modes.storage.stride as int,
                modes.size_reduction as nat,
                mult.storage.data@,
                mult.storage.stride as int,
                mult.size_reduction as nat,
                pal_seq,
                pal.size_reduction,
                out_w as int,
            ) == total,
        decreases k,
    {
        k -= 1;
        match transforms[k] {
            Transform::Predictor => {
                let rr = predict_batch(
                    out.data.as_mut_slice(),
                    scratch,
                    base,
                    stride,
                    w,
                    width as usize,
                    modes.storage.data.as_slice(),
                    modes.storage.stride,
                    modes.size_reduction,
                    y0,
                    y1,
                );
                if rr.is_err() {
                    return Err(Error::InvalidData);
                }
                let last = base + ((y1 - 1 - y0) as usize) * stride;
                let ghost before = scratch@;
                let mut j: usize = 0;
                while j < w
                    invariant
                        j <= w <= scratch.len(),
                        last + w <= out.data@.len(),
                        out.data@.len() == plen,
                        scratch.len() == before.len(),
                        scratch@ == Seq::new(before.len(), |i: int| if 0 <= i < j { out.data@[last + i] } else { before[i] }),
                    decreases w - j,
                {
                    scratch[j] = out.data[last + j];
                    j += 1;
                    assert(scratch@ =~= Seq::new(before.len(), |i: int| if 0 <= i < j { out.data@[last + i] } else { before[i] }));
                }
            },
            Transform::Color => {
                color_rows(
                    out.data.as_mut_slice(),
                    base,
                    stride,
                    w,
                    mult.storage.data.as_slice(),
                    mult.storage.stride,
                    mult.size_reduction,
                    y0,
                    y1,
                );
            },
            Transform::SubtractGreen => {
                subtract_green_rows(out.data.as_mut_slice(), base, stride, w, y1 - y0);
            },
            Transform::ColorIndexing => {
                let pal_slice = vstd::slice::slice_subrange(pal.storage.data.as_slice(), 0, pal.storage.width as usize);
                color_indexing_rows(
                    out.data.as_mut_slice(),
                    base,
                    stride,
                    stride,
                    out_w as usize,
                    y1 - y0,
                    pal_slice,
                    pal.size_reduction,
                    big,
                );
                w = width as usize;
            },
        }
    }
    Ok(())
}

/// Undoes the spatial predictor over the whole of `pic`, `reduced_width`
/// pixels of each row coded.
pub fn apply_predictor(pic: &mut Picture, modes: &ImageContext, reduced_width: i32) -> (r: Result<()>)
    requires
        0 <= reduced_width,
        modes.size_reduction < 32,
        predictor_fits(
            old(pic).data@.len() as int,
            0,
            old(pic).stride as int,
            reduced_width as int,
            modes.storage.data@.len() as int,
            modes.storage.stride as int,
            modes.size_reduction as nat,
            0,
            old(pic).height as int,
            None,
        ),
    ensures
        ({
            let q = predicted(
                old(pic).data@,
                0,
                old(pic).stride as int,
                reduced_width as int,
                modes.storage.data@,
                modes.storage.stride as int,
                modes.size_reduction as nat,
                0,
                old(pic).height as int,
                None,
            );
            &&& final(pic).data@ == q.0
            &&& r is Ok == q.1
        }),
        final(pic).stride == old(pic).stride,
        final(pic).width == old(pic).width,
        final(pic).height == old(pic).height,
        r is Err ==> r == Err::<(), Error>(Error::InvalidData),
        final(pic).data@.len() == old(pic).data@.len(),
{
    let stride = pic.stride;
    let height = pic.height;
    predictor_rows(
        pic.data.as_mut_slice(),
        0,
        stride,
        reduced_width as usize,
        modes.storage.data.as_slice(),
        modes.storage.stride,
        modes.size_reduction,
        0,
        height,
        None,
    )
}

/// Undoes the cross-colour transform over the whole of `pic`.
pub fn apply_color(pic: &mut Picture, mult: &ImageContext, reduced_width: i32)
    requires
        0 <= reduced_width,
        mult.size_reduction < 32,
        0 < old(pic).height ==> (old(pic).height - 1) * old(pic).stride + reduced_width <= old(pic).data@.len(),
        0 < old(pic).height && reduced_width > 0 ==> ((old(pic).height - 1) / (pow2(mult.size_reduction as nat) as int))
            * mult.storage.stride + (reduced_width - 1) / (pow2(mult.size_reduction as nat) as int) < mult.storage.data@.len(),
    ensures
        final(pic).data@ == color_rows_done(
            old(pic).data@,
            0,
            old(pic).stride as int,
            reduced_width as int,
            mult.storage.data@,
            mult.storage.stride as int,
            pow2(mult.size_reduction as nat) as int,
            0,
            old(pic).height as int,
        ),
        final(pic).stride == old(pic).stride,
        final(pic).width == old(pic).width,
        final(pic).height == old(pic).height,
        final(pic).data@.len() == old(pic).data@.len(),
{
    let stride = pic.stride;
    let height = pic.height;
    color_rows(
        pic.data.as_mut_slice(),
        0,
        stride,
        reduced_width as usize,
        mult.storage.data.as_slice(),
        mult.storage.stride,
        mult.size_reduction,
        0,
        height,
    );
}

/// Adds green back into red and blue over the whole of `pic`.
pub fn apply_subtract_green(pic: &mut Picture, reduced_width: i32)
    requires
        0 <= reduced_width,
        old(pic).height <= 0 || (old(pic).height - 1) * old(pic).stride + reduced_width <= old(pic).data@.len(),
    ensures
        final(pic).data@ == green_rows(old(pic).data@, 0, old(pic).stride as int, reduced_width as int, old(pic).height as int),
        final(pic).stride == old(pic).stride,
        final(pic).width == old(pic).width,
        final(pic).height == old(pic).height,
        final(pic).data@.len() == old(pic).data@.len(),
{
    let stride = pic.stride;
    let height = pic.height;
    subtract_green_rows(pic.data.as_mut_slice(), 0, stride, reduced_width as usize, height);
}

/// What the palette transform needs of a whole picture of `w` by `h` pixels,
/// rows `stride` apart before it and `w` apart after.
pub open spec fn palette_fits(plen: int, stride: int, w: int, h: int, pal_len: int, psr: u32) -> bool {
    &&& 0 <= w
    &&& 0 <= h
    &&& pal_len <= 256
    &&& psr < 32
    &&& forall|y: int| 0 <= y < h ==> #[trigger] indexing_fits(plen, 0, w, stride, w, psr, y)
}

/// Replaces each palette index of `pic` by its colour. Where indices were
/// packed several to a pixel, the rows widen to the picture's width, which
/// becomes its stride and the coded width.
pub fn apply_color_indexing(pic: &mut Picture, pal: &ImageContext, reduced_width: &mut i32)
    requires
        0 <= pal.storage.width <= pal.storage.data@.len(),
        palette_fits(
            old(pic).data@.len() as int,
            old(pic).stride as int,
            old(pic).width as int,
            old(pic).height as int,
            pal.storage.width as int,
            pal.size_reduction,
        ),
    ensures
        final(pic).data@ == indexed_rows(
            old(pic).data@,
            0,
            old(pic).width as int,
            old(pic).stride as int,
            old(pic).width as int,
            old(pic).height as int,
            pal.storage.data@.subrange(0, pal.storage.width as int),
            pal.size_reduction,
            old(pic).height as int,
        ),
        final(pic).width == old(pic).width,
        final(pic).height == old(pic).height,
        final(pic).stride == if pal.size_reduction > 0 { old(pic).width as usize } else { old(pic).stride },
        *final(reduced_width) == if pal.size_reduction > 0 { old(pic).width } else { *old(reduced_width) },
        final(pic).data@.len() == old(pic).data@.len(),
{
    let width = pic.width as usize;
    let height = pic.height;
    let src_stride = pic.stride;
    assert((height as u64) * (width as u64) <= 0x7fff_ffff * 0x7fff_ffff) by (nonlinear_arith)
        requires
            0 <= height <= 0x7fff_ffff,
            0 <= width <= 0x7fff_ffff,
    ;
    let big = (height as u64) * (width as u64) > 300;
    let pal_slice = vstd::slice::slice_subrange(pal.storage.data.as_slice(), 0, pal.storage.width as usize);
    color_indexing_rows(pic.data.as_mut_slice(), 0, width, src_stride, width, height, pal_slice, pal.size_reduction, big);
    if pal.size_reduction > 0 {
        pic.stride = width;
        *reduced_width = pic.width;
    }
}

/// The palette transform of a picture that is an alpha plane and nothing
/// else: each index goes straight into the caller's plane `dst`, of
/// `dst_stride`-byte rows, as the green byte of its colour. The picture is
/// then known by its full width.
pub fn apply_color_indexing_alpha(
    pic: &mut Picture,
    pal: &ImageContext,
    dst: &mut [u8],
    dst_stride: usize,
    reduced_width: &mut i32,
    alpha_dst_used: &mut bool,
)
    requires
        0 <= pal.storage.width <= pal.storage.data@.len(),
        0 <= old(pic).width,
        0 <= old(pic).height,
        pal.size_reduction < 32,
        forall|y: int|
            0 <= y < old(pic).height ==> #[trigger] alpha_row_fits(
                old(pic).data@.len() as int,
                old(pic).stride as int,
                old(dst).len() as int,
                dst_stride as int,
                old(pic).width as int,
                pal.size_reduction,
                y,
            ),
    ensures
        final(dst)@ == alpha_rows(
            old(dst)@,
            old(pic).data@,
            old(pic).stride as int,
            dst_stride as int,
            old(pic).width as int,
            pal.storage.data@.subrange(0, pal.storage.width as int),
            pal.size_reduction,
            old(pic).height as int,
        ),
        final(pic).data@ == old(pic).data@,
        final(pic).width == old(pic).width,
        final(pic).height == old(pic).height,
        final(pic).stride == old(pic).width as usize,
        *final(reduced_width) == old(pic).width,
        *final(alpha_dst_used),
{
    let pal_slice = vstd::slice::slice_subrange(pal.storage.data.as_slice(), 0, pal.storage.width as usize);
    color_indexing_alpha(
        pic.data.as_slice(),
        pic.stride,
        pic.width as usize,
        pic.height,
        pal_slice,
        pal.size_reduction,
        dst,
        dst_stride,
    );
    pic.stride = pic.width as usize;
    *alpha_dst_used = true;
    *reduced_width = pic.width;
}

/// What the transforms `ts[k - 1]` down to `ts[0]` need of a whole picture
/// of `w` by `h` pixels, `plen` long, rows `stride` apart with `rw` of each
/// coded; a palette transform that unpacks rows widens both to `w`.
pub open spec fn whole_fits(
    plen: int,
    stride: int,
    rw: int,
    ts: Seq<Transform>,
    k: int,
    w: int,
    h: int,
    mlen: int,
    ms: int,
    mtb: nat,
    clen: int,
    cs: int,
    ctb: nat,
    pal_len: int,
    psr: u32,
) -> bool
    decreases k,
{
    if k <= 0 {
        true
    } else {
        let here = match ts[k - 1] {
            Transform::Predictor => mtb < 32 && predictor_fits(plen, 0, stride, rw, mlen, ms, mtb, 0, h, None),
            Transform::Color => {
                &&& ctb < 32
                &&& 0 < h ==> (h - 1) * stride + rw <= plen
                &&& 0 < h && rw > 0 ==> ((h - 1) / (pow2(ctb) as int)) * cs + (rw - 1) / (pow2(ctb) as int) < clen
            },
            Transform::SubtractGreen => h <= 0 || (h - 1) * stride + rw <= plen,
            Transform::ColorIndexing => palette_fits(plen, stride, w, h, pal_len, psr),
        };
        let widened = ts[k - 1] == Transform::ColorIndexing && psr > 0;
        &&& here
        &&& whole_fits(
            plen,
            if widened { w } else { stride },
            if widened { w } else { rw },
            ts,
            k - 1,
            w,
            h,
            mlen,
            ms,
            mtb,
            clen,
            cs,
            ctb,
            pal_len,
            psr,
        )
    }
}

/// The whole picture with the transforms `ts[k - 1]` down to `ts[0]` undone,
/// each as its own function says: gives the pixels, the stride and coded width
/// they leave, and whether every one succeeded (a predictor whose tile names
/// no predictor stops there).
pub open spec fn whole_applied(
    p: Seq<u32>,
    stride: int,
    rw: int,
    ts: Seq<Transform>,
    k: int,
    w: int,
    h: int,
    modes: Seq<u32>,
    ms: int,
    mtb: nat,
    mult: Seq<u32>,
    cs: int,
    ctb: nat,
    pal: Seq<u32>,
    psr: u32,
) -> (Seq<u32>, int, int, bool)
    decreases k,
{
    if k <= 0 {
        (p, stride, rw, true)
    } else {
        match ts[k - 1] {
            Transform::Predictor => {
                let q = predicted(p, 0, stride, rw, modes, ms, mtb, 0, h, None);
                if !q.1 {
                    (q.0, stride, rw, false)
                } else {
                    whole_applied(q.0, stride, rw, ts, k - 1, w, h, modes, ms, mtb, mult, cs, ctb, pal, psr)
                }
            },
            Transform::Color => whole_applied(
                color_rows_done(p, 0, stride, rw, mult, cs, pow2(ctb) as int, 0, h),
                stride,
                rw,
                ts,
                k - 1,
                w,
                h,
                modes,
                ms,
                mtb,
                mult,
                cs,
                ctb,
                pal,
                psr,
            ),
            Transform::SubtractGreen => whole_applied(
                green_rows(p, 0, stride, rw, h),
                stride,
                rw,
                ts,
                k - 1,
                w,
                h,
                modes,
                ms,
                mtb,
                mult,
                cs,
                ctb,
                pal,
                psr,
            ),
            Transform::ColorIndexing => {
                let q = indexed_rows(p, 0, w, stride, w, h, pal, psr, h);
                if psr > 0 {
                    whole_applied(q, w, w, ts, k - 1, w, h, modes, ms, mtb, mult, cs, ctb, pal, psr)
                } else {
                    whole_applied(q, stride, rw, ts, k - 1, w, h, modes, ms, mtb, mult, cs, ctb, pal, psr)
                }
            },
        }
    }
}

/// Undoes the first `nb_transforms` transforms over the whole of `pic`, last
/// first, as [`whole_applied`] says. An alpha plane whose only transform is
/// the palette goes straight into the caller's plane `alpha` instead, when one
/// is given.
#[verifier::rlimit(60)]
pub fn apply_transforms(
    pic: &mut Picture,
    transforms: &[Transform; 4],
    nb_transforms: usize,
    modes: &ImageContext,
    mult: &ImageContext,
    pal: &ImageContext,
    reduced_width: &mut i32,
    alpha: &mut [u8],
    alpha_stride: usize,
    has_alpha_dst: bool,
    alpha_dst_used: &mut bool,
) -> (r: Result<()>)
    requires
        nb_transforms <= 4,
        0 <= *old(reduced_width),
        0 <= old(pic).width,
        0 <= old(pic).height,
        0 <= pal.storage.width <= pal.storage.data@.len(),
        has_alpha_dst && nb_transforms == 1 && transforms@[0] == Transform::ColorIndexing ==> {
            &&& pal.size_reduction < 32
            &&& forall|y: int|
                0 <= y < old(pic).height ==> #[trigger] alpha_row_fits(
                    old(pic).data@.len() as int,
                    old(pic).stride as int,
                    old(alpha).len() as int,
                    alpha_stride as int,
                    old(pic).width as int,
                    pal.size_reduction,
                    y,
                )
        },
        !(has_alpha_dst && nb_transforms == 1 && transforms@[0] == Transform::ColorIndexing) ==> whole_fits(
            old(pic).data@.len() as int,
            old(pic).stride as int,
            *old(reduced_width) as int,
            transforms@,
            nb_transforms as int,
            old(pic).width as int,
            old(pic).height as int,
            modes.storage.data@.len() as int,
            modes.storage.stride as int,
            modes.size_reduction as nat,
            mult.storage.data@.len() as int,
            mult.storage.stride as int,
            mult.size_reduction as nat,
            pal.storage.width as int,
            pal.size_reduction,
        ),
    ensures
        final(pic).width == old(pic).width,
        final(pic).height == old(pic).height,
        has_alpha_dst && nb_transforms == 1 && transforms@[0] == Transform::ColorIndexing ==> {
            &&& r is Ok
            &&& final(alpha)@ == alpha_rows(
                old(alpha)@,
                old(pic).data@,
                old(pic).stride as int,
                alpha_stride as int,
                old(pic).width as int,
                pal.storage.data@.subrange(0, pal.storage.width as int),
                pal.size_reduction,
                old(pic).height as int,
            )
            &&& final(pic).data@ == old(pic).data@
            &&& final(pic).stride == old(pic).width
            &&& *final(reduced_width) == old(pic).width
            &&& *final(alpha_dst_used)
        },
        !(has_alpha_dst && nb_transforms == 1 && transforms@[0] == Transform::ColorIndexing) ==> {
            let t = whole_applied(
                old(pic).data@,
                old(pic).stride as int,
                *old(reduced_width) as int,
                transforms@,
                nb_transforms as int,
                old(pic).width as int,
                old(pic).height as int,
                modes.storage.data@,
                modes.storage.stride as int,
                modes.size_reduction as nat,
                mult.storage.data@,
                mult.storage.stride as int,
                mult.size_reduction as nat,
                pal.storage.data@.subrange(0, pal.storage.width as int),
                pal.size_reduction,
            );
            &&& final(pic).data@ == t.0
            &&& final(pic).stride == t.1
            &&& *final(reduced_width) == t.2
            &&& r is Ok == t.3
            &&& final(alpha)@ == old(alpha)@
            &&& *final(alpha_dst_used) == *old(alpha_dst_used)
        },
        r is Err ==> r == Err::<(), Error>(Error::InvalidData),
{
    if has_alpha_dst && nb_transforms == 1 {
        if let Transform::ColorIndexing = transforms[0] {
            apply_color_indexing_alpha(pic, pal, alpha, alpha_stride, reduced_width, alpha_dst_used);
            return Ok(());
        }
    }
    let ghost w = pic.width as int;
    let ghost h = pic.height as int;
    let ghost pal_seq = pal.storage.data@.subrange(0, pal.storage.width as int);
    let ghost total = whole_applied(
        pic.data@,
        pic.stride as int,
        *reduced_width as int,
        transforms@,
        nb_transforms as int,
        w,
        h,
        modes.storage.data@,
        modes.storage.stride as int,
        modes.size_reduction as nat,
        mult.storage.data@,
        mult.storage.stride as int,
        mult.size_reduction as nat,
        pal_seq,
        pal.size_reduction,
    );
    let mut k: usize = nb_transforms;
    while k > 0
        invariant
            k <= nb_transforms <= 4,
            !(has_alpha_dst && nb_transforms == 1 && transforms@[0] == Transform::ColorIndexing),
            pic.width == old(pic).width,
            pic.height == old(pic).height,
            w == pic.width,
            h == pic.height,
            0 <= w,
            0 <= h,
            0 <= *reduced_width,
            0 <= pal.storage.width <= pal.storage.data@.len(),
            pal_seq == pal.storage.data@.subrange(0, pal.storage.width as int),
            pic.data@.len() == old(pic).data@.len(),
            alpha@ == old(alpha)@,
            *alpha_dst_used == *old(alpha_dst_used),
            total == whole_applied(
                old(pic).data@,
                old(pic).stride as int,
                *old(reduced_width) as int,
                transforms@,
                nb_transforms as int,
                w,
                h,
                modes.storage.data@,
                modes.storage.stride as int,
                modes.size_reduction as nat,
                mult.storage.data@,
                mult.storage.stride as int,
                mult.size_reduction as nat,
                pal_seq,
                pal.size_reduction,
            ),
            whole_fits(
                old(pic).data@.len() as int,
                pic.stride as int,
                *reduced_width as int,
                transforms@,
                k as int,
                w,
                h,
                modes.storage.data@.len() as int,
                modes.storage.stride as int,
                modes.size_reduction as nat,
                mult.storage.data@.len() as int,
                mult.storage.stride as int,
                mult.size_reduction as nat,
                pal.storage.width as int,
                pal.size_reduction,
            ),
            whole_applied(
                pic.data@,
                pic.stride as int,
                *reduced_width as int,
                transforms@,
                k as int,
                w,
                h,
                modes.storage.data@,
                modes.storage.stride as int,
                modes.size_reduction as nat,
                mult.storage.data@,
                mult.storage.stride as int,
                mult.size_reduction as nat,
                pal_seq,
                pal.size_reduction,
            ) == total,
        decreases k,
    {
        k -= 1;
        match transforms[k] {
            Transform::Predictor => {
                let rr = apply_predictor(pic, modes, *reduced_width);
                if rr.is_err() {
                    return Err(Error::InvalidData);
                }
            },
            Transform::Color => {
                apply_color(pic, mult, *reduced_width);
            },
            Transform::SubtractGreen => {
                apply_subtract_green(pic, *reduced_width);
            },
            Transform::ColorIndexing => {
                apply_color_indexing(pic, pal, reduced_width);
            },
        }
    }
    Ok(())
}

} // verus!
