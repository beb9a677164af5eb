//! Scalar kernels for VP8 intra prediction.
//!
//! A predictor writes an `N`x`N` block and reads some of the row above it, the
//! column to its left, and the corner between them. All of that is one
//! contiguous region of the plane, so each kernel takes the plane as a single
//! slice with `o`, the index of the block's top-left sample within it, and the
//! plane's `stride`. How far back from `o` a kernel reads depends on its mode:
//! `stride + 1` when it reads the corner, `stride` when only the row above,
//! `1` when only the column, nothing at all for the flat predictor.
//!
//! Every kernel gathers its neighbours before it writes, and each contract
//! states the new block sample by sample as a function of the plane before the
//! call; the rest of the plane is left as it was.

use vstd::prelude::*;

verus! {

/// The chroma and 16x16 luma prediction modes, in the order the bitstream
/// numbers them.
pub const DC_PRED8X8: usize = 0;
pub const HOR_PRED8X8: usize = 1;
pub const VERT_PRED8X8: usize = 2;
pub const PLANE_PRED8X8: usize = 3;
pub const LEFT_DC_PRED8X8: usize = 4;
pub const TOP_DC_PRED8X8: usize = 5;
pub const DC_128_PRED8X8: usize = 6;

/// Where row `y` of the block starts.
pub open spec fn row_start(o: int, stride: int, y: int) -> int {
    o + y * stride
}

/// Whether index `i` falls in row `y` of an `n`-wide block.
pub open spec fn in_row(o: int, stride: int, n: int, i: int, y: int) -> bool {
    row_start(o, stride, y) <= i < row_start(o, stride, y) + n
}

/// Whether index `i` falls in the `n` by `n` block at `o`.
pub open spec fn in_block(o: int, stride: int, n: int, i: int) -> bool {
    exists|y: int| 0 <= y < n && #[trigger] in_row(o, stride, n, i, y)
}

/// `new` is `old` with sample `(x, y)` of the `n` by `n` block at `o` replaced
/// by `f(x, y)`, and nothing else changed.
pub open spec fn block_written(
    new: Seq<u8>,
    old: Seq<u8>,
    o: int,
    stride: int,
    n: int,
    f: spec_fn(int, int) -> u8,
) -> bool {
    &&& new.len() == old.len()
    &&& forall|y: int, x: int|
        0 <= y < n && 0 <= x < n ==> #[trigger] new[row_start(o, stride, y) + x] == f(x, y)
    &&& forall|i: int| 0 <= i < old.len() && !in_block(o, stride, n, i) ==> new[i] == old[i]
}

/// A block the plane has room for, with rows that do not overlap.
pub open spec fn block_fits(len: int, o: int, stride: int, n: int) -> bool {
    &&& n >= 1
    &&& stride >= n
    &&& o >= 0
    &&& o + (n - 1) * stride + n <= len
}

/// Sample `x` of the row above the block.
pub open spec fn top_at(b: Seq<u8>, o: int, stride: int, x: int) -> int {
    b[o - stride + x] as int
}

/// Sample `y` of the column left of the block.
pub open spec fn left_at(b: Seq<u8>, o: int, stride: int, y: int) -> int {
    b[o + y * stride - 1] as int
}

/// The sample above and left of the block.
pub open spec fn corner_at(b: Seq<u8>, o: int, stride: int) -> int {
    b[o - stride - 1] as int
}

/// The rounded mean of two samples.
pub open spec fn avg2_of(a: int, b: int) -> u8 {
    ((a + b + 1) / 2) as u8
}

/// The rounded three-tap smoothing of `b` with its neighbours `a` and `c`.
pub open spec fn avg3_of(a: int, b: int, c: int) -> u8 {
    ((a + 2 * b + c + 2) / 4) as u8
}

/// `v` clamped to a byte.
pub open spec fn clamp255(v: int) -> u8 {
    if v < 0 { 0u8 } else if v > 255 { 255u8 } else { v as u8 }
}

/// The sum of the first `n` samples of the row above.
pub open spec fn top_sum(b: Seq<u8>, o: int, stride: int, n: int) -> int
    decreases n,
{
    if n <= 0 { 0 } else { top_sum(b, o, stride, n - 1) + top_at(b, o, stride, n - 1) }
}

/// The sum of the first `n` samples of the left column.
pub open spec fn left_sum(b: Seq<u8>, o: int, stride: int, n: int) -> int
    decreases n,
{
    if n <= 0 { 0 } else { left_sum(b, o, stride, n - 1) + left_at(b, o, stride, n - 1) }
}

/// The row above a 4x4 block extended both ways: the corner at `-1`, then the
/// four samples above, then the four top-right samples `tr`.
pub open spec fn ext_top(b: Seq<u8>, o: int, stride: int, tr: Seq<u8>, i: int) -> int {
    if i < 0 {
        corner_at(b, o, stride)
    } else if i < 4 {
        top_at(b, o, stride, i)
    } else {
        tr[i - 4] as int
    }
}

/// The left column extended upwards by the corner at `-1`.
pub open spec fn ext_left(b: Seq<u8>, o: int, stride: int, i: int) -> int {
    if i < 0 { corner_at(b, o, stride) } else { left_at(b, o, stride, i) }
}

/// The edge of a 4x4 block read from its bottom-left corner round to its
/// top-right one: four left samples upwards, the corner, four top samples.
pub open spec fn edge(b: Seq<u8>, o: int, stride: int, i: int) -> int {
    if i < 4 {
        left_at(b, o, stride, 3 - i)
    } else if i == 4 {
        corner_at(b, o, stride)
    } else {
        top_at(b, o, stride, i - 5)
    }
}

/// Sample `(x, y)` of `VERT_PRED`: the row above, smoothed along itself.
pub open spec fn vertical4_at(b: Seq<u8>, o: int, stride: int, tr: Seq<u8>, x: int, y: int) -> u8 {
    avg3_of(ext_top(b, o, stride, tr, x - 1), ext_top(b, o, stride, tr, x), ext_top(b, o, stride, tr, x + 1))
}

/// Sample `(x, y)` of `HOR_PRED`: the left column, smoothed along itself.
pub open spec fn horizontal4_at(b: Seq<u8>, o: int, stride: int, x: int, y: int) -> u8 {
    avg3_of(
        ext_left(b, o, stride, y - 1),
        ext_left(b, o, stride, y),
        ext_left(b, o, stride, if y < 3 { y + 1 } else { 3 }),
    )
}

/// The value of `DC_PRED`: the rounded mean of the four samples above and the
/// four to the left.
pub open spec fn dc4_value(b: Seq<u8>, o: int, stride: int) -> u8 {
    ((top_sum(b, o, stride, 4) + left_sum(b, o, stride, 4) + 4) / 8) as u8
}

/// Above and to the left of a 4x4 block, every neighbour is `v`: the DC
/// prediction is then `v` itself.
pub proof fn law_a_uniform_neighbourhood_predicts_itself(b: Seq<u8>, o: int, stride: int, v: u8)
    requires
        forall|i: int| 0 <= i < 4 ==> #[trigger] top_at(b, o, stride, i) == v && left_at(b, o, stride, i) == v,
    ensures
        dc4_value(b, o, stride) == v,
{
    assert(top_at(b, o, stride, 0) == v && left_at(b, o, stride, 0) == v);
    assert(top_at(b, o, stride, 1) == v && left_at(b, o, stride, 1) == v);
    assert(top_at(b, o, stride, 2) == v && left_at(b, o, stride, 2) == v);
    assert(top_at(b, o, stride, 3) == v && left_at(b, o, stride, 3) == v);
    reveal_with_fuel(top_sum, 5);
    reveal_with_fuel(left_sum, 5);
    assert(top_sum(b, o, stride, 4) + left_sum(b, o, stride, 4) == 8 * v);
}

/// Sample `(x, y)` of `DIAG_DOWN_RIGHT_PRED`: the smoothed edge, constant
/// along each down-right diagonal.
pub open spec fn down_right4_at(b: Seq<u8>, o: int, stride: int, x: int, y: int) -> u8 {
    let k = 3 + x - y;
    avg3_of(edge(b, o, stride, k), edge(b, o, stride, k + 1), edge(b, o, stride, k + 2))
}

/// Sample `(x, y)` of `DIAG_DOWN_LEFT_PRED`: the smoothed top row with its
/// top-right extension, constant along each down-left diagonal.
pub open spec fn down_left4_at(b: Seq<u8>, o: int, stride: int, tr: Seq<u8>, x: int, y: int) -> u8 {
    let k = x + y;
    avg3_of(
        ext_top(b, o, stride, tr, k),
        ext_top(b, o, stride, tr, k + 1),
        ext_top(b, o, stride, tr, if k < 6 { k + 2 } else { 7 }),
    )
}

/// `VERT_RIGHT_PRED`, row by row.
pub open spec fn vertical_right4(b: Seq<u8>, o: int, stride: int) -> Seq<u8> {
    let lt = corner_at(b, o, stride);
    let t0 = top_at(b, o, stride, 0);
    let t1 = top_at(b, o, stride, 1);
    let t2 = top_at(b, o, stride, 2);
    let t3 = top_at(b, o, stride, 3);
    let l0 = left_at(b, o, stride, 0);
    let l1 = left_at(b, o, stride, 1);
    let l2 = left_at(b, o, stride, 2);
    seq![
        avg2_of(lt, t0), avg2_of(t0, t1), avg2_of(t1, t2), avg2_of(t2, t3),
        avg3_of(l0, lt, t0), avg3_of(lt, t0, t1), avg3_of(t0, t1, t2), avg3_of(t1, t2, t3),
        avg3_of(lt, l0, l1), avg2_of(lt, t0), avg2_of(t0, t1), avg2_of(t1, t2),
        avg3_of(l0, l1, l2), avg3_of(l0, lt, t0), avg3_of(lt, t0, t1), avg3_of(t0, t1, t2),
    ]
}

/// `VERT_LEFT_PRED`, row by row.
pub open spec fn vertical_left4(b: Seq<u8>, o: int, stride: int, tr: Seq<u8>) -> Seq<u8> {
    let t0 = top_at(b, o, stride, 0);
    let t1 = top_at(b, o, stride, 1);
    let t2 = top_at(b, o, stride, 2);
    let t3 = top_at(b, o, stride, 3);
    let t4 = tr[0] as int;
    let t5 = tr[1] as int;
    let t6 = tr[2] as int;
    let t7 = tr[3] as int;
    seq![
        avg2_of(t0, t1), avg2_of(t1, t2), avg2_of(t2, t3), avg2_of(t3, t4),
        avg3_of(t0, t1, t2), avg3_of(t1, t2, t3), avg3_of(t2, t3, t4), avg3_of(t3, t4, t5),
        avg2_of(t1, t2), avg2_of(t2, t3), avg2_of(t3, t4), avg3_of(t4, t5, t6),
        avg3_of(t1, t2, t3), avg3_of(t2, t3, t4), avg3_of(t3, t4, t5), avg3_of(t5, t6, t7),
    ]
}

/// `HOR_UP_PRED`, row by row.
pub open spec fn horizontal_up4(b: Seq<u8>, o: int, stride: int) -> Seq<u8> {
    let l0 = left_at(b, o, stride, 0);
    let l1 = left_at(b, o, stride, 1);
    let l2 = left_at(b, o, stride, 2);
    let l3 = left_at(b, o, stride, 3);
    let e = l3 as u8;
    seq![
        avg2_of(l0, l1), avg3_of(l0, l1, l2), avg2_of(l1, l2), avg3_of(l1, l2, l3),
        avg2_of(l1, l2), avg3_of(l1, l2, l3), avg2_of(l2, l3), avg3_of(l2, l3, l3),
        avg2_of(l2, l3), avg3_of(l2, l3, l3), e, e,
        e, e, e, e,
    ]
}

/// `HOR_DOWN_PRED`, row by row.
pub open spec fn horizontal_down4(b: Seq<u8>, o: int, stride: int) -> Seq<u8> {
    let lt = corner_at(b, o, stride);
    let t0 = top_at(b, o, stride, 0);
    let t1 = top_at(b, o, stride, 1);
    let t2 = top_at(b, o, stride, 2);
    let l0 = left_at(b, o, stride, 0);
    let l1 = left_at(b, o, stride, 1);
    let l2 = left_at(b, o, stride, 2);
    let l3 = left_at(b, o, stride, 3);
    seq![
        avg2_of(lt, l0), avg3_of(l0, lt, t0), avg3_of(lt, t0, t1), avg3_of(t0, t1, t2),
        avg2_of(l0, l1), avg3_of(lt, l0, l1), avg2_of(lt, l0), avg3_of(l0, lt, t0),
        avg2_of(l1, l2), avg3_of(l0, l1, l2), avg2_of(l0, l1), avg3_of(lt, l0, l1),
        avg2_of(l2, l3), avg3_of(l1, l2, l3), avg2_of(l1, l2), avg3_of(l0, l1, l2),
    ]
}

/// Sample `(x, y)` of the TrueMotion predictor: the left neighbour plus the
/// top one minus the corner, clamped.
pub open spec fn tm_at(b: Seq<u8>, o: int, stride: int, x: int, y: int) -> u8 {
    clamp255(left_at(b, o, stride, y) + top_at(b, o, stride, x) - corner_at(b, o, stride))
}

/// The value of `DC_PRED8x8` over an `n`-wide block: both edges summed with
/// `n`, shifted down by 4 for an 8-wide block and by 5 otherwise, as a byte.
pub open spec fn dc_value(b: Seq<u8>, o: int, stride: int, n: int) -> u8 {
    ((n + top_sum(b, o, stride, n) + left_sum(b, o, stride, n)) / (if n == 8 { 16int } else { 32int })) as u8
}

/// The rounded mean of the left column.
pub open spec fn left_dc_value(b: Seq<u8>, o: int, stride: int, n: int) -> u8 {
    ((n / 2 + left_sum(b, o, stride, n)) / n) as u8
}

/// The rounded mean of the row above.
pub open spec fn top_dc_value(b: Seq<u8>, o: int, stride: int, n: int) -> u8 {
    ((n / 2 + top_sum(b, o, stride, n)) / n) as u8
}

proof fn lemma_rows_apart(o: int, stride: int, j: int, y: int)
    requires
        0 <= j < y,
        stride >= 0,
    ensures
        row_start(o, stride, j) + stride <= row_start(o, stride, y),
{
    assert(j * stride + stride <= y * stride) by (nonlinear_arith)
        requires
            j < y,
            stride >= 0,
    ;
}

proof fn lemma_row_bound(o: int, stride: int, y: int, n: int)
    requires
        0 <= y < n,
        stride >= 0,
    ensures
        row_start(o, stride, y) <= row_start(o, stride, n - 1),
        row_start(o, stride, y) >= o,
{
    assert(y * stride <= (n - 1) * stride && y * stride >= 0) by (nonlinear_arith)
        requires
            y <= n - 1,
            stride >= 0,
            y >= 0,
    ;
}

/// Cell `(x, y)` of an `n`-wide grid stored row by row.
pub open spec fn cell(n: int, x: int, y: int) -> int {
    y * n + x
}

proof fn lemma_cell_bounds(n: int, x: int, y: int)
    requires
        0 <= x < n,
        0 <= y < n,
    ensures
        0 <= cell(n, x, y) < n * n,
        cell(n, x, y) + n - x <= n * n,
{
    assert(y * n + n <= n * n && y * n >= 0) by (nonlinear_arith)
        requires
            0 <= y < n,
    ;
}

proof fn lemma_cells_apart(n: int, x: int, j: int, y: int)
    requires
        0 <= x < n,
        0 <= j < y,
    ensures
        cell(n, x, j) < y * n,
{
    assert(j * n + n <= y * n) by (nonlinear_arith)
        requires
            j < y,
            n >= 0,
    ;
}

/// The `n` by `n` values `f(x, y)`, row by row.
fn build_grid<F: Fn(usize, usize) -> u8>(n: usize, f: &F) -> (v: Vec<u8>)
    requires
        n * n <= usize::MAX,
        forall|x: usize, y: usize| x < n && y < n ==> #[trigger] f.requires((x, y)),
    ensures
        v.len() == n * n,
        forall|x: usize, y: usize|
            x < n && y < n ==> f.ensures((x, y), #[trigger] v@[cell(n as int, x as int, y as int)]),
{
    let mut v: Vec<u8> = Vec::new();
    let mut y: usize = 0;
    while y < n
        invariant
            n * n <= usize::MAX,
            forall|x: usize, y: usize| x < n && y < n ==> #[trigger] f.requires((x, y)),
            y <= n,
            v.len() == y * n,
            forall|x2: usize, j: usize|
                x2 < n && j < y ==> f.ensures((x2, j), #[trigger] v@[cell(n as int, x2 as int, j as int)]),
        decreases n - y,
    {
        let mut x: usize = 0;
        while x < n
            invariant
                n * n <= usize::MAX,
                forall|x: usize, y: usize| x < n && y < n ==> #[trigger] f.requires((x, y)),
                y < n,
                x <= n,
                v.len() == y * n + x,
                forall|x2: usize, j: usize|
                    x2 < n && j < y ==> f.ensures((x2, j), #[trigger] v@[cell(n as int, x2 as int, j as int)]),
                forall|x2: usize| x2 < x ==> f.ensures((x2, y), #[trigger] v@[cell(n as int, x2 as int, y as int)]),
            decreases n - x,
        {
            proof {
                lemma_cell_bounds(n as int, x as int, y as int);
            }
            let r = f(x, y);
            let ghost before = v@;
            v.push(r);
            proof {
                assert forall|x2: usize, j: usize| x2 < n && j < y implies f.ensures(
                    (x2, j),
                    #[trigger] v@[cell(n as int, x2 as int, j as int)],
                ) by {
                    lemma_cells_apart(n as int, x2 as int, j as int, y as int);
                    assert(v@[cell(n as int, x2 as int, j as int)] == before[cell(n as int, x2 as int, j as int)]);
                }
                assert forall|x2: usize| x2 < x + 1 implies f.ensures(
                    (x2, y),
                    #[trigger] v@[cell(n as int, x2 as int, y as int)],
                ) by {
                    if x2 < x {
                        assert(v@[cell(n as int, x2 as int, y as int)] == before[cell(n as int, x2 as int, y as int)]);
                    }
                }
            }
            x = x + 1;
        }
        proof {
            assert((y + 1) * n == y * n + n) by (nonlinear_arith);
        }
        y = y + 1;
    }
    v
}

/// Writes `vals`, row by row, into the `n` by `n` block at `o`.
fn write_block(buf: &mut [u8], o: usize, stride: usize, n: usize, vals: &Vec<u8>)
    requires
        block_fits(old(buf).len() as int, o as int, stride as int, n as int),
        vals.len() == n * n,
    ensures
        block_written(final(buf)@, old(buf)@, o as int, stride as int, n as int, |x: int, y: int| vals@[cell(n as int, x, y)]),
{
    let mut y: usize = 0;
    while y < n
        invariant
            block_fits(old(buf).len() as int, o as int, stride as int, n as int),
            vals.len() == n * n,
            buf.len() == old(buf).len(),
            y <= n,
            forall|j: int, x: int|
                0 <= j < y && 0 <= x < n ==> #[trigger] buf@[row_start(o as int, stride as int, j) + x]
                    == vals@[cell(n as int, x, j)],
            forall|i: int|
                0 <= i < buf.len() && (forall|j: int| 0 <= j < y ==> !#[trigger] in_row(o as int, stride as int, n as int, i, j))
                    ==> buf@[i] == old(buf)@[i],
        decreases n - y,
    {
        proof {
            lemma_row_bound(o as int, stride as int, y as int, n as int);
            lemma_cell_bounds(n as int, 0, y as int);
        }
        let at = o + y * stride;
        let base = y * n;
        let mut x: usize = 0;
        while x < n
            invariant
                block_fits(old(buf).len() as int, o as int, stride as int, n as int),
                vals.len() == n * n,
                buf.len() == old(buf).len(),
                y < n,
                x <= n,
                at == row_start(o as int, stride as int, y as int),
                at + n <= buf.len(),
                base == cell(n as int, 0, y as int),
                base + n <= n * n,
                forall|j: int, x2: int|
                    0 <= j < y && 0 <= x2 < n ==> #[trigger] buf@[row_start(o as int, stride as int, j) + x2]
                        == vals@[cell(n as int, x2, j)],
                forall|x2: int| 0 <= x2 < x ==> #[trigger] buf@[at + x2] == vals@[base + x2],
                forall|i: int|
                    0 <= i < buf.len() && (forall|j: int| 0 <= j < y ==> !#[trigger] in_row(o as int, stride as int, n as int, i, j))
                        && !(at <= i < at + x) ==> buf@[i] == old(buf)@[i],
            decreases n - x,
        {
            let ghost before = buf@;
            buf[at + x] = vals[base + x];
            proof {
                assert forall|j: int, x2: int| 0 <= j < y && 0 <= x2 < n implies #[trigger] buf@[row_start(
                    o as int,
                    stride as int,
                    j,
                ) + x2] == vals@[cell(n as int, x2, j)] by {
                    lemma_rows_apart(o as int, stride as int, j, y as int);
                    assert(before[row_start(o as int, stride as int, j) + x2] == vals@[cell(n as int, x2, j)]);
                }
                assert forall|x2: int| 0 <= x2 < x + 1 implies #[trigger] buf@[at + x2] == vals@[base + x2] by {
                    if x2 < x {
                        assert(before[at + x2] == vals@[base + x2]);
                    }
                }
            }
            x = x + 1;
        }
        proof {
            assert forall|j: int, x2: int| 0 <= j < y + 1 && 0 <= x2 < n implies #[trigger] buf@[row_start(
                o as int,
                stride as int,
                j,
            ) + x2] == vals@[cell(n as int, x2, j)] by {
                if j == y {
                    assert(buf@[at + x2] == vals@[base + x2]);
                }
            }
            assert forall|i: int|
                0 <= i < buf.len() && (forall|j: int| 0 <= j < y + 1 ==> !#[trigger] in_row(o as int, stride as int, n as int, i, j))
                implies buf@[i] == old(buf)@[i] by {
                assert(!in_row(o as int, stride as int, n as int, i, y as int));
            }
        }
        y = y + 1;
    }
    proof {
        assert forall|i: int| 0 <= i < old(buf).len() && !in_block(o as int, stride as int, n as int, i) implies buf@[i]
            == old(buf)@[i] by {
            assert forall|j: int| 0 <= j < n implies !#[trigger] in_row(o as int, stride as int, n as int, i, j) by {
                if in_row(o as int, stride as int, n as int, i, j) {
                    assert(in_block(o as int, stride as int, n as int, i));
                }
            }
        }
    }
}


proof fn lemma_written_same(
    new: Seq<u8>,
    old: Seq<u8>,
    o: int,
    stride: int,
    n: int,
    f: spec_fn(int, int) -> u8,
    g: spec_fn(int, int) -> u8,
)
    requires
        block_written(new, old, o, stride, n, f),
        forall|x: int, y: int| 0 <= x < n && 0 <= y < n ==> #[trigger] f(x, y) == g(x, y),
    ensures
        block_written(new, old, o, stride, n, g),
{
    assert forall|y: int, x: int| 0 <= y < n && 0 <= x < n implies #[trigger] new[row_start(o, stride, y) + x] == g(
        x,
        y,
    ) by {
        assert(f(x, y) == g(x, y));
    }
}

proof fn lemma_fits_square(len: int, o: int, stride: int, n: int)
    requires
        block_fits(len, o, stride, n),
    ensures
        n * n <= len,
        forall|y: int| 0 <= y < n ==> #[trigger] row_start(o, stride, y) + n <= len,
{
    assert(n * n <= (n - 1) * stride + n) by (nonlinear_arith)
        requires
            n >= 1,
            stride >= n,
    ;
    assert forall|y: int| 0 <= y < n implies #[trigger] row_start(o, stride, y) + n <= len by {
        lemma_row_bound(o, stride, y, n);
    }
}

proof fn lemma_small_side(n: int)
    requires
        0 <= n,
        n * n <= usize::MAX,
    ensures
        n <= 0x1_0000_0000,
{
    if n > 0x1_0000_0000 {
        assert(n * n > 0x1_0000_0000 * 0x1_0000_0000) by (nonlinear_arith)
            requires
                n > 0x1_0000_0000,
        ;
    }
}

/// Sample `x` of the row above the block.
fn top(buf: &[u8], o: usize, stride: usize, x: usize) -> (r: u32)
    requires
        stride <= o,
        o - stride + x < buf.len(),
    ensures
        r == top_at(buf@, o as int, stride as int, x as int),
        r <= 255,
{
    buf[o - stride + x] as u32
}

/// Sample `y` of the column left of the block.
fn left(buf: &[u8], o: usize, stride: usize, y: usize) -> (r: u32)
    requires
        1 <= o,
        o + y * stride <= buf.len(),
    ensures
        r == left_at(buf@, o as int, stride as int, y as int),
        r <= 255,
{
    buf[o + y * stride - 1] as u32
}

/// The sample above and left of the block.
fn corner(buf: &[u8], o: usize, stride: usize) -> (r: u32)
    requires
        stride + 1 <= o,
        o - stride - 1 < buf.len(),
    ensures
        r == corner_at(buf@, o as int, stride as int),
        r <= 255,
{
    buf[o - stride - 1] as u32
}

fn avg2(a: u32, b: u32) -> (r: u8)
    requires
        a <= 255,
        b <= 255,
    ensures
        r == avg2_of(a as int, b as int),
{
    ((a + b + 1) / 2) as u8
}

fn avg3(a: u32, b: u32, c: u32) -> (r: u8)
    requires
        a <= 255,
        b <= 255,
        c <= 255,
    ensures
        r == avg3_of(a as int, b as int, c as int),
{
    ((a + 2 * b + c + 2) / 4) as u8
}

fn clip_uint8(v: i32) -> (r: u8)
    ensures
        r == clamp255(v as int),
{
    if v < 0 {
        0
    } else if v > 255 {
        255
    } else {
        v as u8
    }
}

/// The first `n` samples of the row above.
fn read_top(buf: &[u8], o: usize, stride: usize, n: usize) -> (t: Vec<u32>)
    requires
        stride <= o,
        o - stride + n <= buf.len(),
    ensures
        t.len() == n,
        forall|i: int| 0 <= i < n ==> #[trigger] t@[i] == top_at(buf@, o as int, stride as int, i) && t@[i] <= 255,
{
    let mut t: Vec<u32> = Vec::new();
    let mut i: usize = 0;
    while i < n
        invariant
            stride <= o,
            o - stride + n <= buf.len(),
            i <= n,
            t.len() == i,
            forall|j: int| 0 <= j < i ==> #[trigger] t@[j] == top_at(buf@, o as int, stride as int, j) && t@[j] <= 255,
        decreases n - i,
    {
        let v = top(buf, o, stride, i);
        t.push(v);
        i = i + 1;
    }
    t
}

/// The first `n` samples of the left column.
fn read_left(buf: &[u8], o: usize, stride: usize, n: usize) -> (l: Vec<u32>)
    requires
        block_fits(buf.len() as int, o as int, stride as int, n as int),
        1 <= o,
    ensures
        l.len() == n,
        forall|i: int| 0 <= i < n ==> #[trigger] l@[i] == left_at(buf@, o as int, stride as int, i) && l@[i] <= 255,
{
    let mut l: Vec<u32> = Vec::new();
    let mut i: usize = 0;
    while i < n
        invariant
            block_fits(buf.len() as int, o as int, stride as int, n as int),
            1 <= o,
            i <= n,
            l.len() == i,
            forall|j: int| 0 <= j < i ==> #[trigger] l@[j] == left_at(buf@, o as int, stride as int, j) && l@[j] <= 255,
        decreases n - i,
    {
        proof {
            lemma_row_bound(o as int, stride as int, i as int, n as int);
        }
        let v = left(buf, o, stride, i);
        l.push(v);
        i = i + 1;
    }
    l
}

/// The row above a 4x4 block followed by its top-right extension.
fn read_ext_top(buf: &[u8], o: usize, stride: usize, tr: &[u8; 4]) -> (e: Vec<u32>)
    requires
        stride <= o,
        o - stride + 4 <= buf.len(),
    ensures
        e.len() == 8,
        forall|i: int| 0 <= i < 8 ==> #[trigger] e@[i] == ext_top(buf@, o as int, stride as int, tr@, i) && e@[i] <= 255,
{
    let mut e: Vec<u32> = Vec::new();
    let mut i: usize = 0;
    while i < 8
        invariant
            stride <= o,
            o - stride + 4 <= buf.len(),
            i <= 8,
            e.len() == i,
            forall|j: int| 0 <= j < i ==> #[trigger] e@[j] == ext_top(buf@, o as int, stride as int, tr@, j) && e@[j] <= 255,
        decreases 8 - i,
    {
        let v = if i < 4 {
            top(buf, o, stride, i)
        } else {
            tr[i - 4] as u32
        };
        e.push(v);
        i = i + 1;
    }
    e
}

/// The edge of a 4x4 block from its bottom-left corner round to its top-right.
fn read_edge(buf: &[u8], o: usize, stride: usize) -> (e: Vec<u32>)
    requires
        block_fits(buf.len() as int, o as int, stride as int, 4),
        stride + 1 <= o,
    ensures
        e.len() == 9,
        forall|i: int| 0 <= i < 9 ==> #[trigger] e@[i] == edge(buf@, o as int, stride as int, i) && e@[i] <= 255,
{
    let mut e: Vec<u32> = Vec::new();
    let mut i: usize = 0;
    while i < 9
        invariant
            block_fits(buf.len() as int, o as int, stride as int, 4),
            stride + 1 <= o,
            i <= 9,
            e.len() == i,
            forall|j: int| 0 <= j < i ==> #[trigger] e@[j] == edge(buf@, o as int, stride as int, j) && e@[j] <= 255,
        decreases 9 - i,
    {
        let v = if i < 4 {
            proof {
                lemma_row_bound(o as int, stride as int, 3 - i, 4);
            }
            left(buf, o, stride, 3 - i)
        } else if i == 4 {
            corner(buf, o, stride)
        } else {
            top(buf, o, stride, i - 5)
        };
        e.push(v);
        i = i + 1;
    }
    e
}

/// Fills the `n` by `n` block at `o` with `value`.
fn fill(buf: &mut [u8], o: usize, stride: usize, n: usize, value: u8)
    requires
        block_fits(old(buf).len() as int, o as int, stride as int, n as int),
    ensures
        block_written(final(buf)@, old(buf)@, o as int, stride as int, n as int, |x: int, y: int| value),
{
    proof {
        lemma_fits_square(old(buf).len() as int, o as int, stride as int, n as int);
    }
    let f = |x: usize, y: usize| -> (r: u8)
        ensures
            r == value,
        { value };
    let vals = build_grid(n, &f);
    write_block(buf, o, stride, n, &vals);
    proof {
        lemma_written_same(
            buf@,
            old(buf)@,
            o as int,
            stride as int,
            n as int,
            |x: int, y: int| vals@[cell(n as int, x, y)],
            |x: int, y: int| value,
        );
    }
}


/// `VERT_PRED`, which VP8 smooths rather than copying the row above.
pub fn pred4x4_vertical(buf: &mut [u8], o: usize, stride: usize, tr: &[u8; 4])
    requires
        block_fits(old(buf).len() as int, o as int, stride as int, 4),
        stride + 1 <= o,
    ensures
        block_written(
            final(buf)@,
            old(buf)@,
            o as int,
            stride as int,
            4,
            |x: int, y: int| vertical4_at(old(buf)@, o as int, stride as int, tr@, x, y),
        ),
{
    let gb: Ghost<Seq<u8>> = Ghost(buf@);
    let ghost b = gb@;
    let lt = corner(buf, o, stride);
    let e = read_ext_top(buf, o, stride, tr);
    let f = |x: usize, y: usize| -> (r: u8)
        requires
            x < 4,
        ensures
            r == vertical4_at(gb@, o as int, stride as int, tr@, x as int, y as int),
        {
            let a = if x == 0 {
                lt
            } else {
                e[x - 1]
            };
            avg3(a, e[x], e[x + 1])
        };
    let vals = build_grid(4, &f);
    write_block(buf, o, stride, 4, &vals);
    proof {
        lemma_written_same(
            buf@,
            b,
            o as int,
            stride as int,
            4,
            |x: int, y: int| vals@[cell(4, x, y)],
            |x: int, y: int| vertical4_at(b, o as int, stride as int, tr@, x, y),
        );
    }
}

/// `HOR_PRED`, likewise smoothed.
pub fn pred4x4_horizontal(buf: &mut [u8], o: usize, stride: usize)
    requires
        block_fits(old(buf).len() as int, o as int, stride as int, 4),
        stride + 1 <= o,
    ensures
        block_written(
            final(buf)@,
            old(buf)@,
            o as int,
            stride as int,
            4,
            |x: int, y: int| horizontal4_at(old(buf)@, o as int, stride as int, x, y),
        ),
{
    let gb: Ghost<Seq<u8>> = Ghost(buf@);
    let ghost b = gb@;
    let lt = corner(buf, o, stride);
    let l = read_left(buf, o, stride, 4);
    let f = |x: usize, y: usize| -> (r: u8)
        requires
            y < 4,
        ensures
            r == horizontal4_at(gb@, o as int, stride as int, x as int, y as int),
        {
            let a = if y == 0 {
                lt
            } else {
                l[y - 1]
            };
            let c = if y < 3 {
                l[y + 1]
            } else {
                l[3]
            };
            avg3(a, l[y], c)
        };
    let vals = build_grid(4, &f);
    write_block(buf, o, stride, 4, &vals);
    proof {
        lemma_written_same(
            buf@,
            b,
            o as int,
            stride as int,
            4,
            |x: int, y: int| vals@[cell(4, x, y)],
            |x: int, y: int| horizontal4_at(b, o as int, stride as int, x, y),
        );
    }
}

/// `DC_PRED`.
pub fn pred4x4_dc(buf: &mut [u8], o: usize, stride: usize)
    requires
        block_fits(old(buf).len() as int, o as int, stride as int, 4),
        stride <= o,
        1 <= o,
    ensures
        block_written(
            final(buf)@,
            old(buf)@,
            o as int,
            stride as int,
            4,
            |x: int, y: int| dc4_value(old(buf)@, o as int, stride as int),
        ),
{
    let gb: Ghost<Seq<u8>> = Ghost(buf@);
    let ghost b = gb@;
    let mut dc: u32 = 4;
    let mut i: usize = 0;
    while i < 4
        invariant
            block_fits(buf.len() as int, o as int, stride as int, 4),
            stride <= o,
            1 <= o,
            buf@ == b,
            i <= 4,
            dc == 4 + top_sum(b, o as int, stride as int, i as int) + left_sum(b, o as int, stride as int, i as int),
            dc <= 4 + 510 * i,
        decreases 4 - i,
    {
        proof {
            lemma_row_bound(o as int, stride as int, i as int, 4);
        }
        dc = dc + top(buf, o, stride, i) + left(buf, o, stride, i);
        i = i + 1;
    }
    fill(buf, o, stride, 4, (dc / 8) as u8);
    proof {
        lemma_written_same(
            buf@,
            b,
            o as int,
            stride as int,
            4,
            |x: int, y: int| (dc / 8) as u8,
            |x: int, y: int| dc4_value(b, o as int, stride as int),
        );
    }
}

/// `DIAG_DOWN_RIGHT_PRED`.
pub fn pred4x4_down_right(buf: &mut [u8], o: usize, stride: usize)
    requires
        block_fits(old(buf).len() as int, o as int, stride as int, 4),
        stride + 1 <= o,
    ensures
        block_written(
            final(buf)@,
            old(buf)@,
            o as int,
            stride as int,
            4,
            |x: int, y: int| down_right4_at(old(buf)@, o as int, stride as int, x, y),
        ),
{
    let gb: Ghost<Seq<u8>> = Ghost(buf@);
    let ghost b = gb@;
    let e = read_edge(buf, o, stride);
    let f = |x: usize, y: usize| -> (r: u8)
        requires
            x < 4,
            y < 4,
        ensures
            r == down_right4_at(gb@, o as int, stride as int, x as int, y as int),
        {
            let k = 3 + x - y;
            avg3(e[k], e[k + 1], e[k + 2])
        };
    let vals = build_grid(4, &f);
    write_block(buf, o, stride, 4, &vals);
    proof {
        lemma_written_same(
            buf@,
            b,
            o as int,
            stride as int,
            4,
            |x: int, y: int| vals@[cell(4, x, y)],
            |x: int, y: int| down_right4_at(b, o as int, stride as int, x, y),
        );
    }
}

/// `DIAG_DOWN_LEFT_PRED`.
pub fn pred4x4_down_left(buf: &mut [u8], o: usize, stride: usize, tr: &[u8; 4])
    requires
        block_fits(old(buf).len() as int, o as int, stride as int, 4),
        stride <= o,
    ensures
        block_written(
            final(buf)@,
            old(buf)@,
            o as int,
            stride as int,
            4,
            |x: int, y: int| down_left4_at(old(buf)@, o as int, stride as int, tr@, x, y),
        ),
{
    let gb: Ghost<Seq<u8>> = Ghost(buf@);
    let ghost b = gb@;
    let e = read_ext_top(buf, o, stride, tr);
    let f = |x: usize, y: usize| -> (r: u8)
        requires
            x < 4,
            y < 4,
        ensures
            r == down_left4_at(gb@, o as int, stride as int, tr@, x as int, y as int),
        {
            let k = x + y;
            let c = if k < 6 {
                e[k + 2]
            } else {
                e[7]
            };
            avg3(e[k], e[k + 1], c)
        };
    let vals = build_grid(4, &f);
    write_block(buf, o, stride, 4, &vals);
    proof {
        lemma_written_same(
            buf@,
            b,
            o as int,
            stride as int,
            4,
            |x: int, y: int| vals@[cell(4, x, y)],
            |x: int, y: int| down_left4_at(b, o as int, stride as int, tr@, x, y),
        );
    }
}


/// `VERT_RIGHT_PRED`.
pub fn pred4x4_vertical_right(buf: &mut [u8], o: usize, stride: usize)
    requires
        block_fits(old(buf).len() as int, o as int, stride as int, 4),
        stride + 1 <= o,
    ensures
        block_written(
            final(buf)@,
            old(buf)@,
            o as int,
            stride as int,
            4,
            |x: int, y: int| vertical_right4(old(buf)@, o as int, stride as int)[cell(4, x, y)],
        ),
{
    let ghost b = buf@;
    proof {
        lemma_row_bound(o as int, stride as int, 2, 4);
    }
    let lt = corner(buf, o, stride);
    let t0 = top(buf, o, stride, 0);
    let t1 = top(buf, o, stride, 1);
    let t2 = top(buf, o, stride, 2);
    let t3 = top(buf, o, stride, 3);
    let l0 = left(buf, o, stride, 0);
    let l1 = left(buf, o, stride, 1);
    let l2 = left(buf, o, stride, 2);
    let mut vals: Vec<u8> = Vec::new();
    vals.push(avg2(lt, t0));
    vals.push(avg2(t0, t1));
    vals.push(avg2(t1, t2));
    vals.push(avg2(t2, t3));
    vals.push(avg3(l0, lt, t0));
    vals.push(avg3(lt, t0, t1));
    vals.push(avg3(t0, t1, t2));
    vals.push(avg3(t1, t2, t3));
    vals.push(avg3(lt, l0, l1));
    vals.push(avg2(lt, t0));
    vals.push(avg2(t0, t1));
    vals.push(avg2(t1, t2));
    vals.push(avg3(l0, l1, l2));
    vals.push(avg3(l0, lt, t0));
    vals.push(avg3(lt, t0, t1));
    vals.push(avg3(t0, t1, t2));
    assert(vals@ == vertical_right4(b, o as int, stride as int));
    write_block(buf, o, stride, 4, &vals);
}

/// `VERT_LEFT_PRED`.
pub fn pred4x4_vertical_left(buf: &mut [u8], o: usize, stride: usize, tr: &[u8; 4])
    requires
        block_fits(old(buf).len() as int, o as int, stride as int, 4),
        stride <= o,
    ensures
        block_written(
            final(buf)@,
            old(buf)@,
            o as int,
            stride as int,
            4,
            |x: int, y: int| vertical_left4(old(buf)@, o as int, stride as int, tr@)[cell(4, x, y)],
        ),
{
    let ghost b = buf@;
    let t0 = top(buf, o, stride, 0);
    let t1 = top(buf, o, stride, 1);
    let t2 = top(buf, o, stride, 2);
    let t3 = top(buf, o, stride, 3);
    let t4 = tr[0] as u32;
    let t5 = tr[1] as u32;
    let t6 = tr[2] as u32;
    let t7 = tr[3] as u32;
    let mut vals: Vec<u8> = Vec::new();
    vals.push(avg2(t0, t1));
    vals.push(avg2(t1, t2));
    vals.push(avg2(t2, t3));
    vals.push(avg2(t3, t4));
    vals.push(avg3(t0, t1, t2));
    vals.push(avg3(t1, t2, t3));
    vals.push(avg3(t2, t3, t4));
    vals.push(avg3(t3, t4, t5));
    vals.push(avg2(t1, t2));
    vals.push(avg2(t2, t3));
    vals.push(avg2(t3, t4));
    vals.push(avg3(t4, t5, t6));
    vals.push(avg3(t1, t2, t3));
    vals.push(avg3(t2, t3, t4));
    vals.push(avg3(t3, t4, t5));
    vals.push(avg3(t5, t6, t7));
    assert(vals@ == vertical_left4(b, o as int, stride as int, tr@));
    write_block(buf, o, stride, 4, &vals);
}

/// `HOR_UP_PRED`.
pub fn pred4x4_horizontal_up(buf: &mut [u8], o: usize, stride: usize)
    requires
        block_fits(old(buf).len() as int, o as int, stride as int, 4),
        1 <= o,
    ensures
        block_written(
            final(buf)@,
            old(buf)@,
            o as int,
            stride as int,
            4,
            |x: int, y: int| horizontal_up4(old(buf)@, o as int, stride as int)[cell(4, x, y)],
        ),
{
    let ghost b = buf@;
    proof {
        lemma_row_bound(o as int, stride as int, 3, 4);
    }
    let l0 = left(buf, o, stride, 0);
    let l1 = left(buf, o, stride, 1);
    let l2 = left(buf, o, stride, 2);
    let l3 = left(buf, o, stride, 3);
    let e = l3 as u8;
    let mut vals: Vec<u8> = Vec::new();
    vals.push(avg2(l0, l1));
    vals.push(avg3(l0, l1, l2));
    vals.push(avg2(l1, l2));
    vals.push(avg3(l1, l2, l3));
    vals.push(avg2(l1, l2));
    vals.push(avg3(l1, l2, l3));
    vals.push(avg2(l2, l3));
    vals.push(avg3(l2, l3, l3));
    vals.push(avg2(l2, l3));
    vals.push(avg3(l2, l3, l3));
    vals.push(e);
    vals.push(e);
    vals.push(e);
    vals.push(e);
    vals.push(e);
    vals.push(e);
    assert(vals@ == horizontal_up4(b, o as int, stride as int));
    write_block(buf, o, stride, 4, &vals);
}

/// `HOR_DOWN_PRED`.
pub fn pred4x4_horizontal_down(buf: &mut [u8], o: usize, stride: usize)
    requires
        block_fits(old(buf).len() as int, o as int, stride as int, 4),
        stride + 1 <= o,
    ensures
        block_written(
            final(buf)@,
            old(buf)@,
            o as int,
            stride as int,
            4,
            |x: int, y: int| horizontal_down4(old(buf)@, o as int, stride as int)[cell(4, x, y)],
        ),
{
    let ghost b = buf@;
    proof {
        lemma_row_bound(o as int, stride as int, 3, 4);
    }
    let lt = corner(buf, o, stride);
    let t0 = top(buf, o, stride, 0);
    let t1 = top(buf, o, stride, 1);
    let t2 = top(buf, o, stride, 2);
    let l0 = left(buf, o, stride, 0);
    let l1 = left(buf, o, stride, 1);
    let l2 = left(buf, o, stride, 2);
    let l3 = left(buf, o, stride, 3);
    let mut vals: Vec<u8> = Vec::new();
    vals.push(avg2(lt, l0));
    vals.push(avg3(l0, lt, t0));
    vals.push(avg3(lt, t0, t1));
    vals.push(avg3(t0, t1, t2));
    vals.push(avg2(l0, l1));
    vals.push(avg3(lt, l0, l1));
    vals.push(avg2(lt, l0));
    vals.push(avg3(l0, lt, t0));
    vals.push(avg2(l1, l2));
    vals.push(avg3(l0, l1, l2));
    vals.push(avg2(l0, l1));
    vals.push(avg3(lt, l0, l1));
    vals.push(avg2(l2, l3));
    vals.push(avg3(l1, l2, l3));
    vals.push(avg2(l1, l2));
    vals.push(avg3(l0, l1, l2));
    assert(vals@ == horizontal_down4(b, o as int, stride as int));
    write_block(buf, o, stride, 4, &vals);
}


/// `TM_VP8_PRED`, the TrueMotion predictor, at any block size.
pub fn pred_tm<const N: usize>(buf: &mut [u8], o: usize, stride: usize)
    requires
        block_fits(old(buf).len() as int, o as int, stride as int, N as int),
        stride > N,
        stride + 1 <= o,
    ensures
        block_written(
            final(buf)@,
            old(buf)@,
            o as int,
            stride as int,
            N as int,
            |x: int, y: int| tm_at(old(buf)@, o as int, stride as int, x, y),
        ),
{
    let gb: Ghost<Seq<u8>> = Ghost(buf@);
    let ghost b = gb@;
    proof {
        lemma_fits_square(buf.len() as int, o as int, stride as int, N as int);
    }
    let lt = corner(buf, o, stride);
    let t = read_top(buf, o, stride, N);
    let l = read_left(buf, o, stride, N);
    let f = |x: usize, y: usize| -> (r: u8)
        requires
            x < N,
            y < N,
        ensures
            r == tm_at(gb@, o as int, stride as int, x as int, y as int),
        { clip_uint8(l[y] as i32 + t[x] as i32 - lt as i32) };
    let vals = build_grid(N, &f);
    write_block(buf, o, stride, N, &vals);
    proof {
        lemma_written_same(
            buf@,
            b,
            o as int,
            stride as int,
            N as int,
            |x: int, y: int| vals@[cell(N as int, x, y)],
            |x: int, y: int| tm_at(b, o as int, stride as int, x, y),
        );
    }
}

/// `VERT_PRED8x8`, a plain copy of the row above.
pub fn pred_vertical<const N: usize>(buf: &mut [u8], o: usize, stride: usize)
    requires
        block_fits(old(buf).len() as int, o as int, stride as int, N as int),
        stride <= o,
    ensures
        block_written(
            final(buf)@,
            old(buf)@,
            o as int,
            stride as int,
            N as int,
            |x: int, y: int| old(buf)@[o - stride + x],
        ),
{
    let gb: Ghost<Seq<u8>> = Ghost(buf@);
    let ghost b = gb@;
    proof {
        lemma_fits_square(buf.len() as int, o as int, stride as int, N as int);
    }
    let t = read_top(buf, o, stride, N);
    let f = |x: usize, y: usize| -> (r: u8)
        requires
            x < N,
        ensures
            r == gb@[o - stride + x],
        { t[x] as u8 };
    let vals = build_grid(N, &f);
    write_block(buf, o, stride, N, &vals);
    proof {
        lemma_written_same(
            buf@,
            b,
            o as int,
            stride as int,
            N as int,
            |x: int, y: int| vals@[cell(N as int, x, y)],
            |x: int, y: int| b[o - stride + x],
        );
    }
}

/// `HOR_PRED8x8`, each row filled from its own left neighbour.
pub fn pred_horizontal<const N: usize>(buf: &mut [u8], o: usize, stride: usize)
    requires
        block_fits(old(buf).len() as int, o as int, stride as int, N as int),
        stride > N,
        1 <= o,
    ensures
        block_written(
            final(buf)@,
            old(buf)@,
            o as int,
            stride as int,
            N as int,
            |x: int, y: int| old(buf)@[o + y * stride - 1],
        ),
{
    let gb: Ghost<Seq<u8>> = Ghost(buf@);
    let ghost b = gb@;
    proof {
        lemma_fits_square(buf.len() as int, o as int, stride as int, N as int);
    }
    let l = read_left(buf, o, stride, N);
    let f = |x: usize, y: usize| -> (r: u8)
        requires
            y < N,
        ensures
            r == gb@[o + y * stride - 1],
        { l[y] as u8 };
    let vals = build_grid(N, &f);
    write_block(buf, o, stride, N, &vals);
    proof {
        lemma_written_same(
            buf@,
            b,
            o as int,
            stride as int,
            N as int,
            |x: int, y: int| vals@[cell(N as int, x, y)],
            |x: int, y: int| b[o + y * stride - 1],
        );
    }
}

/// The sum of the first `n` samples above the block, and of the first `n`
/// to its left, as each is asked for.
fn edge_sums(buf: &[u8], o: usize, stride: usize, n: usize, with_top: bool, with_left: bool) -> (r: u64)
    requires
        block_fits(buf.len() as int, o as int, stride as int, n as int),
        with_top ==> stride <= o,
        with_left ==> 1 <= o,
    ensures
        r == (if with_top { top_sum(buf@, o as int, stride as int, n as int) } else { 0 }) + (if with_left {
            left_sum(buf@, o as int, stride as int, n as int)
        } else {
            0
        }),
        r <= 510 * n,
{
    proof {
        lemma_fits_square(buf.len() as int, o as int, stride as int, n as int);
        lemma_small_side(n as int);
    }
    let mut sum: u64 = 0;
    let mut i: usize = 0;
    while i < n
        invariant
            block_fits(buf.len() as int, o as int, stride as int, n as int),
            with_top ==> stride <= o,
            with_left ==> 1 <= o,
            n <= 0x1_0000_0000,
            i <= n,
            sum == (if with_top { top_sum(buf@, o as int, stride as int, i as int) } else { 0 }) + (if with_left {
                left_sum(buf@, o as int, stride as int, i as int)
            } else {
                0
            }),
            sum <= 510 * i,
        decreases n - i,
    {
        proof {
            lemma_row_bound(o as int, stride as int, i as int, n as int);
        }
        if with_top {
            sum = sum + top(buf, o, stride, i) as u64;
        }
        if with_left {
            sum = sum + left(buf, o, stride, i) as u64;
        }
        i = i + 1;
    }
    sum
}

/// `DC_PRED8x8`, over both edges.
pub fn pred_dc<const N: usize>(buf: &mut [u8], o: usize, stride: usize)
    requires
        block_fits(old(buf).len() as int, o as int, stride as int, N as int),
        stride <= o,
        1 <= o,
    ensures
        block_written(
            final(buf)@,
            old(buf)@,
            o as int,
            stride as int,
            N as int,
            |x: int, y: int| dc_value(old(buf)@, o as int, stride as int, N as int),
        ),
{
    let ghost b = buf@;
    proof {
        lemma_fits_square(buf.len() as int, o as int, stride as int, N as int);
        lemma_small_side(N as int);
    }
    let dc = N as u64 + edge_sums(buf, o, stride, N, true, true);
    let div: u64 = if N == 8 {
        16
    } else {
        32
    };
    let v = (dc / div) as u8;
    fill(buf, o, stride, N, v);
    proof {
        lemma_written_same(
            buf@,
            b,
            o as int,
            stride as int,
            N as int,
            |x: int, y: int| v,
            |x: int, y: int| dc_value(b, o as int, stride as int, N as int),
        );
    }
}

/// `LEFT_DC_PRED8x8`, for blocks with no row above.
pub fn pred_left_dc<const N: usize>(buf: &mut [u8], o: usize, stride: usize)
    requires
        block_fits(old(buf).len() as int, o as int, stride as int, N as int),
        1 <= o,
    ensures
        block_written(
            final(buf)@,
            old(buf)@,
            o as int,
            stride as int,
            N as int,
            |x: int, y: int| left_dc_value(old(buf)@, o as int, stride as int, N as int),
        ),
{
    let ghost b = buf@;
    proof {
        lemma_fits_square(buf.len() as int, o as int, stride as int, N as int);
        lemma_small_side(N as int);
    }
    let dc = N as u64 / 2 + edge_sums(buf, o, stride, N, false, true);
    let v = (dc / N as u64) as u8;
    fill(buf, o, stride, N, v);
    proof {
        lemma_written_same(
            buf@,
            b,
            o as int,
            stride as int,
            N as int,
            |x: int, y: int| v,
            |x: int, y: int| left_dc_value(b, o as int, stride as int, N as int),
        );
    }
}

/// `TOP_DC_PRED8x8`, for blocks with no column to the left.
pub fn pred_top_dc<const N: usize>(buf: &mut [u8], o: usize, stride: usize)
    requires
        block_fits(old(buf).len() as int, o as int, stride as int, N as int),
        stride <= o,
    ensures
        block_written(
            final(buf)@,
            old(buf)@,
            o as int,
            stride as int,
            N as int,
            |x: int, y: int| top_dc_value(old(buf)@, o as int, stride as int, N as int),
        ),
{
    let ghost b = buf@;
    proof {
        lemma_fits_square(buf.len() as int, o as int, stride as int, N as int);
        lemma_small_side(N as int);
    }
    let dc = N as u64 / 2 + edge_sums(buf, o, stride, N, true, false);
    let v = (dc / N as u64) as u8;
    fill(buf, o, stride, N, v);
    proof {
        lemma_written_same(
            buf@,
            b,
            o as int,
            stride as int,
            N as int,
            |x: int, y: int| v,
            |x: int, y: int| top_dc_value(b, o as int, stride as int, N as int),
        );
    }
}

/// `DC_128_PRED8x8`, for blocks with neither neighbour.
pub fn pred_dc128<const N: usize>(buf: &mut [u8], o: usize, stride: usize)
    requires
        block_fits(old(buf).len() as int, o as int, stride as int, N as int),
    ensures
        block_written(final(buf)@, old(buf)@, o as int, stride as int, N as int, |x: int, y: int| 128u8),
{
    fill(buf, o, stride, N, 128);
}

} // verus!
