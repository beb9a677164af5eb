//! Scalar kernels for the lossy (VP8) DSP: the inverse transforms and the
//! loop filter.
//!
//! Every kernel takes the exact region it touches as one slice, so the caller
//! does the address arithmetic. The filters are given the slice starting at
//! their lowest sample rather than at the edge.
//!
//! `stridea` steps from one filtered position to the next along the edge;
//! `strideb` steps from one sample to the next across it. A vertical edge
//! filter has `stridea = 1` and `strideb = stride`, and a horizontal one has
//! them the other way round.
//!
//! The contracts describe each kernel as the sequence of stores it makes, one
//! position (or one sample) after another, so they hold however the positions
//! of a call lie relative to each other.

use vstd::prelude::*;

verus! {

/// `v` clamped to a byte.
pub open spec fn clip_u8(v: int) -> int {
    if v < 0 {
        0
    } else if v > 255 {
        255
    } else {
        v
    }
}

/// `v` clamped to a signed byte.
pub open spec fn clip_i8(v: int) -> int {
    clip_u8(v + 128) - 128
}

pub open spec fn iabs(v: int) -> int {
    if v < 0 {
        -v
    } else {
        v
    }
}

pub open spec fn min127(v: int) -> int {
    if v < 127 {
        v
    } else {
        127
    }
}

/// The eight samples `p3 p2 p1 p0 q0 q1 q2 q3` across an edge, from `q` on in
/// steps of `s`.
pub open spec fn window(b: Seq<u8>, q: int, s: int) -> Seq<i32> {
    Seq::new(8, |k: int| b[q + k * s] as i32)
}

/// Whether the edge between `p0` and `q0` is within the simple filter's limit.
pub open spec fn simple_limit_holds(p1: int, p0: int, q0: int, q1: int, flim: int) -> bool {
    2 * iabs(p0 - q0) + iabs(p1 - q1) / 2 <= flim
}

/// Whether the normal filter applies: the edge within `e`, and each step on
/// either side within `i`.
pub open spec fn normal_limit_holds(w: Seq<i32>, e: int, i: int) -> bool {
    &&& simple_limit_holds(w[2] as int, w[3] as int, w[4] as int, w[5] as int, e)
    &&& iabs(w[0] - w[1]) <= i
    &&& iabs(w[1] - w[2]) <= i
    &&& iabs(w[2] - w[3]) <= i
    &&& iabs(w[7] - w[6]) <= i
    &&& iabs(w[6] - w[5]) <= i
    &&& iabs(w[5] - w[4]) <= i
}

/// High edge variance: a step next to the edge above the threshold.
pub open spec fn high_edge_variance(w: Seq<i32>, thresh: int) -> bool {
    iabs(w[2] - w[3]) > thresh || iabs(w[5] - w[4]) > thresh
}

/// The common filter over `p1 p0 q0 q1` at `p1i + k * s`: it moves `p0` and
/// `q0` towards each other, and `p1` and `q1` too unless it is the 4-tap form.
pub open spec fn common_filtered(b: Seq<u8>, p1i: int, s: int, p1: int, p0: int, q0: int, q1: int, is4tap: bool) -> Seq<u8> {
    let a = clip_i8(3 * (q0 - p0) + if is4tap { clip_i8(p1 - q1) } else { 0 });
    let f1 = min127(a + 4) / 8;
    let f2 = min127(a + 3) / 8;
    let b1 = b.update(p1i + s, clip_u8(p0 + f2) as u8).update(p1i + 2 * s, clip_u8(q0 - f1) as u8);
    if is4tap {
        b1
    } else {
        let a2 = (f1 + 1) / 2;
        b1.update(p1i, clip_u8(p1 + a2) as u8).update(p1i + 3 * s, clip_u8(q1 - a2) as u8)
    }
}

/// The macroblock-edge filter, which spreads the correction over `p2 .. q2` at
/// `p2i + k * s`.
pub open spec fn mbedge_filtered(b: Seq<u8>, p2i: int, s: int, w: Seq<i32>) -> Seq<u8> {
    let a = clip_i8(clip_i8(w[2] - w[5]) + 3 * (w[4] - w[3]));
    let a0 = (27 * a + 63) / 128;
    let a1 = (18 * a + 63) / 128;
    let a2 = (9 * a + 63) / 128;
    b.update(p2i, clip_u8(w[1] + a2) as u8)
        .update(p2i + s, clip_u8(w[2] + a1) as u8)
        .update(p2i + 2 * s, clip_u8(w[3] + a0) as u8)
        .update(p2i + 3 * s, clip_u8(w[4] - a0) as u8)
        .update(p2i + 4 * s, clip_u8(w[5] - a1) as u8)
        .update(p2i + 5 * s, clip_u8(w[6] - a2) as u8)
}

/// The normal filter at one position, whose window starts at `q`.
#[verifier::opaque]
pub open spec fn edge_filtered(b: Seq<u8>, q: int, s: int, e: int, i: int, thresh: int, inner: bool) -> Seq<u8> {
    let w = window(b, q, s);
    if !normal_limit_holds(w, e, i) {
        b
    } else if high_edge_variance(w, thresh) || inner {
        common_filtered(
            b,
            q + 2 * s,
            s,
            w[2] as int,
            w[3] as int,
            w[4] as int,
            w[5] as int,
            high_edge_variance(w, thresh),
        )
    } else {
        mbedge_filtered(b, q + s, s, w)
    }
}

/// The normal filter applied at the first `n` positions, `sa` apart, in order.
pub open spec fn loop_filtered(
    b: Seq<u8>,
    n: int,
    sa: int,
    sb: int,
    e: int,
    i: int,
    thresh: int,
    inner: bool,
) -> Seq<u8>
    decreases n,
{
    if n <= 0 {
        b
    } else {
        edge_filtered(loop_filtered(b, n - 1, sa, sb, e, i, thresh, inner), (n - 1) * sa, sb, e, i, thresh, inner)
    }
}

/// Where the samples next to an edge vary too much, the normal filter is
/// the 4-tap common filter whether or not the edge is a macroblock edge: of
/// the eight samples `p3 .. q3` it moves only `p0` and `q0`, by
/// `(a + 3) >> 3` and `(a + 4) >> 3` with `a = 3 (q0 - p0) + (p1 - q1)`, each
/// step clamped; every other sample of the buffer is left alone.
pub proof fn law_high_edge_variance_moves_only_p0_and_q0(
    b: Seq<u8>,
    q: int,
    s: int,
    e: int,
    i: int,
    thresh: int,
    inner: bool,
)
    requires
        0 <= q,
        s >= 1,
        q + 7 * s < b.len(),
        normal_limit_holds(window(b, q, s), e, i),
        high_edge_variance(window(b, q, s), thresh),
    ensures
        ({
            let r = edge_filtered(b, q, s, e, i, thresh, inner);
            let p1 = b[q + 2 * s] as int;
            let p0 = b[q + 3 * s] as int;
            let q0 = b[q + 4 * s] as int;
            let q1 = b[q + 5 * s] as int;
            let a = clip_i8(3 * (q0 - p0) + clip_i8(p1 - q1));
            &&& r.len() == b.len()
            &&& forall|k: int| 0 <= k < b.len() && k != q + 3 * s && k != q + 4 * s ==> #[trigger] r[k] == b[k]
            &&& r[q + 3 * s] == clip_u8(p0 + min127(a + 3) / 8)
            &&& r[q + 4 * s] == clip_u8(q0 - min127(a + 4) / 8)
        }),
{
    reveal(edge_filtered);
}

/// Which samples the normal filter may move, by the kind of position: none
/// where the edge is outside the limits; only `p0` and `q0` where the
/// samples next to it vary too much; `p1 .. q1` at an inner edge; and
/// `p2 .. q2` at a macroblock edge. The samples `p3` and `q3`, and everything
/// outside the window, are never moved.
pub proof fn law_what_the_normal_filter_may_move(b: Seq<u8>, q: int, s: int, e: int, i: int, thresh: int, inner: bool)
    requires
        0 <= q,
        s >= 1,
        q + 7 * s < b.len(),
    ensures
        ({
            let w = window(b, q, s);
            let r = edge_filtered(b, q, s, e, i, thresh, inner);
            &&& r.len() == b.len()
            &&& !normal_limit_holds(w, e, i) ==> r == b
            &&& forall|k: int| 0 <= k < b.len() && (k < q + s || k > q + 6 * s || (k - q) % s != 0) ==> #[trigger] r[k] == b[k]
            &&& normal_limit_holds(w, e, i) && !high_edge_variance(w, thresh) && inner ==> forall|k: int|
                0 <= k < b.len() && k != q + 2 * s && k != q + 3 * s && k != q + 4 * s && k != q + 5 * s ==> #[trigger] r[k] == b[k]
        }),
{
    reveal(edge_filtered);
    let w = window(b, q, s);
    let r = edge_filtered(b, q, s, e, i, thresh, inner);
    assert forall|k: int| 0 <= k < b.len() && (k < q + s || k > q + 6 * s || (k - q) % s != 0) implies #[trigger] r[k] == b[k] by {
        if k == q + s || k == q + 2 * s || k == q + 3 * s || k == q + 4 * s || k == q + 5 * s || k == q + 6 * s {
            assert((k - q) % s == 0) by (nonlinear_arith)
                requires
                    k == q + s || k == q + 2 * s || k == q + 3 * s || k == q + 4 * s || k == q + 5 * s || k == q + 6 * s,
                    s >= 1,
            ;
        }
    }
}

/// The simple filter at one position, whose four samples start at `q`.
#[verifier::opaque]
pub open spec fn simple_filtered(b: Seq<u8>, q: int, s: int, flim: int) -> Seq<u8> {
    let w = window(b, q, s);
    if simple_limit_holds(w[0] as int, w[1] as int, w[2] as int, w[3] as int, flim) {
        common_filtered(b, q, s, w[0] as int, w[1] as int, w[2] as int, w[3] as int, true)
    } else {
        b
    }
}

/// The simple filter applied at the first `n` positions, `sa` apart, in order.
pub open spec fn simple_loop_filtered(b: Seq<u8>, n: int, sa: int, sb: int, flim: int) -> Seq<u8>
    decreases n,
{
    if n <= 0 {
        b
    } else {
        simple_filtered(simple_loop_filtered(b, n - 1, sa, sb, flim), (n - 1) * sa, sb, flim)
    }
}

/// The step between filtered positions.
pub open spec fn along(vert: bool, stride: int) -> int {
    if vert {
        1
    } else {
        stride
    }
}

/// The step between the samples of one position.
pub open spec fn across(vert: bool, stride: int) -> int {
    if vert {
        stride
    } else {
        1
    }
}

fn floor_div(x: i32, d: i32) -> (r: i32)
    requires
        0 < d <= 0x10000,
        -0x7fff_0000 <= x <= 0x7fff_0000,
    ensures
        r as int == x as int / d as int,
{
    if x >= 0 {
        x / d
    } else {
        let n = (d - 1) - x;
        let q = n / d;
        proof {
            vstd::arithmetic::div_mod::lemma_fundamental_div_mod(n as int, d as int);
            let r = (n as int) % (d as int);
            assert((-(q as int)) * (d as int) == -((d as int) * (q as int))) by (nonlinear_arith);
            vstd::arithmetic::div_mod::lemma_fundamental_div_mod_converse(
                x as int,
                d as int,
                -(q as int),
                d - 1 - r,
            );
        }
        -q
    }
}

fn clip_uint8(v: i32) -> (r: u8)
    ensures
        r as int == clip_u8(v as int),
{
    if v < 0 {
        0
    } else if v > 255 {
        255
    } else {
        v as u8
    }
}

fn clip_int8(v: i32) -> (r: i32)
    requires
        v <= 0x7fff_0000,
    ensures
        r as int == clip_i8(v as int),
        -128 <= r <= 127,
{
    clip_uint8(v + 0x80) as i32 - 0x80
}

fn abs(v: i32) -> (r: i32)
    requires
        v > i32::MIN,
    ensures
        r as int == iabs(v as int),
{
    if v < 0 {
        -v
    } else {
        v
    }
}

pub(crate) fn strides<const VERT: bool>(stride: usize) -> (r: (usize, usize))
    ensures
        r.0 as int == along(VERT, stride as int),
        r.1 as int == across(VERT, stride as int),
{
    if VERT {
        (1, stride)
    } else {
        (stride, 1)
    }
}

fn load8(buf: &[u8], q: usize, s: usize) -> (w: [i32; 8])
    requires
        q + 7 * s < buf.len(),
    ensures
        w@ == window(buf@, q as int, s as int),
        forall|k: int| 0 <= k < 8 ==> 0 <= #[trigger] w@[k] <= 255,
{
    let mut w = [0i32; 8];
    let mut k: usize = 0;
    while k < 8
        invariant
            q + 7 * s < buf.len(),
            k <= 8,
            forall|m: int| 0 <= m < k ==> #[trigger] w@[m] == buf@[q + m * s] as i32,
            forall|m: int| 0 <= m < 8 ==> 0 <= #[trigger] w@[m] <= 255,
        decreases 8 - k,
    {
        proof {
            assert(k * s <= 7 * s) by (nonlinear_arith)
                requires
                    k <= 7,
            ;
        }
        w[k] = buf[q + k * s] as i32;
        k = k + 1;
    }
    assert(w@ =~= window(buf@, q as int, s as int));
    w
}

fn load4(buf: &[u8], q: usize, s: usize) -> (w: [i32; 4])
    requires
        q + 3 * s < buf.len(),
    ensures
        forall|k: int| 0 <= k < 4 ==> #[trigger] w@[k] == window(buf@, q as int, s as int)[k],
        forall|k: int| 0 <= k < 4 ==> 0 <= #[trigger] w@[k] <= 255,
{
    let mut w = [0i32; 4];
    let mut k: usize = 0;
    while k < 4
        invariant
            q + 3 * s < buf.len(),
            k <= 4,
            forall|m: int| 0 <= m < k ==> #[trigger] w@[m] == window(buf@, q as int, s as int)[m],
            forall|m: int| 0 <= m < 4 ==> 0 <= #[trigger] w@[m] <= 255,
        decreases 4 - k,
    {
        proof {
            assert(k * s <= 3 * s) by (nonlinear_arith)
                requires
                    k <= 3,
            ;
        }
        w[k] = buf[q + k * s] as i32;
        k = k + 1;
    }
    w
}

fn simple_limit(w: [i32; 4], flim: i32) -> (r: bool)
    requires
        forall|k: int| 0 <= k < 4 ==> 0 <= #[trigger] w@[k] <= 255,
    ensures
        r == simple_limit_holds(w@[0] as int, w@[1] as int, w@[2] as int, w@[3] as int, flim as int),
{
    2 * abs(w[1] - w[2]) + (abs(w[0] - w[3]) / 2) <= flim
}

fn normal_limit(w: &[i32; 8], e: i32, i: i32) -> (r: bool)
    requires
        forall|k: int| 0 <= k < 8 ==> 0 <= #[trigger] w@[k] <= 255,
    ensures
        r == normal_limit_holds(w@, e as int, i as int),
{
    simple_limit([w[2], w[3], w[4], w[5]], e) && abs(w[0] - w[1]) <= i && abs(w[1] - w[2]) <= i && abs(w[2] - w[3])
        <= i && abs(w[7] - w[6]) <= i && abs(w[6] - w[5]) <= i && abs(w[5] - w[4]) <= i
}

fn hev(w: &[i32; 8], thresh: i32) -> (r: bool)
    requires
        forall|k: int| 0 <= k < 8 ==> 0 <= #[trigger] w@[k] <= 255,
    ensures
        r == high_edge_variance(w@, thresh as int),
{
    abs(w[2] - w[3]) > thresh || abs(w[5] - w[4]) > thresh
}

/// The 4-tap and 6-tap common filter, over `p1 p0 q0 q1` at `p1i + k * s`.
fn filter_common(buf: &mut [u8], w: [i32; 4], p1i: usize, s: usize, is4tap: bool)
    requires
        p1i + 3 * s < old(buf).len(),
        forall|k: int| 0 <= k < 4 ==> 0 <= #[trigger] w@[k] <= 255,
    ensures
        final(buf)@ == common_filtered(
            old(buf)@,
            p1i as int,
            s as int,
            w@[0] as int,
            w@[1] as int,
            w@[2] as int,
            w@[3] as int,
            is4tap,
        ),
{
    let mut a = 3 * (w[2] - w[1]);
    if is4tap {
        a = a + clip_int8(w[0] - w[3]);
    }
    a = clip_int8(a);
    let f1 = floor_div(if a + 4 < 127 { a + 4 } else { 127 }, 8);
    let f2 = floor_div(if a + 3 < 127 { a + 3 } else { 127 }, 8);
    buf[p1i + s] = clip_uint8(w[1] + f2);
    buf[p1i + 2 * s] = clip_uint8(w[2] - f1);
    if !is4tap {
        let a2 = floor_div(f1 + 1, 2);
        buf[p1i] = clip_uint8(w[0] + a2);
        buf[p1i + 3 * s] = clip_uint8(w[3] - a2);
    }
}

/// The macroblock-edge filter, which widens to `p2 .. q2` at `p2i + k * s`.
fn filter_mbedge(buf: &mut [u8], w: &[i32; 8], p2i: usize, s: usize)
    requires
        p2i + 5 * s < old(buf).len(),
        forall|k: int| 0 <= k < 8 ==> 0 <= #[trigger] w@[k] <= 255,
    ensures
        final(buf)@ == mbedge_filtered(old(buf)@, p2i as int, s as int, w@),
{
    let a = clip_int8(w[2] - w[5]);
    let a = clip_int8(a + 3 * (w[4] - w[3]));
    let a0 = floor_div(27 * a + 63, 128);
    let a1 = floor_div(18 * a + 63, 128);
    let a2 = floor_div(9 * a + 63, 128);
    buf[p2i] = clip_uint8(w[1] + a2);
    buf[p2i + s] = clip_uint8(w[2] + a1);
    buf[p2i + 2 * s] = clip_uint8(w[3] + a0);
    buf[p2i + 3 * s] = clip_uint8(w[4] - a0);
    buf[p2i + 4 * s] = clip_uint8(w[5] - a1);
    buf[p2i + 5 * s] = clip_uint8(w[6] - a2);
}

proof fn lemma_position_fits(j: int, n: int, sa: int, sb: int, len: int)
    requires
        0 <= j < n,
        sa >= 0,
        sb >= 0,
        (n - 1) * sa + 7 * sb < len,
    ensures
        j * sa + 7 * sb < len,
        j * sa >= 0,
{
    assert(j * sa <= (n - 1) * sa && j * sa >= 0) by (nonlinear_arith)
        requires
            0 <= j <= n - 1,
            sa >= 0,
    ;
}

/// The normal filter at the position whose window starts at `p3i`.
fn filter_position<const INNER: bool>(buf: &mut [u8], p3i: usize, sb: usize, flim_e: i32, flim_i: i32, hev_thresh: i32)
    requires
        p3i + 7 * sb < old(buf).len(),
    ensures
        final(buf)@.len() == old(buf)@.len(),
        final(buf)@ == edge_filtered(old(buf)@, p3i as int, sb as int, flim_e as int, flim_i as int, hev_thresh as int, INNER),
{
    reveal(edge_filtered);
    let w = load8(buf, p3i, sb);
    if normal_limit(&w, flim_e, flim_i) {
        let is4tap = hev(&w, hev_thresh);
        if is4tap || INNER {
            filter_common(buf, [w[2], w[3], w[4], w[5]], p3i + 2 * sb, sb, is4tap);
        } else {
            filter_mbedge(buf, &w, p3i + sb, sb);
        }
    }
}

/// The normal loop filter over `SIZE` positions along an edge.
///
/// `buf` starts at the fourth sample before the edge and must reach the fourth
/// after it at the last position. `INNER` selects the subblock filter, which
/// never widens to the macroblock taps.
pub fn loop_filter<const SIZE: usize, const VERT: bool, const INNER: bool>(
    buf: &mut [u8],
    stride: usize,
    flim_e: i32,
    flim_i: i32,
    hev_thresh: i32,
)
    requires
        SIZE >= 1 ==> (SIZE - 1) * along(VERT, stride as int) + 7 * across(VERT, stride as int) < old(buf).len(),
    ensures
        final(buf)@ == loop_filtered(
            old(buf)@,
            SIZE as int,
            along(VERT, stride as int),
            across(VERT, stride as int),
            flim_e as int,
            flim_i as int,
            hev_thresh as int,
            INNER,
        ),
{
    let (sa, sb) = strides::<VERT>(stride);
    let mut j: usize = 0;
    while j < SIZE
        invariant
            sa as int == along(VERT, stride as int),
            sb as int == across(VERT, stride as int),
            SIZE >= 1 ==> (SIZE - 1) * sa + 7 * sb < old(buf).len(),
            buf.len() == old(buf).len(),
            j <= SIZE,
            buf@ == loop_filtered(old(buf)@, j as int, sa as int, sb as int, flim_e as int, flim_i as int, hev_thresh as int, INNER),
        decreases SIZE - j,
    {
        proof {
            lemma_position_fits(j as int, SIZE as int, sa as int, sb as int, buf.len() as int);
        }
        filter_position::<INNER>(buf, j * sa, sb, flim_e, flim_i, hev_thresh);
        j = j + 1;
    }
}

/// The normal filter applied at `n` positions `sa` apart, the first window
/// starting at `start`, in order.
pub open spec fn loop_filtered_at(
    b: Seq<u8>,
    start: int,
    n: int,
    sa: int,
    sb: int,
    e: int,
    i: int,
    thresh: int,
    inner: bool,
) -> Seq<u8>
    decreases n,
{
    if n <= 0 {
        b
    } else {
        edge_filtered(loop_filtered_at(b, start, n - 1, sa, sb, e, i, thresh, inner), start + (n - 1) * sa, sb, e, i, thresh, inner)
    }
}

/// The normal loop filter over `SIZE` positions along an edge of a plane,
/// the first position's window starting at `start` (the fourth sample before
/// the edge).
pub fn loop_filter_at<const SIZE: usize, const VERT: bool, const INNER: bool>(
    buf: &mut [u8],
    start: usize,
    stride: usize,
    flim_e: i32,
    flim_i: i32,
    hev_thresh: i32,
)
    requires
        SIZE >= 1 ==> start + (SIZE - 1) * along(VERT, stride as int) + 7 * across(VERT, stride as int) < old(buf).len(),
    ensures
        final(buf)@ == loop_filtered_at(
            old(buf)@,
            start as int,
            SIZE as int,
            along(VERT, stride as int),
            across(VERT, stride as int),
            flim_e as int,
            flim_i as int,
            hev_thresh as int,
            INNER,
        ),
        final(buf)@.len() == old(buf)@.len(),
{
    let (sa, sb) = strides::<VERT>(stride);
    let mut j: usize = 0;
    while j < SIZE
        invariant
            sa as int == along(VERT, stride as int),
            sb as int == across(VERT, stride as int),
            SIZE >= 1 ==> start + (SIZE - 1) * sa + 7 * sb < old(buf).len(),
            buf.len() == old(buf).len(),
            j <= SIZE,
            buf@ == loop_filtered_at(old(buf)@, start as int, j as int, sa as int, sb as int, flim_e as int, flim_i as int, hev_thresh as int, INNER),
        decreases SIZE - j,
    {
        proof {
            lemma_position_fits(j as int, SIZE as int, sa as int, sb as int, buf.len() - start);
        }
        filter_position::<INNER>(buf, start + j * sa, sb, flim_e, flim_i, hev_thresh);
        j = j + 1;
    }
}

/// The simple loop filter, which reads and writes only the two samples either
/// side of the edge, at 16 positions.
///
/// `buf` starts at the second sample before the edge.
pub fn loop_filter_simple<const VERT: bool>(buf: &mut [u8], stride: usize, flim: i32)
    requires
        15 * along(VERT, stride as int) + 3 * across(VERT, stride as int) < old(buf).len(),
    ensures
        final(buf)@ == simple_loop_filtered(
            old(buf)@,
            16,
            along(VERT, stride as int),
            across(VERT, stride as int),
            flim as int,
        ),
{
    let (sa, sb) = strides::<VERT>(stride);
    let mut j: usize = 0;
    while j < 16
        invariant
            sa as int == along(VERT, stride as int),
            sb as int == across(VERT, stride as int),
            15 * sa + 3 * sb < old(buf).len(),
            buf.len() == old(buf).len(),
            j <= 16,
            buf@ == simple_loop_filtered(old(buf)@, j as int, sa as int, sb as int, flim as int),
        decreases 16 - j,
    {
        proof {
            assert(j * sa <= 15 * sa) by (nonlinear_arith)
                requires
                    j <= 15,
            ;
        }
        let p1i = j * sa;
        let w = load4(buf, p1i, sb);
        proof {
            reveal(simple_filtered);
        }
        if simple_limit(w, flim) {
            filter_common(buf, w, p1i, sb, true);
        }
        j = j + 1;
    }
}


/// Coefficient `(r, c)` of the DC block after the first, column, pass of the
/// inverse Walsh-Hadamard transform.
pub open spec fn wht_mid(dc: Seq<i16>, r: int, c: int) -> i16 {
    let d0 = dc[c] as int;
    let d1 = dc[4 + c] as int;
    let d2 = dc[8 + c] as int;
    let d3 = dc[12 + c] as int;
    let t0 = d0 + d3;
    let t1 = d1 + d2;
    let t2 = d1 - d2;
    let t3 = d0 - d3;
    (if r == 0 {
        t0 + t1
    } else if r == 1 {
        t3 + t2
    } else if r == 2 {
        t0 - t1
    } else {
        t3 - t2
    }) as i16
}

/// The DC coefficient the inverse Walsh-Hadamard transform gives luma block
/// `j`: the second, row, pass over row `j / 4`, rounded and shifted down by 3.
pub open spec fn wht_out(dc: Seq<i16>, j: int) -> i16 {
    let i = j / 4;
    let r = j % 4;
    let d0 = wht_mid(dc, i, 0) as int;
    let d1 = wht_mid(dc, i, 1) as int;
    let d2 = wht_mid(dc, i, 2) as int;
    let d3 = wht_mid(dc, i, 3) as int;
    let t0 = d0 + d3 + 3;
    let t1 = d1 + d2;
    let t2 = d1 - d2;
    let t3 = d0 - d3 + 3;
    ((if r == 0 {
        t0 + t1
    } else if r == 1 {
        t3 + t2
    } else if r == 2 {
        t0 - t1
    } else {
        t3 - t2
    }) / 8) as i16
}

/// `a` times `20091 / 65536 + 1`, the transform's `sqrt(2) * cos(pi / 8)`.
pub open spec fn mul_a(a: int) -> int {
    (a * 20091) / 65536 + a
}

/// `a` times `35468 / 65536`, the transform's `sqrt(2) * sin(pi / 8)`.
pub open spec fn mul_b(a: int) -> int {
    (a * 35468) / 65536
}

/// Entry `(c, r)` of the intermediate of the inverse DCT: the first pass down
/// column `c` of the coefficients, stored transposed.
pub open spec fn idct_mid(blk: Seq<i16>, c: int, r: int) -> i16 {
    let b0 = blk[c] as int;
    let b1 = blk[4 + c] as int;
    let b2 = blk[8 + c] as int;
    let b3 = blk[12 + c] as int;
    let t0 = b0 + b2;
    let t1 = b0 - b2;
    let t2 = mul_b(b1) - mul_a(b3);
    let t3 = mul_a(b1) + mul_b(b3);
    (if r == 0 {
        t0 + t3
    } else if r == 1 {
        t1 + t2
    } else if r == 2 {
        t1 - t2
    } else {
        t0 - t3
    }) as i16
}

/// The residual the inverse DCT adds to sample `(i, c)` of the block: the
/// second pass over column `i` of the intermediate, rounded and shifted down
/// by 3.
pub open spec fn idct_residual(blk: Seq<i16>, i: int, c: int) -> int {
    let m0 = idct_mid(blk, 0, i) as int;
    let m1 = idct_mid(blk, 1, i) as int;
    let m2 = idct_mid(blk, 2, i) as int;
    let m3 = idct_mid(blk, 3, i) as int;
    let t0 = m0 + m2;
    let t1 = m0 - m2;
    let t2 = mul_b(m1) - mul_a(m3);
    let t3 = mul_a(m1) + mul_b(m3);
    ((if c == 0 {
        t0 + t3
    } else if c == 1 {
        t1 + t2
    } else if c == 2 {
        t1 - t2
    } else {
        t0 - t3
    }) + 4) / 8
}

/// `d` after the first `k` samples of a 4x4 block, taken row by row, have had
/// `f(i, c)` added to them, clamped to a byte.
pub open spec fn residual_added(d: Seq<u8>, stride: int, f: spec_fn(int, int) -> int, k: int) -> Seq<u8>
    decreases k,
{
    if k <= 0 {
        d
    } else {
        let p = residual_added(d, stride, f, k - 1);
        let at = ((k - 1) / 4) * stride + (k - 1) % 4;
        p.update(at, clip_u8(p[at] + f((k - 1) / 4, (k - 1) % 4)) as u8)
    }
}

proof fn lemma_residual_added_agree(d: Seq<u8>, stride: int, f: spec_fn(int, int) -> int, g: spec_fn(int, int) -> int, k: int)
    requires
        0 <= k <= 16,
        forall|i: int, c: int| 0 <= i < 4 && 0 <= c < 4 ==> #[trigger] f(i, c) == g(i, c),
    ensures
        residual_added(d, stride, f, k) == residual_added(d, stride, g, k),
    decreases k,
{
    if k > 0 {
        lemma_residual_added_agree(d, stride, f, g, k - 1);
        assert(f((k - 1) / 4, (k - 1) % 4) == g((k - 1) / 4, (k - 1) % 4));
    }
}

/// A block whose only non-zero coefficient is the DC one transforms to that
/// coefficient, rounded, at every sample: the full inverse transform and the
/// DC-only one add the same residual.
pub proof fn law_the_dc_only_transform_is_the_full_one_on_a_dc_block(d: Seq<u8>, stride: int, blk: Seq<i16>)
    requires
        blk.len() == 16,
        forall|k: int| 1 <= k < 16 ==> #[trigger] blk[k] == 0,
    ensures
        residual_added(d, stride, |i: int, c: int| idct_residual(blk, i, c), 16) == residual_added(
            d,
            stride,
            |i: int, c: int| (blk[0] + 4) / 8,
            16,
        ),
{
    let f = |i: int, c: int| idct_residual(blk, i, c);
    let g = |i: int, c: int| (blk[0] + 4) / 8;
    assert forall|i: int, c: int| 0 <= i < 4 && 0 <= c < 4 implies #[trigger] f(i, c) == g(i, c) by {
        assert(mul_a(0) == 0 && mul_b(0) == 0);
        assert(idct_mid(blk, 1, i) == 0);
        assert(idct_mid(blk, 2, i) == 0);
        assert(idct_mid(blk, 3, i) == 0);
        assert(idct_mid(blk, 0, i) == blk[0]);
    }
    lemma_residual_added_agree(d, stride, f, g, 16);
}

/// Inverts the Walsh-Hadamard transform of the luma DC coefficients,
/// scattering them into the DC slot of each of the sixteen luma blocks.
pub fn luma_dc_wht(block: &mut [[i16; 16]; 16], dc: &mut [i16; 16])
    ensures
        forall|j: int| 0 <= j < 16 ==> #[trigger] final(block)@[j]@ == old(block)@[j]@.update(0, wht_out(old(dc)@, j)),
        forall|j: int| 0 <= j < 16 ==> #[trigger] final(dc)@[j] == 0,
{
    let ghost d0 = dc@;
    let mut mid = [0i16; 16];
    let mut c: usize = 0;
    while c < 4
        invariant
            dc@ == d0,
            c <= 4,
            forall|r: int, c2: int| 0 <= r < 4 && 0 <= c2 < c ==> #[trigger] mid@[r * 4 + c2] == wht_mid(d0, r, c2),
        decreases 4 - c,
    {
        let d0v = dc[c] as i32;
        let d1v = dc[4 + c] as i32;
        let d2v = dc[8 + c] as i32;
        let d3v = dc[12 + c] as i32;
        let (t0, t1) = (d0v + d3v, d1v + d2v);
        let (t2, t3) = (d1v - d2v, d0v - d3v);
        mid[c] = (t0 + t1) as i16;
        mid[4 + c] = (t3 + t2) as i16;
        mid[8 + c] = (t0 - t1) as i16;
        mid[12 + c] = (t3 - t2) as i16;
        c = c + 1;
    }
    let ghost b0 = block@;
    let mut i: usize = 0;
    while i < 4
        invariant
            i <= 4,
            forall|r: int, c2: int| 0 <= r < 4 && 0 <= c2 < 4 ==> #[trigger] mid@[r * 4 + c2] == wht_mid(d0, r, c2),
            forall|j: int| 0 <= j < 4 * i ==> #[trigger] block@[j]@ == b0[j]@.update(0, wht_out(d0, j)),
            forall|j: int| 4 * i <= j < 16 ==> #[trigger] block@[j] == b0[j],
        decreases 4 - i,
    {
        proof {
            assert(mid@[(i as int) * 4 + 0] == wht_mid(d0, i as int, 0));
            assert(mid@[(i as int) * 4 + 1] == wht_mid(d0, i as int, 1));
            assert(mid@[(i as int) * 4 + 2] == wht_mid(d0, i as int, 2));
            assert(mid@[(i as int) * 4 + 3] == wht_mid(d0, i as int, 3));
        }
        let d0v = mid[i * 4] as i32;
        let d1v = mid[i * 4 + 1] as i32;
        let d2v = mid[i * 4 + 2] as i32;
        let d3v = mid[i * 4 + 3] as i32;
        let (t0, t1) = (d0v + d3v + 3, d1v + d2v);
        let (t2, t3) = (d1v - d2v, d0v - d3v + 3);
        block[i * 4][0] = floor_div(t0 + t1, 8) as i16;
        block[i * 4 + 1][0] = floor_div(t3 + t2, 8) as i16;
        block[i * 4 + 2][0] = floor_div(t0 - t1, 8) as i16;
        block[i * 4 + 3][0] = floor_div(t3 - t2, 8) as i16;
        proof {
            assert forall|j: int| 0 <= j < 4 * (i + 1) implies #[trigger] block@[j]@ == b0[j]@.update(0, wht_out(d0, j)) by {
                if j >= 4 * i {
                    assert(j / 4 == i as int);
                    assert(j % 4 == j - 4 * i);
                }
            }
        }
        i = i + 1;
    }
    *dc = [0i16; 16];
}

/// On a DC block whose only non-zero coefficient is its DC, the full inverse
/// Walsh-Hadamard transform gives every luma block the DC that
/// [`luma_dc_wht_dc`] gives it, and both leave the DC block all zero: the
/// shortcut is the transform itself on the inputs it is used for.
pub proof fn law_the_dc_only_wht_is_the_full_one_on_a_dc_only_block(dc: Seq<i16>, block: Seq<Seq<i16>>)
    requires
        dc.len() == 16,
        forall|k: int| 1 <= k < 16 ==> #[trigger] dc[k] == 0,
    ensures
        forall|j: int| 0 <= j < 16 ==> #[trigger] wht_out(dc, j) == ((dc[0] + 3) / 8) as i16,
        forall|j: int| 0 <= j < block.len() ==> #[trigger] block[j].update(0, wht_out(dc, j)) == block[j].update(
            0,
            ((dc[0] + 3) / 8) as i16,
        ),
        dc.update(0, 0) == Seq::new(16, |k: int| 0i16),
{
    assert forall|r: int, c: int| 0 <= r < 4 && 0 <= c < 4 implies #[trigger] wht_mid(dc, r, c) == (if c == 0 {
        dc[0]
    } else {
        0i16
    }) by {
        if c != 0 {
            assert(dc[c] == 0 && dc[4 + c] == 0 && dc[8 + c] == 0 && dc[12 + c] == 0);
        } else {
            assert(dc[4] == 0 && dc[8] == 0 && dc[12] == 0);
        }
    }
    assert forall|j: int| 0 <= j < 16 implies #[trigger] wht_out(dc, j) == ((dc[0] + 3) / 8) as i16 by {
        let i = j / 4;
        assert(wht_mid(dc, i, 0) == dc[0]);
        assert(wht_mid(dc, i, 1) == 0i16);
        assert(wht_mid(dc, i, 2) == 0i16);
        assert(wht_mid(dc, i, 3) == 0i16);
    }
    assert forall|j: int| 0 <= j < block.len() implies #[trigger] block[j].update(0, wht_out(dc, j)) == block[j].update(
        0,
        ((dc[0] + 3) / 8) as i16,
    ) by {
        if j < 16 {
            assert(wht_out(dc, j) == ((dc[0] + 3) / 8) as i16);
        }
    }
    assert(dc.update(0, 0) =~= Seq::new(16, |k: int| 0i16));
}

/// [`luma_dc_wht`] where only the DC of the DC block is non-zero: every luma
/// block gets the same DC.
pub fn luma_dc_wht_dc(block: &mut [[i16; 16]; 16], dc: &mut [i16; 16])
    ensures
        forall|j: int| 0 <= j < 16 ==> #[trigger] final(block)@[j]@ == old(block)@[j]@.update(0, ((old(dc)@[0] + 3) / 8) as i16),
        final(dc)@ == old(dc)@.update(0, 0),
{
    let val = floor_div(dc[0] as i32 + 3, 8) as i16;
    dc[0] = 0;
    let ghost b0 = block@;
    let mut j: usize = 0;
    while j < 16
        invariant
            j <= 16,
            forall|k: int| 0 <= k < j ==> #[trigger] block@[k]@ == b0[k]@.update(0, val),
            forall|k: int| j <= k < 16 ==> #[trigger] block@[k] == b0[k],
        decreases 16 - j,
    {
        block[j][0] = val;
        j = j + 1;
    }
}

fn mul_20091(a: i32) -> (r: i32)
    requires
        -32768 <= a <= 32767,
    ensures
        r as int == mul_a(a as int),
{
    floor_div(a * 20091, 65536) + a
}

fn mul_35468(a: i32) -> (r: i32)
    requires
        -32768 <= a <= 32767,
    ensures
        r as int == mul_b(a as int),
{
    floor_div(a * 35468, 65536)
}

/// Adds `v` to the byte at `at`, clamped.
fn add_clamped(dst: &mut [u8], at: usize, v: i32)
    requires
        at < old(dst).len(),
        -0x1000_0000 <= v <= 0x1000_0000,
    ensures
        final(dst)@ == old(dst)@.update(at as int, clip_u8(old(dst)@[at as int] + v) as u8),
{
    dst[at] = clip_uint8(dst[at] as i32 + v);
}

/// Inverts the 4x4 DCT and adds the residual to `dst`, which starts at the
/// block's top-left sample, clearing the coefficients.
#[verifier::rlimit(60)]
#[verifier::spinoff_prover]
pub fn idct_add(dst: &mut [u8], stride: usize, block: &mut [i16; 16])
    requires
        3 * stride + 4 <= old(dst).len(),
    ensures
        final(dst)@ == residual_added(old(dst)@, stride as int, |i: int, c: int| idct_residual(old(block)@, i, c), 16),
        forall|k: int| 0 <= k < 16 ==> #[trigger] final(block)@[k] == 0,
{
    let ghost blk = block@;
    let ghost f = |i: int, c: int| idct_residual(blk, i, c);
    let mut tmp = [0i16; 16];
    let mut c: usize = 0;
    while c < 4
        invariant
            block@ == blk,
            c <= 4,
            forall|c2: int, r: int| 0 <= c2 < c && 0 <= r < 4 ==> #[trigger] tmp@[c2 * 4 + r] == idct_mid(blk, c2, r),
        decreases 4 - c,
    {
        let b0 = block[c] as i32;
        let b1 = block[4 + c] as i32;
        let b2 = block[8 + c] as i32;
        let b3 = block[12 + c] as i32;
        let t0 = b0 + b2;
        let t1 = b0 - b2;
        let t2 = mul_35468(b1) - mul_20091(b3);
        let t3 = mul_20091(b1) + mul_35468(b3);
        tmp[c * 4] = (t0 + t3) as i16;
        tmp[c * 4 + 1] = (t1 + t2) as i16;
        tmp[c * 4 + 2] = (t1 - t2) as i16;
        tmp[c * 4 + 3] = (t0 - t3) as i16;
        c = c + 1;
    }
    *block = [0i16; 16];
    let mut i: usize = 0;
    while i < 4
        invariant
            3 * stride + 4 <= old(dst).len(),
            dst.len() == old(dst).len(),
            i <= 4,
            forall|c2: int, r: int| 0 <= c2 < 4 && 0 <= r < 4 ==> #[trigger] tmp@[c2 * 4 + r] == idct_mid(blk, c2, r),
            f == (|i: int, c: int| idct_residual(blk, i, c)),
            dst@ == residual_added(old(dst)@, stride as int, f, 4 * i),
        decreases 4 - i,
    {
        let m0 = tmp[i] as i32;
        let m1 = tmp[4 + i] as i32;
        let m2 = tmp[8 + i] as i32;
        let m3 = tmp[12 + i] as i32;
        let t0 = m0 + m2;
        let t1 = m0 - m2;
        let t2 = mul_35468(m1) - mul_20091(m3);
        let t3 = mul_20091(m1) + mul_35468(m3);
        proof {
            assert(i * stride <= 3 * stride) by (nonlinear_arith)
                requires
                    i <= 3,
            ;
        }
        let row = i * stride;
        let mut c: usize = 0;
        while c < 4
            invariant
                3 * stride + 4 <= old(dst).len(),
                dst.len() == old(dst).len(),
                i < 4,
                c <= 4,
                row == i * stride,
                row + 4 <= dst.len(),
                f == (|i: int, c: int| idct_residual(blk, i, c)),
                forall|c2: int, r: int| 0 <= c2 < 4 && 0 <= r < 4 ==> #[trigger] tmp@[c2 * 4 + r] == idct_mid(blk, c2, r),
                t0 == tmp@[i as int] + tmp@[8 + i],
                t1 == tmp@[i as int] - tmp@[8 + i],
                t2 == mul_b(tmp@[4 + i] as int) - mul_a(tmp@[12 + i] as int),
                t3 == mul_a(tmp@[4 + i] as int) + mul_b(tmp@[12 + i] as int),
                dst@ == residual_added(old(dst)@, stride as int, f, 4 * i + c),
            decreases 4 - c,
        {
            let v = if c == 0 {
                t0 + t3
            } else if c == 1 {
                t1 + t2
            } else if c == 2 {
                t1 - t2
            } else {
                t0 - t3
            };
            proof {
                assert(tmp@[0 * 4 + i] == idct_mid(blk, 0, i as int));
                assert(tmp@[1 * 4 + i] == idct_mid(blk, 1, i as int));
                assert(tmp@[2 * 4 + i] == idct_mid(blk, 2, i as int));
                assert(tmp@[3 * 4 + i] == idct_mid(blk, 3, i as int));
                let k = 4 * i + c + 1;
                assert((k - 1) / 4 == i as int && (k - 1) % 4 == c as int);
            }
            add_clamped(dst, row + c, floor_div(v + 4, 8));
            c = c + 1;
        }
        i = i + 1;
    }
}

/// [`idct_add`] where only the DC coefficient is non-zero: every sample of
/// the block gets the same residual.
pub fn idct_dc_add(dst: &mut [u8], stride: usize, block: &mut [i16; 16])
    requires
        3 * stride + 4 <= old(dst).len(),
    ensures
        final(dst)@ == residual_added(old(dst)@, stride as int, |i: int, c: int| (old(block)@[0] + 4) / 8, 16),
        final(block)@ == old(block)@.update(0, 0),
{
    let ghost b0 = block@[0];
    let ghost f = |i: int, c: int| (b0 + 4) / 8;
    let dc = floor_div(block[0] as i32 + 4, 8);
    block[0] = 0;
    let mut i: usize = 0;
    while i < 4
        invariant
            3 * stride + 4 <= old(dst).len(),
            dst.len() == old(dst).len(),
            i <= 4,
            dc == (b0 + 4) / 8,
            f == (|i: int, c: int| (b0 + 4) / 8),
            dst@ == residual_added(old(dst)@, stride as int, f, 4 * i),
        decreases 4 - i,
    {
        proof {
            assert(i * stride <= 3 * stride) by (nonlinear_arith)
                requires
                    i <= 3,
            ;
        }
        let row = i * stride;
        let mut c: usize = 0;
        while c < 4
            invariant
                3 * stride + 4 <= old(dst).len(),
                dst.len() == old(dst).len(),
                i < 4,
                c <= 4,
                row == i * stride,
                row + 4 <= dst.len(),
                dc == (b0 + 4) / 8,
                f == (|i: int, c: int| (b0 + 4) / 8),
                dst@ == residual_added(old(dst)@, stride as int, f, 4 * i + c),
            decreases 4 - c,
        {
            proof {
                let k = 4 * i + c + 1;
                assert((k - 1) / 4 == i as int && (k - 1) % 4 == c as int);
            }
            add_clamped(dst, row + c, dc);
            c = c + 1;
        }
        i = i + 1;
    }
}

} // verus!
