//! Scalar kernels for the lossless (VP8L) DSP.
//!
//! A pixel is a `u32` whose four bytes, lowest first, are the alpha, red,
//! green and blue channels: the `[A, R, G, B]` byte order the picture has in
//! memory, read little-endian.
//!
//! The predictors take the destination row as one `&mut [u32]` and the row
//! above as `&[u32]`, with the two out-of-row neighbours passed by value as
//! `left` and `top_left`. The input row is the output row: each pixel holds the
//! residual on the way in and the reconstructed colour on the way out.

use vstd::prelude::*;

verus! {

/// Channel `k` (0 to 3, lowest byte first) of a pixel.
pub open spec fn chan(v: u32, k: int) -> int {
    ((v as int) / pow256(k)) % 256
}

pub open spec fn pow256(k: int) -> int {
    if k <= 0 { 1 } else if k == 1 { 256 } else if k == 2 { 65536 } else { 16777216 }
}

/// The four channels put back into a pixel.
pub open spec fn pixel(c0: int, c1: int, c2: int, c3: int) -> int {
    c0 + 256 * c1 + 65536 * c2 + 16777216 * c3
}

/// The channel-wise sum, each channel wrapping on its own.
pub open spec fn spec_add_pixels(a: u32, b: u32) -> u32 {
    pixel(
        (chan(a, 0) + chan(b, 0)) % 256,
        (chan(a, 1) + chan(b, 1)) % 256,
        (chan(a, 2) + chan(b, 2)) % 256,
        (chan(a, 3) + chan(b, 3)) % 256,
    ) as u32
}

pub(crate) proof fn lemma_chan_bits(v: u32)
    ensures
        chan(v, 0) == (v & 0xff) as int,
        chan(v, 1) == ((v >> 8u32) & 0xff) as int,
        chan(v, 2) == ((v >> 16u32) & 0xff) as int,
        chan(v, 3) == ((v >> 24u32) & 0xff) as int,
        v as int == pixel(chan(v, 0), chan(v, 1), chan(v, 2), chan(v, 3)),
{
    assert(v & 0xff == v % 256 && (v >> 8u32) & 0xff == (v / 256) % 256 && (v >> 16u32) & 0xff
        == (v / 65536) % 256 && (v >> 24u32) & 0xff == (v / 16777216) % 256) by (bit_vector);
}

proof fn lemma_add_pixels_bits(a: u32, b: u32)
    ensures
        ({
            let ag = ((a & 0xFF00_FF00) as u64 + (b & 0xFF00_FF00) as u64) as u64;
            let rb = ((a & 0x00FF_00FF) as u64 + (b & 0x00FF_00FF) as u64) as u64;
            let r = ((ag & 0xFF00_FF00) | (rb & 0x00FF_00FF)) as u32;
            &&& r & 0xff == ((a & 0xff) + (b & 0xff)) % 256
            &&& (r >> 8u32) & 0xff == (((a >> 8u32) & 0xff) + ((b >> 8u32) & 0xff)) % 256
            &&& (r >> 16u32) & 0xff == (((a >> 16u32) & 0xff) + ((b >> 16u32) & 0xff)) % 256
            &&& (r >> 24u32) & 0xff == (((a >> 24u32) & 0xff) + ((b >> 24u32) & 0xff)) % 256
        }),
{
    assert({
        let ag = ((a & 0xFF00_FF00) as u64 + (b & 0xFF00_FF00) as u64) as u64;
        let rb = ((a & 0x00FF_00FF) as u64 + (b & 0x00FF_00FF) as u64) as u64;
        let r = ((ag & 0xFF00_FF00) | (rb & 0x00FF_00FF)) as u32;
        &&& r & 0xff == ((a & 0xff) + (b & 0xff)) % 256
        &&& (r >> 8u32) & 0xff == (((a >> 8u32) & 0xff) + ((b >> 8u32) & 0xff)) % 256
        &&& (r >> 16u32) & 0xff == (((a >> 16u32) & 0xff) + ((b >> 16u32) & 0xff)) % 256
        &&& (r >> 24u32) & 0xff == (((a >> 24u32) & 0xff) + ((b >> 24u32) & 0xff)) % 256
    }) by (bit_vector);
}

/// Adds the four channels independently, discarding carries between bytes.
pub fn add_pixels(a: u32, b: u32) -> (r: u32)
    ensures
        r == spec_add_pixels(a, b),
{
    let ag = (a & 0xFF00_FF00) as u64 + (b & 0xFF00_FF00) as u64;
    let rb = (a & 0x00FF_00FF) as u64 + (b & 0x00FF_00FF) as u64;
    let r = ((ag & 0xFF00_FF00) | (rb & 0x00FF_00FF)) as u32;

    proof {
        lemma_chan_bits(a);
        lemma_chan_bits(b);
        lemma_chan_bits(r);
        lemma_add_pixels_bits(a, b);
    }
    r
}

/// The channel-wise floor of the mean of two pixels.
pub open spec fn spec_avg2(a: u32, b: u32) -> u32 {
    ((((a ^ b) & 0xFEFE_FEFE) >> 1u32) + (a & b)) as u32
}

fn avg2(a: u32, b: u32) -> (r: u32)
    ensures
        r == spec_avg2(a, b),
{
    proof {
        assert((((a ^ b) & 0xFEFE_FEFE) >> 1u32) + (a & b) <= 0xffff_ffff) by (bit_vector);
    }
    (((a ^ b) & 0xFEFE_FEFE) >> 1u32) + (a & b)
}

/// One channel of a pixel, as an integer.
pub open spec fn spec_byte(v: u32, shift: u32) -> i32 {
    ((v >> shift) & 0xff) as i32
}

fn byte(v: u32, shift: u32) -> (r: i32)
    requires
        shift < 32,
    ensures
        r == spec_byte(v, shift),
        0 <= r <= 255,
{
    proof {
        assert((v >> shift) & 0xff <= 0xff) by (bit_vector);
    }
    ((v >> shift) & 0xff) as i32
}

pub open spec fn abs(v: int) -> int {
    if v < 0 { -v } else { v }
}

pub open spec fn spec_sub3(a: int, b: int, c: int) -> int {
    abs(b - c) - abs(a - c)
}

/// The Manhattan distance test of predictor 11: whichever of the top and left
/// pixels the gradient through the top-left one favours.
pub open spec fn spec_select(t: u32, l: u32, tl: u32) -> u32 {
    let diff = spec_sub3(spec_byte(t, 24) as int, spec_byte(l, 24) as int, spec_byte(tl, 24) as int)
        + spec_sub3(spec_byte(t, 16) as int, spec_byte(l, 16) as int, spec_byte(tl, 16) as int)
        + spec_sub3(spec_byte(t, 8) as int, spec_byte(l, 8) as int, spec_byte(tl, 8) as int)
        + spec_sub3(spec_byte(t, 0) as int, spec_byte(l, 0) as int, spec_byte(tl, 0) as int);
    if diff <= 0 { t } else { l }
}

/// How far pixel `x` lies from the gradient estimate `left + top - top_left`,
/// summed over the four channels.
pub open spec fn gradient_distance(t: u32, l: u32, tl: u32, x: u32) -> int {
    abs(spec_byte(l, 0) + spec_byte(t, 0) - spec_byte(tl, 0) - spec_byte(x, 0))
        + abs(spec_byte(l, 8) + spec_byte(t, 8) - spec_byte(tl, 8) - spec_byte(x, 8))
        + abs(spec_byte(l, 16) + spec_byte(t, 16) - spec_byte(tl, 16) - spec_byte(x, 16))
        + abs(spec_byte(l, 24) + spec_byte(t, 24) - spec_byte(tl, 24) - spec_byte(x, 24))
}

/// Predictor 11 picks, of the pixel above and the pixel to the left, the one
/// nearer to the gradient estimate `left + top - top_left` (the top one on a
/// tie). In particular, where the top pixel equals the top-left one in every
/// channel, the estimate is the left pixel itself, and the left one is chosen
/// unless the two are equally near.
pub proof fn law_predictor_eleven_picks_the_nearer_neighbour(t: u32, l: u32, tl: u32)
    ensures
        spec_select(t, l, tl) == t || spec_select(t, l, tl) == l,
        gradient_distance(t, l, tl, t) < gradient_distance(t, l, tl, l) ==> spec_select(t, l, tl) == t,
        gradient_distance(t, l, tl, l) < gradient_distance(t, l, tl, t) ==> spec_select(t, l, tl) == l,
        gradient_distance(t, l, tl, t) == gradient_distance(t, l, tl, l) ==> spec_select(t, l, tl) == t,
        t == tl && gradient_distance(t, l, tl, t) != 0 ==> spec_select(t, l, tl) == l,
{
    assert(gradient_distance(t, l, tl, l) == abs(spec_byte(t, 0) - spec_byte(tl, 0)) + abs(spec_byte(t, 8) - spec_byte(tl, 8))
        + abs(spec_byte(t, 16) - spec_byte(tl, 16)) + abs(spec_byte(t, 24) - spec_byte(tl, 24)));
    assert(gradient_distance(t, l, tl, t) == abs(spec_byte(l, 0) - spec_byte(tl, 0)) + abs(spec_byte(l, 8) - spec_byte(tl, 8))
        + abs(spec_byte(l, 16) - spec_byte(tl, 16)) + abs(spec_byte(l, 24) - spec_byte(tl, 24)));
}

fn sub3(a: i32, b: i32, c: i32) -> (r: i32)
    requires
        0 <= a <= 255 && 0 <= b <= 255 && 0 <= c <= 255,
    ensures
        r == spec_sub3(a as int, b as int, c as int),
        -255 <= r <= 255,
{
    let x = if b >= c { b - c } else { c - b };
    let y = if a >= c { a - c } else { c - a };
    x - y
}

fn select(t: u32, l: u32, tl: u32) -> (r: u32)
    ensures
        r == spec_select(t, l, tl),
{
    let d3 = sub3(byte(t, 24), byte(l, 24), byte(tl, 24));
    let d2 = sub3(byte(t, 16), byte(l, 16), byte(tl, 16));
    let d1 = sub3(byte(t, 8), byte(l, 8), byte(tl, 8));
    let d0 = sub3(byte(t, 0), byte(l, 0), byte(tl, 0));
    let diff = d3 + d2 + d1 + d0;
    if diff <= 0 {
        t
    } else {
        l
    }
}

pub open spec fn spec_clip(v: int) -> int {
    if v < 0 { 0 } else if v > 255 { 255 } else { v }
}

/// `clamp(c0 + c1 - c2)` in each channel: predictor 12.
pub open spec fn spec_clamped_full(c0: u32, c1: u32, c2: u32) -> u32 {
    pixel(
        spec_clip(chan(c0, 0) + chan(c1, 0) - chan(c2, 0)),
        spec_clip(chan(c0, 1) + chan(c1, 1) - chan(c2, 1)),
        spec_clip(chan(c0, 2) + chan(c1, 2) - chan(c2, 2)),
        spec_clip(chan(c0, 3) + chan(c1, 3) - chan(c2, 3)),
    ) as u32
}

/// `a + (a - b) / 2`, clamped, with the division rounding toward zero.
pub open spec fn spec_add_sub_half(a: int, b: int) -> int {
    let d = a - b;
    let half = if d >= 0 { d / 2 } else { -((-d) / 2) };
    spec_clip(a + half)
}

/// Predictor 13: predictor 12 at half strength, from the average of the two.
pub open spec fn spec_clamped_half(c0: u32, c1: u32, c2: u32) -> u32 {
    let ave = spec_avg2(c0, c1);
    pixel(
        spec_add_sub_half(chan(ave, 0), chan(c2, 0)),
        spec_add_sub_half(chan(ave, 1), chan(c2, 1)),
        spec_add_sub_half(chan(ave, 2), chan(c2, 2)),
        spec_add_sub_half(chan(ave, 3), chan(c2, 3)),
    ) as u32
}

fn clip(v: i32) -> (r: u32)
    ensures
        r == spec_clip(v as int),
{
    if v < 0 {
        0
    } else if v > 255 {
        255
    } else {
        v as u32
    }
}

fn channel(v: u32, k: u32) -> (r: i32)
    requires
        k < 4,
    ensures
        r == chan(v, k as int),
        0 <= r < 256,
{
    proof {
        lemma_chan_bits(v);
    }
    if k == 0 {
        (v & 0xff) as i32
    } else if k == 1 {
        ((v >> 8u32) & 0xff) as i32
    } else if k == 2 {
        ((v >> 16u32) & 0xff) as i32
    } else {
        ((v >> 24u32) & 0xff) as i32
    }
}

fn pack(c0: u32, c1: u32, c2: u32, c3: u32) -> (r: u32)
    requires
        c0 < 256 && c1 < 256 && c2 < 256 && c3 < 256,
    ensures
        r == pixel(c0 as int, c1 as int, c2 as int, c3 as int),
{
    c0 + 256 * c1 + 65536 * c2 + 16777216 * c3
}

fn clamped_add_sub_full(c0: u32, c1: u32, c2: u32) -> (r: u32)
    ensures
        r == spec_clamped_full(c0, c1, c2),
{
    let a = clip(channel(c0, 0) + channel(c1, 0) - channel(c2, 0));
    let b = clip(channel(c0, 1) + channel(c1, 1) - channel(c2, 1));
    let c = clip(channel(c0, 2) + channel(c1, 2) - channel(c2, 2));
    let d = clip(channel(c0, 3) + channel(c1, 3) - channel(c2, 3));
    pack(a, b, c, d)
}

fn add_sub_half(a: i32, b: i32) -> (r: u32)
    requires
        0 <= a < 256 && 0 <= b < 256,
    ensures
        r == spec_add_sub_half(a as int, b as int),
{
    clip(a + (a - b) / 2)
}

fn clamped_add_sub_half(c0: u32, c1: u32, c2: u32) -> (r: u32)
    ensures
        r == spec_clamped_half(c0, c1, c2),
{
    let ave = avg2(c0, c1);
    let a = add_sub_half(channel(ave, 0), channel(c2, 0));
    let b = add_sub_half(channel(ave, 1), channel(c2, 1));
    let c = add_sub_half(channel(ave, 2), channel(c2, 2));
    let d = add_sub_half(channel(ave, 3), channel(c2, 3));
    pack(a, b, c, d)
}

/// Opaque black: alpha `0xff`, every colour channel zero.
pub const BLACK: u32 = 0xff;

/// What predictor `mode` predicts from the left, top, top-left and top-right
/// neighbours.
pub open spec fn predict(mode: int, l: u32, t: u32, tl: u32, tr: u32) -> u32 {
    if mode == 0 {
        BLACK
    } else if mode == 1 {
        l
    } else if mode == 2 {
        t
    } else if mode == 3 {
        tr
    } else if mode == 4 {
        tl
    } else if mode == 5 {
        spec_avg2(spec_avg2(l, tr), t)
    } else if mode == 6 {
        spec_avg2(l, tl)
    } else if mode == 7 {
        spec_avg2(l, t)
    } else if mode == 8 {
        spec_avg2(tl, t)
    } else if mode == 9 {
        spec_avg2(t, tr)
    } else if mode == 10 {
        spec_avg2(spec_avg2(l, tl), spec_avg2(t, tr))
    } else if mode == 11 {
        spec_select(t, l, tl)
    } else if mode == 12 {
        spec_clamped_full(l, t, tl)
    } else {
        spec_clamped_half(l, t, tl)
    }
}

/// Whether predictor `mode` reads the pixel above and to the right.
pub open spec fn reads_top_right(mode: int) -> bool {
    mode == 3 || mode == 5 || mode == 9 || mode == 10
}

/// The reconstructed pixel `i` of a row: the residual plus the prediction from
/// its neighbours, the left one being the pixel just reconstructed.
pub open spec fn pred_at(mode: int, res: Seq<u32>, upper: Seq<u32>, left: u32, top_left: u32, i: int) -> u32
    decreases i,
{
    if i <= 0 {
        spec_add_pixels(res[0], predict(mode, left, upper[0], top_left, upper[1]))
    } else {
        spec_add_pixels(
            res[i],
            predict(mode, pred_at(mode, res, upper, left, top_left, i - 1), upper[i], upper[i - 1], upper[i + 1]),
        )
    }
}

fn predict_exec(mode: u8, l: u32, t: u32, tl: u32, tr: u32) -> (r: u32)
    requires
        mode <= 13,
    ensures
        r == predict(mode as int, l, t, tl, tr),
{
    match mode {
        0 => BLACK,
        1 => l,
        2 => t,
        3 => tr,
        4 => tl,
        5 => avg2(avg2(l, tr), t),
        6 => avg2(l, tl),
        7 => avg2(l, t),
        8 => avg2(tl, t),
        9 => avg2(t, tr),
        10 => avg2(avg2(l, tl), avg2(t, tr)),
        11 => select(t, l, tl),
        12 => clamped_add_sub_full(l, t, tl),
        _ => clamped_add_sub_half(l, t, tl),
    }
}

/// Undoes predictor `mode` over a row in place.
pub(crate) fn pred_add_row(mode: u8, out: &mut [u32], upper: &[u32], left: u32, top_left: u32)
    requires
        mode <= 13,
        upper.len() >= old(out).len(),
        reads_top_right(mode as int) ==> upper.len() > old(out).len(),
    ensures
        final(out).len() == old(out).len(),
        forall|i: int| 0 <= i < old(out).len() ==> #[trigger] final(out)[i] == pred_at(
            mode as int,
            old(out)@,
            upper@,
            left,
            top_left,
            i,
        ),
{
    let n = out.len();
    let mut l = left;
    let mut tl = top_left;
    let mut i: usize = 0;

    while i < n
        invariant
            n == out.len() == old(out).len(),
            i <= n,
            mode <= 13,
            upper.len() >= n,
            reads_top_right(mode as int) ==> upper.len() > n,
            forall|j: int| 0 <= j < i ==> #[trigger] out[j] == pred_at(mode as int, old(out)@, upper@, left, top_left, j),
            forall|j: int| i <= j < n ==> out[j] == old(out)[j],
            i == 0 ==> l == left && tl == top_left,
            i > 0 ==> l == pred_at(mode as int, old(out)@, upper@, left, top_left, i - 1) && tl
                == upper[i - 1],
        decreases n - i,
    {
        let t = upper[i];
        let tr = if i + 1 < upper.len() { upper[i + 1] } else { 0 };
        let p = predict_exec(mode, l, t, tl, tr);
        let v = add_pixels(out[i], p);

        proof {
            if !reads_top_right(mode as int) {
                assert(predict(mode as int, l, t, tl, tr) == predict(mode as int, l, t, tl, upper[i + 1]));
            }
        }
        out[i] = v;
        l = v;
        tl = t;
        i = i + 1;
    }
}

/// Predictor 0: the constant opaque black.
pub fn pred_add_0(out: &mut [u32])
    ensures
        final(out).len() == old(out).len(),
        forall|i: int| 0 <= i < old(out).len() ==> #[trigger] final(out)[i] == spec_add_pixels(old(out)[i], BLACK),
{
    let n = out.len();
    let mut i: usize = 0;

    while i < n
        invariant
            n == out.len() == old(out).len(),
            i <= n,
            forall|j: int| 0 <= j < i ==> #[trigger] out[j] == spec_add_pixels(old(out)[j], BLACK),
            forall|j: int| i <= j < n ==> out[j] == old(out)[j],
        decreases n - i,
    {
        let v = add_pixels(out[i], BLACK);
        out[i] = v;
        i = i + 1;
    }
}

/// Predictor 1 chained along the row: pixel `i` is the running channel-wise
/// sum of the residuals up to it, starting from `left`.
pub open spec fn chain(res: Seq<u32>, left: u32, i: int) -> u32
    decreases i + 1,
{
    if i < 0 {
        left
    } else {
        spec_add_pixels(res[i], chain(res, left, i - 1))
    }
}

/// Predictor 1: the pixel to the left.
pub fn pred_add_1(out: &mut [u32], left: u32)
    ensures
        final(out).len() == old(out).len(),
        forall|i: int| 0 <= i < old(out).len() ==> #[trigger] final(out)[i] == chain(old(out)@, left, i),
{
    let n = out.len();
    let mut l = left;
    let mut i: usize = 0;

    while i < n
        invariant
            n == out.len() == old(out).len(),
            i <= n,
            forall|j: int| 0 <= j < i ==> #[trigger] out[j] == chain(old(out)@, left, j),
            forall|j: int| i <= j < n ==> out[j] == old(out)[j],
            l == chain(old(out)@, left, i - 1),
        decreases n - i,
    {
        let v = add_pixels(out[i], l);
        out[i] = v;
        l = v;
        i = i + 1;
    }
}

/// Predictor 2: the pixel above.
pub fn pred_add_2(out: &mut [u32], upper: &[u32], left: u32, top_left: u32)
    requires
        upper.len() >= old(out).len(),
    ensures
        final(out).len() == old(out).len(),
        forall|i: int| 0 <= i < old(out).len() ==> #[trigger] final(out)[i] == pred_at(2, old(out)@, upper@, left, top_left, i),
{
    pred_add_row(2, out, upper, left, top_left);
}

/// Predictor 3: the pixel above and to the right.
pub fn pred_add_3(out: &mut [u32], upper: &[u32], left: u32, top_left: u32)
    requires
        upper.len() > old(out).len(),
    ensures
        final(out).len() == old(out).len(),
        forall|i: int| 0 <= i < old(out).len() ==> #[trigger] final(out)[i] == pred_at(3, old(out)@, upper@, left, top_left, i),
{
    pred_add_row(3, out, upper, left, top_left);
}

/// Predictor 4: the pixel above and to the left.
pub fn pred_add_4(out: &mut [u32], upper: &[u32], left: u32, top_left: u32)
    requires
        upper.len() >= old(out).len(),
    ensures
        final(out).len() == old(out).len(),
        forall|i: int| 0 <= i < old(out).len() ==> #[trigger] final(out)[i] == pred_at(4, old(out)@, upper@, left, top_left, i),
{
    pred_add_row(4, out, upper, left, top_left);
}

/// Predictor 5: `avg2(avg2(left, top_right), top)`.
pub fn pred_add_5(out: &mut [u32], upper: &[u32], left: u32, top_left: u32)
    requires
        upper.len() > old(out).len(),
    ensures
        final(out).len() == old(out).len(),
        forall|i: int| 0 <= i < old(out).len() ==> #[trigger] final(out)[i] == pred_at(5, old(out)@, upper@, left, top_left, i),
{
    pred_add_row(5, out, upper, left, top_left);
}

/// Predictor 6: `avg2(left, top_left)`.
pub fn pred_add_6(out: &mut [u32], upper: &[u32], left: u32, top_left: u32)
    requires
        upper.len() >= old(out).len(),
    ensures
        final(out).len() == old(out).len(),
        forall|i: int| 0 <= i < old(out).len() ==> #[trigger] final(out)[i] == pred_at(6, old(out)@, upper@, left, top_left, i),
{
    pred_add_row(6, out, upper, left, top_left);
}

/// Predictor 7: `avg2(left, top)`.
pub fn pred_add_7(out: &mut [u32], upper: &[u32], left: u32, top_left: u32)
    requires
        upper.len() >= old(out).len(),
    ensures
        final(out).len() == old(out).len(),
        forall|i: int| 0 <= i < old(out).len() ==> #[trigger] final(out)[i] == pred_at(7, old(out)@, upper@, left, top_left, i),
{
    pred_add_row(7, out, upper, left, top_left);
}

/// Predictor 8: `avg2(top_left, top)`.
pub fn pred_add_8(out: &mut [u32], upper: &[u32], left: u32, top_left: u32)
    requires
        upper.len() >= old(out).len(),
    ensures
        final(out).len() == old(out).len(),
        forall|i: int| 0 <= i < old(out).len() ==> #[trigger] final(out)[i] == pred_at(8, old(out)@, upper@, left, top_left, i),
{
    pred_add_row(8, out, upper, left, top_left);
}

/// Predictor 9: `avg2(top, top_right)`.
pub fn pred_add_9(out: &mut [u32], upper: &[u32], left: u32, top_left: u32)
    requires
        upper.len() > old(out).len(),
    ensures
        final(out).len() == old(out).len(),
        forall|i: int| 0 <= i < old(out).len() ==> #[trigger] final(out)[i] == pred_at(9, old(out)@, upper@, left, top_left, i),
{
    pred_add_row(9, out, upper, left, top_left);
}

/// Predictor 10: `avg4(left, top_left, top, top_right)`.
pub fn pred_add_10(out: &mut [u32], upper: &[u32], left: u32, top_left: u32)
    requires
        upper.len() > old(out).len(),
    ensures
        final(out).len() == old(out).len(),
        forall|i: int| 0 <= i < old(out).len() ==> #[trigger] final(out)[i] == pred_at(10, old(out)@, upper@, left, top_left, i),
{
    pred_add_row(10, out, upper, left, top_left);
}

/// Predictor 11: whichever of top and left is closer to top_left.
pub fn pred_add_11(out: &mut [u32], upper: &[u32], left: u32, top_left: u32)
    requires
        upper.len() >= old(out).len(),
    ensures
        final(out).len() == old(out).len(),
        forall|i: int| 0 <= i < old(out).len() ==> #[trigger] final(out)[i] == pred_at(11, old(out)@, upper@, left, top_left, i),
{
    pred_add_row(11, out, upper, left, top_left);
}

/// Predictor 12: `clamp(left + top - top_left)` per channel.
pub fn pred_add_12(out: &mut [u32], upper: &[u32], left: u32, top_left: u32)
    requires
        upper.len() >= old(out).len(),
    ensures
        final(out).len() == old(out).len(),
        forall|i: int| 0 <= i < old(out).len() ==> #[trigger] final(out)[i] == pred_at(12, old(out)@, upper@, left, top_left, i),
{
    pred_add_row(12, out, upper, left, top_left);
}

/// Predictor 13: predictor 12 applied at half strength.
pub fn pred_add_13(out: &mut [u32], upper: &[u32], left: u32, top_left: u32)
    requires
        upper.len() >= old(out).len(),
    ensures
        final(out).len() == old(out).len(),
        forall|i: int| 0 <= i < old(out).len() ==> #[trigger] final(out)[i] == pred_at(13, old(out)@, upper@, left, top_left, i),
{
    pred_add_row(13, out, upper, left, top_left);
}


/// `a * b` for two byte-sized factors.
fn mul8(a: u32, b: u32) -> (r: u32)
    requires
        a <= 256,
        b <= 256,
    ensures
        r == a * b,
        r <= 65536,
{
    assert(a * b <= 65536) by (nonlinear_arith)
        requires a <= 256, b <= 256;
    a * b
}

/// Byte `k` of the little-endian encoding of `v`.
pub open spec fn le_byte(v: u32, k: int) -> u8 {
    chan(v, k) as u8
}

fn le_bytes(v: u32) -> (r: [u8; 4])
    ensures
        forall|k: int| 0 <= k < 4 ==> #[trigger] r[k] == le_byte(v, k),
{
    [channel(v, 0) as u8, channel(v, 1) as u8, channel(v, 2) as u8, channel(v, 3) as u8]
}

/// Extracts the green channel of each pixel of `src` into `dst`, for as many
/// pixels as both have room for.
pub fn extract_green(dst: &mut [u8], src: &[u8])
    ensures
        final(dst).len() == old(dst).len(),
        forall|i: int| 0 <= i < old(dst).len() ==> #[trigger] final(dst)[i] == if i < src.len() / 4 {
            src[4 * i + 2]
        } else {
            old(dst)[i]
        },
{
    let n = if dst.len() < src.len() / 4 { dst.len() } else { src.len() / 4 };
    let mut i: usize = 0;

    while i < n
        invariant
            dst.len() == old(dst).len(),
            n <= dst.len() && n <= src.len() / 4,
            n == dst.len() || n == src.len() / 4,
            i <= n,
            forall|j: int| 0 <= j < i ==> #[trigger] dst[j] == src[4 * j + 2],
            forall|j: int| i <= j < dst.len() ==> dst[j] == old(dst)[j],
        decreases n - i,
    {
        dst[i] = src[4 * i + 2];
        i = i + 1;
    }
}

/// What mapping `src` through the palette leaves in a destination that held
/// `dst`: each whole pixel both rows have becomes `palette[green]`.
pub open spec fn palette_mapped(dst: Seq<u8>, src: Seq<u8>, palette: Seq<u32>) -> Seq<u8> {
    Seq::new(
        dst.len(),
        |i: int|
            if i < dst.len() / 4 * 4 && i < src.len() / 4 * 4 {
                le_byte(palette[src[i - i % 4 + 2] as int], i % 4)
            } else {
                dst[i]
            },
    )
}

/// Mapping a row into a destination of the same length gives what mapping
/// it in place gives, for rows of whole pixels.
pub proof fn law_map_color32_matches_its_in_place_form(dst: Seq<u8>, src: Seq<u8>, palette: Seq<u32>)
    requires
        dst.len() == src.len(),
        src.len() % 4 == 0,
    ensures
        palette_mapped(dst, src, palette) == palette_mapped(src, src, palette),
{
    assert(palette_mapped(dst, src, palette) =~= palette_mapped(src, src, palette));
}

/// Replaces each whole pixel of `buf` by `palette[green]`, in place.
pub fn map_color32_inplace(buf: &mut [u8], palette: &[u32])
    requires
        palette.len() >= 256,
    ensures
        final(buf)@ == palette_mapped(old(buf)@, old(buf)@, palette@),
        final(buf).len() == old(buf).len(),
        forall|i: int| 0 <= i < old(buf).len() ==> #[trigger] final(buf)[i] == if i < old(buf).len() / 4 * 4 {
            le_byte(palette[old(buf)[i - i % 4 + 2] as int], i % 4)
        } else {
            old(buf)[i]
        },
{
    let n = buf.len() / 4;
    let mut x: usize = 0;

    while x < n
        invariant
            buf.len() == old(buf).len(),
            n == buf.len() / 4,
            x <= n,
            palette.len() >= 256,
            forall|i: int| 0 <= i < 4 * x ==> #[trigger] buf[i] == le_byte(
                palette[old(buf)[i - i % 4 + 2] as int],
                i % 4,
            ),
            forall|i: int| 4 * x <= i < buf.len() ==> buf[i] == old(buf)[i],
        decreases n - x,
    {
        let b = le_bytes(palette[buf[4 * x + 2] as usize]);

        buf[4 * x] = b[0];
        buf[4 * x + 1] = b[1];
        buf[4 * x + 2] = b[2];
        buf[4 * x + 3] = b[3];
        x = x + 1;
    }
}

/// Replaces each pixel of `src` by `palette[green]`, writing to `dst`, for as
/// many whole pixels as both have.
pub fn map_color32(dst: &mut [u8], src: &[u8], palette: &[u32])
    requires
        palette.len() >= 256,
    ensures
        final(dst)@ == palette_mapped(old(dst)@, src@, palette@),
        final(dst).len() == old(dst).len(),
        forall|i: int| 0 <= i < old(dst).len() ==> #[trigger] final(dst)[i] == if i < old(dst).len() / 4 * 4
            && i < src.len() / 4 * 4 {
            le_byte(palette[src[i - i % 4 + 2] as int], i % 4)
        } else {
            old(dst)[i]
        },
{
    let n = if dst.len() / 4 < src.len() / 4 { dst.len() / 4 } else { src.len() / 4 };
    let mut x: usize = 0;

    while x < n
        invariant
            dst.len() == old(dst).len(),
            n == if dst.len() / 4 < src.len() / 4 { dst.len() / 4 } else { src.len() / 4 },
            x <= n,
            palette.len() >= 256,
            forall|i: int| 0 <= i < 4 * x ==> #[trigger] dst[i] == le_byte(palette[src[i - i % 4 + 2] as int], i % 4),
            forall|i: int| 4 * x <= i < dst.len() ==> dst[i] == old(dst)[i],
        decreases n - x,
    {
        let b = le_bytes(palette[src[4 * x + 2] as usize]);

        dst[4 * x] = b[0];
        dst[4 * x + 1] = b[1];
        dst[4 * x + 2] = b[2];
        dst[4 * x + 3] = b[3];
        x = x + 1;
    }
}

/// The alpha a source pixel of alpha `sa` leaves over a destination of alpha
/// `da`, and the weight the destination colour keeps.
pub open spec fn keep_weight(da: u8, sa: u8) -> int {
    (da as int * (256 - sa as int)) / 256
}

/// Byte `k` of the pixel that results from blending `s` over `d`, both given as
/// the four bytes alpha, red, green, blue.
pub open spec fn blend_byte(d: Seq<u8>, s: Seq<u8>, k: int) -> u8 {
    let sa = s[0];
    if sa == 255 {
        s[k]
    } else if sa == 0 {
        d[k]
    } else {
        let tmp = keep_weight(d[0], sa);
        let ba = sa as int + tmp;
        if k == 0 {
            ba as u8
        } else {
            (((s[k] as int * sa as int + d[k] as int * tmp) * (16777216int / ba)) / 16777216) as u8
        }
    }
}

proof fn lemma_blend_bounds(da: int, sa: int, sk: int, dk: int)
    requires
        0 <= da <= 255,
        1 <= sa <= 254,
        0 <= sk <= 255,
        0 <= dk <= 255,
    ensures
        (da * (256 - sa)) / 256 < 256 - sa,
        (sk * sa + dk * ((da * (256 - sa)) / 256)) * (16777216int / (sa + (da * (256 - sa)) / 256))
            <= 255 * 16777216,
{
    let tmp = (da * (256 - sa)) / 256;
    assert(da * (256 - sa) < 256 * (256 - sa)) by (nonlinear_arith)
        requires da <= 255, sa <= 254;
    assert(tmp < 256 - sa) by (nonlinear_arith)
        requires tmp == (da * (256 - sa)) / 256, da * (256 - sa) < 256 * (256 - sa);
    let ba = sa + tmp;
    let v = sk * sa + dk * tmp;
    assert(tmp >= 0) by (nonlinear_arith)
        requires tmp == (da * (256 - sa)) / 256, da >= 0, sa <= 254;
    assert(v <= 255 * ba) by (nonlinear_arith)
        requires v == sk * sa + dk * tmp, sk <= 255, dk <= 255, sa >= 0, tmp >= 0, ba == sa + tmp;
    let scale = 16777216int / ba;
    assert(scale * ba <= 16777216) by (nonlinear_arith)
        requires scale == 16777216int / ba, ba >= 1;
    assert(v * scale <= 255 * 16777216) by (nonlinear_arith)
        requires v <= 255 * ba, scale * ba <= 16777216, v >= 0, scale >= 0;
}

/// An opaque source pixel replaces the destination outright.
pub proof fn law_an_opaque_pixel_replaces_the_destination(d: Seq<u8>, s: Seq<u8>, k: int)
    requires
        s[0] == 255,
    ensures
        blend_byte(d, s, k) == s[k],
{
}

/// A transparent source pixel leaves the destination as it was.
pub proof fn law_a_transparent_pixel_leaves_the_destination(d: Seq<u8>, s: Seq<u8>, k: int)
    requires
        s[0] == 0,
    ensures
        blend_byte(d, s, k) == d[k],
{
}

/// Alpha-blends a row of `src` pixels over `dst`; alpha is the first byte of
/// each. Whole pixels only, for as many as both rows have.
pub fn blend_row_argb(dst: &mut [u8], src: &[u8])
    ensures
        final(dst).len() == old(dst).len(),
        forall|i: int| 0 <= i < old(dst).len() ==> #[trigger] final(dst)[i] == if i < old(dst).len() / 4 * 4
            && i < src.len() / 4 * 4 {
            blend_byte(old(dst)@.subrange(i - i % 4, i - i % 4 + 4), src@.subrange(i - i % 4, i - i % 4 + 4), i % 4)
        } else {
            old(dst)[i]
        },
{
    let n = if dst.len() / 4 < src.len() / 4 { dst.len() / 4 } else { src.len() / 4 };
    let mut x: usize = 0;

    while x < n
        invariant
            dst.len() == old(dst).len(),
            n == if dst.len() / 4 < src.len() / 4 { dst.len() / 4 } else { src.len() / 4 },
            x <= n,
            forall|i: int| 0 <= i < 4 * x ==> #[trigger] dst[i] == blend_byte(
                old(dst)@.subrange(i - i % 4, i - i % 4 + 4),
                src@.subrange(i - i % 4, i - i % 4 + 4),
                i % 4,
            ),
            forall|i: int| 4 * x <= i < dst.len() ==> dst[i] == old(dst)[i],
        decreases n - x,
    {
        let o = 4 * x;
        let ghost d0 = dst@.subrange(o as int, o + 4);
        let ghost s0 = src@.subrange(o as int, o + 4);
        let sa = src[o] as u32;

        assert(d0 == old(dst)@.subrange(o as int, o + 4));
        if sa == 255 {
            dst[o] = src[o];
            dst[o + 1] = src[o + 1];
            dst[o + 2] = src[o + 2];
            dst[o + 3] = src[o + 3];
        } else if sa != 0 {
            let da = dst[o] as u32;
            proof {
                lemma_blend_bounds(da as int, sa as int, src[o + 1] as int, dst[o + 1] as int);
                lemma_blend_bounds(da as int, sa as int, src[o + 2] as int, dst[o + 2] as int);
                lemma_blend_bounds(da as int, sa as int, src[o + 3] as int, dst[o + 3] as int);
            }
            let tmp = mul8(da, 256 - sa) / 256;
            let ba = sa + tmp;
            let scale = 16777216 / ba;
            let v1 = mul8(src[o + 1] as u32, sa) + mul8(dst[o + 1] as u32, tmp);
            let v2 = mul8(src[o + 2] as u32, sa) + mul8(dst[o + 2] as u32, tmp);
            let v3 = mul8(src[o + 3] as u32, sa) + mul8(dst[o + 3] as u32, tmp);

            dst[o + 1] = ((v1 * scale) / 16777216) as u8;
            dst[o + 2] = ((v2 * scale) / 16777216) as u8;
            dst[o + 3] = ((v3 * scale) / 16777216) as u8;
            dst[o] = ba as u8;
        }
        proof {
            assert forall|i: int| 4 * x <= i < 4 * x + 4 implies #[trigger] dst[i] == blend_byte(
                old(dst)@.subrange(i - i % 4, i - i % 4 + 4),
                src@.subrange(i - i % 4, i - i % 4 + 4),
                i % 4,
            ) by {
                assert(i - i % 4 == o);
            }
        }
        x = x + 1;
    }
}

/// Byte `k` of `s` laid over `d` when the colour channels already carry alpha.
pub open spec fn blend_premult_byte(d: Seq<u8>, s: Seq<u8>, k: int) -> u8 {
    if s[0] == 255 {
        s[k]
    } else {
        (s[k] as int + (d[k] as int * (256 - s[0] as int)) / 256) as u8
    }
}

fn premult(s: u8, sa: u8, d: u8) -> (r: u8)
    ensures
        r == (s as int + (d as int * (256 - sa as int)) / 256) as u8,
{
    let v = s as u32 + mul8(d as u32, 256 - sa as u32) / 256;
    #[verifier::truncate] (v as u8)
}

/// The same as [`blend_row_argb`], for rows whose alpha is already multiplied
/// in.
pub fn blend_row_argb_premult(dst: &mut [u8], src: &[u8])
    ensures
        final(dst).len() == old(dst).len(),
        forall|i: int| 0 <= i < old(dst).len() ==> #[trigger] final(dst)[i] == if i < old(dst).len() / 4 * 4
            && i < src.len() / 4 * 4 {
            blend_premult_byte(old(dst)@.subrange(i - i % 4, i - i % 4 + 4), src@.subrange(i - i % 4, i - i % 4 + 4), i % 4)
        } else {
            old(dst)[i]
        },
{
    let n = if dst.len() / 4 < src.len() / 4 { dst.len() / 4 } else { src.len() / 4 };
    let mut x: usize = 0;

    while x < n
        invariant
            dst.len() == old(dst).len(),
            n == if dst.len() / 4 < src.len() / 4 { dst.len() / 4 } else { src.len() / 4 },
            x <= n,
            forall|i: int| 0 <= i < 4 * x ==> #[trigger] dst[i] == blend_premult_byte(
                old(dst)@.subrange(i - i % 4, i - i % 4 + 4),
                src@.subrange(i - i % 4, i - i % 4 + 4),
                i % 4,
            ),
            forall|i: int| 4 * x <= i < dst.len() ==> dst[i] == old(dst)[i],
        decreases n - x,
    {
        let o = 4 * x;
        let ghost d0 = dst@.subrange(o as int, o + 4);

        assert(d0 == old(dst)@.subrange(o as int, o + 4));
        if src[o] == 255 {
            dst[o] = src[o];
            dst[o + 1] = src[o + 1];
            dst[o + 2] = src[o + 2];
            dst[o + 3] = src[o + 3];
        } else {
            let sa = src[o];
            let b0 = premult(src[o], sa, dst[o]);
            let b1 = premult(src[o + 1], sa, dst[o + 1]);
            let b2 = premult(src[o + 2], sa, dst[o + 2]);
            let b3 = premult(src[o + 3], sa, dst[o + 3]);

            dst[o] = b0;
            dst[o + 1] = b1;
            dst[o + 2] = b2;
            dst[o + 3] = b3;
        }
        proof {
            assert forall|i: int| 4 * x <= i < 4 * x + 4 implies #[trigger] dst[i] == blend_premult_byte(
                old(dst)@.subrange(i - i % 4, i - i % 4 + 4),
                src@.subrange(i - i % 4, i - i % 4 + 4),
                i % 4,
            ) by {
                assert(i - i % 4 == o);
            }
        }
        x = x + 1;
    }
}

} // verus!
