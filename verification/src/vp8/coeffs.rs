//! The DCT coefficients of a VP8 frame: the tokens of one 4x4 block read
//! with the token probabilities of their position and context, each non-zero
//! one dequantised into its zigzag position; the blocks of a macroblock in
//! their order with the contexts their neighbours leave; and the frame
//! header's quantiser indices and token probability updates.

use vstd::prelude::*;
use vstd::arithmetic::power2::pow2;
use super::rac::{RangeCoder, coeff_fold, push_bit, uint_fold};
use super::frame::{Macroblock, Segmentation, clip_uintp2, clip_uintp2_of};
use crate::dsp::vp8::{luma_dc_wht, luma_dc_wht_dc, wht_out};

verus! {

/// The token probabilities: by coefficient position, by context (how many of
/// the neighbouring blocks had coefficients), then the eleven branches of the
/// token tree.
pub type BlockProbs = [[[u8; 11]; 3]; 16];

/// Where the `i`th coefficient in coding order sits in the 4x4 block.
pub open spec fn zigzag(i: int) -> int {
    seq![0int, 1, 4, 8, 5, 2, 3, 6, 9, 12, 13, 10, 7, 11, 14, 15][i]
}

/// The probabilities of the extra bits of the tokens of categories 3 to 6
/// (`cat` 0 to 3), ending at a zero.
pub open spec fn cat_probs(cat: int) -> Seq<u8> {
    if cat == 0 {
        seq![173u8, 148, 140, 0]
    } else if cat == 1 {
        seq![176u8, 155, 140, 135, 0]
    } else if cat == 2 {
        seq![180u8, 157, 141, 134, 130, 0]
    } else {
        seq![254u8, 254, 243, 230, 196, 177, 153, 140, 133, 130, 129, 0]
    }
}

/// The magnitude of a token known not to be zero, read with the branch
/// probabilities `tp`: one; two, three or four; the two small categories
/// (5 to 6, 7 to 10); or one of the four large ones, a base plus extra bits.
/// Gives the coder after it, the magnitude, and the context it sets for the
/// next position (1 after a one, 2 after anything larger).
pub open spec fn token_value(c: RangeCoder, buf: Seq<u8>, tp: [u8; 11]) -> (RangeCoder, int, int) {
    let s2 = c.got_prob(buf, tp[2]);
    if s2.1 == 0 {
        (s2.0, 1, 1)
    } else {
        let s3 = s2.0.got_prob(buf, tp[3]);
        if s3.1 == 0 {
            let s4 = s3.0.got_prob(buf, tp[4]);
            if s4.1 != 0 {
                let s5 = s4.0.got_prob(buf, tp[5]);
                (s5.0, 3 + s5.1, 2)
            } else {
                (s4.0, 2, 2)
            }
        } else {
            let s6 = s3.0.got_prob(buf, tp[6]);
            if s6.1 == 0 {
                let s7 = s6.0.got_prob(buf, tp[7]);
                if s7.1 == 0 {
                    let e = s7.0.got_prob(buf, 159);
                    (e.0, 5 + e.1, 2)
                } else {
                    let e1 = s7.0.got_prob(buf, 165);
                    let e2 = e1.0.got_prob(buf, 145);
                    (e2.0, 7 + 2 * e1.1 + e2.1, 2)
                }
            } else {
                let sa = s6.0.got_prob(buf, tp[8]);
                let sb = sa.0.got_prob(buf, tp[9 + sa.1]);
                let cat = 2 * sa.1 + sb.1;
                let x = coeff_fold(sb.0, buf, cat_probs(cat), 0, 0);
                (x.0, 3 + 8 * pow2(cat as nat) + x.1, 2)
            }
        }
    }
}

/// The tokens from position `i` on, in context `ctx`, once it is known that
/// the block does not end there: a zero token moves on (in context 0) without
/// an end-of-block check; any other is signed, dequantised (`qmul[0]` for the
/// DC position, `qmul[1]` after) and written at its zigzag position, and the
/// next position is checked for the end of the block. Gives the coder, the
/// block, and the position after the last coefficient read.
pub open spec fn coeffs_from(
    c: RangeCoder,
    buf: Seq<u8>,
    blk: Seq<i16>,
    probs: BlockProbs,
    i: int,
    ctx: int,
    qmul: [i16; 2],
) -> (RangeCoder, Seq<i16>, int)
    decreases 16 - i,
{
    if i < 0 || i >= 16 || ctx < 0 || ctx > 2 {
        (c, blk, 16)
    } else {
        let tp = probs[i][ctx];
        let z = c.got_prob(buf, tp[1]);
        if z.1 == 0 {
            if i + 1 == 16 {
                (z.0, blk, 16)
            } else {
                coeffs_from(z.0, buf, blk, probs, i + 1, 0, qmul)
            }
        } else {
            let t = token_value(z.0, buf, tp);
            let sg = t.0.prep(buf).signed_step(t.1 as i32);
            let q = if i != 0 { qmul[1] } else { qmul[0] };
            let blk2 = blk.update(zigzag(i), (sg.1 * q) as i16);
            if i + 1 >= 16 {
                (sg.0, blk2, 16)
            } else {
                let e = sg.0.got_prob(buf, probs[i + 1][t.2][0]);
                if e.1 == 0 {
                    (e.0, blk2, i + 1)
                } else {
                    coeffs_from(e.0, buf, blk2, probs, i + 1, t.2, qmul)
                }
            }
        }
    }
}

/// A block's coefficients from position `i` on in context `ctx`: none if the
/// first check says the block ends at once, else as [`coeffs_from`] says.
pub open spec fn block_coeffs(
    c: RangeCoder,
    buf: Seq<u8>,
    blk: Seq<i16>,
    probs: BlockProbs,
    i: int,
    ctx: int,
    qmul: [i16; 2],
) -> (RangeCoder, Seq<i16>, int) {
    let e = c.got_prob(buf, probs[i][ctx][0]);
    if e.1 == 0 {
        (e.0, blk, 0)
    } else {
        coeffs_from(e.0, buf, blk, probs, i, ctx, qmul)
    }
}

proof fn lemma_coeff_fold_bound(c: RangeCoder, buf: Seq<u8>, probs: Seq<u8>, i: int, v: i32)
    requires
        0 <= i <= probs.len(),
        0 <= v,
        (v + 1) * pow2((probs.len() - i) as nat) <= 0x10000,
    ensures
        0 <= coeff_fold(c, buf, probs, i, v).1 < (v + 1) * pow2((probs.len() - i) as nat),
    decreases probs.len() - i,
{
    vstd::arithmetic::power2::lemma_pow2_pos((probs.len() - i) as nat);
    if i < probs.len() && probs[i] != 0 {
        let (c1, b) = c.got_prob(buf, probs[i]);
        c.lemma_got_prob_bit(buf, probs[i]);
        let k = (probs.len() - i - 1) as nat;
        vstd::arithmetic::power2::lemma_pow2_unfold((probs.len() - i) as nat);
        vstd::arithmetic::power2::lemma_pow2_pos(k);
        assert((2 * v + b + 1) * pow2(k) <= (v + 1) * pow2((probs.len() - i) as nat))
            by (nonlinear_arith)
            requires
                b <= 1,
                pow2((probs.len() - i) as nat) == 2 * pow2(k),
                v >= 0,
        ;
        assert(2 * v + b + 1 <= (2 * v + b + 1) * pow2(k)) by (nonlinear_arith)
            requires
                pow2(k) >= 1,
                v >= 0,
        ;
        assert(push_bit(v, b) == 2 * v + b);
        lemma_coeff_fold_bound(c1, buf, probs, i + 1, push_bit(v, b));
    } else {
        assert(v < (v + 1) * pow2((probs.len() - i) as nat)) by (nonlinear_arith)
            requires
                pow2((probs.len() - i) as nat) >= 1,
                v >= 0,
        ;
    }
}

/// A token's magnitude is at least one and at most what the largest category
/// with all its extra bits set gives; the context it sets is one or two.
proof fn lemma_token_value_bounds(c: RangeCoder, buf: Seq<u8>, tp: [u8; 11])
    ensures
        1 <= token_value(c, buf, tp).1 <= 4163,
        1 <= token_value(c, buf, tp).2 <= 2,
{
    let s2 = c.got_prob(buf, tp[2]);
    c.lemma_got_prob_bit(buf, tp[2]);
    let s3 = s2.0.got_prob(buf, tp[3]);
    s2.0.lemma_got_prob_bit(buf, tp[3]);
    let s4 = s3.0.got_prob(buf, tp[4]);
    s3.0.lemma_got_prob_bit(buf, tp[4]);
    let s5 = s4.0.got_prob(buf, tp[5]);
    s4.0.lemma_got_prob_bit(buf, tp[5]);
    let s6 = s3.0.got_prob(buf, tp[6]);
    s3.0.lemma_got_prob_bit(buf, tp[6]);
    let s7 = s6.0.got_prob(buf, tp[7]);
    s6.0.lemma_got_prob_bit(buf, tp[7]);
    let e = s7.0.got_prob(buf, 159);
    s7.0.lemma_got_prob_bit(buf, 159);
    let e1 = s7.0.got_prob(buf, 165);
    s7.0.lemma_got_prob_bit(buf, 165);
    let e2 = e1.0.got_prob(buf, 145);
    e1.0.lemma_got_prob_bit(buf, 145);
    let sa = s6.0.got_prob(buf, tp[8]);
    s6.0.lemma_got_prob_bit(buf, tp[8]);
    let sb = sa.0.got_prob(buf, tp[9 + sa.1]);
    sa.0.lemma_got_prob_bit(buf, tp[9 + sa.1]);
    let cat = 2 * sa.1 + sb.1;
    vstd::arithmetic::power2::lemma2_to64();
    assert(cat_probs(cat).len() <= 12);
    lemma_coeff_fold_bound(sb.0, buf, cat_probs(cat), 0, 0);
    assert(pow2(cat as nat) <= 8);
}

/// The position a block's tokens end at lies after where they started, and
/// no further than the end of the block.
proof fn lemma_coeffs_from_range(
    c: RangeCoder,
    buf: Seq<u8>,
    blk: Seq<i16>,
    probs: BlockProbs,
    i: int,
    ctx: int,
    qmul: [i16; 2],
)
    requires
        0 <= i < 16,
        0 <= ctx <= 2,
    ensures
        i + 1 <= coeffs_from(c, buf, blk, probs, i, ctx, qmul).2 <= 16,
    decreases 16 - i,
{
    let tp = probs[i][ctx];
    let z = c.got_prob(buf, tp[1]);
    if z.1 == 0 {
        if i + 1 < 16 {
            lemma_coeffs_from_range(z.0, buf, blk, probs, i + 1, 0, qmul);
        }
    } else {
        let t = token_value(z.0, buf, tp);
        lemma_token_value_bounds(z.0, buf, tp);
        let sg = t.0.prep(buf).signed_step(t.1 as i32);
        let q = if i != 0 { qmul[1] } else { qmul[0] };
        let blk2 = blk.update(zigzag(i), (sg.1 * q) as i16);
        if i + 1 < 16 {
            let e = sg.0.got_prob(buf, probs[i + 1][t.2][0]);
            if e.1 != 0 {
                lemma_coeffs_from_range(e.0, buf, blk2, probs, i + 1, t.2, qmul);
            }
        }
    }
}

/// A block read where the first check says it ends at once reads only that
/// check: it keeps its coefficients and counts none; otherwise it counts at
/// least one past where it started, and never past the block's end.
pub proof fn law_a_block_that_ends_at_once_reads_nothing(
    c: RangeCoder,
    buf: Seq<u8>,
    blk: Seq<i16>,
    probs: BlockProbs,
    i: int,
    ctx: int,
    qmul: [i16; 2],
)
    requires
        0 <= i < 16,
        0 <= ctx <= 2,
    ensures
        c.got_prob(buf, probs[i][ctx][0]).1 == 0 ==> block_coeffs(c, buf, blk, probs, i, ctx, qmul) == (
            c.got_prob(buf, probs[i][ctx][0]).0,
            blk,
            0int,
        ),
        c.got_prob(buf, probs[i][ctx][0]).1 != 0 ==> i + 1 <= block_coeffs(c, buf, blk, probs, i, ctx, qmul).2 <= 16,
{
    let e = c.got_prob(buf, probs[i][ctx][0]);
    if e.1 != 0 {
        lemma_coeffs_from_range(e.0, buf, blk, probs, i, ctx, qmul);
    }
}

/// Whether the token tree read from `c` with the branch probabilities `tp`
/// leads to category 2 (magnitudes 7 to 10): not one, not two to four, not
/// category 3 and over, and not category 1.
pub open spec fn reaches_category_two(c: RangeCoder, buf: Seq<u8>, tp: [u8; 11]) -> bool {
    let s2 = c.got_prob(buf, tp[2]);
    let s3 = s2.0.got_prob(buf, tp[3]);
    let s6 = s3.0.got_prob(buf, tp[6]);
    let s7 = s6.0.got_prob(buf, tp[7]);
    s2.1 != 0 && s3.1 != 0 && s6.1 == 0 && s7.1 != 0
}

/// The two extra bits a category-2 token is followed by, as they are read:
/// the first with probability 165, the second with probability 145.
pub open spec fn category_two_bits(c: RangeCoder, buf: Seq<u8>, tp: [u8; 11]) -> (u32, u32) {
    let s7 = c.got_prob(buf, tp[2]).0.got_prob(buf, tp[3]).0.got_prob(buf, tp[6]).0.got_prob(buf, tp[7]);
    let e1 = s7.0.got_prob(buf, 165);
    let e2 = e1.0.got_prob(buf, 145);
    (e1.1, e2.1)
}

/// The small tokens, by the branches read: a first branch of zero is a one;
/// then a zero is two, or three or four with one more bit as the low bit;
/// category 1 is five or six, its one extra bit (read at probability 159)
/// added to five. Every token sets the next position's context to one for a
/// one and to two otherwise.
pub proof fn law_the_small_token_magnitudes(c: RangeCoder, buf: Seq<u8>, tp: [u8; 11])
    ensures
        ({
            let s2 = c.got_prob(buf, tp[2]);
            let s3 = s2.0.got_prob(buf, tp[3]);
            let s4 = s3.0.got_prob(buf, tp[4]);
            let s5 = s4.0.got_prob(buf, tp[5]);
            let s6 = s3.0.got_prob(buf, tp[6]);
            let s7 = s6.0.got_prob(buf, tp[7]);
            let e = s7.0.got_prob(buf, 159);
            let v = token_value(c, buf, tp);
            &&& s2.1 == 0 ==> v.1 == 1 && v.2 == 1
            &&& s2.1 != 0 ==> v.2 == 2 && v.1 >= 2
            &&& s2.1 != 0 && s3.1 == 0 && s4.1 == 0 ==> v.1 == 2
            &&& s2.1 != 0 && s3.1 == 0 && s4.1 != 0 ==> v.1 == 3 + s5.1 && 3 <= v.1 <= 4
            &&& s2.1 != 0 && s3.1 != 0 && s6.1 == 0 && s7.1 == 0 ==> v.1 == 5 + e.1 && 5 <= v.1 <= 6
            &&& s2.1 != 0 && s3.1 != 0 && s6.1 != 0 ==> v.1 >= 11
        }),
{
    lemma_token_value_bounds(c, buf, tp);
    let s2 = c.got_prob(buf, tp[2]);
    let s3 = s2.0.got_prob(buf, tp[3]);
    let s4 = s3.0.got_prob(buf, tp[4]);
    let s6 = s3.0.got_prob(buf, tp[6]);
    let s7 = s6.0.got_prob(buf, tp[7]);
    s4.0.lemma_got_prob_bit(buf, tp[5]);
    s7.0.lemma_got_prob_bit(buf, 159);
    let sa = s6.0.got_prob(buf, tp[8]);
    let sb = sa.0.got_prob(buf, tp[9 + sa.1]);
    s6.0.lemma_got_prob_bit(buf, tp[8]);
    sa.0.lemma_got_prob_bit(buf, tp[9 + sa.1]);
    let cat = 2 * sa.1 + sb.1;
    vstd::arithmetic::power2::lemma2_to64();
    lemma_coeff_fold_bound(sb.0, buf, cat_probs(cat), 0, 0);
}

/// Reading `k` extra bits, up to a probability of zero, appends them to `v`
/// as binary digits, most significant first: the result lies between `v`
/// shifted up by `k` and the next multiple, and its top digit is the first
/// bit read.
proof fn lemma_coeff_fold_digits(c: RangeCoder, buf: Seq<u8>, probs: Seq<u8>, i: int, v: int, k: nat)
    requires
        0 <= i,
        i + k < probs.len(),
        forall|j: int| i <= j < i + k ==> #[trigger] probs[j] != 0,
        probs[i + k] == 0,
        0 <= v,
        (v + 1) * pow2(k) <= 0x10000,
    ensures
        v * pow2(k) <= coeff_fold(c, buf, probs, i, v as i32).1 < (v + 1) * pow2(k),
        k >= 1 ==> (coeff_fold(c, buf, probs, i, v as i32).1 >= (2 * v + 1) * pow2((k - 1) as nat)
            <==> c.got_prob(buf, probs[i]).1 == 1),
    decreases k,
{
    vstd::arithmetic::power2::lemma_pow2_pos(k);
    if k == 0 {
        assert(v * pow2(0) == v && (v + 1) * pow2(0) == v + 1) by {
            vstd::arithmetic::power2::lemma2_to64();
        }
    } else {
        let (c1, b) = c.got_prob(buf, probs[i]);
        c.lemma_got_prob_bit(buf, probs[i]);
        let k1 = (k - 1) as nat;
        vstd::arithmetic::power2::lemma_pow2_unfold(k);
        vstd::arithmetic::power2::lemma_pow2_pos(k1);
        assert((2 * v + b + 1) * pow2(k1) <= (v + 1) * pow2(k)) by (nonlinear_arith)
            requires
                b <= 1,
                pow2(k) == 2 * pow2(k1),
                v >= 0,
        ;
        assert(2 * v + b + 1 <= (2 * v + b + 1) * pow2(k1)) by (nonlinear_arith)
            requires
                pow2(k1) >= 1,
                v >= 0,
        ;
        assert(push_bit(v as i32, b) == 2 * v + b);
        lemma_coeff_fold_digits(c1, buf, probs, i + 1, 2 * v + b, k1);
        assert(v * pow2(k) == 2 * v * pow2(k1)) by (nonlinear_arith)
            requires
                pow2(k) == 2 * pow2(k1),
        ;
        assert((2 * v + b) * pow2(k1) >= 2 * v * pow2(k1)) by (nonlinear_arith)
            requires
                b >= 0,
                pow2(k1) >= 1,
        ;
        assert(b == 1 ==> (2 * v + b) * pow2(k1) == (2 * v + 1) * pow2(k1));
        assert(b == 0 ==> (2 * v + b + 1) * pow2(k1) == (2 * v + 1) * pow2(k1));
    }
}

/// The large tokens: the two category bits pick one of four ranges, 11 to
/// 18, 19 to 34, 35 to 66 and 67 to 2114, and within it the extra bits are
/// the offset from the range's start, most significant first, so the first
/// extra bit says which half of the range the magnitude lies in.
pub proof fn law_the_large_token_ranges(c: RangeCoder, buf: Seq<u8>, tp: [u8; 11])
    ensures
        ({
            let s2 = c.got_prob(buf, tp[2]);
            let s3 = s2.0.got_prob(buf, tp[3]);
            let s6 = s3.0.got_prob(buf, tp[6]);
            let sa = s6.0.got_prob(buf, tp[8]);
            let sb = sa.0.got_prob(buf, tp[9 + sa.1]);
            let first = sb.0.got_prob(buf, if sa.1 == 0 && sb.1 == 0 { 173u8 } else if sa.1 == 0 { 176u8 } else if sb.1 == 0 { 180u8 } else { 254u8 });
            let v = token_value(c, buf, tp).1;
            &&& s2.1 != 0 && s3.1 != 0 && s6.1 != 0 ==> {
                &&& sa.1 == 0 && sb.1 == 0 ==> 11 <= v <= 18 && (v >= 15 <==> first.1 == 1)
                &&& sa.1 == 0 && sb.1 != 0 ==> 19 <= v <= 34 && (v >= 27 <==> first.1 == 1)
                &&& sa.1 != 0 && sb.1 == 0 ==> 35 <= v <= 66 && (v >= 51 <==> first.1 == 1)
                &&& sa.1 != 0 && sb.1 != 0 ==> 67 <= v <= 2114 && (v >= 1091 <==> first.1 == 1)
            }
        }),
{
    let s2 = c.got_prob(buf, tp[2]);
    let s3 = s2.0.got_prob(buf, tp[3]);
    let s6 = s3.0.got_prob(buf, tp[6]);
    let sa = s6.0.got_prob(buf, tp[8]);
    s6.0.lemma_got_prob_bit(buf, tp[8]);
    let sb = sa.0.got_prob(buf, tp[9 + sa.1]);
    sa.0.lemma_got_prob_bit(buf, tp[9 + sa.1]);
    let cat = 2 * sa.1 + sb.1;
    let p = cat_probs(cat);
    vstd::arithmetic::power2::lemma2_to64();
    let k: nat = (p.len() - 1) as nat;
    assert forall|j: int| 0 <= j < 0 + k implies #[trigger] p[j] != 0 by {}
    lemma_coeff_fold_digits(sb.0, buf, p, 0, 0, k);
    let x = coeff_fold(sb.0, buf, p, 0, 0).1;
    let first = sb.0.got_prob(buf, p[0]);
    if s2.1 != 0 && s3.1 != 0 && s6.1 != 0 {
        assert(token_value(c, buf, tp).1 == 3 + 8 * pow2(cat as nat) + x);
        if cat == 0 {
            assert(p[0] == 173 && k == 3 && pow2(k) == 8 && pow2((k - 1) as nat) == 4 && pow2(cat as nat) == 1);
            assert(sa.1 == 0 && sb.1 == 0);
            assert(11 <= token_value(c, buf, tp).1 <= 18);
            assert(token_value(c, buf, tp).1 >= 15 <==> first.1 == 1);
        } else if cat == 1 {
            assert(p[0] == 176 && k == 4 && pow2(k) == 16 && pow2((k - 1) as nat) == 8 && pow2(cat as nat) == 2);
            assert(sa.1 == 0 && sb.1 == 1);
            assert(19 <= token_value(c, buf, tp).1 <= 34);
            assert(token_value(c, buf, tp).1 >= 27 <==> first.1 == 1);
        } else if cat == 2 {
            assert(p[0] == 180 && k == 5 && pow2(k) == 32 && pow2((k - 1) as nat) == 16 && pow2(cat as nat) == 4);
            assert(sa.1 == 1 && sb.1 == 0);
            assert(35 <= token_value(c, buf, tp).1 <= 66);
            assert(x >= (2 * 0 + 1) * pow2((k - 1) as nat) <==> first.1 == 1);
            assert(x >= 16 <==> first.1 == 1);
            assert(token_value(c, buf, tp).1 >= 51 <==> first.1 == 1);
        } else {
            assert(p[0] == 254 && k == 11 && pow2(k) == 2048 && pow2((k - 1) as nat) == 1024 && pow2(cat as nat) == 8);
            assert(sa.1 == 1 && sb.1 == 1);
            assert(67 <= token_value(c, buf, tp).1 <= 2114);
            assert(x >= (2 * 0 + 1) * pow2((k - 1) as nat) <==> first.1 == 1);
            assert(x >= 1024 <==> first.1 == 1);
            assert(token_value(c, buf, tp).1 >= 1091 <==> first.1 == 1);
        }
    }
}

/// A category-2 token's magnitude is 7 plus its two extra bits read as a
/// binary number, most significant first: the bit read at probability 165 is
/// worth two, the one read at 145 is worth one.
pub proof fn law_category_two_extra_bits_are_most_significant_first(c: RangeCoder, buf: Seq<u8>, tp: [u8; 11])
    requires
        reaches_category_two(c, buf, tp),
    ensures
        7 <= token_value(c, buf, tp).1 <= 10,
        (token_value(c, buf, tp).1 - 7) / 2 == category_two_bits(c, buf, tp).0 as int,
        (token_value(c, buf, tp).1 - 7) % 2 == category_two_bits(c, buf, tp).1 as int,
{
    let s7 = c.got_prob(buf, tp[2]).0.got_prob(buf, tp[3]).0.got_prob(buf, tp[6]).0.got_prob(buf, tp[7]);
    let e1 = s7.0.got_prob(buf, 165);
    s7.0.lemma_got_prob_bit(buf, 165);
    e1.0.lemma_got_prob_bit(buf, 145);
}

/// The quantiser index a segment is dequantised at before any delta, said
/// directly: the frame's index without segmentation; with it, the segment's
/// own value in absolute mode and the frame's index adjusted by it in delta
/// mode.
pub open spec fn segment_raw_index(seg: Segmentation, i: int, yac: int) -> int {
    if !seg.enabled {
        yac
    } else if seg.absolute_vals {
        seg.base_quant[i] as int
    } else {
        yac + seg.base_quant[i] as int
    }
}

/// `v` clamped to the tables' 128 entries.
pub open spec fn table_clamp(v: int) -> int {
    if v < 0 {
        0
    } else if v > 127 {
        127
    } else {
        v
    }
}

/// Each segment's luma AC multiplier is the AC table's entry at the
/// segment's index: in delta mode the frame's index plus the segment's
/// value, in absolute mode the segment's value alone, whatever the frame's
/// index. A change to the frame's index moves every delta-mode segment and no
/// absolute-mode one.
pub proof fn law_a_segment_is_dequantised_at_its_own_index(
    seg: Segmentation,
    i: int,
    yac: int,
    q: Seq<int>,
    dc_q: [u8; 128],
    ac_q: [u16; 128],
    m: QMat,
)
    requires
        0 <= i < 4,
        qmat_ok(m, segment_base(seg, i, yac), q, dc_q, ac_q),
    ensures
        m.luma_qmul[1] == ac_q[table_clamp(segment_raw_index(seg, i, yac))],
        m.luma_qmul[0] == dc_q[table_clamp(segment_raw_index(seg, i, yac) + q[1])],
        m.luma_dc_qmul[0] == 2 * dc_q[table_clamp(segment_raw_index(seg, i, yac) + q[2])],
        m.chroma_qmul[1] == ac_q[table_clamp(segment_raw_index(seg, i, yac) + q[5])],
        m.chroma_qmul[0] == if dc_q[table_clamp(segment_raw_index(seg, i, yac) + q[4])] > 132 {
            132
        } else {
            dc_q[table_clamp(segment_raw_index(seg, i, yac) + q[4])] as int
        },
        m.luma_dc_qmul[1] >= 8,
        m.luma_dc_qmul[1] == if ac_q[table_clamp(segment_raw_index(seg, i, yac) + q[3])] * 101581 / 65536 < 8 {
            8
        } else {
            ac_q[table_clamp(segment_raw_index(seg, i, yac) + q[3])] * 101581 / 65536
        },
        seg.enabled && seg.absolute_vals ==> m.luma_qmul[1] == ac_q[table_clamp(seg.base_quant[i] as int)],
        seg.enabled && !seg.absolute_vals ==> m.luma_qmul[1] == ac_q[table_clamp(yac + seg.base_quant[i])],
{
    vstd::arithmetic::power2::lemma2_to64();
}

/// Reads the magnitude of a token known not to be zero, as
/// [`token_value`] says, and the context it sets for the next position.
fn read_token(c: &mut RangeCoder, buf: &[u8], tp: &[u8; 11]) -> (r: (i32, usize))
    requires
        old(c).wf(),
        old(c).spec_end() <= buf.len(),
    ensures
        (*final(c), r.0 as int, r.1 as int) == token_value(*old(c), buf@, *tp),
        1 <= r.0 <= 4163,
        1 <= r.1 <= 2,
        final(c).wf(),
        final(c).spec_end() == old(c).spec_end(),
{
    proof {
        lemma_token_value_bounds(*c, buf@, *tp);
    }
    if !c.get_prob_branchy(buf, tp[2]) {
        return (1, 1);
    }
    let coeff: i32;
    if !c.get_prob_branchy(buf, tp[3]) {
        let v: i32 = if c.get_prob_branchy(buf, tp[4]) {
            1 + c.get_prob(buf, tp[5]) as i32
        } else {
            0
        };
        coeff = v + 2;
    } else if !c.get_prob_branchy(buf, tp[6]) {
        if !c.get_prob_branchy(buf, tp[7]) {
            coeff = 5 + c.get_prob(buf, 159) as i32;
        } else {
            let hi = c.get_prob(buf, 165) as i32;
            let lo = c.get_prob(buf, 145) as i32;
            coeff = 7 + 2 * hi + lo;
        }
    } else {
        let a = c.get_prob(buf, tp[8]) as usize;
        let b = c.get_prob(buf, tp[9 + a]) as usize;
        let cat = 2 * a + b;
        let extra: i32;
        if cat == 0 {
            let p: [u8; 4] = [173, 148, 140, 0];
            proof { assert(p@ =~= cat_probs(0)); }
            extra = c.get_coeff(buf, p.as_slice());
        } else if cat == 1 {
            let p: [u8; 5] = [176, 155, 140, 135, 0];
            proof { assert(p@ =~= cat_probs(1)); }
            extra = c.get_coeff(buf, p.as_slice());
        } else if cat == 2 {
            let p: [u8; 6] = [180, 157, 141, 134, 130, 0];
            proof { assert(p@ =~= cat_probs(2)); }
            extra = c.get_coeff(buf, p.as_slice());
        } else {
            let p: [u8; 12] = [254, 254, 243, 230, 196, 177, 153, 140, 133, 130, 129, 0];
            proof { assert(p@ =~= cat_probs(3)); }
            extra = c.get_coeff(buf, p.as_slice());
        }
        proof {
            vstd::arithmetic::power2::lemma2_to64();
            assert(cat < 4 ==> (8i32 << cat as u32) == 8 * pow2(cat as nat)) by {
                assert(8i32 << 0u32 == 8 && 8i32 << 1u32 == 16 && 8i32 << 2u32 == 32 && 8i32 << 3u32 == 64)
                    by (bit_vector);
            }
        }
        coeff = 3 + (8i32 << cat as u32) + extra;
    }
    (coeff, 2)
}

/// Reads a block's tokens from position `i` in context `ctx`, once it is
/// known that the block does not end there, as [`coeffs_from`] says; gives
/// the position after the last coefficient read.
fn decode_coeffs_inner(
    c: &mut RangeCoder,
    buf: &[u8],
    block: &mut [i16; 16],
    probs: &BlockProbs,
    first: usize,
    first_ctx: usize,
    qmul: [i16; 2],
) -> (r: i32)
    requires
        old(c).wf(),
        old(c).spec_end() <= buf.len(),
        first < 16,
        first_ctx < 3,
    ensures
        (*final(c), final(block)@, r as int) == coeffs_from(*old(c), buf@, old(block)@, *probs, first as int, first_ctx as int, qmul),
        final(c).wf(),
        final(c).spec_end() == old(c).spec_end(),
{
    let zig: [usize; 16] = [0, 1, 4, 8, 5, 2, 3, 6, 9, 12, 13, 10, 7, 11, 14, 15];
    let ghost target = coeffs_from(*c, buf@, block@, *probs, first as int, first_ctx as int, qmul);
    let mut i = first;
    let mut ctx = first_ctx;
    loop
        invariant
            c.wf(),
            c.spec_end() == old(c).spec_end(),
            old(c).spec_end() <= buf.len(),
            i < 16,
            ctx < 3,
            coeffs_from(*c, buf@, block@, *probs, i as int, ctx as int, qmul) == target,
            target == coeffs_from(*old(c), buf@, old(block)@, *probs, first as int, first_ctx as int, qmul),
            forall|k: int| 0 <= k < 16 ==> #[trigger] zig@[k] as int == zigzag(k),
        decreases 16 - i,
    {
        let tp: [u8; 11] = probs[i][ctx];
        if !c.get_prob_branchy(buf, tp[1]) {
            i = i + 1;
            if i == 16 {
                return 16;
            }
            ctx = 0;
            continue;
        }
        let (coeff, next_ctx) = read_token(c, buf, &tp);
        proof {
            c.prep(buf@).lemma_signed_step_value(coeff);
        }
        let s = c.get_signed(buf, coeff);
        let q = if i != 0 {
            qmul[1]
        } else {
            qmul[0]
        };
        proof {
            assert(zig@[i as int] as int == zigzag(i as int));
            assert(-4163 <= s <= 4163);
            assert(-4163 * 32768 <= s * q <= 4163 * 32768) by (nonlinear_arith)
                requires
                    -4163 <= s <= 4163,
                    -32768 <= q <= 32767,
            ;
        }
        block[zig[i]] = (s * q as i32) as i16;
        i = i + 1;
        if i >= 16 {
            return 16;
        }
        ctx = next_ctx;
        if !c.get_prob_branchy(buf, probs[i][ctx][0]) {
            return i as i32;
        }
    }
}

/// Reads the coefficients of one 4x4 block from position `i`, in the context
/// `nz` that the neighbouring blocks give, each dequantised by `qmul`
/// (`qmul[0]` for the DC position) into its zigzag place. Returns the
/// position one past the last coefficient read, or 0 where the block holds
/// none.
pub fn decode_block_coeffs(
    c: &mut RangeCoder,
    buf: &[u8],
    block: &mut [i16; 16],
    probs: &BlockProbs,
    i: usize,
    nz: i32,
    qmul: [i16; 2],
) -> (r: i32)
    requires
        old(c).wf(),
        old(c).spec_end() <= buf.len(),
        i < 16,
        0 <= nz < 3,
    ensures
        (*final(c), final(block)@, r as int) == block_coeffs(*old(c), buf@, old(block)@, *probs, i as int, nz as int, qmul),
        0 <= r <= 16,
        final(c).wf(),
        final(c).spec_end() == old(c).spec_end(),
{
    proof {
        let e = c.got_prob(buf@, probs[i as int][nz as int][0]);
        lemma_coeffs_from_range(e.0, buf@, block@, *probs, i as int, nz as int, qmul);
    }
    if !c.get_prob_branchy(buf, probs[i][nz as usize][0]) {
        return 0;
    }
    decode_coeffs_inner(c, buf, block, probs, i, nz as usize, qmul)
}

/// The dequantisation multipliers of one segment, `[DC, AC]` for each kind
/// of block.
#[derive(Clone, Copy, Debug)]
pub struct QMat {
    pub luma_qmul: [i16; 2],
    pub luma_dc_qmul: [i16; 2],
    pub chroma_qmul: [i16; 2],
}

/// The token probabilities of the four block types: luma after a separate
/// DC block, the DC block, chroma, and luma holding its own DC.
pub type TokenProbs = [BlockProbs; 4];

/// A macroblock's coefficient state as its blocks are read: the coder, the
/// sixteen luma and eight chroma blocks, the contexts above and to the left
/// (four luma, then the chroma ones interleaved, then the DC block's), the
/// per-block counts kept for the inverse transforms, and the sum of the
/// counts so far.
pub struct MbCoeffs {
    pub c: RangeCoder,
    pub luma: Seq<Seq<i16>>,
    pub chroma: Seq<Seq<i16>>,
    pub top: Seq<u8>,
    pub left: Seq<u8>,
    pub cache: Seq<Seq<u8>>,
    pub total: int,
}

/// The blocks of an array of them, each as its sixteen coefficients.
pub open spec fn blocks_view<const N: usize>(a: [[i16; 16]; N]) -> Seq<Seq<i16>> {
    a@.map_values(|b: [i16; 16]| b@)
}

/// The rows of the per-block counts.
pub open spec fn cache_view(a: [[u8; 4]; 6]) -> Seq<Seq<u8>> {
    a@.map_values(|r: [u8; 4]| r@)
}

/// The state that the arrays of a macroblock decode stand for.
pub open spec fn mb_state(
    c: RangeCoder,
    luma: [[i16; 16]; 16],
    chroma: [[i16; 16]; 8],
    top: [u8; 9],
    left: [u8; 9],
    cache: [[u8; 4]; 6],
    total: int,
) -> MbCoeffs {
    MbCoeffs {
        c,
        luma: blocks_view(luma),
        chroma: blocks_view(chroma),
        top: top@,
        left: left@,
        cache: cache_view(cache),
        total,
    }
}

/// The context a block leaves to its neighbours: whether it had coefficients.
pub open spec fn nz_flag(n: int) -> u8 {
    if n != 0 {
        1
    } else {
        0
    }
}

/// The `k`th luma block (row `k / 4`, column `k % 4`) read from position
/// `start` with `probs` and `qmul`; `dc` is one where a separate DC block had
/// coefficients, and is added to the count kept for the block.
pub open spec fn luma_step(
    s: MbCoeffs,
    buf: Seq<u8>,
    probs: BlockProbs,
    start: int,
    qmul: [i16; 2],
    dc: int,
    k: int,
) -> MbCoeffs {
    let y = k / 4;
    let x = k % 4;
    let r = block_coeffs(s.c, buf, s.luma[k], probs, start, s.left[y] + s.top[x], qmul);
    MbCoeffs {
        c: r.0,
        luma: s.luma.update(k, r.1),
        chroma: s.chroma,
        top: s.top.update(x, nz_flag(r.2)),
        left: s.left.update(y, nz_flag(r.2)),
        cache: s.cache.update(y, s.cache[y].update(x, (r.2 + dc) as u8)),
        total: s.total + r.2,
    }
}

/// The first `n` luma blocks, in raster order.
pub open spec fn luma_steps(
    s: MbCoeffs,
    buf: Seq<u8>,
    probs: BlockProbs,
    start: int,
    qmul: [i16; 2],
    dc: int,
    n: int,
) -> MbCoeffs
    decreases n,
{
    if n <= 0 {
        s
    } else {
        luma_step(luma_steps(s, buf, probs, start, qmul, dc, n - 1), buf, probs, start, qmul, dc, n - 1)
    }
}

/// The `k`th chroma block: plane `k / 4` (the first two blocks of each
/// plane on one row), whose contexts sit interleaved after the luma ones.
pub open spec fn chroma_step(s: MbCoeffs, buf: Seq<u8>, probs: BlockProbs, qmul: [i16; 2], k: int) -> MbCoeffs {
    let p = 4 + k / 4;
    let y = (k % 4) / 2;
    let x = k % 2;
    let r = block_coeffs(s.c, buf, s.chroma[k], probs, 0, s.left[p + 2 * y] + s.top[p + 2 * x], qmul);
    MbCoeffs {
        c: r.0,
        luma: s.luma,
        chroma: s.chroma.update(k, r.1),
        top: s.top.update(p + 2 * x, nz_flag(r.2)),
        left: s.left.update(p + 2 * y, nz_flag(r.2)),
        cache: s.cache.update(p, s.cache[p].update(2 * y + x, r.2 as u8)),
        total: s.total + r.2,
    }
}

/// The first `n` chroma blocks.
pub open spec fn chroma_steps(s: MbCoeffs, buf: Seq<u8>, probs: BlockProbs, qmul: [i16; 2], n: int) -> MbCoeffs
    decreases n,
{
    if n <= 0 {
        s
    } else {
        chroma_step(chroma_steps(s, buf, probs, qmul, n - 1), buf, probs, qmul, n - 1)
    }
}

/// A macroblock's DC block: read where the macroblock is not predicted in
/// 4x4 sub-blocks, its contexts set, and where it has coefficients its
/// inverse transform written into the DC of each luma block and the block
/// cleared (only its first entry where that is its only coefficient).
/// Gives the state after it, the DC block, and the count it had.
pub open spec fn dc_step(s: MbCoeffs, dc: Seq<i16>, buf: Seq<u8>, probs: BlockProbs, qmul: [i16; 2]) -> (MbCoeffs, Seq<i16>, int) {
    let r = block_coeffs(s.c, buf, dc, probs, 0, s.top[8] + s.left[8], qmul);
    let luma = if r.2 == 0 {
        s.luma
    } else if r.2 == 1 {
        Seq::new(16, |j: int| s.luma[j].update(0, ((r.1[0] + 3) / 8) as i16))
    } else {
        Seq::new(16, |j: int| s.luma[j].update(0, wht_out(r.1, j)))
    };
    let dc2 = if r.2 == 0 {
        r.1
    } else if r.2 == 1 {
        r.1.update(0, 0)
    } else {
        Seq::new(16, |j: int| 0i16)
    };
    (
        MbCoeffs {
            c: r.0,
            luma,
            chroma: s.chroma,
            top: s.top.update(8, nz_flag(r.2)),
            left: s.left.update(8, nz_flag(r.2)),
            cache: s.cache,
            total: s.total + r.2,
        },
        dc2,
        r.2,
    )
}

/// A whole macroblock's coefficients: the DC block unless the macroblock is
/// predicted in 4x4 sub-blocks, then the sixteen luma blocks (from position
/// one, with the type 0 probabilities, after a DC block; from zero with the
/// type 3 ones otherwise), then the eight chroma ones. Gives the state after
/// and the DC block.
pub open spec fn mb_coeffs(
    s: MbCoeffs,
    dc: Seq<i16>,
    buf: Seq<u8>,
    probs: TokenProbs,
    q: QMat,
    intra4x4: bool,
) -> (MbCoeffs, Seq<i16>) {
    if intra4x4 {
        (chroma_steps(luma_steps(s, buf, probs[3], 0, q.luma_qmul, 0, 16), buf, probs[2], q.chroma_qmul, 8), dc)
    } else {
        let d = dc_step(s, dc, buf, probs[1], q.luma_dc_qmul);
        let bdc = if d.2 != 0 {
            1int
        } else {
            0
        };
        (chroma_steps(luma_steps(d.0, buf, probs[0], 1, q.luma_qmul, bdc, 16), buf, probs[2], q.chroma_qmul, 8), d.1)
    }
}

/// Whether the coder and arrays hold the coefficient state `s`.
pub open spec fn held_in(
    s: MbCoeffs,
    c: RangeCoder,
    luma: [[i16; 16]; 16],
    chroma: [[i16; 16]; 8],
    top: [u8; 9],
    left: [u8; 9],
    cache: [[u8; 4]; 6],
) -> bool {
    &&& c == s.c
    &&& blocks_view(luma) == s.luma
    &&& blocks_view(chroma) == s.chroma
    &&& top@ == s.top
    &&& left@ == s.left
    &&& cache_view(cache) == s.cache
}

/// [`mb_coeffs`] from the state the arrays of a macroblock decode stand for,
/// with no count yet.
pub open spec fn mb_result(
    c: RangeCoder,
    luma: [[i16; 16]; 16],
    chroma: [[i16; 16]; 8],
    top: [u8; 9],
    left: [u8; 9],
    cache: [[u8; 4]; 6],
    dc: Seq<i16>,
    buf: Seq<u8>,
    probs: TokenProbs,
    q: QMat,
    intra4x4: bool,
) -> (MbCoeffs, Seq<i16>) {
    mb_coeffs(mb_state(c, luma, chroma, top, left, cache, 0), dc, buf, probs, q, intra4x4)
}

/// Every context entry is a flag.
pub open spec fn flags(a: [u8; 9]) -> bool {
    forall|j: int| 0 <= j < 9 ==> #[trigger] a@[j] <= 1
}

/// Reads the coefficients of a macroblock, as [`mb_coeffs`] says: the DC
/// block first unless `mb` is predicted in 4x4 sub-blocks, then the luma and
/// chroma blocks, keeping the contexts `top` and `left` and the per-block
/// counts in `cache`. A macroblock none of whose blocks had a coefficient is
/// marked as skipped.
pub fn decode_mb_coeffs(
    c: &mut RangeCoder,
    buf: &[u8],
    probs: &TokenProbs,
    q: &QMat,
    mb: &mut Macroblock,
    luma: &mut [[i16; 16]; 16],
    chroma: &mut [[i16; 16]; 8],
    dc: &mut [i16; 16],
    top: &mut [u8; 9],
    left: &mut [u8; 9],
    cache: &mut [[u8; 4]; 6],
)
    requires
        old(c).wf(),
        old(c).spec_end() <= buf.len(),
        flags(*old(top)),
        flags(*old(left)),
    ensures
        held_in(
            mb_result(*old(c), *old(luma), *old(chroma), *old(top), *old(left), *old(cache), old(dc)@, buf@, *probs, *q, old(mb).intra4x4).0,
            *final(c), *final(luma), *final(chroma), *final(top), *final(left), *final(cache),
        ),
        final(dc)@ == mb_result(*old(c), *old(luma), *old(chroma), *old(top), *old(left), *old(cache), old(dc)@, buf@, *probs, *q, old(mb).intra4x4).1,
        final(mb).intra4x4 == old(mb).intra4x4,
        final(mb).skip == (old(mb).skip || mb_result(*old(c), *old(luma), *old(chroma), *old(top), *old(left), *old(cache), old(dc)@, buf@, *probs, *q, old(mb).intra4x4).0.total == 0),
        final(c).wf(),
        final(c).spec_end() == old(c).spec_end(),
        flags(*final(top)),
        flags(*final(left)),
{
    let ghost s0 = mb_state(*c, *luma, *chroma, *top, *left, *cache, 0);
    let ghost d0 = dc@;
    let mut total: i32 = 0;
    let mut start: usize = 0;
    let mut lp: usize = 3;
    let mut bdc: i32 = 0;
    if !mb.intra4x4 {
        let nzp = (top[8] + left[8]) as i32;
        let n = decode_block_coeffs(c, buf, dc, &probs[1], 0, nzp, q.luma_dc_qmul);
        let f: u8 = if n != 0 {
            1
        } else {
            0
        };
        top[8] = f;
        left[8] = f;
        if n != 0 {
            total = n;
            bdc = 1;
            if n == 1 {
                luma_dc_wht_dc(luma, dc);
            } else {
                luma_dc_wht(luma, dc);
            }
        }
        start = 1;
        lp = 0;
        proof {
            let d = dc_step(s0, d0, buf@, probs[1], q.luma_dc_qmul);
            assert(blocks_view(*luma) =~= d.0.luma);
            assert(dc@ =~= d.1);
            assert(top@ =~= d.0.top);
            assert(left@ =~= d.0.left);
            assert(mb_state(*c, *luma, *chroma, *top, *left, *cache, total as int) == d.0);
        }
    }
    let ghost s1 = mb_state(*c, *luma, *chroma, *top, *left, *cache, total as int);
    let mut k: usize = 0;
    while k < 16
        invariant
            k <= 16,
            c.wf(),
            c.spec_end() == old(c).spec_end(),
            old(c).spec_end() <= buf.len(),
            flags(*top),
            flags(*left),
            0 <= total <= 16 + 16 * k,
            0 <= bdc <= 1,
            start <= 1,
            lp < 4,
            mb_state(*c, *luma, *chroma, *top, *left, *cache, total as int) == luma_steps(
                s1, buf@, probs[lp as int], start as int, q.luma_qmul, bdc as int, k as int,
            ),
        decreases 16 - k,
    {
        let y = k / 4;
        let x = k % 4;
        let nzp = (left[y] + top[x]) as i32;
        let mut blk = luma[k];
        let n = decode_block_coeffs(c, buf, &mut blk, &probs[lp], start, nzp, q.luma_qmul);
        luma[k] = blk;
        cache[y][x] = (n + bdc) as u8;
        let f: u8 = if n != 0 {
            1
        } else {
            0
        };
        top[x] = f;
        left[y] = f;
        total = total + n;
        proof {
            let prev = luma_steps(s1, buf@, probs[lp as int], start as int, q.luma_qmul, bdc as int, k as int);
            let nx = luma_step(prev, buf@, probs[lp as int], start as int, q.luma_qmul, bdc as int, k as int);
            assert(blocks_view(*luma) =~= nx.luma);
            assert(top@ =~= nx.top);
            assert(left@ =~= nx.left);
            assert(cache_view(*cache) =~= nx.cache);
            assert(cache_view(*cache)[y as int] =~= nx.cache[y as int]);
        }
        k = k + 1;
    }
    let ghost s2 = mb_state(*c, *luma, *chroma, *top, *left, *cache, total as int);
    let mut k: usize = 0;
    while k < 8
        invariant
            k <= 8,
            c.wf(),
            c.spec_end() == old(c).spec_end(),
            old(c).spec_end() <= buf.len(),
            flags(*top),
            flags(*left),
            0 <= total <= 272 + 16 * k,
            mb_state(*c, *luma, *chroma, *top, *left, *cache, total as int) == chroma_steps(
                s2, buf@, probs[2], q.chroma_qmul, k as int,
            ),
        decreases 8 - k,
    {
        let p = 4 + k / 4;
        let y = (k % 4) / 2;
        let x = k % 2;
        let nzp = (left[p + 2 * y] + top[p + 2 * x]) as i32;
        let mut blk = chroma[k];
        let n = decode_block_coeffs(c, buf, &mut blk, &probs[2], 0, nzp, q.chroma_qmul);
        chroma[k] = blk;
        cache[p][2 * y + x] = n as u8;
        let f: u8 = if n != 0 {
            1
        } else {
            0
        };
        top[p + 2 * x] = f;
        left[p + 2 * y] = f;
        total = total + n;
        proof {
            let prev = chroma_steps(s2, buf@, probs[2], q.chroma_qmul, k as int);
            let nx = chroma_step(prev, buf@, probs[2], q.chroma_qmul, k as int);
            assert(blocks_view(*chroma) =~= nx.chroma);
            assert(top@ =~= nx.top);
            assert(left@ =~= nx.left);
            assert(cache_view(*cache)[p as int] =~= nx.cache[p as int]);
            assert(cache_view(*cache) =~= nx.cache);
        }
        k = k + 1;
    }
    if total == 0 {
        mb.skip = true;
    }
}

/// The band of coefficient position `p`: positions that share a band share
/// their token probabilities.
pub open spec fn band_of(p: int) -> int {
    seq![0int, 1, 2, 3, 6, 4, 5, 6, 6, 6, 6, 6, 6, 6, 6, 7][p]
}

/// The probabilities of a probability update, by block type, band, context
/// and branch.
pub type UpdateProbs = [[[[u8; 11]; 3]; 8]; 4];

/// The token probabilities as a function of block type, position, context
/// and branch.
pub open spec fn token_fn(t: TokenProbs) -> spec_fn(int, int, int, int) -> u8 {
    |a: int, p: int, x: int, y: int| t[a][p][x][y]
}

/// The first `n` probability updates, in the order block type, band,
/// context, branch: each is present where a bit read with its update
/// probability is set, and is then an eight-bit probability that every
/// position of its band takes. Gives the coder after and the probabilities.
pub open spec fn token_updates(
    c: RangeCoder,
    buf: Seq<u8>,
    upd: UpdateProbs,
    t: spec_fn(int, int, int, int) -> u8,
    n: int,
) -> (RangeCoder, spec_fn(int, int, int, int) -> u8)
    decreases n,
{
    if n <= 0 {
        (c, t)
    } else {
        let prev = token_updates(c, buf, upd, t, n - 1);
        let m = n - 1;
        let i = m / 264;
        let j = (m / 33) % 8;
        let k = (m / 11) % 3;
        let l = m % 11;
        let b = prev.0.got_prob(buf, upd[i][j][k][l]);
        if b.1 == 0 {
            (b.0, prev.1)
        } else {
            let v = uint_fold(b.0, buf, 8);
            (
                v.0,
                |a: int, p: int, x: int, y: int|
                    if a == i && band_of(p) == j && x == k && y == l {
                        v.1 as u8
                    } else {
                        (prev.1)(a, p, x, y)
                    },
            )
        }
    }
}

/// The updates read do not depend on the probabilities they start from,
/// and probabilities that agree on every position agree after them.
pub proof fn lemma_token_updates_agree(
    c: RangeCoder,
    buf: Seq<u8>,
    upd: UpdateProbs,
    t1: spec_fn(int, int, int, int) -> u8,
    t2: spec_fn(int, int, int, int) -> u8,
    n: int,
)
    requires
        forall|a: int, p: int, x: int, y: int|
            0 <= a < 4 && 0 <= p < 16 && 0 <= x < 3 && 0 <= y < 11 ==> #[trigger] t1(a, p, x, y) == t2(a, p, x, y),
    ensures
        token_updates(c, buf, upd, t1, n).0 == token_updates(c, buf, upd, t2, n).0,
        forall|a: int, p: int, x: int, y: int|
            0 <= a < 4 && 0 <= p < 16 && 0 <= x < 3 && 0 <= y < 11 ==> #[trigger] (token_updates(c, buf, upd, t1, n).1)(a, p, x, y)
                == (token_updates(c, buf, upd, t2, n).1)(a, p, x, y),
    decreases n,
{
    if n > 0 {
        lemma_token_updates_agree(c, buf, upd, t1, t2, n - 1);
    }
}

/// Reads the frame header's token probability updates into `token`, as
/// [`token_updates`] says over all of them.
pub fn update_token_probs(c: &mut RangeCoder, buf: &[u8], upd: &UpdateProbs, token: &mut TokenProbs)
    requires
        old(c).wf(),
        old(c).spec_end() <= buf.len(),
    ensures
        *final(c) == token_updates(*old(c), buf@, *upd, token_fn(*old(token)), 1056).0,
        forall|a: int, p: int, x: int, y: int|
            0 <= a < 4 && 0 <= p < 16 && 0 <= x < 3 && 0 <= y < 11 ==> #[trigger] final(token)[a][p][x][y]
                == (token_updates(*old(c), buf@, *upd, token_fn(*old(token)), 1056).1)(a, p, x, y),
        final(c).wf(),
        final(c).spec_end() == old(c).spec_end(),
{
    let band: [usize; 16] = [0, 1, 2, 3, 6, 4, 5, 6, 6, 6, 6, 6, 6, 6, 6, 7];
    let ghost c0 = *c;
    let ghost t0 = token_fn(*token);
    let mut n: usize = 0;
    while n < 1056
        invariant
            n <= 1056,
            c.wf(),
            c.spec_end() == old(c).spec_end(),
            old(c).spec_end() <= buf.len(),
            c0 == *old(c),
            t0 == token_fn(*old(token)),
            forall|q: int| 0 <= q < 16 ==> #[trigger] band@[q] as int == band_of(q),
            *c == token_updates(c0, buf@, *upd, t0, n as int).0,
            forall|a: int, p: int, x: int, y: int|
                0 <= a < 4 && 0 <= p < 16 && 0 <= x < 3 && 0 <= y < 11 ==> #[trigger] token[a][p][x][y]
                    == (token_updates(c0, buf@, *upd, t0, n as int).1)(a, p, x, y),
        decreases 1056 - n,
    {
        let i = n / 264;
        let j = (n / 33) % 8;
        let k = (n / 11) % 3;
        let l = n % 11;
        let ghost prev = token_updates(c0, buf@, *upd, t0, n as int);
        if c.get_prob_branchy(buf, upd[i][j][k][l]) {
            let prob = c.get_uint(buf, 8) as u8;
            let ghost before = *token;
            let mut p: usize = 0;
            while p < 16
                invariant
                    p <= 16,
                    i < 4,
                    k < 3,
                    l < 11,
                    forall|q: int| 0 <= q < 16 ==> #[trigger] band@[q] as int == band_of(q),
                    forall|a: int, q: int, x: int, y: int|
                        0 <= a < 4 && 0 <= q < 16 && 0 <= x < 3 && 0 <= y < 11 ==> #[trigger] token[a][q][x][y]
                            == if a == i && q < p && band_of(q) == j && x == k && y == l {
                            prob
                        } else {
                            before[a][q][x][y]
                        },
                decreases 16 - p,
            {
                if band[p] == j {
                    token[i][p][k][l] = prob;
                }
                p = p + 1;
            }
            proof {
                vstd::arithmetic::power2::lemma2_to64();
            }
        }
        n = n + 1;
    }
}

/// What [`RangeCoder::get_sint`] reads: a flag, then where it is set a
/// magnitude of `bits` bits and a sign.
pub open spec fn sint_of(c: RangeCoder, buf: Seq<u8>, bits: nat) -> (RangeCoder, int) {
    let (c1, f) = c.got_prob(buf, 128);
    if f == 0 {
        (c1, 0)
    } else {
        let (c2, v) = uint_fold(c1, buf, bits);
        let (c3, s) = c2.got_prob(buf, 128);
        (c3, if s != 0 { -v } else { v as int })
    }
}

/// The quantiser indices of a frame header: the seven-bit base, then the
/// deltas for luma DC, second-order DC and AC, and chroma DC and AC.
pub open spec fn quant_indices(c: RangeCoder, buf: Seq<u8>) -> (RangeCoder, Seq<int>) {
    let a = uint_fold(c, buf, 7);
    let b = sint_of(a.0, buf, 4);
    let d = sint_of(b.0, buf, 4);
    let e = sint_of(d.0, buf, 4);
    let f = sint_of(e.0, buf, 4);
    let g = sint_of(f.0, buf, 4);
    (g.0, seq![a.1 as int, b.1, d.1, e.1, f.1, g.1])
}

/// The base index of segment `i`: the segment's own, or the frame's adjusted
/// by it, or the frame's where segmentation is off.
pub open spec fn segment_base(seg: Segmentation, i: int, yac: int) -> int {
    if seg.enabled {
        if seg.absolute_vals {
            seg.base_quant[i] as int
        } else {
            seg.base_quant[i] + yac
        }
    } else {
        yac
    }
}

/// The table entry for index `base + d`, clamped to the table.
pub open spec fn looked_up<T>(table: [T; 128], base: int, d: int) -> T {
    table[clip_uintp2_of(base + d, 7)]
}

/// The multipliers of a segment whose base index is `base`, with the deltas
/// `q` (as [`quant_indices`] gives them): the second-order AC scaled by
/// 101581 / 65536 and at least 8, the chroma DC at most 132.
pub open spec fn qmat_ok(m: QMat, base: int, q: Seq<int>, dc_q: [u8; 128], ac_q: [u16; 128]) -> bool {
    let y2ac = looked_up(ac_q, base, q[3]) * 101581 / 65536;
    let uvdc = looked_up(dc_q, base, q[4]) as int;
    &&& m.luma_qmul[0] == looked_up(dc_q, base, q[1])
    &&& m.luma_qmul[1] == looked_up(ac_q, base, 0)
    &&& m.luma_dc_qmul[0] == 2 * looked_up(dc_q, base, q[2])
    &&& m.luma_dc_qmul[1] == if y2ac < 8 { 8 } else { y2ac }
    &&& m.chroma_qmul[0] == if uvdc > 132 { 132 } else { uvdc }
    &&& m.chroma_qmul[1] == looked_up(ac_q, base, q[5])
}

/// Reads the frame header's quantiser indices and sets each segment's
/// multipliers from the DC and AC tables `dc_q` and `ac_q`.
pub fn get_quants(
    c: &mut RangeCoder,
    buf: &[u8],
    seg: &Segmentation,
    dc_q: &[u8; 128],
    ac_q: &[u16; 128],
    qmat: &mut [QMat; 4],
)
    requires
        old(c).wf(),
        old(c).spec_end() <= buf.len(),
        forall|i: int| 0 <= i < 128 ==> #[trigger] ac_q[i] <= 284,
    ensures
        *final(c) == quant_indices(*old(c), buf@).0,
        forall|i: int| 0 <= i < 4 ==> #[trigger] qmat_ok(
            final(qmat)[i],
            segment_base(*seg, i, quant_indices(*old(c), buf@).1[0]),
            quant_indices(*old(c), buf@).1,
            *dc_q,
            *ac_q,
        ),
        final(c).wf(),
        final(c).spec_end() == old(c).spec_end(),
{
    let ghost c0 = *c;
    let yac = c.get_uint(buf, 7);
    let ydc = c.get_sint(buf, 4);
    let y2dc = c.get_sint(buf, 4);
    let y2ac = c.get_sint(buf, 4);
    let uvdc = c.get_sint(buf, 4);
    let uvac = c.get_sint(buf, 4);
    let ghost q = quant_indices(c0, buf@);
    proof {
        vstd::arithmetic::power2::lemma2_to64();
        assert(q.1[0] == yac && q.1[1] == ydc && q.1[2] == y2dc && q.1[3] == y2ac && q.1[4] == uvdc && q.1[5] == uvac);
        assert(*c == q.0);
        assert(-16 < ydc < 16 && -16 < y2dc < 16 && -16 < y2ac < 16 && -16 < uvdc < 16 && -16 < uvac < 16);
    }
    let mut i: usize = 0;
    while i < 4
        invariant
            i <= 4,
            0 <= yac < 128,
            -16 < ydc < 16 && -16 < y2dc < 16 && -16 < y2ac < 16 && -16 < uvdc < 16 && -16 < uvac < 16,
            q.1 == seq![yac as int, ydc as int, y2dc as int, y2ac as int, uvdc as int, uvac as int],
            forall|k: int| 0 <= k < 128 ==> #[trigger] ac_q[k] <= 284,
            forall|k: int| 0 <= k < i ==> #[trigger] qmat_ok(qmat[k], segment_base(*seg, k, yac as int), q.1, *dc_q, *ac_q),
        decreases 4 - i,
    {
        proof {
            vstd::arithmetic::power2::lemma2_to64();
        }
        let base: i32 = if seg.enabled {
            let b = seg.base_quant[i] as i32;
            if seg.absolute_vals {
                b
            } else {
                b + yac
            }
        } else {
            yac
        };
        let d_y = dc_q[clip_uintp2(base + ydc, 7) as usize] as i16;
        let a_y = ac_q[clip_uintp2(base, 7) as usize] as i16;
        let d_y2 = dc_q[clip_uintp2(base + y2dc, 7) as usize] as i16;
        let a_y2 = ac_q[clip_uintp2(base + y2ac, 7) as usize] as i32;
        let d_uv = dc_q[clip_uintp2(base + uvdc, 7) as usize] as i16;
        let a_uv = ac_q[clip_uintp2(base + uvac, 7) as usize] as i16;
        proof {
            assert(a_y2 * 101581 <= 284 * 101581) by (nonlinear_arith)
                requires
                    0 <= a_y2 <= 284,
            ;
        }
        let prod: i32 = a_y2 * 101581;
        proof {
            assert(0 <= prod <= 284 * 101581 ==> prod >> 16u32 == prod / 65536) by (bit_vector);
        }
        let y2 = (prod >> 16u32) as i16;
        let mut m = QMat {
            luma_qmul: [d_y, a_y],
            luma_dc_qmul: [2 * d_y2, if y2 < 8 { 8 } else { y2 }],
            chroma_qmul: [if d_uv > 132 { 132 } else { d_uv }, a_uv],
        };
        qmat[i] = m;
        i = i + 1;
    }
}

} // verus!
