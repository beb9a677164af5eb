//! VP8L prefix codes.

use vstd::prelude::*;
use vstd::arithmetic::power2::pow2;
use crate::error::{Error, Result};
use super::bitreader::{BitReader, stream_bits, advanced, take};

verus! {

pub const MAX_CODE_LENGTH: usize = 15;
pub const TABLE_BITS: u32 = 8;
const TABLE_MASK: u32 = 255;

/// The length histogram a code-length list accumulates, and what sizing the
/// tables from it worked out.
pub struct Plan {
    pub count: [i32; 16],
    pub num_symbols: i32,
    pub root_bits: u32,
    pub total_size: usize,
}

impl Default for Plan {
    fn default() -> (p: Self)
        ensures
            forall|len: int| 0 <= len < 16 ==> p.count@[len] == 0,
            p.num_symbols == 0,
            p.root_bits == 0,
            p.total_size == 0,
    {
        Plan { count: [0i32; 16], num_symbols: 0, root_bits: 0, total_size: 0 }
    }
}

/// The code length a length-list entry stands for: its low four bits.
pub open spec fn code_len(l: u8) -> int {
    (l as int) % 16
}

/// How many of the first `n` entries of `lengths` have code length `len`.
pub open spec fn hist(lengths: Seq<u8>, len: int, n: int) -> int
    decreases n,
{
    if n <= 0 {
        0
    } else {
        hist(lengths, len, n - 1) + if code_len(lengths[n - 1]) == len { 1int } else { 0int }
    }
}

/// How many entries of `lengths` have code length `len`.
pub open spec fn hist_all(lengths: Seq<u8>, len: int) -> int {
    hist(lengths, len, lengths.len() as int)
}

proof fn lemma_hist_bounds(lengths: Seq<u8>, len: int, n: int)
    requires
        0 <= n <= lengths.len(),
    ensures
        0 <= hist(lengths, len, n) <= n,
    decreases n,
{
    if n > 0 {
        lemma_hist_bounds(lengths, len, n - 1);
    }
}

/// The highest set bit of `inv`, for a non-zero value below 2^15.
proof fn lemma_high_bit(key: u32, len: u32)
    requires
        1 <= len <= 15,
        key < (1u32 << len),
        (!key & ((1u32 << len) - 1) as u32) != 0,
    ensures
        ({
            let inv = !key & ((1u32 << len) - 1) as u32;
            let lz = inv.leading_zeros();
            &&& 17 <= lz <= 31
            &&& ((key & (((1u32 << (31 - lz) as u32) - 1) as u32)) + (1u32 << (31 - lz) as u32)) < (1u32 << len)
        }),
{
    let m = ((1u32 << len) - 1) as u32;
    let inv = !key & m;
    vstd::std_specs::bits::axiom_u32_leading_zeros(inv);
    let lz = inv.leading_zeros();
    let a = (31 - lz) as u32;
    let b = (32 - lz) as u32;
    assert((inv >> a) & 1u32 != 0u32);
    assert(inv >> b == 0);
    assert(1 <= len <= 15 && m == ((1u32 << len) - 1) as u32 && inv == !key & m && inv != 0 && lz < 32 && a == 31 - lz && b == 32 - lz
        && (inv >> a) & 1u32 != 0u32 && inv >> b == 0 && key < (1u32 << len) ==> 17 <= lz <= 31 && ((key & (((1u32 << a) - 1) as u32)) + (1u32
        << a)) < (1u32 << len)) by (bit_vector);
}

/// The next canonical code of the same length, in bit-reversed order: the
/// highest bit not yet set among the low `len` is set and everything below it
/// cleared, which is adding one from the top; the last code stays put.
pub open spec fn next_key_of(key: u32, len: u32) -> u32 {
    let inv = !key & ((1u32 << len) - 1) as u32;
    if inv == 0 {
        key
    } else {
        let h = 1u32 << (31 - inv.leading_zeros()) as u32;
        ((key & ((h - 1) as u32)) + h) as u32
    }
}

fn next_key(key: u32, len: u32) -> (r: u32)
    requires
        1 <= len <= 15,
        key < pow2(len as nat),
    ensures
        r == next_key_of(key, len),
        r < pow2(len as nat),
{
    proof {
        lemma_pow2_small(len as nat);
        vstd::bits::lemma_u32_shl_is_mul(1, len);
    }
    let inv = !key & ((1u32 << len) - 1);
    if inv == 0 {
        return key;
    }
    proof {
        lemma_high_bit(key, len);
    }
    let sh = 31 - inv.leading_zeros();
    let h = 1u32 << sh;
    assert(h >= 1) by (bit_vector)
        requires
            h == 1u32 << sh,
            sh <= 14,
    ;
    (key & (h - 1)) + h
}

/// Fills in the length histogram of `lengths`, every entry counted by its low
/// four bits.
pub fn count_lengths(p: &mut Plan, lengths: &[u8])
    requires
        lengths.len() <= i32::MAX,
    ensures
        forall|len: int| 0 <= len < 16 ==> final(p).count@[len] == hist_all(lengths@, len),
        final(p).num_symbols == old(p).num_symbols,
        final(p).root_bits == old(p).root_bits,
        final(p).total_size == old(p).total_size,
{
    p.count = [0i32; 16];
    let mut i: usize = 0;
    while i < lengths.len()
        invariant
            i <= lengths.len() <= i32::MAX,
            forall|len: int| 0 <= len < 16 ==> p.count@[len] == hist(lengths@, len, i as int),
            p.num_symbols == old(p).num_symbols,
            p.root_bits == old(p).root_bits,
            p.total_size == old(p).total_size,
        decreases lengths.len() - i,
    {
        let b = lengths[i];
        let l = (b & 15) as usize;
        assert(b & 15 == b % 16) by (bit_vector);
        proof {
            lemma_hist_bounds(lengths@, l as int, i as int);
        }
        p.count[l] = p.count[l] + 1;
        i += 1;
        assert forall|len: int| 0 <= len < 16 implies p.count@[len] == hist(lengths@, len, i as int) by {
            assert(hist(lengths@, len, i as int) == hist(lengths@, len, i - 1) + if code_len(lengths@[i - 1]) == len { 1int } else { 0int });
        }
    }
}

/// The width a second-level table needs for a code of length `len` whose
/// lower bits start a new table: widen while the codes still left at each
/// length do not fill what the table would hold.
pub open spec fn table_bits_from(count: Seq<i32>, len: int, left: int, root: int) -> int
    decreases 15 - len,
{
    if len >= 15 {
        len - root
    } else if left - count[len] <= 0 {
        len - root
    } else {
        table_bits_from(count, len + 1, 2 * (left - count[len]), root)
    }
}

pub open spec fn table_bits(count: Seq<i32>, len: int, root: int) -> int {
    table_bits_from(count, len, pow2((len - root) as nat) as int, root)
}

proof fn lemma_table_bits_range(count: Seq<i32>, len: int, left: int, root: int)
    requires
        root < len <= 15,
    ensures
        len - root <= table_bits_from(count, len, left, root) <= 15 - root,
    decreases 15 - len,
{
    if len < 15 && left - count[len] > 0 {
        lemma_table_bits_range(count, len + 1, 2 * (left - count[len]), root);
    }
}

proof fn lemma_pow2_small(n: nat)
    requires
        n <= 24,
    ensures
        1 <= pow2(n) <= pow2(24),
        pow2(24) == 0x100_0000,
        pow2(15) == 0x8000,
        pow2(8) == 256,
        n <= 15 ==> pow2(n) <= 0x8000,
        n <= 14 ==> pow2(n) <= 0x4000,
        n <= 8 ==> pow2(n) <= 256,
        n <= 7 ==> pow2(n) <= 128,
        pow2(0) == 1,
        pow2(7) == 128,
{
    vstd::arithmetic::power2::lemma2_to64();
    vstd::arithmetic::power2::lemma_pow2_pos(n);
    if n < 24 {
        vstd::arithmetic::power2::lemma_pow2_strictly_increases(n, 24);
    }
    if n < 15 {
        vstd::arithmetic::power2::lemma_pow2_strictly_increases(n, 15);
    }
    if n < 8 {
        vstd::arithmetic::power2::lemma_pow2_strictly_increases(n, 8);
    }
    if n < 14 {
        vstd::arithmetic::power2::lemma_pow2_strictly_increases(n, 14);
    }
    if n < 7 {
        vstd::arithmetic::power2::lemma_pow2_strictly_increases(n, 7);
    }
}

/// 2^n as a `u32`, for the small exponents table sizes are made of.
fn pow2_u32(n: u32) -> (r: u32)
    requires
        n < 32,
    ensures
        r == pow2(n as nat),
{
    proof {
        vstd::bits::lemma_u32_pow2_no_overflow(n as nat);
        vstd::bits::lemma_u32_shl_is_mul(1, n);
    }
    1u32 << n
}

fn next_table_bits(count: &[i32; 16], len: u32, root_bits: u32) -> (r: u32)
    requires
        root_bits < len <= 15,
        forall|l: int| 0 <= l < 16 ==> 0 <= #[trigger] count@[l],
    ensures
        r == table_bits(count@, len as int, root_bits as int),
        len - root_bits <= r <= 15 - root_bits,
{
    let ghost cnt = count@;
    proof {
        lemma_pow2_small((len - root_bits) as nat);
    }
    let mut left: i32 = pow2_u32(len - root_bits) as i32;
    let mut l = len;
    proof {
        vstd::arithmetic::power2::lemma_pow2_pos((len - root_bits) as nat);
        lemma_table_bits_range(cnt, len as int, left as int, root_bits as int);
    }
    while (l as usize) < MAX_CODE_LENGTH
        invariant
            root_bits < len <= l <= 15,
            forall|k: int| 0 <= k < 16 ==> 0 <= #[trigger] count@[k],
            cnt == count@,
            0 < left <= pow2((l - root_bits) as nat),
            table_bits_from(cnt, l as int, left as int, root_bits as int) == table_bits(cnt, len as int, root_bits as int),
        decreases 15 - l,
    {
        proof {
            vstd::arithmetic::power2::lemma_pow2_unfold((l + 1 - root_bits) as nat);
            lemma_pow2_small((l - root_bits) as nat);
        }
        let rest = left - count[l as usize];
        if rest <= 0 {
            proof {
                lemma_table_bits_range(cnt, len as int, pow2((len - root_bits) as nat) as int, root_bits as int);
            }
            return l - root_bits;
        }
        l += 1;
        left = rest * 2;
    }
    proof {
        lemma_table_bits_range(cnt, len as int, pow2((len - root_bits) as nat) as int, root_bits as int);
    }
    l - root_bits
}

/// What is left of the code space after the lengths up to `k` took their
/// share: one unit before length 1, doubling at every length.
pub open spec fn kraft_left(count: Seq<i32>, k: int) -> int
    decreases k,
{
    if k <= 0 {
        1
    } else {
        2 * kraft_left(count, k - 1) - count[k]
    }
}

/// The lengths 1 to `k` together never ask for more code space than there is.
pub open spec fn kraft_ok(count: Seq<i32>, k: int) -> bool {
    forall|j: int| 1 <= j <= k ==> kraft_left(count, j) >= 0
}

/// How many symbols have a length from 1 to `k`.
pub open spec fn coded(count: Seq<i32>, k: int) -> int
    decreases k,
{
    if k <= 0 {
        0
    } else {
        coded(count, k - 1) + count[k]
    }
}

/// The code space the lengths 1 to `k` take, in units of length `k`.
pub open spec fn weighted(count: Seq<i32>, k: int) -> int
    decreases k,
{
    if k <= 0 {
        0
    } else {
        2 * weighted(count, k - 1) + count[k]
    }
}

/// The longest length that occurs, or 0.
pub open spec fn max_len(count: Seq<i32>, k: int) -> int
    decreases k,
{
    if k <= 0 {
        0
    } else if count[k] != 0 {
        k
    } else {
        max_len(count, k - 1)
    }
}

/// A length list describes a usable prefix code: the histogram is the list's
/// own, no length is over-subscribed, at least one symbol is coded, and the
/// code space is used up exactly unless a single symbol is all there is.
pub open spec fn code_ok(count: Seq<i32>, lengths: Seq<u8>) -> bool {
    &&& kraft_ok(count, 15)
    &&& coded(count, 15) > 0
    &&& coded(count, 15) <= lengths.len()
    &&& (kraft_left(count, 15) == 0 || coded(count, 15) == 1)
    &&& forall|len: int| 1 <= len <= 15 ==> hist_all(lengths, len) == count[len]
}

pub open spec fn counts_nonneg(count: Seq<i32>) -> bool {
    count.len() == 16 && forall|l: int| 0 <= l < 16 ==> 0 <= #[trigger] count[l]
}

proof fn lemma_kraft_space(count: Seq<i32>, k: int)
    requires
        0 <= k <= 15,
        counts_nonneg(count),
    ensures
        kraft_left(count, k) + weighted(count, k) == pow2(k as nat),
        0 <= coded(count, k) <= weighted(count, k),
    decreases k,
{
    if k > 0 {
        lemma_kraft_space(count, k - 1);
        vstd::arithmetic::power2::lemma_pow2_unfold(k as nat);
    } else {
        vstd::arithmetic::power2::lemma2_to64();
    }
}

/// Under the Kraft condition, at most 2^k symbols have lengths up to `k`.
proof fn lemma_kraft_bounds(count: Seq<i32>, k: int)
    requires
        0 <= k <= 15,
        counts_nonneg(count),
        kraft_left(count, k) >= 0,
    ensures
        0 <= coded(count, k) <= pow2(k as nat) <= 0x8000,
        kraft_left(count, k) <= pow2(k as nat),
{
    lemma_kraft_space(count, k);
    lemma_pow2_small(k as nat);
}

proof fn lemma_coded_mono(count: Seq<i32>, j: int, k: int)
    requires
        0 <= j <= k <= 15,
        counts_nonneg(count),
    ensures
        coded(count, j) <= coded(count, k),
    decreases k - j,
{
    if j < k {
        lemma_coded_mono(count, j, k - 1);
    }
}

proof fn lemma_hist_mono(lengths: Seq<u8>, len: int, n: int, m: int)
    requires
        0 <= n <= m <= lengths.len(),
    ensures
        hist(lengths, len, n) <= hist(lengths, len, m),
    decreases m - n,
{
    if n < m {
        lemma_hist_mono(lengths, len, n, m - 1);
    }
}

/// Where the symbols of length `len` start in the length-sorted list.
pub open spec fn sorted_start(count: Seq<i32>, len: int) -> int {
    coded(count, len - 1)
}

/// The symbols with a non-zero length, sorted by length and then by symbol.
pub open spec fn sorted_by_length(count: Seq<i32>, lengths: Seq<u8>, sorted: Seq<u16>) -> bool {
    forall|s: int|
        0 <= s < lengths.len() && code_len(#[trigger] lengths[s]) != 0 ==> sorted[sorted_start(count, code_len(lengths[s]))
            + hist(lengths, code_len(lengths[s]), s)] == s
}

/// The first `n` entries of the list have no more symbols of any length than
/// the histogram allows.
pub open spec fn hist_within(count: Seq<i32>, lengths: Seq<u8>, n: int) -> bool {
    forall|k: int| 1 <= k <= 15 ==> hist(lengths, k, n) <= count[k]
}

/// Every coded symbol among the first `n` sits at its place in `sorted`.
pub open spec fn placed(count: Seq<i32>, lengths: Seq<u8>, sorted: Seq<u16>, n: int) -> bool {
    forall|s: int|
        0 <= s < n && code_len(#[trigger] lengths[s]) != 0 ==> sorted[sorted_start(count, code_len(lengths[s])) + hist(
            lengths,
            code_len(lengths[s]),
            s,
        )] == s
}

proof fn lemma_hist_within_step(count: Seq<i32>, lengths: Seq<u8>, n: int)
    requires
        0 <= n < lengths.len(),
    ensures
        hist_within(count, lengths, n + 1) ==> hist_within(count, lengths, n),
{
    assert forall|k: int| 1 <= k <= 15 && hist_within(count, lengths, n + 1) implies hist(lengths, k, n) <= count[k] by {
        lemma_hist_mono(lengths, k, n, n + 1);
    }
}

/// Writing symbol `n` at the next slot of its length keeps every symbol
/// before it where it was, as long as no length has overflowed its share.
proof fn lemma_place(count: Seq<i32>, lengths: Seq<u8>, before: Seq<u16>, after: Seq<u16>, n: int, at: int)
    requires
        0 <= n < lengths.len(),
        counts_nonneg(count),
        1 <= code_len(lengths[n]) <= 15,
        at == sorted_start(count, code_len(lengths[n])) + hist(lengths, code_len(lengths[n]), n),
        0 <= at < before.len(),
        coded(count, 15) <= before.len(),
        after == before.update(at, n as u16),
        n < 0x10000,
        hist_within(count, lengths, n) ==> placed(count, lengths, before, n),
    ensures
        hist_within(count, lengths, n + 1) ==> placed(count, lengths, after, n + 1),
{
    let l = code_len(lengths[n]);
    if hist_within(count, lengths, n + 1) {
        lemma_hist_within_step(count, lengths, n);
        assert(hist(lengths, l, n + 1) == hist(lengths, l, n) + 1);
        assert(hist(lengths, l, n + 1) <= count[l]);
        assert forall|s: int| 0 <= s < n + 1 && code_len(#[trigger] lengths[s]) != 0 implies after[sorted_start(
            count,
            code_len(lengths[s]),
        ) + hist(lengths, code_len(lengths[s]), s)] == s by {
            if s < n {
                let m = code_len(lengths[s]);
                let idx = sorted_start(count, m) + hist(lengths, m, s);
                lemma_hist_mono(lengths, m, s + 1, n);
                lemma_hist_bounds(lengths, m, s);
                lemma_hist_bounds(lengths, l, n);
                assert(hist(lengths, m, s + 1) == hist(lengths, m, s) + 1);
                assert(coded(count, m) == coded(count, m - 1) + count[m]);
                assert(coded(count, l) == coded(count, l - 1) + count[l]);
                assert(hist(lengths, m, n) <= count[m]);
                if m < l {
                    lemma_coded_mono(count, m, l - 1);
                } else if m > l {
                    lemma_coded_mono(count, l, m - 1);
                }
                assert(idx != at);
                lemma_coded_mono(count, m, 15);
                lemma_coded_mono(count, 0, m - 1);
                assert(0 <= idx < before.len());
                assert(after[idx] == before[idx]);
            } else {
                assert(s == n);
            }
        }
    }
}

/// Checks the histogram in `p` against `lengths`, sorts the coded symbols by
/// length into `sorted`, and sizes the tables. Codes are rejected here, before
/// anything is written, so a malformed length list never produces a partly
/// filled table.
#[verifier::rlimit(60)]
fn analyze(p: &mut Plan, lengths: &[u8], sorted: &mut [u16]) -> (r: bool)
    requires
        counts_nonneg(old(p).count@),
        lengths.len() < 0x10000,
        coded(old(p).count@, 15) <= lengths.len() ==> coded(old(p).count@, 15) <= old(sorted).len(),
    ensures
        r == code_ok(old(p).count@, lengths@),
        final(p).count@ == old(p).count@,
        final(sorted).len() == old(sorted).len(),
        r ==> {
            &&& final(p).num_symbols == coded(old(p).count@, 15)
            &&& sorted_by_length(old(p).count@, lengths@, final(sorted)@)
            &&& plan_sized(*final(p))
        },
{
    let ghost cnt = p.count@;
    let mut offset = [0usize; 17];
    let mut left: i32 = 1;
    let mut max_l: u32 = 0;
    p.num_symbols = 0;
    let mut len: usize = 1;
    while len <= 15
        invariant
            1 <= len <= 16,
            p.count@ == cnt,
            cnt == old(p).count@,
            counts_nonneg(cnt),
            left == kraft_left(cnt, len - 1),
            kraft_ok(cnt, len - 1),
            p.num_symbols == coded(cnt, len - 1),
            max_l == max_len(cnt, len - 1),
            forall|l: int| 1 <= l <= len ==> offset@[l] == coded(cnt, l - 1),
        decreases 16 - len,
    {
        proof {
            lemma_kraft_bounds(cnt, len - 1);
            lemma_pow2_small((len - 1) as nat);
        }
        left = left * 2;
        left = left - p.count[len];
        assert(left == kraft_left(cnt, len as int));
        if left < 0 {
            assert(!kraft_ok(cnt, 15));
            return false;
        }
        if p.count[len] != 0 {
            max_l = len as u32;
        }
        proof {
            lemma_kraft_bounds(cnt, len as int);
        }
        p.num_symbols = p.num_symbols + p.count[len];
        offset[len + 1] = offset[len] + p.count[len] as usize;
        len += 1;
    }
    proof {
        lemma_kraft_bounds(cnt, 15);
        lemma_kraft_space(cnt, 15);
    }
    if p.num_symbols == 0 || p.num_symbols as usize > lengths.len() {
        return false;
    }
    if left != 0 && p.num_symbols > 1 {
        return false;
    }
    let num_symbols = p.num_symbols as usize;
    let ghost sorted0 = sorted@;
    let mut symbol: usize = 0;
    while symbol < lengths.len()
        invariant
            symbol <= lengths.len() < 0x10000,
            p.count@ == cnt,
            cnt == old(p).count@,
            counts_nonneg(cnt),
            kraft_ok(cnt, 15),
            num_symbols == coded(cnt, 15),
            num_symbols <= sorted.len(),
            sorted.len() == sorted0.len(),
            forall|l: int| 1 <= l <= 15 ==> offset@[l] == coded(cnt, l - 1) + hist(lengths@, l, symbol as int),
            sorted0 == old(sorted)@,
            hist_within(cnt, lengths@, symbol as int) ==> placed(cnt, lengths@, sorted@, symbol as int),
        decreases lengths.len() - symbol,
    {
        let b = lengths[symbol];
        let l = (b & 15) as usize;
        assert(b & 15 == b % 16) by (bit_vector);
        proof {
            lemma_hist_bounds(lengths@, l as int, symbol as int);
        }
        if l != 0 {
            if offset[l] >= num_symbols {
                proof {
                    lemma_hist_mono(lengths@, l as int, symbol + 1, lengths.len() as int);
                    lemma_coded_mono(cnt, l as int, 15);
                    assert(code_len(lengths@[symbol as int]) == l);
                    assert(hist(lengths@, l as int, symbol + 1) == hist(lengths@, l as int, symbol as int) + 1);
                    if code_ok(cnt, lengths@) {
                        assert(hist_all(lengths@, l as int) == cnt[l as int]);
                        assert(coded(cnt, l as int) == coded(cnt, l - 1) + cnt[l as int]);
                        assert(false);
                    }
                }
                return false;
            }
            let ghost before = sorted@;
            let ghost at = offset@[l as int];
            sorted[offset[l]] = symbol as u16;
            offset[l] = offset[l] + 1;
            proof {
                lemma_place(cnt, lengths@, before, sorted@, symbol as int, at as int);
            }
        } else {
            proof {
                lemma_hist_within_step(cnt, lengths@, symbol as int);
                assert forall|s: int| 0 <= s < symbol && code_len(#[trigger] lengths@[s]) != 0 implies
                    hist(lengths@, code_len(lengths@[s]), s) == hist(lengths@, code_len(lengths@[s]), s) by {}
            }
        }
        symbol += 1;
        proof {
            assert forall|k: int| 1 <= k <= 15 implies offset@[k] == coded(cnt, k - 1) + hist(lengths@, k, symbol as int) by {
                assert(hist(lengths@, k, symbol as int) == hist(lengths@, k, symbol - 1) + if code_len(lengths@[symbol - 1]) == k { 1int } else { 0int });
            }
        }
    }
    let mut seen: usize = 0;
    let mut k: usize = 1;
    while k <= 15
        invariant
            1 <= k <= 16,
            sorted.len() == old(sorted).len(),
            hist_within(cnt, lengths@, lengths.len() as int) ==> placed(cnt, lengths@, sorted@, lengths.len() as int),
            p.count@ == cnt,
            cnt == old(p).count@,
            counts_nonneg(cnt),
            kraft_ok(cnt, 15),
            seen == coded(cnt, k - 1),
            forall|l: int| 1 <= l <= 15 ==> offset@[l] == coded(cnt, l - 1) + hist_all(lengths@, l),
            forall|l: int| 1 <= l < k ==> hist_all(lengths@, l) == cnt[l],
        decreases 16 - k,
    {
        proof {
            lemma_coded_mono(cnt, k as int, 15);
            lemma_kraft_bounds(cnt, 15);
        }
        seen = seen + p.count[k] as usize;
        assert(seen == coded(cnt, k as int));
        if offset[k] != seen {
            assert(hist_all(lengths@, k as int) != cnt[k as int]);
            return false;
        }
        k += 1;
    }
    assert(hist_within(cnt, lengths@, lengths.len() as int));
    if p.num_symbols == 1 {
        p.root_bits = 0;
        p.total_size = 1;
        return true;
    }
    proof {
        lemma_max_len_range(cnt, 15);
        if max_l == 0 {
            lemma_coded_zero(cnt, 15);
        }
    }
    p.root_bits = if max_l < TABLE_BITS { max_l } else { TABLE_BITS };
    p.total_size = table_size(p);
    true
}

/// `c` steps of [`next_key_of`] from `key`.
pub open spec fn advance_key(key: u32, len: u32, c: int) -> u32
    decreases c,
{
    if c <= 0 {
        key
    } else {
        advance_key(next_key_of(key, len), len, c - 1)
    }
}

/// The key after every code of length 1 to `len` has been handed out.
pub open spec fn root_key(count: Seq<i32>, len: int) -> u32
    decreases len,
{
    if len <= 0 {
        0
    } else {
        advance_key(root_key(count, len - 1), len as u32, count[len] as int)
    }
}

/// The histogram with the lengths 1 to `root` already handed out.
pub open spec fn zeroed_through(count: Seq<i32>, root: int) -> Seq<i32> {
    Seq::new(16, |i: int| if 1 <= i <= root { 0i32 } else { count[i] })
}

/// How many codes of length `len` and longer are still to be handed out.
pub open spec fn remaining(count: Seq<i32>, len: int) -> int
    decreases 16 - len,
{
    if len > 15 || len < 1 {
        0
    } else {
        count[len] + remaining(count, len + 1)
    }
}

/// The table space the codes longer than the root table take, walking them in
/// canonical order: a code whose low bits differ from the last one's starts a
/// new second-level table, sized by [`table_bits`].
pub open spec fn walk_total(count: Seq<i32>, len: int, key: u32, low: u32, total: int, root: int) -> int
    decreases 16 - len, count[len],
{
    if len > 15 || len < 1 || len >= count.len() {
        total
    } else if count[len] <= 0 {
        walk_total(count, len + 1, key, low, total, root)
    } else {
        let fresh = (key & 255) != low;
        walk_total(
            count.update(len, (count[len] - 1) as i32),
            len,
            next_key_of(key, len as u32),
            if fresh { key & 255 } else { low },
            if fresh { total + pow2(table_bits(count, len, root) as nat) } else { total },
            root,
        )
    }
}

/// How many entries the root table and every second-level table take together.
pub open spec fn table_total(count: Seq<i32>, root: int) -> int {
    walk_total(zeroed_through(count, root), root + 1, root_key(count, root), 0xFFFF_FFFF, pow2(root as nat) as int, root)
}

/// The root table's width: the longest length, capped at [`TABLE_BITS`].
pub open spec fn root_bits_for(count: Seq<i32>) -> int {
    if max_len(count, 15) < 8 { max_len(count, 15) } else { 8 }
}

/// What sizing a plan works out from its histogram.
pub open spec fn plan_sized(p: Plan) -> bool {
    if p.num_symbols == 1 {
        p.root_bits == 0 && p.total_size == 1
    } else {
        &&& p.root_bits == root_bits_for(p.count@)
        &&& p.total_size == table_total(p.count@, p.root_bits as int)
    }
}

proof fn lemma_remaining_frame(a: Seq<i32>, b: Seq<i32>, j: int)
    requires
        forall|i: int| j <= i <= 15 ==> a[i] == b[i],
    ensures
        remaining(a, j) == remaining(b, j),
    decreases 16 - j,
{
    if 1 <= j <= 15 {
        lemma_remaining_frame(a, b, j + 1);
    }
}

proof fn lemma_remaining_coded(count: Seq<i32>, j: int)
    requires
        1 <= j <= 16,
    ensures
        remaining(count, j) + coded(count, j - 1) == coded(count, 15),
    decreases 16 - j,
{
    if j <= 15 {
        lemma_remaining_coded(count, j + 1);
    }
}

proof fn lemma_max_len_zero(count: Seq<i32>, k: int, l: int)
    requires
        0 <= k <= 15,
        max_len(count, k) < l <= k,
    ensures
        count[l] == 0,
    decreases k,
{
    if k > 0 && count[k] == 0 && l < k {
        lemma_max_len_zero(count, k - 1, l);
    }
}

proof fn lemma_coded_zero(count: Seq<i32>, k: int)
    requires
        0 <= k,
        forall|l: int| 1 <= l <= k ==> count[l] == 0,
    ensures
        coded(count, k) == 0,
    decreases k,
{
    if k > 0 {
        lemma_coded_zero(count, k - 1);
    }
}

proof fn lemma_max_len_range(count: Seq<i32>, k: int)
    requires
        0 <= k,
    ensures
        0 <= max_len(count, k) <= k,
        max_len(count, k) == 0 ==> forall|l: int| 1 <= l <= k ==> count[l] == 0,
    decreases k,
{
    if k > 0 {
        lemma_max_len_range(count, k - 1);
    }
}

/// The walk only ever adds, and adds at most 2^(15 - root) per code.
proof fn lemma_walk_bounds(count: Seq<i32>, len: int, key: u32, low: u32, total: int, root: int)
    requires
        1 <= root < len <= 16,
        count.len() == 16,
        forall|i: int| 0 <= i < 16 ==> 0 <= #[trigger] count[i],
    ensures
        total <= walk_total(count, len, key, low, total, root) <= total + remaining(count, len) * pow2((15 - root) as nat),
    decreases 16 - len, count[len],
{
    if len <= 15 {
        if count[len] <= 0 {
            lemma_walk_bounds(count, len + 1, key, low, total, root);
        } else {
            let u = count.update(len, (count[len] - 1) as i32);
            let fresh = (key & 255) != low;
            let tb = table_bits(count, len, root);
            lemma_table_bits_range(count, len, pow2((len - root) as nat) as int, root);
            if tb < 15 - root {
                vstd::arithmetic::power2::lemma_pow2_strictly_increases(tb as nat, (15 - root) as nat);
            }
            vstd::arithmetic::power2::lemma_pow2_pos(tb as nat);
            let t2 = if fresh { total + pow2(tb as nat) } else { total };
            lemma_walk_bounds(u, len, next_key_of(key, len as u32), if fresh { key & 255 } else { low }, t2, root);
            lemma_remaining_frame(u, count, len + 1);
            assert(remaining(u, len) == remaining(count, len) - 1);
            assert(remaining(u, len) * pow2((15 - root) as nat) + pow2((15 - root) as nat)
                == remaining(count, len) * pow2((15 - root) as nat)) by (nonlinear_arith)
                requires
                    remaining(u, len) == remaining(count, len) - 1,
            ;
        }
    }
}

proof fn lemma_remaining_nonneg(count: Seq<i32>, len: int)
    requires
        forall|i: int| 0 <= i < 16 ==> 0 <= #[trigger] count[i],
    ensures
        remaining(count, len) >= 0,
    decreases 16 - len,
{
    if 1 <= len <= 15 {
        lemma_remaining_nonneg(count, len + 1);
    }
}

/// How many entries the tables of a plan take: the root table plus one
/// second-level table for every run of long codes sharing their low bits.
fn table_size(p: &Plan) -> (r: usize)
    requires
        counts_nonneg(p.count@),
        kraft_ok(p.count@, 15),
        1 <= p.root_bits <= 8,
    ensures
        r == table_total(p.count@, p.root_bits as int),
        r <= pow2(p.root_bits as nat) + 0x8000 * pow2((15 - p.root_bits) as nat),
{
    let ghost cnt = p.count@;
    let root_bits = p.root_bits;
    let mut count = p.count;
    let mut key: u32 = 0;
    let mut low: u32 = 0xFFFF_FFFF;
    proof {
        lemma_pow2_small(root_bits as nat);
        lemma_pow2_small(0);
    }
    let mut total: usize = pow2_u32(root_bits) as usize;
    let mut len: u32 = 1;
    while len <= root_bits
        invariant
            1 <= len <= root_bits + 1,
            1 <= root_bits <= 8,
            counts_nonneg(cnt),
            count@.len() == 16,
            forall|i: int| 0 <= i < 16 ==> #[trigger] count@[i] == if 1 <= i < len { 0i32 } else { cnt[i] },
            key == root_key(cnt, len - 1),
            key < pow2((len - 1) as nat),
        decreases root_bits + 1 - len,
    {
        proof {
            vstd::arithmetic::power2::lemma_pow2_strictly_increases((len - 1) as nat, len as nat);
        }
        let ghost start = key;
        while count[len as usize] > 0
            invariant
                1 <= len <= root_bits <= 8,
                counts_nonneg(cnt),
                count@.len() == 16,
                forall|i: int| 0 <= i < 16 && i != len ==> #[trigger] count@[i] == if 1 <= i < len { 0i32 } else { cnt[i] },
                0 <= count@[len as int] <= cnt[len as int],
                advance_key(key, len, count@[len as int] as int) == advance_key(start, len, cnt[len as int] as int),
                key < pow2(len as nat),
            decreases count@[len as int],
        {
            key = next_key(key, len);
            count[len as usize] = count[len as usize] - 1;
        }
        len += 1;
    }
    let ghost zc = zeroed_through(cnt, root_bits as int);
    assert(count@ =~= zc);
    proof {
        assert(kraft_left(cnt, 15) >= 0);
        lemma_kraft_bounds(cnt, 15);
        lemma_remaining_coded(cnt, root_bits + 1);
        assert forall|i: int| root_bits + 1 <= i <= 15 implies zc[i] == cnt[i] by {}
        lemma_remaining_frame(zc, cnt, root_bits + 1);
        lemma_remaining_nonneg(zc, root_bits + 1);
        lemma_coded_mono(cnt, 0, root_bits as int);
        lemma_pow2_small((15 - root_bits) as nat);
        lemma_walk_bounds(zc, root_bits + 1, key, low, total as int, root_bits as int);
    }
    let ghost whole = walk_total(zc, root_bits + 1, key, low, total as int, root_bits as int);
    let ghost cap = pow2(root_bits as nat) + 0x8000 * pow2((15 - root_bits) as nat);
    assert(remaining(zc, root_bits + 1) * pow2((15 - root_bits) as nat) <= 0x8000 * pow2((15 - root_bits) as nat)) by (nonlinear_arith)
        requires
            0 <= remaining(zc, root_bits + 1) <= 0x8000,
            pow2((15 - root_bits) as nat) >= 1,
    ;
    assert(cap <= 0x100 + 0x8000 * 0x4000) by (nonlinear_arith)
        requires
            cap == pow2(root_bits as nat) + 0x8000 * pow2((15 - root_bits) as nat),
            pow2(root_bits as nat) <= 256,
            pow2((15 - root_bits) as nat) <= 0x4000,
    ;
    let mut len: u32 = root_bits + 1;
    while len <= 15
        invariant
            1 <= root_bits < len <= 16,
            count@.len() == 16,
            forall|i: int| 0 <= i < 16 ==> 0 <= #[trigger] count@[i],
            key < pow2((len - 1) as nat),
            walk_total(count@, len as int, key, low, total as int, root_bits as int) == whole,
            total + remaining(count@, len as int) * pow2((15 - root_bits) as nat) <= cap,
            whole <= cap,
            cap <= 0x2000_0100,
        decreases 16 - len,
    {
        proof {
            vstd::arithmetic::power2::lemma_pow2_strictly_increases((len - 1) as nat, len as nat);
        }
        while count[len as usize] > 0
            invariant
                1 <= root_bits < len <= 15,
                count@.len() == 16,
                forall|i: int| 0 <= i < 16 ==> 0 <= #[trigger] count@[i],
                key < pow2(len as nat),
                walk_total(count@, len as int, key, low, total as int, root_bits as int) == whole,
                total + remaining(count@, len as int) * pow2((15 - root_bits) as nat) <= cap,
                cap <= 0x2000_0100,
            decreases count@[len as int],
        {
            let ghost before = count@;
            if (key & TABLE_MASK) != low {
                let tb = next_table_bits(&count, len, root_bits);
                proof {
                    lemma_pow2_small(tb as nat);
                    if tb < 15 - root_bits {
                        vstd::arithmetic::power2::lemma_pow2_strictly_increases(tb as nat, (15 - root_bits) as nat);
                    }
                    lemma_remaining_nonneg(count@, len as int + 1);
                    assert(remaining(count@, len as int) >= 1);
                    assert(pow2((15 - root_bits) as nat) <= remaining(count@, len as int) * pow2((15 - root_bits) as nat)) by (nonlinear_arith)
                        requires
                            remaining(count@, len as int) >= 1,
                            pow2((15 - root_bits) as nat) >= 1,
                    ;
                }
                total = total + pow2_u32(tb) as usize;
                low = key & TABLE_MASK;
            }
            key = next_key(key, len);
            count[len as usize] = count[len as usize] - 1;
            proof {
                lemma_remaining_frame(count@, before, len + 1);
                assert(count@ =~= before.update(len as int, (before[len as int] - 1) as i32));
                assert(remaining(count@, len as int) * pow2((15 - root_bits) as nat) + pow2((15 - root_bits) as nat)
                    == remaining(before, len as int) * pow2((15 - root_bits) as nat)) by (nonlinear_arith)
                    requires
                        remaining(count@, len as int) == remaining(before, len as int) - 1,
                ;
            }
        }
        len += 1;
    }
    total
}

/// A table entry: the bits to consume in the low eight bits, the symbol or
/// the offset to a second-level table above them.
pub open spec fn entry_of(bits: u32, value: u32) -> u32 {
    bits | (value << 8u32)
}

proof fn lemma_entry_fields(bits: u32, value: u32)
    requires
        bits < 256,
        value < 0x100_0000,
    ensures
        entry_of(bits, value) & 0xff == bits,
        entry_of(bits, value) >> 8u32 == value,
{
    assert((bits | (value << 8u32)) & 0xff == bits) by (bit_vector)
        requires
            bits < 256,
    ;
    assert((bits | (value << 8u32)) >> 8u32 == value) by (bit_vector)
        requires
            bits < 256,
            value < 0x100_0000,
    ;
}

fn entry(bits: u32, value: u32) -> (r: u32)
    ensures
        r == entry_of(bits, value),
{
    bits | (value << 8)
}

/// Whether a root entry leads somewhere inside a table of `size` entries: it
/// is either a whole code (at most [`TABLE_BITS`] long) or the way into a
/// second-level table that ends within `size`.
pub open spec fn root_entry_ok(e: u32, i: int, size: int) -> bool {
    let bits = e & 0xff;
    bits <= 8 || (bits <= 15 && i + (e >> 8u32) + pow2((bits - 8) as nat) <= size)
}

/// The first `n` entries of `table` are sound root entries of a table of
/// `size` entries.
pub open spec fn root_ok(table: Seq<u32>, n: int, size: int) -> bool {
    forall|i: int| 0 <= i < n ==> root_entry_ok(#[trigger] table[i], i, size)
}

/// Whether every second-level table is wide enough for the codes put in it,
/// walking the codes as [`walk_total`] does.
pub open spec fn walk_fits(count: Seq<i32>, len: int, key: u32, low: u32, sub_size: int, root: int) -> bool
    decreases 16 - len, count[len],
{
    if len > 15 || len < 1 || len >= count.len() {
        true
    } else if count[len] <= 0 {
        walk_fits(count, len + 1, key, low, sub_size, root)
    } else {
        let fresh = (key & 255) != low;
        let size = if fresh { pow2(table_bits(count, len, root) as nat) as int } else { sub_size };
        &&& pow2((len - root) as nat) <= size
        &&& walk_fits(
            count.update(len, (count[len] - 1) as i32),
            len,
            next_key_of(key, len as u32),
            if fresh { key & 255 } else { low },
            size,
            root,
        )
    }
}

/// Whether filling the tables of a sized plan succeeds.
pub open spec fn fills(count: Seq<i32>, num_symbols: int, root: int) -> bool {
    num_symbols == 1 || walk_fits(
        zeroed_through(count, root),
        root + 1,
        root_key(count, root),
        0xFFFF_FFFF,
        pow2(root as nat) as int,
        root,
    )
}

/// Repeats the first `n0 = 2^a` entries of the region at `base` until the
/// region's first `2^b` entries are filled: a code of length `len` owns every
/// slot congruent to its key modulo `2^len`, so the slots of the shorter codes
/// only need copying into the new upper half.
fn double_to(table: &mut [u32], base: usize, filled: &mut usize, size: usize, Ghost(a): Ghost<nat>, Ghost(b): Ghost<nat>)
    requires
        *old(filled) == pow2(a),
        size == pow2(b),
        a <= b,
        base + size <= old(table).len(),
    ensures
        *final(filled) == size,
        final(table).len() == old(table).len(),
        forall|i: int| 0 <= i < size ==> #[trigger] final(table)@[base + i] == old(table)@[base + i % pow2(a) as int],
        forall|i: int|
            0 <= i < old(table).len() && !(base <= i < base + size) ==> #[trigger] final(table)@[i] == old(table)@[i],
{
    let ghost orig = table@;
    let ghost n0 = pow2(a) as int;
    let mut n = *filled;
    let ghost mut c: nat = a;
    proof {
        vstd::arithmetic::power2::lemma_pow2_pos(a);
        assert forall|i: int| 0 <= i < n implies #[trigger] table@[base + i] == orig[base + i % n0] by {
            vstd::arithmetic::div_mod::lemma_small_mod(i as nat, n0 as nat);
        }
    }
    while n < size
        invariant
            n == pow2(c),
            n >= 1,
            a <= c <= b,
            n0 == pow2(a) >= 1,
            size == pow2(b),
            base + size <= table.len(),
            table.len() == orig.len(),
            forall|i: int| 0 <= i < n ==> #[trigger] table@[base + i] == orig[base + i % n0],
            forall|i: int| 0 <= i < orig.len() && !(base <= i < base + size) ==> #[trigger] table@[i] == orig[i],
        decreases size - n,
    {
        proof {
            if c == b {
                assert(false);
            }
            vstd::arithmetic::power2::lemma_pow2_unfold((c + 1) as nat);
            vstd::arithmetic::power2::lemma_pow2_adds(a, (c - a) as nat);
        }
        assert(2 * n <= size) by {
            if c + 1 < b {
                vstd::arithmetic::power2::lemma_pow2_strictly_increases((c + 1) as nat, b);
            }
        }
        let ghost half = table@;
        let mut i: usize = 0;
        while i < n
            invariant
                i <= n,
                2 * n <= size,
                base + size <= table.len(),
                table.len() == orig.len(),
                forall|j: int| 0 <= j < n ==> #[trigger] table@[base + j] == half[base + j],
                forall|j: int| 0 <= j < i ==> #[trigger] table@[base + n + j] == half[base + j],
                forall|j: int| 0 <= j < orig.len() && !(base + n <= j < base + n + i) ==> #[trigger] table@[j] == half[j],
            decreases n - i,
        {
            let v = table[base + i];
            table[base + n + i] = v;
            i += 1;
        }
        proof {
            let q = pow2((c - a) as nat) as int;
            assert(n == n0 * q);
            assert forall|j: int| 0 <= j < 2 * n implies #[trigger] table@[base + j] == orig[base + j % n0] by {
                if j >= n {
                    assert(table@[base + n + (j - n)] == half[base + (j - n)]);
                    vstd::arithmetic::div_mod::lemma_mod_multiples_vanish(q, j - n, n0);
                    assert(n0 * q + (j - n) == j);
                }
            }
        }
        n = n * 2;
        proof {
            c = c + 1;
        }
    }
    proof {
        if c < b {
            vstd::arithmetic::power2::lemma_pow2_strictly_increases(c, b);
        }
    }
    *filled = n;
}

proof fn lemma_remaining_update(count: Seq<i32>, j: int, len: int)
    requires
        1 <= j <= len <= 15,
        count.len() == 16,
        count[len] >= 1,
    ensures
        remaining(count.update(len, (count[len] - 1) as i32), j) == remaining(count, j) - 1,
    decreases len - j,
{
    let u = count.update(len, (count[len] - 1) as i32);
    if j < len {
        lemma_remaining_update(count, j + 1, len);
    } else {
        lemma_remaining_frame(u, count, len + 1);
    }
}

proof fn lemma_remaining_ge(count: Seq<i32>, j: int, l: int)
    requires
        1 <= j <= l <= 15,
        forall|i: int| 0 <= i < 16 ==> 0 <= #[trigger] count[i],
    ensures
        remaining(count, j) >= count[l],
    decreases l - j,
{
    lemma_remaining_nonneg(count, j + 1);
    if j < l {
        lemma_remaining_ge(count, j + 1, l);
    }
}

/// The tables of a Kraft-valid plan never outgrow 2^root plus 2^(15 - root)
/// for every code there is.
proof fn lemma_table_total_bound(count: Seq<i32>, root: int)
    requires
        1 <= root <= 8,
        counts_nonneg(count),
        kraft_ok(count, 15),
    ensures
        pow2(root as nat) <= table_total(count, root) <= pow2(root as nat) + 0x8000 * pow2((15 - root) as nat),
        root == 8 ==> table_total(count, root) <= 0x40_0100,
        root < 8 && root == max_len(count, 15) ==> table_total(count, root) == pow2(root as nat),
{
    let zc = zeroed_through(count, root);
    assert(kraft_left(count, 15) >= 0);
    lemma_kraft_bounds(count, 15);
    lemma_remaining_coded(count, root + 1);
    assert forall|i: int| root + 1 <= i <= 15 implies zc[i] == count[i] by {}
    lemma_remaining_frame(zc, count, root + 1);
    lemma_remaining_nonneg(zc, root + 1);
    lemma_coded_mono(count, 0, root);
    lemma_pow2_small((15 - root) as nat);
    lemma_pow2_small(root as nat);
    lemma_walk_bounds(zc, root + 1, root_key(count, root), 0xFFFF_FFFF, pow2(root as nat) as int, root);
    assert(remaining(zc, root + 1) * pow2((15 - root) as nat) <= 0x8000 * pow2((15 - root) as nat)) by (nonlinear_arith)
        requires
            0 <= remaining(zc, root + 1) <= 0x8000,
            pow2((15 - root) as nat) >= 1,
    ;
    if root == 8 {
        assert(0x8000 * pow2((15 - root) as nat) == 0x8000 * 128);
    }
    if root < 8 && root == max_len(count, 15) {
        assert forall|l: int| root < l <= 15 implies count[l] == 0 by {
            lemma_max_len_zero(count, 15, l);
        }
        assert forall|l: int| root + 1 <= l <= 15 implies zc[l] == 0 by {}
        lemma_remaining_zero(zc, root + 1);
        assert(remaining(zc, root + 1) == 0);
        assert(remaining(zc, root + 1) * pow2((15 - root) as nat) == 0) by (nonlinear_arith)
            requires
                remaining(zc, root + 1) == 0,
        ;
    }
}

proof fn lemma_remaining_zero(count: Seq<i32>, j: int)
    requires
        forall|l: int| j <= l <= 15 ==> count[l] == 0,
    ensures
        remaining(count, j) == 0,
    decreases 16 - j,
{
    if 1 <= j <= 15 {
        lemma_remaining_zero(count, j + 1);
    }
}

/// A key below 2^len, with its low `root` bits dropped, picks a slot of a
/// second-level table of 2^(len - root) entries.
proof fn lemma_key_slot(key: u32, len: u32, root: u32)
    requires
        1 <= root < len <= 15,
        key < pow2(len as nat),
    ensures
        (key >> root) < pow2((len - root) as nat),
{
    vstd::bits::lemma_u32_shr_is_div(key, root);
    vstd::arithmetic::power2::lemma_pow2_adds(root as nat, (len - root) as nat);
    vstd::arithmetic::power2::lemma_pow2_pos(root as nat);
    let d = pow2(root as nat) as int;
    let q = pow2((len - root) as nat) as int;
    assert((key as int) / d < q) by (nonlinear_arith)
        requires
            0 <= key < d * q,
            d > 0,
    ;
}

/// Writes the tables of a sized plan into `table`, which arrives zeroed and
/// exactly as long as the plan says. A code is rejected if a second-level
/// table turns out narrower than a code it has to hold.
#[verifier::rlimit(100)]
#[verifier::spinoff_prover]
fn fill(p: &Plan, table: &mut [u32], sorted: &[u16]) -> (r: bool)
    requires
        counts_nonneg(p.count@),
        kraft_ok(p.count@, 15),
        p.num_symbols == coded(p.count@, 15),
        p.num_symbols >= 1,
        plan_sized(*p),
        sorted.len() >= p.num_symbols,
        old(table).len() == p.total_size,
        forall|i: int| 0 <= i < old(table).len() ==> old(table)@[i] == 0,
    ensures
        final(table).len() == old(table).len(),
        r == fills(p.count@, p.num_symbols as int, p.root_bits as int),
        r ==> root_ok(final(table)@, pow2(p.root_bits as nat) as int, final(table).len() as int),
        p.num_symbols == 1 ==> final(table)@[0] == entry_of(0, sorted@[0] as u32),
{
    let ghost cnt = p.count@;
    let ghost nsym = p.num_symbols as int;
    let root_bits = p.root_bits;
    if p.num_symbols == 1 {
        let e = entry(0, sorted[0] as u32);
        table[0] = e;
        proof {
            lemma_entry_fields(0, sorted@[0] as u32);
            vstd::arithmetic::power2::lemma2_to64();
            assert(root_entry_ok(table@[0], 0, table.len() as int));
        }
        return true;
    }
    proof {
        lemma_max_len_range(cnt, 15);
        if max_len(cnt, 15) == 0 {
            lemma_coded_zero(cnt, 15);
        }
        lemma_table_total_bound(cnt, root_bits as int);
        lemma_pow2_small(root_bits as nat);
        lemma_remaining_coded(cnt, 1);
    }
    let mut count = p.count;
    let mut key: u32 = 0;
    let mut low: u32 = 0xFFFF_FFFF;
    let mut sub: usize = 0;
    let mut symbol: usize = 0;
    let mut filled: usize = 1;
    let root_size = pow2_u32(root_bits) as usize;
    let mut sub_size: usize = root_size;
    let mut total: usize = root_size;
    table[0] = 0;
    let mut len: u32 = 1;
    proof {
        lemma_pow2_small(0);
        assert(0u32 & 0xff == 0) by (bit_vector);
    }
    while len <= root_bits
        invariant
            1 <= len <= root_bits + 1,
            1 <= root_bits <= 8,
            root_size == pow2(root_bits as nat),
            root_size <= table.len(),
            counts_nonneg(cnt),
            nsym == coded(cnt, 15),
            sorted.len() >= nsym,
            count@.len() == 16,
            forall|i: int| 0 <= i < 16 ==> #[trigger] count@[i] == if 1 <= i < len { 0i32 } else { cnt[i] },
            key == root_key(cnt, len - 1),
            key < pow2((len - 1) as nat),
            filled == pow2((len - 1) as nat),
            symbol + remaining(count@, 1) == nsym,
            forall|i: int| 0 <= i < root_size ==> #[trigger] table@[i] & 0xff <= 8,
            table.len() == old(table).len(),
        decreases root_bits + 1 - len,
    {
        proof {
            vstd::arithmetic::power2::lemma_pow2_strictly_increases((len - 1) as nat, len as nat);
            if len < root_bits {
                vstd::arithmetic::power2::lemma_pow2_strictly_increases(len as nat, root_bits as nat);
            }
            lemma_pow2_small(len as nat);
        }
        let ghost pre = table@;
        double_to(table, 0, &mut filled, pow2_u32(len) as usize, Ghost((len - 1) as nat), Ghost(len as nat));
        proof {
            assert forall|i: int| 0 <= i < root_size implies #[trigger] table@[i] & 0xff <= 8 by {
                if i < pow2(len as nat) {
                    assert(table@[0 + i] == pre[0 + i % pow2((len - 1) as nat) as int]);
                }
            }
        }
        let ghost start = key;
        while count[len as usize] > 0
            invariant
                1 <= len <= root_bits <= 8,
                root_size == pow2(root_bits as nat),
                pow2(len as nat) <= root_size <= table.len(),
                counts_nonneg(cnt),
                nsym == coded(cnt, 15),
                sorted.len() >= nsym,
                count@.len() == 16,
                forall|i: int| 0 <= i < 16 && i != len ==> #[trigger] count@[i] == if 1 <= i < len { 0i32 } else { cnt[i] },
                0 <= count@[len as int] <= cnt[len as int],
                advance_key(key, len, count@[len as int] as int) == advance_key(start, len, cnt[len as int] as int),
                key < pow2(len as nat),
                filled == pow2(len as nat),
                symbol + remaining(count@, 1) == nsym,
                forall|i: int| 0 <= i < root_size ==> #[trigger] table@[i] & 0xff <= 8,
                table.len() == old(table).len(),
            decreases count@[len as int],
        {
            proof {
                assert forall|i: int| 0 <= i < 16 implies 0 <= #[trigger] count@[i] by {}
                lemma_remaining_ge(count@, 1, len as int);
                lemma_remaining_update(count@, 1, len as int);
            }
            let sym = sorted[symbol] as u32;
            proof {
                lemma_entry_fields(len, sym);
            }
            table[key as usize] = entry(len, sym);
            symbol += 1;
            key = next_key(key, len);
            count[len as usize] = count[len as usize] - 1;
        }
        len += 1;
    }
    let ghost zc = zeroed_through(cnt, root_bits as int);
    assert(count@ =~= zc);
    let ghost whole = table_total(cnt, root_bits as int);
    let ghost fits = walk_fits(zc, root_bits + 1, key, low, sub_size as int, root_bits as int);
    assert(fits == fills(cnt, nsym, root_bits as int));
    proof {
        if root_bits < 8 {
            assert forall|l: int| root_bits + 1 <= l <= 15 implies zc[l] == 0 by {
                lemma_max_len_zero(cnt, 15, l);
            }
            lemma_remaining_zero(zc, root_bits + 1);
        }
    }
    proof {
        assert forall|i: int| 0 <= i < root_size implies root_entry_ok(#[trigger] table@[i], i, total as int) by {}
    }
    let mut len: u32 = root_bits + 1;
    while len <= 15
        invariant
            1 <= root_bits < len <= 16,
            root_bits <= 8,
            root_size == pow2(root_bits as nat),
            root_size <= total <= whole,
            whole == p.total_size == table.len(),
            table.len() == old(table).len(),
            cnt == p.count@,
            nsym == p.num_symbols,
            nsym != 1,
            root_bits == p.root_bits,
            fits == fills(cnt, nsym, root_bits as int),
            root_bits == 8 ==> whole <= 0x40_0100,
            root_bits < 8 ==> remaining(count@, len as int) == 0,
            counts_nonneg(cnt),
            count@.len() == 16,
            forall|i: int| 0 <= i < 16 ==> 0 <= #[trigger] count@[i] <= cnt[i],
            nsym == coded(cnt, 15),
            sorted.len() >= nsym,
            symbol + remaining(count@, 1) == nsym,
            key < pow2((len - 1) as nat),
            walk_total(count@, len as int, key, low, total as int, root_bits as int) == whole,
            walk_fits(count@, len as int, key, low, sub_size as int, root_bits as int) == fits,
            sub + sub_size == total,
            (low == 0xFFFF_FFFF && sub == 0 && sub_size == root_size) || (sub >= root_size && low < 256 && exists|e: nat|
                e <= len - 1 - root_bits && filled == pow2(e)),
            root_ok(table@, root_size as int, total as int),
        decreases 16 - len,
    {
        proof {
            vstd::arithmetic::power2::lemma_pow2_strictly_increases((len - 1) as nat, len as nat);
        }
        while count[len as usize] > 0
            invariant
                1 <= root_bits < len <= 15,
                root_bits <= 8,
                root_size == pow2(root_bits as nat),
                root_size <= total <= whole,
                whole == p.total_size == table.len(),
            table.len() == old(table).len(),
            cnt == p.count@,
            nsym == p.num_symbols,
            nsym != 1,
            root_bits == p.root_bits,
            fits == fills(cnt, nsym, root_bits as int),
                root_bits == 8 ==> whole <= 0x40_0100,
                root_bits < 8 ==> remaining(count@, len as int) == 0,
                counts_nonneg(cnt),
                count@.len() == 16,
                forall|i: int| 0 <= i < 16 ==> 0 <= #[trigger] count@[i] <= cnt[i],
                nsym == coded(cnt, 15),
                sorted.len() >= nsym,
                symbol + remaining(count@, 1) == nsym,
                key < pow2(len as nat),
                walk_total(count@, len as int, key, low, total as int, root_bits as int) == whole,
                walk_fits(count@, len as int, key, low, sub_size as int, root_bits as int) == fits,
                sub + sub_size == total,
                (low == 0xFFFF_FFFF && sub == 0 && sub_size == root_size) || (sub >= root_size && low < 256 && exists|e: nat|
                    e <= len - root_bits && filled == pow2(e)),
                root_ok(table@, root_size as int, total as int),
            decreases count@[len as int],
        {
            let ghost before = count@;
            proof {
                lemma_remaining_ge(count@, 1, len as int);
                lemma_remaining_ge(count@, len as int, len as int);
                lemma_remaining_update(count@, 1, len as int);
                assert(root_bits == 8);
                lemma_pow2_small(7);
            }
            if (key & TABLE_MASK) != low {
                let tb = next_table_bits(&count, len, root_bits);
                proof {
                    lemma_pow2_small(tb as nat);
                    lemma_walk_bounds(
                        before.update(len as int, (before[len as int] - 1) as i32),
                        len as int,
                        next_key_of(key, len),
                        key & 255,
                        total + pow2(tb as nat),
                        root_bits as int,
                    );
                }
                sub = sub + sub_size;
                sub_size = pow2_u32(tb) as usize;
                total = total + sub_size;
                if total > p.total_size {
                    return false;
                }
                low = key & TABLE_MASK;
                assert(key & 255 < 256) by (bit_vector);
                proof {
                    lemma_entry_fields((tb + root_bits) as u32, (sub - low) as u32);
                }
                let ghost pre = table@;
                table[low as usize] = entry(tb + root_bits, (sub - low as usize) as u32);
                filled = 1;
                table[sub] = 0;
                proof {
                    vstd::arithmetic::power2::lemma2_to64();
                    assert forall|i: int| 0 <= i < root_size implies root_entry_ok(#[trigger] table@[i], i, total as int) by {
                        if i != low {
                            assert(table@[i] == pre[i]);
                            assert(root_entry_ok(pre[i], i, (total - sub_size) as int));
                        }
                    }
                    assert(filled == pow2(0));
                    assert(exists|e: nat| e <= len - root_bits && filled == pow2(e)) by {
                        assert(0 <= len - root_bits && filled == pow2(0nat));
                    }
                }
            } else {
                assert(key & 255 < 256) by (bit_vector);
                proof {
                    lemma_walk_bounds(
                        before.update(len as int, (before[len as int] - 1) as i32),
                        len as int,
                        next_key_of(key, len),
                        low,
                        total as int,
                        root_bits as int,
                    );
                }
            }
            proof {
                lemma_pow2_small((len - root_bits) as nat);
            }
            let span = pow2_u32(len - root_bits) as usize;
            if span > sub_size {
                return false;
            }
            let ghost fe = choose|e: nat| e <= len - root_bits && filled == pow2(e);
            let ghost pre = table@;
            double_to(table, sub, &mut filled, span, Ghost(fe), Ghost((len - root_bits) as nat));
            proof {
                lemma_key_slot(key, len, root_bits);
                assert forall|i: int| 0 <= i < root_size implies root_entry_ok(#[trigger] table@[i], i, total as int) by {
                    assert(table@[i] == pre[i]);
                }
            }
            let sym = sorted[symbol] as u32;
            let ghost pre2 = table@;
            table[sub + (key >> root_bits) as usize] = entry(len - root_bits, sym);
            proof {
                assert forall|i: int| 0 <= i < root_size implies root_entry_ok(#[trigger] table@[i], i, total as int) by {
                    assert(table@[i] == pre2[i]);
                }
            }
            symbol += 1;
            key = next_key(key, len);
            count[len as usize] = count[len as usize] - 1;
            proof {
                assert(count@ =~= before.update(len as int, (before[len as int] - 1) as i32));
                lemma_remaining_update(before, len as int, len as int);
                assert(filled == pow2((len - root_bits) as nat));
            }
        }
        len += 1;
    }
    total == p.total_size
}

/// Where one prefix code's tables sit in the arena.
#[derive(Clone, Copy)]
pub struct Reader {
    pub start: u32,
    pub len: u32,
    pub mask: u32,
}

impl Default for Reader {
    fn default() -> (r: Self)
        ensures
            r.start == 0 && r.len == 0 && r.mask == 0,
    {
        Reader { start: 0, len: 0, mask: 0 }
    }
}

/// A reader resolved against the arena it lives in: `root` is the first
/// `mask + 1` entries of `full`, which reaches the second-level tables too.
#[derive(Clone, Copy)]
pub struct Tree<'a> {
    pub root: &'a [u32],
    pub full: &'a [u32],
}

impl Reader {
    pub fn tree<'a>(&self, arena: &'a [u32]) -> (t: Tree<'a>)
        requires
            self.start + self.len <= arena.len(),
            self.mask < self.len,
        ensures
            t.full@ == arena@.subrange(self.start as int, self.start + self.len),
            t.root@ == t.full@.subrange(0, self.mask + 1),
    {
        let start = self.start as usize;
        let full = &arena[start..start + self.len as usize];
        Tree { root: &full[0..self.mask as usize + 1], full }
    }
}

/// What reading one symbol at bit `c` gives: the symbol, where the cursor
/// ends, and whether a step ran past the end of the data. The root table is
/// indexed by the next bits; an entry wider than [`TABLE_BITS`] sends the
/// reader on into a second-level table after consuming the root's bits.
pub open spec fn read_result(root: Seq<u32>, full: Seq<u32>, buf: Seq<u8>, c: int) -> (u32, int, bool) {
    let i = (stream_bits(buf, c, 32) as u32 & ((root.len() - 1) as u32)) as int;
    let e = root[i];
    let bits = e & 0xff;
    if bits > 8 {
        let c2 = advanced(buf, c, 8);
        let val = stream_bits(buf, c2, 32) as u32;
        let j = i + (e >> 8u32) + (val & ((pow2((bits - 8) as nat) - 1) as u32));
        let e2 = full[j];
        (e2 >> 8u32, advanced(buf, c2, (e2 & 0xff) as int), c + 8 > 8 * buf.len() || c2 + (e2 & 0xff) > 8 * buf.len())
    } else {
        (e >> 8u32, advanced(buf, c, bits as int), c + bits > 8 * buf.len())
    }
}

/// A tree that can be read from: a non-empty root table at the head of the
/// whole table, whose entries all lead inside it.
pub open spec fn tree_ok(root: Seq<u32>, full: Seq<u32>) -> bool {
    &&& 1 <= root.len() <= full.len()
    &&& root.len() - 1 <= u32::MAX
    &&& root == full.subrange(0, root.len() as int)
    &&& root_ok(full, root.len() as int, full.len() as int)
}

impl<'a> Tree<'a> {
    /// The symbol at the reader's position, consuming its code.
    pub fn read(&self, br: &mut BitReader, buf: &[u8]) -> (r: u32)
        requires
            tree_ok(self.root@, self.full@),
            old(br).wf(buf@),
        ensures
            final(br).wf(buf@),
            r == read_result(self.root@, self.full@, buf@, old(br).pos as int).0,
            final(br).pos == read_result(self.root@, self.full@, buf@, old(br).pos as int).1,
            final(br).eos == (old(br).eos || read_result(self.root@, self.full@, buf@, old(br).pos as int).2),
    {
        let pf = br.peek(buf, 32);
        let m = (self.root.len() - 1) as u32;
        let mut index = (pf & m) as usize;
        assert(pf & m <= m) by (bit_vector);
        let mut entry = self.root[index];
        let mut bits = entry & 0xff;
        if bits > TABLE_BITS {
            br.advance(buf, TABLE_BITS);
            let val = br.peek(buf, 32);
            proof {
                assert(self.root@[index as int] == self.full@[index as int]);
                assert(root_entry_ok(self.full@[index as int], index as int, self.full.len() as int));
                lemma_pow2_small((bits - 8) as nat);
            }
            let p = pow2_u32(bits - TABLE_BITS);
            let pm = p - 1;
            let low = val & pm;
            assert(val & pm <= pm) by (bit_vector);
            index = index + (entry >> 8) as usize + low as usize;
            entry = self.full[index];
            bits = entry & 0xff;
        }
        br.advance(buf, bits);
        entry >> 8
    }

    /// The one symbol a single-entry table holds, which is how a channel that
    /// never varies is recognised.
    pub fn only_symbol(&self) -> (r: u8)
        requires
            self.full.len() >= 1,
        ensures
            r == (self.full@[0] >> 8u32) as u8,
    {
        (self.full[0] >> 8) as u8
    }
}

/// A one-entry table reads its symbol without consuming a bit, wherever the
/// reader stands.
pub proof fn law_single_symbol_reads_without_bits(sym: u32, buf: Seq<u8>, c: int)
    requires
        sym < 0x100_0000,
        0 <= c <= 8 * buf.len(),
    ensures
        read_result(seq![entry_of(0, sym)], seq![entry_of(0, sym)], buf, c) == (sym, c, false),
{
    lemma_entry_fields(0, sym);
    assert(stream_bits(buf, c, 32) as u32 & 0u32 == 0) by (bit_vector);
}

/// When a valid code has a single symbol, that symbol is the first (and only)
/// one the length sort puts down.
pub proof fn law_single_symbol_sorts_first(count: Seq<i32>, lengths: Seq<u8>, sorted: Seq<u16>, s: int)
    requires
        counts_nonneg(count),
        code_ok(count, lengths),
        coded(count, 15) == 1,
        sorted_by_length(count, lengths, sorted),
        0 <= s < lengths.len(),
        code_len(lengths[s]) != 0,
    ensures
        sorted[0] == s,
{
    let l = code_len(lengths[s]);
    assert(1 <= l <= 15);
    lemma_hist_mono(lengths, l, s + 1, lengths.len() as int);
    assert(hist(lengths, l, s + 1) == hist(lengths, l, s) + 1);
    lemma_hist_bounds(lengths, l, s);
    lemma_coded_mono(count, l, 15);
    lemma_coded_mono(count, 0, l - 1);
    assert(coded(count, l) == coded(count, l - 1) + count[l]);
    assert(hist_all(lengths, l) == count[l]);
    assert(sorted[sorted_start(count, l) + hist(lengths, l, s)] == s);
}

/// The tables a successful build leaves in the arena can be read: resolving
/// the reader against the arena gives a tree whose root entries all lead
/// inside it.
pub proof fn law_a_built_code_can_be_read(arena: Seq<u32>, rd: Reader, root: Seq<u32>, full: Seq<u32>)
    requires
        rd.mask < rd.len,
        rd.start + rd.len <= arena.len(),
        root_ok(arena.subrange(rd.start as int, rd.start + rd.len), rd.mask + 1, rd.len as int),
        full == arena.subrange(rd.start as int, rd.start + rd.len),
        root == full.subrange(0, rd.mask + 1),
    ensures
        tree_ok(root, full),
{
}

/// Builds one prefix code into `arena`, returning where it landed.
///
/// A length list that is not a usable code is rejected before anything is
/// written; so is one whose second-level tables come out narrower than their
/// codes. The tables are appended to the arena either way once sizing
/// succeeded, as a half-built code's space is not handed back.
pub fn build(arena: &mut Vec<u32>, plan: &mut Plan, lengths: &[u8], sorted: &mut [u16]) -> (r: Result<Reader>)
    requires
        counts_nonneg(old(plan).count@),
        lengths.len() < 0x10000,
        coded(old(plan).count@, 15) <= lengths.len() ==> coded(old(plan).count@, 15) <= old(sorted).len(),
        old(arena).len() + 0x40_0100 <= u32::MAX,
    ensures
        final(plan).count@ == old(plan).count@,
        final(sorted).len() == old(sorted).len(),
        !code_ok(old(plan).count@, lengths@) ==> r == Err::<Reader, Error>(Error::InvalidData) && final(arena)@ == old(arena)@,
        code_ok(old(plan).count@, lengths@) ==> {
            &&& final(plan).num_symbols == coded(old(plan).count@, 15)
            &&& plan_sized(*final(plan))
            &&& sorted_by_length(old(plan).count@, lengths@, final(sorted)@)
        },
        r is Err ==> r == Err::<Reader, Error>(Error::InvalidData) || r == Err::<Reader, Error>(Error::NoMemory),
        r == Err::<Reader, Error>(Error::NoMemory) ==> code_ok(old(plan).count@, lengths@) && final(arena)@ == old(arena)@,
        code_ok(old(plan).count@, lengths@) && r == Err::<Reader, Error>(Error::InvalidData) ==> !fills(
            old(plan).count@,
            final(plan).num_symbols as int,
            final(plan).root_bits as int,
        ),
        code_ok(old(plan).count@, lengths@) && fills(old(plan).count@, final(plan).num_symbols as int, final(plan).root_bits as int)
            ==> r is Ok || r == Err::<Reader, Error>(Error::NoMemory),
        r matches Ok(rd) ==> {
            &&& code_ok(old(plan).count@, lengths@)
            &&& rd.start == old(arena).len()
            &&& rd.len == final(plan).total_size
            &&& rd.mask + 1 == pow2(final(plan).root_bits as nat)
            &&& rd.mask < rd.len
            &&& final(arena)@.len() == old(arena).len() + rd.len
            &&& final(arena)@.subrange(0, old(arena).len() as int) == old(arena)@
            &&& root_ok(final(arena)@.subrange(rd.start as int, rd.start + rd.len), rd.mask + 1, rd.len as int)
            &&& (final(plan).num_symbols == 1 ==> final(arena)@[rd.start as int] == entry_of(0, final(sorted)@[0] as u32))
        },
{
    if !analyze(plan, lengths, sorted) {
        return Err(Error::InvalidData);
    }
    let ghost cnt = plan.count@;
    proof {
        if plan.num_symbols != 1 {
            lemma_max_len_range(cnt, 15);
            if max_len(cnt, 15) == 0 {
                lemma_coded_zero(cnt, 15);
            }
            lemma_table_total_bound(cnt, plan.root_bits as int);
            lemma_pow2_small(plan.root_bits as nat);
        } else {
            lemma_pow2_small(0);
        }
    }
    let start = arena.len();
    let size = plan.total_size;
    if arena.try_reserve(size).is_err() {
        return Err(Error::NoMemory);
    }
    let mut table: Vec<u32> = Vec::new();
    let mut i: usize = 0;
    while i < size
        invariant
            i <= size,
            table@.len() == i,
            forall|j: int| 0 <= j < i ==> table@[j] == 0,
        decreases size - i,
    {
        table.push(0);
        i += 1;
    }
    let ok = fill(plan, table.as_mut_slice(), sorted);
    let ghost filled = table@;
    arena.append(&mut table);
    assert(arena@.subrange(start as int, start + size) =~= filled);
    assert(arena@.subrange(0, start as int) =~= old(arena)@);
    if !ok {
        return Err(Error::InvalidData);
    }
    let mask = pow2_u32(plan.root_bits) - 1;
    Ok(Reader { start: start as u32, len: size as u32, mask })
}

/// A length list with `sym` given length one, unless it is out of range or
/// already has a length.
pub open spec fn marked(lengths: Seq<u8>, sym: int) -> Seq<u8> {
    if 0 <= sym < lengths.len() && lengths[sym] == 0 {
        lengths.update(sym, 1)
    } else {
        lengths
    }
}

/// What the short form of a length list holds, read from a reader at `pos`:
/// one bit for the symbol count less one, one bit for the first symbol's
/// width (eight bits or one), the first symbol, and, for two, an eight-bit
/// second symbol. Gives the count, the two symbols and the reader's state.
pub open spec fn simple_code(buf: Seq<u8>, pos: int, eos: bool) -> (int, int, int, int, bool) {
    let (nb, p1, e1) = take(buf, pos, eos, 1);
    let (wide, p2, e2) = take(buf, p1, e1, 1);
    let (first, p3, e3) = if wide != 0 { take(buf, p2, e2, 8) } else { take(buf, p2, e2, 1) };
    if nb == 1 {
        let (second, p4, e4) = take(buf, p3, e3, 8);
        (2, first, second, p4, e4)
    } else {
        (1, first, -1, p3, e3)
    }
}

fn mark(symbol: u32, plan: &mut Plan, lengths: &mut [u8])
    requires
        old(plan).count@[1] < i32::MAX,
    ensures
        final(lengths)@ == marked(old(lengths)@, symbol as int),
        final(plan).count@ == old(plan).count@.update(
            1,
            (old(plan).count@[1] + if final(lengths)@ != old(lengths)@ { 1int } else { 0int }) as i32,
        ),
        final(plan).num_symbols == old(plan).num_symbols,
        final(plan).root_bits == old(plan).root_bits,
        final(plan).total_size == old(plan).total_size,
{
    let s = symbol as usize;
    if s < lengths.len() && lengths[s] == 0 {
        lengths[s] = 1;
        plan.count[1] = plan.count[1] + 1;
        assert(lengths@ != old(lengths)@) by {
            assert(lengths@[s as int] != old(lengths)@[s as int]);
        }
    } else {
        assert(plan.count@ =~= old(plan).count@.update(1, old(plan).count@[1]));
    }
}

/// The short form of a length list: one or two symbols, each of length one.
///
/// The two symbols may repeat, and the histogram has to stay an exact count of
/// the non-zero lengths for the counting sort to line up, so a symbol that
/// already has a length is not counted again.
pub fn read_simple_code(br: &mut BitReader, buf: &[u8], plan: &mut Plan, lengths: &mut [u8])
    requires
        old(br).wf(buf@),
        old(plan).count@[1] < i32::MAX - 2,
    ensures
        final(br).wf(buf@),
        ({
            let (n, first, second, pos, eos) = simple_code(buf@, old(br).pos as int, old(br).eos);
            let once = marked(old(lengths)@, first);
            let whole = if n == 2 { marked(once, second) } else { once };
            &&& final(br).pos == pos
            &&& final(br).eos == eos
            &&& final(lengths)@ == whole
            &&& final(plan).count@ == old(plan).count@.update(
                1,
                (old(plan).count@[1] + (if once != old(lengths)@ { 1int } else { 0int }) + (if whole != once { 1int } else { 0int })) as i32,
            )
        }),
        final(plan).num_symbols == old(plan).num_symbols,
        final(plan).root_bits == old(plan).root_bits,
        final(plan).total_size == old(plan).total_size,
{
    let nb_symbols = br.bit(buf) + 1;
    let first = if br.bit(buf) != 0 {
        br.bits(buf, 8)
    } else {
        br.bit(buf)
    };
    let ghost c0 = plan.count@;
    mark(first, plan, lengths);
    let ghost c1 = plan.count@;
    if nb_symbols == 2 {
        let second = br.bits(buf, 8);
        mark(second, plan, lengths);
        assert(plan.count@ =~= c0.update(1, plan.count@[1]));
    }
}

proof fn lemma_hist_zero_tail(lengths: Seq<u8>, len: int, n: int, m: int)
    requires
        0 <= n <= m <= lengths.len(),
        1 <= len,
        forall|i: int| n <= i < m ==> lengths[i] == 0,
    ensures
        hist(lengths, len, m) == hist(lengths, len, n),
    decreases m - n,
{
    if n < m {
        lemma_hist_zero_tail(lengths, len, n, m - 1);
    }
}

proof fn lemma_hist_frame(a: Seq<u8>, b: Seq<u8>, len: int, n: int)
    requires
        0 <= n <= a.len(),
        n <= b.len(),
        forall|i: int| 0 <= i < n ==> a[i] == b[i],
    ensures
        hist(a, len, n) == hist(b, len, n),
    decreases n,
{
    if n > 0 {
        lemma_hist_frame(a, b, len, n - 1);
    }
}

/// What reading the length list with the code-length code `root`/`full`
/// gives, from bit `pos` on: the lengths from `symbol` on, each either a
/// length of its own (0 to 15) or a run — 16 repeats the previous non-zero
/// length 3 to 6 times, 17 and 18 skip 3 to 10 and 11 to 138 zeros — until the
/// list is full, `max_symbol` codes have been read, or the stream has ended.
/// A code past 18, or a run past the list's end, is refused. Gives the
/// lengths, the cursor, whether the stream ended, and whether it succeeded.
pub open spec fn lengths_read(
    root: Seq<u32>,
    full: Seq<u32>,
    buf: Seq<u8>,
    pos: int,
    eos: bool,
    lengths: Seq<u8>,
    symbol: int,
    max_symbol: int,
    prev: u8,
) -> (Seq<u8>, int, bool, bool)
    decreases max_symbol,
{
    if symbol >= lengths.len() || max_symbol <= 0 || eos {
        (lengths, pos, eos, true)
    } else {
        let rr = read_result(root, full, buf, pos);
        let sym = rr.0;
        let p1 = rr.1;
        let e1 = eos || rr.2;
        if sym < 16 {
            lengths_read(
                root,
                full,
                buf,
                p1,
                e1,
                lengths.update(symbol, sym as u8),
                symbol + 1,
                max_symbol - 1,
                if sym != 0 { sym as u8 } else { prev },
            )
        } else if sym > 18 {
            (lengths, p1, e1, false)
        } else {
            let t = if sym == 16 { take(buf, p1, e1, 2) } else if sym == 17 { take(buf, p1, e1, 3) } else { take(buf, p1, e1, 7) };
            let repeat = t.0 + if sym == 18 { 11int } else { 3int };
            let length: u8 = if sym == 16 { prev } else { 0 };
            if symbol + repeat > lengths.len() {
                (lengths, t.1, t.2, false)
            } else {
                let l2 = if length != 0 {
                    Seq::new(lengths.len(), |k: int| if symbol <= k < symbol + repeat { length } else { lengths[k] })
                } else {
                    lengths
                };
                lengths_read(root, full, buf, t.1, t.2, l2, symbol + repeat, max_symbol - 1, prev)
            }
        }
    }
}

/// The most recent non-zero length among the first `n` of `l`, or 8 when
/// there is none.
pub open spec fn last_nonzero(l: Seq<u8>, n: int) -> u8
    decreases n,
{
    if n <= 0 {
        8
    } else if l[n - 1] != 0 {
        l[n - 1]
    } else {
        last_nonzero(l, n - 1)
    }
}

/// Reading lengths from position `symbol` on never changes the lengths
/// before it, nor how many there are.
proof fn lemma_lengths_read_keeps_prefix(
    root: Seq<u32>,
    full: Seq<u32>,
    buf: Seq<u8>,
    pos: int,
    eos: bool,
    lengths: Seq<u8>,
    symbol: int,
    max_symbol: int,
    prev: u8,
)
    requires
        0 <= symbol,
    ensures
        lengths_read(root, full, buf, pos, eos, lengths, symbol, max_symbol, prev).0.len() == lengths.len(),
        forall|k: int| 0 <= k < symbol && k < lengths.len() ==> #[trigger] lengths_read(
            root,
            full,
            buf,
            pos,
            eos,
            lengths,
            symbol,
            max_symbol,
            prev,
        ).0[k] == lengths[k],
    decreases max_symbol,
{
    if symbol >= lengths.len() || max_symbol <= 0 || eos {
    } else {
        let rr = read_result(root, full, buf, pos);
        let sym = rr.0;
        let p1 = rr.1;
        let e1 = eos || rr.2;
        if sym < 16 {
            lemma_lengths_read_keeps_prefix(root, full, buf, p1, e1, lengths.update(symbol, sym as u8), symbol + 1,
                max_symbol - 1, if sym != 0 { sym as u8 } else { prev });
        } else if sym > 18 {
        } else {
            let t = if sym == 16 { take(buf, p1, e1, 2) } else if sym == 17 { take(buf, p1, e1, 3) } else { take(buf, p1, e1, 7) };
            crate::vp8l::bitreader::lemma_stream_bits_bound(buf, p1, 2);
            crate::vp8l::bitreader::lemma_stream_bits_bound(buf, p1, 3);
            crate::vp8l::bitreader::lemma_stream_bits_bound(buf, p1, 7);
            assert(t.0 >= 0);
            let repeat = t.0 + if sym == 18 { 11int } else { 3int };
            let length: u8 = if sym == 16 { prev } else { 0 };
            if symbol + repeat <= lengths.len() {
                let l2 = if length != 0 {
                    Seq::new(lengths.len(), |k: int| if symbol <= k < symbol + repeat { length } else { lengths[k] })
                } else {
                    lengths
                };
                {
                    lemma_lengths_read_keeps_prefix(root, full, buf, t.1, t.2, l2, symbol + repeat, max_symbol - 1, prev);
                    assert forall|k: int| 0 <= k < symbol && k < lengths.len() implies #[trigger] lengths_read(
                        root,
                        full,
                        buf,
                        pos,
                        eos,
                        lengths,
                        symbol,
                        max_symbol,
                        prev,
                    ).0[k] == lengths[k] by {
                        assert(l2[k] == lengths[k]);
                    }
                }
            }
        }
    }
}

/// The repeat code 16 writes three to six copies of the most recent non-zero
/// length read before it, or of 8 when none was: wherever the reading stands
/// at a 16 with `prev` the most recent non-zero length before `symbol` (as it
/// is from the start, with no lengths read and `prev` 8), the lengths it
/// covers all come out as that length.
pub proof fn law_repeat_code_sixteen_copies_the_last_non_zero_length(
    root: Seq<u32>,
    full: Seq<u32>,
    buf: Seq<u8>,
    pos: int,
    lengths: Seq<u8>,
    symbol: int,
    max_symbol: int,
    prev: u8,
)
    requires
        0 <= symbol < lengths.len(),
        max_symbol > 0,
        prev == last_nonzero(lengths, symbol),
        read_result(root, full, buf, pos).0 == 16,
        !read_result(root, full, buf, pos).2,
    ensures
        ({
            let rr = read_result(root, full, buf, pos);
            let n = take(buf, rr.1, false, 2).0 + 3;
            let res = lengths_read(root, full, buf, pos, false, lengths, symbol, max_symbol, prev);
            &&& 3 <= n <= 6
            &&& symbol + n <= lengths.len() ==> forall|k: int| symbol <= k < symbol + n ==> #[trigger] res.0[k]
                == last_nonzero(lengths, symbol)
            &&& symbol + n > lengths.len() ==> !res.3
        }),
{
    let rr = read_result(root, full, buf, pos);
    let t = take(buf, rr.1, false, 2);
    crate::vp8l::bitreader::lemma_stream_bits_bound(buf, rr.1, 2);
    vstd::arithmetic::power2::lemma2_to64();
    let n = t.0 + 3;
    if symbol + n <= lengths.len() {
        assert(last_nonzero(lengths, symbol) != 0) by {
            lemma_last_nonzero_nonzero(lengths, symbol);
        }
        let l2 = Seq::new(lengths.len(), |k: int| if symbol <= k < symbol + n { prev } else { lengths[k] });
        lemma_lengths_read_keeps_prefix(root, full, buf, t.1, t.2, l2, symbol + n, max_symbol - 1, prev);
        assert forall|k: int| symbol <= k < symbol + n implies #[trigger] lengths_read(
            root,
            full,
            buf,
            pos,
            false,
            lengths,
            symbol,
            max_symbol,
            prev,
        ).0[k] == last_nonzero(lengths, symbol) by {
            assert(l2[k] == prev);
        }
    }
}

/// What the other code-length symbols write: a symbol below 16 is the
/// length of the next code itself; 17 and 18 are runs of 3 to 10 and 11 to
/// 138 zero lengths, which leave the (zeroed) lengths they cover as they were;
/// and a symbol above 18 refuses the code.
pub proof fn law_what_each_code_length_symbol_writes(
    root: Seq<u32>,
    full: Seq<u32>,
    buf: Seq<u8>,
    pos: int,
    lengths: Seq<u8>,
    symbol: int,
    max_symbol: int,
    prev: u8,
)
    requires
        0 <= symbol < lengths.len(),
        max_symbol > 0,
        !read_result(root, full, buf, pos).2,
    ensures
        ({
            let rr = read_result(root, full, buf, pos);
            let res = lengths_read(root, full, buf, pos, false, lengths, symbol, max_symbol, prev);
            &&& rr.0 < 16 ==> res.0[symbol] == rr.0 as u8
            &&& rr.0 > 18 ==> !res.3
            &&& rr.0 == 17 ==> {
                let n = take(buf, rr.1, false, 3).0 + 3;
                &&& 3 <= n <= 10
                &&& symbol + n <= lengths.len() ==> forall|k: int| symbol <= k < symbol + n ==> #[trigger] res.0[k] == lengths[k]
                &&& symbol + n > lengths.len() ==> !res.3
            }
            &&& rr.0 == 18 ==> {
                let n = take(buf, rr.1, false, 7).0 + 11;
                &&& 11 <= n <= 138
                &&& symbol + n <= lengths.len() ==> forall|k: int| symbol <= k < symbol + n ==> #[trigger] res.0[k] == lengths[k]
                &&& symbol + n > lengths.len() ==> !res.3
            }
        }),
{
    let rr = read_result(root, full, buf, pos);
    crate::vp8l::bitreader::lemma_stream_bits_bound(buf, rr.1, 3);
    crate::vp8l::bitreader::lemma_stream_bits_bound(buf, rr.1, 7);
    vstd::arithmetic::power2::lemma2_to64();
    if rr.0 < 16 {
        lemma_lengths_read_keeps_prefix(root, full, buf, rr.1, rr.2, lengths.update(symbol, rr.0 as u8), symbol + 1,
            max_symbol - 1, if rr.0 != 0 { rr.0 as u8 } else { prev });
    } else if rr.0 == 17 || rr.0 == 18 {
        let t = if rr.0 == 17 { take(buf, rr.1, false, 3) } else { take(buf, rr.1, false, 7) };
        let n = t.0 + if rr.0 == 18 { 11int } else { 3int };
        if symbol + n <= lengths.len() {
            lemma_lengths_read_keeps_prefix(root, full, buf, t.1, t.2, lengths, symbol + n, max_symbol - 1, prev);
        }
    }
}

/// The length list read from position `symbol` on, told from the lengths
/// already in the list rather than from a running value: a repeat code 16
/// copies the most recent non-zero length before where it stands.
pub open spec fn lengths_by_history(
    root: Seq<u32>,
    full: Seq<u32>,
    buf: Seq<u8>,
    pos: int,
    eos: bool,
    lengths: Seq<u8>,
    symbol: int,
    max_symbol: int,
) -> (Seq<u8>, int, bool, bool)
    decreases max_symbol,
{
    if symbol >= lengths.len() || max_symbol <= 0 || eos {
        (lengths, pos, eos, true)
    } else {
        let rr = read_result(root, full, buf, pos);
        let e1 = eos || rr.2;
        if rr.0 < 16 {
            lengths_by_history(root, full, buf, rr.1, e1, lengths.update(symbol, rr.0 as u8), symbol + 1, max_symbol - 1)
        } else if rr.0 > 18 {
            (lengths, rr.1, e1, false)
        } else {
            let t = if rr.0 == 16 { take(buf, rr.1, e1, 2) } else if rr.0 == 17 { take(buf, rr.1, e1, 3) } else { take(buf, rr.1, e1, 7) };
            let repeat = t.0 + if rr.0 == 18 { 11int } else { 3int };
            if symbol + repeat > lengths.len() {
                (lengths, t.1, t.2, false)
            } else {
                let l2 = if rr.0 == 16 {
                    Seq::new(
                        lengths.len(),
                        |k: int| if symbol <= k < symbol + repeat { last_nonzero(lengths, symbol) } else { lengths[k] },
                    )
                } else {
                    lengths
                };
                lengths_by_history(root, full, buf, t.1, t.2, l2, symbol + repeat, max_symbol - 1)
            }
        }
    }
}

/// Reading a length list from the start (nothing read yet, the list zeroed,
/// the running length 8) writes every run of code 16 as copies of the most
/// recent non-zero length before it, 8 if there is none; and so does any
/// reading that stands where its running length is the list's most recent
/// non-zero one.
pub proof fn law_repeats_copy_the_last_non_zero_length_read(
    root: Seq<u32>,
    full: Seq<u32>,
    buf: Seq<u8>,
    pos: int,
    eos: bool,
    lengths: Seq<u8>,
    symbol: int,
    max_symbol: int,
    prev: u8,
)
    requires
        0 <= symbol,
        forall|k: int| symbol <= k < lengths.len() ==> lengths[k] == 0,
        prev == last_nonzero(lengths, symbol),
    ensures
        lengths_read(root, full, buf, pos, eos, lengths, symbol, max_symbol, prev) == lengths_by_history(
            root,
            full,
            buf,
            pos,
            eos,
            lengths,
            symbol,
            max_symbol,
        ),
        symbol == 0 && prev == 8 ==> lengths_read(root, full, buf, pos, eos, lengths, 0, max_symbol, 8)
            == lengths_by_history(root, full, buf, pos, eos, lengths, 0, max_symbol),
    decreases max_symbol,
{
    if symbol >= lengths.len() || max_symbol <= 0 || eos {
    } else {
        let rr = read_result(root, full, buf, pos);
        let sym = rr.0;
        let p1 = rr.1;
        let e1 = eos || rr.2;
        if sym < 16 {
            let l1 = lengths.update(symbol, sym as u8);
            lemma_last_nonzero_prefix(l1, lengths, symbol);
            law_repeats_copy_the_last_non_zero_length_read(root, full, buf, p1, e1, l1, symbol + 1, max_symbol - 1,
                if sym != 0 { sym as u8 } else { prev });
        } else if sym > 18 {
        } else {
            let t = if sym == 16 { take(buf, p1, e1, 2) } else if sym == 17 { take(buf, p1, e1, 3) } else { take(buf, p1, e1, 7) };
            crate::vp8l::bitreader::lemma_stream_bits_bound(buf, p1, 2);
            crate::vp8l::bitreader::lemma_stream_bits_bound(buf, p1, 3);
            crate::vp8l::bitreader::lemma_stream_bits_bound(buf, p1, 7);
            let repeat = t.0 + if sym == 18 { 11int } else { 3int };
            if symbol + repeat <= lengths.len() {
                lemma_last_nonzero_nonzero(lengths, symbol);
                let length: u8 = if sym == 16 { prev } else { 0 };
                let l2 = if length != 0 {
                    Seq::new(lengths.len(), |k: int| if symbol <= k < symbol + repeat { length } else { lengths[k] })
                } else {
                    lengths
                };
                let h2 = if sym == 16 {
                    Seq::new(
                        lengths.len(),
                        |k: int| if symbol <= k < symbol + repeat { last_nonzero(lengths, symbol) } else { lengths[k] },
                    )
                } else {
                    lengths
                };
                assert(l2 =~= h2);
                lemma_last_nonzero_run(l2, lengths, symbol, repeat, length);
                law_repeats_copy_the_last_non_zero_length_read(root, full, buf, t.1, t.2, l2, symbol + repeat,
                    max_symbol - 1, prev);
            }
        }
    }
}

/// The most recent non-zero length is never zero.
proof fn lemma_last_nonzero_nonzero(l: Seq<u8>, n: int)
    ensures
        last_nonzero(l, n) != 0,
    decreases n,
{
    if n > 0 && l[n - 1] == 0 {
        lemma_last_nonzero_nonzero(l, n - 1);
    }
}

/// The reading keeps `prev` the most recent non-zero length before where it
/// stands: one ordinary length moves it on if it is not zero, and a repeat
/// leaves it, whatever it writes.
pub proof fn law_the_repeated_length_follows_the_lengths_read(lengths: Seq<u8>, symbol: int, sym: u8, repeat: int, length: u8)
    requires
        0 <= symbol < lengths.len(),
        repeat >= 1,
        symbol + repeat <= lengths.len(),
        length == 0 || length == last_nonzero(lengths, symbol),
    ensures
        last_nonzero(lengths.update(symbol, sym), symbol + 1) == if sym != 0 { sym } else { last_nonzero(lengths, symbol) },
        last_nonzero(
            if length != 0 {
                Seq::new(lengths.len(), |k: int| if symbol <= k < symbol + repeat { length } else { lengths[k] })
            } else {
                Seq::new(lengths.len(), |k: int| if symbol <= k < symbol + repeat { 0u8 } else { lengths[k] })
            },
            symbol + repeat,
        ) == last_nonzero(lengths, symbol),
{
    lemma_last_nonzero_prefix(lengths.update(symbol, sym), lengths, symbol);
    let l2 = if length != 0 {
        Seq::new(lengths.len(), |k: int| if symbol <= k < symbol + repeat { length } else { lengths[k] })
    } else {
        Seq::new(lengths.len(), |k: int| if symbol <= k < symbol + repeat { 0u8 } else { lengths[k] })
    };
    lemma_last_nonzero_run(l2, lengths, symbol, repeat, length);
}

/// The most recent non-zero length before `n` depends only on the first `n`
/// lengths.
proof fn lemma_last_nonzero_prefix(a: Seq<u8>, b: Seq<u8>, n: int)
    requires
        n <= a.len(),
        n <= b.len(),
        forall|k: int| 0 <= k < n ==> a[k] == b[k],
    ensures
        last_nonzero(a, n) == last_nonzero(b, n),
    decreases n,
{
    if n > 0 {
        lemma_last_nonzero_prefix(a, b, n - 1);
    }
}

/// After a run of `length` (or of zeros) from `symbol`, the most recent
/// non-zero length is the run's, or what it was before the run.
proof fn lemma_last_nonzero_run(l2: Seq<u8>, l: Seq<u8>, symbol: int, repeat: int, length: u8)
    requires
        0 <= symbol,
        repeat >= 0,
        symbol + repeat <= l.len() == l2.len(),
        forall|k: int| 0 <= k < symbol ==> l2[k] == l[k],
        forall|k: int| symbol <= k < symbol + repeat ==> l2[k] == length,
        length == 0 || length == last_nonzero(l, symbol),
    ensures
        last_nonzero(l2, symbol + repeat) == last_nonzero(l, symbol),
    decreases repeat,
{
    if repeat == 0 {
        lemma_last_nonzero_prefix(l2, l, symbol);
    } else {
        lemma_last_nonzero_run(l2, l, symbol, repeat - 1, length);
    }
}

/// Reads the length list with the code-length code `tree`, as
/// [`lengths_read`] says, keeping the histogram in `plan` an exact count of the
/// lengths written. `lengths` arrives zeroed, so a run of zeros is a skip.
#[verifier::rlimit(60)]
fn read_lengths(tree: &Tree, br: &mut BitReader, buf: &[u8], plan: &mut Plan, lengths: &mut [u8], max_symbol: usize) -> (r: Result<()>)
    requires
        old(br).wf(buf@),
        tree_ok(tree.root@, tree.full@),
        old(lengths).len() < 0x10000,
        forall|i: int| 0 <= i < old(lengths).len() ==> old(lengths)@[i] == 0,
        forall|l: int| 0 <= l < 16 ==> 0 <= #[trigger] old(plan).count@[l] <= i32::MAX - 0x10000,
    ensures
        final(br).wf(buf@),
        final(lengths).len() == old(lengths).len(),
        forall|i: int| 0 <= i < final(lengths).len() ==> #[trigger] final(lengths)@[i] <= 15,
        ({
            let res = lengths_read(tree.root@, tree.full@, buf@, old(br).pos as int, old(br).eos, old(lengths)@, 0, max_symbol as int, 8);
            &&& final(lengths)@ == res.0
            &&& final(br).pos == res.1
            &&& final(br).eos == res.2
            &&& r is Ok == res.3
        }),
        r is Ok ==> forall|l: int| 1 <= l <= 15 ==> #[trigger] final(plan).count@[l] == old(plan).count@[l] + hist_all(final(lengths)@, l),
        final(plan).count@[0] == old(plan).count@[0],
        final(plan).num_symbols == old(plan).num_symbols,
        final(plan).root_bits == old(plan).root_bits,
        final(plan).total_size == old(plan).total_size,
        r is Err ==> r == Err::<(), Error>(Error::InvalidData),
{
    let alphabet_size = lengths.len();
    let ghost m0 = max_symbol as int;
    let mut left = max_symbol;
    let ghost total = lengths_read(tree.root@, tree.full@, buf@, br.pos as int, br.eos, lengths@, 0, m0, 8);
    let mut prev_code_len: u8 = 8;
    let mut symbol: usize = 0;
    let ghost c0 = plan.count@;
    while symbol < alphabet_size
        invariant
            lengths_read(tree.root@, tree.full@, buf@, br.pos as int, br.eos, lengths@, symbol as int, left as int, prev_code_len)
                == total,
            total == lengths_read(tree.root@, tree.full@, buf@, old(br).pos as int, old(br).eos, old(lengths)@, 0, m0, 8),
            m0 == max_symbol,
            symbol <= alphabet_size == lengths.len() < 0x10000,
            lengths.len() == old(lengths).len(),
            br.wf(buf@),
            tree_ok(tree.root@, tree.full@),
            1 <= prev_code_len <= 15,
            c0 == old(plan).count@,
            forall|l: int| 0 <= l < 16 ==> 0 <= #[trigger] c0[l] <= i32::MAX - 0x10000,
            plan.count@.len() == 16,
            forall|l: int| 1 <= l <= 15 ==> #[trigger] plan.count@[l] == c0[l] + hist(lengths@, l, symbol as int),
            plan.count@[0] == c0[0],
            plan.num_symbols == old(plan).num_symbols,
            plan.root_bits == old(plan).root_bits,
            plan.total_size == old(plan).total_size,
            forall|i: int| symbol <= i < lengths.len() ==> #[trigger] lengths@[i] == 0,
            forall|i: int| 0 <= i < lengths.len() ==> #[trigger] lengths@[i] <= 15,
        ensures
            lengths@ == total.0 && br.pos == total.1 && br.eos == total.2 && total.3,
            forall|l: int| 1 <= l <= 15 ==> #[trigger] plan.count@[l] == c0[l] + hist(lengths@, l, symbol as int),
            forall|i: int| symbol <= i < lengths.len() ==> #[trigger] lengths@[i] == 0,
        decreases left,
    {
        proof {
            vstd::arithmetic::power2::lemma2_to64();
        }
        let ghost st_pos = br.pos as int;
        let ghost st_eos = br.eos;
        let ghost st_len = lengths@;
        let ghost st_sym = symbol as int;
        let ghost st_max = left as int;
        let ghost st_prev = prev_code_len;
        if left == 0 {
            break;
        }
        left = left - 1;
        if br.is_eos(buf) {
            break;
        }
        let sym = tree.read(br, buf);
        if sym < 16 {
            let ghost before = lengths@;
            lengths[symbol] = sym as u8;
            proof {
                lemma_hist_bounds(before, sym as int, symbol as int);
                assert(sym as u8 % 16 == sym);
            }
            symbol += 1;
            assert(lengths@ =~= st_len.update(st_sym, sym as u8));
            if sym != 0 {
                prev_code_len = sym as u8;
                plan.count[sym as usize] = plan.count[sym as usize] + 1;
            }
            proof {
                assert forall|l: int| 1 <= l <= 15 implies #[trigger] plan.count@[l] == c0[l] + hist(lengths@, l, symbol as int) by {
                    lemma_hist_frame(lengths@, before, l, symbol - 1);
                    assert(hist(lengths@, l, symbol as int) == hist(lengths@, l, symbol - 1) + if code_len(lengths@[symbol - 1]) == l { 1int } else { 0int });
                }
            }
            continue;
        }
        let (repeat, length) = if sym == 16 {
            ((3 + br.bits(buf, 2)) as usize, prev_code_len)
        } else if sym == 17 {
            ((3 + br.bits(buf, 3)) as usize, 0u8)
        } else if sym == 18 {
            ((11 + br.bits(buf, 7)) as usize, 0u8)
        } else {
            assert(lengths_read(tree.root@, tree.full@, buf@, st_pos, st_eos, st_len, st_sym, st_max, st_prev) == (
                lengths@,
                br.pos as int,
                br.eos,
                false,
            ));
            return Err(Error::InvalidData);
        };
        if symbol + repeat > alphabet_size {
            assert(lengths_read(tree.root@, tree.full@, buf@, st_pos, st_eos, st_len, st_sym, st_max, st_prev) == (
                lengths@,
                br.pos as int,
                br.eos,
                false,
            ));
            return Err(Error::InvalidData);
        }
        if length != 0 {
            let ghost before = lengths@;
            let mut j: usize = symbol;
            while j < symbol + repeat
                invariant
                    symbol <= j <= symbol + repeat <= lengths.len(),
                    1 <= length <= 15,
                    lengths.len() == before.len(),
                    forall|i: int| 0 <= i < symbol ==> #[trigger] lengths@[i] == before[i],
                    forall|i: int| symbol <= i < j ==> #[trigger] lengths@[i] == length,
                    forall|i: int| j <= i < lengths.len() ==> #[trigger] lengths@[i] == before[i],
                    forall|i: int| 0 <= i < lengths.len() ==> #[trigger] lengths@[i] <= 15,
                    forall|l: int| 1 <= l <= 15 ==> hist(lengths@, l, j as int) == hist(before, l, symbol as int) + if l == length {
                        j - symbol
                    } else {
                        0
                    },
                decreases symbol + repeat - j,
            {
                let ghost mid = lengths@;
                lengths[j] = length;
                j += 1;
                proof {
                    assert forall|l: int| 1 <= l <= 15 implies hist(lengths@, l, j as int) == hist(before, l, symbol as int) + if l
                        == length {
                        j - symbol
                    } else {
                        0
                    } by {
                        lemma_hist_frame(lengths@, mid, l, j - 1);
                        assert(length as u8 % 16 == length);
                    }
                }
            }
            proof {
                lemma_hist_bounds(before, length as int, symbol as int);
            }
            plan.count[length as usize] = plan.count[length as usize] + repeat as i32;
            assert(lengths@ =~= Seq::new(st_len.len(), |k: int| if st_sym <= k < st_sym + repeat { length } else { st_len[k] }));
        } else {
            proof {
                assert forall|l: int| 1 <= l <= 15 implies hist(lengths@, l, (symbol + repeat) as int) == hist(lengths@, l, symbol as int) by {
                    lemma_hist_zero_tail(lengths@, l, symbol as int, (symbol + repeat) as int);
                }
            }
        }
        symbol = symbol + repeat;
        assert(lengths_read(tree.root@, tree.full@, buf@, st_pos, st_eos, st_len, st_sym, st_max, st_prev) == lengths_read(
            tree.root@,
            tree.full@,
            buf@,
            br.pos as int,
            br.eos,
            lengths@,
            symbol as int,
            left as int,
            prev_code_len,
        ));
    }
    proof {
        assert forall|l: int| 1 <= l <= 15 implies #[trigger] plan.count@[l] == c0[l] + hist_all(lengths@, l) by {
            lemma_hist_zero_tail(lengths@, l, symbol as int, lengths.len() as int);
        }
    }
    Ok(())
}

/// The order in which the code-length code's own lengths are sent.
pub open spec fn code_length_order() -> Seq<u8> {
    seq![17u8, 18, 0, 1, 2, 3, 4, 5, 16, 6, 7, 8, 9, 10, 11, 12, 13, 14, 15]
}

/// The code-length code's lengths, three bits each, read from `pos` into
/// `acc` for the slots `k` to `n` of [`code_length_order`]; gives them with
/// the reader's cursor and end flag.
pub open spec fn code_length_lengths_read(buf: Seq<u8>, pos: int, eos: bool, k: int, n: int, acc: Seq<u8>) -> (Seq<u8>, int, bool)
    decreases n - k,
{
    if k >= n {
        (acc, pos, eos)
    } else {
        let t = take(buf, pos, eos, 3);
        code_length_lengths_read(buf, t.1, t.2, k + 1, n, acc.update(code_length_order()[k] as int, t.0 as u8))
    }
}

/// The head of a long-form length list, read from bit `pos`: how many
/// code-length lengths follow (four plus four bits), the lengths, and then
/// either the number of codes to read (two plus a width of two plus twice
/// three bits) or the whole alphabet. Gives the code-length lengths, the
/// cursor, the end flag, the number of codes to read, and whether that number
/// fits the alphabet.
pub open spec fn normal_header(buf: Seq<u8>, pos: int, eos: bool, alphabet: int) -> (Seq<u8>, int, bool, int, bool) {
    let t = take(buf, pos, eos, 4);
    let c = code_length_lengths_read(buf, t.1, t.2, 0, 4 + t.0, Seq::new(19, |i: int| 0u8));
    let b = take(buf, c.1, c.2, 1);
    if b.0 != 0 {
        let t3 = take(buf, b.1, b.2, 3);
        let tm = take(buf, t3.1, t3.2, 2 + 2 * t3.0);
        (c.0, tm.1, tm.2, 2 + tm.0, 2 + tm.0 <= alphabet)
    } else {
        (c.0, b.1, b.2, alphabet, true)
    }
}

/// The histogram of a length list, one counter per length.
pub open spec fn hist_counts(lengths: Seq<u8>) -> Seq<i32> {
    Seq::new(16, |len: int| hist_all(lengths, len) as i32)
}

/// The root width of the tables a histogram's code is sized at.
pub open spec fn sized_root(count: Seq<i32>) -> int {
    if coded(count, 15) == 1 { 0 } else { root_bits_for(count) }
}

/// How many entries the tables of a histogram's code take.
pub open spec fn sized_total(count: Seq<i32>) -> int {
    if coded(count, 15) == 1 { 1 } else { table_total(count, root_bits_for(count)) }
}

/// The long form of a length list: a prefix code over code lengths, then the
/// lengths themselves, with runs of the previous length or of zeros coded as
/// repeats. `lengths` arrives zeroed, so a run of zeros is just a skip, and the
/// histogram in `plan` is kept an exact count of the lengths written.
#[verifier::rlimit(60)]
pub fn read_normal_code(br: &mut BitReader, buf: &[u8], plan: &mut Plan, lengths: &mut [u8]) -> (r: Result<()>)
    requires
        old(br).wf(buf@),
        old(lengths).len() < 0x10000,
        forall|i: int| 0 <= i < old(lengths).len() ==> old(lengths)@[i] == 0,
        forall|l: int| 0 <= l < 16 ==> 0 <= #[trigger] old(plan).count@[l] <= i32::MAX - 0x10000,
    ensures
        final(br).wf(buf@),
        final(lengths).len() == old(lengths).len(),
        forall|i: int| 0 <= i < final(lengths).len() ==> #[trigger] final(lengths)@[i] <= 15,
        r is Ok ==> forall|l: int| 1 <= l <= 15 ==> #[trigger] final(plan).count@[l] == old(plan).count@[l] + hist_all(final(lengths)@, l),
        final(plan).count@[0] == old(plan).count@[0],
        final(plan).num_symbols == old(plan).num_symbols,
        final(plan).root_bits == old(plan).root_bits,
        final(plan).total_size == old(plan).total_size,
        r is Err ==> r == Err::<(), Error>(Error::InvalidData),
        ({
            let hd = normal_header(buf@, old(br).pos as int, old(br).eos, old(lengths).len() as int);
            let cnt = hist_counts(hd.0);
            let root = sized_root(cnt);
            let usable = hd.4 && code_ok(cnt, hd.0) && sized_total(cnt) <= 128 && fills(cnt, coded(cnt, 15), root);
            &&& !usable ==> r == Err::<(), Error>(Error::InvalidData)
            // With a usable code-length code, the lengths are those it reads.
            &&& usable ==> exists|t: Seq<u32>| {
                &&& t.len() == sized_total(cnt)
                &&& tree_ok(t.subrange(0, pow2(root as nat) as int), t)
                &&& ({
                    let res = lengths_read(t.subrange(0, pow2(root as nat) as int), t, buf@, hd.1, hd.2, old(lengths)@, 0, hd.3, 8);
                    &&& final(lengths)@ == res.0
                    &&& final(br).pos == res.1
                    &&& final(br).eos == res.2
                    &&& r is Ok == res.3
                })
            }
        }),
{
    let order: [u8; 19] = [17, 18, 0, 1, 2, 3, 4, 5, 16, 6, 7, 8, 9, 10, 11, 12, 13, 14, 15];
    let mut sorted = [0u16; 19];
    let mut code_length_lengths = [0u8; 19];
    let mut len_plan = Plan::default();
    let alphabet_size = lengths.len();
    proof {
        vstd::arithmetic::power2::lemma2_to64();
    }
    let ghost pos0 = br.pos as int;
    let ghost eos0 = br.eos;
    let num_codes = 4 + br.bits(buf, 4) as usize;
    let ghost p1 = br.pos as int;
    let ghost e1 = br.eos;
    let ghost cll_total = code_length_lengths_read(buf@, p1, e1, 0, num_codes as int, Seq::new(19, |i: int| 0u8));
    assert(code_length_lengths@ =~= Seq::new(19, |i: int| 0u8));
    let mut k: usize = 0;
    while k < num_codes
        invariant
            k <= num_codes <= 19,
            br.wf(buf@),
            code_length_lengths_read(buf@, br.pos as int, br.eos, k as int, num_codes as int, code_length_lengths@) == cll_total,
            code_length_lengths@.len() == 19,
            order@ == seq![17u8, 18, 0, 1, 2, 3, 4, 5, 16, 6, 7, 8, 9, 10, 11, 12, 13, 14, 15],
        decreases num_codes - k,
    {
        proof {
            vstd::arithmetic::power2::lemma2_to64();
        }
        let slot = order[k] as usize;
        assert(order@[k as int] == code_length_order()[k as int]);
        code_length_lengths[slot] = br.bits(buf, 3) as u8;
        k += 1;
    }
    assert(cll_total == (code_length_lengths@, br.pos as int, br.eos));
    let mut max_symbol = if br.bit(buf) != 0 {
        let bits = 2 + 2 * br.bits(buf, 3);
        let max = 2 + br.bits(buf, bits) as usize;
        if max > alphabet_size {
            return Err(Error::InvalidData);
        }
        max
    } else {
        alphabet_size
    };
    let ghost hd = normal_header(buf@, pos0, eos0, alphabet_size as int);
    assert(hd.0 == code_length_lengths@ && hd.1 == br.pos && hd.2 == br.eos && hd.3 == max_symbol && hd.4);
    let cll = code_length_lengths.as_slice();
    count_lengths(&mut len_plan, cll);
    proof {
        assert forall|l: int| 0 <= l < 16 implies #[trigger] len_plan.count@[l] == hist_counts(cll@)[l] by {
            lemma_hist_bounds(cll@, l, 19);
        }
        assert(len_plan.count@ =~= hist_counts(cll@));
        assert(cll@.len() == 19);
        assert forall|l: int| 0 <= l < 16 implies 0 <= #[trigger] len_plan.count@[l] by {
            assert(len_plan.count@[l] == hist_all(cll@, l));
            lemma_hist_bounds(cll@, l, 19);
        }
        assert forall|l: int| 1 <= l <= 15 implies 0 <= len_plan.count@[l] by {}
        lemma_kraft_space(len_plan.count@, 15);
    }
    if !analyze(&mut len_plan, cll, &mut sorted) {
        return Err(Error::InvalidData);
    }
    if len_plan.total_size > 128 {
        return Err(Error::InvalidData);
    }
    let size = len_plan.total_size;
    let mut table: Vec<u32> = Vec::new();
    let mut i: usize = 0;
    while i < size
        invariant
            i <= size,
            table@.len() == i,
            forall|j: int| 0 <= j < i ==> table@[j] == 0,
        decreases size - i,
    {
        table.push(0);
        i += 1;
    }
    proof {
        if len_plan.num_symbols != 1 {
            lemma_max_len_range(len_plan.count@, 15);
            if max_len(len_plan.count@, 15) == 0 {
                lemma_coded_zero(len_plan.count@, 15);
            }
            lemma_table_total_bound(len_plan.count@, len_plan.root_bits as int);
            lemma_pow2_small(len_plan.root_bits as nat);
        } else {
            lemma_pow2_small(0);
        }
    }
    if !fill(&len_plan, table.as_mut_slice(), &sorted) {
        return Err(Error::InvalidData);
    }
    let reader = Reader { start: 0, len: size as u32, mask: pow2_u32(len_plan.root_bits) - 1 };
    let tree = reader.tree(table.as_slice());
    assert(tree.full@ =~= table@);
    let ghost root = pow2(len_plan.root_bits as nat) as int;
    assert(tree.root@ =~= table@.subrange(0, root));
    let r = read_lengths(&tree, br, buf, plan, lengths, max_symbol);
    assert(table@.len() == sized_total(hist_counts(hd.0)));
    r
}

} // verus!
