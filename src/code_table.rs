//! Symbol frequencies and the rank code table built from them.
use vstd::prelude::*;
use crate::bits::{bit_of, code_bits};

verus! {

/// Number of distinct byte values.
pub const SYMBOLS: usize = 256;

/// Longest code that the one-byte accumulator can splice.
pub const MAX_CODE_LEN: u8 = 8;

// ---------------------------------------------------------------------------
// Frequencies

/// How many times `s` occurs in `input`.
pub open spec fn count_of(input: Seq<u8>, s: u8) -> nat
    decreases input.len(),
{
    if input.len() == 0 {
        0
    } else {
        count_of(input.drop_last(), s) + if input.last() == s {
            1nat
        } else {
            0nat
        }
    }
}

/// The sum of the first `n` entries of `freq`.
pub open spec fn total(freq: Seq<u32>, n: int) -> int
    decreases n,
{
    if n <= 0 {
        0
    } else {
        total(freq, n - 1) + freq[n - 1]
    }
}

pub(crate) proof fn lemma_total_bump(freq: Seq<u32>, i: int, n: int)
    requires
        0 <= i < freq.len(),
        n <= freq.len(),
        freq[i] < u32::MAX,
    ensures
        total(freq.update(i, (freq[i] + 1) as u32), n) == total(freq, n) + if i < n {
            1int
        } else {
            0int
        },
    decreases n,
{
    if n > 0 {
        lemma_total_bump(freq, i, n - 1);
    }
}

pub(crate) proof fn lemma_total_zero(freq: Seq<u32>, n: int)
    requires
        n <= freq.len(),
        forall|k: int| 0 <= k < n ==> freq[k] == 0,
    ensures
        total(freq, n) == 0,
    decreases n,
{
    if n > 0 {
        lemma_total_zero(freq, n - 1);
    }
}

pub(crate) proof fn lemma_count_of_bounded(input: Seq<u8>, s: u8)
    ensures
        count_of(input, s) <= input.len(),
    decreases input.len(),
{
    if input.len() > 0 {
        lemma_count_of_bounded(input.drop_last(), s);
    }
}

// ---------------------------------------------------------------------------
// Code table

/// Symbol `t` ranks before symbol `s`: it is more frequent, or as frequent
/// and smaller.
pub open spec fn ranks_before(freq: Seq<u32>, t: int, s: int) -> bool {
    freq[t] > freq[s] || (freq[t] == freq[s] && t < s)
}

/// How many of the symbols below `n` rank before `s`.
pub open spec fn rank_upto(freq: Seq<u32>, s: int, n: int) -> nat
    decreases n,
{
    if n <= 0 {
        0
    } else {
        rank_upto(freq, s, n - 1) + if ranks_before(freq, n - 1, s) {
            1nat
        } else {
            0nat
        }
    }
}

/// The position of `s` when all symbols are sorted by descending frequency,
/// equal frequencies in ascending symbol order.
pub open spec fn rank(freq: Seq<u32>, s: int) -> nat {
    rank_upto(freq, s, SYMBOLS as int)
}

/// Rotation of a byte left by one bit.
pub open spec fn rotl1(v: u8) -> u8 {
    (v << 1u8) | (v >> 7u8)
}

/// Code value at rank `r`: start at 0; after each rank rotate left and set
/// bit 1, except after the second-to-last rank, where only bit 0 is set.
pub open spec fn code_value_at(r: nat) -> u8
    decreases r,
{
    if r == 0 {
        0
    } else if r - 1 == SYMBOLS - 2 {
        code_value_at((r - 1) as nat) | 1u8
    } else {
        rotl1(code_value_at((r - 1) as nat)) | 2u8
    }
}

/// Code length at rank `r`: one more bit per rank, the last two ranks sharing
/// a length.
pub open spec fn code_len_at(r: nat) -> u8 {
    if r < SYMBOLS - 1 {
        (r + 1) as u8
    } else {
        (SYMBOLS - 1) as u8
    }
}

/// The code table built from `freq`: for each symbol, its (value, length).
pub open spec fn code_table(freq: Seq<u32>) -> Seq<(u8, u8)> {
    Seq::new(
        SYMBOLS as nat,
        |s: int| (code_value_at(rank(freq, s)), code_len_at(rank(freq, s))),
    )
}

// ---------------------------------------------------------------------------
// Laws

proof fn lemma_small_code_values()
    ensures
        code_value_at(0) == 0u8,
        code_value_at(1) == 2u8,
        code_value_at(2) == 6u8,
        code_value_at(3) == 14u8,
        code_value_at(4) == 30u8,
        code_value_at(5) == 62u8,
        code_value_at(6) == 126u8,
        code_value_at(7) == 254u8,
{
    reveal_with_fuel(code_value_at, 8);
    assert(((0u8 << 1u8) | (0u8 >> 7u8)) | 2u8 == 2u8) by (bit_vector);
    assert(((2u8 << 1u8) | (2u8 >> 7u8)) | 2u8 == 6u8) by (bit_vector);
    assert(((6u8 << 1u8) | (6u8 >> 7u8)) | 2u8 == 14u8) by (bit_vector);
    assert(((14u8 << 1u8) | (14u8 >> 7u8)) | 2u8 == 30u8) by (bit_vector);
    assert(((30u8 << 1u8) | (30u8 >> 7u8)) | 2u8 == 62u8) by (bit_vector);
    assert(((62u8 << 1u8) | (62u8 >> 7u8)) | 2u8 == 126u8) by (bit_vector);
    assert(((126u8 << 1u8) | (126u8 >> 7u8)) | 2u8 == 254u8) by (bit_vector);
}

/// The codes of the first eight ranks, the ones of at most eight bits:
/// rank `r` is `r` one-bits and then a zero-bit.
pub proof fn lemma_small_code_shape(r: nat)
    requires
        r < 8,
    ensures
        code_len_at(r) == r + 1,
        code_bits((code_value_at(r), code_len_at(r))) == Seq::new(r + 1, |j: int| j < r),
{
    lemma_small_code_values();
    let v = code_value_at(r);
    let n = code_len_at(r);
    assert(forall|k: u8| k < 8 ==> (((0u8 >> k) & 1u8 == 1u8) == false)) by (bit_vector);
    assert(forall|k: u8| k < 8 ==> (((2u8 >> k) & 1u8 == 1u8) == (1u8 <= k && k <= 1u8))) by (bit_vector);
    assert(forall|k: u8| k < 8 ==> (((6u8 >> k) & 1u8 == 1u8) == (1u8 <= k && k <= 2u8))) by (bit_vector);
    assert(forall|k: u8| k < 8 ==> (((14u8 >> k) & 1u8 == 1u8) == (1u8 <= k && k <= 3u8))) by (bit_vector);
    assert(forall|k: u8| k < 8 ==> (((30u8 >> k) & 1u8 == 1u8) == (1u8 <= k && k <= 4u8))) by (bit_vector);
    assert(forall|k: u8| k < 8 ==> (((62u8 >> k) & 1u8 == 1u8) == (1u8 <= k && k <= 5u8))) by (bit_vector);
    assert(forall|k: u8| k < 8 ==> (((126u8 >> k) & 1u8 == 1u8) == (1u8 <= k && k <= 6u8))) by (bit_vector);
    assert(forall|k: u8| k < 8 ==> (((254u8 >> k) & 1u8 == 1u8) == (1u8 <= k && k <= 7u8))) by (bit_vector);
    assert forall|j: int| 0 <= j < r + 1 implies #[trigger] bit_of(v, (n - 1 - j) as u8) == (j < r) by {
        let k = (n - 1 - j) as u8;
        assert(k < 8);
    }
    assert(code_bits((v, n)) =~= Seq::new(r + 1, |j: int| j < r));
}

proof fn lemma_ranks_before_trans(freq: Seq<u32>, a: int, b: int, c: int)
    requires
        ranks_before(freq, a, b),
        ranks_before(freq, b, c),
    ensures
        ranks_before(freq, a, c),
{
}

proof fn lemma_rank_upto_mono(freq: Seq<u32>, s1: int, s2: int, n: int)
    requires
        0 <= s1,
        ranks_before(freq, s1, s2),
    ensures
        rank_upto(freq, s1, n) <= rank_upto(freq, s2, n),
        n > s1 ==> rank_upto(freq, s1, n) < rank_upto(freq, s2, n),
    decreases n,
{
    if n > 0 {
        lemma_rank_upto_mono(freq, s1, s2, n - 1);
        if ranks_before(freq, n - 1, s1) {
            lemma_ranks_before_trans(freq, n - 1, s1, s2);
        }
    }
}

/// Distinct symbols get distinct ranks.
pub proof fn lemma_rank_injective(freq: Seq<u32>, s1: int, s2: int)
    requires
        0 <= s1 < SYMBOLS,
        0 <= s2 < SYMBOLS,
        s1 != s2,
    ensures
        rank(freq, s1) != rank(freq, s2),
{
    if ranks_before(freq, s1, s2) {
        lemma_rank_upto_mono(freq, s1, s2, SYMBOLS as int);
    } else {
        lemma_rank_upto_mono(freq, s2, s1, SYMBOLS as int);
    }
}

/// In a table built from any frequencies, no code of at most eight bits is
/// a prefix of the code of another symbol: a stream of supported codes reads
/// back one way only.
pub proof fn lemma_code_table_prefix_free(freq: Seq<u32>, s1: int, s2: int)
    requires
        0 <= s1 < SYMBOLS,
        0 <= s2 < SYMBOLS,
        s1 != s2,
        code_table(freq)[s1].1 <= MAX_CODE_LEN,
        code_table(freq)[s2].1 <= MAX_CODE_LEN,
    ensures
        !(code_bits(code_table(freq)[s1]).is_prefix_of(code_bits(code_table(freq)[s2]))),
{
    let r1 = rank(freq, s1);
    let r2 = rank(freq, s2);
    lemma_rank_injective(freq, s1, s2);
    assert(r1 < 8 && r2 < 8);
    lemma_small_code_shape(r1);
    lemma_small_code_shape(r2);
    let c1 = code_bits(code_table(freq)[s1]);
    let c2 = code_bits(code_table(freq)[s2]);
    if r1 < r2 {
        assert(c1[r1 as int] == false);
        assert(c2[r1 as int] == true);
    }
}

} // verus!
