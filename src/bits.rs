//! Bit streams: codes as bits, and bits packed into bytes most significant
//! bit first.
use vstd::prelude::*;

verus! {

/// Bit `k` of `v`, counting from the least significant.
pub open spec fn bit_of(v: u8, k: u8) -> bool {
    (v >> k) & 1u8 == 1u8
}

/// The bits of a code, most significant first: the low `length` bits of its
/// value.
pub open spec fn code_bits(code: (u8, u8)) -> Seq<bool> {
    Seq::new(code.1 as nat, |j: int| bit_of(code.0, (code.1 - 1 - j) as u8))
}

/// The bit stream of `input` under `table`: its codes one after another.
pub open spec fn stream_bits(table: Seq<(u8, u8)>, input: Seq<u8>) -> Seq<bool>
    decreases input.len(),
{
    if input.len() == 0 {
        Seq::empty()
    } else {
        stream_bits(table, input.drop_last()) + code_bits(table[input.last() as int])
    }
}

/// At most eight bits as one byte, the first bit in the most significant
/// position and the unused low bits zero.
pub open spec fn pack_byte(bits: Seq<bool>) -> u8
    decreases bits.len(),
{
    if bits.len() == 0 {
        0
    } else {
        let p = pack_byte(bits.drop_last());
        if bits.last() {
            p | (128u8 >> ((bits.len() - 1) as u8))
        } else {
            p
        }
    }
}

/// The whole bytes of a bit stream.
pub open spec fn packed(bits: Seq<bool>) -> Seq<u8> {
    Seq::new(bits.len() / 8, |k: int| pack_byte(bits.subrange(8 * k, 8 * k + 8)))
}

/// The bits after the last whole byte of a bit stream.
pub open spec fn leftover(bits: Seq<bool>) -> Seq<bool> {
    bits.subrange(8 * (bits.len() / 8) as int, bits.len() as int)
}

pub(crate) proof fn lemma_push_bit(bits: Seq<bool>, b: bool)
    ensures
        leftover(bits).len() < 8,
        leftover(bits).len() == 7 ==> packed(bits.push(b)) == packed(bits).push(
            pack_byte(leftover(bits).push(b)),
        ) && leftover(bits.push(b)) == Seq::<bool>::empty(),
        leftover(bits).len() < 7 ==> packed(bits.push(b)) == packed(bits) && leftover(
            bits.push(b),
        ) == leftover(bits).push(b),
{
    let n = bits.len() as int;
    let q = n / 8;
    let nb = bits.push(b);
    if leftover(bits).len() == 7 {
        assert((n + 1) / 8 == q + 1);
        assert(nb.subrange(8 * q, 8 * q + 8) =~= leftover(bits).push(b));
        assert forall|k: int| 0 <= k < q implies #[trigger] nb.subrange(8 * k, 8 * k + 8)
            == bits.subrange(8 * k, 8 * k + 8) by {
            assert(nb.subrange(8 * k, 8 * k + 8) =~= bits.subrange(8 * k, 8 * k + 8));
        }
        assert(packed(nb) =~= packed(bits).push(pack_byte(leftover(bits).push(b))));
        assert(leftover(nb) =~= Seq::<bool>::empty());
    } else {
        assert((n + 1) / 8 == q);
        assert forall|k: int| 0 <= k < q implies #[trigger] nb.subrange(8 * k, 8 * k + 8)
            == bits.subrange(8 * k, 8 * k + 8) by {
            assert(nb.subrange(8 * k, 8 * k + 8) =~= bits.subrange(8 * k, 8 * k + 8));
        }
        assert(packed(nb) =~= packed(bits));
        assert(leftover(nb) =~= leftover(bits).push(b));
    }
}

pub(crate) proof fn lemma_stream_bits_concat(table: Seq<(u8, u8)>, a: Seq<u8>, b: Seq<u8>)
    ensures
        stream_bits(table, a + b) == stream_bits(table, a) + stream_bits(table, b),
    decreases b.len(),
{
    if b.len() == 0 {
        assert(a + b =~= a);
        assert(stream_bits(table, a) + stream_bits(table, b) =~= stream_bits(table, a));
    } else {
        assert((a + b).drop_last() =~= a + b.drop_last());
        assert((a + b).last() == b.last());
        lemma_stream_bits_concat(table, a, b.drop_last());
        assert(stream_bits(table, a + b) =~= stream_bits(table, a) + stream_bits(table, b));
    }
}

pub(crate) proof fn lemma_packed_concat(x: Seq<bool>, y: Seq<bool>)
    ensures
        packed(x + y) == packed(x) + packed(leftover(x) + y),
        leftover(x + y) == leftover(leftover(x) + y),
    decreases y.len(),
{
    let l = leftover(x);
    lemma_push_bit(x, false);
    if y.len() == 0 {
        assert(x + y =~= x);
        assert(l + y =~= l);
        assert(packed(l) =~= Seq::<u8>::empty());
        assert(leftover(l) =~= l);
        assert(packed(x) + packed(l) =~= packed(x));
    } else {
        let y0 = y.drop_last();
        let b = y.last();
        lemma_packed_concat(x, y0);
        assert(x + y =~= (x + y0).push(b));
        assert(l + y =~= (l + y0).push(b));
        lemma_push_bit(x + y0, b);
        lemma_push_bit(l + y0, b);
        if leftover(x + y0).len() == 7 {
            assert(packed(x) + packed(l + y) =~= (packed(x) + packed(l + y0)).push(
                pack_byte(leftover(x + y0).push(b)),
            ));
        }
    }
}

pub(crate) proof fn lemma_pack_byte_bits(bits: Seq<bool>)
    requires
        bits.len() <= 8,
    ensures
        forall|j: int|
            0 <= j < 8 ==> #[trigger] bit_of(pack_byte(bits), (7 - j) as u8) == (j < bits.len()
                && bits[j]),
    decreases bits.len(),
{
    assert(forall|k: u8| k < 8 ==> ((0u8 >> k) & 1u8 == 1u8) == false) by (bit_vector);
    if bits.len() > 0 {
        let prev = bits.drop_last();
        lemma_pack_byte_bits(prev);
        let n = (bits.len() - 1) as u8;
        let p = pack_byte(prev);
        assert(forall|q: u8, m: u8, k: u8|
            m < 8 && k < 8 ==> ((((q | (128u8 >> m)) >> k) & 1u8 == 1u8) == (((q >> k) & 1u8
                == 1u8) || k == 7 - m))) by (bit_vector);
        assert forall|j: int| 0 <= j < 8 implies #[trigger] bit_of(pack_byte(bits), (7 - j) as u8)
            == (j < bits.len() && bits[j]) by {
            let k = (7 - j) as u8;
            if j < bits.len() - 1 {
                assert(bits[j] == prev[j]);
            }
            assert(bit_of(p, k) == (j < prev.len() && prev[j]));
            if bits.last() {
                assert(pack_byte(bits) == p | (128u8 >> n));
                assert(bit_of(p | (128u8 >> n), k) == (bit_of(p, k) || k == 7 - n));
            } else {
                assert(pack_byte(bits) == p);
            }
        }
    }
}

} // verus!
