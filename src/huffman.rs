//! The rank encoder: codes spliced bit by bit into a byte stream, with a
//! partial byte carried between calls.
use vstd::prelude::*;
use crate::encoder::Encoder;
use crate::bits::{
    bit_of, code_bits, leftover, lemma_pack_byte_bits, lemma_packed_concat, lemma_push_bit,
    lemma_stream_bits_concat, pack_byte, packed, stream_bits,
};
use crate::code_table::{
    code_len_at, code_table, code_value_at, count_of, lemma_count_of_bounded, lemma_total_bump,
    lemma_total_zero, rank_upto, total, MAX_CODE_LEN, SYMBOLS,
};

verus! {

// ---------------------------------------------------------------------------
// Encoder

/// Why `encode_checked` refused a chunk.
#[derive(Debug, Clone, Copy, PartialEq, Eq, Structural)]
pub enum EncodeError {
    /// The symbol's code is longer than the one-byte accumulator can take.
    UnsupportedCodeLength { symbol: u8, length: u8 },
}

/// Frequency-ranked prefix-code encoder. Its code table is built once from
/// symbol frequencies; the bits of a partly filled output byte are carried
/// from one `encode` call to the next.
pub struct Huffman {
    table: Vec<(u8, u8)>,
    byte: u8,
    offset: u8,
    pending: Ghost<Seq<bool>>,
}

impl Huffman {
    /// The code table: (value, length) for each symbol.
    pub closed spec fn codes(&self) -> Seq<(u8, u8)> {
        self.table@
    }

    /// The bits already taken in but not yet emitted as a whole byte.
    pub closed spec fn pending_bits(&self) -> Seq<bool> {
        self.pending@
    }

    /// The state invariant: a full table, fewer than eight pending bits, and
    /// the pending byte holding exactly them.
    pub closed spec fn inv(&self) -> bool {
        &&& self.table@.len() == SYMBOLS
        &&& forall|k: int| 0 <= k < SYMBOLS ==> 1 <= #[trigger] self.table@[k].1
        &&& self.pending@.len() == self.offset as int
        &&& self.offset < 8
        &&& self.byte == pack_byte(self.pending@)
    }

    /// The code of `symbol` fits the one-byte accumulator.
    pub open spec fn fits(&self, symbol: u8) -> bool {
        1 <= self.codes()[symbol as int].1 <= MAX_CODE_LEN
    }

    /// Every symbol of `input` has a code that fits the accumulator.
    pub open spec fn supports(&self, input: Seq<u8>) -> bool {
        forall|i: int| 0 <= i < input.len() ==> self.fits(#[trigger] input[i])
    }

    /// Builds the code table from `frequencies` and starts with no pending
    /// bits. Symbols are ranked by descending frequency, ties broken by the
    /// smaller symbol; rank `r` gets the code `(code_value_at(r),
    /// code_len_at(r))`.
    pub fn new(frequencies: [u32; 256]) -> (r: Self)
        ensures
            r.inv(),
            r.codes() == code_table(frequencies@),
            r.pending_bits() == Seq::<bool>::empty(),
    {
        let mut by_rank: Vec<(u8, u8)> = Vec::new();
        let mut value: u8 = 0;
        let mut length: u8 = 1;
        let mut r: usize = 0;
        while r < SYMBOLS
            invariant
                0 <= r <= SYMBOLS,
                by_rank@.len() == r,
                r < SYMBOLS ==> value == code_value_at(r as nat) && length == code_len_at(r as nat),
                forall|k: int|
                    0 <= k < r ==> #[trigger] by_rank@[k] == (code_value_at(k as nat), code_len_at(k as nat)),
            decreases SYMBOLS - r,
        {
            by_rank.push((value, length));
            if r == SYMBOLS - 2 {
                value = value | 1;
            } else if r < SYMBOLS - 2 {
                value = (value << 1u8) | (value >> 7u8);
                value = value | 2;
                length = length + 1;
            }
            r = r + 1;
        }
        let mut table: Vec<(u8, u8)> = Vec::new();
        let mut s: usize = 0;
        while s < SYMBOLS
            invariant
                0 <= s <= SYMBOLS,
                by_rank@.len() == SYMBOLS,
                forall|k: int|
                    0 <= k < SYMBOLS ==> #[trigger] by_rank@[k] == (code_value_at(k as nat), code_len_at(k as nat)),
                table@.len() == s,
                forall|k: int| 0 <= k < s ==> #[trigger] table@[k] == code_table(frequencies@)[k],
            decreases SYMBOLS - s,
        {
            let mut ahead: usize = 0;
            let mut t: usize = 0;
            while t < SYMBOLS
                invariant
                    0 <= t <= SYMBOLS,
                    s < SYMBOLS,
                    ahead as int == rank_upto(frequencies@, s as int, t as int),
                    ahead <= t,
                    t > s ==> ahead < t,
                decreases SYMBOLS - t,
            {
                if frequencies[t] > frequencies[s] || (frequencies[t] == frequencies[s] && t < s) {
                    ahead = ahead + 1;
                }
                t = t + 1;
            }
            table.push(by_rank[ahead]);
            s = s + 1;
        }
        assert(table@ =~= code_table(frequencies@));
        Huffman { table, byte: 0, offset: 0, pending: Ghost(Seq::empty()) }
    }

    /// Appends the bits of `code` to the stream: `out` gets each byte that
    /// fills up, the rest stays pending.
    fn splice_code(&mut self, code: (u8, u8), out: &mut Vec<u8>, Ghost(all): Ghost<Seq<bool>>)
        requires
            old(self).inv(),
            1 <= code.1 <= MAX_CODE_LEN,
            old(out)@ == packed(all),
            old(self).pending_bits() == leftover(all),
        ensures
            final(self).inv(),
            final(self).codes() == old(self).codes(),
            final(out)@ == packed(all + code_bits(code)),
            final(self).pending_bits() == leftover(all + code_bits(code)),
    {
        let (value, length) = code;
        let mut j: u8 = 0;
        while j < length
            invariant
                self.inv(),
                self.codes() == old(self).codes(),
                1 <= length <= MAX_CODE_LEN,
                code == (value, length),
                0 <= j <= length,
                out@ == packed(all + code_bits(code).subrange(0, j as int)),
                self.pending_bits() == leftover(all + code_bits(code).subrange(0, j as int)),
            decreases length - j,
        {
            let bit = (value >> (length - 1 - j)) & 1u8 == 1u8;
            let ghost cur = all + code_bits(code).subrange(0, j as int);
            proof {
                assert(all + code_bits(code).subrange(0, j + 1) =~= cur.push(bit));
                lemma_push_bit(cur, bit);
            }
            if bit {
                self.byte = self.byte | (128u8 >> self.offset);
            }
            self.pending = Ghost(self.pending@.push(bit));
            proof {
                assert(self.pending@.drop_last() == leftover(cur));
            }
            self.offset = self.offset + 1;
            if self.offset == 8 {
                out.push(self.byte);
                self.byte = 0;
                self.offset = 0;
                self.pending = Ghost(Seq::empty());
            }
            j = j + 1;
        }
        assert(code_bits(code).subrange(0, length as int) =~= code_bits(code));
    }

    /// Like `encode`, but refuses a chunk that holds a symbol whose code is
    /// longer than eight bits, naming the first such symbol; the state is then
    /// left as it was.
    pub fn encode_checked(&mut self, buffer: &Vec<u8>) -> (r: Result<Vec<u8>, EncodeError>)
        requires
            old(self).inv(),
        ensures
            final(self).inv(),
            r is Ok <==> old(self).supports(buffer@),
            r matches Ok(out) ==> out@ == old(self).encoded(buffer@) && old(self).advanced(
                buffer@,
                final(self),
            ),
            r matches Err(e) ==> *final(self) == *old(self) && exists|i: int|
                0 <= i < buffer@.len() && #[trigger] buffer@[i] == e->symbol && e->length
                    == old(self).codes()[buffer@[i] as int].1 && (forall|k: int|
                    0 <= k < i ==> old(self).fits(#[trigger] buffer@[k])),
    {
        let mut i: usize = 0;
        while i < buffer.len()
            invariant
                self.inv(),
                0 <= i <= buffer@.len(),
                self == old(self),
                forall|k: int| 0 <= k < i ==> self.fits(#[trigger] buffer@[k]),
            decreases buffer@.len() - i,
        {
            let b = buffer[i];
            let length = self.table[b as usize].1;
            if length > MAX_CODE_LEN {
                return Err(EncodeError::UnsupportedCodeLength { symbol: b, length });
            }
            i = i + 1;
        }
        Ok(self.encode(buffer))
    }

    /// Counts the occurrences of each byte value in `buffer`.
    pub fn build_frequencies(buffer: &Vec<u8>) -> (r: [u32; 256])
        requires
            buffer@.len() <= u32::MAX,
        ensures
            forall|s: int| 0 <= s < SYMBOLS ==> r@[s] == count_of(buffer@, s as u8),
            total(r@, SYMBOLS as int) == buffer@.len(),
    {
        let mut counts: [u32; 256] = [0u32; 256];
        let mut i: usize = 0;
        proof {
            lemma_total_zero(counts@, SYMBOLS as int);
        }
        while i < buffer.len()
            invariant
                0 <= i <= buffer@.len(),
                buffer@.len() <= u32::MAX,
                total(counts@, SYMBOLS as int) == i,
                forall|s: int|
                    0 <= s < SYMBOLS ==> #[trigger] counts@[s] == count_of(
                        buffer@.subrange(0, i as int),
                        s as u8,
                    ),
            decreases buffer@.len() - i,
        {
            let b = buffer[i];
            let ghost prefix = buffer@.subrange(0, i as int);
            let ghost next = buffer@.subrange(0, i + 1);
            proof {
                assert(next.drop_last() == prefix);
                lemma_count_of_bounded(prefix, b);
            }
            let c = counts[b as usize];
            let ghost before = counts@;
            counts[b as usize] = c + 1;
            proof {
                assert(counts@ == before.update(b as int, (before[b as int] + 1) as u32));
                lemma_total_bump(before, b as int, SYMBOLS as int);
            }
            proof {
                assert forall|s: int| 0 <= s < SYMBOLS implies #[trigger] counts@[s] == count_of(
                    next,
                    s as u8,
                ) by {
                    assert(count_of(next, s as u8) == count_of(prefix, s as u8) + if b == s as u8 {
                        1nat
                    } else {
                        0nat
                    });
                }
            }
            i = i + 1;
        }
        assert(buffer@.subrange(0, buffer@.len() as int) == buffer@);
        counts
    }
}

impl Encoder for Huffman {
    open spec fn wf(&self) -> bool {
        self.inv()
    }

    open spec fn accepts(&self, input: Seq<u8>) -> bool {
        self.supports(input)
    }

    open spec fn encoded(&self, input: Seq<u8>) -> Seq<u8> {
        packed(self.pending_bits() + stream_bits(self.codes(), input))
    }

    open spec fn advanced(&self, input: Seq<u8>, next: &Self) -> bool {
        &&& next.codes() == self.codes()
        &&& next.pending_bits() == leftover(self.pending_bits() + stream_bits(self.codes(), input))
    }

    open spec fn flushed(&self) -> Seq<u8> {
        if self.pending_bits().len() > 0 {
            seq![pack_byte(self.pending_bits())]
        } else {
            Seq::empty()
        }
    }

    fn encode(&mut self, buffer: &Vec<u8>) -> (out: Vec<u8>) {
        let mut out: Vec<u8> = Vec::new();
        let ghost start = self.pending@;
        let ghost codes = self.table@;
        let mut i: usize = 0;
        proof {
            assert(start + stream_bits(codes, buffer@.subrange(0, 0)) =~= start);
            assert(packed(start) =~= Seq::<u8>::empty());
            assert(leftover(start) =~= start);
        }
        while i < buffer.len()
            invariant
                self.inv(),
                self.table@ == codes,
                codes == old(self).table@,
                start == old(self).pending@,
                self.supports(buffer@),
                0 <= i <= buffer@.len(),
                out@ == packed(start + stream_bits(codes, buffer@.subrange(0, i as int))),
                self.pending@ == leftover(start + stream_bits(codes, buffer@.subrange(0, i as int))),
            decreases buffer@.len() - i,
        {
            let b = buffer[i];
            let code = self.table[b as usize];
            let ghost all = start + stream_bits(codes, buffer@.subrange(0, i as int));
            proof {
                let next = buffer@.subrange(0, i + 1);
                assert(next.drop_last() == buffer@.subrange(0, i as int));
                assert(next.last() == b);
                assert(start + stream_bits(codes, next) =~= all + code_bits(code));
                assert(self.fits(buffer@[i as int]));
            }
            self.splice_code(code, &mut out, Ghost(all));
            i = i + 1;
        }
        assert(buffer@.subrange(0, buffer@.len() as int) == buffer@);
        out
    }

    fn flush(&mut self) -> (out: Vec<u8>) {
        if self.offset > 0 {
            vec![self.byte]
        } else {
            Vec::new()
        }
    }
}

// ---------------------------------------------------------------------------
// Laws

/// The output of `encode` and then `flush` holds the stream's bits in
/// order, most significant bit of each byte first, padded with zero-bits to
/// a whole byte: bit `i` of the output is bit `i` of the pending bits and
/// the codes of the input, and the output is as short as that allows.
pub proof fn lemma_output_bits(h: Huffman, input: Seq<u8>, next: Huffman)
    requires
        h.wf(),
        h.advanced(input, &next),
    ensures
        ({
            let all = h.pending_bits() + stream_bits(h.codes(), input);
            let out = h.encoded(input) + next.flushed();
            &&& out.len() == (all.len() + 7) / 8
            &&& forall|i: int|
                0 <= i < 8 * out.len() ==> #[trigger] bit_of(out[i / 8], (7 - i % 8) as u8) == (i
                    < all.len() && all[i])
        }),
{
    let all = h.pending_bits() + stream_bits(h.codes(), input);
    let full = packed(all);
    let rest = leftover(all);
    let out = full + next.flushed();
    let q = all.len() / 8;
    assert(next.pending_bits() == rest);
    assert forall|i: int| 0 <= i < 8 * out.len() implies #[trigger] bit_of(out[i / 8], (7 - i % 8) as u8)
        == (i < all.len() && all[i]) by {
        let m = i / 8;
        let j = i % 8;
        if m < q {
            let chunk = all.subrange(8 * m, 8 * m + 8);
            lemma_pack_byte_bits(chunk);
            assert(out[m] == pack_byte(chunk));
            assert(chunk[j] == all[i]);
        } else {
            assert(rest.len() > 0);
            lemma_pack_byte_bits(rest);
            assert(out[m] == pack_byte(rest));
            if j < rest.len() {
                assert(rest[j] == all[i]);
            }
        }
    }
}

/// Feeding a stream in two chunks gives the bytes that feeding it whole
/// gives, and leaves the same pending bits: what `encode` emits depends on
/// the bytes seen so far, never on where the chunks were cut.
pub proof fn lemma_encode_chunks(h: Huffman, a: Seq<u8>, b: Seq<u8>, mid: Huffman, end: Huffman)
    requires
        h.wf(),
        h.advanced(a, &mid),
        mid.advanced(b, &end),
    ensures
        h.encoded(a) + mid.encoded(b) == h.encoded(a + b),
        h.advanced(a + b, &end),
{
    let t = h.codes();
    let p = h.pending_bits();
    lemma_stream_bits_concat(t, a, b);
    lemma_packed_concat(p + stream_bits(t, a), stream_bits(t, b));
    assert(p + stream_bits(t, a + b) =~= (p + stream_bits(t, a)) + stream_bits(t, b));
}

/// Two encoders with the same code table and the same pending bits encode
/// any input alike, move to the same pending bits, and flush alike; in
/// particular two fresh encoders built from one frequency table.
pub proof fn lemma_encode_deterministic(h1: Huffman, h2: Huffman, input: Seq<u8>, n1: Huffman, n2: Huffman)
    requires
        h1.codes() == h2.codes(),
        h1.pending_bits() == h2.pending_bits(),
        h1.advanced(input, &n1),
        h2.advanced(input, &n2),
    ensures
        h1.encoded(input) == h2.encoded(input),
        n1.codes() == n2.codes(),
        n1.pending_bits() == n2.pending_bits(),
        n1.flushed() == n2.flushed(),
{
}

/// Encoding nothing emits nothing and changes nothing; a fresh encoder
/// flushes nothing.
pub proof fn lemma_encode_empty(h: Huffman)
    requires
        h.wf(),
    ensures
        h.encoded(Seq::empty()) == Seq::<u8>::empty(),
        h.advanced(Seq::empty(), &h),
        h.pending_bits().len() == 0 ==> h.flushed() == Seq::<u8>::empty(),
{
    let p = h.pending_bits();
    assert(p + stream_bits(h.codes(), Seq::empty()) =~= p);
    assert(packed(p) =~= Seq::<u8>::empty());
    assert(leftover(p) =~= p);
}

} // verus!
