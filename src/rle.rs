//! The run-length encoder.
use vstd::prelude::*;
use crate::encoder::Encoder;

verus! {

/// Largest run that one output pair can carry.
pub const MAX_RUN: u8 = 255;

/// One step of the run-length state machine on byte `b`, from the run
/// `(last, count)`: the new run and the pair (if any) that the step emits.
/// A `count` of 0 means that no run has started yet.
pub open spec fn rle_step(last: u8, count: u8, b: u8) -> (u8, u8, Seq<u8>) {
    if last == b && count < MAX_RUN {
        (last, (count + 1) as u8, Seq::empty())
    } else if count > 0 {
        (b, 1u8, seq![count, last])
    } else {
        (b, 1u8, Seq::empty())
    }
}

/// The run and the output after feeding `input` left to right from the run
/// `(last, count)`.
pub open spec fn rle_fold(last: u8, count: u8, input: Seq<u8>) -> (u8, u8, Seq<u8>)
    decreases input.len(),
{
    if input.len() == 0 {
        (last, count, Seq::empty())
    } else {
        let (l, c, o) = rle_fold(last, count, input.drop_last());
        let (l2, c2, o2) = rle_step(l, c, input.last());
        (l2, c2, o + o2)
    }
}

/// What closing a run emits: `(count, last)`, or nothing when no run is open.
pub open spec fn rle_tail(last: u8, count: u8) -> Seq<u8> {
    if count > 0 {
        seq![count, last]
    } else {
        Seq::empty()
    }
}

proof fn lemma_fold_concat(last: u8, count: u8, a: Seq<u8>, b: Seq<u8>)
    ensures
        ({
            let (l1, c1, o1) = rle_fold(last, count, a);
            let (l2, c2, o2) = rle_fold(l1, c1, b);
            rle_fold(last, count, a + b) == (l2, c2, o1 + o2)
        }),
    decreases b.len(),
{
    let (l1, c1, o1) = rle_fold(last, count, a);
    if b.len() == 0 {
        assert(a + b =~= a);
        assert(o1 + Seq::<u8>::empty() =~= o1);
    } else {
        assert((a + b).drop_last() =~= a + b.drop_last());
        assert((a + b).last() == b.last());
        lemma_fold_concat(last, count, a, b.drop_last());
        let (l3, c3, o3) = rle_fold(l1, c1, b.drop_last());
        let (l4, c4, o4) = rle_step(l3, c3, b.last());
        assert(o1 + o3 + o4 =~= o1 + (o3 + o4));
    }
}

/// Feeding a stream in two chunks gives the pairs that feeding it whole
/// gives, and leaves the same run open: a run may span chunks.
pub proof fn lemma_encode_chunks(e: RLE, a: Seq<u8>, b: Seq<u8>, mid: RLE, end: RLE)
    requires
        e.advanced(a, &mid),
        mid.advanced(b, &end),
    ensures
        e.encoded(a) + mid.encoded(b) == e.encoded(a + b),
        e.advanced(a + b, &end),
{
    lemma_fold_concat(e.run_byte(), e.run_count(), a, b);
}

/// Two encoders in the same state encode any input alike, move to the same
/// state, and flush alike; in particular two fresh encoders.
pub proof fn lemma_encode_deterministic(e1: RLE, e2: RLE, input: Seq<u8>, n1: RLE, n2: RLE)
    requires
        e1.run_byte() == e2.run_byte(),
        e1.run_count() == e2.run_count(),
        e1.advanced(input, &n1),
        e2.advanced(input, &n2),
    ensures
        e1.encoded(input) == e2.encoded(input),
        n1.run_byte() == n2.run_byte(),
        n1.run_count() == n2.run_count(),
        n1.flushed() == n2.flushed(),
{
}

/// Encoding nothing emits nothing and changes nothing; an encoder with no
/// run open flushes nothing.
pub proof fn lemma_encode_empty(e: RLE)
    ensures
        e.encoded(Seq::empty()) == Seq::<u8>::empty(),
        e.advanced(Seq::empty(), &e),
        e.run_count() == 0 ==> e.flushed() == Seq::<u8>::empty(),
{
}

proof fn lemma_fold_run(v: u8, n: nat)
    requires
        n <= MAX_RUN,
    ensures
        rle_fold(0, 0, Seq::new(n, |i: int| v)) == (
            if n == 0 { 0u8 } else { v },
            n as u8,
            Seq::<u8>::empty(),
        ),
    decreases n,
{
    if n > 0 {
        let s = Seq::new(n, |i: int| v);
        assert(s.drop_last() =~= Seq::new((n - 1) as nat, |i: int| v));
        lemma_fold_run(v, (n - 1) as nat);
        assert(Seq::<u8>::empty() + Seq::<u8>::empty() =~= Seq::<u8>::empty());
    }
}

/// Every pair emitted from a well-formed run carries a count from 1 to 255,
/// so the output is a whole number of pairs.
pub proof fn lemma_counts_in_range(last: u8, count: u8, input: Seq<u8>)
    ensures
        ({
            let (l, c, o) = rle_fold(last, count, input);
            &&& o.len() % 2 == 0
            &&& forall|k: int| 0 <= k < o.len() / 2 ==> 1 <= #[trigger] o[2 * k] <= MAX_RUN
            &&& (input.len() > 0 ==> 1 <= c)
        }),
    decreases input.len(),
{
    if input.len() > 0 {
        lemma_counts_in_range(last, count, input.drop_last());
        let (l, c, o) = rle_fold(last, count, input.drop_last());
        let (l2, c2, o2) = rle_step(l, c, input.last());
        let r = o + o2;
        assert forall|k: int| 0 <= k < r.len() / 2 implies 1 <= #[trigger] r[2 * k] <= MAX_RUN by {
            if k < o.len() / 2 {
                assert(r[2 * k] == o[2 * k]);
            } else {
                assert(2 * k == o.len());
                assert(r[2 * k] == o2[0]);
            }
        }
    }
}

/// A run of 256 equal bytes into a fresh encoder emits one full pair
/// `(255, v)` and leaves a new run of one open, which `flush` emits as
/// `(1, v)`: a count never reaches 256.
pub proof fn lemma_run_of_256(e: RLE, v: u8, next: RLE)
    requires
        e.run_count() == 0,
        e.run_byte() == 0,
        e.advanced(Seq::new(256, |i: int| v), &next),
    ensures
        e.encoded(Seq::new(256, |i: int| v)) == seq![MAX_RUN, v],
        next.flushed() == seq![1u8, v],
{
    let s = Seq::new(256, |i: int| v);
    assert(s.drop_last() =~= Seq::new(255, |i: int| v));
    lemma_fold_run(v, 255);
    assert(Seq::<u8>::empty() + seq![MAX_RUN, v] =~= seq![MAX_RUN, v]);
}

/// `n` copies of `v`.
pub open spec fn repeat(v: u8, n: nat) -> Seq<u8> {
    Seq::new(n, |i: int| v)
}

/// The bytes that a sequence of `(count, byte)` pairs stands for.
pub open spec fn expand(pairs: Seq<u8>) -> Seq<u8>
    decreases pairs.len(),
{
    if pairs.len() < 2 {
        Seq::empty()
    } else {
        let n = pairs.len() as int;
        expand(pairs.subrange(0, n - 2)) + repeat(pairs[n - 1], pairs[n - 2] as nat)
    }
}

proof fn lemma_expand_push_pair(pairs: Seq<u8>, count: u8, v: u8)
    ensures
        expand(pairs + seq![count, v]) == expand(pairs) + repeat(v, count as nat),
{
    let p = pairs + seq![count, v];
    assert(p.subrange(0, p.len() - 2) =~= pairs);
}

/// The pairs emitted so far, followed by the run still open, stand for the
/// run that was open at the start followed by all the input: nothing is
/// lost, reordered or added.
pub proof fn lemma_expand_round_trip(last: u8, count: u8, input: Seq<u8>)
    ensures
        ({
            let (l, c, o) = rle_fold(last, count, input);
            expand(o) + repeat(l, c as nat) == repeat(last, count as nat) + input
        }),
    decreases input.len(),
{
    if input.len() == 0 {
        assert(expand(Seq::<u8>::empty()) + repeat(last, count as nat) =~= repeat(last, count as nat)
            + input);
    } else {
        let prefix = input.drop_last();
        let b = input.last();
        lemma_expand_round_trip(last, count, prefix);
        let (l, c, o) = rle_fold(last, count, prefix);
        assert(input =~= prefix.push(b));
        if l == b && c < MAX_RUN {
            assert(o + Seq::<u8>::empty() =~= o);
            assert(repeat(l, (c + 1) as nat) =~= repeat(l, c as nat).push(b));
            assert(repeat(last, count as nat) + input =~= (repeat(last, count as nat) + prefix).push(b));
        } else if c > 0 {
            lemma_expand_push_pair(o, c, l);
            assert(repeat(b, 1) =~= seq![b]);
            assert(expand(o) + repeat(l, c as nat) + seq![b] =~= (expand(o) + repeat(l, c as nat)).push(b));
            assert(repeat(last, count as nat) + input =~= (repeat(last, count as nat) + prefix).push(b));
        } else {
            assert(o + Seq::<u8>::empty() =~= o);
            assert(repeat(l, 0) =~= Seq::<u8>::empty());
            assert(repeat(b, 1) =~= seq![b]);
            assert(expand(o) + repeat(b, 1) =~= (expand(o) + repeat(l, c as nat)).push(b));
            assert(repeat(last, count as nat) + input =~= (repeat(last, count as nat) + prefix).push(b));
        }
    }
}

/// From a fresh encoder, the pairs of `encode` followed by those of `flush`
/// expand back to exactly the input.
pub proof fn lemma_encode_flush_round_trip(e: RLE, input: Seq<u8>, next: RLE)
    requires
        e.run_count() == 0,
        e.advanced(input, &next),
    ensures
        expand(e.encoded(input) + next.flushed()) == input,
{
    lemma_expand_round_trip(e.run_byte(), e.run_count(), input);
    let o = e.encoded(input);
    assert(repeat(e.run_byte(), 0) + input =~= input);
    if next.run_count() > 0 {
        lemma_expand_push_pair(o, next.run_count(), next.run_byte());
    } else {
        assert(o + Seq::<u8>::empty() =~= o);
        assert(expand(o) + repeat(next.run_byte(), 0) =~= expand(o));
    }
}

/// Run-length encoder: every run of equal bytes becomes pairs
/// `(length, byte)`, with a length from 1 to 255.
pub struct RLE {
    last: u8,
    cnt: u8,
}

impl RLE {
    /// The byte of the run in progress.
    pub closed spec fn run_byte(&self) -> u8 {
        self.last
    }

    /// The length of the run in progress; 0 before the first byte.
    pub closed spec fn run_count(&self) -> u8 {
        self.cnt
    }

    /// A fresh encoder, with no run in progress.
    pub fn new() -> (r: Self)
        ensures
            r.run_count() == 0,
            r.run_byte() == 0,
    {
        RLE { last: 0, cnt: 0 }
    }
}

impl Encoder for RLE {
    open spec fn wf(&self) -> bool {
        true
    }

    open spec fn accepts(&self, input: Seq<u8>) -> bool {
        true
    }

    open spec fn encoded(&self, input: Seq<u8>) -> Seq<u8> {
        rle_fold(self.run_byte(), self.run_count(), input).2
    }

    open spec fn advanced(&self, input: Seq<u8>, next: &Self) -> bool {
        let (l, c, o) = rle_fold(self.run_byte(), self.run_count(), input);
        next.run_byte() == l && next.run_count() == c
    }

    open spec fn flushed(&self) -> Seq<u8> {
        rle_tail(self.run_byte(), self.run_count())
    }

    fn encode(&mut self, buffer: &Vec<u8>) -> (out: Vec<u8>) {
        let mut out: Vec<u8> = Vec::new();
        let ghost start_last = self.last;
        let ghost start_cnt = self.cnt;
        let mut i: usize = 0;
        while i < buffer.len()
            invariant
                0 <= i <= buffer@.len(),
                start_last == old(self).last,
                start_cnt == old(self).cnt,
                rle_fold(start_last, start_cnt, buffer@.subrange(0, i as int)) == (
                self.last,
                self.cnt,
                out@,
                ),
            decreases buffer@.len() - i,
        {
            let b = buffer[i];
            proof {
                let next = buffer@.subrange(0, i + 1);
                assert(next.drop_last() == buffer@.subrange(0, i as int));
                assert(next.last() == b);
            }
            if self.last == b && self.cnt < MAX_RUN {
                self.cnt = self.cnt + 1;
            } else {
                if self.cnt > 0 {
                    out.push(self.cnt);
                    out.push(self.last);
                }
                self.last = b;
                self.cnt = 1;
            }
            i = i + 1;
        }
        assert(buffer@.subrange(0, buffer@.len() as int) == buffer@);
        out
    }

    fn flush(&mut self) -> (out: Vec<u8>) {
        if self.cnt > 0 {
            vec![self.cnt, self.last]
        } else {
            Vec::new()
        }
    }
}

} // verus!
