//! The interface that both encoders implement.
use vstd::prelude::*;

verus! {

/// A stateful byte-stream encoder: `encode` is fed the stream chunk by chunk,
/// and `flush` drains what is still held once the input has ended.
///
/// Each implementation describes itself through spec functions: `wf` is the
/// state invariant, `accepts` the inputs `encode` supports from this state,
/// `encoded` what it returns, `advanced` how the state moves on, and
/// `flushed` what `flush` returns.
pub trait Encoder: Sized {
    spec fn wf(&self) -> bool;

    spec fn accepts(&self, input: Seq<u8>) -> bool;

    spec fn encoded(&self, input: Seq<u8>) -> Seq<u8>;

    spec fn advanced(&self, input: Seq<u8>, next: &Self) -> bool;

    spec fn flushed(&self) -> Seq<u8>;

    fn encode(&mut self, buffer: &Vec<u8>) -> (out: Vec<u8>)
        requires
            old(self).wf(),
            old(self).accepts(buffer@),
        ensures
            final(self).wf(),
            out@ == old(self).encoded(buffer@),
            old(self).advanced(buffer@, final(self)),
    ;

    fn flush(&mut self) -> (out: Vec<u8>)
        requires
            old(self).wf(),
        ensures
            final(self).wf(),
            out@ == old(self).flushed(),
            *final(self) == *old(self),
    ;
}

} // verus!
