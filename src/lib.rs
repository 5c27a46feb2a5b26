//! Streaming byte encoders: a frequency-ranked prefix-code encoder and a
//! run-length encoder, both behind one stateful `Encoder` interface.
pub mod bits;
pub mod code_table;
pub mod encoder;
pub mod huffman;
pub mod rle;
