use compress::encoder::Encoder;
use compress::huffman::{EncodeError, Huffman};

fn repeated(byte: u8, n: usize) -> Vec<u8> {
    vec![byte; n]
}

fn hundred_a_hundred_b() -> Vec<u8> {
    let mut v = repeated(b'a', 100);
    v.extend(repeated(b'b', 100));
    v
}

fn alternating_ab() -> Vec<u8> {
    let mut v = Vec::new();
    for _ in 0..100 {
        v.push(b'a');
        v.push(b'b');
    }
    v
}

#[test]
fn huffman_it_compresses500a() {
    let content = repeated(b'a', 500);

    let mut encoder = Huffman::new(Huffman::build_frequencies(&content));

    assert_eq!(encoder.encode(&content), vec![
        0, 0, 0, 0, 0, 0, 0, 0, 0, 0,
        0, 0, 0, 0, 0, 0, 0, 0, 0, 0,
        0, 0, 0, 0, 0, 0, 0, 0, 0, 0,
        0, 0, 0, 0, 0, 0, 0, 0, 0, 0,
        0, 0, 0, 0, 0, 0, 0, 0, 0, 0,
        0, 0, 0, 0, 0, 0, 0, 0, 0, 0,
        0, 0,
    ]);
    assert_eq!(encoder.flush(), vec![0]);
}

#[test]
fn huffman_it_compresses100a100b() {
    let content = hundred_a_hundred_b();

    let mut encoder = Huffman::new(Huffman::build_frequencies(&content));

    assert_eq!(encoder.encode(&content), vec![
        0, 0, 0, 0, 0, 0, 0, 0, 0, 0,
        0, 0, 10, 170, 170, 170, 170, 170, 170, 170,
        170, 170, 170, 170, 170, 170, 170, 170, 170, 170,
        170, 170, 170, 170, 170, 170, 170,
    ]);
    assert_eq!(encoder.flush(), vec![160]);
}

#[test]
fn huffman_it_compresses100ab() {
    let content = alternating_ab();

    let mut encoder = Huffman::new(Huffman::build_frequencies(&content));

    // a -> 0
    // b -> 10

    // 0b0_10_0_10_0_1 -> 73
    // 0b0_0_10_0_10_0 -> 36
    // 0b10_0_10_0_10 -> 146
    assert_eq!(encoder.encode(&content), vec![
        73, 36, 146, 73, 36, 146, 73, 36, 146, 73,
        36, 146, 73, 36, 146, 73, 36, 146, 73, 36,
        146, 73, 36, 146, 73, 36, 146, 73, 36, 146,
        73, 36, 146, 73, 36, 146, 73,
    ]);
    assert_eq!(encoder.flush(), vec![32]);
}

#[test]
fn huffman_frequencies_count_each_byte() {
    let freq = Huffman::build_frequencies(&vec![3, 1, 3, 3, 255]);
    assert_eq!(freq[3], 3);
    assert_eq!(freq[1], 1);
    assert_eq!(freq[255], 1);
    assert_eq!(freq[0], 0);
    assert_eq!(freq.iter().map(|c| *c as usize).sum::<usize>(), 5);
}

#[test]
fn huffman_empty_input_and_fresh_flush() {
    let mut encoder = Huffman::new(Huffman::build_frequencies(&vec![]));
    assert_eq!(encoder.encode(&vec![]), Vec::<u8>::new());
    assert_eq!(encoder.flush(), Vec::<u8>::new());
}

#[test]
fn huffman_chunked_matches_whole() {
    let content = alternating_ab();
    let freq = Huffman::build_frequencies(&content);
    let mut whole = Huffman::new(freq);
    let mut all = whole.encode(&content);
    all.extend(whole.flush());

    let mut chunked = Huffman::new(freq);
    let mut parts = Vec::new();
    for chunk in content.chunks(7) {
        parts.extend(chunked.encode(&chunk.to_vec()));
    }
    parts.extend(chunked.flush());
    assert_eq!(parts, all);
}

#[test]
fn huffman_same_input_same_output() {
    let content = hundred_a_hundred_b();
    let freq = Huffman::build_frequencies(&content);
    let mut first = Huffman::new(freq);
    let mut second = Huffman::new(freq);
    assert_eq!(first.encode(&content), second.encode(&content));
    assert_eq!(first.flush(), second.flush());
}

#[test]
fn huffman_three_ranks_codes() {
    // 'c' most frequent -> 0, 'a' -> 10, 'b' -> 110 (ties: smaller symbol first)
    let freq = Huffman::build_frequencies(&vec![b'c', b'c', b'c', b'a', b'b']);
    let mut encoder = Huffman::new(freq);
    // c a b c  ->  0 10 110 0 -> 0101 1000
    assert_eq!(encoder.encode(&vec![b'c', b'a', b'b', b'c']), Vec::<u8>::new());
    assert_eq!(encoder.flush(), vec![0b0101_1000]);
}

#[test]
fn huffman_byte_boundary_carry() {
    // 'a' -> 0, 'b' -> 10; seven 'a' then 'b' straddles the first byte
    let freq = Huffman::build_frequencies(&vec![b'a', b'a', b'b']);
    let mut encoder = Huffman::new(freq);
    let mut input = repeated(b'a', 7);
    input.push(b'b');
    assert_eq!(encoder.encode(&input), vec![0b0000_0001]);
    assert_eq!(encoder.flush(), vec![0b0000_0000]);
}

#[test]
fn huffman_checked_refuses_long_code() {
    // every byte occurs once except 'z': from rank eight on, codes are over eight bits
    let freq = Huffman::build_frequencies(&vec![b'z', b'z']);
    let mut encoder = Huffman::new(freq);
    // symbol 6 comes after 'z' and 0..5: rank seven, code 11111110
    assert_eq!(encoder.encode_checked(&vec![b'z', 6]), Ok(vec![0b0111_1111]));
    // symbol 7 has rank eight: nine bits
    assert_eq!(
        encoder.encode_checked(&vec![b'z', 7, 9]),
        Err(EncodeError::UnsupportedCodeLength { symbol: 7, length: 9 })
    );
    assert_eq!(encoder.flush(), vec![0b0000_0000]);
}
