use compress::encoder::Encoder;
use compress::rle::RLE;

#[test]
fn rle_it_compresses500a() {
    let content = vec![b'a'; 500];

    let mut encoder = RLE::new();

    assert_eq!(encoder.encode(&content), vec![255, 'a' as u8]);
    assert_eq!(encoder.flush(), vec![245, 'a' as u8]);
}

#[test]
fn rle_it_compresses100a100b() {
    let mut content = vec![b'a'; 100];
    content.extend(vec![b'b'; 100]);

    let mut encoder = RLE::new();

    assert_eq!(encoder.encode(&content), vec![100, 'a' as u8]);
    assert_eq!(encoder.flush(), vec![100, 'b' as u8]);
}

#[test]
fn rle_it_compresses100ab() {
    let mut content = Vec::new();
    for _ in 0..100 {
        content.push(b'a');
        content.push(b'b');
    }

    let mut encoder = RLE::new();

    let mut expected: Vec<u8> = vec![];
    for i in 0..100 {
        expected.push(1);
        expected.push('a' as u8);
        if i != 99 {
            expected.push(1);
            expected.push('b' as u8);
        }
    }
    assert_eq!(encoder.encode(&content), expected);
    assert_eq!(encoder.flush(), vec![1, 'b' as u8]);
}

#[test]
fn rle_empty_input_and_fresh_flush() {
    let mut encoder = RLE::new();
    assert_eq!(encoder.encode(&vec![]), Vec::<u8>::new());
    assert_eq!(encoder.flush(), Vec::<u8>::new());
}

#[test]
fn rle_run_of_256_splits() {
    let mut encoder = RLE::new();
    assert_eq!(encoder.encode(&vec![7; 255]), Vec::<u8>::new());
    assert_eq!(encoder.encode(&vec![7]), vec![255, 7]);
    assert_eq!(encoder.flush(), vec![1, 7]);
}

#[test]
fn rle_zero_byte_first() {
    let mut encoder = RLE::new();
    assert_eq!(encoder.encode(&vec![0, 0, 0, 5]), vec![3, 0]);
    assert_eq!(encoder.flush(), vec![1, 5]);
}

#[test]
fn rle_run_spans_chunks() {
    let mut encoder = RLE::new();
    assert_eq!(encoder.encode(&vec![4, 4]), Vec::<u8>::new());
    assert_eq!(encoder.encode(&vec![4, 9]), vec![3, 4]);
    assert_eq!(encoder.flush(), vec![1, 9]);
}
