use huffman::codec::compress;
use huffman::codec::decompress;
use huffman::errors::HuffError;

fn chars(s: &str) -> Vec<char> {
    s.chars().collect()
}

fn text(v: Vec<char>) -> String {
    v.into_iter().collect()
}

#[test]
fn round_trip_simple() {
    let input = chars("aaab");
    let out = compress(&input).unwrap();
    let back = decompress(&out).unwrap();
    assert_eq!(text(back), "aaab");
}

#[test]
fn round_trip_sentence() {
    let input = chars("the quick brown fox jumps over the lazy dog\n");
    let out = compress(&input).unwrap();
    let back = decompress(&out).unwrap();
    assert_eq!(text(back), "the quick brown fox jumps over the lazy dog\n");
}

#[test]
fn round_trip_multibyte() {
    let input = chars("héllo wörld \u{2713} \u{1F600} καλημέρα");
    let out = compress(&input).unwrap();
    let back = decompress(&out).unwrap();
    assert_eq!(text(back), "héllo wörld \u{2713} \u{1F600} καλημέρα");
}

#[test]
fn round_trip_separator_symbols() {
    // symbols that collide with the header's own syntax
    let input = chars("=:= \n::==\n= :");
    let out = compress(&input).unwrap();
    let back = decompress(&out).unwrap();
    assert_eq!(text(back), "=:= \n::==\n= :");
}

#[test]
fn round_trip_single_symbol() {
    // degenerate input: one distinct symbol gets a valid one-bit code
    let input = chars("aaaaaaa");
    let out = compress(&input).unwrap();
    let back = decompress(&out).unwrap();
    assert_eq!(text(back), "aaaaaaa");
}

#[test]
fn round_trip_one_char() {
    let input = chars("x");
    let out = compress(&input).unwrap();
    let back = decompress(&out).unwrap();
    assert_eq!(text(back), "x");
}

#[test]
fn empty_input_rejected() {
    let input: Vec<char> = Vec::new();
    assert_eq!(compress(&input), Err(HuffError::EmptyInput));
}

#[test]
fn truncated_payload_detected() {
    // cutting the last byte off a valid stream must surface as an
    // undecodable tail, never as silently wrong output
    let input = chars("aaab");
    let mut out = compress(&input).unwrap();
    out.pop();
    assert_eq!(decompress(&out), Err(HuffError::UndecodableTail));
}

#[test]
fn truncated_longer_payload_detected() {
    let input = chars("mississippi river banks");
    let mut out = compress(&input).unwrap();
    out.pop();
    assert_eq!(decompress(&out), Err(HuffError::UndecodableTail));
}

#[test]
fn garbage_is_malformed() {
    let bytes: Vec<u8> = vec![1, 2, 3, 4, 255, 254];
    assert_eq!(decompress(&bytes), Err(HuffError::MalformedHeader));
}

#[test]
fn empty_stream_is_malformed() {
    let bytes: Vec<u8> = Vec::new();
    assert_eq!(decompress(&bytes), Err(HuffError::MalformedHeader));
}

#[test]
fn header_without_entries_is_malformed() {
    // a bare terminator line parses but holds no entry
    let mut bytes: Vec<u8> = Vec::new();
    for _ in 0..21 {
        bytes.push(b'=');
    }
    bytes.push(b'\n');
    assert_eq!(decompress(&bytes), Err(HuffError::MalformedHeader));
}
