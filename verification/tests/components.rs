use huffman::bits::pack_bits;
use huffman::bits::unpack_bits;
use huffman::code::CodeTable;
use huffman::codec::build_tree;
use huffman::codec::compress;
use huffman::codec::decode_symbols;
use huffman::codec::encode_symbols;
use huffman::errors::HuffError;
use huffman::freq::count_frequencies;
use huffman::header::parse_header;
use huffman::header::serialize_header;
use huffman::tree::HuffNode;
use huffman::tree::build_huffman_tree;

fn chars(s: &str) -> Vec<char> {
    s.chars().collect()
}

#[test]
fn frequencies_of_scenario_input() {
    let freq = count_frequencies(&chars("aaab"));
    assert_eq!(freq.entries, vec![('a', 3), ('b', 1)]);
}

#[test]
fn frequencies_first_occurrence_order() {
    let freq = count_frequencies(&chars("banana"));
    assert_eq!(freq.entries, vec![('b', 1), ('a', 3), ('n', 2)]);
}

#[test]
fn scenario_tree_merges_once() {
    // "aaab": the two leaves merge into one internal node of weight 4
    let freq = count_frequencies(&chars("aaab"));
    let tree = build_huffman_tree(&freq).unwrap();
    assert_eq!(tree.nodes.len(), 3);
    match tree.nodes[tree.root] {
        HuffNode::Internal { left, right, weight } => {
            assert_eq!(weight, 4);
            match tree.nodes[left] {
                HuffNode::Leaf { symbol, weight } => {
                    assert_eq!(symbol, 'a');
                    assert_eq!(weight, 3);
                },
                _ => panic!("left child should be the 'a' leaf"),
            }
            match tree.nodes[right] {
                HuffNode::Leaf { symbol, weight } => {
                    assert_eq!(symbol, 'b');
                    assert_eq!(weight, 1);
                },
                _ => panic!("right child should be the 'b' leaf"),
            }
        },
        _ => panic!("root should be internal"),
    }
}

#[test]
fn scenario_code_table() {
    // "aaab" yields a: 0, b: 1
    let freq = count_frequencies(&chars("aaab"));
    let table = build_tree(&freq).unwrap();
    assert_eq!(table.entries, vec![('a', vec![false]), ('b', vec![true])]);
}

#[test]
fn single_symbol_code_table() {
    // one distinct symbol gets the one-bit code 0
    let freq = count_frequencies(&chars("zzzz"));
    let table = build_tree(&freq).unwrap();
    assert_eq!(table.entries, vec![('z', vec![false])]);
}

#[test]
fn build_tree_empty_fails() {
    let freq = count_frequencies(&Vec::new());
    assert!(matches!(build_tree(&freq), Err(HuffError::EmptyInput)));
}

#[test]
fn scenario_compressed_bytes() {
    // header of two lines plus terminator, then the bit count and the
    // packed bits 0 0 0 1 padded to one byte
    let out = compress(&chars("aaab")).unwrap();
    let mut expected: Vec<u8> = Vec::new();
    expected.extend_from_slice(b"a: 0\nb: 1\n");
    expected.extend_from_slice(b"=====================\n");
    expected.extend_from_slice(&[4, 0, 0, 0, 0, 0, 0, 0]);
    expected.push(0b0000_1000);
    assert_eq!(out, expected);
}

#[test]
fn header_round_trip() {
    let table = CodeTable {
        entries: vec![('a', vec![false, true]), ('\n', vec![true, false]), ('=', vec![true, true])],
    };
    let bytes = serialize_header(&table);
    let (parsed, offset) = parse_header(&bytes).unwrap();
    assert_eq!(parsed.entries, table.entries);
    assert_eq!(offset, bytes.len());
}

#[test]
fn header_round_trip_with_payload_following() {
    let table = CodeTable { entries: vec![('q', vec![false])] };
    let mut bytes = serialize_header(&table);
    let header_len = bytes.len();
    bytes.extend_from_slice(&[9, 8, 7]);
    let (parsed, offset) = parse_header(&bytes).unwrap();
    assert_eq!(parsed.entries, table.entries);
    assert_eq!(offset, header_len);
}

#[test]
fn header_missing_terminator() {
    let bytes = b"a: 0\n".to_vec();
    assert!(matches!(parse_header(&bytes), Err(HuffError::MalformedHeader)));
}

#[test]
fn header_bad_separator() {
    let bytes = b"a; 0\n=====================\n".to_vec();
    assert!(matches!(parse_header(&bytes), Err(HuffError::MalformedHeader)));
}

#[test]
fn header_empty_code() {
    let bytes = b"a: \n=====================\n".to_vec();
    assert!(matches!(parse_header(&bytes), Err(HuffError::MalformedHeader)));
}

#[test]
fn header_duplicate_symbol() {
    let bytes = b"a: 0\na: 1\n=====================\n".to_vec();
    assert!(matches!(parse_header(&bytes), Err(HuffError::MalformedHeader)));
}

#[test]
fn encode_unknown_symbol() {
    let table = CodeTable { entries: vec![('a', vec![false])] };
    let r = encode_symbols(&chars("ab"), &table);
    assert_eq!(r, Err(HuffError::UnknownSymbol('b')));
}

#[test]
fn encode_concatenates_codes() {
    let table = CodeTable { entries: vec![('a', vec![false]), ('b', vec![true, true])] };
    let bits = encode_symbols(&chars("aba"), &table).unwrap();
    assert_eq!(bits, vec![false, true, true, false]);
}

#[test]
fn decode_leftover_bits_fail() {
    let table = CodeTable { entries: vec![('a', vec![false, false])] };
    let bits = vec![false, false, false];
    assert_eq!(decode_symbols(&table, &bits), Err(HuffError::UndecodableTail));
}

#[test]
fn decode_greedy_matches() {
    let table = CodeTable { entries: vec![('a', vec![false]), ('b', vec![true, false])] };
    let bits = vec![true, false, false, true, false];
    let out = decode_symbols(&table, &bits).unwrap();
    assert_eq!(out, vec!['b', 'a', 'b']);
}

#[test]
fn pack_then_unpack() {
    let bits = vec![true, false, true, true, false, false, true, false, true];
    let bytes = pack_bits(&bits);
    // nine bits: the count, one full byte, one padded byte
    assert_eq!(bytes.len(), 8 + 2);
    assert_eq!(bytes[0], 9);
    assert_eq!(bytes[8], 0b0100_1101);
    assert_eq!(bytes[9], 0b0000_0001);
    let back = unpack_bits(&bytes, 0).unwrap();
    assert_eq!(back, bits);
}

#[test]
fn unpack_short_payload_fails() {
    let bytes = vec![1, 2, 3];
    assert_eq!(unpack_bits(&bytes, 0), Err(HuffError::UndecodableTail));
}

#[test]
fn unpack_overlong_count_fails() {
    // the count announces more bits than the bytes can hold
    let bytes = vec![9, 0, 0, 0, 0, 0, 0, 0, 0xFF];
    assert_eq!(unpack_bits(&bytes, 0), Err(HuffError::UndecodableTail));
}

#[test]
fn error_descriptions() {
    assert!(!HuffError::EmptyInput.describe().is_empty());
    assert!(!HuffError::MalformedHeader.describe().is_empty());
    assert!(!HuffError::UnknownSymbol('x').describe().is_empty());
    assert!(!HuffError::UndecodableTail.describe().is_empty());
}

#[test]
fn prefix_free_on_larger_alphabet() {
    let freq = count_frequencies(&chars("abracadabra alakazam"));
    let table = build_tree(&freq).unwrap();
    for (i, (_, ci)) in table.entries.iter().enumerate() {
        for (j, (_, cj)) in table.entries.iter().enumerate() {
            if i != j {
                assert!(
                    !(ci.len() <= cj.len() && &cj[..ci.len()] == &ci[..]),
                    "codes must be prefix-free"
                );
            }
        }
    }
}

#[test]
fn two_symbol_input_costs_one_bit_per_symbol() {
    // with two distinct symbols every code is one bit, the optimum
    let input = chars("aabbab");
    let freq = count_frequencies(&input);
    let table = build_tree(&freq).unwrap();
    let bits = encode_symbols(&input, &table).unwrap();
    assert_eq!(bits.len(), input.len());
}

#[test]
fn construction_is_reproducible() {
    // building twice from equal frequencies yields the identical table
    let freq1 = count_frequencies(&chars("abracadabra"));
    let freq2 = count_frequencies(&chars("abracadabra"));
    let t1 = build_tree(&freq1).unwrap();
    let t2 = build_tree(&freq2).unwrap();
    assert_eq!(t1.entries, t2.entries);
}
