use cccompress::CompressError;
use cccompress::bits::pack_bits;
use cccompress::bits::unpack_bits;
use cccompress::compressor::compress;
use cccompress::compressor::uncompress;
use cccompress::frequency_table::FrequencyTable;
use cccompress::huffman_tree::HuffmanTree;

fn table_of(pairs: &[(u8, usize)]) -> FrequencyTable {
    let mut v: Vec<u8> = Vec::new();
    for (sym, count) in pairs {
        for _ in 0..*count {
            v.push(*sym);
        }
    }
    FrequencyTable::from_vec(v)
}

#[test]
fn it_works() {
    let v = vec![b'a', b'b', b'c'];
    let freq_table = FrequencyTable::from_vec(v);
    assert_eq!(freq_table.count(b'a'), 1);
    assert_eq!(freq_table.count(b'b'), 1);
    assert_eq!(freq_table.count(b'c'), 1);
    for b in 0..=255u8 {
        if b != b'a' && b != b'b' && b != b'c' {
            assert_eq!(freq_table.count(b), 0);
        }
    }
}

#[test]
fn tree_sort_simple() {
    let mut trees: Vec<HuffmanTree> = vec![
        HuffmanTree::from_element(b'c', 3),
        HuffmanTree::from_element(b'b', 2),
        HuffmanTree::from_element(b'a', 1),
    ];
    trees.sort_by(|x, y| {
        if x.precedes(y) {
            std::cmp::Ordering::Less
        } else if y.precedes(x) {
            std::cmp::Ordering::Greater
        } else {
            std::cmp::Ordering::Equal
        }
    });

    let expected = vec![
        HuffmanTree::from_element(b'a', 1),
        HuffmanTree::from_element(b'b', 2),
        HuffmanTree::from_element(b'c', 3),
    ];
    assert_eq!(trees, expected);
}

#[test]
fn build_tree_simple() {
    let freq_table = table_of(&[(b'c', 3), (b'b', 2), (b'a', 1)]);
    let final_tree = HuffmanTree::from_table(&freq_table).unwrap();

    /*
           6
          / \
         3  c
        / \
       a  b
    */
    let expected = HuffmanTree::from_nodes(
        HuffmanTree::from_nodes(
            HuffmanTree::from_element(b'a', 1),
            HuffmanTree::from_element(b'b', 2),
        ),
        HuffmanTree::from_element(b'c', 3),
    );
    assert_eq!(final_tree, expected);
}

#[test]
fn build_tree_complex() {
    let freq_table = table_of(&[
        (b'c', 32),
        (b'd', 42),
        (b'e', 120),
        (b'k', 7),
        (b'l', 42),
        (b'm', 24),
        (b'u', 37),
        (b'z', 2),
    ]);
    let final_tree = HuffmanTree::from_table(&freq_table).unwrap();
    let expected = HuffmanTree::from_nodes(
        // 306
        HuffmanTree::from_element(b'e', 120),
        HuffmanTree::from_nodes(
            // 186
            HuffmanTree::from_nodes(
                // 79
                HuffmanTree::from_element(b'u', 37),
                HuffmanTree::from_element(b'd', 42),
            ),
            HuffmanTree::from_nodes(
                // 107
                HuffmanTree::from_element(b'l', 42),
                HuffmanTree::from_nodes(
                    // 65
                    HuffmanTree::from_element(b'c', 32),
                    HuffmanTree::from_nodes(
                        // 33
                        HuffmanTree::from_nodes(
                            // 9
                            HuffmanTree::from_element(b'z', 2),
                            HuffmanTree::from_element(b'k', 7),
                        ),
                        HuffmanTree::from_element(b'm', 24),
                    ),
                ),
            ),
        ),
    );
    assert_eq!(final_tree, expected);

    let codes = final_tree.prefix_code_table();
    let expected_codes: Vec<(u8, Vec<bool>)> = vec![
        (b'c', vec![true, true, true, false]),
        (b'd', vec![true, false, true]),
        (b'e', vec![false]),
        (b'k', vec![true, true, true, true, false, true]),
        (b'l', vec![true, true, false]),
        (b'm', vec![true, true, true, true, true]),
        (b'u', vec![true, false, false]),
        (b'z', vec![true, true, true, true, false, false]),
    ];
    for (sym, code) in &expected_codes {
        assert_eq!(codes[*sym as usize].as_ref(), Some(code));
    }
    for b in 0..=255u8 {
        if !expected_codes.iter().any(|(sym, _)| *sym == b) {
            assert!(codes[b as usize].is_none());
        }
    }
}

#[test]
fn test_simple() {
    let s = "Hello World!";
    let v = s.to_string().into_bytes();
    let compressed = compress(v.clone());
    let uncompressed = uncompress(compressed.clone()).unwrap();
    assert_eq!(v, uncompressed);
}

#[test]
fn round_trip_large_text() {
    // A sizable, skewed input exercising many symbols and long codes.
    let mut v: Vec<u8> = Vec::new();
    for i in 0..40_000usize {
        let b = match i % 7 {
            0 | 1 | 2 => b'e',
            3 | 4 => b' ',
            5 => (i % 251) as u8,
            _ => (i / 251 % 256) as u8,
        };
        v.push(b);
    }
    let compressed = compress(v.clone());
    let uncompressed = uncompress(compressed).unwrap();
    assert_eq!(v, uncompressed);
}

#[test]
fn compress_is_deterministic() {
    let v: Vec<u8> = b"abracadabra, a box of biscuits".to_vec();
    let c1 = compress(v.clone());
    let c2 = compress(v);
    assert_eq!(c1, c2);
}

#[test]
fn degenerate_single_symbol() {
    // 1000 copies of one byte: the single symbol gets the one-bit code
    // `0`, so the container carries 1000 meaningful bits in 125 bytes.
    let v = vec![42u8; 1000];
    let compressed = compress(v.clone());
    // 8 (tree length) + 10 (single leaf) + 8 (bit length) + 125 (bits)
    assert_eq!(compressed.len(), 151);
    assert_eq!(&compressed[0..8], &[0, 0, 0, 0, 0, 0, 0, 10]);
    // leaf: tag 0, weight 1000 big-endian, symbol 42
    assert_eq!(&compressed[8..18], &[0, 0, 0, 0, 0, 0, 0, 3, 232, 42]);
    // bit length 1000
    assert_eq!(&compressed[18..26], &[0, 0, 0, 0, 0, 0, 3, 232]);
    // all-zero packed bits
    assert!(compressed[26..].iter().all(|b| *b == 0));
    let uncompressed = uncompress(compressed).unwrap();
    assert_eq!(v, uncompressed);
}

#[test]
fn empty_input() {
    // The empty container: tree byte length 0, bit length 0.
    let compressed = compress(Vec::new());
    assert_eq!(compressed, vec![0u8; 16]);
    let uncompressed = uncompress(compressed).unwrap();
    assert_eq!(uncompressed, Vec::<u8>::new());
}

#[test]
fn truncation_rejected() {
    let v: Vec<u8> = b"when in the course of huffman events".to_vec();
    let compressed = compress(v);
    for k in 0..compressed.len() {
        let truncated = compressed[0..k].to_vec();
        assert_eq!(uncompress(truncated), Err(CompressError::CorruptContainer));
    }
    // Truncating the empty container too.
    let empty = compress(Vec::new());
    for k in 0..empty.len() {
        let truncated = empty[0..k].to_vec();
        assert_eq!(uncompress(truncated), Err(CompressError::CorruptContainer));
    }
}

#[test]
fn trailing_bytes_rejected() {
    let mut compressed = compress(b"exact".to_vec());
    compressed.push(0);
    assert_eq!(uncompress(compressed), Err(CompressError::CorruptContainer));
}

#[test]
fn declared_bits_exceed_data() {
    // A single-symbol container with 1000 bits in 125 packed bytes; claim
    // more bits than the packed bytes can hold.
    let mut compressed = compress(vec![42u8; 1000]);
    assert_eq!(&compressed[18..26], &[0, 0, 0, 0, 0, 0, 3, 232]);
    compressed[25] = 241; // bit length 1001
    assert_eq!(uncompress(compressed), Err(CompressError::CorruptContainer));
}

#[test]
fn bad_tag_rejected() {
    let mut compressed = compress(b"tagged".to_vec());
    // The first tree byte is a tag; neither 0 nor 1 is malformed.
    compressed[8] = 7;
    assert_eq!(uncompress(compressed), Err(CompressError::CorruptContainer));
}

#[test]
fn empty_alphabet_error() {
    let table = FrequencyTable::from_vec(Vec::new());
    assert_eq!(
        HuffmanTree::from_table(&table),
        Err(CompressError::EmptyAlphabet)
    );
}

#[test]
fn codes_are_prefix_free() {
    let freq_table = table_of(&[
        (b'c', 32),
        (b'd', 42),
        (b'e', 120),
        (b'k', 7),
        (b'l', 42),
        (b'm', 24),
        (b'u', 37),
        (b'z', 2),
    ]);
    let tree = HuffmanTree::from_table(&freq_table).unwrap();
    let codes = tree.prefix_code_table();
    let present: Vec<Vec<bool>> = codes.iter().flatten().cloned().collect();
    assert_eq!(present.len(), 8);
    for (i, a) in present.iter().enumerate() {
        for (j, b) in present.iter().enumerate() {
            if i != j {
                assert!(!(a.len() <= b.len() && b[..a.len()] == a[..]));
            }
        }
    }
}

#[test]
fn encode_decode_bits() {
    let freq_table = table_of(&[(b'x', 1), (b'y', 2), (b'z', 4)]);
    let tree = HuffmanTree::from_table(&freq_table).unwrap();
    let codes = tree.prefix_code_table();
    let message = b"zyxzzy";
    let mut bits: Vec<bool> = Vec::new();
    for sym in message {
        bits.extend(codes[*sym as usize].as_ref().unwrap());
    }
    let decoded = tree.decode_bits(bits);
    assert_eq!(decoded, message.to_vec());
}

#[test]
fn msb_first_packing() {
    // The earliest bit lands in the most significant position.
    let bits = vec![true, true, true, true, false, false, false, false];
    let packed = pack_bits(&bits);
    assert_eq!(packed, vec![0b1111_0000u8]);

    // Padding bits are zero and excluded when unpacking.
    let bits = vec![true, false, true];
    let packed = pack_bits(&bits);
    assert_eq!(packed, vec![0b1010_0000u8]);
    let unpacked = unpack_bits(&packed, 0, 3);
    assert_eq!(unpacked, bits);
}
