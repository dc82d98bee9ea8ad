use pied_piper::error::CodecError;
use pied_piper::huffman::{HuffmanCoding, HuffmanNode, HEADER_LEN};
use pied_piper::lz77::{Match, LZ77};
use pied_piper::rle::RunLengthEncoding;
use pied_piper::{Codec, CompressionAlgorithm};

const ALL: [Codec; 3] = [Codec::Huffman, Codec::Lz77, Codec::Rle];

fn samples() -> Vec<Vec<u8>> {
    let mut all_bytes: Vec<u8> = (0..=255u8).collect();
    all_bytes.extend((0..=255u8).rev());
    let mut mixed = Vec::new();
    let mut x: u32 = 12345;
    for _ in 0..5000 {
        x = x.wrapping_mul(1103515245).wrapping_add(12345);
        mixed.push(((x >> 16) % 7) as u8 * 40);
    }
    vec![
        vec![],
        vec![0x00],
        vec![0xFF],
        vec![0xFF, 0xFF],
        vec![0x41; 10],
        vec![0x41; 100],
        vec![0xFF; 600],
        b"abracadabra".to_vec(),
        b"the quick brown fox jumps over the lazy dog; the quick brown fox".to_vec(),
        all_bytes,
        mixed,
    ]
}

fn round_trip(codec: &dyn CompressionAlgorithm, data: &[u8]) {
    let packed = codec.compress(data).unwrap();
    let unpacked = codec.decompress(&packed).unwrap();
    assert_eq!(unpacked, data);
}

#[test]
fn rle_round_trips() {
    for s in samples() {
        round_trip(&RunLengthEncoding, &s);
    }
}

#[test]
fn lz77_round_trips() {
    for s in samples() {
        round_trip(&LZ77, &s);
    }
}

#[test]
fn huffman_round_trips() {
    for s in samples() {
        round_trip(&HuffmanCoding, &s);
    }
}

#[test]
fn codec_enum_round_trips() {
    for c in ALL {
        for s in samples() {
            let packed = c.compress(&s);
            assert_eq!(c.decompress(&packed), Ok(s.clone()));
        }
    }
}

#[test]
fn empty_input_gives_empty_output() {
    for c in ALL {
        assert_eq!(c.compress(&[]), Vec::<u8>::new());
        assert_eq!(c.decompress(&[]), Ok(Vec::new()));
    }
}

#[test]
fn huffman_single_symbol_uses_one_bit_per_byte() {
    let data = vec![0x41u8; 10];
    let table = HuffmanCoding::build_frequency_table(&data);
    assert_eq!(table[0x41], 10);
    let tree = HuffmanCoding::build_huffman_tree(&table).unwrap();
    assert_eq!(tree.byte, Some(0x41));
    let codes = HuffmanCoding::generate_codes(&tree);
    assert_eq!(codes[0x41], vec![false]);
    assert!(codes.iter().enumerate().all(|(b, c)| b == 0x41 || c.is_empty()));
    let packed = HuffmanCoding.compress(&data).unwrap();
    assert_eq!(packed.len(), HEADER_LEN + 2);
    assert_eq!(&packed[HEADER_LEN..], &[0x00, 0x00]);
    assert_eq!(HuffmanCoding.decompress(&packed).unwrap(), data);
}

#[test]
fn huffman_codes_are_prefix_free() {
    let data = b"abracadabra alakazam, sixty-six sizzling sausages".to_vec();
    let table = HuffmanCoding::build_frequency_table(&data);
    let tree = HuffmanCoding::build_huffman_tree(&table).unwrap();
    let codes = HuffmanCoding::generate_codes(&tree);
    let present: Vec<usize> = (0..256).filter(|&b| table[b] > 0).collect();
    for &a in &present {
        assert!(!codes[a].is_empty());
        for &b in &present {
            if a != b {
                let (ca, cb) = (&codes[a], &codes[b]);
                assert!(!(ca.len() <= cb.len() && cb[..ca.len()] == ca[..]));
            }
        }
    }
}

#[test]
fn huffman_tree_shape_and_frequencies() {
    let table = HuffmanCoding::build_frequency_table(b"aab");
    let tree = HuffmanCoding::build_huffman_tree(&table).unwrap();
    assert_eq!(tree.frequency, 3);
    assert_eq!(tree.byte, None);
    assert_eq!(tree.left.as_ref().unwrap().byte, Some(b'a'));
    assert_eq!(tree.right.as_ref().unwrap().byte, Some(b'b'));
    let codes = HuffmanCoding::generate_codes(&tree);
    assert_eq!(codes[b'a' as usize], vec![false]);
    assert_eq!(codes[b'b' as usize], vec![true]);
    assert_eq!(HuffmanCoding::build_huffman_tree(&vec![0usize; 256]).is_none(), true);
}

#[test]
fn huffman_exact_stream() {
    let packed = HuffmanCoding.compress(b"aab").unwrap();
    assert_eq!(packed.len(), HEADER_LEN + 1);
    assert_eq!(&packed[..4], &[3, 0, 0, 0]);
    let at = |b: usize| &packed[4 + 4 * b..8 + 4 * b];
    assert_eq!(at(b'a' as usize), &[2, 0, 0, 0]);
    assert_eq!(at(b'b' as usize), &[1, 0, 0, 0]);
    assert_eq!(at(0), &[0, 0, 0, 0]);
    assert_eq!(packed[HEADER_LEN], 0b0010_0000);

    let ab = HuffmanCoding.compress(b"ab").unwrap();
    assert_eq!(ab[HEADER_LEN], 0b1000_0000);
}

#[test]
fn huffman_node_constructors() {
    let l = HuffmanNode::new_leaf(7, 3);
    assert_eq!((l.byte, l.frequency), (Some(7), 3));
    assert!(l.left.is_none() && l.right.is_none());
    let r = HuffmanNode::new_leaf(9, 4);
    let n = HuffmanNode::new_internal(7, l, r);
    assert_eq!((n.byte, n.frequency), (None, 7));
    assert_eq!(n.left.as_ref().unwrap().byte, Some(7));
    assert_eq!(n.right.as_ref().unwrap().byte, Some(9));
}

#[test]
fn pack_bits_msb_first_with_zero_padding() {
    assert_eq!(HuffmanCoding::pack_bits_to_bytes(&vec![]), Vec::<u8>::new());
    assert_eq!(HuffmanCoding::pack_bits_to_bytes(&vec![true, false, true]), vec![0xA0]);
    assert_eq!(HuffmanCoding::pack_bits_to_bytes(&vec![true; 9]), vec![0xFF, 0x80]);
    let bits = vec![false, true, false, false, false, false, false, true];
    assert_eq!(HuffmanCoding::pack_bits_to_bytes(&bits), vec![0x41]);
}

#[test]
fn huffman_frequency_table_counts() {
    let t = HuffmanCoding::build_frequency_table(b"hello");
    assert_eq!(t.len(), 256);
    assert_eq!(t[b'l' as usize], 2);
    assert_eq!(t[b'h' as usize], 1);
    assert_eq!(t[b'z' as usize], 0);
    assert_eq!(t.iter().sum::<usize>(), 5);
}

#[test]
fn huffman_errors() {
    assert_eq!(HuffmanCoding.decompress(&[1, 2, 3]), Err(CodecError::CorruptHeader));
    let packed = HuffmanCoding.compress(b"abracadabra").unwrap();
    assert_eq!(
        HuffmanCoding.decompress(&packed[..HEADER_LEN]),
        Err(CodecError::TruncatedStream)
    );
    assert_eq!(
        HuffmanCoding.decompress(&packed[..packed.len() - 1]),
        Err(CodecError::TruncatedStream)
    );
    let mut wrong_len = packed.clone();
    wrong_len[0] += 1;
    assert_eq!(HuffmanCoding.decompress(&wrong_len), Err(CodecError::CorruptHeader));
    let mut wrong_count = packed.clone();
    wrong_count[4 + 4 * (b'a' as usize)] += 1;
    assert_eq!(HuffmanCoding.decompress(&wrong_count), Err(CodecError::CorruptHeader));
}

#[test]
fn lz77_overlapping_match_expands() {
    let data = vec![0x41u8; 100];
    let packed = LZ77.compress(&data).unwrap();
    assert!(packed.len() < data.len());
    assert_eq!(LZ77.decompress(&packed).unwrap(), data);

    // One literal, then a match of length 8 reaching back only one byte.
    let stream = [10, 0, 0, 0, 0x00, 0x41, 0x01, 1, 0, 8, 0, 0x42];
    let mut expected = vec![0x41u8; 9];
    expected.push(0x42);
    assert_eq!(LZ77.decompress(&stream).unwrap(), expected);
}

#[test]
fn lz77_exact_stream() {
    let packed = LZ77.compress(b"abcabcabc").unwrap();
    assert_eq!(
        packed,
        vec![9, 0, 0, 0, 0, b'a', 0, b'b', 0, b'c', 1, 3, 0, 3, 0, b'a', 0, b'b', 0, b'c']
    );
    // A match that ends the input carries a zero byte that is not emitted.
    let tail = LZ77.compress(b"xyzxyz").unwrap();
    assert_eq!(tail, vec![6, 0, 0, 0, 0, b'x', 0, b'y', 0, b'z', 1, 3, 0, 3, 0, 0]);
    assert_eq!(LZ77.decompress(&tail).unwrap(), b"xyzxyz");
}

#[test]
fn lz77_longest_match_prefers_nearest() {
    let data = b"abab_abab";
    let m = LZ77::find_longest_match(data, 5);
    assert_eq!(m, Match { distance: 5, length: 4, next_char: 0 });
    let lit = LZ77::find_longest_match(data, 0);
    assert_eq!(lit, Match { distance: 0, length: 0, next_char: b'a' });
    let near = LZ77::find_longest_match(b"aaaaaaa", 6);
    assert_eq!(near.length, 0);
    let tie = LZ77::find_longest_match(b"abcXabcYabcZ", 8);
    assert_eq!(tie, Match { distance: 4, length: 3, next_char: b'Z' });
}

#[test]
fn lz77_token_framing() {
    let mut out = Vec::new();
    LZ77::encode_token(&mut out, &Match { distance: 0, length: 0, next_char: 7 });
    LZ77::encode_token(&mut out, &Match { distance: 0x0102, length: 0x0304, next_char: 9 });
    assert_eq!(out, vec![0, 7, 1, 0x02, 0x01, 0x04, 0x03, 9]);
    let mut pos = 0;
    assert_eq!(
        LZ77::decode_token(&out, &mut pos),
        Ok(Match { distance: 0, length: 0, next_char: 7 })
    );
    assert_eq!(pos, 2);
    assert_eq!(
        LZ77::decode_token(&out, &mut pos),
        Ok(Match { distance: 0x0102, length: 0x0304, next_char: 9 })
    );
    assert_eq!(pos, 8);
    assert_eq!(LZ77::decode_token(&out, &mut pos), Err(CodecError::TruncatedStream));
}

#[test]
fn lz77_errors() {
    assert_eq!(LZ77.decompress(&[1, 2]), Err(CodecError::InvalidHeader));
    assert_eq!(LZ77.decompress(&[5, 0, 0, 0]), Err(CodecError::TruncatedStream));
    assert_eq!(LZ77.decompress(&[5, 0, 0, 0, 0]), Err(CodecError::TruncatedStream));
    assert_eq!(LZ77.decompress(&[5, 0, 0, 0, 1, 1, 0, 3]), Err(CodecError::TruncatedStream));
    assert_eq!(LZ77.decompress(&[5, 0, 0, 0, 2, 0]), Err(CodecError::InvalidFlag));
    assert_eq!(
        LZ77.decompress(&[5, 0, 0, 0, 1, 3, 0, 3, 0, 0]),
        Err(CodecError::InvalidDistance)
    );
    assert_eq!(
        LZ77.decompress(&[5, 0, 0, 0, 0, 1, 1, 0, 0, 2, 0, 0]),
        Err(CodecError::InvalidMatchLength)
    );
    assert_eq!(LZ77.decompress(&[0, 0, 0, 0, 9, 9]), Ok(vec![]));
}

#[test]
fn rle_lone_escape_byte() {
    assert_eq!(RunLengthEncoding.compress(&[0xFF]).unwrap(), vec![0xFF, 0x00, 0xFF]);
    assert_eq!(RunLengthEncoding.decompress(&[0xFF, 0x00, 0xFF]).unwrap(), vec![0xFF]);
    let packed = RunLengthEncoding.compress(&[1, 0xFF, 2]).unwrap();
    assert_eq!(packed, vec![1, 0xFF, 0x00, 0xFF, 2]);
    assert_eq!(RunLengthEncoding.decompress(&packed).unwrap(), vec![1, 0xFF, 2]);
}

#[test]
fn rle_run_threshold() {
    assert_eq!(RunLengthEncoding.compress(&[7, 7, 7, 7]).unwrap(), vec![0xFF, 4, 7]);
    assert_eq!(RunLengthEncoding.compress(&[7, 7, 7]).unwrap(), vec![7, 7, 7]);
    assert_eq!(RunLengthEncoding.compress(&[7, 7]).unwrap(), vec![7, 7]);
    assert_eq!(RunLengthEncoding.compress(&[0xFF, 0xFF]).unwrap(), vec![0xFF, 2, 0xFF]);
    for n in 2..=4usize {
        round_trip(&RunLengthEncoding, &vec![7u8; n]);
    }
}

#[test]
fn rle_long_runs_are_capped() {
    let packed = RunLengthEncoding.compress(&vec![3u8; 300]).unwrap();
    assert_eq!(packed, vec![0xFF, 255, 3, 0xFF, 45, 3]);
    let packed = RunLengthEncoding.compress(&vec![3u8; 257]).unwrap();
    assert_eq!(packed, vec![0xFF, 255, 3, 3, 3]);
}

#[test]
fn rle_errors() {
    assert_eq!(RunLengthEncoding.decompress(&[0xFF]), Err(CodecError::TruncatedStream));
    assert_eq!(RunLengthEncoding.decompress(&[0xFF, 0x00]), Err(CodecError::TruncatedStream));
    assert_eq!(RunLengthEncoding.decompress(&[1, 0xFF, 5]), Err(CodecError::TruncatedStream));
    assert_eq!(
        RunLengthEncoding.decompress(&[0xFF, 0x00, 0x01]),
        Err(CodecError::InvalidEscape)
    );
    assert_eq!(RunLengthEncoding.decompress(&[0xFF, 3, 9]).unwrap(), vec![9, 9, 9]);
}
