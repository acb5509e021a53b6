use file_compressor::bits::pack_bits;
use file_compressor::bits::unpack_bytes;
use file_compressor::codec::compress;
use file_compressor::codec::decode_bits;
use file_compressor::codec::decompress;
use file_compressor::codec::encode_bits;
use file_compressor::codec::CodecError;
use file_compressor::huffmann::build_huffman_tree;
use file_compressor::huffmann::construct_min_heap_with_nodes;
use file_compressor::huffmann::count_frequencies;
use file_compressor::huffmann::encode_symbol_table;
use file_compressor::huffmann::CodeEntry;
use file_compressor::huffmann::TreeNode;

const FILE_CONTENTS: &str = "Rust is a general-purpose programming language emphasizing performance, type safety, and concurrency. It enforces memory safety, meaning that all references point to valid memory. It does so without a traditional garbage collector; instead, both memory safety errors and data races are prevented by the \"borrow checker\", which tracks the object lifetime of references at compile time.

    Rust does not enforce a programming paradigm, but was influenced by ideas from functional programming, including immutability, higher-order functions, algebraic data types, and pattern matching. It also supports object-oriented programming via structs, enums, traits, and methods. It is popular for systems programming.[13][14][15]
    
    Software developer Graydon Hoare created Rust as a personal project while working at Mozilla Research in 2006. Mozilla officially sponsored the project in 2009. In the years following the first stable release in May 2015, Rust was adopted by companies including Amazon, Discord, Dropbox, Google (Alphabet), Meta, and Microsoft. In December 2022, it became the first language other than C and assembly to be supported in the development of the Linux kernel.
    
    Rust has been noted for its rapid adoption, and has been studied in programming language theory research.
    
    History";

fn table_of(data: &[u8]) -> Vec<CodeEntry> {
    let freqs = count_frequencies(&data.to_vec());
    let queue = construct_min_heap_with_nodes(&freqs);
    let tree = build_huffman_tree(queue);
    encode_symbol_table(&tree)
}

fn is_prefix(a: &[bool], b: &[bool]) -> bool {
    a.len() <= b.len() && &b[..a.len()] == a
}

fn round_trip(data: &[u8]) {
    let packed = compress(&data.to_vec()).unwrap();
    let restored = decompress(&packed).unwrap();
    assert_eq!(restored, data.to_vec());
}

#[test]
fn test_compress_file() {
    let raw = FILE_CONTENTS.as_bytes().to_vec();
    let packed = compress(&raw).unwrap();
    assert!(packed.len() > 0);
    assert!(raw.len() > packed.len());
}

#[test]
fn test_decompress_file() {
    let raw = FILE_CONTENTS.as_bytes().to_vec();
    let packed = compress(&raw).unwrap();
    let restored = decompress(&packed).unwrap();
    assert!(packed.len() > 0);
    assert!(restored.len() == raw.len());
    assert_eq!(restored, raw);
}

#[test]
fn round_trip_of_various_inputs() {
    round_trip(b"hello, world");
    round_trip(b"a");
    round_trip(b"ab");
    round_trip(&[0u8, 0, 1, 0, 255, 0]);
    let all: Vec<u8> = (0..=255u8).collect();
    round_trip(&all);
    let mut long = Vec::new();
    for i in 0..5000u32 {
        long.push((i * i % 7) as u8);
    }
    round_trip(&long);
}

#[test]
fn nul_byte_gets_a_code() {
    let table = table_of(&[0u8, 0, 7]);
    assert_eq!(table.len(), 2);
    assert_eq!(table[0].symbol, 0);
    assert_eq!(table[1].symbol, 7);
}

#[test]
fn single_symbol_input_round_trips() {
    let packed = compress(&b"aaaa".to_vec()).unwrap();
    assert_eq!(decompress(&packed).unwrap(), b"aaaa".to_vec());
    let table = table_of(b"aaaa");
    assert_eq!(table.len(), 1);
    assert_eq!(table[0].symbol, b'a');
    assert_eq!(table[0].code, vec![false]);
}

#[test]
fn empty_input_is_refused() {
    assert_eq!(compress(&Vec::new()), Err(CodecError::EmptyInput));
}

#[test]
fn truncated_stream_is_malformed() {
    let raw = FILE_CONTENTS.as_bytes().to_vec();
    let packed = compress(&raw).unwrap();
    let cut = packed[..packed.len() - 10].to_vec();
    assert_eq!(decompress(&cut), Err(CodecError::Malformed));
    assert_eq!(decompress(&packed[..3].to_vec()), Err(CodecError::Malformed));
    assert_eq!(decompress(&Vec::new()), Err(CodecError::Malformed));
}

#[test]
fn abab_gets_two_one_bit_codes() {
    let table = table_of(b"abab");
    assert_eq!(table.len(), 2);
    assert_eq!(table[0].symbol, b'a');
    assert_eq!(table[1].symbol, b'b');
    assert_eq!(table[0].code.len(), 1);
    assert_eq!(table[1].code.len(), 1);
    let packed = compress(&b"abab".to_vec()).unwrap();
    assert_eq!(&packed[..4], &[0u8, 0, 0, 2]);
    assert_eq!(decompress(&packed).unwrap(), b"abab".to_vec());
}

#[test]
fn generated_codes_are_prefix_free() {
    let table = table_of(FILE_CONTENTS.as_bytes());
    for i in 0..table.len() {
        assert!(!table[i].code.is_empty());
        for j in 0..table.len() {
            if i != j {
                assert!(!is_prefix(&table[i].code, &table[j].code));
                assert_ne!(table[i].symbol, table[j].symbol);
            }
        }
    }
}

#[test]
fn skewed_input_shrinks() {
    let mut data = vec![b'x'; 600];
    data.extend_from_slice(b"the quick brown fox jumps over the lazy dog");
    data.extend(vec![b'x'; 400]);
    let packed = compress(&data).unwrap();
    assert!(packed.len() < data.len());
    assert_eq!(decompress(&packed).unwrap(), data);
}

#[test]
fn frequencies_are_exact() {
    let freqs = count_frequencies(&b"abca\0".to_vec());
    assert_eq!(freqs.len(), 256);
    assert_eq!(freqs[b'a' as usize], 2);
    assert_eq!(freqs[b'b' as usize], 1);
    assert_eq!(freqs[b'c' as usize], 1);
    assert_eq!(freqs[0], 1);
    assert_eq!(freqs[b'd' as usize], 0);
}

#[test]
fn heap_holds_one_leaf_per_symbol() {
    let freqs = count_frequencies(&b"aab".to_vec());
    let queue = construct_min_heap_with_nodes(&freqs);
    assert_eq!(queue.roots.len(), 2);
    let mut weights = queue.weights.clone();
    weights.sort();
    assert_eq!(weights, vec![1, 2]);
    let tree = build_huffman_tree(queue);
    assert_eq!(tree.nodes.len(), 3);
    match &tree.nodes[tree.root] {
        TreeNode::Internal { weight, .. } => assert_eq!(*weight, 3),
        TreeNode::Leaf { .. } => panic!("root of two symbols is a leaf"),
    }
}

#[test]
fn lightest_pair_is_merged_first() {
    // weights a:8, b:1, c:1, d:2 -> b and c merge, then with d, then with a
    let mut data = vec![b'a'; 8];
    data.extend_from_slice(b"bcdd");
    let table = table_of(&data);
    let len_of = |s: u8| table.iter().find(|e| e.symbol == s).unwrap().code.len();
    assert_eq!(len_of(b'a'), 1);
    assert_eq!(len_of(b'd'), 2);
    assert_eq!(len_of(b'b'), 3);
    assert_eq!(len_of(b'c'), 3);
}

#[test]
fn bits_pack_most_significant_first() {
    let bits = vec![true, false, true, true, false, true, true, true];
    assert_eq!(pack_bits(&bits), vec![0b1011_0111u8]);
    assert_eq!(pack_bits(&vec![true, true, false]), vec![0b1100_0000u8]);
    assert_eq!(pack_bits(&Vec::new()), Vec::<u8>::new());
    assert_eq!(
        unpack_bytes(&vec![0b1000_0001u8, 0x0f]),
        vec![true, false, false, false, false, false, false, true, false, false, false, false, true, true, true, true]
    );
}

#[test]
fn stream_layout_is_exact() {
    let table = vec![
        CodeEntry { symbol: b'a', code: vec![false] },
        CodeEntry { symbol: b'b', code: vec![true] },
    ];
    let bits = encode_bits(&table, &b"ab".to_vec());
    assert_eq!(bits.len(), 32 + 2 * (8 + 32 + 1) + 64 + 2);
    assert_eq!(bits[31], false);
    assert_eq!(bits[30], true);
    assert_eq!(&bits[bits.len() - 2..], &[false, true]);
    assert_eq!(decode_bits(&bits), Ok(b"ab".to_vec()));
}

#[test]
fn empty_code_is_malformed() {
    let mut bits = Vec::new();
    // one pair
    for i in 0..32 {
        bits.push(i == 31);
    }
    // symbol 'a', code length 0
    for i in 0..8 {
        bits.push((b'a' >> (7 - i)) & 1 == 1);
    }
    for _ in 0..32 {
        bits.push(false);
    }
    for _ in 0..64 {
        bits.push(false);
    }
    assert_eq!(decode_bits(&bits), Err(CodecError::Malformed));
}

fn push_uint(bits: &mut Vec<bool>, v: u64, width: u32) {
    for i in (0..width).rev() {
        bits.push((v >> i) & 1 == 1);
    }
}

#[test]
fn prefix_conflict_is_malformed() {
    // codes 0 and 01: the first is a prefix of the second
    let mut bits = Vec::new();
    push_uint(&mut bits, 2, 32);
    push_uint(&mut bits, b'a' as u64, 8);
    push_uint(&mut bits, 1, 32);
    bits.push(false);
    push_uint(&mut bits, b'b' as u64, 8);
    push_uint(&mut bits, 2, 32);
    bits.push(false);
    bits.push(true);
    push_uint(&mut bits, 1, 64);
    bits.push(false);
    assert_eq!(decode_bits(&bits), Err(CodecError::Malformed));
    assert_eq!(decompress(&pack_bits(&bits)), Err(CodecError::Malformed));
}

#[test]
fn duplicate_code_is_malformed() {
    let mut bits = Vec::new();
    push_uint(&mut bits, 2, 32);
    push_uint(&mut bits, b'a' as u64, 8);
    push_uint(&mut bits, 1, 32);
    bits.push(true);
    push_uint(&mut bits, b'b' as u64, 8);
    push_uint(&mut bits, 1, 32);
    bits.push(true);
    push_uint(&mut bits, 1, 64);
    bits.push(true);
    assert_eq!(decode_bits(&bits), Err(CodecError::Malformed));
}

#[test]
fn prefix_free_hand_table_decodes() {
    let mut bits = Vec::new();
    push_uint(&mut bits, 2, 32);
    push_uint(&mut bits, b'a' as u64, 8);
    push_uint(&mut bits, 1, 32);
    bits.push(false);
    push_uint(&mut bits, b'b' as u64, 8);
    push_uint(&mut bits, 2, 32);
    bits.push(true);
    bits.push(false);
    push_uint(&mut bits, 3, 64);
    bits.extend_from_slice(&[true, false, false, true, false]);
    assert_eq!(decode_bits(&bits), Ok(b"bab".to_vec()));
}
