use std::collections::VecDeque;

use m_compressor::bit_writer::BitWriter;
use m_compressor::compressor::{compress_chunk, CompressError, MCompressor};
use m_compressor::constants::{
    DIST_BASE_CODES, DIST_EXTRA_BITS, END_OF_BLOCK_ID, END_OF_STREAM_ID, LEN_BASE_CODES,
    LEN_EXTRA_BITS,
};
use m_compressor::encoder::{get_code_index, get_hm_code_for_lz_ptr, process_huffman};
use m_compressor::huffman::get_huffman_tree;
use m_compressor::huffman_tree_node::HuffmanTreeNode;
use m_compressor::lz77::{process_lz77, LzSymbol, WINDOW_SIZE};

fn symbols_of(input: &[u8], window: &mut VecDeque<u8>, is_last: bool) -> Vec<LzSymbol> {
    let mut out: VecDeque<LzSymbol> = VecDeque::new();
    process_lz77(input, &mut out, window, is_last);
    out.into_iter().collect()
}

/// Replays symbols as copies against the history, as a decoder would.
fn replay(history: &mut Vec<u8>, symbols: &[LzSymbol]) {
    for s in symbols {
        match *s {
            LzSymbol::Literal(v) => {
                if v < 256 {
                    history.push(v as u8);
                }
            }
            LzSymbol::Pointer { dist, len } => {
                for _ in 0..len {
                    let b = history[history.len() - dist as usize];
                    history.push(b);
                }
            }
        }
    }
}

fn pseudo_random(n: usize, seed: u32) -> Vec<u8> {
    let mut x = seed;
    (0..n)
        .map(|_| {
            x = x.wrapping_mul(1_103_515_245).wrapping_add(12_345);
            (x >> 16) as u8
        })
        .collect()
}

fn collect_codes(node: &HuffmanTreeNode, path: u128, depth: u8, out: &mut Vec<(usize, u128, u8)>) {
    if node.is_leaf() {
        out.push((node.symbol.unwrap(), path, depth));
    }
    if let Some(l) = &node.left {
        collect_codes(l, path, depth + 1, out);
    }
    if let Some(r) = &node.right {
        collect_codes(r, path | (1u128 << depth), depth + 1, out);
    }
}

fn weighted_length(freqs: &[usize]) -> usize {
    let tree = get_huffman_tree(&freqs.to_vec());
    let mut codes = Vec::new();
    collect_codes(&tree, 0, 0, &mut codes);
    codes.iter().map(|&(s, _, d)| freqs[s] * d as usize).sum()
}

fn compress_all(chunks: &[&[u8]]) -> Vec<u8> {
    let mut window: VecDeque<u8> = VecDeque::new();
    let mut writer = BitWriter::new();
    let mut out = Vec::new();
    for chunk in chunks {
        assert!(!compress_chunk(chunk, &mut window, &mut writer));
        out.extend(writer.take_bytes());
    }
    assert!(compress_chunk(&[], &mut window, &mut writer));
    out.extend(writer.take_bytes());
    out
}

#[test]
fn run_of_ten_bytes_is_literal_then_pointer() {
    let mut window = VecDeque::new();
    let syms = symbols_of(b"aaaaaaaaaa", &mut window, false);
    assert_eq!(
        syms,
        vec![
            LzSymbol::Literal(b'a' as u16),
            LzSymbol::Pointer { dist: 1, len: 9 },
            LzSymbol::Literal(END_OF_BLOCK_ID as u16),
        ]
    );
    assert_eq!(window.len(), 10);
}

#[test]
fn empty_input_gives_only_the_sentinel() {
    let mut window = VecDeque::new();
    assert_eq!(
        symbols_of(b"", &mut window, false),
        vec![LzSymbol::Literal(END_OF_BLOCK_ID as u16)]
    );
    assert_eq!(
        symbols_of(b"", &mut window, true),
        vec![LzSymbol::Literal(END_OF_STREAM_ID as u16)]
    );
    assert!(window.is_empty());
}

#[test]
fn no_repeats_gives_only_literals() {
    let input = b"abcdefghijklmnopqrstuvwxyz0123456789";
    let mut window = VecDeque::new();
    let syms = symbols_of(input, &mut window, false);
    assert_eq!(syms.len(), input.len() + 1);
    for (s, &b) in syms.iter().zip(input.iter()) {
        assert_eq!(*s, LzSymbol::Literal(b as u16));
    }
    assert!(!syms.iter().any(|s| matches!(s, LzSymbol::Pointer { .. })));
}

#[test]
fn nearest_match_wins_a_tie() {
    let mut window: VecDeque<u8> = b"abcXabcY".iter().copied().collect();
    let syms = symbols_of(b"abcZ", &mut window, false);
    assert_eq!(syms[0], LzSymbol::Pointer { dist: 4, len: 3 });
    assert_eq!(syms[1], LzSymbol::Literal(b'Z' as u16));
}

#[test]
fn matches_reach_into_earlier_blocks() {
    let mut window = VecDeque::new();
    symbols_of(b"hello world", &mut window, false);
    let syms = symbols_of(b"hello", &mut window, false);
    assert_eq!(syms[0], LzSymbol::Pointer { dist: 11, len: 5 });
}

#[test]
fn symbols_replay_to_the_input() {
    let inputs: Vec<Vec<u8>> = vec![
        b"abracadabra abracadabra abracadabra".to_vec(),
        pseudo_random(1500, 7),
        (0..3000u32).map(|i| (i % 7) as u8).collect(),
        b"x".to_vec(),
    ];
    for input in inputs {
        let mut window = VecDeque::new();
        let syms = symbols_of(&input, &mut window, false);
        let mut history = Vec::new();
        replay(&mut history, &syms);
        assert_eq!(history, input);
    }
}

#[test]
fn symbols_replay_across_blocks_and_window_stays_bounded() {
    let data: Vec<u8> = (0..40_000u32).map(|i| (i % 251) as u8 ^ (i / 10_000) as u8).collect();
    let mut window = VecDeque::new();
    let mut history = Vec::new();
    for chunk in data.chunks(9_000) {
        let syms = symbols_of(chunk, &mut window, false);
        replay(&mut history, &syms);
        assert!(window.len() <= WINDOW_SIZE);
    }
    assert_eq!(history, data);
    assert_eq!(window.len(), WINDOW_SIZE);
    assert!(window.iter().copied().eq(data[data.len() - WINDOW_SIZE..].iter().copied()));
}

#[test]
fn longest_length_and_distance_take_the_last_codes() {
    assert_eq!(get_hm_code_for_lz_ptr(&32768, &258), (29, 285));
    assert_eq!(LEN_BASE_CODES[28], 258);
    assert_eq!(LEN_EXTRA_BITS[28], 0);
    let residual = 32768 - DIST_BASE_CODES[29] as u32;
    assert_eq!(residual, 8191);
    assert!(residual < (1u32 << DIST_EXTRA_BITS[29]));
    assert_eq!(get_hm_code_for_lz_ptr(&1, &3), (0, 257));
    assert_eq!(get_hm_code_for_lz_ptr(&5, &11), (4, 265));
    assert_eq!(get_hm_code_for_lz_ptr(&24576, &257), (28, 284));
}

#[test]
fn code_index_is_greatest_base_not_above() {
    assert_eq!(get_code_index(14, &LEN_BASE_CODES), 9);
    assert_eq!(get_code_index(15, &LEN_BASE_CODES), 10);
    assert_eq!(get_code_index(2, &LEN_BASE_CODES), 0);
    assert_eq!(get_code_index(100, &DIST_BASE_CODES), 13);
}

#[test]
fn bit_writer_packs_most_significant_first() {
    let mut w = BitWriter::new();
    w.write_bits(0b101, 3);
    assert!(w.take_bytes().is_empty());
    w.write_bits(0b1_1110, 5);
    assert_eq!(w.take_bytes(), vec![0b1011_1110]);
    w.write_bits(0b11, 2);
    w.flush_all();
    assert_eq!(w.take_bytes(), vec![0b1100_0000]);
}

#[test]
fn bit_writer_split_writes_give_the_same_bytes() {
    let v: u128 = 0x1_2345_6789_abcd_ef01_2345;
    let mut one = BitWriter::new();
    one.write_bits(0b1, 1);
    one.write_bits(v, 83);
    one.flush_all();
    let mut two = BitWriter::new();
    two.write_bits(0b1, 1);
    two.write_bits(v >> 40, 43);
    two.write_bits(v, 40);
    two.flush_all();
    assert_eq!(one.take_bytes(), two.take_bytes());
}

#[test]
fn huffman_codes_are_prefix_free() {
    let freqs: Vec<usize> = vec![5, 0, 9, 12, 13, 16, 45, 1, 1, 0, 3];
    let tree = get_huffman_tree(&freqs);
    let mut codes = Vec::new();
    collect_codes(&tree, 0, 0, &mut codes);
    let mut symbols: Vec<usize> = codes.iter().map(|c| c.0).collect();
    symbols.sort();
    assert_eq!(symbols, vec![0, 2, 3, 4, 5, 6, 7, 8, 10]);
    assert_eq!(tree.weight, freqs.iter().sum::<usize>());
    for (i, a) in codes.iter().enumerate() {
        for (j, b) in codes.iter().enumerate() {
            if i != j {
                let prefix = a.2 <= b.2 && (b.1 & ((1u128 << a.2) - 1)) == a.1;
                assert!(!prefix);
            }
        }
    }
}

#[test]
fn huffman_tree_of_nothing_is_a_single_leaf() {
    let tree = get_huffman_tree(&vec![0usize; 30]);
    assert!(tree.is_leaf());
    assert_eq!(tree.symbol, Some(0));
    assert_eq!(tree.weight, 0);
}

#[test]
fn huffman_ties_go_to_the_first_in_queue() {
    let tree = get_huffman_tree(&vec![1, 1, 1]);
    let left = tree.left.as_ref().unwrap();
    let right = tree.right.as_ref().unwrap();
    assert_eq!(left.symbol, Some(2));
    assert_eq!(right.left.as_ref().unwrap().symbol, Some(0));
    assert_eq!(right.right.as_ref().unwrap().symbol, Some(1));
}

#[test]
fn more_skew_gives_no_longer_encoding() {
    let lengths: Vec<usize> = [[2, 2, 2, 2], [3, 2, 2, 1], [5, 1, 1, 1], [7, 1, 0, 0]]
        .iter()
        .map(|f| weighted_length(f))
        .collect();
    assert_eq!(lengths, vec![16, 16, 13, 8]);
}

#[test]
fn last_empty_block_is_a_zero_header() {
    let out = compress_all(&[]);
    assert_eq!(out, vec![0u8; 317]);
}

#[test]
fn one_literal_block_has_exact_bits() {
    let mut writer = BitWriter::new();
    let mut syms: VecDeque<LzSymbol> = VecDeque::new();
    syms.push_back(LzSymbol::Literal(b'a' as u16));
    syms.push_back(LzSymbol::Literal(END_OF_BLOCK_ID as u16));
    process_huffman(&mut syms, &mut writer, false);
    assert!(syms.is_empty());
    writer.flush_all();
    let out = writer.take_bytes();
    let mut expected = vec![0u8; 317];
    expected[97] = 1;
    expected[256] = 1;
    expected.push(0b0100_0000);
    assert_eq!(out, expected);
}

#[test]
fn pointer_block_has_exact_bits() {
    let mut window = VecDeque::new();
    let mut writer = BitWriter::new();
    assert!(!compress_chunk(b"aaaaaaaaaa", &mut window, &mut writer));
    writer.flush_all();
    let out = writer.take_bytes();
    let mut expected = vec![0u8; 317];
    expected[97] = 2;
    expected[256] = 2;
    expected[263] = 1;
    expected.push(0b0101_1000);
    assert_eq!(out, expected);
}

#[test]
fn last_block_ends_with_its_stream_code() {
    let mut writer = BitWriter::new();
    let mut syms: VecDeque<LzSymbol> = VecDeque::new();
    syms.push_back(LzSymbol::Literal(b'a' as u16));
    process_huffman(&mut syms, &mut writer, true);
    writer.flush_all();
    let out = writer.take_bytes();
    let mut expected = vec![0u8; 317];
    expected[97] = 1;
    expected[286] = 1;
    expected.push(0b0100_0000);
    assert_eq!(out, expected);
}

#[test]
fn distance_extra_bits_carry_the_residual() {
    let mut writer = BitWriter::new();
    let mut syms: VecDeque<LzSymbol> = VecDeque::new();
    syms.push_back(LzSymbol::Pointer { dist: 32768, len: 258 });
    process_huffman(&mut syms, &mut writer, false);
    writer.flush_all();
    let out = writer.take_bytes();
    let mut expected = vec![0u8; 317];
    // one symbol per alphabet: single-leaf trees, zero-length codes; the
    // thirteen extra bits of the distance hold 32768 - 24577 = 8191
    expected.push(0xff);
    expected.push(0b1111_1000);
    assert_eq!(out, expected);
}

#[test]
fn compressed_output_is_deterministic() {
    let data = pseudo_random(800, 3);
    let a = compress_all(&[&data[..400], &data[400..]]);
    let b = compress_all(&[&data[..400], &data[400..]]);
    assert_eq!(a, b);
    assert!(a.len() > 3 * 317);
}

#[test]
fn output_path_gets_the_suffix() {
    let m = MCompressor::new("data/input.txt");
    assert_eq!(m.get_out_file_path(), "data/input.txt.mc");
    assert_eq!(m.get_in_file_path(), "data/input.txt");
}

#[test]
fn error_kinds_are_distinct() {
    assert_ne!(CompressError::FileOpen, CompressError::StreamRead);
    assert_ne!(CompressError::StreamRead, CompressError::FileWrite);
}

#[test]
fn last_block_with_input_ends_with_block_sentinel() {
    let mut window = VecDeque::new();
    assert_eq!(
        symbols_of(b"ab", &mut window, true),
        vec![
            LzSymbol::Literal(b'a' as u16),
            LzSymbol::Literal(b'b' as u16),
            LzSymbol::Literal(END_OF_BLOCK_ID as u16),
        ]
    );
}

#[test]
fn last_block_always_gets_the_stream_code() {
    let mut writer = BitWriter::new();
    let mut syms: VecDeque<LzSymbol> = VecDeque::new();
    syms.push_back(LzSymbol::Literal(b'a' as u16));
    syms.push_back(LzSymbol::Literal(END_OF_STREAM_ID as u16));
    process_huffman(&mut syms, &mut writer, true);
    writer.flush_all();
    let out = writer.take_bytes();
    let mut expected = vec![0u8; 317];
    expected[97] = 1;
    expected[286] = 1;
    // code of 'a' (0), the symbol 286 (1), then the end-of-stream code (1)
    expected.push(0b0110_0000);
    assert_eq!(out, expected);
}

#[test]
fn code_index_over_a_long_table() {
    let bases: Vec<u16> = (0..1000u16).map(|i| 10 * i + 5).collect();
    assert_eq!(get_code_index(4, &bases), 0);
    assert_eq!(get_code_index(5, &bases), 0);
    assert_eq!(get_code_index(9_994, &bases), 998);
    assert_eq!(get_code_index(9_995, &bases), 999);
    assert_eq!(get_code_index(u16::MAX, &bases), 999);
}

#[test]
fn full_bytes_reach_the_sink_at_once() {
    let mut w = BitWriter::new();
    w.write_bits(0b101, 3);
    w.write_bits(0b10110, 5);
    assert_eq!(w.take_bytes(), vec![0xB6]);
}
