use orz::aux::{ResultExt, ToUSize};
use orz::bits::{BitQueue, Bits};
use orz::huffman::{HuffmanDecoding, HuffmanEncoding, HuffmanTable};
use orz::ioutil::{decode_len, encode_len, CountRead, CountWrite};
use orz::mem::{mem_fast_common_prefix, mem_fast_copy, mem_fast_equal};
use orz::symrank::SymRankCoder;
use orz::progress::{ProgressLogger, SilentProgressLogger};

#[test]
fn length_bytes() {
    assert_eq!(encode_len(0), vec![0]);
    assert_eq!(encode_len(127), vec![127]);
    assert_eq!(encode_len(128), vec![128, 1]);
    assert_eq!(encode_len(300), vec![128 + 44, 2]);
    for &v in &[0usize, 1, 127, 128, 255, 16383, 16384, 1 << 30, usize::MAX] {
        let mut bytes = encode_len(v);
        let n = bytes.len();
        bytes.extend_from_slice(&[9, 9, 9]);
        assert_eq!(decode_len(&bytes), Some((v, n)));
    }
    assert_eq!(decode_len(&[]), None);
    assert_eq!(decode_len(&[128, 129]), None);
    // eleven continuation bytes of ones do not fit
    let mut too_big = vec![255u8; 11];
    too_big.push(1);
    assert_eq!(decode_len(&too_big), None);
    // zero digits past the width are harmless
    let mut zeros = vec![128u8; 12];
    zeros.push(0);
    assert_eq!(decode_len(&zeros), Some((0, 13)));
}

#[test]
fn counters() {
    let mut r = CountRead::new(5u8);
    assert_eq!(r.count(), 0);
    r.add(10);
    r.add(5);
    assert_eq!(r.count(), 15);
    assert_eq!(r.inner, 5);
    let mut w = CountWrite::new(());
    w.add(3);
    assert_eq!(w.count(), 3);
}

#[test]
fn huffman_lengths_from_weights() {
    let weights = [10u32, 0, 1, 1, 2, 20];
    let table = HuffmanTable::new_from_sym_weights(&weights, 15);
    assert_eq!(table.code_lens.len(), 6);
    assert_eq!(table.code_lens[1], 0);
    for i in [0usize, 2, 3, 4, 5] {
        assert!(table.code_lens[i] > 0);
    }
    // the heaviest symbol has the shortest code
    assert_eq!(table.code_lens[5], 1);
    assert_eq!(table.code_lens[0], 2);
    assert_eq!(table.code_lens[4], 3);
    assert_eq!(table.code_lens[2], 4);
    assert_eq!(table.code_lens[3], 4);
    assert_eq!(table.max_code_len, 4);
}

#[test]
fn huffman_lengths_are_limited() {
    // Fibonacci weights give a deep tree unless limited
    let mut weights = vec![1u32, 1];
    for i in 2..30 {
        let w = weights[i - 1] + weights[i - 2];
        weights.push(w);
    }
    let table = HuffmanTable::new_from_sym_weights(&weights, 8);
    assert!(table.max_code_len <= 8);
    let kraft: u64 = table.code_lens.iter().map(|&l| 1u64 << (8 - l)).sum();
    assert!(kraft <= 256);
}

#[test]
fn huffman_lengths_edge_cases() {
    let none = HuffmanTable::new_from_sym_weights(&[0u32, 0, 0], 15);
    assert_eq!(none.code_lens, vec![0, 0, 0]);
    assert_eq!(none.max_code_len, 0);
    let one = HuffmanTable::new_from_sym_weights(&[0u32, 7, 0], 15);
    assert_eq!(one.code_lens, vec![0, 1, 0]);
    assert_eq!(one.max_code_len, 1);
    let empty = HuffmanTable::new_from_sym_weights(&[], 15);
    assert!(empty.code_lens.is_empty());
}

#[test]
fn canonical_codes_and_their_decoding() {
    let table = HuffmanTable::new(vec![2, 1, 3, 3], 3);
    let enc = HuffmanEncoding::from_huffman_table(&table);
    // shorter codes first, then lower symbols
    assert_eq!(enc.encodings, vec![(2, 2), (0, 1), (6, 3), (7, 3)]);
    let dec = HuffmanDecoding::from_huffman_table(&table).unwrap();
    assert_eq!(dec.max_code_len, 3);
    assert_eq!(
        dec.decodings,
        vec![(1, 1), (1, 1), (1, 1), (1, 1), (0, 2), (0, 2), (2, 3), (3, 3)]
    );
    // lengths that admit no prefix code give no decoding table
    let bad = HuffmanTable::new(vec![1, 1, 1], 1);
    assert!(HuffmanDecoding::from_huffman_table(&bad).is_none());
}

#[test]
fn symbol_ranks_round_trip() {
    let order: Vec<u16> = (0..389u16).rev().collect();
    let mut enc = SymRankCoder::new();
    enc.init(&order);
    let mut dec = enc.duplicate();
    let syms = [388u16, 0, 0, 5, 388, 100, 5, 5, 200, 7];
    for (k, &s) in syms.iter().enumerate() {
        let unlikely = syms[(k + 3) % syms.len()];
        let code = enc.encode(s, unlikely);
        assert!(code < 389);
        assert_eq!(dec.decode(code, unlikely), s);
    }
    // the first-ranked symbol is code 0 unless it is the unlikely one
    let mut fresh = SymRankCoder::new();
    fresh.init(&order);
    assert_eq!(fresh.encode(388, 0), 0);
    let mut fresh = SymRankCoder::new();
    fresh.init(&order);
    assert_eq!(fresh.encode(388, 388), 388);
}

#[test]
fn byte_helpers() {
    let buf = b"abcabcabx";
    assert_eq!(mem_fast_common_prefix(buf, 0, 3, 16), 5);
    assert_eq!(mem_fast_common_prefix(buf, 0, 3, 4), 4);
    assert!(mem_fast_equal(buf, 0, 3, 5));
    assert!(!mem_fast_equal(buf, 0, 3, 6));
    let mut v = b"ab......".to_vec();
    mem_fast_copy(&mut v, 0, 2, 6);
    assert_eq!(&v, b"abababab");
    let mut w = b"xyz-----".to_vec();
    mem_fast_copy(&mut w, 0, 5, 3);
    assert_eq!(&w, b"xyz--xyz");
}

#[test]
fn silent_logger_does_nothing() {
    let mut logger = SilentProgressLogger;
    logger.set_is_encode(true);
    logger.log(1, 2);
    logger.finish(3, 4);
}

#[test]
fn bit_accumulators() {
    let mut b = Bits { value: 0, len: 0 };
    b.put(3, 0b101);
    b.put(4, 0b0011);
    assert_eq!(b.len, 7);
    assert_eq!(b.peek(3), 0b101);
    assert_eq!(b.get(3), 0b101);
    assert_eq!(b.len, 4);
    assert_eq!(b.value, 0b0011);
    assert_eq!(b.get(4), 0b0011);
    assert_eq!(b.value, 0);

    let mut q = BitQueue { value: 0, len: 0 };
    q.put(8, 0xab);
    q.put(8, 0xcd);
    assert_eq!(q.peek(4), 0xa);
    assert_eq!(q.get(8), 0xab);
    assert_eq!(q.value, 0xcd);
    assert_eq!(q.get(8), 0xcd);
    assert_eq!(q.len, 0);
}

#[test]
fn index_conversions() {
    assert_eq!(7u8.to_usize(), 7);
    assert_eq!(300u16.to_usize(), 300);
    assert_eq!((-1i8).to_usize(), usize::MAX);
    assert_eq!(5usize.to_usize(), 5);
    let ok: Result<(), &str> = <Result<(), &str> as ResultExt<&str>>::from_bool(true, Err("no"));
    assert_eq!(ok, Ok(()));
    let err: Result<(), &str> = <Result<(), &str> as ResultExt<&str>>::from_bool(false, Err("no"));
    assert_eq!(err, Err("no"));
}

#[test]
fn huffman_lengths_of_a_small_tree() {
    let table = HuffmanTable::new_from_sym_weights(&[1u32, 1, 2, 4], 15);
    assert_eq!(table.code_lens, vec![3, 3, 2, 1]);
    assert_eq!(table.max_code_len, 3);
}

#[test]
fn huffman_code_is_complete() {
    // with two or more symbols the Kraft sum is exactly one
    let cases: Vec<(Vec<u32>, u8)> = vec![
        (vec![10, 0, 1, 1, 2, 20], 15),
        (vec![5, 5, 5], 15),
        ((1..40).collect(), 15),
        ((0..30).map(|i| 1u32 << (i % 20)).collect(), 6),
        (vec![1; 16], 4),
        (vec![1; 17], 5),
    ];
    for (weights, limit) in cases {
        let table = HuffmanTable::new_from_sym_weights(&weights, limit);
        let m = table.max_code_len;
        assert!(m <= limit);
        let kraft: u64 = table.code_lens.iter().filter(|&&l| l > 0).map(|&l| 1u64 << (m - l)).sum();
        assert_eq!(kraft, 1u64 << m);
    }
}

#[test]
fn huffman_equal_weights_fit_their_limit() {
    // 2^limit symbols of equal weight: every code is exactly `limit` long
    let table = HuffmanTable::new_from_sym_weights(&vec![3u32; 32], 5);
    assert!(table.code_lens.iter().all(|&l| l == 5));
    assert_eq!(table.max_code_len, 5);
}
