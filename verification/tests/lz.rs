use orz::lz::{
    generate_extra_bit_codes_dec, generate_extra_bit_codes_enc, get_extra_bitlen, hash1, hash2, LZCfg, LZDecoder,
    LZEncoder, LZError,
};
use orz::matcher::{hash_dword, Bucket, BucketMatcher};

fn round_trip(text: &[u8], cfg: &LZCfg) {
    let mut sbuf = vec![0u8; 4];
    sbuf.extend_from_slice(text);
    let mut enc = LZEncoder::new();
    let mut dec = LZDecoder::new();
    let mut out = vec![0u8; sbuf.len()];
    let mut spos = 4;
    let mut dpos = 4;
    while spos < sbuf.len() {
        let (next, chunk) = enc.encode(cfg, &sbuf, spos);
        assert!(next > spos);
        let reached = dec.decode(&chunk, &mut out, dpos).unwrap();
        assert_eq!(reached, next);
        spos = next;
        dpos = reached;
    }
    assert_eq!(&out[4..], text);
}

#[test]
fn lz_round_trip_text() {
    let text = b"i can can a can into a can, can you can a can into a can? \
                 i can can a can into a can, can you can a can into a can!";
    round_trip(text, &LZCfg::new(45, 27, 18));
    round_trip(text, &LZCfg::new(5, 3, 2));
    round_trip(text, &LZCfg::new(0, 0, 0));
}

#[test]
fn lz_round_trip_runs_and_words() {
    let mut text = vec![b'a'; 1000];
    text.extend_from_slice(&[b'x', b'y'].repeat(300));
    for i in 0..2000u32 {
        text.push((i * 7 % 251) as u8);
    }
    text.extend_from_slice(&vec![0u8; 500]);
    round_trip(&text, &LZCfg::new(15, 9, 6));
}

#[test]
fn lz_round_trip_single_byte() {
    round_trip(b"z", &LZCfg::new(45, 27, 18));
}

#[test]
fn lz_encode_at_end_makes_an_empty_chunk() {
    let sbuf = vec![1u8, 2, 3, 4];
    let mut enc = LZEncoder::new();
    let (next, chunk) = enc.encode(&LZCfg::new(5, 3, 2), &sbuf, 4);
    assert_eq!(next, 4);
    let mut dec = LZDecoder::new();
    let mut out = vec![1u8, 2, 3, 4];
    assert_eq!(dec.decode(&chunk, &mut out, 4), Ok(4));
}

#[test]
fn lz_decode_rejects_garbage() {
    let mut dec = LZDecoder::new();
    let mut out = vec![0u8; 64];
    // more counted symbols than the alphabet holds
    let garbage = [0xffu8; 16];
    assert_eq!(dec.decode(&garbage, &mut out, 4), Err(LZError::InvalidData));
}

#[test]
fn lz_decode_rejects_output_past_the_end() {
    let text = b"abcdefgh";
    let mut sbuf = vec![0u8; 4];
    sbuf.extend_from_slice(text);
    let mut enc = LZEncoder::new();
    let (_, chunk) = enc.encode(&LZCfg::new(5, 3, 2), &sbuf, 4);
    let mut dec = LZDecoder::new();
    let mut small = vec![0u8; 6];
    assert_eq!(dec.decode(&chunk, &mut small, 4), Err(LZError::InvalidData));
}

#[test]
fn roid_tables() {
    let enc = generate_extra_bit_codes_enc();
    let dec = generate_extra_bit_codes_dec();
    assert_eq!(enc.len(), 4094);
    assert_eq!(dec.len(), 22);
    assert_eq!(enc[0], (0, 0, 0));
    assert_eq!(enc[1], (1, 0, 0));
    assert_eq!(enc[2], (2, 1, 0));
    assert_eq!(enc[3], (2, 1, 1));
    assert_eq!(enc[4], (3, 1, 0));
    assert_eq!(enc[4093], (21, 10, 1023));
    assert_eq!(dec[0], (0, 0));
    assert_eq!(dec[2], (2, 1));
    assert_eq!(dec[21], (3070, 10));
    for ro in 0..4094usize {
        let (id, bits_len, bits) = enc[ro];
        let (base, len) = dec[id as usize];
        assert_eq!(len, bits_len);
        assert_eq!(base as usize + bits as usize, ro);
    }
    assert_eq!(get_extra_bitlen(7), 3);
}

#[test]
fn context_hashes() {
    let buf = b"a1 !";
    // '1' is 49, after the letter 'a'
    assert_eq!(hash1(buf, 1), 49 + 128);
    // ' ' is 32, after the digit '1'
    assert_eq!(hash1(buf, 2), 32 + 128);
    // '!' is 33, after a space
    assert_eq!(hash1(buf, 3), 33);
    assert_eq!(hash2(buf, 3), 33 + 128 * (32 + 128));
    // high bytes keep their low seven bits
    assert_eq!(hash1(&[0u8, 0xc1], 1), 0x41);
}

#[test]
fn dword_hash() {
    let buf = [1u8, 2, 3, 4];
    let expected = (1u32.wrapping_mul(131313131) ^ 797)
        .wrapping_add(2u32.wrapping_mul(1313131) ^ 79797)
        .wrapping_add(3u32.wrapping_mul(13131) ^ 7979797)
        .wrapping_add(4u32.wrapping_mul(131) ^ 797979797);
    assert_eq!(hash_dword(&buf, 0), expected as usize);
    // past the end the bytes read as zero
    let zero = 797u32.wrapping_add(79797).wrapping_add(7979797).wrapping_add(797979797);
    assert_eq!(hash_dword(&buf, 10), zero as usize);
}

#[test]
fn matcher_finds_the_earlier_occurrence() {
    let buf = b"hello world, hello world! and more text after it";
    let mut bucket = Bucket::new();
    let mut matcher = BucketMatcher::new();
    bucket.update(0, 0, 0);
    matcher.update(&bucket, buf, 0);
    let m = matcher.find_match(&bucket, buf, 13, 5);
    assert_eq!(m.match_len, 11);
    assert_eq!(m.reduced_offset, 0);
    assert_eq!(m.match_len_expected, 4);
    assert_eq!(m.match_len_min, 4);
    assert!(matcher.has_lazy_match(&bucket, buf, 13, 11, 5));
    assert!(!matcher.has_lazy_match(&bucket, buf, 13, 12, 5));
    let none = matcher.find_match(&bucket, buf, 30, 5);
    assert_eq!(none.match_len, 0);
    assert!(!matcher.has_lazy_match(&bucket, buf, 30, 4, 5));
}

#[test]
fn lz_one_literal_chunk() {
    let mut big = vec![1u8, 2, 3, 4, 5, 0];
    big.extend_from_slice(&[0u8; 58]);
    let sbuf = &big[..6];
    let mut enc = LZEncoder::new();
    let (next, chunk) = enc.encode(&LZCfg::new(5, 3, 2), sbuf, 5);
    assert_eq!(next, 6);
    assert_eq!(chunk.len(), 8);
}

#[test]
fn lz_chunks_are_whole_words() {
    let mut sbuf = vec![0u8; 4];
    for i in 0..3000u32 {
        sbuf.push((i * 13 % 97) as u8);
    }
    let mut enc = LZEncoder::new();
    let mut spos = 4;
    while spos < sbuf.len() {
        let (next, chunk) = enc.encode(&LZCfg::new(15, 9, 6), &sbuf, spos);
        assert_eq!(chunk.len() % 4, 0);
        spos = next;
    }
}

#[test]
fn matcher_match_can_be_shorter_than_its_hint() {
    let mut buf = b"abcdefgh".to_vec();
    buf.extend_from_slice(&[b'x'; 22]);
    buf.extend_from_slice(b"abcdeZZZ");
    buf.extend_from_slice(&[b'y'; 20]);
    let mut bucket = Bucket::new();
    let mut matcher = BucketMatcher::new();
    bucket.update(0, 0, 0);
    matcher.update(&bucket, &buf, 0);
    // a later 20-byte match against that node raises its shortest-length hint
    bucket.update(10, 0, 20);
    matcher.update(&bucket, &buf, 10);
    let m = matcher.find_match(&bucket, &buf, 30, 5);
    assert_eq!(m.match_len, 5);
    assert_eq!(m.reduced_offset, 1);
    assert_eq!(m.match_len_min, 21);
}
