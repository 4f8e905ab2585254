use orz::ioutil::decode_len;
use orz::stream::{level_cfg, StreamDecoder, StreamEncoder, BLOCK_INPUT_LEN, TBVEC_LEN};
use orz::lz::LZError;

fn compress(input: &[u8], level: u8) -> Vec<u8> {
    let cfg = level_cfg(level).unwrap();
    let mut enc = StreamEncoder::new();
    let mut out = Vec::new();
    for block in input.chunks(BLOCK_INPUT_LEN) {
        out.extend(enc.encode_block(&cfg, block));
    }
    out.extend(enc.finish());
    out
}

fn decompress(stream: &[u8]) -> Result<Vec<u8>, LZError> {
    let mut dec = StreamDecoder::new();
    let mut pos = 0;
    let mut out = Vec::new();
    loop {
        let (len, used) = decode_len(&stream[pos..]).unwrap();
        pos += used;
        if len == 0 {
            return Ok(out);
        }
        out.extend(dec.decode_chunk(&stream[pos..pos + len])?);
        pos += len;
    }
}

#[test]
fn stream_round_trip() {
    let text = b"orz is an optimized ROLZ (reduced offset Lempel-Ziv) general purpose data compressor. \
                 input data is encoded as ROLZ-matches (reduced-offsets and match lengths), 2-byte words, \
                 and single bytes. then all encoded symbols are processed with a symbol ranking \
                 (aka Move-to-Front) transformer and a static huffman coder.";
    let stream = compress(text, 2);
    assert!(stream.len() < text.len());
    assert_eq!(decompress(&stream).unwrap(), text.to_vec());
}

#[test]
fn stream_of_nothing_is_one_zero_byte() {
    let stream = compress(b"", 0);
    assert_eq!(stream, vec![0u8]);
    assert_eq!(decompress(&stream).unwrap(), Vec::<u8>::new());
}

#[test]
fn levels() {
    let c0 = level_cfg(0).unwrap();
    assert_eq!((c0.match_depth, c0.lazy_match_depth1, c0.lazy_match_depth2), (5, 3, 2));
    let c1 = level_cfg(1).unwrap();
    assert_eq!((c1.match_depth, c1.lazy_match_depth1, c1.lazy_match_depth2), (15, 9, 6));
    let c2 = level_cfg(2).unwrap();
    assert_eq!((c2.match_depth, c2.lazy_match_depth1, c2.lazy_match_depth2), (45, 27, 18));
    assert!(level_cfg(3).is_none());
}

#[test]
fn overlong_chunk_is_refused() {
    assert!(StreamDecoder::chunk_len_ok(TBVEC_LEN - 1));
    assert!(!StreamDecoder::chunk_len_ok(TBVEC_LEN));
    let mut dec = StreamDecoder::new();
    let big = vec![0u8; TBVEC_LEN];
    assert_eq!(dec.decode_chunk(&big), Err(LZError::InvalidData));
}

#[test]
fn stream_round_trip_across_blocks() {
    let n = BLOCK_INPUT_LEN + 5000;
    let input: Vec<u8> = (0..n).map(|i| ((i % 251) * 7 % 256) as u8).collect();
    let stream = compress(&input, 0);
    assert!(stream.len() < input.len() / 10);
    assert_eq!(decompress(&stream).unwrap(), input);
}

#[test]
fn stream_round_trip_many_chunks() {
    let mut x: u32 = 12345;
    let input: Vec<u8> = (0..1_200_000)
        .map(|_| {
            x = x.wrapping_mul(1103515245).wrapping_add(12345);
            (x >> 16) as u8
        })
        .collect();
    let stream = compress(&input, 0);
    let (first_len, used) = decode_len(&stream).unwrap();
    assert!(used + first_len < stream.len() - 1);
    assert_eq!(decompress(&stream).unwrap(), input);
}
