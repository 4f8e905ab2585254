use orz::coder::{Decoder, Encoder};
use orz::huffman::{HuffmanDecoding, HuffmanEncoding, HuffmanTable};

#[test]
fn test_coder_with_huffman() {
    let input = b"i can can a can into a can, can you can a can into a can?";

    // test compute huffman table
    let mut weights = [0u32; 256];
    for &b in input {
        weights[b as usize] += 1;
    }
    let huffman_table = HuffmanTable::new_from_sym_weights(&weights, 15);
    let huff = HuffmanEncoding::from_huffman_table(&huffman_table);

    // test encoding
    let encoded = vec![0u8; 1024];
    let mut encoder = Encoder::new(encoded, 0);
    encoder.encode_varint(input.len() as u32);
    encoder.encode_huffman_table(&huffman_table);
    for &b in input {
        encoder.encode_huffman_sym(&huff, b as u16);
    }
    let (mut encoded, output_pos) = encoder.finish_into_output_pos();
    encoded.truncate(output_pos);

    println!("input.len() = {}", input.len());
    println!("encoded.len() = {}", encoded.len());

    // test decoding
    let mut decoded = vec![];
    let mut decoder = Decoder::new(&encoded, 0);
    let num_syms = decoder.decode_varint();

    let huffman_table = decoder.decode_huffman_table().unwrap();
    let huff = HuffmanDecoding::from_huffman_table(&huffman_table).unwrap();

    for _ in 0..num_syms {
        decoded.push(decoder.decode_huffman_sym(&huff) as u8);
    }
    assert_eq!(
        String::from_utf8(decoded),
        String::from_utf8(input.to_vec())
    );
}

#[test]
fn varints_and_raw_bits_read_back() {
    let mut encoder = Encoder::new(Vec::new(), 0);
    let values = [0u32, 1, 2, 3, 127, 128, 65535, 1 << 20, u32::MAX];
    for &v in &values {
        encoder.encode_varint(v);
    }
    encoder.encode_raw_bits(0x1ff, 9);
    encoder.encode_raw_bits(5, 3);
    encoder.encode_raw_bits(0, 0);
    let (out, pos) = encoder.finish_into_output_pos();
    assert_eq!(pos, out.len());
    assert_eq!(out.len() % 4, 0);
    let mut decoder = Decoder::new(&out, 0);
    for &v in &values {
        assert_eq!(decoder.decode_varint(), v);
    }
    assert_eq!(decoder.decode_raw_bits(9), 0x1ff);
    assert_eq!(decoder.decode_raw_bits(3), 5);
    assert_eq!(decoder.decode_raw_bits(0), 0);
}

#[test]
fn encoder_keeps_the_prefix_and_pads_to_words() {
    let mut encoder = Encoder::new(vec![7u8, 8, 9, 10, 11], 2);
    encoder.encode_raw_bits(1, 1);
    let (out, pos) = encoder.finish_into_output_pos();
    assert_eq!(&out[..2], &[7, 8]);
    assert_eq!(pos, 6);
    assert_eq!(out.len(), 6);
}

#[test]
fn empty_encoder_writes_nothing() {
    let encoder = Encoder::new(Vec::new(), 0);
    let (out, pos) = encoder.finish_into_output_pos();
    assert_eq!(pos, 0);
    assert!(out.is_empty());
}

#[test]
fn decoder_reads_zeros_past_the_end() {
    let input: [u8; 0] = [];
    let mut decoder = Decoder::new(&input, 0);
    assert_eq!(decoder.decode_raw_bits(32), 0);
    assert_eq!(decoder.decode_varint(), 0);
}

#[test]
fn huffman_table_with_too_long_codes_is_refused() {
    // a longest length of 17 is more than a table may hold
    let mut encoder = Encoder::new(Vec::new(), 0);
    encoder.encode_varint(17);
    encoder.encode_varint(0);
    let (out, _) = encoder.finish_into_output_pos();
    let mut decoder = Decoder::new(&out, 0);
    assert!(decoder.decode_huffman_table().is_none());
}

#[test]
fn huffman_table_round_trip() {
    let table = HuffmanTable::new(vec![0, 2, 2, 0, 3, 3, 2, 0], 3);
    let mut encoder = Encoder::new(Vec::new(), 0);
    encoder.encode_huffman_table(&table);
    let (out, _) = encoder.finish_into_output_pos();
    let mut decoder = Decoder::new(&out, 0);
    let back = decoder.decode_huffman_table().unwrap();
    assert_eq!(back.code_lens, vec![0, 2, 2, 0, 3, 3, 2]);
    assert_eq!(back.max_code_len, 3);
}
