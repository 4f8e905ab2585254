# orz

A ROLZ (reduced offset Lempel-Ziv) data compressor whose library is
verified with Verus. Input is parsed into reduced-offset matches, two-byte
words and single bytes; each symbol is ranked in its context (a
move-to-front style transform) and written with static canonical Huffman
codes.

## Layout

- `src/` — the verified library.
  - `bitstream`, `coder`: the bit stream model, the encoder and decoder of
    raw bits, variable-length integers and Huffman tables and symbols.
  - `huffman`, `huffman_build`, `heap`, `sums`: canonical codes, their
    decoding tables, symbols read back in order (`huffman_read`), and code lengths built from symbol weights (the heap is
    `binary_heap_plus`, behind trusted wrappers).
  - `symrank`: symbol ranking per context.
  - `mem`, `matcher`: byte comparisons, match-finding buckets and chains.
  - `lz_model`, `lz_parse`, `lz_format`, `lz_chunk`, `lz`: what items do to
    the shared context, how the encoder parses, what a chunk's bits are, and
    the chunk encoder and decoder.
  - `lz_roundtrip`, `stream_model`, `stream_roundtrip`, `stream`: the roundtrip proofs for a
    chunk and for a block of a stream, and the stream coders.
  - `ioutil`, `bits`, `progress`, `aux`: length prefixes and counters, bit
    accumulators, progress reporting, small conversions.
- `tests/` — tests of the library.
- `app/` — the command-line program: argument handling, file I/O and
  progress output around the stream coders.

## What is proved

Besides the functional contract of each function, the library proves that
decoding gives back what encoding wrote: `law_chunk_roundtrip` for one
chunk, and `law_block_roundtrip` for a block of a stream, after which the
encoder and the decoder are in step again (`law_fresh_coders_in_step` for
the start of a stream), and `law_stream_roundtrip` for a whole stream: its
framed chunks and closing zero length are read back and decode to the
input.

The code lengths of every Huffman table are those of Huffman's
construction on how often the chunk's items use each code (on scaled-down
weights when the longest code would exceed 15 bits): a complete code
within the limit, which the construction reaches on any weights whose
symbols the limit can hold.
