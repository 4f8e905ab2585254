//! Bit-level encoder and decoder: raw bit fields, variable-length integers
//! and Huffman-coded symbols, packed most significant bit first into 32-bit
//! big-endian words.
use vstd::prelude::*;
use vstd::arithmetic::power2::{pow2, lemma_pow2_pos, lemma_pow2_adds, lemma2_to64, lemma_pow2_strictly_increases};
use vstd::bits::{lemma_u64_shl_is_mul, lemma_u64_shr_is_div, lemma_u64_pow2_no_overflow};
use crate::huffman::{HuffmanDecoding, HuffmanEncoding, HuffmanTable};
use crate::bitstream::{
    bits_of, bits_value, bytes_bits, window, zeros, stream_bit, lemma_bits_of_len, lemma_bytes_bits_len,
    lemma_bits_of_split, lemma_bits_of_concat, lemma_bits_of_zero, lemma_bytes_bits_push,
    lemma_window_split, lemma_window_past_end, lemma_window_byte, lemma_bits_value_of_bits,
    lemma_bytes_bits_window, lemma_window_parts,
};

verus! {

broadcast use lemma_bits_of_len, lemma_bytes_bits_len;

/// The bits that a variable-length integer is written as: pairs of bits, the
/// low bit of each pair carrying the next bit of the value (least significant
/// first), the high bit telling whether another pair follows.
pub open spec fn varint_bits(v: nat) -> Seq<bool>
    decreases v,
{
    if v <= 1 {
        bits_of(v, 2)
    } else {
        bits_of(2 + v % 2, 2) + varint_bits(v / 2)
    }
}

/// What reading a variable-length integer at bit `pos` of `input` gives: the
/// value (unbounded) and the bit position after it.
pub open spec fn varint_decode(input: Seq<u8>, pos: int) -> (nat, int)
    decreases 8 * input.len() + 2 - pos,
{
    if pos >= 8 * input.len() {
        (0, pos + 2)
    } else {
        let b = bits_value(window(input, pos, 2));
        if b <= 1 {
            (b, pos + 2)
        } else {
            let rest = varint_decode(input, pos + 2);
            ((b % 2) + 2 * rest.0, rest.1)
        }
    }
}

/// The largest of a sequence of code lengths (zero for none).
pub open spec fn max_len(lens: Seq<u8>) -> nat
    decreases lens.len(),
{
    if lens.len() == 0 {
        0
    } else {
        let rest = max_len(lens.drop_last());
        if lens.last() as nat > rest { lens.last() as nat } else { rest }
    }
}

/// The bits of the entries of a Huffman table from symbol `i` on: for each
/// symbol with a code, the distance (modulo `2^32`) from the previous such
/// symbol (`last`, or -1 at first), then how much shorter than `max` its code is.
pub open spec fn table_entries_bits(lens: Seq<u8>, max: nat, last: int, i: int) -> Seq<bool>
    decreases lens.len() - i,
{
    if i >= lens.len() || i < 0 {
        Seq::empty()
    } else if lens[i] > 0 {
        varint_bits(((i - last) % (pow2(32) as int)) as nat) + varint_bits((max - lens[i]) as nat)
            + table_entries_bits(lens, max, i, i + 1)
    } else {
        table_entries_bits(lens, max, last, i + 1)
    }
}

/// The bits a Huffman table is written as: its longest code length, its
/// entries, and a zero distance to end them.
pub open spec fn table_bits(lens: Seq<u8>) -> Seq<bool> {
    varint_bits(max_len(lens)) + table_entries_bits(lens, max_len(lens), -1, 0) + varint_bits(0)
}

/// What reading the entries of a Huffman table at bit `pos` gives: the code
/// lengths appended to `acc` and the position after them, or `None` where an
/// entry claims a code longer than the longest.
#[verifier::opaque]
pub open spec fn parse_table_entries(input: Seq<u8>, pos: int, max: u8, acc: Seq<u8>) -> Option<(Seq<u8>, int)>
    decreases 8 * input.len() + 6 - pos,
{
    let (delta, p1) = varint_decode(input, pos);
    let dv = delta % pow2(32);
    if dv == 0 {
        Some((acc, p1))
    } else {
        let (dl, p2) = varint_decode(input, p1);
        let d = (dl % pow2(32)) % 256;
        if d > max {
            None
        } else {
            proof {
                lemma_varint_decode_bounds(input, pos);
                lemma_varint_decode_bounds(input, p1);
                if pos >= 8 * input.len() {
                    lemma2_to64();
                    vstd::arithmetic::div_mod::lemma_small_mod(0, pow2(32));
                }
            }
            parse_table_entries(
                input,
                p2,
                max,
                acc + Seq::new((dv - 1) as nat, |k: int| 0u8).push((max - d) as u8),
            )
        }
    }
}

/// What reading a Huffman table at bit `pos` gives: its code lengths, its
/// longest code length and the position after it, or `None` where the
/// table is malformed.
pub open spec fn parse_huffman_table(input: Seq<u8>, pos: int) -> Option<(Seq<u8>, u8, int)> {
    let (mv, p0) = varint_decode(input, pos);
    let max = ((mv % pow2(32)) % 256) as u8;
    match parse_table_entries(input, p0, max, Seq::empty()) {
        None => None,
        Some((lens, p)) => if max > 16 {
            None
        } else {
            Some((lens, max, p))
        },
    }
}

/// Reading the entries of a Huffman table, one entry at a time.
pub proof fn lemma_parse_table_entries_step(input: Seq<u8>, pos: int, max: u8, acc: Seq<u8>)
    ensures
        ({
            let (delta, p1) = varint_decode(input, pos);
            let dv = delta % pow2(32);
            let (dl, p2) = varint_decode(input, p1);
            let d = (dl % pow2(32)) % 256;
            &&& dv == 0 ==> parse_table_entries(input, pos, max, acc) == Some((acc, p1))
            &&& dv != 0 && d > max ==> parse_table_entries(input, pos, max, acc) is None
            &&& dv != 0 && d <= max ==> parse_table_entries(input, pos, max, acc) == parse_table_entries(
                input,
                p2,
                max,
                acc + Seq::new((dv - 1) as nat, |k: int| 0u8).push((max - d) as u8),
            )
        }),
{
    reveal(parse_table_entries);
}

/// A variable-length integer takes at least two bits, and ends at most a
/// few bits past the end of the input.
pub proof fn lemma_varint_decode_bounds(input: Seq<u8>, pos: int)
    ensures
        varint_decode(input, pos).1 >= pos + 2,
        varint_decode(input, pos).1 <= if pos + 2 > 8 * input.len() + 3 {
            pos + 2
        } else {
            (8 * input.len() + 3) as int
        },
        pos >= 8 * input.len() ==> varint_decode(input, pos).0 == 0,
    decreases 8 * input.len() + 2 - pos,
{
    if pos < 8 * input.len() {
        let b = bits_value(window(input, pos, 2));
        if b > 1 {
            lemma_varint_decode_bounds(input, pos + 2);
        }
    }
}

/// A small queue of bits: the `len` low bits of `value`, oldest first.
#[derive(Clone, Copy)]
struct BitBuffer {
    value: u64,
    len: u8,
}

impl BitBuffer {
    spec fn wf(self) -> bool {
        &&& self.len <= 64
        &&& (self.value as nat) < pow2(self.len as nat)
    }

    spec fn bits(self) -> Seq<bool> {
        bits_of(self.value as nat, self.len as nat)
    }

    fn empty() -> (r: Self)
        ensures
            r.wf(),
            r.bits() == Seq::<bool>::empty(),
            r.len == 0,
    {
        proof {
            lemma2_to64();
        }
        BitBuffer { value: 0, len: 0 }
    }

    /// The oldest `len` bits, without removing them.
    fn peek(&self, len: u8) -> (r: u64)
        requires
            self.wf(),
            len <= self.len,
            len <= 32,
        ensures
            (r as nat) < pow2(len as nat),
            bits_of(r as nat, len as nat) == self.bits().take(len as int),
    {
        let shift = self.len - len;
        proof {
            lemma_bits_of_split(self.value as nat, self.len as nat, len as nat);
            let hi = bits_of(self.value as nat / pow2(shift as nat), len as nat);
            let lo = bits_of(self.value as nat % pow2(shift as nat), shift as nat);
            assert(self.bits() == hi + lo);
            lemma_bits_of_len(self.value as nat / pow2(shift as nat), len as nat);
            assert(hi.len() == len);
            assert((hi + lo).take(len as int) =~= hi);
        }
        if shift >= 64 {
            proof {
                lemma2_to64();
            }
            return 0;
        }
        proof {
            lemma_u64_shr_is_div(self.value, shift as u64);
        }
        self.value >> (shift as u64)
    }

    /// Removes the oldest `len` bits.
    fn skip(&mut self, len: u8)
        requires
            old(self).wf(),
            len <= old(self).len,
        ensures
            final(self).wf(),
            final(self).len == old(self).len - len,
            final(self).bits() == old(self).bits().skip(len as int),
    {
        if len == 0 {
            assert(self.bits().skip(0) =~= self.bits());
            return;
        }
        let ghost old_bits = self.bits();
        let ghost old_len = self.len;
        let new_len = self.len - len;
        proof {
            lemma_bits_of_split(self.value as nat, self.len as nat, len as nat);
            assert(old_bits =~= old_bits.take(len as int) + old_bits.skip(len as int));
            lemma_u64_pow2_no_overflow(new_len as nat);
            lemma_u64_shl_is_mul(1, new_len as u64);
            lemma_pow2_pos(new_len as nat);
        }
        let modulus: u64 = 1u64 << (new_len as u64);
        self.value = self.value % modulus;
        self.len = new_len;
    }

    /// Removes and returns the oldest `len` bits.
    fn get(&mut self, len: u8) -> (r: u64)
        requires
            old(self).wf(),
            len <= old(self).len,
            len <= 32,
        ensures
            final(self).wf(),
            final(self).len == old(self).len - len,
            (r as nat) < pow2(len as nat),
            old(self).bits() == bits_of(r as nat, len as nat) + final(self).bits(),
    {
        let value = self.peek(len);
        let ghost old_bits = self.bits();
        self.skip(len);
        assert(old_bits =~= old_bits.take(len as int) + old_bits.skip(len as int));
        value
    }

    /// Appends `len` bits holding `value`.
    fn put(&mut self, len: u8, value: u64)
        requires
            old(self).wf(),
            old(self).len + len <= 64,
            len <= 32,
            (value as nat) < pow2(len as nat),
        ensures
            final(self).wf(),
            final(self).len == old(self).len + len,
            final(self).bits() == old(self).bits() + bits_of(value as nat, len as nat),
    {
        proof {
            let v = self.value as nat;
            lemma_pow2_adds(self.len as nat, len as nat);
            lemma_pow2_pos(len as nat);
            assert(v * pow2(len as nat) + value < pow2((self.len + len) as nat)) by (nonlinear_arith)
                requires
                    v < pow2(self.len as nat),
                    value < pow2(len as nat),
                    pow2((self.len + len) as nat) == pow2(self.len as nat) * pow2(len as nat),
            ;
            if self.len + len < 64 {
                lemma_pow2_strictly_increases((self.len + len) as nat, 64);
            }
            lemma2_to64();
            vstd::arithmetic::power2::lemma2_to64_rest();
            assert(v * pow2(len as nat) + value <= u64::MAX);
            lemma_u64_shl_is_mul(self.value, len as u64);
            lemma_bits_of_concat(v, value as nat, self.len as nat, len as nat);
        }
        self.value = (self.value << (len as u64)) + value;
        self.len = self.len + len;
    }
}

/// Writes bit fields into a byte vector, 32 bits at a time.
pub struct Encoder {
    output: Vec<u8>,
    buffer: BitBuffer,
    start: Ghost<nat>,
}

impl Encoder {
    /// Well-formedness: the buffer holds fewer than 64 bits and every byte
    /// written since the start is part of a whole 32-bit word.
    pub closed spec fn wf(&self) -> bool {
        &&& self.buffer.wf()
        &&& self.buffer.len < 64
        &&& self.start@ <= self.output@.len()
        &&& (self.output@.len() - self.start@) % 4 == 0
    }

    /// The bytes before the encoder's starting position, left as they were.
    pub closed spec fn prefix(&self) -> Seq<u8> {
        self.output@.take(self.start@ as int)
    }

    /// Every bit written so far, in order.
    pub closed spec fn written(&self) -> Seq<bool> {
        bytes_bits(self.output@.skip(self.start@ as int)) + self.buffer.bits()
    }

    /// Starts encoding into `output` at byte `output_pos`.
    pub fn new(output: Vec<u8>, output_pos: usize) -> (r: Self)
        requires
            output_pos <= output.len(),
        ensures
            r.wf(),
            r.prefix() == output@.take(output_pos as int),
            r.written() == Seq::<bool>::empty(),
    {
        let mut output = output;
        output.truncate(output_pos);
        let r = Encoder { output, buffer: BitBuffer::empty(), start: Ghost(output_pos as nat) };
        assert(r.output@.skip(output_pos as int) =~= Seq::<u8>::empty());
        assert(r.written() =~= Seq::<bool>::empty());
        r
    }

    /// Writes a variable-length integer.
    pub fn encode_varint(&mut self, v: u32)
        requires
            old(self).wf(),
        ensures
            final(self).wf(),
            final(self).prefix() == old(self).prefix(),
            final(self).written() == old(self).written() + varint_bits(v as nat),
    {
        let mut v = v;
        let ghost w0 = self.written();
        let ghost v0 = v as nat;
        loop
            invariant_except_break
                w0 + varint_bits(v0) == self.written() + varint_bits(v as nat),
            invariant
                self.wf(),
                self.prefix() == old(self).prefix(),
                w0 == old(self).written(),
            ensures
                self.written() == w0 + varint_bits(v0),
            decreases v,
        {
            self.reserve_32bits();
            let has_next = v > 1;
            let bits: u64 = if has_next { 2 + (v % 2) as u64 } else { v as u64 };
            proof {
                lemma2_to64();
            }
            let ghost before = self.written();
            self.put_bits(2, bits);
            if !has_next {
                assert(varint_bits(v as nat) == bits_of(v as nat, 2));
                assert(self.written() =~= w0 + varint_bits(v0));
                break;
            }
            proof {
                assert(varint_bits(v as nat) == bits_of(bits as nat, 2) + varint_bits((v / 2) as nat));
                assert(before + varint_bits(v as nat) =~= self.written() + varint_bits((v / 2) as nat));
            }
            v = v / 2;
        }
    }

    /// Writes the `bits_len` low bits of `bits`.
    pub fn encode_raw_bits(&mut self, bits: u32, bits_len: u8)
        requires
            old(self).wf(),
            bits_len <= 32,
            (bits as nat) < pow2(bits_len as nat),
        ensures
            final(self).wf(),
            final(self).prefix() == old(self).prefix(),
            final(self).written() == old(self).written() + bits_of(bits as nat, bits_len as nat),
    {
        self.reserve_32bits();
        self.put_bits(bits_len, bits as u64);
    }

    /// Writes a Huffman table: its longest code length, then for each symbol
    /// with a code its distance from the previous one and how much shorter
    /// than the longest its code is, then a zero distance.
    pub fn encode_huffman_table(&mut self, huffman_table: &HuffmanTable)
        requires
            old(self).wf(),
            huffman_table.code_lens.len() > 0,
        ensures
            final(self).wf(),
            final(self).prefix() == old(self).prefix(),
            final(self).written() == old(self).written() + table_bits(huffman_table.code_lens@),
    {
        let lens = &huffman_table.code_lens;
        let ghost ls = lens@;
        let n = lens.len();
        let mut max_code_len: u8 = 0;
        for i in 0..n
            invariant
                n == ls.len(),
                lens@ == ls,
                max_code_len as nat == max_len(ls.take(i as int)),
        {
            proof {
                assert(ls.take(i + 1).drop_last() =~= ls.take(i as int));
            }
            if lens[i] > max_code_len {
                max_code_len = lens[i];
            }
        }
        proof {
            assert(ls.take(n as int) =~= ls);
            lemma_max_len_bound(ls);
        }
        let ghost w0 = self.written();
        self.encode_varint(max_code_len as u32);
        let mut last_sym: usize = usize::MAX;
        let ghost mut last: int = -1;
        for sym in 0..n
            invariant
                n == ls.len(),
                lens@ == ls,
                max_code_len as nat == max_len(ls),
                forall|i: int| 0 <= i < n ==> #[trigger] ls[i] <= max_code_len,
                self.wf(),
                self.prefix() == old(self).prefix(),
                w0 == old(self).written(),
                -1 <= last < sym,
                last == -1 ==> last_sym == usize::MAX,
                last >= 0 ==> last_sym == last,
                self.written() + table_entries_bits(ls, max_code_len as nat, last, sym as int) == w0
                    + varint_bits(max_code_len as nat) + table_entries_bits(ls, max_code_len as nat, -1, 0),
        {
            if lens[sym] > 0 {
                let ghost before = self.written();
                let delta: usize = if last_sym == usize::MAX { sym + 1 } else { sym - last_sym };
                let delta32 = low_u32(delta);
                proof {
                    lemma2_to64();
                    assert(delta32 as nat == ((sym - last) % (pow2(32) as int)) as nat);
                }
                self.encode_varint(delta32);
                self.encode_varint((max_code_len - lens[sym]) as u32);
                proof {
                    let a = varint_bits(((sym - last) % (pow2(32) as int)) as nat);
                    let b = varint_bits((max_code_len - ls[sym as int]) as nat);
                    let rest = table_entries_bits(ls, max_code_len as nat, sym as int, sym + 1);
                    assert(table_entries_bits(ls, max_code_len as nat, last, sym as int) == a + b + rest);
                    assert(self.written() + rest =~= before + (a + b + rest));
                    last = sym as int;
                }
                last_sym = sym;
            }
        }
        self.encode_varint(0);
        proof {
            assert(self.written() =~= w0 + table_bits(ls));
        }
    }

    /// Writes the code of `sym`.
    pub fn encode_huffman_sym(&mut self, encoding: &HuffmanEncoding, sym: u16)
        requires
            old(self).wf(),
            encoding.wf(),
            (sym as int) < encoding.encodings.len(),
        ensures
            final(self).wf(),
            final(self).prefix() == old(self).prefix(),
            final(self).written() == old(self).written() + bits_of(
                encoding.encodings[sym as int].0 as nat,
                encoding.encodings[sym as int].1 as nat,
            ),
    {
        self.reserve_32bits();
        let (bits, code_len) = encoding.encodings[sym as usize];
        proof {
            assert(code_len <= 16);
        }
        self.put_bits(code_len as u8, bits as u64);
    }

    /// Pads the written bits with zeros to a whole number of 32-bit words,
    /// flushes them, and returns the output and the position after it.
    pub fn finish_into_output_pos(self) -> (r: (Vec<u8>, usize))
        requires
            self.wf(),
        ensures
            r.1 == r.0.len(),
            r.0@.take(self.prefix().len() as int) == self.prefix(),
            self.prefix().len() <= r.0@.len(),
            (r.0@.len() - self.prefix().len()) % 4 == 0,
            bytes_bits(r.0@.skip(self.prefix().len() as int)) == self.written() + zeros(
                (8 * (r.0@.len() - self.prefix().len()) - self.written().len()) as nat,
            ),
            8 * (r.0@.len() - self.prefix().len()) < self.written().len() + 32,
            8 * (r.0@.len() - self.prefix().len()) >= self.written().len(),
    {
        let mut this = self;
        this.reserve_32bits();
        let ghost w = this.written();
        if this.buffer.len > 0 {
            let pad = 32 - this.buffer.len;
            proof {
                lemma2_to64();
                lemma_pow2_pos(pad as nat);
                lemma_bits_of_zero(pad as nat);
            }
            this.buffer.put(pad, 0);
            this.save_all();
        } else {
            proof { lemma_bits_of_zero(0); }
        }
        proof {
            assert(this.output@.take(this.start@ as int) == this.prefix());
        }
        let ghost start = this.start@;
        let pos = this.output.len();
        let out = this.output;
        assert(zeros(0) =~= Seq::<bool>::empty());
        (out, pos)
    }

    /// Appends bits to the buffer, which has room for them.
    fn put_bits(&mut self, len: u8, value: u64)
        requires
            old(self).wf(),
            old(self).buffer.len < 32,
            len <= 32,
            (value as nat) < pow2(len as nat),
        ensures
            final(self).wf(),
            final(self).prefix() == old(self).prefix(),
            final(self).written() == old(self).written() + bits_of(value as nat, len as nat),
    {
        self.buffer.put(len, value);
        assert(self.written() =~= old(self).written() + bits_of(value as nat, len as nat));
    }

    /// Moves the oldest byte of the buffer to the output.
    fn save_byte(&mut self)
        requires
            old(self).buffer.wf(),
            old(self).buffer.len >= 8,
            old(self).start@ <= old(self).output@.len(),
        ensures
            final(self).buffer.wf(),
            final(self).buffer.len == old(self).buffer.len - 8,
            final(self).start == old(self).start,
            final(self).output@ == old(self).output@.push(final(self).output@.last()),
            final(self).prefix() == old(self).prefix(),
            final(self).written() == old(self).written(),
    {
        let ghost out0 = self.output@;
        let b = self.buffer.get(8);
        proof {
            lemma2_to64();
        }
        self.output.push(b as u8);
        proof {
            let s = self.start@ as int;
            assert(self.output@.skip(s) =~= out0.skip(s).push(b as u8));
            lemma_bytes_bits_push(out0.skip(s), b as u8);
            assert(self.output@.take(s) =~= out0.take(s));
            assert(self.written() =~= old(self).written());
        }
    }

    /// Moves a 32-bit word from the buffer to the output once 32 bits are held.
    fn reserve_32bits(&mut self)
        requires
            old(self).wf(),
        ensures
            final(self).wf(),
            final(self).buffer.len < 32,
            final(self).prefix() == old(self).prefix(),
            final(self).written() == old(self).written(),
    {
        if self.buffer.len >= 32 {
            self.save_byte();
            self.save_byte();
            self.save_byte();
            self.save_byte();
        }
    }

    /// Moves every held bit to the output, a byte at a time.
    fn save_all(&mut self)
        requires
            old(self).buffer.wf(),
            old(self).buffer.len == 32,
            old(self).start@ <= old(self).output@.len(),
            (old(self).output@.len() - old(self).start@) % 4 == 0,
        ensures
            final(self).wf(),
            final(self).buffer.len == 0,
            final(self).prefix() == old(self).prefix(),
            final(self).written() == old(self).written(),
            final(self).output@.len() == old(self).output@.len() + 4,
    {
        self.save_byte();
        self.save_byte();
        self.save_byte();
        self.save_byte();
    }
}

/// Reads bit fields from a byte slice; past the end of the slice it reads zeros.
pub struct Decoder<'a> {
    input: &'a [u8],
    input_pos: usize,
    buffer: BitBuffer,
    bit_pos: Ghost<int>,
}

impl<'a> Decoder<'a> {
    pub closed spec fn wf(&self) -> bool {
        &&& self.buffer.wf()
        &&& self.buffer.len < 64
        &&& self.bit_pos@ >= 0
        &&& self.buffer.bits() == window(self.input@, self.bit_pos@, self.buffer.len as nat)
        &&& self.bit_pos@ + self.buffer.len >= 8 * self.input_pos
        &&& self.input_pos < self.input@.len() ==> self.bit_pos@ + self.buffer.len == 8
            * self.input_pos
    }

    /// The bytes being decoded.
    pub closed spec fn input(&self) -> Seq<u8> {
        self.input@
    }

    /// The position, in bits from the start of the input, of the next bit to be read.
    pub closed spec fn pos(&self) -> int {
        self.bit_pos@
    }

    /// Starts decoding `input` at byte `input_pos`.
    pub fn new(input: &'a [u8], input_pos: usize) -> (r: Decoder<'a>)
        ensures
            r.wf(),
            r.input() == input@,
            r.pos() == 8 * input_pos,
    {
        let r = Decoder { input, input_pos, buffer: BitBuffer::empty(), bit_pos: Ghost(8 * input_pos as int) };
        assert(r.buffer.bits() =~= window(input@, 8 * input_pos as int, 0));
        r
    }

    /// Reads a variable-length integer; the value is taken modulo `2^32`.
    pub fn decode_varint(&mut self) -> (r: u32)
        requires
            old(self).wf(),
        ensures
            final(self).wf(),
            final(self).input() == old(self).input(),
            r as nat == varint_decode(old(self).input(), old(self).pos()).0 % pow2(32),
            final(self).pos() == varint_decode(old(self).input(), old(self).pos()).1,
    {
        let mut v: u32 = 0;
        let mut bits_len: u32 = 0;
        let ghost mut acc: nat = 0;
        let ghost mut j: nat = 0;
        let ghost input = self.input@;
        let ghost p0 = self.bit_pos@;
        let ghost target = varint_decode(input, p0);
        proof {
            lemma2_to64();
            assert(target.0 == acc + pow2(j) * varint_decode(input, self.bit_pos@).0);
        }
        loop
            invariant_except_break
                target.0 == acc + pow2(j) * varint_decode(input, self.bit_pos@).0,
                target.1 == varint_decode(input, self.bit_pos@).1,
            invariant
                self.wf(),
                self.input() == input,
                input == old(self).input(),
                p0 == old(self).pos(),
                target == varint_decode(input, p0),
                self.bit_pos@ >= p0,
                bits_len <= 32,
                bits_len < 32 ==> bits_len == j,
                bits_len == 32 ==> j >= 32,
                v as nat == acc % pow2(32),
                acc < pow2(j),
            ensures
                v as nat == target.0 % pow2(32),
                self.bit_pos@ == target.1,
                self.wf(),
                self.input() == input,
            decreases 8 * input.len() + 2 - self.bit_pos@,
        {
            self.reserve_32bits();
            let ghost p = self.bit_pos@;
            let bits = self.take_bits(2);
            let has_next = bits > 1;
            let low = (bits % 2) as u32;
            let ghost acc2: nat = acc + pow2(j) * (low as nat);
            proof {
                lemma2_to64();
                lemma_pow2_adds(j, 1);
                lemma_pow2_pos(j);
                if p >= 8 * input.len() {
                    lemma_window_past_end(input, p, 2);
                }
                assert(acc2 < pow2(j + 1)) by (nonlinear_arith)
                    requires
                        acc < pow2(j),
                        acc2 == acc + pow2(j) * (low as nat),
                        low <= 1,
                        pow2(j + 1) == pow2(j) * pow2(1),
                        pow2(1) == 2,
                ;
                if has_next {
                    let rest = varint_decode(input, p + 2);
                    assert(p < 8 * input.len());
                    assert(varint_decode(input, p) == ((bits % 2) as nat + 2 * rest.0, rest.1));
                    assert(target.0 == acc2 + pow2(j + 1) * rest.0) by (nonlinear_arith)
                        requires
                            target.0 == acc + pow2(j) * varint_decode(input, p).0,
                            varint_decode(input, p).0 == low as nat + 2 * rest.0,
                            acc2 == acc + pow2(j) * (low as nat),
                            pow2(j + 1) == pow2(j) * pow2(1),
                            pow2(1) == 2,
                    ;
                } else {
                    assert(varint_decode(input, p) == (bits as nat, p + 2));
                    assert(target.0 == acc2) by (nonlinear_arith)
                        requires
                            target.0 == acc + pow2(j) * varint_decode(input, p).0,
                            varint_decode(input, p).0 == low as nat,
                            acc2 == acc + pow2(j) * (low as nat),
                    ;
                }
            }
            if bits_len < 32 {
                proof {
                    lemma_pow2_strictly_increases_or_eq(j + 1, 32);
                    lemma_pow2_strictly_increases(j, 32);
                    vstd::arithmetic::div_mod::lemma_small_mod(acc, pow2(32));
                    vstd::arithmetic::div_mod::lemma_small_mod(acc2, pow2(32));
                    assert(low * pow2(bits_len as nat) <= u32::MAX) by (nonlinear_arith)
                        requires
                            low <= 1,
                            pow2(bits_len as nat) < pow2(32),
                            pow2(32) == 0x1_0000_0000,
                    ;
                    vstd::bits::lemma_u32_shl_is_mul(low, bits_len);
                }
                assert(v as nat == acc);
                assert((low << bits_len) as nat == (low as nat) * pow2(j));
                assert((low as nat) * pow2(j) == pow2(j) * (low as nat)) by (nonlinear_arith);
                assert(acc2 < pow2(32));
                v = v + (low << bits_len);
                assert(v as nat == acc2);
                proof {
                    vstd::arithmetic::div_mod::lemma_small_mod(acc2, pow2(32));
                }
                bits_len = bits_len + 1;
            } else {
                proof {
                    lemma_pow2_adds(32, (j - 32) as nat);
                    lemma_pow2_pos((j - 32) as nat);
                    assert(acc2 == acc + pow2(32) * (pow2((j - 32) as nat) * (low as nat)))
                        by (nonlinear_arith)
                        requires
                            acc2 == acc + pow2(j) * (low as nat),
                            pow2(j) == pow2(32) * pow2((j - 32) as nat),
                    ;
                    vstd::arithmetic::div_mod::lemma_mod_multiples_vanish(
                        (pow2((j - 32) as nat) * (low as nat)) as int,
                        acc as int,
                        pow2(32) as int,
                    );
                }
            }
            proof {
                acc = acc2;
                j = j + 1;
            }
            if !has_next {
                break;
            }
        }
        v
    }

    /// Reads a Huffman table written by `encode_huffman_table`; `None` where
    /// an entry claims a code longer than the longest, or the longest is over 16.
    #[verifier::rlimit(50)]
    pub fn decode_huffman_table(&mut self) -> (r: Option<HuffmanTable>)
        requires
            old(self).wf(),
        ensures
            final(self).wf(),
            final(self).input() == old(self).input(),
            match parse_huffman_table(old(self).input(), old(self).pos()) {
                None => r is None,
                Some((lens, max, p)) => r matches Some(t) && t.code_lens@ == lens && t.max_code_len == max
                    && t.wf() && final(self).pos() == p,
            },
    {
        let ghost input = self.input@;
        let max_varint = self.decode_varint();
        let max_code_len = low_u8(max_varint);
        proof {
            lemma2_to64();
        }
        let ghost p0 = self.bit_pos@;
        let ghost target = parse_table_entries(input, p0, max_code_len, Seq::empty());
        let mut huffman_table: Vec<u8> = Vec::new();
        loop
            invariant_except_break
                parse_table_entries(input, self.bit_pos@, max_code_len, huffman_table@) == target,
            invariant
                self.wf(),
                self.input() == input,
                input == old(self).input(),
                target == parse_table_entries(input, p0, max_code_len, Seq::empty()),
                forall|i: int| 0 <= i < huffman_table.len() ==> #[trigger] huffman_table[i] <= max_code_len,
                max_code_len as nat == (varint_decode(input, old(self).pos()).0 % pow2(32)) % 256,
                p0 == varint_decode(input, old(self).pos()).1,
            ensures
                target == Some((huffman_table@, self.bit_pos@)),
                self.wf(),
                self.input() == input,
                forall|i: int| 0 <= i < huffman_table.len() ==> #[trigger] huffman_table[i] <= max_code_len,
            decreases 8 * input.len() + 6 - self.bit_pos@,
        {
            let ghost p = self.bit_pos@;
            let ghost acc = huffman_table@;
            proof {
                lemma_varint_decode_bounds(input, p);
                lemma_parse_table_entries_step(input, p, max_code_len, acc);
            }
            let sym_delta = self.decode_varint();
            if sym_delta == 0 {
                break;
            }
            proof {
                lemma2_to64();
                if p >= 8 * input.len() {
                    vstd::arithmetic::div_mod::lemma_small_mod(0, pow2(32));
                }
                lemma_varint_decode_bounds(input, self.bit_pos@);
            }
            push_zeros(&mut huffman_table, sym_delta - 1);
            let d_varint = self.decode_varint();
            let d = low_u8(d_varint);
            if d > max_code_len {
                proof {
                    assert(parse_table_entries(input, p, max_code_len, acc) is None);
                    assert(target is None);
                    let (mv, q0) = varint_decode(input, old(self).pos());
                    assert(((mv % pow2(32)) % 256) as u8 == max_code_len);
                    assert(q0 == p0);
                }
                return None;
            }
            huffman_table.push(max_code_len - d);
            proof {
                assert(huffman_table@ =~= acc + Seq::new((sym_delta - 1) as nat, |j: int| 0u8).push(
                    (max_code_len - d) as u8,
                ));
            }
        }
        if max_code_len > 16 {
            return None;
        }
        Some(HuffmanTable::new(huffman_table, max_code_len))
    }

    /// Reads one Huffman-coded symbol: looks up the next `max_code_len` bits
    /// in the decoding table and consumes the code length found there.
    pub fn decode_huffman_sym(&mut self, decoding: &HuffmanDecoding) -> (r: u16)
        requires
            old(self).wf(),
            decoding.wf(),
        ensures
            final(self).wf(),
            final(self).input() == old(self).input(),
            ({
                let x = bits_value(window(old(self).input(), old(self).pos(), decoding.max_code_len as nat));
                &&& r == decoding.decodings[x as int].0
                &&& final(self).pos() == old(self).pos() + decoding.decodings[x as int].1
            }),
    {
        self.reserve_32bits();
        let ghost p = self.bit_pos@;
        let ghost input = self.input@;
        let peeked = self.buffer.peek(decoding.max_code_len);
        proof {
            lemma_window_split(input, p, decoding.max_code_len as nat, (self.buffer.len - decoding.max_code_len) as nat);
            let a = bits_of(peeked as nat, decoding.max_code_len as nat);
            assert(self.buffer.bits().take(decoding.max_code_len as int) =~= window(
                input,
                p,
                decoding.max_code_len as nat,
            ));
            lemma_bits_value_of_bits(peeked as nat, decoding.max_code_len as nat);
        }
        let (sym, code_len) = decoding.decodings[peeked as usize];
        let ghost n = self.buffer.len as nat;
        let ghost old_bits = self.buffer.bits();
        self.buffer.skip(code_len as u8);
        proof {
            let m = (n - code_len) as nat;
            lemma_window_split(input, p, code_len as nat, m);
            assert(window(input, p + code_len, m) =~= old_bits.skip(code_len as int));
            self.bit_pos@ = p + code_len;
        }
        sym
    }

    /// Reads `bits_len` raw bits.
    pub fn decode_raw_bits(&mut self, bits_len: u8) -> (r: u32)
        requires
            old(self).wf(),
            bits_len <= 32,
        ensures
            final(self).wf(),
            final(self).input() == old(self).input(),
            r as nat == bits_value(window(old(self).input(), old(self).pos(), bits_len as nat)),
            final(self).pos() == old(self).pos() + bits_len,
    {
        self.reserve_32bits();
        let r = self.take_bits(bits_len);
        proof {
            lemma_u32_fits(bits_len as nat);
        }
        r as u32
    }

    /// Removes `len` bits from a buffer that holds at least 32.
    fn take_bits(&mut self, len: u8) -> (r: u64)
        requires
            old(self).wf(),
            old(self).buffer.len >= 32,
            len <= 32,
        ensures
            final(self).wf(),
            final(self).input() == old(self).input(),
            final(self).pos() == old(self).pos() + len,
            final(self).buffer.len == old(self).buffer.len - len,
            (r as nat) < pow2(len as nat),
            r as nat == bits_value(window(old(self).input(), old(self).pos(), len as nat)),
    {
        let ghost p = self.bit_pos@;
        let ghost n = self.buffer.len as nat;
        let ghost input = self.input@;
        let ghost old_bits = self.buffer.bits();
        let r = self.buffer.get(len);
        proof {
            let m = (n - len) as nat;
            assert(len as nat + m == n);
            lemma_window_split(input, p, len as nat, m);
            let a = bits_of(r as nat, len as nat);
            let b = self.buffer.bits();
            assert(old_bits == a + b);
            assert(old_bits == window(input, p, len as nat) + window(input, p + len, m));
            assert((a + b).take(len as int) =~= a);
            assert((a + b).skip(len as int) =~= b);
            assert(window(input, p, len as nat) =~= old_bits.take(len as int));
            assert(window(input, p + len, m) =~= old_bits.skip(len as int));
            self.bit_pos@ = p + len;
            lemma_bits_value_of_bits(r as nat, len as nat);
        }
        r
    }

    /// Loads the next byte of input (or a zero byte past the end) into the buffer.
    fn load_byte(&mut self)
        requires
            old(self).wf(),
            old(self).buffer.len < 56,
        ensures
            final(self).wf(),
            final(self).input() == old(self).input(),
            final(self).pos() == old(self).pos(),
            final(self).buffer.len == old(self).buffer.len + 8,
    {
        let ghost p = self.bit_pos@;
        let ghost n = self.buffer.len as nat;
        let ghost input = self.input@;
        let ghost old_bits = self.buffer.bits();
        let byte: u8 = if self.input_pos < self.input.len() {
            let b = self.input[self.input_pos];
            proof {
                lemma_window_byte(input, self.input_pos as int);
                assert(p + n == 8 * self.input_pos);
            }
            self.input_pos = self.input_pos + 1;
            b
        } else {
            proof {
                assert(p + n >= 8 * input.len());
                lemma_window_past_end(input, p + n, 8);
                lemma_bits_of_zero(8);
            }
            0
        };
        proof {
            lemma2_to64();
        }
        self.buffer.put(8, byte as u64);
        proof {
            lemma_window_split(input, p, n, 8);
            assert(window(input, p + n, 8) == bits_of(byte as nat, 8));
            assert(self.buffer.bits() == old_bits + bits_of(byte as nat, 8));
            assert(self.buffer.bits() =~= window(input, p, n + 8));
        }
    }

    /// Loads a 32-bit word into the buffer when it holds fewer than 32 bits.
    fn reserve_32bits(&mut self)
        requires
            old(self).wf(),
        ensures
            final(self).wf(),
            final(self).input() == old(self).input(),
            final(self).pos() == old(self).pos(),
            final(self).buffer.len >= 32,
    {
        if self.buffer.len < 32 {
            self.load_byte();
            self.load_byte();
            self.load_byte();
            self.load_byte();
        }
    }
}

/// Appends `count` zeros.
fn push_zeros(v: &mut Vec<u8>, count: u32)
    ensures
        final(v)@ == old(v)@ + Seq::new(count as nat, |j: int| 0u8),
{
    let mut k: u32 = 0;
    while k < count
        invariant
            k <= count,
            v@ == old(v)@ + Seq::new(k as nat, |j: int| 0u8),
        decreases count - k,
    {
        v.push(0);
        k = k + 1;
        assert(v@ =~= old(v)@ + Seq::new(k as nat, |j: int| 0u8));
    }
}

/// The low 32 bits of `x`.
fn low_u32(x: usize) -> (r: u32)
    ensures
        r as int == x as int % 0x1_0000_0000,
{
    ((x as u64) % 0x1_0000_0000) as u32
}

/// The low 8 bits of `x`.
fn low_u8(x: u32) -> (r: u8)
    ensures
        r as int == x as int % 0x100,
{
    (x % 0x100) as u8
}

/// No code length exceeds the largest.
pub(crate) proof fn lemma_max_len_bound(lens: Seq<u8>)
    ensures
        forall|i: int| 0 <= i < lens.len() ==> #[trigger] lens[i] <= max_len(lens),
        max_len(lens) <= 255,
    decreases lens.len(),
{
    if lens.len() > 0 {
        lemma_max_len_bound(lens.drop_last());
        assert forall|i: int| 0 <= i < lens.len() implies #[trigger] lens[i] <= max_len(lens) by {
            if i < lens.len() - 1 {
                assert(lens[i] == lens.drop_last()[i]);
            }
        }
    }
}

proof fn lemma_u32_fits(n: nat)
    requires
        n <= 32,
    ensures
        pow2(n) <= pow2(32),
        pow2(32) == 0x1_0000_0000,
{
    lemma2_to64();
    lemma_pow2_strictly_increases_or_eq(n, 32);
}

proof fn lemma_pow2_strictly_increases_or_eq(a: nat, b: nat)
    requires
        a <= b,
    ensures
        pow2(a) <= pow2(b),
{
    if a < b {
        lemma_pow2_strictly_increases(a, b);
    }
}

/// Reading back a written variable-length integer gives the value and moves
/// past exactly the bits that were written.
pub proof fn lemma_varint_roundtrip(input: Seq<u8>, pos: int, v: nat)
    requires
        window(input, pos, varint_bits(v).len()) == varint_bits(v),
    ensures
        varint_decode(input, pos) == (v, pos + varint_bits(v).len()),
    decreases v,
{
    lemma2_to64();
    let c: nat = if v <= 1 { v } else { 2 + v % 2 };
    let rest: Seq<bool> = if v <= 1 { Seq::empty() } else { varint_bits(v / 2) };
    lemma_bits_of_len(c, 2);
    assert(varint_bits(v) =~= bits_of(c, 2) + rest);
    lemma_window_split(input, pos, 2, rest.len());
    let w = window(input, pos, 2 + rest.len());
    assert(varint_bits(v).len() == 2 + rest.len());
    assert(w == bits_of(c, 2) + rest);
    assert(w.take(2) =~= bits_of(c, 2));
    assert(w.take(2) =~= window(input, pos, 2));
    assert(w.skip(2) =~= rest);
    assert(w.skip(2) =~= window(input, pos + 2, rest.len()));
    lemma_bits_value_of_bits(c, 2);
    if pos >= 8 * input.len() {
        lemma_window_past_end(input, pos, 2);
        assert(c == 0);
    } else if v > 1 {
        assert(window(input, pos + 2, rest.len()) =~= rest);
        lemma_varint_roundtrip(input, pos + 2, v / 2);
        vstd::arithmetic::div_mod::lemma_fundamental_div_mod(v as int, 2);
    }
}

/// Reading back raw bits gives the value that was written.
pub proof fn lemma_raw_bits_roundtrip(input: Seq<u8>, pos: int, v: nat, n: nat)
    requires
        v < pow2(n),
        window(input, pos, n) == bits_of(v, n),
    ensures
        bits_value(window(input, pos, n)) == v,
{
    lemma_bits_value_of_bits(v, n);
}

/// The encoder's output, read from its starting position, is the stream of
/// bits it was given.
pub proof fn lemma_output_window(out: Seq<u8>, start: nat, written: Seq<bool>, pad: nat)
    requires
        start <= out.len(),
        bytes_bits(out.skip(start as int)) == written + zeros(pad),
    ensures
        window(out, 8 * start as int, written.len()) == written,
{
    let tail = out.skip(start as int);
    lemma_bytes_bits_window(tail);
    lemma_bytes_bits_len(tail);
    lemma_bits_of_zero(pad);
    assert forall|i: int| 0 <= i < written.len() implies window(out, 8 * start as int, written.len())[i]
        == written[i] by {
        assert(bytes_bits(tail)[i] == written[i]);
        assert(window(tail, 0, (8 * tail.len()) as nat)[i] == stream_bit(tail, i));
        let q = i / 8;
        vstd::arithmetic::div_mod::lemma_fundamental_div_mod(i, 8);
        vstd::arithmetic::div_mod::lemma_fundamental_div_mod_converse(
            8 * start + i,
            8,
            start + q,
            i % 8,
        );
        assert(i < 8 * tail.len());
        assert(q < tail.len()) by (nonlinear_arith)
            requires
                i == 8 * q + i % 8,
                0 <= i % 8 < 8,
                i < 8 * tail.len(),
        ;
        assert(tail[q] == out[start + q]);
    }
    assert(window(out, 8 * start as int, written.len()) =~= written);
}

} // verus!

verus! {

/// A field of the bit stream, as the encoder writes it and the decoder reads it back.
pub enum BitField {
    Varint { value: u32 },
    Raw { bits: u32, len: u8 },
}

/// A raw field holds no more bits than its width.
pub open spec fn field_valid(f: BitField) -> bool {
    match f {
        BitField::Varint { .. } => true,
        BitField::Raw { bits, len } => len <= 32 && (bits as nat) < pow2(len as nat),
    }
}

/// The bits a field is written as.
pub open spec fn field_bits(f: BitField) -> Seq<bool> {
    match f {
        BitField::Varint { value } => varint_bits(value as nat),
        BitField::Raw { bits, len } => bits_of(bits as nat, len as nat),
    }
}

/// The value a field carries.
pub open spec fn field_value(f: BitField) -> nat {
    match f {
        BitField::Varint { value } => value as nat,
        BitField::Raw { bits, .. } => bits as nat,
    }
}

/// The bits a sequence of fields is written as.
pub open spec fn fields_bits(fs: Seq<BitField>) -> Seq<bool>
    decreases fs.len(),
{
    if fs.len() == 0 {
        Seq::empty()
    } else {
        field_bits(fs[0]) + fields_bits(fs.drop_first())
    }
}

/// What the decoder reads for a field of the given shape at bit `pos`: the
/// value and the position after it.
pub open spec fn read_field(input: Seq<u8>, pos: int, f: BitField) -> (nat, int) {
    match f {
        BitField::Varint { .. } => (
            varint_decode(input, pos).0 % pow2(32),
            varint_decode(input, pos).1,
        ),
        BitField::Raw { len, .. } => (bits_value(window(input, pos, len as nat)), pos + len),
    }
}

/// What the decoder reads for a sequence of fields of the given shapes.
pub open spec fn read_fields(input: Seq<u8>, pos: int, fs: Seq<BitField>) -> Seq<nat>
    decreases fs.len(),
{
    if fs.len() == 0 {
        Seq::empty()
    } else {
        let (v, next) = read_field(input, pos, fs[0]);
        seq![v] + read_fields(input, next, fs.drop_first())
    }
}

proof fn lemma_field_roundtrip(input: Seq<u8>, pos: int, f: BitField)
    requires
        field_valid(f),
        window(input, pos, field_bits(f).len()) == field_bits(f),
    ensures
        read_field(input, pos, f) == (field_value(f), pos + field_bits(f).len()),
{
    match f {
        BitField::Varint { value } => {
            lemma_varint_roundtrip(input, pos, value as nat);
            lemma2_to64();
            vstd::arithmetic::div_mod::lemma_small_mod(value as nat, pow2(32));
        },
        BitField::Raw { bits, len } => {
            lemma_bits_of_len(bits as nat, len as nat);
            lemma_raw_bits_roundtrip(input, pos, bits as nat, len as nat);
        },
    }
}

proof fn lemma_fields_roundtrip(input: Seq<u8>, pos: int, fs: Seq<BitField>)
    requires
        forall|i: int| 0 <= i < fs.len() ==> field_valid(#[trigger] fs[i]),
        window(input, pos, fields_bits(fs).len()) == fields_bits(fs),
    ensures
        read_fields(input, pos, fs) == fs.map_values(|f: BitField| field_value(f)),
    decreases fs.len(),
{
    if fs.len() == 0 {
        assert(read_fields(input, pos, fs) =~= fs.map_values(|f: BitField| field_value(f)));
    } else {
        let a = field_bits(fs[0]);
        let b = fields_bits(fs.drop_first());
        lemma_window_split(input, pos, a.len(), b.len());
        let w = window(input, pos, a.len() + b.len());
        assert(w == a + b);
        assert(w.take(a.len() as int) =~= a);
        assert(w.take(a.len() as int) =~= window(input, pos, a.len()));
        assert(w.skip(a.len() as int) =~= b);
        assert(w.skip(a.len() as int) =~= window(input, pos + a.len(), b.len()));
        lemma_field_roundtrip(input, pos, fs[0]);
        assert forall|i: int| 0 <= i < fs.drop_first().len() implies field_valid(
            #[trigger] fs.drop_first()[i],
        ) by {
            assert(fs.drop_first()[i] == fs[i + 1]);
        }
        lemma_fields_roundtrip(input, pos + a.len(), fs.drop_first());
        assert(read_fields(input, pos, fs) =~= fs.map_values(|f: BitField| field_value(f)));
    }
}

/// What a read gives back of a write: when an encoder that started at byte
/// `start` was given the fields `fs` and finished into `out`, a decoder
/// started at byte `start` of `out` reads back the values of `fs`, in order.
pub proof fn law_fields_roundtrip(out: Seq<u8>, start: nat, fs: Seq<BitField>, pad: nat)
    requires
        start <= out.len(),
        forall|i: int| 0 <= i < fs.len() ==> field_valid(#[trigger] fs[i]),
        bytes_bits(out.skip(start as int)) == fields_bits(fs) + zeros(pad),
    ensures
        read_fields(out, 8 * start as int, fs) == fs.map_values(|f: BitField| field_value(f)),
{
    lemma_output_window(out, start, fields_bits(fs), pad);
    lemma_fields_roundtrip(out, 8 * start as int, fs);
}

/// Reading back the entries of a written Huffman table from symbol `i` on,
/// where every symbol between `last` (the previous one with a code) and `i`
/// has none: the code lengths read extend those up to `last` to a prefix of
/// `lens` beyond which every length is zero.
proof fn lemma_table_entries_roundtrip(input: Seq<u8>, p: int, lens: Seq<u8>, max: u8, last: int, i: int)
    requires
        lens.len() < 0x1_0000_0000,
        forall|j: int| 0 <= j < lens.len() ==> #[trigger] lens[j] <= max,
        -1 <= last < i,
        last < lens.len(),
        last >= 0 ==> lens[last] > 0,
        forall|j: int| last < j < i && j < lens.len() ==> #[trigger] lens[j] == 0,
        window(input, p, (table_entries_bits(lens, max as nat, last, i) + varint_bits(0)).len()) == table_entries_bits(
            lens,
            max as nat,
            last,
            i,
        ) + varint_bits(0),
    ensures
        ({
            let n = (table_entries_bits(lens, max as nat, last, i) + varint_bits(0)).len();
            match parse_table_entries(input, p, max, lens.take(last + 1)) {
                Some((tr, q)) => {
                    &&& q == p + n
                    &&& last + 1 <= tr.len() <= lens.len()
                    &&& tr == lens.take(tr.len() as int)
                    &&& forall|j: int| tr.len() <= j < lens.len() ==> #[trigger] lens[j] == 0
                    &&& tr.len() > 0 ==> tr.last() > 0
                },
                None => false,
            }
        }),
    decreases lens.len() - i,
{
    lemma2_to64();
    lemma_parse_table_entries_step(input, p, max, lens.take(last + 1));
    let acc = lens.take(last + 1);
    if i >= lens.len() {
        assert(table_entries_bits(lens, max as nat, last, i) =~= Seq::<bool>::empty());
        assert(table_entries_bits(lens, max as nat, last, i) + varint_bits(0) =~= varint_bits(0));
        lemma_varint_roundtrip(input, p, 0);
        vstd::arithmetic::div_mod::lemma_small_mod(0, pow2(32));
    } else if lens[i] == 0 {
        assert(table_entries_bits(lens, max as nat, last, i) == table_entries_bits(lens, max as nat, last, i + 1));
        lemma_table_entries_roundtrip(input, p, lens, max, last, i + 1);
    } else {
        let dv = (i - last) as nat;
        let a = varint_bits(((i - last) % (pow2(32) as int)) as nat);
        let b = varint_bits((max - lens[i]) as nat);
        let rest = table_entries_bits(lens, max as nat, i, i + 1);
        let z = varint_bits(0);
        vstd::arithmetic::div_mod::lemma_small_mod(dv, pow2(32));
        assert(((i - last) % (pow2(32) as int)) as nat == dv);
        assert(table_entries_bits(lens, max as nat, last, i) == a + b + rest);
        assert(table_entries_bits(lens, max as nat, last, i) + z =~= a + (b + (rest + z)));
        lemma_window_parts(input, p, a, b + (rest + z));
        lemma_window_parts(input, p + a.len(), b, rest + z);
        lemma_varint_roundtrip(input, p, dv);
        lemma_varint_roundtrip(input, p + a.len(), (max - lens[i]) as nat);
        vstd::arithmetic::div_mod::lemma_small_mod((max - lens[i]) as nat, pow2(32));
        vstd::arithmetic::div_mod::lemma_small_mod((max - lens[i]) as nat, 256);
        let acc2 = acc + Seq::new((dv - 1) as nat, |k: int| 0u8).push(lens[i]);
        assert(acc2 =~= lens.take(i + 1));
        assert(((max - lens[i]) as nat % pow2(32)) % 256 == (max - lens[i]) as nat);
        assert((max - ((max - lens[i]) as nat)) as u8 == lens[i]);
        lemma_table_entries_roundtrip(input, p + a.len() + b.len(), lens, max, i, i + 1);
    }
}

/// Reading back a written Huffman table: the longest code length, and the
/// code lengths up to the last symbol with a code (`lens` without its
/// trailing zeros), and the position right after the table.
pub proof fn lemma_table_roundtrip(input: Seq<u8>, p: int, lens: Seq<u8>)
    requires
        lens.len() < 0x1_0000_0000,
        max_len(lens) <= 16,
        window(input, p, table_bits(lens).len()) == table_bits(lens),
    ensures
        match parse_huffman_table(input, p) {
            Some((tr, max, q)) => {
                &&& max == max_len(lens)
                &&& q == p + table_bits(lens).len()
                &&& tr.len() <= lens.len()
                &&& tr == lens.take(tr.len() as int)
                &&& forall|j: int| tr.len() <= j < lens.len() ==> #[trigger] lens[j] == 0
                &&& tr.len() > 0 ==> tr.last() > 0
            },
            None => false,
        },
{
    lemma2_to64();
    let m = max_len(lens);
    lemma_max_len_bound(lens);
    let a = varint_bits(m);
    let e = table_entries_bits(lens, m, -1, 0);
    let z = varint_bits(0);
    assert(table_bits(lens) =~= a + (e + z));
    lemma_window_parts(input, p, a, e + z);
    lemma_varint_roundtrip(input, p, m);
    vstd::arithmetic::div_mod::lemma_small_mod(m, pow2(32));
    vstd::arithmetic::div_mod::lemma_small_mod(m, 256);
    assert(lens.take(0) =~= Seq::<u8>::empty());
    lemma_table_entries_roundtrip(input, p + a.len(), lens, m as u8, -1, 0);
}

} // verus!
