//! Canonical Huffman codes: code lengths, the codes they assign, and the
//! table that decodes them.
use vstd::prelude::*;
use vstd::arithmetic::power2::{pow2, lemma_pow2_pos, lemma_pow2_adds, lemma2_to64, lemma_pow2_strictly_increases};
use vstd::arithmetic::div_mod::{
    lemma_fundamental_div_mod, lemma_small_mod,
    lemma_mul_mod_noop_left, lemma_add_mod_noop, lemma_div_multiples_vanish, lemma_mod_multiples_basic,
};

verus! {

/// The weight `2^(m - len)` that a symbol of code length `len > 0` takes
/// up in a code whose longest length is `m`; zero for absent symbols.
pub open spec fn code_weight(lens: Seq<u8>, m: nat, i: int) -> nat {
    if lens[i] > 0 {
        pow2((m - lens[i]) as nat)
    } else {
        0
    }
}

/// Canonical order: shorter codes first, then lower symbols.
pub open spec fn ranks_before(lens: Seq<u8>, i: int, len: int, sym: int) -> bool {
    lens[i] > 0 && (lens[i] < len || (lens[i] == len && i < sym))
}

/// The total weight of the symbols among the first `j` that come before
/// position `(len, sym)` in canonical order.
pub open spec fn weight_before(lens: Seq<u8>, m: nat, len: int, sym: int, j: int) -> nat
    decreases j,
{
    if j <= 0 {
        0
    } else {
        weight_before(lens, m, len, sym, j - 1) + (if ranks_before(lens, j - 1, len, sym) {
            code_weight(lens, m, j - 1)
        } else {
            0
        })
    }
}

/// The total weight of the first `j` symbols.
pub open spec fn kraft_sum(lens: Seq<u8>, m: nat, j: int) -> nat
    decreases j,
{
    if j <= 0 {
        0
    } else {
        kraft_sum(lens, m, j - 1) + code_weight(lens, m, j - 1)
    }
}

/// Code lengths that a prefix code can have, its longest code at most `m <= 16` bits.
pub open spec fn lens_valid(lens: Seq<u8>, m: nat) -> bool {
    &&& m <= 16
    &&& forall|i: int| 0 <= i < lens.len() ==> #[trigger] lens[i] <= m
    &&& kraft_sum(lens, m, lens.len() as int) <= pow2(m)
}

/// Where the codes of symbol `s` start, scaled to `m` bits.
pub open spec fn code_start(lens: Seq<u8>, m: nat, s: int) -> nat {
    weight_before(lens, m, lens[s] as int, s, lens.len() as int)
}

/// The canonical code of symbol `s` (kept to 16 bits, as the coder keeps it).
pub open spec fn canonical_code(lens: Seq<u8>, m: nat, s: int) -> nat {
    (code_start(lens, m, s) / pow2((m - lens[s]) as nat)) % 0x10000
}

/// The first `m`-bit pattern that begins with the code of `s` (kept to 16 bits).
pub open spec fn code_base(lens: Seq<u8>, m: nat, s: int) -> nat {
    (canonical_code(lens, m, s) * pow2((m - lens[s]) as nat)) % 0x10000
}

/// The `m`-bit pattern `x` begins with the code of `s`.
pub open spec fn code_covers(lens: Seq<u8>, m: nat, s: int, x: int) -> bool {
    &&& lens[s] > 0
    &&& code_base(lens, m, s) <= x
    &&& x < code_base(lens, m, s) + pow2((m - lens[s]) as nat)
}

/// The decoding table entry for the `m`-bit pattern `x` once the first `k`
/// symbols are entered: the last of them whose code `x` begins with, as
/// `(symbol, code length)`, or `(0, 0)`.
pub open spec fn decoding_entry(lens: Seq<u8>, m: nat, x: int, k: int) -> (u16, u16)
    decreases k,
{
    if k <= 0 {
        (0, 0)
    } else if code_covers(lens, m, k - 1, x) {
        ((k - 1) as u16, lens[k - 1] as u16)
    } else {
        decoding_entry(lens, m, x, k - 1)
    }
}

/// Code lengths for each symbol (zero for a symbol that does not occur) and
/// the longest of them.
pub struct HuffmanTable {
    pub code_lens: Vec<u8>,
    pub max_code_len: u8,
}

impl HuffmanTable {
    /// No code is longer than `max_code_len`, which is at most 16.
    pub open spec fn wf(&self) -> bool {
        &&& self.max_code_len <= 16
        &&& forall|i: int| 0 <= i < self.code_lens.len() ==> #[trigger] self.code_lens[i] <= self.max_code_len
    }

    pub fn new(huffman_table: Vec<u8>, max_code_len: u8) -> (r: Self)
        requires
            max_code_len <= 16,
        ensures
            r.code_lens@ == huffman_table@,
            r.max_code_len == max_code_len,
    {
        HuffmanTable { code_lens: huffman_table, max_code_len }
    }
}

impl Default for HuffmanTable {
    fn default() -> (r: Self)
        ensures
            r.code_lens@ == Seq::<u8>::empty(),
            r.max_code_len == 0,
    {
        HuffmanTable { code_lens: Vec::new(), max_code_len: 0 }
    }
}

/// The code of each symbol, as `(code, code length)`.
pub struct HuffmanEncoding {
    pub encodings: Vec<(u16, u16)>,
}

impl HuffmanEncoding {
    /// Every code fits in its length, which is at most 16.
    pub open spec fn wf(&self) -> bool {
        forall|i: int| 0 <= i < self.encodings.len() ==> {
            &&& #[trigger] self.encodings[i].1 <= 16
            &&& (self.encodings[i].0 as nat) < pow2(self.encodings[i].1 as nat)
        }
    }

    /// Assigns canonical codes: symbols in order of code length, then of
    /// symbol, take consecutive codes.
    pub fn from_huffman_table(huffman_table: &HuffmanTable) -> (r: Self)
        requires
            huffman_table.wf(),
        ensures
            r.encodings.len() == huffman_table.code_lens.len(),
            forall|s: int| 0 <= s < r.encodings.len() ==> #[trigger] r.encodings[s] == (if huffman_table.code_lens[s] > 0 {
                (
                    canonical_code(huffman_table.code_lens@, huffman_table.max_code_len as nat, s) as u16,
                    huffman_table.code_lens[s] as u16,
                )
            } else {
                (0u16, 0u16)
            }),
            lens_valid(huffman_table.code_lens@, huffman_table.max_code_len as nat) ==> r.wf(),
    {
        let code_lens = &huffman_table.code_lens;
        let ghost lens = code_lens@;
        let ghost m = huffman_table.max_code_len as nat;
        let n = code_lens.len();
        let max = huffman_table.max_code_len;
        let mut encodings: Vec<(u16, u16)> = Vec::new();
        for s in 0..n
            invariant
                encodings.len() == s,
                forall|t: int| 0 <= t < s ==> #[trigger] encodings[t] == (0u16, 0u16),
        {
            encodings.push((0, 0));
        }
        let mut bits: u16 = 0;
        let mut current_bits_len: u8 = 1;
        let mut len: u8 = 1;
        proof {
            lemma2_to64();
            lemma_weight_before_none(lens, m, n as int);
            lemma_pow2_pos((m - 1) as nat);
            lemma_small_mod(0, pow2((m - 1) as nat));
            vstd::arithmetic::div_mod::lemma_div_of0(pow2((m - 1) as nat) as int);
        }
        while len <= max
            invariant
                huffman_table.wf(),
                code_lens@ == lens,
                lens.len() == n,
                m == max,
                max == huffman_table.max_code_len,
                1 <= len <= max + 1,
                encodings.len() == n,
                1 <= current_bits_len,
                current_bits_len <= len,
                m >= 1 ==> current_bits_len <= m,
                forall|i: int| 0 <= i < n && ranks_before(lens, i, len as int, 0) ==> lens[i] <= current_bits_len,
                bits as nat == (weight_before(lens, m, len as int, 0, n as int) / pow2(
                    (m - current_bits_len) as nat,
                )) % 0x10000,
                weight_before(lens, m, len as int, 0, n as int) % pow2((m - current_bits_len) as nat) == 0,
                forall|t: int| 0 <= t < n ==> #[trigger] encodings[t] == (if 0 < lens[t] < len {
                    (canonical_code(lens, m, t) as u16, lens[t] as u16)
                } else {
                    (0u16, 0u16)
                }),
            decreases max + 1 - len,
        {
            let mut s: usize = 0;
            while s < n
                invariant
                    huffman_table.wf(),
                    code_lens@ == lens,
                    lens.len() == n,
                    m == max,
                    max == huffman_table.max_code_len,
                    1 <= len <= max,
                    s <= n,
                    encodings.len() == n,
                    1 <= current_bits_len <= len,
                    current_bits_len <= m,
                    forall|i: int| 0 <= i < n && ranks_before(lens, i, len as int, s as int) ==> lens[i]
                        <= current_bits_len,
                    bits as nat == (weight_before(lens, m, len as int, s as int, n as int) / pow2(
                        (m - current_bits_len) as nat,
                    )) % 0x10000,
                    weight_before(lens, m, len as int, s as int, n as int) % pow2(
                        (m - current_bits_len) as nat,
                    ) == 0,
                    forall|t: int| 0 <= t < n ==> #[trigger] encodings[t] == (if 0 < lens[t] < len || (
                    lens[t] == len && t < s) {
                        (canonical_code(lens, m, t) as u16, lens[t] as u16)
                    } else {
                        (0u16, 0u16)
                    }),
                decreases n - s,
            {
                if code_lens[s] == len {
                    let ghost w = weight_before(lens, m, len as int, s as int, n as int);
                    let shift = len - current_bits_len;
                    proof {
                        lemma_shift_code(w, m, current_bits_len as nat, len as nat, bits as nat);
                    }
                    bits = shift_u16(bits, shift);
                    current_bits_len = len;
                    proof {
                        assert(w == code_start(lens, m, s as int));
                        assert(bits as nat == canonical_code(lens, m, s as int));
                    }
                    encodings.set(s, (bits, len as u16));
                    proof {
                        lemma_weight_before_next_sym(lens, m, len as int, s as int, n as int);
                        lemma_step_code(w, m, len as nat, bits as nat);
                    }
                    bits = add1_u16(bits);
                } else {
                    proof {
                        lemma_weight_before_next_sym(lens, m, len as int, s as int, n as int);
                    }
                }
                proof {
                    assert forall|i: int| 0 <= i < n && ranks_before(lens, i, len as int, s + 1) implies lens[i]
                        <= current_bits_len by {
                        if i != s as int || lens[i] != len {
                            assert(ranks_before(lens, i, len as int, s as int) || lens[i] == len);
                        }
                    }
                }
                s = s + 1;
            }
            proof {
                lemma_weight_before_next_len(lens, m, len as int, n as int);
                assert forall|i: int| 0 <= i < n && ranks_before(lens, i, len + 1, 0) implies lens[i]
                    <= current_bits_len by {
                    assert(ranks_before(lens, i, len as int, n as int));
                }
            }
            len = len + 1;
        }
        let r = HuffmanEncoding { encodings };
        proof {
            if lens_valid(lens, m) {
                assert forall|i: int| 0 <= i < r.encodings.len() implies {
                    &&& #[trigger] r.encodings[i].1 <= 16
                    &&& (r.encodings[i].0 as nat) < pow2(r.encodings[i].1 as nat)
                } by {
                    if lens[i] > 0 {
                        lemma_code_fits(lens, m, i);
                    }
                }
            }
        }
        r
    }
}

/// The table that maps every `max_code_len`-bit pattern to the symbol whose
/// code it begins with, as `(symbol, code length)`.
pub struct HuffmanDecoding {
    pub decodings: Vec<(u16, u16)>,
    pub max_code_len: u8,
}

impl HuffmanDecoding {
    /// One entry per pattern, and no entry longer than the patterns.
    pub open spec fn wf(&self) -> bool {
        &&& self.max_code_len <= 16
        &&& self.decodings.len() == pow2(self.max_code_len as nat)
        &&& forall|x: int| 0 <= x < self.decodings.len() ==> #[trigger] self.decodings[x].1 <= self.max_code_len
    }

    /// Builds the decoding table of a Huffman table; `None` where the codes
    /// run past the end of the table (the lengths admit no prefix code).
    pub fn from_huffman_table(huffman_table: &HuffmanTable) -> (r: Option<Self>)
        requires
            huffman_table.wf(),
        ensures
            r is None <==> exists|s: int| 0 <= s < huffman_table.code_lens.len() && #[trigger] huffman_table.code_lens[s]
                > 0 && code_base(huffman_table.code_lens@, huffman_table.max_code_len as nat, s)
                + pow2((huffman_table.max_code_len - huffman_table.code_lens[s]) as nat) > pow2(
                huffman_table.max_code_len as nat,
            ),
            r matches Some(d) ==> {
                &&& d.wf()
                &&& d.max_code_len == huffman_table.max_code_len
                &&& forall|x: int| 0 <= x < d.decodings.len() ==> #[trigger] d.decodings[x] == decoding_entry(
                    huffman_table.code_lens@,
                    huffman_table.max_code_len as nat,
                    x,
                    huffman_table.code_lens.len() as int,
                )
            },
    {
        let encoding = HuffmanEncoding::from_huffman_table(huffman_table);
        let ghost lens = huffman_table.code_lens@;
        let max_code_len = huffman_table.max_code_len;
        let ghost m = max_code_len as nat;
        let n = encoding.encodings.len();
        proof {
            lemma2_to64();
            lemma_pow2_le16(m);
        }
        let size: usize = 1usize << (max_code_len as usize);
        proof {
            vstd::bits::lemma_usize_shl_is_mul(1, max_code_len as usize);
        }
        let mut decodings: Vec<(u16, u16)> = Vec::new();
        for x in 0..size
            invariant
                decodings.len() == x,
                forall|y: int| 0 <= y < x ==> #[trigger] decodings[y] == (0u16, 0u16),
        {
            decodings.push((0, 0));
        }
        for sym in 0..n
            invariant
                huffman_table.wf(),
                lens == huffman_table.code_lens@,
                m == max_code_len,
                max_code_len == huffman_table.max_code_len,
                n == lens.len(),
                n == encoding.encodings.len(),
                size == pow2(m),
                size <= 0x10000,
                decodings.len() == size,
                forall|s: int| 0 <= s < n ==> #[trigger] encoding.encodings[s] == (if lens[s] > 0 {
                    (canonical_code(lens, m, s) as u16, lens[s] as u16)
                } else {
                    (0u16, 0u16)
                }),
                forall|s: int| 0 <= s < sym && #[trigger] lens[s] > 0 ==> code_base(lens, m, s) + pow2(
                    (m - lens[s]) as nat,
                ) <= pow2(m),
                forall|x: int| 0 <= x < size ==> #[trigger] decodings[x] == decoding_entry(lens, m, x, sym as int),
        {
            let (code, code_len) = encoding.encodings[sym];
            if code_len > 0 {
                let rest_bits_len = max_code_len as u16 - code_len;
                proof {
                    lemma_pow2_le16(rest_bits_len as nat);
                    assert(rest_bits_len < 16);
                }
                let base = shift_u16(code, rest_bits_len as u8) as usize;
                let fill_len: usize = 1usize << (rest_bits_len as usize);
                proof {
                    vstd::bits::lemma_usize_shl_is_mul(1, rest_bits_len as usize);
                    assert(base as nat == code_base(lens, m, sym as int));
                }
                if fill_len > size || base > size - fill_len {
                    return None;
                }
                let ghost before = decodings@;
                for x in base..base + fill_len
                    invariant
                        decodings.len() == size,
                        base + fill_len <= size,
                        base == code_base(lens, m, sym as int),
                        fill_len == pow2((m - lens[sym as int]) as nat),
                        lens[sym as int] > 0,
                        lens[sym as int] == code_len,
                        forall|y: int| 0 <= y < size ==> #[trigger] decodings[y] == (if base <= y < x {
                            (sym as u16, code_len)
                        } else {
                            before[y]
                        }),
                {
                    decodings.set(x, (sym as u16, code_len));
                }
                proof {
                    assert forall|y: int| 0 <= y < size implies #[trigger] decodings[y] == decoding_entry(
                        lens,
                        m,
                        y,
                        sym + 1,
                    ) by {
                        assert(code_covers(lens, m, sym as int, y) == (base <= y < base + fill_len));
                    }
                }
            } else {
                proof {
                    assert forall|y: int| 0 <= y < size implies #[trigger] decodings[y] == decoding_entry(
                        lens,
                        m,
                        y,
                        sym + 1,
                    ) by {
                        assert(!code_covers(lens, m, sym as int, y));
                    }
                }
            }
        }
        let d = HuffmanDecoding { decodings, max_code_len };
        proof {
            assert forall|x: int| 0 <= x < d.decodings.len() implies #[trigger] d.decodings[x].1 <= d.max_code_len by {
                lemma_decoding_entry_len(lens, m, x, n as int);
            }
        }
        Some(d)
    }
}

/// `x << shift` on a 16-bit value, bits shifted out discarded.
fn shift_u16(x: u16, shift: u8) -> (r: u16)
    requires
        shift < 16,
    ensures
        r as nat == (x as nat * pow2(shift as nat)) % 0x10000,
{
    proof {
        lemma2_to64();
        lemma_pow2_le16(shift as nat);
        assert(x as nat * pow2(shift as nat) <= 0xffff * 0x8000) by (nonlinear_arith)
            requires
                x <= 0xffff,
                pow2(shift as nat) <= 0x8000,
        ;
        vstd::bits::lemma_u32_shl_is_mul(x as u32, shift as u32);
    }
    (((x as u32) << (shift as u32)) % 0x10000) as u16
}

/// `x + 1` on a 16-bit value, wrapping at `2^16`.
fn add1_u16(x: u16) -> (r: u16)
    ensures
        r as nat == (x as nat + 1) % 0x10000,
{
    ((x as u32 + 1) % 0x10000) as u16
}

proof fn lemma_pow2_le16(e: nat)
    requires
        e <= 16,
    ensures
        pow2(e) <= 0x10000,
        e < 16 ==> pow2(e) <= 0x8000,
        pow2(e) > 0,
{
    lemma2_to64();
    lemma_pow2_pos(e);
    lemma_pow2_mono(e, 16);
    if e < 16 {
        lemma_pow2_mono(e, 15);
    }
}

proof fn lemma_pow2_mono(a: nat, b: nat)
    requires
        a <= b,
    ensures
        pow2(a) <= pow2(b),
{
    if a < b {
        lemma_pow2_strictly_increases(a, b);
    }
}

/// No symbol comes before the first position of length one.
proof fn lemma_weight_before_none(lens: Seq<u8>, m: nat, j: int)
    ensures
        weight_before(lens, m, 1, 0, j) == 0,
    decreases j,
{
    if j > 0 {
        lemma_weight_before_none(lens, m, j - 1);
    }
}

/// Moving the position one symbol on adds that symbol's weight when it has the position's length.
proof fn lemma_weight_before_next_sym(lens: Seq<u8>, m: nat, len: int, s: int, j: int)
    requires
        0 <= s,
        j <= lens.len(),
    ensures
        weight_before(lens, m, len, s + 1, j) == weight_before(lens, m, len, s, j) + (if s < j && lens[s]
            == len && len > 0 {
            pow2((m - len) as nat)
        } else {
            0
        }),
    decreases j,
{
    if j > 0 {
        lemma_weight_before_next_sym(lens, m, len, s, j - 1);
    }
}

/// The position after the last symbol of one length is the first of the next length.
proof fn lemma_weight_before_next_len(lens: Seq<u8>, m: nat, len: int, j: int)
    requires
        j <= lens.len(),
    ensures
        weight_before(lens, m, len, lens.len() as int, j) == weight_before(lens, m, len + 1, 0, j),
    decreases j,
{
    if j > 0 {
        lemma_weight_before_next_len(lens, m, len, j - 1);
    }
}

/// Lengthening the codes from `cur` to `len` bits.
proof fn lemma_shift_code(w: nat, m: nat, cur: nat, len: nat, bits: nat)
    requires
        1 <= cur <= len <= m,
        len - cur < 16,
        w % pow2((m - cur) as nat) == 0,
        bits == (w / pow2((m - cur) as nat)) % 0x10000,
    ensures
        w % pow2((m - len) as nat) == 0,
        (bits * pow2((len - cur) as nat)) % 0x10000 == (w / pow2((m - len) as nat)) % 0x10000,
{
    let a = (m - len) as nat;
    let k = (len - cur) as nat;
    lemma_pow2_adds(a, k);
    assert((m - cur) as nat == a + k);
    lemma_pow2_pos(a);
    lemma_pow2_pos(k);
    lemma_pow2_pos(a + k);
    let q = w / pow2(a + k);
    lemma_fundamental_div_mod(w as int, pow2(a + k) as int);
    let qk = q * pow2(k);
    assert(w == pow2(a) * qk) by (nonlinear_arith)
        requires
            w == pow2(a + k) * q + w % pow2(a + k),
            w % pow2(a + k) == 0,
            pow2(a + k) == pow2(a) * pow2(k),
            qk == q * pow2(k),
    ;
    lemma_div_multiples_vanish(qk as int, pow2(a) as int);
    assert(w == qk * pow2(a)) by (nonlinear_arith)
        requires
            w == pow2(a) * qk,
    ;
    lemma_mod_multiples_basic(qk as int, pow2(a) as int);
    assert(w / pow2(a) == qk);
    lemma_mul_mod_noop_left(q as int, pow2(k) as int, 0x10000);
}

/// Taking the next code after the one at weight `w`.
proof fn lemma_step_code(w: nat, m: nat, len: nat, bits: nat)
    requires
        len <= m,
        w % pow2((m - len) as nat) == 0,
        bits == (w / pow2((m - len) as nat)) % 0x10000,
    ensures
        (bits + 1) % 0x10000 == ((w + pow2((m - len) as nat)) / pow2((m - len) as nat)) % 0x10000,
        (w + pow2((m - len) as nat)) % pow2((m - len) as nat) == 0,
{
    let a = (m - len) as nat;
    lemma_pow2_pos(a);
    let q = w / pow2(a);
    lemma_fundamental_div_mod(w as int, pow2(a) as int);
    assert(w + pow2(a) == pow2(a) * (q + 1)) by (nonlinear_arith)
        requires
            w == pow2(a) * q + w % pow2(a),
            w % pow2(a) == 0,
    ;
    lemma_div_multiples_vanish((q + 1) as int, pow2(a) as int);
    assert(w + pow2(a) == (q + 1) * pow2(a)) by (nonlinear_arith)
        requires
            w + pow2(a) == pow2(a) * (q + 1),
    ;
    lemma_mod_multiples_basic((q + 1) as int, pow2(a) as int);
    lemma_add_mod_noop(q as int, 1, 0x10000);
    lemma_small_mod(1, 0x10000);
}

/// A decoding table entry never holds a length above the longest code.
proof fn lemma_decoding_entry_len(lens: Seq<u8>, m: nat, x: int, k: int)
    requires
        k <= lens.len(),
        forall|i: int| 0 <= i < lens.len() ==> #[trigger] lens[i] <= m,
    ensures
        decoding_entry(lens, m, x, k).1 <= m,
    decreases k,
{
    if k > 0 {
        lemma_decoding_entry_len(lens, m, x, k - 1);
    }
}

/// The weight before a position counts only symbols no longer than it.
proof fn lemma_weight_before_divisible(lens: Seq<u8>, m: nat, len: int, sym: int, j: int)
    requires
        0 < len <= m,
        j <= lens.len(),
    ensures
        weight_before(lens, m, len, sym, j) % pow2((m - len) as nat) == 0,
    decreases j,
{
    let p = pow2((m - len) as nat);
    lemma_pow2_pos((m - len) as nat);
    if j <= 0 {
        lemma_small_mod(0, p);
    } else {
        lemma_weight_before_divisible(lens, m, len, sym, j - 1);
        let prev = weight_before(lens, m, len, sym, j - 1);
        lemma_fundamental_div_mod(prev as int, p as int);
        let q = prev / p;
        if ranks_before(lens, j - 1, len, sym) {
            let d = (len - lens[j - 1]) as nat;
            lemma_pow2_adds((m - len) as nat, d);
            assert((m - lens[j - 1]) as nat == (m - len) as nat + d);
            let t = pow2((m - lens[j - 1]) as nat);
            assert(t == p * pow2(d));
            assert(weight_before(lens, m, len, sym, j) == prev + t);
            assert(prev + t == (q + pow2(d)) * p) by (nonlinear_arith)
                requires
                    prev == p * q + prev % p,
                    prev % p == 0,
                    t == p * pow2(d),
            ;
            lemma_mod_multiples_basic((q + pow2(d)) as int, p as int);
        } else {
            assert(weight_before(lens, m, len, sym, j) == prev);
        }
    }
}

/// The weight before a symbol, plus its own, is within the whole weight.
proof fn lemma_start_within_kraft(lens: Seq<u8>, m: nat, s: int, j: int)
    requires
        0 <= s < lens.len(),
        lens[s] > 0,
        j <= lens.len(),
    ensures
        weight_before(lens, m, lens[s] as int, s, j) + (if s < j { code_weight(lens, m, s) } else { 0 })
            <= kraft_sum(lens, m, j),
    decreases j,
{
    if j > 0 {
        lemma_start_within_kraft(lens, m, s, j - 1);
    }
}

/// Under a valid set of lengths, each code fits in its length.
pub(crate) proof fn lemma_code_fits(lens: Seq<u8>, m: nat, s: int)
    requires
        lens_valid(lens, m),
        0 <= s < lens.len(),
        lens[s] > 0,
    ensures
        canonical_code(lens, m, s) < pow2(lens[s] as nat),
        canonical_code(lens, m, s) == code_start(lens, m, s) / pow2((m - lens[s]) as nat),
        code_start(lens, m, s) == canonical_code(lens, m, s) * pow2((m - lens[s]) as nat),
        code_start(lens, m, s) + pow2((m - lens[s]) as nat) <= pow2(m),
{
    let len = lens[s] as nat;
    let a = (m - len) as nat;
    let w = code_start(lens, m, s);
    lemma_start_within_kraft(lens, m, s, lens.len() as int);
    lemma_weight_before_divisible(lens, m, len as int, s, lens.len() as int);
    lemma_pow2_pos(a);
    lemma_pow2_adds(a, len);
    assert(a + len == m);
    let q = w / pow2(a);
    lemma_fundamental_div_mod(w as int, pow2(a) as int);
    assert(w == q * pow2(a)) by (nonlinear_arith)
        requires
            w == pow2(a) * q + w % pow2(a),
            w % pow2(a) == 0,
    ;
    assert(q < pow2(len)) by (nonlinear_arith)
        requires
            w == q * pow2(a),
            w + pow2(a) <= pow2(m),
            pow2(m) == pow2(a) * pow2(len),
            pow2(a) > 0,
    ;
    lemma_pow2_le16(len);
    lemma_small_mod(q, 0x10000);
}

/// A symbol earlier in canonical order starts, with its whole weight, before a later one.
proof fn lemma_weight_before_mono(lens: Seq<u8>, m: nat, s: int, t: int, j: int)
    requires
        0 <= s < lens.len(),
        0 <= t < lens.len(),
        ranks_before(lens, s, lens[t] as int, t),
        j <= lens.len(),
    ensures
        weight_before(lens, m, lens[t] as int, t, j) >= weight_before(lens, m, lens[s] as int, s, j) + (if s
            < j {
            code_weight(lens, m, s)
        } else {
            0
        }),
    decreases j,
{
    if j > 0 {
        lemma_weight_before_mono(lens, m, s, t, j - 1);
    }
}

/// Entries for symbols past `k` are not changed by the symbols before them.
proof fn lemma_decoding_entry_last(lens: Seq<u8>, m: nat, s: int, x: int, k: int)
    requires
        0 <= s < k <= lens.len(),
        code_covers(lens, m, s, x),
        forall|t: int| s < t < k ==> !#[trigger] code_covers(lens, m, t, x),
    ensures
        decoding_entry(lens, m, x, k) == (s as u16, lens[s] as u16),
    decreases k,
{
    if k - 1 > s {
        lemma_decoding_entry_last(lens, m, s, x, k - 1);
    }
}

/// What the decoding table is for: under a valid set of code lengths, every
/// `m`-bit pattern that begins with the canonical code of symbol `s`
/// decodes to `s` and its code length.
pub proof fn law_huffman_code_decodes(lens: Seq<u8>, m: nat, s: int, x: int)
    requires
        lens_valid(lens, m),
        0 <= s < lens.len(),
        lens[s] > 0,
        0 <= x,
        x / (pow2((m - lens[s]) as nat) as int) == canonical_code(lens, m, s),
    ensures
        decoding_entry(lens, m, x, lens.len() as int) == (s as u16, lens[s] as u16),
{
    let n = lens.len() as int;
    let ls = lens[s] as nat;
    let ws = pow2((m - ls) as nat);
    lemma_code_fits(lens, m, s);
    lemma_pow2_pos((m - ls) as nat);
    lemma_pow2_le16(m);
    let c = canonical_code(lens, m, s);
    lemma_small_mod(code_start(lens, m, s), 0x10000);
    assert(code_base(lens, m, s) == code_start(lens, m, s));
    lemma_fundamental_div_mod(x, ws as int);
    assert(c * ws <= x < c * ws + ws) by (nonlinear_arith)
        requires
            x == ws * (x / (ws as int)) + x % (ws as int),
            0 <= x % (ws as int) < ws,
            x / (ws as int) == c,
    ;
    assert(code_covers(lens, m, s, x));
    assert forall|t: int| s < t < n implies !#[trigger] code_covers(lens, m, t, x) by {
        if lens[t] > 0 {
            let lt = lens[t] as nat;
            let wt = pow2((m - lt) as nat);
            lemma_code_fits(lens, m, t);
            lemma_small_mod(code_start(lens, m, t), 0x10000);
            assert(code_base(lens, m, t) == code_start(lens, m, t));
            if ranks_before(lens, s, lt as int, t) {
                lemma_weight_before_mono(lens, m, s, t, n);
            } else {
                assert(ranks_before(lens, t, ls as int, s));
                lemma_weight_before_mono(lens, m, t, s, n);
            }
        }
    }
    lemma_decoding_entry_last(lens, m, s, x, n);
}

/// Weights before a position depend only on the lengths counted.
proof fn lemma_weight_before_prefix(a: Seq<u8>, b: Seq<u8>, m: nat, len: int, sym: int, j: int)
    requires
        0 <= j <= a.len(),
        j <= b.len(),
        forall|t: int| 0 <= t < j ==> #[trigger] a[t] == b[t],
    ensures
        weight_before(a, m, len, sym, j) == weight_before(b, m, len, sym, j),
        kraft_sum(a, m, j) == kraft_sum(b, m, j),
    decreases j,
{
    if j > 0 {
        lemma_weight_before_prefix(a, b, m, len, sym, j - 1);
    }
}

/// Symbols without a code add no weight.
proof fn lemma_weight_before_zeros(lens: Seq<u8>, m: nat, len: int, sym: int, k: int, j: int)
    requires
        0 <= k <= j <= lens.len(),
        forall|t: int| k <= t < j ==> #[trigger] lens[t] == 0,
    ensures
        weight_before(lens, m, len, sym, j) == weight_before(lens, m, len, sym, k),
        kraft_sum(lens, m, j) == kraft_sum(lens, m, k),
    decreases j - k,
{
    if j > k {
        lemma_weight_before_zeros(lens, m, len, sym, k, j - 1);
    }
}

/// Dropping trailing symbols without a code keeps the lengths valid, keeps
/// every remaining symbol's code, and leaves no code running past the
/// longest length.
pub proof fn lemma_lens_trim(lens: Seq<u8>, tr: Seq<u8>, m: nat)
    requires
        lens_valid(lens, m),
        tr.len() <= lens.len(),
        tr == lens.take(tr.len() as int),
        forall|j: int| tr.len() <= j < lens.len() ==> #[trigger] lens[j] == 0,
    ensures
        lens_valid(tr, m),
        forall|s: int| 0 <= s < tr.len() ==> #[trigger] canonical_code(tr, m, s) == canonical_code(lens, m, s),
        forall|s: int| 0 <= s < tr.len() && #[trigger] tr[s] > 0 ==> code_base(tr, m, s) + pow2((m - tr[s]) as nat)
            <= pow2(m),
{
    let n = tr.len() as int;
    assert forall|t: int| 0 <= t < n implies #[trigger] tr[t] == lens[t] by {}
    lemma_weight_before_prefix(tr, lens, m, 0, 0, n);
    lemma_weight_before_zeros(lens, m, 0, 0, n, lens.len() as int);
    assert(lens_valid(tr, m));
    assert forall|s: int| 0 <= s < n implies #[trigger] canonical_code(tr, m, s) == canonical_code(lens, m, s) by {
        lemma_weight_before_prefix(tr, lens, m, tr[s] as int, s, n);
        lemma_weight_before_zeros(lens, m, tr[s] as int, s, n, lens.len() as int);
        assert(code_start(tr, m, s) == code_start(lens, m, s));
    }
    assert forall|s: int| 0 <= s < n && #[trigger] tr[s] > 0 implies code_base(tr, m, s) + pow2((m - tr[s]) as nat)
        <= pow2(m) by {
        lemma_code_fits(tr, m, s);
        lemma_pow2_le16(m);
        lemma_pow2_pos((m - tr[s]) as nat);
        lemma_small_mod(code_start(tr, m, s), 0x10000);
    }
}

} // verus!
