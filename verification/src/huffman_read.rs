//! Huffman symbols written one after another read back in order.
use vstd::prelude::*;
use vstd::arithmetic::power2::{pow2, lemma_pow2_pos};
use vstd::arithmetic::div_mod::lemma_fundamental_div_mod_converse;
use crate::bitstream::{bits_of, bits_value, window, lemma_window_parts, lemma_window_split, lemma_bits_value_bound,
    lemma_bits_value_of_bits, lemma_bits_of_len, lemma_bits_value_concat};
use crate::huffman::{canonical_code, law_huffman_code_decodes, lemma_code_fits, lens_valid, decoding_entry};

verus! {

/// The bits of the symbols `syms` in turn, each as its canonical code under
/// the lengths `lens` and the longest length `m`.
pub open spec fn syms_bits(lens: Seq<u8>, m: nat, syms: Seq<int>) -> Seq<bool>
    decreases syms.len(),
{
    if syms.len() == 0 {
        Seq::empty()
    } else {
        syms_bits(lens, m, syms.drop_last()) + bits_of(canonical_code(lens, m, syms.last()), lens[syms.last()] as nat)
    }
}

/// Reading `k` symbols in turn from bit `p` on with the decoding table of
/// `lens` and `m`: each read looks up the next `m` bits and moves past the
/// length it finds. The symbols and the bit position after them.
pub open spec fn read_syms(input: Seq<u8>, p: int, lens: Seq<u8>, m: nat, k: nat) -> (Seq<int>, int)
    decreases k,
{
    if k == 0 {
        (Seq::empty(), p)
    } else {
        let (prev, q) = read_syms(input, p, lens, m, (k - 1) as nat);
        let e = decoding_entry(lens, m, bits_value(window(input, q, m)) as int, lens.len() as int);
        (prev.push(e.0 as int), q + e.1)
    }
}

/// Reading one symbol's canonical code back with the decoding table gives
/// the symbol and its length, whatever follows the code.
proof fn lemma_code_read(input: Seq<u8>, q: int, lens: Seq<u8>, m: nat, s: int)
    requires
        lens_valid(lens, m),
        0 <= s < lens.len(),
        lens[s] > 0,
        window(input, q, lens[s] as nat) == bits_of(canonical_code(lens, m, s), lens[s] as nat),
    ensures
        decoding_entry(lens, m, bits_value(window(input, q, m)) as int, lens.len() as int) == (s as u16, lens[s] as u16),
{
    let len = lens[s] as nat;
    let c = canonical_code(lens, m, s);
    lemma_code_fits(lens, m, s);
    assert(len <= m) by {
        if len > m {
            assert((m - len) as nat == 0);
        }
        assert(lens_valid(lens, m));
    }
    let rest = (m - len) as nat;
    lemma_window_split(input, q, len, rest);
    let w1 = window(input, q, len);
    let w2 = window(input, q + len, rest);
    lemma_bits_value_of_bits(c, len);
    lemma_bits_value_concat(w1, w2);
    lemma_bits_value_bound(w2);
    let x = bits_value(window(input, q, m));
    assert(window(input, q, m) == window(input, q, len + rest));
    lemma_pow2_pos(rest);
    lemma_fundamental_div_mod_converse(x as int, pow2(rest) as int, c as int, bits_value(w2) as int);
    law_huffman_code_decodes(lens, m, s, x as int);
}

/// Symbols written one after another as their canonical codes are read
/// back in order, each read moving exactly past its code, whatever
/// follows the last code.
pub proof fn law_huffman_syms_roundtrip(input: Seq<u8>, p: int, lens: Seq<u8>, m: nat, syms: Seq<int>)
    requires
        lens_valid(lens, m),
        lens.len() <= 0x10000,
        forall|j: int| 0 <= j < syms.len() ==> 0 <= #[trigger] syms[j] < lens.len() && lens[syms[j]] > 0,
        window(input, p, syms_bits(lens, m, syms).len()) == syms_bits(lens, m, syms),
    ensures
        read_syms(input, p, lens, m, syms.len()) == (syms, p + syms_bits(lens, m, syms).len()),
    decreases syms.len(),
{
    if syms.len() > 0 {
        let prev = syms.drop_last();
        let s = syms.last();
        let a = syms_bits(lens, m, prev);
        let b = bits_of(canonical_code(lens, m, s), lens[s] as nat);
        assert(syms_bits(lens, m, syms) == a + b);
        lemma_window_parts(input, p, a, b);
        assert forall|j: int| 0 <= j < prev.len() implies 0 <= #[trigger] prev[j] < lens.len() && lens[prev[j]] > 0 by {
            assert(prev[j] == syms[j]);
        }
        law_huffman_syms_roundtrip(input, p, lens, m, prev);
        lemma_code_fits(lens, m, s);
        lemma_bits_of_len(canonical_code(lens, m, s), lens[s] as nat);
        lemma_code_read(input, p + a.len(), lens, m, s);
        let k = syms.len();
        assert(prev.len() == (k - 1) as nat);
        let (r0, q) = read_syms(input, p, lens, m, (k - 1) as nat);
        assert(r0 == prev && q == p + a.len());
        assert(prev.push(s) =~= syms);
        assert(b.len() == lens[s] as nat);
        assert((a + b).len() == a.len() + b.len());
        assert((s as u16) as int == s);
    } else {
        assert(syms =~= Seq::<int>::empty());
    }
}

} // verus!
