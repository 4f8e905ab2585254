//! The mathematical model of the bit streams that the coder reads and writes.
//!
//! A stream is a `Seq<bool>`, most significant bit first.  Bytes are packed
//! eight bits at a time, the most significant bit of each byte first, and a
//! reader that runs past the end of its input sees zero bits.
use vstd::prelude::*;
use vstd::arithmetic::power2::{pow2, lemma_pow2_unfold, lemma_pow2_pos, lemma_pow2_adds, lemma2_to64};
use vstd::arithmetic::div_mod::{lemma_fundamental_div_mod, lemma_fundamental_div_mod_converse};

verus! {

/// The `n` low bits of `v`, most significant first.
pub open spec fn bits_of(v: nat, n: nat) -> Seq<bool>
    decreases n,
{
    if n == 0 {
        Seq::empty()
    } else {
        bits_of(v / 2, (n - 1) as nat).push(v % 2 == 1)
    }
}

/// The number that a bit sequence spells, most significant bit first.
pub open spec fn bits_value(s: Seq<bool>) -> nat
    decreases s.len(),
{
    if s.len() == 0 {
        0
    } else {
        2 * bits_value(s.drop_last()) + (if s.last() { 1nat } else { 0nat })
    }
}

/// The bits of a byte sequence, eight per byte, most significant bit first.
pub open spec fn bytes_bits(s: Seq<u8>) -> Seq<bool>
    decreases s.len(),
{
    if s.len() == 0 {
        Seq::empty()
    } else {
        bytes_bits(s.drop_last()) + bits_of(s.last() as nat, 8)
    }
}

/// Bit `i` of the stream that `input` spells; past either end the stream reads zero.
pub open spec fn stream_bit(input: Seq<u8>, i: int) -> bool {
    if 0 <= i && i < 8 * input.len() {
        bits_of(input[i / 8] as nat, 8)[i % 8]
    } else {
        false
    }
}

/// The `n` stream bits of `input` starting at bit position `pos`.
pub open spec fn window(input: Seq<u8>, pos: int, n: nat) -> Seq<bool> {
    Seq::new(n, |k: int| stream_bit(input, pos + k))
}

/// A run of `n` zero bits.
pub open spec fn zeros(n: nat) -> Seq<bool> {
    Seq::new(n, |k: int| false)
}

pub broadcast proof fn lemma_bits_of_len(v: nat, n: nat)
    ensures
        #[trigger] bits_of(v, n).len() == n,
    decreases n,
{
    if n > 0 {
        lemma_bits_of_len(v / 2, (n - 1) as nat);
    }
}

pub broadcast proof fn lemma_bytes_bits_len(s: Seq<u8>)
    ensures
        #[trigger] bytes_bits(s).len() == 8 * s.len(),
    decreases s.len(),
{
    if s.len() > 0 {
        lemma_bytes_bits_len(s.drop_last());
        lemma_bits_of_len(s.last() as nat, 8);
    }
}

proof fn lemma_halve(a: nat, b: nat, p: nat)
    requires
        p > 0,
    ensures
        (a * (2 * p) + b) / 2 == a * p + b / 2,
        (a * (2 * p) + b) % 2 == b % 2,
{
    let x = a * (2 * p) + b;
    lemma_fundamental_div_mod(b as int, 2);
    assert(x == 2 * (a * p + b / 2) + b % 2) by (nonlinear_arith)
        requires
            x == a * (2 * p) + b,
            b == 2 * (b / 2) + b % 2,
    ;
    lemma_fundamental_div_mod_converse(x as int, 2, (a * p + b / 2) as int, (b % 2) as int);
}

/// Concatenating the bits of two numbers spells their positional combination.
pub proof fn lemma_bits_of_concat(a: nat, b: nat, n: nat, m: nat)
    requires
        b < pow2(m),
    ensures
        bits_of(a * pow2(m) + b, n + m) == bits_of(a, n) + bits_of(b, m),
    decreases m,
{
    if m == 0 {
        lemma2_to64();
        assert(b == 0);
        assert(a * pow2(0) + b == a);
        assert(bits_of(a, n) + bits_of(b, 0) =~= bits_of(a, n));
    } else {
        let p = pow2((m - 1) as nat);
        lemma_pow2_unfold(m);
        lemma_pow2_pos((m - 1) as nat);
        assert(pow2(m) == 2 * p);
        lemma_halve(a, b, p);
        let x = a * pow2(m) + b;
        assert(x / 2 == a * p + b / 2);
        assert(x % 2 == b % 2);
        assert(b / 2 < p);
        lemma_bits_of_concat(a, b / 2, n, (m - 1) as nat);
        assert((n + m - 1) as nat == n + (m - 1) as nat);
        assert(bits_of(x, n + m) == bits_of(x / 2, (n + m - 1) as nat).push(x % 2 == 1));
        assert(bits_of(b, m) == bits_of(b / 2, (m - 1) as nat).push(b % 2 == 1));
        assert(bits_of(x, n + m) =~= bits_of(a, n) + bits_of(b, m));
    }
}

/// The bits of `v` read back as `v` when `v` fits in `n` bits.
pub proof fn lemma_bits_value_of_bits(v: nat, n: nat)
    requires
        v < pow2(n),
    ensures
        bits_value(bits_of(v, n)) == v,
    decreases n,
{
    if n == 0 {
        lemma2_to64();
    } else {
        lemma_pow2_unfold(n);
        let s = bits_of(v, n);
        lemma_bits_of_len(v, n);
        assert(s.drop_last() =~= bits_of(v / 2, (n - 1) as nat));
        lemma_bits_value_of_bits(v / 2, (n - 1) as nat);
        lemma_fundamental_div_mod(v as int, 2);
    }
}

/// A bit sequence spells a number below `2^len`.
pub proof fn lemma_bits_value_bound(s: Seq<bool>)
    ensures
        bits_value(s) < pow2(s.len()),
    decreases s.len(),
{
    if s.len() == 0 {
        lemma2_to64();
    } else {
        lemma_bits_value_bound(s.drop_last());
        lemma_pow2_unfold(s.len());
    }
}

/// Spelling a bit sequence as a number and back gives the sequence.
pub proof fn lemma_bits_of_value(s: Seq<bool>)
    ensures
        bits_of(bits_value(s), s.len()) == s,
    decreases s.len(),
{
    if s.len() > 0 {
        let v = bits_value(s);
        let r = bits_value(s.drop_last());
        let c: nat = if s.last() { 1 } else { 0 };
        lemma_fundamental_div_mod_converse(v as int, 2, r as int, c as int);
        lemma_bits_of_value(s.drop_last());
        assert(bits_of(v, s.len()) =~= s.drop_last().push(s.last()));
        assert(s.drop_last().push(s.last()) =~= s);
    }
}

/// Equal windows of equal length spell equal numbers (a convenience for callers).
pub proof fn lemma_bits_of_zero(n: nat)
    ensures
        bits_of(0, n) == zeros(n),
    decreases n,
{
    if n > 0 {
        lemma_bits_of_zero((n - 1) as nat);
        assert(bits_of(0, n) =~= zeros(n));
    }
}

/// A run of zero bits spells zero.
pub proof fn lemma_zeros_value(n: nat)
    ensures
        bits_value(zeros(n)) == 0,
    decreases n,
{
    if n > 0 {
        assert(zeros(n).drop_last() =~= zeros((n - 1) as nat));
        lemma_zeros_value((n - 1) as nat);
    }
}

/// Two adjacent windows make one.
pub proof fn lemma_window_split(input: Seq<u8>, pos: int, n: nat, m: nat)
    ensures
        window(input, pos, n + m) == window(input, pos, n) + window(input, pos + n, m),
{
    assert(window(input, pos, n + m) =~= window(input, pos, n) + window(input, pos + n, m));
}

/// A window that spells `a + b` spells `a` and then `b`.
pub proof fn lemma_window_parts(input: Seq<u8>, pos: int, a: Seq<bool>, b: Seq<bool>)
    requires
        window(input, pos, (a + b).len()) == a + b,
    ensures
        window(input, pos, a.len()) == a,
        window(input, pos + a.len(), b.len()) == b,
{
    lemma_window_split(input, pos, a.len(), b.len());
    let w = window(input, pos, a.len() + b.len());
    assert(w.take(a.len() as int) =~= a);
    assert(w.take(a.len() as int) =~= window(input, pos, a.len()));
    assert(w.skip(a.len() as int) =~= b);
    assert(w.skip(a.len() as int) =~= window(input, pos + a.len(), b.len()));
}

/// Past the end of the input a window is all zeros.
pub proof fn lemma_window_past_end(input: Seq<u8>, pos: int, n: nat)
    requires
        pos >= 8 * input.len(),
    ensures
        window(input, pos, n) == zeros(n),
        bits_value(window(input, pos, n)) == 0,
{
    assert(window(input, pos, n) =~= zeros(n));
    lemma_zeros_value(n);
}

/// The eight-bit window at a byte boundary is that byte, or zeros past the end.
pub proof fn lemma_window_byte(input: Seq<u8>, p: int)
    requires
        p >= 0,
    ensures
        p < input.len() ==> window(input, 8 * p, 8) == bits_of(input[p] as nat, 8),
        p >= input.len() ==> window(input, 8 * p, 8) == bits_of(0, 8),
{
    lemma_bits_of_len(input[p] as nat, 8);
    lemma_bits_of_zero(8);
    assert forall|k: int| 0 <= k < 8 implies #[trigger] stream_bit(input, 8 * p + k) == (if p
        < input.len() {
        bits_of(input[p] as nat, 8)[k]
    } else {
        false
    }) by {
        lemma_fundamental_div_mod_converse(8 * p + k, 8, p, k);
    }
    if p < input.len() {
        assert(window(input, 8 * p, 8) =~= bits_of(input[p] as nat, 8));
    } else {
        assert(window(input, 8 * p, 8) =~= bits_of(0, 8));
    }
}

/// The packed bits of a byte sequence are its stream bits.
pub proof fn lemma_bytes_bits_index(s: Seq<u8>, i: int)
    requires
        0 <= i < 8 * s.len(),
    ensures
        bytes_bits(s)[i] == stream_bit(s, i),
    decreases s.len(),
{
    let n = s.len();
    let d = s.drop_last();
    lemma_bytes_bits_len(d);
    lemma_bits_of_len(s.last() as nat, 8);
    if i < 8 * (n - 1) {
        lemma_bytes_bits_index(d, i);
        lemma_fundamental_div_mod(i, 8);
        assert(i / 8 < n - 1) by (nonlinear_arith)
            requires
                0 <= i < 8 * (n - 1),
                i == 8 * (i / 8) + i % 8,
                0 <= i % 8 < 8,
        ;
    } else {
        let k = i - 8 * (n - 1);
        lemma_fundamental_div_mod_converse(i, 8, n - 1, k);
    }
}

/// The packed bits of a byte sequence are the window of its stream from bit zero.
pub proof fn lemma_bytes_bits_window(s: Seq<u8>)
    ensures
        bytes_bits(s) == window(s, 0, (8 * s.len()) as nat),
{
    lemma_bytes_bits_len(s);
    assert forall|i: int| 0 <= i < 8 * s.len() implies bytes_bits(s)[i] == window(
        s,
        0,
        (8 * s.len()) as nat,
    )[i] by {
        lemma_bytes_bits_index(s, i);
    }
    assert(bytes_bits(s) =~= window(s, 0, (8 * s.len()) as nat));
}

/// Appending a byte appends its eight bits.
pub proof fn lemma_bytes_bits_push(s: Seq<u8>, b: u8)
    ensures
        bytes_bits(s.push(b)) == bytes_bits(s) + bits_of(b as nat, 8),
{
    assert(s.push(b).drop_last() =~= s);
}

/// Splitting the bits of a number at `k` of its `n` bits.
pub proof fn lemma_bits_of_split(v: nat, n: nat, k: nat)
    requires
        k <= n,
        v < pow2(n),
    ensures
        v / pow2((n - k) as nat) < pow2(k),
        bits_of(v, n) == bits_of(v / pow2((n - k) as nat), k) + bits_of(v % pow2((n - k) as nat), (n - k) as nat),
{
    let s = (n - k) as nat;
    lemma_pow2_pos(s);
    lemma_pow2_adds(k, s);
    lemma_fundamental_div_mod(v as int, pow2(s) as int);
    let hi = v / pow2(s);
    let lo = v % pow2(s);
    assert(hi < pow2(k)) by (nonlinear_arith)
        requires
            v == pow2(s) * hi + lo,
            0 <= lo,
            v < pow2(k) * pow2(s),
            pow2(s) > 0,
    ;
    assert(v == hi * pow2(s) + lo) by (nonlinear_arith)
        requires
            v == pow2(s) * hi + lo,
    ;
    lemma_bits_of_concat(hi, lo, k, s);
    assert(k + s == n);
}

/// A sequence of bits spells its front scaled past its back, plus its back.
pub proof fn lemma_bits_value_concat(a: Seq<bool>, b: Seq<bool>)
    ensures
        bits_value(a + b) == bits_value(a) * pow2(b.len()) + bits_value(b),
    decreases b.len(),
{
    if b.len() == 0 {
        assert(a + b =~= a);
        lemma2_to64();
        assert(pow2(b.len()) == 1);
        assert(bits_value(a) * pow2(b.len()) == bits_value(a)) by (nonlinear_arith)
            requires
                pow2(b.len()) == 1,
        ;
    } else {
        let b1 = b.drop_last();
        assert((a + b).drop_last() =~= a + b1);
        assert((a + b).last() == b.last());
        lemma_bits_value_concat(a, b1);
        lemma_pow2_unfold(b.len());
        let va = bits_value(a);
        let vb1 = bits_value(b1);
        let p1 = pow2(b1.len());
        let c: nat = if b.last() { 1 } else { 0 };
        assert(b1.len() == (b.len() - 1) as nat);
        assert(bits_value(a + b) == 2 * bits_value(a + b1) + c);
        assert(bits_value(b) == 2 * vb1 + c);
        assert(bits_value(a + b1) == va * p1 + vb1);
        assert(pow2(b.len()) == 2 * p1);
        assert(bits_value(a + b) == va * pow2(b.len()) + bits_value(b)) by (nonlinear_arith)
            requires
                bits_value(a + b) == 2 * bits_value(a + b1) + c,
                bits_value(b) == 2 * vb1 + c,
                bits_value(a + b1) == va * p1 + vb1,
                pow2(b.len()) == 2 * p1,
        ;
    }
}

} // verus!
