//! Byte counters for readers and writers, and the variable-length encoding
//! of chunk lengths.
use vstd::prelude::*;
use vstd::arithmetic::power2::{pow2, lemma_pow2_adds, lemma_pow2_pos, lemma2_to64};
use crate::sums::{index_sum, lemma_index_sum_ext, lemma_index_sum_prefix_le};

verus! {

/// A reader and the number of bytes read through it.
pub struct CountRead<R> {
    pub inner: R,
    count: usize,
}

impl<R> CountRead<R> {
    /// The reader.
    pub closed spec fn reader(&self) -> R {
        self.inner
    }

    /// The number of bytes counted.
    pub closed spec fn counted(&self) -> nat {
        self.count as nat
    }

    pub fn new(r: R) -> (s: Self)
        ensures
            s.reader() == r,
            s.counted() == 0,
    {
        CountRead { inner: r, count: 0 }
    }

    pub fn count(&self) -> (c: usize)
        ensures
            c == self.counted(),
    {
        self.count
    }

    /// Counts `n` more bytes.
    pub fn add(&mut self, n: usize)
        requires
            old(self).counted() + n <= usize::MAX,
        ensures
            final(self).reader() == old(self).reader(),
            final(self).counted() == old(self).counted() + n,
    {
        self.count = self.count + n;
    }
}

/// A writer and the number of bytes written through it.
pub struct CountWrite<W> {
    pub inner: W,
    count: usize,
}

impl<W> CountWrite<W> {
    /// The writer.
    pub closed spec fn writer(&self) -> W {
        self.inner
    }

    /// The number of bytes counted.
    pub closed spec fn counted(&self) -> nat {
        self.count as nat
    }

    pub fn new(w: W) -> (s: Self)
        ensures
            s.writer() == w,
            s.counted() == 0,
    {
        CountWrite { inner: w, count: 0 }
    }

    pub fn count(&self) -> (c: usize)
        ensures
            c == self.counted(),
    {
        self.count
    }

    /// Counts `n` more bytes.
    pub fn add(&mut self, n: usize)
        requires
            old(self).counted() + n <= usize::MAX,
        ensures
            final(self).writer() == old(self).writer(),
            final(self).counted() == old(self).counted() + n,
    {
        self.count = self.count + n;
    }
}

/// The seven value bits of a length byte.
pub open spec fn len_digit(b: u8) -> nat {
    if b < 128 {
        b as nat
    } else {
        (b - 128) as nat
    }
}

/// The value of the first `n` length bytes: seven bits each, lowest first.
pub open spec fn len_prefix_value(s: Seq<u8>, n: int) -> nat {
    index_sum(|k: int| len_digit(s[k]) * pow2(7 * k as nat), n)
}

/// A length written as bytes: seven bits at a time, lowest first, each
/// byte but the last with its top bit set, and no high zero byte.
pub open spec fn is_len_encoding(s: Seq<u8>, len: nat) -> bool {
    &&& s.len() >= 1
    &&& forall|k: int| 0 <= k < s.len() - 1 ==> #[trigger] s[k] >= 128
    &&& s.last() < 128
    &&& (s.len() == 1 || s.last() != 0)
    &&& len_prefix_value(s, s.len() as int) == len
}

/// The first position from `i` on that holds a byte below 128.
pub open spec fn len_end(s: Seq<u8>, i: int) -> Option<int>
    decreases s.len() - i,
{
    if i < 0 || i >= s.len() {
        None
    } else if s[i] < 128 {
        Some(i)
    } else {
        len_end(s, i + 1)
    }
}

/// The length at the start of `s`: the bytes up to the first one below 128,
/// read as `is_len_encoding` writes them, and how many bytes that is.
pub open spec fn parse_len(s: Seq<u8>) -> Option<(nat, int)> {
    match len_end(s, 0) {
        Some(k) => Some((len_prefix_value(s, k + 1), k + 1)),
        None => None,
    }
}

proof fn lemma_pow128_step(k: nat)
    ensures
        pow2(7 * (k + 1)) == 128 * pow2(7 * k),
        pow2(7 * k) > 0,
{
    lemma_pow2_adds(7 * k, 7);
    lemma2_to64();
    lemma_pow2_pos(7 * k);
}

/// The bytes that encode `len`.
pub fn encode_len(len: usize) -> (r: Vec<u8>)
    ensures
        is_len_encoding(r@, len as nat),
{
    let mut out: Vec<u8> = Vec::new();
    let mut rest = len;
    proof {
        lemma2_to64();
        assert(pow2(7 * out.len() as nat) == 1);
        assert(len_prefix_value(out@, 0) == 0);
        assert(rest * 1 == rest);
    }
    while rest >= 128
        invariant
            len == len_prefix_value(out@, out.len() as int) + rest * pow2(7 * out.len() as nat),
            forall|k: int| 0 <= k < out.len() ==> #[trigger] out@[k] >= 128,
            out.len() > 0 ==> rest >= 1,
        decreases rest,
    {
        let v = rest % 128;
        let ghost before = out@;
        let ghost r0 = rest as nat;
        rest = rest / 128;
        out.push(128 + v as u8);
        proof {
            let n = before.len();
            lemma_pow128_step(n);
            let fb = |k: int| len_digit(before[k]) * pow2(7 * k as nat);
            let fa = |k: int| len_digit(out@[k]) * pow2(7 * k as nat);
            lemma_index_sum_ext(fa, fb, n as int);
            assert(len_digit(out@[n as int]) == v);
            assert(r0 == 128 * rest + v);
            let p = pow2(7 * n);
            assert(r0 * p == v * p + rest * (128 * p)) by (nonlinear_arith)
                requires
                    r0 == 128 * rest + v,
            ;
        }
    }
    let ghost before = out@;
    out.push(rest as u8);
    proof {
        let n = before.len();
        let fb = |k: int| len_digit(before[k]) * pow2(7 * k as nat);
        let fa = |k: int| len_digit(out@[k]) * pow2(7 * k as nat);
        lemma_index_sum_ext(fa, fb, n as int);
        assert(len_digit(out@[n as int]) == rest);
    }
    out
}

/// The first byte below 128 comes at or after `i` when the bytes before do not.
proof fn lemma_len_end_skip(s: Seq<u8>, i: int)
    requires
        0 <= i <= s.len(),
        forall|j: int| 0 <= j < i ==> #[trigger] s[j] >= 128,
    ensures
        len_end(s, 0) == len_end(s, i),
    decreases i,
{
    if i > 0 {
        lemma_len_end_skip(s, i - 1);
    }
}

/// Where the first byte below 128 is, if any, it comes at or after `i`.
proof fn lemma_len_end_after(s: Seq<u8>, i: int)
    requires
        0 <= i,
    ensures
        len_end(s, i) matches Some(k) ==> i <= k < s.len() && s[k] < 128,
    decreases s.len() - i,
{
    if i < s.len() && s[i] >= 128 {
        lemma_len_end_after(s, i + 1);
    }
}

/// Reads a length from the start of `bytes`: its value and the number of
/// bytes it takes; `None` where no byte below 128 ends it or where its value
/// does not fit in `usize`.
pub fn decode_len(bytes: &[u8]) -> (r: Option<(usize, usize)>)
    ensures
        match parse_len(bytes@) {
            None => r is None,
            Some((v, k)) => if v <= usize::MAX {
                r == Some((v as usize, k as usize))
            } else {
                r is None
            },
        },
{
    let ghost s = bytes@;
    let ghost f = |k: int| len_digit(s[k]) * pow2(7 * k as nat);
    let mut len: usize = 0;
    let mut factor_ok = true;
    let mut factor: usize = 1;
    let mut i: usize = 0;
    proof {
        lemma2_to64();
    }
    while i < bytes.len()
        invariant
            s == bytes@,
            f == (|k: int| len_digit(s[k]) * pow2(7 * k as nat)),
            i <= bytes.len(),
            forall|j: int| 0 <= j < i ==> #[trigger] s[j] >= 128,
            len == len_prefix_value(s, i as int),
            factor_ok ==> factor == pow2(7 * i as nat),
            !factor_ok ==> pow2(7 * i as nat) > usize::MAX,
        decreases bytes.len() - i,
    {
        let b = bytes[i];
        let d: usize = if b < 128 { b as usize } else { (b - 128) as usize };
        proof {
            lemma_len_end_skip(s, i as int);
            lemma_len_end_after(s, i as int);
            assert(len_prefix_value(s, i + 1) == len + f(i as int));
            assert(f(i as int) == d * pow2(7 * i as nat));
            if let Some(k) = len_end(s, 0) {
                lemma_index_sum_prefix_le(f, i + 1, k + 1);
            }
        }
        if d > 0 {
            if !factor_ok {
                proof {
                    assert(d * pow2(7 * i as nat) >= pow2(7 * i as nat)) by (nonlinear_arith)
                        requires
                            d > 0,
                    ;
                }
                return None;
            }
            let add = match d.checked_mul(factor) {
                Some(x) => x,
                None => {
                    return None;
                },
            };
            len = match len.checked_add(add) {
                Some(x) => x,
                None => {
                    return None;
                },
            };
        } else {
            proof {
                let p = pow2(7 * i as nat);
                assert(d * p == 0) by (nonlinear_arith)
                    requires
                        d == 0,
                ;
            }
        }
        i = i + 1;
        if b < 128 {
            proof {
                lemma_len_end_skip(s, (i - 1) as int);
            }
            return Some((len, i));
        }
        proof {
            lemma_pow2_adds(7 * (i - 1) as nat, 7);
            lemma_pow2_pos(7 * (i - 1) as nat);
            lemma2_to64();
            let p = pow2(7 * (i - 1) as nat);
            assert(7 * (i - 1) as nat + 7 == 7 * i as nat);
            assert(pow2(7 * i as nat) == p * 128);
            assert(p * 128 >= p) by (nonlinear_arith)
                requires
                    p > 0,
            ;
        }
        if factor_ok {
            match factor.checked_mul(128) {
                Some(x) => {
                    factor = x;
                },
                None => {
                    factor_ok = false;
                },
            }
        }
    }
    proof {
        lemma_len_end_skip(s, i as int);
    }
    None
}

/// Reading a length back from its bytes, whatever follows them, gives the
/// length and the number of its bytes.
pub proof fn law_len_roundtrip(len: nat, enc: Seq<u8>, rest: Seq<u8>)
    requires
        is_len_encoding(enc, len),
    ensures
        parse_len(enc + rest) == Some((len, enc.len() as int)),
{
    let s = enc + rest;
    let n = enc.len() as int;
    assert forall|j: int| 0 <= j < n - 1 implies #[trigger] s[j] >= 128 by {
        assert(s[j] == enc[j]);
    }
    lemma_len_end_skip(s, n - 1);
    assert(s[n - 1] == enc.last());
    let fs = |k: int| len_digit(s[k]) * pow2(7 * k as nat);
    let fe = |k: int| len_digit(enc[k]) * pow2(7 * k as nat);
    lemma_index_sum_ext(fs, fe, n);
}

} // verus!
