//! Small bit accumulators: bits go in at the low end and come out at the
//! high end.
use vstd::prelude::*;

verus! {

/// Up to 64 bits in `value`, the newest lowest; `len` of them are held.
#[derive(Clone, Copy)]
pub struct Bits {
    pub value: u64,
    pub len: u8,
}

impl Bits {
    /// The oldest `len` bits (all the bits above the newest `self.len - len`).
    pub fn peek(&self, len: u8) -> (r: u64)
        requires
            len <= self.len,
            self.len - len < 64,
        ensures
            r == self.value >> ((self.len - len) as u64),
    {
        self.value >> (self.len - len)
    }

    /// Takes the oldest `len` bits out.
    pub fn get(&mut self, len: u8) -> (r: u64)
        requires
            len <= old(self).len,
            old(self).len - len < 64,
        ensures
            r == old(self).value >> ((old(self).len - len) as u64),
            final(self).len == old(self).len - len,
            final(self).value == old(self).value ^ (r << ((old(self).len - len) as u64)),
    {
        let value = self.peek(len);
        self.value = self.value ^ (value << (self.len - len));
        self.len = self.len - len;
        value
    }

    /// Adds `len` bits of `value` at the low end.
    pub fn put(&mut self, len: u8, value: u64)
        requires
            len < 64,
            old(self).len + len <= 255,
        ensures
            final(self).len == old(self).len + len,
            final(self).value == (old(self).value << (len as u64)) ^ value,
    {
        self.value = self.value << len ^ value;
        self.len = self.len + len;
    }
}

/// First in, first out: after `put(l, v)` on `len` clean bits `value`,
/// `get(len)` gives `value` back and leaves `v`.
pub proof fn law_bits_fifo(value: u64, len: u64, v: u64, l: u64)
    requires
        len + l <= 64,
        len < 64,
        l < 64,
        value < (1u64 << len),
        v < (1u64 << l),
    ensures
        ((value << l) ^ v) >> l == value,
        ((value << l) ^ v) ^ ((((value << l) ^ v) >> l) << l) == v,
{
    assert(((value << l) ^ v) >> l == value) by (bit_vector)
        requires
            len + l <= 64,
            len < 64,
            l < 64,
            value < (1u64 << len),
            v < (1u64 << l),
    ;
    assert(((value << l) ^ v) ^ ((((value << l) ^ v) >> l) << l) == v) by (bit_vector)
        requires
            len + l <= 64,
            len < 64,
            l < 64,
            value < (1u64 << len),
            v < (1u64 << l),
    ;
}

/// Up to 64 bits in `value`, the newest lowest; `len` of them are held, and
/// taking bits out clears them.
#[derive(Clone, Copy)]
pub struct BitQueue {
    pub value: u64,
    pub len: u8,
}

impl BitQueue {
    /// The oldest `len` bits (all the bits above the newest `self.len - len`).
    pub fn peek(&self, len: u8) -> (r: u64)
        requires
            len <= self.len,
            self.len - len < 64,
        ensures
            r == self.value >> ((self.len - len) as u64),
    {
        self.value >> (self.len - len)
    }

    /// Takes the oldest `len` bits out, keeping only the newest bits held.
    pub fn get(&mut self, len: u8) -> (r: u64)
        requires
            len <= old(self).len,
            old(self).len - len < 64,
        ensures
            r == old(self).value >> ((old(self).len - len) as u64),
            final(self).len == old(self).len - len,
            final(self).value == old(self).value & !(!0u64 << ((old(self).len - len) as u64)),
    {
        let value = self.peek(len);
        self.len = self.len - len;
        self.value = self.value & !(!0u64 << self.len);
        value
    }

    /// Adds `len` bits of `value` at the low end.
    pub fn put(&mut self, len: u8, value: u64)
        requires
            len < 64,
            old(self).len + len <= 255,
        ensures
            final(self).len == old(self).len + len,
            final(self).value == (old(self).value << (len as u64)) ^ value,
    {
        self.value = self.value << len ^ value;
        self.len = self.len + len;
    }
}

/// First in, first out: a queue holding the `m` clean bits `value` that is
/// given `l` more bits `v` (`q` after `put(l, v)`) gives `value` back on
/// `get(m)`, which leaves exactly `v` held, and `get(l)` then gives `v`.
pub proof fn law_bit_queue_fifo(value: u64, m: u64, v: u64, l: u64)
    requires
        m + l < 64,
        value < (1u64 << m),
        v < (1u64 << l),
    ensures
        ({
            let q = (value << l) ^ v;
            let rest = q & !(!0u64 << l);
            &&& q >> l == value
            &&& rest == v
            &&& rest >> 0u64 == v
            &&& rest & !(!0u64 << 0u64) == 0
        }),
{
    assert(((value << l) ^ v) >> l == value) by (bit_vector)
        requires
            m + l < 64,
            value < (1u64 << m),
            v < (1u64 << l),
    ;
    assert(((value << l) ^ v) & !(!0u64 << l) == v) by (bit_vector)
        requires
            m + l < 64,
            value < (1u64 << m),
            v < (1u64 << l),
    ;
    assert(v >> 0u64 == v) by (bit_vector);
    assert(v & !(!0u64 << 0u64) == 0) by (bit_vector);
}

} // verus!
