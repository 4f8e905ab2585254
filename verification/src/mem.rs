//! Byte comparisons and copies within one buffer. Reads past the end of the
//! buffer give zero.
use vstd::prelude::*;

verus! {

/// The byte at `i`, or zero past either end.
pub open spec fn byte_at(s: Seq<u8>, i: int) -> u8 {
    if 0 <= i < s.len() {
        s[i]
    } else {
        0
    }
}

/// The `n` bytes from `p` equal the `n` bytes from `q`.
pub open spec fn bytes_match(s: Seq<u8>, p: int, q: int, n: int) -> bool {
    forall|k: int| 0 <= k < n ==> #[trigger] byte_at(s, p + k) == byte_at(s, q + k)
}

/// The length of the common prefix of the bytes from `p` and from `q`,
/// counted from `i` on and at most `max`.
pub open spec fn common_prefix_len(s: Seq<u8>, p: int, q: int, max: int, i: int) -> int
    decreases max - i,
{
    if i >= max {
        max
    } else if byte_at(s, p + i) != byte_at(s, q + i) {
        i
    } else {
        common_prefix_len(s, p, q, max, i + 1)
    }
}

/// The byte at `i`, or zero past the end.
pub fn read_byte(buf: &[u8], i: usize) -> (b: u8)
    ensures
        b == byte_at(buf@, i as int),
{
    if i < buf.len() {
        buf[i]
    } else {
        0
    }
}

/// The length of the common prefix of the bytes from `p1` and from `p2`,
/// at most `max_len`.
pub fn mem_fast_common_prefix(buf: &[u8], p1: usize, p2: usize, max_len: usize) -> (r: usize)
    requires
        p1 + max_len <= usize::MAX,
        p2 + max_len <= usize::MAX,
    ensures
        r <= max_len,
        bytes_match(buf@, p1 as int, p2 as int, r as int),
        r < max_len ==> byte_at(buf@, p1 + r) != byte_at(buf@, p2 + r),
        r == common_prefix_len(buf@, p1 as int, p2 as int, max_len as int, 0),
{
    let mut l: usize = 0;
    while l < max_len
        invariant
            l <= max_len,
            p1 + max_len <= usize::MAX,
            p2 + max_len <= usize::MAX,
            bytes_match(buf@, p1 as int, p2 as int, l as int),
            common_prefix_len(buf@, p1 as int, p2 as int, max_len as int, 0) == common_prefix_len(
                buf@,
                p1 as int,
                p2 as int,
                max_len as int,
                l as int,
            ),
        decreases max_len - l,
    {
        if read_byte(buf, p1 + l) != read_byte(buf, p2 + l) {
            return l;
        }
        l = l + 1;
    }
    l
}

/// Whether the `len` bytes from `p1` equal the `len` bytes from `p2`.
pub fn mem_fast_equal(buf: &[u8], p1: usize, p2: usize, len: usize) -> (r: bool)
    requires
        p1 + len <= usize::MAX,
        p2 + len <= usize::MAX,
    ensures
        r == bytes_match(buf@, p1 as int, p2 as int, len as int),
{
    let l = mem_fast_common_prefix(buf, p1, p2, len);
    l == len
}

/// Copies `len` bytes from `psrc` to `pdst` one at a time, front to back,
/// so that an overlapping copy repeats the bytes between the two.
pub fn mem_fast_copy(buf: &mut Vec<u8>, psrc: usize, pdst: usize, len: usize)
    requires
        psrc < pdst,
        pdst + len <= old(buf).len(),
    ensures
        final(buf).len() == old(buf).len(),
        forall|j: int| 0 <= j < old(buf).len() && !(pdst <= j < pdst + len) ==> #[trigger] final(buf)@[j] == old(buf)@[j],
        forall|k: int| 0 <= k < len ==> #[trigger] final(buf)@[pdst + k] == final(buf)@[psrc + k],
{
    let mut k: usize = 0;
    while k < len
        invariant
            psrc < pdst,
            pdst + len <= buf.len(),
            buf.len() == old(buf).len(),
            k <= len,
            forall|j: int| 0 <= j < buf.len() && !(pdst <= j < pdst + k) ==> #[trigger] buf@[j] == old(buf)@[j],
            forall|i: int| 0 <= i < k ==> #[trigger] buf@[pdst + i] == buf@[psrc + i],
        decreases len - k,
    {
        let b = buf[psrc + k];
        buf.set(pdst + k, b);
        k = k + 1;
    }
}

} // verus!
