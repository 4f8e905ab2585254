//! Match finding: per-context ring buffers of earlier positions, and hash
//! chains over them that lead to earlier occurrences of the same bytes.
use vstd::prelude::*;
use vstd::arithmetic::div_mod::{lemma_small_mod, lemma_fundamental_div_mod_converse};
use crate::mem::{byte_at, bytes_match, read_byte, mem_fast_common_prefix, mem_fast_equal, common_prefix_len};
use crate::{LZ_MATCH_MAX_LEN, LZ_MATCH_MIN_LEN, LZ_MF_BUCKET_ITEM_SIZE};

verus! {

/// Number of hash chains per bucket.
pub const LZ_MF_BUCKET_ITEM_HASH_SIZE: usize = 4627;

/// Positions are kept in 25 bits.
pub const LZ_POS_LIMIT: usize = 0x200_0000;

/// The hash of the four bytes at `pos`.
pub open spec fn hash_dword_spec(s: Seq<u8>, pos: int) -> u32 {
    let h0 = (byte_at(s, pos) as u32).wrapping_mul(131313131u32) ^ 797u32;
    let h1 = (byte_at(s, pos + 1) as u32).wrapping_mul(1313131u32) ^ 79797u32;
    let h2 = (byte_at(s, pos + 2) as u32).wrapping_mul(13131u32) ^ 7979797u32;
    let h3 = (byte_at(s, pos + 3) as u32).wrapping_mul(131u32) ^ 797979797u32;
    h0.wrapping_add(h1).wrapping_add(h2).wrapping_add(h3)
}

/// `v1 + v2` around the ring of bucket nodes.
pub open spec fn ring_add(v1: int, v2: int) -> int {
    (v1 + v2) % (LZ_MF_BUCKET_ITEM_SIZE as int)
}

/// `v1 - v2` around the ring of bucket nodes.
pub open spec fn ring_sub(v1: int, v2: int) -> int {
    (v1 + LZ_MF_BUCKET_ITEM_SIZE - v2) % (LZ_MF_BUCKET_ITEM_SIZE as int)
}

/// Subtracting the distance back to a node gives the node.
pub proof fn lemma_ring_sub_inverse(h: int, m: int)
    requires
        0 <= h < LZ_MF_BUCKET_ITEM_SIZE,
        0 <= m < LZ_MF_BUCKET_ITEM_SIZE,
    ensures
        0 <= ring_sub(h, m) < LZ_MF_BUCKET_ITEM_SIZE,
        ring_sub(h, ring_sub(h, m)) == m,
{
    let s = LZ_MF_BUCKET_ITEM_SIZE as int;
    if h >= m {
        lemma_fundamental_div_mod_converse(h + s - m, s, 1, h - m);
        lemma_fundamental_div_mod_converse(h + s - (h - m), s, 1, m);
    } else {
        lemma_small_mod((h + s - m) as nat, s as nat);
        lemma_small_mod((h + s - (h + s - m)) as nat, s as nat);
    }
}

/// `v1 + v2` around the ring of bucket nodes.
fn node_size_bounded_add(v1: usize, v2: usize) -> (r: usize)
    requires
        v1 + v2 <= usize::MAX,
    ensures
        r == ring_add(v1 as int, v2 as int),
        r < LZ_MF_BUCKET_ITEM_SIZE,
{
    (v1 + v2) % LZ_MF_BUCKET_ITEM_SIZE
}

/// `v1 - v2` around the ring of bucket nodes.
fn node_size_bounded_sub(v1: usize, v2: usize) -> (r: usize)
    requires
        v1 < LZ_MF_BUCKET_ITEM_SIZE,
        v2 <= LZ_MF_BUCKET_ITEM_SIZE,
    ensures
        r == ring_sub(v1 as int, v2 as int),
        r < LZ_MF_BUCKET_ITEM_SIZE,
{
    (v1 + LZ_MF_BUCKET_ITEM_SIZE - v2) % LZ_MF_BUCKET_ITEM_SIZE
}

/// The hash of the four bytes at `pos`: each byte times its multiplier,
/// xor its constant, all summed, modulo `2^32`.
pub fn hash_dword(buf: &[u8], pos: usize) -> (r: usize)
    requires
        pos + 3 <= usize::MAX,
    ensures
        r == hash_dword_spec(buf@, pos as int),
{
    let h0 = (read_byte(buf, pos) as u32).wrapping_mul(131313131u32) ^ 797u32;
    let h1 = (read_byte(buf, pos + 1) as u32).wrapping_mul(1313131u32) ^ 79797u32;
    let h2 = (read_byte(buf, pos + 2) as u32).wrapping_mul(13131u32) ^ 7979797u32;
    let h3 = (read_byte(buf, pos + 3) as u32).wrapping_mul(131u32) ^ 797979797u32;
    h0.wrapping_add(h1).wrapping_add(h2).wrapping_add(h3) as usize
}

/// A match: how far back its node is, its length, and the two length
/// hints of its node (`match_len` zero: no match).
pub struct Match {
    pub reduced_offset: usize,
    pub match_len: usize,
    pub match_len_expected: usize,
    pub match_len_min: usize,
}

impl Default for Match {
    /// No match.
    fn default() -> (r: Self)
        ensures
            r.reduced_offset == 0,
            r.match_len == 0,
            r.match_len_expected == 0,
            r.match_len_min == 0,
    {
        Match { reduced_offset: 0, match_len: 0, match_len_expected: 0, match_len_min: 0 }
    }
}

/// A node's position and the shortest length a newer match against it can have.
pub struct MatchPosAndLenMin {
    pub pos: u32,
    pub match_len_min: u8,
}

/// The match length found when the node's own position was searched.
pub struct MatchLenExpected {
    pub match_len_expected: u8,
}

/// A ring of the latest positions seen in one context. For each node:
/// its position, `match_len_min` (one more than the longest match a newer
/// position made against it, at most 127, else 0) and `match_len_expected`
/// (the length of the match its own position made, 0 for none).
pub struct Bucket {
    pub pos: Vec<u32>,
    pub len_min: Vec<u8>,
    pub len_expected: Vec<u8>,
    pub head: usize,
}

/// A bucket as contracts see it.
pub struct BucketModel {
    pub pos: Seq<u32>,
    pub len_min: Seq<u8>,
    pub len_expected: Seq<u8>,
    pub head: int,
}

/// What `Bucket::update` makes of a bucket.
pub open spec fn bucket_update(b: BucketModel, pos: int, reduced_offset: int, match_len: int) -> BucketModel {
    let new_head = ring_add(b.head, 1);
    let node = ring_sub(b.head, reduced_offset);
    let raised = if match_len >= LZ_MATCH_MIN_LEN && b.len_min[node] <= match_len {
        b.len_min.update(node, if match_len + 1 < 127 { (match_len + 1) as u8 } else { 127u8 })
    } else {
        b.len_min
    };
    BucketModel {
        pos: b.pos.update(new_head, pos as u32),
        len_min: raised.update(new_head, 0u8),
        len_expected: b.len_expected.update(new_head, match_len as u8),
        head: new_head,
    }
}

/// A position moved `f` back, or zero where it would go below.
pub open spec fn shift_pos(p: u32, f: int) -> u32 {
    if p >= f {
        (p - f) as u32
    } else {
        0
    }
}

/// What `Bucket::forward` makes of a bucket: every position moved back.
pub open spec fn bucket_forward(b: BucketModel, f: int) -> BucketModel {
    BucketModel { pos: b.pos.map_values(|p: u32| shift_pos(p, f)), ..b }
}

impl Bucket {
    /// The bucket's contents.
    pub open spec fn model(&self) -> BucketModel {
        BucketModel { pos: self.pos@, len_min: self.len_min@, len_expected: self.len_expected@, head: self.head as int }
    }

    pub open spec fn wf(&self) -> bool {
        &&& self.pos.len() == LZ_MF_BUCKET_ITEM_SIZE
        &&& self.len_min.len() == LZ_MF_BUCKET_ITEM_SIZE
        &&& self.len_expected.len() == LZ_MF_BUCKET_ITEM_SIZE
        &&& self.head < LZ_MF_BUCKET_ITEM_SIZE
        &&& forall|i: int| 0 <= i < LZ_MF_BUCKET_ITEM_SIZE ==> (#[trigger] self.pos@[i]) < LZ_POS_LIMIT
        &&& forall|i: int| 0 <= i < LZ_MF_BUCKET_ITEM_SIZE ==> (#[trigger] self.len_min@[i]) < 128
    }

    /// The node that a match `reduced_offset` nodes back refers to.
    pub open spec fn node_at(&self, reduced_offset: int) -> int {
        ring_sub(self.head as int, reduced_offset)
    }

    /// An empty ring: every node at position 0 with no hints, head at node 0.
    pub fn new() -> (r: Self)
        ensures
            r.wf(),
            r.head == 0,
            forall|i: int| 0 <= i < LZ_MF_BUCKET_ITEM_SIZE ==> #[trigger] r.pos@[i] == 0,
            forall|i: int| 0 <= i < LZ_MF_BUCKET_ITEM_SIZE ==> #[trigger] r.len_min@[i] == 0,
            forall|i: int| 0 <= i < LZ_MF_BUCKET_ITEM_SIZE ==> #[trigger] r.len_expected@[i] == 0,
    {
        let mut pos: Vec<u32> = Vec::new();
        let mut len_min: Vec<u8> = Vec::new();
        let mut len_expected: Vec<u8> = Vec::new();
        for i in 0..LZ_MF_BUCKET_ITEM_SIZE
            invariant
                pos.len() == i,
                len_min.len() == i,
                len_expected.len() == i,
                forall|j: int| 0 <= j < i ==> #[trigger] pos@[j] == 0,
                forall|j: int| 0 <= j < i ==> #[trigger] len_min@[j] == 0,
                forall|j: int| 0 <= j < i ==> #[trigger] len_expected@[j] == 0,
        {
            pos.push(0);
            len_min.push(0);
            len_expected.push(0);
        }
        Bucket { pos, len_min, len_expected, head: 0 }
    }

    /// Records position `pos`, matched `match_len` bytes against the node
    /// `reduced_offset` back (no match: zero), in the next node. A match of
    /// at least the minimal length raises the matched node's
    /// `match_len_min` to `match_len + 1` (at most 127) if it was not above
    /// `match_len`.
    pub fn update(&mut self, pos: usize, reduced_offset: usize, match_len: usize)
        requires
            old(self).wf(),
            pos < LZ_POS_LIMIT,
            reduced_offset < LZ_MF_BUCKET_ITEM_SIZE,
            match_len < 256,
        ensures
            final(self).wf(),
            final(self).model() == bucket_update(old(self).model(), pos as int, reduced_offset as int, match_len as int),
            final(self).head == ring_add(old(self).head as int, 1),
            final(self).pos@ == old(self).pos@.update(final(self).head as int, pos as u32),
            final(self).len_expected@ == old(self).len_expected@.update(final(self).head as int, match_len as u8),
            final(self).len_min@ == ({
                let node = old(self).node_at(reduced_offset as int);
                let raised = if match_len >= LZ_MATCH_MIN_LEN && old(self).len_min@[node] <= match_len {
                    old(self).len_min@.update(node, if match_len + 1 < 127 { (match_len + 1) as u8 } else { 127u8 })
                } else {
                    old(self).len_min@
                };
                raised.update(final(self).head as int, 0u8)
            }),
    {
        let new_head = node_size_bounded_add(self.head, 1);
        if match_len >= LZ_MATCH_MIN_LEN {
            let node_index = node_size_bounded_sub(self.head, reduced_offset);
            if self.len_min[node_index] as usize <= match_len {
                let v: u8 = if match_len + 1 < 127 { (match_len + 1) as u8 } else { 127 };
                self.len_min.set(node_index, v);
            }
        }
        self.pos.set(new_head, pos as u32);
        self.len_min.set(new_head, 0);
        self.len_expected.set(new_head, match_len as u8);
        self.head = new_head;
    }

    /// Moves every position `forward_len` back (not below zero).
    pub fn forward(&mut self, forward_len: usize)
        requires
            old(self).wf(),
        ensures
            final(self).wf(),
            final(self).head == old(self).head,
            final(self).len_min@ == old(self).len_min@,
            final(self).len_expected@ == old(self).len_expected@,
            forall|i: int| 0 <= i < LZ_MF_BUCKET_ITEM_SIZE ==> #[trigger] final(self).pos@[i] == (if old(self).pos@[i]
                >= forward_len { old(self).pos@[i] - forward_len } else { 0 }),
            final(self).model() == bucket_forward(old(self).model(), forward_len as int),
    {
        for i in 0..LZ_MF_BUCKET_ITEM_SIZE
            invariant
                self.wf(),
                self.head == old(self).head,
                self.len_min@ == old(self).len_min@,
                self.len_expected@ == old(self).len_expected@,
                forall|j: int| 0 <= j < i ==> #[trigger] self.pos@[j] == (if old(self).pos@[j] >= forward_len {
                    old(self).pos@[j] - forward_len
                } else {
                    0
                }),
                forall|j: int| i <= j < LZ_MF_BUCKET_ITEM_SIZE ==> #[trigger] self.pos@[j] == old(self).pos@[j],
        {
            let p = self.pos[i] as usize;
            let q: u32 = if p >= forward_len { (p - forward_len) as u32 } else { 0 };
            self.pos.set(i, q);
        }
        proof {
            assert(self.pos@ =~= old(self).pos@.map_values(|p: u32| shift_pos(p, forward_len as int)));
        }
    }

    /// The node `reduced_offset` nodes back from the head.
    pub fn get_match_node_index(&self, reduced_offset: usize) -> (r: usize)
        requires
            self.wf(),
            reduced_offset <= LZ_MF_BUCKET_ITEM_SIZE,
        ensures
            r == self.node_at(reduced_offset as int),
            r < LZ_MF_BUCKET_ITEM_SIZE,
    {
        node_size_bounded_sub(self.head, reduced_offset)
    }

    /// A node's position and `match_len_min`.
    pub fn get_match_pos_and_len_min(&self, node_index: usize) -> (r: MatchPosAndLenMin)
        requires
            self.wf(),
            node_index < LZ_MF_BUCKET_ITEM_SIZE,
        ensures
            r.pos == self.pos@[node_index as int],
            r.match_len_min == self.len_min@[node_index as int],
    {
        MatchPosAndLenMin { pos: self.pos[node_index], match_len_min: self.len_min[node_index] }
    }

    /// A node's `match_len_expected`.
    pub fn get_match_len_expected(&self, node_index: usize) -> (r: MatchLenExpected)
        requires
            self.wf(),
            node_index < LZ_MF_BUCKET_ITEM_SIZE,
        ensures
            r.match_len_expected == self.len_expected@[node_index as int],
    {
        MatchLenExpected { match_len_expected: self.len_expected[node_index] }
    }
}

/// A chain link: a node, or -1 for none.
pub open spec fn link_ok(x: i16) -> bool {
    x == -1 || (0 <= x < LZ_MF_BUCKET_ITEM_SIZE)
}

/// Hash chains over one bucket's nodes: `heads[e]` is the latest node whose
/// four bytes hash to `e`, `nexts[i]` the node before node `i` in its chain
/// (-1: none).
pub struct BucketMatcher {
    pub heads: Vec<i16>,
    pub nexts: Vec<i16>,
}

/// The `k`-th node of the chain that starts at `heads[entry]` and follows
/// `nexts`, while positions decrease; `None` past its end.
pub open spec fn chain_node(heads: Seq<i16>, nexts: Seq<i16>, bpos: Seq<u32>, entry: int, k: nat) -> Option<int>
    decreases k,
{
    if k == 0 {
        if heads[entry] < 0 {
            None
        } else {
            Some(heads[entry] as int)
        }
    } else {
        match chain_node(heads, nexts, bpos, entry, (k - 1) as nat) {
            None => None,
            Some(n) => {
                let nx = nexts[n];
                if nx < 0 || bpos[n] <= bpos[nx as int] {
                    None
                } else {
                    Some(nx as int)
                }
            },
        }
    }
}

/// The best match found walking the chain from its `k`-th node, at most
/// `depth` nodes in all, from the best so far `(length, match_len_min,
/// match_len_expected, node)`: a node is compared in full only if its four
/// bytes ending at the best length agree, a longer match replaces the best,
/// and the walk stops at a match of the longest length or one longer than
/// the best node's `match_len_expected`.
pub open spec fn match_walk(
    heads: Seq<i16>,
    nexts: Seq<i16>,
    bucket: BucketModel,
    buf: Seq<u8>,
    pos: int,
    entry: int,
    depth: int,
    k: nat,
    best: (int, int, int, int),
) -> (int, int, int, int)
    decreases depth - k,
{
    if k >= depth {
        best
    } else {
        match chain_node(heads, nexts, bucket.pos, entry, k) {
            None => best,
            Some(n) => {
                let np = bucket.pos[n] as int;
                let ml = best.0;
                if !bytes_match(buf, np + ml - 3, pos + ml - 3, 4) {
                    match_walk(heads, nexts, bucket, buf, pos, entry, depth, k + 1, best)
                } else {
                    let lcp = common_prefix_len(buf, np, pos, LZ_MATCH_MAX_LEN as int, 0);
                    let b2 = if lcp > ml {
                        (lcp, bucket.len_min[n] as int, bucket.len_expected[n] as int, n)
                    } else {
                        best
                    };
                    if lcp == LZ_MATCH_MAX_LEN || (b2.2 > 0 && lcp > b2.2) {
                        b2
                    } else {
                        match_walk(heads, nexts, bucket, buf, pos, entry, depth, k + 1, b2)
                    }
                }
            },
        }
    }
}

/// Past the chain's end there are no more nodes.
pub proof fn lemma_chain_end(heads: Seq<i16>, nexts: Seq<i16>, bpos: Seq<u32>, entry: int, k1: nat, k2: nat)
    requires
        k1 <= k2,
        chain_node(heads, nexts, bpos, entry, k1) is None,
    ensures
        chain_node(heads, nexts, bpos, entry, k2) is None,
    decreases k2,
{
    if k1 < k2 {
        lemma_chain_end(heads, nexts, bpos, entry, k1, (k2 - 1) as nat);
    }
}

/// Some node among the first `depth` of the chain agrees with the `len`
/// bytes at `pos`.
pub open spec fn chain_has_match(
    heads: Seq<i16>,
    nexts: Seq<i16>,
    bpos: Seq<u32>,
    buf: Seq<u8>,
    pos: int,
    entry: int,
    len: int,
    depth: int,
) -> bool {
    exists|k: nat| k < depth && node_matches(#[trigger] chain_node(heads, nexts, bpos, entry, k), bpos, buf, pos, len)
}

/// A chain node whose bytes agree with the `len` bytes at `pos`.
pub open spec fn node_matches(node: Option<int>, bpos: Seq<u32>, buf: Seq<u8>, pos: int, len: int) -> bool {
    match node {
        Some(n) => bytes_match(buf, bpos[n] as int, pos, len),
        None => false,
    }
}

/// What `find_match` returns, as `(reduced offset, length, expected length
/// hint, shortest length hint)`: the best match of the walk if it is at
/// least `LZ_MATCH_MIN_LEN` long and ends before the end of `buf`, the hints
/// at least `LZ_MATCH_MIN_LEN`; all zero otherwise.
pub open spec fn found_match(heads: Seq<i16>, nexts: Seq<i16>, bucket: BucketModel, buf: Seq<u8>, pos: int, depth: int) -> (
    int,
    int,
    int,
    int,
) {
    let best = match_walk(
        heads,
        nexts,
        bucket,
        buf,
        pos,
        match_entry(buf, pos),
        depth,
        0,
        (LZ_MATCH_MIN_LEN - 1, LZ_MATCH_MIN_LEN as int, LZ_MATCH_MIN_LEN as int, 0),
    );
    if best.0 >= LZ_MATCH_MIN_LEN && pos + best.0 < buf.len() {
        (
            ring_sub(bucket.head, best.3),
            best.0,
            if best.2 > LZ_MATCH_MIN_LEN { best.2 } else { LZ_MATCH_MIN_LEN as int },
            if best.1 > LZ_MATCH_MIN_LEN { best.1 } else { LZ_MATCH_MIN_LEN as int },
        )
    } else {
        (0, 0, 0, 0)
    }
}

/// A matcher's chains once node `head` starts the chain of the bytes at `pos`.
pub open spec fn matcher_update(mat: (Seq<i16>, Seq<i16>), head: int, buf: Seq<u8>, pos: int) -> (Seq<i16>, Seq<i16>) {
    let e = match_entry(buf, pos);
    (mat.0.update(e, head as i16), mat.1.update(head, mat.0[e]))
}

/// The hash table entry of the bytes at `pos`.
pub open spec fn match_entry(buf: Seq<u8>, pos: int) -> int {
    hash_dword_spec(buf, pos) as int % (LZ_MF_BUCKET_ITEM_HASH_SIZE as int)
}

impl BucketMatcher {
    pub open spec fn wf(&self) -> bool {
        &&& self.heads.len() == LZ_MF_BUCKET_ITEM_HASH_SIZE
        &&& self.nexts.len() == LZ_MF_BUCKET_ITEM_SIZE
        &&& forall|e: int| 0 <= e < LZ_MF_BUCKET_ITEM_HASH_SIZE ==> link_ok(#[trigger] self.heads@[e])
        &&& forall|i: int| 0 <= i < LZ_MF_BUCKET_ITEM_SIZE ==> link_ok(#[trigger] self.nexts@[i])
    }

    /// Empty chains.
    pub fn new() -> (r: Self)
        ensures
            r.wf(),
            forall|e: int| 0 <= e < LZ_MF_BUCKET_ITEM_HASH_SIZE ==> #[trigger] r.heads@[e] == -1,
            forall|i: int| 0 <= i < LZ_MF_BUCKET_ITEM_SIZE ==> #[trigger] r.nexts@[i] == -1,
    {
        let mut heads: Vec<i16> = Vec::new();
        for e in 0..LZ_MF_BUCKET_ITEM_HASH_SIZE
            invariant
                heads.len() == e,
                forall|j: int| 0 <= j < e ==> #[trigger] heads@[j] == -1,
        {
            heads.push(-1);
        }
        let mut nexts: Vec<i16> = Vec::new();
        for i in 0..LZ_MF_BUCKET_ITEM_SIZE
            invariant
                nexts.len() == i,
                forall|j: int| 0 <= j < i ==> #[trigger] nexts@[j] == -1,
        {
            nexts.push(-1);
        }
        BucketMatcher { heads, nexts }
    }

    /// Puts the bucket's head node, just written for position `pos`, at the
    /// front of the chain of the hash of the four bytes at `pos`.
    pub fn update(&mut self, bucket: &Bucket, buf: &[u8], pos: usize)
        requires
            old(self).wf(),
            bucket.wf(),
            pos < LZ_POS_LIMIT,
        ensures
            final(self).wf(),
            ({
                let e = hash_dword_spec(buf@, pos as int) as int % (LZ_MF_BUCKET_ITEM_HASH_SIZE as int);
                &&& final(self).nexts@ == old(self).nexts@.update(bucket.head as int, old(self).heads@[e])
                &&& final(self).heads@ == old(self).heads@.update(e, bucket.head as i16)
            }),
            (final(self).heads@, final(self).nexts@) == matcher_update(
                (old(self).heads@, old(self).nexts@),
                bucket.head as int,
                buf@,
                pos as int,
            ),
    {
        let head = bucket.head;
        let entry = hash_dword(buf, pos) % LZ_MF_BUCKET_ITEM_HASH_SIZE;
        let h = self.heads[entry];
        self.nexts.set(head, h);
        self.heads.set(entry, head as i16);
    }

    /// Cuts every link to a node whose position has become zero.
    pub fn forward(&mut self, bucket: &Bucket)
        requires
            old(self).wf(),
            bucket.wf(),
        ensures
            final(self).wf(),
            forall|e: int| 0 <= e < LZ_MF_BUCKET_ITEM_HASH_SIZE ==> #[trigger] final(self).heads@[e] == (if old(
                self,
            ).heads@[e] != -1 && bucket.pos@[old(self).heads@[e] as int] == 0 { -1i16 } else { old(self).heads@[e] }),
            forall|i: int| 0 <= i < LZ_MF_BUCKET_ITEM_SIZE ==> #[trigger] final(self).nexts@[i] == (if old(
                self,
            ).nexts@[i] != -1 && bucket.pos@[old(self).nexts@[i] as int] == 0 { -1i16 } else { old(self).nexts@[i] }),
    {
        for e in 0..LZ_MF_BUCKET_ITEM_HASH_SIZE
            invariant
                self.wf(),
                bucket.wf(),
                self.nexts@ == old(self).nexts@,
                forall|j: int| 0 <= j < e ==> #[trigger] self.heads@[j] == (if old(self).heads@[j] != -1
                    && bucket.pos@[old(self).heads@[j] as int] == 0 { -1i16 } else { old(self).heads@[j] }),
                forall|j: int| e <= j < LZ_MF_BUCKET_ITEM_HASH_SIZE ==> #[trigger] self.heads@[j] == old(self).heads@[j],
        {
            let h = self.heads[e];
            if h != -1 && bucket.pos[h as usize] == 0 {
                self.heads.set(e, -1);
            }
        }
        for i in 0..LZ_MF_BUCKET_ITEM_SIZE
            invariant
                self.wf(),
                bucket.wf(),
                forall|j: int| 0 <= j < LZ_MF_BUCKET_ITEM_HASH_SIZE ==> #[trigger] self.heads@[j] == (if old(self).heads@[j]
                    != -1 && bucket.pos@[old(self).heads@[j] as int] == 0 { -1i16 } else { old(self).heads@[j] }),
                forall|j: int| 0 <= j < i ==> #[trigger] self.nexts@[j] == (if old(self).nexts@[j] != -1
                    && bucket.pos@[old(self).nexts@[j] as int] == 0 { -1i16 } else { old(self).nexts@[j] }),
                forall|j: int| i <= j < LZ_MF_BUCKET_ITEM_SIZE ==> #[trigger] self.nexts@[j] == old(self).nexts@[j],
        {
            let x = self.nexts[i];
            if x != -1 && bucket.pos[x as usize] == 0 {
                self.nexts.set(i, -1);
            }
        }
    }

    /// Walks the chain of the hash of the bytes at `pos` for at most
    /// `match_depth` nodes (stopping where positions stop decreasing) and
    /// keeps the longest match of at least `LZ_MATCH_MIN_LEN` bytes (at most
    /// `LZ_MATCH_MAX_LEN`). A candidate is compared in full only if its four
    /// bytes ending at the current best length agree; the walk stops at a
    /// match of the longest length, or one longer than the best node's
    /// `match_len_expected`. A match that would reach the end of `buf` is
    /// not returned. Unless it has the longest length, the bytes right
    /// after the match differ. The hints are the node's, so a match may be
    /// shorter than its `match_len_min`.
    pub fn find_match(&self, bucket: &Bucket, buf: &[u8], pos: usize, match_depth: usize) -> (r: Match)
        requires
            self.wf(),
            bucket.wf(),
            pos < LZ_POS_LIMIT,
        ensures
            r.match_len == 0 ==> r.reduced_offset == 0 && r.match_len_expected == 0 && r.match_len_min == 0,
            r.match_len != 0 ==> {
                let node = bucket.node_at(r.reduced_offset as int);
                &&& LZ_MATCH_MIN_LEN <= r.match_len <= LZ_MATCH_MAX_LEN
                &&& pos + r.match_len < buf.len()
                &&& r.reduced_offset < LZ_MF_BUCKET_ITEM_SIZE
                &&& 0 <= node < LZ_MF_BUCKET_ITEM_SIZE
                &&& bytes_match(buf@, bucket.pos@[node] as int, pos as int, r.match_len as int)
                &&& r.match_len == LZ_MATCH_MAX_LEN || byte_at(buf@, bucket.pos@[node] + r.match_len) != byte_at(
                    buf@,
                    pos + r.match_len,
                )
                &&& r.match_len_expected == (if bucket.len_expected@[node] > LZ_MATCH_MIN_LEN {
                    bucket.len_expected@[node] as usize
                } else {
                    LZ_MATCH_MIN_LEN
                })
                &&& r.match_len_min == (if bucket.len_min@[node] > LZ_MATCH_MIN_LEN {
                    bucket.len_min@[node] as usize
                } else {
                    LZ_MATCH_MIN_LEN
                })
            },
            ({
                let best = match_walk(
                    self.heads@,
                    self.nexts@,
                    bucket.model(),
                    buf@,
                    pos as int,
                    match_entry(buf@, pos as int),
                    match_depth as int,
                    0,
                    (LZ_MATCH_MIN_LEN - 1, LZ_MATCH_MIN_LEN as int, LZ_MATCH_MIN_LEN as int, 0),
                );
                if best.0 >= LZ_MATCH_MIN_LEN && pos + best.0 < buf.len() {
                    &&& r.match_len == best.0
                    &&& r.reduced_offset == ring_sub(bucket.head as int, best.3)
                    &&& r.match_len_expected == (if best.2 > LZ_MATCH_MIN_LEN { best.2 } else { LZ_MATCH_MIN_LEN as int })
                    &&& r.match_len_min == (if best.1 > LZ_MATCH_MIN_LEN { best.1 } else { LZ_MATCH_MIN_LEN as int })
                } else {
                    r.match_len == 0
                }
            }),
            (r.reduced_offset as int, r.match_len as int, r.match_len_expected as int, r.match_len_min as int)
                == found_match(self.heads@, self.nexts@, bucket.model(), buf@, pos as int, match_depth as int),
    {
        let entry = hash_dword(buf, pos) % LZ_MF_BUCKET_ITEM_HASH_SIZE;
        let ghost init = (LZ_MATCH_MIN_LEN - 1, LZ_MATCH_MIN_LEN as int, LZ_MATCH_MIN_LEN as int, 0int);
        let ghost walk0 = match_walk(self.heads@, self.nexts@, bucket.model(), buf@, pos as int, entry as int,
            match_depth as int, 0, init);
        let h = self.heads[entry];
        if h < 0 {
            proof {
                assert(chain_node(self.heads@, self.nexts@, bucket.pos@, entry as int, 0) is None);
                assert(walk0 == init);
            }
            return Match::default();
        }
        let mut node_index = h as usize;
        let mut max_len: usize = LZ_MATCH_MIN_LEN - 1;
        let mut max_match_len_min: usize = LZ_MATCH_MIN_LEN;
        let mut max_match_len_expected: usize = LZ_MATCH_MIN_LEN;
        let mut max_node_index: usize = 0;
        let mut node_pos = bucket.pos[node_index] as usize;
        let mut d: usize = 0;
        while d < match_depth
            invariant_except_break
                chain_node(self.heads@, self.nexts@, bucket.pos@, entry as int, d as nat) == Some(node_index as int),
                walk0 == match_walk(
                    self.heads@,
                    self.nexts@,
                    bucket.model(),
                    buf@,
                    pos as int,
                    entry as int,
                    match_depth as int,
                    d as nat,
                    (max_len as int, max_match_len_min as int, max_match_len_expected as int, max_node_index as int),
                ),
            invariant
                self.wf(),
                bucket.wf(),
                pos < LZ_POS_LIMIT,
                node_index < LZ_MF_BUCKET_ITEM_SIZE,
                node_pos == bucket.pos@[node_index as int],
                LZ_MATCH_MIN_LEN - 1 <= max_len <= LZ_MATCH_MAX_LEN,
                max_len >= LZ_MATCH_MIN_LEN ==> {
                    &&& max_node_index < LZ_MF_BUCKET_ITEM_SIZE
                    &&& bytes_match(buf@, bucket.pos@[max_node_index as int] as int, pos as int, max_len as int)
                    &&& max_len == LZ_MATCH_MAX_LEN || byte_at(buf@, bucket.pos@[max_node_index as int] + max_len)
                        != byte_at(buf@, pos + max_len)
                    &&& max_match_len_min == bucket.len_min@[max_node_index as int]
                    &&& max_match_len_expected == bucket.len_expected@[max_node_index as int]
                },
                max_len < LZ_MATCH_MIN_LEN ==> max_match_len_min == LZ_MATCH_MIN_LEN && max_match_len_expected
                    == LZ_MATCH_MIN_LEN && max_node_index == 0,
                entry as int == match_entry(buf@, pos as int),
                walk0 == match_walk(self.heads@, self.nexts@, bucket.model(), buf@, pos as int, entry as int,
                    match_depth as int, 0, init),
            ensures
                walk0 == (max_len as int, max_match_len_min as int, max_match_len_expected as int, max_node_index as int),
            decreases match_depth - d,
        {
            let ghost cur = (max_len as int, max_match_len_min as int, max_match_len_expected as int, max_node_index as int);
            let ghost hs = self.heads@;
            let ghost ns = self.nexts@;
            let ghost bm = bucket.model();
            if mem_fast_equal(buf, node_pos + max_len - 3, pos + max_len - 3, 4) {
                let lcp = mem_fast_common_prefix(buf, node_pos, pos, LZ_MATCH_MAX_LEN);
                if lcp > max_len {
                    max_match_len_min = bucket.len_min[node_index] as usize;
                    max_match_len_expected = bucket.len_expected[node_index] as usize;
                    max_len = lcp;
                    max_node_index = node_index;
                }
                if lcp == LZ_MATCH_MAX_LEN {
                    proof {
                        assert(walk0 == (max_len as int, max_match_len_min as int, max_match_len_expected as int,
                            max_node_index as int));
                    }
                    break;
                }
                if max_match_len_expected > 0 && lcp > max_match_len_expected {
                    proof {
                        assert(walk0 == (max_len as int, max_match_len_min as int, max_match_len_expected as int,
                            max_node_index as int));
                    }
                    break;
                }
            }
            let ghost now = (max_len as int, max_match_len_min as int, max_match_len_expected as int, max_node_index as int);
            proof {
                assert(walk0 == match_walk(hs, ns, bm, buf@, pos as int, entry as int, match_depth as int, (d + 1) as nat, now));
            }
            let next = self.nexts[node_index];
            if next < 0 {
                proof {
                    assert(chain_node(hs, ns, bucket.pos@, entry as int, (d + 1) as nat) is None);
                    assert(walk0 == now);
                }
                break;
            }
            let node_pos_next = bucket.pos[next as usize] as usize;
            if node_pos <= node_pos_next {
                proof {
                    assert(chain_node(hs, ns, bucket.pos@, entry as int, (d + 1) as nat) is None);
                    assert(walk0 == now);
                }
                break;
            }
            proof {
                assert(chain_node(hs, ns, bucket.pos@, entry as int, (d + 1) as nat) == Some(next as int));
            }
            node_index = next as usize;
            node_pos = node_pos_next;
            d = d + 1;
        }
        if max_len >= LZ_MATCH_MIN_LEN && pos + max_len < buf.len() {
            let reduced_offset = node_size_bounded_sub(bucket.head, max_node_index);
            proof {
                lemma_ring_sub_inverse(bucket.head as int, max_node_index as int);
            }
            let match_len_expected = if max_match_len_expected > LZ_MATCH_MIN_LEN {
                max_match_len_expected
            } else {
                LZ_MATCH_MIN_LEN
            };
            let match_len_min = if max_match_len_min > LZ_MATCH_MIN_LEN { max_match_len_min } else { LZ_MATCH_MIN_LEN };
            return Match { reduced_offset, match_len: max_len, match_len_expected, match_len_min };
        }
        Match::default()
    }

    /// Whether, within `depth` nodes of the chain of the hash of the bytes at
    /// `pos` (stopping where positions stop decreasing), some node's bytes
    /// agree with the `min_match_len` bytes at `pos`.
    pub fn has_lazy_match(&self, bucket: &Bucket, buf: &[u8], pos: usize, min_match_len: usize, depth: usize) -> (r: bool)
        requires
            self.wf(),
            bucket.wf(),
            pos < LZ_POS_LIMIT,
            min_match_len <= LZ_POS_LIMIT,
        ensures
            r == chain_has_match(
                self.heads@,
                self.nexts@,
                bucket.pos@,
                buf@,
                pos as int,
                match_entry(buf@, pos as int),
                min_match_len as int,
                depth as int,
            ),
            r ==> exists|i: int| 0 <= i < LZ_MF_BUCKET_ITEM_SIZE && #[trigger] bytes_match(buf@, bucket.pos@[i] as int,
                pos as int, min_match_len as int),
    {
        let entry = hash_dword(buf, pos) % LZ_MF_BUCKET_ITEM_HASH_SIZE;
        let ghost hs = self.heads@;
        let ghost ns = self.nexts@;
        let ghost bp = bucket.pos@;
        let ghost e = entry as int;
        let h = self.heads[entry];
        if h < 0 {
            proof {
                assert forall|k: nat| k < depth implies !(#[trigger] chain_node(hs, ns, bp, e, k) is Some) by {
                    lemma_chain_end(hs, ns, bp, e, 0, k);
                }
            }
            return false;
        }
        let mut node_index = h as usize;
        let mut node_pos = bucket.pos[node_index] as usize;
        let mut d: usize = 0;
        while d < depth
            invariant_except_break
                chain_node(hs, ns, bp, e, d as nat) == Some(node_index as int),
            invariant
                self.wf(),
                bucket.wf(),
                pos < LZ_POS_LIMIT,
                min_match_len <= LZ_POS_LIMIT,
                node_index < LZ_MF_BUCKET_ITEM_SIZE,
                node_pos == bucket.pos@[node_index as int],
                hs == self.heads@,
                ns == self.nexts@,
                bp == bucket.pos@,
                e == match_entry(buf@, pos as int),
                forall|k: nat| k < d ==> !node_matches(#[trigger] chain_node(hs, ns, bp, e, k), bp, buf@, pos as int, min_match_len as int),
            ensures
                forall|k: nat| k < depth ==> !node_matches(#[trigger] chain_node(hs, ns, bp, e, k), bp, buf@, pos as int, min_match_len as int),
            decreases depth - d,
        {
            if mem_fast_equal(buf, node_pos, pos, min_match_len) {
                assert(bytes_match(buf@, bucket.pos@[node_index as int] as int, pos as int, min_match_len as int));
                assert(chain_node(hs, ns, bp, e, d as nat) == Some(node_index as int));
                return true;
            }
            let next = self.nexts[node_index];
            if next < 0 {
                proof {
                    assert(chain_node(hs, ns, bp, e, (d + 1) as nat) is None);
                    assert forall|k: nat| d < k < depth implies #[trigger] chain_node(hs, ns, bp, e, k) is None by {
                        lemma_chain_end(hs, ns, bp, e, (d + 1) as nat, k);
                    }
                }
                break;
            }
            let node_pos_next = bucket.pos[next as usize] as usize;
            if node_pos <= node_pos_next {
                proof {
                    assert(chain_node(hs, ns, bp, e, (d + 1) as nat) is None);
                    assert forall|k: nat| d < k < depth implies #[trigger] chain_node(hs, ns, bp, e, k) is None by {
                        lemma_chain_end(hs, ns, bp, e, (d + 1) as nat, k);
                    }
                }
                break;
            }
            proof {
                assert(chain_node(hs, ns, bp, e, (d + 1) as nat) == Some(next as int));
            }
            node_index = next as usize;
            node_pos = node_pos_next;
            d = d + 1;
        }
        false
    }
}

} // verus!
