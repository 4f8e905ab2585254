//! What a match search finds: no node it walks past has a longer common
//! prefix with the bytes at the position than the match it returns.
use vstd::prelude::*;
use crate::mem::{byte_at, bytes_match, common_prefix_len};
use crate::matcher::{BucketModel, chain_node, match_walk, found_match, match_entry, lemma_chain_end, ring_sub};
use crate::{LZ_MATCH_MAX_LEN, LZ_MATCH_MIN_LEN};

verus! {

/// The common prefix (at most `LZ_MATCH_MAX_LEN` bytes) of the bytes at
/// `pos` and those at the position of the `k`-th node of the chain of
/// `entry`; zero past the chain's end.
pub open spec fn node_prefix(
    heads: Seq<i16>,
    nexts: Seq<i16>,
    bucket: BucketModel,
    buf: Seq<u8>,
    pos: int,
    entry: int,
    k: nat,
) -> int {
    match chain_node(heads, nexts, bucket.pos, entry, k) {
        Some(n) => common_prefix_len(buf, bucket.pos[n] as int, pos, LZ_MATCH_MAX_LEN as int, 0),
        None => 0,
    }
}

/// A search may end at the `j`-th node: its common prefix is the longest
/// there is, or longer than the (nonzero) expected-length hint of a node no
/// later in the chain.
pub open spec fn may_stop_at(
    heads: Seq<i16>,
    nexts: Seq<i16>,
    bucket: BucketModel,
    buf: Seq<u8>,
    pos: int,
    entry: int,
    j: nat,
) -> bool {
    let l = node_prefix(heads, nexts, bucket, buf, pos, entry, j);
    ||| l == LZ_MATCH_MAX_LEN
    ||| exists|i: nat| i <= j && #[trigger] hint_at(heads, nexts, bucket, entry, i) > 0 && l > hint_at(heads, nexts, bucket, entry, i)
}

/// The expected-length hint of the `i`-th node of the chain of `entry`;
/// zero past the chain's end.
pub open spec fn hint_at(heads: Seq<i16>, nexts: Seq<i16>, bucket: BucketModel, entry: int, i: nat) -> int {
    match chain_node(heads, nexts, bucket.pos, entry, i) {
        Some(n) => bucket.len_expected[n] as int,
        None => 0,
    }
}

/// The bytes counted by a common prefix agree, and it is at most `max`.
proof fn lemma_prefix_agrees(s: Seq<u8>, p: int, q: int, max: int, i: int)
    requires
        0 <= i <= max,
    ensures
        i <= common_prefix_len(s, p, q, max, i) <= max,
        forall|t: int| i <= t < common_prefix_len(s, p, q, max, i) ==> #[trigger] byte_at(s, p + t) == byte_at(s, q + t),
    decreases max - i,
{
    if i < max && byte_at(s, p + i) == byte_at(s, q + i) {
        lemma_prefix_agrees(s, p, q, max, i + 1);
    }
}

/// Bytes that agree from `i` up to `m` give a common prefix of at least `m`.
proof fn lemma_prefix_at_least(s: Seq<u8>, p: int, q: int, max: int, i: int, m: int)
    requires
        0 <= i <= m <= max,
        forall|t: int| i <= t < m ==> #[trigger] byte_at(s, p + t) == byte_at(s, q + t),
    ensures
        common_prefix_len(s, p, q, max, i) >= m,
    decreases max - i,
{
    if i < m {
        assert(byte_at(s, p + i) == byte_at(s, q + i));
        lemma_prefix_at_least(s, p, q, max, i + 1, m);
    } else {
        lemma_prefix_agrees(s, p, q, max, i);
    }
}

/// A search never ends shorter than the best it started from.
proof fn lemma_walk_grows(
    heads: Seq<i16>,
    nexts: Seq<i16>,
    bucket: BucketModel,
    buf: Seq<u8>,
    pos: int,
    entry: int,
    depth: int,
    k: nat,
    best: (int, int, int, int),
)
    ensures
        match_walk(heads, nexts, bucket, buf, pos, entry, depth, k, best).0 >= best.0,
    decreases depth - k,
{
    if k < depth {
        match chain_node(heads, nexts, bucket.pos, entry, k) {
            None => {},
            Some(n) => {
                let ml = best.0;
                if !bytes_match(buf, bucket.pos[n] as int + ml - 3, pos + ml - 3, 4) {
                    lemma_walk_grows(heads, nexts, bucket, buf, pos, entry, depth, k + 1, best);
                } else {
                    let lcp = common_prefix_len(buf, bucket.pos[n] as int, pos, LZ_MATCH_MAX_LEN as int, 0);
                    let b2 = if lcp > ml {
                        (lcp, bucket.len_min[n] as int, bucket.len_expected[n] as int, n)
                    } else {
                        best
                    };
                    lemma_walk_grows(heads, nexts, bucket, buf, pos, entry, depth, k + 1, b2);
                }
            },
        }
    }
}

/// The best a search carries: the start (three bytes, hint four), or the
/// match of a node before the `k`-th, with that node's expected-length hint.
pub open spec fn best_ok(
    heads: Seq<i16>,
    nexts: Seq<i16>,
    bucket: BucketModel,
    entry: int,
    k: nat,
    best: (int, int, int, int),
) -> bool {
    ||| best.0 == LZ_MATCH_MIN_LEN - 1
    ||| best.0 >= LZ_MATCH_MIN_LEN && exists|i: nat|
        i < k && chain_node(heads, nexts, bucket.pos, entry, i) is Some && best.2 == #[trigger] hint_at(heads, nexts, bucket, entry, i)
}

/// From the `k0`-th node on, a search that has not passed a node where it
/// may end reaches the `k`-th node and ends at least as long as its prefix.
proof fn lemma_walk_covers(
    heads: Seq<i16>,
    nexts: Seq<i16>,
    bucket: BucketModel,
    buf: Seq<u8>,
    pos: int,
    entry: int,
    depth: int,
    k0: nat,
    best: (int, int, int, int),
    k: nat,
)
    requires
        k0 <= k < depth,
        chain_node(heads, nexts, bucket.pos, entry, k) is Some,
        forall|j: nat| k0 <= j < k ==> !#[trigger] may_stop_at(heads, nexts, bucket, buf, pos, entry, j),
        best_ok(heads, nexts, bucket, entry, k0, best),
        LZ_MATCH_MIN_LEN - 1 <= best.0,
    ensures
        match_walk(heads, nexts, bucket, buf, pos, entry, depth, k0, best).0 >= node_prefix(
            heads,
            nexts,
            bucket,
            buf,
            pos,
            entry,
            k,
        ),
    decreases k - k0,
{
    if chain_node(heads, nexts, bucket.pos, entry, k0) is None {
        lemma_chain_end(heads, nexts, bucket.pos, entry, k0, k);
    }
    let n = chain_node(heads, nexts, bucket.pos, entry, k0)->0;
    let np = bucket.pos[n] as int;
    let ml = best.0;
    let lcp = common_prefix_len(buf, np, pos, LZ_MATCH_MAX_LEN as int, 0);
    lemma_prefix_agrees(buf, np, pos, LZ_MATCH_MAX_LEN as int, 0);
    let pass = bytes_match(buf, np + ml - 3, pos + ml - 3, 4);
    if lcp > ml {
        assert(pass) by {
            assert forall|t: int| 0 <= t < 4 implies #[trigger] byte_at(buf, np + ml - 3 + t) == byte_at(
                buf,
                pos + ml - 3 + t,
            ) by {
                assert(byte_at(buf, np + (ml - 3 + t)) == byte_at(buf, pos + (ml - 3 + t)));
            }
        }
    }
    if !pass {
        assert(lcp <= ml);
        if k0 < k {
            lemma_walk_covers(heads, nexts, bucket, buf, pos, entry, depth, k0 + 1, best, k);
        } else {
            lemma_walk_grows(heads, nexts, bucket, buf, pos, entry, depth, k0 + 1, best);
        }
    } else {
        if ml == LZ_MATCH_MIN_LEN - 1 {
            // the first four bytes agree
            lemma_prefix_at_least(buf, np, pos, LZ_MATCH_MAX_LEN as int, 0, 4);
        }
        let b2 = if lcp > ml {
            (lcp, bucket.len_min[n] as int, bucket.len_expected[n] as int, n)
        } else {
            best
        };
        if lcp == LZ_MATCH_MAX_LEN || (b2.2 > 0 && lcp > b2.2) {
            if k0 < k {
                assert(may_stop_at(heads, nexts, bucket, buf, pos, entry, k0)) by {
                    if lcp != LZ_MATCH_MAX_LEN {
                        if lcp > ml {
                            assert(hint_at(heads, nexts, bucket, entry, k0) == b2.2);
                        } else {
                            assert(best.0 >= LZ_MATCH_MIN_LEN);
                            let i = choose|i: nat|
                                i < k0 && chain_node(heads, nexts, bucket.pos, entry, i) is Some && best.2
                                    == #[trigger] hint_at(heads, nexts, bucket, entry, i);
                            assert(hint_at(heads, nexts, bucket, entry, i) > 0);
                        }
                    }
                }
                assert(false);
            }
        } else {
            assert(best_ok(heads, nexts, bucket, entry, k0 + 1, b2)) by {
                if lcp > ml {
                    assert(hint_at(heads, nexts, bucket, entry, k0) == b2.2);
                } else if best.0 >= LZ_MATCH_MIN_LEN {
                    let i = choose|i: nat|
                        i < k0 && chain_node(heads, nexts, bucket.pos, entry, i) is Some && best.2
                            == #[trigger] hint_at(heads, nexts, bucket, entry, i);
                    assert(best.2 == hint_at(heads, nexts, bucket, entry, i));
                }
            }
            if k0 < k {
                lemma_walk_covers(heads, nexts, bucket, buf, pos, entry, depth, k0 + 1, b2, k);
            } else {
                lemma_walk_grows(heads, nexts, bucket, buf, pos, entry, depth, k0 + 1, b2);
            }
        }
    }
}

/// The longest match on the walked chain: for every node of the chain of
/// the bytes at `pos` among the first `depth` that the search reaches
/// (no node before it is one where it may end), the match `find_match`
/// returns (see `found_match`) is at least as long as that node's common
/// prefix with the bytes at `pos`, unless no match is returned.
pub proof fn law_find_match_longest(
    heads: Seq<i16>,
    nexts: Seq<i16>,
    bucket: BucketModel,
    buf: Seq<u8>,
    pos: int,
    depth: int,
    k: nat,
)
    requires
        k < depth,
        chain_node(heads, nexts, bucket.pos, match_entry(buf, pos), k) is Some,
        forall|j: nat| j < k ==> !#[trigger] may_stop_at(heads, nexts, bucket, buf, pos, match_entry(buf, pos), j),
    ensures
        found_match(heads, nexts, bucket, buf, pos, depth).1 == 0 || found_match(heads, nexts, bucket, buf, pos, depth).1
            >= node_prefix(heads, nexts, bucket, buf, pos, match_entry(buf, pos), k),
{
    let entry = match_entry(buf, pos);
    let init = (LZ_MATCH_MIN_LEN - 1, LZ_MATCH_MIN_LEN as int, LZ_MATCH_MIN_LEN as int, 0int);
    lemma_walk_covers(heads, nexts, bucket, buf, pos, entry, depth, 0, init, k);
}

/// `best` is the first of the chain's nodes (within `depth`) with the
/// longest common prefix: its node is the `j`-th, whose prefix is `best`'s
/// length, and every node before it has a shorter prefix.
pub open spec fn first_longest(
    heads: Seq<i16>,
    nexts: Seq<i16>,
    bucket: BucketModel,
    buf: Seq<u8>,
    pos: int,
    entry: int,
    depth: int,
    best: (int, int, int, int),
) -> bool {
    exists|j: nat|
        j < depth && #[trigger] chain_node(heads, nexts, bucket.pos, entry, j) == Some(best.3) && node_prefix(
            heads,
            nexts,
            bucket,
            buf,
            pos,
            entry,
            j,
        ) == best.0 && forall|i: nat| i < j ==> #[trigger] node_prefix(heads, nexts, bucket, buf, pos, entry, i) < best.0
}

/// A search ends on the first of the nodes it compared that has the
/// longest prefix.
proof fn lemma_walk_first(
    heads: Seq<i16>,
    nexts: Seq<i16>,
    bucket: BucketModel,
    buf: Seq<u8>,
    pos: int,
    entry: int,
    depth: int,
    k0: nat,
    best: (int, int, int, int),
)
    requires
        LZ_MATCH_MIN_LEN - 1 <= best.0,
        best.0 >= LZ_MATCH_MIN_LEN ==> first_longest(heads, nexts, bucket, buf, pos, entry, depth, best),
        forall|i: nat| i < k0 ==> #[trigger] node_prefix(heads, nexts, bucket, buf, pos, entry, i) <= best.0,
    ensures
        ({
            let res = match_walk(heads, nexts, bucket, buf, pos, entry, depth, k0, best);
            res.0 >= LZ_MATCH_MIN_LEN ==> first_longest(heads, nexts, bucket, buf, pos, entry, depth, res)
        }),
    decreases depth - k0,
{
    if k0 < depth {
        match chain_node(heads, nexts, bucket.pos, entry, k0) {
            None => {},
            Some(n) => {
                let np = bucket.pos[n] as int;
                let ml = best.0;
                let lcp = common_prefix_len(buf, np, pos, LZ_MATCH_MAX_LEN as int, 0);
                assert(node_prefix(heads, nexts, bucket, buf, pos, entry, k0) == lcp);
                lemma_prefix_agrees(buf, np, pos, LZ_MATCH_MAX_LEN as int, 0);
                if !bytes_match(buf, np + ml - 3, pos + ml - 3, 4) {
                    if lcp > ml {
                        assert(bytes_match(buf, np + ml - 3, pos + ml - 3, 4)) by {
                            assert forall|t: int| 0 <= t < 4 implies #[trigger] byte_at(buf, np + ml - 3 + t) == byte_at(
                                buf,
                                pos + ml - 3 + t,
                            ) by {
                                assert(byte_at(buf, np + (ml - 3 + t)) == byte_at(buf, pos + (ml - 3 + t)));
                            }
                        }
                    }
                    assert forall|i: nat| i < k0 + 1 implies #[trigger] node_prefix(heads, nexts, bucket, buf, pos, entry, i)
                        <= best.0 by {}
                    lemma_walk_first(heads, nexts, bucket, buf, pos, entry, depth, k0 + 1, best);
                } else {
                    let b2 = if lcp > ml {
                        (lcp, bucket.len_min[n] as int, bucket.len_expected[n] as int, n)
                    } else {
                        best
                    };
                    if lcp > ml {
                        assert(chain_node(heads, nexts, bucket.pos, entry, k0) == Some(b2.3));
                        assert(first_longest(heads, nexts, bucket, buf, pos, entry, depth, b2));
                    }
                    assert forall|i: nat| i < k0 + 1 implies #[trigger] node_prefix(heads, nexts, bucket, buf, pos, entry, i)
                        <= b2.0 by {}
                    if !(lcp == LZ_MATCH_MAX_LEN || (b2.2 > 0 && lcp > b2.2)) {
                        lemma_walk_first(heads, nexts, bucket, buf, pos, entry, depth, k0 + 1, b2);
                    }
                }
            },
        }
    }
}

/// Ties go to the nearest node: the match `find_match` returns (see
/// `found_match`) is that of the first node among the first `depth` of the
/// chain with its common prefix: every node before it has a shorter one,
/// and its reduced offset is the distance back from the bucket's head to
/// that node.
pub proof fn law_find_match_first(heads: Seq<i16>, nexts: Seq<i16>, bucket: BucketModel, buf: Seq<u8>, pos: int, depth: int)
    ensures
        ({
            let fm = found_match(heads, nexts, bucket, buf, pos, depth);
            let entry = match_entry(buf, pos);
            fm.1 > 0 ==> exists|j: nat, n: int|
                #![trigger chain_node(heads, nexts, bucket.pos, entry, j), ring_sub(bucket.head, n)]
                j < depth && chain_node(heads, nexts, bucket.pos, entry, j) == Some(n) && fm.0 == ring_sub(
                    bucket.head,
                    n,
                ) && node_prefix(heads, nexts, bucket, buf, pos, entry, j) == fm.1 && forall|i: nat|
                    i < j ==> #[trigger] node_prefix(heads, nexts, bucket, buf, pos, entry, i) < fm.1
        }),
{
    let entry = match_entry(buf, pos);
    let init = (LZ_MATCH_MIN_LEN - 1, LZ_MATCH_MIN_LEN as int, LZ_MATCH_MIN_LEN as int, 0int);
    lemma_walk_first(heads, nexts, bucket, buf, pos, entry, depth, 0, init);
    let res = match_walk(heads, nexts, bucket, buf, pos, entry, depth, 0, init);
    let fm = found_match(heads, nexts, bucket, buf, pos, depth);
    if fm.1 > 0 {
        let j = choose|j: nat|
            j < depth && #[trigger] chain_node(heads, nexts, bucket.pos, entry, j) == Some(res.3) && node_prefix(
                heads,
                nexts,
                bucket,
                buf,
                pos,
                entry,
                j,
            ) == res.0 && forall|i: nat| i < j ==> #[trigger] node_prefix(heads, nexts, bucket, buf, pos, entry, i) < res.0;
        assert(chain_node(heads, nexts, bucket.pos, entry, j) == Some(res.3));
        assert(fm.0 == ring_sub(bucket.head, res.3));
    }
}

} // verus!
