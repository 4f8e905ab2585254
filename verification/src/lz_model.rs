//! What a block's items mean: each item writes bytes at the current
//! position and moves the shared context on, the same way in the encoder and
//! in the decoder.
use vstd::prelude::*;
use vstd::arithmetic::power2::pow2;
use crate::matcher::{BucketModel, bucket_update, bucket_forward, ring_sub};
use crate::lz::{hash1_spec, hash2_spec, roid_base, extra_bitlen, WORD_SYMBOL};
use crate::symrank::rank_update;
use crate::{LZ_LENID_SIZE, LZ_MATCH_MIN_LEN, LZ_ROID_SIZE, LZ_MF_BUCKET_ITEM_SIZE};

verus! {

/// The context, but for the symbol rankings: the buckets, the word table and
/// whether the last item was a literal byte.
pub struct LzModel {
    pub buckets: Seq<BucketModel>,
    pub words: Seq<(u8, u8)>,
    pub after_literal: bool,
}

/// An item as it acts: a literal byte, the word expected in the context, or
/// a match `ro` nodes back in the context's bucket, `len` bytes long.
pub enum ItemModel {
    Lit { b: u8 },
    Word,
    Match { ro: int, len: int },
}

/// The context once every recorded position moves `f` back.
pub open spec fn model_forward(m: LzModel, f: int) -> LzModel {
    LzModel { buckets: m.buckets.map_values(|b: BucketModel| bucket_forward(b, f)), ..m }
}

/// The context a new encoder or decoder starts from: every bucket's nodes at
/// position zero without hints, head at node zero, all words zero, and the
/// literal flag set.
pub open spec fn initial_model() -> LzModel {
    LzModel {
        buckets: Seq::new(
            256,
            |b: int|
                BucketModel {
                    pos: Seq::new(LZ_MF_BUCKET_ITEM_SIZE as nat, |i: int| 0u32),
                    len_min: Seq::new(LZ_MF_BUCKET_ITEM_SIZE as nat, |i: int| 0u8),
                    len_expected: Seq::new(LZ_MF_BUCKET_ITEM_SIZE as nat, |i: int| 0u8),
                    head: 0,
                },
        ),
        words: Seq::new(32768, |i: int| (0u8, 0u8)),
        after_literal: true,
    }
}

/// The bucket of the context at `pos`.
pub open spec fn bucket_of(m: LzModel, buf: Seq<u8>, pos: int) -> int {
    hash1_spec(buf, pos - 1)
}

/// The symbol ranking used at `pos`: the context, and after a literal the upper half.
pub open spec fn rank_ctx(m: LzModel, buf: Seq<u8>, pos: int) -> int {
    hash1_spec(buf, pos - 1) + if m.after_literal { 256int } else { 0int }
}

/// The two bytes expected at `pos`.
pub open spec fn expected_word(m: LzModel, buf: Seq<u8>, pos: int) -> (u8, u8) {
    m.words[hash2_spec(buf, pos - 1)]
}

/// The reduced-offset class of `ro`.
pub open spec fn roid_of(ro: int) -> int {
    choose|id: int| 0 <= id < LZ_ROID_SIZE && #[trigger] roid_base(id as nat) <= ro < roid_base(id as nat) + pow2(
        extra_bitlen(id as nat),
    )
}

/// The larger of a hint and the shortest match.
pub open spec fn hint(h: u8) -> int {
    if h > LZ_MATCH_MIN_LEN {
        h as int
    } else {
        LZ_MATCH_MIN_LEN as int
    }
}

/// The length code of a match of `len` bytes against a node with hints
/// `mlmin` and `mle`.
pub open spec fn encode_match_len(len: int, mlmin: int, mle: int) -> int {
    if len > mle {
        len - mlmin
    } else if len < mle {
        len - mlmin + 1
    } else {
        0
    }
}

/// The match length a length code stands for.
pub open spec fn decode_match_len(eml: int, mlmin: int, mle: int) -> int {
    if eml + mlmin > mle {
        eml + mlmin
    } else if eml > 0 {
        eml + mlmin - 1
    } else {
        mle
    }
}

/// The node a match at `pos` refers to.
pub open spec fn match_node(m: LzModel, buf: Seq<u8>, pos: int, ro: int) -> int {
    ring_sub(m.buckets[bucket_of(m, buf, pos)].head, ro)
}

/// The length code of a match item at `pos`.
pub open spec fn match_len_code(m: LzModel, buf: Seq<u8>, pos: int, ro: int, len: int) -> int {
    let b = m.buckets[bucket_of(m, buf, pos)];
    let node = match_node(m, buf, pos, ro);
    encode_match_len(len, hint(b.len_min[node]), hint(b.len_expected[node]))
}

/// The symbol an item is ranked as.
pub open spec fn item_symbol(m: LzModel, buf: Seq<u8>, pos: int, it: ItemModel) -> int {
    match it {
        ItemModel::Lit { b } => b as int,
        ItemModel::Word => WORD_SYMBOL as int,
        ItemModel::Match { ro, len } => {
            let eml = match_len_code(m, buf, pos, ro, len);
            256 + roid_of(ro) * LZ_LENID_SIZE + if eml < LZ_LENID_SIZE - 1 { eml } else { LZ_LENID_SIZE - 1 }
        },
    }
}

/// Copying `n` bytes from `src` to `dst` one at a time, front to back.
pub open spec fn copy_forward(buf: Seq<u8>, src: int, dst: int, n: nat) -> Seq<u8>
    decreases n,
{
    if n == 0 {
        buf
    } else {
        let b = copy_forward(buf, src, dst, (n - 1) as nat);
        b.update(dst + n - 1, b[src + n - 1])
    }
}

/// The word table once the two bytes before `p` follow the context before them.
pub open spec fn note_word(words: Seq<(u8, u8)>, buf: Seq<u8>, p: int) -> Seq<(u8, u8)> {
    words.update(hash2_spec(buf, p - 3), (buf[p - 2], buf[p - 1]))
}

/// One item at `pos`: the new context, bytes and position.
pub open spec fn apply_item(m: LzModel, buf: Seq<u8>, pos: int, it: ItemModel) -> (LzModel, Seq<u8>, int) {
    let h = bucket_of(m, buf, pos);
    match it {
        ItemModel::Lit { b } => {
            let buf2 = buf.update(pos, b);
            let p2 = pos + 1;
            (
                LzModel {
                    buckets: m.buckets.update(h, bucket_update(m.buckets[h], pos, 0, 0)),
                    words: note_word(m.words, buf2, p2),
                    after_literal: true,
                },
                buf2,
                p2,
            )
        },
        ItemModel::Word => {
            let w = expected_word(m, buf, pos);
            (
                LzModel {
                    buckets: m.buckets.update(h, bucket_update(m.buckets[h], pos, 0, 0)),
                    words: m.words,
                    after_literal: false,
                },
                buf.update(pos, w.0).update(pos + 1, w.1),
                pos + 2,
            )
        },
        ItemModel::Match { ro, len } => {
            let src = m.buckets[h].pos[match_node(m, buf, pos, ro)] as int;
            let buf2 = copy_forward(buf, src, pos, len as nat);
            let p2 = pos + len;
            (
                LzModel {
                    buckets: m.buckets.update(h, bucket_update(m.buckets[h], pos, ro, len)),
                    words: note_word(m.words, buf2, p2),
                    after_literal: false,
                },
                buf2,
                p2,
            )
        },
    }
}

/// Items one after another.
pub open spec fn apply_items(m: LzModel, buf: Seq<u8>, pos: int, its: Seq<ItemModel>) -> (LzModel, Seq<u8>, int)
    decreases its.len(),
{
    if its.len() == 0 {
        (m, buf, pos)
    } else {
        let (m1, b1, p1) = apply_items(m, buf, pos, its.drop_last());
        apply_item(m1, b1, p1, its.last())
    }
}

/// The ranking context, symbol and unlikely symbol of each item, in order.
pub open spec fn item_keys(m: LzModel, buf: Seq<u8>, pos: int, its: Seq<ItemModel>) -> Seq<(int, int, int)>
    decreases its.len(),
{
    if its.len() == 0 {
        Seq::empty()
    } else {
        let (m1, b1, p1) = apply_items(m, buf, pos, its.drop_last());
        item_keys(m, buf, pos, its.drop_last()).push(
            (rank_ctx(m1, b1, p1), item_symbol(m1, b1, p1, its.last()), expected_word(m1, b1, p1).0 as int),
        )
    }
}

/// The rankings once the symbol of `key` is ranked in its context.
pub open spec fn rank_step(ranks: Seq<(Seq<u16>, Seq<u16>)>, key: (int, int, int)) -> Seq<(Seq<u16>, Seq<u16>)> {
    let (c, sym, _u) = key;
    ranks.update(c, rank_update(ranks[c].0, ranks[c].1, ranks[c].1[sym] as int))
}

/// The rankings after the given keys, in order.
pub open spec fn ranks_after(ranks: Seq<(Seq<u16>, Seq<u16>)>, keys: Seq<(int, int, int)>) -> Seq<(Seq<u16>, Seq<u16>)>
    decreases keys.len(),
{
    if keys.len() == 0 {
        ranks
    } else {
        rank_step(ranks_after(ranks, keys.drop_last()), keys.last())
    }
}

/// Copying bytes onto equal bytes changes nothing.
pub proof fn lemma_copy_forward_same(buf: Seq<u8>, src: int, dst: int, n: nat)
    requires
        0 <= src,
        0 <= dst,
        src + n <= buf.len(),
        dst + n <= buf.len(),
        forall|k: int| 0 <= k < n ==> #[trigger] buf[src + k] == buf[dst + k],
    ensures
        copy_forward(buf, src, dst, n) == buf,
    decreases n,
{
    if n > 0 {
        lemma_copy_forward_same(buf, src, dst, (n - 1) as nat);
        assert(buf[src + (n - 1)] == buf[dst + (n - 1)]);
        assert(buf.update(dst + n - 1, buf[src + n - 1]) =~= buf);
    }
}

/// One more item: its effect follows the effect of those before it.
pub proof fn lemma_apply_items_push(m: LzModel, buf: Seq<u8>, pos: int, its: Seq<ItemModel>, it: ItemModel)
    ensures
        ({
            let (m1, b1, p1) = apply_items(m, buf, pos, its);
            &&& apply_items(m, buf, pos, its.push(it)) == apply_item(m1, b1, p1, it)
            &&& item_keys(m, buf, pos, its.push(it)) == item_keys(m, buf, pos, its).push(
                (rank_ctx(m1, b1, p1), item_symbol(m1, b1, p1, it), expected_word(m1, b1, p1).0 as int),
            )
        }),
{
    assert(its.push(it).drop_last() =~= its);
}

/// Keys come one per item.
pub proof fn lemma_item_keys_len(m: LzModel, buf: Seq<u8>, pos: int, its: Seq<ItemModel>)
    ensures
        item_keys(m, buf, pos, its).len() == its.len(),
    decreases its.len(),
{
    if its.len() > 0 {
        lemma_item_keys_len(m, buf, pos, its.drop_last());
    }
}

/// A forward copy leaves the rest alone and makes each copied byte equal the
/// byte it was copied from.
pub proof fn lemma_copy_forward_props(buf: Seq<u8>, src: int, dst: int, n: nat)
    requires
        0 <= src < dst,
        dst + n <= buf.len(),
    ensures
        copy_forward(buf, src, dst, n).len() == buf.len(),
        forall|j: int| 0 <= j < buf.len() && !(dst <= j < dst + n) ==> #[trigger] copy_forward(buf, src, dst, n)[j]
            == buf[j],
        forall|k: int| 0 <= k < n ==> #[trigger] copy_forward(buf, src, dst, n)[dst + k] == copy_forward(
            buf,
            src,
            dst,
            n,
        )[src + k],
    decreases n,
{
    if n > 0 {
        lemma_copy_forward_props(buf, src, dst, (n - 1) as nat);
        let b = copy_forward(buf, src, dst, (n - 1) as nat);
        let c = copy_forward(buf, src, dst, n);
        assert(c == b.update(dst + n - 1, b[src + n - 1]));
        assert forall|k: int| 0 <= k < n implies #[trigger] c[dst + k] == c[src + k] by {
            if k < n - 1 {
                assert(b[dst + k] == b[src + k]);
            }
        }
    }
}

/// Two byte sequences that agree outside a forward copy and both satisfy
/// it are equal.
proof fn lemma_copy_unique_upto(a: Seq<u8>, b: Seq<u8>, buf: Seq<u8>, src: int, dst: int, n: nat, j: int)
    requires
        0 <= src < dst,
        dst + n <= buf.len(),
        a.len() == buf.len(),
        b.len() == buf.len(),
        forall|t: int| 0 <= t < buf.len() && !(dst <= t < dst + n) ==> #[trigger] a[t] == buf[t],
        forall|t: int| 0 <= t < buf.len() && !(dst <= t < dst + n) ==> #[trigger] b[t] == buf[t],
        forall|k: int| 0 <= k < n ==> #[trigger] a[dst + k] == a[src + k],
        forall|k: int| 0 <= k < n ==> #[trigger] b[dst + k] == b[src + k],
        0 <= j <= buf.len(),
    ensures
        forall|t: int| 0 <= t < j ==> #[trigger] a[t] == b[t],
    decreases j,
{
    if j > 0 {
        lemma_copy_unique_upto(a, b, buf, src, dst, n, j - 1);
        let t = j - 1;
        if dst <= t < dst + n {
            let k = t - dst;
            assert(a[dst + k] == a[src + k]);
            assert(b[dst + k] == b[src + k]);
        } else {
            assert(a[t] == buf[t]);
            assert(b[t] == buf[t]);
        }
    }
}

/// A sequence that agrees with a forward copy's effect is the forward copy.
pub proof fn lemma_copy_forward_unique(buf: Seq<u8>, out: Seq<u8>, src: int, dst: int, n: nat)
    requires
        0 <= src < dst,
        dst + n <= buf.len(),
        out.len() == buf.len(),
        forall|t: int| 0 <= t < buf.len() && !(dst <= t < dst + n) ==> #[trigger] out[t] == buf[t],
        forall|k: int| 0 <= k < n ==> #[trigger] out[dst + k] == out[src + k],
    ensures
        out == copy_forward(buf, src, dst, n),
{
    lemma_copy_forward_props(buf, src, dst, n);
    let c = copy_forward(buf, src, dst, n);
    lemma_copy_unique_upto(out, c, buf, src, dst, n, buf.len() as int);
    assert(out =~= c);
}

} // verus!
