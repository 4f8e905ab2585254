//! How the encoder parses a block into items: at each position the longest
//! match its chain walk finds, unless a longer match starts one or two bytes
//! on, else the expected word, else a literal byte.
use vstd::prelude::*;
use crate::lz::{hash1_spec, hash2_spec, extra_bitlen};
use crate::lz_model::{LzModel, ItemModel, note_word, roid_of};
use crate::matcher::{bucket_update, chain_has_match, found_match, matcher_update, match_entry, BucketMatcher, chain_node, node_matches};
use crate::mem::byte_at;
use crate::LZ_MATCH_MAX_LEN;

verus! {

/// Where the parse stands: the context, every bucket's chains (heads and
/// next links), and the position.
pub struct ParseState {
    pub m: LzModel,
    pub mats: Seq<(Seq<i16>, Seq<i16>)>,
    pub pos: int,
}

/// A chain link, cut where the node it leads to holds position zero in `pos`.
pub open spec fn cut_link(x: i16, pos: Seq<u32>) -> i16 {
    if x != -1 && pos[x as int] == 0 {
        -1i16
    } else {
        x
    }
}

/// The chains once positions have moved back to those of `m`: every link
/// to a node whose position is zero is cut.
pub open spec fn mats_forward(mats: Seq<(Seq<i16>, Seq<i16>)>, m: LzModel) -> Seq<(Seq<i16>, Seq<i16>)> {
    Seq::new(
        mats.len(),
        |b: int|
            (
                mats[b].0.map_values(|x: i16| cut_link(x, m.buckets[b].pos)),
                mats[b].1.map_values(|x: i16| cut_link(x, m.buckets[b].pos)),
            ),
    )
}

/// Empty chains for each of the 256 buckets.
pub open spec fn empty_chains() -> Seq<(Seq<i16>, Seq<i16>)> {
    Seq::new(
        256,
        |b: int|
            (
                Seq::new(crate::matcher::LZ_MF_BUCKET_ITEM_HASH_SIZE as nat, |e: int| -1i16),
                Seq::new(crate::LZ_MF_BUCKET_ITEM_SIZE as nat, |i: int| -1i16),
            ),
    )
}

/// The chains of the matchers.
pub open spec fn matchers_model(ms: Seq<BucketMatcher>) -> Seq<(Seq<i16>, Seq<i16>)> {
    ms.map_values(|bm: BucketMatcher| (bm.heads@, bm.nexts@))
}

/// Some node within `depth` of the chain for the context at `p` agrees
/// with the `len` bytes at `p + 1`.
pub open spec fn lazy_at(m: LzModel, mats: Seq<(Seq<i16>, Seq<i16>)>, s: Seq<u8>, p: int, len: int, depth: int) -> bool {
    let h = hash1_spec(s, p);
    chain_has_match(mats[h].0, mats[h].1, m.buckets[h].pos, s, p + 1, match_entry(s, p + 1), len, depth)
}

/// Which later match, if any, makes the encoder pass over a match of `len`
/// bytes at `ro`: 1 for one a byte on, 2 for one two bytes on, 0 for none.
/// Only matches shorter than half the longest are passed over.
pub open spec fn lazy_choice(st: ParseState, s: Seq<u8>, ro: int, len: int, word: bool, depths: (int, int, int)) -> int {
    if len < LZ_MATCH_MAX_LEN / 2 {
        let l1 = len + 1 + if extra_bitlen(roid_of(ro) as nat) < 8 { 1int } else { 0int };
        let l2 = l1 - if word { 1int } else { 0int };
        if lazy_at(st.m, st.mats, s, st.pos, l1, depths.1) {
            1
        } else if lazy_at(st.m, st.mats, s, st.pos + 1, l2, depths.2) {
            2
        } else {
            0
        }
    } else {
        0
    }
}

/// One step of the parse with match depth and lazy depths `depths`: the
/// item and the state after it.
pub open spec fn parse_step(st: ParseState, s: Seq<u8>, depths: (int, int, int)) -> (ItemModel, ParseState) {
    let m = st.m;
    let pos = st.pos;
    let h1 = hash1_spec(s, pos - 1);
    let w = m.words[hash2_spec(s, pos - 1)];
    let word = byte_at(s, pos) == w.0 && byte_at(s, pos + 1) == w.1;
    let (ro, len, mle, mlmin) = found_match(st.mats[h1].0, st.mats[h1].1, m.buckets[h1], s, pos, depths.0);
    let matched = len > 0 && len >= mlmin;
    let lazy = if matched { lazy_choice(st, s, ro, len, word, depths) } else { 0 };
    if matched && lazy == 0 {
        let b2 = bucket_update(m.buckets[h1], pos, ro, len);
        (
            ItemModel::Match { ro, len },
            ParseState {
                m: LzModel {
                    buckets: m.buckets.update(h1, b2),
                    words: note_word(m.words, s, pos + len),
                    after_literal: false,
                },
                mats: st.mats.update(h1, matcher_update(st.mats[h1], b2.head, s, pos)),
                pos: pos + len,
            },
        )
    } else {
        let b2 = bucket_update(m.buckets[h1], pos, 0, 0);
        let mats2 = st.mats.update(h1, matcher_update(st.mats[h1], b2.head, s, pos));
        if pos + 1 < s.len() && lazy != 1 && word {
            (
                ItemModel::Word,
                ParseState {
                    m: LzModel { buckets: m.buckets.update(h1, b2), words: m.words, after_literal: false },
                    mats: mats2,
                    pos: pos + 2,
                },
            )
        } else {
            (
                ItemModel::Lit { b: s[pos] },
                ParseState {
                    m: LzModel {
                        buckets: m.buckets.update(h1, b2),
                        words: note_word(m.words, s, pos + 1),
                        after_literal: true,
                    },
                    mats: mats2,
                    pos: pos + 1,
                },
            )
        }
    }
}

/// The parse from `st` until the end of `s` or `budget` items: the items
/// and the state after them.
pub open spec fn parse_run(st: ParseState, s: Seq<u8>, depths: (int, int, int), budget: nat) -> (Seq<ItemModel>, ParseState)
    decreases budget,
{
    if st.pos >= s.len() || budget == 0 {
        (Seq::empty(), st)
    } else {
        let (it, st2) = parse_step(st, s, depths);
        let (rest, fin) = parse_run(st2, s, depths, (budget - 1) as nat);
        (seq![it] + rest, fin)
    }
}

/// Two-byte words: a parse step codes the two bytes at the position as the
/// word expected in their context (the one recorded for the context of the
/// byte before) whenever they are that word, a byte follows, and the match
/// search of the position's bucket finds no match it may take; a step
/// codes a Word only where the two bytes are that word, and then moves two
/// bytes on.
pub proof fn law_parse_word(st: ParseState, s: Seq<u8>, depths: (int, int, int))
    ensures
        ({
            let pos = st.pos;
            let w = st.m.words[hash2_spec(s, pos - 1)];
            let is_word = byte_at(s, pos) == w.0 && byte_at(s, pos + 1) == w.1;
            let h1 = hash1_spec(s, pos - 1);
            let fm = found_match(st.mats[h1].0, st.mats[h1].1, st.m.buckets[h1], s, pos, depths.0);
            let step = parse_step(st, s, depths);
            &&& is_word && pos + 1 < s.len() && !(fm.1 > 0 && fm.1 >= fm.3) ==> step.0 is Word
            &&& step.0 is Word ==> is_word && pos + 1 < s.len() && step.1.pos == pos + 2
        }),
{
}

/// A longer match that could start one byte on (`lazy_at` at `pos`, of
/// `len` bytes) can also start there with fewer bytes.
proof fn lemma_lazy_at_shorter(m: LzModel, mats: Seq<(Seq<i16>, Seq<i16>)>, s: Seq<u8>, p: int, len: int, shorter: int, depth: int)
    requires
        shorter <= len,
        lazy_at(m, mats, s, p, len, depth),
    ensures
        lazy_at(m, mats, s, p, shorter, depth),
{
    let h = hash1_spec(s, p);
    let k = choose|k: nat| k < depth && node_matches(
        #[trigger] chain_node(mats[h].0, mats[h].1, m.buckets[h].pos, match_entry(s, p + 1), k),
        m.buckets[h].pos,
        s,
        p + 1,
        len,
    );
    assert(node_matches(
        chain_node(mats[h].0, mats[h].1, m.buckets[h].pos, match_entry(s, p + 1), k),
        m.buckets[h].pos,
        s,
        p + 1,
        shorter,
    ));
}

/// Matches: a parse step codes a match only as the match search of the
/// position's bucket found it, of at least its node's shortest-length
/// hint, and moves past it; and it codes the match found whenever it may
/// take it and passes over it for no longer match: when the match is at
/// least half the longest length, or when no node within the lazy depths
/// agrees with one more byte one byte on, nor with as many bytes two bytes
/// on.
pub proof fn law_parse_match(st: ParseState, s: Seq<u8>, depths: (int, int, int))
    ensures
        ({
            let pos = st.pos;
            let h1 = hash1_spec(s, pos - 1);
            let fm = found_match(st.mats[h1].0, st.mats[h1].1, st.m.buckets[h1], s, pos, depths.0);
            let takable = fm.1 > 0 && fm.1 >= fm.3;
            let step = parse_step(st, s, depths);
            &&& step.0 matches ItemModel::Match { ro, len } ==> ro == fm.0 && len == fm.1 && takable && step.1.pos
                == pos + len
            &&& takable && fm.1 >= LZ_MATCH_MAX_LEN / 2 ==> step.0 == (ItemModel::Match { ro: fm.0, len: fm.1 })
            &&& takable && !lazy_at(st.m, st.mats, s, pos, fm.1 + 1, depths.1) && !lazy_at(
                st.m,
                st.mats,
                s,
                pos + 1,
                fm.1,
                depths.2,
            ) ==> step.0 == (ItemModel::Match { ro: fm.0, len: fm.1 })
        }),
{
    let pos = st.pos;
    let h1 = hash1_spec(s, pos - 1);
    let fm = found_match(st.mats[h1].0, st.mats[h1].1, st.m.buckets[h1], s, pos, depths.0);
    let w = st.m.words[hash2_spec(s, pos - 1)];
    let word = byte_at(s, pos) == w.0 && byte_at(s, pos + 1) == w.1;
    let len = fm.1;
    if len > 0 && len >= fm.3 && len < LZ_MATCH_MAX_LEN / 2 {
        let l1 = len + 1 + if extra_bitlen(roid_of(fm.0) as nat) < 8 { 1int } else { 0int };
        let l2 = l1 - if word { 1int } else { 0int };
        if lazy_at(st.m, st.mats, s, pos, l1, depths.1) {
            lemma_lazy_at_shorter(st.m, st.mats, s, pos, l1, len + 1, depths.1);
        }
        if lazy_at(st.m, st.mats, s, pos + 1, l2, depths.2) {
            lemma_lazy_at_shorter(st.m, st.mats, s, pos + 1, l2, len, depths.2);
        }
    }
}

} // verus!
