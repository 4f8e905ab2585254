//! How the encoder's match items spell a chunk: their ranking keys and bits
//! are those of the items they agree with.
use vstd::prelude::*;
use crate::bitstream::bits_of;
use crate::coder::max_len;
use crate::huffman::canonical_code;
use crate::lz::{LZContext, MatchItem, item_ok, bump, zeros_u32, items_agree, item_agrees, mi_context, mi_symbol, mi_unlikely, mi_after_literal};
use crate::lz_format::{huff_bits, items_bits, item_bits, rank_code_of, items_coded, item_coded, items_valid, item_valid,
    long_len_code, item_key, item_code_use, table_weights, item_len_use, length_weights};
use crate::lz_model::{LzModel, ItemModel, apply_items, item_keys, ranks_after, rank_step, lemma_apply_items_push};
use crate::symrank::law_symrank_roundtrip;
use crate::sums::{weight_sum, index_sum, lemma_index_sum_ext};
use crate::lz::LZ_CHUNK_SIZE;
use crate::{LZ_LENID_SIZE, LZ_MATCH_MAX_LEN, SYMRANK_NUM_SYMBOLS};

verus! {

/// The ranking key of a match item: its context, symbol and unlikely symbol.
pub open spec fn mi_key(x: MatchItem) -> (int, int, int) {
    (mi_context(x) as int, mi_symbol(x) as int, mi_unlikely(x) as int)
}

/// The keys of the first `n` match items.
pub open spec fn mi_keys(xs: Seq<MatchItem>, n: int) -> Seq<(int, int, int)> {
    Seq::new(n as nat, |k: int| mi_key(xs[k]))
}

/// The long length code of a match item, where it has one.
pub open spec fn mi_long_len(x: MatchItem) -> Option<int> {
    match x {
        MatchItem::Match { encoded_match_len, .. } => if encoded_match_len >= LZ_LENID_SIZE - 1 {
            Some(encoded_match_len as int)
        } else {
            None
        },
        MatchItem::Symbol { .. } => None,
    }
}

/// The bits of a match item sent as rank code `code`.
pub open spec fn mi_bits(ta: Seq<u8>, tb: Seq<u8>, tl: Seq<u8>, x: MatchItem, code: int) -> Seq<bool> {
    let sym_bits = huff_bits(if mi_after_literal(x) { tb } else { ta }, code);
    match x {
        MatchItem::Match { robitlen, robits, .. } => sym_bits + bits_of(robits as nat, robitlen as nat) + match mi_long_len(
            x,
        ) {
            Some(eml) => huff_bits(tl, eml),
            None => Seq::empty(),
        },
        MatchItem::Symbol { .. } => sym_bits,
    }
}

/// The bits of the first `n` match items, sent as the rank codes `codes`.
pub open spec fn mis_bits(ta: Seq<u8>, tb: Seq<u8>, tl: Seq<u8>, xs: Seq<MatchItem>, codes: Seq<u16>, n: nat) -> Seq<bool>
    decreases n,
{
    if n == 0 {
        Seq::empty()
    } else {
        mis_bits(ta, tb, tl, xs, codes, (n - 1) as nat) + mi_bits(ta, tb, tl, xs[n - 1], codes[n - 1] as int)
    }
}

/// Each code is the rank code of its item's key in the rankings that the
/// keys before it leave.
pub open spec fn codes_ranked(r0: Seq<(Seq<u16>, Seq<u16>)>, xs: Seq<MatchItem>, codes: Seq<u16>) -> bool {
    &&& codes.len() == xs.len()
    &&& forall|k: int| 0 <= k < xs.len() ==> #[trigger] codes[k] as int == rank_code_of(
        ranks_after(r0, mi_keys(xs, k)),
        mi_key(xs[k]),
    )
}

/// Match items that agree with items have the same keys and spell the same
/// bits.
pub proof fn lemma_items_spell(
    m0: LzModel,
    s: Seq<u8>,
    p0: int,
    its: Seq<ItemModel>,
    xs: Seq<MatchItem>,
    limit: int,
    r0: Seq<(Seq<u16>, Seq<u16>)>,
    codes: Seq<u16>,
    ta: Seq<u8>,
    tb: Seq<u8>,
    tl: Seq<u8>,
    n: nat,
)
    requires
        items_agree(m0, s, p0, its, xs, limit),
        codes_ranked(r0, xs, codes),
        n <= its.len(),
    ensures
        item_keys(m0, s, p0, its.take(n as int)) == mi_keys(xs, n as int),
        mis_bits(ta, tb, tl, xs, codes, n) == items_bits(ta, tb, tl, m0, s, p0, r0, its.take(n as int)),
    decreases n,
{
    if n == 0 {
        assert(its.take(0) =~= Seq::<ItemModel>::empty());
        assert(mi_keys(xs, 0) =~= Seq::<(int, int, int)>::empty());
    } else {
        let k = (n - 1) as int;
        lemma_items_spell(m0, s, p0, its, xs, limit, r0, codes, ta, tb, tl, (n - 1) as nat);
        let prev = its.take(k);
        assert(its.take(n as int) =~= prev.push(its[k]));
        assert(its.take(n as int).drop_last() =~= prev);
        assert(its.take(n as int).last() == its[k]);
        lemma_apply_items_push(m0, s, p0, prev, its[k]);
        let st = apply_items(m0, s, p0, prev);
        assert(item_agrees(xs[k], st.0, st.1, st.2, its[k], limit));
        assert(mi_keys(xs, n as int) =~= mi_keys(xs, k).push(mi_key(xs[k])));
        assert(codes[k] as int == rank_code_of(ranks_after(r0, mi_keys(xs, k)), mi_key(xs[k])));
        let code = codes[k] as int;
        assert(item_bits(ta, tb, tl, st, code, its[k]) == mi_bits(ta, tb, tl, xs[k], code)) by {
            match its[k] {
                ItemModel::Match { ro, len } => {
                    assert(long_len_code(st, its[k]) == mi_long_len(xs[k]));
                },
                _ => {},
            }
        }
    }
}

/// Items that agree with match items can each be read back.
pub proof fn lemma_items_agree_valid(
    m0: LzModel,
    s: Seq<u8>,
    p0: int,
    its: Seq<ItemModel>,
    xs: Seq<MatchItem>,
    limit: int,
)
    requires
        items_agree(m0, s, p0, its, xs, limit),
    ensures
        items_valid(m0, s, p0, its, limit),
{
    assert forall|k: int| 0 <= k < its.len() implies item_valid(
        #[trigger] apply_items(m0, s, p0, its.take(k)),
        its[k],
        limit,
    ) by {
        let st = apply_items(m0, s, p0, its.take(k));
        assert(item_agrees(xs[k], st.0, st.1, st.2, its[k], limit));
    }
}

/// Items whose codes and long length codes all have code lengths in their
/// tables are coded.
pub proof fn lemma_items_coded(
    m0: LzModel,
    s: Seq<u8>,
    p0: int,
    its: Seq<ItemModel>,
    xs: Seq<MatchItem>,
    limit: int,
    r0: Seq<(Seq<u16>, Seq<u16>)>,
    codes: Seq<u16>,
    ta: Seq<u8>,
    tb: Seq<u8>,
    tl: Seq<u8>,
)
    requires
        items_agree(m0, s, p0, its, xs, limit),
        codes_ranked(r0, xs, codes),
        ta.len() == SYMRANK_NUM_SYMBOLS,
        tb.len() == SYMRANK_NUM_SYMBOLS,
        tl.len() == LZ_MATCH_MAX_LEN,
        forall|k: int| 0 <= k < xs.len() ==> (#[trigger] codes[k] as int) < SYMRANK_NUM_SYMBOLS,
        forall|k: int| 0 <= k < xs.len() ==> (if mi_after_literal(#[trigger] xs[k]) { tb } else { ta })[codes[k] as int]
            > 0,
        forall|k: int| 0 <= k < xs.len() ==> match mi_long_len(#[trigger] xs[k]) {
            Some(e) => 0 <= e < LZ_MATCH_MAX_LEN && tl[e] > 0,
            None => true,
        },
    ensures
        items_coded(ta, tb, tl, m0, s, p0, r0, its),
{
    assert forall|k: int| 0 <= k < its.len() implies item_coded(
        ta,
        tb,
        tl,
        #[trigger] apply_items(m0, s, p0, its.take(k)),
        ranks_after(r0, item_keys(m0, s, p0, its.take(k))),
        its[k],
    ) by {
        lemma_items_spell(m0, s, p0, its, xs, limit, r0, codes, ta, tb, tl, k as nat);
        let st = apply_items(m0, s, p0, its.take(k));
        assert(item_agrees(xs[k], st.0, st.1, st.2, its[k], limit));
        assert(codes[k] as int == rank_code_of(ranks_after(r0, mi_keys(xs, k)), mi_key(xs[k])));
        match its[k] {
            ItemModel::Match { ro, len } => {
                assert(long_len_code(st, its[k]) == mi_long_len(xs[k]));
            },
            _ => {},
        }
    }
}

/// A code table that gives each symbol its canonical code under `lens`.
pub open spec fn encodes_lens(enc: Seq<(u16, u16)>, lens: Seq<u8>) -> bool {
    &&& enc.len() == lens.len()
    &&& forall|s: int| 0 <= s < enc.len() ==> #[trigger] enc[s] == (if lens[s] > 0 {
        (canonical_code(lens, max_len(lens), s) as u16, lens[s] as u16)
    } else {
        (0u16, 0u16)
    })
}

/// Such a table writes each symbol as its Huffman bits.
pub proof fn lemma_encodes_bits(enc: Seq<(u16, u16)>, lens: Seq<u8>, s: int)
    requires
        encodes_lens(enc, lens),
        0 <= s < lens.len(),
    ensures
        bits_of(enc[s].0 as nat, enc[s].1 as nat) == huff_bits(lens, s),
{
    if lens[s] == 0 {
        assert(bits_of(enc[s].0 as nat, enc[s].1 as nat) =~= huff_bits(lens, s));
    }
}

/// One for each of the match items that is coded `c` in the table for
/// items after a literal (`after`) or after a match.
pub open spec fn code_use(xs: Seq<MatchItem>, codes: Seq<u16>, after: bool, c: int) -> spec_fn(int) -> nat {
    |k: int| if mi_after_literal(xs[k]) == after && codes[k] as int == c { 1nat } else { 0nat }
}

/// How many of the first `n` match items are coded `c` in the table for
/// items after a literal (`after`) or after a match.
pub open spec fn code_uses(xs: Seq<MatchItem>, codes: Seq<u16>, after: bool, c: int, n: int) -> nat {
    index_sum(code_use(xs, codes, after, c), n)
}

/// One for each of the match items whose long length code is `e`.
pub open spec fn long_use(xs: Seq<MatchItem>, e: int) -> spec_fn(int) -> nat {
    |k: int| if mi_long_len(xs[k]) == Some(e) { 1nat } else { 0nat }
}

/// How many of the first `n` match items have the long length code `e`.
pub open spec fn long_uses(xs: Seq<MatchItem>, e: int, n: int) -> nat {
    index_sum(long_use(xs, e), n)
}

/// Counting one more coded item.
proof fn lemma_code_uses_push(xs: Seq<MatchItem>, codes0: Seq<u16>, codes1: Seq<u16>, after: bool, c: int, i: int)
    requires
        0 <= i,
        forall|k: int| 0 <= k < i ==> #[trigger] codes1[k] == codes0[k],
    ensures
        code_uses(xs, codes1, after, c, i + 1) == code_uses(xs, codes0, after, c, i) + (if mi_after_literal(xs[i]) == after
            && codes1[i] as int == c { 1nat } else { 0nat }),
{
    lemma_index_sum_ext(code_use(xs, codes1, after, c), code_use(xs, codes0, after, c), i);
}

/// An item that agrees with a match item is in the same table, with the
/// same code and long length code.
proof fn lemma_item_code_agrees(
    m0: LzModel,
    s: Seq<u8>,
    p0: int,
    its: Seq<ItemModel>,
    xs: Seq<MatchItem>,
    limit: int,
    r0: Seq<(Seq<u16>, Seq<u16>)>,
    codes: Seq<u16>,
    k: int,
)
    requires
        items_agree(m0, s, p0, its, xs, limit),
        codes_ranked(r0, xs, codes),
        0 <= k < its.len(),
    ensures
        ({
            let st = apply_items(m0, s, p0, its.take(k));
            &&& st.0.after_literal == mi_after_literal(xs[k])
            &&& rank_code_of(ranks_after(r0, item_keys(m0, s, p0, its.take(k))), item_key(st, its[k])) == codes[k] as int
            &&& long_len_code(st, its[k]) == mi_long_len(xs[k])
        }),
{
    let e = Seq::<u8>::empty();
    lemma_items_spell(m0, s, p0, its, xs, limit, r0, codes, e, e, e, k as nat);
    let st = apply_items(m0, s, p0, its.take(k));
    assert(item_agrees(xs[k], st.0, st.1, st.2, its[k], limit));
    assert(item_key(st, its[k]) == mi_key(xs[k]));
    match its[k] {
        ItemModel::Match { ro, len } => {},
        _ => {},
    }
}

/// The weights that count the match items' codes count the items' codes.
pub proof fn lemma_table_weights(
    m0: LzModel,
    s: Seq<u8>,
    p0: int,
    its: Seq<ItemModel>,
    xs: Seq<MatchItem>,
    limit: int,
    r0: Seq<(Seq<u16>, Seq<u16>)>,
    codes: Seq<u16>,
    ws: Seq<u32>,
    after: bool,
)
    requires
        items_agree(m0, s, p0, its, xs, limit),
        codes_ranked(r0, xs, codes),
        ws.len() == SYMRANK_NUM_SYMBOLS,
        forall|c: int| 0 <= c < SYMRANK_NUM_SYMBOLS ==> #[trigger] ws[c] == code_uses(xs, codes, after, c, xs.len() as int),
    ensures
        ws == table_weights(m0, s, p0, r0, its, after, SYMRANK_NUM_SYMBOLS as nat),
{
    let tw = table_weights(m0, s, p0, r0, its, after, SYMRANK_NUM_SYMBOLS as nat);
    assert forall|c: int| 0 <= c < SYMRANK_NUM_SYMBOLS implies #[trigger] ws[c] == tw[c] by {
        let f = item_code_use(m0, s, p0, r0, its, after, c);
        let g = code_use(xs, codes, after, c);
        assert forall|k: int| 0 <= k < its.len() implies #[trigger] f(k) == g(k) by {
            lemma_item_code_agrees(m0, s, p0, its, xs, limit, r0, codes, k);
        }
        lemma_index_sum_ext(f, g, its.len() as int);
    }
    assert(ws =~= tw);
}

/// The weights that count the match items' long length codes count the
/// items' long length codes.
pub proof fn lemma_length_weights(
    m0: LzModel,
    s: Seq<u8>,
    p0: int,
    its: Seq<ItemModel>,
    xs: Seq<MatchItem>,
    limit: int,
    r0: Seq<(Seq<u16>, Seq<u16>)>,
    codes: Seq<u16>,
    ws: Seq<u32>,
)
    requires
        items_agree(m0, s, p0, its, xs, limit),
        codes_ranked(r0, xs, codes),
        ws.len() == LZ_MATCH_MAX_LEN,
        forall|e: int| 0 <= e < LZ_MATCH_MAX_LEN ==> #[trigger] ws[e] == long_uses(xs, e, xs.len() as int),
    ensures
        ws == length_weights(m0, s, p0, its),
{
    let lw = length_weights(m0, s, p0, its);
    assert forall|e: int| 0 <= e < LZ_MATCH_MAX_LEN implies #[trigger] ws[e] == lw[e] by {
        let f = item_len_use(m0, s, p0, its, e);
        let g = long_use(xs, e);
        assert forall|k: int| 0 <= k < its.len() implies #[trigger] f(k) == g(k) by {
            lemma_item_code_agrees(m0, s, p0, its, xs, limit, r0, codes, k);
        }
        lemma_index_sum_ext(f, g, its.len() as int);
    }
    assert(ws =~= lw);
}

/// Ranks each item's symbol in its context, in turn, returning the rank
/// codes and the code weights: rank codes after a match, rank codes
/// after a literal, and long length codes.
pub(crate) fn rank_items(ctx: &mut LZContext, match_items: &Vec<MatchItem>, Ghost(r0): Ghost<Seq<(Seq<u16>, Seq<u16>)>>) -> (r: (
    Vec<u16>,
    Vec<u32>,
    Vec<u32>,
    Vec<u32>,
))
    requires
        old(ctx).wf(),
        !old(ctx).first_block,
        old(ctx).ranks() == r0,
        match_items.len() <= LZ_CHUNK_SIZE,
        forall|k: int| 0 <= k < match_items.len() ==> item_ok(#[trigger] match_items@[k]),
    ensures
        final(ctx).wf(),
        !final(ctx).first_block,
        final(ctx).model() == old(ctx).model(),
        final(ctx).ranks() == ranks_after(r0, mi_keys(match_items@, match_items.len() as int)),
        codes_ranked(r0, match_items@, r.0@),
        forall|k: int| 0 <= k < match_items.len() ==> (#[trigger] r.0@[k] as int) < SYMRANK_NUM_SYMBOLS,
        r.1.len() == SYMRANK_NUM_SYMBOLS,
        r.2.len() == SYMRANK_NUM_SYMBOLS,
        r.3.len() == LZ_MATCH_MAX_LEN,
        weight_sum(r.1@) + weight_sum(r.2@) == match_items.len(),
        weight_sum(r.3@) <= match_items.len(),
        forall|k: int| 0 <= k < match_items.len() && mi_after_literal(#[trigger] match_items@[k]) ==> r.2@[r.0@[k] as int] > 0,
        forall|k: int| 0 <= k < match_items.len() && !mi_after_literal(#[trigger] match_items@[k]) ==> r.1@[r.0@[k] as int] > 0,
        forall|k: int| 0 <= k < match_items.len() && (#[trigger] mi_long_len(match_items@[k])) is Some ==> 0 <= mi_long_len(
            match_items@[k],
        )->0 < LZ_MATCH_MAX_LEN && r.3@[mi_long_len(match_items@[k])->0] > 0,
        forall|c: int| 0 <= c < SYMRANK_NUM_SYMBOLS ==> #[trigger] r.1@[c] == code_uses(match_items@, r.0@, false, c, match_items.len() as int),
        forall|c: int| 0 <= c < SYMRANK_NUM_SYMBOLS ==> #[trigger] r.2@[c] == code_uses(match_items@, r.0@, true, c, match_items.len() as int),
        forall|e: int| 0 <= e < LZ_MATCH_MAX_LEN ==> #[trigger] r.3@[e] == long_uses(match_items@, e, match_items.len() as int),
{
    let n_items = match_items.len();
    let ghost m1 = ctx.model();
    proof {
        assert(mi_keys(match_items@, 0) =~= Seq::<(int, int, int)>::empty());
    }
    let mut huff_weights1a = zeros_u32(SYMRANK_NUM_SYMBOLS);
    let mut huff_weights1b = zeros_u32(SYMRANK_NUM_SYMBOLS);
    let mut huff_weights2 = zeros_u32(LZ_MATCH_MAX_LEN);
    let mut encoded_symbols: Vec<u16> = Vec::new();
    for i in 0..n_items
        invariant
            ctx.wf(),
            !ctx.first_block,
            ctx.model() == m1,
            n_items == match_items.len(),
            n_items <= LZ_CHUNK_SIZE,
            forall|k: int| 0 <= k < n_items ==> item_ok(#[trigger] match_items@[k]),
            huff_weights1a.len() == SYMRANK_NUM_SYMBOLS,
            huff_weights1b.len() == SYMRANK_NUM_SYMBOLS,
            huff_weights2.len() == LZ_MATCH_MAX_LEN,
            weight_sum(huff_weights1a@) + weight_sum(huff_weights1b@) == i,
            weight_sum(huff_weights2@) <= i,
            encoded_symbols.len() == i,
            forall|k: int| 0 <= k < i ==> (#[trigger] encoded_symbols@[k] as int) < SYMRANK_NUM_SYMBOLS,
            ctx.ranks() == ranks_after(r0, mi_keys(match_items@, i as int)),
            forall|k: int| 0 <= k < i ==> #[trigger] encoded_symbols@[k] as int == rank_code_of(
                ranks_after(r0, mi_keys(match_items@, k)),
                mi_key(match_items@[k]),
            ),
            forall|k: int| 0 <= k < i && mi_after_literal(#[trigger] match_items@[k]) ==> huff_weights1b@[encoded_symbols@[k] as int] > 0,
            forall|k: int| 0 <= k < i && !mi_after_literal(#[trigger] match_items@[k]) ==> huff_weights1a@[encoded_symbols@[k] as int] > 0,
            forall|k: int| 0 <= k < i && (#[trigger] mi_long_len(match_items@[k])) is Some ==> 0 <= mi_long_len(match_items@[k])->0 < LZ_MATCH_MAX_LEN
                && huff_weights2@[mi_long_len(match_items@[k])->0] > 0,
            forall|c: int| 0 <= c < SYMRANK_NUM_SYMBOLS ==> #[trigger] huff_weights1a@[c] == code_uses(match_items@, encoded_symbols@, false, c, i as int),
            forall|c: int| 0 <= c < SYMRANK_NUM_SYMBOLS ==> #[trigger] huff_weights1b@[c] == code_uses(match_items@, encoded_symbols@, true, c, i as int),
            forall|e: int| 0 <= e < LZ_MATCH_MAX_LEN ==> #[trigger] huff_weights2@[e] == long_uses(match_items@, e, i as int),
    {
        proof {
            assert(item_ok(match_items@[i as int]));
        }
        let (symbol, symrank_context, symrank_unlikely, after_literal, long_len) = match &match_items[i] {
            MatchItem::Match { symbol, symrank_context, symrank_unlikely, encoded_match_len, after_literal, .. } => {
                let long_len: usize = if *encoded_match_len as usize >= LZ_LENID_SIZE - 1 {
                    *encoded_match_len as usize
                } else {
                    LZ_MATCH_MAX_LEN
                };
                (*symbol, *symrank_context, *symrank_unlikely, *after_literal, long_len)
            },
            MatchItem::Symbol { symbol, symrank_context, symrank_unlikely, after_literal } => {
                (*symbol, *symrank_context, *symrank_unlikely, *after_literal, LZ_MATCH_MAX_LEN)
            },
        };
        proof {
            assert(after_literal == mi_after_literal(match_items@[i as int]));
            assert(match mi_long_len(match_items@[i as int]) {
                Some(e) => e == long_len && long_len < LZ_MATCH_MAX_LEN,
                None => long_len == LZ_MATCH_MAX_LEN,
            });
        }
        let ghost sr = ctx.symranks@[symrank_context as int];
        let ghost ranks_before = ctx.ranks();
        let ghost es0 = encoded_symbols@;
        let ghost wa0 = huff_weights1a@;
        let ghost wb0 = huff_weights1b@;
        let ghost w20 = huff_weights2@;
        let encoded_symbol = ctx.symranks[symrank_context as usize].encode(symbol, symrank_unlikely as u16);
        proof {
            law_symrank_roundtrip(sr.values(), sr.indices(), symbol as int, symrank_unlikely as int);
            assert forall|k: int| 0 <= k < 512 implies (#[trigger] ctx.symranks@[k]).wf() by {}
            let key = mi_key(match_items@[i as int]);
            assert(key == (symrank_context as int, symbol as int, symrank_unlikely as int));
            assert(ranks_before[symrank_context as int] == (sr.values(), sr.indices()));
            assert(ctx.ranks() =~= rank_step(ranks_before, key));
            assert(mi_keys(match_items@, i + 1).drop_last() =~= mi_keys(match_items@, i as int));
            assert(mi_keys(match_items@, i + 1).last() == key);
            assert(encoded_symbol as int == rank_code_of(ranks_before, key));
        }
        if after_literal {
            bump(&mut huff_weights1b, encoded_symbol as usize);
        } else {
            bump(&mut huff_weights1a, encoded_symbol as usize);
        }
        if long_len < LZ_MATCH_MAX_LEN {
            bump(&mut huff_weights2, long_len);
        }
        encoded_symbols.push(encoded_symbol);
        proof {
            assert forall|k: int| 0 <= k < i + 1 && mi_after_literal(#[trigger] match_items@[k]) implies huff_weights1b@[encoded_symbols@[k] as int] > 0 by {
                if k < i {
                    assert(encoded_symbols@[k] == es0[k]);
                    assert(wb0[es0[k] as int] > 0);
                } else {
                    assert(encoded_symbols@[k] == encoded_symbol);
                }
            }
            assert forall|k: int| 0 <= k < i + 1 && !mi_after_literal(#[trigger] match_items@[k]) implies huff_weights1a@[encoded_symbols@[k] as int] > 0 by {
                if k < i {
                    assert(encoded_symbols@[k] == es0[k]);
                    assert(wa0[es0[k] as int] > 0);
                } else {
                    assert(encoded_symbols@[k] == encoded_symbol);
                }
            }
            assert forall|k: int| 0 <= k < i + 1 && (#[trigger] mi_long_len(match_items@[k])) is Some implies 0 <= mi_long_len(match_items@[k])->0 < LZ_MATCH_MAX_LEN
                && huff_weights2@[mi_long_len(match_items@[k])->0] > 0 by {
                if k < i {
                    assert(w20[mi_long_len(match_items@[k])->0] > 0);
                }
            }
            assert forall|k: int| 0 <= k < i + 1 implies #[trigger] encoded_symbols@[k] as int == rank_code_of(
                ranks_after(r0, mi_keys(match_items@, k)),
                mi_key(match_items@[k]),
            ) by {
                if k < i {
                    assert(encoded_symbols@[k] == es0[k]);
                }
            }
            // the weights count the codes
            assert forall|k: int| 0 <= k < i implies #[trigger] encoded_symbols@[k] == es0[k] by {}
            assert(encoded_symbols@[i as int] == encoded_symbol);
            assert forall|c: int| 0 <= c < SYMRANK_NUM_SYMBOLS implies #[trigger] huff_weights1a@[c] == code_uses(
                match_items@,
                encoded_symbols@,
                false,
                c,
                i + 1,
            ) by {
                lemma_code_uses_push(match_items@, es0, encoded_symbols@, false, c, i as int);
                assert(wa0[c] == code_uses(match_items@, es0, false, c, i as int));
            }
            assert forall|c: int| 0 <= c < SYMRANK_NUM_SYMBOLS implies #[trigger] huff_weights1b@[c] == code_uses(
                match_items@,
                encoded_symbols@,
                true,
                c,
                i + 1,
            ) by {
                lemma_code_uses_push(match_items@, es0, encoded_symbols@, true, c, i as int);
                assert(wb0[c] == code_uses(match_items@, es0, true, c, i as int));
            }
            assert forall|e: int| 0 <= e < LZ_MATCH_MAX_LEN implies #[trigger] huff_weights2@[e] == long_uses(
                match_items@,
                e,
                i + 1,
            ) by {
                assert(w20[e] == long_uses(match_items@, e, i as int));
                assert(long_uses(match_items@, e, i + 1) == long_uses(match_items@, e, i as int) + long_use(match_items@, e)(
                    i as int,
                ));
            }
        }
    }
    proof {
        assert forall|k: int| 0 <= k < n_items implies #[trigger] encoded_symbols@[k] as int == rank_code_of(
            ranks_after(r0, mi_keys(match_items@, k)),
            mi_key(match_items@[k]),
        ) by {}
    }
    (encoded_symbols, huff_weights1a, huff_weights1b, huff_weights2)
}

} // verus!
