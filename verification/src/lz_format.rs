//! What a chunk says: reading it bit by bit, with the context it was
//! written in, gives the items, bytes and context that follow it.
use vstd::prelude::*;
use vstd::arithmetic::power2::pow2;
use crate::bitstream::{bits_value, window, bits_of, bytes_bits, zeros};
use crate::coder::{varint_decode, parse_huffman_table, varint_bits, table_bits, table_entries_bits, max_len};
use crate::huffman::{decoding_entry, code_base, canonical_code, lens_valid};
use crate::lz::{roid_base, extra_bitlen, completed_order, distinct_symbols, WORD_SYMBOL};
use crate::lz_model::{LzModel, ItemModel, apply_item, apply_items, item_keys, ranks_after, item_symbol, rank_ctx,
    expected_word, bucket_of, hint, decode_match_len, roid_of, match_len_code, match_node};
use crate::matcher::ring_sub;
use crate::symrank::{rank_update, code_rank, rank_code, perm_indices, is_rank_perm};
use crate::huffman_build::huffman_built;
use crate::sums::index_sum;
use crate::{LZ_LENID_SIZE, LZ_MATCH_MAX_LEN, SYMRANK_NUM_SYMBOLS};

verus! {

/// Where a decoder stands: the context, the rankings, the bytes, the byte
/// position and the bit position in the chunk.
pub struct DecState {
    pub m: LzModel,
    pub ranks: Seq<(Seq<u16>, Seq<u16>)>,
    pub buf: Seq<u8>,
    pub pos: int,
    pub bp: int,
}

/// A Huffman table as read: code lengths and the longest.
pub struct DecTable {
    pub lens: Seq<u8>,
    pub max: u8,
}

/// The code lengths admit a decoding table: no code runs past the end.
pub open spec fn table_decodable(t: DecTable) -> bool {
    forall|s: int| 0 <= s < t.lens.len() && #[trigger] t.lens[s] > 0 ==> code_base(t.lens, t.max as nat, s) + pow2(
        (t.max - t.lens[s]) as nat,
    ) <= pow2(t.max as nat)
}

/// A symbol read with table `t` at bit `bp`, and the bit after its code.
pub open spec fn huff_read(input: Seq<u8>, bp: int, t: DecTable) -> (int, int) {
    let x = bits_value(window(input, bp, t.max as nat));
    let e = decoding_entry(t.lens, t.max as nat, x as int, t.lens.len() as int);
    (e.0 as int, bp + e.1)
}

/// The state after an item's effect.
pub open spec fn after(st: DecState, ranks: Seq<(Seq<u16>, Seq<u16>)>, it: ItemModel, bp: int) -> DecState {
    let (m2, b2, p2) = apply_item(st.m, st.buf, st.pos, it);
    DecState { m: m2, ranks, buf: b2, pos: p2, bp }
}

/// Reads one item: its ranked symbol with the table for the literal flag,
/// then for a match its extra offset bits and, for the longest length
/// class, its length code; `None` where a symbol falls outside the
/// alphabet, a match does not refer back before the position or is too
/// long, or the bytes would pass `limit`.
pub open spec fn dec_item(input: Seq<u8>, ta: DecTable, tb: DecTable, tl: DecTable, st: DecState, limit: int) -> Option<DecState> {
    let t = if st.m.after_literal { tb } else { ta };
    let (code, bp1) = huff_read(input, st.bp, t);
    if code >= SYMRANK_NUM_SYMBOLS {
        None
    } else {
        let c = rank_ctx(st.m, st.buf, st.pos);
        let u = expected_word(st.m, st.buf, st.pos).0;
        let vals = st.ranks[c].0;
        let idxs = st.ranks[c].1;
        let i = code_rank(code, idxs[u as int] as int);
        let sym = vals[i] as int;
        let ranks2 = st.ranks.update(c, rank_update(vals, idxs, i));
        if sym == WORD_SYMBOL {
            if st.pos + 2 > limit {
                None
            } else {
                Some(after(st, ranks2, ItemModel::Word, bp1))
            }
        } else if sym < 256 {
            if st.pos + 1 > limit {
                None
            } else {
                Some(after(st, ranks2, ItemModel::Lit { b: sym as u8 }, bp1))
            }
        } else {
            let roid = (sym - 256) / LZ_LENID_SIZE as int;
            let lenid = (sym - 256) % LZ_LENID_SIZE as int;
            let bl = extra_bitlen(roid as nat);
            let ro = (roid_base(roid as nat) + bits_value(window(input, bp1, bl))) as int;
            let bp2 = bp1 + bl;
            let (eml, bp3) = if lenid == LZ_LENID_SIZE - 1 {
                huff_read(input, bp2, tl)
            } else {
                (lenid, bp2)
            };
            let bk = st.m.buckets[bucket_of(st.m, st.buf, st.pos)];
            let node = ring_sub(bk.head, ro);
            let len = decode_match_len(eml, hint(bk.len_min[node]), hint(bk.len_expected[node]));
            if len > LZ_MATCH_MAX_LEN || bk.pos[node] >= st.pos || st.pos + len > limit {
                None
            } else {
                Some(after(st, ranks2, ItemModel::Match { ro, len }, bp3))
            }
        }
    }
}

/// Reads `n` items in turn.
pub open spec fn dec_items(input: Seq<u8>, ta: DecTable, tb: DecTable, tl: DecTable, st: DecState, n: nat, limit: int) -> Option<DecState>
    decreases n,
{
    if n == 0 {
        Some(st)
    } else {
        match dec_items(input, ta, tb, tl, st, (n - 1) as nat, limit) {
            Some(s1) => dec_item(input, ta, tb, tl, s1, limit),
            None => None,
        }
    }
}

/// The first `k` of `n` nine-bit symbols read from bit `bp`.
pub open spec fn read_syms9(input: Seq<u8>, bp: int, k: nat) -> Seq<u16>
    decreases k,
{
    if k == 0 {
        Seq::empty()
    } else {
        read_syms9(input, bp, (k - 1) as nat).push(bits_value(window(input, bp + 9 * (k - 1), 9)) as u16)
    }
}

/// The counted symbols of a first block: their number, then each in nine
/// bits; `None` unless they are distinct symbols of the alphabet.
pub open spec fn read_head(input: Seq<u8>, bp: int) -> Option<(Seq<u16>, int)> {
    let (nv, bp1) = varint_decode(input, bp);
    let n = nv % pow2(32);
    if n > SYMRANK_NUM_SYMBOLS {
        None
    } else {
        let head = read_syms9(input, bp1, n);
        if distinct_symbols(head) {
            Some((head, bp1 + 9 * n))
        } else {
            None
        }
    }
}

/// Every context ranked in the ordering `vs`.
pub open spec fn initial_ranks(vs: Seq<u16>) -> Seq<(Seq<u16>, Seq<u16>)> {
    Seq::new(512, |c: int| (vs, perm_indices(vs)))
}

/// A Huffman table read at `bp`, as a decoding table; `None` where the table
/// is malformed or its codes run past the end.
pub open spec fn read_table(input: Seq<u8>, bp: int) -> Option<(DecTable, int)> {
    match parse_huffman_table(input, bp) {
        None => None,
        Some((lens, max, p)) => {
            let t = DecTable { lens, max };
            if table_decodable(t) {
                Some((t, p))
            } else {
                None
            }
        },
    }
}

/// The three Huffman tables at `bp` and then `n` items, from state `st`
/// (whose bit position is replaced by the one after the tables).
pub open spec fn decode_tables_items(input: Seq<u8>, bp: int, st: DecState, n: nat, limit: int) -> Option<DecState> {
    match read_table(input, bp) {
        None => None,
        Some((ta, bp3)) => match read_table(input, bp3) {
            None => None,
            Some((tb, bp4)) => match read_table(input, bp4) {
                None => None,
                Some((tl, bp5)) => dec_items(input, ta, tb, tl, DecState { bp: bp5, ..st }, n, limit),
            },
        },
    }
}

/// A chunk after its header (read from `bp0`, with rankings `ranks0`): the
/// position it records, the number of items, then the tables and items.
pub open spec fn decode_body(
    m: LzModel,
    ranks0: Seq<(Seq<u16>, Seq<u16>)>,
    buf: Seq<u8>,
    pos: int,
    input: Seq<u8>,
    limit: int,
    bp0: int,
) -> Option<(DecState, int)> {
    let (rv, bp1) = varint_decode(input, bp0);
    let (nv, bp2) = varint_decode(input, bp1);
    let st = DecState { m, ranks: ranks0, buf, pos, bp: bp2 };
    match decode_tables_items(input, bp2, st, (nv % pow2(32)) as nat, limit) {
        None => None,
        Some(fin) => Some((fin, (rv % pow2(32)) as int)),
    }
}

/// What a chunk says, read from its start with the context, rankings and
/// bytes before position `pos` that it was written after: the context,
/// rankings, bytes and position after its items, and the position it
/// records (the position reached, unless the items fall short of it).
/// `None` where the chunk does not decode or its bytes would pass `limit`.
pub open spec fn decode_chunk(
    first: bool,
    m: LzModel,
    ranks: Seq<(Seq<u16>, Seq<u16>)>,
    buf: Seq<u8>,
    pos: int,
    input: Seq<u8>,
    limit: int,
) -> Option<(DecState, int)> {
    if first {
        match read_head(input, 0) {
            None => None,
            Some((h, bp0)) => decode_body(m, initial_ranks(completed_order(h)), buf, pos, input, limit, bp0),
        }
    } else {
        decode_body(m, ranks, buf, pos, input, limit, 0)
    }
}

/// Once reading items fails, reading more fails too.
pub proof fn lemma_dec_items_none(input: Seq<u8>, ta: DecTable, tb: DecTable, tl: DecTable, st: DecState, k: nat, n: nat, limit: int)
    requires
        k <= n,
        dec_items(input, ta, tb, tl, st, k, limit) is None,
    ensures
        dec_items(input, ta, tb, tl, st, n, limit) is None,
    decreases n,
{
    if k < n {
        lemma_dec_items_none(input, ta, tb, tl, st, k, (n - 1) as nat, limit);
    }
}

/// A match item's length code, where it has one in the long-length table.
pub open spec fn long_len_code(st: (LzModel, Seq<u8>, int), it: ItemModel) -> Option<int> {
    match it {
        ItemModel::Match { ro, len } => {
            let eml = match_len_code(st.0, st.1, st.2, ro, len);
            if eml >= LZ_LENID_SIZE - 1 {
                Some(eml)
            } else {
                None
            }
        },
        _ => None,
    }
}

/// What an item needs to be read back: a match refers to a node whose
/// position comes before the item, is between the shortest and longest
/// match lengths and not shorter than its node's `match_len_min` hint, and
/// every item's bytes end by `limit`.
pub open spec fn item_valid(st: (LzModel, Seq<u8>, int), it: ItemModel, limit: int) -> bool {
    let (m, buf, pos) = st;
    match it {
        ItemModel::Lit { .. } => pos + 1 <= limit,
        ItemModel::Word => pos + 2 <= limit,
        ItemModel::Match { ro, len } => {
            let bk = m.buckets[bucket_of(m, buf, pos)];
            let node = match_node(m, buf, pos, ro);
            &&& 0 <= ro < crate::LZ_MF_BUCKET_ITEM_SIZE
            &&& crate::LZ_MATCH_MIN_LEN <= len <= LZ_MATCH_MAX_LEN
            &&& len >= hint(bk.len_min[node])
            &&& bk.pos[node] < pos
            &&& pos + len <= limit
        },
    }
}

/// Every item can be read back, each in the state the ones before it leave.
pub open spec fn items_valid(m0: LzModel, buf0: Seq<u8>, p0: int, its: Seq<ItemModel>, limit: int) -> bool {
    forall|k: int| 0 <= k < its.len() ==> item_valid(#[trigger] apply_items(m0, buf0, p0, its.take(k)), its[k], limit)
}

/// The code of `sym` under code lengths `lens`.
pub open spec fn huff_bits(lens: Seq<u8>, sym: int) -> Seq<bool> {
    bits_of(canonical_code(lens, max_len(lens), sym), lens[sym] as nat)
}

/// The rank code an item is written as: the rank of its symbol relative to
/// the rank of the unlikely symbol, in its context's ranking.
pub open spec fn rank_code_of(ranks: Seq<(Seq<u16>, Seq<u16>)>, key: (int, int, int)) -> int {
    let (c, sym, u) = key;
    rank_code(ranks[c].1[sym] as int, ranks[c].1[u] as int)
}

/// The bits of one item: its rank code in the table for its literal flag,
/// then for a match its extra offset bits and any long length code.
pub open spec fn item_bits(ta: Seq<u8>, tb: Seq<u8>, tl: Seq<u8>, st: (LzModel, Seq<u8>, int), code: int, it: ItemModel) -> Seq<bool> {
    let sym_bits = huff_bits(if st.0.after_literal { tb } else { ta }, code);
    match it {
        ItemModel::Match { ro, len } => {
            let id = roid_of(ro);
            sym_bits + bits_of((ro - roid_base(id as nat)) as nat, extra_bitlen(id as nat)) + match long_len_code(st, it) {
                Some(eml) => huff_bits(tl, eml),
                None => Seq::empty(),
            }
        },
        _ => sym_bits,
    }
}

/// The bits of the items, in order.
pub open spec fn items_bits(
    ta: Seq<u8>,
    tb: Seq<u8>,
    tl: Seq<u8>,
    m0: LzModel,
    buf0: Seq<u8>,
    p0: int,
    ranks0: Seq<(Seq<u16>, Seq<u16>)>,
    its: Seq<ItemModel>,
) -> Seq<bool>
    decreases its.len(),
{
    if its.len() == 0 {
        Seq::empty()
    } else {
        let prev = its.drop_last();
        let st = apply_items(m0, buf0, p0, prev);
        let ranks = ranks_after(ranks0, item_keys(m0, buf0, p0, prev));
        items_bits(ta, tb, tl, m0, buf0, p0, ranks0, prev) + item_bits(ta, tb, tl, st, rank_code_of(ranks, item_key(st, its.last())), its.last())
    }
}

/// The ranking key of an item in state `st`: its context, its symbol and
/// the unlikely symbol.
pub open spec fn item_key(st: (LzModel, Seq<u8>, int), it: ItemModel) -> (int, int, int) {
    (rank_ctx(st.0, st.1, st.2), item_symbol(st.0, st.1, st.2, it), expected_word(st.0, st.1, st.2).0 as int)
}

/// An item's rank code, and its long length code where it has one, have
/// codes in their tables.
pub open spec fn item_coded(
    ta: Seq<u8>,
    tb: Seq<u8>,
    tl: Seq<u8>,
    st: (LzModel, Seq<u8>, int),
    ranks: Seq<(Seq<u16>, Seq<u16>)>,
    it: ItemModel,
) -> bool {
    let t = if st.0.after_literal { tb } else { ta };
    let code = rank_code_of(ranks, item_key(st, it));
    &&& 0 <= code < t.len()
    &&& t[code] > 0
    &&& match long_len_code(st, it) {
        Some(eml) => 0 <= eml < tl.len() && tl[eml] > 0,
        None => true,
    }
}

/// Every item's codes are in its tables.
pub open spec fn items_coded(
    ta: Seq<u8>,
    tb: Seq<u8>,
    tl: Seq<u8>,
    m0: LzModel,
    buf0: Seq<u8>,
    p0: int,
    ranks0: Seq<(Seq<u16>, Seq<u16>)>,
    its: Seq<ItemModel>,
) -> bool {
    forall|k: int| 0 <= k < its.len() ==> item_coded(
        ta,
        tb,
        tl,
        #[trigger] apply_items(m0, buf0, p0, its.take(k)),
        ranks_after(ranks0, item_keys(m0, buf0, p0, its.take(k))),
        its[k],
    )
}

/// The nine-bit symbols of `head`.
pub open spec fn syms9_bits(head: Seq<u16>) -> Seq<bool>
    decreases head.len(),
{
    if head.len() == 0 {
        Seq::empty()
    } else {
        syms9_bits(head.drop_last()) + bits_of(head.last() as nat, 9)
    }
}

/// The bits of a chunk: for a first block the counted symbols, then the
/// position reached, the number of items, the three tables and the items.
pub open spec fn chunk_bits(
    first: bool,
    head: Seq<u16>,
    reached: int,
    ta: Seq<u8>,
    tb: Seq<u8>,
    tl: Seq<u8>,
    m0: LzModel,
    buf0: Seq<u8>,
    p0: int,
    ranks0: Seq<(Seq<u16>, Seq<u16>)>,
    its: Seq<ItemModel>,
) -> Seq<bool> {
    (if first { varint_bits(head.len()) + syms9_bits(head) } else { Seq::empty() }) + varint_bits(reached as nat)
        + varint_bits(its.len()) + table_bits(ta) + table_bits(tb) + table_bits(tl) + items_bits(
        ta,
        tb,
        tl,
        m0,
        buf0,
        p0,
        ranks0,
        its,
    )
}

/// Code lengths that make up one of the chunk's tables: a valid prefix code
/// over `n` symbols whose longest code is its longest length.
pub open spec fn table_ok(t: Seq<u8>, n: int) -> bool {
    &&& t.len() == n
    &&& lens_valid(t, max_len(t))
}

/// One for each of the items coded `c` in the table for items after a
/// literal (`after`) or after a match, with rankings `r0` at the start.
pub open spec fn item_code_use(
    m0: LzModel,
    buf: Seq<u8>,
    pos: int,
    r0: Seq<(Seq<u16>, Seq<u16>)>,
    its: Seq<ItemModel>,
    after: bool,
    c: int,
) -> spec_fn(int) -> nat {
    |k: int|
        {
            let st = apply_items(m0, buf, pos, its.take(k));
            if st.0.after_literal == after && rank_code_of(ranks_after(r0, item_keys(m0, buf, pos, its.take(k))), item_key(st, its[k]))
                == c {
                1nat
            } else {
                0nat
            }
        }
}

/// How often each of the `n` codes of the table for items after a literal
/// (`after`) or after a match is used by the items.
pub open spec fn table_weights(
    m0: LzModel,
    buf: Seq<u8>,
    pos: int,
    r0: Seq<(Seq<u16>, Seq<u16>)>,
    its: Seq<ItemModel>,
    after: bool,
    n: nat,
) -> Seq<u32> {
    Seq::new(n, |c: int| index_sum(item_code_use(m0, buf, pos, r0, its, after, c), its.len() as int) as u32)
}

/// One for each of the items whose long length code is `e`.
pub open spec fn item_len_use(m0: LzModel, buf: Seq<u8>, pos: int, its: Seq<ItemModel>, e: int) -> spec_fn(int) -> nat {
    |k: int| if long_len_code(apply_items(m0, buf, pos, its.take(k)), its[k]) == Some(e) { 1nat } else { 0nat }
}

/// How often each long length code is used by the items.
pub open spec fn length_weights(m0: LzModel, buf: Seq<u8>, pos: int, its: Seq<ItemModel>) -> Seq<u32> {
    Seq::new(LZ_MATCH_MAX_LEN as nat, |e: int| index_sum(item_len_use(m0, buf, pos, its, e), its.len() as int) as u32)
}

/// The rankings a chunk's items start from: for a first block every context
/// ranked in the completed order of its counted symbols, else those given.
pub open spec fn start_ranks(first: bool, head: Seq<u16>, ranks: Seq<(Seq<u16>, Seq<u16>)>) -> Seq<(Seq<u16>, Seq<u16>)> {
    if first {
        initial_ranks(completed_order(head))
    } else {
        ranks
    }
}

/// Every context's ranking is a permutation of the alphabet.
pub open spec fn all_rank_perms(ranks: Seq<(Seq<u16>, Seq<u16>)>) -> bool {
    &&& ranks.len() == 512
    &&& forall|c: int| 0 <= c < 512 ==> is_rank_perm(#[trigger] ranks[c].0, ranks[c].1)
}

/// How many of the keys rank symbol `v`.
pub open spec fn sym_count(keys: Seq<(int, int, int)>, v: int) -> nat
    decreases keys.len(),
{
    if keys.len() == 0 {
        0
    } else {
        sym_count(keys.drop_last(), v) + if keys.last().1 == v { 1nat } else { 0nat }
    }
}

/// The counted symbols of a first block: the symbols ranked more than once
/// by `keys`, each once, more frequent first and, among equally frequent,
/// lower first.
pub open spec fn counted_head(head: Seq<u16>, keys: Seq<(int, int, int)>) -> bool {
    &&& forall|v: int| 0 <= v < SYMRANK_NUM_SYMBOLS ==> (#[trigger] head.contains(v as u16) <==> sym_count(keys, v) > 1)
    &&& forall|i: int, j: int| 0 <= i < j < head.len() ==> {
        let (a, b) = (#[trigger] head[i] as int, #[trigger] head[j] as int);
        sym_count(keys, a) > sym_count(keys, b) || (sym_count(keys, a) == sym_count(keys, b) && a < b)
    }
}

/// What a chunk is made of: the counted symbols of a first block, the three
/// tables' code lengths, the items, and the zero bits that pad it.
pub struct ChunkParts {
    pub head: Seq<u16>,
    pub ta: Seq<u8>,
    pub tb: Seq<u8>,
    pub tl: Seq<u8>,
    pub its: Seq<ItemModel>,
    pub pad: nat,
}

/// `out` is a chunk made of `parts`, written with the context `m0`, rankings
/// `ranks` and the bytes of `buf` from `pos` on: the items rewrite those
/// bytes up to `end` and leave the context `m1` and rankings `ranks1`, each
/// can be read back and is coded in its table, each table holds the code
/// lengths that `HuffmanTable::new_from_sym_weights` makes (limit 15) of
/// how often the items use its codes, and the bits of `out` are the
/// chunk's bits and then zeros.
pub open spec fn chunk_parts_ok(
    parts: ChunkParts,
    first: bool,
    m0: LzModel,
    ranks: Seq<(Seq<u16>, Seq<u16>)>,
    buf: Seq<u8>,
    pos: int,
    end: int,
    m1: LzModel,
    ranks1: Seq<(Seq<u16>, Seq<u16>)>,
    out: Seq<u8>,
) -> bool {
    let r0 = start_ranks(first, parts.head, ranks);
    let its = parts.its;
    &&& 4 <= pos <= end <= buf.len()
    &&& buf.len() < crate::matcher::LZ_POS_LIMIT
    &&& apply_items(m0, buf, pos, its) == (m1, buf, end)
    &&& items_valid(m0, buf, pos, its, buf.len() as int)
    &&& its.len() <= crate::lz::LZ_CHUNK_SIZE
    &&& table_ok(parts.ta, SYMRANK_NUM_SYMBOLS as int)
    &&& table_ok(parts.tb, SYMRANK_NUM_SYMBOLS as int)
    &&& table_ok(parts.tl, LZ_MATCH_MAX_LEN as int)
    &&& huffman_built(table_weights(m0, buf, pos, r0, its, false, SYMRANK_NUM_SYMBOLS as nat), 15, parts.ta)
    &&& huffman_built(table_weights(m0, buf, pos, r0, its, true, SYMRANK_NUM_SYMBOLS as nat), 15, parts.tb)
    &&& huffman_built(length_weights(m0, buf, pos, its), 15, parts.tl)
    &&& items_coded(parts.ta, parts.tb, parts.tl, m0, buf, pos, r0, its)
    &&& all_rank_perms(r0)
    &&& ranks1 == ranks_after(r0, item_keys(m0, buf, pos, its))
    &&& first ==> distinct_symbols(parts.head) && parts.head.len() <= SYMRANK_NUM_SYMBOLS && counted_head(
        parts.head,
        item_keys(m0, buf, pos, its),
    )
    &&& bytes_bits(out) == chunk_bits(first, parts.head, end, parts.ta, parts.tb, parts.tl, m0, buf, pos, r0, its)
        + zeros(parts.pad)
    &&& parts.pad < 32
}

/// `out` is a chunk of the items `its`, written with `m0`, `ranks` and the
/// bytes of `buf` from `pos` on; the items reach `end` and leave `m1` and
/// `ranks1`.
#[verifier::opaque]
pub open spec fn chunk_encodes_items(
    first: bool,
    m0: LzModel,
    ranks: Seq<(Seq<u16>, Seq<u16>)>,
    buf: Seq<u8>,
    pos: int,
    end: int,
    m1: LzModel,
    ranks1: Seq<(Seq<u16>, Seq<u16>)>,
    out: Seq<u8>,
    its: Seq<ItemModel>,
) -> bool {
    exists|parts: ChunkParts| parts.its == its && chunk_parts_ok(parts, first, m0, ranks, buf, pos, end, m1, ranks1, out)
}

/// A chunk of given items is a chunk.
pub proof fn lemma_chunk_of_items(
    first: bool,
    m0: LzModel,
    ranks: Seq<(Seq<u16>, Seq<u16>)>,
    buf: Seq<u8>,
    pos: int,
    end: int,
    m1: LzModel,
    ranks1: Seq<(Seq<u16>, Seq<u16>)>,
    out: Seq<u8>,
    its: Seq<ItemModel>,
)
    requires
        chunk_encodes_items(first, m0, ranks, buf, pos, end, m1, ranks1, out, its),
    ensures
        chunk_encodes(first, m0, ranks, buf, pos, end, m1, ranks1, out),
{
    reveal(chunk_encodes_items);
    reveal(chunk_encodes);
    let parts = choose|parts: ChunkParts| parts.its == its && chunk_parts_ok(parts, first, m0, ranks, buf, pos, end, m1, ranks1, out);
    assert(chunk_parts_ok(parts, first, m0, ranks, buf, pos, end, m1, ranks1, out));
}

/// `out` is a chunk written with `m0`, `ranks` and the bytes of `buf` from
/// `pos` on, whose items reach `end` and leave `m1` and `ranks1`.
#[verifier::opaque]
pub open spec fn chunk_encodes(
    first: bool,
    m0: LzModel,
    ranks: Seq<(Seq<u16>, Seq<u16>)>,
    buf: Seq<u8>,
    pos: int,
    end: int,
    m1: LzModel,
    ranks1: Seq<(Seq<u16>, Seq<u16>)>,
    out: Seq<u8>,
) -> bool {
    exists|parts: ChunkParts| chunk_parts_ok(parts, first, m0, ranks, buf, pos, end, m1, ranks1, out)
}

/// Reading items moves forward and stays within `limit`.
pub proof fn lemma_dec_items_pos(input: Seq<u8>, ta: DecTable, tb: DecTable, tl: DecTable, st: DecState, n: nat, limit: int)
    requires
        st.pos <= limit,
    ensures
        dec_items(input, ta, tb, tl, st, n, limit) matches Some(s) ==> st.pos <= s.pos <= limit,
    decreases n,
{
    if n > 0 {
        lemma_dec_items_pos(input, ta, tb, tl, st, (n - 1) as nat, limit);
        match dec_items(input, ta, tb, tl, st, (n - 1) as nat, limit) {
            Some(s1) => {
                let t = if s1.m.after_literal { tb } else { ta };
                let (code, bp1) = huff_read(input, s1.bp, t);
                if code < SYMRANK_NUM_SYMBOLS {
                    let c = rank_ctx(s1.m, s1.buf, s1.pos);
                    let u = expected_word(s1.m, s1.buf, s1.pos).0;
                    let i = code_rank(code, s1.ranks[c].1[u as int] as int);
                    let sym = s1.ranks[c].0[i] as int;
                    if sym != WORD_SYMBOL && sym >= 256 {
                        let lenid = (sym - 256) % LZ_LENID_SIZE as int;
                        let roid = (sym - 256) / LZ_LENID_SIZE as int;
                        let bl = extra_bitlen(roid as nat);
                        let bp2 = bp1 + bl;
                        let (eml, bp3) = if lenid == LZ_LENID_SIZE - 1 {
                            huff_read(input, bp2, tl)
                        } else {
                            (lenid, bp2)
                        };
                        assert(eml >= 0);
                    }
                }
            },
            None => {},
        }
    }
}

/// A chunk that decodes moves forward, stays within `limit`, and records a
/// 32-bit position.
pub proof fn lemma_decode_chunk_pos(
    first: bool,
    m: LzModel,
    ranks: Seq<(Seq<u16>, Seq<u16>)>,
    buf: Seq<u8>,
    pos: int,
    input: Seq<u8>,
    limit: int,
)
    requires
        pos <= limit,
    ensures
        decode_chunk(first, m, ranks, buf, pos, input, limit) matches Some((fin, rec)) ==> pos <= fin.pos <= limit && 0
            <= rec < 0x1_0000_0000,
{
    vstd::arithmetic::power2::lemma2_to64();
    let bp0 = if first {
        match read_head(input, 0) {
            Some((h, b)) => b,
            None => 0,
        }
    } else {
        0
    };
    let r0 = if first {
        match read_head(input, 0) {
            Some((h, b)) => initial_ranks(completed_order(h)),
            None => ranks,
        }
    } else {
        ranks
    };
    let (rv, bp1) = varint_decode(input, bp0);
    let (nv, bp2) = varint_decode(input, bp1);
    let st = DecState { m, ranks: r0, buf, pos, bp: bp2 };
    match read_table(input, bp2) {
        Some((ta, bp3)) => match read_table(input, bp3) {
            Some((tb, bp4)) => match read_table(input, bp4) {
                Some((tl, bp5)) => {
                    lemma_dec_items_pos(input, ta, tb, tl, DecState { bp: bp5, ..st }, (nv % pow2(32)) as nat, limit);
                },
                None => {},
            },
            None => {},
        },
        None => {},
    }
}

/// A variable-length integer below `2^k` takes at most `2k` bits.
pub proof fn lemma_varint_len(v: nat, k: nat)
    requires
        1 <= k,
        v < pow2(k),
    ensures
        varint_bits(v).len() <= 2 * k,
    decreases v,
{
    crate::bitstream::lemma_bits_of_len(v, 2);
    if v > 1 {
        vstd::arithmetic::power2::lemma_pow2_unfold(k);
        if k == 1 {
            vstd::arithmetic::power2::lemma2_to64();
        }
        crate::bitstream::lemma_bits_of_len(2 + v % 2, 2);
        lemma_varint_len(v / 2, (k - 1) as nat);
    }
}

/// The entries of a table of lengths at most `max <= 16` take at most 74
/// bits a symbol.
proof fn lemma_table_entries_len(lens: Seq<u8>, max: nat, last: int, i: int)
    requires
        max <= 16,
        forall|j: int| 0 <= j < lens.len() ==> #[trigger] lens[j] <= max,
        0 <= i,
    ensures
        table_entries_bits(lens, max, last, i).len() <= 74 * (if i <= lens.len() { lens.len() - i } else { 0 }),
    decreases lens.len() - i,
{
    if i < lens.len() {
        lemma_table_entries_len(lens, max, if lens[i] > 0 { i } else { last }, i + 1);
        if lens[i] > 0 {
            vstd::arithmetic::power2::lemma2_to64();
            lemma_varint_len(((i - last) % (pow2(32) as int)) as nat, 32);
            lemma_varint_len((max - lens[i]) as nat, 5);
        }
    }
}

/// A table over `n <= 389` symbols takes at most 28798 bits.
pub proof fn lemma_table_len(t: Seq<u8>, n: int)
    requires
        table_ok(t, n),
        n <= SYMRANK_NUM_SYMBOLS,
    ensures
        table_bits(t).len() <= 28798,
{
    vstd::arithmetic::power2::lemma2_to64();
    lemma_varint_len(max_len(t), 5);
    lemma_table_entries_len(t, max_len(t), -1, 0);
    crate::bitstream::lemma_bits_of_len(0, 2);
}

/// Nine bits a counted symbol.
pub proof fn lemma_syms9_len(head: Seq<u16>)
    ensures
        syms9_bits(head).len() == 9 * head.len(),
    decreases head.len(),
{
    if head.len() > 0 {
        lemma_syms9_len(head.drop_last());
        crate::bitstream::lemma_bits_of_len(head.last() as nat, 9);
    }
}

/// An item takes at most 42 bits: a code of at most 16, at most 10 extra
/// offset bits and a length code of at most 16.
proof fn lemma_item_bits_len(
    ta: Seq<u8>,
    tb: Seq<u8>,
    tl: Seq<u8>,
    st: (LzModel, Seq<u8>, int),
    ranks: Seq<(Seq<u16>, Seq<u16>)>,
    it: ItemModel,
    limit: int,
)
    requires
        table_ok(ta, SYMRANK_NUM_SYMBOLS as int),
        table_ok(tb, SYMRANK_NUM_SYMBOLS as int),
        table_ok(tl, LZ_MATCH_MAX_LEN as int),
        item_valid(st, it, limit),
        item_coded(ta, tb, tl, st, ranks, it),
    ensures
        item_bits(ta, tb, tl, st, rank_code_of(ranks, item_key(st, it)), it).len() <= 42,
{
    let t = if st.0.after_literal { tb } else { ta };
    let code = rank_code_of(ranks, item_key(st, it));
    crate::bitstream::lemma_bits_of_len(canonical_code(t, max_len(t), code), t[code] as nat);
    match it {
        ItemModel::Match { ro, len } => {
            crate::lz::lemma_roid_of_range(ro);
            let id = roid_of(ro);
            crate::bitstream::lemma_bits_of_len((ro - roid_base(id as nat)) as nat, extra_bitlen(id as nat));
            match long_len_code(st, it) {
                Some(eml) => {
                    crate::bitstream::lemma_bits_of_len(canonical_code(tl, max_len(tl), eml), tl[eml] as nat);
                },
                None => {},
            }
        },
        _ => {},
    }
}

/// The items take at most 42 bits each.
proof fn lemma_items_bits_len(
    ta: Seq<u8>,
    tb: Seq<u8>,
    tl: Seq<u8>,
    m0: LzModel,
    buf0: Seq<u8>,
    p0: int,
    ranks0: Seq<(Seq<u16>, Seq<u16>)>,
    its: Seq<ItemModel>,
    limit: int,
    n: nat,
)
    requires
        table_ok(ta, SYMRANK_NUM_SYMBOLS as int),
        table_ok(tb, SYMRANK_NUM_SYMBOLS as int),
        table_ok(tl, LZ_MATCH_MAX_LEN as int),
        items_valid(m0, buf0, p0, its, limit),
        items_coded(ta, tb, tl, m0, buf0, p0, ranks0, its),
        n <= its.len(),
    ensures
        items_bits(ta, tb, tl, m0, buf0, p0, ranks0, its.take(n as int)).len() <= 42 * n,
    decreases n,
{
    if n > 0 {
        let k = (n - 1) as int;
        lemma_items_bits_len(ta, tb, tl, m0, buf0, p0, ranks0, its, limit, (n - 1) as nat);
        assert(its.take(n as int).drop_last() =~= its.take(k));
        assert(its.take(n as int).last() == its[k]);
        let st = apply_items(m0, buf0, p0, its.take(k));
        let ranks = ranks_after(ranks0, item_keys(m0, buf0, p0, its.take(k)));
        assert(item_valid(st, its[k], limit));
        assert(item_coded(ta, tb, tl, st, ranks, its[k]));
        lemma_item_bits_len(ta, tb, tl, st, ranks, its[k], limit);
    }
}

/// A chunk is shorter than 50331645 bytes.
pub proof fn lemma_chunk_size(
    first: bool,
    m0: LzModel,
    ranks: Seq<(Seq<u16>, Seq<u16>)>,
    buf: Seq<u8>,
    pos: int,
    end: int,
    m1: LzModel,
    ranks1: Seq<(Seq<u16>, Seq<u16>)>,
    out: Seq<u8>,
)
    requires
        chunk_encodes(first, m0, ranks, buf, pos, end, m1, ranks1, out),
    ensures
        out.len() < 50331645,
{
    reveal(chunk_encodes);
    vstd::arithmetic::power2::lemma2_to64();
    let parts = choose|parts: ChunkParts| chunk_parts_ok(parts, first, m0, ranks, buf, pos, end, m1, ranks1, out);
    let r0 = start_ranks(first, parts.head, ranks);
    let its = parts.its;
    let n = its.len();
    assert(its.take(n as int) =~= its);
    lemma_items_bits_len(parts.ta, parts.tb, parts.tl, m0, buf, pos, r0, its, buf.len() as int, n);
    lemma_table_len(parts.ta, SYMRANK_NUM_SYMBOLS as int);
    lemma_table_len(parts.tb, SYMRANK_NUM_SYMBOLS as int);
    lemma_table_len(parts.tl, LZ_MATCH_MAX_LEN as int);
    vstd::arithmetic::power2::lemma_pow2_strictly_increases(21, 32);
    lemma_varint_len(n, 21);
    lemma_varint_len(end as nat, 25);
    if first {
        lemma_varint_len(parts.head.len(), 9);
        lemma_syms9_len(parts.head);
    }
    crate::bitstream::lemma_bytes_bits_len(out);
}

/// A chunk covers bytes of `buf` from `pos` to `end`, with `4 <= pos`.
pub proof fn lemma_chunk_encodes_bounds(
    first: bool,
    m0: LzModel,
    ranks: Seq<(Seq<u16>, Seq<u16>)>,
    buf: Seq<u8>,
    pos: int,
    end: int,
    m1: LzModel,
    ranks1: Seq<(Seq<u16>, Seq<u16>)>,
    out: Seq<u8>,
)
    requires
        chunk_encodes(first, m0, ranks, buf, pos, end, m1, ranks1, out),
    ensures
        4 <= pos <= end <= buf.len(),
{
    reveal(chunk_encodes);
}

/// A chunk is never empty: it holds at least the position it reaches.
pub proof fn lemma_chunk_nonempty(
    first: bool,
    m0: LzModel,
    ranks: Seq<(Seq<u16>, Seq<u16>)>,
    buf: Seq<u8>,
    pos: int,
    end: int,
    m1: LzModel,
    ranks1: Seq<(Seq<u16>, Seq<u16>)>,
    out: Seq<u8>,
)
    requires
        chunk_encodes(first, m0, ranks, buf, pos, end, m1, ranks1, out),
    ensures
        out.len() > 0,
{
    reveal(chunk_encodes);
    let parts = choose|parts: ChunkParts| chunk_parts_ok(parts, first, m0, ranks, buf, pos, end, m1, ranks1, out);
    let r0 = start_ranks(first, parts.head, ranks);
    let v = end as nat;
    crate::bitstream::lemma_bits_of_len(v, 2);
    crate::bitstream::lemma_bits_of_len(2 + v % 2, 2);
    assert(varint_bits(v).len() >= 2);
    if out.len() == 0 {
        assert(bytes_bits(out).len() == 0);
        let cb = chunk_bits(first, parts.head, end, parts.ta, parts.tb, parts.tl, m0, buf, pos, r0, parts.its);
        assert(cb.len() >= varint_bits(v).len());
    }
}

} // verus!
