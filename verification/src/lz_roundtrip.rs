//! Reading a chunk back: from the bits an encoder wrote, with the bytes
//! before the chunk's start, the decoder recovers the context, the
//! rankings and the bytes the chunk covers.
use vstd::prelude::*;
use vstd::arithmetic::power2::{pow2, lemma2_to64, lemma_pow2_pos, lemma_pow2_unfold};
use vstd::arithmetic::div_mod::{lemma_fundamental_div_mod_converse, lemma_small_mod};
use crate::bitstream::{bits_of, bits_value, window, bytes_bits, zeros, lemma_window_parts, lemma_window_split, lemma_bits_value_bound,
    lemma_bits_value_of_bits, lemma_bits_of_len, lemma_bits_value_concat};
use crate::coder::{max_len, varint_bits, table_bits, parse_huffman_table, lemma_varint_roundtrip, lemma_table_roundtrip,
    lemma_output_window};
use crate::huffman::{canonical_code, law_huffman_code_decodes, lemma_lens_trim, lemma_code_fits};
use crate::lz::{roid_base, extra_bitlen, lemma_roid_of_range, distinct_symbols};
use crate::lz_format::{DecState, DecTable, huff_read, huff_bits, after, dec_item, dec_items, table_ok, item_valid, item_key,
    item_coded, item_bits, items_bits, items_valid, items_coded, rank_code_of, long_len_code, all_rank_perms, chunk_encodes,
    chunk_parts_ok, ChunkParts, chunk_bits, start_ranks, syms9_bits, read_syms9, read_head, read_table,
    decode_chunk, decode_body, decode_tables_items};
use crate::lz_model::{LzModel, ItemModel, apply_item, bucket_of, rank_ctx, expected_word, match_node, match_len_code,
    item_symbol, copy_forward, note_word, hint, encode_match_len, decode_match_len, roid_of, rank_step, apply_items,
    item_keys, ranks_after};
use crate::mem::byte_at;
use crate::symrank::{rank_update, code_rank, is_rank_perm, law_symrank_roundtrip, lemma_rank_update_perm};
use crate::{LZ_LENID_SIZE, LZ_MATCH_MAX_LEN, SYMRANK_NUM_SYMBOLS};

verus! {

/// `a` and `b` hold the same first `n` bytes.
pub open spec fn agree(a: Seq<u8>, b: Seq<u8>, n: int) -> bool {
    &&& 0 <= n <= a.len()
    &&& n <= b.len()
    &&& forall|j: int| 0 <= j < n ==> #[trigger] a[j] == b[j]
}

/// Agreeing sequences read the same below `n`, also before their start.
proof fn lemma_byte_at_agree(a: Seq<u8>, b: Seq<u8>, n: int)
    requires
        agree(a, b, n),
    ensures
        forall|j: int| j < n ==> #[trigger] byte_at(a, j) == byte_at(b, j),
{
    assert forall|j: int| j < n implies #[trigger] byte_at(a, j) == byte_at(b, j) by {
        if j >= 0 {
            assert(a[j] == b[j]);
        }
    }
}

/// What the context reads at `pos` depends only on the bytes before it.
proof fn lemma_reads_agree(m: LzModel, a: Seq<u8>, b: Seq<u8>, pos: int)
    requires
        agree(a, b, pos),
    ensures
        bucket_of(m, a, pos) == bucket_of(m, b, pos),
        rank_ctx(m, a, pos) == rank_ctx(m, b, pos),
        expected_word(m, a, pos) == expected_word(m, b, pos),
        forall|ro: int| #[trigger] match_node(m, a, pos, ro) == match_node(m, b, pos, ro),
        forall|ro: int, len: int| #[trigger] match_len_code(m, a, pos, ro, len) == match_len_code(m, b, pos, ro, len),
        forall|it: ItemModel| #[trigger] item_symbol(m, a, pos, it) == item_symbol(m, b, pos, it),
{
    lemma_byte_at_agree(a, b, pos);
    assert(byte_at(a, pos - 1) == byte_at(b, pos - 1));
    assert(byte_at(a, pos - 2) == byte_at(b, pos - 2));
    assert(byte_at(a, pos - 3) == byte_at(b, pos - 3));
}

/// Copying forward onto agreeing sequences keeps them agreeing past the copy.
proof fn lemma_copy_agree(a: Seq<u8>, b: Seq<u8>, src: int, dst: int, n: nat)
    requires
        agree(a, b, dst),
        0 <= src < dst,
        dst + n <= a.len(),
        dst + n <= b.len(),
    ensures
        agree(copy_forward(a, src, dst, n), copy_forward(b, src, dst, n), dst + n),
        copy_forward(a, src, dst, n).len() == a.len(),
        copy_forward(b, src, dst, n).len() == b.len(),
    decreases n,
{
    if n > 0 {
        lemma_copy_agree(a, b, src, dst, (n - 1) as nat);
        let ca = copy_forward(a, src, dst, (n - 1) as nat);
        let cb = copy_forward(b, src, dst, (n - 1) as nat);
        assert(ca[src + n - 1] == cb[src + n - 1]);
        let da = copy_forward(a, src, dst, n);
        let db = copy_forward(b, src, dst, n);
        assert forall|j: int| 0 <= j < dst + n implies #[trigger] da[j] == db[j] by {
            if j < dst + n - 1 {
                assert(ca[j] == cb[j]);
            }
        }
    }
}

/// An item that can be read back acts alike on agreeing bytes: the same
/// context and position follow, the bytes still agree up to it, and the
/// lengths stay.
proof fn lemma_apply_item_agree(m: LzModel, a: Seq<u8>, b: Seq<u8>, pos: int, it: ItemModel, lim: int)
    requires
        agree(a, b, pos),
        pos >= 1,
        item_valid((m, a, pos), it, lim),
        lim <= a.len(),
        lim <= b.len(),
    ensures
        ({
            let ea = apply_item(m, a, pos, it);
            let eb = apply_item(m, b, pos, it);
            &&& ea.0 == eb.0
            &&& ea.2 == eb.2
            &&& pos < ea.2 <= lim
            &&& agree(ea.1, eb.1, ea.2)
            &&& ea.1.len() == a.len()
            &&& eb.1.len() == b.len()
            &&& item_valid((m, b, pos), it, lim)
        }),
{
    lemma_reads_agree(m, a, b, pos);
    let h = bucket_of(m, a, pos);
    match it {
        ItemModel::Lit { b: bt } => {
            let a2 = a.update(pos, bt);
            let b2 = b.update(pos, bt);
            assert(agree(a2, b2, pos + 1));
            lemma_byte_at_agree(a2, b2, pos + 1);
            assert(a2[pos - 1] == b2[pos - 1]);
            assert(note_word(m.words, a2, pos + 1) == note_word(m.words, b2, pos + 1));
        },
        ItemModel::Word => {
            let w = expected_word(m, a, pos);
            let a2 = a.update(pos, w.0).update(pos + 1, w.1);
            let b2 = b.update(pos, w.0).update(pos + 1, w.1);
            assert(agree(a2, b2, pos + 2));
        },
        ItemModel::Match { ro, len } => {
            let node = match_node(m, a, pos, ro);
            let src = m.buckets[h].pos[node] as int;
            lemma_copy_agree(a, b, src, pos, len as nat);
            let a2 = copy_forward(a, src, pos, len as nat);
            let b2 = copy_forward(b, src, pos, len as nat);
            lemma_byte_at_agree(a2, b2, pos + len);
            assert(a2[pos + len - 2] == b2[pos + len - 2]);
            assert(a2[pos + len - 1] == b2[pos + len - 1]);
            assert(note_word(m.words, a2, pos + len) == note_word(m.words, b2, pos + len));
        },
    }
}

/// `tr` is `lens` up to its last symbol with a code.
pub open spec fn trimmed(tr: Seq<u8>, lens: Seq<u8>) -> bool {
    &&& tr.len() <= lens.len()
    &&& tr == lens.take(tr.len() as int)
    &&& forall|j: int| tr.len() <= j < lens.len() ==> #[trigger] lens[j] == 0
}

/// `t` is what the decoder reads for a table written with code lengths `lens`.
pub open spec fn reads_as(t: DecTable, lens: Seq<u8>, n: int) -> bool {
    &&& table_ok(lens, n)
    &&& trimmed(t.lens, lens)
    &&& t.max as nat == max_len(lens)
}

/// Reading a symbol's Huffman code back gives the symbol and moves past
/// its code.
proof fn lemma_huff_read(input: Seq<u8>, bp: int, t: DecTable, lens: Seq<u8>, n: int, s: int)
    requires
        reads_as(t, lens, n),
        n <= SYMRANK_NUM_SYMBOLS,
        0 <= s < lens.len(),
        lens[s] > 0,
        window(input, bp, huff_bits(lens, s).len()) == huff_bits(lens, s),
    ensures
        huff_read(input, bp, t) == (s, bp + lens[s]),
{
    let m = max_len(lens);
    let tr = t.lens;
    lemma_lens_trim(lens, tr, m);
    assert(s < tr.len());
    assert(tr[s] == lens[s]);
    let len = lens[s] as nat;
    let c = canonical_code(lens, m, s);
    assert(canonical_code(tr, m, s) == c);
    lemma_code_fits(tr, m, s);
    assert(len <= m);
    let rest = (m - len) as nat;
    lemma_window_split(input, bp, len, rest);
    let w1 = window(input, bp, len);
    let w2 = window(input, bp + len, rest);
    lemma_bits_of_len(c, len);
    assert(w1 == bits_of(c, len));
    lemma_bits_value_of_bits(c, len);
    lemma_bits_value_concat(w1, w2);
    lemma_bits_value_bound(w2);
    let x = bits_value(window(input, bp, m));
    assert(window(input, bp, m) == window(input, bp, len + rest));
    lemma_pow2_pos(rest);
    lemma_fundamental_div_mod_converse(x as int, pow2(rest) as int, c as int, bits_value(w2) as int);
    law_huffman_code_decodes(tr, m, s, x as int);
}

/// A match length is read back from its length code, given the same hints,
/// when it is at least the shortest hinted length.
proof fn lemma_match_len_inverse(len: int, mlmin: int, mle: int)
    requires
        len >= mlmin,
    ensures
        decode_match_len(encode_match_len(len, mlmin, mle), mlmin, mle) == len,
        encode_match_len(len, mlmin, mle) >= 0,
{
}

/// The ranking key of an item that can be read back names a context, a
/// symbol of the alphabet and a byte.
proof fn lemma_item_key_bounds(e: (LzModel, Seq<u8>, int), it: ItemModel, lim: int)
    requires
        item_valid(e, it, lim),
    ensures
        0 <= item_key(e, it).0 < 512,
        0 <= item_key(e, it).1 < SYMRANK_NUM_SYMBOLS,
        0 <= item_key(e, it).2 < 256,
{
    match it {
        ItemModel::Match { ro, len } => {
            lemma_roid_of_range(ro);
            let node = match_node(e.0, e.1, e.2, ro);
            let bk = e.0.buckets[bucket_of(e.0, e.1, e.2)];
            lemma_match_len_inverse(len, hint(bk.len_min[node]), hint(bk.len_expected[node]));
        },
        _ => {},
    }
}

/// Ranking a symbol keeps every context's ranking a permutation.
proof fn lemma_rank_step_perm(ranks: Seq<(Seq<u16>, Seq<u16>)>, key: (int, int, int))
    requires
        all_rank_perms(ranks),
        0 <= key.0 < 512,
        0 <= key.1 < SYMRANK_NUM_SYMBOLS,
    ensures
        all_rank_perms(rank_step(ranks, key)),
{
    let (c, sym, u) = key;
    lemma_rank_update_perm(ranks[c].0, ranks[c].1, ranks[c].1[sym] as int);
    let r2 = rank_step(ranks, key);
    assert forall|cc: int| 0 <= cc < 512 implies is_rank_perm(#[trigger] r2[cc].0, r2[cc].1) by {
        if cc != c {
            assert(r2[cc] == ranks[cc]);
        }
    }
}

/// Reading one item back: from a decoder state whose context, position and
/// rankings are those the item was written in, and whose bytes agree with
/// the written ones up to the position, the decoder reads the item's bits
/// and moves to the state the item leaves.
proof fn lemma_dec_item_step(
    input: Seq<u8>,
    ta: DecTable,
    tb: DecTable,
    tl: DecTable,
    lta: Seq<u8>,
    ltb: Seq<u8>,
    ltl: Seq<u8>,
    st: DecState,
    e: (LzModel, Seq<u8>, int),
    it: ItemModel,
    lim: int,
    limit: int,
)
    requires
        reads_as(ta, lta, SYMRANK_NUM_SYMBOLS as int),
        reads_as(tb, ltb, SYMRANK_NUM_SYMBOLS as int),
        reads_as(tl, ltl, LZ_MATCH_MAX_LEN as int),
        st.m == e.0,
        st.pos == e.2,
        e.2 >= 1,
        agree(st.buf, e.1, e.2),
        all_rank_perms(st.ranks),
        item_valid(e, it, lim),
        lim <= e.1.len(),
        lim <= limit,
        limit <= st.buf.len(),
        item_coded(lta, ltb, ltl, e, st.ranks, it),
        ({
            let bits = item_bits(lta, ltb, ltl, e, rank_code_of(st.ranks, item_key(e, it)), it);
            window(input, st.bp, bits.len()) == bits
        }),
    ensures
        ({
            let bits = item_bits(lta, ltb, ltl, e, rank_code_of(st.ranks, item_key(e, it)), it);
            dec_item(input, ta, tb, tl, st, limit) == Some(
                after(st, rank_step(st.ranks, item_key(e, it)), it, st.bp + bits.len()),
            )
        }),
{
    let (m, eb, pos) = e;
    let key = item_key(e, it);
    let (c, sym, u) = key;
    let code = rank_code_of(st.ranks, key);
    let bits = item_bits(lta, ltb, ltl, e, code, it);
    lemma_reads_agree(m, st.buf, eb, pos);
    assert(0 <= c < 512);
    assert(0 <= u < 256);
    match it {
        ItemModel::Match { ro, len } => {
            lemma_roid_of_range(ro);
            let node = match_node(m, eb, pos, ro);
            let bk = m.buckets[bucket_of(m, eb, pos)];
            lemma_match_len_inverse(len, hint(bk.len_min[node]), hint(bk.len_expected[node]));
        },
        _ => {},
    }
    assert(0 <= sym < SYMRANK_NUM_SYMBOLS);
    let vals = st.ranks[c].0;
    let idxs = st.ranks[c].1;
    assert(is_rank_perm(vals, idxs));
    law_symrank_roundtrip(vals, idxs, sym, u);
    let i = code_rank(code, idxs[u] as int);
    assert(i == idxs[sym] as int);
    assert(vals[i] as int == sym);
    let ranks2 = st.ranks.update(c, rank_update(vals, idxs, i));
    assert(ranks2 == rank_step(st.ranks, key));
    let lt = if m.after_literal { ltb } else { lta };
    let t = if m.after_literal { tb } else { ta };
    let sym_bits = huff_bits(lt, code);
    lemma_bits_of_len(canonical_code(lt, max_len(lt), code), lt[code] as nat);
    assert(sym_bits.len() == lt[code]);
    match it {
        ItemModel::Match { ro, len } => {
            let id = roid_of(ro);
            let bl = extra_bitlen(id as nat);
            let raw = bits_of((ro - roid_base(id as nat)) as nat, bl);
            let long: Seq<bool> = match long_len_code(e, it) {
                Some(eml) => huff_bits(ltl, eml),
                None => Seq::empty(),
            };
            assert(bits == sym_bits + raw + long);
            lemma_window_parts(input, st.bp, sym_bits + raw, long);
            lemma_window_parts(input, st.bp, sym_bits, raw);
            lemma_huff_read(input, st.bp, t, lt, SYMRANK_NUM_SYMBOLS as int, code);
            let bp1 = st.bp + sym_bits.len();
            lemma_bits_of_len((ro - roid_base(id as nat)) as nat, bl);
            lemma_bits_value_of_bits((ro - roid_base(id as nat)) as nat, bl);
            assert(bits_value(window(input, bp1, bl)) == ro - roid_base(id as nat));
            let eml = match_len_code(m, eb, pos, ro, len);
            let x = if eml < LZ_LENID_SIZE - 1 { eml } else { LZ_LENID_SIZE - 1 };
            assert(sym - 256 == id * LZ_LENID_SIZE + x);
            lemma_fundamental_div_mod_converse(sym - 256, LZ_LENID_SIZE as int, id, x);
            let bp2 = bp1 + bl;
            match long_len_code(e, it) {
                Some(l) => {
                    assert(l == eml);
                    lemma_huff_read(input, bp2, tl, ltl, LZ_MATCH_MAX_LEN as int, eml);
                    lemma_bits_of_len(canonical_code(ltl, max_len(ltl), eml), ltl[eml] as nat);
                },
                None => {},
            }
        },
        _ => {
            assert(bits == sym_bits);
            lemma_huff_read(input, st.bp, t, lt, SYMRANK_NUM_SYMBOLS as int, code);
        },
    }
}

/// Positions move forward item by item.
proof fn lemma_items_pos_mono(m0: LzModel, s: Seq<u8>, p0: int, its: Seq<ItemModel>, lim: int, k: nat, n: nat)
    requires
        items_valid(m0, s, p0, its, lim),
        k <= n <= its.len(),
    ensures
        apply_items(m0, s, p0, its.take(k as int)).2 <= apply_items(m0, s, p0, its.take(n as int)).2,
    decreases n,
{
    if k < n {
        lemma_items_pos_mono(m0, s, p0, its, lim, k, (n - 1) as nat);
        let j = (n - 1) as int;
        assert(its.take(n as int) =~= its.take(j).push(its[j]));
        crate::lz_model::lemma_apply_items_push(m0, s, p0, its.take(j), its[j]);
        assert(item_valid(apply_items(m0, s, p0, its.take(j)), its[j], lim));
    }
}

/// Items that can be read back within `lim` can be read back within the
/// position they reach.
proof fn lemma_items_valid_end(m0: LzModel, s: Seq<u8>, p0: int, its: Seq<ItemModel>, lim: int)
    requires
        items_valid(m0, s, p0, its, lim),
    ensures
        items_valid(m0, s, p0, its, apply_items(m0, s, p0, its).2),
{
    let end = apply_items(m0, s, p0, its).2;
    assert(its.take(its.len() as int) =~= its);
    assert forall|k: int| 0 <= k < its.len() implies item_valid(#[trigger] apply_items(m0, s, p0, its.take(k)), its[k], end) by {
        lemma_items_pos_mono(m0, s, p0, its, lim, (k + 1) as nat, its.len());
        assert(its.take(k + 1) =~= its.take(k).push(its[k]));
        crate::lz_model::lemma_apply_items_push(m0, s, p0, its.take(k), its[k]);
        assert(item_valid(apply_items(m0, s, p0, its.take(k)), its[k], lim));
    }
}

/// What the decoder holds after reading back the first `n` items: the
/// context, rankings and position they leave, the bits after theirs, and
/// bytes that agree with the written ones up to that position.
spec fn items_read_back(
    input: Seq<u8>,
    ta: DecTable,
    tb: DecTable,
    tl: DecTable,
    lta: Seq<u8>,
    ltb: Seq<u8>,
    ltl: Seq<u8>,
    m0: LzModel,
    sbuf: Seq<u8>,
    p0: int,
    r0: Seq<(Seq<u16>, Seq<u16>)>,
    its: Seq<ItemModel>,
    dbuf: Seq<u8>,
    bp0: int,
    limit: int,
    n: nat,
) -> bool {
    let e = apply_items(m0, sbuf, p0, its.take(n as int));
    let d = apply_items(m0, dbuf, p0, its.take(n as int));
    let ranks = ranks_after(r0, item_keys(m0, sbuf, p0, its.take(n as int)));
    let bits = items_bits(lta, ltb, ltl, m0, sbuf, p0, r0, its.take(n as int));
    &&& dec_items(input, ta, tb, tl, DecState { m: m0, ranks: r0, buf: dbuf, pos: p0, bp: bp0 }, n, limit) == Some(
        DecState { m: d.0, ranks, buf: d.1, pos: d.2, bp: bp0 + bits.len() },
    )
    &&& d.0 == e.0
    &&& d.2 == e.2
    &&& p0 <= e.2 <= sbuf.len()
    &&& agree(d.1, e.1, e.2)
    &&& d.1.len() == dbuf.len()
    &&& e.1.len() == sbuf.len()
    &&& all_rank_perms(ranks)
}

/// What reading the items back needs: the tables read as written, bytes
/// that agree before the start, room for the items, items that can be read
/// back and are coded, rankings that are permutations, and the items' bits.
spec fn items_readable(
    input: Seq<u8>,
    ta: DecTable,
    tb: DecTable,
    tl: DecTable,
    lta: Seq<u8>,
    ltb: Seq<u8>,
    ltl: Seq<u8>,
    m0: LzModel,
    sbuf: Seq<u8>,
    p0: int,
    r0: Seq<(Seq<u16>, Seq<u16>)>,
    its: Seq<ItemModel>,
    dbuf: Seq<u8>,
    bp0: int,
    limit: int,
    n: nat,
    lim: int,
) -> bool {
    let bits = items_bits(lta, ltb, ltl, m0, sbuf, p0, r0, its.take(n as int));
    &&& reads_as(ta, lta, SYMRANK_NUM_SYMBOLS as int)
    &&& reads_as(tb, ltb, SYMRANK_NUM_SYMBOLS as int)
    &&& reads_as(tl, ltl, LZ_MATCH_MAX_LEN as int)
    &&& p0 >= 1
    &&& agree(dbuf, sbuf, p0)
    &&& lim <= sbuf.len()
    &&& lim <= limit <= dbuf.len()
    &&& items_valid(m0, sbuf, p0, its, lim)
    &&& items_coded(lta, ltb, ltl, m0, sbuf, p0, r0, its)
    &&& all_rank_perms(r0)
    &&& n <= its.len()
    &&& window(input, bp0, bits.len()) == bits
}

/// One more item read back.
#[verifier::rlimit(50)]
proof fn lemma_dec_items_next(
    input: Seq<u8>,
    ta: DecTable,
    tb: DecTable,
    tl: DecTable,
    lta: Seq<u8>,
    ltb: Seq<u8>,
    ltl: Seq<u8>,
    m0: LzModel,
    sbuf: Seq<u8>,
    p0: int,
    r0: Seq<(Seq<u16>, Seq<u16>)>,
    its: Seq<ItemModel>,
    dbuf: Seq<u8>,
    bp0: int,
    limit: int,
    n: nat,
    lim: int,
)
    requires
        n > 0,
        items_readable(input, ta, tb, tl, lta, ltb, ltl, m0, sbuf, p0, r0, its, dbuf, bp0, limit, n, lim),
        items_read_back(input, ta, tb, tl, lta, ltb, ltl, m0, sbuf, p0, r0, its, dbuf, bp0, limit, (n - 1) as nat),
    ensures
        items_read_back(input, ta, tb, tl, lta, ltb, ltl, m0, sbuf, p0, r0, its, dbuf, bp0, limit, n),
{
    let st0 = DecState { m: m0, ranks: r0, buf: dbuf, pos: p0, bp: bp0 };
    let k = (n - 1) as int;
    let prev = its.take(k);
    assert(its.take(n as int) =~= prev.push(its[k]));
    assert(its.take(n as int).drop_last() =~= prev);
    let ek = apply_items(m0, sbuf, p0, prev);
    let dk = apply_items(m0, dbuf, p0, prev);
    let rk = ranks_after(r0, item_keys(m0, sbuf, p0, prev));
    let key = item_key(ek, its[k]);
    let ib = item_bits(lta, ltb, ltl, ek, rank_code_of(rk, key), its[k]);
    let pbits = items_bits(lta, ltb, ltl, m0, sbuf, p0, r0, prev);
    assert(items_bits(lta, ltb, ltl, m0, sbuf, p0, r0, its.take(n as int)) == pbits + ib);
    lemma_window_parts(input, bp0, pbits, ib);
    let st = DecState { m: dk.0, ranks: rk, buf: dk.1, pos: dk.2, bp: bp0 + pbits.len() };
    assert(dec_items(input, ta, tb, tl, st0, (n - 1) as nat, limit) == Some(st));
    assert(item_valid(ek, its[k], lim));
    assert(item_coded(lta, ltb, ltl, ek, rk, its[k]));
    lemma_dec_item_step(input, ta, tb, tl, lta, ltb, ltl, st, ek, its[k], lim, limit);
    assert(agree(ek.1, dk.1, ek.2));
    lemma_apply_item_agree(ek.0, ek.1, dk.1, ek.2, its[k], lim);
    crate::lz_model::lemma_apply_items_push(m0, sbuf, p0, prev, its[k]);
    crate::lz_model::lemma_apply_items_push(m0, dbuf, p0, prev, its[k]);
    let keys_n = item_keys(m0, sbuf, p0, its.take(n as int));
    assert(keys_n.drop_last() =~= item_keys(m0, sbuf, p0, prev));
    assert(ranks_after(r0, keys_n) == rank_step(rk, key));
    let e = apply_items(m0, sbuf, p0, its.take(n as int));
    let d = apply_items(m0, dbuf, p0, its.take(n as int));
    assert(agree(d.1, e.1, e.2));
    lemma_item_key_bounds(ek, its[k], lim);
    lemma_rank_step_perm(rk, key);
}

/// Reading the first `n` items back: from the context, rankings and
/// position they were written with, and bytes that agree with the written
/// ones before the position, the decoder reads their bits and ends in the
/// context, rankings and position they leave, its bytes agreeing with the
/// written ones up to that position.
proof fn lemma_dec_items(
    input: Seq<u8>,
    ta: DecTable,
    tb: DecTable,
    tl: DecTable,
    lta: Seq<u8>,
    ltb: Seq<u8>,
    ltl: Seq<u8>,
    m0: LzModel,
    sbuf: Seq<u8>,
    p0: int,
    r0: Seq<(Seq<u16>, Seq<u16>)>,
    its: Seq<ItemModel>,
    dbuf: Seq<u8>,
    bp0: int,
    limit: int,
    n: nat,
    lim: int,
)
    requires
        items_readable(input, ta, tb, tl, lta, ltb, ltl, m0, sbuf, p0, r0, its, dbuf, bp0, limit, n, lim),
    ensures
        items_read_back(input, ta, tb, tl, lta, ltb, ltl, m0, sbuf, p0, r0, its, dbuf, bp0, limit, n),
    decreases n,
{
    if n == 0 {
        assert(its.take(0) =~= Seq::<ItemModel>::empty());
    } else {
        let k = (n - 1) as int;
        let prev = its.take(k);
        assert(its.take(n as int).drop_last() =~= prev);
        let ek = apply_items(m0, sbuf, p0, prev);
        let rk = ranks_after(r0, item_keys(m0, sbuf, p0, prev));
        let ib = item_bits(lta, ltb, ltl, ek, rank_code_of(rk, item_key(ek, its[k])), its[k]);
        let pbits = items_bits(lta, ltb, ltl, m0, sbuf, p0, r0, prev);
        assert(items_bits(lta, ltb, ltl, m0, sbuf, p0, r0, its.take(n as int)) == pbits + ib);
        lemma_window_parts(input, bp0, pbits, ib);
        lemma_dec_items(input, ta, tb, tl, lta, ltb, ltl, m0, sbuf, p0, r0, its, dbuf, bp0, limit, (n - 1) as nat, lim);
        lemma_dec_items_next(input, ta, tb, tl, lta, ltb, ltl, m0, sbuf, p0, r0, its, dbuf, bp0, limit, n, lim);
    }
}

/// Reading back written nine-bit symbols.
proof fn lemma_syms9_roundtrip(input: Seq<u8>, bp: int, head: Seq<u16>)
    requires
        forall|i: int| 0 <= i < head.len() ==> (#[trigger] head[i] as int) < 512,
        window(input, bp, syms9_bits(head).len()) == syms9_bits(head),
    ensures
        syms9_bits(head).len() == 9 * head.len(),
        read_syms9(input, bp, head.len()) == head,
    decreases head.len(),
{
    if head.len() == 0 {
        assert(read_syms9(input, bp, 0) =~= head);
    } else {
        let h1 = head.drop_last();
        let v = head.last();
        let a = syms9_bits(h1);
        let b = bits_of(v as nat, 9);
        lemma_window_parts(input, bp, a, b);
        assert forall|i: int| 0 <= i < h1.len() implies (#[trigger] h1[i] as int) < 512 by {
            assert(h1[i] == head[i]);
        }
        lemma_syms9_roundtrip(input, bp, h1);
        lemma2_to64();
        lemma_bits_of_len(v as nat, 9);
        lemma_bits_value_of_bits(v as nat, 9);
        assert(bp + a.len() == bp + 9 * (head.len() - 1));
        assert(read_syms9(input, bp, head.len()) =~= head);
    }
}

/// Reading back the three written tables: the decoder gets tables that
/// read as the written code lengths, and goes on to the items right after.
proof fn lemma_read_tables(
    out: Seq<u8>,
    bp: int,
    lta: Seq<u8>,
    ltb: Seq<u8>,
    ltl: Seq<u8>,
    st: DecState,
    n: nat,
    limit: int,
) -> (r: (DecTable, DecTable, DecTable))
    requires
        table_ok(lta, SYMRANK_NUM_SYMBOLS as int),
        table_ok(ltb, SYMRANK_NUM_SYMBOLS as int),
        table_ok(ltl, LZ_MATCH_MAX_LEN as int),
        ({
            let tbits = table_bits(lta) + (table_bits(ltb) + table_bits(ltl));
            window(out, bp, tbits.len()) == tbits
        }),
    ensures
        reads_as(r.0, lta, SYMRANK_NUM_SYMBOLS as int),
        reads_as(r.1, ltb, SYMRANK_NUM_SYMBOLS as int),
        reads_as(r.2, ltl, LZ_MATCH_MAX_LEN as int),
        decode_tables_items(out, bp, st, n, limit) == dec_items(
            out,
            r.0,
            r.1,
            r.2,
            DecState { bp: bp + table_bits(lta).len() + table_bits(ltb).len() + table_bits(ltl).len(), ..st },
            n,
            limit,
        ),
{
    lemma2_to64();
    let eb = table_bits(lta);
    let fb = table_bits(ltb);
    let gb = table_bits(ltl);
    lemma_window_parts(out, bp, eb, fb + gb);
    lemma_window_parts(out, bp + eb.len(), fb, gb);
    let bp3 = bp + eb.len();
    let bp4 = bp3 + fb.len();
    lemma_table_roundtrip(out, bp, lta);
    lemma_table_roundtrip(out, bp3, ltb);
    lemma_table_roundtrip(out, bp4, ltl);
    let (tra, ma, q3) = parse_huffman_table(out, bp)->0;
    let (trb, mb, q4) = parse_huffman_table(out, bp3)->0;
    let (trl, ml, q5) = parse_huffman_table(out, bp4)->0;
    let ta = DecTable { lens: tra, max: ma };
    let tb = DecTable { lens: trb, max: mb };
    let tl = DecTable { lens: trl, max: ml };
    lemma_lens_trim(lta, tra, max_len(lta));
    lemma_lens_trim(ltb, trb, max_len(ltb));
    lemma_lens_trim(ltl, trl, max_len(ltl));
    assert(read_table(out, bp) == Some((ta, bp3)));
    assert(read_table(out, bp3) == Some((tb, bp4)));
    assert(read_table(out, bp4) == Some((tl, bp4 + gb.len())));
    (ta, tb, tl)
}

/// Reading back a chunk's body: the position reached, the number of items,
/// the tables and the items.
#[verifier::rlimit(50)]
proof fn lemma_read_body(parts: ChunkParts, r0: Seq<(Seq<u16>, Seq<u16>)>, m0: LzModel, sbuf: Seq<u8>, p0: int, end: int, m1: LzModel,
    out: Seq<u8>, dbuf: Seq<u8>, limit: int, bp0: int)
    requires
        4 <= p0 <= end <= sbuf.len(),
        sbuf.len() < crate::matcher::LZ_POS_LIMIT,
        apply_items(m0, sbuf, p0, parts.its) == (m1, sbuf, end),
        items_valid(m0, sbuf, p0, parts.its, sbuf.len() as int),
        parts.its.len() <= crate::lz::LZ_CHUNK_SIZE,
        table_ok(parts.ta, SYMRANK_NUM_SYMBOLS as int),
        table_ok(parts.tb, SYMRANK_NUM_SYMBOLS as int),
        table_ok(parts.tl, LZ_MATCH_MAX_LEN as int),
        items_coded(parts.ta, parts.tb, parts.tl, m0, sbuf, p0, r0, parts.its),
        all_rank_perms(r0),
        end <= limit <= dbuf.len(),
        forall|j: int| 0 <= j < p0 ==> #[trigger] dbuf[j] == sbuf[j],
        ({
            let body = varint_bits(end as nat) + (varint_bits(parts.its.len()) + (table_bits(parts.ta) + (table_bits(
                parts.tb,
            ) + (table_bits(parts.tl) + items_bits(parts.ta, parts.tb, parts.tl, m0, sbuf, p0, r0, parts.its)))));
            window(out, bp0, body.len()) == body
        }),
    ensures
        match decode_body(m0, r0, dbuf, p0, out, limit, bp0) {
            Some((fin, rec)) => {
                &&& fin.m == m1
                &&& fin.ranks == ranks_after(r0, item_keys(m0, sbuf, p0, parts.its))
                &&& fin.pos == end
                &&& rec == end
                &&& fin.buf.len() == dbuf.len()
                &&& agree(fin.buf, sbuf, end)
            },
            None => false,
        },
{
    lemma2_to64();
    let its = parts.its;
    let n = its.len();
    let (lta, ltb, ltl) = (parts.ta, parts.tb, parts.tl);
    let cb = varint_bits(end as nat);
    let db = varint_bits(n);
    let tbits = table_bits(lta) + (table_bits(ltb) + table_bits(ltl));
    let ib = items_bits(lta, ltb, ltl, m0, sbuf, p0, r0, its);
    vstd::seq_lib::lemma_concat_associative(table_bits(ltb), table_bits(ltl), ib);
    vstd::seq_lib::lemma_concat_associative(table_bits(lta), table_bits(ltb) + table_bits(ltl), ib);
    assert(db + (table_bits(lta) + (table_bits(ltb) + (table_bits(ltl) + ib))) == db + (tbits + ib));
    lemma_window_parts(out, bp0, cb, db + (tbits + ib));
    let bp1 = bp0 + cb.len();
    lemma_window_parts(out, bp1, db, tbits + ib);
    let bp2 = bp1 + db.len();
    lemma_window_parts(out, bp2, tbits, ib);
    let bp5 = bp2 + tbits.len();
    lemma_varint_roundtrip(out, bp0, end as nat);
    lemma_small_mod(end as nat, pow2(32));
    lemma_varint_roundtrip(out, bp1, n);
    lemma_small_mod(n, pow2(32));
    let st = DecState { m: m0, ranks: r0, buf: dbuf, pos: p0, bp: bp2 };
    let (ta, tb, tl) = lemma_read_tables(out, bp2, lta, ltb, ltl, st, n, limit);
    assert(DecState { bp: bp5, ..st } == DecState { m: m0, ranks: r0, buf: dbuf, pos: p0, bp: bp5 });
    assert(its.take(n as int) =~= its);
    assert(agree(dbuf, sbuf, p0));
    lemma_items_valid_end(m0, sbuf, p0, its, sbuf.len() as int);
    lemma_dec_items(out, ta, tb, tl, lta, ltb, ltl, m0, sbuf, p0, r0, its, dbuf, bp5, limit, n, end);
}

/// Reading back the counted symbols of a first block.
proof fn lemma_read_head(out: Seq<u8>, head: Seq<u16>)
    requires
        distinct_symbols(head),
        head.len() <= SYMRANK_NUM_SYMBOLS,
        ({
            let hb = varint_bits(head.len()) + syms9_bits(head);
            window(out, 0, hb.len()) == hb
        }),
    ensures
        read_head(out, 0) == Some((head, (varint_bits(head.len()) + syms9_bits(head)).len() as int)),
{
    lemma2_to64();
    let vb = varint_bits(head.len());
    let sb = syms9_bits(head);
    lemma_window_parts(out, 0, vb, sb);
    lemma_varint_roundtrip(out, 0, head.len());
    lemma_small_mod(head.len(), pow2(32));
    assert forall|i: int| 0 <= i < head.len() implies (#[trigger] head[i] as int) < 512 by {}
    lemma_syms9_roundtrip(out, vb.len() as int, head);
}

/// The bits of a written chunk, read from its start: the counted symbols of
/// a first block, then the body.
proof fn lemma_chunk_window(
    first: bool,
    head: Seq<u16>,
    end: int,
    lta: Seq<u8>,
    ltb: Seq<u8>,
    ltl: Seq<u8>,
    m0: LzModel,
    sbuf: Seq<u8>,
    p0: int,
    r0: Seq<(Seq<u16>, Seq<u16>)>,
    its: Seq<ItemModel>,
    out: Seq<u8>,
    pad: nat,
)
    requires
        bytes_bits(out) == chunk_bits(first, head, end, lta, ltb, ltl, m0, sbuf, p0, r0, its) + zeros(pad),
    ensures
        ({
            let hb: Seq<bool> = if first { varint_bits(head.len()) + syms9_bits(head) } else { Seq::empty() };
            let body = varint_bits(end as nat) + (varint_bits(its.len()) + (table_bits(lta) + (table_bits(ltb) + (
            table_bits(ltl) + items_bits(lta, ltb, ltl, m0, sbuf, p0, r0, its)))));
            &&& window(out, 0, hb.len()) == hb
            &&& window(out, hb.len() as int, body.len()) == body
        }),
{
    let hb: Seq<bool> = if first { varint_bits(head.len()) + syms9_bits(head) } else { Seq::empty() };
    let ib = items_bits(lta, ltb, ltl, m0, sbuf, p0, r0, its);
    let body = varint_bits(end as nat) + (varint_bits(its.len()) + (table_bits(lta) + (table_bits(ltb) + (table_bits(ltl)
        + ib))));
    let total = chunk_bits(first, head, end, lta, ltb, ltl, m0, sbuf, p0, r0, its);
    let (b, c, d, e, f) = (varint_bits(end as nat), varint_bits(its.len()), table_bits(lta), table_bits(ltb), table_bits(ltl));
    assert(total == hb + b + c + d + e + f + ib);
    vstd::seq_lib::lemma_concat_associative(hb + b + c + d + e, f, ib);
    vstd::seq_lib::lemma_concat_associative(hb + b + c + d, e, f + ib);
    vstd::seq_lib::lemma_concat_associative(hb + b + c, d, e + (f + ib));
    vstd::seq_lib::lemma_concat_associative(hb + b, c, d + (e + (f + ib)));
    vstd::seq_lib::lemma_concat_associative(hb, b, c + (d + (e + (f + ib))));
    assert(total == hb + body);
    assert(out.skip(0) =~= out);
    lemma_output_window(out, 0, total, pad);
    lemma_window_parts(out, 0, hb, body);
}

/// What a read gives back of a write: a chunk that the encoder wrote with
/// context `m0` and rankings `ranks` over the bytes of `sbuf` from `p0` to
/// `end` decodes, with the same context and rankings and any bytes that
/// agree with `sbuf` before `p0` and leave room up to `end`, to the
/// context and rankings the encoder was left with, the position `end` (as
/// recorded and as reached), and bytes that agree with `sbuf` up to `end`.
pub proof fn law_chunk_roundtrip(
    first: bool,
    m0: LzModel,
    ranks: Seq<(Seq<u16>, Seq<u16>)>,
    sbuf: Seq<u8>,
    p0: int,
    end: int,
    m1: LzModel,
    ranks1: Seq<(Seq<u16>, Seq<u16>)>,
    out: Seq<u8>,
    dbuf: Seq<u8>,
    limit: int,
)
    requires
        chunk_encodes(first, m0, ranks, sbuf, p0, end, m1, ranks1, out),
        end <= limit <= dbuf.len(),
        forall|j: int| 0 <= j < p0 ==> #[trigger] dbuf[j] == sbuf[j],
    ensures
        match decode_chunk(first, m0, ranks, dbuf, p0, out, limit) {
            Some((fin, rec)) => {
                &&& fin.m == m1
                &&& fin.ranks == ranks1
                &&& fin.pos == end
                &&& rec == end
                &&& fin.buf.len() == dbuf.len()
                &&& forall|j: int| 0 <= j < end ==> #[trigger] fin.buf[j] == sbuf[j]
            },
            None => false,
        },
{
    lemma2_to64();
    reveal(chunk_encodes);
    let parts = choose|parts: ChunkParts| chunk_parts_ok(parts, first, m0, ranks, sbuf, p0, end, m1, ranks1, out);
    let head = parts.head;
    let its = parts.its;
    let (lta, ltb, ltl) = (parts.ta, parts.tb, parts.tl);
    let r0 = start_ranks(first, head, ranks);
    let hb: Seq<bool> = if first { varint_bits(head.len()) + syms9_bits(head) } else { Seq::empty() };
    lemma_chunk_window(first, head, end, lta, ltb, ltl, m0, sbuf, p0, r0, its, out, parts.pad);
    let bp0 = hb.len() as int;
    if first {
        lemma_read_head(out, head);
    }
    lemma_read_body(parts, r0, m0, sbuf, p0, end, m1, out, dbuf, limit, bp0);
}

} // verus!
