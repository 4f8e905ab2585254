//! The Lempel-Ziv layer: contexts, reduced offsets, and the block encoder
//! and decoder.
use vstd::prelude::*;
use vstd::arithmetic::power2::{pow2, lemma2_to64, lemma_pow2_adds};
use crate::mem::{byte_at, read_byte};
use crate::matcher::{Bucket, BucketMatcher, Match, LZ_POS_LIMIT};
use crate::symrank::{SymRankCoder, is_perm_of_alphabet, perm_indices};
use crate::coder::{Encoder, Decoder, varint_decode};
use crate::huffman::{HuffmanTable, HuffmanEncoding, HuffmanDecoding, code_base};
use crate::mem::mem_fast_copy;
use crate::lz_format::{DecState, DecTable, table_decodable, dec_item, dec_items, read_head, read_syms9, read_table, initial_ranks,
    decode_chunk, decode_body, lemma_dec_items_none, chunk_encodes_items, chunk_parts_ok, ChunkParts, chunk_bits, start_ranks,
    syms9_bits, sym_count, counted_head};
use crate::lz_chunk::{rank_items, mi_keys, mi_long_len, mi_bits, mis_bits, encodes_lens, lemma_encodes_bits, lemma_items_spell,
    lemma_items_agree_valid, lemma_items_coded, lemma_table_weights, lemma_length_weights};
use crate::lz_model::{model_forward, initial_model, item_keys};
use crate::lz_parse::{ParseState, matchers_model, lazy_at, lazy_choice, parse_step, parse_run, cut_link, mats_forward, empty_chains};
use crate::matcher::bucket_forward;
use crate::coder::{varint_bits, table_bits};
use crate::bitstream::{bytes_bits, zeros};
use crate::symrank::is_rank_perm;
use crate::huffman::decoding_entry;
use crate::symrank::{rank_update, code_rank};
use crate::lz_model::{LzModel, ItemModel, bucket_of, rank_ctx, expected_word, roid_of, hint, match_node,
    match_len_code, item_symbol, apply_item, apply_items};
use crate::sums::{index_sum, weight_sum, lemma_index_sum_point, lemma_index_sum_const,
    lemma_index_sum_count_bound};
use crate::{LZ_MF_BUCKET_ITEM_SIZE, LZ_ROID_SIZE, LZ_LENID_SIZE, SYMRANK_NUM_SYMBOLS, LZ_MATCH_MAX_LEN, LZ_MATCH_MIN_LEN};

verus! {

/// Match items per chunk at most.
pub const LZ_CHUNK_SIZE: usize = 0x10_0000;

/// The symbol that repeats the two bytes expected in the current context.
pub const WORD_SYMBOL: u16 = 388;

/// Lempel-Ziv matching options.
pub struct LZCfg {
    pub match_depth: usize,
    pub lazy_match_depth1: usize,
    pub lazy_match_depth2: usize,
}

impl LZCfg {
    /// The match depth and the two lazy match depths.
    pub open spec fn depths(&self) -> (int, int, int) {
        (self.match_depth as int, self.lazy_match_depth1 as int, self.lazy_match_depth2 as int)
    }

    pub fn new(match_depth: usize, lazy_match_depth1: usize, lazy_match_depth2: usize) -> (r: Self)
        ensures
            r.match_depth == match_depth,
            r.lazy_match_depth1 == lazy_match_depth1,
            r.lazy_match_depth2 == lazy_match_depth2,
    {
        LZCfg { match_depth, lazy_match_depth1, lazy_match_depth2 }
    }
}

/// Extra bits after reduced-offset class `i`.
pub open spec fn extra_bitlen(i: nat) -> nat {
    i / 2
}

/// The first reduced offset of class `i`: the classes before it, each
/// `2^extra_bitlen` wide, end there.
pub open spec fn roid_base(i: nat) -> nat
    decreases i,
{
    if i == 0 {
        0
    } else {
        roid_base((i - 1) as nat) + pow2(extra_bitlen((i - 1) as nat))
    }
}

/// Extra bits after reduced-offset class `i`.
pub fn get_extra_bitlen(i: usize) -> (r: usize)
    ensures
        r == extra_bitlen(i as nat),
{
    i / 2
}

/// `roid_base` in closed form.
proof fn lemma_roid_base(i: nat)
    ensures
        i % 2 == 0 ==> roid_base(i) + 2 == 2 * pow2(i / 2),
        i % 2 == 1 ==> roid_base(i) + 2 == 3 * pow2(i / 2),
    decreases i,
{
    if i > 0 {
        lemma_roid_base((i - 1) as nat);
        if i % 2 == 0 {
            lemma_pow2_adds(1, ((i - 1) / 2) as nat);
            lemma2_to64();
            assert((i - 1) / 2 + 1 == i / 2);
        } else {
            assert((i - 1) / 2 == i / 2);
        }
    } else {
        lemma2_to64();
    }
}

/// The reduced-offset classes cover the nodes of a bucket exactly.
proof fn lemma_roid_bases()
    ensures
        roid_base(LZ_ROID_SIZE as nat) == LZ_MF_BUCKET_ITEM_SIZE,
        forall|i: nat| i < LZ_ROID_SIZE ==> #[trigger] roid_base(i) < LZ_MF_BUCKET_ITEM_SIZE,
        forall|i: nat, j: nat| i <= j ==> #[trigger] roid_base(i) <= #[trigger] roid_base(j),
{
    lemma_roid_base(LZ_ROID_SIZE as nat);
    lemma_roid_base(21);
    lemma2_to64();
    assert forall|i: nat, j: nat| i <= j implies #[trigger] roid_base(i) <= #[trigger] roid_base(j) by {
        lemma_roid_base_mono(i, j);
    }
    assert forall|i: nat| i < LZ_ROID_SIZE implies #[trigger] roid_base(i) < LZ_MF_BUCKET_ITEM_SIZE by {
        lemma_roid_base_mono(i, 21);
    }
}

/// The class of an offset is the one whose range holds it.
pub proof fn lemma_roid_of(ro: int, id: int, bits: int)
    requires
        0 <= id < LZ_ROID_SIZE,
        0 <= bits < pow2(extra_bitlen(id as nat)),
        roid_base(id as nat) + bits == ro,
    ensures
        roid_of(ro) == id,
{
    let c = roid_of(ro);
    assert(roid_base(id as nat) <= ro < roid_base(id as nat) + pow2(extra_bitlen(id as nat)));
    if c < id {
        lemma_roid_base_mono((c + 1) as nat, id as nat);
    } else if c > id {
        lemma_roid_base_mono((id + 1) as nat, c as nat);
    }
}

/// Each reduced offset of a bucket lies in a class below `j`, where the
/// offset lies below the base of class `j`.
proof fn lemma_roid_exists(ro: int, j: nat)
    requires
        0 <= ro < roid_base(j),
        j <= LZ_ROID_SIZE,
    ensures
        exists|id: int| 0 <= id < LZ_ROID_SIZE && #[trigger] roid_base(id as nat) <= ro < roid_base(id as nat) + pow2(
            extra_bitlen(id as nat),
        ),
    decreases j,
{
    let i = (j - 1) as nat;
    if roid_base(i) <= ro {
        assert(roid_base(j) == roid_base(i) + pow2(extra_bitlen(i)));
        assert(roid_base(i as int as nat) <= ro < roid_base(i as int as nat) + pow2(extra_bitlen(i as int as nat)));
    } else {
        lemma_roid_exists(ro, i);
    }
}

/// The class of a reduced offset of a bucket holds it.
pub proof fn lemma_roid_of_range(ro: int)
    requires
        0 <= ro < LZ_MF_BUCKET_ITEM_SIZE,
    ensures
        0 <= roid_of(ro) < LZ_ROID_SIZE,
        roid_base(roid_of(ro) as nat) <= ro < roid_base(roid_of(ro) as nat) + pow2(extra_bitlen(roid_of(ro) as nat)),
{
    lemma_roid_bases();
    lemma_roid_exists(ro, LZ_ROID_SIZE as nat);
}

proof fn lemma_roid_base_mono(i: nat, j: nat)
    requires
        i <= j,
    ensures
        roid_base(i) <= roid_base(j),
    decreases j,
{
    if i < j {
        lemma_roid_base_mono(i, (j - 1) as nat);
    }
}

/// `2^e`.
fn pow2_usize(e: usize) -> (r: usize)
    requires
        e < 32,
    ensures
        r == pow2(e as nat),
{
    let mut r: usize = 1;
    let mut k: usize = 0;
    proof {
        lemma2_to64();
    }
    while k < e
        invariant
            k <= e,
            e < 32,
            r == pow2(k as nat),
        decreases e - k,
    {
        proof {
            lemma_pow2_adds(k as nat, 1);
            lemma2_to64();
            vstd::arithmetic::power2::lemma_pow2_strictly_increases((k + 1) as nat, 32);
        }
        r = r * 2;
        k = k + 1;
    }
    r
}

/// The table of every reduced offset below the bucket size: its class, the
/// number of extra bits, and the extra bits (its distance from the class base).
pub open spec fn is_roid_encoding(t: Seq<(u8, u8, u16)>) -> bool {
    &&& t.len() == LZ_MF_BUCKET_ITEM_SIZE
    &&& forall|ro: int| 0 <= ro < LZ_MF_BUCKET_ITEM_SIZE ==> {
        let (id, bits_len, bits) = #[trigger] t[ro];
        &&& (id as int) < LZ_ROID_SIZE
        &&& bits_len as nat == extra_bitlen(id as nat)
        &&& (bits as nat) < pow2(bits_len as nat)
        &&& roid_base(id as nat) + bits == ro
    }
}

/// The table of every class: its base and its number of extra bits.
pub open spec fn is_roid_decoding(t: Seq<(u16, u8)>) -> bool {
    &&& t.len() == LZ_ROID_SIZE
    &&& forall|id: int| 0 <= id < LZ_ROID_SIZE ==> #[trigger] t[id] == (roid_base(id as nat) as u16, extra_bitlen(
        id as nat,
    ) as u8)
}

/// A class and its extra bits name the reduced offset they came from.
pub proof fn law_roid_roundtrip(enc: Seq<(u8, u8, u16)>, dec: Seq<(u16, u8)>, ro: int)
    requires
        is_roid_encoding(enc),
        is_roid_decoding(dec),
        0 <= ro < LZ_MF_BUCKET_ITEM_SIZE,
    ensures
        dec[enc[ro].0 as int].1 == enc[ro].1,
        dec[enc[ro].0 as int].0 + enc[ro].2 == ro,
{
    let (id, bits_len, bits) = enc[ro];
    lemma_roid_bases();
    assert(roid_base(id as nat) < LZ_MF_BUCKET_ITEM_SIZE);
    assert(extra_bitlen(id as nat) < 256);
}

/// The reduced-offset encoding table: classes in order, each taking the
/// next `2^extra_bitlen` offsets.
pub fn generate_extra_bit_codes_enc() -> (r: Vec<(u8, u8, u16)>)
    ensures
        is_roid_encoding(r@),
{
    let mut encs: Vec<(u8, u8, u16)> = Vec::new();
    let mut base: usize = 0;
    let mut current_id: usize = 0;
    proof {
        lemma_roid_bases();
    }
    while base < LZ_MF_BUCKET_ITEM_SIZE
        invariant
            current_id <= LZ_ROID_SIZE,
            base == roid_base(current_id as nat),
            base <= LZ_MF_BUCKET_ITEM_SIZE,
            encs.len() == base,
            current_id == LZ_ROID_SIZE ==> base == LZ_MF_BUCKET_ITEM_SIZE,
            forall|ro: int| 0 <= ro < base ==> {
                let (id, bits_len, bits) = #[trigger] encs@[ro];
                &&& (id as int) < LZ_ROID_SIZE
                &&& bits_len as nat == extra_bitlen(id as nat)
                &&& (bits as nat) < pow2(bits_len as nat)
                &&& roid_base(id as nat) + bits == ro
            },
        decreases LZ_ROID_SIZE - current_id,
    {
        proof {
            lemma_roid_bases();
        }
        let bit_len = get_extra_bitlen(current_id);
        let span = pow2_usize(bit_len);
        let mut rest_bits: usize = 0;
        while rest_bits != span
            invariant
                current_id < LZ_ROID_SIZE,
                bit_len == extra_bitlen(current_id as nat),
                span == pow2(bit_len as nat),
                rest_bits <= span,
                base == roid_base(current_id as nat) + rest_bits,
                base <= LZ_MF_BUCKET_ITEM_SIZE,
                roid_base((current_id + 1) as nat) <= LZ_MF_BUCKET_ITEM_SIZE,
                encs.len() == base,
                forall|ro: int| 0 <= ro < base ==> {
                    let (id, bits_len, bits) = #[trigger] encs@[ro];
                    &&& (id as int) < LZ_ROID_SIZE
                    &&& bits_len as nat == extra_bitlen(id as nat)
                    &&& (bits as nat) < pow2(bits_len as nat)
                    &&& roid_base(id as nat) + bits == ro
                },
            decreases span - rest_bits,
        {
            if base < LZ_MF_BUCKET_ITEM_SIZE {
                encs.push((current_id as u8, bit_len as u8, rest_bits as u16));
                base = base + 1;
            }
            rest_bits = rest_bits + 1;
        }
        current_id = current_id + 1;
    }
    encs
}

/// The reduced-offset decoding table: each class's base and extra bits.
pub fn generate_extra_bit_codes_dec() -> (r: Vec<(u16, u8)>)
    ensures
        is_roid_decoding(r@),
{
    let mut decs: Vec<(u16, u8)> = Vec::new();
    let mut base: usize = 0;
    let mut current_id: usize = 0;
    proof {
        lemma_roid_bases();
    }
    while base < LZ_MF_BUCKET_ITEM_SIZE
        invariant
            current_id <= LZ_ROID_SIZE,
            base == roid_base(current_id as nat),
            decs.len() == current_id,
            forall|id: int| 0 <= id < current_id ==> #[trigger] decs@[id] == (roid_base(id as nat) as u16,
                extra_bitlen(id as nat) as u8),
        decreases LZ_ROID_SIZE - current_id,
    {
        proof {
            lemma_roid_bases();
            if current_id == LZ_ROID_SIZE {
                assert(false);
            }
        }
        let bit_len = get_extra_bitlen(current_id);
        decs.push((base as u16, bit_len as u8));
        let span = pow2_usize(bit_len);
        proof {
            lemma_roid_bases();
            assert(roid_base((current_id + 1) as nat) == base + span);
            assert(roid_base((current_id + 1) as nat) <= roid_base(LZ_ROID_SIZE as nat));
        }
        base = base + span;
        current_id = current_id + 1;
    }
    proof {
        lemma_roid_bases();
        if current_id < LZ_ROID_SIZE {
            assert(roid_base(current_id as nat) < LZ_MF_BUCKET_ITEM_SIZE);
        }
    }
    decs
}

/// An ASCII letter or digit.
pub open spec fn is_alnum(b: u8) -> bool {
    (48 <= b <= 57) || (65 <= b <= 90) || (97 <= b <= 122)
}

/// The context of position `pos`: the low seven bits of its byte, and
/// whether the byte before it is a letter or digit.
pub open spec fn hash1_spec(s: Seq<u8>, pos: int) -> int {
    byte_at(s, pos) % 128 + if is_alnum(byte_at(s, pos - 1)) { 128int } else { 0int }
}

/// The word context of position `pos`: the low seven bits of its byte
/// above the context of the position before it.
pub open spec fn hash2_spec(s: Seq<u8>, pos: int) -> int {
    byte_at(s, pos) % 128 + 128 * hash1_spec(s, pos - 1)
}

/// `u8::is_ascii_alphanumeric`.
pub fn is_ascii_alphanumeric(b: u8) -> (r: bool)
    ensures
        r == is_alnum(b),
{
    (48 <= b && b <= 57) || (65 <= b && b <= 90) || (97 <= b && b <= 122)
}

/// The context of position `pos`, in `0..256`.
pub fn hash1(buf: &[u8], pos: usize) -> (r: usize)
    requires
        1 <= pos,
    ensures
        r == hash1_spec(buf@, pos as int),
        r < 256,
{
    let b = read_byte(buf, pos) as usize % 128;
    if is_ascii_alphanumeric(read_byte(buf, pos - 1)) {
        b + 128
    } else {
        b
    }
}

/// The word context of position `pos`, in `0..32768`.
pub fn hash2(buf: &[u8], pos: usize) -> (r: usize)
    requires
        2 <= pos,
    ensures
        r == hash2_spec(buf@, pos as int),
        r < 32768,
{
    let b = read_byte(buf, pos) as usize % 128;
    b + 128 * hash1(buf, pos - 1)
}

/// The state that the encoder and the decoder keep alike: a bucket per
/// context, a symbol ranking per context and literal flag, the two bytes
/// last seen after each word context, whether the first block is still to
/// come, and whether the last item was a literal byte.
pub struct LZContext {
    pub buckets: Vec<Bucket>,
    pub symranks: Vec<SymRankCoder>,
    pub words: Vec<(u8, u8)>,
    pub first_block: bool,
    pub after_literal: bool,
}

impl LZContext {
    /// The buckets, words and literal flag.
    pub open spec fn model(&self) -> LzModel {
        LzModel {
            buckets: self.buckets@.map_values(|b: Bucket| b.model()),
            words: self.words@,
            after_literal: self.after_literal,
        }
    }

    /// The symbol rankings, as (symbol at each rank, rank of each symbol).
    pub open spec fn ranks(&self) -> Seq<(Seq<u16>, Seq<u16>)> {
        self.symranks@.map_values(|s: SymRankCoder| (s.values(), s.indices()))
    }

    pub open spec fn wf(&self) -> bool {
        &&& self.buckets.len() == 256
        &&& forall|b: int| 0 <= b < 256 ==> (#[trigger] self.buckets@[b]).wf()
        &&& self.symranks.len() == 512
        &&& forall|c: int| 0 <= c < 512 ==> (#[trigger] self.symranks@[c]).values().len() == SYMRANK_NUM_SYMBOLS
            && self.symranks@[c].indices().len() == SYMRANK_NUM_SYMBOLS
        &&& !self.first_block ==> forall|c: int| 0 <= c < 512 ==> (#[trigger] self.symranks@[c]).wf()
        &&& self.words.len() == 32768
    }

    /// Empty buckets, blank rankings, zero words; the first block is to come.
    pub fn new() -> (r: Self)
        ensures
            r.wf(),
            r.first_block,
            r.after_literal,
            r.model() == initial_model(),
    {
        let mut buckets: Vec<Bucket> = Vec::new();
        for i in 0..256usize
            invariant
                buckets.len() == i,
                forall|b: int| 0 <= b < i ==> (#[trigger] buckets@[b]).wf(),
                forall|b: int| 0 <= b < i ==> (#[trigger] buckets@[b]).model() == initial_model().buckets[b],
        {
            let bk = Bucket::new();
            proof {
                assert(bk.model().pos =~= initial_model().buckets[i as int].pos);
                assert(bk.model().len_min =~= initial_model().buckets[i as int].len_min);
                assert(bk.model().len_expected =~= initial_model().buckets[i as int].len_expected);
            }
            buckets.push(bk);
        }
        let mut symranks: Vec<SymRankCoder> = Vec::new();
        for i in 0..512usize
            invariant
                symranks.len() == i,
                forall|c: int| 0 <= c < i ==> (#[trigger] symranks@[c]).values().len() == SYMRANK_NUM_SYMBOLS
                    && symranks@[c].indices().len() == SYMRANK_NUM_SYMBOLS,
        {
            symranks.push(SymRankCoder::new());
        }
        let mut words: Vec<(u8, u8)> = Vec::new();
        for i in 0..32768usize
            invariant
                words.len() == i,
                forall|k: int| 0 <= k < i ==> #[trigger] words@[k] == (0u8, 0u8),
        {
            words.push((0, 0));
        }
        let r = LZContext { buckets, symranks, words, first_block: true, after_literal: true };
        proof {
            assert(r.model().buckets =~= initial_model().buckets);
            assert(r.model().words =~= initial_model().words);
        }
        r
    }

    /// Ranks every context's symbols in the ordering `vs`; the first block is done.
    pub fn init_ranks(&mut self, vs: &Vec<u16>)
        requires
            old(self).wf(),
            is_perm_of_alphabet(vs@),
        ensures
            final(self).wf(),
            !final(self).first_block,
            final(self).model() == old(self).model(),
            final(self).ranks() == Seq::new(512, |c: int| (vs@, perm_indices(vs@))),
    {
        let mut initial_symrank = SymRankCoder::new();
        initial_symrank.init(vs.as_slice());
        for c in 0..512usize
            invariant
                self.wf(),
                self.model() == old(self).model(),
                self.first_block == old(self).first_block,
                initial_symrank.wf(),
                initial_symrank.values() == vs@,
                initial_symrank.indices() == perm_indices(vs@),
                forall|k: int| 0 <= k < c ==> (#[trigger] self.symranks@[k]).wf() && self.symranks@[k].values() == vs@
                    && self.symranks@[k].indices() == perm_indices(vs@),
        {
            self.symranks.set(c, initial_symrank.duplicate());
        }
        self.first_block = false;
        assert(self.ranks() =~= Seq::new(512, |c: int| (vs@, perm_indices(vs@))));
    }
}

/// One step of a block: a symbol (a byte or the word symbol), or a match
/// with its class-and-length symbol, extra offset bits and length code.
pub enum MatchItem {
    Match {
        symbol: u16,
        symrank_context: u16,
        symrank_unlikely: u8,
        robitlen: u8,
        robits: u16,
        encoded_match_len: u8,
        after_literal: bool,
    },
    Symbol { symbol: u16, symrank_context: u16, symrank_unlikely: u8, after_literal: bool },
}

/// Every field in range for the coders.
pub open spec fn item_ok(m: MatchItem) -> bool {
    match m {
        MatchItem::Match {
            symbol,
            symrank_context,
            robitlen,
            robits,
            encoded_match_len,
            after_literal,
            ..
        } => {
            &&& 256 <= symbol < WORD_SYMBOL
            &&& symrank_context < 512
            &&& symrank_context >= 256 <==> after_literal
            &&& robitlen <= 10
            &&& (robits as nat) < pow2(robitlen as nat)
            &&& encoded_match_len < LZ_MATCH_MAX_LEN
        },
        MatchItem::Symbol { symbol, symrank_context, after_literal, .. } => {
            &&& (symbol < 256 || symbol == WORD_SYMBOL)
            &&& symrank_context < 512
            &&& symrank_context >= 256 <==> after_literal
        },
    }
}

/// The items written so far agree with what they do, each in the state the
/// ones before it leave.
pub open spec fn items_agree(
    m0: LzModel,
    s: Seq<u8>,
    p0: int,
    its: Seq<ItemModel>,
    items: Seq<MatchItem>,
    limit: int,
) -> bool {
    &&& its.len() == items.len()
    &&& forall|k: int| 0 <= k < its.len() ==> {
        let st = #[trigger] apply_items(m0, s, p0, its.take(k));
        item_agrees(items[k], st.0, st.1, st.2, its[k], limit)
    }
}

/// One more item that agrees with what it does keeps the items in agreement.
proof fn lemma_items_agree_push(
    m0: LzModel,
    s: Seq<u8>,
    p0: int,
    its: Seq<ItemModel>,
    items: Seq<MatchItem>,
    x: MatchItem,
    it: ItemModel,
    limit: int,
)
    requires
        items_agree(m0, s, p0, its, items, limit),
        ({
            let st = apply_items(m0, s, p0, its);
            item_agrees(x, st.0, st.1, st.2, it, limit)
        }),
    ensures
        items_agree(m0, s, p0, its.push(it), items.push(x), limit),
{
    assert(its.push(it).take(its.len() as int) =~= its);
    assert forall|k: int| 0 <= k < its.len() + 1 implies {
        let st = #[trigger] apply_items(m0, s, p0, its.push(it).take(k));
        item_agrees(items.push(x)[k], st.0, st.1, st.2, its.push(it)[k], limit)
    } by {
        if k < its.len() {
            assert(its.push(it).take(k) =~= its.take(k));
        }
    }
}

/// The symbol of an item.
pub open spec fn mi_symbol(m: MatchItem) -> u16 {
    match m {
        MatchItem::Match { symbol, .. } => symbol,
        MatchItem::Symbol { symbol, .. } => symbol,
    }
}

/// The ranking context of an item.
pub open spec fn mi_context(m: MatchItem) -> u16 {
    match m {
        MatchItem::Match { symrank_context, .. } => symrank_context,
        MatchItem::Symbol { symrank_context, .. } => symrank_context,
    }
}

/// The unlikely symbol of an item's context.
pub open spec fn mi_unlikely(m: MatchItem) -> u8 {
    match m {
        MatchItem::Match { symrank_unlikely, .. } => symrank_unlikely,
        MatchItem::Symbol { symrank_unlikely, .. } => symrank_unlikely,
    }
}

/// Whether an item follows a literal byte.
pub open spec fn mi_after_literal(m: MatchItem) -> bool {
    match m {
        MatchItem::Match { after_literal, .. } => after_literal,
        MatchItem::Symbol { after_literal, .. } => after_literal,
    }
}

/// Every position recorded in the buckets comes before `p`.
pub open spec fn positions_below(m: LzModel, p: int) -> bool {
    forall|b: int, i: int| 0 <= b < 256 && 0 <= i < LZ_MF_BUCKET_ITEM_SIZE ==> (#[trigger] m.buckets[b].pos[i]) < p
}

/// Once every position moves `f` back, positions that were below `p` are
/// below `q`, where `q` is positive and at least `p - f`.
pub proof fn lemma_positions_forward(m: LzModel, p: int, f: int, q: int)
    requires
        positions_below(m, p),
        m.buckets.len() == 256,
        forall|b: int| 0 <= b < 256 ==> (#[trigger] m.buckets[b]).pos.len() == LZ_MF_BUCKET_ITEM_SIZE,
        0 <= f,
        p - f <= q,
        1 <= q,
    ensures
        positions_below(model_forward(m, f), q),
{
    assert forall|b: int, i: int| 0 <= b < 256 && 0 <= i < LZ_MF_BUCKET_ITEM_SIZE implies (#[trigger] model_forward(
        m,
        f,
    ).buckets[b].pos[i]) < q by {
        assert(m.buckets[b].pos[i] < p);
    }
}

/// A new context's positions are all zero.
pub proof fn lemma_initial_positions()
    ensures
        positions_below(initial_model(), 1),
{
}

/// The item as written agrees with what it does at `pos`: its ranking
/// context, unlikely symbol, literal flag and symbol, and for a match its
/// offset class bits and length code; a match refers back to a position
/// before `pos`, is at least as long as its node's `match_len_min` hint, and
/// ends by `limit`.
pub open spec fn item_agrees(x: MatchItem, m: LzModel, buf: Seq<u8>, pos: int, it: ItemModel, limit: int) -> bool {
    &&& mi_context(x) == rank_ctx(m, buf, pos)
    &&& mi_unlikely(x) == expected_word(m, buf, pos).0
    &&& mi_after_literal(x) == m.after_literal
    &&& mi_symbol(x) as int == item_symbol(m, buf, pos, it)
    &&& match it {
        ItemModel::Lit { b } => x is Symbol && pos + 1 <= limit,
        ItemModel::Word => x is Symbol && pos + 2 <= limit,
        ItemModel::Match { ro, len } => {
            let bk = m.buckets[bucket_of(m, buf, pos)];
            let node = match_node(m, buf, pos, ro);
            &&& x matches MatchItem::Match { robitlen, robits, encoded_match_len, .. }
            &&& robitlen as nat == extra_bitlen(roid_of(ro) as nat)
            &&& roid_base(roid_of(ro) as nat) + robits == ro
            &&& encoded_match_len as int == match_len_code(m, buf, pos, ro, len)
            &&& 0 <= ro < LZ_MF_BUCKET_ITEM_SIZE
            &&& LZ_MATCH_MIN_LEN <= len <= LZ_MATCH_MAX_LEN
            &&& len >= hint(bk.len_min[node])
            &&& bk.pos[node] < pos
            &&& pos + len <= limit
        },
    }
}

impl MatchItem {
    fn symbol(&self) -> (r: u16)
        ensures
            r == mi_symbol(*self),
    {
        match self {
            MatchItem::Match { symbol, .. } => *symbol,
            MatchItem::Symbol { symbol, .. } => *symbol,
        }
    }
}

/// The encoder: the shared context, a matcher per bucket, and the
/// reduced-offset table.
pub struct LZEncoder {
    pub ctx: LZContext,
    pub bucket_matchers: Vec<BucketMatcher>,
    pub roid_encoding: Vec<(u8, u8, u16)>,
}

impl LZEncoder {
    pub open spec fn wf(&self) -> bool {
        &&& self.ctx.wf()
        &&& self.bucket_matchers.len() == 256
        &&& forall|b: int| 0 <= b < 256 ==> (#[trigger] self.bucket_matchers@[b]).wf()
        &&& is_roid_encoding(self.roid_encoding@)
    }

    pub fn new() -> (r: Self)
        ensures
            r.wf(),
            r.ctx.first_block,
            r.ctx.after_literal,
            r.ctx.model() == initial_model(),
            matchers_model(r.bucket_matchers@) == empty_chains(),
    {
        let ctx = LZContext::new();
        let mut bucket_matchers: Vec<BucketMatcher> = Vec::new();
        for i in 0..256usize
            invariant
                bucket_matchers.len() == i,
                forall|b: int| 0 <= b < i ==> (#[trigger] bucket_matchers@[b]).wf(),
                forall|b: int| 0 <= b < i ==> (#[trigger] bucket_matchers@[b]).heads@ == empty_chains()[b].0
                    && bucket_matchers@[b].nexts@ == empty_chains()[b].1,
        {
            bucket_matchers.push(BucketMatcher::new());
            proof {
                let bm = bucket_matchers@[i as int];
                assert(bm.heads@ =~= empty_chains()[i as int].0);
                assert(bm.nexts@ =~= empty_chains()[i as int].1);
            }
        }
        proof {
            assert forall|b: int| 0 <= b < 256 implies #[trigger] matchers_model(bucket_matchers@)[b] == empty_chains()[b] by {
                assert(bucket_matchers@[b].heads@ == empty_chains()[b].0);
            }
            assert(matchers_model(bucket_matchers@) =~= empty_chains());
        }
        LZEncoder { ctx, bucket_matchers, roid_encoding: generate_extra_bit_codes_enc() }
    }

    /// Moves every recorded position `forward_len` back, and drops the
    /// chain links to positions that reach zero.
    pub fn forward(&mut self, forward_len: usize)
        requires
            old(self).wf(),
        ensures
            final(self).wf(),
            final(self).ctx.model() == model_forward(old(self).ctx.model(), forward_len as int),
            final(self).ctx.ranks() == old(self).ctx.ranks(),
            final(self).ctx.first_block == old(self).ctx.first_block,
            matchers_model(final(self).bucket_matchers@) == mats_forward(
                matchers_model(old(self).bucket_matchers@),
                final(self).ctx.model(),
            ),
    {
        let ghost mats0 = matchers_model(self.bucket_matchers@);
        for i in 0..256usize
            invariant
                self.wf(),
                self.ctx.words@ == old(self).ctx.words@,
                self.ctx.after_literal == old(self).ctx.after_literal,
                self.ctx.first_block == old(self).ctx.first_block,
                self.ctx.symranks@ == old(self).ctx.symranks@,
                self.ctx.buckets.len() == 256,
                mats0 == matchers_model(old(self).bucket_matchers@),
                self.bucket_matchers.len() == 256,
                old(self).bucket_matchers.len() == 256,
                forall|b: int| 0 <= b < i ==> (#[trigger] self.ctx.buckets@[b]).model() == bucket_forward(
                    old(self).ctx.buckets@[b].model(),
                    forward_len as int,
                ),
                forall|b: int| i <= b < 256 ==> #[trigger] self.ctx.buckets@[b] == old(self).ctx.buckets@[b],
                forall|b: int| 0 <= b < i ==> (#[trigger] self.bucket_matchers@[b]).heads@ == mats0[b].0.map_values(
                    |x: i16| cut_link(x, self.ctx.buckets@[b].pos@),
                ) && self.bucket_matchers@[b].nexts@ == mats0[b].1.map_values(|x: i16| cut_link(x, self.ctx.buckets@[b].pos@)),
                forall|b: int| i <= b < 256 ==> #[trigger] self.bucket_matchers@[b] == old(self).bucket_matchers@[b],
        {
            self.ctx.buckets[i].forward(forward_len);
            let ghost bm0 = self.bucket_matchers@[i as int];
            self.bucket_matchers[i].forward(&self.ctx.buckets[i]);
            proof {
                let bm = self.bucket_matchers@[i as int];
                let pos = self.ctx.buckets@[i as int].pos@;
                assert(bm0 == old(self).bucket_matchers@[i as int]);
                assert(mats0[i as int] == (bm0.heads@, bm0.nexts@));
                assert(bm.heads@ =~= mats0[i as int].0.map_values(|x: i16| cut_link(x, pos)));
                assert(bm.nexts@ =~= mats0[i as int].1.map_values(|x: i16| cut_link(x, pos)));
            }
        }
        proof {
            let mf = mats_forward(mats0, self.ctx.model());
            assert forall|b: int| 0 <= b < 256 implies #[trigger] matchers_model(self.bucket_matchers@)[b] == mf[b] by {
                assert(self.ctx.model().buckets[b].pos == self.ctx.buckets@[b].pos@);
            }
            assert(matchers_model(self.bucket_matchers@) =~= mf);
        }
        proof {
            assert(self.ctx.model().buckets =~= model_forward(old(self).ctx.model(), forward_len as int).buckets);
            assert(self.ctx.ranks() =~= old(self).ctx.ranks());
        }
    }

    /// Whether position `pos + 1` has a match of `lazy_len` bytes within
    /// `depth` nodes of its context's chains.
    fn has_lazy_match(&self, sbuf: &[u8], pos: usize, lazy_len: usize, depth: usize) -> (r: bool)
        requires
            self.wf(),
            1 <= pos,
            pos + 1 < LZ_POS_LIMIT,
            lazy_len <= LZ_POS_LIMIT,
        ensures
            r == lazy_at(self.ctx.model(), matchers_model(self.bucket_matchers@), sbuf@, pos as int, lazy_len as int, depth as int),
    {
        let h = hash1(sbuf, pos);
        proof {
            assert(matchers_model(self.bucket_matchers@)[h as int] == (self.bucket_matchers@[h as int].heads@,
                self.bucket_matchers@[h as int].nexts@));
        }
        self.bucket_matchers[h].has_lazy_match(&self.ctx.buckets[h], sbuf, pos + 1, lazy_len, depth)
    }

    /// The parse state: the context, the chains and the position `pos`.
    pub open spec fn parse_state(&self, pos: int) -> ParseState {
        ParseState { m: self.ctx.model(), mats: matchers_model(self.bucket_matchers@), pos }
    }

    /// Which later match, if any, passes over a match of `match_len` bytes
    /// at `spos` whose offset class has `robitlen` extra bits: exactly
    /// `lazy_choice`.
    fn lazy_match_choice(&self, cfg: &LZCfg, sbuf: &[u8], spos: usize, match_len: usize, robitlen: u8, word: bool) -> (r: u8)
        requires
            self.wf(),
            sbuf.len() < LZ_POS_LIMIT,
            4 <= spos,
            spos + 2 < sbuf.len(),
            match_len <= LZ_MATCH_MAX_LEN,
        ensures
            forall|ro: int| robitlen == extra_bitlen(roid_of(ro) as nat) ==> r as int == #[trigger] lazy_choice(
                self.parse_state(spos as int),
                sbuf@,
                ro,
                match_len as int,
                word,
                cfg.depths(),
            ),
    {
        if match_len < LZ_MATCH_MAX_LEN / 2 {
            let lazy_len1 = match_len + 1 + if robitlen < 8 { 1usize } else { 0usize };
            let lazy_len2 = lazy_len1 - if word { 1usize } else { 0usize };
            if self.has_lazy_match(sbuf, spos, lazy_len1, cfg.lazy_match_depth1) {
                return 1;
            } else if self.has_lazy_match(sbuf, spos + 1, lazy_len2, cfg.lazy_match_depth2) {
                return 2;
            }
        }
        0
    }

    /// Parses one item at `spos`: exactly `parse_step`, returning the
    /// position after the item, the item as written, and what it does. When
    /// every recorded position comes before `spos`, the item rewrites
    /// exactly the bytes of `sbuf` it covers and agrees with what it does.
    #[verifier::rlimit(50)]
    fn parse_one(&mut self, cfg: &LZCfg, sbuf: &[u8], spos: usize) -> (r: (usize, MatchItem, Ghost<ItemModel>))
        requires
            old(self).wf(),
            sbuf.len() < LZ_POS_LIMIT,
            4 <= spos < sbuf.len(),
        ensures
            final(self).wf(),
            final(self).ctx.first_block == old(self).ctx.first_block,
            final(self).ctx.symranks@ == old(self).ctx.symranks@,
            spos < r.0 <= sbuf.len(),
            item_ok(r.1),
            parse_step(old(self).parse_state(spos as int), sbuf@, cfg.depths()) == (r.2@, final(self).parse_state(
                r.0 as int,
            )),
            positions_below(old(self).ctx.model(), spos as int) ==> {
                &&& positions_below(final(self).ctx.model(), r.0 as int)
                &&& apply_item(old(self).ctx.model(), sbuf@, spos as int, r.2@) == (final(self).ctx.model(), sbuf@, r.0 as int)
                &&& item_agrees(r.1, old(self).ctx.model(), sbuf@, spos as int, r.2@, sbuf.len() as int)
            },
    {
        let ghost mb = self.ctx.model();
        let ghost st = self.parse_state(spos as int);
        let ghost pos0 = spos as int;
        let ghost s = sbuf@;
        let ghost pb0 = positions_below(mb, pos0);
        let h1 = hash1(sbuf, spos - 1);
        let last_word_expected = self.ctx.words[hash2(sbuf, spos - 1)];
        let last_word_matched = read_byte(sbuf, spos) == last_word_expected.0 && read_byte(sbuf, spos + 1)
            == last_word_expected.1;
        let al = self.ctx.after_literal;
        let symrank_context: u16 = h1 as u16 + if al { 256u16 } else { 0u16 };
        let symrank_unlikely = last_word_expected.0;
        proof {
            assert(st.mats[h1 as int] == (self.bucket_matchers@[h1 as int].heads@, self.bucket_matchers@[h1 as int].nexts@));
            assert(mb.buckets[h1 as int] == self.ctx.buckets@[h1 as int].model());
        }

        // encode as match
        let mut lazy_match_id: u8 = 0;
        let m = self.bucket_matchers[h1].find_match(&self.ctx.buckets[h1], sbuf, spos, cfg.match_depth);
        if m.match_len > 0 && m.match_len >= m.match_len_min {
            let (roid, robitlen, robits) = self.roid_encoding[m.reduced_offset];
            proof {
                assert(roid_base(roid as nat) + robits == m.reduced_offset);
                lemma_roid_bases();
                lemma_roid_of(m.reduced_offset as int, roid as int, robits as int);
            }
            // find lazy match
            lazy_match_id = self.lazy_match_choice(cfg, sbuf, spos, m.match_len, robitlen, last_word_matched);
            if lazy_match_id == 0 {
                let encoded_match_len: u8 = if m.match_len > m.match_len_expected {
                    (m.match_len - m.match_len_min) as u8
                } else if m.match_len < m.match_len_expected {
                    (m.match_len - m.match_len_min + 1) as u8
                } else {
                    0
                };
                let lenid: u8 = if encoded_match_len < LZ_LENID_SIZE as u8 - 1 {
                    encoded_match_len
                } else {
                    LZ_LENID_SIZE as u8 - 1
                };
                let encoded_roid_lenid: u16 = 256 + roid as u16 * LZ_LENID_SIZE as u16 + lenid as u16;
                let ghost it = ItemModel::Match { ro: m.reduced_offset as int, len: m.match_len as int };
                let ghost node = match_node(mb, s, pos0, m.reduced_offset as int);
                let ghost bk0 = self.ctx.buckets@[h1 as int];
                let x = MatchItem::Match {
                    symbol: encoded_roid_lenid,
                    symrank_context,
                    symrank_unlikely,
                    robitlen,
                    robits,
                    encoded_match_len,
                    after_literal: al,
                };
                proof {
                    assert(node == bk0.node_at(m.reduced_offset as int));
                }
                self.ctx.buckets[h1].update(spos, m.reduced_offset, m.match_len);
                self.bucket_matchers[h1].update(&self.ctx.buckets[h1], sbuf, spos);
                let spos2 = spos + m.match_len;
                self.ctx.after_literal = false;
                let hw = hash2(sbuf, spos2 - 3);
                self.ctx.words.set(hw, (sbuf[spos2 - 2], sbuf[spos2 - 1]));
                proof {
                    assert(self.ctx.model().buckets =~= mb.buckets.update(
                        h1 as int,
                        crate::matcher::bucket_update(mb.buckets[h1 as int], pos0, m.reduced_offset as int, m.match_len as int),
                    ));
                    assert(self.ctx.model().words =~= crate::lz_model::note_word(mb.words, s, spos2 as int));
                    assert(matchers_model(self.bucket_matchers@) =~= st.mats.update(
                        h1 as int,
                        crate::matcher::matcher_update(st.mats[h1 as int], self.ctx.buckets@[h1 as int].head as int, s, pos0),
                    ));
                    if pb0 {
                        let src = bk0.pos@[node] as int;
                        assert(src < pos0);
                        assert forall|k: int| 0 <= k < m.match_len implies #[trigger] s[src + k] == s[pos0 + k] by {
                            assert(byte_at(s, src + k) == byte_at(s, pos0 + k));
                        }
                        crate::lz_model::lemma_copy_forward_same(s, src, pos0, m.match_len as nat);
                        assert(apply_item(mb, s, pos0, it) == (self.ctx.model(), s, spos2 as int));
                        assert(item_agrees(x, mb, s, pos0, it, s.len() as int));
                        assert forall|b: int, i: int| 0 <= b < 256 && 0 <= i < LZ_MF_BUCKET_ITEM_SIZE implies (
                        #[trigger] self.ctx.model().buckets[b].pos[i]) < spos2 by {
                            assert(mb.buckets[b].pos[i] < pos0);
                        }
                    }
                }
                return (spos2, x, Ghost(it));
            }
        }
        let ghost bk0 = self.ctx.buckets@[h1 as int];
        self.ctx.buckets[h1].update(spos, 0, 0);
        self.bucket_matchers[h1].update(&self.ctx.buckets[h1], sbuf, spos);
        proof {
            assert(self.ctx.model().buckets =~= mb.buckets.update(
                h1 as int,
                crate::matcher::bucket_update(mb.buckets[h1 as int], pos0, 0, 0),
            ));
            assert(matchers_model(self.bucket_matchers@) =~= st.mats.update(
                h1 as int,
                crate::matcher::matcher_update(st.mats[h1 as int], self.ctx.buckets@[h1 as int].head as int, s, pos0),
            ));
        }

        // encode as symbol
        let ghost it: ItemModel;
        let x: MatchItem;
        let spos2: usize;
        if spos + 1 < sbuf.len() && lazy_match_id != 1 && last_word_matched {
            x = MatchItem::Symbol { symbol: WORD_SYMBOL, symrank_context, symrank_unlikely, after_literal: al };
            spos2 = spos + 2;
            self.ctx.after_literal = false;
            proof {
                it = ItemModel::Word;
                assert(s.update(pos0, last_word_expected.0).update(pos0 + 1, last_word_expected.1) =~= s);
            }
        } else {
            x = MatchItem::Symbol { symbol: sbuf[spos] as u16, symrank_context, symrank_unlikely, after_literal: al };
            spos2 = spos + 1;
            self.ctx.after_literal = true;
            let hw = hash2(sbuf, spos2 - 3);
            self.ctx.words.set(hw, (sbuf[spos2 - 2], sbuf[spos2 - 1]));
            proof {
                it = ItemModel::Lit { b: s[pos0] };
                assert(s.update(pos0, s[pos0]) =~= s);
                assert(self.ctx.model().words =~= crate::lz_model::note_word(mb.words, s, spos2 as int));
            }
        }
        proof {
            if pb0 {
                assert(apply_item(mb, s, pos0, it) == (self.ctx.model(), s, spos2 as int));
                assert(item_agrees(x, mb, s, pos0, it, s.len() as int));
                assert forall|b: int, i: int| 0 <= b < 256 && 0 <= i < LZ_MF_BUCKET_ITEM_SIZE implies (
                #[trigger] self.ctx.model().buckets[b].pos[i]) < spos2 by {
                    assert(mb.buckets[b].pos[i] < pos0);
                }
            }
        }
        (spos2, x, Ghost(it))
    }

    /// Parses `sbuf` from `spos` into match items, at most `LZ_CHUNK_SIZE`
    /// of them, keeping the buckets, chains and word table up to date:
    /// exactly `parse_run`. When every recorded position comes before
    /// `spos`, the items (as the ghost result describes them) rewrite
    /// exactly the bytes of `sbuf` they cover and move the context to where
    /// the encoder leaves it.
    fn find_items(&mut self, cfg: &LZCfg, sbuf: &[u8], spos: usize) -> (r: (usize, Vec<MatchItem>, Ghost<Seq<ItemModel>>))
        requires
            old(self).wf(),
            sbuf.len() < LZ_POS_LIMIT,
            4 <= spos <= sbuf.len(),
        ensures
            final(self).wf(),
            final(self).ctx.first_block == old(self).ctx.first_block,
            final(self).ctx.ranks() == old(self).ctx.ranks(),
            spos <= r.0 <= sbuf.len(),
            spos < sbuf.len() ==> spos < r.0,
            r.1.len() <= LZ_CHUNK_SIZE,
            forall|i: int| 0 <= i < r.1.len() ==> item_ok(#[trigger] r.1@[i]),
            r.2@.len() == r.1.len(),
            parse_run(old(self).parse_state(spos as int), sbuf@, cfg.depths(), LZ_CHUNK_SIZE as nat) == (
                r.2@,
                final(self).parse_state(r.0 as int),
            ),
            positions_below(old(self).ctx.model(), spos as int) ==> {
                &&& positions_below(final(self).ctx.model(), r.0 as int)
                &&& apply_items(old(self).ctx.model(), sbuf@, spos as int, r.2@) == (
                    final(self).ctx.model(),
                    sbuf@,
                    r.0 as int,
                )
                &&& items_agree(old(self).ctx.model(), sbuf@, spos as int, r.2@, r.1@, sbuf.len() as int)
            },
    {
        let mut spos = spos;
        let spos0 = spos;
        let mut match_items: Vec<MatchItem> = Vec::new();
        let ghost m0 = self.ctx.model();
        let ghost pb0 = positions_below(m0, spos0 as int);
        let ghost mut its: Seq<ItemModel> = Seq::empty();
        let ghost s = sbuf@;
        let ghost total = parse_run(self.parse_state(spos as int), s, cfg.depths(), LZ_CHUNK_SIZE as nat);
        proof {
            assert(its + total.0 =~= total.0);
        }
        while spos < sbuf.len() && match_items.len() < LZ_CHUNK_SIZE
            invariant
                self.wf(),
                self.ctx.first_block == old(self).ctx.first_block,
                self.ctx.symranks@ == old(self).ctx.symranks@,
                m0 == old(self).ctx.model(),
                s == sbuf@,
                pb0 == positions_below(m0, spos0 as int),
                sbuf.len() < LZ_POS_LIMIT,
                4 <= spos0 <= spos <= sbuf.len(),
                spos0 < sbuf.len() ==> (spos0 < spos || match_items.len() == 0),
                match_items.len() <= LZ_CHUNK_SIZE,
                forall|i: int| 0 <= i < match_items.len() ==> item_ok(#[trigger] match_items@[i]),
                its.len() == match_items.len(),
                ({
                    let rest = parse_run(self.parse_state(spos as int), s, cfg.depths(), (LZ_CHUNK_SIZE - its.len()) as nat);
                    &&& its + rest.0 == total.0
                    &&& rest.1 == total.1
                }),
                pb0 ==> {
                    &&& positions_below(self.ctx.model(), spos as int)
                    &&& apply_items(m0, s, spos0 as int, its) == (self.ctx.model(), s, spos as int)
                    &&& items_agree(m0, s, spos0 as int, its, match_items@, s.len() as int)
                },
            decreases sbuf.len() - spos,
        {
            let ghost mb = self.ctx.model();
            let ghost items0 = match_items@;
            let ghost pos0 = spos as int;
            let ghost cur = self.parse_state(spos as int);
            let ghost budget = (LZ_CHUNK_SIZE - its.len()) as nat;
            let (spos2, x, Ghost(it)) = self.parse_one(cfg, sbuf, spos);
            match_items.push(x);
            proof {
                let next = self.parse_state(spos2 as int);
                let rest2 = parse_run(next, s, cfg.depths(), (budget - 1) as nat);
                assert(parse_run(cur, s, cfg.depths(), budget) == (seq![it] + rest2.0, rest2.1));
                assert(its.push(it) + rest2.0 =~= its + (seq![it] + rest2.0));
                if pb0 {
                    crate::lz_model::lemma_apply_items_push(m0, s, spos0 as int, its, it);
                    lemma_items_agree_push(m0, s, spos0 as int, its, items0, x, it, s.len() as int);
                    assert(items0.push(x) =~= match_items@);
                }
                its = its.push(it);
            }
            spos = spos2;
        }
        proof {
            assert(self.ctx.ranks() =~= old(self).ctx.ranks());
            assert(its + Seq::<ItemModel>::empty() =~= its);
        }
        (spos, match_items, Ghost(its))
    }
}

/// The sort key of a symbol: its count, but at least one.
pub open spec fn count_key(counts: Seq<u32>, s: int) -> u32 {
    if counts[s] > 1 { counts[s] } else { 1 }
}

/// `a` comes before `b`: a greater key, or the same key and a lower symbol.
pub open spec fn count_order(counts: Seq<u32>, a: int, b: int) -> bool {
    count_key(counts, a) > count_key(counts, b) || (count_key(counts, a) == count_key(counts, b) && a < b)
}

/// One for a flag that is set.
pub open spec fn flag_ind(flags: Seq<bool>) -> spec_fn(int) -> nat {
    |t: int| if flags[t] { 1nat } else { 0nat }
}

/// The symbols below `n` that `head` does not list, in increasing order.
pub open spec fn unlisted(head: Seq<u16>, n: int) -> Seq<u16>
    decreases n,
{
    if n <= 0 {
        Seq::empty()
    } else {
        unlisted(head, n - 1) + if head.contains((n - 1) as u16) {
            Seq::<u16>::empty()
        } else {
            seq![(n - 1) as u16]
        }
    }
}

/// The ordering that ranks the symbols of `head` first, as listed, then all
/// other symbols in increasing order.
pub open spec fn completed_order(head: Seq<u16>) -> Seq<u16> {
    head + unlisted(head, SYMRANK_NUM_SYMBOLS as int)
}

/// Distinct symbols of the alphabet.
pub open spec fn distinct_symbols(head: Seq<u16>) -> bool {
    &&& forall|i: int| 0 <= i < head.len() ==> (#[trigger] head[i] as int) < SYMRANK_NUM_SYMBOLS
    &&& forall|i: int, j: int| 0 <= i < j < head.len() ==> head[i] != head[j]
}

/// The first symbols read are the same however many are read.
proof fn lemma_read_syms9_prefix(input: Seq<u8>, bp: int, k: nat, n: nat)
    requires
        k <= n,
    ensures
        read_syms9(input, bp, n).len() == n,
        forall|i: int| 0 <= i < k ==> #[trigger] read_syms9(input, bp, n)[i] == read_syms9(input, bp, k)[i],
    decreases n,
{
    if n > 0 {
        if k < n {
            lemma_read_syms9_prefix(input, bp, k, (n - 1) as nat);
        } else {
            lemma_read_syms9_prefix(input, bp, (n - 1) as nat, (n - 1) as nat);
        }
    }
}

/// `head`, then every symbol it does not list, in increasing order.
pub fn complete_order(head: &Vec<u16>) -> (vs: Vec<u16>)
    requires
        distinct_symbols(head@),
    ensures
        vs@ == completed_order(head@),
        is_perm_of_alphabet(vs@),
{
    let n = SYMRANK_NUM_SYMBOLS;
    let mut set: Vec<bool> = Vec::new();
    for t in 0..n
        invariant
            set.len() == t,
            forall|u: int| 0 <= u < t ==> !#[trigger] set@[u],
    {
        set.push(false);
    }
    let mut vs: Vec<u16> = Vec::new();
    proof {
        lemma_index_sum_const(flag_ind(set@), 0, n as int);
    }
    for k in 0..head.len()
        invariant
            n == SYMRANK_NUM_SYMBOLS,
            distinct_symbols(head@),
            set.len() == n,
            vs@ == head@.take(k as int),
            vs.len() == index_sum(flag_ind(set@), n as int),
            forall|u: int| 0 <= u < n ==> (#[trigger] set@[u] <==> head@.take(k as int).contains(u as u16)),
    {
        let v = head[k];
        let ghost set0 = set@;
        proof {
            if set0[v as int] {
                let t = head@.take(k as int);
                let j = choose|j: int| 0 <= j < t.len() && t[j] == v;
                assert(head@[j] == head@[k as int]);
            }
        }
        vs.push(v);
        set.set(v as usize, true);
        proof {
            lemma_index_sum_point(flag_ind(set0), flag_ind(set@), v as int, n as int);
            assert(head@.take(k + 1) =~= head@.take(k as int).push(v));
            assert(vs@ =~= head@.take(k + 1));
            assert forall|u: int| 0 <= u < n implies (#[trigger] set@[u] <==> head@.take(k + 1).contains(u as u16)) by {
                if u == v as int {
                    assert(head@.take(k + 1)[k as int] == v);
                } else if head@.take(k + 1).contains(u as u16) {
                    let t = head@.take(k + 1);
                    let j = choose|j: int| 0 <= j < t.len() && t[j] == u as u16;
                    assert(head@.take(k as int)[j] == u as u16);
                }
            }
        }
    }
    proof {
        assert(head@.take(head.len() as int) =~= head@);
    }
    for i in 0..n
        invariant
            n == SYMRANK_NUM_SYMBOLS,
            distinct_symbols(head@),
            set.len() == n,
            vs@ == head@ + unlisted(head@, i as int),
            vs.len() == index_sum(flag_ind(set@), n as int),
            forall|u: int| 0 <= u < n ==> (#[trigger] set@[u] <==> (head@.contains(u as u16) || u < i)),
    {
        let ghost vs0 = vs@;
        if !set[i] {
            let ghost set0 = set@;
            vs.push(i as u16);
            set.set(i, true);
            proof {
                lemma_index_sum_point(flag_ind(set0), flag_ind(set@), i as int, n as int);
            }
        }
        proof {
            assert(!head@.contains(i as u16) <==> !set@[i as int] || vs@.len() > vs0.len());
            assert(vs@ =~= head@ + unlisted(head@, i + 1));
        }
    }
    proof {
        lemma_index_sum_const(flag_ind(set@), 1, n as int);
        lemma_completed_distinct(head@, n as int);
    }
    vs
}

/// `head` and the symbols it does not list are distinct symbols of the alphabet.
proof fn lemma_completed_distinct(head: Seq<u16>, n: int)
    requires
        distinct_symbols(head),
        0 <= n <= SYMRANK_NUM_SYMBOLS,
    ensures
        forall|i: int| 0 <= i < unlisted(head, n).len() ==> (#[trigger] unlisted(head, n)[i] as int) < n && !head.contains(
            unlisted(head, n)[i],
        ),
        forall|i: int, j: int| 0 <= i < j < unlisted(head, n).len() ==> unlisted(head, n)[i] < unlisted(head, n)[j],
        distinct_symbols(head + unlisted(head, n)),
    decreases n,
{
    if n > 0 {
        lemma_completed_distinct(head, n - 1);
    }
    let u = unlisted(head, n);
    let all = head + u;
    assert forall|i: int, j: int| 0 <= i < j < all.len() implies all[i] != all[j] by {
        if j >= head.len() && i < head.len() {
            assert(all[j] == u[j - head.len()]);
            assert(head.contains(head[i]));
        } else if i >= head.len() {
            assert(u[i - head.len()] < u[j - head.len()]);
        }
    }
}

/// The symbols counted more than once, most frequent first, equal counts in
/// symbol order.
pub fn sort_counted_symbols(counts: &Vec<u32>) -> (head: Vec<u16>)
    requires
        counts.len() == SYMRANK_NUM_SYMBOLS,
    ensures
        distinct_symbols(head@),
        forall|v: int| 0 <= v < SYMRANK_NUM_SYMBOLS ==> (counts@[v] > 1 <==> #[trigger] head@.contains(v as u16)),
        forall|i: int, j: int| 0 <= i < j < head.len() ==> count_order(counts@, #[trigger] head@[i] as int,
            #[trigger] head@[j] as int),
{
    let n = SYMRANK_NUM_SYMBOLS;
    let mut used: Vec<bool> = Vec::new();
    for t in 0..n
        invariant
            used.len() == t,
            forall|u: int| 0 <= u < t ==> !#[trigger] used@[u],
    {
        used.push(false);
    }
    let mut head: Vec<u16> = Vec::new();
    loop
        invariant
            n == SYMRANK_NUM_SYMBOLS,
            counts.len() == n,
            used.len() == n,
            distinct_symbols(head@),
            forall|u: int| 0 <= u < n ==> (#[trigger] used@[u] <==> head@.contains(u as u16)),
            forall|i: int| 0 <= i < head.len() ==> counts@[#[trigger] head@[i] as int] > 1,
            forall|i: int, j: int| 0 <= i < j < head.len() ==> count_order(counts@, #[trigger] head@[i] as int,
                #[trigger] head@[j] as int),
            forall|i: int, s: int| 0 <= i < head.len() && 0 <= s < n && !#[trigger] used@[s] && counts@[s] > 1
                ==> count_order(counts@, #[trigger] head@[i] as int, s),
        decreases n - head.len(),
    {
        let mut best: usize = n;
        for s in 0..n
            invariant
                n == SYMRANK_NUM_SYMBOLS,
                counts.len() == n,
                used.len() == n,
                best == n || (best < s && !used@[best as int] && counts@[best as int] > 1),
                best == n ==> forall|u: int| 0 <= u < s ==> #[trigger] used@[u] || counts@[u] <= 1,
                best < n ==> forall|u: int| 0 <= u < s && !#[trigger] used@[u] && counts@[u] > 1 && u != best
                    ==> count_order(counts@, best as int, u),
        {
            if !used[s] && counts[s] > 1 {
                if best == n || counts[s] > counts[best] {
                    best = s;
                }
            }
        }
        if best == n {
            proof {
                assert forall|v: int| 0 <= v < SYMRANK_NUM_SYMBOLS implies (counts@[v] > 1 <==> #[trigger] head@.contains(
                    v as u16,
                )) by {
                    if head@.contains(v as u16) {
                        let j = choose|j: int| 0 <= j < head@.len() && head@[j] == v as u16;
                        assert(counts@[head@[j] as int] > 1);
                    }
                    if counts@[v] > 1 {
                        assert(used@[v]);
                    }
                }
            }
            return head;
        }
        proof {
            lemma_head_bound(head@, used@, best as int);
        }
        let ghost old_used = used@;
        let ghost old_head = head@;
        head.push(best as u16);
        used.set(best, true);
        proof {
            assert forall|u: int| 0 <= u < n implies (#[trigger] used@[u] <==> head@.contains(u as u16)) by {
                if u == best as int {
                    assert(head@[old_head.len() as int] == best as u16);
                } else {
                    if head@.contains(u as u16) {
                        let j = choose|j: int| 0 <= j < head@.len() && head@[j] == u as u16;
                        assert(j < old_head.len());
                        assert(old_head[j] == u as u16);
                    }
                    if old_head.contains(u as u16) {
                        let j = choose|j: int| 0 <= j < old_head.len() && old_head[j] == u as u16;
                        assert(head@[j] == u as u16);
                    }
                }
            }
            assert forall|i: int, s: int| 0 <= i < head.len() && 0 <= s < n && !#[trigger] used@[s] && counts@[s] > 1
                implies count_order(counts@, #[trigger] head@[i] as int, s) by {
                if i < old_head.len() {
                    assert(head@[i] == old_head[i]);
                    assert(!old_used[s]);
                }
            }
            assert forall|i: int, j: int| 0 <= i < j < head.len() implies count_order(
                counts@,
                #[trigger] head@[i] as int,
                #[trigger] head@[j] as int,
            ) by {
                if j == old_head.len() {
                    assert(head@[i] == old_head[i]);
                    assert(!old_used[best as int]);
                } else {
                    assert(head@[i] == old_head[i] && head@[j] == old_head[j]);
                }
            }
            assert forall|i: int, j: int| 0 <= i < j < head.len() implies head@[i] != head@[j] by {
                if j == old_head.len() {
                    assert(head@[i] == old_head[i]);
                    assert(old_head.contains(old_head[i]));
                }
            }
        }
    }
}

/// Distinct symbols, each flagged, one symbol not flagged: fewer than the alphabet.
proof fn lemma_head_bound(head: Seq<u16>, used: Seq<bool>, free: int)
    requires
        distinct_symbols(head),
        used.len() == SYMRANK_NUM_SYMBOLS,
        forall|u: int| 0 <= u < SYMRANK_NUM_SYMBOLS ==> (#[trigger] used[u] <==> head.contains(u as u16)),
        0 <= free < SYMRANK_NUM_SYMBOLS,
        !used[free],
    ensures
        head.len() < SYMRANK_NUM_SYMBOLS,
{
    let m = head.map_values(|x: u16| x as int);
    assert(m.no_duplicates()) by {
        assert forall|a: int, b: int| 0 <= a < m.len() && 0 <= b < m.len() && a != b implies m[a] != m[b] by {
            if a < b {
                assert(head[a] != head[b]);
            } else {
                assert(head[b] != head[a]);
            }
        }
    }
    m.unique_seq_to_set();
    let full = vstd::set_lib::set_int_range(0, SYMRANK_NUM_SYMBOLS as int);
    let rest = full.remove(free);
    assert(m.to_set().subset_of(rest)) by {
        assert forall|v: int| m.to_set().contains(v) implies rest.contains(v) by {
            let j = choose|j: int| 0 <= j < m.len() && m[j] == v;
            assert(head[j] as int == v);
            assert(head.contains(head[j]));
            assert(used[v]);
        }
    }
    vstd::set_lib::lemma_int_range(0, SYMRANK_NUM_SYMBOLS as int);
    assert(full.contains(free));
    vstd::set_lib::lemma_len_subset(m.to_set(), rest);
}

/// Adds one to weight `k`.
pub(crate) fn bump(ws: &mut Vec<u32>, k: usize)
    requires
        k < old(ws).len(),
        weight_sum(old(ws)@) < u32::MAX,
    ensures
        final(ws).len() == old(ws).len(),
        final(ws)@ == old(ws)@.update(k as int, (old(ws)@[k as int] + 1) as u32),
        final(ws)@[k as int] == old(ws)@[k as int] + 1,
        weight_sum(final(ws)@) == weight_sum(old(ws)@) + 1,
{
    let ghost w0 = ws@;
    proof {
        let f = |t: int| w0[t] as nat;
        crate::sums::lemma_index_sum_ge(f, k as int, w0.len() as int);
    }
    let v = ws[k];
    ws.set(k, v + 1);
    proof {
        let f0 = |t: int| w0[t] as nat;
        let f1 = |t: int| ws@[t] as nat;
        lemma_index_sum_point(f0, f1, k as int, w0.len() as int);
    }
}

/// A vector of `n` zeros.
pub(crate) fn zeros_u32(n: usize) -> (r: Vec<u32>)
    ensures
        r.len() == n,
        forall|t: int| 0 <= t < n ==> #[trigger] r@[t] == 0,
        weight_sum(r@) == 0,
{
    let mut r: Vec<u32> = Vec::new();
    for t in 0..n
        invariant
            r.len() == t,
            forall|u: int| 0 <= u < t ==> #[trigger] r@[u] == 0,
    {
        r.push(0);
    }
    proof {
        lemma_index_sum_const(|t: int| r@[t] as nat, 0, n as int);
    }
    r
}

impl LZEncoder {
    /// Encodes `sbuf` from `spos` on (at most `LZ_CHUNK_SIZE` items) into a
    /// chunk, returning the position reached and the chunk. The chunk holds,
    /// for the first block only, the symbols counted more than once (most
    /// frequent first, that order ranking every context's symbols), then the
    /// position reached, the number of items, three Huffman tables (symbols
    /// after a match, symbols after a literal, long match lengths), and the
    /// items, each symbol ranked in its context and Huffman coded. The items
    /// are those of `parse_run`, which also gives the position reached and
    /// the context and chains left. The chunk is exactly such a chunk of
    /// those items, which rewrite `sbuf` up to the position reached. Every
    /// position recorded in the context must come before `spos`, as it does
    /// for a new encoder and for each next call from the position reached.
    #[verifier::rlimit(60)]
    pub fn encode(&mut self, cfg: &LZCfg, sbuf: &[u8], spos: usize) -> (r: (usize, Vec<u8>))
        requires
            old(self).wf(),
            sbuf.len() < LZ_POS_LIMIT,
            4 <= spos <= sbuf.len(),
            positions_below(old(self).ctx.model(), spos as int),
        ensures
            final(self).wf(),
            !final(self).ctx.first_block,
            spos <= r.0 <= sbuf.len(),
            spos < sbuf.len() ==> spos < r.0,
            r.1.len() % 4 == 0,
            positions_below(final(self).ctx.model(), r.0 as int),
            ({
                let p = parse_run(old(self).parse_state(spos as int), sbuf@, cfg.depths(), LZ_CHUNK_SIZE as nat);
                &&& final(self).parse_state(r.0 as int) == p.1
                &&& chunk_encodes_items(
                    old(self).ctx.first_block,
                    old(self).ctx.model(),
                    old(self).ctx.ranks(),
                    sbuf@,
                    spos as int,
                    r.0 as int,
                    final(self).ctx.model(),
                    final(self).ctx.ranks(),
                    r.1@,
                    p.0,
                )
            }),
    {
        let ghost m0 = self.ctx.model();
        let ghost first = self.ctx.first_block;
        let ghost ranks_in = self.ctx.ranks();
        let ghost spos0 = spos as int;
        let mut encoder = Encoder::new(Vec::new(), 0);
        let (spos, match_items, Ghost(its)) = self.find_items(cfg, sbuf, spos);
        let n_items = match_items.len();
        let ghost m1 = self.ctx.model();
        let ghost mut head_g: Seq<u16> = Seq::empty();
        proof {
            assert(encoder.prefix() =~= Seq::<u8>::empty());
        }

        // init symrank array
        if self.ctx.first_block {
            // count symbols
            let mut symbol_counts = zeros_u32(SYMRANK_NUM_SYMBOLS);
            for i in 0..n_items
                invariant
                    n_items == match_items.len(),
                    n_items <= LZ_CHUNK_SIZE,
                    forall|k: int| 0 <= k < n_items ==> item_ok(#[trigger] match_items@[k]),
                    symbol_counts.len() == SYMRANK_NUM_SYMBOLS,
                    weight_sum(symbol_counts@) == i,
                    forall|v: int| 0 <= v < SYMRANK_NUM_SYMBOLS ==> #[trigger] symbol_counts@[v] as int == sym_count(
                        mi_keys(match_items@, i as int),
                        v,
                    ),
            {
                let sym = match_items[i].symbol();
                proof {
                    assert(item_ok(match_items@[i as int]));
                    assert(mi_keys(match_items@, i + 1).drop_last() =~= mi_keys(match_items@, i as int));
                    assert(mi_keys(match_items@, i + 1).last().1 == sym as int);
                }
                bump(&mut symbol_counts, sym as usize);
            }
            // sort symbols by count
            let head = sort_counted_symbols(&symbol_counts);
            proof {
                let keys = mi_keys(match_items@, n_items as int);
                assert forall|v: int| 0 <= v < SYMRANK_NUM_SYMBOLS implies (#[trigger] head@.contains(v as u16)
                    <==> sym_count(keys, v) > 1) by {
                    assert(symbol_counts@[v] as int == sym_count(keys, v));
                }
                assert forall|i: int, j: int| 0 <= i < j < head.len() implies {
                    let (a, b) = (#[trigger] head@[i] as int, #[trigger] head@[j] as int);
                    sym_count(keys, a) > sym_count(keys, b) || (sym_count(keys, a) == sym_count(keys, b) && a < b)
                } by {
                    let a = head@[i] as int;
                    let b = head@[j] as int;
                    assert(head@.contains(head@[i]));
                    assert(head@.contains(head@[j]));
                    assert(head@[i] == a as u16);
                    assert(head@[j] == b as u16);
                    assert(symbol_counts@[a] as int == sym_count(keys, a));
                    assert(symbol_counts@[b] as int == sym_count(keys, b));
                    assert(count_order(symbol_counts@, a, b));
                }
                assert(counted_head(head@, keys));
            }
            let num_counted_symbols = head.len();
            let vs = complete_order(&head);

            // encode symbols
            encoder.encode_varint(num_counted_symbols as u32);
            for i in 0..num_counted_symbols
                invariant
                    encoder.wf(),
                    encoder.prefix() == Seq::<u8>::empty(),
                    num_counted_symbols == head.len(),
                    num_counted_symbols <= SYMRANK_NUM_SYMBOLS,
                    is_perm_of_alphabet(vs@),
                    vs@ == completed_order(head@),
                    encoder.written() == varint_bits(num_counted_symbols as nat) + syms9_bits(head@.take(i as int)),
            {
                proof {
                    lemma2_to64();
                    vstd::arithmetic::power2::lemma_pow2_strictly_increases(9, 32);
                    assert(vs@[i as int] == head@[i as int]);
                }
                encoder.encode_raw_bits(vs[i] as u32, 9);
                proof {
                    assert(head@.take(i + 1).drop_last() =~= head@.take(i as int));
                    assert(encoder.written() =~= varint_bits(num_counted_symbols as nat) + syms9_bits(
                        head@.take(i + 1),
                    ));
                }
            }
            proof {
                assert(head@.take(num_counted_symbols as int) =~= head@);
                head_g = head@;
            }

            proof {
                assert(counted_head(head_g, mi_keys(match_items@, n_items as int)));
            }
            // init all symranks with sorted symbols
            self.ctx.init_ranks(&vs);
            proof {
                assert(self.ctx.ranks() =~= initial_ranks(completed_order(head_g)));
            }
        } else {
            proof {
                assert(encoder.written() =~= Seq::<bool>::empty());
            }
        }
        let ghost r0 = start_ranks(first, head_g, ranks_in);
        let ghost pre = if first { varint_bits(head_g.len()) + syms9_bits(head_g) } else { Seq::<bool>::empty() };
        proof {
            assert(self.ctx.ranks() == r0);
            assert(encoder.written() == pre);
            assert forall|c: int| 0 <= c < 512 implies is_rank_perm(#[trigger] r0[c].0, r0[c].1) by {
                assert(self.ctx.symranks@[c].wf());
            }
        }

        // encode match_items_len
        let reached = if spos < sbuf.len() { spos } else { sbuf.len() };
        encoder.encode_varint(reached as u32);
        encoder.encode_varint(n_items as u32);

        // start Huffman encoding
        let (encoded_symbols, huff_weights1a, huff_weights1b, huff_weights2) = rank_items(&mut self.ctx, &match_items, Ghost(r0));
        proof {
            lemma2_to64();
            lemma_index_sum_count_bound(|t: int| if huff_weights1a@[t] > 0 { 1nat } else { 0nat }, SYMRANK_NUM_SYMBOLS as int);
            lemma_index_sum_count_bound(|t: int| if huff_weights1b@[t] > 0 { 1nat } else { 0nat }, SYMRANK_NUM_SYMBOLS as int);
            lemma_index_sum_count_bound(|t: int| if huff_weights2@[t] > 0 { 1nat } else { 0nat }, LZ_MATCH_MAX_LEN as int);
            vstd::arithmetic::power2::lemma_pow2_strictly_increases(15, 32);
            assert(pow2(15) == 32768) by {
                vstd::arithmetic::power2::lemma2_to64();
            }
        }
        let huff_table1a = HuffmanTable::new_from_sym_weights(huff_weights1a.as_slice(), 15);
        let huff_table1b = HuffmanTable::new_from_sym_weights(huff_weights1b.as_slice(), 15);
        let huff_table2 = HuffmanTable::new_from_sym_weights(huff_weights2.as_slice(), 15);
        let ghost ta = huff_table1a.code_lens@;
        let ghost tb = huff_table1b.code_lens@;
        let ghost tl = huff_table2.code_lens@;
        encoder.encode_huffman_table(&huff_table1a);
        encoder.encode_huffman_table(&huff_table1b);
        encoder.encode_huffman_table(&huff_table2);
        let huff1a = HuffmanEncoding::from_huffman_table(&huff_table1a);
        let huff1b = HuffmanEncoding::from_huffman_table(&huff_table1b);
        let huff2 = HuffmanEncoding::from_huffman_table(&huff_table2);
        let ghost pre2 = pre + varint_bits(reached as nat) + varint_bits(n_items as nat) + table_bits(ta) + table_bits(tb)
            + table_bits(tl);
        proof {
            assert(encoder.written() =~= pre2);
            assert(encodes_lens(huff1a.encodings@, ta));
            assert(encodes_lens(huff1b.encodings@, tb));
            assert(encodes_lens(huff2.encodings@, tl));
        }

        for i in 0..n_items
            invariant
                encoder.wf(),
                encoder.prefix() == Seq::<u8>::empty(),
                n_items == match_items.len(),
                forall|k: int| 0 <= k < n_items ==> item_ok(#[trigger] match_items@[k]),
                encoded_symbols.len() == n_items,
                forall|k: int| 0 <= k < n_items ==> (#[trigger] encoded_symbols@[k] as int) < SYMRANK_NUM_SYMBOLS,
                huff1a.wf(),
                huff1b.wf(),
                huff2.wf(),
                huff1a.encodings.len() == SYMRANK_NUM_SYMBOLS,
                huff1b.encodings.len() == SYMRANK_NUM_SYMBOLS,
                huff2.encodings.len() == LZ_MATCH_MAX_LEN,
                encodes_lens(huff1a.encodings@, ta),
                encodes_lens(huff1b.encodings@, tb),
                encodes_lens(huff2.encodings@, tl),
                encoder.written() == pre2 + mis_bits(ta, tb, tl, match_items@, encoded_symbols@, i as nat),
        {
            proof {
                assert(item_ok(match_items@[i as int]));
            }
            let ghost w0 = encoder.written();
            let encoded_symbol = encoded_symbols[i];
            let ghost x = match_items@[i as int];
            let ghost t = if mi_after_literal(x) { tb } else { ta };
            match &match_items[i] {
                MatchItem::Symbol { after_literal, .. } => {
                    if *after_literal {
                        encoder.encode_huffman_sym(&huff1b, encoded_symbol);
                    } else {
                        encoder.encode_huffman_sym(&huff1a, encoded_symbol);
                    }
                    proof {
                        lemma_encodes_bits(huff1a.encodings@, ta, encoded_symbol as int);
                        lemma_encodes_bits(huff1b.encodings@, tb, encoded_symbol as int);
                        assert(encoder.written() =~= w0 + mi_bits(ta, tb, tl, x, encoded_symbol as int));
                    }
                },
                MatchItem::Match { robitlen, robits, encoded_match_len, after_literal, .. } => {
                    if *after_literal {
                        encoder.encode_huffman_sym(&huff1b, encoded_symbol);
                    } else {
                        encoder.encode_huffman_sym(&huff1a, encoded_symbol);
                    }
                    proof {
                        lemma_encodes_bits(huff1a.encodings@, ta, encoded_symbol as int);
                        lemma_encodes_bits(huff1b.encodings@, tb, encoded_symbol as int);
                        lemma2_to64();
                        vstd::arithmetic::power2::lemma_pow2_strictly_increases(*robitlen as nat, 32);
                    }
                    let ghost w1 = encoder.written();
                    encoder.encode_raw_bits(*robits as u32, *robitlen);
                    let ghost w2 = encoder.written();
                    if *encoded_match_len as usize >= LZ_LENID_SIZE - 1 {
                        encoder.encode_huffman_sym(&huff2, *encoded_match_len as u16);
                        proof {
                            lemma_encodes_bits(huff2.encodings@, tl, *encoded_match_len as int);
                        }
                    } else {
                        proof {
                            assert(encoder.written() =~= w2 + Seq::<bool>::empty());
                        }
                    }
                    proof {
                        assert(encoder.written() =~= w0 + mi_bits(ta, tb, tl, x, encoded_symbol as int));
                    }
                },
            }
            proof {
                assert(encoder.written() =~= pre2 + mis_bits(ta, tb, tl, match_items@, encoded_symbols@, (i + 1) as nat));
            }
        }
        let (out, _len) = encoder.finish_into_output_pos();
        proof {
            let pad = (8 * out@.len() - encoder.written().len()) as nat;
            assert(out@.skip(0) =~= out@);
            assert(positions_below(m0, spos0));
            {
                let s = sbuf@;
                let limit = sbuf.len() as int;
                let xs = match_items@;
                let codes = encoded_symbols@;
                let n = n_items as nat;
                assert(its.take(n as int) =~= its);
                lemma_items_spell(m0, s, spos0, its, xs, limit, r0, codes, ta, tb, tl, n);
                lemma_items_agree_valid(m0, s, spos0, its, xs, limit);
                assert forall|k: int| 0 <= k < xs.len() implies (if mi_after_literal(#[trigger] xs[k]) { tb } else {
                    ta
                })[codes[k] as int] > 0 by {
                    if mi_after_literal(xs[k]) {
                        assert(huff_weights1b@[codes[k] as int] > 0);
                    } else {
                        assert(huff_weights1a@[codes[k] as int] > 0);
                    }
                }
                assert forall|k: int| 0 <= k < xs.len() implies match mi_long_len(#[trigger] xs[k]) {
                    Some(e) => 0 <= e < LZ_MATCH_MAX_LEN && tl[e] > 0,
                    None => true,
                } by {
                    if mi_long_len(xs[k]) is Some {
                        assert(huff_weights2@[mi_long_len(xs[k])->0] > 0);
                    }
                }
                lemma_items_coded(m0, s, spos0, its, xs, limit, r0, codes, ta, tb, tl);
                assert(item_keys(m0, s, spos0, its) == mi_keys(xs, n as int));
                lemma_table_weights(m0, s, spos0, its, xs, limit, r0, codes, huff_weights1a@, false);
                lemma_table_weights(m0, s, spos0, its, xs, limit, r0, codes, huff_weights1b@, true);
                lemma_length_weights(m0, s, spos0, its, xs, limit, r0, codes, huff_weights2@);
                let parts = ChunkParts { head: head_g, ta, tb, tl, its, pad };
                assert(bytes_bits(out@) =~= chunk_bits(first, head_g, spos as int, ta, tb, tl, m0, s, spos0, r0, its)
                    + zeros(pad));
                assert(chunk_parts_ok(parts, first, m0, ranks_in, s, spos0, spos as int, m1, self.ctx.ranks(), out@));
                reveal(chunk_encodes_items);
            }
        }
        (spos, out)
    }
}

/// A chunk that does not decode.
#[derive(PartialEq, Eq, Structural, Debug)]
pub enum LZError {
    InvalidData,
}

/// The decoder: the shared context and the reduced-offset class table.
pub struct LZDecoder {
    pub ctx: LZContext,
    pub roid_decoding: Vec<(u16, u8)>,
}

impl LZDecoder {
    pub open spec fn wf(&self) -> bool {
        &&& self.ctx.wf()
        &&& is_roid_decoding(self.roid_decoding@)
    }

    pub fn new() -> (r: Self)
        ensures
            r.wf(),
            r.ctx.first_block,
            r.ctx.after_literal,
            r.ctx.model() == initial_model(),
    {
        LZDecoder { ctx: LZContext::new(), roid_decoding: generate_extra_bit_codes_dec() }
    }

    /// Moves every recorded position `forward_len` back.
    pub fn forward(&mut self, forward_len: usize)
        requires
            old(self).wf(),
        ensures
            final(self).wf(),
            final(self).ctx.model() == model_forward(old(self).ctx.model(), forward_len as int),
            final(self).ctx.ranks() == old(self).ctx.ranks(),
            final(self).ctx.first_block == old(self).ctx.first_block,
    {
        for i in 0..256usize
            invariant
                self.wf(),
                self.ctx.words@ == old(self).ctx.words@,
                self.ctx.after_literal == old(self).ctx.after_literal,
                self.ctx.first_block == old(self).ctx.first_block,
                self.ctx.symranks@ == old(self).ctx.symranks@,
                self.ctx.buckets.len() == 256,
                forall|b: int| 0 <= b < i ==> (#[trigger] self.ctx.buckets@[b]).model() == bucket_forward(
                    old(self).ctx.buckets@[b].model(),
                    forward_len as int,
                ),
                forall|b: int| i <= b < 256 ==> #[trigger] self.ctx.buckets@[b] == old(self).ctx.buckets@[b],
        {
            self.ctx.buckets[i].forward(forward_len);
        }
        proof {
            assert(self.ctx.model().buckets =~= model_forward(old(self).ctx.model(), forward_len as int).buckets);
            assert(self.ctx.ranks() =~= old(self).ctx.ranks());
        }
    }

    /// Reads the counted symbols of the first block and ranks every
    /// context's symbols with them first, then the others in order.
    fn init_symranks(&mut self, decoder: &mut Decoder) -> (r: Result<(), LZError>)
        requires
            old(self).wf(),
            old(self).ctx.first_block,
            old(decoder).wf(),
        ensures
            final(self).wf(),
            final(decoder).wf(),
            final(decoder).input() == old(decoder).input(),
            final(self).ctx.model() == old(self).ctx.model(),
            match read_head(old(decoder).input(), old(decoder).pos()) {
                None => r is Err,
                Some((h, bp)) => {
                    &&& r is Ok
                    &&& final(decoder).pos() == bp
                    &&& !final(self).ctx.first_block
                    &&& final(self).ctx.ranks() == initial_ranks(completed_order(h))
                },
            },
    {
        let ghost input = decoder.input();
        let ghost bp0 = decoder.pos();
        let num_counted_symbols = decoder.decode_varint() as usize;
        let ghost bp1 = decoder.pos();
        if num_counted_symbols > SYMRANK_NUM_SYMBOLS {
            return Err(LZError::InvalidData);
        }
        let n = SYMRANK_NUM_SYMBOLS;
        let mut head: Vec<u16> = Vec::new();
        let mut set: Vec<bool> = Vec::new();
        for t in 0..n
            invariant
                set.len() == t,
                forall|u: int| 0 <= u < t ==> !#[trigger] set@[u],
        {
            set.push(false);
        }
        for i in 0..num_counted_symbols
            invariant
                self.wf(),
                self.ctx.first_block,
                self.ctx.model() == old(self).ctx.model(),
                n == SYMRANK_NUM_SYMBOLS,
                num_counted_symbols <= n,
                set.len() == n,
                decoder.wf(),
                decoder.input() == input,
                input == old(decoder).input(),
                bp0 == old(decoder).pos(),
                bp1 == varint_decode(input, bp0).1,
                num_counted_symbols as nat == varint_decode(input, bp0).0 % pow2(32),
                decoder.pos() == bp1 + 9 * i,
                head@ == read_syms9(input, bp1, i as nat),
                distinct_symbols(head@),
                forall|u: int| 0 <= u < n ==> (#[trigger] set@[u] <==> head@.contains(u as u16)),
        {
            let ghost p = decoder.pos();
            let v = decoder.decode_raw_bits(9) as usize;
            proof {
                crate::bitstream::lemma_bits_value_bound(crate::bitstream::window(input, p, 9));
                lemma2_to64();
            }
            let ghost head0 = head@;
            if v >= n || set[v] {
                proof {
                    let full = read_syms9(input, bp1, num_counted_symbols as nat);
                    lemma_read_syms9_prefix(input, bp1, (i + 1) as nat, num_counted_symbols as nat);
                    lemma_read_syms9_prefix(input, bp1, (i + 1) as nat, (i + 1) as nat);
                    assert(p == bp1 + 9 * i);
                    assert(read_syms9(input, bp1, (i + 1) as nat) == read_syms9(input, bp1, i as nat).push(
                        crate::bitstream::bits_value(crate::bitstream::window(input, bp1 + 9 * i, 9)) as u16,
                    ));
                    assert(full[i as int] == read_syms9(input, bp1, (i + 1) as nat)[i as int]);
                    assert(full[i as int] == v as u16);
                    if v < n {
                        let j = choose|j: int| 0 <= j < head0.len() && head0[j] == v as u16;
                        assert(full[j] == head0[j]);
                    }
                    assert(!distinct_symbols(full));
                    assert(read_head(input, bp0) is None);
                }
                return Err(LZError::InvalidData);
            }
            head.push(v as u16);
            set.set(v, true);
            proof {
                assert forall|u: int| 0 <= u < n implies (#[trigger] set@[u] <==> head@.contains(u as u16)) by {
                    if u == v as int {
                        assert(head@[head0.len() as int] == v as u16);
                    } else {
                        if head@.contains(u as u16) {
                            let j = choose|j: int| 0 <= j < head@.len() && head@[j] == u as u16;
                            assert(j < head0.len());
                            assert(head0[j] == u as u16);
                        }
                        if head0.contains(u as u16) {
                            let j = choose|j: int| 0 <= j < head0.len() && head0[j] == u as u16;
                            assert(head@[j] == u as u16);
                        }
                    }
                }
                assert forall|a: int, b: int| 0 <= a < b < head@.len() implies head@[a] != head@[b] by {
                    if b == head0.len() {
                        assert(head@[a] == head0[a]);
                        assert(head0.contains(head0[a]));
                    }
                }
            }
        }
        let vs = complete_order(&head);
        self.ctx.init_ranks(&vs);
        Ok(())
    }

    /// Decodes one chunk from `tbuf` into `sbuf` at `spos`: exactly what
    /// `decode_chunk` says of it, returning the position reached (at most the
    /// position the chunk records). A chunk that names a symbol outside the
    /// alphabet, a table that describes no prefix code, a match that does not
    /// lie before the position, or output past the end of `sbuf` is
    /// `InvalidData`.
    pub fn decode(&mut self, tbuf: &[u8], sbuf: &mut Vec<u8>, spos: usize) -> (r: Result<usize, LZError>)
        requires
            old(self).wf(),
            old(sbuf).len() < LZ_POS_LIMIT,
            4 <= spos <= old(sbuf).len(),
        ensures
            final(self).wf(),
            final(sbuf).len() == old(sbuf).len(),
            forall|j: int| 0 <= j < spos ==> #[trigger] final(sbuf)@[j] == old(sbuf)@[j],
            r matches Ok(n) ==> n <= final(sbuf).len(),
            match decode_chunk(
                old(self).ctx.first_block,
                old(self).ctx.model(),
                old(self).ctx.ranks(),
                old(sbuf)@,
                spos as int,
                tbuf@,
                old(sbuf).len() as int,
            ) {
                None => r is Err,
                Some((fin, rec)) => {
                    &&& r == Ok::<usize, LZError>(if fin.pos < rec { fin.pos as usize } else { rec as usize })
                    &&& final(self).ctx.model() == fin.m
                    &&& final(self).ctx.ranks() == fin.ranks
                    &&& final(sbuf)@ == fin.buf
                    &&& !final(self).ctx.first_block
                },
            },
    {
        let mut decoder = Decoder::new(tbuf, 0);
        if self.ctx.first_block {
            let r = self.init_symranks(&mut decoder);
            if r.is_err() {
                return Err(LZError::InvalidData);
            }
        }
        self.decode_rest(&mut decoder, sbuf, spos)
    }

    /// Decodes the rest of a chunk after its header: exactly what
    /// `decode_body` says of it.
    fn decode_rest(&mut self, decoder: &mut Decoder, sbuf: &mut Vec<u8>, spos: usize) -> (r: Result<usize, LZError>)
        requires
            old(self).wf(),
            !old(self).ctx.first_block,
            old(decoder).wf(),
            old(sbuf).len() < LZ_POS_LIMIT,
            4 <= spos <= old(sbuf).len(),
        ensures
            final(self).wf(),
            !final(self).ctx.first_block,
            final(sbuf).len() == old(sbuf).len(),
            forall|j: int| 0 <= j < spos ==> #[trigger] final(sbuf)@[j] == old(sbuf)@[j],
            r matches Ok(n) ==> n <= final(sbuf).len(),
            match decode_body(
                old(self).ctx.model(),
                old(self).ctx.ranks(),
                old(sbuf)@,
                spos as int,
                old(decoder).input(),
                old(sbuf).len() as int,
                old(decoder).pos(),
            ) {
                None => r is Err,
                Some((fin, rec)) => {
                    &&& r == Ok::<usize, LZError>(if fin.pos < rec { fin.pos as usize } else { rec as usize })
                    &&& final(self).ctx.model() == fin.m
                    &&& final(self).ctx.ranks() == fin.ranks
                    &&& final(sbuf)@ == fin.buf
                },
            },
    {
        let ghost input = decoder.input();
        let ghost limit = sbuf.len() as int;
        let mut cur = spos;

        // decode sbuf_len/match_items_len
        let sbuf_len = decoder.decode_varint() as usize;
        let match_items_len = decoder.decode_varint() as usize;
        let ghost bp2 = decoder.pos();
        let ghost st = DecState { m: self.ctx.model(), ranks: self.ctx.ranks(), buf: sbuf@, pos: spos as int, bp: bp2 };

        // start decoding
        let huff_table1a = match decoder.decode_huffman_table() {
            Some(t) => t,
            None => {
                proof {
                    assert(read_table(input, bp2) is None);
                }
                return Err(LZError::InvalidData);
            },
        };
        let ghost bp3 = decoder.pos();
        let ghost ta = DecTable { lens: huff_table1a.code_lens@, max: huff_table1a.max_code_len };
        let huff_table1b = match decoder.decode_huffman_table() {
            Some(t) => t,
            None => {
                proof {
                    assert(read_table(input, bp3) is None);
                    if table_decodable(ta) {
                        assert(read_table(input, bp2) == Some((ta, bp3)));
                    } else {
                        assert(read_table(input, bp2) is None);
                    }
                }
                return Err(LZError::InvalidData);
            },
        };
        let ghost bp4 = decoder.pos();
        let ghost tb = DecTable { lens: huff_table1b.code_lens@, max: huff_table1b.max_code_len };
        let huff_table2 = match decoder.decode_huffman_table() {
            Some(t) => t,
            None => {
                proof {
                    assert(read_table(input, bp4) is None);
                    if table_decodable(ta) && table_decodable(tb) {
                        assert(read_table(input, bp2) == Some((ta, bp3)));
                        assert(read_table(input, bp3) == Some((tb, bp4)));
                    } else if table_decodable(ta) {
                        assert(read_table(input, bp2) == Some((ta, bp3)));
                        assert(read_table(input, bp3) is None);
                    } else {
                        assert(read_table(input, bp2) is None);
                    }
                }
                return Err(LZError::InvalidData);
            },
        };
        let ghost bp5 = decoder.pos();
        let ghost tl = DecTable { lens: huff_table2.code_lens@, max: huff_table2.max_code_len };
        let huff1a = match HuffmanDecoding::from_huffman_table(&huff_table1a) {
            Some(d) => d,
            None => {
                proof {
                    assert(!table_decodable(ta)) by {
                        let s = choose|s: int| 0 <= s < ta.lens.len() && #[trigger] ta.lens[s] > 0 && code_base(ta.lens, ta.max as nat, s)
                            + pow2((ta.max - ta.lens[s]) as nat) > pow2(ta.max as nat);
                    }
                    assert(read_table(input, bp2) is None);
                }
                return Err(LZError::InvalidData);
            },
        };
        proof {
            assert(read_table(input, bp2) == Some((ta, bp3)));
        }
        let huff1b = match HuffmanDecoding::from_huffman_table(&huff_table1b) {
            Some(d) => d,
            None => {
                proof {
                    assert(!table_decodable(tb)) by {
                        let s = choose|s: int| 0 <= s < tb.lens.len() && #[trigger] tb.lens[s] > 0 && code_base(tb.lens, tb.max as nat, s)
                            + pow2((tb.max - tb.lens[s]) as nat) > pow2(tb.max as nat);
                    }
                    assert(read_table(input, bp3) is None);
                }
                return Err(LZError::InvalidData);
            },
        };
        proof {
            assert(read_table(input, bp3) == Some((tb, bp4)));
        }
        let huff2 = match HuffmanDecoding::from_huffman_table(&huff_table2) {
            Some(d) => d,
            None => {
                proof {
                    assert(!table_decodable(tl)) by {
                        let s = choose|s: int| 0 <= s < tl.lens.len() && #[trigger] tl.lens[s] > 0 && code_base(tl.lens, tl.max as nat, s)
                            + pow2((tl.max - tl.lens[s]) as nat) > pow2(tl.max as nat);
                    }
                    assert(read_table(input, bp4) is None);
                }
                return Err(LZError::InvalidData);
            },
        };
        proof {
            assert(read_table(input, bp4) == Some((tl, bp5)));
        }
        let ghost st0 = DecState { bp: bp5, ..st };
        let ghost n = match_items_len as nat;
        let ghost rec = sbuf_len as int;
        proof {
            assert(decode_body(self.ctx.model(), self.ctx.ranks(), sbuf@, spos as int, input, limit, old(decoder).pos())
                == match dec_items(input, ta, tb, tl, st0, n, limit) {
                None => None,
                Some(fin) => Some((fin, rec)),
            });
        }
        let ghost m0 = self.ctx.model();
        let ghost r0 = self.ctx.ranks();
        let ghost b0 = sbuf@;
        for k in 0..match_items_len
            invariant
                self.wf(),
                !self.ctx.first_block,
                decoder.wf(),
                decoder.input() == input,
                huff1a.wf(),
                huff1b.wf(),
                huff2.wf(),
                huff1a.max_code_len == ta.max,
                huff1b.max_code_len == tb.max,
                huff2.max_code_len == tl.max,
                forall|x: int| 0 <= x < huff1a.decodings.len() ==> #[trigger] huff1a.decodings[x] == decoding_entry(
                    ta.lens, ta.max as nat, x, ta.lens.len() as int),
                forall|x: int| 0 <= x < huff1b.decodings.len() ==> #[trigger] huff1b.decodings[x] == decoding_entry(
                    tb.lens, tb.max as nat, x, tb.lens.len() as int),
                forall|x: int| 0 <= x < huff2.decodings.len() ==> #[trigger] huff2.decodings[x] == decoding_entry(
                    tl.lens, tl.max as nat, x, tl.lens.len() as int),
                sbuf.len() == old(sbuf).len(),
                limit == sbuf.len(),
                sbuf.len() < LZ_POS_LIMIT,
                4 <= spos <= cur <= sbuf.len(),
                forall|j: int| 0 <= j < spos ==> #[trigger] sbuf@[j] == old(sbuf)@[j],
                n == match_items_len,
                rec == sbuf_len,
                m0 == old(self).ctx.model(),
                r0 == old(self).ctx.ranks(),
                b0 == old(sbuf)@,
                input == old(decoder).input(),
                decode_body(m0, r0, b0, spos as int, input, limit, old(decoder).pos()) == match dec_items(
                    input, ta, tb, tl, st0, n, limit) {
                    None => None,
                    Some(fin) => Some((fin, rec)),
                },
                dec_items(input, ta, tb, tl, st0, k as nat, limit) == Some(
                    DecState { m: self.ctx.model(), ranks: self.ctx.ranks(), buf: sbuf@, pos: cur as int, bp: decoder.pos() },
                ),
        {
            let r = self.decode_item(decoder, &huff1a, &huff1b, &huff2, Ghost(ta), Ghost(tb), Ghost(tl), sbuf, cur);
            match r {
                Ok(next) => {
                    cur = next;
                },
                Err(e) => {
                    proof {
                        lemma_dec_items_none(input, ta, tb, tl, st0, (k + 1) as nat, match_items_len as nat, limit);
                    }
                    return Err(e);
                },
            }
        }
        Ok(if cur < sbuf_len { cur } else { sbuf_len })
    }

    /// Decodes one item: exactly what `dec_item` says of it.
    #[verifier::rlimit(100)]
    fn decode_item(
        &mut self,
        decoder: &mut Decoder,
        huff1a: &HuffmanDecoding,
        huff1b: &HuffmanDecoding,
        huff2: &HuffmanDecoding,
        Ghost(ta): Ghost<DecTable>,
        Ghost(tb): Ghost<DecTable>,
        Ghost(tl): Ghost<DecTable>,
        sbuf: &mut Vec<u8>,
        cur: usize,
    ) -> (r: Result<usize, LZError>)
        requires
            old(self).wf(),
            !old(self).ctx.first_block,
            old(decoder).wf(),
            huff1a.wf(),
            huff1b.wf(),
            huff2.wf(),
            huff1a.max_code_len == ta.max,
            huff1b.max_code_len == tb.max,
            huff2.max_code_len == tl.max,
            forall|x: int| 0 <= x < huff1a.decodings.len() ==> #[trigger] huff1a.decodings[x] == decoding_entry(
                ta.lens, ta.max as nat, x, ta.lens.len() as int),
            forall|x: int| 0 <= x < huff1b.decodings.len() ==> #[trigger] huff1b.decodings[x] == decoding_entry(
                tb.lens, tb.max as nat, x, tb.lens.len() as int),
            forall|x: int| 0 <= x < huff2.decodings.len() ==> #[trigger] huff2.decodings[x] == decoding_entry(
                tl.lens, tl.max as nat, x, tl.lens.len() as int),
            old(sbuf).len() < LZ_POS_LIMIT,
            4 <= cur <= old(sbuf).len(),
        ensures
            final(self).wf(),
            !final(self).ctx.first_block,
            final(decoder).wf(),
            final(decoder).input() == old(decoder).input(),
            final(sbuf).len() == old(sbuf).len(),
            forall|j: int| 0 <= j < cur ==> #[trigger] final(sbuf)@[j] == old(sbuf)@[j],
            match dec_item(
                old(decoder).input(),
                ta,
                tb,
                tl,
                DecState {
                    m: old(self).ctx.model(),
                    ranks: old(self).ctx.ranks(),
                    buf: old(sbuf)@,
                    pos: cur as int,
                    bp: old(decoder).pos(),
                },
                old(sbuf).len() as int,
            ) {
                None => r is Err,
                Some(s2) => {
                    &&& r == Ok::<usize, LZError>(s2.pos as usize)
                    &&& cur < s2.pos <= final(sbuf).len()
                    &&& final(self).ctx.model() == s2.m
                    &&& final(self).ctx.ranks() == s2.ranks
                    &&& final(sbuf)@ == s2.buf
                    &&& final(decoder).pos() == s2.bp
                },
            },
    {
        let ghost input = decoder.input();
        let ghost limit = sbuf.len() as int;
        let ghost s1 = DecState { m: self.ctx.model(), ranks: self.ctx.ranks(), buf: sbuf@, pos: cur as int, bp: decoder.pos() };
        let al = self.ctx.after_literal;
        let symbol = if al {
            decoder.decode_huffman_sym(huff1b)
        } else {
            decoder.decode_huffman_sym(huff1a)
        };
        proof {
            crate::bitstream::lemma_bits_value_bound(crate::bitstream::window(input, s1.bp, (if al { tb.max } else { ta.max }) as nat));
        }
        if symbol as usize >= SYMRANK_NUM_SYMBOLS {
            return Err(LZError::InvalidData);
        }
        let h1 = hash1(sbuf.as_slice(), cur - 1);
        let last_word_expected = self.ctx.words[hash2(sbuf.as_slice(), cur - 1)];
        let symrank_context: usize = h1 + if al { 256usize } else { 0usize };
        let symrank_unlikely = last_word_expected.0;
        let ghost sr = self.ctx.symranks@[symrank_context as int];
        let ghost ranks1 = self.ctx.ranks();
        let decoded = self.ctx.symranks[symrank_context].decode(symbol, symrank_unlikely as u16);
        let ghost ranks2 = ranks1.update(
            symrank_context as int,
            rank_update(sr.values(), sr.indices(), code_rank(symbol as int, sr.indices()[symrank_unlikely as int] as int)),
        );
        proof {
            assert(sr.wf());
            assert forall|c: int| 0 <= c < 512 implies (#[trigger] self.ctx.symranks@[c]).wf() by {}
            assert((decoded as int) < SYMRANK_NUM_SYMBOLS);
            assert(self.ctx.ranks() =~= ranks2);
            assert(ranks1[symrank_context as int] == (sr.values(), sr.indices()));
        }
        let ghost mb = self.ctx.model();
        if decoded == WORD_SYMBOL {
            if cur + 2 > sbuf.len() {
                return Err(LZError::InvalidData);
            }
            let ghost bk0 = self.ctx.buckets@[h1 as int];
            self.ctx.buckets[h1].update(cur, 0, 0);
            self.ctx.after_literal = false;
            sbuf.set(cur, last_word_expected.0);
            sbuf.set(cur + 1, last_word_expected.1);
            proof {
                assert(mb.buckets[h1 as int] == bk0.model());
                assert(self.ctx.model().buckets =~= mb.buckets.update(
                    h1 as int,
                    crate::matcher::bucket_update(mb.buckets[h1 as int], cur as int, 0, 0),
                ));
            }
            return Ok(cur + 2);
        } else if decoded < 256 {
            if cur + 1 > sbuf.len() {
                return Err(LZError::InvalidData);
            }
            let ghost bk0 = self.ctx.buckets@[h1 as int];
            self.ctx.buckets[h1].update(cur, 0, 0);
            self.ctx.after_literal = true;
            sbuf.set(cur, decoded as u8);
            let next = cur + 1;
            let hw = hash2(sbuf.as_slice(), next - 3);
            self.ctx.words.set(hw, (sbuf[next - 2], sbuf[next - 1]));
            proof {
                assert(mb.buckets[h1 as int] == bk0.model());
                assert(self.ctx.model().buckets =~= mb.buckets.update(
                    h1 as int,
                    crate::matcher::bucket_update(mb.buckets[h1 as int], cur as int, 0, 0),
                ));
            }
            return Ok(next);
        } else {
            let roid = ((decoded - 256) / LZ_LENID_SIZE as u16) as usize;
            let lenid = ((decoded - 256) % LZ_LENID_SIZE as u16) as usize;

            // get match position and lengths
            let (robase, robitlen) = self.roid_decoding[roid];
            proof {
                lemma_roid_bases();
                assert(roid_base((roid + 1) as nat) <= roid_base(LZ_ROID_SIZE as nat));
                lemma2_to64();
                vstd::arithmetic::power2::lemma_pow2_strictly_increases(robitlen as nat, 32);
            }
            let ghost dpos = decoder.pos();
            let bits = decoder.decode_raw_bits(robitlen) as usize;
            proof {
                crate::bitstream::lemma_bits_value_bound(crate::bitstream::window(input, dpos, robitlen as nat));
                assert(robase == roid_base(roid as nat));
                assert(robitlen == extra_bitlen(roid as nat));
                assert(roid_base((roid + 1) as nat) == roid_base(roid as nat) + pow2(extra_bitlen(roid as nat)));
            }
            let reduced_offset = robase as usize + bits;
            let node = self.ctx.buckets[h1].get_match_node_index(reduced_offset);
            let match_pos_and_len_min = self.ctx.buckets[h1].get_match_pos_and_len_min(node);
            let match_len_expected = self.ctx.buckets[h1].get_match_len_expected(node);
            let ghost dpos2 = decoder.pos();
            let encoded_match_len: usize = if lenid == LZ_LENID_SIZE - 1 {
                decoder.decode_huffman_sym(huff2) as usize
            } else {
                lenid
            };
            proof {
                if lenid == LZ_LENID_SIZE - 1 {
                    crate::bitstream::lemma_bits_value_bound(crate::bitstream::window(input, dpos2, tl.max as nat));
                }
            }
            let match_pos = match_pos_and_len_min.pos as usize;
            let match_len_min: usize = if match_pos_and_len_min.match_len_min as usize > LZ_MATCH_MIN_LEN {
                match_pos_and_len_min.match_len_min as usize
            } else {
                LZ_MATCH_MIN_LEN
            };
            let match_len_expected: usize = if match_len_expected.match_len_expected as usize > LZ_MATCH_MIN_LEN {
                match_len_expected.match_len_expected as usize
            } else {
                LZ_MATCH_MIN_LEN
            };
            let match_len = if encoded_match_len + match_len_min > match_len_expected {
                encoded_match_len + match_len_min
            } else if encoded_match_len > 0 {
                encoded_match_len + match_len_min - 1
            } else {
                match_len_expected
            };
            if match_len > LZ_MATCH_MAX_LEN || match_pos >= cur || cur + match_len > sbuf.len() {
                return Err(LZError::InvalidData);
            }
            let ghost bk0 = self.ctx.buckets@[h1 as int];
            self.ctx.buckets[h1].update(cur, reduced_offset, match_len);
            self.ctx.after_literal = false;
            let ghost before_copy = sbuf@;
            mem_fast_copy(sbuf, match_pos, cur, match_len);
            proof {
                crate::lz_model::lemma_copy_forward_unique(before_copy, sbuf@, match_pos as int, cur as int, match_len as nat);
            }
            let next = cur + match_len;
            let hw = hash2(sbuf.as_slice(), next - 3);
            self.ctx.words.set(hw, (sbuf[next - 2], sbuf[next - 1]));
            proof {
                assert(mb.buckets[h1 as int] == bk0.model());
                assert(self.ctx.model().buckets =~= mb.buckets.update(
                    h1 as int,
                    crate::matcher::bucket_update(mb.buckets[h1 as int], cur as int, reduced_offset as int, match_len as int),
                ));
            }
            return Ok(next);
        }
    }
}
} // verus!
