//! What the stream coders do, block by block: the state each keeps, the
//! chunks a block is written as, and what the decoder makes of a chunk.
use vstd::prelude::*;
use crate::lz_format::{chunk_encodes, chunk_encodes_items, decode_chunk, lemma_chunk_size, lemma_chunk_encodes_bounds};
use crate::lz_parse::{ParseState, parse_run};
use crate::lz::LZ_CHUNK_SIZE;
use crate::lz_roundtrip::law_chunk_roundtrip;
use crate::lz_model::{LzModel, model_forward, initial_model};
use crate::stream::{LZ_BLOCK_SIZE, SBVEC_PREMATCH_LEN, TBVEC_LEN, BLOCK_INPUT_LEN};
use crate::ioutil::is_len_encoding;

verus! {

/// What a stream coder keeps between chunks: the context, the rankings,
/// whether the first block is still to come, the block's bytes and the
/// position in the block.
pub struct CoderView {
    pub m: LzModel,
    pub ranks: Seq<(Seq<u16>, Seq<u16>)>,
    pub first: bool,
    pub block: Seq<u8>,
    pub pos: int,
}

/// How far positions move back when a block's last half is carried over.
pub open spec fn carry_len() -> int {
    LZ_BLOCK_SIZE - SBVEC_PREMATCH_LEN
}

/// A block once its last `SBVEC_PREMATCH_LEN` bytes are copied to its start.
pub open spec fn carried(b: Seq<u8>) -> Seq<u8> {
    Seq::new(
        LZ_BLOCK_SIZE as nat,
        |j: int|
            if j < SBVEC_PREMATCH_LEN {
                b[j + carry_len()]
            } else {
                b[j]
            },
    )
}

/// What the stream decoder makes of one chunk: the bytes it adds and the
/// state after it; `None` where the chunk is too long, does not decode, or
/// would move back. Once the block is full, its last half is carried over
/// and the positions move back.
#[verifier::opaque]
pub open spec fn dec_step(d: CoderView, chunk: Seq<u8>) -> Option<(Seq<u8>, CoderView)> {
    if chunk.len() >= TBVEC_LEN {
        None
    } else {
        match decode_chunk(d.first, d.m, d.ranks, d.block, d.pos, chunk, d.block.len() as int) {
            None => None,
            Some((fin, rec)) => {
                let e = if fin.pos < rec { fin.pos } else { rec };
                if e < d.pos {
                    None
                } else {
                    let out = fin.buf.subrange(d.pos, e);
                    if e >= LZ_BLOCK_SIZE {
                        Some(
                            (
                                out,
                                CoderView {
                                    m: model_forward(fin.m, carry_len()),
                                    ranks: fin.ranks,
                                    first: false,
                                    block: carried(fin.buf),
                                    pos: SBVEC_PREMATCH_LEN as int,
                                },
                            ),
                        )
                    } else {
                        Some((out, CoderView { m: fin.m, ranks: fin.ranks, first: false, block: fin.buf, pos: e }))
                    }
                }
            },
        }
    }
}

/// What the stream decoder makes of chunks in turn: all the bytes they add
/// and the state after them.
pub open spec fn dec_steps(d: CoderView, chunks: Seq<Seq<u8>>) -> Option<(Seq<u8>, CoderView)>
    decreases chunks.len(),
{
    if chunks.len() == 0 {
        Some((Seq::empty(), d))
    } else {
        match dec_steps(d, chunks.drop_last()) {
            None => None,
            Some((out, d1)) => match dec_step(d1, chunks.last()) {
                None => None,
                Some((out2, d2)) => Some((out + out2, d2)),
            },
        }
    }
}

/// The last of `chunks` was written from `q` to `end`, starting with `mq`,
/// `rq` and `fq`, and leaving `m1` and `ranks1`.
pub open spec fn last_chunk_encodes(
    fq: bool,
    mq: LzModel,
    rq: Seq<(Seq<u16>, Seq<u16>)>,
    buf: Seq<u8>,
    q: int,
    end: int,
    chunks: Seq<Seq<u8>>,
    m1: LzModel,
    ranks1: Seq<(Seq<u16>, Seq<u16>)>,
) -> bool {
    &&& q < end
    &&& chunk_encodes(fq, mq, rq, buf, q, end, m1, ranks1, chunks.last())
}

/// `chunks` are, in turn, chunks that the encoder wrote over the bytes of
/// `buf` from `p` to `end`, starting with context `m`, rankings `ranks` and
/// first-block flag `first`, and leaving `m1`, `ranks1` and `first1`.
pub open spec fn chunks_encode(
    first: bool,
    m: LzModel,
    ranks: Seq<(Seq<u16>, Seq<u16>)>,
    buf: Seq<u8>,
    p: int,
    end: int,
    chunks: Seq<Seq<u8>>,
    m1: LzModel,
    ranks1: Seq<(Seq<u16>, Seq<u16>)>,
    first1: bool,
) -> bool
    decreases chunks.len(),
{
    if chunks.len() == 0 {
        &&& end == p
        &&& m1 == m
        &&& ranks1 == ranks
        &&& first1 == first
    } else {
        exists|q: int, mq: LzModel, rq: Seq<(Seq<u16>, Seq<u16>)>, fq: bool|
            #[trigger] last_chunk_encodes(fq, mq, rq, buf, q, end, chunks, m1, ranks1) && chunks_encode(
                first,
                m,
                ranks,
                buf,
                p,
                q,
                chunks.drop_last(),
                mq,
                rq,
                fq,
            ) && !first1
    }
}

/// The last of `chunks` is the chunk of the items that the parse with
/// match and lazy depths `depths` takes from `pq` (at most
/// `LZ_CHUNK_SIZE`), which leave the parse at `ps1`.
pub open spec fn last_chunk_parsed(
    fq: bool,
    pq: ParseState,
    rq: Seq<(Seq<u16>, Seq<u16>)>,
    buf: Seq<u8>,
    depths: (int, int, int),
    chunks: Seq<Seq<u8>>,
    ps1: ParseState,
    ranks1: Seq<(Seq<u16>, Seq<u16>)>,
) -> bool {
    let run = parse_run(pq, buf, depths, LZ_CHUNK_SIZE as nat);
    &&& pq.pos < ps1.pos
    &&& run.1 == ps1
    &&& chunk_encodes_items(fq, pq.m, rq, buf, pq.pos, ps1.pos, ps1.m, ranks1, chunks.last(), run.0)
}

/// `chunks` are, in turn, the chunks of the successive parses with depths
/// `depths` of the bytes of `buf` from `ps`, with rankings `ranks` and
/// first-block flag `first`, which leave the parse at `ps1`, the rankings
/// `ranks1` and the flag `first1`.
pub open spec fn chunks_parsed(
    first: bool,
    ps: ParseState,
    ranks: Seq<(Seq<u16>, Seq<u16>)>,
    buf: Seq<u8>,
    depths: (int, int, int),
    chunks: Seq<Seq<u8>>,
    ps1: ParseState,
    ranks1: Seq<(Seq<u16>, Seq<u16>)>,
    first1: bool,
) -> bool
    decreases chunks.len(),
{
    if chunks.len() == 0 {
        &&& ps1 == ps
        &&& ranks1 == ranks
        &&& first1 == first
    } else {
        exists|pq: ParseState, rq: Seq<(Seq<u16>, Seq<u16>)>, fq: bool|
            #[trigger] last_chunk_parsed(fq, pq, rq, buf, depths, chunks, ps1, ranks1) && chunks_parsed(
                first,
                ps,
                ranks,
                buf,
                depths,
                chunks.drop_last(),
                pq,
                rq,
                fq,
            ) && !first1
    }
}

/// One more chunk of the parse after chunks that reached its start.
pub proof fn lemma_chunks_parsed_push(
    first: bool,
    ps: ParseState,
    ranks: Seq<(Seq<u16>, Seq<u16>)>,
    buf: Seq<u8>,
    depths: (int, int, int),
    chunks: Seq<Seq<u8>>,
    pq: ParseState,
    rq: Seq<(Seq<u16>, Seq<u16>)>,
    fq: bool,
    ps1: ParseState,
    r1: Seq<(Seq<u16>, Seq<u16>)>,
    c: Seq<u8>,
)
    requires
        chunks_parsed(first, ps, ranks, buf, depths, chunks, pq, rq, fq),
        pq.pos < ps1.pos,
        parse_run(pq, buf, depths, LZ_CHUNK_SIZE as nat).1 == ps1,
        chunk_encodes_items(fq, pq.m, rq, buf, pq.pos, ps1.pos, ps1.m, r1, c, parse_run(pq, buf, depths, LZ_CHUNK_SIZE as nat).0),
    ensures
        chunks_parsed(first, ps, ranks, buf, depths, chunks.push(c), ps1, r1, false),
{
    let ch = chunks.push(c);
    assert(ch.drop_last() =~= chunks);
    assert(ch.last() == c);
    assert(last_chunk_parsed(fq, pq, rq, buf, depths, ch, ps1, r1));
}

/// The block once the new bytes `input` are written after its
/// carried-over half.
pub open spec fn written_block(b: Seq<u8>, input: Seq<u8>) -> Seq<u8> {
    Seq::new(
        LZ_BLOCK_SIZE as nat,
        |j: int|
            if SBVEC_PREMATCH_LEN <= j < SBVEC_PREMATCH_LEN + input.len() {
                input[j - SBVEC_PREMATCH_LEN]
            } else {
                b[j]
            },
    )
}

/// `out` ends with the last of `chunks` after its length `enc`, from byte `k`.
pub open spec fn frame_split(out: Seq<u8>, chunks: Seq<Seq<u8>>, k: int, enc: Seq<u8>) -> bool {
    &&& 0 <= k <= out.len()
    &&& is_len_encoding(enc, chunks.last().len() as nat)
    &&& out == out.take(k) + enc + chunks.last()
}

/// `out` is the chunks in turn, each after its length.
pub open spec fn framed(out: Seq<u8>, chunks: Seq<Seq<u8>>) -> bool
    decreases chunks.len(),
{
    if chunks.len() == 0 {
        out.len() == 0
    } else {
        exists|k: int, enc: Seq<u8>| #[trigger] frame_split(out, chunks, k, enc) && framed(out.take(k), chunks.drop_last())
    }
}

/// One more chunk written after chunks that reached its start.
pub proof fn lemma_chunks_encode_push(
    first: bool,
    m: LzModel,
    ranks: Seq<(Seq<u16>, Seq<u16>)>,
    buf: Seq<u8>,
    p: int,
    q: int,
    chunks: Seq<Seq<u8>>,
    mq: LzModel,
    rq: Seq<(Seq<u16>, Seq<u16>)>,
    fq: bool,
    end: int,
    m1: LzModel,
    r1: Seq<(Seq<u16>, Seq<u16>)>,
    c: Seq<u8>,
)
    requires
        chunks_encode(first, m, ranks, buf, p, q, chunks, mq, rq, fq),
        q < end,
        chunk_encodes(fq, mq, rq, buf, q, end, m1, r1, c),
    ensures
        chunks_encode(first, m, ranks, buf, p, end, chunks.push(c), m1, r1, false),
{
    let ch = chunks.push(c);
    assert(ch.drop_last() =~= chunks);
    assert(ch.last() == c);
    assert(last_chunk_encodes(fq, mq, rq, buf, q, end, ch, m1, r1));
}

/// One more chunk after its length.
pub proof fn lemma_framed_push(out: Seq<u8>, chunks: Seq<Seq<u8>>, enc: Seq<u8>, c: Seq<u8>)
    requires
        framed(out, chunks),
        is_len_encoding(enc, c.len() as nat),
    ensures
        framed(out + enc + c, chunks.push(c)),
{
    let o2 = out + enc + c;
    let ch = chunks.push(c);
    assert(ch.drop_last() =~= chunks);
    assert(ch.last() == c);
    assert(o2.take(out.len() as int) =~= out);
    assert(o2 =~= o2.take(out.len() as int) + enc + ch.last());
    assert(frame_split(o2, ch, out.len() as int, enc));
}

/// An encoder and a decoder at the start of a block, in step: the same
/// context and first-block flag, the same rankings once they are used, and
/// the same carried-over bytes.
pub open spec fn in_step(e: CoderView, d: CoderView) -> bool {
    &&& e.m == d.m
    &&& e.first == d.first
    &&& !e.first ==> e.ranks == d.ranks
    &&& e.pos == SBVEC_PREMATCH_LEN
    &&& d.pos == SBVEC_PREMATCH_LEN
    &&& e.block.len() == LZ_BLOCK_SIZE
    &&& d.block.len() == LZ_BLOCK_SIZE
    &&& forall|j: int| 0 <= j < SBVEC_PREMATCH_LEN ==> #[trigger] e.block[j] == d.block[j]
}

/// A chunk read as a first block does not look at the rankings it is given.
proof fn lemma_first_ignores_ranks(
    m: LzModel,
    r1: Seq<(Seq<u16>, Seq<u16>)>,
    r2: Seq<(Seq<u16>, Seq<u16>)>,
    buf: Seq<u8>,
    pos: int,
    input: Seq<u8>,
    limit: int,
)
    ensures
        decode_chunk(true, m, r1, buf, pos, input, limit) == decode_chunk(true, m, r2, buf, pos, input, limit),
{
}

/// The decoder step on a chunk that was written from `q1` to `q`, from the
/// state the encoder wrote it in and bytes that agree before `q1`: it adds
/// the bytes from `q1` to `q` and ends in the encoder's state after it,
/// its block carried over once full.
proof fn lemma_dec_step_written(
    d1: CoderView,
    f1: bool,
    m1: LzModel,
    r1: Seq<(Seq<u16>, Seq<u16>)>,
    buf: Seq<u8>,
    q1: int,
    q: int,
    mq: LzModel,
    rq: Seq<(Seq<u16>, Seq<u16>)>,
    c: Seq<u8>,
)
    requires
        chunk_encodes(f1, m1, r1, buf, q1, q, mq, rq, c),
        q1 < q,
        buf.len() <= LZ_BLOCK_SIZE,
        d1.m == m1,
        d1.first == f1,
        !f1 ==> d1.ranks == r1,
        d1.pos == q1,
        d1.block.len() == LZ_BLOCK_SIZE,
        forall|j: int| 0 <= j < q1 ==> #[trigger] d1.block[j] == buf[j],
    ensures
        dec_step(d1, c) matches Some((out, d2)) && {
            &&& out == buf.subrange(q1, q)
            &&& d2.ranks == rq
            &&& !d2.first
            &&& d2.block.len() == LZ_BLOCK_SIZE
            &&& q < LZ_BLOCK_SIZE ==> {
                &&& d2.m == mq
                &&& d2.pos == q
                &&& forall|j: int| 0 <= j < q ==> #[trigger] d2.block[j] == buf[j]
            }
            &&& q >= LZ_BLOCK_SIZE ==> {
                &&& d2.m == model_forward(mq, carry_len())
                &&& d2.pos == SBVEC_PREMATCH_LEN
                &&& forall|j: int| 0 <= j < SBVEC_PREMATCH_LEN ==> #[trigger] d2.block[j] == buf[j + carry_len()]
            }
        },
{
    reveal(dec_step);
    lemma_chunk_encodes_bounds(f1, m1, r1, buf, q1, q, mq, rq, c);
    lemma_chunk_size(f1, m1, r1, buf, q1, q, mq, rq, c);
    law_chunk_roundtrip(f1, m1, r1, buf, q1, q, mq, rq, c, d1.block, LZ_BLOCK_SIZE as int);
    if f1 {
        lemma_first_ignores_ranks(m1, r1, d1.ranks, d1.block, q1, c, LZ_BLOCK_SIZE as int);
    }
    let (fin, rec) = decode_chunk(f1, m1, r1, d1.block, q1, c, LZ_BLOCK_SIZE as int)->0;
    assert(fin.buf.subrange(q1, q) =~= buf.subrange(q1, q));
    if q >= LZ_BLOCK_SIZE {
        let cb = carried(fin.buf);
        assert forall|j: int| 0 <= j < SBVEC_PREMATCH_LEN implies #[trigger] cb[j] == buf[j + carry_len()] by {
            assert(fin.buf[j + carry_len()] == buf[j + carry_len()]);
        }
    }
}

/// Decoding, in turn, chunks written from the start of a block up to `q`
/// (before the block's end): the decoder adds the bytes from the start to
/// `q` and ends where the encoder was after them.
proof fn lemma_chunks_decode(
    d0: CoderView,
    first0: bool,
    m0: LzModel,
    r0: Seq<(Seq<u16>, Seq<u16>)>,
    buf: Seq<u8>,
    chunks: Seq<Seq<u8>>,
    q: int,
    mq: LzModel,
    rq: Seq<(Seq<u16>, Seq<u16>)>,
    fq: bool,
)
    requires
        chunks_encode(first0, m0, r0, buf, SBVEC_PREMATCH_LEN as int, q, chunks, mq, rq, fq),
        d0.m == m0,
        d0.first == first0,
        !first0 ==> d0.ranks == r0,
        d0.pos == SBVEC_PREMATCH_LEN,
        d0.block.len() == LZ_BLOCK_SIZE,
        forall|j: int| 0 <= j < SBVEC_PREMATCH_LEN ==> #[trigger] d0.block[j] == buf[j],
        SBVEC_PREMATCH_LEN <= buf.len() <= LZ_BLOCK_SIZE,
        q < LZ_BLOCK_SIZE,
    ensures
        SBVEC_PREMATCH_LEN <= q <= buf.len(),
        dec_steps(d0, chunks) matches Some((out, d1)) && {
            &&& out == buf.subrange(SBVEC_PREMATCH_LEN as int, q)
            &&& d1.m == mq
            &&& d1.first == fq
            &&& !fq ==> d1.ranks == rq
            &&& d1.pos == q
            &&& d1.block.len() == LZ_BLOCK_SIZE
            &&& forall|j: int| 0 <= j < q ==> #[trigger] d1.block[j] == buf[j]
        },
    decreases chunks.len(),
{
    if chunks.len() == 0 {
        assert(buf.subrange(SBVEC_PREMATCH_LEN as int, q) =~= Seq::<u8>::empty());
    } else {
        let (q1, m1, r1, f1) = choose|q1: int, m1: LzModel, r1: Seq<(Seq<u16>, Seq<u16>)>, f1: bool|
            #[trigger] last_chunk_encodes(f1, m1, r1, buf, q1, q, chunks, mq, rq) && chunks_encode(
                first0,
                m0,
                r0,
                buf,
                SBVEC_PREMATCH_LEN as int,
                q1,
                chunks.drop_last(),
                m1,
                r1,
                f1,
            ) && !fq;
        lemma_chunks_decode(d0, first0, m0, r0, buf, chunks.drop_last(), q1, m1, r1, f1);
        let (out1, d1) = dec_steps(d0, chunks.drop_last())->0;
        lemma_chunk_encodes_bounds(f1, m1, r1, buf, q1, q, mq, rq, chunks.last());
        lemma_dec_step_written(d1, f1, m1, r1, buf, q1, q, mq, rq, chunks.last());
        assert(out1 + buf.subrange(q1, q) =~= buf.subrange(SBVEC_PREMATCH_LEN as int, q));
    }
}

/// What a read gives back of a write, block by block: from an encoder and a
/// decoder in step, the chunks that the encoder writes for a block's new
/// bytes, fed to the decoder in turn, give back exactly those bytes; after
/// a full block (one of `BLOCK_INPUT_LEN` new bytes), the two are in step
/// again.
pub proof fn law_block_roundtrip(
    e0: CoderView,
    d0: CoderView,
    input: Seq<u8>,
    chunks: Seq<Seq<u8>>,
    m1: LzModel,
    r1: Seq<(Seq<u16>, Seq<u16>)>,
    f1: bool,
)
    requires
        in_step(e0, d0),
        input.len() <= BLOCK_INPUT_LEN,
        chunks_encode(
            e0.first,
            e0.m,
            e0.ranks,
            e0.block.take(SBVEC_PREMATCH_LEN as int) + input,
            SBVEC_PREMATCH_LEN as int,
            SBVEC_PREMATCH_LEN + input.len(),
            chunks,
            m1,
            r1,
            f1,
        ),
    ensures
        match dec_steps(d0, chunks) {
            Some((out, d1)) => {
                &&& out == input
                &&& input.len() == BLOCK_INPUT_LEN ==> in_step(
                    CoderView {
                        m: model_forward(m1, carry_len()),
                        ranks: r1,
                        first: f1,
                        block: carried(written_block(e0.block, input)),
                        pos: SBVEC_PREMATCH_LEN as int,
                    },
                    d1,
                )
            },
            None => false,
        },
{
    let p = SBVEC_PREMATCH_LEN as int;
    let buf = e0.block.take(p) + input;
    let end = p + input.len();
    assert forall|j: int| 0 <= j < SBVEC_PREMATCH_LEN implies #[trigger] d0.block[j] == buf[j] by {
        assert(e0.block[j] == d0.block[j]);
    }
    assert(buf.subrange(p, end) =~= input);
    if end < LZ_BLOCK_SIZE {
        lemma_chunks_decode(d0, e0.first, e0.m, e0.ranks, buf, chunks, end, m1, r1, f1);
    } else {
        assert(chunks.len() > 0);
        let (q1, mq, rq, fq) = choose|q1: int, mq: LzModel, rq: Seq<(Seq<u16>, Seq<u16>)>, fq: bool|
            #[trigger] last_chunk_encodes(fq, mq, rq, buf, q1, end, chunks, m1, r1) && chunks_encode(
                e0.first,
                e0.m,
                e0.ranks,
                buf,
                p,
                q1,
                chunks.drop_last(),
                mq,
                rq,
                fq,
            ) && !f1;
        lemma_chunks_decode(d0, e0.first, e0.m, e0.ranks, buf, chunks.drop_last(), q1, mq, rq, fq);
        let (out1, d1) = dec_steps(d0, chunks.drop_last())->0;
        lemma_chunk_encodes_bounds(fq, mq, rq, buf, q1, end, m1, r1, chunks.last());
        lemma_dec_step_written(d1, fq, mq, rq, buf, q1, end, m1, r1, chunks.last());
        assert(out1 + buf.subrange(q1, end) =~= buf.subrange(p, end));
        let (out2, d2) = dec_step(d1, chunks.last())->0;
        let e1 = CoderView {
            m: model_forward(m1, carry_len()),
            ranks: r1,
            first: f1,
            block: carried(written_block(e0.block, input)),
            pos: p,
        };
        assert forall|j: int| 0 <= j < SBVEC_PREMATCH_LEN implies #[trigger] e1.block[j] == d2.block[j] by {
            assert(d2.block[j] == buf[j + carry_len()]);
        }
        assert(in_step(e1, d2));
    }
}

/// A new encoder and a new decoder are in step: both start from the initial
/// context, with the first block to come and a block of zeros.
pub proof fn law_fresh_coders_in_step(r1: Seq<(Seq<u16>, Seq<u16>)>, r2: Seq<(Seq<u16>, Seq<u16>)>)
    ensures
        in_step(
            CoderView {
                m: initial_model(),
                ranks: r1,
                first: true,
                block: Seq::new(LZ_BLOCK_SIZE as nat, |j: int| 0u8),
                pos: SBVEC_PREMATCH_LEN as int,
            },
            CoderView {
                m: initial_model(),
                ranks: r2,
                first: true,
                block: Seq::new(LZ_BLOCK_SIZE as nat, |j: int| 0u8),
                pos: SBVEC_PREMATCH_LEN as int,
            },
        ),
{
}

} // verus!
