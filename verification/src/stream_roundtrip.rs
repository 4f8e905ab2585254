//! A whole stream read back: the blocks of an input, each written as
//! chunks framed by their lengths and the stream closed by a zero length,
//! decode to the input.
use vstd::prelude::*;
use crate::ioutil::{is_len_encoding, parse_len, law_len_roundtrip};
use crate::lz_format::lemma_chunk_nonempty;
use crate::lz_model::{LzModel, model_forward, initial_model};
use crate::stream::{LZ_BLOCK_SIZE, SBVEC_PREMATCH_LEN, BLOCK_INPUT_LEN};
use crate::stream_model::{CoderView, carried, carry_len, written_block, chunks_encode, last_chunk_encodes, framed,
    frame_split, dec_steps, in_step, law_block_roundtrip, law_fresh_coders_in_step};

verus! {

/// The chunks framed at the start of `s`, each after its length, up to a
/// zero length: `None` where a length cannot be read or a chunk runs past
/// the end of `s`.
pub open spec fn read_frames(s: Seq<u8>) -> Option<Seq<Seq<u8>>>
    decreases s.len(),
{
    match parse_len(s) {
        None => None,
        Some((n, k)) => if n == 0 {
            Some(Seq::empty())
        } else if k + n <= s.len() && k >= 1 {
            match read_frames(s.skip(k + n)) {
                None => None,
                Some(rest) => Some(seq![s.subrange(k, k + n)] + rest),
            }
        } else {
            None
        },
    }
}

/// The encoder's state after a block of `input` written from `e`, leaving
/// the context `m1`, the rankings `r1` and the first-block flag `f1`.
pub open spec fn next_state(e: CoderView, input: Seq<u8>, m1: LzModel, r1: Seq<(Seq<u16>, Seq<u16>)>, f1: bool) -> CoderView {
    CoderView {
        m: model_forward(m1, carry_len()),
        ranks: r1,
        first: f1,
        block: carried(written_block(e.block, input)),
        pos: SBVEC_PREMATCH_LEN as int,
    }
}

/// `blocks` are the chunks the encoder writes, block after block, for the
/// inputs `ins`, starting in state `e` (what `StreamEncoder::encode_block`
/// states of each call).
pub open spec fn blocks_encode(e: CoderView, ins: Seq<Seq<u8>>, blocks: Seq<Seq<Seq<u8>>>) -> bool
    decreases ins.len(),
{
    &&& ins.len() == blocks.len()
    &&& ins.len() > 0 ==> exists|m1: LzModel, r1: Seq<(Seq<u16>, Seq<u16>)>, f1: bool|
        #[trigger] chunks_encode(
            e.first,
            e.m,
            e.ranks,
            e.block.take(SBVEC_PREMATCH_LEN as int) + ins[0],
            SBVEC_PREMATCH_LEN as int,
            SBVEC_PREMATCH_LEN + ins[0].len(),
            blocks[0],
            m1,
            r1,
            f1,
        ) && blocks_encode(next_state(e, ins[0], m1, r1, f1), ins.drop_first(), blocks.drop_first())
}

/// Inputs split as the stream splits them: every block full but the last.
pub open spec fn block_sizes(ins: Seq<Seq<u8>>) -> bool {
    &&& forall|i: int| 0 <= i < ins.len() ==> (#[trigger] ins[i]).len() <= BLOCK_INPUT_LEN
    &&& forall|i: int| 0 <= i < ins.len() - 1 ==> (#[trigger] ins[i]).len() == BLOCK_INPUT_LEN
}

/// Decoding chunks in two runs is decoding them in one.
pub proof fn lemma_dec_steps_append(d: CoderView, a: Seq<Seq<u8>>, b: Seq<Seq<u8>>)
    ensures
        dec_steps(d, a + b) == match dec_steps(d, a) {
            None => None,
            Some((o1, d1)) => match dec_steps(d1, b) {
                None => None,
                Some((o2, d2)) => Some((o1 + o2, d2)),
            },
        },
    decreases b.len(),
{
    if b.len() == 0 {
        assert(a + b =~= a);
        match dec_steps(d, a) {
            None => {},
            Some((o1, d1)) => {
                assert(o1 + Seq::<u8>::empty() =~= o1);
            },
        }
    } else {
        lemma_dec_steps_append(d, a, b.drop_last());
        assert((a + b).drop_last() =~= a + b.drop_last());
        assert((a + b).last() == b.last());
        match dec_steps(d, a) {
            None => {},
            Some((o1, d1)) => {
                match dec_steps(d1, b.drop_last()) {
                    None => {},
                    Some((o2, d2)) => {
                        match crate::stream_model::dec_step(d2, b.last()) {
                            None => {},
                            Some((o3, d3)) => {
                                assert(o1 + o2 + o3 =~= o1 + (o2 + o3));
                            },
                        }
                    },
                }
            },
        }
    }
}

/// The chunks a block is written as are none of them empty.
proof fn lemma_chunks_nonempty(
    first: bool,
    m: LzModel,
    ranks: Seq<(Seq<u16>, Seq<u16>)>,
    buf: Seq<u8>,
    p: int,
    end: int,
    chunks: Seq<Seq<u8>>,
    m1: LzModel,
    r1: Seq<(Seq<u16>, Seq<u16>)>,
    f1: bool,
)
    requires
        chunks_encode(first, m, ranks, buf, p, end, chunks, m1, r1, f1),
    ensures
        forall|j: int| 0 <= j < chunks.len() ==> (#[trigger] chunks[j]).len() > 0,
    decreases chunks.len(),
{
    if chunks.len() > 0 {
        let (q, mq, rq, fq) = choose|q: int, mq: LzModel, rq: Seq<(Seq<u16>, Seq<u16>)>, fq: bool|
            #[trigger] last_chunk_encodes(fq, mq, rq, buf, q, end, chunks, m1, r1) && chunks_encode(
                first,
                m,
                ranks,
                buf,
                p,
                q,
                chunks.drop_last(),
                mq,
                rq,
                fq,
            );
        lemma_chunk_nonempty(fq, mq, rq, buf, q, end, m1, r1, chunks.last());
        lemma_chunks_nonempty(first, m, ranks, buf, p, q, chunks.drop_last(), mq, rq, fq);
        assert forall|j: int| 0 <= j < chunks.len() implies (#[trigger] chunks[j]).len() > 0 by {
            if j < chunks.len() - 1 {
                assert(chunks[j] == chunks.drop_last()[j]);
            }
        }
    }
}

/// Framed chunks, none of them empty, are read back as those chunks, then
/// whatever follows them.
pub proof fn lemma_read_framed(out: Seq<u8>, chunks: Seq<Seq<u8>>, rest: Seq<u8>)
    requires
        framed(out, chunks),
        forall|j: int| 0 <= j < chunks.len() ==> (#[trigger] chunks[j]).len() > 0,
    ensures
        read_frames(out + rest) == match read_frames(rest) {
            None => None,
            Some(cs) => Some(chunks + cs),
        },
    decreases chunks.len(),
{
    if chunks.len() == 0 {
        assert(out + rest =~= rest);
        match read_frames(rest) {
            None => {},
            Some(cs) => {
                assert(chunks + cs =~= cs);
            },
        }
    } else {
        let (k, enc) = choose|k: int, enc: Seq<u8>| #[trigger] frame_split(out, chunks, k, enc) && framed(
            out.take(k),
            chunks.drop_last(),
        );
        let c = chunks.last();
        let tail = enc + c + rest;
        assert forall|j: int| 0 <= j < chunks.drop_last().len() implies (#[trigger] chunks.drop_last()[j]).len() > 0 by {
            assert(chunks.drop_last()[j] == chunks[j]);
        }
        lemma_read_framed(out.take(k), chunks.drop_last(), tail);
        assert(out + rest =~= out.take(k) + tail);
        // the last frame
        law_len_roundtrip(c.len() as nat, enc, c + rest);
        assert(enc + (c + rest) =~= tail);
        let kk = enc.len() as int;
        assert(c.len() > 0);
        assert(tail.subrange(kk, kk + c.len()) =~= c);
        assert(tail.skip(kk + c.len()) =~= rest);
        match read_frames(rest) {
            None => {},
            Some(cs) => {
                assert(read_frames(tail) == Some(seq![c] + cs));
                assert(chunks.drop_last() + (seq![c] + cs) =~= chunks + cs);
            },
        }
    }
}

/// Blocks written from a state in step with the decoder's, every block
/// full but the last, decode (all their chunks in turn) to the inputs.
pub proof fn lemma_blocks_roundtrip(e: CoderView, d: CoderView, ins: Seq<Seq<u8>>, blocks: Seq<Seq<Seq<u8>>>)
    requires
        in_step(e, d),
        block_sizes(ins),
        blocks_encode(e, ins, blocks),
    ensures
        match dec_steps(d, blocks.flatten()) {
            Some((out, d1)) => out == ins.flatten(),
            None => false,
        },
        forall|i: int, j: int| 0 <= i < blocks.len() && 0 <= j < blocks[i].len() ==> (#[trigger] blocks[i][j]).len() > 0,
    decreases ins.len(),
{
    if ins.len() == 0 {
        assert(blocks.len() == 0);
        assert(blocks.flatten() =~= Seq::<Seq<u8>>::empty());
        assert(ins.flatten() =~= Seq::<u8>::empty());
    } else {
        let (m1, r1, f1) = choose|m1: LzModel, r1: Seq<(Seq<u16>, Seq<u16>)>, f1: bool|
            #[trigger] chunks_encode(
                e.first,
                e.m,
                e.ranks,
                e.block.take(SBVEC_PREMATCH_LEN as int) + ins[0],
                SBVEC_PREMATCH_LEN as int,
                SBVEC_PREMATCH_LEN + ins[0].len(),
                blocks[0],
                m1,
                r1,
                f1,
            ) && blocks_encode(next_state(e, ins[0], m1, r1, f1), ins.drop_first(), blocks.drop_first());
        let e1 = next_state(e, ins[0], m1, r1, f1);
        law_block_roundtrip(e, d, ins[0], blocks[0], m1, r1, f1);
        lemma_chunks_nonempty(
            e.first,
            e.m,
            e.ranks,
            e.block.take(SBVEC_PREMATCH_LEN as int) + ins[0],
            SBVEC_PREMATCH_LEN as int,
            SBVEC_PREMATCH_LEN + ins[0].len(),
            blocks[0],
            m1,
            r1,
            f1,
        );
        let (o0, d1) = dec_steps(d, blocks[0]).unwrap();
        let rest_ins = ins.drop_first();
        let rest_blocks = blocks.drop_first();
        assert(blocks.flatten() == blocks[0] + rest_blocks.flatten());
        assert(ins.flatten() == ins[0] + rest_ins.flatten());
        lemma_dec_steps_append(d, blocks[0], rest_blocks.flatten());
        if rest_ins.len() == 0 {
            assert(rest_blocks.flatten() =~= Seq::<Seq<u8>>::empty());
            assert(rest_ins.flatten() =~= Seq::<u8>::empty());
            assert(o0 + Seq::<u8>::empty() =~= o0);
        } else {
            assert(ins[0].len() == BLOCK_INPUT_LEN);
            assert(in_step(e1, d1));
            assert forall|i: int| 0 <= i < rest_ins.len() implies (#[trigger] rest_ins[i]).len() <= BLOCK_INPUT_LEN by {
                assert(rest_ins[i] == ins[i + 1]);
            }
            assert forall|i: int| 0 <= i < rest_ins.len() - 1 implies (#[trigger] rest_ins[i]).len() == BLOCK_INPUT_LEN by {
                assert(rest_ins[i] == ins[i + 1]);
            }
            lemma_blocks_roundtrip(e1, d1, rest_ins, rest_blocks);
        }
        assert forall|i: int, j: int| 0 <= i < blocks.len() && 0 <= j < blocks[i].len() implies (#[trigger] blocks[i][j]).len()
            > 0 by {
            if i > 0 {
                assert(blocks[i] == rest_blocks[i - 1]);
            }
        }
    }
}

/// Frames, block after block, of the chunks `blocks`.
pub open spec fn frames_of(outs: Seq<Seq<u8>>, blocks: Seq<Seq<Seq<u8>>>) -> bool {
    &&& outs.len() == blocks.len()
    &&& forall|i: int| 0 <= i < outs.len() ==> framed(#[trigger] outs[i], blocks[i])
}

/// Framed blocks of chunks, none empty, are read back as all the chunks.
proof fn lemma_read_blocks(outs: Seq<Seq<u8>>, blocks: Seq<Seq<Seq<u8>>>, rest: Seq<u8>)
    requires
        frames_of(outs, blocks),
        forall|i: int, j: int| 0 <= i < blocks.len() && 0 <= j < blocks[i].len() ==> (#[trigger] blocks[i][j]).len() > 0,
    ensures
        read_frames(outs.flatten() + rest) == match read_frames(rest) {
            None => None,
            Some(cs) => Some(blocks.flatten() + cs),
        },
    decreases outs.len(),
{
    if outs.len() == 0 {
        assert(outs.flatten() + rest =~= rest);
        assert(blocks.flatten() =~= Seq::<Seq<u8>>::empty());
        match read_frames(rest) {
            None => {},
            Some(cs) => {
                assert(blocks.flatten() + cs =~= cs);
            },
        }
    } else {
        let ro = outs.drop_first();
        let rb = blocks.drop_first();
        assert forall|i: int| 0 <= i < ro.len() implies framed(#[trigger] ro[i], rb[i]) by {
            assert(ro[i] == outs[i + 1] && rb[i] == blocks[i + 1]);
        }
        assert forall|i: int, j: int| 0 <= i < rb.len() && 0 <= j < rb[i].len() implies (#[trigger] rb[i][j]).len() > 0 by {
            assert(rb[i] == blocks[i + 1]);
        }
        lemma_read_blocks(ro, rb, rest);
        assert(framed(outs[0], blocks[0]));
        assert forall|j: int| 0 <= j < blocks[0].len() implies (#[trigger] blocks[0][j]).len() > 0 by {}
        lemma_read_framed(outs[0], blocks[0], ro.flatten() + rest);
        assert(outs.flatten() == outs[0] + ro.flatten());
        assert(outs.flatten() + rest =~= outs[0] + (ro.flatten() + rest));
        assert(blocks.flatten() == blocks[0] + rb.flatten());
        match read_frames(rest) {
            None => {},
            Some(cs) => {
                assert(blocks[0] + (rb.flatten() + cs) =~= blocks.flatten() + cs);
            },
        }
    }
}

/// What the library is for: a whole stream decodes to its input. A fresh
/// encoder writes the inputs `ins` (every block full but the last) block
/// after block as the chunks `blocks`, framed by their lengths as `outs`;
/// after the framed blocks comes the zero length `z` that ends the stream.
/// Reading the frames of those bytes gives back all the chunks, and a fresh
/// decoder decodes them, in turn, to all the inputs.
pub proof fn law_stream_roundtrip(
    r1: Seq<(Seq<u16>, Seq<u16>)>,
    r2: Seq<(Seq<u16>, Seq<u16>)>,
    ins: Seq<Seq<u8>>,
    blocks: Seq<Seq<Seq<u8>>>,
    outs: Seq<Seq<u8>>,
    z: Seq<u8>,
)
    requires
        block_sizes(ins),
        blocks_encode(
            CoderView {
                m: initial_model(),
                ranks: r1,
                first: true,
                block: Seq::new(LZ_BLOCK_SIZE as nat, |j: int| 0u8),
                pos: SBVEC_PREMATCH_LEN as int,
            },
            ins,
            blocks,
        ),
        frames_of(outs, blocks),
        is_len_encoding(z, 0),
    ensures
        read_frames(outs.flatten() + z) == Some(blocks.flatten()),
        match dec_steps(
            CoderView {
                m: initial_model(),
                ranks: r2,
                first: true,
                block: Seq::new(LZ_BLOCK_SIZE as nat, |j: int| 0u8),
                pos: SBVEC_PREMATCH_LEN as int,
            },
            blocks.flatten(),
        ) {
            Some((out, d1)) => out == ins.flatten(),
            None => false,
        },
{
    let e = CoderView {
        m: initial_model(),
        ranks: r1,
        first: true,
        block: Seq::new(LZ_BLOCK_SIZE as nat, |j: int| 0u8),
        pos: SBVEC_PREMATCH_LEN as int,
    };
    let d = CoderView {
        m: initial_model(),
        ranks: r2,
        first: true,
        block: Seq::new(LZ_BLOCK_SIZE as nat, |j: int| 0u8),
        pos: SBVEC_PREMATCH_LEN as int,
    };
    law_fresh_coders_in_step(r1, r2);
    lemma_blocks_roundtrip(e, d, ins, blocks);
    law_len_roundtrip(0, z, Seq::empty());
    assert(z + Seq::<u8>::empty() =~= z);
    assert(read_frames(z) == Some(Seq::<Seq<u8>>::empty()));
    lemma_read_blocks(outs, blocks, z);
    assert(blocks.flatten() + Seq::<Seq<u8>>::empty() =~= blocks.flatten());
}

} // verus!
