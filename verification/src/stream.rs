//! Streams as sequences of blocks: each block is encoded as chunks framed
//! by their lengths, after the last half of the block before it, which
//! matches may refer back into; an empty chunk ends the stream.
use vstd::prelude::*;
use crate::ioutil::{encode_len, is_len_encoding};
use crate::lz::{LZCfg, LZEncoder, LZDecoder, LZError, positions_below, lemma_positions_forward, lemma_initial_positions};
use crate::lz_model::{initial_model, model_forward};
use crate::stream_model::{CoderView, carried, carry_len, dec_step, chunks_encode, chunks_parsed, framed, written_block,
    lemma_chunks_encode_push, lemma_chunks_parsed_push, lemma_framed_push};
use crate::lz_format::{decode_chunk, lemma_decode_chunk_pos, lemma_chunk_of_items};
use crate::lz_parse::{ParseState, parse_run, matchers_model, mats_forward, empty_chains};

verus! {

/// The bytes a block holds, the half carried over from the block before included.
pub const LZ_BLOCK_SIZE: usize = 33554431;

/// The part of a block carried over from the block before.
pub const SBVEC_PREMATCH_LEN: usize = 16777215;

/// How many new input bytes one block takes.
pub const BLOCK_INPUT_LEN: usize = 16777216;

/// The longest chunk a decoder accepts is one byte shorter than this.
pub const TBVEC_LEN: usize = 50331645;

/// The matching options of a compression level: `None` for a level above 2.
pub fn level_cfg(level: u8) -> (r: Option<LZCfg>)
    ensures
        level == 0 ==> (r matches Some(c) && c.match_depth == 5 && c.lazy_match_depth1 == 3 && c.lazy_match_depth2 == 2),
        level == 1 ==> (r matches Some(c) && c.match_depth == 15 && c.lazy_match_depth1 == 9 && c.lazy_match_depth2 == 6),
        level == 2 ==> (r matches Some(c) && c.match_depth == 45 && c.lazy_match_depth1 == 27 && c.lazy_match_depth2 == 18),
        level > 2 ==> r is None,
{
    match level {
        0 => Some(LZCfg::new(5, 3, 2)),
        1 => Some(LZCfg::new(15, 9, 6)),
        2 => Some(LZCfg::new(45, 27, 18)),
        _ => None,
    }
}

/// Copies the last `SBVEC_PREMATCH_LEN` bytes of the block to its start.
fn carry_over(sbvec: &mut Vec<u8>)
    requires
        old(sbvec).len() == LZ_BLOCK_SIZE,
    ensures
        final(sbvec).len() == LZ_BLOCK_SIZE,
        forall|j: int| 0 <= j < SBVEC_PREMATCH_LEN ==> #[trigger] final(sbvec)@[j] == old(sbvec)@[j + LZ_BLOCK_SIZE
            - SBVEC_PREMATCH_LEN],
        forall|j: int| SBVEC_PREMATCH_LEN <= j < LZ_BLOCK_SIZE ==> #[trigger] final(sbvec)@[j] == old(sbvec)@[j],
        final(sbvec)@ == carried(old(sbvec)@),
{
    let from = LZ_BLOCK_SIZE - SBVEC_PREMATCH_LEN;
    for j in 0..SBVEC_PREMATCH_LEN
        invariant
            sbvec.len() == LZ_BLOCK_SIZE,
            from == LZ_BLOCK_SIZE - SBVEC_PREMATCH_LEN,
            forall|k: int| 0 <= k < j ==> #[trigger] sbvec@[k] == old(sbvec)@[k + from],
            forall|k: int| j <= k < LZ_BLOCK_SIZE ==> #[trigger] sbvec@[k] == old(sbvec)@[k],
    {
        let b = sbvec[from + j];
        sbvec.set(j, b);
    }
    assert(sbvec@ =~= carried(old(sbvec)@));
}

/// A block of zeros.
fn zero_block() -> (r: Vec<u8>)
    ensures
        r@ == Seq::new(LZ_BLOCK_SIZE as nat, |j: int| 0u8),
{
    let mut r: Vec<u8> = Vec::new();
    for j in 0..LZ_BLOCK_SIZE
        invariant
            r.len() == j,
            forall|k: int| 0 <= k < j ==> #[trigger] r@[k] == 0,
    {
        r.push(0);
    }
    assert(r@ =~= Seq::new(LZ_BLOCK_SIZE as nat, |j: int| 0u8));
    r
}

/// Appends a chunk with its length in front.
fn push_chunk(out: &mut Vec<u8>, chunk: Vec<u8>)
    ensures
        exists|enc: Seq<u8>| is_len_encoding(enc, chunk.len() as nat) && final(out)@ == old(out)@ + enc + chunk@,
{
    let mut len_bytes = encode_len(chunk.len());
    let ghost enc = len_bytes@;
    let mut chunk = chunk;
    let ghost c = chunk@;
    out.append(&mut len_bytes);
    out.append(&mut chunk);
    assert(out@ == old(out)@ + enc + c);
}

/// Encodes a stream block by block.
pub struct StreamEncoder {
    lzenc: LZEncoder,
    sbvec: Vec<u8>,
}

impl StreamEncoder {
    /// The context, rankings, first-block flag and block; a block starts
    /// after its carried-over half.
    pub closed spec fn state(&self) -> CoderView {
        CoderView {
            m: self.lzenc.ctx.model(),
            ranks: self.lzenc.ctx.ranks(),
            first: self.lzenc.ctx.first_block,
            block: self.sbvec@,
            pos: SBVEC_PREMATCH_LEN as int,
        }
    }

    /// The matchers' chains (heads and next links of each bucket).
    pub closed spec fn chains(&self) -> Seq<(Seq<i16>, Seq<i16>)> {
        matchers_model(self.lzenc.bucket_matchers@)
    }

    /// Every position recorded in the context comes before the new bytes.
    pub closed spec fn wf(&self) -> bool {
        &&& self.lzenc.wf()
        &&& self.sbvec.len() == LZ_BLOCK_SIZE
        &&& positions_below(self.lzenc.ctx.model(), SBVEC_PREMATCH_LEN as int)
    }

    /// The initial context, the first block to come, and a block of zeros.
    pub fn new() -> (r: Self)
        ensures
            r.wf(),
            r.state() == (CoderView {
                m: initial_model(),
                ranks: r.state().ranks,
                first: true,
                block: Seq::new(LZ_BLOCK_SIZE as nat, |j: int| 0u8),
                pos: SBVEC_PREMATCH_LEN as int,
            }),
            r.chains() == empty_chains(),
    {
        let r = StreamEncoder { lzenc: LZEncoder::new(), sbvec: zero_block() };
        proof {
            lemma_initial_positions();
        }
        r
    }

    /// Encodes the next `input` bytes (at most `BLOCK_INPUT_LEN`) as a block,
    /// after the carried-over half of the block before, returning its chunks,
    /// each after its length; then carries the last half of the block over
    /// and moves the positions back (cutting the chain links to positions
    /// that reach zero). The chunks are, in turn, chunks of the block's new
    /// bytes: those of the successive parses with the depths of `cfg`.
    #[verifier::rlimit(50)]
    pub fn encode_block(&mut self, cfg: &LZCfg, input: &[u8]) -> (r: Vec<u8>)
        requires
            old(self).wf(),
            input.len() <= BLOCK_INPUT_LEN,
        ensures
            final(self).wf(),
            exists|chunks: Seq<Seq<u8>>, m1: crate::lz_model::LzModel, r1: Seq<(Seq<u16>, Seq<u16>)>, f1: bool, ps1: ParseState|
                {
                    &&& chunks_parsed(
                        old(self).state().first,
                        ParseState { m: old(self).state().m, mats: old(self).chains(), pos: SBVEC_PREMATCH_LEN as int },
                        old(self).state().ranks,
                        old(self).state().block.take(SBVEC_PREMATCH_LEN as int) + input@,
                        cfg.depths(),
                        chunks,
                        ps1,
                        r1,
                        f1,
                    )
                    &&& ps1.m == m1
                    &&& ps1.pos == SBVEC_PREMATCH_LEN + input.len()
                    &&& final(self).chains() == mats_forward(ps1.mats, final(self).state().m)
                    &&& chunks_encode(
                        old(self).state().first,
                        old(self).state().m,
                        old(self).state().ranks,
                        old(self).state().block.take(SBVEC_PREMATCH_LEN as int) + input@,
                        SBVEC_PREMATCH_LEN as int,
                        SBVEC_PREMATCH_LEN + input.len(),
                        chunks,
                        m1,
                        r1,
                        f1,
                    )
                    &&& framed(r@, chunks)
                    &&& final(self).state() == (CoderView {
                        m: model_forward(m1, carry_len()),
                        ranks: r1,
                        first: f1,
                        block: carried(written_block(old(self).state().block, input@)),
                        pos: SBVEC_PREMATCH_LEN as int,
                    })
                },
    {
        let ghost s0 = self.state();
        let ghost ps0 = ParseState { m: s0.m, mats: self.chains(), pos: SBVEC_PREMATCH_LEN as int };
        let n = input.len();
        for j in 0..n
            invariant
                self.wf(),
                self.state().m == s0.m,
                self.state().ranks == s0.ranks,
                self.state().first == s0.first,
                self.chains() == ps0.mats,
                n == input.len(),
                n <= BLOCK_INPUT_LEN,
                forall|k: int| 0 <= k < j ==> #[trigger] self.sbvec@[SBVEC_PREMATCH_LEN + k] == input@[k],
                forall|k: int| 0 <= k < LZ_BLOCK_SIZE && !(SBVEC_PREMATCH_LEN <= k < SBVEC_PREMATCH_LEN + j) ==> #[trigger] self.sbvec@[k]
                    == s0.block[k],
        {
            self.sbvec.set(SBVEC_PREMATCH_LEN + j, input[j]);
        }
        let end = SBVEC_PREMATCH_LEN + n;
        let ghost blk = written_block(s0.block, input@);
        let ghost buf = s0.block.take(SBVEC_PREMATCH_LEN as int) + input@;
        proof {
            assert forall|k: int| 0 <= k < LZ_BLOCK_SIZE implies #[trigger] self.sbvec@[k] == blk[k] by {
                if SBVEC_PREMATCH_LEN <= k < end {
                    let i = k - SBVEC_PREMATCH_LEN;
                    assert(self.sbvec@[SBVEC_PREMATCH_LEN + i] == input@[i]);
                }
            }
            assert(self.sbvec@ =~= blk);
            assert(blk.take(end as int) =~= buf);
        }
        let mut spos = SBVEC_PREMATCH_LEN;
        let mut out: Vec<u8> = Vec::new();
        let ghost mut chunks: Seq<Seq<u8>> = Seq::empty();
        while spos < end
            invariant
                self.lzenc.wf(),
                self.sbvec@ == blk,
                self.sbvec.len() == LZ_BLOCK_SIZE,
                end == SBVEC_PREMATCH_LEN + n,
                end <= LZ_BLOCK_SIZE,
                blk.take(end as int) == buf,
                SBVEC_PREMATCH_LEN <= spos <= end,
                positions_below(self.lzenc.ctx.model(), spos as int),
                chunks_encode(
                    s0.first,
                    s0.m,
                    s0.ranks,
                    buf,
                    SBVEC_PREMATCH_LEN as int,
                    spos as int,
                    chunks,
                    self.lzenc.ctx.model(),
                    self.lzenc.ctx.ranks(),
                    self.lzenc.ctx.first_block,
                ),
                framed(out@, chunks),
                chunks_parsed(
                    s0.first,
                    ps0,
                    s0.ranks,
                    buf,
                    cfg.depths(),
                    chunks,
                    self.lzenc.parse_state(spos as int),
                    self.lzenc.ctx.ranks(),
                    self.lzenc.ctx.first_block,
                ),
            decreases end - spos,
        {
            let sbuf = vstd::slice::slice_subrange(self.sbvec.as_slice(), 0, end);
            let ghost m = self.lzenc.ctx.model();
            let ghost rk = self.lzenc.ctx.ranks();
            let ghost fk = self.lzenc.ctx.first_block;
            let ghost chunks0 = chunks;
            let ghost out0 = out@;
            proof {
                assert(sbuf@ =~= buf);
            }
            let ghost ps = self.lzenc.parse_state(spos as int);
            let (s, t) = self.lzenc.encode(cfg, sbuf, spos);
            let ghost tc = t@;
            proof {
                let its = parse_run(ps, buf, cfg.depths(), crate::lz::LZ_CHUNK_SIZE as nat).0;
                lemma_chunk_of_items(fk, m, rk, buf, spos as int, s as int, self.lzenc.ctx.model(), self.lzenc.ctx.ranks(), tc, its);
                lemma_chunks_parsed_push(s0.first, ps0, s0.ranks, buf, cfg.depths(), chunks, ps, rk, fk,
                    self.lzenc.parse_state(s as int), self.lzenc.ctx.ranks(), tc);
            }
            push_chunk(&mut out, t);
            proof {
                lemma_chunks_encode_push(s0.first, s0.m, s0.ranks, buf, SBVEC_PREMATCH_LEN as int, spos as int, chunks0,
                    m, rk, fk, s as int, self.lzenc.ctx.model(), self.lzenc.ctx.ranks(), tc);
                let enc = choose|enc: Seq<u8>| is_len_encoding(enc, tc.len() as nat) && out@ == out0 + enc + tc;
                lemma_framed_push(out0, chunks0, enc, tc);
                chunks = chunks0.push(tc);
            }
            spos = s;
        }
        carry_over(&mut self.sbvec);
        let ghost ps1 = self.lzenc.parse_state(end as int);
        let ghost m1 = self.lzenc.ctx.model();
        let ghost r1 = self.lzenc.ctx.ranks();
        let ghost f1 = self.lzenc.ctx.first_block;
        proof {
            assert forall|b: int| 0 <= b < 256 implies (#[trigger] m1.buckets[b]).pos.len() == crate::LZ_MF_BUCKET_ITEM_SIZE by {
                assert(self.lzenc.ctx.buckets@[b].wf());
            }
            lemma_positions_forward(m1, end as int, carry_len(), SBVEC_PREMATCH_LEN as int);
        }
        self.lzenc.forward(LZ_BLOCK_SIZE - SBVEC_PREMATCH_LEN);
        proof {
            assert(spos == end);
            let st = CoderView {
                m: model_forward(m1, carry_len()),
                ranks: r1,
                first: f1,
                block: carried(written_block(s0.block, input@)),
                pos: SBVEC_PREMATCH_LEN as int,
            };
            assert(self.state() == st);
            assert(chunks_encode(s0.first, s0.m, s0.ranks, buf, SBVEC_PREMATCH_LEN as int, end as int, chunks, m1, r1, f1));
            assert(framed(out@, chunks));
            assert(chunks_parsed(s0.first, ps0, s0.ranks, buf, cfg.depths(), chunks, ps1, r1, f1));
            assert(self.chains() == mats_forward(ps1.mats, self.state().m));
        }
        out
    }

    /// The empty chunk that ends a stream.
    pub fn finish(&self) -> (r: Vec<u8>)
        ensures
            is_len_encoding(r@, 0),
    {
        encode_len(0)
    }
}

/// Decodes a stream chunk by chunk.
pub struct StreamDecoder {
    lzdec: LZDecoder,
    sbvec: Vec<u8>,
    spos: usize,
}

impl StreamDecoder {
    /// The context, rankings, first-block flag, block and position.
    pub closed spec fn state(&self) -> CoderView {
        CoderView {
            m: self.lzdec.ctx.model(),
            ranks: self.lzdec.ctx.ranks(),
            first: self.lzdec.ctx.first_block,
            block: self.sbvec@,
            pos: self.spos as int,
        }
    }

    pub closed spec fn wf(&self) -> bool {
        &&& self.lzdec.wf()
        &&& self.sbvec.len() == LZ_BLOCK_SIZE
        &&& SBVEC_PREMATCH_LEN <= self.spos <= LZ_BLOCK_SIZE
    }

    /// The initial context, the first block to come, a block of zeros, and
    /// the position after its carried-over half.
    pub fn new() -> (r: Self)
        ensures
            r.wf(),
            r.state() == (CoderView {
                m: initial_model(),
                ranks: r.state().ranks,
                first: true,
                block: Seq::new(LZ_BLOCK_SIZE as nat, |j: int| 0u8),
                pos: SBVEC_PREMATCH_LEN as int,
            }),
    {
        StreamDecoder { lzdec: LZDecoder::new(), sbvec: zero_block(), spos: SBVEC_PREMATCH_LEN }
    }

    /// Whether a chunk of `len` bytes may be read: it must be shorter than
    /// `TBVEC_LEN`.
    pub fn chunk_len_ok(len: usize) -> (r: bool)
        ensures
            r == (len < TBVEC_LEN),
    {
        len < TBVEC_LEN
    }

    /// Decodes one chunk and returns the bytes it adds; once the block is
    /// full, carries its last half over. A chunk of `TBVEC_LEN` bytes or
    /// more, one that does not decode, or one that would move back is
    /// `InvalidData`.
    pub fn decode_chunk(&mut self, chunk: &[u8]) -> (r: Result<Vec<u8>, LZError>)
        requires
            old(self).wf(),
        ensures
            final(self).wf(),
            chunk.len() >= TBVEC_LEN ==> r is Err,
            match dec_step(old(self).state(), chunk@) {
                None => r is Err,
                Some((bytes, st)) => r matches Ok(v) && v@ == bytes && final(self).state() == st,
            },
    {
        proof {
            reveal(dec_step);
        }
        if chunk.len() >= TBVEC_LEN {
            return Err(LZError::InvalidData);
        }
        let spos = self.spos;
        proof {
            let d = self.state();
            lemma_decode_chunk_pos(d.first, d.m, d.ranks, d.block, d.pos, chunk@, d.block.len() as int);
        }
        let spos_end = match self.lzdec.decode(chunk, &mut self.sbvec, spos) {
            Ok(e) => e,
            Err(e) => return Err(e),
        };
        if spos_end < spos {
            return Err(LZError::InvalidData);
        }
        let mut out: Vec<u8> = Vec::new();
        for j in spos..spos_end
            invariant
                self.wf(),
                spos_end <= self.sbvec.len(),
                out@ == self.sbvec@.subrange(spos as int, j as int),
        {
            out.push(self.sbvec[j]);
            proof {
                assert(out@ =~= self.sbvec@.subrange(spos as int, j + 1));
            }
        }
        self.spos = spos_end;
        if self.spos >= LZ_BLOCK_SIZE {
            carry_over(&mut self.sbvec);
            self.lzdec.forward(LZ_BLOCK_SIZE - SBVEC_PREMATCH_LEN);
            self.spos = SBVEC_PREMATCH_LEN;
        }
        Ok(out)
    }
}

} // verus!
