use vstd::prelude::*;
use std::collections::VecDeque;
use crate::compression_block_header::{lemma_header_round_trip, BlockHeader};
use crate::to_compression_blocks::{
    blockize_blocks, encode_blocks, first_block, lemma_best_block, window, CompressionBlockIter,
    RawBlock, WINDOW,
};

verus! {

/// One block standing for a run of degenerate single-byte blocks: its length
/// is the run's length, it claims no shared bits, and its payload keeps the
/// first reference byte and then each block's byte.
pub open spec fn merge_run(run: Seq<RawBlock>) -> RawBlock {
    (
        BlockHeader { bytes_length: run.len() as u8, matched_bits: 0 },
        seq![run[0].1[0]] + Seq::new(run.len(), |i: int| run[i].1[1]),
    )
}

/// Merges `bs`, with `run` the degenerate blocks gathered so far: a run grows
/// while single-byte blocks follow and it is shorter than a window.
pub open spec fn merge_from(run: Seq<RawBlock>, bs: Seq<RawBlock>) -> Seq<RawBlock>
    decreases bs.len(), run.len(),
{
    if run.len() > 0 {
        if bs.len() > 0 && bs[0].0.bytes_length == 1 && run.len() < WINDOW {
            merge_from(run.push(bs[0]), bs.drop_first())
        } else {
            seq![merge_run(run)] + merge_from(seq![], bs)
        }
    } else if bs.len() == 0 {
        seq![]
    } else if bs[0].0.bytes_length == 1 {
        merge_from(seq![bs[0]], bs.drop_first())
    } else {
        seq![bs[0]] + merge_from(seq![], bs.drop_first())
    }
}

/// The merger's block sequence for the blockizer's blocks `bs`.
pub open spec fn merge(bs: Seq<RawBlock>) -> Seq<RawBlock> {
    merge_from(seq![], bs)
}

/// The merger: coalesces consecutive single-byte blocks into one block of up
/// to a window's length, passing every other block through.
pub struct BlocksMergerIter {
    compressor: CompressionBlockIter,
    lookahead: Option<(BlockHeader, Vec<u8>)>,
    buf: VecDeque<u8>,
}

/// Starts the merger on the blockizer `blocks`.
pub fn merge_blocks(blocks: CompressionBlockIter) -> (r: BlocksMergerIter)
    requires
        blocks.wf(),
        blocks.pending().len() == 0,
    ensures
        r.wf(),
        r.output() == encode_blocks(merge(blockize_blocks(blocks.rest()))),
{
    BlocksMergerIter::new(blocks)
}

impl BlocksMergerIter {
    pub closed spec fn wf(&self) -> bool {
        &&& self.compressor.wf()
        &&& self.compressor.pending().len() == 0
        &&& self.lookahead matches Some((h, p)) ==> h.wf() && p@.len() == h.bytes_length + 1
    }

    /// Blocks not yet merged: the one looked ahead at, then the blockizer's.
    pub closed spec fn queue(&self) -> Seq<RawBlock> {
        let ahead: Seq<RawBlock> = match self.lookahead {
            Some((h, p)) => seq![(h, p@)],
            None => seq![],
        };
        ahead + blockize_blocks(self.compressor.rest())
    }

    /// Everything the merger will still emit.
    pub closed spec fn output(&self) -> Seq<u8> {
        self.buf@ + encode_blocks(merge(self.queue()))
    }

    pub fn new(compressor: CompressionBlockIter) -> (r: BlocksMergerIter)
        requires
            compressor.wf(),
            compressor.pending().len() == 0,
        ensures
            r.wf(),
            r.output() == encode_blocks(merge(blockize_blocks(compressor.rest()))),
    {
        let r = BlocksMergerIter { compressor, lookahead: None, buf: VecDeque::new() };
        assert(r.queue() =~= blockize_blocks(compressor.rest()));
        assert(r.output() =~= encode_blocks(merge(blockize_blocks(compressor.rest()))));
        r
    }

    /// Reads one whole block (header and payload) from the blockizer.
    fn fetch_next_block(&mut self) -> (r: Option<(BlockHeader, Vec<u8>)>)
        requires
            old(self).wf(),
        ensures
            final(self).wf(),
            final(self).buf == old(self).buf,
            final(self).lookahead == old(self).lookahead,
            old(self).compressor.rest().len() == 0 ==> r is None && final(self).compressor.rest().len() == 0,
            old(self).compressor.rest().len() > 0 ==> (r matches Some((h, p)) && {
                &&& h.wf()
                &&& p@.len() == h.bytes_length + 1
                &&& blockize_blocks(old(self).compressor.rest()) == seq![(h, p@)]
                    + blockize_blocks(final(self).compressor.rest())
            }),
    {
        let ghost s = self.compressor.rest();
        let header = self.compressor.next();
        if header.is_none() {
            return None;
        }
        let header = header.unwrap();
        proof {
            lemma_best_block(window(s));
            let h = first_block(s);
            lemma_header_round_trip(h.matched_bits, h.bytes_length);
        }
        let block = BlockHeader::from_byte(header);
        let ghost n = block.bytes_length as int;
        let ghost full = seq![s[0]] + s.take(n);
        let mut payload: Vec<u8> = Vec::new();
        let mut i: u8 = 0;
        while i <= block.bytes_length
            invariant
                self.compressor.wf(),
                self.lookahead == old(self).lookahead,
                self.buf == old(self).buf,
                block == first_block(s),
                block.wf(),
                n == block.bytes_length,
                0 <= i <= n + 1,
                full.len() == n + 1,
                self.compressor.pending() == full.skip(i as int),
                self.compressor.rest() == s.skip(n),
                payload@ == full.take(i as int),
            decreases n + 1 - i,
        {
            let b = self.compressor.next();
            payload.push(b.unwrap());
            assert(payload@ =~= full.take(i as int + 1));
            assert(self.compressor.pending() =~= full.skip(i as int + 1));
            i = i + 1;
        }
        assert(payload@ =~= full);
        assert(blockize_blocks(s) =~= seq![(block, payload@)] + blockize_blocks(s.skip(n)));
        Some((block, payload))
    }

    /// Builds the next merged block: returns its header byte and leaves its
    /// payload in the buffer. `None` once the blocks run out.
    fn get_next_block(&mut self) -> (r: Option<u8>)
        requires
            old(self).wf(),
            old(self).buf@.len() == 0,
        ensures
            final(self).wf(),
            old(self).output().len() == 0 ==> r is None && final(self).output().len() == 0,
            old(self).output().len() > 0 ==> r == Some(old(self).output()[0]) && final(self).output() == old(self).output().drop_first(),
    {
        let ghost q = self.queue();
        let first = match self.lookahead.take() {
            Some(b) => b,
            None => match self.fetch_next_block() {
                Some(b) => b,
                None => {
                    assert(q =~= Seq::<RawBlock>::empty());
                    return None;
                },
            },
        };
        assert(q[0] == (first.0, first.1@));
        assert(self.queue() =~= q.drop_first());
        if first.0.bytes_length != 1 {
            let mut i: usize = 0;
            while i < first.1.len()
                invariant
                    self.wf(),
                    self.queue() == q.drop_first(),
                    i <= first.1@.len(),
                    self.buf@ == first.1@.take(i as int),
                decreases first.1@.len() - i,
            {
                self.buf.push_back(first.1[i]);
                assert(self.buf@ =~= first.1@.take(i as int + 1));
                i = i + 1;
            }
            assert(self.buf@ =~= first.1@);
            assert(merge(q) =~= seq![q[0]] + merge(q.drop_first()));
            assert(merge(q).drop_first() =~= merge(q.drop_first()));
            assert(self.output() =~= old(self).output().drop_first());
            return Some(first.0.get_byte());
        }
        let mut merged_length: u8 = 1;
        let mut payload: Vec<u8> = Vec::new();
        payload.push(first.1[0]);
        payload.push(first.1[1]);
        let ghost mut run: Seq<RawBlock> = seq![q[0]];
        assert(payload@ =~= seq![run[0].1[0]] + Seq::new(run.len(), |i: int| run[i].1[1]));
        loop
            invariant_except_break
                self.lookahead is None,
            invariant
                self.wf(),
                self.buf@.len() == 0,
                1 <= merged_length <= WINDOW,
                run.len() == merged_length,
                run[0] == q[0],
                payload@ == seq![run[0].1[0]] + Seq::new(run.len(), |i: int| run[i].1[1]),
                merge(q) == merge_from(run, self.queue()),
            ensures
                self.wf(),
                self.buf@.len() == 0,
                1 <= merged_length <= WINDOW,
                run.len() == merged_length,
                payload@ == seq![run[0].1[0]] + Seq::new(run.len(), |i: int| run[i].1[1]),
                merge(q) == seq![merge_run(run)] + merge(self.queue()),
            decreases self.queue().len(),
        {
            if merged_length as usize >= WINDOW {
                assert(merge_from(run, self.queue()) == seq![merge_run(run)] + merge(
                    self.queue(),
                ));
                break;
            }
            let ghost before = self.queue();
            match self.fetch_next_block() {
                None => {
                    assert(self.queue() =~= Seq::<RawBlock>::empty());
                    assert(merge_from(run, self.queue()) == seq![merge_run(run)] + merge(
                        self.queue(),
                    ));
                    break;
                },
                Some(next_block) => {
                    if next_block.0.bytes_length != 1 {
                        self.lookahead = Some(next_block);
                        assert(self.queue() =~= before);
                        assert(merge_from(run, self.queue()) == seq![merge_run(run)] + merge(
                            self.queue(),
                        ));
                        break;
                    }
                    assert(self.queue() =~= before.drop_first());
                    payload.push(next_block.1[1]);
                    proof {
                        run = run.push(before[0]);
                    }
                    assert(payload@ =~= seq![run[0].1[0]] + Seq::new(
                        run.len(),
                        |i: int| run[i].1[1],
                    ));
                    merged_length = merged_length + 1;
                },
            }
        }
        let block = BlockHeader { bytes_length: merged_length, matched_bits: 0 };
        assert(merge(q).drop_first() =~= merge(self.queue()));
        let ghost after = self.queue();
        let mut i: usize = 0;
        while i < payload.len()
            invariant
                self.wf(),
                self.queue() == after,
                i <= payload@.len(),
                self.buf@ == payload@.take(i as int),
            decreases payload@.len() - i,
        {
            self.buf.push_back(payload[i]);
            assert(self.buf@ =~= payload@.take(i as int + 1));
            i = i + 1;
        }
        assert(self.buf@ =~= payload@);
        assert(merge(q)[0] == merge_run(run));
        assert(block == merge_run(run).0);
        assert(merge_run(run).1 == payload@);
        assert(encode_blocks(merge(q)) == seq![block.spec_byte()] + payload@ + encode_blocks(
            merge(self.queue()),
        ));
        assert(self.output() =~= old(self).output().drop_first());
        Some(block.get_byte())
    }

    /// Pulls the next byte of the merged block stream.
    pub fn next(&mut self) -> (r: Option<u8>)
        requires
            old(self).wf(),
        ensures
            final(self).wf(),
            old(self).output().len() == 0 ==> r is None && final(self).output().len() == 0,
            old(self).output().len() > 0 ==> r == Some(old(self).output()[0]) && final(self).output() == old(self).output().drop_first(),
    {
        if self.buf.len() > 0 {
            let r = self.buf.pop_front();
            assert(self.output() =~= old(self).output().drop_first());
            return r;
        }
        self.get_next_block()
    }
}

} // verus!
