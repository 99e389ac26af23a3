use vstd::prelude::*;
use std::collections::VecDeque;
use crate::bits::{common_prefix, lemma_common_prefix, lemma_shares_top_weaken, match_bits, shares_top};
use crate::compression_block_header::BlockHeader;
use crate::source::ByteSource;

verus! {

/// Bytes the blockizer looks ahead; also the longest block.
pub const WINDOW: usize = 32;

/// The tentative block of the first `n` bytes of `w`: the shared-prefix length
/// starts at 7 and narrows with every byte compared against `w[0]`.
pub open spec fn tentative(w: Seq<u8>, n: int) -> BlockHeader
    decreases n,
{
    if n <= 1 {
        BlockHeader { bytes_length: 1, matched_bits: 7 }
    } else {
        let prev = tentative(w, n - 1);
        BlockHeader {
            bytes_length: n as u8,
            matched_bits: common_prefix(w[0], w[n - 1], prev.matched_bits),
        }
    }
}

/// The greedy search from the tentative block of `i` bytes on: a candidate is
/// recorded whenever growing the tentative block lowers its score, and the
/// search keeps growing regardless. The best recorded candidate wins; with
/// none recorded, the fully grown block does.
pub open spec fn search(w: Seq<u8>, i: int, best: Option<BlockHeader>) -> BlockHeader
    decreases w.len() - i,
{
    if i >= w.len() {
        match best {
            Some(b) => b,
            None => tentative(w, i),
        }
    } else {
        let cur = tentative(w, i);
        if tentative(w, i + 1).spec_score() < cur.spec_score() {
            let recorded = match best {
                Some(b) => if cur.spec_score() > b.spec_score() {
                    Some(cur)
                } else {
                    best
                },
                None => Some(cur),
            };
            search(w, i + 1, recorded)
        } else {
            search(w, i + 1, best)
        }
    }
}

/// The block the blockizer picks at the front of window `w`.
pub open spec fn best_block(w: Seq<u8>) -> BlockHeader {
    search(w, 1, None)
}

/// `h` describes a block at the front of `w` whose bytes all share their top
/// `h.matched_bits` bits with `w[0]`.
pub open spec fn block_fits(w: Seq<u8>, h: BlockHeader) -> bool {
    &&& h.wf()
    &&& h.bytes_length <= w.len()
    &&& forall|j: int| 0 <= j < h.bytes_length ==> #[trigger] shares_top(w[0], w[j], h.matched_bits)
}

/// The lookahead window at the front of `s`.
pub open spec fn window(s: Seq<u8>) -> Seq<u8> {
    if s.len() <= WINDOW { s } else { s.take(WINDOW as int) }
}

/// The block the blockizer cuts at the front of `s`.
pub open spec fn first_block(s: Seq<u8>) -> BlockHeader {
    best_block(window(s))
}

/// A block on the blockizer's and merger's streams: its header and its
/// payload (reference byte, then the block's bytes).
pub type RawBlock = (BlockHeader, Seq<u8>);

/// The blocks the blockizer cuts `s` into.
pub open spec fn blockize_blocks(s: Seq<u8>) -> Seq<RawBlock>
    decreases s.len(),
{
    let n = first_block(s).bytes_length as int;
    if s.len() == 0 || n < 1 || n > s.len() {
        seq![]
    } else {
        seq![(first_block(s), seq![s[0]] + s.take(n))] + blockize_blocks(s.skip(n))
    }
}

/// The byte stream of a block sequence: each header byte followed by its payload.
pub open spec fn encode_blocks(bs: Seq<RawBlock>) -> Seq<u8>
    decreases bs.len(),
{
    if bs.len() == 0 {
        seq![]
    } else {
        seq![bs[0].0.spec_byte()] + bs[0].1 + encode_blocks(bs.drop_first())
    }
}

/// The blockizer's whole output for input `s`.
pub open spec fn blockize(s: Seq<u8>) -> Seq<u8> {
    encode_blocks(blockize_blocks(s))
}

/// The tentative block of `n` bytes is well formed, shared by all its bytes,
/// and its shared-prefix length never grows as the block grows.
pub proof fn lemma_tentative(w: Seq<u8>, n: int)
    requires
        1 <= n <= w.len() <= WINDOW,
    ensures
        block_fits(w, tentative(w, n)),
        tentative(w, n).bytes_length == n,
        n > 1 ==> tentative(w, n).matched_bits <= tentative(w, n - 1).matched_bits,
    decreases n,
{
    if n > 1 {
        lemma_tentative(w, n - 1);
        let prev = tentative(w, n - 1);
        let cur = tentative(w, n);
        lemma_common_prefix(w[0], w[n - 1], prev.matched_bits);
        assert forall|j: int| 0 <= j < n implies #[trigger] shares_top(
            w[0],
            w[j],
            cur.matched_bits,
        ) by {
            if j < n - 1 {
                assert(shares_top(w[0], w[j], prev.matched_bits));
                lemma_shares_top_weaken(w[0], w[j], prev.matched_bits, cur.matched_bits);
            }
        }
    } else {
        assert(shares_top(w[0], w[0], 7)) by (bit_vector);
    }
}

/// Within one block the shared-prefix length never increases as the block
/// grows byte by byte.
pub proof fn lemma_matched_bits_monotonic(w: Seq<u8>, i: int, j: int)
    requires
        1 <= i <= j <= w.len() <= WINDOW,
    ensures
        tentative(w, j).matched_bits <= tentative(w, i).matched_bits,
    decreases j - i,
{
    if j > i {
        lemma_tentative(w, j);
        lemma_matched_bits_monotonic(w, i, j - 1);
    }
}

proof fn lemma_search(w: Seq<u8>, i: int, best: Option<BlockHeader>)
    requires
        1 <= i <= w.len() <= WINDOW,
        best matches Some(b) ==> 1 <= b.bytes_length < i && b == tentative(w, b.bytes_length as int),
    ensures
        1 <= search(w, i, best).bytes_length <= w.len(),
        search(w, i, best) == tentative(w, search(w, i, best).bytes_length as int),
    decreases w.len() - i,
{
    lemma_tentative(w, i);
    if i < w.len() {
        lemma_search(w, i + 1, if tentative(w, i + 1).spec_score() < tentative(w, i).spec_score() {
            match best {
                Some(b) => if tentative(w, i).spec_score() > b.spec_score() {
                    Some(tentative(w, i))
                } else {
                    best
                },
                None => Some(tentative(w, i)),
            }
        } else {
            best
        });
    } else if let Some(b) = best {
        lemma_tentative(w, b.bytes_length as int);
    }
}

/// The chosen block fits the window and is never longer than it.
pub proof fn lemma_best_block(w: Seq<u8>)
    requires
        1 <= w.len() <= WINDOW,
    ensures
        block_fits(w, best_block(w)),
        best_block(w) == tentative(w, best_block(w).bytes_length as int),
{
    lemma_search(w, 1, None);
    lemma_tentative(w, best_block(w).bytes_length as int);
}

/// The blockizer: cuts a byte stream into blocks of bytes sharing a leading-bit
/// prefix, and emits each as its header byte, the reference byte, then the
/// block's bytes.
pub struct CompressionBlockIter {
    bytes: ByteSource,
    buff: VecDeque<u8>,
    bytes_in_block_left: u8,
}

/// Starts the blockizer on `bytes_iter`.
pub fn to_compression_blocks(bytes_iter: ByteSource) -> (r: CompressionBlockIter)
    requires
        bytes_iter.wf(),
    ensures
        r.wf(),
        r.pending() == Seq::<u8>::empty(),
        r.rest() == bytes_iter@,
{
    CompressionBlockIter::new(bytes_iter)
}

impl CompressionBlockIter {
    pub closed spec fn wf(&self) -> bool {
        &&& self.bytes.wf()
        &&& self.bytes_in_block_left <= self.buff@.len()
        &&& self.buff@.len() <= self.bytes_in_block_left + WINDOW
    }

    /// Bytes of the current block still to be emitted.
    pub closed spec fn pending(&self) -> Seq<u8> {
        self.buff@.take(self.bytes_in_block_left as int)
    }

    /// Input bytes not yet cut into a block.
    pub closed spec fn rest(&self) -> Seq<u8> {
        self.buff@.skip(self.bytes_in_block_left as int) + self.bytes@
    }

    /// Everything the blockizer will still emit.
    pub open spec fn output(&self) -> Seq<u8> {
        self.pending() + blockize(self.rest())
    }

    pub fn new(bytes: ByteSource) -> (r: CompressionBlockIter)
        requires
            bytes.wf(),
        ensures
            r.wf(),
            r.pending() == Seq::<u8>::empty(),
            r.rest() == bytes@,
    {
        let r = CompressionBlockIter { bytes, buff: VecDeque::new(), bytes_in_block_left: 0 };
        assert(r.pending() =~= Seq::<u8>::empty());
        assert(r.rest() =~= bytes@);
        r
    }

    /// Tops the lookahead up to a full window while input remains.
    fn fill_buff(&mut self)
        requires
            old(self).wf(),
            old(self).bytes_in_block_left == 0,
        ensures
            final(self).wf(),
            final(self).bytes_in_block_left == 0,
            final(self).rest() == old(self).rest(),
            final(self).buff@ == window(old(self).rest()),
    {
        while self.buff.len() < WINDOW
            invariant
                self.wf(),
                self.bytes_in_block_left == 0,
                self.rest() == old(self).rest(),
                self.buff@.len() <= WINDOW,
            ensures
                self.wf(),
                self.bytes_in_block_left == 0,
                self.rest() == old(self).rest(),
                self.buff@.len() <= WINDOW,
                self.buff@.len() == WINDOW || self.bytes@.len() == 0,
            decreases WINDOW - self.buff@.len(), self.bytes@.len(),
        {
            let ghost before = self.rest();
            if let Some(value) = self.bytes.next() {
                self.buff.push_back(value);
                assert(self.rest() =~= before);
            } else {
                break;
            }
        }
        assert(self.rest() =~= self.buff@ + self.bytes@);
        assert(self.buff@ =~= window(self.rest()));
    }

    /// Runs the greedy search on the lookahead window.
    fn find_best_block(&self) -> (r: BlockHeader)
        requires
            1 <= self.buff@.len() <= WINDOW,
        ensures
            r == best_block(self.buff@),
    {
        let ghost w = self.buff@;
        let mut current_best: Option<BlockHeader> = None;
        let mut current = BlockHeader { bytes_length: 1, matched_bits: 7 };
        let block_byte_prefix = self.buff[0];
        let mut i: usize = 1;
        proof {
            lemma_tentative(w, 1);
        }
        while i < self.buff.len()
            invariant
                w == self.buff@,
                1 <= i <= w.len() <= WINDOW,
                block_byte_prefix == w[0],
                current == tentative(w, i as int),
                search(w, i as int, current_best) == best_block(w),
            decreases w.len() - i,
        {
            let byte = self.buff[i];
            proof {
                lemma_tentative(w, i as int);
                lemma_tentative(w, i as int + 1);
            }
            let matched_bits = match_bits(block_byte_prefix, byte, current.matched_bits);
            let bytes_length = current.bytes_length + 1;
            let bits_compressed = BlockHeader::calc_compressed_bits(bytes_length, matched_bits);
            if bits_compressed < current.get_bits_compressed() {
                let better = match current_best {
                    Some(b) => current.get_bits_compressed() > b.get_bits_compressed(),
                    None => true,
                };
                if better {
                    current_best = Some(current);
                }
                current = BlockHeader { bytes_length, matched_bits };
            } else {
                current.bytes_length = current.bytes_length + 1;
                current.matched_bits = matched_bits;
            }
            i = i + 1;
        }
        match current_best {
            Some(b) => b,
            None => current,
        }
    }

    /// Pulls the next byte of the block stream.
    pub fn next(&mut self) -> (r: Option<u8>)
        requires
            old(self).wf(),
        ensures
            final(self).wf(),
            old(self).pending().len() > 0 ==> {
                &&& r == Some(old(self).pending()[0])
                &&& final(self).pending() == old(self).pending().drop_first()
                &&& final(self).rest() == old(self).rest()
            },
            old(self).pending().len() == 0 && old(self).rest().len() == 0 ==> {
                &&& r is None
                &&& final(self).pending().len() == 0
                &&& final(self).rest().len() == 0
            },
            old(self).pending().len() == 0 && old(self).rest().len() > 0 ==> {
                let s = old(self).rest();
                let n = first_block(s).bytes_length as int;
                &&& r == Some(first_block(s).spec_byte())
                &&& final(self).pending() == seq![s[0]] + s.take(n)
                &&& final(self).rest() == s.skip(n)
            },
    {
        if self.bytes_in_block_left > 0 {
            self.bytes_in_block_left = self.bytes_in_block_left - 1;
            let b = self.buff.pop_front();
            assert(self.pending() =~= old(self).pending().drop_first());
            assert(self.rest() =~= old(self).rest());
            return b;
        }
        self.fill_buff();
        if self.buff.len() == 0 {
            return None;
        }
        let ghost s = old(self).rest();
        let block = self.find_best_block();
        proof {
            lemma_best_block(self.buff@);
        }
        let first = self.buff[0];
        self.buff.push_front(first);
        self.bytes_in_block_left = block.bytes_length + 1;
        let ghost n = block.bytes_length as int;
        assert(self.pending() =~= seq![s[0]] + s.take(n));
        assert(self.rest() =~= s.skip(n));
        Some(block.get_byte())
    }
}

} // verus!
