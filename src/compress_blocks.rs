use vstd::prelude::*;
use crate::bit_accumulator::{byte_bits, low_bits, padded, BitWriter};
use crate::compression_block_header::BlockHeader;
use crate::merge_blocks::BlocksMergerIter;

verus! {

/// Wire bits of one payload byte `u` at index `idx` of a block with header
/// `h`: the reference byte (`idx == 0`) gives its top `matched_bits` bits, every
/// other byte its low `8 - matched_bits` bits.
pub open spec fn unit_bits(h: BlockHeader, idx: int, u: u8) -> Seq<bool> {
    let m = h.matched_bits as int;
    if idx == 0 {
        if m == 0 {
            seq![]
        } else {
            low_bits(u >> ((8 - m) as u8), m)
        }
    } else {
        low_bits(u, 8 - m)
    }
}

/// Wire bits of the block stream `s`, read from inside a block with header
/// `block` at payload index `idx` (or between blocks, with `block` `None`).
/// A header byte goes out whole.
pub open spec fn pack_units(block: Option<BlockHeader>, idx: int, s: Seq<u8>) -> Seq<bool>
    decreases s.len(),
{
    if s.len() == 0 {
        seq![]
    } else {
        match block {
            None => byte_bits(s[0]) + pack_units(
                Some(BlockHeader::spec_from_byte(s[0])),
                0,
                s.drop_first(),
            ),
            Some(h) => unit_bits(h, idx, s[0]) + if idx >= h.bytes_length {
                pack_units(None, 0, s.drop_first())
            } else {
                pack_units(Some(h), idx + 1, s.drop_first())
            },
        }
    }
}

/// Padding keeps whole bytes in front.
pub proof fn lemma_padded_skip(x: Seq<bool>)
    requires
        x.len() >= 8,
    ensures
        padded(x).take(8) == x.take(8),
        padded(x.skip(8)) == padded(x).skip(8),
{
    assert(padded(x).take(8) =~= x.take(8));
    assert((8 - x.skip(8).len() % 8) % 8 == (8 - x.len() % 8) % 8);
    assert(padded(x.skip(8)) =~= padded(x).skip(8));
}

/// The packer: bit-packs the merged block stream, writing each header whole,
/// each reference byte's shared prefix once, and each byte's remaining bits.
pub struct CompressedBlocksIter {
    elements: BlocksMergerIter,
    block: Option<BlockHeader>,
    current_byte: u8,
    writer: BitWriter,
}

/// Starts the packer on the merger `compression_blocks`.
pub fn compress_blocks(compression_blocks: BlocksMergerIter) -> (r: CompressedBlocksIter)
    requires
        compression_blocks.wf(),
    ensures
        r.wf(),
        r.bits() == pack_units(None, 0, compression_blocks.output()),
{
    CompressedBlocksIter::new(compression_blocks)
}

impl CompressedBlocksIter {
    pub closed spec fn wf(&self) -> bool {
        &&& self.elements.wf()
        &&& self.writer.wf()
        &&& self.block matches Some(h) ==> h.wf() && self.current_byte <= h.bytes_length
    }

    /// The bits still to be emitted, before padding.
    pub closed spec fn bits(&self) -> Seq<bool> {
        self.writer.bits() + pack_units(
            self.block,
            self.current_byte as int,
            self.elements.output(),
        )
    }

    pub fn new(elements: BlocksMergerIter) -> (r: CompressedBlocksIter)
        requires
            elements.wf(),
        ensures
            r.wf(),
            r.bits() == pack_units(None, 0, elements.output()),
    {
        let r = CompressedBlocksIter { elements, block: None, current_byte: 0, writer: BitWriter::new() };
        assert(r.bits() =~= pack_units(None, 0, elements.output()));
        r
    }

    /// Packs upstream bytes until an output byte is complete; once upstream
    /// ends, hands out the zero-padded trailing partial byte.
    fn fill_byte(&mut self) -> (r: Option<u8>)
        requires
            old(self).wf(),
        ensures
            final(self).wf(),
            old(self).bits().len() == 0 ==> r is None && final(self).bits().len() == 0,
            old(self).bits().len() > 0 ==> (r matches Some(b) && byte_bits(b) == padded(
                old(self).bits(),
            ).take(8) && padded(final(self).bits()) == padded(old(self).bits()).skip(8)),
    {
        loop
            invariant
                self.wf(),
                self.bits() == old(self).bits(),
            ensures
                self.wf(),
                self.bits() == old(self).bits(),
                self.elements.output().len() == 0,
            decreases self.elements.output().len(),
        {
            let ghost s = self.elements.output();
            let ghost w = self.writer.bits();
            let unit = match self.elements.next() {
                None => {
                    break;
                },
                Some(u) => u,
            };
            let ghost added = match self.block {
                None => byte_bits(unit),
                Some(h) => unit_bits(h, self.current_byte as int, unit),
            };
            let result = match self.block {
                None => {
                    self.block = Some(BlockHeader::from_byte(unit));
                    self.current_byte = 0;
                    self.writer.push(unit, 8)
                },
                Some(block) => {
                    let ghost added = unit_bits(block, self.current_byte as int, unit);
                    let r = if self.current_byte == 0 {
                        if block.matched_bits == 0 {
                            assert(added =~= Seq::<bool>::empty());
                            assert(w + added =~= w);
                            None
                        } else {
                            self.writer.push(unit >> (8 - block.matched_bits), block.matched_bits)
                        }
                    } else {
                        self.writer.push(unit, 8 - block.matched_bits)
                    };
                    if self.current_byte == block.bytes_length {
                        self.block = None;
                        self.current_byte = 0;
                    } else {
                        self.current_byte = self.current_byte + 1;
                    }
                    r
                },
            };
            let ghost all = old(self).bits();
            if let Some(byte) = result {
                let ghost tail = pack_units(
                    self.block,
                    self.current_byte as int,
                    self.elements.output(),
                );
                assert(all =~= (w + added) + tail);
                assert(all.take(8) =~= (w + added).take(8));
                assert(self.bits() =~= all.skip(8));
                proof {
                    lemma_padded_skip(all);
                }
                return Some(byte);
            }
        }
        assert(self.bits() =~= self.writer.bits());
        let r = self.writer.flush();
        proof {
            let all = old(self).bits();
            if all.len() > 0 {
                assert(padded(all).take(8) =~= padded(all));
                assert(padded(all).skip(8) =~= Seq::<bool>::empty());
            }
        }
        assert(padded(self.bits()) =~= Seq::<bool>::empty());
        r
    }

    /// Pulls the next byte of the compressed stream.
    pub fn next(&mut self) -> (r: Option<u8>)
        requires
            old(self).wf(),
        ensures
            final(self).wf(),
            old(self).bits().len() == 0 ==> r is None && final(self).bits().len() == 0,
            old(self).bits().len() > 0 ==> (r matches Some(b) && byte_bits(b) == padded(
                old(self).bits(),
            ).take(8) && padded(final(self).bits()) == padded(old(self).bits()).skip(8)),
    {
        self.fill_byte()
    }
}

} // verus!
