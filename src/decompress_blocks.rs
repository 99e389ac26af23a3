use vstd::prelude::*;
use crate::bit_accumulator::{bit, byte_bits, byte_from_bits, bytes_bits, lemma_byte_from_bits, low_bits, BitReader};
use crate::compression_block_header::BlockHeader;
use crate::source::ByteSource;

verus! {

/// Why decoding stopped short of the end of a block.
#[derive(Clone, Copy, Debug, PartialEq, Eq, Structural)]
pub enum DecodeError {
    /// The input ended inside a block: after its header, before its last byte.
    TruncatedStream,
}

/// Decodes the bit stream `bits` from inside a block with header `block`
/// (`None` between blocks), with `mask` the block's shared prefix bits once
/// read and `count` bytes of the block already produced. Gives the decoded
/// bytes, and whether the input ended inside a block. Between blocks, fewer
/// than eight bits left is the clean end of the stream.
pub open spec fn unpack(
    block: Option<BlockHeader>,
    mask: Option<Seq<bool>>,
    count: int,
    bits: Seq<bool>,
) -> (Seq<u8>, bool)
    decreases bits.len(), if mask is None { 1int } else { 0int },
{
    match block {
        None => if bits.len() < 8 {
            (seq![], false)
        } else {
            let h = BlockHeader::spec_from_byte(byte_from_bits(bits.take(8)));
            unpack(
                Some(h),
                if h.matched_bits == 0 { Some(seq![]) } else { None },
                0,
                bits.skip(8),
            )
        },
        Some(h) => {
            let m = h.matched_bits as int;
            if m > 7 {
                (seq![], true)
            } else {
                match mask {
                    None => if bits.len() < m {
                        (seq![], true)
                    } else {
                        unpack(Some(h), Some(bits.take(m)), count, bits.skip(m))
                    },
                    Some(prefix) => if bits.len() < 8 - m {
                        (seq![], true)
                    } else {
                        let b = byte_from_bits(prefix + bits.take(8 - m));
                        let rest = if count + 1 >= h.bytes_length {
                            unpack(None, None, 0, bits.skip(8 - m))
                        } else {
                            unpack(Some(h), mask, count + 1, bits.skip(8 - m))
                        };
                        (seq![b] + rest.0, rest.1)
                    },
                }
            }
        },
    }
}

/// What decoding the byte stream `c` gives: its bytes, and whether it ended
/// inside a block.
pub open spec fn decompress_spec(c: Seq<u8>) -> (Seq<u8>, bool) {
    unpack(None, None, 0, bytes_bits(c))
}

proof fn lemma_mask_bits(v: u8, m: u8, k: u8)
    by (bit_vector)
    requires
        1 <= m <= 7,
        k < 8,
    ensures
        k >= 8 - m ==> (((v << ((8 - m) as u8)) >> k) & 1 == 1) == ((v >> ((k - (8 - m)) as u8))
            & 1 == 1),
        k < 8 - m ==> ((v << ((8 - m) as u8)) >> k) & 1 != 1,
        ((v << ((8 - m) as u8)) >> ((8 - m) as u8)) << ((8 - m) as u8) == v << ((8 - m) as u8),
{
}

proof fn lemma_join_bits(mk: u8, res: u8, m: u8, k: u8)
    by (bit_vector)
    requires
        1 <= m <= 7,
        k < 8,
        (mk >> ((8 - m) as u8)) << ((8 - m) as u8) == mk,
        res >> ((8 - m) as u8) == 0,
    ensures
        mk + res < 256,
        k >= 8 - m ==> ((((mk + res) as u8) >> k) & 1 == 1) == ((mk >> k) & 1 == 1),
        k < 8 - m ==> ((((mk + res) as u8) >> k) & 1 == 1) == ((res >> k) & 1 == 1),
{
}

/// The unpacker: reads the packed bit stream block by block and rebuilds each
/// byte from its block's shared prefix and its own remaining bits.
pub struct DecompressedBlocksIter {
    reader: BitReader,
    current_block: Option<BlockHeader>,
    mask: Option<u8>,
    block_bytes_read: u8,
}

/// Starts the unpacker on the compressed bytes `compression_blocks`.
pub fn decompress_blocks(compression_blocks: ByteSource) -> (r: DecompressedBlocksIter)
    requires
        compression_blocks.wf(),
    ensures
        r.wf(),
        r.decoded() == decompress_spec(compression_blocks@),
{
    DecompressedBlocksIter::new(compression_blocks)
}

impl DecompressedBlocksIter {
    pub closed spec fn wf(&self) -> bool {
        &&& self.reader.wf()
        &&& match self.current_block {
            None => self.mask is None && self.block_bytes_read == 0,
            Some(h) => {
                &&& h.wf()
                &&& self.block_bytes_read < h.bytes_length
                &&& h.matched_bits == 0 ==> self.mask == Some(0u8)
                &&& h.matched_bits > 0 ==> (self.mask matches Some(mk) ==> (mk >> ((8
                    - h.matched_bits) as u8)) << ((8 - h.matched_bits) as u8) == mk)
            },
        }
    }

    /// The shared prefix bits of the current block, once read.
    pub closed spec fn mask_bits(&self) -> Option<Seq<bool>> {
        match (self.current_block, self.mask) {
            (Some(h), Some(mk)) => Some(byte_bits(mk).take(h.matched_bits as int)),
            _ => None,
        }
    }

    /// What is left to decode: the bytes, and whether the input ends inside a
    /// block.
    pub closed spec fn decoded(&self) -> (Seq<u8>, bool) {
        unpack(
            self.current_block,
            self.mask_bits(),
            self.block_bytes_read as int,
            self.reader.bits(),
        )
    }

    pub fn new(compressed_bytes: ByteSource) -> (r: DecompressedBlocksIter)
        requires
            compressed_bytes.wf(),
        ensures
            r.wf(),
            r.decoded() == decompress_spec(compressed_bytes@),
    {
        DecompressedBlocksIter {
            reader: BitReader::new(compressed_bytes),
            current_block: None,
            mask: None,
            block_bytes_read: 0,
        }
    }

    /// Reads `bits_amount` bits as the low bits of a byte.
    fn read_bits(&mut self, bits_amount: u8) -> (r: Option<u8>)
        requires
            old(self).wf(),
            bits_amount <= 8,
        ensures
            final(self).wf(),
            final(self).current_block == old(self).current_block,
            final(self).mask == old(self).mask,
            final(self).block_bytes_read == old(self).block_bytes_read,
            old(self).reader.bits().len() >= bits_amount ==> (r matches Some(v) && low_bits(
                v,
                bits_amount as int,
            ) == old(self).reader.bits().take(bits_amount as int) && final(self).reader.bits()
                == old(self).reader.bits().skip(bits_amount as int) && (bits_amount < 8 ==> v
                >> bits_amount == 0)),
            old(self).reader.bits().len() < bits_amount ==> r is None && final(self).reader.bits().len() == 0,
    {
        self.reader.pull(bits_amount)
    }

    /// Produces the next decoded byte: `Ok(None)` at the clean end of the
    /// stream, an error when the input ends inside a block.
    pub fn next(&mut self) -> (r: Result<Option<u8>, DecodeError>)
        requires
            old(self).wf(),
        ensures
            final(self).wf(),
            ({
                let (out, truncated) = old(self).decoded();
                &&& out.len() > 0 ==> r == Ok::<Option<u8>, DecodeError>(Some(out[0])) && final(self).decoded() == (out.drop_first(), truncated)
                &&& out.len() == 0 && !truncated ==> r == Ok::<Option<u8>, DecodeError>(None)
                    && final(self).decoded() == (Seq::<u8>::empty(), false)
                &&& out.len() == 0 && truncated ==> r == Err::<Option<u8>, DecodeError>(
                    DecodeError::TruncatedStream,
                )
            }),
    {
        self.get_next_byte()
    }

    fn get_next_byte(&mut self) -> (r: Result<Option<u8>, DecodeError>)
        requires
            old(self).wf(),
        ensures
            final(self).wf(),
            ({
                let (out, truncated) = old(self).decoded();
                &&& out.len() > 0 ==> r == Ok::<Option<u8>, DecodeError>(Some(out[0])) && final(self).decoded() == (out.drop_first(), truncated)
                &&& out.len() == 0 && !truncated ==> r == Ok::<Option<u8>, DecodeError>(None)
                    && final(self).decoded() == (Seq::<u8>::empty(), false)
                &&& out.len() == 0 && truncated ==> r == Err::<Option<u8>, DecodeError>(
                    DecodeError::TruncatedStream,
                )
            }),
    {
        loop
            invariant
                self.wf(),
                self.decoded() == old(self).decoded(),
            decreases self.reader.bits().len(), if self.mask is None { 1int } else { 0int },
        {
            let ghost bits = self.reader.bits();
            match self.current_block {
                Some(block_header) => {
                    let m = block_header.matched_bits;
                    match self.mask {
                        Some(mask) => {
                            let ghost prefix = byte_bits(mask).take(m as int);
                            let left_bits = match self.read_bits(8 - m) {
                                Some(v) => v,
                                None => {
                                    return Err(DecodeError::TruncatedStream);
                                },
                            };
                            let ghost read = bits.take(8 - m);
                            if m > 0 {
                                assert forall|k: int| 0 <= k < 8 implies #[trigger] bit(
                                    (mask + left_bits) as u8,
                                    k,
                                ) == (if k >= 8 - m {
                                    bit(mask, k)
                                } else {
                                    bit(left_bits, k)
                                }) by {
                                    lemma_join_bits(mask, left_bits, m, k as u8);
                                }
                                proof {
                                    lemma_join_bits(mask, left_bits, m, 0);
                                }
                            } else {
                                assert(mask == 0);
                            }
                            let byte = mask + left_bits;
                            assert(byte_bits(byte) =~= prefix + read);
                            proof {
                                lemma_byte_from_bits(byte, prefix + read);
                            }
                            self.block_bytes_read = self.block_bytes_read + 1;
                            if self.block_bytes_read == block_header.bytes_length {
                                self.current_block = None;
                                self.mask = None;
                                self.block_bytes_read = 0;
                            }
                            return Ok(Some(byte));
                        },
                        None => {
                            let v = match self.read_bits(m) {
                                Some(v) => v,
                                None => {
                                    return Err(DecodeError::TruncatedStream);
                                },
                            };
                            let mask = v << (8 - m);
                            assert forall|k: int| 0 <= k < 8 implies #[trigger] bit(mask, k) == (
                            if k >= 8 - m {
                                bit(v, k - (8 - m))
                            } else {
                                false
                            }) by {
                                lemma_mask_bits(v, m, k as u8);
                            }
                            proof {
                                lemma_mask_bits(v, m, 0);
                            }
                            self.mask = Some(mask);
                            assert(byte_bits(mask).take(m as int) =~= bits.take(m as int));
                        },
                    }
                },
                None => {
                    let header = match self.read_bits(8) {
                        Some(v) => v,
                        None => {
                            return Ok(None);
                        },
                    };
                    proof {
                        lemma_byte_from_bits(header, bits.take(8));
                    }
                    let block = BlockHeader::from_byte(header);
                    self.current_block = Some(block);
                    if block.matched_bits == 0 {
                        self.mask = Some(0);
                        assert(byte_bits(0).take(0) =~= Seq::<bool>::empty());
                    }
                },
            }
        }
    }
}

} // verus!
