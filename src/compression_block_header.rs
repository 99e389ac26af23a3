use vstd::prelude::*;

verus! {

/// Bits that a block header costs on the wire.
pub const HEADER_SIZE: i32 = 8;

/// Descriptor of one block: how many bytes it holds and how many leading bits
/// those bytes share.
#[derive(Clone, Copy, Debug, PartialEq, Eq, Structural)]
pub struct BlockHeader {
    pub bytes_length: u8,
    pub matched_bits: u8,
}

/// Net bits a block of `length` bytes sharing `matched` leading bits saves,
/// after paying for its header.
pub open spec fn score(length: int, matched: int) -> int {
    matched * (length - 1) - 8
}

/// The wire byte of a header: three bits of shared-prefix length above five
/// bits of `length - 1`.
pub open spec fn header_byte(matched: int, length: int) -> int {
    matched * 32 + (length - 1)
}

impl BlockHeader {
    /// A header that can be written on the wire.
    pub open spec fn wf(&self) -> bool {
        &&& self.matched_bits <= 7
        &&& 1 <= self.bytes_length <= 32
    }

    pub open spec fn spec_byte(&self) -> u8 {
        header_byte(self.matched_bits as int, self.bytes_length as int) as u8
    }

    pub open spec fn spec_from_byte(b: u8) -> BlockHeader {
        BlockHeader { bytes_length: (b % 32 + 1) as u8, matched_bits: (b / 32) as u8 }
    }

    pub open spec fn spec_score(&self) -> int {
        score(self.bytes_length as int, self.matched_bits as int)
    }

    /// Encodes the header as its wire byte.
    pub fn get_byte(&self) -> (r: u8)
        requires
            self.wf(),
        ensures
            r as int == header_byte(self.matched_bits as int, self.bytes_length as int),
            r == self.spec_byte(),
    {
        self.matched_bits * 32 + (self.bytes_length - 1)
    }

    /// Decodes a wire byte; every byte is some header.
    pub fn from_byte(header: u8) -> (r: BlockHeader)
        ensures
            r == BlockHeader::spec_from_byte(header),
            r.wf(),
            r.spec_byte() == header,
    {
        assert(header & 31 == header % 32) by (bit_vector);
        assert((header & 224) >> 5 == header / 32) by (bit_vector);
        let bytes_length = (header & 31) + 1;
        let matched_bits = (header & 224) >> 5;
        BlockHeader { bytes_length, matched_bits }
    }

    /// Net bits this block saves.
    pub fn get_bits_compressed(&self) -> (r: i32)
        ensures
            r as int == self.spec_score(),
    {
        Self::calc_compressed_bits(self.bytes_length, self.matched_bits)
    }

    /// Net bits a block of `bytes_length` bytes sharing `matched_bits` leading
    /// bits saves: `matched_bits * (bytes_length - 1) - 8`.
    pub fn calc_compressed_bits(bytes_length: u8, matched_bits: u8) -> (r: i32)
        ensures
            r as int == score(bytes_length as int, matched_bits as int),
    {
        assert(-255 * 256 <= matched_bits as int * (bytes_length as int - 1) <= 255 * 255)
            by (nonlinear_arith);
        matched_bits as i32 * (bytes_length as i32 - 1) - HEADER_SIZE
    }
}

/// Decoding a header's wire byte gives the header back.
pub proof fn lemma_header_round_trip(matched_bits: u8, bytes_length: u8)
    requires
        matched_bits <= 7,
        1 <= bytes_length <= 32,
    ensures
        ({
            let h = BlockHeader { bytes_length, matched_bits };
            BlockHeader::spec_from_byte(h.spec_byte()) == h
        }),
{
}

} // verus!
