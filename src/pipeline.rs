use vstd::prelude::*;
use crate::bit_accumulator::{byte_bits, bytes_bits, padded};
use crate::compress_blocks::{compress_blocks, pack_units};
use crate::decompress_blocks::{decompress_blocks, decompress_spec, DecodeError};
use crate::merge_blocks::{merge, merge_blocks};
use crate::source::ByteSource;
use crate::to_compression_blocks::{blockize_blocks, encode_blocks, to_compression_blocks};

verus! {

/// The packed bit stream for input `s`, before padding to whole bytes.
pub open spec fn compressed_bits(s: Seq<u8>) -> Seq<bool> {
    pack_units(None, 0, encode_blocks(merge(blockize_blocks(s))))
}

/// Appending a byte appends its bits.
pub proof fn lemma_bytes_bits_push(s: Seq<u8>, b: u8)
    ensures
        bytes_bits(s.push(b)) == bytes_bits(s) + byte_bits(b),
    decreases s.len(),
{
    if s.len() == 0 {
        assert(s.push(b).drop_first() =~= Seq::<u8>::empty());
        assert(bytes_bits(s.push(b).drop_first()) =~= Seq::<bool>::empty());
        assert(bytes_bits(s) =~= Seq::<bool>::empty());
        assert(bytes_bits(s.push(b)) =~= bytes_bits(s) + byte_bits(b));
    } else {
        lemma_bytes_bits_push(s.drop_first(), b);
        assert(s.push(b).drop_first() =~= s.drop_first().push(b));
        assert(bytes_bits(s.push(b)) =~= bytes_bits(s) + byte_bits(b));
    }
}

/// Compresses `data` whole: the result's bits are the packed stream, the last
/// byte zero-padded.
pub fn compress(data: Vec<u8>) -> (r: Vec<u8>)
    ensures
        bytes_bits(r@) == padded(compressed_bits(data@)),
{
    let ghost input = data@;
    let source = ByteSource::new(data);
    let blocks = to_compression_blocks(source);
    let merged = merge_blocks(blocks);
    let mut packer = compress_blocks(merged);
    let mut out: Vec<u8> = Vec::new();
    assert(bytes_bits(out@) =~= Seq::<bool>::empty());
    assert(bytes_bits(out@) + padded(packer.bits()) =~= padded(compressed_bits(input)));
    loop
        invariant
            packer.wf(),
            input == data@,
            bytes_bits(out@) + padded(packer.bits()) == padded(compressed_bits(input)),
        ensures
            input == data@,
            bytes_bits(out@) == padded(compressed_bits(input)),
        decreases padded(packer.bits()).len(),
    {
        let ghost before = padded(packer.bits());
        match packer.next() {
            None => {
                assert(padded(packer.bits()) =~= Seq::<bool>::empty());
                assert(bytes_bits(out@) =~= padded(compressed_bits(input)));
                break;
            },
            Some(b) => {
                proof {
                    lemma_bytes_bits_push(out@, b);
                    assert(before =~= before.take(8) + before.skip(8));
                }
                out.push(b);
                assert(bytes_bits(out@) + padded(packer.bits()) =~= padded(
                    compressed_bits(input),
                ));
            },
        }
    }
    out
}

/// Decompresses `data` whole: the decoded bytes, or the error when the input
/// ends inside a block.
pub fn decompress(data: Vec<u8>) -> (r: Result<Vec<u8>, DecodeError>)
    ensures
        decompress_spec(data@).1 ==> r == Err::<Vec<u8>, DecodeError>(DecodeError::TruncatedStream),
        !decompress_spec(data@).1 ==> (r matches Ok(v) && v@ == decompress_spec(data@).0),
{
    let ghost input = data@;
    let mut decoder = decompress_blocks(ByteSource::new(data));
    let mut out: Vec<u8> = Vec::new();
    loop
        invariant
            decoder.wf(),
            input == data@,
            out@ + decoder.decoded().0 == decompress_spec(input).0,
            decoder.decoded().1 == decompress_spec(input).1,
        decreases decoder.decoded().0.len(),
    {
        let ghost before = decoder.decoded().0;
        match decoder.next() {
            Ok(Some(b)) => {
                out.push(b);
                assert(out@ + decoder.decoded().0 =~= decompress_spec(input).0);
            },
            Ok(None) => {
                assert(out@ =~= decompress_spec(input).0);
                return Ok(out);
            },
            Err(e) => {
                return Err(e);
            },
        }
    }
}

} // verus!
