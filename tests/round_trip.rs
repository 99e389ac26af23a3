use prefix_codec::compress_blocks::compress_blocks;
use prefix_codec::compression_block_header::BlockHeader;
use prefix_codec::decompress_blocks::{decompress_blocks, DecodeError};
use prefix_codec::merge_blocks::merge_blocks;
use prefix_codec::pipeline::{compress, decompress};
use prefix_codec::source::ByteSource;
use prefix_codec::to_compression_blocks::to_compression_blocks;

fn round_trip(data: &[u8]) -> Vec<u8> {
    let packed = compress(data.to_vec());
    decompress(packed).expect("a compressed stream decodes")
}

/// The merged block stream for `data`, as (matched_bits, length, payload).
fn merged_blocks(data: &[u8]) -> Vec<(u8, u8, Vec<u8>)> {
    let mut merger = merge_blocks(to_compression_blocks(ByteSource::new(data.to_vec())));
    let mut blocks = Vec::new();
    while let Some(header) = merger.next() {
        let h = BlockHeader::from_byte(header);
        let mut payload = Vec::new();
        for _ in 0..=h.bytes_length {
            payload.push(merger.next().expect("a block carries its payload"));
        }
        blocks.push((h.matched_bits, h.bytes_length, payload));
    }
    blocks
}

#[test]
fn simple_array() {
    let data: [u8; 10] = [1, 1, 2, 2, 3, 3, 4, 4, 5, 5];
    let result = round_trip(&data);
    assert_eq!(result, data);
}

#[test]
fn zero_blocks() {
    let data: [u8; 4] = [0b00000000, 0b11111111, 0b00000000, 0b11111111];
    let result = round_trip(&data);
    assert_eq!(result, data);
}

#[test]
fn empty_input_round_trips() {
    assert_eq!(compress(Vec::new()), Vec::<u8>::new());
    assert_eq!(decompress(Vec::new()), Ok(Vec::new()));
}

#[test]
fn single_byte_is_one_block() {
    let blocks = merged_blocks(&[0x7F]);
    assert_eq!(blocks, vec![(0, 1, vec![0x7F, 0x7F])]);
    assert_eq!(compress(vec![0x7F]), vec![0x00, 0x7F]);
    assert_eq!(round_trip(&[0x7F]), vec![0x7F]);
}

#[test]
fn thirty_three_equal_bytes_split_in_two() {
    let data = vec![0xAAu8; 33];
    let blocks = merged_blocks(&data);
    assert!(blocks.len() >= 2);
    assert!(blocks.iter().all(|b| b.1 <= 32));
    assert_eq!(blocks[0].1, 32);
    assert_eq!(blocks[0].0, 7);
    assert_eq!(round_trip(&data), data);
}

#[test]
fn alternating_bytes_form_one_block_per_window() {
    let data: Vec<u8> = (0..40).map(|i| if i % 2 == 0 { 0x00 } else { 0xFF }).collect();
    let blocks = merged_blocks(&data);
    assert_eq!(blocks.len(), 2);
    assert_eq!((blocks[0].0, blocks[0].1), (0, 32));
    assert_eq!((blocks[1].0, blocks[1].1), (0, 8));
    assert_eq!(round_trip(&data), data);
}

#[test]
fn long_input_round_trips() {
    let data: Vec<u8> = (0..1000u32).map(|i| ((i * 37) % 251) as u8 ^ ((i / 7) as u8)).collect();
    assert_eq!(round_trip(&data), data);
    let blocks = merged_blocks(&data);
    assert!(blocks.iter().all(|b| 1 <= b.1 && b.1 <= 32 && b.0 <= 7));
}

#[test]
fn every_byte_value_round_trips() {
    let data: Vec<u8> = (0..=255u8).collect();
    assert_eq!(round_trip(&data), data);
}

#[test]
fn header_byte_layout() {
    let h = BlockHeader { bytes_length: 32, matched_bits: 7 };
    assert_eq!(h.get_byte(), 0xFF);
    let h = BlockHeader { bytes_length: 1, matched_bits: 0 };
    assert_eq!(h.get_byte(), 0x00);
    let h = BlockHeader { bytes_length: 10, matched_bits: 3 };
    assert_eq!(h.get_byte(), 0b011_01001);
}

#[test]
fn header_round_trips_for_all_shapes() {
    for matched_bits in 0..=7u8 {
        for bytes_length in 1..=32u8 {
            let h = BlockHeader { bytes_length, matched_bits };
            assert_eq!(BlockHeader::from_byte(h.get_byte()), h);
        }
    }
}

#[test]
fn score_formula() {
    assert_eq!(BlockHeader::calc_compressed_bits(1, 7), -8);
    assert_eq!(BlockHeader::calc_compressed_bits(10, 6), 46);
    assert_eq!(BlockHeader::calc_compressed_bits(32, 0), -8);
    let h = BlockHeader { bytes_length: 4, matched_bits: 5 };
    assert_eq!(h.get_bits_compressed(), 7);
}

#[test]
fn equal_pair_packs_shared_prefix_once() {
    // Two equal bytes share all seven counted bits: one block (7, 2).
    let blocks = merged_blocks(&[0x41, 0x41]);
    assert_eq!(blocks, vec![(7, 2, vec![0x41, 0x41, 0x41])]);
    // header 0b111_00001, prefix 0b0100000, residuals 1 and 1.
    assert_eq!(compress(vec![0x41, 0x41]), vec![0b1110_0001, 0b0100_0001, 0b1000_0000]);
}

#[test]
fn a_full_byte_after_the_last_block_starts_a_new_one() {
    // The trailing 0x00 is a whole header, so the stream ends inside its block.
    assert_eq!(decompress(vec![0x00, 0x7F, 0x00]), Err(DecodeError::TruncatedStream));
}

#[test]
fn truncated_stream_is_an_error() {
    // A header announcing two bytes with no shared bits, and only one byte after it.
    assert_eq!(decompress(vec![0b000_00001, 0x12]), Err(DecodeError::TruncatedStream));
}

#[test]
fn trailing_padding_is_a_clean_end() {
    // Seventeen bits of blocks, then seven zero bits of padding.
    let mut d = decompress_blocks(ByteSource::new(vec![0b1110_0001, 0b0100_0001, 0b1000_0000]));
    assert_eq!(d.next(), Ok(Some(0x41)));
    assert_eq!(d.next(), Ok(Some(0x41)));
    assert_eq!(d.next(), Ok(None));
}

#[test]
fn packer_streams_bytes() {
    let mut p = compress_blocks(merge_blocks(to_compression_blocks(ByteSource::new(vec![0x7F]))));
    assert_eq!(p.next(), Some(0x00));
    assert_eq!(p.next(), Some(0x7F));
    assert_eq!(p.next(), None);
}

#[test]
fn later_peak_after_a_decline_is_not_taken() {
    // Three equal bytes score 6; the fourth narrows the prefix to three bits
    // (a decline, so the three-byte block is recorded). The block then grows
    // to ten bytes scoring 19, but with no second decline the recorded
    // three-byte candidate is what the search returns.
    let data = [0x00, 0x00, 0x00, 0x10, 0x00, 0x00, 0x00, 0x00, 0x00, 0x00];
    let blocks = merged_blocks(&data);
    assert_eq!(
        blocks,
        vec![
            (7, 3, vec![0x00, 0x00, 0x00, 0x00]),
            (3, 7, vec![0x10, 0x10, 0x00, 0x00, 0x00, 0x00, 0x00, 0x00]),
        ]
    );
    assert_eq!(round_trip(&data), data);
}

#[test]
fn degenerate_tail_is_one_byte_block() {
    // 33 alternating bytes: one 32-byte block, then the last byte alone.
    let data: Vec<u8> = (0..33).map(|i| if i % 2 == 0 { 0x00 } else { 0xFF }).collect();
    let blocks = merged_blocks(&data);
    assert_eq!(blocks.len(), 2);
    assert_eq!((blocks[0].0, blocks[0].1), (0, 32));
    assert_eq!(blocks[1], (0, 1, vec![0x00, 0x00]));
    assert_eq!(round_trip(&data), data);
}

#[test]
fn shared_prefix_only_narrows_as_a_block_grows() {
    // 0x3F agrees with 0x00 on two leading bits; the third byte equals the
    // reference byte, yet the block keeps the narrowed two-bit prefix.
    let blocks = merged_blocks(&[0x00, 0x3F, 0x00]);
    assert_eq!(blocks, vec![(2, 3, vec![0x00, 0x00, 0x3F, 0x00])]);
    assert_eq!(round_trip(&[0x00, 0x3F, 0x00]), vec![0x00, 0x3F, 0x00]);
}

#[test]
fn decline_records_the_better_block() {
    // The third byte shares only two bits with 0xF0: the two-byte block with
    // seven shared bits scores best and is cut first.
    let data = [0xF0, 0xF1, 0xC0, 0xF0];
    let blocks = merged_blocks(&data);
    assert_eq!(blocks, vec![(7, 2, vec![0xF0, 0xF0, 0xF1]), (2, 2, vec![0xC0, 0xC0, 0xF0])]);
    assert_eq!(round_trip(&data), data);
}
