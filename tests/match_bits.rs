use prefix_codec::bits::match_bits;

#[test]
fn compression_full_match() {
    let result = match_bits(2, 2, 8);
    assert_eq!(result, 8);
}

#[test]
fn compression_zero_match() {
    let result = match_bits(255, 0, 8);
    assert_eq!(result, 0);
}

#[test]
fn compression_partial_match() {
    let result = match_bits(73, 74, 8);
    assert_eq!(result, 6);
}

#[test]
fn compression_part_match() {
    let result = match_bits(72, 72, 3);
    assert_eq!(result, 3);
}

#[test]
fn to_compression_blocks_full_match() {
    let result = match_bits(2, 2, 8);
    assert_eq!(result, 8);
}

#[test]
fn to_compression_blocks_zero_match() {
    let result = match_bits(255, 0, 8);
    assert_eq!(result, 0);
}

#[test]
fn to_compression_blocks_partial_match() {
    let result = match_bits(73, 74, 8);
    assert_eq!(result, 6);
}

#[test]
fn to_compression_blocks_part_match() {
    let result = match_bits(72, 72, 3);
    assert_eq!(result, 3);
}

#[test]
fn match_bits_zero_cap() {
    assert_eq!(match_bits(0, 255, 0), 0);
}

#[test]
fn match_bits_stops_at_first_difference() {
    // 0b1010_0000 and 0b1011_0000 agree on three leading bits.
    assert_eq!(match_bits(0b1010_0000, 0b1011_0000, 7), 3);
}
