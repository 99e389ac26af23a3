use vstd::prelude::*;

verus! {

/// Whether `a` and `b` differ in bit `i`, counting from the most significant
/// bit (`i == 0`).
pub open spec fn bit_differs(a: u8, b: u8, i: u8) -> bool {
    ((a ^ b) >> ((7 - i) as u8)) & 1 == 1
}

/// Whether `a` and `b` agree on their top `k` bits (`k <= 8`).
pub open spec fn shares_top(a: u8, b: u8, k: u8) -> bool {
    k == 0 || (a ^ b) >> ((8 - k) as u8) == 0
}

/// Leading bits on which `a` and `b` agree, scanning from bit `i` and stopping
/// at the first disagreement or at `cap`.
pub open spec fn common_prefix_from(a: u8, b: u8, i: u8, cap: u8) -> u8
    recommends
        cap <= 8,
    decreases cap - i,
{
    if i >= cap || bit_differs(a, b, i) {
        i
    } else {
        common_prefix_from(a, b, (i + 1) as u8, cap)
    }
}

/// Number of leading bits on which `a` and `b` agree, at most `cap`.
pub open spec fn common_prefix(a: u8, b: u8, cap: u8) -> u8 {
    if cap == 0 { 0 } else { common_prefix_from(a, b, 0, cap) }
}

proof fn lemma_shares_top_step(a: u8, b: u8, i: u8)
    by (bit_vector)
    requires
        i < 8,
        i == 0 || (a ^ b) >> ((8 - i) as u8) == 0,
        ((a ^ b) >> ((7 - i) as u8)) & 1 != 1,
    ensures
        (a ^ b) >> ((8 - (i + 1)) as u8) == 0,
{
}

/// Agreeing on the top `k` bits implies agreeing on fewer.
pub proof fn lemma_shares_top_weaken(a: u8, b: u8, k: u8, j: u8)
    requires
        j <= k <= 8,
        shares_top(a, b, k),
    ensures
        shares_top(a, b, j),
{
    if j > 0 {
        assert((a ^ b) >> ((8 - j) as u8) == 0) by (bit_vector)
            requires
                0 < j <= k <= 8,
                (a ^ b) >> ((8 - k) as u8) == 0,
        ;
    }
}

proof fn lemma_common_prefix_from(a: u8, b: u8, i: u8, cap: u8)
    requires
        i <= cap <= 8,
        shares_top(a, b, i),
    ensures
        i <= common_prefix_from(a, b, i, cap) <= cap,
        shares_top(a, b, common_prefix_from(a, b, i, cap)),
    decreases cap - i,
{
    if i < cap && !bit_differs(a, b, i) {
        lemma_shares_top_step(a, b, i);
        lemma_common_prefix_from(a, b, (i + 1) as u8, cap);
    }
}

/// The common prefix is bounded by its cap and really is shared.
pub proof fn lemma_common_prefix(a: u8, b: u8, cap: u8)
    requires
        cap <= 8,
    ensures
        common_prefix(a, b, cap) <= cap,
        shares_top(a, b, common_prefix(a, b, cap)),
{
    if cap > 0 {
        lemma_common_prefix_from(a, b, 0, cap);
    }
}

/// Counts the leading bits on which `left` and `right` agree, scanning from
/// the most significant bit and stopping at the first disagreement or after
/// `length` bits.
pub fn match_bits(left: u8, right: u8, length: u8) -> (r: u8)
    requires
        length <= 8,
    ensures
        r == common_prefix(left, right, length),
        r <= length,
        shares_top(left, right, r),
{
    proof {
        lemma_common_prefix(left, right, length);
    }
    let match_result: u8 = !(left ^ right);
    let mut mask: u8 = 1 << 7;
    assert(1u8 << 7u8 == 128u8 >> 0u8) by (bit_vector);
    let mut bits_left: u8 = 8;
    while bits_left > (8 - length)
        invariant
            length <= 8,
            8 - length <= bits_left <= 8,
            match_result == !(left ^ right),
            mask == 128u8 >> ((8 - bits_left) as u8),
            length > 0 ==> common_prefix_from(left, right, (8 - bits_left) as u8, length)
                == common_prefix(left, right, length),
            length == 0 ==> bits_left == 8,
        ensures
            length > 0 ==> common_prefix_from(left, right, (8 - bits_left) as u8, length) == 8
                - bits_left,
            8 - length <= bits_left <= 8,
        decreases bits_left,
    {
        let i: u8 = 8 - bits_left;
        assert((match_result & mask != mask) == bit_differs(left, right, i)) by (bit_vector)
            requires
                i < 8,
                match_result == !(left ^ right),
                mask == 128u8 >> i,
        ;
        if match_result & mask != mask {
            break;
        }
        assert(mask >> 1 == 128u8 >> ((i + 1) as u8)) by (bit_vector)
            requires
                i < 8,
                mask == 128u8 >> i,
        ;
        bits_left -= 1;
        mask >>= 1;
    }
    8 - bits_left
}

} // verus!
