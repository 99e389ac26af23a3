use vstd::prelude::*;
use crate::bit_accumulator::{byte_bits, bytes_bits, lemma_byte_from_bits, low_bits, padded};
use crate::compress_blocks::{pack_units, unit_bits};
use crate::compression_block_header::{lemma_header_round_trip, BlockHeader};
use crate::decompress_blocks::{decompress_spec, unpack};
use crate::merge_blocks::{merge, merge_from, merge_run};
use crate::pipeline::compressed_bits;
use crate::bits::{common_prefix, shares_top};
use crate::to_compression_blocks::{
    blockize_blocks, encode_blocks, first_block, lemma_best_block, search, tentative, window,
    RawBlock, WINDOW,
};

verus! {

/// A block whose payload is its reference byte and then `bytes_length` bytes,
/// each sharing its top `matched_bits` bits with the reference byte.
pub open spec fn valid_block(b: RawBlock) -> bool {
    &&& b.0.wf()
    &&& b.1.len() == b.0.bytes_length + 1
    &&& forall|j: int| 1 <= j < b.1.len() ==> #[trigger] shares_top(b.1[0], b.1[j], b.0.matched_bits)
}

pub open spec fn all_valid(bs: Seq<RawBlock>) -> bool {
    forall|i: int| 0 <= i < bs.len() ==> valid_block(#[trigger] bs[i])
}

/// The input bytes a block sequence stands for: each payload without its
/// reference byte.
pub open spec fn blocks_data(bs: Seq<RawBlock>) -> Seq<u8>
    decreases bs.len(),
{
    if bs.len() == 0 {
        seq![]
    } else {
        bs[0].1.skip(1) + blocks_data(bs.drop_first())
    }
}

pub proof fn lemma_blocks_data_append(a: Seq<RawBlock>, b: Seq<RawBlock>)
    ensures
        blocks_data(a + b) == blocks_data(a) + blocks_data(b),
    decreases a.len(),
{
    if a.len() == 0 {
        assert(a + b =~= b);
    } else {
        lemma_blocks_data_append(a.drop_first(), b);
        assert((a + b).drop_first() =~= a.drop_first() + b);
        assert(blocks_data(a + b) =~= blocks_data(a) + blocks_data(b));
    }
}

/// The blockizer's blocks are valid and stand for exactly its input.
pub proof fn lemma_blockize(s: Seq<u8>)
    ensures
        all_valid(blockize_blocks(s)),
        blocks_data(blockize_blocks(s)) == s,
    decreases s.len(),
{
    if s.len() == 0 {
        assert(blocks_data(blockize_blocks(s)) =~= s);
    } else {
        let w = window(s);
        lemma_best_block(w);
        let h = first_block(s);
        let n = h.bytes_length as int;
        let p = seq![s[0]] + s.take(n);
        lemma_blockize(s.skip(n));
        let bs = blockize_blocks(s);
        assert(bs == seq![(h, p)] + blockize_blocks(s.skip(n)));
        assert forall|j: int| 1 <= j < p.len() implies #[trigger] shares_top(
            p[0],
            p[j],
            h.matched_bits,
        ) by {
            assert(p[j] == w[j - 1]);
            assert(shares_top(w[0], w[j - 1], h.matched_bits));
        }
        assert(valid_block((h, p)));
        assert forall|i: int| 0 <= i < bs.len() implies valid_block(#[trigger] bs[i]) by {
            if i > 0 {
                assert(bs[i] == blockize_blocks(s.skip(n))[i - 1]);
            }
        }
        assert(bs.drop_first() =~= blockize_blocks(s.skip(n)));
        assert(p.skip(1) =~= s.take(n));
        assert(blocks_data(bs) =~= s);
    }
}

proof fn lemma_run_data(run: Seq<RawBlock>)
    requires
        forall|i: int| 0 <= i < run.len() ==> (#[trigger] run[i]).1.len() == 2,
    ensures
        blocks_data(run) == Seq::new(run.len(), |i: int| run[i].1[1]),
    decreases run.len(),
{
    if run.len() > 0 {
        lemma_run_data(run.drop_first());
        assert(blocks_data(run) =~= Seq::new(run.len(), |i: int| run[i].1[1]));
    }
}

/// Merging keeps every block valid and the bytes they stand for.
pub proof fn lemma_merge_from(run: Seq<RawBlock>, bs: Seq<RawBlock>)
    requires
        all_valid(run),
        forall|i: int| 0 <= i < run.len() ==> (#[trigger] run[i]).0.bytes_length == 1,
        run.len() <= WINDOW,
        all_valid(bs),
    ensures
        all_valid(merge_from(run, bs)),
        blocks_data(merge_from(run, bs)) == blocks_data(run) + blocks_data(bs),
    decreases bs.len(), run.len(),
{
    let empty = Seq::<RawBlock>::empty();
    assert(blocks_data(empty) =~= Seq::<u8>::empty());
    if bs.len() > 0 {
        assert(valid_block(bs[0]));
        assert(blocks_data(bs) == bs[0].1.skip(1) + blocks_data(bs.drop_first()));
        assert(all_valid(bs.drop_first())) by {
            assert forall|i: int| 0 <= i < bs.drop_first().len() implies valid_block(
                #[trigger] bs.drop_first()[i],
            ) by {
                assert(bs.drop_first()[i] == bs[i + 1]);
            }
        }
    }
    if run.len() > 0 {
        if bs.len() > 0 && bs[0].0.bytes_length == 1 && run.len() < WINDOW {
            let run2 = run.push(bs[0]);
            assert forall|i: int| 0 <= i < run2.len() implies valid_block(#[trigger] run2[i])
                && run2[i].0.bytes_length == 1 by {
                if i < run.len() {
                    assert(run2[i] == run[i]);
                }
            }
            lemma_merge_from(run2, bs.drop_first());
            lemma_blocks_data_append(run, seq![bs[0]]);
            assert(run2 =~= run + seq![bs[0]]);
            assert(seq![bs[0]].drop_first() =~= empty);
            assert(blocks_data(seq![bs[0]]) =~= bs[0].1.skip(1));
            assert(blocks_data(run) + blocks_data(bs) =~= blocks_data(run2) + blocks_data(
                bs.drop_first(),
            ));
        } else {
            lemma_merge_from(empty, bs);
            let mr = merge_run(run);
            assert forall|i: int| 0 <= i < run.len() implies (#[trigger] run[i]).1.len() == 2 by {
                assert(valid_block(run[i]));
            }
            lemma_run_data(run);
            assert(mr.1.skip(1) =~= blocks_data(run));
            assert(valid_block(mr)) by {
                assert forall|j: int| 1 <= j < mr.1.len() implies #[trigger] shares_top(
                    mr.1[0],
                    mr.1[j],
                    mr.0.matched_bits,
                ) by {}
            }
            let out = merge_from(run, bs);
            assert(out == seq![mr] + merge_from(empty, bs));
            assert forall|i: int| 0 <= i < out.len() implies valid_block(#[trigger] out[i]) by {
                if i > 0 {
                    assert(out[i] == merge_from(empty, bs)[i - 1]);
                }
            }
            assert(out.drop_first() =~= merge_from(empty, bs));
            assert(blocks_data(out) =~= blocks_data(run) + blocks_data(bs));
        }
    } else if bs.len() == 0 {
        assert(blocks_data(merge_from(run, bs)) =~= blocks_data(run) + blocks_data(bs));
    } else if bs[0].0.bytes_length == 1 {
        let run2 = seq![bs[0]];
        assert forall|i: int| 0 <= i < run2.len() implies valid_block(#[trigger] run2[i])
            && run2[i].0.bytes_length == 1 by {}
        lemma_merge_from(run2, bs.drop_first());
        assert(run2.drop_first() =~= empty);
        assert(blocks_data(run2) =~= bs[0].1.skip(1));
        assert(blocks_data(run) =~= Seq::<u8>::empty());
        assert(blocks_data(merge_from(run, bs)) =~= blocks_data(run) + blocks_data(bs));
    } else {
        lemma_merge_from(empty, bs.drop_first());
        let out = merge_from(run, bs);
        assert(out == seq![bs[0]] + merge_from(empty, bs.drop_first()));
        assert forall|i: int| 0 <= i < out.len() implies valid_block(#[trigger] out[i]) by {
            if i > 0 {
                assert(out[i] == merge_from(empty, bs.drop_first())[i - 1]);
            }
        }
        assert(out.drop_first() =~= merge_from(empty, bs.drop_first()));
        assert(blocks_data(run) =~= Seq::<u8>::empty());
        assert(blocks_data(out) =~= blocks_data(run) + blocks_data(bs));
    }
}

/// Wire bits of the payload `p` of a block with header `h`, from index `idx`.
pub open spec fn payload_bits(h: BlockHeader, idx: int, p: Seq<u8>) -> Seq<bool>
    decreases p.len() - idx,
{
    if idx >= p.len() || idx < 0 {
        seq![]
    } else {
        unit_bits(h, idx, p[idx]) + payload_bits(h, idx + 1, p)
    }
}

/// Wire bits of one block: the header byte, then the payload's bits.
pub open spec fn block_bits(b: RawBlock) -> Seq<bool> {
    byte_bits(b.0.spec_byte()) + payload_bits(b.0, 0, b.1)
}

proof fn lemma_pack_payload(h: BlockHeader, idx: int, p: Seq<u8>, rest: Seq<u8>)
    requires
        h.wf(),
        p.len() == h.bytes_length + 1,
        0 <= idx <= h.bytes_length,
    ensures
        pack_units(Some(h), idx, p.skip(idx) + rest) == payload_bits(h, idx, p) + pack_units(
            None,
            0,
            rest,
        ),
    decreases h.bytes_length - idx,
{
    let s = p.skip(idx) + rest;
    assert(s[0] == p[idx]);
    if idx >= h.bytes_length {
        assert(s.drop_first() =~= rest);
        assert(payload_bits(h, idx + 1, p) =~= Seq::<bool>::empty());
        assert(pack_units(Some(h), idx, s) =~= payload_bits(h, idx, p) + pack_units(None, 0, rest));
    } else {
        assert(s.drop_first() =~= p.skip(idx + 1) + rest);
        lemma_pack_payload(h, idx + 1, p, rest);
        assert(pack_units(Some(h), idx, s) =~= payload_bits(h, idx, p) + pack_units(None, 0, rest));
    }
}

proof fn lemma_pack_blocks_step(bs: Seq<RawBlock>)
    requires
        bs.len() > 0,
        valid_block(bs[0]),
    ensures
        pack_units(None, 0, encode_blocks(bs)) == block_bits(bs[0]) + pack_units(
            None,
            0,
            encode_blocks(bs.drop_first()),
        ),
{
    let h = bs[0].0;
    let p = bs[0].1;
    let rest = encode_blocks(bs.drop_first());
    let s = encode_blocks(bs);
    assert(s == seq![h.spec_byte()] + p + rest);
    lemma_header_round_trip(h.matched_bits, h.bytes_length);
    assert(s.drop_first() =~= p.skip(0) + rest);
    lemma_pack_payload(h, 0, p, rest);
    assert(pack_units(None, 0, s) =~= block_bits(bs[0]) + pack_units(None, 0, rest));
}

proof fn lemma_reassemble_bit(a: u8, b: u8, m: u8, k: u8)
    by (bit_vector)
    requires
        1 <= m <= 7,
        8 - m <= k < 8,
        (a ^ b) >> ((8 - m) as u8) == 0,
    ensures
        ((b >> k) & 1 == 1) == (((a >> ((8 - m) as u8)) >> ((k - (8 - m)) as u8)) & 1 == 1),
{
}

/// A byte sharing its top `m` bits with `a` is the prefix bits of `a` followed
/// by its own low bits.
proof fn lemma_reassemble(a: u8, b: u8, m: u8)
    requires
        m <= 7,
        shares_top(a, b, m),
    ensures
        byte_bits(b) == (if m == 0 {
            seq![]
        } else {
            low_bits(a >> ((8 - m) as u8), m as int)
        }) + low_bits(b, 8 - m),
{
    if m == 0 {
        assert(byte_bits(b) =~= seq![] + low_bits(b, 8));
    } else {
        let prefix = low_bits(a >> ((8 - m) as u8), m as int);
        assert forall|i: int| 0 <= i < 8 implies #[trigger] byte_bits(b)[i] == (prefix + low_bits(
            b,
            8 - m,
        ))[i] by {
            if i < m {
                lemma_reassemble_bit(a, b, m, (7 - i) as u8);
            }
        }
        assert(byte_bits(b) =~= prefix + low_bits(b, 8 - m));
    }
}

proof fn lemma_unpack_payload(b: RawBlock, idx: int, rest: Seq<bool>)
    requires
        valid_block(b),
        1 <= idx <= b.0.bytes_length,
    ensures
        ({
            let h = b.0;
            let m = h.matched_bits;
            let prefix = if m == 0 {
                seq![]
            } else {
                low_bits(b.1[0] >> ((8 - m) as u8), m as int)
            };
            let tail = unpack(None, None, 0, rest);
            unpack(Some(h), Some(prefix), idx - 1, payload_bits(h, idx, b.1) + rest) == (
                b.1.subrange(idx, h.bytes_length + 1) + tail.0,
                tail.1,
            )
        }),
    decreases b.0.bytes_length - idx,
{
    let h = b.0;
    let p = b.1;
    let m = h.matched_bits;
    let prefix = if m == 0 {
        seq![]
    } else {
        low_bits(p[0] >> ((8 - m) as u8), m as int)
    };
    let tail = unpack(None, None, 0, rest);
    let bits = payload_bits(h, idx, p) + rest;
    let own = low_bits(p[idx], 8 - m);
    assert(unit_bits(h, idx, p[idx]) == own);
    assert(bits =~= own + (payload_bits(h, idx + 1, p) + rest));
    assert(bits.take(8 - m) =~= own);
    assert(bits.skip(8 - m) =~= payload_bits(h, idx + 1, p) + rest);
    assert(shares_top(p[0], p[idx], m));
    lemma_reassemble(p[0], p[idx], m);
    lemma_byte_from_bits(p[idx], prefix + own);
    if idx >= h.bytes_length {
        assert(payload_bits(h, idx + 1, p) =~= Seq::<bool>::empty());
        assert(payload_bits(h, idx + 1, p) + rest =~= rest);
        assert(p.subrange(idx, h.bytes_length + 1) =~= seq![p[idx]]);
    } else {
        lemma_unpack_payload(b, idx + 1, rest);
        assert(p.subrange(idx, h.bytes_length + 1) =~= seq![p[idx]] + p.subrange(
            idx + 1,
            h.bytes_length + 1,
        ));
    }
    assert(unpack(Some(h), Some(prefix), idx - 1, bits).0 =~= p.subrange(idx, h.bytes_length + 1)
        + tail.0);
}

proof fn lemma_unpack_block(b: RawBlock, rest: Seq<bool>)
    requires
        valid_block(b),
    ensures
        unpack(None, None, 0, block_bits(b) + rest) == (
            b.1.skip(1) + unpack(None, None, 0, rest).0,
            unpack(None, None, 0, rest).1,
        ),
{
    let h = b.0;
    let p = b.1;
    let m = h.matched_bits;
    let bits = block_bits(b) + rest;
    let hb = h.spec_byte();
    assert(bits.take(8) =~= byte_bits(hb));
    lemma_byte_from_bits(hb, bits.take(8));
    lemma_header_round_trip(h.matched_bits, h.bytes_length);
    let after = bits.skip(8);
    assert(after =~= unit_bits(h, 0, p[0]) + (payload_bits(h, 1, p) + rest));
    lemma_unpack_payload(b, 1, rest);
    assert(p.subrange(1, h.bytes_length + 1) =~= p.skip(1));
    assert(BlockHeader::spec_from_byte(hb) == h);
    if m == 0 {
        assert(after =~= payload_bits(h, 1, p) + rest);
        assert(unpack(None, None, 0, bits) == unpack(Some(h), Some(seq![]), 0, after));
    } else {
        let prefix = low_bits(p[0] >> ((8 - m) as u8), m as int);
        assert(after.take(m as int) =~= prefix);
        assert(after.skip(m as int) =~= payload_bits(h, 1, p) + rest);
        assert(unpack(None, None, 0, bits) == unpack(Some(h), None, 0, after));
        assert(unpack(Some(h), None, 0, after) == unpack(
            Some(h),
            Some(prefix),
            0,
            payload_bits(h, 1, p) + rest,
        ));
    }
}

proof fn lemma_unpack_blocks(bs: Seq<RawBlock>, z: Seq<bool>)
    requires
        all_valid(bs),
        z.len() < 8,
    ensures
        unpack(None, None, 0, pack_units(None, 0, encode_blocks(bs)) + z) == (blocks_data(bs), false),
    decreases bs.len(),
{
    if bs.len() == 0 {
        assert(pack_units(None, 0, encode_blocks(bs)) + z =~= z);
    } else {
        assert(valid_block(bs[0]));
        assert(all_valid(bs.drop_first())) by {
            assert forall|i: int| 0 <= i < bs.drop_first().len() implies valid_block(
                #[trigger] bs.drop_first()[i],
            ) by {
                assert(bs.drop_first()[i] == bs[i + 1]);
            }
        }
        lemma_pack_blocks_step(bs);
        let rest = pack_units(None, 0, encode_blocks(bs.drop_first())) + z;
        lemma_unpack_blocks(bs.drop_first(), z);
        assert(pack_units(None, 0, encode_blocks(bs)) + z =~= block_bits(bs[0]) + rest);
        lemma_unpack_block(bs[0], rest);
    }
}

/// Round trip: any byte stream whose bits are the padded compression of `s`
/// decodes to exactly `s`, with no truncation.
pub proof fn lemma_round_trip(s: Seq<u8>, c: Seq<u8>)
    requires
        bytes_bits(c) == padded(compressed_bits(s)),
    ensures
        decompress_spec(c) == (s, false),
{
    let blocks = blockize_blocks(s);
    lemma_blockize(s);
    lemma_merge_from(Seq::<RawBlock>::empty(), blocks);
    assert(blocks_data(Seq::<RawBlock>::empty()) =~= Seq::<u8>::empty());
    assert(Seq::<u8>::empty() + blocks_data(blocks) =~= s);
    let x = compressed_bits(s);
    let z = Seq::new(((8 - x.len() % 8) % 8) as nat, |i: int| false);
    lemma_unpack_blocks(merge(blocks), z);
}

/// No block the encoder emits, before or after merging, is longer than a
/// window, and none is empty.
pub proof fn lemma_block_length_bounded(s: Seq<u8>)
    ensures
        forall|i: int|
            0 <= i < blockize_blocks(s).len() ==> 1 <= (#[trigger] blockize_blocks(s)[i]).0.bytes_length
                <= WINDOW,
        forall|i: int|
            0 <= i < merge(blockize_blocks(s)).len() ==> 1 <= (
            #[trigger] merge(blockize_blocks(s))[i]).0.bytes_length <= WINDOW,
{
    lemma_blockize(s);
    lemma_merge_from(Seq::<RawBlock>::empty(), blockize_blocks(s));
    assert forall|i: int| 0 <= i < blockize_blocks(s).len() implies 1 <= (
    #[trigger] blockize_blocks(s)[i]).0.bytes_length <= WINDOW by {
        assert(valid_block(blockize_blocks(s)[i]));
    }
    assert forall|i: int| 0 <= i < merge(blockize_blocks(s)).len() implies 1 <= (
    #[trigger] merge(blockize_blocks(s))[i]).0.bytes_length <= WINDOW by {
        assert(valid_block(merge(blockize_blocks(s))[i]));
    }
}

/// Every two neighbouring bytes differ in their top bit, as in `00 FF 00 FF`.
pub open spec fn alternating(s: Seq<u8>) -> bool {
    forall|i: int| 0 <= i < s.len() - 1 ==> #[trigger] (s[i] >> 7u8) != s[i + 1] >> 7u8
}

proof fn lemma_alternating_tentative(w: Seq<u8>, n: int)
    requires
        2 <= n <= w.len(),
        w[0] >> 7u8 != w[1] >> 7u8,
    ensures
        tentative(w, n) == (BlockHeader { bytes_length: n as u8, matched_bits: 0 }),
    decreases n,
{
    if n == 2 {
        let a = w[0];
        let b = w[1];
        assert(((a ^ b) >> ((7 - 0u8) as u8)) & 1 == 1) by (bit_vector)
            requires
                a >> 7u8 != b >> 7u8,
        ;
        assert(common_prefix(a, b, 7) == 0);
    } else {
        lemma_alternating_tentative(w, n - 1);
    }
}

proof fn lemma_alternating_search(w: Seq<u8>, i: int)
    requires
        2 <= w.len(),
        1 <= i <= w.len(),
        w[0] >> 7u8 != w[1] >> 7u8,
    ensures
        search(w, i, None) == tentative(w, w.len() as int),
    decreases w.len() - i,
{
    if i < w.len() {
        lemma_alternating_tentative(w, i + 1);
        if i >= 2 {
            lemma_alternating_tentative(w, i);
            let t = tentative(w, i);
            assert(t.matched_bits == 0);
            assert(t.matched_bits as int * (t.bytes_length as int - 1) == 0);
        } else {
            assert(tentative(w, i) == BlockHeader { bytes_length: 1, matched_bits: 7 });
        }
        assert(tentative(w, i).spec_score() == -8);
        assert(tentative(w, i + 1).matched_bits as int * (tentative(w, i + 1).bytes_length as int
            - 1) == 0);
        assert(tentative(w, i + 1).spec_score() == -8);
        lemma_alternating_search(w, i + 1);
        assert(search(w, i, None) == search(w, i + 1, None));
    }
}

proof fn lemma_alternating_blocks(s: Seq<u8>)
    requires
        alternating(s),
    ensures
        blockize_blocks(s).len() == (s.len() + 31) / 32,
        forall|i: int|
            0 <= i < blockize_blocks(s).len() - 1 ==> (#[trigger] blockize_blocks(s)[i]).0.bytes_length
                != 1,
    decreases s.len(),
{
    if s.len() > 0 {
        let w = window(s);
        lemma_best_block(w);
        let n = first_block(s).bytes_length as int;
        if w.len() >= 2 {
            assert(w[0] == s[0] && w[1] == s[1]);
            lemma_alternating_search(w, 1);
            lemma_alternating_tentative(w, w.len() as int);
            assert(n == w.len());
        } else {
            assert(n == 1);
        }
        let t = s.skip(n);
        assert(alternating(t)) by {
            assert forall|i: int| 0 <= i < t.len() - 1 implies #[trigger] (t[i] >> 7u8) != t[i
                + 1] >> 7u8 by {
                assert(t[i] == s[i + n] && t[i + 1] == s[i + 1 + n]);
            }
        }
        lemma_alternating_blocks(t);
        let bs = blockize_blocks(s);
        assert(bs == seq![(first_block(s), seq![s[0]] + s.take(n))] + blockize_blocks(t));
        assert forall|i: int| 0 <= i < bs.len() - 1 implies (#[trigger] bs[i]).0.bytes_length
            != 1 by {
            if i > 0 {
                assert(bs[i] == blockize_blocks(t)[i - 1]);
            } else {
                assert(w.len() >= 2);
            }
        }
    }
}

proof fn lemma_merge_keeps_count(bs: Seq<RawBlock>)
    requires
        forall|i: int| 0 <= i < bs.len() - 1 ==> (#[trigger] bs[i]).0.bytes_length != 1,
    ensures
        merge(bs).len() == bs.len(),
    decreases bs.len(),
{
    let empty = Seq::<RawBlock>::empty();
    if bs.len() > 0 {
        let t = bs.drop_first();
        assert forall|i: int| 0 <= i < t.len() - 1 implies (#[trigger] t[i]).0.bytes_length
            != 1 by {
            assert(t[i] == bs[i + 1]);
        }
        lemma_merge_keeps_count(t);
        if bs[0].0.bytes_length == 1 {
            assert(t.len() == 0);
            assert(merge_from(seq![bs[0]], t) == seq![merge_run(seq![bs[0]])] + merge_from(
                empty,
                t,
            ));
        }
    }
}

/// A run of bytes whose neighbours share no leading bit is packed as one block
/// per window, not one block per byte.
pub proof fn lemma_alternating_merges(s: Seq<u8>)
    requires
        alternating(s),
    ensures
        merge(blockize_blocks(s)).len() == (s.len() + 31) / 32,
{
    lemma_alternating_blocks(s);
    lemma_merge_keeps_count(blockize_blocks(s));
}

} // verus!
