use vstd::prelude::*;
use crate::source::ByteSource;

verus! {

/// Bit `k` of `v`, counting from the least significant bit (`k < 8`).
pub open spec fn bit(v: u8, k: int) -> bool {
    (v >> (k as u8)) & 1 == 1
}

/// The low `w` bits of `v`, most significant first.
pub open spec fn low_bits(v: u8, w: int) -> Seq<bool> {
    Seq::new(w as nat, |i: int| bit(v, w - 1 - i))
}

/// The eight bits of a byte, most significant first.
pub open spec fn byte_bits(b: u8) -> Seq<bool> {
    low_bits(b, 8)
}

/// The bits of a byte sequence, each byte most significant bit first.
pub open spec fn bytes_bits(s: Seq<u8>) -> Seq<bool>
    decreases s.len(),
{
    if s.len() == 0 {
        seq![]
    } else {
        byte_bits(s[0]) + bytes_bits(s.drop_first())
    }
}

/// `b` followed by the zero bits that complete its last byte.
pub open spec fn padded(b: Seq<bool>) -> Seq<bool> {
    b + Seq::new(((8 - b.len() % 8) % 8) as nat, |i: int| false)
}

pub open spec fn bit_value(b: bool) -> int {
    if b { 1 } else { 0 }
}

/// The byte whose bits, most significant first, are the first eight of `b`.
pub open spec fn byte_from_bits(b: Seq<bool>) -> u8 {
    (bit_value(b[0]) * 128 + bit_value(b[1]) * 64 + bit_value(b[2]) * 32 + bit_value(b[3]) * 16
        + bit_value(b[4]) * 8 + bit_value(b[5]) * 4 + bit_value(b[6]) * 2 + bit_value(b[7])) as u8
}

proof fn lemma_bit_is_digit(x: u8, k: u8)
    requires
        k < 8,
    ensures
        bit_value(bit(x, k as int)) == ((x >> k) & 1) as int,
{
    assert((x >> k) & 1 == 1 || (x >> k) & 1 == 0) by (bit_vector);
}

/// A byte is the byte of its bits.
pub proof fn lemma_byte_from_bits(x: u8, b: Seq<bool>)
    requires
        byte_bits(x) == b,
    ensures
        byte_from_bits(b) == x,
{
    lemma_bit_is_digit(x, 0);
    lemma_bit_is_digit(x, 1);
    lemma_bit_is_digit(x, 2);
    lemma_bit_is_digit(x, 3);
    lemma_bit_is_digit(x, 4);
    lemma_bit_is_digit(x, 5);
    lemma_bit_is_digit(x, 6);
    lemma_bit_is_digit(x, 7);
    assert(b[0] == bit(x, 7) && b[1] == bit(x, 6) && b[2] == bit(x, 5) && b[3] == bit(x, 4));
    assert(b[4] == bit(x, 3) && b[5] == bit(x, 2) && b[6] == bit(x, 1) && b[7] == bit(x, 0));
    assert(bit_value(bit(x, 7 as u8 as int)) == ((x >> 7u8) & 1) as int);
    assert(bit_value(bit(x, 6 as u8 as int)) == ((x >> 6u8) & 1) as int);
    assert(bit_value(bit(x, 5 as u8 as int)) == ((x >> 5u8) & 1) as int);
    assert(bit_value(bit(x, 4 as u8 as int)) == ((x >> 4u8) & 1) as int);
    assert(bit_value(bit(x, 3 as u8 as int)) == ((x >> 3u8) & 1) as int);
    assert(bit_value(bit(x, 2 as u8 as int)) == ((x >> 2u8) & 1) as int);
    assert(bit_value(bit(x, 1 as u8 as int)) == ((x >> 1u8) & 1) as int);
    assert(bit_value(bit(x, 0 as u8 as int)) == ((x >> 0u8) & 1) as int);
    assert(x == ((x >> 7u8) & 1) * 128 + ((x >> 6u8) & 1) * 64 + ((x >> 5u8) & 1) * 32 + ((x
        >> 4u8) & 1) * 16 + ((x >> 3u8) & 1) * 8 + ((x >> 2u8) & 1) * 4 + ((x >> 1u8) & 1) * 2 + ((x
        >> 0u8) & 1)) by (bit_vector);
}

proof fn lemma_set_bit(b: u8, f: u8, k: u8)
    by (bit_vector)
    requires
        1 <= f <= 8,
        k < 8,
    ensures
        (((b | (1u8 << ((f - 1) as u8))) >> k) & 1 == 1) == (k == f - 1 || (b >> k) & 1 == 1),
{
}

/// The write side of the accumulator: a partly filled byte, filled from its
/// most significant bit down.
pub struct BitWriter {
    byte: u8,
    free: u8,
}

impl BitWriter {
    pub closed spec fn wf(&self) -> bool {
        &&& 1 <= self.free <= 8
        &&& forall|k: int| 0 <= k < self.free ==> !#[trigger] bit(self.byte, k)
    }

    /// The bits written and not yet handed out as a byte.
    pub closed spec fn bits(&self) -> Seq<bool> {
        byte_bits(self.byte).take(8 - self.free)
    }

    pub fn new() -> (r: BitWriter)
        ensures
            r.wf(),
            r.bits().len() == 0,
    {
        let r = BitWriter { byte: 0, free: 8 };
        assert forall|k: int| 0 <= k < 8 implies !#[trigger] bit(0u8, k) by {
            let kk = k as u8;
            assert((0u8 >> kk) & 1 == 0) by (bit_vector);
        }
        r
    }

    fn push_bit(&mut self, value: bool) -> (r: Option<u8>)
        requires
            old(self).wf(),
        ensures
            final(self).wf(),
            old(self).bits().len() == 7 ==> (r matches Some(b) && byte_bits(b) == old(self).bits().push(value) && final(self).bits().len() == 0),
            old(self).bits().len() < 7 ==> r is None && final(self).bits() == old(self).bits().push(value),
    {
        let ghost before = byte_bits(self.byte);
        let f = self.free;
        if value {
            self.byte = self.byte | (1u8 << (self.free - 1));
        }
        assert forall|k: int| 0 <= k < 8 implies #[trigger] bit(self.byte, k) == (if k == f - 1 {
            value
        } else {
            bit(old(self).byte, k)
        }) by {
            if value {
                lemma_set_bit(old(self).byte, f, k as u8);
            }
        }
        self.free = self.free - 1;
        assert(byte_bits(self.byte).take(8 - self.free) =~= old(self).bits().push(value));
        if self.free == 0 {
            let b = self.byte;
            self.byte = 0;
            self.free = 8;
            assert forall|k: int| 0 <= k < 8 implies !#[trigger] bit(0u8, k) by {
                let kk = k as u8;
                assert((0u8 >> kk) & 1 == 0) by (bit_vector);
            }
            assert(byte_bits(b) =~= old(self).bits().push(value));
            Some(b)
        } else {
            None
        }
    }

    /// Appends the low `width` bits of `value`, most significant first. Hands
    /// back the byte that this completes, if any.
    pub fn push(&mut self, value: u8, width: u8) -> (r: Option<u8>)
        requires
            old(self).wf(),
            width <= 8,
        ensures
            final(self).wf(),
            ({
                let all = old(self).bits() + low_bits(value, width as int);
                &&& all.len() >= 8 ==> (r matches Some(b) && byte_bits(b) == all.take(8) && final(self).bits() == all.skip(8))
                &&& all.len() < 8 ==> r is None && final(self).bits() == all
            }),
    {
        let ghost start = old(self).bits();
        let ghost added = low_bits(value, width as int);
        let mut out: Option<u8> = None;
        let mut k: u8 = 0;
        while k < width
            invariant
                self.wf(),
                k <= width <= 8,
                start.len() < 8,
                added == low_bits(value, width as int),
                ({
                    let done = start + added.take(k as int);
                    &&& out matches Some(b) ==> done.len() >= 8 && byte_bits(b) == done.take(8)
                        && self.bits() == done.skip(8)
                    &&& out is None ==> done.len() < 8 && self.bits() == done
                }),
            decreases width - k,
        {
            let ghost done = start + added.take(k as int);
            let bit_value = (value >> (width - 1 - k)) & 1 == 1;
            assert(added[k as int] == bit_value);
            assert(start + added.take(k as int + 1) =~= done.push(bit_value));
            let pushed = self.push_bit(bit_value);
            if let Some(b) = pushed {
                out = Some(b);
                assert(done.push(bit_value).skip(8) =~= Seq::<bool>::empty());
                assert(done.push(bit_value).take(8) =~= done.push(bit_value));
            } else if let Some(b) = out {
                assert(done.push(bit_value).take(8) =~= done.take(8));
                assert(done.push(bit_value).skip(8) =~= done.skip(8).push(bit_value));
            }
            k = k + 1;
        }
        assert(added.take(width as int) =~= added);
        out
    }

    /// Hands out the partly filled byte, its unused low bits zero, and empties
    /// the accumulator; `None` when it is empty.
    pub fn flush(&mut self) -> (r: Option<u8>)
        requires
            old(self).wf(),
        ensures
            final(self).wf(),
            final(self).bits().len() == 0,
            old(self).bits().len() == 0 ==> r is None,
            old(self).bits().len() > 0 ==> (r matches Some(b) && byte_bits(b) == padded(old(self).bits())),
    {
        if self.free == 8 {
            return None;
        }
        let b = self.byte;
        assert(byte_bits(b) =~= padded(old(self).bits()));
        self.byte = 0;
        self.free = 8;
        assert forall|k: int| 0 <= k < 8 implies !#[trigger] bit(0u8, k) by {
            let kk = k as u8;
            assert((0u8 >> kk) & 1 == 0) by (bit_vector);
        }
        Some(b)
    }
}

proof fn lemma_shift_in_bit(v: u8, k: u8, b: u8, j: u8)
    by (bit_vector)
    requires
        k < 8,
        v >> k == 0,
        b <= 1,
        j <= k,
    ensures
        (v * 2 + b) as u8 >> ((k + 1) as u8) == 0 || k == 7,
        j == 0 ==> (((v * 2 + b) as u8 >> j) & 1 == 1) == (b == 1),
        j > 0 ==> (((v * 2 + b) as u8 >> j) & 1 == 1) == ((v >> ((j - 1) as u8)) & 1 == 1),
{
}

/// The read side of the accumulator: the unread low bits of the last byte
/// taken from the source, then the source's bytes.
pub struct BitReader {
    source: ByteSource,
    byte: u8,
    left: u8,
}

impl BitReader {
    pub closed spec fn wf(&self) -> bool {
        &&& self.source.wf()
        &&& self.left <= 8
    }

    /// The bits not yet read.
    pub closed spec fn bits(&self) -> Seq<bool> {
        low_bits(self.byte, self.left as int) + bytes_bits(self.source@)
    }

    pub fn new(source: ByteSource) -> (r: BitReader)
        requires
            source.wf(),
        ensures
            r.wf(),
            r.bits() == bytes_bits(source@),
    {
        let r = BitReader { source, byte: 0, left: 0 };
        assert(r.bits() =~= bytes_bits(source@));
        r
    }

    fn pull_bit(&mut self) -> (r: Option<bool>)
        requires
            old(self).wf(),
        ensures
            final(self).wf(),
            old(self).bits().len() == 0 ==> r is None && final(self).bits().len() == 0,
            old(self).bits().len() > 0 ==> r == Some(old(self).bits()[0]) && final(self).bits()
                == old(self).bits().drop_first(),
    {
        if self.left == 0 {
            assert(old(self).bits() =~= bytes_bits(self.source@));
            match self.source.next() {
                None => {
                    return None;
                },
                Some(b) => {
                    self.byte = b;
                    self.left = 8;
                    assert(self.bits() =~= old(self).bits());
                },
            }
        }
        let ghost before = self.bits();
        let value = (self.byte >> (self.left - 1)) & 1 == 1;
        self.left = self.left - 1;
        assert(self.bits() =~= before.drop_first());
        Some(value)
    }

    /// Reads the next `width` bits as the low bits of a byte. `None` when fewer
    /// remain; then all that remained is consumed.
    pub fn pull(&mut self, width: u8) -> (r: Option<u8>)
        requires
            old(self).wf(),
            width <= 8,
        ensures
            final(self).wf(),
            old(self).bits().len() >= width ==> (r matches Some(v) && low_bits(v, width as int)
                == old(self).bits().take(width as int) && final(self).bits() == old(self).bits().skip(
                width as int,
            ) && (width < 8 ==> v >> width == 0)),
            old(self).bits().len() < width ==> r is None && final(self).bits().len() == 0,
    {
        let ghost start = old(self).bits();
        let mut v: u8 = 0;
        let mut k: u8 = 0;
        assert(0u8 >> 0u8 == 0) by (bit_vector);
        while k < width
            invariant
                self.wf(),
                k <= width <= 8,
                k <= start.len(),
                start == old(self).bits(),
                self.bits() == start.skip(k as int),
                low_bits(v, k as int) == start.take(k as int),
                k < 8 ==> v >> k == 0,
            decreases width - k,
        {
            let ghost before = self.bits();
            match self.pull_bit() {
                None => {
                    assert(before.len() == start.len() - k);
                    return None;
                },
                Some(b) => {
                    let d: u8 = if b { 1 } else { 0 };
                    let v0 = v;
                    proof {
                        lemma_shift_in_bit(v0, k, d, 0);
                    }
                    assert(v0 * 2 + d < 256) by (bit_vector)
                        requires
                            k < 8,
                            v0 >> k == 0,
                            d <= 1,
                    ;
                    v = v0 * 2 + d;
                    assert(low_bits(v, k as int + 1) =~= start.take(k as int + 1)) by {
                        assert forall|i: int| 0 <= i < k + 1 implies #[trigger] low_bits(v, k as int + 1)[i]
                            == start.take(k as int + 1)[i] by {
                            let j = (k - i) as u8;
                            lemma_shift_in_bit(v0, k, d, j);
                            if i < k {
                                assert(low_bits(v0, k as int)[i] == start[i]);
                            }
                        }
                    }
                    assert(self.bits() =~= start.skip(k as int + 1));
                    k = k + 1;
                },
            }
        }
        Some(v)
    }
}

} // verus!
