use vstd::prelude::*;

verus! {

/// A pull source over an owned byte buffer: it hands out its bytes in order.
pub struct ByteSource {
    bytes: Vec<u8>,
    pos: usize,
}

impl View for ByteSource {
    type V = Seq<u8>;

    /// The bytes not yet handed out.
    closed spec fn view(&self) -> Seq<u8> {
        self.bytes@.skip(self.pos as int)
    }
}

impl ByteSource {
    pub closed spec fn wf(&self) -> bool {
        self.pos <= self.bytes.len()
    }

    pub fn new(bytes: Vec<u8>) -> (r: ByteSource)
        ensures
            r.wf(),
            r@ == bytes@,
    {
        let r = ByteSource { bytes, pos: 0 };
        assert(r@ =~= bytes@);
        r
    }

    /// Hands out the next byte, or `None` once all are out.
    pub fn next(&mut self) -> (r: Option<u8>)
        requires
            old(self).wf(),
        ensures
            final(self).wf(),
            old(self)@.len() == 0 ==> r is None && final(self)@ == old(self)@,
            old(self)@.len() > 0 ==> r == Some(old(self)@[0]) && final(self)@ == old(self)@.drop_first(),
    {
        if self.pos < self.bytes.len() {
            let b = self.bytes[self.pos];
            self.pos = self.pos + 1;
            assert(self@ =~= old(self)@.drop_first());
            Some(b)
        } else {
            None
        }
    }
}

} // verus!
