use vstd::prelude::*;

verus! {

/// A cursor over an in-memory byte sequence.
///
/// It yields bytes one at a time and never seeks, peeks or rewinds; the read
/// position only moves forward. Callers that pull bytes from a file or a
/// stream first collect them into a `Vec<u8>` and hand that over.
pub struct ByteCursor {
    bytes: Vec<u8>,
    pos: usize,
}

impl ByteCursor {
    /// The read position lies within the underlying buffer.
    pub closed spec fn wf(self) -> bool {
        self.pos <= self.bytes.len()
    }

    /// The bytes not yet consumed, in order.
    pub closed spec fn remaining(self) -> Seq<u8> {
        self.bytes@.skip(self.pos as int)
    }

    /// Wraps a byte buffer; the whole buffer is initially unread.
    pub fn new(bytes: Vec<u8>) -> (c: ByteCursor)
        ensures
            c.wf(),
            c.remaining() == bytes@,
    {
        let c = ByteCursor { bytes, pos: 0 };
        proof {
            assert(c.remaining() =~= c.bytes@);
        }
        c
    }

    /// Yields the next byte and advances past it, or reports that the
    /// sequence is exhausted (leaving the cursor unchanged).
    pub fn next(&mut self) -> (r: Option<u8>)
        requires
            old(self).wf(),
        ensures
            final(self).wf(),
            match r {
                Some(b) => old(self).remaining().len() > 0
                    && b == old(self).remaining()[0]
                    && final(self).remaining() == old(self).remaining().skip(1),
                None => old(self).remaining().len() == 0 && *final(self) == *old(self),
            },
    {
        if self.pos < self.bytes.len() {
            let b = self.bytes[self.pos];
            self.pos = self.pos + 1;
            proof {
                assert(self.remaining() =~= old(self).remaining().skip(1));
            }
            Some(b)
        } else {
            None
        }
    }
}

} // verus!
