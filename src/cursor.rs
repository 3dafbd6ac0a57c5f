//! A seekable source of bytes held in memory.

use vstd::prelude::*;

verus! {

/// Bytes with a read position, as a file is read: reads go forward from the
/// position, seeks set it.
#[derive(Debug)]
pub struct ByteCursor {
    data: Vec<u8>,
    pos: usize,
}

impl ByteCursor {
    #[verifier::type_invariant]
    spec fn inv(self) -> bool {
        self.pos <= self.data@.len()
    }

    /// The bytes of the source.
    pub closed spec fn bytes(&self) -> Seq<u8> {
        self.data@
    }

    /// The read position.
    pub closed spec fn pos(&self) -> nat {
        self.pos as nat
    }

    /// A source over `data`, positioned at its start.
    pub fn new(data: Vec<u8>) -> (r: Self)
        ensures
            r.bytes() == data@,
            r.pos() == 0,
    {
        ByteCursor { data, pos: 0 }
    }

    /// The read position.
    pub fn position(&self) -> (r: usize)
        ensures
            r == self.pos(),
            r <= self.bytes().len(),
            self.bytes().len() <= usize::MAX,
    {
        proof {
            use_type_invariant(self);
            assert(self.data@.len() == self.data.len());
        }
        self.pos
    }

    /// Moves the read position to `pos`; a position past the end of the
    /// bytes is refused and the position stays as it was.
    pub fn seek_to(&mut self, pos: usize) -> (r: Result<(), ()>)
        ensures
            final(self).bytes() == old(self).bytes(),
            pos <= old(self).bytes().len() ==> r is Ok && final(self).pos() == pos,
            pos > old(self).bytes().len() ==> r is Err && final(self).pos() == old(self).pos(),
    {
        if pos <= self.data.len() {
            self.pos = pos;
            Ok(())
        } else {
            Err(())
        }
    }

    /// Reads the byte at the position and moves past it; `None` at the end.
    pub fn read_u8(&mut self) -> (r: Option<u8>)
        ensures
            final(self).bytes() == old(self).bytes(),
            old(self).pos() < old(self).bytes().len() ==> r == Some(old(self).bytes()[old(self).pos() as int])
                && final(self).pos() == old(self).pos() + 1,
            old(self).pos() >= old(self).bytes().len() ==> r is None && final(self).pos() == old(
                self,
            ).pos(),
    {
        if self.pos < self.data.len() {
            let b = self.data[self.pos];
            self.pos = self.pos + 1;
            Some(b)
        } else {
            None
        }
    }
}

} // verus!
