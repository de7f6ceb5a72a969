use vstd::prelude::*;

verus! {

/// An in-memory reader over a byte buffer: the bytes and the position of the next byte to read.
pub struct ByteCursor {
    bytes: Vec<u8>,
    pos: usize,
}

/// Reading ran past the end of the buffer.
#[derive(Debug, Clone, Copy, PartialEq, Eq)]
pub enum ReadError {
    UnexpectedEof,
}

impl ByteCursor {
    /// All the bytes, read or not.
    pub closed spec fn data(&self) -> Seq<u8> {
        self.bytes@
    }

    /// The position of the next byte to read.
    pub closed spec fn pos(&self) -> nat {
        self.pos as nat
    }

    /// The bytes not yet read.
    pub open spec fn remaining(&self) -> Seq<u8> {
        self.data().skip(self.pos() as int)
    }

    /// The position never passes the end of the bytes.
    #[verifier::type_invariant]
    pub open spec fn wf(&self) -> bool {
        self.pos() <= self.data().len()
    }

    /// A cursor at the start of `bytes`.
    pub fn new(bytes: Vec<u8>) -> (c: ByteCursor)
        ensures
            c.wf(),
            c.data() == bytes@,
            c.pos() == 0,
    {
        ByteCursor { bytes, pos: 0 }
    }

    /// The position of the next byte to read.
    pub fn position(&self) -> (p: u64)
        ensures
            p == self.pos(),
    {
        self.pos as u64
    }

    /// Reads the next byte, or fails at the end of the bytes (and stays there).
    pub fn read_u8(&mut self) -> (r: Result<u8, ReadError>)
        ensures
            final(self).wf(),
            final(self).data() == old(self).data(),
            old(self).pos() < old(self).data().len() ==> r == Ok::<u8, ReadError>(
                old(self).data()[old(self).pos() as int],
            ) && final(self).pos() == old(self).pos() + 1,
            old(self).pos() >= old(self).data().len() ==> r == Err::<u8, ReadError>(
                ReadError::UnexpectedEof,
            ) && final(self).pos() == old(self).pos(),
    {
        proof {
            use_type_invariant(&*self);
        }
        if self.pos < self.bytes.len() {
            let b = self.bytes[self.pos];
            self.pos = self.pos + 1;
            Ok(b)
        } else {
            Err(ReadError::UnexpectedEof)
        }
    }
}

impl ByteCursor {
    /// All the bytes, read or not.
    pub(crate) fn bytes(&self) -> (r: &Vec<u8>)
        ensures
            r@ == self.data(),
    {
        &self.bytes
    }

    /// The position of the next byte to read.
    pub(crate) fn index(&self) -> (r: usize)
        ensures
            r == self.pos(),
    {
        self.pos
    }

    /// Moves past the next `n` bytes.
    pub(crate) fn advance(&mut self, n: usize)
        requires
            old(self).pos() + n <= old(self).data().len(),
        ensures
            final(self).wf(),
            final(self).data() == old(self).data(),
            final(self).pos() == old(self).pos() + n,
    {
        let len = self.bytes.len();
        assert(self.pos + n <= len);
        self.pos = self.pos + n;
    }
}

} // verus!
