//! A stream of bytes that is read once, from front to back.

use vstd::prelude::*;

verus! {

/// A stream over bytes that are held in memory.
pub struct ByteStream {
    bytes: Vec<u8>,
    pos: usize,
}

impl View for ByteStream {
    type V = Seq<u8>;

    /// The bytes that are still to come.
    closed spec fn view(&self) -> Seq<u8> {
        self.bytes@.skip(self.pos as int)
    }
}

impl ByteStream {
    #[verifier::type_invariant]
    closed spec fn inv(&self) -> bool {
        self.pos <= self.bytes@.len()
    }

    /// Creates a stream that gives `bytes` from first to last.
    pub fn new(bytes: Vec<u8>) -> (stream: ByteStream)
        ensures
            stream@ == bytes@,
    {
        proof {
            assert(bytes@.skip(0) =~= bytes@);
        }
        ByteStream { bytes, pos: 0 }
    }

    /// Takes the next byte off the stream; `None` at its end.
    pub fn next_byte(&mut self) -> (byte: Option<u8>)
        ensures
            match byte {
                Some(b) => old(self)@.len() > 0 && b == old(self)@[0] && final(self)@ == old(
                    self,
                )@.skip(1),
                None => old(self)@.len() == 0 && final(self)@ == old(self)@,
            },
    {
        proof {
            use_type_invariant(&*self);
        }
        if self.pos < self.bytes.len() {
            let b = self.bytes[self.pos];
            proof {
                assert(self.bytes@.skip(self.pos as int).skip(1) =~= self.bytes@.skip(
                    self.pos + 1,
                ));
            }
            self.pos = self.pos + 1;
            Some(b)
        } else {
            None
        }
    }
}

} // verus!
