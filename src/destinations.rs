//! Byte destinations that output is written to.

use vstd::prelude::*;
use vstd::string::StringSliceAdditionalSpecFns;
use crate::strings::{lossy_string, utf8_lossy};

verus! {

/// An append-only sink of bytes.
pub trait IDestination {
    /// Every byte written so far, in order.
    spec fn content(&self) -> Seq<u8>;

    /// Appends one byte.
    fn add_byte(&mut self, byte: u8)
        ensures
            final(self).content() == old(self).content().push(byte),
    ;

    /// Appends the UTF-8 bytes of a string.
    fn add_bytes(&mut self, bytes: &str)
        ensures
            final(self).content() == old(self).content() + bytes.spec_bytes(),
    ;

    /// Removes every byte.
    fn clear(&mut self)
        ensures
            final(self).content() == Seq::<u8>::empty(),
    ;

    /// The byte written last, or `None` when there is none.
    fn last(&self) -> (r: Option<u8>)
        ensures
            r == (if self.content().len() == 0 {
                None
            } else {
                Some(self.content().last())
            }),
    ;
}

/// A destination that keeps the bytes in memory.
pub struct Buffer {
    pub buffer: Vec<u8>,
}

impl Buffer {
    /// An empty buffer.
    pub fn new() -> (r: Buffer)
        ensures
            r.buffer@ == Seq::<u8>::empty(),
    {
        Buffer { buffer: Vec::new() }
    }

    /// The bytes decoded as UTF-8, each invalid part replaced by U+FFFD.
    pub fn to_string(&self) -> (r: String)
        ensures
            r@ == utf8_lossy(self.buffer@),
            (forall|i: int| 0 <= i < self.buffer@.len() ==> #[trigger] self.buffer@[i] < 0x80)
                ==> r@ == self.buffer@.map_values(|b: u8| b as char),
    {
        lossy_string(self.buffer.as_slice())
    }
}

impl IDestination for Buffer {
    open spec fn content(&self) -> Seq<u8> {
        self.buffer@
    }

    fn add_byte(&mut self, byte: u8) {
        self.buffer.push(byte);
    }

    fn add_bytes(&mut self, bytes: &str) {
        let b = bytes.as_bytes();
        let mut i: usize = 0;
        while i < b.len()
            invariant
                i <= b@.len(),
                b@ == bytes.spec_bytes(),
                self.buffer@ == old(self).buffer@ + b@.subrange(0, i as int),
            decreases b@.len() - i,
        {
            self.buffer.push(b[i]);
            i = i + 1;
            assert(self.buffer@ =~= old(self).buffer@ + b@.subrange(0, i as int));
        }
        assert(b@.subrange(0, b@.len() as int) =~= b@);
    }

    fn clear(&mut self) {
        self.buffer.clear();
    }

    fn last(&self) -> (r: Option<u8>) {
        let n = self.buffer.len();
        if n == 0 {
            None
        } else {
            Some(self.buffer[n - 1])
        }
    }
}

} // verus!
