//! Character sources that the parser reads from.

use vstd::prelude::*;
use crate::strings::{lossy_string, utf8_lossy};

verus! {

/// The character at `pos`, or `None` past the end.
pub open spec fn char_at(text: Seq<char>, pos: nat) -> Option<char> {
    if pos < text.len() {
        Some(text[pos as int])
    } else {
        None
    }
}

/// Whitespace as sources see it: space, tab, line feed and carriage return.
pub open spec fn is_source_space(c: char) -> bool {
    c == ' ' || c == '\t' || c == '\n' || c == '\r'
}

/// A stream of characters read through a cursor.
///
/// A source is modelled as its whole text and the position of the cursor in
/// it. No operation changes the text.
pub trait ISource {
    /// Every character of the source, in order.
    spec fn text(&self) -> Seq<char>;

    /// The position of the cursor in `text()`.
    spec fn pos(&self) -> nat;

    /// Moves the cursor one character on; at the end it stays there.
    fn next(&mut self)
        ensures
            final(self).text() == old(self).text(),
            final(self).pos() == (if old(self).pos() < old(self).text().len() {
                old(self).pos() + 1
            } else {
                old(self).pos()
            }),
    ;

    /// The character under the cursor, or `None` at the end.
    fn current(&mut self) -> (r: Option<char>)
        ensures
            final(self).text() == old(self).text(),
            final(self).pos() == old(self).pos(),
            r == char_at(old(self).text(), old(self).pos()),
    ;

    /// Whether a character is under the cursor.
    fn more(&mut self) -> (r: bool)
        ensures
            final(self).text() == old(self).text(),
            final(self).pos() == old(self).pos(),
            r == (old(self).pos() < old(self).text().len()),
    ;

    /// Moves the cursor to the start.
    fn reset(&mut self)
        ensures
            final(self).text() == old(self).text(),
            final(self).pos() == 0,
    ;

    /// Moves the cursor one character back; at the start it stays there.
    fn backup(&mut self)
        ensures
            final(self).text() == old(self).text(),
            final(self).pos() == (if old(self).pos() > 0 {
                (old(self).pos() - 1) as nat
            } else {
                0
            }),
    ;

    /// Whether `c` is whitespace: space, tab, line feed or carriage return.
    fn is_whitespace(&self, c: char) -> (r: bool)
        ensures
            r == is_source_space(c),
    {
        c == ' ' || c == '\t' || c == '\n' || c == '\r'
    }
}

/// A source over bytes held in memory; each byte is read as the character
/// with the same code.
pub struct Buffer {
    buffer: Vec<u8>,
    position: usize,
}

impl Buffer {
    #[verifier::type_invariant]
    spec fn inv(self) -> bool {
        self.position <= self.buffer@.len()
    }

    /// The bytes of the buffer.
    pub closed spec fn bytes(&self) -> Seq<u8> {
        self.buffer@
    }

    /// A source over a copy of `to_add`, its cursor at the start.
    pub fn new(to_add: &[u8]) -> (r: Buffer)
        ensures
            r.bytes() == to_add@,
            r.text() == to_add@.map_values(|b: u8| b as char),
            r.pos() == 0,
    {
        Buffer { buffer: vstd::slice::slice_to_vec(to_add), position: 0 }
    }

    /// The bytes decoded as UTF-8, each invalid part replaced by U+FFFD.
    pub fn to_string(&self) -> (r: String)
        ensures
            r@ == utf8_lossy(self.bytes()),
            (forall|i: int| 0 <= i < self.bytes().len() ==> #[trigger] self.bytes()[i] < 0x80)
                ==> r@ == self.text(),
    {
        lossy_string(self.buffer.as_slice())
    }
}

impl ISource for Buffer {
    closed spec fn text(&self) -> Seq<char> {
        self.buffer@.map_values(|b: u8| b as char)
    }

    closed spec fn pos(&self) -> nat {
        self.position as nat
    }

    fn next(&mut self)
        ensures
            final(self).bytes() == old(self).bytes(),
    {
        proof {
            use_type_invariant(&*self);
        }
        if self.position < self.buffer.len() {
            self.position = self.position + 1;
        }
    }

    fn current(&mut self) -> (r: Option<char>)
        ensures
            final(self).bytes() == old(self).bytes(),
    {
        proof {
            use_type_invariant(&*self);
        }
        if self.position < self.buffer.len() {
            Some(self.buffer[self.position] as char)
        } else {
            None
        }
    }

    fn more(&mut self) -> (r: bool)
        ensures
            final(self).bytes() == old(self).bytes(),
    {
        proof {
            use_type_invariant(&*self);
        }
        self.position < self.buffer.len()
    }

    fn reset(&mut self)
        ensures
            final(self).bytes() == old(self).bytes(),
    {
        self.position = 0;
    }

    fn backup(&mut self)
        ensures
            final(self).bytes() == old(self).bytes(),
    {
        proof {
            use_type_invariant(&*self);
        }
        if self.position > 0 {
            self.position = self.position - 1;
        }
    }
}

} // verus!
