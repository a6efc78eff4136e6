//! Classified codepoints and a peekable, UTF-8-safe cursor over a `str`.

use vstd::prelude::*;

verus! {

use crate::str_index::StrIndex;
use crate::str_index::byte_offset;
use crate::str_index::lemma_byte_offset_le_total;
use crate::str_index::lemma_byte_offset_succ;
use crate::str_index::lemma_encode_utf8_len_ge;
use vstd::utf8::encode_utf8;

/// True for exactly the codepoints with the Unicode `White_Space` property.
pub open spec fn is_whitespace_char(c: char) -> bool {
    ||| c as u32 == 0x20
    ||| 0x09 <= c as u32 <= 0x0D
    ||| c as u32 == 0x85
    ||| c as u32 == 0xA0
    ||| c as u32 == 0x1680
    ||| 0x2000 <= c as u32 <= 0x200A
    ||| c as u32 == 0x2028
    ||| c as u32 == 0x2029
    ||| c as u32 == 0x202F
    ||| c as u32 == 0x205F
    ||| c as u32 == 0x3000
}

/// Decide [`is_whitespace_char`].
fn is_whitespace(c: char) -> (r: bool)
    ensures
        r == is_whitespace_char(c),
{
    let u = c as u32;
    u == 0x20 || (0x09 <= u && u <= 0x0D) || u == 0x85 || u == 0xA0 || u == 0x1680 || (0x2000 <= u
        && u <= 0x200A) || u == 0x2028 || u == 0x2029 || u == 0x202F || u == 0x205F || u == 0x3000
}

/// Types of quotes.
#[derive(Debug, Clone, Copy, PartialEq, Eq, Hash, Structural)]
pub enum Quote {
    /// '
    Single,
    /// "
    Double,
}

/// The quote character a [`Quote`] stands for.
pub open spec fn quote_char(q: Quote) -> char {
    match q {
        Quote::Single => '\'',
        Quote::Double => '"',
    }
}

/// A codepoint, classified by what it means to the tokenizer.
#[derive(Debug, Clone, Copy, PartialEq, Eq, Hash)]
pub enum Char {
    /// Any `char` that is classified as whitespace.
    Whitespace,
    /// Any `char` that is neither whitespace nor a quote.
    ///
    /// This contains 'A'..'Z', 'a'..'z', '0'..'9', symbols and all other such
    /// UTF-8 characters.
    Letter(char),
    /// ' and "
    Quote(Quote),
}

/// How the tokenizer sees codepoint `c`.
pub open spec fn classify(c: char) -> Char {
    if is_whitespace_char(c) {
        Char::Whitespace
    } else if c == '\'' {
        Char::Quote(Quote::Single)
    } else if c == '"' {
        Char::Quote(Quote::Double)
    } else {
        Char::Letter(c)
    }
}

impl From<char> for Char {
    /// Classify `c`.
    fn from(c: char) -> (r: Self) {
        if is_whitespace(c) {
            Char::Whitespace
        } else if c == '\'' {
            Char::Quote(Quote::Single)
        } else if c == '"' {
            Char::Quote(Quote::Double)
        } else {
            Char::Letter(c)
        }
    }
}

impl vstd::std_specs::convert::FromSpecImpl<char> for Char {
    open spec fn obeys_from_spec() -> bool {
        true
    }

    open spec fn from_spec(c: char) -> Char {
        classify(c)
    }
}

/// A cursor over the `char`s of a `str` that provides peeking and
/// UTF-8-safe access to the underlying `str`.
#[derive(Debug, Clone)]
pub struct StrChars<'a> {
    s: &'a str,
    pos: StrIndex,
}

impl<'a> StrChars<'a> {
    /// The string this cursor walks over.
    pub closed spec fn input_str(self) -> &'a str {
        self.s
    }

    /// The codepoints of the string this cursor walks over.
    pub open spec fn input(self) -> Seq<char> {
        self.input_str()@
    }

    /// Codepoint offset of the cursor.
    pub closed spec fn char_pos(self) -> int {
        self.pos.char_index()
    }

    /// The codepoints the cursor has not yet stepped over.
    pub open spec fn remaining(self) -> Seq<char> {
        self.input().skip(self.char_pos())
    }

    /// The byte offset of the cursor is the one belonging to its codepoint
    /// offset, and the byte length of the input fits the machine.
    pub closed spec fn on_boundary(self) -> bool {
        &&& self.pos.byte_index_spec() == byte_offset(self.input(), self.char_pos())
        &&& encode_utf8(self.input()).len() <= usize::MAX
    }

    /// The cursor stands inside the string, its byte offset on the codepoint
    /// boundary belonging to its codepoint offset.
    pub open spec fn wf(self) -> bool {
        &&& 0 <= self.char_pos() <= self.input().len()
        &&& self.on_boundary()
    }

    /// Create a new `StrChars`.
    pub fn new(s: &'a str) -> (r: Self)
        ensures
            r.wf(),
            r.input_str() == s,
            r.char_pos() == 0,
    {
        let bytes = s.as_bytes();
        proof {
            broadcast use vstd::slice::axiom_spec_len;

            assert(bytes@.len() == vstd::slice::spec_slice_len(bytes));
            assert(s@.take(0) =~= Seq::<char>::empty());
            assert(encode_utf8(s@.take(0)).len() == 0);
        }
        StrChars { s, pos: StrIndex::zero() }
    }

    /// Get the underlying string.
    pub fn get(&self) -> (r: &'a str)
        ensures
            r == self.input_str(),
    {
        self.s
    }

    /// Get the position of the next codepoint in the string.
    ///
    /// The returned [`StrIndex`] always lands on a codepoint boundary.
    pub fn pos(&self) -> (r: StrIndex)
        requires
            self.wf(),
        ensures
            r.char_index() == self.char_pos(),
            r.byte_index_spec() == byte_offset(self.input(), self.char_pos()),
    {
        self.pos
    }

    /// Peek at the next codepoint.
    ///
    /// If this method returns `Some`, then [`StrChars::advance`] will step
    /// over exactly that codepoint.
    pub fn peek(&self) -> (r: Option<Char>)
        ensures
            self.char_pos() < self.input().len() ==> r == Some(
                classify(self.input()[self.char_pos()]),
            ),
            self.char_pos() >= self.input().len() ==> r is None,
    {
        match self.pos.get(self.s) {
            Some(c) => Some(Char::from(c)),
            None => None,
        }
    }

    /// The cursor never splits a codepoint: its byte offset is a boundary of
    /// the UTF-8 encoding of the input.
    pub proof fn lemma_pos_on_char_boundary(self)
        requires
            self.wf(),
        ensures
            vstd::utf8::is_char_boundary(
                encode_utf8(self.input()),
                byte_offset(self.input(), self.char_pos()),
            ),
    {
        crate::str_index::lemma_byte_offset_is_char_boundary(self.input(), self.char_pos());
    }

    /// Advance the cursor by one codepoint.
    ///
    /// If the cursor has reached the end, this method is a no-op.
    pub fn advance(&mut self)
        requires
            old(self).wf(),
        ensures
            final(self).wf(),
            final(self).input_str() == old(self).input_str(),
            old(self).char_pos() < old(self).input().len() ==> final(self).char_pos() == old(
                self,
            ).char_pos() + 1,
            old(self).char_pos() >= old(self).input().len() ==> final(self).char_pos() == old(
                self,
            ).char_pos(),
    {
        let ghost k = self.pos.char_index();
        if let Some(c) = self.pos.get(self.s) {
            proof {
                lemma_encode_utf8_len_ge(self.s@);
                lemma_byte_offset_succ(self.s@, k);
                lemma_byte_offset_le_total(self.s@, k + 1);
            }
            self.pos.advance(c);
        }
    }
}

} // verus!
