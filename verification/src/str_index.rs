//! Codepoint-safe positions and ranges inside a `str`.
//!
//! A [`StrIndex`] carries both a codepoint offset and the byte offset of that
//! codepoint, and the byte offset provably never points inside a multi-byte
//! codepoint of the string the index was walked over.

use vstd::prelude::*;

verus! {

use vstd::utf8::char_is_scalar;
use vstd::utf8::encode_scalar;
use vstd::utf8::encode_utf8;
use vstd::utf8::encode_utf8_first_scalar;
use vstd::utf8::encode_utf8_valid_utf8;
use vstd::utf8::is_char_boundary;
use vstd::utf8::pop_first_scalar;

/// Number of bytes in the UTF-8 encoding of `c`.
pub open spec fn utf8_width(c: char) -> int {
    encode_scalar(c as u32).len() as int
}

/// Byte offset at which the codepoint with index `k` of `s` starts.
pub open spec fn byte_offset(s: Seq<char>, k: int) -> int {
    encode_utf8(s.take(k)).len() as int
}

/// The UTF-8 encoding of a concatenation is the concatenation of the
/// encodings.
pub proof fn lemma_encode_utf8_concat(a: Seq<char>, b: Seq<char>)
    ensures
        encode_utf8(a + b) == encode_utf8(a) + encode_utf8(b),
    decreases a.len(),
{
    if a.len() == 0 {
        assert(a + b =~= b);
        assert(encode_utf8(a) + encode_utf8(b) =~= encode_utf8(b));
    } else {
        lemma_encode_utf8_concat(a.drop_first(), b);
        assert((a + b).drop_first() =~= a.drop_first() + b);
        assert((a + b)[0] == a[0]);
        assert(encode_utf8(a + b) =~= encode_utf8(a) + encode_utf8(b));
    }
}

/// Every codepoint takes between one and four bytes.
pub proof fn lemma_utf8_width_bounds(c: char)
    ensures
        1 <= utf8_width(c) <= 4,
{
    char_is_scalar(c);
}

/// A string has at least as many bytes as codepoints.
pub proof fn lemma_encode_utf8_len_ge(s: Seq<char>)
    ensures
        encode_utf8(s).len() >= s.len(),
    decreases s.len(),
{
    if s.len() > 0 {
        lemma_utf8_width_bounds(s[0]);
        lemma_encode_utf8_len_ge(s.drop_first());
    }
}

/// Stepping over the codepoint at `k` moves the byte offset by its width.
pub proof fn lemma_byte_offset_succ(s: Seq<char>, k: int)
    requires
        0 <= k < s.len(),
    ensures
        byte_offset(s, k + 1) == byte_offset(s, k) + utf8_width(s[k]),
{
    let single = seq![s[k]];
    assert(s.take(k + 1) =~= s.take(k) + single);
    lemma_encode_utf8_concat(s.take(k), single);
    char_is_scalar(s[k]);
    assert(single.drop_first() =~= Seq::<char>::empty());
    assert(encode_utf8(single.drop_first()).len() == 0);
    assert(encode_utf8(single) =~= encode_scalar(s[k] as u32) + encode_utf8(single.drop_first()));
    assert(encode_utf8(single) =~= encode_scalar(s[k] as u32));
}

/// A prefix never takes more bytes than the whole string.
pub proof fn lemma_byte_offset_le_total(s: Seq<char>, k: int)
    requires
        0 <= k <= s.len(),
    ensures
        byte_offset(s, k) <= encode_utf8(s).len(),
{
    assert(s =~= s.take(k) + s.skip(k));
    lemma_encode_utf8_concat(s.take(k), s.skip(k));
}

/// No codepoint is ever split: the byte offset of any codepoint of `s` is a
/// boundary of the UTF-8 encoding of `s`.
pub proof fn lemma_byte_offset_is_char_boundary(s: Seq<char>, k: int)
    requires
        0 <= k <= s.len(),
    ensures
        is_char_boundary(encode_utf8(s), byte_offset(s, k)),
    decreases k,
{
    broadcast use encode_utf8_valid_utf8;

    let bytes = encode_utf8(s);
    if k == 0 {
        assert(s.take(0) =~= Seq::<char>::empty());
        assert(byte_offset(s, 0) == 0);
    } else {
        encode_utf8_first_scalar(s);
        char_is_scalar(s[0]);
        let w = encode_scalar(s[0] as u32).len() as int;
        let tail = s.drop_first();
        assert(bytes =~= encode_scalar(s[0] as u32) + encode_utf8(tail));
        assert(pop_first_scalar(bytes) =~= encode_utf8(tail));
        assert(s.take(k) =~= seq![s[0]] + tail.take(k - 1));
        lemma_encode_utf8_concat(seq![s[0]], tail.take(k - 1));
        let single = seq![s[0]];
        assert(single.drop_first() =~= Seq::<char>::empty());
        assert(encode_utf8(single.drop_first()).len() == 0);
        assert(encode_utf8(single) =~= encode_scalar(s[0] as u32) + encode_utf8(
            single.drop_first(),
        ));
        assert(encode_utf8(single) =~= encode_scalar(s[0] as u32));
        assert(byte_offset(s, k) == w + byte_offset(tail, k - 1));
        lemma_byte_offset_is_char_boundary(tail, k - 1);
        lemma_byte_offset_le_total(s, k);
        lemma_utf8_width_bounds(s[0]);
    }
}

/// Byte width of the UTF-8 encoding of `c`.
fn char_utf8_width(c: char) -> (n: usize)
    ensures
        n == utf8_width(c),
{
    proof {
        char_is_scalar(c);
    }
    let u = c as u32;
    if u <= 0x7F {
        1
    } else if u <= 0x7FF {
        2
    } else if u <= 0xFFFF {
        3
    } else {
        4
    }
}

/// A safe index into a `str` that works over codepoints.
#[derive(Debug, Clone, Copy, PartialEq, Eq, PartialOrd, Ord, Hash)]
pub struct StrIndex {
    chars: usize,
    bytes: usize,
}

impl StrIndex {
    /// Codepoint offset this index stands at.
    pub closed spec fn char_index(self) -> int {
        self.chars as int
    }

    /// Byte offset this index stands at.
    pub closed spec fn byte_index_spec(self) -> int {
        self.bytes as int
    }

    /// Create a new `StrIndex` that points at the start of a `str`.
    pub fn zero() -> (r: Self)
        ensures
            r.char_index() == 0,
            r.byte_index_spec() == 0,
    {
        StrIndex { chars: 0, bytes: 0 }
    }

    /// Get the byte index.
    ///
    /// This can be used to safely index into a `str`.
    pub fn byte_index(self) -> (r: usize)
        ensures
            r == self.byte_index_spec(),
    {
        self.bytes
    }

    /// Increment the index with `c`.
    ///
    /// This method keeps the byte index pointing at a `char` boundary as long
    /// as `c` is the codepoint that starts at the old position.
    pub fn advance(&mut self, c: char)
        requires
            old(self).char_index() + 1 <= usize::MAX,
            old(self).byte_index_spec() + utf8_width(c) <= usize::MAX,
        ensures
            final(self).char_index() == old(self).char_index() + 1,
            final(self).byte_index_spec() == old(self).byte_index_spec() + utf8_width(c),
    {
        proof {
            lemma_utf8_width_bounds(c);
        }
        self.chars = self.chars + 1;
        self.bytes = self.bytes + char_utf8_width(c);
    }

    /// Get the `char` of `s` this index points at.
    pub fn get(self, s: &str) -> (r: Option<char>)
        ensures
            self.char_index() < s@.len() ==> r == Some(s@[self.char_index()]),
            self.char_index() >= s@.len() ==> r is None,
    {
        if self.chars < s.unicode_len() {
            Some(s.get_char(self.chars))
        } else {
            None
        }
    }
}

/// A `Range` but for `str`.
///
/// Semantics are equivalent to `Range`, measured in codepoints.
#[derive(Debug, Clone, Copy, PartialEq, Eq, Hash)]
pub struct StrRange {
    pub start: StrIndex,
    pub end: StrIndex,
}

impl StrRange {
    /// Get the `str` slice of this range from `s`.
    ///
    /// Returns `None` if the range points outside `s`.
    pub fn get<'s>(self, s: &'s str) -> (r: Option<&'s str>)
        ensures
            self.start.char_index() <= self.end.char_index() <= s@.len() ==> r is Some
                && r->Some_0@ == s@.subrange(self.start.char_index(), self.end.char_index()),
            !(self.start.char_index() <= self.end.char_index() <= s@.len()) ==> r is None,
    {
        let a = self.start.chars;
        let b = self.end.chars;
        if a <= b && b <= s.unicode_len() {
            Some(s.substring_char(a, b))
        } else {
            None
        }
    }
}

} // verus!
