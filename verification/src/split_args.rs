//! Splits a cmdline into multiple args.
//!
//! Tokens are separated by runs of whitespace. A token that begins with a
//! quote character runs, with the quotes excluded, to the matching closing
//! quote or to the end of the input; a quote met after a bare token has begun
//! is an ordinary literal character. [`split_tokens`] states this as one
//! mathematical function, and [`SplitArgs`] produces exactly those tokens,
//! each one a substring of the input, without copying.

use vstd::prelude::*;

verus! {

use crate::parse::Char;
use crate::parse::Quote;
use crate::parse::StrChars;
use crate::parse::classify;
use crate::parse::is_whitespace_char;
use crate::parse::quote_char;
use crate::str_index::StrIndex;
use crate::str_index::StrRange;

/// True for the two quote characters.
pub open spec fn is_quote_char(c: char) -> bool {
    c == '\'' || c == '"'
}

/// Codepoint count of a bare token standing at the head of `s`: everything up
/// to the first whitespace, or all of `s`.
pub open spec fn end_bare(s: Seq<char>) -> int
    decreases s.len(),
{
    if s.len() == 0 {
        0
    } else if is_whitespace_char(s[0]) {
        0
    } else {
        1 + end_bare(s.drop_first())
    }
}

/// Codepoint count of the content of a token quoted with `q`, where `s` holds
/// the codepoints after the opening quote: everything up to the first closing
/// quote, or all of `s`.
pub open spec fn end_quoted(s: Seq<char>, q: char) -> int
    decreases s.len(),
{
    if s.len() == 0 {
        0
    } else if s[0] == q {
        0
    } else {
        1 + end_quoted(s.drop_first(), q)
    }
}

/// Bounds of [`end_bare`]: it stops at the first whitespace.
pub proof fn lemma_end_bare_props(s: Seq<char>)
    ensures
        0 <= end_bare(s) <= s.len(),
        forall|j: int| 0 <= j < end_bare(s) ==> !is_whitespace_char(s[j]),
        end_bare(s) < s.len() ==> is_whitespace_char(s[end_bare(s)]),
    decreases s.len(),
{
    if s.len() > 0 && !is_whitespace_char(s[0]) {
        lemma_end_bare_props(s.drop_first());
        assert forall|j: int| 0 <= j < end_bare(s) implies !is_whitespace_char(s[j]) by {
            if j > 0 {
                assert(s.drop_first()[j - 1] == s[j]);
            }
        }
        if end_bare(s) < s.len() {
            assert(s.drop_first()[end_bare(s) - 1] == s[end_bare(s)]);
        }
    }
}

/// Bounds of [`end_quoted`]: it stops at the first closing quote.
pub proof fn lemma_end_quoted_props(s: Seq<char>, q: char)
    ensures
        0 <= end_quoted(s, q) <= s.len(),
        forall|j: int| 0 <= j < end_quoted(s, q) ==> s[j] != q,
        end_quoted(s, q) < s.len() ==> s[end_quoted(s, q)] == q,
    decreases s.len(),
{
    if s.len() > 0 && s[0] != q {
        lemma_end_quoted_props(s.drop_first(), q);
        assert forall|j: int| 0 <= j < end_quoted(s, q) implies s[j] != q by {
            if j > 0 {
                assert(s.drop_first()[j - 1] == s[j]);
            }
        }
        if end_quoted(s, q) < s.len() {
            assert(s.drop_first()[end_quoted(s, q) - 1] == s[end_quoted(s, q)]);
        }
    }
}

/// [`end_bare`] is the one cut `k` with no whitespace before it and
/// whitespace, or the end of the input, at it.
pub proof fn lemma_end_bare_at(s: Seq<char>, k: int)
    requires
        0 <= k <= s.len(),
        forall|j: int| 0 <= j < k ==> !is_whitespace_char(s[j]),
        k < s.len() ==> is_whitespace_char(s[k]),
    ensures
        end_bare(s) == k,
    decreases k,
{
    if k == 0 {
    } else {
        assert(!is_whitespace_char(s[0]));
        assert forall|j: int| 0 <= j < k - 1 implies !is_whitespace_char(s.drop_first()[j]) by {
            assert(s.drop_first()[j] == s[j + 1]);
        }
        if k - 1 < s.drop_first().len() {
            assert(s.drop_first()[k - 1] == s[k]);
        }
        lemma_end_bare_at(s.drop_first(), k - 1);
    }
}

/// [`end_quoted`] is the one cut `k` with no closing quote before it and a
/// closing quote, or the end of the input, at it.
pub proof fn lemma_end_quoted_at(s: Seq<char>, q: char, k: int)
    requires
        0 <= k <= s.len(),
        forall|j: int| 0 <= j < k ==> s[j] != q,
        k < s.len() ==> s[k] == q,
    ensures
        end_quoted(s, q) == k,
    decreases k,
{
    if k == 0 {
    } else {
        assert(s[0] != q);
        assert forall|j: int| 0 <= j < k - 1 implies s.drop_first()[j] != q by {
            assert(s.drop_first()[j] == s[j + 1]);
        }
        if k - 1 < s.drop_first().len() {
            assert(s.drop_first()[k - 1] == s[k]);
        }
        lemma_end_quoted_at(s.drop_first(), q, k - 1);
    }
}

/// The tokens of `s`: whitespace-separated arguments, with quote grouping.
pub open spec fn split_tokens(s: Seq<char>) -> Seq<Seq<char>>
    decreases s.len(),
    via split_tokens_decreases
{
    if s.len() == 0 {
        Seq::empty()
    } else if is_whitespace_char(s[0]) {
        split_tokens(s.drop_first())
    } else if is_quote_char(s[0]) {
        let content = s.drop_first();
        let e = end_quoted(content, s[0]);
        let rest = if e < content.len() {
            content.skip(e + 1)
        } else {
            Seq::<char>::empty()
        };
        seq![content.take(e)] + split_tokens(rest)
    } else {
        let e = end_bare(s);
        let rest = if e < s.len() {
            s.skip(e + 1)
        } else {
            Seq::<char>::empty()
        };
        seq![s.take(e)] + split_tokens(rest)
    }
}

#[via_fn]
proof fn split_tokens_decreases(s: Seq<char>) {
    if s.len() > 0 && !is_whitespace_char(s[0]) {
        if is_quote_char(s[0]) {
            lemma_end_quoted_props(s.drop_first(), s[0]);
        } else {
            lemma_end_bare_props(s);
        }
    }
}

/// The whitespace-split words of `s`: the maximal runs of non-whitespace
/// codepoints, in order. Runs of whitespace collapse and produce nothing.
pub open spec fn split_whitespace(s: Seq<char>) -> Seq<Seq<char>>
    decreases s.len(),
    via split_whitespace_decreases
{
    if s.len() == 0 {
        Seq::empty()
    } else if is_whitespace_char(s[0]) {
        split_whitespace(s.drop_first())
    } else {
        let e = end_bare(s);
        let rest = if e < s.len() {
            s.skip(e + 1)
        } else {
            Seq::<char>::empty()
        };
        seq![s.take(e)] + split_whitespace(rest)
    }
}

#[via_fn]
proof fn split_whitespace_decreases(s: Seq<char>) {
    if s.len() > 0 && !is_whitespace_char(s[0]) {
        lemma_end_bare_props(s);
    }
}

/// An input consisting only of whitespace yields zero tokens.
pub proof fn lemma_whitespace_only_no_tokens(s: Seq<char>)
    requires
        forall|i: int| 0 <= i < s.len() ==> is_whitespace_char(s[i]),
    ensures
        split_tokens(s).len() == 0,
    decreases s.len(),
{
    if s.len() > 0 {
        assert forall|i: int| 0 <= i < s.drop_first().len() implies is_whitespace_char(
            s.drop_first()[i],
        ) by {
            assert(s.drop_first()[i] == s[i + 1]);
        }
        lemma_whitespace_only_no_tokens(s.drop_first());
    }
}

/// For an input without quote characters, tokenizing is whitespace splitting,
/// with all whitespace run lengths collapsed.
pub proof fn lemma_no_quotes_splits_on_whitespace(s: Seq<char>)
    requires
        forall|i: int| 0 <= i < s.len() ==> !is_quote_char(s[i]),
    ensures
        split_tokens(s) == split_whitespace(s),
    decreases s.len(),
{
    if s.len() == 0 {
    } else if is_whitespace_char(s[0]) {
        assert forall|i: int| 0 <= i < s.drop_first().len() implies !is_quote_char(
            s.drop_first()[i],
        ) by {
            assert(s.drop_first()[i] == s[i + 1]);
        }
        lemma_no_quotes_splits_on_whitespace(s.drop_first());
    } else {
        lemma_end_bare_props(s);
        let e = end_bare(s);
        let rest = if e < s.len() {
            s.skip(e + 1)
        } else {
            Seq::<char>::empty()
        };
        assert forall|i: int| 0 <= i < rest.len() implies !is_quote_char(rest[i]) by {
            if e < s.len() {
                assert(rest[i] == s[e + 1 + i]);
            }
        }
        lemma_no_quotes_splits_on_whitespace(rest);
    }
}

/// The delimiting quotes of a quoted token are consumed, and the quote
/// character that delimits the token never appears inside it.
pub proof fn lemma_quoted_token_excludes_delimiter(s: Seq<char>)
    requires
        s.len() > 0,
        is_quote_char(s[0]),
    ensures
        split_tokens(s).len() > 0,
        split_tokens(s)[0] == s.drop_first().take(end_quoted(s.drop_first(), s[0])),
        forall|j: int| 0 <= j < split_tokens(s)[0].len() ==> split_tokens(s)[0][j] != s[0],
{
    let content = s.drop_first();
    let e = end_quoted(content, s[0]);
    lemma_end_quoted_props(content, s[0]);
    assert(!is_whitespace_char(s[0]));
    assert(split_tokens(s)[0] == content.take(e));
    assert forall|j: int| 0 <= j < split_tokens(s)[0].len() implies split_tokens(s)[0][j] != s[0] by {
        assert(content.take(e)[j] == content[j]);
    }
}

/// A quote character after the first codepoint of a bare token is kept
/// literally: the token runs to the next whitespace, quotes included.
pub proof fn lemma_bare_token_keeps_quotes(s: Seq<char>)
    requires
        s.len() > 0,
        !is_whitespace_char(s[0]),
        !is_quote_char(s[0]),
    ensures
        split_tokens(s).len() > 0,
        split_tokens(s)[0] == s.take(end_bare(s)),
        forall|j: int| 0 <= j < end_bare(s) ==> !is_whitespace_char(s[j]),
        end_bare(s) < s.len() ==> is_whitespace_char(s[end_bare(s)]),
{
    lemma_end_bare_props(s);
}

/// Every token is an unmodified contiguous substring of the input: no
/// codepoint is changed, lost from the middle, or split.
pub proof fn lemma_tokens_are_substrings(s: Seq<char>, i: int)
    requires
        0 <= i < split_tokens(s).len(),
    ensures
        exists|a: int, b: int|
            0 <= a <= b <= s.len() && split_tokens(s)[i] == s.subrange(a, b),
    decreases s.len(),
{
    if is_whitespace_char(s[0]) {
        lemma_tokens_are_substrings(s.drop_first(), i);
        let (a, b) = choose|a: int, b: int|
            0 <= a <= b <= s.drop_first().len() && split_tokens(s.drop_first())[i]
                == s.drop_first().subrange(a, b);
        assert(s.drop_first().subrange(a, b) =~= s.subrange(a + 1, b + 1));
    } else if is_quote_char(s[0]) {
        let content = s.drop_first();
        let e = end_quoted(content, s[0]);
        lemma_end_quoted_props(content, s[0]);
        let rest = if e < content.len() {
            content.skip(e + 1)
        } else {
            Seq::<char>::empty()
        };
        if i == 0 {
            assert(content.take(e) =~= s.subrange(1, 1 + e));
        } else {
            lemma_tokens_are_substrings(rest, i - 1);
            let (a, b) = choose|a: int, b: int|
                0 <= a <= b <= rest.len() && split_tokens(rest)[i - 1] == rest.subrange(a, b);
            assert(split_tokens(s)[i] == split_tokens(rest)[i - 1]);
            assert(rest.subrange(a, b) =~= s.subrange(a + e + 2, b + e + 2));
        }
    } else {
        let e = end_bare(s);
        lemma_end_bare_props(s);
        let rest = if e < s.len() {
            s.skip(e + 1)
        } else {
            Seq::<char>::empty()
        };
        if i == 0 {
            assert(s.take(e) =~= s.subrange(0, e));
        } else {
            lemma_tokens_are_substrings(rest, i - 1);
            let (a, b) = choose|a: int, b: int|
                0 <= a <= b <= rest.len() && split_tokens(rest)[i - 1] == rest.subrange(a, b);
            assert(split_tokens(s)[i] == split_tokens(rest)[i - 1]);
            assert(rest.subrange(a, b) =~= s.subrange(a + e + 1, b + e + 1));
        }
    }
}

/// Splits a cmdline into multiple args.
///
/// Yields, one [`SplitArgs::next`] call at a time, exactly the tokens of
/// [`split_tokens`] over the input. It never panics or errors: malformed
/// quoting degrades to a best-effort token.
pub struct SplitArgs<'a> {
    iter: StrChars<'a>,
}

impl<'a> SplitArgs<'a> {
    /// The cursor walking over the input.
    pub closed spec fn cursor(self) -> StrChars<'a> {
        self.iter
    }

    /// The string being split.
    pub open spec fn input_str(self) -> &'a str {
        self.cursor().input_str()
    }

    /// The codepoints of the string being split.
    pub open spec fn input(self) -> Seq<char> {
        self.cursor().input()
    }

    /// The codepoints not consumed yet.
    pub open spec fn remaining(self) -> Seq<char> {
        self.cursor().remaining()
    }

    /// The cursor stands on a codepoint boundary inside the input.
    pub open spec fn wf(self) -> bool {
        self.cursor().wf()
    }

    /// Creates from a cmdline.
    pub fn new(cmdline: &'a str) -> (r: Self)
        ensures
            r.wf(),
            r.input_str() == cmdline,
            r.remaining() == cmdline@,
    {
        let it = StrChars::new(cmdline);
        proof {
            assert(it.input().skip(0) =~= it.input());
        }
        SplitArgs { iter: it }
    }

    /// Get the substring `start..end` of the input.
    fn get_range(&self, start: StrIndex, end: StrIndex) -> (t: &'a str)
        requires
            0 <= start.char_index() <= end.char_index() <= self.input().len(),
        ensures
            t@ == self.input().subrange(start.char_index(), end.char_index()),
    {
        let range = StrRange { start, end };
        range.get(self.iter.get()).unwrap()
    }

    /// Get the next token, or `None` when only whitespace is left.
    ///
    /// Returns the head of [`split_tokens`] over the remaining input and
    /// consumes it: what remains afterwards holds exactly the rest of the
    /// tokens.
    pub fn next(&mut self) -> (r: Option<&'a str>)
        requires
            old(self).wf(),
        ensures
            final(self).wf(),
            final(self).input_str() == old(self).input_str(),
            ({
                let toks = split_tokens(old(self).remaining());
                match r {
                    Option::None => toks.len() == 0 && final(self).remaining().len() == 0,
                    Option::Some(t) => toks.len() > 0 && t@ == toks[0] && split_tokens(
                        final(self).remaining(),
                    ) == toks.drop_first(),
                }
            }),
    {
        loop
            invariant
                self.wf(),
                self.iter.input_str() == old(self).input_str(),
                split_tokens(self.remaining()) == split_tokens(old(self).remaining()),
            decreases self.input().len() - self.iter.char_pos(),
        {
            let c = match self.iter.peek() {
                Some(c) => c,
                None => {
                    return None;
                },
            };
            match c {
                Char::Whitespace => {
                    proof {
                        assert(self.remaining().drop_first() =~= self.input().skip(
                            self.iter.char_pos() + 1,
                        ));
                    }
                    self.iter.advance();
                },
                Char::Letter(_) => {
                    return Some(self.bare_token());
                },
                Char::Quote(q) => {
                    return Some(self.quoted_token(q));
                },
            }
        }
    }

    /// Consume a bare token standing at the head of the remaining input,
    /// together with the whitespace that ends it.
    fn bare_token(&mut self) -> (t: &'a str)
        requires
            old(self).wf(),
            old(self).remaining().len() > 0,
            classify(old(self).remaining()[0]) is Letter,
        ensures
            final(self).wf(),
            final(self).input_str() == old(self).input_str(),
            split_tokens(old(self).remaining()).len() > 0,
            t@ == split_tokens(old(self).remaining())[0],
            split_tokens(final(self).remaining()) == split_tokens(old(self).remaining()).drop_first(),
    {
        let ghost rem = self.remaining();
        let ghost base = self.iter.char_pos();
        proof {
            assert(rem.len() == self.input().len() - base);
        }
        let start = self.iter.pos();
        self.iter.advance();
        loop
            invariant
                self.wf(),
                self.iter.input_str() == old(self).input_str(),
                rem == old(self).remaining(),
                base == old(self).cursor().char_pos(),
                rem == self.input().skip(base),
                rem.len() > 0,
                !is_whitespace_char(rem[0]),
                !is_quote_char(rem[0]),
                0 <= base < base + 1 <= self.iter.char_pos() <= self.input().len(),
                start.char_index() == base,
                forall|j: int| 0 <= j < self.iter.char_pos() - base ==> !is_whitespace_char(
                    rem[j],
                ),
            decreases self.input().len() - self.iter.char_pos(),
        {
            let ghost cur = self.iter.char_pos();
            proof {
                if cur < self.input().len() {
                    assert(rem[cur - base] == self.input()[cur]);
                }
            }
            match self.iter.peek() {
                None => {
                    let end = self.iter.pos();
                    proof {
                        self.lemma_finish_bare(rem, base, cur);
                        assert(self.remaining() =~= Seq::<char>::empty());
                    }
                    return self.get_range(start, end);
                },
                Some(Char::Whitespace) => {
                    let end = self.iter.pos();
                    proof {
                        self.lemma_finish_bare(rem, base, cur);
                    }
                    self.iter.advance();
                    proof {
                        assert(self.input().skip(cur + 1) =~= rem.skip(cur - base + 1));
                    }
                    return self.get_range(start, end);
                },
                Some(_) => {
                    self.iter.advance();
                },
            }
        }
    }

    /// At the stop position of the bare-token scan, the token spec agrees
    /// with the scanned range.
    proof fn lemma_finish_bare(self, rem: Seq<char>, base: int, cur: int)
        requires
            self.wf(),
            rem == self.input().skip(base),
            0 <= base < cur <= self.input().len(),
            cur == self.iter.char_pos(),
            forall|j: int| 0 <= j < cur - base ==> !is_whitespace_char(rem[j]),
            cur < self.input().len() ==> is_whitespace_char(rem[cur - base]),
            rem.len() > 0,
            !is_whitespace_char(rem[0]),
            !is_quote_char(rem[0]),
        ensures
            end_bare(rem) == cur - base,
            split_tokens(rem).len() > 0,
            split_tokens(rem)[0] == self.input().subrange(base, cur),
            split_tokens(rem).drop_first() == split_tokens(
                if cur - base < rem.len() {
                    rem.skip(cur - base + 1)
                } else {
                    Seq::<char>::empty()
                },
            ),
            cur == self.input().len() ==> self.remaining().len() == 0,
    {
        lemma_end_bare_at(rem, cur - base);
        let e = cur - base;
        let rest = if e < rem.len() {
            rem.skip(e + 1)
        } else {
            Seq::<char>::empty()
        };
        assert(split_tokens(rem) == seq![rem.take(e)] + split_tokens(rest));
        assert((seq![rem.take(e)] + split_tokens(rest))[0] == rem.take(e));
        assert((seq![rem.take(e)] + split_tokens(rest)).drop_first() =~= split_tokens(rest));
        assert(rem.take(e) =~= self.input().subrange(base, cur));
    }

    /// Consume a quoted token standing at the head of the remaining input:
    /// the opening quote, the content, and the closing quote if there is one.
    fn quoted_token(&mut self, q: Quote) -> (t: &'a str)
        requires
            old(self).wf(),
            old(self).remaining().len() > 0,
            classify(old(self).remaining()[0]) == Char::Quote(q),
        ensures
            final(self).wf(),
            final(self).input_str() == old(self).input_str(),
            split_tokens(old(self).remaining()).len() > 0,
            t@ == split_tokens(old(self).remaining())[0],
            split_tokens(final(self).remaining()) == split_tokens(old(self).remaining()).drop_first(),
    {
        let ghost rem = self.remaining();
        let ghost base = self.iter.char_pos();
        let ghost qc = quote_char(q);
        proof {
            assert(rem.len() == self.input().len() - base);
        }
        self.iter.advance();
        let start = self.iter.pos();
        loop
            invariant
                self.wf(),
                self.iter.input_str() == old(self).input_str(),
                rem == old(self).remaining(),
                base == old(self).cursor().char_pos(),
                rem == self.input().skip(base),
                rem.len() > 0,
                rem[0] == qc,
                qc == quote_char(q),
                is_quote_char(rem[0]),
                !is_whitespace_char(rem[0]),
                0 <= base < base + 1 <= self.iter.char_pos() <= self.input().len(),
                start.char_index() == base + 1,
                forall|j: int| 0 <= j < self.iter.char_pos() - base - 1 ==> rem.drop_first()[j]
                    != qc,
            decreases self.input().len() - self.iter.char_pos(),
        {
            let ghost cur = self.iter.char_pos();
            let ghost content = rem.drop_first();
            proof {
                if cur < self.input().len() {
                    assert(content[cur - base - 1] == self.input()[cur]);
                }
            }
            let c = match self.iter.peek() {
                Some(c) => c,
                None => {
                    let end = self.iter.pos();
                    proof {
                        self.lemma_finish_quoted(rem, base, cur, qc);
                        assert(self.remaining() =~= Seq::<char>::empty());
                    }
                    return self.get_range(start, end);
                },
            };
            match c {
                Char::Quote(q2) if q2 == q => {
                    let end = self.iter.pos();
                    proof {
                        self.lemma_finish_quoted(rem, base, cur, qc);
                    }
                    self.iter.advance();
                    proof {
                        assert(self.input().skip(cur + 1) =~= rem.drop_first().skip(
                            cur - base - 1 + 1,
                        ));
                    }
                    return self.get_range(start, end);
                },
                _ => {
                    self.iter.advance();
                },
            }
        }
    }

    /// At the stop position of the quoted-token scan, the token spec agrees
    /// with the scanned range.
    proof fn lemma_finish_quoted(self, rem: Seq<char>, base: int, cur: int, qc: char)
        requires
            self.wf(),
            rem == self.input().skip(base),
            rem.len() > 0,
            rem[0] == qc,
            is_quote_char(rem[0]),
            !is_whitespace_char(rem[0]),
            0 <= base < base + 1 <= cur <= self.input().len(),
            cur == self.iter.char_pos(),
            forall|j: int| 0 <= j < cur - base - 1 ==> rem.drop_first()[j] != qc,
            cur < self.input().len() ==> rem.drop_first()[cur - base - 1] == qc,
        ensures
            end_quoted(rem.drop_first(), qc) == cur - base - 1,
            split_tokens(rem).len() > 0,
            split_tokens(rem)[0] == self.input().subrange(base + 1, cur),
            split_tokens(rem).drop_first() == split_tokens(
                if cur - base - 1 < rem.drop_first().len() {
                    rem.drop_first().skip(cur - base)
                } else {
                    Seq::<char>::empty()
                },
            ),
            cur == self.input().len() ==> self.remaining().len() == 0,
    {
        let content = rem.drop_first();
        lemma_end_quoted_at(content, qc, cur - base - 1);
        let e = cur - base - 1;
        let rest = if e < content.len() {
            content.skip(e + 1)
        } else {
            Seq::<char>::empty()
        };
        assert(split_tokens(rem) == seq![content.take(e)] + split_tokens(rest));
        assert((seq![content.take(e)] + split_tokens(rest))[0] == content.take(e));
        assert((seq![content.take(e)] + split_tokens(rest)).drop_first() =~= split_tokens(rest));
        assert(content.take(e) =~= self.input().subrange(base + 1, cur));
        if e < content.len() {
            assert(content.skip(e + 1) =~= content.skip(cur - base));
        }
    }
}

} // verus!
