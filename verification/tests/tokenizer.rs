//! Tests for the tokenizer, the cursor types, and the matcher edges.

use miniarg::ParseError;
use miniarg::parse;
use miniarg::parse_from_iter;
use miniarg::parse::Char;
use miniarg::parse::Quote;
use miniarg::parse::StrChars;
use miniarg::split_args::SplitArgs;
use miniarg::str_index::StrIndex;
use miniarg::str_index::StrRange;

/// Drain the tokenizer into a vector.
fn tokens(cmdline: &str) -> Vec<&str> {
    let mut args = SplitArgs::new(cmdline);
    let mut out = Vec::new();
    while let Some(token) = args.next() {
        out.push(token);
    }
    out
}

#[test]
fn split_basic() {
    assert_eq!(tokens("string"), vec!["string"]);
}

#[test]
fn split_two() {
    assert_eq!(tokens("string1 string2"), vec!["string1", "string2"]);
}

#[test]
fn split_single_quotes() {
    assert_eq!(
        tokens("string1 'string2 string3' string4"),
        vec!["string1", "string2 string3", "string4"]
    );
}

#[test]
fn split_double_quotes() {
    assert_eq!(
        tokens("string1 \"string2 string3\" string4"),
        vec!["string1", "string2 string3", "string4"]
    );
}

#[test]
fn split_single_quotes_two() {
    assert_eq!(tokens("'1 2' '3 4'"), vec!["1 2", "3 4"]);
}

#[test]
fn split_double_quotes_two() {
    assert_eq!(tokens("\"1 2\" \"3 4\""), vec!["1 2", "3 4"]);
}

#[test]
fn split_unterminated_double_quotes() {
    assert_eq!(tokens("1 \"2 3 4"), vec!["1", "2 3 4"]);
}

#[test]
fn split_unterminated_single_quotes() {
    assert_eq!(tokens("1 '2 3 4"), vec!["1", "2 3 4"]);
}

#[test]
fn split_other_whitespace() {
    assert_eq!(tokens("1\t2\n3 4\r5"), vec!["1", "2", "3", "4", "5"]);
}

#[test]
fn split_non_ascii() {
    assert_eq!(
        tokens("string1 rusty🦀 party🎉time string2"),
        vec!["string1", "rusty🦀", "party🎉time", "string2"]
    );
}

#[test]
fn split_non_ascii_basic() {
    assert_eq!(tokens("strÄng"), vec!["strÄng"]);
}

#[test]
fn split_non_ascii_two() {
    assert_eq!(tokens("sträng1 sträng2"), vec!["sträng1", "sträng2"]);
}

#[test]
fn split_non_ascii_quotes() {
    assert_eq!(tokens("\"sträng1 sträng2\""), vec!["sträng1 sträng2"]);
}

#[test]
/// Whitespace-only input yields zero tokens.
fn split_whitespace_only() {
    assert_eq!(tokens(" \t\r\n \u{a0}\u{2003}"), Vec::<&str>::new());
}

#[test]
/// The enclosing quotes never appear in the token.
fn split_quoted_round_trip() {
    assert_eq!(tokens("\"a b\""), vec!["a b"]);
}

#[test]
/// A quote that is not the first character of a token is kept literally.
fn split_quote_mid_token() {
    assert_eq!(tokens("2\"3\"4"), vec!["2\"3\"4"]);
}

#[test]
/// A pair of quotes with nothing between them yields the empty token.
fn split_empty_quotes() {
    assert_eq!(tokens("''"), vec![""]);
}

#[test]
/// The cursor walks byte offsets along codepoint boundaries.
fn cursor_byte_positions() {
    let mut it = StrChars::new("aÄ€🦀");
    assert_eq!(it.pos().byte_index(), 0);
    it.advance();
    assert_eq!(it.pos().byte_index(), 1);
    it.advance();
    assert_eq!(it.pos().byte_index(), 3);
    it.advance();
    assert_eq!(it.pos().byte_index(), 6);
    it.advance();
    assert_eq!(it.pos().byte_index(), 10);
    it.advance();
    assert_eq!(it.pos().byte_index(), 10);
}

#[test]
/// Without quotes, tokenizing is the standard library's whitespace split.
fn split_matches_std_split_whitespace() {
    let inputs = ["a b  c", " x\ty \n z ", "one", "", "  ", "a-b c_d"];
    for line in inputs {
        assert_eq!(tokens(line), line.split_whitespace().collect::<Vec<_>>());
    }
}

#[test]
/// The whitespace classification agrees with the standard library's.
fn whitespace_table_matches_std() {
    for u in 0u32..0x3001 {
        if let Some(c) = char::from_u32(u) {
            let s: String = c.to_string();
            let it = StrChars::new(&s);
            let classified_ws = it.peek() == Some(Char::Whitespace);
            assert_eq!(classified_ws, c.is_whitespace(), "mismatch at U+{u:04X}");
        }
    }
}

#[test]
/// Errors render their display lines.
fn error_messages() {
    assert_eq!(
        ParseError::NotAKey("value").message(),
        "expected 'value' to start with a dash"
    );
    assert_eq!(
        ParseError::UnknownKey("bogus").message(),
        "'bogus' is not a known key"
    );
}

#[test]
/// The cursor classifies what it peeks at.
fn cursor_peek_classifies() {
    let mut it = StrChars::new(" 'x\"");
    assert_eq!(it.peek(), Some(Char::Whitespace));
    it.advance();
    assert_eq!(it.peek(), Some(Char::Quote(Quote::Single)));
    it.advance();
    assert_eq!(it.peek(), Some(Char::Letter('x')));
    it.advance();
    assert_eq!(it.peek(), Some(Char::Quote(Quote::Double)));
    it.advance();
    assert_eq!(it.peek(), None);
}

#[test]
/// An index reads the codepoint it stands at, and a range slices.
fn index_and_range() {
    let s = "Äbc";
    let mut start = StrIndex::zero();
    assert_eq!(start.get(s), Some('Ä'));
    start.advance('Ä');
    assert_eq!(start.byte_index(), 2);
    assert_eq!(start.get(s), Some('b'));
    let mut end = start;
    end.advance('b');
    assert_eq!(StrRange { start, end }.get(s), Some("b"));
    assert_eq!(StrRange { start: end, end: start }.get(s), None);
}

#[test]
/// Matching lower-cases the first character of the key specifier.
fn key_normalization_lowercases_first() {
    let cmdline = "executable -key value";
    let mut iter = parse(&cmdline, &["Key"]);
    assert_eq!(iter.next(), Some(Ok((&"Key", "value"))));
    assert_eq!(iter.next(), None);
}

#[test]
/// Errors do not stop the stream: scanning continues behind them.
fn errors_do_not_stop_iteration() {
    let cmdline = "executable stray -bogus -key value";
    let mut iter = parse(&cmdline, &["key"]);
    assert_eq!(iter.next(), Some(Err(ParseError::NotAKey("stray"))));
    assert_eq!(iter.next(), Some(Err(ParseError::UnknownKey("bogus"))));
    assert_eq!(iter.next(), Some(Ok((&"key", "value"))));
    assert_eq!(iter.next(), None);
}

#[test]
/// Pre-tokenized input pairs the same way a command line does.
fn parse_from_iter_pairs() {
    let pre_tokenized = vec!["executable", "-key", "value"];
    let mut iter = parse_from_iter(pre_tokenized, &["key"]);
    assert_eq!(iter.next(), Some(Ok((&"key", "value"))));
    assert_eq!(iter.next(), None);
}

#[test]
/// A value may itself start with a dash: it pairs unconditionally.
fn value_may_carry_dash() {
    let cmdline = "executable -key -key";
    let mut iter = parse(&cmdline, &["key"]);
    assert_eq!(iter.next(), Some(Ok((&"key", "-key"))));
    assert_eq!(iter.next(), None);
}
