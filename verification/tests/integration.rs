//! The main file for integration tests.

use miniarg::ArgumentIterator;
use miniarg::ParseError;
use miniarg::ToString;
use miniarg::parse;

/// Drain the iterator into a vector, stopping at the first error.
fn collect<'a, 'b, T: ToString>(
    mut args: ArgumentIterator<'a, 'b, T>,
) -> Result<Vec<(&'b T, &'a str)>, ParseError<'a>> {
    let mut pairs = Vec::new();
    while let Some(item) = args.next() {
        match item {
            Ok(pair) => pairs.push(pair),
            Err(e) => return Err(e),
        }
    }
    Ok(pairs)
}

#[test]
/// Just calling a binary should produce an empty result.
fn integration_basic() {
    let cmdline = "executable";
    assert_eq!(collect(parse::<&str>(&cmdline, &[])).unwrap(), Vec::new());
}

#[test]
/// One key, one value.
fn integration_key_value() {
    let cmdline = "executable -key value";
    assert_eq!(
        collect(parse(&cmdline, &["key"])).unwrap(),
        vec![(&"key", "value")]
    );
}

#[test]
/// two keys, two values.
fn integration_two_key_value() {
    let cmdline = "executable -key1 value1 -key2 value2";
    assert_eq!(
        collect(parse(&cmdline, &["key1", "key2"])).unwrap(),
        vec![(&"key1", "value1"), (&"key2", "value2")]
    );
}

#[test]
/// one key, two values.
fn integration_key_two_value() {
    let cmdline = "executable -key value1 -key value2";
    assert_eq!(
        collect(parse(&cmdline, &["key", "key"])).unwrap(),
        vec![(&"key", "value1"), (&"key", "value2")]
    );
}

#[test]
/// Just a key should produce a vec containing the key and an empty string.
// This is used for `-help`.
fn integration_just_key() {
    let cmdline = "executable -key";
    assert_eq!(
        collect(parse(&cmdline, &["key"])).unwrap(),
        vec![(&"key", "")]
    );
}

#[test]
/// An invalid key should produce an error.
fn integration_invalid_key() {
    let cmdline = "executable -invalid";
    assert_eq!(
        collect(parse(&cmdline, &["key"])).unwrap_err(),
        ParseError::UnknownKey("invalid")
    );
}

#[test]
/// An option without a key should produce an error.
fn integration_missing_key() {
    let cmdline = "executable value";
    assert_eq!(
        collect(parse(&cmdline, &["key"])).unwrap_err(),
        ParseError::NotAKey("value")
    );
}

#[test]
/// Just calling a binary should produce an empty result.
fn non_ascii_basic() {
    let cmdline = "€x€cütäbl€";
    assert_eq!(collect(parse::<&str>(&cmdline, &[])).unwrap(), Vec::new());
}

#[test]
/// One key, one value.
fn non_ascii_key() {
    let cmdline = "executable -😀 value";
    assert_eq!(
        collect(parse(&cmdline, &["😀"])).unwrap(),
        vec![(&"😀", "value")]
    );
}

#[test]
fn non_ascii_value() {
    let cmdline = "executable -value 🦀🎉";
    assert_eq!(
        collect(parse(&cmdline, &["value"])).unwrap(),
        vec![(&"value", "🦀🎉")]
    );
}

#[test]
fn other_whitespace() {
    let cmdline = "executable -value\targ";
    assert_eq!(
        collect(parse(&cmdline, &["value"])).unwrap(),
        vec![(&"value", "arg")]
    );
}

#[test]
fn single_quotes() {
    let cmdline = "executable -value 'test value'";
    assert_eq!(
        collect(parse(&cmdline, &["value"])).unwrap(),
        vec![(&"value", "test value")]
    );
}

#[test]
fn double_quotes() {
    let cmdline = "executable -value \"test value\"";
    assert_eq!(
        collect(parse(&cmdline, &["value"])).unwrap(),
        vec![(&"value", "test value")]
    );
}

#[test]
fn nested_single_quotes() {
    let cmdline = "executable -value \"te'st' value\"";
    assert_eq!(
        collect(parse(&cmdline, &["value"])).unwrap(),
        vec![(&"value", "te'st' value")]
    );
}

#[test]
fn nested_double_quotes() {
    let cmdline = "executable -value 'te\"st\" value'";
    assert_eq!(
        collect(parse(&cmdline, &["value"])).unwrap(),
        vec![(&"value", "te\"st\" value")]
    );
}

#[test]
fn nested_single_quote() {
    let cmdline = "executable -value \"te'st value\"";
    assert_eq!(
        collect(parse(&cmdline, &["value"])).unwrap(),
        vec![(&"value", "te'st value")]
    );
}

#[test]
fn nested_double_quote() {
    let cmdline = "executable -value 'te\"st value'";
    assert_eq!(
        collect(parse(&cmdline, &["value"])).unwrap(),
        vec![(&"value", "te\"st value")]
    );
}

#[test]
fn ends_inside_single_quotes() {
    let cmdline = "executable -value 'test value";
    assert_eq!(
        collect(parse(&cmdline, &["value"])).unwrap(),
        vec![(&"value", "test value")]
    );
}

#[test]
fn ends_inside_double_quotes() {
    let cmdline = "executable -value \"test value";
    assert_eq!(
        collect(parse(&cmdline, &["value"])).unwrap(),
        vec![(&"value", "test value")]
    );
}
