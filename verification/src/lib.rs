//! A minimal verified argument parser.
//!
//! Only command lines in the form of `program -foo value -bar value` are
//! supported: values are strings, keys start with a single dash, and keys can
//! occur multiple times. The tokenizer honors single and double quotes; see
//! [`split_args`].
//!
//! [`parse`] turns a command line and a slice of accepted keys into an
//! [`ArgumentIterator`] that yields `Ok((key, value))` pairs and
//! [`ParseError`]s. Errors do not stop the iteration: the matcher reports
//! them and goes on scanning. A trailing key with no value after it pairs
//! with the empty string.

use vstd::prelude::*;

pub mod parse;
pub mod split_args;
pub mod str_index;

verus! {

use crate::split_args::SplitArgs;
use crate::split_args::split_tokens;
use vstd::slice::slice_index_get;

/// What `char::to_lowercase` yields for `c`.
pub uninterp spec fn lowercase_of(c: char) -> Seq<char>;

/// Relies on char::to_lowercase: the lowercase mapping of a character
/// depends on the character alone.
#[verifier::external_body]
fn char_to_lowercase(c: char) -> (r: String)
    ensures
        r@ == lowercase_of(c),
{
    c.to_lowercase().collect()
}

/// `s` with its first codepoint lower-cased and the rest kept verbatim.
pub open spec fn first_lower_spec(s: Seq<char>) -> Seq<char> {
    if s.len() == 0 {
        s
    } else {
        lowercase_of(s[0]) + s.drop_first()
    }
}

/// Turn the first character into lowercase.
fn first_lower(input: &str) -> (r: String)
    ensures
        r@ == first_lower_spec(input@),
{
    let n = input.unicode_len();
    if n == 0 {
        let r = String::new();
        proof {
            assert(r@ =~= input@);
        }
        r
    } else {
        let mut r = char_to_lowercase(input.get_char(0));
        let rest = input.substring_char(1, n);
        r.append(rest);
        proof {
            assert(input@.subrange(1, n as int) =~= input@.drop_first());
        }
        r
    }
}

/// A caller-supplied key specifier: any type with a string form.
///
/// The matcher compares tokens against the string form with its first
/// character lower-cased and the remainder kept verbatim.
pub trait ToString {
    /// The string form, as a mathematical sequence of codepoints. Left
    /// unspecified unless an implementation says which sequence it is.
    open spec fn str_spec(&self) -> Seq<char> {
        arbitrary()
    }

    /// Produce the string form.
    fn to_string(&self) -> (s: String)
        ensures
            s@ == self.str_spec(),
    ;
}

impl<'s> ToString for &'s str {
    open spec fn str_spec(&self) -> Seq<char> {
        (*self)@
    }

    fn to_string(&self) -> (s: String) {
        String::from_str(*self)
    }
}

/// Decide equality of two strings by their codepoints.
fn str_eq(a: &str, b: &str) -> (r: bool)
    ensures
        r == (a@ == b@),
{
    let n = a.unicode_len();
    if n != b.unicode_len() {
        return false;
    }
    let mut j: usize = 0;
    while j < n
        invariant
            j <= n,
            n == a@.len(),
            n == b@.len(),
            forall|i: int| 0 <= i < j ==> a@[i] == b@[i],
        decreases n - j,
    {
        if a.get_char(j) != b.get_char(j) {
            return false;
        }
        j = j + 1;
    }
    proof {
        assert(a@ =~= b@);
    }
    true
}

/// Errors occurred during parsing the command line.
#[derive(Debug, PartialEq, Eq, Hash, Clone)]
#[non_exhaustive]
pub enum ParseError<'a> {
    /// expected a key, but the argument didn't start with a dash
    NotAKey(&'a str),
    /// key is not accepted
    UnknownKey(&'a str),
    /// reserved default error
    _Unknown,
}

impl<'a> ParseError<'a> {
    /// The display line of this error.
    pub open spec fn message_spec(self) -> Seq<char> {
        match self {
            ParseError::NotAKey(s) => "expected '"@ + s@ + "' to start with a dash"@,
            ParseError::UnknownKey(s) => "'"@ + s@ + "' is not a known key"@,
            _ => "unknown parse error"@,
        }
    }

    /// Render the display line of this error.
    pub fn message(&self) -> (r: String)
        ensures
            r@ == self.message_spec(),
    {
        match self {
            ParseError::NotAKey(s) => {
                let mut r = String::from_str("expected '");
                r.append(s);
                r.append("' to start with a dash");
                r
            },
            ParseError::UnknownKey(s) => {
                let mut r = String::from_str("'");
                r.append(s);
                r.append("' is not a known key");
                r
            },
            _ => String::from_str("unknown parse error"),
        }
    }
}

/// The errors of [`ParseError`], over mathematical sequences.
pub enum SpecParseError {
    NotAKey(Seq<char>),
    UnknownKey(Seq<char>),
}

/// One pairing outcome, over mathematical values: the index of the matched
/// key specifier with the value token, or an error.
pub type SpecOutput = Result<(int, Seq<char>), SpecParseError>;

/// Index of the first key in `keys`, at position `i` or later, equal to `t`.
pub open spec fn find_key_from(keys: Seq<Seq<char>>, t: Seq<char>, i: int) -> Option<int>
    decreases keys.len() - i,
{
    if i < 0 || i >= keys.len() {
        None
    } else if keys[i] == t {
        Some(i)
    } else {
        find_key_from(keys, t, i + 1)
    }
}

/// Index of the first key in `keys` equal to `t`.
pub open spec fn find_key(keys: Seq<Seq<char>>, t: Seq<char>) -> Option<int> {
    find_key_from(keys, t, 0)
}

/// The outcomes the matcher still owes, given the tokens not yet consumed,
/// the normalized keys, and the pending key if the token before named one.
///
/// A token in key position must start with a dash; it is then stripped and
/// looked up among the keys, first match winning. A matched key pairs
/// unconditionally with the next token, or with the empty string when the
/// tokens end right after it. Errors carry the offending token and scanning
/// continues behind them.
pub open spec fn match_rest(
    tokens: Seq<Seq<char>>,
    keys: Seq<Seq<char>>,
    pending: Option<int>,
) -> Seq<SpecOutput>
    decreases tokens.len(),
{
    if tokens.len() == 0 {
        match pending {
            Option::None => Seq::empty(),
            Option::Some(k) => seq![Result::Ok((k, Seq::<char>::empty()))],
        }
    } else {
        let t = tokens[0];
        let rest = tokens.drop_first();
        match pending {
            Option::Some(k) => seq![Result::Ok((k, t))] + match_rest(rest, keys, None),
            Option::None => {
                if t.len() == 0 || t[0] != '-' {
                    seq![Result::Err(SpecParseError::NotAKey(t))] + match_rest(rest, keys, None)
                } else {
                    let stripped = t.drop_first();
                    match find_key(keys, stripped) {
                        Option::Some(i) => match_rest(rest, keys, Some(i)),
                        Option::None => seq![Result::Err(SpecParseError::UnknownKey(stripped))]
                            + match_rest(rest, keys, None),
                    }
                }
            },
        }
    }
}

/// All outcomes of pairing `tokens` against `keys`: the first token is the
/// invoked program's name and is discarded unconditionally, then the rest
/// are matched by [`match_rest`] with no key pending.
pub open spec fn match_tokens(tokens: Seq<Seq<char>>, keys: Seq<Seq<char>>) -> Seq<SpecOutput> {
    if tokens.len() == 0 {
        Seq::empty()
    } else {
        match_rest(tokens.drop_first(), keys, None)
    }
}

/// The exec outcome `item` is the one the spec outcome `out` describes,
/// with key indices resolved against the key specifiers `opts`.
pub open spec fn output_matches<T: ToString>(
    item: Result<(&T, &str), ParseError>,
    out: SpecOutput,
    opts: Seq<T>,
) -> bool {
    match (item, out) {
        (Result::Ok((key, value)), Result::Ok((i, vs))) => {
            &&& 0 <= i < opts.len()
            &&& *key == opts[i]
            &&& value@ == vs
        },
        (Result::Err(ParseError::NotAKey(s)), Result::Err(SpecParseError::NotAKey(ts))) => s@
            == ts,
        (Result::Err(ParseError::UnknownKey(s)), Result::Err(SpecParseError::UnknownKey(ts))) => s@
            == ts,
        _ => false,
    }
}

/// Where the matcher draws its tokens from: a [`SplitArgs`] over a command
/// line, or a pre-tokenized list handed in by the caller.
enum TokenSource<'a> {
    Line(SplitArgs<'a>),
    List(Vec<&'a str>, usize),
}

impl<'a> TokenSource<'a> {
    spec fn wf(self) -> bool {
        match self {
            TokenSource::Line(args) => args.wf(),
            TokenSource::List(list, at) => at <= list@.len(),
        }
    }

    /// The tokens not yet handed out.
    spec fn remaining_tokens(self) -> Seq<Seq<char>> {
        match self {
            TokenSource::Line(args) => split_tokens(args.remaining()),
            TokenSource::List(list, at) => list@.skip(at as int).map_values(|t: &str| t@),
        }
    }

    /// Hand out the next token.
    fn next(&mut self) -> (r: Option<&'a str>)
        requires
            old(self).wf(),
        ensures
            final(self).wf(),
            match r {
                Option::None => old(self).remaining_tokens().len() == 0
                    && final(self).remaining_tokens().len() == 0,
                Option::Some(t) => old(self).remaining_tokens().len() > 0
                    && t@ == old(self).remaining_tokens()[0]
                    && final(self).remaining_tokens() == old(self).remaining_tokens().drop_first(),
            },
    {
        match self {
            TokenSource::Line(args) => args.next(),
            TokenSource::List(list, at) => {
                if *at < list.len() {
                    let t = list[*at];
                    proof {
                        let f = |s: &str| s@;
                        assert(list@.skip(*at as int).map_values(f)[0] == t@);
                        assert(list@.skip(*at + 1 as int).map_values(f) =~= list@.skip(
                            *at as int,
                        ).map_values(f).drop_first());
                    }
                    *at = *at + 1;
                    Some(t)
                } else {
                    proof {
                        assert(list@.skip(*at as int).map_values(|s: &str| s@).len() == 0);
                    }
                    None
                }
            },
        }
    }
}

/// The iterator returned by [`parse`] and [`parse_from_iter`].
pub struct ArgumentIterator<'a, 'b, T: ToString> {
    args: TokenSource<'a>,
    options: &'b [T],
    keys: Vec<String>,
    last: Option<usize>,
}

impl<'a, 'b, T: ToString> ArgumentIterator<'a, 'b, T> {
    /// The key specifiers this iterator matches against.
    pub closed spec fn options_spec(self) -> Seq<T> {
        self.options@
    }

    /// The normalized string forms of the key specifiers, in their order.
    pub closed spec fn keys_spec(self) -> Seq<Seq<char>> {
        self.keys@.map_values(|s: String| s@)
    }

    /// The key waiting for its value, if the token before named one.
    pub closed spec fn pending_spec(self) -> Option<int> {
        match self.last {
            Option::None => None,
            Option::Some(k) => Some(k as int),
        }
    }

    /// One normalized key stands for each key specifier, and a pending key
    /// points at one of them.
    pub closed spec fn wf(self) -> bool {
        &&& self.args.wf()
        &&& self.keys@.len() == self.options@.len()
        &&& (self.pending_spec() matches Some(k) ==> 0 <= k < self.options@.len())
    }

    /// The outcomes this iterator still owes.
    pub closed spec fn outputs(self) -> Seq<SpecOutput> {
        match_rest(self.args.remaining_tokens(), self.keys_spec(), self.pending_spec())
    }

    fn new(args: TokenSource<'a>, options: &'b [T]) -> (r: Self)
        requires
            args.wf(),
        ensures
            r.wf(),
            r.options_spec() == options@,
            r.keys_spec().len() == options@.len(),
            forall|i: int|
                0 <= i < options@.len() ==> r.keys_spec()[i] == first_lower_spec(
                    options@[i].str_spec(),
                ),
            r.outputs() == match_tokens(args.remaining_tokens(), r.keys_spec()),
    {
        let mut keys: Vec<String> = Vec::new();
        let mut j: usize = 0;
        while j < options.len()
            invariant
                j <= options@.len(),
                keys@.len() == j,
                forall|i: int|
                    0 <= i < j ==> keys@[i]@ == first_lower_spec(options@[i].str_spec()),
            decreases options@.len() - j,
        {
            let form = slice_index_get(options, j).to_string();
            keys.push(first_lower(form.as_str()));
            j = j + 1;
        }
        // discard argv[0], the invoked program's name
        let mut args = args;
        let ghost all = args.remaining_tokens();
        let _ = args.next();
        let r = ArgumentIterator { args, options, keys, last: None };
        proof {
            assert(r.keys_spec().len() == options@.len());
            assert forall|i: int| 0 <= i < options@.len() implies r.keys_spec()[i]
                == first_lower_spec(options@[i].str_spec()) by {
                assert(r.keys_spec()[i] == keys@[i]@);
            }
            if all.len() == 0 {
                assert(r.args.remaining_tokens().len() == 0);
            } else {
                assert(r.args.remaining_tokens() == all.drop_first());
            }
        }
        r
    }

    /// Index of the first normalized key equal to `stripped`.
    fn find(&self, stripped: &str) -> (r: Option<usize>)
        ensures
            match r {
                Option::Some(i) => find_key(self.keys_spec(), stripped@) == Some(i as int) && i
                    < self.keys_spec().len(),
                Option::None => find_key(self.keys_spec(), stripped@) is None,
            },
    {
        let ghost keys = self.keys_spec();
        let mut j: usize = 0;
        while j < self.keys.len()
            invariant
                keys == self.keys_spec(),
                j <= self.keys@.len(),
                keys.len() == self.keys@.len(),
                find_key(keys, stripped@) == find_key_from(keys, stripped@, j as int),
            decreases self.keys@.len() - j,
        {
            if str_eq(self.keys[j].as_str(), stripped) {
                proof {
                    assert(keys[j as int] == self.keys@[j as int]@);
                }
                return Some(j);
            }
            proof {
                assert(keys[j as int] == self.keys@[j as int]@);
            }
            j = j + 1;
        }
        None
    }

    /// Get the next key-value pair or error; `None` when the tokens are
    /// exhausted.
    ///
    /// Yields the head of [`ArgumentIterator::outputs`] and owes the rest
    /// afterwards. Keys are resolved to references into the key-specifier
    /// slice.
    pub fn next(&mut self) -> (r: Option<Result<(&'b T, &'a str), ParseError<'a>>>)
        requires
            old(self).wf(),
        ensures
            final(self).wf(),
            final(self).options_spec() == old(self).options_spec(),
            final(self).keys_spec() == old(self).keys_spec(),
            match r {
                Option::None => old(self).outputs().len() == 0 && final(self).outputs().len()
                    == 0,
                Option::Some(item) => old(self).outputs().len() > 0 && final(self).outputs()
                    == old(self).outputs().drop_first() && output_matches::<T>(
                    item,
                    old(self).outputs()[0],
                    old(self).options_spec(),
                ),
            },
    {
        loop
            invariant
                self.wf(),
                self.options_spec() == old(self).options_spec(),
                self.keys_spec() == old(self).keys_spec(),
                self.outputs() == old(self).outputs(),
            decreases self.args.remaining_tokens().len(),
        {
            let ghost toks = self.args.remaining_tokens();
            let arg = match self.args.next() {
                Some(a) => a,
                None => {
                    if let Some(k) = self.last {
                        self.last = None;
                        let key = slice_index_get(self.options, k);
                        proof {
                            reveal_strlit("");
                            assert(""@ =~= Seq::<char>::empty());
                        }
                        return Some(Ok((key, "")));
                    } else {
                        return None;
                    }
                },
            };
            if let Some(k) = self.last {
                self.last = None;
                let key = slice_index_get(self.options, k);
                return Some(Ok((key, arg)));
            } else {
                let n = arg.unicode_len();
                if n > 0 && arg.get_char(0) == '-' {
                    let stripped = arg.substring_char(1, n);
                    proof {
                        assert(stripped@ =~= toks[0].drop_first());
                    }
                    match self.find(stripped) {
                        Some(i) => {
                            self.last = Some(i);
                        },
                        None => {
                            return Some(Err(ParseError::UnknownKey(stripped)));
                        },
                    }
                } else {
                    return Some(Err(ParseError::NotAKey(arg)));
                }
            }
        }
    }
}

/// Parse the command line.
///
/// The command line is tokenized by [`split_tokens`] and the tokens are
/// paired against the keys by [`match_tokens`]: each `-key` pairs with the
/// token after it.
pub fn parse<'a, 'b, T: ToString>(cmdline: &'a str, options: &'b [T]) -> (r: ArgumentIterator<
    'a,
    'b,
    T,
>)
    ensures
        r.wf(),
        r.options_spec() == options@,
        r.keys_spec().len() == options@.len(),
        forall|i: int|
            0 <= i < options@.len() ==> r.keys_spec()[i] == first_lower_spec(
                options@[i].str_spec(),
            ),
        r.outputs() == match_tokens(split_tokens(cmdline@), r.keys_spec()),
{
    let args = SplitArgs::new(cmdline);
    ArgumentIterator::new(TokenSource::Line(args), options)
}

/// Parse from pre-tokenized input.
///
/// It's like [`parse`], but instead of taking a command line and splitting
/// it using [`SplitArgs`] it takes the tokens from a list the caller built.
pub fn parse_from_iter<'a, 'b, T: ToString>(args: Vec<&'a str>, options: &'b [T]) -> (r:
    ArgumentIterator<'a, 'b, T>)
    ensures
        r.wf(),
        r.options_spec() == options@,
        r.keys_spec().len() == options@.len(),
        forall|i: int|
            0 <= i < options@.len() ==> r.keys_spec()[i] == first_lower_spec(
                options@[i].str_spec(),
            ),
        r.outputs() == match_tokens(args@.map_values(|t: &str| t@), r.keys_spec()),
{
    proof {
        assert(args@.skip(0) =~= args@);
    }
    ArgumentIterator::new(TokenSource::List(args, 0), options)
}

/// A command line holding only the program name yields nothing.
pub proof fn lemma_program_name_only(prog: Seq<char>, keys: Seq<Seq<char>>)
    ensures
        match_tokens(seq![prog], keys).len() == 0,
{
    assert(seq![prog].drop_first() =~= Seq::<Seq<char>>::empty());
}

/// A token in key position without the leading dash reports `NotAKey` and
/// scanning goes on: the outcomes after it are those of the remaining tokens.
pub proof fn lemma_not_a_key_recovery(tokens: Seq<Seq<char>>, keys: Seq<Seq<char>>)
    requires
        tokens.len() > 0,
        tokens[0].len() == 0 || tokens[0][0] != '-',
    ensures
        match_rest(tokens, keys, None) == seq![
            Result::<(int, Seq<char>), SpecParseError>::Err(SpecParseError::NotAKey(tokens[0])),
        ] + match_rest(tokens.drop_first(), keys, None),
{
}

/// A dashed token naming no accepted key reports `UnknownKey`, carrying the
/// stripped token, and scanning goes on with no key pending.
pub proof fn lemma_unknown_key_recovery(tokens: Seq<Seq<char>>, keys: Seq<Seq<char>>)
    requires
        tokens.len() > 0,
        tokens[0].len() > 0,
        tokens[0][0] == '-',
        find_key(keys, tokens[0].drop_first()) is None,
    ensures
        match_rest(tokens, keys, None) == seq![
            Result::<(int, Seq<char>), SpecParseError>::Err(
                SpecParseError::UnknownKey(tokens[0].drop_first()),
            ),
        ] + match_rest(tokens.drop_first(), keys, None),
{
}

/// A command line that ends right after a key pairs that key with the empty
/// string.
pub proof fn lemma_trailing_key_pairs_with_empty(keys: Seq<Seq<char>>, key: Seq<char>)
    requires
        find_key(keys, key) is Some,
    ensures
        match_rest(seq![seq!['-'] + key], keys, None) == seq![
            Result::<(int, Seq<char>), SpecParseError>::Ok(
                (find_key(keys, key)->Some_0, Seq::<char>::empty()),
            ),
        ],
{
    let dashed = seq!['-'] + key;
    let i = find_key(keys, key)->Some_0;
    assert(dashed.len() > 0 && dashed[0] == '-');
    assert(dashed.drop_first() =~= key);
    assert(seq![dashed].drop_first() =~= Seq::<Seq<char>>::empty());
    assert(match_rest(Seq::<Seq<char>>::empty(), keys, Some(i)) == seq![
        Result::<(int, Seq<char>), SpecParseError>::Ok((i, Seq::<char>::empty())),
    ]);
}

/// Repetition: the same key may appear several times on a command line, and
/// each occurrence pairs with its own value, independently and in order.
pub proof fn lemma_repeated_key_independent_pairs(
    keys: Seq<Seq<char>>,
    prog: Seq<char>,
    key: Seq<char>,
    v1: Seq<char>,
    v2: Seq<char>,
)
    requires
        find_key(keys, key) is Some,
    ensures
        ({
            let i = find_key(keys, key)->Some_0;
            match_tokens(seq![prog, seq!['-'] + key, v1, seq!['-'] + key, v2], keys) == seq![
                Result::<(int, Seq<char>), SpecParseError>::Ok((i, v1)),
                Result::<(int, Seq<char>), SpecParseError>::Ok((i, v2)),
            ]
        }),
{
    let i = find_key(keys, key)->Some_0;
    let dashed = seq!['-'] + key;
    let toks = seq![prog, dashed, v1, dashed, v2];
    assert(dashed.len() > 0 && dashed[0] == '-');
    assert(dashed.drop_first() =~= key);
    assert(toks.drop_first() =~= seq![dashed, v1, dashed, v2]);
    assert(seq![dashed, v1, dashed, v2].drop_first() =~= seq![v1, dashed, v2]);
    assert(seq![v1, dashed, v2].drop_first() =~= seq![dashed, v2]);
    assert(seq![dashed, v2].drop_first() =~= seq![v2]);
    assert(seq![v2].drop_first() =~= Seq::<Seq<char>>::empty());
    assert(match_rest(seq![v2].drop_first(), keys, None) =~= Seq::<SpecOutput>::empty());
    assert(match_rest(seq![dashed, v2], keys, None) == match_rest(seq![v2], keys, Some(i)));
    assert(match_rest(seq![v1, dashed, v2], keys, Some(i)) =~= seq![
        Result::<(int, Seq<char>), SpecParseError>::Ok((i, v1)),
        Result::<(int, Seq<char>), SpecParseError>::Ok((i, v2)),
    ]);
    assert(match_tokens(toks, keys) == match_rest(seq![dashed, v1, dashed, v2], keys, None));
}

/// The help line for one key: a dash, the normalized key, a tab, the doc
/// text.
pub open spec fn help_line_spec(name: Seq<char>, doc: Seq<char>) -> Seq<char> {
    seq!['-'] + first_lower_spec(name) + seq!['\t'] + doc
}

/// The help text for a list of keys: their help lines joined with newlines.
pub open spec fn help_text_spec(names: Seq<Seq<char>>, docs: Seq<Seq<char>>) -> Seq<char>
    decreases names.len(),
{
    if names.len() == 0 {
        Seq::empty()
    } else if names.len() == 1 {
        help_line_spec(names[0], docs[0])
    } else {
        help_line_spec(names[0], docs[0]) + seq!['\n'] + help_text_spec(
            names.drop_first(),
            docs.drop_first(),
        )
    }
}

/// Appending one entry appends one help line, behind a newline unless it is
/// the first.
proof fn lemma_help_text_snoc(
    names: Seq<Seq<char>>,
    docs: Seq<Seq<char>>,
    name: Seq<char>,
    doc: Seq<char>,
)
    requires
        names.len() == docs.len(),
    ensures
        help_text_spec(names.push(name), docs.push(doc)) == if names.len() == 0 {
            help_line_spec(name, doc)
        } else {
            help_text_spec(names, docs) + seq!['\n'] + help_line_spec(name, doc)
        },
    decreases names.len(),
{
    let ns = names.push(name);
    let ds = docs.push(doc);
    if names.len() == 0 {
        assert(ns.len() == 1 && ns[0] == name && ds[0] == doc);
    } else {
        lemma_help_text_snoc(names.drop_first(), docs.drop_first(), name, doc);
        assert(ns.drop_first() =~= names.drop_first().push(name));
        assert(ds.drop_first() =~= docs.drop_first().push(doc));
        assert(ns[0] == names[0] && ds[0] == docs[0]);
        if names.len() == 1 {
            assert(help_text_spec(ns, ds) == help_line_spec(names[0], docs[0]) + seq!['\n']
                + help_line_spec(name, doc));
        } else {
            assert(help_text_spec(names, docs) + seq!['\n'] + help_line_spec(name, doc) =~= (
            help_line_spec(names[0], docs[0]) + seq!['\n'] + help_text_spec(
                names.drop_first(),
                docs.drop_first(),
            )) + seq!['\n'] + help_line_spec(name, doc));
        }
    }
}

/// Render the help line for one key: `-<normalized key>`, a tab, the doc
/// text.
pub fn help_line(name: &str, doc: &str) -> (r: String)
    ensures
        r@ == help_line_spec(name@, doc@),
{
    let mut r = String::from_str("-");
    proof {
        reveal_strlit("-");
        reveal_strlit("\t");
    }
    let lowered = first_lower(name);
    r.append(lowered.as_str());
    r.append("\t");
    r.append(doc);
    proof {
        assert(r@ =~= help_line_spec(name@, doc@));
    }
    r
}

/// Render the help text for keys named `names` with doc lines `docs`: one
/// help line per key, joined with newlines.
pub fn help_text(names: &Vec<String>, docs: &Vec<String>) -> (r: String)
    requires
        names@.len() == docs@.len(),
    ensures
        r@ == help_text_spec(
            names@.map_values(|s: String| s@),
            docs@.map_values(|s: String| s@),
        ),
{
    let mut r = String::new();
    let mut j: usize = 0;
    proof {
        reveal_strlit("\n");
        assert(names@.take(0).map_values(|s: String| s@) =~= Seq::<Seq<char>>::empty());
    }
    while j < names.len()
        invariant
            j <= names@.len(),
            names@.len() == docs@.len(),
            r@ == help_text_spec(
                names@.take(j as int).map_values(|s: String| s@),
                docs@.take(j as int).map_values(|s: String| s@),
            ),
            "\n"@ == seq!['\n'],
        decreases names@.len() - j,
    {
        if j > 0 {
            r.append("\n");
        }
        let line = help_line(names[j].as_str(), docs[j].as_str());
        r.append(line.as_str());
        proof {
            let pre_n = names@.take(j as int).map_values(|s: String| s@);
            let pre_d = docs@.take(j as int).map_values(|s: String| s@);
            lemma_help_text_snoc(pre_n, pre_d, names@[j as int]@, docs@[j as int]@);
            assert(names@.take(j + 1 as int).map_values(|s: String| s@) =~= pre_n.push(
                names@[j as int]@,
            ));
            assert(docs@.take(j + 1 as int).map_values(|s: String| s@) =~= pre_d.push(
                docs@[j as int]@,
            ));
            assert(r@ =~= help_text_spec(
                pre_n.push(names@[j as int]@),
                pre_d.push(docs@[j as int]@),
            ));
        }
        j = j + 1;
    }
    proof {
        assert(names@.take(names@.len() as int) =~= names@);
        assert(docs@.take(docs@.len() as int) =~= docs@);
    }
    r
}

/// The main trait.
///
/// Implement, or generate, this for an enum whose variants each stand for a
/// `-key value` option: the key is the variant's name with its first
/// character lower-cased. They all take a string as a value and may occur
/// multiple times.
pub trait Key: ToString + Sized {
    /// Parse the cmdline.
    ///
    /// You'll get an iterator yielding key value pairs.
    fn parse<'a>(cmdline: &'a str) -> ArgumentIterator<'a, 'static, Self>;

    /// Get a help text: the [`help_text`] of the variants' names and their
    /// doc lines.
    fn help_text() -> &'static str;
}

} // verus!
