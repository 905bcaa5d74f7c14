//! A small TOML lexer that reports each value with the chain of keys leading
//! to it, and a formatter built on it.
use vstd::prelude::*;

pub mod text;
pub mod utilities;
pub mod machine;
pub mod parser;
pub mod value;
pub mod keymap;
pub mod format_model;
pub mod formatting;

use crate::machine::{
    document_result, law_never_stopping, law_true_answer_stops, lemma_answer_decreases, lemma_answer_quiet,
    lemma_run_pending, lemma_run_running, lemma_run_stopped, lemma_step_decreases,
    lemma_safe_run, lemma_step_quiet, run, safe, SpecEvent, SpecOutcome, SpecParser,
};
use crate::parser::EventParser;
use crate::text::push_str;
use crate::utilities::keys_agree;

verus! {

/// How the keys handed out with a value divide into table keys (`[a.b]`),
/// specifier keys (`c.d = ...`) and keys inside the value (arrays and inline tables).
#[derive(Debug, Clone, PartialEq, Eq)]
pub struct TOMLKeyContext {
    pub table_keys: u8,
    pub specifier_keys: u8,
    /// values can have joined keys
    pub value_keys: Vec<u8>,
    /// for comments. in array or inline-table
    pub in_value: bool,
    /// for comments
    pub comment_after_value: bool,
}

/// The mathematical model of a [`TOMLKeyContext`].
pub struct SpecContext {
    pub table_keys: u8,
    pub specifier_keys: u8,
    pub value_keys: Seq<u8>,
    pub in_value: bool,
    pub comment_after_value: bool,
}

impl View for TOMLKeyContext {
    type V = SpecContext;

    open spec fn view(&self) -> SpecContext {
        SpecContext {
            table_keys: self.table_keys,
            specifier_keys: self.specifier_keys,
            value_keys: self.value_keys@,
            in_value: self.in_value,
            comment_after_value: self.comment_after_value,
        }
    }
}

impl SpecContext {
    pub open spec fn empty() -> SpecContext {
        SpecContext {
            table_keys: 0,
            specifier_keys: 0,
            value_keys: Seq::empty(),
            in_value: false,
            comment_after_value: false,
        }
    }
}

impl Default for TOMLKeyContext {
    fn default() -> (r: Self)
        ensures
            r@ == SpecContext::empty(),
    {
        TOMLKeyContext {
            table_keys: 0,
            specifier_keys: 0,
            value_keys: Vec::new(),
            in_value: false,
            comment_after_value: false,
        }
    }
}

impl TOMLKeyContext {
    /// A copy of this context.
    pub fn duplicate(&self) -> (r: Self)
        ensures
            r@ == self@,
    {
        let mut value_keys: Vec<u8> = Vec::new();
        let mut i: usize = 0;
        while i < self.value_keys.len()
            invariant
                i <= self.value_keys@.len(),
                value_keys@ == self.value_keys@.take(i as int),
            decreases self.value_keys@.len() - i,
        {
            value_keys.push(self.value_keys[i]);
            i = i + 1;
            proof {
                assert(value_keys@ =~= self.value_keys@.take(i as int));
            }
        }
        proof {
            assert(value_keys@ =~= self.value_keys@);
        }
        TOMLKeyContext {
            table_keys: self.table_keys,
            specifier_keys: self.specifier_keys,
            value_keys,
            in_value: self.in_value,
            comment_after_value: self.comment_after_value,
        }
    }
}

/// What the lexer hands out besides values: comments, with `yield_comments`.
#[derive(Debug, Clone, Copy)]
pub struct TOMLParseOptions {
    pub yield_comments: bool,
}

impl Default for TOMLParseOptions {
    fn default() -> (r: Self)
        ensures
            !r.yield_comments,
    {
        TOMLParseOptions { yield_comments: false }
    }
}

/// One key of a chain: a name, or a position in an array.
#[derive(Debug, Clone, Copy, PartialEq, Eq, Hash)]
pub enum TOMLKey<'a> {
    Slice(&'a str),
    Index(usize),
}

/// The mathematical model of a [`TOMLKey`].
pub enum SpecKey {
    Slice(Seq<char>),
    Index(usize),
}

impl View for TOMLKey<'_> {
    type V = SpecKey;

    open spec fn view(&self) -> SpecKey {
        match self {
            TOMLKey::Slice(s) => SpecKey::Slice(s@),
            TOMLKey::Index(i) => SpecKey::Index(*i),
        }
    }
}

/// The models of a sequence of keys.
pub open spec fn keys_view(keys: Seq<TOMLKey<'_>>) -> Seq<SpecKey> {
    keys.map_values(|k: TOMLKey<'_>| k@)
}

/// What [`TOMLKey::same_variant`] answers.
pub open spec fn spec_same_variant(a: SpecKey, b: SpecKey) -> bool {
    match (a, b) {
        (SpecKey::Slice(_), SpecKey::Slice(_)) => true,
        (SpecKey::Index(x), SpecKey::Index(y)) => x == y,
        _ => false,
    }
}

impl TOMLKey<'_> {
    /// Whether both keys are names, or both are the same index.
    #[must_use]
    pub fn same_variant(&self, other: &Self) -> (r: bool)
        ensures
            r == spec_same_variant(self@, other@),
    {
        match (self, other) {
            (Self::Slice(_), Self::Slice(_)) => true,
            (Self::Index(a), Self::Index(b)) => *a == *b,
            _ => false,
        }
    }

    /// Whether two keys are equal: the same name, or the same index.
    pub fn key_eq(&self, other: &Self) -> (r: bool)
        ensures
            r == (self@ == other@),
    {
        match (self, other) {
            (Self::Slice(a), Self::Slice(b)) => crate::text::str_eq(a, b),
            (Self::Index(a), Self::Index(b)) => *a == *b,
            _ => false,
        }
    }
}

/// The level a key is pushed at: a table header, a specifier before `=`, or a
/// key inside a value.
#[derive(Debug, Copy, Clone, PartialEq, Eq)]
pub enum Level {
    Table,
    Specifier,
    Value,
}

impl Default for Level {
    fn default() -> (r: Self)
        ensures
            r == Level::Specifier,
    {
        Level::Specifier
    }
}

/// A value (or comment) found in the document.
#[derive(Debug, PartialEq, Hash, Clone, Copy)]
pub enum RootTOMLValue<'a> {
    String(TOMLStringValue<'a>),
    Number(TOMLNumberValue<'a>),
    Boolean(bool),
    /// Not a value but for formamtting
    Comment(&'a str),
    /// For document preservation
    EmptyArray,
    EmptyInlineTable,
}

/// The mathematical model of a [`RootTOMLValue`].
pub enum SpecValue {
    /// The raw text between the quotes, and whether the string is literal.
    String(Seq<char>, bool),
    Number(Seq<char>),
    Boolean(bool),
    Comment(Seq<char>),
    EmptyArray,
    EmptyInlineTable,
}

impl View for RootTOMLValue<'_> {
    type V = SpecValue;

    open spec fn view(&self) -> SpecValue {
        match self {
            RootTOMLValue::String(s) => SpecValue::String(s@.0, s@.1),
            RootTOMLValue::Number(n) => SpecValue::Number(n@),
            RootTOMLValue::Boolean(b) => SpecValue::Boolean(*b),
            RootTOMLValue::Comment(c) => SpecValue::Comment(c@),
            RootTOMLValue::EmptyArray => SpecValue::EmptyArray,
            RootTOMLValue::EmptyInlineTable => SpecValue::EmptyInlineTable,
        }
    }
}

/// Last is literal
#[derive(Debug, PartialEq, Eq, Hash, Clone, Copy)]
pub struct TOMLStringValue<'a> {
    pub(crate) on: &'a str,
    pub(crate) literal: bool,
}

/// A number (or date, or other bare value) with its raw text.
#[derive(Debug, PartialEq, Eq, Hash, Clone, Copy)]
pub struct TOMLNumberValue<'a>(pub(crate) &'a str);

impl View for TOMLStringValue<'_> {
    /// The raw text between the quotes, and whether the string is literal.
    type V = (Seq<char>, bool);

    closed spec fn view(&self) -> (Seq<char>, bool) {
        (self.on@, self.literal)
    }
}

impl<'a> TOMLStringValue<'a> {
    pub(crate) fn new(on: &'a str, literal: bool) -> (r: Self)
        ensures
            r@ == (on@, literal),
    {
        TOMLStringValue { on, literal }
    }
}

impl<'a> TOMLNumberValue<'a> {
    pub(crate) fn new(on: &'a str) -> (r: Self)
        ensures
            r@ == on@,
    {
        TOMLNumberValue(on)
    }
}

impl View for TOMLNumberValue<'_> {
    type V = Seq<char>;

    closed spec fn view(&self) -> Seq<char> {
        self.0@
    }
}

/// The quote a key is inside of, if any.
#[derive(Debug)]
pub struct KeyState {
    pub in_string: Option<char>,
}

impl Default for KeyState {
    fn default() -> (r: Self)
        ensures
            r.in_string is None,
    {
        KeyState { in_string: None }
    }
}

/// Why a document was rejected.
#[derive(Debug, Clone, Copy, PartialEq, Eq)]
pub enum TOMLParseErrorReason {
    ExpectedColon,
    ExpectedEndOfValue,
    ExpectedBracket,
    ExpectedBoolean,
    ExpectedValue,
    ExpectedEqual,
    ExpectedQuote,
    ExpectedEndOfMultilineComment,
    ExpectedKey,
    InvalidKey,
}

/// A syntax error, at a byte offset of the input.
#[derive(Debug, Clone, Copy, PartialEq, Eq)]
pub struct TOMLParseError {
    pub at: usize,
    pub reason: TOMLParseErrorReason,
}

/// The name of a reason, as `{:?}` shows it.
pub open spec fn reason_name(r: TOMLParseErrorReason) -> Seq<char> {
    match r {
        TOMLParseErrorReason::ExpectedColon => "ExpectedColon"@,
        TOMLParseErrorReason::ExpectedEndOfValue => "ExpectedEndOfValue"@,
        TOMLParseErrorReason::ExpectedBracket => "ExpectedBracket"@,
        TOMLParseErrorReason::ExpectedBoolean => "ExpectedBoolean"@,
        TOMLParseErrorReason::ExpectedValue => "ExpectedValue"@,
        TOMLParseErrorReason::ExpectedEqual => "ExpectedEqual"@,
        TOMLParseErrorReason::ExpectedQuote => "ExpectedQuote"@,
        TOMLParseErrorReason::ExpectedEndOfMultilineComment => "ExpectedEndOfMultilineComment"@,
        TOMLParseErrorReason::ExpectedKey => "ExpectedKey"@,
        TOMLParseErrorReason::InvalidKey => "InvalidKey"@,
    }
}

/// The decimal digit for `d` (below ten).
pub open spec fn digit_char(d: nat) -> char {
    if d == 0 {
        '0'
    } else if d == 1 {
        '1'
    } else if d == 2 {
        '2'
    } else if d == 3 {
        '3'
    } else if d == 4 {
        '4'
    } else if d == 5 {
        '5'
    } else if d == 6 {
        '6'
    } else if d == 7 {
        '7'
    } else if d == 8 {
        '8'
    } else {
        '9'
    }
}

/// `n` in decimal, without leading zeros.
pub open spec fn decimal(n: nat) -> Seq<char>
    decreases n,
{
    if n < 10 {
        seq![digit_char(n)]
    } else {
        decimal(n / 10).push(digit_char(n % 10))
    }
}

fn push_decimal(out: &mut Vec<char>, n: usize)
    ensures
        final(out)@ == old(out)@ + decimal(n as nat),
    decreases n,
{
    if n >= 10 {
        push_decimal(out, n / 10);
    }
    let d = n % 10;
    let c = if d == 0 {
        '0'
    } else if d == 1 {
        '1'
    } else if d == 2 {
        '2'
    } else if d == 3 {
        '3'
    } else if d == 4 {
        '4'
    } else if d == 5 {
        '5'
    } else if d == 6 {
        '6'
    } else if d == 7 {
        '7'
    } else if d == 8 {
        '8'
    } else {
        '9'
    };
    let ghost before = out@;
    out.push(c);
    proof {
        if n >= 10 {
            assert(out@ =~= old(out)@ + decimal(n as nat));
        } else {
            assert(out@ =~= old(out)@ + seq![c]);
        }
    }
}

impl TOMLParseError {
    /// The message shown for the error: `TOMLParseError: ` and the reason,
    /// then ` at ` and the byte offset.
    pub fn message(&self) -> (r: String)
        ensures
            r@ == "TOMLParseError: "@ + reason_name(self.reason) + " at "@ + decimal(self.at as nat),
    {
        let mut out: Vec<char> = Vec::new();
        push_str(&mut out, "TOMLParseError: ");
        let name = match self.reason {
            TOMLParseErrorReason::ExpectedColon => "ExpectedColon",
            TOMLParseErrorReason::ExpectedEndOfValue => "ExpectedEndOfValue",
            TOMLParseErrorReason::ExpectedBracket => "ExpectedBracket",
            TOMLParseErrorReason::ExpectedBoolean => "ExpectedBoolean",
            TOMLParseErrorReason::ExpectedValue => "ExpectedValue",
            TOMLParseErrorReason::ExpectedEqual => "ExpectedEqual",
            TOMLParseErrorReason::ExpectedQuote => "ExpectedQuote",
            TOMLParseErrorReason::ExpectedEndOfMultilineComment => "ExpectedEndOfMultilineComment",
            TOMLParseErrorReason::ExpectedKey => "ExpectedKey",
            TOMLParseErrorReason::InvalidKey => "InvalidKey",
        };
        push_str(&mut out, name);
        push_str(&mut out, " at ");
        push_decimal(&mut out, self.at);
        crate::utilities::chars_to_string(&out)
    }
}

/// Parses a whole document, handing each value (and, with
/// `yield_comments`, each comment) to `cb` with the keys leading to it. When
/// `cb` answers `true` the parse stops.
///
/// # Errors
/// Returns an error where the keys, table headers or comments of the document
/// are invalid TOML. An error inside a value after a key's `=` is not
/// reported: the value is dropped, and the parse goes on at the top level
/// after the char where the error was found.
pub fn parse_toml_with_options<'a, F>(on: &'a str, options: TOMLParseOptions, cb: F) -> (r: Result<(), TOMLParseError>)
    where
        F: FnMut(&[TOMLKey<'a>], &TOMLKeyContext, RootTOMLValue<'a>) -> bool,
    requires
        safe(SpecParser::init(on@, options.yield_comments, true)),
        forall|f: F, k: &[TOMLKey<'a>], c: &TOMLKeyContext, v: RootTOMLValue<'a>|
            keys_agree(keys_view(k@), c@) && (options.yield_comments || !(v@ is Comment)) ==> call_requires(f, (k, c, v)),
    ensures
        exists|answers: Seq<bool>|
            answered_by::<'a, F>(#[trigger] run(SpecParser::init(on@, options.yield_comments, true), answers).0, answers)
            && r == document_result(run(SpecParser::init(on@, options.yield_comments, true), answers).1),
{
    let _bytes = crate::text::str_byte_len(on);
    proof {
        crate::text::lemma_len_le_byte_len(on@);
        assert forall|answers: Seq<bool>| #[trigger]
            run(SpecParser::init(on@, options.yield_comments, true), answers).1 is Done by {
            lemma_safe_run(SpecParser::init(on@, options.yield_comments, true), answers);
        }
    }
    match drive(on, options.yield_comments, true, cb) {
        Some(Err(e)) => Err(e),
        Some(Ok(_)) => Ok(()),
        None => {
            proof {
                assert(false);
            }
            Ok(())
        },
    }
}

/// Parses a whole document as [`parse_toml_with_options`] does, or gives
/// `None` where the lexer reaches a construct it does not handle.
pub fn try_parse_toml_with_options<'a, F>(on: &'a str, options: TOMLParseOptions, cb: F) -> (r: Option<Result<(), TOMLParseError>>)
    where
        F: FnMut(&[TOMLKey<'a>], &TOMLKeyContext, RootTOMLValue<'a>) -> bool,
    requires
        forall|f: F, k: &[TOMLKey<'a>], c: &TOMLKeyContext, v: RootTOMLValue<'a>|
            keys_agree(keys_view(k@), c@) && (options.yield_comments || !(v@ is Comment)) ==> call_requires(f, (k, c, v)),
    ensures
        exists|answers: Seq<bool>|
            answered_by::<'a, F>(#[trigger] run(SpecParser::init(on@, options.yield_comments, true), answers).0, answers)
            && match run(SpecParser::init(on@, options.yield_comments, true), answers).1 {
                SpecOutcome::Done(res) => r == Some(document_result(SpecOutcome::Done(res))),
                SpecOutcome::Faulted => r is None,
            },
{
    match drive(on, options.yield_comments, true, cb) {
        Some(Err(e)) => Some(Err(e)),
        Some(Ok(_)) => Some(Ok(())),
        None => None,
    }
}

/// Whether a callback of type `F`, handed the value `e` with its keys and
/// context, may answer `a`.
pub open spec fn may_answer<'a, F>(e: SpecEvent, a: bool) -> bool
    where
        F: FnMut(&[TOMLKey<'a>], &TOMLKeyContext, RootTOMLValue<'a>) -> bool,
{
    exists|f: F, k: &[TOMLKey<'a>], c: &TOMLKeyContext, v: RootTOMLValue<'a>|
        keys_view(k@) == e.keys && c@ == e.ctx && v@ == e.value && #[trigger] call_ensures(f, (k, c, v), a)
}

/// Whether a callback of type `F` may have been handed the value `e` with
/// its keys.
pub open spec fn may_receive<'a, F>(e: SpecEvent) -> bool
    where
        F: FnMut(&[TOMLKey<'a>], RootTOMLValue<'a>),
{
    exists|f: F, k: &[TOMLKey<'a>], v: RootTOMLValue<'a>|
        keys_view(k@) == e.keys && v@ == e.value && #[trigger] call_ensures(f, (k, v), ())
}

/// Whether `answers` holds one answer for each value of `evs` that a
/// callback of type `F` may give.
pub open spec fn answered_by<'a, F>(evs: Seq<SpecEvent>, answers: Seq<bool>) -> bool
    where
        F: FnMut(&[TOMLKey<'a>], &TOMLKeyContext, RootTOMLValue<'a>) -> bool,
{
    &&& evs.len() == answers.len()
    &&& forall|i: int| 0 <= i < answers.len() ==> may_answer::<'a, F>(#[trigger] evs[i], answers[i])
}

/// A callback that can only answer `false` gets the whole run: the answers it
/// gave change nothing.
pub proof fn law_callback_never_stopping<'a, F>(input: Seq<char>, yield_comments: bool, document: bool, answers: Seq<bool>)
    where
        F: FnMut(&[TOMLKey<'a>], &TOMLKeyContext, RootTOMLValue<'a>) -> bool,
    requires
        input.len() <= usize::MAX,
        forall|f: F, k: &[TOMLKey<'a>], c: &TOMLKeyContext, v: RootTOMLValue<'a>, a: bool|
            #[trigger] call_ensures(f, (k, c, v), a) ==> !a,
        answered_by::<'a, F>(run(SpecParser::init(input, yield_comments, document), answers).0, answers),
    ensures
        run(SpecParser::init(input, yield_comments, document), answers) == run(
            SpecParser::init(input, yield_comments, document),
            Seq::empty(),
        ),
{
    let evs = run(SpecParser::init(input, yield_comments, document), answers).0;
    assert forall|i: int| 0 <= i < answers.len() implies !answers[i] by {
        assert(may_answer::<'a, F>(evs[i], answers[i]));
    }
    law_never_stopping(SpecParser::init(input, yield_comments, document), answers);
}

/// A callback that answers `true` to the value it is handed first gets no
/// other: the parse stops there, and succeeds.
pub proof fn law_callback_stopping_at_once<'a, F>(input: Seq<char>, yield_comments: bool, document: bool, answers: Seq<bool>)
    where
        F: FnMut(&[TOMLKey<'a>], &TOMLKeyContext, RootTOMLValue<'a>) -> bool,
    requires
        input.len() <= usize::MAX,
        forall|f: F, k: &[TOMLKey<'a>], c: &TOMLKeyContext, v: RootTOMLValue<'a>, a: bool|
            #[trigger] call_ensures(f, (k, c, v), a) ==> a,
        answered_by::<'a, F>(run(SpecParser::init(input, yield_comments, document), answers).0, answers),
    ensures
        run(SpecParser::init(input, yield_comments, document), answers).0.len() <= 1,
        run(SpecParser::init(input, yield_comments, document), answers).0.len() == 1 ==> run(
            SpecParser::init(input, yield_comments, document),
            answers,
        ).1 matches SpecOutcome::Done(Ok(_)),
{
    let evs = run(SpecParser::init(input, yield_comments, document), answers).0;
    if evs.len() > 0 {
        assert(may_answer::<'a, F>(evs[0], answers[0]));
        law_true_answer_stops(SpecParser::init(input, yield_comments, document), answers, 0);
    }
}

/// Runs the lexer on `on`, asking `cb` about each value; the result is what
/// the run ends with for the answers `cb` gave, or `None` where the run
/// reaches a point the lexer does not handle.
pub(crate) fn drive<'a, F>(on: &'a str, yield_comments: bool, document: bool, mut cb: F) -> (r: Option<Result<Option<usize>, TOMLParseError>>)
    where
        F: FnMut(&[TOMLKey<'a>], &TOMLKeyContext, RootTOMLValue<'a>) -> bool,
    requires
        forall|f: F, k: &[TOMLKey<'a>], c: &TOMLKeyContext, v: RootTOMLValue<'a>|
            keys_agree(keys_view(k@), c@) && (yield_comments || !(v@ is Comment)) ==> call_requires(f, (k, c, v)),
    ensures
        exists|answers: Seq<bool>|
            answered_by::<'a, F>(#[trigger] run(SpecParser::init(on@, yield_comments, document), answers).0, answers)
            && match run(SpecParser::init(on@, yield_comments, document), answers).1 {
                SpecOutcome::Done(res) => r == Some(res),
                SpecOutcome::Faulted => r is None,
            },
{
    let mut p = EventParser::new(on, yield_comments, document);
    let ghost init = p@;
    let ghost mut answers: Seq<bool> = Seq::empty();
    let ghost mut evs: Seq<SpecEvent> = Seq::empty();
    proof {
        assert forall|suf: Seq<bool>| #[trigger] run(init, answers + suf) == (evs + run(p@, suf).0, run(p@, suf).1) by {
            assert(answers + suf =~= suf);
            assert(evs + run(p@, suf).0 =~= run(p@, suf).0);
        }
    }
    loop
        invariant
            p.inv(),
            init == SpecParser::init(on@, yield_comments, document),
            forall|suf: Seq<bool>| #[trigger] run(init, answers + suf) == (evs + run(p@, suf).0, run(p@, suf).1),
            answered_by::<'a, F>(evs, answers),
            forall|f: F, k: &[TOMLKey<'a>], c: &TOMLKeyContext, v: RootTOMLValue<'a>|
                keys_agree(keys_view(k@), c@) && (yield_comments || !(v@ is Comment)) ==> call_requires(f, (k, c, v)),
            p@.quiet(),
            p@.yield_comments == yield_comments,
        decreases p@.measure(),
    {
        proof {
            p.lemma_inv();
        }
        let kind = p.phase_kind();
        if kind == 0 {
            proof {
                lemma_step_decreases(p@);
            }
            let ghost before = p@;
            p.step();
            proof {
                lemma_step_quiet(before);
                lemma_run_running(before, Seq::empty());
                assert forall|suf: Seq<bool>| #[trigger] run(init, answers + suf) == (evs + run(p@, suf).0, run(p@, suf).1) by {
                    lemma_run_running(before, suf);
                }
            }
        } else if kind == 1 {
            let (v, _) = p.pending();
            let keys = p.keys();
            let context = p.context();
            let ghost f0 = cb;
            let stop = cb(keys, context, v);
            let ghost before = p@;
            proof {
                lemma_answer_decreases(p@, stop);
                lemma_run_pending(before, stop, Seq::empty());
                assert(call_ensures(f0, (keys, context, v), stop));
                assert(may_answer::<'a, F>(before.event(), stop));
            }
            p.answer(stop);
            proof {
                lemma_answer_quiet(before, stop);
                let evs2 = evs.push(before.event());
                let answers2 = answers.push(stop);
                assert forall|suf: Seq<bool>| #[trigger] run(init, answers2 + suf) == (evs2 + run(p@, suf).0, run(p@, suf).1) by {
                    let s2 = seq![stop] + suf;
                    assert(answers2 + suf =~= answers + s2);
                    assert(s2[0] == stop);
                    lemma_run_pending(before, stop, suf);
                    assert(evs + (seq![before.event()] + run(p@, suf).0) =~= evs2 + run(p@, suf).0);
                }
                assert forall|i: int| 0 <= i < answers2.len() implies may_answer::<'a, F>(#[trigger] evs2[i], answers2[i]) by {
                    if i < answers.len() {
                        assert(evs2[i] == evs[i] && answers2[i] == answers[i]);
                    }
                }
                answers = answers2;
                evs = evs2;
            }
        } else if kind == 2 {
            let r = p.result();
            proof {
                lemma_run_stopped(p@, Seq::empty());
                assert(answers + Seq::<bool>::empty() =~= answers);
                assert(run(init, answers + Seq::<bool>::empty()) == (evs + Seq::<SpecEvent>::empty(), run(p@, Seq::<bool>::empty()).1));
                assert(evs + Seq::<SpecEvent>::empty() =~= evs);
                assert(run(init, answers).0 == evs);
                assert(answered_by::<'a, F>(run(init, answers).0, answers));
            }
            return Some(r);
        } else {
            proof {
                lemma_run_stopped(p@, Seq::empty());
                assert(answers + Seq::<bool>::empty() =~= answers);
                assert(run(init, answers + Seq::<bool>::empty()) == (evs + run(p@, Seq::<bool>::empty()).0, run(p@, Seq::<bool>::empty()).1));
                assert(evs + Seq::<SpecEvent>::empty() =~= evs);
                assert(run(init, answers).0 == evs);
                assert(answered_by::<'a, F>(run(init, answers).0, answers));
            }
            return None;
        }
    }
}

/// If you want to return early (not parse the whole input) use [`parse_toml_with_options`]
/// and that contains more information about keys
///
/// # Errors
/// Returns an error where the keys, table headers or comments of the document
/// are invalid TOML. An error inside a value after a key's `=` is not
/// reported: the value is dropped, and the parse goes on at the top level
/// after the char where the error was found.
pub fn parse_toml<'a, F>(on: &'a str, mut cb: F) -> (r: Result<(), TOMLParseError>)
    where
        F: FnMut(&[TOMLKey<'a>], RootTOMLValue<'a>),
    requires
        run(SpecParser::init(on@, false, true), Seq::empty()).1 is Done,
        forall|f: F, k: &[TOMLKey<'a>], v: RootTOMLValue<'a>| call_requires(f, (k, v)),
    ensures
        r == document_result(run(SpecParser::init(on@, false, true), Seq::empty()).1),
        forall|i: int|
            0 <= i < run(SpecParser::init(on@, false, true), Seq::empty()).0.len() ==> may_receive::<'a, F>(
                #[trigger] run(SpecParser::init(on@, false, true), Seq::empty()).0[i],
            ),
{
    let mut p = EventParser::new(on, false, true);
    let ghost init = p@;
    let ghost mut evs: Seq<SpecEvent> = Seq::empty();
    proof {
        assert(evs + run(p@, Seq::empty()).0 =~= run(p@, Seq::empty()).0);
    }
    loop
        invariant
            p.inv(),
            run(p@, Seq::empty()).1 == run(init, Seq::empty()).1,
            run(init, Seq::empty()).0 == evs + run(p@, Seq::empty()).0,
            forall|i: int| 0 <= i < evs.len() ==> may_receive::<'a, F>(#[trigger] evs[i]),
            run(init, Seq::empty()).1 is Done,
            init == SpecParser::init(on@, false, true),
            forall|f: F, k: &[TOMLKey<'a>], v: RootTOMLValue<'a>| call_requires(f, (k, v)),
        decreases p@.measure(),
    {
        proof {
            p.lemma_inv();
        }
        let kind = p.phase_kind();
        if kind == 0 {
            proof {
                lemma_step_decreases(p@);
                lemma_run_running(p@, Seq::empty());
            }
            p.step();
        } else if kind == 1 {
            let (v, _) = p.pending();
            let keys = p.keys();
            let ghost f0 = cb;
            cb(keys, v);
            let ghost before = p@;
            proof {
                assert(call_ensures(f0, (keys, v), ()));
                assert(may_receive::<'a, F>(before.event()));
                lemma_answer_decreases(p@, false);
                lemma_run_pending(p@, false, Seq::empty());
            }
            p.answer(false);
            proof {
                let evs2 = evs.push(before.event());
                assert(evs + (seq![before.event()] + run(p@, Seq::empty()).0) =~= evs2 + run(p@, Seq::empty()).0);
                assert forall|i: int| 0 <= i < evs2.len() implies may_receive::<'a, F>(#[trigger] evs2[i]) by {
                    if i < evs.len() {
                        assert(evs2[i] == evs[i]);
                    }
                }
                evs = evs2;
            }
        } else if kind == 2 {
            proof {
                lemma_run_stopped(p@, Seq::empty());
                assert(evs + Seq::<SpecEvent>::empty() =~= evs);
            }
            return match p.result() {
                Err(e) => Err(e),
                Ok(_) => Ok(()),
            };
        } else {
            proof {
                lemma_run_stopped(p@, Seq::empty());
            }
            return Ok(());
        }
    }
}

} // verus!
