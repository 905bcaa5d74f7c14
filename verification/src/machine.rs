//! The TOML lexer as a state machine.
//!
//! Each step reads one char (a few for `[[`, `"""` and `]]`). When a value or
//! comment is found the machine stops with it pending; whoever drives the
//! machine shows it to the user's callback and hands the answer back with
//! [`EventParser::answer`] (`true` asks to stop). The spec functions in this
//! file state every transition; the executable code is checked against them.
use vstd::prelude::*;

use crate::text::{
    byte_len, byte_offset, char_is_alphabetic, char_is_whitespace, lead_ws, spec_utf8_width, trim,
    trim_end, trim_start,
};
use crate::utilities::SpecChain;
use crate::{Level, SpecKey, SpecValue, TOMLParseError, TOMLParseErrorReason};

verus! {

/// Which kind of key the top level is reading.
#[derive(Debug, Clone, Copy, PartialEq, Eq)]
pub enum Context {
    CurrentLevel,
    Table,
    ArrayOfTables,
}

/// The top-level state: between lines, in a comment, or in a key.
#[derive(Debug, Clone, Copy)]
pub enum TopState {
    StartOfLine,
    InComment,
    InKey { in_string: Option<char>, context: Context },
}

/// The state while reading the right-hand side of `=`. Positions are char indices.
#[derive(Debug, Clone, Copy)]
pub enum ValueState {
    /// A key inside an inline table; `joined` once a dotted part was read.
    InKey { start: usize, joined: bool },
    AwaitingEqual,
    InInlineTable { yielded: bool },
    InArray { yielded: bool },
    InComment { start: usize, multiline: bool, last_was_asterisk: bool, hash: bool },
    ExpectingValue,
    StringValue { start: usize, literal: bool, escaped: bool, multiline: bool },
    NumberValue { start: usize },
    Boolean { start: usize },
    EndOfValue,
}

/// What happens after the user has answered about a pending value.
#[derive(Debug, Clone, Copy)]
pub enum Cont {
    /// A top-level comment: stopping ends the parse.
    TopComment,
    /// The comment at the end of the input: the parse ends either way.
    TopFinal,
    /// Stopping ends the value at byte `at`; otherwise go on in state `then`.
    Value { at: usize, then: ValueState },
    /// A number ended by the char `c` at index `i`.
    NumberMid { at: usize, i: usize, c: char },
    /// A number ended by the end of the input.
    NumberEnd { at: usize },
    /// A comment inside a value, ended by the newline at index `i` (byte `at`).
    ValueComment { i: usize, at: usize },
    /// An empty inline table was closed; stopping ends the value at byte `at`.
    TableClosed { at: usize },
    /// An empty array was closed; stopping ends the value at byte `at`.
    ArrayClosed { at: usize },
}

/// The phase of the machine.
pub enum SpecPhase {
    Running,
    /// A value waiting for the user's answer, with the char index where its text starts.
    Pending(SpecValue, usize, Cont),
    Finished(Result<Option<usize>, TOMLParseError>),
    /// The input reaches a point the lexer does not handle.
    Fault,
}

/// The mathematical model of an [`EventParser`].
pub struct SpecParser {
    pub input: Seq<char>,
    pub yield_comments: bool,
    /// Index of the next char to read.
    pub pos: usize,
    pub chain: SpecChain,
    pub top: TopState,
    /// Start of the key or comment read at the top level.
    pub start: usize,
    /// The value state, and the number of keys when the value began.
    pub value: Option<(ValueState, usize)>,
    /// Whether the value parse was started by the top level.
    pub nested: bool,
    pub phase: SpecPhase,
}

/// One value handed to the user: the keys, their context, the value, and the
/// char index where the value's text starts in the input.
pub struct SpecEvent {
    pub keys: Seq<SpecKey>,
    pub ctx: crate::SpecContext,
    pub value: SpecValue,
    pub at: usize,
}

impl SpecEvent {
    /// The keys handed out with a value are exactly the table, specifier and
    /// value keys its context counts.
    pub open spec fn keys_agree(self) -> bool {
        crate::utilities::keys_agree(self.keys, self.ctx)
    }
}

/// How a run ends.
pub enum SpecOutcome {
    Done(Result<Option<usize>, TOMLParseError>),
    Faulted,
}

/// What parsing one key (`a.b."c"`) gives.
pub enum KeyOutcome {
    Done(SpecChain),
    Invalid,
    Fault,
}

/// What [`end_of_value`](EventParser) gives.
pub enum EovOutcome {
    State(ValueState, SpecChain),
    Error(TOMLParseError),
    Fault,
}

pub open spec fn is_quote(c: char) -> bool {
    c == '"' || c == '\''
}

/// Pushes `k` at the given level; `None` where the key count would overflow.
pub open spec fn push_level(chain: SpecChain, k: SpecKey, level: Level) -> Option<SpecChain> {
    match level {
        Level::Table => if chain.ctx.table_keys == 255 {
            None
        } else {
            Some(chain.push_table(k))
        },
        Level::Specifier => if chain.ctx.specifier_keys == 255 {
            None
        } else {
            Some(chain.push_specifier(k))
        },
        Level::Value => Some(chain.push_value(k)),
    }
}

/// Parsing the key `input[ps..pe]` from index `j` on. `last` is where the
/// current key part starts; `in_string` the quote being read, if any.
pub open spec fn key_loop(
    input: Seq<char>,
    ps: int,
    pe: int,
    level: Level,
    j: int,
    last: int,
    in_string: Option<char>,
    found: bool,
    chain: SpecChain,
) -> KeyOutcome
    decreases pe - j,
{
    if j >= pe {
        let key = trim(input.subrange(last, pe));
        if (!found && key.len() == 0) || in_string is Some {
            KeyOutcome::Invalid
        } else if key.len() > 0 {
            match push_level(chain, SpecKey::Slice(key), level) {
                Some(ch) => KeyOutcome::Done(ch),
                None => KeyOutcome::Fault,
            }
        } else {
            KeyOutcome::Done(chain)
        }
    } else {
        let c = input[j];
        if is_quote(c) || c == '.' {
            match in_string {
                Some(q) => if q == c {
                    if last + 1 > j {
                        KeyOutcome::Fault
                    } else {
                        match push_level(chain, SpecKey::Slice(input.subrange(last + 1, j)), level) {
                            Some(ch) => key_loop(input, ps, pe, level, j + 1, j + 1, None, true, ch),
                            None => KeyOutcome::Fault,
                        }
                    }
                } else {
                    key_loop(input, ps, pe, level, j + 1, last, in_string, found, chain)
                },
                None => if c == '.' {
                    if j > ps && is_quote(input[j - 1]) {
                        key_loop(input, ps, pe, level, j + 1, j + 1, None, found, chain)
                    } else {
                        match push_level(
                            chain,
                            SpecKey::Slice(trim(input.subrange(last, j))),
                            level,
                        ) {
                            Some(ch) => key_loop(input, ps, pe, level, j + 1, j + 1, None, true, ch),
                            None => KeyOutcome::Fault,
                        }
                    }
                } else {
                    let before = trim_end(input.subrange(ps, j));
                    if before.len() > 0 && before.last() == '.' {
                        key_loop(input, ps, pe, level, j + 1, last, Some(c), found, chain)
                    } else {
                        KeyOutcome::Fault
                    }
                },
            }
        } else {
            key_loop(input, ps, pe, level, j + 1, last, in_string, found, chain)
        }
    }
}

/// Parsing the key `input[ps..pe]` into `chain` at the given level.
pub open spec fn parse_key(input: Seq<char>, ps: int, pe: int, level: Level, chain: SpecChain) -> KeyOutcome {
    key_loop(input, ps, pe, level, ps, ps, None, false, chain)
}

/// The chain with the last key, an index, moved on by one; `None` on overflow.
pub open spec fn bump_index(chain: SpecChain) -> Option<SpecChain> {
    match chain.keys.last() {
        SpecKey::Index(j) => if j == usize::MAX {
            None
        } else {
            Some(SpecChain { keys: chain.keys.update(chain.keys.len() - 1, SpecKey::Index((j + 1) as usize)), ..chain })
        },
        _ => None,
    }
}

/// A new comment state starting after index `i`.
pub open spec fn comment_state(i: int, c: char) -> ValueState {
    ValueState::InComment {
        start: (i + 1) as usize,
        multiline: false,
        last_was_asterisk: false,
        hash: c == '#',
    }
}

/// The state after a comment line inside a value.
pub open spec fn after_comment_state(chain: SpecChain) -> ValueState {
    if chain.last_is_index() {
        ValueState::InArray { yielded: true }
    } else {
        ValueState::InInlineTable { yielded: true }
    }
}

/// Whether the first non-whitespace char at or after `i` is `#`.
pub open spec fn rest_starts_with_hash(input: Seq<char>, i: int) -> bool {
    let rest = trim_start(input.subrange(i, input.len() as int));
    rest.len() > 0 && rest[0] == '#'
}

/// The text of a multiline string without its first newline.
pub open spec fn strip_first_newline(s: Seq<char>) -> Seq<char> {
    if s.len() >= 2 && s[0] == '\r' && s[1] == '\n' {
        s.skip(2)
    } else if s.len() >= 1 && s[0] == '\n' {
        s.skip(1)
    } else {
        s
    }
}

impl SpecParser {
    /// Byte offset of char `i`.
    pub open spec fn bo(self, i: int) -> usize {
        byte_offset(self.input, i) as usize
    }

    pub open spec fn blen(self) -> usize {
        self.bo(self.input.len() as int)
    }

    pub open spec fn err(self, i: int, reason: TOMLParseErrorReason) -> TOMLParseError {
        TOMLParseError { at: self.bo(i), reason }
    }

    pub open spec fn finish(self, r: Result<Option<usize>, TOMLParseError>) -> SpecParser {
        SpecParser { phase: SpecPhase::Finished(r), ..self }
    }

    pub open spec fn fault(self) -> SpecParser {
        SpecParser { phase: SpecPhase::Fault, ..self }
    }

    /// The machine with its key chain emptied (once the parse is over).
    pub open spec fn drop_chain(self) -> SpecParser {
        SpecParser { chain: SpecChain::empty(), ..self }
    }

    pub open spec fn emit(self, v: SpecValue, at: usize, k: Cont) -> SpecParser {
        SpecParser { phase: SpecPhase::Pending(v, at, k), ..self }
    }

    pub open spec fn cur_len(self) -> usize {
        match self.value {
            Some((_, cl)) => cl,
            None => 0,
        }
    }

    /// Continues the value parse in state `vs`.
    pub open spec fn vset(self, vs: ValueState) -> SpecParser {
        SpecParser { value: Some((vs, self.cur_len())), phase: SpecPhase::Running, ..self }
    }

    /// The value parse returns `r`.
    pub open spec fn value_return(self, r: Result<Option<usize>, TOMLParseError>) -> SpecParser {
        if self.nested {
            match r {
                Ok(Some(_)) => self.finish(Ok(None)),
                _ => SpecParser {
                    value: None,
                    top: TopState::StartOfLine,
                    chain: self.chain.pop_whole(),
                    phase: SpecPhase::Running,
                    ..self
                },
            }
        } else {
            self.finish(r)
        }
    }

    /// After the value state `vs` was reached by `end_of_value`: does the value end here?
    pub open spec fn after_eov(self, vs: ValueState, ch: SpecChain) -> SpecParser {
        let p = SpecParser { chain: ch, ..self };
        if ch.keys.len() == self.cur_len() && !(vs is InInlineTable) && !(vs is InComment)
            && !(ch.ctx.value_keys.len() > 0) {
            p.value_return(Ok(None))
        } else {
            p.vset(vs)
        }
    }

    /// `end_of_value` for the char `c` at index `i`.
    pub open spec fn end_of_value(self, i: int, c: char) -> EovOutcome {
        let ch = self.chain;
        if c == ',' {
            if ch.last_is_index() {
                match bump_index(ch) {
                    Some(ch2) => EovOutcome::State(ValueState::InArray { yielded: true }, ch2),
                    None => EovOutcome::Fault,
                }
            } else {
                EovOutcome::State(ValueState::InInlineTable { yielded: true }, ch.pop_whole().mark_in_value())
            }
        } else if c == '}' {
            if ch.last_is_slice() {
                EovOutcome::State(ValueState::EndOfValue, ch.pop_whole().settle_in_value())
            } else {
                EovOutcome::Fault
            }
        } else if c == ']' {
            if ch.last_is_index() {
                EovOutcome::State(ValueState::EndOfValue, ch.pop_whole().settle_in_value())
            } else {
                EovOutcome::Fault
            }
        } else if c == '#' || c == '/' {
            EovOutcome::State(
                comment_state(i, c),
                SpecChain {
                    ctx: crate::SpecContext { comment_after_value: true, ..ch.ctx },
                    ..ch
                },
            )
        } else if char_is_whitespace(c) {
            EovOutcome::State(ValueState::EndOfValue, ch)
        } else {
            EovOutcome::Error(self.err(i, TOMLParseErrorReason::ExpectedEndOfValue))
        }
    }

    /// The char `c` at index `i` ends a value in state `EndOfValue`.
    pub open spec fn eov_step(self, i: int, c: char) -> SpecParser {
        match self.end_of_value(i, c) {
            EovOutcome::State(vs, ch) => self.after_eov(vs, ch),
            EovOutcome::Error(e) => self.value_return(Err(e)),
            EovOutcome::Fault => self.fault(),
        }
    }

    /// After a number ended by `c` at index `i` was reported and the user went on.
    pub open spec fn after_number(self, i: int, c: char) -> SpecParser {
        match self.end_of_value(i, c) {
            EovOutcome::State(vs, ch) => {
                let p = SpecParser { chain: ch, ..self };
                if ch.keys.len() == self.cur_len() && !(vs is InInlineTable) && !(
                ch.ctx.value_keys.len() > 0) && !rest_starts_with_hash(self.input, i) {
                    p.value_return(Ok(None))
                } else {
                    p.vset(vs)
                }
            },
            EovOutcome::Error(e) => self.value_return(Err(e)),
            EovOutcome::Fault => self.fault(),
        }
    }

    /// After the newline ending a comment inside a value.
    pub open spec fn comment_line_end(self) -> SpecParser {
        if self.chain.ctx.comment_after_value {
            let ch0 = self.chain.pop_whole();
            let ch = SpecChain {
                ctx: crate::SpecContext { comment_after_value: false, ..ch0.ctx },
                ..ch0
            };
            let p = SpecParser { chain: ch, ..self };
            if ch.keys.len() == 0 {
                p.value_return(Ok(None))
            } else {
                p.vset(after_comment_state(ch))
            }
        } else {
            self.vset(after_comment_state(self.chain))
        }
    }

    /// A value state that starts a value (`ExpectingValue` or `InArray`).
    pub open spec fn expecting_step(self, vs: ValueState, i: int, c: char) -> SpecParser {
        let p = SpecParser { pos: (i + 1) as usize, ..self };
        if c == '[' {
            let ch = SpecChain {
                ctx: crate::SpecContext { in_value: true, ..self.chain.ctx },
                ..self.chain
            }.push_value(SpecKey::Index(0));
            SpecParser { chain: ch, ..p }.vset(ValueState::InArray { yielded: false })
        } else if c == ']' {
            match vs {
                ValueState::InArray { yielded } => {
                    let ch = self.chain.pop_whole();
                    let q = SpecParser { chain: ch, ..p };
                    if !yielded {
                        q.emit(SpecValue::EmptyArray, i as usize, Cont::ArrayClosed { at: (self.bo(i) + 1) as usize })
                    } else {
                        q.answer_array_closed()
                    }
                },
                _ => p.fault(),
            }
        } else if c == '{' {
            let ch = SpecChain {
                ctx: crate::SpecContext { in_value: true, ..self.chain.ctx },
                ..self.chain
            };
            SpecParser { chain: ch, ..p }.vset(ValueState::InInlineTable { yielded: false })
        } else if c == '}' {
            let ch = self.chain.pop_whole().settle_in_value();
            let q = SpecParser { chain: ch, ..p };
            if ch.last_is_index() {
                q.vset(ValueState::ExpectingValue)
            } else {
                q.vset(ValueState::InInlineTable { yielded: true })
            }
        } else if is_quote(c) {
            let literal = c == '\'';
            let multiline = i + 3 <= self.input.len() && self.input[i + 1] == c && self.input[i
                + 2] == c;
            let start = if multiline {
                i + 3
            } else {
                i + 1
            };
            SpecParser { pos: start as usize, ..self }.vset(
                ValueState::StringValue {
                    start: start as usize,
                    literal,
                    escaped: false,
                    multiline,
                },
            )
        } else if c == '/' || c == '#' {
            p.vset(comment_state(i, c))
        } else if ('0' <= c && c <= '9') || c == '-' {
            p.vset(ValueState::NumberValue { start: i as usize })
        } else if c == 't' || c == 'f' {
            p.vset(ValueState::Boolean { start: i as usize })
        } else if char_is_whitespace(c) {
            p.vset(vs)
        } else {
            p.value_return(Err(self.err(i, TOMLParseErrorReason::ExpectedValue)))
        }
    }

    /// The end of an array or inline table: `in_value` follows the remaining
    /// value keys.
    pub open spec fn answer_array_closed(self) -> SpecParser {
        SpecParser { chain: self.chain.settle_in_value(), ..self }.vset(ValueState::EndOfValue)
    }

    /// A char in a string value.
    pub open spec fn string_step(
        self,
        start: int,
        literal: bool,
        escaped: bool,
        multiline: bool,
        i: int,
        c: char,
    ) -> SpecParser {
        let p = SpecParser { pos: (i + 1) as usize, ..self };
        let q = if literal {
            '\''
        } else {
            '"'
        };
        if escaped {
            p.vset(
                ValueState::StringValue { start: start as usize, literal, escaped: false, multiline },
            )
        } else {
            let long_enough = i >= start + 2;
            {
                let ends = if multiline {
                    long_enough && i >= 2 && self.input[i - 2] == q && self.input[i - 1] == q && c
                        == q && !(i + 1 < self.input.len() && self.input[i + 1] == q) && !(i >= 3
                        && self.input[i - 3] == '\\')
                } else {
                    c == q
                };
                if ends {
                    let end = if multiline {
                        i - 2
                    } else {
                        i
                    };
                    let at = (self.bo(end) + 1) as usize;
                    let raw = self.input.subrange(start, end);
                    let text = if multiline {
                        strip_first_newline(raw)
                    } else {
                        raw
                    };
                    let tstart = if multiline {
                        start + (raw.len() - text.len())
                    } else {
                        start
                    };
                    p.emit(
                        SpecValue::String(text, literal),
                        tstart as usize,
                        Cont::Value { at, then: ValueState::EndOfValue },
                    )
                } else if !literal {
                    p.vset(
                        ValueState::StringValue {
                            start: start as usize,
                            literal,
                            escaped: c == '\\',
                            multiline,
                        },
                    )
                } else {
                    p.vset(
                        ValueState::StringValue {
                            start: start as usize,
                            literal,
                            escaped: false,
                            multiline,
                        },
                    )
                }
            }
        }
    }

    /// A char in a comment inside a value.
    pub open spec fn value_comment_step(
        self,
        start: int,
        multiline: bool,
        last_was_asterisk: bool,
        hash: bool,
        i: int,
        c: char,
    ) -> SpecParser {
        let p = SpecParser { pos: (i + 1) as usize, ..self };
        if c == '\n' && !multiline {
            if self.yield_comments {
                let (a, _) = trim_range(self.input, start, i);
                p.emit(
                    SpecValue::Comment(trim(self.input.subrange(start, i))),
                    a as usize,
                    Cont::ValueComment { i: i as usize, at: self.bo(i) },
                )
            } else {
                p.comment_line_end()
            }
        } else if c == '*' && self.bo(start) + 1 == self.bo(i) && !hash {
            p.vset(
                ValueState::InComment {
                    start: start as usize,
                    multiline: true,
                    last_was_asterisk,
                    hash,
                },
            )
        } else if multiline {
            if last_was_asterisk && c == '/' {
                p.vset(after_comment_state(self.chain))
            } else {
                p.vset(
                    ValueState::InComment {
                        start: start as usize,
                        multiline,
                        last_was_asterisk: c == '*',
                        hash,
                    },
                )
            }
        } else {
            p.vset(
                ValueState::InComment { start: start as usize, multiline, last_was_asterisk, hash },
            )
        }
    }

    /// A char in a `true`/`false` literal.
    pub open spec fn boolean_step(self, start: int, i: int, c: char) -> SpecParser {
        let p = SpecParser { pos: (i + 1) as usize, ..self };
        let diff = self.bo(i) - self.bo(start) + 1;
        let word = self.input.subrange(start, i + 1);
        let at = (self.bo(i) + spec_utf8_width(c)) as usize;
        if diff < 4 {
            p.vset(ValueState::Boolean { start: start as usize })
        } else if diff == 4 {
            if word == seq!['t', 'r', 'u', 'e'] {
                p.emit(
                    SpecValue::Boolean(true),
                    start as usize,
                    Cont::Value { at, then: ValueState::EndOfValue },
                )
            } else if word == seq!['f', 'a', 'l', 's'] {
                p.vset(ValueState::Boolean { start: start as usize })
            } else {
                p.value_return(Err(self.err(i, TOMLParseErrorReason::ExpectedBoolean)))
            }
        } else if word == seq!['f', 'a', 'l', 's', 'e'] {
            p.emit(
                SpecValue::Boolean(false),
                start as usize,
                Cont::Value { at, then: ValueState::EndOfValue },
            )
        } else {
            p.value_return(Err(self.err(i, TOMLParseErrorReason::ExpectedBoolean)))
        }
    }

    /// One char `c` at index `i` while reading a value in state `vs`.
    pub open spec fn value_step(self, vs: ValueState, i: int, c: char) -> SpecParser {
        let p = SpecParser { pos: (i + 1) as usize, ..self };
        match vs {
            ValueState::ExpectingValue => self.expecting_step(vs, i, c),
            ValueState::InArray { .. } => self.expecting_step(vs, i, c),
            ValueState::InKey { start, joined } => {
                if c == '=' || char_is_whitespace(c) || c == '.' {
                    let k = SpecKey::Slice(self.input.subrange(start as int, i));
                    let v = self.chain.ctx.value_keys;
                    if joined && !(v.len() > 0 && v.last() < 255) {
                        p.fault()
                    } else {
                        let ch = if joined {
                            self.chain.extend_value(k)
                        } else {
                            self.chain.push_value(k)
                        };
                        SpecParser { chain: ch, ..p }.vset(
                            if c == '=' {
                                ValueState::ExpectingValue
                            } else if c == '.' {
                                ValueState::InKey { start: (i + 1) as usize, joined: true }
                            } else {
                                ValueState::AwaitingEqual
                            },
                        )
                    }
                } else {
                    p.vset(vs)
                }
            },
            ValueState::StringValue { start, literal, escaped, multiline } => self.string_step(
                start as int,
                literal,
                escaped,
                multiline,
                i,
                c,
            ),
            ValueState::AwaitingEqual => {
                if c == '=' {
                    p.vset(ValueState::ExpectingValue)
                } else if !char_is_whitespace(c) {
                    p.value_return(Err(self.err(i, TOMLParseErrorReason::ExpectedEqual)))
                } else {
                    p.vset(vs)
                }
            },
            ValueState::EndOfValue => p.eov_step(i, c),
            ValueState::InComment { start, multiline, last_was_asterisk, hash } => self.value_comment_step(
                start as int,
                multiline,
                last_was_asterisk,
                hash,
                i,
                c,
            ),
            ValueState::InInlineTable { yielded } => {
                if c == '}' {
                    if !yielded {
                        p.emit(
                            SpecValue::EmptyInlineTable,
                            i as usize,
                            Cont::TableClosed { at: (self.bo(i) + 1) as usize },
                        )
                    } else {
                        p.answer_array_closed()
                    }
                } else if c == '#' {
                    p.vset(comment_state(i, c))
                } else if char_is_alphabetic(c) {
                    p.vset(ValueState::InKey { start: i as usize, joined: false })
                } else if !char_is_whitespace(c) {
                    p.value_return(Err(self.err(i, TOMLParseErrorReason::ExpectedKey)))
                } else {
                    p.vset(vs)
                }
            },
            ValueState::NumberValue { start } => {
                if char_is_whitespace(c) || c == '}' || c == ',' || c == ']' || c == '#' {
                    p.emit(
                        SpecValue::Number(self.input.subrange(start as int, i)),
                        start,
                        Cont::NumberMid { at: self.bo(i), i: i as usize, c },
                    )
                } else {
                    p.vset(vs)
                }
            },
            ValueState::Boolean { start } => self.boolean_step(start as int, i, c),
        }
    }

    /// The input ends while reading a value in state `vs`.
    pub open spec fn value_eof(self, vs: ValueState) -> SpecParser {
        let n = self.input.len() as int;
        match vs {
            ValueState::InKey { .. } => self.value_return(
                Err(self.err(n, TOMLParseErrorReason::ExpectedQuote)),
            ),
            ValueState::StringValue { .. } => self.value_return(
                Err(self.err(n, TOMLParseErrorReason::ExpectedQuote)),
            ),
            ValueState::AwaitingEqual => self.value_return(
                Err(self.err(n, TOMLParseErrorReason::ExpectedEqual)),
            ),
            ValueState::InComment { multiline, .. } => if multiline {
                self.value_return(
                    Err(self.err(n, TOMLParseErrorReason::ExpectedEndOfMultilineComment)),
                )
            } else {
                self.value_return(Ok(None))
            },
            ValueState::InInlineTable { .. } => self.value_return(
                Err(self.err(n, TOMLParseErrorReason::ExpectedBracket)),
            ),
            ValueState::NumberValue { start } => self.emit(
                SpecValue::Number(self.input.subrange(start as int, n)),
                start,
                Cont::NumberEnd { at: self.blen() },
            ),
            ValueState::Boolean { .. } => self.value_return(
                Err(self.err(n, TOMLParseErrorReason::ExpectedBoolean)),
            ),
            _ => if self.chain.keys.len() > 0 {
                self.value_return(Err(self.err(n, TOMLParseErrorReason::ExpectedBracket)))
            } else {
                self.value_return(Ok(None))
            },
        }
    }

    /// `]` closes a `[table]` or `[[array of tables]]` header at index `i`.
    pub open spec fn table_close(self, context: Context, i: int) -> SpecParser {
        let aot = context == Context::ArrayOfTables;
        if aot && !(i + 1 < self.input.len() && self.input[i + 1] == ']') {
            self.fault()
        } else {
            let pos = if aot {
                i + 2
            } else {
                i + 1
            };
            let index: Option<usize> = if self.chain.last_is_index() {
                match self.chain.keys.last() {
                    SpecKey::Index(j) => if j == usize::MAX {
                        None
                    } else {
                        Some((j + 1) as usize)
                    },
                    _ => None,
                }
            } else {
                Some(0usize)
            };
            if aot && index is None {
                self.fault()
            } else {
                match parse_key(self.input, self.start as int, i, Level::Table, self.chain.clear()) {
                    KeyOutcome::Fault => self.drop_chain().fault(),
                    KeyOutcome::Invalid => self.drop_chain().finish(
                        Err(self.err(self.start as int, TOMLParseErrorReason::InvalidKey)),
                    ),
                    KeyOutcome::Done(ch) => {
                        if aot {
                            if ch.ctx.table_keys == 255 {
                                self.drop_chain().fault()
                            } else {
                                SpecParser {
                                    pos: pos as usize,
                                    chain: ch.push_table(SpecKey::Index(index.unwrap())),
                                    top: TopState::StartOfLine,
                                    start: (i + 1) as usize,
                                    ..self
                                }
                            }
                        } else {
                            SpecParser {
                                pos: pos as usize,
                                chain: ch,
                                top: TopState::StartOfLine,
                                start: (i + 1) as usize,
                                ..self
                            }
                        }
                    },
                }
            }
        }
    }

    /// `=` ends a key at index `i`: the value parse begins.
    pub open spec fn specifier_close(self, i: int) -> SpecParser {
        match parse_key(self.input, self.start as int, i, Level::Specifier, self.chain) {
            KeyOutcome::Fault => self.drop_chain().fault(),
            KeyOutcome::Invalid => self.drop_chain().finish(
                Err(self.err(self.start as int, TOMLParseErrorReason::InvalidKey)),
            ),
            KeyOutcome::Done(ch) => SpecParser {
                pos: (i + 1) as usize,
                chain: ch,
                value: Some((ValueState::ExpectingValue, ch.keys.len() as usize)),
                nested: true,
                ..self
            },
        }
    }

    /// One char `c` at index `i` at the top level.
    pub open spec fn top_step(self, i: int, c: char) -> SpecParser {
        let p = SpecParser { pos: (i + 1) as usize, ..self };
        match self.top {
            TopState::StartOfLine => {
                if c == '[' {
                    if i + 2 <= self.input.len() && self.input[i + 1] == '[' {
                        SpecParser {
                            pos: (i + 2) as usize,
                            start: (i + 2) as usize,
                            top: TopState::InKey { in_string: None, context: Context::ArrayOfTables },
                            ..self
                        }
                    } else {
                        SpecParser {
                            start: (i + 1) as usize,
                            top: TopState::InKey { in_string: None, context: Context::Table },
                            ..p
                        }
                    }
                } else if c == '#' {
                    SpecParser { start: (i + 1) as usize, top: TopState::InComment, ..p }
                } else if char_is_alphabetic(c) {
                    SpecParser {
                        start: i as usize,
                        top: TopState::InKey { in_string: None, context: Context::CurrentLevel },
                        ..p
                    }
                } else if !char_is_whitespace(c) {
                    p.finish(Err(self.err(i, TOMLParseErrorReason::ExpectedKey)))
                } else {
                    p
                }
            },
            TopState::InKey { in_string, context } => {
                if context != Context::CurrentLevel && c == ']' && in_string is None {
                    self.table_close(context, i)
                } else if context == Context::CurrentLevel && c == '=' && in_string is None {
                    self.specifier_close(i)
                } else if is_quote(c) {
                    let ns = match in_string {
                        Some(d) => if d == c {
                            None
                        } else {
                            Some(d)
                        },
                        None => Some(c),
                    };
                    SpecParser { top: TopState::InKey { in_string: ns, context }, ..p }
                } else {
                    p
                }
            },
            TopState::InComment => {
                if c == '\n' {
                    if self.yield_comments {
                        let (a, _) = trim_range(self.input, self.start as int, i);
                        p.emit(
                            SpecValue::Comment(trim(self.input.subrange(self.start as int, i))),
                            a as usize,
                            Cont::TopComment,
                        )
                    } else {
                        SpecParser { top: TopState::StartOfLine, ..p }
                    }
                } else {
                    p
                }
            },
        }
    }

    /// The input ends at the top level.
    pub open spec fn top_eof(self) -> SpecParser {
        match self.top {
            TopState::InComment => {
                if self.yield_comments {
                    let n = self.input.len() as int;
                    let (a, _) = trim_range(self.input, self.start as int, n);
                    self.emit(
                        SpecValue::Comment(trim(self.input.subrange(self.start as int, n))),
                        a as usize,
                        Cont::TopFinal,
                    )
                } else {
                    self.finish(Ok(None))
                }
            },
            TopState::StartOfLine => self.finish(Ok(None)),
            TopState::InKey { context, .. } => self.finish(
                Err(
                    self.err(
                        self.input.len() as int,
                        if context == Context::CurrentLevel {
                            TOMLParseErrorReason::ExpectedEqual
                        } else {
                            TOMLParseErrorReason::ExpectedBracket
                        },
                    ),
                ),
            ),
        }
    }

    /// One step of a running machine.
    #[verifier::opaque]
    pub open spec fn step(self) -> SpecParser {
        let i = self.pos as int;
        match self.value {
            Some((vs, _)) => if i < self.input.len() {
                self.value_step(vs, i, self.input[i])
            } else {
                self.value_eof(vs)
            },
            None => if i < self.input.len() {
                self.top_step(i, self.input[i])
            } else {
                self.top_eof()
            },
        }
    }

    /// The user's answer `stop` about the pending value.
    #[verifier::opaque]
    pub open spec fn answer(self, stop: bool) -> SpecParser {
        match self.phase {
            SpecPhase::Pending(_, _, k) => {
                let p = SpecParser { phase: SpecPhase::Running, ..self };
                match k {
                    Cont::TopComment => if stop {
                        p.finish(Ok(None))
                    } else {
                        SpecParser { top: TopState::StartOfLine, ..p }
                    },
                    Cont::TopFinal => p.finish(Ok(None)),
                    Cont::Value { at, then } => if stop {
                        p.value_return(Ok(Some(at)))
                    } else {
                        p.vset(then)
                    },
                    Cont::NumberMid { at, i, c } => if stop {
                        p.value_return(Ok(Some(at)))
                    } else {
                        p.after_number(i as int, c)
                    },
                    Cont::NumberEnd { at } => if stop {
                        p.value_return(Ok(Some(at)))
                    } else {
                        p.value_return(Ok(None))
                    },
                    Cont::ValueComment { at, .. } => if stop {
                        p.value_return(Ok(Some(at)))
                    } else {
                        p.comment_line_end()
                    },
                    Cont::TableClosed { at } => if stop {
                        p.value_return(Ok(Some(at)))
                    } else {
                        p.answer_array_closed()
                    },
                    Cont::ArrayClosed { at } => if stop {
                        p.value_return(Ok(Some(at)))
                    } else {
                        p.answer_array_closed()
                    },
                }
            },
            _ => self,
        }
    }

    /// The state before the first char, for a whole document or (`nested` false) a lone value.
    pub open spec fn init(input: Seq<char>, yield_comments: bool, document: bool) -> SpecParser {
        SpecParser {
            input,
            yield_comments,
            pos: 0,
            chain: SpecChain::empty(),
            top: TopState::StartOfLine,
            start: 0,
            value: if document {
                None
            } else {
                Some((ValueState::ExpectingValue, 0))
            },
            nested: false,
            phase: SpecPhase::Running,
        }
    }
}

/// Bounds of `trim(input[from..to])` within `input`.
pub open spec fn trim_range(input: Seq<char>, from: int, to: int) -> (int, int) {
    let a = from + lead_ws(input.subrange(from, to));
    let b = a + trim(input.subrange(from, to)).len();
    (a, b)
}

impl SpecParser {
    /// A measure that every step and every answer makes smaller.
    pub open spec fn measure(self) -> nat {
        let rest: nat = if self.pos <= self.input.len() {
            (self.input.len() - self.pos) as nat
        } else {
            0
        };
        let rank: nat = match self.phase {
            SpecPhase::Running => if self.value is Some {
                4
            } else {
                2
            },
            SpecPhase::Pending(_, _, k) => match k {
                Cont::NumberEnd { .. } => 3,
                Cont::TopFinal => 1,
                _ => 6,
            },
            _ => 0,
        };
        8 * rest + rank
    }

    /// The value handed to the user while the machine waits for an answer.
    pub open spec fn event(self) -> SpecEvent {
        match self.phase {
            SpecPhase::Pending(v, at, _) => SpecEvent {
                keys: self.chain.keys,
                ctx: self.chain.ctx,
                value: v,
                at,
            },
            _ => SpecEvent {
                keys: self.chain.keys,
                ctx: self.chain.ctx,
                value: SpecValue::EmptyArray,
                at: 0,
            },
        }
    }
}

proof fn lemma_keeps_pos(x: SpecParser, i: int, c: char, vs: ValueState, r: Result<Option<usize>, TOMLParseError>)
    ensures
        x.vset(vs).pos == x.pos,
        x.value_return(r).pos == x.pos,
        x.eov_step(i, c).pos == x.pos,
        x.after_number(i, c).pos == x.pos,
        x.comment_line_end().pos == x.pos,
        x.answer_array_closed().pos == x.pos,
        x.vset(vs).input == x.input,
        x.value_return(r).input == x.input,
        x.eov_step(i, c).input == x.input,
        x.after_number(i, c).input == x.input,
        x.comment_line_end().input == x.input,
        x.answer_array_closed().input == x.input,
{
}

proof fn lemma_value_step_advances(p: SpecParser, vs: ValueState, i: int, c: char)
    requires
        0 <= i < p.input.len() <= usize::MAX,
    ensures
        p.value_step(vs, i, c).pos >= i + 1,
        p.value_step(vs, i, c).input == p.input,
{
    let q = SpecParser { pos: (i + 1) as usize, ..p };
    lemma_keeps_pos(q, i, c, vs, Ok(None));
    match vs {
        ValueState::StringValue { start, literal, escaped, multiline } => {
            assert(p.string_step(start as int, literal, escaped, multiline, i, c).pos >= i + 1);
            assert(p.string_step(start as int, literal, escaped, multiline, i, c).input == p.input);
        },
        ValueState::InComment { start, multiline, last_was_asterisk, hash } => {
            assert(p.value_comment_step(start as int, multiline, last_was_asterisk, hash, i, c).pos >= i + 1);
            assert(p.value_comment_step(start as int, multiline, last_was_asterisk, hash, i, c).input == p.input);
        },
        ValueState::Boolean { start } => {
            assert(p.boolean_step(start as int, i, c).pos >= i + 1);
            assert(p.boolean_step(start as int, i, c).input == p.input);
        },
        ValueState::ExpectingValue => {
            assert(p.expecting_step(vs, i, c).pos >= i + 1);
            assert(p.expecting_step(vs, i, c).input == p.input);
        },
        ValueState::InArray { .. } => {
            assert(p.expecting_step(vs, i, c).pos >= i + 1);
            assert(p.expecting_step(vs, i, c).input == p.input);
        },
        _ => {},
    }
}

proof fn lemma_top_step_advances(p: SpecParser, i: int, c: char)
    requires
        0 <= i < p.input.len() <= usize::MAX,
    ensures
        p.top_step(i, c).pos >= i + 1 || p.top_step(i, c).phase is Fault || p.top_step(i, c).phase is Finished,
        p.top_step(i, c).input == p.input,
{
    match p.top {
        TopState::InKey { in_string, context } => {
            if context != Context::CurrentLevel && c == ']' && in_string is None {
                assert(p.table_close(context, i).pos >= i + 1 || p.table_close(context, i).phase is Fault || p.table_close(context, i).phase is Finished);
                assert(p.table_close(context, i).input == p.input);
            } else if context == Context::CurrentLevel && c == '=' && in_string is None {
                assert(p.specifier_close(i).input == p.input);
            }
        },
        _ => {},
    }
}

proof fn lemma_value_eof_decreases(p: SpecParser, vs: ValueState)
    requires
        p.phase is Running,
        p.value is Some,
    ensures
        p.value_eof(vs).measure() < p.measure(),
        p.value_eof(vs).input == p.input,
{
}

proof fn lemma_top_eof_decreases(p: SpecParser)
    requires
        p.phase is Running,
        p.value is None,
    ensures
        p.top_eof().measure() < p.measure(),
        p.top_eof().input == p.input,
{
}

#[verifier::rlimit(50)]
pub proof fn lemma_step_decreases(p: SpecParser)
    requires
        p.phase is Running,
        p.input.len() <= usize::MAX,
    ensures
        p.step().measure() < p.measure(),
        p.step().input == p.input,
{
    reveal(SpecParser::step);
    let i = p.pos as int;
    match p.value {
        Some((vs, _)) => if i < p.input.len() {
            lemma_value_step_advances(p, vs, i, p.input[i]);
        } else {
            lemma_value_eof_decreases(p, vs);
        },
        None => if i < p.input.len() {
            lemma_top_step_advances(p, i, p.input[i]);
        } else {
            lemma_top_eof_decreases(p);
        },
    }
}

pub proof fn lemma_answer_decreases(p: SpecParser, stop: bool)
    requires
        p.phase is Pending,
        p.input.len() <= usize::MAX,
    ensures
        p.answer(stop).measure() < p.measure(),
        p.answer(stop).input == p.input,
{
    reveal(SpecParser::answer);
    lemma_keeps_pos(SpecParser { phase: SpecPhase::Running, ..p }, 0, ' ', ValueState::EndOfValue, Ok(None));
}

#[via_fn]
proof fn run_decreases(p: SpecParser, answers: Seq<bool>) {
    match p.phase {
        SpecPhase::Running => lemma_step_decreases(p),
        SpecPhase::Pending(..) => {
            lemma_answer_decreases(p, true);
            lemma_answer_decreases(p, false);
        },
        _ => {},
    }
}

/// The run of the machine from `p` when the user gives the answers in
/// `answers`, in order (and `false` once they are used up): the values
/// handed out, and how the run ends.
pub open spec fn run(p: SpecParser, answers: Seq<bool>) -> (Seq<SpecEvent>, SpecOutcome)
    decreases p.measure(),
    when p.input.len() <= usize::MAX
    via run_decreases
{
    match p.phase {
        SpecPhase::Running => run(p.step(), answers),
        SpecPhase::Pending(..) => {
            let a = if answers.len() > 0 {
                answers[0]
            } else {
                false
            };
            let rest = if answers.len() > 0 {
                answers.drop_first()
            } else {
                answers
            };
            let r = run(p.answer(a), rest);
            (seq![p.event()] + r.0, r.1)
        },
        SpecPhase::Finished(r) => (Seq::empty(), SpecOutcome::Done(r)),
        SpecPhase::Fault => (Seq::empty(), SpecOutcome::Faulted),
    }
}

#[via_fn]
proof fn safe_decreases(p: SpecParser) {
    match p.phase {
        SpecPhase::Running => lemma_step_decreases(p),
        SpecPhase::Pending(..) => {
            lemma_answer_decreases(p, true);
            lemma_answer_decreases(p, false);
        },
        _ => {},
    }
}

/// Whatever the user answers, the run from `p` reaches no point the lexer does not handle.
pub open spec fn safe(p: SpecParser) -> bool
    decreases p.measure(),
    when p.input.len() <= usize::MAX
    via safe_decreases
{
    match p.phase {
        SpecPhase::Running => safe(p.step()),
        SpecPhase::Pending(..) => safe(p.answer(true)) && safe(p.answer(false)),
        SpecPhase::Finished(_) => true,
        SpecPhase::Fault => false,
    }
}

impl SpecParser {
    /// Without `yield_comments`, the machine never waits on a comment.
    pub open spec fn quiet(self) -> bool {
        !self.yield_comments ==> !(self.phase matches SpecPhase::Pending(SpecValue::Comment(_), _, _))
    }
}

#[verifier::rlimit(50)]
#[verifier::spinoff_prover]
pub proof fn lemma_step_quiet(p: SpecParser)
    requires
        p.phase is Running,
    ensures
        p.step().yield_comments == p.yield_comments,
        p.step().quiet(),
{
    reveal(SpecParser::step);
}

#[verifier::rlimit(50)]
pub proof fn lemma_answer_quiet(p: SpecParser, stop: bool)
    requires
        p.phase is Pending,
    ensures
        p.answer(stop).yield_comments == p.yield_comments,
        p.answer(stop).quiet(),
{
    reveal(SpecParser::answer);
}

/// Steps and answers never change the input.
pub proof fn lemma_input_kept(p: SpecParser, stop: bool)
    requires
        p.input.len() <= usize::MAX,
    ensures
        p.phase is Running ==> p.step().input == p.input,
        p.phase is Pending ==> p.answer(stop).input == p.input,
{
    if p.phase is Running {
        lemma_step_decreases(p);
    }
    if p.phase is Pending {
        lemma_answer_decreases(p, stop);
    }
}

pub proof fn lemma_run_running(p: SpecParser, answers: Seq<bool>)
    requires
        p.phase is Running,
        p.input.len() <= usize::MAX,
    ensures
        run(p, answers) == run(p.step(), answers),
        safe(p) == safe(p.step()),
{
    lemma_input_kept(p, false);
}

pub proof fn lemma_run_pending(p: SpecParser, stop: bool, rest: Seq<bool>)
    requires
        p.phase is Pending,
        p.input.len() <= usize::MAX,
    ensures
        run(p, seq![stop] + rest) == (seq![p.event()] + run(p.answer(stop), rest).0, run(p.answer(stop), rest).1),
        rest.len() == 0 ==> run(p, rest) == (seq![p.event()] + run(p.answer(false), rest).0, run(p.answer(false), rest).1),
        safe(p) == (safe(p.answer(true)) && safe(p.answer(false))),
{
    lemma_input_kept(p, true);
    lemma_input_kept(p, false);
    let a = seq![stop] + rest;
    assert(a[0] == stop);
    assert(a.drop_first() =~= rest);
}

pub proof fn lemma_run_stopped(p: SpecParser, answers: Seq<bool>)
    requires
        p.input.len() <= usize::MAX,
    ensures
        p.phase matches SpecPhase::Finished(r) ==> run(p, answers) == (Seq::<SpecEvent>::empty(), SpecOutcome::Done(r)) && safe(p),
        p.phase is Fault ==> run(p, answers).1 is Faulted && !safe(p),
{
}

/// The result a whole-document parse reports for the outcome `o`.
pub open spec fn document_result(o: SpecOutcome) -> Result<(), TOMLParseError> {
    match o {
        SpecOutcome::Done(Err(e)) => Err(e),
        _ => Ok(()),
    }
}

proof fn lemma_run_quiet(p: SpecParser, answers: Seq<bool>)
    requires
        p.input.len() <= usize::MAX,
        !p.yield_comments,
        p.quiet(),
    ensures
        forall|i: int| 0 <= i < run(p, answers).0.len() ==> !(#[trigger] run(p, answers).0[i].value is Comment),
    decreases p.measure(),
{
    match p.phase {
        SpecPhase::Running => {
            lemma_step_decreases(p);
            lemma_step_quiet(p);
            lemma_run_quiet(p.step(), answers);
            lemma_run_running(p, answers);
        },
        SpecPhase::Pending(..) => {
            let a = if answers.len() > 0 {
                answers[0]
            } else {
                false
            };
            let rest = if answers.len() > 0 {
                answers.drop_first()
            } else {
                answers
            };
            lemma_answer_decreases(p, a);
            lemma_answer_quiet(p, a);
            lemma_run_quiet(p.answer(a), rest);
            let evs = run(p, answers).0;
            assert(evs == seq![p.event()] + run(p.answer(a), rest).0);
            assert forall|i: int| 0 <= i < evs.len() implies !(#[trigger] evs[i].value is Comment) by {
                if i > 0 {
                    assert(evs[i] == run(p.answer(a), rest).0[i - 1]);
                }
            }
        },
        _ => {},
    }
}

/// Without `yield_comments`, no comment is ever handed out, whatever the
/// answers given along the way.
pub proof fn law_comments_only_when_asked(input: Seq<char>, document: bool, answers: Seq<bool>)
    requires
        input.len() <= usize::MAX,
    ensures
        forall|i: int|
            0 <= i < run(SpecParser::init(input, false, document), answers).0.len() ==> !(
            #[trigger] run(SpecParser::init(input, false, document), answers).0[i].value is Comment),
{
    lemma_run_quiet(SpecParser::init(input, false, document), answers);
}

/// Answering `false` throughout runs the machine as far as having no
/// answers at all: nothing stops early.
pub proof fn law_never_stopping(p: SpecParser, answers: Seq<bool>)
    requires
        p.input.len() <= usize::MAX,
        forall|i: int| 0 <= i < answers.len() ==> !answers[i],
    ensures
        run(p, answers) == run(p, Seq::empty()),
    decreases p.measure(),
{
    match p.phase {
        SpecPhase::Running => {
            lemma_step_decreases(p);
            lemma_run_running(p, answers);
            lemma_run_running(p, Seq::<bool>::empty());
            law_never_stopping(p.step(), answers);
        },
        SpecPhase::Pending(..) => {
            lemma_answer_decreases(p, false);
            if answers.len() > 0 {
                assert(!answers[0]);
                let rest = answers.drop_first();
                assert forall|i: int| 0 <= i < rest.len() implies !rest[i] by {
                    assert(rest[i] == answers[i + 1]);
                }
                law_never_stopping(p.answer(false), rest);
                assert(answers =~= seq![false] + rest);
                lemma_run_pending(p, false, rest);
            } else {
                assert(answers =~= Seq::<bool>::empty());
            }
            lemma_run_pending(p, false, Seq::empty());
        },
        _ => {
            lemma_run_stopped(p, answers);
            lemma_run_stopped(p, Seq::empty());
        },
    }
}

/// Answering `true` to a value ends the run, with a success.
#[verifier::rlimit(50)]
pub proof fn lemma_answer_true_finishes(p: SpecParser)
    requires
        p.phase is Pending,
    ensures
        p.answer(true).phase matches SpecPhase::Finished(Ok(_)),
{
    reveal(SpecParser::answer);
}

/// A `true` answer stops the parse: no value is handed out after the first
/// one answered `true`, and the parse then succeeds.
pub proof fn law_true_answer_stops(p: SpecParser, answers: Seq<bool>, i: int)
    requires
        p.input.len() <= usize::MAX,
        0 <= i < answers.len(),
        answers[i],
    ensures
        run(p, answers).0.len() <= i + 1,
        run(p, answers).0.len() == i + 1 ==> run(p, answers).1 matches SpecOutcome::Done(Ok(_)),
    decreases p.measure(),
{
    match p.phase {
        SpecPhase::Running => {
            lemma_step_decreases(p);
            lemma_run_running(p, answers);
            law_true_answer_stops(p.step(), answers, i);
        },
        SpecPhase::Pending(..) => {
            let rest = answers.drop_first();
            assert(answers =~= seq![answers[0]] + rest);
            lemma_run_pending(p, answers[0], rest);
            lemma_answer_decreases(p, answers[0]);
            if i == 0 {
                lemma_answer_true_finishes(p);
                lemma_input_kept(p, true);
                lemma_run_stopped(p.answer(true), rest);
            } else {
                assert(rest[i - 1] == answers[i]);
                lemma_input_kept(p, answers[0]);
                law_true_answer_stops(p.answer(answers[0]), rest, i - 1);
            }
        },
        _ => {
            lemma_run_stopped(p, answers);
        },
    }
}

/// Answering `false` to the first `k` values and `true` to the next hands
/// out exactly the first `k + 1` values of the run that never stops, and
/// then succeeds; where that run has no more than `k` values, the answers
/// change nothing.
pub proof fn law_stopping_at(p: SpecParser, answers: Seq<bool>, k: int)
    requires
        p.input.len() <= usize::MAX,
        0 <= k < answers.len(),
        answers[k],
        forall|j: int| 0 <= j < k ==> !answers[j],
    ensures
        k < run(p, Seq::empty()).0.len() ==> run(p, answers).0 == run(p, Seq::empty()).0.take(k + 1)
            && run(p, answers).1 matches SpecOutcome::Done(Ok(_)),
        k >= run(p, Seq::empty()).0.len() ==> run(p, answers) == run(p, Seq::empty()),
    decreases p.measure(),
{
    let none = Seq::<bool>::empty();
    match p.phase {
        SpecPhase::Running => {
            lemma_step_decreases(p);
            lemma_run_running(p, answers);
            lemma_run_running(p, none);
            law_stopping_at(p.step(), answers, k);
        },
        SpecPhase::Pending(..) => {
            let rest = answers.drop_first();
            assert(answers =~= seq![answers[0]] + rest);
            lemma_run_pending(p, answers[0], rest);
            lemma_run_pending(p, false, none);
            lemma_answer_decreases(p, answers[0]);
            lemma_input_kept(p, answers[0]);
            lemma_input_kept(p, false);
            let full = run(p.answer(false), none).0;
            assert(run(p, none).0 == seq![p.event()] + full);
            if k == 0 {
                lemma_answer_true_finishes(p);
                lemma_run_stopped(p.answer(true), rest);
                assert((seq![p.event()] + full).take(1) =~= seq![p.event()]);
                assert(run(p, answers).0 =~= seq![p.event()]);
            } else {
                assert(!answers[0]);
                assert(rest[k - 1] == answers[k]);
                assert forall|j: int| 0 <= j < k - 1 implies !rest[j] by {
                    assert(rest[j] == answers[j + 1]);
                }
                lemma_answer_decreases(p, false);
                law_stopping_at(p.answer(false), rest, k - 1);
                if k < run(p, none).0.len() {
                    assert((seq![p.event()] + full).take(k + 1) =~= seq![p.event()] + full.take(k));
                }
            }
        },
        _ => {
            lemma_run_stopped(p, answers);
            lemma_run_stopped(p, none);
        },
    }
}

/// A `[[...]]` header opens the next entry of an array of tables: where the
/// key chain before it ends with the index `j`, the chain after it ends with
/// the index `j + 1`; where it ends with no index, with the index `0`.
pub proof fn law_array_of_tables_index(p: SpecParser, i: int)
    requires
        p.table_close(Context::ArrayOfTables, i).phase is Running,
    ensures
        p.chain.keys.len() > 0 && p.chain.keys.last() is Index ==> p.table_close(Context::ArrayOfTables, i).chain.keys.last()
            == SpecKey::Index((p.chain.keys.last()->Index_0 + 1) as usize),
        !(p.chain.keys.len() > 0 && p.chain.keys.last() is Index) ==> p.table_close(Context::ArrayOfTables, i).chain.keys.last()
            == SpecKey::Index(0),
        p.table_close(Context::ArrayOfTables, i).chain.keys.len() > 0,
{
}

/// Chars below 0x80 take one byte each.
proof fn lemma_ascii_run(input: Seq<char>, start: int, n: int)
    requires
        0 <= start,
        0 <= n,
        start + n <= input.len(),
        forall|k: int| start <= k < start + n ==> (#[trigger] input[k] as u32) < 0x80,
    ensures
        byte_offset(input, start + n) == byte_offset(input, start) + n,
    decreases n,
{
    if n > 0 {
        lemma_ascii_run(input, start, n - 1);
        crate::text::lemma_byte_offset_step(input, start + n - 1);
    }
}

/// A `true` or `false` is handed out as the word it spells, and answering
/// `true` to it stops the value just after its text: 4 bytes after its first
/// char for `true`, 5 for `false`.
pub proof fn law_boolean_stop_offset(p: SpecParser, start: int, i: int, c: char)
    requires
        0 <= start <= i < p.input.len(),
        p.input[i] == c,
        byte_len(p.input) <= usize::MAX,
        p.boolean_step(start, i, c).phase matches SpecPhase::Pending(SpecValue::Boolean(_), _, _),
    ensures
        p.boolean_step(start, i, c).phase matches SpecPhase::Pending(SpecValue::Boolean(b), s, Cont::Value { at, .. })
            && s == start && at == byte_offset(p.input, start) + (if b { 4int } else { 5int })
            && p.input.subrange(start, start + (if b { 4int } else { 5int })) == (if b {
                seq!['t', 'r', 'u', 'e']
            } else {
                seq!['f', 'a', 'l', 's', 'e']
            }),
{
    let input = p.input;
    crate::text::lemma_len_le_byte_len(input);
    crate::text::lemma_byte_len_mono(input, i, input.len() as int);
    crate::text::lemma_byte_len_mono(input, start, input.len() as int);
    crate::text::lemma_byte_len_mono(input, i + 1, input.len() as int);
    assert(input.take(input.len() as int) =~= input);
    crate::text::lemma_byte_offset_step(input, i);
    let word = input.subrange(start, i + 1);
    let t = seq!['t', 'r', 'u', 'e'];
    let f = seq!['f', 'a', 'l', 's', 'e'];
    if word == t {
        assert(word.len() == 4);
        assert forall|k: int| start <= k < start + 4 implies (#[trigger] input[k] as u32) < 0x80 by {
            assert(input[k] == word[k - start]);
        }
        lemma_ascii_run(input, start, 3);
        lemma_ascii_run(input, start, 4);
        assert(i == start + 3);
        assert(p.bo(i) == byte_offset(input, i));
        assert(p.bo(start) == byte_offset(input, start));
        assert(p.bo(i) - p.bo(start) + 1 == 4);
        assert(byte_offset(input, i) + spec_utf8_width(c) == byte_offset(input, start) + 4);
    } else if word == f {
        assert(word.len() == 5);
        assert forall|k: int| start <= k < start + 5 implies (#[trigger] input[k] as u32) < 0x80 by {
            assert(input[k] == word[k - start]);
        }
        lemma_ascii_run(input, start, 4);
        lemma_ascii_run(input, start, 5);
    }
}

/// A number is handed out as the text from its first char up to the char that
/// ends it, and answering `true` to it stops the value just after that text.
pub proof fn law_number_stop_offset(p: SpecParser, start: usize, i: int, c: char)
    requires
        start <= i < p.input.len(),
        byte_len(p.input) <= usize::MAX,
        p.value_step(ValueState::NumberValue { start }, i, c).phase matches SpecPhase::Pending(SpecValue::Number(_), _, _),
    ensures
        p.value_step(ValueState::NumberValue { start }, i, c).phase matches SpecPhase::Pending(SpecValue::Number(t), s, Cont::NumberMid { at, .. })
            && s == start && t == p.input.subrange(s as int, i) && at == byte_offset(p.input, s as int) + byte_len(t),
{
    crate::text::lemma_byte_offset_split(p.input, start as int, i);
    crate::text::lemma_byte_len_mono(p.input, i, p.input.len() as int);
    assert(p.input.take(p.input.len() as int) =~= p.input);
}

/// At the end of the input a number is handed out as the rest of the input,
/// and answering `true` to it stops the value at the end.
pub proof fn law_number_at_end_stop_offset(p: SpecParser, start: usize)
    requires
        start <= p.input.len(),
        byte_len(p.input) <= usize::MAX,
    ensures
        p.value_eof(ValueState::NumberValue { start }).phase matches SpecPhase::Pending(SpecValue::Number(t), s, Cont::NumberEnd { at })
            && s == start && t == p.input.subrange(s as int, p.input.len() as int) && at == byte_offset(p.input, s as int) + byte_len(t),
{
    crate::text::lemma_byte_offset_split(p.input, start as int, p.input.len() as int);
    assert(p.input.take(p.input.len() as int) =~= p.input);
}

/// A string is handed out as the text between its quotes (for a multi-line
/// string, without a line break right after the opening quotes), a closing
/// quote follows that text, and answering `true` to it stops the value just
/// after that quote.
pub proof fn law_string_stop_offset(
    p: SpecParser,
    start: int,
    literal: bool,
    escaped: bool,
    multiline: bool,
    i: int,
    c: char,
)
    requires
        0 <= start <= i < p.input.len(),
        p.input[i] == c,
        byte_len(p.input) <= usize::MAX,
        p.string_step(start, literal, escaped, multiline, i, c).phase matches SpecPhase::Pending(SpecValue::String(_, _), _, _),
    ensures
        p.string_step(start, literal, escaped, multiline, i, c).phase matches SpecPhase::Pending(SpecValue::String(t, l), s, Cont::Value { at, .. })
            && l == literal && start <= s && s + t.len() < p.input.len()
            && t == p.input.subrange(s as int, s + t.len())
            && p.input[s + t.len()] == (if literal { '\'' } else { '"' })
            && at == byte_offset(p.input, s as int) + byte_len(t) + 1,
{
    let input = p.input;
    crate::text::lemma_len_le_byte_len(input);
    crate::text::lemma_byte_len_mono(input, i, input.len() as int);
    assert(input.take(input.len() as int) =~= input);
    let end = if multiline { i - 2 } else { i };
    if 0 <= end {
        let raw = input.subrange(start, end);
        let text = if multiline { strip_first_newline(raw) } else { raw };
        let ts = if multiline { start + (raw.len() - text.len()) } else { start };
        if start <= end {
            assert(text =~= input.subrange(ts, end));
            crate::text::lemma_byte_offset_split(input, ts, end);
            crate::text::lemma_byte_len_mono(input, end, input.len() as int);
            crate::text::lemma_byte_offset_step(input, end);
            assert(ts + text.len() == end);
        }
    }
}

/// The machine `p` with comments handed out or not, as `y` says.
pub open spec fn with_comments(p: SpecParser, y: bool) -> SpecParser {
    SpecParser { yield_comments: y, ..p }
}

/// Whether `p` waits on an answer about a comment.
pub open spec fn comment_pending(p: SpecParser) -> bool {
    p.phase matches SpecPhase::Pending(SpecValue::Comment(_), _, _)
}

/// A step without comments does what a step with comments does, with the
/// answer `false` given at once to a comment it hands out.
#[verifier::rlimit(100)]
#[verifier::spinoff_prover]
proof fn lemma_top_step_without_comments(p: SpecParser, i: int, c: char)
    requires
        p.phase is Running,
        p.yield_comments,
    ensures
        comment_pending(p.top_step(i, c)) ==> with_comments(p, false).top_step(i, c) == with_comments(p.top_step(i, c).answer(false), false),
        !comment_pending(p.top_step(i, c)) ==> with_comments(p, false).top_step(i, c) == with_comments(p.top_step(i, c), false),
{
    reveal(SpecParser::answer);
}

#[verifier::rlimit(100)]
#[verifier::spinoff_prover]
proof fn lemma_top_eof_without_comments(p: SpecParser)
    requires
        p.phase is Running,
        p.yield_comments,
    ensures
        comment_pending(p.top_eof()) ==> with_comments(p, false).top_eof() == with_comments(p.top_eof().answer(false), false),
        !comment_pending(p.top_eof()) ==> with_comments(p, false).top_eof() == with_comments(p.top_eof(), false),
{
    reveal(SpecParser::answer);
}

#[verifier::rlimit(100)]
#[verifier::spinoff_prover]
proof fn lemma_expecting_step_without_comments(p: SpecParser, vs: ValueState, i: int, c: char)
    requires
        p.phase is Running,
        p.yield_comments,
    ensures
        comment_pending(p.expecting_step(vs, i, c)) ==> with_comments(p, false).expecting_step(vs, i, c) == with_comments(p.expecting_step(vs, i, c).answer(false), false),
        !comment_pending(p.expecting_step(vs, i, c)) ==> with_comments(p, false).expecting_step(vs, i, c) == with_comments(p.expecting_step(vs, i, c), false),
{
    reveal(SpecParser::answer);
}

#[verifier::rlimit(100)]
#[verifier::spinoff_prover]
proof fn lemma_string_step_without_comments(p: SpecParser, start: int, literal: bool, escaped: bool, multiline: bool, i: int, c: char)
    requires
        p.phase is Running,
        p.yield_comments,
    ensures
        comment_pending(p.string_step(start, literal, escaped, multiline, i, c)) ==> with_comments(p, false).string_step(start, literal, escaped, multiline, i, c) == with_comments(p.string_step(start, literal, escaped, multiline, i, c).answer(false), false),
        !comment_pending(p.string_step(start, literal, escaped, multiline, i, c)) ==> with_comments(p, false).string_step(start, literal, escaped, multiline, i, c) == with_comments(p.string_step(start, literal, escaped, multiline, i, c), false),
{
    reveal(SpecParser::answer);
}

#[verifier::rlimit(100)]
#[verifier::spinoff_prover]
proof fn lemma_value_comment_step_without_comments(p: SpecParser, start: int, multiline: bool, last_was_asterisk: bool, hash: bool, i: int, c: char)
    requires
        p.phase is Running,
        p.yield_comments,
    ensures
        comment_pending(p.value_comment_step(start, multiline, last_was_asterisk, hash, i, c)) ==> with_comments(p, false).value_comment_step(start, multiline, last_was_asterisk, hash, i, c) == with_comments(p.value_comment_step(start, multiline, last_was_asterisk, hash, i, c).answer(false), false),
        !comment_pending(p.value_comment_step(start, multiline, last_was_asterisk, hash, i, c)) ==> with_comments(p, false).value_comment_step(start, multiline, last_was_asterisk, hash, i, c) == with_comments(p.value_comment_step(start, multiline, last_was_asterisk, hash, i, c), false),
{
    reveal(SpecParser::answer);
}

#[verifier::rlimit(100)]
#[verifier::spinoff_prover]
proof fn lemma_eov_step_without_comments(p: SpecParser, i: int, c: char)
    requires
        p.phase is Running,
        p.yield_comments,
    ensures
        comment_pending(p.eov_step(i, c)) ==> with_comments(p, false).eov_step(i, c) == with_comments(p.eov_step(i, c).answer(false), false),
        !comment_pending(p.eov_step(i, c)) ==> with_comments(p, false).eov_step(i, c) == with_comments(p.eov_step(i, c), false),
{
    reveal(SpecParser::answer);
}

#[verifier::rlimit(100)]
#[verifier::spinoff_prover]
proof fn lemma_value_step_without_comments(p: SpecParser, vs: ValueState, i: int, c: char)
    requires
        p.phase is Running,
        p.yield_comments,
    ensures
        comment_pending(p.value_step(vs, i, c)) ==> with_comments(p, false).value_step(vs, i, c) == with_comments(p.value_step(vs, i, c).answer(false), false),
        !comment_pending(p.value_step(vs, i, c)) ==> with_comments(p, false).value_step(vs, i, c) == with_comments(p.value_step(vs, i, c), false),
{
    reveal(SpecParser::answer);
    let q = SpecParser { pos: (i + 1) as usize, ..p };
    assert(with_comments(q, false) == SpecParser { pos: (i + 1) as usize, ..with_comments(p, false) });
    match vs {
        ValueState::ExpectingValue => lemma_expecting_step_without_comments(p, vs, i, c),
        ValueState::InArray { .. } => lemma_expecting_step_without_comments(p, vs, i, c),
        ValueState::StringValue { start, literal, escaped, multiline } => lemma_string_step_without_comments(
            p,
            start as int,
            literal,
            escaped,
            multiline,
            i,
            c,
        ),
        ValueState::InComment { start, multiline, last_was_asterisk, hash } => lemma_value_comment_step_without_comments(
            p,
            start as int,
            multiline,
            last_was_asterisk,
            hash,
            i,
            c,
        ),
        ValueState::EndOfValue => lemma_eov_step_without_comments(q, i, c),
        _ => {},
    }
}

#[verifier::rlimit(100)]
#[verifier::spinoff_prover]
proof fn lemma_value_eof_without_comments(p: SpecParser, vs: ValueState)
    requires
        p.phase is Running,
        p.yield_comments,
    ensures
        comment_pending(p.value_eof(vs)) ==> with_comments(p, false).value_eof(vs) == with_comments(p.value_eof(vs).answer(false), false),
        !comment_pending(p.value_eof(vs)) ==> with_comments(p, false).value_eof(vs) == with_comments(p.value_eof(vs), false),
{
    reveal(SpecParser::answer);
}

proof fn lemma_step_without_comments(p: SpecParser)
    requires
        p.phase is Running,
        p.yield_comments,
    ensures
        comment_pending(p.step()) ==> with_comments(p, false).step() == with_comments(p.step().answer(false), false),
        !comment_pending(p.step()) ==> with_comments(p, false).step() == with_comments(p.step(), false),
{
    reveal(SpecParser::step);
    let i = p.pos as int;
    match p.value {
        Some((vs, _)) => if i < p.input.len() {
            lemma_value_step_without_comments(p, vs, i, p.input[i]);
        } else {
            lemma_value_eof_without_comments(p, vs);
        },
        None => if i < p.input.len() {
            lemma_top_step_without_comments(p, i, p.input[i]);
        } else {
            lemma_top_eof_without_comments(p);
        },
    }
}

/// An answer does the same with comments handed out or not, and leaves
/// nothing pending.
#[verifier::rlimit(100)]
#[verifier::spinoff_prover]
proof fn lemma_answer_without_comments(p: SpecParser, stop: bool)
    requires
        p.phase is Pending,
    ensures
        with_comments(p, false).answer(stop) == with_comments(p.answer(stop), false),
        !(p.answer(stop).phase is Pending),
{
    reveal(SpecParser::answer);
}

/// The values of `evs` other than comments, in order.
pub open spec fn without_comments(evs: Seq<SpecEvent>) -> Seq<SpecEvent>
    decreases evs.len(),
{
    if evs.len() == 0 {
        evs
    } else {
        let rest = without_comments(evs.drop_first());
        if evs[0].value is Comment {
            rest
        } else {
            seq![evs[0]] + rest
        }
    }
}

proof fn lemma_without_comments_cons(e: SpecEvent, evs: Seq<SpecEvent>)
    ensures
        without_comments(seq![e] + evs) == if e.value is Comment {
            without_comments(evs)
        } else {
            seq![e] + without_comments(evs)
        },
{
    let all = seq![e] + evs;
    assert(all[0] == e);
    assert(all.drop_first() =~= evs);
}

proof fn lemma_run_without_comments(p: SpecParser)
    requires
        p.input.len() <= usize::MAX,
        p.yield_comments,
        !(p.phase is Pending) || !comment_pending(p),
    ensures
        run(with_comments(p, false), Seq::empty()) == (without_comments(run(p, Seq::empty()).0), run(p, Seq::empty()).1),
    decreases p.measure(),
{
    let q = with_comments(p, false);
    let none = Seq::<bool>::empty();
    match p.phase {
        SpecPhase::Running => {
            let s = p.step();
            lemma_step_decreases(p);
            lemma_step_quiet(p);
            lemma_run_running(p, none);
            lemma_run_running(q, none);
            lemma_step_without_comments(p);
            if comment_pending(s) {
                lemma_answer_decreases(s, false);
                lemma_answer_quiet(s, false);
                lemma_answer_without_comments(s, false);
                lemma_input_kept(s, false);
                lemma_run_pending(s, false, none);
                lemma_run_without_comments(s.answer(false));
                lemma_without_comments_cons(s.event(), run(s.answer(false), none).0);
            } else {
                lemma_run_without_comments(s);
            }
        },
        SpecPhase::Pending(..) => {
            lemma_answer_decreases(p, false);
            lemma_answer_quiet(p, false);
            lemma_answer_without_comments(p, false);
            lemma_input_kept(p, false);
            lemma_run_pending(p, false, none);
            lemma_run_pending(q, false, none);
            lemma_run_without_comments(p.answer(false));
            lemma_without_comments_cons(p.event(), run(p.answer(false), none).0);
        },
        _ => {
            lemma_run_stopped(p, none);
            lemma_run_stopped(q, none);
        },
    }
}

/// Handing out comments only adds the comments: without `yield_comments`, a
/// run answering `false` throughout hands out the same values in the same
/// order, comments aside, and ends the same way.
pub proof fn law_comments_only_added(input: Seq<char>, document: bool)
    requires
        input.len() <= usize::MAX,
    ensures
        run(SpecParser::init(input, false, document), Seq::empty()) == (
            without_comments(run(SpecParser::init(input, true, document), Seq::empty()).0),
            run(SpecParser::init(input, true, document), Seq::empty()).1,
        ),
{
    let p = SpecParser::init(input, true, document);
    assert(SpecParser::init(input, false, document) == with_comments(p, false));
    lemma_run_without_comments(p);
}

/// Whether the byte offset of every char index of `input`, and its byte
/// length, fit in `usize`.
pub open spec fn offsets_fit(input: Seq<char>) -> bool {
    &&& byte_len(input) <= usize::MAX
    &&& forall|i: int| 0 <= i <= input.len() ==> #[trigger] byte_offset(input, i) <= byte_len(input)
}

/// What a state keeps for its errors to lie in the input: the indices it
/// will report from are in the input, and a reported error is.
pub open spec fn error_in_input(p: SpecParser) -> bool {
    &&& p.start <= p.input.len()
    &&& p.phase matches SpecPhase::Pending(_, _, Cont::NumberMid { i, .. }) ==> i < p.input.len()
    &&& p.phase matches SpecPhase::Finished(Err(e)) ==> e.at <= byte_len(p.input)
}

proof fn lemma_offsets_fit(input: Seq<char>)
    requires
        byte_len(input) <= usize::MAX,
    ensures
        offsets_fit(input),
{
    assert forall|i: int| 0 <= i <= input.len() implies #[trigger] byte_offset(input, i) <= byte_len(input) by {
        crate::text::lemma_byte_len_mono(input, i, input.len() as int);
        assert(input.take(input.len() as int) =~= input);
    }
}

#[verifier::rlimit(100)]
#[verifier::spinoff_prover]
proof fn lemma_top_step_keeps_errors_in_input(p: SpecParser, i: int, c: char)
    requires
        p.phase is Running,
        error_in_input(p),
        offsets_fit(p.input),
        0 <= i < p.input.len(),
    ensures
        error_in_input(p.top_step(i, c)),
{
}

#[verifier::rlimit(100)]
#[verifier::spinoff_prover]
proof fn lemma_top_eof_keeps_errors_in_input(p: SpecParser)
    requires
        p.phase is Running,
        error_in_input(p),
        offsets_fit(p.input),
    ensures
        error_in_input(p.top_eof()),
{
}

#[verifier::rlimit(100)]
#[verifier::spinoff_prover]
proof fn lemma_value_eof_keeps_errors_in_input(p: SpecParser, vs: ValueState)
    requires
        p.phase is Running,
        error_in_input(p),
        offsets_fit(p.input),
    ensures
        error_in_input(p.value_eof(vs)),
{
}

#[verifier::rlimit(100)]
#[verifier::spinoff_prover]
proof fn lemma_expecting_step_keeps_errors_in_input(p: SpecParser, vs: ValueState, i: int, c: char)
    requires
        p.phase is Running,
        error_in_input(p),
        offsets_fit(p.input),
        0 <= i < p.input.len(),
    ensures
        error_in_input(p.expecting_step(vs, i, c)),
{
}

#[verifier::rlimit(100)]
#[verifier::spinoff_prover]
proof fn lemma_string_step_keeps_errors_in_input(p: SpecParser, start: int, literal: bool, escaped: bool, multiline: bool, i: int, c: char)
    requires
        p.phase is Running,
        error_in_input(p),
        offsets_fit(p.input),
        0 <= i < p.input.len(),
    ensures
        error_in_input(p.string_step(start, literal, escaped, multiline, i, c)),
{
}

#[verifier::rlimit(100)]
#[verifier::spinoff_prover]
proof fn lemma_value_comment_step_keeps_errors_in_input(p: SpecParser, start: int, multiline: bool, last_was_asterisk: bool, hash: bool, i: int, c: char)
    requires
        p.phase is Running,
        error_in_input(p),
        offsets_fit(p.input),
        0 <= i < p.input.len(),
    ensures
        error_in_input(p.value_comment_step(start, multiline, last_was_asterisk, hash, i, c)),
{
}

#[verifier::rlimit(100)]
#[verifier::spinoff_prover]
proof fn lemma_eov_step_keeps_errors_in_input(p: SpecParser, i: int, c: char)
    requires
        p.phase is Running,
        error_in_input(p),
        offsets_fit(p.input),
        0 <= i < p.input.len(),
    ensures
        error_in_input(p.eov_step(i, c)),
{
}

#[verifier::rlimit(100)]
#[verifier::spinoff_prover]
proof fn lemma_value_step_keeps_errors_in_input(p: SpecParser, vs: ValueState, i: int, c: char)
    requires
        p.phase is Running,
        error_in_input(p),
        offsets_fit(p.input),
        0 <= i < p.input.len(),
    ensures
        error_in_input(p.value_step(vs, i, c)),
{
    let q = SpecParser { pos: (i + 1) as usize, ..p };
    match vs {
        ValueState::ExpectingValue => lemma_expecting_step_keeps_errors_in_input(p, vs, i, c),
        ValueState::InArray { .. } => lemma_expecting_step_keeps_errors_in_input(p, vs, i, c),
        ValueState::StringValue { start, literal, escaped, multiline } => lemma_string_step_keeps_errors_in_input(
            p,
            start as int,
            literal,
            escaped,
            multiline,
            i,
            c,
        ),
        ValueState::InComment { start, multiline, last_was_asterisk, hash } => lemma_value_comment_step_keeps_errors_in_input(
            p,
            start as int,
            multiline,
            last_was_asterisk,
            hash,
            i,
            c,
        ),
        ValueState::EndOfValue => lemma_eov_step_keeps_errors_in_input(q, i, c),
        _ => {},
    }
}

proof fn lemma_step_keeps_errors_in_input(p: SpecParser)
    requires
        p.phase is Running,
        error_in_input(p),
        offsets_fit(p.input),
    ensures
        error_in_input(p.step()),
{
    reveal(SpecParser::step);
    let i = p.pos as int;
    match p.value {
        Some((vs, _)) => if i < p.input.len() {
            lemma_value_step_keeps_errors_in_input(p, vs, i, p.input[i]);
        } else {
            lemma_value_eof_keeps_errors_in_input(p, vs);
        },
        None => if i < p.input.len() {
            lemma_top_step_keeps_errors_in_input(p, i, p.input[i]);
        } else {
            lemma_top_eof_keeps_errors_in_input(p);
        },
    }
}

#[verifier::rlimit(100)]
#[verifier::spinoff_prover]
proof fn lemma_answer_keeps_errors_in_input(p: SpecParser, stop: bool)
    requires
        p.phase is Pending,
        error_in_input(p),
        offsets_fit(p.input),
    ensures
        error_in_input(p.answer(stop)),
{
    reveal(SpecParser::answer);
}

proof fn lemma_run_errors_in_input(p: SpecParser, answers: Seq<bool>)
    requires
        p.input.len() <= usize::MAX,
        error_in_input(p),
        offsets_fit(p.input),
    ensures
        run(p, answers).1 matches SpecOutcome::Done(Err(e)) ==> e.at <= byte_len(p.input),
    decreases p.measure(),
{
    match p.phase {
        SpecPhase::Running => {
            lemma_step_decreases(p);
            lemma_run_running(p, answers);
            lemma_step_keeps_errors_in_input(p);
            lemma_run_errors_in_input(p.step(), answers);
        },
        SpecPhase::Pending(..) => {
            let a = if answers.len() > 0 {
                answers[0]
            } else {
                false
            };
            let rest = if answers.len() > 0 {
                answers.drop_first()
            } else {
                answers
            };
            lemma_answer_decreases(p, a);
            lemma_input_kept(p, a);
            lemma_answer_keeps_errors_in_input(p, a);
            lemma_run_errors_in_input(p.answer(a), rest);
        },
        _ => {
            lemma_run_stopped(p, answers);
        },
    }
}

/// A syntax error is reported at a byte offset within the input (at most
/// its length in bytes), whatever the answers given along the way.
pub proof fn law_error_within_input(input: Seq<char>, yield_comments: bool, document: bool, answers: Seq<bool>)
    requires
        byte_len(input) <= usize::MAX,
    ensures
        run(SpecParser::init(input, yield_comments, document), answers).1 matches SpecOutcome::Done(Err(e))
            ==> e.at <= byte_len(input),
{
    crate::text::lemma_len_le_byte_len(input);
    lemma_offsets_fit(input);
    lemma_run_errors_in_input(SpecParser::init(input, yield_comments, document), answers);
}

/// From a state that is safe, every run ends in a result.
pub proof fn lemma_safe_run(p: SpecParser, answers: Seq<bool>)
    requires
        p.input.len() <= usize::MAX,
        safe(p),
    ensures
        run(p, answers).1 is Done,
    decreases p.measure(),
{
    match p.phase {
        SpecPhase::Running => {
            lemma_step_decreases(p);
            lemma_run_running(p, answers);
            lemma_safe_run(p.step(), answers);
        },
        SpecPhase::Pending(..) => {
            let a = if answers.len() > 0 {
                answers[0]
            } else {
                false
            };
            let rest = if answers.len() > 0 {
                answers.drop_first()
            } else {
                answers
            };
            lemma_answer_decreases(p, a);
            lemma_run_pending(p, a, rest);
            lemma_safe_run(p.answer(a), rest);
        },
        _ => {
            lemma_run_stopped(p, answers);
        },
    }
}

} // verus!
