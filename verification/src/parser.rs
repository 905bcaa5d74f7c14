//! The executable lexer: an [`EventParser`] steps through the input as
//! [`SpecParser::step`] and [`SpecParser::answer`] state.
use vstd::prelude::*;

use crate::machine::{
    after_comment_state, is_quote, key_loop, lemma_answer_decreases, lemma_run_pending,
    lemma_run_running, lemma_run_stopped, lemma_step_decreases, parse_key, push_level, run,
    strip_first_newline, Cont, Context, EovOutcome, KeyOutcome, SpecEvent, SpecOutcome,
    SpecParser, SpecPhase, TopState, ValueState,
};
use crate::text::{
    byte_offset, byte_offsets, is_alphabetic, is_whitespace, lemma_byte_len_mono,
    skip_ws_backward, skip_ws_forward, spec_utf8_width, str_to_chars, trim_bounds, trim_end,
    trim_start, utf8_width,
};
use crate::utilities::KeyChain;
use crate::{
    Level, RootTOMLValue, SpecKey, TOMLKey, TOMLKeyContext, TOMLNumberValue, TOMLParseError,
    TOMLParseErrorReason, TOMLStringValue,
};

verus! {

/// The phase of an [`EventParser`].
pub enum Phase<'a> {
    Running,
    /// A value waiting for the user's answer, with the char index where its text starts.
    Pending(RootTOMLValue<'a>, usize, Cont),
    Finished(Result<Option<usize>, TOMLParseError>),
    /// The input reaches a point the lexer does not handle.
    Fault,
}

impl View for Phase<'_> {
    type V = SpecPhase;

    open spec fn view(&self) -> SpecPhase {
        match self {
            Phase::Running => SpecPhase::Running,
            Phase::Pending(v, at, k) => SpecPhase::Pending(v@, *at, *k),
            Phase::Finished(r) => SpecPhase::Finished(*r),
            Phase::Fault => SpecPhase::Fault,
        }
    }
}

/// The TOML lexer, one step at a time.
pub struct EventParser<'a> {
    on: &'a str,
    chars: Vec<char>,
    offs: Vec<usize>,
    yield_comments: bool,
    pos: usize,
    chain: KeyChain<'a>,
    top: TopState,
    start: usize,
    value: Option<(ValueState, usize)>,
    nested: bool,
    phase: Phase<'a>,
}

/// The value states whose positions lie at or before `pos`.
pub open spec fn value_state_ok(vs: ValueState, pos: int) -> bool {
    match vs {
        ValueState::InKey { start, .. } => start <= pos,
        ValueState::InComment { start, .. } => start <= pos,
        ValueState::StringValue { start, multiline, .. } => start <= pos && (multiline ==> start >= 3),
        ValueState::NumberValue { start } => start <= pos,
        ValueState::Boolean { start } => start <= pos,
        _ => true,
    }
}

/// A value found in the document, with the keys leading to it.
pub struct Event<'a> {
    pub keys: Vec<TOMLKey<'a>>,
    pub context: TOMLKeyContext,
    pub value: RootTOMLValue<'a>,
    /// Char index in the input where the value's text starts.
    pub at: usize,
}

impl View for Event<'_> {
    type V = SpecEvent;

    open spec fn view(&self) -> SpecEvent {
        SpecEvent { keys: crate::keys_view(self.keys@), ctx: self.context@, value: self.value@, at: self.at }
    }
}

/// The models of a sequence of events.
pub open spec fn events_view(evs: Seq<Event<'_>>) -> Seq<SpecEvent> {
    evs.map_values(|e: Event<'_>| e@)
}

/// A copy of a slice of keys.
pub fn copy_keys<'a>(keys: &[TOMLKey<'a>]) -> (r: Vec<TOMLKey<'a>>)
    ensures
        r@ == keys@,
{
    let mut r: Vec<TOMLKey<'a>> = Vec::new();
    let mut i: usize = 0;
    while i < keys.len()
        invariant
            i <= keys@.len(),
            r@ == keys@.take(i as int),
        decreases keys@.len() - i,
    {
        r.push(keys[i]);
        i = i + 1;
        proof {
            assert(r@ =~= keys@.take(i as int));
        }
    }
    proof {
        assert(r@ =~= keys@);
    }
    r
}

/// Parses a whole document (`document`) or a lone value, answering `false`
/// about every value: the values found and the result, or `None` where the
/// input reaches a point the lexer does not handle.
pub fn collect_events<'a>(on: &'a str, yield_comments: bool, document: bool) -> (r: Option<(Vec<Event<'a>>, Result<Option<usize>, TOMLParseError>)>)
    ensures
        match run(SpecParser::init(on@, yield_comments, document), Seq::empty()) {
            (evs, SpecOutcome::Done(res)) => r matches Some((v, rr)) && events_view(v@) == evs && rr == res,
            (_, SpecOutcome::Faulted) => r is None,
        },
        r matches Some((v, _)) ==> forall|i: int| 0 <= i < v@.len() ==> (#[trigger] v@[i])@.keys_agree(),
{
    let mut p = EventParser::new(on, yield_comments, document);
    let ghost full = run(p@, Seq::empty());
    let mut acc: Vec<Event<'a>> = Vec::new();
    loop
        invariant
            p.inv(),
            full == run(SpecParser::init(on@, yield_comments, document), Seq::empty()),
            full.0 == events_view(acc@) + run(p@, Seq::empty()).0,
            full.1 == run(p@, Seq::empty()).1,
            forall|i: int| 0 <= i < acc@.len() ==> (#[trigger] acc@[i])@.keys_agree(),
        decreases p@.measure(),
    {
        proof {
            p.lemma_inv();
        }
        let kind = p.phase_kind();
        if kind == 0 {
            proof {
                lemma_step_decreases(p@);
                lemma_run_running(p@, Seq::empty());
            }
            p.step();
        } else if kind == 1 {
            let (v, at) = p.pending();
            let keys = copy_keys(p.keys());
            let context = p.context().duplicate();
            let e = Event { keys, context, value: v, at };
            let ghost before = p@;
            let ghost acc0 = acc@;
            acc.push(e);
            proof {
                lemma_answer_decreases(p@, false);
                lemma_run_pending(p@, false, Seq::empty());
                assert(e@ == before.event());
                assert(events_view(acc@) =~= events_view(acc0).push(e@));
                assert(events_view(acc0) + (seq![before.event()] + run(before.answer(false), Seq::empty()).0)
                    =~= events_view(acc@) + run(before.answer(false), Seq::empty()).0);
            }
            p.answer(false);
        } else if kind == 2 {
            proof {
                lemma_run_stopped(p@, Seq::empty());
                assert(events_view(acc@) + Seq::<SpecEvent>::empty() =~= events_view(acc@));
            }
            let r = p.result();
            return Some((acc, r));
        } else {
            proof {
                lemma_run_stopped(p@, Seq::empty());
            }
            return None;
        }
    }
}

enum EovExec {
    State(ValueState),
    Error(TOMLParseError),
    Fault,
}

enum KeyExec {
    Done,
    Invalid,
    Fault,
}

impl<'a> View for EventParser<'a> {
    type V = SpecParser;

    closed spec fn view(&self) -> SpecParser {
        SpecParser {
            input: self.chars@,
            yield_comments: self.yield_comments,
            pos: self.pos,
            chain: self.chain@,
            top: self.top,
            start: self.start,
            value: self.value,
            nested: self.nested,
            phase: self.phase@,
        }
    }
}

impl<'a> EventParser<'a> {
    /// The facts every step keeps: positions in range and a well-formed key chain.
    pub closed spec fn inv(&self) -> bool {
        &&& self.chars@ == self.on@
        &&& self.chars@.len() <= usize::MAX
        &&& self.offs@.len() == self.chars@.len() + 1
        &&& forall|i: int|
            0 <= i <= self.chars@.len() ==> #[trigger] self.offs@[i] == byte_offset(
                self.chars@,
                i,
            )
        &&& self.pos <= self.chars@.len()
        &&& self.start <= self.pos
        &&& self.chain@.wf()
        &&& match self.value {
            Some((vs, _)) => value_state_ok(vs, self.pos as int),
            None => true,
        }
        &&& match self.phase {
            Phase::Pending(_, _, k) => match k {
                Cont::TopComment => true,
                Cont::TopFinal => true,
                Cont::NumberMid { i, c, .. } => i < self.chars@.len() && self.chars@[i as int]
                    == c && self.pos == i + 1 && self.value is Some,
                Cont::Value { then, .. } => value_state_ok(then, self.pos as int)
                    && self.value is Some,
                Cont::TableClosed { .. } => self.value is Some,
                _ => self.value is Some,
            },
            _ => true,
        }
    }

    /// The input being read.
    pub closed spec fn source(&self) -> &'a str {
        self.on
    }

    /// A parser at the start of `on`: of a whole document, or (`document`
    /// false) of a lone value.
    pub fn new(on: &'a str, yield_comments: bool, document: bool) -> (r: Self)
        ensures
            r.inv(),
            r@ == SpecParser::init(on@, yield_comments, document),
            r.source() == on,
    {
        let chars = str_to_chars(on);
        let _ = chars.len();
        let offs = byte_offsets(on, &chars);
        let r = EventParser {
            on,
            chars,
            offs,
            yield_comments,
            pos: 0,
            chain: KeyChain::new(),
            top: TopState::StartOfLine,
            start: 0,
            value: if document {
                None
            } else {
                Some((ValueState::ExpectingValue, 0))
            },
            nested: false,
            phase: Phase::Running,
        };
        r
    }

    pub fn phase(&self) -> (r: &Phase<'a>)
        ensures
            r@ == self@.phase,
    {
        &self.phase
    }

    /// The keys leading to the pending value.
    pub fn keys(&self) -> (r: &[TOMLKey<'a>])
        ensures
            crate::keys_view(r@) == self@.chain.keys,
    {
        self.chain.keys.as_slice()
    }

    /// How the keys leading to the pending value divide into levels.
    pub fn context(&self) -> (r: &TOMLKeyContext)
        ensures
            r@ == self@.chain.ctx,
    {
        &self.chain.context
    }

    /// Which phase the machine is in: running, pending, finished, or at a fault.
    pub fn phase_kind(&self) -> (r: u8)
        ensures
            r == 0 <==> self@.phase is Running,
            r == 1 <==> self@.phase is Pending,
            r == 2 <==> self@.phase is Finished,
            r == 3 <==> self@.phase is Fault,
    {
        match &self.phase {
            Phase::Running => 0,
            Phase::Pending(..) => 1,
            Phase::Finished(_) => 2,
            Phase::Fault => 3,
        }
    }

    /// The pending value and where its text starts.
    pub fn pending(&self) -> (r: (RootTOMLValue<'a>, usize))
        requires
            self@.phase is Pending,
        ensures
            self@.phase matches SpecPhase::Pending(v, at, _) && r.0@ == v && r.1 == at,
    {
        match &self.phase {
            Phase::Pending(v, at, _) => (*v, *at),
            _ => (RootTOMLValue::EmptyArray, 0),
        }
    }

    /// The result of a finished parse.
    pub fn result(&self) -> (r: Result<Option<usize>, TOMLParseError>)
        requires
            self@.phase is Finished,
        ensures
            self@.phase == SpecPhase::Finished(r),
    {
        match &self.phase {
            Phase::Finished(r) => *r,
            _ => Ok(None),
        }
    }

    pub proof fn lemma_inv(&self)
        requires
            self.inv(),
        ensures
            self@.input.len() <= usize::MAX,
            self@.chain.wf(),
    {
    }

    fn bo(&self, i: usize) -> (r: usize)
        requires
            self.inv(),
            i <= self.chars@.len(),
        ensures
            r == self@.bo(i as int),
    {
        self.offs[i]
    }

    fn set_value(&mut self, vs: ValueState)
        ensures
            final(self)@ == old(self)@.vset(vs),
            final(self).on == old(self).on,
            final(self).chars == old(self).chars,
            final(self).offs == old(self).offs,
    {
        let cl = match self.value {
            Some((_, cl)) => cl,
            None => 0,
        };
        self.value = Some((vs, cl));
        self.phase = Phase::Running;
    }

    fn finish(&mut self, r: Result<Option<usize>, TOMLParseError>)
        ensures
            final(self)@ == old(self)@.finish(r),
            final(self).on == old(self).on,
            final(self).chars == old(self).chars,
            final(self).offs == old(self).offs,
            final(self).value == old(self).value,
            final(self).pos == old(self).pos,
            final(self).start == old(self).start,
    {
        self.phase = Phase::Finished(r);
    }

    fn fault(&mut self)
        ensures
            final(self)@ == old(self)@.fault(),
            final(self).on == old(self).on,
            final(self).chars == old(self).chars,
            final(self).offs == old(self).offs,
            final(self).value == old(self).value,
            final(self).pos == old(self).pos,
            final(self).start == old(self).start,
    {
        self.phase = Phase::Fault;
    }

    fn emit(&mut self, v: RootTOMLValue<'a>, at: usize, k: Cont)
        ensures
            final(self)@ == old(self)@.emit(v@, at, k),
            final(self).on == old(self).on,
            final(self).chars == old(self).chars,
            final(self).offs == old(self).offs,
            final(self).value == old(self).value,
            final(self).pos == old(self).pos,
            final(self).start == old(self).start,
    {
        self.phase = Phase::Pending(v, at, k);
    }

    /// Pushes `k` at `level` unless the level's key count would overflow.
    fn push_key(&mut self, k: TOMLKey<'a>, level: Level) -> (ok: bool)
        requires
            old(self).chain@.wf(),
        ensures
            match push_level(old(self).chain@, k@, level) {
                Some(ch) => ok && final(self).chain@ == ch,
                None => !ok && final(self).chain@ == old(self).chain@,
            },
            final(self).chain@.wf(),
            final(self).on == old(self).on,
            final(self).chars == old(self).chars,
            final(self).offs == old(self).offs,
            final(self).pos == old(self).pos,
            final(self).start == old(self).start,
            final(self).top == old(self).top,
            final(self).value == old(self).value,
            final(self).nested == old(self).nested,
            final(self).phase == old(self).phase,
            final(self).yield_comments == old(self).yield_comments,
    {
        proof {
            crate::utilities::law_key_chain_wf(self.chain@, k@);
        }
        match level {
            Level::Table => {
                if self.chain.context.table_keys == 255 {
                    return false;
                }
                self.chain.push_table_key(k);
            },
            Level::Specifier => {
                if self.chain.context.specifier_keys == 255 {
                    return false;
                }
                self.chain.push_specifier_key(k);
            },
            Level::Value => {
                self.chain.push_value_key(k);
            },
        }
        true
    }

    /// Whether `trim_end(input[ps..j])` ends with a dot.
    fn dot_before(&self, ps: usize, j: usize) -> (r: bool)
        requires
            ps <= j <= self.chars@.len(),
        ensures
            r == ({
                let before = trim_end(self.chars@.subrange(ps as int, j as int));
                before.len() > 0 && before.last() == '.'
            }),
    {
        let b = skip_ws_backward(&self.chars, ps, j);
        proof {
            let t = self.chars@.subrange(ps as int, j as int);
            assert(trim_end(t) =~= self.chars@.subrange(ps as int, b as int));
        }
        b > ps && self.chars[b - 1] == '.'
    }

    /// Parses the key `input[ps..pe]` into the chain at `level`.
    fn parse_key(&mut self, ps: usize, pe: usize, level: Level) -> (r: KeyExec)
        requires
            old(self).inv(),
            ps <= pe <= old(self).chars@.len(),
        ensures
            match parse_key(old(self)@.input, ps as int, pe as int, level, old(self).chain@) {
                KeyOutcome::Done(ch) => r is Done && final(self).chain@ == ch,
                KeyOutcome::Invalid => r is Invalid,
                KeyOutcome::Fault => r is Fault,
            },
            r is Invalid ==> final(self).chain@ == old(self).chain@
                || exists|k: int| ps <= k < pe && #[trigger] is_quote(old(self)@.input[k]),
            final(self).chain@.wf(),
            final(self).on == old(self).on,
            final(self).chars == old(self).chars,
            final(self).offs == old(self).offs,
            final(self).pos == old(self).pos,
            final(self).start == old(self).start,
            final(self).top == old(self).top,
            final(self).value == old(self).value,
            final(self).nested == old(self).nested,
            final(self).phase == old(self).phase,
            final(self).yield_comments == old(self).yield_comments,
    {
        let ghost input = self.chars@;
        let ghost goal = parse_key(input, ps as int, pe as int, level, self.chain@);
        let mut j = ps;
        let mut last = ps;
        let mut in_string: Option<char> = None;
        let mut found = false;
        while j < pe
            invariant
                self.inv(),
                self.chars@ == input,
                ps <= last <= j <= pe <= input.len(),
                key_loop(input, ps as int, pe as int, level, j as int, last as int, in_string, found, self.chain@) == goal,
                !found ==> self.chain@ == old(self).chain@,
                in_string is Some ==> exists|k: int| ps <= k < j && #[trigger] is_quote(input[k]),
                goal == parse_key(old(self)@.input, ps as int, pe as int, level, old(self).chain@),
                input == old(self)@.input,
                self.on == old(self).on,
                self.chars == old(self).chars,
                self.offs == old(self).offs,
                self.pos == old(self).pos,
                self.start == old(self).start,
                self.top == old(self).top,
                self.value == old(self).value,
                self.nested == old(self).nested,
                self.phase == old(self).phase,
                self.yield_comments == old(self).yield_comments,
            decreases pe - j,
        {
            let c = self.chars[j];
            if c == '"' || c == '\'' || c == '.' {
                match in_string {
                    Some(q) => {
                        if q == c {
                            if last + 1 > j {
                                return KeyExec::Fault;
                            }
                            let on = self.on;
                            let key = on.substring_char(last + 1, j);
                            if !self.push_key(TOMLKey::Slice(key), level) {
                                return KeyExec::Fault;
                            }
                            last = j + 1;
                            in_string = None;
                            found = true;
                        }
                    },
                    None => {
                        if c == '.' {
                            if j > ps && (self.chars[j - 1] == '"' || self.chars[j - 1] == '\'') {
                            } else {
                                let (a, b) = trim_bounds(&self.chars, last, j);
                                let on = self.on;
                                let key = on.substring_char(a, b);
                                if !self.push_key(TOMLKey::Slice(key), level) {
                                    return KeyExec::Fault;
                                }
                                found = true;
                            }
                            last = j + 1;
                        } else {
                            if !self.dot_before(ps, j) {
                                return KeyExec::Fault;
                            }
                            in_string = Some(c);
                            assert(is_quote(input[j as int]));
                        }
                    },
                }
            }
            j = j + 1;
        }
        let (a, b) = trim_bounds(&self.chars, last, pe);
        if (!found && a == b) || in_string.is_some() {
            KeyExec::Invalid
        } else if a < b {
            let on = self.on;
            let key = on.substring_char(a, b);
            if !self.push_key(TOMLKey::Slice(key), level) {
                return KeyExec::Fault;
            }
            KeyExec::Done
        } else {
            KeyExec::Done
        }
    }

    /// `end_of_value` for the char `c` at index `i`.
    fn end_of_value(&mut self, i: usize, c: char) -> (r: EovExec)
        requires
            old(self).inv(),
            i < old(self).chars.len(),
        ensures
            match old(self)@.end_of_value(i as int, c) {
                EovOutcome::State(vs, ch) => r == EovExec::State(vs) && final(self).chain@ == ch,
                EovOutcome::Error(e) => r == EovExec::Error(e) && final(self).chain@ == old(self).chain@,
                EovOutcome::Fault => r is Fault && final(self).chain@ == old(self).chain@,
            },
            final(self).chain@.wf(),
            final(self).on == old(self).on,
            final(self).chars == old(self).chars,
            final(self).offs == old(self).offs,
            final(self).pos == old(self).pos,
            final(self).start == old(self).start,
            final(self).top == old(self).top,
            final(self).value == old(self).value,
            final(self).nested == old(self).nested,
            final(self).phase == old(self).phase,
            final(self).yield_comments == old(self).yield_comments,
    {
        proof {
            crate::utilities::law_key_chain_wf(self.chain@, SpecKey::Index(0));
        }
        let n = self.chain.keys.len();
        let last_index = n > 0 && matches!(self.chain.keys[n - 1], TOMLKey::Index(_));
        let last_slice = n > 0 && matches!(self.chain.keys[n - 1], TOMLKey::Slice(_));
        proof {
            if n > 0 {
                assert(self.chain@.keys.last() == self.chain.keys@[n - 1]@);
            }
        }
        if c == ',' {
            if last_index {
                match self.chain.keys[n - 1] {
                    TOMLKey::Index(j) => {
                        if j == usize::MAX {
                            return EovExec::Fault;
                        }
                        self.chain.keys.set(n - 1, TOMLKey::Index(j + 1));
                        proof {
                            assert(self.chain@.keys =~= old(self).chain@.keys.update(
                                n - 1,
                                SpecKey::Index((j + 1) as usize),
                            ));
                        }
                    },
                    _ => {},
                }
                EovExec::State(ValueState::InArray { yielded: true })
            } else {
                self.chain.pop_whole_slice_key();
                self.chain.context.in_value = true;
                EovExec::State(ValueState::InInlineTable { yielded: true })
            }
        } else if c == '}' {
            if !last_slice {
                return EovExec::Fault;
            }
            self.chain.pop_whole_slice_key();
            self.chain.context.in_value = !self.chain.context.value_keys.is_empty();
            EovExec::State(ValueState::EndOfValue)
        } else if c == ']' {
            if !last_index {
                return EovExec::Fault;
            }
            self.chain.pop_whole_slice_key();
            self.chain.context.in_value = !self.chain.context.value_keys.is_empty();
            EovExec::State(ValueState::EndOfValue)
        } else if c == '#' || c == '/' {
            self.chain.context.comment_after_value = true;
            EovExec::State(ValueState::InComment {
                start: i + 1,
                multiline: false,
                last_was_asterisk: false,
                hash: c == '#',
            })
        } else if is_whitespace(c) {
            EovExec::State(ValueState::EndOfValue)
        } else {
            let at = self.bo(i);
            EovExec::Error(TOMLParseError { at, reason: TOMLParseErrorReason::ExpectedEndOfValue })
        }
    }

    /// The fields that never change after construction.
    spec fn same_input(&self, other: &Self) -> bool {
        &&& self.on == other.on
        &&& self.chars == other.chars
        &&& self.offs == other.offs
        &&& self.yield_comments == other.yield_comments
    }

    /// `end_of_value` for `c` at index `i`, then: does the value end here?
    fn eov_step(&mut self, i: usize, c: char)
        requires
            old(self).inv(),
            old(self).phase is Running,
            i < old(self).chars.len(),
            old(self).pos == i + 1,
            old(self).value is Some,
        ensures
            final(self)@ == old(self)@.eov_step(i as int, c),
            final(self).inv(),
            final(self).same_input(old(self)),
    {
        let ghost old_p = self@;
        match self.end_of_value(i, c) {
            EovExec::State(vs) => {
                let cl = match self.value {
                    Some((_, cl)) => cl,
                    None => 0,
                };
                if self.chain.keys.len() == cl && !matches!(vs, ValueState::InInlineTable { .. })
                    && !matches!(vs, ValueState::InComment { .. }) && !self.chain.in_value() {
                    self.value_return(Ok(None));
                } else {
                    self.set_value(vs);
                }
            },
            EovExec::Error(e) => {
                self.value_return(Err(e));
            },
            EovExec::Fault => {
                self.fault();
            },
        }
    }

    /// A number ended by `c` at index `i` was reported and the user went on.
    fn after_number(&mut self, i: usize, c: char)
        requires
            old(self).inv(),
            old(self).phase is Running,
            i < old(self).chars.len(),
            old(self).pos == i + 1,
            old(self).value is Some,
        ensures
            final(self)@ == old(self)@.after_number(i as int, c),
            final(self).inv(),
            final(self).same_input(old(self)),
    {
        match self.end_of_value(i, c) {
            EovExec::State(vs) => {
                let cl = match self.value {
                    Some((_, cl)) => cl,
                    None => 0,
                };
                let a = skip_ws_forward(&self.chars, i, self.chars.len());
                let hash_next = a < self.chars.len() && self.chars[a] == '#';
                proof {
                    let rest = trim_start(self.chars@.subrange(i as int, self.chars@.len() as int));
                    assert(rest =~= self.chars@.subrange(a as int, self.chars@.len() as int));
                    if a < self.chars@.len() {
                        assert(rest[0] == self.chars@[a as int]);
                    }
                }
                if self.chain.keys.len() == cl && !matches!(vs, ValueState::InInlineTable { .. })
                    && !self.chain.in_value() && !hash_next {
                    self.value_return(Ok(None));
                } else {
                    self.set_value(vs);
                }
            },
            EovExec::Error(e) => {
                self.value_return(Err(e));
            },
            EovExec::Fault => {
                self.fault();
            },
        }
    }

    /// After the newline ending a comment inside a value.
    fn comment_line_end(&mut self)
        requires
            old(self).inv(),
            old(self).phase is Running,
            old(self).value is Some,
        ensures
            final(self)@ == old(self)@.comment_line_end(),
            final(self).inv(),
            final(self).same_input(old(self)),
    {
        if self.chain.context.comment_after_value {
            proof {
                crate::utilities::law_key_chain_wf(self.chain@, SpecKey::Index(0));
            }
            self.chain.pop_whole_slice_key();
            self.chain.context.comment_after_value = false;
            if self.chain.keys.len() == 0 {
                self.value_return(Ok(None));
                return;
            }
        }
        let vs = self.after_comment_state();
        self.set_value(vs);
    }

    fn after_comment_state(&self) -> (vs: ValueState)
        ensures
            vs == after_comment_state(self.chain@),
    {
        let n = self.chain.keys.len();
        proof {
            if n > 0 {
                assert(self.chain@.keys.last() == self.chain.keys@[n - 1]@);
            }
        }
        if n > 0 && matches!(self.chain.keys[n - 1], TOMLKey::Index(_)) {
            ValueState::InArray { yielded: true }
        } else {
            ValueState::InInlineTable { yielded: true }
        }
    }

    fn answer_array_closed(&mut self)
        requires
            old(self).inv(),
            old(self).phase is Running,
            old(self).value is Some,
        ensures
            final(self)@ == old(self)@.answer_array_closed(),
            final(self).inv(),
            final(self).same_input(old(self)),
    {
        self.chain.context.in_value = !self.chain.context.value_keys.is_empty();
        self.set_value(ValueState::EndOfValue);
    }

    proof fn lemma_offs(&self, i: int)
        requires
            self.inv(),
            0 <= i < self.chars@.len(),
        ensures
            self.offs@[i] + spec_utf8_width(self.chars@[i]) == self.offs@[i + 1],
            self.offs@[i] < self.offs@[i + 1],
            forall|k: int| 0 <= k <= i ==> #[trigger] self.offs@[k] + (i - k) <= self.offs@[i],
    {
        crate::text::lemma_byte_offset_step(self.chars@, i);
        assert forall|k: int| 0 <= k <= i implies #[trigger] self.offs@[k] + (i - k) <= self.offs@[i] by {
            if k < i {
                crate::text::lemma_byte_offset_strict(self.chars@, k, i);
            }
        }
    }

    /// A char that starts a value (`ExpectingValue` or `InArray`).
    #[verifier::rlimit(30)]
    fn expecting_step(&mut self, vs: ValueState, i: usize, c: char)
        requires
            old(self).inv(),
            old(self).phase is Running,
            i < old(self).chars.len(),
            old(self).pos == i,
            old(self).chars@[i as int] == c,
            old(self).value matches Some((v, _)) && v == vs,
            vs is ExpectingValue || vs is InArray,
        ensures
            final(self)@ == old(self)@.expecting_step(vs, i as int, c),
            final(self).inv(),
            final(self).same_input(old(self)),
    {
        proof {
            crate::utilities::law_key_chain_wf(self.chain@, SpecKey::Index(0));
        }
        if c == '[' {
            self.pos = i + 1;
            self.chain.context.in_value = true;
            self.chain.push_value_key(TOMLKey::Index(0));
            self.set_value(ValueState::InArray { yielded: false });
        } else if c == ']' {
            self.pos = i + 1;
            match vs {
                ValueState::InArray { yielded } => {
                    self.chain.pop_whole_slice_key();
                    if !yielded {
                        proof {
                            self.lemma_offs(i as int);
                        }
                        let at = self.bo(i) + 1;
                        self.emit(RootTOMLValue::EmptyArray, i, Cont::ArrayClosed { at });
                    } else {
                        self.answer_array_closed();
                    }
                },
                _ => {
                    self.fault();
                },
            }
        } else if c == '{' {
            self.pos = i + 1;
            self.chain.context.in_value = true;
            self.set_value(ValueState::InInlineTable { yielded: false });
        } else if c == '}' {
            self.pos = i + 1;
            self.chain.pop_whole_slice_key();
            self.chain.context.in_value = !self.chain.context.value_keys.is_empty();
            let n = self.chain.keys.len();
            proof {
                if n > 0 {
                    assert(self.chain@.keys.last() == self.chain.keys@[n - 1]@);
                }
            }
            if n > 0 && matches!(self.chain.keys[n - 1], TOMLKey::Index(_)) {
                self.set_value(ValueState::ExpectingValue);
            } else {
                self.set_value(ValueState::InInlineTable { yielded: true });
            }
        } else if c == '"' || c == '\'' {
            let literal = c == '\'';
            let len = self.chars.len();
            let multiline = 3 <= len - i && self.chars[i + 1] == c && self.chars[i + 2] == c;
            let start = if multiline {
                i + 3
            } else {
                i + 1
            };
            self.pos = start;
            self.set_value(ValueState::StringValue { start, literal, escaped: false, multiline });
        } else if c == '/' || c == '#' {
            self.pos = i + 1;
            self.set_value(ValueState::InComment {
                start: i + 1,
                multiline: false,
                last_was_asterisk: false,
                hash: c == '#',
            });
        } else if ('0' <= c && c <= '9') || c == '-' {
            self.pos = i + 1;
            self.set_value(ValueState::NumberValue { start: i });
        } else if c == 't' || c == 'f' {
            self.pos = i + 1;
            self.set_value(ValueState::Boolean { start: i });
        } else if is_whitespace(c) {
            self.pos = i + 1;
            self.set_value(vs);
        } else {
            let at = self.bo(i);
            self.pos = i + 1;
            self.value_return(Err(TOMLParseError { at, reason: TOMLParseErrorReason::ExpectedValue }));
        }
    }

    /// A char in a string value.
    #[verifier::rlimit(30)]
    fn string_step(&mut self, start: usize, literal: bool, escaped: bool, multiline: bool, i: usize, c: char)
        requires
            old(self).inv(),
            old(self).phase is Running,
            i < old(self).chars.len(),
            old(self).pos == i,
            start <= i,
            old(self).chars@[i as int] == c,
            old(self).value is Some,
            multiline ==> start >= 3,
        ensures
            final(self)@ == old(self)@.string_step(start as int, literal, escaped, multiline, i as int, c),
            final(self).inv(),
            final(self).same_input(old(self)),
    {
        let q = if literal {
            '\''
        } else {
            '"'
        };
        self.pos = i + 1;
        if escaped {
            self.set_value(ValueState::StringValue { start, literal, escaped: false, multiline });
            return;
        }
        proof {
            self.lemma_offs(i as int);
            assert(self.offs@[start as int] + (i - start) <= self.offs@[i as int]);
        }
        let long_enough = i - start >= 2;
        let len = self.chars.len();
        let ends = if multiline {
            long_enough && i >= 2 && self.chars[i - 2] == q && self.chars[i - 1] == q && c == q
                && !(i + 1 < len && self.chars[i + 1] == q) && !(i >= 3 && self.chars[i - 3] == '\\')
        } else {
            c == q
        };
        if ends {
            let end = if multiline {
                i - 2
            } else {
                i
            };
            proof {
                if multiline {
                    crate::text::lemma_byte_offset_step(self.chars@, i - 1);
                    crate::text::lemma_byte_offset_step(self.chars@, i - 2);
                    assert(start <= i - 2);
                }
            }
            let at = self.bo(end) + 1;
            let mut ts = start;
            if multiline {
                if end - start >= 2 && self.chars[start] == '\r' && self.chars[start + 1] == '\n' {
                    ts = start + 2;
                } else if end - start >= 1 && self.chars[start] == '\n' {
                    ts = start + 1;
                }
            }
            proof {
                let raw = self.chars@.subrange(start as int, end as int);
                if multiline {
                    assert(strip_first_newline(raw) =~= self.chars@.subrange(ts as int, end as int));
                } else {
                    assert(raw =~= self.chars@.subrange(ts as int, end as int));
                }
            }
            let on = self.on;
            let text = on.substring_char(ts, end);
            self.emit(
                RootTOMLValue::String(TOMLStringValue::new(text, literal)),
                ts,
                Cont::Value { at, then: ValueState::EndOfValue },
            );
        } else if !literal {
            self.set_value(ValueState::StringValue { start, literal, escaped: c == '\\', multiline });
        } else {
            self.set_value(ValueState::StringValue { start, literal, escaped: false, multiline });
        }
    }

    /// A char in a comment inside a value.
    fn value_comment_step(
        &mut self,
        start: usize,
        multiline: bool,
        last_was_asterisk: bool,
        hash: bool,
        i: usize,
        c: char,
    )
        requires
            old(self).inv(),
            old(self).phase is Running,
            i < old(self).chars.len(),
            old(self).pos == i,
            start <= i,
            old(self).chars@[i as int] == c,
            old(self).value is Some,
        ensures
            final(self)@ == old(self)@.value_comment_step(start as int, multiline, last_was_asterisk, hash, i as int, c),
            final(self).inv(),
            final(self).same_input(old(self)),
    {
        self.pos = i + 1;
        proof {
            self.lemma_offs(i as int);
            assert(self.offs@[start as int] + (i - start) <= self.offs@[i as int]);
        }
        if c == '\n' && !multiline {
            if self.yield_comments {
                let (a, b) = trim_bounds(&self.chars, start, i);
                let on = self.on;
                let comment = on.substring_char(a, b);
                let at = self.bo(i);
                self.emit(RootTOMLValue::Comment(comment), a, Cont::ValueComment { i, at });
            } else {
                self.comment_line_end();
            }
        } else if c == '*' && self.bo(start) < self.bo(i) && self.bo(start) + 1 == self.bo(i) && !hash {
            self.set_value(ValueState::InComment { start, multiline: true, last_was_asterisk, hash });
        } else if multiline {
            if last_was_asterisk && c == '/' {
                let vs = self.after_comment_state();
                self.set_value(vs);
            } else {
                self.set_value(ValueState::InComment { start, multiline, last_was_asterisk: c == '*', hash });
            }
        } else {
            self.set_value(ValueState::InComment { start, multiline, last_was_asterisk, hash });
        }
    }

    /// A char in a `true`/`false` literal.
    fn boolean_step(&mut self, start: usize, i: usize, c: char)
        requires
            old(self).inv(),
            old(self).phase is Running,
            i < old(self).chars.len(),
            old(self).pos == i,
            start <= i,
            old(self).chars@[i as int] == c,
            old(self).value is Some,
        ensures
            final(self)@ == old(self)@.boolean_step(start as int, i as int, c),
            final(self).inv(),
            final(self).same_input(old(self)),
    {
        self.pos = i + 1;
        proof {
            self.lemma_offs(i as int);
            assert(self.offs@[start as int] + (i - start) <= self.offs@[i as int]);
        }
        let bi = self.bo(i);
        let bs = self.bo(start);
        let diff = bi - bs + 1;
        let at = bi + utf8_width(c);
        let n = i + 1 - start;
        let is_true = n == 4 && self.chars[start] == 't' && self.chars[start + 1] == 'r'
            && self.chars[start + 2] == 'u' && self.chars[start + 3] == 'e';
        let is_fals = n == 4 && self.chars[start] == 'f' && self.chars[start + 1] == 'a'
            && self.chars[start + 2] == 'l' && self.chars[start + 3] == 's';
        let is_false = n == 5 && self.chars[start] == 'f' && self.chars[start + 1] == 'a'
            && self.chars[start + 2] == 'l' && self.chars[start + 3] == 's'
            && self.chars[start + 4] == 'e';
        proof {
            let word = self.chars@.subrange(start as int, i + 1);
            assert(word.len() == n);
            assert(forall|k: int| 0 <= k < n ==> word[k] == self.chars@[start + k]);
            assert(seq!['t', 'r', 'u', 'e'].len() == 4);
            assert(seq!['f', 'a', 'l', 's'].len() == 4);
            assert(seq!['f', 'a', 'l', 's', 'e'].len() == 5);
            assert(is_true == (word == seq!['t', 'r', 'u', 'e'])) by {
                if is_true {
                    assert(word =~= seq!['t', 'r', 'u', 'e']);
                }
                if word == seq!['t', 'r', 'u', 'e'] {
                    assert(word[0] == 't' && word[1] == 'r' && word[2] == 'u' && word[3] == 'e');
                }
            }
            assert(is_fals == (word == seq!['f', 'a', 'l', 's'])) by {
                if is_fals {
                    assert(word =~= seq!['f', 'a', 'l', 's']);
                }
                if word == seq!['f', 'a', 'l', 's'] {
                    assert(word[0] == 'f' && word[1] == 'a' && word[2] == 'l' && word[3] == 's');
                }
            }
            assert(is_false == (word == seq!['f', 'a', 'l', 's', 'e'])) by {
                if is_false {
                    assert(word =~= seq!['f', 'a', 'l', 's', 'e']);
                }
                if word == seq!['f', 'a', 'l', 's', 'e'] {
                    assert(word[0] == 'f' && word[1] == 'a' && word[2] == 'l' && word[3] == 's'
                        && word[4] == 'e');
                }
            }
        }
        if diff < 4 {
            self.set_value(ValueState::Boolean { start });
        } else if diff == 4 {
            if is_true {
                self.emit(
                    RootTOMLValue::Boolean(true),
                    start,
                    Cont::Value { at, then: ValueState::EndOfValue },
                );
            } else if is_fals {
                self.set_value(ValueState::Boolean { start });
            } else {
                self.value_return(Err(TOMLParseError { at: bi, reason: TOMLParseErrorReason::ExpectedBoolean }));
            }
        } else if is_false {
            self.emit(
                RootTOMLValue::Boolean(false),
                start,
                Cont::Value { at, then: ValueState::EndOfValue },
            );
        } else {
            self.value_return(Err(TOMLParseError { at: bi, reason: TOMLParseErrorReason::ExpectedBoolean }));
        }
    }

    /// One char `c` at index `i` while reading a value in state `vs`.
    #[verifier::rlimit(40)]
    fn value_step(&mut self, vs: ValueState, i: usize, c: char)
        requires
            old(self).inv(),
            old(self).phase is Running,
            i < old(self).chars.len(),
            old(self).pos == i,
            old(self).chars@[i as int] == c,
            old(self).value matches Some((v, _)) && v == vs,
        ensures
            final(self)@ == old(self)@.value_step(vs, i as int, c),
            final(self).inv(),
            final(self).same_input(old(self)),
    {
        proof {
            crate::utilities::law_key_chain_wf(self.chain@, SpecKey::Index(0));
        }
        match vs {
            ValueState::ExpectingValue => self.expecting_step(vs, i, c),
            ValueState::InArray { .. } => self.expecting_step(vs, i, c),
            ValueState::InKey { start, joined } => {
                self.pos = i + 1;
                if c == '=' || is_whitespace(c) || c == '.' {
                    let levels = self.chain.context.value_keys.len();
                    if joined && !(levels > 0 && self.chain.context.value_keys[levels - 1] < 255) {
                        self.fault();
                        return;
                    }
                    let on = self.on;
                    let key = on.substring_char(start, i);
                    if joined {
                        self.chain.push_joined_value_key(TOMLKey::Slice(key));
                    } else {
                        self.chain.push_value_key(TOMLKey::Slice(key));
                    }
                    self.set_value(
                        if c == '=' {
                            ValueState::ExpectingValue
                        } else if c == '.' {
                            ValueState::InKey { start: i + 1, joined: true }
                        } else {
                            ValueState::AwaitingEqual
                        },
                    );
                } else {
                    self.set_value(vs);
                }
            },
            ValueState::StringValue { start, literal, escaped, multiline } => {
                self.string_step(start, literal, escaped, multiline, i, c)
            },
            ValueState::AwaitingEqual => {
                self.pos = i + 1;
                if c == '=' {
                    self.set_value(ValueState::ExpectingValue);
                } else if !is_whitespace(c) {
                    let at = self.bo(i);
                    self.value_return(Err(TOMLParseError { at, reason: TOMLParseErrorReason::ExpectedEqual }));
                } else {
                    self.set_value(vs);
                }
            },
            ValueState::EndOfValue => {
                self.pos = i + 1;
                self.eov_step(i, c);
            },
            ValueState::InComment { start, multiline, last_was_asterisk, hash } => {
                self.value_comment_step(start, multiline, last_was_asterisk, hash, i, c)
            },
            ValueState::InInlineTable { yielded } => {
                self.pos = i + 1;
                if c == '}' {
                    if !yielded {
                        proof {
                            self.lemma_offs(i as int);
                        }
                        let at = self.bo(i) + 1;
                        self.emit(RootTOMLValue::EmptyInlineTable, i, Cont::TableClosed { at });
                    } else {
                        self.answer_array_closed();
                    }
                } else if c == '#' {
                    self.set_value(ValueState::InComment {
                        start: i + 1,
                        multiline: false,
                        last_was_asterisk: false,
                        hash: true,
                    });
                } else if is_alphabetic(c) {
                    self.set_value(ValueState::InKey { start: i, joined: false });
                } else if !is_whitespace(c) {
                    let at = self.bo(i);
                    self.value_return(Err(TOMLParseError { at, reason: TOMLParseErrorReason::ExpectedKey }));
                } else {
                    self.set_value(vs);
                }
            },
            ValueState::NumberValue { start } => {
                self.pos = i + 1;
                if is_whitespace(c) || c == '}' || c == ',' || c == ']' || c == '#' {
                    let on = self.on;
                    let text = on.substring_char(start, i);
                    let at = self.bo(i);
                    self.emit(
                        RootTOMLValue::Number(TOMLNumberValue::new(text)),
                        start,
                        Cont::NumberMid { at, i, c },
                    );
                } else {
                    self.set_value(vs);
                }
            },
            ValueState::Boolean { start } => self.boolean_step(start, i, c),
        }
    }

    /// The input ends while reading a value in state `vs`.
    fn value_eof(&mut self, vs: ValueState)
        requires
            old(self).inv(),
            old(self).phase is Running,
            old(self).pos == old(self).chars@.len(),
            old(self).value matches Some((v, _)) && v == vs,
        ensures
            final(self)@ == old(self)@.value_eof(vs),
            final(self).inv(),
            final(self).same_input(old(self)),
    {
        let n = self.chars.len();
        let blen = self.bo(n);
        match vs {
            ValueState::InKey { .. } => {
                self.value_return(Err(TOMLParseError { at: blen, reason: TOMLParseErrorReason::ExpectedQuote }));
            },
            ValueState::StringValue { .. } => {
                self.value_return(Err(TOMLParseError { at: blen, reason: TOMLParseErrorReason::ExpectedQuote }));
            },
            ValueState::AwaitingEqual => {
                self.value_return(Err(TOMLParseError { at: blen, reason: TOMLParseErrorReason::ExpectedEqual }));
            },
            ValueState::InComment { multiline, .. } => {
                if multiline {
                    self.value_return(Err(TOMLParseError { at: blen, reason: TOMLParseErrorReason::ExpectedEndOfMultilineComment }));
                } else {
                    self.value_return(Ok(None));
                }
            },
            ValueState::InInlineTable { .. } => {
                self.value_return(Err(TOMLParseError { at: blen, reason: TOMLParseErrorReason::ExpectedBracket }));
            },
            ValueState::NumberValue { start } => {
                let on = self.on;
                let text = on.substring_char(start, n);
                self.emit(RootTOMLValue::Number(TOMLNumberValue::new(text)), start, Cont::NumberEnd { at: blen });
            },
            ValueState::Boolean { .. } => {
                self.value_return(Err(TOMLParseError { at: blen, reason: TOMLParseErrorReason::ExpectedBoolean }));
            },
            _ => {
                if self.chain.keys.len() > 0 {
                    self.value_return(Err(TOMLParseError { at: blen, reason: TOMLParseErrorReason::ExpectedBracket }));
                } else {
                    self.value_return(Ok(None));
                }
            },
        }
    }

    /// `]` closes a table header at index `i`.
    fn table_close(&mut self, context: Context, i: usize)
        requires
            old(self).inv(),
            old(self).phase is Running,
            i < old(self).chars.len(),
            old(self).pos == i,
            old(self).start <= i,
            old(self).value is None,
        ensures
            final(self)@ == old(self)@.table_close(context, i as int),
            final(self).inv(),
            final(self).same_input(old(self)),
    {
        let aot = matches!(context, Context::ArrayOfTables);
        let len = self.chars.len();
        if aot && !(i + 1 < len && self.chars[i + 1] == ']') {
            self.fault();
            return;
        }
        let n = self.chain.keys.len();
        proof {
            if n > 0 {
                assert(self.chain@.keys.last() == self.chain.keys@[n - 1]@);
            }
        }
        let mut index: Option<usize> = Some(0);
        if n > 0 {
            match self.chain.keys[n - 1] {
                TOMLKey::Index(j) => {
                    index = if j == usize::MAX {
                        None
                    } else {
                        Some(j + 1)
                    };
                },
                _ => {},
            }
        }
        if aot && index.is_none() {
            self.fault();
            return;
        }
        self.chain.clear();
        proof {
            crate::utilities::law_key_chain_wf(old(self).chain@, SpecKey::Index(0));
        }
        let start = self.start;
        match self.parse_key(start, i, Level::Table) {
            KeyExec::Fault => {
                self.chain = KeyChain::new();
                self.fault();
            },
            KeyExec::Invalid => {
                self.chain = KeyChain::new();
                let at = self.bo(start);
                self.finish(Err(TOMLParseError { at, reason: TOMLParseErrorReason::InvalidKey }));
            },
            KeyExec::Done => {
                if aot {
                    if self.chain.context.table_keys == 255 {
                        self.chain = KeyChain::new();
                        self.fault();
                        return;
                    }
                    proof {
                        crate::utilities::law_key_chain_wf(self.chain@, SpecKey::Index(0));
                    }
                    match index {
                        Some(k) => self.chain.push_table_key(TOMLKey::Index(k)),
                        None => {},
                    }
                    self.pos = i + 2;
                } else {
                    self.pos = i + 1;
                }
                self.top = TopState::StartOfLine;
                self.start = i + 1;
            },
        }
    }

    /// `=` ends a key at index `i`: the value parse begins.
    fn specifier_close(&mut self, i: usize)
        requires
            old(self).inv(),
            old(self).phase is Running,
            i < old(self).chars.len(),
            old(self).pos == i,
            old(self).start <= i,
            old(self).value is None,
        ensures
            final(self)@ == old(self)@.specifier_close(i as int),
            final(self).inv(),
            final(self).same_input(old(self)),
    {
        let start = self.start;
        match self.parse_key(start, i, Level::Specifier) {
            KeyExec::Fault => {
                self.chain = KeyChain::new();
                self.fault();
            },
            KeyExec::Invalid => {
                self.chain = KeyChain::new();
                let at = self.bo(start);
                self.finish(Err(TOMLParseError { at, reason: TOMLParseErrorReason::InvalidKey }));
            },
            KeyExec::Done => {
                self.pos = i + 1;
                let cl = self.chain.keys.len();
                self.value = Some((ValueState::ExpectingValue, cl));
                self.nested = true;
            },
        }
    }

    /// One char `c` at index `i` at the top level.
    fn top_step(&mut self, i: usize, c: char)
        requires
            old(self).inv(),
            i < old(self).chars.len(),
            old(self).pos == i,
            old(self).chars@[i as int] == c,
            old(self).value is None,
            old(self).phase is Running,
        ensures
            final(self)@ == old(self)@.top_step(i as int, c),
            final(self).inv(),
            final(self).same_input(old(self)),
    {
        match self.top {
            TopState::StartOfLine => {
                if c == '[' {
                    let len = self.chars.len();
                    if 2 <= len - i && self.chars[i + 1] == '[' {
                        self.pos = i + 2;
                        self.start = i + 2;
                        self.top = TopState::InKey { in_string: None, context: Context::ArrayOfTables };
                    } else {
                        self.pos = i + 1;
                        self.start = i + 1;
                        self.top = TopState::InKey { in_string: None, context: Context::Table };
                    }
                } else if c == '#' {
                    self.pos = i + 1;
                    self.start = i + 1;
                    self.top = TopState::InComment;
                } else if is_alphabetic(c) {
                    self.pos = i + 1;
                    self.start = i;
                    self.top = TopState::InKey { in_string: None, context: Context::CurrentLevel };
                } else if !is_whitespace(c) {
                    let at = self.bo(i);
                    self.pos = i + 1;
                    self.finish(Err(TOMLParseError { at, reason: TOMLParseErrorReason::ExpectedKey }));
                } else {
                    self.pos = i + 1;
                }
            },
            TopState::InKey { in_string, context } => {
                if !matches!(context, Context::CurrentLevel) && c == ']' && in_string.is_none() {
                    self.table_close(context, i);
                } else if matches!(context, Context::CurrentLevel) && c == '=' && in_string.is_none() {
                    self.specifier_close(i);
                } else if c == '"' || c == '\'' {
                    let ns = match in_string {
                        Some(d) => if d == c {
                            None
                        } else {
                            Some(d)
                        },
                        None => Some(c),
                    };
                    self.pos = i + 1;
                    self.top = TopState::InKey { in_string: ns, context };
                } else {
                    self.pos = i + 1;
                }
            },
            TopState::InComment => {
                self.pos = i + 1;
                if c == '\n' {
                    if self.yield_comments {
                        let (a, b) = trim_bounds(&self.chars, self.start, i);
                        let on = self.on;
                        let comment = on.substring_char(a, b);
                        self.emit(RootTOMLValue::Comment(comment), a, Cont::TopComment);
                    } else {
                        self.top = TopState::StartOfLine;
                    }
                }
            },
        }
    }

    /// The input ends at the top level.
    fn top_eof(&mut self)
        requires
            old(self).inv(),
            old(self).phase is Running,
            old(self).pos == old(self).chars@.len(),
            old(self).value is None,
        ensures
            final(self)@ == old(self)@.top_eof(),
            final(self).inv(),
            final(self).same_input(old(self)),
    {
        match self.top {
            TopState::InComment => {
                if self.yield_comments {
                    let n = self.chars.len();
                    let (a, b) = trim_bounds(&self.chars, self.start, n);
                    let on = self.on;
                    let comment = on.substring_char(a, b);
                    self.emit(RootTOMLValue::Comment(comment), a, Cont::TopFinal);
                } else {
                    self.finish(Ok(None));
                }
            },
            TopState::StartOfLine => {
                self.finish(Ok(None));
            },
            TopState::InKey { context, .. } => {
                let at = self.bo(self.chars.len());
                let reason = match context {
                    Context::CurrentLevel => TOMLParseErrorReason::ExpectedEqual,
                    _ => TOMLParseErrorReason::ExpectedBracket,
                };
                self.finish(Err(TOMLParseError { at, reason }));
            },
        }
    }

    /// One step of a running machine.
    pub fn step(&mut self)
        requires
            old(self).inv(),
            old(self)@.phase is Running,
        ensures
            final(self)@ == old(self)@.step(),
            final(self).inv(),
            final(self).source() == old(self).source(),
    {
        reveal(SpecParser::step);
        let i = self.pos;
        let n = self.chars.len();
        match self.value {
            Some((vs, _)) => {
                if i < n {
                    let c = self.chars[i];
                    self.value_step(vs, i, c);
                } else {
                    self.value_eof(vs);
                }
            },
            None => {
                if i < n {
                    let c = self.chars[i];
                    self.top_step(i, c);
                } else {
                    self.top_eof();
                }
            },
        }
    }

    /// Hands the user's answer about the pending value to the machine.
    pub fn answer(&mut self, stop: bool)
        requires
            old(self).inv(),
            old(self)@.phase is Pending,
        ensures
            final(self)@ == old(self)@.answer(stop),
            final(self).inv(),
            final(self).source() == old(self).source(),
    {
        reveal(SpecParser::answer);
        let k = match &self.phase {
            Phase::Pending(_, _, k) => *k,
            _ => Cont::TopFinal,
        };
        self.phase = Phase::Running;
        match k {
            Cont::TopComment => {
                if stop {
                    self.finish(Ok(None));
                } else {
                    self.top = TopState::StartOfLine;
                }
            },
            Cont::TopFinal => {
                self.finish(Ok(None));
            },
            Cont::Value { at, then } => {
                if stop {
                    self.value_return(Ok(Some(at)));
                } else {
                    self.set_value(then);
                }
            },
            Cont::NumberMid { at, i, c } => {
                if stop {
                    self.value_return(Ok(Some(at)));
                } else {
                    self.after_number(i, c);
                }
            },
            Cont::NumberEnd { at } => {
                if stop {
                    self.value_return(Ok(Some(at)));
                } else {
                    self.value_return(Ok(None));
                }
            },
            Cont::ValueComment { at, .. } => {
                if stop {
                    self.value_return(Ok(Some(at)));
                } else {
                    self.comment_line_end();
                }
            },
            Cont::TableClosed { at } => {
                if stop {
                    self.value_return(Ok(Some(at)));
                } else {
                    self.answer_array_closed();
                }
            },
            Cont::ArrayClosed { at } => {
                if stop {
                    self.value_return(Ok(Some(at)));
                } else {
                    self.answer_array_closed();
                }
            },
        }
    }

    /// The value parse returns `r`.
    fn value_return(&mut self, r: Result<Option<usize>, TOMLParseError>)
        requires
            old(self).chain@.wf(),
        ensures
            final(self)@ == old(self)@.value_return(r),
            final(self).on == old(self).on,
            final(self).chars == old(self).chars,
            final(self).offs == old(self).offs,
            final(self).pos == old(self).pos,
            final(self).start == old(self).start,
            final(self).chain@.wf(),
            final(self).value is None || final(self).value == old(self).value,
    {
        if self.nested {
            match r {
                Ok(Some(_)) => {
                    self.finish(Ok(None));
                },
                _ => {
                    self.value = None;
                    self.top = TopState::StartOfLine;
                    self.chain.pop_whole_slice_key();
                    self.phase = Phase::Running;
                    proof {
                        crate::utilities::law_key_chain_wf(old(self).chain@, SpecKey::Index(0));
                    }
                },
            }
        } else {
            self.finish(r);
        }
    }
}

} // verus!
