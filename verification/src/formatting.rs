//! The formatter: writes a TOML document back with one key per line, table
//! headers between sections, inline tables and arrays on one line or, when
//! they hold enough, over several, and optionally aligned `=` signs.
use vstd::prelude::*;

use crate::format_model::{
    after_last_newline, comment_text, common_from, common_len, count_event, finish_text,
    format_event, format_from, has_index, has_slice, header_keys, in_expanded, indent_event,
    initial_indentation, is_bare_key, joined, key_len, key_len_from, key_padding, key_piece,
    new_loop, new_loop_step, newline, parents_loop, pass1, removed_loop, removed_step, rep,
    spec_format,
    spec_is_array_chain, spec_last_line_is_comment, specifier_part, split_opt, table_header,
    value_text, wrap, FmtConfig, FmtState, SpecFormatOptions, SpecIndentation,
};
use crate::keymap::KeyMap;
use crate::machine::{run, SpecOutcome, SpecParser};
use crate::parser::{collect_events, copy_keys, events_view, Event};
use crate::text::{
    byte_len, char_is_alphanumeric, is_alphanumeric, is_whitespace, lemma_byte_len_mono,
    lemma_byte_offset_step, push_chars, push_str, str_byte_len, str_to_chars, utf8_width,
};
use crate::utilities::{
    chars_to_string, comment_kind_in, lemma_rfind_bound, rfind_char, CommentPosition,
};
use crate::{
    keys_view, RootTOMLValue, SpecContext, SpecKey, TOMLKey, TOMLKeyContext, TOMLParseError,
};

verus! {

/// How the keys before `=` are aligned: to the widest specifier in the
/// whole document, to the widest in each table, or not at all.
#[derive(Debug, Copy, Clone)]
pub enum KeyIndentation {
    WholeDocument,
    Section,
    Unaligned,
}

impl Default for KeyIndentation {
    fn default() -> (r: Self)
        ensures
            r == KeyIndentation::Unaligned,
    {
        KeyIndentation::Unaligned
    }
}

/// The text of one level of indentation; a tab by default.
#[derive(Debug, Copy, Clone)]
pub struct ValueIndentation(pub(crate) &'static str);

impl View for ValueIndentation {
    type V = Seq<char>;

    closed spec fn view(&self) -> Seq<char> {
        self.0@
    }
}

impl Default for ValueIndentation {
    fn default() -> (r: Self)
        ensures
            r@ == seq!['\t'],
    {
        proof {
            reveal_strlit("\t");
        }
        let r = ValueIndentation("\t");
        assert(r@ =~= seq!['\t']);
        r
    }
}

impl From<&'static str> for ValueIndentation {
    fn from(value: &'static str) -> (r: Self)
        ensures
            r@ == value@,
    {
        ValueIndentation(value)
    }
}

impl vstd::std_specs::convert::FromSpecImpl<&'static str> for ValueIndentation {
    open spec fn obeys_from_spec() -> bool {
        true
    }

    closed spec fn from_spec(v: &'static str) -> Self {
        ValueIndentation(v)
    }
}

impl AsRef<str> for ValueIndentation {
    fn as_ref(&self) -> (r: &str)
        ensures
            r@ == self@,
    {
        self.0
    }
}

/// How a document is formatted.
pub struct FormatOptions {
    pub indentation: KeyIndentation,
    pub prefix_indent_keys: bool,
    pub value_indentation: ValueIndentation,
    pub use_crlf: bool,
}

impl View for FormatOptions {
    type V = SpecFormatOptions;

    open spec fn view(&self) -> SpecFormatOptions {
        SpecFormatOptions {
            indentation: self.indentation,
            prefix_indent_keys: self.prefix_indent_keys,
            indent: self.value_indentation@,
            use_crlf: self.use_crlf,
        }
    }
}

impl Default for FormatOptions {
    fn default() -> (r: Self)
        ensures
            r@ == (SpecFormatOptions {
                indentation: KeyIndentation::Unaligned,
                prefix_indent_keys: false,
                indent: seq!['\t'],
                use_crlf: false,
            }),
    {
        FormatOptions {
            indentation: KeyIndentation::default(),
            prefix_indent_keys: false,
            value_indentation: ValueIndentation::default(),
            use_crlf: false,
        }
    }
}

/// How much the value at each chain of keys holds, as found by a first pass
/// over the document.
#[derive(Debug)]
pub struct ValueFindings<'a>(pub(crate) KeyMap<'a, u8>);

impl ValueFindings<'_> {
    /// The counts found for each chain.
    pub closed spec fn counts(&self) -> Map<Seq<SpecKey>, u8> {
        self.0.view_map()
    }

    pub closed spec fn wf(&self) -> bool {
        self.0.wf()
    }

    /// Whether the value at `chain` holds enough (a count of 3 or more) to be
    /// written over several lines.
    #[must_use]
    pub fn in_expanded_value(&self, chain: &[TOMLKey<'_>]) -> (r: bool)
        requires
            self.wf(),
        ensures
            r == in_expanded(self.counts(), keys_view(chain@)),
    {
        let current_properties = match self.0.get(chain) {
            Some(c) => c,
            None => 0,
        };
        current_properties >= 3
    }
}

/// The widths found for aligning keys.
enum IndentationResult<'a> {
    WholeDocument(usize),
    Section(KeyMap<'a, usize>),
    Unaligned,
}

impl IndentationResult<'_> {
    spec fn model(&self) -> SpecIndentation {
        match self {
            IndentationResult::WholeDocument(w) => SpecIndentation::WholeDocument(*w as nat),
            IndentationResult::Section(m) => SpecIndentation::Section(m.view_map()),
            IndentationResult::Unaligned => SpecIndentation::Unaligned,
        }
    }

    spec fn wf(&self) -> bool {
        match self {
            IndentationResult::Section(m) => m.wf(),
            _ => true,
        }
    }
}

/// Adds what one value tells about the counts; `false` where the formatter
/// does not handle the value.
fn count_value<'a>(counts: &mut KeyMap<'a, u8>, e: &Event<'a>) -> (ok: bool)
    requires
        old(counts).wf(),
    ensures
        final(counts).wf(),
        ok == count_event(old(counts).view_map(), e@) is Some,
        ok ==> count_event(old(counts).view_map(), e@) == Some(final(counts).view_map()),
{
    if !e.context.in_value {
        return true;
    }
    let tsl = e.context.table_keys as usize + e.context.specifier_keys as usize;
    let keys = e.keys.as_slice();
    let n = keys.len();
    if tsl > 255 || tsl > n {
        return false;
    }
    let ghost kv = keys_view(keys@);
    if let RootTOMLValue::Comment(_) = e.value {
        let end = if n > 0 {
            n - 1
        } else {
            0
        };
        let k = &keys[0..end];
        proof {
            assert(keys_view(k@) =~= if n > 0 {
                kv.take(n - 1)
            } else {
                kv
            });
        }
        let cur = match counts.get(k) {
            Some(c) => c,
            None => 0,
        };
        if cur > 252 {
            return false;
        }
        counts.set(k, cur + 3);
        true
    } else {
        if n == 0 {
            return false;
        }
        let head = &keys[0..n - 1];
        proof {
            assert(keys_view(head@) =~= kv.take(n - 1));
        }
        let cur = match counts.get(head) {
            Some(c) => c,
            None => 0,
        };
        counts.set(head, cur.saturating_add(1));
        let ghost c1 = counts.view_map();
        let to = n - tsl;
        let mut i: usize = 1;
        while i < to
            invariant
                kv == keys_view(keys@),
                n == keys@.len(),
                to == n - tsl,
                tsl <= n,
                1 <= i,
                i <= to || to == 0,
                counts.wf(),
                parents_loop(counts.view_map(), kv, i as int, to as int) == parents_loop(c1, kv, 1, to as int),
            decreases to - i,
        {
            let hh = &keys[0..n - 1 - i];
            proof {
                assert(keys_view(hh@) =~= kv.take(n - 1 - i));
            }
            let c = match counts.get(hh) {
                Some(c) => c,
                None => 0,
            };
            counts.set(hh, c.saturating_add(3));
            i = i + 1;
        }
        true
    }
}

/// Adds what one value tells about the widths of its specifier keys; `false`
/// where the formatter does not handle the value.
fn measure_value<'a>(ind: &mut IndentationResult<'a>, e: &Event<'a>) -> (ok: bool)
    requires
        old(ind).wf(),
    ensures
        final(ind).wf(),
        ok == indent_event(old(ind).model(), e@) is Some,
        ok ==> indent_event(old(ind).model(), e@) == Some(final(ind).model()),
{
    if let IndentationResult::Unaligned = ind {
        return true;
    }
    let t = e.context.table_keys as usize;
    let s = e.context.specifier_keys as usize;
    let keys = e.keys.as_slice();
    if t + s > keys.len() {
        return false;
    }
    let spec_keys = &keys[t..t + s];
    proof {
        assert(keys_view(spec_keys@) =~= keys_view(keys@).subrange(t as int, t + s));
    }
    let len = match keys_width(spec_keys) {
        Some(len) => len,
        None => return false,
    };
    match ind {
        IndentationResult::WholeDocument(w) => {
            if len > *w {
                *w = len;
            }
        },
        IndentationResult::Section(m) => {
            let prefix = &keys[0..t];
            proof {
                assert(keys_view(prefix@) =~= keys_view(keys@).take(t as int));
            }
            match m.get(prefix) {
                Some(cur) => {
                    if len > cur {
                        m.set(prefix, len);
                    } else {
                        m.set(prefix, cur);
                    }
                },
                None => {
                    m.set(prefix, len);
                },
            }
        },
        IndentationResult::Unaligned => {},
    }
    true
}

/// Appends `n` copies of `s`.
fn push_rep(buf: &mut Vec<char>, s: &Vec<char>, n: usize)
    ensures
        final(buf)@ == old(buf)@ + rep(s@, n as nat),
{
    let mut i: usize = 0;
    while i < n
        invariant
            i <= n,
            buf@ == old(buf)@ + rep(s@, i as nat),
        decreases n - i,
    {
        let ghost before = buf@;
        push_chars(buf, s);
        i = i + 1;
        proof {
            assert(rep(s@, i as nat) == rep(s@, (i - 1) as nat) + s@);
            assert(buf@ =~= old(buf)@ + rep(s@, i as nat));
        }
    }
}

/// Whether `buf` ends with `pat`.
fn ends_with(buf: &Vec<char>, pat: &Vec<char>) -> (r: bool)
    ensures
        r == crate::format_model::ends_with(buf@, pat@),
{
    if buf.len() < pat.len() {
        return false;
    }
    let n = buf.len();
    let off = n - pat.len();
    let mut i: usize = 0;
    while i < pat.len()
        invariant
            n == buf@.len(),
            off + pat@.len() == buf@.len(),
            i <= pat@.len(),
            forall|j: int| 0 <= j < i ==> buf@[off + j] == pat@[j],
        decreases pat@.len() - i,
    {
        if buf[off + i] != pat[i] {
            proof {
                assert(buf@.skip(off as int)[i as int] != pat@[i as int]);
            }
            return false;
        }
        i = i + 1;
    }
    proof {
        assert(buf@.skip(off as int) =~= pat@);
    }
    true
}

/// Whether `buf` ends with the char `c`.
fn ends_with_char(buf: &Vec<char>, c: char) -> (r: bool)
    ensures
        r == crate::format_model::ends_with(buf@, seq![c]),
{
    if buf.len() == 0 {
        return false;
    }
    let r = buf[buf.len() - 1] == c;
    proof {
        let s = buf@.skip(buf@.len() - 1);
        assert(s.len() == 1 && s[0] == buf@[buf@.len() - 1]);
        if r {
            assert(s =~= seq![c]);
        } else {
            assert(s[0] != seq![c][0]);
        }
    }
    r
}

/// Whether `buf` ends with `= `.
fn ends_with_assign(buf: &Vec<char>) -> (r: bool)
    ensures
        r == crate::format_model::ends_with(buf@, seq!['=', ' ']),
{
    let n = buf.len();
    if n < 2 {
        return false;
    }
    let r = buf[n - 2] == '=' && buf[n - 1] == ' ';
    proof {
        let s = buf@.skip(n - 2);
        assert(s.len() == 2 && s[0] == buf@[n - 2] && s[1] == buf@[n - 1]);
        if r {
            assert(s =~= seq!['=', ' ']);
        } else if buf@[n - 2] != '=' {
            assert(s[0] != seq!['=', ' '][0]);
        } else {
            assert(s[1] != seq!['=', ' '][1]);
        }
    }
    r
}

/// Whether `key` can be written bare: it holds only letters, digits, `-` and `_`.
pub fn is_alphanumeric_string(key: &str) -> (r: bool)
    ensures
        r == is_bare_key(key@),
{
    let v = str_to_chars(key);
    let mut i: usize = 0;
    while i < v.len()
        invariant
            v@ == key@,
            i <= v@.len(),
            forall|j: int| 0 <= j < i ==> char_is_alphanumeric(#[trigger] v@[j]) || v@[j] == '-' || v@[j] == '_',
        decreases v@.len() - i,
    {
        let c = v[i];
        if !(is_alphanumeric(c) || c == '-' || c == '_') {
            return false;
        }
        i = i + 1;
    }
    true
}

/// Appends `key`, in single quotes unless it can be written bare.
fn push_wrapped(buf: &mut Vec<char>, key: &str)
    ensures
        final(buf)@ == old(buf)@ + wrap(key@),
{
    if is_alphanumeric_string(key) {
        push_str(buf, key);
    } else {
        buf.push('\'');
        push_str(buf, key);
        buf.push('\'');
        proof {
            assert(buf@ =~= old(buf)@ + wrap(key@));
        }
    }
}

/// Appends the keys joined by dots, leaving out indices.
fn push_joined(buf: &mut Vec<char>, keys: &[TOMLKey<'_>])
    ensures
        final(buf)@ == old(buf)@ + header_keys(keys_view(keys@)),
{
    let ghost kv = keys_view(keys@);
    let mut i: usize = 0;
    while i < keys.len()
        invariant
            kv == keys_view(keys@),
            i <= keys@.len(),
            buf@ == old(buf)@ + joined(kv, i as int),
        decreases keys@.len() - i,
    {
        let ghost before = buf@;
        match keys[i] {
            TOMLKey::Slice(k) => {
                if i != 0 {
                    buf.push('.');
                }
                push_wrapped(buf, k);
            },
            TOMLKey::Index(_) => {},
        }
        proof {
            assert(kv[i as int] == keys@[i as int]@);
            assert(buf@ == before + key_piece(kv[i as int], i == 0));
        }
        i = i + 1;
        proof {
            assert(buf@ =~= old(buf)@ + joined(kv, i as int));
        }
    }
}

/// Whether one of the keys is an index.
fn any_index(keys: &[TOMLKey<'_>]) -> (r: bool)
    ensures
        r == has_index(keys_view(keys@)),
{
    let mut i: usize = 0;
    while i < keys.len()
        invariant
            i <= keys@.len(),
            forall|j: int| 0 <= j < i ==> !(#[trigger] keys_view(keys@)[j] is Index),
        decreases keys@.len() - i,
    {
        if let TOMLKey::Index(_) = keys[i] {
            proof {
                assert(keys_view(keys@)[i as int] is Index);
            }
            return true;
        }
        i = i + 1;
    }
    false
}

/// Whether one of the keys is a name.
fn any_slice(keys: &[TOMLKey<'_>]) -> (r: bool)
    ensures
        r == has_slice(keys_view(keys@)),
{
    let mut i: usize = 0;
    while i < keys.len()
        invariant
            i <= keys@.len(),
            forall|j: int| 0 <= j < i ==> !(#[trigger] keys_view(keys@)[j] is Slice),
        decreases keys@.len() - i,
    {
        if let TOMLKey::Slice(_) = keys[i] {
            proof {
                assert(keys_view(keys@)[i as int] is Slice);
            }
            return true;
        }
        i = i + 1;
    }
    false
}

/// Whether every key of the value but the last is an index.
fn is_array_chain(this_value: &[TOMLKey<'_>]) -> (r: bool)
    ensures
        r == spec_is_array_chain(keys_view(this_value@)),
{
    let n = this_value.len();
    let end = if n > 0 {
        n - 1
    } else {
        0
    };
    let mut i: usize = 0;
    while i < end
        invariant
            end <= n == this_value@.len(),
            end == n - 1 || (n == 0 && end == 0),
            i <= end,
            forall|j: int| 0 <= j < i ==> #[trigger] keys_view(this_value@)[j] is Index,
        decreases end - i,
    {
        if let TOMLKey::Slice(_) = this_value[i] {
            proof {
                assert(!(keys_view(this_value@)[i as int] is Index));
            }
            return false;
        }
        i = i + 1;
    }
    true
}

/// Whether the text after the last newline of `buf` starts with `#`.
fn last_line_is_comment(buf: &Vec<char>) -> (r: bool)
    ensures
        r == spec_last_line_is_comment(buf@),
{
    proof {
        lemma_rfind_bound(buf@, '\n', buf@.len() as int);
    }
    match rfind_char(buf, '\n', buf.len()) {
        Some(p) => {
            let r = p + 1 < buf.len() && buf[p + 1] == '#';
            proof {
                assert(buf@.skip(p + 1).len() == buf@.len() - (p + 1));
                if p + 1 < buf@.len() {
                    assert(buf@.skip(p + 1)[0] == buf@[p + 1]);
                }
            }
            r
        },
        None => false,
    }
}

/// The byte length of `s[from..]`, or `cap` where it is `cap` or more.
fn capped_byte_len(s: &Vec<char>, from: usize, cap: usize) -> (r: usize)
    requires
        from <= s@.len(),
    ensures
        r == if byte_len(s@.skip(from as int)) < cap {
            byte_len(s@.skip(from as int)) as usize
        } else {
            cap
        },
{
    let ghost t = s@.skip(from as int);
    let mut acc: usize = 0;
    let mut i: usize = from;
    proof {
        assert(t.take(0) =~= Seq::<char>::empty());
    }
    while i < s.len()
        invariant
            t == s@.skip(from as int),
            from <= i <= s@.len(),
            acc == byte_len(t.take(i - from)),
            acc < cap || (acc == 0 && cap == 0),
        decreases s@.len() - i,
    {
        if acc >= cap {
            proof {
                lemma_byte_len_mono(t, i - from, t.len() as int);
                assert(t.take(t.len() as int) =~= t);
            }
            return cap;
        }
        let w = utf8_width(s[i]);
        proof {
            assert(t[i - from] == s@[i as int]);
            lemma_byte_offset_step(t, i - from);
        }
        if w >= cap - acc {
            proof {
                lemma_byte_len_mono(t, i - from + 1, t.len() as int);
                assert(t.take(t.len() as int) =~= t);
            }
            return cap;
        }
        acc = acc + w;
        i = i + 1;
    }
    proof {
        assert(t.take(i - from) =~= t);
    }
    if acc >= cap {
        return cap;
    }
    acc
}

/// `key_len_from` never falls below its accumulator.
proof fn lemma_key_len_from_ge(ks: Seq<SpecKey>, i: int, acc: nat)
    ensures
        key_len_from(ks, i, acc) >= acc,
    decreases ks.len() - i,
{
    if i < ks.len() {
        let a1: nat = if acc != 0 {
            acc + 1
        } else {
            acc
        };
        let a2: nat = match ks[i] {
            SpecKey::Slice(k) => a1 + byte_len(k),
            SpecKey::Index(_) => a1,
        };
        lemma_key_len_from_ge(ks, i + 1, a2);
    }
}

/// The width of the keys: the byte lengths of the names, with one between
/// each two; `None` where it does not fit in a `usize`.
fn keys_width(keys: &[TOMLKey<'_>]) -> (r: Option<usize>)
    ensures
        match r {
            Some(n) => n == key_len(keys_view(keys@)),
            None => key_len(keys_view(keys@)) > usize::MAX,
        },
{
    let ghost kv = keys_view(keys@);
    let mut acc: usize = 0;
    let mut i: usize = 0;
    while i < keys.len()
        invariant
            kv == keys_view(keys@),
            i <= keys@.len(),
            key_len_from(kv, i as int, acc as nat) == key_len(kv),
        decreases keys@.len() - i,
    {
        proof {
            assert(kv[i as int] == keys@[i as int]@);
        }
        let a1 = if acc != 0 {
            match acc.checked_add(1) {
                Some(v) => v,
                None => {
                    proof {
                        let a1g: nat = (acc + 1) as nat;
                        let a2g: nat = match kv[i as int] {
                            SpecKey::Slice(k) => a1g + byte_len(k),
                            SpecKey::Index(_) => a1g,
                        };
                        assert(key_len_from(kv, i as int, acc as nat) == key_len_from(kv, i + 1, a2g));
                        lemma_key_len_from_ge(kv, i + 1, a2g);
                    }
                    return None;
                },
            }
        } else {
            acc
        };
        let a2 = match keys[i] {
            TOMLKey::Slice(k) => match a1.checked_add(str_byte_len(k)) {
                Some(v) => v,
                None => {
                    proof {
                        assert(key_len_from(kv, i as int, acc as nat) == key_len_from(kv, i + 1, (a1 + byte_len(k@)) as nat));
                        lemma_key_len_from_ge(kv, i + 1, (a1 + byte_len(k@)) as nat);
                    }
                    return None;
                },
            },
            TOMLKey::Index(_) => a1,
        };
        proof {
            assert(key_len_from(kv, i as int, acc as nat) == key_len_from(kv, i + 1, a2 as nat));
        }
        acc = a2;
        i = i + 1;
    }
    Some(acc)
}

/// The keys of two chains: what the second leaves out of the first, what
/// they share at the start, and what the second adds.
pub(crate) struct Difference<'b, 'a> {
    pub removed: &'b [TOMLKey<'a>],
    pub same: &'b [TOMLKey<'a>],
    pub new: &'b [TOMLKey<'a>],
}

/// Splits `last` and `this` at the end of their longest common prefix.
pub(crate) fn split_prefix_difference<'b, 'a>(last: &'b [TOMLKey<'a>], this: &'b [TOMLKey<'a>]) -> (d: Difference<'b, 'a>)
    ensures
        0 <= common_len(keys_view(this@), keys_view(last@)) <= this@.len(),
        common_len(keys_view(this@), keys_view(last@)) <= last@.len(),
        d.removed@ == last@.skip(common_len(keys_view(this@), keys_view(last@))),
        d.same@ == this@.take(common_len(keys_view(this@), keys_view(last@))),
        d.new@ == this@.skip(common_len(keys_view(this@), keys_view(last@))),
{
    let ghost tv = keys_view(this@);
    let ghost lv = keys_view(last@);
    let mut i: usize = 0;
    while i < this.len() && i < last.len() && this[i].key_eq(&last[i])
        invariant
            tv == keys_view(this@),
            lv == keys_view(last@),
            i <= this@.len(),
            i <= last@.len(),
            common_from(tv, lv, i as int) == common_len(tv, lv),
        decreases this@.len() - i,
    {
        proof {
            assert(tv[i as int] == this@[i as int]@ && lv[i as int] == last@[i as int]@);
        }
        i = i + 1;
    }
    proof {
        if i < this@.len() && i < last@.len() {
            assert(tv[i as int] == this@[i as int]@ && lv[i as int] == last@[i as int]@);
        }
    }
    let removed = &last[i..last.len()];
    let same = &this[0..i];
    let new = &this[i..this.len()];
    proof {
        assert(removed@ =~= last@.skip(i as int));
        assert(same@ =~= this@.take(i as int));
        assert(new@ =~= this@.skip(i as int));
    }
    Difference { removed, same, new }
}

proof fn lemma_common_from(a: Seq<SpecKey>, b: Seq<SpecKey>, i: int)
    requires
        0 <= i <= a.len(),
        i <= b.len(),
    ensures
        i <= common_from(a, b, i) <= a.len(),
        common_from(a, b, i) <= b.len(),
        forall|j: int| i <= j < common_from(a, b, i) ==> a[j] == b[j],
        common_from(a, b, i) < a.len() && common_from(a, b, i) < b.len() ==> a[common_from(a, b, i)] != b[common_from(a, b, i)],
    decreases a.len() - i,
{
    if i < a.len() && i < b.len() && a[i] == b[i] {
        lemma_common_from(a, b, i + 1);
    }
}

/// Two chains agree on the keys before `common_len`, and differ at it unless
/// one of them ends there; each is that common prefix followed by the rest.
pub proof fn law_common_prefix(a: Seq<SpecKey>, b: Seq<SpecKey>)
    ensures
        0 <= common_len(a, b) <= a.len(),
        common_len(a, b) <= b.len(),
        a.take(common_len(a, b)) == b.take(common_len(a, b)),
        common_len(a, b) < a.len() && common_len(a, b) < b.len() ==> a[common_len(a, b)] != b[common_len(a, b)],
        a.take(common_len(a, b)) + a.skip(common_len(a, b)) == a,
        a.take(common_len(a, b)) + b.skip(common_len(a, b)) == b,
{
    lemma_common_from(a, b, 0);
    let c = common_len(a, b);
    assert(a.take(c) =~= b.take(c));
    assert(a.take(c) + a.skip(c) =~= a);
    assert(b.take(c) + b.skip(c) =~= b);
}

/// What the second pass works with.
struct Env<'a> {
    src: Vec<char>,
    indent: Vec<char>,
    nl: Vec<char>,
    prefix_indent_keys: bool,
    findings: ValueFindings<'a>,
    indentation: IndentationResult<'a>,
}

impl Env<'_> {
    spec fn cfg(&self) -> FmtConfig {
        FmtConfig {
            input: self.src@,
            indent: self.indent@,
            nl: self.nl@,
            prefix_indent_keys: self.prefix_indent_keys,
            counts: self.findings.counts(),
            indentation: self.indentation.model(),
        }
    }

    spec fn wf(&self) -> bool {
        self.findings.wf() && self.indentation.wf()
    }
}

/// Appends `n` spaces.
fn push_spaces(buf: &mut Vec<char>, n: usize)
    ensures
        final(buf)@ == old(buf)@ + rep(seq![' '], n as nat),
{
    let mut i: usize = 0;
    while i < n
        invariant
            i <= n,
            buf@ == old(buf)@ + rep(seq![' '], i as nat),
        decreases n - i,
    {
        buf.push(' ');
        i = i + 1;
        proof {
            assert(rep(seq![' '], i as nat) == rep(seq![' '], (i - 1) as nat) + seq![' ']);
            assert(buf@ =~= old(buf)@ + rep(seq![' '], i as nat));
        }
    }
}

/// Closes the keys `removed`, last first: ` }` for an inline table, `]` for
/// an array, on a line of its own when the array is written over several
/// lines; `false` where the formatter does not handle the keys.
fn push_removed<'a>(
    env: &Env<'a>,
    removed: &[TOMLKey<'a>],
    common: usize,
    last_keys: &[TOMLKey<'a>],
    last_context: &TOMLKeyContext,
    buf: &mut Vec<char>,
) -> (ok: bool)
    requires
        env.wf(),
        common <= 1,
    ensures
        ok == removed_loop(env.cfg(), old(buf)@, keys_view(removed@), common as int, keys_view(last_keys@), last_context@, removed@.len() as int) is Some,
        ok ==> removed_loop(env.cfg(), old(buf)@, keys_view(removed@), common as int, keys_view(last_keys@), last_context@, removed@.len() as int) == Some(final(buf)@),
{
    let ghost cfg = env.cfg();
    let ghost rv = keys_view(removed@);
    let ghost lk = keys_view(last_keys@);
    let tsl = last_context.table_keys as usize + last_context.specifier_keys as usize;
    let n = last_keys.len();
    let mut k = removed.len();
    while k > 0
        invariant
            k <= removed@.len(),
            common <= 1,
            env.wf(),
            cfg == env.cfg(),
            rv == keys_view(removed@),
            lk == keys_view(last_keys@),
            n == last_keys@.len(),
            tsl == last_context@.table_keys + last_context@.specifier_keys,
            removed_loop(cfg, buf@, rv, common as int, lk, last_context@, k as int) == removed_loop(cfg, old(buf)@, rv, common as int, lk, last_context@, removed@.len() as int),
        decreases k,
    {
        let level = (k - 1) + common;
        if tsl > n || level > n - tsl {
            return false;
        }
        let last_chain = &last_keys[0..tsl + level];
        let last_value = &last_keys[tsl..n];
        proof {
            assert(keys_view(last_chain@) =~= lk.take(tsl + level));
            assert(keys_view(last_value@) =~= lk.skip(tsl as int));
            assert(rv[k - 1] == removed@[k - 1]@);
        }
        let pretty = env.findings.in_expanded_value(last_chain) && is_array_chain(last_value);
        let ghost before = buf@;
        match removed[k - 1] {
            TOMLKey::Slice(_) => {
                buf.push(' ');
                buf.push('}');
                proof {
                    assert(buf@ =~= before + seq![' ', '}']);
                }
            },
            TOMLKey::Index(_) => {
                if pretty {
                    push_chars(buf, &env.nl);
                    push_rep(buf, &env.indent, level);
                    proof {
                        assert(buf@ =~= before + cfg.nl + rep(cfg.indent, level as nat));
                    }
                }
                buf.push(']');
            },
        }
        proof {
            assert(buf@ == removed_step(cfg, before, rv, common as int, lk, last_context@, k as int));
        }
        k = k - 1;
    }
    true
}

/// Opens the keys `new`: `{ key = ` for an inline table, `[` for an array,
/// with line breaks and indentation when the array is written over several
/// lines.
fn push_new<'a>(
    env: &Env<'a>,
    buf: &mut Vec<char>,
    keys: &[TOMLKey<'a>],
    base: usize,
    this_value: &[TOMLKey<'a>],
    new: &[TOMLKey<'a>],
    common: usize,
)
    requires
        env.wf(),
        common <= 1,
        base + common + new@.len() <= keys@.len(),
    ensures
        final(buf)@ == new_loop(env.cfg(), old(buf)@, keys_view(keys@), base as int, keys_view(this_value@), keys_view(new@), common as int, 0),
{
    let ghost cfg = env.cfg();
    let ghost kv = keys_view(keys@);
    let ghost tv = keys_view(this_value@);
    let ghost nv = keys_view(new@);
    let klen = keys.len();
    let mut k: usize = 0;
    while k < new.len()
        invariant
            k <= new@.len(),
            common <= 1,
            klen == keys@.len(),
            base + common + new@.len() <= keys@.len(),
            env.wf(),
            cfg == env.cfg(),
            kv == keys_view(keys@),
            tv == keys_view(this_value@),
            nv == keys_view(new@),
            new_loop(cfg, buf@, kv, base as int, tv, nv, common as int, k as int) == new_loop(cfg, old(buf)@, kv, base as int, tv, nv, common as int, 0),
        decreases new@.len() - k,
    {
        let ghost before = buf@;
        let level = k + common;
        let chain = &keys[0..base + level];
        proof {
            assert(keys_view(chain@) =~= kv.take(base + level));
            assert(nv[k as int] == new@[k as int]@);
        }
        let pretty = env.findings.in_expanded_value(chain) && is_array_chain(this_value);
        match new[k] {
            TOMLKey::Slice(key) => {
                buf.push('{');
                buf.push(' ');
                push_wrapped(buf, key);
                buf.push(' ');
                buf.push('=');
                buf.push(' ');
                proof {
                    assert(buf@ =~= before + seq!['{', ' '] + wrap(key@) + seq![' ', '=', ' ']);
                }
            },
            TOMLKey::Index(_) => {
                if !(ends_with_char(buf, ',') || ends_with_char(buf, '[') || ends_with_assign(buf)
                    || ends_with(buf, &env.indent)) {
                    if pretty {
                        push_chars(buf, &env.nl);
                        let n = this_value.len();
                        push_rep(
                            buf,
                            &env.indent,
                            if n > 0 {
                                n - 1
                            } else {
                                0
                            },
                        );
                        proof {
                            assert(buf@ =~= before + cfg.nl + rep(
                                cfg.indent,
                                if tv.len() > 0 {
                                    (tv.len() - 1) as nat
                                } else {
                                    0
                                },
                            ));
                        }
                    } else {
                        buf.push(' ');
                    }
                }
                let ghost b1 = buf@;
                buf.push('[');
                if pretty {
                    push_chars(buf, &env.nl);
                    push_rep(buf, &env.indent, level + 1);
                    proof {
                        assert(buf@ =~= b1.push('[') + cfg.nl + rep(cfg.indent, (level + 1) as nat));
                    }
                }
            },
        }
        proof {
            assert(buf@ == new_loop_step(cfg, before, kv, base as int, tv, nv, common as int, k as int));
        }
        k = k + 1;
    }
}

/// Writes the header of a new table, after a blank line unless it starts
/// the document or follows a comment line.
fn push_table_header(env: &Env<'_>, buf: &mut Vec<char>, this_table: &[TOMLKey<'_>])
    ensures
        final(buf)@ == table_header(env.cfg(), old(buf)@, keys_view(this_table@)),
{
    let is_start = buf.len() == 0;
    if !(is_start || ends_with_char(buf, '\n')) {
        push_chars(buf, &env.nl);
    }
    if !(is_start || last_line_is_comment(buf)) {
        push_chars(buf, &env.nl);
    }
    let is_table = any_index(this_table);
    if is_table {
        buf.push('[');
        buf.push('[');
    } else {
        buf.push('[');
    }
    let ghost mid = buf@;
    push_joined(buf, this_table);
    if is_table {
        buf.push(']');
        buf.push(']');
    } else {
        buf.push(']');
    }
    proof {
        let hk = header_keys(keys_view(this_table@));
        if is_table {
            assert(buf@ =~= mid + hk + seq![']', ']']);
        } else {
            assert(buf@ =~= mid + hk + seq![']']);
        }
    }
}

/// Pads the keys written from `buf_len` on to the width found for them;
/// `false` where the formatter does not handle that width.
fn push_padding<'a>(env: &Env<'a>, buf: &mut Vec<char>, e: &Event<'a>, buf_len: usize) -> (ok: bool)
    requires
        env.wf(),
        buf_len <= old(buf)@.len(),
        e.context.table_keys <= e.keys@.len(),
    ensures
        ok == key_padding(env.cfg(), e@.keys, e@.ctx, byte_len(old(buf)@.skip(buf_len as int))) is Some,
        ok ==> final(buf)@ == old(buf)@ + key_padding(env.cfg(), e@.keys, e@.ctx, byte_len(old(buf)@.skip(buf_len as int))).unwrap(),
{
    let width = capped_byte_len(buf, buf_len, 21);
    match &env.indentation {
        IndentationResult::WholeDocument(w) => {
            if width > *w || *w > 20 {
                return false;
            }
            push_spaces(buf, *w - width);
        },
        IndentationResult::Section(m) => {
            let t = e.context.table_keys as usize;
            let prefix = &e.keys.as_slice()[0..t];
            proof {
                assert(keys_view(prefix@) =~= e@.keys.take(t as int));
            }
            match m.get(prefix) {
                None => {
                    return false;
                },
                Some(w) => {
                    if width > w || w > 20 {
                        return false;
                    }
                    push_spaces(buf, w - width);
                },
            }
        },
        IndentationResult::Unaligned => {
            proof {
                assert(buf@ =~= old(buf)@ + Seq::<char>::empty());
            }
        },
    }
    true
}

/// Writes the specifier keys of a value under keys other than the last
/// value's, padded to the aligned width; `false` where the formatter does not
/// handle them.
fn push_specifier<'a>(
    env: &Env<'a>,
    buf: &mut Vec<char>,
    e: &Event<'a>,
    this_specifier: &[TOMLKey<'a>],
    is_comment: bool,
) -> (ok: bool)
    requires
        env.wf(),
        e.context.table_keys <= e.keys@.len(),
    ensures
        ok == specifier_part(env.cfg(), old(buf)@, e@, keys_view(this_specifier@), is_comment) is Some,
        ok ==> specifier_part(env.cfg(), old(buf)@, e@, keys_view(this_specifier@), is_comment) == Some(final(buf)@),
{
    if !is_comment {
        if buf.len() > 0 {
            push_chars(buf, &env.nl);
        }
        if env.prefix_indent_keys {
            push_chars(buf, &env.indent);
        }
    }
    let ghost b1 = buf@;
    if any_index(this_specifier) {
        return false;
    }
    let buf_len = buf.len();
    push_joined(buf, this_specifier);
    let ghost text = header_keys(keys_view(this_specifier@));
    proof {
        assert(buf@.skip(buf_len as int) =~= text);
    }
    if !push_padding(env, buf, e, buf_len) {
        return false;
    }
    let ghost b3 = buf@;
    if !is_comment {
        buf.push(' ');
        buf.push('=');
        buf.push(' ');
    }
    proof {
        let pad = key_padding(env.cfg(), e@.keys, e@.ctx, byte_len(text)).unwrap();
        assert(b3 =~= b1 + text + pad);
        if !is_comment {
            assert(buf@ =~= b1 + text + pad + seq![' ', '=', ' ']);
        } else {
            assert(buf@ =~= b1 + text + pad + Seq::<char>::empty());
        }
    }
    true
}

/// Writes a comment: at the end of the line it annotates, or on a line of
/// its own, indented to its depth; `false` where the formatter does not
/// handle it.
fn push_comment<'a>(
    env: &Env<'a>,
    buf: &mut Vec<char>,
    e: &Event<'a>,
    comment: &str,
    this_value: &[TOMLKey<'a>],
) -> (ok: bool)
    ensures
        ok == comment_text(env.cfg(), old(buf)@, e@, comment@, keys_view(this_value@)) is Some,
        ok ==> comment_text(env.cfg(), old(buf)@, e@, comment@, keys_view(this_value@)) == Some(final(buf)@),
{
    if e.at > env.src.len() {
        return false;
    }
    if rfind_char(&env.src, '#', e.at).is_none() {
        return false;
    }
    let kind = comment_kind_in(&env.src, e.at);
    let at_end = match kind {
        CommentPosition::AtEnd => true,
        _ => false,
    };
    let standalone = match kind {
        CommentPosition::Standalone => true,
        _ => false,
    };
    if !at_end {
        let n = buf.len();
        proof {
            lemma_rfind_bound(buf@, '\n', n as int);
        }
        let after_ok = match rfind_char(buf, '\n', n) {
            None => true,
            Some(p) => {
                proof {
                    let after = buf@.skip(p + 1);
                    assert(after_last_newline(buf@) == Some(after));
                    if p + 1 < n {
                        assert(after[0] == buf@[p + 1]);
                    }
                }
                !(p + 1 < n && (buf[p + 1] == '#' || buf[p + 1] == '['))
            },
        };
        let add_second = n > 0 && after_ok && this_value.len() == 0;
        if add_second {
            push_chars(buf, &env.nl);
        }
        if buf.len() > 0 {
            push_chars(buf, &env.nl);
        }
        push_rep(buf, &env.indent, e.context.value_keys.len());
        buf.push('#');
        buf.push(' ');
    } else {
        buf.push(' ');
        buf.push('#');
        buf.push(' ');
    }
    let ghost b = buf@;
    push_str(buf, comment);
    if standalone {
        push_chars(buf, &env.nl);
    }
    proof {
        if standalone {
            assert(buf@ =~= b + comment@ + env.nl@);
        } else {
            assert(buf@ =~= b + comment@ + Seq::<char>::empty());
        }
    }
    true
}

/// Writes a value that is not a comment.
fn push_value(buf: &mut Vec<char>, value: &RootTOMLValue<'_>)
    requires
        !(value@ is Comment),
    ensures
        final(buf)@ == old(buf)@ + value_text(value@),
{
    match value {
        RootTOMLValue::String(s) => {
            if s.is_literal() {
                buf.push('\'');
                push_str(buf, s.raw());
                buf.push('\'');
            } else {
                buf.push('"');
                let v = s.value();
                push_str(buf, v.as_str());
                buf.push('"');
            }
        },
        RootTOMLValue::Number(n) => {
            push_str(buf, n.raw());
        },
        RootTOMLValue::Boolean(b) => {
            if *b {
                buf.push('t');
                buf.push('r');
                buf.push('u');
                buf.push('e');
            } else {
                buf.push('f');
                buf.push('a');
                buf.push('l');
                buf.push('s');
                buf.push('e');
            }
        },
        RootTOMLValue::Comment(_) => {},
        RootTOMLValue::EmptyArray => {
            buf.push('[');
            buf.push(']');
        },
        RootTOMLValue::EmptyInlineTable => {
            buf.push('{');
            buf.push('}');
        },
    }
    assert(buf@ =~= old(buf)@ + value_text(value@));
}

/// The state of the second pass as its model.
spec fn state_model(buf: Seq<char>, last_keys: Seq<TOMLKey<'_>>, last_context: SpecContext) -> FmtState {
    FmtState { buf, last_keys: keys_view(last_keys), last_ctx: last_context }
}

/// Writes one value (or comment) after the ones before it; `false` where
/// the formatter does not handle it.
#[verifier::rlimit(40)]
fn format_value<'a>(
    env: &Env<'a>,
    buf: &mut Vec<char>,
    last_keys: &mut Vec<TOMLKey<'a>>,
    last_context: &mut TOMLKeyContext,
    e: &Event<'a>,
) -> (ok: bool)
    requires
        env.wf(),
    ensures
        ok == format_event(env.cfg(), state_model(old(buf)@, old(last_keys)@, old(last_context)@), e@) is Some,
        ok ==> format_event(env.cfg(), state_model(old(buf)@, old(last_keys)@, old(last_context)@), e@) == Some(state_model(final(buf)@, final(last_keys)@, final(last_context)@)),
{
    let ghost cfg = env.cfg();
    let ghost st = state_model(buf@, last_keys@, last_context@);
    let is_comment = match e.value {
        RootTOMLValue::Comment(_) => true,
        _ => false,
    };
    if last_context.table_keys as usize + last_context.specifier_keys as usize > last_keys.len() {
        return false;
    }
    if e.context.table_keys as usize + e.context.specifier_keys as usize > e.keys.len() {
        return false;
    }
    let (last_table, last_specifier, last_partition) = last_context.split_keys(last_keys.as_slice());
    let last_value = last_partition.raw();
    let (this_table, this_specifier, this_partition) = e.context.split_keys(e.keys.as_slice());
    let this_value = this_partition.raw();
    let ghost lt = keys_view(last_table@);
    let ghost ls = keys_view(last_specifier@);
    let ghost lv = keys_view(last_value@);
    let ghost tt = keys_view(this_table@);
    let ghost ts = keys_view(this_specifier@);
    let ghost tv = keys_view(this_value@);
    proof {
        let lk = keys_view(last_keys@);
        let t = last_context@.table_keys as int;
        let sp = last_context@.specifier_keys as int;
        assert(lt =~= lk.take(t));
        assert(ls =~= lk.subrange(t, t + sp));
        assert(lv =~= lk.skip(t + sp));
        let ek = e@.keys;
        let t2 = e@.ctx.table_keys as int;
        let s2 = e@.ctx.specifier_keys as int;
        assert(tt =~= ek.take(t2));
        assert(ts =~= ek.subrange(t2, t2 + s2));
        assert(tv =~= ek.skip(t2 + s2));
        assert(split_opt(st.last_ctx, st.last_keys) == Some((lt, ls, lv)));
        assert(split_opt(e@.ctx, e@.keys) == Some((tt, ts, tv)));
    }
    if is_comment && any_slice(this_value) {
        return true;
    }
    let same_table = crate::keymap::keys_eq(this_table, last_table);
    let same_specifier = same_table && crate::keymap::keys_eq(this_specifier, last_specifier);
    let same_value_root = same_table && same_specifier;
    let diff = if same_value_root {
        split_prefix_difference(last_value, this_value)
    } else {
        proof {
            assert(lv.skip(0) =~= lv);
            assert(tv.take(0) =~= Seq::<SpecKey>::empty());
            assert(tv.skip(0) =~= tv);
        }
        Difference { removed: last_value, same: &this_value[0..0], new: this_value }
    };
    let ghost c: int = if same_value_root {
        common_len(tv, lv)
    } else {
        0
    };
    proof {
        assert(keys_view(diff.removed@) =~= lv.skip(c));
        assert(keys_view(diff.same@) =~= tv.take(c));
        assert(keys_view(diff.new@) =~= tv.skip(c));
    }
    let mut removed = diff.removed;
    let same = diff.same;
    let mut new = diff.new;
    let mut incident: Option<TOMLKey<'a>> = None;
    let mut common: usize = 0;
    if removed.len() > 0 && new.len() > 0 && same_value_root {
        let is_incident = match (removed[0], new[0]) {
            (TOMLKey::Slice(_), TOMLKey::Slice(_)) => true,
            (TOMLKey::Index(prev), TOMLKey::Index(this)) => {
                if prev == usize::MAX {
                    return false;
                }
                prev + 1 == this
            },
            _ => false,
        };
        if is_incident {
            incident = Some(new[0]);
            removed = &removed[1..removed.len()];
            new = &new[1..new.len()];
            common = 1;
        }
    }
    proof {
        assert(keys_view(removed@) =~= if common == 1 { lv.skip(c).skip(1) } else { lv.skip(c) });
        assert(keys_view(new@) =~= if common == 1 { tv.skip(c).skip(1) } else { tv.skip(c) });
    }
    let ghost buf0 = buf@;
    if removed.len() > 0 || !e.context.in_value {
        if !push_removed(env, removed, common, last_keys.as_slice(), last_context, buf) {
            return false;
        }
    }
    let ghost buf1 = buf@;
    if same_value_root && last_value.len() > 0 && !is_comment {
        buf.push(',');
    }
    let ghost buf2 = buf@;
    match incident {
        Some(new_key) => {
            let chain = &e.keys.as_slice()[0..this_table.len() + this_specifier.len() + same.len()];
            proof {
                assert(keys_view(chain@) =~= e@.keys.take(tt.len() + ts.len() + c));
            }
            let pretty = env.findings.in_expanded_value(chain) && is_array_chain(this_value);
            match new_key {
                TOMLKey::Slice(k) => {
                    buf.push(' ');
                    push_str(buf, k);
                    buf.push(' ');
                    buf.push('=');
                    buf.push(' ');
                    proof {
                        assert(buf@ =~= buf2 + seq![' '] + k@ + seq![' ', '=', ' ']);
                    }
                },
                TOMLKey::Index(_) => {
                    if pretty && !is_comment {
                        push_chars(buf, &env.nl);
                        push_rep(buf, &env.indent, this_value.len() - new.len());
                        proof {
                            assert(buf@ =~= buf2 + cfg.nl + rep(cfg.indent, (tv.len() - keys_view(new@).len()) as nat));
                        }
                    }
                },
            }
        },
        None => {},
    }
    let ghost buf3 = buf@;
    if !same_table {
        push_table_header(env, buf, this_table);
    }
    let ghost buf4 = buf@;
    if !same_specifier {
        if !push_specifier(env, buf, e, this_specifier, is_comment) {
            return false;
        }
    }
    let ghost buf5 = buf@;
    push_new(env, buf, e.keys.as_slice(), this_table.len() + this_specifier.len(), this_value, new, common);
    let ghost buf6 = buf@;
    let n6 = buf.len();
    if !is_comment && !((n6 > 0 && is_whitespace(buf[n6 - 1])) || ends_with_char(buf, '[') || ends_with(buf, &env.indent)) {
        buf.push(' ');
    }
    let ghost buf7 = buf@;
    match e.value {
        RootTOMLValue::Comment(comment) => {
            if !push_comment(env, buf, e, comment, this_value) {
                return false;
            }
        },
        _ => {
            push_value(buf, &e.value);
        },
    }
    *last_keys = copy_keys(e.keys.as_slice());
    *last_context = e.context.duplicate();
    true
}

/// Formats `input`: the formatted text, or the syntax error the document
/// holds; `None` where the formatter reaches a point it does not handle.
pub fn try_format_toml(input: &str, options: &FormatOptions) -> (r: Option<Result<String, TOMLParseError>>)
    ensures
        match spec_format(input@, options@) {
            None => r is None,
            Some(Ok(text)) => r matches Some(Ok(s)) && s@ == text,
            Some(Err(e)) => r == Some(Err::<String, TOMLParseError>(e)),
        },
{
    let ghost full = run(SpecParser::init(input@, true, true), Seq::empty());
    let (events, result) = match collect_events(input, true, true) {
        Some(found) => found,
        None => {
            return None;
        },
    };
    let ghost evs = events_view(events@);
    proof {
        assert(evs == full.0);
        assert(full.1 == SpecOutcome::Done(result));
    }
    // First pass: what each value holds, and the widths of the keys.
    let mut counts: KeyMap<'_, u8> = KeyMap::new();
    let mut indentation = match options.indentation {
        KeyIndentation::WholeDocument => IndentationResult::WholeDocument(0),
        KeyIndentation::Section => IndentationResult::Section(KeyMap::new()),
        KeyIndentation::Unaligned => IndentationResult::Unaligned,
    };
    let mut i: usize = 0;
    while i < events.len()
        invariant
            i <= events@.len(),
            evs == events_view(events@),
            full == run(SpecParser::init(input@, true, true), Seq::empty()),
            evs == full.0,
            counts.wf(),
            indentation.wf(),
            pass1(evs, i as int, counts.view_map(), indentation.model()) == pass1(evs, 0, Map::empty(), initial_indentation(options.indentation)),
        decreases events@.len() - i,
    {
        let ghost c0 = counts.view_map();
        let ghost d0 = indentation.model();
        proof {
            assert(evs[i as int] == events@[i as int]@);
        }
        if !count_value(&mut counts, &events[i]) {
            proof {
                assert(pass1(evs, i as int, c0, d0) is None);
                assert(pass1(evs, 0, Map::empty(), initial_indentation(options.indentation)) is None);
                assert(spec_format(input@, options@) is None);
            }
            return None;
        }
        if !measure_value(&mut indentation, &events[i]) {
            return None;
        }
        proof {
            assert(pass1(evs, i as int, c0, d0) == pass1(evs, i + 1, counts.view_map(), indentation.model()));
        }
        i = i + 1;
    }
    match result {
        Err(e) => {
            return Some(Err(e));
        },
        Ok(_) => {},
    }
    // Second pass: write each value.
    let env = Env {
        src: str_to_chars(input),
        indent: str_to_chars(options.value_indentation.0),
        nl: if options.use_crlf {
            vec!['\r', '\n']
        } else {
            vec!['\n']
        },
        prefix_indent_keys: options.prefix_indent_keys,
        findings: ValueFindings(counts),
        indentation,
    };
    proof {
        assert(env.nl@ =~= newline(options.use_crlf));
    }
    let ghost cfg = env.cfg();
    let mut buf: Vec<char> = Vec::new();
    let mut last_keys: Vec<TOMLKey<'_>> = Vec::new();
    let mut last_context = TOMLKeyContext::default();
    proof {
        assert(keys_view(last_keys@) =~= Seq::<SpecKey>::empty());
        assert(last_context@ =~= SpecContext::empty());
    }
    let mut j: usize = 0;
    while j < events.len()
        invariant
            j <= events@.len(),
            evs == events_view(events@),
            full == run(SpecParser::init(input@, true, true), Seq::empty()),
            evs == full.0,
            full.1 == SpecOutcome::Done(result),
            result is Ok,
            pass1(evs, 0, Map::empty(), initial_indentation(options.indentation)) == Some((cfg.counts, cfg.indentation)),
            env.wf(),
            cfg == env.cfg(),
            cfg.input == input@,
            cfg.indent == options@.indent,
            cfg.nl == newline(options@.use_crlf),
            cfg.prefix_indent_keys == options@.prefix_indent_keys,
            format_from(cfg, evs, j as int, state_model(buf@, last_keys@, last_context@)) == format_from(cfg, evs, 0, FmtState { buf: Seq::empty(), last_keys: Seq::empty(), last_ctx: SpecContext::empty() }),
        decreases events@.len() - j,
    {
        let ghost st = state_model(buf@, last_keys@, last_context@);
        proof {
            assert(evs[j as int] == events@[j as int]@);
        }
        if !format_value(&env, &mut buf, &mut last_keys, &mut last_context, &events[j]) {
            proof {
                assert(format_from(cfg, evs, j as int, st) is None);
                let st0 = FmtState { buf: Seq::empty(), last_keys: Seq::empty(), last_ctx: SpecContext::empty() };
                assert(format_from(cfg, evs, 0, st0) is None);
                assert(spec_format(input@, options@) is None);
            }
            return None;
        }
        proof {
            assert(format_from(cfg, evs, j as int, st) == format_from(cfg, evs, j + 1, state_model(buf@, last_keys@, last_context@)));
        }
        j = j + 1;
    }
    proof {
        let stf = state_model(buf@, last_keys@, last_context@);
        assert(format_from(cfg, evs, j as int, stf) == Some(stf));
    }
    // Close what is still open and end with a newline.
    if last_context.table_keys as usize + last_context.specifier_keys as usize > last_keys.len() {
        proof {
            let stf = state_model(buf@, last_keys@, last_context@);
            assert(split_opt(stf.last_ctx, stf.last_keys) is None);
            assert(finish_text(cfg, stf) is None);
            assert(spec_format(input@, options@) is None);
        }
        return None;
    }
    let (_last_table, _last_specifier, last_partition) = last_context.split_keys(last_keys.as_slice());
    let last_value = last_partition.raw();
    let diff = split_prefix_difference(last_value, &last_value[0..0]);
    proof {
        let lk = keys_view(last_keys@);
        let t = last_context@.table_keys as int;
        let sp = last_context@.specifier_keys as int;
        assert(keys_view(last_value@) =~= lk.skip(t + sp));
        assert(keys_view(diff.removed@) =~= keys_view(last_value@));
    }
    if !push_removed(&env, diff.removed, 0, last_keys.as_slice(), &last_context, &mut buf) {
        return None;
    }
    if !ends_with_char(&buf, '\n') {
        push_chars(&mut buf, &env.nl);
    }
    Some(Ok(chars_to_string(&buf)))
}

/// Formats `input`: the formatted text, or the syntax error the document
/// holds.
pub fn format_toml(input: &str, options: &FormatOptions) -> (r: Result<String, TOMLParseError>)
    requires
        spec_format(input@, options@) is Some,
    ensures
        match spec_format(input@, options@) {
            Some(Ok(text)) => r matches Ok(s) && s@ == text,
            Some(Err(e)) => r == Err::<String, TOMLParseError>(e),
            None => false,
        },
{
    match try_format_toml(input, options) {
        Some(r) => r,
        None => {
            proof {
                assert(false);
            }
            Ok(String::new())
        },
    }
}

} // verus!
