//! What the formatter writes, stated over the values the lexer hands out.
//!
//! `None` marks the inputs on which the formatter reaches a point it does
//! not handle.
use vstd::prelude::*;

use crate::machine::{document_result, run, SpecEvent, SpecOutcome, SpecParser};
use crate::text::{byte_len, char_is_alphanumeric, char_is_whitespace};
use crate::utilities::{rfind, spec_comment_kind, spec_split, spec_unescape, CommentPosition};
use crate::formatting::KeyIndentation;
use crate::{
    answered_by, law_callback_never_stopping, RootTOMLValue, SpecContext, SpecKey, SpecValue, TOMLKey,
    TOMLKeyContext, TOMLParseError,
};

verus! {

/// The model of the formatting options.
pub struct SpecFormatOptions {
    pub indentation: KeyIndentation,
    pub prefix_indent_keys: bool,
    pub indent: Seq<char>,
    pub use_crlf: bool,
}

/// The widths found for aligning keys.
pub enum SpecIndentation {
    WholeDocument(nat),
    Section(Map<Seq<SpecKey>, usize>),
    Unaligned,
}

/// What the second pass works with.
pub struct FmtConfig {
    pub input: Seq<char>,
    pub indent: Seq<char>,
    pub nl: Seq<char>,
    pub prefix_indent_keys: bool,
    pub counts: Map<Seq<SpecKey>, u8>,
    pub indentation: SpecIndentation,
}

/// The output so far, and the keys and context of the last value written.
pub struct FmtState {
    pub buf: Seq<char>,
    pub last_keys: Seq<SpecKey>,
    pub last_ctx: SpecContext,
}

/// The count found for `k`; 0 where none was.
pub open spec fn count_of(counts: Map<Seq<SpecKey>, u8>, k: Seq<SpecKey>) -> u8 {
    if counts.dom().contains(k) {
        counts[k]
    } else {
        0
    }
}

/// Whether the value at `chain` holds enough to be written over several lines.
pub open spec fn in_expanded(counts: Map<Seq<SpecKey>, u8>, chain: Seq<SpecKey>) -> bool {
    count_of(counts, chain) >= 3
}

/// `a + b`, saturating at 255.
pub open spec fn sat_add(a: u8, b: u8) -> u8 {
    if a + b > 255 {
        255
    } else {
        (a + b) as u8
    }
}

/// Adds 3 to the counts of the chains `keys[..len - 1 - i]` for `i` in `from..to`.
pub open spec fn parents_loop(counts: Map<Seq<SpecKey>, u8>, keys: Seq<SpecKey>, from: int, to: int) -> Map<Seq<SpecKey>, u8>
    decreases to - from,
{
    if from >= to {
        counts
    } else {
        let k = keys.take(keys.len() - 1 - from);
        parents_loop(counts.insert(k, sat_add(count_of(counts, k), 3)), keys, from + 1, to)
    }
}

/// How one value changes the counts of what the values at each chain hold.
pub open spec fn count_event(counts: Map<Seq<SpecKey>, u8>, e: SpecEvent) -> Option<Map<Seq<SpecKey>, u8>> {
    if !e.ctx.in_value {
        Some(counts)
    } else {
        let tsl = e.ctx.table_keys + e.ctx.specifier_keys;
        if tsl > 255 || tsl > e.keys.len() {
            None
        } else if e.value is Comment {
            let k = if e.keys.len() > 0 {
                e.keys.take(e.keys.len() - 1)
            } else {
                e.keys
            };
            let cur = count_of(counts, k);
            if cur + 3 > 255 {
                None
            } else {
                Some(counts.insert(k, (cur + 3) as u8))
            }
        } else if e.keys.len() == 0 {
            None
        } else {
            let head = e.keys.take(e.keys.len() - 1);
            let c1 = counts.insert(head, sat_add(count_of(counts, head), 1));
            Some(parents_loop(c1, e.keys, 1, e.keys.len() - tsl))
        }
    }
}

/// The width of the keys `ks`: their byte lengths with one between each two.
pub open spec fn key_len_from(ks: Seq<SpecKey>, i: int, acc: nat) -> nat
    decreases ks.len() - i,
{
    if i >= ks.len() {
        acc
    } else {
        let a1: nat = if acc != 0 {
            acc + 1
        } else {
            acc
        };
        let a2: nat = match ks[i] {
            SpecKey::Slice(k) => a1 + byte_len(k),
            SpecKey::Index(_) => a1,
        };
        key_len_from(ks, i + 1, a2)
    }
}

pub open spec fn key_len(ks: Seq<SpecKey>) -> nat {
    key_len_from(ks, 0, 0)
}

/// How one value changes the widths found for aligning keys.
pub open spec fn indent_event(ind: SpecIndentation, e: SpecEvent) -> Option<SpecIndentation> {
    match ind {
        SpecIndentation::Unaligned => Some(SpecIndentation::Unaligned),
        _ => {
            let t = e.ctx.table_keys as int;
            let s = e.ctx.specifier_keys as int;
            if t + s > e.keys.len() {
                None
            } else {
                let len = key_len(e.keys.subrange(t, t + s));
                if len > usize::MAX {
                    None
                } else {
                    match ind {
                        SpecIndentation::WholeDocument(w) => Some(
                            SpecIndentation::WholeDocument(if len > w {
                                len
                            } else {
                                w
                            }),
                        ),
                        SpecIndentation::Section(m) => {
                            let prefix = e.keys.take(t);
                            Some(
                                SpecIndentation::Section(
                                    if m.dom().contains(prefix) {
                                        m.insert(
                                            prefix,
                                            if len > m[prefix] {
                                                len as usize
                                            } else {
                                                m[prefix]
                                            },
                                        )
                                    } else {
                                        m.insert(prefix, len as usize)
                                    },
                                ),
                            )
                        },
                        SpecIndentation::Unaligned => Some(SpecIndentation::Unaligned),
                    }
                }
            }
        },
    }
}

/// The first pass over the values from index `i` on.
pub open spec fn pass1(evs: Seq<SpecEvent>, i: int, counts: Map<Seq<SpecKey>, u8>, ind: SpecIndentation) -> Option<(Map<Seq<SpecKey>, u8>, SpecIndentation)>
    decreases evs.len() - i,
{
    if i >= evs.len() {
        Some((counts, ind))
    } else {
        match count_event(counts, evs[i]) {
            None => None,
            Some(c) => match indent_event(ind, evs[i]) {
                None => None,
                Some(d) => pass1(evs, i + 1, c, d),
            },
        }
    }
}

/// The table, specifier and value keys of `keys`; `None` where `ctx` counts
/// more keys than there are.
pub open spec fn split_opt(ctx: SpecContext, keys: Seq<SpecKey>) -> Option<(Seq<SpecKey>, Seq<SpecKey>, Seq<SpecKey>)> {
    if ctx.table_keys + ctx.specifier_keys <= keys.len() {
        Some(spec_split(ctx, keys))
    } else {
        None
    }
}

/// The first index from `i` on where `a` and `b` differ or one of them ends.
pub open spec fn common_from(a: Seq<SpecKey>, b: Seq<SpecKey>, i: int) -> int
    decreases a.len() - i,
{
    if 0 <= i < a.len() && i < b.len() && a[i] == b[i] {
        common_from(a, b, i + 1)
    } else {
        i
    }
}

/// Length of the longest common prefix of `a` and `b`.
pub open spec fn common_len(a: Seq<SpecKey>, b: Seq<SpecKey>) -> int {
    common_from(a, b, 0)
}

/// A key of letters, digits, `-` and `_` is written bare.
pub open spec fn is_bare_key(k: Seq<char>) -> bool {
    forall|i: int| 0 <= i < k.len() ==> char_is_alphanumeric(#[trigger] k[i]) || k[i] == '-' || k[i] == '_'
}

/// How a name is written: bare, or in single quotes.
pub open spec fn wrap(k: Seq<char>) -> Seq<char> {
    if is_bare_key(k) {
        k
    } else {
        seq!['\''] + k + seq!['\'']
    }
}

/// How one key of a dotted chain is written: a name (after a dot unless it
/// comes first), or nothing for an index.
pub open spec fn key_piece(k: SpecKey, first: bool) -> Seq<char> {
    match k {
        SpecKey::Slice(name) => if first {
            wrap(name)
        } else {
            seq!['.'] + wrap(name)
        },
        SpecKey::Index(_) => Seq::empty(),
    }
}

/// The first `n` keys of `ks` joined by dots; indices are left out.
pub open spec fn joined(ks: Seq<SpecKey>, n: int) -> Seq<char>
    decreases n,
{
    if n <= 0 {
        Seq::empty()
    } else {
        joined(ks, n - 1) + key_piece(ks[n - 1], n == 1)
    }
}

/// The keys joined by dots; indices are left out.
pub open spec fn header_keys(ks: Seq<SpecKey>) -> Seq<char> {
    joined(ks, ks.len() as int)
}

/// Whether one of the keys is an index.
pub open spec fn has_index(ks: Seq<SpecKey>) -> bool {
    exists|i: int| 0 <= i < ks.len() && ks[i] is Index
}

/// Whether one of the keys is a name.
pub open spec fn has_slice(ks: Seq<SpecKey>) -> bool {
    exists|i: int| 0 <= i < ks.len() && ks[i] is Slice
}

/// Every key but the last is an index.
pub open spec fn spec_is_array_chain(v: Seq<SpecKey>) -> bool {
    forall|i: int| 0 <= i < v.len() - 1 ==> #[trigger] v[i] is Index
}

/// `n` copies of `s`.
pub open spec fn rep(s: Seq<char>, n: nat) -> Seq<char>
    decreases n,
{
    if n == 0 {
        Seq::empty()
    } else {
        rep(s, (n - 1) as nat) + s
    }
}

/// Whether `buf` ends with `x`.
pub open spec fn ends_with(buf: Seq<char>, x: Seq<char>) -> bool {
    buf.len() >= x.len() && buf.skip(buf.len() - x.len()) == x
}

/// The text after the last newline of `buf`, if it has one.
pub open spec fn after_last_newline(buf: Seq<char>) -> Option<Seq<char>> {
    match rfind(buf, '\n', buf.len() as int) {
        Some(p) => Some(buf.skip(p + 1)),
        None => None,
    }
}

/// Whether the text after the last newline of `buf` starts with `#`.
pub open spec fn spec_last_line_is_comment(buf: Seq<char>) -> bool {
    match after_last_newline(buf) {
        Some(after) => after.len() > 0 && after[0] == '#',
        None => false,
    }
}

/// Closes the removed key `removed[k - 1]`: ` }` for a table, `]` for an
/// array, on a line of its own when the array is written over several lines.
pub open spec fn removed_step(
    cfg: FmtConfig,
    buf: Seq<char>,
    removed: Seq<SpecKey>,
    common: int,
    last_keys: Seq<SpecKey>,
    last_ctx: SpecContext,
    k: int,
) -> Seq<char> {
    let level = (k - 1) + common;
    let tsl = last_ctx.table_keys + last_ctx.specifier_keys;
    let pretty = in_expanded(cfg.counts, last_keys.take(tsl + level)) && spec_is_array_chain(
        last_keys.skip(tsl),
    );
    match removed[k - 1] {
        SpecKey::Slice(_) => buf + seq![' ', '}'],
        SpecKey::Index(_) => (if pretty {
            buf + cfg.nl + rep(cfg.indent, level as nat)
        } else {
            buf
        }).push(']'),
    }
}

/// Closes the removed keys `removed[..k]`, last first.
pub open spec fn removed_loop(
    cfg: FmtConfig,
    buf: Seq<char>,
    removed: Seq<SpecKey>,
    common: int,
    last_keys: Seq<SpecKey>,
    last_ctx: SpecContext,
    k: int,
) -> Option<Seq<char>>
    decreases k,
{
    if k <= 0 {
        Some(buf)
    } else if last_ctx.table_keys + last_ctx.specifier_keys + (k - 1) + common > last_keys.len() {
        None
    } else {
        removed_loop(
            cfg,
            removed_step(cfg, buf, removed, common, last_keys, last_ctx, k),
            removed,
            common,
            last_keys,
            last_ctx,
            k - 1,
        )
    }
}

/// Opens the new key `new[k]`.
pub open spec fn new_loop_step(
    cfg: FmtConfig,
    buf: Seq<char>,
    keys: Seq<SpecKey>,
    base: int,
    this_value: Seq<SpecKey>,
    new: Seq<SpecKey>,
    common: int,
    k: int,
) -> Seq<char> {
    let level = k + common;
    let pretty = in_expanded(cfg.counts, keys.take(base + level)) && spec_is_array_chain(this_value);
    match new[k] {
        SpecKey::Slice(key) => buf + seq!['{', ' '] + wrap(key) + seq![' ', '=', ' '],
        SpecKey::Index(_) => {
            let b1 = if !(ends_with(buf, seq![',']) || ends_with(buf, seq!['['])
                || ends_with(buf, seq!['=', ' ']) || ends_with(buf, cfg.indent)) {
                if pretty {
                    buf + cfg.nl + rep(
                        cfg.indent,
                        if this_value.len() > 0 {
                            (this_value.len() - 1) as nat
                        } else {
                            0
                        },
                    )
                } else {
                    buf.push(' ')
                }
            } else {
                buf
            };
            let b2 = b1.push('[');
            if pretty {
                b2 + cfg.nl + rep(cfg.indent, (level + 1) as nat)
            } else {
                b2
            }
        },
    }
}

/// Opens the new keys `new[k..]`.
pub open spec fn new_loop(
    cfg: FmtConfig,
    buf: Seq<char>,
    keys: Seq<SpecKey>,
    base: int,
    this_value: Seq<SpecKey>,
    new: Seq<SpecKey>,
    common: int,
    k: int,
) -> Seq<char>
    decreases new.len() - k,
{
    if k >= new.len() {
        buf
    } else {
        new_loop(cfg, new_loop_step(cfg, buf, keys, base, this_value, new, common, k), keys, base, this_value, new, common, k + 1)
    }
}

/// The text of a value that is not a comment.
pub open spec fn value_text(v: SpecValue) -> Seq<char> {
    match v {
        SpecValue::String(s, literal) => if literal {
            seq!['\''] + s + seq!['\'']
        } else {
            seq!['"'] + spec_unescape(s) + seq!['"']
        },
        SpecValue::Number(n) => n,
        SpecValue::Boolean(b) => if b {
            seq!['t', 'r', 'u', 'e']
        } else {
            seq!['f', 'a', 'l', 's', 'e']
        },
        SpecValue::EmptyArray => seq!['[', ']'],
        SpecValue::EmptyInlineTable => seq!['{', '}'],
        SpecValue::Comment(_) => Seq::empty(),
    }
}

/// The padding after the specifier keys, which took `width` bytes.
pub open spec fn key_padding(cfg: FmtConfig, keys: Seq<SpecKey>, ctx: SpecContext, width: nat) -> Option<Seq<char>> {
    match cfg.indentation {
        SpecIndentation::WholeDocument(w) => if width > w || w > 20 {
            None
        } else {
            Some(rep(seq![' '], (w - width) as nat))
        },
        SpecIndentation::Section(m) => {
            let prefix = keys.take(ctx.table_keys as int);
            if !m.dom().contains(prefix) {
                None
            } else {
                let w = m[prefix] as nat;
                if width > w || w > 20 {
                    None
                } else {
                    Some(rep(seq![' '], (w - width) as nat))
                }
            }
        },
        SpecIndentation::Unaligned => Some(Seq::empty()),
    }
}

/// Writes a comment.
pub open spec fn comment_text(cfg: FmtConfig, buf: Seq<char>, e: SpecEvent, c: Seq<char>, this_value: Seq<SpecKey>) -> Option<Seq<char>> {
    if e.at > cfg.input.len() || rfind(cfg.input, '#', e.at as int) is None {
        None
    } else {
        let kind = spec_comment_kind(cfg.input, e.at as int);
        let b = if kind != CommentPosition::AtEnd {
            let add_second = buf.len() > 0 && (match after_last_newline(buf) {
                None => true,
                Some(after) => !(after.len() > 0 && (after[0] == '#' || after[0] == '[')),
            }) && this_value.len() == 0;
            let b0 = if add_second {
                buf + cfg.nl
            } else {
                buf
            };
            (if b0.len() > 0 {
                b0 + cfg.nl
            } else {
                b0
            }) + rep(cfg.indent, e.ctx.value_keys.len()) + seq!['#', ' ']
        } else {
            buf + seq![' ', '#', ' ']
        };
        Some(b + c + (if kind == CommentPosition::Standalone {
            cfg.nl
        } else {
            Seq::empty()
        }))
    }
}

/// The table header of a value in a new table.
pub open spec fn table_header(cfg: FmtConfig, buf: Seq<char>, this_table: Seq<SpecKey>) -> Seq<char> {
    let is_start = buf.len() == 0;
    let b1 = if !(is_start || ends_with(buf, seq!['\n'])) {
        buf + cfg.nl
    } else {
        buf
    };
    let b2 = if !(is_start || spec_last_line_is_comment(b1)) {
        b1 + cfg.nl
    } else {
        b1
    };
    let is_table = has_index(this_table);
    b2 + (if is_table {
        seq!['[', '[']
    } else {
        seq!['[']
    }) + header_keys(this_table) + (if is_table {
        seq![']', ']']
    } else {
        seq![']']
    })
}

/// The specifier keys of a value under new keys.
pub open spec fn specifier_part(cfg: FmtConfig, buf: Seq<char>, e: SpecEvent, this_specifier: Seq<SpecKey>, is_comment: bool) -> Option<Seq<char>> {
    let b1 = if !is_comment {
        (if buf.len() > 0 {
            buf + cfg.nl
        } else {
            buf
        }) + (if cfg.prefix_indent_keys {
            cfg.indent
        } else {
            Seq::empty()
        })
    } else {
        buf
    };
    if has_index(this_specifier) {
        None
    } else {
        let text = header_keys(this_specifier);
        match key_padding(cfg, e.keys, e.ctx, byte_len(text)) {
            None => None,
            Some(pad) => Some(b1 + text + pad + (if !is_comment {
                seq![' ', '=', ' ']
            } else {
                Seq::empty()
            })),
        }
    }
}

/// Writes one value (or comment).
pub open spec fn format_event(cfg: FmtConfig, st: FmtState, e: SpecEvent) -> Option<FmtState> {
    let is_comment = e.value is Comment;
    match (split_opt(st.last_ctx, st.last_keys), split_opt(e.ctx, e.keys)) {
        (Some((lt, ls, lv)), Some((tt, ts, tv))) => {
            if is_comment && has_slice(tv) {
                Some(st)
            } else {
                let same_table = tt == lt;
                let same_spec = same_table && ts == ls;
                let svr = same_table && same_spec;
                let c = if svr {
                    common_len(tv, lv)
                } else {
                    0
                };
                let removed0 = lv.skip(c);
                let same = tv.take(c);
                let new0 = tv.skip(c);
                let both = removed0.len() > 0 && new0.len() > 0 && svr;
                let overflow = both && (match (removed0[0], new0[0]) {
                    (SpecKey::Index(p), SpecKey::Index(_)) => p == usize::MAX,
                    _ => false,
                });
                let incident = both && (match (removed0[0], new0[0]) {
                    (SpecKey::Slice(_), SpecKey::Slice(_)) => true,
                    (SpecKey::Index(p), SpecKey::Index(q)) => p + 1 == q,
                    _ => false,
                });
                if overflow {
                    None
                } else {
                    let removed = if incident {
                        removed0.skip(1)
                    } else {
                        removed0
                    };
                    let new = if incident {
                        new0.skip(1)
                    } else {
                        new0
                    };
                    let common: int = if incident {
                        1
                    } else {
                        0
                    };
                    let r1 = if removed.len() > 0 || !e.ctx.in_value {
                        removed_loop(cfg, st.buf, removed, common, st.last_keys, st.last_ctx, removed.len() as int)
                    } else {
                        Some(st.buf)
                    };
                    match r1 {
                        None => None,
                        Some(buf1) => {
                            let buf2 = if svr && lv.len() > 0 && !is_comment {
                                buf1.push(',')
                            } else {
                                buf1
                            };
                            let buf3 = if incident {
                                let pretty = in_expanded(cfg.counts, e.keys.take((tt.len() + ts.len() + same.len()) as int))
                                    && spec_is_array_chain(tv);
                                match new0[0] {
                                    SpecKey::Slice(name) => buf2 + seq![' '] + name + seq![' ', '=', ' '],
                                    SpecKey::Index(_) => if pretty && !is_comment {
                                        buf2 + cfg.nl + rep(cfg.indent, (tv.len() - new.len()) as nat)
                                    } else {
                                        buf2
                                    },
                                }
                            } else {
                                buf2
                            };
                            let buf4 = if !same_table {
                                table_header(cfg, buf3, tt)
                            } else {
                                buf3
                            };
                            let r5 = if !same_spec {
                                specifier_part(cfg, buf4, e, ts, is_comment)
                            } else {
                                Some(buf4)
                            };
                            match r5 {
                                None => None,
                                Some(buf5) => {
                                    let buf6 = new_loop(cfg, buf5, e.keys, (tt.len() + ts.len()) as int, tv, new, common, 0);
                                    let buf7 = if !is_comment && !((buf6.len() > 0 && char_is_whitespace(buf6.last()))
                                        || ends_with(buf6, seq!['[']) || ends_with(buf6, cfg.indent)) {
                                        buf6.push(' ')
                                    } else {
                                        buf6
                                    };
                                    let r8 = match e.value {
                                        SpecValue::Comment(c) => comment_text(cfg, buf7, e, c, tv),
                                        _ => Some(buf7 + value_text(e.value)),
                                    };
                                    match r8 {
                                        None => None,
                                        Some(buf8) => Some(FmtState { buf: buf8, last_keys: e.keys, last_ctx: e.ctx }),
                                    }
                                },
                            }
                        },
                    }
                }
            }
        },
        _ => None,
    }
}

/// Writes the values from index `i` on.
pub open spec fn format_from(cfg: FmtConfig, evs: Seq<SpecEvent>, i: int, st: FmtState) -> Option<FmtState>
    decreases evs.len() - i,
{
    if i >= evs.len() {
        Some(st)
    } else {
        match format_event(cfg, st, evs[i]) {
            None => None,
            Some(st2) => format_from(cfg, evs, i + 1, st2),
        }
    }
}

/// Closes what is still open after the last value, and ends the text with a newline.
pub open spec fn finish_text(cfg: FmtConfig, st: FmtState) -> Option<Seq<char>> {
    match split_opt(st.last_ctx, st.last_keys) {
        None => None,
        Some((_, _, lv)) => match removed_loop(cfg, st.buf, lv, 0, st.last_keys, st.last_ctx, lv.len() as int) {
            None => None,
            Some(buf) => Some(if ends_with(buf, seq!['\n']) {
                buf
            } else {
                buf + cfg.nl
            }),
        },
    }
}

/// The widths before the first pass has seen any value.
pub open spec fn initial_indentation(k: KeyIndentation) -> SpecIndentation {
    match k {
        KeyIndentation::WholeDocument => SpecIndentation::WholeDocument(0),
        KeyIndentation::Section => SpecIndentation::Section(Map::empty()),
        KeyIndentation::Unaligned => SpecIndentation::Unaligned,
    }
}

/// The line break the formatter writes.
pub open spec fn newline(use_crlf: bool) -> Seq<char> {
    if use_crlf {
        seq!['\r', '\n']
    } else {
        seq!['\n']
    }
}

/// What formatting `input` gives: the formatted text or the syntax error,
/// or `None` where the formatter reaches a point it does not handle.
pub open spec fn spec_format(input: Seq<char>, o: SpecFormatOptions) -> Option<Result<Seq<char>, TOMLParseError>> {
    let (evs, out) = run(SpecParser::init(input, true, true), Seq::empty());
    match pass1(evs, 0, Map::empty(), initial_indentation(o.indentation)) {
        None => None,
        Some((counts, ind)) => match out {
            SpecOutcome::Faulted => None,
            SpecOutcome::Done(Err(e)) => Some(Err(e)),
            SpecOutcome::Done(Ok(_)) => {
                let cfg = FmtConfig {
                    input,
                    indent: o.indent,
                    nl: newline(o.use_crlf),
                    prefix_indent_keys: o.prefix_indent_keys,
                    counts,
                    indentation: ind,
                };
                let st0 = FmtState { buf: Seq::empty(), last_keys: Seq::empty(), last_ctx: SpecContext::empty() };
                match format_from(cfg, evs, 0, st0) {
                    None => None,
                    Some(st) => match finish_text(cfg, st) {
                        None => None,
                        Some(text) => Some(Ok(text)),
                    },
                }
            },
        },
    }
}

/// A formatted document always ends with a line break.
pub proof fn law_format_ends_with_newline(input: Seq<char>, o: SpecFormatOptions)
    requires
        spec_format(input, o) matches Some(Ok(_)),
    ensures
        spec_format(input, o) matches Some(Ok(text)) && text.len() > 0 && text.last() == '\n',
{
    let (evs, out) = run(SpecParser::init(input, true, true), Seq::empty());
    let (counts, ind) = pass1(evs, 0, Map::empty(), initial_indentation(o.indentation)).unwrap();
    let cfg = FmtConfig {
        input,
        indent: o.indent,
        nl: newline(o.use_crlf),
        prefix_indent_keys: o.prefix_indent_keys,
        counts,
        indentation: ind,
    };
    let st0 = FmtState { buf: Seq::empty(), last_keys: Seq::empty(), last_ctx: SpecContext::empty() };
    let st = format_from(cfg, evs, 0, st0).unwrap();
    let (_, _, lv) = split_opt(st.last_ctx, st.last_keys).unwrap();
    let buf = removed_loop(cfg, st.buf, lv, 0, st.last_keys, st.last_ctx, lv.len() as int).unwrap();
    if ends_with(buf, seq!['\n']) {
        assert(buf.skip(buf.len() - 1)[0] == buf.last());
    } else {
        assert((buf + cfg.nl).last() == cfg.nl.last());
    }
}

/// Formatting fails with exactly the syntax error that parsing the document
/// (handing out comments and stopping nowhere) fails with, and succeeds
/// exactly where that parse succeeds.
pub proof fn law_format_error_is_parse_error(input: Seq<char>, o: SpecFormatOptions)
    requires
        spec_format(input, o) is Some,
    ensures
        spec_format(input, o) matches Some(Err(e)) ==> document_result(
            run(SpecParser::init(input, true, true), Seq::empty()).1,
        ) == Err::<(), TOMLParseError>(e),
        spec_format(input, o) matches Some(Ok(_)) ==> document_result(
            run(SpecParser::init(input, true, true), Seq::empty()).1,
        ) is Ok,
{
}

/// Formatting fails with exactly the error that `parse_toml_with_options`
/// reports, with comments handed out, to a callback that never answers
/// `true`, and succeeds exactly where that parse succeeds.
pub proof fn law_format_error_is_callback_parse_error<'a, F>(input: Seq<char>, o: SpecFormatOptions, answers: Seq<bool>)
    where
        F: FnMut(&[TOMLKey<'a>], &TOMLKeyContext, RootTOMLValue<'a>) -> bool,
    requires
        input.len() <= usize::MAX,
        spec_format(input, o) is Some,
        forall|f: F, k: &[TOMLKey<'a>], c: &TOMLKeyContext, v: RootTOMLValue<'a>, a: bool|
            #[trigger] call_ensures(f, (k, c, v), a) ==> !a,
        answered_by::<'a, F>(run(SpecParser::init(input, true, true), answers).0, answers),
    ensures
        spec_format(input, o) matches Some(Err(e)) ==> document_result(
            run(SpecParser::init(input, true, true), answers).1,
        ) == Err::<(), TOMLParseError>(e),
        spec_format(input, o) matches Some(Ok(_)) ==> document_result(
            run(SpecParser::init(input, true, true), answers).1,
        ) is Ok,
{
    law_callback_never_stopping::<'a, F>(input, true, true, answers);
    law_format_error_is_parse_error(input, o);
}

/// Whether the first pass over the values of `input` stays within the
/// formatter's counters (at most 255 entries under one key, widths that fit
/// in `usize`).
pub open spec fn first_pass_fits(input: Seq<char>, o: SpecFormatOptions) -> bool {
    pass1(run(SpecParser::init(input, true, true), Seq::empty()).0, 0, Map::empty(), initial_indentation(o.indentation)) is Some
}

/// Where parsing the document (handing out comments, stopping nowhere) ends
/// in a syntax error, formatting it gives that same error, whatever the
/// values before it, as long as its first pass fits the counters.
pub proof fn law_parse_error_is_format_error(input: Seq<char>, o: SpecFormatOptions, e: TOMLParseError)
    requires
        run(SpecParser::init(input, true, true), Seq::empty()).1 == SpecOutcome::Done(Err(e)),
        first_pass_fits(input, o),
    ensures
        spec_format(input, o) == Some(Err::<Seq<char>, TOMLParseError>(e)),
{
}

/// Whether `piece` stands in `text` at `pos`.
pub open spec fn occurs_at(text: Seq<char>, pos: int, piece: Seq<char>) -> bool {
    0 <= pos && pos + piece.len() <= text.len() && text.subrange(pos, pos + piece.len()) == piece
}

/// Whether `pos` places the text of each value of `evs` (comments aside) in
/// `text`, each after the one before.
pub open spec fn values_in_order(text: Seq<char>, evs: Seq<SpecEvent>, pos: Seq<int>) -> bool {
    &&& pos.len() == evs.len()
    &&& forall|k: int|
        0 <= k < evs.len() && !(evs[k].value is Comment) ==> occurs_at(text, #[trigger] pos[k], value_text(evs[k].value))
    &&& forall|k1: int, k2: int|
        0 <= k1 < k2 < evs.len() && !(evs[k1].value is Comment) && !(evs[k2].value is Comment) ==> #[trigger] pos[k1]
            + value_text(evs[k1].value).len() <= #[trigger] pos[k2]
}

proof fn lemma_prefix_append(a: Seq<char>, b: Seq<char>)
    ensures
        a.is_prefix_of(a + b),
{
    assert(a =~= (a + b).subrange(0, a.len() as int));
}

proof fn lemma_prefix_trans(a: Seq<char>, b: Seq<char>, c: Seq<char>)
    requires
        a.is_prefix_of(b),
        b.is_prefix_of(c),
    ensures
        a.is_prefix_of(c),
{
    assert forall|i: int| 0 <= i < a.len() implies a[i] == c[i] by {
        assert(a[i] == b.subrange(0, a.len() as int)[i]);
        assert(b[i] == c.subrange(0, b.len() as int)[i]);
    }
    assert(a =~= c.subrange(0, a.len() as int));
}

proof fn lemma_removed_loop_grows(
    cfg: FmtConfig,
    buf: Seq<char>,
    removed: Seq<SpecKey>,
    common: int,
    last_keys: Seq<SpecKey>,
    last_ctx: SpecContext,
    k: int,
)
    requires
        removed_loop(cfg, buf, removed, common, last_keys, last_ctx, k) is Some,
    ensures
        buf.is_prefix_of(removed_loop(cfg, buf, removed, common, last_keys, last_ctx, k).unwrap()),
    decreases k,
{
    if k <= 0 {
        lemma_prefix_append(buf, Seq::empty());
        assert(buf + Seq::<char>::empty() =~= buf);
    } else {
        let b2 = removed_step(cfg, buf, removed, common, last_keys, last_ctx, k);
        let level = (k - 1) + common;
        match removed[k - 1] {
            SpecKey::Slice(_) => lemma_prefix_append(buf, seq![' ', '}']),
            SpecKey::Index(_) => {
                let b1 = if in_expanded(
                    cfg.counts,
                    last_keys.take(last_ctx.table_keys + last_ctx.specifier_keys + level),
                ) && spec_is_array_chain(last_keys.skip(last_ctx.table_keys + last_ctx.specifier_keys)) {
                    buf + cfg.nl + rep(cfg.indent, level as nat)
                } else {
                    buf
                };
                assert(b1 =~= buf + b1.skip(buf.len() as int));
                lemma_prefix_append(buf, b1.skip(buf.len() as int));
                assert(b2 == b1.push(']'));
                assert(b2 =~= b1 + seq![']']);
                lemma_prefix_append(b1, seq![']']);
                lemma_prefix_trans(buf, b1, b2);
            },
        }
        lemma_removed_loop_grows(cfg, b2, removed, common, last_keys, last_ctx, k - 1);
        lemma_prefix_trans(buf, b2, removed_loop(cfg, b2, removed, common, last_keys, last_ctx, k - 1).unwrap());
    }
}

proof fn lemma_new_loop_grows(
    cfg: FmtConfig,
    buf: Seq<char>,
    keys: Seq<SpecKey>,
    base: int,
    this_value: Seq<SpecKey>,
    new: Seq<SpecKey>,
    common: int,
    k: int,
)
    ensures
        buf.is_prefix_of(new_loop(cfg, buf, keys, base, this_value, new, common, k)),
    decreases new.len() - k,
{
    if k >= new.len() {
        lemma_prefix_append(buf, Seq::empty());
        assert(buf + Seq::<char>::empty() =~= buf);
    } else {
        let b = new_loop_step(cfg, buf, keys, base, this_value, new, common, k);
        assert(b =~= buf + b.skip(buf.len() as int)) by {
            assert(b.len() >= buf.len());
            assert(b.take(buf.len() as int) =~= buf);
        }
        lemma_prefix_append(buf, b.skip(buf.len() as int));
        lemma_new_loop_grows(cfg, b, keys, base, this_value, new, common, k + 1);
        lemma_prefix_trans(buf, b, new_loop(cfg, b, keys, base, this_value, new, common, k + 1));
    }
}

proof fn lemma_pieces_grow()
    ensures
        forall|cfg: FmtConfig, buf: Seq<char>, removed: Seq<SpecKey>, common: int, lk: Seq<SpecKey>, lc: SpecContext, k: int|
            #[trigger] removed_loop(cfg, buf, removed, common, lk, lc, k) is Some ==> buf.is_prefix_of(
                removed_loop(cfg, buf, removed, common, lk, lc, k).unwrap(),
            ),
        forall|cfg: FmtConfig, buf: Seq<char>, keys: Seq<SpecKey>, base: int, tv: Seq<SpecKey>, new: Seq<SpecKey>, common: int, k: int|
            buf.is_prefix_of(#[trigger] new_loop(cfg, buf, keys, base, tv, new, common, k)),
        forall|cfg: FmtConfig, buf: Seq<char>, tt: Seq<SpecKey>| buf.is_prefix_of(#[trigger] table_header(cfg, buf, tt)),
        forall|cfg: FmtConfig, buf: Seq<char>, e: SpecEvent, ts: Seq<SpecKey>, ic: bool|
            #[trigger] specifier_part(cfg, buf, e, ts, ic) is Some ==> buf.is_prefix_of(specifier_part(cfg, buf, e, ts, ic).unwrap()),
        forall|cfg: FmtConfig, buf: Seq<char>, e: SpecEvent, c: Seq<char>, tv: Seq<SpecKey>|
            #[trigger] comment_text(cfg, buf, e, c, tv) is Some ==> buf.is_prefix_of(comment_text(cfg, buf, e, c, tv).unwrap()),
{
    assert forall|cfg: FmtConfig, buf: Seq<char>, removed: Seq<SpecKey>, common: int, lk: Seq<SpecKey>, lc: SpecContext, k: int|
        #[trigger] removed_loop(cfg, buf, removed, common, lk, lc, k) is Some implies buf.is_prefix_of(
            removed_loop(cfg, buf, removed, common, lk, lc, k).unwrap(),
        ) by {
        lemma_removed_loop_grows(cfg, buf, removed, common, lk, lc, k);
    }
    assert forall|cfg: FmtConfig, buf: Seq<char>, keys: Seq<SpecKey>, base: int, tv: Seq<SpecKey>, new: Seq<SpecKey>, common: int, k: int|
        buf.is_prefix_of(#[trigger] new_loop(cfg, buf, keys, base, tv, new, common, k)) by {
        lemma_new_loop_grows(cfg, buf, keys, base, tv, new, common, k);
    }
    assert forall|cfg: FmtConfig, buf: Seq<char>, tt: Seq<SpecKey>| buf.is_prefix_of(#[trigger] table_header(cfg, buf, tt)) by {
        let t = table_header(cfg, buf, tt);
        assert(t.take(buf.len() as int) =~= buf);
    }
    assert forall|cfg: FmtConfig, buf: Seq<char>, e: SpecEvent, ts: Seq<SpecKey>, ic: bool|
        #[trigger] specifier_part(cfg, buf, e, ts, ic) is Some implies buf.is_prefix_of(specifier_part(cfg, buf, e, ts, ic).unwrap()) by {
        let t = specifier_part(cfg, buf, e, ts, ic).unwrap();
        assert(t.take(buf.len() as int) =~= buf);
    }
    assert forall|cfg: FmtConfig, buf: Seq<char>, e: SpecEvent, c: Seq<char>, tv: Seq<SpecKey>|
        #[trigger] comment_text(cfg, buf, e, c, tv) is Some implies buf.is_prefix_of(comment_text(cfg, buf, e, c, tv).unwrap()) by {
        let t = comment_text(cfg, buf, e, c, tv).unwrap();
        assert(t.take(buf.len() as int) =~= buf);
    }
}

/// Pushing keeps what was there.
proof fn lemma_prefix_push(a: Seq<char>, c: char)
    ensures
        a.is_prefix_of(a.push(c)),
{
    assert(a =~= a.push(c).subrange(0, a.len() as int));
}

#[verifier::rlimit(40)]
proof fn lemma_format_event_grows(cfg: FmtConfig, st: FmtState, e: SpecEvent)
    requires
        format_event(cfg, st, e) is Some,
    ensures
        st.buf.is_prefix_of(format_event(cfg, st, e).unwrap().buf),
        !(e.value is Comment) ==> format_event(cfg, st, e).unwrap().buf.len() >= st.buf.len() + value_text(e.value).len(),
        !(e.value is Comment) ==> format_event(cfg, st, e).unwrap().buf.skip(
            format_event(cfg, st, e).unwrap().buf.len() - value_text(e.value).len(),
        ) == value_text(e.value),
{
    lemma_pieces_grow();
    let is_comment = e.value is Comment;
    let (lt, ls, lv) = split_opt(st.last_ctx, st.last_keys).unwrap();
    let (tt, ts, tv) = split_opt(e.ctx, e.keys).unwrap();
    if is_comment && has_slice(tv) {
        lemma_prefix_append(st.buf, Seq::empty());
        assert(st.buf + Seq::<char>::empty() =~= st.buf);
    } else {
        let same_table = tt == lt;
        let same_spec = same_table && ts == ls;
        let svr = same_table && same_spec;
        let c = if svr {
            common_len(tv, lv)
        } else {
            0
        };
        let removed0 = lv.skip(c);
        let same = tv.take(c);
        let new0 = tv.skip(c);
        let both = removed0.len() > 0 && new0.len() > 0 && svr;
        let incident = both && (match (removed0[0], new0[0]) {
            (SpecKey::Slice(_), SpecKey::Slice(_)) => true,
            (SpecKey::Index(p), SpecKey::Index(q)) => p + 1 == q,
            _ => false,
        });
        let removed = if incident {
            removed0.skip(1)
        } else {
            removed0
        };
        let new = if incident {
            new0.skip(1)
        } else {
            new0
        };
        let common: int = if incident {
            1
        } else {
            0
        };
        let buf1 = if removed.len() > 0 || !e.ctx.in_value {
            removed_loop(cfg, st.buf, removed, common, st.last_keys, st.last_ctx, removed.len() as int).unwrap()
        } else {
            st.buf
        };
        if !(removed.len() > 0 || !e.ctx.in_value) {
            lemma_prefix_append(st.buf, Seq::empty());
            assert(st.buf + Seq::<char>::empty() =~= st.buf);
        }
        let buf2 = if svr && lv.len() > 0 && !is_comment {
            buf1.push(',')
        } else {
            buf1
        };
        lemma_prefix_push(buf1, ',');
        lemma_prefix_append(buf1, Seq::empty());
        assert(buf1 + Seq::<char>::empty() =~= buf1);
        lemma_prefix_trans(st.buf, buf1, buf2);
        let buf3 = if incident {
            let pretty = in_expanded(cfg.counts, e.keys.take((tt.len() + ts.len() + same.len()) as int))
                && spec_is_array_chain(tv);
            match new0[0] {
                SpecKey::Slice(name) => buf2 + seq![' '] + name + seq![' ', '=', ' '],
                SpecKey::Index(_) => if pretty && !is_comment {
                    buf2 + cfg.nl + rep(cfg.indent, (tv.len() - new.len()) as nat)
                } else {
                    buf2
                },
            }
        } else {
            buf2
        };
        assert(buf3 =~= buf2 + buf3.skip(buf2.len() as int));
        lemma_prefix_append(buf2, buf3.skip(buf2.len() as int));
        lemma_prefix_trans(st.buf, buf2, buf3);
        let buf4 = if !same_table {
            table_header(cfg, buf3, tt)
        } else {
            buf3
        };
        lemma_prefix_append(buf3, Seq::empty());
        assert(buf3 + Seq::<char>::empty() =~= buf3);
        lemma_prefix_trans(st.buf, buf3, buf4);
        let buf5 = if !same_spec {
            specifier_part(cfg, buf4, e, ts, is_comment).unwrap()
        } else {
            buf4
        };
        lemma_prefix_append(buf4, Seq::empty());
        assert(buf4 + Seq::<char>::empty() =~= buf4);
        lemma_prefix_trans(st.buf, buf4, buf5);
        let buf6 = new_loop(cfg, buf5, e.keys, (tt.len() + ts.len()) as int, tv, new, common, 0);
        lemma_prefix_trans(st.buf, buf5, buf6);
        let buf7 = if !is_comment && !((buf6.len() > 0 && char_is_whitespace(buf6.last())) || ends_with(
            buf6,
            seq!['['],
        ) || ends_with(buf6, cfg.indent)) {
            buf6.push(' ')
        } else {
            buf6
        };
        lemma_prefix_push(buf6, ' ');
        lemma_prefix_append(buf6, Seq::empty());
        assert(buf6 + Seq::<char>::empty() =~= buf6);
        lemma_prefix_trans(st.buf, buf6, buf7);
        match e.value {
            SpecValue::Comment(cm) => {
                lemma_prefix_trans(st.buf, buf7, comment_text(cfg, buf7, e, cm, tv).unwrap());
            },
            _ => {
                let vt = value_text(e.value);
                lemma_prefix_append(buf7, vt);
                lemma_prefix_trans(st.buf, buf7, buf7 + vt);
                assert((buf7 + vt).skip(buf7.len() as int) =~= vt);
            },
        }
    }
}

/// What stands in a text stands in every text it is a prefix of.
proof fn lemma_occurs_in_longer(a: Seq<char>, b: Seq<char>, pos: int, piece: Seq<char>)
    requires
        a.is_prefix_of(b),
        occurs_at(a, pos, piece),
    ensures
        occurs_at(b, pos, piece),
{
    assert(b.subrange(pos, pos + piece.len()) =~= a.subrange(pos, pos + piece.len())) by {
        assert forall|j: int| pos <= j < pos + piece.len() implies #[trigger] b[j] == a[j] by {
            assert(a[j] == b.subrange(0, a.len() as int)[j]);
        }
    }
}

proof fn lemma_format_from_values(cfg: FmtConfig, evs: Seq<SpecEvent>, i: int, st: FmtState) -> (pos: Seq<int>)
    requires
        0 <= i <= evs.len(),
        format_from(cfg, evs, i, st) is Some,
    ensures
        st.buf.is_prefix_of(format_from(cfg, evs, i, st).unwrap().buf),
        pos.len() == evs.len() - i,
        forall|k: int|
            0 <= k < pos.len() && !(evs[i + k].value is Comment) ==> #[trigger] pos[k] >= st.buf.len()
                && occurs_at(format_from(cfg, evs, i, st).unwrap().buf, pos[k], value_text(evs[i + k].value)),
        forall|k1: int, k2: int|
            0 <= k1 < k2 < pos.len() && !(evs[i + k1].value is Comment) && !(evs[i + k2].value is Comment)
                ==> #[trigger] pos[k1] + value_text(evs[i + k1].value).len() <= #[trigger] pos[k2],
    decreases evs.len() - i,
{
    if i >= evs.len() {
        assert(st.buf =~= st.buf.subrange(0, st.buf.len() as int));
        Seq::empty()
    } else {
        let st2 = format_event(cfg, st, evs[i]).unwrap();
        lemma_format_event_grows(cfg, st, evs[i]);
        let rest = lemma_format_from_values(cfg, evs, i + 1, st2);
        let fin = format_from(cfg, evs, i + 1, st2).unwrap();
        assert(fin == format_from(cfg, evs, i, st).unwrap());
        lemma_prefix_trans(st.buf, st2.buf, fin.buf);
        let vt = value_text(evs[i].value);
        let p0 = if evs[i].value is Comment {
            st2.buf.len() as int
        } else {
            st2.buf.len() - vt.len()
        };
        if !(evs[i].value is Comment) {
            assert(st2.buf.subrange(p0, p0 + vt.len()) =~= st2.buf.skip(p0));
            lemma_occurs_in_longer(st2.buf, fin.buf, p0, vt);
        }
        let pos = seq![p0] + rest;
        assert forall|k: int|
            0 <= k < pos.len() && !(evs[i + k].value is Comment) implies #[trigger] pos[k] >= st.buf.len()
                && occurs_at(fin.buf, pos[k], value_text(evs[i + k].value)) by {
            if k > 0 {
                assert(pos[k] == rest[k - 1]);
                assert(i + k == (i + 1) + (k - 1));
                assert(st.buf.len() <= st2.buf.len());
            }
        }
        assert forall|k1: int, k2: int|
            0 <= k1 < k2 < pos.len() && !(evs[i + k1].value is Comment) && !(evs[i + k2].value is Comment)
                implies #[trigger] pos[k1] + value_text(evs[i + k1].value).len() <= #[trigger] pos[k2] by {
            assert(pos[k2] == rest[k2 - 1]);
            assert(i + k2 == (i + 1) + (k2 - 1));
            if k1 > 0 {
                assert(pos[k1] == rest[k1 - 1]);
                assert(i + k1 == (i + 1) + (k1 - 1));
            }
        }
        pos
    }
}

/// The formatted document holds the text of every value of the document
/// (comments aside), in the order the values come, each after the one
/// before.
pub proof fn law_format_keeps_values(input: Seq<char>, o: SpecFormatOptions, text: Seq<char>)
    requires
        spec_format(input, o) == Some(Ok::<Seq<char>, TOMLParseError>(text)),
    ensures
        exists|pos: Seq<int>| values_in_order(text, run(SpecParser::init(input, true, true), Seq::empty()).0, pos),
{
    let (evs, out) = run(SpecParser::init(input, true, true), Seq::empty());
    let (counts, ind) = pass1(evs, 0, Map::empty(), initial_indentation(o.indentation)).unwrap();
    let cfg = FmtConfig {
        input,
        indent: o.indent,
        nl: newline(o.use_crlf),
        prefix_indent_keys: o.prefix_indent_keys,
        counts,
        indentation: ind,
    };
    let st0 = FmtState { buf: Seq::empty(), last_keys: Seq::empty(), last_ctx: SpecContext::empty() };
    let st = format_from(cfg, evs, 0, st0).unwrap();
    let pos = lemma_format_from_values(cfg, evs, 0, st0);
    let (_, _, lv) = split_opt(st.last_ctx, st.last_keys).unwrap();
    let buf = removed_loop(cfg, st.buf, lv, 0, st.last_keys, st.last_ctx, lv.len() as int).unwrap();
    lemma_removed_loop_grows(cfg, st.buf, lv, 0, st.last_keys, st.last_ctx, lv.len() as int);
    assert(text == finish_text(cfg, st).unwrap());
    lemma_prefix_append(buf, cfg.nl);
    lemma_prefix_append(buf, Seq::empty());
    assert(buf + Seq::<char>::empty() =~= buf);
    lemma_prefix_trans(st.buf, buf, text);
    assert forall|k: int| 0 <= k < evs.len() && !(evs[k].value is Comment) implies occurs_at(
        text,
        #[trigger] pos[k],
        value_text(evs[k].value),
    ) by {
        assert(evs[0 + k] == evs[k]);
        lemma_occurs_in_longer(st.buf, text, pos[k], value_text(evs[k].value));
    }
    assert forall|k1: int, k2: int|
        0 <= k1 < k2 < evs.len() && !(evs[k1].value is Comment) && !(evs[k2].value is Comment) implies #[trigger] pos[k1]
            + value_text(evs[k1].value).len() <= #[trigger] pos[k2] by {
        assert(evs[0 + k1] == evs[k1] && evs[0 + k2] == evs[k2]);
    }
    assert(values_in_order(text, evs, pos));
}

/// Whether `s` holds no line feed.
pub open spec fn no_lf(s: Seq<char>) -> bool {
    forall|k: int| 0 <= k < s.len() ==> s[k] != '\n'
}

/// Whether every line feed of `s` comes right after a carriage return.
pub open spec fn lf_after_cr(s: Seq<char>) -> bool {
    forall|k: int| 0 <= k < s.len() && #[trigger] s[k] == '\n' ==> k > 0 && s[k - 1] == '\r'
}

/// Whether no name among the keys `ks` holds a line feed.
pub open spec fn keys_without_lf(ks: Seq<SpecKey>) -> bool {
    forall|i: int| 0 <= i < ks.len() ==> (#[trigger] ks[i] matches SpecKey::Slice(n) ==> no_lf(n))
}

/// Whether the keys, the written text and (for a comment) the text of the
/// value `e` hold no line feed.
pub open spec fn event_without_lf(e: SpecEvent) -> bool {
    &&& keys_without_lf(e.keys)
    &&& no_lf(value_text(e.value))
    &&& (e.value matches SpecValue::Comment(c) ==> no_lf(c))
}

proof fn lemma_lf_concat(a: Seq<char>, b: Seq<char>)
    requires
        lf_after_cr(a),
        lf_after_cr(b),
    ensures
        lf_after_cr(a + b),
{
    assert forall|k: int| 0 <= k < (a + b).len() && #[trigger] (a + b)[k] == '\n' implies k > 0 && (a + b)[k - 1] == '\r' by {
        if k < a.len() {
            assert((a + b)[k] == a[k]);
            assert((a + b)[k - 1] == a[k - 1]);
        } else {
            assert((a + b)[k] == b[k - a.len()]);
            assert(b[k - a.len()] == '\n');
            assert((a + b)[k - 1] == b[k - a.len() - 1]);
        }
    }
}

proof fn lemma_no_lf_ok(a: Seq<char>)
    requires
        no_lf(a),
    ensures
        lf_after_cr(a),
{
}

proof fn lemma_append_no_lf(a: Seq<char>, b: Seq<char>)
    requires
        lf_after_cr(a),
        no_lf(b),
    ensures
        lf_after_cr(a + b),
{
    lemma_lf_concat(a, b);
}

proof fn lemma_push_ok(a: Seq<char>, c: char)
    requires
        lf_after_cr(a),
        c != '\n',
    ensures
        lf_after_cr(a.push(c)),
{
    assert(a.push(c) =~= a + seq![c]);
    lemma_append_no_lf(a, seq![c]);
}

proof fn lemma_crlf_ok()
    ensures
        lf_after_cr(seq!['\r', '\n']),
{
}

proof fn lemma_no_lf_concat(a: Seq<char>, b: Seq<char>)
    requires
        no_lf(a),
        no_lf(b),
    ensures
        no_lf(a + b),
{
    assert forall|k: int| 0 <= k < (a + b).len() implies (a + b)[k] != '\n' by {
        if k < a.len() {
            assert((a + b)[k] == a[k]);
        } else {
            assert((a + b)[k] == b[k - a.len()]);
        }
    }
}

proof fn lemma_rep_no_lf(s: Seq<char>, n: nat)
    requires
        no_lf(s),
    ensures
        no_lf(rep(s, n)),
    decreases n,
{
    if n > 0 {
        lemma_rep_no_lf(s, (n - 1) as nat);
        lemma_no_lf_concat(rep(s, (n - 1) as nat), s);
    }
}

proof fn lemma_wrap_no_lf(k: Seq<char>)
    requires
        no_lf(k),
    ensures
        no_lf(wrap(k)),
{
    if !is_bare_key(k) {
        lemma_no_lf_concat(seq!['\''], k);
        lemma_no_lf_concat(seq!['\''] + k, seq!['\'']);
    }
}

proof fn lemma_joined_no_lf(ks: Seq<SpecKey>, n: int)
    requires
        keys_without_lf(ks),
        n <= ks.len(),
    ensures
        no_lf(joined(ks, n)),
    decreases n,
{
    if n > 0 {
        lemma_joined_no_lf(ks, n - 1);
        let k = ks[n - 1];
        match k {
            SpecKey::Slice(name) => {
                lemma_wrap_no_lf(name);
                lemma_no_lf_concat(seq!['.'], wrap(name));
            },
            _ => {},
        }
        lemma_no_lf_concat(joined(ks, n - 1), key_piece(k, n == 1));
    }
}

proof fn lemma_keys_sub(ks: Seq<SpecKey>, a: int, b: int)
    requires
        keys_without_lf(ks),
        0 <= a <= b <= ks.len(),
    ensures
        keys_without_lf(ks.subrange(a, b)),
        keys_without_lf(ks.take(b)),
        keys_without_lf(ks.skip(a)),
{
    assert forall|i: int| 0 <= i < ks.subrange(a, b).len() implies (#[trigger] ks.subrange(a, b)[i] matches SpecKey::Slice(n) ==> no_lf(n)) by {
        assert(ks.subrange(a, b)[i] == ks[a + i]);
    }
    assert forall|i: int| 0 <= i < ks.take(b).len() implies (#[trigger] ks.take(b)[i] matches SpecKey::Slice(n) ==> no_lf(n)) by {
        assert(ks.take(b)[i] == ks[i]);
    }
    assert forall|i: int| 0 <= i < ks.skip(a).len() implies (#[trigger] ks.skip(a)[i] matches SpecKey::Slice(n) ==> no_lf(n)) by {
        assert(ks.skip(a)[i] == ks[a + i]);
    }
}

proof fn lemma_removed_loop_crlf(
    cfg: FmtConfig,
    buf: Seq<char>,
    removed: Seq<SpecKey>,
    common: int,
    last_keys: Seq<SpecKey>,
    last_ctx: SpecContext,
    k: int,
)
    requires
        cfg.nl == seq!['\r', '\n'],
        no_lf(cfg.indent),
        lf_after_cr(buf),
        k <= removed.len(),
    ensures
        removed_loop(cfg, buf, removed, common, last_keys, last_ctx, k) matches Some(b) ==> lf_after_cr(b),
    decreases k,
{
    if k > 0 && !(last_ctx.table_keys + last_ctx.specifier_keys + (k - 1) + common > last_keys.len()) {
        let level = (k - 1) + common;
        lemma_crlf_ok();
        lemma_rep_no_lf(cfg.indent, level as nat);
        match removed[k - 1] {
            SpecKey::Slice(_) => {
                lemma_append_no_lf(buf, seq![' ', '}']);
            },
            SpecKey::Index(_) => {
                lemma_lf_concat(buf, cfg.nl);
                lemma_append_no_lf(buf + cfg.nl, rep(cfg.indent, level as nat));
                lemma_push_ok(buf, ']');
                lemma_push_ok(buf + cfg.nl + rep(cfg.indent, level as nat), ']');
            },
        }
        let b1 = removed_step(cfg, buf, removed, common, last_keys, last_ctx, k);
        lemma_removed_loop_crlf(cfg, b1, removed, common, last_keys, last_ctx, k - 1);
    }
}

proof fn lemma_new_loop_crlf(
    cfg: FmtConfig,
    buf: Seq<char>,
    keys: Seq<SpecKey>,
    base: int,
    this_value: Seq<SpecKey>,
    new: Seq<SpecKey>,
    common: int,
    k: int,
)
    requires
        cfg.nl == seq!['\r', '\n'],
        no_lf(cfg.indent),
        lf_after_cr(buf),
        keys_without_lf(new),
        0 <= k,
    ensures
        lf_after_cr(new_loop(cfg, buf, keys, base, this_value, new, common, k)),
    decreases new.len() - k,
{
    if k < new.len() {
        lemma_crlf_ok();
        let level = k + common;
        let n1: nat = if this_value.len() > 0 {
            (this_value.len() - 1) as nat
        } else {
            0
        };
        lemma_rep_no_lf(cfg.indent, n1);
        lemma_rep_no_lf(cfg.indent, (level + 1) as nat);
        match new[k] {
            SpecKey::Slice(key) => {
                lemma_wrap_no_lf(key);
                lemma_no_lf_concat(seq!['{', ' '], wrap(key));
                lemma_no_lf_concat(seq!['{', ' '] + wrap(key), seq![' ', '=', ' ']);
                lemma_append_no_lf(buf, seq!['{', ' '] + wrap(key) + seq![' ', '=', ' ']);
                assert(buf + seq!['{', ' '] + wrap(key) + seq![' ', '=', ' '] =~= buf + (seq!['{', ' '] + wrap(key) + seq![' ', '=', ' ']));
            },
            SpecKey::Index(_) => {
                lemma_lf_concat(buf, cfg.nl);
                lemma_append_no_lf(buf + cfg.nl, rep(cfg.indent, n1));
                lemma_push_ok(buf, ' ');
                let b1 = if !(ends_with(buf, seq![',']) || ends_with(buf, seq!['[']) || ends_with(buf, seq!['=', ' '])
                    || ends_with(buf, cfg.indent)) {
                    if in_expanded(cfg.counts, keys.take(base + level)) && spec_is_array_chain(this_value) {
                        buf + cfg.nl + rep(cfg.indent, n1)
                    } else {
                        buf.push(' ')
                    }
                } else {
                    buf
                };
                lemma_push_ok(b1, '[');
                lemma_lf_concat(b1.push('['), cfg.nl);
                lemma_append_no_lf(b1.push('[') + cfg.nl, rep(cfg.indent, (level + 1) as nat));
            },
        }
        lemma_new_loop_crlf(
            cfg,
            new_loop_step(cfg, buf, keys, base, this_value, new, common, k),
            keys,
            base,
            this_value,
            new,
            common,
            k + 1,
        );
    }
}

proof fn lemma_table_header_crlf(cfg: FmtConfig, buf: Seq<char>, tt: Seq<SpecKey>)
    requires
        cfg.nl == seq!['\r', '\n'],
        lf_after_cr(buf),
        keys_without_lf(tt),
    ensures
        lf_after_cr(table_header(cfg, buf, tt)),
{
    lemma_crlf_ok();
    lemma_lf_concat(buf, cfg.nl);
    lemma_lf_concat(buf + cfg.nl, cfg.nl);
    lemma_joined_no_lf(tt, tt.len() as int);
    let open = if has_index(tt) { seq!['[', '['] } else { seq!['['] };
    let close = if has_index(tt) { seq![']', ']'] } else { seq![']'] };
    let piece = open + header_keys(tt) + close;
    lemma_no_lf_concat(open, header_keys(tt));
    lemma_no_lf_concat(open + header_keys(tt), close);
    assert forall|b: Seq<char>| lf_after_cr(b) implies #[trigger] lf_after_cr(b + piece) && b + open + header_keys(tt) + close == b + piece by {
        lemma_append_no_lf(b, piece);
        assert(b + open + header_keys(tt) + close =~= b + piece);
    }
    assert(lf_after_cr(buf + piece));
    assert(lf_after_cr(buf + cfg.nl + piece));
    assert(lf_after_cr(buf + cfg.nl + cfg.nl + piece));
}

proof fn lemma_specifier_part_crlf(cfg: FmtConfig, buf: Seq<char>, e: SpecEvent, ts: Seq<SpecKey>, is_comment: bool)
    requires
        cfg.nl == seq!['\r', '\n'],
        no_lf(cfg.indent),
        lf_after_cr(buf),
        keys_without_lf(ts),
    ensures
        specifier_part(cfg, buf, e, ts, is_comment) matches Some(b) ==> lf_after_cr(b),
{
    lemma_crlf_ok();
    lemma_lf_concat(buf, cfg.nl);
    let b0 = if buf.len() > 0 {
        buf + cfg.nl
    } else {
        buf
    };
    let ind = if cfg.prefix_indent_keys {
        cfg.indent
    } else {
        Seq::empty()
    };
    lemma_append_no_lf(b0, ind);
    let b1 = if !is_comment {
        b0 + ind
    } else {
        buf
    };
    lemma_joined_no_lf(ts, ts.len() as int);
    let text = header_keys(ts);
    match key_padding(cfg, e.keys, e.ctx, byte_len(text)) {
        None => {},
        Some(pad) => {
            match cfg.indentation {
                SpecIndentation::WholeDocument(w) => {
                    lemma_rep_no_lf(seq![' '], (w - byte_len(text)) as nat);
                },
                SpecIndentation::Section(m) => {
                    let prefix = e.keys.take(e.ctx.table_keys as int);
                    if m.dom().contains(prefix) {
                        lemma_rep_no_lf(seq![' '], (m[prefix] as nat - byte_len(text)) as nat);
                    }
                },
                SpecIndentation::Unaligned => {},
            }
            let tail = if !is_comment {
                seq![' ', '=', ' ']
            } else {
                Seq::empty()
            };
            lemma_no_lf_concat(text, pad);
            lemma_no_lf_concat(text + pad, tail);
            lemma_append_no_lf(b1, text + pad + tail);
            assert(b1 + text + pad + tail =~= b1 + (text + pad + tail));
        },
    }
}

proof fn lemma_comment_text_crlf(cfg: FmtConfig, buf: Seq<char>, e: SpecEvent, c: Seq<char>, tv: Seq<SpecKey>)
    requires
        cfg.nl == seq!['\r', '\n'],
        no_lf(cfg.indent),
        lf_after_cr(buf),
        no_lf(c),
    ensures
        comment_text(cfg, buf, e, c, tv) matches Some(b) ==> lf_after_cr(b),
{
    lemma_crlf_ok();
    lemma_lf_concat(buf, cfg.nl);
    let b0 = if buf.len() > 0 && (match after_last_newline(buf) {
        None => true,
        Some(after) => !(after.len() > 0 && (after[0] == '#' || after[0] == '[')),
    }) && tv.len() == 0 {
        buf + cfg.nl
    } else {
        buf
    };
    lemma_lf_concat(b0, cfg.nl);
    let b00 = if b0.len() > 0 {
        b0 + cfg.nl
    } else {
        b0
    };
    lemma_rep_no_lf(cfg.indent, e.ctx.value_keys.len());
    lemma_no_lf_concat(rep(cfg.indent, e.ctx.value_keys.len()), seq!['#', ' ']);
    lemma_append_no_lf(b00, rep(cfg.indent, e.ctx.value_keys.len()) + seq!['#', ' ']);
    assert(b00 + rep(cfg.indent, e.ctx.value_keys.len()) + seq!['#', ' '] =~= b00 + (rep(cfg.indent, e.ctx.value_keys.len()) + seq!['#', ' ']));
    lemma_append_no_lf(buf, seq![' ', '#', ' ']);
    let b = if e.at <= cfg.input.len() && rfind(cfg.input, '#', e.at as int) is Some && spec_comment_kind(cfg.input, e.at as int) != CommentPosition::AtEnd {
        b00 + rep(cfg.indent, e.ctx.value_keys.len()) + seq!['#', ' ']
    } else {
        buf + seq![' ', '#', ' ']
    };
    lemma_append_no_lf(b, c);
    lemma_lf_concat(b + c, cfg.nl);
    assert((b + c) + Seq::<char>::empty() =~= b + c);
}

proof fn lemma_common_from_bounds(a: Seq<SpecKey>, b: Seq<SpecKey>, i: int)
    requires
        0 <= i <= a.len(),
    ensures
        i <= common_from(a, b, i) <= a.len(),
    decreases a.len() - i,
{
    if 0 <= i < a.len() && i < b.len() && a[i] == b[i] {
        lemma_common_from_bounds(a, b, i + 1);
    }
}

proof fn lemma_format_event_crlf(cfg: FmtConfig, st: FmtState, e: SpecEvent)
    requires
        cfg.nl == seq!['\r', '\n'],
        no_lf(cfg.indent),
        lf_after_cr(st.buf),
        event_without_lf(e),
    ensures
        format_event(cfg, st, e) matches Some(st2) ==> lf_after_cr(st2.buf),
{
    let is_comment = e.value is Comment;
    match (split_opt(st.last_ctx, st.last_keys), split_opt(e.ctx, e.keys)) {
        (Some((lt, ls, lv)), Some((tt, ts, tv))) => {
            if !(is_comment && has_slice(tv)) {
                let t = e.ctx.table_keys as int;
                let sk = e.ctx.specifier_keys as int;
                lemma_keys_sub(e.keys, t, t + sk);
                lemma_keys_sub(e.keys, 0, t);
                lemma_keys_sub(e.keys, t + sk, e.keys.len() as int);
                let same_table = tt == lt;
                let same_spec = same_table && ts == ls;
                let svr = same_table && same_spec;
                lemma_common_from_bounds(tv, lv, 0);
                let c = if svr {
                    common_len(tv, lv)
                } else {
                    0
                };
                let removed0 = lv.skip(c);
                let new0 = tv.skip(c);
                let both = removed0.len() > 0 && new0.len() > 0 && svr;
                let incident = both && (match (removed0[0], new0[0]) {
                    (SpecKey::Slice(_), SpecKey::Slice(_)) => true,
                    (SpecKey::Index(p), SpecKey::Index(q)) => p + 1 == q,
                    _ => false,
                });
                let removed = if incident {
                    removed0.skip(1)
                } else {
                    removed0
                };
                let new = if incident {
                    new0.skip(1)
                } else {
                    new0
                };
                let common: int = if incident {
                    1
                } else {
                    0
                };
                if 0 <= c <= tv.len() {
                    lemma_keys_sub(tv, c, tv.len() as int);
                    if new0.len() > 0 {
                        lemma_keys_sub(new0, 1, new0.len() as int);
                    }
                }
                lemma_removed_loop_crlf(cfg, st.buf, removed, common, st.last_keys, st.last_ctx, removed.len() as int);
                let r1 = if removed.len() > 0 || !e.ctx.in_value {
                    removed_loop(cfg, st.buf, removed, common, st.last_keys, st.last_ctx, removed.len() as int)
                } else {
                    Some(st.buf)
                };
                match r1 {
                    None => {},
                    Some(buf1) => {
                        lemma_push_ok(buf1, ',');
                        let buf2 = if svr && lv.len() > 0 && !is_comment {
                            buf1.push(',')
                        } else {
                            buf1
                        };
                        lemma_crlf_ok();
                        lemma_lf_concat(buf2, cfg.nl);
                        lemma_rep_no_lf(cfg.indent, (tv.len() - new.len()) as nat);
                        lemma_append_no_lf(buf2 + cfg.nl, rep(cfg.indent, (tv.len() - new.len()) as nat));
                        if incident {
                            match new0[0] {
                                SpecKey::Slice(name) => {
                                    assert(new0[0] == tv[c]);
                                    assert(no_lf(name));
                                    lemma_no_lf_concat(seq![' '], name);
                                    lemma_no_lf_concat(seq![' '] + name, seq![' ', '=', ' ']);
                                    lemma_append_no_lf(buf2, seq![' '] + name + seq![' ', '=', ' ']);
                                    assert(buf2 + seq![' '] + name + seq![' ', '=', ' '] =~= buf2 + (seq![' '] + name + seq![' ', '=', ' ']));
                                },
                                _ => {},
                            }
                        }
                        let buf3 = if incident {
                            let pretty = in_expanded(cfg.counts, e.keys.take((tt.len() + ts.len() + tv.take(c).len()) as int))
                                && spec_is_array_chain(tv);
                            match new0[0] {
                                SpecKey::Slice(name) => buf2 + seq![' '] + name + seq![' ', '=', ' '],
                                SpecKey::Index(_) => if pretty && !is_comment {
                                    buf2 + cfg.nl + rep(cfg.indent, (tv.len() - new.len()) as nat)
                                } else {
                                    buf2
                                },
                            }
                        } else {
                            buf2
                        };
                        assert(lf_after_cr(buf3));
                        lemma_table_header_crlf(cfg, buf3, tt);
                        let buf4 = if !same_table {
                            table_header(cfg, buf3, tt)
                        } else {
                            buf3
                        };
                        lemma_specifier_part_crlf(cfg, buf4, e, ts, is_comment);
                        let r5 = if !same_spec {
                            specifier_part(cfg, buf4, e, ts, is_comment)
                        } else {
                            Some(buf4)
                        };
                        match r5 {
                            None => {},
                            Some(buf5) => {
                                lemma_new_loop_crlf(cfg, buf5, e.keys, (tt.len() + ts.len()) as int, tv, new, common, 0);
                                let buf6 = new_loop(cfg, buf5, e.keys, (tt.len() + ts.len()) as int, tv, new, common, 0);
                                lemma_push_ok(buf6, ' ');
                                let buf7 = if !is_comment && !((buf6.len() > 0 && char_is_whitespace(buf6.last()))
                                    || ends_with(buf6, seq!['[']) || ends_with(buf6, cfg.indent)) {
                                    buf6.push(' ')
                                } else {
                                    buf6
                                };
                                match e.value {
                                    SpecValue::Comment(cm) => {
                                        lemma_comment_text_crlf(cfg, buf7, e, cm, tv);
                                    },
                                    _ => {
                                        lemma_append_no_lf(buf7, value_text(e.value));
                                    },
                                }
                            },
                        }
                    },
                }
            }
        },
        _ => {},
    }
}

proof fn lemma_format_from_crlf(cfg: FmtConfig, evs: Seq<SpecEvent>, i: int, st: FmtState)
    requires
        0 <= i,
        cfg.nl == seq!['\r', '\n'],
        no_lf(cfg.indent),
        lf_after_cr(st.buf),
        forall|k: int| 0 <= k < evs.len() ==> event_without_lf(#[trigger] evs[k]),
    ensures
        format_from(cfg, evs, i, st) matches Some(st2) ==> lf_after_cr(st2.buf),
    decreases evs.len() - i,
{
    if i < evs.len() {
        lemma_format_event_crlf(cfg, st, evs[i]);
        match format_event(cfg, st, evs[i]) {
            None => {},
            Some(st2) => lemma_format_from_crlf(cfg, evs, i + 1, st2),
        }
    }
}

/// With `use_crlf`, every line break the formatter writes is `\r\n`: where
/// no key, value or comment of the document holds a line feed (and the
/// indent holds none), every line feed of the formatted text comes right
/// after a carriage return.
pub proof fn law_crlf_line_breaks(input: Seq<char>, o: SpecFormatOptions)
    requires
        o.use_crlf,
        no_lf(o.indent),
        forall|k: int|
            0 <= k < run(SpecParser::init(input, true, true), Seq::empty()).0.len() ==> event_without_lf(
                #[trigger] run(SpecParser::init(input, true, true), Seq::empty()).0[k],
            ),
        spec_format(input, o) matches Some(Ok(_)),
    ensures
        spec_format(input, o) matches Some(Ok(text)) && lf_after_cr(text),
{
    let (evs, out) = run(SpecParser::init(input, true, true), Seq::empty());
    let (counts, ind) = pass1(evs, 0, Map::empty(), initial_indentation(o.indentation)).unwrap();
    let cfg = FmtConfig {
        input,
        indent: o.indent,
        nl: newline(o.use_crlf),
        prefix_indent_keys: o.prefix_indent_keys,
        counts,
        indentation: ind,
    };
    let st0 = FmtState { buf: Seq::empty(), last_keys: Seq::empty(), last_ctx: SpecContext::empty() };
    lemma_format_from_crlf(cfg, evs, 0, st0);
    let st = format_from(cfg, evs, 0, st0).unwrap();
    let (_, _, lv) = split_opt(st.last_ctx, st.last_keys).unwrap();
    lemma_removed_loop_crlf(cfg, st.buf, lv, 0, st.last_keys, st.last_ctx, lv.len() as int);
    let buf = removed_loop(cfg, st.buf, lv, 0, st.last_keys, st.last_ctx, lv.len() as int).unwrap();
    lemma_crlf_ok();
    lemma_lf_concat(buf, cfg.nl);
}

/// A table header is written on a line of its own: after the text so far come
/// only line breaks, then the header (`[keys]`, or `[[keys]]` for an array of
/// tables). Unless it is the first thing written, a blank line comes before
/// it.
pub proof fn law_table_header_on_own_line(cfg: FmtConfig, buf: Seq<char>, tt: Seq<SpecKey>)
    requires
        cfg.nl == seq!['\n'] || cfg.nl == seq!['\r', '\n'],
    ensures
        exists|m: nat|
            m <= 2 && (buf.len() == 0 <==> m == 0) && #[trigger] table_header(cfg, buf, tt) == buf + rep(cfg.nl, m) + (if has_index(tt) {
                seq!['[', '[']
            } else {
                seq!['[']
            }) + header_keys(tt) + (if has_index(tt) {
                seq![']', ']']
            } else {
                seq![']']
            }) && (buf.len() > 0 ==> ends_with(buf + rep(cfg.nl, m), seq!['\n'] + cfg.nl)),
{
    let nl = cfg.nl;
    assert(rep(nl, 0) =~= Seq::<char>::empty());
    assert(rep(nl, 1) =~= nl) by {
        assert(rep(nl, 0) + nl =~= nl);
    }
    assert(rep(nl, 2) =~= nl + nl) by {
        assert(rep(nl, 1) + nl =~= nl + nl);
    }
    let open = if has_index(tt) { seq!['[', '['] } else { seq!['['] };
    let close = if has_index(tt) { seq![']', ']'] } else { seq![']'] };
    if buf.len() == 0 {
        assert(table_header(cfg, buf, tt) == buf + rep(nl, 0) + open + header_keys(tt) + close);
    } else {
        let b1 = if !ends_with(buf, seq!['\n']) {
            buf + nl
        } else {
            buf
        };
        assert(ends_with(b1, seq!['\n'])) by {
            if !ends_with(buf, seq!['\n']) {
                assert((buf + nl).skip((buf + nl).len() - 1) =~= seq!['\n']);
            }
        }
        assert(b1.last() == '\n') by {
            assert(b1.skip(b1.len() - 1)[0] == b1.last());
        }
        assert(rfind(b1, '\n', b1.len() as int) == Some(b1.len() - 1));
        assert(after_last_newline(b1) == Some(b1.skip(b1.len() as int)));
        assert(!spec_last_line_is_comment(b1));
        let m: nat = if !ends_with(buf, seq!['\n']) { 2 } else { 1 };
        assert(buf + rep(nl, m) =~= b1 + nl);
        assert((b1 + nl).skip((b1 + nl).len() - (nl.len() + 1)) =~= seq!['\n'] + nl) by {
            assert(b1[b1.len() - 1] == '\n');
        }
        assert(table_header(cfg, buf, tt) == buf + rep(nl, m) + open + header_keys(tt) + close);
    }
}

} // verus!
