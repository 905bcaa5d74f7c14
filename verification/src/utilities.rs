use vstd::prelude::*;

use crate::text::{
    all_ws, char_from_u32, char_is_whitespace, is_whitespace, lead_ws, push_str, skip_ws_forward,
    str_to_chars, string_push,
};
use crate::{keys_view, SpecContext, SpecKey, TOMLKey, TOMLKeyContext, TOMLNumberValue, TOMLStringValue};

verus! {

/// The keys leading to the current position, with how they divide into levels.
#[derive(Debug)]
pub struct KeyChain<'a> {
    pub keys: Vec<TOMLKey<'a>>,
    pub context: TOMLKeyContext,
}

/// The mathematical model of a [`KeyChain`].
pub struct SpecChain {
    pub keys: Seq<SpecKey>,
    pub ctx: SpecContext,
}

impl View for KeyChain<'_> {
    type V = SpecChain;

    open spec fn view(&self) -> SpecChain {
        SpecChain { keys: keys_view(self.keys@), ctx: self.context@ }
    }
}

impl SpecChain {
    /// The key counts account for every key, and each value level holds at
    /// least one key.
    pub open spec fn wf(self) -> bool {
        &&& self.keys.len() == self.ctx.table_keys + self.ctx.specifier_keys
            + level_sum(self.ctx.value_keys)
        &&& forall|i: int| 0 <= i < self.ctx.value_keys.len() ==> #[trigger] self.ctx.value_keys[i] >= 1
    }

    /// The chain marked as inside a value exactly when it has value keys.
    pub open spec fn settle_in_value(self) -> SpecChain {
        SpecChain { ctx: SpecContext { in_value: self.ctx.value_keys.len() > 0, ..self.ctx }, ..self }
    }

    /// The chain marked as inside a value (an array or inline table).
    pub open spec fn mark_in_value(self) -> SpecChain {
        SpecChain { ctx: SpecContext { in_value: true, ..self.ctx }, ..self }
    }

    /// Adds `k` to the last value level, as the next part of a dotted key.
    pub open spec fn extend_value(self, k: SpecKey) -> SpecChain {
        let v = self.ctx.value_keys;
        SpecChain {
            keys: self.keys.push(k),
            ctx: SpecContext { value_keys: v.update(v.len() - 1, (v.last() + 1) as u8), ..self.ctx },
        }
    }

    pub open spec fn empty() -> SpecChain {
        SpecChain { keys: Seq::empty(), ctx: SpecContext::empty() }
    }

    pub open spec fn push_table(self, k: SpecKey) -> SpecChain {
        SpecChain {
            keys: self.keys.push(k),
            ctx: SpecContext { table_keys: (self.ctx.table_keys + 1) as u8, ..self.ctx },
        }
    }

    pub open spec fn push_specifier(self, k: SpecKey) -> SpecChain {
        SpecChain {
            keys: self.keys.push(k),
            ctx: SpecContext { specifier_keys: (self.ctx.specifier_keys + 1) as u8, ..self.ctx },
        }
    }

    pub open spec fn push_value(self, k: SpecKey) -> SpecChain {
        SpecChain {
            keys: self.keys.push(k),
            ctx: SpecContext { value_keys: self.ctx.value_keys.push(1), ..self.ctx },
        }
    }

    /// Whether the last key is an array index.
    pub open spec fn last_is_index(self) -> bool {
        self.keys.len() > 0 && self.keys.last() is Index
    }

    /// Whether the last key is a name.
    pub open spec fn last_is_slice(self) -> bool {
        self.keys.len() > 0 && self.keys.last() is Slice
    }

    /// What [`KeyChain::pop_whole_slice_key`] leaves.
    pub open spec fn pop_whole(self) -> SpecChain {
        let ctx = self.ctx;
        if self.last_is_index() {
            let keys = self.keys.drop_last();
            if ctx.value_keys.len() > 0 {
                let v = ctx.value_keys;
                if v.last() <= 1 {
                    SpecChain { keys, ctx: SpecContext { value_keys: v.drop_last(), ..ctx } }
                } else {
                    SpecChain {
                        keys,
                        ctx: SpecContext { value_keys: v.update(v.len() - 1, (v.last() - 1) as u8), ..ctx },
                    }
                }
            } else if ctx.specifier_keys > 0 {
                SpecChain {
                    keys,
                    ctx: SpecContext { specifier_keys: (ctx.specifier_keys - 1) as u8, ..ctx },
                }
            } else if ctx.table_keys > 0 {
                SpecChain { keys, ctx: SpecContext { table_keys: (ctx.table_keys - 1) as u8, ..ctx } }
            } else {
                SpecChain { keys, ctx }
            }
        } else if ctx.value_keys.len() > 0 {
            let item = ctx.value_keys.last();
            let rest = ctx.value_keys.drop_last();
            let keep = if self.keys.len() >= item { self.keys.len() - item } else { 0 };
            SpecChain {
                keys: self.keys.take(keep),
                ctx: SpecContext {
                    value_keys: rest,
                    in_value: if rest.len() == 0 { false } else { ctx.in_value },
                    ..ctx
                },
            }
        } else if ctx.specifier_keys > 0 {
            SpecChain {
                keys: self.keys.take(ctx.table_keys as int) + self.keys.skip(
                    ctx.table_keys + ctx.specifier_keys,
                ),
                ctx: SpecContext { specifier_keys: 0, ..ctx },
            }
        } else if ctx.table_keys > 0 {
            SpecChain { keys: Seq::empty(), ctx: SpecContext { table_keys: 0, ..ctx } }
        } else {
            self
        }
    }

    /// What [`KeyChain::clear`] leaves.
    pub open spec fn clear(self) -> SpecChain {
        SpecChain {
            keys: Seq::empty(),
            ctx: SpecContext {
                table_keys: 0,
                specifier_keys: 0,
                value_keys: Seq::empty(),
                ..self.ctx
            },
        }
    }
}

impl<'a> KeyChain<'a> {
    /// An empty chain.
    pub fn new() -> (r: Self)
        ensures
            r@ == SpecChain::empty(),
    {
        let r = Self { keys: Vec::new(), context: TOMLKeyContext::default() };
        proof {
            assert(r@.keys =~= Seq::<SpecKey>::empty());
        }
        r
    }

    /// Appends a key of a table header.
    pub fn push_table_key(&mut self, key: TOMLKey<'a>)
        requires
            old(self).context.table_keys < 255,
        ensures
            final(self)@ == old(self)@.push_table(key@),
    {
        self.keys.push(key);
        self.context.table_keys += 1;
        proof {
            assert(final(self)@.keys =~= old(self)@.keys.push(key@));
        }
    }

    /// Appends a key before `=`.
    pub fn push_specifier_key(&mut self, key: TOMLKey<'a>)
        requires
            old(self).context.specifier_keys < 255,
        ensures
            final(self)@ == old(self)@.push_specifier(key@),
    {
        self.keys.push(key);
        self.context.specifier_keys += 1;
        proof {
            assert(final(self)@.keys =~= old(self)@.keys.push(key@));
        }
    }

    /// Appends a key inside a value, as a level of its own.
    pub fn push_value_key(&mut self, key: TOMLKey<'a>)
        ensures
            final(self)@ == old(self)@.push_value(key@),
    {
        self.keys.push(key);
        self.context.value_keys.push(1);
        proof {
            assert(final(self)@.keys =~= old(self)@.keys.push(key@));
        }
    }

    /// Appends `key` to the last value level, as the next part of a dotted key.
    pub fn push_joined_value_key(&mut self, key: TOMLKey<'a>)
        requires
            old(self).context.value_keys@.len() > 0,
            old(self).context.value_keys@.last() < 255,
        ensures
            final(self)@ == old(self)@.extend_value(key@),
    {
        self.keys.push(key);
        let levels = self.context.value_keys.len();
        let last = self.context.value_keys[levels - 1];
        self.context.value_keys.set(levels - 1, last + 1);
        proof {
            assert(final(self)@.keys =~= old(self)@.keys.push(key@));
        }
    }

    /// Leaves the innermost level: the last index, the last value level, all
    /// specifier keys, or all table keys, whichever comes first.
    pub fn pop_whole_slice_key(&mut self)
        requires
            old(self).context.table_keys + old(self).context.specifier_keys <= old(self).keys@.len(),
        ensures
            final(self)@ == old(self)@.pop_whole(),
    {
        let n = self.keys.len();
        let is_index = n > 0 && matches!(self.keys[n - 1], TOMLKey::Index(_));
        proof {
            if n > 0 {
                assert(self@.keys.last() == self.keys@[n - 1]@);
            }
        }
        if is_index {
            let _ = self.keys.pop();
            let levels = self.context.value_keys.len();
            if levels > 0 {
                let last = self.context.value_keys[levels - 1];
                if last <= 1 {
                    self.context.value_keys.pop();
                } else {
                    self.context.value_keys.set(levels - 1, last - 1);
                }
            } else if self.context.specifier_keys > 0 {
                self.context.specifier_keys -= 1;
            } else if self.context.table_keys > 0 {
                self.context.table_keys -= 1;
            }
            proof {
                assert(final(self)@.keys =~= old(self)@.keys.drop_last());
            }
        } else if self.context.value_keys.len() > 0 {
            let item = self.context.value_keys.pop().unwrap();
            let mut k: u8 = 0;
            let ghost ctx = self.context@;
            while k < item
                invariant
                    k <= item,
                    self.context@ == ctx,
                    self.keys@.len() == if n >= k { n - k } else { 0 },
                    self.keys@ == old(self).keys@.take(self.keys@.len() as int),
                    n == old(self).keys@.len(),
                decreases item - k,
            {
                self.keys.pop();
                k = k + 1;
            }
            if self.context.value_keys.is_empty() {
                self.context.in_value = false;
            }
            proof {
                assert(final(self)@.keys =~= old(self)@.keys.take(final(self).keys@.len() as int));
            }
        } else if self.context.specifier_keys > 0 {
            let offset = self.context.table_keys as usize;
            let end = offset + self.context.specifier_keys as usize;
            let mut tail = self.keys.split_off(offset);
            let mut rest = tail.split_off(end - offset);
            self.keys.append(&mut rest);
            self.context.specifier_keys = 0;
            proof {
                assert(final(self)@.keys =~= old(self)@.keys.take(offset as int) + old(
                    self,
                )@.keys.skip(end as int));
            }
        } else if self.context.table_keys > 0 {
            self.keys.clear();
            self.context.table_keys = 0;
            proof {
                assert(final(self)@.keys =~= Seq::<SpecKey>::empty());
            }
        }
    }

    /// Drops every key.
    pub fn clear(&mut self)
        ensures
            final(self)@ == old(self)@.clear(),
    {
        self.keys.clear();
        self.context.value_keys.clear();
        self.context.specifier_keys = 0;
        self.context.table_keys = 0;
        proof {
            assert(final(self)@.keys =~= Seq::<SpecKey>::empty());
        }
    }

    /// Whether the chain is inside a value (it has value keys).
    pub fn in_value(&self) -> (r: bool)
        ensures
            r == (self@.ctx.value_keys.len() > 0),
    {
        !self.context.value_keys.is_empty()
    }
}

/// Whether `keys` are exactly the table, specifier and value keys that `ctx`
/// counts, each value level holding one key.
pub open spec fn keys_agree(keys: Seq<SpecKey>, ctx: SpecContext) -> bool {
    SpecChain { keys, ctx }.wf()
}

/// The number of keys the value levels `v` hold together.
pub open spec fn level_sum(v: Seq<u8>) -> nat
    decreases v.len(),
{
    if v.len() == 0 {
        0
    } else {
        level_sum(v.drop_last()) + (v.last() as nat)
    }
}

proof fn lemma_level_sum_last(v: Seq<u8>, x: u8)
    requires
        v.len() > 0,
    ensures
        level_sum(v.update(v.len() - 1, x)) == level_sum(v.drop_last()) + x,
{
    assert(v.update(v.len() - 1, x).drop_last() =~= v.drop_last());
}

/// Every operation on a key chain keeps it well formed: the counts of table,
/// specifier and value keys add up to the number of keys.
pub proof fn law_key_chain_wf(ch: SpecChain, k: SpecKey)
    requires
        ch.wf(),
    ensures
        SpecChain::empty().wf(),
        ch.ctx.table_keys < 255 ==> ch.push_table(k).wf(),
        ch.ctx.specifier_keys < 255 ==> ch.push_specifier(k).wf(),
        ch.push_value(k).wf(),
        ch.ctx.value_keys.len() > 0 && ch.ctx.value_keys.last() < 255 ==> ch.extend_value(k).wf(),
        ch.pop_whole().wf(),
        ch.clear().wf(),
{
    assert(SpecChain::empty().ctx.value_keys =~= Seq::<u8>::empty());
    let p = ch.push_value(k);
    assert(p.ctx.value_keys.drop_last() =~= ch.ctx.value_keys);
    assert forall|i: int| 0 <= i < p.ctx.value_keys.len() implies #[trigger] p.ctx.value_keys[i]
        >= 1 by {
        if i < ch.ctx.value_keys.len() {
            assert(p.ctx.value_keys[i] == ch.ctx.value_keys[i]);
        }
    }
    let v = ch.ctx.value_keys;
    if v.len() > 0 {
        assert(v[v.len() - 1] >= 1);
        if v.last() < 255 {
            lemma_level_sum_last(v, (v.last() + 1) as u8);
            let e = ch.extend_value(k);
            assert forall|i: int| 0 <= i < e.ctx.value_keys.len() implies #[trigger] e.ctx.value_keys[i]
                >= 1 by {
                if i < v.len() - 1 {
                    assert(e.ctx.value_keys[i] == v[i]);
                }
            }
        }
        if v.last() > 1 {
            lemma_level_sum_last(v, (v.last() - 1) as u8);
        }
    }
    let q = ch.pop_whole();
    assert forall|i: int| 0 <= i < q.ctx.value_keys.len() implies #[trigger] q.ctx.value_keys[i]
        >= 1 by {
        if v.len() > 0 && i < v.len() - 1 {
            assert(q.ctx.value_keys[i] == v[i]);
        } else if v.len() > 0 && i < v.len() {
            assert(v[i] >= 1);
        }
    }
    if v.len() > 0 && !ch.last_is_index() {
        assert(v[v.len() - 1] >= 1);
        assert(ch.keys.len() >= v.last());
    }
}

/// Popping a whole key right after pushing a value key gives the chain back:
/// always for an index, and for a name unless that name was the first value
/// key of a chain marked as inside a value.
pub proof fn law_pop_undoes_value_push(ch: SpecChain, k: SpecKey)
    requires
        ch.wf(),
        k is Index || ch.ctx.value_keys.len() > 0 || !ch.ctx.in_value,
    ensures
        ch.push_value(k).pop_whole() == ch,
{
    let p = ch.push_value(k);
    assert(p.keys.drop_last() =~= ch.keys);
    assert(p.keys.take(p.keys.len() - 1) =~= ch.keys);
    assert(p.ctx.value_keys.drop_last() =~= ch.ctx.value_keys);
    assert(p.ctx.value_keys.last() == 1);
    assert(p.ctx.value_keys.len() > 0);
}

/// The table keys, specifier keys and value keys that `ctx` marks in `keys`.
pub open spec fn spec_split(ctx: SpecContext, keys: Seq<SpecKey>) -> (Seq<SpecKey>, Seq<SpecKey>, Seq<SpecKey>) {
    let t = ctx.table_keys as int;
    let s = ctx.specifier_keys as int;
    (keys.take(t), keys.subrange(t, t + s), keys.skip(t + s))
}

impl TOMLKeyContext {
    /// Splits `on` into its table keys, its specifier keys, and the value
    /// keys grouped by `value_keys`.
    #[must_use]
    pub fn split_keys<'a, 'b, 'c>(&'c self, on: &'b [TOMLKey<'a>]) -> (r: (
        &'b [TOMLKey<'a>],
        &'b [TOMLKey<'a>],
        Partition<'b, 'c, TOMLKey<'a>>,
    ))
        requires
            self.table_keys + self.specifier_keys <= on@.len(),
        ensures
            r.0@ == on@.take(self.table_keys as int),
            r.1@ == on@.subrange(self.table_keys as int, self.table_keys + self.specifier_keys),
            r.2.items() == on@.skip(self.table_keys + self.specifier_keys),
            r.2.sizes() == self.value_keys@,
    {
        let t = self.table_keys as usize;
        let s = self.specifier_keys as usize;
        let table = &on[0..t];
        let rest = &on[t..on.len()];
        let specifier = &rest[0..s];
        let value = Partition::new(&rest[s..rest.len()], self.value_keys.as_slice());
        proof {
            assert(specifier@ =~= on@.subrange(t as int, t + s));
            assert(value.on@ =~= on@.skip(t + s));
        }
        (table, specifier, value)
    }
}

/// Splitting a chain gives back the whole chain: table keys, then specifier
/// keys, then value keys.
pub proof fn law_split_keys_concat(ctx: SpecContext, keys: Seq<SpecKey>)
    requires
        ctx.table_keys + ctx.specifier_keys <= keys.len(),
    ensures
        ({
            let (t, s, v) = spec_split(ctx, keys);
            t + s + v == keys
        }),
{
    let (t, s, v) = spec_split(ctx, keys);
    assert(t + s + v =~= keys);
}

/// Whether `chain` is exactly the names in `expecting`.
pub open spec fn spec_matches(expecting: Seq<Seq<char>>, chain: Seq<SpecKey>) -> bool {
    expecting.len() == chain.len() && forall|i: int|
        0 <= i < chain.len() ==> #[trigger] chain[i] == SpecKey::Slice(expecting[i])
}

/// Whether the chain is the names given, in order (an index never matches).
#[must_use]
pub fn matches(expecting: &[&str], chain: &[TOMLKey<'_>]) -> (r: bool)
    ensures
        r == spec_matches(expecting@.map_values(|s: &str| s@), keys_view(chain@)),
{
    let ghost ex = expecting@.map_values(|s: &str| s@);
    if expecting.len() != chain.len() {
        return false;
    }
    let mut i: usize = 0;
    while i < chain.len()
        invariant
            expecting@.len() == chain@.len(),
            i <= chain@.len(),
            ex == expecting@.map_values(|s: &str| s@),
            forall|j: int| 0 <= j < i ==> #[trigger] keys_view(chain@)[j] == SpecKey::Slice(ex[j]),
        decreases chain@.len() - i,
    {
        let ok = match chain[i] {
            TOMLKey::Slice(rhs) => crate::text::str_eq(expecting[i], rhs),
            TOMLKey::Index(_) => false,
        };
        if !ok {
            proof {
                assert(keys_view(chain@)[i as int] != SpecKey::Slice(ex[i as int]));
            }
            return false;
        }
        i = i + 1;
    }
    true
}

/// A structure for slices
pub struct Partition<'a, 'b, T> {
    pub(crate) on: &'a [T],
    pub(crate) points: &'b [u8],
}

impl<'a, 'b, T> Partition<'a, 'b, T> {
    /// The items being partitioned.
    pub closed spec fn items(&self) -> Seq<T> {
        self.on@
    }

    /// The chunk sizes.
    pub closed spec fn sizes(&self) -> Seq<u8> {
        self.points@
    }

    /// Partitions `on` by the chunk sizes `points`.
    pub fn new(on: &'a [T], points: &'b [u8]) -> (r: Self)
        ensures
            r.items() == on@,
            r.sizes() == points@,
    {
        Self { on, points }
    }

    /// All the items, unsplit.
    #[must_use]
    pub fn raw(&self) -> (r: &'a [T])
        ensures
            r@ == self.items(),
    {
        self.on
    }

    /// Walks the chunks from the first.
    #[must_use]
    pub fn iter(&self) -> (r: PartitionIter<'_, 'a, 'b, T>)
        ensures
            r.items() == self.items(),
            r.sizes() == self.sizes(),
            r.offset() == 0,
            r.chunk() == 0,
    {
        PartitionIter(self, 0, 0)
    }
}

/// Walks the chunks of a [`Partition`]: the partition, the number of chunks
/// handed out so far, and the offset where the next one starts.
pub struct PartitionIter<'a, 'b, 'c, T>(
    pub(crate) &'a Partition<'b, 'c, T>,
    pub(crate) usize,
    pub(crate) usize,
);

impl<'a, 'b, 'c, T> PartitionIter<'a, 'b, 'c, T> {
    pub closed spec fn items(&self) -> Seq<T> {
        self.0.on@
    }

    pub closed spec fn sizes(&self) -> Seq<u8> {
        self.0.points@
    }

    /// The number of chunks handed out so far.
    pub closed spec fn chunk(&self) -> int {
        self.1 as int
    }

    /// The offset of the next chunk (the sum of the chunk sizes so far).
    pub closed spec fn offset(&self) -> int {
        self.2 as int
    }

    /// The next chunk: `sizes[c]` items starting at offset `o`, where `c`
    /// chunks of sizes summing to `o` came before it.
    pub fn next(&mut self) -> (r: Option<&'b [T]>)
        requires
            old(self).chunk() < old(self).sizes().len() ==> old(self).offset() + old(self).sizes()[old(self).chunk()] <= old(self).items().len(),
        ensures
            final(self).items() == old(self).items(),
            final(self).sizes() == old(self).sizes(),
            old(self).chunk() < old(self).sizes().len() ==> {
                let o = old(self).offset();
                let n = old(self).sizes()[old(self).chunk()] as int;
                &&& r matches Some(chunk) && chunk@ == old(self).items().subrange(o, o + n)
                &&& final(self).offset() == o + n
                &&& final(self).chunk() == old(self).chunk() + 1
            },
            old(self).chunk() >= old(self).sizes().len() ==> r is None && final(self).offset() == old(self).offset()
                && final(self).chunk() == old(self).chunk(),
    {
        if self.1 >= self.0.points.len() {
            return None;
        }
        let chunk_size = self.0.points[self.1] as usize;
        let _ = self.0.on.len();
        let from = self.2;
        self.1 = self.1 + 1;
        self.2 = from + chunk_size;
        let chunk = &self.0.on[from..self.2];
        proof {
            assert(chunk@ =~= old(self).0.on@.subrange(from as int, from + chunk_size));
        }
        Some(chunk)
    }
}

/// `char::is_ascii_hexdigit`.
pub open spec fn is_hex(c: char) -> bool {
    ('0' <= c && c <= '9') || ('a' <= c && c <= 'f') || ('A' <= c && c <= 'F')
}

/// The value of a hex digit.
pub open spec fn hex_val(c: char) -> u32 {
    if '0' <= c && c <= '9' {
        (c as u32 - '0' as u32) as u32
    } else if 'a' <= c && c <= 'f' {
        (c as u32 - 'a' as u32 + 10) as u32
    } else {
        (c as u32 - 'A' as u32 + 10) as u32
    }
}

/// The `u32` that the hex digits `d` give, keeping the low 32 bits.
pub open spec fn hex_code(d: Seq<char>) -> u32
    decreases d.len(),
{
    if d.len() == 0 {
        0
    } else {
        (((hex_code(d.drop_last()) as int * 16) % 0x1_0000_0000) + hex_val(d.last())) as u32
    }
}

/// Index of the first char at or after `j` that is not a hex digit.
pub open spec fn first_non_hex(s: Seq<char>, j: int) -> Option<int>
    decreases s.len() - j,
{
    if j >= s.len() {
        None
    } else if !is_hex(s[j]) {
        Some(j)
    } else {
        first_non_hex(s, j + 1)
    }
}

/// Whether `u` is a Unicode scalar value.
pub open spec fn is_scalar_value(u: u32) -> bool {
    u <= 0xD7FF || (0xE000 <= u && u <= 0x10FFFF)
}

/// The escape sequence starting with the backslash at index `j`: what is
/// appended to `v`, and where the copying of plain text resumes. An escape
/// that is not decoded (an unknown char after the backslash, a `\u` whose
/// hex digits run to the end, a backslash at the end) leaves the copying
/// where it was, at `start`: the text since the last decoded escape is then
/// copied again.
pub open spec fn escape_step(s: Seq<char>, j: int, v: Seq<char>, start: int) -> (Seq<char>, int) {
    if j + 1 >= s.len() {
        (v, start)
    } else {
        let c = s[j + 1];
        if c == '\r' || c == '\n' {
            (v, j + 1 + lead_ws(s.subrange(j + 1, s.len() as int)))
        } else if c == 'n' {
            (v.push('\n'), j + 2)
        } else if c == 'r' {
            (v.push('\r'), j + 2)
        } else if c == 't' {
            (v.push('\t'), j + 2)
        } else if c == 'b' {
            (v.push('\u{8}'), j + 2)
        } else if c == 'f' {
            (v.push('\u{c}'), j + 2)
        } else if c == '\\' {
            (v.push('\\'), j + 2)
        } else if c == '"' {
            (v, j + 1)
        } else if c == 'u' {
            match first_non_hex(s, j + 2) {
                Some(h) => {
                    let digits = s.subrange(j + 2, h);
                    let code = hex_code(digits);
                    if is_scalar_value(code) {
                        (v.push(code as char), h)
                    } else {
                        (v + seq!['\\', 'u'] + digits, h)
                    }
                },
                None => (v, start),
            }
        } else {
            (v, start)
        }
    }
}

/// Decoding the escapes of `s` from index `j` on, with `v` decoded so far and
/// plain text to be copied from `start`.
pub open spec fn unescape_from(s: Seq<char>, j: int, v: Seq<char>, start: int) -> Seq<char>
    decreases s.len() - j,
{
    if j >= s.len() {
        v + s.subrange(start, s.len() as int)
    } else if s[j] != '\\' {
        unescape_from(s, j + 1, v, start)
    } else {
        let v1 = v + s.subrange(start, j);
        let (v2, start2) = escape_step(s, j, v1, start);
        let next = if start2 > j + 1 && start2 <= s.len() {
            start2
        } else {
            j + 1
        };
        unescape_from(s, next, v2, start2)
    }
}

/// What [`TOMLStringValue::value`] gives for a basic (non-literal) string.
pub open spec fn spec_unescape(s: Seq<char>) -> Seq<char> {
    unescape_from(s, 0, Seq::empty(), 0)
}

proof fn lemma_unescape_plain_from(s: Seq<char>, j: int, v: Seq<char>, start: int)
    requires
        0 <= start <= j <= s.len(),
        forall|k: int| 0 <= k < s.len() ==> s[k] != '\\',
    ensures
        unescape_from(s, j, v, start) == v + s.subrange(start, s.len() as int),
    decreases s.len() - j,
{
    if j < s.len() {
        lemma_unescape_plain_from(s, j + 1, v, start);
    }
}

proof fn lemma_first_non_hex_shift(a: Seq<char>, q: Seq<char>, m: int)
    requires
        0 <= m,
    ensures
        first_non_hex(a + q, a.len() + m) == match first_non_hex(q, m) {
            Some(h) => Some(a.len() + h),
            None => None,
        },
        first_non_hex(q, m) matches Some(h) ==> m <= h < q.len(),
    decreases q.len() - m,
{
    if m < q.len() {
        assert((a + q)[a.len() + m] == q[m]);
        lemma_first_non_hex_shift(a, q, m + 1);
    }
}

/// An escape step reads nothing before the backslash: after the text `a`
/// it does what it does on the rest alone, shifted.
proof fn lemma_escape_shift(a: Seq<char>, q: Seq<char>, j: int, v: Seq<char>, w: Seq<char>, st: int)
    requires
        0 <= st <= j < q.len(),
    ensures
        escape_step(a + q, a.len() + j, v + w, a.len() + st) == (
            v + escape_step(q, j, w, st).0,
            a.len() + escape_step(q, j, w, st).1,
        ),
        st <= escape_step(q, j, w, st).1 <= q.len(),
{
    let s = a + q;
    let n = a.len();
    if j + 1 < q.len() {
        assert(s[n + j + 1] == q[j + 1]);
        assert(s.subrange(n + j + 1, s.len() as int) =~= q.subrange(j + 1, q.len() as int));
        crate::text::lemma_lead_ws(q.subrange(j + 1, q.len() as int));
        lemma_first_non_hex_shift(a, q, j + 2);
        let c = q[j + 1];
        if c == '\n' {
            assert((v + w).push('\n') =~= v + w.push('\n'));
        } else if c == 'r' {
            assert((v + w).push('\r') =~= v + w.push('\r'));
        } else if c == 't' {
            assert((v + w).push('\t') =~= v + w.push('\t'));
        } else if c == 'b' {
            assert((v + w).push('\u{8}') =~= v + w.push('\u{8}'));
        } else if c == 'f' {
            assert((v + w).push('\u{c}') =~= v + w.push('\u{c}'));
        } else if c == '\\' {
            assert((v + w).push('\\') =~= v + w.push('\\'));
        } else if c == 'u' {
            match first_non_hex(q, j + 2) {
                Some(h) => {
                    assert(s.subrange(n + j + 2, n + h) =~= q.subrange(j + 2, h));
                    let digits = q.subrange(j + 2, h);
                    let code = hex_code(digits);
                    assert((v + w).push(code as char) =~= v + w.push(code as char));
                    assert((v + w) + seq!['\\', 'u'] + digits =~= v + (w + seq!['\\', 'u'] + digits));
                },
                None => {},
            }
        }
    }
}

/// Decoding after the text `a` goes on as decoding the rest alone would,
/// after what was decoded before.
proof fn lemma_unescape_shift(a: Seq<char>, q: Seq<char>, j: int, v: Seq<char>, w: Seq<char>, st: int)
    requires
        0 <= st <= j <= q.len(),
    ensures
        unescape_from(a + q, a.len() + j, v + w, a.len() + st) == v + unescape_from(q, j, w, st),
    decreases q.len() - j,
{
    let s = a + q;
    let n = a.len();
    if j >= q.len() {
        assert(s.subrange(n + st, s.len() as int) =~= q.subrange(st, q.len() as int));
        assert((v + w) + q.subrange(st, q.len() as int) =~= v + (w + q.subrange(st, q.len() as int)));
    } else {
        assert(s[n + j] == q[j]);
        if q[j] != '\\' {
            lemma_unescape_shift(a, q, j + 1, v, w, st);
        } else {
            assert(s.subrange(n + st, n + j) =~= q.subrange(st, j));
            let w1 = w + q.subrange(st, j);
            assert((v + w) + s.subrange(n + st, n + j) =~= v + w1);
            lemma_escape_shift(a, q, j, v, w1, st);
            let (w2, st2) = escape_step(q, j, w1, st);
            let next = if st2 > j + 1 && st2 <= q.len() {
                st2
            } else {
                j + 1
            };
            lemma_unescape_shift(a, q, next, v, w2, st2);
        }
    }
}

proof fn lemma_unescape_skip(s: Seq<char>, j: int, m: int, v: Seq<char>, st: int)
    requires
        0 <= j <= m <= s.len(),
        forall|k: int| j <= k < m ==> s[k] != '\\',
    ensures
        unescape_from(s, j, v, st) == unescape_from(s, m, v, st),
    decreases m - j,
{
    if j < m {
        lemma_unescape_skip(s, j + 1, m, v, st);
    }
}

/// A backslash at the end of a line of a basic string takes away the line
/// break (`\n` or `\r\n`) and the whitespace after it, and nothing else:
/// the text before it is kept once, and what follows decodes on its own.
pub proof fn law_line_ending_backslash(p: Seq<char>, nl: Seq<char>, ws: Seq<char>, q: Seq<char>)
    requires
        forall|k: int| 0 <= k < p.len() ==> p[k] != '\\',
        nl == seq!['\n'] || nl == seq!['\r', '\n'],
        all_ws(ws),
        q.len() == 0 || !char_is_whitespace(q[0]),
    ensures
        spec_unescape(p + seq!['\\'] + nl + ws + q) == p + spec_unescape(q),
{
    let a = p + seq!['\\'] + nl + ws;
    let s = a + q;
    let j0 = p.len() as int;
    assert(s =~= p + seq!['\\'] + nl + ws + q);
    assert forall|k: int| 0 <= k < j0 implies s[k] != '\\' by {
        assert(s[k] == p[k]);
    }
    lemma_unescape_skip(s, 0, j0, Seq::empty(), 0);
    assert(s[j0] == '\\');
    assert(Seq::<char>::empty() + s.subrange(0, j0) =~= p);
    assert(s[j0 + 1] == nl[0]);
    crate::text::lemma_line_breaks_are_whitespace();
    let x = nl + ws;
    assert(all_ws(x)) by {
        assert forall|i: int| 0 <= i < x.len() implies char_is_whitespace(#[trigger] x[i]) by {
            if i >= nl.len() {
                assert(x[i] == ws[i - nl.len()]);
            } else {
                assert(x[i] == nl[i]);
            }
        }
    }
    assert(s.subrange(j0 + 1, s.len() as int) =~= x + q);
    crate::text::lemma_lead_ws_prefix(x, q);
    assert(escape_step(s, j0, p, 0) == (p, a.len() as int));
    lemma_unescape_shift(a, q, 0, p, Seq::empty(), 0);
    assert(p + Seq::<char>::empty() =~= p);
}

/// The one-letter escapes decode to their char, and the text around them is
/// kept once: `\n` a line feed, `\r` a carriage return, `\t` a tab, `\b` a
/// backspace, `\f` a form feed and `\\` a backslash.
pub proof fn law_simple_escape(p: Seq<char>, x: char, q: Seq<char>)
    requires
        forall|k: int| 0 <= k < p.len() ==> p[k] != '\\',
    ensures
        x == 'n' ==> spec_unescape(p + seq!['\\', x] + q) == p + seq!['\n'] + spec_unescape(q),
        x == 'r' ==> spec_unescape(p + seq!['\\', x] + q) == p + seq!['\r'] + spec_unescape(q),
        x == 't' ==> spec_unescape(p + seq!['\\', x] + q) == p + seq!['\t'] + spec_unescape(q),
        x == 'b' ==> spec_unescape(p + seq!['\\', x] + q) == p + seq!['\u{8}'] + spec_unescape(q),
        x == 'f' ==> spec_unescape(p + seq!['\\', x] + q) == p + seq!['\u{c}'] + spec_unescape(q),
        x == '\\' ==> spec_unescape(p + seq!['\\', x] + q) == p + seq!['\\'] + spec_unescape(q),
{
    let a = p + seq!['\\', x];
    let s = a + q;
    let j0 = p.len() as int;
    assert(s =~= p + seq!['\\', x] + q);
    assert forall|k: int| 0 <= k < j0 implies s[k] != '\\' by {
        assert(s[k] == p[k]);
    }
    lemma_unescape_skip(s, 0, j0, Seq::empty(), 0);
    assert(s[j0] == '\\');
    assert(s[j0 + 1] == x);
    assert(Seq::<char>::empty() + s.subrange(0, j0) =~= p);
    if x == 'n' || x == 'r' || x == 't' || x == 'b' || x == 'f' || x == '\\' {
        let d = if x == 'n' {
            '\n'
        } else if x == 'r' {
            '\r'
        } else if x == 't' {
            '\t'
        } else if x == 'b' {
            '\u{8}'
        } else if x == 'f' {
            '\u{c}'
        } else {
            '\\'
        };
        assert(escape_step(s, j0, p, 0) == (p.push(d), a.len() as int));
        lemma_unescape_shift(a, q, 0, p.push(d), Seq::empty(), 0);
        assert(p.push(d) + Seq::<char>::empty() =~= p + seq![d]);
    }
}

/// A basic string with no backslash in it decodes to its raw text.
pub proof fn law_unescape_plain(s: Seq<char>)
    requires
        forall|k: int| 0 <= k < s.len() ==> s[k] != '\\',
    ensures
        spec_unescape(s) == s,
{
    lemma_unescape_plain_from(s, 0, Seq::empty(), 0);
    assert(Seq::<char>::empty() + s.subrange(0, s.len() as int) =~= s);
}

/// A `String` holding the chars of `v`.
pub fn chars_to_string(v: &Vec<char>) -> (r: String)
    ensures
        r@ == v@,
{
    let mut r = String::new();
    let mut i: usize = 0;
    while i < v.len()
        invariant
            i <= v@.len(),
            r@ == v@.take(i as int),
        decreases v@.len() - i,
    {
        string_push(&mut r, v[i]);
        i = i + 1;
        proof {
            assert(r@ =~= v@.take(i as int));
        }
    }
    proof {
        assert(r@ =~= v@);
    }
    r
}

fn push_range(out: &mut Vec<char>, s: &Vec<char>, a: usize, b: usize)
    requires
        a <= b <= s@.len(),
    ensures
        final(out)@ == old(out)@ + s@.subrange(a as int, b as int),
{
    let mut k = a;
    while k < b
        invariant
            a <= k <= b <= s@.len(),
            out@ == old(out)@ + s@.subrange(a as int, k as int),
        decreases b - k,
    {
        out.push(s[k]);
        k = k + 1;
        proof {
            assert(out@ =~= old(out)@ + s@.subrange(a as int, k as int));
        }
    }
}

fn hex_digit_value(c: char) -> (r: u32)
    requires
        is_hex(c),
    ensures
        r == hex_val(c),
        r < 16,
{
    let u = c as u32;
    if '0' <= c && c <= '9' {
        u - ('0' as u32)
    } else if 'a' <= c && c <= 'f' {
        u - ('a' as u32) + 10
    } else {
        u - ('A' as u32) + 10
    }
}

impl<'a> TOMLNumberValue<'a> {
    #[must_use]
    pub fn raw(&self) -> (r: &'a str)
        ensures
            r@ == self@,
    {
        self.0
    }

    /// The text the number is shown as when debugging: its raw text.
    pub fn debug_text(&self) -> (r: String)
        ensures
            r@ == self@,
    {
        self.0.to_owned()
    }
}

/// What `<str as Debug>::fmt` writes for `s`: its text in double quotes,
/// with quotes, backslashes and the chars it does not print escaped.
pub uninterp spec fn str_debug(s: Seq<char>) -> Seq<char>;

/// Formats `s` with `{:?}`, that is `<str as Debug>::fmt`; the result is
/// named `str_debug`.
#[verifier::external_body]
fn debug_str(s: &str) -> (r: String)
    ensures
        r@ == str_debug(s@),
{
    format!("{s:?}")
}

impl<'a> TOMLStringValue<'a> {
    #[must_use]
    pub fn is_literal(&self) -> (r: bool)
        ensures
            r == self@.1,
    {
        self.literal
    }

    #[must_use]
    pub fn raw(&self) -> (r: &'a str)
        ensures
            r@ == self@.0,
    {
        self.on
    }

    /// The text the string is shown as when debugging: a literal string's raw
    /// text in single quotes, any other string's raw text as `{:?}` shows it.
    pub fn debug_text(&self) -> (r: String)
        ensures
            r@ == if self@.1 {
                seq!['\''] + self@.0 + seq!['\'']
            } else {
                str_debug(self@.0)
            },
    {
        if self.literal {
            let mut out: Vec<char> = Vec::new();
            out.push('\'');
            push_str(&mut out, self.on);
            out.push('\'');
            proof {
                assert(out@ =~= seq!['\''] + self@.0 + seq!['\'']);
            }
            chars_to_string(&out)
        } else {
            debug_str(self.on)
        }
    }

    /// The string's value: for a literal string its text, otherwise its text
    /// with the escape sequences decoded.
    #[must_use]
    pub fn value(&self) -> (r: String)
        ensures
            r@ == if self@.1 {
                self@.0
            } else {
                spec_unescape(self@.0)
            },
    {
        if self.literal {
            return self.on.to_owned();
        }
        let s = str_to_chars(self.on);
        let n = s.len();
        let mut out: Vec<char> = Vec::new();
        let mut start: usize = 0;
        let mut j: usize = 0;
        while j < n
            invariant
                n == s@.len(),
                s@ == self@.0,
                j <= n,
                start <= j,
                unescape_from(s@, j as int, out@, start as int) == spec_unescape(s@),
            decreases n - j,
        {
            if s[j] == '\\' {
                push_range(&mut out, &s, start, j);
                let ghost v1 = out@;
                let ghost old_start = start;
                if j + 1 < n {
                    let c = s[j + 1];
                    if c == '\r' || c == '\n' {
                        let e = skip_ws_forward(&s, j + 1, n);
                        start = e;
                        proof {
                            crate::text::lemma_lead_ws(s@.subrange(j + 1, n as int));
                        }
                    } else if c == 'n' {
                        out.push('\n');
                        start = j + 2;
                    } else if c == 'r' {
                        out.push('\r');
                        start = j + 2;
                    } else if c == 't' {
                        out.push('\t');
                        start = j + 2;
                    } else if c == 'b' {
                        out.push('\u{8}');
                        start = j + 2;
                    } else if c == 'f' {
                        out.push('\u{c}');
                        start = j + 2;
                    } else if c == '\\' {
                        out.push('\\');
                        start = j + 2;
                    } else if c == '"' {
                        start = j + 1;
                    } else if c == 'u' {
                        let mut h = j + 2;
                        let mut code: u32 = 0;
                        while h < n && (('0' <= s[h] && s[h] <= '9') || ('a' <= s[h] && s[h] <= 'f') || ('A' <= s[h] && s[h] <= 'F'))
                            invariant
                                n == s@.len(),
                                j + 2 <= h <= n,
                                forall|m: int| j + 2 <= m < h ==> is_hex(#[trigger] s@[m]),
                                first_non_hex(s@, h as int) == first_non_hex(s@, j + 2),
                                code == hex_code(s@.subrange(j + 2, h as int)),
                            decreases n - h,
                        {
                            let d = hex_digit_value(s[h]);
                            proof {
                                assert(s@.subrange(j + 2, h + 1).drop_last() =~= s@.subrange(j + 2, h as int));
                                assert(((code % 0x1000_0000) * 16) == ((code as int * 16) % 0x1_0000_0000)) by (nonlinear_arith);
                            }
                            code = (code % 0x1000_0000) * 16 + d;
                            h = h + 1;
                        }
                        if h < n {
                            match char_from_u32(code) {
                                Some(ch) => {
                                    proof {
                                        vstd::utf8::char_u32_cast(ch, code);
                                    }
                                    out.push(ch);
                                },
                                None => {
                                    out.push('\\');
                                    out.push('u');
                                    push_range(&mut out, &s, j + 2, h);
                                    proof {
                                        assert(out@ =~= v1 + seq!['\\', 'u'] + s@.subrange(j + 2, h as int));
                                    }
                                },
                            }
                            start = h;
                        }
                    }
                }
                proof {
                    assert(escape_step(s@, j as int, v1, old_start as int) == (out@, start as int));
                }
                if start > j + 1 && start <= n {
                    j = start;
                } else {
                    j = j + 1;
                }
            } else {
                j = j + 1;
            }
        }
        push_range(&mut out, &s, start, n);
        chars_to_string(&out)
    }
}

/// Where a comment stands relative to the code around it.
#[derive(Debug, Copy, Clone, PartialEq, Eq, Hash)]
pub enum CommentPosition {
    AtEnd,
    AnnotatingNext,
    Standalone,
}

/// The last index before `to` where `s` holds `c`.
pub open spec fn rfind(s: Seq<char>, c: char, to: int) -> Option<int>
    decreases to,
{
    if to <= 0 {
        None
    } else if s[to - 1] == c {
        Some(to - 1)
    } else {
        rfind(s, c, to - 1)
    }
}

/// The first index at or after `from` where `s` holds `c`.
pub open spec fn find(s: Seq<char>, c: char, from: int) -> Option<int>
    decreases s.len() - from,
{
    if from >= s.len() {
        None
    } else if s[from] == c {
        Some(from)
    } else {
        find(s, c, from + 1)
    }
}

/// What [`get_comment_kind`] answers for the comment starting at char `start`
/// of `src`: after code on its line; on its own line (the first line too)
/// before a blank line; or on its own line, annotating what follows.
pub open spec fn spec_comment_kind(src: Seq<char>, start: int) -> CommentPosition {
    let h = rfind(src, '#', start).unwrap();
    let line_start = match rfind(src, '\n', h) {
        None => 0,
        Some(nl) => nl + 1,
    };
    if !all_ws(src.subrange(line_start, h)) {
        CommentPosition::AtEnd
    } else {
        match find(src, '\n', h) {
            None => CommentPosition::AnnotatingNext,
            Some(n1) => match find(src, '\n', n1 + 1) {
                None => CommentPosition::AnnotatingNext,
                Some(n2) => if all_ws(src.subrange(n1 + 1, n2)) {
                    CommentPosition::Standalone
                } else {
                    CommentPosition::AnnotatingNext
                },
            },
        }
    }
}

proof fn lemma_rfind_skip(s: Seq<char>, c: char, m: int, to: int)
    requires
        0 <= m <= to <= s.len(),
        forall|k: int| m <= k < to ==> s[k] != c,
    ensures
        rfind(s, c, to) == rfind(s, c, m),
    decreases to - m,
{
    if to > m {
        lemma_rfind_skip(s, c, m, to - 1);
    }
}

proof fn lemma_find_skip(s: Seq<char>, c: char, from: int, m: int)
    requires
        0 <= from <= m <= s.len(),
        forall|k: int| from <= k < m ==> s[k] != c,
    ensures
        find(s, c, from) == find(s, c, m),
    decreases m - from,
{
    if from < m {
        lemma_find_skip(s, c, from + 1, m);
    }
}

/// Where a comment stands, from the line it is on and the line after it: after
/// something other than whitespace on its line it is at the end of that line;
/// alone on its line, it stands alone when the next line holds only
/// whitespace (spaces, tabs, `\r`, ...), and annotates the next line
/// otherwise.
pub proof fn law_comment_kind_by_lines(
    before: Seq<char>,
    lead: Seq<char>,
    text: Seq<char>,
    next: Seq<char>,
    after: Seq<char>,
)
    requires
        before.len() == 0 || before.last() == '\n',
        forall|k: int| 0 <= k < lead.len() ==> lead[k] != '\n',
        forall|k: int| 0 <= k < text.len() ==> text[k] != '\n',
        forall|k: int| 0 <= k < next.len() ==> next[k] != '\n',
    ensures
        !all_ws(lead) ==> spec_comment_kind(
            before + lead + seq!['#'] + text + seq!['\n'] + next + seq!['\n'] + after,
            (before.len() + lead.len() + 1) as int,
        ) == CommentPosition::AtEnd,
        all_ws(lead) && all_ws(next) ==> spec_comment_kind(
            before + lead + seq!['#'] + text + seq!['\n'] + next + seq!['\n'] + after,
            (before.len() + lead.len() + 1) as int,
        ) == CommentPosition::Standalone,
        all_ws(lead) && !all_ws(next) ==> spec_comment_kind(
            before + lead + seq!['#'] + text + seq!['\n'] + next + seq!['\n'] + after,
            (before.len() + lead.len() + 1) as int,
        ) == CommentPosition::AnnotatingNext,
{
    let src = before + lead + seq!['#'] + text + seq!['\n'] + next + seq!['\n'] + after;
    let h: int = (before.len() + lead.len()) as int;
    let n1: int = h + 1 + text.len();
    let n2: int = n1 + 1 + next.len();
    assert(src[h] == '#');
    assert(rfind(src, '#', h + 1) == Some(h));
    assert forall|k: int| before.len() <= k < h implies src[k] != '\n' by {
        assert(src[k] == lead[k - before.len()]);
    }
    lemma_rfind_skip(src, '\n', before.len() as int, h);
    if before.len() > 0 {
        assert(src[before.len() - 1] == before.last());
    }
    assert(src.subrange(before.len() as int, h) =~= lead);
    assert forall|k: int| h <= k < n1 implies src[k] != '\n' by {
        if k > h {
            assert(src[k] == text[k - h - 1]);
        }
    }
    lemma_find_skip(src, '\n', h, n1);
    assert(src[n1] == '\n');
    assert forall|k: int| n1 + 1 <= k < n2 implies src[k] != '\n' by {
        assert(src[k] == next[k - n1 - 1]);
    }
    lemma_find_skip(src, '\n', n1 + 1, n2);
    assert(src[n2] == '\n');
    assert(src.subrange(n1 + 1, n2) =~= next);
}

/// A comment alone on the last line of the text, or on the line before a
/// last line that no line break ends, annotates what follows.
pub proof fn law_comment_kind_near_end(before: Seq<char>, lead: Seq<char>, text: Seq<char>, next: Seq<char>)
    requires
        before.len() == 0 || before.last() == '\n',
        all_ws(lead),
        forall|k: int| 0 <= k < lead.len() ==> lead[k] != '\n',
        forall|k: int| 0 <= k < text.len() ==> text[k] != '\n',
        forall|k: int| 0 <= k < next.len() ==> next[k] != '\n',
    ensures
        spec_comment_kind(before + lead + seq!['#'] + text, (before.len() + lead.len() + 1) as int)
            == CommentPosition::AnnotatingNext,
        spec_comment_kind(before + lead + seq!['#'] + text + seq!['\n'] + next, (before.len() + lead.len() + 1) as int)
            == CommentPosition::AnnotatingNext,
{
    let h: int = (before.len() + lead.len()) as int;
    let n1: int = h + 1 + text.len();
    let s1 = before + lead + seq!['#'] + text;
    let s2 = s1 + seq!['\n'] + next;
    assert(s1[h] == '#');
    assert(s2[h] == '#');
    assert(rfind(s1, '#', h + 1) == Some(h));
    assert(rfind(s2, '#', h + 1) == Some(h));
    assert forall|k: int| before.len() <= k < h implies s1[k] != '\n' && s2[k] != '\n' by {
        assert(s1[k] == lead[k - before.len()]);
        assert(s2[k] == lead[k - before.len()]);
    }
    lemma_rfind_skip(s1, '\n', before.len() as int, h);
    lemma_rfind_skip(s2, '\n', before.len() as int, h);
    if before.len() > 0 {
        assert(s1[before.len() - 1] == before.last());
        assert(s2[before.len() - 1] == before.last());
    }
    assert(s1.subrange(before.len() as int, h) =~= lead);
    assert(s2.subrange(before.len() as int, h) =~= lead);
    assert forall|k: int| h <= k < n1 implies s1[k] != '\n' && s2[k] != '\n' by {
        if k > h {
            assert(s1[k] == text[k - h - 1]);
            assert(s2[k] == text[k - h - 1]);
        }
    }
    lemma_find_skip(s1, '\n', h, n1);
    lemma_find_skip(s2, '\n', h, n1);
    assert(s2[n1] == '\n');
    assert forall|k: int| n1 + 1 <= k < s2.len() implies s2[k] != '\n' by {
        assert(s2[k] == next[k - n1 - 1]);
    }
    lemma_find_skip(s2, '\n', n1 + 1, s2.len() as int);
}

pub(crate) fn rfind_char(s: &Vec<char>, c: char, to: usize) -> (r: Option<usize>)
    requires
        to <= s@.len(),
    ensures
        match r {
            Some(i) => rfind(s@, c, to as int) == Some(i as int),
            None => rfind(s@, c, to as int) is None,
        },
{
    let mut k = to;
    while k > 0
        invariant
            k <= to <= s@.len(),
            rfind(s@, c, k as int) == rfind(s@, c, to as int),
        decreases k,
    {
        if s[k - 1] == c {
            return Some(k - 1);
        }
        k = k - 1;
    }
    None
}

pub(crate) fn find_char(s: &Vec<char>, c: char, from: usize) -> (r: Option<usize>)
    requires
        from <= s@.len(),
    ensures
        match r {
            Some(i) => find(s@, c, from as int) == Some(i as int) && i < s@.len(),
            None => find(s@, c, from as int) is None,
        },
{
    let mut k = from;
    while k < s.len()
        invariant
            from <= k <= s@.len(),
            find(s@, c, k as int) == find(s@, c, from as int),
        decreases s@.len() - k,
    {
        if s[k] == c {
            return Some(k);
        }
        k = k + 1;
    }
    None
}

/// Whether every char of `s[a..b]` is whitespace.
pub fn all_whitespace(s: &Vec<char>, a: usize, b: usize) -> (r: bool)
    requires
        a <= b <= s@.len(),
    ensures
        r == all_ws(s@.subrange(a as int, b as int)),
{
    let mut k = a;
    while k < b
        invariant
            a <= k <= b <= s@.len(),
            forall|m: int| a <= m < k ==> char_is_whitespace(#[trigger] s@[m]),
        decreases b - k,
    {
        if !is_whitespace(s[k]) {
            proof {
                assert(!char_is_whitespace(s@.subrange(a as int, b as int)[k - a]));
            }
            return false;
        }
        k = k + 1;
    }
    proof {
        assert forall|m: int| 0 <= m < b - a implies char_is_whitespace(
            #[trigger] s@.subrange(a as int, b as int)[m],
        ) by {
            assert(s@.subrange(a as int, b as int)[m] == s@[a + m]);
        }
    }
    true
}

pub(crate) proof fn lemma_rfind_bound(s: Seq<char>, c: char, to: int)
    requires
        0 <= to <= s.len(),
    ensures
        rfind(s, c, to) matches Some(i) ==> 0 <= i < to && s[i] == c,
    decreases to,
{
    if to > 0 && s[to - 1] != c {
        lemma_rfind_bound(s, c, to - 1);
    }
}

proof fn lemma_find_bound(s: Seq<char>, c: char, from: int)
    requires
        0 <= from,
    ensures
        find(s, c, from) matches Some(i) ==> from <= i < s.len() && s[i] == c,
    decreases s.len() - from,
{
    if from < s.len() && s[from] != c {
        lemma_find_bound(s, c, from + 1);
    }
}

/// Where the comment whose text starts at char index `comment_start` of
/// `source` stands.
#[must_use]
pub fn get_comment_kind(source: &str, comment_start: usize) -> (r: CommentPosition)
    requires
        comment_start <= source@.len(),
        rfind(source@, '#', comment_start as int) is Some,
    ensures
        r == spec_comment_kind(source@, comment_start as int),
{
    let src = str_to_chars(source);
    comment_kind_in(&src, comment_start)
}

/// Where the comment whose text starts at char index `comment_start` of
/// `src` stands.
pub(crate) fn comment_kind_in(src: &Vec<char>, comment_start: usize) -> (r: CommentPosition)
    requires
        comment_start <= src@.len(),
        rfind(src@, '#', comment_start as int) is Some,
    ensures
        r == spec_comment_kind(src@, comment_start as int),
{
    let len = src.len();
    let h = match rfind_char(src, '#', comment_start) {
        Some(h) => h,
        None => 0,
    };
    proof {
        lemma_rfind_bound(src@, '#', comment_start as int);
    }
    proof {
        lemma_rfind_bound(src@, '\n', h as int);
    }
    let line_start = match rfind_char(src, '\n', h) {
        None => 0,
        Some(nl) => nl + 1,
    };
    if !all_whitespace(src, line_start, h) {
        CommentPosition::AtEnd
    } else {
        match find_char(src, '\n', h) {
            None => CommentPosition::AnnotatingNext,
            Some(n1) => match find_char(src, '\n', n1 + 1) {
                None => CommentPosition::AnnotatingNext,
                Some(n2) => {
                    proof {
                        lemma_find_bound(src@, '\n', n1 + 1);
                    }
                    if all_whitespace(src, n1 + 1, n2) {
                        CommentPosition::Standalone
                    } else {
                        CommentPosition::AnnotatingNext
                    }
                },
            },
        }
    }
}

} // verus!
