//! A small map keyed by key chains, kept as a list of distinct entries.
use vstd::prelude::*;

use crate::{keys_view, SpecKey, TOMLKey};

verus! {

/// The map that a list of entries stands for: later entries win.
pub open spec fn entries_map<V>(es: Seq<(Seq<SpecKey>, V)>) -> Map<Seq<SpecKey>, V>
    decreases es.len(),
{
    if es.len() == 0 {
        Map::empty()
    } else {
        entries_map(es.drop_last()).insert(es.last().0, es.last().1)
    }
}

/// No two entries have the same key.
pub open spec fn distinct_keys<V>(es: Seq<(Seq<SpecKey>, V)>) -> bool {
    forall|i: int, j: int| 0 <= i < j < es.len() ==> #[trigger] es[i].0 != #[trigger] es[j].0
}

pub proof fn lemma_entries_map<V>(es: Seq<(Seq<SpecKey>, V)>, k: Seq<SpecKey>)
    requires
        distinct_keys(es),
    ensures
        entries_map(es).dom().contains(k) <==> exists|i: int| 0 <= i < es.len() && es[i].0 == k,
        forall|i: int| 0 <= i < es.len() && es[i].0 == k ==> entries_map(es)[k] == es[i].1,
    decreases es.len(),
{
    if es.len() > 0 {
        let d = es.drop_last();
        assert(distinct_keys(d)) by {
            assert forall|i: int, j: int| 0 <= i < j < d.len() implies #[trigger] d[i].0 != #[trigger] d[j].0 by {
                assert(d[i] == es[i] && d[j] == es[j]);
            }
        }
        lemma_entries_map(d, k);
        if exists|i: int| 0 <= i < d.len() && d[i].0 == k {
            let i = choose|i: int| 0 <= i < d.len() && d[i].0 == k;
            assert(es[i].0 == k);
        }
        if exists|i: int| 0 <= i < es.len() && es[i].0 == k {
            let i = choose|i: int| 0 <= i < es.len() && es[i].0 == k;
            if i < es.len() - 1 {
                assert(d[i].0 == k);
            }
        }
        assert forall|i: int| 0 <= i < es.len() && es[i].0 == k implies entries_map(es)[k] == es[i].1 by {
            if i < es.len() - 1 {
                assert(d[i] == es[i]);
                assert(es[i].0 != es[es.len() - 1].0);
            }
        }
    }
}

proof fn lemma_entries_update<V>(es: Seq<(Seq<SpecKey>, V)>, i: int, v: V)
    requires
        distinct_keys(es),
        0 <= i < es.len(),
    ensures
        entries_map(es.update(i, (es[i].0, v))) == entries_map(es).insert(es[i].0, v),
        distinct_keys(es.update(i, (es[i].0, v))),
    decreases es.len(),
{
    let es2 = es.update(i, (es[i].0, v));
    assert(distinct_keys(es2)) by {
        assert forall|a: int, b: int| 0 <= a < b < es2.len() implies #[trigger] es2[a].0 != #[trigger] es2[b].0 by {
            assert(es2[a].0 == es[a].0 && es2[b].0 == es[b].0);
        }
    }
    let k = es[i].0;
    assert forall|x: Seq<SpecKey>| true implies #[trigger] entries_map(es2).dom().contains(x) == entries_map(es).insert(k, v).dom().contains(x) by {
        lemma_entries_map(es2, x);
        lemma_entries_map(es, x);
        if exists|j: int| 0 <= j < es.len() && es[j].0 == x {
            let j = choose|j: int| 0 <= j < es.len() && es[j].0 == x;
            assert(es2[j].0 == x);
        }
        if exists|j: int| 0 <= j < es2.len() && es2[j].0 == x {
            let j = choose|j: int| 0 <= j < es2.len() && es2[j].0 == x;
            assert(es[j].0 == x);
        }
    }
    assert forall|x: Seq<SpecKey>| entries_map(es2).dom().contains(x) implies #[trigger] entries_map(es2)[x] == entries_map(es).insert(k, v)[x] by {
        lemma_entries_map(es2, x);
        lemma_entries_map(es, x);
        let j = choose|j: int| 0 <= j < es2.len() && es2[j].0 == x;
        if j != i {
            assert(es2[j] == es[j]);
            assert(es[j].0 != k);
        }
    }
    assert(entries_map(es2) =~= entries_map(es).insert(k, v));
}

/// A map from key chains to values.
#[derive(Debug)]
pub struct KeyMap<'a, V> {
    pub(crate) entries: Vec<(Vec<TOMLKey<'a>>, V)>,
}

impl<'a, V: Copy> KeyMap<'a, V> {
    pub closed spec fn spec_entries(&self) -> Seq<(Seq<SpecKey>, V)> {
        self.entries@.map_values(|e: (Vec<TOMLKey<'a>>, V)| (keys_view(e.0@), e.1))
    }

    /// The map's contents.
    pub closed spec fn view_map(&self) -> Map<Seq<SpecKey>, V> {
        entries_map(self.spec_entries())
    }

    pub closed spec fn wf(&self) -> bool {
        distinct_keys(self.spec_entries())
    }

    pub fn new() -> (r: Self)
        ensures
            r.wf(),
            r.view_map() == Map::<Seq<SpecKey>, V>::empty(),
    {
        let r = KeyMap { entries: Vec::new() };
        proof {
            assert(r.spec_entries() =~= Seq::<(Seq<SpecKey>, V)>::empty());
        }
        r
    }

    fn find(&self, k: &[TOMLKey<'_>]) -> (r: Option<usize>)
        requires
            self.wf(),
        ensures
            match r {
                Some(i) => i < self.entries@.len() && self.spec_entries()[i as int].0 == keys_view(k@),
                None => !self.view_map().dom().contains(keys_view(k@)),
            },
    {
        let mut i: usize = 0;
        while i < self.entries.len()
            invariant
                i <= self.entries@.len(),
                forall|j: int| 0 <= j < i ==> self.spec_entries()[j].0 != keys_view(k@),
            decreases self.entries@.len() - i,
        {
            if keys_eq(self.entries[i].0.as_slice(), k) {
                return Some(i);
            }
            i = i + 1;
        }
        proof {
            lemma_entries_map(self.spec_entries(), keys_view(k@));
        }
        None
    }

    /// The value for `k`, if any.
    pub fn get(&self, k: &[TOMLKey<'_>]) -> (r: Option<V>)
        requires
            self.wf(),
        ensures
            r == if self.view_map().dom().contains(keys_view(k@)) {
                Some(self.view_map()[keys_view(k@)])
            } else {
                None
            },
    {
        match self.find(k) {
            Some(i) => {
                proof {
                    lemma_entries_map(self.spec_entries(), keys_view(k@));
                }
                Some(self.entries[i].1)
            },
            None => None,
        }
    }

    /// Sets the value for `k`.
    pub fn set(&mut self, k: &[TOMLKey<'a>], v: V)
        requires
            old(self).wf(),
        ensures
            final(self).wf(),
            final(self).view_map() == old(self).view_map().insert(keys_view(k@), v),
    {
        match self.find(k) {
            Some(i) => {
                let ghost es = self.spec_entries();
                let key = crate::parser::copy_keys(self.entries[i].0.as_slice());
                self.entries.set(i, (key, v));
                proof {
                    assert(self.spec_entries() =~= es.update(i as int, (es[i as int].0, v)));
                    lemma_entries_update(es, i as int, v);
                }
            },
            None => {
                let ghost es = self.spec_entries();
                let key = crate::parser::copy_keys(k);
                self.entries.push((key, v));
                proof {
                    let es2 = self.spec_entries();
                    assert(es2 =~= es.push((keys_view(k@), v)));
                    assert(es2.drop_last() =~= es);
                    lemma_entries_map(es, keys_view(k@));
                    assert forall|a: int, b: int| 0 <= a < b < es2.len() implies #[trigger] es2[a].0 != #[trigger] es2[b].0 by {
                        if b == es2.len() - 1 {
                            assert(es2[a] == es[a]);
                            if es[a].0 == keys_view(k@) {
                                assert(entries_map(es).dom().contains(keys_view(k@)));
                            }
                        } else {
                            assert(es2[a] == es[a] && es2[b] == es[b]);
                        }
                    }
                }
            },
        }
    }
}

/// Whether two key chains are equal.
pub fn keys_eq(a: &[TOMLKey<'_>], b: &[TOMLKey<'_>]) -> (r: bool)
    ensures
        r == (keys_view(a@) == keys_view(b@)),
{
    if a.len() != b.len() {
        proof {
            assert(keys_view(a@).len() != keys_view(b@).len());
        }
        return false;
    }
    let mut i: usize = 0;
    while i < a.len()
        invariant
            a@.len() == b@.len(),
            i <= a@.len(),
            forall|j: int| 0 <= j < i ==> keys_view(a@)[j] == keys_view(b@)[j],
        decreases a@.len() - i,
    {
        if !a[i].key_eq(&b[i]) {
            proof {
                assert(keys_view(a@)[i as int] != keys_view(b@)[i as int]);
            }
            return false;
        }
        i = i + 1;
    }
    proof {
        assert(keys_view(a@) =~= keys_view(b@));
    }
    true
}

} // verus!
