//! An ordered in-memory table from string keys to byte values.
//!
//! The table keeps its entries in a vector, strictly ascending by key in
//! lexicographic order, so that no key occurs twice, a key is found by
//! bisection, and a walk over the vector visits the keys in order.

use crate::text::{
    lemma_lex_irreflexive, lemma_lex_le_lt, lemma_lex_transitive, lemma_lex_trichotomy, lex_le,
    lex_lt, str_relation, Relation,
};
use vstd::prelude::*;

verus! {

/// What the contracts see of one entry: the characters of its key and the
/// bytes of its value.
pub type EntryView = (Seq<char>, Seq<u8>);

/// Whether the keys of `es` ascend strictly.
pub open spec fn sorted(es: Seq<EntryView>) -> bool {
    forall|i: int, j: int| 0 <= i < j < es.len() ==> lex_lt(#[trigger] es[i].0, #[trigger] es[j].0)
}

/// Whether some entry of `es` has the key `k`.
pub open spec fn has_key(es: Seq<EntryView>, k: Seq<char>) -> bool {
    exists|i: int| 0 <= i < es.len() && #[trigger] es[i].0 == k
}

/// The position of an entry of `es` with the key `k`.
pub open spec fn position_of(es: Seq<EntryView>, k: Seq<char>) -> int {
    choose|i: int| 0 <= i < es.len() && #[trigger] es[i].0 == k
}

/// The map that the entries `es` stand for.
pub open spec fn to_map(es: Seq<EntryView>) -> Map<Seq<char>, Seq<u8>> {
    Map::new(|k: Seq<char>| has_key(es, k), |k: Seq<char>| es[position_of(es, k)].1)
}

/// In a sorted list a key stands at one position only.
pub proof fn lemma_sorted_unique(es: Seq<EntryView>, i: int, j: int)
    requires
        sorted(es),
        0 <= i < es.len(),
        0 <= j < es.len(),
        es[i].0 == es[j].0,
    ensures
        i == j,
{
    lemma_lex_irreflexive(es[i].0);
}

/// The map of a sorted list holds each entry of the list.
pub proof fn lemma_map_holds_entry(es: Seq<EntryView>, i: int)
    requires
        sorted(es),
        0 <= i < es.len(),
    ensures
        to_map(es).contains_key(es[i].0),
        to_map(es)[es[i].0] == es[i].1,
{
    let k = es[i].0;
    assert(has_key(es, k));
    lemma_sorted_unique(es, i, position_of(es, k));
}

/// Putting a new key at the place that keeps the order adds it to the map.
pub proof fn lemma_insert_at(es: Seq<EntryView>, at: int, e: EntryView)
    requires
        sorted(es),
        0 <= at <= es.len(),
        forall|j: int| 0 <= j < at ==> lex_lt(#[trigger] es[j].0, e.0),
        forall|j: int| at <= j < es.len() ==> lex_lt(e.0, #[trigger] es[j].0),
    ensures
        sorted(es.insert(at, e)),
        to_map(es.insert(at, e)) == to_map(es).insert(e.0, e.1),
{
    let es2 = es.insert(at, e);
    assert forall|i: int, j: int| 0 <= i < j < es2.len() implies lex_lt(
        #[trigger] es2[i].0,
        #[trigger] es2[j].0,
    ) by {
        let a = if i < at { i } else { i - 1 };
        let b = if j < at { j } else { j - 1 };
        if i != at && j != at {
            assert(es2[i] == es[a] && es2[j] == es[b]);
        } else if i == at {
            assert(es2[j] == es[b]);
        } else {
            assert(es2[i] == es[a]);
        }
    }
    let m2 = to_map(es2);
    let m = to_map(es).insert(e.0, e.1);
    assert forall|k: Seq<char>| m2.contains_key(k) == m.contains_key(k) by {
        if has_key(es2, k) {
            let p = position_of(es2, k);
            if p != at {
                let q = if p < at { p } else { p - 1 };
                assert(es[q].0 == k);
            }
        }
        if has_key(es, k) {
            let p = position_of(es, k);
            let q = if p < at { p } else { p + 1 };
            assert(es2[q].0 == k);
        }
        if k == e.0 {
            assert(es2[at].0 == k);
        }
    }
    assert forall|k: Seq<char>| m2.contains_key(k) implies m2[k] == m[k] by {
        let p = position_of(es2, k);
        lemma_map_holds_entry(es2, p);
        if p != at {
            let q = if p < at { p } else { p - 1 };
            assert(es[q] == es2[p]);
            lemma_map_holds_entry(es, q);
            lemma_lex_irreflexive(k);
        }
    }
    assert(m2 =~= m);
}

/// Replacing the value of an entry replaces it in the map.
pub proof fn lemma_update_at(es: Seq<EntryView>, at: int, v: Seq<u8>)
    requires
        sorted(es),
        0 <= at < es.len(),
    ensures
        sorted(es.update(at, (es[at].0, v))),
        to_map(es.update(at, (es[at].0, v))) == to_map(es).insert(es[at].0, v),
{
    let key = es[at].0;
    let es2 = es.update(at, (key, v));
    assert forall|i: int, j: int| 0 <= i < j < es2.len() implies lex_lt(
        #[trigger] es2[i].0,
        #[trigger] es2[j].0,
    ) by {
        assert(es2[i].0 == es[i].0 && es2[j].0 == es[j].0);
    }
    let m2 = to_map(es2);
    let m = to_map(es).insert(key, v);
    assert forall|k: Seq<char>| m2.contains_key(k) == m.contains_key(k) by {
        if has_key(es2, k) {
            let p = position_of(es2, k);
            assert(es[p].0 == k);
        }
        if has_key(es, k) {
            let p = position_of(es, k);
            assert(es2[p].0 == k);
        }
    }
    assert forall|k: Seq<char>| m2.contains_key(k) implies m2[k] == m[k] by {
        let p = position_of(es2, k);
        lemma_map_holds_entry(es2, p);
        if p != at {
            assert(es[p] == es2[p]);
            lemma_map_holds_entry(es, p);
            lemma_sorted_unique(es, p, if k == key { at } else { p });
        }
    }
    assert(m2 =~= m);
}

/// Taking an entry out takes its key out of the map.
pub proof fn lemma_remove_at(es: Seq<EntryView>, at: int)
    requires
        sorted(es),
        0 <= at < es.len(),
    ensures
        sorted(es.remove(at)),
        to_map(es.remove(at)) == to_map(es).remove(es[at].0),
{
    let key = es[at].0;
    let es2 = es.remove(at);
    assert forall|i: int, j: int| 0 <= i < j < es2.len() implies lex_lt(
        #[trigger] es2[i].0,
        #[trigger] es2[j].0,
    ) by {
        let a = if i < at { i } else { i + 1 };
        let b = if j < at { j } else { j + 1 };
        assert(es2[i] == es[a] && es2[j] == es[b]);
    }
    let m2 = to_map(es2);
    let m = to_map(es).remove(key);
    assert forall|k: Seq<char>| m2.contains_key(k) == m.contains_key(k) by {
        if has_key(es2, k) {
            let p = position_of(es2, k);
            let q = if p < at { p } else { p + 1 };
            assert(es[q].0 == k);
            lemma_sorted_unique(es, q, if k == key { at } else { q });
        }
        if has_key(es, k) && k != key {
            let p = position_of(es, k);
            let q = if p < at { p } else { p - 1 };
            assert(es2[q].0 == k);
        }
    }
    assert forall|k: Seq<char>| m2.contains_key(k) implies m2[k] == m[k] by {
        let p = position_of(es2, k);
        lemma_map_holds_entry(es2, p);
        let q = if p < at { p } else { p + 1 };
        assert(es[q] == es2[p]);
        lemma_map_holds_entry(es, q);
    }
    assert(m2 =~= m);
}

/// A sorted list is the only sorted list of its map: two sorted lists that
/// stand for the same map are equal.
pub proof fn lemma_sorted_listing_unique(a: Seq<EntryView>, b: Seq<EntryView>)
    requires
        sorted(a),
        sorted(b),
        to_map(a) == to_map(b),
    ensures
        a == b,
    decreases a.len(),
{
    if a.len() == 0 {
        if b.len() > 0 {
            lemma_map_holds_entry(b, 0);
            assert(has_key(a, b[0].0));
        }
        assert(a =~= b);
    } else {
        let n = a.len() - 1;
        lemma_map_holds_entry(a, n);
        assert(has_key(b, a[n].0));
        let p = position_of(b, a[n].0);
        lemma_map_holds_entry(b, p);
        if p != b.len() - 1 {
            // the last key of `b` would lie past the last key of `a`
            let last = b.len() - 1;
            lemma_map_holds_entry(b, last);
            assert(has_key(a, b[last].0));
            let q = position_of(a, b[last].0);
            if q != n {
                lemma_lex_transitive(a[q].0, a[n].0, b[last].0);
            }
            lemma_lex_irreflexive(b[last].0);
        }
        lemma_remove_at(a, n);
        lemma_remove_at(b, p);
        lemma_sorted_listing_unique(a.remove(n), b.remove(p));
        assert(a =~= a.remove(n).push(a[n]));
        assert(b =~= b.remove(p).push(b[p]));
    }
}

/// An ordered table from string keys to byte values.
#[derive(Debug)]
pub struct Table {
    entries: Vec<(String, Vec<u8>)>,
}

impl View for Table {
    type V = Map<Seq<char>, Seq<u8>>;

    /// The table as a map.
    open spec fn view(&self) -> Map<Seq<char>, Seq<u8>> {
        to_map(self.entries())
    }
}

impl Clone for Table {
    fn clone(&self) -> (t: Self)
        ensures
            t.entries() == self.entries(),
            t.wf(),
    {
        proof {
            use_type_invariant(self);
        }
        let mut entries: Vec<(String, Vec<u8>)> = Vec::new();
        let mut i: usize = 0;
        while i < self.entries.len()
            invariant
                i <= self.entries@.len(),
                entries@.len() == i,
                forall|j: int|
                    0 <= j < i ==> entries@[j].0@ == self.entries@[j].0@ && entries@[j].1@
                        == self.entries@[j].1@,
            decreases self.entries.len() - i,
        {
            let key = self.entries[i].0.clone();
            let value = self.entries[i].1.clone();
            entries.push((key, value));
            i = i + 1;
        }
        assert(Seq::new(entries@.len(), |i: int| (entries@[i].0@, entries@[i].1@))
            =~= self.entries());
        Table { entries }
    }
}

impl Table {
    /// The entries in the order of their keys.
    pub closed spec fn entries(&self) -> Seq<EntryView> {
        Seq::new(self.entries@.len(), |i: int| (self.entries@[i].0@, self.entries@[i].1@))
    }

    /// The invariant of every table: the keys ascend strictly.
    #[verifier::type_invariant]
    pub open spec fn wf(&self) -> bool {
        sorted(self.entries())
    }

    /// An empty table.
    pub fn new() -> (t: Table)
        ensures
            t.entries() == Seq::<EntryView>::empty(),
            t@ == Map::<Seq<char>, Seq<u8>>::empty(),
            t.wf(),
    {
        let t = Table { entries: Vec::new() };
        assert(t.entries() =~= Seq::<EntryView>::empty());
        assert(t@ =~= Map::<Seq<char>, Seq<u8>>::empty());
        t
    }

    /// The number of entries.
    pub fn len(&self) -> (n: usize)
        ensures
            n == self.entries().len(),
    {
        self.entries.len()
    }

    /// The key of the entry at position `i`.
    pub fn key_at(&self, i: usize) -> (k: &String)
        requires
            i < self.entries().len(),
        ensures
            k@ == self.entries()[i as int].0,
    {
        &self.entries[i].0
    }

    /// The value of the entry at position `i`.
    pub fn value_at(&self, i: usize) -> (v: &Vec<u8>)
        requires
            i < self.entries().len(),
        ensures
            v@ == self.entries()[i as int].1,
    {
        &self.entries[i].1
    }

    /// The first position whose key is not before `key`: every entry before
    /// it has a smaller key, every entry from it on has `key` or a larger one.
    pub fn lower_bound(&self, key: &str) -> (at: usize)
        ensures
            at <= self.entries().len(),
            forall|j: int| 0 <= j < at ==> lex_lt(#[trigger] self.entries()[j].0, key@),
            forall|j: int|
                at <= j < self.entries().len() ==> lex_le(key@, #[trigger] self.entries()[j].0),
    {
        proof {
            use_type_invariant(self);
        }
        let ghost es = self.entries();
        let mut lo: usize = 0;
        let mut hi: usize = self.entries.len();
        while lo < hi
            invariant
                es == self.entries(),
                sorted(es),
                lo <= hi <= es.len(),
                forall|j: int| 0 <= j < lo ==> lex_lt(#[trigger] es[j].0, key@),
                forall|j: int| hi <= j < es.len() ==> lex_le(key@, #[trigger] es[j].0),
            decreases hi - lo,
        {
            let mid = lo + (hi - lo) / 2;
            let rel = str_relation(self.entries[mid].0.as_str(), key);
            assert(es[mid as int].0 == self.entries@[mid as int].0@);
            if rel == Relation::Less {
                assert forall|j: int| 0 <= j < mid + 1 implies lex_lt(#[trigger] es[j].0, key@) by {
                    if j < mid {
                        lemma_lex_transitive(es[j].0, es[mid as int].0, key@);
                    }
                }
                lo = mid + 1;
            } else {
                assert forall|j: int| mid <= j < es.len() implies lex_le(
                    key@,
                    #[trigger] es[j].0,
                ) by {
                    lemma_lex_trichotomy(es[mid as int].0, key@);
                    if j > mid && key@ != es[mid as int].0 {
                        lemma_lex_transitive(key@, es[mid as int].0, es[j].0);
                    }
                }
                hi = mid;
            }
        }
        lo
    }

    /// The position of `key`, where the table holds it.
    pub fn find(&self, key: &str) -> (r: Option<usize>)
        ensures
            match r {
                Some(i) => i < self.entries().len() && self.entries()[i as int].0 == key@,
                None => !has_key(self.entries(), key@),
            },
            r is Some == self@.contains_key(key@),
    {
        proof {
            use_type_invariant(self);
        }
        let at = self.lower_bound(key);
        let ghost es = self.entries();
        if at < self.entries.len() {
            let rel = str_relation(self.entries[at].0.as_str(), key);
            assert(es[at as int].0 == self.entries@[at as int].0@);
            if rel == Relation::Equal {
                return Some(at);
            }
        }
        proof {
            if has_key(es, key@) {
                let p = position_of(es, key@);
                lemma_lex_irreflexive(key@);
                if p > at {
                    lemma_lex_le_lt(key@, es[at as int].0, es[p].0);
                }
            }
        }
        None
    }

    /// The value under `key`, where the table holds one.
    pub fn get(&self, key: &str) -> (r: Option<&Vec<u8>>)
        ensures
            match r {
                Some(v) => self@.contains_key(key@) && self@[key@] == v@,
                None => !self@.contains_key(key@),
            },
    {
        proof {
            use_type_invariant(self);
        }
        match self.find(key) {
            Some(i) => {
                proof {
                    lemma_map_holds_entry(self.entries(), i as int);
                }
                Some(&self.entries[i].1)
            },
            None => None,
        }
    }

    /// Puts `value` under `key` and returns the value that was there before,
    /// if there was one.
    pub fn insert(&mut self, key: String, value: Vec<u8>) -> (r: Option<Vec<u8>>)
        ensures
            final(self)@ == old(self)@.insert(key@, value@),
            match r {
                Some(v) => old(self)@.contains_key(key@) && old(self)@[key@] == v@,
                None => !old(self)@.contains_key(key@),
            },
            final(self).wf(),
    {
        proof {
            use_type_invariant(&*self);
        }
        let ghost es = self.entries();
        let at = self.lower_bound(key.as_str());
        let mut present = false;
        if at < self.entries.len() {
            let rel = str_relation(self.entries[at].0.as_str(), key.as_str());
            assert(es[at as int].0 == self.entries@[at as int].0@);
            present = rel == Relation::Equal;
        }
        if present {
            proof {
                lemma_map_holds_entry(es, at as int);
                lemma_update_at(es, at as int, value@);
            }
            let mut entries = Vec::new();
            std::mem::swap(&mut entries, &mut self.entries);
            let mut fresh = (key, value);
            std::mem::swap(&mut fresh, &mut entries[at]);
            assert(Seq::new(entries@.len(), |i: int| (entries@[i].0@, entries@[i].1@)) =~= es.update(
                at as int,
                (key@, value@),
            ));
            self.entries = entries;
            Some(fresh.1)
        } else {
            proof {
                assert forall|j: int| at <= j < es.len() implies lex_lt(
                    key@,
                    #[trigger] es[j].0,
                ) by {
                    lemma_lex_trichotomy(key@, es[j].0);
                    if j > at {
                        lemma_lex_le_lt(key@, es[at as int].0, es[j].0);
                    }
                }
                lemma_insert_at(es, at as int, (key@, value@));
                if has_key(es, key@) {
                    let p = position_of(es, key@);
                    lemma_lex_irreflexive(key@);
                }
            }
            let mut entries = Vec::new();
            std::mem::swap(&mut entries, &mut self.entries);
            entries.insert(at, (key, value));
            assert(Seq::new(entries@.len(), |i: int| (entries@[i].0@, entries@[i].1@)) =~= es.insert(
                at as int,
                (key@, value@),
            ));
            self.entries = entries;
            None
        }
    }

    /// Takes `key` out of the table and returns the value that was under it,
    /// if there was one.
    pub fn remove(&mut self, key: &str) -> (r: Option<Vec<u8>>)
        ensures
            final(self)@ == old(self)@.remove(key@),
            match r {
                Some(v) => old(self)@.contains_key(key@) && old(self)@[key@] == v@,
                None => !old(self)@.contains_key(key@),
            },
            final(self).wf(),
    {
        proof {
            use_type_invariant(&*self);
        }
        let ghost es = self.entries();
        match self.find(key) {
            Some(at) => {
                proof {
                    lemma_map_holds_entry(es, at as int);
                    lemma_remove_at(es, at as int);
                }
                let mut entries = Vec::new();
                std::mem::swap(&mut entries, &mut self.entries);
                let gone = entries.remove(at);
                assert(Seq::new(entries@.len(), |i: int| (entries@[i].0@, entries@[i].1@))
                    =~= es.remove(at as int));
                self.entries = entries;
                Some(gone.1)
            },
            None => {
                assert(self@ =~= self@.remove(key@));
                None
            },
        }
    }
}

} // verus!
