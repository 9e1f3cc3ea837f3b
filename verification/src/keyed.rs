//! A small table keyed by text, with each key at most once.
//!
//! The thumbnail cache keys its bookkeeping by asset path. The table keeps
//! its entries in a vector, in the order keys were first inserted; lookups
//! are linear, which at the few hundred entries a thumbnail atlas holds is
//! cheaper than hashing the path.

use vstd::prelude::*;
use crate::text::encoding::str_equals;

verus! {

/// The map an entry list denotes, later entries overriding earlier ones.
pub open spec fn entries_map<V>(entries: Seq<(String, V)>) -> Map<Seq<char>, V>
    decreases entries.len(),
{
    if entries.len() == 0 {
        Map::empty()
    } else {
        entries_map(entries.drop_last()).insert(entries.last().0@, entries.last().1)
    }
}

/// Whether no two entries share a key.
pub open spec fn distinct_keys<V>(entries: Seq<(String, V)>) -> bool {
    forall|i: int, j: int|
        0 <= i < j < entries.len() ==> #[trigger] entries[i].0@ != #[trigger] entries[j].0@
}

/// How many keys of `m` have a value `pred` accepts.
pub open spec fn count_where<V>(m: Map<Seq<char>, V>, pred: spec_fn(V) -> bool) -> nat {
    m.dom().filter(|k: Seq<char>| pred(m[k])).len()
}

/// How many entries have a value `pred` accepts.
pub open spec fn count_entries<V>(entries: Seq<(String, V)>, pred: spec_fn(V) -> bool) -> nat
    decreases entries.len(),
{
    if entries.len() == 0 {
        0
    } else {
        count_entries(entries.drop_last(), pred) + if pred(entries.last().1) {
            1nat
        } else {
            0nat
        }
    }
}

pub proof fn lemma_entries_map_lookup<V>(entries: Seq<(String, V)>)
    requires
        distinct_keys(entries),
    ensures
        forall|k: Seq<char>|
            #[trigger] entries_map(entries).contains_key(k) <==> exists|i: int|
                0 <= i < entries.len() && entries[i].0@ == k,
        forall|i: int|
            0 <= i < entries.len() ==> #[trigger] entries_map(entries)[entries[i].0@] == entries[i].1,
        entries_map(entries).dom().finite(),
        entries_map(entries).dom().len() == entries.len(),
    decreases entries.len(),
{
    if entries.len() > 0 {
        let rest = entries.drop_last();
        lemma_entries_map_lookup(rest);
        let last = entries.last();
        assert(!entries_map(rest).contains_key(last.0@)) by {
            if entries_map(rest).contains_key(last.0@) {
                let i = choose|i: int| 0 <= i < rest.len() && rest[i].0@ == last.0@;
                assert(entries[i].0@ != entries[entries.len() - 1].0@);
            }
        }
        assert forall|i: int| 0 <= i < entries.len() implies #[trigger] entries_map(entries).contains_key(
            entries[i].0@,
        ) by {
            if i < entries.len() - 1 {
                assert(entries[i] == rest[i]);
                assert(entries_map(rest).contains_key(rest[i].0@));
            }
        }
        assert forall|k: Seq<char>| #[trigger]
            entries_map(entries).contains_key(k) implies exists|i: int|
                0 <= i < entries.len() && entries[i].0@ == k by {
            if k != last.0@ {
                let i = choose|i: int| 0 <= i < rest.len() && rest[i].0@ == k;
                assert(entries[i] == rest[i]);
            } else {
                assert(entries[entries.len() - 1] == last);
            }
        }
        assert forall|i: int| 0 <= i < entries.len() implies #[trigger] entries_map(entries)[entries[i].0@]
            == entries[i].1 by {
            if i < entries.len() - 1 {
                assert(entries[i] == rest[i]);
                assert(entries[i].0@ != last.0@);
                assert(entries_map(rest)[rest[i].0@] == rest[i].1);
            }
        }
    }
}

pub proof fn lemma_count_entries<V>(entries: Seq<(String, V)>, pred: spec_fn(V) -> bool)
    requires
        distinct_keys(entries),
    ensures
        count_entries(entries, pred) == count_where(entries_map(entries), pred),
    decreases entries.len(),
{
    lemma_entries_map_lookup(entries);
    if entries.len() == 0 {
        assert(entries_map(entries).dom().filter(|k: Seq<char>| pred(entries_map(entries)[k]))
            =~= Set::empty());
    } else {
        let rest = entries.drop_last();
        lemma_entries_map_lookup(rest);
        lemma_count_entries(rest, pred);
        let last = entries.last();
        let m = entries_map(entries);
        let mr = entries_map(rest);
        let f = m.dom().filter(|k: Seq<char>| pred(m[k]));
        let fr = mr.dom().filter(|k: Seq<char>| pred(mr[k]));
        assert(!mr.contains_key(last.0@)) by {
            if mr.contains_key(last.0@) {
                let i = choose|i: int| 0 <= i < rest.len() && rest[i].0@ == last.0@;
                assert(entries[i].0@ != entries[entries.len() - 1].0@);
            }
        }
        assert(mr.dom().finite());
        assert(fr.finite()) by {
            assert(fr.subset_of(mr.dom()));
            vstd::set_lib::lemma_len_subset(fr, mr.dom());
        }
        if pred(last.1) {
            assert(f =~= fr.insert(last.0@));
        } else {
            assert(f =~= fr);
        }
    }
}

/// A table keyed by text.
#[derive(Debug)]
pub struct KeyedTable<V> {
    entries: Vec<(String, V)>,
}

impl<V> View for KeyedTable<V> {
    type V = Map<Seq<char>, V>;

    closed spec fn view(&self) -> Map<Seq<char>, V> {
        entries_map(self.entries@)
    }
}

impl<V> KeyedTable<V> {
    #[verifier::type_invariant]
    spec fn keys_are_distinct(&self) -> bool {
        distinct_keys(self.entries@)
    }

    /// The entries in insertion order.
    pub closed spec fn entry_seq(&self) -> Seq<(String, V)> {
        self.entries@
    }
}

impl<V: Copy> KeyedTable<V> {
    /// An empty table.
    pub fn new() -> (t: Self)
        ensures
            t@ == Map::<Seq<char>, V>::empty(),
    {
        KeyedTable { entries: Vec::new() }
    }

    fn find(&self, key: &str) -> (r: Option<usize>)
        ensures
            r matches Some(i) ==> i < self.entries@.len() && self.entries@[i as int].0@ == key@,
            r is None ==> forall|i: int| 0 <= i < self.entries@.len() ==> #[trigger] self.entries@[i].0@ != key@,
    {
        let mut i: usize = 0;
        while i < self.entries.len()
            invariant
                i <= self.entries@.len(),
                forall|k: int| 0 <= k < i ==> #[trigger] self.entries@[k].0@ != key@,
            decreases self.entries@.len() - i,
        {
            if str_equals(self.entries[i].0.as_str(), key) {
                return Some(i);
            }
            i = i + 1;
        }
        None
    }

    /// The value under `key`, if any.
    pub fn get(&self, key: &str) -> (v: Option<V>)
        ensures
            v is Some <==> self@.contains_key(key@),
            v matches Some(x) ==> x == self@[key@],
    {
        proof {
            use_type_invariant(self);
            lemma_entries_map_lookup(self.entries@);
        }
        match self.find(key) {
            Some(i) => Some(self.entries[i].1),
            None => None,
        }
    }

    /// Whether `key` has a value.
    pub fn contains_key(&self, key: &str) -> (b: bool)
        ensures
            b == self@.contains_key(key@),
    {
        proof {
            use_type_invariant(self);
            lemma_entries_map_lookup(self.entries@);
        }
        self.find(key).is_some()
    }

    /// Put `value` under `key`, replacing any earlier value.
    pub fn insert(&mut self, key: &str, value: V)
        ensures
            final(self)@ == old(self)@.insert(key@, value),
    {
        proof {
            use_type_invariant(&*self);
            lemma_entries_map_lookup(self.entries@);
        }
        let ghost before = self.entries@;
        match self.find(key) {
            Some(i) => {
                let k = self.entries[i].0.clone();
                let mut entries: Vec<(String, V)> = Vec::new();
                std::mem::swap(&mut entries, &mut self.entries);
                entries.set(i, (k, value));
                proof {
                    assert(entries@ =~= before.update(i as int, (before[i as int].0, value)));
                    assert(distinct_keys(entries@)) by {
                        assert forall|a: int, b: int| 0 <= a < b < entries@.len() implies #[trigger] entries@[a].0@ != #[trigger] entries@[b].0@ by {
                            assert(entries@[a].0 == before[a].0);
                            assert(entries@[b].0 == before[b].0);
                        }
                    }
                    lemma_entries_map_lookup(entries@);
                    assert forall|j: int| 0 <= j < entries@.len() implies #[trigger] entries_map(entries@).contains_key(entries@[j].0@) by {}
                    assert(entries_map(entries@) =~= entries_map(before).insert(key@, value)) by {
                        assert forall|q: Seq<char>| #[trigger] entries_map(entries@).contains_key(q) <==> entries_map(before).insert(key@, value).contains_key(q) by {
                            if entries_map(entries@).contains_key(q) {
                                let j = choose|j: int| 0 <= j < entries@.len() && entries@[j].0@ == q;
                                assert(before[j].0@ == q);
                            }
                            if entries_map(before).contains_key(q) {
                                let j = choose|j: int| 0 <= j < before.len() && before[j].0@ == q;
                                assert(entries@[j].0@ == q);
                            }
                        }
                        assert forall|q: Seq<char>| #[trigger] entries_map(entries@).contains_key(q) implies entries_map(entries@)[q] == entries_map(before).insert(key@, value)[q] by {
                            let j = choose|j: int| 0 <= j < entries@.len() && entries@[j].0@ == q;
                            assert(entries_map(entries@)[entries@[j].0@] == entries@[j].1);
                            if j != i {
                                assert(entries_map(before)[before[j].0@] == before[j].1);
                            }
                        }
                    }
                }
                self.entries = entries;
            },
            None => {
                let mut entries: Vec<(String, V)> = Vec::new();
                std::mem::swap(&mut entries, &mut self.entries);
                entries.push((key.to_owned(), value));
                proof {
                    assert(entries@.drop_last() =~= before);
                    assert(distinct_keys(entries@)) by {
                        assert forall|a: int, b: int| 0 <= a < b < entries@.len() implies #[trigger] entries@[a].0@ != #[trigger] entries@[b].0@ by {
                            if b == entries@.len() - 1 {
                                assert(entries@[a] == before[a]);
                            } else {
                                assert(entries@[a] == before[a]);
                                assert(entries@[b] == before[b]);
                            }
                        }
                    }
                }
                self.entries = entries;
            },
        }
    }

    /// Remove `key`, returning its value if it had one.
    pub fn remove(&mut self, key: &str) -> (v: Option<V>)
        ensures
            final(self)@ == old(self)@.remove(key@),
            v is Some <==> old(self)@.contains_key(key@),
            v matches Some(x) ==> x == old(self)@[key@],
    {
        proof {
            use_type_invariant(&*self);
            lemma_entries_map_lookup(self.entries@);
        }
        let ghost before = self.entries@;
        match self.find(key) {
            Some(i) => {
                let mut entries: Vec<(String, V)> = Vec::new();
                std::mem::swap(&mut entries, &mut self.entries);
                let (_, value) = entries.remove(i);
                proof {
                    assert(entries@ =~= before.take(i as int) + before.skip(i as int + 1));
                    assert(distinct_keys(entries@)) by {
                        assert forall|a: int, b: int| 0 <= a < b < entries@.len() implies #[trigger] entries@[a].0@ != #[trigger] entries@[b].0@ by {
                            let a0 = if a < i { a } else { a + 1 };
                            let b0 = if b < i { b } else { b + 1 };
                            assert(entries@[a] == before[a0]);
                            assert(entries@[b] == before[b0]);
                        }
                    }
                    lemma_entries_map_lookup(entries@);
                    assert(entries_map(entries@) =~= entries_map(before).remove(key@)) by {
                        assert forall|q: Seq<char>| #[trigger] entries_map(entries@).contains_key(q) <==> entries_map(before).remove(key@).contains_key(q) by {
                            if entries_map(entries@).contains_key(q) {
                                let j = choose|j: int| 0 <= j < entries@.len() && entries@[j].0@ == q;
                                let j0 = if j < i { j } else { j + 1 };
                                assert(entries@[j] == before[j0]);
                                assert(before[j0].0@ != before[i as int].0@);
                            }
                            if entries_map(before).remove(key@).contains_key(q) {
                                let j = choose|j: int| 0 <= j < before.len() && before[j].0@ == q;
                                assert(j != i);
                                let j1 = if j < i { j } else { j - 1 };
                                assert(entries@[j1] == before[j]);
                            }
                        }
                        assert forall|q: Seq<char>| #[trigger] entries_map(entries@).contains_key(q) implies entries_map(entries@)[q] == entries_map(before).remove(key@)[q] by {
                            let j = choose|j: int| 0 <= j < entries@.len() && entries@[j].0@ == q;
                            let j0 = if j < i { j } else { j + 1 };
                            assert(entries@[j] == before[j0]);
                            assert(entries_map(entries@)[entries@[j].0@] == entries@[j].1);
                            assert(entries_map(before)[before[j0].0@] == before[j0].1);
                        }
                    }
                }
                self.entries = entries;
                Some(value)
            },
            None => {
                proof {
                    assert(entries_map(before).remove(key@) =~= entries_map(before));
                }
                None
            },
        }
    }

    /// Remove every entry.
    pub fn clear(&mut self)
        ensures
            final(self)@ == Map::<Seq<char>, V>::empty(),
    {
        self.entries = Vec::new();
    }

    /// The values, one per key, in insertion order.
    pub fn values(&self) -> (v: Vec<V>)
        ensures
            v@.len() == self@.dom().len(),
            forall|pred: spec_fn(V) -> bool| #[trigger] count_values(v@, pred) == count_where(self@, pred),
    {
        proof {
            use_type_invariant(self);
            lemma_entries_map_lookup(self.entries@);
        }
        let mut v: Vec<V> = Vec::new();
        let mut i: usize = 0;
        while i < self.entries.len()
            invariant
                i <= self.entries@.len(),
                v@ == values_of(self.entries@.take(i as int)),
            decreases self.entries@.len() - i,
        {
            proof {
                assert(self.entries@.take(i as int + 1).drop_last() =~= self.entries@.take(i as int));
            }
            v.push(self.entries[i].1);
            i = i + 1;
        }
        proof {
            assert(self.entries@.take(i as int) =~= self.entries@);
            lemma_count_values_of(self.entries@, |x: V| true);
            assert forall|pred: spec_fn(V) -> bool| #[trigger] count_values(v@, pred) == count_where(self@, pred) by {
                lemma_count_values_of(self.entries@, pred);
                lemma_count_entries(self.entries@, pred);
            }
        }
        v
    }
}

/// The values of an entry list, in order.
pub open spec fn values_of<V>(entries: Seq<(String, V)>) -> Seq<V>
    decreases entries.len(),
{
    if entries.len() == 0 {
        Seq::empty()
    } else {
        values_of(entries.drop_last()).push(entries.last().1)
    }
}

/// How many values of `vs` `pred` accepts.
pub open spec fn count_values<V>(vs: Seq<V>, pred: spec_fn(V) -> bool) -> nat
    decreases vs.len(),
{
    if vs.len() == 0 {
        0
    } else {
        count_values(vs.drop_last(), pred) + if pred(vs.last()) {
            1nat
        } else {
            0nat
        }
    }
}

proof fn lemma_count_values_of<V>(entries: Seq<(String, V)>, pred: spec_fn(V) -> bool)
    ensures
        count_values(values_of(entries), pred) == count_entries(entries, pred),
        values_of(entries).len() == entries.len(),
    decreases entries.len(),
{
    if entries.len() > 0 {
        lemma_count_values_of(entries.drop_last(), pred);
        assert(values_of(entries).drop_last() =~= values_of(entries.drop_last()));
    }
}

} // verus!
