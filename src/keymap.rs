//! A map from string keys to values, kept as a vector of entries with
//! distinct keys.
use vstd::prelude::*;

verus! {

/// The map that the entries `e` describe; a later entry overrides an earlier one.
pub open spec fn map_of<V>(e: Seq<(String, V)>) -> Map<Seq<char>, V>
    decreases e.len(),
{
    if e.len() == 0 {
        Map::empty()
    } else {
        map_of(e.drop_last()).insert(e.last().0@, e.last().1)
    }
}

/// No two entries of `e` share a key.
pub open spec fn keys_unique<V>(e: Seq<(String, V)>) -> bool {
    forall|i: int, j: int| 0 <= i < j < e.len() ==> (#[trigger] e[i]).0@ != (#[trigger] e[j]).0@
}

proof fn lemma_unique_drop_last<V>(e: Seq<(String, V)>)
    requires
        keys_unique(e),
        e.len() > 0,
    ensures
        keys_unique(e.drop_last()),
        forall|i: int| 0 <= i < e.len() - 1 ==> (#[trigger] e[i]).0@ != e.last().0@,
{
    assert forall|i: int| 0 <= i < e.len() - 1 implies (#[trigger] e[i]).0@ != e.last().0@ by {
        assert(e[i].0@ != e[e.len() - 1].0@);
    }
}

/// Where a key lies among the entries, and what the map holds for it.
pub proof fn lemma_map_of_index<V>(e: Seq<(String, V)>, i: int)
    requires
        keys_unique(e),
        0 <= i < e.len(),
    ensures
        map_of(e).contains_key(e[i].0@),
        map_of(e)[e[i].0@] == e[i].1,
    decreases e.len(),
{
    lemma_unique_drop_last(e);
    if i < e.len() - 1 {
        lemma_map_of_index(e.drop_last(), i);
        assert(e.drop_last()[i] == e[i]);
    }
}

/// The keys of the map are exactly those of the entries.
pub proof fn lemma_map_of_keys<V>(e: Seq<(String, V)>, k: Seq<char>)
    ensures
        map_of(e).contains_key(k) <==> exists|i: int| 0 <= i < e.len() && (#[trigger] e[i]).0@ == k,
    decreases e.len(),
{
    if e.len() > 0 {
        let p = e.drop_last();
        lemma_map_of_keys(p, k);
        if map_of(e).contains_key(k) {
            if k == e.last().0@ {
                assert(e[e.len() - 1].0@ == k);
            } else {
                let i = choose|i: int| 0 <= i < p.len() && (#[trigger] p[i]).0@ == k;
                assert(e[i] == p[i]);
            }
        }
        if exists|i: int| 0 <= i < e.len() && (#[trigger] e[i]).0@ == k {
            let i = choose|i: int| 0 <= i < e.len() && (#[trigger] e[i]).0@ == k;
            if i < e.len() - 1 {
                assert(p[i] == e[i]);
            }
        }
    }
}

proof fn lemma_map_of_len<V>(e: Seq<(String, V)>)
    requires
        keys_unique(e),
    ensures
        map_of(e).dom().finite(),
        map_of(e).dom().len() == e.len(),
    decreases e.len(),
{
    if e.len() > 0 {
        let p = e.drop_last();
        lemma_unique_drop_last(e);
        lemma_map_of_len(p);
        lemma_map_of_keys(p, e.last().0@);
    }
}

proof fn lemma_map_of_update<V>(e: Seq<(String, V)>, i: int, k: String, v: V)
    requires
        keys_unique(e),
        0 <= i < e.len(),
        k@ == e[i].0@,
    ensures
        keys_unique(e.update(i, (k, v))),
        map_of(e.update(i, (k, v))) == map_of(e).insert(k@, v),
    decreases e.len(),
{
    let u = e.update(i, (k, v));
    lemma_unique_drop_last(e);
    assert forall|a: int, b: int| 0 <= a < b < u.len() implies (#[trigger] u[a]).0@ != (#[trigger] u[b]).0@ by {
        assert(e[a].0@ != e[b].0@);
    }
    if i == e.len() - 1 {
        assert(u.drop_last() =~= e.drop_last());
        assert(map_of(u) =~= map_of(e).insert(e[i].0@, v));
    } else {
        let p = e.drop_last();
        lemma_map_of_update(p, i, k, v);
        assert(u.drop_last() =~= p.update(i, (k, v)));
        assert(e[i].0@ != e.last().0@);
        assert(map_of(u) =~= map_of(e).insert(e[i].0@, v));
    }
}

/// A map from string keys to values.
#[derive(Clone, Debug)]
pub struct KeyMap<V> {
    entries: Vec<(String, V)>,
}

impl<V> View for KeyMap<V> {
    type V = Map<Seq<char>, V>;

    closed spec fn view(&self) -> Map<Seq<char>, V> {
        map_of(self.entries@)
    }
}

impl<V> KeyMap<V> {
    /// The entries, in the order in which their keys first came.
    pub closed spec fn entries(&self) -> Seq<(String, V)> {
        self.entries@
    }

    /// The keys are distinct.
    pub closed spec fn wf(&self) -> bool {
        keys_unique(self.entries@)
    }

    pub proof fn lemma_view(&self)
        ensures
            self@ == map_of(self.entries()),
            self.wf() <==> keys_unique(self.entries()),
    {
    }

    /// The empty map.
    pub fn new() -> (r: KeyMap<V>)
        ensures
            r.wf(),
            r@ == Map::<Seq<char>, V>::empty(),
            r.entries().len() == 0,
    {
        KeyMap { entries: Vec::new() }
    }

    /// The number of keys.
    pub fn len(&self) -> (r: usize)
        requires
            self.wf(),
        ensures
            r == self@.dom().len(),
            r == self.entries().len(),
            self@.dom().finite(),
    {
        proof {
            lemma_map_of_len(self.entries@);
        }
        self.entries.len()
    }

    fn find(&self, key: &str) -> (r: Option<usize>)
        requires
            self.wf(),
        ensures
            r is None <==> !self@.contains_key(key@),
            r matches Some(i) ==> i < self.entries().len() && self.entries()[i as int].0@ == key@,
    {
        let k = key.to_owned();
        let mut i: usize = 0;
        while i < self.entries.len()
            invariant
                0 <= i <= self.entries@.len(),
                keys_unique(self.entries@),
                k@ == key@,
                forall|j: int| 0 <= j < i ==> (#[trigger] self.entries@[j]).0@ != key@,
            decreases self.entries@.len() - i,
        {
            if self.entries[i].0 == k {
                proof {
                    lemma_map_of_index(self.entries@, i as int);
                }
                return Some(i);
            }
            i = i + 1;
        }
        proof {
            lemma_map_of_keys(self.entries@, key@);
        }
        None
    }

    /// Whether `key` has a value.
    pub fn contains_key(&self, key: &str) -> (r: bool)
        requires
            self.wf(),
        ensures
            r == self@.contains_key(key@),
    {
        self.find(key).is_some()
    }

    /// The value of `key`, if any.
    pub fn get(&self, key: &str) -> (r: Option<&V>)
        requires
            self.wf(),
        ensures
            r is Some <==> self@.contains_key(key@),
            r matches Some(v) ==> *v == self@[key@],
    {
        match self.find(key) {
            Some(i) => {
                proof {
                    lemma_map_of_index(self.entries@, i as int);
                }
                Some(&self.entries[i].1)
            },
            None => None,
        }
    }

    /// Sets the value of `key`; a key already there keeps its place.
    pub fn insert(&mut self, key: String, value: V)
        requires
            old(self).wf(),
        ensures
            final(self).wf(),
            final(self)@ == old(self)@.insert(key@, value),
            old(self)@.contains_key(key@) ==> final(self).entries().len() == old(self).entries().len(),
            !old(self)@.contains_key(key@) ==> final(self).entries() == old(self).entries().push((key, value)),
    {
        match self.find(key.as_str()) {
            Some(i) => {
                let ghost e = self.entries@;
                let ghost k = key;
                let mut item = (key, value);
                self.entries.set_and_swap(i, &mut item);
                proof {
                    lemma_map_of_update(e, i as int, k, value);
                }
            },
            None => {
                let ghost e = self.entries@;
                proof {
                    lemma_map_of_keys(e, key@);
                }
                self.entries.push((key, value));
                assert forall|a: int, b: int| 0 <= a < b < self.entries@.len() implies (#[trigger] self.entries@[a]).0@ != (#[trigger] self.entries@[b]).0@ by {
                    if b == e.len() {
                        assert(self.entries@[a] == e[a]);
                    }
                }
                assert(self.entries@.drop_last() =~= e);
            },
        }
    }

    /// The key of entry `i`.
    pub fn key_at(&self, i: usize) -> (r: &String)
        requires
            i < self.entries().len(),
        ensures
            *r == self.entries()[i as int].0,
    {
        &self.entries[i].0
    }

    /// The value of entry `i`.
    pub fn value_at(&self, i: usize) -> (r: &V)
        requires
            i < self.entries().len(),
        ensures
            *r == self.entries()[i as int].1,
    {
        &self.entries[i].1
    }

    /// The keys, in entry order.
    pub fn keys(&self) -> (r: Vec<String>)
        ensures
            r@.len() == self.entries().len(),
            forall|i: int| 0 <= i < r@.len() ==> (#[trigger] r@[i]) == self.entries()[i].0,
    {
        let mut r: Vec<String> = Vec::new();
        let mut i: usize = 0;
        while i < self.entries.len()
            invariant
                0 <= i <= self.entries@.len(),
                r@.len() == i,
                forall|j: int| 0 <= j < i ==> (#[trigger] r@[j]) == self.entries@[j].0,
            decreases self.entries@.len() - i,
        {
            r.push(self.entries[i].0.clone());
            i = i + 1;
        }
        r
    }

    /// Puts `v` in place of the value of entry `i` and hands back the old value.
    pub fn swap_value(&mut self, i: usize, v: V) -> (r: V)
        requires
            old(self).wf(),
            i < old(self).entries().len(),
        ensures
            final(self).wf(),
            r == old(self).entries()[i as int].1,
            final(self).entries()[i as int].1 == v,
            final(self)@ == old(self)@.insert(old(self).entries()[i as int].0@, v),
            final(self).entries().len() == old(self).entries().len(),
            forall|j: int| 0 <= j < final(self).entries().len() ==> (#[trigger] final(self).entries()[j]).0@ == old(self).entries()[j].0@,
            forall|j: int| 0 <= j < final(self).entries().len() && j != i ==> (#[trigger] final(self).entries()[j]) == old(self).entries()[j],
    {
        let ghost e = self.entries@;
        let k = self.entries[i].0.clone();
        let mut item = (k, v);
        self.entries.set_and_swap(i, &mut item);
        proof {
            lemma_map_of_update(e, i as int, k, v);
        }
        item.1
    }
}

} // verus!
