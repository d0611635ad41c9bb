//! Tables: values by text keys, in the order in which the keys were first set.

use crate::text::owned;
use vstd::hash_map::StringHashMap;
use vstd::hash_set::StringHashSet;
use vstd::prelude::*;

verus! {

/// Where the entry with key `k` stands.
pub open spec fn slot<T>(es: Seq<(Seq<char>, T)>, k: Seq<char>) -> Option<int>
    decreases es.len(),
{
    if es.len() == 0 {
        None
    } else if es.last().0 == k {
        Some(es.len() - 1)
    } else {
        slot(es.drop_last(), k)
    }
}

/// The value of the entry with key `k`.
pub open spec fn lookup<T>(es: Seq<(Seq<char>, T)>, k: Seq<char>) -> Option<T> {
    match slot(es, k) {
        Some(i) => Some(es[i].1),
        None => None,
    }
}

/// The entries with the value of key `k` replaced, or added at the end.
pub open spec fn upsert<T>(es: Seq<(Seq<char>, T)>, k: Seq<char>, v: T) -> Seq<(Seq<char>, T)> {
    match slot(es, k) {
        Some(i) => es.update(i, (k, v)),
        None => es.push((k, v)),
    }
}

/// No two entries have one key.
pub open spec fn distinct_keys<T>(es: Seq<(Seq<char>, T)>) -> bool {
    forall|i: int, j: int|
        0 <= i < es.len() && 0 <= j < es.len() && i != j ==> (#[trigger] es[i]).0 != (
        #[trigger] es[j]).0
}

pub proof fn lemma_slot<T>(es: Seq<(Seq<char>, T)>, k: Seq<char>)
    ensures
        match slot(es, k) {
            Some(i) => 0 <= i < es.len() && es[i].0 == k,
            None => forall|j: int| 0 <= j < es.len() ==> (#[trigger] es[j]).0 != k,
        },
    decreases es.len(),
{
    if es.len() > 0 && es.last().0 != k {
        lemma_slot(es.drop_last(), k);
        if slot(es, k) is None {
            assert forall|j: int| 0 <= j < es.len() implies (#[trigger] es[j]).0 != k by {
                if j < es.len() - 1 {
                    assert(es[j] == es.drop_last()[j]);
                }
            }
        } else {
            let i = slot(es, k)->Some_0;
            assert(es[i] == es.drop_last()[i]);
        }
    }
}

pub proof fn lemma_no_slot<T>(es: Seq<(Seq<char>, T)>, k: Seq<char>)
    requires
        forall|j: int| 0 <= j < es.len() ==> (#[trigger] es[j]).0 != k,
    ensures
        slot(es, k) is None,
{
    lemma_slot(es, k);
}

pub proof fn lemma_slot_at<T>(es: Seq<(Seq<char>, T)>, i: int)
    requires
        distinct_keys(es),
        0 <= i < es.len(),
    ensures
        slot(es, es[i].0) == Some(i),
{
    lemma_slot(es, es[i].0);
}

/// What setting a key does to what the keys give.
pub proof fn lemma_upsert<T>(es: Seq<(Seq<char>, T)>, k: Seq<char>, v: T)
    requires
        distinct_keys(es),
    ensures
        distinct_keys(upsert(es, k, v)),
        lookup(upsert(es, k, v), k) == Some(v),
        forall|j: Seq<char>|
            j != k ==> #[trigger] lookup(upsert(es, k, v), j) == lookup(es, j),
{
    let r = upsert(es, k, v);
    lemma_slot(es, k);
    assert(distinct_keys(r));
    let at = if slot(es, k) is Some {
        slot(es, k)->Some_0
    } else {
        es.len() as int
    };
    assert(r[at] == (k, v));
    lemma_slot_at(r, at);
    assert forall|j: Seq<char>| j != k implies #[trigger] lookup(r, j) == lookup(es, j) by {
        lemma_slot(es, j);
        lemma_slot(r, j);
        if slot(es, j) is Some {
            let i = slot(es, j)->Some_0;
            assert(r[i] == es[i]);
            lemma_slot_at(r, i);
        } else if slot(r, j) is Some {
            let i = slot(r, j)->Some_0;
            assert(i != at);
            assert(r[i] == es[i]);
        }
    }
}

/// A table from texts to values.
pub struct Table<V> {
    keys: Vec<String>,
    vals: Vec<V>,
    index: StringHashMap<usize>,
}

impl<V: View> View for Table<V> {
    type V = Seq<(Seq<char>, V::V)>;

    closed spec fn view(&self) -> Self::V {
        Seq::new(self.keys@.len(), |i: int| (self.keys@[i]@, self.vals@[i]@))
    }
}

impl<V: View> Table<V> {
    pub closed spec fn wf(&self) -> bool {
        &&& self.keys@.len() == self.vals@.len()
        &&& distinct_keys(self@)
        &&& forall|k: Seq<char>| #[trigger] self.index@.contains_key(k) == (slot(self@, k) is Some)
        &&& forall|k: Seq<char>| #[trigger]
            self.index@.contains_key(k) ==> slot(self@, k) == Some(self.index@[k] as int)
    }

    /// A table has one entry at most for a key.
    pub proof fn lemma_distinct(&self)
        requires
            self.wf(),
        ensures
            distinct_keys(self@),
    {
    }

    pub fn new() -> (t: Self)
        ensures
            t.wf(),
            t@ == Seq::<(Seq<char>, V::V)>::empty(),
    {
        let t = Table { keys: Vec::new(), vals: Vec::new(), index: StringHashMap::new() };
        assert(t@ =~= Seq::empty());
        t
    }

    pub fn len(&self) -> (n: usize)
        requires
            self.wf(),
        ensures
            n == self@.len(),
    {
        self.keys.len()
    }

    pub fn key_at(&self, i: usize) -> (k: &str)
        requires
            self.wf(),
            i < self@.len(),
        ensures
            k@ == self@[i as int].0,
    {
        self.keys[i].as_str()
    }

    pub fn val_at(&self, i: usize) -> (v: &V)
        requires
            self.wf(),
            i < self@.len(),
        ensures
            v@ == self@[i as int].1,
    {
        &self.vals[i]
    }

    pub fn get(&self, key: &str) -> (v: Option<&V>)
        requires
            self.wf(),
        ensures
            match v {
                Some(x) => lookup(self@, key@) == Some(x@),
                None => lookup(self@, key@) is None,
            },
    {
        match self.index.get(key) {
            Some(i) => {
                proof {
                    lemma_slot(self@, key@);
                }
                Some(&self.vals[*i])
            },
            None => None,
        }
    }

    pub fn contains_key(&self, key: &str) -> (r: bool)
        requires
            self.wf(),
        ensures
            r == (lookup(self@, key@) is Some),
    {
        self.index.contains_key(key)
    }

    /// Sets the value of a key.
    pub fn set(&mut self, key: String, value: V)
        requires
            old(self).wf(),
        ensures
            final(self).wf(),
            final(self)@ == upsert(old(self)@, key@, value@),
    {
        let ghost before = self@;
        let known: Option<usize> = match self.index.get(key.as_str()) {
            Some(i) => Some(*i),
            None => None,
        };
        proof {
            lemma_slot(before, key@);
            lemma_upsert(before, key@, value@);
        }
        match known {
            Some(i) => {
                self.vals.set(i, value);
                assert(self@ =~= upsert(before, key@, value@));
                proof {
                    assert forall|k: Seq<char>| #[trigger] self.index@.contains_key(k) implies slot(
                        self@,
                        k,
                    ) == Some(self.index@[k] as int) by {
                        lemma_slot(before, k);
                        let j = slot(before, k)->Some_0;
                        assert(self@[j].0 == k);
                        lemma_slot_at(self@, j);
                    }
                    assert forall|k: Seq<char>| #[trigger]
                        self.index@.contains_key(k) == (slot(self@, k) is Some) by {
                        lemma_slot(before, k);
                        lemma_slot(self@, k);
                        if slot(self@, k) is Some {
                            let j = slot(self@, k)->Some_0;
                            assert(before[j].0 == k);
                        }
                    }
                }
            },
            None => {
                let n: usize = self.keys.len();
                self.keys.push(owned(key.as_str()));
                self.vals.push(value);
                self.index.insert(key, n);
                assert(self@ =~= upsert(before, key@, value@));
                proof {
                    assert forall|k: Seq<char>| #[trigger] self.index@.contains_key(k) implies slot(
                        self@,
                        k,
                    ) == Some(self.index@[k] as int) by {
                        if k == key@ {
                            lemma_slot_at(self@, n as int);
                        } else {
                            lemma_slot(before, k);
                            let j = slot(before, k)->Some_0;
                            assert(self@[j] == before[j]);
                            lemma_slot_at(self@, j);
                        }
                    }
                    assert forall|k: Seq<char>| #[trigger]
                        self.index@.contains_key(k) == (slot(self@, k) is Some) by {
                        lemma_slot(before, k);
                        lemma_slot(self@, k);
                        if slot(self@, k) is Some && k != key@ {
                            let j = slot(self@, k)->Some_0;
                            assert(before[j].0 == k);
                        }
                        if k == key@ {
                            lemma_slot_at(self@, n as int);
                        }
                    }
                }
            },
        }
    }
}

/// A set of texts.
pub struct TextSet {
    members: StringHashSet,
}

impl View for TextSet {
    type V = Set<Seq<char>>;

    closed spec fn view(&self) -> Set<Seq<char>> {
        self.members@
    }
}

impl TextSet {
    pub fn new() -> (s: Self)
        ensures
            s@ == Set::<Seq<char>>::empty(),
    {
        TextSet { members: StringHashSet::new() }
    }

    pub fn insert(&mut self, text: String)
        ensures
            final(self)@ == old(self)@.insert(text@),
    {
        self.members.insert(text);
    }

    pub fn contains(&self, text: &str) -> (r: bool)
        ensures
            r == self@.contains(text@),
    {
        self.members.contains(text)
    }
}

} // verus!
