//! Property-list values.

use crate::table::{lemma_no_slot, lookup, upsert};
use crate::text::owned;
use indexmap::IndexMap;
use vstd::prelude::*;

verus! {

/// A property-list value as a mathematical object.
pub ghost enum Plist {
    Str(Seq<char>),
    Dict(Seq<(Seq<char>, Plist)>),
    Array(Seq<Plist>),
}

/// A dictionary that keeps its entries in the order of their insertion.
#[verifier::external_body]
#[derive(Debug)]
pub struct PbxDict {
    inner: IndexMap<String, PbxValue>,
}

/// The entries of a dictionary, in their order.
pub uninterp spec fn entries(d: PbxDict) -> Seq<(Seq<char>, Plist)>;

/// A property-list value.
#[derive(Debug)]
pub enum PbxValue {
    Str(String),
    Dict(PbxDict),
    Array(Vec<PbxValue>),
}

/// What a value stands for.
pub open spec fn plist(v: PbxValue) -> Plist
    decreases v,
{
    match v {
        PbxValue::Str(s) => Plist::Str(s@),
        PbxValue::Dict(d) => Plist::Dict(entries(d)),
        PbxValue::Array(a) => Plist::Array(
            Seq::new(
                a@.len(),
                |i: int|
                    if 0 <= i < a@.len() {
                        plist(a@[i])
                    } else {
                        Plist::Str(Seq::empty())
                    },
            ),
        ),
    }
}

/// What some values stand for.
pub open spec fn plists(a: Seq<PbxValue>) -> Seq<Plist> {
    Seq::new(a.len(), |i: int| plist(a[i]))
}

impl PbxDict {
    /// `indexmap::IndexMap::new`: a dictionary without entries.
    #[verifier::external_body]
    pub(crate) fn new() -> (d: PbxDict)
        ensures
            entries(d) == Seq::<(Seq<char>, Plist)>::empty(),
    {
        PbxDict { inner: IndexMap::new() }
    }

    /// `indexmap::IndexMap::insert`: replaces the value of a key, which keeps
    /// its place, or adds an entry at the end.
    #[verifier::external_body]
    pub(crate) fn insert(&mut self, key: String, value: PbxValue)
        ensures
            entries(*final(self)) == upsert(entries(*old(self)), key@, plist(value)),
    {
        self.inner.insert(key, value);
    }

    /// `indexmap::IndexMap::len`: the number of entries.
    #[verifier::external_body]
    pub fn len(&self) -> (n: usize)
        ensures
            n == entries(*self).len(),
    {
        self.inner.len()
    }

    /// `indexmap::IndexMap::get`: the value of a key, if there is an entry for
    /// it.
    #[verifier::external_body]
    pub fn get(&self, key: &str) -> (v: Option<&PbxValue>)
        ensures
            match v {
                Some(x) => lookup(entries(*self), key@) == Some(plist(*x)),
                None => lookup(entries(*self), key@) is None,
            },
    {
        self.inner.get(key)
    }

    /// `indexmap::IndexMap::get_index`: the entry at a place in the order.  No
    /// other entry has its key.
    #[verifier::external_body]
    pub(crate) fn get_index(&self, i: usize) -> (e: Option<(&String, &PbxValue)>)
        ensures
            match e {
                Some((k, v)) => {
                    &&& i < entries(*self).len()
                    &&& entries(*self)[i as int] == (k@, plist(*v))
                    &&& forall|j: int|
                        0 <= j < entries(*self).len() && j != i ==> (#[trigger] entries(*self)[j]).0
                            != k@
                },
                None => i >= entries(*self).len(),
            },
    {
        self.inner.get_index(i)
    }
}

impl PbxValue {
    pub fn as_str(&self) -> (r: Option<&str>)
        ensures
            match r {
                Some(s) => plist(*self) == Plist::Str(s@),
                None => !(plist(*self) is Str),
            },
    {
        match self {
            PbxValue::Str(s) => Some(s.as_str()),
            _ => None,
        }
    }

    pub fn as_dict(&self) -> (r: Option<&PbxDict>)
        ensures
            match r {
                Some(d) => plist(*self) == Plist::Dict(entries(*d)),
                None => !(plist(*self) is Dict),
            },
    {
        match self {
            PbxValue::Dict(d) => Some(d),
            _ => None,
        }
    }

    pub fn as_array(&self) -> (r: Option<&Vec<PbxValue>>)
        ensures
            match r {
                Some(a) => plist(*self) == Plist::Array(plists(a@)),
                None => !(plist(*self) is Array),
            },
    {
        match self {
            PbxValue::Array(a) => {
                assert(plist(*self)->Array_0 =~= plists(a@));
                Some(a)
            },
            _ => None,
        }
    }

    /// The text of a string value.
    pub fn str_val(&self) -> (r: Option<String>)
        ensures
            match r {
                Some(s) => plist(*self) == Plist::Str(s@),
                None => !(plist(*self) is Str),
            },
    {
        match self {
            PbxValue::Str(s) => Some(owned(s.as_str())),
            _ => None,
        }
    }

    /// A copy of this value.
    pub fn copy(&self) -> (r: PbxValue)
        ensures
            plist(r) == plist(*self),
        decreases plist(*self),
    {
        match self {
            PbxValue::Str(s) => PbxValue::Str(owned(s.as_str())),
            PbxValue::Dict(d) => {
                let mut c = PbxDict::new();
                let n: usize = d.len();
                let mut i: usize = 0;
                while i < n
                    invariant
                        i <= n,
                        n == entries(*d).len(),
                        plist(*self) == Plist::Dict(entries(*d)),
                        entries(c) == entries(*d).take(i as int),
                    decreases n - i,
                {
                    if let Some((k, v)) = d.get_index(i) {
                        let ghost es = entries(*d);
                        proof {
                            lemma_no_slot(es.take(i as int), k@);
                            let e = es[i as int];
                            assert(plist(*self)->Dict_0 == es);
                            assert(decreases_to!(plist(*self) => plist(*self)->Dict_0));
                            assert(decreases_to!(es => e));
                            assert(decreases_to!(e => e.1));
                            assert(es.take(i as int).push(es[i as int]) =~= es.take(i + 1));
                        }
                        let w = v.copy();
                        c.insert(owned(k.as_str()), w);
                    }
                    i += 1;
                }
                assert(entries(*d).take(i as int) =~= entries(*d));
                PbxValue::Dict(c)
            },
            PbxValue::Array(a) => {
                let mut c: Vec<PbxValue> = Vec::new();
                let mut i: usize = 0;
                proof {
                    assert(plist(*self)->Array_0 =~= plists(a@));
                    assert(plists(c@) =~= plists(a@).take(0));
                }
                while i < a.len()
                    invariant
                        i <= a@.len(),
                        plist(*self) == Plist::Array(plists(a@)),
                        plists(c@) == plists(a@).take(i as int),
                    decreases a.len() - i,
                {
                    assert(plist(*self)->Array_0[i as int] == plist(a@[i as int]));
                    let ghost before = c@;
                    let w = a[i].copy();
                    c.push(w);
                    proof {
                        assert(plists(c@) =~= plists(before).push(plist(w)));
                        assert(plists(a@).take(i + 1) =~= plists(a@).take(i as int).push(
                            plist(a@[i as int]),
                        ));
                    }
                    i += 1;
                }
                proof {
                    assert(plists(a@).take(i as int) =~= plists(a@));
                    assert(plist(PbxValue::Array(c))->Array_0 =~= plists(c@));
                }
                PbxValue::Array(c)
            },
        }
    }
}

} // verus!
