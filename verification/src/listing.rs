//! Sorted lists without duplicates.

use crate::order::{
    items, keyed, law_sort_permutes, law_sort_sorts, lemma_text_le_total, sort_by, sort_entries,
    text_le, Entry,
};
use crate::text::{owned, same, texts, to_chars};
use vstd::hash_set::StringHashSet;
use vstd::prelude::*;

verus! {

/// Each text comes before the next, and none twice.
pub open spec fn strictly_sorted(r: Seq<Seq<char>>) -> bool {
    forall|i: int, j: int|
        0 <= i < j < r.len() ==> text_le(#[trigger] r[i], #[trigger] r[j]) && r[i] != r[j]
}

/// The texts with a property, in their order.
pub open spec fn lists(r: Seq<Seq<char>>, holds: spec_fn(Seq<char>) -> bool) -> bool {
    strictly_sorted(r) && forall|x: Seq<char>| #[trigger] r.contains(x) <==> holds(x)
}

/// A sorted list is determined by what is in it.
pub proof fn law_listing_unique(
    a: Seq<Seq<char>>,
    b: Seq<Seq<char>>,
    holds: spec_fn(Seq<char>) -> bool,
)
    requires
        lists(a, holds),
        lists(b, holds),
    ensures
        a == b,
    decreases a.len(),
{
    if a.len() == 0 {
        if b.len() > 0 {
            assert(b.contains(b[0]));
            assert(a.contains(b[0]));
        }
    } else {
        assert(a.contains(a.last()));
        assert(b.contains(a.last()));
        assert(b.len() > 0);
        assert(b.contains(b.last()));
        assert(a.contains(b.last()));
        let i = choose|i: int| 0 <= i < a.len() && a[i] == b.last();
        let j = choose|j: int| 0 <= j < b.len() && b[j] == a.last();
        lemma_text_le_total(a.last(), b.last());
        assert(a.last() == b.last()) by {
            if i < a.len() - 1 {
                assert(text_le(a[i], a[a.len() - 1]));
            }
            if j < b.len() - 1 {
                assert(text_le(b[j], b[b.len() - 1]));
            }
        }
        let last = a.last();
        let rest = |x: Seq<char>| holds(x) && x != last;
        lemma_drop_last_lists(a, holds);
        lemma_drop_last_lists(b, holds);
        law_listing_unique(a.drop_last(), b.drop_last(), rest);
        assert(a =~= a.drop_last().push(last));
        assert(b =~= b.drop_last().push(last));
    }
}

proof fn lemma_drop_last_lists(a: Seq<Seq<char>>, holds: spec_fn(Seq<char>) -> bool)
    requires
        lists(a, holds),
        a.len() > 0,
    ensures
        lists(a.drop_last(), |x: Seq<char>| holds(x) && x != a.last()),
{
    let d = a.drop_last();
    assert forall|x: Seq<char>| #[trigger] d.contains(x) <==> holds(x) && x != a.last() by {
        if d.contains(x) {
            let i = choose|i: int| 0 <= i < d.len() && d[i] == x;
            assert(a[i] == x);
            assert(a.contains(x));
            assert(a[i] != a[a.len() - 1]);
        }
        if holds(x) && x != a.last() {
            assert(a.contains(x));
            let i = choose|i: int| 0 <= i < a.len() && a[i] == x;
            assert(d[i] == x);
        }
    }
}

proof fn lemma_sort_contains(s: Seq<Seq<char>>, key: spec_fn(Seq<char>) -> Seq<char>, x: Seq<char>)
    ensures
        sort_by(s, key).contains(x) == s.contains(x),
{
    broadcast use vstd::seq_lib::group_to_multiset_ensures;

    law_sort_permutes(s, key);
    assert(s.to_multiset().count(x) > 0 <==> s.contains(x));
    assert(sort_by(s, key).to_multiset().count(x) > 0 <==> sort_by(s, key).contains(x));
}

/// The texts of a list, in their order and without duplicates.
pub fn sorted_set(v: &Vec<String>) -> (r: Vec<String>)
    ensures
        lists(texts(r@), |x: Seq<char>| texts(v@).contains(x)),
{
    let ghost key = |x: Seq<char>| x;
    let ghost all = texts(v@);
    let mut es: Vec<Entry> = Vec::new();
    let mut i: usize = 0;
    proof {
        assert(items(es@) =~= all.take(0));
    }
    while i < v.len()
        invariant
            i <= v@.len(),
            all == texts(v@),
            key == (|x: Seq<char>| x),
            items(es@) == all.take(i as int),
            keyed(es@, key),
        decreases v.len() - i,
    {
        let ghost before = es@;
        let item = owned(v[i].as_str());
        es.push(Entry { key: to_chars(v[i].as_str()), item });
        proof {
            assert(items(es@) =~= items(before).push(item@));
            assert(all.take(i + 1) =~= all.take(i as int).push(v@[i as int]@));
            assert forall|k: int| 0 <= k < es@.len() implies (#[trigger] es@[k]).key@ == key(
                es@[k].item@,
            ) by {
                if k < before.len() {
                    assert(es@[k] == before[k]);
                }
            }
        }
        i += 1;
    }
    assert(all.take(i as int) =~= all);
    let sorted = sort_entries(es, Ghost(key));
    let ghost s = items(sorted@);
    proof {
        law_sort_sorts(all, key);
    }
    let mut r: Vec<String> = Vec::new();
    let mut k: usize = 0;
    while k < sorted.len()
        invariant
            k <= sorted@.len(),
            s == items(sorted@),
            key == (|x: Seq<char>| x),
            crate::order::is_sorted_by(s, key),
            strictly_sorted(texts(r@)),
            k > 0 ==> r@.len() > 0 && r@.last()@ == s[k - 1],
            k == 0 ==> r@.len() == 0,
            forall|x: Seq<char>|
                #[trigger] texts(r@).contains(x) <==> s.take(k as int).contains(x),
        decreases sorted.len() - k,
    {
        let ghost before = r@;
        let fresh = r.len() == 0 || !same(r[r.len() - 1].as_str(), sorted[k].item.as_str());
        proof {
            assert(s[k as int] == sorted@[k as int].item@);
            assert(s.take(k + 1) =~= s.take(k as int).push(s[k as int]));
            if k > 0 {
                assert(text_le(key(s[k - 1]), key(s[k as int])));
            }
        }
        if fresh {
            let t = owned(sorted[k].item.as_str());
            r.push(t);
            proof {
                let now = texts(r@);
                let then = texts(before);
                assert(now =~= then.push(t@));
                assert forall|i: int, j: int| 0 <= i < j < now.len() implies text_le(
                    #[trigger] now[i],
                    #[trigger] now[j],
                ) && now[i] != now[j] by {
                    if j < then.len() {
                        assert(now[i] == then[i] && now[j] == then[j]);
                    } else {
                        // The last text before is no greater than the new one.
                        let last = then.len() - 1;
                        assert(then[last] == s[k - 1]);
                        lemma_text_le_total(then[last], t@);
                        if i < last {
                            assert(text_le(then[i], then[last]) && then[i] != then[last]);
                            crate::order::lemma_text_le_transitive(then[i], then[last], t@);
                            lemma_text_le_total(then[i], then[last]);
                            if then[i] == t@ {
                                lemma_text_le_total(then[last], t@);
                            }
                        }
                    }
                }
                assert forall|x: Seq<char>| #[trigger]
                    now.contains(x) <==> s.take(k + 1).contains(x) by {
                    assert(then.contains(x) <==> s.take(k as int).contains(x));
                    lemma_push_contains(then, t@, x);
                    lemma_push_contains(s.take(k as int), s[k as int], x);
                }
            }
        } else {
            proof {
                assert forall|x: Seq<char>| #[trigger]
                    texts(r@).contains(x) <==> s.take(k + 1).contains(x) by {
                    lemma_push_contains(s.take(k as int), s[k as int], x);
                    if x == s[k as int] {
                        assert(texts(r@)[r@.len() - 1] == x);
                    }
                }
            }
        }
        k += 1;
    }
    proof {
        assert(s.take(k as int) =~= s);
        assert forall|x: Seq<char>| #[trigger] texts(r@).contains(x) <==> all.contains(x) by {
            lemma_sort_contains(all, key, x);
        }
    }
    r
}

pub proof fn lemma_push_contains(s: Seq<Seq<char>>, y: Seq<char>, x: Seq<char>)
    ensures
        s.push(y).contains(x) <==> s.contains(x) || x == y,
{
    if s.contains(x) {
        let i = choose|i: int| 0 <= i < s.len() && s[i] == x;
        assert(s.push(y)[i] == x);
    }
    if x == y {
        assert(s.push(y)[s.len() as int] == x);
    }
    if s.push(y).contains(x) && x != y {
        let i = choose|i: int| 0 <= i < s.push(y).len() && s.push(y)[i] == x;
        assert(s[i] == x);
    }
}

/// The texts of a list as a set.
pub fn text_set(v: &Vec<String>) -> (r: StringHashSet)
    ensures
        forall|x: Seq<char>| #[trigger] r@.contains(x) == texts(v@).contains(x),
{
    let ghost all = texts(v@);
    let mut r = StringHashSet::new();
    let mut i: usize = 0;
    while i < v.len()
        invariant
            i <= v@.len(),
            all == texts(v@),
            forall|x: Seq<char>| #[trigger] r@.contains(x) == all.take(i as int).contains(x),
        decreases v.len() - i,
    {
        r.insert(owned(v[i].as_str()));
        proof {
            assert(all.take(i + 1) =~= all.take(i as int).push(v@[i as int]@));
            assert forall|x: Seq<char>| #[trigger]
                r@.contains(x) == all.take(i + 1).contains(x) by {
                lemma_push_contains(all.take(i as int), v@[i as int]@, x);
            }
        }
        i += 1;
    }
    assert(all.take(i as int) =~= all);
    r
}

/// The texts of `a` that are not in `b`, in their order and without duplicates.
pub fn difference(a: &Vec<String>, b: &Vec<String>) -> (r: Vec<String>)
    ensures
        lists(
            texts(r@),
            |x: Seq<char>| texts(a@).contains(x) && !texts(b@).contains(x),
        ),
{
    let known = text_set(b);
    let ghost all = texts(a@);
    let ghost old_texts = texts(b@);
    let mut fresh: Vec<String> = Vec::new();
    let mut i: usize = 0;
    while i < a.len()
        invariant
            i <= a@.len(),
            all == texts(a@),
            old_texts == texts(b@),
            forall|x: Seq<char>| #[trigger] known@.contains(x) == old_texts.contains(x),
            forall|x: Seq<char>|
                #[trigger] texts(fresh@).contains(x) <==> all.take(i as int).contains(x)
                    && !old_texts.contains(x),
        decreases a.len() - i,
    {
        let ghost before = fresh@;
        let t = a[i].as_str();
        proof {
            assert(all.take(i + 1) =~= all.take(i as int).push(t@));
        }
        if !known.contains(t) {
            let c = owned(t);
            fresh.push(c);
            assert(texts(fresh@) =~= texts(before).push(c@));
        }
        proof {
            assert forall|x: Seq<char>| #[trigger]
                texts(fresh@).contains(x) <==> all.take(i + 1).contains(x) && !old_texts.contains(
                x,
            ) by {
                lemma_push_contains(all.take(i as int), t@, x);
                lemma_push_contains(texts(before), t@, x);
                assert(texts(before).contains(x) <==> all.take(i as int).contains(x)
                    && !old_texts.contains(x));
                assert(known@.contains(t@) == old_texts.contains(t@));
            }
        }
        i += 1;
    }
    assert(all.take(i as int) =~= all);
    let r = sorted_set(&fresh);
    proof {
        assert forall|x: Seq<char>| #[trigger] texts(r@).contains(x) <==> all.contains(x)
            && !old_texts.contains(x) by {
            assert(texts(fresh@).contains(x) <==> all.contains(x) && !old_texts.contains(x));
        }
    }
    r
}

} // verus!
