//! The order of texts, and a stable sort by a text key.

use crate::text::to_chars;
use vstd::prelude::*;

verus! {

/// The order of texts: by their first different character, or by length.
pub open spec fn text_le(a: Seq<char>, b: Seq<char>) -> bool
    decreases a.len(),
{
    if a.len() == 0 {
        true
    } else if b.len() == 0 {
        false
    } else if a[0] != b[0] {
        a[0] < b[0]
    } else {
        text_le(a.drop_first(), b.drop_first())
    }
}

pub proof fn lemma_text_le_total(a: Seq<char>, b: Seq<char>)
    ensures
        text_le(a, a),
        text_le(a, b) || text_le(b, a),
        text_le(a, b) && text_le(b, a) ==> a == b,
    decreases a.len(),
{
    if a.len() > 0 {
        if b.len() > 0 {
            lemma_text_le_total(a.drop_first(), b.drop_first());
            if text_le(a, b) && text_le(b, a) {
                assert(a =~= seq![a[0]] + a.drop_first());
                assert(b =~= seq![b[0]] + b.drop_first());
            }
        } else {
            lemma_text_le_total(a.drop_first(), b);
        }
    } else if text_le(b, a) {
        assert(a =~= b);
    }
}

pub proof fn lemma_text_le_transitive(a: Seq<char>, b: Seq<char>, c: Seq<char>)
    requires
        text_le(a, b),
        text_le(b, c),
    ensures
        text_le(a, c),
    decreases a.len(),
{
    if a.len() > 0 && b.len() > 0 && c.len() > 0 && a[0] == b[0] && b[0] == c[0] {
        lemma_text_le_transitive(a.drop_first(), b.drop_first(), c.drop_first());
    }
}

/// Whether `a` comes before `b` or is `b`.
pub fn chars_le(a: &Vec<char>, b: &Vec<char>) -> (r: bool)
    ensures
        r == text_le(a@, b@),
{
    let mut i: usize = 0;
    proof {
        assert(a@.skip(0) =~= a@);
        assert(b@.skip(0) =~= b@);
    }
    while i < a.len() && i < b.len() && a[i] == b[i]
        invariant
            i <= a@.len(),
            i <= b@.len(),
            text_le(a@, b@) == text_le(a@.skip(i as int), b@.skip(i as int)),
        decreases a.len() - i,
    {
        proof {
            assert(a@.skip(i as int).drop_first() =~= a@.skip(i + 1));
            assert(b@.skip(i as int).drop_first() =~= b@.skip(i + 1));
        }
        i += 1;
    }
    if i == a.len() {
        true
    } else if i == b.len() {
        false
    } else {
        a[i] < b[i]
    }
}

/// Whether `a` comes before `b` or is `b`.
pub fn str_le(a: &str, b: &str) -> (r: bool)
    ensures
        r == text_le(a@, b@),
{
    chars_le(&to_chars(a), &to_chars(b))
}

// ── A stable sort ────────────────────────────────────────────────────────────

/// Puts `x` behind the last item whose key does not come after its own.
pub open spec fn insert_by<T>(items: Seq<T>, x: T, key: spec_fn(T) -> Seq<char>) -> Seq<T>
    decreases items.len(),
{
    if items.len() == 0 || text_le(key(items.last()), key(x)) {
        items.push(x)
    } else {
        insert_by(items.drop_last(), x, key).push(items.last())
    }
}

/// The items in the order of their keys; items with one key stay in their
/// order.
pub open spec fn sort_by<T>(items: Seq<T>, key: spec_fn(T) -> Seq<char>) -> Seq<T>
    decreases items.len(),
{
    if items.len() == 0 {
        items
    } else {
        insert_by(sort_by(items.drop_last(), key), items.last(), key)
    }
}

/// The keys never go down.
pub open spec fn is_sorted_by<T>(items: Seq<T>, key: spec_fn(T) -> Seq<char>) -> bool {
    forall|i: int, j: int|
        0 <= i <= j < items.len() ==> text_le(key(#[trigger] items[i]), key(#[trigger] items[j]))
}

pub proof fn lemma_insert_at<T>(items: Seq<T>, x: T, key: spec_fn(T) -> Seq<char>, p: int)
    requires
        0 <= p <= items.len(),
        p > 0 ==> text_le(key(items[p - 1]), key(x)),
        forall|j: int| p <= j < items.len() ==> !text_le(key(#[trigger] items[j]), key(x)),
    ensures
        insert_by(items, x, key) == items.insert(p, x),
    decreases items.len(),
{
    if p == items.len() {
        assert(items.insert(p, x) =~= items.push(x));
    } else {
        let rest = items.drop_last();
        assert forall|j: int| p <= j < rest.len() implies !text_le(
            key(#[trigger] rest[j]),
            key(x),
        ) by {
            assert(rest[j] == items[j]);
        }
        lemma_insert_at(rest, x, key, p);
        assert(rest.insert(p, x).push(items.last()) =~= items.insert(p, x));
    }
}

/// Where `insert_by` puts its item.
pub proof fn lemma_insert_position<T>(items: Seq<T>, x: T, key: spec_fn(T) -> Seq<char>) -> (p: int)
    ensures
        0 <= p <= items.len(),
        p > 0 ==> text_le(key(items[p - 1]), key(x)),
        forall|j: int| p <= j < items.len() ==> !text_le(key(#[trigger] items[j]), key(x)),
        insert_by(items, x, key) == items.insert(p, x),
    decreases items.len(),
{
    if items.len() == 0 || text_le(key(items.last()), key(x)) {
        assert(items.insert(items.len() as int, x) =~= items.push(x));
        items.len() as int
    } else {
        let rest = items.drop_last();
        let p = lemma_insert_position(rest, x, key);
        assert forall|j: int| p <= j < items.len() implies !text_le(
            key(#[trigger] items[j]),
            key(x),
        ) by {
            if j < rest.len() {
                assert(rest[j] == items[j]);
            }
        }
        assert(rest.insert(p, x).push(items.last()) =~= items.insert(p, x));
        p
    }
}

/// A text and the key by which it is sorted.
pub struct Entry {
    pub key: Vec<char>,
    pub item: String,
}

/// The texts of some entries.
pub open spec fn items(es: Seq<Entry>) -> Seq<Seq<char>> {
    Seq::new(es.len(), |i: int| es[i].item@)
}

/// Every entry has the key that `key` gives its text.
pub open spec fn keyed(es: Seq<Entry>, key: spec_fn(Seq<char>) -> Seq<char>) -> bool {
    forall|i: int| 0 <= i < es.len() ==> (#[trigger] es[i]).key@ == key(es[i].item@)
}

/// Sorts entries by their keys.
pub fn sort_entries(
    entries: Vec<Entry>,
    Ghost(key): Ghost<spec_fn(Seq<char>) -> Seq<char>>,
) -> (sorted: Vec<Entry>)
    requires
        keyed(entries@, key),
    ensures
        items(sorted@) == sort_by(items(entries@), key),
        keyed(sorted@, key),
{
    let mut rest = entries;
    let mut sorted: Vec<Entry> = Vec::new();
    let ghost all = items(rest@);
    let total: usize = rest.len();
    // Popped from the end, pushed in their order.
    let mut queue: Vec<Entry> = Vec::new();
    while rest.len() > 0
        invariant
            keyed(rest@, key),
            keyed(queue@, key),
            total == rest@.len() + queue@.len(),
            total == all.len(),
            items(rest@) == all.take(rest@.len() as int),
            forall|k: int|
                0 <= k < queue@.len() ==> (#[trigger] queue@[k]).item@ == all[total - 1 - k],
        decreases rest.len(),
    {
        let ghost before = rest@;
        if let Some(e) = rest.pop() {
            assert(items(before)[before.len() - 1] == e.item@);
            queue.push(e);
            assert(items(rest@) =~= all.take(rest@.len() as int));
            assert(keyed(rest@, key)) by {
                assert forall|i: int| 0 <= i < rest@.len() implies (#[trigger] rest@[i]).key@
                    == key(rest@[i].item@) by {
                    assert(rest@[i] == before[i]);
                }
            }
        }
    }
    proof {
        assert(all.take(0) =~= Seq::empty());
        assert(items(sorted@) =~= sort_by(all.take(0), key));
    }
    while queue.len() > 0
        invariant
            keyed(sorted@, key),
            keyed(queue@, key),
            total == all.len(),
            total == sorted@.len() + queue@.len(),
            items(sorted@) == sort_by(all.take(sorted@.len() as int), key),
            forall|k: int|
                0 <= k < queue@.len() ==> (#[trigger] queue@[k]).item@ == all[total - 1 - k],
        decreases queue.len(),
    {
        let ghost before = sorted@;
        let ghost waiting = queue@;
        if let Some(e) = queue.pop() {
            let mut p: usize = sorted.len();
            while p > 0 && !chars_le(&sorted[p - 1].key, &e.key)
                invariant
                    p <= sorted@.len(),
                    keyed(sorted@, key),
                    e.key@ == key(e.item@),
                    forall|j: int|
                        p <= j < sorted@.len() ==> !text_le(
                            key(#[trigger] items(sorted@)[j]),
                            key(e.item@),
                        ),
                decreases p,
            {
                p -= 1;
            }
            proof {
                let n = before.len() as int;
                assert(waiting[waiting.len() - 1].item@ == all[n]);
                lemma_insert_at(items(before), e.item@, key, p as int);
                assert(all.take(n + 1).drop_last() =~= all.take(n));
            }
            sorted.insert(p, e);
            assert(items(sorted@) =~= items(before).insert(p as int, e.item@));
            assert(keyed(sorted@, key)) by {
                assert forall|i: int| 0 <= i < sorted@.len() implies (#[trigger] sorted@[i]).key@
                    == key(sorted@[i].item@) by {
                    if i < p {
                        assert(sorted@[i] == before[i]);
                    } else if i > p {
                        assert(sorted@[i] == before[i - 1]);
                    }
                }
            }
        }
    }
    proof {
        assert(all.take(total as int) =~= all);
    }
    sorted
}

proof fn lemma_insert_sorted<T>(items: Seq<T>, x: T, key: spec_fn(T) -> Seq<char>)
    requires
        is_sorted_by(items, key),
    ensures
        is_sorted_by(insert_by(items, x, key), key),
{
    let p = lemma_insert_position(items, x, key);
    let r = items.insert(p, x);
    assert forall|i: int, j: int| 0 <= i <= j < r.len() implies text_le(
        key(#[trigger] r[i]),
        key(#[trigger] r[j]),
    ) by {
        let a = if i < p { i } else { i - 1 };
        let b = if j < p { j } else { j - 1 };
        lemma_text_le_total(key(r[i]), key(r[j]));
        if i != p && j != p {
            assert(r[i] == items[a] && r[j] == items[b]);
        } else if i < p && j == p {
            assert(text_le(key(items[i]), key(items[p - 1])));
            lemma_text_le_transitive(key(items[i]), key(items[p - 1]), key(x));
        } else if i == p && j > p {
            lemma_text_le_total(key(items[j - 1]), key(x));
        }
    }
}

/// The result of sorting is sorted.
pub proof fn law_sort_sorts<T>(items: Seq<T>, key: spec_fn(T) -> Seq<char>)
    ensures
        is_sorted_by(sort_by(items, key), key),
    decreases items.len(),
{
    if items.len() > 0 {
        law_sort_sorts(items.drop_last(), key);
        lemma_insert_sorted(sort_by(items.drop_last(), key), items.last(), key);
    }
}

proof fn lemma_insert_permutes<T>(items: Seq<T>, x: T, key: spec_fn(T) -> Seq<char>)
    ensures
        insert_by(items, x, key).to_multiset() == items.to_multiset().insert(x),
        insert_by(items, x, key).len() == items.len() + 1,
    decreases items.len(),
{
    broadcast use vstd::seq_lib::group_to_multiset_ensures;

    if items.len() > 0 && !text_le(key(items.last()), key(x)) {
        let rest = items.drop_last();
        lemma_insert_permutes(rest, x, key);
        assert(rest.push(items.last()) =~= items);
        assert(rest.to_multiset().insert(x).insert(items.last()) =~= rest.to_multiset().insert(
            items.last(),
        ).insert(x));
    }
}

/// Sorting neither loses nor adds an item.
pub proof fn law_sort_permutes<T>(items: Seq<T>, key: spec_fn(T) -> Seq<char>)
    ensures
        sort_by(items, key).to_multiset() == items.to_multiset(),
        sort_by(items, key).len() == items.len(),
    decreases items.len(),
{
    broadcast use vstd::seq_lib::group_to_multiset_ensures;

    if items.len() > 0 {
        law_sort_permutes(items.drop_last(), key);
        lemma_insert_permutes(sort_by(items.drop_last(), key), items.last(), key);
        assert(items.drop_last().push(items.last()) =~= items);
    }
}

proof fn lemma_filter_push<T>(items: Seq<T>, x: T, pred: spec_fn(T) -> bool)
    ensures
        items.push(x).filter(pred) == if pred(x) {
            items.filter(pred).push(x)
        } else {
            items.filter(pred)
        },
{
    reveal(Seq::filter);
    assert(items.push(x).drop_last() =~= items);
}

proof fn lemma_insert_stable<T>(
    items: Seq<T>,
    x: T,
    key: spec_fn(T) -> Seq<char>,
    k: Seq<char>,
)
    ensures
        insert_by(items, x, key).filter(|t: T| key(t) == k) == items.push(x).filter(
            |t: T| key(t) == k,
        ),
    decreases items.len(),
{
    let pred = |t: T| key(t) == k;
    if items.len() > 0 && !text_le(key(items.last()), key(x)) {
        let rest = items.drop_last();
        let last = items.last();
        lemma_insert_stable(rest, x, key, k);
        lemma_text_le_total(key(x), key(x));
        assert(rest.push(last) =~= items);
        lemma_filter_push(insert_by(rest, x, key), last, pred);
        lemma_filter_push(rest, x, pred);
        lemma_filter_push(rest, last, pred);
        lemma_filter_push(items, x, pred);
    }
}

/// Items with one key keep their order.
pub proof fn law_sort_is_stable<T>(items: Seq<T>, key: spec_fn(T) -> Seq<char>, k: Seq<char>)
    ensures
        sort_by(items, key).filter(|t: T| key(t) == k) == items.filter(|t: T| key(t) == k),
    decreases items.len(),
{
    if items.len() > 0 {
        let pred = |t: T| key(t) == k;
        let rest = items.drop_last();
        law_sort_is_stable(rest, key, k);
        lemma_insert_stable(sort_by(rest, key), items.last(), key, k);
        lemma_filter_push(sort_by(rest, key), items.last(), pred);
        lemma_filter_push(rest, items.last(), pred);
        assert(rest.push(items.last()) =~= items);
    }
}

/// Sorting what is sorted changes nothing.
pub proof fn law_sort_keeps_sorted<T>(items: Seq<T>, key: spec_fn(T) -> Seq<char>)
    requires
        is_sorted_by(items, key),
    ensures
        sort_by(items, key) == items,
    decreases items.len(),
{
    if items.len() > 0 {
        let rest = items.drop_last();
        assert forall|i: int, j: int| 0 <= i <= j < rest.len() implies text_le(
            key(#[trigger] rest[i]),
            key(#[trigger] rest[j]),
        ) by {
            assert(rest[i] == items[i] && rest[j] == items[j]);
        }
        law_sort_keeps_sorted(rest, key);
        assert(rest.push(items.last()) =~= items);
        if rest.len() > 0 {
            assert(text_le(key(items[rest.len() - 1]), key(items[items.len() - 1])));
            assert(rest.last() == items[rest.len() - 1]);
        }
    }
}

/// Sorting twice is sorting once.
pub proof fn law_sort_idempotent<T>(items: Seq<T>, key: spec_fn(T) -> Seq<char>)
    ensures
        sort_by(sort_by(items, key), key) == sort_by(items, key),
{
    law_sort_sorts(items, key);
    law_sort_keeps_sorted(sort_by(items, key), key);
}

} // verus!
