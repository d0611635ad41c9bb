//! A rewritten text holds new UUIDs only.

use crate::pattern::{
    hit_at, hits, hits_from, is_hex, is_word, starts_hex, uuid_hit, word_ends, Hit, UUID,
};
use crate::scheme_laws::{lemma_replaced_is_woven, woven};
use crate::table::{distinct_keys, lemma_upsert, lookup, upsert};
use crate::text::{are_plain_lines, is_plain_line, uppercase};
use crate::uniquifier::{
    is_new_uuid, is_orphan_line, is_upper_hex, line_uuids, new_line, new_uuid_for, new_uuids,
    new_uuids_formed, normalised, rewrite_run, rewrite_step, Rows,
};
use vstd::prelude::*;

verus! {

// ── A line ───────────────────────────────────────────────────────────────────

/// The text from position `i` on, with its UUIDs replaced.
pub open spec fn rewritten(s: Seq<char>, new: spec_fn(Hit) -> Seq<char>, i: int) -> Seq<char>
    decreases s.len() - i,
{
    if i < 0 || i >= s.len() {
        Seq::empty()
    } else if uuid_hit(s, i) is Some && i < uuid_hit(s, i)->Some_0.end <= s.len() {
        new(uuid_hit(s, i)->Some_0) + rewritten(s, new, uuid_hit(s, i)->Some_0.end)
    } else {
        seq![s[i]] + rewritten(s, new, i + 1)
    }
}

pub proof fn lemma_woven_is_rewritten(s: Seq<char>, new: spec_fn(Hit) -> Seq<char>, i: int)
    requires
        0 <= i <= s.len(),
    ensures
        woven(s, hits_from(UUID@, s, i), new, i) == rewritten(s, new, i),
        hits_from(UUID@, s, i).len() > 0 ==> i <= hits_from(UUID@, s, i)[0].start <= s.len(),
    decreases s.len() - i,
{
    let hs = hits_from(UUID@, s, i);
    if i == s.len() {
        assert(s.subrange(i, s.len() as int) =~= Seq::empty());
    } else {
        let h = hit_at(UUID@, s, i);
        if h is Some && i < h->Some_0.end <= s.len() {
            let hit = h->Some_0;
            lemma_woven_is_rewritten(s, new, hit.end);
            let rest = hits_from(UUID@, s, hit.end);
            assert(hs == seq![hit] + rest);
            assert(hs.drop_first() =~= rest);
            assert(s.subrange(i, i) =~= Seq::empty());
            assert(Seq::<char>::empty() + new(hit) =~= new(hit));
        } else {
            lemma_woven_is_rewritten(s, new, i + 1);
            if hs.len() == 0 {
                assert(s.subrange(i, s.len() as int) =~= seq![s[i]] + s.subrange(
                    i + 1,
                    s.len() as int,
                ));
            } else {
                assert(s.subrange(i, hs[0].start) =~= seq![s[i]] + s.subrange(i + 1, hs[0].start));
                assert(woven(s, hs, new, i) =~= seq![s[i]] + woven(s, hs, new, i + 1));
            }
        }
    }
}

/// What a UUID in a text is made of.
pub proof fn lemma_hit(s: Seq<char>, i: int)
    requires
        0 <= i <= s.len(),
        uuid_hit(s, i) is Some,
    ensures
        ({
            let h = uuid_hit(s, i)->Some_0;
            &&& i < h.end <= s.len()
            &&& i == 0 || !is_word(s[i - 1])
            &&& is_hex(s[i]) && is_hex(s[h.end - 1])
            &&& h.end < s.len() ==> !is_word(s[h.end])
        }),
{
    let rest = s.skip(i);
    let h = uuid_hit(s, i)->Some_0;
    let n = h.end - i;
    assert(rest[0] == s[i]);
    assert(rest[n - 1] == s[h.end - 1]);
    if h.end < s.len() {
        assert(rest.skip(n)[0] == s[h.end]);
    }
}

/// Every UUID that is found is replaced by a new one that is good.
spec fn all_good(
    s: Seq<char>,
    new: spec_fn(Hit) -> Seq<char>,
    good: spec_fn(Seq<char>) -> bool,
    i: int,
) -> bool {
    forall|k: int|
        0 <= k < hits_from(UUID@, s, i).len() ==> is_new_uuid(
            new(#[trigger] hits_from(UUID@, s, i)[k]),
        ) && good(new(hits_from(UUID@, s, i)[k]))
}

proof fn lemma_good_rest(
    s: Seq<char>,
    new: spec_fn(Hit) -> Seq<char>,
    good: spec_fn(Seq<char>) -> bool,
    i: int,
)
    requires
        0 <= i < s.len(),
        all_good(s, new, good, i),
    ensures
        uuid_hit(s, i) is Some ==> {
            let h = uuid_hit(s, i)->Some_0;
            &&& is_new_uuid(new(h)) && good(new(h))
            &&& all_good(s, new, good, h.end)
        },
        uuid_hit(s, i) is None ==> all_good(s, new, good, i + 1),
{
    let all = hits_from(UUID@, s, i);
    if uuid_hit(s, i) is Some {
        lemma_hit(s, i);
        let h = uuid_hit(s, i)->Some_0;
        let rest = hits_from(UUID@, s, h.end);
        assert(all == seq![h] + rest);
        assert(all[0] == h);
        assert forall|k: int| 0 <= k < rest.len() implies is_new_uuid(new(#[trigger] rest[k]))
            && good(new(rest[k])) by {
            assert(all[k + 1] == rest[k]);
        }
    } else {
        assert(all == hits_from(UUID@, s, i + 1));
    }
}

proof fn lemma_hex_is_word(c: char)
    requires
        is_hex(c),
    ensures
        is_word(c),
{
}

/// How a rewritten text begins.
proof fn lemma_first(
    s: Seq<char>,
    new: spec_fn(Hit) -> Seq<char>,
    good: spec_fn(Seq<char>) -> bool,
    i: int,
)
    requires
        0 <= i <= s.len(),
        all_good(s, new, good, i),
    ensures
        (rewritten(s, new, i).len() > 0) == (i < s.len()),
        i < s.len() ==> is_word(rewritten(s, new, i)[0]) == is_word(s[i]),
        i < s.len() && uuid_hit(s, i) is None ==> rewritten(s, new, i)[0] == s[i],
{
    if i < s.len() {
        lemma_good_rest(s, new, good, i);
        if uuid_hit(s, i) is Some {
            lemma_hit(s, i);
            let v = new(uuid_hit(s, i)->Some_0);
            assert(is_upper_hex(v[0]));
            lemma_hex_is_word(s[i]);
            assert(rewritten(s, new, i)[0] == v[0]);
        }
    }
}

/// Hexadecimal digits of a rewritten text that do not begin with a UUID are those
/// of the text.
proof fn lemma_run_same(
    s: Seq<char>,
    new: spec_fn(Hit) -> Seq<char>,
    good: spec_fn(Seq<char>) -> bool,
    i: int,
    n: int,
)
    requires
        0 <= i <= s.len(),
        all_good(s, new, good, i),
        uuid_hit(s, i) is None,
        0 <= n <= rewritten(s, new, i).len(),
        forall|k: int| 0 <= k < n ==> is_hex(#[trigger] rewritten(s, new, i)[k]),
    ensures
        i + n <= s.len(),
        forall|k: int| 0 <= k < n ==> #[trigger] s[i + k] == rewritten(s, new, i)[k],
        (n < rewritten(s, new, i).len()) == (i + n < s.len()),
        i + n < s.len() ==> is_word(rewritten(s, new, i)[n]) == is_word(s[i + n]),
    decreases n,
{
    let r = rewritten(s, new, i);
    lemma_first(s, new, good, i);
    if n > 0 {
        lemma_good_rest(s, new, good, i);
        let q = rewritten(s, new, i + 1);
        assert(r == seq![s[i]] + q);
        assert(r[0] == s[i]);
        lemma_hex_is_word(s[i]);
        assert(uuid_hit(s, i + 1) is None);
        assert forall|k: int| 0 <= k < n - 1 implies is_hex(#[trigger] q[k]) by {
            assert(r[k + 1] == q[k]);
        }
        lemma_run_same(s, new, good, i + 1, n - 1);
        assert forall|k: int| 0 <= k < n implies #[trigger] s[i + k] == r[k] by {
            if k > 0 {
                assert(s[(i + 1) + (k - 1)] == q[k - 1]);
                assert(r[k] == q[k - 1]);
            }
        }
        if i + n < s.len() {
            assert(r[n] == q[n - 1]);
        }
    }
}

/// Every UUID of a text is good.
spec fn only_good(t: Seq<char>, good: spec_fn(Seq<char>) -> bool, from: int) -> bool {
    forall|k: int|
        from <= k <= t.len() && (#[trigger] uuid_hit(t, k)) is Some ==> good(
            uuid_hit(t, k)->Some_0.first,
        )
}

/// The text ends in a word.
spec fn ends_in_word(t: Seq<char>) -> bool {
    t.len() > 0 && is_word(t.last())
}

#[verifier::rlimit(60)]
#[verifier::spinoff_prover]
proof fn lemma_only_good(
    s: Seq<char>,
    new: spec_fn(Hit) -> Seq<char>,
    good: spec_fn(Seq<char>) -> bool,
    i: int,
    pre: Seq<char>,
)
    requires
        0 <= i <= s.len(),
        all_good(s, new, good, i),
        ends_in_word(pre) == (i > 0 && is_word(s[i - 1])),
    ensures
        only_good(pre + rewritten(s, new, i), good, pre.len() as int),
    decreases s.len() - i,
{
    let r = rewritten(s, new, i);
    let t = pre + r;
    let p = pre.len() as int;
    if i == s.len() {
        assert forall|k: int| p <= k <= t.len() && (#[trigger] uuid_hit(t, k)) is Some implies good(
            uuid_hit(t, k)->Some_0.first,
        ) by {
            lemma_hit(t, k);
        }
    } else if uuid_hit(s, i) is Some {
        lemma_good_rest(s, new, good, i);
        lemma_hit(s, i);
        let h = uuid_hit(s, i)->Some_0;
        let v = new(h);
        let q = rewritten(s, new, h.end);
        assert(r == v + q);
        assert(forall|k: int| 0 <= k < 32 ==> is_upper_hex(#[trigger] v[k]));
        lemma_hex_is_word(s[h.end - 1]);
        assert((pre + v).last() == v[31]);
        lemma_hex_is_word(v[31]);
        lemma_only_good(s, new, good, h.end, pre + v);
        assert((pre + v) + q =~= t);
        lemma_first(s, new, good, h.end);
        assert forall|k: int| p <= k <= t.len() && (#[trigger] uuid_hit(t, k)) is Some implies good(
            uuid_hit(t, k)->Some_0.first,
        ) by {
            lemma_hit(t, k);
            if k == p {
                let rest = t.skip(p);
                assert(rest =~= r);
                assert(starts_hex(rest, 32)) by {
                    assert forall|j: int| 0 <= j < 32 implies is_hex(#[trigger] rest[j]) by {
                        assert(rest[j] == v[j]);
                    }
                }
                assert(rest.skip(32) =~= q);
                assert(word_ends(q));
                assert(rest.take(32) =~= v);
            } else if k < p + 32 {
                assert(t[k - 1] == v[k - 1 - p]);
                lemma_hex_is_word(t[k - 1]);
            }
        }
    } else {
        lemma_good_rest(s, new, good, i);
        let q = rewritten(s, new, i + 1);
        assert(r == seq![s[i]] + q);
        let more = pre.push(s[i]);
        assert(more.last() == s[i]);
        lemma_only_good(s, new, good, i + 1, more);
        assert(more + q =~= t);
        assert forall|k: int| p <= k <= t.len() && (#[trigger] uuid_hit(t, k)) is Some implies good(
            uuid_hit(t, k)->Some_0.first,
        ) by {
            if k == p {
                lemma_hit(t, k);
                let rest = t.skip(p);
                assert(rest =~= r);
                let n = uuid_hit(t, k)->Some_0.end - k;
                assert(starts_hex(r, n) && word_ends(r.skip(n)));
                lemma_run_same(s, new, good, i, n);
                let o = s.skip(i);
                assert(starts_hex(o, n)) by {
                    assert forall|j: int| 0 <= j < n implies is_hex(#[trigger] o[j]) by {
                        assert(s[i + j] == r[j]);
                    }
                }
                assert(word_ends(o.skip(n))) by {
                    if i + n < s.len() {
                        assert(r.skip(n)[0] == r[n]);
                        assert(o.skip(n)[0] == s[i + n]);
                    }
                }
                assert(p == 0 || !is_word(t[p - 1]));
                if p > 0 {
                    assert(t[p - 1] == pre.last());
                }
                assert(i == 0 || !is_word(s[i - 1]));
                assert(uuid_hit(s, i) is Some);
            }
        }
    }
}

proof fn lemma_hits_good(t: Seq<char>, good: spec_fn(Seq<char>) -> bool, i: int)
    requires
        only_good(t, good, 0),
        0 <= i,
    ensures
        forall|k: int|
            0 <= k < hits_from(UUID@, t, i).len() ==> good(
                (#[trigger] hits_from(UUID@, t, i)[k]).first,
            ),
    decreases t.len() - i,
{
    if i < t.len() {
        let all = hits_from(UUID@, t, i);
        let h = hit_at(UUID@, t, i);
        assert(h == uuid_hit(t, i));
        if h is Some && i < h->Some_0.end <= t.len() {
            lemma_hits_good(t, good, h->Some_0.end);
            let rest = hits_from(UUID@, t, h->Some_0.end);
            assert(all == seq![h->Some_0] + rest);
            assert forall|k: int| 0 <= k < all.len() implies good((#[trigger] all[k]).first) by {
                if k > 0 {
                    assert(all[k] == rest[k - 1]);
                    assert(good(rest[k - 1].first));
                } else {
                    assert(all[0] == uuid_hit(t, i)->Some_0);
                }
            }
        } else {
            lemma_hits_good(t, good, i + 1);
            assert(all == hits_from(UUID@, t, i + 1));
        }
    }
}

/// A rewritten line is a line.
proof fn lemma_rewritten_plain(
    s: Seq<char>,
    new: spec_fn(Hit) -> Seq<char>,
    good: spec_fn(Seq<char>) -> bool,
    i: int,
)
    requires
        0 <= i <= s.len(),
        all_good(s, new, good, i),
        is_plain_line(s),
    ensures
        is_plain_line(rewritten(s, new, i)),
        (rewritten(s, new, i).len() > 0) == (i < s.len()),
    decreases s.len() - i,
{
    let r = rewritten(s, new, i);
    lemma_first(s, new, good, i);
    if i < s.len() {
        lemma_good_rest(s, new, good, i);
        if uuid_hit(s, i) is Some {
            lemma_hit(s, i);
            let h = uuid_hit(s, i)->Some_0;
            let v = new(h);
            let q = rewritten(s, new, h.end);
            lemma_rewritten_plain(s, new, good, h.end);
            assert(r == v + q);
            assert(forall|k: int| 0 <= k < 32 ==> is_upper_hex(#[trigger] v[k]));
            assert forall|k: int| 0 <= k < r.len() implies r[k] != '\n' by {
                if k < 32 {
                    assert(r[k] == v[k]);
                } else {
                    assert(r[k] == q[k - 32]);
                }
            }
            assert(r.last() != '\r') by {
                if q.len() > 0 {
                    assert(r.last() == q.last());
                } else {
                    assert(r.last() == v[31]);
                }
            }
        } else {
            let q = rewritten(s, new, i + 1);
            lemma_rewritten_plain(s, new, good, i + 1);
            assert(r == seq![s[i]] + q);
            assert forall|k: int| 0 <= k < r.len() implies r[k] != '\n' by {
                if k > 0 {
                    assert(r[k] == q[k - 1]);
                }
            }
            assert(r.last() != '\r') by {
                if q.len() > 0 {
                    assert(r.last() == q.last());
                } else {
                    assert(i + 1 == s.len());
                    assert(r.last() == s.last());
                }
            }
        }
    }
}

// ── A text ───────────────────────────────────────────────────────────────────

/// A new UUID of a registered object.
pub open spec fn is_given(rows: Rows, u: Seq<char>) -> bool {
    exists|j: int| 0 <= j < rows.len() && (#[trigger] rows[j]).1.1 == u
}

/// The line holds no UUID but new ones.
pub open spec fn holds_given(rows: Rows, line: Seq<char>) -> bool {
    forall|k: int|
        0 <= k < hits(UUID@, line).len() ==> is_given(rows, (#[trigger] hits(UUID@, line)[k]).first)
}

pub proof fn lemma_lookup_given(rows: Rows, n: int, u: Seq<char>)
    requires
        0 <= n <= rows.len(),
        new_uuids_formed(rows),
    ensures
        ({
            let map = normalised(new_uuids(rows).take(n));
            &&& distinct_keys(map)
            &&& lookup(map, u) is Some ==> is_given(rows, lookup(map, u)->Some_0) && is_new_uuid(
                lookup(map, u)->Some_0,
            )
        }),
    decreases n,
{
    let part = new_uuids(rows).take(n);
    if n > 0 {
        lemma_lookup_given(rows, n - 1, u);
        assert(part.drop_last() =~= new_uuids(rows).take(n - 1));
        let before = normalised(part.drop_last());
        let key = uppercase(rows[n - 1].0);
        let v = rows[n - 1].1.1;
        assert(part.last() == (rows[n - 1].0, v));
        assert(normalised(part) == upsert(before, key, v));
        lemma_upsert(before, key, v);
        assert(is_new_uuid(rows[n - 1].1.1));
        assert(lookup(upsert(before, key, v), u) == if u == key {
            Some(v)
        } else {
            lookup(before, u)
        });
    } else {
        assert(part =~= Seq::empty());
    }
}

/// A rewritten line holds no UUIDs but those that it was given.
pub proof fn lemma_given_line(
    map: Seq<(Seq<char>, Seq<char>)>,
    line: Seq<char>,
    good: spec_fn(Seq<char>) -> bool,
)
    requires
        forall|k: int|
            0 <= k < hits(UUID@, line).len() ==> {
                let v = new_uuid_for(map, #[trigger] hits(UUID@, line)[k]);
                is_new_uuid(v) && good(v)
            },
    ensures
        forall|k: int|
            0 <= k < hits(UUID@, new_line(map, line)).len() ==> good(
                (#[trigger] hits(UUID@, new_line(map, line))[k]).first,
            ),
        is_plain_line(line) ==> is_plain_line(new_line(map, line)),
{
    let hs = hits(UUID@, line);
    let new = |h: Hit| new_uuid_for(map, h);
    assert forall|k: int| 0 <= k < hs.len() implies is_new_uuid(new(#[trigger] hs[k])) && good(
        new(hs[k]),
    ) by {
        assert(is_new_uuid(new_uuid_for(map, hits(UUID@, line)[k])));
    }
    assert(all_good(line, new, good, 0));
    lemma_replaced_is_woven(line, hs, new);
    lemma_woven_is_rewritten(line, new, 0);
    let none = Seq::<char>::empty();
    lemma_only_good(line, new, good, 0, none);
    let t = new_line(map, line);
    assert(none + t =~= t);
    lemma_hits_good(t, good, 0);
    if is_plain_line(line) {
        lemma_rewritten_plain(line, new, good, 0);
    }
    assert forall|k: int| 0 <= k < hits(UUID@, t).len() implies good(
        (#[trigger] hits(UUID@, t)[k]).first,
    ) by {
        assert(good(hits_from(UUID@, t, 0)[k].first));
    }
}

/// A rewritten line holds new UUIDs only.
proof fn lemma_new_line(rows: Rows, remove: Seq<Seq<char>>, line: Seq<char>)
    requires
        new_uuids_formed(rows),
        !is_orphan_line(normalised(new_uuids(rows)), remove, line),
    ensures
        holds_given(rows, new_line(normalised(new_uuids(rows)), line)),
        is_plain_line(line) ==> is_plain_line(new_line(normalised(new_uuids(rows)), line)),
{
    let map = normalised(new_uuids(rows));
    let hs = hits(UUID@, line);
    let good = |u: Seq<char>| is_given(rows, u);
    assert(new_uuids(rows).take(rows.len() as int) =~= new_uuids(rows));
    assert forall|k: int| 0 <= k < hs.len() implies {
        let v = new_uuid_for(map, #[trigger] hits(UUID@, line)[k]);
        is_new_uuid(v) && good(v)
    } by {
        assert(line_uuids(line)[k] == uppercase(hs[k].first));
        assert(lookup(map, line_uuids(line)[k]) is Some);
        lemma_lookup_given(rows, rows.len() as int, uppercase(hs[k].first));
    }
    lemma_given_line(map, line, good);
    let t = new_line(map, line);
    assert forall|k: int| 0 <= k < hits(UUID@, t).len() implies is_given(
        rows,
        (#[trigger] hits(UUID@, t)[k]).first,
    ) by {
        assert(good(hits(UUID@, t)[k].first));
    }
}

/// A text that was given new UUIDs holds no others.
pub proof fn law_only_new_uuids_are_left(rows: Rows, remove: Seq<Seq<char>>, lines: Seq<Seq<char>>)
    requires
        new_uuids_formed(rows),
    ensures
        forall|i: int|
            0 <= i < rewrite_run(normalised(new_uuids(rows)), remove, lines).out.len()
                ==> holds_given(
                rows,
                #[trigger] rewrite_run(normalised(new_uuids(rows)), remove, lines).out[i],
            ),
    decreases lines.len(),
{
    let map = normalised(new_uuids(rows));
    if lines.len() > 0 {
        law_only_new_uuids_are_left(rows, remove, lines.drop_last());
        let st = rewrite_run(map, remove, lines.drop_last());
        let line = lines.last();
        let after = rewrite_step(map, remove, st, line);
        assert(rewrite_run(map, remove, lines) == after);
        if after.out != st.out {
            lemma_new_line(rows, remove, line);
            assert forall|i: int| 0 <= i < after.out.len() implies holds_given(
                rows,
                #[trigger] after.out[i],
            ) by {
                if i < st.out.len() {
                    assert(after.out[i] == st.out[i]);
                }
            }
        }
    }
}

/// Rewritten lines are lines.
pub proof fn lemma_rewritten_lines(rows: Rows, remove: Seq<Seq<char>>, lines: Seq<Seq<char>>)
    requires
        new_uuids_formed(rows),
        are_plain_lines(lines),
    ensures
        are_plain_lines(rewrite_run(normalised(new_uuids(rows)), remove, lines).out),
    decreases lines.len(),
{
    let map = normalised(new_uuids(rows));
    if lines.len() > 0 {
        let rest = lines.drop_last();
        assert forall|i: int| 0 <= i < rest.len() implies is_plain_line(#[trigger] rest[i]) by {
            assert(rest[i] == lines[i]);
        }
        lemma_rewritten_lines(rows, remove, rest);
        let st = rewrite_run(map, remove, rest);
        let line = lines.last();
        assert(is_plain_line(lines[lines.len() - 1]));
        let after = rewrite_step(map, remove, st, line);
        assert(rewrite_run(map, remove, lines) == after);
        if after.out != st.out {
            lemma_new_line(rows, remove, line);
            assert forall|i: int| 0 <= i < after.out.len() implies is_plain_line(
                #[trigger] after.out[i],
            ) by {
                if i < st.out.len() {
                    assert(after.out[i] == st.out[i]);
                }
            }
        }
    }
}

} // verus!
