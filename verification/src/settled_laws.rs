//! A project with deterministic UUIDs keeps them.

use crate::parser::Project;
use crate::pattern::{hit_at, hits, hits_from, Hit, UUID};
use crate::pipeline::uniquified;
use crate::renaming_laws::{is_fixed, is_renamed, law_new_uuids_ignore_old_ones, Renaming};
use crate::table::{distinct_keys, lookup, upsert};
use crate::text::{lines_of, unlines, uppercase};
use crate::uniquifier::{
    is_orphan_line, is_removed, line_uuids, new_line, new_uuid_for, new_uuids, normalised,
    registry, replaced, replaced_until, rewrite_run, Rows,
};
use vstd::prelude::*;

verus! {

// ── Lines that keep their UUIDs ──────────────────────────────────────────────

/// The matches follow each other.
pub open spec fn in_order(s: Seq<char>, hs: Seq<Hit>, from: int) -> bool {
    &&& forall|k: int|
        0 <= k < hs.len() ==> from <= (#[trigger] hs[k]).start <= hs[k].end <= s.len()
    &&& forall|k: int| 0 < k < hs.len() ==> hs[k - 1].end <= (#[trigger] hs[k]).start
}

pub proof fn lemma_hits_in_order(p: Seq<char>, s: Seq<char>, i: int)
    requires
        0 <= i,
    ensures
        in_order(s, hits_from(p, s, i), i),
        forall|k: int|
            0 <= k < hits_from(p, s, i).len() ==> (#[trigger] hits_from(p, s, i)[k]).start
                < hits_from(p, s, i)[k].end,
        p == UUID@ ==> forall|k: int|
            0 <= k < hits_from(p, s, i).len() ==> (#[trigger] hits_from(p, s, i)[k]).first
                == s.subrange(hits_from(p, s, i)[k].start, hits_from(p, s, i)[k].end),
    decreases s.len() - i,
{
    if i < s.len() {
        let h = hit_at(p, s, i);
        let all = hits_from(p, s, i);
        if h is Some && i < h->Some_0.end <= s.len() {
            let hit = h->Some_0;
            lemma_hits_in_order(p, s, hit.end);
            let rest = hits_from(p, s, hit.end);
            assert(all == seq![hit] + rest);
            assert(p == UUID@ ==> hit.first =~= s.subrange(hit.start, hit.end));
            assert forall|k: int| 0 <= k < all.len() implies {
                &&& i <= (#[trigger] all[k]).start < all[k].end <= s.len()
                &&& p == UUID@ ==> all[k].first == s.subrange(all[k].start, all[k].end)
            } by {
                if k > 0 {
                    assert(all[k] == rest[k - 1]);
                }
            }
            assert forall|k: int| 0 < k < all.len() implies all[k - 1].end <= (
            #[trigger] all[k]).start by {
                assert(all[k] == rest[k - 1]);
                if k > 1 {
                    assert(all[k - 1] == rest[k - 2]);
                    assert(rest[k - 2].end <= rest[k - 1].start);
                }
            }
        } else {
            lemma_hits_in_order(p, s, i + 1);
            assert forall|k: int| 0 <= k < all.len() implies i <= (#[trigger] all[k]).start by {
                assert(i + 1 <= all[k].start);
            }
        }
    }
}

proof fn lemma_replaced_until_same(
    s: Seq<char>,
    hs: Seq<Hit>,
    new: spec_fn(Hit) -> Seq<char>,
    k: int,
)
    requires
        in_order(s, hs, 0),
        0 <= k <= hs.len(),
        forall|i: int| 0 <= i < hs.len() ==> new(#[trigger] hs[i]) == s.subrange(
            hs[i].start,
            hs[i].end,
        ),
    ensures
        replaced_until(s, hs, new, k) == s.subrange(
            0,
            if k == 0 {
                0
            } else {
                hs[k - 1].end
            },
        ),
    decreases k,
{
    if k > 0 {
        lemma_replaced_until_same(s, hs, new, k - 1);
        let h = hs[k - 1];
        assert(new(hs[k - 1]) == s.subrange(h.start, h.end));
        if k > 1 {
            assert(hs[k - 2].end <= hs[k - 1].start);
            assert(hs[k - 2].end <= s.len());
            assert(0 <= hs[k - 2].start);
        }
        assert(replaced_until(s, hs, new, k) =~= s.subrange(0, h.end));
    } else {
        assert(replaced_until(s, hs, new, k) =~= s.subrange(0, 0));
    }
}

/// Two matches are not the same.
pub proof fn lemma_places_differ(s: Seq<char>, hs: Seq<Hit>, i: int, k: int)
    requires
        in_order(s, hs, 0),
        forall|k: int| 0 <= k < hs.len() ==> (#[trigger] hs[k]).start < hs[k].end,
        0 <= i < hs.len(),
        0 <= k < hs.len(),
        i != k,
    ensures
        i < k ==> hs[i].end <= hs[k].start,
        k < i ==> hs[k].end <= hs[i].start,
        hs[i] != hs[k],
    decreases
            if i < k {
                2 * (k - i)
            } else {
                2 * (i - k) + 1
            },
{
    assert(hs[i].start < hs[i].end && hs[k].start < hs[k].end);
    if i < k {
        assert(hs[k - 1].end <= hs[k].start);
        if i < k - 1 {
            lemma_places_differ(s, hs, i, k - 1);
            assert(hs[k - 1].start < hs[k - 1].end);
        }
    } else {
        lemma_places_differ(s, hs, k, i);
    }
}

proof fn lemma_replaced_until_one(
    s: Seq<char>,
    hs: Seq<Hit>,
    new: spec_fn(Hit) -> Seq<char>,
    k: int,
    n: int,
)
    requires
        in_order(s, hs, 0),
        0 <= k < n <= hs.len(),
        forall|i: int| 0 <= i < hs.len() && i != k ==> new(#[trigger] hs[i]) == s.subrange(
            hs[i].start,
            hs[i].end,
        ),
    ensures
        hs[k].end <= hs[n - 1].end,
        replaced_until(s, hs, new, n) == s.take(hs[k].start) + new(hs[k]) + s.subrange(
            hs[k].end,
            hs[n - 1].end,
        ),
    decreases n,
{
    let h = hs[n - 1];
    assert(0 <= h.start <= h.end <= s.len());
    if n > k + 1 {
        lemma_replaced_until_one(s, hs, new, k, n - 1);
        assert(hs[n - 2].end <= hs[n - 1].start);
        assert(hs[k].start <= hs[k].end);
        assert(new(hs[n - 1]) == s.subrange(h.start, h.end));
        assert(s.subrange(hs[k].end, hs[n - 2].end) + s.subrange(hs[n - 2].end, h.start)
            + s.subrange(h.start, h.end) =~= s.subrange(hs[k].end, h.end));
        assert(replaced_until(s, hs, new, n) =~= s.take(hs[k].start) + new(hs[k]) + (s.subrange(
            hs[k].end,
            hs[n - 2].end,
        ) + s.subrange(hs[n - 2].end, h.start) + s.subrange(h.start, h.end)));
    } else {
        lemma_before_one(s, hs, new, k, k);
        if k > 0 {
            assert(hs[k - 1].end <= hs[k].start);
            assert(0 <= hs[k - 1].start <= hs[k - 1].end);
        }
        assert(replaced_until(s, hs, new, n) =~= s.take(h.start) + new(h) + s.subrange(
            h.end,
            h.end,
        ));
    }
}

proof fn lemma_before_one(
    s: Seq<char>,
    hs: Seq<Hit>,
    new: spec_fn(Hit) -> Seq<char>,
    k: int,
    n: int,
)
    requires
        in_order(s, hs, 0),
        0 <= n <= k < hs.len(),
        forall|i: int| 0 <= i < hs.len() && i != k ==> new(#[trigger] hs[i]) == s.subrange(
            hs[i].start,
            hs[i].end,
        ),
    ensures
        replaced_until(s, hs, new, n) == s.take(
            if n == 0 {
                0
            } else {
                hs[n - 1].end
            },
        ),
    decreases n,
{
    if n > 0 {
        lemma_before_one(s, hs, new, k, n - 1);
        let h = hs[n - 1];
        assert(new(hs[n - 1]) == s.subrange(h.start, h.end));
        if n > 1 {
            assert(hs[n - 2].end <= hs[n - 1].start);
            assert(0 <= hs[n - 2].start);
        }
        assert(replaced_until(s, hs, new, n) =~= s.take(h.end));
    } else {
        assert(replaced_until(s, hs, new, n) =~= s.take(0));
    }
}

/// A text with all its matches but one replaced by themselves differs there only.
pub proof fn lemma_replaced_one(
    s: Seq<char>,
    hs: Seq<Hit>,
    new: spec_fn(Hit) -> Seq<char>,
    k: int,
)
    requires
        in_order(s, hs, 0),
        0 <= k < hs.len(),
        forall|i: int| 0 <= i < hs.len() && i != k ==> new(#[trigger] hs[i]) == s.subrange(
            hs[i].start,
            hs[i].end,
        ),
    ensures
        replaced(s, hs, new) == s.take(hs[k].start) + new(hs[k]) + s.skip(hs[k].end),
{
    let n = hs.len() as int;
    lemma_replaced_until_one(s, hs, new, k, n);
    assert(0 <= hs[n - 1].start <= hs[n - 1].end <= s.len());
    assert(0 <= hs[k].start <= hs[k].end);
    assert(s.subrange(hs[k].end, hs[n - 1].end) + s.skip(hs[n - 1].end) =~= s.skip(hs[k].end));
    assert(replaced(s, hs, new) =~= s.take(hs[k].start) + new(hs[k]) + (s.subrange(
        hs[k].end,
        hs[n - 1].end,
    ) + s.skip(hs[n - 1].end)));
}

/// A text whose matches are replaced by themselves stays as it is.
pub proof fn lemma_replaced_same(s: Seq<char>, hs: Seq<Hit>, new: spec_fn(Hit) -> Seq<char>)
    requires
        in_order(s, hs, 0),
        forall|i: int| 0 <= i < hs.len() ==> new(#[trigger] hs[i]) == s.subrange(
            hs[i].start,
            hs[i].end,
        ),
    ensures
        replaced(s, hs, new) == s,
{
    let n = hs.len() as int;
    lemma_replaced_until_same(s, hs, new, n);
    if n > 0 {
        assert(hs[n - 1].end <= s.len() && 0 <= hs[n - 1].start);
    }
    assert(replaced(s, hs, new) =~= s);
}

/// Every UUID of the line is known, stays as it is and is not dropped.
pub open spec fn is_settled_line(
    map: Seq<(Seq<char>, Seq<char>)>,
    remove: Seq<Seq<char>>,
    line: Seq<char>,
) -> bool {
    forall|k: int|
        0 <= k < hits(UUID@, line).len() ==> {
            let u = (#[trigger] hits(UUID@, line)[k]).first;
            lookup(map, uppercase(u)) == Some(u) && !is_removed(remove, uppercase(u))
        }
}

/// Rewriting lines whose UUIDs are settled changes nothing.
pub proof fn law_settled_lines_are_kept(
    map: Seq<(Seq<char>, Seq<char>)>,
    remove: Seq<Seq<char>>,
    lines: Seq<Seq<char>>,
)
    requires
        forall|i: int| 0 <= i < lines.len() ==> is_settled_line(map, remove, #[trigger] lines[i]),
    ensures
        rewrite_run(map, remove, lines).out == lines,
        rewrite_run(map, remove, lines).removed == 0,
        rewrite_run(map, remove, lines).skip_to is None,
    decreases lines.len(),
{
    if lines.len() > 0 {
        let rest = lines.drop_last();
        let line = lines.last();
        assert forall|i: int| 0 <= i < rest.len() implies is_settled_line(
            map,
            remove,
            #[trigger] rest[i],
        ) by {
            assert(rest[i] == lines[i]);
        }
        law_settled_lines_are_kept(map, remove, rest);
        assert(is_settled_line(map, remove, lines[lines.len() - 1]));
        let hs = hits(UUID@, line);
        assert forall|k: int| 0 <= k < line_uuids(line).len() implies !is_removed(
            remove,
            #[trigger] line_uuids(line)[k],
        ) && lookup(map, line_uuids(line)[k]) is Some by {
            assert(line_uuids(line)[k] == uppercase(hs[k].first));
        }
        assert(!is_orphan_line(map, remove, line));
        lemma_hits_in_order(UUID@, line, 0);
        let new = |h: Hit| new_uuid_for(map, h);
        assert forall|k: int| 0 <= k < hs.len() implies new(#[trigger] hs[k]) == line.subrange(
            hs[k].start,
            hs[k].end,
        ) by {
            assert(hs[k].first == line.subrange(hs[k].start, hs[k].end));
        }
        lemma_replaced_same(line, hs, new);
        assert(new_line(map, line) == line);
        assert(rest.push(line) =~= lines);
    }
}

// ── Projects that keep their UUIDs ───────────────────────────────────────────

/// Every registered object has the UUID that its path asks for.
pub open spec fn is_settled(rows: Rows) -> bool {
    forall|i: int| 0 <= i < rows.len() ==> (#[trigger] rows[i]).0 == rows[i].1.1
}

/// A project whose registered objects have been given their new UUIDs, and which
/// is otherwise the same, keeps them; unless a UUID that was changed stands in a
/// path for want of a name.
pub proof fn law_new_uuids_are_kept(f: Renaming, p: Project, q: Project, name: Seq<char>)
    requires
        is_renamed(f, p, q),
        is_fixed(f, registry(p, name).exposed),
        forall|i: int|
            0 <= i < registry(p, name).rows.len() ==> f(
                (#[trigger] registry(p, name).rows[i]).0,
            ) == registry(p, name).rows[i].1.1,
    ensures
        is_settled(registry(q, name).rows),
{
    law_new_uuids_ignore_old_ones(f, p, q, name);
    let a = registry(p, name).rows;
    let b = registry(q, name).rows;
    assert forall|i: int| 0 <= i < b.len() implies (#[trigger] b[i]).0 == b[i].1.1 by {
        assert(b[i] == (f(a[i].0), a[i].1));
        assert(f(a[i].0) == a[i].1.1);
    }
}

/// UUIDs in upper case that are settled are mapped to themselves.
proof fn lemma_settled_lookup(rows: Rows, n: int, u: Seq<char>)
    requires
        0 <= n <= rows.len(),
        is_settled(rows),
        forall|i: int| 0 <= i < rows.len() ==> uppercase((#[trigger] rows[i]).0) == rows[i].0,
    ensures
        ({
            let map = normalised(new_uuids(rows).take(n));
            &&& distinct_keys(map)
            &&& (exists|i: int| 0 <= i < n && (#[trigger] rows[i]).0 == u) ==> lookup(map, u)
                == Some(u)
        }),
    decreases n,
{
    let part = new_uuids(rows).take(n);
    if n > 0 {
        lemma_settled_lookup(rows, n - 1, u);
        assert(part.drop_last() =~= new_uuids(rows).take(n - 1));
        let before = normalised(part.drop_last());
        let key = rows[n - 1].0;
        assert(part.last() == (rows[n - 1].0, rows[n - 1].1.1));
        assert(uppercase(rows[n - 1].0) == rows[n - 1].0);
        assert(normalised(part) == upsert(before, key, key));
        crate::table::lemma_upsert(before, key, key);
        assert(lookup(upsert(before, key, key), u) == if u == key {
            Some(key)
        } else {
            lookup(before, u)
        });
        if exists|i: int| 0 <= i < n && (#[trigger] rows[i]).0 == u {
            let i = choose|i: int| 0 <= i < n && (#[trigger] rows[i]).0 == u;
            if i == n - 1 {
                assert(u == key);
            } else {
                assert(0 <= i < n - 1 && rows[i].0 == u);
            }
        }
    } else {
        assert(part =~= Seq::empty());
    }
}

/// Every UUID of the text is that of a registered object which is not dropped.
pub open spec fn all_registered(rows: Rows, remove: Seq<Seq<char>>, text: Seq<char>) -> bool {
    forall|i: int, k: int|
        0 <= i < lines_of(text).len() && 0 <= k < hits(UUID@, lines_of(text)[i]).len() ==> {
            let u = (#[trigger] hits(UUID@, lines_of(text)[i])[k]).first;
            &&& uppercase(u) == u
            &&& !is_removed(remove, u)
            &&& exists|j: int| 0 <= j < rows.len() && (#[trigger] rows[j]).0 == u
        }
}

/// Making the UUIDs of a project deterministic which has such UUIDs changes
/// nothing: all UUIDs, in upper case, are those of registered objects.
pub proof fn law_settled_text_is_kept(text: Seq<char>, project: Project, name: Seq<char>)
    requires
        unlines(lines_of(text)) == text,
        is_settled(registry(project, name).rows),
        forall|i: int|
            0 <= i < registry(project, name).rows.len() ==> uppercase(
                (#[trigger] registry(project, name).rows[i]).0,
            ) == registry(project, name).rows[i].0,
        all_registered(registry(project, name).rows, registry(project, name).remove, text),
    ensures
        uniquified(text, project, name) == text,
{
    let reg = registry(project, name);
    let map = normalised(new_uuids(reg.rows));
    let lines = lines_of(text);
    assert(new_uuids(reg.rows).take(reg.rows.len() as int) =~= new_uuids(reg.rows));
    assert forall|i: int| 0 <= i < lines.len() implies is_settled_line(
        map,
        reg.remove,
        #[trigger] lines[i],
    ) by {
        assert forall|k: int| 0 <= k < hits(UUID@, lines[i]).len() implies {
            let u = (#[trigger] hits(UUID@, lines[i])[k]).first;
            lookup(map, uppercase(u)) == Some(u) && !is_removed(reg.remove, uppercase(u))
        } by {
            let u = hits(UUID@, lines[i])[k].first;
            lemma_settled_lookup(reg.rows, reg.rows.len() as int, u);
        }
    }
    law_settled_lines_are_kept(map, reg.remove, lines);
}

} // verus!
