//! A text with its new UUIDs has settled UUIDs.

use crate::line_reading::{
    all_closed, changes_uuids_only, is_closed_line, is_whole_line,
    law_rewritten_line_has_renamed_tokens, replaces, spot_of, text_facts,
};
use crate::naming_laws::is_known;
use crate::parser::{project_in, Project};
use crate::pattern::{hits, hits_from, Hit, UUID};
use crate::pipeline::uniquified;
use crate::project_facts::{law_text_shows_project, path_of_fact, top_path};
use crate::reading::{is_worth, repeats_key, Fact, Spot};
use crate::renamed_facts::{
    drops_whole_entries, has_valid_strings, is_line_renamed, kept_lines, lemma_kept_facts,
    lemma_renamed_text, lemma_rewritten_kept, renamed_fact, renamed_path, renamed_step,
};
use crate::rewritten_laws::{
    lemma_given_line, lemma_rewritten_lines, lemma_woven_is_rewritten, rewritten,
};
use crate::scheme_laws::lemma_replaced_is_woven;
use crate::second_run_laws::has_settled_uuids;
use crate::settle_laws::{is_steady, law_left_project_is_settled, lemma_steady};
use crate::sorted_facts::fact_bag;
use crate::table::{distinct_keys, lemma_slot, lemma_slot_at, lemma_upsert, lookup, slot, upsert};
use crate::text::{
    all_ascii, are_plain_lines, ascii_upper, lemma_lines_of_unlines, lines_of, unlines, uppercase,
};
use crate::thinning_laws::{
    fact_stays, is_left, law_left_facts_show_left_project, lemma_plain_names, matters,
    names_are_formed, naming, new_name, stays,
};
use crate::uniquifier::{
    is_new_uuid, is_orphan_line, is_removed, is_upper_hex, line_uuids, new_line, new_uuid_for,
    new_uuids, new_uuids_formed, normalised, registry, rewrite_run, Registry, Rows,
};
use vstd::prelude::*;

verus! {

/// A line whose strings are texts, and whose UUIDs are strings of their own or
/// stand in comments.
pub open spec fn is_plainly_written(l: Seq<char>) -> bool {
    is_whole_line(l) && has_valid_strings(l)
}

/// The lines hold a UUID.
pub open spec fn holds_uuid(ls: Seq<Seq<char>>, u: Seq<char>) -> bool {
    exists|i: int, k: int|
        0 <= i < ls.len() && 0 <= k < hits(UUID@, ls[i]).len() && u == (#[trigger] hits(
            UUID@,
            ls[i],
        )[k]).first
}

/// A UUID that the lines hold, or that is registered or to be dropped.
pub open spec fn is_used(reg: Registry, ls: Seq<Seq<char>>, u: Seq<char>) -> bool {
    holds_uuid(ls, u) || is_known(reg, u) || reg.remove.contains(u)
}

/// No UUID is written in upper case at one place and in lower case at another.
pub open spec fn is_spelled_once(reg: Registry, ls: Seq<Seq<char>>) -> bool {
    forall|u: Seq<char>, v: Seq<char>| #[trigger]
        is_used(reg, ls, u) && #[trigger] is_used(reg, ls, v) && uppercase(u) == uppercase(v) ==> u
            == v
}

/// A text with no string or comment that goes beyond the end of its line, in which
/// no dictionary that counts has one key twice.
pub open spec fn is_readable(s: Seq<char>) -> bool {
    let ls = lines_of(s);
    &&& unlines(ls) == s
    &&& are_plain_lines(ls)
    &&& all_closed(ls)
    &&& !repeats_key(text_facts(ls))
}

/// What is dropped of the lines is what names something that is dropped, in whole
/// entries and items, as far as it matters; and the others are plainly written,
/// and spell each UUID in one way.
pub open spec fn drops_cleanly(reg: Registry, ls: Seq<Seq<char>>) -> bool {
    let map = normalised(new_uuids(reg.rows));
    let kept = kept_lines(map, reg.remove, ls);
    &&& drops_whole_entries(map, reg.remove, ls)
    &&& forall|i: int| 0 <= i < kept.len() ==> is_plainly_written(#[trigger] kept[i])
    &&& is_spelled_once(reg, kept)
    &&& forall|f: Fact| #[trigger] text_facts(kept).contains(f) ==> fact_stays(reg, f)
    &&& forall|f: Fact| #[trigger]
        text_facts(ls).contains(f) && fact_stays(reg, f) && matters(f) ==> text_facts(
            kept,
        ).contains(f)
}

/// The lines `after` are lines of `before` that describe a project and say, as far
/// as it matters, nothing less, nothing else and nothing twice.
pub open spec fn is_pruned(before: Seq<Seq<char>>, after: Seq<Seq<char>>) -> bool {
    &&& forall|i: int| 0 <= i < after.len() ==> before.contains(#[trigger] after[i])
    &&& forall|f: Fact| #[trigger]
        text_facts(after).contains(f) ==> text_facts(before).contains(f)
    &&& forall|f: Fact| #[trigger]
        text_facts(before).contains(f) && matters(f) ==> text_facts(after).contains(f)
    &&& !repeats_key(text_facts(after))
    &&& spot_of(after) == Spot::Done
}

// ── Repeated keys ────────────────────────────────────────────────────────────

proof fn lemma_found_twice(fs: Seq<Fact>, f: Fact)
    ensures
        fs.to_multiset().count(f) >= 2 <==> exists|i: int, j: int|
            0 <= i < j < fs.len() && #[trigger] fs[i] == f && #[trigger] fs[j] == f,
        fs.to_multiset().count(f) >= 1 <==> fs.contains(f),
    decreases fs.len(),
{
    broadcast use vstd::seq_lib::group_to_multiset_ensures;

    if fs.len() > 0 {
        let rest = fs.drop_last();
        lemma_found_twice(rest, f);
        assert(rest.push(fs.last()) =~= fs);
        assert(fs.to_multiset() == rest.to_multiset().insert(fs.last()));
        if fs.to_multiset().count(f) >= 2 {
            if fs.last() == f {
                assert(rest.contains(f));
                let i = choose|i: int| 0 <= i < rest.len() && rest[i] == f;
                assert(fs[i] == f && fs[fs.len() - 1] == f);
            } else {
                let (i, j) = choose|i: int, j: int|
                    0 <= i < j < rest.len() && #[trigger] rest[i] == f && #[trigger] rest[j] == f;
                assert(fs[i] == f && fs[j] == f);
            }
        }
        if exists|i: int, j: int|
            0 <= i < j < fs.len() && #[trigger] fs[i] == f && #[trigger] fs[j] == f {
            let (i, j) = choose|i: int, j: int|
                0 <= i < j < fs.len() && #[trigger] fs[i] == f && #[trigger] fs[j] == f;
            assert(rest[i] == f);
            if j < rest.len() {
                assert(rest[j] == f);
            } else {
                assert(rest.contains(f));
            }
        }
    }
}

/// Fewer facts repeat no more keys.
proof fn lemma_fewer_repeats(a: Seq<Fact>, b: Seq<Fact>)
    requires
        b.to_multiset().subset_of(a.to_multiset()),
        !repeats_key(a),
    ensures
        !repeats_key(b),
        forall|f: Fact| #[trigger] b.contains(f) ==> a.contains(f),
{
    if repeats_key(b) {
        let (i, j) = choose|i: int, j: int|
            0 <= i < j < b.len() && b[i] is Key && is_worth(path_of_fact(b[i])) && #[trigger] b[i]
                == #[trigger] b[j];
        let f = b[i];
        lemma_found_twice(b, f);
        lemma_found_twice(a, f);
        let (k, l) = choose|k: int, l: int|
            0 <= k < l < a.len() && #[trigger] a[k] == f && #[trigger] a[l] == f;
        assert(a[k] == a[l] && a[k] is Key);
    }
    assert forall|f: Fact| #[trigger] b.contains(f) implies a.contains(f) by {
        lemma_found_twice(b, f);
        lemma_found_twice(a, f);
    }
}

// ── New UUIDs ────────────────────────────────────────────────────────────────

proof fn lemma_upper_digits(u: Seq<char>)
    requires
        is_new_uuid(u),
    ensures
        uppercase(u) == u,
{
    reveal(uppercase);
    assert forall|i: int| 0 <= i < u.len() implies (#[trigger] u[i]) as u32 <= 127 && ascii_upper(
        u[i],
    ) == u[i] by {
        assert(is_upper_hex(u[i]));
    }
    assert(all_ascii(u));
    assert(u.map_values(|c: char| ascii_upper(c)) =~= u);
}

/// The new UUID of a row.
proof fn lemma_new_in_map(rows: Rows, n: int, u: Seq<char>)
    requires
        0 <= n <= rows.len(),
    ensures
        ({
            let map = normalised(new_uuids(rows).take(n));
            &&& distinct_keys(map)
            &&& lookup(map, u) is Some ==> exists|i: int|
                0 <= i < n && uppercase((#[trigger] rows[i]).0) == u && lookup(map, u) == Some(
                    rows[i].1.1,
                )
        }),
    decreases n,
{
    let part = new_uuids(rows).take(n);
    if n > 0 {
        lemma_new_in_map(rows, n - 1, u);
        assert(part.drop_last() =~= new_uuids(rows).take(n - 1));
        let before = normalised(part.drop_last());
        let key = uppercase(rows[n - 1].0);
        let v = rows[n - 1].1.1;
        assert(part.last() == (rows[n - 1].0, v));
        assert(normalised(part) == upsert(before, key, v));
        lemma_upsert(before, key, v);
        if u == key {
            assert(uppercase(rows[n - 1].0) == u);
        } else {
            assert(lookup(normalised(part), u) == lookup(before, u));
        }
    } else {
        assert(part =~= Seq::empty());
    }
}

proof fn lemma_steady_rows(p: Project, name: Seq<char>)
    requires
        is_steady(p, name),
    ensures
        names_are_formed(registry(p, name)),
        distinct_keys(registry(p, name).rows),
        new_uuids_formed(registry(p, name).rows),
{
    let reg = registry(p, name);
    lemma_steady(p, name);
    assert forall|i: int| 0 <= i < reg.rows.len() implies is_new_uuid(
        (#[trigger] reg.rows[i]).1.1,
    ) by {
        lemma_slot_at(reg.rows, i);
        assert(is_known(reg, reg.rows[i].0));
    }
}

/// What becomes of a UUID in a line that is kept.
proof fn lemma_kept_hit(p: Project, name: Seq<char>, ls: Seq<Seq<char>>, line: Seq<char>, k: int)
    requires
        is_steady(p, name),
        is_spelled_once(registry(p, name), ls),
        ls.contains(line),
        !is_orphan_line(
            normalised(new_uuids(registry(p, name).rows)),
            registry(p, name).remove,
            line,
        ),
        0 <= k < hits(UUID@, line).len(),
    ensures
        ({
            let reg = registry(p, name);
            let u = hits(UUID@, line)[k].first;
            let v = new_uuid_for(normalised(new_uuids(reg.rows)), hits(UUID@, line)[k]);
            &&& is_known(reg, u)
            &&& stays(reg, u)
            &&& v == new_name(reg, u)
            &&& is_new_uuid(v)
        }),
{
    let reg = registry(p, name);
    let map = normalised(new_uuids(reg.rows));
    let h = hits(UUID@, line)[k];
    let u = h.first;
    lemma_steady_rows(p, name);
    let j = choose|j: int| 0 <= j < ls.len() && ls[j] == line;
    assert(hits(UUID@, ls[j])[k].first == u);
    assert(is_used(reg, ls, u));
    let up = uppercase(u);
    assert(line_uuids(line)[k] == up);
    assert(lookup(map, up) is Some && !is_removed(reg.remove, up));
    assert(new_uuids(reg.rows).take(reg.rows.len() as int) =~= new_uuids(reg.rows));
    lemma_new_in_map(reg.rows, reg.rows.len() as int, up);
    let i = choose|i: int|
        0 <= i < reg.rows.len() && uppercase((#[trigger] reg.rows[i]).0) == up && lookup(map, up)
            == Some(reg.rows[i].1.1);
    lemma_slot_at(reg.rows, i);
    assert(is_known(reg, reg.rows[i].0));
    assert(is_used(reg, ls, reg.rows[i].0));
    assert(reg.rows[i].0 == u);
    if reg.remove.contains(u) {
        let j = choose|j: int| 0 <= j < reg.remove.len() && reg.remove[j] == u;
        assert(uppercase(reg.remove[j]) == up);
    }
}

/// A line that is kept, with its new UUIDs.
proof fn lemma_kept_line(p: Project, name: Seq<char>, ls: Seq<Seq<char>>, line: Seq<char>)
    requires
        is_steady(p, name),
        is_spelled_once(registry(p, name), ls),
        ls.contains(line),
        is_closed_line(line),
        is_plainly_written(line),
        !is_orphan_line(
            normalised(new_uuids(registry(p, name).rows)),
            registry(p, name).remove,
            line,
        ),
    ensures
        is_line_renamed(
            naming(registry(p, name)),
            line,
            new_line(normalised(new_uuids(registry(p, name).rows)), line),
        ),
        is_closed_line(new_line(normalised(new_uuids(registry(p, name).rows)), line)),
        forall|k: int|
            0 <= k < hits(
                UUID@,
                new_line(normalised(new_uuids(registry(p, name).rows)), line),
            ).len() ==> is_left_uuid(
                registry(p, name),
                (#[trigger] hits(
                    UUID@,
                    new_line(normalised(new_uuids(registry(p, name).rows)), line),
                )[k]).first,
            ),
{
    let reg = registry(p, name);
    let map = normalised(new_uuids(reg.rows));
    let g = naming(reg);
    let hs = hits(UUID@, line);
    let new = |h: Hit| new_uuid_for(map, h);
    let good = |v: Seq<char>| is_left_uuid(reg, v);
    assert forall|k: int| 0 <= k < hits(UUID@, line).len() implies {
        let v = new_uuid_for(map, #[trigger] hits(UUID@, line)[k]);
        is_new_uuid(v) && good(v)
    } by {
        lemma_kept_hit(p, name, ls, line, k);
        let u = hs[k].first;
        assert(is_known(reg, u) && stays(reg, u) && new_name(reg, u) == new_name(reg, u));
    }
    lemma_given_line(map, line, good);
    let t = new_line(map, line);
    assert forall|k: int| 0 <= k < hits(UUID@, t).len() implies is_left_uuid(
        reg,
        (#[trigger] hits(UUID@, t)[k]).first,
    ) by {
        assert(good(hits(UUID@, t)[k].first));
    }
    lemma_replaced_is_woven(line, hs, new);
    lemma_woven_is_rewritten(line, new, 0);
    assert(t == rewritten(line, new, 0));
    assert(replaces(g, line, new, 0)) by {
        assert forall|k: int| 0 <= k < hits_from(UUID@, line, 0).len() implies {
            let h = #[trigger] hits_from(UUID@, line, 0)[k];
            new(h) == g(h.first) && is_new_uuid(new(h))
        } by {
            lemma_kept_hit(p, name, ls, line, k);
        }
    }
    assert(changes_uuids_only(g));
    law_rewritten_line_has_renamed_tokens(g, line, new);
}

/// A UUID of what is left.
pub open spec fn is_left_uuid(reg: Registry, v: Seq<char>) -> bool {
    exists|x: Seq<char>|
        is_known(reg, x) && stays(reg, x) && v == #[trigger] new_name(reg, x)
}

// ── The text ─────────────────────────────────────────────────────────────────

/// The lines of a text with its new UUIDs, and the facts that they hold.
pub proof fn lemma_left_lines(s: Seq<char>, p: Project, name: Seq<char>)
    requires
        is_readable(s),
        project_in(s) == Some(p),
        is_steady(p, name),
        drops_cleanly(registry(p, name), lines_of(s)),
    ensures
        ({
            let out = lines_of(uniquified(s, p, name));
            let reg = registry(p, name);
            &&& unlines(out) == uniquified(s, p, name)
            &&& forall|i: int|
                0 <= i < out.len() ==> is_closed_line(#[trigger] out[i]) && forall|k: int|
                    0 <= k < hits(UUID@, out[i]).len() ==> is_left_uuid(
                        reg,
                        (#[trigger] hits(UUID@, out[i])[k]).first,
                    )
            &&& is_left(reg, text_facts(lines_of(s)), text_facts(out))
        }),
{
    let reg = registry(p, name);
    let map = normalised(new_uuids(reg.rows));
    let ls = lines_of(s);
    let kept = kept_lines(map, reg.remove, ls);
    let out = rewrite_run(map, reg.remove, ls).out;
    let g = naming(reg);
    lemma_steady_rows(p, name);
    lemma_rewritten_lines(reg.rows, reg.remove, ls);
    lemma_lines_of_unlines(out);
    lemma_rewritten_kept(map, reg.remove, ls);
    assert forall|i: int| 0 <= i < kept.len() implies {
        &&& is_line_renamed(g, #[trigger] kept[i], out[i])
        &&& is_closed_line(out[i])
        &&& forall|k: int|
            0 <= k < hits(UUID@, out[i]).len() ==> is_left_uuid(
                reg,
                (#[trigger] hits(UUID@, out[i])[k]).first,
            )
    } by {
        assert(ls.contains(kept[i]));
        let j = choose|j: int| 0 <= j < ls.len() && ls[j] == kept[i];
        assert(is_closed_line(ls[j]));
        lemma_kept_line(p, name, kept, kept[i]);
        assert(out[i] == new_line(map, kept[i]));
    }
    assert(out.len() == kept.len());
    assert forall|i: int| 0 <= i < out.len() implies is_closed_line(#[trigger] out[i]) && forall|
        k: int,
    |
        0 <= k < hits(UUID@, out[i]).len() ==> is_left_uuid(
            reg,
            (#[trigger] hits(UUID@, out[i])[k]).first,
        ) by {
        assert(is_line_renamed(g, kept[i], out[i]));
    }
    lemma_renamed_text(g, kept, out);
    assert(ls.take(ls.len() as int) =~= ls);
    lemma_kept_facts(map, reg.remove, ls, ls.len() as int);
    lemma_fewer_repeats(text_facts(ls), text_facts(kept));
    let before = text_facts(ls);
    let mid = text_facts(kept);
    let after = text_facts(out);
    assert forall|f: Fact| #[trigger] after.contains(f) implies exists|e: Fact|
        before.contains(e) && fact_stays(reg, e) && f == #[trigger] renamed_fact(g, e) by {
        let i = choose|i: int| 0 <= i < after.len() && after[i] == f;
        assert(mid.contains(mid[i]));
        assert(f == renamed_fact(g, mid[i]));
    }
    assert forall|e: Fact|
        before.contains(e) && fact_stays(reg, e) && matters(e) implies after.contains(
        #[trigger] renamed_fact(g, e),
    ) by {
        assert(mid.contains(e));
        let i = choose|i: int| 0 <= i < mid.len() && mid[i] == e;
        assert(after[i] == renamed_fact(g, e));
    }
}

/// What is pruned stays so in any order that keeps its facts.
pub proof fn lemma_pruned_in_order(
    before: Seq<Seq<char>>,
    mid: Seq<Seq<char>>,
    after: Seq<Seq<char>>,
)
    requires
        is_pruned(before, mid),
        forall|i: int| 0 <= i < after.len() ==> mid.contains(#[trigger] after[i]),
        fact_bag(text_facts(after)) == fact_bag(text_facts(mid)),
        spot_of(after) == spot_of(mid),
    ensures
        is_pruned(before, after),
{
    let a = text_facts(mid);
    let b = text_facts(after);
    assert forall|f: Fact| a.contains(f) == #[trigger] b.contains(f) by {
        lemma_found_twice(a, f);
        lemma_found_twice(b, f);
    }
    lemma_fewer_repeats(a, b);
    assert forall|i: int| 0 <= i < after.len() implies before.contains(#[trigger] after[i]) by {
        let j = choose|j: int| 0 <= j < mid.len() && mid[j] == after[i];
        assert(before.contains(mid[j]));
    }
    assert forall|f: Fact| #[trigger] text_facts(before).contains(f) && matters(f) implies text_facts(
        after,
    ).contains(f) by {
        assert(a.contains(f));
        assert(b.contains(f));
    }
}

/// The renamed fact matters if the fact does.
proof fn lemma_matters(reg: Registry, e: Fact)
    requires
        matters(e),
    ensures
        matters(renamed_fact(naming(reg), e)),
{
    let g = naming(reg);
    let path = path_of_fact(e);
    assert(renamed_path(g, path).len() == path.len());
    if path.len() > 2 {
        let k = path[2]->Key_0;
        lemma_plain_names(k);
        assert(renamed_path(g, path)[2] == renamed_step(g, path[2]));
        assert(new_name(reg, k) == k);
    }
}

/// A text with its new UUIDs, without what is said twice, and in any order, has
/// settled UUIDs: if its project names everything paths need and reaches each
/// object once, and what is dropped of it is whole.
pub proof fn law_left_text_is_settled(s: Seq<char>, name: Seq<char>, result: Seq<char>)
    requires
        is_readable(s),
        project_in(s) is Some,
        is_steady(project_in(s)->Some_0, name),
        drops_cleanly(registry(project_in(s)->Some_0, name), lines_of(s)),
        unlines(lines_of(result)) == result,
        is_pruned(
            lines_of(uniquified(s, project_in(s)->Some_0, name)),
            lines_of(result),
        ),
    ensures
        has_settled_uuids(result, name),
{
    let p = project_in(s)->Some_0;
    let reg = registry(p, name);
    let ls = lines_of(s);
    let before = lines_of(uniquified(s, p, name));
    let after = lines_of(result);
    let g = naming(reg);
    lemma_steady_rows(p, name);
    lemma_left_lines(s, p, name);
    assert forall|i: int| 0 <= i < after.len() implies is_closed_line(#[trigger] after[i])
        && forall|k: int|
        0 <= k < hits(UUID@, after[i]).len() ==> is_left_uuid(
            reg,
            (#[trigger] hits(UUID@, after[i])[k]).first,
        ) by {
        let j = choose|j: int| 0 <= j < before.len() && before[j] == after[i];
        assert(is_closed_line(before[j]));
    }
    assert(all_closed(after));
    law_text_shows_project(ls);
    law_text_shows_project(after);
    assert(is_left(reg, text_facts(ls), text_facts(after))) by {
        assert forall|e: Fact|
            text_facts(ls).contains(e) && fact_stays(reg, e) && matters(e) implies text_facts(
            after,
        ).contains(#[trigger] renamed_fact(g, e)) by {
            lemma_matters(reg, e);
            assert(text_facts(before).contains(renamed_fact(g, e)));
        }
    }
    lemma_plain_names("objects"@);
    let objects = top_path("objects"@);
    let top = top_path("rootObject"@);
    assert(renamed_path(g, objects) =~= objects);
    assert(renamed_path(g, top) =~= top);
    let d = Fact::Dict(objects);
    let r = Fact::Text(top, p.root_object);
    assert(text_facts(ls).contains(d) && fact_stays(reg, d) && matters(d));
    assert(text_facts(after).contains(renamed_fact(g, d)));
    assert(renamed_fact(g, d) == d);
    assert(text_facts(ls).contains(r) && fact_stays(reg, r) && matters(r));
    assert(text_facts(after).contains(renamed_fact(g, r)));
    assert(renamed_fact(g, r) == Fact::Text(top, new_name(reg, p.root_object)));
    assert(project_in(result) is Some);
    let q = project_in(result)->Some_0;
    law_left_facts_show_left_project(reg, text_facts(ls), text_facts(after), p, q);
    law_left_project_is_settled(p, q, name);
    let end = registry(q, name);
    assert forall|i: int| 0 <= i < end.rows.len() implies uppercase((#[trigger] end.rows[i]).0)
        == end.rows[i].0 by {
        lemma_upper_digits(end.rows[i].0);
    }
    assert forall|i: int, k: int|
        0 <= i < lines_of(result).len() && 0 <= k < hits(UUID@, lines_of(result)[i]).len() implies {
        let u = (#[trigger] hits(UUID@, lines_of(result)[i])[k]).first;
        &&& uppercase(u) == u
        &&& !is_removed(end.remove, u)
        &&& exists|j: int| 0 <= j < end.rows.len() && (#[trigger] end.rows[j]).0 == u
    } by {
        let u = hits(UUID@, after[i])[k].first;
        assert(is_closed_line(after[i]));
        assert(is_left_uuid(reg, u));
        let x = choose|x: Seq<char>|
            is_known(reg, x) && stays(reg, x) && u == #[trigger] new_name(reg, x);
        assert(is_known(end, new_name(reg, x)));
        lemma_slot(end.rows, u);
        let j = slot(end.rows, u)->Some_0;
        assert(end.rows[j].0 == u);
    }
}

} // verus!
