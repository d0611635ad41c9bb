//! What schemes are repaired with, and what is said of a difference.

use crate::mapper::MapDiff;
use crate::parser::Project;
use crate::pipeline::{
    is_unambiguous, name_index, named_target, named_targets, unambiguous, valid_uuids,
};
use crate::report::{report_of, rows_for, Change, RowView};
use crate::table::{lemma_slot, lookup, slot};
use crate::text::{texts, uppercase};
use crate::uniquifier::{list_field, text_field, Objects};
use vstd::prelude::*;

verus! {

// ── Names of targets ─────────────────────────────────────────────────────────

/// A native or aggregate target of this name.
pub open spec fn is_target_called(os: Objects, u: Seq<char>, name: Seq<char>) -> bool {
    &&& text_field(os, u, "name"@) == Some(name)
    &&& text_field(os, u, "isa"@) == Some("PBXNativeTarget"@) || text_field(os, u, "isa"@) == Some(
        "PBXAggregateTarget"@,
    )
}

/// The UUID that the object has after renaming.
pub open spec fn is_new_uuid_of(
    map: Seq<(Seq<char>, Seq<char>)>,
    u: Seq<char>,
    new: Seq<char>,
) -> bool {
    match lookup(map, uppercase(u)) {
        Some(x) => new == x,
        None => new == u,
    }
}

/// Where the entry of target `i` stands among those of the first targets.
spec fn entry_place(os: Objects, us: Seq<Seq<char>>, i: int) -> int
    decreases i,
{
    if i <= 0 {
        0
    } else {
        entry_place(os, us, i - 1) + if named_target(os, Seq::empty(), us[i - 1]) is Some {
            1int
        } else {
            0int
        }
    }
}

proof fn lemma_entries(
    os: Objects,
    map: Seq<(Seq<char>, Seq<char>)>,
    us: Seq<Seq<char>>,
    n: int,
)
    requires
        0 <= n <= us.len(),
    ensures
        named_targets(os, map, us.take(n)).len() == entry_place(os, us, n),
        forall|i: int|
            0 <= i < n && (#[trigger] named_target(os, map, us[i])) is Some ==> {
                &&& 0 <= entry_place(os, us, i) < entry_place(os, us, n)
                &&& named_targets(os, map, us.take(n))[entry_place(os, us, i)] == named_target(
                    os,
                    map,
                    us[i],
                )->Some_0
            },
        forall|k: int|
            0 <= k < entry_place(os, us, n) ==> exists|i: int|
                0 <= i < n && named_target(os, map, #[trigger] us[i]) == Some(
                    #[trigger] named_targets(os, map, us.take(n))[k],
                ) && entry_place(os, us, i) == k,
    decreases n,
{
    let all = named_targets(os, map, us.take(n));
    if n == 0 {
        assert(us.take(0) =~= Seq::empty());
    } else {
        lemma_entries(os, map, us, n - 1);
        let before = named_targets(os, map, us.take(n - 1));
        assert(us.take(n).drop_last() =~= us.take(n - 1));
        assert(us.take(n).last() == us[n - 1]);
        assert forall|i: int|
            0 <= i < n && (#[trigger] named_target(os, map, us[i])) is Some implies {
            &&& 0 <= entry_place(os, us, i) < entry_place(os, us, n)
            &&& all[entry_place(os, us, i)] == named_target(os, map, us[i])->Some_0
        } by {
            if i < n - 1 {
                assert(before[entry_place(os, us, i)] == all[entry_place(os, us, i)]);
            }
        }
        assert forall|k: int| 0 <= k < entry_place(os, us, n) implies exists|i: int|
            0 <= i < n && named_target(os, map, #[trigger] us[i]) == Some(#[trigger] all[k])
                && entry_place(os, us, i) == k by {
            if k < before.len() {
                assert(all[k] == before[k]);
                let i = choose|i: int|
                    0 <= i < n - 1 && named_target(os, map, #[trigger] us[i]) == Some(before[k])
                        && entry_place(os, us, i) == k;
                assert(named_target(os, map, us[i]) == Some(all[k]));
            } else {
                assert(named_target(os, map, us[n - 1]) == Some(all[k]));
            }
        }
    }
}

proof fn lemma_unambiguous(es: Seq<(Seq<char>, Seq<char>)>, n: int, name: Seq<char>)
    requires
        0 <= n <= es.len(),
    ensures
        forall|i: int|
            0 <= i < n && (#[trigger] es[i]).0 == name && is_unambiguous(es, i) ==> lookup(
                unambiguous(es, n),
                name,
            ) == Some(es[i].1),
        lookup(unambiguous(es, n), name) is Some ==> exists|i: int|
            0 <= i < n && (#[trigger] es[i]).0 == name && is_unambiguous(es, i),
    decreases n,
{
    let r = unambiguous(es, n);
    if n > 0 {
        lemma_unambiguous(es, n - 1, name);
        let before = unambiguous(es, n - 1);
        if is_unambiguous(es, n - 1) {
            assert(r.drop_last() =~= before);
            assert(r.last() == es[n - 1]);
            if es[n - 1].0 == name {
                assert(lookup(r, name) == Some(es[n - 1].1));
            } else {
                lemma_slot(before, name);
                assert(slot(r, name) == slot(before, name));
            }
        }
        assert forall|i: int|
            0 <= i < n && (#[trigger] es[i]).0 == name && is_unambiguous(es, i) implies lookup(
            r,
            name,
        ) == Some(es[i].1) by {
            if i < n - 1 {
                assert(es[n - 1].0 != es[i].0);
            }
        }
    } else {
        lemma_slot(r, name);
    }
}

/// A name that one target of the project has, and no other, leads to the new UUID
/// of that target.
pub proof fn law_names_lead_to_targets(
    p: Project,
    map: Seq<(Seq<char>, Seq<char>)>,
    name: Seq<char>,
    i: int,
)
    requires
        ({
            let ts = list_field(p.objects, p.root_object, "targets"@);
            &&& 0 <= i < ts.len()
            &&& is_target_called(p.objects, ts[i], name)
            &&& forall|j: int|
                0 <= j < ts.len() && j != i ==> !is_target_called(
                    p.objects,
                    #[trigger] ts[j],
                    name,
                )
        }),
    ensures
        lookup(name_index(p, map), name) is Some,
        is_new_uuid_of(
            map,
            list_field(p.objects, p.root_object, "targets"@)[i],
            lookup(name_index(p, map), name)->Some_0,
        ),
{
    let os = p.objects;
    let ts = list_field(os, p.root_object, "targets"@);
    let n = ts.len() as int;
    assert(ts.take(n) =~= ts);
    lemma_entries(os, map, ts, n);
    let es = named_targets(os, map, ts);
    assert(named_target(os, map, ts[i]) is Some);
    let k = entry_place(os, ts, i);
    assert(es[k].0 == name);
    assert forall|j: int| 0 <= j < es.len() && j != k implies (#[trigger] es[j]).0 != es[k].0 by {
        let l = choose|l: int|
            0 <= l < n && named_target(os, map, #[trigger] ts[l]) == Some(es[j]) && entry_place(
                os,
                ts,
                l,
            ) == j;
        if es[j].0 == name {
            assert(is_target_called(os, ts[l], name));
        }
    }
    lemma_unambiguous(es, es.len() as int, name);
    assert(is_unambiguous(es, k));
}

/// A name that two targets of the project share leads nowhere; nor does one that
/// none has.
pub proof fn law_shared_names_lead_nowhere(
    p: Project,
    map: Seq<(Seq<char>, Seq<char>)>,
    name: Seq<char>,
    i: int,
    j: int,
)
    requires
        ({
            let ts = list_field(p.objects, p.root_object, "targets"@);
            ||| 0 <= i < j < ts.len() && is_target_called(p.objects, ts[i], name)
                && is_target_called(p.objects, ts[j], name)
            ||| forall|k: int|
                0 <= k < ts.len() ==> !is_target_called(p.objects, #[trigger] ts[k], name)
        }),
    ensures
        lookup(name_index(p, map), name) is None,
{
    let os = p.objects;
    let ts = list_field(os, p.root_object, "targets"@);
    let n = ts.len() as int;
    assert(ts.take(n) =~= ts);
    lemma_entries(os, map, ts, n);
    let es = named_targets(os, map, ts);
    lemma_unambiguous(es, es.len() as int, name);
    if lookup(name_index(p, map), name) is Some {
        let k = choose|k: int|
            0 <= k < es.len() && (#[trigger] es[k]).0 == name && is_unambiguous(es, k);
        let l = choose|l: int|
            0 <= l < n && named_target(os, map, #[trigger] ts[l]) == Some(es[k]) && entry_place(
                os,
                ts,
                l,
            ) == k;
        assert(is_target_called(os, ts[l], name));
        assert(named_target(os, map, ts[i]) is Some);
        assert(named_target(os, map, ts[j]) is Some);
        lemma_place_grows(os, ts, i, j, map);
        let a = entry_place(os, ts, i);
        let b = entry_place(os, ts, j);
        assert(es[a].0 == name && es[b].0 == name);
        assert(a != b);
    }
}

proof fn lemma_place_grows(
    os: Objects,
    us: Seq<Seq<char>>,
    i: int,
    j: int,
    map: Seq<(Seq<char>, Seq<char>)>,
)
    requires
        0 <= i < j,
        named_target(os, map, us[i]) is Some,
    ensures
        entry_place(os, us, i) < entry_place(os, us, j),
    decreases j - i,
{
    if i + 1 < j {
        lemma_place_grows(os, us, i, j - 1, map);
    }
}

/// The UUIDs that a scheme may refer to are those that the objects of the project
/// have after renaming.
pub proof fn law_valid_uuids_are_those_of_objects(
    p: Project,
    map: Seq<(Seq<char>, Seq<char>)>,
    u: Seq<char>,
)
    ensures
        valid_uuids(p, map).contains(u) <==> exists|i: int|
            0 <= i < p.objects.len() && is_new_uuid_of(map, (#[trigger] p.objects[i]).0, u),
{
    if valid_uuids(p, map).contains(u) {
        let i = choose|i: int|
            0 <= i < p.objects.len() && crate::pipeline::translated(
                map,
                (#[trigger] p.objects[i]).0,
            ) == u;
        assert(is_new_uuid_of(map, p.objects[i].0, u));
    }
}

// ── The report of a difference ───────────────────────────────────────────────

/// Row `k` is a heading, with these items behind it, one row for each.
pub open spec fn reported_at(
    rows: Seq<RowView>,
    k: int,
    change: Change,
    label: Seq<char>,
    items: Seq<Seq<char>>,
) -> bool {
    &&& 0 <= k
    &&& k + 1 + items.len() <= rows.len()
    &&& rows[k] == (RowView { change, heading: true, text: label })
    &&& rows.subrange(k + 1, k + 1 + items.len()) == Seq::new(
        items.len(),
        |i: int| RowView { change, heading: false, text: items[i] },
    )
}

/// The rows hold a heading with these items behind it; or there are no items.
#[verifier::opaque]
pub open spec fn reports(
    rows: Seq<RowView>,
    change: Change,
    label: Seq<char>,
    items: Seq<Seq<char>>,
) -> bool {
    items.len() == 0 || exists|k: int| #[trigger] reported_at(rows, k, change, label, items)
}

proof fn lemma_reports(
    a: Seq<RowView>,
    b: Seq<RowView>,
    change: Change,
    label: Seq<char>,
    items: Seq<Seq<char>>,
)
    ensures
        reports(a + rows_for(change, label, items) + b, change, label, items),
{
    reveal(reports);
    if items.len() > 0 {
        let rows = a + rows_for(change, label, items) + b;
        let k = a.len() as int;
        let mid = rows_for(change, label, items);
        assert(rows[k] == mid[0]);
        assert(rows.subrange(k + 1, k + 1 + items.len()) =~= Seq::new(
            items.len(),
            |i: int| RowView { change, heading: false, text: items[i] },
        ));
        assert(reported_at(rows, k, change, label, items));
    }
}

/// What is said of a difference lists everything that was added, everything that
/// was removed, and every UUID that was changed, each under its heading.
pub proof fn law_report_is_complete(d: MapDiff)
    ensures
        ({
            let rows = report_of(d);
            &&& reports(rows, Change::Added, "added targets"@, texts(d.added.targets@))
            &&& reports(rows, Change::Removed, "removed targets"@, texts(d.removed.targets@))
            &&& reports(rows, Change::Added, "added groups"@, texts(d.added.groups@))
            &&& reports(rows, Change::Removed, "removed groups"@, texts(d.removed.groups@))
            &&& reports(rows, Change::Added, "added files"@, texts(d.added.files@))
            &&& reports(rows, Change::Removed, "removed files"@, texts(d.removed.files@))
            &&& reports(
                rows,
                Change::Added,
                "added build entries"@,
                texts(d.added.build_phase_entries@),
            )
            &&& reports(
                rows,
                Change::Removed,
                "removed build entries"@,
                texts(d.removed.build_phase_entries@),
            )
            &&& reports(
                rows,
                Change::Renumbered,
                "UUID changes"@,
                Seq::new(
                    d.uuid_changes@.len(),
                    |i: int|
                        d.uuid_changes@[i].old_uuid@ + " → "@ + d.uuid_changes@[i].new_uuid@
                            + "  ("@ + d.uuid_changes@[i].path@ + ")"@,
                ),
            )
        }),
{
    let none = Seq::<RowView>::empty();
    let r = report_of(d);
    let x1 = rows_for(Change::Added, "added targets"@, texts(d.added.targets@));
    let x2 = rows_for(Change::Removed, "removed targets"@, texts(d.removed.targets@));
    let x3 = rows_for(Change::Added, "added groups"@, texts(d.added.groups@));
    let x4 = rows_for(Change::Removed, "removed groups"@, texts(d.removed.groups@));
    let x5 = rows_for(Change::Added, "added files"@, texts(d.added.files@));
    let x6 = rows_for(Change::Removed, "removed files"@, texts(d.removed.files@));
    let x7 = rows_for(
        Change::Added,
        "added build entries"@,
        texts(d.added.build_phase_entries@),
    );
    let x8 = rows_for(
        Change::Removed,
        "removed build entries"@,
        texts(d.removed.build_phase_entries@),
    );
    let cs = Seq::new(
        d.uuid_changes@.len(),
        |i: int|
            d.uuid_changes@[i].old_uuid@ + " → "@ + d.uuid_changes@[i].new_uuid@ + "  ("@
                + d.uuid_changes@[i].path@ + ")"@,
    );
    assert(cs =~= crate::report::renumberings(d.uuid_changes@));
    let x9 = rows_for(Change::Renumbered, "UUID changes"@, cs);
    assert(r == x1 + x2 + x3 + x4 + x5 + x6 + x7 + x8 + x9);
    lemma_grouped(x1, x2, x3, x4, x5, x6, x7, x8, x9);
    lemma_reports(
        none,
        x2 + x3 + x4 + x5 + x6 + x7 + x8 + x9,
        Change::Added,
        "added targets"@,
        texts(d.added.targets@),
    );
    lemma_reports(
        x1,
        x3 + x4 + x5 + x6 + x7 + x8 + x9,
        Change::Removed,
        "removed targets"@,
        texts(d.removed.targets@),
    );
    lemma_reports(
        x1 + x2,
        x4 + x5 + x6 + x7 + x8 + x9,
        Change::Added,
        "added groups"@,
        texts(d.added.groups@),
    );
    lemma_reports(
        x1 + x2 + x3,
        x5 + x6 + x7 + x8 + x9,
        Change::Removed,
        "removed groups"@,
        texts(d.removed.groups@),
    );
    lemma_reports(
        x1 + x2 + x3 + x4,
        x6 + x7 + x8 + x9,
        Change::Added,
        "added files"@,
        texts(d.added.files@),
    );
    lemma_reports(
        x1 + x2 + x3 + x4 + x5,
        x7 + x8 + x9,
        Change::Removed,
        "removed files"@,
        texts(d.removed.files@),
    );
    lemma_reports(
        x1 + x2 + x3 + x4 + x5 + x6,
        x8 + x9,
        Change::Added,
        "added build entries"@,
        texts(d.added.build_phase_entries@),
    );
    lemma_reports(
        x1 + x2 + x3 + x4 + x5 + x6 + x7,
        x9,
        Change::Removed,
        "removed build entries"@,
        texts(d.removed.build_phase_entries@),
    );
    lemma_reports(
        x1 + x2 + x3 + x4 + x5 + x6 + x7 + x8,
        none,
        Change::Renumbered,
        "UUID changes"@,
        cs,
    );
}

proof fn lemma_grouped(
    x1: Seq<RowView>,
    x2: Seq<RowView>,
    x3: Seq<RowView>,
    x4: Seq<RowView>,
    x5: Seq<RowView>,
    x6: Seq<RowView>,
    x7: Seq<RowView>,
    x8: Seq<RowView>,
    x9: Seq<RowView>,
)
    ensures
        ({
            let none = Seq::<RowView>::empty();
            let r = x1 + x2 + x3 + x4 + x5 + x6 + x7 + x8 + x9;
            &&& r == none + x1 + (x2 + x3 + x4 + x5 + x6 + x7 + x8 + x9)
            &&& r == x1 + x2 + (x3 + x4 + x5 + x6 + x7 + x8 + x9)
            &&& r == (x1 + x2) + x3 + (x4 + x5 + x6 + x7 + x8 + x9)
            &&& r == (x1 + x2 + x3) + x4 + (x5 + x6 + x7 + x8 + x9)
            &&& r == (x1 + x2 + x3 + x4) + x5 + (x6 + x7 + x8 + x9)
            &&& r == (x1 + x2 + x3 + x4 + x5) + x6 + (x7 + x8 + x9)
            &&& r == (x1 + x2 + x3 + x4 + x5 + x6) + x7 + (x8 + x9)
            &&& r == (x1 + x2 + x3 + x4 + x5 + x6 + x7) + x8 + x9
            &&& r == (x1 + x2 + x3 + x4 + x5 + x6 + x7 + x8) + x9 + none
        }),
{
    let none = Seq::<RowView>::empty();
    let r = x1 + x2 + x3 + x4 + x5 + x6 + x7 + x8 + x9;
    assert(r =~= none + x1 + (x2 + x3 + x4 + x5 + x6 + x7 + x8 + x9));
    assert(r =~= x1 + x2 + (x3 + x4 + x5 + x6 + x7 + x8 + x9));
    assert(r =~= (x1 + x2) + x3 + (x4 + x5 + x6 + x7 + x8 + x9));
    assert(r =~= (x1 + x2 + x3) + x4 + (x5 + x6 + x7 + x8 + x9));
    assert(r =~= (x1 + x2 + x3 + x4) + x5 + (x6 + x7 + x8 + x9));
    assert(r =~= (x1 + x2 + x3 + x4 + x5) + x6 + (x7 + x8 + x9));
    assert(r =~= (x1 + x2 + x3 + x4 + x5 + x6) + x7 + (x8 + x9));
    assert(r =~= (x1 + x2 + x3 + x4 + x5 + x6 + x7) + x8 + x9);
    assert(r =~= (x1 + x2 + x3 + x4 + x5 + x6 + x7 + x8) + x9 + none);
}

} // verus!
