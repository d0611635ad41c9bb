//! What holds of maps and their differences as a whole.

use crate::listing::{law_listing_unique, lists};
use crate::mapper::{
    by_path, change_paths, forest_entries, in_order, is_changed, is_diff, is_empty_section,
    is_group_entry, is_map_of, is_phase_entry, is_section, is_target_name, keys, node, node_path,
    phase_entry_at, records, table_view, tree_entries, views, DiffSection, DiffStatus, MapDiff,
    Node, Phase, PhaseFile, ProjectMap, Target, UuidChange,
};
use crate::parser::Project;
use crate::table::lookup;
use crate::text::texts;
use crate::uniquifier::Rows;
use vstd::prelude::*;

verus! {

/// A list of what has a property that nothing has is empty.
proof fn lemma_lists_nothing(r: Seq<Seq<char>>, holds: spec_fn(Seq<char>) -> bool)
    requires
        lists(r, holds),
        forall|x: Seq<char>| !(#[trigger] holds(x)),
    ensures
        r.len() == 0,
{
    if r.len() > 0 {
        assert(r.contains(r[0]));
    }
}

/// The trees have the same entries.
pub open spec fn same_entries(a: Node, b: Node) -> bool {
    forall|x: Seq<char>| #[trigger]
        tree_entries(a, Seq::empty()).contains(x) <==> tree_entries(b, Seq::empty()).contains(x)
}

/// The targets have the same names, and the same files in the same phases.
pub open spec fn same_members(a: Seq<Target>, b: Seq<Target>) -> bool {
    &&& forall|x: Seq<char>| #[trigger] is_target_name(a, x) <==> is_target_name(b, x)
    &&& forall|x: Seq<char>| #[trigger] is_phase_entry(a, x) <==> is_phase_entry(b, x)
}

/// No path has one UUID in the first table and another in the second.
pub open spec fn same_uuids(a: ProjectMap, b: ProjectMap) -> bool {
    forall|p: Seq<char>|
        !#[trigger] is_changed(
            by_path(table_view(a.uuid_table@)),
            by_path(table_view(b.uuid_table@)),
            p,
        )
}

proof fn lemma_same_section(d: DiffSection, a: ProjectMap, b: ProjectMap)
    requires
        is_section(d, a, b),
        same_entries(node(a.file_tree), node(b.file_tree)),
        same_members(views(a.targets@), views(b.targets@)),
    ensures
        is_empty_section(d),
{
    let here = tree_entries(node(a.file_tree), Seq::empty());
    let there = tree_entries(node(b.file_tree), Seq::empty());
    lemma_lists_nothing(
        texts(d.targets@),
        |x: Seq<char>|
            is_target_name(views(a.targets@), x) && !is_target_name(views(b.targets@), x),
    );
    lemma_lists_nothing(
        texts(d.groups@),
        |x: Seq<char>| here.contains(x) && !there.contains(x) && is_group_entry(x),
    );
    lemma_lists_nothing(
        texts(d.files@),
        |x: Seq<char>| here.contains(x) && !there.contains(x) && !is_group_entry(x),
    );
    lemma_lists_nothing(
        texts(d.build_phase_entries@),
        |x: Seq<char>|
            is_phase_entry(views(a.targets@), x) && !is_phase_entry(views(b.targets@), x),
    );
}

proof fn lemma_empty_section(d: DiffSection, a: ProjectMap, b: ProjectMap)
    requires
        is_section(d, a, b),
        is_empty_section(d),
    ensures
        forall|x: Seq<char>| #[trigger]
            tree_entries(node(a.file_tree), Seq::empty()).contains(x) ==> tree_entries(
                node(b.file_tree),
                Seq::empty(),
            ).contains(x),
        forall|x: Seq<char>| #[trigger]
            is_target_name(views(a.targets@), x) ==> is_target_name(views(b.targets@), x),
        forall|x: Seq<char>| #[trigger]
            is_phase_entry(views(a.targets@), x) ==> is_phase_entry(views(b.targets@), x),
{
    let here = tree_entries(node(a.file_tree), Seq::empty());
    let there = tree_entries(node(b.file_tree), Seq::empty());
    assert forall|x: Seq<char>| #[trigger] here.contains(x) implies there.contains(x) by {
        assert(!texts(d.groups@).contains(x));
        assert(!texts(d.files@).contains(x));
    }
    assert forall|x: Seq<char>| #[trigger]
        is_target_name(views(a.targets@), x) implies is_target_name(views(b.targets@), x) by {
        assert(!texts(d.targets@).contains(x));
    }
    assert forall|x: Seq<char>| #[trigger]
        is_phase_entry(views(a.targets@), x) implies is_phase_entry(views(b.targets@), x) by {
        assert(!texts(d.build_phase_entries@).contains(x));
    }
}

/// Two maps are identical if and only if their trees have the same entries,
/// their targets the same names and files, and no path another UUID.
pub proof fn law_identical_means_same(d: MapDiff, a: ProjectMap, b: ProjectMap)
    requires
        is_diff(d, a, b),
    ensures
        d.status == DiffStatus::Identical <==> {
            &&& same_entries(node(a.file_tree), node(b.file_tree))
            &&& same_members(views(a.targets@), views(b.targets@))
            &&& same_uuids(a, b)
        },
        d.status == DiffStatus::Identical <==> {
            &&& is_empty_section(d.added)
            &&& is_empty_section(d.removed)
            &&& d.uuid_changes@.len() == 0
        },
{
    let old_uuids = by_path(table_view(a.uuid_table@));
    let new_uuids = by_path(table_view(b.uuid_table@));
    let paths = change_paths(d.uuid_changes@);
    assert(paths.len() == d.uuid_changes@.len());
    if d.status == DiffStatus::Identical {
        lemma_empty_section(d.added, b, a);
        lemma_empty_section(d.removed, a, b);
        assert forall|x: Seq<char>| #[trigger]
            tree_entries(node(a.file_tree), Seq::empty()).contains(x) <==> tree_entries(
                node(b.file_tree),
                Seq::empty(),
            ).contains(x) by {
        }
        assert forall|p: Seq<char>| !#[trigger] is_changed(old_uuids, new_uuids, p) by {
            assert(!paths.contains(p));
        }
    }
    if same_entries(node(a.file_tree), node(b.file_tree)) && same_members(
        views(a.targets@),
        views(b.targets@),
    ) && same_uuids(a, b) {
        lemma_same_section(d.added, b, a);
        lemma_same_section(d.removed, a, b);
        lemma_lists_nothing(paths, |p: Seq<char>| is_changed(old_uuids, new_uuids, p));
    }
}

/// Two trees have nodes of the same classes and names, in the same places.
pub open spec fn same_shape(a: Node, b: Node) -> bool
    decreases a,
{
    &&& a.isa == b.isa
    &&& a.name == b.name
    &&& same_shapes(a.children, b.children)
}

/// Two forests have nodes of the same classes and names, in the same places.
pub open spec fn same_shapes(a: Seq<Node>, b: Seq<Node>) -> bool
    decreases a,
{
    if a.len() == 0 || b.len() == 0 {
        a.len() == b.len()
    } else {
        same_shapes(a.drop_last(), b.drop_last()) && same_shape(a.last(), b.last())
    }
}

/// The targets have the same names, with the same files in phases of the same
/// types.
pub open spec fn same_targets(a: Seq<Target>, b: Seq<Target>) -> bool {
    &&& a.len() == b.len()
    &&& forall|t: int|
        0 <= t < a.len() ==> (#[trigger] a[t]).name == b[t].name && same_phases(
            a[t].build_phases,
            b[t].build_phases,
        )
}

pub open spec fn same_phases(a: Seq<Phase>, b: Seq<Phase>) -> bool {
    &&& a.len() == b.len()
    &&& forall|p: int|
        0 <= p < a.len() ==> (#[trigger] a[p]).phase_type == b[p].phase_type && same_files(
            a[p].files,
            b[p].files,
        )
}

pub open spec fn same_files(a: Seq<PhaseFile>, b: Seq<PhaseFile>) -> bool {
    &&& a.len() == b.len()
    &&& forall|f: int| 0 <= f < a.len() ==> (#[trigger] a[f]).path == b[f].path
}

proof fn lemma_shape_entries(a: Node, b: Node, parent: Seq<char>)
    requires
        same_shape(a, b),
    ensures
        tree_entries(a, parent) == tree_entries(b, parent),
    decreases a,
{
    lemma_shapes_entries(a.children, b.children, node_path(parent, a.name));
}

proof fn lemma_shapes_entries(a: Seq<Node>, b: Seq<Node>, parent: Seq<char>)
    requires
        same_shapes(a, b),
    ensures
        forest_entries(a, parent) == forest_entries(b, parent),
    decreases a,
{
    if a.len() > 0 {
        lemma_shapes_entries(a.drop_last(), b.drop_last(), parent);
        lemma_shape_entries(a.last(), b.last(), parent);
    }
}

pub proof fn lemma_same_shape_itself(a: Node)
    ensures
        same_shape(a, a),
    decreases a,
{
    lemma_same_shapes_itself(a.children);
}

proof fn lemma_same_shapes_itself(a: Seq<Node>)
    ensures
        same_shapes(a, a),
    decreases a,
{
    if a.len() > 0 {
        lemma_same_shapes_itself(a.drop_last());
        lemma_same_shape_itself(a.last());
    }
}

proof fn lemma_entry_kept(a: Seq<Target>, b: Seq<Target>, x: Seq<char>)
    requires
        same_targets(a, b),
    ensures
        is_phase_entry(a, x) <==> is_phase_entry(b, x),
        is_target_name(a, x) <==> is_target_name(b, x),
{
    if is_phase_entry(a, x) {
        let (t, p, f) = choose|t: int, p: int, f: int| #[trigger] phase_entry_at(a, t, p, f, x);
        assert(same_phases(a[t].build_phases, b[t].build_phases));
        assert(same_files(a[t].build_phases[p].files, b[t].build_phases[p].files));
        assert(a[t].build_phases[p].files[f].path == b[t].build_phases[p].files[f].path);
        assert(phase_entry_at(b, t, p, f, x));
    }
    if is_phase_entry(b, x) {
        let (t, p, f) = choose|t: int, p: int, f: int| #[trigger] phase_entry_at(b, t, p, f, x);
        assert(same_phases(a[t].build_phases, b[t].build_phases));
        assert(same_files(a[t].build_phases[p].files, b[t].build_phases[p].files));
        assert(a[t].build_phases[p].files[f].path == b[t].build_phases[p].files[f].path);
        assert(phase_entry_at(a, t, p, f, x));
    }
    if is_target_name(a, x) {
        let t = choose|t: int| 0 <= t < a.len() && (#[trigger] a[t]).name == x;
        assert(b[t].name == x);
    }
    if is_target_name(b, x) {
        let t = choose|t: int| 0 <= t < b.len() && (#[trigger] b[t]).name == x;
        assert(a[t].name == x);
    }
}

/// Comparing maps heeds neither versions, times and project names, nor the UUIDs,
/// paths, source trees and file types in the tree, nor the UUIDs, products,
/// configurations and dependencies of targets: maps that have trees of one
/// shape, targets with the same names and files, and no path with another UUID
/// are identical.
pub proof fn law_equal_maps_do_not_differ(d: MapDiff, a: ProjectMap, b: ProjectMap)
    requires
        is_diff(d, a, b),
        same_shape(node(a.file_tree), node(b.file_tree)),
        same_targets(views(a.targets@), views(b.targets@)),
        same_uuids(a, b),
    ensures
        d.status == DiffStatus::Identical,
        is_empty_section(d.added),
        is_empty_section(d.removed),
        d.uuid_changes@.len() == 0,
{
    lemma_shape_entries(node(a.file_tree), node(b.file_tree), Seq::empty());
    assert forall|x: Seq<char>| #[trigger]
        is_phase_entry(views(a.targets@), x) <==> is_phase_entry(views(b.targets@), x) by {
        lemma_entry_kept(views(a.targets@), views(b.targets@), x);
    }
    assert forall|x: Seq<char>| #[trigger]
        is_target_name(views(a.targets@), x) <==> is_target_name(views(b.targets@), x) by {
        lemma_entry_kept(views(a.targets@), views(b.targets@), x);
    }
    law_identical_means_same(d, a, b);
}

/// A map does not differ from itself.
pub proof fn law_map_matches_itself(d: MapDiff, a: ProjectMap)
    requires
        is_diff(d, a, a),
    ensures
        d.status == DiffStatus::Identical,
{
    lemma_same_shape_itself(node(a.file_tree));
    law_equal_maps_do_not_differ(d, a, a);
}

/// The rows of a table in order are determined by the table.
pub proof fn law_rows_unique<T>(
    a: Seq<(Seq<char>, T)>,
    b: Seq<(Seq<char>, T)>,
    t: Seq<(Seq<char>, T)>,
)
    requires
        in_order(a, t),
        in_order(b, t),
    ensures
        a == b,
{
    law_listing_unique(keys(a), keys(b), |k: Seq<char>| lookup(t, k) is Some);
    assert(a.len() == keys(a).len());
    assert(b.len() == keys(b).len());
    assert forall|i: int| 0 <= i < a.len() implies a[i] == b[i] by {
        assert(keys(a)[i] == keys(b)[i]);
        assert(lookup(t, a[i].0) == Some(a[i].1));
        assert(lookup(t, b[i].0) == Some(b[i].1));
    }
    assert(a =~= b);
}

/// A project does not differ from its own map: two maps of one project, made at
/// any times, have the same structure.
pub proof fn law_project_matches_its_map(
    d: MapDiff,
    a: ProjectMap,
    b: ProjectMap,
    project: Project,
    rows: Rows,
    map: Seq<(Seq<char>, Seq<char>)>,
    name: Seq<char>,
)
    requires
        is_map_of(a, project, rows, map, name),
        is_map_of(b, project, rows, map, name),
        is_diff(d, a, b),
    ensures
        d.status == DiffStatus::Identical,
{
    law_rows_unique(table_view(a.uuid_table@), table_view(b.uuid_table@), records(rows));
    lemma_same_shape_itself(node(a.file_tree));
    law_equal_maps_do_not_differ(d, a, b);
}

/// What is added from one map to another is what is removed the other way
/// round, and UUIDs change the other way round.
pub proof fn law_added_is_removed_backwards(
    there: MapDiff,
    back: MapDiff,
    a: ProjectMap,
    b: ProjectMap,
)
    requires
        is_diff(there, a, b),
        is_diff(back, b, a),
    ensures
        texts(there.added.targets@) == texts(back.removed.targets@),
        texts(there.added.groups@) == texts(back.removed.groups@),
        texts(there.added.files@) == texts(back.removed.files@),
        texts(there.added.build_phase_entries@) == texts(back.removed.build_phase_entries@),
        there.status == back.status,
        there.uuid_changes@.len() == back.uuid_changes@.len(),
        forall|i: int|
            0 <= i < there.uuid_changes@.len() ==> is_change_backwards(
                #[trigger] there.uuid_changes@[i],
                back.uuid_changes@[i],
            ),
{
    lemma_section_unique(there.added, back.removed, b, a);
    lemma_section_unique(there.removed, back.added, a, b);
    let old_uuids = by_path(table_view(a.uuid_table@));
    let new_uuids = by_path(table_view(b.uuid_table@));
    let holds = |p: Seq<char>| is_changed(old_uuids, new_uuids, p);
    let cs = change_paths(back.uuid_changes@);
    assert forall|x: Seq<char>| #[trigger] cs.contains(x) <==> holds(x) by {
        assert(cs.contains(x) <==> is_changed(new_uuids, old_uuids, x));
    }
    law_listing_unique(change_paths(there.uuid_changes@), cs, holds);
    assert(there.uuid_changes@.len() == change_paths(there.uuid_changes@).len());
    assert(back.uuid_changes@.len() == cs.len());
    assert forall|i: int| 0 <= i < there.uuid_changes@.len() implies is_change_backwards(
        #[trigger] there.uuid_changes@[i],
        back.uuid_changes@[i],
    ) by {
        assert(change_paths(there.uuid_changes@)[i] == cs[i]);
        let x = there.uuid_changes@[i];
        let y = back.uuid_changes@[i];
        assert(lookup(old_uuids, x.path@) == Some(x.old_uuid@));
        assert(lookup(new_uuids, y.path@) == Some(y.old_uuid@));
    }
}

/// The same path, with its UUIDs the other way round.
pub open spec fn is_change_backwards(a: UuidChange, b: UuidChange) -> bool {
    a.path@ == b.path@ && a.old_uuid@ == b.new_uuid@ && a.new_uuid@ == b.old_uuid@
}

proof fn lemma_section_unique(d: DiffSection, e: DiffSection, a: ProjectMap, b: ProjectMap)
    requires
        is_section(d, a, b),
        is_section(e, a, b),
    ensures
        texts(d.targets@) == texts(e.targets@),
        texts(d.groups@) == texts(e.groups@),
        texts(d.files@) == texts(e.files@),
        texts(d.build_phase_entries@) == texts(e.build_phase_entries@),
        is_empty_section(d) == is_empty_section(e),
{
    let here = tree_entries(node(a.file_tree), Seq::empty());
    let there = tree_entries(node(b.file_tree), Seq::empty());
    law_listing_unique(
        texts(d.targets@),
        texts(e.targets@),
        |x: Seq<char>|
            is_target_name(views(a.targets@), x) && !is_target_name(views(b.targets@), x),
    );
    law_listing_unique(
        texts(d.groups@),
        texts(e.groups@),
        |x: Seq<char>| here.contains(x) && !there.contains(x) && is_group_entry(x),
    );
    law_listing_unique(
        texts(d.files@),
        texts(e.files@),
        |x: Seq<char>| here.contains(x) && !there.contains(x) && !is_group_entry(x),
    );
    law_listing_unique(
        texts(d.build_phase_entries@),
        texts(e.build_phase_entries@),
        |x: Seq<char>|
            is_phase_entry(views(a.targets@), x) && !is_phase_entry(views(b.targets@), x),
    );
    assert(texts(d.targets@).len() == texts(e.targets@).len());
    assert(texts(d.groups@).len() == texts(e.groups@).len());
    assert(texts(d.files@).len() == texts(e.files@).len());
    assert(texts(d.build_phase_entries@).len() == texts(e.build_phase_entries@).len());
}

} // verus!
