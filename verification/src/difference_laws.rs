//! What the difference between two maps shows.

use crate::map_laws::is_descent;
use crate::mapper::{
    by_path, change_paths, forest_entries, is_changed, is_diff, is_group_entry, is_phase_entry,
    is_section, is_target_name, node, node_path, phase_entry_at, table_view, tree_entries, views,
    DiffSection, DiffStatus, MapDiff, Node, ProjectMap, Target,
};
use crate::table::{distinct_keys, lemma_upsert, lookup};
use crate::text::texts;
use vstd::prelude::*;

verus! {

// ── Places ───────────────────────────────────────────────────────────────────

/// Names with a slash between each two.
pub open spec fn joined(names: Seq<Seq<char>>) -> Seq<char>
    decreases names.len(),
{
    if names.len() == 0 {
        Seq::empty()
    } else if names.len() == 1 {
        names[0]
    } else {
        joined(names.drop_last()) + "/"@ + names.last()
    }
}

/// The names of some nodes.
pub open spec fn names_of(ns: Seq<Node>) -> Seq<Seq<char>> {
    Seq::new(ns.len(), |i: int| ns[i].name)
}

/// The entry of the last of some nodes: its class, and the names down to it.
pub open spec fn entry_of(ns: Seq<Node>) -> Seq<char> {
    ns.last().isa + ":"@ + joined(names_of(ns))
}

/// A text without the character.
pub open spec fn lacks(s: Seq<char>, c: char) -> bool {
    forall|i: int| 0 <= i < s.len() ==> #[trigger] s[i] != c
}

/// The path of the last of some nodes below `parent`.
spec fn path_from(parent: Seq<char>, ns: Seq<Node>) -> Seq<char>
    decreases ns.len(),
{
    if ns.len() <= 1 {
        node_path(parent, ns[0].name)
    } else {
        path_from(node_path(parent, ns[0].name), ns.drop_first())
    }
}

proof fn lemma_joined_front(names: Seq<Seq<char>>)
    requires
        names.len() > 1,
    ensures
        joined(names) == names[0] + "/"@ + joined(names.drop_first()),
    decreases names.len(),
{
    let rest = names.drop_first();
    if names.len() == 2 {
        assert(names.drop_last()[0] == names[0]);
        assert(joined(names.drop_last()) == names[0]);
        assert(joined(rest) == rest[0]);
        assert(rest[0] == names.last());
    } else {
        let less = names.drop_last();
        lemma_joined_front(less);
        assert(less.drop_first() =~= rest.drop_last());
        assert(rest.last() == names.last());
        assert(joined(rest) == joined(rest.drop_last()) + "/"@ + rest.last());
        assert(joined(names) =~= names[0] + "/"@ + joined(rest));
    }
}

proof fn lemma_path_from(parent: Seq<char>, ns: Seq<Node>)
    requires
        parent.len() > 0,
        ns.len() > 0,
    ensures
        path_from(parent, ns) == parent + "/"@ + joined(names_of(ns)),
    decreases ns.len(),
{
    reveal_strlit("/");
    if ns.len() == 1 {
        assert(names_of(ns)[0] == ns[0].name);
    } else {
        let rest = ns.drop_first();
        let here = node_path(parent, ns[0].name);
        assert(here.len() > 0);
        lemma_path_from(here, rest);
        assert(names_of(ns).drop_first() =~= names_of(rest));
        lemma_joined_front(names_of(ns));
        assert(path_from(parent, ns) =~= parent + "/"@ + joined(names_of(ns)));
    }
}

proof fn lemma_path_from_top(ns: Seq<Node>)
    requires
        ns.len() > 0,
        ns[0].name.len() > 0,
    ensures
        path_from(Seq::empty(), ns) == joined(names_of(ns)),
{
    if ns.len() == 1 {
        assert(names_of(ns)[0] == ns[0].name);
    } else {
        let rest = ns.drop_first();
        lemma_path_from(ns[0].name, rest);
        assert(names_of(ns).drop_first() =~= names_of(rest));
        lemma_joined_front(names_of(ns));
    }
}

proof fn lemma_forest_entries(ns: Seq<Node>, parent: Seq<char>, x: Seq<char>)
    ensures
        forest_entries(ns, parent).contains(x) <==> exists|i: int|
            0 <= i < ns.len() && tree_entries(#[trigger] ns[i], parent).contains(x),
    decreases ns.len(),
{
    reveal_with_fuel(forest_entries, 2);
    if ns.len() > 0 {
        let rest = ns.drop_last();
        lemma_forest_entries(rest, parent, x);
        let a = forest_entries(rest, parent);
        let b = tree_entries(ns.last(), parent);
        let all = forest_entries(ns, parent);
        assert(all == a + b);
        if all.contains(x) {
            let k = choose|k: int| 0 <= k < all.len() && all[k] == x;
            if k < a.len() {
                assert(a[k] == x);
                assert(a.contains(x));
                let i = choose|i: int|
                    0 <= i < rest.len() && tree_entries(#[trigger] rest[i], parent).contains(x);
                assert(ns[i] == rest[i]);
            } else {
                assert(b[k - a.len()] == x);
                assert(b.contains(x));
                assert(ns[ns.len() - 1] == ns.last());
            }
        }
        if exists|i: int|
            0 <= i < ns.len() && tree_entries(#[trigger] ns[i], parent).contains(x) {
            let i = choose|i: int|
                0 <= i < ns.len() && tree_entries(#[trigger] ns[i], parent).contains(x);
            if i < rest.len() {
                assert(rest[i] == ns[i]);
                assert(a.contains(x));
                let k = choose|k: int| 0 <= k < a.len() && a[k] == x;
                assert(all[k] == x);
            } else {
                let k = choose|k: int| 0 <= k < b.len() && b[k] == x;
                assert(all[a.len() + k] == x);
            }
        }
    }
}

proof fn lemma_has_entry(t: Node, parent: Seq<char>, ns: Seq<Node>)
    requires
        is_descent(ns),
        ns[0] == t,
    ensures
        tree_entries(t, parent).contains(ns.last().isa + ":"@ + path_from(parent, ns)),
    decreases ns.len(),
{
    reveal_with_fuel(tree_entries, 2);
    let path = node_path(parent, t.name);
    let all = tree_entries(t, parent);
    let below = forest_entries(t.children, path);
    let x = ns.last().isa + ":"@ + path_from(parent, ns);
    assert(all == seq![t.isa + ":"@ + path] + below);
    if ns.len() == 1 {
        assert(all[0] == x);
    } else {
        let rest = ns.drop_first();
        assert forall|k: int| 0 < k < rest.len() implies rest[k - 1].children.contains(
            #[trigger] rest[k],
        ) by {
            assert(ns[k + 1 - 1].children.contains(ns[k + 1]));
        }
        lemma_has_entry(rest[0], path, rest);
        assert(ns[1 - 1].children.contains(ns[1]));
        let i = choose|i: int| 0 <= i < t.children.len() && t.children[i] == ns[1];
        assert(tree_entries(t.children[i], path).contains(x));
        lemma_forest_entries(t.children, path, x);
        let k = choose|k: int| 0 <= k < below.len() && below[k] == x;
        assert(all[k + 1] == x);
    }
}

proof fn lemma_entry_is_had(t: Node, parent: Seq<char>, x: Seq<char>) -> (ns: Seq<Node>)
    requires
        tree_entries(t, parent).contains(x),
    ensures
        is_descent(ns),
        ns[0] == t,
        x == ns.last().isa + ":"@ + path_from(parent, ns),
    decreases t,
{
    reveal_with_fuel(tree_entries, 2);
    let path = node_path(parent, t.name);
    let all = tree_entries(t, parent);
    let below = forest_entries(t.children, path);
    assert(all == seq![t.isa + ":"@ + path] + below);
    let k = choose|k: int| 0 <= k < all.len() && all[k] == x;
    if k == 0 {
        seq![t]
    } else {
        assert(below[k - 1] == x);
        assert(below.contains(x));
        lemma_forest_entries(t.children, path, x);
        let i = choose|i: int|
            0 <= i < t.children.len() && tree_entries(#[trigger] t.children[i], path).contains(x);
        let rest = lemma_entry_is_had(t.children[i], path, x);
        let ns = seq![t] + rest;
        assert forall|j: int| 0 < j < ns.len() implies ns[j - 1].children.contains(
            #[trigger] ns[j],
        ) by {
            if j > 1 {
                assert(rest[j - 1 - 1].children.contains(rest[j - 1]));
            }
        }
        assert(ns.drop_first() =~= rest);
        assert(ns.last() == rest.last());
        ns
    }
}

/// The entries of a tree are, for each node of it, the class of the node and, after
/// a colon, the names of all nodes from the top down to it, with slashes between.
pub proof fn law_entries_are_places(t: Node, x: Seq<char>)
    requires
        t.name.len() > 0,
    ensures
        tree_entries(t, Seq::empty()).contains(x) <==> exists|ns: Seq<Node>| #[trigger]
            is_descent(ns) && ns[0] == t && x == entry_of(ns),
{
    if tree_entries(t, Seq::empty()).contains(x) {
        let ns = lemma_entry_is_had(t, Seq::empty(), x);
        lemma_path_from_top(ns);
        assert(is_descent(ns));
    }
    if exists|ns: Seq<Node>| #[trigger] is_descent(ns) && ns[0] == t && x == entry_of(ns) {
        let ns = choose|ns: Seq<Node>| #[trigger]
            is_descent(ns) && ns[0] == t && x == entry_of(ns);
        lemma_has_entry(t, Seq::empty(), ns);
        lemma_path_from_top(ns);
    }
}

// ── Places tell nodes apart ──────────────────────────────────────────────────

proof fn lemma_cut(a: Seq<char>, x: Seq<char>, b: Seq<char>, y: Seq<char>, c: char)
    requires
        lacks(a, c),
        lacks(b, c),
        a + seq![c] + x == b + seq![c] + y,
    ensures
        a == b,
        x == y,
{
    let s = a + seq![c] + x;
    let t = b + seq![c] + y;
    assert(s[a.len() as int] == c);
    assert(t[b.len() as int] == c);
    if a.len() < b.len() {
        assert(t[a.len() as int] == b[a.len() as int]);
    }
    if b.len() < a.len() {
        assert(s[b.len() as int] == a[b.len() as int]);
    }
    assert(a =~= s.take(a.len() as int));
    assert(b =~= t.take(a.len() as int));
    assert(x =~= s.skip(a.len() as int + 1));
    assert(y =~= t.skip(a.len() as int + 1));
}

/// Names without slashes can be told from their join.
pub proof fn law_joined_names_are_distinct(a: Seq<Seq<char>>, b: Seq<Seq<char>>)
    requires
        a.len() > 0,
        b.len() > 0,
        forall|i: int| 0 <= i < a.len() ==> lacks(#[trigger] a[i], '/'),
        forall|i: int| 0 <= i < b.len() ==> lacks(#[trigger] b[i], '/'),
        joined(a) == joined(b),
    ensures
        a == b,
    decreases a.len(),
{
    reveal_strlit("/");
    assert("/"@ =~= seq!['/']);
    assert(lacks(a[0], '/'));
    assert(lacks(b[0], '/'));
    if a.len() > 1 {
        lemma_joined_front(a);
    }
    if b.len() > 1 {
        lemma_joined_front(b);
    }
    if a.len() > 1 && b.len() > 1 {
        lemma_cut(a[0], joined(a.drop_first()), b[0], joined(b.drop_first()), '/');
        let ra = a.drop_first();
        let rb = b.drop_first();
        assert forall|i: int| 0 <= i < ra.len() implies lacks(#[trigger] ra[i], '/') by {
            assert(lacks(a[i + 1], '/'));
        }
        assert forall|i: int| 0 <= i < rb.len() implies lacks(#[trigger] rb[i], '/') by {
            assert(lacks(b[i + 1], '/'));
        }
        law_joined_names_are_distinct(ra, rb);
        assert(a =~= seq![a[0]] + ra);
        assert(b =~= seq![b[0]] + rb);
    } else if a.len() > 1 {
        assert(joined(a)[a[0].len() as int] == '/');
        assert(joined(b)[a[0].len() as int] == '/');
    } else if b.len() > 1 {
        assert(joined(b)[b[0].len() as int] == '/');
        assert(joined(a)[b[0].len() as int] == '/');
    } else {
        assert(a =~= b);
    }
}

/// The nodes have names without slashes, and classes without colons.
pub open spec fn is_plain(ns: Seq<Node>) -> bool {
    forall|i: int|
        0 <= i < ns.len() ==> lacks((#[trigger] ns[i]).name, '/') && lacks(ns[i].isa, ':')
}

/// The nodes of a tree have names without slashes, and classes without colons; its
/// top has a name.
pub open spec fn is_plain_tree(t: Node) -> bool {
    &&& t.name.len() > 0
    &&& forall|ns: Seq<Node>| #[trigger] is_descent(ns) && ns[0] == t ==> is_plain(ns)
}

/// The last of the nodes are of one class, and stand in one place.
pub open spec fn same_place(a: Seq<Node>, b: Seq<Node>) -> bool {
    a.last().isa == b.last().isa && names_of(a) == names_of(b)
}

/// A node of that class stands in that place of the tree.
pub open spec fn has_place(t: Node, ns: Seq<Node>) -> bool {
    exists|other: Seq<Node>| #[trigger]
        is_descent(other) && other[0] == t && same_place(ns, other)
}

proof fn lemma_place(t: Node, ns: Seq<Node>)
    requires
        is_plain_tree(t),
        ns.len() > 0,
        is_plain(ns),
    ensures
        tree_entries(t, Seq::empty()).contains(entry_of(ns)) <==> has_place(t, ns),
{
    reveal_strlit(":");
    assert(":"@ =~= seq![':']);
    let x = entry_of(ns);
    law_entries_are_places(t, x);
    if tree_entries(t, Seq::empty()).contains(x) {
        let other = choose|other: Seq<Node>| #[trigger]
            is_descent(other) && other[0] == t && x == entry_of(other);
        assert(is_plain(other));
        assert(lacks(ns[ns.len() - 1].isa, ':'));
        assert(lacks(other[other.len() - 1].isa, ':'));
        lemma_cut(
            ns.last().isa,
            joined(names_of(ns)),
            other.last().isa,
            joined(names_of(other)),
            ':',
        );
        assert forall|i: int| 0 <= i < ns.len() implies lacks(#[trigger] names_of(ns)[i], '/') by {
            assert(lacks(ns[i].name, '/'));
        }
        assert forall|i: int| 0 <= i < other.len() implies lacks(
            #[trigger] names_of(other)[i],
            '/',
        ) by {
            assert(lacks(other[i].name, '/'));
        }
        law_joined_names_are_distinct(names_of(ns), names_of(other));
        assert(is_descent(other) && same_place(ns, other));
    }
    if has_place(t, ns) {
        let other = choose|other: Seq<Node>| #[trigger]
            is_descent(other) && other[0] == t && same_place(ns, other);
        assert(entry_of(other) == x);
    }
}

proof fn lemma_group_entry(ns: Seq<Node>)
    requires
        ns.len() > 0,
        is_plain(ns),
    ensures
        is_group_entry(entry_of(ns)) <==> (ns.last().isa == "PBXGroup"@ || ns.last().isa
            == "PBXVariantGroup"@),
{
    reveal_strlit(":");
    reveal_strlit("PBXGroup");
    reveal_strlit("PBXGroup:");
    reveal_strlit("PBXVariantGroup");
    reveal_strlit("PBXVariantGroup:");
    assert(lacks(ns[ns.len() - 1].isa, ':'));
    let isa = ns.last().isa;
    let x = entry_of(ns);
    let rest = joined(names_of(ns));
    assert("PBXGroup:"@ =~= "PBXGroup"@ + seq![':']);
    assert("PBXVariantGroup:"@ =~= "PBXVariantGroup"@ + seq![':']);
    assert(":"@ =~= seq![':']);
    if "PBXGroup:"@.is_prefix_of(x) {
        let n = "PBXGroup:"@.len() as int;
        assert(x =~= "PBXGroup"@ + seq![':'] + x.skip(n));
        lemma_cut(isa, rest, "PBXGroup"@, x.skip(n), ':');
    }
    if "PBXVariantGroup:"@.is_prefix_of(x) {
        let n = "PBXVariantGroup:"@.len() as int;
        assert(x =~= "PBXVariantGroup"@ + seq![':'] + x.skip(n));
        lemma_cut(isa, rest, "PBXVariantGroup"@, x.skip(n), ':');
    }
    if isa == "PBXGroup"@ {
        assert("PBXGroup:"@ =~= x.subrange(0, "PBXGroup:"@.len() as int));
    }
    if isa == "PBXVariantGroup"@ {
        assert("PBXVariantGroup:"@ =~= x.subrange(0, "PBXVariantGroup:"@.len() as int));
    }
}

proof fn lemma_section_places(
    s: DiffSection,
    here: ProjectMap,
    there: ProjectMap,
    ns: Seq<Node>,
)
    requires
        is_section(s, here, there),
        is_plain_tree(node(here.file_tree)),
        is_plain_tree(node(there.file_tree)),
        is_descent(ns),
        ns[0] == node(here.file_tree),
    ensures
        !has_place(node(there.file_tree), ns) ==> if ns.last().isa == "PBXGroup"@ || ns.last().isa
            == "PBXVariantGroup"@ {
            texts(s.groups@).contains(entry_of(ns))
        } else {
            texts(s.files@).contains(entry_of(ns))
        },
        has_place(node(there.file_tree), ns) ==> !texts(s.groups@).contains(entry_of(ns)) && !texts(
            s.files@,
        ).contains(entry_of(ns)),
{
    lemma_place(node(there.file_tree), ns);
    law_entries_are_places(node(here.file_tree), entry_of(ns));
    lemma_group_entry(ns);
}

/// A node that stands in a place of the one tree in which the other has no node of
/// its class is listed, with its class and the names down to it: as added if it is
/// in the new map, as removed if it is in the old one. One that stands in the same
/// place in both is not listed.
pub proof fn law_moved_node_is_listed(
    d: MapDiff,
    reference: ProjectMap,
    current: ProjectMap,
    ns: Seq<Node>,
)
    requires
        is_diff(d, reference, current),
        is_plain_tree(node(reference.file_tree)),
        is_plain_tree(node(current.file_tree)),
        is_descent(ns),
    ensures
        ({
            let old_tree = node(reference.file_tree);
            let new_tree = node(current.file_tree);
            let is_group = ns.last().isa == "PBXGroup"@ || ns.last().isa == "PBXVariantGroup"@;
            let x = entry_of(ns);
            &&& ns[0] == new_tree ==> {
                &&& !has_place(old_tree, ns) && is_group ==> texts(d.added.groups@).contains(x)
                &&& !has_place(old_tree, ns) && !is_group ==> texts(d.added.files@).contains(x)
                &&& has_place(old_tree, ns) ==> !texts(d.added.groups@).contains(x) && !texts(
                    d.added.files@,
                ).contains(x)
            }
            &&& ns[0] == old_tree ==> {
                &&& !has_place(new_tree, ns) && is_group ==> texts(d.removed.groups@).contains(x)
                &&& !has_place(new_tree, ns) && !is_group ==> texts(d.removed.files@).contains(x)
                &&& has_place(new_tree, ns) ==> !texts(d.removed.groups@).contains(x) && !texts(
                    d.removed.files@,
                ).contains(x)
            }
        }),
{
    if ns[0] == node(current.file_tree) {
        lemma_section_places(d.added, current, reference, ns);
    }
    if ns[0] == node(reference.file_tree) {
        lemma_section_places(d.removed, reference, current, ns);
    }
}

/// Maps are identical only if every node of either tree has a node of its class in
/// its place in the other.
pub proof fn law_identical_trees_have_the_same_places(
    d: MapDiff,
    reference: ProjectMap,
    current: ProjectMap,
    ns: Seq<Node>,
)
    requires
        is_diff(d, reference, current),
        d.status == DiffStatus::Identical,
        is_plain_tree(node(reference.file_tree)),
        is_plain_tree(node(current.file_tree)),
        is_descent(ns),
    ensures
        ns[0] == node(current.file_tree) ==> has_place(node(reference.file_tree), ns),
        ns[0] == node(reference.file_tree) ==> has_place(node(current.file_tree), ns),
{
    law_moved_node_is_listed(d, reference, current, ns);
}

// ── Targets and their files ──────────────────────────────────────────────────

/// Some target of that name has, in some phase of that type, a file of that path.
pub open spec fn builds(
    ts: Seq<Target>,
    target: Seq<char>,
    phase_type: Seq<char>,
    path: Seq<char>,
) -> bool {
    exists|t: int, p: int, f: int| #[trigger] builds_at(ts, t, p, f, target, phase_type, path)
}

pub open spec fn builds_at(
    ts: Seq<Target>,
    t: int,
    p: int,
    f: int,
    target: Seq<char>,
    phase_type: Seq<char>,
    path: Seq<char>,
) -> bool {
    &&& 0 <= t < ts.len()
    &&& 0 <= p < ts[t].build_phases.len()
    &&& 0 <= f < ts[t].build_phases[p].files.len()
    &&& ts[t].name == target
    &&& ts[t].build_phases[p].phase_type == phase_type
    &&& ts[t].build_phases[p].files[f].path == path
}

/// The targets and the types of their phases have names without slashes.
pub open spec fn are_plain_targets(ts: Seq<Target>) -> bool {
    &&& forall|t: int| 0 <= t < ts.len() ==> lacks((#[trigger] ts[t]).name, '/')
    &&& forall|t: int, p: int|
        0 <= t < ts.len() && 0 <= p < ts[t].build_phases.len() ==> lacks(
            (#[trigger] ts[t].build_phases[p]).phase_type,
            '/',
        )
}

proof fn lemma_phase_entry(
    ts: Seq<Target>,
    target: Seq<char>,
    phase_type: Seq<char>,
    path: Seq<char>,
)
    requires
        are_plain_targets(ts),
        lacks(target, '/'),
        lacks(phase_type, '/'),
    ensures
        is_phase_entry(ts, target + "/"@ + phase_type + "/"@ + path) <==> builds(
            ts,
            target,
            phase_type,
            path,
        ),
{
    reveal_strlit("/");
    assert("/"@ =~= seq!['/']);
    let x = target + "/"@ + phase_type + "/"@ + path;
    if is_phase_entry(ts, x) {
        let (t, p, f) = choose|t: int, p: int, f: int| #[trigger] phase_entry_at(ts, t, p, f, x);
        let other = ts[t].build_phases[p];
        assert(lacks(ts[t].build_phases[p].phase_type, '/'));
        assert(lacks(ts[t].name, '/'));
        assert(x =~= target + seq!['/'] + (phase_type + seq!['/'] + path));
        assert(x =~= ts[t].name + seq!['/'] + (other.phase_type + seq!['/'] + other.files[f].path));
        lemma_cut(
            target,
            phase_type + seq!['/'] + path,
            ts[t].name,
            other.phase_type + seq!['/'] + other.files[f].path,
            '/',
        );
        lemma_cut(phase_type, path, other.phase_type, other.files[f].path, '/');
        assert(builds_at(ts, t, p, f, target, phase_type, path));
    }
    if builds(ts, target, phase_type, path) {
        let (t, p, f) = choose|t: int, p: int, f: int| #[trigger]
            builds_at(ts, t, p, f, target, phase_type, path);
        assert(phase_entry_at(ts, t, p, f, x));
    }
}

/// The files that targets build in phases of some type are listed as added exactly
/// if the new map has them and the old one does not, and as removed the other way
/// round. Maps are identical only if both build the same.
pub proof fn law_built_files_are_listed(
    d: MapDiff,
    reference: ProjectMap,
    current: ProjectMap,
    target: Seq<char>,
    phase_type: Seq<char>,
    path: Seq<char>,
)
    requires
        is_diff(d, reference, current),
        are_plain_targets(views(reference.targets@)),
        are_plain_targets(views(current.targets@)),
        lacks(target, '/'),
        lacks(phase_type, '/'),
    ensures
        ({
            let before = builds(views(reference.targets@), target, phase_type, path);
            let after = builds(views(current.targets@), target, phase_type, path);
            let x = target + "/"@ + phase_type + "/"@ + path;
            &&& texts(d.added.build_phase_entries@).contains(x) <==> after && !before
            &&& texts(d.removed.build_phase_entries@).contains(x) <==> before && !after
            &&& d.status == DiffStatus::Identical ==> before == after
        }),
{
    lemma_phase_entry(views(reference.targets@), target, phase_type, path);
    lemma_phase_entry(views(current.targets@), target, phase_type, path);
    let x = target + "/"@ + phase_type + "/"@ + path;
    if d.status == DiffStatus::Identical {
        assert(!texts(d.added.build_phase_entries@).contains(x));
        assert(!texts(d.removed.build_phase_entries@).contains(x));
    }
}

/// Some target has that name.
pub open spec fn has_target(ts: Seq<Target>, name: Seq<char>) -> bool {
    exists|t: int| 0 <= t < ts.len() && (#[trigger] ts[t]).name == name
}

/// The names of targets are listed as added exactly if the new map has them and the
/// old one does not, and as removed the other way round. Maps are identical only if
/// both have the same.
pub proof fn law_targets_are_listed(
    d: MapDiff,
    reference: ProjectMap,
    current: ProjectMap,
    name: Seq<char>,
)
    requires
        is_diff(d, reference, current),
    ensures
        ({
            let before = has_target(views(reference.targets@), name);
            let after = has_target(views(current.targets@), name);
            &&& texts(d.added.targets@).contains(name) <==> after && !before
            &&& texts(d.removed.targets@).contains(name) <==> before && !after
            &&& d.status == DiffStatus::Identical ==> before == after
        }),
{
    assert(has_target(views(reference.targets@), name) == is_target_name(
        views(reference.targets@),
        name,
    ));
    assert(has_target(views(current.targets@), name) == is_target_name(
        views(current.targets@),
        name,
    ));
    if d.status == DiffStatus::Identical {
        assert(!texts(d.added.targets@).contains(name));
        assert(!texts(d.removed.targets@).contains(name));
    }
}

// ── UUIDs ────────────────────────────────────────────────────────────────────

/// The row is the only one of its path.
pub open spec fn is_sole(rows: Seq<(Seq<char>, (Seq<char>, Seq<char>))>, i: int) -> bool {
    &&& 0 <= i < rows.len()
    &&& forall|j: int|
        0 <= j < rows.len() && j != i ==> (#[trigger] rows[j]).1.1 != rows[i].1.1
}

proof fn lemma_paths_distinct(rows: Seq<(Seq<char>, (Seq<char>, Seq<char>))>)
    ensures
        distinct_keys(by_path(rows)),
    decreases rows.len(),
{
    if rows.len() > 0 {
        lemma_paths_distinct(rows.drop_last());
        lemma_upsert(by_path(rows.drop_last()), rows.last().1.1, rows.last().0);
    }
}

proof fn lemma_by_path(rows: Seq<(Seq<char>, (Seq<char>, Seq<char>))>, i: int)
    requires
        is_sole(rows, i),
    ensures
        lookup(by_path(rows), rows[i].1.1) == Some(rows[i].0),
    decreases rows.len(),
{
    let rest = rows.drop_last();
    lemma_paths_distinct(rest);
    lemma_upsert(by_path(rest), rows.last().1.1, rows.last().0);
    if i < rest.len() {
        assert(rows[rows.len() - 1].1.1 != rows[i].1.1);
        assert forall|j: int| 0 <= j < rest.len() && j != i implies (#[trigger] rest[j]).1.1
            != rest[i].1.1 by {
            assert(rows[j].1.1 != rows[i].1.1);
        }
        lemma_by_path(rest, i);
    }
}

/// An object that both maps have under one path, once each, is listed as changed
/// exactly if its UUIDs differ, with the old one and the new one. Maps are identical
/// only if they are the same.
pub proof fn law_changed_uuid_is_listed(
    d: MapDiff,
    reference: ProjectMap,
    current: ProjectMap,
    i: int,
    j: int,
)
    requires
        is_diff(d, reference, current),
        is_sole(table_view(reference.uuid_table@), i),
        is_sole(table_view(current.uuid_table@), j),
        table_view(reference.uuid_table@)[i].1.1 == table_view(current.uuid_table@)[j].1.1,
    ensures
        ({
            let before = table_view(reference.uuid_table@)[i];
            let after = table_view(current.uuid_table@)[j];
            &&& before.0 != after.0 <==> exists|k: int|
                0 <= k < d.uuid_changes@.len() && (#[trigger] d.uuid_changes@[k]).path@
                    == before.1.1 && d.uuid_changes@[k].old_uuid@ == before.0
                    && d.uuid_changes@[k].new_uuid@ == after.0
            &&& d.status == DiffStatus::Identical ==> before.0 == after.0
        }),
{
    let a = table_view(reference.uuid_table@);
    let b = table_view(current.uuid_table@);
    lemma_by_path(a, i);
    lemma_by_path(b, j);
    let p = a[i].1.1;
    let paths = change_paths(d.uuid_changes@);
    if a[i].0 != b[j].0 {
        assert(is_changed(by_path(a), by_path(b), p));
        assert(paths.contains(p));
        let k = choose|k: int| 0 <= k < paths.len() && paths[k] == p;
        assert(d.uuid_changes@[k].path@ == p);
    }
    if exists|k: int|
        0 <= k < d.uuid_changes@.len() && (#[trigger] d.uuid_changes@[k]).path@ == p
            && d.uuid_changes@[k].old_uuid@ == a[i].0 && d.uuid_changes@[k].new_uuid@ == b[j].0 {
        let k = choose|k: int|
            0 <= k < d.uuid_changes@.len() && (#[trigger] d.uuid_changes@[k]).path@ == p
                && d.uuid_changes@[k].old_uuid@ == a[i].0 && d.uuid_changes@[k].new_uuid@ == b[j].0;
        assert(paths[k] == p);
        assert(paths.contains(p));
        assert(is_changed(by_path(a), by_path(b), p));
    }
}

} // verus!
