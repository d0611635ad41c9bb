//! What a map shows of a project.

use crate::mapper::{
    dependency_names, file_node, file_nodes, is_map_of, keys, names, node, phase, phase_file,
    phase_files, phases, project_tree, records, table_view, target, targets, typed_kind,
    typed_rest, views, Node, Phase, PhaseFile, ProjectMap, Target,
};
use crate::parser::{field, Project};
use crate::plist::Plist;
use crate::table::{distinct_keys, lemma_slot, lemma_upsert, lookup, slot};
use crate::text::texts;
use crate::uniquifier::{is_object, list_field, text_field, Objects, Rows};
use vstd::prelude::*;

verus! {

// ── Nodes ────────────────────────────────────────────────────────────────────

/// A node shows an object: its new UUID, its class, its name, or else its path,
/// and its place.  One without a class is a group, one without either is unnamed.
pub open spec fn shows_object(
    os: Objects,
    map: Seq<(Seq<char>, Seq<char>)>,
    u: Seq<char>,
    n: Node,
) -> bool {
    &&& match lookup(map, u) {
        Some(new) => n.uuid == new,
        None => n.uuid == u,
    }
    &&& match text_field(os, u, "isa"@) {
        Some(isa) => n.isa == isa,
        None => n.isa == "PBXGroup"@,
    }
    &&& match (text_field(os, u, "name"@), text_field(os, u, "path"@)) {
        (Some(name), _) => n.name == name,
        (None, Some(path)) => n.name == path,
        (None, None) => n.name == "(unnamed)"@,
    }
    &&& n.path == text_field(os, u, "path"@)
    &&& n.source_tree == text_field(os, u, "sourceTree"@)
    &&& field(os, u, "lastKnownFileType"@) is Some ==> n.file_type == text_field(
        os,
        u,
        "lastKnownFileType"@,
    )
    &&& field(os, u, "lastKnownFileType"@) is None ==> n.file_type == text_field(
        os,
        u,
        "explicitFileType"@,
    )
}

/// Those of some UUIDs that are objects.
pub open spec fn objects_among(os: Objects, us: Seq<Seq<char>>) -> Seq<Seq<char>> {
    us.filter(|u: Seq<char>| is_object(os, u))
}

proof fn lemma_filter_push(os: Objects, us: Seq<Seq<char>>, u: Seq<char>)
    ensures
        objects_among(os, us.push(u)) == if is_object(os, u) {
            objects_among(os, us).push(u)
        } else {
            objects_among(os, us)
        },
{
    reveal(Seq::filter);
    assert(us.push(u).drop_last() =~= us);
}

proof fn lemma_nodes(
    os: Objects,
    map: Seq<(Seq<char>, Seq<char>)>,
    us: Seq<Seq<char>>,
    fuel: nat,
)
    requires
        fuel > 0,
    ensures
        file_nodes(os, map, us, fuel).len() == objects_among(os, us).len(),
        forall|i: int|
            0 <= i < objects_among(os, us).len() ==> file_node(
                os,
                map,
                objects_among(os, us)[i],
                fuel,
            ) == Some(#[trigger] file_nodes(os, map, us, fuel)[i]),
    decreases us.len(),
{
    reveal(Seq::filter);
    reveal_with_fuel(file_nodes, 2);
    reveal_with_fuel(file_node, 2);
    if us.len() > 0 {
        let rest = us.drop_last();
        lemma_nodes(os, map, rest, fuel);
        assert(rest.push(us.last()) =~= us);
        lemma_filter_push(os, rest, us.last());
        let now = file_nodes(os, map, us, fuel);
        let before = file_nodes(os, map, rest, fuel);
        assert forall|i: int| 0 <= i < objects_among(os, us).len() implies file_node(
            os,
            map,
            objects_among(os, us)[i],
            fuel,
        ) == Some(#[trigger] now[i]) by {
            if i < before.len() {
                assert(now[i] == before[i]);
            }
        }
    }
}

/// The node of an object shows it, and has below it, in their order, one node for
/// each object of its list of children, and no others.
pub proof fn law_node_has_its_children(
    os: Objects,
    map: Seq<(Seq<char>, Seq<char>)>,
    u: Seq<char>,
    fuel: nat,
)
    requires
        is_object(os, u),
        fuel > 1,
    ensures
        ({
            let n = file_node(os, map, u, fuel);
            let us = objects_among(os, list_field(os, u, "children"@));
            &&& n is Some
            &&& shows_object(os, map, u, n->Some_0)
            &&& n->Some_0.children.len() == us.len()
            &&& forall|i: int|
                0 <= i < us.len() ==> shows_object(os, map, us[i], #[trigger] n->Some_0.children[i])
        }),
{
    let us = objects_among(os, list_field(os, u, "children"@));
    let n = file_node(os, map, u, fuel)->Some_0;
    lemma_nodes(os, map, list_field(os, u, "children"@), (fuel - 1) as nat);
    assert forall|i: int| 0 <= i < us.len() implies shows_object(
        os,
        map,
        us[i],
        #[trigger] n.children[i],
    ) by {
        assert(file_node(os, map, us[i], (fuel - 1) as nat) == Some(n.children[i]));
    }
}

// ── Trees ────────────────────────────────────────────────────────────────────

/// Nodes of which each stands among the children of the one before.
pub open spec fn is_descent(ns: Seq<Node>) -> bool {
    &&& ns.len() > 0
    &&& forall|i: int| 0 < i < ns.len() ==> ns[i - 1].children.contains(#[trigger] ns[i])
}

/// The nodes show the objects, one for one.
pub open spec fn shows_objects(
    os: Objects,
    map: Seq<(Seq<char>, Seq<char>)>,
    us: Seq<Seq<char>>,
    ns: Seq<Node>,
) -> bool {
    &&& us.len() == ns.len()
    &&& forall|i: int| 0 <= i < us.len() ==> shows_object(os, map, us[i], #[trigger] ns[i])
}

proof fn lemma_descent(n: Node, ns: Seq<Node>)
    requires
        is_descent(ns),
        n.children.contains(ns[0]),
    ensures
        is_descent(seq![n] + ns),
{
    let all = seq![n] + ns;
    assert forall|i: int| 0 < i < all.len() implies all[i - 1].children.contains(
        #[trigger] all[i],
    ) by {
        if i > 1 {
            assert(ns[i - 1 - 1].children.contains(ns[i - 1]));
        }
    }
}

/// A way from one object down to another by lists of children, through no object
/// twice.
pub open spec fn is_way(os: Objects, us: Seq<Seq<char>>) -> bool {
    &&& us.len() > 0
    &&& us.no_duplicates()
    &&& forall|i: int| 0 <= i < us.len() ==> is_object(os, #[trigger] us[i])
    &&& forall|i: int|
        0 < i < us.len() ==> list_field(os, us[i - 1], "children"@).contains(#[trigger] us[i])
}

proof fn lemma_way(
    os: Objects,
    map: Seq<(Seq<char>, Seq<char>)>,
    us: Seq<Seq<char>>,
    fuel: nat,
) -> (ns: Seq<Node>)
    requires
        is_way(os, us),
        us.len() < fuel,
    ensures
        is_descent(ns),
        file_node(os, map, us[0], fuel) == Some(ns[0]),
        shows_objects(os, map, us, ns),
    decreases us.len(),
{
    let t = file_node(os, map, us[0], fuel)->Some_0;
    law_node_has_its_children(os, map, us[0], fuel);
    if us.len() == 1 {
        seq![t]
    } else {
        let rest = us.drop_first();
        assert forall|i: int, j: int| 0 <= i < rest.len() && 0 <= j < rest.len() && i != j implies
        rest[i] != rest[j] by {
            assert(us[i + 1] != us[j + 1]);
        }
        assert forall|i: int| 0 <= i < rest.len() implies is_object(os, #[trigger] rest[i]) by {
            assert(is_object(os, us[i + 1]));
        }
        assert forall|i: int| 0 < i < rest.len() implies list_field(
            os,
            rest[i - 1],
            "children"@,
        ).contains(#[trigger] rest[i]) by {
            assert(list_field(os, us[i + 1 - 1], "children"@).contains(us[i + 1]));
        }
        let less = (fuel - 1) as nat;
        let ns = lemma_way(os, map, rest, less);
        let list = list_field(os, us[0], "children"@);
        assert(list.contains(us[1])) by {
            assert(list_field(os, us[1 - 1], "children"@).contains(us[1]));
        }
        lemma_nodes(os, map, list, less);
        lemma_among(os, list, us[1]);
        let among = objects_among(os, list);
        let k = choose|k: int| 0 <= k < among.len() && among[k] == us[1];
        assert(file_node(os, map, among[k], less) == Some(t.children[k]));
        assert(t.children[k] == ns[0]);
        lemma_descent(t, ns);
        let all = seq![t] + ns;
        assert forall|i: int| 0 <= i < us.len() implies shows_object(
            os,
            map,
            us[i],
            #[trigger] all[i],
        ) by {
            if i > 0 {
                assert(shows_object(os, map, rest[i - 1], ns[i - 1]));
            }
        }
        all
    }
}

proof fn lemma_among(os: Objects, us: Seq<Seq<char>>, u: Seq<char>)
    requires
        us.contains(u),
        is_object(os, u),
    ensures
        objects_among(os, us).contains(u),
    decreases us.len(),
{
    if us.len() > 0 {
        let rest = us.drop_last();
        assert(rest.push(us.last()) =~= us);
        lemma_filter_push(os, rest, us.last());
        let all = objects_among(os, us);
        if us.last() == u {
            assert(all[all.len() - 1] == u);
        } else {
            let i = choose|i: int| 0 <= i < us.len() && us[i] == u;
            assert(rest[i] == u);
            lemma_among(os, rest, u);
            let before = objects_among(os, rest);
            let k = choose|k: int| 0 <= k < before.len() && before[k] == u;
            assert(all[k] == u);
        }
    }
}

/// A way is no longer than the number of objects.
pub proof fn lemma_way_is_short(os: Objects, us: Seq<Seq<char>>)
    requires
        is_way(os, us),
    ensures
        us.len() <= os.len(),
{
    let all = Seq::new(os.len(), |i: int| os[i].0);
    assert forall|u: Seq<char>| #[trigger] us.to_set().contains(u) implies all.to_set().contains(
        u,
    ) by {
        let i = choose|i: int| 0 <= i < us.len() && us[i] == u;
        assert(is_object(os, us[i]));
        lemma_slot(os, u);
        let k = slot(os, u)->Some_0;
        assert(all[k] == u);
    }
    us.unique_seq_to_set();
    all.lemma_cardinality_of_set();
    vstd::set_lib::lemma_len_subset(us.to_set(), all.to_set());
}

/// Every object that the main group leads to by lists of children has its node in
/// the tree of the map, which shows it.
pub proof fn law_tree_holds_what_is_reached(
    m: ProjectMap,
    p: Project,
    rows: Rows,
    map: Seq<(Seq<char>, Seq<char>)>,
    name: Seq<char>,
    us: Seq<Seq<char>>,
)
    requires
        is_map_of(m, p, rows, map, name),
        is_way(p.objects, us),
        text_field(p.objects, p.root_object, "mainGroup"@) == Some(us[0]),
    ensures
        shows_object(p.objects, map, us[0], node(m.file_tree)),
        exists|ns: Seq<Node>| #[trigger]
            is_descent(ns) && ns[0] == node(m.file_tree) && shows_objects(p.objects, map, us, ns),
{
    let os = p.objects;
    let fuel = os.len() + 1;
    lemma_way_is_short(os, us);
    let ns = lemma_way(os, map, us, fuel);
    law_node_has_its_children(os, map, us[0], fuel);
    assert(node(m.file_tree) == project_tree(p, map, name));
    assert(is_descent(ns));
}

proof fn lemma_descent_is_reached(
    os: Objects,
    map: Seq<(Seq<char>, Seq<char>)>,
    u: Seq<char>,
    fuel: nat,
    ns: Seq<Node>,
) -> (us: Seq<Seq<char>>)
    requires
        is_descent(ns),
        file_node(os, map, u, fuel) == Some(ns[0]),
    ensures
        us.len() == ns.len(),
        us[0] == u,
        leads_by(os, us),
        shows_objects(os, map, us, ns),
    decreases fuel,
{
    reveal_with_fuel(file_node, 2);
    let t = ns[0];
    if ns.len() == 1 {
        seq![u]
    } else {
        let list = list_field(os, u, "children"@);
        let less = (fuel - 1) as nat;
        assert(ns[1 - 1].children.contains(ns[1]));
        let i = choose|i: int| 0 <= i < t.children.len() && t.children[i] == ns[1];
        if less == 0 {
            lemma_no_nodes(os, map, list);
        }
        lemma_nodes(os, map, list, less);
        let among = objects_among(os, list);
        let w = among[i];
        lemma_among_source(os, list);
        assert(among.contains(w));
        assert(file_node(os, map, w, less) == Some(t.children[i]));
        let rest = ns.drop_first();
        assert forall|k: int| 0 < k < rest.len() implies rest[k - 1].children.contains(
            #[trigger] rest[k],
        ) by {
            assert(ns[k + 1 - 1].children.contains(ns[k + 1]));
        }
        let us = lemma_descent_is_reached(os, map, w, less, rest);
        let all = seq![u] + us;
        assert forall|k: int| 0 < k < all.len() implies list_field(
            os,
            all[k - 1],
            "children"@,
        ).contains(#[trigger] all[k]) by {
            if k > 1 {
                assert(list_field(os, us[k - 1 - 1], "children"@).contains(us[k - 1]));
            }
        }
        assert forall|k: int| 0 <= k < all.len() implies is_object(os, #[trigger] all[k]) by {
            if k > 0 {
                assert(is_object(os, us[k - 1]));
            }
        }
        assert forall|k: int| 0 <= k < all.len() implies shows_object(
            os,
            map,
            all[k],
            #[trigger] ns[k],
        ) by {
            if k > 0 {
                assert(shows_object(os, map, us[k - 1], rest[k - 1]));
            }
        }
        all
    }
}

proof fn lemma_no_nodes(os: Objects, map: Seq<(Seq<char>, Seq<char>)>, us: Seq<Seq<char>>)
    ensures
        file_nodes(os, map, us, 0).len() == 0,
    decreases us.len(),
{
    reveal_with_fuel(file_nodes, 2);
    reveal_with_fuel(file_node, 2);
    if us.len() > 0 {
        lemma_no_nodes(os, map, us.drop_last());
    }
}

proof fn lemma_among_source(os: Objects, us: Seq<Seq<char>>)
    ensures
        forall|u: Seq<char>| #[trigger]
            objects_among(os, us).contains(u) ==> us.contains(u) && is_object(os, u),
    decreases us.len(),
{
    reveal(Seq::filter);
    if us.len() > 0 {
        let rest = us.drop_last();
        lemma_among_source(os, rest);
        assert(rest.push(us.last()) =~= us);
        lemma_filter_push(os, rest, us.last());
        assert forall|u: Seq<char>| #[trigger] objects_among(os, us).contains(u) implies us.contains(
            u,
        ) && is_object(os, u) by {
            let all = objects_among(os, us);
            let k = choose|k: int| 0 <= k < all.len() && all[k] == u;
            let before = objects_among(os, rest);
            if k < before.len() {
                assert(before[k] == u);
                assert(before.contains(u));
                let i = choose|i: int| 0 <= i < rest.len() && rest[i] == u;
                assert(us[i] == u);
            } else {
                assert(us[us.len() - 1] == u);
            }
        }
    }
}

/// Steps from object to object, down lists of children.
pub open spec fn leads_by(os: Objects, us: Seq<Seq<char>>) -> bool {
    &&& us.len() > 0
    &&& forall|i: int| 0 <= i < us.len() ==> is_object(os, #[trigger] us[i])
    &&& forall|i: int|
        0 < i < us.len() ==> list_field(os, us[i - 1], "children"@).contains(#[trigger] us[i])
}

/// The tree of a map holds nothing but objects that the main group leads to.
pub proof fn law_tree_holds_nothing_else(
    m: ProjectMap,
    p: Project,
    rows: Rows,
    map: Seq<(Seq<char>, Seq<char>)>,
    name: Seq<char>,
    g: Seq<char>,
    ns: Seq<Node>,
)
    requires
        is_map_of(m, p, rows, map, name),
        text_field(p.objects, p.root_object, "mainGroup"@) == Some(g),
        is_object(p.objects, g),
        is_descent(ns),
        ns[0] == node(m.file_tree),
    ensures
        exists|us: Seq<Seq<char>>| #[trigger]
            leads_by(p.objects, us) && us[0] == g && shows_objects(p.objects, map, us, ns),
{
    let us = lemma_descent_is_reached(p.objects, map, g, p.objects.len() + 1, ns);
    assert(leads_by(p.objects, us));
}

// ── Targets ──────────────────────────────────────────────────────────────────

/// Those of some objects that have names.
pub open spec fn named_among(os: Objects, us: Seq<Seq<char>>) -> Seq<Seq<char>> {
    us.filter(|u: Seq<char>| text_field(os, u, "name"@) is Some)
}

/// The texts are the names of the objects that have names, in their order.
pub open spec fn shows_names(os: Objects, us: Seq<Seq<char>>, xs: Seq<Seq<char>>) -> bool {
    let named = named_among(os, us);
    &&& xs.len() == named.len()
    &&& forall|i: int|
        0 <= i < named.len() ==> Some(#[trigger] xs[i]) == text_field(os, named[i], "name"@)
}

proof fn lemma_names(os: Objects, us: Seq<Seq<char>>)
    ensures
        shows_names(os, us, names(os, us)),
    decreases us.len(),
{
    reveal(Seq::filter);
    if us.len() > 0 {
        let rest = us.drop_last();
        lemma_names(os, rest);
        let a = names(os, rest);
        let b = names(os, us);
        let named = named_among(os, us);
        assert forall|i: int| 0 <= i < named.len() implies Some(#[trigger] b[i]) == text_field(
            os,
            named[i],
            "name"@,
        ) by {
            if i < a.len() {
                assert(b[i] == a[i]);
                assert(named[i] == named_among(os, rest)[i]);
            }
        }
    }
}

/// The dependency is on a target with a name.
pub open spec fn is_on_named_target(os: Objects, d: Seq<char>) -> bool {
    match text_field(os, d, "target"@) {
        Some(t) => text_field(os, t, "name"@) is Some,
        None => false,
    }
}

/// The texts are the names of the targets that are depended on, as far as these have
/// names, in their order.
pub open spec fn shows_dependencies(os: Objects, ds: Seq<Seq<char>>, xs: Seq<Seq<char>>) -> bool {
    let named = ds.filter(|d: Seq<char>| is_on_named_target(os, d));
    &&& xs.len() == named.len()
    &&& forall|i: int|
        0 <= i < named.len() ==> Some(#[trigger] xs[i]) == text_field(
            os,
            text_field(os, named[i], "target"@)->Some_0,
            "name"@,
        )
}

proof fn lemma_dependencies(os: Objects, us: Seq<Seq<char>>)
    ensures
        shows_dependencies(os, us, dependency_names(os, us)),
    decreases us.len(),
{
    reveal(Seq::filter);
    if us.len() > 0 {
        let rest = us.drop_last();
        lemma_dependencies(os, rest);
        let a = dependency_names(os, rest);
        let b = dependency_names(os, us);
        let named = us.filter(|d: Seq<char>| is_on_named_target(os, d));
        assert forall|i: int| 0 <= i < named.len() implies Some(#[trigger] b[i]) == text_field(
            os,
            text_field(os, named[i], "target"@)->Some_0,
            "name"@,
        ) by {
            if i < a.len() {
                assert(b[i] == a[i]);
                assert(named[i] == rest.filter(|d: Seq<char>| is_on_named_target(os, d))[i]);
            }
        }
    }
}

/// A build file refers to an object.
pub open spec fn refers_to_object(os: Objects, f: Seq<char>) -> bool {
    match text_field(os, f, "fileRef"@) {
        Some(r) => is_object(os, r),
        None => false,
    }
}

/// The file of a phase shows a build file: its new UUID, and the path, or else the
/// name, of what it refers to.
pub open spec fn shows_build_file(
    os: Objects,
    map: Seq<(Seq<char>, Seq<char>)>,
    f: Seq<char>,
    x: PhaseFile,
) -> bool {
    let r = text_field(os, f, "fileRef"@)->Some_0;
    &&& match lookup(map, f) {
        Some(new) => x.uuid == new,
        None => x.uuid == f,
    }
    &&& match (text_field(os, r, "path"@), text_field(os, r, "name"@)) {
        (Some(path), _) => x.path == path,
        (None, Some(name)) => x.path == name,
        (None, None) => x.path == r,
    }
    &&& x.settings is Some == (field(os, f, "settings"@) is Some && field(os, f, "settings"@)
        != Some(Plist::Dict(Seq::empty())))
}

/// Those of some build files that refer to objects.
pub open spec fn files_among(os: Objects, us: Seq<Seq<char>>) -> Seq<Seq<char>> {
    us.filter(|u: Seq<char>| refers_to_object(os, u))
}

proof fn lemma_files(os: Objects, map: Seq<(Seq<char>, Seq<char>)>, us: Seq<Seq<char>>)
    ensures
        phase_files(os, map, us).len() == files_among(os, us).len(),
        forall|i: int|
            0 <= i < files_among(os, us).len() ==> shows_build_file(
                os,
                map,
                files_among(os, us)[i],
                #[trigger] phase_files(os, map, us)[i],
            ),
    decreases us.len(),
{
    reveal(Seq::filter);
    if us.len() > 0 {
        let rest = us.drop_last();
        let last = us.last();
        lemma_files(os, map, rest);
        let now = phase_files(os, map, us);
        let before = phase_files(os, map, rest);
        assert(files_among(os, us) == if refers_to_object(os, last) {
            files_among(os, rest).push(last)
        } else {
            files_among(os, rest)
        });
        assert forall|i: int| 0 <= i < files_among(os, us).len() implies shows_build_file(
            os,
            map,
            files_among(os, us)[i],
            #[trigger] now[i],
        ) by {
            if i < before.len() {
                assert(now[i] == before[i]);
            } else {
                assert(phase_file(os, map, last) == Some(now[i]));
            }
        }
    }
}

/// The phase of a target shows a build phase: its new UUID, its class, its name,
/// and, in their order, its build files that refer to objects.
pub open spec fn shows_phase(
    os: Objects,
    map: Seq<(Seq<char>, Seq<char>)>,
    u: Seq<char>,
    x: Phase,
) -> bool {
    let fs = files_among(os, list_field(os, u, "files"@));
    &&& match lookup(map, u) {
        Some(new) => x.uuid == new,
        None => x.uuid == u,
    }
    &&& match text_field(os, u, "isa"@) {
        Some(isa) => x.phase_type == isa,
        None => x.phase_type == "PBXBuildPhase"@,
    }
    &&& x.name == text_field(os, u, "name"@)
    &&& x.files.len() == fs.len()
    &&& forall|i: int| 0 <= i < fs.len() ==> shows_build_file(os, map, fs[i], #[trigger] x.files[i])
}

proof fn lemma_phases(os: Objects, map: Seq<(Seq<char>, Seq<char>)>, us: Seq<Seq<char>>)
    ensures
        phases(os, map, us).len() == objects_among(os, us).len(),
        forall|i: int|
            0 <= i < objects_among(os, us).len() ==> shows_phase(
                os,
                map,
                objects_among(os, us)[i],
                #[trigger] phases(os, map, us)[i],
            ),
    decreases us.len(),
{
    reveal(Seq::filter);
    if us.len() > 0 {
        let rest = us.drop_last();
        let last = us.last();
        lemma_phases(os, map, rest);
        assert(rest.push(last) =~= us);
        lemma_filter_push(os, rest, last);
        let now = phases(os, map, us);
        let before = phases(os, map, rest);
        assert forall|i: int| 0 <= i < objects_among(os, us).len() implies shows_phase(
            os,
            map,
            objects_among(os, us)[i],
            #[trigger] now[i],
        ) by {
            if i < before.len() {
                assert(now[i] == before[i]);
            } else {
                assert(phase(os, map, last) == Some(now[i]));
                lemma_files(os, map, list_field(os, last, "files"@));
            }
        }
    }
}

/// The target of a map shows a target: its new UUID, its name, its product, and, in
/// their order, its phases; and the names of its configurations and of the targets
/// that it depends on, as far as they have names.
pub open spec fn shows_target(
    os: Objects,
    map: Seq<(Seq<char>, Seq<char>)>,
    u: Seq<char>,
    x: Target,
) -> bool {
    let ps = objects_among(os, list_field(os, u, "buildPhases"@));
    let ds = list_field(os, u, "dependencies"@);
    &&& match lookup(map, u) {
        Some(new) => x.uuid == new,
        None => x.uuid == u,
    }
    &&& match text_field(os, u, "name"@) {
        Some(name) => x.name == name,
        None => x.name == u,
    }
    &&& match text_field(os, u, "productName"@) {
        Some(name) => x.product_name == name,
        None => x.product_name == x.name,
    }
    &&& x.product_type == text_field(os, u, "productType"@)
    &&& match text_field(os, u, "buildConfigurationList"@) {
        Some(l) => shows_names(os, list_field(os, l, "buildConfigurations"@), x.configurations),
        None => !is_object(os, Seq::empty()) ==> x.configurations.len() == 0,
    }
    &&& x.build_phases.len() == ps.len()
    &&& forall|i: int|
        0 <= i < ps.len() ==> shows_phase(os, map, ps[i], #[trigger] x.build_phases[i])
    &&& shows_dependencies(os, ds, x.dependencies)
}

proof fn lemma_targets(os: Objects, map: Seq<(Seq<char>, Seq<char>)>, us: Seq<Seq<char>>)
    ensures
        targets(os, map, us).len() == objects_among(os, us).len(),
        forall|i: int|
            0 <= i < objects_among(os, us).len() ==> shows_target(
                os,
                map,
                objects_among(os, us)[i],
                #[trigger] targets(os, map, us)[i],
            ),
    decreases us.len(),
{
    reveal(Seq::filter);
    if us.len() > 0 {
        let rest = us.drop_last();
        let last = us.last();
        lemma_targets(os, map, rest);
        assert(rest.push(last) =~= us);
        lemma_filter_push(os, rest, last);
        let now = targets(os, map, us);
        let before = targets(os, map, rest);
        assert forall|i: int| 0 <= i < objects_among(os, us).len() implies shows_target(
            os,
            map,
            objects_among(os, us)[i],
            #[trigger] now[i],
        ) by {
            if i < before.len() {
                assert(now[i] == before[i]);
            } else {
                assert(target(os, map, last) == Some(now[i]));
                lemma_phases(os, map, list_field(os, last, "buildPhases"@));
                if let Some(l) = text_field(os, last, "buildConfigurationList"@) {
                    lemma_names(os, list_field(os, l, "buildConfigurations"@));
                }
                lemma_dependencies(os, list_field(os, last, "dependencies"@));
            }
        }
    }
}

/// A map has, in their order, one target for each target of the project that is an
/// object, which shows it, with its phases and their files; and the names of the
/// configurations of the project.
pub proof fn law_map_shows_targets(
    m: ProjectMap,
    p: Project,
    rows: Rows,
    map: Seq<(Seq<char>, Seq<char>)>,
    name: Seq<char>,
)
    requires
        is_map_of(m, p, rows, map, name),
    ensures
        ({
            let ts = objects_among(
                p.objects,
                list_field(p.objects, p.root_object, "targets"@),
            );
            &&& m.targets@.len() == ts.len()
            &&& forall|i: int|
                0 <= i < ts.len() ==> shows_target(
                    p.objects,
                    map,
                    ts[i],
                    (#[trigger] m.targets@[i])@,
                )
        }),
        m.project.name@ == name,
        match text_field(p.objects, p.root_object, "buildConfigurationList"@) {
            Some(l) => shows_names(
                p.objects,
                list_field(p.objects, l, "buildConfigurations"@),
                texts(m.project.configurations@),
            ),
            None => m.project.configurations@.len() == 0,
        },
{
    let os = p.objects;
    let us = list_field(os, p.root_object, "targets"@);
    let ts = objects_among(os, us);
    lemma_targets(os, map, us);
    let all = views(m.targets@);
    assert(all == targets(os, map, us));
    assert(all.len() == m.targets@.len());
    assert forall|i: int| 0 <= i < ts.len() implies shows_target(
        os,
        map,
        ts[i],
        (#[trigger] m.targets@[i])@,
    ) by {
        assert(all[i] == m.targets@[i]@);
    }
    if let Some(l) = text_field(os, p.root_object, "buildConfigurationList"@) {
        lemma_names(os, list_field(os, l, "buildConfigurations"@));
    } else {
        assert(texts(m.project.configurations@).len() == 0);
    }
}

// ── The table of UUIDs ───────────────────────────────────────────────────────

/// The kind of a typed path stands before its bracket, the path inside it.
pub proof fn law_typed_path_is_parted(kind: Seq<char>, path: Seq<char>)
    requires
        forall|i: int| 0 <= i < kind.len() ==> kind[i] != '[',
    ensures
        typed_kind(kind + "["@ + path + "]"@) == kind,
        typed_rest(kind + "["@ + path + "]"@) == path,
{
    reveal_strlit("[");
    reveal_strlit("]");
    let s = kind + "["@ + path + "]"@;
    crate::mapper::lemma_bracket(s, kind.len() as int);
    assert(s.take(kind.len() as int) =~= kind);
    let rest = s.skip(kind.len() as int + 1);
    assert(rest =~= path + "]"@);
    assert(rest.drop_last() =~= path);
}

proof fn lemma_records(rows: Rows, i: int)
    requires
        0 <= i < rows.len(),
        forall|j: int| 0 <= j < rows.len() && j != i ==> (#[trigger] rows[j]).1.1 != rows[i].1.1,
    ensures
        lookup(records(rows), rows[i].1.1) == Some((typed_kind(rows[i].1.0), rows[i].1.0)),
    decreases rows.len(),
{
    let rest = rows.drop_last();
    let (path, new) = rows.last().1;
    lemma_records_distinct(rest);
    lemma_upsert(records(rest), new, (typed_kind(path), path));
    if i < rest.len() {
        assert(rows[rows.len() - 1].1.1 != rows[i].1.1);
        assert forall|j: int| 0 <= j < rest.len() && j != i implies (#[trigger] rest[j]).1.1
            != rest[i].1.1 by {
            assert(rows[j].1.1 != rows[i].1.1);
        }
        lemma_records(rest, i);
    }
}

proof fn lemma_records_distinct(rows: Rows)
    ensures
        distinct_keys(records(rows)),
    decreases rows.len(),
{
    if rows.len() > 0 {
        lemma_records_distinct(rows.drop_last());
        let (path, new) = rows.last().1;
        lemma_upsert(records(rows.drop_last()), new, (typed_kind(path), path));
    }
}

/// The table of a map has, for every registered object whose new UUID no other
/// has, a record under that UUID, with the path of the object and its kind.
pub proof fn law_table_holds_every_object(
    m: ProjectMap,
    p: Project,
    rows: Rows,
    map: Seq<(Seq<char>, Seq<char>)>,
    name: Seq<char>,
    i: int,
)
    requires
        is_map_of(m, p, rows, map, name),
        0 <= i < rows.len(),
        forall|j: int| 0 <= j < rows.len() && j != i ==> (#[trigger] rows[j]).1.1 != rows[i].1.1,
    ensures
        exists|k: int|
            0 <= k < m.uuid_table@.len() && (#[trigger] m.uuid_table@[k]).0@ == rows[i].1.1
                && m.uuid_table@[k].1@ == (typed_kind(rows[i].1.0), rows[i].1.0),
{
    lemma_records(rows, i);
    let t = table_view(m.uuid_table@);
    let ks = keys(t);
    assert(ks.contains(rows[i].1.1));
    let k = choose|k: int| 0 <= k < ks.len() && ks[k] == rows[i].1.1;
    assert(t[k].0 == ks[k]);
    assert(lookup(records(rows), t[k].0) == Some(t[k].1));
    assert(m.uuid_table@[k].0@ == rows[i].1.1);
}

} // verus!
