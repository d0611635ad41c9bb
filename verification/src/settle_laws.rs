//! The new UUIDs of a project are those of what is left of it.

use crate::closure_laws::{
    closed_group, closed_stage, ease_project_stage, is_clear, lemma_project_closed,
    lemma_project_right, lemma_project_stages, packages_are_listed, project_stage,
    projects_are_known, reach_of, targets_are_known, tree_is_clear,
};
use crate::follow_laws::{
    agrees, drops_apart, fields_agree, files_are_early, has_pair, has_row, is_needed, is_prepared,
    is_quiet, lemma_follow_stage, lists_agree, lists_pair, ok_opt, owned_agree, pairs,
    portal_is_known, refers_to_pair, shares_rows, stage_is_prepared, tracks, trail_is_clear,
    trail_lists_packages, Trail,
};
use crate::line_reading::is_uuid_text;
use crate::link_laws::{
    eases, group_isa, grows, has_single_owners, is_fine, is_placed_by, is_right, lemma_eases_on,
    owns, row_of, targets_of, Kind, Reach,
};
use crate::naming_laws::{
    has_portal, has_target, is_known, is_named, is_proxy_of, law_names_keep_uuids_out_of_paths,
    only_root, with_main_group,
};
use crate::parser::{field, Project};
use crate::project_facts::has_reference;
use crate::renaming_laws::{describes, lists_objects, refers};
use crate::settled_laws::is_settled;
use crate::table::{lemma_slot, lemma_slot_at, lookup};
use crate::thinning_laws::{
    are_twins, is_thinned, left_of, lemma_twin_is_known, names_are_formed, new_name, stays,
    twins_are_alike,
};
use crate::uniquifier::{
    is_new_uuid, is_object, law_digests_are_uuids, list_field, or_text, path_of, referenced,
    registry, text_field, Objects, Registry,
};
use vstd::prelude::*;

verus! {

// ── Deep trees ───────────────────────────────────────────────────────────────

spec fn key_set(os: Objects) -> Set<Seq<char>> {
    Seq::new(os.len(), |i: int| os[i].0).to_set()
}

spec fn path_len(reg: Registry, u: Seq<char>) -> nat {
    or_text(path_of(reg, u), Seq::empty()).len()
}

/// A tree is no deeper than the number of objects.
proof fn lemma_deep(
    c: Reach,
    end: Registry,
    parent: Seq<char>,
    u: Seq<char>,
    fuel: nat,
    above: Set<Seq<char>>,
    more: nat,
)
    requires
        closed_group(c, end, parent, u, fuel),
        above.finite(),
        above.subset_of(key_set(c.os)),
        above.len() + fuel >= c.os.len() + 1,
        forall|a: Seq<char>| #[trigger]
            above.contains(a) ==> path_len(end, a) <= path_len(end, parent),
    ensures
        closed_group(c, end, parent, u, more),
    decreases more,
{
    if more > 0 {
        let keys = Seq::new(c.os.len(), |i: int| c.os[i].0);
        keys.lemma_cardinality_of_set();
        vstd::set_lib::lemma_len_subset(above, key_set(c.os));
        assert(fuel > 0);
        if is_object(c.os, u) {
            lemma_slot(c.os, u);
            let i = crate::table::slot(c.os, u)->Some_0;
            assert(keys[i] == u);
            assert(keys.contains(u));
            assert(key_set(c.os).contains(u));
            assert(is_placed_by(c.os, end, parent, u, Kind::Child));
            let row = row_of(c.os, end, parent, u, Kind::Child);
            assert(path_of(end, u) == Some(row.0));
            assert(path_len(end, u) > path_len(end, parent)) by {
                reveal_strlit("[");
                reveal_strlit("/");
                assert(row.0.len() > path_len(end, parent));
            }
            let more_above = above.insert(u);
            assert(!above.contains(u));
            assert forall|x: Seq<char>| #[trigger]
                list_field(c.os, u, "children"@).contains(x) implies closed_group(
                c,
                end,
                u,
                x,
                (more - 1) as nat,
            ) by {
                lemma_deep(c, end, u, x, (fuel - 1) as nat, more_above, (more - 1) as nat);
            }
        }
    }
}

proof fn lemma_deep_stage(
    c: Reach,
    pre: Registry,
    end: Registry,
    fuel: nat,
    n: int,
    more: nat,
)
    requires
        closed_stage(c, pre, end, fuel, n),
        fuel == c.os.len() + 1,
    ensures
        closed_stage(c, pre, end, more, n),
{
    let none = Set::<Seq<char>>::empty();
    if n == 1 {
        if let Some(g) = text_field(c.os, c.root, "mainGroup"@) {
            lemma_deep(c, end, c.root, g, fuel, none, more);
        }
    } else if n == 3 {
        assert forall|g: Seq<char>, w: Seq<char>| #[trigger]
            has_reference(c.os, c.root, g, w) implies closed_group(c, end, w, g, more) by {
            lemma_deep(c, end, w, g, fuel, none, more);
        }
    }
}

// ── Projects that keep their new UUIDs ───────────────────────────────────────

/// What counts: the objects that are registered.
pub open spec fn registered(reg: Registry) -> spec_fn(Seq<char>) -> bool {
    |u: Seq<char>| is_known(reg, u)
}

/// What an object needs for its path stays if the object does.
pub open spec fn keeps_needs(os: Objects, reg: Registry) -> bool {
    &&& forall|u: Seq<char>, n: Seq<char>|
        stays(reg, u) && is_needed(n) ==> match #[trigger] text_field(os, u, n) {
            Some(x) => stays(reg, x),
            None => true,
        }
    &&& forall|u: Seq<char>|
        stays(reg, u) ==> match #[trigger] referenced(os, u) {
            Some(x) => stays(reg, x),
            None => true,
        }
    &&& forall|u: Seq<char>|
        stays(reg, u) && (#[trigger] field(os, u, "fileRef"@)) is Some ==> text_field(
            os,
            u,
            "fileRef"@,
        ) is Some
}

/// The files that the build files refer to are registered before the targets.
pub open spec fn files_come_first(os: Objects, reg: Registry, pre: Registry) -> bool {
    forall|w: Seq<char>, f: Seq<char>|
        stays(reg, w) && stays(reg, f) && #[trigger] list_field(os, w, "files"@).contains(f)
            ==> referenced(os, f) is Some && is_known(pre, referenced(os, f)->Some_0)
}

/// Objects have UUIDs, and no description is one.
pub open spec fn has_plain_texts(os: Objects, reg: Registry) -> bool {
    &&& forall|u: Seq<char>| #[trigger] is_object(os, u) ==> is_uuid_text(u)
    &&& forall|u: Seq<char>| #[trigger]
        is_known(reg, u) ==> is_uuid_text(u)
    &&& forall|u: Seq<char>| #[trigger] reg.remove.contains(u) ==> is_uuid_text(u)
    &&& forall|u: Seq<char>, n: Seq<char>|
        stays(reg, u) && describes(n) ==> match #[trigger] text_field(os, u, n) {
            Some(t) => !is_uuid_text(t),
            None => true,
        }
}

/// Objects that get one UUID have one path, and their owners get one UUID.
pub open spec fn twins_stand_together(os: Objects, root: Seq<char>, reg: Registry) -> bool {
    &&& forall|a: Seq<char>, b: Seq<char>| #[trigger]
        are_twins(reg, a, b) ==> lookup(reg.rows, a) == lookup(reg.rows, b)
    &&& forall|w: Seq<char>, x: Seq<char>, a: Seq<char>, b: Seq<char>, k: Kind, l: Kind|
        is_known(reg, w) && is_known(reg, x) && are_twins(reg, a, b) && #[trigger] owns(
            os,
            root,
            w,
            a,
            k,
        ) && #[trigger] owns(os, root, x, b, l) ==> new_name(reg, w) == new_name(reg, x) && k == l
}

/// A registered object that is dropped is a build file or a product.
pub open spec fn drops_leaves(os: Objects, root: Seq<char>, reg: Registry) -> bool {
    forall|w: Seq<char>, u: Seq<char>, k: Kind|
        is_known(reg, w) && is_known(reg, u) && reg.remove.contains(u) && #[trigger] owns(
            os,
            root,
            w,
            u,
            k,
        ) ==> k is File || k is Product
}

/// A project that names everything paths need, in which each object is reached
/// once, and of which nothing is dropped that others need.  Objects may have one
/// path, and get one UUID, if they are alike and stand together.
pub open spec fn is_steady(p: Project, name: Seq<char>) -> bool {
    let reg = registry(p, name);
    let c = reach_of(p, name, registered(reg));
    &&& is_named(p, name)
    &&& is_clear(c)
    &&& projects_are_known(c, with_main_group(p, name))
    &&& forall|g: Seq<char>, w: Seq<char>| #[trigger]
        has_reference(p.objects, p.root_object, g, w) ==> stays(reg, w)
    &&& stays(reg, p.root_object)
    &&& has_plain_texts(p.objects, reg)
    &&& twins_are_alike(reg, p)
    &&& twins_stand_together(p.objects, p.root_object, reg)
    &&& drops_leaves(p.objects, p.root_object, reg)
    &&& keeps_needs(p.objects, reg)
    &&& files_come_first(p.objects, reg, project_stage(p, name, 4))
}

/// What stays and is registered, under its new UUID.
pub open spec fn is_new_name(reg: Registry, y: Seq<char>) -> bool {
    exists|x: Seq<char>| stays(reg, x) && y == #[trigger] new_name(reg, x)
}

/// What stays, and its new UUID.
pub open spec fn is_named_by(reg: Registry, y: Seq<char>, x: Seq<char>) -> bool {
    stays(reg, x) && y == new_name(reg, x)
}

/// The trail from what is left to the project.
spec fn forward(p: Project, q: Project, name: Seq<char>) -> Trail {
    let reg = registry(p, name);
    Trail {
        os: q.objects,
        root: q.root_object,
        live: |u: Seq<char>| true,
        to: reach_of(p, name, registered(reg)),
        rel: |y: Seq<char>, x: Seq<char>| is_named_by(reg, y, x),
        ok: |y: Seq<char>| is_new_name(reg, y),
        full: true,
    }
}

/// What may be registered of what is left.
spec fn left_live(reg: Registry) -> spec_fn(Seq<char>) -> bool {
    |y: Seq<char>|
        exists|x: Seq<char>|
            is_known(reg, x) && stays(reg, x) && y == #[trigger] new_name(reg, x)
}

/// The trail from the project to what is left.
spec fn backward(p: Project, q: Project, name: Seq<char>) -> Trail {
    let reg = registry(p, name);
    Trail {
        os: p.objects,
        root: p.root_object,
        live: registered(reg),
        to: reach_of(q, name, left_live(reg)),
        rel: |x: Seq<char>, y: Seq<char>| is_named_by(reg, y, x),
        ok: |x: Seq<char>| stays(reg, x),
        full: false,
    }
}

/// What is needed of a steady project.
pub proof fn lemma_steady(p: Project, name: Seq<char>)
    requires
        is_steady(p, name),
    ensures
        names_are_formed(registry(p, name)),
        registry(p, name) == project_stage(p, name, 6),
        with_main_group(p, name) == project_stage(p, name, 1),
        only_root(p, name) == project_stage(p, name, 0),
        forall|i: int|
            0 <= i <= 6 ==> {
                let c = reach_of(p, name, registered(registry(p, name)));
                &&& is_right(c, #[trigger] project_stage(p, name, i))
                &&& is_fine(c, project_stage(p, name, i))
                &&& grows(project_stage(p, name, i), registry(p, name))
            },
{
    let reg = registry(p, name);
    let live = registered(reg);
    let c = reach_of(p, name, live);
    lemma_project_stages(p, name);
    reveal_with_fuel(project_stage, 2);
    assert(only_root(p, name) == project_stage(p, name, 0));
    assert(with_main_group(p, name) == project_stage(p, name, 1));
    law_names_keep_uuids_out_of_paths(p, name);
    assert(is_fine(c, reg));
    lemma_project_right(p, name, live, 6);
    assert(is_right(c, project_stage(p, name, 6)));
    assert forall|u: Seq<char>| #[trigger] is_known(reg, u) implies is_uuid_text(u) && is_new_uuid(
        lookup(reg.rows, u)->Some_0.1,
    ) by {
        if u == c.root {
            law_digests_are_uuids(name);
        } else {
            let (w, k) = choose|w: Seq<char>, k: Kind|
                owns(c.os, c.root, w, u, k) && #[trigger] is_placed_by(c.os, reg, w, u, k);
            let row = row_of(c.os, reg, w, u, k);
            if k is Remote {
                law_digests_are_uuids(crate::link_laws::remote_path(c.os, reg, w));
            } else {
                law_digests_are_uuids(row.0);
            }
        }
    }
    assert forall|i: int| 0 <= i <= 6 implies {
        &&& is_right(c, #[trigger] project_stage(p, name, i))
        &&& is_fine(c, project_stage(p, name, i))
        &&& grows(project_stage(p, name, i), reg)
    } by {
        assert(is_right(c, project_stage(p, name, i)));
        assert(is_fine(c, project_stage(p, name, i)));
        assert(grows(project_stage(p, name, i), project_stage(p, name, 6)));
    }
}

/// A text of what is left.
proof fn lemma_text_back(p: Project, q: Project, name: Seq<char>, x: Seq<char>, n: Seq<char>)
    requires
        is_steady(p, name),
        is_thinned(registry(p, name), p, q),
        stays(registry(p, name), x),
        describes(n) || refers(n),
    ensures
        text_field(q.objects, new_name(registry(p, name), x), n) == left_of(
            registry(p, name),
            text_field(p.objects, x, n),
        ),
        describes(n) ==> text_field(q.objects, new_name(registry(p, name), x), n) == text_field(
            p.objects,
            x,
            n,
        ),
{
    let reg = registry(p, name);
    let t = text_field(p.objects, x, n);
    assert(text_field(q.objects, new_name(reg, x), n) == left_of(reg, t));
}

proof fn lemma_referenced_back(p: Project, q: Project, name: Seq<char>, x: Seq<char>)
    requires
        is_steady(p, name),
        is_thinned(registry(p, name), p, q),
        stays(registry(p, name), x),
    ensures
        referenced(q.objects, new_name(registry(p, name), x)) == left_of(
            registry(p, name),
            referenced(p.objects, x),
        ),
        referenced(p.objects, x) is Some ==> stays(
            registry(p, name),
            referenced(p.objects, x)->Some_0,
        ),
{
    let reg = registry(p, name);
    assert(field(p.objects, x, "fileRef"@) is Some ==> text_field(p.objects, x, "fileRef"@) is Some);
    assert(referenced(p.objects, x) is Some ==> stays(reg, referenced(p.objects, x)->Some_0));
}

/// A list of what is left holds what the list of the project holds.
proof fn lemma_item_back(
    p: Project,
    q: Project,
    name: Seq<char>,
    w: Seq<char>,
    n: Seq<char>,
    y: Seq<char>,
) -> (u: Seq<char>)
    requires
        is_thinned(registry(p, name), p, q),
        stays(registry(p, name), w),
        lists_objects(n),
        list_field(q.objects, new_name(registry(p, name), w), n).contains(y),
    ensures
        stays(registry(p, name), u),
        list_field(p.objects, w, n).contains(u),
        y == new_name(registry(p, name), u),
        is_object(p.objects, u) == is_object(q.objects, y),
{
    let reg = registry(p, name);
    let u = choose|t: Seq<char>|
        stays(reg, t) && list_field(p.objects, w, n).contains(t) && y == #[trigger] new_name(
            reg,
            t,
        );
    assert(is_object(q.objects, new_name(reg, u)) == is_object(p.objects, u));
    u
}

/// A field of what is left refers to what the field of the project refers to.
proof fn lemma_field_back(
    p: Project,
    q: Project,
    name: Seq<char>,
    w: Seq<char>,
    n: Seq<char>,
) -> (u: Seq<char>)
    requires
        is_thinned(registry(p, name), p, q),
        stays(registry(p, name), w),
        refers(n),
        text_field(q.objects, new_name(registry(p, name), w), n) is Some,
    ensures
        stays(registry(p, name), u),
        text_field(p.objects, w, n) == Some(u),
        text_field(q.objects, new_name(registry(p, name), w), n) == Some(
            new_name(registry(p, name), u),
        ),
        is_object(p.objects, u) == is_object(q.objects, new_name(registry(p, name), u)),
{
    let reg = registry(p, name);
    let t = text_field(p.objects, w, n);
    assert(text_field(q.objects, new_name(reg, w), n) == left_of(reg, t));
    let u = t->Some_0;
    assert(is_object(q.objects, new_name(reg, u)) == is_object(p.objects, u));
    u
}

/// What is owned in what is left is owned in the project, by the owner or by a
/// twin of it.
#[verifier::rlimit(60)]
#[verifier::spinoff_prover]
proof fn lemma_owns_back(
    p: Project,
    q: Project,
    name: Seq<char>,
    w: Seq<char>,
    y: Seq<char>,
    k: Kind,
) -> (r: (Seq<char>, Seq<char>))
    requires
        is_steady(p, name),
        is_thinned(registry(p, name), p, q),
        stays(registry(p, name), w),
        owns(q.objects, q.root_object, new_name(registry(p, name), w), y, k),
    ensures
        are_twins(registry(p, name), r.0, w),
        stays(registry(p, name), r.1),
        y == new_name(registry(p, name), r.1),
        owns(p.objects, p.root_object, r.0, r.1, k),
{
    let reg = registry(p, name);
    let os = p.objects;
    let qs = q.objects;
    let z = new_name(reg, w);
    let root = p.root_object;
    let r = q.root_object;
    if z == r {
        assert(are_twins(reg, w, root));
        assert(w == root);
    }
    assert(lists_objects("children"@) && lists_objects("buildConfigurations"@));
    assert(lists_objects("dependencies"@) && lists_objects("buildPhases"@));
    assert(lists_objects("buildRules"@) && lists_objects("packageReferences"@));
    assert(lists_objects("packageProductDependencies"@) && lists_objects("files"@));
    assert(lists_objects("targets"@));
    assert(are_twins(reg, w, w));
    match k {
        Kind::Child => {
            if list_field(qs, z, "children"@).contains(y) {
                (w, lemma_item_back(p, q, name, w, "children"@, y))
            } else if z == r && text_field(qs, r, "mainGroup"@) == Some(y) {
                (w, lemma_field_back(p, q, name, root, "mainGroup"@))
            } else {
                let (u, v) = choose|u: Seq<char>, v: Seq<char>|
                    stays(reg, u) && stays(reg, v) && has_reference(os, root, u, v) && y
                        == #[trigger] new_name(reg, u) && z == #[trigger] new_name(reg, v);
                assert(is_object(qs, new_name(reg, u)) == is_object(os, u));
                assert(are_twins(reg, v, w));
                (v, u)
            }
        },
        Kind::Settings => (w, lemma_field_back(p, q, name, w, "buildConfigurationList"@)),
        Kind::Setting => (w, lemma_item_back(p, q, name, w, "buildConfigurations"@, y)),
        Kind::Dependency => (w, lemma_item_back(p, q, name, w, "dependencies"@, y)),
        Kind::Phase => (w, lemma_item_back(p, q, name, w, "buildPhases"@, y)),
        Kind::File => {
            let u = lemma_item_back(p, q, name, w, "files"@, y);
            lemma_referenced_back(p, q, name, u);
            (w, u)
        },
        Kind::Rule => (w, lemma_item_back(p, q, name, w, "buildRules"@, y)),
        Kind::Package => (w, lemma_item_back(p, q, name, w, "packageReferences"@, y)),
        Kind::Product => (w, lemma_item_back(p, q, name, w, "packageProductDependencies"@, y)),
        Kind::Target => (w, lemma_item_back(p, q, name, w, "targets"@, y)),
        Kind::Proxy => {
            lemma_text_back(p, q, name, w, "isa"@);
            if text_field(qs, z, "targetProxy"@) == Some(y) {
                (w, lemma_field_back(p, q, name, w, "targetProxy"@))
            } else {
                (w, lemma_field_back(p, q, name, w, "remoteRef"@))
            }
        },
        Kind::Remote => {
            lemma_text_back(p, q, name, w, "containerPortal"@);
            let u = lemma_field_back(p, q, name, w, "remoteGlobalIDString"@);
            assert(list_field(os, root, "targets"@).contains(u) ==> list_field(
                qs,
                r,
                "targets"@,
            ).contains(y));
            (w, u)
        },
    }
}

/// What is left is clear.
#[verifier::rlimit(60)]
#[verifier::spinoff_prover]
proof fn lemma_left_clear(p: Project, q: Project, name: Seq<char>)
    requires
        is_steady(p, name),
        is_thinned(registry(p, name), p, q),
    ensures
        is_clear(reach_of(q, name, left_live(registry(p, name)))),
        trail_is_clear(forward(p, q, name)),
        trail_lists_packages(forward(p, q, name)),
        trail_is_clear(backward(p, q, name)),
        trail_lists_packages(backward(p, q, name)),
{
    let reg = registry(p, name);
    let os = p.objects;
    let qs = q.objects;
    let cp = reach_of(p, name, registered(reg));
    let c = reach_of(q, name, left_live(reg));
    lemma_steady(p, name);
    assert forall|w: Seq<char>, x: Seq<char>, u: Seq<char>, k: Kind, l: Kind|
        (c.live)(w) && (c.live)(x) && #[trigger] owns(c.os, c.root, w, u, k) && #[trigger] owns(
            c.os,
            c.root,
            x,
            u,
            l,
        ) implies w == x && k == l by {
        let w0 = choose|z: Seq<char>|
            is_known(reg, z) && stays(reg, z) && w == #[trigger] new_name(reg, z);
        let x0 = choose|z: Seq<char>|
            is_known(reg, z) && stays(reg, z) && x == #[trigger] new_name(reg, z);
        let (w1, u0) = lemma_owns_back(p, q, name, w0, u, k);
        let (x1, u1) = lemma_owns_back(p, q, name, x0, u, l);
        lemma_twin_is_known(reg, w1, w0);
        lemma_twin_is_known(reg, x1, x0);
        assert(are_twins(reg, u0, u1));
        assert(owns(os, p.root_object, w1, u0, k) && owns(os, p.root_object, x1, u1, l));
        assert(new_name(reg, w1) == new_name(reg, x1));
    }
    assert forall|w: Seq<char>, k: Kind| (c.live)(w) implies !#[trigger] owns(
        c.os,
        c.root,
        w,
        c.root,
        k,
    ) by {
        if owns(c.os, c.root, w, c.root, k) {
            let w0 = choose|z: Seq<char>|
                is_known(reg, z) && stays(reg, z) && w == #[trigger] new_name(reg, z);
            let (w1, u0) = lemma_owns_back(p, q, name, w0, c.root, k);
            lemma_twin_is_known(reg, w1, w0);
            assert(are_twins(reg, u0, p.root_object));
            assert((cp.live)(w1));
            assert(owns(cp.os, cp.root, w1, cp.root, k));
        }
    }
    assert((c.live)(c.root)) by {
        assert(is_right(cp, project_stage(p, name, 6)));
        assert(is_known(reg, p.root_object));
        assert(c.root == new_name(reg, p.root_object));
    }
    assert(has_single_owners(c));
    assert forall|v: Seq<char>| group_isa(qs, v) == "PBXReferenceProxy"@ implies match
        #[trigger] text_field(qs, v, "remoteRef"@) {
        Some(x) => match text_field(qs, x, "remoteGlobalIDString"@) {
            Some(r) => !targets_of(qs, q.root_object).contains(r),
            None => true,
        },
        None => true,
    } by {
        if let Some(x) = text_field(qs, v, "remoteRef"@) {
            if let Some(r) = text_field(qs, x, "remoteGlobalIDString"@) {
                let v0 = lemma_object_back(p, q, name, v, "remoteRef"@);
                lemma_text_back(p, q, name, v0, "remoteRef"@);
                lemma_text_back(p, q, name, v0, "isa"@);
                let x0 = text_field(os, v0, "remoteRef"@)->Some_0;
                lemma_text_back(p, q, name, x0, "remoteGlobalIDString"@);
                let r0 = text_field(os, x0, "remoteGlobalIDString"@)->Some_0;
                assert(group_isa(os, v0) == "PBXReferenceProxy"@);
                assert(text_field(os, v0, "remoteRef"@) is Some);
                assert(!targets_of(os, p.root_object).contains(r0));
                assert(lists_objects("targets"@));
                if list_field(qs, q.root_object, "targets"@).contains(r) {
                    let t = lemma_item_back(p, q, name, p.root_object, "targets"@, r);
                    assert(are_twins(reg, t, r0));
                    assert(targets_of(os, p.root_object).contains(t));
                }
            }
        }
    }
    assert forall|d: Seq<char>| true implies match #[trigger] text_field(qs, d, "package"@) {
        Some(x) => is_object(qs, x) ==> list_field(
            qs,
            q.root_object,
            "packageReferences"@,
        ).contains(x),
        None => true,
    } by {
        if let Some(x) = text_field(qs, d, "package"@) {
            if is_object(qs, x) {
                let d0 = lemma_object_back(p, q, name, d, "package"@);
                lemma_text_back(p, q, name, d0, "package"@);
                let x0 = text_field(os, d0, "package"@)->Some_0;
                assert(is_object(os, x0));
                assert(is_object(os, d0));
                assert(is_known(reg, d0));
                assert((cp.live)(d0));
                assert(text_field(os, d0, "package"@) is Some);
                assert(list_field(os, p.root_object, "packageReferences"@).contains(x0));
                assert(lists_objects("packageReferences"@));
                assert(list_field(qs, q.root_object, "packageReferences"@).contains(x));
            }
        }
    }
    let f = forward(p, q, name);
    assert(trail_is_clear(f));
    assert(trail_lists_packages(f));
    assert(tree_is_clear(c));
    assert(packages_are_listed(c));
    let b = backward(p, q, name);
    assert forall|v: Seq<char>| group_isa(b.os, v) == "PBXReferenceProxy"@ implies match
        #[trigger] text_field(b.os, v, "remoteRef"@) {
        Some(x) => match text_field(b.os, x, "remoteGlobalIDString"@) {
            Some(r) => !targets_of(b.os, b.root).contains(r),
            None => true,
        },
        None => true,
    } by {
    }
    assert forall|d: Seq<char>| (b.live)(d) implies match #[trigger] text_field(
        b.os,
        d,
        "package"@,
    ) {
        Some(x) => is_object(b.os, x) ==> list_field(b.os, b.root, "packageReferences"@).contains(
            x,
        ),
        None => true,
    } by {
        assert((cp.live)(d));
    }
}

/// An object of what is left that has a field.
proof fn lemma_object_back(
    p: Project,
    q: Project,
    name: Seq<char>,
    y: Seq<char>,
    n: Seq<char>,
) -> (x: Seq<char>)
    requires
        is_thinned(registry(p, name), p, q),
        text_field(q.objects, y, n) is Some,
    ensures
        stays(registry(p, name), x),
        is_object(p.objects, x),
        y == new_name(registry(p, name), x),
{
    assert(is_object(q.objects, y));
    choose|x: Seq<char>|
        stays(registry(p, name), x) && is_object(p.objects, x) && y == #[trigger] new_name(
            registry(p, name),
            x,
        )
}

// ── Trails ───────────────────────────────────────────────────────────────────

#[verifier::rlimit(80)]
#[verifier::spinoff_prover]
proof fn lemma_forward_agrees(p: Project, q: Project, name: Seq<char>)
    requires
        is_steady(p, name),
        is_thinned(registry(p, name), p, q),
    ensures
        agrees(forward(p, q, name)),
{
    let reg = registry(p, name);
    let os = p.objects;
    let qs = q.objects;
    let t = forward(p, q, name);
    lemma_steady(p, name);
    assert(is_named_by(reg, q.root_object, p.root_object));
    assert forall|u: Seq<char>, b: Seq<char>| #[trigger] (t.rel)(u, b) implies (t.ok)(u) by {
        assert(stays(reg, b) && u == new_name(reg, b));
    }
    assert forall|u: Seq<char>| #[trigger] (t.ok)(u) implies has_pair(t, u) by {
        reveal(has_pair);
        let b = choose|b: Seq<char>| stays(reg, b) && u == #[trigger] new_name(reg, b);
        assert((t.rel)(u, b));
    }
    assert forall|u: Seq<char>, b: Seq<char>| #[trigger] (t.rel)(u, b) implies #[trigger] is_object(
        t.os,
        u,
    ) == is_object(t.to.os, b) by {
        assert(is_object(qs, new_name(reg, b)) == is_object(os, b));
    }
    assert forall|u: Seq<char>, b: Seq<char>, n: Seq<char>| #[trigger]
        (t.rel)(u, b) && describes(n) implies #[trigger] text_field(t.os, u, n) == text_field(
        t.to.os,
        b,
        n,
    ) by {
        lemma_text_back(p, q, name, b, n);
    }
    assert forall|u: Seq<char>, b: Seq<char>, n: Seq<char>| #[trigger]
        (t.rel)(u, b) && refers(n) && (#[trigger] text_field(t.os, u, n)) is Some && ok_opt(
            t,
            text_field(t.os, u, n),
        ) implies pairs(t, text_field(t.os, u, n), text_field(t.to.os, b, n)) by {
        lemma_text_back(p, q, name, b, n);
    }
    assert forall|u: Seq<char>, b: Seq<char>, n: Seq<char>| #[trigger]
        (t.rel)(u, b) && (t.live)(u) && is_needed(n) implies pairs(
        t,
        #[trigger] text_field(t.os, u, n),
        text_field(t.to.os, b, n),
    ) by {
        assert(refers(n));
        lemma_text_back(p, q, name, b, n);
        if let Some(x) = text_field(os, b, n) {
            assert(stays(reg, x));
        }
    }
    assert forall|u: Seq<char>, b: Seq<char>| #[trigger] (t.rel)(u, b) && (t.live)(u) implies pairs(
        t,
        #[trigger] referenced(t.os, u),
        referenced(t.to.os, b),
    ) by {
        lemma_referenced_back(p, q, name, b);
    }
    assert(fields_agree(t));
    assert forall|u: Seq<char>, b: Seq<char>, n: Seq<char>, x: Seq<char>| #[trigger]
        (t.rel)(u, b) && (t.ok)(x) && lists_objects(n) && #[trigger] list_field(
            t.os,
            u,
            n,
        ).contains(x) implies lists_pair(t, b, n, x) by {
        reveal(lists_pair);
        let y = lemma_item_back(p, q, name, b, n, x);
        assert((t.rel)(x, y));
    }
    assert forall|x: Seq<char>, w: Seq<char>| #[trigger] has_reference(t.os, t.root, x, w) implies (
    t.ok)(x) && (t.ok)(w) && refers_to_pair(t, x, w) by {
        reveal(refers_to_pair);
        let (a, b) = choose|a: Seq<char>, b: Seq<char>|
            stays(reg, a) && stays(reg, b) && has_reference(os, p.root_object, a, b) && x
                == #[trigger] new_name(reg, a) && w == #[trigger] new_name(reg, b);
        assert((t.rel)(x, a) && (t.rel)(w, b));
    }
    assert(lists_objects("targets"@));
    assert forall|u: Seq<char>, b: Seq<char>| #[trigger]
        (t.rel)(u, b) && !#[trigger] targets_of(t.os, t.root).contains(u) implies !targets_of(
        t.to.os,
        t.to.root,
    ).contains(b) by {
        if list_field(os, p.root_object, "targets"@).contains(b) {
            assert(list_field(qs, new_name(reg, p.root_object), "targets"@).contains(
                new_name(reg, b),
            ));
        }
    }
    assert(lists_agree(t));
    assert forall|w: Seq<char>, u: Seq<char>, k: Kind|
        (t.ok)(w) && (t.live)(w) && (t.live)(u) && #[trigger] owns(t.os, t.root, w, u, k) implies (
    t.ok)(u) by {
        let a = choose|a: Seq<char>| stays(reg, a) && w == #[trigger] new_name(reg, a);
        let (v, x) = lemma_owns_back(p, q, name, a, u, k);
        assert((t.rel)(u, x));
    }
    assert forall|w: Seq<char>, n: Seq<char>, u: Seq<char>|
        (t.ok)(w) && lists_objects(n) && #[trigger] list_field(t.os, w, n).contains(u) implies (
    t.ok)(u) by {
        let a = choose|a: Seq<char>| stays(reg, a) && w == #[trigger] new_name(reg, a);
        let x = lemma_item_back(p, q, name, a, n, u);
        assert((t.rel)(u, x));
    }
    assert forall|w: Seq<char>, n: Seq<char>| (t.ok)(w) && refers(n) implies ok_opt(
        t,
        #[trigger] text_field(t.os, w, n),
    ) by {
        let a = choose|a: Seq<char>| stays(reg, a) && w == #[trigger] new_name(reg, a);
        lemma_text_back(p, q, name, a, n);
        if let Some(x) = text_field(os, a, n) {
            if stays(reg, x) {
                assert((t.rel)(new_name(reg, x), x));
            }
        }
    }
    assert(owned_agree(t));
}

#[verifier::rlimit(80)]
#[verifier::spinoff_prover]
proof fn lemma_backward_agrees(p: Project, q: Project, name: Seq<char>)
    requires
        is_steady(p, name),
        is_thinned(registry(p, name), p, q),
    ensures
        agrees(backward(p, q, name)),
{
    let reg = registry(p, name);
    let os = p.objects;
    let qs = q.objects;
    let t = backward(p, q, name);
    lemma_steady(p, name);
    assert forall|u: Seq<char>| #[trigger] (t.ok)(u) implies has_pair(t, u) by {
        reveal(has_pair);
        assert((t.rel)(u, new_name(reg, u)));
    }
    assert forall|u: Seq<char>, b: Seq<char>| #[trigger]
        (t.rel)(u, b) && #[trigger] is_object(t.os, u) implies is_object(t.to.os, b) by {
        assert(is_object(qs, new_name(reg, u)) == is_object(os, u));
    }
    assert forall|u: Seq<char>, b: Seq<char>, n: Seq<char>| #[trigger]
        (t.rel)(u, b) && describes(n) implies #[trigger] text_field(t.os, u, n) == text_field(
        t.to.os,
        b,
        n,
    ) by {
        lemma_text_back(p, q, name, u, n);
    }
    assert forall|u: Seq<char>, b: Seq<char>, n: Seq<char>| #[trigger]
        (t.rel)(u, b) && refers(n) && (#[trigger] text_field(t.os, u, n)) is Some && ok_opt(
            t,
            text_field(t.os, u, n),
        ) implies pairs(t, text_field(t.os, u, n), text_field(t.to.os, b, n)) by {
        lemma_text_back(p, q, name, u, n);
    }
    assert forall|u: Seq<char>, b: Seq<char>, n: Seq<char>| #[trigger]
        (t.rel)(u, b) && (t.live)(u) && is_needed(n) implies pairs(
        t,
        #[trigger] text_field(t.os, u, n),
        text_field(t.to.os, b, n),
    ) by {
        assert(refers(n));
        lemma_text_back(p, q, name, u, n);
        assert(stays(reg, u));
        if let Some(x) = text_field(os, u, n) {
            assert(stays(reg, x));
        }
    }
    assert forall|u: Seq<char>, b: Seq<char>| #[trigger] (t.rel)(u, b) && (t.live)(u) implies pairs(
        t,
        #[trigger] referenced(t.os, u),
        referenced(t.to.os, b),
    ) by {
        lemma_referenced_back(p, q, name, u);
    }
    assert(fields_agree(t));
    assert forall|u: Seq<char>, b: Seq<char>, n: Seq<char>, x: Seq<char>| #[trigger]
        (t.rel)(u, b) && (t.ok)(x) && lists_objects(n) && #[trigger] list_field(
            t.os,
            u,
            n,
        ).contains(x) implies lists_pair(t, b, n, x) by {
        reveal(lists_pair);
        assert(list_field(os, u, n).contains(x));
        assert((t.rel)(x, new_name(reg, x)));
    }
    assert forall|x: Seq<char>, w: Seq<char>|
        (t.ok)(x) && (t.ok)(w) && #[trigger] has_reference(
            t.os,
            t.root,
            x,
            w,
        ) implies refers_to_pair(t, x, w) by {
        reveal(refers_to_pair);
        assert(has_reference(os, p.root_object, x, w));
        assert((t.rel)(x, new_name(reg, x)) && (t.rel)(w, new_name(reg, w)));
    }
    assert(lists_objects("targets"@));
    assert forall|u: Seq<char>, b: Seq<char>| #[trigger]
        (t.rel)(u, b) && !#[trigger] targets_of(t.os, t.root).contains(u) implies !targets_of(
        t.to.os,
        t.to.root,
    ).contains(b) by {
        if list_field(qs, q.root_object, "targets"@).contains(b) {
            let v = lemma_item_back(p, q, name, p.root_object, "targets"@, b);
            assert(are_twins(reg, v, u));
            assert(targets_of(os, p.root_object).contains(v));
        }
    }
    assert(lists_agree(t));
    assert forall|w: Seq<char>, u: Seq<char>, k: Kind|
        (t.ok)(w) && (t.live)(w) && (t.live)(u) && #[trigger] owns(t.os, t.root, w, u, k) implies (
    t.ok)(u) || (!t.full && (k is File || k is Product)) by {
        assert(is_known(reg, w) && is_known(reg, u));
        if reg.remove.contains(u) {
            assert(owns(os, p.root_object, w, u, k));
        }
    }
    assert(owned_agree(t));
}

// ── Stages ───────────────────────────────────────────────────────────────────

proof fn lemma_eases_stages(p: Project, name: Seq<char>, m: int, n: int)
    requires
        0 <= m <= n <= 6,
    ensures
        eases(project_stage(p, name, m), project_stage(p, name, n)),
    decreases n - m,
{
    if m < n {
        lemma_eases_stages(p, name, m, n - 1);
        ease_project_stage(p, name, n);
        lemma_eases_on(
            project_stage(p, name, m),
            project_stage(p, name, n - 1),
            project_stage(p, name, n),
        );
    }
}

proof fn lemma_tracks_grown(t: Trail, a: Registry, b: Registry, reg: Registry)
    requires
        tracks(t, a, reg),
        grows(a, b),
        shares_rows(t, b),
    ensures
        tracks(t, b, reg),
{
    assert forall|u: Seq<char>| #[trigger] is_known(reg, u) && (t.ok)(u) implies has_row(
        t,
        b,
        u,
        lookup(reg.rows, u),
    ) by {
        reveal(has_row);
        let c = choose|c: Seq<char>| #[trigger]
            (t.rel)(u, c) && lookup(a.rows, c) == lookup(reg.rows, u);
        assert(is_known(a, c));
    }
}

/// Objects with one new UUID have one row at every stage.
proof fn lemma_shares(p: Project, q: Project, name: Seq<char>, n: int)
    requires
        is_steady(p, name),
        0 <= n <= 6,
    ensures
        shares_rows(forward(p, q, name), project_stage(p, name, n)),
        shares_rows(backward(p, q, name), project_stage(q, name, n)),
{
    let reg = registry(p, name);
    let t = forward(p, q, name);
    let end = project_stage(p, name, n);
    lemma_steady(p, name);
    assert(grows(end, reg));
    assert forall|u: Seq<char>, b: Seq<char>, c: Seq<char>| #[trigger]
        (t.rel)(u, b) && #[trigger] (t.rel)(u, c) && is_known(end, b) && is_known(
            end,
            c,
        ) implies lookup(end.rows, b) == lookup(end.rows, c) by {
        assert(are_twins(reg, b, c));
        assert(lookup(reg.rows, b) == lookup(end.rows, b));
        assert(lookup(reg.rows, c) == lookup(end.rows, c));
    }
}

/// What holds behind a stage.
spec fn stage_holds(p: Project, q: Project, name: Seq<char>, n: int) -> bool {
    let a = project_stage(p, name, n);
    let b = project_stage(q, name, n);
    &&& tracks(forward(p, q, name), a, b)
    &&& tracks(backward(p, q, name), b, a)
    &&& b.exposed.len() == 0
    &&& b.remove.len() == 0
}

proof fn lemma_start(p: Project, q: Project, name: Seq<char>)
    requires
        is_steady(p, name),
        is_thinned(registry(p, name), p, q),
    ensures
        stage_holds(p, q, name, 0),
{
    let reg = registry(p, name);
    let a = project_stage(p, name, 0);
    let b = project_stage(q, name, 0);
    let f = forward(p, q, name);
    let t = backward(p, q, name);
    lemma_steady(p, name);
    lemma_shares(p, q, name, 0);
    lemma_slot(a.rows, p.root_object);
    lemma_slot(b.rows, q.root_object);
    assert(a.rows[0].0 == p.root_object);
    assert(b.rows[0].0 == q.root_object);
    assert forall|u: Seq<char>| #[trigger] is_known(a, u) implies u == p.root_object by {
        lemma_slot(a.rows, u);
    }
    assert forall|u: Seq<char>| #[trigger] is_known(b, u) implies u == q.root_object by {
        lemma_slot(b.rows, u);
    }
    assert(is_known(reg, p.root_object)) by {
        assert(is_right(reach_of(p, name, registered(reg)), project_stage(p, name, 6)));
    }
    assert(lookup(a.rows, p.root_object) == lookup(b.rows, q.root_object));
    assert((f.rel)(q.root_object, p.root_object));
    assert((t.rel)(p.root_object, q.root_object));
    assert(is_new_name(reg, q.root_object)) by {
        assert(stays(reg, p.root_object));
    }
    assert forall|u: Seq<char>| #[trigger] is_known(b, u) && (f.ok)(u) implies has_row(
        f,
        a,
        u,
        lookup(b.rows, u),
    ) by {
        reveal(has_row);
    }
    assert forall|u: Seq<char>| #[trigger] is_known(a, u) && (t.ok)(u) implies has_row(
        t,
        b,
        u,
        lookup(a.rows, u),
    ) by {
        reveal(has_row);
    }
}

/// What is registered in the project and stays is registered in what is left.
proof fn lemma_known_left(p: Project, q: Project, name: Seq<char>, n: int, x: Seq<char>)
    requires
        stage_holds(p, q, name, n),
        is_known(project_stage(p, name, n), x),
        stays(registry(p, name), x),
    ensures
        is_known(project_stage(q, name, n), new_name(registry(p, name), x)),
{
    let t = backward(p, q, name);
    let row = lookup(project_stage(p, name, n).rows, x);
    assert((t.ok)(x));
    assert(has_row(t, project_stage(q, name, n), x, row));
    reveal(has_row);
    let b = choose|b: Seq<char>| #[trigger]
        (t.rel)(x, b) && lookup(project_stage(q, name, n).rows, b) == row;
    assert(b == new_name(registry(p, name), x));
}

#[verifier::rlimit(80)]
#[verifier::spinoff_prover]
proof fn lemma_forward_prepared(p: Project, q: Project, name: Seq<char>, n: int)
    requires
        is_steady(p, name),
        is_thinned(registry(p, name), p, q),
        1 <= n <= 6,
        n == 3 ==> stage_holds(p, q, name, 1),
        n == 6 ==> stage_holds(p, q, name, 1) && stage_holds(p, q, name, 4),
        n == 6 ==> targets_are_known(
            reach_of(q, name, left_live(registry(p, name))),
            project_stage(q, name, 5),
        ),
    ensures
        stage_is_prepared(forward(p, q, name), q, name, project_stage(p, name, n), n),
{
    let reg = registry(p, name);
    let os = p.objects;
    let qs = q.objects;
    let t = forward(p, q, name);
    let end = project_stage(p, name, n);
    lemma_steady(p, name);
    if n == 1 || n == 3 {
        let first = project_stage(
            q,
            name,
            if n == 1 {
                0
            } else {
                1
            },
        );
        assert forall|v: Seq<char>, v0: Seq<char>|
            group_isa(t.os, v) == "PBXReferenceProxy"@ && #[trigger] (t.rel)(v, v0) && is_object(
                t.os,
                v,
            ) && is_known(end, v0) implies match #[trigger] text_field(
            t.os,
            v,
            "remoteRef"@,
        ) {
            Some(x) => portal_is_known(t, first, x),
            None => true,
        } by {
            if let Some(x) = text_field(qs, v, "remoteRef"@) {
                if let Some(portal) = text_field(qs, x, "containerPortal"@) {
                    lemma_text_back(p, q, name, v0, "remoteRef"@);
                    lemma_text_back(p, q, name, v0, "isa"@);
                    let x0 = text_field(os, v0, "remoteRef"@)->Some_0;
                    lemma_text_back(p, q, name, x0, "containerPortal"@);
                    let y0 = text_field(os, x0, "containerPortal"@)->Some_0;
                    assert(is_object(qs, new_name(reg, v0)) == is_object(os, v0));
                    assert(is_proxy_of(os, v0, x0));
                    if n == 1 {
                        assert(is_known(with_main_group(p, name), v0));
                        assert(has_portal(os, only_root(p, name), x0));
                        assert(is_known(only_root(p, name), y0));
                        lemma_slot(only_root(p, name).rows, y0);
                        assert(y0 == p.root_object);
                        lemma_slot(first.rows, q.root_object);
                        assert(first.rows[0].0 == q.root_object);
                    } else {
                        assert(has_portal(os, with_main_group(p, name), x0));
                        lemma_known_left(p, q, name, 1, y0);
                    }
                }
            }
        }
    }
    if n == 3 {
        assert forall|g: Seq<char>, w: Seq<char>| #[trigger]
            has_reference(t.os, t.root, g, w) implies is_known(project_stage(q, name, 1), w) && (
        t.ok)(w) by {
            let (a, b) = choose|a: Seq<char>, b: Seq<char>|
                stays(reg, a) && stays(reg, b) && has_reference(os, p.root_object, a, b) && g
                    == #[trigger] new_name(reg, a) && w == #[trigger] new_name(reg, b);
            assert((t.rel)(w, b));
            assert(is_known(with_main_group(p, name), b));
            lemma_known_left(p, q, name, 1, b);
        }
    }
    if n == 6 {
        let first = project_stage(q, name, 5);
        lemma_eases_stages(q, name, 1, 5);
        lemma_eases_stages(q, name, 4, 5);
        assert(lists_objects("targets"@) && lists_objects("dependencies"@) && lists_objects(
            "files"@,
        ));
        let cq = reach_of(q, name, left_live(reg));
        assert(targets_are_known(cq, first));
        assert forall|x: Seq<char>| #[trigger]
            targets_of(t.os, t.root).contains(x) implies is_known(first, x) by {
            assert(targets_of(cq.os, cq.root).contains(x));
        }
        assert forall|w: Seq<char>, d: Seq<char>|
            targets_of(t.os, t.root).contains(w) && is_object(t.os, d) && (t.ok)(d)
                && #[trigger] list_field(t.os, w, "dependencies"@).contains(d) implies {
            &&& match text_field(t.os, d, "targetProxy"@) {
                Some(x) => portal_is_known(t, first, x),
                None => true,
            }
            &&& match text_field(t.os, d, "target"@) {
                Some(x) => is_known(first, x),
                None => true,
            }
        } by {
            let w0 = lemma_item_back(p, q, name, p.root_object, "targets"@, w);
            let d0 = lemma_item_back(p, q, name, w0, "dependencies"@, d);
            let targets = list_field(os, p.root_object, "targets"@);
            assert(targets.contains(w0));
            assert(has_target(os, targets, with_main_group(p, name), d0));
            lemma_text_back(p, q, name, d0, "targetProxy"@);
            lemma_text_back(p, q, name, d0, "target"@);
            if let Some(x) = text_field(qs, d, "targetProxy"@) {
                if let Some(portal) = text_field(qs, x, "containerPortal"@) {
                    let x0 = text_field(os, d0, "targetProxy"@)->Some_0;
                    lemma_text_back(p, q, name, x0, "containerPortal"@);
                    let y0 = text_field(os, x0, "containerPortal"@)->Some_0;
                    assert(has_portal(os, with_main_group(p, name), x0));
                    lemma_known_left(p, q, name, 1, y0);
                    assert(is_known(project_stage(q, name, 1), portal));
                }
            }
            if let Some(x) = text_field(qs, d, "target"@) {
                let x0 = text_field(os, d0, "target"@)->Some_0;
                assert(targets.contains(x0));
                assert(list_field(os, p.root_object, "targets"@).contains(x0));
                assert(targets_of(qs, q.root_object).contains(x));
            }
        }
        assert forall|w: Seq<char>, f: Seq<char>|
            (t.ok)(w) && (t.ok)(f) && #[trigger] list_field(t.os, w, "files"@).contains(
                f,
            ) implies referenced(t.os, f) is Some && is_known(
            first,
            referenced(t.os, f)->Some_0,
        ) by {
            let w0 = choose|a: Seq<char>| stays(reg, a) && w == #[trigger] new_name(reg, a);
            let f0 = lemma_item_back(p, q, name, w0, "files"@, f);
            lemma_referenced_back(p, q, name, f0);
            let r0 = referenced(os, f0)->Some_0;
            lemma_known_left(p, q, name, 4, r0);
            assert(is_known(project_stage(q, name, 4), new_name(reg, r0)));
        }
    }
}

#[verifier::rlimit(80)]
#[verifier::spinoff_prover]
proof fn lemma_forward_stage(p: Project, q: Project, name: Seq<char>, n: int)
    requires
        is_steady(p, name),
        is_thinned(registry(p, name), p, q),
        1 <= n <= 6,
        stage_holds(p, q, name, n - 1),
        stage_is_prepared(forward(p, q, name), q, name, project_stage(p, name, n), n),
    ensures
        tracks(forward(p, q, name), project_stage(p, name, n), project_stage(q, name, n)),
        project_stage(q, name, n).exposed.len() == 0,
        project_stage(q, name, n).remove.len() == 0,
        is_fine(reach_of(q, name, left_live(registry(p, name))), project_stage(q, name, n)),
{
    let reg = registry(p, name);
    let live = registered(reg);
    let c = reach_of(p, name, live);
    let t = forward(p, q, name);
    let end = project_stage(p, name, n);
    let pre = project_stage(p, name, 4);
    let more = p.objects.len() + q.objects.len() + 2;
    lemma_steady(p, name);
    lemma_left_clear(p, q, name);
    lemma_forward_agrees(p, q, name);
    assert(is_fine(c, end));
    lemma_project_right(p, name, live, n);
    assert(grows(project_stage(p, name, n - 1), end));
    lemma_project_closed(p, name, live, n, n);
    lemma_deep_stage(c, pre, end, p.objects.len() + 1, n, more);
    if n == 6 {
        lemma_project_closed(p, name, live, 4, 6);
        lemma_deep_stage(c, pre, end, p.objects.len() + 1, 4, more);
    }
    lemma_shares(p, q, name, n);
    lemma_tracks_grown(t, project_stage(p, name, n - 1), end, project_stage(q, name, n - 1));
    assert(drops_apart(t, end)) by {
        assert forall|u: Seq<char>, x: Seq<char>| #[trigger]
            (t.rel)(u, x) implies !end.remove.contains(x) by {
            if end.remove.contains(x) {
                assert(grows(end, reg));
                assert(reg.remove.contains(x));
                assert(stays(reg, x));
            }
        }
    }
    lemma_eases_stages(q, name, 0, n - 1);
    if n > 1 {
        lemma_eases_stages(q, name, 1, n - 1);
    }
    lemma_follow_stage(t, q, name, pre, end, n, more);
    let out = project_stage(q, name, n);
    assert(out.remove == project_stage(q, name, n - 1).remove);
    let cq = reach_of(q, name, left_live(reg));
    assert forall|y: Seq<char>| #[trigger] is_known(out, y) implies (cq.live)(y) by {
        assert((t.ok)(y));
        assert(has_row(t, end, y, lookup(out.rows, y)));
        reveal(has_row);
        let x = choose|x: Seq<char>| #[trigger]
            (t.rel)(y, x) && lookup(end.rows, x) == lookup(out.rows, y);
        assert(is_known(end, x));
        assert(lookup(reg.rows, x) == lookup(end.rows, x));
        assert(is_known(reg, x) && stays(reg, x) && y == new_name(reg, x));
    }
}

#[verifier::rlimit(80)]
#[verifier::spinoff_prover]
proof fn lemma_backward_stage(p: Project, q: Project, name: Seq<char>, n: int)
    requires
        is_steady(p, name),
        is_thinned(registry(p, name), p, q),
        1 <= n <= 6,
        stage_holds(p, q, name, n - 1),
        n >= 3 ==> stage_holds(p, q, name, 1),
        n == 6 ==> stage_holds(p, q, name, 4),
        is_fine(reach_of(q, name, left_live(registry(p, name))), project_stage(q, name, n)),
    ensures
        tracks(backward(p, q, name), project_stage(q, name, n), project_stage(p, name, n)),
        n == 5 ==> targets_are_known(
            reach_of(q, name, left_live(registry(p, name))),
            project_stage(q, name, 5),
        ),
{
    let reg = registry(p, name);
    let live = left_live(reg);
    let c = reach_of(q, name, live);
    let t = backward(p, q, name);
    let end = project_stage(q, name, n);
    let pre = project_stage(q, name, 4);
    let os = p.objects;
    let more = p.objects.len() + q.objects.len() + 2;
    let cp = reach_of(p, name, registered(reg));
    lemma_steady(p, name);
    lemma_left_clear(p, q, name);
    lemma_backward_agrees(p, q, name);
    if n >= 3 {
        assert forall|g: Seq<char>, w: Seq<char>| #[trigger]
            has_reference(c.os, c.root, g, w) implies is_known(project_stage(q, name, 1), w) by {
            let (a, b) = choose|a: Seq<char>, b: Seq<char>|
                stays(reg, a) && stays(reg, b) && has_reference(os, p.root_object, a, b) && g
                    == #[trigger] new_name(reg, a) && w == #[trigger] new_name(reg, b);
            assert(is_known(with_main_group(p, name), b));
            lemma_known_left(p, q, name, 1, b);
        }
        assert(projects_are_known(c, project_stage(q, name, 1)));
    }
    lemma_project_right(q, name, live, n);
    assert(grows(project_stage(q, name, n - 1), end));
    lemma_project_closed(q, name, live, n, n);
    lemma_deep_stage(c, pre, end, q.objects.len() + 1, n, more);
    if n == 6 {
        lemma_project_closed(q, name, live, 4, 6);
        lemma_deep_stage(c, pre, end, q.objects.len() + 1, 4, more);
        assert(files_are_early(t, pre)) by {
            assert forall|w: Seq<char>, f: Seq<char>, b: Seq<char>|
                (t.ok)(w) && #[trigger] (t.rel)(f, b) && #[trigger] list_field(
                    t.os,
                    w,
                    "files"@,
                ).contains(f) implies match referenced(t.to.os, b) {
                Some(r) => is_known(pre, r),
                None => true,
            } by {
                lemma_referenced_back(p, q, name, f);
                let r0 = referenced(os, f)->Some_0;
                lemma_known_left(p, q, name, 4, r0);
            }
        }
    }
    lemma_shares(p, q, name, n);
    lemma_tracks_grown(t, project_stage(q, name, n - 1), end, project_stage(p, name, n - 1));
    lemma_eases_stages(p, name, 0, n - 1);
    if n > 1 {
        lemma_eases_stages(p, name, 1, n - 1);
    }
    assert(is_fine(cp, project_stage(p, name, n)));
    assert(is_quiet(t, project_stage(p, name, n))) by {
        assert forall|u: Seq<char>| #[trigger] is_known(project_stage(p, name, n), u) implies (
        t.live)(u) by {
            assert((cp.live)(u));
        }
    }
    if n == 6 {
        assert(is_fine(cp, project_stage(p, name, 5)));
        lemma_project_right(p, name, registered(reg), 5);
        assert(targets_are_known(cp, project_stage(p, name, 5)));
        assert(is_prepared(t, project_stage(p, name, 5)));
    }
    if n == 3 {
        assert forall|g: Seq<char>, w: Seq<char>| #[trigger]
            has_reference(t.os, t.root, g, w) implies is_known(project_stage(p, name, 1), w) && (
        t.ok)(w) by {
            assert(has_reference(os, p.root_object, g, w));
        }
    }
    assert(stage_is_prepared(t, p, name, end, n));
    lemma_follow_stage(t, p, name, pre, end, n, more);
}

proof fn lemma_stages(p: Project, q: Project, name: Seq<char>, n: int)
    requires
        is_steady(p, name),
        is_thinned(registry(p, name), p, q),
        0 <= n <= 6,
    ensures
        stage_holds(p, q, name, n),
        n == 5 ==> targets_are_known(
            reach_of(q, name, left_live(registry(p, name))),
            project_stage(q, name, 5),
        ),
    decreases n,
{
    if n == 0 {
        lemma_start(p, q, name);
    } else {
        lemma_stages(p, q, name, n - 1);
        if n >= 3 {
            lemma_stages(p, q, name, 1);
        }
        if n == 6 {
            lemma_stages(p, q, name, 4);
        }
        lemma_forward_prepared(p, q, name, n);
        lemma_forward_stage(p, q, name, n);
        lemma_backward_stage(p, q, name, n);
    }
}

/// What is left of a steady project has settled UUIDs: its objects have the UUIDs
/// that their paths ask for, nothing of it is dropped, and everything that stays
/// is registered under its new UUID.
pub proof fn law_left_project_is_settled(p: Project, q: Project, name: Seq<char>)
    requires
        is_steady(p, name),
        is_thinned(registry(p, name), p, q),
    ensures
        is_settled(registry(q, name).rows),
        registry(q, name).remove.len() == 0,
        forall|x: Seq<char>|
            is_known(registry(p, name), x) && stays(registry(p, name), x) ==> is_known(
                registry(q, name),
                #[trigger] new_name(registry(p, name), x),
            ),
        forall|i: int|
            0 <= i < registry(q, name).rows.len() ==> is_new_uuid(
                (#[trigger] registry(q, name).rows[i]).0,
            ),
{
    let reg = registry(p, name);
    let end = registry(q, name);
    lemma_steady(p, name);
    lemma_stages(p, q, name, 6);
    lemma_project_stages(q, name);
    let t = forward(p, q, name);
    assert forall|i: int| 0 <= i < end.rows.len() implies (#[trigger] end.rows[i]).0
        == end.rows[i].1.1 && is_new_uuid(end.rows[i].0) by {
        let y = end.rows[i].0;
        lemma_slot_at(end.rows, i);
        assert(is_known(end, y));
        assert((t.ok)(y));
        assert(has_row(t, reg, y, lookup(end.rows, y)));
        reveal(has_row);
        let x = choose|x: Seq<char>| #[trigger]
            (t.rel)(y, x) && lookup(reg.rows, x) == lookup(end.rows, y);
        assert(is_known(reg, x));
    }
    assert forall|x: Seq<char>| is_known(reg, x) && stays(reg, x) implies is_known(
        end,
        #[trigger] new_name(reg, x),
    ) by {
        lemma_known_left(p, q, name, 6, x);
    }
}

} // verus!
