//! New UUIDs do not depend on the old ones.
//!
//! Two projects that differ only in the UUIDs of their objects get the same
//! paths and the same new UUIDs, object by object, as long as no UUID stands in
//! a path for want of a name.

use crate::parser::{field, str_of, Plist, Project};
use crate::table::{lookup, slot, upsert};
use crate::uniquifier::{
    drop_uuid, expose, is_object, list_field, md5_hex, or_else, or_text, path_of, phase_component,
    referenced, register, registry, text_field, typed_path, visit_all, visit_build_file,
    visit_children, visit_configuration, visit_configuration_list, visit_dependency, visit_group,
    visit_package, visit_phase, visit_product, visit_proxy, visit_references, visit_rule,
    visit_target, visit_target_early, Objects, Registry, Rows,
};
use vstd::prelude::*;

verus! {

/// A change of UUIDs: each gets another one, and no two the same.
pub type Renaming = spec_fn(Seq<char>) -> Seq<char>;

pub open spec fn is_injective(f: Renaming) -> bool {
    forall|a: Seq<char>, b: Seq<char>| #[trigger] f(a) == #[trigger] f(b) ==> a == b
}

pub open spec fn map_opt(f: Renaming, u: Option<Seq<char>>) -> Option<Seq<char>> {
    match u {
        Some(x) => Some(f(x)),
        None => None,
    }
}

pub open spec fn map_all(f: Renaming, us: Seq<Seq<char>>) -> Seq<Seq<char>> {
    Seq::new(us.len(), |i: int| f(us[i]))
}

/// A field that describes an object.
pub open spec fn describes(name: Seq<char>) -> bool {
    name == "isa"@ || name == "name"@ || name == "path"@ || name == "productName"@ || name
        == "defaultConfigurationName"@ || name == "remoteInfo"@ || name == "shellScript"@ || name
        == "dstSubfolderSpec"@ || name == "dstPath"@ || name == "fileType"@ || name
        == "filePatterns"@ || name == "repositoryURL"@
}

/// A field that refers to another object.
pub open spec fn refers(name: Seq<char>) -> bool {
    name == "mainGroup"@ || name == "buildConfigurationList"@ || name == "remoteRef"@ || name
        == "target"@ || name == "targetProxy"@ || name == "remoteGlobalIDString"@ || name
        == "containerPortal"@ || name == "package"@
}

/// A field that refers to several objects.
pub open spec fn lists_objects(name: Seq<char>) -> bool {
    name == "children"@ || name == "buildConfigurations"@ || name == "files"@ || name
        == "dependencies"@ || name == "buildPhases"@ || name == "buildRules"@ || name
        == "packageProductDependencies"@ || name == "packageReferences"@ || name == "targets"@
}

/// The group of products and the project that an item of the project references
/// names.
pub open spec fn reference_of(item: Plist) -> Option<(Seq<char>, Seq<char>)> {
    match item {
        Plist::Dict(es) => match (
            str_of(lookup(es, "ProductGroup"@)),
            str_of(lookup(es, "ProjectRef"@)),
        ) {
            (Some(group), Some(project)) => Some((group, project)),
            _ => None,
        },
        _ => None,
    }
}

/// The items of the project references, none if there are no such.
pub open spec fn references(os: Objects, root: Seq<char>) -> Seq<Plist> {
    match field(os, root, "projectReferences"@) {
        Some(Plist::Array(items)) => items,
        _ => Seq::empty(),
    }
}

pub open spec fn same_references(f: Renaming, a: Seq<Plist>, b: Seq<Plist>) -> bool {
    &&& a.len() == b.len()
    &&& forall|i: int|
        0 <= i < a.len() ==> reference_of(#[trigger] b[i]) == match reference_of(a[i]) {
            Some((group, project)) => Some((f(group), f(project))),
            None => None,
        }
}

/// The objects `qs` are the objects `os` with other UUIDs.
pub open spec fn same_objects(f: Renaming, os: Objects, qs: Objects) -> bool {
    &&& forall|u: Seq<char>| #[trigger] is_object(qs, f(u)) == is_object(os, u)
    &&& forall|u: Seq<char>, name: Seq<char>|
        describes(name) ==> #[trigger] text_field(qs, f(u), name) == text_field(os, u, name)
    &&& forall|u: Seq<char>, name: Seq<char>|
        refers(name) ==> #[trigger] text_field(qs, f(u), name) == map_opt(
            f,
            text_field(os, u, name),
        )
    &&& forall|u: Seq<char>, name: Seq<char>|
        lists_objects(name) ==> #[trigger] list_field(qs, f(u), name) == map_all(
            f,
            list_field(os, u, name),
        )
    &&& forall|u: Seq<char>| #[trigger] referenced(qs, f(u)) == map_opt(f, referenced(os, u))
}

/// The project `q` is the project `p` with other UUIDs.
pub open spec fn is_renamed(f: Renaming, p: Project, q: Project) -> bool {
    &&& is_injective(f)
    &&& q.root_object == f(p.root_object)
    &&& q.objects.len() == p.objects.len()
    &&& same_objects(f, p.objects, q.objects)
    &&& same_references(
        f,
        references(p.objects, p.root_object),
        references(q.objects, q.root_object),
    )
}

/// No UUID that stands in a path is changed.
pub open spec fn is_fixed(f: Renaming, exposed: Seq<Seq<char>>) -> bool {
    forall|i: int| 0 <= i < exposed.len() ==> f(#[trigger] exposed[i]) == exposed[i]
}

/// The registries hold the same objects, under their old and their changed
/// UUIDs; with the same paths and new UUIDs, as long as no changed UUID stands
/// in a path.
pub open spec fn alike(f: Renaming, reg: Registry, other: Registry) -> bool {
    &&& other.rows.len() == reg.rows.len()
    &&& forall|i: int| 0 <= i < reg.rows.len() ==> (#[trigger] other.rows[i]).0 == f(reg.rows[i].0)
    &&& is_fixed(f, reg.exposed) ==> forall|i: int|
        0 <= i < reg.rows.len() ==> (#[trigger] other.rows[i]).1 == reg.rows[i].1
    &&& other.remove == map_all(f, reg.remove)
    &&& other.exposed == map_all(f, reg.exposed)
}

// ── Steps ────────────────────────────────────────────────────────────────────

proof fn lemma_slot_alike(f: Renaming, a: Rows, b: Rows, u: Seq<char>)
    requires
        is_injective(f),
        a.len() == b.len(),
        forall|i: int| 0 <= i < a.len() ==> (#[trigger] b[i]).0 == f(a[i].0),
    ensures
        slot(b, f(u)) == slot(a, u),
    decreases a.len(),
{
    if a.len() > 0 {
        assert(b[b.len() - 1].0 == f(a[a.len() - 1].0));
        if a.last().0 != u {
            assert forall|i: int| 0 <= i < a.drop_last().len() implies (#[trigger] b.drop_last()[i]).0
                == f(a.drop_last()[i].0) by {
                assert(b[i].0 == f(a[i].0));
            }
            lemma_slot_alike(f, a.drop_last(), b.drop_last(), u);
        }
    }
}

proof fn lemma_path_alike(f: Renaming, reg: Registry, other: Registry, u: Seq<char>)
    requires
        is_injective(f),
        alike(f, reg, other),
    ensures
        lookup(other.rows, f(u)) is Some == lookup(reg.rows, u) is Some,
        path_of(other, f(u)) is Some == path_of(reg, u) is Some,
        is_fixed(f, reg.exposed) ==> lookup(other.rows, f(u)) == lookup(reg.rows, u),
        is_fixed(f, reg.exposed) ==> path_of(other, f(u)) == path_of(reg, u),
{
    lemma_slot_alike(f, reg.rows, other.rows, u);
    crate::table::lemma_slot(reg.rows, u);
}

proof fn lemma_upsert_alike(
    f: Renaming,
    reg: Registry,
    other: Registry,
    u: Seq<char>,
    row: (Seq<char>, Seq<char>),
    other_row: (Seq<char>, Seq<char>),
)
    requires
        is_injective(f),
        alike(f, reg, other),
        is_fixed(f, reg.exposed) ==> row == other_row,
    ensures
        alike(
            f,
            Registry { rows: upsert(reg.rows, u, row), ..reg },
            Registry { rows: upsert(other.rows, f(u), other_row), ..other },
        ),
{
    lemma_slot_alike(f, reg.rows, other.rows, u);
    crate::table::lemma_slot(reg.rows, u);
    let a = upsert(reg.rows, u, row);
    let b = upsert(other.rows, f(u), other_row);
    assert forall|i: int| 0 <= i < a.len() implies (#[trigger] b[i]).0 == f(a[i].0) by {
        if i < reg.rows.len() {
            assert(other.rows[i].0 == f(reg.rows[i].0));
        }
    }
    if is_fixed(f, reg.exposed) {
        assert forall|i: int| 0 <= i < a.len() implies (#[trigger] b[i]).1 == a[i].1 by {
            if i < reg.rows.len() {
                assert(other.rows[i].1 == reg.rows[i].1);
            }
        }
    }
}

proof fn lemma_register_alike(
    f: Renaming,
    reg: Registry,
    other: Registry,
    parent: Seq<char>,
    u: Seq<char>,
    component: Seq<char>,
    other_component: Seq<char>,
    isa: Seq<char>,
)
    requires
        is_injective(f),
        alike(f, reg, other),
        is_fixed(f, reg.exposed) ==> component == other_component,
    ensures
        alike(
            f,
            register(reg, parent, u, component, isa),
            register(other, f(parent), f(u), other_component, isa),
        ),
{
    lemma_path_alike(f, reg, other, parent);
    let path = typed_path(reg, parent, component, isa);
    let other_path = typed_path(other, f(parent), other_component, isa);
    lemma_upsert_alike(f, reg, other, u, (path, md5_hex(path)), (other_path, md5_hex(other_path)));
}

proof fn lemma_drop_alike(f: Renaming, reg: Registry, other: Registry, u: Seq<char>)
    requires
        alike(f, reg, other),
    ensures
        alike(f, drop_uuid(reg, u), drop_uuid(other, f(u))),
{
    assert(map_all(f, reg.remove.push(u)) =~= map_all(f, reg.remove).push(f(u)));
}

proof fn lemma_expose_alike(f: Renaming, reg: Registry, other: Registry, named: bool, u: Seq<char>)
    requires
        alike(f, reg, other),
    ensures
        alike(f, expose(reg, named, u), expose(other, named, f(u))),
        is_fixed(f, expose(reg, named, u).exposed) ==> is_fixed(f, reg.exposed),
        is_fixed(f, expose(reg, named, u).exposed) && !named ==> f(u) == u,
{
    if !named {
        let e = reg.exposed.push(u);
        assert(map_all(f, e) =~= map_all(f, reg.exposed).push(f(u)));
        if is_fixed(f, expose(reg, named, u).exposed) {
            assert(f(e[e.len() - 1]) == e[e.len() - 1]);
            assert forall|i: int| 0 <= i < reg.exposed.len() implies f(#[trigger] reg.exposed[i])
                == reg.exposed[i] by {
                assert(e[i] == reg.exposed[i]);
                assert(f(e[i]) == e[i]);
            }
        }
    }
}

// ── Visits ───────────────────────────────────────────────────────────────────

#[verifier::rlimit(30)]
proof fn lemma_proxy_alike(
    f: Renaming,
    os: Objects,
    qs: Objects,
    reg: Registry,
    other: Registry,
    parent: Seq<char>,
    u: Seq<char>,
)
    requires
        is_injective(f),
        same_objects(f, os, qs),
        alike(f, reg, other),
    ensures
        alike(f, visit_proxy(os, reg, parent, u), visit_proxy(qs, other, f(parent), f(u))),
{
    assert(is_object(qs, f(u)) == is_object(os, u));
    if is_object(os, u) {
        assert(text_field(qs, f(u), "remoteInfo"@) == text_field(os, u, "remoteInfo"@));
        let component = "PBXContainerItemProxy/"@ + or_text(
            text_field(os, u, "remoteInfo"@),
            Seq::empty(),
        );
        lemma_register_alike(
            f,
            reg,
            other,
            parent,
            u,
            component,
            component,
            "PBXContainerItemProxy"@,
        );
        let r = register(reg, parent, u, component, "PBXContainerItemProxy"@);
        let o = register(other, f(parent), f(u), component, "PBXContainerItemProxy"@);
        let remote = text_field(os, u, "remoteGlobalIDString"@);
        assert(text_field(qs, f(u), "remoteGlobalIDString"@) == map_opt(f, remote));
        let portal = text_field(os, u, "containerPortal"@);
        assert(text_field(qs, f(u), "containerPortal"@) == map_opt(f, portal));
        if remote is Some {
            let x = remote->Some_0;
            lemma_path_alike(f, r, o, x);
            lemma_path_alike(f, r, o, u);
            if lookup(r.rows, x) is None && portal is Some {
                let p = portal->Some_0;
                lemma_path_alike(f, r, o, p);
                lemma_expose_alike(f, r, o, path_of(r, p) is Some, p);
                let e = expose(r, path_of(r, p) is Some, p);
                let eo = expose(o, path_of(o, f(p)) is Some, f(p));
                let path = or_text(path_of(r, u), Seq::empty()) + "+"@ + or_text(path_of(r, p), p);
                let other_path = or_text(path_of(o, f(u)), Seq::empty()) + "+"@ + or_text(
                    path_of(o, f(p)),
                    f(p),
                );
                lemma_upsert_alike(
                    f,
                    e,
                    eo,
                    x,
                    (
                        "PBXContainerItemProxy#remoteGlobalIDString["@ + path + "]"@,
                        md5_hex(path),
                    ),
                    (
                        "PBXContainerItemProxy#remoteGlobalIDString["@ + other_path + "]"@,
                        md5_hex(other_path),
                    ),
                );
            }
        }
    }
}

#[verifier::rlimit(30)]
proof fn lemma_group_alike(
    f: Renaming,
    os: Objects,
    qs: Objects,
    reg: Registry,
    other: Registry,
    parent: Seq<char>,
    u: Seq<char>,
    fuel: nat,
)
    requires
        is_injective(f),
        same_objects(f, os, qs),
        alike(f, reg, other),
    ensures
        alike(
            f,
            visit_group(os, reg, parent, u, fuel),
            visit_group(qs, other, f(parent), f(u), fuel),
        ),
    decreases fuel, 0nat,
{
    if fuel > 0 {
        assert(is_object(qs, f(u)) == is_object(os, u));
        if !is_object(os, u) {
            lemma_drop_alike(f, reg, other, u);
        } else {
            assert(text_field(qs, f(u), "name"@) == text_field(os, u, "name"@));
            assert(text_field(qs, f(u), "path"@) == text_field(os, u, "path"@));
            assert(text_field(qs, f(u), "isa"@) == text_field(os, u, "isa"@));
            let name = or_text(
                or_else(text_field(os, u, "name"@), text_field(os, u, "path"@)),
                "PBXRootGroup"@,
            );
            let isa = or_text(text_field(os, u, "isa"@), "PBXGroup"@);
            lemma_register_alike(f, reg, other, parent, u, name, name, isa);
            let r = register(reg, parent, u, name, isa);
            let o = register(other, f(parent), f(u), name, isa);
            let kids = list_field(os, u, "children"@);
            assert(list_field(qs, f(u), "children"@) == map_all(f, kids));
            lemma_children_alike(f, os, qs, r, o, u, kids, (fuel - 1) as nat);
            let r2 = visit_children(os, r, u, kids, (fuel - 1) as nat);
            let o2 = visit_children(qs, o, f(u), map_all(f, kids), (fuel - 1) as nat);
            let remote = text_field(os, u, "remoteRef"@);
            assert(text_field(qs, f(u), "remoteRef"@) == map_opt(f, remote));
            if remote is Some {
                lemma_proxy_alike(f, os, qs, r2, o2, u, remote->Some_0);
            }
        }
    }
}

proof fn lemma_children_alike(
    f: Renaming,
    os: Objects,
    qs: Objects,
    reg: Registry,
    other: Registry,
    parent: Seq<char>,
    us: Seq<Seq<char>>,
    fuel: nat,
)
    requires
        is_injective(f),
        same_objects(f, os, qs),
        alike(f, reg, other),
    ensures
        alike(
            f,
            visit_children(os, reg, parent, us, fuel),
            visit_children(qs, other, f(parent), map_all(f, us), fuel),
        ),
    decreases fuel, us.len() + 1,
{
    if us.len() > 0 {
        let vs = map_all(f, us);
        assert(vs.drop_last() =~= map_all(f, us.drop_last()));
        assert(vs.last() == f(us.last()));
        lemma_children_alike(f, os, qs, reg, other, parent, us.drop_last(), fuel);
        lemma_group_alike(
            f,
            os,
            qs,
            visit_children(os, reg, parent, us.drop_last(), fuel),
            visit_children(qs, other, f(parent), vs.drop_last(), fuel),
            parent,
            us.last(),
            fuel,
        );
    }
}

/// The two visits keep registries alike.
spec fn keep_alike(
    f: Renaming,
    visit: spec_fn(Registry, Seq<char>) -> Registry,
    other_visit: spec_fn(Registry, Seq<char>) -> Registry,
) -> bool {
    forall|r: Registry, o: Registry, u: Seq<char>|
        alike(f, r, o) ==> #[trigger] alike(f, visit(r, u), other_visit(o, f(u)))
}

proof fn lemma_all_alike(
    f: Renaming,
    reg: Registry,
    other: Registry,
    us: Seq<Seq<char>>,
    visit: spec_fn(Registry, Seq<char>) -> Registry,
    other_visit: spec_fn(Registry, Seq<char>) -> Registry,
)
    requires
        alike(f, reg, other),
        keep_alike(f, visit, other_visit),
    ensures
        alike(f, visit_all(reg, us, visit), visit_all(other, map_all(f, us), other_visit)),
    decreases us.len(),
{
    if us.len() > 0 {
        let vs = map_all(f, us);
        assert(vs.drop_last() =~= map_all(f, us.drop_last()));
        assert(vs.last() == f(us.last()));
        lemma_all_alike(f, reg, other, us.drop_last(), visit, other_visit);
        let r = visit_all(reg, us.drop_last(), visit);
        let o = visit_all(other, vs.drop_last(), other_visit);
        assert(alike(f, visit(r, us.last()), other_visit(o, f(us.last()))));
    }
}

#[verifier::rlimit(30)]
proof fn lemma_configuration_list_alike(
    f: Renaming,
    os: Objects,
    qs: Objects,
    reg: Registry,
    other: Registry,
    parent: Seq<char>,
    u: Seq<char>,
)
    requires
        is_injective(f),
        same_objects(f, os, qs),
        alike(f, reg, other),
    ensures
        alike(
            f,
            visit_configuration_list(os, reg, parent, u),
            visit_configuration_list(qs, other, f(parent), f(u)),
        ),
{
    assert(is_object(qs, f(u)) == is_object(os, u));
    if is_object(os, u) {
        assert(text_field(qs, f(u), "defaultConfigurationName"@) == text_field(
            os,
            u,
            "defaultConfigurationName"@,
        ));
        let name = or_text(text_field(os, u, "defaultConfigurationName"@), "Release"@);
        lemma_register_alike(f, reg, other, parent, u, name, name, "XCConfigurationList"@);
        let visit = |r: Registry, c: Seq<char>| visit_configuration(os, r, u, c);
        let other_visit = |r: Registry, c: Seq<char>| visit_configuration(qs, r, f(u), c);
        assert forall|r: Registry, o: Registry, c: Seq<char>| alike(f, r, o) implies
            #[trigger] alike(f, visit(r, c), other_visit(o, f(c))) by {
            assert(is_object(qs, f(c)) == is_object(os, c));
            assert(text_field(qs, f(c), "name"@) == text_field(os, c, "name"@));
            let n = or_text(text_field(os, c, "name"@), "Release"@);
            lemma_register_alike(f, r, o, u, c, n, n, "XCBuildConfiguration"@);
        }
        assert(list_field(qs, f(u), "buildConfigurations"@) == map_all(
            f,
            list_field(os, u, "buildConfigurations"@),
        ));
        lemma_all_alike(
            f,
            register(reg, parent, u, name, "XCConfigurationList"@),
            register(other, f(parent), f(u), name, "XCConfigurationList"@),
            list_field(os, u, "buildConfigurations"@),
            visit,
            other_visit,
        );
    }
}

#[verifier::rlimit(30)]
proof fn lemma_dependency_alike(
    f: Renaming,
    os: Objects,
    qs: Objects,
    reg: Registry,
    other: Registry,
    parent: Seq<char>,
    u: Seq<char>,
)
    requires
        is_injective(f),
        same_objects(f, os, qs),
        alike(f, reg, other),
    ensures
        alike(
            f,
            visit_dependency(os, reg, parent, u),
            visit_dependency(qs, other, f(parent), f(u)),
        ),
{
    assert(is_object(qs, f(u)) == is_object(os, u));
    if is_object(os, u) {
        let target = text_field(os, u, "target"@);
        let name = text_field(os, u, "name"@);
        assert(text_field(qs, f(u), "target"@) == map_opt(f, target));
        assert(text_field(qs, f(u), "name"@) == name);
        let component = match target {
            Some(t) => or_text(path_of(reg, t), t),
            None => or_text(name, u),
        };
        let other_component = match target {
            Some(t) => or_text(path_of(other, f(t)), f(t)),
            None => or_text(name, f(u)),
        };
        let (e, eo) = match target {
            Some(t) => (
                expose(reg, path_of(reg, t) is Some, t),
                expose(other, path_of(other, f(t)) is Some, f(t)),
            ),
            None => (expose(reg, name is Some, u), expose(other, name is Some, f(u))),
        };
        if target is Some {
            lemma_path_alike(f, reg, other, target->Some_0);
            lemma_expose_alike(
                f,
                reg,
                other,
                path_of(reg, target->Some_0) is Some,
                target->Some_0,
            );
        } else {
            lemma_expose_alike(f, reg, other, name is Some, u);
        }
        lemma_register_alike(
            f,
            e,
            eo,
            parent,
            u,
            component,
            other_component,
            "PBXTargetDependency"@,
        );
        let r = register(e, parent, u, component, "PBXTargetDependency"@);
        let o = register(eo, f(parent), f(u), other_component, "PBXTargetDependency"@);
        let proxy = text_field(os, u, "targetProxy"@);
        assert(text_field(qs, f(u), "targetProxy"@) == map_opt(f, proxy));
        if proxy is Some {
            lemma_proxy_alike(f, os, qs, r, o, u, proxy->Some_0);
        }
    }
}

#[verifier::rlimit(30)]
proof fn lemma_phase_alike(
    f: Renaming,
    os: Objects,
    qs: Objects,
    reg: Registry,
    other: Registry,
    parent: Seq<char>,
    u: Seq<char>,
)
    requires
        is_injective(f),
        same_objects(f, os, qs),
        alike(f, reg, other),
    ensures
        alike(f, visit_phase(os, reg, parent, u), visit_phase(qs, other, f(parent), f(u))),
{
    assert(is_object(qs, f(u)) == is_object(os, u));
    if is_object(os, u) {
        assert(text_field(qs, f(u), "isa"@) == text_field(os, u, "isa"@));
        assert(text_field(qs, f(u), "shellScript"@) == text_field(os, u, "shellScript"@));
        assert(text_field(qs, f(u), "dstSubfolderSpec"@) == text_field(os, u, "dstSubfolderSpec"@));
        assert(text_field(qs, f(u), "dstPath"@) == text_field(os, u, "dstPath"@));
        assert(text_field(qs, f(u), "name"@) == text_field(os, u, "name"@));
        let isa = or_text(text_field(os, u, "isa"@), "PBXBuildPhase"@);
        let component = phase_component(os, u, isa);
        assert(phase_component(qs, f(u), isa) == component);
        lemma_register_alike(f, reg, other, parent, u, component, component, isa);
        let visit = |r: Registry, x: Seq<char>| visit_build_file(os, r, u, x);
        let other_visit = |r: Registry, x: Seq<char>| visit_build_file(qs, r, f(u), x);
        assert forall|r: Registry, o: Registry, x: Seq<char>| alike(f, r, o) implies
            #[trigger] alike(f, visit(r, x), other_visit(o, f(x))) by {
            let reference = referenced(os, x);
            assert(referenced(qs, f(x)) == map_opt(f, reference));
            lemma_drop_alike(f, r, o, x);
            if reference is Some {
                let y = reference->Some_0;
                lemma_path_alike(f, r, o, y);
                if path_of(r, y) is Some {
                    lemma_register_alike(
                        f,
                        r,
                        o,
                        u,
                        x,
                        path_of(r, y)->Some_0,
                        path_of(o, f(y))->Some_0,
                        "PBXBuildFile"@,
                    );
                } else {
                    lemma_drop_alike(f, drop_uuid(r, x), drop_uuid(o, f(x)), y);
                }
            }
        }
        assert(list_field(qs, f(u), "files"@) == map_all(f, list_field(os, u, "files"@)));
        lemma_all_alike(
            f,
            register(reg, parent, u, component, isa),
            register(other, f(parent), f(u), component, isa),
            list_field(os, u, "files"@),
            visit,
            other_visit,
        );
    }
}

proof fn lemma_rule_alike(
    f: Renaming,
    os: Objects,
    qs: Objects,
    reg: Registry,
    other: Registry,
    parent: Seq<char>,
    u: Seq<char>,
)
    requires
        is_injective(f),
        same_objects(f, os, qs),
        alike(f, reg, other),
    ensures
        alike(f, visit_rule(os, reg, parent, u), visit_rule(qs, other, f(parent), f(u))),
{
    assert(is_object(qs, f(u)) == is_object(os, u));
    if !is_object(os, u) {
        lemma_drop_alike(f, reg, other, u);
    } else {
        assert(text_field(qs, f(u), "fileType"@) == text_field(os, u, "fileType"@));
        assert(text_field(qs, f(u), "filePatterns"@) == text_field(os, u, "filePatterns"@));
        let file_type = or_text(text_field(os, u, "fileType"@), "unknown"@);
        let component = if file_type == "pattern.proxy"@ {
            file_type + "/"@ + or_text(text_field(os, u, "filePatterns"@), Seq::empty())
        } else {
            file_type
        };
        lemma_register_alike(f, reg, other, parent, u, component, component, "PBXBuildRule"@);
    }
}

proof fn lemma_package_alike(
    f: Renaming,
    os: Objects,
    qs: Objects,
    reg: Registry,
    other: Registry,
    parent: Seq<char>,
    u: Seq<char>,
)
    requires
        is_injective(f),
        same_objects(f, os, qs),
        alike(f, reg, other),
    ensures
        alike(f, visit_package(os, reg, parent, u), visit_package(qs, other, f(parent), f(u))),
{
    lemma_path_alike(f, reg, other, u);
    assert(is_object(qs, f(u)) == is_object(os, u));
    let url = text_field(os, u, "repositoryURL"@);
    assert(text_field(qs, f(u), "repositoryURL"@) == url);
    lemma_expose_alike(f, reg, other, url is Some, u);
    lemma_register_alike(
        f,
        expose(reg, url is Some, u),
        expose(other, url is Some, f(u)),
        parent,
        u,
        or_text(url, u),
        or_text(url, f(u)),
        "XCRemoteSwiftPackageReference"@,
    );
}

#[verifier::rlimit(30)]
proof fn lemma_product_alike(
    f: Renaming,
    os: Objects,
    qs: Objects,
    root: Seq<char>,
    reg: Registry,
    other: Registry,
    parent: Seq<char>,
    u: Seq<char>,
)
    requires
        is_injective(f),
        same_objects(f, os, qs),
        alike(f, reg, other),
    ensures
        alike(
            f,
            visit_product(os, root, reg, parent, u),
            visit_product(qs, f(root), other, f(parent), f(u)),
        ),
{
    lemma_path_alike(f, reg, other, u);
    assert(is_object(qs, f(u)) == is_object(os, u));
    let name = text_field(os, u, "productName"@);
    assert(text_field(qs, f(u), "productName"@) == name);
    lemma_expose_alike(f, reg, other, name is Some, u);
    let e = expose(reg, name is Some, u);
    let eo = expose(other, name is Some, f(u));
    lemma_register_alike(
        f,
        e,
        eo,
        parent,
        u,
        or_text(name, u),
        or_text(name, f(u)),
        "XCSwiftPackageProductDependency"@,
    );
    let r = register(e, parent, u, or_text(name, u), "XCSwiftPackageProductDependency"@);
    let o = register(
        eo,
        f(parent),
        f(u),
        or_text(name, f(u)),
        "XCSwiftPackageProductDependency"@,
    );
    let package = text_field(os, u, "package"@);
    assert(text_field(qs, f(u), "package"@) == map_opt(f, package));
    if package is Some {
        lemma_package_alike(f, os, qs, r, o, root, package->Some_0);
    }
}

proof fn lemma_target_early_alike(
    f: Renaming,
    os: Objects,
    qs: Objects,
    reg: Registry,
    other: Registry,
    parent: Seq<char>,
    u: Seq<char>,
)
    requires
        is_injective(f),
        same_objects(f, os, qs),
        alike(f, reg, other),
    ensures
        alike(
            f,
            visit_target_early(os, reg, parent, u),
            visit_target_early(qs, other, f(parent), f(u)),
        ),
{
    lemma_path_alike(f, reg, other, u);
    let name = text_field(os, u, "name"@);
    let product = text_field(os, u, "productName"@);
    let isa = or_text(text_field(os, u, "isa"@), "PBXTarget"@);
    assert(text_field(qs, f(u), "name"@) == name);
    assert(text_field(qs, f(u), "productName"@) == product);
    assert(text_field(qs, f(u), "isa"@) == text_field(os, u, "isa"@));
    lemma_expose_alike(f, reg, other, name is Some, u);
    lemma_register_alike(
        f,
        expose(reg, name is Some, u),
        expose(other, name is Some, f(u)),
        parent,
        u,
        or_text(or_else(product, name), u) + "/"@ + or_text(name, u),
        or_text(or_else(product, name), f(u)) + "/"@ + or_text(name, f(u)),
        isa,
    );
}

#[verifier::rlimit(30)]
proof fn lemma_target_alike(
    f: Renaming,
    os: Objects,
    qs: Objects,
    root: Seq<char>,
    reg: Registry,
    other: Registry,
    u: Seq<char>,
)
    requires
        is_injective(f),
        same_objects(f, os, qs),
        alike(f, reg, other),
    ensures
        alike(f, visit_target(os, root, reg, u), visit_target(qs, f(root), other, f(u))),
{
    assert(is_object(qs, f(u)) == is_object(os, u));
    if is_object(os, u) {
        let list = text_field(os, u, "buildConfigurationList"@);
        assert(text_field(qs, f(u), "buildConfigurationList"@) == map_opt(f, list));
        let r1 = match list {
            Some(l) => visit_configuration_list(os, reg, u, l),
            None => reg,
        };
        let o1 = match list {
            Some(l) => visit_configuration_list(qs, other, f(u), f(l)),
            None => other,
        };
        if list is Some {
            lemma_configuration_list_alike(f, os, qs, reg, other, u, list->Some_0);
        }
        let v2 = |r: Registry, x: Seq<char>| visit_dependency(os, r, u, x);
        let w2 = |r: Registry, x: Seq<char>| visit_dependency(qs, r, f(u), x);
        assert forall|r: Registry, o: Registry, x: Seq<char>| alike(f, r, o) implies
            #[trigger] alike(f, v2(r, x), w2(o, f(x))) by {
            lemma_dependency_alike(f, os, qs, r, o, u, x);
        }
        let us2 = list_field(os, u, "dependencies"@);
        assert(list_field(qs, f(u), "dependencies"@) == map_all(f, us2));
        lemma_all_alike(f, r1, o1, us2, v2, w2);
        let r2 = visit_all(r1, us2, v2);
        let o2 = visit_all(o1, map_all(f, us2), w2);
        let v3 = |r: Registry, x: Seq<char>| visit_phase(os, r, u, x);
        let w3 = |r: Registry, x: Seq<char>| visit_phase(qs, r, f(u), x);
        assert forall|r: Registry, o: Registry, x: Seq<char>| alike(f, r, o) implies
            #[trigger] alike(f, v3(r, x), w3(o, f(x))) by {
            lemma_phase_alike(f, os, qs, r, o, u, x);
        }
        let us3 = list_field(os, u, "buildPhases"@);
        assert(list_field(qs, f(u), "buildPhases"@) == map_all(f, us3));
        lemma_all_alike(f, r2, o2, us3, v3, w3);
        let r3 = visit_all(r2, us3, v3);
        let o3 = visit_all(o2, map_all(f, us3), w3);
        let v4 = |r: Registry, x: Seq<char>| visit_rule(os, r, u, x);
        let w4 = |r: Registry, x: Seq<char>| visit_rule(qs, r, f(u), x);
        assert forall|r: Registry, o: Registry, x: Seq<char>| alike(f, r, o) implies
            #[trigger] alike(f, v4(r, x), w4(o, f(x))) by {
            lemma_rule_alike(f, os, qs, r, o, u, x);
        }
        let us4 = list_field(os, u, "buildRules"@);
        assert(list_field(qs, f(u), "buildRules"@) == map_all(f, us4));
        lemma_all_alike(f, r3, o3, us4, v4, w4);
        let r4 = visit_all(r3, us4, v4);
        let o4 = visit_all(o3, map_all(f, us4), w4);
        let v5 = |r: Registry, x: Seq<char>| visit_product(os, root, r, u, x);
        let w5 = |r: Registry, x: Seq<char>| visit_product(qs, f(root), r, f(u), x);
        assert forall|r: Registry, o: Registry, x: Seq<char>| alike(f, r, o) implies
            #[trigger] alike(f, v5(r, x), w5(o, f(x))) by {
            lemma_product_alike(f, os, qs, root, r, o, u, x);
        }
        let us5 = list_field(os, u, "packageProductDependencies"@);
        assert(list_field(qs, f(u), "packageProductDependencies"@) == map_all(f, us5));
        lemma_all_alike(f, r4, o4, us5, v5, w5);
    }
}

proof fn lemma_references_alike(
    f: Renaming,
    os: Objects,
    qs: Objects,
    reg: Registry,
    other: Registry,
    a: Seq<Plist>,
    b: Seq<Plist>,
    fuel: nat,
)
    requires
        is_injective(f),
        same_objects(f, os, qs),
        alike(f, reg, other),
        same_references(f, a, b),
    ensures
        alike(
            f,
            visit_references(os, reg, a, fuel),
            visit_references(qs, other, b, fuel),
        ),
    decreases a.len(),
{
    if a.len() > 0 {
        assert(same_references(f, a.drop_last(), b.drop_last())) by {
            assert forall|i: int| 0 <= i < a.drop_last().len() implies reference_of(
                #[trigger] b.drop_last()[i],
            ) == match reference_of(a.drop_last()[i]) {
                Some((group, project)) => Some((f(group), f(project))),
                None => None,
            } by {
                assert(b.drop_last()[i] == b[i]);
            }
        }
        lemma_references_alike(f, os, qs, reg, other, a.drop_last(), b.drop_last(), fuel);
        let r = visit_references(os, reg, a.drop_last(), fuel);
        let o = visit_references(qs, other, b.drop_last(), fuel);
        assert(reference_of(b[b.len() - 1]) == match reference_of(a[a.len() - 1]) {
            Some((group, project)) => Some((f(group), f(project))),
            None => None,
        });
        if let Some((group, project)) = reference_of(a.last()) {
            lemma_group_alike(f, os, qs, r, o, project, group, fuel);
        }
    }
}

/// Two projects that differ only in the UUIDs of their objects have the same
/// objects registered, under their UUIDs, with the same paths and the same new
/// UUIDs; unless a UUID that is changed stands in a path for want of a name.
#[verifier::rlimit(30)]
pub proof fn law_new_uuids_ignore_old_ones(f: Renaming, p: Project, q: Project, name: Seq<char>)
    requires
        is_renamed(f, p, q),
        is_fixed(f, registry(p, name).exposed),
    ensures
        ({
            let a = registry(p, name);
            let b = registry(q, name);
            &&& a.rows.len() == b.rows.len()
            &&& forall|i: int|
                0 <= i < a.rows.len() ==> #[trigger] b.rows[i] == (f(a.rows[i].0), a.rows[i].1)
            &&& b.remove == map_all(f, a.remove)
        }),
{
    reveal(registry);
    let os = p.objects;
    let qs = q.objects;
    let root = p.root_object;
    let fuel = os.len() + 1;
    let r0 = Registry {
        rows: seq![(root, (name, md5_hex(name)))],
        remove: Seq::empty(),
        warnings: Seq::empty(),
        exposed: Seq::empty(),
    };
    let o0 = Registry {
        rows: seq![(f(root), (name, md5_hex(name)))],
        remove: Seq::empty(),
        warnings: Seq::empty(),
        exposed: Seq::empty(),
    };
    assert(map_all(f, Seq::empty()) =~= Seq::empty());
    assert(alike(f, r0, o0));
    let group = text_field(os, root, "mainGroup"@);
    assert(text_field(qs, f(root), "mainGroup"@) == map_opt(f, group));
    if group is Some {
        lemma_group_alike(f, os, qs, r0, o0, root, group->Some_0, fuel);
    }
    let r1 = match group {
        Some(g) => visit_group(os, r0, root, g, fuel),
        None => r0,
    };
    let o1 = match group {
        Some(g) => visit_group(qs, o0, f(root), f(g), fuel),
        None => o0,
    };
    let list = text_field(os, root, "buildConfigurationList"@);
    assert(text_field(qs, f(root), "buildConfigurationList"@) == map_opt(f, list));
    if list is Some {
        lemma_configuration_list_alike(f, os, qs, r1, o1, root, list->Some_0);
    }
    let r2 = match list {
        Some(l) => visit_configuration_list(os, r1, root, l),
        None => r1,
    };
    let o2 = match list {
        Some(l) => visit_configuration_list(qs, o1, f(root), f(l)),
        None => o1,
    };
    let a = references(os, root);
    let b = references(qs, f(root));
    lemma_references_alike(f, os, qs, r2, o2, a, b, fuel);
    let r3 = visit_references(os, r2, a, fuel);
    let o3 = visit_references(qs, o2, b, fuel);
    let v4 = |r: Registry, x: Seq<char>| visit_package(os, r, root, x);
    let w4 = |r: Registry, x: Seq<char>| visit_package(qs, r, f(root), x);
    assert forall|r: Registry, o: Registry, x: Seq<char>| alike(f, r, o) implies
        #[trigger] alike(f, v4(r, x), w4(o, f(x))) by {
        lemma_package_alike(f, os, qs, r, o, root, x);
    }
    let us4 = list_field(os, root, "packageReferences"@);
    assert(list_field(qs, f(root), "packageReferences"@) == map_all(f, us4));
    lemma_all_alike(f, r3, o3, us4, v4, w4);
    let r4 = visit_all(r3, us4, v4);
    let o4 = visit_all(o3, map_all(f, us4), w4);
    let us = list_field(os, root, "targets"@);
    assert(list_field(qs, f(root), "targets"@) == map_all(f, us));
    let v5 = |r: Registry, x: Seq<char>| visit_target_early(os, r, root, x);
    let w5 = |r: Registry, x: Seq<char>| visit_target_early(qs, r, f(root), x);
    assert forall|r: Registry, o: Registry, x: Seq<char>| alike(f, r, o) implies
        #[trigger] alike(f, v5(r, x), w5(o, f(x))) by {
        lemma_target_early_alike(f, os, qs, r, o, root, x);
    }
    lemma_all_alike(f, r4, o4, us, v5, w5);
    let r5 = visit_all(r4, us, v5);
    let o5 = visit_all(o4, map_all(f, us), w5);
    let v6 = |r: Registry, x: Seq<char>| visit_target(os, root, r, x);
    let w6 = |r: Registry, x: Seq<char>| visit_target(qs, f(root), r, x);
    assert forall|r: Registry, o: Registry, x: Seq<char>| alike(f, r, o) implies
        #[trigger] alike(f, v6(r, x), w6(o, f(x))) by {
        lemma_target_alike(f, os, qs, root, r, o, x);
    }
    lemma_all_alike(f, r5, o5, us, v6, w6);
    let r6 = visit_all(r5, us, v6);
    let o6 = visit_all(o5, map_all(f, us), w6);
    assert(r6 == registry(p, name));
    assert(o6 == registry(q, name));
    assert forall|i: int| 0 <= i < r6.rows.len() implies #[trigger] o6.rows[i] == (
        f(r6.rows[i].0),
        r6.rows[i].1,
    ) by {
        assert(o6.rows[i].0 == f(r6.rows[i].0));
        assert(o6.rows[i].1 == r6.rows[i].1);
    }
}

} // verus!
