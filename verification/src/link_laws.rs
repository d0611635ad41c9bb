//! Where each object has one owner, its path is that below its owner.
//!
//! The traversal of a project registers each object below the one that refers to
//! it.  If no two objects refer to one, the order of the traversal does not
//! matter: what is registered has the path that its owner and its own fields
//! give it.

use crate::naming_laws::is_known;
use crate::parser::Plist;
use crate::project_facts::has_reference;
use crate::renaming_laws::reference_of;
use crate::table::{distinct_keys, lemma_upsert, lookup, upsert};
use crate::uniquifier::{
    expose, is_object, list_field, md5_hex, or_else, or_text, path_of, phase_component, referenced,
    register, text_field, typed_path, visit_all, visit_build_file, visit_children,
    visit_configuration, visit_configuration_list, visit_dependency, visit_group, visit_package,
    visit_phase, visit_product, visit_proxy, visit_references, visit_rule, visit_target,
    visit_target_early, Objects, Registry,
};
use vstd::prelude::*;

verus! {

// ── Owners ───────────────────────────────────────────────────────────────────

/// How one object refers to another that it owns.
pub ghost enum Kind {
    Child,
    Settings,
    Setting,
    Dependency,
    Phase,
    File,
    Rule,
    Package,
    Product,
    Target,
    Proxy,
    Remote,
}

/// A group that is a proxy of a product of another project.
pub open spec fn group_isa(os: Objects, u: Seq<char>) -> Seq<char> {
    or_text(text_field(os, u, "isa"@), "PBXGroup"@)
}

pub open spec fn group_name(os: Objects, u: Seq<char>) -> Seq<char> {
    or_text(or_else(text_field(os, u, "name"@), text_field(os, u, "path"@)), "PBXRootGroup"@)
}

pub open spec fn targets_of(os: Objects, root: Seq<char>) -> Seq<Seq<char>> {
    list_field(os, root, "targets"@)
}

/// The object `w` owns the object `u`.
pub open spec fn owns(
    os: Objects,
    root: Seq<char>,
    w: Seq<char>,
    u: Seq<char>,
    k: Kind,
) -> bool {
    match k {
        Kind::Child => is_object(os, u) && (list_field(os, w, "children"@).contains(u) || (w == root
            && text_field(os, root, "mainGroup"@) == Some(u)) || has_reference(os, root, u, w)),
        Kind::Settings => is_object(os, u) && text_field(os, w, "buildConfigurationList"@) == Some(
            u,
        ),
        Kind::Setting => is_object(os, u) && list_field(os, w, "buildConfigurations"@).contains(u),
        Kind::Dependency => is_object(os, u) && list_field(os, w, "dependencies"@).contains(u),
        Kind::Phase => is_object(os, u) && list_field(os, w, "buildPhases"@).contains(u),
        Kind::File => referenced(os, u) is Some && list_field(os, w, "files"@).contains(u),
        Kind::Rule => is_object(os, u) && list_field(os, w, "buildRules"@).contains(u),
        Kind::Package => is_object(os, u) && w == root && list_field(
            os,
            root,
            "packageReferences"@,
        ).contains(u),
        Kind::Product => is_object(os, u) && list_field(
            os,
            w,
            "packageProductDependencies"@,
        ).contains(u),
        Kind::Target => w == root && targets_of(os, root).contains(u),
        Kind::Proxy => is_object(os, u) && (text_field(os, w, "targetProxy"@) == Some(u) || (
        group_isa(os, w) == "PBXReferenceProxy"@ && text_field(os, w, "remoteRef"@) == Some(u))),
        Kind::Remote => text_field(os, w, "remoteGlobalIDString"@) == Some(u) && text_field(
            os,
            w,
            "containerPortal"@,
        ) is Some && !targets_of(os, root).contains(u),
    }
}

/// The row of an object with this path.
pub open spec fn typed_row(
    reg: Registry,
    w: Seq<char>,
    component: Seq<char>,
    isa: Seq<char>,
) -> (Seq<char>, Seq<char>) {
    let path = typed_path(reg, w, component, isa);
    (path, md5_hex(path))
}

pub open spec fn dependency_component(os: Objects, reg: Registry, u: Seq<char>) -> Seq<char> {
    match text_field(os, u, "target"@) {
        Some(target) => or_text(path_of(reg, target), target),
        None => or_text(text_field(os, u, "name"@), u),
    }
}

pub open spec fn rule_component(os: Objects, u: Seq<char>) -> Seq<char> {
    let file_type = or_text(text_field(os, u, "fileType"@), "unknown"@);
    if file_type == "pattern.proxy"@ {
        file_type + "/"@ + or_text(text_field(os, u, "filePatterns"@), Seq::empty())
    } else {
        file_type
    }
}

pub open spec fn target_component(os: Objects, u: Seq<char>) -> Seq<char> {
    let name = text_field(os, u, "name"@);
    or_text(or_else(text_field(os, u, "productName"@), name), u) + "/"@ + or_text(name, u)
}

pub open spec fn phase_isa(os: Objects, u: Seq<char>) -> Seq<char> {
    or_text(text_field(os, u, "isa"@), "PBXBuildPhase"@)
}

/// What a remote object is found by: its proxy and its container.
pub open spec fn remote_path(os: Objects, reg: Registry, w: Seq<char>) -> Seq<char> {
    let portal = or_text(text_field(os, w, "containerPortal"@), Seq::empty());
    or_text(path_of(reg, w), Seq::empty()) + "+"@ + or_text(path_of(reg, portal), portal)
}

/// The row that `w` gives to `u`.
pub open spec fn row_of(
    os: Objects,
    reg: Registry,
    w: Seq<char>,
    u: Seq<char>,
    k: Kind,
) -> (Seq<char>, Seq<char>) {
    match k {
        Kind::Child => typed_row(reg, w, group_name(os, u), group_isa(os, u)),
        Kind::Settings => typed_row(
            reg,
            w,
            or_text(text_field(os, u, "defaultConfigurationName"@), "Release"@),
            "XCConfigurationList"@,
        ),
        Kind::Setting => typed_row(
            reg,
            w,
            or_text(text_field(os, u, "name"@), "Release"@),
            "XCBuildConfiguration"@,
        ),
        Kind::Dependency => typed_row(
            reg,
            w,
            dependency_component(os, reg, u),
            "PBXTargetDependency"@,
        ),
        Kind::Phase => typed_row(
            reg,
            w,
            phase_component(os, u, phase_isa(os, u)),
            phase_isa(os, u),
        ),
        Kind::File => typed_row(
            reg,
            w,
            or_text(
                path_of(reg, or_text(referenced(os, u), Seq::empty())),
                Seq::empty(),
            ),
            "PBXBuildFile"@,
        ),
        Kind::Rule => typed_row(reg, w, rule_component(os, u), "PBXBuildRule"@),
        Kind::Package => typed_row(
            reg,
            w,
            or_text(text_field(os, u, "repositoryURL"@), u),
            "XCRemoteSwiftPackageReference"@,
        ),
        Kind::Product => typed_row(
            reg,
            w,
            or_text(text_field(os, u, "productName"@), u),
            "XCSwiftPackageProductDependency"@,
        ),
        Kind::Target => typed_row(
            reg,
            w,
            target_component(os, u),
            or_text(text_field(os, u, "isa"@), "PBXTarget"@),
        ),
        Kind::Proxy => typed_row(
            reg,
            w,
            "PBXContainerItemProxy/"@ + or_text(text_field(os, u, "remoteInfo"@), Seq::empty()),
            "PBXContainerItemProxy"@,
        ),
        Kind::Remote => {
            let path = remote_path(os, reg, w);
            (
                "PBXContainerItemProxy#remoteGlobalIDString["@ + path + "]"@,
                md5_hex(path),
            )
        },
    }
}

/// What the row of `u` is made of is there.
pub open spec fn is_ready(
    os: Objects,
    reg: Registry,
    w: Seq<char>,
    u: Seq<char>,
    k: Kind,
) -> bool {
    &&& is_known(reg, w)
    &&& match k {
        Kind::File => referenced(os, u) is Some && is_known(reg, referenced(os, u)->Some_0),
        Kind::Dependency => match text_field(os, u, "target"@) {
            Some(target) => is_known(reg, target),
            None => text_field(os, u, "name"@) is Some,
        },
        Kind::Package => text_field(os, u, "repositoryURL"@) is Some,
        Kind::Product => text_field(os, u, "productName"@) is Some,
        Kind::Target => text_field(os, u, "name"@) is Some,
        Kind::Remote => text_field(os, w, "containerPortal"@) is Some && is_known(
            reg,
            text_field(os, w, "containerPortal"@)->Some_0,
        ),
        _ => true,
    }
}

/// `u` is registered with the row that its owner gives it.
pub open spec fn is_placed_by(
    os: Objects,
    reg: Registry,
    w: Seq<char>,
    u: Seq<char>,
    k: Kind,
) -> bool {
    is_ready(os, reg, w, u, k) && lookup(reg.rows, u) == Some(row_of(os, reg, w, u, k))
}

/// What a project is read in: its objects, its root and its name, and the objects
/// that count.
pub ghost struct Reach {
    pub os: Objects,
    pub root: Seq<char>,
    pub name: Seq<char>,
    pub live: spec_fn(Seq<char>) -> bool,
}

/// No two of the objects own one, and none owns the root.
pub open spec fn has_single_owners(c: Reach) -> bool {
    &&& forall|w: Seq<char>, x: Seq<char>, u: Seq<char>, k: Kind, l: Kind|
        (c.live)(w) && (c.live)(x) && #[trigger] owns(c.os, c.root, w, u, k) && #[trigger] owns(
            c.os,
            c.root,
            x,
            u,
            l,
        ) ==> w == x && k == l
    &&& forall|w: Seq<char>, k: Kind|
        (c.live)(w) ==> !#[trigger] owns(c.os, c.root, w, c.root, k)
    &&& (c.live)(c.root)
}

/// The row of every registered object is that of its owner.
pub open spec fn is_right(c: Reach, reg: Registry) -> bool {
    &&& distinct_keys(reg.rows)
    &&& lookup(reg.rows, c.root) == Some((c.name, md5_hex(c.name)))
    &&& forall|u: Seq<char>| #[trigger]
        is_known(reg, u) && u != c.root ==> exists|w: Seq<char>, k: Kind|
            owns(c.os, c.root, w, u, k) && #[trigger] is_placed_by(c.os, reg, w, u, k)
}

/// What is registered keeps its row, and what is to be dropped stays so.
pub open spec fn grows(a: Registry, b: Registry) -> bool {
    &&& forall|u: Seq<char>| #[trigger]
        is_known(a, u) ==> lookup(b.rows, u) == lookup(a.rows, u)
    &&& forall|u: Seq<char>| #[trigger] a.remove.contains(u) ==> b.remove.contains(u)
}

/// What is registered counts, and no UUID stands in a path.
pub open spec fn is_fine(c: Reach, reg: Registry) -> bool {
    &&& forall|u: Seq<char>| #[trigger] is_known(reg, u) ==> (c.live)(u)
    &&& reg.exposed.len() == 0
}

/// What is registered stays so, and what stands in a path does.
pub open spec fn eases(a: Registry, b: Registry) -> bool {
    &&& forall|u: Seq<char>| #[trigger] is_known(a, u) ==> is_known(b, u)
    &&& a.exposed.len() <= b.exposed.len()
}

pub proof fn lemma_grows_on(a: Registry, b: Registry, c: Registry)
    requires
        grows(a, b),
        grows(b, c),
    ensures
        grows(a, c),
{
    assert forall|u: Seq<char>| #[trigger] is_known(a, u) implies lookup(c.rows, u) == lookup(
        a.rows,
        u,
    ) by {
        assert(is_known(b, u));
    }
    assert forall|u: Seq<char>| #[trigger] a.remove.contains(u) implies c.remove.contains(u) by {
        assert(b.remove.contains(u));
    }
}

pub proof fn lemma_grows_path(a: Registry, b: Registry, u: Seq<char>)
    requires
        grows(a, b),
        is_known(a, u),
    ensures
        is_known(b, u),
        path_of(b, u) == path_of(a, u),
{
}

/// The row that an owner gives stays the same.
pub proof fn lemma_row_stays(
    os: Objects,
    a: Registry,
    b: Registry,
    w: Seq<char>,
    u: Seq<char>,
    k: Kind,
)
    requires
        grows(a, b),
        is_ready(os, a, w, u, k),
    ensures
        is_ready(os, b, w, u, k),
        row_of(os, b, w, u, k) == row_of(os, a, w, u, k),
        is_placed_by(os, a, w, u, k) ==> is_placed_by(os, b, w, u, k),
{
    lemma_grows_path(a, b, w);
    match k {
        Kind::File => {
            lemma_grows_path(a, b, referenced(os, u)->Some_0);
        },
        Kind::Dependency => {
            if let Some(t) = text_field(os, u, "target"@) {
                lemma_grows_path(a, b, t);
            }
        },
        Kind::Remote => {
            lemma_grows_path(a, b, text_field(os, w, "containerPortal"@)->Some_0);
        },
        _ => {},
    }
    if is_placed_by(os, a, w, u, k) {
        assert(is_known(a, u));
    }
}

/// Registering an object with the row of its owner.
pub proof fn lemma_put(
    c: Reach,
    reg: Registry,
    w: Seq<char>,
    u: Seq<char>,
    k: Kind,
)
    requires
        is_right(c, reg),
        has_single_owners(c),
        is_fine(c, reg),
        owns(c.os, c.root, w, u, k),
        is_ready(c.os, reg, w, u, k),
    ensures
        ({
            let row = row_of(c.os, reg, w, u, k);
            let out = Registry { rows: upsert(reg.rows, u, row), ..reg };
            &&& is_right(c, out)
            &&& grows(reg, out)
            &&& is_placed_by(c.os, out, w, u, k)
            &&& forall|x: Seq<char>| #[trigger] is_known(out, x) == (is_known(reg, x) || x == u)
        }),
        is_known(reg, u) ==> is_placed_by(c.os, reg, w, u, k),
{
    let row = row_of(c.os, reg, w, u, k);
    let out = Registry { rows: upsert(reg.rows, u, row), ..reg };
    lemma_upsert(reg.rows, u, row);
    assert((c.live)(w)) by {
        assert(is_known(reg, w));
    }
    assert(u != c.root);
    if is_known(reg, u) {
        let (x, l) = choose|x: Seq<char>, l: Kind|
            owns(c.os, c.root, x, u, l) && #[trigger] is_placed_by(c.os, reg, x, u, l);
        assert(is_known(reg, x));
        assert((c.live)(x));
        assert(x == w && l == k);
    }
    assert forall|x: Seq<char>| #[trigger] is_known(out, x) == (is_known(reg, x) || x == u) by {
        if x != u {
            assert(lookup(out.rows, x) == lookup(reg.rows, x));
        }
    }
    assert forall|x: Seq<char>| #[trigger] is_known(reg, x) implies lookup(out.rows, x) == lookup(
        reg.rows,
        x,
    ) by {
        if x != u {
            assert(lookup(out.rows, x) == lookup(reg.rows, x));
        }
    }
    assert(grows(reg, out));
    lemma_row_stays(c.os, reg, out, w, u, k);
    assert(is_placed_by(c.os, out, w, u, k));
    assert(is_known(reg, c.root));
    assert forall|x: Seq<char>| #[trigger] is_known(out, x) && x != c.root implies exists|
        y: Seq<char>,
        l: Kind,
    |
        owns(c.os, c.root, y, x, l) && #[trigger] is_placed_by(c.os, out, y, x, l) by {
        if x != u {
            assert(is_known(reg, x));
            let (y, l) = choose|y: Seq<char>, l: Kind|
                owns(c.os, c.root, y, x, l) && #[trigger] is_placed_by(c.os, reg, y, x, l);
            lemma_row_stays(c.os, reg, out, y, x, l);
            assert(is_placed_by(c.os, out, y, x, l));
        }
    }
}

// ── Monotone visits ──────────────────────────────────────────────────────────

pub proof fn lemma_eases_on(a: Registry, b: Registry, c: Registry)
    requires
        eases(a, b),
        eases(b, c),
    ensures
        eases(a, c),
{
    assert forall|u: Seq<char>| #[trigger] is_known(a, u) implies is_known(c, u) by {
        assert(is_known(b, u));
    }
}

pub proof fn lemma_fine_before(c: Reach, a: Registry, b: Registry)
    requires
        eases(a, b),
        is_fine(c, b),
    ensures
        is_fine(c, a),
{
    assert forall|u: Seq<char>| #[trigger] is_known(a, u) implies (c.live)(u) by {
        assert(is_known(b, u));
    }
}

proof fn ease_upsert(reg: Registry, u: Seq<char>, row: (Seq<char>, Seq<char>))
    ensures
        eases(reg, Registry { rows: upsert(reg.rows, u, row), ..reg }),
{
    let out = Registry { rows: upsert(reg.rows, u, row), ..reg };
    assert forall|x: Seq<char>| #[trigger] is_known(reg, x) implies is_known(out, x) by {
        crate::naming_laws::lemma_upsert_known(reg.rows, u, row, x);
    }
}

pub proof fn ease_register(
    reg: Registry,
    parent: Seq<char>,
    u: Seq<char>,
    component: Seq<char>,
    isa: Seq<char>,
)
    ensures
        eases(reg, register(reg, parent, u, component, isa)),
{
    let path = typed_path(reg, parent, component, isa);
    ease_upsert(reg, u, (path, md5_hex(path)));
}

proof fn ease_expose_register(
    reg: Registry,
    named: bool,
    x: Seq<char>,
    parent: Seq<char>,
    u: Seq<char>,
    component: Seq<char>,
    isa: Seq<char>,
)
    ensures
        eases(reg, register(expose(reg, named, x), parent, u, component, isa)),
{
    let e = expose(reg, named, x);
    assert(eases(reg, e));
    ease_register(e, parent, u, component, isa);
    lemma_eases_on(reg, e, register(e, parent, u, component, isa));
}

pub proof fn ease_proxy(os: Objects, reg: Registry, parent: Seq<char>, u: Seq<char>)
    ensures
        eases(reg, visit_proxy(os, reg, parent, u)),
{
    if is_object(os, u) {
        let component = "PBXContainerItemProxy/"@ + or_text(
            text_field(os, u, "remoteInfo"@),
            Seq::empty(),
        );
        ease_register(reg, parent, u, component, "PBXContainerItemProxy"@);
        let r = register(reg, parent, u, component, "PBXContainerItemProxy"@);
        if let Some(remote) = text_field(os, u, "remoteGlobalIDString"@) {
            if let Some(portal) = text_field(os, u, "containerPortal"@) {
                let e = expose(r, path_of(r, portal) is Some, portal);
                let path = or_text(path_of(r, u), Seq::empty()) + "+"@ + or_text(
                    path_of(r, portal),
                    portal,
                );
                let row = (
                    "PBXContainerItemProxy#remoteGlobalIDString["@ + path + "]"@,
                    md5_hex(path),
                );
                ease_upsert(e, remote, row);
                assert(eases(r, e));
                assert(eases(e, Registry { rows: upsert(r.rows, remote, row), ..e }));
                lemma_eases_on(r, e, Registry { rows: upsert(r.rows, remote, row), ..e });
                lemma_eases_on(reg, r, Registry { rows: upsert(r.rows, remote, row), ..e });
            }
        }
        lemma_eases_on(reg, r, r);
    }
}

pub proof fn ease_group(os: Objects, reg: Registry, parent: Seq<char>, u: Seq<char>, fuel: nat)
    ensures
        eases(reg, visit_group(os, reg, parent, u, fuel)),
    decreases fuel, 0nat,
{
    if fuel > 0 && is_object(os, u) {
        let r0 = register(reg, parent, u, group_name(os, u), group_isa(os, u));
        ease_register(reg, parent, u, group_name(os, u), group_isa(os, u));
        let us = list_field(os, u, "children"@);
        let r = visit_children(os, r0, u, us, (fuel - 1) as nat);
        ease_children(os, r0, u, us, (fuel - 1) as nat);
        lemma_eases_on(reg, r0, r);
        if let Some(x) = text_field(os, u, "remoteRef"@) {
            ease_proxy(os, r, u, x);
            lemma_eases_on(reg, r, visit_proxy(os, r, u, x));
        }
    }
}

pub proof fn ease_children(
    os: Objects,
    reg: Registry,
    parent: Seq<char>,
    us: Seq<Seq<char>>,
    fuel: nat,
)
    ensures
        eases(reg, visit_children(os, reg, parent, us, fuel)),
    decreases fuel, us.len() + 1,
{
    if us.len() > 0 {
        let r = visit_children(os, reg, parent, us.drop_last(), fuel);
        ease_children(os, reg, parent, us.drop_last(), fuel);
        ease_group(os, r, parent, us.last(), fuel);
        lemma_eases_on(reg, r, visit_group(os, r, parent, us.last(), fuel));
    }
}

pub proof fn ease_references(os: Objects, reg: Registry, items: Seq<Plist>, fuel: nat)
    ensures
        eases(reg, visit_references(os, reg, items, fuel)),
    decreases items.len(),
{
    if items.len() > 0 {
        let r = visit_references(os, reg, items.drop_last(), fuel);
        ease_references(os, reg, items.drop_last(), fuel);
        if let Some((group, project)) = reference_of(items.last()) {
            ease_group(os, r, project, group, fuel);
            lemma_eases_on(reg, r, visit_group(os, r, project, group, fuel));
        }
    }
}

pub proof fn ease_all(
    reg: Registry,
    us: Seq<Seq<char>>,
    visit: spec_fn(Registry, Seq<char>) -> Registry,
)
    requires
        forall|r: Registry, u: Seq<char>| eases(r, #[trigger] visit(r, u)),
    ensures
        eases(reg, visit_all(reg, us, visit)),
    decreases us.len(),
{
    if us.len() > 0 {
        ease_all(reg, us.drop_last(), visit);
        let r = visit_all(reg, us.drop_last(), visit);
        assert(eases(r, visit(r, us.last())));
        lemma_eases_on(reg, r, visit(r, us.last()));
    }
}

pub proof fn ease_list(os: Objects, reg: Registry, parent: Seq<char>, u: Seq<char>)
    ensures
        eases(reg, visit_configuration_list(os, reg, parent, u)),
{
    if is_object(os, u) {
        let name = or_text(text_field(os, u, "defaultConfigurationName"@), "Release"@);
        let r0 = register(reg, parent, u, name, "XCConfigurationList"@);
        ease_register(reg, parent, u, name, "XCConfigurationList"@);
        let visit = |r: Registry, c: Seq<char>| visit_configuration(os, r, u, c);
        assert forall|r: Registry, x: Seq<char>| eases(r, #[trigger] visit(r, x)) by {
            ease_register(
                r,
                u,
                x,
                or_text(text_field(os, x, "name"@), "Release"@),
                "XCBuildConfiguration"@,
            );
        }
        let us = list_field(os, u, "buildConfigurations"@);
        ease_all(r0, us, visit);
        lemma_eases_on(reg, r0, visit_all(r0, us, visit));
    }
}

pub proof fn ease_dependency(os: Objects, reg: Registry, parent: Seq<char>, u: Seq<char>)
    ensures
        eases(reg, visit_dependency(os, reg, parent, u)),
{
    if is_object(os, u) {
        let component = dependency_component(os, reg, u);
        let (named, x) = match text_field(os, u, "target"@) {
            Some(target) => (path_of(reg, target) is Some, target),
            None => (text_field(os, u, "name"@) is Some, u),
        };
        ease_expose_register(reg, named, x, parent, u, component, "PBXTargetDependency"@);
        let r = register(expose(reg, named, x), parent, u, component, "PBXTargetDependency"@);
        if let Some(proxy) = text_field(os, u, "targetProxy"@) {
            ease_proxy(os, r, u, proxy);
            lemma_eases_on(reg, r, visit_proxy(os, r, u, proxy));
        }
    }
}

pub proof fn ease_file(os: Objects, reg: Registry, parent: Seq<char>, u: Seq<char>)
    ensures
        eases(reg, visit_build_file(os, reg, parent, u)),
{
    if let Some(reference) = referenced(os, u) {
        if let Some(path) = path_of(reg, reference) {
            ease_register(reg, parent, u, path, "PBXBuildFile"@);
        }
    }
}

pub proof fn ease_phase(os: Objects, reg: Registry, parent: Seq<char>, u: Seq<char>)
    ensures
        eases(reg, visit_phase(os, reg, parent, u)),
{
    if is_object(os, u) {
        let isa = phase_isa(os, u);
        let r0 = register(reg, parent, u, phase_component(os, u, isa), isa);
        ease_register(reg, parent, u, phase_component(os, u, isa), isa);
        let visit = |r: Registry, f: Seq<char>| visit_build_file(os, r, u, f);
        assert forall|r: Registry, x: Seq<char>| eases(r, #[trigger] visit(r, x)) by {
            ease_file(os, r, u, x);
        }
        let us = list_field(os, u, "files"@);
        ease_all(r0, us, visit);
        lemma_eases_on(reg, r0, visit_all(r0, us, visit));
    }
}

pub proof fn ease_rule(os: Objects, reg: Registry, parent: Seq<char>, u: Seq<char>)
    ensures
        eases(reg, visit_rule(os, reg, parent, u)),
{
    if is_object(os, u) {
        ease_register(reg, parent, u, rule_component(os, u), "PBXBuildRule"@);
    }
}

pub proof fn ease_package(os: Objects, reg: Registry, parent: Seq<char>, u: Seq<char>)
    ensures
        eases(reg, visit_package(os, reg, parent, u)),
{
    let url = text_field(os, u, "repositoryURL"@);
    ease_expose_register(
        reg,
        url is Some,
        u,
        parent,
        u,
        or_text(url, u),
        "XCRemoteSwiftPackageReference"@,
    );
}

pub proof fn ease_product(
    os: Objects,
    root: Seq<char>,
    reg: Registry,
    parent: Seq<char>,
    u: Seq<char>,
)
    ensures
        eases(reg, visit_product(os, root, reg, parent, u)),
{
    let name = text_field(os, u, "productName"@);
    ease_expose_register(
        reg,
        name is Some,
        u,
        parent,
        u,
        or_text(name, u),
        "XCSwiftPackageProductDependency"@,
    );
    let r = register(
        expose(reg, name is Some, u),
        parent,
        u,
        or_text(name, u),
        "XCSwiftPackageProductDependency"@,
    );
    if let Some(package) = text_field(os, u, "package"@) {
        ease_package(os, r, root, package);
        lemma_eases_on(reg, r, visit_package(os, r, root, package));
    }
}

pub proof fn ease_early(os: Objects, reg: Registry, parent: Seq<char>, u: Seq<char>)
    ensures
        eases(reg, visit_target_early(os, reg, parent, u)),
{
    ease_expose_register(
        reg,
        text_field(os, u, "name"@) is Some,
        u,
        parent,
        u,
        target_component(os, u),
        or_text(text_field(os, u, "isa"@), "PBXTarget"@),
    );
}

/// The stages of the parts of a target.
pub open spec fn target_stage(
    os: Objects,
    root: Seq<char>,
    reg: Registry,
    u: Seq<char>,
    n: int,
) -> Registry
    decreases n,
{
    if n <= 0 {
        reg
    } else {
        let r = target_stage(os, root, reg, u, n - 1);
        if n == 1 {
            match text_field(os, u, "buildConfigurationList"@) {
                Some(list) => visit_configuration_list(os, r, u, list),
                None => r,
            }
        } else if n == 2 {
            visit_all(
                r,
                list_field(os, u, "dependencies"@),
                |r: Registry, x: Seq<char>| visit_dependency(os, r, u, x),
            )
        } else if n == 3 {
            visit_all(
                r,
                list_field(os, u, "buildPhases"@),
                |r: Registry, x: Seq<char>| visit_phase(os, r, u, x),
            )
        } else if n == 4 {
            visit_all(
                r,
                list_field(os, u, "buildRules"@),
                |r: Registry, x: Seq<char>| visit_rule(os, r, u, x),
            )
        } else {
            visit_all(
                r,
                list_field(os, u, "packageProductDependencies"@),
                |r: Registry, x: Seq<char>| visit_product(os, root, r, u, x),
            )
        }
    }
}

pub proof fn lemma_target_stages(os: Objects, root: Seq<char>, reg: Registry, u: Seq<char>)
    requires
        is_object(os, u),
    ensures
        visit_target(os, root, reg, u) == target_stage(os, root, reg, u, 5),
{
    reveal_with_fuel(target_stage, 6);
}

pub proof fn ease_target_stage(
    os: Objects,
    root: Seq<char>,
    reg: Registry,
    u: Seq<char>,
    n: int,
)
    requires
        1 <= n <= 5,
    ensures
        eases(target_stage(os, root, reg, u, n - 1), target_stage(os, root, reg, u, n)),
{
    let r = target_stage(os, root, reg, u, n - 1);
    if n == 1 {
        if let Some(list) = text_field(os, u, "buildConfigurationList"@) {
            ease_list(os, r, u, list);
        }
    } else if n == 2 {
        let visit = |r: Registry, x: Seq<char>| visit_dependency(os, r, u, x);
        assert forall|r: Registry, x: Seq<char>| eases(r, #[trigger] visit(r, x)) by {
            ease_dependency(os, r, u, x);
        }
        ease_all(r, list_field(os, u, "dependencies"@), visit);
    } else if n == 3 {
        let visit = |r: Registry, x: Seq<char>| visit_phase(os, r, u, x);
        assert forall|r: Registry, x: Seq<char>| eases(r, #[trigger] visit(r, x)) by {
            ease_phase(os, r, u, x);
        }
        ease_all(r, list_field(os, u, "buildPhases"@), visit);
    } else if n == 4 {
        let visit = |r: Registry, x: Seq<char>| visit_rule(os, r, u, x);
        assert forall|r: Registry, x: Seq<char>| eases(r, #[trigger] visit(r, x)) by {
            ease_rule(os, r, u, x);
        }
        ease_all(r, list_field(os, u, "buildRules"@), visit);
    } else {
        let visit = |r: Registry, x: Seq<char>| visit_product(os, root, r, u, x);
        assert forall|r: Registry, x: Seq<char>| eases(r, #[trigger] visit(r, x)) by {
            ease_product(os, root, r, u, x);
        }
        ease_all(r, list_field(os, u, "packageProductDependencies"@), visit);
    }
}

pub proof fn ease_target(os: Objects, root: Seq<char>, reg: Registry, u: Seq<char>)
    ensures
        eases(reg, visit_target(os, root, reg, u)),
{
    if is_object(os, u) {
        lemma_target_stages(os, root, reg, u);
        ease_target_stage(os, root, reg, u, 1);
        ease_target_stage(os, root, reg, u, 2);
        ease_target_stage(os, root, reg, u, 3);
        ease_target_stage(os, root, reg, u, 4);
        ease_target_stage(os, root, reg, u, 5);
        let r0 = target_stage(os, root, reg, u, 0);
        let r1 = target_stage(os, root, reg, u, 1);
        let r2 = target_stage(os, root, reg, u, 2);
        let r3 = target_stage(os, root, reg, u, 3);
        let r4 = target_stage(os, root, reg, u, 4);
        let r5 = target_stage(os, root, reg, u, 5);
        lemma_eases_on(r0, r1, r2);
        lemma_eases_on(r0, r2, r3);
        lemma_eases_on(r0, r3, r4);
        lemma_eases_on(r0, r4, r5);
    }
}

} // verus!
