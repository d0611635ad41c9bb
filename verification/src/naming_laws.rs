//! Where names are given, no UUID stands in a path.

use crate::parser::{field, str_of, Plist, Project};
use crate::renaming_laws::{
    is_fixed, is_renamed, law_new_uuids_ignore_old_ones, map_all, Renaming,
};
use crate::table::{lemma_slot, lookup, upsert};
use crate::uniquifier::{
    is_object, list_field, md5_hex, or_else, or_text, path_of, phase_component, referenced,
    register, registry, text_field, typed_path, visit_all, visit_build_file, visit_children,
    visit_configuration, visit_configuration_list, visit_dependency, visit_group, visit_package,
    visit_phase, visit_product, visit_proxy, visit_references, visit_rule, visit_target,
    visit_target_early, Objects, Registry, Rows,
};
use vstd::prelude::*;

verus! {

// ── What is to be named ──────────────────────────────────────────────────────

/// The object is registered.
pub open spec fn is_known(reg: Registry, u: Seq<char>) -> bool {
    lookup(reg.rows, u) is Some
}

/// The registry at the start of a traversal.
pub open spec fn only_root(project: Project, name: Seq<char>) -> Registry {
    Registry {
        rows: seq![(project.root_object, (name, md5_hex(name)))],
        remove: Seq::empty(),
        warnings: Seq::empty(),
        exposed: Seq::empty(),
    }
}

/// The registry after the main group.
pub open spec fn with_main_group(project: Project, name: Seq<char>) -> Registry {
    let os = project.objects;
    match text_field(os, project.root_object, "mainGroup"@) {
        Some(group) => visit_group(
            os,
            only_root(project, name),
            project.root_object,
            group,
            os.len() + 1,
        ),
        None => only_root(project, name),
    }
}

/// The container that a proxy refers to is registered, if it names one.
pub open spec fn has_portal(os: Objects, reg: Registry, proxy: Seq<char>) -> bool {
    match text_field(os, proxy, "containerPortal"@) {
        Some(portal) => is_known(reg, portal),
        None => true,
    }
}

/// The proxy of a reference proxy in the tree.
pub open spec fn is_proxy_of(os: Objects, u: Seq<char>, proxy: Seq<char>) -> bool {
    &&& is_object(os, u)
    &&& or_text(text_field(os, u, "isa"@), "PBXGroup"@) == "PBXReferenceProxy"@
    &&& text_field(os, u, "remoteRef"@) == Some(proxy)
}

/// Every proxy in the tree names a container that is registered before it: the
/// project itself or, behind the main group, what that holds.
pub open spec fn has_portals(project: Project, name: Seq<char>) -> bool {
    let os = project.objects;
    let main = with_main_group(project, name);
    &&& forall|u: Seq<char>, proxy: Seq<char>| #[trigger]
        is_proxy_of(os, u, proxy) ==> has_portal(os, main, proxy)
    &&& forall|u: Seq<char>, proxy: Seq<char>| #[trigger]
        is_proxy_of(os, u, proxy) && is_known(main, u) ==> has_portal(
            os,
            only_root(project, name),
            proxy,
        )
}

/// A package has a URL.
pub open spec fn has_url(os: Objects, u: Seq<char>) -> bool {
    is_object(os, u) ==> text_field(os, u, "repositoryURL"@) is Some
}

/// A product of a package has a name, and its package a URL.
pub open spec fn has_product_name(os: Objects, u: Seq<char>) -> bool {
    is_object(os, u) ==> {
        &&& text_field(os, u, "productName"@) is Some
        &&& match text_field(os, u, "package"@) {
            Some(package) => has_url(os, package),
            None => true,
        }
    }
}

/// A dependency is on a listed target, or has a name; and the container of its
/// proxy is the project or in the main group.
pub open spec fn has_target(
    os: Objects,
    targets: Seq<Seq<char>>,
    main: Registry,
    u: Seq<char>,
) -> bool {
    is_object(os, u) ==> {
        &&& match text_field(os, u, "target"@) {
            Some(target) => targets.contains(target),
            None => text_field(os, u, "name"@) is Some,
        }
        &&& match text_field(os, u, "targetProxy"@) {
            Some(proxy) => has_portal(os, main, proxy),
            None => true,
        }
    }
}

/// Whatever is needed for a path is named: every target has a name, every package
/// a URL, every product of a package a name, every dependency a listed target or
/// a name, and every proxy a registered container.
pub open spec fn is_named(project: Project, name: Seq<char>) -> bool {
    let os = project.objects;
    let root = project.root_object;
    let targets = list_field(os, root, "targets"@);
    let packages = list_field(os, root, "packageReferences"@);
    &&& has_portals(project, name)
    &&& forall|u: Seq<char>| #[trigger] packages.contains(u) ==> has_url(os, u)
    &&& forall|t: Seq<char>| #[trigger]
        targets.contains(t) ==> text_field(os, t, "name"@) is Some
    &&& forall|t: Seq<char>, u: Seq<char>|
        targets.contains(t) && #[trigger] list_field(os, t, "dependencies"@).contains(u)
            ==> has_target(os, targets, with_main_group(project, name), u)
    &&& forall|t: Seq<char>, u: Seq<char>|
        targets.contains(t) && #[trigger] list_field(
            os,
            t,
            "packageProductDependencies"@,
        ).contains(u) ==> has_product_name(os, u)
}

// ── Growing registries ───────────────────────────────────────────────────────

/// What is registered stays so, and no UUID is exposed.
spec fn goes_on(a: Registry, b: Registry) -> bool {
    &&& forall|u: Seq<char>| #[trigger] is_known(a, u) ==> is_known(b, u)
    &&& b.exposed == a.exposed
}

/// What is registered stays so.
spec fn keeps(a: Registry, b: Registry) -> bool {
    forall|u: Seq<char>| #[trigger] is_known(a, u) ==> is_known(b, u)
}

pub proof fn lemma_upsert_known(rows: Rows, k: Seq<char>, v: (Seq<char>, Seq<char>), u: Seq<char>)
    ensures
        lookup(rows, u) is Some ==> lookup(upsert(rows, k, v), u) is Some,
        lookup(upsert(rows, k, v), k) is Some,
{
    let r = upsert(rows, k, v);
    lemma_slot(rows, k);
    lemma_slot(rows, u);
    lemma_slot(r, u);
    lemma_slot(r, k);
    match crate::table::slot(rows, k) {
        Some(i) => {
            assert(r[i].0 == k);
            if lookup(rows, u) is Some {
                let j = crate::table::slot(rows, u)->Some_0;
                assert(r[j].0 == u);
            }
        },
        None => {
            assert(r[rows.len() as int].0 == k);
            if lookup(rows, u) is Some {
                let j = crate::table::slot(rows, u)->Some_0;
                assert(r[j].0 == u);
            }
        },
    }
}

proof fn lemma_register(
    reg: Registry,
    parent: Seq<char>,
    u: Seq<char>,
    component: Seq<char>,
    isa: Seq<char>,
)
    ensures
        goes_on(reg, register(reg, parent, u, component, isa)),
        is_known(register(reg, parent, u, component, isa), u),
{
    let path = typed_path(reg, parent, component, isa);
    let r = register(reg, parent, u, component, isa);
    lemma_upsert_known(reg.rows, u, (path, md5_hex(path)), u);
    assert forall|x: Seq<char>| #[trigger] is_known(reg, x) implies is_known(r, x) by {
        lemma_upsert_known(reg.rows, u, (path, md5_hex(path)), x);
    }
}

// ── Visits ───────────────────────────────────────────────────────────────────

proof fn lemma_proxy(os: Objects, reg: Registry, parent: Seq<char>, u: Seq<char>)
    ensures
        keeps(reg, visit_proxy(os, reg, parent, u)),
        has_portal(os, reg, u) ==> goes_on(reg, visit_proxy(os, reg, parent, u)),
{
    if is_object(os, u) {
        let component = "PBXContainerItemProxy/"@ + or_text(
            text_field(os, u, "remoteInfo"@),
            Seq::empty(),
        );
        lemma_register(reg, parent, u, component, "PBXContainerItemProxy"@);
        let r = register(reg, parent, u, component, "PBXContainerItemProxy"@);
        if text_field(os, u, "remoteGlobalIDString"@) is Some && text_field(
            os,
            u,
            "containerPortal"@,
        ) is Some {
            let remote = text_field(os, u, "remoteGlobalIDString"@)->Some_0;
            let portal = text_field(os, u, "containerPortal"@)->Some_0;
            let path = or_text(path_of(r, u), Seq::empty()) + "+"@ + or_text(
                path_of(r, portal),
                portal,
            );
            let row = (
                "PBXContainerItemProxy#remoteGlobalIDString["@ + path + "]"@,
                md5_hex(path),
            );
            let out = visit_proxy(os, reg, parent, u);
            assert forall|x: Seq<char>| #[trigger] is_known(reg, x) implies is_known(out, x) by {
                assert(is_known(r, x));
                lemma_upsert_known(r.rows, remote, row, x);
            }
            if is_known(reg, portal) {
                assert(is_known(r, portal));
            }
        }
    }
}

proof fn lemma_group(
    os: Objects,
    first: Registry,
    last: Registry,
    reg: Registry,
    parent: Seq<char>,
    u: Seq<char>,
    fuel: nat,
)
    ensures
        keeps(reg, visit_group(os, reg, parent, u, fuel)),
        ({
            &&& keeps(first, reg)
            &&& keeps(visit_group(os, reg, parent, u, fuel), last)
            &&& forall|x: Seq<char>, proxy: Seq<char>| #[trigger]
                is_proxy_of(os, x, proxy) && is_known(last, x) ==> has_portal(os, first, proxy)
        }) ==> goes_on(reg, visit_group(os, reg, parent, u, fuel)),
    decreases fuel, 0nat,
{
    if fuel > 0 && is_object(os, u) {
        let name = or_text(
            or_else(text_field(os, u, "name"@), text_field(os, u, "path"@)),
            "PBXRootGroup"@,
        );
        let isa = or_text(text_field(os, u, "isa"@), "PBXGroup"@);
        let r0 = register(reg, parent, u, name, isa);
        lemma_register(reg, parent, u, name, isa);
        let us = list_field(os, u, "children"@);
        let r = visit_children(os, r0, u, us, (fuel - 1) as nat);
        lemma_children(os, first, last, r0, u, us, (fuel - 1) as nat);
        let remote = text_field(os, u, "remoteRef"@);
        let out = visit_group(os, reg, parent, u, fuel);
        if isa == "PBXReferenceProxy"@ && remote is Some {
            let proxy = remote->Some_0;
            lemma_proxy(os, r, u, proxy);
            if keeps(first, reg) && keeps(out, last) && (forall|x: Seq<char>, proxy: Seq<char>|
                #[trigger]
                is_proxy_of(os, x, proxy) && is_known(last, x) ==> has_portal(os, first, proxy)) {
                assert(is_known(r0, u));
                assert(is_known(r, u));
                assert(is_known(out, u));
                assert(is_known(last, u));
                assert(is_proxy_of(os, u, proxy));
                assert(has_portal(os, first, proxy));
                if text_field(os, proxy, "containerPortal"@) is Some {
                    let portal = text_field(os, proxy, "containerPortal"@)->Some_0;
                    assert(is_known(first, portal));
                    assert(is_known(reg, portal));
                    assert(is_known(r0, portal));
                    assert(is_known(r, portal));
                }
            }
        }
    }
}

proof fn lemma_children(
    os: Objects,
    first: Registry,
    last: Registry,
    reg: Registry,
    parent: Seq<char>,
    us: Seq<Seq<char>>,
    fuel: nat,
)
    ensures
        keeps(reg, visit_children(os, reg, parent, us, fuel)),
        ({
            &&& keeps(first, reg)
            &&& keeps(visit_children(os, reg, parent, us, fuel), last)
            &&& forall|x: Seq<char>, proxy: Seq<char>| #[trigger]
                is_proxy_of(os, x, proxy) && is_known(last, x) ==> has_portal(os, first, proxy)
        }) ==> goes_on(reg, visit_children(os, reg, parent, us, fuel)),
    decreases fuel, us.len() + 1,
{
    if us.len() > 0 {
        lemma_children(os, first, last, reg, parent, us.drop_last(), fuel);
        let r = visit_children(os, reg, parent, us.drop_last(), fuel);
        lemma_group(os, first, last, r, parent, us.last(), fuel);
    }
}

proof fn lemma_references(
    os: Objects,
    first: Registry,
    reg: Registry,
    items: Seq<Plist>,
    fuel: nat,
)
    requires
        keeps(first, reg),
        forall|x: Seq<char>, proxy: Seq<char>| #[trigger]
            is_proxy_of(os, x, proxy) ==> has_portal(os, first, proxy),
    ensures
        goes_on(reg, visit_references(os, reg, items, fuel)),
    decreases items.len(),
{
    if items.len() > 0 {
        lemma_references(os, first, reg, items.drop_last(), fuel);
        let r = visit_references(os, reg, items.drop_last(), fuel);
        match items.last() {
            Plist::Dict(es) => match (
                str_of(lookup(es, "ProductGroup"@)),
                str_of(lookup(es, "ProjectRef"@)),
            ) {
                (Some(group), Some(project)) => {
                    let out = visit_group(os, r, project, group, fuel);
                    lemma_group(os, first, out, r, project, group, fuel);
                },
                _ => {},
            },
            _ => {},
        }
    }
}

/// Some visits go on, if each of them does.
proof fn lemma_all(
    first: Registry,
    reg: Registry,
    us: Seq<Seq<char>>,
    visit: spec_fn(Registry, Seq<char>) -> Registry,
)
    requires
        keeps(first, reg),
        forall|r: Registry, u: Seq<char>|
            keeps(first, r) && us.contains(u) ==> goes_on(r, #[trigger] visit(r, u)),
    ensures
        goes_on(reg, visit_all(reg, us, visit)),
    decreases us.len(),
{
    if us.len() > 0 {
        let front = us.drop_last();
        assert forall|r: Registry, u: Seq<char>|
            keeps(first, r) && front.contains(u) implies goes_on(r, #[trigger] visit(r, u)) by {
            let i = choose|i: int| 0 <= i < front.len() && front[i] == u;
            assert(us[i] == u);
        }
        lemma_all(first, reg, front, visit);
        let r = visit_all(reg, front, visit);
        assert(us.contains(us.last())) by {
            assert(us[us.len() - 1] == us.last());
        }
        assert(goes_on(r, visit(r, us.last())));
    }
}

proof fn lemma_configuration_list(os: Objects, reg: Registry, parent: Seq<char>, u: Seq<char>)
    ensures
        goes_on(reg, visit_configuration_list(os, reg, parent, u)),
{
    if is_object(os, u) {
        let name = or_text(text_field(os, u, "defaultConfigurationName"@), "Release"@);
        lemma_register(reg, parent, u, name, "XCConfigurationList"@);
        let r0 = register(reg, parent, u, name, "XCConfigurationList"@);
        let visit = |r: Registry, c: Seq<char>| visit_configuration(os, r, u, c);
        let us = list_field(os, u, "buildConfigurations"@);
        assert forall|r: Registry, c: Seq<char>| keeps(r0, r) && us.contains(c) implies goes_on(
            r,
            #[trigger] visit(r, c),
        ) by {
            lemma_register(
                r,
                u,
                c,
                or_text(text_field(os, c, "name"@), "Release"@),
                "XCBuildConfiguration"@,
            );
        }
        lemma_all(r0, r0, us, visit);
    }
}

proof fn lemma_dependency(
    os: Objects,
    targets: Seq<Seq<char>>,
    main: Registry,
    reg: Registry,
    parent: Seq<char>,
    u: Seq<char>,
)
    requires
        has_target(os, targets, main, u),
        keeps(main, reg),
        forall|t: Seq<char>| #[trigger] targets.contains(t) ==> is_known(reg, t),
    ensures
        goes_on(reg, visit_dependency(os, reg, parent, u)),
{
    if is_object(os, u) {
        let component = match text_field(os, u, "target"@) {
            Some(target) => or_text(path_of(reg, target), target),
            None => or_text(text_field(os, u, "name"@), u),
        };
        if text_field(os, u, "target"@) is Some {
            assert(is_known(reg, text_field(os, u, "target"@)->Some_0));
        }
        lemma_register(reg, parent, u, component, "PBXTargetDependency"@);
        let r = register(reg, parent, u, component, "PBXTargetDependency"@);
        if text_field(os, u, "targetProxy"@) is Some {
            let proxy = text_field(os, u, "targetProxy"@)->Some_0;
            if text_field(os, proxy, "containerPortal"@) is Some {
                let portal = text_field(os, proxy, "containerPortal"@)->Some_0;
                assert(is_known(main, portal));
                assert(is_known(reg, portal));
                assert(is_known(r, portal));
            }
            lemma_proxy(os, r, u, proxy);
        }
    }
}

proof fn lemma_phase(os: Objects, reg: Registry, parent: Seq<char>, u: Seq<char>)
    ensures
        goes_on(reg, visit_phase(os, reg, parent, u)),
{
    if is_object(os, u) {
        let isa = or_text(text_field(os, u, "isa"@), "PBXBuildPhase"@);
        lemma_register(reg, parent, u, phase_component(os, u, isa), isa);
        let r0 = register(reg, parent, u, phase_component(os, u, isa), isa);
        let visit = |r: Registry, f: Seq<char>| visit_build_file(os, r, u, f);
        let us = list_field(os, u, "files"@);
        assert forall|r: Registry, f: Seq<char>| keeps(r0, r) && us.contains(f) implies goes_on(
            r,
            #[trigger] visit(r, f),
        ) by {
            if referenced(os, f) is Some {
                let reference = referenced(os, f)->Some_0;
                if path_of(r, reference) is Some {
                    lemma_register(r, u, f, path_of(r, reference)->Some_0, "PBXBuildFile"@);
                }
            }
        }
        lemma_all(r0, r0, us, visit);
    }
}

proof fn lemma_rule(os: Objects, reg: Registry, parent: Seq<char>, u: Seq<char>)
    ensures
        goes_on(reg, visit_rule(os, reg, parent, u)),
{
    if is_object(os, u) {
        let file_type = or_text(text_field(os, u, "fileType"@), "unknown"@);
        let component = if file_type == "pattern.proxy"@ {
            file_type + "/"@ + or_text(text_field(os, u, "filePatterns"@), Seq::empty())
        } else {
            file_type
        };
        lemma_register(reg, parent, u, component, "PBXBuildRule"@);
    }
}

proof fn lemma_package(os: Objects, reg: Registry, parent: Seq<char>, u: Seq<char>)
    requires
        has_url(os, u),
    ensures
        goes_on(reg, visit_package(os, reg, parent, u)),
{
    lemma_register(
        reg,
        parent,
        u,
        or_text(text_field(os, u, "repositoryURL"@), u),
        "XCRemoteSwiftPackageReference"@,
    );
}

proof fn lemma_product(
    os: Objects,
    root: Seq<char>,
    reg: Registry,
    parent: Seq<char>,
    u: Seq<char>,
)
    requires
        has_product_name(os, u),
    ensures
        goes_on(reg, visit_product(os, root, reg, parent, u)),
{
    if !is_known(reg, u) && is_object(os, u) {
        let name = or_text(text_field(os, u, "productName"@), u);
        lemma_register(reg, parent, u, name, "XCSwiftPackageProductDependency"@);
        let r = register(reg, parent, u, name, "XCSwiftPackageProductDependency"@);
        if text_field(os, u, "package"@) is Some {
            lemma_package(os, r, root, text_field(os, u, "package"@)->Some_0);
        }
    }
}

proof fn lemma_target_early(os: Objects, reg: Registry, parent: Seq<char>, u: Seq<char>)
    requires
        text_field(os, u, "name"@) is Some,
    ensures
        goes_on(reg, visit_target_early(os, reg, parent, u)),
        is_known(visit_target_early(os, reg, parent, u), u),
{
    let name = text_field(os, u, "name"@);
    let product = or_text(or_else(text_field(os, u, "productName"@), name), u);
    lemma_register(
        reg,
        parent,
        u,
        product + "/"@ + or_text(name, u),
        or_text(text_field(os, u, "isa"@), "PBXTarget"@),
    );
}

proof fn lemma_targets_early(os: Objects, reg: Registry, root: Seq<char>, us: Seq<Seq<char>>)
    requires
        forall|t: Seq<char>| #[trigger] us.contains(t) ==> text_field(os, t, "name"@) is Some,
    ensures
        ({
            let out = visit_all(
                reg,
                us,
                |r: Registry, x: Seq<char>| visit_target_early(os, r, root, x),
            );
            &&& goes_on(reg, out)
            &&& forall|t: Seq<char>| #[trigger] us.contains(t) ==> is_known(out, t)
        }),
    decreases us.len(),
{
    let visit = |r: Registry, x: Seq<char>| visit_target_early(os, r, root, x);
    if us.len() > 0 {
        let front = us.drop_last();
        assert forall|t: Seq<char>| #[trigger] front.contains(t) implies text_field(
            os,
            t,
            "name"@,
        ) is Some by {
            let i = choose|i: int| 0 <= i < front.len() && front[i] == t;
            assert(us[i] == t);
            assert(us.contains(t));
        }
        lemma_targets_early(os, reg, root, front);
        let r = visit_all(reg, front, visit);
        assert(us[us.len() - 1] == us.last());
        assert(us.contains(us.last()));
        lemma_target_early(os, r, root, us.last());
        let out = visit_all(reg, us, visit);
        assert(out == visit_target_early(os, r, root, us.last()));
        assert forall|t: Seq<char>| #[trigger] us.contains(t) implies is_known(out, t) by {
            let i = choose|i: int| 0 <= i < us.len() && us[i] == t;
            if i < us.len() - 1 {
                assert(front[i] == t);
                assert(front.contains(t));
                assert(is_known(r, t));
            }
        }
    }
}

#[verifier::rlimit(40)]
#[verifier::spinoff_prover]
proof fn lemma_target(
    os: Objects,
    root: Seq<char>,
    targets: Seq<Seq<char>>,
    main: Registry,
    reg: Registry,
    u: Seq<char>,
)
    requires
        keeps(main, reg),
        forall|t: Seq<char>| #[trigger] targets.contains(t) ==> is_known(reg, t),
        forall|x: Seq<char>| #[trigger]
            list_field(os, u, "dependencies"@).contains(x) ==> has_target(os, targets, main, x),
        forall|x: Seq<char>| #[trigger]
            list_field(os, u, "packageProductDependencies"@).contains(x) ==> has_product_name(
                os,
                x,
            ),
    ensures
        goes_on(reg, visit_target(os, root, reg, u)),
{
    if is_object(os, u) {
        let list = text_field(os, u, "buildConfigurationList"@);
        let r1 = match list {
            Some(list) => visit_configuration_list(os, reg, u, list),
            None => reg,
        };
        if list is Some {
            lemma_configuration_list(os, reg, u, list->Some_0);
        }
        let visit = |r: Registry, x: Seq<char>| visit_dependency(os, r, u, x);
        let us = list_field(os, u, "dependencies"@);
        assert forall|r: Registry, x: Seq<char>| keeps(r1, r) && us.contains(x) implies goes_on(
            r,
            #[trigger] visit(r, x),
        ) by {
            assert forall|t: Seq<char>| #[trigger] targets.contains(t) implies is_known(r, t) by {
                assert(is_known(reg, t));
                assert(is_known(r1, t));
            }
            assert(keeps(main, r)) by {
                assert forall|t: Seq<char>| #[trigger] is_known(main, t) implies is_known(r, t) by {
                    assert(is_known(reg, t));
                    assert(is_known(r1, t));
                }
            }
            lemma_dependency(os, targets, main, r, u, x);
        }
        lemma_all(r1, r1, us, visit);
        let r2 = visit_all(r1, us, visit);
        lemma_phases(os, r2, u, list_field(os, u, "buildPhases"@));
        let r3 = visit_all(
            r2,
            list_field(os, u, "buildPhases"@),
            |r: Registry, x: Seq<char>| visit_phase(os, r, u, x),
        );
        lemma_rules(os, r3, u, list_field(os, u, "buildRules"@));
        let r4 = visit_all(
            r3,
            list_field(os, u, "buildRules"@),
            |r: Registry, x: Seq<char>| visit_rule(os, r, u, x),
        );
        lemma_products(os, root, r4, u, list_field(os, u, "packageProductDependencies"@));
    }
}

proof fn lemma_phases(os: Objects, reg: Registry, u: Seq<char>, us: Seq<Seq<char>>)
    ensures
        goes_on(
            reg,
            visit_all(reg, us, |r: Registry, x: Seq<char>| visit_phase(os, r, u, x)),
        ),
{
    let visit = |r: Registry, x: Seq<char>| visit_phase(os, r, u, x);
    assert forall|r: Registry, x: Seq<char>| keeps(reg, r) && us.contains(x) implies goes_on(
        r,
        #[trigger] visit(r, x),
    ) by {
        lemma_phase(os, r, u, x);
    }
    lemma_all(reg, reg, us, visit);
}

proof fn lemma_rules(os: Objects, reg: Registry, u: Seq<char>, us: Seq<Seq<char>>)
    ensures
        goes_on(reg, visit_all(reg, us, |r: Registry, x: Seq<char>| visit_rule(os, r, u, x))),
{
    let visit = |r: Registry, x: Seq<char>| visit_rule(os, r, u, x);
    assert forall|r: Registry, x: Seq<char>| keeps(reg, r) && us.contains(x) implies goes_on(
        r,
        #[trigger] visit(r, x),
    ) by {
        lemma_rule(os, r, u, x);
    }
    lemma_all(reg, reg, us, visit);
}

proof fn lemma_products(
    os: Objects,
    root: Seq<char>,
    reg: Registry,
    u: Seq<char>,
    us: Seq<Seq<char>>,
)
    requires
        forall|x: Seq<char>| #[trigger] us.contains(x) ==> has_product_name(os, x),
    ensures
        goes_on(
            reg,
            visit_all(reg, us, |r: Registry, x: Seq<char>| visit_product(os, root, r, u, x)),
        ),
{
    let visit = |r: Registry, x: Seq<char>| visit_product(os, root, r, u, x);
    assert forall|r: Registry, x: Seq<char>| keeps(reg, r) && us.contains(x) implies goes_on(
        r,
        #[trigger] visit(r, x),
    ) by {
        lemma_product(os, root, r, u, x);
    }
    lemma_all(reg, reg, us, visit);
}

// ── Whole projects ───────────────────────────────────────────────────────────

/// Where everything that paths need is named, no UUID stands in a path.
#[verifier::rlimit(40)]
#[verifier::spinoff_prover]
pub proof fn law_names_keep_uuids_out_of_paths(project: Project, name: Seq<char>)
    requires
        is_named(project, name),
    ensures
        registry(project, name).exposed.len() == 0,
{
    reveal(registry);
    let os = project.objects;
    let root = project.root_object;
    let fuel = os.len() + 1;
    let r0 = only_root(project, name);
    let r1 = with_main_group(project, name);
    let group = text_field(os, root, "mainGroup"@);
    if group is Some {
        lemma_group(os, r0, r1, r0, root, group->Some_0, fuel);
    }
    assert(goes_on(r0, r1));
    let list = text_field(os, root, "buildConfigurationList"@);
    let r2 = match list {
        Some(list) => visit_configuration_list(os, r1, root, list),
        None => r1,
    };
    if list is Some {
        lemma_configuration_list(os, r1, root, list->Some_0);
    }
    let r3 = match field(os, root, "projectReferences"@) {
        Some(Plist::Array(items)) => visit_references(os, r2, items, fuel),
        _ => r2,
    };
    if field(os, root, "projectReferences"@) is Some {
        if let Plist::Array(items) = field(os, root, "projectReferences"@)->Some_0 {
            lemma_references(os, r1, r2, items, fuel);
        }
    }
    assert(goes_on(r2, r3));
    let packages = list_field(os, root, "packageReferences"@);
    let visit = |r: Registry, x: Seq<char>| visit_package(os, r, root, x);
    assert forall|r: Registry, x: Seq<char>| keeps(r3, r) && packages.contains(x) implies goes_on(
        r,
        #[trigger] visit(r, x),
    ) by {
        lemma_package(os, r, root, x);
    }
    lemma_all(r3, r3, packages, visit);
    let r4 = visit_all(r3, packages, visit);
    let targets = list_field(os, root, "targets"@);
    lemma_targets_early(os, r4, root, targets);
    let r5 = visit_all(
        r4,
        targets,
        |r: Registry, x: Seq<char>| visit_target_early(os, r, root, x),
    );
    lemma_keeps(r1, r2, r3);
    lemma_keeps(r1, r3, r4);
    lemma_keeps(r1, r4, r5);
    lemma_targets(project, name, r5);
}

proof fn lemma_keeps(a: Registry, b: Registry, c: Registry)
    requires
        keeps(a, b),
        keeps(b, c),
    ensures
        keeps(a, c),
{
    assert forall|u: Seq<char>| #[trigger] is_known(a, u) implies is_known(c, u) by {
        assert(is_known(b, u));
    }
}

proof fn lemma_targets(project: Project, name: Seq<char>, reg: Registry)
    requires
        is_named(project, name),
        keeps(with_main_group(project, name), reg),
        forall|t: Seq<char>| #[trigger]
            list_field(project.objects, project.root_object, "targets"@).contains(t) ==> is_known(
                reg,
                t,
            ),
    ensures
        goes_on(
            reg,
            visit_all(
                reg,
                list_field(project.objects, project.root_object, "targets"@),
                |r: Registry, x: Seq<char>|
                    visit_target(project.objects, project.root_object, r, x),
            ),
        ),
{
    let os = project.objects;
    let root = project.root_object;
    let main = with_main_group(project, name);
    let targets = list_field(os, root, "targets"@);
    let visit = |r: Registry, x: Seq<char>| visit_target(os, root, r, x);
    assert forall|r: Registry, t: Seq<char>| keeps(reg, r) && targets.contains(t) implies goes_on(
        r,
        #[trigger] visit(r, t),
    ) by {
        lemma_keeps(main, reg, r);
        assert forall|x: Seq<char>| #[trigger] targets.contains(x) implies is_known(r, x) by {
            assert(is_known(reg, x));
        }
        lemma_target(os, root, targets, main, r, t);
    }
    lemma_all(reg, reg, targets, visit);
}

/// Two projects that differ only in the UUIDs of their objects, and name
/// everything that paths need, get the same paths and the same new UUIDs, object
/// by object.
pub proof fn law_named_projects_ignore_old_uuids(
    f: Renaming,
    p: Project,
    q: Project,
    name: Seq<char>,
)
    requires
        is_renamed(f, p, q),
        is_named(p, name),
    ensures
        ({
            let a = registry(p, name);
            let b = registry(q, name);
            &&& a.rows.len() == b.rows.len()
            &&& forall|i: int|
                0 <= i < a.rows.len() ==> #[trigger] b.rows[i] == (f(a.rows[i].0), a.rows[i].1)
            &&& b.remove == map_all(f, a.remove)
        }),
{
    law_names_keep_uuids_out_of_paths(p, name);
    assert(is_fixed(f, registry(p, name).exposed));
    law_new_uuids_ignore_old_ones(f, p, q, name);
}

} // verus!
