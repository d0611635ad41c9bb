//! What holds of the new UUIDs as a whole.

use crate::parser::{Plist, Project};
use crate::table::{lemma_slot, lookup, upsert};
use crate::uniquifier::{
    expose, is_object, list_field, md5_hex, register, registry, typed_path, visit_all,
    visit_build_file, visit_children, visit_configuration, visit_configuration_list,
    visit_dependency, visit_group, visit_package, visit_phase, visit_product, visit_proxy,
    visit_references, visit_rule, visit_target, visit_target_early, Objects, Registry, Rows,
};
use vstd::prelude::*;

verus! {

// ── New UUIDs come from paths ────────────────────────────────────────────────

/// The path under which an object of another project is registered.
pub open spec fn remote_path(path: Seq<char>) -> Seq<char> {
    "PBXContainerItemProxy#remoteGlobalIDString["@ + path + "]"@
}

/// The new UUID is the digest of the path; for an object of another project, of
/// the path that its registered path is made of.
pub open spec fn is_derived(row: (Seq<char>, Seq<char>)) -> bool {
    row.1 == md5_hex(row.0) || exists|p: Seq<char>| row == (#[trigger] remote_path(p), md5_hex(p))
}

pub open spec fn all_derived(reg: Registry) -> bool {
    forall|i: int| 0 <= i < reg.rows.len() ==> is_derived((#[trigger] reg.rows[i]).1)
}

proof fn lemma_upsert_derived(rows: Rows, u: Seq<char>, row: (Seq<char>, Seq<char>))
    requires
        forall|i: int| 0 <= i < rows.len() ==> is_derived((#[trigger] rows[i]).1),
        is_derived(row),
    ensures
        forall|i: int|
            0 <= i < upsert(rows, u, row).len() ==> is_derived(
                (#[trigger] upsert(rows, u, row)[i]).1,
            ),
{
    lemma_slot(rows, u);
    let r = upsert(rows, u, row);
    assert forall|i: int| 0 <= i < r.len() implies is_derived((#[trigger] r[i]).1) by {
        if i < rows.len() && r[i] != (u, row) {
            assert(r[i] == rows[i]);
        }
    }
}

proof fn lemma_register_derived(
    reg: Registry,
    parent: Seq<char>,
    u: Seq<char>,
    component: Seq<char>,
    isa: Seq<char>,
)
    requires
        all_derived(reg),
    ensures
        all_derived(register(reg, parent, u, component, isa)),
{
    let path = typed_path(reg, parent, component, isa);
    lemma_upsert_derived(reg.rows, u, (path, md5_hex(path)));
}

proof fn lemma_proxy_derived(os: Objects, reg: Registry, parent: Seq<char>, u: Seq<char>)
    requires
        all_derived(reg),
    ensures
        all_derived(visit_proxy(os, reg, parent, u)),
{
    if is_object(os, u) {
        let info = crate::uniquifier::or_text(
            crate::uniquifier::text_field(os, u, "remoteInfo"@),
            Seq::empty(),
        );
        let component = "PBXContainerItemProxy/"@ + info;
        lemma_register_derived(reg, parent, u, component, "PBXContainerItemProxy"@);
        let r = register(reg, parent, u, component, "PBXContainerItemProxy"@);
        let remote = crate::uniquifier::text_field(os, u, "remoteGlobalIDString"@);
        let portal = crate::uniquifier::text_field(os, u, "containerPortal"@);
        if remote is Some && lookup(r.rows, remote->Some_0) is None && portal is Some {
            let path = crate::uniquifier::or_text(
                crate::uniquifier::path_of(r, u),
                Seq::empty(),
            ) + "+"@ + crate::uniquifier::or_text(
                crate::uniquifier::path_of(r, portal->Some_0),
                portal->Some_0,
            );
            assert(is_derived((remote_path(path), md5_hex(path))));
            lemma_upsert_derived(r.rows, remote->Some_0, (remote_path(path), md5_hex(path)));
        }
    }
}

proof fn lemma_group_derived(
    os: Objects,
    reg: Registry,
    parent: Seq<char>,
    u: Seq<char>,
    fuel: nat,
)
    requires
        all_derived(reg),
    ensures
        all_derived(visit_group(os, reg, parent, u, fuel)),
    decreases fuel, 0nat,
{
    if fuel > 0 && is_object(os, u) {
        let name = crate::uniquifier::or_text(
            crate::uniquifier::or_else(
                crate::uniquifier::text_field(os, u, "name"@),
                crate::uniquifier::text_field(os, u, "path"@),
            ),
            "PBXRootGroup"@,
        );
        let isa = crate::uniquifier::or_text(
            crate::uniquifier::text_field(os, u, "isa"@),
            "PBXGroup"@,
        );
        lemma_register_derived(reg, parent, u, name, isa);
        let r1 = register(reg, parent, u, name, isa);
        let kids = list_field(os, u, "children"@);
        lemma_children_derived(os, r1, u, kids, (fuel - 1) as nat);
        let r2 = visit_children(os, r1, u, kids, (fuel - 1) as nat);
        let remote = crate::uniquifier::text_field(os, u, "remoteRef"@);
        if remote is Some {
            lemma_proxy_derived(os, r2, u, remote->Some_0);
        }
    }
}

proof fn lemma_children_derived(
    os: Objects,
    reg: Registry,
    parent: Seq<char>,
    us: Seq<Seq<char>>,
    fuel: nat,
)
    requires
        all_derived(reg),
    ensures
        all_derived(visit_children(os, reg, parent, us, fuel)),
    decreases fuel, us.len() + 1,
{
    if us.len() > 0 {
        lemma_children_derived(os, reg, parent, us.drop_last(), fuel);
        lemma_group_derived(
            os,
            visit_children(os, reg, parent, us.drop_last(), fuel),
            parent,
            us.last(),
            fuel,
        );
    }
}

/// A visit keeps the property.
spec fn keeps_derived(visit: spec_fn(Registry, Seq<char>) -> Registry) -> bool {
    forall|r: Registry, u: Seq<char>| all_derived(r) ==> all_derived(#[trigger] visit(r, u))
}

proof fn lemma_all_derived(
    reg: Registry,
    us: Seq<Seq<char>>,
    visit: spec_fn(Registry, Seq<char>) -> Registry,
)
    requires
        all_derived(reg),
        keeps_derived(visit),
    ensures
        all_derived(visit_all(reg, us, visit)),
    decreases us.len(),
{
    if us.len() > 0 {
        lemma_all_derived(reg, us.drop_last(), visit);
        let r = visit_all(reg, us.drop_last(), visit);
        assert(all_derived(visit(r, us.last())));
    }
}

proof fn lemma_references_derived(os: Objects, reg: Registry, items: Seq<Plist>, fuel: nat)
    requires
        all_derived(reg),
    ensures
        all_derived(visit_references(os, reg, items, fuel)),
    decreases items.len(),
{
    if items.len() > 0 {
        lemma_references_derived(os, reg, items.drop_last(), fuel);
        let r = visit_references(os, reg, items.drop_last(), fuel);
        if let Plist::Dict(es) = items.last() {
            let g = crate::parser::str_of(lookup(es, "ProductGroup"@));
            let p = crate::parser::str_of(lookup(es, "ProjectRef"@));
            if g is Some && p is Some {
                lemma_group_derived(os, r, p->Some_0, g->Some_0, fuel);
            }
        }
    }
}

proof fn lemma_configuration_list_derived(
    os: Objects,
    reg: Registry,
    parent: Seq<char>,
    u: Seq<char>,
)
    requires
        all_derived(reg),
    ensures
        all_derived(visit_configuration_list(os, reg, parent, u)),
{
    if is_object(os, u) {
        let name = crate::uniquifier::or_text(
            crate::uniquifier::text_field(os, u, "defaultConfigurationName"@),
            "Release"@,
        );
        lemma_register_derived(reg, parent, u, name, "XCConfigurationList"@);
        let visit = |r: Registry, c: Seq<char>| visit_configuration(os, r, u, c);
        assert forall|r: Registry, c: Seq<char>| all_derived(r) implies all_derived(
            #[trigger] visit(r, c),
        ) by {
            lemma_register_derived(
                r,
                u,
                c,
                crate::uniquifier::or_text(
                    crate::uniquifier::text_field(os, c, "name"@),
                    "Release"@,
                ),
                "XCBuildConfiguration"@,
            );
        }
        lemma_all_derived(
            register(reg, parent, u, name, "XCConfigurationList"@),
            list_field(os, u, "buildConfigurations"@),
            visit,
        );
    }
}

proof fn lemma_dependency_derived(os: Objects, reg: Registry, parent: Seq<char>, u: Seq<char>)
    requires
        all_derived(reg),
    ensures
        all_derived(visit_dependency(os, reg, parent, u)),
{
    if is_object(os, u) {
        let component = match crate::uniquifier::text_field(os, u, "target"@) {
            Some(target) => crate::uniquifier::or_text(
                crate::uniquifier::path_of(reg, target),
                target,
            ),
            None => crate::uniquifier::or_text(crate::uniquifier::text_field(os, u, "name"@), u),
        };
        let e = match crate::uniquifier::text_field(os, u, "target"@) {
            Some(target) => expose(
                reg,
                crate::uniquifier::path_of(reg, target) is Some,
                target,
            ),
            None => expose(reg, crate::uniquifier::text_field(os, u, "name"@) is Some, u),
        };
        lemma_register_derived(e, parent, u, component, "PBXTargetDependency"@);
        let r = register(e, parent, u, component, "PBXTargetDependency"@);
        let proxy = crate::uniquifier::text_field(os, u, "targetProxy"@);
        if proxy is Some {
            lemma_proxy_derived(os, r, u, proxy->Some_0);
        }
    }
}

proof fn lemma_phase_derived(os: Objects, reg: Registry, parent: Seq<char>, u: Seq<char>)
    requires
        all_derived(reg),
    ensures
        all_derived(visit_phase(os, reg, parent, u)),
{
    if is_object(os, u) {
        let isa = crate::uniquifier::or_text(
            crate::uniquifier::text_field(os, u, "isa"@),
            "PBXBuildPhase"@,
        );
        let component = crate::uniquifier::phase_component(os, u, isa);
        lemma_register_derived(reg, parent, u, component, isa);
        let visit = |r: Registry, f: Seq<char>| visit_build_file(os, r, u, f);
        assert forall|r: Registry, f: Seq<char>| all_derived(r) implies all_derived(
            #[trigger] visit(r, f),
        ) by {
            let reference = crate::uniquifier::referenced(os, f);
            if reference is Some {
                let path = crate::uniquifier::path_of(r, reference->Some_0);
                if path is Some {
                    lemma_register_derived(r, u, f, path->Some_0, "PBXBuildFile"@);
                }
            }
        }
        lemma_all_derived(
            register(reg, parent, u, component, isa),
            list_field(os, u, "files"@),
            visit,
        );
    }
}

proof fn lemma_rule_derived(os: Objects, reg: Registry, parent: Seq<char>, u: Seq<char>)
    requires
        all_derived(reg),
    ensures
        all_derived(visit_rule(os, reg, parent, u)),
{
    if is_object(os, u) {
        let file_type = crate::uniquifier::or_text(
            crate::uniquifier::text_field(os, u, "fileType"@),
            "unknown"@,
        );
        let component = if file_type == "pattern.proxy"@ {
            file_type + "/"@ + crate::uniquifier::or_text(
                crate::uniquifier::text_field(os, u, "filePatterns"@),
                Seq::empty(),
            )
        } else {
            file_type
        };
        lemma_register_derived(reg, parent, u, component, "PBXBuildRule"@);
    }
}

proof fn lemma_package_derived(os: Objects, reg: Registry, parent: Seq<char>, u: Seq<char>)
    requires
        all_derived(reg),
    ensures
        all_derived(visit_package(os, reg, parent, u)),
{
    lemma_register_derived(
        expose(reg, crate::uniquifier::text_field(os, u, "repositoryURL"@) is Some, u),
        parent,
        u,
        crate::uniquifier::or_text(crate::uniquifier::text_field(os, u, "repositoryURL"@), u),
        "XCRemoteSwiftPackageReference"@,
    );
}

proof fn lemma_product_derived(
    os: Objects,
    root: Seq<char>,
    reg: Registry,
    parent: Seq<char>,
    u: Seq<char>,
)
    requires
        all_derived(reg),
    ensures
        all_derived(visit_product(os, root, reg, parent, u)),
{
    let name = crate::uniquifier::or_text(crate::uniquifier::text_field(os, u, "productName"@), u);
    let e = expose(reg, crate::uniquifier::text_field(os, u, "productName"@) is Some, u);
    lemma_register_derived(e, parent, u, name, "XCSwiftPackageProductDependency"@);
    let r = register(e, parent, u, name, "XCSwiftPackageProductDependency"@);
    let package = crate::uniquifier::text_field(os, u, "package"@);
    if package is Some {
        lemma_package_derived(os, r, root, package->Some_0);
    }
}

proof fn lemma_target_derived(os: Objects, root: Seq<char>, reg: Registry, u: Seq<char>)
    requires
        all_derived(reg),
    ensures
        all_derived(visit_target(os, root, reg, u)),
{
    if is_object(os, u) {
        let list = crate::uniquifier::text_field(os, u, "buildConfigurationList"@);
        let r1 = match list {
            Some(l) => visit_configuration_list(os, reg, u, l),
            None => reg,
        };
        if list is Some {
            lemma_configuration_list_derived(os, reg, u, list->Some_0);
        }
        let v2 = |r: Registry, x: Seq<char>| visit_dependency(os, r, u, x);
        let v3 = |r: Registry, x: Seq<char>| visit_phase(os, r, u, x);
        let v4 = |r: Registry, x: Seq<char>| visit_rule(os, r, u, x);
        let v5 = |r: Registry, x: Seq<char>| visit_product(os, root, r, u, x);
        assert forall|r: Registry, x: Seq<char>| all_derived(r) implies all_derived(
            #[trigger] v2(r, x),
        ) by {
            lemma_dependency_derived(os, r, u, x);
        }
        assert forall|r: Registry, x: Seq<char>| all_derived(r) implies all_derived(
            #[trigger] v3(r, x),
        ) by {
            lemma_phase_derived(os, r, u, x);
        }
        assert forall|r: Registry, x: Seq<char>| all_derived(r) implies all_derived(
            #[trigger] v4(r, x),
        ) by {
            lemma_rule_derived(os, r, u, x);
        }
        assert forall|r: Registry, x: Seq<char>| all_derived(r) implies all_derived(
            #[trigger] v5(r, x),
        ) by {
            lemma_product_derived(os, root, r, u, x);
        }
        lemma_all_derived(r1, list_field(os, u, "dependencies"@), v2);
        let r2 = visit_all(r1, list_field(os, u, "dependencies"@), v2);
        lemma_all_derived(r2, list_field(os, u, "buildPhases"@), v3);
        let r3 = visit_all(r2, list_field(os, u, "buildPhases"@), v3);
        lemma_all_derived(r3, list_field(os, u, "buildRules"@), v4);
        let r4 = visit_all(r3, list_field(os, u, "buildRules"@), v4);
        lemma_all_derived(r4, list_field(os, u, "packageProductDependencies"@), v5);
    }
}

/// Every new UUID is the digest of a path: of the object's own, or, for an
/// object of another project, of the path that it is reached by.
#[verifier::rlimit(30)]
pub proof fn law_uuids_come_from_paths(project: Project, name: Seq<char>)
    ensures
        all_derived(registry(project, name)),
{
    reveal(registry);
    let os = project.objects;
    let root = project.root_object;
    let fuel = os.len() + 1;
    let r0 = Registry {
        rows: seq![(root, (name, md5_hex(name)))],
        remove: Seq::empty(),
        warnings: Seq::empty(),
        exposed: Seq::empty(),
    };
    assert(all_derived(r0));
    let group = crate::uniquifier::text_field(os, root, "mainGroup"@);
    if group is Some {
        lemma_group_derived(os, r0, root, group->Some_0, fuel);
    }
    let r1 = match group {
        Some(g) => visit_group(os, r0, root, g, fuel),
        None => r0,
    };
    let list = crate::uniquifier::text_field(os, root, "buildConfigurationList"@);
    if list is Some {
        lemma_configuration_list_derived(os, r1, root, list->Some_0);
    }
    let r2 = match list {
        Some(l) => visit_configuration_list(os, r1, root, l),
        None => r1,
    };
    let refs = crate::parser::field(os, root, "projectReferences"@);
    let r3 = match refs {
        Some(Plist::Array(items)) => visit_references(os, r2, items, fuel),
        _ => r2,
    };
    if let Some(Plist::Array(items)) = refs {
        lemma_references_derived(os, r2, items, fuel);
    }
    let v4 = |r: Registry, x: Seq<char>| visit_package(os, r, root, x);
    assert forall|r: Registry, x: Seq<char>| all_derived(r) implies all_derived(
        #[trigger] v4(r, x),
    ) by {
        lemma_package_derived(os, r, root, x);
    }
    lemma_all_derived(r3, list_field(os, root, "packageReferences"@), v4);
    let r4 = visit_all(r3, list_field(os, root, "packageReferences"@), v4);
    let targets = list_field(os, root, "targets"@);
    let v5 = |r: Registry, x: Seq<char>| visit_target_early(os, r, root, x);
    assert forall|r: Registry, x: Seq<char>| all_derived(r) implies all_derived(
        #[trigger] v5(r, x),
    ) by {
        let n = crate::uniquifier::text_field(os, x, "name"@);
        let product = crate::uniquifier::or_text(
            crate::uniquifier::or_else(crate::uniquifier::text_field(os, x, "productName"@), n),
            x,
        );
        lemma_register_derived(
            expose(r, n is Some, x),
            root,
            x,
            product + "/"@ + crate::uniquifier::or_text(n, x),
            crate::uniquifier::or_text(
                crate::uniquifier::text_field(os, x, "isa"@),
                "PBXTarget"@,
            ),
        );
    }
    lemma_all_derived(r4, targets, v5);
    let r5 = visit_all(r4, targets, v5);
    let v6 = |r: Registry, x: Seq<char>| visit_target(os, root, r, x);
    assert forall|r: Registry, x: Seq<char>| all_derived(r) implies all_derived(
        #[trigger] v6(r, x),
    ) by {
        lemma_target_derived(os, root, r, x);
    }
    lemma_all_derived(r5, targets, v6);
}

/// Objects with one path get one UUID, unless the path is that of an object of
/// another project.
pub proof fn law_one_path_one_uuid(project: Project, name: Seq<char>, i: int, j: int)
    requires
        0 <= i < registry(project, name).rows.len(),
        0 <= j < registry(project, name).rows.len(),
        registry(project, name).rows[i].1.0 == registry(project, name).rows[j].1.0,
        forall|p: Seq<char>| registry(project, name).rows[i].1.0 != #[trigger] remote_path(p),
    ensures
        registry(project, name).rows[i].1.1 == registry(project, name).rows[j].1.1,
{
    law_uuids_come_from_paths(project, name);
    let reg = registry(project, name);
    assert(is_derived(reg.rows[i].1));
    assert(is_derived(reg.rows[j].1));
}

} // verus!
