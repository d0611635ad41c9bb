//! What is dropped of a project.

use crate::closure_laws::{ease_project_stage, lemma_project_stages, project_stage};
use crate::link_laws::{
    ease_file, ease_phase, ease_rule, ease_target, ease_target_stage, eases, group_isa, group_name,
    lemma_eases_on, lemma_target_stages, phase_isa, target_stage,
};
use crate::naming_laws::{is_known, with_main_group};
use crate::parser::{field, Project};
use crate::plist::Plist;
use crate::renaming_laws::reference_of;
use crate::uniquifier::{
    is_object, list_field, or_text, path_of, phase_component, referenced, register, registry,
    text_field, visit_all, visit_build_file, visit_children, visit_configuration,
    visit_configuration_list, visit_dependency, visit_group, visit_package, visit_phase,
    visit_product, visit_proxy, visit_references, visit_rule, visit_target, visit_target_early,
    Objects, Registry,
};
use vstd::prelude::*;

verus! {

/// The build file of a phase refers to nothing, or to what is not in the tree of
/// files.
pub open spec fn is_loose_file(os: Objects, tree: Registry, w: Seq<char>, f: Seq<char>) -> bool {
    &&& list_field(os, w, "files"@).contains(f)
    &&& match referenced(os, f) {
        Some(x) => !is_known(tree, x),
        None => true,
    }
}

/// The UUID is that of no object; or that of a build file that refers to nothing in
/// the tree of files; or what such a build file refers to.
#[verifier::opaque]
pub open spec fn is_dangling(os: Objects, tree: Registry, u: Seq<char>) -> bool {
    ||| !is_object(os, u)
    ||| exists|w: Seq<char>, f: Seq<char>| #[trigger]
        is_loose_file(os, tree, w, f) && (f == u || referenced(os, f) == Some(u))
}

/// What the second registry drops, the first drops too, or it is dangling.
spec fn drops(os: Objects, tree: Registry, a: Registry, b: Registry) -> bool {
    forall|u: Seq<char>| #[trigger]
        b.remove.contains(u) ==> a.remove.contains(u) || is_dangling(os, tree, u)
}

proof fn lemma_drops_on(os: Objects, tree: Registry, a: Registry, b: Registry, c: Registry)
    requires
        drops(os, tree, a, b),
        drops(os, tree, b, c),
    ensures
        drops(os, tree, a, c),
{
    assert forall|u: Seq<char>| #[trigger] c.remove.contains(u) implies a.remove.contains(u)
        || is_dangling(os, tree, u) by {
        if !is_dangling(os, tree, u) {
            assert(b.remove.contains(u));
        }
    }
}

proof fn lemma_drops_one(os: Objects, tree: Registry, a: Registry, u: Seq<char>)
    requires
        is_dangling(os, tree, u),
    ensures
        drops(os, tree, a, crate::uniquifier::drop_uuid(a, u)),
{
    let b = crate::uniquifier::drop_uuid(a, u);
    assert forall|x: Seq<char>| #[trigger] b.remove.contains(x) implies a.remove.contains(x)
        || is_dangling(os, tree, x) by {
        let i = choose|i: int| 0 <= i < b.remove.len() && b.remove[i] == x;
        if i < a.remove.len() {
            assert(a.remove[i] == x);
        }
    }
}

proof fn drops_group(
    os: Objects,
    tree: Registry,
    reg: Registry,
    parent: Seq<char>,
    u: Seq<char>,
    fuel: nat,
)
    ensures
        drops(os, tree, reg, visit_group(os, reg, parent, u, fuel)),
    decreases fuel, 0nat,
{
    if fuel > 0 {
        if is_object(os, u) {
            let r0 = register(reg, parent, u, group_name(os, u), group_isa(os, u));
            let us = list_field(os, u, "children"@);
            let r = visit_children(os, r0, u, us, (fuel - 1) as nat);
            drops_children(os, tree, r0, u, us, (fuel - 1) as nat);
            lemma_drops_on(os, tree, reg, r0, r);
            if let Some(x) = text_field(os, u, "remoteRef"@) {
                assert(visit_proxy(os, r, u, x).remove == r.remove);
            }
        } else {
            reveal(is_dangling);
            lemma_drops_one(os, tree, reg, u);
        }
    }
}

proof fn drops_children(
    os: Objects,
    tree: Registry,
    reg: Registry,
    parent: Seq<char>,
    us: Seq<Seq<char>>,
    fuel: nat,
)
    ensures
        drops(os, tree, reg, visit_children(os, reg, parent, us, fuel)),
    decreases fuel, us.len() + 1,
{
    if us.len() > 0 {
        let r = visit_children(os, reg, parent, us.drop_last(), fuel);
        drops_children(os, tree, reg, parent, us.drop_last(), fuel);
        drops_group(os, tree, r, parent, us.last(), fuel);
        lemma_drops_on(os, tree, reg, r, visit_group(os, r, parent, us.last(), fuel));
    }
}

proof fn drops_references(
    os: Objects,
    tree: Registry,
    reg: Registry,
    items: Seq<Plist>,
    fuel: nat,
)
    ensures
        drops(os, tree, reg, visit_references(os, reg, items, fuel)),
    decreases items.len(),
{
    if items.len() > 0 {
        let r = visit_references(os, reg, items.drop_last(), fuel);
        drops_references(os, tree, reg, items.drop_last(), fuel);
        if let Some((group, project)) = reference_of(items.last()) {
            drops_group(os, tree, r, project, group, fuel);
            lemma_drops_on(os, tree, reg, r, visit_group(os, r, project, group, fuel));
        }
    }
}

/// Visits each of which drops only what is dangling, in a registry that holds the
/// tree.
proof fn drops_all(
    os: Objects,
    tree: Registry,
    reg: Registry,
    us: Seq<Seq<char>>,
    visit: spec_fn(Registry, Seq<char>) -> Registry,
)
    requires
        eases(tree, reg),
        forall|r: Registry, u: Seq<char>| eases(r, #[trigger] visit(r, u)),
        forall|r: Registry, u: Seq<char>|
            us.contains(u) && eases(tree, r) ==> drops(os, tree, r, #[trigger] visit(r, u)),
    ensures
        drops(os, tree, reg, visit_all(reg, us, visit)),
        eases(tree, visit_all(reg, us, visit)),
    decreases us.len(),
{
    if us.len() > 0 {
        let rest = us.drop_last();
        assert forall|r: Registry, u: Seq<char>|
            rest.contains(u) && eases(tree, r) implies drops(os, tree, r, #[trigger] visit(r, u)) by {
            let i = choose|i: int| 0 <= i < rest.len() && rest[i] == u;
            assert(us[i] == u);
        }
        drops_all(os, tree, reg, rest, visit);
        let r = visit_all(reg, rest, visit);
        let x = us.last();
        assert(us[us.len() - 1] == x);
        assert(us.contains(x));
        assert(eases(r, visit(r, x)));
        lemma_eases_on(tree, r, visit(r, x));
        lemma_drops_on(os, tree, reg, r, visit(r, x));
    }
}

/// Visits that drop nothing.
proof fn drops_none(
    os: Objects,
    tree: Registry,
    reg: Registry,
    us: Seq<Seq<char>>,
    visit: spec_fn(Registry, Seq<char>) -> Registry,
)
    requires
        forall|r: Registry, u: Seq<char>| (#[trigger] visit(r, u)).remove == r.remove,
    ensures
        visit_all(reg, us, visit).remove == reg.remove,
    decreases us.len(),
{
    if us.len() > 0 {
        drops_none(os, tree, reg, us.drop_last(), visit);
        let r = visit_all(reg, us.drop_last(), visit);
        assert(visit(r, us.last()).remove == r.remove);
    }
}

proof fn drops_list(os: Objects, tree: Registry, reg: Registry, parent: Seq<char>, u: Seq<char>)
    ensures
        visit_configuration_list(os, reg, parent, u).remove == reg.remove,
{
    if is_object(os, u) {
        let name = or_text(text_field(os, u, "defaultConfigurationName"@), "Release"@);
        let r0 = register(reg, parent, u, name, "XCConfigurationList"@);
        let visit = |r: Registry, c: Seq<char>| visit_configuration(os, r, u, c);
        drops_none(os, tree, r0, list_field(os, u, "buildConfigurations"@), visit);
    }
}

proof fn drops_file(os: Objects, tree: Registry, reg: Registry, parent: Seq<char>, u: Seq<char>)
    requires
        eases(tree, reg),
        list_field(os, parent, "files"@).contains(u),
    ensures
        drops(os, tree, reg, visit_build_file(os, reg, parent, u)),
{
    reveal(is_dangling);
    match referenced(os, u) {
        None => {
            assert(is_loose_file(os, tree, parent, u));
            lemma_drops_one(os, tree, reg, u);
        },
        Some(x) => {
            if path_of(reg, x) is None {
                assert(!is_known(reg, x));
                assert(!is_known(tree, x));
                assert(is_loose_file(os, tree, parent, u));
                let once = crate::uniquifier::drop_uuid(reg, u);
                lemma_drops_one(os, tree, reg, u);
                lemma_drops_one(os, tree, once, x);
                lemma_drops_on(
                    os,
                    tree,
                    reg,
                    once,
                    crate::uniquifier::drop_uuid(once, x),
                );
            }
        },
    }
}

proof fn drops_phase(os: Objects, tree: Registry, reg: Registry, parent: Seq<char>, u: Seq<char>)
    requires
        eases(tree, reg),
    ensures
        drops(os, tree, reg, visit_phase(os, reg, parent, u)),
{
    if is_object(os, u) {
        let isa = phase_isa(os, u);
        let r0 = register(reg, parent, u, phase_component(os, u, isa), isa);
        crate::link_laws::ease_register(reg, parent, u, phase_component(os, u, isa), isa);
        lemma_eases_on(tree, reg, r0);
        let us = list_field(os, u, "files"@);
        let visit = |r: Registry, f: Seq<char>| visit_build_file(os, r, u, f);
        assert forall|r: Registry, x: Seq<char>| eases(r, #[trigger] visit(r, x)) by {
            ease_file(os, r, u, x);
        }
        assert forall|r: Registry, x: Seq<char>|
            us.contains(x) && eases(tree, r) implies drops(os, tree, r, #[trigger] visit(r, x)) by {
            drops_file(os, tree, r, u, x);
        }
        drops_all(os, tree, r0, us, visit);
        lemma_drops_on(os, tree, reg, r0, visit_all(r0, us, visit));
    }
}

proof fn drops_rule(os: Objects, tree: Registry, reg: Registry, parent: Seq<char>, u: Seq<char>)
    ensures
        drops(os, tree, reg, visit_rule(os, reg, parent, u)),
{
    if !is_object(os, u) {
        reveal(is_dangling);
        lemma_drops_one(os, tree, reg, u);
    }
}

proof fn drops_target_stage(
    os: Objects,
    root: Seq<char>,
    tree: Registry,
    reg: Registry,
    u: Seq<char>,
    n: int,
)
    requires
        1 <= n <= 5,
        eases(tree, target_stage(os, root, reg, u, n - 1)),
    ensures
        drops(
            os,
            tree,
            target_stage(os, root, reg, u, n - 1),
            target_stage(os, root, reg, u, n),
        ),
{
    let r = target_stage(os, root, reg, u, n - 1);
    if n == 1 {
        if let Some(list) = text_field(os, u, "buildConfigurationList"@) {
            drops_list(os, tree, r, u, list);
        }
    } else if n == 2 {
        let visit = |r: Registry, x: Seq<char>| visit_dependency(os, r, u, x);
        assert forall|r: Registry, x: Seq<char>| (#[trigger] visit(r, x)).remove == r.remove by {}
        drops_none(os, tree, r, list_field(os, u, "dependencies"@), visit);
    } else if n == 3 {
        let visit = |r: Registry, x: Seq<char>| visit_phase(os, r, u, x);
        assert forall|r: Registry, x: Seq<char>| eases(r, #[trigger] visit(r, x)) by {
            ease_phase(os, r, u, x);
        }
        let us = list_field(os, u, "buildPhases"@);
        assert forall|r: Registry, x: Seq<char>|
            us.contains(x) && eases(tree, r) implies drops(os, tree, r, #[trigger] visit(r, x)) by {
            drops_phase(os, tree, r, u, x);
        }
        drops_all(os, tree, r, us, visit);
    } else if n == 4 {
        let visit = |r: Registry, x: Seq<char>| visit_rule(os, r, u, x);
        assert forall|r: Registry, x: Seq<char>| eases(r, #[trigger] visit(r, x)) by {
            ease_rule(os, r, u, x);
        }
        let us = list_field(os, u, "buildRules"@);
        assert forall|r: Registry, x: Seq<char>|
            us.contains(x) && eases(tree, r) implies drops(os, tree, r, #[trigger] visit(r, x)) by {
            drops_rule(os, tree, r, u, x);
        }
        drops_all(os, tree, r, us, visit);
    } else {
        let visit = |r: Registry, x: Seq<char>| visit_product(os, root, r, u, x);
        assert forall|r: Registry, x: Seq<char>| (#[trigger] visit(r, x)).remove == r.remove by {}
        drops_none(os, tree, r, list_field(os, u, "packageProductDependencies"@), visit);
    }
}

proof fn drops_target_until(
    os: Objects,
    root: Seq<char>,
    tree: Registry,
    reg: Registry,
    u: Seq<char>,
    n: int,
)
    requires
        0 <= n <= 5,
        eases(tree, reg),
    ensures
        drops(os, tree, reg, target_stage(os, root, reg, u, n)),
        eases(tree, target_stage(os, root, reg, u, n)),
    decreases n,
{
    if n > 0 {
        drops_target_until(os, root, tree, reg, u, n - 1);
        let a = target_stage(os, root, reg, u, n - 1);
        let b = target_stage(os, root, reg, u, n);
        drops_target_stage(os, root, tree, reg, u, n);
        ease_target_stage(os, root, reg, u, n);
        lemma_drops_on(os, tree, reg, a, b);
        lemma_eases_on(tree, a, b);
    }
}

proof fn drops_target(os: Objects, root: Seq<char>, tree: Registry, reg: Registry, u: Seq<char>)
    requires
        eases(tree, reg),
    ensures
        drops(os, tree, reg, visit_target(os, root, reg, u)),
{
    if is_object(os, u) {
        lemma_target_stages(os, root, reg, u);
        drops_target_until(os, root, tree, reg, u, 5);
    }
}

proof fn drops_project(p: Project, name: Seq<char>, n: int)
    requires
        1 <= n <= 6,
    ensures
        ({
            let tree = project_stage(p, name, 1);
            let r = project_stage(p, name, n);
            &&& eases(tree, r)
            &&& forall|u: Seq<char>| #[trigger]
                r.remove.contains(u) ==> is_dangling(p.objects, tree, u)
        }),
    decreases n,
{
    let os = p.objects;
    let root = p.root_object;
    let tree = project_stage(p, name, 1);
    let r = project_stage(p, name, n - 1);
    let out = project_stage(p, name, n);
    if n == 1 {
        reveal_with_fuel(project_stage, 2);
        let first = project_stage(p, name, 0);
        if let Some(group) = text_field(os, root, "mainGroup"@) {
            drops_group(os, tree, first, root, group, os.len() + 1);
        }
        assert(drops(os, tree, first, tree));
        assert(first.remove.len() == 0);
        assert forall|u: Seq<char>| #[trigger] tree.remove.contains(u) implies is_dangling(
            os,
            tree,
            u,
        ) by {
            assert(!first.remove.contains(u));
        }
    } else {
        drops_project(p, name, n - 1);
        ease_project_stage(p, name, n);
        lemma_eases_on(tree, r, out);
        if n == 2 {
            if let Some(list) = text_field(os, root, "buildConfigurationList"@) {
                drops_list(os, tree, r, root, list);
            }
        } else if n == 3 {
            if let Some(Plist::Array(items)) = field(os, root, "projectReferences"@) {
                drops_references(os, tree, r, items, os.len() + 1);
            }
        } else if n == 4 {
            let visit = |r: Registry, x: Seq<char>| visit_package(os, r, root, x);
            assert forall|r: Registry, x: Seq<char>| (#[trigger] visit(r, x)).remove == r.remove by {
            }
            drops_none(os, tree, r, list_field(os, root, "packageReferences"@), visit);
        } else if n == 5 {
            let visit = |r: Registry, x: Seq<char>| visit_target_early(os, r, root, x);
            assert forall|r: Registry, x: Seq<char>| (#[trigger] visit(r, x)).remove == r.remove by {
            }
            drops_none(os, tree, r, list_field(os, root, "targets"@), visit);
        } else {
            let visit = |r: Registry, x: Seq<char>| visit_target(os, root, r, x);
            assert forall|r: Registry, x: Seq<char>| eases(r, #[trigger] visit(r, x)) by {
                ease_target(os, root, r, x);
            }
            let us = list_field(os, root, "targets"@);
            assert forall|r: Registry, x: Seq<char>|
                us.contains(x) && eases(tree, r) implies drops(
                os,
                tree,
                r,
                #[trigger] visit(r, x),
            ) by {
                drops_target(os, root, tree, r, x);
            }
            drops_all(os, tree, r, us, visit);
        }
        assert(drops(os, tree, r, out));
        assert forall|u: Seq<char>| #[trigger] out.remove.contains(u) implies is_dangling(
            os,
            tree,
            u,
        ) by {
            if !is_dangling(os, tree, u) {
                assert(r.remove.contains(u));
            }
        }
    }
}

/// Nothing is dropped of a project but UUIDs of which there is no object, build
/// files that refer to nothing in the tree of files, and what these refer to.
pub proof fn law_only_dangling_is_dropped(p: Project, name: Seq<char>, u: Seq<char>)
    requires
        registry(p, name).remove.contains(u),
    ensures
        is_dangling(p.objects, with_main_group(p, name), u),
{
    lemma_project_stages(p, name);
    drops_project(p, name, 6);
    reveal_with_fuel(project_stage, 2);
    assert(with_main_group(p, name) == project_stage(p, name, 1));
}

} // verus!
