//! What is warned of.

use crate::closure_laws::{lemma_project_stages, project_stage};
use crate::link_laws::{lemma_target_stages, target_stage};
use crate::parser::Project;
use crate::uniquifier::{
    is_object, list_field, or_text, phase_component, register, registry, text_field, visit_all,
    visit_build_file, visit_configuration, visit_configuration_list, visit_dependency, visit_phase,
    visit_product, visit_proxy, visit_rule, visit_target, Objects, Registry,
};
use vstd::prelude::*;

verus! {

/// What the first registry warns of, the second does too.
spec fn keeps_warnings(a: Registry, b: Registry) -> bool {
    forall|w: Seq<char>| #[trigger] a.warnings.contains(w) ==> b.warnings.contains(w)
}

proof fn lemma_pushed(ws: Seq<Seq<char>>, w: Seq<char>)
    ensures
        ws.push(w).contains(w),
        forall|x: Seq<char>| #[trigger] ws.contains(x) ==> ws.push(w).contains(x),
{
    assert(ws.push(w)[ws.len() as int] == w);
    assert forall|x: Seq<char>| #[trigger] ws.contains(x) implies ws.push(w).contains(x) by {
        let i = choose|i: int| 0 <= i < ws.len() && ws[i] == x;
        assert(ws.push(w)[i] == x);
    }
}

proof fn lemma_warnings_on(a: Registry, b: Registry, c: Registry)
    requires
        keeps_warnings(a, b),
        keeps_warnings(b, c),
    ensures
        keeps_warnings(a, c),
{
    assert forall|w: Seq<char>| #[trigger] a.warnings.contains(w) implies c.warnings.contains(
        w,
    ) by {
        assert(b.warnings.contains(w));
    }
}

proof fn warn_all(
    reg: Registry,
    us: Seq<Seq<char>>,
    visit: spec_fn(Registry, Seq<char>) -> Registry,
)
    requires
        forall|r: Registry, u: Seq<char>| keeps_warnings(r, #[trigger] visit(r, u)),
    ensures
        keeps_warnings(reg, visit_all(reg, us, visit)),
    decreases us.len(),
{
    if us.len() > 0 {
        warn_all(reg, us.drop_last(), visit);
        let r = visit_all(reg, us.drop_last(), visit);
        assert(keeps_warnings(r, visit(r, us.last())));
        lemma_warnings_on(reg, r, visit(r, us.last()));
    }
}

/// What every visit to one object warns of is warned of.
proof fn warn_one(
    reg: Registry,
    us: Seq<Seq<char>>,
    visit: spec_fn(Registry, Seq<char>) -> Registry,
    x: Seq<char>,
    w: Seq<char>,
)
    requires
        us.contains(x),
        forall|r: Registry, u: Seq<char>| keeps_warnings(r, #[trigger] visit(r, u)),
        forall|r: Registry| (#[trigger] visit(r, x)).warnings.contains(w),
    ensures
        visit_all(reg, us, visit).warnings.contains(w),
    decreases us.len(),
{
    let rest = us.drop_last();
    let r = visit_all(reg, rest, visit);
    if us.last() == x {
        assert(visit(r, x).warnings.contains(w));
    } else {
        let i = choose|i: int| 0 <= i < us.len() && us[i] == x;
        assert(rest[i] == x);
        warn_one(reg, rest, visit, x, w);
        assert(keeps_warnings(r, visit(r, us.last())));
    }
}

proof fn warn_proxy(os: Objects, reg: Registry, parent: Seq<char>, u: Seq<char>)
    ensures
        keeps_warnings(reg, visit_proxy(os, reg, parent, u)),
{
    let r = visit_proxy(os, reg, parent, u);
    if r.warnings != reg.warnings {
        lemma_pushed(reg.warnings, r.warnings.last());
        assert(r.warnings =~= reg.warnings.push(r.warnings.last()));
    }
}

proof fn warn_list(os: Objects, reg: Registry, parent: Seq<char>, u: Seq<char>)
    ensures
        keeps_warnings(reg, visit_configuration_list(os, reg, parent, u)),
{
    if is_object(os, u) {
        let name = or_text(text_field(os, u, "defaultConfigurationName"@), "Release"@);
        let r0 = register(reg, parent, u, name, "XCConfigurationList"@);
        let visit = |r: Registry, c: Seq<char>| visit_configuration(os, r, u, c);
        let us = list_field(os, u, "buildConfigurations"@);
        warn_all(r0, us, visit);
        lemma_warnings_on(reg, r0, visit_all(r0, us, visit));
    }
}

proof fn warn_dependency(os: Objects, reg: Registry, parent: Seq<char>, u: Seq<char>)
    ensures
        keeps_warnings(reg, visit_dependency(os, reg, parent, u)),
        is_object(os, u) && text_field(os, u, "targetProxy"@) is None ==> visit_dependency(
            os,
            reg,
            parent,
            u,
        ).warnings.contains("PBXTargetDependency '"@ + u + "' has no targetProxy — may be stale"@),
{
    if is_object(os, u) {
        let out = visit_dependency(os, reg, parent, u);
        let e = match text_field(os, u, "target"@) {
            Some(target) => crate::uniquifier::expose(
                reg,
                crate::uniquifier::path_of(reg, target) is Some,
                target,
            ),
            None => crate::uniquifier::expose(reg, text_field(os, u, "name"@) is Some, u),
        };
        let component = crate::link_laws::dependency_component(os, reg, u);
        let r = register(e, parent, u, component, "PBXTargetDependency"@);
        assert(r.warnings == reg.warnings);
        match text_field(os, u, "targetProxy"@) {
            Some(proxy) => {
                warn_proxy(os, r, u, proxy);
            },
            None => {
                let w = "PBXTargetDependency '"@ + u + "' has no targetProxy — may be stale"@;
                lemma_pushed(reg.warnings, w);
            },
        }
    }
}

proof fn warn_phase(os: Objects, reg: Registry, parent: Seq<char>, u: Seq<char>)
    ensures
        keeps_warnings(reg, visit_phase(os, reg, parent, u)),
{
    if is_object(os, u) {
        let isa = crate::link_laws::phase_isa(os, u);
        let r0 = register(reg, parent, u, phase_component(os, u, isa), isa);
        let visit = |r: Registry, f: Seq<char>| visit_build_file(os, r, u, f);
        let us = list_field(os, u, "files"@);
        warn_all(r0, us, visit);
        lemma_warnings_on(reg, r0, visit_all(r0, us, visit));
    }
}

proof fn warn_target_stage(os: Objects, root: Seq<char>, reg: Registry, u: Seq<char>, n: int)
    requires
        1 <= n <= 5,
    ensures
        keeps_warnings(
            target_stage(os, root, reg, u, n - 1),
            target_stage(os, root, reg, u, n),
        ),
{
    let r = target_stage(os, root, reg, u, n - 1);
    if n == 1 {
        if let Some(list) = text_field(os, u, "buildConfigurationList"@) {
            warn_list(os, r, u, list);
        }
    } else if n == 2 {
        let visit = |r: Registry, x: Seq<char>| visit_dependency(os, r, u, x);
        assert forall|r: Registry, x: Seq<char>| keeps_warnings(r, #[trigger] visit(r, x)) by {
            warn_dependency(os, r, u, x);
        }
        warn_all(r, list_field(os, u, "dependencies"@), visit);
    } else if n == 3 {
        let visit = |r: Registry, x: Seq<char>| visit_phase(os, r, u, x);
        assert forall|r: Registry, x: Seq<char>| keeps_warnings(r, #[trigger] visit(r, x)) by {
            warn_phase(os, r, u, x);
        }
        warn_all(r, list_field(os, u, "buildPhases"@), visit);
    } else if n == 4 {
        let visit = |r: Registry, x: Seq<char>| visit_rule(os, r, u, x);
        warn_all(r, list_field(os, u, "buildRules"@), visit);
    } else {
        let visit = |r: Registry, x: Seq<char>| visit_product(os, root, r, u, x);
        warn_all(r, list_field(os, u, "packageProductDependencies"@), visit);
    }
}

/// What stage `m` of the parts of a target warns of, all later ones do.
proof fn warn_target_until(
    os: Objects,
    root: Seq<char>,
    reg: Registry,
    u: Seq<char>,
    m: int,
    n: int,
)
    requires
        0 <= m <= n <= 5,
    ensures
        keeps_warnings(target_stage(os, root, reg, u, m), target_stage(os, root, reg, u, n)),
    decreases n - m,
{
    if m < n {
        warn_target_until(os, root, reg, u, m, n - 1);
        warn_target_stage(os, root, reg, u, n);
        lemma_warnings_on(
            target_stage(os, root, reg, u, m),
            target_stage(os, root, reg, u, n - 1),
            target_stage(os, root, reg, u, n),
        );
    }
}

proof fn warn_target(os: Objects, root: Seq<char>, reg: Registry, u: Seq<char>)
    ensures
        keeps_warnings(reg, visit_target(os, root, reg, u)),
{
    if is_object(os, u) {
        lemma_target_stages(os, root, reg, u);
        warn_target_until(os, root, reg, u, 0, 5);
        assert(target_stage(os, root, reg, u, 0) == reg);
    }
}

proof fn warn_target_of(
    os: Objects,
    root: Seq<char>,
    reg: Registry,
    t: Seq<char>,
    d: Seq<char>,
    w: Seq<char>,
)
    requires
        is_object(os, t),
        list_field(os, t, "dependencies"@).contains(d),
        is_object(os, d),
        text_field(os, d, "targetProxy"@) is None,
        w == "PBXTargetDependency '"@ + d + "' has no targetProxy — may be stale"@,
    ensures
        visit_target(os, root, reg, t).warnings.contains(w),
{
    lemma_target_stages(os, root, reg, t);
    warn_target_until(os, root, reg, t, 2, 5);
    let r = target_stage(os, root, reg, t, 1);
    let visit = |r: Registry, x: Seq<char>| visit_dependency(os, r, t, x);
    assert forall|r: Registry, x: Seq<char>| keeps_warnings(r, #[trigger] visit(r, x)) by {
        warn_dependency(os, r, t, x);
    }
    assert forall|r: Registry| (#[trigger] visit(r, d)).warnings.contains(w) by {
        warn_dependency(os, r, t, d);
    }
    warn_one(r, list_field(os, t, "dependencies"@), visit, d, w);
    assert(target_stage(os, root, reg, t, 2).warnings.contains(w));
}

/// A dependency of a target without a proxy is warned of, as it may be stale.
pub proof fn law_stale_dependency_is_warned_of(
    p: Project,
    name: Seq<char>,
    t: Seq<char>,
    d: Seq<char>,
)
    requires
        list_field(p.objects, p.root_object, "targets"@).contains(t),
        is_object(p.objects, t),
        list_field(p.objects, t, "dependencies"@).contains(d),
        is_object(p.objects, d),
        text_field(p.objects, d, "targetProxy"@) is None,
    ensures
        registry(p, name).warnings.contains(
            "PBXTargetDependency '"@ + d + "' has no targetProxy — may be stale"@,
        ),
{
    let os = p.objects;
    let root = p.root_object;
    let w = "PBXTargetDependency '"@ + d + "' has no targetProxy — may be stale"@;
    lemma_project_stages(p, name);
    reveal_with_fuel(project_stage, 2);
    let r = project_stage(p, name, 5);
    let visit = |r: Registry, x: Seq<char>| visit_target(os, root, r, x);
    assert forall|r: Registry, x: Seq<char>| keeps_warnings(r, #[trigger] visit(r, x)) by {
        warn_target(os, root, r, x);
    }
    assert forall|r: Registry| (#[trigger] visit(r, t)).warnings.contains(w) by {
        warn_target_of(os, root, r, t, d, w);
    }
    warn_one(r, list_field(os, root, "targets"@), visit, t, w);
}

} // verus!
