//! What the traversal of a project leaves: every object that it comes to is
//! registered below its owner.

use crate::link_laws::{
    dependency_component, ease_all, ease_dependency, ease_early, ease_file, ease_group, ease_list,
    ease_package, ease_phase, ease_product, ease_proxy, ease_references, ease_rule, ease_target,
    ease_target_stage, eases, group_isa, group_name, grows, has_single_owners, is_fine,
    is_placed_by, is_right, lemma_fine_before, lemma_grows_on, lemma_put, lemma_row_stays,
    lemma_target_stages, owns, phase_isa, row_of, target_stage, targets_of, Kind, Reach,
};
use crate::naming_laws::is_known;
use crate::parser::{field, Plist, Project};
use crate::project_facts::has_reference;
use crate::renaming_laws::{reference_of, references};
use crate::table::{lookup, upsert};
use crate::uniquifier::{
    drop_uuid, expose, is_object, list_field, md5_hex, or_text, path_of, phase_component,
    referenced, register, registry, text_field, visit_all, visit_build_file, visit_children,
    visit_configuration, visit_configuration_list, visit_dependency, visit_group, visit_package,
    visit_phase, visit_product, visit_proxy, visit_references, visit_rule, visit_target,
    visit_target_early, Registry,
};
use vstd::prelude::*;

verus! {

// ── Steps ────────────────────────────────────────────────────────────────────

/// A known object is placed by the one that owns it.
pub proof fn lemma_known_owner(c: Reach, reg: Registry, w: Seq<char>, u: Seq<char>, k: Kind)
    requires
        is_right(c, reg),
        has_single_owners(c),
        is_fine(c, reg),
        owns(c.os, c.root, w, u, k),
        is_known(reg, w),
        is_known(reg, u),
    ensures
        is_placed_by(c.os, reg, w, u, k),
{
    assert((c.live)(w));
    assert(u != c.root);
    let (x, l) = choose|x: Seq<char>, l: Kind|
        owns(c.os, c.root, x, u, l) && #[trigger] is_placed_by(c.os, reg, x, u, l);
    assert(is_known(reg, x));
    assert((c.live)(x));
}

/// Only the rows count.
proof fn lemma_same_rows(c: Reach, a: Registry, b: Registry)
    requires
        a.rows == b.rows,
        is_right(c, a),
        forall|u: Seq<char>| #[trigger] a.remove.contains(u) ==> b.remove.contains(u),
    ensures
        is_right(c, b),
        grows(a, b),
{
    assert forall|u: Seq<char>| #[trigger] is_known(b, u) && u != c.root implies exists|
        w: Seq<char>,
        k: Kind,
    |
        owns(c.os, c.root, w, u, k) && #[trigger] is_placed_by(c.os, b, w, u, k) by {
        assert(is_known(a, u));
        let (w, k) = choose|w: Seq<char>, k: Kind|
            owns(c.os, c.root, w, u, k) && #[trigger] is_placed_by(c.os, a, w, u, k);
        assert(grows(a, b));
        lemma_row_stays(c.os, a, b, w, u, k);
        assert(is_placed_by(c.os, b, w, u, k));
    }
}

proof fn lemma_grows_itself(a: Registry)
    ensures
        grows(a, a),
{
}

proof fn lemma_drop(c: Reach, reg: Registry, u: Seq<char>)
    requires
        is_right(c, reg),
    ensures
        is_right(c, drop_uuid(reg, u)),
        grows(reg, drop_uuid(reg, u)),
        drop_uuid(reg, u).remove.contains(u),
{
    let out = drop_uuid(reg, u);
    assert(out.remove[reg.remove.len() as int] == u);
    assert forall|x: Seq<char>| #[trigger] reg.remove.contains(x) implies out.remove.contains(
        x,
    ) by {
        let i = choose|i: int| 0 <= i < reg.remove.len() && reg.remove[i] == x;
        assert(out.remove[i] == x);
    }
    lemma_same_rows(c, reg, out);
}

/// Visiting some objects.
proof fn lemma_all(
    c: Reach,
    end: Registry,
    first: Registry,
    reg: Registry,
    us: Seq<Seq<char>>,
    visit: spec_fn(Registry, Seq<char>) -> Registry,
    closed: spec_fn(Seq<char>) -> bool,
)
    requires
        is_right(c, reg),
        grows(first, reg),
        is_fine(c, visit_all(reg, us, visit)),
        forall|r: Registry, u: Seq<char>| eases(r, #[trigger] visit(r, u)),
        forall|r: Registry, u: Seq<char>|
            us.contains(u) && is_right(c, r) && grows(first, r) && is_fine(
                c,
                #[trigger] visit(r, u),
            ) ==> is_right(c, visit(r, u)) && grows(r, visit(r, u)) && (grows(visit(r, u), end)
                ==> closed(u)),
    ensures
        is_right(c, visit_all(reg, us, visit)),
        grows(reg, visit_all(reg, us, visit)),
        grows(visit_all(reg, us, visit), end) ==> forall|u: Seq<char>| #[trigger]
            us.contains(u) ==> closed(u),
    decreases us.len(),
{
    let out = visit_all(reg, us, visit);
    if us.len() == 0 {
        lemma_grows_itself(reg);
    } else {
        let front = us.drop_last();
        let mid = visit_all(reg, front, visit);
        assert(eases(mid, visit(mid, us.last())));
        lemma_fine_before(c, mid, out);
        assert forall|r: Registry, u: Seq<char>|
            front.contains(u) && is_right(c, r) && grows(first, r) && is_fine(
                c,
                #[trigger] visit(r, u),
            ) implies is_right(c, visit(r, u)) && grows(r, visit(r, u)) && (grows(visit(r, u), end)
            ==> closed(u)) by {
            let i = choose|i: int| 0 <= i < front.len() && front[i] == u;
            assert(us[i] == u);
        }
        lemma_all(c, end, first, reg, front, visit, closed);
        lemma_grows_on(first, reg, mid);
        assert(us[us.len() - 1] == us.last());
        assert(us.contains(us.last()));
        lemma_grows_on(reg, mid, out);
        if grows(out, end) {
            lemma_grows_on(mid, out, end);
            assert forall|u: Seq<char>| #[trigger] us.contains(u) implies closed(u) by {
                let i = choose|i: int| 0 <= i < us.len() && us[i] == u;
                if i < us.len() - 1 {
                    assert(front[i] == u);
                    assert(front.contains(u));
                }
            }
        }
    }
}

// ── Proxies and groups ───────────────────────────────────────────────────────

pub open spec fn closed_proxy(c: Reach, end: Registry, w: Seq<char>, x: Seq<char>) -> bool {
    is_object(c.os, x) ==> {
        &&& is_placed_by(c.os, end, w, x, Kind::Proxy)
        &&& forall|r: Seq<char>| #[trigger]
            owns(c.os, c.root, x, r, Kind::Remote) ==> is_placed_by(c.os, end, x, r, Kind::Remote)
    }
}

/// The remote object of a proxy is a target that is known, or no target.
pub open spec fn remote_is_clear(c: Reach, reg: Registry, x: Seq<char>) -> bool {
    match text_field(c.os, x, "remoteGlobalIDString"@) {
        Some(r) => !targets_of(c.os, c.root).contains(r) || is_known(reg, r),
        None => true,
    }
}

#[verifier::rlimit(40)]
#[verifier::spinoff_prover]
proof fn lemma_proxy(c: Reach, end: Registry, reg: Registry, w: Seq<char>, x: Seq<char>)
    requires
        is_right(c, reg),
        has_single_owners(c),
        is_fine(c, visit_proxy(c.os, reg, w, x)),
        is_known(reg, w),
        is_object(c.os, x) ==> owns(c.os, c.root, w, x, Kind::Proxy),
        remote_is_clear(c, reg, x),
    ensures
        is_right(c, visit_proxy(c.os, reg, w, x)),
        grows(reg, visit_proxy(c.os, reg, w, x)),
        grows(visit_proxy(c.os, reg, w, x), end) ==> closed_proxy(c, end, w, x),
{
    let os = c.os;
    let out = visit_proxy(os, reg, w, x);
    ease_proxy(os, reg, w, x);
    lemma_fine_before(c, reg, out);
    lemma_grows_itself(reg);
    if is_object(os, x) {
        let component = "PBXContainerItemProxy/"@ + or_text(
            text_field(os, x, "remoteInfo"@),
            Seq::empty(),
        );
        let r0 = register(reg, w, x, component, "PBXContainerItemProxy"@);
        lemma_put(c, reg, w, x, Kind::Proxy);
        assert(r0 == Registry { rows: upsert(reg.rows, x, row_of(os, reg, w, x, Kind::Proxy)), ..reg });
        lemma_grows_itself(r0);
        match text_field(os, x, "remoteGlobalIDString"@) {
            Some(remote) => {
                if lookup(r0.rows, remote) is Some {
                    assert(out == r0);
                    if owns(os, c.root, x, remote, Kind::Remote) {
                        lemma_known_owner(c, r0, x, remote, Kind::Remote);
                    }
                } else {
                    match text_field(os, x, "containerPortal"@) {
                        Some(portal) => {
                            assert(!is_known(reg, remote));
                            let e = expose(r0, path_of(r0, portal) is Some, portal);
                            assert(out.exposed == e.exposed);
                            assert(path_of(r0, portal) is Some);
                            assert(is_known(r0, portal));
                            assert(is_fine(c, r0)) by {
                                assert forall|u: Seq<char>| #[trigger] is_known(r0, u) implies (
                                c.live)(u) by {
                                    crate::naming_laws::lemma_upsert_known(
                                        r0.rows,
                                        remote,
                                        row_of(os, r0, x, remote, Kind::Remote),
                                        u,
                                    );
                                    assert(is_known(out, u));
                                }
                            }
                            lemma_put(c, r0, x, remote, Kind::Remote);
                            assert(out.rows == upsert(
                                r0.rows,
                                remote,
                                row_of(os, r0, x, remote, Kind::Remote),
                            ));
                            lemma_grows_on(reg, r0, out);
                        },
                        None => {
                            lemma_same_rows(c, r0, out);
                            lemma_grows_on(reg, r0, out);
                        },
                    }
                }
            },
            None => {},
        }
        if grows(out, end) {
            assert(grows(r0, out));
            lemma_grows_on(r0, out, end);
            lemma_row_stays(os, r0, end, w, x, Kind::Proxy);
            assert forall|r: Seq<char>| #[trigger]
                owns(os, c.root, x, r, Kind::Remote) implies is_placed_by(
                os,
                end,
                x,
                r,
                Kind::Remote,
            ) by {
                assert(is_placed_by(os, out, x, r, Kind::Remote));
                lemma_row_stays(os, out, end, x, r, Kind::Remote);
            }
        }
    }
}

/// No proxy in the tree stands for a target of the project.
pub open spec fn tree_is_clear(c: Reach) -> bool {
    forall|v: Seq<char>|
        group_isa(c.os, v) == "PBXReferenceProxy"@ ==> match #[trigger] text_field(
            c.os,
            v,
            "remoteRef"@,
        ) {
            Some(x) => match text_field(c.os, x, "remoteGlobalIDString"@) {
                Some(r) => !targets_of(c.os, c.root).contains(r),
                None => true,
            },
            None => true,
        }
}

/// A group and all below it are registered, or to be dropped.
pub open spec fn closed_group(
    c: Reach,
    end: Registry,
    parent: Seq<char>,
    u: Seq<char>,
    fuel: nat,
) -> bool
    decreases fuel,
{
    if fuel == 0 {
        true
    } else if is_object(c.os, u) {
        &&& is_placed_by(c.os, end, parent, u, Kind::Child)
        &&& forall|x: Seq<char>| #[trigger]
            list_field(c.os, u, "children"@).contains(x) ==> closed_group(
                c,
                end,
                u,
                x,
                (fuel - 1) as nat,
            )
        &&& group_isa(c.os, u) == "PBXReferenceProxy"@ ==> match text_field(
            c.os,
            u,
            "remoteRef"@,
        ) {
            Some(x) => closed_proxy(c, end, u, x),
            None => true,
        }
    } else {
        end.remove.contains(u)
    }
}

#[verifier::rlimit(40)]
#[verifier::spinoff_prover]
proof fn lemma_group(
    c: Reach,
    end: Registry,
    reg: Registry,
    parent: Seq<char>,
    u: Seq<char>,
    fuel: nat,
)
    requires
        is_right(c, reg),
        has_single_owners(c),
        tree_is_clear(c),
        is_fine(c, visit_group(c.os, reg, parent, u, fuel)),
        is_known(reg, parent),
        is_object(c.os, u) ==> owns(c.os, c.root, parent, u, Kind::Child),
    ensures
        is_right(c, visit_group(c.os, reg, parent, u, fuel)),
        grows(reg, visit_group(c.os, reg, parent, u, fuel)),
        grows(visit_group(c.os, reg, parent, u, fuel), end) ==> closed_group(
            c,
            end,
            parent,
            u,
            fuel,
        ),
    decreases fuel, 0nat,
{
    let os = c.os;
    let out = visit_group(os, reg, parent, u, fuel);
    ease_group(os, reg, parent, u, fuel);
    lemma_fine_before(c, reg, out);
    lemma_grows_itself(reg);
    if fuel > 0 {
        if !is_object(os, u) {
            lemma_drop(c, reg, u);
        } else {
            let r0 = register(reg, parent, u, group_name(os, u), group_isa(os, u));
            lemma_put(c, reg, parent, u, Kind::Child);
            assert(r0 == Registry { rows: upsert(reg.rows, u, row_of(os, reg, parent, u, Kind::Child)), ..reg });
            let us = list_field(os, u, "children"@);
            let less = (fuel - 1) as nat;
            let r = visit_children(os, r0, u, us, less);
            let remote = text_field(os, u, "remoteRef"@);
            let proxied = group_isa(os, u) == "PBXReferenceProxy"@ && remote is Some;
            if proxied {
                ease_proxy(os, r, u, remote->Some_0);
                lemma_fine_before(c, r, out);
            } else {
                assert(out == r);
            }
            assert(is_known(r0, u));
            lemma_children(c, end, r0, u, us, less);
            lemma_grows_on(reg, r0, r);
            assert(is_known(r, u)) by {
                assert(lookup(r.rows, u) == lookup(r0.rows, u));
            }
            lemma_grows_itself(r);
            if proxied {
                lemma_proxy(c, end, r, u, remote->Some_0);
                lemma_grows_on(reg, r, out);
            }
            if grows(out, end) {
                lemma_grows_on(r, out, end);
                lemma_grows_on(r0, r, end);
                lemma_row_stays(os, r0, end, parent, u, Kind::Child);
            }
        }
    }
}

proof fn lemma_children(
    c: Reach,
    end: Registry,
    reg: Registry,
    parent: Seq<char>,
    us: Seq<Seq<char>>,
    fuel: nat,
)
    requires
        is_right(c, reg),
        has_single_owners(c),
        tree_is_clear(c),
        is_fine(c, visit_children(c.os, reg, parent, us, fuel)),
        is_known(reg, parent),
        forall|u: Seq<char>| #[trigger]
            us.contains(u) ==> list_field(c.os, parent, "children"@).contains(u),
    ensures
        is_right(c, visit_children(c.os, reg, parent, us, fuel)),
        grows(reg, visit_children(c.os, reg, parent, us, fuel)),
        grows(visit_children(c.os, reg, parent, us, fuel), end) ==> forall|u: Seq<char>|
            #[trigger]
            us.contains(u) ==> closed_group(c, end, parent, u, fuel),
    decreases fuel, us.len() + 1,
{
    let os = c.os;
    let out = visit_children(os, reg, parent, us, fuel);
    if us.len() == 0 {
        lemma_grows_itself(reg);
    } else {
        let front = us.drop_last();
        let mid = visit_children(os, reg, parent, front, fuel);
        ease_group(os, mid, parent, us.last(), fuel);
        lemma_fine_before(c, mid, out);
        assert forall|u: Seq<char>| #[trigger] front.contains(u) implies list_field(
            os,
            parent,
            "children"@,
        ).contains(u) by {
            let i = choose|i: int| 0 <= i < front.len() && front[i] == u;
            assert(us[i] == u);
            assert(us.contains(u));
        }
        lemma_children(c, end, reg, parent, front, fuel);
        assert(us[us.len() - 1] == us.last());
        assert(us.contains(us.last()));
        assert(is_known(mid, parent)) by {
            assert(lookup(mid.rows, parent) == lookup(reg.rows, parent));
        }
        lemma_group(c, end, mid, parent, us.last(), fuel);
        lemma_grows_on(reg, mid, out);
        if grows(out, end) {
            lemma_grows_on(mid, out, end);
            assert forall|u: Seq<char>| #[trigger] us.contains(u) implies closed_group(
                c,
                end,
                parent,
                u,
                fuel,
            ) by {
                let i = choose|i: int| 0 <= i < us.len() && us[i] == u;
                if i < us.len() - 1 {
                    assert(front[i] == u);
                    assert(front.contains(u));
                }
            }
        }
    }
}

/// The projects that the project refers to are registered.
pub open spec fn projects_are_known(c: Reach, reg: Registry) -> bool {
    forall|g: Seq<char>, w: Seq<char>| #[trigger]
        has_reference(c.os, c.root, g, w) ==> is_known(reg, w)
}

proof fn lemma_references(
    c: Reach,
    end: Registry,
    reg: Registry,
    items: Seq<Plist>,
    fuel: nat,
)
    requires
        is_right(c, reg),
        has_single_owners(c),
        tree_is_clear(c),
        is_fine(c, visit_references(c.os, reg, items, fuel)),
        projects_are_known(c, reg),
        forall|i: int|
            0 <= i < items.len() ==> references(c.os, c.root).contains(#[trigger] items[i]),
    ensures
        is_right(c, visit_references(c.os, reg, items, fuel)),
        grows(reg, visit_references(c.os, reg, items, fuel)),
        grows(visit_references(c.os, reg, items, fuel), end) ==> forall|i: int|
            0 <= i < items.len() ==> closed_reference(c, end, #[trigger] items[i], fuel),
    decreases items.len(),
{
    let os = c.os;
    let out = visit_references(os, reg, items, fuel);
    if items.len() == 0 {
        lemma_grows_itself(reg);
    } else {
        let front = items.drop_last();
        let last = items.last();
        let mid = visit_references(os, reg, front, fuel);
        if let Some((g, w)) = reference_of(last) {
            ease_group(os, mid, w, g, fuel);
        }
        assert(eases(mid, out));
        lemma_fine_before(c, mid, out);
        assert forall|i: int| 0 <= i < front.len() implies references(os, c.root).contains(
            #[trigger] front[i],
        ) by {
            assert(front[i] == items[i]);
        }
        lemma_references(c, end, reg, front, fuel);
        lemma_grows_itself(mid);
        assert(items[items.len() - 1] == last);
        if let Some((g, w)) = reference_of(last) {
            let all = references(os, c.root);
            let j = choose|j: int| 0 <= j < all.len() && all[j] == last;
            assert(reference_of(all[j]) == Some((g, w)));
            assert(has_reference(os, c.root, g, w));
            assert(is_known(mid, w)) by {
                assert(lookup(mid.rows, w) == lookup(reg.rows, w));
            }
            lemma_group(c, end, mid, w, g, fuel);
        }
        lemma_grows_on(reg, mid, out);
        if grows(out, end) {
            lemma_grows_on(mid, out, end);
            assert forall|i: int| 0 <= i < items.len() implies closed_reference(
                c,
                end,
                #[trigger] items[i],
                fuel,
            ) by {
                if i < front.len() {
                    assert(front[i] == items[i]);
                    assert(closed_reference(c, end, front[i], fuel));
                }
            }
        }
    }
}

pub open spec fn closed_reference(c: Reach, end: Registry, item: Plist, fuel: nat) -> bool {
    match reference_of(item) {
        Some((g, w)) => closed_group(c, end, w, g, fuel),
        None => true,
    }
}

// ── Configurations, packages and targets ─────────────────────────────────────

pub open spec fn closed_list(c: Reach, end: Registry, w: Seq<char>, l: Seq<char>) -> bool {
    is_object(c.os, l) ==> {
        &&& is_placed_by(c.os, end, w, l, Kind::Settings)
        &&& forall|x: Seq<char>| #[trigger]
            list_field(c.os, l, "buildConfigurations"@).contains(x) && is_object(c.os, x)
                ==> is_placed_by(c.os, end, l, x, Kind::Setting)
    }
}

proof fn lemma_list(c: Reach, end: Registry, reg: Registry, w: Seq<char>, l: Seq<char>)
    requires
        is_right(c, reg),
        has_single_owners(c),
        is_fine(c, visit_configuration_list(c.os, reg, w, l)),
        is_known(reg, w),
        text_field(c.os, w, "buildConfigurationList"@) == Some(l),
    ensures
        is_right(c, visit_configuration_list(c.os, reg, w, l)),
        grows(reg, visit_configuration_list(c.os, reg, w, l)),
        grows(visit_configuration_list(c.os, reg, w, l), end) ==> closed_list(c, end, w, l),
{
    let os = c.os;
    let out = visit_configuration_list(os, reg, w, l);
    lemma_grows_itself(reg);
    ease_list(os, reg, w, l);
    lemma_fine_before(c, reg, out);
    if is_object(os, l) {
        lemma_put(c, reg, w, l, Kind::Settings);
        let name = or_text(text_field(os, l, "defaultConfigurationName"@), "Release"@);
        let r0 = register(reg, w, l, name, "XCConfigurationList"@);
        assert(r0 == Registry { rows: upsert(reg.rows, l, row_of(os, reg, w, l, Kind::Settings)), ..reg });
        let visit = |r: Registry, x: Seq<char>| visit_configuration(os, r, l, x);
        let us = list_field(os, l, "buildConfigurations"@);
        let closed = |x: Seq<char>|
            is_object(os, x) ==> is_placed_by(os, end, l, x, Kind::Setting);
        assert forall|r: Registry, x: Seq<char>| eases(r, #[trigger] visit(r, x)) by {
            crate::link_laws::ease_register(
                r,
                l,
                x,
                or_text(text_field(os, x, "name"@), "Release"@),
                "XCBuildConfiguration"@,
            );
        }
        assert forall|r: Registry, x: Seq<char>|
            us.contains(x) && is_right(c, r) && grows(r0, r) && is_fine(
                c,
                #[trigger] visit(r, x),
            ) implies is_right(c, visit(r, x)) && grows(r, visit(r, x)) && (grows(visit(r, x), end)
            ==> closed(x)) by {
            lemma_fine_before(c, r, visit(r, x));
            lemma_grows_itself(r);
            assert(is_known(r0, l));
            if is_object(os, x) {
                lemma_put(c, r, l, x, Kind::Setting);
                assert(visit(r, x) == Registry { rows: upsert(r.rows, x, row_of(os, r, l, x, Kind::Setting)), ..r });
                if grows(visit(r, x), end) {
                    lemma_row_stays(os, visit(r, x), end, l, x, Kind::Setting);
                }
            }
        }
        lemma_grows_itself(r0);
        lemma_all(c, end, r0, r0, us, visit, closed);
        lemma_grows_on(reg, r0, out);
        if grows(out, end) {
            lemma_grows_on(r0, out, end);
            lemma_row_stays(os, r0, end, w, l, Kind::Settings);
            assert forall|x: Seq<char>| #[trigger] us.contains(x) && is_object(
                os,
                x,
            ) implies is_placed_by(os, end, l, x, Kind::Setting) by {
                assert(closed(x));
            }
        }
    }
}

proof fn lemma_package(c: Reach, end: Registry, reg: Registry, u: Seq<char>)
    requires
        is_right(c, reg),
        has_single_owners(c),
        is_fine(c, visit_package(c.os, reg, c.root, u)),
        is_object(c.os, u) ==> owns(c.os, c.root, c.root, u, Kind::Package),
    ensures
        is_right(c, visit_package(c.os, reg, c.root, u)),
        grows(reg, visit_package(c.os, reg, c.root, u)),
        grows(visit_package(c.os, reg, c.root, u), end) ==> (is_object(c.os, u) ==> is_placed_by(
            c.os,
            end,
            c.root,
            u,
            Kind::Package,
        )),
{
    let os = c.os;
    let out = visit_package(os, reg, c.root, u);
    ease_package(os, reg, c.root, u);
    lemma_fine_before(c, reg, out);
    lemma_grows_itself(reg);
    assert(is_known(reg, c.root));
    if is_object(os, u) {
        if is_known(reg, u) {
            lemma_known_owner(c, reg, c.root, u, Kind::Package);
        } else {
            assert(text_field(os, u, "repositoryURL"@) is Some);
            lemma_put(c, reg, c.root, u, Kind::Package);
            assert(out == Registry { rows: upsert(reg.rows, u, row_of(os, reg, c.root, u, Kind::Package)), ..reg });
        }
        if grows(out, end) {
            lemma_row_stays(os, out, end, c.root, u, Kind::Package);
        }
    }
}

proof fn lemma_early(c: Reach, end: Registry, reg: Registry, u: Seq<char>)
    requires
        is_right(c, reg),
        has_single_owners(c),
        is_fine(c, visit_target_early(c.os, reg, c.root, u)),
        targets_of(c.os, c.root).contains(u),
    ensures
        is_right(c, visit_target_early(c.os, reg, c.root, u)),
        grows(reg, visit_target_early(c.os, reg, c.root, u)),
        grows(visit_target_early(c.os, reg, c.root, u), end) ==> is_placed_by(
            c.os,
            end,
            c.root,
            u,
            Kind::Target,
        ),
{
    let os = c.os;
    let out = visit_target_early(os, reg, c.root, u);
    ease_early(os, reg, c.root, u);
    lemma_fine_before(c, reg, out);
    lemma_grows_itself(reg);
    assert(is_known(reg, c.root));
    assert(owns(os, c.root, c.root, u, Kind::Target));
    if is_known(reg, u) {
        lemma_known_owner(c, reg, c.root, u, Kind::Target);
    } else {
        assert(text_field(os, u, "name"@) is Some);
        lemma_put(c, reg, c.root, u, Kind::Target);
        assert(out == Registry { rows: upsert(reg.rows, u, row_of(os, reg, c.root, u, Kind::Target)), ..reg });
    }
    if grows(out, end) {
        lemma_row_stays(os, out, end, c.root, u, Kind::Target);
    }
}

pub open spec fn closed_dependency(c: Reach, end: Registry, w: Seq<char>, d: Seq<char>) -> bool {
    is_object(c.os, d) ==> {
        &&& is_placed_by(c.os, end, w, d, Kind::Dependency)
        &&& match text_field(c.os, d, "targetProxy"@) {
            Some(x) => closed_proxy(c, end, d, x),
            None => true,
        }
    }
}

/// All targets are registered.
pub open spec fn targets_are_known(c: Reach, reg: Registry) -> bool {
    forall|t: Seq<char>| #[trigger] targets_of(c.os, c.root).contains(t) ==> is_known(reg, t)
}

proof fn lemma_dependency(c: Reach, end: Registry, reg: Registry, w: Seq<char>, d: Seq<char>)
    requires
        is_right(c, reg),
        has_single_owners(c),
        is_fine(c, visit_dependency(c.os, reg, w, d)),
        is_known(reg, w),
        list_field(c.os, w, "dependencies"@).contains(d),
        targets_are_known(c, reg),
    ensures
        is_right(c, visit_dependency(c.os, reg, w, d)),
        grows(reg, visit_dependency(c.os, reg, w, d)),
        grows(visit_dependency(c.os, reg, w, d), end) ==> closed_dependency(c, end, w, d),
{
    let os = c.os;
    let out = visit_dependency(os, reg, w, d);
    ease_dependency(os, reg, w, d);
    lemma_fine_before(c, reg, out);
    lemma_grows_itself(reg);
    if is_object(os, d) {
        let component = dependency_component(os, reg, d);
        let e = match text_field(os, d, "target"@) {
            Some(target) => expose(reg, path_of(reg, target) is Some, target),
            None => expose(reg, text_field(os, d, "name"@) is Some, d),
        };
        let r = register(e, w, d, component, "PBXTargetDependency"@);
        let proxy = text_field(os, d, "targetProxy"@);
        if proxy is Some {
            ease_proxy(os, r, d, proxy->Some_0);
        }
        assert(eases(r, out));
        lemma_fine_before(c, r, out);
        assert(e.exposed.len() == 0);
        assert(e == reg);
        if let Some(target) = text_field(os, d, "target"@) {
            assert(is_known(reg, target));
        }
        lemma_put(c, reg, w, d, Kind::Dependency);
        assert(r == Registry { rows: upsert(reg.rows, d, row_of(os, reg, w, d, Kind::Dependency)), ..reg });
        lemma_grows_itself(r);
        match proxy {
            Some(x) => {
                assert(is_known(r, d));
                assert(remote_is_clear(c, r, x)) by {
                    if let Some(m) = text_field(os, x, "remoteGlobalIDString"@) {
                        if targets_of(os, c.root).contains(m) {
                            assert(is_known(reg, m));
                        }
                    }
                }
                lemma_proxy(c, end, r, d, x);
            },
            None => {
                lemma_same_rows(c, r, out);
            },
        }
        lemma_grows_on(reg, r, out);
        if grows(out, end) {
            lemma_grows_on(r, out, end);
            lemma_row_stays(os, r, end, w, d, Kind::Dependency);
        }
    }
}

pub open spec fn closed_file(
    c: Reach,
    pre: Registry,
    end: Registry,
    w: Seq<char>,
    f: Seq<char>,
) -> bool {
    match referenced(c.os, f) {
        Some(r) => {
            &&& is_known(pre, r) ==> is_placed_by(c.os, end, w, f, Kind::File)
            &&& is_placed_by(c.os, end, w, f, Kind::File) || end.remove.contains(f)
        },
        None => end.remove.contains(f),
    }
}

proof fn lemma_file(
    c: Reach,
    pre: Registry,
    end: Registry,
    reg: Registry,
    w: Seq<char>,
    f: Seq<char>,
)
    requires
        is_right(c, reg),
        has_single_owners(c),
        is_fine(c, visit_build_file(c.os, reg, w, f)),
        is_known(reg, w),
        list_field(c.os, w, "files"@).contains(f),
        grows(pre, reg),
    ensures
        is_right(c, visit_build_file(c.os, reg, w, f)),
        grows(reg, visit_build_file(c.os, reg, w, f)),
        grows(visit_build_file(c.os, reg, w, f), end) ==> closed_file(c, pre, end, w, f),
{
    let os = c.os;
    let out = visit_build_file(os, reg, w, f);
    ease_file(os, reg, w, f);
    lemma_fine_before(c, reg, out);
    lemma_grows_itself(reg);
    match referenced(os, f) {
        None => {
            lemma_drop(c, reg, f);
        },
        Some(r) => {
            if is_known(reg, r) {
                lemma_put(c, reg, w, f, Kind::File);
                assert(out == Registry { rows: upsert(reg.rows, f, row_of(os, reg, w, f, Kind::File)), ..reg });
                if grows(out, end) {
                    lemma_row_stays(os, out, end, w, f, Kind::File);
                }
            } else {
                lemma_drop(c, reg, f);
                let mid = drop_uuid(reg, f);
                lemma_drop(c, mid, r);
                lemma_grows_on(reg, mid, out);
                if is_known(pre, r) {
                    assert(lookup(reg.rows, r) == lookup(pre.rows, r));
                }
                assert(out.remove.contains(f));
            }
        },
    }
}

pub open spec fn closed_phase(
    c: Reach,
    pre: Registry,
    end: Registry,
    w: Seq<char>,
    p: Seq<char>,
) -> bool {
    is_object(c.os, p) ==> {
        &&& is_placed_by(c.os, end, w, p, Kind::Phase)
        &&& forall|f: Seq<char>| #[trigger]
            list_field(c.os, p, "files"@).contains(f) ==> closed_file(c, pre, end, p, f)
    }
}

proof fn lemma_phase(
    c: Reach,
    pre: Registry,
    end: Registry,
    reg: Registry,
    w: Seq<char>,
    p: Seq<char>,
)
    requires
        is_right(c, reg),
        has_single_owners(c),
        is_fine(c, visit_phase(c.os, reg, w, p)),
        is_known(reg, w),
        list_field(c.os, w, "buildPhases"@).contains(p),
        grows(pre, reg),
    ensures
        is_right(c, visit_phase(c.os, reg, w, p)),
        grows(reg, visit_phase(c.os, reg, w, p)),
        grows(visit_phase(c.os, reg, w, p), end) ==> closed_phase(c, pre, end, w, p),
{
    let os = c.os;
    let out = visit_phase(os, reg, w, p);
    ease_phase(os, reg, w, p);
    lemma_fine_before(c, reg, out);
    lemma_grows_itself(reg);
    if is_object(os, p) {
        let isa = phase_isa(os, p);
        lemma_put(c, reg, w, p, Kind::Phase);
        let r0 = register(reg, w, p, phase_component(os, p, isa), isa);
        assert(r0 == Registry { rows: upsert(reg.rows, p, row_of(os, reg, w, p, Kind::Phase)), ..reg });
        lemma_grows_on(pre, reg, r0);
        let visit = |r: Registry, f: Seq<char>| visit_build_file(os, r, p, f);
        let us = list_field(os, p, "files"@);
        let closed = |f: Seq<char>| closed_file(c, pre, end, p, f);
        assert forall|r: Registry, f: Seq<char>| eases(r, #[trigger] visit(r, f)) by {
            ease_file(os, r, p, f);
        }
        assert forall|r: Registry, f: Seq<char>|
            us.contains(f) && is_right(c, r) && grows(r0, r) && is_fine(
                c,
                #[trigger] visit(r, f),
            ) implies is_right(c, visit(r, f)) && grows(r, visit(r, f)) && (grows(visit(r, f), end)
            ==> closed(f)) by {
            assert(is_known(r0, p));
            lemma_grows_on(pre, r0, r);
            lemma_file(c, pre, end, r, p, f);
        }
        lemma_grows_itself(r0);
        lemma_all(c, end, r0, r0, us, visit, closed);
        lemma_grows_on(reg, r0, out);
        if grows(out, end) {
            lemma_grows_on(r0, out, end);
            lemma_row_stays(os, r0, end, w, p, Kind::Phase);
            assert forall|f: Seq<char>| #[trigger] us.contains(f) implies closed_file(
                c,
                pre,
                end,
                p,
                f,
            ) by {
                assert(closed(f));
            }
        }
    }
}

pub open spec fn closed_rule(c: Reach, end: Registry, w: Seq<char>, u: Seq<char>) -> bool {
    if is_object(c.os, u) {
        is_placed_by(c.os, end, w, u, Kind::Rule)
    } else {
        end.remove.contains(u)
    }
}

proof fn lemma_rule(c: Reach, end: Registry, reg: Registry, w: Seq<char>, u: Seq<char>)
    requires
        is_right(c, reg),
        has_single_owners(c),
        is_fine(c, visit_rule(c.os, reg, w, u)),
        is_known(reg, w),
        list_field(c.os, w, "buildRules"@).contains(u),
    ensures
        is_right(c, visit_rule(c.os, reg, w, u)),
        grows(reg, visit_rule(c.os, reg, w, u)),
        grows(visit_rule(c.os, reg, w, u), end) ==> closed_rule(c, end, w, u),
{
    let os = c.os;
    let out = visit_rule(os, reg, w, u);
    ease_rule(os, reg, w, u);
    lemma_fine_before(c, reg, out);
    if is_object(os, u) {
        lemma_put(c, reg, w, u, Kind::Rule);
        assert(out == Registry { rows: upsert(reg.rows, u, row_of(os, reg, w, u, Kind::Rule)), ..reg });
        if grows(out, end) {
            lemma_row_stays(os, out, end, w, u, Kind::Rule);
        }
    } else {
        lemma_drop(c, reg, u);
    }
}

/// The packages of products are listed by the project.
pub open spec fn packages_are_listed(c: Reach) -> bool {
    forall|d: Seq<char>|
        (c.live)(d) ==> match #[trigger] text_field(c.os, d, "package"@) {
            Some(x) => is_object(c.os, x) ==> list_field(
                c.os,
                c.root,
                "packageReferences"@,
            ).contains(x),
            None => true,
        }
}

proof fn lemma_product(c: Reach, end: Registry, reg: Registry, w: Seq<char>, u: Seq<char>)
    requires
        is_right(c, reg),
        has_single_owners(c),
        packages_are_listed(c),
        is_fine(c, visit_product(c.os, c.root, reg, w, u)),
        is_known(reg, w),
        list_field(c.os, w, "packageProductDependencies"@).contains(u),
    ensures
        is_right(c, visit_product(c.os, c.root, reg, w, u)),
        grows(reg, visit_product(c.os, c.root, reg, w, u)),
        grows(visit_product(c.os, c.root, reg, w, u), end) ==> (is_object(c.os, u)
            ==> is_placed_by(c.os, end, w, u, Kind::Product)),
{
    let os = c.os;
    let out = visit_product(os, c.root, reg, w, u);
    ease_product(os, c.root, reg, w, u);
    lemma_fine_before(c, reg, out);
    lemma_grows_itself(reg);
    if is_object(os, u) {
        if is_known(reg, u) {
            lemma_known_owner(c, reg, w, u, Kind::Product);
            if grows(out, end) {
                lemma_row_stays(os, out, end, w, u, Kind::Product);
            }
        } else {
            let name = text_field(os, u, "productName"@);
            let e = expose(reg, name is Some, u);
            let r = register(e, w, u, or_text(name, u), "XCSwiftPackageProductDependency"@);
            if let Some(package) = text_field(os, u, "package"@) {
                ease_package(os, r, c.root, package);
            }
            assert(eases(r, out));
            lemma_fine_before(c, r, out);
            assert(e == reg);
            lemma_put(c, reg, w, u, Kind::Product);
            assert(r == Registry { rows: upsert(reg.rows, u, row_of(os, reg, w, u, Kind::Product)), ..reg });
            assert(is_known(r, u));
            assert((c.live)(u));
            lemma_grows_itself(r);
            if let Some(package) = text_field(os, u, "package"@) {
                lemma_package(c, end, r, package);
            }
            lemma_grows_on(reg, r, out);
            if grows(out, end) {
                lemma_grows_on(r, out, end);
                lemma_row_stays(os, r, end, w, u, Kind::Product);
            }
        }
    }
}

pub open spec fn closed_target(c: Reach, pre: Registry, end: Registry, t: Seq<char>) -> bool {
    is_object(c.os, t) ==> {
        &&& match text_field(c.os, t, "buildConfigurationList"@) {
            Some(l) => closed_list(c, end, t, l),
            None => true,
        }
        &&& forall|d: Seq<char>| #[trigger]
            list_field(c.os, t, "dependencies"@).contains(d) ==> closed_dependency(c, end, t, d)
        &&& forall|p: Seq<char>| #[trigger]
            list_field(c.os, t, "buildPhases"@).contains(p) ==> closed_phase(c, pre, end, t, p)
        &&& forall|u: Seq<char>| #[trigger]
            list_field(c.os, t, "buildRules"@).contains(u) ==> closed_rule(c, end, t, u)
        &&& forall|u: Seq<char>| #[trigger]
            list_field(c.os, t, "packageProductDependencies"@).contains(u) && is_object(c.os, u)
                ==> is_placed_by(c.os, end, t, u, Kind::Product)
    }
}

/// What the parts of a target are visited in.
pub open spec fn is_set(c: Reach, pre: Registry, reg: Registry, t: Seq<char>) -> bool {
    &&& is_known(reg, t)
    &&& targets_are_known(c, reg)
    &&& grows(pre, reg)
}

proof fn lemma_set_stays(c: Reach, pre: Registry, a: Registry, b: Registry, t: Seq<char>)
    requires
        is_set(c, pre, a, t),
        grows(a, b),
    ensures
        is_set(c, pre, b, t),
{
    lemma_grows_on(pre, a, b);
    assert(lookup(b.rows, t) == lookup(a.rows, t));
    assert forall|x: Seq<char>| #[trigger] targets_of(c.os, c.root).contains(x) implies is_known(
        b,
        x,
    ) by {
        assert(is_known(a, x));
    }
}

#[verifier::rlimit(60)]
#[verifier::spinoff_prover]
proof fn lemma_target_stage(
    c: Reach,
    pre: Registry,
    end: Registry,
    reg: Registry,
    t: Seq<char>,
    n: int,
)
    requires
        1 <= n <= 5,
        is_right(c, target_stage(c.os, c.root, reg, t, n - 1)),
        is_set(c, pre, target_stage(c.os, c.root, reg, t, n - 1), t),
        has_single_owners(c),
        packages_are_listed(c),
        is_fine(c, target_stage(c.os, c.root, reg, t, n)),
    ensures
        is_right(c, target_stage(c.os, c.root, reg, t, n)),
        grows(
            target_stage(c.os, c.root, reg, t, n - 1),
            target_stage(c.os, c.root, reg, t, n),
        ),
        is_set(c, pre, target_stage(c.os, c.root, reg, t, n), t),
        grows(target_stage(c.os, c.root, reg, t, n), end) ==> {
            &&& n == 1 ==> match text_field(c.os, t, "buildConfigurationList"@) {
                Some(l) => closed_list(c, end, t, l),
                None => true,
            }
            &&& n == 2 ==> forall|d: Seq<char>| #[trigger]
                list_field(c.os, t, "dependencies"@).contains(d) ==> closed_dependency(
                    c,
                    end,
                    t,
                    d,
                )
            &&& n == 3 ==> forall|p: Seq<char>| #[trigger]
                list_field(c.os, t, "buildPhases"@).contains(p) ==> closed_phase(
                    c,
                    pre,
                    end,
                    t,
                    p,
                )
            &&& n == 4 ==> forall|u: Seq<char>| #[trigger]
                list_field(c.os, t, "buildRules"@).contains(u) ==> closed_rule(c, end, t, u)
            &&& n == 5 ==> forall|u: Seq<char>| #[trigger]
                list_field(c.os, t, "packageProductDependencies"@).contains(u) && is_object(
                    c.os,
                    u,
                ) ==> is_placed_by(c.os, end, t, u, Kind::Product)
        },
{
    let os = c.os;
    let root = c.root;
    let r0 = target_stage(os, root, reg, t, n - 1);
    let out = target_stage(os, root, reg, t, n);
    lemma_grows_itself(r0);
    if n == 1 {
        if let Some(l) = text_field(os, t, "buildConfigurationList"@) {
            lemma_list(c, end, r0, t, l);
        }
    } else if n == 2 {
        let us = list_field(os, t, "dependencies"@);
        let visit = |r: Registry, x: Seq<char>| visit_dependency(os, r, t, x);
        let closed = |x: Seq<char>| closed_dependency(c, end, t, x);
        assert forall|r: Registry, x: Seq<char>| eases(r, #[trigger] visit(r, x)) by {
            ease_dependency(os, r, t, x);
        }
        assert forall|r: Registry, x: Seq<char>|
            us.contains(x) && is_right(c, r) && grows(r0, r) && is_fine(
                c,
                #[trigger] visit(r, x),
            ) implies is_right(c, visit(r, x)) && grows(r, visit(r, x)) && (grows(visit(r, x), end)
            ==> closed(x)) by {
            lemma_set_stays(c, pre, r0, r, t);
            lemma_dependency(c, end, r, t, x);
        }
        lemma_all(c, end, r0, r0, us, visit, closed);
        if grows(out, end) {
            assert forall|d: Seq<char>| #[trigger] us.contains(d) implies closed_dependency(
                c,
                end,
                t,
                d,
            ) by {
                assert(closed(d));
            }
        }
    } else if n == 3 {
        let us = list_field(os, t, "buildPhases"@);
        let visit = |r: Registry, x: Seq<char>| visit_phase(os, r, t, x);
        let closed = |x: Seq<char>| closed_phase(c, pre, end, t, x);
        assert forall|r: Registry, x: Seq<char>| eases(r, #[trigger] visit(r, x)) by {
            ease_phase(os, r, t, x);
        }
        assert forall|r: Registry, x: Seq<char>|
            us.contains(x) && is_right(c, r) && grows(r0, r) && is_fine(
                c,
                #[trigger] visit(r, x),
            ) implies is_right(c, visit(r, x)) && grows(r, visit(r, x)) && (grows(visit(r, x), end)
            ==> closed(x)) by {
            lemma_set_stays(c, pre, r0, r, t);
            lemma_phase(c, pre, end, r, t, x);
        }
        lemma_all(c, end, r0, r0, us, visit, closed);
        if grows(out, end) {
            assert forall|p: Seq<char>| #[trigger] us.contains(p) implies closed_phase(
                c,
                pre,
                end,
                t,
                p,
            ) by {
                assert(closed(p));
            }
        }
    } else if n == 4 {
        let us = list_field(os, t, "buildRules"@);
        let visit = |r: Registry, x: Seq<char>| visit_rule(os, r, t, x);
        let closed = |x: Seq<char>| closed_rule(c, end, t, x);
        assert forall|r: Registry, x: Seq<char>| eases(r, #[trigger] visit(r, x)) by {
            ease_rule(os, r, t, x);
        }
        assert forall|r: Registry, x: Seq<char>|
            us.contains(x) && is_right(c, r) && grows(r0, r) && is_fine(
                c,
                #[trigger] visit(r, x),
            ) implies is_right(c, visit(r, x)) && grows(r, visit(r, x)) && (grows(visit(r, x), end)
            ==> closed(x)) by {
            lemma_set_stays(c, pre, r0, r, t);
            lemma_rule(c, end, r, t, x);
        }
        lemma_all(c, end, r0, r0, us, visit, closed);
        if grows(out, end) {
            assert forall|u: Seq<char>| #[trigger] us.contains(u) implies closed_rule(
                c,
                end,
                t,
                u,
            ) by {
                assert(closed(u));
            }
        }
    } else {
        let us = list_field(os, t, "packageProductDependencies"@);
        let visit = |r: Registry, x: Seq<char>| visit_product(os, root, r, t, x);
        let closed = |x: Seq<char>|
            is_object(os, x) ==> is_placed_by(os, end, t, x, Kind::Product);
        assert forall|r: Registry, x: Seq<char>| eases(r, #[trigger] visit(r, x)) by {
            ease_product(os, root, r, t, x);
        }
        assert forall|r: Registry, x: Seq<char>|
            us.contains(x) && is_right(c, r) && grows(r0, r) && is_fine(
                c,
                #[trigger] visit(r, x),
            ) implies is_right(c, visit(r, x)) && grows(r, visit(r, x)) && (grows(visit(r, x), end)
            ==> closed(x)) by {
            lemma_set_stays(c, pre, r0, r, t);
            lemma_product(c, end, r, t, x);
        }
        lemma_all(c, end, r0, r0, us, visit, closed);
        if grows(out, end) {
            assert forall|u: Seq<char>| #[trigger] us.contains(u) && is_object(
                os,
                u,
            ) implies is_placed_by(os, end, t, u, Kind::Product) by {
                assert(closed(u));
            }
        }
    }
    lemma_set_stays(c, pre, r0, out, t);
}

proof fn lemma_target(c: Reach, pre: Registry, end: Registry, reg: Registry, t: Seq<char>)
    requires
        is_right(c, reg),
        is_set(c, pre, reg, t),
        has_single_owners(c),
        packages_are_listed(c),
        is_fine(c, visit_target(c.os, c.root, reg, t)),
    ensures
        is_right(c, visit_target(c.os, c.root, reg, t)),
        grows(reg, visit_target(c.os, c.root, reg, t)),
        grows(visit_target(c.os, c.root, reg, t), end) ==> closed_target(c, pre, end, t),
{
    let os = c.os;
    let root = c.root;
    lemma_grows_itself(reg);
    if is_object(os, t) {
        lemma_target_stages(os, root, reg, t);
        let r0 = target_stage(os, root, reg, t, 0);
        let r1 = target_stage(os, root, reg, t, 1);
        let r2 = target_stage(os, root, reg, t, 2);
        let r3 = target_stage(os, root, reg, t, 3);
        let r4 = target_stage(os, root, reg, t, 4);
        let r5 = target_stage(os, root, reg, t, 5);
        ease_target_stage(os, root, reg, t, 2);
        ease_target_stage(os, root, reg, t, 3);
        ease_target_stage(os, root, reg, t, 4);
        ease_target_stage(os, root, reg, t, 5);
        lemma_fine_before(c, r4, r5);
        lemma_fine_before(c, r3, r4);
        lemma_fine_before(c, r2, r3);
        lemma_fine_before(c, r1, r2);
        assert(r0 == reg);
        lemma_target_stage(c, pre, end, reg, t, 1);
        lemma_target_stage(c, pre, end, reg, t, 2);
        lemma_target_stage(c, pre, end, reg, t, 3);
        lemma_target_stage(c, pre, end, reg, t, 4);
        lemma_target_stage(c, pre, end, reg, t, 5);
        lemma_grows_on(r0, r1, r2);
        lemma_grows_on(r0, r2, r3);
        lemma_grows_on(r0, r3, r4);
        lemma_grows_on(r0, r4, r5);
        if grows(r5, end) {
            lemma_grows_on(r4, r5, end);
            lemma_grows_on(r3, r4, end);
            lemma_grows_on(r2, r3, end);
            lemma_grows_on(r1, r2, end);
        }
    }
}

// ── The whole project ────────────────────────────────────────────────────────

/// The stages of the traversal: behind the main group, the configurations, the
/// other projects, the packages, the targets and their parts.
pub open spec fn project_stage(p: Project, name: Seq<char>, n: int) -> Registry
    decreases n,
{
    let os = p.objects;
    let root = p.root_object;
    if n <= 0 {
        Registry {
            rows: seq![(root, (name, md5_hex(name)))],
            remove: Seq::empty(),
            warnings: Seq::empty(),
            exposed: Seq::empty(),
        }
    } else {
        let r = project_stage(p, name, n - 1);
        if n == 1 {
            match text_field(os, root, "mainGroup"@) {
                Some(group) => visit_group(os, r, root, group, os.len() + 1),
                None => r,
            }
        } else if n == 2 {
            match text_field(os, root, "buildConfigurationList"@) {
                Some(list) => visit_configuration_list(os, r, root, list),
                None => r,
            }
        } else if n == 3 {
            match field(os, root, "projectReferences"@) {
                Some(Plist::Array(items)) => visit_references(os, r, items, os.len() + 1),
                _ => r,
            }
        } else if n == 4 {
            visit_all(
                r,
                list_field(os, root, "packageReferences"@),
                |r: Registry, x: Seq<char>| visit_package(os, r, root, x),
            )
        } else if n == 5 {
            visit_all(
                r,
                list_field(os, root, "targets"@),
                |r: Registry, x: Seq<char>| visit_target_early(os, r, root, x),
            )
        } else {
            visit_all(
                r,
                list_field(os, root, "targets"@),
                |r: Registry, x: Seq<char>| visit_target(os, root, r, x),
            )
        }
    }
}

pub proof fn lemma_project_stages(p: Project, name: Seq<char>)
    ensures
        registry(p, name) == project_stage(p, name, 6),
{
    reveal(registry);
    reveal_with_fuel(project_stage, 7);
}

pub proof fn ease_project_stage(p: Project, name: Seq<char>, n: int)
    requires
        1 <= n <= 6,
    ensures
        eases(project_stage(p, name, n - 1), project_stage(p, name, n)),
{
    let os = p.objects;
    let root = p.root_object;
    let r = project_stage(p, name, n - 1);
    if n == 1 {
        if let Some(group) = text_field(os, root, "mainGroup"@) {
            ease_group(os, r, root, group, os.len() + 1);
        }
    } else if n == 2 {
        if let Some(list) = text_field(os, root, "buildConfigurationList"@) {
            ease_list(os, r, root, list);
        }
    } else if n == 3 {
        if let Some(Plist::Array(items)) = field(os, root, "projectReferences"@) {
            ease_references(os, r, items, os.len() + 1);
        }
    } else if n == 4 {
        let visit = |r: Registry, x: Seq<char>| visit_package(os, r, root, x);
        assert forall|r: Registry, x: Seq<char>| eases(r, #[trigger] visit(r, x)) by {
            ease_package(os, r, root, x);
        }
        ease_all(r, list_field(os, root, "packageReferences"@), visit);
    } else if n == 5 {
        let visit = |r: Registry, x: Seq<char>| visit_target_early(os, r, root, x);
        assert forall|r: Registry, x: Seq<char>| eases(r, #[trigger] visit(r, x)) by {
            ease_early(os, r, root, x);
        }
        ease_all(r, list_field(os, root, "targets"@), visit);
    } else {
        let visit = |r: Registry, x: Seq<char>| visit_target(os, root, r, x);
        assert forall|r: Registry, x: Seq<char>| eases(r, #[trigger] visit(r, x)) by {
            ease_target(os, root, r, x);
        }
        ease_all(r, list_field(os, root, "targets"@), visit);
    }
}

/// A project whose traversal does not depend on its order.
pub open spec fn is_clear(c: Reach) -> bool {
    &&& has_single_owners(c)
    &&& tree_is_clear(c)
    &&& packages_are_listed(c)
}

pub open spec fn reach_of(p: Project, name: Seq<char>, live: spec_fn(Seq<char>) -> bool) -> Reach {
    Reach { os: p.objects, root: p.root_object, name, live }
}

/// Everything that the project refers to is registered, or to be dropped.
pub open spec fn closed_stage(
    c: Reach,
    pre: Registry,
    end: Registry,
    fuel: nat,
    n: int,
) -> bool {
    &&& n == 1 ==> match text_field(c.os, c.root, "mainGroup"@) {
        Some(g) => closed_group(c, end, c.root, g, fuel),
        None => true,
    }
    &&& n == 2 ==> match text_field(c.os, c.root, "buildConfigurationList"@) {
        Some(l) => closed_list(c, end, c.root, l),
        None => true,
    }
    &&& n == 3 ==> forall|g: Seq<char>, w: Seq<char>| #[trigger]
        has_reference(c.os, c.root, g, w) ==> closed_group(c, end, w, g, fuel)
    &&& n == 4 ==> forall|u: Seq<char>| #[trigger]
        list_field(c.os, c.root, "packageReferences"@).contains(u) && is_object(c.os, u)
            ==> is_placed_by(c.os, end, c.root, u, Kind::Package)
    &&& n == 5 ==> forall|t: Seq<char>| #[trigger]
        targets_of(c.os, c.root).contains(t) ==> is_placed_by(c.os, end, c.root, t, Kind::Target)
    &&& n == 6 ==> forall|t: Seq<char>| #[trigger]
        targets_of(c.os, c.root).contains(t) ==> closed_target(c, pre, end, t)
}

#[verifier::rlimit(60)]
#[verifier::spinoff_prover]
proof fn lemma_project_stage(
    p: Project,
    name: Seq<char>,
    live: spec_fn(Seq<char>) -> bool,
    end: Registry,
    n: int,
)
    requires
        1 <= n <= 6,
        is_clear(reach_of(p, name, live)),
        n >= 3 ==> projects_are_known(reach_of(p, name, live), project_stage(p, name, 1)),
        is_right(reach_of(p, name, live), project_stage(p, name, n - 1)),
        n > 1 ==> grows(project_stage(p, name, 1), project_stage(p, name, n - 1)),
        n > 5 ==> grows(project_stage(p, name, 4), project_stage(p, name, n - 1)),
        n > 5 ==> targets_are_known(reach_of(p, name, live), project_stage(p, name, n - 1)),
        is_fine(reach_of(p, name, live), project_stage(p, name, n)),
    ensures
        is_right(reach_of(p, name, live), project_stage(p, name, n)),
        grows(project_stage(p, name, n - 1), project_stage(p, name, n)),
        n == 5 ==> targets_are_known(reach_of(p, name, live), project_stage(p, name, n)),
        grows(project_stage(p, name, n), end) ==> closed_stage(
            reach_of(p, name, live),
            project_stage(p, name, 4),
            end,
            p.objects.len() + 1,
            n,
        ),
{
    let c = reach_of(p, name, live);
    let os = p.objects;
    let root = p.root_object;
    let fuel = os.len() + 1;
    let pre = project_stage(p, name, 4);
    let r0 = project_stage(p, name, n - 1);
    let out = project_stage(p, name, n);
    lemma_grows_itself(r0);
    assert(is_known(r0, root));
    if n == 1 {
        if let Some(g) = text_field(os, root, "mainGroup"@) {
            lemma_group(c, end, r0, root, g, fuel);
        }
    } else if n == 2 {
        if let Some(l) = text_field(os, root, "buildConfigurationList"@) {
            lemma_list(c, end, r0, root, l);
        }
    } else if n == 3 {
        assert forall|g: Seq<char>, w: Seq<char>| #[trigger]
            has_reference(os, root, g, w) implies is_known(r0, w) by {
            let main = project_stage(p, name, 1);
            assert(is_known(main, w));
            assert(lookup(r0.rows, w) == lookup(main.rows, w));
        }
        let all = references(os, root);
        assert forall|i: int| 0 <= i < all.len() implies all.contains(#[trigger] all[i]) by {
        }
        match field(os, root, "projectReferences"@) {
            Some(Plist::Array(items)) => {
                lemma_references(c, end, r0, items, fuel);
                if grows(out, end) {
                    assert forall|g: Seq<char>, w: Seq<char>| #[trigger]
                        has_reference(os, root, g, w) implies closed_group(
                        c,
                        end,
                        w,
                        g,
                        fuel,
                    ) by {
                        let i = choose|i: int|
                            0 <= i < all.len() && reference_of(#[trigger] all[i]) == Some((g, w));
                        assert(closed_reference(c, end, items[i], fuel));
                    }
                }
            },
            _ => {
                assert(all =~= Seq::empty());
                assert forall|g: Seq<char>, w: Seq<char>| !#[trigger]
                    has_reference(os, root, g, w) by {
                }
            },
        }
    } else if n == 4 {
        let us = list_field(os, root, "packageReferences"@);
        let visit = |r: Registry, x: Seq<char>| visit_package(os, r, root, x);
        let closed = |x: Seq<char>|
            is_object(os, x) ==> is_placed_by(os, end, root, x, Kind::Package);
        assert forall|r: Registry, x: Seq<char>| eases(r, #[trigger] visit(r, x)) by {
            ease_package(os, r, root, x);
        }
        assert forall|r: Registry, x: Seq<char>|
            us.contains(x) && is_right(c, r) && grows(r0, r) && is_fine(
                c,
                #[trigger] visit(r, x),
            ) implies is_right(c, visit(r, x)) && grows(r, visit(r, x)) && (grows(visit(r, x), end)
            ==> closed(x)) by {
            lemma_package(c, end, r, x);
        }
        lemma_all(c, end, r0, r0, us, visit, closed);
        if grows(out, end) {
            assert forall|u: Seq<char>| #[trigger] us.contains(u) && is_object(
                os,
                u,
            ) implies is_placed_by(os, end, root, u, Kind::Package) by {
                assert(closed(u));
            }
        }
    } else if n == 5 {
        let us = targets_of(os, root);
        let visit = |r: Registry, x: Seq<char>| visit_target_early(os, r, root, x);
        let closed = |x: Seq<char>| is_placed_by(os, end, root, x, Kind::Target);
        let closed_here = |x: Seq<char>| is_placed_by(os, out, root, x, Kind::Target);
        assert forall|r: Registry, x: Seq<char>| eases(r, #[trigger] visit(r, x)) by {
            ease_early(os, r, root, x);
        }
        assert forall|r: Registry, x: Seq<char>|
            us.contains(x) && is_right(c, r) && grows(r0, r) && is_fine(
                c,
                #[trigger] visit(r, x),
            ) implies is_right(c, visit(r, x)) && grows(r, visit(r, x)) && (grows(visit(r, x), end)
            ==> closed(x)) by {
            lemma_early(c, end, r, x);
        }
        assert forall|r: Registry, x: Seq<char>|
            us.contains(x) && is_right(c, r) && grows(r0, r) && is_fine(
                c,
                #[trigger] visit(r, x),
            ) implies is_right(c, visit(r, x)) && grows(r, visit(r, x)) && (grows(visit(r, x), out)
            ==> closed_here(x)) by {
            lemma_early(c, out, r, x);
        }
        lemma_all(c, end, r0, r0, us, visit, closed);
        lemma_all(c, out, r0, r0, us, visit, closed_here);
        lemma_grows_itself(out);
        assert forall|t: Seq<char>| #[trigger] us.contains(t) implies is_known(out, t) by {
            assert(closed_here(t));
        }
        if grows(out, end) {
            assert forall|t: Seq<char>| #[trigger] us.contains(t) implies is_placed_by(
                os,
                end,
                root,
                t,
                Kind::Target,
            ) by {
                assert(closed(t));
            }
        }
    } else {
        let us = targets_of(os, root);
        let visit = |r: Registry, x: Seq<char>| visit_target(os, root, r, x);
        let closed = |x: Seq<char>| closed_target(c, pre, end, x);
        assert forall|r: Registry, x: Seq<char>| eases(r, #[trigger] visit(r, x)) by {
            ease_target(os, root, r, x);
        }
        assert forall|r: Registry, x: Seq<char>|
            us.contains(x) && is_right(c, r) && grows(r0, r) && is_fine(
                c,
                #[trigger] visit(r, x),
            ) implies is_right(c, visit(r, x)) && grows(r, visit(r, x)) && (grows(visit(r, x), end)
            ==> closed(x)) by {
            assert(is_known(r0, x));
            assert(is_set(c, pre, r0, x));
            lemma_set_stays(c, pre, r0, r, x);
            lemma_target(c, pre, end, r, x);
        }
        lemma_all(c, end, r0, r0, us, visit, closed);
        if grows(out, end) {
            assert forall|t: Seq<char>| #[trigger] us.contains(t) implies closed_target(
                c,
                pre,
                end,
                t,
            ) by {
                assert(closed(t));
            }
        }
    }
}

/// What the traversal leaves is right, stage by stage.
pub proof fn lemma_project_right(
    p: Project,
    name: Seq<char>,
    live: spec_fn(Seq<char>) -> bool,
    n: int,
)
    requires
        0 <= n <= 6,
        is_clear(reach_of(p, name, live)),
        n >= 3 ==> projects_are_known(reach_of(p, name, live), project_stage(p, name, 1)),
        is_fine(reach_of(p, name, live), project_stage(p, name, n)),
    ensures
        forall|i: int|
            0 <= i <= n ==> is_right(
                reach_of(p, name, live),
                #[trigger] project_stage(p, name, i),
            ),
        forall|i: int|
            0 <= i <= n ==> grows(#[trigger] project_stage(p, name, i), project_stage(p, name, n)),
        n >= 5 ==> targets_are_known(reach_of(p, name, live), project_stage(p, name, n)),
        forall|i: int|
            0 <= i <= n ==> is_fine(
                reach_of(p, name, live),
                #[trigger] project_stage(p, name, i),
            ),
    decreases n,
{
    let c = reach_of(p, name, live);
    let out = project_stage(p, name, n);
    lemma_grows_itself(out);
    if n == 0 {
        let rows = out.rows;
        assert(rows.drop_last() =~= Seq::empty());
        crate::table::lemma_slot(rows, c.root);
        assert(rows[0] == (c.root, (name, md5_hex(name))));
        assert forall|u: Seq<char>| #[trigger] is_known(out, u) implies u == c.root by {
            crate::table::lemma_slot(rows, u);
        }
    } else {
        let before = project_stage(p, name, n - 1);
        ease_project_stage(p, name, n);
        lemma_fine_before(c, before, out);
        lemma_project_right(p, name, live, n - 1);
        assert(is_right(c, project_stage(p, name, n - 1)));
        if n > 1 {
            assert(grows(project_stage(p, name, 1), before));
        }
        if n > 5 {
            assert(grows(project_stage(p, name, 4), before));
        }
        lemma_project_stage(p, name, live, out, n);
        assert forall|i: int| 0 <= i <= n implies grows(#[trigger] project_stage(p, name, i), out) by {
            if i < n {
                assert(grows(project_stage(p, name, i), before));
                lemma_grows_on(project_stage(p, name, i), before, out);
            }
        }
        if n == 6 {
            assert forall|t: Seq<char>| #[trigger] targets_of(c.os, c.root).contains(t) implies is_known(
                out,
                t,
            ) by {
                assert(is_known(before, t));
            }
        }
    }
}

/// Stage `n` is closed in any later one.
pub proof fn lemma_project_closed(
    p: Project,
    name: Seq<char>,
    live: spec_fn(Seq<char>) -> bool,
    n: int,
    m: int,
)
    requires
        1 <= n <= m <= 6,
        is_clear(reach_of(p, name, live)),
        m >= 3 ==> projects_are_known(reach_of(p, name, live), project_stage(p, name, 1)),
        is_fine(reach_of(p, name, live), project_stage(p, name, m)),
    ensures
        closed_stage(
            reach_of(p, name, live),
            project_stage(p, name, 4),
            project_stage(p, name, m),
            p.objects.len() + 1,
            n,
        ),
{
    let c = reach_of(p, name, live);
    let end = project_stage(p, name, m);
    lemma_project_right(p, name, live, m);
    assert(is_fine(c, project_stage(p, name, n)));
    lemma_project_right(p, name, live, n);
    assert(is_right(c, project_stage(p, name, n - 1)));
    assert(is_fine(c, project_stage(p, name, n - 1)));
    lemma_project_right(p, name, live, n - 1);
    if n > 1 {
        assert(grows(project_stage(p, name, 1), project_stage(p, name, n - 1)));
    }
    if n > 5 {
        assert(grows(project_stage(p, name, 4), project_stage(p, name, n - 1)));
    }
    assert(grows(project_stage(p, name, n), end));
    lemma_project_stage(p, name, live, end, n);
}

} // verus!
