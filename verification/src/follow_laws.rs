//! One traversal follows another.
//!
//! Where the objects of a project correspond to those of another, in whatever
//! order they are listed, they get the same paths.

use crate::closure_laws::{
    closed_dependency, closed_file, closed_group, closed_list, closed_phase, closed_proxy,
    closed_rule, closed_stage, closed_target, project_stage,
};
use crate::link_laws::{
    dependency_component, ease_all, ease_children, ease_dependency, ease_early, ease_file,
    ease_group, ease_package, ease_phase, ease_product, ease_proxy, ease_references, ease_register,
    ease_rule, ease_target, ease_target_stage, eases, group_isa, group_name, is_placed_by,
    is_ready, lemma_eases_on, lemma_target_stages, owns, phase_isa, remote_path, row_of,
    target_stage, targets_of, Kind, Reach,
};
use crate::naming_laws::is_known;
use crate::parser::{field, Plist, Project};
use crate::project_facts::has_reference;
use crate::renaming_laws::{describes, lists_objects, reference_of, references, refers};
use crate::table::{distinct_keys, lemma_upsert, lookup, upsert};
use crate::uniquifier::{
    expose, is_object, list_field, md5_hex, or_text, path_of, phase_component, referenced,
    register, text_field, visit_all, visit_build_file, visit_children, visit_configuration,
    visit_configuration_list, visit_dependency, visit_group, visit_package, visit_phase,
    visit_product, visit_proxy, visit_references, visit_rule, visit_target, visit_target_early,
    Objects, Registry,
};
use vstd::prelude::*;

verus! {

// ── Correspondence ───────────────────────────────────────────────────────────

/// A project whose traversal follows that of another.
pub ghost struct Trail {
    pub os: Objects,
    pub root: Seq<char>,
    /// What may be registered.
    pub live: spec_fn(Seq<char>) -> bool,
    /// The other project.
    pub to: Reach,
    /// An object and a counterpart of it there.
    pub rel: spec_fn(Seq<char>, Seq<char>) -> bool,
    /// What has a counterpart.
    pub ok: spec_fn(Seq<char>) -> bool,
    /// Everything has one.
    pub full: bool,
}

/// A field without which the path of an object is another.
pub open spec fn is_needed(name: Seq<char>) -> bool {
    name == "target"@ || name == "containerPortal"@
}

/// The texts are both missing, or counterparts.
pub open spec fn pairs(t: Trail, x: Option<Seq<char>>, y: Option<Seq<char>>) -> bool {
    match x {
        Some(u) => match y {
            Some(b) => (t.rel)(u, b),
            None => false,
        },
        None => y is None,
    }
}

pub open spec fn ok_opt(t: Trail, x: Option<Seq<char>>) -> bool {
    match x {
        Some(u) => (t.ok)(u),
        None => true,
    }
}

/// An object has a counterpart.
#[verifier::opaque]
pub open spec fn has_pair(t: Trail, u: Seq<char>) -> bool {
    exists|b: Seq<char>| #[trigger] (t.rel)(u, b)
}

/// The objects correspond in their fields.
pub open spec fn fields_agree(t: Trail) -> bool {
    &&& (t.rel)(t.root, t.to.root)
    &&& forall|u: Seq<char>, b: Seq<char>| #[trigger] (t.rel)(u, b) ==> (t.ok)(u)
    &&& forall|u: Seq<char>| #[trigger] (t.ok)(u) ==> has_pair(t, u)
    &&& forall|u: Seq<char>, b: Seq<char>| #[trigger]
        (t.rel)(u, b) && #[trigger] is_object(t.os, u) ==> is_object(t.to.os, b)
    &&& forall|u: Seq<char>, b: Seq<char>, n: Seq<char>| #[trigger]
        (t.rel)(u, b) && describes(n) ==> #[trigger] text_field(t.os, u, n) == text_field(
            t.to.os,
            b,
            n,
        )
    &&& forall|u: Seq<char>, b: Seq<char>, n: Seq<char>| #[trigger]
        (t.rel)(u, b) && refers(n) && (#[trigger] text_field(t.os, u, n)) is Some && ok_opt(
            t,
            text_field(t.os, u, n),
        ) ==> pairs(t, text_field(t.os, u, n), text_field(t.to.os, b, n))
    &&& forall|u: Seq<char>, b: Seq<char>, n: Seq<char>| #[trigger]
        (t.rel)(u, b) && (t.live)(u) && is_needed(n) ==> pairs(
            t,
            #[trigger] text_field(t.os, u, n),
            text_field(t.to.os, b, n),
        )
    &&& forall|u: Seq<char>, b: Seq<char>| #[trigger]
        (t.rel)(u, b) && (t.live)(u) ==> pairs(
            t,
            #[trigger] referenced(t.os, u),
            referenced(t.to.os, b),
        )
}

/// A list there holds a counterpart.
#[verifier::opaque]
pub open spec fn lists_pair(t: Trail, b: Seq<char>, n: Seq<char>, x: Seq<char>) -> bool {
    exists|y: Seq<char>| #[trigger] (t.rel)(x, y) && list_field(t.to.os, b, n).contains(y)
}

/// The project there refers to counterparts.
#[verifier::opaque]
pub open spec fn refers_to_pair(t: Trail, x: Seq<char>, w: Seq<char>) -> bool {
    exists|y: Seq<char>, v: Seq<char>| #[trigger]
        (t.rel)(x, y) && #[trigger] (t.rel)(w, v) && has_reference(t.to.os, t.to.root, y, v)
}

/// The objects correspond in what they list.
pub open spec fn lists_agree(t: Trail) -> bool {
    &&& forall|u: Seq<char>, b: Seq<char>, n: Seq<char>, x: Seq<char>| #[trigger]
        (t.rel)(u, b) && (t.ok)(x) && lists_objects(n) && #[trigger] list_field(
            t.os,
            u,
            n,
        ).contains(x) ==> lists_pair(t, b, n, x)
    &&& forall|x: Seq<char>, w: Seq<char>|
        (t.ok)(x) && (t.ok)(w) && #[trigger] has_reference(t.os, t.root, x, w) ==> refers_to_pair(
            t,
            x,
            w,
        )
    &&& forall|u: Seq<char>, b: Seq<char>| #[trigger]
        (t.rel)(u, b) && !#[trigger] targets_of(t.os, t.root).contains(u) ==> !targets_of(
            t.to.os,
            t.to.root,
        ).contains(b)
}

/// What is owned has a counterpart.
pub open spec fn owned_agree(t: Trail) -> bool {
    &&& forall|w: Seq<char>, u: Seq<char>, k: Kind|
        (t.ok)(w) && (t.live)(w) && (t.live)(u) && #[trigger] owns(t.os, t.root, w, u, k) ==> (t.ok)(
            u,
        ) || (!t.full && (k is File || k is Product))
    &&& t.full ==> forall|w: Seq<char>, n: Seq<char>, u: Seq<char>|
        (t.ok)(w) && lists_objects(n) && #[trigger] list_field(t.os, w, n).contains(u) ==> (t.ok)(u)
    &&& t.full ==> forall|w: Seq<char>, n: Seq<char>|
        (t.ok)(w) && refers(n) ==> ok_opt(t, #[trigger] text_field(t.os, w, n))
    &&& t.full ==> forall|x: Seq<char>, w: Seq<char>| #[trigger]
        has_reference(t.os, t.root, x, w) ==> (t.ok)(x) && (t.ok)(w)
    &&& t.full ==> forall|u: Seq<char>, b: Seq<char>| #[trigger]
        (t.rel)(u, b) ==> #[trigger] is_object(t.os, u) == is_object(t.to.os, b)
    &&& t.full ==> forall|u: Seq<char>| #[trigger] (t.live)(u)
}

pub open spec fn agrees(t: Trail) -> bool {
    fields_agree(t) && lists_agree(t) && owned_agree(t)
}

/// What is to be dropped there has no counterpart here.
pub open spec fn drops_apart(t: Trail, end: Registry) -> bool {
    t.full ==> forall|u: Seq<char>, b: Seq<char>| #[trigger]
        (t.rel)(u, b) ==> !end.remove.contains(b)
}

/// A counterpart has this row.
#[verifier::opaque]
pub open spec fn has_row(
    t: Trail,
    end: Registry,
    u: Seq<char>,
    row: Option<(Seq<char>, Seq<char>)>,
) -> bool {
    exists|b: Seq<char>| #[trigger] (t.rel)(u, b) && lookup(end.rows, b) == row
}

/// Counterparts of one object have one row, as far as they are registered.
pub open spec fn shares_rows(t: Trail, end: Registry) -> bool {
    forall|u: Seq<char>, b: Seq<char>, c: Seq<char>| #[trigger]
        (t.rel)(u, b) && #[trigger] (t.rel)(u, c) && is_known(end, b) && is_known(end, c)
            ==> lookup(end.rows, b) == lookup(end.rows, c)
}

/// What is registered has the row of its counterparts.
pub open spec fn tracks(t: Trail, end: Registry, reg: Registry) -> bool {
    &&& distinct_keys(reg.rows)
    &&& shares_rows(t, end)
    &&& forall|u: Seq<char>| #[trigger]
        is_known(reg, u) && (t.ok)(u) ==> has_row(t, end, u, lookup(reg.rows, u))
    &&& t.full ==> forall|u: Seq<char>| #[trigger] is_known(reg, u) ==> (t.ok)(u)
    &&& forall|u: Seq<char>| #[trigger] is_known(reg, u) ==> (t.live)(u)
}

/// What is registered may be, and has its names.
pub open spec fn is_quiet(t: Trail, reg: Registry) -> bool {
    &&& forall|u: Seq<char>| #[trigger] is_known(reg, u) ==> (t.live)(u)
    &&& !t.full ==> reg.exposed.len() == 0
}

/// A step that follows.
pub open spec fn goes(t: Trail, end: Registry, a: Registry, b: Registry) -> bool {
    &&& tracks(t, end, b)
    &&& t.full ==> b.remove == a.remove
    &&& t.full && a.exposed.len() == 0 ==> b.exposed.len() == 0
}

proof fn lemma_quiet_before(t: Trail, a: Registry, b: Registry)
    requires
        eases(a, b),
        is_quiet(t, b),
    ensures
        is_quiet(t, a),
{
    assert forall|u: Seq<char>| #[trigger] is_known(a, u) implies (t.live)(u) by {
        assert(is_known(b, u));
    }
}

proof fn pair_of(t: Trail, u: Seq<char>) -> (b: Seq<char>)
    requires
        has_pair(t, u),
    ensures
        (t.rel)(u, b),
{
    reveal(has_pair);
    choose|b: Seq<char>| #[trigger] (t.rel)(u, b)
}

/// The counterpart in a list.
proof fn pair_in_list(
    t: Trail,
    u: Seq<char>,
    b: Seq<char>,
    n: Seq<char>,
    x: Seq<char>,
) -> (y: Seq<char>)
    requires
        agrees(t),
        (t.rel)(u, b),
        lists_objects(n),
        list_field(t.os, u, n).contains(x),
    ensures
        (t.ok)(x) ==> (t.rel)(x, y) && list_field(t.to.os, b, n).contains(y),
{
    reveal(lists_pair);
    if (t.ok)(x) {
        assert(lists_pair(t, b, n, x));
    }
    choose|y: Seq<char>| #[trigger] (t.rel)(x, y) && list_field(t.to.os, b, n).contains(y)
}

/// The counterpart in a field.
proof fn pair_in_field(t: Trail, u: Seq<char>, b: Seq<char>, n: Seq<char>) -> (y: Seq<char>)
    requires
        agrees(t),
        (t.rel)(u, b),
        refers(n),
        text_field(t.os, u, n) is Some,
    ensures
        (t.ok)(text_field(t.os, u, n)->Some_0) ==> (t.rel)(text_field(t.os, u, n)->Some_0, y)
            && text_field(t.to.os, b, n) == Some(y),
{
    let x = text_field(t.os, u, n);
    if (t.ok)(x->Some_0) {
        assert(pairs(t, x, text_field(t.to.os, b, n)));
    }
    text_field(t.to.os, b, n)->Some_0
}

/// A registered counterpart has the row of what is registered.
proof fn lemma_track(t: Trail, end: Registry, reg: Registry, u: Seq<char>, b: Seq<char>)
    requires
        agrees(t),
        tracks(t, end, reg),
        (t.rel)(u, b),
        is_known(reg, u),
        is_known(end, b),
    ensures
        lookup(end.rows, b) == lookup(reg.rows, u),
{
    reveal(has_row);
    assert(has_row(t, end, u, lookup(reg.rows, u)));
    let c = choose|c: Seq<char>| #[trigger]
        (t.rel)(u, c) && lookup(end.rows, c) == lookup(reg.rows, u);
    assert(is_known(end, c));
}

/// The row of an object is that of its counterpart.
#[verifier::rlimit(40)]
#[verifier::spinoff_prover]
proof fn lemma_same_row(
    t: Trail,
    end: Registry,
    reg: Registry,
    w: Seq<char>,
    u: Seq<char>,
    gw: Seq<char>,
    gu: Seq<char>,
    k: Kind,
)
    requires
        agrees(t),
        tracks(t, end, reg),
        (t.rel)(w, gw),
        (t.rel)(u, gu),
        (t.live)(u),
        is_ready(t.os, reg, w, u, k),
        is_ready(t.to.os, end, gw, gu, k),
    ensures
        row_of(t.os, reg, w, u, k) == row_of(t.to.os, end, gw, gu, k),
{
    lemma_track(t, end, reg, w, gw);
    assert(text_field(t.os, u, "isa"@) == text_field(t.to.os, gu, "isa"@));
    assert(text_field(t.os, u, "name"@) == text_field(t.to.os, gu, "name"@));
    assert(text_field(t.os, u, "path"@) == text_field(t.to.os, gu, "path"@));
    assert(text_field(t.os, u, "productName"@) == text_field(t.to.os, gu, "productName"@));
    assert(text_field(t.os, u, "defaultConfigurationName"@) == text_field(
        t.to.os,
        gu,
        "defaultConfigurationName"@,
    ));
    assert(text_field(t.os, u, "remoteInfo"@) == text_field(t.to.os, gu, "remoteInfo"@));
    assert(text_field(t.os, u, "shellScript"@) == text_field(t.to.os, gu, "shellScript"@));
    assert(text_field(t.os, u, "dstSubfolderSpec"@) == text_field(
        t.to.os,
        gu,
        "dstSubfolderSpec"@,
    ));
    assert(text_field(t.os, u, "dstPath"@) == text_field(t.to.os, gu, "dstPath"@));
    assert(text_field(t.os, u, "fileType"@) == text_field(t.to.os, gu, "fileType"@));
    assert(text_field(t.os, u, "filePatterns"@) == text_field(t.to.os, gu, "filePatterns"@));
    assert(text_field(t.os, u, "repositoryURL"@) == text_field(t.to.os, gu, "repositoryURL"@));
    match k {
        Kind::File => {
            let r = referenced(t.os, u)->Some_0;
            assert(is_known(reg, r));
            lemma_track(t, end, reg, r, referenced(t.to.os, gu)->Some_0);
        },
        Kind::Dependency => {
            assert(is_needed("target"@));
            let x = text_field(t.os, u, "target"@);
            assert(pairs(t, x, text_field(t.to.os, gu, "target"@)));
            if let Some(r) = x {
                assert(is_known(reg, r));
                lemma_track(t, end, reg, r, text_field(t.to.os, gu, "target"@)->Some_0);
            }
        },
        Kind::Remote => {
            assert(is_needed("containerPortal"@));
            assert(is_known(reg, w));
            assert((t.live)(w));
            let x = text_field(t.os, w, "containerPortal"@);
            assert(pairs(t, x, text_field(t.to.os, gw, "containerPortal"@)));
            let r = x->Some_0;
            assert(is_known(reg, r));
            lemma_track(t, end, reg, r, text_field(t.to.os, gw, "containerPortal"@)->Some_0);
            assert(remote_path(t.os, reg, w) == remote_path(t.to.os, end, gw));
        },
        _ => {},
    }
}

proof fn lemma_track_put(
    t: Trail,
    end: Registry,
    reg: Registry,
    u: Seq<char>,
    row: (Seq<char>, Seq<char>),
)
    requires
        tracks(t, end, reg),
        (t.ok)(u) ==> has_row(t, end, u, Some(row)),
        t.full ==> (t.ok)(u),
        (t.live)(u),
    ensures
        goes(t, end, reg, Registry { rows: upsert(reg.rows, u, row), ..reg }),
{
    let out = Registry { rows: upsert(reg.rows, u, row), ..reg };
    lemma_upsert(reg.rows, u, row);
    assert forall|x: Seq<char>| #[trigger] is_known(out, x) implies x == u || is_known(reg, x) by {
        if x != u {
            assert(lookup(out.rows, x) == lookup(reg.rows, x));
        }
    }
    assert forall|x: Seq<char>| #[trigger] is_known(out, x) && (t.ok)(x) implies has_row(
        t,
        end,
        x,
        lookup(out.rows, x),
    ) by {
        if x != u {
            assert(lookup(out.rows, x) == lookup(reg.rows, x));
            assert(is_known(reg, x));
        }
    }
}

/// Registering an object that has a counterpart.
proof fn lemma_follow_put(
    t: Trail,
    end: Registry,
    reg: Registry,
    w: Seq<char>,
    u: Seq<char>,
    gw: Seq<char>,
    gu: Seq<char>,
    k: Kind,
)
    requires
        agrees(t),
        tracks(t, end, reg),
        (t.rel)(w, gw),
        (t.rel)(u, gu),
        (t.live)(u),
        is_ready(t.os, reg, w, u, k),
        is_placed_by(t.to.os, end, gw, gu, k),
    ensures
        goes(
            t,
            end,
            reg,
            Registry { rows: upsert(reg.rows, u, row_of(t.os, reg, w, u, k)), ..reg },
        ),
{
    lemma_same_row(t, end, reg, w, u, gw, gu, k);
    assert(has_row(t, end, u, Some(row_of(t.os, reg, w, u, k)))) by {
        reveal(has_row);
    }
    lemma_track_put(t, end, reg, u, row_of(t.os, reg, w, u, k));
}

proof fn lemma_goes_on(t: Trail, end: Registry, a: Registry, b: Registry, c: Registry)
    requires
        goes(t, end, a, b),
        goes(t, end, b, c),
    ensures
        goes(t, end, a, c),
{
}

/// Only the rows count.
proof fn lemma_tracks_rows(t: Trail, end: Registry, a: Registry, b: Registry)
    requires
        tracks(t, end, a),
        a.rows == b.rows,
    ensures
        tracks(t, end, b),
{
    assert forall|u: Seq<char>| #[trigger] is_known(b, u) implies is_known(a, u) by {
    }
}

proof fn lemma_follow_all(
    t: Trail,
    end: Registry,
    first: Registry,
    reg: Registry,
    us: Seq<Seq<char>>,
    visit: spec_fn(Registry, Seq<char>) -> Registry,
)
    requires
        tracks(t, end, reg),
        eases(first, reg),
        is_quiet(t, visit_all(reg, us, visit)),
        forall|r: Registry, u: Seq<char>| eases(r, #[trigger] visit(r, u)),
        forall|r: Registry, u: Seq<char>|
            us.contains(u) && tracks(t, end, r) && eases(first, r) && is_quiet(
                t,
                #[trigger] visit(r, u),
            ) ==> goes(t, end, r, visit(r, u)),
    ensures
        goes(t, end, reg, visit_all(reg, us, visit)),
    decreases us.len(),
{
    let out = visit_all(reg, us, visit);
    if us.len() > 0 {
        let front = us.drop_last();
        let mid = visit_all(reg, front, visit);
        assert(eases(mid, visit(mid, us.last())));
        lemma_quiet_before(t, mid, out);
        assert forall|r: Registry, u: Seq<char>|
            front.contains(u) && tracks(t, end, r) && eases(first, r) && is_quiet(
                t,
                #[trigger] visit(r, u),
            ) implies goes(t, end, r, visit(r, u)) by {
            let i = choose|i: int| 0 <= i < front.len() && front[i] == u;
            assert(us[i] == u);
        }
        lemma_follow_all(t, end, first, reg, front, visit);
        ease_all(reg, front, visit);
        lemma_eases_on(first, reg, mid);
        assert(us[us.len() - 1] == us.last());
        assert(us.contains(us.last()));
        lemma_goes_on(t, end, reg, mid, out);
    }
}

// ── Visits ───────────────────────────────────────────────────────────────────

/// The container of a proxy is registered, where that is to be shown.
pub open spec fn portal_is_known(t: Trail, reg: Registry, x: Seq<char>) -> bool {
    t.full ==> match text_field(t.os, x, "containerPortal"@) {
        Some(portal) => is_known(reg, portal),
        None => true,
    }
}

#[verifier::rlimit(60)]
#[verifier::spinoff_prover]
proof fn lemma_follow_proxy(
    t: Trail,
    end: Registry,
    reg: Registry,
    w: Seq<char>,
    x: Seq<char>,
    gw: Seq<char>,
    gx: Seq<char>,
)
    requires
        agrees(t),
        tracks(t, end, reg),
        (t.rel)(w, gw),
        is_known(reg, w),
        is_quiet(t, visit_proxy(t.os, reg, w, x)),
        is_object(t.os, x) ==> owns(t.os, t.root, w, x, Kind::Proxy),
        (t.ok)(x) ==> (t.rel)(x, gx) && closed_proxy(t.to, end, gw, gx),
        portal_is_known(t, reg, x),
        match text_field(t.os, x, "remoteGlobalIDString"@) {
            Some(r) => !targets_of(t.os, t.root).contains(r) || is_known(reg, r),
            None => true,
        },
    ensures
        goes(t, end, reg, visit_proxy(t.os, reg, w, x)),
{
    let os = t.os;
    let out = visit_proxy(os, reg, w, x);
    ease_proxy(os, reg, w, x);
    lemma_quiet_before(t, reg, out);
    if is_object(os, x) {
        let component = "PBXContainerItemProxy/"@ + or_text(
            text_field(os, x, "remoteInfo"@),
            Seq::empty(),
        );
        let r0 = register(reg, w, x, component, "PBXContainerItemProxy"@);
        let row = row_of(os, reg, w, x, Kind::Proxy);
        assert(r0 == Registry { rows: upsert(reg.rows, x, row), ..reg });
        crate::naming_laws::lemma_upsert_known(reg.rows, x, row, x);
        assert(is_known(r0, x));
        lemma_proxy_rest(os, reg, w, x);
        assert(eases(r0, out));
        lemma_quiet_before(t, r0, out);
        assert((t.live)(x));
        assert((t.live)(w));
        assert((t.ok)(x));
        assert(is_object(t.to.os, gx));
        lemma_follow_put(t, end, reg, w, x, gw, gx, Kind::Proxy);
        match text_field(os, x, "remoteGlobalIDString"@) {
            Some(remote) => {
                if lookup(r0.rows, remote) is Some {
                } else {
                    match text_field(os, x, "containerPortal"@) {
                        Some(portal) => {
                            let e = expose(r0, path_of(r0, portal) is Some, portal);
                            assert(is_known(r0, portal)) by {
                                if t.full {
                                    crate::naming_laws::lemma_upsert_known(
                                        reg.rows,
                                        x,
                                        row,
                                        portal,
                                    );
                                } else {
                                    assert(out.exposed == e.exposed);
                                }
                            }
                            assert(e == r0);
                            assert(!is_known(reg, remote)) by {
                                crate::naming_laws::lemma_upsert_known(reg.rows, x, row, remote);
                            }
                            assert(owns(os, t.root, x, remote, Kind::Remote));
                            let row2 = row_of(os, r0, x, remote, Kind::Remote);
                            assert(out == Registry { rows: upsert(r0.rows, remote, row2), ..r0 });
                            crate::naming_laws::lemma_upsert_known(r0.rows, remote, row2, remote);
                            assert(is_known(out, remote));
                            assert((t.live)(remote));
                            assert((t.ok)(remote));
                            assert(refers("remoteGlobalIDString"@));
                            let gr = pair_in_field(t, x, gx, "remoteGlobalIDString"@);
                            assert(text_field(t.os, x, "remoteGlobalIDString"@) is Some);
                            assert((t.rel)(remote, gr));
                            assert(is_needed("containerPortal"@));
                            assert(pairs(
                                t,
                                text_field(t.os, x, "containerPortal"@),
                                text_field(t.to.os, gx, "containerPortal"@),
                            ));
                            assert(owns(t.to.os, t.to.root, gx, gr, Kind::Remote));
                            lemma_follow_put(t, end, r0, x, remote, gx, gr, Kind::Remote);
                        },
                        None => {
                            lemma_tracks_rows(t, end, r0, out);
                        },
                    }
                }
            },
            None => {},
        }
    }
}

/// What follows the registration of a proxy.
proof fn lemma_proxy_rest(os: Objects, reg: Registry, w: Seq<char>, x: Seq<char>)
    requires
        is_object(os, x),
    ensures
        ({
            let component = "PBXContainerItemProxy/"@ + or_text(
                text_field(os, x, "remoteInfo"@),
                Seq::empty(),
            );
            eases(
                register(reg, w, x, component, "PBXContainerItemProxy"@),
                visit_proxy(os, reg, w, x),
            )
        }),
{
    let component = "PBXContainerItemProxy/"@ + or_text(
        text_field(os, x, "remoteInfo"@),
        Seq::empty(),
    );
    let r0 = register(reg, w, x, component, "PBXContainerItemProxy"@);
    if let Some(remote) = text_field(os, x, "remoteGlobalIDString"@) {
        if let Some(portal) = text_field(os, x, "containerPortal"@) {
            let e = expose(r0, path_of(r0, portal) is Some, portal);
            let path = or_text(path_of(r0, x), Seq::empty()) + "+"@ + or_text(
                path_of(r0, portal),
                portal,
            );
            let row = (
                "PBXContainerItemProxy#remoteGlobalIDString["@ + path + "]"@,
                md5_hex(path),
            );
            assert forall|u: Seq<char>| #[trigger] is_known(r0, u) implies is_known(
                Registry { rows: upsert(r0.rows, remote, row), ..e },
                u,
            ) by {
                crate::naming_laws::lemma_upsert_known(r0.rows, remote, row, u);
            }
        }
    }
}

/// The containers of the proxies in the tree are registered.
pub open spec fn tree_portals_are_known(t: Trail, end: Registry, first: Registry) -> bool {
    forall|v: Seq<char>, b: Seq<char>|
        group_isa(t.os, v) == "PBXReferenceProxy"@ && #[trigger] (t.rel)(v, b) && is_object(t.os, v)
            && is_known(end, b) ==> match #[trigger] text_field(
            t.os,
            v,
            "remoteRef"@,
        ) {
            Some(x) => portal_is_known(t, first, x),
            None => true,
        }
}

/// No proxy in the tree stands for a target.
pub open spec fn trail_is_clear(t: Trail) -> bool {
    forall|v: Seq<char>|
        group_isa(t.os, v) == "PBXReferenceProxy"@ ==> match #[trigger] text_field(
            t.os,
            v,
            "remoteRef"@,
        ) {
            Some(x) => match text_field(t.os, x, "remoteGlobalIDString"@) {
                Some(r) => !targets_of(t.os, t.root).contains(r),
                None => true,
            },
            None => true,
        }
}

#[verifier::rlimit(60)]
#[verifier::spinoff_prover]
proof fn lemma_follow_group(
    t: Trail,
    end: Registry,
    first: Registry,
    reg: Registry,
    w: Seq<char>,
    u: Seq<char>,
    gw: Seq<char>,
    gu: Seq<char>,
    fuel: nat,
    more: nat,
)
    requires
        agrees(t),
        drops_apart(t, end),
        trail_is_clear(t),
        tree_portals_are_known(t, end, first),
        eases(first, reg),
        tracks(t, end, reg),
        (t.rel)(w, gw),
        is_known(reg, w),
        is_quiet(t, visit_group(t.os, reg, w, u, fuel)),
        is_object(t.os, u) ==> owns(t.os, t.root, w, u, Kind::Child),
        t.full ==> (t.ok)(u),
        fuel <= more,
        (t.ok)(u) ==> (t.rel)(u, gu) && closed_group(t.to, end, gw, gu, more),
    ensures
        goes(t, end, reg, visit_group(t.os, reg, w, u, fuel)),
    decreases fuel, 0nat,
{
    let os = t.os;
    let out = visit_group(os, reg, w, u, fuel);
    if fuel > 0 {
        if !is_object(os, u) {
            if t.full {
                assert((t.rel)(u, gu));
                assert(!is_object(t.to.os, gu));
                assert(end.remove.contains(gu));
            }
            lemma_tracks_rows(t, end, reg, out);
        } else {
            let r0 = register(reg, w, u, group_name(os, u), group_isa(os, u));
            let row = row_of(os, reg, w, u, Kind::Child);
            assert(r0 == Registry { rows: upsert(reg.rows, u, row), ..reg });
            crate::naming_laws::lemma_upsert_known(reg.rows, u, row, u);
            assert(is_known(r0, u));
            let us = list_field(os, u, "children"@);
            let less = (fuel - 1) as nat;
            let r = visit_children(os, r0, u, us, less);
            let remote = text_field(os, u, "remoteRef"@);
            let proxied = group_isa(os, u) == "PBXReferenceProxy"@ && remote is Some;
            if proxied {
                ease_proxy(os, r, u, remote->Some_0);
                assert(out == visit_proxy(os, r, u, remote->Some_0));
            } else {
                assert(out == r);
            }
            assert(eases(r, out));
            lemma_quiet_before(t, r, out);
            ease_children(os, r0, u, us, less);
            lemma_quiet_before(t, r0, r);
            assert((t.live)(u));
            assert((t.live)(w)) by {
                assert(is_known(reg, w));
            }
            assert((t.ok)(u));
            assert(is_object(t.to.os, gu));
            lemma_follow_put(t, end, reg, w, u, gw, gu, Kind::Child);
            ease_register(reg, w, u, group_name(os, u), group_isa(os, u));
            lemma_eases_on(first, reg, r0);
            assert(lists_objects("children"@));
            assert forall|x: Seq<char>| #[trigger]
                us.contains(x) && (t.ok)(x) implies has_closed_child(
                t,
                end,
                gu,
                x,
                (more - 1) as nat,
            ) by {
                assert(list_field(t.os, u, "children"@).contains(x));
                reveal(has_closed_child);
                let y = pair_in_list(t, u, gu, "children"@, x);
                assert(closed_group(t.to, end, gu, y, (more - 1) as nat));
            }
            lemma_follow_children(t, end, first, r0, u, gu, us, less, (more - 1) as nat);
            lemma_goes_on(t, end, reg, r0, r);
            lemma_eases_on(first, r0, r);
            if proxied {
                let x = remote->Some_0;
                assert(is_known(r, u)) by {
                    assert(eases(r0, r));
                }
                assert(text_field(os, u, "remoteRef"@) is Some);
                assert(refers("remoteRef"@));
                assert(group_isa(t.to.os, gu) == group_isa(os, u)) by {
                    assert(text_field(t.os, u, "isa"@) == text_field(t.to.os, gu, "isa"@));
                }
                let gx = pair_in_field(t, u, gu, "remoteRef"@);
                if (t.ok)(x) {
                    assert(text_field(t.os, u, "remoteRef"@) is Some);
                    assert((t.rel)(x, gx));
                    assert(closed_proxy(t.to, end, gu, gx));
                }
                assert(portal_is_known(t, r, x)) by {
                    assert(text_field(t.os, u, "remoteRef"@) == Some(x));
                    assert(portal_is_known(t, first, x));
                }
                lemma_follow_proxy(t, end, r, u, x, gu, gx);
                lemma_goes_on(t, end, reg, r, out);
            }
        }
    }
}

/// A counterpart of a child is a closed group.
#[verifier::opaque]
spec fn has_closed_child(
    t: Trail,
    end: Registry,
    gw: Seq<char>,
    u: Seq<char>,
    more: nat,
) -> bool {
    exists|y: Seq<char>| #[trigger] (t.rel)(u, y) && closed_group(t.to, end, gw, y, more)
}

proof fn lemma_follow_children(
    t: Trail,
    end: Registry,
    first: Registry,
    reg: Registry,
    w: Seq<char>,
    gw: Seq<char>,
    us: Seq<Seq<char>>,
    fuel: nat,
    more: nat,
)
    requires
        agrees(t),
        drops_apart(t, end),
        trail_is_clear(t),
        tree_portals_are_known(t, end, first),
        eases(first, reg),
        tracks(t, end, reg),
        (t.rel)(w, gw),
        is_known(reg, w),
        is_quiet(t, visit_children(t.os, reg, w, us, fuel)),
        forall|u: Seq<char>| #[trigger]
            us.contains(u) ==> list_field(t.os, w, "children"@).contains(u),
        fuel <= more,
        forall|u: Seq<char>| #[trigger]
            us.contains(u) && (t.ok)(u) ==> has_closed_child(t, end, gw, u, more),
    ensures
        goes(t, end, reg, visit_children(t.os, reg, w, us, fuel)),
    decreases fuel, us.len() + 1,
{
    let os = t.os;
    let out = visit_children(os, reg, w, us, fuel);
    if us.len() > 0 {
        let front = us.drop_last();
        let mid = visit_children(os, reg, w, front, fuel);
        ease_group(os, mid, w, us.last(), fuel);
        lemma_quiet_before(t, mid, out);
        assert forall|u: Seq<char>| #[trigger] front.contains(u) implies us.contains(u) by {
            let i = choose|i: int| 0 <= i < front.len() && front[i] == u;
            assert(us[i] == u);
        }
        lemma_follow_children(t, end, first, reg, w, gw, front, fuel, more);
        ease_children(os, reg, w, front, fuel);
        lemma_eases_on(first, reg, mid);
        let last = us.last();
        assert(us[us.len() - 1] == last);
        assert(us.contains(last));
        assert(is_known(mid, w));
        assert(lists_objects("children"@));
        assert(list_field(os, w, "children"@).contains(last));
        reveal(has_closed_child);
        let y = choose|y: Seq<char>| #[trigger]
            (t.rel)(last, y) && closed_group(t.to, end, gw, y, more);
        lemma_follow_group(t, end, first, mid, w, last, gw, y, fuel, more);
        lemma_goes_on(t, end, reg, mid, out);
    }
}

proof fn lemma_follow_references(
    t: Trail,
    end: Registry,
    first: Registry,
    reg: Registry,
    items: Seq<Plist>,
    fuel: nat,
    more: nat,
)
    requires
        agrees(t),
        drops_apart(t, end),
        trail_is_clear(t),
        tree_portals_are_known(t, end, first),
        eases(first, reg),
        tracks(t, end, reg),
        is_quiet(t, visit_references(t.os, reg, items, fuel)),
        forall|g: Seq<char>, w: Seq<char>| #[trigger]
            has_reference(t.os, t.root, g, w) ==> is_known(first, w) && (t.ok)(w),
        forall|i: int|
            0 <= i < items.len() ==> references(t.os, t.root).contains(#[trigger] items[i]),
        fuel <= more,
        forall|g: Seq<char>, w: Seq<char>| #[trigger]
            has_reference(t.to.os, t.to.root, g, w) ==> closed_group(t.to, end, w, g, more),
    ensures
        goes(t, end, reg, visit_references(t.os, reg, items, fuel)),
    decreases items.len(),
{
    let os = t.os;
    let out = visit_references(os, reg, items, fuel);
    if items.len() > 0 {
        let front = items.drop_last();
        let last = items.last();
        let mid = visit_references(os, reg, front, fuel);
        if let Some((g, w)) = reference_of(last) {
            ease_group(os, mid, w, g, fuel);
        }
        assert(eases(mid, out));
        lemma_quiet_before(t, mid, out);
        assert forall|i: int| 0 <= i < front.len() implies references(os, t.root).contains(
            #[trigger] front[i],
        ) by {
            assert(front[i] == items[i]);
        }
        lemma_follow_references(t, end, first, reg, front, fuel, more);
        ease_references(os, reg, front, fuel);
        lemma_eases_on(first, reg, mid);
        assert(items[items.len() - 1] == last);
        if let Some((g, w)) = reference_of(last) {
            let all = references(os, t.root);
            let j = choose|j: int| 0 <= j < all.len() && all[j] == last;
            assert(reference_of(all[j]) == Some((g, w)));
            assert(has_reference(os, t.root, g, w));
            assert(is_known(first, w));
            assert(is_known(mid, w));
            if (t.ok)(g) {
                assert(refers_to_pair(t, g, w));
                reveal(refers_to_pair);
                let (y, v) = choose|y: Seq<char>, v: Seq<char>| #[trigger]
                    (t.rel)(g, y) && #[trigger] (t.rel)(w, v) && has_reference(
                        t.to.os,
                        t.to.root,
                        y,
                        v,
                    );
                lemma_follow_group(t, end, first, mid, w, g, v, y, fuel, more);
            } else {
                let v = pair_of(t, w);
                lemma_follow_group(t, end, first, mid, w, g, v, v, fuel, more);
            }
        }
        lemma_goes_on(t, end, reg, mid, out);
    }
}

proof fn lemma_follow_list(
    t: Trail,
    end: Registry,
    reg: Registry,
    w: Seq<char>,
    l: Seq<char>,
    gw: Seq<char>,
    gl: Seq<char>,
)
    requires
        agrees(t),
        tracks(t, end, reg),
        (t.rel)(w, gw),
        is_known(reg, w),
        is_quiet(t, visit_configuration_list(t.os, reg, w, l)),
        text_field(t.os, w, "buildConfigurationList"@) == Some(l),
        (t.ok)(l) ==> (t.rel)(l, gl) && closed_list(t.to, end, gw, gl),
    ensures
        goes(t, end, reg, visit_configuration_list(t.os, reg, w, l)),
{
    let os = t.os;
    let out = visit_configuration_list(os, reg, w, l);
    if is_object(os, l) {
        let name = or_text(text_field(os, l, "defaultConfigurationName"@), "Release"@);
        let r0 = register(reg, w, l, name, "XCConfigurationList"@);
        let row = row_of(os, reg, w, l, Kind::Settings);
        assert(r0 == Registry { rows: upsert(reg.rows, l, row), ..reg });
        crate::naming_laws::lemma_upsert_known(reg.rows, l, row, l);
        assert(is_known(r0, l));
        let visit = |r: Registry, x: Seq<char>| visit_configuration(os, r, l, x);
        let us = list_field(os, l, "buildConfigurations"@);
        assert forall|r: Registry, x: Seq<char>| eases(r, #[trigger] visit(r, x)) by {
            ease_register(
                r,
                l,
                x,
                or_text(text_field(os, x, "name"@), "Release"@),
                "XCBuildConfiguration"@,
            );
        }
        ease_all(r0, us, visit);
        lemma_quiet_before(t, r0, out);
        assert((t.live)(l));
        assert((t.live)(w)) by {
            assert(is_known(reg, w));
        }
        assert(owns(os, t.root, w, l, Kind::Settings));
        assert((t.ok)(l));
        assert(is_object(t.to.os, gl));
        lemma_follow_put(t, end, reg, w, l, gw, gl, Kind::Settings);
        assert(lists_objects("buildConfigurations"@));
        assert forall|r: Registry, x: Seq<char>|
            us.contains(x) && tracks(t, end, r) && eases(r0, r) && is_quiet(
                t,
                #[trigger] visit(r, x),
            ) implies goes(t, end, r, visit(r, x)) by {
            assert(is_known(r, l)) by {
                assert(is_known(r0, l));
            }
            if is_object(os, x) {
                let row = row_of(os, r, l, x, Kind::Setting);
                assert(visit(r, x) == Registry { rows: upsert(r.rows, x, row), ..r });
                crate::naming_laws::lemma_upsert_known(r.rows, x, row, x);
                assert(is_known(visit(r, x), x));
                assert(owns(os, t.root, l, x, Kind::Setting));
                assert((t.ok)(x));
                assert(list_field(t.os, l, "buildConfigurations"@).contains(x));
                let y = pair_in_list(t, l, gl, "buildConfigurations"@, x);
                assert(is_object(t.to.os, y));
                lemma_follow_put(t, end, r, l, x, gl, y, Kind::Setting);
            }
        }
        assert(eases(r0, r0));
        lemma_follow_all(t, end, r0, r0, us, visit);
        lemma_goes_on(t, end, reg, r0, out);
    }
}

proof fn lemma_follow_package(t: Trail, end: Registry, reg: Registry, u: Seq<char>, gu: Seq<char>)
    requires
        agrees(t),
        tracks(t, end, reg),
        is_known(reg, t.root),
        is_quiet(t, visit_package(t.os, reg, t.root, u)),
        is_object(t.os, u) ==> owns(t.os, t.root, t.root, u, Kind::Package),
        (t.ok)(u) ==> (t.rel)(u, gu) && (is_object(t.to.os, gu) ==> is_placed_by(
            t.to.os,
            end,
            t.to.root,
            gu,
            Kind::Package,
        )),
    ensures
        goes(t, end, reg, visit_package(t.os, reg, t.root, u)),
{
    let os = t.os;
    let out = visit_package(os, reg, t.root, u);
    if is_object(os, u) && !is_known(reg, u) {
        let url = text_field(os, u, "repositoryURL"@);
        let row = row_of(os, reg, t.root, u, Kind::Package);
        assert(out.rows == upsert(reg.rows, u, row));
        crate::naming_laws::lemma_upsert_known(reg.rows, u, row, u);
        assert(is_known(out, u));
        assert((t.live)(u));
        assert((t.live)(t.root)) by {
            assert(is_known(reg, t.root));
        }
        assert((t.ok)(u));
        assert(is_object(t.to.os, gu));
        assert(text_field(t.os, u, "repositoryURL"@) == text_field(t.to.os, gu, "repositoryURL"@));
        assert(url is Some);
        assert(out == Registry { rows: upsert(reg.rows, u, row), ..reg });
        lemma_follow_put(t, end, reg, t.root, u, t.to.root, gu, Kind::Package);
    }
}

proof fn lemma_follow_early(t: Trail, end: Registry, reg: Registry, u: Seq<char>, gu: Seq<char>)
    requires
        agrees(t),
        tracks(t, end, reg),
        is_known(reg, t.root),
        is_quiet(t, visit_target_early(t.os, reg, t.root, u)),
        targets_of(t.os, t.root).contains(u),
        (t.ok)(u) ==> (t.rel)(u, gu) && is_placed_by(t.to.os, end, t.to.root, gu, Kind::Target),
    ensures
        goes(t, end, reg, visit_target_early(t.os, reg, t.root, u)),
{
    let os = t.os;
    let out = visit_target_early(os, reg, t.root, u);
    if !is_known(reg, u) {
        let name = text_field(os, u, "name"@);
        let row = row_of(os, reg, t.root, u, Kind::Target);
        assert(out.rows == upsert(reg.rows, u, row));
        crate::naming_laws::lemma_upsert_known(reg.rows, u, row, u);
        assert(is_known(out, u));
        assert((t.live)(u));
        assert((t.live)(t.root)) by {
            assert(is_known(reg, t.root));
        }
        assert(owns(os, t.root, t.root, u, Kind::Target));
        assert((t.ok)(u));
        assert(text_field(t.os, u, "name"@) == text_field(t.to.os, gu, "name"@));
        assert(name is Some);
        assert(out == Registry { rows: upsert(reg.rows, u, row), ..reg });
        lemma_follow_put(t, end, reg, t.root, u, t.to.root, gu, Kind::Target);
    }
}

/// What the parts of a target rest on: all targets are registered, and where that
/// is to be shown the containers of proxies and the files of build files are.
pub open spec fn is_prepared(t: Trail, first: Registry) -> bool {
    &&& forall|x: Seq<char>| #[trigger]
        targets_of(t.os, t.root).contains(x) ==> is_known(first, x)
    &&& t.full ==> forall|w: Seq<char>, d: Seq<char>|
        targets_of(t.os, t.root).contains(w) && is_object(t.os, d) && (t.ok)(d)
            && #[trigger] list_field(t.os, w, "dependencies"@).contains(d) ==> {
            &&& match text_field(t.os, d, "targetProxy"@) {
                Some(x) => portal_is_known(t, first, x),
                None => true,
            }
            &&& match text_field(t.os, d, "target"@) {
                Some(x) => is_known(first, x),
                None => true,
            }
        }
    &&& t.full ==> forall|w: Seq<char>, f: Seq<char>|
        (t.ok)(w) && (t.ok)(f) && #[trigger] list_field(t.os, w, "files"@).contains(f)
            ==> referenced(t.os, f) is Some && is_known(first, referenced(t.os, f)->Some_0)
}

#[verifier::rlimit(40)]
#[verifier::spinoff_prover]
proof fn lemma_follow_dependency(
    t: Trail,
    end: Registry,
    first: Registry,
    reg: Registry,
    w: Seq<char>,
    d: Seq<char>,
    gw: Seq<char>,
    gd: Seq<char>,
)
    requires
        agrees(t),
        is_prepared(t, first),
        eases(first, reg),
        tracks(t, end, reg),
        (t.rel)(w, gw),
        is_known(reg, w),
        is_quiet(t, visit_dependency(t.os, reg, w, d)),
        targets_of(t.os, t.root).contains(w),
        list_field(t.os, w, "dependencies"@).contains(d),
        (t.ok)(d) ==> (t.rel)(d, gd) && closed_dependency(t.to, end, gw, gd),
    ensures
        goes(t, end, reg, visit_dependency(t.os, reg, w, d)),
{
    let os = t.os;
    let out = visit_dependency(os, reg, w, d);
    if is_object(os, d) {
        let component = dependency_component(os, reg, d);
        let e = match text_field(os, d, "target"@) {
            Some(target) => expose(reg, path_of(reg, target) is Some, target),
            None => expose(reg, text_field(os, d, "name"@) is Some, d),
        };
        let r = register(e, w, d, component, "PBXTargetDependency"@);
        let row = row_of(os, reg, w, d, Kind::Dependency);
        assert(r.rows == upsert(reg.rows, d, row));
        crate::naming_laws::lemma_upsert_known(reg.rows, d, row, d);
        assert(is_known(r, d));
        let proxy = text_field(os, d, "targetProxy"@);
        if proxy is Some {
            ease_proxy(os, r, d, proxy->Some_0);
        }
        assert(eases(r, out));
        lemma_quiet_before(t, r, out);
        assert((t.live)(d));
        assert((t.live)(w)) by {
            assert(is_known(reg, w));
        }
        assert(owns(os, t.root, w, d, Kind::Dependency));
        assert((t.ok)(d));
        assert(is_object(t.to.os, gd));
        assert(is_needed("target"@));
        assert(pairs(
            t,
            text_field(t.os, d, "target"@),
            text_field(t.to.os, gd, "target"@),
        ));
        assert(text_field(t.os, d, "name"@) == text_field(t.to.os, gd, "name"@));
        match text_field(os, d, "target"@) {
            Some(target) => {
                if t.full {
                    assert(is_known(first, target));
                    assert(is_known(reg, target));
                } else {
                    assert(is_known(reg, target));
                }
            },
            None => {},
        }
        assert(e == reg);
        assert(is_ready(os, reg, w, d, Kind::Dependency));
        assert(r == Registry { rows: upsert(reg.rows, d, row), ..reg });
        lemma_follow_put(t, end, reg, w, d, gw, gd, Kind::Dependency);
        ease_register(reg, w, d, component, "PBXTargetDependency"@);
        match proxy {
            Some(x) => {
                assert(refers("targetProxy"@));
                assert(proxy is Some);
                let gx = pair_in_field(t, d, gd, "targetProxy"@);
                if (t.ok)(x) {
                    assert(text_field(t.os, d, "targetProxy"@) is Some);
                    assert((t.rel)(x, gx));
                    assert(closed_proxy(t.to, end, gd, gx));
                }
                assert(text_field(os, d, "targetProxy"@) == Some(x));
                assert(portal_is_known(t, r, x)) by {
                    if t.full {
                        assert(portal_is_known(t, first, x));
                        if let Some(portal) = text_field(os, x, "containerPortal"@) {
                            assert(is_known(first, portal));
                            assert(is_known(reg, portal));
                            assert(is_known(r, portal));
                        }
                    }
                }
                if let Some(m) = text_field(os, x, "remoteGlobalIDString"@) {
                    if targets_of(os, t.root).contains(m) {
                        assert(is_known(first, m));
                        assert(is_known(reg, m));
                        assert(is_known(r, m));
                    }
                }
                lemma_follow_proxy(t, end, r, d, x, gd, gx);
            },
            None => {
                lemma_tracks_rows(t, end, r, out);
            },
        }
        lemma_goes_on(t, end, reg, r, out);
    }
}

proof fn lemma_follow_file(
    t: Trail,
    pre: Registry,
    end: Registry,
    first: Registry,
    reg: Registry,
    w: Seq<char>,
    f: Seq<char>,
    gw: Seq<char>,
    gf: Seq<char>,
)
    requires
        agrees(t),
        drops_apart(t, end),
        is_prepared(t, first),
        eases(first, reg),
        tracks(t, end, reg),
        (t.rel)(w, gw),
        is_known(reg, w),
        is_quiet(t, visit_build_file(t.os, reg, w, f)),
        list_field(t.os, w, "files"@).contains(f),
        (t.ok)(f) ==> (t.rel)(f, gf) && closed_file(t.to, pre, end, gw, gf),
        !t.full && (t.ok)(f) && referenced(t.to.os, gf) is Some ==> is_known(
            pre,
            referenced(t.to.os, gf)->Some_0,
        ),
    ensures
        goes(t, end, reg, visit_build_file(t.os, reg, w, f)),
{
    let os = t.os;
    let out = visit_build_file(os, reg, w, f);
    assert((t.live)(w)) by {
        assert(is_known(reg, w));
    }
    if t.full {
        assert(lists_objects("files"@));
        assert((t.ok)(f));
        assert(referenced(os, f) is Some && is_known(first, referenced(os, f)->Some_0));
        assert(is_known(reg, referenced(os, f)->Some_0));
    }
    match referenced(os, f) {
        Some(r) => {
            if is_known(reg, r) {
                let row = row_of(os, reg, w, f, Kind::File);
                assert(out == Registry { rows: upsert(reg.rows, f, row), ..reg });
                crate::naming_laws::lemma_upsert_known(reg.rows, f, row, f);
                assert(is_known(out, f));
                assert((t.live)(f));
                if (t.ok)(f) {
                    assert(pairs(t, referenced(t.os, f), referenced(t.to.os, gf)));
                    assert(is_placed_by(t.to.os, end, gw, gf, Kind::File)) by {
                        if t.full {
                            assert(!end.remove.contains(gf));
                        }
                    }
                    lemma_follow_put(t, end, reg, w, f, gw, gf, Kind::File);
                } else {
                    lemma_track_put(t, end, reg, f, row);
                }
            } else {
                lemma_tracks_rows(t, end, reg, out);
            }
        },
        None => {
            lemma_tracks_rows(t, end, reg, out);
        },
    }
}

/// The files of build files are registered before the targets, on the other side.
pub open spec fn files_are_early(t: Trail, pre: Registry) -> bool {
    !t.full ==> forall|w: Seq<char>, f: Seq<char>, b: Seq<char>|
        (t.ok)(w) && #[trigger] (t.rel)(f, b) && #[trigger] list_field(
            t.os,
            w,
            "files"@,
        ).contains(f) ==> match referenced(t.to.os, b) {
            Some(r) => is_known(pre, r),
            None => true,
        }
}

proof fn lemma_follow_phase(
    t: Trail,
    pre: Registry,
    end: Registry,
    first: Registry,
    reg: Registry,
    w: Seq<char>,
    p: Seq<char>,
    gw: Seq<char>,
    gp: Seq<char>,
)
    requires
        agrees(t),
        drops_apart(t, end),
        is_prepared(t, first),
        files_are_early(t, pre),
        eases(first, reg),
        tracks(t, end, reg),
        (t.rel)(w, gw),
        is_known(reg, w),
        is_quiet(t, visit_phase(t.os, reg, w, p)),
        list_field(t.os, w, "buildPhases"@).contains(p),
        (t.ok)(p) ==> (t.rel)(p, gp) && closed_phase(t.to, pre, end, gw, gp),
    ensures
        goes(t, end, reg, visit_phase(t.os, reg, w, p)),
{
    let os = t.os;
    let out = visit_phase(os, reg, w, p);
    if is_object(os, p) {
        let isa = phase_isa(os, p);
        let r0 = register(reg, w, p, phase_component(os, p, isa), isa);
        let row = row_of(os, reg, w, p, Kind::Phase);
        assert(r0 == Registry { rows: upsert(reg.rows, p, row), ..reg });
        crate::naming_laws::lemma_upsert_known(reg.rows, p, row, p);
        assert(is_known(r0, p));
        let visit = |r: Registry, f: Seq<char>| visit_build_file(os, r, p, f);
        let us = list_field(os, p, "files"@);
        assert forall|r: Registry, f: Seq<char>| eases(r, #[trigger] visit(r, f)) by {
            ease_file(os, r, p, f);
        }
        ease_all(r0, us, visit);
        lemma_quiet_before(t, r0, out);
        assert((t.live)(p));
        assert((t.live)(w)) by {
            assert(is_known(reg, w));
        }
        assert(owns(os, t.root, w, p, Kind::Phase));
        assert((t.ok)(p));
        assert(is_object(t.to.os, gp));
        lemma_follow_put(t, end, reg, w, p, gw, gp, Kind::Phase);
        ease_register(reg, w, p, phase_component(os, p, isa), isa);
        lemma_eases_on(first, reg, r0);
        assert(lists_objects("files"@));
        assert forall|r: Registry, f: Seq<char>|
            us.contains(f) && tracks(t, end, r) && eases(r0, r) && is_quiet(
                t,
                #[trigger] visit(r, f),
            ) implies goes(t, end, r, visit(r, f)) by {
            assert(is_known(r, p)) by {
                assert(is_known(r0, p));
            }
            lemma_eases_on(first, r0, r);
            let y = pair_in_list(t, p, gp, "files"@, f);
            if (t.ok)(f) {
                assert(list_field(t.os, p, "files"@).contains(f));
                assert(closed_file(t.to, pre, end, gp, y));
            }
            lemma_follow_file(t, pre, end, first, r, p, f, gp, y);
        }
        assert(eases(r0, r0));
        lemma_follow_all(t, end, r0, r0, us, visit);
        lemma_goes_on(t, end, reg, r0, out);
    }
}

proof fn lemma_follow_rule(
    t: Trail,
    end: Registry,
    reg: Registry,
    w: Seq<char>,
    u: Seq<char>,
    gw: Seq<char>,
    gu: Seq<char>,
)
    requires
        agrees(t),
        drops_apart(t, end),
        tracks(t, end, reg),
        (t.rel)(w, gw),
        is_known(reg, w),
        is_quiet(t, visit_rule(t.os, reg, w, u)),
        list_field(t.os, w, "buildRules"@).contains(u),
        (t.ok)(u) ==> (t.rel)(u, gu) && closed_rule(t.to, end, gw, gu),
    ensures
        goes(t, end, reg, visit_rule(t.os, reg, w, u)),
{
    let os = t.os;
    let out = visit_rule(os, reg, w, u);
    assert(lists_objects("buildRules"@));
    assert((t.live)(w)) by {
        assert(is_known(reg, w));
    }
    if is_object(os, u) {
        let row = row_of(os, reg, w, u, Kind::Rule);
        assert(out == Registry { rows: upsert(reg.rows, u, row), ..reg });
        crate::naming_laws::lemma_upsert_known(reg.rows, u, row, u);
        assert(is_known(out, u));
        assert(owns(os, t.root, w, u, Kind::Rule));
        assert((t.ok)(u));
        assert(is_object(t.to.os, gu));
        lemma_follow_put(t, end, reg, w, u, gw, gu, Kind::Rule);
    } else {
        if t.full {
            assert((t.ok)(u));
            assert(!is_object(t.to.os, gu));
            assert(end.remove.contains(gu));
        }
        lemma_tracks_rows(t, end, reg, out);
    }
}

/// The packages of products are listed by the project.
pub open spec fn trail_lists_packages(t: Trail) -> bool {
    forall|d: Seq<char>|
        (t.live)(d) ==> match #[trigger] text_field(t.os, d, "package"@) {
            Some(x) => is_object(t.os, x) ==> list_field(
                t.os,
                t.root,
                "packageReferences"@,
            ).contains(x),
            None => true,
        }
}

proof fn lemma_follow_product(
    t: Trail,
    end: Registry,
    reg: Registry,
    w: Seq<char>,
    u: Seq<char>,
    gw: Seq<char>,
    gu: Seq<char>,
)
    requires
        agrees(t),
        trail_lists_packages(t),
        tracks(t, end, reg),
        (t.rel)(w, gw),
        is_known(reg, w),
        is_known(reg, t.root),
        is_quiet(t, visit_product(t.os, t.root, reg, w, u)),
        list_field(t.os, w, "packageProductDependencies"@).contains(u),
        (t.ok)(u) ==> (t.rel)(u, gu) && (is_object(t.to.os, gu) ==> is_placed_by(
            t.to.os,
            end,
            gw,
            gu,
            Kind::Product,
        )),
        forall|x: Seq<char>| #[trigger]
            list_field(t.to.os, t.to.root, "packageReferences"@).contains(x) && is_object(
                t.to.os,
                x,
            ) ==> is_placed_by(t.to.os, end, t.to.root, x, Kind::Package),
    ensures
        goes(t, end, reg, visit_product(t.os, t.root, reg, w, u)),
{
    let os = t.os;
    let out = visit_product(os, t.root, reg, w, u);
    if is_object(os, u) && !is_known(reg, u) {
        let name = text_field(os, u, "productName"@);
        let e = expose(reg, name is Some, u);
        let r = register(e, w, u, or_text(name, u), "XCSwiftPackageProductDependency"@);
        let row = row_of(os, reg, w, u, Kind::Product);
        assert(r.rows == upsert(reg.rows, u, row));
        crate::naming_laws::lemma_upsert_known(reg.rows, u, row, u);
        assert(is_known(r, u));
        if let Some(package) = text_field(os, u, "package"@) {
            ease_package(os, r, t.root, package);
        }
        assert(eases(r, out));
        lemma_quiet_before(t, r, out);
        assert((t.live)(u));
        assert((t.live)(w)) by {
            assert(is_known(reg, w));
        }
        assert(owns(os, t.root, w, u, Kind::Product));
        if (t.ok)(u) {
            assert(is_object(t.to.os, gu));
            assert(text_field(t.os, u, "productName"@) == text_field(t.to.os, gu, "productName"@));
            assert(name is Some);
            assert(r == Registry { rows: upsert(reg.rows, u, row), ..reg });
            lemma_follow_put(t, end, reg, w, u, gw, gu, Kind::Product);
        } else {
            assert(!t.full);
            assert(name is Some);
            assert(r == Registry { rows: upsert(reg.rows, u, row), ..reg });
            lemma_track_put(t, end, reg, u, row);
        }
        crate::naming_laws::lemma_upsert_known(reg.rows, u, row, t.root);
        if let Some(package) = text_field(os, u, "package"@) {
            assert(lists_objects("packageReferences"@));
            if is_object(os, package) {
                assert(list_field(t.os, t.root, "packageReferences"@).contains(package));
                let y = pair_in_list(t, t.root, t.to.root, "packageReferences"@, package);
                lemma_follow_package(t, end, r, package, y);
            } else {
                assert(out == r);
            }
        }
        lemma_goes_on(t, end, reg, r, out);
    }
}

#[verifier::rlimit(60)]
#[verifier::spinoff_prover]
proof fn lemma_follow_target_stage(
    t: Trail,
    pre: Registry,
    end: Registry,
    first: Registry,
    reg: Registry,
    u: Seq<char>,
    gu: Seq<char>,
    n: int,
)
    requires
        1 <= n <= 5,
        agrees(t),
        drops_apart(t, end),
        is_prepared(t, first),
        files_are_early(t, pre),
        trail_lists_packages(t),
        tracks(t, end, target_stage(t.os, t.root, reg, u, n - 1)),
        eases(first, target_stage(t.os, t.root, reg, u, n - 1)),
        (t.rel)(u, gu),
        targets_of(t.os, t.root).contains(u),
        is_known(first, u),
        is_known(first, t.root),
        is_quiet(t, target_stage(t.os, t.root, reg, u, n)),
        closed_target(t.to, pre, end, gu),
        is_object(t.to.os, gu),
        forall|x: Seq<char>| #[trigger]
            list_field(t.to.os, t.to.root, "packageReferences"@).contains(x) && is_object(
                t.to.os,
                x,
            ) ==> is_placed_by(t.to.os, end, t.to.root, x, Kind::Package),
    ensures
        goes(
            t,
            end,
            target_stage(t.os, t.root, reg, u, n - 1),
            target_stage(t.os, t.root, reg, u, n),
        ),
{
    let os = t.os;
    let root = t.root;
    let r0 = target_stage(os, root, reg, u, n - 1);
    let out = target_stage(os, root, reg, u, n);
    assert(is_known(r0, u));
    assert(is_known(r0, root));
    assert(eases(r0, r0));
    if n == 1 {
        if let Some(l) = text_field(os, u, "buildConfigurationList"@) {
            assert(refers("buildConfigurationList"@));
            assert(text_field(os, u, "buildConfigurationList"@) is Some);
            let gl = pair_in_field(t, u, gu, "buildConfigurationList"@);
            if (t.ok)(l) {
                assert(text_field(t.os, u, "buildConfigurationList"@) is Some);
                assert((t.rel)(l, gl));
            }
            lemma_follow_list(t, end, r0, u, l, gu, gl);
        }
    } else if n == 2 {
        let us = list_field(os, u, "dependencies"@);
        let visit = |r: Registry, x: Seq<char>| visit_dependency(os, r, u, x);
        assert(lists_objects("dependencies"@));
        assert forall|r: Registry, x: Seq<char>| eases(r, #[trigger] visit(r, x)) by {
            ease_dependency(os, r, u, x);
        }
        assert forall|r: Registry, x: Seq<char>|
            us.contains(x) && tracks(t, end, r) && eases(r0, r) && is_quiet(
                t,
                #[trigger] visit(r, x),
            ) implies goes(t, end, r, visit(r, x)) by {
            lemma_eases_on(first, r0, r);
            assert(is_known(r, u));
            let y = pair_in_list(t, u, gu, "dependencies"@, x);
            if (t.ok)(x) {
                assert(list_field(t.os, u, "dependencies"@).contains(x));
            }
            lemma_follow_dependency(t, end, first, r, u, x, gu, y);
        }
        lemma_follow_all(t, end, r0, r0, us, visit);
    } else if n == 3 {
        let us = list_field(os, u, "buildPhases"@);
        let visit = |r: Registry, x: Seq<char>| visit_phase(os, r, u, x);
        assert(lists_objects("buildPhases"@));
        assert forall|r: Registry, x: Seq<char>| eases(r, #[trigger] visit(r, x)) by {
            ease_phase(os, r, u, x);
        }
        assert forall|r: Registry, x: Seq<char>|
            us.contains(x) && tracks(t, end, r) && eases(r0, r) && is_quiet(
                t,
                #[trigger] visit(r, x),
            ) implies goes(t, end, r, visit(r, x)) by {
            lemma_eases_on(first, r0, r);
            assert(is_known(r, u));
            let y = pair_in_list(t, u, gu, "buildPhases"@, x);
            if (t.ok)(x) {
                assert(list_field(t.os, u, "buildPhases"@).contains(x));
            }
            lemma_follow_phase(t, pre, end, first, r, u, x, gu, y);
        }
        lemma_follow_all(t, end, r0, r0, us, visit);
    } else if n == 4 {
        let us = list_field(os, u, "buildRules"@);
        let visit = |r: Registry, x: Seq<char>| visit_rule(os, r, u, x);
        assert(lists_objects("buildRules"@));
        assert forall|r: Registry, x: Seq<char>| eases(r, #[trigger] visit(r, x)) by {
            ease_rule(os, r, u, x);
        }
        assert forall|r: Registry, x: Seq<char>|
            us.contains(x) && tracks(t, end, r) && eases(r0, r) && is_quiet(
                t,
                #[trigger] visit(r, x),
            ) implies goes(t, end, r, visit(r, x)) by {
            assert(is_known(r, u));
            let y = pair_in_list(t, u, gu, "buildRules"@, x);
            if (t.ok)(x) {
                assert(list_field(t.os, u, "buildRules"@).contains(x));
            }
            lemma_follow_rule(t, end, r, u, x, gu, y);
        }
        lemma_follow_all(t, end, r0, r0, us, visit);
    } else {
        let us = list_field(os, u, "packageProductDependencies"@);
        let visit = |r: Registry, x: Seq<char>| visit_product(os, root, r, u, x);
        assert(lists_objects("packageProductDependencies"@));
        assert forall|r: Registry, x: Seq<char>| eases(r, #[trigger] visit(r, x)) by {
            ease_product(os, root, r, u, x);
        }
        assert forall|r: Registry, x: Seq<char>|
            us.contains(x) && tracks(t, end, r) && eases(r0, r) && is_quiet(
                t,
                #[trigger] visit(r, x),
            ) implies goes(t, end, r, visit(r, x)) by {
            assert(is_known(r, u));
            assert(is_known(r, root));
            let y = pair_in_list(t, u, gu, "packageProductDependencies"@, x);
            if (t.ok)(x) {
                assert(list_field(t.os, u, "packageProductDependencies"@).contains(x));
            }
            lemma_follow_product(t, end, r, u, x, gu, y);
        }
        lemma_follow_all(t, end, r0, r0, us, visit);
    }
}

proof fn lemma_follow_target(
    t: Trail,
    pre: Registry,
    end: Registry,
    first: Registry,
    reg: Registry,
    u: Seq<char>,
    gu: Seq<char>,
)
    requires
        agrees(t),
        drops_apart(t, end),
        is_prepared(t, first),
        files_are_early(t, pre),
        trail_lists_packages(t),
        tracks(t, end, reg),
        eases(first, reg),
        (t.rel)(u, gu),
        targets_of(t.os, t.root).contains(u),
        is_known(first, u),
        is_known(first, t.root),
        is_quiet(t, visit_target(t.os, t.root, reg, u)),
        closed_target(t.to, pre, end, gu),
        forall|x: Seq<char>| #[trigger]
            list_field(t.to.os, t.to.root, "packageReferences"@).contains(x) && is_object(
                t.to.os,
                x,
            ) ==> is_placed_by(t.to.os, end, t.to.root, x, Kind::Package),
    ensures
        goes(t, end, reg, visit_target(t.os, t.root, reg, u)),
{
    let os = t.os;
    let root = t.root;
    if is_object(os, u) {
        assert(is_object(t.to.os, gu));
        lemma_target_stages(os, root, reg, u);
        let r0 = target_stage(os, root, reg, u, 0);
        let r1 = target_stage(os, root, reg, u, 1);
        let r2 = target_stage(os, root, reg, u, 2);
        let r3 = target_stage(os, root, reg, u, 3);
        let r4 = target_stage(os, root, reg, u, 4);
        let r5 = target_stage(os, root, reg, u, 5);
        ease_target_stage(os, root, reg, u, 1);
        ease_target_stage(os, root, reg, u, 2);
        ease_target_stage(os, root, reg, u, 3);
        ease_target_stage(os, root, reg, u, 4);
        ease_target_stage(os, root, reg, u, 5);
        lemma_quiet_before(t, r4, r5);
        lemma_quiet_before(t, r3, r4);
        lemma_quiet_before(t, r2, r3);
        lemma_quiet_before(t, r1, r2);
        assert(r0 == reg);
        lemma_follow_target_stage(t, pre, end, first, reg, u, gu, 1);
        lemma_eases_on(first, r0, r1);
        lemma_follow_target_stage(t, pre, end, first, reg, u, gu, 2);
        lemma_eases_on(first, r1, r2);
        lemma_follow_target_stage(t, pre, end, first, reg, u, gu, 3);
        lemma_eases_on(first, r2, r3);
        lemma_follow_target_stage(t, pre, end, first, reg, u, gu, 4);
        lemma_eases_on(first, r3, r4);
        lemma_follow_target_stage(t, pre, end, first, reg, u, gu, 5);
        lemma_goes_on(t, end, r0, r1, r2);
        lemma_goes_on(t, end, r0, r2, r3);
        lemma_goes_on(t, end, r0, r3, r4);
        lemma_goes_on(t, end, r0, r4, r5);
    }
}

// ── Stages ───────────────────────────────────────────────────────────────────

/// What a stage rests on.
pub open spec fn stage_is_prepared(
    t: Trail,
    p: Project,
    name: Seq<char>,
    end: Registry,
    n: int,
) -> bool {
    &&& n == 1 ==> tree_portals_are_known(t, end, project_stage(p, name, 0))
    &&& n == 3 ==> tree_portals_are_known(t, end, project_stage(p, name, 1)) && forall|
        g: Seq<char>,
        w: Seq<char>,
    | #[trigger]
        has_reference(t.os, t.root, g, w) ==> is_known(project_stage(p, name, 1), w) && (t.ok)(w)
    &&& n == 6 ==> is_prepared(t, project_stage(p, name, 5))
}

/// Stage `n` of the traversal follows.
#[verifier::rlimit(60)]
#[verifier::spinoff_prover]
pub proof fn lemma_follow_stage(
    t: Trail,
    p: Project,
    name: Seq<char>,
    pre: Registry,
    end: Registry,
    n: int,
    more: nat,
)
    requires
        1 <= n <= 6,
        t.os == p.objects,
        t.root == p.root_object,
        agrees(t),
        drops_apart(t, end),
        trail_is_clear(t),
        trail_lists_packages(t),
        n == 6 ==> files_are_early(t, pre),
        stage_is_prepared(t, p, name, end, n),
        tracks(t, end, project_stage(p, name, n - 1)),
        eases(project_stage(p, name, 0), project_stage(p, name, n - 1)),
        n > 1 ==> eases(project_stage(p, name, 1), project_stage(p, name, n - 1)),
        is_quiet(t, project_stage(p, name, n)),
        p.objects.len() + 1 <= more,
        closed_stage(t.to, pre, end, more, n),
        n == 6 ==> closed_stage(t.to, pre, end, more, 4),
    ensures
        goes(t, end, project_stage(p, name, n - 1), project_stage(p, name, n)),
{
    let os = t.os;
    let root = t.root;
    let fuel = os.len() + 1;
    let r0 = project_stage(p, name, n - 1);
    let out = project_stage(p, name, n);
    let zero = project_stage(p, name, 0);
    assert(eases(r0, r0));
    assert(is_known(zero, root)) by {
        assert(zero.rows[0].0 == root);
        crate::table::lemma_slot(zero.rows, root);
    }
    assert(is_known(r0, root));
    if n == 1 {
        if let Some(g) = text_field(os, root, "mainGroup"@) {
            assert(refers("mainGroup"@));
            assert(text_field(os, root, "mainGroup"@) is Some);
            if t.full {
                assert(ok_opt(t, text_field(os, root, "mainGroup"@)));
            }
            let gg = pair_in_field(t, t.root, t.to.root, "mainGroup"@);
            if (t.ok)(g) {
                assert(text_field(t.os, t.root, "mainGroup"@) is Some);
                assert((t.rel)(g, gg));
            }
            lemma_follow_group(t, end, zero, r0, root, g, t.to.root, gg, fuel, more);
        }
    } else if n == 2 {
        if let Some(l) = text_field(os, root, "buildConfigurationList"@) {
            assert(refers("buildConfigurationList"@));
            assert(text_field(os, root, "buildConfigurationList"@) is Some);
            let gl = pair_in_field(t, t.root, t.to.root, "buildConfigurationList"@);
            if (t.ok)(l) {
                assert(text_field(t.os, t.root, "buildConfigurationList"@) is Some);
                assert((t.rel)(l, gl));
            }
            lemma_follow_list(t, end, r0, root, l, t.to.root, gl);
        }
    } else if n == 3 {
        let all = references(os, root);
        match field(os, root, "projectReferences"@) {
            Some(Plist::Array(items)) => {
                assert forall|i: int| 0 <= i < items.len() implies all.contains(
                    #[trigger] items[i],
                ) by {
                }
                lemma_follow_references(
                    t,
                    end,
                    project_stage(p, name, 1),
                    r0,
                    items,
                    fuel,
                    more,
                );
            },
            _ => {},
        }
    } else if n == 4 {
        let us = list_field(os, root, "packageReferences"@);
        let visit = |r: Registry, x: Seq<char>| visit_package(os, r, root, x);
        assert(lists_objects("packageReferences"@));
        assert forall|r: Registry, x: Seq<char>| eases(r, #[trigger] visit(r, x)) by {
            ease_package(os, r, root, x);
        }
        assert forall|r: Registry, x: Seq<char>|
            us.contains(x) && tracks(t, end, r) && eases(r0, r) && is_quiet(
                t,
                #[trigger] visit(r, x),
            ) implies goes(t, end, r, visit(r, x)) by {
            assert(is_known(r, root));
            let y = pair_in_list(t, t.root, t.to.root, "packageReferences"@, x);
            if (t.ok)(x) {
                assert(list_field(t.os, t.root, "packageReferences"@).contains(x));
            }
            lemma_follow_package(t, end, r, x, y);
        }
        lemma_follow_all(t, end, r0, r0, us, visit);
    } else if n == 5 {
        let us = targets_of(os, root);
        let visit = |r: Registry, x: Seq<char>| visit_target_early(os, r, root, x);
        assert(lists_objects("targets"@));
        assert forall|r: Registry, x: Seq<char>| eases(r, #[trigger] visit(r, x)) by {
            ease_early(os, r, root, x);
        }
        assert forall|r: Registry, x: Seq<char>|
            us.contains(x) && tracks(t, end, r) && eases(r0, r) && is_quiet(
                t,
                #[trigger] visit(r, x),
            ) implies goes(t, end, r, visit(r, x)) by {
            assert(is_known(r, root));
            let y = pair_in_list(t, t.root, t.to.root, "targets"@, x);
            if (t.ok)(x) {
                assert(list_field(t.os, t.root, "targets"@).contains(x));
                assert(targets_of(t.to.os, t.to.root).contains(y));
            }
            lemma_follow_early(t, end, r, x, y);
        }
        lemma_follow_all(t, end, r0, r0, us, visit);
    } else {
        let us = targets_of(os, root);
        let visit = |r: Registry, x: Seq<char>| visit_target(os, root, r, x);
        assert(lists_objects("targets"@));
        assert forall|r: Registry, x: Seq<char>| eases(r, #[trigger] visit(r, x)) by {
            ease_target(os, root, r, x);
        }
        assert forall|r: Registry, x: Seq<char>|
            us.contains(x) && tracks(t, end, r) && eases(r0, r) && is_quiet(
                t,
                #[trigger] visit(r, x),
            ) implies goes(t, end, r, visit(r, x)) by {
            assert(is_known(r0, x));
            assert(is_known(r, x));
            assert(owns(os, root, root, x, Kind::Target));
            assert((t.live)(x) && (t.live)(root));
            assert((t.ok)(x));
            assert(list_field(t.os, t.root, "targets"@).contains(x));
            let y = pair_in_list(t, t.root, t.to.root, "targets"@, x);
            assert(targets_of(t.to.os, t.to.root).contains(y));
            lemma_follow_target(t, pre, end, r0, r, x, y);
        }
        lemma_follow_all(t, end, r0, r0, us, visit);
    }
}

} // verus!
