//! What tells the objects of a project apart.

use crate::closure_laws::{
    closed_group, closed_phase, closed_target, is_clear, lemma_known_owner, lemma_project_closed,
    lemma_project_right, lemma_project_stages, project_stage, projects_are_known, reach_of,
};
use crate::difference_laws::lacks;
use crate::link_laws::{
    group_isa, group_name, is_fine, is_placed_by, is_right, owns, row_of, target_component,
    targets_of, Kind,
};
use crate::map_laws::is_way;
use crate::naming_laws::{
    is_known, is_named, law_names_keep_uuids_out_of_paths, with_main_group,
};
use crate::parser::{field, Project};
use crate::settle_laws::registered;
use crate::table::lookup;
use crate::uniquifier::{
    is_object, list_field, md5_hex, md5_number, path_of, phase_component, referenced, registry,
    text_field, upper_digit, upper_digits, Objects, Registry,
};
use vstd::prelude::*;

verus! {

/// A project that names everything paths need, in which each object is reached
/// once.
pub open spec fn is_traceable(p: Project, name: Seq<char>) -> bool {
    let c = reach_of(p, name, registered(registry(p, name)));
    &&& is_named(p, name)
    &&& is_clear(c)
    &&& projects_are_known(c, with_main_group(p, name))
}

proof fn lemma_traceable(p: Project, name: Seq<char>)
    requires
        is_traceable(p, name),
    ensures
        registry(p, name) == project_stage(p, name, 6),
        is_right(reach_of(p, name, registered(registry(p, name))), registry(p, name)),
        is_fine(reach_of(p, name, registered(registry(p, name))), registry(p, name)),
        with_main_group(p, name) == project_stage(p, name, 1),
{
    let live = registered(registry(p, name));
    lemma_project_stages(p, name);
    reveal_with_fuel(project_stage, 2);
    assert(with_main_group(p, name) == project_stage(p, name, 1));
    law_names_keep_uuids_out_of_paths(p, name);
    lemma_project_right(p, name, live, 6);
    assert(is_right(reach_of(p, name, live), project_stage(p, name, 6)));
}

// ── Digests ──────────────────────────────────────────────────────────────────

spec fn sixteen_to(count: nat) -> nat
    decreases count,
{
    if count == 0 {
        1
    } else {
        16 * sixteen_to((count - 1) as nat)
    }
}

proof fn lemma_digits_distinct(n: int, m: int, count: nat)
    requires
        0 <= n < sixteen_to(count),
        0 <= m < sixteen_to(count),
        upper_digits(n, count) == upper_digits(m, count),
    ensures
        n == m,
    decreases count,
{
    if count > 0 {
        let a = upper_digits(n / 16, (count - 1) as nat);
        let b = upper_digits(m / 16, (count - 1) as nat);
        let x = a.push(upper_digit(n % 16));
        let y = b.push(upper_digit(m % 16));
        assert(x.last() == y.last());
        assert(x.drop_last() =~= a);
        assert(y.drop_last() =~= b);
        lemma_digits_distinct(n / 16, m / 16, (count - 1) as nat);
    }
}

/// Paths whose digests differ get different UUIDs.
pub proof fn law_digests_keep_uuids_apart(a: Seq<char>, b: Seq<char>)
    requires
        md5_number(a) != md5_number(b),
    ensures
        md5_hex(a) != md5_hex(b),
{
    reveal(md5_hex);
    reveal_with_fuel(sixteen_to, 33);
    assert(sixteen_to(32) == 0x1_0000_0000_0000_0000_0000_0000_0000_0000int);
    if md5_hex(a) == md5_hex(b) {
        lemma_digits_distinct(md5_number(a) as int, md5_number(b) as int, 32);
    }
}

// ── Paths ────────────────────────────────────────────────────────────────────

/// The text has a bracket with the path of another object inside, as paths do.
spec fn spelled(isa: Seq<char>, above: Seq<char>, component: Seq<char>) -> Seq<char> {
    isa + "["@ + above + "/"@ + component + "]"@
}

proof fn lemma_spelled(
    isa: Seq<char>,
    above: Seq<char>,
    x: Seq<char>,
    jsa: Seq<char>,
    below: Seq<char>,
    y: Seq<char>,
)
    requires
        spelled(isa, above, x) == spelled(jsa, below, y),
    ensures
        isa == jsa && above == below ==> x == y,
        isa == jsa && x == y ==> above == below,
        lacks(isa, '[') && lacks(jsa, '[') ==> isa == jsa,
{
    reveal_strlit("[");
    reveal_strlit("/");
    reveal_strlit("]");
    let s = spelled(isa, above, x);
    let t = spelled(jsa, below, y);
    if isa == jsa && above == below {
        let n = (isa.len() + above.len() + 2) as int;
        assert(x =~= s.subrange(n, s.len() - 1));
        assert(y =~= t.subrange(n, t.len() - 1));
    }
    if isa == jsa && x == y {
        let n = (isa.len() + 1) as int;
        assert(s.len() == t.len());
        assert(above.len() == below.len());
        assert(above =~= s.subrange(n, n + above.len()));
        assert(below =~= t.subrange(n, n + above.len()));
    }
    if lacks(isa, '[') && lacks(jsa, '[') {
        let a = isa.len() as int;
        let b = jsa.len() as int;
        assert(s[a] == '[');
        assert(t[b] == '[');
        if a < b {
            assert(t[a] == jsa[a]);
        }
        if b < a {
            assert(s[b] == isa[b]);
        }
        assert(isa =~= s.take(a));
        assert(jsa =~= t.take(a));
    }
}

/// The object is called that: by its name, or else by its path.
pub open spec fn is_called(os: Objects, u: Seq<char>, x: Seq<char>) -> bool {
    ||| text_field(os, u, "name"@) == Some(x)
    ||| text_field(os, u, "name"@) is None && text_field(os, u, "path"@) == Some(x)
}

/// The objects have texts in this field, and these differ.
pub open spec fn differ_in(os: Objects, u: Seq<char>, v: Seq<char>, n: Seq<char>) -> bool {
    match (text_field(os, u, n), text_field(os, v, n)) {
        (Some(x), Some(y)) => x != y,
        _ => false,
    }
}

/// The objects have the same text in this field, or none.
pub open spec fn agree_in(os: Objects, u: Seq<char>, v: Seq<char>, n: Seq<char>) -> bool {
    text_field(os, u, n) == text_field(os, v, n)
}

/// The objects have classes, which differ.
pub open spec fn differ_in_class(os: Objects, u: Seq<char>, v: Seq<char>) -> bool {
    match (text_field(os, u, "isa"@), text_field(os, v, "isa"@)) {
        (Some(x), Some(y)) => x != y && lacks(x, '[') && lacks(y, '['),
        _ => false,
    }
}

/// Both objects are of this class.
pub open spec fn are_of_class(os: Objects, u: Seq<char>, v: Seq<char>, isa: Seq<char>) -> bool {
    text_field(os, u, "isa"@) == Some(isa) && text_field(os, v, "isa"@) == Some(isa)
}

/// Two phases of one target differ: in class; scripts in their text; phases that
/// copy files in their name, their folder or their path.
pub open spec fn phases_differ(os: Objects, u: Seq<char>, v: Seq<char>) -> bool {
    ||| differ_in_class(os, u, v)
    ||| are_of_class(os, u, v, "PBXShellScriptBuildPhase"@) && differ_in(os, u, v, "shellScript"@)
    ||| are_of_class(os, u, v, "PBXCopyFilesBuildPhase"@) && {
        ||| differ_in(os, u, v, "name"@) && agree_in(os, u, v, "dstSubfolderSpec"@) && agree_in(
            os,
            u,
            v,
            "dstPath"@,
        )
        ||| agree_in(os, u, v, "name"@) && differ_in(os, u, v, "dstSubfolderSpec"@) && agree_in(
            os,
            u,
            v,
            "dstPath"@,
        )
        ||| agree_in(os, u, v, "name"@) && agree_in(os, u, v, "dstSubfolderSpec"@) && differ_in(
            os,
            u,
            v,
            "dstPath"@,
        )
    }
}

/// Two groups or files of one group differ: in class, or in what they are called.
pub open spec fn nodes_differ(os: Objects, u: Seq<char>, v: Seq<char>) -> bool {
    ||| differ_in_class(os, u, v)
    ||| exists|x: Seq<char>, y: Seq<char>| #[trigger]
        is_called(os, u, x) && #[trigger] is_called(os, v, y) && x != y && agree_in(
            os,
            u,
            v,
            "isa"@,
        )
}

/// Two rules of one target differ: in their type, or, if it is by pattern, in the
/// pattern.
pub open spec fn rules_differ(os: Objects, u: Seq<char>, v: Seq<char>) -> bool {
    let proxy = Some("pattern.proxy"@);
    ||| differ_in(os, u, v, "fileType"@) && text_field(os, u, "fileType"@) != proxy && text_field(
        os,
        v,
        "fileType"@,
    ) != proxy
    ||| text_field(os, u, "fileType"@) == proxy && text_field(os, v, "fileType"@) == proxy
        && differ_in(os, u, v, "filePatterns"@)
}

/// Two targets differ: in name or in product.
pub open spec fn targets_differ(os: Objects, u: Seq<char>, v: Seq<char>) -> bool {
    ||| differ_in_class(os, u, v)
    ||| agree_in(os, u, v, "isa"@) && differ_in(os, u, v, "name"@) && text_field(
        os,
        u,
        "productName"@,
    ) is Some && agree_in(os, u, v, "productName"@)
    ||| agree_in(os, u, v, "isa"@) && differ_in(os, u, v, "productName"@) && text_field(
        os,
        u,
        "name"@,
    ) is Some && agree_in(os, u, v, "name"@)
}

/// Two objects of one owner, of one kind, differ in what tells such objects apart.
pub open spec fn tells_apart(
    os: Objects,
    reg: Registry,
    u: Seq<char>,
    v: Seq<char>,
    k: Kind,
) -> bool {
    match k {
        Kind::Child => nodes_differ(os, u, v),
        Kind::Setting => differ_in(os, u, v, "name"@),
        Kind::Settings => differ_in(os, u, v, "defaultConfigurationName"@),
        Kind::Dependency => match (text_field(os, u, "target"@), text_field(os, v, "target"@)) {
            (Some(x), Some(y)) => path_of(reg, x) != path_of(reg, y),
            (None, None) => differ_in(os, u, v, "name"@),
            _ => false,
        },
        Kind::Phase => phases_differ(os, u, v),
        Kind::File => match (referenced(os, u), referenced(os, v)) {
            (Some(x), Some(y)) => path_of(reg, x) != path_of(reg, y),
            _ => false,
        },
        Kind::Rule => rules_differ(os, u, v),
        Kind::Package => differ_in(os, u, v, "repositoryURL"@),
        Kind::Product => differ_in(os, u, v, "productName"@),
        Kind::Target => targets_differ(os, u, v),
        Kind::Proxy => differ_in(os, u, v, "remoteInfo"@),
        Kind::Remote => false,
    }
}

proof fn lemma_copy_component(os: Objects, u: Seq<char>, v: Seq<char>)
    requires
        are_of_class(os, u, v, "PBXCopyFilesBuildPhase"@),
        phases_differ(os, u, v),
    ensures
        phase_component(os, u, "PBXCopyFilesBuildPhase"@) != phase_component(
            os,
            v,
            "PBXCopyFilesBuildPhase"@,
        ),
{
    reveal_strlit("/");
    reveal_strlit("PBXCopyFilesBuildPhase");
    reveal_strlit("PBXShellScriptBuildPhase");
    assert("PBXCopyFilesBuildPhase"@[3] != "PBXShellScriptBuildPhase"@[3]);
    let isa = "PBXCopyFilesBuildPhase"@;
    let a = phase_component(os, u, isa);
    let b = phase_component(os, v, isa);
    let du = crate::uniquifier::or_text(text_field(os, u, "dstPath"@), Seq::empty());
    let dv = crate::uniquifier::or_text(text_field(os, v, "dstPath"@), Seq::empty());
    let su = crate::uniquifier::or_text(text_field(os, u, "dstSubfolderSpec"@), Seq::empty());
    let sv = crate::uniquifier::or_text(text_field(os, v, "dstSubfolderSpec"@), Seq::empty());
    if a == b {
        match (text_field(os, u, "name"@), text_field(os, v, "name"@)) {
            (Some(x), Some(y)) => {
                assert(a == x + "/"@ + (su + "/"@ + du));
                assert(b == y + "/"@ + (sv + "/"@ + dv));
                if x == y {
                    let n = x.len() as int + 1;
                    assert(su + "/"@ + du =~= a.skip(n));
                    assert(sv + "/"@ + dv =~= b.skip(n));
                    lemma_halves(su, du, sv, dv);
                } else {
                    assert(a.len() == b.len());
                    assert(x =~= a.take(x.len() as int));
                    assert(y =~= b.take(x.len() as int));
                }
            },
            _ => {
                lemma_halves(su, du, sv, dv);
            },
        }
    }
}

proof fn lemma_halves(a: Seq<char>, x: Seq<char>, b: Seq<char>, y: Seq<char>)
    requires
        a + "/"@ + x == b + "/"@ + y,
    ensures
        a == b ==> x == y,
        x == y ==> a == b,
{
    reveal_strlit("/");
    let s = a + "/"@ + x;
    let t = b + "/"@ + y;
    if a == b {
        assert(x =~= s.skip(a.len() as int + 1));
        assert(y =~= t.skip(a.len() as int + 1));
    }
    if x == y {
        assert(s.len() == t.len());
        assert(a =~= s.take(a.len() as int));
        assert(b =~= t.take(a.len() as int));
    }
}

proof fn lemma_after_literal(a: Seq<char>, x: Seq<char>, y: Seq<char>)
    requires
        a + x == a + y,
    ensures
        x == y,
{
    assert(x =~= (a + x).skip(a.len() as int));
    assert(y =~= (a + y).skip(a.len() as int));
}

#[verifier::rlimit(60)]
#[verifier::spinoff_prover]
proof fn lemma_siblings_differ(
    os: Objects,
    reg: Registry,
    w: Seq<char>,
    u: Seq<char>,
    v: Seq<char>,
    k: Kind,
)
    requires
        is_placed_by(os, reg, w, u, k),
        is_placed_by(os, reg, w, v, k),
        tells_apart(os, reg, u, v, k),
    ensures
        path_of(reg, u) != path_of(reg, v),
{
    let above = path_of(reg, w)->Some_0;
    let a = row_of(os, reg, w, u, k).0;
    let b = row_of(os, reg, w, v, k).0;
    if a == b {
        match k {
            Kind::Child => {
                lemma_spelled(
                    group_isa(os, u),
                    above,
                    group_name(os, u),
                    group_isa(os, v),
                    above,
                    group_name(os, v),
                );
            },
            Kind::Phase => {
                let iu = crate::link_laws::phase_isa(os, u);
                let iv = crate::link_laws::phase_isa(os, v);
                lemma_spelled(
                    iu,
                    above,
                    phase_component(os, u, iu),
                    iv,
                    above,
                    phase_component(os, v, iv),
                );
                if are_of_class(os, u, v, "PBXCopyFilesBuildPhase"@) {
                    lemma_copy_component(os, u, v);
                }
            },
            Kind::Target => {
                let iu = crate::uniquifier::or_text(text_field(os, u, "isa"@), "PBXTarget"@);
                let iv = crate::uniquifier::or_text(text_field(os, v, "isa"@), "PBXTarget"@);
                lemma_spelled(
                    iu,
                    above,
                    target_component(os, u),
                    iv,
                    above,
                    target_component(os, v),
                );
                if iu == iv {
                    let nu = text_field(os, u, "name"@)->Some_0;
                    let nv = text_field(os, v, "name"@)->Some_0;
                    let pu = text_field(os, u, "productName"@);
                    let pv = text_field(os, v, "productName"@);
                    lemma_halves(
                        crate::uniquifier::or_text(pu, nu),
                        nu,
                        crate::uniquifier::or_text(pv, nv),
                        nv,
                    );
                }
            },
            Kind::Rule => {
                let cu = crate::link_laws::rule_component(os, u);
                let cv = crate::link_laws::rule_component(os, v);
                lemma_spelled("PBXBuildRule"@, above, cu, "PBXBuildRule"@, above, cv);
                if text_field(os, u, "fileType"@) == Some("pattern.proxy"@) && text_field(
                    os,
                    v,
                    "fileType"@,
                ) == Some("pattern.proxy"@) {
                    let fu = crate::uniquifier::or_text(
                        text_field(os, u, "filePatterns"@),
                        Seq::empty(),
                    );
                    let fv = crate::uniquifier::or_text(
                        text_field(os, v, "filePatterns"@),
                        Seq::empty(),
                    );
                    lemma_halves("pattern.proxy"@, fu, "pattern.proxy"@, fv);
                }
            },
            Kind::Setting => {
                let x = text_field(os, u, "name"@)->Some_0;
                let y = text_field(os, v, "name"@)->Some_0;
                lemma_spelled("XCBuildConfiguration"@, above, x, "XCBuildConfiguration"@, above, y);
            },
            Kind::Settings => {
                let x = text_field(os, u, "defaultConfigurationName"@)->Some_0;
                let y = text_field(os, v, "defaultConfigurationName"@)->Some_0;
                lemma_spelled("XCConfigurationList"@, above, x, "XCConfigurationList"@, above, y);
            },
            Kind::Dependency => {
                let x = crate::link_laws::dependency_component(os, reg, u);
                let y = crate::link_laws::dependency_component(os, reg, v);
                lemma_spelled("PBXTargetDependency"@, above, x, "PBXTargetDependency"@, above, y);
            },
            Kind::File => {
                let x = path_of(reg, referenced(os, u)->Some_0)->Some_0;
                let y = path_of(reg, referenced(os, v)->Some_0)->Some_0;
                lemma_spelled("PBXBuildFile"@, above, x, "PBXBuildFile"@, above, y);
            },
            Kind::Package => {
                let x = text_field(os, u, "repositoryURL"@)->Some_0;
                let y = text_field(os, v, "repositoryURL"@)->Some_0;
                let isa = "XCRemoteSwiftPackageReference"@;
                lemma_spelled(isa, above, x, isa, above, y);
            },
            Kind::Product => {
                let x = text_field(os, u, "productName"@)->Some_0;
                let y = text_field(os, v, "productName"@)->Some_0;
                let isa = "XCSwiftPackageProductDependency"@;
                lemma_spelled(isa, above, x, isa, above, y);
            },
            Kind::Proxy => {
                let x = text_field(os, u, "remoteInfo"@)->Some_0;
                let y = text_field(os, v, "remoteInfo"@)->Some_0;
                let isa = "PBXContainerItemProxy"@;
                let head = "PBXContainerItemProxy/"@;
                lemma_spelled(isa, above, head + x, isa, above, head + y);
                lemma_after_literal(head, x, y);
            },
            Kind::Remote => {},
        }
    }
}

/// Two objects of one owner that differ in what tells them apart have different
/// paths; and different UUIDs, unless their paths have one digest.
pub proof fn law_siblings_have_distinct_paths(
    p: Project,
    name: Seq<char>,
    w: Seq<char>,
    u: Seq<char>,
    v: Seq<char>,
    k: Kind,
)
    requires
        is_traceable(p, name),
        is_known(registry(p, name), w),
        is_known(registry(p, name), u),
        is_known(registry(p, name), v),
        owns(p.objects, p.root_object, w, u, k),
        owns(p.objects, p.root_object, w, v, k),
        tells_apart(p.objects, registry(p, name), u, v, k),
    ensures
        path_of(registry(p, name), u) != path_of(registry(p, name), v),
        ({
            let a = lookup(registry(p, name).rows, u)->Some_0;
            let b = lookup(registry(p, name).rows, v)->Some_0;
            md5_number(a.0) != md5_number(b.0) ==> a.1 != b.1
        }),
{
    let reg = registry(p, name);
    let c = reach_of(p, name, registered(reg));
    lemma_traceable(p, name);
    lemma_known_owner(c, reg, w, u, k);
    lemma_known_owner(c, reg, w, v, k);
    lemma_siblings_differ(p.objects, reg, w, u, v, k);
    let a = lookup(reg.rows, u)->Some_0;
    let b = lookup(reg.rows, v)->Some_0;
    if md5_number(a.0) != md5_number(b.0) {
        law_digests_keep_uuids_apart(a.0, b.0);
    }
}

// ── Nothing is lost ──────────────────────────────────────────────────────────

/// The object is registered under a path with its class, the path of its owner and
/// a text of its own.
pub open spec fn is_below(
    reg: Registry,
    w: Seq<char>,
    u: Seq<char>,
    isa: Seq<char>,
    own: Seq<char>,
) -> bool {
    match (path_of(reg, w), path_of(reg, u)) {
        (Some(above), Some(path)) => path == isa + "["@ + above + "/"@ + own + "]"@ && lookup(
            reg.rows,
            u,
        )->Some_0.1 == md5_hex(path),
        _ => false,
    }
}

/// The phase of a target is registered by its class; a script by its text; a phase
/// that copies files by its name, its folder and its path.
pub open spec fn phase_is_placed(os: Objects, reg: Registry, t: Seq<char>, u: Seq<char>) -> bool {
    match text_field(os, u, "isa"@) {
        Some(isa) => if isa == "PBXShellScriptBuildPhase"@ {
            match text_field(os, u, "shellScript"@) {
                Some(script) => is_below(reg, t, u, isa, script),
                None => is_below(reg, t, u, isa, isa),
            }
        } else if isa == "PBXCopyFilesBuildPhase"@ {
            let folder = text_in(os, u, "dstSubfolderSpec"@);
            let path = text_in(os, u, "dstPath"@);
            match text_field(os, u, "name"@) {
                Some(n) => is_below(reg, t, u, isa, n + "/"@ + (folder + "/"@ + path)),
                None => is_below(reg, t, u, isa, folder + "/"@ + path),
            }
        } else {
            is_below(reg, t, u, isa, isa)
        },
        None => is_below(reg, t, u, "PBXBuildPhase"@, "PBXBuildPhase"@),
    }
}

/// The text of a field, empty if there is none.
pub open spec fn text_in(os: Objects, u: Seq<char>, n: Seq<char>) -> Seq<char> {
    match text_field(os, u, n) {
        Some(x) => x,
        None => Seq::empty(),
    }
}

proof fn lemma_target_closed(p: Project, name: Seq<char>, t: Seq<char>)
    requires
        is_traceable(p, name),
        list_field(p.objects, p.root_object, "targets"@).contains(t),
    ensures
        is_placed_by(p.objects, registry(p, name), p.root_object, t, Kind::Target),
        closed_target(
            reach_of(p, name, registered(registry(p, name))),
            project_stage(p, name, 4),
            registry(p, name),
            t,
        ),
{
    let live = registered(registry(p, name));
    lemma_traceable(p, name);
    lemma_project_closed(p, name, live, 5, 6);
    lemma_project_closed(p, name, live, 6, 6);
    assert(targets_of(p.objects, p.root_object).contains(t));
}

/// Every phase of every target is registered, and two that differ, in class or in
/// what they do, have different paths.
pub proof fn law_phases_are_told_apart(
    p: Project,
    name: Seq<char>,
    t: Seq<char>,
    u: Seq<char>,
    v: Seq<char>,
)
    requires
        is_traceable(p, name),
        list_field(p.objects, p.root_object, "targets"@).contains(t),
        is_object(p.objects, t),
        list_field(p.objects, t, "buildPhases"@).contains(u),
        list_field(p.objects, t, "buildPhases"@).contains(v),
        is_object(p.objects, u),
        is_object(p.objects, v),
    ensures
        phase_is_placed(p.objects, registry(p, name), t, u),
        phases_differ(p.objects, u, v) ==> path_of(registry(p, name), u) != path_of(
            registry(p, name),
            v,
        ),
{
    let os = p.objects;
    let reg = registry(p, name);
    lemma_traceable(p, name);
    lemma_target_closed(p, name, t);
    reveal_strlit("PBXBuildPhase");
    reveal_strlit("PBXShellScriptBuildPhase");
    reveal_strlit("PBXCopyFilesBuildPhase");
    assert("PBXBuildPhase"@.len() != "PBXShellScriptBuildPhase"@.len());
    assert("PBXBuildPhase"@.len() != "PBXCopyFilesBuildPhase"@.len());
    assert(is_placed_by(os, reg, t, u, Kind::Phase));
    assert(is_placed_by(os, reg, t, v, Kind::Phase));
    if phases_differ(os, u, v) {
        lemma_siblings_differ(os, reg, t, u, v, Kind::Phase);
    }
}

/// Two scripts of one target with different texts get different UUIDs, unless
/// their paths have one digest.
pub proof fn law_scripts_get_uuids_of_their_own(
    p: Project,
    name: Seq<char>,
    t: Seq<char>,
    u: Seq<char>,
    v: Seq<char>,
)
    requires
        is_traceable(p, name),
        list_field(p.objects, p.root_object, "targets"@).contains(t),
        is_object(p.objects, t),
        list_field(p.objects, t, "buildPhases"@).contains(u),
        list_field(p.objects, t, "buildPhases"@).contains(v),
        is_object(p.objects, u),
        is_object(p.objects, v),
        are_of_class(p.objects, u, v, "PBXShellScriptBuildPhase"@),
        differ_in(p.objects, u, v, "shellScript"@),
    ensures
        ({
            let a = lookup(registry(p, name).rows, u);
            let b = lookup(registry(p, name).rows, v);
            &&& a is Some
            &&& b is Some
            &&& a->Some_0.0 != b->Some_0.0
            &&& md5_number(a->Some_0.0) != md5_number(b->Some_0.0) ==> a->Some_0.1 != b->Some_0.1
        }),
{
    law_phases_are_told_apart(p, name, t, u, v);
    law_phases_are_told_apart(p, name, t, v, u);
    let a = lookup(registry(p, name).rows, u)->Some_0;
    let b = lookup(registry(p, name).rows, v)->Some_0;
    if md5_number(a.0) != md5_number(b.0) {
        law_digests_keep_uuids_apart(a.0, b.0);
    }
}

/// Everything that a target is made of is registered: its configurations, its
/// dependencies, its rules and products, by their names; and every build file that
/// refers to a file of the tree or to a package product that is known.
#[verifier::rlimit(40)]
pub proof fn law_parts_of_targets_are_registered(p: Project, name: Seq<char>, t: Seq<char>)
    requires
        is_traceable(p, name),
        list_field(p.objects, p.root_object, "targets"@).contains(t),
        is_object(p.objects, t),
    ensures
        ({
            let os = p.objects;
            let reg = registry(p, name);
            &&& target_is_placed(os, reg, p.root_object, t)
            &&& configurations_are_placed(os, reg, t)
            &&& forall|d: Seq<char>| #[trigger]
                list_field(os, t, "dependencies"@).contains(d) && is_object(os, d)
                    ==> dependency_is_placed(os, reg, t, d)
            &&& forall|u: Seq<char>| #[trigger]
                list_field(os, t, "buildRules"@).contains(u) && is_object(os, u)
                    ==> rule_is_placed(os, reg, t, u)
            &&& forall|u: Seq<char>| #[trigger]
                list_field(os, t, "packageProductDependencies"@).contains(u) && is_object(os, u)
                    ==> product_is_placed(os, reg, t, u)
        }),
{
    let os = p.objects;
    let reg = registry(p, name);
    lemma_traceable(p, name);
    lemma_target_closed(p, name, t);
    assert forall|d: Seq<char>| #[trigger]
        list_field(os, t, "dependencies"@).contains(d) && is_object(
            os,
            d,
        ) implies dependency_is_placed(os, reg, t, d) by {
        assert(is_placed_by(os, reg, t, d, Kind::Dependency));
    }
    assert forall|u: Seq<char>| #[trigger]
        list_field(os, t, "buildRules"@).contains(u) && is_object(os, u) implies rule_is_placed(
        os,
        reg,
        t,
        u,
    ) by {
        reveal_strlit("unknown");
        reveal_strlit("pattern.proxy");
        assert("unknown"@[0] != "pattern.proxy"@[0]);
        assert(is_placed_by(os, reg, t, u, Kind::Rule));
    }
    assert forall|u: Seq<char>| #[trigger]
        list_field(os, t, "packageProductDependencies"@).contains(u) && is_object(
            os,
            u,
        ) implies product_is_placed(os, reg, t, u) by {
        assert(is_placed_by(os, reg, t, u, Kind::Product));
    }
}

/// The target is registered by its class, its product and its name.
pub open spec fn target_is_placed(
    os: Objects,
    reg: Registry,
    root: Seq<char>,
    t: Seq<char>,
) -> bool {
    let isa = match text_field(os, t, "isa"@) {
        Some(x) => x,
        None => "PBXTarget"@,
    };
    match (text_field(os, t, "productName"@), text_field(os, t, "name"@)) {
        (Some(product), Some(n)) => is_below(reg, root, t, isa, product + "/"@ + n),
        (None, Some(n)) => is_below(reg, root, t, isa, n + "/"@ + n),
        _ => false,
    }
}

/// The dependency of a target is registered by the path of what it depends on, or
/// else by its name.
pub open spec fn dependency_is_placed(
    os: Objects,
    reg: Registry,
    t: Seq<char>,
    d: Seq<char>,
) -> bool {
    match text_field(os, d, "target"@) {
        Some(x) => path_of(reg, x) is Some && is_below(
            reg,
            t,
            d,
            "PBXTargetDependency"@,
            path_of(reg, x)->Some_0,
        ),
        None => match text_field(os, d, "name"@) {
            Some(n) => is_below(reg, t, d, "PBXTargetDependency"@, n),
            None => true,
        },
    }
}

/// The product of a package that a target needs is registered by its name.
pub open spec fn product_is_placed(
    os: Objects,
    reg: Registry,
    t: Seq<char>,
    u: Seq<char>,
) -> bool {
    match text_field(os, u, "productName"@) {
        Some(n) => is_below(reg, t, u, "XCSwiftPackageProductDependency"@, n),
        None => true,
    }
}

/// The list of configurations of an object is registered by the name of its
/// default, and the configurations by their names.
pub open spec fn configurations_are_placed(os: Objects, reg: Registry, w: Seq<char>) -> bool {
    match text_field(os, w, "buildConfigurationList"@) {
        Some(l) => is_object(os, l) ==> {
            &&& match text_field(os, l, "defaultConfigurationName"@) {
                Some(n) => is_below(reg, w, l, "XCConfigurationList"@, n),
                None => is_below(reg, w, l, "XCConfigurationList"@, "Release"@),
            }
            &&& forall|x: Seq<char>| #[trigger]
                list_field(os, l, "buildConfigurations"@).contains(x) && is_object(os, x)
                    ==> match text_field(os, x, "name"@) {
                    Some(n) => is_below(reg, l, x, "XCBuildConfiguration"@, n),
                    None => is_below(reg, l, x, "XCBuildConfiguration"@, "Release"@),
                }
        },
        None => true,
    }
}

/// The rule of a target is registered by its type, and by its pattern if it has
/// that.
pub open spec fn rule_is_placed(os: Objects, reg: Registry, t: Seq<char>, u: Seq<char>) -> bool {
    match text_field(os, u, "fileType"@) {
        Some(x) => if x == "pattern.proxy"@ {
            is_below(reg, t, u, "PBXBuildRule"@, x + "/"@ + text_in(os, u, "filePatterns"@))
        } else {
            is_below(reg, t, u, "PBXBuildRule"@, x)
        },
        None => is_below(reg, t, u, "PBXBuildRule"@, "unknown"@),
    }
}

/// What a build file refers to: the file in `fileRef`, or, if that is missing, the
/// product in `productRef`.
pub open spec fn refers_to(os: Objects, f: Seq<char>, x: Seq<char>) -> bool {
    ||| text_field(os, f, "fileRef"@) == Some(x)
    ||| field(os, f, "fileRef"@) is None && text_field(os, f, "productRef"@) == Some(x)
}

/// A build file is registered by the path of what it refers to, if that is in the
/// tree of files; only one that refers to something that is not registered may be
/// dropped.
pub proof fn law_build_files_are_registered(
    p: Project,
    name: Seq<char>,
    t: Seq<char>,
    u: Seq<char>,
    f: Seq<char>,
    x: Seq<char>,
)
    requires
        is_traceable(p, name),
        list_field(p.objects, p.root_object, "targets"@).contains(t),
        is_object(p.objects, t),
        list_field(p.objects, t, "buildPhases"@).contains(u),
        is_object(p.objects, u),
        list_field(p.objects, u, "files"@).contains(f),
        refers_to(p.objects, f, x),
    ensures
        ({
            let reg = registry(p, name);
            &&& is_known(with_main_group(p, name), x) ==> path_of(reg, x) is Some && is_below(
                reg,
                u,
                f,
                "PBXBuildFile"@,
                path_of(reg, x)->Some_0,
            )
            &&& reg.remove.contains(f) || path_of(reg, x) is Some && is_below(
                reg,
                u,
                f,
                "PBXBuildFile"@,
                path_of(reg, x)->Some_0,
            )
        }),
{
    let os = p.objects;
    let reg = registry(p, name);
    let live = registered(reg);
    lemma_traceable(p, name);
    lemma_target_closed(p, name, t);
    lemma_project_right(p, name, live, 6);
    lemma_project_right(p, name, live, 4);
    assert(is_fine(reach_of(p, name, live), project_stage(p, name, 4)));
    assert(crate::link_laws::grows(project_stage(p, name, 1), project_stage(p, name, 4)));
    assert(referenced(os, f) == Some(x));
    let c = reach_of(p, name, live);
    assert(closed_phase(c, project_stage(p, name, 4), reg, t, u));
    if is_known(with_main_group(p, name), x) {
        assert(is_known(project_stage(p, name, 1), x));
        assert(lookup(project_stage(p, name, 4).rows, x) == lookup(
            project_stage(p, name, 1).rows,
            x,
        ));
    }
}

/// The group or file is registered by its class and by what it is called.
pub open spec fn node_is_placed(os: Objects, reg: Registry, w: Seq<char>, u: Seq<char>) -> bool {
    let isa = match text_field(os, u, "isa"@) {
        Some(x) => x,
        None => "PBXGroup"@,
    };
    match (text_field(os, u, "name"@), text_field(os, u, "path"@)) {
        (Some(n), _) => is_below(reg, w, u, isa, n),
        (None, Some(path)) => is_below(reg, w, u, isa, path),
        (None, None) => is_below(reg, w, u, isa, "PBXRootGroup"@),
    }
}

proof fn lemma_way_closed(
    p: Project,
    name: Seq<char>,
    us: Seq<Seq<char>>,
    parent: Seq<char>,
    fuel: nat,
)
    requires
        is_way(p.objects, us),
        us.len() <= fuel,
        closed_group(
            reach_of(p, name, registered(registry(p, name))),
            registry(p, name),
            parent,
            us[0],
            fuel,
        ),
    ensures
        is_placed_by(p.objects, registry(p, name), parent, us[0], Kind::Child),
        forall|i: int|
            0 < i < us.len() ==> is_placed_by(
                p.objects,
                registry(p, name),
                us[i - 1],
                #[trigger] us[i],
                Kind::Child,
            ),
    decreases us.len(),
{
    let os = p.objects;
    let reg = registry(p, name);
    let c = reach_of(p, name, registered(reg));
    reveal_with_fuel(closed_group, 2);
    assert(is_object(os, us[0]));
    if us.len() > 1 {
        let rest = us.drop_first();
        assert forall|i: int, j: int| 0 <= i < rest.len() && 0 <= j < rest.len() && i != j implies
        rest[i] != rest[j] by {
            assert(us[i + 1] != us[j + 1]);
        }
        assert forall|i: int| 0 <= i < rest.len() implies is_object(os, #[trigger] rest[i]) by {
            assert(is_object(os, us[i + 1]));
        }
        assert forall|i: int| 0 < i < rest.len() implies list_field(
            os,
            rest[i - 1],
            "children"@,
        ).contains(#[trigger] rest[i]) by {
            assert(list_field(os, us[i + 1 - 1], "children"@).contains(us[i + 1]));
        }
        assert(list_field(os, us[0], "children"@).contains(us[1])) by {
            assert(list_field(os, us[1 - 1], "children"@).contains(us[1]));
        }
        lemma_way_closed(p, name, rest, us[0], (fuel - 1) as nat);
        assert forall|i: int| 0 < i < us.len() implies is_placed_by(
            os,
            reg,
            us[i - 1],
            #[trigger] us[i],
            Kind::Child,
        ) by {
            if i > 1 {
                assert(is_placed_by(os, reg, rest[i - 1 - 1], rest[i - 1], Kind::Child));
            }
        }
    }
}

/// Every group and every file that the main group leads to is registered, by its
/// class, the path of the group that it is in, and what it is called.
pub proof fn law_files_and_groups_are_registered(
    p: Project,
    name: Seq<char>,
    us: Seq<Seq<char>>,
    i: int,
)
    requires
        is_traceable(p, name),
        is_way(p.objects, us),
        text_field(p.objects, p.root_object, "mainGroup"@) == Some(us[0]),
        0 <= i < us.len(),
    ensures
        node_is_placed(p.objects, registry(p, name), p.root_object, us[0]),
        i > 0 ==> node_is_placed(p.objects, registry(p, name), us[i - 1], us[i]),
        is_known(registry(p, name), us[i]),
{
    let live = registered(registry(p, name));
    lemma_traceable(p, name);
    lemma_project_closed(p, name, live, 1, 6);
    crate::map_laws::lemma_way_is_short(p.objects, us);
    lemma_way_closed(p, name, us, p.root_object, p.objects.len() + 1);
    if i > 0 {
        assert(is_placed_by(p.objects, registry(p, name), us[i - 1], us[i], Kind::Child));
    }
}

/// The proxy of a dependency is registered by what it says of the remote object; and
/// the remote object, unless it is a target of the project, by the paths of the proxy
/// and of the container.
pub proof fn law_proxies_are_registered(
    p: Project,
    name: Seq<char>,
    t: Seq<char>,
    d: Seq<char>,
    x: Seq<char>,
)
    requires
        is_traceable(p, name),
        list_field(p.objects, p.root_object, "targets"@).contains(t),
        is_object(p.objects, t),
        list_field(p.objects, t, "dependencies"@).contains(d),
        is_object(p.objects, d),
        text_field(p.objects, d, "targetProxy"@) == Some(x),
        is_object(p.objects, x),
    ensures
        ({
            let os = p.objects;
            let reg = registry(p, name);
            &&& is_below(
                reg,
                d,
                x,
                "PBXContainerItemProxy"@,
                "PBXContainerItemProxy/"@ + text_in(os, x, "remoteInfo"@),
            )
            &&& match (
                text_field(os, x, "remoteGlobalIDString"@),
                text_field(os, x, "containerPortal"@),
            ) {
                (Some(g), Some(portal)) => !list_field(os, p.root_object, "targets"@).contains(g)
                    ==> {
                    &&& path_of(reg, x) is Some
                    &&& path_of(reg, portal) is Some
                    &&& lookup(reg.rows, g) is Some
                    &&& lookup(reg.rows, g)->Some_0.1 == md5_hex(
                        path_of(reg, x)->Some_0 + "+"@ + path_of(reg, portal)->Some_0,
                    )
                },
                _ => true,
            }
        }),
{
    let os = p.objects;
    let reg = registry(p, name);
    let c = reach_of(p, name, registered(reg));
    lemma_traceable(p, name);
    lemma_target_closed(p, name, t);
    assert(crate::closure_laws::closed_dependency(c, reg, t, d));
    assert(is_placed_by(os, reg, d, x, Kind::Proxy));
    if let (Some(g), Some(portal)) = (
        text_field(os, x, "remoteGlobalIDString"@),
        text_field(os, x, "containerPortal"@),
    ) {
        if !list_field(os, p.root_object, "targets"@).contains(g) {
            assert(owns(os, p.root_object, x, g, Kind::Remote));
            assert(is_placed_by(os, reg, x, g, Kind::Remote));
        }
    }
}

/// The configurations of the project and its packages are registered, by their
/// names and their addresses.
pub proof fn law_parts_of_project_are_registered(p: Project, name: Seq<char>)
    requires
        is_traceable(p, name),
    ensures
        lookup(registry(p, name).rows, p.root_object) == Some((name, md5_hex(name))),
        configurations_are_placed(p.objects, registry(p, name), p.root_object),
        forall|u: Seq<char>| #[trigger]
            list_field(p.objects, p.root_object, "packageReferences"@).contains(u) && is_object(
                p.objects,
                u,
            ) ==> match text_field(p.objects, u, "repositoryURL"@) {
                Some(url) => is_below(
                    registry(p, name),
                    p.root_object,
                    u,
                    "XCRemoteSwiftPackageReference"@,
                    url,
                ),
                None => true,
            },
{
    let live = registered(registry(p, name));
    lemma_traceable(p, name);
    lemma_project_closed(p, name, live, 2, 6);
    lemma_project_closed(p, name, live, 4, 6);
}

} // verus!
