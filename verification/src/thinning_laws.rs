//! A text with its new UUIDs describes the project with its new UUIDs, without
//! what was dropped.

use crate::line_reading::is_uuid_text;
use crate::link_laws::targets_of;
use crate::naming_laws::is_known;
use crate::parser::{field, Project};
use crate::pattern::is_hex;
use crate::project_facts::{
    field_path, has_reference, nested_path, object_path, path_of_fact, shows, shows_reference,
    top_path,
};
use crate::reading::{counts, is_worth, Fact, Step};
use crate::renamed_facts::{renamed_fact, renamed_path, renamed_step};
use crate::renaming_laws::{describes, lists_objects, refers};
use crate::table::lookup;
use crate::uniquifier::{
    is_new_uuid, is_object, is_upper_hex, list_field, referenced, text_field, Objects, Registry,
};
use vstd::prelude::*;

verus! {

// ── What stays ───────────────────────────────────────────────────────────────

/// A text that is no UUID, or that of an object which is registered and not to be
/// dropped.
pub open spec fn stays(reg: Registry, t: Seq<char>) -> bool {
    !is_uuid_text(t) || (is_known(reg, t) && !reg.remove.contains(t))
}

/// The text with the new UUID, if it is the UUID of a registered object.
pub open spec fn new_name(reg: Registry, t: Seq<char>) -> Seq<char> {
    if is_uuid_text(t) && is_known(reg, t) {
        lookup(reg.rows, t)->Some_0.1
    } else {
        t
    }
}

pub open spec fn naming(reg: Registry) -> spec_fn(Seq<char>) -> Seq<char> {
    |t: Seq<char>| new_name(reg, t)
}

pub open spec fn step_stays(reg: Registry, x: Step) -> bool {
    match x {
        Step::Key(k) => stays(reg, k),
        Step::Nth(_) => true,
    }
}

pub open spec fn path_stays(reg: Registry, path: Seq<Step>) -> bool {
    forall|i: int| 0 <= i < path.len() ==> step_stays(reg, #[trigger] path[i])
}

/// The fact names nothing that is dropped.
pub open spec fn fact_stays(reg: Registry, f: Fact) -> bool {
    &&& path_stays(reg, path_of_fact(f))
    &&& match f {
        Fact::Text(_, t) => stays(reg, t),
        Fact::Item(_, t) => stays(reg, t),
        _ => true,
    }
}

/// Registered objects have UUIDs, and get UUIDs.
pub open spec fn names_are_formed(reg: Registry) -> bool {
    forall|u: Seq<char>| #[trigger]
        is_known(reg, u) ==> is_uuid_text(u) && is_new_uuid(lookup(reg.rows, u)->Some_0.1)
}

/// Objects that get one UUID.
pub open spec fn are_twins(reg: Registry, a: Seq<char>, b: Seq<char>) -> bool {
    stays(reg, a) && stays(reg, b) && new_name(reg, a) == new_name(reg, b)
}

proof fn lemma_new_is_uuid(v: Seq<char>)
    requires
        is_new_uuid(v),
    ensures
        is_uuid_text(v),
{
    assert forall|i: int| 0 <= i < 32 implies is_hex(#[trigger] v[i]) by {
        assert(is_upper_hex(v[i]));
    }
}

/// What is no UUID is the only one with its name.
proof fn lemma_plain_name(reg: Registry, a: Seq<char>, b: Seq<char>)
    requires
        names_are_formed(reg),
        are_twins(reg, a, b),
        !is_uuid_text(b),
    ensures
        a == b,
{
    if is_uuid_text(a) {
        lemma_new_is_uuid(lookup(reg.rows, a)->Some_0.1);
    }
}

/// A twin of a registered object is registered.
pub proof fn lemma_twin_is_known(reg: Registry, a: Seq<char>, b: Seq<char>)
    requires
        names_are_formed(reg),
        are_twins(reg, a, b),
        is_known(reg, b),
    ensures
        is_known(reg, a),
{
    lemma_new_is_uuid(lookup(reg.rows, b)->Some_0.1);
}

// ── Names of fields ──────────────────────────────────────────────────────────

/// The names of fields are no UUIDs.
#[verifier::rlimit(60)]
#[verifier::spinoff_prover]
pub proof fn lemma_plain_names(n: Seq<char>)
    ensures
        describes(n) || refers(n) || lists_objects(n) ==> !is_uuid_text(n),
        !is_uuid_text("objects"@),
        !is_uuid_text("rootObject"@),
        !is_uuid_text("projectReferences"@),
        !is_uuid_text("ProductGroup"@),
        !is_uuid_text("ProjectRef"@),
        !is_uuid_text("fileRef"@),
        !is_uuid_text("productRef"@),
{
    reveal_strlit("isa");
    reveal_strlit("name");
    reveal_strlit("path");
    reveal_strlit("productName");
    reveal_strlit("defaultConfigurationName");
    reveal_strlit("remoteInfo");
    reveal_strlit("shellScript");
    reveal_strlit("dstSubfolderSpec");
    reveal_strlit("dstPath");
    reveal_strlit("fileType");
    reveal_strlit("filePatterns");
    reveal_strlit("repositoryURL");
    reveal_strlit("mainGroup");
    reveal_strlit("buildConfigurationList");
    reveal_strlit("remoteRef");
    reveal_strlit("target");
    reveal_strlit("targetProxy");
    reveal_strlit("remoteGlobalIDString");
    reveal_strlit("containerPortal");
    reveal_strlit("package");
    reveal_strlit("children");
    reveal_strlit("buildConfigurations");
    reveal_strlit("files");
    reveal_strlit("dependencies");
    reveal_strlit("buildPhases");
    reveal_strlit("buildRules");
    reveal_strlit("packageProductDependencies");
    reveal_strlit("packageReferences");
    reveal_strlit("targets");
    reveal_strlit("objects");
    reveal_strlit("rootObject");
    reveal_strlit("projectReferences");
    reveal_strlit("ProductGroup");
    reveal_strlit("ProjectRef");
    reveal_strlit("fileRef");
    reveal_strlit("productRef");
    assert("isa"@.len() == 3);
    assert("name"@.len() == 4);
    assert("path"@.len() == 4);
    assert("productName"@.len() == 11);
    assert("defaultConfigurationName"@[4] == 'u');
    assert(!is_hex('u'));
    assert("remoteInfo"@.len() == 10);
    assert("shellScript"@.len() == 11);
    assert("dstSubfolderSpec"@.len() == 16);
    assert("dstPath"@.len() == 7);
    assert("fileType"@.len() == 8);
    assert("filePatterns"@.len() == 12);
    assert("repositoryURL"@.len() == 13);
    assert("mainGroup"@.len() == 9);
    assert("buildConfigurationList"@.len() == 22);
    assert("remoteRef"@.len() == 9);
    assert("target"@.len() == 6);
    assert("targetProxy"@.len() == 11);
    assert("remoteGlobalIDString"@.len() == 20);
    assert("containerPortal"@.len() == 15);
    assert("package"@.len() == 7);
    assert("children"@.len() == 8);
    assert("buildConfigurations"@.len() == 19);
    assert("files"@.len() == 5);
    assert("dependencies"@.len() == 12);
    assert("buildPhases"@.len() == 11);
    assert("buildRules"@.len() == 10);
    assert("packageProductDependencies"@.len() == 26);
    assert("packageReferences"@.len() == 17);
    assert("targets"@.len() == 7);
    assert("objects"@.len() == 7);
    assert("rootObject"@.len() == 10);
    assert("projectReferences"@.len() == 17);
    assert("ProductGroup"@.len() == 12);
    assert("ProjectRef"@.len() == 10);
    assert("fileRef"@.len() == 7);
    assert("productRef"@.len() == 10);
}

// ── The project that is left ─────────────────────────────────────────────────

/// A fact about a project and its objects, or about a field of theirs that counts.
pub open spec fn matters(e: Fact) -> bool {
    !(e is Key) && is_worth(path_of_fact(e))
}

/// The facts `after` are those of `before` that stay, with the new UUIDs, as far
/// as they matter.
pub open spec fn is_left(reg: Registry, before: Seq<Fact>, after: Seq<Fact>) -> bool {
    &&& forall|f: Fact| #[trigger]
        after.contains(f) ==> exists|e: Fact|
            before.contains(e) && fact_stays(reg, e) && f == #[trigger] renamed_fact(
                naming(reg),
                e,
            )
    &&& forall|e: Fact|
        before.contains(e) && fact_stays(reg, e) && matters(e) ==> after.contains(
            #[trigger] renamed_fact(naming(reg), e),
        )
}

/// A field that refers, as far as what it refers to stays.
pub open spec fn left_of(reg: Registry, t: Option<Seq<char>>) -> Option<Seq<char>> {
    match t {
        Some(x) => if stays(reg, x) {
            Some(new_name(reg, x))
        } else {
            None
        },
        None => None,
    }
}

/// The project `q` is what is left of the project `p`.
pub open spec fn is_thinned(reg: Registry, p: Project, q: Project) -> bool {
    &&& q.root_object == new_name(reg, p.root_object)
    &&& forall|x: Seq<char>|
        stays(reg, x) ==> is_object(q.objects, new_name(reg, x)) == #[trigger] is_object(
            p.objects,
            x,
        )
    &&& forall|y: Seq<char>| #[trigger]
        is_object(q.objects, y) ==> exists|x: Seq<char>|
            stays(reg, x) && is_object(p.objects, x) && y == #[trigger] new_name(reg, x)
    &&& forall|x: Seq<char>, n: Seq<char>|
        stays(reg, x) && (describes(n) || refers(n)) ==> text_field(
            q.objects,
            new_name(reg, x),
            n,
        ) == left_of(reg, #[trigger] text_field(p.objects, x, n))
    &&& forall|x: Seq<char>, n: Seq<char>, t: Seq<char>|
        stays(reg, x) && stays(reg, t) && lists_objects(n) && #[trigger] list_field(
            p.objects,
            x,
            n,
        ).contains(t) ==> list_field(q.objects, new_name(reg, x), n).contains(new_name(reg, t))
    &&& forall|x: Seq<char>, n: Seq<char>, y: Seq<char>|
        stays(reg, x) && lists_objects(n) && #[trigger] list_field(
            q.objects,
            new_name(reg, x),
            n,
        ).contains(y) ==> exists|t: Seq<char>|
            stays(reg, t) && list_field(p.objects, x, n).contains(t) && y == #[trigger] new_name(
                reg,
                t,
            )
    &&& forall|x: Seq<char>|
        stays(reg, x) && (field(p.objects, x, "fileRef"@) is Some ==> text_field(
            p.objects,
            x,
            "fileRef"@,
        ) is Some) && (match referenced(p.objects, x) {
            Some(r) => stays(reg, r),
            None => true,
        }) ==> referenced(q.objects, new_name(reg, x)) == left_of(
            reg,
            #[trigger] referenced(p.objects, x),
        )
    &&& forall|x: Seq<char>, w: Seq<char>|
        stays(reg, x) && stays(reg, w) && #[trigger] has_reference(
            p.objects,
            p.root_object,
            x,
            w,
        ) ==> has_reference(q.objects, q.root_object, new_name(reg, x), new_name(reg, w))
    &&& forall|y: Seq<char>, z: Seq<char>|
        #[trigger] has_reference(q.objects, q.root_object, y, z) ==> exists|
            x: Seq<char>,
            w: Seq<char>,
        |
            stays(reg, x) && stays(reg, w) && has_reference(p.objects, p.root_object, x, w) && y
                == #[trigger] new_name(reg, x) && z == #[trigger] new_name(reg, w)
}

/// A list holds an object that gets the UUID of `t`.
#[verifier::opaque]
pub open spec fn lists_twin(
    reg: Registry,
    os: Objects,
    u: Seq<char>,
    n: Seq<char>,
    t: Seq<char>,
) -> bool {
    exists|v: Seq<char>| #[trigger] are_twins(reg, v, t) && list_field(os, u, n).contains(v)
}

/// Objects that get one UUID are alike in what counts.
pub open spec fn twins_are_alike(reg: Registry, p: Project) -> bool {
    let os = p.objects;
    &&& forall|a: Seq<char>, b: Seq<char>| #[trigger]
        are_twins(reg, a, b) ==> is_object(os, a) == is_object(os, b)
    &&& forall|a: Seq<char>, b: Seq<char>, n: Seq<char>| #[trigger]
        are_twins(reg, a, b) && counts(n) ==> left_of(reg, #[trigger] text_field(os, a, n))
            == left_of(reg, text_field(os, b, n))
    &&& forall|a: Seq<char>, b: Seq<char>| #[trigger]
        are_twins(reg, a, b) ==> field(os, a, "fileRef"@) is Some == field(
            os,
            b,
            "fileRef"@,
        ) is Some
    &&& forall|a: Seq<char>, b: Seq<char>, n: Seq<char>, t: Seq<char>| #[trigger]
        are_twins(reg, a, b) && lists_objects(n) && stays(reg, t) && #[trigger] list_field(
            os,
            a,
            n,
        ).contains(t) ==> lists_twin(reg, os, b, n, t)
    &&& forall|a: Seq<char>| #[trigger]
        are_twins(reg, a, p.root_object) ==> a == p.root_object
    &&& forall|a: Seq<char>, b: Seq<char>| #[trigger]
        are_twins(reg, a, b) && targets_of(os, p.root_object).contains(a) ==> targets_of(
            os,
            p.root_object,
        ).contains(b)
}

proof fn lemma_renamed_field_path(reg: Registry, x: Seq<char>, n: Seq<char>)
    requires
        stays(reg, x),
        !is_uuid_text(n),
    ensures
        path_stays(reg, object_path(x)),
        path_stays(reg, field_path(x, n)),
        renamed_path(naming(reg), object_path(x)) == object_path(new_name(reg, x)),
        renamed_path(naming(reg), field_path(x, n)) == field_path(new_name(reg, x), n),
{
    lemma_plain_names(n);
    let g = naming(reg);
    assert(new_name(reg, "objects"@) == "objects"@);
    assert(renamed_path(g, object_path(x)) =~= object_path(new_name(reg, x)));
    assert(renamed_path(g, field_path(x, n)) =~= field_path(new_name(reg, x), n));
}

proof fn lemma_renamed_nested(
    reg: Registry,
    x: Seq<char>,
    n: Seq<char>,
    k: nat,
    inner: Seq<char>,
)
    requires
        stays(reg, x),
        !is_uuid_text(n),
        !is_uuid_text(inner),
    ensures
        path_stays(reg, nested_path(x, n, k, inner)),
        renamed_path(naming(reg), nested_path(x, n, k, inner)) == nested_path(
            new_name(reg, x),
            n,
            k,
            inner,
        ),
{
    lemma_renamed_field_path(reg, x, n);
    let g = naming(reg);
    let a = nested_path(x, n, k, inner);
    let b = field_path(x, n);
    assert forall|i: int| 0 <= i < a.len() implies step_stays(reg, #[trigger] a[i]) by {
        if i < b.len() {
            assert(a[i] == b[i]);
        }
    }
    assert forall|i: int| 0 <= i < a.len() implies renamed_path(g, a)[i] == nested_path(
        new_name(reg, x),
        n,
        k,
        inner,
    )[i] by {
        if i < b.len() {
            assert(renamed_path(g, b)[i] == field_path(new_name(reg, x), n)[i]);
        }
    }
    assert(renamed_path(g, a) =~= nested_path(new_name(reg, x), n, k, inner));
}

/// A fact comes from one of the object, or of a twin of it.
proof fn lemma_from(
    reg: Registry,
    before: Seq<Fact>,
    after: Seq<Fact>,
    x: Seq<char>,
    path: Seq<Step>,
    f: Fact,
) -> (r: (Seq<char>, Fact))
    requires
        names_are_formed(reg),
        is_left(reg, before, after),
        path_stays(reg, path),
        path.len() >= 2,
        path[0] == Step::Key("objects"@),
        path[1] == Step::Key(x),
        forall|i: int|
            2 <= i < path.len() ==> match #[trigger] path[i] {
                Step::Key(k) => !is_uuid_text(k),
                Step::Nth(_) => true,
            },
        after.contains(f),
        path_of_fact(f) == renamed_path(naming(reg), path),
    ensures
        before.contains(r.1),
        fact_stays(reg, r.1),
        f == renamed_fact(naming(reg), r.1),
        are_twins(reg, r.0, x),
        path_of_fact(r.1) == path.update(1, Step::Key(r.0)),
{
    let g = naming(reg);
    let e = choose|e: Fact|
        before.contains(e) && fact_stays(reg, e) && f == #[trigger] renamed_fact(g, e);
    let a = path_of_fact(e);
    assert(renamed_path(g, a) == renamed_path(g, path));
    assert(renamed_path(g, a).len() == a.len());
    assert(renamed_path(g, path).len() == path.len());
    lemma_plain_names("objects"@);
    assert forall|i: int| 0 <= i < path.len() implies renamed_step(g, #[trigger] a[i])
        == renamed_step(g, path[i]) && step_stays(reg, a[i]) && step_stays(reg, path[i]) by {
        assert(renamed_path(g, a)[i] == renamed_step(g, a[i]));
        assert(renamed_path(g, path)[i] == renamed_step(g, path[i]));
        assert(step_stays(reg, path[i]));
    }
    assert(step_stays(reg, a[1]) && step_stays(reg, a[0]));
    let v = a[1]->Key_0;
    assert(are_twins(reg, v, x));
    assert forall|i: int| 0 <= i < path.len() implies a[i] == path.update(1, Step::Key(v))[i] by {
        assert(step_stays(reg, a[i]));
        if i != 1 {
            match path[i] {
                Step::Key(k) => {
                    let b = a[i]->Key_0;
                    assert(are_twins(reg, b, k));
                    lemma_plain_name(reg, b, k);
                },
                Step::Nth(_) => {},
            }
        }
    }
    assert(a =~= path.update(1, Step::Key(v)));
    (v, e)
}

/// A fact of a field comes from one of the field, of the object or of a twin.
proof fn lemma_from_field(
    reg: Registry,
    before: Seq<Fact>,
    after: Seq<Fact>,
    x: Seq<char>,
    n: Seq<char>,
    f: Fact,
) -> (r: (Seq<char>, Fact))
    requires
        names_are_formed(reg),
        is_left(reg, before, after),
        stays(reg, x),
        !is_uuid_text(n),
        after.contains(f),
        path_of_fact(f) == field_path(new_name(reg, x), n),
    ensures
        before.contains(r.1),
        fact_stays(reg, r.1),
        f == renamed_fact(naming(reg), r.1),
        are_twins(reg, r.0, x),
        path_of_fact(r.1) == field_path(r.0, n),
{
    lemma_renamed_field_path(reg, x, n);
    let r = lemma_from(reg, before, after, x, field_path(x, n), f);
    assert(field_path(x, n).update(1, Step::Key(r.0)) =~= field_path(r.0, n));
    r
}

proof fn lemma_text_left(
    reg: Registry,
    before: Seq<Fact>,
    after: Seq<Fact>,
    p: Project,
    q: Project,
    x: Seq<char>,
    n: Seq<char>,
)
    requires
        names_are_formed(reg),
        twins_are_alike(reg, p),
        is_left(reg, before, after),
        shows(before, p),
        shows(after, q),
        stays(reg, x),
        counts(n),
    ensures
        text_field(q.objects, new_name(reg, x), n) == left_of(reg, text_field(p.objects, x, n)),
{
    let g = naming(reg);
    let y = new_name(reg, x);
    lemma_plain_names(n);
    lemma_renamed_field_path(reg, x, n);
    let path = field_path(x, n);
    let a = text_field(p.objects, x, n);
    let b = text_field(q.objects, y, n);
    if b is Some {
        let f = Fact::Text(field_path(y, n), b->Some_0);
        assert(after.contains(f));
        let (v, e) = lemma_from_field(reg, before, after, x, n, f);
        let t = e->Text_1;
        assert(e == Fact::Text(field_path(v, n), t));
        assert(text_field(p.objects, v, n) == Some(t));
        assert(left_of(reg, text_field(p.objects, v, n)) == left_of(reg, a));
    }
    if a is Some && stays(reg, a->Some_0) {
        let e = Fact::Text(path, a->Some_0);
        assert(before.contains(e));
        assert(matters(e));
        assert(fact_stays(reg, e));
        assert(after.contains(renamed_fact(g, e)));
        assert(after.contains(Fact::Text(field_path(y, n), new_name(reg, a->Some_0))));
    }
}

proof fn lemma_list_left(
    reg: Registry,
    before: Seq<Fact>,
    after: Seq<Fact>,
    p: Project,
    q: Project,
    x: Seq<char>,
    n: Seq<char>,
)
    requires
        names_are_formed(reg),
        twins_are_alike(reg, p),
        is_left(reg, before, after),
        shows(before, p),
        shows(after, q),
        stays(reg, x),
        lists_objects(n),
    ensures
        forall|t: Seq<char>|
            stays(reg, t) && #[trigger] list_field(p.objects, x, n).contains(t) ==> list_field(
                q.objects,
                new_name(reg, x),
                n,
            ).contains(new_name(reg, t)),
        forall|y: Seq<char>| #[trigger]
            list_field(q.objects, new_name(reg, x), n).contains(y) ==> exists|t: Seq<char>|
                stays(reg, t) && list_field(p.objects, x, n).contains(t) && y
                    == #[trigger] new_name(reg, t),
{
    let g = naming(reg);
    let z = new_name(reg, x);
    lemma_plain_names(n);
    lemma_renamed_field_path(reg, x, n);
    let path = field_path(x, n);
    assert forall|t: Seq<char>| stays(reg, t) && #[trigger] list_field(p.objects, x, n).contains(
        t,
    ) implies list_field(q.objects, z, n).contains(new_name(reg, t)) by {
        let e = Fact::Item(path, t);
        assert(before.contains(e));
        assert(matters(e));
        assert(fact_stays(reg, e));
        assert(after.contains(renamed_fact(g, e)));
        assert(renamed_fact(g, e) == Fact::Item(field_path(z, n), new_name(reg, t)));
        assert(after.contains(Fact::Item(field_path(z, n), new_name(reg, t))));
    }
    assert forall|y: Seq<char>| #[trigger] list_field(q.objects, z, n).contains(y) implies exists|
        t: Seq<char>,
    |
        stays(reg, t) && list_field(p.objects, x, n).contains(t) && y == #[trigger] new_name(
            reg,
            t,
        ) by {
        let f = Fact::Item(field_path(z, n), y);
        assert(after.contains(f));
        let (v, e) = lemma_from_field(reg, before, after, x, n, f);
        let t = e->Item_1;
        assert(e == Fact::Item(field_path(v, n), t));
        assert(list_field(p.objects, v, n).contains(t));
        assert(lists_twin(reg, p.objects, x, n, t));
        reveal(lists_twin);
        let w = choose|w: Seq<char>| #[trigger]
            are_twins(reg, w, t) && list_field(p.objects, x, n).contains(w);
        assert(y == new_name(reg, w));
    }
}

proof fn lemma_field_left(
    reg: Registry,
    before: Seq<Fact>,
    after: Seq<Fact>,
    p: Project,
    q: Project,
    x: Seq<char>,
)
    requires
        names_are_formed(reg),
        twins_are_alike(reg, p),
        is_left(reg, before, after),
        shows(before, p),
        shows(after, q),
        stays(reg, x),
    ensures
        field(q.objects, new_name(reg, x), "fileRef"@) is Some ==> field(
            p.objects,
            x,
            "fileRef"@,
        ) is Some,
{
    let n = "fileRef"@;
    let y = new_name(reg, x);
    lemma_plain_names(n);
    if field(q.objects, y, n) is Some {
        let f = Fact::Key(field_path(y, n));
        assert(after.contains(f));
        let (v, e) = lemma_from_field(reg, before, after, x, n, f);
        assert(e == Fact::Key(field_path(v, n)));
        assert(field(p.objects, v, n) is Some);
        assert(are_twins(reg, v, x));
    }
}

#[verifier::rlimit(40)]
#[verifier::spinoff_prover]
proof fn lemma_references_left(
    reg: Registry,
    before: Seq<Fact>,
    after: Seq<Fact>,
    p: Project,
    q: Project,
)
    requires
        names_are_formed(reg),
        twins_are_alike(reg, p),
        is_left(reg, before, after),
        shows(before, p),
        shows(after, q),
        stays(reg, p.root_object),
        q.root_object == new_name(reg, p.root_object),
    ensures
        forall|x: Seq<char>, w: Seq<char>|
            stays(reg, x) && stays(reg, w) && #[trigger] has_reference(
                p.objects,
                p.root_object,
                x,
                w,
            ) ==> has_reference(q.objects, q.root_object, new_name(reg, x), new_name(reg, w)),
        forall|y: Seq<char>, z: Seq<char>| #[trigger]
            has_reference(q.objects, q.root_object, y, z) ==> exists|x: Seq<char>, w: Seq<char>|
                stays(reg, x) && stays(reg, w) && has_reference(p.objects, p.root_object, x, w)
                    && y == #[trigger] new_name(reg, x) && z == #[trigger] new_name(reg, w),
{
    let g = naming(reg);
    let u = p.root_object;
    let v = q.root_object;
    let name = "projectReferences"@;
    let pg = "ProductGroup"@;
    let pr = "ProjectRef"@;
    lemma_plain_names(name);
    assert forall|y: Seq<char>, z: Seq<char>| #[trigger]
        has_reference(q.objects, v, y, z) implies exists|x: Seq<char>, w: Seq<char>|
        stays(reg, x) && stays(reg, w) && has_reference(p.objects, u, x, w) && y
            == #[trigger] new_name(reg, x) && z == #[trigger] new_name(reg, w) by {
        assert(shows_reference(after, v, y, z));
        let n = choose|n: nat|
            {
                &&& #[trigger] after.contains(Fact::Text(nested_path(v, name, n, pg), y))
                &&& after.contains(Fact::Text(nested_path(v, name, n, pr), z))
            };
        lemma_renamed_nested(reg, u, name, n, pg);
        lemma_renamed_nested(reg, u, name, n, pr);
        let (u1, e1) = lemma_from(
            reg,
            before,
            after,
            u,
            nested_path(u, name, n, pg),
            Fact::Text(nested_path(v, name, n, pg), y),
        );
        let (u2, e2) = lemma_from(
            reg,
            before,
            after,
            u,
            nested_path(u, name, n, pr),
            Fact::Text(nested_path(v, name, n, pr), z),
        );
        assert(u1 == u && u2 == u);
        assert(path_of_fact(e1) =~= nested_path(u, name, n, pg));
        assert(path_of_fact(e2) =~= nested_path(u, name, n, pr));
        let x = e1->Text_1;
        let w = e2->Text_1;
        assert(before.contains(Fact::Text(nested_path(u, name, n, pg), x)));
        assert(before.contains(Fact::Text(nested_path(u, name, n, pr), w)));
        assert(shows_reference(before, u, x, w));
        assert(has_reference(p.objects, u, x, w));
        assert(y == new_name(reg, x) && z == new_name(reg, w));
    }
    assert forall|x: Seq<char>, w: Seq<char>|
        stays(reg, x) && stays(reg, w) && #[trigger] has_reference(
            p.objects,
            u,
            x,
            w,
        ) implies has_reference(q.objects, v, new_name(reg, x), new_name(reg, w)) by {
        let y = new_name(reg, x);
        let z = new_name(reg, w);
        assert(shows_reference(before, u, x, w));
        let n = choose|n: nat|
            {
                &&& #[trigger] before.contains(Fact::Text(nested_path(u, name, n, pg), x))
                &&& before.contains(Fact::Text(nested_path(u, name, n, pr), w))
            };
        lemma_renamed_nested(reg, u, name, n, pg);
        lemma_renamed_nested(reg, u, name, n, pr);
        let e1 = Fact::Text(nested_path(u, name, n, pg), x);
        let e2 = Fact::Text(nested_path(u, name, n, pr), w);
        assert(nested_path(u, name, n, pg)[2] == Step::Key(name));
        assert(nested_path(u, name, n, pr)[2] == Step::Key(name));
        assert(matters(e1) && matters(e2));
        assert(fact_stays(reg, e1) && fact_stays(reg, e2));
        assert(after.contains(renamed_fact(g, e1)));
        assert(after.contains(renamed_fact(g, e2)));
        assert(after.contains(Fact::Text(nested_path(v, name, n, pg), y)));
        assert(after.contains(Fact::Text(nested_path(v, name, n, pr), z)));
        assert(shows_reference(after, v, y, z));
    }
}

/// What is left of the facts of a project are the facts of what is left of it.
#[verifier::rlimit(60)]
#[verifier::spinoff_prover]
pub proof fn law_left_facts_show_left_project(
    reg: Registry,
    before: Seq<Fact>,
    after: Seq<Fact>,
    p: Project,
    q: Project,
)
    requires
        names_are_formed(reg),
        twins_are_alike(reg, p),
        is_left(reg, before, after),
        shows(before, p),
        shows(after, q),
        stays(reg, p.root_object),
    ensures
        is_thinned(reg, p, q),
{
    let g = naming(reg);
    lemma_plain_names("objects"@);
    let root = top_path("rootObject"@);
    assert(renamed_path(g, root) =~= root);
    let e = Fact::Text(root, p.root_object);
    assert(before.contains(e));
    assert(fact_stays(reg, e));
    assert(matters(e));
    assert(after.contains(renamed_fact(g, e)));
    assert(after.contains(Fact::Text(root, new_name(reg, p.root_object))));
    assert forall|x: Seq<char>| stays(reg, x) implies is_object(q.objects, new_name(reg, x))
        == #[trigger] is_object(p.objects, x) by {
        lemma_renamed_field_path(reg, x, "objects"@);
        let d = Fact::Dict(object_path(x));
        let y = new_name(reg, x);
        let f = Fact::Dict(object_path(y));
        assert(fact_stays(reg, d));
        assert(before.contains(d) == is_object(p.objects, x));
        assert(after.contains(f) == is_object(q.objects, y));
        assert(renamed_fact(g, d) == f);
        if is_object(p.objects, x) {
            assert(matters(d));
            assert(after.contains(renamed_fact(g, d)));
        }
        if is_object(q.objects, y) {
            let (v, e) = lemma_from(reg, before, after, x, object_path(x), f);
            assert(path_of_fact(e) =~= object_path(v));
            assert(e == Fact::Dict(object_path(v)));
            assert(is_object(p.objects, v));
            assert(are_twins(reg, v, x));
        }
    }
    assert forall|y: Seq<char>| #[trigger] is_object(q.objects, y) implies exists|x: Seq<char>|
        stays(reg, x) && is_object(p.objects, x) && y == #[trigger] new_name(reg, x) by {
        let f = Fact::Dict(object_path(y));
        assert(after.contains(f));
        let d = choose|d: Fact|
            before.contains(d) && fact_stays(reg, d) && f == #[trigger] renamed_fact(g, d);
        let path = path_of_fact(d);
        assert(renamed_path(g, path) == object_path(y));
        assert(path.len() == 2) by {
            assert(renamed_path(g, path).len() == path.len());
        }
        assert(renamed_path(g, path)[0] == renamed_step(g, path[0]));
        assert(renamed_path(g, path)[1] == renamed_step(g, path[1]));
        assert(object_path(y)[0] == Step::Key("objects"@));
        assert(object_path(y)[1] == Step::Key(y));
        assert(step_stays(reg, path[0]) && step_stays(reg, path[1]));
        let a = path[0]->Key_0;
        let x = path[1]->Key_0;
        assert(are_twins(reg, a, "objects"@));
        lemma_plain_name(reg, a, "objects"@);
        assert(path =~= object_path(x));
        assert(is_object(p.objects, x));
        assert(y == new_name(reg, x));
    }
    assert forall|x: Seq<char>, n: Seq<char>| stays(reg, x) && (describes(n) || refers(
        n,
    )) implies text_field(q.objects, new_name(reg, x), n) == left_of(
        reg,
        #[trigger] text_field(p.objects, x, n),
    ) by {
        lemma_text_left(reg, before, after, p, q, x, n);
    }
    assert forall|x: Seq<char>, n: Seq<char>, t: Seq<char>|
        stays(reg, x) && stays(reg, t) && lists_objects(n) && #[trigger] list_field(
            p.objects,
            x,
            n,
        ).contains(t) implies list_field(q.objects, new_name(reg, x), n).contains(
        new_name(reg, t),
    ) by {
        lemma_list_left(reg, before, after, p, q, x, n);
    }
    assert forall|x: Seq<char>, n: Seq<char>, y: Seq<char>|
        stays(reg, x) && lists_objects(n) && #[trigger] list_field(
            q.objects,
            new_name(reg, x),
            n,
        ).contains(y) implies exists|t: Seq<char>|
        stays(reg, t) && list_field(p.objects, x, n).contains(t) && y == #[trigger] new_name(
            reg,
            t,
        ) by {
        lemma_list_left(reg, before, after, p, q, x, n);
    }
    assert forall|x: Seq<char>|
        stays(reg, x) && (field(p.objects, x, "fileRef"@) is Some ==> text_field(
            p.objects,
            x,
            "fileRef"@,
        ) is Some) && (match referenced(p.objects, x) {
            Some(r) => stays(reg, r),
            None => true,
        }) implies referenced(q.objects, new_name(reg, x)) == left_of(
        reg,
        #[trigger] referenced(p.objects, x),
    ) by {
        lemma_field_left(reg, before, after, p, q, x);
        lemma_text_left(reg, before, after, p, q, x, "fileRef"@);
        lemma_text_left(reg, before, after, p, q, x, "productRef"@);
    }
    lemma_references_left(reg, before, after, p, q);
}

} // verus!
