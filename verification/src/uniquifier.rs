//! Deterministic UUIDs.
//!
//! Each object of the project gets a new UUID of 32 upper-case hexadecimal
//! digits, the MD5 digest of its path in the tree of objects.
//!
//! Once the map from old to new UUIDs is built, the text is rewritten with it,
//! and lines that hold unknown UUIDs are dropped.

use crate::error::ElectrolysisError;
use crate::parser::{
    array_of, dict_of, field, str_of, str_view, PbxProject, PbxValue, Plist, Project,
};
use crate::pattern::{compile, find_all, gap, hits, split_around, Found, Hit, UUID};
use crate::plist::{entries, plist, plists};
use crate::sanitizer::{brace_delta, line_braces};
use crate::table::{lemma_slot, lemma_upsert, lookup, upsert, Table};
use crate::text::{
    lemma_total_len_of_lines, lemma_total_len_take, lemma_unlines_push, lines_of, owned, push_line,
    same, split_lines, texts, to_uppercase, total_len, unlines, uppercase,
};
use vstd::hash_set::StringHashSet;
use vstd::prelude::*;

verus! {

// ── Digests ──────────────────────────────────────────────────────────────────

/// The MD5 digest of a text, as a number.
pub uninterp spec fn md5_number(s: Seq<char>) -> u128;

/// The hexadecimal digit for a number.
pub open spec fn upper_digit(n: int) -> char {
    if n < 10 {
        (48 + n) as char
    } else {
        (55 + n) as char
    }
}

/// The last `count` hexadecimal digits of a number.
pub open spec fn upper_digits(n: int, count: nat) -> Seq<char>
    decreases count,
{
    if count == 0 {
        Seq::empty()
    } else {
        upper_digits(n / 16, (count - 1) as nat).push(upper_digit(n % 16))
    }
}

/// The MD5 digest of a text in upper-case hexadecimal digits.
#[verifier::opaque]
pub open spec fn md5_hex(s: Seq<char>) -> Seq<char> {
    upper_digits(md5_number(s) as int, 32)
}

/// An upper-case hexadecimal digit.
pub open spec fn is_upper_hex(c: char) -> bool {
    ('0' <= c <= '9') || ('A' <= c <= 'F')
}

/// A UUID of 32 upper-case hexadecimal digits.
pub open spec fn is_new_uuid(s: Seq<char>) -> bool {
    s.len() == 32 && forall|i: int| 0 <= i < 32 ==> is_upper_hex(#[trigger] s[i])
}

proof fn lemma_upper_digits(n: int, count: nat)
    requires
        0 <= n,
    ensures
        upper_digits(n, count).len() == count,
        forall|i: int| 0 <= i < count ==> is_upper_hex(#[trigger] upper_digits(n, count)[i]),
    decreases count,
{
    if count > 0 {
        lemma_upper_digits(n / 16, (count - 1) as nat);
        let d = n % 16;
        assert(0 <= d < 16);
        assert(is_upper_hex(upper_digit(d)));
    }
}

/// Every digest has the form of a UUID.
pub proof fn law_digests_are_uuids(s: Seq<char>)
    ensures
        is_new_uuid(md5_hex(s)),
{
    reveal(md5_hex);
    lemma_upper_digits(md5_number(s) as int, 32);
}

/// `md5::compute` on the bytes of a text, in the digest's `{:X}` format: the 32
/// upper-case hexadecimal digits of the digest, two for each of its 16 bytes.
#[verifier::external_body]
fn md5_digits(s: &str) -> (r: String)
    ensures
        r@ == upper_digits(md5_number(s@) as int, 32),
{
    format!("{:X}", md5::compute(s.as_bytes()))
}

/// The UUID for a path.
pub fn md5_uuid(path: &str) -> (r: String)
    ensures
        r@ == md5_hex(path@),
        is_new_uuid(r@),
{
    proof {
        reveal(md5_hex);
        law_digests_are_uuids(path@);
    }
    md5_digits(path)
}

// ── The model ────────────────────────────────────────────────────────────────

/// What is known of an object: its typed path and its new UUID.
#[derive(Debug)]
pub struct Registered {
    pub path: String,
    pub uuid: String,
}

impl View for Registered {
    type V = (Seq<char>, Seq<char>);

    open spec fn view(&self) -> Self::V {
        (self.path@, self.uuid@)
    }
}

/// The objects of a project, by their UUIDs.
pub type Objects = Seq<(Seq<char>, Plist)>;

/// The objects registered so far, by their old UUIDs: path and new UUID.
pub type Rows = Seq<(Seq<char>, (Seq<char>, Seq<char>))>;

/// What has been found on the way through the tree.
pub ghost struct Registry {
    pub rows: Rows,
    /// UUIDs whose lines are to be dropped.
    pub remove: Seq<Seq<char>>,
    pub warnings: Seq<Seq<char>>,
    /// UUIDs that stand in a path for want of a name.
    pub exposed: Seq<Seq<char>>,
}

/// A string field of an object.
pub open spec fn text_field(os: Objects, u: Seq<char>, name: Seq<char>) -> Option<Seq<char>> {
    str_of(field(os, u, name))
}

/// The strings of an array field, none if there is no such field.
pub open spec fn list_field(os: Objects, u: Seq<char>, name: Seq<char>) -> Seq<Seq<char>> {
    match array_of(field(os, u, name)) {
        Some(v) => v,
        None => Seq::empty(),
    }
}

pub open spec fn is_object(os: Objects, u: Seq<char>) -> bool {
    dict_of(lookup(os, u)) is Some
}

pub open spec fn or_text(a: Option<Seq<char>>, b: Seq<char>) -> Seq<char> {
    match a {
        Some(x) => x,
        None => b,
    }
}

pub open spec fn or_else(a: Option<Seq<char>>, b: Option<Seq<char>>) -> Option<Seq<char>> {
    match a {
        Some(x) => a,
        None => b,
    }
}

/// The path of a registered object.
pub open spec fn path_of(reg: Registry, u: Seq<char>) -> Option<Seq<char>> {
    match lookup(reg.rows, u) {
        Some(row) => Some(row.0),
        None => None,
    }
}

/// The typed path of an object under a parent.
pub open spec fn typed_path(
    reg: Registry,
    parent: Seq<char>,
    component: Seq<char>,
    isa: Seq<char>,
) -> Seq<char> {
    isa + "["@ + or_text(path_of(reg, parent), Seq::empty()) + "/"@ + component + "]"@
}

/// Registers an object under its parent.
pub open spec fn register(
    reg: Registry,
    parent: Seq<char>,
    u: Seq<char>,
    component: Seq<char>,
    isa: Seq<char>,
) -> Registry {
    let path = typed_path(reg, parent, component, isa);
    Registry { rows: upsert(reg.rows, u, (path, md5_hex(path))), ..reg }
}

/// Marks a UUID whose lines are to be dropped.
pub open spec fn drop_uuid(reg: Registry, u: Seq<char>) -> Registry {
    Registry { remove: reg.remove.push(u), ..reg }
}

/// Notes a UUID that stands in a path, unless there is a name for it.
pub open spec fn expose(reg: Registry, named: bool, u: Seq<char>) -> Registry {
    if named {
        reg
    } else {
        Registry { exposed: reg.exposed.push(u), ..reg }
    }
}

pub open spec fn warn(reg: Registry, message: Seq<char>) -> Registry {
    Registry { warnings: reg.warnings.push(message), ..reg }
}

/// Visits some objects in their order.
pub open spec fn visit_all(
    reg: Registry,
    us: Seq<Seq<char>>,
    visit: spec_fn(Registry, Seq<char>) -> Registry,
) -> Registry
    decreases us.len(),
{
    if us.len() == 0 {
        reg
    } else {
        visit(visit_all(reg, us.drop_last(), visit), us.last())
    }
}

/// A reference to an object of another container.
pub open spec fn visit_proxy(os: Objects, reg: Registry, parent: Seq<char>, u: Seq<char>) -> Registry {
    if !is_object(os, u) {
        reg
    } else {
        let info = or_text(text_field(os, u, "remoteInfo"@), Seq::empty());
        let r = register(
            reg,
            parent,
            u,
            "PBXContainerItemProxy/"@ + info,
            "PBXContainerItemProxy"@,
        );
        match text_field(os, u, "remoteGlobalIDString"@) {
            Some(remote) => if lookup(r.rows, remote) is Some {
                r
            } else {
                match text_field(os, u, "containerPortal"@) {
                    Some(portal) => {
                        let e = expose(r, path_of(r, portal) is Some, portal);
                        let path = or_text(path_of(r, u), Seq::empty()) + "+"@ + or_text(
                            path_of(r, portal),
                            portal,
                        );
                        Registry {
                            rows: upsert(
                                r.rows,
                                remote,
                                (
                                    "PBXContainerItemProxy#remoteGlobalIDString["@ + path + "]"@,
                                    md5_hex(path),
                                ),
                            ),
                            ..e
                        }
                    },
                    None => warn(
                        r,
                        "PBXContainerItemProxy '"@ + u + "' (new: '"@ + lookup(r.rows, u)->Some_0.1
                            + "') has no containerPortal — may be stale"@,
                    ),
                }
            },
            None => r,
        }
    }
}

/// A group or a file reference, and what is below it.  `fuel` bounds the depth:
/// a tree of groups is no deeper than the number of objects.
pub open spec fn visit_group(
    os: Objects,
    reg: Registry,
    parent: Seq<char>,
    u: Seq<char>,
    fuel: nat,
) -> Registry
    decreases fuel, 0nat,
{
    if fuel == 0 {
        reg
    } else if !is_object(os, u) {
        drop_uuid(reg, u)
    } else {
        let name = or_text(
            or_else(text_field(os, u, "name"@), text_field(os, u, "path"@)),
            "PBXRootGroup"@,
        );
        let isa = or_text(text_field(os, u, "isa"@), "PBXGroup"@);
        let r = visit_children(
            os,
            register(reg, parent, u, name, isa),
            u,
            list_field(os, u, "children"@),
            (fuel - 1) as nat,
        );
        let remote = text_field(os, u, "remoteRef"@);
        if isa == "PBXReferenceProxy"@ && remote is Some {
            visit_proxy(os, r, u, remote->Some_0)
        } else {
            r
        }
    }
}

pub open spec fn visit_children(
    os: Objects,
    reg: Registry,
    parent: Seq<char>,
    us: Seq<Seq<char>>,
    fuel: nat,
) -> Registry
    decreases fuel, us.len() + 1,
{
    if us.len() == 0 {
        reg
    } else {
        visit_group(
            os,
            visit_children(os, reg, parent, us.drop_last(), fuel),
            parent,
            us.last(),
            fuel,
        )
    }
}

pub open spec fn visit_configuration(
    os: Objects,
    reg: Registry,
    parent: Seq<char>,
    u: Seq<char>,
) -> Registry {
    if !is_object(os, u) {
        reg
    } else {
        register(
            reg,
            parent,
            u,
            or_text(text_field(os, u, "name"@), "Release"@),
            "XCBuildConfiguration"@,
        )
    }
}

pub open spec fn visit_configuration_list(
    os: Objects,
    reg: Registry,
    parent: Seq<char>,
    u: Seq<char>,
) -> Registry {
    if !is_object(os, u) {
        reg
    } else {
        visit_all(
            register(
                reg,
                parent,
                u,
                or_text(text_field(os, u, "defaultConfigurationName"@), "Release"@),
                "XCConfigurationList"@,
            ),
            list_field(os, u, "buildConfigurations"@),
            |r: Registry, c: Seq<char>| visit_configuration(os, r, u, c),
        )
    }
}

pub open spec fn visit_dependency(
    os: Objects,
    reg: Registry,
    parent: Seq<char>,
    u: Seq<char>,
) -> Registry {
    if !is_object(os, u) {
        reg
    } else {
        let component = match text_field(os, u, "target"@) {
            Some(target) => or_text(path_of(reg, target), target),
            None => or_text(text_field(os, u, "name"@), u),
        };
        let e = match text_field(os, u, "target"@) {
            Some(target) => expose(reg, path_of(reg, target) is Some, target),
            None => expose(reg, text_field(os, u, "name"@) is Some, u),
        };
        let r = register(e, parent, u, component, "PBXTargetDependency"@);
        match text_field(os, u, "targetProxy"@) {
            Some(proxy) => visit_proxy(os, r, u, proxy),
            None => warn(
                r,
                "PBXTargetDependency '"@ + u + "' has no targetProxy — may be stale"@,
            ),
        }
    }
}

/// What tells a build phase of a target from the others.
pub open spec fn phase_component(os: Objects, u: Seq<char>, isa: Seq<char>) -> Seq<char> {
    if isa == "PBXShellScriptBuildPhase"@ {
        or_text(text_field(os, u, "shellScript"@), isa)
    } else if isa == "PBXCopyFilesBuildPhase"@ {
        let spec_and_path = or_text(text_field(os, u, "dstSubfolderSpec"@), Seq::empty()) + "/"@
            + or_text(text_field(os, u, "dstPath"@), Seq::empty());
        match text_field(os, u, "name"@) {
            Some(name) => name + "/"@ + spec_and_path,
            None => spec_and_path,
        }
    } else {
        isa
    }
}

/// The file or product that a build file refers to.
pub open spec fn referenced(os: Objects, u: Seq<char>) -> Option<Seq<char>> {
    let file = field(os, u, "fileRef"@);
    if file is Some {
        str_of(file)
    } else {
        str_of(field(os, u, "productRef"@))
    }
}

pub open spec fn visit_build_file(
    os: Objects,
    reg: Registry,
    parent: Seq<char>,
    u: Seq<char>,
) -> Registry {
    match referenced(os, u) {
        None => drop_uuid(reg, u),
        Some(reference) => match path_of(reg, reference) {
            Some(path) => register(reg, parent, u, path, "PBXBuildFile"@),
            None => drop_uuid(drop_uuid(reg, u), reference),
        },
    }
}

pub open spec fn visit_phase(os: Objects, reg: Registry, parent: Seq<char>, u: Seq<char>) -> Registry {
    if !is_object(os, u) {
        reg
    } else {
        let isa = or_text(text_field(os, u, "isa"@), "PBXBuildPhase"@);
        visit_all(
            register(reg, parent, u, phase_component(os, u, isa), isa),
            list_field(os, u, "files"@),
            |r: Registry, f: Seq<char>| visit_build_file(os, r, u, f),
        )
    }
}

pub open spec fn visit_rule(os: Objects, reg: Registry, parent: Seq<char>, u: Seq<char>) -> Registry {
    if !is_object(os, u) {
        drop_uuid(reg, u)
    } else {
        let file_type = or_text(text_field(os, u, "fileType"@), "unknown"@);
        let component = if file_type == "pattern.proxy"@ {
            file_type + "/"@ + or_text(text_field(os, u, "filePatterns"@), Seq::empty())
        } else {
            file_type
        };
        register(reg, parent, u, component, "PBXBuildRule"@)
    }
}

/// A package.  Its URL is its path, so that packages with one URL share one
/// UUID.
pub open spec fn visit_package(
    os: Objects,
    reg: Registry,
    parent: Seq<char>,
    u: Seq<char>,
) -> Registry {
    if lookup(reg.rows, u) is Some || !is_object(os, u) {
        reg
    } else {
        register(
            expose(reg, text_field(os, u, "repositoryURL"@) is Some, u),
            parent,
            u,
            or_text(text_field(os, u, "repositoryURL"@), u),
            "XCRemoteSwiftPackageReference"@,
        )
    }
}

pub open spec fn visit_product(
    os: Objects,
    root: Seq<char>,
    reg: Registry,
    parent: Seq<char>,
    u: Seq<char>,
) -> Registry {
    if lookup(reg.rows, u) is Some || !is_object(os, u) {
        reg
    } else {
        let r = register(
            expose(reg, text_field(os, u, "productName"@) is Some, u),
            parent,
            u,
            or_text(text_field(os, u, "productName"@), u),
            "XCSwiftPackageProductDependency"@,
        );
        match text_field(os, u, "package"@) {
            Some(package) => visit_package(os, r, root, package),
            None => r,
        }
    }
}

/// Registers a target before its parts, so that references to it resolve.
pub open spec fn visit_target_early(
    os: Objects,
    reg: Registry,
    parent: Seq<char>,
    u: Seq<char>,
) -> Registry {
    if lookup(reg.rows, u) is Some {
        reg
    } else {
        let name = text_field(os, u, "name"@);
        let product = or_text(or_else(text_field(os, u, "productName"@), name), u);
        register(
            expose(reg, name is Some, u),
            parent,
            u,
            product + "/"@ + or_text(name, u),
            or_text(text_field(os, u, "isa"@), "PBXTarget"@),
        )
    }
}

/// The parts of a target.
pub open spec fn visit_target(os: Objects, root: Seq<char>, reg: Registry, u: Seq<char>) -> Registry {
    if !is_object(os, u) {
        reg
    } else {
        let r1 = match text_field(os, u, "buildConfigurationList"@) {
            Some(list) => visit_configuration_list(os, reg, u, list),
            None => reg,
        };
        let r2 = visit_all(
            r1,
            list_field(os, u, "dependencies"@),
            |r: Registry, x: Seq<char>| visit_dependency(os, r, u, x),
        );
        let r3 = visit_all(
            r2,
            list_field(os, u, "buildPhases"@),
            |r: Registry, x: Seq<char>| visit_phase(os, r, u, x),
        );
        let r4 = visit_all(
            r3,
            list_field(os, u, "buildRules"@),
            |r: Registry, x: Seq<char>| visit_rule(os, r, u, x),
        );
        visit_all(
            r4,
            list_field(os, u, "packageProductDependencies"@),
            |r: Registry, x: Seq<char>| visit_product(os, root, r, u, x),
        )
    }
}

/// The products of other projects: each item names a group of products and the
/// reference to their project.
pub open spec fn visit_references(os: Objects, reg: Registry, items: Seq<Plist>, fuel: nat) -> Registry
    decreases items.len(),
{
    if items.len() == 0 {
        reg
    } else {
        let r = visit_references(os, reg, items.drop_last(), fuel);
        match items.last() {
            Plist::Dict(es) => match (
                str_of(lookup(es, "ProductGroup"@)),
                str_of(lookup(es, "ProjectRef"@)),
            ) {
                (Some(group), Some(project)) => visit_group(os, r, project, group, fuel),
                _ => r,
            },
            _ => r,
        }
    }
}

/// The registry of a project whose root has the name `name`.
#[verifier::opaque]
pub open spec fn registry(project: Project, name: Seq<char>) -> Registry {
    let os = project.objects;
    let root = project.root_object;
    let fuel = os.len() + 1;
    let r0 = Registry {
        rows: seq![(root, (name, md5_hex(name)))],
        remove: Seq::empty(),
        warnings: Seq::empty(),
        exposed: Seq::empty(),
    };
    let r1 = match text_field(os, root, "mainGroup"@) {
        Some(group) => visit_group(os, r0, root, group, fuel),
        None => r0,
    };
    let r2 = match text_field(os, root, "buildConfigurationList"@) {
        Some(list) => visit_configuration_list(os, r1, root, list),
        None => r1,
    };
    let r3 = match field(os, root, "projectReferences"@) {
        Some(Plist::Array(items)) => visit_references(os, r2, items, fuel),
        _ => r2,
    };
    let r4 = visit_all(
        r3,
        list_field(os, root, "packageReferences"@),
        |r: Registry, x: Seq<char>| visit_package(os, r, root, x),
    );
    let targets = list_field(os, root, "targets"@);
    let r5 = visit_all(
        r4,
        targets,
        |r: Registry, x: Seq<char>| visit_target_early(os, r, root, x),
    );
    visit_all(r5, targets, |r: Registry, x: Seq<char>| visit_target(os, root, r, x))
}

// ── The traversal ────────────────────────────────────────────────────────────

/// Every new UUID has the form of one.
pub open spec fn new_uuids_formed(rows: Rows) -> bool {
    forall|i: int| 0 <= i < rows.len() ==> is_new_uuid((#[trigger] rows[i]).1.1)
}

proof fn lemma_upsert_formed(rows: Rows, u: Seq<char>, row: (Seq<char>, Seq<char>))
    requires
        new_uuids_formed(rows),
        is_new_uuid(row.1),
    ensures
        new_uuids_formed(upsert(rows, u, row)),
{
    lemma_slot(rows, u);
    let r = upsert(rows, u, row);
    assert forall|i: int| 0 <= i < r.len() implies is_new_uuid((#[trigger] r[i]).1.1) by {
        if i < rows.len() && r[i] != (u, row) {
            assert(r[i] == rows[i]);
        }
    }
}

/// The objects registered so far.
struct ResultMap {
    entries: Table<Registered>,
    to_remove: Vec<String>,
    warnings: Vec<String>,
    exposed: Ghost<Seq<Seq<char>>>,
}

impl View for ResultMap {
    type V = Registry;

    closed spec fn view(&self) -> Registry {
        Registry {
            rows: self.entries@,
            remove: texts(self.to_remove@),
            warnings: texts(self.warnings@),
            exposed: self.exposed@,
        }
    }
}

/// Nothing has been found yet.
pub open spec fn nothing_registered() -> Registry {
    Registry {
        rows: Seq::empty(),
        remove: Seq::empty(),
        warnings: Seq::empty(),
        exposed: Seq::empty(),
    }
}

/// Appends a text to a list.
fn push_owned(v: &mut Vec<String>, s: &str)
    ensures
        texts(final(v)@) == texts(old(v)@).push(s@),
{
    let ghost before = v@;
    v.push(owned(s));
    assert(v@ =~= before.push(v@.last()));
    assert(texts(v@) =~= texts(before).push(s@));
}

/// Two texts one behind the other.
pub fn concat(a: &str, b: &str) -> (r: String)
    ensures
        r@ == a@ + b@,
{
    let mut r = owned(a);
    r.push_str(b);
    r
}

impl ResultMap {
    spec fn wf(&self) -> bool {
        self.entries.wf() && new_uuids_formed(self.entries@)
    }

    fn new() -> (r: Self)
        ensures
            r.wf(),
            r@ == nothing_registered(),
    {
        let r = ResultMap {
            entries: Table::new(),
            to_remove: Vec::new(),
            warnings: Vec::new(),
            exposed: Ghost(Seq::empty()),
        };
        assert(r@.remove =~= Seq::empty());
        assert(r@.warnings =~= Seq::empty());
        r
    }

    /// Registers an object with its path and its new UUID.
    fn insert(&mut self, uuid: &str, path: String, new_uuid: String)
        requires
            old(self).wf(),
            is_new_uuid(new_uuid@),
        ensures
            final(self).wf(),
            final(self)@ == (Registry {
                rows: upsert(old(self)@.rows, uuid@, (path@, new_uuid@)),
                ..old(self)@
            }),
    {
        proof {
            lemma_upsert_formed(self.entries@, uuid@, (path@, new_uuid@));
        }
        self.entries.set(owned(uuid), Registered { path, uuid: new_uuid });
    }

    /// Registers an object under its parent and returns its new UUID.
    fn set(&mut self, parent: &str, uuid: &str, component: &str, isa: &str) -> (r: String)
        requires
            old(self).wf(),
        ensures
            final(self).wf(),
            final(self)@ == register(old(self)@, parent@, uuid@, component@, isa@),
            r@ == md5_hex(typed_path(old(self)@, parent@, component@, isa@)),
    {
        let mut path = concat(isa, "[");
        if let Some(row) = self.entries.get(parent) {
            path.push_str(row.path.as_str());
        }
        path.push_str("/");
        path.push_str(component);
        path.push_str("]");
        assert(path@ =~= typed_path(self@, parent@, component@, isa@));
        let new_uuid = md5_uuid(path.as_str());
        self.insert(uuid, path, owned(new_uuid.as_str()));
        new_uuid
    }

    fn abs_path(&self, uuid: &str) -> (r: Option<&str>)
        requires
            self.wf(),
        ensures
            str_view(r) == path_of(self@, uuid@),
    {
        match self.entries.get(uuid) {
            Some(row) => Some(row.path.as_str()),
            None => None,
        }
    }

    fn contains(&self, uuid: &str) -> (r: bool)
        requires
            self.wf(),
        ensures
            r == (lookup(self@.rows, uuid@) is Some),
    {
        self.entries.contains_key(uuid)
    }

    fn remove(&mut self, uuid: &str)
        requires
            old(self).wf(),
        ensures
            final(self).wf(),
            final(self)@ == drop_uuid(old(self)@, uuid@),
    {
        push_owned(&mut self.to_remove, uuid);
    }

    /// Notes a UUID that stands in a path, unless there is a name for it.
    fn expose(&mut self, named: bool, uuid: &str)
        requires
            old(self).wf(),
        ensures
            final(self).wf(),
            final(self)@ == expose(old(self)@, named, uuid@),
    {
        self.exposed = Ghost(
            if named {
                self.exposed@
            } else {
                self.exposed@.push(uuid@)
            },
        );
    }

    fn warn(&mut self, message: &str)
        requires
            old(self).wf(),
        ensures
            final(self).wf(),
            final(self)@ == warn(old(self)@, message@),
    {
        push_owned(&mut self.warnings, message);
    }
}

/// A text field, or else the text `b`.
fn text_or(a: Option<&str>, b: &str) -> (r: String)
    ensures
        r@ == or_text(str_view(a), b@),
{
    match a {
        Some(x) => owned(x),
        None => owned(b),
    }
}

/// The walk through the tree of objects.
pub struct Uniquifier<'a> {
    proj: &'a PbxProject,
    result: ResultMap,
}

impl<'a> Uniquifier<'a> {
    pub closed spec fn wf(&self) -> bool {
        self.result.wf()
    }

    /// The project.
    pub closed spec fn project(&self) -> Project {
        self.proj@
    }

    spec fn objects(&self) -> Objects {
        self.proj@.objects
    }

    /// What has been registered so far.
    pub closed spec fn registered(&self) -> Registry {
        self.result@
    }

    pub fn new(proj: &'a PbxProject) -> (u: Self)
        ensures
            u.wf(),
            u.project() == proj@,
            u.registered() == nothing_registered(),
    {
        Uniquifier { proj, result: ResultMap::new() }
    }

    fn list(&self, uuid: &str, name: &str) -> (r: Vec<String>)
        ensures
            texts(r@) == list_field(self.objects(), uuid@, name@),
    {
        match self.proj.array_field(uuid, name) {
            Some(v) => v,
            None => {
                let v: Vec<String> = Vec::new();
                assert(texts(v@) =~= Seq::empty());
                v
            },
        }
    }

    fn unique_container_item_proxy(&mut self, parent: &str, uuid: &str)
        requires
            old(self).wf(),
        ensures
            final(self).wf(),
            final(self).proj == old(self).proj,
            final(self).result@ == visit_proxy(
                old(self).objects(),
                old(self).result@,
                parent@,
                uuid@,
            ),
    {
        if self.proj.get_object(uuid).is_none() {
            return;
        }
        let info = text_or(self.proj.str_field(uuid, "remoteInfo"), "");
        let component = concat("PBXContainerItemProxy/", info.as_str());
        proof {
            reveal_strlit("");
            assert(""@ =~= Seq::empty());
        }
        let new_uuid = self.result.set(
            parent,
            uuid,
            component.as_str(),
            "PBXContainerItemProxy",
        );
        let ghost r = self.result@;
        proof {
            lemma_slot(old(self).result@.rows, uuid@);
            self.result.entries.lemma_distinct();
            assert(lookup(r.rows, uuid@) is Some && lookup(r.rows, uuid@)->Some_0.1 == new_uuid@)
                by {
                old(self).result.entries.lemma_distinct();
                let path = typed_path(
                    old(self).result@,
                    parent@,
                    component@,
                    "PBXContainerItemProxy"@,
                );
                lemma_upsert(old(self).result@.rows, uuid@, (path, md5_hex(path)));
            }
        }
        let remote = match self.proj.str_field(uuid, "remoteGlobalIDString") {
            Some(x) => x,
            None => {
                return;
            },
        };
        if self.result.contains(remote) {
            return;
        }
        match self.proj.str_field(uuid, "containerPortal") {
            Some(portal) => {
                let mut path = text_or(self.result.abs_path(uuid), "");
                path.push_str("+");
                path.push_str(text_or(self.result.abs_path(portal), portal).as_str());
                let mut named = concat(
                    "PBXContainerItemProxy#remoteGlobalIDString[",
                    path.as_str(),
                );
                named.push_str("]");
                let digest = md5_uuid(path.as_str());
                let resolved = self.result.contains(portal);
                self.result.expose(resolved, portal);
                self.result.insert(remote, named, digest);
            },
            None => {
                let mut message = concat("PBXContainerItemProxy '", uuid);
                message.push_str("' (new: '");
                message.push_str(new_uuid.as_str());
                message.push_str("') has no containerPortal — may be stale");
                self.result.warn(message.as_str());
            },
        }
    }

    fn unique_group_or_ref(&mut self, parent: &str, uuid: &str, fuel: u128)
        requires
            old(self).wf(),
        ensures
            final(self).wf(),
            final(self).proj == old(self).proj,
            final(self).result@ == visit_group(
                old(self).objects(),
                old(self).result@,
                parent@,
                uuid@,
                fuel as nat,
            ),
        decreases fuel,
    {
        if fuel == 0 {
            return;
        }
        if self.proj.get_object(uuid).is_none() {
            self.result.remove(uuid);
            return;
        }
        let name = match self.proj.str_field(uuid, "name") {
            Some(n) => owned(n),
            None => text_or(self.proj.str_field(uuid, "path"), "PBXRootGroup"),
        };
        let isa = text_or(self.proj.isa(uuid), "PBXGroup");
        self.result.set(parent, uuid, name.as_str(), isa.as_str());
        let children = self.list(uuid, "children");
        let ghost r1 = self.result@;
        let ghost us = texts(children@);
        let mut i: usize = 0;
        proof {
            assert(us.take(0) =~= Seq::empty());
        }
        while i < children.len()
            invariant
                i <= children@.len(),
                us == texts(children@),
                fuel > 0,
                self.wf(),
                self.proj == old(self).proj,
                self.result@ == visit_children(
                    self.objects(),
                    r1,
                    uuid@,
                    us.take(i as int),
                    (fuel - 1) as nat,
                ),
            decreases children.len() - i,
        {
            proof {
                assert(us.take(i + 1).drop_last() =~= us.take(i as int));
                assert(us.take(i + 1).last() == children@[i as int]@);
            }
            self.unique_group_or_ref(uuid, children[i].as_str(), fuel - 1);
            i += 1;
        }
        assert(us.take(i as int) =~= us);
        if same(isa.as_str(), "PBXReferenceProxy") {
            if let Some(remote) = self.proj.str_field(uuid, "remoteRef") {
                self.unique_container_item_proxy(uuid, remote);
            }
        }
    }

    fn unique_build_configuration(&mut self, parent: &str, uuid: &str)
        requires
            old(self).wf(),
        ensures
            final(self).wf(),
            final(self).proj == old(self).proj,
            final(self).result@ == visit_configuration(
                old(self).objects(),
                old(self).result@,
                parent@,
                uuid@,
            ),
    {
        if self.proj.get_object(uuid).is_none() {
            return;
        }
        let name = text_or(self.proj.str_field(uuid, "name"), "Release");
        self.result.set(parent, uuid, name.as_str(), "XCBuildConfiguration");
    }

    fn unique_build_configuration_list(&mut self, parent: &str, uuid: &str)
        requires
            old(self).wf(),
        ensures
            final(self).wf(),
            final(self).proj == old(self).proj,
            final(self).result@ == visit_configuration_list(
                old(self).objects(),
                old(self).result@,
                parent@,
                uuid@,
            ),
    {
        if self.proj.get_object(uuid).is_none() {
            return;
        }
        let name = text_or(self.proj.str_field(uuid, "defaultConfigurationName"), "Release");
        self.result.set(parent, uuid, name.as_str(), "XCConfigurationList");
        let configs = self.list(uuid, "buildConfigurations");
        let ghost os = self.objects();
        let ghost visit = |r: Registry, c: Seq<char>| visit_configuration(os, r, uuid@, c);
        let ghost r1 = self.result@;
        let ghost us = texts(configs@);
        let mut i: usize = 0;
        proof {
            assert(us.take(0) =~= Seq::empty());
        }
        while i < configs.len()
            invariant
                i <= configs@.len(),
                us == texts(configs@),
                self.wf(),
                self.proj == old(self).proj,
                os == self.objects(),
                visit == (|r: Registry, c: Seq<char>| visit_configuration(os, r, uuid@, c)),
                self.result@ == visit_all(r1, us.take(i as int), visit),
            decreases configs.len() - i,
        {
            proof {
                assert(us.take(i + 1).drop_last() =~= us.take(i as int));
                assert(us.take(i + 1).last() == configs@[i as int]@);
            }
            self.unique_build_configuration(uuid, configs[i].as_str());
            i += 1;
        }
        assert(us.take(i as int) =~= us);
    }

    fn unique_target_dependency(&mut self, parent: &str, uuid: &str)
        requires
            old(self).wf(),
        ensures
            final(self).wf(),
            final(self).proj == old(self).proj,
            final(self).result@ == visit_dependency(
                old(self).objects(),
                old(self).result@,
                parent@,
                uuid@,
            ),
    {
        if self.proj.get_object(uuid).is_none() {
            return;
        }
        let component = match self.proj.str_field(uuid, "target") {
            Some(target) => text_or(self.result.abs_path(target), target),
            None => text_or(self.proj.str_field(uuid, "name"), uuid),
        };
        match self.proj.str_field(uuid, "target") {
            Some(target) => {
                let resolved = self.result.contains(target);
                self.result.expose(resolved, target);
            },
            None => {
                self.result.expose(self.proj.str_field(uuid, "name").is_some(), uuid);
            },
        }
        self.result.set(parent, uuid, component.as_str(), "PBXTargetDependency");
        match self.proj.str_field(uuid, "targetProxy") {
            Some(proxy) => {
                self.unique_container_item_proxy(uuid, proxy);
            },
            None => {
                let mut message = concat("PBXTargetDependency '", uuid);
                message.push_str("' has no targetProxy — may be stale");
                self.result.warn(message.as_str());
            },
        }
    }

    fn unique_build_file(&mut self, parent: &str, uuid: &str)
        requires
            old(self).wf(),
        ensures
            final(self).wf(),
            final(self).proj == old(self).proj,
            final(self).result@ == visit_build_file(
                old(self).objects(),
                old(self).result@,
                parent@,
                uuid@,
            ),
    {
        let value = match self.proj.raw_field(uuid, "fileRef") {
            Some(v) => Some(v),
            None => self.proj.raw_field(uuid, "productRef"),
        };
        let reference = match value {
            Some(v) => v.str_val(),
            None => None,
        };
        match reference {
            None => {
                self.result.remove(uuid);
            },
            Some(reference) => {
                let path: Option<String> = match self.result.abs_path(reference.as_str()) {
                    Some(p) => Some(owned(p)),
                    None => None,
                };
                match path {
                    Some(p) => {
                        self.result.set(parent, uuid, p.as_str(), "PBXBuildFile");
                    },
                    None => {
                        self.result.remove(uuid);
                        self.result.remove(reference.as_str());
                    },
                }
            },
        }
    }

    fn unique_build_phase(&mut self, parent: &str, uuid: &str)
        requires
            old(self).wf(),
        ensures
            final(self).wf(),
            final(self).proj == old(self).proj,
            final(self).result@ == visit_phase(
                old(self).objects(),
                old(self).result@,
                parent@,
                uuid@,
            ),
    {
        if self.proj.get_object(uuid).is_none() {
            return;
        }
        proof {
            reveal_strlit("");
            assert(""@ =~= Seq::empty());
        }
        let isa = text_or(self.proj.isa(uuid), "PBXBuildPhase");
        let component = if same(isa.as_str(), "PBXShellScriptBuildPhase") {
            text_or(self.proj.str_field(uuid, "shellScript"), isa.as_str())
        } else if same(isa.as_str(), "PBXCopyFilesBuildPhase") {
            let mut place = text_or(self.proj.str_field(uuid, "dstSubfolderSpec"), "");
            place.push_str("/");
            place.push_str(text_or(self.proj.str_field(uuid, "dstPath"), "").as_str());
            match self.proj.str_field(uuid, "name") {
                Some(n) => {
                    let mut c = concat(n, "/");
                    c.push_str(place.as_str());
                    c
                },
                None => place,
            }
        } else {
            owned(isa.as_str())
        };
        assert(component@ =~= phase_component(self.objects(), uuid@, isa@));
        self.result.set(parent, uuid, component.as_str(), isa.as_str());
        let files = self.list(uuid, "files");
        let ghost os = self.objects();
        let ghost visit = |r: Registry, f: Seq<char>| visit_build_file(os, r, uuid@, f);
        let ghost r1 = self.result@;
        let ghost us = texts(files@);
        let mut i: usize = 0;
        proof {
            assert(us.take(0) =~= Seq::empty());
        }
        while i < files.len()
            invariant
                i <= files@.len(),
                us == texts(files@),
                self.wf(),
                self.proj == old(self).proj,
                os == self.objects(),
                visit == (|r: Registry, f: Seq<char>| visit_build_file(os, r, uuid@, f)),
                self.result@ == visit_all(r1, us.take(i as int), visit),
            decreases files.len() - i,
        {
            proof {
                assert(us.take(i + 1).drop_last() =~= us.take(i as int));
                assert(us.take(i + 1).last() == files@[i as int]@);
            }
            self.unique_build_file(uuid, files[i].as_str());
            i += 1;
        }
        assert(us.take(i as int) =~= us);
    }

    fn unique_build_rule(&mut self, parent: &str, uuid: &str)
        requires
            old(self).wf(),
        ensures
            final(self).wf(),
            final(self).proj == old(self).proj,
            final(self).result@ == visit_rule(
                old(self).objects(),
                old(self).result@,
                parent@,
                uuid@,
            ),
    {
        if self.proj.get_object(uuid).is_none() {
            self.result.remove(uuid);
            return;
        }
        proof {
            reveal_strlit("");
            assert(""@ =~= Seq::empty());
        }
        let mut component = text_or(self.proj.str_field(uuid, "fileType"), "unknown");
        if same(component.as_str(), "pattern.proxy") {
            component.push_str("/");
            component.push_str(text_or(self.proj.str_field(uuid, "filePatterns"), "").as_str());
        }
        self.result.set(parent, uuid, component.as_str(), "PBXBuildRule");
    }

    fn unique_package_ref(&mut self, parent: &str, uuid: &str)
        requires
            old(self).wf(),
        ensures
            final(self).wf(),
            final(self).proj == old(self).proj,
            final(self).result@ == visit_package(
                old(self).objects(),
                old(self).result@,
                parent@,
                uuid@,
            ),
    {
        if self.result.contains(uuid) || self.proj.get_object(uuid).is_none() {
            return;
        }
        let url = text_or(self.proj.str_field(uuid, "repositoryURL"), uuid);
        self.result.expose(self.proj.str_field(uuid, "repositoryURL").is_some(), uuid);
        self.result.set(parent, uuid, url.as_str(), "XCRemoteSwiftPackageReference");
    }

    fn unique_package_product_dep(&mut self, parent: &str, uuid: &str)
        requires
            old(self).wf(),
        ensures
            final(self).wf(),
            final(self).proj == old(self).proj,
            final(self).result@ == visit_product(
                old(self).objects(),
                old(self).proj@.root_object,
                old(self).result@,
                parent@,
                uuid@,
            ),
    {
        if self.result.contains(uuid) || self.proj.get_object(uuid).is_none() {
            return;
        }
        let product = text_or(self.proj.str_field(uuid, "productName"), uuid);
        self.result.expose(self.proj.str_field(uuid, "productName").is_some(), uuid);
        self.result.set(parent, uuid, product.as_str(), "XCSwiftPackageProductDependency");
        if let Some(package) = self.proj.str_field(uuid, "package") {
            self.unique_package_ref(self.proj.root_object.as_str(), package);
        }
    }

    fn pre_register_target(&mut self, parent: &str, uuid: &str)
        requires
            old(self).wf(),
        ensures
            final(self).wf(),
            final(self).proj == old(self).proj,
            final(self).result@ == visit_target_early(
                old(self).objects(),
                old(self).result@,
                parent@,
                uuid@,
            ),
    {
        if self.result.contains(uuid) {
            return;
        }
        let name = self.proj.str_field(uuid, "name");
        let mut component = match self.proj.str_field(uuid, "productName") {
            Some(p) => owned(p),
            None => text_or(name, uuid),
        };
        component.push_str("/");
        component.push_str(text_or(name, uuid).as_str());
        let isa = text_or(self.proj.isa(uuid), "PBXTarget");
        self.result.expose(name.is_some(), uuid);
        self.result.set(parent, uuid, component.as_str(), isa.as_str());
    }

    fn unique_target(&mut self, uuid: &str)
        requires
            old(self).wf(),
        ensures
            final(self).wf(),
            final(self).proj == old(self).proj,
            final(self).result@ == visit_target(
                old(self).objects(),
                old(self).proj@.root_object,
                old(self).result@,
                uuid@,
            ),
    {
        if self.proj.get_object(uuid).is_none() {
            return;
        }
        let ghost os = self.objects();
        let ghost root = self.proj@.root_object;
        if let Some(list) = self.proj.str_field(uuid, "buildConfigurationList") {
            self.unique_build_configuration_list(uuid, list);
        }
        let ghost r1 = self.result@;
        let deps = self.list(uuid, "dependencies");
        let ghost visit2 = |r: Registry, x: Seq<char>| visit_dependency(os, r, uuid@, x);
        let ghost us2 = texts(deps@);
        let mut i: usize = 0;
        proof {
            assert(us2.take(0) =~= Seq::empty());
        }
        while i < deps.len()
            invariant
                i <= deps@.len(),
                us2 == texts(deps@),
                self.wf(),
                self.proj == old(self).proj,
                os == self.objects(),
                visit2 == (|r: Registry, x: Seq<char>| visit_dependency(os, r, uuid@, x)),
                self.result@ == visit_all(r1, us2.take(i as int), visit2),
            decreases deps.len() - i,
        {
            proof {
                assert(us2.take(i + 1).drop_last() =~= us2.take(i as int));
                assert(us2.take(i + 1).last() == deps@[i as int]@);
            }
            self.unique_target_dependency(uuid, deps[i].as_str());
            i += 1;
        }
        assert(us2.take(i as int) =~= us2);
        let ghost r2 = self.result@;
        let phases = self.list(uuid, "buildPhases");
        let ghost visit3 = |r: Registry, x: Seq<char>| visit_phase(os, r, uuid@, x);
        let ghost us3 = texts(phases@);
        i = 0;
        proof {
            assert(us3.take(0) =~= Seq::empty());
        }
        while i < phases.len()
            invariant
                i <= phases@.len(),
                us3 == texts(phases@),
                self.wf(),
                self.proj == old(self).proj,
                os == self.objects(),
                visit3 == (|r: Registry, x: Seq<char>| visit_phase(os, r, uuid@, x)),
                self.result@ == visit_all(r2, us3.take(i as int), visit3),
            decreases phases.len() - i,
        {
            proof {
                assert(us3.take(i + 1).drop_last() =~= us3.take(i as int));
                assert(us3.take(i + 1).last() == phases@[i as int]@);
            }
            self.unique_build_phase(uuid, phases[i].as_str());
            i += 1;
        }
        assert(us3.take(i as int) =~= us3);
        let ghost r3 = self.result@;
        let rules = self.list(uuid, "buildRules");
        let ghost visit4 = |r: Registry, x: Seq<char>| visit_rule(os, r, uuid@, x);
        let ghost us4 = texts(rules@);
        i = 0;
        proof {
            assert(us4.take(0) =~= Seq::empty());
        }
        while i < rules.len()
            invariant
                i <= rules@.len(),
                us4 == texts(rules@),
                self.wf(),
                self.proj == old(self).proj,
                os == self.objects(),
                visit4 == (|r: Registry, x: Seq<char>| visit_rule(os, r, uuid@, x)),
                self.result@ == visit_all(r3, us4.take(i as int), visit4),
            decreases rules.len() - i,
        {
            proof {
                assert(us4.take(i + 1).drop_last() =~= us4.take(i as int));
                assert(us4.take(i + 1).last() == rules@[i as int]@);
            }
            self.unique_build_rule(uuid, rules[i].as_str());
            i += 1;
        }
        assert(us4.take(i as int) =~= us4);
        let ghost r4 = self.result@;
        let products = self.list(uuid, "packageProductDependencies");
        let ghost visit5 = |r: Registry, x: Seq<char>| visit_product(os, root, r, uuid@, x);
        let ghost us5 = texts(products@);
        i = 0;
        proof {
            assert(us5.take(0) =~= Seq::empty());
        }
        while i < products.len()
            invariant
                i <= products@.len(),
                us5 == texts(products@),
                self.wf(),
                self.proj == old(self).proj,
                os == self.objects(),
                root == self.proj@.root_object,
                visit5 == (|r: Registry, x: Seq<char>| visit_product(os, root, r, uuid@, x)),
                self.result@ == visit_all(r4, us5.take(i as int), visit5),
            decreases products.len() - i,
        {
            proof {
                assert(us5.take(i + 1).drop_last() =~= us5.take(i as int));
                assert(us5.take(i + 1).last() == products@[i as int]@);
            }
            self.unique_package_product_dep(uuid, products[i].as_str());
            i += 1;
        }
        assert(us5.take(i as int) =~= us5);
    }

    /// The products of other projects.
    fn unique_references(&mut self, items: &Vec<PbxValue>, fuel: u128)
        requires
            old(self).wf(),
        ensures
            final(self).wf(),
            final(self).proj == old(self).proj,
            final(self).result@ == visit_references(
                old(self).objects(),
                old(self).result@,
                plists(items@),
                fuel as nat,
            ),
    {
        let ghost r0 = self.result@;
        let ghost all = plists(items@);
        let mut i: usize = 0;
        proof {
            assert(all.take(0) =~= Seq::empty());
        }
        while i < items.len()
            invariant
                i <= items@.len(),
                all == plists(items@),
                self.wf(),
                self.proj == old(self).proj,
                self.result@ == visit_references(
                    self.objects(),
                    r0,
                    all.take(i as int),
                    fuel as nat,
                ),
            decreases items.len() - i,
        {
            proof {
                assert(all.take(i + 1).drop_last() =~= all.take(i as int));
                assert(all.take(i + 1).last() == plist(items@[i as int]));
            }
            if let Some(d) = items[i].as_dict() {
                let group = match d.get("ProductGroup") {
                    Some(v) => v.as_str(),
                    None => None,
                };
                let project = match d.get("ProjectRef") {
                    Some(v) => v.as_str(),
                    None => None,
                };
                if let Some(g) = group {
                    if let Some(p) = project {
                        self.unique_group_or_ref(p, g, fuel);
                    }
                }
            }
            i += 1;
        }
        assert(all.take(i as int) =~= all);
    }

    /// Builds the full map from old to new UUIDs.
    pub fn build_map(self, proj_root_name: &str) -> (m: UniqueMap)
        requires
            self.wf(),
            self.registered() == nothing_registered(),
        ensures
            m.wf(),
            m.holds(registry(self.project(), proj_root_name@)),
            m.is_complete(),
            new_uuids_formed(m.entries@),
    {
        let mut walk = self;
        let ghost os = walk.objects();
        let proj = walk.proj;
        let root = proj.root_object.as_str();
        let ghost name = proj_root_name@;
        let digest = md5_uuid(proj_root_name);
        walk.result.insert(root, owned(proj_root_name), digest);
        proof {
            assert(walk.result@.rows =~= seq![(root@, (name, md5_hex(name)))]);
            assert(walk.result@.remove =~= Seq::empty());
            assert(walk.result@.warnings =~= Seq::empty());
        }
        let fuel: u128 = proj.objects.len() as u128 + 1;
        if let Some(group) = proj.str_field(root, "mainGroup") {
            walk.unique_group_or_ref(root, group, fuel);
        }
        if let Some(list) = proj.str_field(root, "buildConfigurationList") {
            walk.unique_build_configuration_list(root, list);
        }
        if let Some(v) = proj.raw_field(root, "projectReferences") {
            if let Some(items) = v.as_array() {
                walk.unique_references(items, fuel);
            }
        }
        let ghost r3 = walk.result@;
        let packages = walk.list(root, "packageReferences");
        let ghost visit4 = |r: Registry, x: Seq<char>| visit_package(os, r, root@, x);
        let ghost us4 = texts(packages@);
        let mut i: usize = 0;
        proof {
            assert(us4.take(0) =~= Seq::empty());
        }
        while i < packages.len()
            invariant
                i <= packages@.len(),
                us4 == texts(packages@),
                walk.wf(),
                walk.proj == proj,
                os == walk.objects(),
                visit4 == (|r: Registry, x: Seq<char>| visit_package(os, r, root@, x)),
                walk.result@ == visit_all(r3, us4.take(i as int), visit4),
            decreases packages.len() - i,
        {
            proof {
                assert(us4.take(i + 1).drop_last() =~= us4.take(i as int));
                assert(us4.take(i + 1).last() == packages@[i as int]@);
            }
            walk.unique_package_ref(root, packages[i].as_str());
            i += 1;
        }
        assert(us4.take(i as int) =~= us4);
        let ghost r4 = walk.result@;
        let targets = walk.list(root, "targets");
        let ghost us = texts(targets@);
        let ghost visit5 = |r: Registry, x: Seq<char>| visit_target_early(os, r, root@, x);
        i = 0;
        proof {
            assert(us.take(0) =~= Seq::empty());
        }
        while i < targets.len()
            invariant
                i <= targets@.len(),
                us == texts(targets@),
                walk.wf(),
                walk.proj == proj,
                os == walk.objects(),
                visit5 == (|r: Registry, x: Seq<char>| visit_target_early(os, r, root@, x)),
                walk.result@ == visit_all(r4, us.take(i as int), visit5),
            decreases targets.len() - i,
        {
            proof {
                assert(us.take(i + 1).drop_last() =~= us.take(i as int));
                assert(us.take(i + 1).last() == targets@[i as int]@);
            }
            walk.pre_register_target(root, targets[i].as_str());
            i += 1;
        }
        assert(us.take(i as int) =~= us);
        let ghost r5 = walk.result@;
        let ghost visit6 = |r: Registry, x: Seq<char>| visit_target(os, root@, r, x);
        i = 0;
        while i < targets.len()
            invariant
                i <= targets@.len(),
                us == texts(targets@),
                walk.wf(),
                walk.proj == proj,
                os == walk.objects(),
                root@ == proj@.root_object,
                visit6 == (|r: Registry, x: Seq<char>| visit_target(os, root@, r, x)),
                walk.result@ == visit_all(r5, us.take(i as int), visit6),
            decreases targets.len() - i,
        {
            proof {
                assert(us.take(i + 1).drop_last() =~= us.take(i as int));
                assert(us.take(i + 1).last() == targets@[i as int]@);
            }
            walk.unique_target(targets[i].as_str());
            i += 1;
        }
        assert(us.take(i as int) =~= us);
        let ghost reg = walk.result@;
        assert(reg == registry(self.project(), name)) by {
            reveal(registry);
        }
        let map = new_uuid_table(&walk.result.entries);
        UniqueMap {
            map,
            entries: walk.result.entries,
            to_remove: walk.result.to_remove,
            warnings: walk.result.warnings,
        }
    }
}

/// The new UUIDs by the old ones.
pub open spec fn new_uuids(rows: Rows) -> Seq<(Seq<char>, Seq<char>)> {
    Seq::new(rows.len(), |i: int| (rows[i].0, rows[i].1.1))
}

/// The new UUIDs by the old ones.
fn new_uuid_table(entries: &Table<Registered>) -> (map: Table<String>)
    requires
        entries.wf(),
    ensures
        map.wf(),
        map@ == new_uuids(entries@),
{
    let mut map: Table<String> = Table::new();
    let mut i: usize = 0;
    proof {
        assert(map@ =~= new_uuids(entries@).take(0));
    }
    while i < entries.len()
        invariant
            i <= entries@.len(),
            entries.wf(),
            map.wf(),
            map@ == new_uuids(entries@).take(i as int),
        decreases entries@.len() - i,
    {
        proof {
            entries.lemma_distinct();
            let all = new_uuids(entries@);
            assert forall|j: int| 0 <= j < map@.len() implies (#[trigger] map@[j]).0
                != entries@[i as int].0 by {
                assert(map@[j] == all[j]);
                assert(entries@[j].0 != entries@[i as int].0);
            }
            crate::table::lemma_no_slot(map@, entries@[i as int].0);
            assert(all.take(i + 1) =~= all.take(i as int).push(all[i as int]));
        }
        map.set(owned(entries.key_at(i)), owned(entries.val_at(i).uuid.as_str()));
        i += 1;
    }
    assert(new_uuids(entries@).take(i as int) =~= new_uuids(entries@));
    map
}

/// The map from old to new UUIDs.
pub struct UniqueMap {
    /// New UUIDs by old ones, for rewriting the text.
    pub map: Table<String>,
    /// Typed paths and new UUIDs by old ones.
    pub entries: Table<Registered>,
    /// UUIDs whose lines are dropped.
    pub to_remove: Vec<String>,
    pub warnings: Vec<String>,
}

impl UniqueMap {
    pub open spec fn wf(&self) -> bool {
        self.map.wf() && self.entries.wf()
    }

    /// The map holds what was registered.
    pub open spec fn holds(&self, reg: Registry) -> bool {
        &&& self.entries@ == reg.rows
        &&& texts(self.to_remove@) == reg.remove
        &&& texts(self.warnings@) == reg.warnings
    }

    /// The map holds the new UUIDs of all registered objects.
    pub open spec fn is_complete(&self) -> bool {
        self.map@ == new_uuids(self.entries@)
    }
}

// ── Rewriting a text ─────────────────────────────────────────────────────────

/// The map with its keys in upper case; of keys that become one, the last one
/// counts.
pub open spec fn normalised(map: Seq<(Seq<char>, Seq<char>)>) -> Seq<(Seq<char>, Seq<char>)>
    decreases map.len(),
{
    if map.len() == 0 {
        map
    } else {
        upsert(normalised(map.drop_last()), uppercase(map.last().0), map.last().1)
    }
}

/// Some UUID of the list is `u` in upper case.
pub open spec fn is_removed(remove: Seq<Seq<char>>, u: Seq<char>) -> bool {
    exists|i: int| 0 <= i < remove.len() && uppercase(#[trigger] remove[i]) == u
}

/// The UUIDs of a line, in upper case.
pub open spec fn line_uuids(line: Seq<char>) -> Seq<Seq<char>> {
    Seq::new(hits(UUID@, line).len(), |k: int| uppercase(hits(UUID@, line)[k].first))
}

/// The line holds a UUID that is unknown or whose lines are dropped.
pub open spec fn is_orphan_line(
    map: Seq<(Seq<char>, Seq<char>)>,
    remove: Seq<Seq<char>>,
    line: Seq<char>,
) -> bool {
    exists|k: int|
        0 <= k < line_uuids(line).len() && (is_removed(remove, #[trigger] line_uuids(line)[k])
            || lookup(map, line_uuids(line)[k]) is None)
}

/// A text up to and with its first `k` matches, each replaced.
pub open spec fn replaced_until(
    s: Seq<char>,
    hs: Seq<Hit>,
    new: spec_fn(Hit) -> Seq<char>,
    k: int,
) -> Seq<char>
    decreases k,
{
    if k <= 0 {
        Seq::empty()
    } else {
        replaced_until(s, hs, new, k - 1) + gap(s, hs, k - 1) + new(hs[k - 1])
    }
}

/// A text with its matches replaced.
pub open spec fn replaced(s: Seq<char>, hs: Seq<Hit>, new: spec_fn(Hit) -> Seq<char>) -> Seq<char> {
    replaced_until(s, hs, new, hs.len() as int) + gap(s, hs, hs.len() as int)
}

/// The new UUID for a match; the match itself, if it is unknown.
pub open spec fn new_uuid_for(map: Seq<(Seq<char>, Seq<char>)>, h: Hit) -> Seq<char> {
    match lookup(map, uppercase(h.first)) {
        Some(new) => new,
        None => h.first,
    }
}

/// A line with its UUIDs replaced.
pub open spec fn new_line(map: Seq<(Seq<char>, Seq<char>)>, line: Seq<char>) -> Seq<char> {
    replaced(line, hits(UUID@, line), |h: Hit| new_uuid_for(map, h))
}

/// The state of rewriting a text.
pub ghost struct Rewriting {
    pub depth: int,
    /// The depth at which the object that is being dropped ends.
    pub skip_to: Option<int>,
    pub out: Seq<Seq<char>>,
    pub removed: nat,
}

pub open spec fn rewrite_step(
    map: Seq<(Seq<char>, Seq<char>)>,
    remove: Seq<Seq<char>>,
    st: Rewriting,
    line: Seq<char>,
) -> Rewriting {
    let depth = st.depth + line_braces(line);
    if st.skip_to is Some {
        Rewriting {
            depth,
            skip_to: if depth <= st.skip_to->Some_0 {
                None
            } else {
                st.skip_to
            },
            removed: st.removed + 1,
            ..st
        }
    } else if is_orphan_line(map, remove, line) {
        Rewriting {
            depth,
            skip_to: if depth > st.depth {
                Some(st.depth)
            } else {
                None
            },
            removed: st.removed + 1,
            ..st
        }
    } else {
        Rewriting { depth, out: st.out.push(new_line(map, line)), ..st }
    }
}

pub open spec fn rewrite_run(
    map: Seq<(Seq<char>, Seq<char>)>,
    remove: Seq<Seq<char>>,
    lines: Seq<Seq<char>>,
) -> Rewriting
    decreases lines.len(),
{
    if lines.len() == 0 {
        Rewriting { depth: 0, skip_to: None, out: Seq::empty(), removed: 0 }
    } else {
        rewrite_step(map, remove, rewrite_run(map, remove, lines.drop_last()), lines.last())
    }
}

/// The UUIDs of a line, in upper case.
fn collect_uuids_from_line(line: &str, found: &Vec<Found>) -> (r: Vec<String>)
    requires
        found@.len() == hits(UUID@, line@).len(),
        forall|k: int|
            0 <= k < found@.len() ==> crate::pattern::is_found(
                #[trigger] found@[k],
                line@,
                hits(UUID@, line@)[k],
            ),
    ensures
        texts(r@) == line_uuids(line@),
{
    let mut r: Vec<String> = Vec::new();
    let mut k: usize = 0;
    proof {
        assert(texts(r@) =~= line_uuids(line@).take(0));
    }
    while k < found.len()
        invariant
            k <= found@.len(),
            found@.len() == hits(UUID@, line@).len(),
            forall|k: int|
                0 <= k < found@.len() ==> crate::pattern::is_found(
                    #[trigger] found@[k],
                    line@,
                    hits(UUID@, line@)[k],
                ),
            texts(r@) == line_uuids(line@).take(k as int),
        decreases found.len() - k,
    {
        let u = to_uppercase(found[k].first.as_str());
        assert(u@ == line_uuids(line@)[k as int]);
        push_owned(&mut r, u.as_str());
        assert(line_uuids(line@).take(k + 1) =~= line_uuids(line@).take(k as int).push(u@));
        k += 1;
    }
    assert(line_uuids(line@).take(k as int) =~= line_uuids(line@));
    r
}

/// The text with each match replaced by the text for it.
pub(crate) fn weave(s: &str, parts: &Vec<String>, new: &Vec<String>, Ghost(hs): Ghost<Seq<Hit>>, Ghost(
    f,
): Ghost<spec_fn(Hit) -> Seq<char>>) -> (r: String)
    requires
        parts@.len() == hs.len() + 1,
        new@.len() == hs.len(),
        forall|k: int| 0 <= k < parts@.len() ==> (#[trigger] parts@[k])@ == gap(s@, hs, k),
        forall|k: int| 0 <= k < new@.len() ==> (#[trigger] new@[k])@ == f(hs[k]),
    ensures
        r@ == replaced(s@, hs, f),
{
    let mut r = String::new();
    let mut k: usize = 0;
    proof {
        assert(r@ =~= replaced_until(s@, hs, f, 0));
    }
    while k < new.len()
        invariant
            k <= new@.len(),
            parts@.len() == hs.len() + 1,
            new@.len() == hs.len(),
            forall|k: int| 0 <= k < parts@.len() ==> (#[trigger] parts@[k])@ == gap(s@, hs, k),
            forall|k: int| 0 <= k < new@.len() ==> (#[trigger] new@[k])@ == f(hs[k]),
            r@ == replaced_until(s@, hs, f, k as int),
        decreases new.len() - k,
    {
        r.push_str(parts[k].as_str());
        r.push_str(new[k].as_str());
        k += 1;
    }
    r.push_str(parts[k].as_str());
    r
}

impl UniqueMap {
    /// The map with its keys in upper case.
    fn normalised_map(&self) -> (r: Table<String>)
        requires
            self.wf(),
        ensures
            r.wf(),
            r@ == normalised(self.map@),
    {
        let mut r: Table<String> = Table::new();
        let mut i: usize = 0;
        proof {
            assert(self.map@.take(0) =~= Seq::empty());
            assert(r@ =~= normalised(self.map@.take(0)));
        }
        while i < self.map.len()
            invariant
                i <= self.map@.len(),
                self.wf(),
                r.wf(),
                r@ == normalised(self.map@.take(i as int)),
            decreases self.map@.len() - i,
        {
            proof {
                assert(self.map@.take(i + 1).drop_last() =~= self.map@.take(i as int));
            }
            r.set(to_uppercase(self.map.key_at(i)), owned(self.map.val_at(i).as_str()));
            i += 1;
        }
        assert(self.map@.take(i as int) =~= self.map@);
        r
    }

    /// The UUIDs whose lines are dropped, in upper case.
    fn normalised_remove(&self) -> (r: StringHashSet)
        ensures
            forall|u: Seq<char>|
                r@.contains(u) == #[trigger] is_removed(texts(self.to_remove@), u),
    {
        let ghost all = texts(self.to_remove@);
        let mut r = StringHashSet::new();
        let mut i: usize = 0;
        while i < self.to_remove.len()
            invariant
                i <= self.to_remove@.len(),
                all == texts(self.to_remove@),
                forall|u: Seq<char>|
                    r@.contains(u) == #[trigger] is_removed(all.take(i as int), u),
            decreases self.to_remove@.len() - i,
        {
            let ghost before = r@;
            let up = to_uppercase(self.to_remove[i].as_str());
            r.insert(up);
            proof {
                let now = all.take(i + 1);
                let then = all.take(i as int);
                assert(now[i as int] == self.to_remove@[i as int]@);
                assert forall|u: Seq<char>| r@.contains(u) == #[trigger] is_removed(now, u) by {
                    assert(before.contains(u) == is_removed(then, u));
                    if is_removed(then, u) {
                        let k = choose|k: int|
                            0 <= k < then.len() && uppercase(#[trigger] then[k]) == u;
                        assert(now[k] == then[k]);
                    }
                    if is_removed(now, u) {
                        let k = choose|k: int|
                            0 <= k < now.len() && uppercase(#[trigger] now[k]) == u;
                        if k < i {
                            assert(then[k] == now[k]);
                        }
                    }
                }
            }
            i += 1;
        }
        assert(all.take(i as int) =~= all);
        r
    }

    /// Rewrites a pbxproj text with the new UUIDs, and drops lines that hold
    /// unknown UUIDs, with the bodies of the objects that they declare.  Returns
    /// the new text and the number of lines dropped.
    pub fn apply(&self, input: &str) -> (r: Result<(String, usize), ElectrolysisError>)
        requires
            self.wf(),
        ensures
            ({
                let st = rewrite_run(
                    normalised(self.map@),
                    texts(self.to_remove@),
                    lines_of(input@),
                );
                &&& r is Ok
                &&& r->Ok_0.0@ == unlines(st.out)
                &&& r->Ok_0.1 == st.removed
            }),
    {
        let map = self.normalised_map();
        let gone = self.normalised_remove();
        let ghost m = map@;
        let ghost rem = texts(self.to_remove@);
        let uuid = compile(UUID);
        let lines = split_lines(input);
        let ghost ls = texts(lines@);
        let mut out = String::new();
        let mut removed: usize = 0;
        let mut depth: i128 = 0;
        let mut skip_to: Option<i128> = None;
        let mut i: usize = 0;
        proof {
            assert(ls.take(0) =~= Seq::empty());
            lemma_total_len_of_lines(input@);
        }
        while i < lines.len()
            invariant
                i <= lines@.len(),
                ls == texts(lines@),
                map.wf(),
                m == map@,
                forall|u: Seq<char>| gone@.contains(u) == #[trigger] is_removed(rem, u),
                uuid.wf() && uuid.source() == UUID@,
                removed <= i,
                total_len(ls) <= usize::MAX,
                -total_len(ls.take(i as int)) <= depth <= total_len(ls.take(i as int)),
                ({
                    let st = rewrite_run(m, rem, ls.take(i as int));
                    &&& depth == st.depth
                    &&& skip_to is Some == st.skip_to is Some
                    &&& skip_to is Some ==> skip_to->Some_0 == st.skip_to->Some_0
                    &&& out@ == unlines(st.out)
                    &&& removed == st.removed
                }),
            decreases lines.len() - i,
        {
            let line = lines[i].as_str();
            let ghost st = rewrite_run(m, rem, ls.take(i as int));
            proof {
                assert(ls.take(i + 1).drop_last() =~= ls.take(i as int));
                assert(ls.take(i + 1).last() == line@);
                lemma_unlines_push(st.out, new_line(m, line@));
                lemma_total_len_take(ls, i + 1);
            }
            i += 1;
            let before = depth;
            depth = depth + brace_delta(line);
            if let Some(target) = skip_to {
                removed += 1;
                if depth <= target {
                    skip_to = None;
                }
                continue;
            }
            let found = find_all(&uuid, line);
            let uuids = collect_uuids_from_line(line, &found);
            assert(texts(uuids@).len() == uuids@.len());
            let mut orphan = false;
            let mut new: Vec<String> = Vec::new();
            let mut k: usize = 0;
            while k < uuids.len()
                invariant
                    k <= uuids@.len(),
                    k == new@.len(),
                    texts(uuids@) == line_uuids(line@),
                    found@.len() == uuids@.len(),
                    found@.len() == hits(UUID@, line@).len(),
                    forall|k: int|
                        0 <= k < found@.len() ==> crate::pattern::is_found(
                            #[trigger] found@[k],
                            line@,
                            hits(UUID@, line@)[k],
                        ),
                    map.wf(),
                    m == map@,
                    forall|u: Seq<char>| gone@.contains(u) == #[trigger] is_removed(rem, u),
                    orphan == exists|j: int|
                        0 <= j < k && (is_removed(rem, #[trigger] line_uuids(line@)[j]) || lookup(
                            m,
                            line_uuids(line@)[j],
                        ) is None),
                    forall|j: int|
                        0 <= j < k ==> (#[trigger] new@[j])@ == new_uuid_for(
                            m,
                            hits(UUID@, line@)[j],
                        ),
                decreases uuids.len() - k,
            {
                let u = uuids[k].as_str();
                assert(u@ == line_uuids(line@)[k as int]);
                if gone.contains(u) {
                    orphan = true;
                }
                match map.get(u) {
                    Some(n) => {
                        new.push(owned(n.as_str()));
                    },
                    None => {
                        orphan = true;
                        new.push(owned(found[k].first.as_str()));
                    },
                }
                k += 1;
            }
            assert(orphan == is_orphan_line(m, rem, line@));
            if orphan {
                removed += 1;
                if depth > before {
                    skip_to = Some(before);
                }
                continue;
            }
            let parts = split_around(&uuid, line);
            let rewritten = weave(
                line,
                &parts,
                &new,
                Ghost(hits(UUID@, line@)),
                Ghost(|h: Hit| new_uuid_for(m, h)),
            );
            push_line(&mut out, rewritten.as_str());
        }
        proof {
            assert(ls.take(i as int) =~= ls);
        }
        Ok((out, removed))
    }
}

/// Builds the map of new UUIDs for a project, whose root has a name such as
/// `MyApp.xcodeproj`.
pub fn build_unique_map(proj: &PbxProject, proj_root_name: &str) -> (m: UniqueMap)
    ensures
        m.wf(),
        m.holds(registry(proj@, proj_root_name@)),
        m.is_complete(),
        new_uuids_formed(m.entries@),
{
    Uniquifier::new(proj).build_map(proj_root_name)
}

} // verus!
