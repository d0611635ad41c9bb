//! Project maps and their differences.
//!
//! A `ProjectMap` is a deterministic snapshot of a project's structure.  It
//! holds:
//!
//! - the tree of groups and files (the navigator's view),
//! - the targets with their build phases and files,
//! - a table of all UUIDs: new UUID, kind of object, path.
//!
//! All UUIDs of the map are the deterministic ones, so the map is stable as
//! long as the project's structure is.
//!
//! `diff_maps` lists what two maps do not share.

use crate::calendar::{is_timestamp, utc_timestamp};
use crate::listing::{difference, lists, sorted_set, strictly_sorted};
use crate::parser::{field, show_text, str_view, debug_text, PbxProject, PbxValue, Plist, Project};
use crate::plist::{entries, plist, plists};
use crate::table::{lemma_slot, lookup, slot, upsert, Table};
use crate::text::{opt_view, owned, same, slice_to_string, starts_with, texts, to_chars};
use crate::uniquifier::{
    concat, is_object, list_field, or_else, or_text, text_field, Objects, Registered, Rows,
    UniqueMap,
};
use vstd::prelude::*;

verus! {

// ── The tree of groups and files ─────────────────────────────────────────────

/// A group or a file as a mathematical object.
pub ghost struct Node {
    pub uuid: Seq<char>,
    pub isa: Seq<char>,
    pub name: Seq<char>,
    pub path: Option<Seq<char>>,
    pub source_tree: Option<Seq<char>>,
    pub file_type: Option<Seq<char>>,
    pub children: Seq<Node>,
}

/// A group or a file.
#[derive(Debug)]
pub struct FileNode {
    pub uuid: String,
    pub isa: String,
    pub name: String,
    pub path: Option<String>,
    pub source_tree: Option<String>,
    pub file_type: Option<String>,
    pub children: Vec<FileNode>,
}

/// What a node stands for.
pub open spec fn node(n: FileNode) -> Node
    decreases n,
{
    Node {
        uuid: n.uuid@,
        isa: n.isa@,
        name: n.name@,
        path: opt_view(n.path),
        source_tree: opt_view(n.source_tree),
        file_type: opt_view(n.file_type),
        children: Seq::new(
            n.children@.len(),
            |i: int|
                if 0 <= i < n.children@.len() {
                    node(n.children@[i])
                } else {
                    arbitrary()
                },
        ),
    }
}

pub open spec fn nodes(ns: Seq<FileNode>) -> Seq<Node> {
    Seq::new(ns.len(), |i: int| node(ns[i]))
}

/// A copy of a text that may be missing.
fn copy_text(s: &Option<String>) -> (r: Option<String>)
    ensures
        opt_view(r) == opt_view(*s),
{
    match s {
        Some(x) => Some(owned(x.as_str())),
        None => None,
    }
}

impl FileNode {
    /// A copy of this node with all below it.
    pub fn clone(&self) -> (r: FileNode)
        ensures
            node(r) == node(*self),
        decreases node(*self),
    {
        let mut children: Vec<FileNode> = Vec::new();
        let mut i: usize = 0;
        proof {
            assert(node(*self).children =~= nodes(self.children@));
            assert(nodes(children@) =~= nodes(self.children@).take(0));
        }
        while i < self.children.len()
            invariant
                i <= self.children@.len(),
                node(*self).children == nodes(self.children@),
                nodes(children@) == nodes(self.children@).take(i as int),
            decreases self.children.len() - i,
        {
            let ghost before = children@;
            proof {
                let all = node(*self).children;
                assert(all[i as int] == node(self.children@[i as int]));
                assert(decreases_to!(node(*self) => node(*self).children));
                assert(decreases_to!(all => all[i as int]));
            }
            let c = self.children[i].clone();
            children.push(c);
            proof {
                assert(nodes(children@) =~= nodes(before).push(node(c)));
                assert(nodes(self.children@).take(i + 1) =~= nodes(self.children@).take(
                    i as int,
                ).push(node(self.children@[i as int])));
            }
            i += 1;
        }
        let r = FileNode {
            uuid: owned(self.uuid.as_str()),
            isa: owned(self.isa.as_str()),
            name: owned(self.name.as_str()),
            path: copy_text(&self.path),
            source_tree: copy_text(&self.source_tree),
            file_type: copy_text(&self.file_type),
            children,
        };
        proof {
            assert(nodes(self.children@).take(i as int) =~= nodes(self.children@));
            assert(node(r).children =~= nodes(children@));
        }
        r
    }
}

/// The new UUID of an object; its old one, if there is none.
pub open spec fn resolve(map: Seq<(Seq<char>, Seq<char>)>, u: Seq<char>) -> Seq<char> {
    or_text(lookup(map, u), u)
}

/// The text of the first of two fields that an object has.
pub open spec fn first_field(
    os: Objects,
    u: Seq<char>,
    a: Seq<char>,
    b: Seq<char>,
) -> Option<Seq<char>> {
    if field(os, u, a) is Some {
        text_field(os, u, a)
    } else {
        text_field(os, u, b)
    }
}

/// The node of an object with what is below it.  `fuel` bounds the depth: a
/// tree of groups is no deeper than the number of objects.
pub open spec fn file_node(
    os: Objects,
    map: Seq<(Seq<char>, Seq<char>)>,
    u: Seq<char>,
    fuel: nat,
) -> Option<Node>
    decreases fuel, 0nat,
{
    if fuel == 0 || !is_object(os, u) {
        None
    } else {
        Some(
            Node {
                uuid: resolve(map, u),
                isa: or_text(text_field(os, u, "isa"@), "PBXGroup"@),
                name: or_text(
                    or_else(text_field(os, u, "name"@), text_field(os, u, "path"@)),
                    "(unnamed)"@,
                ),
                path: text_field(os, u, "path"@),
                source_tree: text_field(os, u, "sourceTree"@),
                file_type: first_field(os, u, "lastKnownFileType"@, "explicitFileType"@),
                children: file_nodes(os, map, list_field(os, u, "children"@), (fuel - 1) as nat),
            },
        )
    }
}

/// The nodes of those of some objects that there are.
pub open spec fn file_nodes(
    os: Objects,
    map: Seq<(Seq<char>, Seq<char>)>,
    us: Seq<Seq<char>>,
    fuel: nat,
) -> Seq<Node>
    decreases fuel, us.len() + 1,
{
    if us.len() == 0 {
        Seq::empty()
    } else {
        let before = file_nodes(os, map, us.drop_last(), fuel);
        match file_node(os, map, us.last(), fuel) {
            Some(n) => before.push(n),
            None => before,
        }
    }
}

fn resolve_new_uuid(map: &UniqueMap, old_uuid: &str) -> (r: String)
    requires
        map.wf(),
    ensures
        r@ == resolve(map.map@, old_uuid@),
{
    match map.map.get(old_uuid) {
        Some(new) => owned(new.as_str()),
        None => owned(old_uuid),
    }
}

fn opt_owned(s: Option<&str>) -> (r: Option<String>)
    ensures
        opt_view(r) == str_view(s),
{
    match s {
        Some(x) => Some(owned(x)),
        None => None,
    }
}

fn str_or(a: Option<&str>, b: &str) -> (r: String)
    ensures
        r@ == or_text(str_view(a), b@),
{
    match a {
        Some(x) => owned(x),
        None => owned(b),
    }
}

fn list_of(proj: &PbxProject, uuid: &str, name: &str) -> (r: Vec<String>)
    ensures
        texts(r@) == list_field(proj@.objects, uuid@, name@),
{
    match proj.array_field(uuid, name) {
        Some(v) => v,
        None => {
            let v: Vec<String> = Vec::new();
            assert(texts(v@) =~= Seq::empty());
            v
        },
    }
}

pub open spec fn node_view(n: Option<FileNode>) -> Option<Node> {
    match n {
        Some(x) => Some(node(x)),
        None => None,
    }
}

fn build_file_node(proj: &PbxProject, uuid: &str, map: &UniqueMap, fuel: u128) -> (r: Option<
    FileNode,
>)
    requires
        map.wf(),
    ensures
        node_view(r) == file_node(proj@.objects, map.map@, uuid@, fuel as nat),
    decreases fuel,
{
    if fuel == 0 || proj.get_object(uuid).is_none() {
        return None;
    }
    let isa = str_or(proj.isa(uuid), "PBXGroup");
    let name = match proj.str_field(uuid, "name") {
        Some(n) => owned(n),
        None => str_or(proj.str_field(uuid, "path"), "(unnamed)"),
    };
    let file_type = match proj.raw_field(uuid, "lastKnownFileType") {
        Some(v) => v.str_val(),
        None => opt_owned(proj.str_field(uuid, "explicitFileType")),
    };
    let ids = list_of(proj, uuid, "children");
    let ghost us = texts(ids@);
    let mut children: Vec<FileNode> = Vec::new();
    let mut i: usize = 0;
    proof {
        assert(us.take(0) =~= Seq::empty());
        assert(nodes(children@) =~= Seq::empty());
    }
    while i < ids.len()
        invariant
            i <= ids@.len(),
            us == texts(ids@),
            fuel > 0,
            map.wf(),
            nodes(children@) == file_nodes(
                proj@.objects,
                map.map@,
                us.take(i as int),
                (fuel - 1) as nat,
            ),
        decreases ids.len() - i,
    {
        proof {
            assert(us.take(i + 1).drop_last() =~= us.take(i as int));
            assert(us.take(i + 1).last() == ids@[i as int]@);
        }
        let ghost before = children@;
        if let Some(n) = build_file_node(proj, ids[i].as_str(), map, fuel - 1) {
            children.push(n);
            assert(nodes(children@) =~= nodes(before).push(node(n)));
        }
        i += 1;
    }
    assert(us.take(i as int) =~= us);
    let n = FileNode {
        uuid: resolve_new_uuid(map, uuid),
        isa,
        name,
        path: opt_owned(proj.str_field(uuid, "path")),
        source_tree: opt_owned(proj.str_field(uuid, "sourceTree")),
        file_type,
        children,
    };
    assert(node(n).children =~= nodes(children@));
    Some(n)
}

// ── Targets ──────────────────────────────────────────────────────────────────

/// A file of a build phase as a mathematical object.
pub ghost struct PhaseFile {
    pub uuid: Seq<char>,
    pub path: Seq<char>,
    pub settings: Option<Seq<char>>,
}

/// A build phase as a mathematical object.
pub ghost struct Phase {
    pub uuid: Seq<char>,
    pub phase_type: Seq<char>,
    pub name: Option<Seq<char>>,
    pub files: Seq<PhaseFile>,
}

/// A target as a mathematical object.
pub ghost struct Target {
    pub uuid: Seq<char>,
    pub name: Seq<char>,
    pub product_name: Seq<char>,
    pub product_type: Option<Seq<char>>,
    pub configurations: Seq<Seq<char>>,
    pub dependencies: Seq<Seq<char>>,
    pub build_phases: Seq<Phase>,
}

#[derive(Debug)]
pub struct BuildFileMap {
    pub uuid: String,
    /// The path or the name of the file that is referred to.
    pub path: String,
    /// Compiler flags, attributes and the like.
    pub settings: Option<String>,
}

impl View for BuildFileMap {
    type V = PhaseFile;

    open spec fn view(&self) -> PhaseFile {
        PhaseFile { uuid: self.uuid@, path: self.path@, settings: opt_view(self.settings) }
    }
}

#[derive(Debug)]
pub struct BuildPhaseMap {
    pub uuid: String,
    pub phase_type: String,
    pub name: Option<String>,
    pub files: Vec<BuildFileMap>,
}

impl View for BuildPhaseMap {
    type V = Phase;

    open spec fn view(&self) -> Phase {
        Phase {
            uuid: self.uuid@,
            phase_type: self.phase_type@,
            name: opt_view(self.name),
            files: views(self.files@),
        }
    }
}

#[derive(Debug)]
pub struct TargetMap {
    pub uuid: String,
    pub name: String,
    pub product_name: String,
    pub product_type: Option<String>,
    pub configurations: Vec<String>,
    pub dependencies: Vec<String>,
    pub build_phases: Vec<BuildPhaseMap>,
}

impl View for TargetMap {
    type V = Target;

    open spec fn view(&self) -> Target {
        Target {
            uuid: self.uuid@,
            name: self.name@,
            product_name: self.product_name@,
            product_type: opt_view(self.product_type),
            configurations: texts(self.configurations@),
            dependencies: texts(self.dependencies@),
            build_phases: views(self.build_phases@),
        }
    }
}

/// The views of some values.
pub open spec fn views<T: View>(xs: Seq<T>) -> Seq<T::V> {
    Seq::new(xs.len(), |i: int| xs[i]@)
}

pub open spec fn view_of<T: View>(x: Option<T>) -> Option<T::V> {
    match x {
        Some(y) => Some(y@),
        None => None,
    }
}

/// Appends what there is.
pub open spec fn push_some<T>(xs: Seq<T>, x: Option<T>) -> Seq<T> {
    match x {
        Some(y) => xs.push(y),
        None => xs,
    }
}

/// Appends what there is.
fn push_opt<T: View>(xs: &mut Vec<T>, x: Option<T>)
    ensures
        views(final(xs)@) == push_some(views(old(xs)@), view_of(x)),
{
    let ghost before = xs@;
    if let Some(y) = x {
        xs.push(y);
        assert(views(xs@) =~= views(before).push(y@));
    }
}

/// A value in its debug form.
pub open spec fn shown(v: Plist) -> Seq<char>
    decreases v,
{
    match v {
        Plist::Str(s) => "Str("@ + debug_text(s) + ")"@,
        Plist::Dict(es) => "Dict({"@ + shown_entries(es) + "})"@,
        Plist::Array(vs) => "Array(["@ + shown_items(vs) + "])"@,
    }
}

pub open spec fn shown_entries(es: Seq<(Seq<char>, Plist)>) -> Seq<char>
    decreases es,
{
    if es.len() == 0 {
        Seq::empty()
    } else {
        let last = debug_text(es.last().0) + ": "@ + shown(es.last().1);
        if es.len() == 1 {
            last
        } else {
            shown_entries(es.drop_last()) + ", "@ + last
        }
    }
}

pub open spec fn shown_items(vs: Seq<Plist>) -> Seq<char>
    decreases vs,
{
    if vs.len() == 0 {
        Seq::empty()
    } else if vs.len() == 1 {
        shown(vs.last())
    } else {
        shown_items(vs.drop_last()) + ", "@ + shown(vs.last())
    }
}

/// The settings of a build file, if it has any.
pub open spec fn settings_of(os: Objects, u: Seq<char>) -> Option<Seq<char>> {
    match field(os, u, "settings"@) {
        None => None,
        Some(v) => if v == Plist::Dict(Seq::empty()) {
            None
        } else {
            Some(shown(v))
        },
    }
}

/// A build file whose reference resolves.
pub open spec fn phase_file(
    os: Objects,
    map: Seq<(Seq<char>, Seq<char>)>,
    u: Seq<char>,
) -> Option<PhaseFile> {
    match text_field(os, u, "fileRef"@) {
        Some(reference) => if is_object(os, reference) {
            Some(
                PhaseFile {
                    uuid: resolve(map, u),
                    path: or_text(
                        or_else(
                            text_field(os, reference, "path"@),
                            text_field(os, reference, "name"@),
                        ),
                        reference,
                    ),
                    settings: settings_of(os, u),
                },
            )
        } else {
            None
        },
        None => None,
    }
}

pub open spec fn phase_files(
    os: Objects,
    map: Seq<(Seq<char>, Seq<char>)>,
    us: Seq<Seq<char>>,
) -> Seq<PhaseFile>
    decreases us.len(),
{
    if us.len() == 0 {
        Seq::empty()
    } else {
        push_some(phase_files(os, map, us.drop_last()), phase_file(os, map, us.last()))
    }
}

pub open spec fn phase(
    os: Objects,
    map: Seq<(Seq<char>, Seq<char>)>,
    u: Seq<char>,
) -> Option<Phase> {
    if !is_object(os, u) {
        None
    } else {
        Some(
            Phase {
                uuid: resolve(map, u),
                phase_type: or_text(text_field(os, u, "isa"@), "PBXBuildPhase"@),
                name: text_field(os, u, "name"@),
                files: phase_files(os, map, list_field(os, u, "files"@)),
            },
        )
    }
}

pub open spec fn phases(
    os: Objects,
    map: Seq<(Seq<char>, Seq<char>)>,
    us: Seq<Seq<char>>,
) -> Seq<Phase>
    decreases us.len(),
{
    if us.len() == 0 {
        Seq::empty()
    } else {
        push_some(phases(os, map, us.drop_last()), phase(os, map, us.last()))
    }
}

/// The names of those of some objects that have one.
pub open spec fn names(os: Objects, us: Seq<Seq<char>>) -> Seq<Seq<char>>
    decreases us.len(),
{
    if us.len() == 0 {
        Seq::empty()
    } else {
        push_some(names(os, us.drop_last()), text_field(os, us.last(), "name"@))
    }
}

/// The name of the target of a dependency.
pub open spec fn dependency_name(os: Objects, u: Seq<char>) -> Option<Seq<char>> {
    match text_field(os, u, "target"@) {
        Some(t) => text_field(os, t, "name"@),
        None => None,
    }
}

pub open spec fn dependency_names(os: Objects, us: Seq<Seq<char>>) -> Seq<Seq<char>>
    decreases us.len(),
{
    if us.len() == 0 {
        Seq::empty()
    } else {
        push_some(dependency_names(os, us.drop_last()), dependency_name(os, us.last()))
    }
}

pub open spec fn target(
    os: Objects,
    map: Seq<(Seq<char>, Seq<char>)>,
    u: Seq<char>,
) -> Option<Target> {
    if !is_object(os, u) {
        None
    } else {
        let name = or_text(text_field(os, u, "name"@), u);
        let list = or_text(text_field(os, u, "buildConfigurationList"@), Seq::empty());
        Some(
            Target {
                uuid: resolve(map, u),
                name,
                product_name: or_text(text_field(os, u, "productName"@), name),
                product_type: text_field(os, u, "productType"@),
                configurations: names(os, list_field(os, list, "buildConfigurations"@)),
                dependencies: dependency_names(os, list_field(os, u, "dependencies"@)),
                build_phases: phases(os, map, list_field(os, u, "buildPhases"@)),
            },
        )
    }
}

pub open spec fn targets(
    os: Objects,
    map: Seq<(Seq<char>, Seq<char>)>,
    us: Seq<Seq<char>>,
) -> Seq<Target>
    decreases us.len(),
{
    if us.len() == 0 {
        Seq::empty()
    } else {
        push_some(targets(os, map, us.drop_last()), target(os, map, us.last()))
    }
}

/// The names of the project's configurations.
pub open spec fn project_configuration_names(os: Objects, root: Seq<char>) -> Seq<Seq<char>> {
    match text_field(os, root, "buildConfigurationList"@) {
        Some(list) => names(os, list_field(os, list, "buildConfigurations"@)),
        None => Seq::empty(),
    }
}

/// A value in its debug form.
fn show_value(v: &PbxValue) -> (r: String)
    ensures
        r@ == shown(plist(*v)),
    decreases plist(*v),
{
    match v {
        PbxValue::Str(s) => {
            let mut r = concat("Str(", show_text(s.as_str()).as_str());
            r.push_str(")");
            r
        },
        PbxValue::Dict(d) => {
            let ghost es = entries(*d);
            let mut inner = String::new();
            let n: usize = d.len();
            let mut i: usize = 0;
            proof {
                assert(es.take(0) =~= Seq::empty());
                assert(inner@ =~= shown_entries(es.take(0)));
            }
            while i < n
                invariant
                    i <= n,
                    n == es.len(),
                    es == entries(*d),
                    plist(*v) == Plist::Dict(es),
                    inner@ == shown_entries(es.take(i as int)),
                decreases n - i,
            {
                if let Some((k, w)) = d.get_index(i) {
                    proof {
                        let e = es[i as int];
                        assert(plist(*v)->Dict_0 == es);
                        assert(decreases_to!(plist(*v) => plist(*v)->Dict_0));
                        assert(decreases_to!(es => e));
                        assert(decreases_to!(e => e.1));
                        assert(es.take(i + 1).drop_last() =~= es.take(i as int));
                        assert(es.take(i + 1).last() == e);
                    }
                    let shown_w = show_value(w);
                    if i > 0 {
                        inner.push_str(", ");
                    }
                    inner.push_str(show_text(k.as_str()).as_str());
                    inner.push_str(": ");
                    inner.push_str(shown_w.as_str());
                    assert(inner@ =~= shown_entries(es.take(i + 1)));
                }
                i += 1;
            }
            assert(es.take(i as int) =~= es);
            let mut r = concat("Dict({", inner.as_str());
            r.push_str("})");
            r
        },
        PbxValue::Array(a) => {
            let ghost vs = plists(a@);
            let mut inner = String::new();
            let mut i: usize = 0;
            proof {
                assert(plist(*v)->Array_0 =~= vs);
                assert(vs.take(0) =~= Seq::empty());
                assert(inner@ =~= shown_items(vs.take(0)));
            }
            while i < a.len()
                invariant
                    i <= a@.len(),
                    vs == plists(a@),
                    plist(*v) == Plist::Array(vs),
                    inner@ == shown_items(vs.take(i as int)),
                decreases a.len() - i,
            {
                proof {
                    assert(plist(*v)->Array_0 == vs);
                    assert(decreases_to!(plist(*v) => plist(*v)->Array_0));
                    assert(decreases_to!(vs => vs[i as int]));
                    assert(vs.take(i + 1).drop_last() =~= vs.take(i as int));
                    assert(vs.take(i + 1).last() == plist(a@[i as int]));
                }
                let shown_w = show_value(&a[i]);
                if i > 0 {
                    inner.push_str(", ");
                }
                inner.push_str(shown_w.as_str());
                assert(inner@ =~= shown_items(vs.take(i + 1)));
                i += 1;
            }
            assert(vs.take(i as int) =~= vs);
            let mut r = concat("Array([", inner.as_str());
            r.push_str("])");
            r
        },
    }
}

fn build_file_map(proj: &PbxProject, uuid: &str, map: &UniqueMap) -> (r: Option<BuildFileMap>)
    requires
        map.wf(),
    ensures
        view_of(r) == phase_file(proj@.objects, map.map@, uuid@),
{
    let reference = match proj.str_field(uuid, "fileRef") {
        Some(x) => x,
        None => {
            return None;
        },
    };
    if proj.get_object(reference).is_none() {
        return None;
    }
    let path = match proj.str_field(reference, "path") {
        Some(p) => owned(p),
        None => str_or(proj.str_field(reference, "name"), reference),
    };
    let settings = match proj.raw_field(uuid, "settings") {
        Some(v) => {
            let empty = match v.as_dict() {
                Some(d) => d.len() == 0,
                None => false,
            };
            assert(empty == (plist(*v) == Plist::Dict(Seq::empty()))) by {
                if empty {
                    assert(plist(*v)->Dict_0 =~= Seq::empty());
                }
            }
            if empty {
                None
            } else {
                Some(show_value(v))
            }
        },
        None => None,
    };
    Some(BuildFileMap { uuid: resolve_new_uuid(map, uuid), path, settings })
}

fn build_phase_map(proj: &PbxProject, uuid: &str, map: &UniqueMap) -> (r: Option<BuildPhaseMap>)
    requires
        map.wf(),
    ensures
        view_of(r) == phase(proj@.objects, map.map@, uuid@),
{
    if proj.get_object(uuid).is_none() {
        return None;
    }
    let ids = list_of(proj, uuid, "files");
    let ghost us = texts(ids@);
    let mut files: Vec<BuildFileMap> = Vec::new();
    let mut i: usize = 0;
    proof {
        assert(us.take(0) =~= Seq::empty());
        assert(views(files@) =~= Seq::empty());
    }
    while i < ids.len()
        invariant
            i <= ids@.len(),
            us == texts(ids@),
            map.wf(),
            views(files@) == phase_files(proj@.objects, map.map@, us.take(i as int)),
        decreases ids.len() - i,
    {
        proof {
            assert(us.take(i + 1).drop_last() =~= us.take(i as int));
            assert(us.take(i + 1).last() == ids@[i as int]@);
        }
        push_opt(&mut files, build_file_map(proj, ids[i].as_str(), map));
        i += 1;
    }
    assert(us.take(i as int) =~= us);
    Some(
        BuildPhaseMap {
            uuid: resolve_new_uuid(map, uuid),
            phase_type: str_or(proj.isa(uuid), "PBXBuildPhase"),
            name: opt_owned(proj.str_field(uuid, "name")),
            files,
        },
    )
}

/// The names of those of some objects that have one.
fn names_of(proj: &PbxProject, ids: &Vec<String>) -> (r: Vec<String>)
    ensures
        texts(r@) == names(proj@.objects, texts(ids@)),
{
    let ghost us = texts(ids@);
    let mut r: Vec<String> = Vec::new();
    let mut i: usize = 0;
    proof {
        assert(us.take(0) =~= Seq::empty());
        assert(texts(r@) =~= Seq::empty());
    }
    while i < ids.len()
        invariant
            i <= ids@.len(),
            us == texts(ids@),
            texts(r@) == names(proj@.objects, us.take(i as int)),
        decreases ids.len() - i,
    {
        let ghost before = r@;
        proof {
            assert(us.take(i + 1).drop_last() =~= us.take(i as int));
            assert(us.take(i + 1).last() == ids@[i as int]@);
        }
        if let Some(n) = proj.str_field(ids[i].as_str(), "name") {
            let name = owned(n);
            r.push(name);
            assert(r@ =~= before.push(name));
            assert(texts(r@) =~= texts(before).push(name@));
        }
        i += 1;
    }
    assert(us.take(i as int) =~= us);
    r
}

/// The names of the targets of some dependencies.
fn dependencies_of(proj: &PbxProject, ids: &Vec<String>) -> (r: Vec<String>)
    ensures
        texts(r@) == dependency_names(proj@.objects, texts(ids@)),
{
    let ghost us = texts(ids@);
    let mut r: Vec<String> = Vec::new();
    let mut i: usize = 0;
    proof {
        assert(us.take(0) =~= Seq::empty());
        assert(texts(r@) =~= Seq::empty());
    }
    while i < ids.len()
        invariant
            i <= ids@.len(),
            us == texts(ids@),
            texts(r@) == dependency_names(proj@.objects, us.take(i as int)),
        decreases ids.len() - i,
    {
        let ghost before = r@;
        proof {
            assert(us.take(i + 1).drop_last() =~= us.take(i as int));
            assert(us.take(i + 1).last() == ids@[i as int]@);
        }
        if let Some(t) = proj.str_field(ids[i].as_str(), "target") {
            if let Some(n) = proj.str_field(t, "name") {
                let name = owned(n);
                r.push(name);
                assert(r@ =~= before.push(name));
                assert(texts(r@) =~= texts(before).push(name@));
            }
        }
        i += 1;
    }
    assert(us.take(i as int) =~= us);
    r
}

fn build_target_map(proj: &PbxProject, uuid: &str, map: &UniqueMap) -> (r: Option<TargetMap>)
    requires
        map.wf(),
    ensures
        view_of(r) == target(proj@.objects, map.map@, uuid@),
{
    if proj.get_object(uuid).is_none() {
        return None;
    }
    let name = str_or(proj.str_field(uuid, "name"), uuid);
    let product_name = str_or(proj.str_field(uuid, "productName"), name.as_str());
    let list = str_or(proj.str_field(uuid, "buildConfigurationList"), "");
    proof {
        reveal_strlit("");
        assert(""@ =~= Seq::empty());
    }
    let configurations = names_of(proj, &list_of(proj, list.as_str(), "buildConfigurations"));
    let dependencies = dependencies_of(proj, &list_of(proj, uuid, "dependencies"));
    let ids = list_of(proj, uuid, "buildPhases");
    let ghost us = texts(ids@);
    let mut build_phases: Vec<BuildPhaseMap> = Vec::new();
    let mut i: usize = 0;
    proof {
        assert(us.take(0) =~= Seq::empty());
        assert(views(build_phases@) =~= Seq::empty());
    }
    while i < ids.len()
        invariant
            i <= ids@.len(),
            us == texts(ids@),
            map.wf(),
            views(build_phases@) == phases(proj@.objects, map.map@, us.take(i as int)),
        decreases ids.len() - i,
    {
        proof {
            assert(us.take(i + 1).drop_last() =~= us.take(i as int));
            assert(us.take(i + 1).last() == ids@[i as int]@);
        }
        push_opt(&mut build_phases, build_phase_map(proj, ids[i].as_str(), map));
        i += 1;
    }
    assert(us.take(i as int) =~= us);
    Some(
        TargetMap {
            uuid: resolve_new_uuid(map, uuid),
            name,
            product_name,
            product_type: opt_owned(proj.str_field(uuid, "productType")),
            configurations,
            dependencies,
            build_phases,
        },
    )
}

// ── The map ──────────────────────────────────────────────────────────────────

/// What is kept of an object: its kind, and the typed path that its UUID is
/// derived from.
#[derive(Debug)]
pub struct UuidRecord {
    pub isa: String,
    pub path: String,
}

impl View for UuidRecord {
    type V = (Seq<char>, Seq<char>);

    open spec fn view(&self) -> Self::V {
        (self.isa@, self.path@)
    }
}

#[derive(Debug)]
pub struct ProjectMeta {
    pub name: String,
    pub configurations: Vec<String>,
}

#[derive(Debug)]
pub struct ProjectMap {
    /// The version of the format.
    pub version: String,
    /// The time at which the map was made.
    pub generated: String,
    pub project: ProjectMeta,
    pub targets: Vec<TargetMap>,
    pub file_tree: FileNode,
    /// The records of the new UUIDs, in their order.
    pub uuid_table: Vec<(String, UuidRecord)>,
}

/// The rows of a table of UUIDs.
pub open spec fn table_view(t: Seq<(String, UuidRecord)>) -> Seq<
    (Seq<char>, (Seq<char>, Seq<char>)),
> {
    Seq::new(t.len(), |i: int| (t[i].0@, t[i].1@))
}

/// Where the first bracket stands; the length of the text, if there is none.
pub open spec fn bracket(s: Seq<char>) -> nat
    decreases s.len(),
{
    if s.len() == 0 || s[0] == '[' {
        0
    } else {
        1 + bracket(s.drop_first())
    }
}

/// A text without a closing bracket at its end.
pub open spec fn without_bracket(s: Seq<char>) -> Seq<char> {
    if s.len() > 0 && s.last() == ']' {
        s.drop_last()
    } else {
        s
    }
}

/// The kind of a typed path `kind[path]`.
pub open spec fn typed_kind(s: Seq<char>) -> Seq<char> {
    s.take(bracket(s) as int)
}

/// The path of a typed path `kind[path]`.
pub open spec fn typed_rest(s: Seq<char>) -> Seq<char> {
    if bracket(s) < s.len() {
        without_bracket(s.skip(bracket(s) as int + 1))
    } else {
        Seq::empty()
    }
}

pub proof fn lemma_bracket(s: Seq<char>, n: int)
    requires
        0 <= n <= s.len(),
        forall|i: int| 0 <= i < n ==> s[i] != '[',
        n < s.len() ==> s[n] == '[',
    ensures
        bracket(s) == n,
    decreases s.len(),
{
    if n > 0 {
        lemma_bracket(s.drop_first(), n - 1);
    }
}

/// Splits `kind[path]` into its kind and its path.
pub fn split_typed_path(typed: &str) -> (r: (String, String))
    ensures
        r.0@ == typed_kind(typed@),
        r.1@ == typed_rest(typed@),
{
    let cs = to_chars(typed);
    let mut n: usize = 0;
    while n < cs.len() && cs[n] != '['
        invariant
            n <= cs@.len(),
            forall|i: int| 0 <= i < n ==> cs@[i] != '[',
        decreases cs.len() - n,
    {
        n += 1;
    }
    proof {
        lemma_bracket(typed@, n as int);
    }
    let isa = slice_to_string(&cs, 0, n);
    assert(isa@ =~= typed_kind(typed@));
    if n == cs.len() {
        let path = String::new();
        assert(path@ =~= typed_rest(typed@));
        return (isa, path);
    }
    let end: usize = if cs.len() > n + 1 && cs[cs.len() - 1] == ']' {
        cs.len() - 1
    } else {
        cs.len()
    };
    let path = slice_to_string(&cs, n + 1, end);
    assert(path@ =~= typed_rest(typed@));
    (isa, path)
}

/// The records of the registered objects by their new UUIDs.
pub open spec fn records(rows: Rows) -> Seq<(Seq<char>, (Seq<char>, Seq<char>))>
    decreases rows.len(),
{
    if rows.len() == 0 {
        Seq::empty()
    } else {
        let (path, new) = rows.last().1;
        upsert(records(rows.drop_last()), new, (typed_kind(path), path))
    }
}

/// The keys of a table.
pub open spec fn keys<T>(t: Seq<(Seq<char>, T)>) -> Seq<Seq<char>> {
    Seq::new(t.len(), |i: int| t[i].0)
}

/// `rows` are the entries of the table `t` in the order of their keys.
pub open spec fn in_order<T>(rows: Seq<(Seq<char>, T)>, t: Seq<(Seq<char>, T)>) -> bool {
    &&& lists(keys(rows), |k: Seq<char>| lookup(t, k) is Some)
    &&& forall|i: int| 0 <= i < rows.len() ==> lookup(t, (#[trigger] rows[i]).0) == Some(rows[i].1)
}

/// The table of UUIDs for the registered objects.
fn uuid_rows(rows: &Table<Registered>) -> (r: Vec<(String, UuidRecord)>)
    requires
        rows.wf(),
    ensures
        in_order(table_view(r@), records(rows@)),
{
    let mut table: Table<UuidRecord> = Table::new();
    let mut i: usize = 0;
    proof {
        assert(rows@.take(0) =~= Seq::empty());
        assert(table@ =~= records(rows@.take(0)));
    }
    while i < rows.len()
        invariant
            i <= rows@.len(),
            rows.wf(),
            table.wf(),
            table@ == records(rows@.take(i as int)),
        decreases rows@.len() - i,
    {
        proof {
            assert(rows@.take(i + 1).drop_last() =~= rows@.take(i as int));
        }
        let row = rows.val_at(i);
        let (isa, _path) = split_typed_path(row.path.as_str());
        table.set(
            owned(row.uuid.as_str()),
            UuidRecord { isa, path: owned(row.path.as_str()) },
        );
        i += 1;
    }
    assert(rows@.take(i as int) =~= rows@);
    let ghost t = table@;
    let mut unsorted: Vec<String> = Vec::new();
    let mut k: usize = 0;
    proof {
        assert(texts(unsorted@) =~= keys(t).take(0));
    }
    while k < table.len()
        invariant
            k <= t.len(),
            table.wf(),
            t == table@,
            texts(unsorted@) == keys(t).take(k as int),
        decreases t.len() - k,
    {
        let ghost before = unsorted@;
        let key = owned(table.key_at(k));
        unsorted.push(key);
        proof {
            assert(texts(unsorted@) =~= texts(before).push(key@));
            assert(keys(t).take(k + 1) =~= keys(t).take(k as int).push(t[k as int].0));
        }
        k += 1;
    }
    assert(keys(t).take(k as int) =~= keys(t));
    let order = sorted_set(&unsorted);
    let ghost ks = texts(order@);
    proof {
        assert forall|x: Seq<char>| #[trigger] ks.contains(x) <==> lookup(t, x) is Some by {
            lemma_slot(t, x);
            assert(ks.contains(x) <==> keys(t).contains(x));
            if keys(t).contains(x) {
                let j = choose|j: int| 0 <= j < keys(t).len() && keys(t)[j] == x;
                assert(t[j].0 == x);
            }
            if slot(t, x) is Some {
                assert(keys(t)[slot(t, x)->Some_0] == x);
            }
        }
    }
    let mut r: Vec<(String, UuidRecord)> = Vec::new();
    let mut j: usize = 0;
    while j < order.len()
        invariant
            j <= order@.len(),
            ks == texts(order@),
            table.wf(),
            t == table@,
            forall|x: Seq<char>| #[trigger] ks.contains(x) <==> lookup(t, x) is Some,
            r@.len() == j,
            forall|q: int| 0 <= q < j ==> (#[trigger] r@[q]).0@ == ks[q],
            forall|q: int| 0 <= q < j ==> lookup(t, ks[q]) == Some((#[trigger] r@[q]).1@),
        decreases order.len() - j,
    {
        assert(ks.contains(ks[j as int]));
        if let Some(rec) = table.get(order[j].as_str()) {
            let copy = UuidRecord {
                isa: owned(rec.isa.as_str()),
                path: owned(rec.path.as_str()),
            };
            r.push((owned(order[j].as_str()), copy));
        }
        j += 1;
    }
    proof {
        let view = table_view(r@);
        assert(keys(view) =~= ks);
        assert forall|q: int| 0 <= q < view.len() implies lookup(t, (#[trigger] view[q]).0) == Some(
            view[q].1,
        ) by {
            assert(r@[q].0@ == ks[q]);
        }
        let holds = |x: Seq<char>| lookup(t, x) is Some;
        assert(lists(keys(view), holds));
    }
    r
}

/// The project's configurations.
fn project_configurations(proj: &PbxProject, root: &str) -> (r: Vec<String>)
    ensures
        texts(r@) == project_configuration_names(proj@.objects, root@),
{
    match proj.str_field(root, "buildConfigurationList") {
        Some(list) => names_of(proj, &list_of(proj, list, "buildConfigurations")),
        None => {
            let r: Vec<String> = Vec::new();
            assert(texts(r@) =~= Seq::empty());
            r
        },
    }
}

/// The tree of a project: that of its main group, or an empty group.
pub open spec fn project_tree(
    project: Project,
    map: Seq<(Seq<char>, Seq<char>)>,
    name: Seq<char>,
) -> Node {
    let group = or_text(
        text_field(project.objects, project.root_object, "mainGroup"@),
        Seq::empty(),
    );
    match file_node(project.objects, map, group, project.objects.len() + 1) {
        Some(n) => n,
        None => Node {
            uuid: resolve(map, group),
            isa: "PBXGroup"@,
            name,
            path: None,
            source_tree: None,
            file_type: None,
            children: Seq::empty(),
        },
    }
}

/// `m` is the map of a project, apart from the time at which it was made.
pub open spec fn is_map_of(
    m: ProjectMap,
    project: Project,
    rows: Rows,
    map: Seq<(Seq<char>, Seq<char>)>,
    name: Seq<char>,
) -> bool {
    let os = project.objects;
    let root = project.root_object;
    &&& m.version@ == "1"@
    &&& m.project.name@ == name
    &&& texts(m.project.configurations@) == project_configuration_names(os, root)
    &&& views(m.targets@) == targets(os, map, list_field(os, root, "targets"@))
    &&& node(m.file_tree) == project_tree(project, map, name)
    &&& in_order(table_view(m.uuid_table@), records(rows))
}

/// The map of a project, with the time at which it was made.
pub fn build_map_at(
    proj: &PbxProject,
    unique_map: &UniqueMap,
    project_name: &str,
    generated: String,
) -> (m: ProjectMap)
    requires
        unique_map.wf(),
    ensures
        is_map_of(m, proj@, unique_map.entries@, unique_map.map@, project_name@),
        m.generated@ == generated@,
{
    let root = proj.root_object.as_str();
    let uuid_table = uuid_rows(&unique_map.entries);
    let configurations = project_configurations(proj, root);
    let group = str_or(proj.str_field(root, "mainGroup"), "");
    proof {
        reveal_strlit("");
        assert(""@ =~= Seq::empty());
    }
    let fuel: u128 = proj.objects.len() as u128 + 1;
    let file_tree = match build_file_node(proj, group.as_str(), unique_map, fuel) {
        Some(n) => n,
        None => {
            let n = FileNode {
                uuid: resolve_new_uuid(unique_map, group.as_str()),
                isa: owned("PBXGroup"),
                name: owned(project_name),
                path: None,
                source_tree: None,
                file_type: None,
                children: Vec::new(),
            };
            assert(node(n).children =~= Seq::empty());
            n
        },
    };
    let ids = list_of(proj, root, "targets");
    let ghost us = texts(ids@);
    let mut found: Vec<TargetMap> = Vec::new();
    let mut i: usize = 0;
    proof {
        assert(us.take(0) =~= Seq::empty());
        assert(views(found@) =~= Seq::empty());
    }
    while i < ids.len()
        invariant
            i <= ids@.len(),
            us == texts(ids@),
            unique_map.wf(),
            views(found@) == targets(proj@.objects, unique_map.map@, us.take(i as int)),
        decreases ids.len() - i,
    {
        proof {
            assert(us.take(i + 1).drop_last() =~= us.take(i as int));
            assert(us.take(i + 1).last() == ids@[i as int]@);
        }
        push_opt(&mut found, build_target_map(proj, ids[i].as_str(), unique_map));
        i += 1;
    }
    assert(us.take(i as int) =~= us);
    ProjectMap {
        version: owned("1"),
        generated,
        project: ProjectMeta { name: owned(project_name), configurations },
        targets: found,
        file_tree,
        uuid_table,
    }
}

/// The map of a project, made now.
pub fn build_map(proj: &PbxProject, unique_map: &UniqueMap, project_name: &str) -> (m: ProjectMap)
    requires
        unique_map.wf(),
    ensures
        is_map_of(m, proj@, unique_map.entries@, unique_map.map@, project_name@),
        exists|secs: u64| #[trigger] is_timestamp(m.generated@, secs as int),
{
    build_map_at(proj, unique_map, project_name, utc_timestamp())
}

// ── Differences ──────────────────────────────────────────────────────────────

/// The path of a node below `parent`.
pub open spec fn node_path(parent: Seq<char>, name: Seq<char>) -> Seq<char> {
    if parent.len() == 0 {
        name
    } else {
        parent + "/"@ + name
    }
}

/// The entries `kind:path` of a node and of all below it, from top to bottom.
pub open spec fn tree_entries(n: Node, parent: Seq<char>) -> Seq<Seq<char>>
    decreases n,
{
    let path = node_path(parent, n.name);
    seq![n.isa + ":"@ + path] + forest_entries(n.children, path)
}

pub open spec fn forest_entries(ns: Seq<Node>, parent: Seq<char>) -> Seq<Seq<char>>
    decreases ns,
{
    if ns.len() == 0 {
        Seq::empty()
    } else {
        forest_entries(ns.drop_last(), parent) + tree_entries(ns.last(), parent)
    }
}

/// A fingerprint `target/phase/file` of the build files of a phase.
pub open spec fn is_phase_entry(ts: Seq<Target>, x: Seq<char>) -> bool {
    exists|t: int, p: int, f: int| #[trigger] phase_entry_at(ts, t, p, f, x)
}

pub open spec fn phase_entry_at(ts: Seq<Target>, t: int, p: int, f: int, x: Seq<char>) -> bool {
    &&& 0 <= t < ts.len()
    &&& 0 <= p < ts[t].build_phases.len()
    &&& 0 <= f < ts[t].build_phases[p].files.len()
    &&& x == ts[t].name + "/"@ + ts[t].build_phases[p].phase_type + "/"@
        + ts[t].build_phases[p].files[f].path
}

/// Some target has this name.
pub open spec fn is_target_name(ts: Seq<Target>, x: Seq<char>) -> bool {
    exists|t: int| 0 <= t < ts.len() && (#[trigger] ts[t]).name == x
}

/// An entry of the tree that is a group.
pub open spec fn is_group_entry(x: Seq<char>) -> bool {
    "PBXGroup:"@.is_prefix_of(x) || "PBXVariantGroup:"@.is_prefix_of(x)
}

/// The UUIDs by their paths; of rows with one path the last one counts.
pub open spec fn by_path(rows: Seq<(Seq<char>, (Seq<char>, Seq<char>))>) -> Seq<
    (Seq<char>, Seq<char>),
>
    decreases rows.len(),
{
    if rows.len() == 0 {
        Seq::empty()
    } else {
        upsert(by_path(rows.drop_last()), rows.last().1.1, rows.last().0)
    }
}

#[derive(Debug, Clone, Copy, PartialEq, Eq)]
pub enum DiffStatus {
    Identical,
    HasChanges,
}

#[derive(Debug)]
pub struct DiffSection {
    pub targets: Vec<String>,
    pub groups: Vec<String>,
    pub files: Vec<String>,
    /// `target/phase/file` for each file of a build phase.
    pub build_phase_entries: Vec<String>,
}

#[derive(Debug)]
pub struct UuidChange {
    pub path: String,
    pub old_uuid: String,
    pub new_uuid: String,
}

#[derive(Debug)]
pub struct MapDiff {
    pub status: DiffStatus,
    pub added: DiffSection,
    pub removed: DiffSection,
    /// Paths whose UUID has changed.
    pub uuid_changes: Vec<UuidChange>,
}

/// `d` holds what the map `a` has and the map `b` has not.
pub open spec fn is_section(d: DiffSection, a: ProjectMap, b: ProjectMap) -> bool {
    let here = tree_entries(node(a.file_tree), Seq::empty());
    let there = tree_entries(node(b.file_tree), Seq::empty());
    &&& lists(
        texts(d.targets@),
        |x: Seq<char>|
            is_target_name(views(a.targets@), x) && !is_target_name(views(b.targets@), x),
    )
    &&& lists(
        texts(d.groups@),
        |x: Seq<char>| here.contains(x) && !there.contains(x) && is_group_entry(x),
    )
    &&& lists(
        texts(d.files@),
        |x: Seq<char>| here.contains(x) && !there.contains(x) && !is_group_entry(x),
    )
    &&& lists(
        texts(d.build_phase_entries@),
        |x: Seq<char>|
            is_phase_entry(views(a.targets@), x) && !is_phase_entry(views(b.targets@), x),
    )
}

pub open spec fn is_empty_section(d: DiffSection) -> bool {
    d.targets@.len() == 0 && d.groups@.len() == 0 && d.files@.len() == 0
        && d.build_phase_entries@.len() == 0
}

/// The paths of some changes.
pub open spec fn change_paths(cs: Seq<UuidChange>) -> Seq<Seq<char>> {
    Seq::new(cs.len(), |i: int| cs[i].path@)
}

/// The UUID of path `p` differs between the tables `old` and `new`.
pub open spec fn is_changed(
    old_uuids: Seq<(Seq<char>, Seq<char>)>,
    new_uuids: Seq<(Seq<char>, Seq<char>)>,
    p: Seq<char>,
) -> bool {
    lookup(old_uuids, p) is Some && lookup(new_uuids, p) is Some && lookup(old_uuids, p) != lookup(
        new_uuids,
        p,
    )
}

/// `cs` holds the paths whose UUIDs differ, in their order, with the UUIDs.
pub open spec fn are_changes(
    cs: Seq<UuidChange>,
    old_uuids: Seq<(Seq<char>, Seq<char>)>,
    new_uuids: Seq<(Seq<char>, Seq<char>)>,
) -> bool {
    &&& lists(change_paths(cs), |p: Seq<char>| is_changed(old_uuids, new_uuids, p))
    &&& forall|i: int|
        0 <= i < cs.len() ==> lookup(old_uuids, (#[trigger] cs[i]).path@) == Some(
            cs[i].old_uuid@,
        ) && lookup(new_uuids, cs[i].path@) == Some(cs[i].new_uuid@)
}

/// `d` is the difference between the maps `reference` and `current`.
pub open spec fn is_diff(d: MapDiff, reference: ProjectMap, current: ProjectMap) -> bool {
    &&& is_section(d.added, current, reference)
    &&& is_section(d.removed, reference, current)
    &&& are_changes(
        d.uuid_changes@,
        by_path(table_view(reference.uuid_table@)),
        by_path(table_view(current.uuid_table@)),
    )
    &&& d.status == if is_empty_section(d.added) && is_empty_section(d.removed)
        && d.uuid_changes@.len() == 0 {
        DiffStatus::Identical
    } else {
        DiffStatus::HasChanges
    }
}

/// Appends a text.
fn push_string(v: &mut Vec<String>, t: String)
    ensures
        texts(final(v)@) == texts(old(v)@).push(t@),
{
    let ghost before = v@;
    v.push(t);
    assert(texts(v@) =~= texts(before).push(t@));
}

/// Appends the entries of a node and of all below it.
fn collect_tree_entries(n: &FileNode, parent: &str, out: &mut Vec<String>)
    ensures
        texts(final(out)@) == texts(old(out)@) + tree_entries(node(*n), parent@),
    decreases node(*n),
{
    let mut path = owned(parent);
    if !parent.is_empty() {
        path.push_str("/");
    }
    path.push_str(n.name.as_str());
    proof {
        assert(path@ =~= node_path(parent@, n.name@));
        assert(node(*n).children =~= nodes(n.children@));
    }
    let mut entry = concat(n.isa.as_str(), ":");
    entry.push_str(path.as_str());
    push_string(out, entry);
    let ghost start = texts(out@);
    let ghost ns = nodes(n.children@);
    let mut i: usize = 0;
    proof {
        assert(ns.take(0) =~= Seq::empty());
        assert(start + forest_entries(ns.take(0), path@) =~= start);
    }
    while i < n.children.len()
        invariant
            i <= n.children@.len(),
            ns == nodes(n.children@),
            ns == node(*n).children,
            texts(out@) == start + forest_entries(ns.take(i as int), path@),
        decreases n.children.len() - i,
    {
        proof {
            assert(decreases_to!(node(*n) => node(*n).children));
            assert(decreases_to!(ns => ns[i as int]));
            assert(ns.take(i + 1).drop_last() =~= ns.take(i as int));
            assert(ns.take(i + 1).last() == node(n.children@[i as int]));
        }
        collect_tree_entries(&n.children[i], path.as_str(), out);
        proof {
            assert(start + (forest_entries(ns.take(i as int), path@) + tree_entries(
                ns[i as int],
                path@,
            )) =~= (start + forest_entries(ns.take(i as int), path@)) + tree_entries(
                ns[i as int],
                path@,
            ));
        }
        i += 1;
    }
    proof {
        assert(ns.take(i as int) =~= ns);
        assert(texts(out@) =~= texts(old(out)@) + tree_entries(node(*n), parent@));
    }
}

/// The entries of a map's tree.
fn map_entries(m: &ProjectMap) -> (r: Vec<String>)
    ensures
        texts(r@) == tree_entries(node(m.file_tree), Seq::empty()),
{
    let mut r: Vec<String> = Vec::new();
    proof {
        reveal_strlit("");
        assert(""@ =~= Seq::empty());
        assert(texts(r@) =~= Seq::empty());
    }
    collect_tree_entries(&m.file_tree, "", &mut r);
    assert(texts(r@) =~= tree_entries(node(m.file_tree), Seq::empty()));
    r
}

/// The names of a map's targets.
fn target_names(m: &ProjectMap) -> (r: Vec<String>)
    ensures
        forall|x: Seq<char>|
            texts(r@).contains(x) == #[trigger] is_target_name(views(m.targets@), x),
{
    let mut r: Vec<String> = Vec::new();
    let mut i: usize = 0;
    while i < m.targets.len()
        invariant
            i <= m.targets@.len(),
            texts(r@).len() == i,
            forall|k: int| 0 <= k < i ==> #[trigger] texts(r@)[k] == m.targets@[k].name@,
        decreases m.targets.len() - i,
    {
        push_string(&mut r, owned(m.targets[i].name.as_str()));
        i += 1;
    }
    proof {
        let ts = views(m.targets@);
        assert forall|x: Seq<char>| texts(r@).contains(x) == #[trigger] is_target_name(ts, x) by {
            if texts(r@).contains(x) {
                let k = choose|k: int| 0 <= k < texts(r@).len() && texts(r@)[k] == x;
                assert(ts[k].name == x);
            }
            if is_target_name(ts, x) {
                let t = choose|t: int| 0 <= t < ts.len() && (#[trigger] ts[t]).name == x;
                assert(texts(r@)[t] == x);
            }
        }
    }
    r
}

/// The fingerprints of the build files of a map.
fn collect_build_phase_files(m: &ProjectMap) -> (r: Vec<String>)
    ensures
        forall|x: Seq<char>|
            texts(r@).contains(x) == #[trigger] is_phase_entry(views(m.targets@), x),
{
    let ghost ts = views(m.targets@);
    let mut r: Vec<String> = Vec::new();
    let mut t: usize = 0;
    while t < m.targets.len()
        invariant
            t <= m.targets@.len(),
            ts == views(m.targets@),
            forall|x: Seq<char>|
                #![trigger texts(r@).contains(x)]
                texts(r@).contains(x) <==> exists|a: int, b: int, c: int| #[trigger]
                    phase_entry_at(ts, a, b, c, x) && a < t,
        decreases m.targets.len() - t,
    {
        let target = &m.targets[t];
        assert(ts[t as int] == target@);
        let mut p: usize = 0;
        while p < target.build_phases.len()
            invariant
                t < m.targets@.len(),
                p <= target.build_phases@.len(),
                ts == views(m.targets@),
                *target == m.targets@[t as int],
                forall|x: Seq<char>|
                    #![trigger texts(r@).contains(x)]
                    texts(r@).contains(x) <==> exists|a: int, b: int, c: int| #[trigger]
                        phase_entry_at(ts, a, b, c, x) && (a < t || (a == t && b < p)),
            decreases target.build_phases.len() - p,
        {
            let phase = &target.build_phases[p];
            let mut f: usize = 0;
            while f < phase.files.len()
                invariant
                    t < m.targets@.len(),
                    p < target.build_phases@.len(),
                    f <= phase.files@.len(),
                    ts == views(m.targets@),
                    *target == m.targets@[t as int],
                    *phase == target.build_phases@[p as int],
                    forall|x: Seq<char>|
                        #![trigger texts(r@).contains(x)]
                        texts(r@).contains(x) <==> exists|a: int, b: int, c: int| #[trigger]
                            phase_entry_at(ts, a, b, c, x) && (a < t || (a == t && (b < p || (b == p
                                && c < f)))),
                decreases phase.files.len() - f,
            {
                let ghost before = texts(r@);
                let mut entry = concat(target.name.as_str(), "/");
                entry.push_str(phase.phase_type.as_str());
                entry.push_str("/");
                entry.push_str(phase.files[f].path.as_str());
                let ghost e = entry@;
                push_string(&mut r, entry);
                proof {
                    assert(ts[t as int].build_phases[p as int].files[f as int]
                        == phase.files@[f as int]@);
                    assert(phase_entry_at(ts, t as int, p as int, f as int, e));
                    assert(texts(r@) == before.push(e));
                    assert forall|x: Seq<char>|
                        #![trigger texts(r@).contains(x)]
                        texts(r@).contains(x) <==> exists|a: int, b: int, c: int| #[trigger]
                            phase_entry_at(ts, a, b, c, x) && (a < t || (a == t && (b < p || (b == p
                                && c < f + 1)))) by {
                        crate::listing::lemma_push_contains(before, e, x);
                        if exists|a: int, b: int, c: int| #[trigger]
                            phase_entry_at(ts, a, b, c, x) && (a < t || (a == t && (b < p || (b == p
                                && c < f + 1)))) {
                            let (a, b, c) = choose|a: int, b: int, c: int| #[trigger]
                                phase_entry_at(ts, a, b, c, x) && (a < t || (a == t && (b < p || (b
                                    == p && c < f + 1))));
                            if a == t && b == p && c == f {
                                assert(x == e);
                            }
                        }
                    }
                }
                f += 1;
            }
            proof {
                assert forall|x: Seq<char>|
                    #![trigger texts(r@).contains(x)]
                    texts(r@).contains(x) <==> exists|a: int, b: int, c: int| #[trigger]
                        phase_entry_at(ts, a, b, c, x) && (a < t || (a == t && b < p + 1)) by {
                    if exists|a: int, b: int, c: int| #[trigger]
                        phase_entry_at(ts, a, b, c, x) && (a < t || (a == t && b < p + 1)) {
                        let (a, b, c) = choose|a: int, b: int, c: int| #[trigger]
                            phase_entry_at(ts, a, b, c, x) && (a < t || (a == t && b < p + 1));
                        assert(phase_entry_at(ts, a, b, c, x) && (a < t || (a == t && (b < p || (b
                            == p && c < f)))));
                    }
                }
            }
            p += 1;
        }
        proof {
            assert forall|x: Seq<char>|
                #![trigger texts(r@).contains(x)]
                texts(r@).contains(x) <==> exists|a: int, b: int, c: int| #[trigger]
                    phase_entry_at(ts, a, b, c, x) && a < t + 1 by {
                if exists|a: int, b: int, c: int| #[trigger]
                    phase_entry_at(ts, a, b, c, x) && a < t + 1 {
                    let (a, b, c) = choose|a: int, b: int, c: int| #[trigger]
                        phase_entry_at(ts, a, b, c, x) && a < t + 1;
                    assert(phase_entry_at(ts, a, b, c, x) && (a < t || (a == t && b < p)));
                }
            }
        }
        t += 1;
    }
    proof {
        assert forall|x: Seq<char>| texts(r@).contains(x) == #[trigger] is_phase_entry(ts, x) by {
            if is_phase_entry(ts, x) {
                let (a, b, c) = choose|a: int, b: int, c: int| #[trigger]
                    phase_entry_at(ts, a, b, c, x);
                assert(phase_entry_at(ts, a, b, c, x) && a < t);
            }
        }
    }
    r
}

/// The groups, or the other entries, of a sorted list of entries.
fn pick_entries(v: &Vec<String>, groups: bool, Ghost(holds): Ghost<
    spec_fn(Seq<char>) -> bool,
>) -> (r: Vec<String>)
    requires
        lists(texts(v@), holds),
    ensures
        lists(texts(r@), |x: Seq<char>| holds(x) && is_group_entry(x) == groups),
{
    let ghost all = texts(v@);
    let mut r: Vec<String> = Vec::new();
    let mut i: usize = 0;
    while i < v.len()
        invariant
            i <= v@.len(),
            all == texts(v@),
            strictly_sorted(all),
            strictly_sorted(texts(r@)),
            forall|k: int|
                0 <= k < texts(r@).len() ==> exists|j: int|
                    0 <= j < i && all[j] == #[trigger] texts(r@)[k],
            forall|x: Seq<char>|
                #[trigger] texts(r@).contains(x) <==> all.take(i as int).contains(x)
                    && is_group_entry(x) == groups,
        decreases v.len() - i,
    {
        let ghost before = texts(r@);
        let t = v[i].as_str();
        let is_group = starts_with(t, "PBXGroup:") || starts_with(t, "PBXVariantGroup:");
        assert(is_group == is_group_entry(t@));
        assert(t@ == all[i as int]);
        if is_group == groups {
            push_string(&mut r, owned(t));
            proof {
                let now = texts(r@);
                assert forall|a: int, b: int| 0 <= a < b < now.len() implies crate::order::text_le(
                    #[trigger] now[a],
                    #[trigger] now[b],
                ) && now[a] != now[b] by {
                    if b == before.len() {
                        let j = choose|j: int| 0 <= j < i && all[j] == #[trigger] before[a];
                        assert(crate::order::text_le(all[j], all[i as int]));
                    } else {
                        assert(now[a] == before[a] && now[b] == before[b]);
                    }
                }
                assert forall|k: int| 0 <= k < now.len() implies exists|j: int|
                    0 <= j < i + 1 && all[j] == #[trigger] now[k] by {
                    if k < before.len() {
                        let j = choose|j: int| 0 <= j < i && all[j] == #[trigger] before[k];
                        assert(all[j] == now[k]);
                    } else {
                        assert(all[i as int] == now[k]);
                    }
                }
            }
        }
        proof {
            assert(all.take(i + 1) =~= all.take(i as int).push(t@));
            assert forall|x: Seq<char>| #[trigger]
                texts(r@).contains(x) <==> all.take(i + 1).contains(x) && is_group_entry(x)
                    == groups by {
                assert(before.contains(x) <==> all.take(i as int).contains(x) && is_group_entry(x)
                    == groups);
                crate::listing::lemma_push_contains(all.take(i as int), t@, x);
                crate::listing::lemma_push_contains(before, t@, x);
            }
        }
        i += 1;
    }
    proof {
        assert(all.take(i as int) =~= all);
        assert forall|x: Seq<char>| #[trigger]
            texts(r@).contains(x) <==> holds(x) && is_group_entry(x) == groups by {
            assert(all.contains(x) <==> holds(x));
        }
    }
    r
}

/// What the map `a` has and the map `b` has not.
fn section(a: &ProjectMap, b: &ProjectMap) -> (d: DiffSection)
    ensures
        is_section(d, *a, *b),
{
    let here = map_entries(a);
    let there = map_entries(b);
    let ghost h = texts(here@);
    let ghost t = texts(there@);
    let fresh = difference(&here, &there);
    let ghost only_here = |x: Seq<char>| h.contains(x) && !t.contains(x);
    assert(lists(texts(fresh@), only_here));
    let groups = pick_entries(&fresh, true, Ghost(only_here));
    let files = pick_entries(&fresh, false, Ghost(only_here));
    let targets = difference(&target_names(a), &target_names(b));
    let build_phase_entries = difference(
        &collect_build_phase_files(a),
        &collect_build_phase_files(b),
    );
    let d = DiffSection { targets, groups, files, build_phase_entries };
    proof {
        let ta = views(a.targets@);
        let tb = views(b.targets@);
        assert forall|x: Seq<char>| #[trigger] texts(groups@).contains(x) <==> h.contains(x)
            && !t.contains(x) && is_group_entry(x) by {
            assert(texts(groups@).contains(x) <==> only_here(x) && is_group_entry(x) == true);
        }
        assert forall|x: Seq<char>| #[trigger] texts(files@).contains(x) <==> h.contains(x)
            && !t.contains(x) && !is_group_entry(x) by {
            assert(texts(files@).contains(x) <==> only_here(x) && is_group_entry(x) == false);
        }
        assert forall|x: Seq<char>| #[trigger] texts(targets@).contains(x) <==> is_target_name(
            ta,
            x,
        ) && !is_target_name(tb, x) by {}
        assert forall|x: Seq<char>| #[trigger]
            texts(build_phase_entries@).contains(x) <==> is_phase_entry(ta, x) && !is_phase_entry(
            tb,
            x,
        ) by {}
    }
    d
}

/// The UUIDs of a table by their paths.
fn paths_table(rows: &Vec<(String, UuidRecord)>) -> (t: Table<String>)
    ensures
        t.wf(),
        t@ == by_path(table_view(rows@)),
{
    let ghost all = table_view(rows@);
    let mut t: Table<String> = Table::new();
    let mut i: usize = 0;
    proof {
        assert(all.take(0) =~= Seq::empty());
        assert(t@ =~= by_path(all.take(0)));
    }
    while i < rows.len()
        invariant
            i <= rows@.len(),
            all == table_view(rows@),
            t.wf(),
            t@ == by_path(all.take(i as int)),
        decreases rows.len() - i,
    {
        proof {
            assert(all.take(i + 1).drop_last() =~= all.take(i as int));
            assert(all.take(i + 1).last() == (rows@[i as int].0@, rows@[i as int].1@));
        }
        t.set(owned(rows[i].1.path.as_str()), owned(rows[i].0.as_str()));
        i += 1;
    }
    assert(all.take(i as int) =~= all);
    t
}

/// The paths whose UUIDs differ.
fn uuid_changes(old_rows: &Vec<(String, UuidRecord)>, new_rows: &Vec<(String, UuidRecord)>) -> (r:
    Vec<UuidChange>)
    ensures
        are_changes(r@, by_path(table_view(old_rows@)), by_path(table_view(new_rows@))),
{
    let old_table = paths_table(old_rows);
    let new_table = paths_table(new_rows);
    let ghost o = old_table@;
    let ghost n = new_table@;
    let mut paths: Vec<String> = Vec::new();
    let mut i: usize = 0;
    while i < old_table.len()
        invariant
            i <= o.len(),
            old_table.wf(),
            o == old_table@,
            texts(paths@) == keys(o).take(i as int),
        decreases o.len() - i,
    {
        push_string(&mut paths, owned(old_table.key_at(i)));
        assert(keys(o).take(i + 1) =~= keys(o).take(i as int).push(o[i as int].0));
        i += 1;
    }
    proof {
        assert(keys(o).take(i as int) =~= keys(o));
    }
    let order = sorted_set(&paths);
    let ghost ps = texts(order@);
    proof {
        assert forall|x: Seq<char>| #[trigger] ps.contains(x) <==> lookup(o, x) is Some by {
            lemma_slot(o, x);
            assert(ps.contains(x) <==> keys(o).contains(x));
            if keys(o).contains(x) {
                let j = choose|j: int| 0 <= j < keys(o).len() && keys(o)[j] == x;
                assert(o[j].0 == x);
            }
            if slot(o, x) is Some {
                assert(keys(o)[slot(o, x)->Some_0] == x);
            }
        }
    }
    let mut r: Vec<UuidChange> = Vec::new();
    let mut k: usize = 0;
    while k < order.len()
        invariant
            k <= order@.len(),
            ps == texts(order@),
            strictly_sorted(ps),
            forall|x: Seq<char>| #[trigger] ps.contains(x) <==> lookup(o, x) is Some,
            old_table.wf(),
            new_table.wf(),
            o == old_table@,
            n == new_table@,
            strictly_sorted(change_paths(r@)),
            forall|q: int|
                0 <= q < r@.len() ==> exists|j: int|
                    0 <= j < k && ps[j] == #[trigger] change_paths(r@)[q],
            forall|x: Seq<char>|
                #[trigger] change_paths(r@).contains(x) <==> ps.take(k as int).contains(x)
                    && is_changed(o, n, x),
            forall|q: int|
                0 <= q < r@.len() ==> lookup(o, (#[trigger] r@[q]).path@) == Some(
                    r@[q].old_uuid@,
                ) && lookup(n, r@[q].path@) == Some(r@[q].new_uuid@),
        decreases order.len() - k,
    {
        let ghost before = r@;
        let ghost earlier = change_paths(r@);
        let path = order[k].as_str();
        proof {
            assert(ps[k as int] == path@);
            assert(ps.contains(path@));
            assert(ps.take(k + 1) =~= ps.take(k as int).push(path@));
        }
        let mut pushed = false;
        if let Some(a) = old_table.get(path) {
            if let Some(b) = new_table.get(path) {
                if !same(a.as_str(), b.as_str()) {
                    r.push(
                        UuidChange {
                            path: owned(path),
                            old_uuid: owned(a.as_str()),
                            new_uuid: owned(b.as_str()),
                        },
                    );
                    pushed = true;
                }
            }
        }
        proof {
            let now = change_paths(r@);
            if pushed {
                assert(now =~= earlier.push(path@));
                assert forall|a: int, b: int| 0 <= a < b < now.len() implies crate::order::text_le(
                    #[trigger] now[a],
                    #[trigger] now[b],
                ) && now[a] != now[b] by {
                    if b == earlier.len() {
                        let j = choose|j: int| 0 <= j < k && ps[j] == #[trigger] earlier[a];
                        assert(crate::order::text_le(ps[j], ps[k as int]));
                    } else {
                        assert(now[a] == earlier[a] && now[b] == earlier[b]);
                    }
                }
                assert forall|q: int| 0 <= q < now.len() implies exists|j: int|
                    0 <= j < k + 1 && ps[j] == #[trigger] now[q] by {
                    if q < earlier.len() {
                        let j = choose|j: int| 0 <= j < k && ps[j] == #[trigger] earlier[q];
                        assert(ps[j] == now[q]);
                    } else {
                        assert(ps[k as int] == now[q]);
                    }
                }
                assert forall|q: int| 0 <= q < r@.len() implies lookup(
                    o,
                    (#[trigger] r@[q]).path@,
                ) == Some(r@[q].old_uuid@) && lookup(n, r@[q].path@) == Some(r@[q].new_uuid@) by {
                    if q < before.len() {
                        assert(r@[q] == before[q]);
                    }
                }
            } else {
                assert(r@ == before);
            }
            assert(pushed == is_changed(o, n, path@));
            assert forall|x: Seq<char>| #[trigger]
                now.contains(x) <==> ps.take(k + 1).contains(x) && is_changed(o, n, x) by {
                assert(earlier.contains(x) <==> ps.take(k as int).contains(x) && is_changed(
                    o,
                    n,
                    x,
                ));
                crate::listing::lemma_push_contains(ps.take(k as int), path@, x);
                crate::listing::lemma_push_contains(earlier, path@, x);
            }
        }
        k += 1;
    }
    proof {
        assert(ps.take(k as int) =~= ps);
        let holds = |p: Seq<char>| is_changed(o, n, p);
        assert forall|x: Seq<char>| #[trigger] change_paths(r@).contains(x) <==> holds(x) by {
            assert(ps.contains(x) <==> lookup(o, x) is Some);
        }
    }
    r
}

/// Compares two maps.
pub fn diff_maps(reference: &ProjectMap, current: &ProjectMap) -> (d: MapDiff)
    ensures
        is_diff(d, *reference, *current),
{
    let added = section(current, reference);
    let removed = section(reference, current);
    let changes = uuid_changes(&reference.uuid_table, &current.uuid_table);
    let same_maps = section_is_empty(&added) && section_is_empty(&removed) && changes.len() == 0;
    let status = if same_maps {
        DiffStatus::Identical
    } else {
        DiffStatus::HasChanges
    };
    MapDiff { status, added, removed, uuid_changes: changes }
}

fn section_is_empty(d: &DiffSection) -> (r: bool)
    ensures
        r == is_empty_section(*d),
{
    d.targets.len() == 0 && d.groups.len() == 0 && d.files.len() == 0
        && d.build_phase_entries.len() == 0
}

} // verus!
