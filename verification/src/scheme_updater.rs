//! New UUIDs in `.xcscheme` files.
//!
//! The schemes of a project lie outside the project file, in
//! `xcshareddata/xcschemes/*.xcscheme`.  Each `BuildableReference` of a scheme
//! names its target by a `BlueprintIdentifier` attribute, which has to follow
//! when the target gets another UUID.

use crate::filesystem::{grew, Failure, FileSystem, FsCall};
use crate::logger::Logger;
use crate::paths::{below, extension, extension_of, join};
use crate::pattern::{
    compile, find_all, hits, is_found, split_around, Found, Hit, Pattern, BLUEPRINT, BUILDABLE_REF,
    SCHEME_ATTR,
};
use crate::settled_laws::{in_order, lemma_hits_in_order, lemma_places_differ, lemma_replaced_one};
use crate::table::{lookup, Table, TextSet};
use crate::text::{decimal, owned, same, texts, to_uppercase, uppercase, usize_text};
use crate::uniquifier::{concat, replaced, weave};
use vstd::prelude::*;

verus! {

// ── Renamed targets ──────────────────────────────────────────────────────────

/// A blueprint identifier as it is written.
pub open spec fn identifier(u: Seq<char>) -> Seq<char> {
    "BlueprintIdentifier = \""@ + u + "\""@
}

/// The new UUID for an identifier.
pub open spec fn renamed(map: Seq<(Seq<char>, Seq<char>)>, h: Hit) -> Option<Seq<char>> {
    lookup(map, uppercase(h.first))
}

/// An identifier of the text has another UUID in the map.
pub open spec fn holds_old(map: Seq<(Seq<char>, Seq<char>)>, xml: Seq<char>) -> bool {
    exists|k: int|
        0 <= k < hits(BLUEPRINT@, xml).len() && match renamed(
            map,
            #[trigger] hits(BLUEPRINT@, xml)[k],
        ) {
            Some(u) => u != hits(BLUEPRINT@, xml)[k].first,
            None => false,
        }
}

/// How many of the first `k` matches have a property.
pub open spec fn count_until(hs: Seq<Hit>, holds: spec_fn(Hit) -> bool, k: int) -> nat
    decreases k,
{
    if k <= 0 {
        0
    } else if holds(hs[k - 1]) {
        count_until(hs, holds, k - 1) + 1
    } else {
        count_until(hs, holds, k - 1)
    }
}

/// The text with its blueprint identifiers renamed.
pub open spec fn remapped(map: Seq<(Seq<char>, Seq<char>)>, xml: Seq<char>) -> Seq<char> {
    replaced(
        xml,
        hits(BLUEPRINT@, xml),
        |h: Hit|
            match renamed(map, h) {
                Some(u) => identifier(u),
                None => xml.subrange(h.start, h.end),
            },
    )
}

/// How many blueprint identifiers are renamed.
pub open spec fn remap_count(map: Seq<(Seq<char>, Seq<char>)>, xml: Seq<char>) -> nat {
    count_until(
        hits(BLUEPRINT@, xml),
        |h: Hit| renamed(map, h) is Some,
        hits(BLUEPRINT@, xml).len() as int,
    )
}

/// A blueprint identifier as it is written.
fn write_identifier(u: &str) -> (r: String)
    ensures
        r@ == identifier(u@),
{
    let mut r = concat("BlueprintIdentifier = \"", u);
    r.push_str("\"");
    r
}

/// Rewrites every `BlueprintIdentifier` whose UUID has a new one in `map`; the
/// others are left as they are.  Returns the new text and the number of
/// identifiers rewritten.
pub fn remap_blueprint_identifiers(xml: &str, map: &Table<String>) -> (r: (String, usize))
    requires
        map.wf(),
    ensures
        map@.len() == 0 ==> r.0@ == xml@ && r.1 == 0,
        map@.len() > 0 ==> r.0@ == remapped(map@, xml@) && r.1 == remap_count(map@, xml@),
{
    if map.len() == 0 {
        return (owned(xml), 0);
    }
    let blueprint = compile(BLUEPRINT);
    let found = find_all(&blueprint, xml);
    let parts = split_around(&blueprint, xml);
    let ghost hs = hits(BLUEPRINT@, xml@);
    let ghost m = map@;
    let ghost new_text = |h: Hit|
        match renamed(m, h) {
            Some(u) => identifier(u),
            None => xml@.subrange(h.start, h.end),
        };
    let ghost is_renamed = |h: Hit| renamed(m, h) is Some;
    let mut new: Vec<String> = Vec::new();
    let mut count: usize = 0;
    let mut k: usize = 0;
    while k < found.len()
        invariant
            k <= found@.len(),
            found@.len() == hs.len(),
            forall|k: int|
                0 <= k < found@.len() ==> is_found(#[trigger] found@[k], xml@, hs[k]),
            map.wf(),
            m == map@,
            new_text == (|h: Hit|
                match renamed(m, h) {
                    Some(u) => identifier(u),
                    None => xml@.subrange(h.start, h.end),
                }),
            is_renamed == (|h: Hit| renamed(m, h) is Some),
            new@.len() == k,
            forall|j: int| 0 <= j < k ==> (#[trigger] new@[j])@ == new_text(hs[j]),
            count <= k,
            count == count_until(hs, is_renamed, k as int),
        decreases found.len() - k,
    {
        let key = to_uppercase(found[k].first.as_str());
        match map.get(key.as_str()) {
            Some(u) => {
                count += 1;
                new.push(write_identifier(u.as_str()));
            },
            None => {
                new.push(owned(found[k].whole.as_str()));
            },
        }
        k += 1;
    }
    let text = weave(xml, &parts, &new, Ghost(hs), Ghost(new_text));
    (text, count)
}

/// Some `BlueprintIdentifier` does not have its new UUID yet.
fn holds_old_identifier(xml: &str, map: &Table<String>) -> (r: bool)
    requires
        map.wf(),
    ensures
        r == holds_old(map@, xml@),
{
    let found = find_all(&compile(BLUEPRINT), xml);
    let ghost hs = hits(BLUEPRINT@, xml@);
    let mut k: usize = 0;
    while k < found.len()
        invariant
            k <= found@.len(),
            hs == hits(BLUEPRINT@, xml@),
            found@.len() == hs.len(),
            forall|k: int| 0 <= k < found@.len() ==> is_found(#[trigger] found@[k], xml@, hs[k]),
            map.wf(),
            forall|j: int|
                0 <= j < k ==> match renamed(map@, #[trigger] hs[j]) {
                    Some(u) => u == hs[j].first,
                    None => true,
                },
        decreases found.len() - k,
    {
        let key = to_uppercase(found[k].first.as_str());
        assert(is_found(found@[k as int], xml@, hs[k as int]));
        match map.get(key.as_str()) {
            Some(u) => {
                if !same(u.as_str(), found[k].first.as_str()) {
                    assert(renamed(map@, hs[k as int]) is Some);
                    return true;
                }
            },
            None => {},
        }
        k += 1;
    }
    false
}

// ── Orphaned references ──────────────────────────────────────────────────────

/// The first attribute with a name among the first `k` matches.
pub open spec fn named_until(hs: Seq<Hit>, name: Seq<char>, k: int) -> Option<Hit>
    decreases k,
{
    if k <= 0 {
        None
    } else {
        match named_until(hs, name, k - 1) {
            Some(h) => Some(h),
            None => if hs[k - 1].first == name {
                Some(hs[k - 1])
            } else {
                None
            },
        }
    }
}

/// Where an attribute of a tag stands.
pub open spec fn attribute_place(block: Seq<char>, name: Seq<char>) -> Option<Hit> {
    let hs = hits(SCHEME_ATTR@, block);
    named_until(hs, name, hs.len() as int)
}

/// The value of an attribute of a tag.
pub open spec fn attribute(block: Seq<char>, name: Seq<char>) -> Option<Seq<char>> {
    match attribute_place(block, name) {
        Some(h) => Some(h.second),
        None => None,
    }
}

/// The UUID that a reference to this project ought to have: that of the target
/// of its name, if its own is another and is that of no object.
pub open spec fn canonical(
    block: Seq<char>,
    names: Seq<(Seq<char>, Seq<char>)>,
    valid: Set<Seq<char>>,
    container: Seq<char>,
) -> Option<Seq<char>> {
    match (
        attribute(block, "BlueprintIdentifier"@),
        attribute(block, "BlueprintName"@),
        attribute(block, "ReferencedContainer"@),
    ) {
        (Some(id), Some(name), Some(place)) => if place != "container:"@ + container
            || valid.contains(uppercase(id)) || valid.contains(id) {
            None
        } else {
            match lookup(names, name) {
                Some(u) => if u == id {
                    None
                } else {
                    Some(u)
                },
                None => None,
            }
        },
        _ => None,
    }
}

/// A reference with another UUID: its identifier is written anew, where it
/// stands.
pub open spec fn with_identifier(block: Seq<char>, u: Seq<char>) -> Seq<char> {
    match attribute_place(block, "BlueprintIdentifier"@) {
        Some(h) => block.take(h.start) + identifier(u) + block.skip(h.end),
        None => block,
    }
}

/// The text of a reference after the repair.
pub open spec fn repaired_block(
    block: Seq<char>,
    names: Seq<(Seq<char>, Seq<char>)>,
    valid: Set<Seq<char>>,
    container: Seq<char>,
) -> Seq<char> {
    match canonical(block, names, valid, container) {
        Some(u) => with_identifier(block, u),
        None => block,
    }
}

/// The text with its orphaned references repaired.
pub open spec fn repaired(
    xml: Seq<char>,
    names: Seq<(Seq<char>, Seq<char>)>,
    valid: Set<Seq<char>>,
    container: Seq<char>,
) -> Seq<char> {
    replaced(
        xml,
        hits(BUILDABLE_REF@, xml),
        |h: Hit| repaired_block(xml.subrange(h.start, h.end), names, valid, container),
    )
}

/// How many references are repaired.
pub open spec fn repair_count(
    xml: Seq<char>,
    names: Seq<(Seq<char>, Seq<char>)>,
    valid: Set<Seq<char>>,
    container: Seq<char>,
) -> nat {
    count_until(
        hits(BUILDABLE_REF@, xml),
        |h: Hit| canonical(xml.subrange(h.start, h.end), names, valid, container) is Some,
        hits(BUILDABLE_REF@, xml).len() as int,
    )
}

/// Which of the attributes of a tag is the first with a name.
fn find_attribute(found: &Vec<Found>, block: &str, name: &str) -> (r: Option<usize>)
    requires
        found@.len() == hits(SCHEME_ATTR@, block@).len(),
        forall|k: int|
            0 <= k < found@.len() ==> is_found(
                #[trigger] found@[k],
                block@,
                hits(SCHEME_ATTR@, block@)[k],
            ),
    ensures
        r is None == attribute_place(block@, name@) is None,
        r is Some ==> r->Some_0 < found@.len() && attribute_place(block@, name@) == Some(
            hits(SCHEME_ATTR@, block@)[r->Some_0 as int],
        ),
{
    let ghost hs = hits(SCHEME_ATTR@, block@);
    let mut r: Option<usize> = None;
    let mut k: usize = 0;
    while k < found.len()
        invariant
            k <= found@.len(),
            found@.len() == hs.len(),
            forall|k: int|
                0 <= k < found@.len() ==> is_found(#[trigger] found@[k], block@, hs[k]),
            r is None == named_until(hs, name@, k as int) is None,
            r is Some ==> r->Some_0 < k && named_until(hs, name@, k as int) == Some(
                hs[r->Some_0 as int],
            ),
        decreases found.len() - k,
    {
        if r.is_none() && same(found[k].first.as_str(), name) {
            r = Some(k);
        }
        k += 1;
    }
    r
}

/// The tag with attribute `at`, its identifier, written anew.
fn write_tag(block: &str, attr: &Pattern, attrs: &Vec<Found>, at: usize, u: &str) -> (r: String)
    requires
        attr.wf(),
        attr.source() == SCHEME_ATTR@,
        attrs@.len() == hits(SCHEME_ATTR@, block@).len(),
        forall|k: int|
            0 <= k < attrs@.len() ==> is_found(
                #[trigger] attrs@[k],
                block@,
                hits(SCHEME_ATTR@, block@)[k],
            ),
        at < attrs@.len(),
        attribute_place(block@, "BlueprintIdentifier"@) == Some(
            hits(SCHEME_ATTR@, block@)[at as int],
        ),
    ensures
        r@ == with_identifier(block@, u@),
{
    let ghost hs = hits(SCHEME_ATTR@, block@);
    let ghost place = hs[at as int];
    let ghost uuid = u@;
    let ghost new_text = |h: Hit|
        if h == place {
            identifier(uuid)
        } else {
            block@.subrange(h.start, h.end)
        };
    let parts = split_around(attr, block);
    let mut new: Vec<String> = Vec::new();
    let mut k: usize = 0;
    proof {
        lemma_hits_in_order(SCHEME_ATTR@, block@, 0);
    }
    while k < attrs.len()
        invariant
            k <= attrs@.len(),
            attrs@.len() == hs.len(),
            at < attrs@.len(),
            uuid == u@,
            place == hs[at as int],
            forall|k: int|
                0 <= k < attrs@.len() ==> is_found(#[trigger] attrs@[k], block@, hs[k]),
            new_text == (|h: Hit|
                if h == place {
                    identifier(uuid)
                } else {
                    block@.subrange(h.start, h.end)
                }),
            in_order(block@, hs, 0),
            forall|k: int| 0 <= k < hs.len() ==> (#[trigger] hs[k]).start < hs[k].end,
            new@.len() == k,
            forall|j: int| 0 <= j < k ==> (#[trigger] new@[j])@ == new_text(hs[j]),
        decreases attrs.len() - k,
    {
        proof {
            if k != at {
                lemma_places_differ(block@, hs, k as int, at as int);
            }
        }
        if k == at {
            new.push(write_identifier(u));
        } else {
            new.push(owned(attrs[k].whole.as_str()));
        }
        k += 1;
    }
    proof {
        assert forall|i: int| 0 <= i < hs.len() && i != at implies new_text(#[trigger] hs[i])
            == block@.subrange(hs[i].start, hs[i].end) by {
            lemma_places_differ(block@, hs, i, at as int);
        }
        lemma_replaced_one(block@, hs, new_text, at as int);
    }
    weave(block, &parts, &new, Ghost(hs), Ghost(new_text))
}

/// The repaired text of one reference; nothing, if it is left as it is.
fn repair_block(
    block: &str,
    attr: &Pattern,
    name_index: &Table<String>,
    valid_uuids: &TextSet,
    expected_container: &str,
) -> (r: Option<String>)
    requires
        attr.wf(),
        attr.source() == SCHEME_ATTR@,
        name_index.wf(),
    ensures
        r is Some == canonical(block@, name_index@, valid_uuids@, expected_container@) is Some,
        r is Some ==> r->Some_0@ == repaired_block(
            block@,
            name_index@,
            valid_uuids@,
            expected_container@,
        ),
{
    let attrs = find_all(attr, block);
    let at = match find_attribute(&attrs, block, "BlueprintIdentifier") {
        Some(x) => x,
        None => {
            return None;
        },
    };
    let name = match find_attribute(&attrs, block, "BlueprintName") {
        Some(x) => attrs[x].second.as_str(),
        None => {
            return None;
        },
    };
    let place = match find_attribute(&attrs, block, "ReferencedContainer") {
        Some(x) => attrs[x].second.as_str(),
        None => {
            return None;
        },
    };
    let id = attrs[at].second.as_str();
    let expected = concat("container:", expected_container);
    if !same(place, expected.as_str()) {
        return None;
    }
    if valid_uuids.contains(to_uppercase(id).as_str()) || valid_uuids.contains(id) {
        return None;
    }
    match name_index.get(name) {
        Some(u) => {
            if same(u.as_str(), id) {
                None
            } else {
                Some(write_tag(block, attr, &attrs, at, u.as_str()))
            }
        },
        None => None,
    }
}

/// Repairs `BlueprintIdentifier` values that are the UUID of no object, by the
/// name of the target.
///
/// A reference is repaired only if
///
/// 1. its identifier is not in `valid_uuids`,
/// 2. its `BlueprintName` has another UUID in `name_index`, and
/// 3. its `ReferencedContainer` is `container:<expected_container>`.
///
/// Returns the new text and the number of identifiers repaired.
pub fn repair_orphan_blueprint_identifiers(
    xml: &str,
    name_index: &Table<String>,
    valid_uuids: &TextSet,
    expected_container: &str,
) -> (r: (String, usize))
    requires
        name_index.wf(),
    ensures
        name_index@.len() == 0 ==> r.0@ == xml@ && r.1 == 0,
        name_index@.len() > 0 ==> {
            &&& r.0@ == repaired(xml@, name_index@, valid_uuids@, expected_container@)
            &&& r.1 == repair_count(xml@, name_index@, valid_uuids@, expected_container@)
        },
{
    if name_index.len() == 0 {
        return (owned(xml), 0);
    }
    let tag = compile(BUILDABLE_REF);
    let attr = compile(SCHEME_ATTR);
    let found = find_all(&tag, xml);
    let parts = split_around(&tag, xml);
    let ghost hs = hits(BUILDABLE_REF@, xml@);
    let ghost names = name_index@;
    let ghost valid = valid_uuids@;
    let ghost container = expected_container@;
    let ghost new_text = |h: Hit|
        repaired_block(xml@.subrange(h.start, h.end), names, valid, container);
    let ghost is_repaired = |h: Hit|
        canonical(xml@.subrange(h.start, h.end), names, valid, container) is Some;
    let mut new: Vec<String> = Vec::new();
    let mut count: usize = 0;
    let mut k: usize = 0;
    while k < found.len()
        invariant
            k <= found@.len(),
            found@.len() == hs.len(),
            forall|k: int|
                0 <= k < found@.len() ==> is_found(#[trigger] found@[k], xml@, hs[k]),
            attr.wf() && attr.source() == SCHEME_ATTR@,
            name_index.wf(),
            names == name_index@,
            valid == valid_uuids@,
            container == expected_container@,
            new_text == (|h: Hit|
                repaired_block(xml@.subrange(h.start, h.end), names, valid, container)),
            is_repaired == (|h: Hit|
                canonical(xml@.subrange(h.start, h.end), names, valid, container) is Some),
            new@.len() == k,
            forall|j: int| 0 <= j < k ==> (#[trigger] new@[j])@ == new_text(hs[j]),
            count <= k,
            count == count_until(hs, is_repaired, k as int),
        decreases found.len() - k,
    {
        let block = found[k].whole.as_str();
        match repair_block(block, &attr, name_index, valid_uuids, expected_container) {
            Some(text) => {
                count += 1;
                new.push(text);
            },
            None => {
                new.push(owned(block));
            },
        }
        k += 1;
    }
    let text = weave(xml, &parts, &new, Ghost(hs), Ghost(new_text));
    (text, count)
}

// ── All shared schemes ───────────────────────────────────────────────────────

/// What was done to the schemes.
#[derive(Debug, Clone, Copy, PartialEq, Eq, Default)]
pub struct UpdateStats {
    pub files_scanned: usize,
    pub files_modified: usize,
    /// Not counted beyond what the machine can count.
    pub identifiers_replaced: usize,
}

/// The directory of the shared schemes of a bundle.
pub open spec fn schemes_dir(bundle: Seq<char>) -> Seq<char> {
    below(below(bundle, "xcshareddata"@), "xcschemes"@)
}

pub open spec fn is_scheme(path: Seq<char>) -> bool {
    extension_of(path) == Some("xcscheme"@)
}

/// The calls for one file: what is no scheme is left alone; a scheme is read,
/// and written if `edit` changes it.
pub open spec fn is_visit(
    edit: spec_fn(Seq<char>) -> (Seq<char>, nat),
    path: Seq<char>,
    calls: Seq<FsCall>,
) -> bool {
    if !is_scheme(path) {
        calls.len() == 0
    } else {
        &&& calls.len() >= 1
        &&& match calls[0] {
            FsCall::Read { path: p, reply } => p == path && match reply {
                None => calls.len() == 1,
                Some(text) => if edit(text).1 == 0 || edit(text).0 == text {
                    calls.len() == 1
                } else {
                    &&& calls.len() == 2
                    &&& match calls[1] {
                        FsCall::Write { path: q, content, done } => q == path && content == edit(
                            text,
                        ).0,
                        _ => false,
                    }
                },
            },
            _ => false,
        }
    }
}

/// The scheme could not be read.
pub open spec fn read_failed(calls: Seq<FsCall>) -> bool {
    calls.len() == 1 && match calls[0] {
        FsCall::Read { path, reply } => reply is None,
        _ => false,
    }
}

/// The scheme could not be written.
pub open spec fn write_failed(calls: Seq<FsCall>) -> bool {
    calls.len() == 2 && match calls[1] {
        FsCall::Write { path, content, done } => !done,
        _ => false,
    }
}

pub open spec fn visit_failed(calls: Seq<FsCall>) -> bool {
    read_failed(calls) || write_failed(calls)
}

/// How many identifiers a visit replaced.
pub open spec fn visit_count(
    edit: spec_fn(Seq<char>) -> (Seq<char>, nat),
    calls: Seq<FsCall>,
) -> nat {
    if calls.len() == 2 && !visit_failed(calls) {
        match calls[0] {
            FsCall::Read { path, reply } => edit(reply->Some_0).1,
            _ => 0,
        }
    } else {
        0
    }
}

/// The calls of some visits one after another.
pub open spec fn flat(visits: Seq<Seq<FsCall>>) -> Seq<FsCall>
    decreases visits.len(),
{
    if visits.len() == 0 {
        Seq::empty()
    } else {
        flat(visits.drop_last()) + visits.last()
    }
}

/// The files are visited in their order, until a visit fails.
pub open spec fn is_walk(
    edit: spec_fn(Seq<char>) -> (Seq<char>, nat),
    paths: Seq<Seq<char>>,
    visits: Seq<Seq<FsCall>>,
) -> bool {
    &&& visits.len() <= paths.len()
    &&& forall|i: int| 0 <= i < visits.len() ==> is_visit(edit, paths[i], #[trigger] visits[i])
    &&& forall|i: int| 0 <= i < visits.len() - 1 ==> !visit_failed(#[trigger] visits[i])
    &&& visits.len() < paths.len() ==> walk_failed(visits)
}

/// The last visit failed.
pub open spec fn walk_failed(visits: Seq<Seq<FsCall>>) -> bool {
    visits.len() > 0 && visit_failed(visits.last())
}

pub open spec fn scanned(visits: Seq<Seq<FsCall>>) -> nat
    decreases visits.len(),
{
    if visits.len() == 0 {
        0
    } else {
        scanned(visits.drop_last()) + if visits.last().len() > 0 {
            1nat
        } else {
            0nat
        }
    }
}

pub open spec fn modified(visits: Seq<Seq<FsCall>>) -> nat
    decreases visits.len(),
{
    if visits.len() == 0 {
        0
    } else {
        modified(visits.drop_last()) + if visits.last().len() == 2 && !visit_failed(
            visits.last(),
        ) {
            1nat
        } else {
            0nat
        }
    }
}

pub open spec fn replaced_count(
    edit: spec_fn(Seq<char>) -> (Seq<char>, nat),
    visits: Seq<Seq<FsCall>>,
) -> nat
    decreases visits.len(),
{
    if visits.len() == 0 {
        0
    } else {
        replaced_count(edit, visits.drop_last()) + visit_count(edit, visits.last())
    }
}

/// A number, not counted beyond what the machine can count.
pub open spec fn capped(n: nat) -> nat {
    if n <= usize::MAX {
        n
    } else {
        usize::MAX as nat
    }
}

/// `r` is the outcome of the visits.
pub open spec fn is_walk_outcome(
    edit: spec_fn(Seq<char>) -> (Seq<char>, nat),
    paths: Seq<Seq<char>>,
    visits: Seq<Seq<FsCall>>,
    r: Result<UpdateStats, Failure>,
) -> bool {
    match r {
        Ok(stats) => {
            &&& !walk_failed(visits)
            &&& stats.files_scanned == scanned(visits)
            &&& stats.files_modified == modified(visits)
            &&& stats.identifiers_replaced == capped(replaced_count(edit, visits))
        },
        Err(f) => {
            &&& walk_failed(visits)
            &&& f@.len() > 0
            &&& f@[0] == if read_failed(visits.last()) {
                "cannot read "@ + paths[visits.len() - 1]
            } else {
                "cannot write "@ + paths[visits.len() - 1]
            }
        },
    }
}

/// The calls behind the first one are those of the visits, and `r` the outcome.
pub open spec fn are_visits(
    edit: spec_fn(Seq<char>) -> (Seq<char>, nat),
    paths: Seq<Seq<char>>,
    visits: Seq<Seq<FsCall>>,
    calls: Seq<FsCall>,
    r: Result<UpdateStats, Failure>,
) -> bool {
    &&& is_walk(edit, paths, visits)
    &&& calls.skip(1) == flat(visits)
    &&& is_walk_outcome(edit, paths, visits, r)
}

/// `calls` are those of editing the schemes of a bundle, and `r` the outcome.
/// Where the directory cannot be read, there is nothing to edit.
pub open spec fn is_scheme_run(
    edit: spec_fn(Seq<char>) -> (Seq<char>, nat),
    bundle: Seq<char>,
    calls: Seq<FsCall>,
    r: Result<UpdateStats, Failure>,
) -> bool {
    &&& calls.len() >= 1
    &&& calls[0] is List
    &&& calls[0]->dir == schemes_dir(bundle)
    &&& calls[0]->found is None ==> calls.len() == 1 && is_zero(r)
    &&& calls[0]->found is Some ==> exists|visits: Seq<Seq<FsCall>>| #[trigger]
        are_visits(edit, calls[0]->found->Some_0, visits, calls, r)
}

/// Nothing was done.
pub open spec fn is_zero(r: Result<UpdateStats, Failure>) -> bool {
    r is Ok && r->Ok_0.files_scanned == 0 && r->Ok_0.files_modified == 0
        && r->Ok_0.identifiers_replaced == 0
}

/// The edit of renamed targets.  A scheme on the new UUIDs already is left as it
/// is.
pub open spec fn rename_edit(map: Seq<(Seq<char>, Seq<char>)>) -> spec_fn(Seq<char>) -> (
    Seq<char>,
    nat,
) {
    |xml: Seq<char>|
        if holds_old(map, xml) {
            (remapped(map, xml), remap_count(map, xml))
        } else {
            (xml, 0)
        }
}

/// The edit of orphaned references.
pub open spec fn repair_edit(
    names: Seq<(Seq<char>, Seq<char>)>,
    valid: Set<Seq<char>>,
    container: Seq<char>,
) -> spec_fn(Seq<char>) -> (Seq<char>, nat) {
    |xml: Seq<char>|
        (
            repaired(xml, names, valid, container),
            repair_count(xml, names, valid, container),
        )
}

/// What is done to a scheme.
enum Edit<'a> {
    Rename(&'a Table<String>),
    Repair(&'a Table<String>, &'a TextSet, &'a str),
}

impl<'a> Edit<'a> {
    spec fn wf(&self) -> bool {
        match *self {
            Edit::Rename(map) => map.wf() && map@.len() > 0,
            Edit::Repair(names, valid, container) => names.wf() && names@.len() > 0,
        }
    }

    spec fn meaning(&self) -> spec_fn(Seq<char>) -> (Seq<char>, nat) {
        match *self {
            Edit::Rename(map) => rename_edit(map@),
            Edit::Repair(names, valid, container) => repair_edit(names@, valid@, container@),
        }
    }

    fn apply(&self, xml: &str) -> (r: (String, usize))
        requires
            self.wf(),
        ensures
            (r.0@, r.1 as nat) == (self.meaning())(xml@),
    {
        match self {
            Edit::Rename(map) => {
                if holds_old_identifier(xml, map) {
                    remap_blueprint_identifiers(xml, map)
                } else {
                    (owned(xml), 0)
                }
            },
            Edit::Repair(names, valid, container) => repair_orphan_blueprint_identifiers(
                xml,
                names,
                valid,
                container,
            ),
        }
    }

    /// What is said of a scheme with `count` edited identifiers.
    fn done(&self, path: &str, count: usize) -> (r: String)
        ensures
            r@ == match *self {
                Edit::Rename(_) => "  ✓ updated "@ + path@ + " ("@ + decimal(count as nat)
                    + " BlueprintIdentifier(s))"@,
                Edit::Repair(_, _, _) => "  ✓ repaired "@ + path@ + " ("@ + decimal(count as nat)
                    + " orphan BlueprintIdentifier(s))"@,
            },
    {
        let mut message = match self {
            Edit::Rename(_) => owned("  ✓ updated "),
            Edit::Repair(_, _, _) => owned("  ✓ repaired "),
        };
        message.push_str(path);
        message.push_str(" (");
        message.push_str(usize_text(count).as_str());
        match self {
            Edit::Rename(_) => message.push_str(" BlueprintIdentifier(s))"),
            Edit::Repair(_, _, _) => message.push_str(" orphan BlueprintIdentifier(s))"),
        }
        message
    }
}

/// Edits the shared schemes of a bundle.
#[verifier::rlimit(60)]
#[verifier::spinoff_prover]
fn edit_schemes<F: FileSystem, L: Logger>(
    bundle: &str,
    edit: &Edit,
    fs: &mut F,
    logger: &L,
) -> (r: Result<UpdateStats, Failure>)
    requires
        edit.wf(),
    ensures
        exists|calls: Seq<FsCall>|
            {
                &&& #[trigger] grew(old(fs).log(), final(fs).log(), calls)
                &&& is_scheme_run(edit.meaning(), bundle@, calls, r)
            },
{
    let ghost f = edit.meaning();
    let ghost before = fs.log();
    let dir = join(join(bundle, "xcshareddata").as_str(), "xcschemes");
    let listing = fs.list_dir(dir.as_str());
    let ghost first = fs.log().last();
    let mut stats = UpdateStats { files_scanned: 0, files_modified: 0, identifiers_replaced: 0 };
    let paths = match listing {
        Ok(v) => v,
        Err(_) => {
            proof {
                let calls = seq![first];
                assert(grew(before, fs.log(), calls));
                assert(is_scheme_run(f, bundle@, calls, Ok(stats)));
            }
            return Ok(stats);
        },
    };
    let ghost ps = texts(paths@);
    let ghost mut visits: Seq<Seq<FsCall>> = Seq::empty();
    let mut i: usize = 0;
    proof {
        assert(fs.log() =~= before + (seq![first] + flat(visits)));
    }
    while i < paths.len()
        invariant
            i <= paths@.len(),
            ps == texts(paths@),
            edit.wf(),
            f == edit.meaning(),
            first == (FsCall::List { dir: schemes_dir(bundle@), found: Some(ps) }),
            visits.len() == i,
            forall|k: int| 0 <= k < i ==> is_visit(f, ps[k], #[trigger] visits[k]),
            forall|k: int| 0 <= k < i ==> !visit_failed(#[trigger] visits[k]),
            before == old(fs).log(),
            fs.log() == before + (seq![first] + flat(visits)),
            stats.files_scanned == scanned(visits),
            stats.files_scanned <= i,
            stats.files_modified == modified(visits),
            stats.files_modified <= i,
            stats.identifiers_replaced == capped(replaced_count(f, visits)),
        decreases paths.len() - i,
    {
        let path = paths[i].as_str();
        assert(ps[i as int] == path@);
        let ghost log0 = fs.log();
        let ghost visits0 = visits;
        let scheme = match extension(path) {
            Some(e) => same(e.as_str(), "xcscheme"),
            None => false,
        };
        i += 1;
        if !scheme {
            proof {
                visits = visits.push(Seq::empty());
                assert(visits.drop_last() =~= visits0);
                assert(flat(visits) =~= flat(visits0));
            }
            continue;
        }
        stats.files_scanned += 1;
        let content = match fs.read_to_string(path) {
            Ok(c) => c,
            Err(e) => {
                let r = Err(e.context(concat("cannot read ", path)));
                proof {
                    let visit = seq![FsCall::Read { path: path@, reply: None }];
                    visits = visits.push(visit);
                    assert(visits.drop_last() =~= visits0);
                    let calls = seq![first] + flat(visits);
                    assert(calls[0] == first);
                    assert(calls.skip(1) =~= flat(visits));
                    assert(grew(before, fs.log(), calls));
                    assert(is_walk(f, ps, visits));
                    assert(is_walk_outcome(f, ps, visits, r));
                    assert(are_visits(f, calls[0]->found->Some_0, visits, calls, r));
                    assert(is_scheme_run(f, bundle@, calls, r));
                }
                return r;
            },
        };
        let (new_content, count) = edit.apply(content.as_str());
        if count == 0 || same(new_content.as_str(), content.as_str()) {
            proof {
                let visit = seq![FsCall::Read { path: path@, reply: Some(content@) }];
                visits = visits.push(visit);
                assert(visits.drop_last() =~= visits0);
                assert(fs.log() =~= before + (seq![first] + flat(visits)));
            }
            continue;
        }
        match fs.write_atomic(path, new_content.as_str()) {
            Ok(_) => {},
            Err(e) => {
                let r = Err(e.context(concat("cannot write ", path)));
                proof {
                    let visit = seq![
                        FsCall::Read { path: path@, reply: Some(content@) },
                        FsCall::Write { path: path@, content: new_content@, done: false },
                    ];
                    visits = visits.push(visit);
                    assert(visits.drop_last() =~= visits0);
                    let calls = seq![first] + flat(visits);
                    assert(calls[0] == first);
                    assert(calls.skip(1) =~= flat(visits));
                    assert(grew(before, fs.log(), calls));
                    assert(is_walk(f, ps, visits));
                    assert(is_walk_outcome(f, ps, visits, r));
                    assert(are_visits(f, calls[0]->found->Some_0, visits, calls, r));
                    assert(is_scheme_run(f, bundle@, calls, r));
                }
                return r;
            },
        }
        stats.files_modified += 1;
        stats.identifiers_replaced = if count <= usize::MAX - stats.identifiers_replaced {
            stats.identifiers_replaced + count
        } else {
            usize::MAX
        };
        proof {
            let visit = seq![
                FsCall::Read { path: path@, reply: Some(content@) },
                FsCall::Write { path: path@, content: new_content@, done: true },
            ];
            visits = visits.push(visit);
            assert(visits.drop_last() =~= visits0);
            assert(fs.log() =~= before + (seq![first] + flat(visits)));
        }
        logger.verbose(edit.done(path, count).as_str());
    }
    proof {
        let calls = seq![first] + flat(visits);
        assert(calls[0] == first);
        assert(calls.skip(1) =~= flat(visits));
        assert(is_walk(f, ps, visits));
        assert(is_walk_outcome(f, ps, visits, Ok(stats)));
        assert(are_visits(f, calls[0]->found->Some_0, visits, calls, Ok(stats)));
        assert(grew(before, fs.log(), calls));
        assert(is_scheme_run(f, bundle@, calls, Ok(stats)));
    }
    Ok(stats)
}

/// Carries new UUIDs over to every scheme in
/// `<bundle>.xcodeproj/xcshareddata/xcschemes`.  Schemes that need no change are
/// not written; those of single users are not visited.
pub fn update_shared_schemes<F: FileSystem, L: Logger>(
    xcodeproj_dir: &str,
    map: &Table<String>,
    fs: &mut F,
    logger: &L,
) -> (r: Result<UpdateStats, Failure>)
    requires
        map.wf(),
    ensures
        map@.len() == 0 ==> final(fs).log() == old(fs).log() && is_zero(r),
        map@.len() > 0 ==> exists|calls: Seq<FsCall>|
            {
                &&& #[trigger] grew(old(fs).log(), final(fs).log(), calls)
                &&& is_scheme_run(rename_edit(map@), xcodeproj_dir@, calls, r)
            },
{
    if map.len() == 0 {
        return Ok(UpdateStats { files_scanned: 0, files_modified: 0, identifiers_replaced: 0 });
    }
    edit_schemes(xcodeproj_dir, &Edit::Rename(map), fs, logger)
}

/// Repairs orphaned references in every scheme in
/// `<bundle>.xcodeproj/xcshareddata/xcschemes`.
pub fn repair_shared_schemes<F: FileSystem, L: Logger>(
    xcodeproj_dir: &str,
    name_index: &Table<String>,
    valid_uuids: &TextSet,
    expected_container: &str,
    fs: &mut F,
    logger: &L,
) -> (r: Result<UpdateStats, Failure>)
    requires
        name_index.wf(),
    ensures
        name_index@.len() == 0 ==> final(fs).log() == old(fs).log() && is_zero(r),
        name_index@.len() > 0 ==> exists|calls: Seq<FsCall>|
            {
                &&& #[trigger] grew(old(fs).log(), final(fs).log(), calls)
                &&& is_scheme_run(
                    repair_edit(name_index@, valid_uuids@, expected_container@),
                    xcodeproj_dir@,
                    calls,
                    r,
                )
            },
{
    if name_index.len() == 0 {
        return Ok(UpdateStats { files_scanned: 0, files_modified: 0, identifiers_replaced: 0 });
    }
    edit_schemes(
        xcodeproj_dir,
        &Edit::Repair(name_index, valid_uuids, expected_container),
        fs,
        logger,
    )
}

} // verus!
