//! The passes from file to file.

use crate::calendar::is_timestamp;
use crate::config::Config;
use crate::error::ElectrolysisError;
pub use crate::filesystem::{Failure, FileSystem, FsCall, InMemoryFileSystem};
use crate::filesystem::{grew, text_reply};
use crate::logger::Logger;
use crate::mapper::{build_map, diff_maps, is_diff, is_map_of, push_some, MapDiff, ProjectMap};
pub use crate::paths::infer_project_name;
use crate::paths::{
    default_map_path, dir_of, directory, extended, map_path, project_name, with_extension,
};
use crate::parser::{complaint, parse_project, project_in, PbxProject, Project};
use crate::plist::entries;
use crate::sanitizer::{sanitize, sanitized, SanitizeStats};
use crate::scheme_updater::{
    is_scheme_run, rename_edit, repair_edit, repair_shared_schemes, update_shared_schemes,
    UpdateStats,
};
use crate::sorter::{sort_with, sorted_text, SortStats};
use crate::table::{lemma_no_slot, lookup, Table, TextSet};
use crate::text::{
    decimal, lines_of, opt_view, owned, same, split_lines, texts, to_uppercase, unlines, uppercase,
    usize_text,
};
use crate::uniquifier::{
    build_unique_map, concat, list_field, new_uuids, normalised, or_text, registry, rewrite_run,
    text_field, Objects, UniqueMap,
};
use vstd::prelude::*;

verus! {

// ── Checks ───────────────────────────────────────────────────────────────────

/// The outermost message of a failure.
pub open spec fn says<T>(r: Result<T, Failure>, message: Seq<char>) -> bool {
    r is Err && r->Err_0@.len() > 0 && r->Err_0@[0] == message
}

/// The outermost message of a failure; nothing for a success.
pub open spec fn said<T>(r: Result<T, Failure>) -> Option<Seq<char>> {
    match r {
        Ok(_) => None,
        Err(f) => Some(f@[0]),
    }
}

/// A failure with these messages.
pub open spec fn fails<T>(r: Result<T, Failure>, messages: Seq<Seq<char>>) -> bool {
    r is Err && r->Err_0@ =~= messages
}

/// A parse error as a failure, with a message before it.
pub(crate) fn parse_failure(e: ElectrolysisError, message: &str) -> (f: Failure)
    ensures
        f@.len() == 2,
        f@[0] == message@,
        e is Parse ==> f@[1] == "Parse error at line "@ + decimal(e->line as nat) + ": "@
            + e->message@,
        e is Structure ==> f@[1] == "Project structure error: "@ + e->Structure_0@,
{
    Failure::new(e.to_string()).context(owned(message))
}

/// What is said of a result that does not parse.
pub open spec fn invalid_result() -> Seq<char> {
    "post-process validation failed: the pipeline produced an invalid pbxproj. This is a bug — please report it"@
}

/// Checks that a result is a project.
pub fn validate_pbxproj(content: &str) -> (r: Result<(), Failure>)
    ensures
        r is Ok == project_in(content@) is Some,
        r is Err ==> fails(r, seq![invalid_result(), complaint(content@)]),
{
    match parse_project(content) {
        Ok(_) => Ok(()),
        Err(e) => Err(
            parse_failure(
                e,
                "post-process validation failed: the pipeline produced an invalid pbxproj. This is a bug — please report it",
            ),
        ),
    }
}

// ── What the repair of schemes needs ─────────────────────────────────────────

/// The new UUID of an object.
pub open spec fn translated(map: Seq<(Seq<char>, Seq<char>)>, old_uuid: Seq<char>) -> Seq<char> {
    or_text(lookup(map, uppercase(old_uuid)), old_uuid)
}

/// A native or aggregate target with a name: that name and its new UUID.
pub open spec fn named_target(
    os: Objects,
    map: Seq<(Seq<char>, Seq<char>)>,
    u: Seq<char>,
) -> Option<(Seq<char>, Seq<char>)> {
    let isa = text_field(os, u, "isa"@);
    match text_field(os, u, "name"@) {
        Some(name) => if isa == Some("PBXNativeTarget"@) || isa == Some("PBXAggregateTarget"@) {
            Some((name, translated(map, u)))
        } else {
            None
        },
        None => None,
    }
}

pub open spec fn named_targets(
    os: Objects,
    map: Seq<(Seq<char>, Seq<char>)>,
    us: Seq<Seq<char>>,
) -> Seq<(Seq<char>, Seq<char>)>
    decreases us.len(),
{
    if us.len() == 0 {
        Seq::empty()
    } else {
        push_some(named_targets(os, map, us.drop_last()), named_target(os, map, us.last()))
    }
}

/// No other entry has the key of entry `i`.
pub open spec fn is_unambiguous(es: Seq<(Seq<char>, Seq<char>)>, i: int) -> bool {
    forall|j: int| 0 <= j < es.len() && j != i ==> (#[trigger] es[j]).0 != es[i].0
}

/// Those of the first `n` entries whose key no other entry has.
pub open spec fn unambiguous(es: Seq<(Seq<char>, Seq<char>)>, n: int) -> Seq<
    (Seq<char>, Seq<char>),
>
    decreases n,
{
    if n <= 0 {
        Seq::empty()
    } else if is_unambiguous(es, n - 1) {
        unambiguous(es, n - 1).push(es[n - 1])
    } else {
        unambiguous(es, n - 1)
    }
}

/// The new UUIDs of the targets whose names are not shared, by their names.
pub open spec fn name_index(project: Project, map: Seq<(Seq<char>, Seq<char>)>) -> Seq<
    (Seq<char>, Seq<char>),
> {
    let es = named_targets(
        project.objects,
        map,
        list_field(project.objects, project.root_object, "targets"@),
    );
    unambiguous(es, es.len() as int)
}

/// The new UUIDs of all objects.
pub open spec fn valid_uuids(project: Project, map: Seq<(Seq<char>, Seq<char>)>) -> Set<Seq<char>> {
    Set::new(
        |u: Seq<char>|
            exists|i: int|
                0 <= i < project.objects.len() && translated(
                    map,
                    (#[trigger] project.objects[i]).0,
                ) == u,
    )
}

fn translate(map: &Table<String>, old_uuid: &str) -> (r: String)
    requires
        map.wf(),
    ensures
        r@ == translated(map@, old_uuid@),
{
    match map.get(to_uppercase(old_uuid).as_str()) {
        Some(u) => owned(u.as_str()),
        None => owned(old_uuid),
    }
}

/// A name and a UUID.
struct Named {
    name: String,
    uuid: String,
}

spec fn named_view(v: Seq<Named>) -> Seq<(Seq<char>, Seq<char>)> {
    Seq::new(v.len(), |i: int| (v[i].name@, v[i].uuid@))
}

fn find_named_targets(proj: &PbxProject, map: &Table<String>) -> (r: Vec<Named>)
    requires
        map.wf(),
    ensures
        named_view(r@) == named_targets(
            proj@.objects,
            map@,
            list_field(proj@.objects, proj@.root_object, "targets"@),
        ),
{
    let ids = match proj.array_field(proj.root_object.as_str(), "targets") {
        Some(v) => v,
        None => Vec::new(),
    };
    let ghost us = texts(ids@);
    proof {
        assert(us =~= list_field(proj@.objects, proj@.root_object, "targets"@));
    }
    let mut r: Vec<Named> = Vec::new();
    let mut i: usize = 0;
    proof {
        assert(us.take(0) =~= Seq::empty());
        assert(named_view(r@) =~= Seq::empty());
    }
    while i < ids.len()
        invariant
            i <= ids@.len(),
            us == texts(ids@),
            map.wf(),
            named_view(r@) == named_targets(proj@.objects, map@, us.take(i as int)),
        decreases ids.len() - i,
    {
        let ghost before = r@;
        let uuid = ids[i].as_str();
        proof {
            assert(us.take(i + 1).drop_last() =~= us.take(i as int));
            assert(us.take(i + 1).last() == uuid@);
        }
        let is_target = match proj.isa(uuid) {
            Some(isa) => same(isa, "PBXNativeTarget") || same(isa, "PBXAggregateTarget"),
            None => false,
        };
        if is_target {
            if let Some(name) = proj.str_field(uuid, "name") {
                let named = Named { name: owned(name), uuid: translate(map, uuid) };
                r.push(named);
                assert(named_view(r@) =~= named_view(before).push((named.name@, named.uuid@)));
            }
        }
        i += 1;
    }
    assert(us.take(i as int) =~= us);
    r
}

/// What the repair of orphaned references in schemes needs: the new UUIDs of
/// the targets by their names, without those that share a name, and the UUIDs
/// of all objects.
pub fn build_scheme_repair_inputs(proj: &PbxProject, map: &Table<String>) -> (r: (
    Table<String>,
    TextSet,
))
    requires
        map.wf(),
    ensures
        r.0.wf(),
        r.0@ == name_index(proj@, map@),
        r.1@ == valid_uuids(proj@, map@),
{
    let named = find_named_targets(proj, map);
    let ghost es = named_view(named@);
    let mut index: Table<String> = Table::new();
    let mut i: usize = 0;
    proof {
        assert(index@ =~= unambiguous(es, 0));
    }
    while i < named.len()
        invariant
            i <= named@.len(),
            es == named_view(named@),
            index.wf(),
            index@ == unambiguous(es, i as int),
            forall|k: int|
                0 <= k < index@.len() ==> exists|j: int|
                    0 <= j < i && es[j] == #[trigger] index@[k],
        decreases named.len() - i,
    {
        let mut alone = true;
        let mut j: usize = 0;
        while j < named.len()
            invariant
                i < named@.len(),
                j <= named@.len(),
                es == named_view(named@),
                alone == forall|q: int|
                    0 <= q < j && q != i ==> (#[trigger] es[q]).0 != es[i as int].0,
            decreases named.len() - j,
        {
            if j != i && same(named[j].name.as_str(), named[i].name.as_str()) {
                assert(es[j as int].0 == es[i as int].0);
                alone = false;
            }
            j += 1;
        }
        assert(alone == is_unambiguous(es, i as int));
        if alone {
            let ghost before = index@;
            proof {
                assert forall|k: int| 0 <= k < before.len() implies (#[trigger] before[k]).0
                    != es[i as int].0 by {
                    let q = choose|q: int| 0 <= q < i && es[q] == #[trigger] before[k];
                    assert(es[q].0 != es[i as int].0);
                }
                lemma_no_slot(before, es[i as int].0);
            }
            index.set(owned(named[i].name.as_str()), owned(named[i].uuid.as_str()));
            proof {
                assert(index@ =~= before.push(es[i as int]));
                assert forall|k: int| 0 <= k < index@.len() implies exists|q: int|
                    0 <= q < i + 1 && es[q] == #[trigger] index@[k] by {
                    if k < before.len() {
                        let q = choose|q: int| 0 <= q < i && es[q] == #[trigger] before[k];
                        assert(es[q] == index@[k]);
                    } else {
                        assert(es[i as int] == index@[k]);
                    }
                }
            }
        }
        i += 1;
    }
    let ghost os = proj@.objects;
    let mut valid = TextSet::new();
    let n: usize = proj.objects.len();
    let mut k: usize = 0;
    while k < n
        invariant
            k <= n,
            n == os.len(),
            os == entries(proj.objects),
            map.wf(),
            forall|u: Seq<char>| #[trigger]
                valid@.contains(u) <==> exists|q: int|
                    0 <= q < k && translated(map@, (#[trigger] os[q]).0) == u,
        decreases n - k,
    {
        let ghost before = valid@;
        if let Some((uuid, _)) = proj.objects.get_index(k) {
            let new_uuid = translate(map, uuid.as_str());
            let ghost t = new_uuid@;
            valid.insert(new_uuid);
            proof {
                assert(translated(map@, os[k as int].0) == t);
                assert forall|u: Seq<char>| #[trigger]
                    valid@.contains(u) <==> exists|q: int|
                        0 <= q < k + 1 && translated(map@, (#[trigger] os[q]).0) == u by {
                    assert(before.contains(u) <==> exists|q: int|
                        0 <= q < k && translated(map@, (#[trigger] os[q]).0) == u);
                    if before.contains(u) {
                        let q = choose|q: int|
                            0 <= q < k && translated(map@, (#[trigger] os[q]).0) == u;
                        assert(0 <= q < k + 1 && translated(map@, os[q].0) == u);
                    }
                }
            }
        }
        k += 1;
    }
    assert(valid@ =~= valid_uuids(proj@, map@));
    (index, valid)
}

// ── What is said of the passes ───────────────────────────────────────────────

/// A line of the report, for a number that is not zero.
pub open spec fn report_line(verb: Seq<char>, n: usize, what: Seq<char>) -> Option<Seq<char>> {
    if n > 0 {
        Some("  ✓ "@ + verb + decimal(n as nat) + what)
    } else {
        None
    }
}

/// The report on the repair of a text.
pub open spec fn sanitize_report(s: SanitizeStats) -> Seq<Seq<char>> {
    let a = push_some(
        Seq::empty(),
        report_line("resolved "@, s.conflict_hunks_resolved, " merge conflict hunk(s)"@),
    );
    let b = push_some(
        a,
        report_line("removed "@, s.duplicate_objects_removed, " duplicate object(s)"@),
    );
    let c = push_some(
        b,
        report_line("removed "@, s.duplicate_list_items_removed, " duplicate list item(s)"@),
    );
    let d = push_some(
        c,
        report_line("removed "@, s.orphan_sections_removed, " orphan section(s)"@),
    );
    push_some(
        d,
        report_line("removed "@, s.orphan_object_bodies_removed, " orphan object body line(s)"@),
    )
}

/// Appends a line of the report, for a number that is not zero.
fn push_report(out: &mut Vec<String>, verb: &str, n: usize, what: &str)
    ensures
        texts(final(out)@) == push_some(texts(old(out)@), report_line(verb@, n, what@)),
{
    if n > 0 {
        let ghost before = out@;
        let mut line = concat("  ✓ ", verb);
        line.push_str(usize_text(n).as_str());
        line.push_str(what);
        out.push(line);
        assert(texts(out@) =~= texts(before).push(line@));
    }
}

/// The report on the repair of a text.
pub fn sanitize_lines(s: &SanitizeStats) -> (r: Vec<String>)
    ensures
        texts(r@) == sanitize_report(*s),
{
    let mut r: Vec<String> = Vec::new();
    assert(texts(r@) =~= Seq::empty());
    push_report(&mut r, "resolved ", s.conflict_hunks_resolved, " merge conflict hunk(s)");
    push_report(&mut r, "removed ", s.duplicate_objects_removed, " duplicate object(s)");
    push_report(&mut r, "removed ", s.duplicate_list_items_removed, " duplicate list item(s)");
    push_report(&mut r, "removed ", s.orphan_sections_removed, " orphan section(s)");
    push_report(
        &mut r,
        "removed ",
        s.orphan_object_bodies_removed,
        " orphan object body line(s)",
    );
    r
}

/// A number at the end of at least six places.
pub open spec fn right_aligned(n: nat) -> Seq<char> {
    let digits = decimal(n);
    if digits.len() >= 6 {
        digits
    } else {
        Seq::new((6 - digits.len()) as nat, |i: int| ' ') + digits
    }
}

/// A line of text with its number; a mark stands at the line `at`.
pub open spec fn context_line(lines: Seq<Seq<char>>, i: int, at: int) -> Seq<char> {
    "  "@ + right_aligned((i + 1) as nat) + if i + 1 == at {
        " ▶ "@
    } else {
        "   "@
    } + lines[i]
}

/// Where the lines around line `at` begin.
pub open spec fn context_start(at: int) -> int {
    if at >= 5 {
        at - 5
    } else {
        0
    }
}

fn align(n: usize) -> (r: String)
    ensures
        r@ == right_aligned(n as nat),
{
    let text = usize_text(n);
    let digits: usize = crate::text::to_chars(text.as_str()).len();
    let mut r = String::new();
    let mut k: usize = digits;
    proof {
        assert(r@ =~= Seq::new(0nat, |i: int| ' '));
    }
    while k < 6
        invariant
            k >= digits,
            k <= 6 || k == digits,
            r@ == Seq::new((k - digits) as nat, |i: int| ' '),
        decreases 6 - k,
    {
        r.push(' ');
        k += 1;
        assert(r@ =~= Seq::new((k - digits) as nat, |i: int| ' '));
    }
    r.push_str(text.as_str());
    assert(r@ =~= right_aligned(n as nat));
    r
}

/// The lines around a parse error: five before it, the line itself and five
/// behind it.
pub fn parse_context(line: usize, text: &str) -> (r: Vec<String>)
    ensures
        ({
            let ls = lines_of(text@);
            let start = context_start(line as int);
            let n = if ls.len() <= start {
                0
            } else if ls.len() <= start + 11 {
                ls.len() - start
            } else {
                11
            };
            &&& r@.len() == n
            &&& forall|k: int|
                0 <= k < n ==> (#[trigger] r@[k])@ == context_line(ls, start + k, line as int)
        }),
{
    let lines = split_lines(text);
    let ghost ls = texts(lines@);
    let start: usize = if line >= 5 {
        line - 5
    } else {
        0
    };
    let mut r: Vec<String> = Vec::new();
    if start >= lines.len() {
        return r;
    }
    let mut i: usize = start;
    while i < lines.len() && i - start < 11
        invariant
            ls == texts(lines@),
            start <= i <= lines@.len(),
            i - start <= 11,
            r@.len() == i - start,
            forall|k: int|
                0 <= k < r@.len() ==> (#[trigger] r@[k])@ == context_line(
                    ls,
                    start + k,
                    line as int,
                ),
        decreases lines.len() - i,
    {
        let mut l = concat("  ", align(i + 1).as_str());
        if i + 1 == line {
            l.push_str(" ▶ ");
        } else {
            l.push_str("   ");
        }
        assert(ls[i as int] == lines@[i as int]@);
        l.push_str(lines[i].as_str());
        r.push(l);
        i += 1;
    }
    r
}

// ── The pipeline ─────────────────────────────────────────────────────────────

#[derive(Debug, Clone, Copy, PartialEq, Eq)]
pub enum PipelineOutcome {
    /// The file needs no change.
    Clean,
    /// The file was written.
    Modified,
    /// The file would be written, but for a check.
    WouldChange,
}

/// Where the result is written.
pub open spec fn destination(config: Config, path: Seq<char>) -> Seq<char> {
    or_text(opt_view(config.output), path)
}

/// Where the backup is written.
pub open spec fn backup_place(config: Config, path: Seq<char>) -> Seq<char> {
    or_text(
        opt_view(config.backup_path),
        extended(destination(config, path), "pbxproj.bak"@),
    )
}

/// The calls of storing a result, and the outcome.
pub open spec fn is_finish(
    config: Config,
    path: Seq<char>,
    original: Seq<char>,
    result: Seq<char>,
    calls: Seq<FsCall>,
    r: Result<PipelineOutcome, Failure>,
) -> bool {
    let dest = destination(config, path);
    let backup = backup_place(config, path);
    let n: int = if config.backup {
        1
    } else {
        0
    };
    if result == original {
        calls.len() == 0 && r == Ok::<PipelineOutcome, Failure>(PipelineOutcome::Clean)
    } else if config.check {
        calls.len() == 0 && r == Ok::<PipelineOutcome, Failure>(PipelineOutcome::WouldChange)
    } else if config.backup && calls == seq![
        FsCall::Copy { from: path, to: backup, done: false },
    ] {
        says(r, "cannot create backup "@ + backup)
    } else {
        &&& calls.len() == n + 1
        &&& config.backup ==> calls[0] == (FsCall::Copy { from: path, to: backup, done: true })
        &&& calls[n] is Write
        &&& calls[n]->Write_path == dest
        &&& calls[n]->content == result
        &&& if calls[n]->Write_done {
            r == Ok::<PipelineOutcome, Failure>(PipelineOutcome::Modified)
        } else {
            says(r, "cannot write "@ + dest)
        }
    }
}

/// The schemes are edited, if there is anything to edit them with.
pub open spec fn schemes_active(config: Config, n: nat) -> bool {
    config.update_schemes && !config.check && n > 0
}

/// The calls of carrying new UUIDs over to the schemes; `failure` is the message
/// where that failed.
#[verifier::opaque]
pub open spec fn is_scheme_stage(
    active: bool,
    edit: spec_fn(Seq<char>) -> (Seq<char>, nat),
    bundle: Seq<char>,
    calls: Seq<FsCall>,
    failure: Option<Seq<char>>,
) -> bool {
    if active {
        exists|r: Result<UpdateStats, Failure>| #[trigger]
            is_scheme_run(edit, bundle, calls, r) && failure == said(r)
    } else {
        calls.len() == 0 && failure is None
    }
}

/// The calls of writing the project's map; `failure` is the message where that
/// failed, which begins with `trouble` where the file could not be written.
/// `encodes` says which texts stand for a map, and for which map there is none.
#[verifier::opaque]
pub open spec fn is_map_stage(
    active: bool,
    project: Project,
    name: Seq<char>,
    place: Seq<char>,
    trouble: Seq<char>,
    encodes: spec_fn(ProjectMap, Option<Seq<char>>) -> bool,
    calls: Seq<FsCall>,
    failure: Option<Seq<char>>,
) -> bool {
    if !active {
        calls.len() == 0 && failure is None
    } else if calls.len() == 0 {
        &&& failure == Some("failed to serialise project map"@)
        &&& is_map_text(project, name, encodes, None)
    } else {
        &&& calls.len() == 1
        &&& calls[0] is Write
        &&& calls[0]->Write_path == place
        &&& failure == if calls[0]->Write_done {
            None
        } else {
            Some(trouble + place)
        }
        &&& is_map_text(project, name, encodes, Some(calls[0]->content))
    }
}

/// A text stands for the map of a project; or there is no text for it.
pub open spec fn is_map_text(
    project: Project,
    name: Seq<char>,
    encodes: spec_fn(ProjectMap, Option<Seq<char>>) -> bool,
    text: Option<Seq<char>>,
) -> bool {
    let rows = registry(project, name).rows;
    exists|m: ProjectMap|
        {
            &&& #[trigger] is_map_of(m, project, rows, new_uuids(rows), name)
            &&& exists|secs: u64| #[trigger] is_timestamp(m.generated@, secs as int)
            &&& encodes(m, text)
        }
}

/// A text with the new UUIDs of its project.
pub open spec fn uniquified(text: Seq<char>, project: Project, name: Seq<char>) -> Seq<char> {
    let reg = registry(project, name);
    unlines(rewrite_run(normalised(new_uuids(reg.rows)), reg.remove, lines_of(text)).out)
}

/// The calls of each stage.
pub ghost struct Stages {
    pub read: FsCall,
    pub schemes: Seq<FsCall>,
    pub repairs: Seq<FsCall>,
    pub map: Seq<FsCall>,
    pub finish: Seq<FsCall>,
}

/// The calls behind the first.
pub open spec fn later_calls(s: Stages) -> Seq<FsCall> {
    s.schemes + s.repairs + s.map + s.finish
}

pub open spec fn all_calls(s: Stages) -> Seq<FsCall> {
    seq![s.read] + later_calls(s)
}

/// Storing a result that has passed the check that it is a project.
pub open spec fn is_end(
    config: Config,
    path: Seq<char>,
    original: Seq<char>,
    result: Seq<char>,
    calls: Seq<FsCall>,
    r: Result<PipelineOutcome, Failure>,
) -> bool {
    if project_in(result) is Some {
        is_finish(config, path, original, result, calls, r)
    } else {
        calls.len() == 0 && fails(r, seq![invalid_result(), complaint(result)])
    }
}

/// A text sorted, if that is asked for.
pub open spec fn sorted_if_asked(config: Config, text: Seq<char>) -> Seq<char> {
    if config.unique_only {
        text
    } else {
        sorted_text(text, config.sort_main_group)
    }
}

/// The stages of processing a file, and the outcome.
pub open spec fn is_process(
    config: Config,
    path: Seq<char>,
    encodes: spec_fn(ProjectMap, Option<Seq<char>>) -> bool,
    s: Stages,
    r: Result<PipelineOutcome, Failure>,
) -> bool {
    &&& s.read is Read
    &&& s.read->Read_path == path
    &&& match s.read->reply {
        None => {
            &&& s.schemes.len() == 0 && s.repairs.len() == 0 && s.map.len() == 0
                && s.finish.len() == 0
            &&& r is Err
        },
        Some(original) => {
            let clean = sanitized(original);
            if config.sanitize_only {
                &&& s.schemes.len() == 0 && s.repairs.len() == 0 && s.map.len() == 0
                &&& is_end(config, path, original, clean, s.finish, r)
            } else if config.sort_only {
                &&& s.schemes.len() == 0 && s.repairs.len() == 0 && s.map.len() == 0
                &&& is_end(config, path, original, sorted_if_asked(config, clean), s.finish, r)
            } else {
                match project_in(clean) {
                    None => {
                        &&& s.schemes.len() == 0 && s.repairs.len() == 0 && s.map.len() == 0
                            && s.finish.len() == 0
                        &&& fails(
                            r,
                            seq![
                                "failed to parse — run --sanitize-only first if the file is corrupt"@,
                                complaint(clean),
                            ],
                        )
                    },
                    Some(project) => is_unique_process(
                        config,
                        path,
                        encodes,
                        original,
                        project,
                        s,
                        r,
                    ),
                }
            }
        },
    }
}

/// The stages behind reading and parsing a file whose UUIDs are to be made
/// deterministic.  Nothing is written unless the result is a project.
pub open spec fn is_unique_process(
    config: Config,
    path: Seq<char>,
    encodes: spec_fn(ProjectMap, Option<Seq<char>>) -> bool,
    original: Seq<char>,
    project: Project,
    s: Stages,
    r: Result<PipelineOutcome, Failure>,
) -> bool {
    let name = project_name(path);
    let result = sorted_if_asked(
        config,
        sanitized(uniquified(sanitized(original), project, name)),
    );
    if project_in(result) is None {
        &&& later_calls(s).len() == 0
        &&& fails(r, seq![invalid_result(), complaint(result)])
    } else {
        is_writing(config, path, encodes, original, result, project, s, r)
    }
}

/// The stages of writing: schemes, map and text.
pub open spec fn is_writing(
    config: Config,
    path: Seq<char>,
    encodes: spec_fn(ProjectMap, Option<Seq<char>>) -> bool,
    original: Seq<char>,
    result: Seq<char>,
    project: Project,
    s: Stages,
    r: Result<PipelineOutcome, Failure>,
) -> bool {
    let name = project_name(path);
    let map = new_uuids(registry(project, name).rows);
    let names = name_index(project, map);
    exists|renamed: Option<Seq<char>>, repaired: Option<Seq<char>>, mapped: Option<Seq<char>>|
        {
            &&& #[trigger] one_failed_at_most(renamed, repaired, mapped)
            &&& is_scheme_stage(
                schemes_active(config, map.len()),
                rename_edit(map),
                dir_of(path),
                s.schemes,
                renamed,
            )
            &&& if renamed is Some {
                &&& s.repairs.len() == 0 && s.map.len() == 0 && s.finish.len() == 0
                &&& says(r, renamed->Some_0)
            } else {
                &&& is_scheme_stage(
                    schemes_active(config, names.len()),
                    repair_edit(names, valid_uuids(project, map), name),
                    dir_of(path),
                    s.repairs,
                    repaired,
                )
                &&& if repaired is Some {
                    &&& s.map.len() == 0 && s.finish.len() == 0
                    &&& says(r, repaired->Some_0)
                } else {
                    is_store(
                        config,
                        path,
                        encodes,
                        original,
                        result,
                        project,
                        s.map,
                        s.finish,
                        mapped,
                        r,
                    )
                }
            }
        }
}

/// The last stages: writing the map of the project, and storing the text.
#[verifier::opaque]
pub open spec fn is_store(
    config: Config,
    path: Seq<char>,
    encodes: spec_fn(ProjectMap, Option<Seq<char>>) -> bool,
    original: Seq<char>,
    result: Seq<char>,
    project: Project,
    map_calls: Seq<FsCall>,
    finish_calls: Seq<FsCall>,
    mapped: Option<Seq<char>>,
    r: Result<PipelineOutcome, Failure>,
) -> bool {
    &&& is_map_stage(
        !config.unique_only && !config.check,
        project,
        project_name(path),
        map_path(dir_of(path)),
        "cannot write map "@,
        encodes,
        map_calls,
        mapped,
    )
    &&& if mapped is Some {
        finish_calls.len() == 0 && says(r, mapped->Some_0)
    } else {
        is_finish(config, path, original, result, finish_calls, r)
    }
}

/// At most one of the stages failed: the later ones are then left out.
pub open spec fn one_failed_at_most(
    renamed: Option<Seq<char>>,
    repaired: Option<Seq<char>>,
    mapped: Option<Seq<char>>,
) -> bool {
    &&& renamed is Some ==> repaired is None && mapped is None
    &&& repaired is Some ==> mapped is None
}

/// The calls of writing the map of a project file, and the outcome.
pub open spec fn is_mapping(
    path: Seq<char>,
    output: Option<Seq<char>>,
    encodes: spec_fn(ProjectMap, Option<Seq<char>>) -> bool,
    calls: Seq<FsCall>,
    r: Result<(), Failure>,
) -> bool {
    let name = project_name(path);
    let place = or_text(output, map_path(dir_of(path)));
    &&& calls.len() >= 1
    &&& calls[0] is Read
    &&& calls[0]->Read_path == path
    &&& match calls[0]->reply {
        None => calls.len() == 1 && r is Err,
        Some(text) => match project_in(sanitized(text)) {
            None => calls.len() == 1 && fails(
                r,
                seq![
                    "failed to parse — try running `electrolysis <path>` first to repair the file"@,
                    complaint(sanitized(text)),
                ],
            ),
            Some(project) => {
                &&& is_map_stage(
                    true,
                    project,
                    name,
                    place,
                    "cannot write "@,
                    encodes,
                    calls.skip(1),
                    said(r),
                )
                &&& r is Err ==> r->Err_0@.len() > 0
            },
        },
    }
}

/// `m` is the map of the project that a text describes.
pub open spec fn is_map_of_text(m: ProjectMap, text: Seq<char>, name: Seq<char>) -> bool {
    &&& project_in(sanitized(text)) is Some
    &&& ({
        let project = project_in(sanitized(text))->Some_0;
        let rows = registry(project, name).rows;
        is_map_of(m, project, rows, new_uuids(rows), name)
    })
}

/// Giving out a difference and its text, which is also written if there is a
/// place for it.
pub open spec fn is_report(
    diff: MapDiff,
    output: Option<Seq<char>>,
    encodes: spec_fn(MapDiff, Option<Seq<char>>) -> bool,
    calls: Seq<FsCall>,
    r: Result<(MapDiff, String), Failure>,
) -> bool {
    ||| {
        &&& encodes(diff, None)
        &&& calls.len() == 0
        &&& says(r, "failed to serialise diff"@)
    }
    ||| exists|text: Seq<char>|
        {
            &&& #[trigger] encodes(diff, Some(text))
            &&& r is Ok ==> r->Ok_0.0 == diff && r->Ok_0.1@ == text
            &&& match output {
                None => calls.len() == 0 && r is Ok,
                Some(place) => {
                    &&& calls.len() == 1
                    &&& calls[0] == (FsCall::Write { path: place, content: text, done: r is Ok })
                    &&& r is Err ==> says(r, "cannot write "@ + place)
                },
            }
        }
}

/// Reading a project file and comparing its map with the map `reference`.
pub open spec fn is_comparison_with(
    reference: ProjectMap,
    path: Seq<char>,
    output: Option<Seq<char>>,
    encodes: spec_fn(MapDiff, Option<Seq<char>>) -> bool,
    calls: Seq<FsCall>,
    r: Result<(MapDiff, String), Failure>,
) -> bool {
    &&& calls.len() >= 1
    &&& calls[0] is Read
    &&& calls[0]->Read_path == path
    &&& match calls[0]->reply {
        None => calls.len() == 1 && says(r, "cannot read "@ + path),
        Some(text) => if project_in(sanitized(text)) is None {
            &&& calls.len() == 1
            &&& fails(r, seq!["failed to parse current project"@, complaint(sanitized(text))])
        } else {
            exists|diff: MapDiff, current: ProjectMap|
                {
                    &&& #[trigger] is_diff(diff, reference, current)
                    &&& is_map_of_text(current, text, project_name(path))
                    &&& is_report(diff, output, encodes, calls.skip(1), r)
                }
        },
    }
}

/// The calls of comparing a project file with a reference map, and the outcome:
/// the difference and its text.  `decodes` says which maps a text stands for,
/// and `encodes` which texts stand for a difference; either says where there is
/// none.
pub open spec fn is_comparison(
    path: Seq<char>,
    reference_path: Seq<char>,
    output: Option<Seq<char>>,
    decodes: spec_fn(Seq<char>, Option<ProjectMap>) -> bool,
    encodes: spec_fn(MapDiff, Option<Seq<char>>) -> bool,
    calls: Seq<FsCall>,
    r: Result<(MapDiff, String), Failure>,
) -> bool {
    &&& calls.len() >= 1
    &&& calls[0] is Read
    &&& calls[0]->Read_path == reference_path
    &&& match calls[0]->reply {
        None => calls.len() == 1 && says(r, "cannot read reference map: "@ + reference_path),
        Some(text) => {
            ||| {
                &&& decodes(text, None)
                &&& calls.len() == 1
                &&& says(r, "failed to parse reference map JSON"@)
            }
            ||| exists|reference: ProjectMap|
                {
                    &&& #[trigger] decodes(text, Some(reference))
                    &&& is_comparison_with(
                        reference,
                        path,
                        output,
                        encodes,
                        calls.skip(1),
                        r,
                    )
                }
        },
    }
}

/// Something was sorted.
pub open spec fn is_any_sorted(stats: SortStats) -> bool {
    stats.files_lists_sorted > 0 || stats.children_lists_sorted > 0 || stats.pbx_sections_sorted > 0
        || stats.xc_build_configs_sorted > 0 || stats.pbx_variant_groups_sorted > 0
        || stats.xc_config_lists_sorted > 0 || stats.pbx_native_targets_sorted > 0
        || stats.pbx_aggregate_targets_sorted > 0 || stats.pbx_groups_sorted > 0
        || stats.pbx_target_dependencies_sorted > 0 || stats.xc_remote_package_refs_sorted > 0
        || stats.xc_package_product_deps_sorted > 0
}

/// Whether anything was sorted.
fn any_sorted(stats: &SortStats) -> (r: bool)
    ensures
        r == is_any_sorted(*stats),
{
    stats.files_lists_sorted > 0 || stats.children_lists_sorted > 0 || stats.pbx_sections_sorted > 0
        || stats.xc_build_configs_sorted > 0 || stats.pbx_variant_groups_sorted > 0
        || stats.xc_config_lists_sorted > 0 || stats.pbx_native_targets_sorted > 0
        || stats.pbx_aggregate_targets_sorted > 0 || stats.pbx_groups_sorted > 0
        || stats.pbx_target_dependencies_sorted > 0 || stats.xc_remote_package_refs_sorted > 0
        || stats.xc_package_product_deps_sorted > 0
}

/// Appends a number and a word.
fn push_count(line: &mut String, n: usize, what: &str)
    ensures
        final(line)@ == old(line)@ + decimal(n as nat) + what@,
{
    line.push_str(usize_text(n).as_str());
    line.push_str(what);
}

/// The line that says what was sorted.
pub open spec fn sort_message(stats: SortStats) -> Seq<char> {
    "  "@
        + decimal(stats.files_lists_sorted as nat) + " files lists, "@
        + decimal(stats.children_lists_sorted as nat) + " children lists, "@
        + decimal(stats.pbx_sections_sorted as nat) + " PBX sections, "@
        + decimal(stats.xc_build_configs_sorted as nat) + " XCBuildConfig, "@
        + decimal(stats.pbx_variant_groups_sorted as nat) + " PBXVariantGroup, "@
        + decimal(stats.xc_config_lists_sorted as nat) + " XCConfigurationList, "@
        + decimal(stats.pbx_native_targets_sorted as nat) + " PBXNativeTarget, "@
        + decimal(stats.pbx_aggregate_targets_sorted as nat) + " PBXAggregateTarget, "@
        + decimal(stats.pbx_groups_sorted as nat) + " PBXGroup, "@
        + decimal(stats.pbx_target_dependencies_sorted as nat) + " PBXTargetDependency, "@
        + decimal(stats.xc_remote_package_refs_sorted as nat) + " XCRemoteSwiftPackageRef, "@
        + decimal(stats.xc_package_product_deps_sorted as nat) + " XCSwiftPackageProductDep sorted; "@
        + decimal(stats.duplicate_entries_removed as nat) + " duplicate(s) dropped"@
}

/// The line that says what was sorted.
fn sort_line(stats: &SortStats) -> (line: String)
    ensures
        line@ == sort_message(*stats),
{
    let mut line = owned("  ");
    push_count(&mut line, stats.files_lists_sorted, " files lists, ");
    push_count(&mut line, stats.children_lists_sorted, " children lists, ");
    push_count(&mut line, stats.pbx_sections_sorted, " PBX sections, ");
    push_count(&mut line, stats.xc_build_configs_sorted, " XCBuildConfig, ");
    push_count(&mut line, stats.pbx_variant_groups_sorted, " PBXVariantGroup, ");
    push_count(&mut line, stats.xc_config_lists_sorted, " XCConfigurationList, ");
    push_count(&mut line, stats.pbx_native_targets_sorted, " PBXNativeTarget, ");
    push_count(&mut line, stats.pbx_aggregate_targets_sorted, " PBXAggregateTarget, ");
    push_count(&mut line, stats.pbx_groups_sorted, " PBXGroup, ");
    push_count(&mut line, stats.pbx_target_dependencies_sorted, " PBXTargetDependency, ");
    push_count(&mut line, stats.xc_remote_package_refs_sorted, " XCRemoteSwiftPackageRef, ");
    push_count(&mut line, stats.xc_package_product_deps_sorted, " XCSwiftPackageProductDep sorted; ");
    push_count(&mut line, stats.duplicate_entries_removed, " duplicate(s) dropped");
    line
}

/// The passes with their settings, the files and the logger.
pub struct Pipeline<'a, F, L> {
    pub config: &'a Config,
    pub fs: F,
    pub logger: &'a L,
}

/// What an encoder may give for a map: a text, or none where it fails.
pub open spec fn encoded_by<E: Fn(&ProjectMap) -> Result<String, Failure>>(encode: E) -> spec_fn(
    ProjectMap,
    Option<Seq<char>>,
) -> bool {
    |m: ProjectMap, text: Option<Seq<char>>|
        exists|t: Result<String, Failure>| #[trigger]
            call_ensures(encode, (&m,), t) && text_reply(t) == text
}

/// What a decoder may read from a text: a map, or none where it fails.
pub open spec fn decoded_by<D: Fn(&str) -> Result<ProjectMap, Failure>>(decode: D) -> spec_fn(
    Seq<char>,
    Option<ProjectMap>,
) -> bool {
    |text: Seq<char>, m: Option<ProjectMap>|
        exists|t: &str, d: Result<ProjectMap, Failure>| #[trigger]
            call_ensures(decode, (t,), d) && t@ == text && match d {
                Ok(found) => m == Some(found),
                Err(_) => m is None,
            }
}

/// What an encoder may give for a difference: a text, or none where it fails.
pub open spec fn diff_encoded_by<E: Fn(&MapDiff) -> Result<String, Failure>>(encode: E) -> spec_fn(
    MapDiff,
    Option<Seq<char>>,
) -> bool {
    |d: MapDiff, text: Option<Seq<char>>|
        exists|t: Result<String, Failure>| #[trigger]
            call_ensures(encode, (&d,), t) && text_reply(t) == text
}

impl<'a, F: FileSystem, L: Logger> Pipeline<'a, F, L> {
    pub fn new(config: &'a Config, fs: F, logger: &'a L) -> (p: Self)
        ensures
            p.config == config,
            p.fs == fs,
            p.logger == logger,
    {
        Pipeline { config, fs, logger }
    }

    fn say(&self, lines: &Vec<String>) {
        let mut i: usize = 0;
        while i < lines.len()
            invariant
                i <= lines@.len(),
            decreases lines.len() - i,
        {
            self.logger.info(lines[i].as_str());
            i += 1;
        }
    }

    fn warn_of(&self, lines: &Vec<String>) {
        let mut i: usize = 0;
        while i < lines.len()
            invariant
                i <= lines@.len(),
            decreases lines.len() - i,
        {
            self.logger.warn(lines[i].as_str());
            i += 1;
        }
    }

    fn show(&self, lines: &Vec<String>) {
        let mut i: usize = 0;
        while i < lines.len()
            invariant
                i <= lines@.len(),
            decreases lines.len() - i,
        {
            self.logger.show(lines[i].as_str());
            i += 1;
        }
    }

    /// Stores a result, if it differs from the original.
    fn finish(&mut self, original: &str, result: &str, path: &str) -> (r: Result<
        PipelineOutcome,
        Failure,
    >)
        ensures
            final(self).config == old(self).config,
            final(self).logger == old(self).logger,
            exists|calls: Seq<FsCall>|
                {
                    &&& #[trigger] grew(old(self).fs.log(), final(self).fs.log(), calls)
                    &&& is_finish(
                        *old(self).config,
                        path@,
                        original@,
                        result@,
                        calls,
                        r,
                    )
                },
    {
        let ghost before = self.fs.log();
        let ghost config = *self.config;
        if same(result, original) {
            self.logger.info("✓ no changes — file already clean");
            proof {
                let calls = Seq::<FsCall>::empty();
                assert(grew(before, self.fs.log(), calls));
                assert(is_finish(config, path@, original@, result@, calls, Ok(PipelineOutcome::Clean)));
            }
            return Ok(PipelineOutcome::Clean);
        }
        if self.config.check {
            proof {
                let calls = Seq::<FsCall>::empty();
                assert(grew(before, self.fs.log(), calls));
                assert(is_finish(
                    config,
                    path@,
                    original@,
                    result@,
                    calls,
                    Ok(PipelineOutcome::WouldChange),
                ));
            }
            return Ok(PipelineOutcome::WouldChange);
        }
        let dest = match &self.config.output {
            Some(p) => owned(p.as_str()),
            None => owned(path),
        };
        let ghost mut calls = Seq::<FsCall>::empty();
        if self.config.backup {
            let backup = match &self.config.backup_path {
                Some(p) => owned(p.as_str()),
                None => with_extension(dest.as_str(), "pbxproj.bak"),
            };
            assert(backup@ == backup_place(config, path@));
            match self.fs.copy(path, backup.as_str()) {
                Ok(_) => {
                    proof {
                        calls = seq![FsCall::Copy { from: path@, to: backup@, done: true }];
                    }
                },
                Err(e) => {
                    let r = Err(e.context(concat("cannot create backup ", backup.as_str())));
                    proof {
                        calls = seq![FsCall::Copy { from: path@, to: backup@, done: false }];
                        assert(grew(before, self.fs.log(), calls));
                        assert(is_finish(config, path@, original@, result@, calls, r));
                    }
                    return r;
                },
            }
            self.logger.verbose(concat("backup created: ", backup.as_str()).as_str());
        }
        assert(self.fs.log() =~= before + calls);
        match self.fs.write_atomic(dest.as_str(), result) {
            Ok(_) => {
                proof {
                    let written = calls.push(
                        FsCall::Write { path: dest@, content: result@, done: true },
                    );
                    assert(grew(before, self.fs.log(), written));
                    assert(is_finish(
                        config,
                        path@,
                        original@,
                        result@,
                        written,
                        Ok(PipelineOutcome::Modified),
                    ));
                }
                self.logger.info(concat("✓ written: ", dest.as_str()).as_str());
                Ok(PipelineOutcome::Modified)
            },
            Err(e) => {
                let r = Err(e.context(concat("cannot write ", dest.as_str())));
                proof {
                    let written = calls.push(
                        FsCall::Write { path: dest@, content: result@, done: false },
                    );
                    assert(grew(before, self.fs.log(), written));
                    assert(written[0] == if config.backup { calls[0] } else { written[0] });
                    assert(is_finish(config, path@, original@, result@, written, r));
                }
                r
            },
        }
    }

    /// Carries new UUIDs over to the shared schemes.
    fn propagate_to_schemes(&mut self, path: &str, map: &Table<String>) -> (r: Result<(), Failure>)
        requires
            map.wf(),
        ensures
            final(self).config == old(self).config,
            final(self).logger == old(self).logger,
            exists|calls: Seq<FsCall>|
                {
                    &&& #[trigger] grew(old(self).fs.log(), final(self).fs.log(), calls)
                    &&& is_scheme_stage(
                        schemes_active(*old(self).config, map@.len()),
                        rename_edit(map@),
                        dir_of(path@),
                        calls,
                        said(r),
                    )
                },
            r is Err ==> r->Err_0@.len() > 0,
    {
        reveal(is_scheme_stage);
        let ghost before = self.fs.log();
        if !self.config.update_schemes || self.config.check || map.len() == 0 {
            proof {
                let calls = Seq::<FsCall>::empty();
                assert(grew(before, self.fs.log(), calls));
                assert(is_scheme_stage(schemes_active(*self.config, map@.len()), rename_edit(map@), dir_of(path@), calls, None));
            }
            return Ok(());
        }
        let dir = directory(path);
        let logger = self.logger;
        let outcome = update_shared_schemes(dir.as_str(), map, &mut self.fs, logger);
        proof {
            let calls = choose|calls: Seq<FsCall>|
                {
                    &&& #[trigger] grew(before, self.fs.log(), calls)
                    &&& is_scheme_run(rename_edit(map@), dir@, calls, outcome)
                };
            assert(is_scheme_stage(schemes_active(*self.config, map@.len()), rename_edit(map@), dir@, calls, said(outcome)));
        }
        match outcome {
            Ok(stats) => {
                if stats.files_modified > 0 {
                    let mut message = concat("  ✓ ", usize_text(stats.files_modified).as_str());
                    message.push_str(" scheme(s) updated (");
                    message.push_str(usize_text(stats.identifiers_replaced).as_str());
                    message.push_str(" BlueprintIdentifier(s) remapped)");
                    self.logger.info(message.as_str());
                }
                Ok(())
            },
            Err(e) => Err(e),
        }
    }

    /// Repairs references of the shared schemes that are of no target.
    fn repair_orphan_schemes(
        &mut self,
        path: &str,
        proj: &PbxProject,
        map: &Table<String>,
        name: &str,
    ) -> (r: Result<(), Failure>)
        requires
            map.wf(),
        ensures
            final(self).config == old(self).config,
            final(self).logger == old(self).logger,
            exists|calls: Seq<FsCall>|
                {
                    &&& #[trigger] grew(old(self).fs.log(), final(self).fs.log(), calls)
                    &&& is_scheme_stage(
                        schemes_active(*old(self).config, name_index(proj@, map@).len()),
                        repair_edit(name_index(proj@, map@), valid_uuids(proj@, map@), name@),
                        dir_of(path@),
                        calls,
                        said(r),
                    )
                },
            r is Err ==> r->Err_0@.len() > 0,
    {
        reveal(is_scheme_stage);
        let ghost before = self.fs.log();
        let ghost edit = repair_edit(name_index(proj@, map@), valid_uuids(proj@, map@), name@);
        let ghost active = schemes_active(*self.config, name_index(proj@, map@).len());
        if !self.config.update_schemes || self.config.check {
            proof {
                let calls = Seq::<FsCall>::empty();
                assert(grew(before, self.fs.log(), calls));
                assert(is_scheme_stage(active, edit, dir_of(path@), calls, None));
            }
            return Ok(());
        }
        let (names, valid) = build_scheme_repair_inputs(proj, map);
        if names.len() == 0 {
            proof {
                let calls = Seq::<FsCall>::empty();
                assert(grew(before, self.fs.log(), calls));
                assert(is_scheme_stage(active, edit, dir_of(path@), calls, None));
            }
            return Ok(());
        }
        let dir = directory(path);
        let logger = self.logger;
        let outcome = repair_shared_schemes(
            dir.as_str(),
            &names,
            &valid,
            name,
            &mut self.fs,
            logger,
        );
        proof {
            let calls = choose|calls: Seq<FsCall>|
                {
                    &&& #[trigger] grew(before, self.fs.log(), calls)
                    &&& is_scheme_run(edit, dir@, calls, outcome)
                };
            assert(is_scheme_stage(active, edit, dir@, calls, said(outcome)));
        }
        match outcome {
            Ok(stats) => {
                if stats.files_modified > 0 {
                    let mut message = concat("  ✓ ", usize_text(stats.files_modified).as_str());
                    message.push_str(" scheme(s) repaired (");
                    message.push_str(usize_text(stats.identifiers_replaced).as_str());
                    message.push_str(" orphan BlueprintIdentifier(s))");
                    self.logger.info(message.as_str());
                }
                Ok(())
            },
            Err(e) => Err(e),
        }
    }

    /// Writes the map of a project.
    fn write_map<E: Fn(&ProjectMap) -> Result<String, Failure>>(
        &mut self,
        proj: &PbxProject,
        unique_map: &UniqueMap,
        name: &str,
        place: &str,
        trouble: &str,
        mark: &str,
        encode: &E,
    ) -> (r: Result<(), Failure>)
        requires
            unique_map.wf(),
            unique_map.is_complete(),
            unique_map.holds(registry(proj@, name@)),
            forall|m: &ProjectMap| #[trigger] call_requires(*encode, (m,)),
        ensures
            final(self).config == old(self).config,
            final(self).logger == old(self).logger,
            exists|calls: Seq<FsCall>|
                {
                    &&& #[trigger] grew(old(self).fs.log(), final(self).fs.log(), calls)
                    &&& is_map_stage(
                        true,
                        proj@,
                        name@,
                        place@,
                        trouble@,
                        encoded_by(*encode),
                        calls,
                        said(r),
                    )
                },
            r is Err ==> r->Err_0@.len() > 0,
    {
        reveal(is_map_stage);
        let ghost before = self.fs.log();
        let project_map = build_map(proj, unique_map, name);
        let encoded = encode(&project_map);
        proof {
            let rows = registry(proj@, name@).rows;
            assert(call_ensures(*encode, (&project_map,), encoded));
            assert((encoded_by(*encode))(project_map, text_reply(encoded)));
            assert(is_map_of(project_map, proj@, rows, new_uuids(rows), name@));
            assert(is_map_text(proj@, name@, encoded_by(*encode), text_reply(encoded)));
        }
        let json = match encoded {
            Ok(t) => t,
            Err(e) => {
                let r = Err(e.context(owned("failed to serialise project map")));
                proof {
                    let calls = Seq::<FsCall>::empty();
                    assert(grew(before, self.fs.log(), calls));
                    assert(is_map_stage(
                        true,
                        proj@,
                        name@,
                        place@,
                        trouble@,
                        encoded_by(*encode),
                        calls,
                        said(r),
                    ));
                }
                return r;
            },
        };
        let outcome = self.fs.write_atomic(place, json.as_str());
        proof {
            let calls = seq![
                FsCall::Write { path: place@, content: json@, done: outcome is Ok },
            ];
            assert(grew(before, self.fs.log(), calls));
            assert(is_map_stage(
                true,
                proj@,
                name@,
                place@,
                trouble@,
                encoded_by(*encode),
                calls,
                if outcome is Ok {
                    None
                } else {
                    Some(trouble@ + place@)
                },
            ));
        }
        match outcome {
            Ok(_) => {
                let mut message = concat(mark, "✓ map written: ");
                message.push_str(place);
                message.push_str("  (");
                message.push_str(usize_text(project_map.targets.len()).as_str());
                message.push_str(" targets, ");
                message.push_str(usize_text(project_map.uuid_table.len()).as_str());
                message.push_str(" uuid entries)");
                self.logger.info(message.as_str());
                Ok(())
            },
            Err(e) => Err(e.context(concat(trouble, place))),
        }
    }

    /// Sorts a text, if that is asked for.
    fn sort_if_asked(&self, text: String) -> (r: String)
        ensures
            r@ == sorted_if_asked(*self.config, text@),
    {
        if !self.config.run_sort() {
            return text;
        }
        self.logger.info("→ sorting…");
        let (sorted, stats) = sort_with(text.as_str(), self.config.sort_main_group);
        if self.config.verbose || any_sorted(&stats) {
            self.logger.info(sort_line(&stats).as_str());
        }
        sorted
    }

    /// Checks a result and stores it.
    fn end(&mut self, original: &str, result: &str, path: &str) -> (r: Result<
        PipelineOutcome,
        Failure,
    >)
        ensures
            final(self).config == old(self).config,
            final(self).logger == old(self).logger,
            exists|calls: Seq<FsCall>|
                {
                    &&& #[trigger] grew(old(self).fs.log(), final(self).fs.log(), calls)
                    &&& is_end(
                        *old(self).config,
                        path@,
                        original@,
                        result@,
                        calls,
                        r,
                    )
                },
    {
        let ghost before = self.fs.log();
        let ghost config = *self.config;
        self.logger.verbose("validating output…");
        match validate_pbxproj(result) {
            Ok(_) => {
                let r = self.finish(original, result, path);
                proof {
                    let calls = choose|calls: Seq<FsCall>|
                        {
                            &&& #[trigger] grew(before, self.fs.log(), calls)
                            &&& is_finish(config, path@, original@, result@, calls, r)
                        };
                    assert(is_end(config, path@, original@, result@, calls, r));
                }
                r
            },
            Err(e) => {
                let r = Err(e);
                proof {
                    let calls = Seq::<FsCall>::empty();
                    assert(grew(before, self.fs.log(), calls));
                    assert(is_end(config, path@, original@, result@, calls, r));
                }
                r
            },
        }
    }

    /// Writes the map of the project and stores the text.
    #[verifier::rlimit(40)]
    fn store<E: Fn(&ProjectMap) -> Result<String, Failure>>(
        &mut self,
        original: &str,
        result: &str,
        proj: &PbxProject,
        unique_map: &UniqueMap,
        pbxproj_path: &str,
        name: &str,
        encode: &E,
    ) -> (r: Result<PipelineOutcome, Failure>)
        requires
            unique_map.wf(),
            unique_map.is_complete(),
            unique_map.holds(registry(proj@, name@)),
            name@ == project_name(pbxproj_path@),
            forall|m: &ProjectMap| #[trigger] call_requires(*encode, (m,)),
        ensures
            final(self).config == old(self).config,
            final(self).logger == old(self).logger,
            exists|map_calls: Seq<FsCall>, finish_calls: Seq<FsCall>, mapped: Option<Seq<char>>|
                {
                    &&& #[trigger] grew(
                        old(self).fs.log(),
                        final(self).fs.log(),
                        map_calls + finish_calls,
                    )
                    &&& #[trigger] one_failed_at_most(None, None, mapped)
                    &&& is_store(
                        *old(self).config,
                        pbxproj_path@,
                        encoded_by(*encode),
                        original@,
                        result@,
                        proj@,
                        map_calls,
                        finish_calls,
                        mapped,
                        r,
                    )
                },
    {
        reveal(is_store);
        reveal(is_map_stage);
        let ghost log3 = self.fs.log();
        let ghost config = *self.config;
        let ghost path = pbxproj_path@;
        let ghost project = proj@;
        let ghost encodes = encoded_by(*encode);
        let ghost none = Seq::<FsCall>::empty();
        let ghost mut map_calls = none;
        if self.config.run_sort() && !self.config.check {
            self.logger.info("→ generating project map…");
            let place = default_map_path(directory(pbxproj_path).as_str());
            let mapped = self.write_map(
                proj,
                unique_map,
                name,
                place.as_str(),
                "cannot write map ",
                "  ",
                encode,
            );
            proof {
                map_calls = choose|calls: Seq<FsCall>|
                    {
                        &&& #[trigger] grew(log3, self.fs.log(), calls)
                        &&& is_map_stage(
                            true,
                            project,
                            name@,
                            place@,
                            "cannot write map "@,
                            encodes,
                            calls,
                            said(mapped),
                        )
                    };
            }
            match mapped {
                Ok(_) => {},
                Err(e) => {
                    let ghost m = Some(e@[0]);
                    let r = Err(e);
                    proof {
                        assert(grew(log3, self.fs.log(), map_calls + none));
                        assert(one_failed_at_most(None, None, m));
                        assert(is_store(
                            config,
                            path,
                            encodes,
                            original@,
                            result@,
                            project,
                            map_calls,
                            none,
                            m,
                            r,
                        ));
                    }
                    return r;
                },
            }
        }
        assert(grew(log3, self.fs.log(), map_calls));
        let ghost log4 = self.fs.log();
        let r = self.finish(original, result, pbxproj_path);
        proof {
            let finish = choose|calls: Seq<FsCall>|
                {
                    &&& #[trigger] grew(log4, self.fs.log(), calls)
                    &&& is_finish(config, path, original@, result@, calls, r)
                };
            assert(grew(log3, self.fs.log(), map_calls + finish));
            assert(one_failed_at_most(None, None, None));
            assert(is_store(
                config,
                path,
                encodes,
                original@,
                result@,
                project,
                map_calls,
                finish,
                None,
                r,
            ));
        }
        r
    }

    /// The stages of writing a result that is a project: schemes, map and text.
    #[verifier::rlimit(40)]
    fn write_all<E: Fn(&ProjectMap) -> Result<String, Failure>>(
        &mut self,
        original: &str,
        result: &str,
        proj: &PbxProject,
        unique_map: &UniqueMap,
        pbxproj_path: &str,
        name: &str,
        encode: &E,
    ) -> (r: Result<PipelineOutcome, Failure>)
        requires
            unique_map.wf(),
            unique_map.is_complete(),
            unique_map.holds(registry(proj@, name@)),
            name@ == project_name(pbxproj_path@),
            forall|m: &ProjectMap| #[trigger] call_requires(*encode, (m,)),
        ensures
            final(self).config == old(self).config,
            final(self).logger == old(self).logger,
            exists|s: Stages|
                {
                    &&& #[trigger] grew(old(self).fs.log(), final(self).fs.log(), later_calls(s))
                    &&& is_writing(
                        *old(self).config,
                        pbxproj_path@,
                        encoded_by(*encode),
                        original@,
                        result@,
                        proj@,
                        s,
                        r,
                    )
                },
    {
        let ghost log1 = self.fs.log();
        let ghost config = *self.config;
        let ghost path = pbxproj_path@;
        let ghost encodes = encoded_by(*encode);
        let ghost none = Seq::<FsCall>::empty();
        let ghost read = FsCall::Read { path, reply: None };
        let ghost project = proj@;
        let ghost map = new_uuids(registry(project, name@).rows);
        assert(unique_map.map@ == map);
        let renamed = self.propagate_to_schemes(pbxproj_path, &unique_map.map);
        let ghost schemes = choose|calls: Seq<FsCall>|
            {
                &&& #[trigger] grew(log1, self.fs.log(), calls)
                &&& is_scheme_stage(
                    schemes_active(config, map.len()),
                    rename_edit(map),
                    dir_of(path),
                    calls,
                    said(renamed),
                )
            };
        let ghost log2 = self.fs.log();
        match renamed {
            Ok(_) => {},
            Err(e) => {
                let ghost m = Some(e@[0]);
                let r = Err(e);
                proof {
                    let s = Stages { read, schemes, repairs: none, map: none, finish: none };
                    assert(grew(log1, self.fs.log(), later_calls(s)));
                    assert(one_failed_at_most(m, None, None));
                    assert(is_writing(config, path, encodes, original@, result@, project, s, r));
                }
                return r;
            },
        }
        let repaired = self.repair_orphan_schemes(
            pbxproj_path,
            proj,
            &unique_map.map,
            name,
        );
        let ghost repairs = choose|calls: Seq<FsCall>|
            {
                &&& #[trigger] grew(log2, self.fs.log(), calls)
                &&& is_scheme_stage(
                    schemes_active(config, name_index(project, map).len()),
                    repair_edit(name_index(project, map), valid_uuids(project, map), name@),
                    dir_of(path),
                    calls,
                    said(repaired),
                )
            };
        let ghost log3 = self.fs.log();
        match repaired {
            Ok(_) => {},
            Err(e) => {
                let ghost m = Some(e@[0]);
                let r = Err(e);
                proof {
                    let s = Stages { read, schemes, repairs, map: none, finish: none };
                    assert(grew(log1, self.fs.log(), later_calls(s)));
                    assert(one_failed_at_most(None, m, None));
                    assert(is_writing(config, path, encodes, original@, result@, project, s, r));
                }
                return r;
            },
        }
        let r = self.store(original, result, proj, unique_map, pbxproj_path, name, encode);
        proof {
            let (map_calls, finish, mapped) = choose|
                map_calls: Seq<FsCall>,
                finish: Seq<FsCall>,
                mapped: Option<Seq<char>>,
            |
                {
                    &&& #[trigger] grew(log3, self.fs.log(), map_calls + finish)
                    &&& #[trigger] one_failed_at_most(None, None, mapped)
                    &&& is_store(
                        config,
                        path,
                        encodes,
                        original@,
                        result@,
                        project,
                        map_calls,
                        finish,
                        mapped,
                        r,
                    )
                };
            let s = Stages { read, schemes, repairs, map: map_calls, finish };
            assert(grew(log1, self.fs.log(), later_calls(s)));
            assert(one_failed_at_most(None, None, mapped));
            assert(is_writing(config, path, encodes, original@, result@, project, s, r));
        }
        r
    }

    /// The stages behind reading and parsing a file whose UUIDs are to be made
    /// deterministic.
    #[verifier::rlimit(40)]
    fn process_unique<E: Fn(&ProjectMap) -> Result<String, Failure>>(
        &mut self,
        original: &str,
        clean: &str,
        proj: &PbxProject,
        pbxproj_path: &str,
        name: &str,
        encode: &E,
    ) -> (r: Result<PipelineOutcome, Failure>)
        requires
            forall|m: &ProjectMap| #[trigger] call_requires(*encode, (m,)),
            clean@ == sanitized(original@),
            name@ == project_name(pbxproj_path@),
        ensures
            final(self).config == old(self).config,
            final(self).logger == old(self).logger,
            exists|s: Stages|
                {
                    &&& #[trigger] grew(old(self).fs.log(), final(self).fs.log(), later_calls(s))
                    &&& is_unique_process(
                        *old(self).config,
                        pbxproj_path@,
                        encoded_by(*encode),
                        original@,
                        proj@,
                        s,
                        r,
                    )
                },
    {
        let ghost log1 = self.fs.log();
        let ghost config = *self.config;
        let ghost path = pbxproj_path@;
        let ghost encodes = encoded_by(*encode);
        let ghost project = proj@;
        let mut found = concat("root: ", proj.root_object.as_str());
        found.push_str("  objects: ");
        found.push_str(usize_text(proj.objects.len()).as_str());
        self.logger.verbose(found.as_str());
        let unique_map = build_unique_map(proj, name);
        if self.config.verbose {
            let count = usize_text(unique_map.map.len());
            self.logger.verbose(concat(count.as_str(), " UUID mappings built").as_str());
            self.warn_of(&unique_map.warnings);
        }
        let (renumbered, removed) = match unique_map.apply(clean) {
            Ok(x) => x,
            Err(_) => {
                assert(false);
                return Err(Failure::new(owned("")));
            },
        };
        let mut message = concat("  ✓ UUIDs remapped (", usize_text(removed).as_str());
        message.push_str(" orphan line(s) removed)");
        self.logger.info(message.as_str());
        let (again, stats_again) = sanitize(renumbered.as_str());
        if self.config.verbose {
            self.say(&sanitize_lines(&stats_again));
        }
        assert(again@ == sanitized(uniquified(sanitized(original@), project, name@)));
        let result = self.sort_if_asked(again);
        self.logger.verbose("validating output…");
        match validate_pbxproj(result.as_str()) {
            Ok(_) => {},
            Err(e) => {
                let r = Err(e);
                proof {
                    let none = Seq::<FsCall>::empty();
                    let read = FsCall::Read { path, reply: None };
                    let s = Stages { read, schemes: none, repairs: none, map: none, finish: none };
                    assert(later_calls(s) =~= none);
                    assert(grew(log1, self.fs.log(), later_calls(s)));
                    assert(is_unique_process(config, path, encodes, original@, project, s, r));
                }
                return r;
            },
        }
        let r = self.write_all(
            original,
            result.as_str(),
            proj,
            &unique_map,
            pbxproj_path,
            name,
            encode,
        );
        proof {
            let s = choose|s: Stages|
                {
                    &&& #[trigger] grew(log1, self.fs.log(), later_calls(s))
                    &&& is_writing(config, path, encodes, original@, result@, project, s, r)
                };
            assert(is_unique_process(config, path, encodes, original@, project, s, r));
        }
        r
    }

    /// Reads a project file, repairs it, gives its objects deterministic UUIDs,
    /// sorts it and stores the result, as far as the settings ask for it.
    #[verifier::rlimit(40)]
    pub fn process<E: Fn(&ProjectMap) -> Result<String, Failure>>(
        &mut self,
        pbxproj_path: &str,
        encode: E,
    ) -> (r: Result<PipelineOutcome, Failure>)
        requires
            forall|m: &ProjectMap| #[trigger] call_requires(encode, (m,)),
        ensures
            final(self).config == old(self).config,
            exists|s: Stages|
                {
                    &&& #[trigger] grew(old(self).fs.log(), final(self).fs.log(), all_calls(s))
                    &&& is_process(
                        *old(self).config,
                        pbxproj_path@,
                        encoded_by(encode),
                        s,
                        r,
                    )
                },
    {
        let ghost before = self.fs.log();
        let ghost config = *self.config;
        let ghost path = pbxproj_path@;
        let ghost encodes = encoded_by(encode);
        let ghost none = Seq::<FsCall>::empty();
        let name = infer_project_name(pbxproj_path);
        let reply = self.fs.read_to_string(pbxproj_path);
        let ghost read = FsCall::Read { path, reply: text_reply(reply) };
        let ghost log1 = self.fs.log();
        let original = match reply {
            Ok(t) => t,
            Err(e) => {
                let r = Err(e);
                proof {
                    let s = Stages { read, schemes: none, repairs: none, map: none, finish: none };
                    assert(grew(before, self.fs.log(), all_calls(s)));
                    assert(is_process(config, path, encodes, s, r));
                }
                return r;
            },
        };
        self.logger.info("→ sanitizing…");
        let (clean, stats) = sanitize(original.as_str());
        self.say(&sanitize_lines(&stats));
        if self.config.sanitize_only {
            let r = self.end(original.as_str(), clean.as_str(), pbxproj_path);
            proof {
                let finish = choose|calls: Seq<FsCall>|
                    {
                        &&& #[trigger] grew(log1, self.fs.log(), calls)
                        &&& is_end(config, path, original@, clean@, calls, r)
                    };
                let s = Stages { read, schemes: none, repairs: none, map: none, finish };
                assert(grew(before, self.fs.log(), all_calls(s)));
                assert(is_process(config, path, encodes, s, r));
            }
            return r;
        }
        if !self.config.run_unique() {
            let result = self.sort_if_asked(clean);
            let r = self.end(original.as_str(), result.as_str(), pbxproj_path);
            proof {
                let finish = choose|calls: Seq<FsCall>|
                    {
                        &&& #[trigger] grew(log1, self.fs.log(), calls)
                        &&& is_end(config, path, original@, result@, calls, r)
                    };
                let s = Stages { read, schemes: none, repairs: none, map: none, finish };
                assert(grew(before, self.fs.log(), all_calls(s)));
                assert(is_process(config, path, encodes, s, r));
            }
            return r;
        }
        self.logger.info("→ uniquifying…");
        self.logger.verbose("parsing project structure");
        let proj = match parse_project(clean.as_str()) {
            Ok(p) => p,
            Err(e) => {
                if self.config.verbose {
                    if let ElectrolysisError::Parse { line, message } = &e {
                        self.logger.show("  context around parse error:");
                        self.show(&parse_context(*line, clean.as_str()));
                    }
                }
                let r = Err(
                    parse_failure(
                        e,
                        "failed to parse — run --sanitize-only first if the file is corrupt",
                    ),
                );
                proof {
                    let s = Stages { read, schemes: none, repairs: none, map: none, finish: none };
                    assert(grew(before, self.fs.log(), all_calls(s)));
                    assert(is_process(config, path, encodes, s, r));
                }
                return r;
            },
        };
        let r = self.process_unique(
            original.as_str(),
            clean.as_str(),
            &proj,
            pbxproj_path,
            name.as_str(),
            &encode,
        );
        proof {
            let rest = choose|rest: Stages|
                {
                    &&& #[trigger] grew(log1, self.fs.log(), later_calls(rest))
                    &&& is_unique_process(config, path, encodes, original@, proj@, rest, r)
                };
            let s = Stages { read, ..rest };
            assert(later_calls(s) == later_calls(rest));
            assert(grew(before, self.fs.log(), all_calls(s)));
            assert(is_process(config, path, encodes, s, r));
        }
        r
    }

    /// Writes the map of a project file.
    pub fn map<E: Fn(&ProjectMap) -> Result<String, Failure>>(
        &mut self,
        pbxproj_path: &str,
        output: Option<&str>,
        encode: E,
    ) -> (r: Result<(), Failure>)
        requires
            forall|m: &ProjectMap| #[trigger] call_requires(encode, (m,)),
        ensures
            final(self).config == old(self).config,
            exists|calls: Seq<FsCall>|
                {
                    &&& #[trigger] grew(old(self).fs.log(), final(self).fs.log(), calls)
                    &&& is_mapping(
                        pbxproj_path@,
                        crate::parser::str_view(output),
                        encoded_by(encode),
                        calls,
                        r,
                    )
                },
    {
        let ghost before = self.fs.log();
        let ghost out = crate::parser::str_view(output);
        let ghost encodes = encoded_by(encode);
        let name = infer_project_name(pbxproj_path);
        self.logger.info("→ reading and sanitizing…");
        let reply = self.fs.read_to_string(pbxproj_path);
        let ghost first = FsCall::Read { path: pbxproj_path@, reply: text_reply(reply) };
        let ghost log1 = self.fs.log();
        let raw = match reply {
            Ok(t) => t,
            Err(e) => {
                let r = Err(e);
                proof {
                    let calls = seq![first];
                    assert(grew(before, self.fs.log(), calls));
                    assert(is_mapping(pbxproj_path@, out, encodes, calls, r));
                }
                return r;
            },
        };
        let (clean, _) = sanitize(raw.as_str());
        self.logger.info("→ parsing…");
        let proj = match parse_project(clean.as_str()) {
            Ok(p) => p,
            Err(e) => {
                let r = Err(
                    parse_failure(
                        e,
                        "failed to parse — try running `electrolysis <path>` first to repair the file",
                    ),
                );
                proof {
                    let calls = seq![first];
                    assert(grew(before, self.fs.log(), calls));
                    assert(is_mapping(pbxproj_path@, out, encodes, calls, r));
                }
                return r;
            },
        };
        let objects = usize_text(proj.objects.len());
        self.logger.verbose(concat("objects: ", objects.as_str()).as_str());
        self.logger.info("→ building UUID map…");
        let unique_map = build_unique_map(&proj, name.as_str());
        let mut mapped = concat("mapped ", usize_text(unique_map.map.len()).as_str());
        mapped.push_str(" UUIDs");
        self.logger.verbose(mapped.as_str());
        self.logger.info("→ generating project map…");
        let place = match output {
            Some(p) => owned(p),
            None => default_map_path(directory(pbxproj_path).as_str()),
        };
        let r = self.write_map(
            &proj,
            &unique_map,
            name.as_str(),
            place.as_str(),
            "cannot write ",
            "",
            &encode,
        );
        proof {
            let rest = choose|calls: Seq<FsCall>|
                {
                    &&& #[trigger] grew(log1, self.fs.log(), calls)
                    &&& is_map_stage(
                        true,
                        proj@,
                        name@,
                        place@,
                        "cannot write "@,
                        encodes,
                        calls,
                        said(r),
                    )
                };
            let calls = seq![first] + rest;
            assert(calls.skip(1) =~= rest);
            assert(grew(before, self.fs.log(), calls));
            assert(is_mapping(pbxproj_path@, out, encodes, calls, r));
        }
        r
    }

    /// Compares a project file with a reference map.  Returns the difference and
    /// its text, which is also written if there is a place for it.
    #[verifier::rlimit(60)]
    #[verifier::spinoff_prover]
    pub fn diff<
        D: Fn(&str) -> Result<ProjectMap, Failure>,
        E: Fn(&MapDiff) -> Result<String, Failure>,
    >(
        &mut self,
        pbxproj_path: &str,
        reference_path: &str,
        output: Option<&str>,
        decode: D,
        encode: E,
    ) -> (r: Result<(MapDiff, String), Failure>)
        requires
            forall|t: &str| #[trigger] call_requires(decode, (t,)),
            forall|d: &MapDiff| #[trigger] call_requires(encode, (d,)),
        ensures
            final(self).config == old(self).config,
            exists|calls: Seq<FsCall>|
                {
                    &&& #[trigger] grew(old(self).fs.log(), final(self).fs.log(), calls)
                    &&& is_comparison(
                        pbxproj_path@,
                        reference_path@,
                        crate::parser::str_view(output),
                        decoded_by(decode),
                        diff_encoded_by(encode),
                        calls,
                        r,
                    )
                },
    {
        let ghost before = self.fs.log();
        let ghost path = pbxproj_path@;
        let ghost place = reference_path@;
        let ghost out = crate::parser::str_view(output);
        let ghost decodes = decoded_by(decode);
        let ghost encodes = diff_encoded_by(encode);
        let name = infer_project_name(pbxproj_path);
        let reply = self.fs.read_to_string(reference_path);
        let ghost first = FsCall::Read { path: place, reply: text_reply(reply) };
        let ghost one = seq![first];
        assert(grew(before, self.fs.log(), one));
        let reference_text = match reply {
            Ok(t) => t,
            Err(e) => {
                let r = Err(e.context(concat("cannot read reference map: ", reference_path)));
                assert(is_comparison(path, place, out, decodes, encodes, one, r));
                return r;
            },
        };
        let reference_str = reference_text.as_str();
        let decoded = decode(reference_str);
        assert(call_ensures(decode, (reference_str,), decoded));
        let reference = match decoded {
            Ok(m) => m,
            Err(e) => {
                let r = Err(e.context(owned("failed to parse reference map JSON")));
                assert(decodes(reference_text@, None));
                assert(is_comparison(path, place, out, decodes, encodes, one, r));
                return r;
            },
        };
        assert(decodes(reference_text@, Some(reference)));
        self.logger.verbose("building current map…");
        let reply = self.fs.read_to_string(pbxproj_path);
        let ghost second = FsCall::Read { path, reply: text_reply(reply) };
        let ghost two = one.push(second);
        let ghost rest = seq![second];
        assert(grew(before, self.fs.log(), two));
        assert(two[0] == first && two.skip(1) =~= rest);
        assert(decodes(two[0]->reply->Some_0, Some(reference)));
        let raw = match reply {
            Ok(t) => t,
            Err(e) => {
                let r = Err(e.context(concat("cannot read ", pbxproj_path)));
                assert(is_comparison_with(reference, path, out, encodes, rest, r));
                assert(is_comparison(path, place, out, decodes, encodes, two, r));
                return r;
            },
        };
        let (clean, _) = sanitize(raw.as_str());
        let proj = match parse_project(clean.as_str()) {
            Ok(p) => p,
            Err(e) => {
                let r = Err(parse_failure(e, "failed to parse current project"));
                assert(is_comparison_with(reference, path, out, encodes, rest, r));
                assert(is_comparison(path, place, out, decodes, encodes, two, r));
                return r;
            },
        };
        let unique_map = build_unique_map(&proj, name.as_str());
        let current = build_map(&proj, &unique_map, name.as_str());
        assert(is_map_of_text(current, raw@, name@));
        let diff = diff_maps(&reference, &current);
        assert(is_diff(diff, reference, current));
        let encoded = encode(&diff);
        assert(call_ensures(encode, (&diff,), encoded));
        assert(encodes(diff, text_reply(encoded)));
        assert(rest.skip(1) =~= Seq::<FsCall>::empty());
        let text = match encoded {
            Ok(t) => t,
            Err(e) => {
                let r = Err(e.context(owned("failed to serialise diff")));
                assert(is_report(diff, out, encodes, rest.skip(1), r));
                assert(is_comparison_with(reference, path, out, encodes, rest, r));
                assert(is_comparison(path, place, out, decodes, encodes, two, r));
                return r;
            },
        };
        assert(encodes(diff, Some(text@)));
        match output {
            Some(p) => {
                let outcome = self.fs.write_atomic(p, text.as_str());
                let ghost write = FsCall::Write {
                    path: p@,
                    content: text@,
                    done: outcome is Ok,
                };
                let ghost three = two.push(write);
                assert(grew(before, self.fs.log(), three));
                assert(three[0] == first && three.skip(1) =~= rest.push(write));
                assert(rest.push(write).skip(1) =~= seq![write]);
                let r = match outcome {
                    Ok(_) => {
                        self.logger.info(concat("✓ diff written: ", p).as_str());
                        Ok((diff, text))
                    },
                    Err(e) => Err(e.context(concat("cannot write ", p))),
                };
                assert(is_report(diff, out, encodes, seq![write], r));
                assert(is_comparison_with(reference, path, out, encodes, rest.push(write), r));
                assert(is_comparison(path, place, out, decodes, encodes, three, r));
                r
            },
            None => {
                let r = Ok((diff, text));
                assert(is_report(diff, out, encodes, rest.skip(1), r));
                assert(is_comparison_with(reference, path, out, encodes, rest, r));
                assert(is_comparison(path, place, out, decodes, encodes, two, r));
                r
            },
        }
    }
}

} // verus!
