//! What a run does to the schemes of a project, and to its files.

use crate::cli::{is_config, Overrides};
use crate::config::{is_default, Config};
use crate::filesystem::{Failure, FsCall};
use crate::mapper::ProjectMap;
use crate::parser::{feeds, line_at, project_in};
use crate::paths::{dir_of, project_name};
use crate::pattern::{hits, BLUEPRINT};
use crate::pipeline::{
    backup_place, destination, is_process, is_scheme_stage, name_index, one_failed_at_most, said,
    sanitize_report, schemes_active, valid_uuids, PipelineOutcome, Stages,
};
use crate::place_laws::{is_directory, is_name, law_name_below_directory, law_stem_and_extension};
use crate::repair_laws::law_repair_takes_effect;
use crate::sanitizer::{sanitized, SanitizeStats};
use crate::scheme_laws::{followed, identifiers, is_formed, law_identifiers_follow_targets};
use crate::scheme_updater::{
    are_visits, attribute, flat, holds_old, is_scheme, is_scheme_run, is_visit, is_walk, modified,
    rename_edit, renamed, repair_edit, repaired_block, scanned, schemes_dir, visit_failed,
    walk_failed, UpdateStats,
};
use crate::second_run_laws::{keeps_uuids, sorts};
use crate::table::{distinct_keys, lemma_upsert, lookup};
use crate::text::{decimal, uppercase};
use crate::uniquifier::{new_uuids, normalised, registry};
use vstd::prelude::*;

verus! {

// ── References ───────────────────────────────────────────────────────────────

/// A reference to this project whose UUID is that of no object gets the UUID of the
/// target of its name; one whose name leads nowhere stays as it is.
pub proof fn law_orphaned_reference_is_repaired(
    block: Seq<char>,
    names: Seq<(Seq<char>, Seq<char>)>,
    valid: Set<Seq<char>>,
    container: Seq<char>,
    id: Seq<char>,
    name: Seq<char>,
)
    requires
        attribute(block, "BlueprintIdentifier"@) == Some(id),
        attribute(block, "BlueprintName"@) == Some(name),
        attribute(block, "ReferencedContainer"@) == Some("container:"@ + container),
        !valid.contains(id),
        !valid.contains(uppercase(id)),
        lookup(names, name) is Some ==> !lookup(names, name)->Some_0.contains('"'),
    ensures
        ({
            let r = repaired_block(block, names, valid, container);
            match lookup(names, name) {
                Some(u) => attribute(r, "BlueprintIdentifier"@) == Some(u),
                None => r == block,
            }
        }),
{
    if let Some(u) = lookup(names, name) {
        law_repair_takes_effect(block, u);
    }
}

// ── Identifiers ──────────────────────────────────────────────────────────────

/// The identifiers of a scheme that is edited are those of the scheme, in their
/// order, each with the new UUID of its target if that has one.
pub proof fn law_edited_scheme_follows_targets(map: Seq<(Seq<char>, Seq<char>)>, xml: Seq<char>)
    requires
        is_formed(map),
    ensures
        identifiers(rename_edit(map)(xml).0) == Seq::new(
            identifiers(xml).len(),
            |k: int| followed(map, identifiers(xml)[k]),
        ),
{
    let ids = identifiers(xml);
    let new = Seq::new(ids.len(), |k: int| followed(map, ids[k]));
    if holds_old(map, xml) {
        law_identifiers_follow_targets(map, xml);
    } else {
        assert forall|k: int| 0 <= k < ids.len() implies ids[k] == new[k] by {
            let h = hits(BLUEPRINT@, xml)[k];
            assert(ids[k] == h.first);
            assert(renamed(map, hits(BLUEPRINT@, xml)[k]) == lookup(map, uppercase(h.first)));
        }
        assert(ids =~= new);
    }
}

// ── Places ───────────────────────────────────────────────────────────────────

/// The schemes of a bundle stand in its shared data, in files with an extension of
/// their own.
pub proof fn law_schemes_have_their_place(bundle: Seq<char>, stem: Seq<char>)
    requires
        is_directory(bundle),
        stem.len() > 0,
        crate::difference_laws::lacks(stem, '/'),
    ensures
        schemes_dir(bundle) == bundle + "/"@ + "xcshareddata"@ + "/"@ + "xcschemes"@,
        is_scheme(schemes_dir(bundle) + "/"@ + (stem + "."@ + "xcscheme"@)),
        !is_scheme(schemes_dir(bundle) + "/"@ + (stem + "."@ + "plist"@)),
{
    reveal_strlit("/");
    reveal_strlit(".");
    reveal_strlit("..");
    reveal_strlit("xcshareddata");
    reveal_strlit("xcschemes");
    reveal_strlit("xcscheme");
    reveal_strlit("plist");
    let a = "xcshareddata"@;
    let b = "xcschemes"@;
    assert(a[0] != '.' && b[0] != '.');
    assert(is_name(a));
    assert(is_name(b));
    law_name_below_directory(bundle, a);
    let d = bundle + "/"@ + a;
    assert(d.last() == a.last());
    assert(is_directory(d));
    law_name_below_directory(d, b);
    let e = d + "/"@ + b;
    assert(e.last() == b.last());
    assert(is_directory(e));
    let n = stem + "."@ + "xcscheme"@;
    assert(n.last() == 'e');
    assert(is_name(n));
    law_stem_and_extension(e, stem, "xcscheme"@);
    let m = stem + "."@ + "plist"@;
    assert(m.last() == 't');
    assert(is_name(m));
    law_stem_and_extension(e, stem, "plist"@);
    assert("plist"@.len() != "xcscheme"@.len());
}

/// A result goes to where it was asked for, or else back to the file; a backup too,
/// or else beside that, with an extension of its own.
pub proof fn law_results_go_where_asked(
    config: Config,
    path: Seq<char>,
    d: Seq<char>,
    stem: Seq<char>,
    extension: Seq<char>,
)
    requires
        is_directory(d),
        stem.len() > 0,
        crate::difference_laws::lacks(stem, '/'),
        crate::difference_laws::lacks(extension, '/'),
        crate::difference_laws::lacks(extension, '.'),
        is_name(stem + "."@ + extension),
    ensures
        config.output is None ==> destination(config, path) == path,
        config.output is Some ==> destination(config, path) == config.output->Some_0@,
        config.backup_path is Some ==> backup_place(config, path) == config.backup_path->Some_0@,
        config.backup_path is None && destination(config, path) == d + "/"@ + (stem + "."@
            + extension) ==> backup_place(config, path) == d + "/"@ + (stem + "."@
            + "pbxproj.bak"@),
{
    crate::place_laws::lemma_extended(d, stem, extension, "pbxproj.bak"@);
}

// ── Schemes ──────────────────────────────────────────────────────────────────

/// What the calls leave in a file that call `k` read: what the next call wrote to it,
/// or else what was read.
pub open spec fn left_in(calls: Seq<FsCall>, k: int) -> Seq<char> {
    if k + 1 < calls.len() && calls[k + 1] is Write {
        calls[k + 1]->content
    } else {
        calls[k]->reply->Some_0
    }
}

/// The calls read the file, and leave in it what the edit makes of it.
pub open spec fn is_edited(
    edit: spec_fn(Seq<char>) -> (Seq<char>, nat),
    calls: Seq<FsCall>,
    path: Seq<char>,
    k: int,
) -> bool {
    &&& 0 <= k < calls.len()
    &&& calls[k] is Read
    &&& calls[k]->Read_path == path
    &&& calls[k]->reply is Some
    &&& edit(calls[k]->reply->Some_0).1 > 0 ==> left_in(calls, k) == edit(
        calls[k]->reply->Some_0,
    ).0
    &&& edit(calls[k]->reply->Some_0).1 == 0 ==> left_in(calls, k) == calls[k]->reply->Some_0
    &&& k + 1 < calls.len() && calls[k + 1] is Write ==> calls[k + 1]->Write_path == path
        && calls[k + 1]->Write_done
}

proof fn lemma_flat_at(visits: Seq<Seq<FsCall>>, i: int)
    requires
        0 <= i < visits.len(),
    ensures
        ({
            let at = flat(visits.take(i)).len() as int;
            &&& at + visits[i].len() <= flat(visits).len()
            &&& forall|k: int|
                0 <= k < visits[i].len() ==> flat(visits)[at + k] == #[trigger] visits[i][k]
        }),
    decreases visits.len(),
{
    let rest = visits.drop_last();
    if i == visits.len() - 1 {
        assert(visits.take(i) =~= rest);
    } else {
        lemma_flat_at(rest, i);
        assert(rest.take(i) =~= visits.take(i));
        let at = flat(visits.take(i)).len() as int;
        assert forall|k: int| 0 <= k < visits[i].len() implies flat(visits)[at + k]
            == #[trigger] visits[i][k] by {
            assert(rest[i] == visits[i]);
            assert(flat(rest)[at + k] == rest[i][k]);
        }
    }
}

/// A visit begins with a read.
proof fn lemma_next_is_read(
    edit: spec_fn(Seq<char>) -> (Seq<char>, nat),
    paths: Seq<Seq<char>>,
    visits: Seq<Seq<FsCall>>,
    i: int,
)
    requires
        is_walk(edit, paths, visits),
        0 <= i <= visits.len(),
    ensures
        flat(visits.take(i)).len() < flat(visits).len() ==> !(flat(visits)[flat(
            visits.take(i),
        ).len() as int] is Write),
        flat(visits.take(i)).len() <= flat(visits).len(),
    decreases visits.len() - i,
{
    if i == visits.len() {
        assert(visits.take(i) =~= visits);
    } else {
        lemma_flat_at(visits, i);
        assert(is_visit(edit, paths[i], visits[i]));
        assert(visits.take(i + 1).drop_last() =~= visits.take(i));
        assert(visits.take(i + 1).last() == visits[i]);
        if visits[i].len() == 0 {
            assert(flat(visits.take(i + 1)) =~= flat(visits.take(i)));
            lemma_next_is_read(edit, paths, visits, i + 1);
        } else {
            assert(flat(visits)[flat(visits.take(i)).len() as int + 0] == visits[i][0]);
        }
    }
}

/// Where editing the schemes succeeds, every scheme of the directory is read, and
/// what the edit makes of it is left there.
pub proof fn law_every_scheme_is_edited(
    edit: spec_fn(Seq<char>) -> (Seq<char>, nat),
    bundle: Seq<char>,
    calls: Seq<FsCall>,
    r: Result<UpdateStats, Failure>,
    paths: Seq<Seq<char>>,
    i: int,
)
    requires
        is_scheme_run(edit, bundle, calls, r),
        r is Ok,
        calls[0]->found == Some(paths),
        0 <= i < paths.len(),
        is_scheme(paths[i]),
    ensures
        exists|k: int| #[trigger] is_edited(edit, calls, paths[i], k),
{
    let visits = choose|visits: Seq<Seq<FsCall>>| #[trigger]
        are_visits(edit, paths, visits, calls, r);
    let all = flat(visits);
    assert(visits.len() == paths.len());
    assert(is_visit(edit, paths[i], visits[i]));
    assert(!visit_failed(visits[i])) by {
        if i == visits.len() - 1 {
            assert(visits[i] == visits.last());
        }
    }
    lemma_flat_at(visits, i);
    lemma_next_is_read(edit, paths, visits, i + 1);
    assert(visits.take(i + 1).drop_last() =~= visits.take(i));
    assert(visits.take(i + 1).last() == visits[i]);
    let at = flat(visits.take(i)).len() as int;
    let k = at + 1;
    assert(calls.skip(1) == all);
    assert forall|j: int| 0 <= j < all.len() implies calls[j + 1] == #[trigger] all[j] by {
        assert(calls.skip(1)[j] == all[j]);
    }
    assert(all[at + 0] == visits[i][0]);
    assert(calls[k] == visits[i][0]);
    if visits[i].len() == 2 {
        assert(all[at + 1] == visits[i][1]);
        assert(calls[k + 1] == visits[i][1]);
    } else {
        assert(flat(visits.take(i + 1)).len() == at + 1);
        if k + 1 < calls.len() {
            assert(calls.len() == all.len() + 1);
            assert(calls[at + 1 + 1] == all[at + 1]);
        }
    }
    assert(is_edited(edit, calls, paths[i], k));
}

/// The call wrote a file.
pub open spec fn has_written(call: FsCall) -> bool {
    call is Write && call->Write_done
}

proof fn lemma_written_next(calls: Seq<FsCall>, c: FsCall)
    ensures
        calls.push(c).filter(|c: FsCall| has_written(c)).len() == calls.filter(
            |c: FsCall| has_written(c),
        ).len() + if has_written(c) {
            1int
        } else {
            0int
        },
{
    reveal(Seq::filter);
    assert(calls.push(c).drop_last() =~= calls);
}

proof fn lemma_counted(
    edit: spec_fn(Seq<char>) -> (Seq<char>, nat),
    paths: Seq<Seq<char>>,
    visits: Seq<Seq<FsCall>>,
    n: int,
)
    requires
        is_walk(edit, paths, visits),
        !walk_failed(visits),
        0 <= n <= visits.len(),
    ensures
        scanned(visits.take(n)) == paths.take(n).filter(|p: Seq<char>| is_scheme(p)).len(),
        modified(visits.take(n)) == flat(visits.take(n)).filter(|c: FsCall| has_written(c)).len(),
    decreases n,
{
    reveal(Seq::filter);
    let vs = visits.take(n);
    if n == 0 {
        assert(vs =~= Seq::empty());
        assert(paths.take(0) =~= Seq::empty());
    } else {
        lemma_counted(edit, paths, visits, n - 1);
        let v = visits[n - 1];
        assert(vs.drop_last() =~= visits.take(n - 1));
        assert(vs.last() == v);
        assert(paths.take(n).drop_last() =~= paths.take(n - 1));
        assert(paths.take(n).last() == paths[n - 1]);
        assert(is_visit(edit, paths[n - 1], v));
        assert(!visit_failed(v)) by {
            if n == visits.len() {
                assert(v == visits.last());
            }
        }
        let a = flat(visits.take(n - 1));
        assert(flat(vs) == a + v);
        if v.len() == 0 {
            assert(a + v =~= a);
        } else if v.len() == 1 {
            lemma_written_next(a, v[0]);
            assert(a + v =~= a.push(v[0]));
        } else {
            lemma_written_next(a, v[0]);
            lemma_written_next(a.push(v[0]), v[1]);
            assert(a + v =~= a.push(v[0]).push(v[1]));
        }
    }
}

/// What is said of editing the schemes of a directory counts the schemes in it, and
/// the files written.
pub proof fn law_schemes_are_counted(
    edit: spec_fn(Seq<char>) -> (Seq<char>, nat),
    bundle: Seq<char>,
    calls: Seq<FsCall>,
    r: Result<UpdateStats, Failure>,
    paths: Seq<Seq<char>>,
)
    requires
        is_scheme_run(edit, bundle, calls, r),
        r is Ok,
        calls[0]->found == Some(paths),
    ensures
        r->Ok_0.files_scanned == paths.filter(|p: Seq<char>| is_scheme(p)).len(),
        r->Ok_0.files_modified == calls.skip(1).filter(|c: FsCall| has_written(c)).len(),
{
    let visits = choose|visits: Seq<Seq<FsCall>>| #[trigger]
        are_visits(edit, paths, visits, calls, r);
    let n = visits.len() as int;
    lemma_counted(edit, paths, visits, n);
    assert(visits.take(n) =~= visits);
    assert(paths.take(n) =~= paths);
}

/// A run that makes UUIDs deterministic, and succeeds, edits every scheme of the
/// bundle with the new UUIDs of the project, so that its identifiers lead to the
/// same targets as before; and then mends the references that lead nowhere.
pub proof fn law_schemes_follow_the_project(
    config: Config,
    path: Seq<char>,
    encodes: spec_fn(ProjectMap, Option<Seq<char>>) -> bool,
    s: Stages,
    r: Result<PipelineOutcome, Failure>,
    text: Seq<char>,
)
    requires
        is_process(config, path, encodes, s, r),
        r is Ok,
        config.update_schemes,
        !config.check && !config.sanitize_only && !config.sort_only,
        s.read->reply == Some(text),
    ensures
        project_in(sanitized(text)) is Some,
        ({
            let p = project_in(sanitized(text))->Some_0;
            let map = new_uuids(registry(p, project_name(path)).rows);
            let names = name_index(p, map);
            &&& map.len() > 0 ==> exists|stats: Result<UpdateStats, Failure>| #[trigger]
                is_scheme_run(rename_edit(map), dir_of(path), s.schemes, stats) && stats is Ok
            &&& names.len() > 0 ==> exists|stats: Result<UpdateStats, Failure>| #[trigger]
                is_scheme_run(
                    repair_edit(names, valid_uuids(p, map), project_name(path)),
                    dir_of(path),
                    s.repairs,
                    stats,
                ) && stats is Ok
        }),
{
    reveal(is_scheme_stage);
    let p = project_in(sanitized(text))->Some_0;
    let map = new_uuids(registry(p, project_name(path)).rows);
    let names = name_index(p, map);
    let (renamed, repaired, mapped) = choose|
        renamed: Option<Seq<char>>,
        repaired: Option<Seq<char>>,
        mapped: Option<Seq<char>>,
    |
        {
            &&& #[trigger] one_failed_at_most(renamed, repaired, mapped)
            &&& is_scheme_stage(
                schemes_active(config, map.len()),
                rename_edit(map),
                dir_of(path),
                s.schemes,
                renamed,
            )
            &&& renamed is None ==> {
                &&& is_scheme_stage(
                    schemes_active(config, names.len()),
                    repair_edit(names, valid_uuids(p, map), project_name(path)),
                    dir_of(path),
                    s.repairs,
                    repaired,
                )
                &&& repaired is None
            }
            &&& renamed is None
        };
    if map.len() > 0 {
        let stats = choose|stats: Result<UpdateStats, Failure>| #[trigger]
            is_scheme_run(rename_edit(map), dir_of(path), s.schemes, stats) && renamed == said(
                stats,
            );
        assert(stats is Ok);
    }
    if names.len() > 0 {
        let stats = choose|stats: Result<UpdateStats, Failure>| #[trigger]
            is_scheme_run(
                repair_edit(names, valid_uuids(p, map), project_name(path)),
                dir_of(path),
                s.repairs,
                stats,
            ) && repaired == said(stats);
        assert(stats is Ok);
    }
}

// ── Settings ─────────────────────────────────────────────────────────────────

/// A setting of the command line counts, where there is one; else that of the file
/// does.
pub proof fn law_command_line_goes_first(c: Config, cli: Overrides, base: Config)
    requires
        is_config(c, cli, base),
    ensures
        cli.quiet is Some ==> cli.quiet == Some(c.quiet),
        cli.quiet is None ==> c.quiet == base.quiet,
        cli.verbose is Some ==> cli.verbose == Some(c.verbose),
        cli.verbose is None ==> c.verbose == base.verbose,
        cli.sanitize_only is Some ==> cli.sanitize_only == Some(c.sanitize_only),
        cli.sanitize_only is None ==> c.sanitize_only == base.sanitize_only,
        cli.unique is Some ==> cli.unique == Some(c.unique_only),
        cli.unique is None ==> c.unique_only == base.unique_only,
        cli.sort is Some ==> cli.sort == Some(c.sort_only),
        cli.sort is None ==> c.sort_only == base.sort_only,
        cli.combine_commit is Some ==> cli.combine_commit == Some(c.combine_commit),
        cli.combine_commit is None ==> c.combine_commit == base.combine_commit,
        cli.check is Some ==> cli.check == Some(c.check),
        cli.check is None ==> c.check == base.check,
        cli.backup is Some ==> cli.backup == Some(c.backup),
        cli.backup is None ==> c.backup == base.backup,
        cli.sort_main_group is Some ==> cli.sort_main_group == Some(c.sort_main_group),
        cli.sort_main_group is None ==> c.sort_main_group == base.sort_main_group,
        cli.no_update_schemes is Some ==> cli.no_update_schemes == Some(!c.update_schemes),
        cli.no_update_schemes is None ==> c.update_schemes == base.update_schemes,
        cli.watch is Some ==> cli.watch == Some(c.watch),
        cli.watch is None ==> c.watch == base.watch,
        cli.output is Some ==> c.output == cli.output,
        cli.output is None ==> c.output == base.output,
        cli.backup_path is Some ==> c.backup_path == cli.backup_path,
        cli.backup_path is None ==> c.backup_path == base.backup_path,
{
}

/// A run without settings makes UUIDs deterministic and sorts, but for the main
/// group; it edits schemes, and stores the result in the file, without a backup.
pub proof fn law_run_without_settings(c: Config, path: Seq<char>)
    requires
        is_default(c),
    ensures
        !keeps_uuids(c),
        sorts(c),
        !c.sort_main_group,
        c.update_schemes,
        !c.check,
        !c.backup,
        destination(c, path) == path,
{
}

// ── What is said ─────────────────────────────────────────────────────────────

/// What is said of a repair has a line, with the number, for each sort of damage
/// that was found, and for no other.
pub proof fn law_every_repair_is_reported(s: SanitizeStats)
    ensures
        ({
            let r = sanitize_report(s);
            let n = |k: usize| if k > 0 { 1int } else { 0int };
            &&& s.conflict_hunks_resolved > 0 ==> r.contains(
                "  ✓ resolved "@ + decimal(s.conflict_hunks_resolved as nat)
                    + " merge conflict hunk(s)"@,
            )
            &&& s.duplicate_objects_removed > 0 ==> r.contains(
                "  ✓ removed "@ + decimal(s.duplicate_objects_removed as nat)
                    + " duplicate object(s)"@,
            )
            &&& s.duplicate_list_items_removed > 0 ==> r.contains(
                "  ✓ removed "@ + decimal(s.duplicate_list_items_removed as nat)
                    + " duplicate list item(s)"@,
            )
            &&& s.orphan_sections_removed > 0 ==> r.contains(
                "  ✓ removed "@ + decimal(s.orphan_sections_removed as nat)
                    + " orphan section(s)"@,
            )
            &&& s.orphan_object_bodies_removed > 0 ==> r.contains(
                "  ✓ removed "@ + decimal(s.orphan_object_bodies_removed as nat)
                    + " orphan object body line(s)"@,
            )
            &&& r.len() == n(s.conflict_hunks_resolved) + n(s.duplicate_objects_removed) + n(
                s.duplicate_list_items_removed,
            ) + n(s.orphan_sections_removed) + n(s.orphan_object_bodies_removed)
        }),
{
    reveal_strlit("  ✓ ");
    reveal_strlit("resolved ");
    reveal_strlit("removed ");
    reveal_strlit("  ✓ resolved ");
    reveal_strlit("  ✓ removed ");
    assert("  ✓ "@ + "resolved "@ =~= "  ✓ resolved "@);
    assert("  ✓ "@ + "removed "@ =~= "  ✓ removed "@);
    let r = sanitize_report(s);
    let a: int = if s.conflict_hunks_resolved > 0 { 1 } else { 0 };
    let b: int = a + if s.duplicate_objects_removed > 0 { 1int } else { 0int };
    let c: int = b + if s.duplicate_list_items_removed > 0 { 1int } else { 0int };
    let d: int = c + if s.orphan_sections_removed > 0 { 1int } else { 0int };
    if s.conflict_hunks_resolved > 0 {
        assert(r[0] == "  ✓ resolved "@ + decimal(s.conflict_hunks_resolved as nat)
            + " merge conflict hunk(s)"@);
    }
    if s.duplicate_objects_removed > 0 {
        assert(r[a] == "  ✓ removed "@ + decimal(s.duplicate_objects_removed as nat)
            + " duplicate object(s)"@);
    }
    if s.duplicate_list_items_removed > 0 {
        assert(r[b] == "  ✓ removed "@ + decimal(s.duplicate_list_items_removed as nat)
            + " duplicate list item(s)"@);
    }
    if s.orphan_sections_removed > 0 {
        assert(r[c] == "  ✓ removed "@ + decimal(s.orphan_sections_removed as nat)
            + " orphan section(s)"@);
    }
    if s.orphan_object_bodies_removed > 0 {
        assert(r[d] == "  ✓ removed "@ + decimal(s.orphan_object_bodies_removed as nat)
            + " orphan object body line(s)"@);
    }
}

/// An error is reported for the line that it stands in: the first line is line one,
/// and each line feed ends one.
pub proof fn law_errors_have_their_lines(s: Seq<u8>, p: int)
    requires
        0 <= p < s.len(),
        p < usize::MAX - 1,
    ensures
        line_at(s, 0) == 1,
        line_at(s, p + 1) == line_at(s, p) + if s[p] == 10 {
            1int
        } else {
            0int
        },
{
    lemma_feeds(s, p);
}

proof fn lemma_feeds(s: Seq<u8>, p: int)
    requires
        0 <= p,
    ensures
        feeds(s, p) <= p,
    decreases p,
{
    if p > 0 {
        lemma_feeds(s, p - 1);
    }
}

// ── Names of UUIDs ───────────────────────────────────────────────────────────

proof fn lemma_normalised_distinct(map: Seq<(Seq<char>, Seq<char>)>)
    ensures
        distinct_keys(normalised(map)),
    decreases map.len(),
{
    if map.len() > 0 {
        lemma_normalised_distinct(map.drop_last());
        lemma_upsert(normalised(map.drop_last()), uppercase(map.last().0), map.last().1);
    }
}

/// A UUID leads to its new one in whatever case it is written, if no other is the
/// same but for its case.
pub proof fn law_uuids_are_found_in_any_case(map: Seq<(Seq<char>, Seq<char>)>, i: int)
    requires
        0 <= i < map.len(),
        forall|j: int|
            0 <= j < map.len() && j != i ==> uppercase((#[trigger] map[j]).0) != uppercase(
                map[i].0,
            ),
    ensures
        lookup(normalised(map), uppercase(map[i].0)) == Some(map[i].1),
    decreases map.len(),
{
    let rest = map.drop_last();
    lemma_normalised_distinct(rest);
    lemma_upsert(normalised(rest), uppercase(map.last().0), map.last().1);
    if i < rest.len() {
        assert(uppercase(map[map.len() - 1].0) != uppercase(map[i].0));
        assert forall|j: int| 0 <= j < rest.len() && j != i implies uppercase(
            (#[trigger] rest[j]).0,
        ) != uppercase(rest[i].0) by {
            assert(rest[j] == map[j]);
        }
        law_uuids_are_found_in_any_case(rest, i);
    }
}

} // verus!
