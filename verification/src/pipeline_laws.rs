//! What holds of processing a file as a whole.

use crate::calendar::is_timestamp;
use crate::config::Config;
use crate::filesystem::{Failure, FsCall};
use crate::mapper::{
    is_diff, is_map_of, node, records, table_view, views, DiffStatus, MapDiff, ProjectMap,
};
use crate::mapper_laws::{law_equal_maps_do_not_differ, law_rows_unique, lemma_same_shape_itself};
use crate::parser::project_in;
use crate::paths::project_name;
use crate::pipeline::{
    all_calls, destination, is_comparison, is_comparison_with, is_map_of_text, is_map_stage,
    is_map_text, is_mapping, is_process, is_report, is_scheme_stage, is_store, later_calls,
    sorted_if_asked, uniquified, PipelineOutcome, Stages,
};
use crate::sanitizer::sanitized;
use crate::uniquifier::{new_uuids, registry};
use vstd::prelude::*;

verus! {

/// The call changes no file.
pub open spec fn only_reads(call: FsCall) -> bool {
    call is Read || call is List
}

/// A check changes no file: nothing is done but to read the project file.
pub proof fn law_check_changes_nothing(
    config: Config,
    path: Seq<char>,
    encodes: spec_fn(ProjectMap, Option<Seq<char>>) -> bool,
    s: Stages,
    r: Result<PipelineOutcome, Failure>,
)
    requires
        config.check,
        is_process(config, path, encodes, s, r),
    ensures
        all_calls(s) == seq![s.read],
        only_reads(s.read),
        r is Ok ==> r->Ok_0 != PipelineOutcome::Modified,
{
    reveal(is_scheme_stage);
    reveal(is_map_stage);
    reveal(is_store);
    assert(all_calls(s) =~= seq![s.read]);
}

/// A file that needs no change is not written.
pub proof fn law_clean_is_not_written(
    config: Config,
    path: Seq<char>,
    encodes: spec_fn(ProjectMap, Option<Seq<char>>) -> bool,
    s: Stages,
    r: Result<PipelineOutcome, Failure>,
)
    requires
        is_process(config, path, encodes, s, r),
        r is Ok,
        r->Ok_0 == PipelineOutcome::Clean,
    ensures
        s.finish.len() == 0,
{
    reveal(is_store);
}

/// What is stored is a project: a text that does not parse is not written.
pub proof fn law_only_projects_are_stored(
    config: Config,
    path: Seq<char>,
    encodes: spec_fn(ProjectMap, Option<Seq<char>>) -> bool,
    s: Stages,
    r: Result<PipelineOutcome, Failure>,
    k: int,
)
    requires
        is_process(config, path, encodes, s, r),
        0 <= k < s.finish.len(),
        s.finish[k] is Write,
    ensures
        project_in(s.finish[k]->content) is Some,
        s.finish[k]->Write_path == destination(config, path),
{
    reveal(is_store);
}

/// With schemes switched off no scheme is touched.
pub proof fn law_schemes_left_alone(
    config: Config,
    path: Seq<char>,
    encodes: spec_fn(ProjectMap, Option<Seq<char>>) -> bool,
    s: Stages,
    r: Result<PipelineOutcome, Failure>,
)
    requires
        !config.update_schemes,
        is_process(config, path, encodes, s, r),
    ensures
        s.schemes.len() == 0,
        s.repairs.len() == 0,
{
    reveal(is_scheme_stage);
}

/// With a backup asked for, the project file is copied before the result is
/// stored.
pub proof fn law_backup_comes_first(
    config: Config,
    path: Seq<char>,
    encodes: spec_fn(ProjectMap, Option<Seq<char>>) -> bool,
    s: Stages,
    r: Result<PipelineOutcome, Failure>,
    k: int,
)
    requires
        config.backup,
        is_process(config, path, encodes, s, r),
        0 <= k < s.finish.len(),
        s.finish[k] is Write,
    ensures
        k == 1,
        s.finish[0] == (FsCall::Copy {
            from: path,
            to: crate::pipeline::backup_place(config, path),
            done: true,
        }),
{
    reveal(is_store);
}

/// What the passes that are asked for make of a text; nothing, where its UUIDs
/// are to be made deterministic and it is no project.
pub open spec fn processed(config: Config, path: Seq<char>, text: Seq<char>) -> Option<Seq<char>> {
    let clean = sanitized(text);
    if config.sanitize_only {
        Some(clean)
    } else if config.sort_only {
        Some(sorted_if_asked(config, clean))
    } else {
        match project_in(clean) {
            None => None,
            Some(project) => Some(
                sorted_if_asked(config, sanitized(uniquified(clean, project, project_name(path)))),
            ),
        }
    }
}

/// What is stored is what the passes make of the text that was read.
pub proof fn law_result_is_stored(
    config: Config,
    path: Seq<char>,
    encodes: spec_fn(ProjectMap, Option<Seq<char>>) -> bool,
    s: Stages,
    r: Result<PipelineOutcome, Failure>,
    k: int,
)
    requires
        is_process(config, path, encodes, s, r),
        0 <= k < s.finish.len(),
        s.finish[k] is Write,
    ensures
        s.read->reply is Some,
        processed(config, path, s.read->reply->Some_0) == Some(s.finish[k]->content),
        s.finish[k]->content != s.read->reply->Some_0,
{
    reveal(is_store);
}

/// Every write is checked first: where the passes do not make a project of the
/// text, nothing is done but to read it, and the run fails.
pub proof fn law_nothing_written_unless_valid(
    config: Config,
    path: Seq<char>,
    encodes: spec_fn(ProjectMap, Option<Seq<char>>) -> bool,
    s: Stages,
    r: Result<PipelineOutcome, Failure>,
)
    requires
        is_process(config, path, encodes, s, r),
        match s.read->reply {
            Some(text) => match processed(config, path, text) {
                Some(result) => project_in(result) is None,
                None => true,
            },
            None => true,
        },
    ensures
        all_calls(s) == seq![s.read],
        r is Err,
{
    assert(later_calls(s).len() == 0);
    assert(all_calls(s) =~= seq![s.read]);
}

/// A text that the passes leave as it is comes out clean, and nothing is stored.
/// So a run on a result that is settled says that there are no changes.
pub proof fn law_settled_is_clean(
    config: Config,
    path: Seq<char>,
    encodes: spec_fn(ProjectMap, Option<Seq<char>>) -> bool,
    s: Stages,
    r: Result<PipelineOutcome, Failure>,
)
    requires
        is_process(config, path, encodes, s, r),
        s.read->reply is Some,
        processed(config, path, s.read->reply->Some_0) == Some(s.read->reply->Some_0),
    ensures
        s.finish.len() == 0,
        r is Ok ==> r->Ok_0 == PipelineOutcome::Clean,
        config.sanitize_only && project_in(s.read->reply->Some_0) is Some ==> r is Ok,
{
    reveal(is_store);
}

/// The text of the project file behind a run: what was stored, or else what was
/// read.
pub open spec fn left_by(s: Stages) -> Seq<char> {
    if s.finish.len() > 0 && s.finish.last() is Write {
        s.finish.last()->content
    } else {
        s.read->reply->Some_0
    }
}

/// A run that succeeds, and was to change the project file, leaves there what the
/// passes make of the text that was read.
#[verifier::rlimit(60)]
#[verifier::spinoff_prover]
pub proof fn law_success_leaves_result(
    config: Config,
    path: Seq<char>,
    encodes: spec_fn(ProjectMap, Option<Seq<char>>) -> bool,
    s: Stages,
    r: Result<PipelineOutcome, Failure>,
)
    requires
        is_process(config, path, encodes, s, r),
        r is Ok,
        !config.check,
        config.output is None,
    ensures
        s.read->reply is Some,
        processed(config, path, s.read->reply->Some_0) == Some(left_by(s)),
        s.finish.len() > 0 ==> s.finish.last()->Write_path == path,
{
    reveal(is_store);
}

/// A text that needs a change is not called clean.
pub proof fn law_unsettled_is_not_clean(
    config: Config,
    path: Seq<char>,
    encodes: spec_fn(ProjectMap, Option<Seq<char>>) -> bool,
    s: Stages,
    r: Result<PipelineOutcome, Failure>,
)
    requires
        is_process(config, path, encodes, s, r),
        s.read->reply is Some,
        processed(config, path, s.read->reply->Some_0) != Some(s.read->reply->Some_0),
    ensures
        r is Ok ==> r->Ok_0 != PipelineOutcome::Clean,
{
    reveal(is_store);
}

/// Two maps have the same tree, the same targets and the same UUIDs.
pub open spec fn same_map(a: ProjectMap, b: ProjectMap) -> bool {
    &&& node(a.file_tree) == node(b.file_tree)
    &&& views(a.targets@) == views(b.targets@)
    &&& table_view(a.uuid_table@) == table_view(b.uuid_table@)
}

/// What is read from the text of a map is the map.
pub open spec fn reads_back(
    encodes: spec_fn(ProjectMap, Option<Seq<char>>) -> bool,
    decodes: spec_fn(Seq<char>, Option<ProjectMap>) -> bool,
) -> bool {
    forall|m: ProjectMap, text: Seq<char>, read: Option<ProjectMap>|
        #[trigger] encodes(m, Some(text)) && #[trigger] decodes(text, read) ==> read is Some
            && same_map(m, read->Some_0)
}

/// A project file compared with the map that was written for it is identical to
/// it, and comparing writes no file: for a decoder that gives back what the
/// encoder took, files that have not changed in between, and a difference that
/// can be encoded.
pub proof fn law_project_matches_its_written_map(
    path: Seq<char>,
    place: Seq<char>,
    encodes: spec_fn(ProjectMap, Option<Seq<char>>) -> bool,
    decodes: spec_fn(Seq<char>, Option<ProjectMap>) -> bool,
    diff_encodes: spec_fn(MapDiff, Option<Seq<char>>) -> bool,
    mapping: Seq<FsCall>,
    written: Result<(), Failure>,
    comparing: Seq<FsCall>,
    r: Result<(MapDiff, String), Failure>,
)
    requires
        is_mapping(path, Some(place), encodes, mapping, written),
        written is Ok,
        is_comparison(path, place, None, decodes, diff_encodes, comparing, r),
        reads_back(encodes, decodes),
        forall|d: MapDiff| !#[trigger] diff_encodes(d, None),
        comparing[0]->reply == Some(mapping[1]->content),
        comparing.len() > 1 ==> comparing[1]->reply == mapping[0]->reply,
    ensures
        r is Ok,
        r->Ok_0.0.status == DiffStatus::Identical,
        comparing.len() == 2,
        forall|i: int| 0 <= i < comparing.len() ==> only_reads(#[trigger] comparing[i]),
{
    reveal(is_map_stage);
    let name = project_name(path);
    let text = mapping[0]->reply->Some_0;
    let project = project_in(sanitized(text))->Some_0;
    let rows = registry(project, name).rows;
    let map = new_uuids(rows);
    let stored = mapping[1]->content;
    assert(mapping.skip(1)[0] == mapping[1]);
    assert(is_map_text(project, name, encodes, Some(stored)));
    let m = choose|m: ProjectMap|
        {
            &&& #[trigger] is_map_of(m, project, rows, map, name)
            &&& exists|secs: u64| #[trigger] is_timestamp(m.generated@, secs as int)
            &&& encodes(m, Some(stored))
        };
    let reference = choose|reference: ProjectMap|
        {
            &&& #[trigger] decodes(stored, Some(reference))
            &&& is_comparison_with(reference, path, None, diff_encodes, comparing.skip(1), r)
        };
    assert(encodes(m, Some(stored)) && decodes(stored, Some(reference)));
    let rest = comparing.skip(1);
    assert(rest[0] == comparing[1]);
    let (diff, current) = choose|diff: MapDiff, current: ProjectMap|
        {
            &&& #[trigger] is_diff(diff, reference, current)
            &&& is_map_of_text(current, text, name)
            &&& is_report(diff, None, diff_encodes, rest.skip(1), r)
        };
    law_rows_unique(table_view(m.uuid_table@), table_view(current.uuid_table@), records(rows));
    lemma_same_shape_itself(node(reference.file_tree));
    law_equal_maps_do_not_differ(diff, reference, current);
    assert(rest.skip(1).len() == comparing.len() - 2);
}

} // verus!
