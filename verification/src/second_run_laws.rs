//! A second run changes nothing.

use crate::config::Config;
use crate::filesystem::Failure;
use crate::left_text_laws::{
    drops_cleanly, is_pruned, is_readable, law_left_text_is_settled, lemma_pruned_in_order,
};
use crate::level_section_laws::{is_orderly, law_sorting_leaves_nothing_to_repair};
use crate::main_group_laws::{law_text_sorted_once, names_main_group};
use crate::mapper::ProjectMap;
use crate::parser::project_in;
use crate::paths::project_name;
use crate::permutation_laws::law_sorting_permutes_lines;
use crate::pipeline::{is_process, sorted_if_asked, uniquified, PipelineOutcome, Stages};
use crate::pipeline_laws::{law_settled_is_clean, law_success_leaves_result, left_by, processed};
use crate::repeat_laws::{is_repairable, lemma_repaired_sound};
use crate::sanitizer::{
    attributes_run, bodies_run, conflicts_run, decls_run, has_orphan, lists_run, sanitized,
};
use crate::sanitizer_laws::{law_sound_text_unchanged, nothing_behind};
use crate::settle_laws::is_steady;
use crate::settled_laws::{all_registered, is_settled, law_settled_text_is_kept};
use crate::sorted_facts::law_sorting_keeps_facts;
use crate::sorter::unsorted_group;
use crate::text::{are_plain_lines, lines_of, unlines, uppercase};
use crate::uniquifier::registry;
use vstd::prelude::*;

verus! {

/// A text with nothing to repair: no conflict, no duplicate, nothing orphaned,
/// no wrapper missing and nothing behind the document.
pub open spec fn is_sound(s: Seq<char>) -> bool {
    let ls = lines_of(s);
    &&& unlines(ls) == s
    &&& are_plain_lines(ls)
    &&& conflicts_run(ls).hunks == 0
    &&& decls_run(ls).removed == 0
    &&& lists_run(ls).removed == 0
    &&& !has_orphan(ls)
    &&& bodies_run(ls).removed == 0
    &&& !attributes_run(ls).added
    &&& nothing_behind(ls)
}

/// A project text whose UUIDs are all those of registered objects, and are the
/// digests of their paths.
pub open spec fn has_settled_uuids(s: Seq<char>, name: Seq<char>) -> bool {
    match project_in(s) {
        Some(project) => {
            let reg = registry(project, name);
            &&& is_settled(reg.rows)
            &&& forall|i: int|
                0 <= i < reg.rows.len() ==> uppercase((#[trigger] reg.rows[i]).0) == reg.rows[i].0
            &&& all_registered(reg.rows, reg.remove, s)
        },
        None => false,
    }
}

/// A run that leaves the UUIDs as they are.
pub open spec fn keeps_uuids(config: Config) -> bool {
    config.sanitize_only || config.sort_only
}

/// A run that sorts.
pub open spec fn sorts(config: Config) -> bool {
    !config.sanitize_only && !config.unique_only
}

/// The text that is repaired last in a run: the one that was read, or the one
/// with the new UUIDs.
pub open spec fn before_repair(config: Config, path: Seq<char>, text: Seq<char>) -> Seq<char> {
    if keeps_uuids(config) {
        text
    } else {
        match project_in(sanitized(text)) {
            Some(project) => uniquified(sanitized(text), project, project_name(path)),
            None => text,
        }
    }
}

/// The text can be repaired in one go and, if it is sorted then, is orderly.
pub open spec fn settles(config: Config, path: Seq<char>, text: Seq<char>) -> bool {
    let before = before_repair(config, path, text);
    if sorts(config) {
        &&& is_orderly(sanitized(before), config.sort_main_group)
        &&& !config.sort_main_group ==> names_main_group(lines_of(sanitized(before)))
    } else {
        is_repairable(before)
    }
}

/// What a run makes of such a text has nothing to repair, and what is sorted
/// stays as it is.
pub proof fn law_result_is_sound(
    config: Config,
    path: Seq<char>,
    text: Seq<char>,
    result: Seq<char>,
)
    requires
        processed(config, path, text) == Some(result),
        settles(config, path, text),
    ensures
        is_sound(result),
        sanitized(result) == result,
{
    let before = before_repair(config, path, text);
    if sorts(config) {
        law_sorting_leaves_nothing_to_repair(sanitized(before), config.sort_main_group);
    } else {
        lemma_repaired_sound(before);
    }
    law_sound_text_unchanged(result);
}

/// A run that leaves the UUIDs as they are changes nothing in what such a run
/// made of a text that can be repaired in one go and, if it is sorted, is then
/// orderly.
pub proof fn law_second_repair_changes_nothing(
    config: Config,
    path: Seq<char>,
    text: Seq<char>,
    result: Seq<char>,
)
    requires
        processed(config, path, text) == Some(result),
        keeps_uuids(config),
        settles(config, path, text),
    ensures
        processed(config, path, result) == Some(result),
{
    law_result_is_sound(config, path, text, result);
    if sorts(config) {
        law_text_sorted_once(sanitized(text), config.sort_main_group);
    }
}

/// The text that UUIDs are made deterministic in can be read line by line; its
/// project names everything paths need and reaches each object once; what is
/// dropped of it is whole, and the rest spells each UUID in one way; and what is
/// repaired once it has its new UUIDs is what it says twice.
pub open spec fn keeps_new_uuids(config: Config, path: Seq<char>, text: Seq<char>) -> bool {
    let clean = sanitized(text);
    let before = before_repair(config, path, text);
    let name = project_name(path);
    match project_in(clean) {
        Some(project) => {
            let reg = registry(project, name);
            &&& is_readable(clean)
            &&& is_steady(project, name)
            &&& drops_cleanly(reg, lines_of(clean))
            &&& is_pruned(lines_of(before), lines_of(sanitized(before)))
        },
        None => false,
    }
}

/// The UUIDs of the result of a run on such a text are settled.
proof fn lemma_result_settled(
    config: Config,
    path: Seq<char>,
    text: Seq<char>,
    result: Seq<char>,
)
    requires
        processed(config, path, text) == Some(result),
        !keeps_uuids(config),
        settles(config, path, text),
        keeps_new_uuids(config, path, text),
    ensures
        has_settled_uuids(result, project_name(path)),
{
    broadcast use vstd::seq_lib::group_to_multiset_ensures;

    let name = project_name(path);
    let clean = sanitized(text);
    let before = before_repair(config, path, text);
    let mid = sanitized(before);
    let ls = lines_of(mid);
    let rl = lines_of(result);
    law_result_is_sound(config, path, text, result);
    if sorts(config) {
        law_sorting_keeps_facts(unsorted_group(mid, config.sort_main_group), mid, 12);
        law_sorting_permutes_lines(mid, config.sort_main_group);
    }
    assert forall|i: int| 0 <= i < rl.len() implies ls.contains(#[trigger] rl[i]) by {
        assert(rl.contains(rl[i]));
        assert(rl.to_multiset().count(rl[i]) > 0);
        assert(rl.to_multiset().count(rl[i]) <= ls.to_multiset().count(rl[i]));
    }
    lemma_pruned_in_order(lines_of(before), ls, rl);
    law_left_text_is_settled(clean, name, result);
}

/// A run on the result of a run with the same settings changes nothing, if the
/// text that is repaired last can be repaired in one go and, if it is sorted, is
/// then orderly; and, as far as the run makes UUIDs deterministic, if its project
/// names everything paths need and reaches each object once.
#[verifier::rlimit(40)]
#[verifier::spinoff_prover]
pub proof fn law_second_run_is_clean(
    config: Config,
    path: Seq<char>,
    text: Seq<char>,
    result: Seq<char>,
)
    requires
        processed(config, path, text) == Some(result),
        settles(config, path, text),
        !keeps_uuids(config) ==> keeps_new_uuids(config, path, text),
    ensures
        processed(config, path, result) == Some(result),
{
    if keeps_uuids(config) {
        law_second_repair_changes_nothing(config, path, text, result);
    } else {
        let clean = sanitized(text);
        let before = before_repair(config, path, text);
        lemma_result_settled(config, path, text, result);
        law_result_is_sound(config, path, text, result);
        let project = project_in(result)->Some_0;
        law_settled_text_is_kept(result, project, project_name(path));
        assert(uniquified(result, project, project_name(path)) == result);
        assert(project_in(sanitized(result)) == Some(project));
        assert(result == sorted_if_asked(config, sanitized(before)));
        assert(sorted_if_asked(config, result) == result) by {
            if sorts(config) {
                law_text_sorted_once(sanitized(before), config.sort_main_group);
            }
        }
    }
}

/// A second run on a project file says that it is clean, and stores nothing: if the
/// first run has succeeded on such a text, and was to change that file.
pub proof fn law_second_process_is_clean(
    config: Config,
    path: Seq<char>,
    encodes: spec_fn(ProjectMap, Option<Seq<char>>) -> bool,
    first: Stages,
    second: Stages,
    r1: Result<PipelineOutcome, Failure>,
    r2: Result<PipelineOutcome, Failure>,
)
    requires
        is_process(config, path, encodes, first, r1),
        r1 is Ok,
        !config.check,
        config.output is None,
        settles(config, path, first.read->reply->Some_0),
        !keeps_uuids(config) ==> keeps_new_uuids(config, path, first.read->reply->Some_0),
        is_process(config, path, encodes, second, r2),
        second.read->reply == Some(left_by(first)),
    ensures
        r2 is Ok ==> r2->Ok_0 == PipelineOutcome::Clean,
        second.finish.len() == 0,
        left_by(second) == left_by(first),
{
    let text = first.read->reply->Some_0;
    law_success_leaves_result(config, path, encodes, first, r1);
    law_second_run_is_clean(config, path, text, left_by(first));
    law_settled_is_clean(config, path, encodes, second, r2);
}

} // verus!
