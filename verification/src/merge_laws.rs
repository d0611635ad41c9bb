//! What each side of a merge is made to.

use crate::alphabet_laws::{
    is_list, law_children_in_alphabetical_order, law_files_in_alphabetical_order, precedes,
};
use crate::config::{is_default, Config};
use crate::main_group_laws::law_text_sorted_once;
use crate::merge_driver::normalised_text;
use crate::pattern::{comment_name, files_name};
use crate::pipeline_laws::processed;
use crate::sanitizer::sanitized;
use crate::second_run_laws::{
    before_repair, keeps_new_uuids, law_result_is_sound, law_second_run_is_clean, settles,
};
use crate::shape::is_well_shaped;
use crate::sorter::{belongs_to, follows_uuid, sorted_text, unsorted_group};
use crate::text::{lines_of, lowercase};
use vstd::prelude::*;

verus! {

/// Each side of a merge is made to what a run without options stores for the same
/// text and the same path.
pub proof fn law_merge_side_is_what_a_run_stores(config: Config, raw: Seq<char>, path: Seq<char>)
    requires
        is_default(config),
    ensures
        normalised_text(raw, path) == processed(config, path, raw),
{
}

/// Each side of a merge is left with nothing to repair and nothing to sort; and
/// nothing to rename, if its project names everything paths need and reaches each
/// object once.
pub proof fn law_merge_side_is_settled(
    config: Config,
    raw: Seq<char>,
    path: Seq<char>,
    t: Seq<char>,
)
    requires
        is_default(config),
        normalised_text(raw, path) == Some(t),
        settles(config, path, raw),
    ensures
        sorted_text(t, false) == t,
        sanitized(t) == t,
        keeps_new_uuids(config, path, raw) ==> normalised_text(t, path) == Some(t),
{
    law_merge_side_is_what_a_run_stores(config, raw, path);
    law_result_is_sound(config, path, raw, t);
    law_text_sorted_once(sanitized(before_repair(config, path, raw)), false);
    if keeps_new_uuids(config, path, raw) {
        law_second_run_is_clean(config, path, raw, t);
        law_merge_side_is_what_a_run_stores(config, t, path);
    }
}

/// On each side of a merge the files of every list of files stand in alphabetical
/// order, whatever their case.
pub proof fn law_merge_side_files_in_order(
    config: Config,
    raw: Seq<char>,
    path: Seq<char>,
    t: Seq<char>,
    a: int,
    c: int,
    i: int,
    j: int,
)
    requires
        is_default(config),
        normalised_text(raw, path) == Some(t),
        is_well_shaped(lines_of(sanitized(before_repair(config, path, raw)))),
        is_list(lines_of(t), "files"@, a, c),
        a < i <= j < c,
    ensures
        match (files_name(lines_of(t)[i]), files_name(lines_of(t)[j])) {
            (Some(x), Some(y)) => precedes(lowercase(x), lowercase(y)),
            _ => true,
        },
{
    let before = sanitized(before_repair(config, path, raw));
    law_files_in_alphabetical_order(before, false, a, c, i, j);
}

/// On each side of a merge the children of every group but the main one stand in
/// alphabetical order, whatever their case, those without a dot in their names
/// before those with one.
pub proof fn law_merge_side_children_in_order(
    config: Config,
    raw: Seq<char>,
    path: Seq<char>,
    t: Seq<char>,
    a: int,
    c: int,
    i: int,
    j: int,
)
    requires
        is_default(config),
        normalised_text(raw, path) == Some(t),
        is_well_shaped(lines_of(sanitized(before_repair(config, path, raw)))),
        is_list(lines_of(t), "children"@, a, c),
        a < i <= j < c,
        ({
            let main = unsorted_group(sanitized(before_repair(config, path, raw)), false);
            main.len() > 0 ==> !follows_uuid(lines_of(t), a, main) && !belongs_to(
                lines_of(t),
                a,
                main,
            )
        }),
    ensures
        match (comment_name(lines_of(t)[i]), comment_name(lines_of(t)[j])) {
            (Some(x), Some(y)) => {
                &&& x.contains('.') ==> y.contains('.')
                &&& x.contains('.') == y.contains('.') ==> precedes(lowercase(x), lowercase(y))
            },
            _ => true,
        },
{
    let before = sanitized(before_repair(config, path, raw));
    law_children_in_alphabetical_order(before, false, a, c, i, j);
}

} // verus!
