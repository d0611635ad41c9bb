//! Merging of project files.
//!
//! Each of the three versions of a file is normalised on its own: repaired,
//! with deterministic UUIDs, sorted.  Equal objects then have equal UUIDs and
//! equal places, which leaves little for a line-wise merge to disagree on.  What
//! comes out of the merge is repaired and checked.

use crate::filesystem::Failure;
use crate::parser::{complaint, parse_project, project_in};
use crate::paths::{infer_project_name, project_name};
use crate::pipeline::{fails, parse_failure, uniquified};
use crate::sanitizer::{is_repair, sanitize, sanitized, SanitizeStats};
use crate::sorter::{sort, sorted_text};
use crate::text::owned;
use crate::uniquifier::build_unique_map;
use vstd::prelude::*;

verus! {

/// A text with deterministic UUIDs, repaired and sorted.
pub open spec fn normalised_text(raw: Seq<char>, path: Seq<char>) -> Option<Seq<char>> {
    match project_in(sanitized(raw)) {
        Some(project) => Some(
            sorted_text(
                sanitized(uniquified(sanitized(raw), project, project_name(path))),
                false,
            ),
        ),
        None => None,
    }
}

/// Normalises the text of a project file.
pub fn apply_electrolysis(raw: &str, path_hint: &str) -> (r: Result<String, Failure>)
    ensures
        match normalised_text(raw@, path_hint@) {
            Some(t) => r is Ok && r->Ok_0@ == t,
            None => fails(
                r,
                seq![
                    "failed to parse project during merge-driver normalization"@,
                    complaint(sanitized(raw@)),
                ],
            ),
        },
{
    let (clean, _) = sanitize(raw);
    let proj = match parse_project(clean.as_str()) {
        Ok(p) => p,
        Err(e) => {
            return Err(
                parse_failure(e, "failed to parse project during merge-driver normalization"),
            );
        },
    };
    let name = infer_project_name(path_hint);
    let map = build_unique_map(&proj, name.as_str());
    match map.apply(clean.as_str()) {
        Ok((renumbered, _)) => {
            // Objects that get one UUID are duplicates now.
            let (again, _) = sanitize(renumbered.as_str());
            let (sorted, _) = sort(again.as_str());
            Ok(sorted)
        },
        Err(_) => {
            assert(false);
            Err(Failure::new(owned("")))
        },
    }
}

/// Repairs and checks the result of a merge.
pub fn resolve_merge(merged: &str) -> (r: Result<(String, SanitizeStats), Failure>)
    ensures
        match project_in(sanitized(merged@)) {
            Some(_) => r is Ok && r->Ok_0.0@ == sanitized(merged@) && is_repair(
                r->Ok_0.1,
                merged@,
            ),
            None => fails(
                r,
                seq![
                    "merge driver produced an invalid pbxproj — this is a bug, please report it"@,
                    complaint(sanitized(merged@)),
                ],
            ),
        },
{
    let (clean, stats) = sanitize(merged);
    match parse_project(clean.as_str()) {
        Ok(_) => Ok((clean, stats)),
        Err(e) => Err(
            parse_failure(
                e,
                "merge driver produced an invalid pbxproj — this is a bug, please report it",
            ),
        ),
    }
}

} // verus!
