//! Sorting a whole text again changes nothing.

use crate::resort_laws::{
    ends_line, lemma_assembled, lemma_lines_read_again, lemma_lines_readable, lemma_list_plain,
    lemma_lists_read_again, lemma_lists_readable, lemma_section_ok,
};
use crate::resort_section_laws::{
    flat, lemma_result_again, lemma_result_items, lemma_section_readable, lemma_state_ok,
    lemma_unlines_flat, result_items,
};
use crate::shape::{
    fold, is_at_rest, is_line_name, is_well_shaped, lemma_fold_take, lemma_line_sections_keep_state,
    lemma_lists_keep_state, lemma_section_keeps_state, lemma_shape_declares, lemma_shape_ends,
    lemma_shape_nested, lemma_shape_of_lines, lemma_shape_of_lists, lemma_shape_of_section,
    lemma_shape_rests, lemma_shape_sound, outside, resting, shape_at, shape_step, shaping, Shape,
};
use crate::sorter::{
    assemble, line_run, list_run, section_of_pass, section_run, section_state, sort_pass, sort_text,
    ListKind, SectionKey,
};
use crate::text::lines_of;
use crate::watch_laws::{
    between_entries, held, lemma_fixed_lines_settled, lemma_fixed_lists_settled,
    lemma_fixed_section_settled, lemma_line_watch_all, lemma_list_watch_all,
    lemma_section_watch_all, lemma_settled_lines_stay, lemma_settled_lists_stay,
    lemma_settled_section_stays, line_lines, lines_settled, list_lines, list_watch_at,
    lists_settled, no_line_section, no_list, no_section, section_lines, section_settled,
    watching_lines, watching_lists, watching_section,
};
use vstd::prelude::*;

verus! {

// ── Passes on lines ──────────────────────────────────────────────────────────

/// The lines that pass `n` puts out.
pub open spec fn pass_lines(main: Seq<char>, ls: Seq<Seq<char>>, n: int) -> Seq<Seq<char>> {
    if n == 1 {
        list_lines(ListKind::Files, Seq::empty(), ls)
    } else if n == 2 {
        list_lines(ListKind::Children, main, ls)
    } else if n == 3 {
        line_lines(ls)
    } else {
        section_lines(section_of_pass(n).0, section_of_pass(n).1, ls)
    }
}

/// Pass `n` finds nothing to change.
pub open spec fn is_settled(main: Seq<char>, ls: Seq<Seq<char>>, n: int) -> bool {
    if n == 1 {
        lists_settled(ListKind::Files, Seq::empty(), ls)
    } else if n == 2 {
        lists_settled(ListKind::Children, main, ls)
    } else if n == 3 {
        lines_settled(ls)
    } else {
        section_settled(section_of_pass(n).0, section_of_pass(n).1, ls)
    }
}

/// The sections have names of their own, and none holds one entry per line.
pub proof fn lemma_names(n: int, m: int)
    requires
        4 <= n <= 12,
        4 <= m <= 12,
    ensures
        !is_line_name(section_of_pass(n).0),
        n != m ==> section_of_pass(n).0 != section_of_pass(m).0,
{
    reveal_strlit("XCBuildConfiguration");
    reveal_strlit("PBXVariantGroup");
    reveal_strlit("XCConfigurationList");
    reveal_strlit("PBXNativeTarget");
    reveal_strlit("PBXAggregateTarget");
    reveal_strlit("PBXGroup");
    reveal_strlit("PBXTargetDependency");
    reveal_strlit("XCRemoteSwiftPackageReference");
    reveal_strlit("XCSwiftPackageProductDependency");
    reveal_strlit("PBXBuildFile");
    reveal_strlit("PBXFileReference");
    assert("XCBuildConfiguration"@.len() == 20);
    assert("PBXVariantGroup"@.len() == 15);
    assert("XCConfigurationList"@.len() == 19);
    assert("PBXNativeTarget"@.len() == 15);
    assert("PBXAggregateTarget"@.len() == 18);
    assert("PBXGroup"@.len() == 8);
    assert("PBXTargetDependency"@.len() == 19);
    assert("XCRemoteSwiftPackageReference"@.len() == 29);
    assert("XCSwiftPackageProductDependency"@.len() == 31);
    assert("PBXBuildFile"@.len() == 12);
    assert("PBXFileReference"@.len() == 16);
    assert("PBXVariantGroup"@[3] != "PBXNativeTarget"@[3]);
    assert("XCConfigurationList"@[0] != "PBXTargetDependency"@[0]);
}

// ── States over a pass ───────────────────────────────────────────────────────

pub proof fn lemma_over_lists<S>(
    step: spec_fn(S, Seq<char>) -> S,
    s: S,
    kind: ListKind,
    main: Seq<char>,
    ls: Seq<Seq<char>>,
)
    requires
        is_well_shaped(ls),
        forall|i: int|
            0 <= i < ls.len() && list_run(kind, main, ls, i).in_list && list_run(
                kind,
                main,
                ls,
                i + 1,
            ).in_list ==> fold(step, s, #[trigger] ls.take(i + 1)) == fold(step, s, ls.take(i)),
    ensures
        fold(step, s, list_lines(kind, main, ls)) == fold(step, s, ls),
{
    let n = ls.len() as int;
    lemma_lists_keep_state(step, s, kind, main, ls, n);
    lemma_shape_of_lists(kind, main, ls, n);
    assert(ls.take(n) =~= ls);
    let st = list_run(kind, main, ls, n);
    assert(st.out + st.pending =~= st.out);
}

pub proof fn lemma_over_lines<S>(step: spec_fn(S, Seq<char>) -> S, s: S, ls: Seq<Seq<char>>)
    requires
        is_well_shaped(ls),
        forall|i: int|
            0 <= i < ls.len() && line_run(ls, i).section is Some && line_run(
                ls,
                i + 1,
            ).section is Some ==> fold(step, s, #[trigger] ls.take(i + 1)) == fold(
                step,
                s,
                ls.take(i),
            ),
    ensures
        fold(step, s, line_lines(ls)) == fold(step, s, ls),
{
    let n = ls.len() as int;
    lemma_line_sections_keep_state(step, s, ls, n);
    lemma_shape_of_lines(ls, n);
    assert(ls.take(n) =~= ls);
    let st = line_run(ls, n);
    assert(st.out + st.pending =~= st.out);
}

pub proof fn lemma_over_section<S>(
    step: spec_fn(S, Seq<char>) -> S,
    s: S,
    between: S,
    name: Seq<char>,
    by: SectionKey,
    ls: Seq<Seq<char>>,
)
    requires
        is_well_shaped(ls),
        !is_line_name(name),
        forall|i: int|
            0 <= i <= ls.len() && section_run(name, by, ls, i).in_section && !section_run(
                name,
                by,
                ls,
                i,
            ).in_entry && is_at_rest(shape_at(ls, i)) ==> fold(step, s, #[trigger] ls.take(i))
                == between,
    ensures
        fold(step, s, section_lines(name, by, ls)) == fold(step, s, ls),
{
    let n = ls.len() as int;
    lemma_shape_ends(name, by, ls);
    lemma_shape_rests(name, by, ls);
    lemma_section_keeps_state(step, s, between, name, by, ls, resting(ls), n);
    lemma_shape_of_section(name, by, ls, n);
    assert(ls.take(n) =~= ls);
    let st = section_run(name, by, ls, n);
    assert(flat(st.entries).len() == 0);
    assert(held(name, by, ls, n) =~= flat(st.out));
}

/// A pass keeps the shape of a text.
#[verifier::rlimit(30)]
pub proof fn lemma_pass_shape(main: Seq<char>, ls: Seq<Seq<char>>, n: int)
    requires
        is_well_shaped(ls),
        1 <= n <= 12,
    ensures
        is_well_shaped(pass_lines(main, ls, n)),
{
    let len = ls.len() as int;
    let step = shaping();
    if n <= 2 {
        let kind = if n == 1 {
            ListKind::Files
        } else {
            ListKind::Children
        };
        let group = if n == 1 {
            Seq::empty()
        } else {
            main
        };
        assert forall|i: int|
            0 <= i < len && list_run(kind, group, ls, i).in_list && list_run(
                kind,
                group,
                ls,
                i + 1,
            ).in_list implies fold(step, outside(), #[trigger] ls.take(i + 1)) == fold(
            step,
            outside(),
            ls.take(i),
        ) by {
            lemma_shape_of_lists(kind, group, ls, i);
            lemma_shape_of_lists(kind, group, ls, i + 1);
            lemma_shape_sound(ls, i);
            assert(shape_at(ls, i + 1) == shape_at(ls, i));
        }
        lemma_over_lists(step, outside(), kind, group, ls);
        lemma_list_plain(kind, group, ls, len);
        lemma_shape_of_lists(kind, group, ls, len);
        assert(ls.take(len) =~= ls);
        let st = list_run(kind, group, ls, len);
        lemma_lists_keep_state(step, outside(), kind, group, ls, len);
        assert(st.out + st.pending =~= st.out);
    } else if n == 3 {
        assert forall|i: int|
            0 <= i < len && line_run(ls, i).section is Some && line_run(
                ls,
                i + 1,
            ).section is Some implies fold(step, outside(), #[trigger] ls.take(i + 1)) == fold(
            step,
            outside(),
            ls.take(i),
        ) by {
            lemma_shape_of_lines(ls, i);
            lemma_shape_of_lines(ls, i + 1);
            lemma_shape_sound(ls, i);
            lemma_shape_nested(ls, i);
            assert(shape_at(ls, i + 1) == shape_at(ls, i));
        }
        lemma_over_lines(step, outside(), ls);
        lemma_section_ok(ls, len);
        lemma_shape_of_lines(ls, len);
        assert(ls.take(len) =~= ls);
        lemma_line_sections_keep_state(step, outside(), ls, len);
        let st = line_run(ls, len);
        assert(st.out + st.pending =~= st.out);
    } else {
        lemma_names(n, n);
        let (name, by) = section_of_pass(n);
        let between = Shape { section: Some(name), ..outside() };
        assert forall|i: int|
            0 <= i <= len && section_run(name, by, ls, i).in_section && !section_run(
                name,
                by,
                ls,
                i,
            ).in_entry && is_at_rest(shape_at(ls, i)) implies fold(
            step,
            outside(),
            #[trigger] ls.take(i),
        ) == between by {
            lemma_shape_of_section(name, by, ls, i);
            lemma_shape_sound(ls, i);
            lemma_shape_nested(ls, i);
            assert(shape_at(ls, i) == between);
        }
        lemma_over_section(step, outside(), between, name, by, ls);
        lemma_shape_ends(name, by, ls);
        lemma_state_ok(name, by, ls, len);
        let st = section_run(name, by, ls, len);
        lemma_result_items(name, st);
        lemma_unlines_flat(result_items(st));
    }
}

/// Every line may stand where it stands, as far as `may` says so.
pub open spec fn all_stand(may: spec_fn(Shape, Seq<char>) -> bool, ls: Seq<Seq<char>>) -> bool {
    forall|k: int| 0 <= k < ls.len() ==> may(shape_at(ls, k), #[trigger] ls[k])
}

/// The shape so far, and whether every line may stand where it stands.
spec fn standing(may: spec_fn(Shape, Seq<char>) -> bool) -> spec_fn(
    (Shape, bool),
    Seq<char>,
) -> (Shape, bool) {
    |st: (Shape, bool), line: Seq<char>| (shape_step(st.0, line), st.1 && may(st.0, line))
}

spec fn all_stand_until(
    may: spec_fn(Shape, Seq<char>) -> bool,
    ls: Seq<Seq<char>>,
    n: int,
) -> bool {
    forall|k: int| 0 <= k < n ==> may(shape_at(ls, k), #[trigger] ls[k])
}

#[verifier::rlimit(40)]
#[verifier::spinoff_prover]
proof fn lemma_standing(may: spec_fn(Shape, Seq<char>) -> bool, ls: Seq<Seq<char>>, n: int)
    requires
        0 <= n <= ls.len(),
    ensures
        fold(standing(may), (outside(), true), ls.take(n)) == (
            shape_at(ls, n),
            all_stand_until(may, ls, n),
        ),
    decreases n,
{
    if n == 0 {
        assert(ls.take(0) =~= Seq::empty());
    } else {
        lemma_standing(may, ls, n - 1);
        lemma_fold_take(standing(may), (outside(), true), ls, n - 1);
        lemma_fold_take(shaping(), outside(), ls, n - 1);
        let here = may(shape_at(ls, n - 1), ls[n - 1]);
        assert(all_stand_until(may, ls, n) == (all_stand_until(may, ls, n - 1) && here)) by {
            if all_stand_until(may, ls, n - 1) && here {
                assert forall|k: int| 0 <= k < n implies may(
                    shape_at(ls, k),
                    #[trigger] ls[k],
                ) by {
                }
            }
        }
    }
}

proof fn lemma_stands(may: spec_fn(Shape, Seq<char>) -> bool, ls: Seq<Seq<char>>, n: int)
    requires
        all_stand(may, ls),
        0 <= n <= ls.len(),
    ensures
        fold(standing(may), (outside(), true), ls.take(n)) == (shape_at(ls, n), true),
{
    lemma_standing(may, ls, n);
}

/// After a pass every line may stand where it stands, if it did before.
#[verifier::rlimit(40)]
#[verifier::spinoff_prover]
pub proof fn lemma_pass_stand(
    may: spec_fn(Shape, Seq<char>) -> bool,
    main: Seq<char>,
    ls: Seq<Seq<char>>,
    n: int,
)
    requires
        is_well_shaped(ls),
        all_stand(may, ls),
        1 <= n <= 12,
    ensures
        is_well_shaped(pass_lines(main, ls, n)),
        all_stand(may, pass_lines(main, ls, n)),
{
    let len = ls.len() as int;
    let step = standing(may);
    let start = (outside(), true);
    let out = pass_lines(main, ls, n);
    lemma_pass_shape(main, ls, n);
    if n <= 2 {
        let kind = if n == 1 {
            ListKind::Files
        } else {
            ListKind::Children
        };
        let group = if n == 1 {
            Seq::empty()
        } else {
            main
        };
        assert forall|i: int|
            0 <= i < len && list_run(kind, group, ls, i).in_list && list_run(
                kind,
                group,
                ls,
                i + 1,
            ).in_list implies fold(step, start, #[trigger] ls.take(i + 1)) == fold(
            step,
            start,
            ls.take(i),
        ) by {
            lemma_shape_of_lists(kind, group, ls, i);
            lemma_shape_of_lists(kind, group, ls, i + 1);
            lemma_shape_sound(ls, i);
            assert(shape_at(ls, i + 1) == shape_at(ls, i));
            lemma_stands(may, ls, i);
            lemma_stands(may, ls, i + 1);
        }
        lemma_over_lists(step, start, kind, group, ls);
    } else if n == 3 {
        assert forall|i: int|
            0 <= i < len && line_run(ls, i).section is Some && line_run(
                ls,
                i + 1,
            ).section is Some implies fold(step, start, #[trigger] ls.take(i + 1)) == fold(
            step,
            start,
            ls.take(i),
        ) by {
            lemma_shape_of_lines(ls, i);
            lemma_shape_of_lines(ls, i + 1);
            lemma_shape_sound(ls, i);
            lemma_shape_nested(ls, i);
            assert(shape_at(ls, i + 1) == shape_at(ls, i));
            lemma_stands(may, ls, i);
            lemma_stands(may, ls, i + 1);
        }
        lemma_over_lines(step, start, ls);
    } else {
        lemma_names(n, n);
        let (name, by) = section_of_pass(n);
        let between = (Shape { section: Some(name), ..outside() }, true);
        assert forall|i: int|
            0 <= i <= len && section_run(name, by, ls, i).in_section && !section_run(
                name,
                by,
                ls,
                i,
            ).in_entry && is_at_rest(shape_at(ls, i)) implies fold(
            step,
            start,
            #[trigger] ls.take(i),
        ) == between by {
            lemma_shape_of_section(name, by, ls, i);
            lemma_shape_sound(ls, i);
            lemma_shape_nested(ls, i);
            assert(shape_at(ls, i) == between.0);
            lemma_stands(may, ls, i);
        }
        lemma_over_section(step, start, between, name, by, ls);
    }
    lemma_stands(may, ls, len);
    assert(ls.take(len) =~= ls);
    lemma_standing(may, out, out.len() as int);
    assert(out.take(out.len() as int) =~= out);
}

// ── What a later pass leaves alone ───────────────────────────────────────────

/// A later pass leaves the lists alone that an earlier one has sorted.
#[verifier::rlimit(30)]
proof fn lemma_lists_left_alone(
    kind: ListKind,
    group: Seq<char>,
    main: Seq<char>,
    ls: Seq<Seq<char>>,
    n: int,
)
    requires
        is_well_shaped(ls),
        lists_settled(kind, group, ls),
        kind == ListKind::Files ==> group.len() == 0 && 2 <= n <= 12,
        kind == ListKind::Children ==> 3 <= n <= 12,
    ensures
        lists_settled(kind, group, pass_lines(main, ls, n)),
{
    let len = ls.len() as int;
    let step = watching_lists(kind, group);
    if n == 2 {
        assert forall|i: int|
            0 <= i < len && list_run(ListKind::Children, main, ls, i).in_list && list_run(
                ListKind::Children,
                main,
                ls,
                i + 1,
            ).in_list implies fold(step, no_list(), #[trigger] ls.take(i + 1)) == fold(
            step,
            no_list(),
            ls.take(i),
        ) by {
            lemma_shape_of_lists(ListKind::Children, main, ls, i);
            lemma_shape_of_lists(ListKind::Children, main, ls, i + 1);
            lemma_shape_of_lists(kind, group, ls, i);
            lemma_shape_of_lists(kind, group, ls, i + 1);
            lemma_shape_nested(ls, i);
            lemma_shape_nested(ls, i + 1);
            lemma_list_watch_all(kind, group, ls, i);
            lemma_list_watch_all(kind, group, ls, i + 1);
            lemma_shape_sound(ls, i);
            lemma_fold_take(step, no_list(), ls, i);
            assert(list_watch_at(kind, group, ls, i + 1) == list_watch_at(kind, group, ls, i));
        }
        lemma_over_lists(step, no_list(), ListKind::Children, main, ls);
    } else if n == 3 {
        assert forall|i: int|
            0 <= i < len && line_run(ls, i).section is Some && line_run(
                ls,
                i + 1,
            ).section is Some implies fold(step, no_list(), #[trigger] ls.take(i + 1)) == fold(
            step,
            no_list(),
            ls.take(i),
        ) by {
            lemma_shape_of_lines(ls, i);
            lemma_shape_of_lines(ls, i + 1);
            lemma_shape_nested(ls, i);
            lemma_shape_nested(ls, i + 1);
            lemma_shape_of_lists(kind, group, ls, i);
            lemma_shape_of_lists(kind, group, ls, i + 1);
            lemma_list_watch_all(kind, group, ls, i);
            lemma_list_watch_all(kind, group, ls, i + 1);
        }
        lemma_over_lines(step, no_list(), ls);
    } else {
        lemma_names(n, n);
        let (name, by) = section_of_pass(n);
        assert forall|i: int|
            0 <= i <= len && section_run(name, by, ls, i).in_section && !section_run(
                name,
                by,
                ls,
                i,
            ).in_entry && is_at_rest(shape_at(ls, i)) implies fold(
            step,
            no_list(),
            #[trigger] ls.take(i),
        ) == between_entries(name) by {
            lemma_shape_of_section(name, by, ls, i);
            lemma_shape_nested(ls, i);
            lemma_shape_of_lists(kind, group, ls, i);
            lemma_list_watch_all(kind, group, ls, i);
        }
        lemma_over_section(step, no_list(), between_entries(name), name, by, ls);
    }
}

/// A later pass leaves the sections with one entry per line alone.
proof fn lemma_lines_left_alone(main: Seq<char>, ls: Seq<Seq<char>>, n: int)
    requires
        is_well_shaped(ls),
        lines_settled(ls),
        4 <= n <= 12,
    ensures
        lines_settled(pass_lines(main, ls, n)),
{
    lemma_names(n, n);
    let (name, by) = section_of_pass(n);
    let step = watching_lines();
    assert forall|i: int|
        0 <= i <= ls.len() && section_run(name, by, ls, i).in_section && !section_run(
            name,
            by,
            ls,
            i,
        ).in_entry implies fold(step, no_line_section(), #[trigger] ls.take(i))
        == no_line_section() by {
        lemma_shape_of_section(name, by, ls, i);
        lemma_shape_of_lines(ls, i);
        lemma_line_watch_all(ls, i);
    }
    lemma_over_section(step, no_line_section(), no_line_section(), name, by, ls);
}

/// A later pass leaves the sections alone that an earlier one has sorted.
proof fn lemma_section_left_alone(main: Seq<char>, ls: Seq<Seq<char>>, k: int, n: int)
    requires
        is_well_shaped(ls),
        4 <= k < n <= 12,
        is_settled(main, ls, k),
    ensures
        is_settled(main, pass_lines(main, ls, n), k),
{
    lemma_names(n, k);
    lemma_names(k, n);
    let (name, by) = section_of_pass(n);
    let (other, other_by) = section_of_pass(k);
    let step = watching_section(other, other_by);
    assert forall|i: int|
        0 <= i <= ls.len() && section_run(name, by, ls, i).in_section && !section_run(
            name,
            by,
            ls,
            i,
        ).in_entry implies fold(step, no_section(), #[trigger] ls.take(i)) == no_section() by {
        lemma_shape_of_section(name, by, ls, i);
        lemma_shape_of_section(other, other_by, ls, i);
        lemma_section_watch_all(other, other_by, ls, i);
    }
    lemma_over_section(step, no_section(), no_section(), name, by, ls);
}

proof fn lemma_left_alone(main: Seq<char>, ls: Seq<Seq<char>>, k: int, n: int)
    requires
        is_well_shaped(ls),
        1 <= k < n <= 12,
        is_settled(main, ls, k),
    ensures
        is_settled(main, pass_lines(main, ls, n), k),
{
    if k == 1 {
        lemma_lists_left_alone(ListKind::Files, Seq::empty(), main, ls, n);
    } else if k == 2 {
        lemma_lists_left_alone(ListKind::Children, main, main, ls, n);
    } else if k == 3 {
        lemma_lines_left_alone(main, ls, n);
    } else {
        lemma_section_left_alone(main, ls, k, n);
    }
}

/// A pass finds nothing to change in its own result.
proof fn lemma_pass_settles(main: Seq<char>, ls: Seq<Seq<char>>, n: int)
    requires
        is_well_shaped(ls),
        1 <= n <= 12,
    ensures
        is_settled(main, pass_lines(main, ls, n), n),
{
    let out = pass_lines(main, ls, n);
    lemma_pass_shape(main, ls, n);
    assert(out.take(out.len() as int) =~= out);
    if n == 1 {
        lemma_shape_declares(ListKind::Files, Seq::empty(), ls);
        lemma_lists_read_again(ListKind::Files, Seq::empty(), ls);
        lemma_fixed_lists_settled(ListKind::Files, Seq::empty(), out, out.len() as int);
    } else if n == 2 {
        lemma_shape_declares(ListKind::Children, main, ls);
        lemma_lists_read_again(ListKind::Children, main, ls);
        lemma_fixed_lists_settled(ListKind::Children, main, out, out.len() as int);
    } else if n == 3 {
        lemma_lines_read_again(ls);
        lemma_fixed_lines_settled(out, out.len() as int);
    } else {
        lemma_names(n, n);
        let (name, by) = section_of_pass(n);
        let len = ls.len() as int;
        lemma_shape_ends(name, by, ls);
        lemma_state_ok(name, by, ls, len);
        lemma_result_items(name, section_run(name, by, ls, len));
        lemma_result_again(name, by, ls);
        lemma_shape_ends(name, by, out);
        lemma_state_ok(name, by, out, out.len() as int);
        lemma_result_items(name, section_run(name, by, out, out.len() as int));
        lemma_fixed_section_settled(name, by, out, out.len() as int);
    }
}

/// A pass that finds nothing to change changes nothing.
proof fn lemma_settled_stays(main: Seq<char>, ls: Seq<Seq<char>>, n: int)
    requires
        is_well_shaped(ls),
        1 <= n <= 12,
        is_settled(main, ls, n),
    ensures
        pass_lines(main, ls, n) == ls,
{
    if n == 1 {
        lemma_settled_lists_stay(ListKind::Files, Seq::empty(), ls);
    } else if n == 2 {
        lemma_settled_lists_stay(ListKind::Children, main, ls);
    } else if n == 3 {
        lemma_settled_lines_stay(ls);
    } else {
        lemma_names(n, n);
        lemma_settled_section_stays(section_of_pass(n).0, section_of_pass(n).1, ls);
    }
}

// ── Passes on texts ──────────────────────────────────────────────────────────

/// What a pass makes of a text, by its lines.
pub proof fn lemma_pass_text(main: Seq<char>, t: Seq<char>, n: int)
    requires
        is_well_shaped(lines_of(t)),
        1 <= n <= 12,
    ensures
        sort_pass(main, t, n).0 == assemble(pass_lines(main, lines_of(t), n), t),
        lines_of(sort_pass(main, t, n).0) == pass_lines(main, lines_of(t), n),
        ends_line(sort_pass(main, t, n).0) == ends_line(t),
{
    let ls = lines_of(t);
    if n == 1 {
        lemma_shape_declares(ListKind::Files, Seq::empty(), ls);
        lemma_lists_readable(ListKind::Files, Seq::empty(), t);
    } else if n == 2 {
        lemma_shape_declares(ListKind::Children, main, ls);
        lemma_lists_readable(ListKind::Children, main, t);
    } else if n == 3 {
        lemma_lines_readable(t);
    } else {
        lemma_names(n, n);
        let (name, by) = section_of_pass(n);
        lemma_shape_ends(name, by, ls);
        lemma_section_readable(name, by, t);
        lemma_state_ok(name, by, ls, ls.len() as int);
        lemma_result_items(name, section_state(name, by, t));
    }
    lemma_assembled(pass_lines(main, ls, n), t);
}

/// After `n` passes, none of them finds anything to change.
pub proof fn lemma_all_settled(main: Seq<char>, s: Seq<char>, n: int)
    requires
        is_well_shaped(lines_of(s)),
        0 <= n <= 12,
    ensures
        ({
            let t = sort_text(main, s, n);
            &&& is_well_shaped(lines_of(t))
            &&& n > 0 ==> assemble(lines_of(t), t) == t
            &&& forall|k: int| 1 <= k <= n ==> #[trigger] is_settled(main, lines_of(t), k)
        }),
    decreases n,
{
    if n > 0 {
        lemma_all_settled(main, s, n - 1);
        let before = sort_text(main, s, n - 1);
        let after = sort_text(main, s, n);
        let ls = lines_of(before);
        lemma_pass_text(main, before, n);
        lemma_pass_shape(main, ls, n);
        lemma_pass_settles(main, ls, n);
        assert forall|k: int| 1 <= k <= n implies #[trigger] is_settled(main, lines_of(after), k) by {
            if k < n {
                assert(is_settled(main, ls, k));
                lemma_left_alone(main, ls, k, n);
            }
        }
    }
}

/// In a sorted text every list and every section is sorted, without duplicates:
/// no pass finds anything to change.  So it is of a text whose sections, entries
/// and lists are closed and nested as they should be.
pub proof fn law_everything_is_sorted(main: Seq<char>, s: Seq<char>, n: int)
    requires
        is_well_shaped(lines_of(s)),
        1 <= n <= 12,
    ensures
        is_settled(main, lines_of(sort_text(main, s, 12)), n),
        is_well_shaped(lines_of(sort_text(main, s, 12))),
{
    lemma_all_settled(main, s, 12);
}

proof fn lemma_sorted_stays(main: Seq<char>, t: Seq<char>, n: int)
    requires
        is_well_shaped(lines_of(t)),
        assemble(lines_of(t), t) == t,
        forall|k: int| 1 <= k <= 12 ==> #[trigger] is_settled(main, lines_of(t), k),
        0 <= n <= 12,
    ensures
        sort_text(main, t, n) == t,
    decreases n,
{
    if n > 0 {
        lemma_sorted_stays(main, t, n - 1);
        lemma_pass_text(main, t, n);
        assert(is_settled(main, lines_of(t), n));
        lemma_settled_stays(main, lines_of(t), n);
    }
}

/// Sorting a sorted text changes nothing, for a text whose sections, entries and
/// lists are closed and nested as they should be; with one group, of the UUID
/// `main`, left unsorted both times.
pub proof fn law_passes_sort_once(main: Seq<char>, s: Seq<char>)
    requires
        is_well_shaped(lines_of(s)),
    ensures
        sort_text(main, sort_text(main, s, 12), 12) == sort_text(main, s, 12),
{
    lemma_all_settled(main, s, 12);
    lemma_sorted_stays(main, sort_text(main, s, 12), 12);
}

} // verus!
