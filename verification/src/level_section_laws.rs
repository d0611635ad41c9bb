//! Sorting the entries of a section leaves a level text level, and sorting as a
//! whole leaves a sound text sound.

use crate::level::{
    adds, all_only_add, at_start, in_objects, is_between, is_level, lemma_adds_on,
    lemma_past_entries, lemma_sort_level, level_of, level_step, leveling, on_base, only_adds,
    with_seen, with_set, Level,
};
use crate::level_sorted_laws::{
    lemma_add_entry, lemma_entry_adds, lemma_level_at, lemma_lines_stay_level,
    lemma_lists_stay_level, lemma_plain_entry,
};
use crate::level_sound_laws::law_level_text_is_sound;
use crate::main_group_laws::lemma_project_is_not_sorted;
use crate::order::sort_by;
use crate::pattern::{enclosed_at, entry_uuid, first_from, is_marker, word_section_end};
use crate::permutation_laws::{bag, blanks_are_void, lemma_passes_permute, same_but_blank};
use crate::repeat_laws::{lemma_blank_effect, lemma_same_orphans, marks_section};
use crate::resort_laws::ends_line;
use crate::resort_section_laws::{
    flat, item_lines, lemma_closed, lemma_flat_concat, lemma_flat_plain, lemma_flat_push,
    lemma_plain_item, lemma_state_ok,
};
use crate::sanitizer::{
    attributes_run, bodies_run, conflicts_run, decls_run, has_orphan, lists_run, Place,
};
use crate::sanitizer_laws::{law_no_conflict_no_change, nothing_behind};
use crate::shape::{
    fold, is_at_rest, is_line_name, is_well_shaped, lemma_fold_concat, lemma_fold_push,
    lemma_shape_ends, lemma_shape_nested, lemma_shape_of_section, lemma_shape_rests,
    lemma_shape_sound, outside, resting, shape_at, Shape,
};
use crate::sorted_laws::{lemma_all_settled, lemma_names, lemma_pass_text};
use crate::sorter::{
    assemble, close_entry, dropped_until, section_key, section_of_pass, section_run, sort_pass,
    sort_text, sorted_text, unsorted_group, ListKind, SectionKey,
};
use crate::text::{
    are_plain_lines, is_blank, is_plain_line, is_white, joined, lines_of, occurs_at, unlines,
};
use crate::watch_laws::{held, section_lines};
use vstd::prelude::*;

verus! {

// ── Sections ─────────────────────────────────────────────────────────────────

/// The state between the entries of a section, with nothing declared.
spec fn between_at(name: Seq<char>) -> Level {
    Level {
        shape: Shape { section: Some(name), ..outside() },
        objects: Some(1),
        place: Place::Between,
        depth: 2,
        spot: in_objects(),
        ..at_start()
    }
}

proof fn lemma_section_between(name: Seq<char>, by: SectionKey, ls: Seq<Seq<char>>, n: int)
    requires
        is_level(ls),
        is_well_shaped(ls),
        !is_line_name(name),
        name != "PBXProject"@,
        0 <= n <= ls.len(),
        section_run(name, by, ls, n).in_section,
        !section_run(name, by, ls, n).in_entry,
        is_at_rest(shape_at(ls, n)),
    ensures
        level_of(ls.take(n)).sound,
        with_seen(level_of(ls.take(n)), Set::empty()) == between_at(name),
        level_of(ls.take(n)) == with_set(false, between_at(name), level_of(ls.take(n)).seen),
{
    lemma_level_at(ls, n);
    lemma_shape_of_section(name, by, ls, n);
    lemma_shape_nested(ls, n);
    lemma_shape_sound(ls, n);
    if n == 0 {
        assert(!section_run(name, by, ls, 0).in_section);
    }
    let st = level_of(ls.take(n));
    assert(st.shape == (Shape { section: Some(name), ..outside() }));
    assert(is_between(st));
}

/// What holds while a section is read; the first `c` of the lines outside its
/// entries lead back between them.
spec fn section_level(
    name: Seq<char>,
    by: SectionKey,
    ls: Seq<Seq<char>>,
    n: int,
    c: int,
) -> bool {
    let st = section_run(name, by, ls, n);
    let at = level_of(flat(st.out));
    let now = level_of(ls.take(n));
    let base = between_at(name);
    let done = st.prefix.take(c);
    let mid = fold(leveling(), at, done + flat(st.entries));
    if st.in_section {
        &&& 0 <= c <= st.prefix.len()
        &&& mid.sound && with_seen(mid, Set::empty()) == base
        &&& are_plain_lines(st.prefix)
        &&& all_only_add(false, base, st.entries)
        &&& on_base(false, base, fold(leveling(), at, done))
        &&& now == fold(leveling(), mid, st.prefix.skip(c) + st.current)
        &&& st.in_entry || is_at_rest(shape_at(ls, n)) ==> c == st.prefix.len()
        &&& !st.in_entry ==> st.current.len() == 0
    } else {
        &&& at == now
        &&& st.prefix.len() == 0 && st.entries.len() == 0 && st.current.len() == 0
    }
}

/// The section ends: what it holds is put out.
#[verifier::rlimit(40)]
#[verifier::spinoff_prover]
proof fn lemma_section_closes(
    base: Level,
    out: Seq<Seq<char>>,
    prefix: Seq<Seq<char>>,
    entries: Seq<Seq<char>>,
    key: spec_fn(Seq<char>) -> Seq<char>,
    line: Seq<char>,
)
    requires
        are_plain_lines(prefix),
        is_plain_line(line),
        all_only_add(false, base, entries),
        on_base(false, base, fold(leveling(), level_of(flat(out)), prefix)),
    ensures
        level_of(flat((out + prefix + sort_by(entries, key)).push(line))) == level_step(
            fold(leveling(), level_of(flat(out)), prefix + flat(entries)),
            line,
        ),
{
    let at = level_of(flat(out));
    let sorted = sort_by(entries, key);
    let step = leveling();
    lemma_flat_plain(prefix);
    lemma_plain_item(line);
    assert(item_lines(line) =~= seq![line]);
    lemma_flat_push(out + prefix + sorted, line);
    lemma_flat_concat(out + prefix, sorted);
    lemma_flat_concat(out, prefix);
    let body = flat(out) + prefix + flat(sorted);
    assert(body + seq![line] =~= body.push(line));
    lemma_fold_push(step, at_start(), body, line);
    lemma_fold_concat(step, at_start(), flat(out) + prefix, flat(sorted));
    lemma_fold_concat(step, at_start(), flat(out), prefix);
    let before = fold(step, at, prefix);
    lemma_sort_level(false, base, entries, key, before);
    lemma_fold_concat(step, at, prefix, flat(entries));
}

/// Lines outside the entries of a section are put before them.
proof fn lemma_section_lines(
    base: Level,
    at: Level,
    done: Seq<Seq<char>>,
    entries: Seq<Seq<char>>,
    xs: Seq<Seq<char>>,
)
    requires
        all_only_add(false, base, entries),
        only_adds(false, base, xs),
        on_base(false, base, fold(leveling(), at, done)),
    ensures
        on_base(false, base, fold(leveling(), at, done + xs)),
        fold(leveling(), at, (done + xs) + flat(entries)) == fold(
            leveling(),
            fold(leveling(), at, done + flat(entries)),
            xs,
        ),
{
    let step = leveling();
    let before = fold(step, at, done);
    lemma_past_entries(false, base, entries, xs, before);
    lemma_fold_concat(step, at, done + xs, flat(entries));
    lemma_fold_concat(step, at, done, flat(entries));
    lemma_fold_concat(step, at, done, xs);
    let e = choose|e: Set<Seq<char>>| adds(false, base, xs, e);
    lemma_adds_on(false, base, xs, e, before);
}

/// A line outside the section.
#[verifier::rlimit(60)]
#[verifier::spinoff_prover]
proof fn lemma_level_outside(
    name: Seq<char>,
    by: SectionKey,
    ls: Seq<Seq<char>>,
    n: int,
    c: int,
) -> (d: int)
    requires
        is_level(ls),
        is_well_shaped(ls),
        !is_line_name(name),
        name != "PBXProject"@,
        0 < n <= ls.len(),
        section_run(name, by, ls, n).dropped == 0,
        section_level(name, by, ls, n - 1, c),
        ({
            let st = section_run(name, by, ls, n - 1);
            let line = ls[n - 1];
            !st.in_section
        }),
    ensures
        section_level(name, by, ls, n, d),
{
    let none = Seq::<Seq<char>>::empty();
    let step = leveling();
    let base = between_at(name);
    let st = section_run(name, by, ls, n - 1);
    let after = section_run(name, by, ls, n);
    let line = ls[n - 1];
    assert(st.dropped == 0);
    lemma_level_at(ls, n - 1);
    lemma_level_at(ls, n);
    lemma_shape_of_section(name, by, ls, n - 1);
    lemma_shape_of_section(name, by, ls, n);
    lemma_shape_ends(name, by, ls);
    lemma_shape_rests(name, by, ls);
    lemma_state_ok(name, by, ls, n - 1);
    assert(is_plain_line(ls[n - 1]));
    let was = level_of(ls.take(n - 1));
    let now = level_of(ls.take(n));
    let at = level_of(flat(st.out));
    let done = st.prefix.take(c);
    let open = st.prefix.skip(c);
    let mid = fold(step, at, done + flat(st.entries));
    let rests = resting(ls);
    assert(section_run(name, by, ls, (n - 1) + 1) == after);
    if after.in_section && !after.in_entry && (!st.in_section || st.in_entry) {
        assert(rests(n));
        lemma_section_between(name, by, ls, n);
    }
    if st.in_section && !st.in_entry && (!after.in_section || after.in_entry) {
        assert(rests(n - 1));
        assert(c == st.prefix.len());
    }
    lemma_plain_item(line);
    assert(item_lines(line) =~= seq![line]);
    lemma_flat_push(st.out, line);
    assert(flat(st.out) + seq![line] =~= flat(st.out).push(line));
    lemma_fold_push(step, at_start(), flat(st.out), line);
    assert(after.prefix =~= none && after.entries =~= none && after.current =~= none);
    if after.in_section {
        assert(flat(none) =~= none);
        assert(none + none =~= none);
        assert(fold(step, now, none) == now);
        assert(after.prefix.take(0) =~= none);
        assert(after.prefix.skip(0) + after.current =~= none);
        assert(after.prefix.take(0) + flat(after.entries) =~= none);
    }
    0
}

/// The line that ends the section.
#[verifier::rlimit(60)]
#[verifier::spinoff_prover]
proof fn lemma_level_end(
    name: Seq<char>,
    by: SectionKey,
    ls: Seq<Seq<char>>,
    n: int,
    c: int,
) -> (d: int)
    requires
        is_level(ls),
        is_well_shaped(ls),
        !is_line_name(name),
        name != "PBXProject"@,
        0 < n <= ls.len(),
        section_run(name, by, ls, n).dropped == 0,
        section_level(name, by, ls, n - 1, c),
        ({
            let st = section_run(name, by, ls, n - 1);
            let line = ls[n - 1];
            st.in_section && word_section_end(line) == Some(name)
        }),
    ensures
        section_level(name, by, ls, n, d),
{
    let none = Seq::<Seq<char>>::empty();
    let step = leveling();
    let base = between_at(name);
    let st = section_run(name, by, ls, n - 1);
    let after = section_run(name, by, ls, n);
    let line = ls[n - 1];
    assert(st.dropped == 0);
    lemma_level_at(ls, n - 1);
    lemma_level_at(ls, n);
    lemma_shape_of_section(name, by, ls, n - 1);
    lemma_shape_of_section(name, by, ls, n);
    lemma_shape_ends(name, by, ls);
    lemma_shape_rests(name, by, ls);
    lemma_state_ok(name, by, ls, n - 1);
    assert(is_plain_line(ls[n - 1]));
    let was = level_of(ls.take(n - 1));
    let now = level_of(ls.take(n));
    let at = level_of(flat(st.out));
    let done = st.prefix.take(c);
    let open = st.prefix.skip(c);
    let mid = fold(step, at, done + flat(st.entries));
    let rests = resting(ls);
    assert(section_run(name, by, ls, (n - 1) + 1) == after);
    if after.in_section && !after.in_entry && (!st.in_section || st.in_entry) {
        assert(rests(n));
        lemma_section_between(name, by, ls, n);
    }
    if st.in_section && !st.in_entry && (!after.in_section || after.in_entry) {
        assert(rests(n - 1));
        assert(c == st.prefix.len());
    }
    assert(!st.in_entry);
    assert(close_entry(st) == st);
    let key = |e: Seq<char>| section_key(by, e);
    assert(open + st.current =~= none);
    assert(done =~= st.prefix);
    assert(fold(step, mid, none) == mid);
    lemma_section_closes(base, st.out, st.prefix, st.entries, key, line);
    0
}

/// A line inside an entry.
#[verifier::rlimit(60)]
#[verifier::spinoff_prover]
proof fn lemma_level_inside(
    name: Seq<char>,
    by: SectionKey,
    ls: Seq<Seq<char>>,
    n: int,
    c: int,
) -> (d: int)
    requires
        is_level(ls),
        is_well_shaped(ls),
        !is_line_name(name),
        name != "PBXProject"@,
        0 < n <= ls.len(),
        section_run(name, by, ls, n).dropped == 0,
        section_level(name, by, ls, n - 1, c),
        ({
            let st = section_run(name, by, ls, n - 1);
            let line = ls[n - 1];
            st.in_section && word_section_end(line) != Some(name) && st.in_entry
        }),
    ensures
        section_level(name, by, ls, n, d),
{
    let none = Seq::<Seq<char>>::empty();
    let step = leveling();
    let base = between_at(name);
    let st = section_run(name, by, ls, n - 1);
    let after = section_run(name, by, ls, n);
    let line = ls[n - 1];
    assert(st.dropped == 0);
    lemma_level_at(ls, n - 1);
    lemma_level_at(ls, n);
    lemma_shape_of_section(name, by, ls, n - 1);
    lemma_shape_of_section(name, by, ls, n);
    lemma_shape_ends(name, by, ls);
    lemma_shape_rests(name, by, ls);
    lemma_state_ok(name, by, ls, n - 1);
    assert(is_plain_line(ls[n - 1]));
    let was = level_of(ls.take(n - 1));
    let now = level_of(ls.take(n));
    let at = level_of(flat(st.out));
    let done = st.prefix.take(c);
    let open = st.prefix.skip(c);
    let mid = fold(step, at, done + flat(st.entries));
    let rests = resting(ls);
    assert(section_run(name, by, ls, (n - 1) + 1) == after);
    if after.in_section && !after.in_entry && (!st.in_section || st.in_entry) {
        assert(rests(n));
        lemma_section_between(name, by, ls, n);
    }
    if st.in_section && !st.in_entry && (!after.in_section || after.in_entry) {
        assert(rests(n - 1));
        assert(c == st.prefix.len());
    }
    assert(open + st.current =~= st.current);
    assert(done =~= st.prefix);
    lemma_fold_push(step, mid, st.current, line);
    if line == "\t\t};"@ {
        lemma_closed(name, st.current);
        let current = st.current.push(line);
        let e = joined(current);
        assert(!st.duplicate);
        assert(item_lines(e) == current);
        lemma_entry_adds(mid, current, now);
        lemma_add_entry(false, base, st.entries, e);
        lemma_flat_push(st.entries, e);
        assert(done + flat(st.entries.push(e)) =~= (done + flat(st.entries)) + current);
        lemma_fold_concat(step, at, done + flat(st.entries), current);
        assert(after.current =~= none);
        assert(after.prefix.skip(c) + after.current =~= none);
        assert(fold(step, now, none) == now);
    } else {
        assert(after.prefix.skip(c) + after.current =~= st.current.push(line));
    }
    c
}

/// The line that opens an entry.
#[verifier::rlimit(60)]
#[verifier::spinoff_prover]
proof fn lemma_level_entry(
    name: Seq<char>,
    by: SectionKey,
    ls: Seq<Seq<char>>,
    n: int,
    c: int,
) -> (d: int)
    requires
        is_level(ls),
        is_well_shaped(ls),
        !is_line_name(name),
        name != "PBXProject"@,
        0 < n <= ls.len(),
        section_run(name, by, ls, n).dropped == 0,
        section_level(name, by, ls, n - 1, c),
        ({
            let st = section_run(name, by, ls, n - 1);
            let line = ls[n - 1];
            st.in_section && word_section_end(line) != Some(name) && !st.in_entry && entry_uuid(
                line,
            ) is Some
        }),
    ensures
        section_level(name, by, ls, n, d),
{
    let none = Seq::<Seq<char>>::empty();
    let step = leveling();
    let base = between_at(name);
    let st = section_run(name, by, ls, n - 1);
    let after = section_run(name, by, ls, n);
    let line = ls[n - 1];
    assert(st.dropped == 0);
    lemma_level_at(ls, n - 1);
    lemma_level_at(ls, n);
    lemma_shape_of_section(name, by, ls, n - 1);
    lemma_shape_of_section(name, by, ls, n);
    lemma_shape_ends(name, by, ls);
    lemma_shape_rests(name, by, ls);
    lemma_state_ok(name, by, ls, n - 1);
    assert(is_plain_line(ls[n - 1]));
    let was = level_of(ls.take(n - 1));
    let now = level_of(ls.take(n));
    let at = level_of(flat(st.out));
    let done = st.prefix.take(c);
    let open = st.prefix.skip(c);
    let mid = fold(step, at, done + flat(st.entries));
    let rests = resting(ls);
    assert(section_run(name, by, ls, (n - 1) + 1) == after);
    if after.in_section && !after.in_entry && (!st.in_section || st.in_entry) {
        assert(rests(n));
        lemma_section_between(name, by, ls, n);
    }
    if st.in_section && !st.in_entry && (!after.in_section || after.in_entry) {
        assert(rests(n - 1));
        assert(c == st.prefix.len());
    }
    assert(open + st.current =~= none);
    assert(done =~= st.prefix);
    assert(fold(step, mid, none) == mid);
    lemma_fold_push(step, mid, none, line);
    assert(after.prefix.skip(c) + after.current =~= none.push(line));
    c
}

/// The state behind a line between the entries.
#[verifier::rlimit(60)]
#[verifier::spinoff_prover]
proof fn lemma_between_line(
    name: Seq<char>,
    by: SectionKey,
    ls: Seq<Seq<char>>,
    n: int,
    c: int,
)
    requires
        is_level(ls),
        is_well_shaped(ls),
        !is_line_name(name),
        name != "PBXProject"@,
        0 < n <= ls.len(),
        section_run(name, by, ls, n).dropped == 0,
        section_level(name, by, ls, n - 1, c),
        ({
            let st = section_run(name, by, ls, n - 1);
            let line = ls[n - 1];
            st.in_section && word_section_end(line) != Some(name) && !st.in_entry && entry_uuid(
                line,
            ) is None
        }),
    ensures
        ({
            let st = section_run(name, by, ls, n - 1);
            let after = section_run(name, by, ls, n);
            let at = level_of(flat(st.out));
            let done = st.prefix.take(c);
            let mid = fold(leveling(), at, done + flat(st.entries));
            &&& after.in_section && !after.in_entry
            &&& after.current.len() == 0
            &&& after.out == st.out
            &&& after.entries == st.entries
            &&& after.prefix == st.prefix.push(ls[n - 1])
            &&& are_plain_lines(after.prefix)
            &&& level_of(ls.take(n)) == fold(leveling(), mid, st.prefix.skip(c).push(ls[n - 1]))
        }),
{
    let step = leveling();
    let st = section_run(name, by, ls, n - 1);
    let line = ls[n - 1];
    lemma_level_at(ls, n - 1);
    lemma_shape_of_section(name, by, ls, n - 1);
    lemma_shape_of_section(name, by, ls, n);
    assert(is_plain_line(ls[n - 1]));
    let at = level_of(flat(st.out));
    let done = st.prefix.take(c);
    let open = st.prefix.skip(c);
    let mid = fold(step, at, done + flat(st.entries));
    assert(open + st.current =~= open);
    lemma_fold_push(step, mid, open, line);
    lemma_plain_entry(st.prefix, line);
}

/// A line between the entries.
#[verifier::rlimit(60)]
#[verifier::spinoff_prover]
proof fn lemma_level_loose(
    name: Seq<char>,
    by: SectionKey,
    ls: Seq<Seq<char>>,
    n: int,
    c: int,
) -> (d: int)
    requires
        is_level(ls),
        is_well_shaped(ls),
        !is_line_name(name),
        name != "PBXProject"@,
        0 < n <= ls.len(),
        section_run(name, by, ls, n).dropped == 0,
        section_level(name, by, ls, n - 1, c),
        ({
            let st = section_run(name, by, ls, n - 1);
            let line = ls[n - 1];
            st.in_section && word_section_end(line) != Some(name) && !st.in_entry && entry_uuid(
                line,
            ) is None
        }),
    ensures
        section_level(name, by, ls, n, d),
{
    let none = Seq::<Seq<char>>::empty();
    let step = leveling();
    let base = between_at(name);
    let st = section_run(name, by, ls, n - 1);
    let after = section_run(name, by, ls, n);
    let line = ls[n - 1];
    lemma_between_line(name, by, ls, n, c);
    let now = level_of(ls.take(n));
    let at = level_of(flat(st.out));
    let done = st.prefix.take(c);
    let open = st.prefix.skip(c);
    let mid = fold(step, at, done + flat(st.entries));
    let more = open.push(line);
    assert(after.current =~= none);
    if is_at_rest(shape_at(ls, n)) {
        lemma_section_between(name, by, ls, n);
        lemma_entry_adds(mid, more, now);
        lemma_section_lines(base, at, done, st.entries, more);
        assert(done + more =~= after.prefix);
        let all = after.prefix.len() as int;
        assert(after.prefix.take(all) =~= done + more);
        assert(after.prefix.skip(all) + after.current =~= none);
        assert(fold(step, now, none) == now);
        all
    } else {
        assert(after.prefix.take(c) =~= done);
        assert(after.prefix.skip(c) + after.current =~= more);
        c
    }
}

proof fn lemma_section_level(name: Seq<char>, by: SectionKey, ls: Seq<Seq<char>>, n: int) -> (c: int)
    requires
        is_level(ls),
        is_well_shaped(ls),
        !is_line_name(name),
        name != "PBXProject"@,
        0 <= n <= ls.len(),
        section_run(name, by, ls, n).dropped == 0,
    ensures
        section_level(name, by, ls, n, c),
    decreases n,
{
    let none = Seq::<Seq<char>>::empty();
    if n == 0 {
        assert(ls.take(0) =~= none);
        assert(flat(none) =~= none);
        0
    } else {
        let st = section_run(name, by, ls, n - 1);
        let line = ls[n - 1];
        assert(st.dropped == 0);
        let c = lemma_section_level(name, by, ls, n - 1);
        if !st.in_section {
            lemma_level_outside(name, by, ls, n, c)
        } else if word_section_end(line) == Some(name) {
            lemma_level_end(name, by, ls, n, c)
        } else if st.in_entry {
            lemma_level_inside(name, by, ls, n, c)
        } else if entry_uuid(line) is Some {
            lemma_level_entry(name, by, ls, n, c)
        } else {
            lemma_level_loose(name, by, ls, n, c)
        }
    }
}

/// Sorting the entries of a section leaves a text level.
proof fn lemma_section_stays_level(name: Seq<char>, by: SectionKey, ls: Seq<Seq<char>>)
    requires
        is_level(ls),
        is_well_shaped(ls),
        !is_line_name(name),
        name != "PBXProject"@,
        section_run(name, by, ls, ls.len() as int).dropped == 0,
    ensures
        is_level(section_lines(name, by, ls)),
{
    let n = ls.len() as int;
    let c = lemma_section_level(name, by, ls, n);
    lemma_shape_of_section(name, by, ls, n);
    assert(ls.take(n) =~= ls);
    let st = section_run(name, by, ls, n);
    let all = st.prefix + flat(st.entries);
    lemma_fold_concat(leveling(), at_start(), flat(st.out), all);
    lemma_fold_concat(leveling(), at_start(), flat(st.out) + all, st.current);
    assert(held(name, by, ls, n) =~= flat(st.out) + all + st.current);
    if !st.in_section {
        assert(flat(st.entries) =~= Seq::empty());
        assert(flat(st.out) + all + st.current =~= flat(st.out));
    }
}

// ── Whole texts ──────────────────────────────────────────────────────────────

proof fn lemma_pass_level(main: Seq<char>, t: Seq<char>, n: int)
    requires
        is_level(lines_of(t)),
        is_well_shaped(lines_of(t)),
        blanks_are_void(lines_of(t)),
        1 <= n <= 12,
        sort_pass(main, t, n).2 == 0,
    ensures
        is_level(lines_of(sort_pass(main, t, n).0)),
{
    let ls = lines_of(t);
    lemma_pass_text(main, t, n);
    if n == 1 {
        lemma_lists_stay_level(ListKind::Files, Seq::empty(), ls);
    } else if n == 2 {
        lemma_lists_stay_level(ListKind::Children, main, ls);
    } else if n == 3 {
        lemma_lines_stay_level(ls);
    } else {
        lemma_names(n, n);
        lemma_project_is_not_sorted(n);
        lemma_section_stays_level(section_of_pass(n).0, section_of_pass(n).1, ls);
    }
}

pub proof fn lemma_passes_level(main: Seq<char>, s: Seq<char>, n: int)
    requires
        is_level(lines_of(s)),
        is_well_shaped(lines_of(s)),
        blanks_are_void(lines_of(s)),
        0 <= n <= 12,
        dropped_until(main, s, n) == 0,
    ensures
        is_level(lines_of(sort_text(main, s, n))),
        ends_line(sort_text(main, s, n)) == ends_line(s),
    decreases n,
{
    if n > 0 {
        lemma_passes_level(main, s, n - 1);
        lemma_passes_permute(main, s, n - 1);
        let t = sort_text(main, s, n - 1);
        lemma_pass_level(main, t, n);
        lemma_pass_text(main, t, n);
    }
}

proof fn lemma_joined_unlines(ls: Seq<Seq<char>>)
    requires
        ls.len() > 0,
    ensures
        joined(ls).push('\n') == unlines(ls),
    decreases ls.len(),
{
    if ls.len() == 1 {
        assert(ls.drop_last() =~= Seq::empty());
        assert(unlines(ls.drop_last()) =~= Seq::empty());
        assert(joined(ls).push('\n') =~= unlines(ls));
    } else {
        lemma_joined_unlines(ls.drop_last());
        assert(joined(ls).push('\n') =~= unlines(ls));
    }
}

/// A text with nothing to repair, in which the sections, entries and lists are
/// closed, stand where they should and hold no duplicates, and lists no blank
/// lines.
pub open spec fn is_orderly(s: Seq<char>, sort_main_group: bool) -> bool {
    let ls = lines_of(s);
    &&& ends_line(s)
    &&& is_well_shaped(ls)
    &&& is_level(ls)
    &&& blanks_are_void(ls)
    &&& !has_orphan(ls)
    &&& forall|k: int| 0 <= k < ls.len() ==> !is_marker(#[trigger] ls[k], '<')
    &&& dropped_until(unsorted_group(s, sort_main_group), s, 12) == 0
}

/// Sorting an orderly text leaves nothing to repair: no conflict, no duplicate,
/// nothing orphaned, no wrapper missing and nothing behind the document.
#[verifier::rlimit(40)]
#[verifier::spinoff_prover]
pub proof fn law_sorting_leaves_nothing_to_repair(s: Seq<char>, sort_main_group: bool)
    requires
        is_orderly(s, sort_main_group),
    ensures
        ({
            let t = sorted_text(s, sort_main_group);
            let ls = lines_of(t);
            &&& unlines(ls) == t
            &&& are_plain_lines(ls)
            &&& conflicts_run(ls).hunks == 0
            &&& decls_run(ls).removed == 0
            &&& lists_run(ls).removed == 0
            &&& !has_orphan(ls)
            &&& bodies_run(ls).removed == 0
            &&& !attributes_run(ls).added
            &&& nothing_behind(ls)
        }),
{
    let main = unsorted_group(s, sort_main_group);
    let t = sorted_text(s, sort_main_group);
    let a = lines_of(s);
    let b = lines_of(t);
    lemma_passes_level(main, s, 12);
    lemma_passes_permute(main, s, 12);
    lemma_all_settled(main, s, 12);
    law_level_text_is_sound(b);
    lemma_same_members(a, b);
    assert forall|l: Seq<char>| marks_section(l) implies #[trigger] a.contains(l) == b.contains(l) by {
        lemma_marker_is_not_blank(l);
    }
    lemma_same_orphans(a, b);
    assert forall|k: int| 0 <= k < b.len() implies !is_marker(#[trigger] b[k], '<') by {
        assert(b.contains(b[k]));
        assert(a.contains(b[k]));
        let i = choose|i: int| 0 <= i < a.len() && a[i] == b[k];
        assert(!is_marker(a[i], '<'));
    }
    law_no_conflict_no_change(b);
    assert(assemble(b, t) == t);
    assert(t.len() > 0);
    assert(b.len() > 0);
    lemma_joined_unlines(b);
}

proof fn lemma_same_members(a: Seq<Seq<char>>, b: Seq<Seq<char>>)
    requires
        same_but_blank(bag(b), bag(a)),
    ensures
        forall|l: Seq<char>| #[trigger] b.contains(l) ==> a.contains(l),
        forall|l: Seq<char>| !is_blank(l) && #[trigger] a.contains(l) ==> b.contains(l),
{
    broadcast use vstd::seq_lib::group_to_multiset_ensures;

    assert forall|l: Seq<char>| (#[trigger] b.contains(l) ==> a.contains(l)) && (!is_blank(l)
        && a.contains(l) ==> b.contains(l)) by {
        assert(bag(b).count(l) <= bag(a).count(l));
        assert(a.contains(l) <==> bag(a).count(l) > 0);
        assert(b.contains(l) <==> bag(b).count(l) > 0);
    }
    assert forall|l: Seq<char>| !is_blank(l) && #[trigger] a.contains(l) implies b.contains(l) by {
        assert(bag(b).count(l) == bag(a).count(l));
        assert(a.contains(l) <==> bag(a).count(l) > 0);
        assert(b.contains(l) <==> bag(b).count(l) > 0);
    }
}

/// A line that marks a section is not blank.
proof fn lemma_marker_is_not_blank(l: Seq<char>)
    requires
        marks_section(l),
    ensures
        !is_blank(l),
{
    if is_blank(l) {
        lemma_blank_effect(l);
        lemma_no_marker_from(l, 0);
    }
}

proof fn lemma_no_marker_from(l: Seq<char>, i: int)
    requires
        forall|k: int| 0 <= k < l.len() ==> is_white(#[trigger] l[k]),
        0 <= i,
    ensures
        first_from(
            l,
            i,
            |k: int| enclosed_at(l, k, "/* Begin "@, |c: char| !is_white(c), " section */"@),
        ) is None,
        first_from(
            l,
            i,
            |k: int| enclosed_at(l, k, "/* End "@, |c: char| !is_white(c), " section */"@),
        ) is None,
    decreases l.len() + 1 - i,
{
    reveal_strlit("/* Begin ");
    reveal_strlit("/* End ");
    if i <= l.len() {
        assert(!occurs_at(l, "/* Begin "@, i)) by {
            if occurs_at(l, "/* Begin "@, i) {
                assert(l.subrange(i, i + 9)[0] == l[i]);
                assert(is_white(l[i]));
            }
        }
        assert(!occurs_at(l, "/* End "@, i)) by {
            if occurs_at(l, "/* End "@, i) {
                assert(l.subrange(i, i + 7)[0] == l[i]);
                assert(is_white(l[i]));
            }
        }
        lemma_no_marker_from(l, i + 1);
    }
}

} // verus!
