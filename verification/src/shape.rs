//! The shape of a project text, line by line.
//!
//! A well-shaped text is made of sections and of what stands outside them.  Both
//! hold entries, from a line with a UUID to a line that closes the braces, or
//! single lines; lists stand inside entries, however these are indented, or
//! outside all sections.

use crate::order::sort_by;
use crate::pattern::{
    decl_uuid, entry_uuid, line_section, word_section_begin, word_section_end,
};
use crate::resort_laws::{closes, entries_declare_nothing, lemma_sort_all};
use crate::resort_section_laws::{
    ends_between_entries, flat, item_lines, lemma_closed, lemma_flat_concat, lemma_flat_plain,
    lemma_flat_push, lemma_plain_item, lemma_state_ok,
};
use crate::sanitizer::line_braces;
use crate::sorter::{
    close_entry, comment_key, entry_key, indent_width, line_run, list_key, list_run, opens,
    section_key, section_run, ListKind, SectionKey,
};
use crate::text::{are_plain_lines, is_blank, is_plain_line, joined};
use vstd::prelude::*;

verus! {

// ── Reading with a state ─────────────────────────────────────────────────────

/// The state after some lines.
pub open spec fn fold<S>(step: spec_fn(S, Seq<char>) -> S, s: S, ls: Seq<Seq<char>>) -> S
    decreases ls.len(),
{
    if ls.len() == 0 {
        s
    } else {
        step(fold(step, s, ls.drop_last()), ls.last())
    }
}

pub proof fn lemma_fold_push<S>(
    step: spec_fn(S, Seq<char>) -> S,
    s: S,
    ls: Seq<Seq<char>>,
    l: Seq<char>,
)
    ensures
        fold(step, s, ls.push(l)) == step(fold(step, s, ls), l),
{
    assert(ls.push(l).drop_last() =~= ls);
}

pub proof fn lemma_fold_take<S>(
    step: spec_fn(S, Seq<char>) -> S,
    s: S,
    ls: Seq<Seq<char>>,
    n: int,
)
    requires
        0 <= n < ls.len(),
    ensures
        fold(step, s, ls.take(n + 1)) == step(fold(step, s, ls.take(n)), ls[n]),
{
    assert(ls.take(n + 1).drop_last() =~= ls.take(n));
}

pub proof fn lemma_fold_concat<S>(
    step: spec_fn(S, Seq<char>) -> S,
    s: S,
    a: Seq<Seq<char>>,
    b: Seq<Seq<char>>,
)
    ensures
        fold(step, s, a + b) == fold(step, fold(step, s, a), b),
    decreases b.len(),
{
    if b.len() == 0 {
        assert(a + b =~= a);
    } else {
        lemma_fold_concat(step, s, a, b.drop_last());
        assert((a + b).drop_last() =~= a + b.drop_last());
    }
}

/// Lines none of which changes the state.
pub proof fn lemma_fold_neutral<S>(step: spec_fn(S, Seq<char>) -> S, s: S, ls: Seq<Seq<char>>)
    requires
        forall|i: int| 0 <= i < ls.len() ==> step(s, #[trigger] ls[i]) == s,
    ensures
        fold(step, s, ls) == s,
    decreases ls.len(),
{
    if ls.len() > 0 {
        let rest = ls.drop_last();
        assert forall|i: int| 0 <= i < rest.len() implies step(s, #[trigger] rest[i]) == s by {
            assert(rest[i] == ls[i]);
        }
        lemma_fold_neutral(step, s, rest);
        assert(step(s, ls[ls.len() - 1]) == s);
    }
}

/// Entries none of which changes the state.
pub proof fn lemma_fold_entries<S>(step: spec_fn(S, Seq<char>) -> S, s: S, es: Seq<Seq<char>>)
    requires
        forall|i: int| 0 <= i < es.len() ==> fold(step, s, item_lines(#[trigger] es[i])) == s,
    ensures
        fold(step, s, flat(es)) == s,
    decreases es.len(),
{
    if es.len() > 0 {
        let rest = es.drop_last();
        assert forall|i: int| 0 <= i < rest.len() implies fold(
            step,
            s,
            item_lines(#[trigger] rest[i]),
        ) == s by {
            assert(rest[i] == es[i]);
        }
        lemma_fold_entries(step, s, rest);
        lemma_fold_concat(step, s, flat(rest), item_lines(es.last()));
        assert(fold(step, s, item_lines(es[es.len() - 1])) == s);
    }
}

// ── What a pass does to a state ──────────────────────────────────────────────

/// Reading the result of sorting lists leaves the state of reading the text, if
/// the lines inside a list do not change it.
#[verifier::rlimit(30)]
pub proof fn lemma_lists_keep_state<S>(
    step: spec_fn(S, Seq<char>) -> S,
    s: S,
    kind: ListKind,
    main: Seq<char>,
    ls: Seq<Seq<char>>,
    n: int,
)
    requires
        0 <= n <= ls.len(),
        forall|i: int|
            0 <= i < ls.len() && list_run(kind, main, ls, i).in_list && list_run(
                kind,
                main,
                ls,
                i + 1,
            ).in_list ==> fold(step, s, #[trigger] ls.take(i + 1)) == fold(step, s, ls.take(i)),
    ensures
        ({
            let st = list_run(kind, main, ls, n);
            let at = fold(step, s, st.out);
            &&& at == fold(step, s, ls.take(n))
            &&& !st.in_list ==> st.pending.len() == 0
            &&& forall|i: int| 0 <= i < st.pending.len() ==> step(at, #[trigger] st.pending[i]) == at
        }),
    decreases n,
{
    if n == 0 {
        assert(ls.take(0) =~= Seq::empty());
    } else {
        lemma_lists_keep_state(step, s, kind, main, ls, n - 1);
        lemma_fold_take(step, s, ls, n - 1);
        let st = list_run(kind, main, ls, n - 1);
        let after = list_run(kind, main, ls, n);
        let line = ls[n - 1];
        let at = fold(step, s, st.out);
        if st.in_list && after.in_list {
            assert(fold(step, s, ls.take((n - 1) + 1)) == fold(step, s, ls.take(n - 1)));
            assert(step(at, line) == at);
            lemma_fold_push(step, s, st.out, line);
            assert forall|i: int| 0 <= i < after.pending.len() implies step(
                at,
                #[trigger] after.pending[i],
            ) == at by {
                if i < st.pending.len() {
                    assert(after.pending[i] == st.pending[i]);
                }
            }
        } else if st.in_list {
            let key = |l: Seq<char>| list_key(kind, l);
            let holds = |l: Seq<char>| step(at, l) == at;
            assert forall|i: int| 0 <= i < st.pending.len() implies holds(
                #[trigger] st.pending[i],
            ) by {
            }
            lemma_sort_all(st.pending, key, holds);
            let sorts = st.sorts && st.pending.len() > 0;
            let entries = if sorts {
                sort_by(st.pending, key)
            } else {
                st.pending
            };
            assert forall|i: int| 0 <= i < entries.len() implies step(at, #[trigger] entries[i])
                == at by {
                assert(holds(entries[i]));
            }
            lemma_fold_neutral(step, at, entries);
            lemma_fold_concat(step, s, st.out, entries);
            lemma_fold_push(step, s, st.out + entries, line);
            assert(after.out == (st.out + entries).push(line));
        } else {
            lemma_fold_push(step, s, st.out, line);
        }
    }
}

/// The same for sections with one entry per line.
#[verifier::rlimit(30)]
pub proof fn lemma_line_sections_keep_state<S>(
    step: spec_fn(S, Seq<char>) -> S,
    s: S,
    ls: Seq<Seq<char>>,
    n: int,
)
    requires
        0 <= n <= ls.len(),
        forall|i: int|
            0 <= i < ls.len() && line_run(ls, i).section is Some && line_run(
                ls,
                i + 1,
            ).section is Some ==> fold(step, s, #[trigger] ls.take(i + 1)) == fold(
                step,
                s,
                ls.take(i),
            ),
    ensures
        ({
            let st = line_run(ls, n);
            let at = fold(step, s, st.out);
            &&& at == fold(step, s, ls.take(n))
            &&& st.section is None ==> st.pending.len() == 0
            &&& forall|i: int| 0 <= i < st.pending.len() ==> step(at, #[trigger] st.pending[i]) == at
        }),
    decreases n,
{
    if n == 0 {
        assert(ls.take(0) =~= Seq::empty());
    } else {
        lemma_line_sections_keep_state(step, s, ls, n - 1);
        lemma_fold_take(step, s, ls, n - 1);
        let st = line_run(ls, n - 1);
        let after = line_run(ls, n);
        let line = ls[n - 1];
        let at = fold(step, s, st.out);
        if st.section is Some && after.section is Some {
            assert(fold(step, s, ls.take((n - 1) + 1)) == fold(step, s, ls.take(n - 1)));
            assert(step(at, line) == at);
            lemma_fold_push(step, s, st.out, line);
            assert forall|i: int| 0 <= i < after.pending.len() implies step(
                at,
                #[trigger] after.pending[i],
            ) == at by {
                if i < st.pending.len() {
                    assert(after.pending[i] == st.pending[i]);
                }
            }
        } else if st.section is Some {
            let key = |l: Seq<char>| comment_key(l);
            let holds = |l: Seq<char>| step(at, l) == at;
            assert forall|i: int| 0 <= i < st.pending.len() implies holds(
                #[trigger] st.pending[i],
            ) by {
            }
            lemma_sort_all(st.pending, key, holds);
            let entries = sort_by(st.pending, key);
            assert forall|i: int| 0 <= i < entries.len() implies step(at, #[trigger] entries[i])
                == at by {
                assert(holds(entries[i]));
            }
            lemma_fold_neutral(step, at, entries);
            lemma_fold_concat(step, s, st.out, entries);
            lemma_fold_push(step, s, st.out + entries, line);
            assert(after.out == (st.out + entries).push(line));
        } else {
            lemma_fold_push(step, s, st.out, line);
        }
    }
}

/// Whether the reading of a section comes to its entries or from them: the lines
/// outside its entries go from rest to rest.
pub open spec fn rests_between(
    rests: spec_fn(int) -> bool,
    name: Seq<char>,
    by: SectionKey,
    ls: Seq<Seq<char>>,
) -> bool {
    forall|i: int|
        0 <= i <= ls.len() && (#[trigger] section_run(name, by, ls, i)).in_section && !section_run(
            name,
            by,
            ls,
            i,
        ).in_entry && !rests(i) ==> {
            &&& i > 0 && section_run(name, by, ls, i - 1).in_section && !section_run(
                name,
                by,
                ls,
                i - 1,
            ).in_entry
            &&& i < ls.len() ==> section_run(name, by, ls, i + 1).in_section && !section_run(
                name,
                by,
                ls,
                i + 1,
            ).in_entry
        }
}

/// The same for sections whose entries span several lines, if the state before and
/// behind the entries is always `between`.
#[verifier::rlimit(40)]
#[verifier::spinoff_prover]
pub proof fn lemma_section_keeps_state<S>(
    step: spec_fn(S, Seq<char>) -> S,
    s: S,
    between: S,
    name: Seq<char>,
    by: SectionKey,
    ls: Seq<Seq<char>>,
    rests: spec_fn(int) -> bool,
    n: int,
)
    requires
        0 <= n <= ls.len(),
        are_plain_lines(ls),
        ends_between_entries(name, by, ls),
        rests_between(rests, name, by, ls),
        forall|i: int|
            0 <= i <= ls.len() && section_run(name, by, ls, i).in_section && !section_run(
                name,
                by,
                ls,
                i,
            ).in_entry && rests(i) ==> fold(step, s, #[trigger] ls.take(i)) == between,
    ensures
        ({
            let st = section_run(name, by, ls, n);
            let at = fold(step, s, flat(st.out));
            if st.in_section {
                &&& at == between
                &&& st.in_entry ==> fold(step, between, st.prefix) == between
                &&& !st.in_entry ==> fold(step, between, st.prefix) == fold(step, s, ls.take(n))
                &&& forall|i: int|
                    0 <= i < st.entries.len() ==> fold(
                        step,
                        between,
                        item_lines(#[trigger] st.entries[i]),
                    ) == between
                &&& st.in_entry ==> fold(step, between, st.current) == fold(step, s, ls.take(n))
            } else {
                at == fold(step, s, ls.take(n))
            }
        }),
    decreases n,
{
    if n == 0 {
        assert(ls.take(0) =~= Seq::empty());
    } else {
        lemma_section_keeps_state(step, s, between, name, by, ls, rests, n - 1);
        lemma_fold_take(step, s, ls, n - 1);
        lemma_state_ok(name, by, ls, n - 1);
        let st = section_run(name, by, ls, n - 1);
        let after = section_run(name, by, ls, n);
        let line = ls[n - 1];
        assert(is_plain_line(line));
        lemma_plain_item(line);
        assert(section_run(name, by, ls, (n - 1) + 1) == after);
        if after.in_section && !after.in_entry && (!st.in_section || st.in_entry) {
            assert(rests(n));
            assert(fold(step, s, ls.take(n)) == between);
        }
        if st.in_section && !st.in_entry && (!after.in_section || after.in_entry) {
            assert(rests(n - 1));
            assert(fold(step, s, ls.take(n - 1)) == between);
        }
        if !st.in_section {
            lemma_flat_push(st.out, line);
            assert(item_lines(line) =~= seq![line]);
            assert(flat(st.out) + seq![line] =~= flat(st.out).push(line));
            lemma_fold_push(step, s, flat(st.out), line);
            assert(after.current.len() == 0);
            assert(after.prefix.len() == 0);
            assert(after.entries.len() == 0);
        } else if word_section_end(line) == Some(name) {
            assert(!st.in_entry);
            assert(close_entry(st) == st);
            let key = |e: Seq<char>| section_key(by, e);
            let holds = |e: Seq<char>| fold(step, between, item_lines(e)) == between;
            assert forall|i: int| 0 <= i < st.entries.len() implies holds(
                #[trigger] st.entries[i],
            ) by {
            }
            lemma_sort_all(st.entries, key, holds);
            let sorted = sort_by(st.entries, key);
            assert forall|i: int| 0 <= i < sorted.len() implies fold(
                step,
                between,
                item_lines(#[trigger] sorted[i]),
            ) == between by {
                assert(holds(sorted[i]));
            }
            lemma_fold_entries(step, between, sorted);
            lemma_flat_plain(st.prefix);
            lemma_flat_push(st.out + st.prefix + sorted, line);
            lemma_flat_concat(st.out + st.prefix, sorted);
            lemma_flat_concat(st.out, st.prefix);
            lemma_fold_concat(step, s, flat(st.out), st.prefix);
            lemma_fold_concat(step, s, flat(st.out) + st.prefix, flat(sorted));
            let body = flat(st.out) + st.prefix + flat(sorted);
            assert(body + seq![line] =~= body.push(line));
            assert(flat(after.out) =~= body.push(line));
            lemma_fold_push(step, s, body, line);
        } else if st.in_entry {
            lemma_fold_push(step, between, st.current, line);
            if line == "\t\t};"@ {
                lemma_closed(name, st.current);
                let e = joined(st.current.push(line));
                assert(fold(step, between, item_lines(e)) == between);
                assert forall|i: int| 0 <= i < after.entries.len() implies fold(
                    step,
                    between,
                    item_lines(#[trigger] after.entries[i]),
                ) == between by {
                    if i < st.entries.len() {
                        assert(after.entries[i] == st.entries[i]);
                    }
                }
                assert(after.current =~= Seq::empty());
            }
        } else if entry_uuid(line) is Some {
            assert(st.current =~= Seq::empty());
            lemma_fold_push(step, between, st.current, line);
        } else {
            lemma_fold_push(step, between, st.prefix, line);
            assert(st.current =~= Seq::empty());
        }
    }
}

// ── Well-shaped texts ────────────────────────────────────────────────────────

/// Where a line stands in a text.
pub ghost struct Shape {
    /// The section.
    pub section: Option<Seq<char>>,
    /// Inside an entry.
    pub entry: bool,
    /// Inside a list, of this kind and indentation.
    pub list: Option<(ListKind, nat)>,
    /// Outside all sections, with the last declaration in a section.
    pub behind: bool,
    /// In a section, inside an entry that is not indented with two tabs, at this
    /// depth of braces.
    pub loose: int,
    /// No line so far stands where it may not stand.
    pub sound: bool,
}

/// Outside all sections.
pub open spec fn outside() -> Shape {
    Shape { section: None, entry: false, list: None, behind: false, loose: 0, sound: true }
}

/// The sections that hold one entry per line.
pub open spec fn is_line_name(name: Seq<char>) -> bool {
    name == "PBXBuildFile"@ || name == "PBXFileReference"@
}

/// The name of a section, if it holds one entry per line.
pub open spec fn line_name(section: Option<Seq<char>>) -> Option<Seq<char>> {
    match section {
        Some(n) => if is_line_name(n) {
            Some(n)
        } else {
            None
        },
        None => None,
    }
}

/// The line opens a list that is sorted.
pub open spec fn opens_list_of_any_kind(line: Seq<char>) -> bool {
    opens(ListKind::Files, line) || opens(ListKind::Children, line)
}

/// The line holds no marker of a section.
pub open spec fn no_marker(line: Seq<char>) -> bool {
    &&& word_section_begin(line) is None
    &&& word_section_end(line) is None
    &&& line_section(line, "/* Begin "@) is None
    &&& line_section(line, "/* End "@) is None
}

/// The line opens an entry that is not indented with two tabs.
pub open spec fn starts_loose(name: Seq<char>, line: Seq<char>) -> bool {
    !is_line_name(name) && entry_uuid(line) is None && decl_uuid(line) is Some && line_braces(line)
        > 0
}

/// The line may stand where it stands.
pub open spec fn may_stand(sh: Shape, line: Seq<char>) -> bool {
    let begun = word_section_begin(line);
    let ended = word_section_end(line);
    if sh.list is Some {
        &&& no_marker(line)
        &&& !opens_list_of_any_kind(line)
        &&& line != "\t\t};"@
        &&& entry_key(line) is Some ==> decl_uuid(line) is None
        &&& !sh.entry ==> entry_uuid(line) is None && decl_uuid(line) is None
        &&& sh.loose > 0 ==> line_braces(line) == 0
    } else if sh.entry {
        &&& no_marker(line)
        &&& !(opens(ListKind::Files, line) && opens(ListKind::Children, line))
        &&& opens_list_of_any_kind(line) ==> line != "\t\t};"@
    } else if sh.loose > 0 {
        &&& no_marker(line)
        &&& !(opens(ListKind::Files, line) && opens(ListKind::Children, line))
        &&& opens_list_of_any_kind(line) ==> line_braces(line) == 0
        &&& entry_uuid(line) is None
    } else if sh.section is Some {
        let name = sh.section->Some_0;
        &&& begun is None
        &&& line_section(line, "/* Begin "@) is None
        &&& ended is None || ended == sh.section
        &&& line_section(line, "/* End "@) == line_name(ended)
        &&& !opens_list_of_any_kind(line)
        &&& entry_uuid(line) is Some ==> {
            &&& ended is None
            &&& !is_line_name(name)
            &&& decl_uuid(line) is Some
            &&& !is_blank(line)
        }
        &&& starts_loose(name, line) ==> ended is None && !is_blank(line)
    } else {
        &&& ended is None
        &&& line_section(line, "/* End "@) is None
        &&& line_section(line, "/* Begin "@) == line_name(begun)
        &&& !(opens(ListKind::Files, line) && opens(ListKind::Children, line))
        &&& opens(ListKind::Children, line) ==> !sh.behind
        &&& decl_uuid(line) is Some ==> !is_blank(line)
        &&& opens_list_of_any_kind(line) ==> {
            &&& begun is None
            &&& decl_uuid(line) is None
            &&& line != "\t\t};"@
        }
        &&& entry_uuid(line) is Some ==> {
            &&& begun is None
            &&& !opens_list_of_any_kind(line)
            &&& decl_uuid(line) is Some
        }
    }
}

pub open spec fn shape_step(sh: Shape, line: Seq<char>) -> Shape {
    if !sh.sound || !may_stand(sh, line) {
        Shape { sound: false, ..outside() }
    } else if sh.list is Some {
        if closes(line, sh.list->Some_0.1) {
            Shape { list: None, ..sh }
        } else {
            sh
        }
    } else if sh.entry {
        if line == "\t\t};"@ {
            Shape { entry: false, ..sh }
        } else if opens(ListKind::Files, line) {
            Shape { list: Some((ListKind::Files, indent_width(line))), ..sh }
        } else if opens(ListKind::Children, line) {
            Shape { list: Some((ListKind::Children, indent_width(line))), ..sh }
        } else {
            sh
        }
    } else if sh.loose > 0 {
        let d = sh.loose + line_braces(line);
        if opens(ListKind::Files, line) {
            Shape { list: Some((ListKind::Files, indent_width(line))), ..sh }
        } else if opens(ListKind::Children, line) {
            Shape { list: Some((ListKind::Children, indent_width(line))), ..sh }
        } else {
            Shape { loose: if d > 0 { d } else { 0 }, ..sh }
        }
    } else if sh.section is Some {
        if word_section_end(line) is Some {
            Shape { behind: true, ..outside() }
        } else if entry_uuid(line) is Some {
            Shape { entry: true, ..sh }
        } else if starts_loose(sh.section->Some_0, line) {
            Shape { loose: line_braces(line), ..sh }
        } else {
            sh
        }
    } else if entry_uuid(line) is Some {
        Shape { entry: true, behind: false, ..sh }
    } else if opens(ListKind::Files, line) {
        Shape { list: Some((ListKind::Files, indent_width(line))), ..sh }
    } else if opens(ListKind::Children, line) {
        Shape { list: Some((ListKind::Children, indent_width(line))), ..sh }
    } else if word_section_begin(line) is Some {
        Shape { section: word_section_begin(line), ..outside() }
    } else {
        Shape { behind: sh.behind && decl_uuid(line) is None, ..sh }
    }
}

pub open spec fn shaping() -> spec_fn(Shape, Seq<char>) -> Shape {
    |sh: Shape, line: Seq<char>| shape_step(sh, line)
}

/// Where the lines behind the first `n` stand.
pub open spec fn shape_at(ls: Seq<Seq<char>>, n: int) -> Shape {
    fold(shaping(), outside(), ls.take(n))
}

/// Outside all sections, wherever the last declaration stands.
pub open spec fn is_outside(sh: Shape) -> bool {
    sh == outside() || sh == (Shape { behind: true, ..outside() })
}

/// A text made of sections that are closed, with entries and lists that are.
pub open spec fn is_well_shaped(ls: Seq<Seq<char>>) -> bool {
    &&& are_plain_lines(ls)
    &&& is_outside(fold(shaping(), outside(), ls))
}

pub proof fn lemma_shape_next(ls: Seq<Seq<char>>, n: int)
    requires
        0 <= n < ls.len(),
    ensures
        shape_at(ls, n + 1) == shape_step(shape_at(ls, n), ls[n]),
{
    lemma_fold_take(shaping(), outside(), ls, n);
}

/// Every line of a well-shaped text may stand where it stands.
pub proof fn lemma_shape_sound(ls: Seq<Seq<char>>, n: int)
    requires
        is_well_shaped(ls),
        0 <= n <= ls.len(),
    ensures
        shape_at(ls, n).sound,
        n < ls.len() ==> may_stand(shape_at(ls, n), ls[n]),
        n < ls.len() ==> shape_at(ls, n + 1) == shape_step(shape_at(ls, n), ls[n]),
    decreases ls.len() - n,
{
    if n < ls.len() {
        lemma_shape_sound(ls, n + 1);
        lemma_shape_next(ls, n);
    } else {
        assert(ls.take(n) =~= ls);
    }
}

/// Lists stand inside entries or outside all sections, and no entry of several
/// lines stands in a section with one entry per line.
pub proof fn lemma_shape_nested(ls: Seq<Seq<char>>, n: int)
    requires
        is_well_shaped(ls),
        0 <= n <= ls.len(),
    ensures
        shape_at(ls, n).list is Some ==> shape_at(ls, n).entry || shape_at(ls, n).loose > 0
            || shape_at(ls, n).section is None,
        shape_at(ls, n).loose >= 0,
        shape_at(ls, n).loose > 0 ==> shape_at(ls, n).section is Some && !shape_at(ls, n).entry
            && line_name(shape_at(ls, n).section) is None,
        shape_at(ls, n).behind ==> shape_at(ls, n).section is None && !shape_at(ls, n).entry,
        shape_at(ls, n).entry ==> line_name(shape_at(ls, n).section) is None,
    decreases n,
{
    if n == 0 {
        assert(ls.take(0) =~= Seq::empty());
    } else {
        lemma_shape_nested(ls, n - 1);
        lemma_shape_sound(ls, n - 1);
    }
}

/// The state of sorting lists goes with the shape.
pub proof fn lemma_shape_of_lists(
    kind: ListKind,
    main: Seq<char>,
    ls: Seq<Seq<char>>,
    n: int,
)
    requires
        is_well_shaped(ls),
        0 <= n <= ls.len(),
    ensures
        ({
            let sh = shape_at(ls, n);
            let st = list_run(kind, main, ls, n);
            &&& st.in_list == (sh.list is Some && sh.list->Some_0.0 == kind)
            &&& st.in_list ==> st.indent == sh.list->Some_0.1
        }),
    decreases n,
{
    if n == 0 {
        assert(ls.take(0) =~= Seq::empty());
    } else {
        lemma_shape_of_lists(kind, main, ls, n - 1);
        lemma_shape_sound(ls, n - 1);
        lemma_shape_nested(ls, n - 1);
    }
}

pub proof fn lemma_shape_declares(kind: ListKind, main: Seq<char>, ls: Seq<Seq<char>>)
    requires
        is_well_shaped(ls),
    ensures
        entries_declare_nothing(kind, main, ls),
{
    assert forall|i: int|
        0 <= i < ls.len() && list_run(kind, main, ls, i).in_list && entry_key(
            #[trigger] ls[i],
        ) is Some implies decl_uuid(ls[i]) is None by {
        lemma_shape_of_lists(kind, main, ls, i);
        lemma_shape_sound(ls, i);
    }
}

/// The state of sorting sections with one entry per line goes with the shape.
pub proof fn lemma_shape_of_lines(ls: Seq<Seq<char>>, n: int)
    requires
        is_well_shaped(ls),
        0 <= n <= ls.len(),
    ensures
        line_run(ls, n).section == line_name(shape_at(ls, n).section),
    decreases n,
{
    if n == 0 {
        assert(ls.take(0) =~= Seq::empty());
    } else {
        lemma_shape_of_lines(ls, n - 1);
        lemma_shape_sound(ls, n - 1);
        lemma_shape_nested(ls, n - 1);
    }
}

/// The state of sorting the entries of a section goes with the shape.
pub proof fn lemma_shape_of_section(
    name: Seq<char>,
    by: SectionKey,
    ls: Seq<Seq<char>>,
    n: int,
)
    requires
        is_well_shaped(ls),
        !is_line_name(name),
        0 <= n <= ls.len(),
    ensures
        ({
            let sh = shape_at(ls, n);
            let st = section_run(name, by, ls, n);
            &&& st.in_section == (sh.section == Some(name))
            &&& st.in_entry == (st.in_section && sh.entry)
            &&& !st.in_entry ==> st.current.len() == 0
            &&& !st.in_section ==> st.prefix.len() == 0 && st.entries.len() == 0
        }),
    decreases n,
{
    if n == 0 {
        assert(ls.take(0) =~= Seq::empty());
    } else {
        lemma_shape_of_section(name, by, ls, n - 1);
        lemma_shape_sound(ls, n - 1);
        lemma_shape_nested(ls, n - 1);
    }
}

pub proof fn lemma_shape_ends(name: Seq<char>, by: SectionKey, ls: Seq<Seq<char>>)
    requires
        is_well_shaped(ls),
        !is_line_name(name),
    ensures
        ends_between_entries(name, by, ls),
{
    assert forall|i: int|
        0 <= i < ls.len() && section_run(name, by, ls, i).in_section && word_section_end(
            #[trigger] ls[i],
        ) == Some(name) implies !section_run(name, by, ls, i).in_entry by {
        lemma_shape_of_section(name, by, ls, i);
        lemma_shape_sound(ls, i);
        lemma_shape_nested(ls, i);
    }
}

/// Neither in a list nor in an entry that is not indented with two tabs.
pub open spec fn is_at_rest(sh: Shape) -> bool {
    sh.loose <= 0 && sh.list is None
}

pub open spec fn resting(ls: Seq<Seq<char>>) -> spec_fn(int) -> bool {
    |i: int| is_at_rest(shape_at(ls, i))
}

/// The lines of a section outside its entries go from rest to rest.
pub proof fn lemma_shape_rests(name: Seq<char>, by: SectionKey, ls: Seq<Seq<char>>)
    requires
        is_well_shaped(ls),
        !is_line_name(name),
    ensures
        rests_between(resting(ls), name, by, ls),
{
    let rests = resting(ls);
    assert forall|i: int|
        0 <= i <= ls.len() && (#[trigger] section_run(name, by, ls, i)).in_section && !section_run(
            name,
            by,
            ls,
            i,
        ).in_entry && !rests(i) implies {
        &&& i > 0 && section_run(name, by, ls, i - 1).in_section && !section_run(
            name,
            by,
            ls,
            i - 1,
        ).in_entry
        &&& i < ls.len() ==> section_run(name, by, ls, i + 1).in_section && !section_run(
            name,
            by,
            ls,
            i + 1,
        ).in_entry
    } by {
        lemma_shape_of_section(name, by, ls, i);
        lemma_shape_nested(ls, i);
        if i > 0 {
            lemma_shape_of_section(name, by, ls, i - 1);
            lemma_shape_nested(ls, i - 1);
            lemma_shape_sound(ls, i - 1);
        } else {
            assert(ls.take(0) =~= Seq::empty());
        }
        if i < ls.len() {
            lemma_shape_sound(ls, i);
        }
    }
}

} // verus!
