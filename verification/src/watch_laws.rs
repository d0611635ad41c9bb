//! Texts that a sort pass leaves as they are.
//!
//! For each pass a state is kept line by line, which says whether the pass has
//! found anything to change.

use crate::order::sort_by;
use crate::pattern::{decl_uuid, entry_uuid, line_section, word_section_begin, word_section_end};
use crate::resort_laws::{closes, lemma_list_out_grows, lemma_pending_ok, lemma_section_ok};
use crate::resort_section_laws::{
    flat, is_entry, item_lines, lemma_closed, lemma_entries_sorted, lemma_entry_id,
    lemma_flat_concat, lemma_flat_plain, lemma_flat_push, lemma_plain_item, lemma_state_ok,
};
use crate::sanitizer::line_braces;
use crate::shape::{
    fold, is_line_name, is_outside, is_well_shaped, lemma_fold_take, lemma_shape_declares,
    lemma_shape_ends, lemma_shape_nested, lemma_shape_of_lists, lemma_shape_of_section,
    lemma_shape_sound, shape_at, starts_loose,
};
use crate::sorter::{
    belongs_to, close_entry, comment_key, entry_key, follows_uuid, indent_width, line_run, list_key,
    list_run, opens, section_key, section_run, section_step, ListKind, SectionKey,
};
use crate::text::{are_plain_lines, has_substring, is_blank, is_plain_line, joined, uppercase};
use vstd::prelude::*;

verus! {

// ── Lists ────────────────────────────────────────────────────────────────────

/// What the pass over the lists of a kind has seen.
pub ghost struct ListWatch {
    pub section: Option<Seq<char>>,
    pub entry: bool,
    /// Inside an entry that is not indented with two tabs, at this depth of braces.
    pub loose: int,
    /// The last declaration stands in a section before.
    pub behind: bool,
    /// The last line that is not blank holds the UUID of the main group.
    pub follows: bool,
    /// The last declaration is that of the main group.
    pub belongs: bool,
    pub in_list: bool,
    pub indent: nat,
    pub sorts: bool,
    pub seen: Set<Seq<char>>,
    pub pending: Seq<Seq<char>>,
    /// Nothing was to be changed.
    pub ok: bool,
}

/// Outside all sections and lists.
pub open spec fn no_list() -> ListWatch {
    ListWatch {
        section: None,
        entry: false,
        loose: 0,
        behind: false,
        follows: false,
        belongs: false,
        in_list: false,
        indent: 0,
        sorts: true,
        seen: Set::empty(),
        pending: Seq::empty(),
        ok: true,
    }
}

/// Between the entries of a section.
pub open spec fn between_entries(name: Seq<char>) -> ListWatch {
    ListWatch { section: Some(name), ..no_list() }
}

pub open spec fn list_changed() -> ListWatch {
    ListWatch { ok: false, ..no_list() }
}

pub open spec fn list_watch_step(
    kind: ListKind,
    main: Seq<char>,
    w: ListWatch,
    line: Seq<char>,
) -> ListWatch {
    let follows = main.len() > 0 && (if is_blank(line) {
        w.follows
    } else {
        has_substring(uppercase(line), main)
    });
    let belongs = main.len() > 0 && (match decl_uuid(line) {
        Some(u) => uppercase(u) == main,
        None => w.belongs,
    });
    let key = |l: Seq<char>| list_key(kind, l);
    if !w.ok {
        list_changed()
    } else if w.in_list {
        if closes(line, w.indent) {
            if w.sorts && w.pending.len() > 0 && sort_by(w.pending, key) != w.pending {
                list_changed()
            } else {
                ListWatch {
                    section: w.section,
                    entry: w.entry,
                    loose: w.loose,
                    behind: w.behind,
                    follows,
                    belongs,
                    ..no_list()
                }
            }
        } else if entry_key(line) is Some {
            if w.seen.contains(entry_key(line)->Some_0) {
                list_changed()
            } else {
                ListWatch {
                    follows,
                    belongs,
                    seen: w.seen.insert(entry_key(line)->Some_0),
                    pending: w.pending.push(line),
                    ..w
                }
            }
        } else if is_blank(line) || w.pending.len() > 0 {
            list_changed()
        } else {
            ListWatch { follows, belongs, ..w }
        }
    } else if w.section is Some && !w.entry && w.loose <= 0 {
        if word_section_end(line) is Some {
            ListWatch { behind: true, ..no_list() }
        } else if entry_uuid(line) is Some {
            ListWatch { entry: true, follows, belongs, ..w }
        } else if starts_loose(w.section->Some_0, line) {
            ListWatch { loose: line_braces(line), follows, belongs, ..w }
        } else {
            w
        }
    } else if w.entry && line == "\t\t};"@ {
        if w.section is Some {
            between_entries(w.section->Some_0)
        } else {
            ListWatch { entry: false, follows, belongs, ..w }
        }
    } else if !w.entry && w.loose <= 0 && word_section_begin(line) is Some {
        between_entries(word_section_begin(line)->Some_0)
    } else if opens(kind, line) {
        ListWatch {
            follows,
            belongs,
            in_list: true,
            indent: indent_width(line),
            sorts: !(kind == ListKind::Children && (w.follows || w.belongs)),
            ..w
        }
    } else if w.loose > 0 {
        if w.loose + line_braces(line) > 0 {
            ListWatch { loose: w.loose + line_braces(line), follows, belongs, ..w }
        } else {
            between_entries(w.section->Some_0)
        }
    } else {
        ListWatch {
            entry: w.entry || entry_uuid(line) is Some,
            behind: w.behind && decl_uuid(line) is None,
            follows,
            belongs,
            ..w
        }
    }
}

pub open spec fn watching_lists(kind: ListKind, main: Seq<char>) -> spec_fn(
    ListWatch,
    Seq<char>,
) -> ListWatch {
    |w: ListWatch, line: Seq<char>| list_watch_step(kind, main, w, line)
}

pub open spec fn list_watch_at(
    kind: ListKind,
    main: Seq<char>,
    ls: Seq<Seq<char>>,
    n: int,
) -> ListWatch {
    fold(watching_lists(kind, main), no_list(), ls.take(n))
}

/// The pass finds nothing to change.
pub open spec fn lists_settled(kind: ListKind, main: Seq<char>, ls: Seq<Seq<char>>) -> bool {
    fold(watching_lists(kind, main), no_list(), ls).ok
}

pub proof fn lemma_list_watch_next(kind: ListKind, main: Seq<char>, ls: Seq<Seq<char>>, n: int)
    requires
        0 <= n < ls.len(),
    ensures
        list_watch_at(kind, main, ls, n + 1) == list_watch_step(
            kind,
            main,
            list_watch_at(kind, main, ls, n),
            ls[n],
        ),
{
    lemma_fold_take(watching_lists(kind, main), no_list(), ls, n);
}

/// The watch goes with the shape and with the pass.
pub open spec fn list_watch_fits(
    kind: ListKind,
    main: Seq<char>,
    ls: Seq<Seq<char>>,
    n: int,
) -> bool {
    let w = list_watch_at(kind, main, ls, n);
    let sh = shape_at(ls, n);
    let st = list_run(kind, main, ls, n);
    &&& w.section == sh.section
    &&& w.entry == sh.entry
    &&& w.loose == sh.loose
    &&& w.behind == sh.behind
    &&& w.section is Some && !w.entry && w.loose <= 0 ==> w == between_entries(w.section->Some_0)
    &&& w.in_list == st.in_list
    &&& w.in_list ==> {
        &&& w.indent == st.indent
        &&& w.sorts == st.sorts
        &&& w.seen == st.seen
        &&& w.pending == st.pending
    }
    &&& !w.in_list ==> w == (ListWatch {
        section: w.section,
        entry: w.entry,
        loose: w.loose,
        behind: w.behind,
        follows: w.follows,
        belongs: w.belongs,
        ..no_list()
    })
    &&& !w.in_list ==> st.pending.len() == 0
    &&& (sh.entry || sh.loose > 0 || sh.section is None) && !w.behind && main.len() > 0 ==> {
        &&& w.follows == follows_uuid(ls, n, main)
        &&& w.belongs == belongs_to(ls, n, main)
    }
    &&& main.len() == 0 ==> !w.follows && !w.belongs
    &&& st.out + st.pending == ls.take(n)
}

#[verifier::rlimit(60)]
#[verifier::spinoff_prover]
pub proof fn lemma_list_watch(kind: ListKind, main: Seq<char>, ls: Seq<Seq<char>>, n: int)
    requires
        is_well_shaped(ls),
        0 <= n <= ls.len(),
        list_watch_at(kind, main, ls, n).ok,
    ensures
        list_watch_fits(kind, main, ls, n),
    decreases n,
{
    if n == 0 {
        assert(ls.take(0) =~= Seq::empty());
        let st = list_run(kind, main, ls, 0);
        assert(st.out + st.pending =~= ls.take(0));
    } else {
        lemma_list_watch_next(kind, main, ls, n - 1);
        assert(list_watch_at(kind, main, ls, n - 1).ok);
        lemma_list_watch(kind, main, ls, n - 1);
        lemma_shape_sound(ls, n - 1);
        lemma_shape_nested(ls, n - 1);
        lemma_shape_nested(ls, n);
        lemma_shape_of_lists(kind, main, ls, n - 1);
        lemma_shape_of_lists(kind, main, ls, n);
        let w = list_watch_at(kind, main, ls, n - 1);
        let after = list_watch_at(kind, main, ls, n);
        let st = list_run(kind, main, ls, n - 1);
        let st2 = list_run(kind, main, ls, n);
        let line = ls[n - 1];
        assert(ls.take(n) =~= ls.take(n - 1).push(line));
        if w.in_list {
            if closes(line, w.indent) {
                let entries = if st.sorts && st.pending.len() > 0 {
                    sort_by(st.pending, |l: Seq<char>| list_key(kind, l))
                } else {
                    st.pending
                };
                assert(entries == st.pending);
                assert(st2.out + st2.pending =~= (st.out + st.pending).push(line));
            } else if entry_key(line) is Some {
                assert(st2.out + st2.pending =~= (st.out + st.pending).push(line));
            } else {
                assert(st.pending =~= Seq::empty());
                assert(st2.out + st2.pending =~= (st.out + st.pending).push(line));
            }
        } else {
            assert(st.pending =~= Seq::empty());
            assert(st2.out + st2.pending =~= (st.out + st.pending).push(line));
            assert(w.sorts);
        }
    }
}

proof fn lemma_list_watch_stays(
    kind: ListKind,
    main: Seq<char>,
    ls: Seq<Seq<char>>,
    n: int,
    m: int,
)
    requires
        0 <= n <= m <= ls.len(),
        list_watch_at(kind, main, ls, m).ok,
    ensures
        list_watch_at(kind, main, ls, n).ok,
    decreases m,
{
    if n < m {
        lemma_list_watch_next(kind, main, ls, m - 1);
        lemma_list_watch_stays(kind, main, ls, n, m - 1);
    }
}

/// In a text in which nothing is to be changed the watch fits everywhere.
pub proof fn lemma_list_watch_all(kind: ListKind, main: Seq<char>, ls: Seq<Seq<char>>, n: int)
    requires
        is_well_shaped(ls),
        lists_settled(kind, main, ls),
        0 <= n <= ls.len(),
    ensures
        list_watch_at(kind, main, ls, n).ok,
        list_watch_fits(kind, main, ls, n),
{
    assert(ls.take(ls.len() as int) =~= ls);
    lemma_list_watch_stays(kind, main, ls, n, ls.len() as int);
    lemma_list_watch(kind, main, ls, n);
}

/// The lines that sorting lists puts out.
pub open spec fn list_lines(kind: ListKind, main: Seq<char>, ls: Seq<Seq<char>>) -> Seq<Seq<char>> {
    let st = list_run(kind, main, ls, ls.len() as int);
    st.out + st.pending
}

/// A pass that finds nothing to change changes nothing.
pub proof fn lemma_settled_lists_stay(kind: ListKind, main: Seq<char>, ls: Seq<Seq<char>>)
    requires
        is_well_shaped(ls),
        lists_settled(kind, main, ls),
    ensures
        list_lines(kind, main, ls) == ls,
{
    lemma_list_watch_all(kind, main, ls, ls.len() as int);
    assert(ls.take(ls.len() as int) =~= ls);
}

/// Each line adds one line at most.
proof fn lemma_list_count(kind: ListKind, main: Seq<char>, ls: Seq<Seq<char>>, n: int, m: int)
    requires
        0 <= n <= m,
    ensures
        ({
            let a = list_run(kind, main, ls, n);
            let b = list_run(kind, main, ls, m);
            b.out.len() + b.pending.len() <= a.out.len() + a.pending.len() + (m - n)
        }),
    decreases m,
{
    if n < m {
        lemma_list_count(kind, main, ls, n, m - 1);
        let st = list_run(kind, main, ls, m - 1);
        crate::order::law_sort_permutes(st.pending, |l: Seq<char>| list_key(kind, l));
    }
}

/// In a text that the pass leaves as it is the pass finds nothing to change.
#[verifier::rlimit(30)]
pub proof fn lemma_fixed_lists_settled(
    kind: ListKind,
    main: Seq<char>,
    ls: Seq<Seq<char>>,
    n: int,
)
    requires
        is_well_shaped(ls),
        list_lines(kind, main, ls) == ls,
        0 <= n <= ls.len(),
    ensures
        list_watch_at(kind, main, ls, n).ok,
    decreases n,
{
    if n == 0 {
        assert(ls.take(0) =~= Seq::empty());
    } else {
        lemma_fixed_lists_settled(kind, main, ls, n - 1);
        lemma_list_watch(kind, main, ls, n - 1);
        lemma_list_watch_next(kind, main, ls, n - 1);
        let w = list_watch_at(kind, main, ls, n - 1);
        let st = list_run(kind, main, ls, n - 1);
        let st2 = list_run(kind, main, ls, n);
        let fin = list_run(kind, main, ls, ls.len() as int);
        let line = ls[n - 1];
        let a = st.out.len() as int;
        lemma_shape_declares(kind, main, ls);
        lemma_pending_ok(kind, main, ls, n - 1);
        lemma_list_out_grows(kind, main, ls, n, ls.len() as int);
        lemma_list_count(kind, main, ls, n, ls.len() as int);
        assert(st.out + st.pending == ls.take(n - 1));
        assert(st.out.len() + st.pending.len() == n - 1);
        assert forall|i: int| 0 <= i < st2.out.len() implies st2.out[i] == ls[i] by {
            assert(st2.out[i] == fin.out[i]);
            assert((fin.out + fin.pending)[i] == fin.out[i]);
        }
        assert forall|i: int| 0 <= i < st.pending.len() implies st.pending[i] == ls[a + i] by {
            assert((st.out + st.pending)[a + i] == ls.take(n - 1)[a + i]);
        }
        if w.in_list && closes(line, w.indent) {
            let key = |l: Seq<char>| list_key(kind, l);
            let sorted = sort_by(st.pending, key);
            if w.sorts && w.pending.len() > 0 {
                crate::order::law_sort_permutes(st.pending, key);
                assert(st2.out == (st.out + sorted).push(line));
                assert forall|i: int| 0 <= i < sorted.len() implies sorted[i] == st.pending[i] by {
                    assert(st2.out[a + i] == sorted[i]);
                    assert(st2.out[a + i] == ls[a + i]);
                }
                assert(sorted =~= st.pending);
            }
        } else if w.in_list && entry_key(line) is None && !is_blank(line) && w.pending.len() > 0 {
            assert(st2.out[a] == line);
            assert(ls[a] == st.pending[0]);
            assert(entry_key(st.pending[0]) is Some);
        }
    }
}

// ── Sections with one entry per line ─────────────────────────────────────────

/// What the pass over the sections with one entry per line has seen.
pub ghost struct LineWatch {
    pub section: Option<Seq<char>>,
    pub seen: Set<Seq<char>>,
    pub pending: Seq<Seq<char>>,
    /// Nothing was to be changed.
    pub ok: bool,
}

pub open spec fn no_line_section() -> LineWatch {
    LineWatch { section: None, seen: Set::empty(), pending: Seq::empty(), ok: true }
}

pub open spec fn line_section_changed() -> LineWatch {
    LineWatch { ok: false, ..no_line_section() }
}

pub open spec fn line_watch_step(w: LineWatch, line: Seq<char>) -> LineWatch {
    let key = |l: Seq<char>| comment_key(l);
    if !w.ok {
        line_section_changed()
    } else if w.section is None {
        LineWatch { section: line_section(line, "/* Begin "@), ..w }
    } else if line_section(line, "/* End "@) == w.section {
        if sort_by(w.pending, key) != w.pending {
            line_section_changed()
        } else {
            no_line_section()
        }
    } else if entry_key(line) is Some {
        if w.seen.contains(entry_key(line)->Some_0) {
            line_section_changed()
        } else {
            LineWatch {
                seen: w.seen.insert(entry_key(line)->Some_0),
                pending: w.pending.push(line),
                ..w
            }
        }
    } else if is_blank(line) || w.pending.len() > 0 {
        line_section_changed()
    } else {
        w
    }
}

pub open spec fn watching_lines() -> spec_fn(LineWatch, Seq<char>) -> LineWatch {
    |w: LineWatch, line: Seq<char>| line_watch_step(w, line)
}

pub open spec fn line_watch_at(ls: Seq<Seq<char>>, n: int) -> LineWatch {
    fold(watching_lines(), no_line_section(), ls.take(n))
}

/// The pass finds nothing to change.
pub open spec fn lines_settled(ls: Seq<Seq<char>>) -> bool {
    fold(watching_lines(), no_line_section(), ls).ok
}

pub proof fn lemma_line_watch_next(ls: Seq<Seq<char>>, n: int)
    requires
        0 <= n < ls.len(),
    ensures
        line_watch_at(ls, n + 1) == line_watch_step(line_watch_at(ls, n), ls[n]),
{
    lemma_fold_take(watching_lines(), no_line_section(), ls, n);
}

/// The watch goes with the pass.
pub open spec fn line_watch_fits(ls: Seq<Seq<char>>, n: int) -> bool {
    let w = line_watch_at(ls, n);
    let st = line_run(ls, n);
    &&& w.section == st.section
    &&& w.section is Some ==> w.seen == st.seen && w.pending == st.pending
    &&& w.section is None ==> w == no_line_section() && st.pending.len() == 0
    &&& st.out + st.pending == ls.take(n)
}

pub proof fn lemma_line_watch(ls: Seq<Seq<char>>, n: int)
    requires
        0 <= n <= ls.len(),
        line_watch_at(ls, n).ok,
    ensures
        line_watch_fits(ls, n),
    decreases n,
{
    if n == 0 {
        assert(ls.take(0) =~= Seq::empty());
        let st = line_run(ls, 0);
        assert(st.out + st.pending =~= ls.take(0));
    } else {
        lemma_line_watch_next(ls, n - 1);
        lemma_line_watch(ls, n - 1);
        let w = line_watch_at(ls, n - 1);
        let st = line_run(ls, n - 1);
        let st2 = line_run(ls, n);
        let line = ls[n - 1];
        assert(ls.take(n) =~= ls.take(n - 1).push(line));
        if w.section is Some && line_section(line, "/* End "@) != w.section && entry_key(
            line,
        ) is None {
            assert(st.pending =~= Seq::empty());
        }
        if w.section is None {
            assert(st.pending =~= Seq::empty());
        }
        assert(st2.out + st2.pending =~= (st.out + st.pending).push(line));
    }
}

proof fn lemma_line_watch_stays(ls: Seq<Seq<char>>, n: int, m: int)
    requires
        0 <= n <= m <= ls.len(),
        line_watch_at(ls, m).ok,
    ensures
        line_watch_at(ls, n).ok,
    decreases m,
{
    if n < m {
        lemma_line_watch_next(ls, m - 1);
        lemma_line_watch_stays(ls, n, m - 1);
    }
}

pub proof fn lemma_line_watch_all(ls: Seq<Seq<char>>, n: int)
    requires
        lines_settled(ls),
        0 <= n <= ls.len(),
    ensures
        line_watch_at(ls, n).ok,
        line_watch_fits(ls, n),
{
    assert(ls.take(ls.len() as int) =~= ls);
    lemma_line_watch_stays(ls, n, ls.len() as int);
    lemma_line_watch(ls, n);
}

/// The lines that sorting sections with one entry per line puts out.
pub open spec fn line_lines(ls: Seq<Seq<char>>) -> Seq<Seq<char>> {
    let st = line_run(ls, ls.len() as int);
    st.out + st.pending
}

pub proof fn lemma_settled_lines_stay(ls: Seq<Seq<char>>)
    requires
        lines_settled(ls),
    ensures
        line_lines(ls) == ls,
{
    lemma_line_watch_all(ls, ls.len() as int);
    assert(ls.take(ls.len() as int) =~= ls);
}

proof fn lemma_line_count(ls: Seq<Seq<char>>, n: int, m: int)
    requires
        0 <= n <= m,
    ensures
        ({
            let a = line_run(ls, n);
            let b = line_run(ls, m);
            &&& b.out.len() + b.pending.len() <= a.out.len() + a.pending.len() + (m - n)
            &&& a.out.is_prefix_of(b.out)
        }),
    decreases m,
{
    if n < m {
        lemma_line_count(ls, n, m - 1);
        let st = line_run(ls, m - 1);
        crate::order::law_sort_permutes(st.pending, |l: Seq<char>| comment_key(l));
        assert(st.out.is_prefix_of(line_run(ls, m).out));
    }
}

#[verifier::rlimit(30)]
pub proof fn lemma_fixed_lines_settled(ls: Seq<Seq<char>>, n: int)
    requires
        are_plain_lines(ls),
        line_lines(ls) == ls,
        0 <= n <= ls.len(),
    ensures
        line_watch_at(ls, n).ok,
    decreases n,
{
    if n == 0 {
        assert(ls.take(0) =~= Seq::empty());
    } else {
        lemma_fixed_lines_settled(ls, n - 1);
        lemma_line_watch(ls, n - 1);
        lemma_line_watch_next(ls, n - 1);
        let w = line_watch_at(ls, n - 1);
        let st = line_run(ls, n - 1);
        let st2 = line_run(ls, n);
        let fin = line_run(ls, ls.len() as int);
        let line = ls[n - 1];
        let a = st.out.len() as int;
        lemma_section_ok(ls, n - 1);
        lemma_line_count(ls, n, ls.len() as int);
        assert(st.out + st.pending == ls.take(n - 1));
        assert(st.out.len() + st.pending.len() == n - 1);
        assert forall|i: int| 0 <= i < st2.out.len() implies st2.out[i] == ls[i] by {
            assert(st2.out[i] == fin.out[i]);
            assert((fin.out + fin.pending)[i] == fin.out[i]);
        }
        assert forall|i: int| 0 <= i < st.pending.len() implies st.pending[i] == ls[a + i] by {
            assert((st.out + st.pending)[a + i] == ls.take(n - 1)[a + i]);
        }
        if w.section is Some && line_section(line, "/* End "@) == w.section {
            let key = |l: Seq<char>| comment_key(l);
            let sorted = sort_by(st.pending, key);
            crate::order::law_sort_permutes(st.pending, key);
            assert(st2.out == (st.out + sorted).push(line));
            assert forall|i: int| 0 <= i < sorted.len() implies sorted[i] == st.pending[i] by {
                assert(st2.out[a + i] == sorted[i]);
                assert(st2.out[a + i] == ls[a + i]);
            }
            assert(sorted =~= st.pending);
        } else if w.section is Some && entry_key(line) is None && !is_blank(line)
            && w.pending.len() > 0 {
            assert(st2.out[a] == line);
            assert(ls[a] == st.pending[0]);
            assert(entry_key(st.pending[0]) is Some);
        }
    }
}

// ── Sections whose entries span several lines ────────────────────────────────

/// What the pass over a section has seen.
pub ghost struct SectionWatch {
    pub in_section: bool,
    pub in_entry: bool,
    pub seen: Set<Seq<char>>,
    pub entries: Seq<Seq<char>>,
    pub current: Seq<Seq<char>>,
    /// Nothing was to be changed.
    pub ok: bool,
}

pub open spec fn no_section() -> SectionWatch {
    SectionWatch {
        in_section: false,
        in_entry: false,
        seen: Set::empty(),
        entries: Seq::empty(),
        current: Seq::empty(),
        ok: true,
    }
}

pub open spec fn section_changed() -> SectionWatch {
    SectionWatch { ok: false, ..no_section() }
}

pub open spec fn section_watch_step(
    name: Seq<char>,
    by: SectionKey,
    w: SectionWatch,
    line: Seq<char>,
) -> SectionWatch {
    let key = |e: Seq<char>| section_key(by, e);
    if !w.ok {
        section_changed()
    } else if !w.in_section {
        if word_section_begin(line) == Some(name) {
            SectionWatch { in_section: true, ..w }
        } else {
            w
        }
    } else if word_section_end(line) == Some(name) {
        if w.in_entry || sort_by(w.entries, key) != w.entries {
            section_changed()
        } else {
            no_section()
        }
    } else if w.in_entry {
        let current = w.current.push(line);
        if line == "\t\t};"@ {
            SectionWatch {
                in_entry: false,
                entries: w.entries.push(joined(current)),
                current: Seq::empty(),
                ..w
            }
        } else {
            SectionWatch { current, ..w }
        }
    } else if entry_uuid(line) is Some {
        let u = uppercase(entry_uuid(line)->Some_0);
        if w.seen.contains(u) {
            section_changed()
        } else {
            SectionWatch {
                in_entry: true,
                seen: w.seen.insert(u),
                current: w.current.push(line),
                ..w
            }
        }
    } else if w.entries.len() > 0 {
        section_changed()
    } else {
        w
    }
}

pub open spec fn watching_section(name: Seq<char>, by: SectionKey) -> spec_fn(
    SectionWatch,
    Seq<char>,
) -> SectionWatch {
    |w: SectionWatch, line: Seq<char>| section_watch_step(name, by, w, line)
}

pub open spec fn section_watch_at(
    name: Seq<char>,
    by: SectionKey,
    ls: Seq<Seq<char>>,
    n: int,
) -> SectionWatch {
    fold(watching_section(name, by), no_section(), ls.take(n))
}

/// The pass finds nothing to change.
pub open spec fn section_settled(name: Seq<char>, by: SectionKey, ls: Seq<Seq<char>>) -> bool {
    fold(watching_section(name, by), no_section(), ls).ok
}

pub proof fn lemma_section_watch_next(name: Seq<char>, by: SectionKey, ls: Seq<Seq<char>>, n: int)
    requires
        0 <= n < ls.len(),
    ensures
        section_watch_at(name, by, ls, n + 1) == section_watch_step(
            name,
            by,
            section_watch_at(name, by, ls, n),
            ls[n],
        ),
{
    lemma_fold_take(watching_section(name, by), no_section(), ls, n);
}

/// The lines read so far, as the pass holds them.
pub open spec fn held(name: Seq<char>, by: SectionKey, ls: Seq<Seq<char>>, n: int) -> Seq<
    Seq<char>,
> {
    let st = section_run(name, by, ls, n);
    flat(st.out) + st.prefix + flat(st.entries) + st.current
}

/// The watch goes with the pass.
pub open spec fn section_watch_fits(
    name: Seq<char>,
    by: SectionKey,
    ls: Seq<Seq<char>>,
    n: int,
) -> bool {
    let w = section_watch_at(name, by, ls, n);
    let st = section_run(name, by, ls, n);
    &&& w.in_section == st.in_section
    &&& w.in_entry == st.in_entry
    &&& w.in_section ==> w.seen == st.seen && w.entries == st.entries && w.current == st.current
    &&& !w.in_section ==> w == no_section()
    &&& !st.duplicate
    &&& held(name, by, ls, n) == ls.take(n)
}

/// Each line is added to those held, as long as nothing is to be changed.
#[verifier::rlimit(40)]
#[verifier::spinoff_prover]
proof fn lemma_held_next(name: Seq<char>, by: SectionKey, ls: Seq<Seq<char>>, n: int)
    requires
        is_well_shaped(ls),
        !is_line_name(name),
        0 <= n < ls.len(),
        section_watch_fits(name, by, ls, n),
        section_watch_at(name, by, ls, n).ok,
        section_watch_at(name, by, ls, n + 1).ok,
    ensures
        held(name, by, ls, n + 1) == held(name, by, ls, n).push(ls[n]),
{
    lemma_section_watch_next(name, by, ls, n);
    lemma_shape_ends(name, by, ls);
    lemma_state_ok(name, by, ls, n);
    let st = section_run(name, by, ls, n);
    let st2 = section_run(name, by, ls, n + 1);
    let line = ls[n];
    assert(st2 == section_step(name, by, st, line));
    assert(is_plain_line(line));
    lemma_plain_item(line);
    let before = held(name, by, ls, n);
    let after = held(name, by, ls, n + 1);
    if !st.in_section {
        lemma_flat_push(st.out, line);
        assert(st.prefix =~= Seq::empty());
        assert(st.entries =~= Seq::empty());
        assert(st.current =~= Seq::empty());
        assert(after =~= before.push(line));
    } else if word_section_end(line) == Some(name) {
        let key = |e: Seq<char>| section_key(by, e);
        assert(close_entry(st) == st);
        assert(sort_by(st.entries, key) == st.entries);
        lemma_flat_section(st.out, st.prefix, st.entries, line);
        assert(st.current =~= Seq::empty());
        assert(flat(st2.entries) =~= Seq::empty());
        assert(after =~= before.push(line));
    } else if st.in_entry {
        if line == "\t\t};"@ {
            lemma_closed(name, st.current);
            lemma_flat_push(st.entries, joined(st.current.push(line)));
        }
        assert(after =~= before.push(line));
    } else if entry_uuid(line) is Some {
        assert(after =~= before.push(line));
    } else {
        assert(st.entries =~= Seq::empty());
        assert(st.current =~= Seq::empty());
        assert(after =~= before.push(line));
    }
}

pub proof fn lemma_section_watch(name: Seq<char>, by: SectionKey, ls: Seq<Seq<char>>, n: int)
    requires
        is_well_shaped(ls),
        !is_line_name(name),
        0 <= n <= ls.len(),
        section_watch_at(name, by, ls, n).ok,
    ensures
        section_watch_fits(name, by, ls, n),
    decreases n,
{
    if n == 0 {
        assert(ls.take(0) =~= Seq::empty());
        assert(held(name, by, ls, 0) =~= ls.take(0));
    } else {
        lemma_section_watch_next(name, by, ls, n - 1);
        lemma_section_watch(name, by, ls, n - 1);
        lemma_held_next(name, by, ls, n - 1);
        lemma_shape_ends(name, by, ls);
        lemma_state_ok(name, by, ls, n - 1);
        lemma_state_ok(name, by, ls, n);
        let st = section_run(name, by, ls, n - 1);
        let st2 = section_run(name, by, ls, n);
        assert(ls.take(n) =~= ls.take(n - 1).push(ls[n - 1]));
        if !st.in_section {
            assert(st2.entries =~= Seq::empty());
            assert(st2.current =~= Seq::empty());
        } else if word_section_end(ls[n - 1]) == Some(name) {
            assert(close_entry(st) == st);
        }
    }
}

proof fn lemma_section_watch_stays(
    name: Seq<char>,
    by: SectionKey,
    ls: Seq<Seq<char>>,
    n: int,
    m: int,
)
    requires
        0 <= n <= m <= ls.len(),
        section_watch_at(name, by, ls, m).ok,
    ensures
        section_watch_at(name, by, ls, n).ok,
    decreases m,
{
    if n < m {
        lemma_section_watch_next(name, by, ls, m - 1);
        lemma_section_watch_stays(name, by, ls, n, m - 1);
    }
}

pub proof fn lemma_section_watch_all(name: Seq<char>, by: SectionKey, ls: Seq<Seq<char>>, n: int)
    requires
        is_well_shaped(ls),
        !is_line_name(name),
        section_settled(name, by, ls),
        0 <= n <= ls.len(),
    ensures
        section_watch_at(name, by, ls, n).ok,
        section_watch_fits(name, by, ls, n),
{
    assert(ls.take(ls.len() as int) =~= ls);
    lemma_section_watch_stays(name, by, ls, n, ls.len() as int);
    lemma_section_watch(name, by, ls, n);
}

/// The lines that sorting the entries of a section puts out.
pub open spec fn section_lines(name: Seq<char>, by: SectionKey, ls: Seq<Seq<char>>) -> Seq<
    Seq<char>,
> {
    held(name, by, ls, ls.len() as int)
}

pub proof fn lemma_settled_section_stays(name: Seq<char>, by: SectionKey, ls: Seq<Seq<char>>)
    requires
        is_well_shaped(ls),
        !is_line_name(name),
        section_settled(name, by, ls),
    ensures
        section_lines(name, by, ls) == ls,
{
    lemma_section_watch_all(name, by, ls, ls.len() as int);
    assert(ls.take(ls.len() as int) =~= ls);
}

/// The lines held, without those of an entry that will be dropped.
spec fn kept_count(name: Seq<char>, by: SectionKey, ls: Seq<Seq<char>>, n: int) -> nat {
    let st = section_run(name, by, ls, n);
    flat(st.out).len() + st.prefix.len() + flat(st.entries).len() + if st.duplicate {
        0
    } else {
        st.current.len()
    }
}

/// What stands before the entries of a section.
spec fn head(name: Seq<char>, by: SectionKey, ls: Seq<Seq<char>>, n: int) -> Seq<Seq<char>> {
    let st = section_run(name, by, ls, n);
    flat(st.out) + st.prefix
}

proof fn lemma_flat_sorted_len(es: Seq<Seq<char>>, key: spec_fn(Seq<char>) -> Seq<char>)
    ensures
        flat(sort_by(es, key)).len() == flat(es).len(),
    decreases es.len(),
{
    if es.len() > 0 {
        lemma_flat_sorted_len(es.drop_last(), key);
        lemma_flat_insert_len(sort_by(es.drop_last(), key), es.last(), key);
    }
}

proof fn lemma_flat_insert_len(
    es: Seq<Seq<char>>,
    x: Seq<char>,
    key: spec_fn(Seq<char>) -> Seq<char>,
)
    ensures
        flat(crate::order::insert_by(es, x, key)).len() == flat(es).len() + item_lines(x).len(),
    decreases es.len(),
{
    if es.len() == 0 || crate::order::text_le(key(es.last()), key(x)) {
        lemma_flat_push(es, x);
    } else {
        lemma_flat_insert_len(es.drop_last(), x, key);
        lemma_flat_push(crate::order::insert_by(es.drop_last(), x, key), es.last());
    }
}

/// The lines of a section that is put out.
proof fn lemma_flat_section(
    out: Seq<Seq<char>>,
    prefix: Seq<Seq<char>>,
    entries: Seq<Seq<char>>,
    line: Seq<char>,
)
    requires
        are_plain_lines(prefix),
        is_plain_line(line),
    ensures
        flat((out + prefix + entries).push(line)) == flat(out) + prefix + flat(entries) + seq![
            line,
        ],
{
    lemma_plain_item(line);
    lemma_flat_plain(prefix);
    lemma_flat_push(out + prefix + entries, line);
    lemma_flat_concat(out + prefix, entries);
    lemma_flat_concat(out, prefix);
}

#[verifier::rlimit(80)]
#[verifier::spinoff_prover]
proof fn lemma_section_count_next(name: Seq<char>, by: SectionKey, ls: Seq<Seq<char>>, n: int)
    requires
        is_well_shaped(ls),
        !is_line_name(name),
        0 <= n < ls.len(),
    ensures
        kept_count(name, by, ls, n + 1) <= kept_count(name, by, ls, n) + 1,
        head(name, by, ls, n).is_prefix_of(head(name, by, ls, n + 1)),
{
    lemma_shape_ends(name, by, ls);
    lemma_state_ok(name, by, ls, n);
    let st = section_run(name, by, ls, n);
    let st2 = section_run(name, by, ls, n + 1);
    let line = ls[n];
    assert(st2 == section_step(name, by, st, line));
    assert(is_plain_line(line));
    lemma_plain_item(line);
    let before = head(name, by, ls, n);
    let after = head(name, by, ls, n + 1);
    if !st.in_section {
        lemma_flat_push(st.out, line);
        assert(st.prefix =~= Seq::empty());
        assert(after =~= before.push(line));
    } else if word_section_end(line) == Some(name) {
        let key = |e: Seq<char>| section_key(by, e);
        assert(close_entry(st) == st);
        let sorted = sort_by(st.entries, key);
        lemma_flat_section(st.out, st.prefix, sorted, line);
        lemma_flat_sorted_len(st.entries, key);
        assert(after =~= before + flat(sorted) + seq![line]);
        assert(flat(st2.entries) =~= Seq::empty());
    } else if st.in_entry {
        if line == "\t\t};"@ {
            lemma_closed(name, st.current);
            lemma_flat_push(st.entries, joined(st.current.push(line)));
        }
    } else if entry_uuid(line) is None {
        assert(after =~= before.push(line));
    }
}

proof fn lemma_section_count(name: Seq<char>, by: SectionKey, ls: Seq<Seq<char>>, n: int, m: int)
    requires
        is_well_shaped(ls),
        !is_line_name(name),
        0 <= n <= m <= ls.len(),
    ensures
        kept_count(name, by, ls, m) <= kept_count(name, by, ls, n) + (m - n),
        head(name, by, ls, n).is_prefix_of(head(name, by, ls, m)),
    decreases m,
{
    if n < m {
        lemma_section_count(name, by, ls, n, m - 1);
        lemma_section_count_next(name, by, ls, m - 1);
        let h = head(name, by, ls, n);
        let before = head(name, by, ls, m - 1);
        let after = head(name, by, ls, m);
        assert forall|i: int| 0 <= i < h.len() implies h[i] == after[i] by {
            assert(h[i] == before[i]);
        }
    }
}

/// Joined lines of which, but for the first, only the last closes an entry.
spec fn closes_once(e: Seq<char>) -> bool {
    let ls = item_lines(e);
    &&& e == joined(ls)
    &&& ls.len() >= 2
    &&& ls.last() == "\t\t};"@
    &&& forall|i: int| 1 <= i < ls.len() - 1 ==> #[trigger] ls[i] != "\t\t};"@
}

proof fn lemma_closes_once(name: Seq<char>, es: Seq<Seq<char>>)
    requires
        forall|i: int| 0 <= i < es.len() ==> is_entry(name, #[trigger] es[i]),
    ensures
        forall|i: int| 0 <= i < es.len() ==> closes_once(#[trigger] es[i]),
{
    assert forall|i: int| 0 <= i < es.len() implies closes_once(#[trigger] es[i]) by {
        let ls = item_lines(es[i]);
        assert(is_entry(name, es[i]));
        assert forall|k: int| 1 <= k < ls.len() - 1 implies #[trigger] ls[k] != "\t\t};"@ by {
            assert(ls.drop_last()[k] == ls[k]);
        }
    }
}

/// Entries are told apart by their lines: two sequences of as many entries that
/// begin with the same lines are equal.
#[verifier::rlimit(30)]
#[verifier::rlimit(60)]
#[verifier::spinoff_prover]
proof fn lemma_flat_injective(a: Seq<Seq<char>>, b: Seq<Seq<char>>)
    requires
        a.len() == b.len(),
        forall|i: int| 0 <= i < a.len() ==> closes_once(#[trigger] a[i]),
        forall|i: int| 0 <= i < b.len() ==> closes_once(#[trigger] b[i]),
        forall|i: int|
            0 <= i < flat(a).len() && i < flat(b).len() ==> flat(a)[i] == #[trigger] flat(b)[i],
    ensures
        a == b,
    decreases a.len(),
{
    if a.len() > 0 {
        let x = item_lines(a[0]);
        let y = item_lines(b[0]);
        let ra = a.drop_first();
        let rb = b.drop_first();
        lemma_flat_front(a);
        lemma_flat_front(b);
        assert(closes_once(a[0]) && closes_once(b[0]));
        let p = x.len() as int;
        let q = y.len() as int;
        assert(flat(a)[p - 1] == x.last());
        assert(flat(b)[q - 1] == y.last());
        if p < q {
            assert(flat(b)[p - 1] == y[p - 1]);
            assert(flat(a)[p - 1] == flat(b)[p - 1]);
        }
        if q < p {
            assert(flat(a)[q - 1] == x[q - 1]);
            assert(flat(a)[q - 1] == flat(b)[q - 1]);
        }
        assert(p == q);
        assert forall|i: int| 0 <= i < p implies x[i] == y[i] by {
            assert(flat(a)[i] == x[i]);
            assert(flat(b)[i] == y[i]);
        }
        assert(x =~= y);
        assert(a[0] == b[0]);
        assert forall|i: int| 0 <= i < ra.len() implies closes_once(#[trigger] ra[i]) by {
            assert(ra[i] == a[i + 1]);
        }
        assert forall|i: int| 0 <= i < rb.len() implies closes_once(#[trigger] rb[i]) by {
            assert(rb[i] == b[i + 1]);
        }
        assert forall|i: int| 0 <= i < flat(ra).len() && i < flat(rb).len() implies flat(ra)[i]
            == #[trigger] flat(rb)[i] by {
            assert(flat(a)[p + i] == flat(ra)[i]);
            assert(flat(b)[p + i] == flat(rb)[i]);
        }
        lemma_flat_injective(ra, rb);
        assert(a =~= seq![a[0]] + ra);
        assert(b =~= seq![b[0]] + rb);
    } else {
        assert(a =~= b);
    }
}

proof fn lemma_flat_front(es: Seq<Seq<char>>)
    requires
        es.len() > 0,
    ensures
        flat(es) == item_lines(es[0]) + flat(es.drop_first()),
{
    let one = Seq::<Seq<char>>::empty().push(es[0]);
    assert(one + es.drop_first() =~= es);
    lemma_flat_concat(one, es.drop_first());
    lemma_flat_push(Seq::empty(), es[0]);
    assert(flat(Seq::<Seq<char>>::empty()) + item_lines(es[0]) =~= item_lines(es[0]));
}

#[verifier::rlimit(40)]
#[verifier::spinoff_prover]
pub proof fn lemma_fixed_section_settled(
    name: Seq<char>,
    by: SectionKey,
    ls: Seq<Seq<char>>,
    n: int,
)
    requires
        is_well_shaped(ls),
        !is_line_name(name),
        section_lines(name, by, ls) == ls,
        0 <= n <= ls.len(),
    ensures
        section_watch_at(name, by, ls, n).ok,
    decreases n,
{
    if n == 0 {
        assert(ls.take(0) =~= Seq::empty());
    } else {
        let len = ls.len() as int;
        lemma_fixed_section_settled(name, by, ls, n - 1);
        lemma_section_watch(name, by, ls, n - 1);
        lemma_section_watch_next(name, by, ls, n - 1);
        lemma_shape_ends(name, by, ls);
        lemma_state_ok(name, by, ls, n - 1);
        lemma_section_count(name, by, ls, n, len);
        lemma_shape_of_section(name, by, ls, len);
        assert(ls.take(len) =~= ls);
        assert(is_outside(shape_at(ls, len)));
        let w = section_watch_at(name, by, ls, n - 1);
        let st = section_run(name, by, ls, n - 1);
        let st2 = section_run(name, by, ls, n);
        let fin = section_run(name, by, ls, len);
        let line = ls[n - 1];
        let h = head(name, by, ls, n - 1);
        let a = h.len() as int;
        assert(flat(fin.entries).len() == 0);
        assert(held(name, by, ls, len) =~= head(name, by, ls, len));
        assert(kept_count(name, by, ls, len) == len);
        assert(held(name, by, ls, n - 1) == ls.take(n - 1));
        assert(kept_count(name, by, ls, n - 1) == n - 1);
        if w.in_section && word_section_end(line) == Some(name) {
            let key = |e: Seq<char>| section_key(by, e);
            assert(!st.in_entry);
            assert(close_entry(st) == st);
            let sorted = sort_by(st.entries, key);
            lemma_entries_sorted(name, st.entries, key);
            assert(is_plain_line(line));
            lemma_flat_section(st.out, st.prefix, sorted, line);
            let h2 = head(name, by, ls, n);
            assert(h2 =~= h + flat(sorted) + seq![line]);
            assert forall|i: int|
                0 <= i < flat(sorted).len() && i < flat(st.entries).len() implies flat(sorted)[i]
                == #[trigger] flat(st.entries)[i] by {
                assert(h2[a + i] == flat(sorted)[i]);
                assert(h2[a + i] == head(name, by, ls, len)[a + i]);
                assert(held(name, by, ls, n - 1)[a + i] == flat(st.entries)[i]);
                assert(ls.take(n - 1)[a + i] == ls[a + i]);
            }
            lemma_closes_once(name, sorted);
            lemma_closes_once(name, st.entries);
            lemma_flat_injective(sorted, st.entries);
        } else if w.in_section && !w.in_entry && entry_uuid(line) is Some {
            if w.seen.contains(uppercase(entry_uuid(line)->Some_0)) {
                assert(st2.duplicate);
                assert(st.current.len() == 0);
                assert(kept_count(name, by, ls, n) == n - 1);
            }
        } else if w.in_section && !w.in_entry && w.entries.len() > 0 {
            let h2 = head(name, by, ls, n);
            assert(h2 =~= h.push(line));
            assert(h2[a] == head(name, by, ls, len)[a]);
            lemma_flat_front(st.entries);
            let e = st.entries[0];
            assert(is_entry(name, e));
            lemma_entry_id(name, e);
            assert(flat(st.entries)[0] == item_lines(e)[0]);
            assert(held(name, by, ls, n - 1)[a] == flat(st.entries)[0]);
            assert(ls.take(n - 1)[a] == ls[a]);
        }
    }
}

} // verus!
