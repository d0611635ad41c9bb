//! Sorting the entries of a section again changes nothing.

use crate::order::{law_sort_idempotent, sort_by};
use crate::pattern::{entry_uuid, word_section_end};
use crate::resort_laws::{
    ends_line, lemma_assembled, lemma_last_line, lemma_readable, lemma_reassembled,
    lemma_sort_keeps, readable,
};
use crate::sorter::{
    assemble, close_entry, section_key, section_run, section_sorted, section_state, section_step,
    SectionKey, SectionState,
};
use crate::sorter_laws::lemma_unlines_concat;
use crate::text::{
    are_plain_lines, is_plain_line, joined, lemma_joined_is_unlines, lines_of, unlines, uppercase,
};
use vstd::prelude::*;

verus! {

// ── Lines of entries ─────────────────────────────────────────────────────────

/// The lines of a line or of an entry.
pub open spec fn item_lines(x: Seq<char>) -> Seq<Seq<char>> {
    if x.contains('\n') {
        lines_of(x)
    } else {
        seq![x]
    }
}

/// The lines of lines and entries.
pub open spec fn flat(items: Seq<Seq<char>>) -> Seq<Seq<char>>
    decreases items.len(),
{
    if items.len() == 0 {
        Seq::empty()
    } else {
        flat(items.drop_last()) + item_lines(items.last())
    }
}

/// A plain line, or plain lines joined.
pub open spec fn is_item(x: Seq<char>) -> bool {
    &&& item_lines(x).len() > 0
    &&& x == joined(item_lines(x))
    &&& are_plain_lines(item_lines(x))
}

pub open spec fn are_items(xs: Seq<Seq<char>>) -> bool {
    forall|i: int| 0 <= i < xs.len() ==> is_item(#[trigger] xs[i])
}

pub proof fn lemma_plain_item(l: Seq<char>)
    requires
        is_plain_line(l),
    ensures
        is_item(l),
        item_lines(l) == seq![l],
{
    if l.contains('\n') {
        let i = choose|i: int| 0 <= i < l.len() && l[i] == '\n';
        assert(l[i] != '\n');
    }
    assert(joined(seq![l]) == l);
}

pub proof fn lemma_flat_push(items: Seq<Seq<char>>, x: Seq<char>)
    ensures
        flat(items.push(x)) == flat(items) + item_lines(x),
{
    assert(items.push(x).drop_last() =~= items);
}

pub proof fn lemma_flat_concat(a: Seq<Seq<char>>, b: Seq<Seq<char>>)
    ensures
        flat(a + b) == flat(a) + flat(b),
    decreases b.len(),
{
    if b.len() == 0 {
        assert(a + b =~= a);
        assert(flat(a) + flat(b) =~= flat(a));
    } else {
        lemma_flat_concat(a, b.drop_last());
        assert((a + b).drop_last() =~= a + b.drop_last());
        assert(flat(a + b) =~= flat(a) + flat(b));
    }
}

pub proof fn lemma_flat_plain(ls: Seq<Seq<char>>)
    requires
        are_plain_lines(ls),
    ensures
        flat(ls) == ls,
        are_items(ls),
    decreases ls.len(),
{
    assert forall|i: int| 0 <= i < ls.len() implies is_item(#[trigger] ls[i]) by {
        assert(is_plain_line(ls[i]));
        lemma_plain_item(ls[i]);
    }
    if ls.len() > 0 {
        let rest = ls.drop_last();
        assert forall|i: int| 0 <= i < rest.len() implies is_plain_line(#[trigger] rest[i]) by {
            assert(rest[i] == ls[i]);
        }
        lemma_flat_plain(rest);
        assert(is_plain_line(ls[ls.len() - 1]));
        lemma_plain_item(ls.last());
        assert(flat(ls) =~= ls);
    } else {
        assert(flat(ls) =~= ls);
    }
}

/// Items written out are their lines written out.
pub proof fn lemma_unlines_flat(items: Seq<Seq<char>>)
    requires
        are_items(items),
    ensures
        unlines(items) == unlines(flat(items)),
        are_plain_lines(flat(items)),
        items.len() > 0 ==> flat(items).len() > 0,
    decreases items.len(),
{
    if items.len() > 0 {
        let rest = items.drop_last();
        let x = items.last();
        assert forall|i: int| 0 <= i < rest.len() implies is_item(#[trigger] rest[i]) by {
            assert(rest[i] == items[i]);
        }
        assert(is_item(items[items.len() - 1]));
        lemma_unlines_flat(rest);
        lemma_joined_is_unlines(item_lines(x));
        lemma_unlines_concat(flat(rest), item_lines(x));
        assert forall|i: int| 0 <= i < flat(items).len() implies is_plain_line(
            #[trigger] flat(items)[i],
        ) by {
            if i < flat(rest).len() {
                assert(flat(items)[i] == flat(rest)[i]);
            } else {
                assert(flat(items)[i] == item_lines(x)[i - flat(rest).len()]);
            }
        }
    }
}

pub proof fn lemma_assemble_flat(items: Seq<Seq<char>>, s: Seq<char>)
    requires
        are_items(items),
    ensures
        assemble(items, s) == assemble(flat(items), s),
{
    lemma_unlines_flat(items);
    if items.len() > 0 {
        lemma_joined_is_unlines(items);
        lemma_joined_is_unlines(flat(items));
        assert(joined(items) =~= joined(items).push('\n').drop_last());
        assert(joined(flat(items)) =~= joined(flat(items)).push('\n').drop_last());
    } else {
        assert(flat(items) =~= items);
    }
}

// ── Entries ──────────────────────────────────────────────────────────────────

/// The UUID of an entry.
pub open spec fn id_of(e: Seq<char>) -> Option<Seq<char>> {
    match entry_uuid(item_lines(e)[0]) {
        Some(u) => Some(uppercase(u)),
        None => None,
    }
}

/// Lines that begin an entry of the section, and do not end it.
pub open spec fn are_open(name: Seq<char>, ls: Seq<Seq<char>>) -> bool {
    &&& are_plain_lines(ls)
    &&& ls.len() > 0 ==> entry_uuid(ls[0]) is Some
    &&& forall|i: int| 0 <= i < ls.len() ==> word_section_end(#[trigger] ls[i]) != Some(name)
    &&& forall|i: int| 1 <= i < ls.len() ==> #[trigger] ls[i] != "\t\t};"@
}

/// An entry with its last line.
pub open spec fn is_entry(name: Seq<char>, e: Seq<char>) -> bool {
    let ls = item_lines(e);
    &&& is_item(e)
    &&& ls.len() >= 2
    &&& are_open(name, ls.drop_last())
    &&& ls.last() == "\t\t};"@
    &&& word_section_end(ls.last()) != Some(name)
}

pub open spec fn are_entries_of(name: Seq<char>, es: Seq<Seq<char>>) -> bool {
    &&& forall|i: int| 0 <= i < es.len() ==> is_entry(name, #[trigger] es[i])
    &&& forall|i: int, j: int|
        0 <= i < j < es.len() ==> id_of(#[trigger] es[i]) != id_of(#[trigger] es[j])
}

/// Lines of the section outside its entries.
pub open spec fn are_outside(name: Seq<char>, ls: Seq<Seq<char>>) -> bool {
    &&& are_plain_lines(ls)
    &&& forall|i: int|
        0 <= i < ls.len() ==> entry_uuid(#[trigger] ls[i]) is None && word_section_end(ls[i])
            != Some(name)
}

/// No section of this name ends inside an entry.
pub open spec fn ends_between_entries(
    name: Seq<char>,
    by: SectionKey,
    lines: Seq<Seq<char>>,
) -> bool {
    forall|i: int|
        0 <= i < lines.len() && section_run(name, by, lines, i).in_section && word_section_end(
            #[trigger] lines[i],
        ) == Some(name) ==> !section_run(name, by, lines, i).in_entry
}

/// What holds while a section is read.
pub open spec fn state_ok(name: Seq<char>, st: SectionState) -> bool {
    &&& are_items(st.out)
    &&& are_outside(name, st.prefix)
    &&& are_entries_of(name, st.entries)
    &&& forall|i: int|
        0 <= i < st.entries.len() ==> st.seen.contains(id_of(#[trigger] st.entries[i])->Some_0)
    &&& are_open(name, st.current)
    &&& st.in_entry == (st.current.len() > 0)
    &&& st.in_entry && !st.duplicate ==> forall|i: int|
        0 <= i < st.entries.len() ==> id_of(#[trigger] st.entries[i]) != id_of(st.current[0])
    &&& st.in_entry ==> st.seen.contains(id_of(st.current[0])->Some_0)
    &&& !st.in_section ==> st.prefix.len() == 0 && st.entries.len() == 0 && !st.in_entry
    &&& !st.in_entry ==> !st.duplicate
}

/// The lines of an entry that is complete.
pub proof fn lemma_closed(name: Seq<char>, current: Seq<Seq<char>>)
    requires
        current.len() > 0,
        are_open(name, current),
        word_section_end("\t\t};"@) != Some(name),
    ensures
        is_entry(name, joined(current.push("\t\t};"@))),
        item_lines(joined(current.push("\t\t};"@))) == current.push("\t\t};"@),
        id_of(joined(current.push("\t\t};"@))) == id_of(current[0]),
{
    reveal_strlit("\t\t};");
    let last = "\t\t};"@;
    assert(is_plain_line(last));
    let ls = current.push(last);
    assert(are_plain_lines(ls)) by {
        assert forall|i: int| 0 <= i < ls.len() implies is_plain_line(#[trigger] ls[i]) by {
            if i < current.len() {
                assert(ls[i] == current[i]);
            }
        }
    }
    let e = joined(ls);
    let none = Seq::<char>::empty();
    assert(readable(ls, false)) by {
        assert forall|i: int| 0 <= i < ls.len() implies {
            &&& !(#[trigger] ls[i]).contains('\n')
            &&& (false || i + 1 < ls.len()) ==> is_plain_line(ls[i])
            &&& i + 1 == ls.len() ==> ls[i].len() > 0
        } by {
            assert(is_plain_line(ls[i]));
        }
    }
    lemma_assembled(ls, none);
    assert(lines_of(e) == ls);
    assert(ls.drop_last() =~= current);
    assert(e == joined(current).push('\n') + last);
    assert(e[joined(current).len() as int] == '\n');
    assert(e.contains('\n'));
    assert(is_plain_line(current[0]));
    lemma_plain_item(current[0]);
    assert(ls[0] == current[0]);
}

#[verifier::rlimit(40)]
#[verifier::spinoff_prover]
pub proof fn lemma_state_ok(name: Seq<char>, by: SectionKey, lines: Seq<Seq<char>>, n: int)
    requires
        0 <= n <= lines.len(),
        are_plain_lines(lines),
        ends_between_entries(name, by, lines),
    ensures
        state_ok(name, section_run(name, by, lines, n)),
    decreases n,
{
    if n > 0 {
        lemma_state_ok(name, by, lines, n - 1);
        let st = section_run(name, by, lines, n - 1);
        let after = section_run(name, by, lines, n);
        let line = lines[n - 1];
        assert(is_plain_line(line));
        lemma_plain_item(line);
        if !st.in_section {
            lemma_items_push(st.out, line);
        } else if word_section_end(line) == Some(name) {
            assert(!st.in_entry);
            assert(close_entry(st) == st);
            let key = |e: Seq<char>| section_key(by, e);
            lemma_entries_sorted(name, st.entries, key);
            lemma_flat_plain(st.prefix);
            let sorted = sort_by(st.entries, key);
            let all = st.out + st.prefix + sorted;
            assert(are_items(all)) by {
                assert forall|i: int| 0 <= i < all.len() implies is_item(#[trigger] all[i]) by {
                    let a = st.out.len();
                    let b = a + st.prefix.len();
                    if i < a {
                        assert(all[i] == st.out[i]);
                    } else if i < b {
                        assert(all[i] == st.prefix[i - a]);
                    } else {
                        assert(all[i] == sorted[i - b]);
                        assert(is_entry(name, sorted[i - b]));
                    }
                }
            }
            lemma_items_push(all, line);
            assert(after.prefix =~= Seq::empty());
        } else if st.in_entry {
            if line == "\t\t};"@ {
                lemma_closed(name, st.current);
                let e = joined(st.current.push(line));
                if !st.duplicate {
                    assert(after.entries == st.entries.push(e));
                    assert forall|i: int, j: int|
                        0 <= i < j < after.entries.len() implies id_of(
                        #[trigger] after.entries[i],
                    ) != id_of(#[trigger] after.entries[j]) by {
                        assert(after.entries[i] == st.entries[i]);
                        if j < st.entries.len() {
                            assert(after.entries[j] == st.entries[j]);
                        }
                    }
                    assert forall|i: int| 0 <= i < after.entries.len() implies is_entry(
                        name,
                        #[trigger] after.entries[i],
                    ) && after.seen.contains(id_of(after.entries[i])->Some_0) by {
                        if i < st.entries.len() {
                            assert(after.entries[i] == st.entries[i]);
                        }
                    }
                }
            } else {
                lemma_open_push(name, st.current, line);
            }
        } else if entry_uuid(line) is Some {
            assert(st.current =~= Seq::empty());
            lemma_open_push(name, st.current, line);
            assert(after.current[0] == line);
            if !after.duplicate {
                assert forall|i: int| 0 <= i < st.entries.len() implies id_of(
                    #[trigger] st.entries[i],
                ) != id_of(line) by {
                    assert(st.seen.contains(id_of(st.entries[i])->Some_0));
                    assert(is_entry(name, st.entries[i]));
                    let ls = item_lines(st.entries[i]);
                    assert(ls.drop_last()[0] == ls[0]);
                }
            }
        } else {
            assert forall|i: int| 0 <= i < after.prefix.len() implies is_plain_line(
                #[trigger] after.prefix[i],
            ) && entry_uuid(after.prefix[i]) is None && word_section_end(after.prefix[i]) != Some(
                name,
            ) by {
                if i < st.prefix.len() {
                    assert(after.prefix[i] == st.prefix[i]);
                }
            }
        }
    }
}

proof fn lemma_items_push(items: Seq<Seq<char>>, x: Seq<char>)
    requires
        are_items(items),
        is_item(x),
    ensures
        are_items(items.push(x)),
{
    assert forall|i: int| 0 <= i < items.len() + 1 implies is_item(#[trigger] items.push(x)[i]) by {
        if i < items.len() {
            assert(items.push(x)[i] == items[i]);
        }
    }
}

proof fn lemma_open_push(name: Seq<char>, current: Seq<Seq<char>>, line: Seq<char>)
    requires
        are_open(name, current),
        is_plain_line(line),
        current.len() == 0 ==> entry_uuid(line) is Some,
        current.len() > 0 ==> line != "\t\t};"@,
        word_section_end(line) != Some(name),
    ensures
        are_open(name, current.push(line)),
{
    let more = current.push(line);
    assert forall|i: int| 0 <= i < more.len() implies is_plain_line(#[trigger] more[i])
        && word_section_end(more[i]) != Some(name) && (i >= 1 ==> more[i] != "\t\t};"@) by {
        if i < current.len() {
            assert(more[i] == current[i]);
        }
    }
}

pub proof fn lemma_entries_sorted(
    name: Seq<char>,
    es: Seq<Seq<char>>,
    key: spec_fn(Seq<char>) -> Seq<char>,
)
    requires
        are_entries_of(name, es),
    ensures
        are_entries_of(name, sort_by(es, key)),
        sort_by(es, key).len() == es.len(),
{
    let holds = |e: Seq<char>| is_entry(name, e);
    let id = |e: Seq<char>| id_of(e);
    lemma_sort_keeps(es, key, holds, id);
    let sorted = sort_by(es, key);
    assert forall|i: int| 0 <= i < sorted.len() implies is_entry(name, #[trigger] sorted[i]) by {
        assert(holds(sorted[i]));
    }
    assert forall|i: int, j: int| 0 <= i < j < sorted.len() implies id_of(#[trigger] sorted[i])
        != id_of(#[trigger] sorted[j]) by {
        assert(id(sorted[i]) != id(sorted[j]));
    }
}

// ── Reading again ────────────────────────────────────────────────────────────

/// The UUIDs of the first `n` entries.
spec fn ids_of(es: Seq<Seq<char>>, n: int) -> Set<Seq<char>>
    decreases n,
{
    if n <= 0 {
        Set::empty()
    } else {
        ids_of(es, n - 1).insert(id_of(es[n - 1])->Some_0)
    }
}

proof fn lemma_id_is_new(name: Seq<char>, es: Seq<Seq<char>>, n: int, m: int)
    requires
        are_entries_of(name, es),
        0 <= n <= m < es.len(),
    ensures
        !ids_of(es, n).contains(id_of(es[m])->Some_0),
        id_of(es[m]) is Some,
    decreases n,
{
    lemma_entry_id(name, es[m]);
    if n > 0 {
        lemma_id_is_new(name, es, n - 1, m);
        lemma_entry_id(name, es[n - 1]);
        assert(id_of(es[n - 1]) != id_of(es[m]));
    }
}

pub proof fn lemma_entry_id(name: Seq<char>, e: Seq<char>)
    requires
        is_entry(name, e),
    ensures
        id_of(e) is Some,
        entry_uuid(item_lines(e)[0]) is Some,
{
    let ls = item_lines(e);
    assert(ls.drop_last()[0] == ls[0]);
}

/// `part` stands in `all` at `from`.
spec fn stands_at(all: Seq<Seq<char>>, from: int, part: Seq<Seq<char>>) -> bool {
    &&& 0 <= from
    &&& from + part.len() <= all.len()
    &&& forall|i: int| 0 <= i < part.len() ==> all[from + i] == #[trigger] part[i]
}

/// Reading lines outside the entries.
proof fn lemma_read_outside(
    name: Seq<char>,
    by: SectionKey,
    again: Seq<Seq<char>>,
    from: int,
    ls: Seq<Seq<char>>,
    n: int,
)
    requires
        stands_at(again, from, ls),
        0 <= n <= ls.len(),
        are_outside(name, ls),
        section_run(name, by, again, from).in_section,
        !section_run(name, by, again, from).in_entry,
        section_run(name, by, again, from).prefix.len() == 0,
    ensures
        section_run(name, by, again, from + n) == (SectionState {
            prefix: ls.take(n),
            ..section_run(name, by, again, from)
        }),
    decreases n,
{
    let st = section_run(name, by, again, from);
    if n == 0 {
        assert(st.prefix =~= ls.take(0));
    } else {
        lemma_read_outside(name, by, again, from, ls, n - 1);
        assert(again[from + (n - 1)] == ls[n - 1]);
        assert(ls.take(n) =~= ls.take(n - 1).push(ls[n - 1]));
    }
}

/// Reading the lines that begin an entry.
proof fn lemma_read_open(
    name: Seq<char>,
    by: SectionKey,
    again: Seq<Seq<char>>,
    from: int,
    ls: Seq<Seq<char>>,
    n: int,
)
    requires
        stands_at(again, from, ls),
        1 <= n <= ls.len(),
        are_open(name, ls),
        section_run(name, by, again, from).in_section,
        !section_run(name, by, again, from).in_entry,
        section_run(name, by, again, from).current.len() == 0,
    ensures
        ({
            let st = section_run(name, by, again, from);
            let id = uppercase(entry_uuid(ls[0])->Some_0);
            section_run(name, by, again, from + n) == (SectionState {
                in_entry: true,
                duplicate: st.seen.contains(id),
                seen: st.seen.insert(id),
                current: ls.take(n),
                ..st
            })
        }),
    decreases n,
{
    let st = section_run(name, by, again, from);
    assert(again[from + (n - 1)] == ls[n - 1]);
    assert(word_section_end(ls[n - 1]) != Some(name));
    assert(ls.take(n) =~= ls.take(n - 1).push(ls[n - 1]));
    if n == 1 {
        assert(st.current =~= ls.take(0));
    } else {
        lemma_read_open(name, by, again, from, ls, n - 1);
    }
}

/// Reading entries.
#[verifier::rlimit(30)]
proof fn lemma_read_entries(
    name: Seq<char>,
    by: SectionKey,
    again: Seq<Seq<char>>,
    from: int,
    es: Seq<Seq<char>>,
    n: int,
)
    requires
        stands_at(again, from, flat(es)),
        0 <= n <= es.len(),
        are_entries_of(name, es),
        section_run(name, by, again, from).in_section,
        !section_run(name, by, again, from).in_entry,
        !section_run(name, by, again, from).duplicate,
        section_run(name, by, again, from).current.len() == 0,
        section_run(name, by, again, from).entries.len() == 0,
        section_run(name, by, again, from).seen == Set::<Seq<char>>::empty(),
    ensures
        section_run(name, by, again, from + flat(es.take(n)).len()) == (SectionState {
            entries: es.take(n),
            seen: ids_of(es, n),
            ..section_run(name, by, again, from)
        }),
    decreases n,
{
    let st = section_run(name, by, again, from);
    if n == 0 {
        assert(st.entries =~= es.take(0));
        assert(flat(es.take(0)).len() == 0);
    } else {
        lemma_read_entries(name, by, again, from, es, n - 1);
        let e = es[n - 1];
        let ls = item_lines(e);
        let a = from + flat(es.take(n - 1)).len();
        assert(es.take(n) =~= es.take(n - 1).push(e));
        lemma_flat_push(es.take(n - 1), e);
        lemma_flat_concat(es.take(n), es.skip(n));
        assert(es.take(n) + es.skip(n) =~= es);
        assert(is_entry(name, e));
        lemma_entry_id(name, e);
        lemma_id_is_new(name, es, n - 1, n - 1);
        let open = ls.drop_last();
        assert forall|i: int| 0 <= i < ls.len() implies again[a + i] == #[trigger] ls[i] by {
            let k = flat(es.take(n - 1)).len() + i;
            assert(flat(es.take(n))[k] == ls[i]);
            assert(flat(es)[k] == flat(es.take(n))[k]);
            assert(again[from + k] == flat(es)[k]);
        }
        assert(stands_at(again, a, open)) by {
            assert forall|i: int| 0 <= i < open.len() implies again[a + i] == #[trigger] open[i] by {
                assert(open[i] == ls[i]);
            }
        }
        lemma_read_open(name, by, again, a, open, open.len() as int);
        let b = a + open.len();
        assert(open.take(open.len() as int) =~= open);
        assert(open[0] == ls[0]);
        assert(again[b] == ls[ls.len() - 1]);
        assert(open.push(ls.last()) =~= ls);
        let st2 = section_run(name, by, again, b);
        assert(section_run(name, by, again, b + 1) == section_step(name, by, st2, again[b]));
        assert(b + 1 == from + flat(es.take(n)).len());
        assert(es.take(n - 1).push(e) =~= es.take(n));
        assert(joined(st2.current.push(again[b])) == e);
        let got = section_run(name, by, again, b + 1);
        assert(got.entries =~= es.take(n));
        assert(got.current =~= st.current);
    }
}

/// What is read of the result, up to what was put out for the first `n` lines.
#[verifier::rlimit(40)]
#[verifier::spinoff_prover]
proof fn lemma_section_again(
    name: Seq<char>,
    by: SectionKey,
    lines: Seq<Seq<char>>,
    n: int,
    again: Seq<Seq<char>>,
)
    requires
        0 <= n <= lines.len(),
        are_plain_lines(lines),
        ends_between_entries(name, by, lines),
        stands_at(again, 0, flat(section_run(name, by, lines, n).out)),
    ensures
        ({
            let st = section_run(name, by, lines, n);
            let st2 = section_run(name, by, again, flat(st.out).len() as int);
            &&& st2.in_section == st.in_section
            &&& st2.out == st.out
            &&& !st2.in_entry && !st2.duplicate
            &&& st2.prefix.len() == 0 && st2.entries.len() == 0 && st2.current.len() == 0
            &&& st.in_section ==> st2.seen == Set::<Seq<char>>::empty()
        }),
    decreases n,
{
    if n > 0 {
        let st = section_run(name, by, lines, n - 1);
        let after = section_run(name, by, lines, n);
        let line = lines[n - 1];
        let a = flat(st.out).len() as int;
        lemma_state_ok(name, by, lines, n - 1);
        assert(is_plain_line(line));
        lemma_plain_item(line);
        if !st.in_section {
            lemma_flat_push(st.out, line);
            assert(stands_at(again, 0, flat(st.out))) by {
                assert forall|i: int| 0 <= i < flat(st.out).len() implies again[0 + i]
                    == #[trigger] flat(st.out)[i] by {
                    assert(flat(after.out)[i] == flat(st.out)[i]);
                }
            }
            lemma_section_again(name, by, lines, n - 1, again);
            assert(flat(after.out)[a] == line);
            assert(again[0 + a] == line);
            let st2 = section_run(name, by, again, a);
            assert(section_run(name, by, again, a + 1) == section_step(name, by, st2, line));
        } else if word_section_end(line) == Some(name) {
            assert(!st.in_entry);
            assert(close_entry(st) == st);
            let key = |e: Seq<char>| section_key(by, e);
            let sorted = sort_by(st.entries, key);
            lemma_entries_sorted(name, st.entries, key);
            lemma_flat_plain(st.prefix);
            let p = st.prefix.len() as int;
            let q = flat(sorted).len() as int;
            lemma_flat_push(st.out + st.prefix + sorted, line);
            lemma_flat_concat(st.out + st.prefix, sorted);
            lemma_flat_concat(st.out, st.prefix);
            let whole = flat(after.out);
            assert(whole =~= flat(st.out) + st.prefix + flat(sorted) + seq![line]);
            assert forall|i: int| 0 <= i < whole.len() implies again[i] == #[trigger] whole[i] by {
                assert(again[0 + i] == whole[i]);
            }
            assert(stands_at(again, 0, flat(st.out))) by {
                assert forall|i: int| 0 <= i < flat(st.out).len() implies again[0 + i]
                    == #[trigger] flat(st.out)[i] by {
                    assert(whole[i] == flat(st.out)[i]);
                }
            }
            lemma_section_again(name, by, lines, n - 1, again);
            assert(stands_at(again, a, st.prefix)) by {
                assert forall|i: int| 0 <= i < p implies again[a + i] == #[trigger] st.prefix[i] by {
                    assert(whole[a + i] == st.prefix[i]);
                }
            }
            lemma_read_outside(name, by, again, a, st.prefix, p);
            assert(st.prefix.take(p) =~= st.prefix);
            assert(stands_at(again, a + p, flat(sorted))) by {
                assert forall|i: int| 0 <= i < q implies again[a + p + i] == #[trigger] flat(
                    sorted,
                )[i] by {
                    assert(whole[a + p + i] == flat(sorted)[i]);
                }
            }
            lemma_read_entries(name, by, again, a + p, sorted, sorted.len() as int);
            assert(sorted.take(sorted.len() as int) =~= sorted);
            let st3 = section_run(name, by, again, a + p + q);
            assert(whole[a + p + q] == line);
            assert(again[a + p + q] == line);
            assert(section_run(name, by, again, a + p + q + 1) == section_step(
                name,
                by,
                st3,
                line,
            ));
            law_sort_idempotent(st.entries, key);
            assert(close_entry(st3) == st3);
        } else {
            assert(after.out == st.out);
            lemma_section_again(name, by, lines, n - 1, again);
        }
    }
}

/// The last line of the result is not empty, if the last line read is not.
proof fn lemma_section_last(name: Seq<char>, by: SectionKey, lines: Seq<Seq<char>>, n: int)
    requires
        0 < n <= lines.len(),
        are_plain_lines(lines),
        ends_between_entries(name, by, lines),
    ensures
        ({
            let st = section_run(name, by, lines, n);
            &&& st.out.len() > 0
            &&& is_plain_line(st.out.last())
            &&& st.current.len() > 0 ==> st.current.last() == lines[n - 1]
            &&& st.current.len() == 0 && st.entries.len() == 0 && st.prefix.len() > 0
                ==> st.prefix.last() == lines[n - 1]
            &&& st.current.len() == 0 && st.entries.len() == 0 && st.prefix.len() == 0
                ==> st.out.last() == lines[n - 1]
        }),
    decreases n,
{
    lemma_state_ok(name, by, lines, n - 1);
    assert(is_plain_line(lines[n - 1]));
    if n > 1 {
        lemma_section_last(name, by, lines, n - 1);
    }
    lemma_first_is_kept(name, by, lines, n - 1);
}

/// A section with a duplicate has an entry.
proof fn lemma_first_is_kept(name: Seq<char>, by: SectionKey, lines: Seq<Seq<char>>, n: int)
    requires
        0 <= n <= lines.len(),
        are_plain_lines(lines),
        ends_between_entries(name, by, lines),
    ensures
        ({
            let st = section_run(name, by, lines, n);
            &&& st.in_section && !st.in_entry && st.entries.len() == 0 ==> st.seen
                == Set::<Seq<char>>::empty()
            &&& st.duplicate ==> st.entries.len() > 0
        }),
    decreases n,
{
    if n > 0 {
        lemma_first_is_kept(name, by, lines, n - 1);
        lemma_state_ok(name, by, lines, n - 1);
    }
}

/// All that is put out at the end of a text.
pub open spec fn result_items(st: SectionState) -> Seq<Seq<char>> {
    st.out + st.prefix + st.entries + st.current
}

pub proof fn lemma_result_items(name: Seq<char>, st: SectionState)
    requires
        state_ok(name, st),
    ensures
        are_items(result_items(st)),
        flat(result_items(st)) == flat(st.out) + st.prefix + flat(st.entries) + st.current,
{
    lemma_flat_plain(st.prefix);
    lemma_flat_plain(st.current);
    let items = result_items(st);
    let a = st.out.len();
    let b = a + st.prefix.len();
    let c = b + st.entries.len();
    assert forall|i: int| 0 <= i < items.len() implies is_item(#[trigger] items[i]) by {
        if i < a {
            assert(items[i] == st.out[i]);
        } else if i < b {
            assert(items[i] == st.prefix[i - a]);
        } else if i < c {
            assert(items[i] == st.entries[i - b]);
            assert(is_entry(name, st.entries[i - b]));
        } else {
            assert(items[i] == st.current[i - c]);
        }
    }
    lemma_flat_concat(st.out + st.prefix + st.entries, st.current);
    lemma_flat_concat(st.out + st.prefix, st.entries);
    lemma_flat_concat(st.out, st.prefix);
}

pub proof fn lemma_result_last(name: Seq<char>, by: SectionKey, lines: Seq<Seq<char>>)
    requires
        lines.len() > 0,
        are_plain_lines(lines),
        ends_between_entries(name, by, lines),
    ensures
        ({
            let all = flat(result_items(section_run(name, by, lines, lines.len() as int)));
            &&& all.len() > 0
            &&& lines.last().len() > 0 ==> all.last().len() > 0
        }),
{
    let n = lines.len() as int;
    let st = section_run(name, by, lines, n);
    lemma_state_ok(name, by, lines, n);
    lemma_result_items(name, st);
    lemma_section_last(name, by, lines, n);
    lemma_plain_item(st.out.last());
    assert(flat(st.out).last() == st.out.last());
    let all = flat(result_items(st));
    if st.current.len() > 0 {
        assert(all.last() == st.current.last());
    } else if st.entries.len() > 0 {
        let e = st.entries.last();
        assert(is_entry(name, st.entries[st.entries.len() - 1]));
        assert(flat(st.entries).last() == item_lines(e).last());
        assert(all.last() == flat(st.entries).last());
        reveal_strlit("\t\t};");
    } else if st.prefix.len() > 0 {
        assert(flat(st.entries).len() == 0);
        assert(all.last() == st.prefix.last());
    } else {
        assert(flat(st.entries).len() == 0);
        assert(all =~= flat(st.out));
    }
}

/// Reading the whole result.
pub proof fn lemma_result_again(name: Seq<char>, by: SectionKey, lines: Seq<Seq<char>>)
    requires
        are_plain_lines(lines),
        ends_between_entries(name, by, lines),
    ensures
        ({
            let st = section_run(name, by, lines, lines.len() as int);
            let again = flat(result_items(st));
            result_items(section_run(name, by, again, again.len() as int)) == result_items(st)
        }),
{
    let n = lines.len() as int;
    let st = section_run(name, by, lines, n);
    lemma_state_ok(name, by, lines, n);
    lemma_result_items(name, st);
    let again = flat(result_items(st));
    let a = flat(st.out).len() as int;
    let p = st.prefix.len() as int;
    let q = flat(st.entries).len() as int;
    assert(stands_at(again, 0, flat(st.out)));
    lemma_section_again(name, by, lines, n, again);
    if st.in_section {
        assert(stands_at(again, a, st.prefix));
        lemma_read_outside(name, by, again, a, st.prefix, p);
        assert(st.prefix.take(p) =~= st.prefix);
        assert(stands_at(again, a + p, flat(st.entries)));
        lemma_read_entries(name, by, again, a + p, st.entries, st.entries.len() as int);
        assert(st.entries.take(st.entries.len() as int) =~= st.entries);
        assert(stands_at(again, a + p + q, st.current));
        if st.current.len() > 0 {
            lemma_read_open(name, by, again, a + p + q, st.current, st.current.len() as int);
            assert(st.current.take(st.current.len() as int) =~= st.current);
        }
    } else {
        assert(flat(st.entries).len() == 0);
        assert(again.len() == a);
    }
    let end = section_run(name, by, again, again.len() as int);
    assert(end.out =~= st.out);
    assert(end.prefix =~= st.prefix);
    assert(end.entries =~= st.entries);
    assert(end.current =~= st.current);
}

/// What sorting a section puts out can be read back.
pub proof fn lemma_section_readable(name: Seq<char>, by: SectionKey, s: Seq<char>)
    requires
        are_plain_lines(lines_of(s)),
        ends_between_entries(name, by, lines_of(s)),
    ensures
        ({
            let items = result_items(section_state(name, by, s));
            &&& are_plain_lines(flat(items))
            &&& readable(flat(items), ends_line(s))
            &&& section_sorted(name, by, s) == assemble(flat(items), s)
        }),
{
    let lines = lines_of(s);
    let n = lines.len() as int;
    let st = section_run(name, by, lines, n);
    let items = result_items(st);
    lemma_state_ok(name, by, lines, n);
    lemma_last_line(s);
    lemma_result_items(name, st);
    lemma_unlines_flat(items);
    lemma_assemble_flat(items, s);
    if n > 0 {
        lemma_result_last(name, by, lines);
    } else {
        assert(items =~= Seq::empty());
    }
    lemma_readable(flat(items), s);
}

/// Sorting a section whose entries are sorted changes nothing, in a text without
/// stray carriage returns in which the section does not end inside an entry.
pub proof fn law_section_sorted_once(name: Seq<char>, by: SectionKey, s: Seq<char>)
    requires
        are_plain_lines(lines_of(s)),
        ends_between_entries(name, by, lines_of(s)),
    ensures
        section_sorted(name, by, section_sorted(name, by, s)) == section_sorted(name, by, s),
{
    let lines = lines_of(s);
    let st = section_state(name, by, s);
    let items = result_items(st);
    lemma_section_readable(name, by, s);
    lemma_assembled(flat(items), s);
    lemma_reassembled(flat(items), s);
    lemma_result_again(name, by, lines);
    lemma_state_ok(name, by, lines, lines.len() as int);
    lemma_result_items(name, st);
    lemma_assemble_flat(items, section_sorted(name, by, s));
}

} // verus!
