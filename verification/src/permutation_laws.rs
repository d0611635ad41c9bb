//! Sorting only moves lines.

use crate::line_reading::line_toks;
use crate::order::{insert_by, law_sort_permutes, sort_by, text_le};
use crate::pattern::{entry_uuid, word_section_end};
use crate::shape::{is_well_shaped, line_name, shape_at, Shape};
use crate::sorted_laws::{lemma_pass_stand, lemma_pass_text, pass_lines};
use crate::sorter::{
    assemble, close_entry, comment_key, dropped_until, line_run, list_key, list_run, section_key,
    section_of_pass, section_run, sort_pass, sort_text, sorted_text, unsorted_group, ListKind,
    SectionKey, SectionState,
};
use crate::text::{
    are_plain_lines, is_blank, is_plain_line, joined, lemma_line_len, lemma_line_len_bound,
    line_len, lines_of, trimmed_start,
};
use vstd::multiset::Multiset;
use vstd::prelude::*;

verus! {

/// How often each line occurs.
pub open spec fn bag(ls: Seq<Seq<char>>) -> Multiset<Seq<char>> {
    ls.to_multiset()
}

proof fn lemma_bag_empty(ls: Seq<Seq<char>>)
    requires
        ls.len() == 0,
    ensures
        bag(ls) == Multiset::<Seq<char>>::empty(),
{
    broadcast use vstd::seq_lib::group_to_multiset_ensures;

    assert(bag(ls).len() == 0);
    assert(bag(ls) =~= Multiset::empty());
}

proof fn lemma_bag_push(ls: Seq<Seq<char>>, l: Seq<char>)
    ensures
        bag(ls.push(l)) == bag(ls).insert(l),
{
    vstd::seq_lib::to_multiset_build(ls, l);
}

proof fn lemma_bag_concat(a: Seq<Seq<char>>, b: Seq<Seq<char>>)
    ensures
        bag(a + b) == bag(a).add(bag(b)),
{
    vstd::seq_lib::lemma_multiset_commutative(a, b);
}

/// A line put behind the first part is a line put behind both.
proof fn lemma_bag_between(a: Seq<Seq<char>>, b: Seq<Seq<char>>, l: Seq<char>)
    ensures
        bag(a.push(l) + b) == bag(a + b).insert(l),
        bag(a + b.push(l)) == bag(a + b).insert(l),
{
    lemma_bag_concat(a.push(l), b);
    lemma_bag_concat(a, b);
    lemma_bag_push(a, l);
    assert(bag(a).insert(l).add(bag(b)) =~= bag(a).add(bag(b)).insert(l));
    lemma_bag_push(a + b, l);
    assert(a + b.push(l) =~= (a + b).push(l));
}

/// No line occurs more often, and only blank lines occur less often.
pub open spec fn same_but_blank(
    a: Multiset<Seq<char>>,
    b: Multiset<Seq<char>>,
) -> bool {
    forall|l: Seq<char>| #[trigger]
        a.count(l) <= b.count(l) && (!is_blank(l) ==> a.count(l) == b.count(l))
}

/// A blank line in a list or in a section with one entry per line holds nothing
/// that is read.
pub open spec fn is_void_if_blank(sh: Shape, line: Seq<char>) -> bool {
    is_blank(line) && (sh.list is Some || line_name(sh.section) is Some) ==> line_toks(line).len()
        == 0
}

/// The blank lines in lists and in sections with one entry per line hold nothing
/// that is read.
pub open spec fn blanks_are_void(ls: Seq<Seq<char>>) -> bool {
    forall|i: int| 0 <= i < ls.len() ==> is_void_if_blank(shape_at(ls, i), #[trigger] ls[i])
}

proof fn lemma_lists_permute(kind: ListKind, main: Seq<char>, ls: Seq<Seq<char>>, n: int)
    requires
        0 <= n <= ls.len(),
        list_run(kind, main, ls, n).dropped == 0,
    ensures
        ({
            let st = list_run(kind, main, ls, n);
            same_but_blank(bag(st.out + st.pending), bag(ls.take(n)))
        }),
        !list_run(kind, main, ls, n).in_list ==> list_run(kind, main, ls, n).pending.len() == 0,
        n > 0 ==> list_run(kind, main, ls, n).out.len() > 0,
    decreases n,
{
    if n == 0 {
        assert(ls.take(0) =~= Seq::empty());
        let none = Seq::<Seq<char>>::empty();
        assert(none + none =~= none);
    } else {
        lemma_lists_permute(kind, main, ls, n - 1);
        let st = list_run(kind, main, ls, n - 1);
        let line = ls[n - 1];
        assert(ls.take(n) =~= ls.take(n - 1).push(line));
        lemma_bag_push(ls.take(n - 1), line);
        lemma_bag_between(st.out, st.pending, line);
        if !st.in_list {
            assert(st.pending =~= Seq::empty());
            assert(st.out.push(line) + st.pending =~= st.out.push(line));
        }
        let key = |l: Seq<char>| list_key(kind, l);
        let entries = sort_by(st.pending, key);
        law_sort_permutes(st.pending, key);
        lemma_bag_concat(st.out, entries);
        lemma_bag_concat(st.out, st.pending);
        lemma_bag_push(st.out + entries, line);
        lemma_bag_push(st.out + st.pending, line);
        let none = Seq::<Seq<char>>::empty();
        assert((st.out + entries).push(line) + none =~= (st.out + entries).push(line));
        assert((st.out + st.pending).push(line) + none =~= (st.out + st.pending).push(line));
    }
}

proof fn lemma_lines_permute(ls: Seq<Seq<char>>, n: int)
    requires
        0 <= n <= ls.len(),
        line_run(ls, n).dropped == 0,
    ensures
        ({
            let st = line_run(ls, n);
            same_but_blank(bag(st.out + st.pending), bag(ls.take(n)))
        }),
        line_run(ls, n).section is None ==> line_run(ls, n).pending.len() == 0,
        n > 0 ==> line_run(ls, n).out.len() > 0,
    decreases n,
{
    if n == 0 {
        assert(ls.take(0) =~= Seq::empty());
        let none = Seq::<Seq<char>>::empty();
        assert(none + none =~= none);
    } else {
        lemma_lines_permute(ls, n - 1);
        let st = line_run(ls, n - 1);
        let line = ls[n - 1];
        assert(ls.take(n) =~= ls.take(n - 1).push(line));
        lemma_bag_push(ls.take(n - 1), line);
        lemma_bag_between(st.out, st.pending, line);
        let key = |l: Seq<char>| comment_key(l);
        let entries = sort_by(st.pending, key);
        law_sort_permutes(st.pending, key);
        lemma_bag_concat(st.out, entries);
        lemma_bag_concat(st.out, st.pending);
        lemma_bag_push(st.out + entries, line);
        let none = Seq::<Seq<char>>::empty();
        assert((st.out + entries).push(line) + none =~= (st.out + entries).push(line));
    }
}

// ── Parts of a text ──────────────────────────────────────────────────────────

/// The parts of a text between its line feeds.
pub open spec fn split(x: Seq<char>) -> Seq<Seq<char>>
    decreases x.len(),
{
    let n = line_len(x) as int;
    if n >= x.len() {
        seq![x]
    } else {
        seq![x.take(n)] + split(x.skip(n + 1))
    }
}

/// How often each line occurs in lines and entries.
spec fn tally(items: Seq<Seq<char>>) -> Multiset<Seq<char>>
    decreases items.len(),
{
    if items.len() == 0 {
        Multiset::empty()
    } else {
        tally(items.drop_last()).add(bag(split(items.last())))
    }
}

proof fn lemma_split_some(x: Seq<char>)
    ensures
        split(x).len() > 0,
{
}

/// A text without a line feed is one part.
proof fn lemma_split_line(l: Seq<char>)
    requires
        forall|i: int| 0 <= i < l.len() ==> l[i] != '\n',
    ensures
        split(l) == seq![l],
{
    lemma_line_len(l, l.len() as int);
}

/// The parts on both sides of a line feed.
proof fn lemma_split_at(a: Seq<char>, b: Seq<char>)
    ensures
        split(a.push('\n') + b) == split(a) + split(b),
    decreases a.len(),
{
    let x = a.push('\n') + b;
    let n = line_len(a) as int;
    lemma_line_len_bound(a);
    if n >= a.len() {
        assert forall|i: int| 0 <= i < n implies x[i] != '\n' by {
            assert(x[i] == a[i]);
        }
        assert(x[n] == '\n');
        lemma_line_len(x, n);
        assert(x.take(n) =~= a);
        assert(x.skip(n + 1) =~= b);
    } else {
        assert forall|i: int| 0 <= i < n implies x[i] != '\n' by {
            assert(x[i] == a[i]);
        }
        assert(x[n] == a[n]);
        lemma_line_len(x, n);
        let rest = a.skip(n + 1);
        lemma_split_at(rest, b);
        assert(x.take(n) =~= a.take(n));
        assert(x.skip(n + 1) =~= rest.push('\n') + b);
        assert(split(x) =~= split(a) + split(b));
    }
}

/// The lines of a text whose parts are plain: its parts, but for an empty one at
/// the end.
proof fn lemma_lines_are_parts(x: Seq<char>)
    requires
        are_plain_lines(split(x)),
    ensures
        lines_of(x) == if split(x).last().len() == 0 {
            split(x).drop_last()
        } else {
            split(x)
        },
    decreases x.len(),
{
    let n = line_len(x) as int;
    lemma_line_len_bound(x);
    if x.len() == 0 {
        assert(split(x).drop_last() =~= Seq::empty());
    } else if n < x.len() {
        let rest = x.skip(n + 1);
        let more = split(rest);
        lemma_split_some(rest);
        assert(split(x)[0] == x.take(n));
        assert(is_plain_line(split(x)[0]));
        assert forall|i: int| 0 <= i < more.len() implies is_plain_line(#[trigger] more[i]) by {
            assert(more[i] == split(x)[i + 1]);
        }
        lemma_lines_are_parts(rest);
        assert(split(x).last() == more.last());
        assert(split(x).drop_last() =~= seq![x.take(n)] + more.drop_last());
    }
}

/// Lines that are joined are its parts again.
proof fn lemma_split_joined(items: Seq<Seq<char>>)
    requires
        items.len() > 0,
    ensures
        bag(split(joined(items))) == tally(items),
    decreases items.len(),
{
    let rest = items.drop_last();
    if items.len() == 1 {
        assert(tally(rest) =~= Multiset::empty());
        assert(tally(items) =~= bag(split(items.last())));
    } else {
        lemma_split_joined(rest);
        lemma_split_at(joined(rest), items.last());
        lemma_bag_concat(split(joined(rest)), split(items.last()));
    }
}

proof fn lemma_tally_push(items: Seq<Seq<char>>, x: Seq<char>)
    ensures
        tally(items.push(x)) == tally(items).add(bag(split(x))),
{
    assert(items.push(x).drop_last() =~= items);
}

proof fn lemma_tally_concat(a: Seq<Seq<char>>, b: Seq<Seq<char>>)
    ensures
        tally(a + b) == tally(a).add(tally(b)),
    decreases b.len(),
{
    if b.len() == 0 {
        assert(a + b =~= a);
        assert(tally(a).add(Multiset::empty()) =~= tally(a));
    } else {
        lemma_tally_concat(a, b.drop_last());
        assert((a + b).drop_last() =~= a + b.drop_last());
        let (x, y, z) = (tally(a), tally(b.drop_last()), bag(split(b.last())));
        assert(x.add(y).add(z) =~= x.add(y.add(z)));
    }
}

/// Lines count as they are.
proof fn lemma_tally_lines(ls: Seq<Seq<char>>)
    requires
        are_plain_lines(ls),
    ensures
        tally(ls) == bag(ls),
        ls.len() > 0 ==> bag(split(joined(ls))) == bag(ls),
    decreases ls.len(),
{
    if ls.len() == 0 {
        lemma_bag_empty(ls);
    } else {
        let rest = ls.drop_last();
        assert forall|i: int| 0 <= i < rest.len() implies is_plain_line(#[trigger] rest[i]) by {
            assert(rest[i] == ls[i]);
        }
        lemma_tally_lines(rest);
        assert(is_plain_line(ls[ls.len() - 1]));
        lemma_split_line(ls.last());
        lemma_one(ls.last());
        assert(rest.push(ls.last()) =~= ls);
        lemma_bag_push(rest, ls.last());
        assert(bag(rest).add(bag(seq![ls.last()])) =~= bag(rest).insert(ls.last()));
        lemma_split_joined(ls);
    }
}

proof fn lemma_one(l: Seq<char>)
    ensures
        bag(seq![l]) == Multiset::<Seq<char>>::empty().insert(l),
{
    let none = Seq::<Seq<char>>::empty();
    assert(none.push(l) =~= seq![l]);
    lemma_bag_push(none, l);
    lemma_bag_empty(none);
}

proof fn lemma_tally_insert(
    es: Seq<Seq<char>>,
    x: Seq<char>,
    key: spec_fn(Seq<char>) -> Seq<char>,
)
    ensures
        tally(insert_by(es, x, key)) == tally(es).add(bag(split(x))),
    decreases es.len(),
{
    if es.len() == 0 || text_le(key(es.last()), key(x)) {
        lemma_tally_push(es, x);
    } else {
        let rest = es.drop_last();
        lemma_tally_insert(rest, x, key);
        lemma_tally_push(insert_by(rest, x, key), es.last());
        let (a, b, c) = (tally(rest), bag(split(x)), bag(split(es.last())));
        assert(a.add(b).add(c) =~= a.add(c).add(b));
    }
}

proof fn lemma_tally_sort(es: Seq<Seq<char>>, key: spec_fn(Seq<char>) -> Seq<char>)
    ensures
        tally(sort_by(es, key)) == tally(es),
    decreases es.len(),
{
    if es.len() > 0 {
        lemma_tally_sort(es.drop_last(), key);
        lemma_tally_insert(sort_by(es.drop_last(), key), es.last(), key);
    }
}

// ── Sections ─────────────────────────────────────────────────────────────────

/// What the reading of a section holds, all in all.
spec fn section_tally(st: SectionState) -> Multiset<Seq<char>> {
    tally(st.out).add(tally(st.prefix)).add(tally(st.entries)).add(bag(st.current))
}

spec fn section_holds(st: SectionState, ls: Seq<Seq<char>>, n: int) -> bool {
    &&& section_tally(st) == bag(ls.take(n))
    &&& are_plain_lines(st.current)
    &&& !st.in_section ==> st.prefix.len() == 0 && st.entries.len() == 0 && !st.in_entry
    &&& !st.in_entry ==> st.current.len() == 0 && !st.duplicate
    &&& n > 0 ==> st.out.len() > 0
}

/// An entry that is closed is held as before.
proof fn lemma_close_tally(st: SectionState)
    requires
        are_plain_lines(st.current),
        close_entry(st).dropped == st.dropped,
    ensures
        section_tally(close_entry(st)) == section_tally(st),
        close_entry(st).current.len() == 0,
        !close_entry(st).in_entry && !close_entry(st).duplicate,
{
    let none = Seq::<Seq<char>>::empty();
    lemma_bag_empty(none);
    if st.current.len() > 0 {
        lemma_tally_lines(st.current);
        lemma_tally_push(st.entries, joined(st.current));
        let (o, p, e, c) = (tally(st.out), tally(st.prefix), tally(st.entries), bag(st.current));
        assert(o.add(p).add(e.add(c)).add(Multiset::empty()) =~= o.add(p).add(e).add(c));
    }
}

#[verifier::rlimit(60)]
#[verifier::spinoff_prover]
proof fn lemma_section_permutes(name: Seq<char>, by: SectionKey, ls: Seq<Seq<char>>, n: int)
    requires
        are_plain_lines(ls),
        0 <= n <= ls.len(),
        section_run(name, by, ls, n).dropped == 0,
    ensures
        section_holds(section_run(name, by, ls, n), ls, n),
    decreases n,
{
    let none = Multiset::<Seq<char>>::empty();
    let nil = Seq::<Seq<char>>::empty();
    lemma_bag_empty(nil);
    if n == 0 {
        assert(ls.take(0) =~= nil);
        assert(section_tally(section_run(name, by, ls, 0)) =~= none);
    } else {
        let st = section_run(name, by, ls, n - 1);
        let after = section_run(name, by, ls, n);
        let line = ls[n - 1];
        assert(st.dropped == 0);
        lemma_section_permutes(name, by, ls, n - 1);
        assert(is_plain_line(ls[n - 1]));
        lemma_split_line(line);
        lemma_one(line);
        assert(ls.take(n) =~= ls.take(n - 1).push(line));
        lemma_bag_push(ls.take(n - 1), line);
        let (o, p, e, c) = (tally(st.out), tally(st.prefix), tally(st.entries), bag(st.current));
        let w = bag(seq![line]);
        assert(bag(ls.take(n)) =~= o.add(p).add(e).add(c).add(w));
        if !st.in_section {
            lemma_tally_push(st.out, line);
            assert(section_tally(after) =~= o.add(p).add(e).add(c).add(w));
        } else if word_section_end(line) == Some(name) {
            let done = close_entry(st);
            assert(done.dropped == 0);
            lemma_close_tally(st);
            let key = |x: Seq<char>| section_key(by, x);
            let sorted = sort_by(done.entries, key);
            lemma_tally_sort(done.entries, key);
            lemma_tally_push(st.out + st.prefix + sorted, line);
            lemma_tally_concat(st.out + st.prefix, sorted);
            lemma_tally_concat(st.out, st.prefix);
            assert(done.current =~= nil);
            assert(after.current =~= nil && after.prefix =~= nil && after.entries =~= nil);
            let d = tally(done.entries);
            assert(section_tally(done) == o.add(p).add(d).add(none));
            assert(section_tally(after) =~= o.add(p).add(d).add(none).add(w));
        } else if st.in_entry || entry_uuid(line) is Some {
            let current = st.current.push(line);
            lemma_bag_push(st.current, line);
            assert forall|i: int| 0 <= i < current.len() implies is_plain_line(
                #[trigger] current[i],
            ) by {
                if i < st.current.len() {
                    assert(current[i] == st.current[i]);
                }
            }
            if st.in_entry && line == "\t\t};"@ {
                let more = SectionState { current, ..st };
                assert(section_tally(more) =~= o.add(p).add(e).add(c).add(w));
                assert(after == close_entry(more));
                lemma_close_tally(more);
            } else {
                assert(section_tally(after) =~= o.add(p).add(e).add(c).add(w));
            }
        } else {
            lemma_tally_push(st.prefix, line);
            assert(section_tally(after) =~= o.add(p).add(e).add(c).add(w));
        }
    }
}

// ── Texts ────────────────────────────────────────────────────────────────────

/// The items of a pass as a text.
proof fn lemma_assembled_lines(items: Seq<Seq<char>>, t: Seq<char>)
    requires
        are_plain_lines(lines_of(t)),
        same_but_blank(tally(items), bag(lines_of(t))),
        lines_of(t).len() > 0 ==> items.len() > 0,
    ensures
        same_but_blank(bag(lines_of(assemble(items, t))), bag(lines_of(t))),
        are_plain_lines(lines_of(assemble(items, t))),
{
    broadcast use vstd::seq_lib::group_to_multiset_ensures;

    let ls = lines_of(t);
    let x = joined(items);
    let r = assemble(items, t);
    if items.len() == 0 {
        assert(ls.len() == 0);
        assert(t.len() == 0);
        assert(r.len() == 0);
    } else {
        lemma_split_joined(items);
        let parts = split(x);
        lemma_split_some(x);
        assert forall|i: int| 0 <= i < parts.len() implies is_plain_line(#[trigger] parts[i]) by {
            assert(parts.contains(parts[i]));
            assert(bag(parts).count(parts[i]) > 0);
            assert(bag(parts).count(parts[i]) <= bag(ls).count(parts[i]));
            assert(ls.contains(parts[i]));
            let k = choose|k: int| 0 <= k < ls.len() && ls[k] == parts[i];
            assert(is_plain_line(ls[k]));
        }
        let empty = Seq::<char>::empty();
        if t.len() > 0 && t.last() == '\n' {
            lemma_split_at(x, empty);
            assert(x.push('\n') + empty =~= r);
            lemma_split_line(empty);
            let more = parts.push(empty);
            assert(split(r) =~= more);
            assert forall|i: int| 0 <= i < more.len() implies is_plain_line(#[trigger] more[i]) by {
                if i < parts.len() {
                    assert(more[i] == parts[i]);
                }
            }
            lemma_lines_are_parts(r);
            assert(more.drop_last() =~= parts);
        } else {
            lemma_lines_are_parts(x);
            let less = parts.drop_last();
            let last = parts.last();
            assert(less.push(last) =~= parts);
            lemma_bag_push(less, last);
            if last.len() == 0 {
                assert(trimmed_start(last) =~= last);
                assert(is_blank(last));
                assert forall|i: int| 0 <= i < less.len() implies is_plain_line(
                    #[trigger] less[i],
                ) by {
                    assert(less[i] == parts[i]);
                }
                assert forall|l: Seq<char>| #[trigger]
                    bag(less).count(l) <= bag(ls).count(l) && (!is_blank(l) ==> bag(less).count(l)
                        == bag(ls).count(l)) by {
                    assert(bag(parts).count(l) <= bag(ls).count(l));
                }
            }
        }
    }
}

/// A pass that drops nothing only moves lines.
proof fn lemma_pass_permutes(main: Seq<char>, t: Seq<char>, n: int)
    requires
        are_plain_lines(lines_of(t)),
        1 <= n <= 12,
        sort_pass(main, t, n).2 == 0,
    ensures
        same_but_blank(bag(lines_of(sort_pass(main, t, n).0)), bag(lines_of(t))),
        are_plain_lines(lines_of(sort_pass(main, t, n).0)),
{
    let ls = lines_of(t);
    let len = ls.len() as int;
    assert(ls.take(len) =~= ls);
    if n <= 2 {
        let (kind, group) = if n == 1 {
            (ListKind::Files, Seq::empty())
        } else {
            (ListKind::Children, main)
        };
        lemma_lists_permute(kind, group, ls, len);
        let st = list_run(kind, group, ls, len);
        lemma_plain_part(st.out + st.pending, ls);
        lemma_tally_lines(st.out + st.pending);
        lemma_assembled_lines(st.out + st.pending, t);
    } else if n == 3 {
        lemma_lines_permute(ls, len);
        let st = line_run(ls, len);
        lemma_plain_part(st.out + st.pending, ls);
        lemma_tally_lines(st.out + st.pending);
        lemma_assembled_lines(st.out + st.pending, t);
    } else {
        let (name, by) = section_of_pass(n);
        lemma_section_permutes(name, by, ls, len);
        let st = section_run(name, by, ls, len);
        let items = st.out + st.prefix + st.entries + st.current;
        lemma_tally_concat(st.out + st.prefix + st.entries, st.current);
        lemma_tally_concat(st.out + st.prefix, st.entries);
        lemma_tally_concat(st.out, st.prefix);
        lemma_tally_lines(st.current);
        lemma_assembled_lines(items, t);
    }
}

/// Lines among plain lines are plain.
proof fn lemma_plain_part(xs: Seq<Seq<char>>, ls: Seq<Seq<char>>)
    requires
        are_plain_lines(ls),
        same_but_blank(bag(xs), bag(ls)),
    ensures
        are_plain_lines(xs),
{
    broadcast use vstd::seq_lib::group_to_multiset_ensures;

    assert forall|i: int| 0 <= i < xs.len() implies is_plain_line(#[trigger] xs[i]) by {
        assert(xs.contains(xs[i]));
        assert(bag(xs).count(xs[i]) > 0);
        assert(bag(xs).count(xs[i]) <= bag(ls).count(xs[i]));
        assert(ls.contains(xs[i]));
        let k = choose|k: int| 0 <= k < ls.len() && ls[k] == xs[i];
        assert(is_plain_line(ls[k]));
    }
}

proof fn lemma_permuted_on(
    a: Multiset<Seq<char>>,
    b: Multiset<Seq<char>>,
    c: Multiset<Seq<char>>,
)
    requires
        same_but_blank(a, b),
        same_but_blank(b, c),
    ensures
        same_but_blank(a, c),
{
    assert forall|l: Seq<char>| #[trigger]
        a.count(l) <= c.count(l) && (!is_blank(l) ==> a.count(l) == c.count(l)) by {
        assert(a.count(l) <= b.count(l) && b.count(l) <= c.count(l));
    }
}

proof fn lemma_all_permute(main: Seq<char>, s: Seq<char>, n: int)
    requires
        are_plain_lines(lines_of(s)),
        0 <= n <= 12,
        dropped_until(main, s, n) == 0,
    ensures
        same_but_blank(bag(lines_of(sort_text(main, s, n))), bag(lines_of(s))),
        are_plain_lines(lines_of(sort_text(main, s, n))),
    decreases n,
{
    if n > 0 {
        lemma_all_permute(main, s, n - 1);
        let t = sort_text(main, s, n - 1);
        lemma_pass_permutes(main, t, n);
        lemma_permuted_on(
            bag(lines_of(sort_text(main, s, n))),
            bag(lines_of(t)),
            bag(lines_of(s)),
        );
    }
}

/// A pass leaves a text well-shaped, and its blank lines void.
proof fn lemma_pass_blanks(main: Seq<char>, t: Seq<char>, n: int)
    requires
        is_well_shaped(lines_of(t)),
        blanks_are_void(lines_of(t)),
        1 <= n <= 12,
    ensures
        is_well_shaped(lines_of(sort_pass(main, t, n).0)),
        blanks_are_void(lines_of(sort_pass(main, t, n).0)),
{
    let ls = lines_of(t);
    lemma_pass_text(main, t, n);
    let may = |sh: Shape, line: Seq<char>| is_void_if_blank(sh, line);
    assert forall|k: int| 0 <= k < ls.len() implies may(shape_at(ls, k), #[trigger] ls[k]) by {
    }
    lemma_pass_stand(may, main, ls, n);
    let out = pass_lines(main, ls, n);
    assert forall|k: int| 0 <= k < out.len() implies is_void_if_blank(
        shape_at(out, k),
        #[trigger] out[k],
    ) by {
        assert(may(shape_at(out, k), out[k]));
    }
}

pub proof fn lemma_passes_permute(main: Seq<char>, s: Seq<char>, n: int)
    requires
        is_well_shaped(lines_of(s)),
        blanks_are_void(lines_of(s)),
        0 <= n <= 12,
        dropped_until(main, s, n) == 0,
    ensures
        same_but_blank(bag(lines_of(sort_text(main, s, n))), bag(lines_of(s))),
        is_well_shaped(lines_of(sort_text(main, s, n))),
        blanks_are_void(lines_of(sort_text(main, s, n))),
    decreases n,
{
    lemma_all_permute(main, s, n);
    if n > 0 {
        lemma_passes_permute(main, s, n - 1);
        lemma_pass_blanks(main, sort_text(main, s, n - 1), n);
    }
}

/// Sorting only moves lines, where there is no duplicate to drop: the sorted text
/// has the same lines, each as often as before, but for blank ones.
pub proof fn law_sorting_permutes_lines(s: Seq<char>, sort_main_group: bool)
    requires
        are_plain_lines(lines_of(s)),
        dropped_until(unsorted_group(s, sort_main_group), s, 12) == 0,
    ensures
        same_but_blank(
            lines_of(sorted_text(s, sort_main_group)).to_multiset(),
            lines_of(s).to_multiset(),
        ),
{
    lemma_all_permute(unsorted_group(s, sort_main_group), s, 12);
}

} // verus!
