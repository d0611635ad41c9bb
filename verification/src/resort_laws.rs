//! Sorting again changes nothing.

use crate::order::{law_sort_idempotent, lemma_insert_position, sort_by};
use crate::pattern::{decl_uuid, line_section};
use crate::sorter::{
    assemble, belongs_to, comment_key, entry_key, follows_uuid, indent_width, is_main_list,
    line_end, line_run, line_sections_sorted, line_step, list_end, list_key, list_run, list_step,
    lists_sorted, opens, LineState, ListKind, ListState,
};
use crate::text::{
    indent, is_blank, is_plain_line, are_plain_lines, joined, lemma_indent_bound,
    lemma_joined_is_unlines, lemma_line_len, lemma_line_len_bound, lemma_unlines_front, line_len,
    lines_of, trimmed, trimmed_end, trimmed_start, unlines,
};
use vstd::prelude::*;

verus! {

// ── Lines of assembled texts ─────────────────────────────────────────────────

/// Lines written one after the other, and a text behind them.
proof fn lemma_lines_of_then(ls: Seq<Seq<char>>, t: Seq<char>)
    requires
        are_plain_lines(ls),
    ensures
        lines_of(unlines(ls) + t) == ls + lines_of(t),
    decreases ls.len(),
{
    if ls.len() == 0 {
        assert(unlines(ls) + t =~= t);
        assert(ls + lines_of(t) =~= lines_of(t));
    } else {
        let l = ls[0];
        let rest = ls.drop_first();
        assert(is_plain_line(l));
        assert forall|i: int| 0 <= i < rest.len() implies is_plain_line(#[trigger] rest[i]) by {
            assert(is_plain_line(ls[i + 1]));
        }
        lemma_lines_of_then(rest, t);
        assert(seq![l] + rest =~= ls);
        lemma_unlines_front(l, rest);
        let s = unlines(ls) + t;
        assert(s =~= l.push('\n') + (unlines(rest) + t));
        lemma_line_len(s, l.len() as int);
        assert(s.take(l.len() as int) =~= l);
        assert(s.skip(l.len() as int + 1) =~= unlines(rest) + t);
        assert(lines_of(s) =~= ls + lines_of(t));
    }
}

/// Lines that can be read back from the text that they are put together to,
/// with a line feed at its end or not.
pub open spec fn readable(ls: Seq<Seq<char>>, ends: bool) -> bool {
    &&& ends ==> ls.len() > 0
    &&& forall|i: int|
        0 <= i < ls.len() ==> {
            &&& !(#[trigger] ls[i]).contains('\n')
            &&& (ends || i + 1 < ls.len()) ==> is_plain_line(ls[i])
            &&& !ends && i + 1 == ls.len() ==> ls[i].len() > 0
        }
}

/// The text ends with a line feed.
pub open spec fn ends_line(s: Seq<char>) -> bool {
    s.len() > 0 && s.last() == '\n'
}

pub proof fn lemma_assembled(out: Seq<Seq<char>>, s: Seq<char>)
    requires
        readable(out, ends_line(s)),
    ensures
        lines_of(assemble(out, s)) == out,
        ends_line(assemble(out, s)) == ends_line(s),
{
    let t = assemble(out, s);
    if out.len() > 0 {
        lemma_joined_is_unlines(out);
        let last = out.last();
        assert(out[out.len() - 1] == last);
        if ends_line(s) {
            assert(t =~= unlines(out) + Seq::<char>::empty());
            assert(are_plain_lines(out));
            lemma_lines_of_then(out, Seq::empty());
            assert(lines_of(Seq::<char>::empty()) =~= Seq::empty());
            assert(out + Seq::<Seq<char>>::empty() =~= out);
        } else {
            let head = out.drop_last();
            assert(joined(out).push('\n') =~= unlines(head) + last.push('\n'));
            assert((unlines(head) + last).push('\n') =~= unlines(head) + last.push('\n'));
            assert(joined(out) =~= joined(out).push('\n').drop_last());
            assert((unlines(head) + last) =~= (unlines(head) + last.push('\n')).drop_last());
            assert(t =~= unlines(head) + last);
            assert(are_plain_lines(head)) by {
                assert forall|i: int| 0 <= i < head.len() implies is_plain_line(
                    #[trigger] head[i],
                ) by {
                    assert(head[i] == out[i]);
                }
            }
            lemma_lines_of_then(head, last);
            assert forall|i: int| 0 <= i < last.len() implies last[i] != '\n' by {
                assert(last.contains(last[i]));
            }
            lemma_line_len(last, last.len() as int);
            assert(lines_of(last) =~= seq![last]);
            assert(head + seq![last] =~= out);
            assert(t.last() == last.last());
            assert(last.contains(last.last()));
        }
    } else {
        assert(t =~= Seq::empty());
        assert(lines_of(t) =~= out);
    }
}

/// Putting lines together again that were read from the result.
pub proof fn lemma_reassembled(out: Seq<Seq<char>>, s: Seq<char>)
    requires
        readable(out, ends_line(s)),
    ensures
        assemble(out, assemble(out, s)) == assemble(out, s),
{
    lemma_assembled(out, s);
}

// ── Sorted entries ───────────────────────────────────────────────────────────

/// What holds of all items, and that they differ, holds when they are sorted.
#[verifier::rlimit(30)]
pub proof fn lemma_sort_keeps<T>(
    items: Seq<T>,
    key: spec_fn(T) -> Seq<char>,
    holds: spec_fn(T) -> bool,
    id: spec_fn(T) -> Option<Seq<char>>,
)
    requires
        forall|i: int| 0 <= i < items.len() ==> holds(#[trigger] items[i]),
        forall|i: int, j: int|
            0 <= i < j < items.len() ==> id(#[trigger] items[i]) != id(#[trigger] items[j]),
    ensures
        sort_by(items, key).len() == items.len(),
        forall|i: int| 0 <= i < items.len() ==> holds(#[trigger] sort_by(items, key)[i]),
        forall|i: int, j: int|
            0 <= i < j < items.len() ==> id(#[trigger] sort_by(items, key)[i]) != id(
                #[trigger] sort_by(items, key)[j],
            ),
    decreases items.len(),
{
    if items.len() > 0 {
        let rest = items.drop_last();
        let x = items.last();
        let also = |t: T| holds(t) && id(t) != id(x);
        assert forall|i: int| 0 <= i < rest.len() implies also(#[trigger] rest[i]) by {
            assert(holds(items[i]) && id(items[i]) != id(items[items.len() - 1]));
        }
        assert forall|i: int, j: int| 0 <= i < j < rest.len() implies id(#[trigger] rest[i]) != id(
            #[trigger] rest[j],
        ) by {
            assert(rest[i] == items[i] && rest[j] == items[j]);
        }
        lemma_sort_keeps(rest, key, also, id);
        let sorted = sort_by(rest, key);
        let p = lemma_insert_position(sorted, x, key);
        let all = sort_by(items, key);
        assert(all == sorted.insert(p, x));
        assert(holds(x)) by {
            assert(holds(items[items.len() - 1]));
        }
        assert forall|i: int| 0 <= i < items.len() implies holds(#[trigger] all[i]) by {
            if i < p {
                assert(all[i] == sorted[i] && also(sorted[i]));
            } else if i > p {
                assert(all[i] == sorted[i - 1] && also(sorted[i - 1]));
            }
        }
        assert forall|i: int, j: int| 0 <= i < j < items.len() implies id(#[trigger] all[i]) != id(
            #[trigger] all[j],
        ) by {
            let a = if i < p { i } else { i - 1 };
            let b = if j < p { j } else { j - 1 };
            if i != p {
                assert(all[i] == sorted[a] && also(sorted[a]));
            }
            if j != p {
                assert(all[j] == sorted[b] && also(sorted[b]));
            }
            if i != p && j != p {
                assert(id(sorted[a]) != id(sorted[b]));
            }
        }
    }
}

/// What holds of all items holds when they are sorted.
pub proof fn lemma_sort_all<T>(
    items: Seq<T>,
    key: spec_fn(T) -> Seq<char>,
    holds: spec_fn(T) -> bool,
)
    requires
        forall|i: int| 0 <= i < items.len() ==> holds(#[trigger] items[i]),
    ensures
        sort_by(items, key).len() == items.len(),
        forall|i: int| 0 <= i < items.len() ==> holds(#[trigger] sort_by(items, key)[i]),
    decreases items.len(),
{
    if items.len() > 0 {
        let rest = items.drop_last();
        let x = items.last();
        assert forall|i: int| 0 <= i < rest.len() implies holds(#[trigger] rest[i]) by {
            assert(rest[i] == items[i]);
        }
        lemma_sort_all(rest, key, holds);
        let sorted = sort_by(rest, key);
        let p = lemma_insert_position(sorted, x, key);
        assert(holds(items[items.len() - 1]));
        assert forall|i: int| 0 <= i < items.len() implies holds(
            #[trigger] sort_by(items, key)[i],
        ) by {
            if i < p {
                assert(sort_by(items, key)[i] == sorted[i]);
            } else if i > p {
                assert(sort_by(items, key)[i] == sorted[i - 1]);
            }
        }
    }
}

/// The keys of the first `n` entries.
spec fn keys_of(ls: Seq<Seq<char>>, n: int) -> Set<Seq<char>>
    decreases n,
{
    if n <= 0 {
        Set::empty()
    } else {
        keys_of(ls, n - 1).insert(entry_key(ls[n - 1])->Some_0)
    }
}

/// Lines that are entries, each with another UUID.
pub open spec fn are_entries(ls: Seq<Seq<char>>) -> bool {
    &&& forall|i: int| 0 <= i < ls.len() ==> entry_key(#[trigger] ls[i]) is Some
    &&& forall|i: int, j: int|
        0 <= i < j < ls.len() ==> entry_key(#[trigger] ls[i]) != entry_key(#[trigger] ls[j])
}

proof fn lemma_key_is_new(ls: Seq<Seq<char>>, n: int, m: int)
    requires
        are_entries(ls),
        0 <= n <= m < ls.len(),
    ensures
        !keys_of(ls, n).contains(entry_key(ls[m])->Some_0),
    decreases n,
{
    if n > 0 {
        lemma_key_is_new(ls, n - 1, m);
        assert(entry_key(ls[n - 1]) != entry_key(ls[m]));
        assert(entry_key(ls[n - 1]) is Some && entry_key(ls[m]) is Some);
    }
}

// ── Lists ────────────────────────────────────────────────────────────────────

/// The line closes a list whose first line has the indentation `n`.
pub open spec fn closes(line: Seq<char>, n: nat) -> bool {
    ");"@.is_prefix_of(trimmed(line)) && indent_width(line) == n
}

/// No entry of a list declares an object.  It matters only where the list of the
/// main group is looked for.
pub open spec fn entries_declare_nothing(
    kind: ListKind,
    main: Seq<char>,
    lines: Seq<Seq<char>>,
) -> bool {
    kind == ListKind::Children && main.len() > 0 ==> forall|i: int|
        0 <= i < lines.len() && list_run(kind, main, lines, i).in_list && entry_key(
            #[trigger] lines[i],
        ) is Some ==> decl_uuid(lines[i]) is None
}

/// What holds of the entries of the list being read.
pub open spec fn pending_ok(kind: ListKind, main: Seq<char>, st: ListState) -> bool {
    &&& are_entries(st.pending)
    &&& st.pending.len() > 0 ==> st.in_list
    &&& forall|i: int|
        0 <= i < st.pending.len() ==> {
            &&& !closes(#[trigger] st.pending[i], st.indent)
            &&& st.seen.contains(entry_key(st.pending[i])->Some_0)
            &&& kind == ListKind::Children && main.len() > 0 ==> decl_uuid(st.pending[i]) is None
        }
}

pub proof fn lemma_pending_ok(kind: ListKind, main: Seq<char>, lines: Seq<Seq<char>>, n: int)
    requires
        0 <= n <= lines.len(),
        entries_declare_nothing(kind, main, lines),
    ensures
        pending_ok(kind, main, list_run(kind, main, lines, n)),
    decreases n,
{
    if n > 0 {
        lemma_pending_ok(kind, main, lines, n - 1);
        let st = list_run(kind, main, lines, n - 1);
        let after = list_run(kind, main, lines, n);
        let line = lines[n - 1];
        if st.in_list && !closes(line, st.indent) && entry_key(line) is Some
            && !st.seen.contains(entry_key(line)->Some_0) {
            assert forall|i: int| 0 <= i < after.pending.len() implies {
                &&& entry_key(#[trigger] after.pending[i]) is Some
                &&& !closes(after.pending[i], after.indent)
                &&& after.seen.contains(entry_key(after.pending[i])->Some_0)
                &&& kind == ListKind::Children && main.len() > 0 ==> decl_uuid(
                    after.pending[i],
                ) is None
            } by {
                if i < st.pending.len() {
                    assert(after.pending[i] == st.pending[i]);
                }
            }
            assert forall|i: int, j: int| 0 <= i < j < after.pending.len() implies entry_key(
                #[trigger] after.pending[i],
            ) != entry_key(#[trigger] after.pending[j]) by {
                assert(after.pending[i] == st.pending[i]);
                if j < st.pending.len() {
                    assert(after.pending[j] == st.pending[j]);
                }
            }
        }
    }
}

/// What a pass has put out stays.
pub proof fn lemma_list_out_grows(
    kind: ListKind,
    main: Seq<char>,
    lines: Seq<Seq<char>>,
    n: int,
    m: int,
)
    requires
        0 <= n <= m,
    ensures
        list_run(kind, main, lines, n).out.is_prefix_of(list_run(kind, main, lines, m).out),
    decreases m,
{
    if n < m {
        lemma_list_out_grows(kind, main, lines, n, m - 1);
    }
}

proof fn lemma_blank_declares_nothing(line: Seq<char>)
    requires
        is_blank(line),
    ensures
        decl_uuid(line) is None,
{
    lemma_indent_bound(line);
    let rest = trimmed_start(line);
    if rest.len() > 0 {
        lemma_not_blank(rest);
    }
}

/// A text that does not begin with white space has something left when its end
/// is trimmed.
proof fn lemma_not_blank(s: Seq<char>)
    requires
        s.len() > 0,
        !crate::text::is_white(s[0]),
    ensures
        trimmed_end(s).len() > 0,
    decreases s.len(),
{
    if crate::text::is_white(s.last()) {
        assert(s.drop_last()[0] == s[0]);
        lemma_not_blank(s.drop_last());
    }
}

proof fn lemma_closing_not_blank(line: Seq<char>, n: nat)
    requires
        closes(line, n),
    ensures
        !is_blank(line),
{
    reveal_strlit(");");
}

/// The last line before a list that is not blank is the same in the result.
proof fn lemma_follows_alike(
    kind: ListKind,
    main: Seq<char>,
    lines: Seq<Seq<char>>,
    n: int,
    again: Seq<Seq<char>>,
)
    requires
        0 <= n <= lines.len(),
        !list_run(kind, main, lines, n).in_list,
        list_run(kind, main, lines, n).out.is_prefix_of(again),
    ensures
        follows_uuid(again, list_run(kind, main, lines, n).out.len() as int, main) == follows_uuid(
            lines,
            n,
            main,
        ),
    decreases n,
{
    if n > 0 {
        let st = list_run(kind, main, lines, n - 1);
        let after = list_run(kind, main, lines, n);
        let line = lines[n - 1];
        assert(after.out.last() == line);
        assert(again[after.out.len() - 1] == line);
        if st.in_list {
            lemma_closing_not_blank(line, st.indent);
        } else {
            assert(after.out.drop_last() =~= st.out);
            assert(st.out.is_prefix_of(again));
            lemma_follows_alike(kind, main, lines, n - 1, again);
        }
    }
}

/// Lines that declare nothing do not change which object a line belongs to.
proof fn lemma_belongs_over(lines: Seq<Seq<char>>, from: int, to: int, main: Seq<char>)
    requires
        0 <= from <= to,
        forall|i: int| from <= i < to ==> decl_uuid(#[trigger] lines[i]) is None,
    ensures
        belongs_to(lines, to, main) == belongs_to(lines, from, main),
    decreases to,
{
    if from < to {
        lemma_belongs_over(lines, from, to - 1, main);
    }
}

#[verifier::rlimit(30)]
proof fn lemma_belongs_alike(
    kind: ListKind,
    main: Seq<char>,
    lines: Seq<Seq<char>>,
    n: int,
    again: Seq<Seq<char>>,
)
    requires
        0 <= n <= lines.len(),
        kind == ListKind::Children && main.len() > 0,
        entries_declare_nothing(kind, main, lines),
        list_run(kind, main, lines, n).out.is_prefix_of(again),
    ensures
        belongs_to(again, list_run(kind, main, lines, n).out.len() as int, main) == belongs_to(
            lines,
            n,
            main,
        ),
    decreases n,
{
    if n > 0 {
        let st = list_run(kind, main, lines, n - 1);
        let after = list_run(kind, main, lines, n);
        let line = lines[n - 1];
        let a = st.out.len() as int;
        lemma_list_out_grows(kind, main, lines, n - 1, n);
        assert(st.out.is_prefix_of(again)) by {
            assert forall|i: int| 0 <= i < st.out.len() implies st.out[i] == again[i] by {
                assert(st.out[i] == after.out[i]);
            }
        }
        lemma_belongs_alike(kind, main, lines, n - 1, again);
        if st.in_list && closes(line, st.indent) {
            lemma_pending_ok(kind, main, lines, n - 1);
            let entries = lemma_entries_of(kind, main, st);
            assert(after.out =~= (st.out + entries).push(line));
            let b = a + entries.len();
            assert forall|i: int| a <= i < b implies decl_uuid(#[trigger] again[i]) is None by {
                assert(again[i] == after.out[i]);
                assert(after.out[i] == entries[i - a]);
            }
            lemma_belongs_over(again, a, b, main);
            assert(again[b] == after.out[b] && after.out[b] == line);
            assert(belongs_to(again, b + 1, main) == belongs_to(lines, n, main));
        } else if st.in_list && entry_key(line) is Some {
            assert(decl_uuid(lines[n - 1]) is None);
        } else if st.in_list && is_blank(line) {
            lemma_blank_declares_nothing(line);
        } else {
            assert(after.out =~= st.out.push(line));
            assert(again[a] == after.out[a]);
        }
    }
}

/// The entries of a list as they are put out.
proof fn lemma_entries_of(kind: ListKind, main: Seq<char>, st: ListState) -> (entries: Seq<
    Seq<char>,
>)
    requires
        pending_ok(kind, main, st),
    ensures
        entries == if st.sorts && st.pending.len() > 0 {
            sort_by(st.pending, |l: Seq<char>| list_key(kind, l))
        } else {
            st.pending
        },
        entries.len() == st.pending.len(),
        are_entries(entries),
        forall|i: int|
            0 <= i < entries.len() ==> {
                &&& !closes(#[trigger] entries[i], st.indent)
                &&& kind == ListKind::Children && main.len() > 0 ==> decl_uuid(entries[i]) is None
            },
{
    let key = |l: Seq<char>| list_key(kind, l);
    if st.sorts && st.pending.len() > 0 {
        let entries = sort_by(st.pending, key);
        let holds = |l: Seq<char>|
            {
                &&& entry_key(l) is Some
                &&& !closes(l, st.indent)
                &&& kind == ListKind::Children && main.len() > 0 ==> decl_uuid(l) is None
            };
        let id = |l: Seq<char>| entry_key(l);
        assert forall|i: int| 0 <= i < st.pending.len() implies holds(#[trigger] st.pending[i]) by {
        }
        lemma_sort_keeps(st.pending, key, holds, id);
        assert forall|i: int| 0 <= i < entries.len() implies {
            &&& entry_key(#[trigger] entries[i]) is Some
            &&& !closes(entries[i], st.indent)
            &&& kind == ListKind::Children && main.len() > 0 ==> decl_uuid(entries[i]) is None
        } by {
            assert(holds(entries[i]));
        }
        assert forall|i: int, j: int| 0 <= i < j < entries.len() implies entry_key(
            #[trigger] entries[i],
        ) != entry_key(#[trigger] entries[j]) by {
            assert(id(entries[i]) != id(entries[j]));
        }
        entries
    } else {
        st.pending
    }
}

/// Reading the entries of a list once more.
proof fn lemma_read_entries(
    kind: ListKind,
    main: Seq<char>,
    again: Seq<Seq<char>>,
    from: int,
    entries: Seq<Seq<char>>,
    n: int,
)
    requires
        0 <= from,
        0 <= n <= entries.len(),
        from + entries.len() <= again.len(),
        are_entries(entries),
        forall|i: int| 0 <= i < entries.len() ==> again[from + i] == #[trigger] entries[i],
        forall|i: int|
            0 <= i < entries.len() ==> !closes(
                #[trigger] entries[i],
                list_run(kind, main, again, from).indent,
            ),
        list_run(kind, main, again, from).in_list,
        list_run(kind, main, again, from).pending.len() == 0,
        list_run(kind, main, again, from).seen == Set::<Seq<char>>::empty(),
    ensures
        ({
            let st = list_run(kind, main, again, from);
            let after = list_run(kind, main, again, from + n);
            &&& after.in_list
            &&& after.indent == st.indent
            &&& after.sorts == st.sorts
            &&& after.out == st.out
            &&& after.pending == entries.take(n)
            &&& after.seen == keys_of(entries, n)
        }),
    decreases n,
{
    let st = list_run(kind, main, again, from);
    if n == 0 {
        assert(st.pending =~= entries.take(0));
    } else {
        lemma_read_entries(kind, main, again, from, entries, n - 1);
        let line = entries[n - 1];
        assert(again[from + (n - 1)] == line);
        lemma_key_is_new(entries, n - 1, n - 1);
        assert(entries.take(n) =~= entries.take(n - 1).push(line));
    }
}

/// What is read of the result, up to what was put out for the first `n` lines.
#[verifier::rlimit(30)]
proof fn lemma_list_again(
    kind: ListKind,
    main: Seq<char>,
    lines: Seq<Seq<char>>,
    n: int,
    again: Seq<Seq<char>>,
)
    requires
        0 <= n <= lines.len(),
        entries_declare_nothing(kind, main, lines),
        list_run(kind, main, lines, n).out.is_prefix_of(again),
    ensures
        ({
            let st = list_run(kind, main, lines, n);
            let st2 = list_run(kind, main, again, st.out.len() as int);
            &&& st2.in_list == st.in_list
            &&& st2.out == st.out
            &&& st2.pending.len() == 0
            &&& st.in_list ==> {
                &&& st2.indent == st.indent
                &&& st2.sorts == st.sorts
                &&& st2.seen == Set::<Seq<char>>::empty()
            }
        }),
    decreases n,
{
    let after = list_run(kind, main, lines, n);
    if n > 0 {
        let st = list_run(kind, main, lines, n - 1);
        let line = lines[n - 1];
        let a = st.out.len() as int;
        lemma_list_out_grows(kind, main, lines, n - 1, n);
        assert(st.out.is_prefix_of(again)) by {
            assert forall|i: int| 0 <= i < st.out.len() implies st.out[i] == again[i] by {
                assert(st.out[i] == after.out[i]);
            }
        }
        lemma_list_again(kind, main, lines, n - 1, again);
        let st2 = list_run(kind, main, again, a);
        if !st.in_list {
            assert(again[a] == after.out[a]);
            assert(after.out == st.out.push(line));
            lemma_follows_alike(kind, main, lines, n - 1, again);
            if kind == ListKind::Children && main.len() > 0 {
                lemma_belongs_alike(kind, main, lines, n - 1, again);
            }
            assert(is_main_list(kind, main, again, a) == is_main_list(kind, main, lines, n - 1));
            assert(list_run(kind, main, again, a + 1) == list_step(kind, main, again, st2, a));
        } else if closes(line, st.indent) {
            lemma_pending_ok(kind, main, lines, n - 1);
            let entries = lemma_entries_of(kind, main, st);
            assert(after.out == (st.out + entries).push(line));
            let b = a + entries.len();
            assert forall|i: int| 0 <= i < entries.len() implies again[a + i]
                == #[trigger] entries[i] by {
                assert(again[a + i] == after.out[a + i]);
            }
            lemma_read_entries(kind, main, again, a, entries, entries.len() as int);
            let st3 = list_run(kind, main, again, b);
            assert(st3.pending =~= entries);
            assert(again[b] == after.out[b]);
            let key = |l: Seq<char>| list_key(kind, l);
            law_sort_idempotent(st.pending, key);
            assert(list_run(kind, main, again, b + 1) == list_step(kind, main, again, st3, b));
        } else if entry_key(line) is None && !is_blank(line) {
            assert(again[a] == after.out[a]);
            assert(list_run(kind, main, again, a + 1) == list_step(kind, main, again, st2, a));
        }
    }
}

/// The last line that is kept is not empty, unless it is the last one of all.
pub proof fn lemma_list_last(kind: ListKind, main: Seq<char>, lines: Seq<Seq<char>>, n: int)
    requires
        0 < n <= lines.len(),
    ensures
        ({
            let st = list_run(kind, main, lines, n);
            &&& st.out.len() > 0
            &&& st.in_list ==> !is_blank(st.out.last())
            &&& !st.in_list ==> st.out.last() == lines[n - 1]
        }),
    decreases n,
{
    let st = list_run(kind, main, lines, n - 1);
    let line = lines[n - 1];
    if n > 1 {
        lemma_list_last(kind, main, lines, n - 1);
    }
    if !st.in_list && opens(kind, line) {
        lemma_opening_not_blank(kind, line);
    }
}

proof fn lemma_opening_not_blank(kind: ListKind, line: Seq<char>)
    requires
        opens(kind, line),
    ensures
        !is_blank(line),
{
    reveal_strlit("files");
    reveal_strlit("children");
    lemma_indent_bound(line);
    lemma_not_blank(trimmed_start(line));
}

pub proof fn lemma_list_plain(kind: ListKind, main: Seq<char>, lines: Seq<Seq<char>>, n: int)
    requires
        0 <= n <= lines.len(),
        are_plain_lines(lines),
    ensures
        are_plain_lines(list_run(kind, main, lines, n).out),
        are_plain_lines(list_run(kind, main, lines, n).pending),
    decreases n,
{
    if n > 0 {
        lemma_list_plain(kind, main, lines, n - 1);
        let st = list_run(kind, main, lines, n - 1);
        assert(is_plain_line(lines[n - 1]));
        lemma_sort_all(
            st.pending,
            |l: Seq<char>| list_key(kind, l),
            |l: Seq<char>| is_plain_line(l),
        );
    }
}

/// The last line of a text that does not end with a line feed is not empty.
pub proof fn lemma_last_line(s: Seq<char>)
    ensures
        s.len() > 0 ==> lines_of(s).len() > 0,
        s.len() > 0 && s.last() != '\n' ==> lines_of(s).last().len() > 0,
    decreases s.len(),
{
    lemma_line_len_bound(s);
    let n = line_len(s) as int;
    if s.len() > 0 && n < s.len() {
        let rest = s.skip(n + 1);
        lemma_last_line(rest);
        if s.last() != '\n' {
            assert(rest.len() > 0 && rest.last() == s.last());
        }
    }
}

/// Plain lines, of which the last is not empty, can be read back.
pub proof fn lemma_readable(ls: Seq<Seq<char>>, s: Seq<char>)
    requires
        are_plain_lines(ls),
        s.len() > 0 ==> ls.len() > 0,
        s.len() > 0 && s.last() != '\n' ==> ls.last().len() > 0,
        s.len() == 0 ==> ls.len() == 0,
    ensures
        readable(ls, ends_line(s)),
{
    assert forall|i: int| 0 <= i < ls.len() implies {
        &&& !(#[trigger] ls[i]).contains('\n')
        &&& (ends_line(s) || i + 1 < ls.len()) ==> is_plain_line(ls[i])
        &&& !ends_line(s) && i + 1 == ls.len() ==> ls[i].len() > 0
    } by {
        assert(is_plain_line(ls[i]));
    }
}

/// Reading what sorting lists has put out puts out the same.
pub proof fn lemma_lists_read_again(kind: ListKind, main: Seq<char>, lines: Seq<Seq<char>>)
    requires
        entries_declare_nothing(kind, main, lines),
    ensures
        ({
            let st = list_run(kind, main, lines, lines.len() as int);
            let again = st.out + st.pending;
            let st2 = list_run(kind, main, again, again.len() as int);
            st2.out + st2.pending == again
        }),
{
    let n = lines.len() as int;
    let st = list_run(kind, main, lines, n);
    let again = st.out + st.pending;
    lemma_pending_ok(kind, main, lines, n);
    assert(st.out.is_prefix_of(again));
    lemma_list_again(kind, main, lines, n, again);
    let a = st.out.len() as int;
    if st.in_list {
        lemma_read_entries(kind, main, again, a, st.pending, st.pending.len() as int);
        assert(st.pending.take(st.pending.len() as int) =~= st.pending);
    } else {
        assert(st.pending =~= Seq::empty());
        assert(again =~= st.out);
    }
    let st2 = list_run(kind, main, again, again.len() as int);
    assert(st2.out + st2.pending =~= again);
}

/// What sorting lists puts out can be read back.
pub proof fn lemma_lists_readable(kind: ListKind, main: Seq<char>, s: Seq<char>)
    requires
        are_plain_lines(lines_of(s)),
        entries_declare_nothing(kind, main, lines_of(s)),
    ensures
        ({
            let st = list_end(kind, main, s);
            &&& are_plain_lines(st.out + st.pending)
            &&& readable(st.out + st.pending, ends_line(s))
        }),
{
    let lines = lines_of(s);
    let n = lines.len() as int;
    let st = list_run(kind, main, lines, n);
    let again = st.out + st.pending;
    lemma_last_line(s);
    lemma_list_plain(kind, main, lines, n);
    assert(are_plain_lines(again)) by {
        assert forall|i: int| 0 <= i < again.len() implies is_plain_line(#[trigger] again[i]) by {
            if i < st.out.len() {
                assert(again[i] == st.out[i]);
            } else {
                assert(again[i] == st.pending[i - st.out.len()]);
            }
        }
    }
    lemma_pending_ok(kind, main, lines, n);
    if n > 0 {
        lemma_list_last(kind, main, lines, n);
        if st.pending.len() > 0 {
            assert(entry_key(st.pending[st.pending.len() - 1]) is Some);
            assert(again.last() == st.pending.last());
        } else {
            assert(again =~= st.out);
        }
    }
    lemma_readable(again, s);
}

/// Sorting the lists of a text whose lists are sorted changes nothing, in a text
/// without stray carriage returns in which no entry of a list declares an
/// object.
pub proof fn law_lists_sorted_once(kind: ListKind, main: Seq<char>, s: Seq<char>)
    requires
        are_plain_lines(lines_of(s)),
        entries_declare_nothing(kind, main, lines_of(s)),
    ensures
        lists_sorted(kind, main, lists_sorted(kind, main, s)) == lists_sorted(kind, main, s),
{
    let st = list_end(kind, main, s);
    let again = st.out + st.pending;
    lemma_lists_readable(kind, main, s);
    lemma_assembled(again, s);
    lemma_reassembled(again, s);
    lemma_lists_read_again(kind, main, lines_of(s));
}

// ── Sections with one entry per line ─────────────────────────────────────────

/// What holds of the entries of the section being read.
pub open spec fn section_ok(st: LineState) -> bool {
    &&& are_entries(st.pending)
    &&& st.pending.len() > 0 ==> st.section is Some
    &&& forall|i: int|
        0 <= i < st.pending.len() ==> {
            &&& line_section(#[trigger] st.pending[i], "/* End "@) != st.section
            &&& st.seen.contains(entry_key(st.pending[i])->Some_0)
            &&& is_plain_line(st.pending[i])
        }
}

#[verifier::rlimit(30)]
pub proof fn lemma_section_ok(lines: Seq<Seq<char>>, n: int)
    requires
        0 <= n <= lines.len(),
        are_plain_lines(lines),
    ensures
        section_ok(line_run(lines, n)),
        are_plain_lines(line_run(lines, n).out),
        n > 0 ==> {
            let st = line_run(lines, n);
            &&& st.out.len() > 0
            &&& st.section is Some ==> st.out.last().len() > 0
            &&& st.section is None ==> st.out.last() == lines[n - 1]
        },
    decreases n,
{
    if n > 0 {
        lemma_section_ok(lines, n - 1);
        let st = line_run(lines, n - 1);
        let after = line_run(lines, n);
        let line = lines[n - 1];
        assert(is_plain_line(line));
        if st.section is None {
            lemma_begin_not_empty(line);
        } else if line_section(line, "/* End "@) == st.section {
            lemma_line_entries(st);
        } else if entry_key(line) is Some && !st.seen.contains(entry_key(line)->Some_0) {
            assert forall|i: int| 0 <= i < after.pending.len() implies {
                &&& entry_key(#[trigger] after.pending[i]) is Some
                &&& line_section(after.pending[i], "/* End "@) != after.section
                &&& after.seen.contains(entry_key(after.pending[i])->Some_0)
                &&& is_plain_line(after.pending[i])
            } by {
                if i < st.pending.len() {
                    assert(after.pending[i] == st.pending[i]);
                }
            }
            assert forall|i: int, j: int| 0 <= i < j < after.pending.len() implies entry_key(
                #[trigger] after.pending[i],
            ) != entry_key(#[trigger] after.pending[j]) by {
                assert(after.pending[i] == st.pending[i]);
                if j < st.pending.len() {
                    assert(after.pending[j] == st.pending[j]);
                }
            }
        } else if entry_key(line) is None && !is_blank(line) {
            assert(line.len() > 0) by {
                if line.len() == 0 {
                    lemma_indent_bound(line);
                    assert(trimmed_start(line).len() == 0);
                }
            }
        }
    }
}

proof fn lemma_begin_not_empty(line: Seq<char>)
    ensures
        line_section(line, "/* Begin "@) is Some ==> line.len() > 0,
{
    reveal_strlit("/* Begin ");
    let f = |i: int|
        if crate::text::occurs_at(line, "/* Begin "@ + "PBXBuildFile section */"@, i) {
            Some("PBXBuildFile"@)
        } else if crate::text::occurs_at(line, "/* Begin "@ + "PBXFileReference section */"@, i) {
            Some("PBXFileReference"@)
        } else {
            None
        };
    if line.len() == 0 {
        assert(f(0) is None);
        assert(crate::pattern::first_from(line, 1, f) is None);
        assert(crate::pattern::first_from(line, 0, f) is None);
    }
}

/// The entries of a section as they are put out.
proof fn lemma_line_entries(st: LineState) -> (entries: Seq<Seq<char>>)
    requires
        section_ok(st),
    ensures
        entries == sort_by(st.pending, |l: Seq<char>| comment_key(l)),
        entries.len() == st.pending.len(),
        are_entries(entries),
        are_plain_lines(entries),
        forall|i: int|
            0 <= i < entries.len() ==> line_section(#[trigger] entries[i], "/* End "@)
                != st.section,
{
    let key = |l: Seq<char>| comment_key(l);
    let entries = sort_by(st.pending, key);
    let holds = |l: Seq<char>|
        {
            &&& entry_key(l) is Some
            &&& line_section(l, "/* End "@) != st.section
            &&& is_plain_line(l)
        };
    let id = |l: Seq<char>| entry_key(l);
    assert forall|i: int| 0 <= i < st.pending.len() implies holds(#[trigger] st.pending[i]) by {
    }
    lemma_sort_keeps(st.pending, key, holds, id);
    assert forall|i: int| 0 <= i < entries.len() implies {
        &&& entry_key(#[trigger] entries[i]) is Some
        &&& line_section(entries[i], "/* End "@) != st.section
        &&& is_plain_line(entries[i])
    } by {
        assert(holds(entries[i]));
    }
    assert forall|i: int, j: int| 0 <= i < j < entries.len() implies entry_key(
        #[trigger] entries[i],
    ) != entry_key(#[trigger] entries[j]) by {
        assert(id(entries[i]) != id(entries[j]));
    }
    entries
}

/// Reading the entries of a section once more.
proof fn lemma_read_lines(again: Seq<Seq<char>>, from: int, entries: Seq<Seq<char>>, n: int)
    requires
        0 <= from,
        0 <= n <= entries.len(),
        from + entries.len() <= again.len(),
        are_entries(entries),
        forall|i: int| 0 <= i < entries.len() ==> again[from + i] == #[trigger] entries[i],
        forall|i: int|
            0 <= i < entries.len() ==> line_section(#[trigger] entries[i], "/* End "@)
                != line_run(again, from).section,
        line_run(again, from).section is Some,
        line_run(again, from).pending.len() == 0,
        line_run(again, from).seen == Set::<Seq<char>>::empty(),
    ensures
        ({
            let st = line_run(again, from);
            let after = line_run(again, from + n);
            &&& after.section == st.section
            &&& after.out == st.out
            &&& after.pending == entries.take(n)
            &&& after.seen == keys_of(entries, n)
        }),
    decreases n,
{
    let st = line_run(again, from);
    if n == 0 {
        assert(st.pending =~= entries.take(0));
    } else {
        lemma_read_lines(again, from, entries, n - 1);
        let line = entries[n - 1];
        assert(again[from + (n - 1)] == line);
        lemma_key_is_new(entries, n - 1, n - 1);
        assert(entries.take(n) =~= entries.take(n - 1).push(line));
    }
}

/// What is read of the result, up to what was put out for the first `n` lines.
#[verifier::rlimit(30)]
proof fn lemma_lines_again(lines: Seq<Seq<char>>, n: int, again: Seq<Seq<char>>)
    requires
        0 <= n <= lines.len(),
        are_plain_lines(lines),
        line_run(lines, n).out.is_prefix_of(again),
    ensures
        ({
            let st = line_run(lines, n);
            let st2 = line_run(again, st.out.len() as int);
            &&& st2.section == st.section
            &&& st2.out == st.out
            &&& st2.pending.len() == 0
            &&& st.section is Some ==> st2.seen == Set::<Seq<char>>::empty()
        }),
    decreases n,
{
    if n > 0 {
        let st = line_run(lines, n - 1);
        let after = line_run(lines, n);
        let line = lines[n - 1];
        let a = st.out.len() as int;
        lemma_section_ok(lines, n - 1);
        assert(st.out.is_prefix_of(after.out));
        assert(st.out.is_prefix_of(again)) by {
            assert forall|i: int| 0 <= i < st.out.len() implies st.out[i] == again[i] by {
                assert(st.out[i] == after.out[i]);
            }
        }
        lemma_lines_again(lines, n - 1, again);
        let st2 = line_run(again, a);
        if st.section is None {
            assert(again[a] == after.out[a]);
            assert(after.out == st.out.push(line));
            assert(line_run(again, a + 1) == line_step(st2, line));
        } else if line_section(line, "/* End "@) == st.section {
            let entries = lemma_line_entries(st);
            assert(after.out == (st.out + entries).push(line));
            let b = a + entries.len();
            assert forall|i: int| 0 <= i < entries.len() implies again[a + i]
                == #[trigger] entries[i] by {
                assert(again[a + i] == after.out[a + i]);
            }
            lemma_read_lines(again, a, entries, entries.len() as int);
            let st3 = line_run(again, b);
            assert(st3.pending =~= entries);
            assert(again[b] == after.out[b]);
            law_sort_idempotent(st.pending, |l: Seq<char>| comment_key(l));
            assert(line_run(again, b + 1) == line_step(st3, line));
        } else if entry_key(line) is None && !is_blank(line) {
            assert(again[a] == after.out[a]);
            assert(line_run(again, a + 1) == line_step(st2, line));
        }
    }
}

/// Reading what sorting these sections has put out puts out the same.
pub proof fn lemma_lines_read_again(lines: Seq<Seq<char>>)
    requires
        are_plain_lines(lines),
    ensures
        ({
            let st = line_run(lines, lines.len() as int);
            let again = st.out + st.pending;
            let st2 = line_run(again, again.len() as int);
            st2.out + st2.pending == again
        }),
{
    let n = lines.len() as int;
    let st = line_run(lines, n);
    let again = st.out + st.pending;
    lemma_section_ok(lines, n);
    assert(st.out.is_prefix_of(again));
    lemma_lines_again(lines, n, again);
    let a = st.out.len() as int;
    if st.section is Some {
        lemma_read_lines(again, a, st.pending, st.pending.len() as int);
        assert(st.pending.take(st.pending.len() as int) =~= st.pending);
    } else {
        assert(st.pending =~= Seq::empty());
        assert(again =~= st.out);
    }
    let st2 = line_run(again, again.len() as int);
    assert(st2.out + st2.pending =~= again);
}

/// What sorting these sections puts out can be read back.
pub proof fn lemma_lines_readable(s: Seq<char>)
    requires
        are_plain_lines(lines_of(s)),
    ensures
        are_plain_lines(line_end(s).out + line_end(s).pending),
        readable(line_end(s).out + line_end(s).pending, ends_line(s)),
{
    let lines = lines_of(s);
    let n = lines.len() as int;
    let st = line_run(lines, n);
    let again = st.out + st.pending;
    lemma_last_line(s);
    lemma_section_ok(lines, n);
    assert(are_plain_lines(again)) by {
        assert forall|i: int| 0 <= i < again.len() implies is_plain_line(#[trigger] again[i]) by {
            if i < st.out.len() {
                assert(again[i] == st.out[i]);
            } else {
                assert(again[i] == st.pending[i - st.out.len()]);
            }
        }
    }
    if n > 0 {
        if st.pending.len() > 0 {
            assert(entry_key(st.pending[st.pending.len() - 1]) is Some);
            assert(again.last() == st.pending.last());
        } else {
            assert(again =~= st.out);
        }
    }
    lemma_readable(again, s);
}

/// Sorting the sections with one entry per line of a text in which they are
/// sorted changes nothing, in a text without stray carriage returns.
pub proof fn law_line_sections_sorted_once(s: Seq<char>)
    requires
        are_plain_lines(lines_of(s)),
    ensures
        line_sections_sorted(line_sections_sorted(s)) == line_sections_sorted(s),
{
    let again = line_end(s).out + line_end(s).pending;
    lemma_lines_readable(s);
    lemma_assembled(again, s);
    lemma_reassembled(again, s);
    lemma_lines_read_again(lines_of(s));
}

} // verus!
