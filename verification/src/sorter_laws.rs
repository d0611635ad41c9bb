//! What holds of the sort passes as a whole.

use crate::order::{insert_by, sort_by, text_le};
use crate::sorter::{
    assemble, close_entry, line_end, line_run, line_sections_sorted, list_end, list_run,
    lists_sorted, section_run, section_sorted, section_state, ListKind, SectionKey,
};
use crate::text::{
    joined, lemma_joined_is_unlines, lemma_line_len_bound, lemma_unlines_front,
    lemma_unlines_push, line_len, lines_of, unlines, without_cr,
};
use vstd::prelude::*;

verus! {

// ── Lengths ──────────────────────────────────────────────────────────────────

pub proof fn lemma_unlines_concat(a: Seq<Seq<char>>, b: Seq<Seq<char>>)
    ensures
        unlines(a + b) == unlines(a) + unlines(b),
    decreases b.len(),
{
    if b.len() == 0 {
        assert(a + b =~= a);
        assert(unlines(a) + unlines(b) =~= unlines(a));
    } else {
        lemma_unlines_concat(a, b.drop_last());
        assert((a + b).drop_last() =~= a + b.drop_last());
        assert(unlines(a + b) =~= unlines(a) + unlines(b));
    }
}

proof fn lemma_insert_len(ls: Seq<Seq<char>>, x: Seq<char>, key: spec_fn(Seq<char>) -> Seq<char>)
    ensures
        unlines(insert_by(ls, x, key)).len() == unlines(ls).len() + x.len() + 1,
    decreases ls.len(),
{
    if ls.len() == 0 || text_le(key(ls.last()), key(x)) {
        lemma_unlines_push(ls, x);
    } else {
        lemma_insert_len(ls.drop_last(), x, key);
        lemma_unlines_push(insert_by(ls.drop_last(), x, key), ls.last());
    }
}

proof fn lemma_sort_len(ls: Seq<Seq<char>>, key: spec_fn(Seq<char>) -> Seq<char>)
    ensures
        unlines(sort_by(ls, key)).len() == unlines(ls).len(),
    decreases ls.len(),
{
    if ls.len() > 0 {
        lemma_sort_len(ls.drop_last(), key);
        lemma_insert_len(sort_by(ls.drop_last(), key), ls.last(), key);
    }
}

/// A text is as long as its lines, each with its ending; but for the last one,
/// which need not have one.
proof fn lemma_lines_len(s: Seq<char>)
    ensures
        unlines(lines_of(s)).len() <= s.len() + 1,
        s.len() > 0 && s.last() == '\n' ==> unlines(lines_of(s)).len() <= s.len(),
        s.len() > 0 ==> lines_of(s).len() > 0,
        s.len() == 0 ==> unlines(lines_of(s)).len() == 0,
    decreases s.len(),
{
    lemma_line_len_bound(s);
    let n = line_len(s) as int;
    if s.len() > 0 {
        if n < s.len() {
            let rest = s.skip(n + 1);
            lemma_lines_len(rest);
            lemma_unlines_front(without_cr(s.take(n)), lines_of(rest));
            if rest.len() > 0 {
                assert(rest.last() == s.last());
            }
        } else {
            assert(seq![s].drop_last() =~= Seq::empty());
            assert(unlines(seq![s].drop_last()) =~= Seq::empty());
        }
    }
}

proof fn lemma_assemble_len(out: Seq<Seq<char>>, dropped: nat, input: Seq<char>)
    requires
        unlines(out).len() + dropped <= unlines(lines_of(input)).len(),
        lines_of(input).len() > 0 ==> out.len() > 0,
    ensures
        assemble(out, input).len() + dropped <= input.len(),
{
    lemma_lines_len(input);
    if out.len() > 0 {
        lemma_joined_is_unlines(out);
        assert(joined(out).push('\n').len() == joined(out).len() + 1);
    }
}

proof fn lemma_take_push(lines: Seq<Seq<char>>, n: int)
    requires
        0 < n <= lines.len(),
    ensures
        unlines(lines.take(n)).len() == unlines(lines.take(n - 1)).len() + lines[n - 1].len() + 1,
{
    assert(lines.take(n) =~= lines.take(n - 1).push(lines[n - 1]));
    lemma_unlines_push(lines.take(n - 1), lines[n - 1]);
}

proof fn lemma_list_len(kind: ListKind, main: Seq<char>, lines: Seq<Seq<char>>, n: int)
    requires
        0 <= n <= lines.len(),
    ensures
        ({
            let st = list_run(kind, main, lines, n);
            &&& unlines(st.out).len() + unlines(st.pending).len() + st.dropped <= unlines(
                lines.take(n),
            ).len()
            &&& n > 0 ==> st.out.len() > 0
        }),
    decreases n,
{
    if n > 0 {
        lemma_list_len(kind, main, lines, n - 1);
        let st = list_run(kind, main, lines, n - 1);
        let line = lines[n - 1];
        let key = |l: Seq<char>| crate::sorter::list_key(kind, l);
        lemma_take_push(lines, n);
        lemma_unlines_push(st.out, line);
        lemma_unlines_push(st.pending, line);
        lemma_sort_len(st.pending, key);
        lemma_unlines_concat(st.out, sort_by(st.pending, key));
        lemma_unlines_concat(st.out, st.pending);
        lemma_unlines_push(st.out + sort_by(st.pending, key), line);
        lemma_unlines_push(st.out + st.pending, line);
    }
}

/// Sorting lists makes a text no longer, and shorter by a character at least
/// for each duplicate that is dropped.
pub proof fn law_lists_no_longer(kind: ListKind, main: Seq<char>, input: Seq<char>)
    ensures
        lists_sorted(kind, main, input).len() + list_end(kind, main, input).dropped <= input.len(),
{
    let lines = lines_of(input);
    lemma_list_len(kind, main, lines, lines.len() as int);
    assert(lines.take(lines.len() as int) =~= lines);
    let st = list_end(kind, main, input);
    lemma_unlines_concat(st.out, st.pending);
    lemma_assemble_len(st.out + st.pending, st.dropped, input);
}

proof fn lemma_line_len(lines: Seq<Seq<char>>, n: int)
    requires
        0 <= n <= lines.len(),
    ensures
        ({
            let st = line_run(lines, n);
            &&& unlines(st.out).len() + unlines(st.pending).len() + st.dropped <= unlines(
                lines.take(n),
            ).len()
            &&& n > 0 ==> st.out.len() > 0
        }),
    decreases n,
{
    if n > 0 {
        lemma_line_len(lines, n - 1);
        let st = line_run(lines, n - 1);
        let line = lines[n - 1];
        let key = |l: Seq<char>| crate::sorter::comment_key(l);
        lemma_take_push(lines, n);
        lemma_unlines_push(st.out, line);
        lemma_unlines_push(st.pending, line);
        lemma_sort_len(st.pending, key);
        lemma_unlines_concat(st.out, sort_by(st.pending, key));
        lemma_unlines_push(st.out + sort_by(st.pending, key), line);
    }
}

/// Sorting sections with one entry per line makes a text no longer.
pub proof fn law_line_sections_no_longer(input: Seq<char>)
    ensures
        line_sections_sorted(input).len() + line_end(input).dropped <= input.len(),
{
    let lines = lines_of(input);
    lemma_line_len(lines, lines.len() as int);
    assert(lines.take(lines.len() as int) =~= lines);
    let st = line_end(input);
    lemma_unlines_concat(st.out, st.pending);
    lemma_assemble_len(st.out + st.pending, st.dropped, input);
}

proof fn lemma_section_len(name: Seq<char>, by: SectionKey, lines: Seq<Seq<char>>, n: int)
    requires
        0 <= n <= lines.len(),
    ensures
        ({
            let st = section_run(name, by, lines, n);
            &&& unlines(st.out).len() + unlines(st.prefix).len() + unlines(st.entries).len()
                + unlines(st.current).len() + st.dropped <= unlines(lines.take(n)).len()
            &&& n > 0 ==> st.out.len() > 0
        }),
    decreases n,
{
    if n > 0 {
        lemma_section_len(name, by, lines, n - 1);
        let st = section_run(name, by, lines, n - 1);
        let line = lines[n - 1];
        let key = |e: Seq<char>| crate::sorter::section_key(by, e);
        lemma_take_push(lines, n);
        lemma_unlines_push(st.out, line);
        lemma_unlines_push(st.prefix, line);
        lemma_unlines_push(st.current, line);
        let more = crate::sorter::SectionState { current: st.current.push(line), ..st };
        lemma_close_len(st);
        lemma_close_len(more);
        let done = close_entry(st);
        lemma_sort_len(done.entries, key);
        lemma_unlines_concat(st.out, st.prefix);
        lemma_unlines_concat(st.out + st.prefix, sort_by(done.entries, key));
        lemma_unlines_push(st.out + st.prefix + sort_by(done.entries, key), line);
    }
}

proof fn lemma_close_len(st: crate::sorter::SectionState)
    ensures
        ({
            let done = close_entry(st);
            unlines(done.entries).len() + unlines(done.current).len() + done.dropped <= unlines(
                st.entries,
            ).len() + unlines(st.current).len() + st.dropped
        }),
{
    if st.current.len() > 0 {
        lemma_joined_is_unlines(st.current);
        assert(joined(st.current).push('\n').len() == joined(st.current).len() + 1);
        lemma_unlines_push(st.entries, joined(st.current));
    }
}

/// Sorting a section makes a text no longer.
pub proof fn law_section_no_longer(name: Seq<char>, by: SectionKey, input: Seq<char>)
    ensures
        section_sorted(name, by, input).len() + section_state(name, by, input).dropped
            <= input.len(),
{
    let lines = lines_of(input);
    lemma_section_len(name, by, lines, lines.len() as int);
    assert(lines.take(lines.len() as int) =~= lines);
    let st = section_state(name, by, input);
    lemma_unlines_concat(st.out, st.prefix);
    lemma_unlines_concat(st.out + st.prefix, st.entries);
    lemma_unlines_concat(st.out + st.prefix + st.entries, st.current);
    lemma_assemble_len(st.out + st.prefix + st.entries + st.current, st.dropped, input);
}

} // verus!
