//! What each pass of the sort keeps, and how braces are counted.

use crate::alphabet_laws::{entry_lines, is_entry, is_entry_list, lemma_prefix};
use crate::kept_laws::{first_items, lists_already};
use crate::order::{law_sort_permutes, sort_by};
use crate::pattern::{entry_uuid, item_uuid, line_section};
use crate::sanitizer::{brace_sum, line_braces, line_read, Place};
use crate::sorter::{
    belongs_to, comment_key, follows_uuid, indent_width, line_run, line_step, list_key, list_run,
    list_step, opens, section_key, section_run, section_step, ListKind, SectionKey, SectionState,
};
use crate::text::{joined, trimmed, uppercase};
use vstd::prelude::*;

verus! {

// ── Lists ────────────────────────────────────────────────────────────────────

/// Line `a` opens a list of this kind, line `c` closes it, and each line between is
/// an item.
pub open spec fn is_kind_of_list(kind: ListKind, ls: Seq<Seq<char>>, a: int, c: int) -> bool {
    &&& 0 <= a < c < ls.len()
    &&& opens(kind, ls[a])
    &&& ");"@.is_prefix_of(trimmed(ls[c]))
    &&& indent_width(ls[c]) == indent_width(ls[a])
    &&& forall|k: int|
        a < k < c ==> item_uuid(#[trigger] ls[k]) is Some && !");"@.is_prefix_of(trimmed(ls[k]))
}

/// The list is that of the children of the main group, whose UUID is `main`: the
/// last line before it holds that UUID, or the last object declared is that.
pub open spec fn is_of_main_group(
    kind: ListKind,
    main: Seq<char>,
    ls: Seq<Seq<char>>,
    a: int,
) -> bool {
    &&& kind == ListKind::Children
    &&& main.len() > 0
    &&& follows_uuid(ls, a, main) || belongs_to(ls, a, main)
}

proof fn lemma_item_next(items: Seq<Seq<char>>, l: Seq<char>, u: Seq<char>)
    requires
        item_uuid(l) is Some,
    ensures
        lists_already(items.push(l), u) == (lists_already(items, u) || uppercase(
            item_uuid(l)->Some_0,
        ) == uppercase(u)),
{
    let all = items.push(l);
    if lists_already(items, u) {
        let j = choose|j: int|
            0 <= j < items.len() && (#[trigger] item_uuid(items[j])) is Some && uppercase(
                item_uuid(items[j])->Some_0,
            ) == uppercase(u);
        assert(item_uuid(all[j]) is Some);
    }
    if uppercase(item_uuid(l)->Some_0) == uppercase(u) {
        assert(item_uuid(all[items.len() as int]) is Some);
    }
    if lists_already(all, u) && !lists_already(items, u) {
        let j = choose|j: int|
            0 <= j < all.len() && (#[trigger] item_uuid(all[j])) is Some && uppercase(
                item_uuid(all[j])->Some_0,
            ) == uppercase(u);
        if j < items.len() {
            assert(item_uuid(items[j]) is Some);
        }
    }
}

#[verifier::rlimit(40)]
#[verifier::spinoff_prover]
proof fn lemma_list_items(
    kind: ListKind,
    main: Seq<char>,
    ls: Seq<Seq<char>>,
    a: int,
    c: int,
    n: int,
)
    requires
        is_kind_of_list(kind, ls, a, c),
        !list_run(kind, main, ls, a).in_list,
        list_run(kind, main, ls, a).pending.len() == 0,
        a < n <= c,
    ensures
        ({
            let before = list_run(kind, main, ls, a);
            let st = list_run(kind, main, ls, n);
            let items = ls.subrange(a + 1, n);
            &&& st.in_list
            &&& st.indent == indent_width(ls[a])
            &&& st.sorts == !is_of_main_group(kind, main, ls, a)
            &&& st.out == before.out.push(ls[a])
            &&& st.pending == first_items(items)
            &&& st.dropped == before.dropped + items.len() - first_items(items).len()
            &&& forall|u: Seq<char>| #[trigger]
                st.seen.contains(uppercase(u)) == lists_already(items, u)
        }),
    decreases n,
{
    let before = list_run(kind, main, ls, a);
    let st = list_run(kind, main, ls, n);
    assert(st == list_step(kind, main, ls, list_run(kind, main, ls, n - 1), n - 1));
    let items = ls.subrange(a + 1, n);
    if n == a + 1 {
        assert(items =~= Seq::empty());
        assert(before.pending =~= Seq::empty());
    } else {
        lemma_list_items(kind, main, ls, a, c, n - 1);
        let less = ls.subrange(a + 1, n - 1);
        let l = ls[n - 1];
        assert(items =~= less.push(l));
        assert(items.drop_last() =~= less);
        assert(item_uuid(l) is Some);
        let was = list_run(kind, main, ls, n - 1);
        assert(was.seen.contains(uppercase(item_uuid(l)->Some_0)) == lists_already(
            less,
            item_uuid(l)->Some_0,
        ));
        assert forall|u: Seq<char>| #[trigger]
            st.seen.contains(uppercase(u)) == lists_already(items, u) by {
            lemma_item_next(less, l, u);
            assert(was.seen.contains(uppercase(u)) == lists_already(less, u));
        }
    }
}

/// Sorting lists keeps of each list the first item of each UUID, and drops no other;
/// the items of the main group keep their order, those of any other list change only
/// that.
pub proof fn law_list_keeps_its_items(
    kind: ListKind,
    main: Seq<char>,
    ls: Seq<Seq<char>>,
    a: int,
    c: int,
)
    requires
        is_kind_of_list(kind, ls, a, c),
        !list_run(kind, main, ls, a).in_list,
        list_run(kind, main, ls, a).pending.len() == 0,
    ensures
        ({
            let before = list_run(kind, main, ls, a);
            let after = list_run(kind, main, ls, c + 1);
            let items = ls.subrange(a + 1, c);
            let kept = first_items(items);
            let n = before.out.len() as int;
            let listed = after.out.subrange(n + 1, n + 1 + kept.len());
            &&& !after.in_list
            &&& after.pending.len() == 0
            &&& after.out == before.out.push(ls[a]) + listed + seq![ls[c]]
            &&& is_of_main_group(kind, main, ls, a) ==> listed == kept
            &&& listed.to_multiset() == kept.to_multiset()
            &&& after.dropped == before.dropped + items.len() - kept.len()
        }),
{
    let before = list_run(kind, main, ls, a);
    lemma_list_items(kind, main, ls, a, c, c);
    let st = list_run(kind, main, ls, c);
    let after = list_run(kind, main, ls, c + 1);
    assert(after == list_step(kind, main, ls, st, c));
    let key = |l: Seq<char>| list_key(kind, l);
    let kept = first_items(ls.subrange(a + 1, c));
    law_sort_permutes(kept, key);
    let entries = if st.sorts && kept.len() > 0 {
        sort_by(kept, key)
    } else {
        kept
    };
    let n = before.out.len() as int;
    assert(after.out == (before.out.push(ls[a]) + entries).push(ls[c]));
    assert(after.out.subrange(n + 1, n + 1 + kept.len()) =~= entries);
    assert(after.out =~= before.out.push(ls[a]) + entries + seq![ls[c]]);
}

/// A line outside lists that opens none stays where it is.
pub proof fn law_other_lines_stay(
    kind: ListKind,
    main: Seq<char>,
    ls: Seq<Seq<char>>,
    a: int,
)
    requires
        0 <= a < ls.len(),
        !list_run(kind, main, ls, a).in_list,
        !opens(kind, ls[a]),
    ensures
        list_run(kind, main, ls, a + 1).out == list_run(kind, main, ls, a).out.push(ls[a]),
        list_run(kind, main, ls, a + 1).pending == list_run(kind, main, ls, a).pending,
        list_run(kind, main, ls, a + 1).dropped == list_run(kind, main, ls, a).dropped,
        !list_run(kind, main, ls, a + 1).in_list,
{
}

// ── Sections with one entry per line ─────────────────────────────────────────

/// Line `a` begins a section with one entry per line, line `c` ends it, and each line
/// between is an entry.
pub open spec fn is_section_of_lines(
    ls: Seq<Seq<char>>,
    name: Seq<char>,
    a: int,
    c: int,
) -> bool {
    &&& 0 <= a < c < ls.len()
    &&& line_section(ls[a], "/* Begin "@) == Some(name)
    &&& line_section(ls[c], "/* End "@) == Some(name)
    &&& forall|k: int|
        a < k < c ==> item_uuid(#[trigger] ls[k]) is Some && line_section(ls[k], "/* End "@)
            != Some(name)
}

#[verifier::rlimit(40)]
#[verifier::spinoff_prover]
proof fn lemma_line_items(ls: Seq<Seq<char>>, name: Seq<char>, a: int, c: int, n: int)
    requires
        is_section_of_lines(ls, name, a, c),
        line_run(ls, a).section is None,
        line_run(ls, a).pending.len() == 0,
        a < n <= c,
    ensures
        ({
            let before = line_run(ls, a);
            let st = line_run(ls, n);
            let items = ls.subrange(a + 1, n);
            &&& st.section == Some(name)
            &&& st.out == before.out.push(ls[a])
            &&& st.pending == first_items(items)
            &&& st.dropped == before.dropped + items.len() - first_items(items).len()
            &&& forall|u: Seq<char>| #[trigger]
                st.seen.contains(uppercase(u)) == lists_already(items, u)
        }),
    decreases n,
{
    let before = line_run(ls, a);
    let st = line_run(ls, n);
    assert(st == line_step(line_run(ls, n - 1), ls[n - 1]));
    let items = ls.subrange(a + 1, n);
    if n == a + 1 {
        assert(items =~= Seq::empty());
        assert(before.pending =~= Seq::empty());
    } else {
        lemma_line_items(ls, name, a, c, n - 1);
        let less = ls.subrange(a + 1, n - 1);
        let l = ls[n - 1];
        assert(items =~= less.push(l));
        assert(items.drop_last() =~= less);
        assert(item_uuid(l) is Some);
        let was = line_run(ls, n - 1);
        assert(was.seen.contains(uppercase(item_uuid(l)->Some_0)) == lists_already(
            less,
            item_uuid(l)->Some_0,
        ));
        assert forall|u: Seq<char>| #[trigger]
            st.seen.contains(uppercase(u)) == lists_already(items, u) by {
            lemma_item_next(less, l, u);
            assert(was.seen.contains(uppercase(u)) == lists_already(less, u));
        }
    }
}

/// Sorting a section with one entry per line keeps the first entry of each UUID, and
/// drops no other.
pub proof fn law_section_keeps_its_lines(ls: Seq<Seq<char>>, name: Seq<char>, a: int, c: int)
    requires
        is_section_of_lines(ls, name, a, c),
        line_run(ls, a).section is None,
        line_run(ls, a).pending.len() == 0,
    ensures
        ({
            let before = line_run(ls, a);
            let after = line_run(ls, c + 1);
            let items = ls.subrange(a + 1, c);
            let kept = first_items(items);
            let n = before.out.len() as int;
            let listed = after.out.subrange(n + 1, n + 1 + kept.len());
            &&& after.section is None
            &&& after.pending.len() == 0
            &&& after.out == before.out.push(ls[a]) + listed + seq![ls[c]]
            &&& listed.to_multiset() == kept.to_multiset()
            &&& after.dropped == before.dropped + items.len() - kept.len()
        }),
{
    let before = line_run(ls, a);
    lemma_line_items(ls, name, a, c, c);
    let st = line_run(ls, c);
    let after = line_run(ls, c + 1);
    assert(after == line_step(st, ls[c]));
    let key = |l: Seq<char>| comment_key(l);
    let kept = first_items(ls.subrange(a + 1, c));
    law_sort_permutes(kept, key);
    let entries = sort_by(kept, key);
    let n = before.out.len() as int;
    assert(after.out == (before.out.push(ls[a]) + entries).push(ls[c]));
    assert(after.out.subrange(n + 1, n + 1 + kept.len()) =~= entries);
    assert(after.out =~= before.out.push(ls[a]) + entries + seq![ls[c]]);
}

// ── Sections whose entries span several lines ────────────────────────────────

/// One of the entries opens with this UUID, in whatever case.
#[verifier::opaque]
pub open spec fn opened_before(bs: Seq<Seq<Seq<char>>>, u: Seq<char>) -> bool {
    exists|j: int|
        0 <= j < bs.len() && (#[trigger] entry_uuid(bs[j][0])) is Some && uppercase(
            entry_uuid(bs[j][0])->Some_0,
        ) == uppercase(u)
}

/// The entries, each with its lines joined, without those whose UUID an entry before
/// has.
pub open spec fn first_entries(bs: Seq<Seq<Seq<char>>>) -> Seq<Seq<char>>
    decreases bs.len(),
{
    if bs.len() == 0 {
        Seq::empty()
    } else {
        let rest = bs.drop_last();
        match entry_uuid(bs.last()[0]) {
            Some(u) => if opened_before(rest, u) {
                first_entries(rest)
            } else {
                first_entries(rest).push(joined(bs.last()))
            },
            None => first_entries(rest).push(joined(bs.last())),
        }
    }
}

proof fn lemma_opened_next(bs: Seq<Seq<Seq<char>>>, b: Seq<Seq<char>>, u: Seq<char>)
    requires
        entry_uuid(b[0]) is Some,
    ensures
        opened_before(bs.push(b), u) == (opened_before(bs, u) || uppercase(
            entry_uuid(b[0])->Some_0,
        ) == uppercase(u)),
{
    reveal(opened_before);
    let all = bs.push(b);
    if opened_before(bs, u) {
        let j = choose|j: int|
            0 <= j < bs.len() && (#[trigger] entry_uuid(bs[j][0])) is Some && uppercase(
                entry_uuid(bs[j][0])->Some_0,
            ) == uppercase(u);
        assert(entry_uuid(all[j][0]) is Some);
    }
    if uppercase(entry_uuid(b[0])->Some_0) == uppercase(u) {
        assert(entry_uuid(all[bs.len() as int][0]) is Some);
    }
    if opened_before(all, u) && !opened_before(bs, u) {
        let j = choose|j: int|
            0 <= j < all.len() && (#[trigger] entry_uuid(all[j][0])) is Some && uppercase(
                entry_uuid(all[j][0])->Some_0,
            ) == uppercase(u);
        if j < bs.len() {
            assert(entry_uuid(bs[j][0]) is Some);
        }
    }
}

/// The pass inside an entry.
proof fn lemma_entry_read(
    name: Seq<char>,
    by: SectionKey,
    ls: Seq<Seq<char>>,
    at: int,
    b: Seq<Seq<char>>,
    k: int,
)
    requires
        is_entry(name, b),
        0 <= at,
        at + b.len() <= ls.len(),
        ls.subrange(at, at + b.len()) == b,
        0 <= k <= b.len(),
        ({
            let st = section_run(name, by, ls, at);
            st.in_section && !st.in_entry && !st.duplicate && st.current.len() == 0
        }),
    ensures
        ({
            let old = section_run(name, by, ls, at);
            let st = section_run(name, by, ls, at + k);
            let u = uppercase(entry_uuid(b[0])->Some_0);
            &&& st.in_section
            &&& st.prefix == old.prefix
            &&& st.out == old.out
            &&& 0 < k < b.len() ==> {
                &&& st.in_entry
                &&& st.current == b.take(k)
                &&& st.duplicate == old.seen.contains(u)
                &&& st.seen == old.seen.insert(u)
                &&& st.entries == old.entries
                &&& st.dropped == old.dropped
            }
            &&& k == b.len() ==> {
                &&& !st.in_entry
                &&& !st.duplicate
                &&& st.current.len() == 0
                &&& st.seen == old.seen.insert(u)
                &&& old.seen.contains(u) ==> st.entries == old.entries && st.dropped == old.dropped
                    + 1
                &&& !old.seen.contains(u) ==> st.entries == old.entries.push(joined(b))
                    && st.dropped == old.dropped
            }
        }),
    decreases k,
{
    if k > 0 {
        lemma_entry_read(name, by, ls, at, b, k - 1);
        let old = section_run(name, by, ls, at);
        let was = section_run(name, by, ls, at + k - 1);
        assert(section_run(name, by, ls, at + k) == section_step(name, by, was, ls[at + k - 1]));
        assert(ls.subrange(at, at + b.len())[k - 1] == ls[at + k - 1]);
        assert(ls[at + k - 1] == b[k - 1]);
        assert(b.take(k) =~= b.take(k - 1).push(b[k - 1]));
        if k == 1 {
            assert(was.current =~= b.take(0));
            assert(b[0] != "\t\t};"@);
            let u = uppercase(entry_uuid(b[0])->Some_0);
            if old.seen.contains(u) {
                assert(old.seen.insert(u) =~= old.seen);
            }
        }
        if k == b.len() {
            assert(b.take(k) =~= b);
        }
    }
}

#[verifier::rlimit(60)]
#[verifier::spinoff_prover]
proof fn lemma_entries_read(
    name: Seq<char>,
    by: SectionKey,
    ls: Seq<Seq<char>>,
    a: int,
    bs: Seq<Seq<Seq<char>>>,
    k: int,
)
    requires
        is_entry_list(ls, name, a, bs),
        is_fresh(section_run(name, by, ls, a)),
        0 <= k <= bs.len(),
    ensures
        ({
            let old = section_run(name, by, ls, a);
            let st = section_run(name, by, ls, a + 1 + entry_lines(bs.take(k)).len());
            &&& st.in_section && !st.in_entry && !st.duplicate
            &&& st.current.len() == 0
            &&& st.prefix.len() == 0
            &&& st.out == old.out.push(ls[a])
            &&& st.entries == first_entries(bs.take(k))
            &&& st.dropped == old.dropped + k - first_entries(bs.take(k)).len()
            &&& forall|u: Seq<char>| #[trigger]
                st.seen.contains(uppercase(u)) == opened_before(bs.take(k), u)
        }),
    decreases k,
{
    lemma_prefix(bs, k);
    if k == 0 {
        assert(bs.take(0) =~= Seq::empty());
        assert(entry_lines(bs.take(0)).len() == 0);
        assert(section_run(name, by, ls, a + 1) == section_step(
            name,
            by,
            section_run(name, by, ls, a),
            ls[a],
        ));
        let st = section_run(name, by, ls, a + 1);
        assert(st.entries =~= Seq::empty());
        assert forall|u: Seq<char>| #[trigger]
            st.seen.contains(uppercase(u)) == opened_before(bs.take(0), u) by {
            reveal(opened_before);
        }
    } else {
        lemma_entries_read(name, by, ls, a, bs, k - 1);
        lemma_prefix(bs, k - 1);
        let less = bs.take(k - 1);
        let b = bs[k - 1];
        assert(bs.take(k) =~= less.push(b));
        assert(bs.take(k).drop_last() =~= less);
        let at = a + 1 + entry_lines(less).len();
        let all = entry_lines(bs);
        let part = entry_lines(bs.take(k));
        assert(part == entry_lines(less) + b);
        assert forall|i: int| 0 <= i < b.len() implies ls[at + i] == b[i] by {
            assert(part[entry_lines(less).len() + i] == b[i]);
            assert(all[entry_lines(less).len() + i] == part[entry_lines(less).len() + i]);
            assert(ls.subrange(a + 1, a + 1 + all.len())[entry_lines(less).len() + i] == ls[at + i]);
        }
        assert(ls.subrange(at, at + b.len()) =~= b);
        assert(is_entry(name, bs[k - 1]));
        lemma_entry_read(name, by, ls, at, b, b.len() as int);
        let was = section_run(name, by, ls, at);
        let st = section_run(name, by, ls, at + b.len());
        let v = entry_uuid(b[0])->Some_0;
        assert(was.seen.contains(uppercase(v)) == opened_before(less, v));
        assert forall|u: Seq<char>| #[trigger]
            st.seen.contains(uppercase(u)) == opened_before(bs.take(k), u) by {
            lemma_opened_next(less, b, u);
            assert(was.seen.contains(uppercase(u)) == opened_before(less, u));
        }
    }
}

/// Outside sections, with nothing held back.
pub open spec fn is_fresh(st: SectionState) -> bool {
    &&& !st.in_section && !st.in_entry && !st.duplicate
    &&& st.prefix.len() == 0 && st.entries.len() == 0 && st.current.len() == 0
}

/// Sorting a section keeps the first entry of each UUID, with all its lines, and
/// drops no other.
pub proof fn law_section_keeps_its_entries(
    name: Seq<char>,
    by: SectionKey,
    ls: Seq<Seq<char>>,
    a: int,
    bs: Seq<Seq<Seq<char>>>,
)
    requires
        is_entry_list(ls, name, a, bs),
        is_fresh(section_run(name, by, ls, a)),
    ensures
        ({
            let c = a + 1 + entry_lines(bs).len();
            let before = section_run(name, by, ls, a);
            let after = section_run(name, by, ls, c + 1);
            let kept = first_entries(bs);
            let n = before.out.len() as int;
            let listed = after.out.subrange(n + 1, n + 1 + kept.len());
            &&& is_fresh(after)
            &&& after.out == before.out.push(ls[a]) + listed + seq![ls[c]]
            &&& listed.to_multiset() == kept.to_multiset()
            &&& after.dropped == before.dropped + bs.len() - kept.len()
        }),
{
    let c = a + 1 + entry_lines(bs).len();
    let before = section_run(name, by, ls, a);
    lemma_entries_read(name, by, ls, a, bs, bs.len() as int);
    assert(bs.take(bs.len() as int) =~= bs);
    let st = section_run(name, by, ls, c);
    let after = section_run(name, by, ls, c + 1);
    assert(after == section_step(name, by, st, ls[c]));
    let key = |e: Seq<char>| section_key(by, e);
    let kept = first_entries(bs);
    law_sort_permutes(kept, key);
    let entries = sort_by(kept, key);
    let n = before.out.len() as int;
    assert(st.out + st.prefix =~= st.out);
    assert(after.out == (before.out.push(ls[a]) + entries).push(ls[c]));
    assert(after.out.subrange(n + 1, n + 1 + kept.len()) =~= entries);
    assert(after.out =~= before.out.push(ls[a]) + entries + seq![ls[c]]);
}

// ── Braces ───────────────────────────────────────────────────────────────────

/// A text without quotes.
pub open spec fn has_no_quote(s: Seq<char>) -> bool {
    forall|i: int| 0 <= i < s.len() ==> #[trigger] s[i] != '"'
}

/// A text without quotes and backslashes.
pub open spec fn is_quotable(s: Seq<char>) -> bool {
    forall|i: int| 0 <= i < s.len() ==> #[trigger] s[i] != '"' && s[i] != '\\'
}

proof fn lemma_sum_skip(s: Seq<char>, i: int, k: int, quoted: bool)
    requires
        0 <= i,
        0 <= k,
        i + k <= s.len(),
    ensures
        brace_sum(s, i + k, quoted) == brace_sum(s.skip(k), i, quoted),
    decreases s.len() - i - k,
{
    let t = s.skip(k);
    if i + k < s.len() {
        assert(t[i] == s[i + k]);
        if s[i + k] == '\\' && quoted {
            if i + 2 + k <= s.len() {
                lemma_sum_skip(s, i + 2, k, quoted);
            }
        } else if s[i + k] == '"' {
            lemma_sum_skip(s, i + 1, k, !quoted);
        } else {
            lemma_sum_skip(s, i + 1, k, quoted);
        }
    }
}

proof fn lemma_sum_plain(a: Seq<char>, b: Seq<char>, i: int)
    requires
        has_no_quote(a),
        0 <= i <= a.len(),
    ensures
        brace_sum(a + b, i, false) == brace_sum(a, i, false) + line_braces(b),
    decreases a.len() - i,
{
    let s = a + b;
    if i == a.len() {
        lemma_sum_skip(s, 0, i, false);
        assert(s.skip(i) =~= b);
    } else {
        assert(s[i] == a[i]);
        lemma_sum_plain(a, b, i + 1);
    }
}

proof fn lemma_sum_quoted(a: Seq<char>, b: Seq<char>, i: int)
    requires
        is_quotable(a),
        0 <= i <= a.len(),
    ensures
        brace_sum(a + seq!['"'] + b, i, true) == line_braces(b),
    decreases a.len() - i,
{
    let s = a + seq!['"'] + b;
    if i == a.len() {
        assert(s[i] == '"');
        lemma_sum_skip(s, 0, i + 1, false);
        assert(s.skip(i + 1) =~= b);
    } else {
        assert(s[i] == a[i]);
        lemma_sum_quoted(a, b, i + 1);
    }
}

/// An opening brace counts one, a closing one takes one away, and what stands in
/// quotes does not count.
pub proof fn law_braces_are_counted(a: Seq<char>, quoted: Seq<char>, b: Seq<char>)
    requires
        has_no_quote(a),
        is_quotable(quoted),
    ensures
        line_braces(a + b) == line_braces(a) + line_braces(b),
        line_braces(seq!['"'] + quoted + seq!['"'] + b) == line_braces(b),
        line_braces(seq!['{'] + b) == line_braces(b) + 1,
        line_braces(seq!['}'] + b) == line_braces(b) - 1,
        line_braces(seq!['"', '\\', '"', '{', '"'] + b) == line_braces(b),
{
    lemma_sum_plain(a, b, 0);
    let s = seq!['"'] + quoted + seq!['"'] + b;
    assert(s[0] == '"');
    lemma_sum_skip(s, 0, 1, true);
    assert(s.skip(1) =~= quoted + seq!['"'] + b);
    lemma_sum_quoted(quoted, b, 0);
    lemma_sum_plain(seq!['{'], b, 0);
    lemma_sum_plain(seq!['}'], b, 0);
    reveal_with_fuel(brace_sum, 3);
    assert(brace_sum(seq!['{'], 1, false) == 0);
    assert(brace_sum(seq!['}'], 1, false) == 0);
    let t = seq!['"', '\\', '"', '{', '"'] + b;
    assert(t[0] == '"' && t[1] == '\\' && t[2] == '"' && t[3] == '{' && t[4] == '"');
    assert(brace_sum(t, 0, false) == brace_sum(t, 1, true));
    assert(brace_sum(t, 1, true) == brace_sum(t, 3, true));
    assert(brace_sum(t, 3, true) == brace_sum(t, 4, true));
    assert(brace_sum(t, 4, true) == brace_sum(t, 5, false));
    lemma_sum_skip(t, 0, 5, false);
    assert(t.skip(5) =~= b);
}

// ── Documents ────────────────────────────────────────────────────────────────

proof fn lemma_read_quoted(line: Seq<char>, i: int, j: int, depth: nat)
    requires
        0 <= i <= j < line.len(),
        forall|k: int| i <= k < j ==> #[trigger] line[k] != '"' && line[k] != '\\',
        line[j] == '"',
    ensures
        line_read(line, i, Place::Quote, depth) == line_read(line, j + 1, Place::Between, depth),
    decreases j - i,
{
    if i < j {
        assert(line[i] != '"' && line[i] != '\\');
        lemma_read_quoted(line, i + 1, j, depth);
    }
}

proof fn lemma_read_comment(line: Seq<char>, i: int, j: int, depth: nat)
    requires
        0 <= i <= j,
        j + 1 < line.len(),
        forall|k: int| i <= k < j ==> #[trigger] line[k] != '*',
        line[j] == '*',
        line[j + 1] == '/',
    ensures
        line_read(line, i, Place::Comment, depth) == line_read(line, j + 2, Place::Between, depth),
    decreases j - i,
{
    if i < j {
        assert(line[i] != '*');
        lemma_read_comment(line, i + 1, j, depth);
    }
}

/// Inside a document, what stands in quotes or in a comment is passed over; a brace
/// opens a level, and one closes it; the brace that closes the outermost level ends
/// the document.
pub proof fn law_documents_are_read(line: Seq<char>, i: int, j: int, depth: nat)
    requires
        0 <= i < line.len(),
        depth > 0,
    ensures
        line[i] == '"' && i < j < line.len() && line[j] == '"' && (forall|k: int|
            i < k < j ==> #[trigger] line[k] != '"' && line[k] != '\\') ==> line_read(
            line,
            i,
            Place::Between,
            depth,
        ) == line_read(line, j + 1, Place::Between, depth),
        line[i] == '/' && i + 2 <= j && j + 1 < line.len() && line[i + 1] == '*' && line[j] == '*'
            && line[j + 1] == '/' && (forall|k: int| i + 2 <= k < j ==> #[trigger] line[k] != '*')
            ==> line_read(line, i, Place::Between, depth) == line_read(
            line,
            j + 2,
            Place::Between,
            depth,
        ),
        line[i] == '{' ==> line_read(line, i, Place::Between, depth) == line_read(
            line,
            i + 1,
            Place::Between,
            depth + 1,
        ),
        line[i] == '}' && depth > 1 ==> line_read(line, i, Place::Between, depth) == line_read(
            line,
            i + 1,
            Place::Between,
            (depth - 1) as nat,
        ),
        line[i] == '}' && depth == 1 ==> line_read(line, i, Place::Between, depth).end == Some(
            i + 1,
        ),
{
    if line[i] == '"' && i < j < line.len() && line[j] == '"' && (forall|k: int|
        i < k < j ==> #[trigger] line[k] != '"' && line[k] != '\\') {
        lemma_read_quoted(line, i + 1, j, depth);
    }
    if line[i] == '/' && i + 2 <= j && j + 1 < line.len() && line[i + 1] == '*' && line[j] == '*'
        && line[j + 1] == '/' && (forall|k: int| i + 2 <= k < j ==> #[trigger] line[k] != '*') {
        lemma_read_comment(line, i + 2, j, depth);
    }
}

} // verus!
