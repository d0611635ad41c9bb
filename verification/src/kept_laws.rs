//! What repairing a text keeps of its objects, lists and sections.

use crate::pattern::{decl_uuid, item_uuid, section_begin, section_end};
use crate::sanitizer::{
    attributes_run, attributes_step, bodies_run, bodies_step, closes_any_list, decls_run,
    decls_step, has_orphan, is_object_level, is_target_attributes, line_braces, lists_run,
    lists_step, opens_any_list, opens_objects, orphan_begin, orphan_end, pass_text, sections_run,
};
use crate::text::{has_substring, indent, lines_of, trimmed_start, unlines, uppercase};
use vstd::prelude::*;

verus! {

/// Lines that belong together, and whether they stay.
pub ghost struct Piece {
    pub lines: Seq<Seq<char>>,
    pub stays: bool,
}

/// The lines of some pieces.
pub open spec fn all_lines(ps: Seq<Piece>) -> Seq<Seq<char>>
    decreases ps.len(),
{
    if ps.len() == 0 {
        Seq::empty()
    } else {
        all_lines(ps.drop_last()) + ps.last().lines
    }
}

/// The lines of the pieces that stay.
pub open spec fn kept_lines(ps: Seq<Piece>) -> Seq<Seq<char>>
    decreases ps.len(),
{
    if ps.len() == 0 {
        Seq::empty()
    } else if ps.last().stays {
        kept_lines(ps.drop_last()) + ps.last().lines
    } else {
        kept_lines(ps.drop_last())
    }
}

/// How many braces the lines open more than they close.
pub open spec fn depth_of(ls: Seq<Seq<char>>) -> int
    decreases ls.len(),
{
    if ls.len() == 0 {
        0
    } else {
        depth_of(ls.drop_last()) + line_braces(ls.last())
    }
}

/// Lines that open a brace and close it with the last of them, or one line that
/// does both.
pub open spec fn is_whole(b: Seq<Seq<char>>) -> bool {
    &&& b.len() > 0
    &&& depth_of(b) == 0
    &&& forall|k: int| 0 < k < b.len() ==> depth_of(#[trigger] b.take(k)) > 0
}

/// No line opens the block of objects.
pub open spec fn opens_no_objects(ls: Seq<Seq<char>>) -> bool {
    forall|i: int| 0 <= i < ls.len() ==> !opens_objects(#[trigger] ls[i])
}

// ── Objects declared twice ───────────────────────────────────────────────────

/// One of the first `n` pieces declares an object with this UUID, in whatever case.
#[verifier::opaque]
pub open spec fn declared_before(ps: Seq<Piece>, n: int, u: Seq<char>) -> bool {
    exists|j: int|
        0 <= j < n && (#[trigger] decl_uuid(ps[j].lines[0])) is Some && uppercase(
            decl_uuid(ps[j].lines[0])->Some_0,
        ) == uppercase(u)
}

/// The pieces are objects, of which the first of each UUID stays, and single lines
/// that declare nothing, which all stay.
pub open spec fn are_declarations(ps: Seq<Piece>) -> bool {
    forall|i: int|
        0 <= i < ps.len() ==> {
            let p = #[trigger] ps[i];
            &&& is_whole(p.lines)
            &&& match decl_uuid(p.lines[0]) {
                Some(u) => p.stays == !declared_before(ps, i, u),
                None => p.lines.len() == 1 && p.stays,
            }
        }
}

proof fn lemma_decl_more(a: Seq<Seq<char>>, l: Seq<char>)
    ensures
        decls_run(a + seq![l]) == decls_step(decls_run(a), l),
{
    assert((a + seq![l]).drop_last() =~= a);
}

proof fn lemma_depth_take(b: Seq<Seq<char>>, k: int)
    requires
        0 < k <= b.len(),
    ensures
        depth_of(b.take(k)) == depth_of(b.take(k - 1)) + line_braces(b[k - 1]),
        depth_of(b.take(0)) == 0,
        depth_of(b.take(b.len() as int)) == depth_of(b),
{
    assert(b.take(k).drop_last() =~= b.take(k - 1));
    assert(b.take(b.len() as int) =~= b);
}

proof fn lemma_decl_piece(a: Seq<Seq<char>>, b: Seq<Seq<char>>, k: int)
    requires
        is_whole(b),
        0 <= k <= b.len(),
        ({
            let st = decls_run(a);
            st.in_objects && st.depth == 1 && st.skip_to is None
        }),
        decl_uuid(b[0]) is None ==> b.len() == 1,
    ensures
        ({
            let old = decls_run(a);
            let st = decls_run(a + b.take(k));
            let again = decl_uuid(b[0]) is Some && old.seen.contains(
                uppercase(decl_uuid(b[0])->Some_0),
            );
            &&& st.in_objects
            &&& st.depth == 1 + depth_of(b.take(k))
            &&& st.out == if again {
                old.out
            } else {
                old.out + b.take(k)
            }
            &&& st.removed == if again {
                old.removed + k
            } else {
                old.removed as int
            }
            &&& st.skip_to == if again && 0 < k < b.len() {
                Some(1int)
            } else {
                None
            }
            &&& st.seen == if k == 0 || decl_uuid(b[0]) is None {
                old.seen
            } else {
                old.seen.insert(uppercase(decl_uuid(b[0])->Some_0))
            }
        }),
    decreases k,
{
    let old = decls_run(a);
    if k == 0 {
        assert(a + b.take(0) =~= a);
        assert(old.out + b.take(0) =~= old.out);
        assert(depth_of(b.take(0)) == 0);
    } else {
        lemma_decl_piece(a, b, k - 1);
        lemma_depth_take(b, k);
        assert(a + b.take(k) =~= a + b.take(k - 1) + seq![b[k - 1]]);
        lemma_decl_more(a + b.take(k - 1), b[k - 1]);
        assert((old.out + b.take(k - 1)).push(b[k - 1]) =~= old.out + b.take(k));
        if k < b.len() {
            assert(depth_of(b.take(k)) > 0);
        }
        if 1 < k {
            assert(depth_of(b.take(k - 1)) > 0);
        }
        if k == 1 && decl_uuid(b[0]) is Some && old.seen.contains(
            uppercase(decl_uuid(b[0])->Some_0),
        ) {
            assert(old.seen.insert(uppercase(decl_uuid(b[0])->Some_0)) =~= old.seen);
        }
    }
}

proof fn lemma_decls_plain(a: Seq<Seq<char>>, b: Seq<Seq<char>>)
    requires
        opens_no_objects(b),
        !decls_run(a).in_objects,
    ensures
        decls_run(a + b).out == decls_run(a).out + b,
        decls_run(a + b).removed == decls_run(a).removed,
        decls_run(a + b).seen == decls_run(a).seen,
        decls_run(a + b).skip_to == decls_run(a).skip_to,
        !decls_run(a + b).in_objects,
    decreases b.len(),
{
    if b.len() == 0 {
        assert(a + b =~= a);
        assert(decls_run(a).out + b =~= decls_run(a).out);
    } else {
        let rest = b.drop_last();
        assert forall|i: int| 0 <= i < rest.len() implies !opens_objects(#[trigger] rest[i]) by {
            assert(rest[i] == b[i]);
        }
        lemma_decls_plain(a, rest);
        assert(a + b =~= a + rest + seq![b.last()]);
        lemma_decl_more(a + rest, b.last());
        assert(!opens_objects(b[b.len() - 1]));
        assert((decls_run(a).out + rest).push(b.last()) =~= decls_run(a).out + b);
    }
}

proof fn lemma_less_declarations(ps: Seq<Piece>)
    requires
        ps.len() > 0,
        are_declarations(ps),
    ensures
        are_declarations(ps.drop_last()),
{
    let rest = ps.drop_last();
    assert forall|i: int| 0 <= i < rest.len() implies {
        let p = #[trigger] rest[i];
        &&& is_whole(p.lines)
        &&& match decl_uuid(p.lines[0]) {
            Some(u) => p.stays == !declared_before(rest, i, u),
            None => p.lines.len() == 1 && p.stays,
        }
    } by {
        assert(rest[i] == ps[i]);
        if let Some(u) = decl_uuid(rest[i].lines[0]) {
            lemma_same_before(rest, ps, i, u);
        }
    }
}

proof fn lemma_same_before(a: Seq<Piece>, b: Seq<Piece>, n: int, u: Seq<char>)
    requires
        n <= a.len(),
        n <= b.len(),
        forall|j: int| 0 <= j < n ==> a[j] == b[j],
    ensures
        declared_before(a, n, u) == declared_before(b, n, u),
{
    reveal(declared_before);
    if declared_before(a, n, u) {
        let j = choose|j: int|
            0 <= j < n && (#[trigger] decl_uuid(a[j].lines[0])) is Some && uppercase(
                decl_uuid(a[j].lines[0])->Some_0,
            ) == uppercase(u);
        assert(decl_uuid(b[j].lines[0]) is Some);
    }
    if declared_before(b, n, u) {
        let j = choose|j: int|
            0 <= j < n && (#[trigger] decl_uuid(b[j].lines[0])) is Some && uppercase(
                decl_uuid(b[j].lines[0])->Some_0,
            ) == uppercase(u);
        assert(decl_uuid(a[j].lines[0]) is Some);
    }
}

proof fn lemma_before_next(ps: Seq<Piece>, n: int, u: Seq<char>)
    requires
        0 <= n < ps.len(),
    ensures
        declared_before(ps, n + 1, u) == (declared_before(ps, n, u) || (decl_uuid(
            ps[n].lines[0],
        ) is Some && uppercase(decl_uuid(ps[n].lines[0])->Some_0) == uppercase(u))),
{
    reveal(declared_before);
    if declared_before(ps, n, u) {
        let j = choose|j: int|
            0 <= j < n && (#[trigger] decl_uuid(ps[j].lines[0])) is Some && uppercase(
                decl_uuid(ps[j].lines[0])->Some_0,
            ) == uppercase(u);
        assert(decl_uuid(ps[j].lines[0]) is Some);
    }
    if declared_before(ps, n + 1, u) && !declared_before(ps, n, u) {
        let j = choose|j: int|
            0 <= j < n + 1 && (#[trigger] decl_uuid(ps[j].lines[0])) is Some && uppercase(
                decl_uuid(ps[j].lines[0])->Some_0,
            ) == uppercase(u);
        assert(j == n);
    }
}

#[verifier::rlimit(40)]
#[verifier::spinoff_prover]
proof fn lemma_declarations(a: Seq<Seq<char>>, ps: Seq<Piece>)
    requires
        are_declarations(ps),
        ({
            let st = decls_run(a);
            st.in_objects && st.depth == 1 && st.skip_to is None && st.seen == Set::<
                Seq<char>,
            >::empty()
        }),
    ensures
        ({
            let old = decls_run(a);
            let st = decls_run(a + all_lines(ps));
            &&& st.in_objects
            &&& st.depth == 1
            &&& st.skip_to is None
            &&& st.out == old.out + kept_lines(ps)
            &&& st.removed == old.removed + all_lines(ps).len() - kept_lines(ps).len()
            &&& forall|u: Seq<char>| #[trigger]
                st.seen.contains(uppercase(u)) == declared_before(ps, ps.len() as int, u)
        }),
    decreases ps.len(),
{
    let old = decls_run(a);
    if ps.len() == 0 {
        reveal(declared_before);
        assert(a + all_lines(ps) =~= a);
        assert(old.out + kept_lines(ps) =~= old.out);
    } else {
        let rest = ps.drop_last();
        let n = ps.len() - 1;
        lemma_less_declarations(ps);
        lemma_declarations(a, rest);
        let mid = a + all_lines(rest);
        let b = ps.last().lines;
        assert(ps[n] == ps.last());
        assert(b.take(b.len() as int) =~= b);
        lemma_decl_piece(mid, b, b.len() as int);
        assert(a + all_lines(ps) =~= mid + b);
        let st = decls_run(a + all_lines(ps));
        assert(old.out + kept_lines(rest) + b =~= old.out + (kept_lines(rest) + b));
        assert forall|u: Seq<char>| #[trigger]
            st.seen.contains(uppercase(u)) == declared_before(ps, ps.len() as int, u) by {
            lemma_same_before(rest, ps, n, u);
            lemma_before_next(ps, n, u);
            assert(decls_run(mid).seen.contains(uppercase(u)) == declared_before(rest, n, u));
        }
        if let Some(u) = decl_uuid(b[0]) {
            lemma_same_before(rest, ps, n, u);
            assert(decls_run(mid).seen.contains(uppercase(u)) == declared_before(rest, n, u));
        }
    }
}

/// Of the objects that the block of objects declares with one UUID the first is
/// kept and the others are dropped, each from its first line to its last; and
/// nothing else is.
pub proof fn law_first_declaration_is_kept(
    before: Seq<Seq<char>>,
    open: Seq<char>,
    ps: Seq<Piece>,
    close: Seq<char>,
    rest: Seq<Seq<char>>,
)
    requires
        opens_no_objects(before),
        opens_objects(open),
        are_declarations(ps),
        line_braces(close) < 0,
        opens_no_objects(rest),
    ensures
        ({
            let ls = before + seq![open] + all_lines(ps) + seq![close] + rest;
            &&& decls_run(ls).out == before + seq![open] + kept_lines(ps) + seq![close] + rest
            &&& decls_run(ls).removed == all_lines(ps).len() - kept_lines(ps).len()
        }),
{
    let none = Seq::<Seq<char>>::empty();
    assert(none + before =~= before);
    lemma_decls_plain(none, before);
    lemma_decl_more(before, open);
    let a = before + seq![open];
    assert(decls_run(a).out =~= before + seq![open]);
    lemma_declarations(a, ps);
    let b = a + all_lines(ps);
    lemma_decl_more(b, close);
    let c = b + seq![close];
    assert(decls_run(c).out =~= before + seq![open] + kept_lines(ps) + seq![close]);
    lemma_decls_plain(c, rest);
}

// ── Items listed twice ───────────────────────────────────────────────────────

/// Lines before a list, the line that opens it, those in it, and the one that
/// closes it.
pub ghost struct Listed {
    pub before: Seq<Seq<char>>,
    pub open: Seq<char>,
    pub items: Seq<Seq<char>>,
    pub close: Seq<char>,
}

/// No line opens a list.
pub open spec fn opens_no_list(ls: Seq<Seq<char>>) -> bool {
    forall|i: int| 0 <= i < ls.len() ==> !opens_any_list(#[trigger] ls[i])
}

/// No line closes a list.
pub open spec fn closes_no_list(ls: Seq<Seq<char>>) -> bool {
    forall|i: int| 0 <= i < ls.len() ==> !closes_any_list(#[trigger] ls[i])
}

pub open spec fn is_listed(l: Listed) -> bool {
    &&& opens_no_list(l.before)
    &&& opens_any_list(l.open)
    &&& closes_no_list(l.items)
    &&& closes_any_list(l.close)
}

/// One of the lines is an item with this UUID, in whatever case.
pub open spec fn lists_already(ls: Seq<Seq<char>>, u: Seq<char>) -> bool {
    exists|j: int|
        0 <= j < ls.len() && (#[trigger] item_uuid(ls[j])) is Some && uppercase(
            item_uuid(ls[j])->Some_0,
        ) == uppercase(u)
}

/// The lines of a list without the items that stand in it before.
pub open spec fn first_items(ls: Seq<Seq<char>>) -> Seq<Seq<char>>
    decreases ls.len(),
{
    if ls.len() == 0 {
        Seq::empty()
    } else {
        let rest = ls.drop_last();
        match item_uuid(ls.last()) {
            Some(u) => if lists_already(rest, u) {
                first_items(rest)
            } else {
                first_items(rest).push(ls.last())
            },
            None => first_items(rest).push(ls.last()),
        }
    }
}

/// The lines of a text with lists.
pub open spec fn with_lists(xs: Seq<Listed>) -> Seq<Seq<char>>
    decreases xs.len(),
{
    if xs.len() == 0 {
        Seq::empty()
    } else {
        let x = xs.last();
        with_lists(xs.drop_last()) + x.before + seq![x.open] + x.items + seq![x.close]
    }
}

/// The same, with each item once in each list.
pub open spec fn with_items_once(xs: Seq<Listed>) -> Seq<Seq<char>>
    decreases xs.len(),
{
    if xs.len() == 0 {
        Seq::empty()
    } else {
        let x = xs.last();
        with_items_once(xs.drop_last()) + x.before + seq![x.open] + first_items(x.items) + seq![
            x.close,
        ]
    }
}

proof fn lemma_list_more(a: Seq<Seq<char>>, l: Seq<char>)
    ensures
        lists_run(a + seq![l]) == lists_step(lists_run(a), l),
{
    assert((a + seq![l]).drop_last() =~= a);
}

proof fn lemma_lists_plain(a: Seq<Seq<char>>, b: Seq<Seq<char>>)
    requires
        opens_no_list(b),
        !lists_run(a).in_list,
    ensures
        lists_run(a + b).out == lists_run(a).out + b,
        !lists_run(a + b).in_list,
    decreases b.len(),
{
    if b.len() == 0 {
        assert(a + b =~= a);
        assert(lists_run(a).out + b =~= lists_run(a).out);
    } else {
        let rest = b.drop_last();
        assert forall|i: int| 0 <= i < rest.len() implies !opens_any_list(#[trigger] rest[i]) by {
            assert(rest[i] == b[i]);
        }
        lemma_lists_plain(a, rest);
        assert(a + b =~= a + rest + seq![b.last()]);
        lemma_list_more(a + rest, b.last());
        assert(!opens_any_list(b[b.len() - 1]));
        assert((lists_run(a).out + rest).push(b.last()) =~= lists_run(a).out + b);
    }
}

proof fn lemma_items(a: Seq<Seq<char>>, b: Seq<Seq<char>>)
    requires
        closes_no_list(b),
        lists_run(a).in_list,
        lists_run(a).seen == Set::<Seq<char>>::empty(),
    ensures
        lists_run(a + b).out == lists_run(a).out + first_items(b),
        lists_run(a + b).in_list,
        forall|u: Seq<char>| #[trigger]
            lists_run(a + b).seen.contains(uppercase(u)) == lists_already(b, u),
    decreases b.len(),
{
    if b.len() == 0 {
        assert(a + b =~= a);
        assert(lists_run(a).out + first_items(b) =~= lists_run(a).out);
    } else {
        let rest = b.drop_last();
        let n = b.len() - 1;
        assert forall|i: int| 0 <= i < rest.len() implies !closes_any_list(#[trigger] rest[i]) by {
            assert(rest[i] == b[i]);
        }
        lemma_items(a, rest);
        assert(a + b =~= a + rest + seq![b.last()]);
        lemma_list_more(a + rest, b.last());
        assert(!closes_any_list(b[n]));
        assert((lists_run(a).out + first_items(rest)).push(b.last()) =~= lists_run(a).out
            + first_items(rest).push(b.last()));
        if let Some(u) = item_uuid(b.last()) {
            assert(lists_run(a + rest).seen.contains(uppercase(u)) == lists_already(rest, u));
        }
        assert forall|u: Seq<char>| #[trigger]
            lists_run(a + b).seen.contains(uppercase(u)) == lists_already(b, u) by {
            assert(lists_run(a + rest).seen.contains(uppercase(u)) == lists_already(rest, u));
            if lists_already(rest, u) {
                let j = choose|j: int|
                    0 <= j < rest.len() && (#[trigger] item_uuid(rest[j])) is Some && uppercase(
                        item_uuid(rest[j])->Some_0,
                    ) == uppercase(u);
                assert(item_uuid(b[j]) is Some);
            }
            if lists_already(b, u) && !lists_already(rest, u) {
                let j = choose|j: int|
                    0 <= j < b.len() && (#[trigger] item_uuid(b[j])) is Some && uppercase(
                        item_uuid(b[j])->Some_0,
                    ) == uppercase(u);
                if j < n {
                    assert(item_uuid(rest[j]) is Some);
                }
                assert(j == n);
            }
            if item_uuid(b.last()) is Some && uppercase(item_uuid(b.last())->Some_0) == uppercase(
                u,
            ) {
                assert(item_uuid(b[n]) is Some);
            }
        }
    }
}

proof fn lemma_with_lists(xs: Seq<Listed>)
    requires
        forall|i: int| 0 <= i < xs.len() ==> is_listed(#[trigger] xs[i]),
    ensures
        lists_run(with_lists(xs)).out == with_items_once(xs),
        !lists_run(with_lists(xs)).in_list,
    decreases xs.len(),
{
    if xs.len() > 0 {
        let rest = xs.drop_last();
        assert forall|i: int| 0 <= i < rest.len() implies is_listed(#[trigger] rest[i]) by {
            assert(rest[i] == xs[i]);
        }
        lemma_with_lists(rest);
        let x = xs.last();
        assert(is_listed(xs[xs.len() - 1]));
        let a = with_lists(rest);
        lemma_lists_plain(a, x.before);
        let b = a + x.before;
        lemma_list_more(b, x.open);
        let c = b + seq![x.open];
        lemma_items(c, x.items);
        let d = c + x.items;
        lemma_list_more(d, x.close);
        assert(with_lists(xs) == d + seq![x.close]);
        assert(lists_run(d + seq![x.close]).out =~= with_items_once(xs));
    }
}

/// In each list the first item of each UUID is kept and the others are dropped,
/// whatever other lists hold; and nothing else is.
pub proof fn law_first_item_is_kept(xs: Seq<Listed>, rest: Seq<Seq<char>>)
    requires
        forall|i: int| 0 <= i < xs.len() ==> is_listed(#[trigger] xs[i]),
        opens_no_list(rest),
    ensures
        lists_run(with_lists(xs) + rest).out == with_items_once(xs) + rest,
        lists_run(with_lists(xs) + rest).removed == with_lists(xs).len() - with_items_once(
            xs,
        ).len(),
{
    lemma_with_lists(xs);
    lemma_lists_plain(with_lists(xs), rest);
    let all = with_lists(xs) + rest;
    lemma_items_counted(all);
}

proof fn lemma_items_counted(ls: Seq<Seq<char>>)
    ensures
        lists_run(ls).out.len() + lists_run(ls).removed == ls.len(),
    decreases ls.len(),
{
    if ls.len() > 0 {
        lemma_items_counted(ls.drop_last());
    }
}

// ── Orphaned sections ────────────────────────────────────────────────────────

/// The line ends a section that no line begins.
pub open spec fn ends_nothing(ls: Seq<Seq<char>>, l: Seq<char>) -> bool {
    section_end(l) is Some && forall|i: int|
        0 <= i < ls.len() ==> section_begin(#[trigger] ls[i]) != section_end(l)
}

/// The line begins a section that no line ends.
pub open spec fn begins_in_vain(ls: Seq<Seq<char>>, l: Seq<char>) -> bool {
    section_begin(l) is Some && forall|i: int|
        0 <= i < ls.len() ==> section_end(#[trigger] ls[i]) != section_begin(l)
}

proof fn lemma_orphans(ls: Seq<Seq<char>>, l: Seq<char>)
    ensures
        ends_nothing(ls, l) == orphan_end(ls, l),
        begins_in_vain(ls, l) == orphan_begin(ls, l),
{
    if section_end(l) is Some {
        if crate::sanitizer::begins(ls, section_end(l)->Some_0) {
            let k = choose|k: int|
                0 <= k < ls.len() && section_begin(#[trigger] ls[k]) == Some(section_end(l)->Some_0);
            assert(section_begin(ls[k]) == section_end(l));
        }
    }
    if section_begin(l) is Some {
        if crate::sanitizer::ends(ls, section_begin(l)->Some_0) {
            let k = choose|k: int|
                0 <= k < ls.len() && section_end(#[trigger] ls[k]) == Some(section_begin(l)->Some_0);
            assert(section_end(ls[k]) == section_begin(l));
        }
    }
}

proof fn lemma_sections_kept(all: Seq<Seq<char>>, ls: Seq<Seq<char>>)
    requires
        forall|i: int| 0 <= i < ls.len() ==> !begins_in_vain(all, #[trigger] ls[i]),
    ensures
        sections_run(all, ls).out == ls.filter(|l: Seq<char>| !ends_nothing(all, l)),
        sections_run(all, ls).skip is None,
    decreases ls.len(),
{
    reveal(Seq::filter);
    if ls.len() > 0 {
        let rest = ls.drop_last();
        assert forall|i: int| 0 <= i < rest.len() implies !begins_in_vain(all, #[trigger] rest[i]) by {
            assert(rest[i] == ls[i]);
        }
        lemma_sections_kept(all, rest);
        lemma_orphans(all, ls.last());
        assert(!begins_in_vain(all, ls[ls.len() - 1]));
    }
}

proof fn lemma_sections_dropped(all: Seq<Seq<char>>, a: Seq<Seq<char>>, b: Seq<Seq<char>>)
    requires
        sections_run(all, a).skip is Some,
        forall|i: int|
            0 <= i < all.len() ==> section_end(#[trigger] all[i]) != sections_run(all, a).skip,
        forall|i: int| 0 <= i < b.len() ==> all.contains(#[trigger] b[i]),
    ensures
        sections_run(all, a + b).out == sections_run(all, a).out,
        sections_run(all, a + b).skip is Some,
        forall|i: int|
            0 <= i < all.len() ==> section_end(#[trigger] all[i]) != sections_run(all, a + b).skip,
    decreases b.len(),
{
    if b.len() == 0 {
        assert(a + b =~= a);
    } else {
        let rest = b.drop_last();
        assert forall|i: int| 0 <= i < rest.len() implies all.contains(#[trigger] rest[i]) by {
            assert(rest[i] == b[i]);
        }
        lemma_sections_dropped(all, a, rest);
        assert((a + b).drop_last() =~= a + rest);
        let l = b.last();
        assert(all.contains(b[b.len() - 1]));
        let k = choose|k: int| 0 <= k < all.len() && all[k] == l;
        assert(section_end(all[k]) != sections_run(all, a + rest).skip);
        lemma_orphans(all, l);
    }
}

/// Of a text with orphaned markers every line is kept but the markers of ends
/// without a beginning; up to the first beginning without an end, with which the
/// text stops.
pub proof fn law_sections_are_kept(ls: Seq<Seq<char>>, n: int)
    requires
        0 <= n <= ls.len(),
        forall|i: int| 0 <= i < n ==> !begins_in_vain(ls, #[trigger] ls[i]),
        n < ls.len() ==> begins_in_vain(ls, ls[n]),
    ensures
        sections_run(ls, ls).out == ls.take(n).filter(|l: Seq<char>| !ends_nothing(ls, l)),
{
    let a = ls.take(n);
    assert forall|i: int| 0 <= i < a.len() implies !begins_in_vain(ls, #[trigger] a[i]) by {
        assert(a[i] == ls[i]);
    }
    lemma_sections_kept(ls, a);
    if n < ls.len() {
        let b = ls.take(n + 1);
        let c = ls.skip(n + 1);
        assert(b.drop_last() =~= a);
        assert(b.last() == ls[n]);
        lemma_orphans(ls, ls[n]);
        assert forall|i: int| 0 <= i < c.len() implies ls.contains(#[trigger] c[i]) by {
            assert(c[i] == ls[n + 1 + i]);
        }
        lemma_sections_dropped(ls, b, c);
        assert(b + c =~= ls);
    } else {
        assert(a =~= ls);
    }
}

// ── Bodies without a header ──────────────────────────────────────────────────

/// What is left of an object whose header is gone: lines of which the first may
/// not stand in the block of objects, and the last closes the object.
pub open spec fn is_headless(b: Seq<Seq<char>>) -> bool {
    let inner = b.drop_first();
    &&& b.len() > 1
    &&& !is_object_level(b[0])
    &&& line_braces(b[0]) == 0
    &&& depth_of(inner.drop_last()) == 0
    &&& line_braces(inner.last()) < 0
    &&& forall|k: int| 0 <= k < inner.len() ==> depth_of(#[trigger] inner.take(k)) >= 0
}

/// The pieces are objects, and single lines, that may stand in the block of
/// objects, which stay; and what is left of objects whose headers are gone, which
/// does not.
pub open spec fn are_bodies(ps: Seq<Piece>) -> bool {
    forall|i: int|
        0 <= i < ps.len() ==> {
            let p = #[trigger] ps[i];
            if p.stays {
                is_whole(p.lines) && is_object_level(p.lines[0])
            } else {
                is_headless(p.lines)
            }
        }
}

proof fn lemma_body_more(a: Seq<Seq<char>>, l: Seq<char>)
    ensures
        bodies_run(a + seq![l]) == bodies_step(bodies_run(a), l),
{
    assert((a + seq![l]).drop_last() =~= a);
}

proof fn lemma_whole_body(a: Seq<Seq<char>>, b: Seq<Seq<char>>, k: int)
    requires
        is_whole(b),
        is_object_level(b[0]),
        0 <= k <= b.len(),
        ({
            let st = bodies_run(a);
            st.in_objects && st.depth == 1 && !st.in_orphan
        }),
    ensures
        ({
            let old = bodies_run(a);
            let st = bodies_run(a + b.take(k));
            &&& st.in_objects
            &&& st.depth == 1 + depth_of(b.take(k))
            &&& !st.in_orphan
            &&& st.out == old.out + b.take(k)
            &&& st.removed == old.removed
        }),
    decreases k,
{
    let old = bodies_run(a);
    if k == 0 {
        assert(a + b.take(0) =~= a);
        assert(old.out + b.take(0) =~= old.out);
        assert(depth_of(b.take(0)) == 0);
    } else {
        lemma_whole_body(a, b, k - 1);
        lemma_depth_take(b, k);
        assert(a + b.take(k) =~= a + b.take(k - 1) + seq![b[k - 1]]);
        lemma_body_more(a + b.take(k - 1), b[k - 1]);
        assert((old.out + b.take(k - 1)).push(b[k - 1]) =~= old.out + b.take(k));
        if k < b.len() {
            assert(depth_of(b.take(k)) > 0);
        }
        if 1 < k {
            assert(depth_of(b.take(k - 1)) > 0);
        }
    }
}

proof fn lemma_headless_body(a: Seq<Seq<char>>, b: Seq<Seq<char>>, k: int)
    requires
        is_headless(b),
        0 < k <= b.len(),
        ({
            let st = bodies_run(a);
            st.in_objects && st.depth == 1 && !st.in_orphan
        }),
    ensures
        ({
            let old = bodies_run(a);
            let st = bodies_run(a + b.take(k));
            &&& st.in_objects
            &&& st.out == old.out
            &&& st.removed == old.removed + k
            &&& k < b.len() ==> st.in_orphan && st.depth == 1 + depth_of(b.drop_first().take(k - 1))
            &&& k == b.len() ==> !st.in_orphan && st.depth == 1
        }),
    decreases k,
{
    let inner = b.drop_first();
    assert(a + b.take(k) =~= a + b.take(k - 1) + seq![b[k - 1]]);
    lemma_body_more(a + b.take(k - 1), b[k - 1]);
    if k == 1 {
        assert(a + b.take(0) =~= a);
        assert(depth_of(inner.take(0)) == 0);
    } else {
        lemma_headless_body(a, b, k - 1);
        assert(b[k - 1] == inner[k - 2]);
        lemma_depth_take(inner, k - 1);
        if k < b.len() {
            assert(depth_of(inner.take(k - 1)) >= 0);
        } else {
            assert(inner.take(k - 2) =~= inner.drop_last());
            assert(inner[k - 2] == inner.last());
        }
    }
}

proof fn lemma_bodies_plain(a: Seq<Seq<char>>, b: Seq<Seq<char>>)
    requires
        opens_no_objects(b),
        !bodies_run(a).in_objects,
    ensures
        bodies_run(a + b).out == bodies_run(a).out + b,
        bodies_run(a + b).removed == bodies_run(a).removed,
        bodies_run(a + b).in_orphan == bodies_run(a).in_orphan,
        !bodies_run(a + b).in_objects,
    decreases b.len(),
{
    if b.len() == 0 {
        assert(a + b =~= a);
        assert(bodies_run(a).out + b =~= bodies_run(a).out);
    } else {
        let rest = b.drop_last();
        assert forall|i: int| 0 <= i < rest.len() implies !opens_objects(#[trigger] rest[i]) by {
            assert(rest[i] == b[i]);
        }
        lemma_bodies_plain(a, rest);
        assert(a + b =~= a + rest + seq![b.last()]);
        lemma_body_more(a + rest, b.last());
        assert(!opens_objects(b[b.len() - 1]));
        assert((bodies_run(a).out + rest).push(b.last()) =~= bodies_run(a).out + b);
    }
}

proof fn lemma_bodies(a: Seq<Seq<char>>, ps: Seq<Piece>)
    requires
        are_bodies(ps),
        ({
            let st = bodies_run(a);
            st.in_objects && st.depth == 1 && !st.in_orphan
        }),
    ensures
        ({
            let old = bodies_run(a);
            let st = bodies_run(a + all_lines(ps));
            &&& st.in_objects
            &&& st.depth == 1
            &&& !st.in_orphan
            &&& st.out == old.out + kept_lines(ps)
            &&& st.removed == old.removed + all_lines(ps).len() - kept_lines(ps).len()
        }),
    decreases ps.len(),
{
    let old = bodies_run(a);
    if ps.len() == 0 {
        assert(a + all_lines(ps) =~= a);
        assert(old.out + kept_lines(ps) =~= old.out);
    } else {
        let rest = ps.drop_last();
        assert forall|i: int| 0 <= i < rest.len() implies {
            let p = #[trigger] rest[i];
            if p.stays {
                is_whole(p.lines) && is_object_level(p.lines[0])
            } else {
                is_headless(p.lines)
            }
        } by {
            assert(rest[i] == ps[i]);
        }
        lemma_bodies(a, rest);
        let mid = a + all_lines(rest);
        let b = ps.last().lines;
        assert(ps[ps.len() - 1] == ps.last());
        assert(b.take(b.len() as int) =~= b);
        assert(a + all_lines(ps) =~= mid + b);
        if ps.last().stays {
            lemma_whole_body(mid, b, b.len() as int);
            assert(old.out + kept_lines(rest) + b =~= old.out + (kept_lines(rest) + b));
        } else {
            lemma_headless_body(mid, b, b.len() as int);
        }
    }
}

/// What is left in the block of objects of objects whose headers are gone is
/// dropped, each from its first line to the one that closes it; and nothing else
/// is.
pub proof fn law_objects_with_headers_are_kept(
    before: Seq<Seq<char>>,
    open: Seq<char>,
    ps: Seq<Piece>,
    close: Seq<char>,
    rest: Seq<Seq<char>>,
)
    requires
        opens_no_objects(before),
        opens_objects(open),
        are_bodies(ps),
        line_braces(close) < 0,
        opens_no_objects(rest),
    ensures
        ({
            let ls = before + seq![open] + all_lines(ps) + seq![close] + rest;
            &&& bodies_run(ls).out == before + seq![open] + kept_lines(ps) + seq![close] + rest
            &&& bodies_run(ls).removed == all_lines(ps).len() - kept_lines(ps).len()
        }),
{
    let none = Seq::<Seq<char>>::empty();
    assert(none + before =~= before);
    lemma_bodies_plain(none, before);
    lemma_body_more(before, open);
    let a = before + seq![open];
    assert(bodies_run(a).out =~= before + seq![open]);
    lemma_bodies(a, ps);
    let b = a + all_lines(ps);
    lemma_body_more(b, close);
    let c = b + seq![close];
    assert(bodies_run(c).out =~= before + seq![open] + kept_lines(ps) + seq![close]);
    lemma_bodies_plain(c, rest);
}

// ── Target attributes ────────────────────────────────────────────────────────

/// No line begins the section of the project.
pub open spec fn begins_no_project(ls: Seq<Seq<char>>) -> bool {
    forall|i: int|
        0 <= i < ls.len() ==> !has_substring(#[trigger] ls[i], "/* Begin PBXProject section */"@)
}

/// No line ends the section of the project, or opens attributes.
pub open spec fn goes_on(ls: Seq<Seq<char>>) -> bool {
    forall|i: int|
        0 <= i < ls.len() ==> !has_substring(#[trigger] ls[i], "/* End PBXProject section */"@)
            && !"attributes = {"@.is_prefix_of(trimmed_start(ls[i]))
}

/// No line opens attributes.
pub open spec fn opens_no_attributes(ls: Seq<Seq<char>>) -> bool {
    forall|i: int|
        0 <= i < ls.len() ==> !"attributes = {"@.is_prefix_of(trimmed_start(#[trigger] ls[i]))
}

/// Some line holds target attributes.
pub open spec fn has_target_attributes(ls: Seq<Seq<char>>) -> bool {
    exists|i: int| 0 <= i < ls.len() && is_target_attributes(#[trigger] ls[i])
}

/// A text whose project has attributes: the lines before the section of the
/// project, the one that begins it, those up to the class of the project, the one
/// that holds it, those up to the attributes, the one that opens them, those inside,
/// the one that closes them, and the rest.
pub ghost struct Attributed {
    pub before: Seq<Seq<char>>,
    pub begin: Seq<char>,
    pub upper: Seq<Seq<char>>,
    pub class: Seq<char>,
    pub lower: Seq<Seq<char>>,
    pub open: Seq<char>,
    pub inside: Seq<Seq<char>>,
    pub close: Seq<char>,
    pub rest: Seq<Seq<char>>,
}

pub open spec fn is_attributed(t: Attributed) -> bool {
    &&& begins_no_project(t.before) && opens_no_attributes(t.before)
    &&& has_substring(t.begin, "/* Begin PBXProject section */"@)
    &&& goes_on(seq![t.begin]) && goes_on(t.upper) && goes_on(seq![t.class]) && goes_on(t.lower)
    &&& has_substring(t.class, "isa = PBXProject;"@)
    &&& "attributes = {"@.is_prefix_of(trimmed_start(t.open))
    &&& !has_substring(t.open, "/* End PBXProject section */"@)
    &&& goes_on(t.inside)
    &&& forall|k: int| 0 <= k <= t.inside.len() ==> depth_of(#[trigger] t.inside.take(k)) >= 0
    &&& depth_of(t.inside) + line_braces(t.close) < 0
    &&& !is_target_attributes(t.close)
    &&& opens_no_attributes(t.rest)
}

/// The lines of the text, with other lines before the one that closes the
/// attributes.
pub open spec fn attributed_lines(t: Attributed, added: Seq<Seq<char>>) -> Seq<Seq<char>> {
    t.before + seq![t.begin] + t.upper + seq![t.class] + t.lower + seq![t.open] + t.inside + added
        + seq![t.close] + t.rest
}

proof fn lemma_attribute_more(a: Seq<Seq<char>>, l: Seq<char>)
    ensures
        attributes_run(a + seq![l]) == attributes_step(attributes_run(a), l),
{
    assert((a + seq![l]).drop_last() =~= a);
}

/// Lines outside attributes, none of which opens attributes.
proof fn lemma_attributes_plain(a: Seq<Seq<char>>, b: Seq<Seq<char>>)
    requires
        opens_no_attributes(b),
        !attributes_run(a).in_attributes,
    ensures
        ({
            let old = attributes_run(a);
            let st = attributes_run(a + b);
            &&& st.out == old.out + b
            &&& !st.in_attributes
            &&& st.added == old.added
            &&& goes_on(b) && old.in_section ==> st.in_section
            &&& goes_on(b) && old.in_object ==> st.in_object
        }),
    decreases b.len(),
{
    let old = attributes_run(a);
    if b.len() == 0 {
        assert(a + b =~= a);
        assert(old.out + b =~= old.out);
    } else {
        let rest = b.drop_last();
        assert forall|i: int| 0 <= i < rest.len() implies !"attributes = {"@.is_prefix_of(
            trimmed_start(#[trigger] rest[i]),
        ) by {
            assert(rest[i] == b[i]);
        }
        lemma_attributes_plain(a, rest);
        if goes_on(b) {
            assert forall|i: int| 0 <= i < rest.len() implies !has_substring(
                #[trigger] rest[i],
                "/* End PBXProject section */"@,
            ) && !"attributes = {"@.is_prefix_of(trimmed_start(rest[i])) by {
                assert(rest[i] == b[i]);
            }
        }
        assert(a + b =~= a + rest + seq![b.last()]);
        lemma_attribute_more(a + rest, b.last());
        assert(b[b.len() - 1] == b.last());
        assert((old.out + rest).push(b.last()) =~= old.out + b);
    }
}

/// Lines inside attributes.
proof fn lemma_attributes_inside(a: Seq<Seq<char>>, b: Seq<Seq<char>>, k: int)
    requires
        0 <= k <= b.len(),
        goes_on(b),
        forall|k: int| 0 <= k <= b.len() ==> depth_of(#[trigger] b.take(k)) >= 0,
        attributes_run(a).in_attributes,
        attributes_run(a).depth == 1,
        !attributes_run(a).seen,
    ensures
        ({
            let old = attributes_run(a);
            let st = attributes_run(a + b.take(k));
            &&& st.out == old.out + b.take(k)
            &&& st.in_attributes
            &&& st.depth == 1 + depth_of(b.take(k))
            &&& st.seen == has_target_attributes(b.take(k))
            &&& st.added == old.added
        }),
    decreases k,
{
    let old = attributes_run(a);
    if k == 0 {
        assert(a + b.take(0) =~= a);
        assert(old.out + b.take(0) =~= old.out);
        assert(depth_of(b.take(0)) == 0);
    } else {
        lemma_attributes_inside(a, b, k - 1);
        lemma_depth_take(b, k);
        assert(depth_of(b.take(k)) >= 0);
        let less = b.take(k - 1);
        let more = b.take(k);
        let l = b[k - 1];
        assert(a + more =~= a + less + seq![l]);
        lemma_attribute_more(a + less, l);
        assert((old.out + less).push(l) =~= old.out + more);
        if has_target_attributes(less) {
            let i = choose|i: int| 0 <= i < less.len() && is_target_attributes(#[trigger] less[i]);
            assert(is_target_attributes(more[i]));
        }
        if is_target_attributes(l) {
            assert(is_target_attributes(more[k - 1]));
        }
        if has_target_attributes(more) && !is_target_attributes(l) {
            let i = choose|i: int| 0 <= i < more.len() && is_target_attributes(#[trigger] more[i]);
            assert(i < k - 1);
            assert(is_target_attributes(less[i]));
        }
    }
}

/// No line before the section of the project makes it the project's.
proof fn lemma_no_project(ls: Seq<Seq<char>>)
    requires
        begins_no_project(ls),
    ensures
        !attributes_run(ls).in_section,
        !attributes_run(ls).in_object,
        !attributes_run(ls).in_attributes,
        !attributes_run(ls).added,
        attributes_run(ls).out == ls,
    decreases ls.len(),
{
    if ls.len() > 0 {
        let rest = ls.drop_last();
        assert forall|i: int| 0 <= i < rest.len() implies !has_substring(
            #[trigger] rest[i],
            "/* Begin PBXProject section */"@,
        ) by {
            assert(rest[i] == ls[i]);
        }
        lemma_no_project(rest);
        assert(ls[ls.len() - 1] == ls.last());
        assert(rest.push(ls.last()) =~= ls);
    }
}

/// The attributes of a project that lack target attributes get an empty block of
/// them, as their last member, indented by one tab more than the line that closes
/// them; those that have them are left as they are; and nothing else changes.
#[verifier::rlimit(40)]
pub proof fn law_missing_wrapper_is_added(t: Attributed)
    requires
        is_attributed(t),
    ensures
        ({
            let space = t.close.take(indent(t.close) as int);
            let st = attributes_run(attributed_lines(t, Seq::empty()));
            if has_target_attributes(t.inside) {
                st.out == attributed_lines(t, Seq::empty()) && !st.added
            } else {
                st.out == attributed_lines(
                    t,
                    seq![space + "\tTargetAttributes = {"@, space + "\t};"@],
                ) && st.added
            }
        }),
{
    let space = t.close.take(indent(t.close) as int);
    lemma_no_project(t.before);
    let a = t.before;
    lemma_attribute_more(a, t.begin);
    assert(goes_on(seq![t.begin]));
    assert(seq![t.begin][0] == t.begin);
    let b = a + seq![t.begin];
    assert(attributes_run(b).out =~= b);
    lemma_goes_on(t.upper);
    lemma_attributes_plain(b, t.upper);
    let c = b + t.upper;
    lemma_attribute_more(c, t.class);
    assert(seq![t.class][0] == t.class);
    let d = c + seq![t.class];
    assert(attributes_run(d).out =~= d);
    lemma_goes_on(t.lower);
    lemma_attributes_plain(d, t.lower);
    let e = d + t.lower;
    lemma_attribute_more(e, t.open);
    let f = e + seq![t.open];
    assert(attributes_run(f).out =~= f);
    assert(t.inside.take(t.inside.len() as int) =~= t.inside);
    lemma_attributes_inside(f, t.inside, t.inside.len() as int);
    let g = f + t.inside;
    lemma_attribute_more(g, t.close);
    let h = g + seq![t.close];
    lemma_attributes_plain(h, t.rest);
    assert(attributed_lines(t, Seq::empty()) =~= h + t.rest);
    if has_target_attributes(t.inside) {
        assert(attributes_run(h).out =~= h);
    } else {
        let added = seq![space + "\tTargetAttributes = {"@, space + "\t};"@];
        assert(attributes_run(h).out =~= g + added + seq![t.close]);
        assert(attributed_lines(t, added) =~= g + added + seq![t.close] + t.rest);
    }
}

proof fn lemma_goes_on(ls: Seq<Seq<char>>)
    requires
        goes_on(ls),
    ensures
        opens_no_attributes(ls),
{
    assert forall|i: int| 0 <= i < ls.len() implies !"attributes = {"@.is_prefix_of(
        trimmed_start(#[trigger] ls[i]),
    ) by {
    }
}

// ── Whole texts ──────────────────────────────────────────────────────────────

/// A text whose objects are declared twice is repaired to the text in which the first
/// of each is left.
pub proof fn law_first_declaration_of_text(
    s: Seq<char>,
    before: Seq<Seq<char>>,
    open: Seq<char>,
    ps: Seq<Piece>,
    close: Seq<char>,
    rest: Seq<Seq<char>>,
)
    requires
        opens_no_objects(before),
        opens_objects(open),
        are_declarations(ps),
        line_braces(close) < 0,
        opens_no_objects(rest),
        lines_of(pass_text(s, 1)) == before + seq![open] + all_lines(ps) + seq![close] + rest,
    ensures
        pass_text(s, 2) == unlines(before + seq![open] + kept_lines(ps) + seq![close] + rest),
{
    reveal_with_fuel(pass_text, 2);
    law_first_declaration_is_kept(before, open, ps, close, rest);
}

/// A text whose lists hold items twice is repaired to the text in which the first of
/// each is left in each list.
pub proof fn law_first_item_of_text(s: Seq<char>, xs: Seq<Listed>, rest: Seq<Seq<char>>)
    requires
        forall|i: int| 0 <= i < xs.len() ==> is_listed(#[trigger] xs[i]),
        opens_no_list(rest),
        lines_of(pass_text(s, 2)) == with_lists(xs) + rest,
    ensures
        pass_text(s, 3) == unlines(with_items_once(xs) + rest),
{
    reveal_with_fuel(pass_text, 2);
    law_first_item_is_kept(xs, rest);
}

/// A text with orphaned markers is repaired to the text without them, up to the first
/// beginning without an end.
pub proof fn law_sections_of_text(s: Seq<char>, n: int)
    requires
        ({
            let ls = lines_of(pass_text(s, 3));
            &&& 0 <= n <= ls.len()
            &&& forall|i: int| 0 <= i < n ==> !begins_in_vain(ls, #[trigger] ls[i])
            &&& n < ls.len() ==> begins_in_vain(ls, ls[n])
        }),
    ensures
        ({
            let ls = lines_of(pass_text(s, 3));
            if has_orphan(ls) {
                pass_text(s, 4) == unlines(
                    ls.take(n).filter(|l: Seq<char>| !ends_nothing(ls, l)),
                )
            } else {
                pass_text(s, 4) == pass_text(s, 3)
            }
        }),
{
    reveal_with_fuel(pass_text, 2);
    law_sections_are_kept(lines_of(pass_text(s, 3)), n);
}

/// A text with what is left of objects whose headers are gone is repaired to the text
/// without that.
pub proof fn law_headers_of_text(
    s: Seq<char>,
    before: Seq<Seq<char>>,
    open: Seq<char>,
    ps: Seq<Piece>,
    close: Seq<char>,
    rest: Seq<Seq<char>>,
)
    requires
        opens_no_objects(before),
        opens_objects(open),
        are_bodies(ps),
        line_braces(close) < 0,
        opens_no_objects(rest),
        lines_of(pass_text(s, 4)) == before + seq![open] + all_lines(ps) + seq![close] + rest,
    ensures
        pass_text(s, 5) == unlines(before + seq![open] + kept_lines(ps) + seq![close] + rest),
{
    reveal_with_fuel(pass_text, 2);
    law_objects_with_headers_are_kept(before, open, ps, close, rest);
}

/// A text whose project lacks target attributes is repaired to the text with an empty
/// block of them.
pub proof fn law_wrapper_of_text(s: Seq<char>, t: Attributed)
    requires
        is_attributed(t),
        !has_target_attributes(t.inside),
        lines_of(pass_text(s, 5)) == attributed_lines(t, Seq::empty()),
    ensures
        ({
            let space = t.close.take(indent(t.close) as int);
            pass_text(s, 6) == unlines(
                attributed_lines(t, seq![space + "\tTargetAttributes = {"@, space + "\t};"@]),
            )
        }),
{
    reveal_with_fuel(pass_text, 2);
    law_missing_wrapper_is_added(t);
}

} // verus!
