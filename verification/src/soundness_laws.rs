//! What a repaired text does not hold any more.

use crate::pattern::{decl_uuid, is_marker, is_separator};
use crate::sanitizer::{
    attributes_run, bodies_run, closing_line, conflicts_run, cut, decls_run, decls_step,
    line_braces, lists_run, pass_text, read_run, sanitized, sections_run, without_garbage,
};
use crate::sanitizer_laws::{lemma_closing_line, lemma_line_end};
use crate::text::{
    are_plain_lines, indent, is_blank, is_plain_line, is_white, lemma_indent_bound,
    lemma_lines_of_unlines, lines_of, unlines, uppercase,
};
use vstd::prelude::*;

verus! {

/// The predicate holds of every line.
pub open spec fn all_hold(holds: spec_fn(Seq<char>) -> bool, ls: Seq<Seq<char>>) -> bool {
    forall|i: int| 0 <= i < ls.len() ==> holds(#[trigger] ls[i])
}

proof fn lemma_hold_split(holds: spec_fn(Seq<char>) -> bool, ls: Seq<Seq<char>>)
    requires
        all_hold(holds, ls),
        ls.len() > 0,
    ensures
        all_hold(holds, ls.drop_last()),
        holds(ls.last()),
{
    assert forall|i: int| 0 <= i < ls.drop_last().len() implies holds(
        #[trigger] ls.drop_last()[i],
    ) by {
        assert(ls.drop_last()[i] == ls[i]);
    }
    assert(holds(ls[ls.len() - 1]));
}

proof fn lemma_hold_push(holds: spec_fn(Seq<char>) -> bool, ls: Seq<Seq<char>>, l: Seq<char>)
    requires
        all_hold(holds, ls),
        holds(l),
    ensures
        all_hold(holds, ls.push(l)),
{
    assert forall|i: int| 0 <= i < ls.len() + 1 implies holds(#[trigger] ls.push(l)[i]) by {
        if i < ls.len() {
            assert(ls.push(l)[i] == ls[i]);
        }
    }
}

// ── Lines that a pass keeps ──────────────────────────────────────────────────

proof fn lemma_decls_hold(holds: spec_fn(Seq<char>) -> bool, ls: Seq<Seq<char>>)
    requires
        all_hold(holds, ls),
    ensures
        all_hold(holds, decls_run(ls).out),
    decreases ls.len(),
{
    if ls.len() > 0 {
        lemma_hold_split(holds, ls);
        lemma_decls_hold(holds, ls.drop_last());
        lemma_hold_push(holds, decls_run(ls.drop_last()).out, ls.last());
    }
}

proof fn lemma_lists_hold(holds: spec_fn(Seq<char>) -> bool, ls: Seq<Seq<char>>)
    requires
        all_hold(holds, ls),
    ensures
        all_hold(holds, lists_run(ls).out),
    decreases ls.len(),
{
    if ls.len() > 0 {
        lemma_hold_split(holds, ls);
        lemma_lists_hold(holds, ls.drop_last());
        lemma_hold_push(holds, lists_run(ls.drop_last()).out, ls.last());
    }
}

proof fn lemma_sections_hold(
    holds: spec_fn(Seq<char>) -> bool,
    all: Seq<Seq<char>>,
    ls: Seq<Seq<char>>,
)
    requires
        all_hold(holds, ls),
    ensures
        all_hold(holds, sections_run(all, ls).out),
    decreases ls.len(),
{
    if ls.len() > 0 {
        lemma_hold_split(holds, ls);
        lemma_sections_hold(holds, all, ls.drop_last());
        lemma_hold_push(holds, sections_run(all, ls.drop_last()).out, ls.last());
    }
}

proof fn lemma_bodies_hold(holds: spec_fn(Seq<char>) -> bool, ls: Seq<Seq<char>>)
    requires
        all_hold(holds, ls),
    ensures
        all_hold(holds, bodies_run(ls).out),
    decreases ls.len(),
{
    if ls.len() > 0 {
        lemma_hold_split(holds, ls);
        lemma_bodies_hold(holds, ls.drop_last());
        lemma_hold_push(holds, bodies_run(ls.drop_last()).out, ls.last());
    }
}

/// The predicate holds of the lines that are added for a line of which it holds.
pub open spec fn holds_of_added(holds: spec_fn(Seq<char>) -> bool) -> bool {
    forall|l: Seq<char>| #[trigger]
        holds(l) ==> {
            let space = l.take(indent(l) as int);
            holds(space + "\tTargetAttributes = {"@) && holds(space + "\t};"@)
        }
}

proof fn lemma_attributes_hold(holds: spec_fn(Seq<char>) -> bool, ls: Seq<Seq<char>>)
    requires
        all_hold(holds, ls),
        holds_of_added(holds),
    ensures
        all_hold(holds, attributes_run(ls).out),
    decreases ls.len(),
{
    if ls.len() > 0 {
        lemma_hold_split(holds, ls);
        lemma_attributes_hold(holds, ls.drop_last());
        let st = attributes_run(ls.drop_last());
        let line = ls.last();
        let space = line.take(indent(line) as int);
        lemma_hold_push(holds, st.out, line);
        lemma_hold_push(holds, st.out, space + "\tTargetAttributes = {"@);
        let one = st.out.push(space + "\tTargetAttributes = {"@);
        lemma_hold_push(holds, one, space + "\t};"@);
        lemma_hold_push(holds, one.push(space + "\t};"@), line);
    }
}

proof fn lemma_filter_hold(
    holds: spec_fn(Seq<char>) -> bool,
    keep: spec_fn(Seq<char>) -> bool,
    ls: Seq<Seq<char>>,
)
    requires
        all_hold(holds, ls),
    ensures
        all_hold(holds, ls.filter(keep)),
    decreases ls.len(),
{
    reveal(Seq::filter);
    if ls.len() > 0 {
        lemma_hold_split(holds, ls);
        lemma_filter_hold(holds, keep, ls.drop_last());
        lemma_hold_push(holds, ls.drop_last().filter(keep), ls.last());
    }
}

/// What holds of a line holds of a part of it that ends in a closing brace.
spec fn holds_of_cut(holds: spec_fn(Seq<char>) -> bool) -> bool {
    forall|l: Seq<char>, c: int|
        holds(l) && 0 < c <= l.len() && l[c - 1] == '}' ==> holds(#[trigger] l.take(c))
}

proof fn lemma_garbage_hold(holds: spec_fn(Seq<char>) -> bool, ls: Seq<Seq<char>>)
    requires
        all_hold(holds, ls),
        holds_of_cut(holds),
    ensures
        all_hold(holds, without_garbage(ls)),
{
    lemma_closing_line(ls, ls.len() as int);
    if closing_line(ls, ls.len() as int) is Some {
        let k = closing_line(ls, ls.len() as int)->Some_0;
        assert(ls.take(k + 1).drop_last() =~= ls.take(k));
        let before = read_run(ls.take(k));
        lemma_line_end(ls[k], 0, before.place, before.depth);
        let c = read_run(ls.take(k + 1)).end->Some_0;
        let keep = |l: Seq<char>| is_blank(l);
        let tail = ls.skip(k + 1);
        assert forall|i: int| 0 <= i < tail.len() implies holds(#[trigger] tail[i]) by {
            assert(tail[i] == ls[k + 1 + i]);
        }
        lemma_filter_hold(holds, keep, tail);
        let kept = tail.filter(keep);
        let all = without_garbage(ls);
        assert(all == ls.take(k).push(cut(ls[k], c)) + kept);
        assert(holds(ls[k]));
        assert(holds(cut(ls[k], c)));
        assert forall|i: int| 0 <= i < all.len() implies holds(#[trigger] all[i]) by {
            if i < k {
                assert(all[i] == ls[i]);
            } else if i > k {
                assert(all[i] == kept[i - k - 1]);
            }
        }
    }
}

proof fn lemma_cut_line(l: Seq<char>, c: int)
    requires
        is_plain_line(l),
        0 < c <= l.len(),
        l[c - 1] == '}',
    ensures
        is_plain_line(l.take(c)),
        forall|m: char| #[trigger] is_marker(l.take(c), m) ==> is_marker(l, m),
        !is_separator(l.take(c)),
{
    let t = l.take(c);
    assert(t.last() == '}');
    assert forall|m: char| #[trigger] is_marker(t, m) implies is_marker(l, m) by {
        assert forall|i: int| 0 <= i < 7 implies l[i] == m by {
            assert(t[i] == l[i]);
        }
    }
}

/// What holds of all lines once conflicts are resolved holds of the repaired
/// text, if it is a property of plain lines.
proof fn lemma_sanitized_hold(holds: spec_fn(Seq<char>) -> bool, s: Seq<char>)
    requires
        all_hold(holds, conflicts_run(lines_of(s)).out),
        holds_of_added(holds),
        holds_of_cut(holds),
        forall|l: Seq<char>| #[trigger] holds(l) ==> is_plain_line(l),
    ensures
        all_hold(holds, lines_of(sanitized(s))),
{
    reveal_with_fuel(pass_text, 8);
    lemma_back(holds, conflicts_run(lines_of(s)).out);
    let t1 = lines_of(pass_text(s, 1));
    lemma_decls_hold(holds, t1);
    lemma_back(holds, decls_run(t1).out);
    let t2 = lines_of(pass_text(s, 2));
    lemma_lists_hold(holds, t2);
    lemma_back(holds, lists_run(t2).out);
    let t3 = lines_of(pass_text(s, 3));
    lemma_sections_hold(holds, t3, t3);
    lemma_back(holds, sections_run(t3, t3).out);
    let t4 = lines_of(pass_text(s, 4));
    lemma_bodies_hold(holds, t4);
    lemma_back(holds, bodies_run(t4).out);
    let t5 = lines_of(pass_text(s, 5));
    lemma_attributes_hold(holds, t5);
    lemma_back(holds, attributes_run(t5).out);
    let t6 = lines_of(pass_text(s, 6));
    lemma_garbage_hold(holds, t6);
    lemma_back(holds, without_garbage(t6));
}

/// Lines with the property are read back from the text that holds them.
proof fn lemma_back(holds: spec_fn(Seq<char>) -> bool, ls: Seq<Seq<char>>)
    requires
        all_hold(holds, ls),
        forall|l: Seq<char>| #[trigger] holds(l) ==> is_plain_line(l),
    ensures
        lines_of(unlines(ls)) == ls,
{
    assert(are_plain_lines(ls)) by {
        assert forall|i: int| 0 <= i < ls.len() implies is_plain_line(#[trigger] ls[i]) by {
            assert(holds(ls[i]));
        }
    }
    lemma_lines_of_unlines(ls);
}

// ── Conflict markers ─────────────────────────────────────────────────────────

/// A line that opens, parts or closes a conflict.
pub open spec fn marks_conflict(l: Seq<char>) -> bool {
    is_marker(l, '<') || is_marker(l, '>') || is_separator(l)
}

/// Every line that parts or closes a conflict does so with a conflict that was
/// opened.
pub open spec fn conflicts_are_opened(ls: Seq<Seq<char>>) -> bool {
    forall|i: int|
        0 <= i < ls.len() && (is_marker(#[trigger] ls[i], '>') || is_separator(ls[i]))
            ==> conflicts_run(ls.take(i)).inside
}

proof fn lemma_no_markers(ls: Seq<Seq<char>>)
    requires
        are_plain_lines(ls),
        conflicts_are_opened(ls),
    ensures
        all_hold(|l: Seq<char>| is_plain_line(l) && !marks_conflict(l), conflicts_run(ls).out),
    decreases ls.len(),
{
    let holds = |l: Seq<char>| is_plain_line(l) && !marks_conflict(l);
    if ls.len() > 0 {
        let rest = ls.drop_last();
        let line = ls.last();
        assert(is_plain_line(ls[ls.len() - 1]));
        assert forall|i: int| 0 <= i < rest.len() implies is_plain_line(#[trigger] rest[i]) by {
            assert(rest[i] == ls[i]);
        }
        assert forall|i: int|
            0 <= i < rest.len() && (is_marker(#[trigger] rest[i], '>') || is_separator(rest[i]))
            implies conflicts_run(rest.take(i)).inside by {
            assert(rest[i] == ls[i]);
            assert(rest.take(i) =~= ls.take(i));
        }
        lemma_no_markers(rest);
        assert(ls.take(ls.len() - 1) =~= rest);
        let st = conflicts_run(rest);
        if is_marker(line, '>') || is_separator(line) {
            assert(is_marker(ls[ls.len() - 1], '>') || is_separator(ls[ls.len() - 1]));
            assert(st.inside);
        }
        if !marks_conflict(line) {
            lemma_hold_push(holds, st.out, line);
        }
    }
}

proof fn lemma_added_line(l: Seq<char>, more: Seq<char>)
    requires
        is_plain_line(l),
        is_plain_line(more),
        more.len() > 0,
        is_white(more[0]),
    ensures
        is_plain_line(l.take(indent(l) as int) + more),
        !marks_conflict(l.take(indent(l) as int) + more),
{
    lemma_indent_bound(l);
    let n = indent(l) as int;
    let added = l.take(n) + more;
    assert(is_white(added[0])) by {
        if n > 0 {
            assert(added[0] == l[0]);
        } else {
            assert(added[0] == more[0]);
        }
    }
    assert(added.last() == more.last());
    if is_separator(added) {
        assert(added[0] == '=');
    }
}

/// A repaired text holds no conflict markers, if every line of the text that
/// parts or closes a conflict does so with a conflict that was opened.
pub proof fn law_no_conflict_marker_left(s: Seq<char>)
    requires
        are_plain_lines(lines_of(s)),
        conflicts_are_opened(lines_of(s)),
    ensures
        forall|i: int|
            0 <= i < lines_of(sanitized(s)).len() ==> !marks_conflict(
                #[trigger] lines_of(sanitized(s))[i],
            ),
{
    let holds = |l: Seq<char>| is_plain_line(l) && !marks_conflict(l);
    lemma_no_markers(lines_of(s));
    assert(holds_of_added(holds)) by {
        reveal_strlit("\tTargetAttributes = {");
        reveal_strlit("\t};");
        assert forall|l: Seq<char>| #[trigger] holds(l) implies {
            let space = l.take(indent(l) as int);
            holds(space + "\tTargetAttributes = {"@) && holds(space + "\t};"@)
        } by {
            lemma_added_line(l, "\tTargetAttributes = {"@);
            lemma_added_line(l, "\t};"@);
        }
    }
    assert(holds_of_cut(holds)) by {
        assert forall|l: Seq<char>, c: int|
            holds(l) && 0 < c <= l.len() && l[c - 1] == '}' implies holds(#[trigger] l.take(c)) by {
            lemma_cut_line(l, c);
        }
    }
    lemma_sanitized_hold(holds, s);
    let out = lines_of(sanitized(s));
    assert forall|i: int| 0 <= i < out.len() implies !marks_conflict(#[trigger] out[i]) by {
        assert(holds(out[i]));
    }
}

/// A repaired text holds no line that opens a conflict.
pub proof fn law_no_conflict_opened(s: Seq<char>)
    requires
        are_plain_lines(lines_of(s)),
    ensures
        forall|i: int|
            0 <= i < lines_of(sanitized(s)).len() ==> !is_marker(
                #[trigger] lines_of(sanitized(s))[i],
                '<',
            ),
{
    let holds = |l: Seq<char>| is_plain_line(l) && !is_marker(l, '<');
    lemma_no_openings(lines_of(s));
    assert(holds_of_added(holds)) by {
        reveal_strlit("\tTargetAttributes = {");
        reveal_strlit("\t};");
        assert forall|l: Seq<char>| #[trigger] holds(l) implies {
            let space = l.take(indent(l) as int);
            holds(space + "\tTargetAttributes = {"@) && holds(space + "\t};"@)
        } by {
            lemma_added_line(l, "\tTargetAttributes = {"@);
            lemma_added_line(l, "\t};"@);
        }
    }
    assert(holds_of_cut(holds)) by {
        assert forall|l: Seq<char>, c: int|
            holds(l) && 0 < c <= l.len() && l[c - 1] == '}' implies holds(#[trigger] l.take(c)) by {
            lemma_cut_line(l, c);
        }
    }
    lemma_sanitized_hold(holds, s);
    let out = lines_of(sanitized(s));
    assert forall|i: int| 0 <= i < out.len() implies !is_marker(#[trigger] out[i], '<') by {
        assert(holds(out[i]));
    }
}

proof fn lemma_no_openings(ls: Seq<Seq<char>>)
    requires
        are_plain_lines(ls),
    ensures
        all_hold(|l: Seq<char>| is_plain_line(l) && !is_marker(l, '<'), conflicts_run(ls).out),
    decreases ls.len(),
{
    let holds = |l: Seq<char>| is_plain_line(l) && !is_marker(l, '<');
    if ls.len() > 0 {
        let rest = ls.drop_last();
        assert(is_plain_line(ls[ls.len() - 1]));
        assert forall|i: int| 0 <= i < rest.len() implies is_plain_line(#[trigger] rest[i]) by {
            assert(rest[i] == ls[i]);
        }
        lemma_no_openings(rest);
        if !is_marker(ls.last(), '<') {
            lemma_hold_push(holds, conflicts_run(rest).out, ls.last());
        }
    }
}

// ── Declarations ─────────────────────────────────────────────────────────────

/// The UUID, in upper case, of the object that line `i` declares directly inside
/// the objects block.
pub open spec fn declared_at(ls: Seq<Seq<char>>, i: int) -> Option<Seq<char>> {
    let st = decls_run(ls.take(i));
    if st.in_objects && st.depth == 1 && st.depth + line_braces(ls[i]) > 0 {
        match decl_uuid(ls[i]) {
            Some(u) => Some(uppercase(u)),
            None => None,
        }
    } else {
        None
    }
}

/// Nothing is dropped, and what was declared is known.
proof fn lemma_declared(ls: Seq<Seq<char>>, n: int)
    requires
        0 <= n <= ls.len(),
        decls_run(ls).removed == 0,
    ensures
        decls_run(ls.take(n)).removed == 0,
        decls_run(ls.take(n)).skip_to is None,
        forall|i: int|
            0 <= i < n && (#[trigger] declared_at(ls, i)) is Some ==> decls_run(
                ls.take(n),
            ).seen.contains(declared_at(ls, i)->Some_0),
        forall|i: int, j: int|
            0 <= i < j < n && (#[trigger] declared_at(ls, i)) is Some && (#[trigger] declared_at(
                ls,
                j,
            )) is Some ==> declared_at(ls, i) != declared_at(ls, j),
    decreases n,
{
    lemma_removed_grows(ls, n);
    if n > 0 {
        lemma_declared(ls, n - 1);
        assert(ls.take(n).drop_last() =~= ls.take(n - 1));
        let before = decls_run(ls.take(n - 1));
        let line = ls[n - 1];
        assert(decls_run(ls.take(n)) == decls_step(before, line));
        assert forall|i: int, j: int|
            0 <= i < j < n && (#[trigger] declared_at(ls, i)) is Some && (#[trigger] declared_at(
                ls,
                j,
            )) is Some implies declared_at(ls, i) != declared_at(ls, j) by {
            if j == n - 1 {
                assert(before.seen.contains(declared_at(ls, i)->Some_0));
                assert(decl_uuid(line) is Some);
                assert(!before.seen.contains(uppercase(decl_uuid(line)->Some_0)));
            }
        }
    }
}

proof fn lemma_removed_grows(ls: Seq<Seq<char>>, n: int)
    requires
        0 <= n <= ls.len(),
    ensures
        decls_run(ls.take(n)).removed <= decls_run(ls).removed,
    decreases ls.len(),
{
    if n == ls.len() {
        assert(ls.take(n) =~= ls);
    } else {
        lemma_removed_grows(ls.drop_last(), n);
        assert(ls.drop_last().take(n) =~= ls.take(n));
    }
}

/// Once duplicates are dropped, no two objects of the objects block have one
/// UUID.
pub proof fn law_objects_have_distinct_uuids(s: Seq<char>, i: int, j: int)
    requires
        are_plain_lines(lines_of(s)),
        0 <= i < j < decls_run(lines_of(s)).out.len(),
        declared_at(decls_run(lines_of(s)).out, i) is Some,
        declared_at(decls_run(lines_of(s)).out, j) is Some,
    ensures
        declared_at(decls_run(lines_of(s)).out, i) != declared_at(
            decls_run(lines_of(s)).out,
            j,
        ),
{
    let out = decls_run(lines_of(s)).out;
    crate::sanitizer_laws::law_objects_deduplicated_once(s);
    lemma_decls_hold(|l: Seq<char>| is_plain_line(l), lines_of(s));
    lemma_back(|l: Seq<char>| is_plain_line(l), out);
    lemma_declared(out, out.len() as int);
}

} // verus!
