//! What holds of the repair passes as a whole: a pass finds nothing left to do
//! in its own result.

use crate::pattern::is_marker;
use crate::sanitizer::{
    attributes_run, attributes_step, bodies_run, bodies_step, brace_sum, closes_in, closing_line,
    conflicts_run, conflicts_step, cut, decls_run, decls_step, has_orphan, is_pair, line_braces,
    line_read, lists_run, lists_step, orphan_begin, orphan_end, parts_tokens, pass_text, read_run,
    sanitized, sections_run, sections_step, without_garbage, Place,
};
use crate::text::{
    are_plain_lines, has_substring, indent, is_blank, is_plain_line, is_white, lemma_indent,
    lemma_indent_bound, lemma_lines_of_unlines, lines_of, occurs_at, trimmed_start, unlines,
};
use vstd::prelude::*;

verus! {

proof fn lemma_plain_drop_last(ls: Seq<Seq<char>>)
    requires
        are_plain_lines(ls),
        ls.len() > 0,
    ensures
        are_plain_lines(ls.drop_last()),
        is_plain_line(ls.last()),
{
    assert forall|i: int| 0 <= i < ls.drop_last().len() implies is_plain_line(
        #[trigger] ls.drop_last()[i],
    ) by {
        assert(ls.drop_last()[i] == ls[i]);
    }
    assert(ls.last() == ls[ls.len() - 1]);
}

// ── Merge conflicts ──────────────────────────────────────────────────────────

pub proof fn lemma_conflicts_twice(ls: Seq<Seq<char>>)
    ensures
        ({
            let out = conflicts_run(ls).out;
            let again = conflicts_run(out);
            &&& again.out == out
            &&& again.hunks == 0
            &&& !again.inside
            &&& forall|k: int| 0 <= k < out.len() ==> !is_marker(#[trigger] out[k], '<')
            &&& are_plain_lines(ls) ==> are_plain_lines(out)
        }),
    decreases ls.len(),
{
    if ls.len() > 0 {
        let before = conflicts_run(ls.drop_last());
        lemma_conflicts_twice(ls.drop_last());
        if are_plain_lines(ls) {
            lemma_plain_drop_last(ls);
        }
        let st = conflicts_step(before, ls.last());
        if st.out != before.out {
            assert(st.out.drop_last() =~= before.out);
        }
    }
}

/// Resolving conflicts leaves no conflict: no line of the result opens one, and
/// resolving again changes nothing.
pub proof fn law_conflicts_resolved_once(s: Seq<char>)
    requires
        are_plain_lines(lines_of(s)),
    ensures
        ({
            let out = conflicts_run(lines_of(s)).out;
            &&& forall|k: int| 0 <= k < out.len() ==> !is_marker(#[trigger] out[k], '<')
            &&& conflicts_run(lines_of(unlines(out))).out == out
            &&& conflicts_run(lines_of(unlines(out))).hunks == 0
        }),
{
    lemma_conflicts_twice(lines_of(s));
    lemma_lines_of_unlines(conflicts_run(lines_of(s)).out);
}

/// A text in which no line opens a conflict keeps all its lines.
pub proof fn law_no_conflict_no_change(ls: Seq<Seq<char>>)
    requires
        forall|k: int| 0 <= k < ls.len() ==> !is_marker(#[trigger] ls[k], '<'),
    ensures
        conflicts_run(ls).out == ls,
        conflicts_run(ls).hunks == 0,
        !conflicts_run(ls).inside,
    decreases ls.len(),
{
    if ls.len() > 0 {
        assert forall|k: int| 0 <= k < ls.drop_last().len() implies !is_marker(
            #[trigger] ls.drop_last()[k],
            '<',
        ) by {
            assert(ls.drop_last()[k] == ls[k]);
        }
        law_no_conflict_no_change(ls.drop_last());
        assert(ls.last() == ls[ls.len() - 1]);
        assert(ls.drop_last().push(ls.last()) =~= ls);
    }
}

// ── Duplicate object declarations ────────────────────────────────────────────

pub proof fn lemma_decls_twice(ls: Seq<Seq<char>>)
    ensures
        ({
            let st = decls_run(ls);
            let again = decls_run(st.out);
            &&& again.out == st.out
            &&& again.removed == 0
            &&& again.skip_to is None
            &&& again.in_objects == st.in_objects
            &&& again.seen == st.seen
            &&& st.skip_to is Some ==> st.skip_to == Some(1int) && st.depth > 1
                && st.in_objects
            &&& st.in_objects ==> again.depth == if st.skip_to is Some {
                1
            } else {
                st.depth
            }
            &&& are_plain_lines(ls) ==> are_plain_lines(st.out)
        }),
    decreases ls.len(),
{
    if ls.len() > 0 {
        let before = decls_run(ls.drop_last());
        lemma_decls_twice(ls.drop_last());
        if are_plain_lines(ls) {
            lemma_plain_drop_last(ls);
        }
        let st = decls_step(before, ls.last());
        if st.out.len() > before.out.len() {
            assert(st.out.drop_last() =~= before.out);
            assert(st.out.last() == ls.last());
        }
    }
}

/// Dropping duplicate objects leaves no duplicate: dropping again changes
/// nothing.
pub proof fn law_objects_deduplicated_once(s: Seq<char>)
    requires
        are_plain_lines(lines_of(s)),
    ensures
        ({
            let out = decls_run(lines_of(s)).out;
            &&& decls_run(lines_of(unlines(out))).out == out
            &&& decls_run(lines_of(unlines(out))).removed == 0
        }),
{
    lemma_decls_twice(lines_of(s));
    lemma_lines_of_unlines(decls_run(lines_of(s)).out);
}

// ── Duplicate list items ─────────────────────────────────────────────────────

pub proof fn lemma_lists_twice(ls: Seq<Seq<char>>)
    ensures
        ({
            let st = lists_run(ls);
            let again = lists_run(st.out);
            &&& again == crate::sanitizer::Lists { removed: 0, ..st }
            &&& are_plain_lines(ls) ==> are_plain_lines(st.out)
        }),
    decreases ls.len(),
{
    if ls.len() > 0 {
        let before = lists_run(ls.drop_last());
        lemma_lists_twice(ls.drop_last());
        if are_plain_lines(ls) {
            lemma_plain_drop_last(ls);
        }
        let st = lists_step(before, ls.last());
        if st.out.len() > before.out.len() {
            assert(st.out.drop_last() =~= before.out);
        }
    }
}

/// Dropping duplicate items leaves no duplicate: dropping again changes
/// nothing.
pub proof fn law_items_deduplicated_once(s: Seq<char>)
    requires
        are_plain_lines(lines_of(s)),
    ensures
        ({
            let out = lists_run(lines_of(s)).out;
            &&& lists_run(lines_of(unlines(out))).out == out
            &&& lists_run(lines_of(unlines(out))).removed == 0
        }),
{
    lemma_lists_twice(lines_of(s));
    lemma_lines_of_unlines(lists_run(lines_of(s)).out);
}

// ── Orphaned sections ────────────────────────────────────────────────────────

/// Of the section markers, only those are kept that have a counterpart.
pub proof fn law_no_orphan_kept(all: Seq<Seq<char>>, ls: Seq<Seq<char>>)
    ensures
        forall|k: int|
            0 <= k < sections_run(all, ls).out.len() ==> !orphan_begin(
                all,
                #[trigger] sections_run(all, ls).out[k],
            ) && !orphan_end(all, sections_run(all, ls).out[k]),
    decreases ls.len(),
{
    if ls.len() > 0 {
        law_no_orphan_kept(all, ls.drop_last());
        let before = sections_run(all, ls.drop_last());
        let st = sections_step(all, before, ls.last());
        assert forall|k: int| 0 <= k < st.out.len() implies !orphan_begin(
            all,
            #[trigger] st.out[k],
        ) && !orphan_end(all, st.out[k]) by {
            if k < before.out.len() {
                assert(st.out[k] == before.out[k]);
            }
        }
    }
}

// ── Orphaned object bodies ───────────────────────────────────────────────────

/// Each body without a header ends at a brace that closes nothing else.
pub open spec fn orphans_end_alone(ls: Seq<Seq<char>>) -> bool
    decreases ls.len(),
{
    if ls.len() == 0 {
        true
    } else {
        let before = bodies_run(ls.drop_last());
        &&& orphans_end_alone(ls.drop_last())
        &&& before.in_orphan && !bodies_run(ls).in_orphan ==> before.depth == 1
    }
}

proof fn lemma_bodies_twice(ls: Seq<Seq<char>>)
    requires
        orphans_end_alone(ls),
    ensures
        ({
            let st = bodies_run(ls);
            let again = bodies_run(st.out);
            &&& again.out == st.out
            &&& again.removed == 0
            &&& !again.in_orphan
            &&& again.in_objects == st.in_objects
            &&& st.in_orphan ==> st.in_objects && st.depth >= 1
            &&& st.in_objects ==> again.depth == if st.in_orphan {
                1
            } else {
                st.depth
            }
            &&& are_plain_lines(ls) ==> are_plain_lines(st.out)
        }),
    decreases ls.len(),
{
    if ls.len() > 0 {
        let before = bodies_run(ls.drop_last());
        lemma_bodies_twice(ls.drop_last());
        if are_plain_lines(ls) {
            lemma_plain_drop_last(ls);
        }
        let st = bodies_step(before, ls.last());
        if st.out.len() > before.out.len() {
            assert(st.out.drop_last() =~= before.out);
        }
    }
}

/// Dropping bodies without a header leaves none: dropping again changes
/// nothing.
pub proof fn law_bodies_removed_once(s: Seq<char>)
    requires
        are_plain_lines(lines_of(s)),
        orphans_end_alone(lines_of(s)),
    ensures
        ({
            let out = bodies_run(lines_of(s)).out;
            &&& bodies_run(lines_of(unlines(out))).out == out
            &&& bodies_run(lines_of(unlines(out))).removed == 0
        }),
{
    lemma_bodies_twice(lines_of(s));
    lemma_lines_of_unlines(bodies_run(lines_of(s)).out);
}

// ── Target attributes ────────────────────────────────────────────────────────

/// Attributes that are complete are left alone: where no wrapper is added, the
/// lines are those of the input.
pub proof fn law_no_wrapper_no_change(ls: Seq<Seq<char>>)
    requires
        !attributes_run(ls).added,
    ensures
        attributes_run(ls).out == ls,
    decreases ls.len(),
{
    if ls.len() > 0 {
        law_no_wrapper_no_change(ls.drop_last());
        assert(ls.drop_last().push(ls.last()) =~= ls);
    }
}

/// How many attributes of the project end without target attributes.
pub open spec fn lacking(ls: Seq<Seq<char>>) -> nat
    decreases ls.len(),
{
    if ls.len() == 0 {
        0
    } else {
        let before = attributes_run(ls.drop_last());
        let after = attributes_run(ls);
        if before.in_attributes && !after.in_attributes && !after.seen {
            lacking(ls.drop_last()) + 1
        } else {
            lacking(ls.drop_last())
        }
    }
}

/// No character of `line` is `c`, so no text that holds `c` occurs in it.
pub proof fn lemma_lacks(line: Seq<char>, p: Seq<char>, c: char)
    requires
        forall|i: int| 0 <= i < line.len() ==> line[i] != c,
        p.len() > 0,
        exists|i: int| 0 <= i < p.len() && p[i] == c,
    ensures
        !has_substring(line, p),
{
    if has_substring(line, p) {
        let at = choose|i: int| occurs_at(line, p, i);
        let k = choose|i: int| 0 <= i < p.len() && p[i] == c;
        assert(line.subrange(at, at + p.len())[k] == line[at + k]);
    }
}

proof fn lemma_braces_after_space(line: Seq<char>, n: int)
    requires
        0 <= n <= line.len(),
        forall|i: int| 0 <= i < n ==> is_white(line[i]),
    ensures
        line_braces(line) == brace_sum(line, n, false),
    decreases n,
{
    if n > 0 {
        lemma_braces_after_space(line, n - 1);
    }
}

/// The two lines of an empty wrapper.
#[verifier::rlimit(60)]
#[verifier::spinoff_prover]
pub proof fn lemma_wrapper_lines(space: Seq<char>)
    requires
        forall|i: int| 0 <= i < space.len() ==> is_white(#[trigger] space[i]),
    ensures
        ({
            let open = space + "\tTargetAttributes = {"@;
            let close = space + "\t};"@;
            &&& "TargetAttributes ="@.is_prefix_of(trimmed_start(open))
            &&& line_braces(open) == 1
            &&& line_braces(close) == -1
            &&& !has_substring(open, "/* Begin PBXProject section */"@)
            &&& !has_substring(open, "/* End PBXProject section */"@)
            &&& !has_substring(open, "isa = PBXProject;"@)
            &&& !has_substring(close, "/* Begin PBXProject section */"@)
            &&& !has_substring(close, "/* End PBXProject section */"@)
            &&& !has_substring(close, "isa = PBXProject;"@)
        }),
{
    reveal_strlit("\tTargetAttributes = {");
    reveal_strlit("\t};");
    reveal_strlit("TargetAttributes =");
    reveal_strlit("/* Begin PBXProject section */");
    reveal_strlit("/* End PBXProject section */");
    reveal_strlit("isa = PBXProject;");
    let n = space.len() as int;
    let open = space + "\tTargetAttributes = {"@;
    let close = space + "\t};"@;
    assert(open.len() == n + 21);
    assert(forall|i: int| 0 <= i < n ==> open[i] == space[i]);
    assert(forall|i: int| 0 <= i < n ==> close[i] == space[i]);
    lemma_indent(open, n + 1);
    assert("TargetAttributes ="@ =~= trimmed_start(open).subrange(0, 18));
    lemma_braces_after_space(open, n + 1);
    lemma_braces_after_space(close, n + 1);
    assert(brace_sum(open, n + 1, false) == 1) by {
        reveal_with_fuel(brace_sum, 23);
    }
    assert(brace_sum(close, n + 1, false) == -1) by {
        reveal_with_fuel(brace_sum, 5);
    }
    assert("/* Begin PBXProject section */"@[0] == '/');
    assert("/* End PBXProject section */"@[0] == '/');
    assert("isa = PBXProject;"@[6] == 'P');
    lemma_lacks(open, "/* Begin PBXProject section */"@, '/');
    lemma_lacks(open, "/* End PBXProject section */"@, '/');
    lemma_lacks(open, "isa = PBXProject;"@, 'P');
    lemma_lacks(close, "/* Begin PBXProject section */"@, '/');
    lemma_lacks(close, "/* End PBXProject section */"@, '/');
    lemma_lacks(close, "isa = PBXProject;"@, 'P');
}

proof fn lemma_wrapper_plain(space: Seq<char>, line: Seq<char>)
    requires
        is_plain_line(line),
        space == line.take(indent(line) as int),
    ensures
        is_plain_line(space + "\tTargetAttributes = {"@),
        is_plain_line(space + "\t};"@),
        forall|i: int| 0 <= i < space.len() ==> is_white(#[trigger] space[i]),
{
    reveal_strlit("\tTargetAttributes = {");
    reveal_strlit("\t};");
    lemma_indent_bound(line);
    assert(forall|i: int| 0 <= i < space.len() ==> space[i] == line[i]);
}

#[verifier::rlimit(30)]
pub proof fn lemma_attributes_twice(ls: Seq<Seq<char>>)
    requires
        are_plain_lines(ls),
        lacking(ls) <= 1,
    ensures
        ({
            let st = attributes_run(ls);
            let again = attributes_run(st.out);
            &&& again.out == st.out
            &&& !again.added
            &&& again.in_section == st.in_section
            &&& again.in_object == st.in_object
            &&& again.in_attributes == st.in_attributes
            &&& st.in_attributes ==> again.depth == st.depth && again.seen == st.seen
            &&& st.in_attributes ==> st.depth > 0
            &&& st.added == (lacking(ls) == 1)
            &&& are_plain_lines(st.out)
        }),
    decreases ls.len(),
{
    if ls.len() > 0 {
        let line = ls.last();
        let before = attributes_run(ls.drop_last());
        lemma_plain_drop_last(ls);
        lemma_attributes_twice(ls.drop_last());
        let st = attributes_step(before, line);
        if st.added && !before.added {
            let space = line.take(indent(line) as int);
            let open = space + "\tTargetAttributes = {"@;
            let close = space + "\t};"@;
            lemma_wrapper_plain(space, line);
            lemma_wrapper_lines(space);
            let one = before.out.push(open);
            let two = one.push(close);
            assert(st.out =~= two.push(line));
            assert(st.out.drop_last() =~= two);
            assert(two.drop_last() =~= one);
            assert(one.drop_last() =~= before.out);
            let b0 = attributes_run(before.out);
            let b1 = attributes_run(one);
            assert(b1 == attributes_step(b0, open));
            assert(b1.in_attributes && b1.seen && !b1.added && b1.depth == b0.depth + 1);
            let b2 = attributes_run(two);
            assert(b2 == attributes_step(b1, close));
            assert(b2.in_attributes && b2.seen && !b2.added && b2.depth == b0.depth);
            assert(b2.out =~= two);
            assert(attributes_run(st.out) == attributes_step(b2, line));
        } else {
            assert(st.out.drop_last() =~= before.out);
        }
    }
}

/// Where the attributes of one project at most lack their target attributes,
/// adding the wrapper again changes nothing.
pub proof fn law_wrapper_added_once(s: Seq<char>)
    requires
        are_plain_lines(lines_of(s)),
        lacking(lines_of(s)) <= 1,
    ensures
        ({
            let out = attributes_run(lines_of(s)).out;
            &&& attributes_run(lines_of(unlines(out))).out == out
            &&& !attributes_run(lines_of(unlines(out))).added
        }),
{
    lemma_attributes_twice(lines_of(s));
    lemma_lines_of_unlines(attributes_run(lines_of(s)).out);
}

// ── All passes ───────────────────────────────────────────────────────────────

pub proof fn lemma_nothing_removed(ls: Seq<Seq<char>>)
    ensures
        conflicts_run(ls).hunks == 0 ==> conflicts_run(ls).out == ls && !conflicts_run(ls).inside,
        decls_run(ls).removed == 0 ==> decls_run(ls).out == ls && decls_run(ls).skip_to is None,
        lists_run(ls).removed == 0 ==> lists_run(ls).out == ls,
        bodies_run(ls).removed == 0 ==> bodies_run(ls).out == ls && !bodies_run(ls).in_orphan,
    decreases ls.len(),
{
    if ls.len() > 0 {
        lemma_nothing_removed(ls.drop_last());
        assert(ls.drop_last().push(ls.last()) =~= ls);
    }
}

proof fn lemma_filter_all(ls: Seq<Seq<char>>)
    requires
        forall|k: int| 0 <= k < ls.len() ==> is_blank(#[trigger] ls[k]),
    ensures
        ls.filter(|l: Seq<char>| is_blank(l)) == ls,
    decreases ls.len(),
{
    reveal(Seq::filter);
    if ls.len() > 0 {
        assert forall|k: int| 0 <= k < ls.drop_last().len() implies is_blank(
            #[trigger] ls.drop_last()[k],
        ) by {
            assert(ls.drop_last()[k] == ls[k]);
        }
        lemma_filter_all(ls.drop_last());
        assert(is_blank(ls[ls.len() - 1]));
        assert(ls.drop_last().push(ls.last()) =~= ls);
    }
}

// ── Trailing garbage ─────────────────────────────────────────────────────────

/// What is left of a line whose column `c` is behind the brace that closes the
/// document: the same brace closes it.
pub proof fn lemma_line_end(line: Seq<char>, i: int, place: Place, depth: nat)
    requires
        0 <= i,
    ensures
        ({
            let st = line_read(line, i, place, depth);
            st.end is Some ==> {
                let c = st.end->Some_0;
                &&& i < c <= line.len()
                &&& line[c - 1] == '}'
                &&& st.place == Place::Nowhere
                &&& line_read(line.take(c), i, place, depth) == st
            }
        }),
    decreases line.len() - i,
{
    let st = line_read(line, i, place, depth);
    if st.end is Some {
        let c = st.end->Some_0;
        let ch = line[i];
        match place {
            Place::Nowhere => {},
            Place::Quote => {
                if ch == '\\' && i + 1 < line.len() {
                    lemma_line_end(line, i + 2, place, depth);
                } else if ch == '"' {
                    lemma_line_end(line, i + 1, Place::Between, depth);
                } else {
                    lemma_line_end(line, i + 1, place, depth);
                }
            },
            Place::Comment => {
                if is_pair(line, i, '*', '/') {
                    lemma_line_end(line, i + 2, Place::Between, depth);
                } else {
                    lemma_line_end(line, i + 1, place, depth);
                }
            },
            _ => {
                if is_pair(line, i, '/', '*') {
                    lemma_line_end(line, i + 2, Place::Comment, depth);
                } else if ch == '{' {
                    lemma_line_end(line, i + 1, Place::Between, depth + 1);
                } else if depth > 1 && ch == '}' {
                    lemma_line_end(line, i + 1, Place::Between, (depth - 1) as nat);
                } else if ch == '"' && place == Place::Between && depth > 0 {
                    lemma_line_end(line, i + 1, Place::Quote, depth);
                } else if parts_tokens(ch) {
                    lemma_line_end(line, i + 1, Place::Between, depth);
                } else if depth > 0 && ch != '}' {
                    lemma_line_end(line, i + 1, Place::Word, depth);
                }
            },
        }
    }
}

/// Nothing closes a document again, and a text that is none stays none.
proof fn lemma_nowhere(ls: Seq<Seq<char>>, k: int, n: int)
    requires
        closes_in(ls, k),
        k < n <= ls.len(),
    ensures
        read_run(ls.take(n)).place == Place::Nowhere,
        n > k + 1 ==> read_run(ls.take(n)).end is None,
    decreases n,
{
    assert(ls.take(n).drop_last() =~= ls.take(n - 1));
    let st = read_run(ls.take(n - 1));
    lemma_line_end(ls[n - 1], 0, st.place, st.depth);
    if n > k + 1 {
        lemma_nowhere(ls, k, n - 1);
    }
}

/// The line in which the document closes is the only one.
pub proof fn lemma_closing_line(ls: Seq<Seq<char>>, n: int)
    requires
        0 <= n <= ls.len(),
    ensures
        closing_line(ls, n) is Some ==> closes_in(ls, closing_line(ls, n)->Some_0)
            && closing_line(ls, n)->Some_0 < n,
        forall|k: int|
            0 <= k < n && #[trigger] closes_in(ls, k) ==> closing_line(ls, n) == Some(k),
    decreases n,
{
    if n > 0 {
        lemma_closing_line(ls, n - 1);
        assert forall|k: int| 0 <= k < n && #[trigger] closes_in(ls, k) implies closing_line(ls, n)
            == Some(k) by {
            if k < n - 1 {
                lemma_nowhere(ls, k, n);
            }
        }
    }
}

/// Nothing but white space stands behind the document.
pub open spec fn nothing_behind(ls: Seq<Seq<char>>) -> bool {
    match closing_line(ls, ls.len() as int) {
        Some(k) => {
            &&& is_blank(ls[k].skip(read_run(ls.take(k + 1)).end->Some_0))
            &&& forall|i: int| k < i < ls.len() ==> is_blank(#[trigger] ls[i])
        },
        None => true,
    }
}

pub proof fn lemma_nothing_behind(ls: Seq<Seq<char>>)
    requires
        nothing_behind(ls),
    ensures
        without_garbage(ls) == ls,
{
    match closing_line(ls, ls.len() as int) {
        Some(k) => {
            lemma_closing_line(ls, ls.len() as int);
            lemma_filter_all(ls.skip(k + 1));
            assert(ls.take(k).push(ls[k]) + ls.skip(k + 1) =~= ls);
        },
        None => {},
    }
}

proof fn lemma_filter_blank(ls: Seq<Seq<char>>)
    ensures
        ({
            let out = ls.filter(|l: Seq<char>| is_blank(l));
            forall|k: int| 0 <= k < out.len() ==> is_blank(#[trigger] out[k])
        }),
    decreases ls.len(),
{
    reveal(Seq::filter);
    if ls.len() > 0 {
        lemma_filter_blank(ls.drop_last());
    }
}

/// Dropping what stands behind the document leaves nothing behind it: doing so
/// again changes nothing.
pub proof fn law_garbage_dropped_once(ls: Seq<Seq<char>>)
    ensures
        nothing_behind(without_garbage(ls)),
        without_garbage(without_garbage(ls)) == without_garbage(ls),
{
    let out = without_garbage(ls);
    let n = ls.len() as int;
    lemma_closing_line(ls, n);
    match closing_line(ls, n) {
        Some(k) => {
            let before = read_run(ls.take(k));
            let line = ls[k];
            assert(ls.take(k + 1).drop_last() =~= ls.take(k));
            lemma_line_end(line, 0, before.place, before.depth);
            let c = read_run(ls.take(k + 1)).end->Some_0;
            assert(c == line_read(line, 0, before.place, before.depth).end->Some_0);
            let tail = ls.skip(k + 1).filter(|l: Seq<char>| is_blank(l));
            lemma_filter_blank(ls.skip(k + 1));
            assert(out == ls.take(k).push(cut(line, c)) + tail);
            assert(out[k] == cut(line, c));
            assert(out.take(k) =~= ls.take(k));
            assert(out.take(k + 1).drop_last() =~= ls.take(k));
            assert(out.take(k + 1).last() == cut(line, c));
            assert(read_run(out.take(k + 1)).end == Some(c));
            assert(is_blank(cut(line, c).skip(c))) by {
                if !is_blank(line.skip(c)) {
                    assert(line.take(c).skip(c) =~= Seq::empty());
                    assert(is_blank(Seq::empty()));
                }
            }
            assert forall|i: int| k < i < out.len() implies is_blank(#[trigger] out[i]) by {
                assert(out[i] == tail[i - k - 1]);
            }
            assert(closes_in(out, k));
            lemma_closing_line(out, out.len() as int);
            lemma_nothing_behind(out);
        },
        None => {},
    }
}

/// A text that is no closed document, or behind which nothing stands, keeps its
/// lines.
pub proof fn law_no_garbage_no_change(ls: Seq<Seq<char>>)
    requires
        nothing_behind(ls),
    ensures
        without_garbage(ls) == ls,
{
    lemma_nothing_behind(ls);
}

// ── Nothing to repair ────────────────────────────────────────────────────────

/// A text with nothing to repair keeps all its lines.
pub proof fn law_sound_text_unchanged(s: Seq<char>)
    requires
        are_plain_lines(lines_of(s)),
        conflicts_run(lines_of(s)).hunks == 0,
        decls_run(lines_of(s)).removed == 0,
        lists_run(lines_of(s)).removed == 0,
        !has_orphan(lines_of(s)),
        bodies_run(lines_of(s)).removed == 0,
        !attributes_run(lines_of(s)).added,
        nothing_behind(lines_of(s)),
    ensures
        sanitized(s) == unlines(lines_of(s)),
{
    let ls = lines_of(s);
    lemma_nothing_removed(ls);
    law_no_wrapper_no_change(ls);
    lemma_lines_of_unlines(ls);
    lemma_nothing_behind(ls);
    reveal_with_fuel(pass_text, 8);
}

} // verus!
