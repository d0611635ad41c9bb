//! Repairing a text again changes nothing.

use crate::pattern::{decl_uuid, is_hex, item_uuid, section_begin, section_end, starts_hex};
use crate::sanitizer::{
    attributes_run, attributes_step, begins, bodies_run, bodies_step, closes_any_list,
    closing_line, conflicts_run, cut, decls_run, decls_step, ends, has_orphan, is_object_level,
    is_repair, line_braces, lists_run, lists_step, opens_any_list, opens_objects, orphan_begin,
    orphan_end, pass_text, read_run, sanitized, sections_run, without_garbage, SanitizeStats,
};
use crate::sanitizer_laws::{
    lacking, law_garbage_dropped_once, law_no_conflict_no_change, law_no_wrapper_no_change,
    lemma_attributes_twice, lemma_closing_line, lemma_conflicts_twice, lemma_decls_twice,
    lemma_line_end, lemma_lists_twice, lemma_nothing_behind, lemma_nothing_removed,
    lemma_wrapper_lines, nothing_behind,
};
use crate::soundness_laws::law_no_conflict_opened;
use crate::text::{
    are_plain_lines, indent, is_blank, is_plain_line, is_white, lemma_indent, lemma_indent_bound,
    lemma_lines_of_unlines, lines_of, trimmed, trimmed_end, trimmed_start, unlines,
};
use vstd::prelude::*;

verus! {

// ── Lines without effect ─────────────────────────────────────────────────────

/// A line that begins with a UUID, as an item, opens no objects block.
proof fn lemma_item_line(l: Seq<char>)
    requires
        item_uuid(l) is Some,
    ensures
        !opens_objects(l),
{
    reveal_strlit("objects = {");
    let t = trimmed_start(l);
    assert(is_hex(t[0])) by {
        if starts_hex(t, 24) {
        } else {
            assert(starts_hex(t, 32));
        }
    }
    if opens_objects(l) {
        assert(t.subrange(0, 11)[0] == t[0]);
        assert("objects = {"@[0] == 'o');
    }
}

/// A line whose first character behind the indentation is no hexadecimal digit
/// begins with no UUID.
proof fn lemma_no_uuid(l: Seq<char>)
    requires
        trimmed_start(l).len() > 0 ==> !is_hex(trimmed_start(l)[0]),
    ensures
        item_uuid(l) is None,
        decl_uuid(l) is None,
{
    let t = trimmed_start(l);
    assert(!starts_hex(t, 24) && !starts_hex(t, 32)) by {
        if t.len() > 0 {
            assert(!is_hex(t[0]));
        }
    }
}

/// The line marks the begin or the end of a section.
pub open spec fn marks_section(l: Seq<char>) -> bool {
    section_begin(l) is Some || section_end(l) is Some
}

proof fn lemma_trimmed_end(s: Seq<char>)
    requires
        s.len() > 0,
        !is_white(s.last()),
    ensures
        trimmed_end(s) == s,
{
}

/// What the lines of an empty wrapper are not.
#[verifier::rlimit(60)]
#[verifier::spinoff_prover]
proof fn lemma_wrapper_effect(space: Seq<char>)
    requires
        forall|i: int| 0 <= i < space.len() ==> is_white(#[trigger] space[i]),
    ensures
        ({
            let open = space + "\tTargetAttributes = {"@;
            let close = space + "\t};"@;
            &&& item_uuid(open) is None && item_uuid(close) is None
            &&& decl_uuid(open) is None && decl_uuid(close) is None
            &&& !opens_objects(open) && !opens_objects(close)
            &&& !opens_any_list(open) && !opens_any_list(close)
            &&& !closes_any_list(open) && !closes_any_list(close)
        }),
{
    reveal_strlit("\tTargetAttributes = {");
    reveal_strlit("\t};");
    reveal_strlit("objects = {");
    reveal_strlit("= (");
    reveal_strlit("(");
    reveal_strlit(");");
    reveal_strlit(")");
    let n = space.len() as int;
    let open = space + "\tTargetAttributes = {"@;
    let close = space + "\t};"@;
    assert(forall|i: int| 0 <= i < n ==> open[i] == space[i]);
    assert(forall|i: int| 0 <= i < n ==> close[i] == space[i]);
    lemma_indent(open, n + 1);
    lemma_indent(close, n + 1);
    let a = trimmed_start(open);
    let b = trimmed_start(close);
    assert(a.len() == 20 && a[0] == 'T' && a.last() == '{');
    assert(b.len() == 2 && b[0] == '}' && b[1] == ';');
    lemma_no_uuid(open);
    lemma_no_uuid(close);
    if opens_objects(open) {
        assert(a.subrange(0, 11)[0] == a[0]);
    }
    lemma_trimmed_end(a);
    lemma_trimmed_end(b);
    assert(trimmed(open) == a && trimmed(close) == b);
    if "= ("@.is_suffix_of(a) {
        assert(a.subrange(17, 20)[2] == a[19]);
        assert("= ("@[2] == '(');
    }
    assert("("@.len() == 1 && ");"@.len() == 2 && ")"@.len() == 1);
    assert(");"@[0] == ')');
}

/// What a blank line is not.
pub proof fn lemma_blank_effect(l: Seq<char>)
    requires
        is_blank(l),
    ensures
        forall|i: int| 0 <= i < l.len() ==> is_white(#[trigger] l[i]),
        item_uuid(l) is None,
        decl_uuid(l) is None,
        line_braces(l) == 0,
        !opens_objects(l),
        !opens_any_list(l),
        !closes_any_list(l),
        is_object_level(l),
{
    reveal_strlit("objects = {");
    reveal_strlit("= (");
    reveal_strlit("(");
    reveal_strlit(");");
    reveal_strlit(")");
    lemma_indent_bound(l);
    let t = trimmed_start(l);
    if t.len() > 0 {
        assert(t[0] == l[indent(l) as int]);
        lemma_trimmed_keeps(t);
    }
    assert(t.len() == 0);
    lemma_no_uuid(l);
    lemma_no_braces(l, 0);
    assert(trimmed(l).len() == 0);
}

proof fn lemma_trimmed_keeps(s: Seq<char>)
    requires
        s.len() > 0,
        !is_white(s[0]),
    ensures
        trimmed_end(s).len() > 0,
    decreases s.len(),
{
    if is_white(s.last()) {
        assert(s.drop_last()[0] == s[0]);
        lemma_trimmed_keeps(s.drop_last());
    }
}

proof fn lemma_no_braces(l: Seq<char>, i: int)
    requires
        forall|i: int| 0 <= i < l.len() ==> is_white(#[trigger] l[i]),
        0 <= i,
    ensures
        crate::sanitizer::brace_sum(l, i, false) == 0,
    decreases l.len() - i,
{
    if i < l.len() {
        assert(is_white(l[i]));
        lemma_no_braces(l, i + 1);
    }
}

// ── Reading on ───────────────────────────────────────────────────────────────

/// The readings of two texts stand at the same place, with nothing dropped.
spec fn same_decls(a: Seq<Seq<char>>, b: Seq<Seq<char>>) -> bool {
    let x = decls_run(a);
    let y = decls_run(b);
    &&& x.in_objects == y.in_objects
    &&& x.in_objects ==> x.depth == y.depth && x.depth > 0
    &&& x.skip_to is None && y.skip_to is None
    &&& x.seen == y.seen
    &&& x.removed == 0 && y.removed == 0
}

spec fn same_lists(a: Seq<Seq<char>>, b: Seq<Seq<char>>) -> bool {
    let x = lists_run(a);
    let y = lists_run(b);
    &&& x.in_list == y.in_list
    &&& x.seen == y.seen
    &&& x.removed == 0 && y.removed == 0
}

spec fn same_bodies(a: Seq<Seq<char>>, b: Seq<Seq<char>>) -> bool {
    let x = bodies_run(a);
    let y = bodies_run(b);
    &&& x.in_objects == y.in_objects
    &&& x.in_objects ==> x.depth == y.depth && x.depth > 0
    &&& !x.in_orphan && !y.in_orphan
    &&& x.removed == 0 && y.removed == 0
}

/// One more line, on both sides.
proof fn lemma_decls_on(a: Seq<Seq<char>>, b: Seq<Seq<char>>, l: Seq<char>)
    requires
        same_decls(a, b),
        decls_run(a.push(l)).removed == 0,
    ensures
        same_decls(a.push(l), b.push(l)),
{
    assert(a.push(l).drop_last() =~= a);
    assert(b.push(l).drop_last() =~= b);
}

proof fn lemma_lists_on(a: Seq<Seq<char>>, b: Seq<Seq<char>>, l: Seq<char>)
    requires
        same_lists(a, b),
        lists_run(a.push(l)).removed == 0,
    ensures
        same_lists(a.push(l), b.push(l)),
{
    assert(a.push(l).drop_last() =~= a);
    assert(b.push(l).drop_last() =~= b);
}

proof fn lemma_bodies_on(a: Seq<Seq<char>>, b: Seq<Seq<char>>, l: Seq<char>)
    requires
        same_bodies(a, b),
        bodies_run(a.push(l)).removed == 0,
    ensures
        same_bodies(a.push(l), b.push(l)),
{
    assert(a.push(l).drop_last() =~= a);
    assert(b.push(l).drop_last() =~= b);
}

/// Fewer lines, no more dropped.
proof fn lemma_removed_before(ls: Seq<Seq<char>>)
    requires
        ls.len() > 0,
    ensures
        decls_run(ls).removed == 0 ==> decls_run(ls.drop_last()).removed == 0,
        lists_run(ls).removed == 0 ==> lists_run(ls.drop_last()).removed == 0,
        bodies_run(ls).removed == 0 ==> bodies_run(ls.drop_last()).removed == 0,
{
}

/// A reading that drops nothing stands nowhere in what is dropped.
proof fn lemma_reads_itself(ls: Seq<Seq<char>>)
    ensures
        decls_run(ls).removed == 0 ==> same_decls(ls, ls),
        lists_run(ls).removed == 0 ==> same_lists(ls, ls),
        bodies_run(ls).removed == 0 ==> same_bodies(ls, ls),
    decreases ls.len(),
{
    if ls.len() > 0 {
        lemma_removed_before(ls);
        lemma_reads_itself(ls.drop_last());
    }
}

// ── Without duplicate items ──────────────────────────────────────────────────

/// The items of lists hold no braces and declare nothing.
pub open spec fn items_are_plain(ls: Seq<Seq<char>>) -> bool {
    forall|k: int|
        0 <= k < ls.len() && lists_run(ls.take(k)).in_list && item_uuid(#[trigger] ls[k]) is Some
            ==> line_braces(ls[k]) == 0 && decl_uuid(ls[k]) is None
}

proof fn lemma_decls_without_items(ls: Seq<Seq<char>>)
    requires
        decls_run(ls).removed == 0,
        items_are_plain(ls),
    ensures
        same_decls(ls, lists_run(ls).out),
    decreases ls.len(),
{
    if ls.len() > 0 {
        let rest = ls.drop_last();
        let line = ls.last();
        lemma_removed_before(ls);
        assert(items_are_plain(rest)) by {
            assert forall|k: int|
                0 <= k < rest.len() && lists_run(rest.take(k)).in_list && item_uuid(
                    #[trigger] rest[k],
                ) is Some implies line_braces(rest[k]) == 0 && decl_uuid(rest[k]) is None by {
                assert(rest[k] == ls[k]);
                assert(rest.take(k) =~= ls.take(k));
            }
        }
        lemma_decls_without_items(rest);
        let before = lists_run(rest);
        let after = lists_run(ls);
        assert(rest.push(line) =~= ls);
        if after.out == before.out {
            assert(item_uuid(ls[ls.len() - 1]) is Some);
            assert(ls.take(ls.len() - 1) =~= rest);
            lemma_item_line(line);
            assert(decls_run(ls) == decls_step(decls_run(rest), line));
        } else {
            assert(after.out == before.out.push(line));
            lemma_decls_on(rest, before.out, line);
        }
    } else {
        assert(lists_run(ls).out =~= ls);
    }
}

// ── Without stray markers ────────────────────────────────────────────────────

/// A line that opens, closes, declares and begins nothing.
pub open spec fn is_idle(l: Seq<char>) -> bool {
    &&& section_begin(l) is None
    &&& item_uuid(l) is None
    &&& decl_uuid(l) is None
    &&& line_braces(l) == 0
    &&& !opens_objects(l)
    &&& !opens_any_list(l)
    &&& !closes_any_list(l)
}

/// Every section that begins ends, and the ends of others stand on idle lines.
pub open spec fn ends_what_begins(ls: Seq<Seq<char>>) -> bool {
    &&& forall|k: int| 0 <= k < ls.len() ==> !orphan_begin(ls, #[trigger] ls[k])
    &&& forall|k: int| 0 <= k < ls.len() && orphan_end(ls, #[trigger] ls[k]) ==> is_idle(ls[k])
}

/// Dropping stray markers leaves everything else.
proof fn lemma_without_markers(all: Seq<Seq<char>>, ls: Seq<Seq<char>>)
    requires
        decls_run(ls).removed == 0,
        lists_run(ls).removed == 0,
        forall|k: int| 0 <= k < ls.len() ==> !orphan_begin(all, #[trigger] ls[k]),
        forall|k: int| 0 <= k < ls.len() && orphan_end(all, #[trigger] ls[k]) ==> is_idle(ls[k]),
    ensures
        ({
            let st = sections_run(all, ls);
            &&& st.skip is None
            &&& same_decls(ls, st.out)
            &&& same_lists(ls, st.out)
            &&& are_plain_lines(ls) ==> are_plain_lines(st.out)
        }),
    decreases ls.len(),
{
    let st = sections_run(all, ls);
    if ls.len() > 0 {
        let rest = ls.drop_last();
        let line = ls.last();
        lemma_removed_before(ls);
        assert forall|k: int| 0 <= k < rest.len() implies !orphan_begin(all, #[trigger] rest[k])
            && (orphan_end(all, rest[k]) ==> is_idle(rest[k])) by {
            assert(rest[k] == ls[k]);
        }
        lemma_without_markers(all, rest);
        let before = sections_run(all, rest);
        assert(rest.push(line) =~= ls);
        assert(!orphan_begin(all, ls[ls.len() - 1]));
        if orphan_end(all, line) {
            assert(is_idle(ls[ls.len() - 1]));
            assert(decls_run(ls) == decls_step(decls_run(rest), line));
            assert(lists_run(ls) == lists_step(lists_run(rest), line));
        } else {
            assert(st.out == before.out.push(line));
            lemma_decls_on(rest, before.out, line);
            lemma_lists_on(rest, before.out, line);
        }
        if are_plain_lines(ls) {
            assert forall|i: int| 0 <= i < rest.len() implies is_plain_line(#[trigger] rest[i]) by {
                assert(rest[i] == ls[i]);
            }
            assert(is_plain_line(ls[ls.len() - 1]));
            assert forall|i: int| 0 <= i < st.out.len() implies is_plain_line(
                #[trigger] st.out[i],
            ) by {
                if i < before.out.len() {
                    assert(st.out[i] == before.out[i]);
                }
            }
        }
    } else {
        assert(st.out =~= ls);
    }
}

// ── With the wrapper ─────────────────────────────────────────────────────────

/// The wrapper, where it is added among the objects, is added inside one.
pub open spec fn wrapper_in_object(ls: Seq<Seq<char>>) -> bool {
    forall|k: int|
        0 <= k < ls.len() && attributes_run(ls.take(k + 1)).added && !(#[trigger] attributes_run(
            ls.take(k),
        )).added && bodies_run(ls.take(k)).in_objects ==> bodies_run(ls.take(k)).depth >= 2
}

#[verifier::rlimit(40)]
#[verifier::spinoff_prover]
proof fn lemma_with_wrapper(ls: Seq<Seq<char>>)
    requires
        decls_run(ls).removed == 0,
        lists_run(ls).removed == 0,
        bodies_run(ls).removed == 0,
        wrapper_in_object(ls),
    ensures
        same_decls(ls, attributes_run(ls).out),
        same_lists(ls, attributes_run(ls).out),
        same_bodies(ls, attributes_run(ls).out),
    decreases ls.len(),
{
    if ls.len() == 0 {
        assert(attributes_run(ls).out =~= ls);
    } else {
        let rest = ls.drop_last();
        let line = ls.last();
        lemma_removed_before(ls);
        assert(wrapper_in_object(rest)) by {
            assert forall|k: int|
                0 <= k < rest.len() && attributes_run(rest.take(k + 1)).added && !(
                #[trigger] attributes_run(rest.take(k))).added && bodies_run(
                    rest.take(k),
                ).in_objects implies bodies_run(rest.take(k)).depth >= 2 by {
                assert(rest.take(k) =~= ls.take(k));
                assert(rest.take(k + 1) =~= ls.take(k + 1));
            }
        }
        lemma_with_wrapper(rest);
        let before = attributes_run(rest);
        let after = attributes_run(ls);
        assert(rest.push(line) =~= ls);
        assert(ls.take(ls.len() - 1) =~= rest);
        assert(ls.take((ls.len() - 1) + 1) =~= ls);
        let o = before.out;
        if after.added && !before.added {
            let space = line.take(indent(line) as int);
            let open = space + "\tTargetAttributes = {"@;
            let close = space + "\t};"@;
            lemma_indent_bound(line);
            assert forall|i: int| 0 <= i < space.len() implies is_white(#[trigger] space[i]) by {
                assert(space[i] == line[i]);
            }
            lemma_wrapper_lines(space);
            lemma_wrapper_effect(space);
            let one = o.push(open);
            let two = one.push(close);
            assert(one.drop_last() =~= o);
            assert(two.drop_last() =~= one);
            assert(after.out == two.push(line));
            assert(before.in_attributes);
            lemma_wrapper_decls(rest, o, open, close);
            lemma_wrapper_lists(rest, o, open, close);
            lemma_wrapper_bodies(rest, o, open, close);
            lemma_decls_on(rest, two, line);
            lemma_lists_on(rest, two, line);
            lemma_bodies_on(rest, two, line);
        } else {
            assert(after.out == o.push(line));
            lemma_decls_on(rest, o, line);
            lemma_lists_on(rest, o, line);
            lemma_bodies_on(rest, o, line);
        }
    }
}

proof fn lemma_wrapper_decls(
    a: Seq<Seq<char>>,
    b: Seq<Seq<char>>,
    open: Seq<char>,
    close: Seq<char>,
)
    requires
        same_decls(a, b),
        line_braces(open) == 1,
        line_braces(close) == -1,
        decl_uuid(open) is None,
        decl_uuid(close) is None,
        !opens_objects(open),
        !opens_objects(close),
    ensures
        same_decls(a, b.push(open).push(close)),
{
    assert(b.push(open).drop_last() =~= b);
    assert(b.push(open).push(close).drop_last() =~= b.push(open));
    assert(decls_run(b.push(open)) == decls_step(decls_run(b), open));
    assert(decls_run(b.push(open).push(close)) == decls_step(decls_run(b.push(open)), close));
}

proof fn lemma_wrapper_lists(
    a: Seq<Seq<char>>,
    b: Seq<Seq<char>>,
    open: Seq<char>,
    close: Seq<char>,
)
    requires
        same_lists(a, b),
        item_uuid(open) is None,
        item_uuid(close) is None,
        !opens_any_list(open),
        !opens_any_list(close),
        !closes_any_list(open),
        !closes_any_list(close),
    ensures
        same_lists(a, b.push(open).push(close)),
{
    assert(b.push(open).drop_last() =~= b);
    assert(b.push(open).push(close).drop_last() =~= b.push(open));
    assert(lists_run(b.push(open)) == lists_step(lists_run(b), open));
    assert(lists_run(b.push(open).push(close)) == lists_step(lists_run(b.push(open)), close));
}

proof fn lemma_wrapper_bodies(
    a: Seq<Seq<char>>,
    b: Seq<Seq<char>>,
    open: Seq<char>,
    close: Seq<char>,
)
    requires
        same_bodies(a, b),
        bodies_run(a).in_objects ==> bodies_run(a).depth >= 2,
        line_braces(open) == 1,
        line_braces(close) == -1,
        !opens_objects(open),
        !opens_objects(close),
    ensures
        same_bodies(a, b.push(open).push(close)),
{
    assert(b.push(open).drop_last() =~= b);
    assert(b.push(open).push(close).drop_last() =~= b.push(open));
    assert(bodies_run(b.push(open)) == bodies_step(bodies_run(b), open));
    assert(bodies_run(b.push(open).push(close)) == bodies_step(bodies_run(b.push(open)), close));
}

// ── Without what stands behind the document ──────────────────────────────────

/// The line closes the objects, if they are open, and no list or attributes are.
pub open spec fn closes_all(ls: Seq<Seq<char>>, line: Seq<char>) -> bool {
    &&& decls_run(ls).in_objects ==> decls_run(ls).depth + line_braces(line) <= 0
    &&& bodies_run(ls).in_objects ==> bodies_run(ls).depth + line_braces(line) <= 0
    &&& !lists_run(ls).in_list
    &&& !attributes_run(ls).in_attributes
}

/// What stands behind the document begins on a line of its own, or on one that
/// closes everything.
pub open spec fn ends_whole(ls: Seq<Seq<char>>) -> bool {
    match closing_line(ls, ls.len() as int) {
        Some(k) => {
            let c = read_run(ls.take(k + 1)).end->Some_0;
            is_blank(ls[k].skip(c)) || closes_all(ls.take(k), ls[k].take(c))
        },
        None => true,
    }
}

/// Nothing is dropped from, and no wrapper missing in, some lines.
spec fn is_quiet(ls: Seq<Seq<char>>) -> bool {
    &&& decls_run(ls).removed == 0
    &&& lists_run(ls).removed == 0
    &&& bodies_run(ls).removed == 0
    &&& !attributes_run(ls).added
}

proof fn lemma_quiet_prefix(ls: Seq<Seq<char>>, n: int)
    requires
        is_quiet(ls),
        0 <= n <= ls.len(),
    ensures
        is_quiet(ls.take(n)),
    decreases ls.len(),
{
    if n < ls.len() {
        lemma_removed_before(ls);
        lemma_quiet_prefix(ls.drop_last(), n);
        assert(ls.drop_last().take(n) =~= ls.take(n));
    } else {
        assert(ls.take(n) =~= ls);
    }
}

proof fn lemma_attributes_depth(ls: Seq<Seq<char>>)
    ensures
        attributes_run(ls).in_attributes ==> attributes_run(ls).depth > 0,
    decreases ls.len(),
{
    if ls.len() > 0 {
        lemma_attributes_depth(ls.drop_last());
    }
}

proof fn lemma_blank_quiet(ls: Seq<Seq<char>>, l: Seq<char>)
    requires
        is_quiet(ls),
        is_blank(l),
    ensures
        is_quiet(ls.push(l)),
{
    assert(ls.push(l).drop_last() =~= ls);
    lemma_reads_itself(ls);
    lemma_blank_effect(l);
    lemma_attributes_depth(ls);
    assert(decls_run(ls.push(l)) == decls_step(decls_run(ls), l));
    assert(lists_run(ls.push(l)) == lists_step(lists_run(ls), l));
    assert(bodies_run(ls.push(l)) == bodies_step(bodies_run(ls), l));
    assert(attributes_run(ls.push(l)) == attributes_step(attributes_run(ls), l));
}

proof fn lemma_blanks_quiet(ls: Seq<Seq<char>>, more: Seq<Seq<char>>)
    requires
        is_quiet(ls),
        forall|i: int| 0 <= i < more.len() ==> is_blank(#[trigger] more[i]),
    ensures
        is_quiet(ls + more),
    decreases more.len(),
{
    if more.len() == 0 {
        assert(ls + more =~= ls);
    } else {
        let rest = more.drop_last();
        assert forall|i: int| 0 <= i < rest.len() implies is_blank(#[trigger] rest[i]) by {
            assert(rest[i] == more[i]);
        }
        lemma_blanks_quiet(ls, rest);
        assert(is_blank(more[more.len() - 1]));
        lemma_blank_quiet(ls + rest, more.last());
        assert((ls + rest).push(more.last()) =~= ls + more);
    }
}

proof fn lemma_filter_source(ls: Seq<Seq<char>>)
    ensures
        ({
            let out = ls.filter(|l: Seq<char>| is_blank(l));
            forall|k: int|
                0 <= k < out.len() ==> is_blank(#[trigger] out[k]) && ls.contains(out[k])
        }),
    decreases ls.len(),
{
    reveal(Seq::filter);
    if ls.len() > 0 {
        lemma_filter_source(ls.drop_last());
        let pred = |l: Seq<char>| is_blank(l);
        let rest = ls.drop_last().filter(pred);
        let out = ls.filter(pred);
        assert forall|k: int| 0 <= k < out.len() implies is_blank(#[trigger] out[k])
            && ls.contains(out[k]) by {
            if k < rest.len() {
                assert(out[k] == rest[k]);
                assert(ls.drop_last().contains(rest[k]));
                let i = choose|i: int| 0 <= i < ls.drop_last().len() && ls.drop_last()[i] == rest[k];
                assert(ls[i] == rest[k]);
            } else {
                assert(ls[ls.len() - 1] == out[k]);
            }
        }
    }
}

proof fn lemma_closing_quiet(ls: Seq<Seq<char>>, l: Seq<char>)
    requires
        is_quiet(ls),
        closes_all(ls, l),
    ensures
        is_quiet(ls.push(l)),
{
    assert(ls.push(l).drop_last() =~= ls);
    lemma_reads_itself(ls);
    assert(decls_run(ls.push(l)) == decls_step(decls_run(ls), l));
    assert(lists_run(ls.push(l)) == lists_step(lists_run(ls), l));
    assert(bodies_run(ls.push(l)) == bodies_step(bodies_run(ls), l));
    assert(attributes_run(ls.push(l)) == attributes_step(attributes_run(ls), l));
}

proof fn lemma_without_garbage(ls: Seq<Seq<char>>)
    requires
        is_quiet(ls),
        ends_whole(ls),
    ensures
        is_quiet(without_garbage(ls)),
{
    lemma_closing_line(ls, ls.len() as int);
    let out = without_garbage(ls);
    if closing_line(ls, ls.len() as int) is Some {
        let k = closing_line(ls, ls.len() as int)->Some_0;
        let c = read_run(ls.take(k + 1)).end->Some_0;
        let tail = ls.skip(k + 1).filter(|l: Seq<char>| is_blank(l));
        lemma_filter_source(ls.skip(k + 1));
        let last = cut(ls[k], c);
        let doc = ls.take(k).push(last);
        assert(out == doc + tail);
        if is_blank(ls[k].skip(c)) {
            assert(doc =~= ls.take(k + 1));
            lemma_quiet_prefix(ls, k + 1);
        } else {
            lemma_quiet_prefix(ls, k);
            lemma_closing_quiet(ls.take(k), last);
        }
        lemma_blanks_quiet(doc, tail);
    }
}

/// Lines with the same section markers have the same orphans.
pub proof fn lemma_same_orphans(a: Seq<Seq<char>>, b: Seq<Seq<char>>)
    requires
        forall|l: Seq<char>| marks_section(l) ==> #[trigger] a.contains(l) == b.contains(l),
        !has_orphan(a),
    ensures
        !has_orphan(b),
{
    if has_orphan(b) {
        let k = choose|k: int|
            0 <= k < b.len() && (orphan_begin(b, #[trigger] b[k]) || orphan_end(b, b[k]));
        let l = b[k];
        assert(b.contains(l));
        assert(a.contains(l));
        let i = choose|i: int| 0 <= i < a.len() && a[i] == l;
        assert(!orphan_begin(a, a[i]) && !orphan_end(a, a[i]));
        if orphan_begin(b, l) {
            let name = section_begin(l)->Some_0;
            assert(ends(a, name));
            let j = choose|j: int| 0 <= j < a.len() && section_end(#[trigger] a[j]) == Some(name);
            assert(a.contains(a[j]));
            assert(b.contains(a[j]));
            let m = choose|m: int| 0 <= m < b.len() && b[m] == a[j];
            assert(section_end(b[m]) == Some(name));
        } else {
            let name = section_end(l)->Some_0;
            assert(begins(a, name));
            let j = choose|j: int| 0 <= j < a.len() && section_begin(#[trigger] a[j]) == Some(name);
            assert(a.contains(a[j]));
            assert(b.contains(a[j]));
            let m = choose|m: int| 0 <= m < b.len() && b[m] == a[j];
            assert(section_begin(b[m]) == Some(name));
        }
    }
}

// ── All passes ───────────────────────────────────────────────────────────────

/// A text that one run repairs: without its conflicts and duplicates every
/// section that begins ends; without its stray markers it has no body without a
/// header, and one project at most that lacks target attributes, inside its
/// object; the items of its lists hold no braces; and what stands behind the
/// document stands apart or behind a line that closes everything, and holds no
/// marker that the document needs.
pub open spec fn is_repairable(s: Seq<char>) -> bool {
    let ls = lines_of(pass_text(s, 4));
    &&& are_plain_lines(lines_of(s))
    &&& items_are_plain(lines_of(pass_text(s, 2)))
    &&& ends_what_begins(lines_of(pass_text(s, 3)))
    &&& bodies_run(ls).removed == 0
    &&& lacking(ls) <= 1
    &&& wrapper_in_object(ls)
    &&& ends_whole(lines_of(pass_text(s, 6)))
    &&& !has_orphan(without_garbage(lines_of(pass_text(s, 6))))
}

/// The lines after each of the passes.
proof fn lemma_pass_lines(s: Seq<char>)
    requires
        is_repairable(s),
    ensures
        ({
            let l1 = conflicts_run(lines_of(s)).out;
            let l2 = decls_run(l1).out;
            let l3 = lists_run(l2).out;
            let l4 = sections_run(l3, l3).out;
            let l6 = attributes_run(l4).out;
            &&& lines_of(pass_text(s, 1)) == l1
            &&& lines_of(pass_text(s, 2)) == l2
            &&& lines_of(pass_text(s, 3)) == l3
            &&& lines_of(pass_text(s, 4)) == l4
            &&& lines_of(pass_text(s, 5)) == l4
            &&& lines_of(pass_text(s, 6)) == l6
            &&& are_plain_lines(l6)
            &&& sanitized(s) == unlines(without_garbage(l6))
            &&& decls_run(l2).removed == 0
            &&& lists_run(l3).removed == 0
        }),
{
    reveal_with_fuel(pass_text, 8);
    let ls = lines_of(s);
    lemma_conflicts_twice(ls);
    let l1 = conflicts_run(ls).out;
    lemma_lines_of_unlines(l1);
    lemma_decls_twice(l1);
    let l2 = decls_run(l1).out;
    lemma_lines_of_unlines(l2);
    lemma_lists_twice(l2);
    let l3 = lists_run(l2).out;
    lemma_lines_of_unlines(l3);
    assert(pass_text(s, 3) == unlines(l3));
    lemma_plain_lists(l2);
    lemma_decls_without_items(l2);
    lemma_without_markers(l3, l3);
    let l4 = sections_run(l3, l3).out;
    lemma_lines_of_unlines(l4);
    if !has_orphan(l3) {
        lemma_all_kept(l3, l3);
    }
    assert(pass_text(s, 4) == unlines(l4));
    lemma_nothing_removed(l4);
    assert(pass_text(s, 5) == unlines(l4));
    lemma_attributes_twice(l4);
    lemma_lines_of_unlines(attributes_run(l4).out);
}

/// Where nothing is orphaned nothing is dropped.
proof fn lemma_all_kept(all: Seq<Seq<char>>, ls: Seq<Seq<char>>)
    requires
        forall|k: int|
            0 <= k < ls.len() ==> !orphan_begin(all, #[trigger] ls[k]) && !orphan_end(all, ls[k]),
    ensures
        sections_run(all, ls).out == ls,
        sections_run(all, ls).skip is None,
    decreases ls.len(),
{
    if ls.len() > 0 {
        let rest = ls.drop_last();
        assert forall|k: int| 0 <= k < rest.len() implies !orphan_begin(all, #[trigger] rest[k])
            && !orphan_end(all, rest[k]) by {
            assert(rest[k] == ls[k]);
        }
        lemma_all_kept(all, rest);
        let line = ls[ls.len() - 1];
        assert(!orphan_begin(all, ls[ls.len() - 1]));
        assert(rest.push(line) =~= ls);
    } else {
        assert(sections_run(all, ls).out =~= ls);
    }
}

/// A text with nothing to repair goes through all passes as it is.
proof fn lemma_passes_keep(s: Seq<char>)
    requires
        unlines(lines_of(s)) == s,
        conflicts_run(lines_of(s)).hunks == 0,
        decls_run(lines_of(s)).removed == 0,
        lists_run(lines_of(s)).removed == 0,
        !has_orphan(lines_of(s)),
        bodies_run(lines_of(s)).removed == 0,
        !attributes_run(lines_of(s)).added,
        nothing_behind(lines_of(s)),
    ensures
        forall|n: int| 0 <= n <= 7 ==> #[trigger] pass_text(s, n) == s,
{
    let ls = lines_of(s);
    lemma_nothing_removed(ls);
    law_no_wrapper_no_change(ls);
    lemma_nothing_behind(ls);
    reveal_with_fuel(pass_text, 8);
    assert(pass_text(s, 1) == s);
    assert(pass_text(s, 2) == s);
    assert(pass_text(s, 3) == s);
    assert(pass_text(s, 4) == s);
    assert(pass_text(s, 5) == s);
    assert(pass_text(s, 6) == s);
    assert(pass_text(s, 7) == s);
}

/// There is nothing left to repair.
pub open spec fn is_clean(stats: SanitizeStats) -> bool {
    &&& stats.conflict_hunks_resolved == 0
    &&& stats.duplicate_objects_removed == 0
    &&& stats.duplicate_list_items_removed == 0
    &&& stats.orphan_sections_removed == 0
    &&& stats.orphan_object_bodies_removed == 0
    &&& !stats.target_attributes_wrapper_added
}

/// Repairing a repaired text changes nothing, and finds nothing to repair.
pub proof fn law_repaired_once(s: Seq<char>, stats: SanitizeStats)
    requires
        is_repairable(s),
        is_repair(stats, sanitized(s)),
    ensures
        sanitized(sanitized(s)) == sanitized(s),
        is_clean(stats),
{
    lemma_repaired_sound(s);
    let t = sanitized(s);
    lemma_passes_keep(t);
    assert(pass_text(t, 1) == t && pass_text(t, 2) == t && pass_text(t, 3) == t);
    assert(pass_text(t, 4) == t && pass_text(t, 5) == t && pass_text(t, 7) == t);
}

pub proof fn lemma_repaired_sound(s: Seq<char>)
    requires
        is_repairable(s),
    ensures
        ({
            let t = sanitized(s);
            let ls = lines_of(t);
            &&& unlines(ls) == t
            &&& are_plain_lines(ls)
            &&& conflicts_run(ls).hunks == 0
            &&& decls_run(ls).removed == 0
            &&& lists_run(ls).removed == 0
            &&& !has_orphan(ls)
            &&& bodies_run(ls).removed == 0
            &&& !attributes_run(ls).added
            &&& nothing_behind(ls)
        }),
{
    let l1 = conflicts_run(lines_of(s)).out;
    let l2 = decls_run(l1).out;
    let l3 = lists_run(l2).out;
    let l4 = sections_run(l3, l3).out;
    let l6 = attributes_run(l4).out;
    let l7 = without_garbage(l6);
    lemma_pass_lines(s);
    lemma_decls_without_items(l2);
    lemma_without_markers(l3, l3);
    lemma_with_wrapper(l4);
    lemma_plain_lists(l2);
    lemma_conflicts_twice(lines_of(s));
    lemma_decls_twice(l1);
    lemma_lists_twice(l2);
    lemma_attributes_twice(l4);
    assert(is_quiet(l6));
    lemma_without_garbage(l6);
    law_garbage_dropped_once(l6);
    lemma_plain_without_garbage(l6);
    lemma_lines_of_unlines(l7);
    law_no_conflict_opened(s);
    law_no_conflict_no_change(l7);
}

proof fn lemma_plain_lists(ls: Seq<Seq<char>>)
    ensures
        are_plain_lines(ls) ==> are_plain_lines(lists_run(ls).out),
{
    lemma_lists_twice(ls);
}

proof fn lemma_plain_without_garbage(ls: Seq<Seq<char>>)
    requires
        are_plain_lines(ls),
    ensures
        are_plain_lines(without_garbage(ls)),
{
    lemma_closing_line(ls, ls.len() as int);
    let out = without_garbage(ls);
    if closing_line(ls, ls.len() as int) is Some {
        let k = closing_line(ls, ls.len() as int)->Some_0;
        let c = read_run(ls.take(k + 1)).end->Some_0;
        let tail = ls.skip(k + 1).filter(|l: Seq<char>| is_blank(l));
        lemma_filter_source(ls.skip(k + 1));
        let before = read_run(ls.take(k));
        assert(ls.take(k + 1).drop_last() =~= ls.take(k));
        lemma_line_end(ls[k], 0, before.place, before.depth);
        let last = cut(ls[k], c);
        assert(is_plain_line(ls[k]));
        assert(is_plain_line(last));
        assert(out == ls.take(k).push(last) + tail);
        assert forall|i: int| 0 <= i < out.len() implies is_plain_line(#[trigger] out[i]) by {
            if i < k {
                assert(out[i] == ls[i]);
            } else if i == k {
                assert(out[i] == last);
            } else {
                assert(out[i] == tail[i - k - 1]);
                let rest = ls.skip(k + 1);
                assert(rest.contains(tail[i - k - 1]));
                let j = choose|j: int| 0 <= j < rest.len() && rest[j] == tail[i - k - 1];
                assert(ls[k + 1 + j] == out[i]);
            }
        }
    }
}

} // verus!
