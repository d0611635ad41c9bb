//! Sorting keeps the main group.
//!
//! The main group is named by a field of the project object, whose section no
//! pass sorts.

use crate::order::sort_by;
use crate::pattern::{first_from, is_hex, main_group, main_group_at};
use crate::resort_laws::lemma_sort_all;
use crate::resort_section_laws::{
    flat, item_lines, lemma_flat_concat, lemma_flat_plain, lemma_flat_push, lemma_plain_item,
    lemma_state_ok,
};
use crate::shape::{
    is_line_name, is_well_shaped, lemma_shape_ends, lemma_shape_nested, lemma_shape_of_lines,
    lemma_shape_of_lists, lemma_shape_of_section, lemma_shape_sound, shape_at, Shape,
};
use crate::sorted_laws::{
    law_passes_sort_once, lemma_names, lemma_pass_stand, lemma_pass_text, pass_lines,
};
use crate::sorter::{
    comment_key, dropped_until, law_sort_no_longer, line_run, list_key, list_run, section_key,
    section_of_pass, section_run, sort_text, sorted_text, unsorted_group, ListKind, SectionKey,
};
use crate::text::{
    indent, is_white, joined, lemma_indent, lemma_indent_bound, lemma_line_len_bound, line_len,
    lines_of, occurs_at, trimmed_start, without_cr,
};
use vstd::prelude::*;

verus! {

// ── The field in a text and in its lines ─────────────────────────────────────

/// The word `mainGroup` at position `i` names no field: what follows it in the line
/// is no equals sign.
pub open spec fn names_no_field(line: Seq<char>, i: int) -> bool {
    let rest = trimmed_start(line.skip(i + 9));
    rest.len() > 0 && rest[0] != '='
}

/// Wherever the line names the field `mainGroup`, the whole field stands there.
pub open spec fn has_whole_field(line: Seq<char>) -> bool {
    forall|i: int| #[trigger]
        occurs_at(line, "mainGroup"@, i) ==> main_group_at(line, i) is Some || names_no_field(
            line,
            i,
        )
}

/// The line names no main group.
pub open spec fn lacks_field(line: Seq<char>) -> bool {
    forall|i: int| #[trigger] occurs_at(line, "mainGroup"@, i) ==> names_no_field(line, i)
}

/// The main group that the first of some lines to name one names.
pub open spec fn first_main(ls: Seq<Seq<char>>) -> Option<Seq<char>>
    decreases ls.len(),
{
    if ls.len() == 0 {
        None
    } else {
        match first_main(ls.drop_last()) {
            Some(u) => Some(u),
            None => main_group(ls.last()),
        }
    }
}

proof fn lemma_first_front(l: Seq<char>, rest: Seq<Seq<char>>)
    ensures
        first_main(seq![l] + rest) == match main_group(l) {
            Some(u) => Some(u),
            None => first_main(rest),
        },
    decreases rest.len(),
{
    let all = seq![l] + rest;
    if rest.len() == 0 {
        assert(all.drop_last() =~= Seq::empty());
        assert(first_main(all.drop_last()) is None);
        assert(all.last() == l);
    } else {
        lemma_first_front(l, rest.drop_last());
        assert(all.drop_last() =~= seq![l] + rest.drop_last());
        assert(all.last() == rest.last());
    }
}

proof fn lemma_indent_longer(a: Seq<char>, b: Seq<char>)
    requires
        a.len() <= b.len(),
        b.take(a.len() as int) == a,
        indent(a) < a.len(),
    ensures
        indent(b) == indent(a),
{
    lemma_indent_bound(a);
    let n = indent(a) as int;
    assert forall|i: int| 0 <= i <= n implies b[i] == a[i] by {
        assert(b.take(a.len() as int)[i] == b[i]);
    }
    lemma_indent(b, n);
}

proof fn lemma_prefix_skip(a: Seq<char>, b: Seq<char>, n: int)
    requires
        0 <= n <= a.len() <= b.len(),
        b.take(a.len() as int) == a,
    ensures
        a.skip(n).len() <= b.skip(n).len(),
        b.skip(n).take(a.skip(n).len() as int) == a.skip(n),
{
    assert forall|i: int| 0 <= i < a.len() implies b[i] == a[i] by {
        assert(b.take(a.len() as int)[i] == b[i]);
    }
    assert(b.skip(n).take(a.skip(n).len() as int) =~= a.skip(n));
}

/// A text that begins with white space and then with a character begins so in
/// any longer text.
proof fn lemma_leads_longer(a: Seq<char>, b: Seq<char>, c: char)
    requires
        a.len() <= b.len(),
        b.take(a.len() as int) == a,
        seq![c].is_prefix_of(trimmed_start(a)),
        !is_white(c),
    ensures
        seq![c].is_prefix_of(trimmed_start(b)),
        indent(a) < a.len(),
        indent(b) == indent(a),
{
    lemma_indent_bound(a);
    let t = trimmed_start(a);
    assert(t.len() >= 1);
    assert(t.subrange(0, 1)[0] == t[0]);
    assert(seq![c][0] == t[0]);
    lemma_indent_longer(a, b);
    let n = indent(a) as int;
    assert(b.take(a.len() as int)[n] == b[n]);
    assert(trimmed_start(b).subrange(0, 1) =~= seq![c]);
}

/// A whole field in a line is the same in any text that holds the line.
#[verifier::rlimit(40)]
#[verifier::spinoff_prover]
proof fn lemma_field_in_text(l: Seq<char>, s: Seq<char>, i: int)
    requires
        0 <= i,
        l.len() <= s.len(),
        s.take(l.len() as int) == l,
        main_group_at(l, i) is Some,
    ensures
        main_group_at(s, i) == main_group_at(l, i),
{
    reveal_strlit("mainGroup");
    assert(!is_white('=') && !is_white(';'));
    let after = |rest: Seq<char>| seq![';'].is_prefix_of(trimmed_start(rest));
    assert(s.subrange(i, i + 9) =~= l.subrange(i, i + 9)) by {
        assert forall|k: int| i <= k < i + 9 implies s[k] == l[k] by {
            assert(s.take(l.len() as int)[k] == s[k]);
        }
    }
    let a = l.skip(i + 9);
    let b = s.skip(i + 9);
    lemma_prefix_skip(l, s, i + 9);
    lemma_leads_longer(a, b, '=');
    let n = indent(a) as int;
    lemma_prefix_skip(a, b, n + 1);
    let eq = trimmed_start(a);
    assert(eq.skip(1) =~= a.skip(n + 1));
    assert(trimmed_start(b).skip(1) =~= b.skip(n + 1));
    let c = a.skip(n + 1);
    let d = b.skip(n + 1);
    let u = trimmed_start(c);
    assert(u.len() >= 24);
    lemma_indent_bound(c);
    lemma_indent_longer(c, d);
    let m = indent(c) as int;
    lemma_prefix_skip(c, d, m);
    let v = trimmed_start(d);
    assert(u == c.skip(m) && v == d.skip(m));
    assert forall|k: int| 0 <= k < u.len() implies v[k] == u[k] by {
        assert(v.take(u.len() as int)[k] == v[k]);
    }
    if after(u.skip(24)) && crate::pattern::starts_hex(u, 24) {
        lemma_prefix_skip(u, v, 24);
        lemma_leads_longer(u.skip(24), v.skip(24), ';');
        assert(crate::pattern::starts_hex(v, 24));
        assert(v.take(24) =~= u.take(24));
    } else {
        lemma_prefix_skip(u, v, 32);
        lemma_leads_longer(u.skip(32), v.skip(32), ';');
        assert(crate::pattern::starts_hex(v, 32));
        assert(v.take(32) =~= u.take(32));
        let w = v.skip(24);
        assert(w[0] == u[24]);
        assert(is_hex(w[0]));
        assert(!is_white(w[0]));
        lemma_indent(w, 0);
        assert(trimmed_start(w) =~= w);
        assert(!after(w)) by {
            if after(w) {
                assert(w.subrange(0, 1)[0] == w[0]);
                assert(seq![';'][0] == ';');
            }
        }
    }
}

/// A word that names no field in a line names none in any text that holds the
/// line.
proof fn lemma_no_field_in_text(l: Seq<char>, s: Seq<char>, i: int)
    requires
        0 <= i,
        l.len() <= s.len(),
        s.take(l.len() as int) == l,
        occurs_at(l, "mainGroup"@, i),
        names_no_field(l, i),
    ensures
        main_group_at(s, i) is None,
{
    reveal_strlit("mainGroup");
    let a = l.skip(i + 9);
    let b = s.skip(i + 9);
    lemma_prefix_skip(l, s, i + 9);
    let t = trimmed_start(a);
    lemma_indent_bound(a);
    let c = t[0];
    assert(c == a[indent(a) as int]);
    assert(t.subrange(0, 1) =~= seq![c]);
    lemma_leads_longer(a, b, c);
    let u = trimmed_start(b);
    assert(u.subrange(0, 1)[0] == u[0]);
    if seq!['='].is_prefix_of(u) {
        assert(seq!['='][0] == u.subrange(0, 1)[0]);
    }
}

proof fn lemma_scan_line(s: Seq<char>, l: Seq<char>, i: int, n: int)
    requires
        n == line_len(s),
        n < s.len(),
        l == without_cr(s.take(n)),
        has_whole_field(l),
        0 <= i <= n + 1,
    ensures
        first_from(s, i, |k: int| main_group_at(s, k)) == match first_from(
            l,
            i,
            |k: int| main_group_at(l, k),
        ) {
            Some(u) => Some(u),
            None => first_from(s, n + 1, |k: int| main_group_at(s, k)),
        },
    decreases n + 1 - i,
{
    reveal_strlit("mainGroup");
    lemma_line_len_bound(s);
    if i <= n {
        lemma_scan_line(s, l, i + 1, n);
        assert(s.take(l.len() as int) =~= l);
        let name = "mainGroup"@;
        if occurs_at(s, name, i) {
            assert forall|k: int| 0 <= k < 9 implies s[i + k] == #[trigger] name[k] by {
                assert(s.subrange(i, i + 9)[k] == s[i + k]);
            }
            if i + 9 > n {
                assert(s[i + (n - i)] == name[n - i]);
            }
            if i + 9 > l.len() {
                assert(s[n - 1] == '\r') by {
                    assert(s.take(n).last() == s[n - 1]);
                }
                assert(s[i + (n - 1 - i)] == name[n - 1 - i]);
            }
            assert(l.subrange(i, i + 9) =~= name);
            assert(occurs_at(l, name, i));
        }
        if occurs_at(l, name, i) {
            if main_group_at(l, i) is Some {
                lemma_field_in_text(l, s, i);
            } else {
                lemma_no_field_in_text(l, s, i);
            }
        }
        assert(main_group_at(s, i) is Some ==> occurs_at(s, name, i));
        assert(main_group_at(l, i) is Some ==> occurs_at(l, name, i));
        if i > l.len() {
            assert(first_from(l, i, |k: int| main_group_at(l, k)) is None);
            assert(first_from(l, i + 1, |k: int| main_group_at(l, k)) is None);
        }
    }
}

proof fn lemma_scan_rest(s: Seq<char>, rest: Seq<char>, m: int, i: int)
    requires
        0 <= m <= s.len(),
        rest == s.skip(m),
        0 <= i <= rest.len() + 1,
    ensures
        first_from(s, m + i, |k: int| main_group_at(s, k)) == first_from(
            rest,
            i,
            |k: int| main_group_at(rest, k),
        ),
    decreases rest.len() + 1 - i,
{
    if i <= rest.len() {
        lemma_scan_rest(s, rest, m, i + 1);
        reveal_strlit("mainGroup");
        if i + 9 <= rest.len() {
            assert(s.subrange(m + i, m + i + 9) =~= rest.subrange(i, i + 9));
            assert(s.skip(m + i + 9) =~= rest.skip(i + 9));
        }
        assert(main_group_at(s, m + i) == main_group_at(rest, i));
    }
}

/// The main group of a text is that of its first line to name one.
proof fn lemma_main_of_lines(s: Seq<char>)
    requires
        forall|k: int| 0 <= k < lines_of(s).len() ==> has_whole_field(#[trigger] lines_of(s)[k]),
    ensures
        main_group(s) == first_main(lines_of(s)),
    decreases s.len(),
{
    let ls = lines_of(s);
    let n = line_len(s) as int;
    lemma_line_len_bound(s);
    if s.len() == 0 {
        reveal_strlit("mainGroup");
        assert(main_group_at(s, 0) is None);
        assert(first_from(s, 1, |k: int| main_group_at(s, k)) is None);
    } else if n >= s.len() {
        assert(ls == seq![s]);
        assert(ls.drop_last() =~= Seq::empty());
        assert(first_main(ls.drop_last()) is None);
    } else {
        let l = without_cr(s.take(n));
        let rest = s.skip(n + 1);
        let more = lines_of(rest);
        assert(ls == seq![l] + more);
        assert(ls[0] == l);
        assert(has_whole_field(ls[0]));
        assert forall|k: int| 0 <= k < more.len() implies has_whole_field(#[trigger] more[k]) by {
            assert(more[k] == ls[k + 1]);
        }
        lemma_main_of_lines(rest);
        lemma_scan_line(s, l, 0, n);
        lemma_scan_rest(s, rest, n + 1, 0);
        lemma_first_front(l, more);
    }
}

// ── Where the field stands ───────────────────────────────────────────────────

/// The section is sorted.
pub open spec fn is_sorted_section(name: Seq<char>) -> bool {
    is_line_name(name) || exists|n: int| 4 <= n <= 12 && name == (#[trigger] section_of_pass(n)).0
}

/// The line may stand where it stands: the field of the main group stands on one
/// line, outside lists and outside the sections that are sorted.
pub open spec fn is_placed(sh: Shape, line: Seq<char>) -> bool {
    ||| lacks_field(line)
    ||| {
        &&& has_whole_field(line)
        &&& sh.list is None
        &&& match sh.section {
            Some(name) => !is_sorted_section(name),
            None => true,
        }
    }
}

/// A well-shaped text that names its main group, if it does, outside lists and
/// outside the sections that are sorted.
pub open spec fn names_main_group(ls: Seq<Seq<char>>) -> bool {
    &&& is_well_shaped(ls)
    &&& forall|k: int| 0 <= k < ls.len() ==> is_placed(shape_at(ls, k), #[trigger] ls[k])
}

/// No pass sorts the section of the project.
pub proof fn lemma_project_is_not_sorted(n: int)
    requires
        4 <= n <= 12,
    ensures
        section_of_pass(n).0 != "PBXProject"@,
        !is_line_name("PBXProject"@),
{
    reveal_strlit("PBXProject");
    reveal_strlit("XCBuildConfiguration");
    reveal_strlit("PBXVariantGroup");
    reveal_strlit("XCConfigurationList");
    reveal_strlit("PBXNativeTarget");
    reveal_strlit("PBXAggregateTarget");
    reveal_strlit("PBXGroup");
    reveal_strlit("PBXTargetDependency");
    reveal_strlit("XCRemoteSwiftPackageReference");
    reveal_strlit("XCSwiftPackageProductDependency");
    reveal_strlit("PBXBuildFile");
    reveal_strlit("PBXFileReference");
    assert("PBXProject"@.len() == 10);
    assert("XCBuildConfiguration"@.len() == 20);
    assert("PBXVariantGroup"@.len() == 15);
    assert("XCConfigurationList"@.len() == 19);
    assert("PBXNativeTarget"@.len() == 15);
    assert("PBXAggregateTarget"@.len() == 18);
    assert("PBXGroup"@.len() == 8);
    assert("PBXTargetDependency"@.len() == 19);
    assert("XCRemoteSwiftPackageReference"@.len() == 29);
    assert("XCSwiftPackageProductDependency"@.len() == 31);
    assert("PBXBuildFile"@.len() == 12);
    assert("PBXFileReference"@.len() == 16);
}

/// A pass leaves the field where it may stand.
proof fn lemma_pass_placed(main: Seq<char>, ls: Seq<Seq<char>>, n: int)
    requires
        names_main_group(ls),
        1 <= n <= 12,
    ensures
        names_main_group(pass_lines(main, ls, n)),
{
    let may = |sh: Shape, line: Seq<char>| is_placed(sh, line);
    let out = pass_lines(main, ls, n);
    assert forall|k: int| 0 <= k < ls.len() implies may(shape_at(ls, k), #[trigger] ls[k]) by {
    }
    lemma_pass_stand(may, main, ls, n);
    assert forall|k: int| 0 <= k < out.len() implies is_placed(
        shape_at(out, k),
        #[trigger] out[k],
    ) by {
        assert(may(shape_at(out, k), out[k]));
    }
}

// ── The first field ──────────────────────────────────────────────────────────

proof fn lemma_no_field(line: Seq<char>, i: int)
    requires
        lacks_field(line),
        0 <= i,
    ensures
        first_from(line, i, |k: int| main_group_at(line, k)) is None,
    decreases line.len() + 1 - i,
{
    if i <= line.len() {
        if occurs_at(line, "mainGroup"@, i) {
            assert(line.take(line.len() as int) =~= line);
            lemma_no_field_in_text(line, line, i);
        }
        lemma_no_field(line, i + 1);
    }
}

proof fn lemma_first_push(ls: Seq<Seq<char>>, l: Seq<char>)
    ensures
        first_main(ls.push(l)) == match first_main(ls) {
            Some(u) => Some(u),
            None => main_group(l),
        },
        lacks_field(l) ==> first_main(ls.push(l)) == first_main(ls),
{
    assert(ls.push(l).drop_last() =~= ls);
    if lacks_field(l) {
        lemma_no_field(l, 0);
    }
}

/// Lines that name no main group.
pub open spec fn all_lack(ls: Seq<Seq<char>>) -> bool {
    forall|i: int| 0 <= i < ls.len() ==> lacks_field(#[trigger] ls[i])
}

proof fn lemma_first_more(a: Seq<Seq<char>>, b: Seq<Seq<char>>)
    requires
        all_lack(b),
    ensures
        first_main(a + b) == first_main(a),
    decreases b.len(),
{
    if b.len() == 0 {
        assert(a + b =~= a);
    } else {
        let rest = b.drop_last();
        assert forall|i: int| 0 <= i < rest.len() implies lacks_field(#[trigger] rest[i]) by {
            assert(rest[i] == b[i]);
        }
        lemma_first_more(a, rest);
        assert(lacks_field(b[b.len() - 1]));
        lemma_first_push(a + rest, b.last());
        assert((a + rest).push(b.last()) =~= a + b);
    }
}

proof fn lemma_first_over_lists(kind: ListKind, main: Seq<char>, ls: Seq<Seq<char>>, n: int)
    requires
        names_main_group(ls),
        0 <= n <= ls.len(),
    ensures
        ({
            let st = list_run(kind, main, ls, n);
            &&& first_main(st.out) == first_main(ls.take(n))
            &&& all_lack(st.pending)
        }),
    decreases n,
{
    if n == 0 {
        assert(ls.take(0) =~= Seq::empty());
    } else {
        lemma_first_over_lists(kind, main, ls, n - 1);
        lemma_shape_of_lists(kind, main, ls, n - 1);
        let st = list_run(kind, main, ls, n - 1);
        let after = list_run(kind, main, ls, n);
        let line = ls[n - 1];
        assert(is_placed(shape_at(ls, n - 1), ls[n - 1]));
        assert(ls.take(n) =~= ls.take(n - 1).push(line));
        lemma_first_push(ls.take(n - 1), line);
        lemma_first_push(st.out, line);
        if st.in_list {
            let key = |l: Seq<char>| list_key(kind, l);
            let holds = |l: Seq<char>| lacks_field(l);
            assert forall|i: int| 0 <= i < st.pending.len() implies holds(
                #[trigger] st.pending[i],
            ) by {
            }
            lemma_sort_all(st.pending, key, holds);
            let entries = sort_by(st.pending, key);
            assert forall|i: int| 0 <= i < entries.len() implies lacks_field(
                #[trigger] entries[i],
            ) by {
                assert(holds(entries[i]));
            }
            lemma_first_more(st.out, entries);
            lemma_first_more(st.out, st.pending);
            lemma_first_push(st.out + entries, line);
            lemma_first_push(st.out + st.pending, line);
            assert forall|i: int| 0 <= i < after.pending.len() implies lacks_field(
                #[trigger] after.pending[i],
            ) by {
                if i < st.pending.len() {
                    assert(after.pending[i] == st.pending[i]);
                }
            }
        }
    }
}

proof fn lemma_first_over_lines(ls: Seq<Seq<char>>, n: int)
    requires
        names_main_group(ls),
        0 <= n <= ls.len(),
    ensures
        ({
            let st = line_run(ls, n);
            &&& first_main(st.out) == first_main(ls.take(n))
            &&& all_lack(st.pending)
        }),
    decreases n,
{
    if n == 0 {
        assert(ls.take(0) =~= Seq::empty());
    } else {
        lemma_first_over_lines(ls, n - 1);
        lemma_shape_of_lines(ls, n - 1);
        let st = line_run(ls, n - 1);
        let after = line_run(ls, n);
        let line = ls[n - 1];
        assert(is_placed(shape_at(ls, n - 1), ls[n - 1]));
        assert(ls.take(n) =~= ls.take(n - 1).push(line));
        lemma_first_push(ls.take(n - 1), line);
        lemma_first_push(st.out, line);
        if st.section is Some {
            assert(lacks_field(line));
            let key = |l: Seq<char>| comment_key(l);
            let holds = |l: Seq<char>| lacks_field(l);
            assert forall|i: int| 0 <= i < st.pending.len() implies holds(
                #[trigger] st.pending[i],
            ) by {
            }
            lemma_sort_all(st.pending, key, holds);
            let entries = sort_by(st.pending, key);
            assert forall|i: int| 0 <= i < entries.len() implies lacks_field(
                #[trigger] entries[i],
            ) by {
                assert(holds(entries[i]));
            }
            lemma_first_more(st.out, entries);
            lemma_first_push(st.out + entries, line);
            assert forall|i: int| 0 <= i < after.pending.len() implies lacks_field(
                #[trigger] after.pending[i],
            ) by {
                if i < st.pending.len() {
                    assert(after.pending[i] == st.pending[i]);
                }
            }
        }
    }
}

/// No line of an entry names the main group.
spec fn entry_lacks(e: Seq<char>) -> bool {
    all_lack(item_lines(e))
}

proof fn lemma_flat_lacks(es: Seq<Seq<char>>)
    requires
        forall|i: int| 0 <= i < es.len() ==> entry_lacks(#[trigger] es[i]),
    ensures
        all_lack(flat(es)),
    decreases es.len(),
{
    if es.len() > 0 {
        let rest = es.drop_last();
        assert forall|i: int| 0 <= i < rest.len() implies entry_lacks(#[trigger] rest[i]) by {
            assert(rest[i] == es[i]);
        }
        lemma_flat_lacks(rest);
        assert(entry_lacks(es[es.len() - 1]));
        let a = flat(rest);
        let b = item_lines(es.last());
        assert forall|i: int| 0 <= i < (a + b).len() implies lacks_field(
            #[trigger] (a + b)[i],
        ) by {
            if i < a.len() {
                assert((a + b)[i] == a[i]);
            } else {
                assert((a + b)[i] == b[i - a.len()]);
            }
        }
        assert(flat(es) == a + b);
    }
}

#[verifier::rlimit(40)]
#[verifier::spinoff_prover]
proof fn lemma_first_over_section(name: Seq<char>, by: SectionKey, ls: Seq<Seq<char>>, n: int)
    requires
        names_main_group(ls),
        !is_line_name(name),
        is_sorted_section(name),
        0 <= n <= ls.len(),
    ensures
        ({
            let st = section_run(name, by, ls, n);
            &&& first_main(flat(st.out)) == first_main(ls.take(n))
            &&& all_lack(st.prefix)
            &&& all_lack(st.current)
            &&& forall|i: int| 0 <= i < st.entries.len() ==> entry_lacks(#[trigger] st.entries[i])
        }),
    decreases n,
{
    if n == 0 {
        assert(ls.take(0) =~= Seq::empty());
        assert(flat(Seq::<Seq<char>>::empty()) =~= Seq::empty());
    } else {
        lemma_first_over_section(name, by, ls, n - 1);
        lemma_shape_of_section(name, by, ls, n - 1);
        lemma_shape_sound(ls, n - 1);
        lemma_shape_nested(ls, n - 1);
        lemma_state_at(name, by, ls, n - 1);
        let st = section_run(name, by, ls, n - 1);
        let after = section_run(name, by, ls, n);
        let line = ls[n - 1];
        assert(crate::text::is_plain_line(ls[n - 1]));
        lemma_plain_item(line);
        assert(is_placed(shape_at(ls, n - 1), ls[n - 1]));
        assert(ls.take(n) =~= ls.take(n - 1).push(line));
        lemma_first_push(ls.take(n - 1), line);
        if !st.in_section {
            lemma_flat_push(st.out, line);
            assert(item_lines(line) =~= seq![line]);
            assert(flat(st.out) + seq![line] =~= flat(st.out).push(line));
            lemma_first_push(flat(st.out), line);
        } else {
            assert(lacks_field(line));
            if crate::pattern::word_section_end(line) == Some(name) {
                assert(!st.in_entry);
                assert(crate::sorter::close_entry(st) == st);
                let key = |e: Seq<char>| section_key(by, e);
                let holds = |e: Seq<char>| entry_lacks(e);
                assert forall|i: int| 0 <= i < st.entries.len() implies holds(
                    #[trigger] st.entries[i],
                ) by {
                }
                lemma_sort_all(st.entries, key, holds);
                let sorted = sort_by(st.entries, key);
                assert forall|i: int| 0 <= i < sorted.len() implies entry_lacks(
                    #[trigger] sorted[i],
                ) by {
                    assert(holds(sorted[i]));
                }
                lemma_flat_lacks(sorted);
                lemma_flat_plain(st.prefix);
                lemma_flat_push(st.out + st.prefix + sorted, line);
                lemma_flat_concat(st.out + st.prefix, sorted);
                lemma_flat_concat(st.out, st.prefix);
                let body = flat(st.out) + st.prefix + flat(sorted);
                lemma_first_more(flat(st.out), st.prefix);
                lemma_first_more(flat(st.out) + st.prefix, flat(sorted));
                lemma_first_push(body, line);
                assert(body + seq![line] =~= body.push(line));
                assert(flat(after.out) =~= body.push(line));
            } else {
                assert(all_lack(st.current.push(line))) by {
                    assert forall|i: int| 0 <= i < st.current.len() + 1 implies lacks_field(
                        #[trigger] st.current.push(line)[i],
                    ) by {
                        if i < st.current.len() {
                            assert(st.current.push(line)[i] == st.current[i]);
                        }
                    }
                }
                assert(all_lack(st.prefix.push(line))) by {
                    assert forall|i: int| 0 <= i < st.prefix.len() + 1 implies lacks_field(
                        #[trigger] st.prefix.push(line)[i],
                    ) by {
                        if i < st.prefix.len() {
                            assert(st.prefix.push(line)[i] == st.prefix[i]);
                        }
                    }
                }
                if st.in_entry && line == "\t\t};"@ {
                    crate::resort_section_laws::lemma_closed(name, st.current);
                    let e = joined(st.current.push(line));
                    assert(entry_lacks(e));
                    assert forall|i: int| 0 <= i < after.entries.len() implies entry_lacks(
                        #[trigger] after.entries[i],
                    ) by {
                        if i < st.entries.len() {
                            assert(after.entries[i] == st.entries[i]);
                        }
                    }
                }
            }
        }
    }
}

proof fn lemma_state_at(name: Seq<char>, by: SectionKey, ls: Seq<Seq<char>>, n: int)
    requires
        is_well_shaped(ls),
        !is_line_name(name),
        0 <= n <= ls.len(),
    ensures
        crate::resort_section_laws::state_ok(name, section_run(name, by, ls, n)),
{
    lemma_shape_ends(name, by, ls);
    lemma_state_ok(name, by, ls, n);
}

/// A pass leaves the main group the first to be named.
#[verifier::rlimit(40)]
#[verifier::spinoff_prover]
proof fn lemma_pass_main(main: Seq<char>, ls: Seq<Seq<char>>, n: int)
    requires
        names_main_group(ls),
        1 <= n <= 12,
    ensures
        first_main(pass_lines(main, ls, n)) == first_main(ls),
{
    let len = ls.len() as int;
    assert(ls.take(len) =~= ls);
    if n <= 2 {
        let kind = if n == 1 {
            ListKind::Files
        } else {
            ListKind::Children
        };
        let group = if n == 1 {
            Seq::empty()
        } else {
            main
        };
        lemma_first_over_lists(kind, group, ls, len);
        let st = list_run(kind, group, ls, len);
        lemma_first_more(st.out, st.pending);
    } else if n == 3 {
        lemma_first_over_lines(ls, len);
        let st = line_run(ls, len);
        lemma_first_more(st.out, st.pending);
    } else {
        lemma_names(n, n);
        let (name, by) = section_of_pass(n);
        lemma_first_over_section(name, by, ls, len);
        lemma_shape_of_section(name, by, ls, len);
        let st = section_run(name, by, ls, len);
        assert(flat(st.entries).len() == 0);
        assert(crate::watch_laws::held(name, by, ls, len) =~= flat(st.out));
    }
}

proof fn lemma_sorting_main(main: Seq<char>, s: Seq<char>, n: int)
    requires
        names_main_group(lines_of(s)),
        0 <= n <= 12,
    ensures
        names_main_group(lines_of(sort_text(main, s, n))),
        first_main(lines_of(sort_text(main, s, n))) == first_main(lines_of(s)),
    decreases n,
{
    if n > 0 {
        lemma_sorting_main(main, s, n - 1);
        let before = sort_text(main, s, n - 1);
        lemma_pass_text(main, before, n);
        lemma_pass_placed(main, lines_of(before), n);
        lemma_pass_main(main, lines_of(before), n);
    }
}

proof fn lemma_whole_fields(ls: Seq<Seq<char>>)
    requires
        names_main_group(ls),
    ensures
        forall|k: int| 0 <= k < ls.len() ==> has_whole_field(#[trigger] ls[k]),
{
    assert forall|k: int| 0 <= k < ls.len() implies has_whole_field(#[trigger] ls[k]) by {
        assert(is_placed(shape_at(ls, k), ls[k]));
    }
}

/// Sorting keeps the main group of a well-shaped text that names it outside lists
/// and sorted sections.
pub proof fn law_sorting_keeps_main_group(s: Seq<char>, sort_main_group: bool)
    requires
        names_main_group(lines_of(s)),
    ensures
        main_group(sorted_text(s, sort_main_group)) == main_group(s),
        names_main_group(lines_of(sorted_text(s, sort_main_group))),
{
    let main = unsorted_group(s, sort_main_group);
    lemma_sorting_main(main, s, 12);
    lemma_whole_fields(lines_of(s));
    lemma_whole_fields(lines_of(sort_text(main, s, 12)));
    lemma_main_of_lines(s);
    lemma_main_of_lines(sort_text(main, s, 12));
}

/// Sorting a text twice is sorting it once, and the second time no duplicate is
/// dropped: for a text whose sections, entries and lists are closed and nested
/// as they should be, and which names its main group, as far as that counts,
/// outside lists and outside the sections that are sorted.
pub proof fn law_text_sorted_once(s: Seq<char>, sort_main_group: bool)
    requires
        is_well_shaped(lines_of(s)),
        !sort_main_group ==> names_main_group(lines_of(s)),
    ensures
        ({
            let once = sorted_text(s, sort_main_group);
            &&& sorted_text(once, sort_main_group) == once
            &&& dropped_until(unsorted_group(once, sort_main_group), once, 12) == 0
        }),
{
    let main = unsorted_group(s, sort_main_group);
    let once = sorted_text(s, sort_main_group);
    if !sort_main_group {
        law_sorting_keeps_main_group(s, sort_main_group);
    }
    assert(unsorted_group(once, sort_main_group) == main);
    law_passes_sort_once(main, s);
    law_sort_no_longer(main, once, 12);
}

} // verus!
