//! The order of names in a sorted text.

use crate::order::{law_sort_sorts, sort_by, text_le};
use crate::pattern::{
    base_name, comment_name, entry_uuid, files_name, item_uuid, line_section, opens_list,
    quoted_name, target_field, word_section_begin, word_section_end,
};
use crate::resort_laws::{closes, ends_line, lemma_assembled, readable};
use crate::shape::{
    is_line_name, is_well_shaped, lemma_shape_nested, lemma_shape_of_lists, lemma_shape_of_section,
    lemma_shape_sound, may_stand, shape_at,
};
use crate::sorted_laws::{law_everything_is_sorted, lemma_names};
use crate::sorter::{
    assemble, belongs_to, comment_key, first_line, follows_uuid, indent_width, list_key, or_empty,
    section_key, section_of_pass, sorted_text, target_name, unsorted_group, ListKind, SectionKey,
};
use crate::text::{are_plain_lines, is_plain_line, joined, lines_of, lowercase, trimmed};
use crate::watch_laws::{
    lemma_line_watch_all, lemma_line_watch_next, lemma_list_watch_all, lemma_list_watch_next,
    lemma_section_watch_all, lemma_section_watch_next, line_watch_at, list_watch_at,
    section_watch_at,
};
use vstd::prelude::*;

verus! {

/// The first text stands before the second: it is the beginning of it, or has the
/// smaller character where they first differ.
pub open spec fn precedes(a: Seq<char>, b: Seq<char>) -> bool {
    ||| a.len() <= b.len() && a == b.take(a.len() as int)
    ||| exists|k: int|
        0 <= k < a.len() && k < b.len() && a.take(k) == b.take(k) && #[trigger] a[k] < b[k]
}

/// Texts are sorted by their first different character.
pub proof fn law_order_is_alphabetical(a: Seq<char>, b: Seq<char>)
    ensures
        text_le(a, b) ==> precedes(a, b),
        precedes(a, b) ==> text_le(a, b),
    decreases a.len(),
{
    if a.len() == 0 {
        assert(a =~= b.take(0));
    } else if b.len() > 0 {
        let x = a.drop_first();
        let y = b.drop_first();
        if a[0] == b[0] {
            law_order_is_alphabetical(x, y);
            if text_le(a, b) {
                if x.len() <= y.len() && x == y.take(x.len() as int) {
                    assert(a =~= seq![a[0]] + x);
                    assert(b.take(a.len() as int) =~= seq![b[0]] + y.take(x.len() as int));
                } else {
                    let k = choose|k: int|
                        0 <= k < x.len() && k < y.len() && x.take(k) == y.take(k) && #[trigger] x[k]
                            < y[k];
                    assert(a.take(k + 1) =~= seq![a[0]] + x.take(k));
                    assert(b.take(k + 1) =~= seq![b[0]] + y.take(k));
                    assert(a[k + 1] < b[k + 1]);
                }
            }
            if precedes(a, b) {
                if a.len() <= b.len() && a == b.take(a.len() as int) {
                    assert(x =~= b.take(a.len() as int).drop_first());
                    assert(y.take(x.len() as int) =~= b.take(a.len() as int).drop_first());
                } else {
                    let k = choose|k: int|
                        0 <= k < a.len() && k < b.len() && a.take(k) == b.take(k) && #[trigger] a[k]
                            < b[k];
                    assert(k > 0);
                    assert(x.take(k - 1) =~= a.take(k).drop_first());
                    assert(y.take(k - 1) =~= b.take(k).drop_first());
                    assert(x[k - 1] < y[k - 1]);
                }
            }
        } else {
            assert(a.take(0) =~= b.take(0));
            if precedes(a, b) {
                if a.len() <= b.len() && a == b.take(a.len() as int) {
                    assert(b.take(a.len() as int)[0] == b[0]);
                } else {
                    let k = choose|k: int|
                        0 <= k < a.len() && k < b.len() && a.take(k) == b.take(k) && #[trigger] a[k]
                            < b[k];
                    if k > 0 {
                        assert(a.take(k)[0] == a[0]);
                        assert(b.take(k)[0] == b[0]);
                    }
                }
            }
        }
    }
}

// ── Lists ────────────────────────────────────────────────────────────────────

/// Line `a` opens a list of this name, line `c` closes it, and each line between
/// is an item.
pub open spec fn is_list(ls: Seq<Seq<char>>, name: Seq<char>, a: int, c: int) -> bool {
    &&& 0 <= a < c < ls.len()
    &&& opens_list(ls[a], name)
    &&& ");"@.is_prefix_of(trimmed(ls[c]))
    &&& indent_width(ls[c]) == indent_width(ls[a])
    &&& forall|k: int|
        a < k < c ==> item_uuid(#[trigger] ls[k]) is Some && !");"@.is_prefix_of(trimmed(ls[k]))
}

#[verifier::rlimit(40)]
proof fn lemma_list_watched(
    kind: ListKind,
    main: Seq<char>,
    ls: Seq<Seq<char>>,
    a: int,
    c: int,
    n: int,
)
    requires
        is_well_shaped(ls),
        crate::watch_laws::lists_settled(kind, main, ls),
        is_list(
            ls,
            match kind {
                ListKind::Files => "files"@,
                ListKind::Children => "children"@,
            },
            a,
            c,
        ),
        a < n <= c,
        kind == ListKind::Children && main.len() > 0 ==> !follows_uuid(ls, a, main) && !belongs_to(
            ls,
            a,
            main,
        ),
    ensures
        ({
            let w = list_watch_at(kind, main, ls, n);
            &&& w.ok
            &&& w.in_list
            &&& w.sorts
            &&& w.indent == indent_width(ls[a])
            &&& w.pending == ls.subrange(a + 1, n)
        }),
    decreases n,
{
    lemma_list_watch_all(kind, main, ls, n);
    lemma_list_watch_all(kind, main, ls, n - 1);
    lemma_list_watch_next(kind, main, ls, n - 1);
    if n == a + 1 {
        lemma_shape_sound(ls, a);
        lemma_shape_sound(ls, n);
        lemma_shape_nested(ls, a);
        lemma_shape_of_lists(kind, main, ls, a);
        crate::shape::lemma_shape_next(ls, a);
        assert(may_stand(shape_at(ls, a), ls[a]));
        assert(ls.subrange(a + 1, n) =~= Seq::empty());
    } else {
        lemma_list_watched(kind, main, ls, a, c, n - 1);
        assert(item_uuid(ls[n - 1]) is Some);
        assert(ls.subrange(a + 1, n) =~= ls.subrange(a + 1, n - 1).push(ls[n - 1]));
    }
}

proof fn lemma_list_in_order(
    kind: ListKind,
    main: Seq<char>,
    ls: Seq<Seq<char>>,
    a: int,
    c: int,
    i: int,
    j: int,
)
    requires
        is_well_shaped(ls),
        crate::watch_laws::lists_settled(kind, main, ls),
        is_list(
            ls,
            match kind {
                ListKind::Files => "files"@,
                ListKind::Children => "children"@,
            },
            a,
            c,
        ),
        a < i <= j < c,
        kind == ListKind::Children && main.len() > 0 ==> !follows_uuid(ls, a, main) && !belongs_to(
            ls,
            a,
            main,
        ),
    ensures
        text_le(list_key(kind, ls[i]), list_key(kind, ls[j])),
{
    lemma_list_watched(kind, main, ls, a, c, c);
    lemma_list_watch_all(kind, main, ls, c + 1);
    lemma_list_watch_next(kind, main, ls, c);
    let key = |l: Seq<char>| list_key(kind, l);
    let w = list_watch_at(kind, main, ls, c);
    assert(closes(ls[c], w.indent));
    assert(sort_by(w.pending, key) == w.pending);
    law_sort_sorts(w.pending, key);
    assert(w.pending[i - a - 1] == ls[i]);
    assert(w.pending[j - a - 1] == ls[j]);
}

/// In a sorted text the files of every list of files stand in alphabetical order,
/// whatever their case.
pub proof fn law_files_in_alphabetical_order(
    s: Seq<char>,
    sort_main_group: bool,
    a: int,
    c: int,
    i: int,
    j: int,
)
    requires
        is_well_shaped(lines_of(s)),
        is_list(lines_of(sorted_text(s, sort_main_group)), "files"@, a, c),
        a < i <= j < c,
    ensures
        ({
            let ls = lines_of(sorted_text(s, sort_main_group));
            match (files_name(ls[i]), files_name(ls[j])) {
                (Some(x), Some(y)) => precedes(lowercase(x), lowercase(y)),
                (Some(x), None) => lowercase(x).len() == 0,
                _ => true,
            }
        }),
{
    let main = unsorted_group(s, sort_main_group);
    let ls = lines_of(sorted_text(s, sort_main_group));
    law_everything_is_sorted(main, s, 1);
    lemma_list_in_order(ListKind::Files, Seq::empty(), ls, a, c, i, j);
    law_order_is_alphabetical(
        list_key(ListKind::Files, ls[i]),
        list_key(ListKind::Files, ls[j]),
    );
}

/// In a sorted text the children of every group stand in alphabetical order,
/// whatever their case, those without a dot in their names before those with one;
/// unless the list is that of the main group, which keeps its order.
pub proof fn law_children_in_alphabetical_order(
    s: Seq<char>,
    sort_main_group: bool,
    a: int,
    c: int,
    i: int,
    j: int,
)
    requires
        is_well_shaped(lines_of(s)),
        is_list(lines_of(sorted_text(s, sort_main_group)), "children"@, a, c),
        a < i <= j < c,
        ({
            let ls = lines_of(sorted_text(s, sort_main_group));
            let main = unsorted_group(s, sort_main_group);
            main.len() > 0 ==> !follows_uuid(ls, a, main) && !belongs_to(ls, a, main)
        }),
    ensures
        ({
            let ls = lines_of(sorted_text(s, sort_main_group));
            match (comment_name(ls[i]), comment_name(ls[j])) {
                (Some(x), Some(y)) => {
                    &&& x.contains('.') ==> y.contains('.')
                    &&& x.contains('.') == y.contains('.') ==> precedes(lowercase(x), lowercase(y))
                },
                _ => true,
            }
        }),
{
    let main = unsorted_group(s, sort_main_group);
    let ls = lines_of(sorted_text(s, sort_main_group));
    law_everything_is_sorted(main, s, 2);
    lemma_list_in_order(ListKind::Children, main, ls, a, c, i, j);
    let x = list_key(ListKind::Children, ls[i]);
    let y = list_key(ListKind::Children, ls[j]);
    assert(x.drop_first() =~= lowercase(or_empty(comment_name(ls[i]))));
    assert(y.drop_first() =~= lowercase(or_empty(comment_name(ls[j]))));
    law_order_is_alphabetical(x.drop_first(), y.drop_first());
    assert('0' < '1');
}

// ── Sections with one entry per line ─────────────────────────────────────────

/// Line `a` begins a section of this name, line `c` ends it, and each line between
/// is an entry.
pub open spec fn is_line_list(ls: Seq<Seq<char>>, name: Seq<char>, a: int, c: int) -> bool {
    &&& 0 <= a < c < ls.len()
    &&& line_section(ls[a], "/* Begin "@) == Some(name)
    &&& line_section(ls[c], "/* End "@) == Some(name)
    &&& forall|k: int|
        a < k < c ==> item_uuid(#[trigger] ls[k]) is Some && line_section(ls[k], "/* End "@)
            != Some(name)
}

proof fn lemma_line_watched(ls: Seq<Seq<char>>, name: Seq<char>, a: int, c: int, n: int)
    requires
        is_well_shaped(ls),
        crate::watch_laws::lines_settled(ls),
        is_line_list(ls, name, a, c),
        a < n <= c,
    ensures
        ({
            let w = line_watch_at(ls, n);
            &&& w.ok
            &&& w.section == Some(name)
            &&& w.pending == ls.subrange(a + 1, n)
        }),
    decreases n,
{
    lemma_line_watch_all(ls, n);
    lemma_line_watch_all(ls, n - 1);
    lemma_line_watch_next(ls, n - 1);
    if n == a + 1 {
        lemma_shape_sound(ls, a);
        lemma_shape_sound(ls, n);
        lemma_shape_nested(ls, a);
        crate::shape::lemma_shape_of_lines(ls, a);
        crate::shape::lemma_shape_next(ls, a);
        assert(may_stand(shape_at(ls, a), ls[a]));
        assert(ls.subrange(a + 1, n) =~= Seq::empty());
    } else {
        lemma_line_watched(ls, name, a, c, n - 1);
        assert(item_uuid(ls[n - 1]) is Some);
        assert(ls.subrange(a + 1, n) =~= ls.subrange(a + 1, n - 1).push(ls[n - 1]));
    }
}

/// In a sorted text the entries of the sections with one entry per line stand in
/// the alphabetical order of their names, whatever their case.
pub proof fn law_lines_in_alphabetical_order(
    s: Seq<char>,
    sort_main_group: bool,
    name: Seq<char>,
    a: int,
    c: int,
    i: int,
    j: int,
)
    requires
        is_well_shaped(lines_of(s)),
        is_line_list(lines_of(sorted_text(s, sort_main_group)), name, a, c),
        a < i <= j < c,
    ensures
        ({
            let ls = lines_of(sorted_text(s, sort_main_group));
            match (comment_name(ls[i]), comment_name(ls[j])) {
                (Some(x), Some(y)) => precedes(lowercase(x), lowercase(y)),
                _ => true,
            }
        }),
{
    let main = unsorted_group(s, sort_main_group);
    let ls = lines_of(sorted_text(s, sort_main_group));
    law_everything_is_sorted(main, s, 3);
    lemma_line_watched(ls, name, a, c, c);
    lemma_line_watch_all(ls, c + 1);
    lemma_line_watch_next(ls, c);
    let key = |l: Seq<char>| comment_key(l);
    let w = line_watch_at(ls, c);
    assert(sort_by(w.pending, key) == w.pending);
    law_sort_sorts(w.pending, key);
    assert(w.pending[i - a - 1] == ls[i]);
    assert(w.pending[j - a - 1] == ls[j]);
    assert(text_le(key(w.pending[i - a - 1]), key(w.pending[j - a - 1])));
    law_order_is_alphabetical(comment_key(ls[i]), comment_key(ls[j]));
}

// ── Sections whose entries span several lines ────────────────────────────────

/// The lines of an entry: the one that opens it, those inside, and the one that
/// closes it.
pub open spec fn is_entry(name: Seq<char>, b: Seq<Seq<char>>) -> bool {
    &&& b.len() > 1
    &&& entry_uuid(b[0]) is Some
    &&& b.last() == "\t\t};"@
    &&& forall|k: int|
        0 <= k < b.len() ==> word_section_end(#[trigger] b[k]) != Some(name) && (k < b.len() - 1
            ==> b[k] != "\t\t};"@)
}

/// The lines of some entries, one after the other.
pub open spec fn entry_lines(bs: Seq<Seq<Seq<char>>>) -> Seq<Seq<char>>
    decreases bs.len(),
{
    if bs.len() == 0 {
        Seq::empty()
    } else {
        entry_lines(bs.drop_last()) + bs.last()
    }
}

/// The lines from `a` on are a section of this name with these entries.
pub open spec fn is_entry_list(
    ls: Seq<Seq<char>>,
    name: Seq<char>,
    a: int,
    bs: Seq<Seq<Seq<char>>>,
) -> bool {
    let c = a + 1 + entry_lines(bs).len();
    &&& 0 <= a < c < ls.len()
    &&& word_section_begin(ls[a]) == Some(name)
    &&& ls.subrange(a + 1, c) == entry_lines(bs)
    &&& word_section_end(ls[c]) == Some(name)
    &&& forall|i: int| 0 <= i < bs.len() ==> is_entry(name, #[trigger] bs[i])
}

spec fn entry_texts(bs: Seq<Seq<Seq<char>>>) -> Seq<Seq<char>> {
    Seq::new(bs.len(), |i: int| joined(bs[i]))
}

/// The watch inside an entry.
proof fn lemma_entry_watched(
    name: Seq<char>,
    by: SectionKey,
    ls: Seq<Seq<char>>,
    at: int,
    b: Seq<Seq<char>>,
    k: int,
)
    requires
        is_well_shaped(ls),
        !is_line_name(name),
        crate::watch_laws::section_settled(name, by, ls),
        is_entry(name, b),
        0 <= at,
        at + b.len() <= ls.len(),
        ls.subrange(at, at + b.len()) == b,
        0 <= k <= b.len(),
        ({
            let w = section_watch_at(name, by, ls, at);
            w.in_section && !w.in_entry && w.current.len() == 0
        }),
    ensures
        ({
            let before = section_watch_at(name, by, ls, at);
            let w = section_watch_at(name, by, ls, at + k);
            &&& w.ok
            &&& w.in_section
            &&& k == b.len() ==> !w.in_entry && w.current.len() == 0 && w.entries
                == before.entries.push(joined(b))
            &&& 0 < k < b.len() ==> w.in_entry && w.current == b.take(k) && w.entries
                == before.entries
        }),
    decreases k,
{
    lemma_section_watch_all(name, by, ls, at + k);
    if k > 0 {
        lemma_entry_watched(name, by, ls, at, b, k - 1);
        lemma_section_watch_all(name, by, ls, at + k - 1);
        lemma_section_watch_next(name, by, ls, at + k - 1);
        let w = section_watch_at(name, by, ls, at + k - 1);
        assert(ls.subrange(at, at + b.len())[k - 1] == ls[at + k - 1]);
        assert(ls[at + k - 1] == b[k - 1]);
        assert(b.take(k) =~= b.take(k - 1).push(b[k - 1]));
        if k == 1 {
            assert(w.current =~= b.take(0));
            assert(b[0] != "\t\t};"@);
        }
        if k == b.len() {
            assert(b.take(k) =~= b);
        }
    }
}

proof fn lemma_section_watched(
    name: Seq<char>,
    by: SectionKey,
    ls: Seq<Seq<char>>,
    a: int,
    bs: Seq<Seq<Seq<char>>>,
    k: int,
)
    requires
        is_well_shaped(ls),
        !is_line_name(name),
        crate::watch_laws::section_settled(name, by, ls),
        is_entry_list(ls, name, a, bs),
        0 <= k <= bs.len(),
    ensures
        ({
            let w = section_watch_at(name, by, ls, a + 1 + entry_lines(bs.take(k)).len());
            &&& w.ok
            &&& w.in_section
            &&& !w.in_entry
            &&& w.current.len() == 0
            &&& w.entries == entry_texts(bs.take(k))
        }),
        entry_lines(bs.take(k)).is_prefix_of(entry_lines(bs)),
    decreases k,
{
    lemma_prefix(bs, k);
    if k == 0 {
        assert(bs.take(0) =~= Seq::empty());
        assert(entry_lines(bs.take(0)).len() == 0);
        lemma_section_watch_all(name, by, ls, a);
        lemma_section_watch_all(name, by, ls, a + 1);
        lemma_section_watch_next(name, by, ls, a);
        lemma_shape_sound(ls, a);
        lemma_shape_sound(ls, a + 1);
        lemma_shape_nested(ls, a);
        lemma_shape_of_section(name, by, ls, a);
        crate::shape::lemma_shape_next(ls, a);
        assert(may_stand(shape_at(ls, a), ls[a]));
        assert(entry_texts(bs.take(0)) =~= Seq::empty());
    } else {
        lemma_section_watched(name, by, ls, a, bs, k - 1);
        lemma_prefix(bs, k - 1);
        let less = bs.take(k - 1);
        let b = bs[k - 1];
        assert(bs.take(k).drop_last() =~= less);
        assert(bs.take(k).last() == b);
        let at = a + 1 + entry_lines(less).len();
        let all = entry_lines(bs);
        let part = entry_lines(bs.take(k));
        assert(part == entry_lines(less) + b);
        assert forall|i: int| 0 <= i < b.len() implies ls[at + i] == b[i] by {
            assert(part[entry_lines(less).len() + i] == b[i]);
            assert(all[entry_lines(less).len() + i] == part[entry_lines(less).len() + i]);
            assert(ls.subrange(a + 1, a + 1 + all.len())[entry_lines(less).len() + i] == ls[at + i]);
        }
        assert(ls.subrange(at, at + b.len()) =~= b);
        lemma_entry_watched(name, by, ls, at, b, b.len() as int);
        assert(entry_texts(bs.take(k)) =~= entry_texts(less).push(joined(b)));
    }
}

pub proof fn lemma_prefix(bs: Seq<Seq<Seq<char>>>, k: int)
    requires
        0 <= k <= bs.len(),
    ensures
        entry_lines(bs.take(k)).is_prefix_of(entry_lines(bs)),
    decreases bs.len(),
{
    if k == bs.len() {
        assert(bs.take(k) =~= bs);
        assert(entry_lines(bs) =~= entry_lines(bs).subrange(0, entry_lines(bs).len() as int));
    } else {
        let rest = bs.drop_last();
        lemma_prefix(rest, k);
        assert(rest.take(k) =~= bs.take(k));
        let p = entry_lines(bs.take(k));
        assert(p =~= entry_lines(bs).subrange(0, p.len() as int)) by {
            assert(p == entry_lines(rest).subrange(0, p.len() as int));
        }
    }
}

/// What the section is sorted by, of an entry: what stands in it, and how it is
/// read.
pub open spec fn sorts_by(name: Seq<char>, b: Seq<Seq<char>>, x: Seq<char>) -> bool {
    if name == "XCConfigurationList"@ {
        quoted_name(b[0]) is Some && x == lowercase(quoted_name(b[0])->Some_0)
    } else if name == "PBXTargetDependency"@ {
        exists|k: int|
            0 <= k < b.len() && (#[trigger] target_field(b[k])) is Some && x == lowercase(
                trimmed(target_field(b[k])->Some_0),
            ) && forall|j: int| 0 <= j < k ==> target_field(#[trigger] b[j]) is None
    } else if name == "XCBuildConfiguration"@ && base_name(joined(b)) is Some {
        x == lowercase(trimmed(base_name(joined(b))->Some_0))
    } else {
        comment_name(b[0]) is Some && x == lowercase(comment_name(b[0])->Some_0)
    }
}

/// The sections whose entries are sorted.
pub open spec fn has_sorted_entries(name: Seq<char>) -> bool {
    ||| name == "XCBuildConfiguration"@
    ||| name == "PBXVariantGroup"@
    ||| name == "XCConfigurationList"@
    ||| name == "PBXNativeTarget"@
    ||| name == "PBXAggregateTarget"@
    ||| name == "PBXGroup"@
    ||| name == "PBXTargetDependency"@
    ||| name == "XCRemoteSwiftPackageReference"@
    ||| name == "XCSwiftPackageProductDependency"@
}

proof fn lemma_target_name(ls: Seq<Seq<char>>, i: int, k: int)
    requires
        0 <= i <= k < ls.len(),
        target_field(ls[k]) is Some,
        forall|j: int| i <= j < k ==> target_field(#[trigger] ls[j]) is None,
    ensures
        target_name(ls, i) == target_field(ls[k]),
    decreases k - i,
{
    if i < k {
        lemma_target_name(ls, i + 1, k);
    }
}

proof fn lemma_pass_of(name: Seq<char>) -> (n: int)
    requires
        has_sorted_entries(name),
    ensures
        4 <= n <= 12,
        section_of_pass(n).0 == name,
        !is_line_name(name),
        section_of_pass(n).1 == if name == "XCConfigurationList"@ {
            SectionKey::Quoted
        } else if name == "PBXTargetDependency"@ {
            SectionKey::Target
        } else if name == "XCBuildConfiguration"@ {
            SectionKey::BaseConfiguration
        } else {
            SectionKey::Comment
        },
{
    let n: int = if name == "XCBuildConfiguration"@ {
        4
    } else if name == "PBXVariantGroup"@ {
        5
    } else if name == "XCConfigurationList"@ {
        6
    } else if name == "PBXNativeTarget"@ {
        7
    } else if name == "PBXAggregateTarget"@ {
        8
    } else if name == "PBXGroup"@ {
        9
    } else if name == "PBXTargetDependency"@ {
        10
    } else if name == "XCRemoteSwiftPackageReference"@ {
        11
    } else {
        12
    };
    lemma_names(n, 4);
    lemma_names(n, 6);
    lemma_names(n, 10);
    n
}

proof fn lemma_section_key(name: Seq<char>, by: SectionKey, b: Seq<Seq<char>>, x: Seq<char>)
    requires
        is_entry(name, b),
        are_plain_lines(b),
        sorts_by(name, b, x),
        by == if name == "XCConfigurationList"@ {
            SectionKey::Quoted
        } else if name == "PBXTargetDependency"@ {
            SectionKey::Target
        } else if name == "XCBuildConfiguration"@ {
            SectionKey::BaseConfiguration
        } else {
            SectionKey::Comment
        },
    ensures
        section_key(by, joined(b)) == x,
{
    reveal_strlit("\t\t};");
    reveal_strlit("XCConfigurationList");
    reveal_strlit("PBXTargetDependency");
    assert("XCConfigurationList"@[0] != "PBXTargetDependency"@[0]);
    let none = Seq::<char>::empty();
    assert(b.last()[0] == '\t');
    assert(b.last().len() == 4);
    assert(assemble(b, none) == joined(b));
    assert(is_plain_line(b[b.len() - 1]));
    assert(readable(b, ends_line(none))) by {
        assert forall|i: int| 0 <= i < b.len() implies is_plain_line(#[trigger] b[i]) by {}
    }
    lemma_assembled(b, none);
    assert(lines_of(joined(b)) == b);
    assert(first_line(joined(b)) == b[0]);
    if name == "PBXTargetDependency"@ {
        let k = choose|k: int|
            0 <= k < b.len() && (#[trigger] target_field(b[k])) is Some && x == lowercase(
                trimmed(target_field(b[k])->Some_0),
            ) && forall|j: int| 0 <= j < k ==> target_field(#[trigger] b[j]) is None;
        lemma_target_name(b, 0, k);
    }
}

/// In a sorted text the entries of the sections that are sorted stand in
/// alphabetical order, whatever the case: by their names; configurations by that of
/// their base, if they have one; lists of configurations by the quoted name of what
/// they belong to; dependencies by their targets.
#[verifier::rlimit(40)]
pub proof fn law_entries_in_alphabetical_order(
    s: Seq<char>,
    sort_main_group: bool,
    name: Seq<char>,
    a: int,
    bs: Seq<Seq<Seq<char>>>,
    i: int,
    j: int,
    x: Seq<char>,
    y: Seq<char>,
)
    requires
        is_well_shaped(lines_of(s)),
        has_sorted_entries(name),
        is_entry_list(lines_of(sorted_text(s, sort_main_group)), name, a, bs),
        0 <= i <= j < bs.len(),
        sorts_by(name, bs[i], x),
        sorts_by(name, bs[j], y),
    ensures
        precedes(x, y),
{
    let main = unsorted_group(s, sort_main_group);
    let ls = lines_of(sorted_text(s, sort_main_group));
    let n = lemma_pass_of(name);
    let by = section_of_pass(n).1;
    law_everything_is_sorted(main, s, n);
    lemma_section_watched(name, by, ls, a, bs, bs.len() as int);
    assert(bs.take(bs.len() as int) =~= bs);
    let c = a + 1 + entry_lines(bs).len();
    lemma_section_watch_all(name, by, ls, c + 1);
    lemma_section_watch_next(name, by, ls, c);
    let key = |e: Seq<char>| section_key(by, e);
    let es = entry_texts(bs);
    assert(sort_by(es, key) == es);
    law_sort_sorts(es, key);
    lemma_plain_entry(ls, a, bs, i);
    lemma_plain_entry(ls, a, bs, j);
    assert(is_entry(name, bs[i]));
    assert(is_entry(name, bs[j]));
    lemma_section_key(name, by, bs[i], x);
    lemma_section_key(name, by, bs[j], y);
    assert(es[i] == joined(bs[i]) && es[j] == joined(bs[j]));
    assert(text_le(key(es[i]), key(es[j])));
    law_order_is_alphabetical(x, y);
}

proof fn lemma_plain_entry(ls: Seq<Seq<char>>, a: int, bs: Seq<Seq<Seq<char>>>, i: int)
    requires
        are_plain_lines(ls),
        0 <= a,
        a + 1 + entry_lines(bs).len() < ls.len(),
        ls.subrange(a + 1, a + 1 + entry_lines(bs).len()) == entry_lines(bs),
        0 <= i < bs.len(),
    ensures
        are_plain_lines(bs[i]),
{
    lemma_prefix(bs, i + 1);
    let part = entry_lines(bs.take(i + 1));
    let less = entry_lines(bs.take(i));
    assert(bs.take(i + 1).drop_last() =~= bs.take(i));
    assert(bs.take(i + 1).last() == bs[i]);
    assert(part == less + bs[i]);
    let all = entry_lines(bs);
    assert forall|k: int| 0 <= k < bs[i].len() implies is_plain_line(#[trigger] bs[i][k]) by {
        assert(part[less.len() + k] == bs[i][k]);
        assert(all[less.len() + k] == part[less.len() + k]);
        assert(ls.subrange(a + 1, a + 1 + all.len())[less.len() + k] == ls[a + 1 + less.len() + k]);
        assert(is_plain_line(ls[a + 1 + less.len() + k]));
    }
}

} // verus!
