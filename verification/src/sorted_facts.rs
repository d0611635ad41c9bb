//! Sorting a text keeps its facts.

use crate::level::{in_objects, is_level, level_of, read_on, stands_level};
use crate::level_section_laws::lemma_passes_level;
use crate::level_sorted_laws::lemma_level_at;
use crate::line_reading::{facts_from, line_toks, reading, spot_of, text_facts};
use crate::main_group_laws::lemma_project_is_not_sorted;
use crate::order::{insert_by, sort_by, text_le};
use crate::pattern::{entry_uuid, word_section_end};
use crate::permutation_laws::{blanks_are_void, is_void_if_blank, lemma_passes_permute};
use crate::reading::{run_facts, Fact, Spot};
use crate::repeat_laws::lemma_blank_effect;
use crate::resort_laws::lemma_sort_all;
use crate::resort_section_laws::{
    flat, item_lines, lemma_closed, lemma_flat_concat, lemma_flat_plain, lemma_flat_push,
    lemma_plain_item, lemma_state_ok,
};
use crate::shape::{
    fold, is_at_rest, is_line_name, is_well_shaped, lemma_fold_concat, lemma_fold_take,
    lemma_line_sections_keep_state, lemma_lists_keep_state, lemma_section_keeps_state,
    lemma_shape_ends, lemma_shape_nested, lemma_shape_of_lines, lemma_shape_of_lists,
    lemma_shape_of_section, lemma_shape_rests, resting, shape_at,
};
use crate::sorted_laws::{lemma_names, lemma_pass_text};
use crate::sorter::{
    close_entry, comment_key, dropped_until, line_run, list_key, list_run, section_key,
    section_of_pass, section_run, sort_pass, sort_text, ListKind, SectionKey,
};
use crate::text::{is_blank, is_plain_line, joined, lines_of};
use crate::watch_laws::{held, line_lines, list_lines, section_lines};
use vstd::multiset::Multiset;
use vstd::prelude::*;

verus! {

// ── Weights ──────────────────────────────────────────────────────────────────

/// How often each fact holds.
pub open spec fn fact_bag(fs: Seq<Fact>) -> Multiset<Fact> {
    fs.to_multiset()
}

proof fn lemma_bag_concat(a: Seq<Fact>, b: Seq<Fact>)
    ensures
        fact_bag(a + b) == fact_bag(a).add(fact_bag(b)),
{
    vstd::seq_lib::lemma_multiset_commutative(a, b);
}

pub proof fn lemma_empty_bag()
    ensures
        fact_bag(Seq::<Fact>::empty()) == Multiset::<Fact>::empty(),
{
    broadcast use vstd::seq_lib::group_to_multiset_ensures;

    let none = Seq::<Fact>::empty();
    assert forall|f: Fact| fact_bag(none).count(f) == 0 by {
        assert(!none.contains(f));
    }
    assert(fact_bag(none) =~= Multiset::<Fact>::empty());
}

/// The facts of some lines or entries together, as far as `w` says what each has.
spec fn weight(w: spec_fn(Seq<char>) -> Multiset<Fact>, xs: Seq<Seq<char>>) -> Multiset<Fact>
    decreases xs.len(),
{
    if xs.len() == 0 {
        Multiset::empty()
    } else {
        weight(w, xs.drop_last()).add(w(xs.last()))
    }
}

proof fn lemma_weight_push(
    w: spec_fn(Seq<char>) -> Multiset<Fact>,
    xs: Seq<Seq<char>>,
    x: Seq<char>,
)
    ensures
        weight(w, xs.push(x)) == weight(w, xs).add(w(x)),
{
    assert(xs.push(x).drop_last() =~= xs);
}

proof fn lemma_weight_insert(
    w: spec_fn(Seq<char>) -> Multiset<Fact>,
    xs: Seq<Seq<char>>,
    x: Seq<char>,
    key: spec_fn(Seq<char>) -> Seq<char>,
)
    ensures
        weight(w, insert_by(xs, x, key)) == weight(w, xs).add(w(x)),
    decreases xs.len(),
{
    if xs.len() == 0 || text_le(key(xs.last()), key(x)) {
        lemma_weight_push(w, xs, x);
    } else {
        let rest = xs.drop_last();
        lemma_weight_insert(w, rest, x, key);
        lemma_weight_push(w, insert_by(rest, x, key), xs.last());
        assert(weight(w, rest).add(w(x)).add(w(xs.last())) =~= weight(w, rest).add(
            w(xs.last()),
        ).add(w(x)));
    }
}

proof fn lemma_weight_sort(
    w: spec_fn(Seq<char>) -> Multiset<Fact>,
    xs: Seq<Seq<char>>,
    key: spec_fn(Seq<char>) -> Seq<char>,
)
    ensures
        weight(w, sort_by(xs, key)) == weight(w, xs),
    decreases xs.len(),
{
    if xs.len() > 0 {
        lemma_weight_sort(w, xs.drop_last(), key);
        lemma_weight_insert(w, sort_by(xs.drop_last(), key), xs.last(), key);
    }
}

/// The facts of a line read at a spot.
spec fn of_line(b: Spot) -> spec_fn(Seq<char>) -> Multiset<Fact> {
    |l: Seq<char>| fact_bag(run_facts(b, line_toks(l)))
}

/// The facts of an entry read at a spot.
spec fn of_entry(b: Spot) -> spec_fn(Seq<char>) -> Multiset<Fact> {
    |e: Seq<char>| fact_bag(facts_from(b, item_lines(e)))
}

proof fn lemma_facts_push(s: Spot, ls: Seq<Seq<char>>, l: Seq<char>)
    ensures
        facts_from(s, ls.push(l)) == facts_from(s, ls) + run_facts(
            fold(reading(), s, ls),
            line_toks(l),
        ),
        fact_bag(facts_from(s, ls.push(l))) == fact_bag(facts_from(s, ls)).add(
            of_line(fold(reading(), s, ls))(l),
        ),
{
    assert(ls.push(l).drop_last() =~= ls);
    lemma_bag_concat(facts_from(s, ls), run_facts(fold(reading(), s, ls), line_toks(l)));
}

proof fn lemma_facts_concat(s: Spot, a: Seq<Seq<char>>, b: Seq<Seq<char>>)
    ensures
        fact_bag(facts_from(s, a + b)) == fact_bag(facts_from(s, a)).add(
            fact_bag(facts_from(fold(reading(), s, a), b)),
        ),
    decreases b.len(),
{
    let mid = fold(reading(), s, a);
    if b.len() == 0 {
        assert(a + b =~= a);
        lemma_empty_bag();
        assert(fact_bag(facts_from(s, a)).add(Multiset::empty()) =~= fact_bag(facts_from(s, a)));
    } else {
        let rest = b.drop_last();
        lemma_facts_concat(s, a, rest);
        assert((a + rest).push(b.last()) =~= a + b);
        lemma_facts_push(s, a + rest, b.last());
        assert(rest.push(b.last()) =~= b);
        lemma_facts_push(mid, rest, b.last());
        lemma_fold_concat(reading(), s, a, rest);
        let w = of_line(fold(reading(), mid, rest))(b.last());
        assert(fact_bag(facts_from(s, a)).add(fact_bag(facts_from(mid, rest))).add(w) =~= fact_bag(
            facts_from(s, a),
        ).add(fact_bag(facts_from(mid, rest)).add(w)));
    }
}

/// Lines none of which moves the spot.
proof fn lemma_neutral_lines(b: Spot, xs: Seq<Seq<char>>)
    requires
        forall|i: int| 0 <= i < xs.len() ==> reading()(b, #[trigger] xs[i]) == b,
    ensures
        fold(reading(), b, xs) == b,
        fact_bag(facts_from(b, xs)) == weight(of_line(b), xs),
    decreases xs.len(),
{
    if xs.len() > 0 {
        let rest = xs.drop_last();
        assert forall|i: int| 0 <= i < rest.len() implies reading()(b, #[trigger] rest[i]) == b by {
            assert(rest[i] == xs[i]);
        }
        lemma_neutral_lines(b, rest);
        assert(reading()(b, xs[xs.len() - 1]) == b);
        assert(rest.push(xs.last()) =~= xs);
        lemma_facts_push(b, rest, xs.last());
    } else {
        lemma_empty_bag();
    }
}

/// Entries none of which moves the spot.
proof fn lemma_neutral_entries(b: Spot, es: Seq<Seq<char>>)
    requires
        forall|i: int| 0 <= i < es.len() ==> fold(reading(), b, item_lines(#[trigger] es[i])) == b,
    ensures
        fold(reading(), b, flat(es)) == b,
        fact_bag(facts_from(b, flat(es))) == weight(of_entry(b), es),
    decreases es.len(),
{
    if es.len() > 0 {
        let rest = es.drop_last();
        assert forall|i: int| 0 <= i < rest.len() implies fold(
            reading(),
            b,
            item_lines(#[trigger] rest[i]),
        ) == b by {
            assert(rest[i] == es[i]);
        }
        lemma_neutral_entries(b, rest);
        assert(fold(reading(), b, item_lines(es[es.len() - 1])) == b);
        lemma_facts_concat(b, flat(rest), item_lines(es.last()));
        lemma_fold_concat(reading(), b, flat(rest), item_lines(es.last()));
    } else {
        lemma_empty_bag();
    }
}

// ── The spot along a level text ──────────────────────────────────────────────

proof fn lemma_level_spot(ls: Seq<Seq<char>>, n: int)
    requires
        is_level(ls),
        0 <= n <= ls.len(),
    ensures
        level_of(ls.take(n)).spot == spot_of(ls.take(n)),
    decreases n,
{
    lemma_level_at(ls, n);
    if n == 0 {
        assert(ls.take(0) =~= Seq::empty());
    } else {
        lemma_level_spot(ls, n - 1);
        lemma_level_at(ls, n - 1);
        lemma_fold_take(reading(), Spot::Start, ls, n - 1);
        reveal(read_on);
    }
}

/// A line inside a list does not move the spot.
proof fn lemma_list_spot(ls: Seq<Seq<char>>, n: int)
    requires
        is_level(ls),
        0 <= n < ls.len(),
        shape_at(ls, n).list is Some,
        shape_at(ls, n + 1).list is Some,
    ensures
        spot_of(ls.take(n + 1)) == spot_of(ls.take(n)),
{
    lemma_level_at(ls, n);
    lemma_level_at(ls, n + 1);
    lemma_level_spot(ls, n);
    lemma_level_spot(ls, n + 1);
    reveal(read_on);
    reveal(stands_level);
}

/// Between the entries of a section the spot is between the objects.
proof fn lemma_section_spot(ls: Seq<Seq<char>>, n: int)
    requires
        is_level(ls),
        0 < n <= ls.len(),
        shape_at(ls, n).section is Some,
        shape_at(ls, n).section != Some("PBXProject"@),
        !shape_at(ls, n).entry,
        is_at_rest(shape_at(ls, n)),
    ensures
        spot_of(ls.take(n)) == in_objects(),
{
    lemma_level_at(ls, n);
    lemma_level_spot(ls, n);
}

/// A line in which nothing is read says nothing.
proof fn lemma_void_line(b: Spot, line: Seq<char>)
    requires
        line_toks(line).len() == 0,
    ensures
        of_line(b)(line) == Multiset::<Fact>::empty(),
{
    lemma_empty_bag();
    assert(run_facts(b, line_toks(line)) =~= Seq::<Fact>::empty());
}

// ── Lists ────────────────────────────────────────────────────────────────────

proof fn lemma_lists_neutral(kind: ListKind, main: Seq<char>, ls: Seq<Seq<char>>)
    requires
        is_level(ls),
        is_well_shaped(ls),
    ensures
        forall|i: int|
            0 <= i < ls.len() && list_run(kind, main, ls, i).in_list && list_run(
                kind,
                main,
                ls,
                i + 1,
            ).in_list ==> fold(reading(), Spot::Start, #[trigger] ls.take(i + 1)) == fold(
                reading(),
                Spot::Start,
                ls.take(i),
            ),
{
    assert forall|i: int|
        0 <= i < ls.len() && list_run(kind, main, ls, i).in_list && list_run(
            kind,
            main,
            ls,
            i + 1,
        ).in_list implies fold(reading(), Spot::Start, #[trigger] ls.take(i + 1)) == fold(
        reading(),
        Spot::Start,
        ls.take(i),
    ) by {
        lemma_shape_of_lists(kind, main, ls, i);
        lemma_shape_of_lists(kind, main, ls, i + 1);
        lemma_list_spot(ls, i);
    }
}

/// What is put out and what is held back.
spec fn list_bag(kind: ListKind, main: Seq<char>, ls: Seq<Seq<char>>, n: int) -> Multiset<Fact> {
    let st = list_run(kind, main, ls, n);
    fact_bag(text_facts(st.out)).add(weight(of_line(spot_of(ls.take(n))), st.pending))
}

#[verifier::rlimit(40)]
#[verifier::spinoff_prover]
proof fn lemma_lists_facts(kind: ListKind, main: Seq<char>, ls: Seq<Seq<char>>, n: int)
    requires
        is_level(ls),
        is_well_shaped(ls),
        blanks_are_void(ls),
        0 <= n <= ls.len(),
        list_run(kind, main, ls, n).dropped == 0,
    ensures
        list_bag(kind, main, ls, n) == fact_bag(text_facts(ls.take(n))),
    decreases n,
{
    let none = Multiset::<Fact>::empty();
    if n == 0 {
        assert(ls.take(0) =~= Seq::empty());
        lemma_empty_bag();
        assert(list_bag(kind, main, ls, 0) =~= none);
    } else {
        lemma_lists_facts(kind, main, ls, n - 1);
        lemma_lists_neutral(kind, main, ls);
        lemma_lists_keep_state(reading(), Spot::Start, kind, main, ls, n - 1);
        lemma_lists_keep_state(reading(), Spot::Start, kind, main, ls, n);
        lemma_shape_of_lists(kind, main, ls, n - 1);
        let st = list_run(kind, main, ls, n - 1);
        let after = list_run(kind, main, ls, n);
        let line = ls[n - 1];
        let b = spot_of(ls.take(n - 1));
        let c = spot_of(ls.take(n));
        assert(ls.take(n) =~= ls.take(n - 1).push(line));
        lemma_facts_push(Spot::Start, ls.take(n - 1), line);
        lemma_facts_push(Spot::Start, st.out, line);
        assert(is_void_if_blank(shape_at(ls, n - 1), ls[n - 1]));
        let o = fact_bag(text_facts(st.out));
        let w = of_line(b)(line);
        let p = weight(of_line(b), st.pending);
        assert(o.add(p).add(w) == fact_bag(text_facts(ls.take(n))));
        if !st.in_list {
            assert(st.pending =~= Seq::empty());
            assert(p =~= none);
            assert(after.pending =~= Seq::empty());
            assert(weight(of_line(c), after.pending) =~= none);
            assert(list_bag(kind, main, ls, n) =~= o.add(p).add(w));
        } else if after.in_list {
            assert(ls.take((n - 1) + 1) =~= ls.take(n));
            assert(c == b);
            lemma_weight_push(of_line(b), st.pending, line);
            assert(o.add(p.add(w)) =~= o.add(p).add(w));
            assert(o.add(w).add(p) =~= o.add(p).add(w));
            if is_blank(line) {
                lemma_blank_effect(line);
                lemma_void_line(b, line);
                assert(o.add(p).add(w) =~= o.add(p));
            }
        } else {
            let key = |l: Seq<char>| list_key(kind, l);
            let sorts = st.sorts && st.pending.len() > 0;
            let entries = if sorts {
                sort_by(st.pending, key)
            } else {
                st.pending
            };
            let holds = |l: Seq<char>| reading()(b, l) == b;
            assert forall|i: int| 0 <= i < st.pending.len() implies holds(
                #[trigger] st.pending[i],
            ) by {
            }
            lemma_sort_all(st.pending, key, holds);
            assert forall|i: int| 0 <= i < entries.len() implies reading()(b, #[trigger] entries[i])
                == b by {
                assert(holds(entries[i]));
            }
            lemma_weight_sort(of_line(b), st.pending, key);
            lemma_neutral_lines(b, entries);
            lemma_facts_concat(Spot::Start, st.out, entries);
            lemma_fold_concat(reading(), Spot::Start, st.out, entries);
            lemma_facts_push(Spot::Start, st.out + entries, line);
            assert(after.out == (st.out + entries).push(line));
            assert(after.pending =~= Seq::empty());
            assert(weight(of_line(c), after.pending) =~= none);
            assert(list_bag(kind, main, ls, n) =~= o.add(p).add(w));
        }
    }
}

// ── Sections with one entry per line ─────────────────────────────────────────

proof fn lemma_line_sections_neutral(ls: Seq<Seq<char>>)
    requires
        is_level(ls),
        is_well_shaped(ls),
    ensures
        forall|i: int|
            0 <= i < ls.len() && line_run(ls, i).section is Some && line_run(
                ls,
                i + 1,
            ).section is Some ==> fold(reading(), Spot::Start, #[trigger] ls.take(i + 1)) == fold(
                reading(),
                Spot::Start,
                ls.take(i),
            ),
{
    lemma_project_is_not_sorted(4);
    assert forall|i: int|
        0 <= i < ls.len() && line_run(ls, i).section is Some && line_run(
            ls,
            i + 1,
        ).section is Some implies fold(reading(), Spot::Start, #[trigger] ls.take(i + 1)) == fold(
        reading(),
        Spot::Start,
        ls.take(i),
    ) by {
        lemma_shape_of_lines(ls, i);
        lemma_shape_of_lines(ls, i + 1);
        lemma_shape_nested(ls, i);
        lemma_shape_nested(ls, i + 1);
        assert(i > 0);
        lemma_section_spot(ls, i);
        lemma_section_spot(ls, i + 1);
    }
}

spec fn line_bag(ls: Seq<Seq<char>>, n: int) -> Multiset<Fact> {
    let st = line_run(ls, n);
    fact_bag(text_facts(st.out)).add(weight(of_line(spot_of(ls.take(n))), st.pending))
}

#[verifier::rlimit(40)]
#[verifier::spinoff_prover]
proof fn lemma_lines_facts(ls: Seq<Seq<char>>, n: int)
    requires
        is_level(ls),
        is_well_shaped(ls),
        blanks_are_void(ls),
        0 <= n <= ls.len(),
        line_run(ls, n).dropped == 0,
    ensures
        line_bag(ls, n) == fact_bag(text_facts(ls.take(n))),
    decreases n,
{
    let none = Multiset::<Fact>::empty();
    if n == 0 {
        assert(ls.take(0) =~= Seq::empty());
        lemma_empty_bag();
        assert(line_bag(ls, 0) =~= none);
    } else {
        lemma_lines_facts(ls, n - 1);
        lemma_line_sections_neutral(ls);
        lemma_line_sections_keep_state(reading(), Spot::Start, ls, n - 1);
        lemma_line_sections_keep_state(reading(), Spot::Start, ls, n);
        lemma_shape_of_lines(ls, n - 1);
        let st = line_run(ls, n - 1);
        let after = line_run(ls, n);
        let line = ls[n - 1];
        let b = spot_of(ls.take(n - 1));
        let c = spot_of(ls.take(n));
        assert(ls.take(n) =~= ls.take(n - 1).push(line));
        lemma_facts_push(Spot::Start, ls.take(n - 1), line);
        lemma_facts_push(Spot::Start, st.out, line);
        assert(is_void_if_blank(shape_at(ls, n - 1), ls[n - 1]));
        let o = fact_bag(text_facts(st.out));
        let w = of_line(b)(line);
        let p = weight(of_line(b), st.pending);
        assert(o.add(p).add(w) == fact_bag(text_facts(ls.take(n))));
        if st.section is None {
            assert(st.pending =~= Seq::empty());
            assert(p =~= none);
            assert(after.pending =~= Seq::empty());
            assert(weight(of_line(c), after.pending) =~= none);
            assert(line_bag(ls, n) =~= o.add(p).add(w));
        } else if after.section is Some {
            assert(ls.take((n - 1) + 1) =~= ls.take(n));
            assert(c == b);
            lemma_weight_push(of_line(b), st.pending, line);
            assert(o.add(p.add(w)) =~= o.add(p).add(w));
            assert(o.add(w).add(p) =~= o.add(p).add(w));
            if is_blank(line) {
                lemma_blank_effect(line);
                lemma_void_line(b, line);
                assert(o.add(p).add(w) =~= o.add(p));
            }
        } else {
            let key = |l: Seq<char>| comment_key(l);
            let entries = sort_by(st.pending, key);
            let holds = |l: Seq<char>| reading()(b, l) == b;
            assert forall|i: int| 0 <= i < st.pending.len() implies holds(
                #[trigger] st.pending[i],
            ) by {
            }
            lemma_sort_all(st.pending, key, holds);
            assert forall|i: int| 0 <= i < entries.len() implies reading()(b, #[trigger] entries[i])
                == b by {
                assert(holds(entries[i]));
            }
            lemma_weight_sort(of_line(b), st.pending, key);
            lemma_neutral_lines(b, entries);
            lemma_facts_concat(Spot::Start, st.out, entries);
            lemma_fold_concat(reading(), Spot::Start, st.out, entries);
            lemma_facts_push(Spot::Start, st.out + entries, line);
            assert(after.out == (st.out + entries).push(line));
            assert(after.pending =~= Seq::empty());
            assert(weight(of_line(c), after.pending) =~= none);
            assert(line_bag(ls, n) =~= o.add(p).add(w));
        }
    }
}

// ── Sections ─────────────────────────────────────────────────────────────────

proof fn lemma_between(name: Seq<char>, by: SectionKey, ls: Seq<Seq<char>>)
    requires
        is_level(ls),
        is_well_shaped(ls),
        !is_line_name(name),
        name != "PBXProject"@,
    ensures
        forall|i: int|
            0 <= i <= ls.len() && section_run(name, by, ls, i).in_section && !section_run(
                name,
                by,
                ls,
                i,
            ).in_entry && resting(ls)(i) ==> fold(reading(), Spot::Start, #[trigger] ls.take(i))
                == in_objects(),
{
    assert forall|i: int|
        0 <= i <= ls.len() && section_run(name, by, ls, i).in_section && !section_run(
            name,
            by,
            ls,
            i,
        ).in_entry && resting(ls)(i) implies fold(reading(), Spot::Start, #[trigger] ls.take(i))
        == in_objects() by {
        lemma_shape_of_section(name, by, ls, i);
        assert(i > 0);
        lemma_section_spot(ls, i);
    }
}

spec fn section_bag(name: Seq<char>, by: SectionKey, ls: Seq<Seq<char>>, n: int) -> Multiset<
    Fact,
> {
    let st = section_run(name, by, ls, n);
    let b = in_objects();
    fact_bag(text_facts(flat(st.out))).add(fact_bag(facts_from(b, st.prefix))).add(
        weight(of_entry(b), st.entries),
    ).add(fact_bag(facts_from(b, st.current)))
}

#[verifier::rlimit(80)]
#[verifier::spinoff_prover]
proof fn lemma_section_facts(name: Seq<char>, by: SectionKey, ls: Seq<Seq<char>>, n: int)
    requires
        is_level(ls),
        is_well_shaped(ls),
        !is_line_name(name),
        name != "PBXProject"@,
        0 <= n <= ls.len(),
        section_run(name, by, ls, n).dropped == 0,
    ensures
        section_bag(name, by, ls, n) == fact_bag(text_facts(ls.take(n))),
    decreases n,
{
    let none = Multiset::<Fact>::empty();
    let nil = Seq::<Seq<char>>::empty();
    let b = in_objects();
    lemma_empty_bag();
    if n == 0 {
        assert(ls.take(0) =~= nil);
        assert(flat(nil) =~= nil);
        assert(section_bag(name, by, ls, 0) =~= none);
    } else {
        let st = section_run(name, by, ls, n - 1);
        let after = section_run(name, by, ls, n);
        let line = ls[n - 1];
        assert(st.dropped == 0);
        lemma_section_facts(name, by, ls, n - 1);
        lemma_between(name, by, ls);
        lemma_shape_ends(name, by, ls);
        lemma_shape_rests(name, by, ls);
        let rests = resting(ls);
        lemma_section_keeps_state(reading(), Spot::Start, b, name, by, ls, rests, n - 1);
        lemma_section_keeps_state(reading(), Spot::Start, b, name, by, ls, rests, n);
        assert(section_run(name, by, ls, (n - 1) + 1) == section_run(name, by, ls, n));
        if st.in_section && !st.in_entry && (!after.in_section || after.in_entry) {
            assert(rests(n - 1));
            assert(fold(reading(), Spot::Start, ls.take(n - 1)) == b);
        }
        lemma_shape_of_section(name, by, ls, n - 1);
        lemma_shape_of_section(name, by, ls, n);
        lemma_state_ok(name, by, ls, n - 1);
        assert(is_plain_line(ls[n - 1]));
        lemma_plain_item(line);
        assert(item_lines(line) =~= seq![line]);
        assert(ls.take(n) =~= ls.take(n - 1).push(line));
        lemma_facts_push(Spot::Start, ls.take(n - 1), line);
        let at = spot_of(ls.take(n - 1));
        let w = of_line(at)(line);
        let o = fact_bag(text_facts(flat(st.out)));
        let p = fact_bag(facts_from(b, st.prefix));
        let e = weight(of_entry(b), st.entries);
        let c = fact_bag(facts_from(b, st.current));
        assert(o.add(p).add(e).add(c).add(w) == fact_bag(text_facts(ls.take(n))));
        if !st.in_section {
            assert(st.prefix =~= nil && st.entries =~= nil && st.current =~= nil);
            assert(after.prefix =~= nil && after.entries =~= nil && after.current =~= nil);
            assert(p =~= none && e =~= none && c =~= none);
            lemma_flat_push(st.out, line);
            assert(flat(st.out) + seq![line] =~= flat(st.out).push(line));
            lemma_facts_push(Spot::Start, flat(st.out), line);
            assert(section_bag(name, by, ls, n) =~= o.add(p).add(e).add(c).add(w));
        } else if word_section_end(line) == Some(name) {
            assert(!st.in_entry);
            assert(close_entry(st) == st);
            assert(st.current =~= nil);
            let key = |x: Seq<char>| section_key(by, x);
            let sorted = sort_by(st.entries, key);
            let holds = |x: Seq<char>| fold(reading(), b, item_lines(x)) == b;
            assert forall|i: int| 0 <= i < st.entries.len() implies holds(
                #[trigger] st.entries[i],
            ) by {
            }
            lemma_sort_all(st.entries, key, holds);
            assert forall|i: int| 0 <= i < sorted.len() implies fold(
                reading(),
                b,
                item_lines(#[trigger] sorted[i]),
            ) == b by {
                assert(holds(sorted[i]));
            }
            lemma_weight_sort(of_entry(b), st.entries, key);
            lemma_neutral_entries(b, sorted);
            lemma_flat_plain(st.prefix);
            lemma_flat_push(st.out + st.prefix + sorted, line);
            lemma_flat_concat(st.out + st.prefix, sorted);
            lemma_flat_concat(st.out, st.prefix);
            let head = flat(st.out) + st.prefix;
            let body = head + flat(sorted);
            assert(body + seq![line] =~= body.push(line));
            assert(flat(after.out) =~= body.push(line));
            lemma_facts_concat(Spot::Start, flat(st.out), st.prefix);
            lemma_fold_concat(reading(), Spot::Start, flat(st.out), st.prefix);
            lemma_facts_concat(Spot::Start, head, flat(sorted));
            lemma_fold_concat(reading(), Spot::Start, head, flat(sorted));
            lemma_facts_push(Spot::Start, body, line);
            assert(after.prefix =~= nil && after.entries =~= nil && after.current =~= nil);
            assert(fact_bag(facts_from(b, after.prefix)) =~= none);
            assert(weight(of_entry(b), after.entries) =~= none);
            assert(section_bag(name, by, ls, n) =~= o.add(p).add(e).add(c).add(w));
        } else if st.in_entry {
            lemma_facts_push(b, st.current, line);
            let current = st.current.push(line);
            if line == "\t\t};"@ {
                lemma_closed(name, st.current);
                let x = joined(current);
                assert(!st.duplicate);
                lemma_weight_push(of_entry(b), st.entries, x);
                assert(after.current =~= nil);
                assert(section_bag(name, by, ls, n) =~= o.add(p).add(e).add(c).add(w));
            } else {
                assert(section_bag(name, by, ls, n) =~= o.add(p).add(e).add(c).add(w));
            }
        } else if entry_uuid(line) is Some {
            lemma_facts_push(b, st.current, line);
            assert(st.current =~= nil);
            assert(section_bag(name, by, ls, n) =~= o.add(p).add(e).add(c).add(w));
        } else {
            lemma_facts_push(b, st.prefix, line);
            assert(st.current =~= nil && after.current =~= nil);
            assert(section_bag(name, by, ls, n) =~= o.add(p).add(e).add(c).add(w));
        }
    }
}

// ── Whole texts ──────────────────────────────────────────────────────────────

/// The same facts, and the same end.
spec fn reads_alike(a: Seq<Seq<char>>, b: Seq<Seq<char>>) -> bool {
    &&& fact_bag(text_facts(a)) == fact_bag(text_facts(b))
    &&& spot_of(a) == spot_of(b)
}

proof fn lemma_list_pass(kind: ListKind, main: Seq<char>, ls: Seq<Seq<char>>)
    requires
        is_level(ls),
        is_well_shaped(ls),
        blanks_are_void(ls),
        list_run(kind, main, ls, ls.len() as int).dropped == 0,
    ensures
        reads_alike(list_lines(kind, main, ls), ls),
{
    let len = ls.len() as int;
    assert(ls.take(len) =~= ls);
    lemma_lists_facts(kind, main, ls, len);
    lemma_lists_neutral(kind, main, ls);
    lemma_lists_keep_state(reading(), Spot::Start, kind, main, ls, len);
    let st = list_run(kind, main, ls, len);
    lemma_neutral_lines(spot_of(st.out), st.pending);
    lemma_facts_concat(Spot::Start, st.out, st.pending);
    lemma_fold_concat(reading(), Spot::Start, st.out, st.pending);
}

proof fn lemma_line_pass(ls: Seq<Seq<char>>)
    requires
        is_level(ls),
        is_well_shaped(ls),
        blanks_are_void(ls),
        line_run(ls, ls.len() as int).dropped == 0,
    ensures
        reads_alike(line_lines(ls), ls),
{
    let len = ls.len() as int;
    assert(ls.take(len) =~= ls);
    lemma_lines_facts(ls, len);
    lemma_line_sections_neutral(ls);
    lemma_line_sections_keep_state(reading(), Spot::Start, ls, len);
    let st = line_run(ls, len);
    lemma_neutral_lines(spot_of(st.out), st.pending);
    lemma_facts_concat(Spot::Start, st.out, st.pending);
    lemma_fold_concat(reading(), Spot::Start, st.out, st.pending);
}

proof fn lemma_section_pass(name: Seq<char>, by: SectionKey, ls: Seq<Seq<char>>)
    requires
        is_level(ls),
        is_well_shaped(ls),
        !is_line_name(name),
        name != "PBXProject"@,
        section_run(name, by, ls, ls.len() as int).dropped == 0,
    ensures
        reads_alike(section_lines(name, by, ls), ls),
{
    let len = ls.len() as int;
    let none = Multiset::<Fact>::empty();
    let nil = Seq::<Seq<char>>::empty();
    assert(ls.take(len) =~= ls);
    let b = in_objects();
    lemma_section_facts(name, by, ls, len);
    lemma_between(name, by, ls);
    lemma_shape_ends(name, by, ls);
    lemma_shape_rests(name, by, ls);
    lemma_section_keeps_state(reading(), Spot::Start, b, name, by, ls, resting(ls), len);
    lemma_shape_of_section(name, by, ls, len);
    let st = section_run(name, by, ls, len);
    assert(crate::shape::is_outside(shape_at(ls, len)));
    assert(st.prefix =~= nil && st.entries =~= nil && st.current =~= nil);
    assert(flat(st.entries) =~= nil);
    assert(held(name, by, ls, len) =~= flat(st.out));
    lemma_empty_bag();
    assert(facts_from(b, st.current) == Seq::<Fact>::empty());
    assert(facts_from(b, st.prefix) == Seq::<Fact>::empty());
    assert(weight(of_entry(b), st.entries) == none);
    let o = fact_bag(text_facts(flat(st.out)));
    assert(o.add(none).add(none).add(none) =~= o);
}

proof fn lemma_pass_facts(main: Seq<char>, t: Seq<char>, n: int)
    requires
        is_level(lines_of(t)),
        is_well_shaped(lines_of(t)),
        blanks_are_void(lines_of(t)),
        1 <= n <= 12,
        sort_pass(main, t, n).2 == 0,
    ensures
        reads_alike(lines_of(sort_pass(main, t, n).0), lines_of(t)),
{
    let ls = lines_of(t);
    lemma_pass_text(main, t, n);
    if n == 1 {
        lemma_list_pass(ListKind::Files, Seq::empty(), ls);
    } else if n == 2 {
        lemma_list_pass(ListKind::Children, main, ls);
    } else if n == 3 {
        lemma_line_pass(ls);
    } else {
        lemma_names(n, n);
        lemma_project_is_not_sorted(n);
        lemma_section_pass(section_of_pass(n).0, section_of_pass(n).1, ls);
    }
}

/// Sorting keeps the facts of a level text, and where its reading ends.
pub proof fn law_sorting_keeps_facts(main: Seq<char>, s: Seq<char>, n: int)
    requires
        is_level(lines_of(s)),
        is_well_shaped(lines_of(s)),
        blanks_are_void(lines_of(s)),
        0 <= n <= 12,
        dropped_until(main, s, n) == 0,
    ensures
        ({
            let out = lines_of(sort_text(main, s, n));
            &&& fact_bag(text_facts(out)) == fact_bag(text_facts(lines_of(s)))
            &&& spot_of(out) == spot_of(lines_of(s))
        }),
    decreases n,
{
    if n > 0 {
        law_sorting_keeps_facts(main, s, n - 1);
        lemma_passes_level(main, s, n - 1);
        lemma_passes_permute(main, s, n - 1);
        lemma_pass_facts(main, sort_text(main, s, n - 1), n);
    }
}

} // verus!
