//! Sorting a level text leaves it level.

use crate::level::{
    added, adds, all_only_add, declares, is_between, is_level, is_sound_line, lemma_adds_on,
    lemma_past_entries, lemma_sort_level, level_of, level_step, leveling, lists_item, on_base,
    only_adds, read_on, stands_level, unsound, with_items, with_seen, with_set, Level,
};
use crate::order::sort_by;
use crate::permutation_laws::{blanks_are_void, is_void_if_blank};
use crate::repeat_laws::lemma_blank_effect;
use crate::resort_section_laws::{
    flat, item_lines, lemma_flat_plain, lemma_flat_push, lemma_plain_item,
};
use crate::shape::{
    fold, is_at_rest, is_well_shaped, lemma_fold_concat, lemma_fold_push, lemma_fold_take,
    lemma_shape_nested, lemma_shape_of_lines, lemma_shape_of_lists, lemma_shape_sound, outside,
    shape_at, shaping,
};
use crate::sorter::{comment_key, line_run, list_key, list_run, ListKind};
use crate::text::{are_plain_lines, is_blank, is_plain_line};
use vstd::prelude::*;

verus! {

// ── One line ─────────────────────────────────────────────────────────────────

pub proof fn lemma_one_line(st: Level, l: Seq<char>)
    ensures
        fold(leveling(), st, seq![l]) == level_step(st, l),
{
    assert(seq![l].drop_last() =~= Seq::empty());
    assert(fold(leveling(), st, seq![l].drop_last()) == st);
}

/// How a line is read does not depend on what was declared before, unless it
/// declares that again.
proof fn lemma_line_frame(st: Level, l: Seq<char>, a: Set<Seq<char>>, b: Set<Seq<char>>)
    requires
        st.sound,
        level_step(with_seen(st, a), l).sound,
    ensures
        ({
            let d = declares(st, l);
            let r = level_step(with_seen(st, a), l);
            &&& r.seen == added(a, d)
            &&& d is Some ==> !a.contains(d->Some_0)
            &&& level_step(with_seen(st, b), l) == if d is Some && b.contains(d->Some_0) {
                unsound()
            } else {
                with_seen(r, added(b, d))
            }
        }),
{
    reveal(read_on);
    reveal(is_sound_line);
    reveal(stands_level);
}

proof fn lemma_frame(st: Level, xs: Seq<Seq<char>>, a: Set<Seq<char>>, b: Set<Seq<char>>)
    requires
        st.sound,
        fold(leveling(), with_seen(st, a), xs).sound,
    ensures
        ({
            let r = fold(leveling(), with_seen(st, Set::empty()), xs);
            &&& r.sound
            &&& a.disjoint(r.seen)
            &&& fold(leveling(), with_seen(st, a), xs) == with_seen(r, a.union(r.seen))
            &&& fold(leveling(), with_seen(st, b), xs) == if b.disjoint(r.seen) {
                with_seen(r, b.union(r.seen))
            } else {
                unsound()
            }
        }),
    decreases xs.len(),
{
    let none = Set::<Seq<char>>::empty();
    let step = leveling();
    if xs.len() == 0 {
        assert(a.union(none) =~= a);
        assert(b.union(none) =~= b);
    } else {
        let rest = xs.drop_last();
        let l = xs.last();
        let ra = fold(step, with_seen(st, a), rest);
        assert(ra.sound) by {
            if !ra.sound {
                assert(level_step(ra, l) == unsound());
            }
        }
        lemma_frame(st, rest, a, b);
        let r = fold(step, with_seen(st, none), rest);
        let u = r.seen;
        let d = declares(r, l);
        assert(with_seen(r, u) == r);
        lemma_line_frame(r, l, a.union(u), u);
        lemma_line_frame(r, l, a.union(u), b.union(u));
        assert(d is Some ==> !u.contains(d->Some_0));
        let next = level_step(r, l);
        assert(fold(step, with_seen(st, none), xs) == next);
        assert(next.sound);
        lemma_line_frame(r, l, u, a.union(u));
        lemma_line_frame(r, l, u, b.union(u));
        let v = added(u, d);
        assert(next.seen == v);
        assert(added(a.union(u), d) =~= a.union(v));
        assert(added(b.union(u), d) =~= b.union(v));
        assert(a.disjoint(v)) by {
            assert forall|x: Seq<char>| a.contains(x) implies !v.contains(x) by {
                if v.contains(x) && d is Some && x == d->Some_0 {
                    assert(a.union(u).contains(x));
                }
            }
        }
        if b.disjoint(u) {
            if d is Some && b.union(u).contains(d->Some_0) {
                assert(b.contains(d->Some_0));
                assert(v.contains(d->Some_0));
                assert(!b.disjoint(v));
            } else {
                assert forall|x: Seq<char>| b.contains(x) implies !v.contains(x) by {
                    if v.contains(x) && d is Some && x == d->Some_0 {
                        assert(b.union(u).contains(x));
                    }
                }
                assert(b.disjoint(v));
            }
        } else {
            assert(fold(step, with_seen(st, b), rest) == unsound());
            let x = choose|x: Seq<char>| b.contains(x) && u.contains(x);
            assert(v.contains(x));
            assert(!b.disjoint(v));
        }
    }
}

/// What leads from a place between entries to such a place only declares.
pub proof fn lemma_entry_adds(st: Level, xs: Seq<Seq<char>>, next: Level)
    requires
        st.sound,
        next.sound,
        fold(leveling(), st, xs) == next,
        with_seen(next, Set::empty()) == with_seen(st, Set::empty()),
    ensures
        only_adds(false, with_seen(st, Set::empty()), xs),
        on_base(false, with_seen(st, Set::empty()), next),
{
    let none = Set::<Seq<char>>::empty();
    let base = with_seen(st, none);
    let r = fold(leveling(), base, xs);
    assert(with_seen(base, none) == base);
    assert(with_seen(base, st.seen) == st);
    lemma_frame(base, xs, st.seen, none);
    assert(with_seen(r, none) == base) by {
        assert(next == with_seen(r, st.seen.union(r.seen)));
        assert(with_seen(next, none) == with_seen(r, none));
    }
    assert forall|q: Set<Seq<char>>| #[trigger]
        fold(leveling(), with_set(false, base, q), xs) == if q.disjoint(r.seen) {
            with_set(false, base, q.union(r.seen))
        } else {
            unsound()
        } by {
        lemma_frame(base, xs, st.seen, q);
        assert(with_seen(r, q.union(r.seen)) == with_seen(base, q.union(r.seen)));
    }
    assert(adds(false, base, xs, r.seen));
    assert(next == with_set(false, base, next.seen));
}

/// A line inside a list only adds an item.
proof fn lemma_item_adds(st: Level, l: Seq<char>)
    requires
        st.sound,
        st.list is Some,
        st.shape.list is Some,
        level_step(st, l).sound,
        level_step(st, l).shape.list is Some,
    ensures
        only_adds(true, with_items(st, Set::empty()), seq![l]),
        on_base(true, with_items(st, Set::empty()), st),
        on_base(true, with_items(st, Set::empty()), level_step(st, l)),
        with_items(level_step(st, l), Set::empty()) == with_items(st, Set::empty()),
        level_step(st, l).list is Some,
{
    let none = Set::<Seq<char>>::empty();
    let base = with_items(st, none);
    let e = added(none, lists_item(st, l));
    let next = level_step(st, l);
    lemma_item_step(st, l, st.list->Some_0);
    assert forall|q: Set<Seq<char>>| #[trigger]
        fold(leveling(), with_set(true, base, q), seq![l]) == if q.disjoint(e) {
            with_set(true, base, q.union(e))
        } else {
            unsound()
        } by {
        lemma_one_line(with_items(base, q), l);
        lemma_item_step(st, l, q);
        assert(with_items(base, q) == with_items(st, q));
        let u = lists_item(st, l);
        assert(q.union(e) =~= added(q, u));
        if u is Some {
            assert(e.contains(u->Some_0));
            if q.contains(u->Some_0) {
                assert(!q.disjoint(e));
            } else {
                assert forall|x: Seq<char>| q.contains(x) implies !e.contains(x) by {
                }
                assert(q.disjoint(e));
            }
        } else {
            assert(q.disjoint(e));
        }
    }
    assert(adds(true, base, seq![l], e));
    assert(st == with_set(true, base, st.list->Some_0));
    assert(next == with_set(true, base, next.list->Some_0));
}

proof fn lemma_item_step(st: Level, l: Seq<char>, q: Set<Seq<char>>)
    requires
        st.sound,
        st.list is Some,
        st.shape.list is Some,
        level_step(st, l).sound,
        level_step(st, l).shape.list is Some,
    ensures
        ({
            let u = lists_item(st, l);
            let next = level_step(st, l);
            &&& next == with_items(st, added(st.list->Some_0, u))
            &&& level_step(with_items(st, q), l) == if u is Some && q.contains(u->Some_0) {
                unsound()
            } else {
                with_items(st, added(q, u))
            }
        }),
{
    reveal(read_on);
    reveal(is_sound_line);
    reveal(stands_level);
    lemma_shape_in_list(st, l);
}

proof fn lemma_shape_in_list(st: Level, l: Seq<char>)
    requires
        st.sound,
        st.shape.list is Some,
        level_step(st, l).sound,
        level_step(st, l).shape.list is Some,
    ensures
        level_step(st, l).shape == st.shape,
{
    reveal(read_on);
    reveal(stands_level);
}

// ── Along a text ─────────────────────────────────────────────────────────────

/// The state goes with the shape.
pub proof fn lemma_level_at(ls: Seq<Seq<char>>, n: int)
    requires
        is_level(ls),
        0 <= n <= ls.len(),
    ensures
        level_of(ls.take(n)).sound,
        level_of(ls.take(n)).shape == shape_at(ls, n),
        n < ls.len() ==> level_of(ls.take(n + 1)) == level_step(level_of(ls.take(n)), ls[n]),
        n > 0 ==> shape_at(ls, n).list is Some ==> level_of(ls.take(n)).list is Some,
        n > 0 && shape_at(ls, n).section is Some && shape_at(ls, n).section != Some(
            "PBXProject"@,
        ) && !shape_at(ls, n).entry && is_at_rest(shape_at(ls, n)) ==> is_between(
            level_of(ls.take(n)),
        ),
    decreases ls.len() - n,
{
    reveal(read_on);
    reveal(stands_level);
    if n < ls.len() {
        lemma_level_at(ls, n + 1);
        lemma_fold_take(leveling(), crate::level::at_start(), ls, n);
    } else {
        assert(ls.take(n) =~= ls);
    }
    lemma_level_shape(ls, n);
}

proof fn lemma_level_shape(ls: Seq<Seq<char>>, n: int)
    requires
        0 <= n <= ls.len(),
        level_of(ls.take(n)).sound,
    ensures
        level_of(ls.take(n)).shape == shape_at(ls, n),
        n > 0 ==> shape_at(ls, n).list is Some ==> level_of(ls.take(n)).list is Some,
        n > 0 && shape_at(ls, n).section is Some && shape_at(ls, n).section != Some(
            "PBXProject"@,
        ) && !shape_at(ls, n).entry && is_at_rest(shape_at(ls, n)) ==> is_between(
            level_of(ls.take(n)),
        ),
    decreases n,
{
    reveal(read_on);
    reveal(stands_level);
    if n == 0 {
        assert(ls.take(0) =~= Seq::empty());
    } else {
        lemma_fold_take(leveling(), crate::level::at_start(), ls, n - 1);
        lemma_fold_take(shaping(), outside(), ls, n - 1);
        lemma_level_shape(ls, n - 1);
    }
}

/// The same lines as entries of one line.
pub proof fn lemma_plain_entry(es: Seq<Seq<char>>, l: Seq<char>)
    requires
        are_plain_lines(es),
        is_plain_line(l),
    ensures
        flat(es) == es,
        flat(es.push(l)) == es.push(l),
        item_lines(l) == seq![l],
        are_plain_lines(es.push(l)),
{
    lemma_flat_plain(es);
    lemma_plain_item(l);
    assert(item_lines(l) =~= seq![l]);
    lemma_flat_push(es, l);
    assert(es + seq![l] =~= es.push(l));
    assert forall|i: int| 0 <= i < es.len() + 1 implies is_plain_line(#[trigger] es.push(l)[i]) by {
        if i < es.len() {
            assert(es.push(l)[i] == es[i]);
        }
    }
}

pub proof fn lemma_add_entry(in_list: bool, base: Level, es: Seq<Seq<char>>, x: Seq<char>)
    requires
        all_only_add(in_list, base, es),
        only_adds(in_list, base, item_lines(x)),
    ensures
        all_only_add(in_list, base, es.push(x)),
{
    assert forall|i: int| 0 <= i < es.len() + 1 implies only_adds(
        in_list,
        base,
        item_lines(#[trigger] es.push(x)[i]),
    ) by {
        if i < es.len() {
            assert(es.push(x)[i] == es[i]);
        }
    }
}

/// Lines that only add, some put out and some held back: one more is held back.
proof fn lemma_hold_line(
    in_list: bool,
    base: Level,
    out: Seq<Seq<char>>,
    pending: Seq<Seq<char>>,
    l: Seq<char>,
)
    requires
        are_plain_lines(pending),
        is_plain_line(l),
        all_only_add(in_list, base, pending),
        only_adds(in_list, base, seq![l]),
        on_base(in_list, base, level_of(out)),
    ensures
        all_only_add(in_list, base, pending.push(l)),
        are_plain_lines(pending.push(l)),
        fold(leveling(), level_of(out), pending.push(l)) == level_step(
            fold(leveling(), level_of(out), pending),
            l,
        ),
{
    lemma_plain_entry(pending, l);
    lemma_add_entry(in_list, base, pending, l);
    lemma_fold_push(leveling(), level_of(out), pending, l);
}

/// The same, and one more is put out.
proof fn lemma_put_line(
    in_list: bool,
    base: Level,
    out: Seq<Seq<char>>,
    pending: Seq<Seq<char>>,
    l: Seq<char>,
)
    requires
        are_plain_lines(pending),
        is_plain_line(l),
        all_only_add(in_list, base, pending),
        only_adds(in_list, base, seq![l]),
        on_base(in_list, base, level_of(out)),
    ensures
        on_base(in_list, base, level_of(out.push(l))),
        fold(leveling(), level_of(out.push(l)), pending) == level_step(
            fold(leveling(), level_of(out), pending),
            l,
        ),
{
    lemma_plain_entry(pending, l);
    let at = level_of(out);
    lemma_fold_push(leveling(), crate::level::at_start(), out, l);
    lemma_one_line(at, l);
    let e = choose|e: Set<Seq<char>>| adds(in_list, base, seq![l], e);
    lemma_adds_on(in_list, base, seq![l], e, at);
    lemma_past_entries(in_list, base, pending, seq![l], at);
    lemma_one_line(fold(leveling(), at, pending), l);
}

/// The same, and what was held back is put out, sorted or not, with a line
/// behind it.
proof fn lemma_put_sorted(
    in_list: bool,
    base: Level,
    out: Seq<Seq<char>>,
    pending: Seq<Seq<char>>,
    key: spec_fn(Seq<char>) -> Seq<char>,
    l: Seq<char>,
)
    requires
        are_plain_lines(pending),
        all_only_add(in_list, base, pending),
        on_base(in_list, base, level_of(out)),
    ensures
        level_of((out + sort_by(pending, key)).push(l)) == level_step(
            fold(leveling(), level_of(out), pending),
            l,
        ),
        level_of((out + pending).push(l)) == level_step(
            fold(leveling(), level_of(out), pending),
            l,
        ),
{
    let sorted = sort_by(pending, key);
    let holds = |x: Seq<char>| is_plain_line(x);
    assert forall|i: int| 0 <= i < pending.len() implies holds(#[trigger] pending[i]) by {
    }
    crate::resort_laws::lemma_sort_all(pending, key, holds);
    assert forall|i: int| 0 <= i < sorted.len() implies is_plain_line(#[trigger] sorted[i]) by {
        assert(holds(sorted[i]));
    }
    lemma_flat_plain(pending);
    lemma_flat_plain(sorted);
    lemma_sort_level(in_list, base, pending, key, level_of(out));
    let start = crate::level::at_start();
    lemma_fold_concat(leveling(), start, out, sorted);
    lemma_fold_concat(leveling(), start, out, pending);
    lemma_fold_push(leveling(), start, out + sorted, l);
    lemma_fold_push(leveling(), start, out + pending, l);
}

// ── Lists ────────────────────────────────────────────────────────────────────

spec fn lists_level(kind: ListKind, main: Seq<char>, ls: Seq<Seq<char>>, n: int) -> bool {
    let st = list_run(kind, main, ls, n);
    let at = level_of(st.out);
    let now = level_of(ls.take(n));
    let base = with_items(now, Set::empty());
    if st.in_list {
        &&& are_plain_lines(st.pending)
        &&& all_only_add(true, base, st.pending)
        &&& on_base(true, base, at)
        &&& fold(leveling(), at, st.pending) == now
    } else {
        st.pending.len() == 0 && at == now
    }
}

#[verifier::rlimit(40)]
#[verifier::spinoff_prover]
proof fn lemma_lists_level(kind: ListKind, main: Seq<char>, ls: Seq<Seq<char>>, n: int)
    requires
        is_level(ls),
        is_well_shaped(ls),
        blanks_are_void(ls),
        0 <= n <= ls.len(),
        list_run(kind, main, ls, n).dropped == 0,
    ensures
        lists_level(kind, main, ls, n),
    decreases n,
{
    if n == 0 {
        assert(ls.take(0) =~= Seq::empty());
    } else {
        lemma_lists_level(kind, main, ls, n - 1);
        lemma_level_at(ls, n - 1);
        lemma_level_at(ls, n);
        lemma_shape_of_lists(kind, main, ls, n - 1);
        lemma_shape_of_lists(kind, main, ls, n);
        let st = list_run(kind, main, ls, n - 1);
        let after = list_run(kind, main, ls, n);
        let line = ls[n - 1];
        let was = level_of(ls.take(n - 1));
        let now = level_of(ls.take(n));
        let base = with_items(now, Set::empty());
        assert(is_plain_line(ls[n - 1]));
        assert(is_void_if_blank(shape_at(ls, n - 1), ls[n - 1]));
        if !st.in_list {
            lemma_fold_push(leveling(), crate::level::at_start(), st.out, line);
            if after.in_list {
                assert(now == with_set(true, base, now.list->Some_0));
                assert(after.pending =~= Seq::empty());
                assert(fold(leveling(), now, after.pending) == now);
            }
        } else if after.in_list {
            lemma_level_lists_nonempty(ls, n - 1);
            if is_blank(line) {
                lemma_blank_in_list(was, line);
                lemma_blank_effect(line);
            } else {
                lemma_item_adds(was, line);
                lemma_hold_line(true, base, st.out, st.pending, line);
                lemma_put_line(true, base, st.out, st.pending, line);
            }
        } else {
            let key = |l: Seq<char>| list_key(kind, l);
            lemma_put_sorted(true, with_items(was, Set::empty()), st.out, st.pending, key, line);
        }
    }
}

/// A blank line in a list changes nothing.
proof fn lemma_blank_in_list(st: Level, line: Seq<char>)
    requires
        is_blank(line),
        st.sound,
        st.shape.list is Some,
        st.list is Some,
        level_step(st, line).sound,
        level_step(st, line).shape.list is Some,
    ensures
        level_step(st, line) == st,
{
    reveal(read_on);
    reveal(stands_level);
    lemma_blank_effect(line);
}

/// Nor does one between entries of one line.
proof fn lemma_blank_between(st: Level, line: Seq<char>)
    requires
        is_blank(line),
        st.sound,
        is_between(st),
        level_step(st, line).sound,
        is_between(level_step(st, line)),
        level_step(st, line).shape == st.shape,
    ensures
        level_step(st, line) == st,
{
    reveal(read_on);
    lemma_blank_effect(line);
}

proof fn lemma_level_lists_nonempty(ls: Seq<Seq<char>>, n: int)
    requires
        is_level(ls),
        0 <= n <= ls.len(),
        shape_at(ls, n).list is Some,
    ensures
        level_of(ls.take(n)).list is Some,
{
    lemma_level_at(ls, n);
    if n == 0 {
        assert(ls.take(0) =~= Seq::empty());
    }
}

// ── Sections with one entry per line ─────────────────────────────────────────

spec fn lines_level(ls: Seq<Seq<char>>, n: int) -> bool {
    let st = line_run(ls, n);
    let at = level_of(st.out);
    let now = level_of(ls.take(n));
    let base = with_seen(now, Set::empty());
    if st.section is Some {
        &&& are_plain_lines(st.pending)
        &&& all_only_add(false, base, st.pending)
        &&& on_base(false, base, at)
        &&& fold(leveling(), at, st.pending) == now
    } else {
        st.pending.len() == 0 && at == now
    }
}

/// In a section with one entry per line the state is one between entries.
proof fn lemma_lines_between(ls: Seq<Seq<char>>, n: int)
    requires
        is_level(ls),
        is_well_shaped(ls),
        0 <= n <= ls.len(),
        line_run(ls, n).section is Some,
    ensures
        is_between(level_of(ls.take(n))),
        level_of(ls.take(n)).sound,
        level_of(ls.take(n)).shape == (crate::shape::Shape {
            section: line_run(ls, n).section,
            ..outside()
        }),
{
    reveal_strlit("PBXProject");
    reveal_strlit("PBXBuildFile");
    reveal_strlit("PBXFileReference");
    assert("PBXProject"@.len() == 10);
    assert("PBXBuildFile"@.len() == 12);
    assert("PBXFileReference"@.len() == 16);
    lemma_level_at(ls, n);
    lemma_shape_of_lines(ls, n);
    lemma_shape_nested(ls, n);
    lemma_shape_sound(ls, n);
    if n == 0 {
        assert(line_run(ls, 0).section is None);
    }
}

#[verifier::rlimit(40)]
#[verifier::spinoff_prover]
proof fn lemma_lines_level(ls: Seq<Seq<char>>, n: int)
    requires
        is_level(ls),
        is_well_shaped(ls),
        blanks_are_void(ls),
        0 <= n <= ls.len(),
        line_run(ls, n).dropped == 0,
    ensures
        lines_level(ls, n),
    decreases n,
{
    if n == 0 {
        assert(ls.take(0) =~= Seq::empty());
    } else {
        lemma_lines_level(ls, n - 1);
        lemma_shape_of_lines(ls, n - 1);
        lemma_level_at(ls, n - 1);
        lemma_level_at(ls, n);
        let st = line_run(ls, n - 1);
        let after = line_run(ls, n);
        let line = ls[n - 1];
        let was = level_of(ls.take(n - 1));
        let now = level_of(ls.take(n));
        let none = Set::<Seq<char>>::empty();
        let base = with_seen(now, none);
        assert(is_plain_line(ls[n - 1]));
        assert(is_void_if_blank(shape_at(ls, n - 1), ls[n - 1]));
        if st.section is None {
            lemma_fold_push(leveling(), crate::level::at_start(), st.out, line);
            if after.section is Some {
                assert(now == with_set(false, base, now.seen));
                assert(after.pending =~= Seq::empty());
                assert(fold(leveling(), now, after.pending) == now);
            }
        } else if after.section is Some {
            lemma_lines_between(ls, n - 1);
            lemma_lines_between(ls, n);
            assert(with_seen(now, none) == with_seen(was, none));
            if is_blank(line) {
                lemma_blank_between(was, line);
                lemma_blank_effect(line);
            }
            lemma_one_line(was, line);
            lemma_entry_adds(was, seq![line], now);
            lemma_hold_line(false, base, st.out, st.pending, line);
            lemma_put_line(false, base, st.out, st.pending, line);
        } else {
            let key = |l: Seq<char>| comment_key(l);
            lemma_put_sorted(false, with_seen(was, none), st.out, st.pending, key, line);
        }
    }
}

// ── What the passes put out ──────────────────────────────────────────────────

/// Sorting lists leaves a text level.
pub proof fn lemma_lists_stay_level(kind: ListKind, main: Seq<char>, ls: Seq<Seq<char>>)
    requires
        is_level(ls),
        is_well_shaped(ls),
        blanks_are_void(ls),
        list_run(kind, main, ls, ls.len() as int).dropped == 0,
    ensures
        is_level(crate::watch_laws::list_lines(kind, main, ls)),
{
    let n = ls.len() as int;
    lemma_lists_level(kind, main, ls, n);
    let st = list_run(kind, main, ls, n);
    assert(ls.take(n) =~= ls);
    lemma_fold_concat(leveling(), crate::level::at_start(), st.out, st.pending);
    if !st.in_list {
        assert(st.out + st.pending =~= st.out);
    }
}

/// So does sorting sections with one entry per line.
pub proof fn lemma_lines_stay_level(ls: Seq<Seq<char>>)
    requires
        is_level(ls),
        is_well_shaped(ls),
        blanks_are_void(ls),
        line_run(ls, ls.len() as int).dropped == 0,
    ensures
        is_level(crate::watch_laws::line_lines(ls)),
{
    let n = ls.len() as int;
    lemma_lines_level(ls, n);
    let st = line_run(ls, n);
    assert(ls.take(n) =~= ls);
    lemma_fold_concat(leveling(), crate::level::at_start(), st.out, st.pending);
    if st.section is None {
        assert(st.out + st.pending =~= st.out);
    }
}

} // verus!
