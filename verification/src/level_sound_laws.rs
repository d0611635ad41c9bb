//! Sorting a sound text leaves it sound.
//!
//! Where the sections of a text stand directly inside the objects block, and its
//! lists hold nothing that matters but items, the entries and the items can be
//! read in any order.

use crate::level::{
    added, is_level, is_sound_line, level_of, level_step, read_on, stands_level, Level,
};
use crate::sanitizer::{
    attributes_run, attributes_step, bodies_run, bodies_step, closes_in, closing_line, decls_run,
    decls_step, line_read, lists_run, lists_step, read_run,
};
use crate::sanitizer_laws::{lemma_closing_line, nothing_behind};
use crate::text::is_blank;
use vstd::prelude::*;

verus! {

// ── Level texts are sound ────────────────────────────────────────────────────

spec fn agrees_in_objects(st: Level, ls: Seq<Seq<char>>) -> bool {
    let d = decls_run(ls);
    let b = bodies_run(ls);
    &&& d.in_objects == st.objects is Some && b.in_objects == st.objects is Some
    &&& st.objects is Some ==> st.objects == Some(d.depth) && d.depth == b.depth
    &&& d.skip_to is None && d.removed == 0 && d.seen == st.seen
    &&& !b.in_orphan && b.removed == 0
}

spec fn agrees_in_lists(st: Level, ls: Seq<Seq<char>>) -> bool {
    let l = lists_run(ls);
    &&& l.in_list == st.list is Some && l.removed == 0
    &&& st.list is Some ==> st.list == Some(l.seen)
}

spec fn agrees_in_attributes(st: Level, ls: Seq<Seq<char>>) -> bool {
    let a = attributes_run(ls);
    &&& !a.added && (a.in_section, a.in_object) == st.project
    &&& a.in_attributes == st.attributes is Some
    &&& st.attributes is Some ==> st.attributes == Some((a.depth, a.seen))
}

proof fn lemma_last_step(ls: Seq<Seq<char>>)
    requires
        is_level(ls),
        ls.len() > 0,
    ensures
        is_level(ls.drop_last()),
        level_of(ls) == read_on(level_of(ls.drop_last()), ls.last()),
        is_sound_line(level_of(ls.drop_last()), ls.last()),
        stands_level(level_of(ls.drop_last()), ls.last()),
{
    assert(level_of(ls) == level_step(level_of(ls.drop_last()), ls.last()));
}

proof fn lemma_agrees_in_objects(ls: Seq<Seq<char>>)
    requires
        is_level(ls),
    ensures
        agrees_in_objects(level_of(ls), ls),
    decreases ls.len(),
{
    if ls.len() > 0 {
        lemma_last_step(ls);
        lemma_agrees_in_objects(ls.drop_last());
        reveal(read_on);
        reveal(is_sound_line);
        assert(decls_run(ls) == decls_step(decls_run(ls.drop_last()), ls.last()));
        assert(bodies_run(ls) == bodies_step(bodies_run(ls.drop_last()), ls.last()));
    }
}

proof fn lemma_agrees_in_lists(ls: Seq<Seq<char>>)
    requires
        is_level(ls),
    ensures
        agrees_in_lists(level_of(ls), ls),
    decreases ls.len(),
{
    if ls.len() > 0 {
        lemma_last_step(ls);
        lemma_agrees_in_lists(ls.drop_last());
        reveal(read_on);
        reveal(is_sound_line);
        assert(lists_run(ls) == lists_step(lists_run(ls.drop_last()), ls.last()));
    }
}

proof fn lemma_agrees_in_attributes(ls: Seq<Seq<char>>)
    requires
        is_level(ls),
    ensures
        agrees_in_attributes(level_of(ls), ls),
    decreases ls.len(),
{
    if ls.len() > 0 {
        lemma_last_step(ls);
        lemma_agrees_in_attributes(ls.drop_last());
        reveal(read_on);
        reveal(is_sound_line);
        assert(attributes_run(ls) == attributes_step(
            attributes_run(ls.drop_last()),
            ls.last(),
        ));
    }
}

proof fn lemma_document(ls: Seq<Seq<char>>)
    requires
        is_level(ls),
    ensures
        ({
            let st = level_of(ls);
            &&& st.closed == closing_line(ls, ls.len() as int) is Some
            &&& !st.closed ==> st.place == read_run(ls).place && st.depth == read_run(ls).depth
            &&& nothing_behind(ls)
        }),
    decreases ls.len(),
{
    let n = ls.len() as int;
    if n > 0 {
        let rest = ls.drop_last();
        let line = ls.last();
        let st = level_of(rest);
        lemma_last_step(ls);
        lemma_document(rest);
        reveal(read_on);
        reveal(is_sound_line);
        lemma_closing_line(ls, n);
        lemma_closing_line(rest, n - 1);
        assert(ls.take(n) =~= ls);
        assert forall|k: int| 0 <= k < n - 1 implies closes_in(ls, k) == closes_in(rest, k) by {
            assert(rest.take(k + 1) =~= ls.take(k + 1));
        }
        lemma_closing_alike(ls, rest, n - 1);
        if st.closed {
            let k = closing_line(rest, n - 1)->Some_0;
            assert(closes_in(rest, k));
            assert(closes_in(ls, k));
            assert(closing_line(ls, n) == Some(k));
            assert(rest.take(k + 1) =~= ls.take(k + 1));
            assert forall|i: int| k < i < n implies is_blank(#[trigger] ls[i]) by {
                if i < n - 1 {
                    assert(is_blank(rest[i]));
                }
            }
        } else {
            assert(read_run(ls) == line_read(line, 0, read_run(rest).place, read_run(rest).depth));
            assert(closes_in(ls, n - 1) == (read_run(ls).end is Some));
        }
    }
}

proof fn lemma_closing_alike(a: Seq<Seq<char>>, b: Seq<Seq<char>>, n: int)
    requires
        forall|k: int| 0 <= k < n ==> closes_in(a, k) == closes_in(b, k),
    ensures
        closing_line(a, n) == closing_line(b, n),
    decreases n,
{
    if n > 0 {
        lemma_closing_alike(a, b, n - 1);
        assert(closes_in(a, n - 1) == closes_in(b, n - 1));
    }
}

/// In a level text there is nothing to repair: no duplicate, no body without a
/// header, no wrapper missing and nothing behind the document.
pub proof fn law_level_text_is_sound(ls: Seq<Seq<char>>)
    requires
        is_level(ls),
    ensures
        decls_run(ls).removed == 0,
        lists_run(ls).removed == 0,
        bodies_run(ls).removed == 0,
        !attributes_run(ls).added,
        nothing_behind(ls),
{
    lemma_agrees_in_objects(ls);
    lemma_agrees_in_lists(ls);
    lemma_agrees_in_attributes(ls);
    lemma_document(ls);
}

} // verus!
