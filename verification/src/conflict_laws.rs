//! What repairing a text keeps, and what it drops.

use crate::pattern::{is_marker, is_separator};
use crate::sanitizer::{conflicts_run, conflicts_step, pass_text};
use crate::text::{are_plain_lines, lemma_lines_of_unlines, unlines};
use vstd::prelude::*;

verus! {

// ── Merge conflicts ──────────────────────────────────────────────────────────

/// Lines before a conflict, and the conflict: its markers and its two sides.
pub ghost struct Hunk {
    pub before: Seq<Seq<char>>,
    pub open: Seq<char>,
    pub ours: Seq<Seq<char>>,
    pub separator: Seq<char>,
    pub theirs: Seq<Seq<char>>,
    pub close: Seq<char>,
}

/// No line opens a conflict.
pub open spec fn opens_nothing(ls: Seq<Seq<char>>) -> bool {
    forall|i: int| 0 <= i < ls.len() ==> !is_marker(#[trigger] ls[i], '<')
}

/// No line closes a conflict.
pub open spec fn closes_nothing(ls: Seq<Seq<char>>) -> bool {
    forall|i: int| 0 <= i < ls.len() ==> !is_marker(#[trigger] ls[i], '>')
}

/// No line separates the sides of a conflict.
pub open spec fn separates_nothing(ls: Seq<Seq<char>>) -> bool {
    forall|i: int| 0 <= i < ls.len() ==> !is_separator(#[trigger] ls[i])
}

pub open spec fn is_hunk(h: Hunk) -> bool {
    &&& opens_nothing(h.before) && opens_nothing(h.ours) && opens_nothing(h.theirs)
    &&& closes_nothing(h.ours) && closes_nothing(h.theirs)
    &&& separates_nothing(h.ours)
    &&& is_marker(h.open, '<')
    &&& is_separator(h.separator)
    &&& is_marker(h.close, '>')
}

/// The lines of a text with conflicts.
pub open spec fn with_conflicts(hs: Seq<Hunk>) -> Seq<Seq<char>>
    decreases hs.len(),
{
    if hs.len() == 0 {
        Seq::empty()
    } else {
        let h = hs.last();
        with_conflicts(hs.drop_last()) + h.before + seq![h.open] + h.ours + seq![h.separator]
            + h.theirs + seq![h.close]
    }
}

/// The lines outside the conflicts, and our side of each.
pub open spec fn our_lines(hs: Seq<Hunk>) -> Seq<Seq<char>>
    decreases hs.len(),
{
    if hs.len() == 0 {
        Seq::empty()
    } else {
        our_lines(hs.drop_last()) + hs.last().before + hs.last().ours
    }
}

/// The state behind some lines, all of which are kept.
proof fn lemma_kept(a: Seq<Seq<char>>, b: Seq<Seq<char>>)
    requires
        opens_nothing(b),
        conflicts_run(a).inside ==> !conflicts_run(a).past_separator && closes_nothing(b)
            && separates_nothing(b),
    ensures
        conflicts_run(a + b).out == conflicts_run(a).out + b,
        conflicts_run(a + b).inside == conflicts_run(a).inside,
        conflicts_run(a + b).past_separator == conflicts_run(a).past_separator,
        conflicts_run(a + b).hunks == conflicts_run(a).hunks,
    decreases b.len(),
{
    if b.len() == 0 {
        assert(a + b =~= a);
        assert(conflicts_run(a).out + b =~= conflicts_run(a).out);
    } else {
        let rest = b.drop_last();
        lemma_less(b);
        lemma_kept(a, rest);
        assert((a + b).drop_last() =~= a + rest);
        assert(b[b.len() - 1] == b.last());
        assert(conflicts_run(a + b) == conflicts_step(conflicts_run(a + rest), b.last()));
        assert((conflicts_run(a).out + rest).push(b.last()) =~= conflicts_run(a).out + b);
    }
}

proof fn lemma_less(b: Seq<Seq<char>>)
    requires
        b.len() > 0,
    ensures
        opens_nothing(b) ==> opens_nothing(b.drop_last()),
        closes_nothing(b) ==> closes_nothing(b.drop_last()),
        separates_nothing(b) ==> separates_nothing(b.drop_last()),
{
    let rest = b.drop_last();
    assert forall|i: int| 0 <= i < rest.len() implies rest[i] == #[trigger] b[i] by {
    }
}

/// The state behind some lines, all of which are dropped.
proof fn lemma_dropped(a: Seq<Seq<char>>, b: Seq<Seq<char>>)
    requires
        opens_nothing(b),
        closes_nothing(b),
        conflicts_run(a).inside && conflicts_run(a).past_separator,
    ensures
        conflicts_run(a + b) == conflicts_run(a),
    decreases b.len(),
{
    if b.len() == 0 {
        assert(a + b =~= a);
    } else {
        lemma_less(b);
        lemma_dropped(a, b.drop_last());
        assert((a + b).drop_last() =~= a + b.drop_last());
        assert(b[b.len() - 1] == b.last());
    }
}

proof fn lemma_one_more(a: Seq<Seq<char>>, l: Seq<char>)
    ensures
        conflicts_run(a + seq![l]) == conflicts_step(conflicts_run(a), l),
{
    assert((a + seq![l]).drop_last() =~= a);
}

proof fn lemma_markers(l: Seq<char>)
    ensures
        is_marker(l, '>') ==> !is_marker(l, '<') && !is_separator(l),
        is_separator(l) ==> !is_marker(l, '<') && !is_marker(l, '>'),
{
    if is_marker(l, '>') {
        assert(l[0] == '>');
    }
    if is_separator(l) {
        assert(l[0] == '=');
    }
}

proof fn lemma_hunks(hs: Seq<Hunk>)
    requires
        forall|i: int| 0 <= i < hs.len() ==> is_hunk(#[trigger] hs[i]),
    ensures
        conflicts_run(with_conflicts(hs)).out == our_lines(hs),
        conflicts_run(with_conflicts(hs)).hunks == hs.len(),
        !conflicts_run(with_conflicts(hs)).inside,
    decreases hs.len(),
{
    if hs.len() > 0 {
        let rest = hs.drop_last();
        assert forall|i: int| 0 <= i < rest.len() implies is_hunk(#[trigger] rest[i]) by {
            assert(rest[i] == hs[i]);
        }
        lemma_hunks(rest);
        let h = hs.last();
        assert(is_hunk(hs[hs.len() - 1]));
        let a = with_conflicts(rest);
        lemma_kept(a, h.before);
        let b = a + h.before;
        lemma_one_more(b, h.open);
        let c = b + seq![h.open];
        lemma_kept(c, h.ours);
        let d = c + h.ours;
        lemma_markers(h.separator);
        lemma_one_more(d, h.separator);
        let e = d + seq![h.separator];
        lemma_dropped(e, h.theirs);
        let f = e + h.theirs;
        lemma_markers(h.close);
        lemma_one_more(f, h.close);
        assert(with_conflicts(hs) == f + seq![h.close]);
    }
}

/// Resolving conflicts keeps the lines outside them and our side of each, in their
/// order, and nothing else, however many conflicts there are; and counts them.
pub proof fn law_our_side_is_kept(hs: Seq<Hunk>, rest: Seq<Seq<char>>)
    requires
        forall|i: int| 0 <= i < hs.len() ==> is_hunk(#[trigger] hs[i]),
        opens_nothing(rest),
    ensures
        conflicts_run(with_conflicts(hs) + rest).out == our_lines(hs) + rest,
        conflicts_run(with_conflicts(hs) + rest).hunks == hs.len(),
{
    lemma_hunks(hs);
    lemma_kept(with_conflicts(hs), rest);
}

/// Of a conflict that is not closed our side is kept too.
pub proof fn law_our_side_of_open_conflict(
    hs: Seq<Hunk>,
    before: Seq<Seq<char>>,
    open: Seq<char>,
    ours: Seq<Seq<char>>,
    separator: Seq<char>,
    theirs: Seq<Seq<char>>,
)
    requires
        forall|i: int| 0 <= i < hs.len() ==> is_hunk(#[trigger] hs[i]),
        opens_nothing(before) && opens_nothing(ours) && opens_nothing(theirs),
        closes_nothing(ours) && closes_nothing(theirs),
        separates_nothing(ours),
        is_marker(open, '<'),
        is_separator(separator),
    ensures
        ({
            let ls = with_conflicts(hs) + before + seq![open] + ours;
            &&& conflicts_run(ls).out == our_lines(hs) + before + ours
            &&& conflicts_run(ls + seq![separator] + theirs).out == our_lines(hs) + before + ours
            &&& conflicts_run(ls + seq![separator] + theirs).hunks == hs.len() + 1
        }),
{
    lemma_hunks(hs);
    let a = with_conflicts(hs);
    lemma_kept(a, before);
    lemma_one_more(a + before, open);
    let c = a + before + seq![open];
    lemma_kept(c, ours);
    lemma_markers(separator);
    lemma_one_more(c + ours, separator);
    lemma_dropped(c + ours + seq![separator], theirs);
}

/// A text with conflicts is repaired to the text of the lines outside them and of our
/// side of each.
pub proof fn law_our_side_of_text(hs: Seq<Hunk>, rest: Seq<Seq<char>>)
    requires
        forall|i: int| 0 <= i < hs.len() ==> is_hunk(#[trigger] hs[i]),
        opens_nothing(rest),
        are_plain_lines(with_conflicts(hs) + rest),
    ensures
        pass_text(unlines(with_conflicts(hs) + rest), 1) == unlines(our_lines(hs) + rest),
{
    reveal_with_fuel(pass_text, 2);
    lemma_lines_of_unlines(with_conflicts(hs) + rest);
    law_our_side_is_kept(hs, rest);
}

} // verus!
