//! Reading a project text with all that the repair passes heed in one state.

use crate::line_reading::read_line;
use crate::order::{insert_by, sort_by, text_le};
use crate::pattern::{decl_uuid, item_uuid};
use crate::reading::{Frame, Spot, Step, Want};
use crate::resort_laws::lemma_sort_all;
use crate::resort_section_laws::{flat, item_lines, lemma_flat_push};
use crate::sanitizer::{
    closes_any_list, is_object_level, is_target_attributes, line_braces, line_read,
    opens_any_list, opens_objects, Place,
};
use crate::shape::{fold, is_at_rest, lemma_fold_concat, outside, shape_step, Shape};
use crate::text::{has_substring, is_blank, trimmed_start, uppercase};
use vstd::prelude::*;

verus! {

// ── Reading all at once ──────────────────────────────────────────────────────

/// Where the reading of a text stands.
pub ghost struct Level {
    /// Where the lines stand among sections, entries and lists.
    pub shape: Shape,
    /// Inside the objects block, at this depth of braces.
    pub objects: Option<int>,
    /// The UUIDs declared so far, in upper case.
    pub seen: Set<Seq<char>>,
    /// Inside a list, with these items, in upper case.
    pub list: Option<Set<Seq<char>>>,
    /// In the section of the project, and in its object.
    pub project: (bool, bool),
    /// Inside the attributes of the project, at this depth of braces; they have
    /// their target attributes.
    pub attributes: Option<(int, bool)>,
    pub place: Place,
    /// How many braces of the document are open.
    pub depth: nat,
    /// The document is closed.
    pub closed: bool,
    /// Where the reading of the property list stands.
    pub spot: Spot,
    /// Nothing was to be repaired so far.
    pub sound: bool,
}

/// Before the first line.
pub open spec fn at_start() -> Level {
    Level {
        shape: outside(),
        objects: None,
        seen: Set::empty(),
        list: None,
        project: (false, false),
        attributes: None,
        place: Place::Between,
        depth: 0,
        closed: false,
        spot: Spot::Start,
        sound: true,
    }
}

/// Behind something to be repaired.
pub open spec fn unsound() -> Level {
    Level { sound: false, ..at_start() }
}

pub open spec fn next_objects(st: Level, line: Seq<char>) -> Option<int> {
    match st.objects {
        None => if opens_objects(line) {
            Some(1)
        } else {
            None
        },
        Some(d) => if d + line_braces(line) <= 0 {
            None
        } else {
            Some(d + line_braces(line))
        },
    }
}

/// The UUID that a line declares directly inside the objects block.
pub open spec fn declares(st: Level, line: Seq<char>) -> Option<Seq<char>> {
    if st.objects == Some(1int) && next_objects(st, line) is Some {
        match decl_uuid(line) {
            Some(u) => Some(uppercase(u)),
            None => None,
        }
    } else {
        None
    }
}

/// The UUID of a line that is an item of a list.
pub open spec fn lists_item(st: Level, line: Seq<char>) -> Option<Seq<char>> {
    if st.list is Some && !closes_any_list(line) {
        match item_uuid(line) {
            Some(u) => Some(uppercase(u)),
            None => None,
        }
    } else {
        None
    }
}

pub open spec fn added(set: Set<Seq<char>>, u: Option<Seq<char>>) -> Set<Seq<char>> {
    match u {
        Some(x) => set.insert(x),
        None => set,
    }
}

pub open spec fn next_list(st: Level, line: Seq<char>) -> Option<Set<Seq<char>>> {
    match st.list {
        None => if opens_any_list(line) {
            Some(Set::empty())
        } else {
            None
        },
        Some(items) => if closes_any_list(line) {
            None
        } else {
            Some(added(items, lists_item(st, line)))
        },
    }
}

/// In the section of the project, and in its object.
pub open spec fn next_project(st: Level, line: Seq<char>) -> (bool, bool) {
    let ended = has_substring(line, "/* End PBXProject section */"@);
    let in_section = !ended && (st.project.0 || has_substring(
        line,
        "/* Begin PBXProject section */"@,
    ));
    let in_object = !ended && (st.project.1 || (in_section && has_substring(
        line,
        "isa = PBXProject;"@,
    )));
    let leaves = st.attributes is Some && st.attributes->Some_0.0 + line_braces(line) <= 0;
    (in_section, in_object && !leaves)
}

pub open spec fn next_attributes(st: Level, line: Seq<char>) -> Option<(int, bool)> {
    match st.attributes {
        None => if next_project(st, line).1 && "attributes = {"@.is_prefix_of(
            trimmed_start(line),
        ) {
            Some((1, false))
        } else {
            None
        },
        Some((d, complete)) => if d + line_braces(line) > 0 {
            Some((d + line_braces(line), complete || is_target_attributes(line)))
        } else {
            None
        },
    }
}

/// The line closes attributes without target attributes.
pub open spec fn lacks_wrapper(st: Level, line: Seq<char>) -> bool {
    match st.attributes {
        None => false,
        Some((d, complete)) => d + line_braces(line) <= 0 && !complete && !is_target_attributes(line),
    }
}

/// Directly inside the objects block, outside lists and the project.
pub open spec fn is_between(st: Level) -> bool {
    &&& st.objects == Some(1int)
    &&& st.list is None
    &&& st.project == (false, false)
    &&& st.attributes is None
    &&& st.place == Place::Between
    &&& st.depth == 2
    &&& !st.closed
    &&& st.spot == in_objects()
}

/// Between the entries of the objects.
pub open spec fn in_objects() -> Spot {
    Spot::Inside(
        seq![
            Frame::Dict(Seq::empty(), Want::Value("objects"@)),
            Frame::Dict(seq![Step::Key("objects"@)], Want::Key),
        ],
    )
}

/// Only the items of the list differ.
pub open spec fn differs_in_list(a: Level, b: Level) -> bool {
    &&& b.objects == a.objects
    &&& b.list is Some == a.list is Some
    &&& b.project == a.project
    &&& b.attributes == a.attributes
    &&& b.place == a.place
    &&& b.depth == a.depth
    &&& b.closed == a.closed
    &&& b.spot == a.spot
}

/// The state behind a line, if nothing is to be repaired.
#[verifier::opaque]
pub open spec fn read_on(st: Level, line: Seq<char>) -> Level {
    let r = line_read(line, 0, st.place, st.depth);
    Level {
        shape: shape_step(st.shape, line),
        objects: next_objects(st, line),
        seen: added(st.seen, declares(st, line)),
        list: next_list(st, line),
        project: next_project(st, line),
        attributes: next_attributes(st, line),
        place: if st.closed {
            st.place
        } else {
            r.place
        },
        depth: if st.closed {
            st.depth
        } else {
            r.depth
        },
        closed: st.closed || r.end is Some,
        spot: read_line(st.spot, line),
        sound: true,
    }
}

/// The line stands where it should, and the next one does.
#[verifier::opaque]
pub open spec fn stands_level(st: Level, line: Seq<char>) -> bool {
    let next = read_on(st, line);
    &&& next.shape.sound
    &&& next.shape.section is Some && next.shape.section != Some("PBXProject"@)
        && !next.shape.entry && is_at_rest(next.shape) ==> is_between(next)
    &&& next.shape.list is Some ==> next.list is Some
    &&& st.shape.list is Some && next.shape.list is Some ==> declares(st, line) is None
        && differs_in_list(st, next)
}

/// The line is not to be repaired.
#[verifier::opaque]
pub open spec fn is_sound_line(st: Level, line: Seq<char>) -> bool {
    let r = line_read(line, 0, st.place, st.depth);
    &&& declares(st, line) is Some ==> !st.seen.contains(declares(st, line)->Some_0)
    &&& st.objects == Some(1int) && next_objects(st, line) is Some ==> is_object_level(line)
    &&& lists_item(st, line) is Some ==> !st.list->Some_0.contains(lists_item(st, line)->Some_0)
    &&& !lacks_wrapper(st, line)
    &&& st.closed ==> is_blank(line)
    &&& !st.closed && r.end is Some ==> is_blank(line.skip(r.end->Some_0))
}

pub open spec fn level_step(st: Level, line: Seq<char>) -> Level {
    if st.sound && is_sound_line(st, line) && stands_level(st, line) {
        read_on(st, line)
    } else {
        unsound()
    }
}

pub open spec fn leveling() -> spec_fn(Level, Seq<char>) -> Level {
    |st: Level, line: Seq<char>| level_step(st, line)
}

/// The state behind some lines.
pub open spec fn level_of(ls: Seq<Seq<char>>) -> Level {
    fold(leveling(), at_start(), ls)
}

/// A text with nothing to repair line by line, whose sections, but for that of
/// the project, stand directly inside the objects block, and whose lists hold
/// nothing that matters but items.
pub open spec fn is_level(ls: Seq<Seq<char>>) -> bool {
    level_of(ls).sound
}

// ── States but for a set ─────────────────────────────────────────────────────

/// The state with other UUIDs declared.
pub open spec fn with_seen(st: Level, seen: Set<Seq<char>>) -> Level {
    Level { seen, ..st }
}

/// The state with other items in its list.
pub open spec fn with_items(st: Level, items: Set<Seq<char>>) -> Level {
    Level { list: Some(items), ..st }
}

/// The state, whichever of the two it is, with another set.
pub open spec fn with_set(in_list: bool, st: Level, set: Set<Seq<char>>) -> Level {
    if in_list {
        with_items(st, set)
    } else {
        with_seen(st, set)
    }
}

/// Reading `x` adds the set `e`, and does nothing else.
pub open spec fn adds(in_list: bool, base: Level, x: Seq<Seq<char>>, e: Set<Seq<char>>) -> bool {
    forall|q: Set<Seq<char>>| #[trigger]
        fold(leveling(), with_set(in_list, base, q), x) == if q.disjoint(e) {
            with_set(in_list, base, q.union(e))
        } else {
            unsound()
        }
}

pub proof fn lemma_unsound_stays(x: Seq<Seq<char>>)
    ensures
        fold(leveling(), unsound(), x) == unsound(),
    decreases x.len(),
{
    if x.len() > 0 {
        lemma_unsound_stays(x.drop_last());
    }
}

/// A state on a level: unsound, or the base with some set.
pub open spec fn on_base(in_list: bool, base: Level, st: Level) -> bool {
    st == unsound() || exists|q: Set<Seq<char>>| st == #[trigger] with_set(in_list, base, q)
}

pub proof fn lemma_adds_on(in_list: bool, base: Level, x: Seq<Seq<char>>, e: Set<Seq<char>>, st: Level)
    requires
        adds(in_list, base, x, e),
        on_base(in_list, base, st),
    ensures
        on_base(in_list, base, fold(leveling(), st, x)),
{
    if st == unsound() {
        lemma_unsound_stays(x);
    } else {
        let q = choose|q: Set<Seq<char>>| st == #[trigger] with_set(in_list, base, q);
        assert(fold(leveling(), with_set(in_list, base, q), x) == if q.disjoint(e) {
            with_set(in_list, base, q.union(e))
        } else {
            unsound()
        });
    }
}

/// What only adds to a set can be read in any order.
pub proof fn lemma_commute(
    in_list: bool,
    base: Level,
    x: Seq<Seq<char>>,
    e: Set<Seq<char>>,
    y: Seq<Seq<char>>,
    f: Set<Seq<char>>,
    st: Level,
)
    requires
        adds(in_list, base, x, e),
        adds(in_list, base, y, f),
        on_base(in_list, base, st),
    ensures
        fold(leveling(), fold(leveling(), st, x), y) == fold(
            leveling(),
            fold(leveling(), st, y),
            x,
        ),
{
    lemma_unsound_stays(x);
    lemma_unsound_stays(y);
    if st != unsound() {
        let q = choose|q: Set<Seq<char>>| st == #[trigger] with_set(in_list, base, q);
        let a = fold(leveling(), with_set(in_list, base, q), x);
        let b = fold(leveling(), with_set(in_list, base, q), y);
        assert(a == if q.disjoint(e) {
            with_set(in_list, base, q.union(e))
        } else {
            unsound()
        });
        assert(b == if q.disjoint(f) {
            with_set(in_list, base, q.union(f))
        } else {
            unsound()
        });
        let ab = fold(leveling(), with_set(in_list, base, q.union(e)), y);
        let ba = fold(leveling(), with_set(in_list, base, q.union(f)), x);
        assert(ab == if q.union(e).disjoint(f) {
            with_set(in_list, base, q.union(e).union(f))
        } else {
            unsound()
        });
        assert(ba == if q.union(f).disjoint(e) {
            with_set(in_list, base, q.union(f).union(e))
        } else {
            unsound()
        });
        assert(q.union(e).union(f) =~= q.union(f).union(e));
        assert(q.union(e).disjoint(f) == (q.disjoint(f) && e.disjoint(f))) by {
            lemma_disjoint_union(q, e, f);
        }
        assert(q.union(f).disjoint(e) == (q.disjoint(e) && f.disjoint(e))) by {
            lemma_disjoint_union(q, f, e);
        }
        assert(e.disjoint(f) == f.disjoint(e)) by {
            lemma_disjoint_swap(e, f);
        }
    }
}

pub proof fn lemma_disjoint_union(a: Set<Seq<char>>, b: Set<Seq<char>>, c: Set<Seq<char>>)
    ensures
        a.union(b).disjoint(c) == (a.disjoint(c) && b.disjoint(c)),
{
    if a.union(b).disjoint(c) {
        assert forall|x: Seq<char>| a.contains(x) implies !c.contains(x) by {
            assert(a.union(b).contains(x));
        }
        assert forall|x: Seq<char>| b.contains(x) implies !c.contains(x) by {
            assert(a.union(b).contains(x));
        }
    }
}

pub proof fn lemma_disjoint_swap(a: Set<Seq<char>>, b: Set<Seq<char>>)
    ensures
        a.disjoint(b) == b.disjoint(a),
{
    if a.disjoint(b) {
        assert forall|x: Seq<char>| b.contains(x) implies !a.contains(x) by {
            if a.contains(x) {
                assert(!b.contains(x));
            }
        }
    }
    if b.disjoint(a) {
        assert forall|x: Seq<char>| a.contains(x) implies !b.contains(x) by {
            if b.contains(x) {
                assert(!a.contains(x));
            }
        }
    }
}

/// The entry only adds to the set.
pub open spec fn only_adds(in_list: bool, base: Level, x: Seq<Seq<char>>) -> bool {
    exists|e: Set<Seq<char>>| adds(in_list, base, x, e)
}

/// Every entry only adds to the set.
pub open spec fn all_only_add(in_list: bool, base: Level, es: Seq<Seq<char>>) -> bool {
    forall|i: int| 0 <= i < es.len() ==> only_adds(in_list, base, item_lines(#[trigger] es[i]))
}

pub proof fn lemma_entries_on_base(in_list: bool, base: Level, es: Seq<Seq<char>>, st: Level)
    requires
        all_only_add(in_list, base, es),
        on_base(in_list, base, st),
    ensures
        on_base(in_list, base, fold(leveling(), st, flat(es))),
    decreases es.len(),
{
    if es.len() > 0 {
        let rest = es.drop_last();
        assert forall|i: int| 0 <= i < rest.len() implies only_adds(
            in_list,
            base,
            item_lines(#[trigger] rest[i]),
        ) by {
            assert(rest[i] == es[i]);
        }
        lemma_entries_on_base(in_list, base, rest, st);
        assert(only_adds(in_list, base, item_lines(es[es.len() - 1])));
        let x = item_lines(es.last());
        let e = choose|e: Set<Seq<char>>| adds(in_list, base, x, e);
        lemma_adds_on(in_list, base, x, e, fold(leveling(), st, flat(rest)));
        lemma_fold_concat(leveling(), st, flat(rest), x);
    }
}

/// An entry read before some others can be read behind them.
pub proof fn lemma_past_entries(
    in_list: bool,
    base: Level,
    es: Seq<Seq<char>>,
    x: Seq<Seq<char>>,
    st: Level,
)
    requires
        all_only_add(in_list, base, es),
        only_adds(in_list, base, x),
        on_base(in_list, base, st),
    ensures
        fold(leveling(), fold(leveling(), st, x), flat(es)) == fold(
            leveling(),
            fold(leveling(), st, flat(es)),
            x,
        ),
    decreases es.len(),
{
    let step = leveling();
    let e = choose|e: Set<Seq<char>>| adds(in_list, base, x, e);
    if es.len() > 0 {
        let rest = es.drop_last();
        assert forall|i: int| 0 <= i < rest.len() implies only_adds(
            in_list,
            base,
            item_lines(#[trigger] rest[i]),
        ) by {
            assert(rest[i] == es[i]);
        }
        lemma_past_entries(in_list, base, rest, x, st);
        assert(only_adds(in_list, base, item_lines(es[es.len() - 1])));
        let y = item_lines(es.last());
        let f = choose|f: Set<Seq<char>>| adds(in_list, base, y, f);
        let mid = fold(step, st, flat(rest));
        lemma_entries_on_base(in_list, base, rest, st);
        lemma_commute(in_list, base, x, e, y, f, mid);
        lemma_fold_concat(step, fold(step, st, x), flat(rest), y);
        lemma_fold_concat(step, st, flat(rest), y);
    }
}

pub proof fn lemma_insert_level(
    in_list: bool,
    base: Level,
    es: Seq<Seq<char>>,
    x: Seq<char>,
    key: spec_fn(Seq<char>) -> Seq<char>,
    st: Level,
)
    requires
        all_only_add(in_list, base, es),
        only_adds(in_list, base, item_lines(x)),
        on_base(in_list, base, st),
    ensures
        fold(leveling(), st, flat(insert_by(es, x, key))) == fold(
            leveling(),
            fold(leveling(), st, flat(es)),
            item_lines(x),
        ),
    decreases es.len(),
{
    let step = leveling();
    if es.len() == 0 || text_le(key(es.last()), key(x)) {
        lemma_flat_push(es, x);
        lemma_fold_concat(step, st, flat(es), item_lines(x));
    } else {
        let rest = es.drop_last();
        assert forall|i: int| 0 <= i < rest.len() implies only_adds(
            in_list,
            base,
            item_lines(#[trigger] rest[i]),
        ) by {
            assert(rest[i] == es[i]);
        }
        lemma_insert_level(in_list, base, rest, x, key, st);
        assert(only_adds(in_list, base, item_lines(es[es.len() - 1])));
        let y = item_lines(es.last());
        lemma_flat_push(insert_by(rest, x, key), es.last());
        lemma_fold_concat(step, st, flat(insert_by(rest, x, key)), y);
        lemma_fold_concat(step, st, flat(rest), y);
        lemma_entries_on_base(in_list, base, rest, st);
        let mid = fold(step, st, flat(rest));
        let e = choose|e: Set<Seq<char>>| adds(in_list, base, item_lines(x), e);
        let f = choose|f: Set<Seq<char>>| adds(in_list, base, y, f);
        lemma_commute(in_list, base, item_lines(x), e, y, f, mid);
    }
}

/// Sorted entries are read as the entries are.
pub proof fn lemma_sort_level(
    in_list: bool,
    base: Level,
    es: Seq<Seq<char>>,
    key: spec_fn(Seq<char>) -> Seq<char>,
    st: Level,
)
    requires
        all_only_add(in_list, base, es),
        on_base(in_list, base, st),
    ensures
        fold(leveling(), st, flat(sort_by(es, key))) == fold(leveling(), st, flat(es)),
        all_only_add(in_list, base, sort_by(es, key)),
    decreases es.len(),
{
    let holds = |x: Seq<char>| only_adds(in_list, base, item_lines(x));
    assert forall|i: int| 0 <= i < es.len() implies holds(#[trigger] es[i]) by {
    }
    lemma_sort_all(es, key, holds);
    let sorted = sort_by(es, key);
    assert forall|i: int| 0 <= i < sorted.len() implies only_adds(
        in_list,
        base,
        item_lines(#[trigger] sorted[i]),
    ) by {
        assert(holds(sorted[i]));
    }
    if es.len() > 0 {
        let rest = es.drop_last();
        assert forall|i: int| 0 <= i < rest.len() implies only_adds(
            in_list,
            base,
            item_lines(#[trigger] rest[i]),
        ) by {
            assert(rest[i] == es[i]);
        }
        lemma_sort_level(in_list, base, rest, key, st);
        assert(only_adds(in_list, base, item_lines(es[es.len() - 1])));
        lemma_insert_level(in_list, base, sort_by(rest, key), es.last(), key, st);
        lemma_fold_concat(leveling(), st, flat(rest), item_lines(es.last()));
    }
}

} // verus!
