//! Text-level corruption repair.
//!
//! Handles:
//! - Git merge conflict markers (keeps HEAD / ours side)
//! - Duplicate UUID declarations inside `objects = { … }`
//! - Duplicate items inside `files = (…)` / `children = (…)` arrays
//! - Unclosed `/* Begin … section */` blocks (drops the orphan)
//! - Orphaned object bodies (object fields without a UUID declaration header)
//! - A missing `TargetAttributes` wrapper in the project's attributes
//! - Trailing garbage after the final `}`
//!
//! Each pass reads a text line by line.  What it does is stated by a step from
//! one state to the next; the state holds the lines kept so far.

use crate::pattern::{
    compile, decl_uuid, first_group, is_marker, is_match, is_separator, is_uuid_header, item_uuid,
    section_begin, section_end, Pattern, BEGIN_SECTION, CONFLICT_OURS, CONFLICT_SEP,
    CONFLICT_THEIRS, END_SECTION, LIST_ITEM, OBJECT_DECL, OBJECT_DECL_ANY,
};
use crate::text::{
    blank, contains, ends_with, has_substring, indent, is_blank, leading_whitespace,
    lemma_total_len_of_lines, lemma_total_len_take, lemma_unlines_push, lines_of, owned, push_line,
    same, slice_to_string, split_lines, starts_with, texts, to_chars, to_uppercase, total_len, trim,
    trim_start, trimmed, trimmed_start, unlines, uppercase,
};
use vstd::hash_set::StringHashSet;
use vstd::prelude::*;

verus! {

// ── Merge conflicts ──────────────────────────────────────────────────────────

/// The state of reading a text with merge conflicts.
pub ghost struct Conflicts {
    /// Between an opening and a closing marker.
    pub inside: bool,
    /// Behind the separator of the conflict.
    pub past_separator: bool,
    pub out: Seq<Seq<char>>,
    pub hunks: nat,
}

pub open spec fn conflicts_step(st: Conflicts, line: Seq<char>) -> Conflicts {
    if is_marker(line, '<') {
        Conflicts { inside: true, past_separator: false, hunks: st.hunks + 1, ..st }
    } else if st.inside && is_separator(line) {
        Conflicts { past_separator: true, ..st }
    } else if st.inside && is_marker(line, '>') {
        Conflicts { inside: false, past_separator: false, ..st }
    } else if st.inside && st.past_separator {
        st
    } else {
        Conflicts { out: st.out.push(line), ..st }
    }
}

/// The state after reading some lines.
pub open spec fn conflicts_run(lines: Seq<Seq<char>>) -> Conflicts
    decreases lines.len(),
{
    if lines.len() == 0 {
        Conflicts { inside: false, past_separator: false, out: Seq::empty(), hunks: 0 }
    } else {
        conflicts_step(conflicts_run(lines.drop_last()), lines.last())
    }
}

/// Resolves merge conflicts: keeps our side of each, and counts them.
pub fn resolve_conflicts(input: &str) -> (r: (String, usize))
    ensures
        r.0@ == unlines(conflicts_run(lines_of(input@)).out),
        r.1 == conflicts_run(lines_of(input@)).hunks,
{
    let ours = compile(CONFLICT_OURS);
    let sep = compile(CONFLICT_SEP);
    let theirs = compile(CONFLICT_THEIRS);
    let lines = split_lines(input);
    let ghost ls = texts(lines@);
    let mut out = String::new();
    let mut hunks: usize = 0;
    let mut inside = false;
    let mut past_separator = false;
    let mut i: usize = 0;
    proof {
        assert(ls.take(0) =~= Seq::empty());
    }
    while i < lines.len()
        invariant
            i <= lines@.len(),
            ls == texts(lines@),
            ours.wf() && ours.source() == CONFLICT_OURS@,
            sep.wf() && sep.source() == CONFLICT_SEP@,
            theirs.wf() && theirs.source() == CONFLICT_THEIRS@,
            hunks <= i,
            ({
                let st = conflicts_run(ls.take(i as int));
                &&& inside == st.inside
                &&& past_separator == st.past_separator
                &&& out@ == unlines(st.out)
                &&& hunks == st.hunks
            }),
        decreases lines.len() - i,
    {
        let line = lines[i].as_str();
        let ghost st = conflicts_run(ls.take(i as int));
        proof {
            assert(ls.take(i + 1).drop_last() =~= ls.take(i as int));
            assert(ls.take(i + 1).last() == line@);
            lemma_unlines_push(st.out, line@);
        }
        i += 1;
        if is_match(&ours, line) {
            inside = true;
            past_separator = false;
            hunks += 1;
        } else if inside && is_match(&sep, line) {
            past_separator = true;
        } else if inside && is_match(&theirs, line) {
            inside = false;
            past_separator = false;
        } else if !(inside && past_separator) {
            push_line(&mut out, line);
        }
    }
    proof {
        assert(ls.take(i as int) =~= ls);
    }
    (out, hunks)
}

// ── Duplicate object declarations ────────────────────────────────────────────

/// The net number of opening braces from position `i` on, outside quotes.
pub open spec fn brace_sum(s: Seq<char>, i: int, quoted: bool) -> int
    decreases s.len() + 2 - i,
{
    if i < 0 || i >= s.len() {
        0
    } else if s[i] == '\\' && quoted {
        brace_sum(s, i + 2, quoted)
    } else if s[i] == '"' {
        brace_sum(s, i + 1, !quoted)
    } else if s[i] == '{' && !quoted {
        1 + brace_sum(s, i + 1, quoted)
    } else if s[i] == '}' && !quoted {
        brace_sum(s, i + 1, quoted) - 1
    } else {
        brace_sum(s, i + 1, quoted)
    }
}

/// The net number of opening braces of a line.
pub open spec fn line_braces(s: Seq<char>) -> int {
    brace_sum(s, 0, false)
}

/// Counts the net `{` minus `}` of a line, ignoring characters inside
/// double-quoted strings, so that a value such as
/// `shellScript = "if [ \"${VAR}\" ];"` does not change the depth.
pub fn brace_delta(line: &str) -> (delta: i128)
    ensures
        delta == line_braces(line@),
        -line@.len() <= delta <= line@.len(),
        line@.len() <= usize::MAX,
{
    let cs = to_chars(line);
    assert(cs@.len() == cs.len());
    let mut delta: i128 = 0;
    let mut quoted = false;
    let mut i: usize = 0;
    while i < cs.len()
        invariant
            cs@ == line@,
            i <= cs@.len(),
            -i <= delta <= i,
            delta + brace_sum(line@, i as int, quoted) == line_braces(line@),
        decreases cs.len() - i,
    {
        let c = cs[i];
        if c == '\\' && quoted {
            if i + 1 < cs.len() {
                i += 1;
            } else {
                assert(brace_sum(line@, i + 2, quoted) == brace_sum(line@, i + 1, quoted));
            }
        } else if c == '"' {
            quoted = !quoted;
        } else if c == '{' && !quoted {
            delta += 1;
        } else if c == '}' && !quoted {
            delta -= 1;
        }
        i += 1;
    }
    delta
}

/// The line that opens the objects block.
pub open spec fn opens_objects(line: Seq<char>) -> bool {
    "objects = {"@.is_prefix_of(trimmed_start(line))
}

pub fn is_objects_line(line: &str) -> (r: bool)
    ensures
        r == opens_objects(line@),
{
    starts_with(trim_start(line).as_str(), "objects = {")
}

/// The state of reading object declarations.
pub ghost struct Decls {
    /// Inside the objects block.
    pub in_objects: bool,
    /// The depth of braces, 1 directly inside the objects block.
    pub depth: int,
    /// The depth at which the duplicate object that is being dropped ends.
    pub skip_to: Option<int>,
    /// The UUIDs declared so far, in upper case.
    pub seen: Set<Seq<char>>,
    pub out: Seq<Seq<char>>,
    pub removed: nat,
}

pub open spec fn decls_step(st: Decls, line: Seq<char>) -> Decls {
    let depth = st.depth + line_braces(line);
    let kept = Decls { out: st.out.push(line), ..st };
    let uuid = decl_uuid(line);
    if !st.in_objects {
        if opens_objects(line) {
            Decls { in_objects: true, depth: 1, ..kept }
        } else {
            kept
        }
    } else if depth <= 0 {
        Decls { in_objects: false, depth, skip_to: None, ..kept }
    } else if st.skip_to is Some {
        Decls {
            depth,
            skip_to: if depth <= st.skip_to->Some_0 {
                None
            } else {
                st.skip_to
            },
            removed: st.removed + 1,
            ..st
        }
    } else if st.depth != 1 || uuid is None {
        Decls { depth, ..kept }
    } else if st.seen.contains(uppercase(uuid->Some_0)) {
        Decls {
            depth,
            skip_to: if depth > 1 {
                Some(1)
            } else {
                None
            },
            removed: st.removed + 1,
            ..st
        }
    } else {
        Decls { depth, seen: st.seen.insert(uppercase(uuid->Some_0)), ..kept }
    }
}

pub open spec fn decls_run(lines: Seq<Seq<char>>) -> Decls
    decreases lines.len(),
{
    if lines.len() == 0 {
        Decls {
            in_objects: false,
            depth: 0,
            skip_to: None,
            seen: Set::empty(),
            out: Seq::empty(),
            removed: 0,
        }
    } else {
        decls_step(decls_run(lines.drop_last()), lines.last())
    }
}

/// Drops every object whose UUID has been declared before as a direct child of
/// the objects block, and counts the lines dropped.
pub fn dedup_object_declarations(input: &str) -> (r: (String, usize))
    ensures
        r.0@ == unlines(decls_run(lines_of(input@)).out),
        r.1 == decls_run(lines_of(input@)).removed,
{
    let decl = compile(OBJECT_DECL);
    let lines = split_lines(input);
    let ghost ls = texts(lines@);
    let mut out = String::new();
    let mut removed: usize = 0;
    let mut seen = StringHashSet::new();
    let mut in_objects = false;
    let mut depth: i128 = 0;
    let mut skip_to: Option<i128> = None;
    let mut i: usize = 0;
    proof {
        assert(ls.take(0) =~= Seq::empty());
        lemma_total_len_of_lines(input@);
    }
    while i < lines.len()
        invariant
            i <= lines@.len(),
            ls == texts(lines@),
            decl.wf() && decl.source() == OBJECT_DECL@,
            removed <= i,
            total_len(ls) <= usize::MAX,
            -1 - total_len(ls.take(i as int)) <= depth <= 1 + total_len(ls.take(i as int)),
            ({
                let st = decls_run(ls.take(i as int));
                &&& in_objects == st.in_objects
                &&& depth == st.depth
                &&& skip_to is Some == st.skip_to is Some
                &&& skip_to is Some ==> skip_to->Some_0 == st.skip_to->Some_0
                &&& seen@ == st.seen
                &&& out@ == unlines(st.out)
                &&& removed == st.removed
            }),
        decreases lines.len() - i,
    {
        let line = lines[i].as_str();
        let ghost st = decls_run(ls.take(i as int));
        proof {
            assert(ls.take(i + 1).drop_last() =~= ls.take(i as int));
            assert(ls.take(i + 1).last() == line@);
            lemma_unlines_push(st.out, line@);
            lemma_total_len_take(ls, i + 1);
        }
        i += 1;
        if !in_objects {
            if is_objects_line(line) {
                in_objects = true;
                depth = 1;
            }
            push_line(&mut out, line);
            continue;
        }
        let before = depth;
        depth = depth + brace_delta(line);
        if depth <= 0 {
            in_objects = false;
            skip_to = None;
            push_line(&mut out, line);
            continue;
        }
        if let Some(target) = skip_to {
            removed += 1;
            if depth <= target {
                skip_to = None;
            }
            continue;
        }
        if before == 1 {
            if let Some(uuid) = first_group(&decl, line) {
                let key = to_uppercase(uuid.as_str());
                if seen.contains(key.as_str()) {
                    removed += 1;
                    if depth > before {
                        skip_to = Some(before);
                    }
                    continue;
                }
                seen.insert(key);
            }
        }
        push_line(&mut out, line);
    }
    proof {
        assert(ls.take(i as int) =~= ls);
    }
    (out, removed)
}

// ── Duplicate list items ─────────────────────────────────────────────────────

/// The line that opens a list.
pub open spec fn opens_any_list(line: Seq<char>) -> bool {
    "= ("@.is_suffix_of(trimmed(line)) || trimmed(line) == "("@
}

/// The line that closes a list.
pub open spec fn closes_any_list(line: Seq<char>) -> bool {
    trimmed(line) == ");"@ || trimmed(line) == ")"@
}

/// The state of reading lists.
pub ghost struct Lists {
    pub in_list: bool,
    /// The UUIDs of the list so far, in upper case.
    pub seen: Set<Seq<char>>,
    pub out: Seq<Seq<char>>,
    pub removed: nat,
}

pub open spec fn lists_step(st: Lists, line: Seq<char>) -> Lists {
    let kept = Lists { out: st.out.push(line), ..st };
    let uuid = item_uuid(line);
    if !st.in_list {
        if opens_any_list(line) {
            Lists { in_list: true, seen: Set::empty(), ..kept }
        } else {
            kept
        }
    } else if closes_any_list(line) {
        Lists { in_list: false, ..kept }
    } else if uuid is None {
        kept
    } else if st.seen.contains(uppercase(uuid->Some_0)) {
        Lists { removed: st.removed + 1, ..st }
    } else {
        Lists { seen: st.seen.insert(uppercase(uuid->Some_0)), ..kept }
    }
}

pub open spec fn lists_run(lines: Seq<Seq<char>>) -> Lists
    decreases lines.len(),
{
    if lines.len() == 0 {
        Lists { in_list: false, seen: Set::empty(), out: Seq::empty(), removed: 0 }
    } else {
        lists_step(lists_run(lines.drop_last()), lines.last())
    }
}

/// Drops every item of a list whose UUID the list has already, and counts them.
pub fn dedup_list_items(input: &str) -> (r: (String, usize))
    ensures
        r.0@ == unlines(lists_run(lines_of(input@)).out),
        r.1 == lists_run(lines_of(input@)).removed,
{
    let item = compile(LIST_ITEM);
    let lines = split_lines(input);
    let ghost ls = texts(lines@);
    let mut out = String::new();
    let mut removed: usize = 0;
    let mut seen = StringHashSet::new();
    let mut in_list = false;
    let mut i: usize = 0;
    proof {
        assert(ls.take(0) =~= Seq::empty());
    }
    while i < lines.len()
        invariant
            i <= lines@.len(),
            ls == texts(lines@),
            item.wf() && item.source() == LIST_ITEM@,
            removed <= i,
            ({
                let st = lists_run(ls.take(i as int));
                &&& in_list == st.in_list
                &&& seen@ == st.seen
                &&& out@ == unlines(st.out)
                &&& removed == st.removed
            }),
        decreases lines.len() - i,
    {
        let line = lines[i].as_str();
        let ghost st = lists_run(ls.take(i as int));
        proof {
            assert(ls.take(i + 1).drop_last() =~= ls.take(i as int));
            assert(ls.take(i + 1).last() == line@);
            lemma_unlines_push(st.out, line@);
        }
        i += 1;
        let trimmed_line = trim(line);
        let t = trimmed_line.as_str();
        if !in_list {
            if ends_with(t, "= (") || same(t, "(") {
                in_list = true;
                seen.clear();
            }
            push_line(&mut out, line);
        } else if same(t, ");") || same(t, ")") {
            in_list = false;
            push_line(&mut out, line);
        } else {
            if let Some(uuid) = first_group(&item, line) {
                let key = to_uppercase(uuid.as_str());
                if seen.contains(key.as_str()) {
                    removed += 1;
                    continue;
                }
                seen.insert(key);
            }
            push_line(&mut out, line);
        }
    }
    proof {
        assert(ls.take(i as int) =~= ls);
    }
    (out, removed)
}

// ── Orphaned sections ────────────────────────────────────────────────────────

/// Some line begins a section of this name.
pub open spec fn begins(lines: Seq<Seq<char>>, name: Seq<char>) -> bool {
    exists|k: int| 0 <= k < lines.len() && section_begin(#[trigger] lines[k]) == Some(name)
}

/// Some line ends a section of this name.
pub open spec fn ends(lines: Seq<Seq<char>>, name: Seq<char>) -> bool {
    exists|k: int| 0 <= k < lines.len() && section_end(#[trigger] lines[k]) == Some(name)
}

/// A line that begins a section which no line ends.
pub open spec fn orphan_begin(lines: Seq<Seq<char>>, line: Seq<char>) -> bool {
    section_begin(line) is Some && !ends(lines, section_begin(line)->Some_0)
}

/// A line that ends a section which no line begins.
pub open spec fn orphan_end(lines: Seq<Seq<char>>, line: Seq<char>) -> bool {
    section_end(line) is Some && !begins(lines, section_end(line)->Some_0)
}

pub open spec fn has_orphan(lines: Seq<Seq<char>>) -> bool {
    exists|k: int|
        0 <= k < lines.len() && (orphan_begin(lines, #[trigger] lines[k]) || orphan_end(
            lines,
            lines[k],
        ))
}

/// The state of dropping orphaned sections.
pub ghost struct Sections {
    /// The orphaned section that is being dropped.
    pub skip: Option<Seq<char>>,
    pub out: Seq<Seq<char>>,
    pub removed: nat,
}

pub open spec fn sections_step(all: Seq<Seq<char>>, st: Sections, line: Seq<char>) -> Sections {
    if orphan_begin(all, line) {
        Sections { skip: section_begin(line), removed: st.removed + 1, ..st }
    } else if st.skip is Some {
        Sections {
            skip: if section_end(line) == st.skip {
                None
            } else {
                st.skip
            },
            ..st
        }
    } else if orphan_end(all, line) {
        Sections { removed: st.removed + 1, ..st }
    } else {
        Sections { out: st.out.push(line), ..st }
    }
}

pub open spec fn sections_run(all: Seq<Seq<char>>, lines: Seq<Seq<char>>) -> Sections
    decreases lines.len(),
{
    if lines.len() == 0 {
        Sections { skip: None, out: Seq::empty(), removed: 0 }
    } else {
        sections_step(all, sections_run(all, lines.drop_last()), lines.last())
    }
}

/// The text without its orphaned sections.
pub open spec fn without_orphans(s: Seq<char>) -> (Seq<char>, nat) {
    let ls = lines_of(s);
    if has_orphan(ls) {
        (unlines(sections_run(ls, ls).out), sections_run(ls, ls).removed)
    } else {
        (s, 0)
    }
}

/// The names that a pattern finds in the lines of a text.
fn section_names(lines: &Vec<String>, marker: &Pattern) -> (names: StringHashSet)
    requires
        marker.wf(),
        marker.source() == BEGIN_SECTION@ || marker.source() == END_SECTION@,
    ensures
        marker.source() == BEGIN_SECTION@ ==> forall|n: Seq<char>|
            names@.contains(n) == #[trigger] begins(texts(lines@), n),
        marker.source() == END_SECTION@ ==> forall|n: Seq<char>|
            names@.contains(n) == #[trigger] ends(texts(lines@), n),
{
    let ghost ls = texts(lines@);
    let mut names = StringHashSet::new();
    let mut i: usize = 0;
    while i < lines.len()
        invariant
            i <= lines@.len(),
            ls == texts(lines@),
            marker.wf(),
            marker.source() == BEGIN_SECTION@ || marker.source() == END_SECTION@,
            marker.source() == BEGIN_SECTION@ ==> forall|n: Seq<char>|
                names@.contains(n) == #[trigger] begins(ls.take(i as int), n),
            marker.source() == END_SECTION@ ==> forall|n: Seq<char>|
                names@.contains(n) == #[trigger] ends(ls.take(i as int), n),
        decreases lines.len() - i,
    {
        let line = lines[i].as_str();
        let ghost before = names@;
        let found = first_group(marker, line);
        if let Some(name) = found {
            names.insert(name);
        }
        proof {
            let now = ls.take(i + 1);
            assert(now.drop_last() =~= ls.take(i as int));
            assert(now[i as int] == line@);
            assert forall|n: Seq<char>| marker.source() == BEGIN_SECTION@ implies names@.contains(n)
                == #[trigger] begins(now, n) by {
                assert(before.contains(n) == begins(ls.take(i as int), n));
                if begins(ls.take(i as int), n) {
                    let k = choose|k: int|
                        0 <= k < i && section_begin(#[trigger] ls.take(i as int)[k]) == Some(n);
                    assert(now[k] == ls.take(i as int)[k]);
                }
                if begins(now, n) {
                    let k = choose|k: int|
                        0 <= k < now.len() && section_begin(#[trigger] now[k]) == Some(n);
                    if k < i {
                        assert(ls.take(i as int)[k] == now[k]);
                    }
                }
            }
            assert forall|n: Seq<char>| marker.source() == END_SECTION@ implies names@.contains(n)
                == #[trigger] ends(now, n) by {
                assert(before.contains(n) == ends(ls.take(i as int), n));
                if ends(ls.take(i as int), n) {
                    let k = choose|k: int|
                        0 <= k < i && section_end(#[trigger] ls.take(i as int)[k]) == Some(n);
                    assert(now[k] == ls.take(i as int)[k]);
                }
                if ends(now, n) {
                    let k = choose|k: int|
                        0 <= k < now.len() && section_end(#[trigger] now[k]) == Some(n);
                    if k < i {
                        assert(ls.take(i as int)[k] == now[k]);
                    }
                }
            }
        }
        i += 1;
    }
    proof {
        assert(ls.take(i as int) =~= ls);
    }
    names
}

/// Drops each section marker that has no counterpart, and what follows one that
/// begins a section; counts the markers.
pub fn remove_orphan_sections(input: &str) -> (r: (String, usize))
    ensures
        (r.0@, r.1 as nat) == without_orphans(input@),
{
    let begin = compile(BEGIN_SECTION);
    let end = compile(END_SECTION);
    let lines = split_lines(input);
    let ghost ls = texts(lines@);
    let begun = section_names(&lines, &begin);
    let ended = section_names(&lines, &end);
    let mut out = String::new();
    let mut removed: usize = 0;
    let mut skip: Option<String> = None;
    let mut orphan = false;
    let mut i: usize = 0;
    proof {
        assert(ls.take(0) =~= Seq::empty());
    }
    while i < lines.len()
        invariant
            i <= lines@.len(),
            ls == texts(lines@),
            begin.wf() && begin.source() == BEGIN_SECTION@,
            end.wf() && end.source() == END_SECTION@,
            forall|n: Seq<char>| begun@.contains(n) == #[trigger] begins(ls, n),
            forall|n: Seq<char>| ended@.contains(n) == #[trigger] ends(ls, n),
            removed <= i,
            orphan == exists|k: int|
                0 <= k < i && (orphan_begin(ls, #[trigger] ls[k]) || orphan_end(ls, ls[k])),
            ({
                let st = sections_run(ls, ls.take(i as int));
                &&& crate::text::opt_view(skip) == st.skip
                &&& out@ == unlines(st.out)
                &&& removed == st.removed
            }),
        decreases lines.len() - i,
    {
        let line = lines[i].as_str();
        let ghost st = sections_run(ls, ls.take(i as int));
        proof {
            assert(ls.take(i + 1).drop_last() =~= ls.take(i as int));
            assert(ls.take(i + 1).last() == line@);
            assert(ls[i as int] == line@);
            lemma_unlines_push(st.out, line@);
        }
        i += 1;
        let b = first_group(&begin, line);
        let e = first_group(&end, line);
        let lone_end = match &e {
            Some(name) => !begun.contains(name.as_str()),
            None => false,
        };
        assert(lone_end == orphan_end(ls, line@));
        if lone_end {
            orphan = true;
        }
        if let Some(name) = b {
            if !ended.contains(name.as_str()) {
                orphan = true;
                skip = Some(name);
                removed += 1;
                continue;
            }
        }
        assert(!orphan_begin(ls, line@));
        match &skip {
            Some(name) => {
                let over = match &e {
                    Some(other) => same(other.as_str(), name.as_str()),
                    None => false,
                };
                if over {
                    skip = None;
                }
            },
            None => {
                if lone_end {
                    removed += 1;
                } else {
                    push_line(&mut out, line);
                }
            },
        }
    }
    proof {
        assert(ls.take(i as int) =~= ls);
    }
    if orphan {
        (out, removed)
    } else {
        (owned(input), 0)
    }
}

// ── Orphaned object bodies ───────────────────────────────────────────────────

/// A line that may stand directly inside the objects block.
pub open spec fn is_object_level(line: Seq<char>) -> bool {
    let t = trimmed(line);
    ||| t.len() == 0
    ||| "/*"@.is_prefix_of(t)
    ||| "//"@.is_prefix_of(t)
    ||| t == "}"@
    ||| t == "};"@
    ||| is_uuid_header(line)
}

/// The state of dropping bodies without a header.
pub ghost struct Bodies {
    pub in_objects: bool,
    pub depth: int,
    /// Inside a body without a header.
    pub in_orphan: bool,
    pub out: Seq<Seq<char>>,
    pub removed: nat,
}

pub open spec fn bodies_step(st: Bodies, line: Seq<char>) -> Bodies {
    let depth = st.depth + line_braces(line);
    let kept = Bodies { out: st.out.push(line), ..st };
    if !st.in_objects {
        if opens_objects(line) {
            Bodies { in_objects: true, depth: 1, ..kept }
        } else {
            kept
        }
    } else if st.in_orphan {
        if depth <= 0 {
            // The brace that closes the object whose header is gone does not
            // count: the depth stays what it was.
            Bodies { in_orphan: false, removed: st.removed + 1, ..st }
        } else {
            Bodies { depth, removed: st.removed + 1, ..st }
        }
    } else if depth <= 0 {
        Bodies { in_objects: false, depth, ..kept }
    } else if st.depth == 1 && !is_object_level(line) {
        Bodies { in_orphan: true, removed: st.removed + 1, ..st }
    } else {
        Bodies { depth, ..kept }
    }
}

pub open spec fn bodies_run(lines: Seq<Seq<char>>) -> Bodies
    decreases lines.len(),
{
    if lines.len() == 0 {
        Bodies { in_objects: false, depth: 0, in_orphan: false, out: Seq::empty(), removed: 0 }
    } else {
        bodies_step(bodies_run(lines.drop_last()), lines.last())
    }
}

/// Whether a line may stand directly inside the objects block.
fn object_level(line: &str, header: &Pattern) -> (r: bool)
    requires
        header.wf(),
        header.source() == OBJECT_DECL_ANY@,
    ensures
        r == is_object_level(line@),
{
    let trimmed_line = trim(line);
    let t = trimmed_line.as_str();
    t.is_empty() || starts_with(t, "/*") || starts_with(t, "//") || same(t, "}") || same(t, "};")
        || is_match(header, line)
}

/// Drops the fields and the closing `};` of an object whose header line is
/// missing, and counts the lines dropped.
pub fn remove_orphan_object_bodies(input: &str) -> (r: (String, usize))
    ensures
        r.0@ == unlines(bodies_run(lines_of(input@)).out),
        r.1 == bodies_run(lines_of(input@)).removed,
{
    let header = compile(OBJECT_DECL_ANY);
    let lines = split_lines(input);
    let ghost ls = texts(lines@);
    let mut out = String::new();
    let mut removed: usize = 0;
    let mut in_objects = false;
    let mut depth: i128 = 0;
    let mut in_orphan = false;
    let mut i: usize = 0;
    proof {
        assert(ls.take(0) =~= Seq::empty());
        lemma_total_len_of_lines(input@);
    }
    while i < lines.len()
        invariant
            i <= lines@.len(),
            ls == texts(lines@),
            header.wf() && header.source() == OBJECT_DECL_ANY@,
            removed <= i,
            total_len(ls) <= usize::MAX,
            -1 - total_len(ls.take(i as int)) <= depth <= 1 + total_len(ls.take(i as int)),
            ({
                let st = bodies_run(ls.take(i as int));
                &&& in_objects == st.in_objects
                &&& depth == st.depth
                &&& in_orphan == st.in_orphan
                &&& out@ == unlines(st.out)
                &&& removed == st.removed
            }),
        decreases lines.len() - i,
    {
        let line = lines[i].as_str();
        let ghost st = bodies_run(ls.take(i as int));
        proof {
            assert(ls.take(i + 1).drop_last() =~= ls.take(i as int));
            assert(ls.take(i + 1).last() == line@);
            lemma_unlines_push(st.out, line@);
            lemma_total_len_take(ls, i + 1);
        }
        i += 1;
        if !in_objects {
            if is_objects_line(line) {
                in_objects = true;
                depth = 1;
            }
            push_line(&mut out, line);
            continue;
        }
        let next: i128 = depth + brace_delta(line);
        if in_orphan {
            removed += 1;
            if next <= 0 {
                in_orphan = false;
            } else {
                depth = next;
            }
        } else if next <= 0 {
            depth = next;
            in_objects = false;
            push_line(&mut out, line);
        } else if depth == 1 && !object_level(line, &header) {
            in_orphan = true;
            removed += 1;
        } else {
            depth = next;
            push_line(&mut out, line);
        }
    }
    proof {
        assert(ls.take(i as int) =~= ls);
    }
    (out, removed)
}

// ── Target attributes ────────────────────────────────────────────────────────

/// A line of the attributes that holds the target attributes.
pub open spec fn is_target_attributes(line: Seq<char>) -> bool {
    "TargetAttributes ="@.is_prefix_of(trimmed_start(line)) || "TargetAttributes="@.is_prefix_of(
        trimmed_start(line),
    )
}

/// The state of reading the project's attributes.
pub ghost struct Attributes {
    pub in_section: bool,
    pub in_object: bool,
    pub in_attributes: bool,
    /// The depth of braces, 1 directly inside the attributes.
    pub depth: int,
    /// The attributes have their target attributes.
    pub seen: bool,
    /// The wrapper has been added.
    pub added: bool,
    pub out: Seq<Seq<char>>,
}

pub open spec fn attributes_step(st: Attributes, line: Seq<char>) -> Attributes {
    let ended = has_substring(line, "/* End PBXProject section */"@);
    let in_section = !ended && (st.in_section || has_substring(
        line,
        "/* Begin PBXProject section */"@,
    ));
    let in_object = !ended && (st.in_object || (in_section && has_substring(
        line,
        "isa = PBXProject;"@,
    )));
    let depth = st.depth + line_braces(line);
    if in_object && !st.in_attributes && "attributes = {"@.is_prefix_of(trimmed_start(line)) {
        Attributes {
            in_section,
            in_object,
            in_attributes: true,
            depth: 1,
            seen: false,
            out: st.out.push(line),
            ..st
        }
    } else if !st.in_attributes {
        Attributes { in_section, in_object, out: st.out.push(line), ..st }
    } else {
        let seen = st.seen || is_target_attributes(line);
        if depth > 0 {
            Attributes { in_section, in_object, depth, seen, out: st.out.push(line), ..st }
        } else if seen || st.added {
            Attributes {
                in_section,
                in_object: false,
                in_attributes: false,
                depth,
                seen,
                out: st.out.push(line),
                ..st
            }
        } else {
            let space = line.take(indent(line) as int);
            Attributes {
                in_section,
                in_object: false,
                in_attributes: false,
                depth,
                seen,
                added: true,
                out: st.out.push(space + "\tTargetAttributes = {"@).push(space + "\t};"@).push(line),
            }
        }
    }
}

pub open spec fn attributes_run(lines: Seq<Seq<char>>) -> Attributes
    decreases lines.len(),
{
    if lines.len() == 0 {
        Attributes {
            in_section: false,
            in_object: false,
            in_attributes: false,
            depth: 0,
            seen: false,
            added: false,
            out: Seq::empty(),
        }
    } else {
        attributes_step(attributes_run(lines.drop_last()), lines.last())
    }
}

/// Adds an empty `TargetAttributes` wrapper at the end of the first attributes
/// of a project that lack one, and says whether it did.
pub fn ensure_pbxproject_target_attributes(input: &str) -> (r: (String, bool))
    ensures
        r.0@ == unlines(attributes_run(lines_of(input@)).out),
        r.1 == attributes_run(lines_of(input@)).added,
{
    let lines = split_lines(input);
    let ghost ls = texts(lines@);
    let mut out = String::new();
    let mut in_section = false;
    let mut in_object = false;
    let mut in_attributes = false;
    let mut depth: i128 = 0;
    let mut seen = false;
    let mut added = false;
    let mut i: usize = 0;
    proof {
        assert(ls.take(0) =~= Seq::empty());
        lemma_total_len_of_lines(input@);
    }
    while i < lines.len()
        invariant
            i <= lines@.len(),
            ls == texts(lines@),
            total_len(ls) <= usize::MAX,
            -1 - total_len(ls.take(i as int)) <= depth <= 1 + total_len(ls.take(i as int)),
            ({
                let st = attributes_run(ls.take(i as int));
                &&& in_section == st.in_section
                &&& in_object == st.in_object
                &&& in_attributes == st.in_attributes
                &&& depth == st.depth
                &&& seen == st.seen
                &&& added == st.added
                &&& out@ == unlines(st.out)
            }),
        decreases lines.len() - i,
    {
        let line = lines[i].as_str();
        let ghost st = attributes_run(ls.take(i as int));
        proof {
            assert(ls.take(i + 1).drop_last() =~= ls.take(i as int));
            assert(ls.take(i + 1).last() == line@);
            lemma_unlines_push(st.out, line@);
            lemma_total_len_take(ls, i + 1);
        }
        i += 1;
        if contains(line, "/* Begin PBXProject section */") {
            in_section = true;
        }
        if contains(line, "/* End PBXProject section */") {
            in_section = false;
            in_object = false;
        }
        if in_section && !in_object && contains(line, "isa = PBXProject;") {
            in_object = true;
        }
        let start = trim_start(line);
        if in_object && !in_attributes && starts_with(start.as_str(), "attributes = {") {
            in_attributes = true;
            depth = 1;
            seen = false;
        } else if in_attributes {
            if starts_with(start.as_str(), "TargetAttributes =") || starts_with(
                start.as_str(),
                "TargetAttributes=",
            ) {
                seen = true;
            }
            depth = depth + brace_delta(line);
            if depth <= 0 {
                if !seen && !added {
                    let mut open = leading_whitespace(line);
                    let mut close = leading_whitespace(line);
                    open.push_str("\tTargetAttributes = {");
                    close.push_str("\t};");
                    push_line(&mut out, open.as_str());
                    push_line(&mut out, close.as_str());
                    proof {
                        lemma_unlines_push(st.out, open@);
                        lemma_unlines_push(st.out.push(open@), close@);
                        lemma_unlines_push(st.out.push(open@).push(close@), line@);
                    }
                    added = true;
                }
                in_attributes = false;
                in_object = false;
            }
        }
        push_line(&mut out, line);
    }
    proof {
        assert(ls.take(i as int) =~= ls);
    }
    (out, added)
}

// ── Trailing garbage ─────────────────────────────────────────────────────────

/// Where the reading of a document stands.
#[derive(Debug, Clone, Copy, PartialEq, Eq, Structural)]
pub enum Place {
    /// Before a token.
    Between,
    /// In a string without quotes.
    Word,
    /// In a string in quotes.
    Quote,
    /// In a block comment.
    Comment,
    /// In a text that is no document.
    Nowhere,
}

/// The state of reading a document.
pub ghost struct Reading {
    pub place: Place,
    /// How many braces are open.
    pub depth: nat,
    /// The column behind the brace that closes the document, in its line.
    pub end: Option<int>,
}

/// A character that stands between two tokens.
pub open spec fn parts_tokens(c: char) -> bool {
    c == ' ' || c == '\t' || c == '\r' || c == '(' || c == ')' || c == '=' || c == ';' || c == ','
}

/// Character `i` of a line is `a`, and the next one `b`.
pub open spec fn is_pair(line: Seq<char>, i: int, a: char, b: char) -> bool {
    i + 1 < line.len() && line[i] == a && line[i + 1] == b
}

/// The state after reading a line from column `i` on.  Braces in quotes and in
/// comments do not count, and a document opens with the first brace: only white
/// space and comments stand before it.
pub open spec fn line_read(line: Seq<char>, i: int, place: Place, depth: nat) -> Reading
    decreases line.len() - i,
{
    if i < 0 || i >= line.len() {
        Reading {
            place: if place == Place::Word {
                Place::Between
            } else {
                place
            },
            depth,
            end: None,
        }
    } else {
        let c = line[i];
        match place {
            Place::Nowhere => Reading { place, depth, end: None },
            Place::Quote => if c == '\\' && i + 1 < line.len() {
                line_read(line, i + 2, place, depth)
            } else if c == '"' {
                line_read(line, i + 1, Place::Between, depth)
            } else {
                line_read(line, i + 1, place, depth)
            },
            Place::Comment => if is_pair(line, i, '*', '/') {
                line_read(line, i + 2, Place::Between, depth)
            } else {
                line_read(line, i + 1, place, depth)
            },
            _ => if is_pair(line, i, '/', '*') {
                line_read(line, i + 2, Place::Comment, depth)
            } else if is_pair(line, i, '/', '/') {
                Reading { place: Place::Between, depth, end: None }
            } else if c == '{' {
                line_read(line, i + 1, Place::Between, depth + 1)
            } else if depth == 0 {
                if c == ' ' || c == '\t' || c == '\r' {
                    line_read(line, i + 1, Place::Between, depth)
                } else {
                    Reading { place: Place::Nowhere, depth, end: None }
                }
            } else if c == '}' {
                if depth == 1 {
                    Reading { place: Place::Nowhere, depth: 0, end: Some(i + 1) }
                } else {
                    line_read(line, i + 1, Place::Between, (depth - 1) as nat)
                }
            } else if c == '"' && place == Place::Between {
                line_read(line, i + 1, Place::Quote, depth)
            } else if parts_tokens(c) {
                line_read(line, i + 1, Place::Between, depth)
            } else {
                line_read(line, i + 1, Place::Word, depth)
            },
        }
    }
}

/// The state after reading some lines; the end is that of the last line.
pub open spec fn read_run(lines: Seq<Seq<char>>) -> Reading
    decreases lines.len(),
{
    if lines.len() == 0 {
        Reading { place: Place::Between, depth: 0, end: None }
    } else {
        let st = read_run(lines.drop_last());
        line_read(lines.last(), 0, st.place, st.depth)
    }
}

/// The document closes in line `k`.
pub open spec fn closes_in(lines: Seq<Seq<char>>, k: int) -> bool {
    0 <= k < lines.len() && read_run(lines.take(k + 1)).end is Some
}

/// A line without what is not blank behind a column.
pub open spec fn cut(line: Seq<char>, c: int) -> Seq<char> {
    if is_blank(line.skip(c)) {
        line
    } else {
        line.take(c)
    }
}

/// The lines up to line `k`, which holds the brace that closes the document, and
/// the blank lines behind it.
pub open spec fn cut_behind(lines: Seq<Seq<char>>, k: int) -> Seq<Seq<char>> {
    lines.take(k).push(cut(lines[k], read_run(lines.take(k + 1)).end->Some_0)) + lines.skip(
        k + 1,
    ).filter(|l: Seq<char>| is_blank(l))
}

/// The line in which the document closes, among the first `n`.
pub open spec fn closing_line(lines: Seq<Seq<char>>, n: int) -> Option<int>
    decreases n,
{
    if n <= 0 {
        None
    } else if closes_in(lines, n - 1) {
        Some(n - 1)
    } else {
        closing_line(lines, n - 1)
    }
}

/// The lines of the document, and the blank lines behind it; all of them, if it
/// is not closed.
pub open spec fn without_garbage(lines: Seq<Seq<char>>) -> Seq<Seq<char>> {
    match closing_line(lines, lines.len() as int) {
        Some(k) => cut_behind(lines, k),
        None => lines,
    }
}

/// Reads a line of a document.
fn read_line(cs: &Vec<char>, place: Place, depth: usize) -> (r: (Place, usize, Option<usize>))
    requires
        depth + cs@.len() <= usize::MAX,
    ensures
        ({
            let st = line_read(cs@, 0, place, depth as nat);
            &&& r.0 == st.place
            &&& r.1 == st.depth
            &&& r.2 is None == st.end is None
            &&& r.2 is Some ==> st.end == Some(r.2->Some_0 as int)
        }),
        r.1 <= depth + cs@.len(),
        r.2 is Some ==> r.2->Some_0 <= cs@.len(),
{
    let mut p: Place = place;
    let mut d: usize = depth;
    let mut i: usize = 0;
    while i < cs.len()
        invariant
            depth + cs@.len() <= usize::MAX,
            line_read(cs@, i as int, p, d as nat) == line_read(cs@, 0, place, depth as nat),
            d <= depth + i,
            i <= cs@.len() ==> d <= depth + i,
            d <= depth + cs@.len(),
        decreases cs@.len() - i,
    {
        let c = cs[i];
        let next: char = if i + 1 < cs.len() {
            cs[i + 1]
        } else {
            '\n'
        };
        if p == Place::Nowhere {
            return (p, d, None);
        }
        if p == Place::Quote {
            if c == '\\' && i + 1 < cs.len() {
                i += 2;
            } else {
                if c == '"' {
                    p = Place::Between;
                }
                i += 1;
            }
        } else if p == Place::Comment {
            if c == '*' && next == '/' {
                p = Place::Between;
                i += 2;
            } else {
                i += 1;
            }
        } else if c == '/' && next == '*' {
            p = Place::Comment;
            i += 2;
        } else if c == '/' && next == '/' {
            return (Place::Between, d, None);
        } else {
            if c == '{' {
                d += 1;
                p = Place::Between;
            } else if d == 0 {
                if c != ' ' && c != '\t' && c != '\r' {
                    return (Place::Nowhere, d, None);
                }
                p = Place::Between;
            } else if c == '}' {
                if d == 1 {
                    return (Place::Nowhere, 0, Some(i + 1));
                }
                d -= 1;
                p = Place::Between;
            } else if c == '"' && p == Place::Between {
                p = Place::Quote;
            } else if c == ' ' || c == '\t' || c == '\r' || c == '(' || c == ')' || c == '=' || c
                == ';' || c == ',' {
                p = Place::Between;
            } else {
                p = Place::Word;
            }
            i += 1;
        }
    }
    if p == Place::Word {
        (Place::Between, d, None)
    } else {
        (p, d, None)
    }
}

/// The line and the column in which the document closes.
fn find_end(lines: &Vec<String>) -> (r: Option<(usize, usize)>)
    requires
        total_len(texts(lines@)) <= usize::MAX,
    ensures
        ({
            let ls = texts(lines@);
            let k = closing_line(ls, ls.len() as int);
            &&& r is None == k is None
            &&& r is Some ==> {
                &&& k == Some(r->Some_0.0 as int)
                &&& r->Some_0.0 < ls.len()
                &&& read_run(ls.take(r->Some_0.0 + 1)).end == Some(r->Some_0.1 as int)
                &&& r->Some_0.1 <= ls[r->Some_0.0 as int].len()
            }
        }),
{
    let ghost ls = texts(lines@);
    let mut found: Option<(usize, usize)> = None;
    let mut place: Place = Place::Between;
    let mut depth: usize = 0;
    let mut i: usize = 0;
    proof {
        assert(ls.take(0) =~= Seq::empty());
    }
    while i < lines.len()
        invariant
            i <= lines@.len(),
            ls == texts(lines@),
            total_len(ls) <= usize::MAX,
            depth <= total_len(ls.take(i as int)),
            place == read_run(ls.take(i as int)).place,
            depth == read_run(ls.take(i as int)).depth,
            found is None == closing_line(ls, i as int) is None,
            found is Some ==> {
                &&& closing_line(ls, i as int) == Some(found->Some_0.0 as int)
                &&& found->Some_0.0 < ls.len()
                &&& read_run(ls.take(found->Some_0.0 + 1)).end == Some(found->Some_0.1 as int)
                &&& found->Some_0.1 <= ls[found->Some_0.0 as int].len()
            },
        decreases lines.len() - i,
    {
        let cs = to_chars(lines[i].as_str());
        proof {
            assert(ls.take(i + 1).drop_last() =~= ls.take(i as int));
            assert(ls.take(i + 1).last() == cs@);
            lemma_total_len_take(ls, i + 1);
        }
        let (p, d, end) = read_line(&cs, place, depth);
        place = p;
        depth = d;
        if let Some(c) = end {
            found = Some((i, c));
        }
        i += 1;
    }
    found
}

/// Drops what stands behind the brace that closes the document and is not
/// blank.
pub fn drop_trailing_garbage(input: &str) -> (r: String)
    ensures
        r@ == unlines(without_garbage(lines_of(input@))),
{
    let lines = split_lines(input);
    let ghost ls = texts(lines@);
    proof {
        lemma_total_len_of_lines(input@);
    }
    let (k, c) = match find_end(&lines) {
        Some(x) => x,
        None => {
            return write_lines(&lines);
        },
    };
    let n: usize = lines.len();
    let mut out = String::new();
    let mut i: usize = 0;
    proof {
        assert(ls.take(0) =~= Seq::empty());
    }
    while i < k
        invariant
            i <= k < n,
            n == lines@.len(),
            ls == texts(lines@),
            out@ == unlines(ls.take(i as int)),
        decreases k - i,
    {
        proof {
            assert(ls.take(i + 1) =~= ls.take(i as int).push(ls[i as int]));
            lemma_unlines_push(ls.take(i as int), ls[i as int]);
        }
        push_line(&mut out, lines[i].as_str());
        i += 1;
    }
    let ghost head = ls.take(k as int).push(cut(ls[k as int], c as int));
    proof {
        lemma_unlines_push(ls.take(k as int), cut(ls[k as int], c as int));
    }
    let cs = to_chars(lines[k].as_str());
    let behind = slice_to_string(&cs, c, cs.len());
    proof {
        assert(cs@.subrange(c as int, cs@.len() as int) =~= cs@.skip(c as int));
        assert(cs@.subrange(0, c as int) =~= cs@.take(c as int));
    }
    if blank(behind.as_str()) {
        push_line(&mut out, lines[k].as_str());
    } else {
        push_line(&mut out, slice_to_string(&cs, 0, c).as_str());
    }
    i += 1;
    let ghost pred = |l: Seq<char>| is_blank(l);
    proof {
        assert(ls.subrange(k + 1, k + 1) =~= Seq::empty());
        reveal(Seq::filter);
        assert(head + ls.subrange(k + 1, k + 1).filter(pred) =~= head);
    }
    while i < lines.len()
        invariant
            k < i <= lines@.len(),
            ls == texts(lines@),
            pred == (|l: Seq<char>| is_blank(l)),
            out@ == unlines(head + ls.subrange(k + 1, i as int).filter(pred)),
        decreases lines.len() - i,
    {
        let line = lines[i].as_str();
        proof {
            let done = ls.subrange(k + 1, i as int);
            assert(ls.subrange(k + 1, i + 1) =~= done.push(line@));
            assert(done.push(line@).filter(pred) == if pred(line@) {
                done.filter(pred).push(line@)
            } else {
                done.filter(pred)
            }) by {
                reveal(Seq::filter);
                assert(done.push(line@).drop_last() =~= done);
            }
            lemma_unlines_push(head + done.filter(pred), line@);
            assert(head + done.filter(pred).push(line@) =~= (head + done.filter(pred)).push(line@));
        }
        if blank(line) {
            push_line(&mut out, line);
        }
        i += 1;
    }
    proof {
        assert(ls.subrange(k + 1, i as int) =~= ls.skip(k + 1));
    }
    out
}

/// The lines as a text.
fn write_lines(lines: &Vec<String>) -> (r: String)
    ensures
        r@ == unlines(texts(lines@)),
{
    let ghost ls = texts(lines@);
    let mut out = String::new();
    let mut i: usize = 0;
    proof {
        assert(ls.take(0) =~= Seq::empty());
    }
    while i < lines.len()
        invariant
            i <= lines@.len(),
            ls == texts(lines@),
            out@ == unlines(ls.take(i as int)),
        decreases lines.len() - i,
    {
        proof {
            assert(ls.take(i + 1) =~= ls.take(i as int).push(ls[i as int]));
            lemma_unlines_push(ls.take(i as int), ls[i as int]);
        }
        push_line(&mut out, lines[i].as_str());
        i += 1;
    }
    proof {
        assert(ls.take(i as int) =~= ls);
    }
    out
}

// ── All passes ───────────────────────────────────────────────────────────────

/// What the passes did.
#[derive(Debug, Clone, Copy, PartialEq, Eq, Default)]
pub struct SanitizeStats {
    pub conflict_hunks_resolved: usize,
    pub duplicate_objects_removed: usize,
    pub duplicate_list_items_removed: usize,
    pub orphan_sections_removed: usize,
    pub orphan_object_bodies_removed: usize,
    pub target_attributes_wrapper_added: bool,
}

/// The text after each of the passes.
pub open spec fn pass_text(s: Seq<char>, n: int) -> Seq<char>
    decreases n,
{
    if n <= 0 {
        s
    } else {
        let t = pass_text(s, n - 1);
        if n == 1 {
            unlines(conflicts_run(lines_of(t)).out)
        } else if n == 2 {
            unlines(decls_run(lines_of(t)).out)
        } else if n == 3 {
            unlines(lists_run(lines_of(t)).out)
        } else if n == 4 {
            without_orphans(t).0
        } else if n == 5 {
            unlines(bodies_run(lines_of(t)).out)
        } else if n == 6 {
            unlines(attributes_run(lines_of(t)).out)
        } else {
            unlines(without_garbage(lines_of(t)))
        }
    }
}

/// The sanitized text.
pub open spec fn sanitized(s: Seq<char>) -> Seq<char> {
    pass_text(s, 7)
}

/// The counts of repairing a text.
pub open spec fn is_repair(stats: SanitizeStats, s: Seq<char>) -> bool {
    &&& stats.conflict_hunks_resolved == conflicts_run(lines_of(s)).hunks
    &&& stats.duplicate_objects_removed == decls_run(lines_of(pass_text(s, 1))).removed
    &&& stats.duplicate_list_items_removed == lists_run(lines_of(pass_text(s, 2))).removed
    &&& stats.orphan_sections_removed == without_orphans(pass_text(s, 3)).1
    &&& stats.orphan_object_bodies_removed == bodies_run(lines_of(pass_text(s, 4))).removed
    &&& stats.target_attributes_wrapper_added == attributes_run(lines_of(pass_text(s, 5))).added
}

/// Fixes all known corruption patterns and returns the cleaned text plus stats.
pub fn sanitize(input: &str) -> (r: (String, SanitizeStats))
    ensures
        r.0@ == sanitized(input@),
        is_repair(r.1, input@),
{
    proof {
        reveal_with_fuel(pass_text, 8);
    }
    let (resolved, conflict_hunks_resolved) = resolve_conflicts(input);
    let (declared, duplicate_objects_removed) = dedup_object_declarations(resolved.as_str());
    let (listed, duplicate_list_items_removed) = dedup_list_items(declared.as_str());
    let (sectioned, orphan_sections_removed) = remove_orphan_sections(listed.as_str());
    let (bodied, orphan_object_bodies_removed) = remove_orphan_object_bodies(sectioned.as_str());
    let (wrapped, target_attributes_wrapper_added) = ensure_pbxproject_target_attributes(
        bodied.as_str(),
    );
    let out = drop_trailing_garbage(wrapped.as_str());
    (
        out,
        SanitizeStats {
            conflict_hunks_resolved,
            duplicate_objects_removed,
            duplicate_list_items_removed,
            orphan_sections_removed,
            orphan_object_bodies_removed,
            target_attributes_wrapper_added,
        },
    )
}

} // verus!
