//! Structural sort of a pbxproj text.
//!
//! Independent sort passes are applied in sequence:
//!
//! 1. `files = ( … )` lists: entries by the file name in their comment.
//! 2. `children = ( … )` lists: names without a dot (directories) first, then
//!    the others, each alphabetically.  The children of the main group are left
//!    unsorted to keep the navigator's order.
//! 3. PBXBuildFile and PBXFileReference sections: by the name in the comment.
//! 4. XCBuildConfiguration section: by the name of the base configuration;
//!    entries without one by their own name.
//! 5. PBXVariantGroup section: by name.
//! 6. XCConfigurationList section: by the quoted target name in the comment.
//! 7. PBXNativeTarget, PBXAggregateTarget and PBXGroup sections: by name.
//! 8. PBXTargetDependency section: by the name in the `target` field.
//! 9. XCRemoteSwiftPackageReference and XCSwiftPackageProductDependency
//!    sections: by name.
//!
//! Duplicate entries within any list or section are silently dropped.

use crate::order::{items, keyed, sort_by, sort_entries, Entry};
use crate::pattern::{
    base_name, comment_name, compile, decl_uuid, entry_uuid, files_name, first_group, is_match,
    item_uuid, line_section, main_group, opens_list, quoted_name, target_field, word_section_begin,
    word_section_end, BASE_CONFIG_REF, BEGIN_LINE_SECTION, BEGIN_WORD_SECTION, CHILDREN_START,
    COMMENT_NAME, END_LINE_SECTION, END_WORD_SECTION, ENTRY_OPEN, FILES_NAME, FILES_START,
    LIST_ITEM, MAIN_GROUP, OBJECT_DECL, Pattern, QUOTED_NAME, TARGET_FIELD,
};
use crate::sorter_laws::{law_line_sections_no_longer, law_lists_no_longer, law_section_no_longer};
use crate::text::{
    blank, contains, count_indent, has_substring, indent, is_blank, join_lines, joined, lines_of,
    lowercase, opt_view, owned, same, split_lines, starts_with, texts, to_chars, to_lowercase,
    to_uppercase, trim, trimmed, uppercase,
};
use vstd::hash_set::StringHashSet;
use vstd::prelude::*;

verus! {

/// The number of bytes that a character takes.
pub open spec fn char_width(c: char) -> nat {
    if c <= '\u{7f}' {
        1
    } else if c <= '\u{7ff}' {
        2
    } else if c <= '\u{ffff}' {
        3
    } else {
        4
    }
}

/// The number of bytes of the first `n` characters of `s`.
pub open spec fn width(s: Seq<char>, n: int) -> nat
    decreases n,
{
    if n <= 0 {
        0
    } else {
        width(s, n - 1) + char_width(s[n - 1])
    }
}

/// The indentation of a line, in bytes.
pub open spec fn indent_width(s: Seq<char>) -> nat {
    width(s, indent(s) as int)
}

pub fn line_indent(line: &str) -> (n: u128)
    ensures
        n == indent_width(line@),
{
    let cs = to_chars(line);
    let end = count_indent(&cs);
    let mut n: u128 = 0;
    let mut i: usize = 0;
    while i < end
        invariant
            cs@ == line@,
            i <= end <= cs@.len(),
            n == width(line@, i as int),
            n <= 4 * i,
        decreases end - i,
    {
        let c = cs[i];
        n = n + if c <= '\u{7f}' {
            1
        } else if c <= '\u{7ff}' {
            2
        } else if c <= '\u{ffff}' {
            3
        } else {
            4
        };
        i += 1;
    }
    n
}

/// The text of a name that may be missing.
pub open spec fn or_empty(name: Option<Seq<char>>) -> Seq<char> {
    match name {
        Some(n) => n,
        None => Seq::empty(),
    }
}

fn unwrap_or_empty(name: Option<String>) -> (r: String)
    ensures
        r@ == or_empty(opt_view(name)),
{
    match name {
        Some(n) => n,
        None => String::new(),
    }
}

/// The UUID, in upper case, that a line begins with as an entry.
pub open spec fn entry_key(line: Seq<char>) -> Option<Seq<char>> {
    match item_uuid(line) {
        Some(u) => Some(uppercase(u)),
        None => None,
    }
}

/// The UUID, in upper case, of a line that is an entry of a list.
fn has_list_uuid(line: &str, item: &Pattern) -> (r: Option<String>)
    requires
        item.wf(),
        item.source() == LIST_ITEM@,
    ensures
        opt_view(r) == entry_key(line@),
{
    match first_group(item, line) {
        Some(u) => Some(to_uppercase(u.as_str())),
        None => None,
    }
}

/// Lines as a text that ends with a line feed if the input did.
pub open spec fn assemble(out: Seq<Seq<char>>, input: Seq<char>) -> Seq<char> {
    if input.len() > 0 && input.last() == '\n' {
        joined(out).push('\n')
    } else {
        joined(out)
    }
}

fn assemble_lines(out: &Vec<String>, input: &str) -> (r: String)
    ensures
        r@ == assemble(texts(out@), input@),
{
    let mut r = join_lines(out);
    let cs = to_chars(input);
    if cs.len() > 0 && cs[cs.len() - 1] == '\n' {
        r.push('\n');
    }
    r
}

/// Appends the texts of some entries.
fn push_entries(out: &mut Vec<String>, entries: Vec<Entry>)
    ensures
        texts(final(out)@) == texts(old(out)@) + items(entries@),
{
    let ghost start = texts(out@);
    let mut i: usize = 0;
    proof {
        assert(start + items(entries@).take(0) =~= start);
    }
    while i < entries.len()
        invariant
            i <= entries@.len(),
            texts(out@) == start + items(entries@).take(i as int),
        decreases entries.len() - i,
    {
        let ghost before = out@;
        out.push(owned(entries[i].item.as_str()));
        proof {
            assert(out@ =~= before.push(out@.last()));
            assert(texts(out@) =~= texts(before).push(entries@[i as int].item@));
            assert(items(entries@).take(i + 1) =~= items(entries@).take(i as int).push(
                entries@[i as int].item@,
            ));
            assert(start + items(entries@).take(i + 1) =~= (start + items(entries@).take(
                i as int,
            )).push(entries@[i as int].item@));
        }
        i += 1;
    }
    assert(items(entries@).take(i as int) =~= items(entries@));
}

/// Appends a line.
fn push_text(out: &mut Vec<String>, line: &str)
    ensures
        texts(final(out)@) == texts(old(out)@).push(line@),
{
    let ghost before = out@;
    out.push(owned(line));
    assert(out@ =~= before.push(out@.last()));
    assert(texts(out@) =~= texts(before).push(line@));
}

/// Appends an entry.
fn push_entry(entries: &mut Vec<Entry>, key: String, item: String)
    ensures
        items(final(entries)@) == items(old(entries)@).push(item@),
        forall|f: spec_fn(Seq<char>) -> Seq<char>|
            #![trigger keyed(final(entries)@, f)]
            keyed(old(entries)@, f) && key@ == f(item@) ==> keyed(final(entries)@, f),
{
    let ghost before = entries@;
    entries.push(Entry { key: to_chars(key.as_str()), item });
    assert(items(entries@) =~= items(before).push(item@));
    assert forall|f: spec_fn(Seq<char>) -> Seq<char>|
        #![trigger keyed(entries@, f)]
        keyed(before, f) && key@ == f(item@) implies keyed(entries@, f) by {
        assert forall|i: int| 0 <= i < entries@.len() implies (#[trigger] entries@[i]).key@ == f(
            entries@[i].item@,
        ) by {
            if i < before.len() {
                assert(entries@[i] == before[i]);
            }
        }
    }
}

// ── `files = (…)` and `children = (…)` ───────────────────────────────────────

/// The lists that are sorted.
#[derive(Debug, Clone, Copy, PartialEq, Eq)]
pub enum ListKind {
    Files,
    Children,
}

/// The line that opens a list of this kind.
pub open spec fn opens(kind: ListKind, line: Seq<char>) -> bool {
    match kind {
        ListKind::Files => opens_list(line, "files"@),
        ListKind::Children => opens_list(line, "children"@),
    }
}

/// The key of an entry of a list.
pub open spec fn list_key(kind: ListKind, line: Seq<char>) -> Seq<char> {
    match kind {
        ListKind::Files => match files_name(line) {
            Some(name) => lowercase(name),
            None => Seq::empty(),
        },
        ListKind::Children => {
            let name = or_empty(comment_name(line));
            if name.contains('.') {
                seq!['1'] + lowercase(name)
            } else {
                seq!['0'] + lowercase(name)
            }
        },
    }
}

/// The last line before line `i` that is not blank holds the UUID `main`.
pub open spec fn follows_uuid(lines: Seq<Seq<char>>, i: int, main: Seq<char>) -> bool
    decreases i,
{
    if i <= 0 {
        false
    } else if is_blank(lines[i - 1]) {
        follows_uuid(lines, i - 1, main)
    } else {
        has_substring(uppercase(lines[i - 1]), main)
    }
}

/// The last object declared before line `i` is `main`.
pub open spec fn belongs_to(lines: Seq<Seq<char>>, i: int, main: Seq<char>) -> bool
    decreases i,
{
    if i <= 0 {
        false
    } else {
        match decl_uuid(lines[i - 1]) {
            Some(u) => uppercase(u) == main,
            None => belongs_to(lines, i - 1, main),
        }
    }
}

/// The list that line `i` opens is that of the main group, whose UUID is
/// `main`, or empty if there is none.
pub open spec fn is_main_list(
    kind: ListKind,
    main: Seq<char>,
    lines: Seq<Seq<char>>,
    i: int,
) -> bool {
    kind == ListKind::Children && main.len() > 0 && (follows_uuid(lines, i, main) || belongs_to(
        lines,
        i,
        main,
    ))
}

/// The state of sorting lists.
pub ghost struct ListState {
    pub in_list: bool,
    /// The indentation of the line that opened the list.
    pub indent: nat,
    /// The list is to be sorted.
    pub sorts: bool,
    pub seen: Set<Seq<char>>,
    /// The entries of the list so far.
    pub pending: Seq<Seq<char>>,
    pub out: Seq<Seq<char>>,
    pub sorted: nat,
    pub dropped: nat,
}

pub open spec fn list_step(
    kind: ListKind,
    main: Seq<char>,
    lines: Seq<Seq<char>>,
    st: ListState,
    i: int,
) -> ListState {
    let line = lines[i];
    let kept = ListState { out: st.out.push(line), ..st };
    let uuid = entry_key(line);
    if !st.in_list {
        if opens(kind, line) {
            ListState {
                in_list: true,
                indent: indent_width(line),
                sorts: !is_main_list(kind, main, lines, i),
                seen: Set::empty(),
                ..kept
            }
        } else {
            kept
        }
    } else if ");"@.is_prefix_of(trimmed(line)) && indent_width(line) == st.indent {
        let sorts = st.sorts && st.pending.len() > 0;
        let entries = if sorts {
            sort_by(st.pending, |l: Seq<char>| list_key(kind, l))
        } else {
            st.pending
        };
        ListState {
            in_list: false,
            pending: Seq::empty(),
            out: (st.out + entries).push(line),
            sorted: if sorts {
                st.sorted + 1
            } else {
                st.sorted
            },
            ..st
        }
    } else if uuid is Some {
        if st.seen.contains(uuid->Some_0) {
            ListState { dropped: st.dropped + 1, ..st }
        } else {
            ListState {
                seen: st.seen.insert(uuid->Some_0),
                pending: st.pending.push(line),
                ..st
            }
        }
    } else if is_blank(line) {
        st
    } else {
        kept
    }
}

pub open spec fn list_run(
    kind: ListKind,
    main: Seq<char>,
    lines: Seq<Seq<char>>,
    n: int,
) -> ListState
    decreases n,
{
    if n <= 0 {
        ListState {
            in_list: false,
            indent: 0,
            sorts: true,
            seen: Set::empty(),
            pending: Seq::empty(),
            out: Seq::empty(),
            sorted: 0,
            dropped: 0,
        }
    } else {
        list_step(kind, main, lines, list_run(kind, main, lines, n - 1), n - 1)
    }
}

/// The state after reading a whole text.
pub open spec fn list_end(kind: ListKind, main: Seq<char>, input: Seq<char>) -> ListState {
    list_run(kind, main, lines_of(input), lines_of(input).len() as int)
}

/// The text with its lists sorted; the entries of a list that is not closed
/// come last.
pub open spec fn lists_sorted(kind: ListKind, main: Seq<char>, input: Seq<char>) -> Seq<char> {
    let st = list_end(kind, main, input);
    assemble(st.out + st.pending, input)
}

/// A text after a pass, how many lists or sections the pass sorted, and how
/// many duplicates it dropped.
pub struct Sorted {
    pub text: String,
    pub sorted: usize,
    pub dropped: usize,
}

fn follows_uuid_line(lines: &Vec<String>, i: usize, main: &str) -> (r: bool)
    requires
        i <= lines@.len(),
    ensures
        r == follows_uuid(texts(lines@), i as int, main@),
{
    let mut k: usize = i;
    while k > 0 && blank(lines[k - 1].as_str())
        invariant
            k <= i <= lines@.len(),
            follows_uuid(texts(lines@), k as int, main@) == follows_uuid(
                texts(lines@),
                i as int,
                main@,
            ),
        decreases k,
    {
        k -= 1;
    }
    k > 0 && contains(to_uppercase(lines[k - 1].as_str()).as_str(), main)
}

fn belongs_to_uuid(lines: &Vec<String>, i: usize, main: &str, decl: &Pattern) -> (r: bool)
    requires
        i <= lines@.len(),
        decl.wf(),
        decl.source() == OBJECT_DECL@,
    ensures
        r == belongs_to(texts(lines@), i as int, main@),
{
    let mut k: usize = i;
    while k > 0
        invariant
            k <= i <= lines@.len(),
            decl.wf(),
            decl.source() == OBJECT_DECL@,
            belongs_to(texts(lines@), k as int, main@) == belongs_to(
                texts(lines@),
                i as int,
                main@,
            ),
        decreases k,
    {
        if let Some(u) = first_group(decl, lines[k - 1].as_str()) {
            return same(to_uppercase(u.as_str()).as_str(), main);
        }
        k -= 1;
    }
    false
}

/// Whether a text holds a character.
fn has_char(s: &str, c: char) -> (r: bool)
    ensures
        r == s@.contains(c),
{
    let cs = to_chars(s);
    let mut i: usize = 0;
    while i < cs.len()
        invariant
            cs@ == s@,
            i <= cs@.len(),
            forall|k: int| 0 <= k < i ==> cs@[k] != c,
        decreases cs.len() - i,
    {
        if cs[i] == c {
            assert(s@[i as int] == c);
            return true;
        }
        i += 1;
    }
    false
}

/// The key of an entry of a list.
fn list_sort_key(kind: ListKind, line: &str, name: &Pattern) -> (key: String)
    requires
        name.wf(),
        kind == ListKind::Files ==> name.source() == FILES_NAME@,
        kind == ListKind::Children ==> name.source() == COMMENT_NAME@,
    ensures
        key@ == list_key(kind, line@),
{
    let found = first_group(name, line);
    match kind {
        ListKind::Files => match found {
            Some(n) => to_lowercase(n.as_str()),
            None => String::new(),
        },
        ListKind::Children => {
            let n = unwrap_or_empty(found);
            let mut key = String::new();
            if has_char(n.as_str(), '.') {
                key.push('1');
            } else {
                key.push('0');
            }
            key.push_str(to_lowercase(n.as_str()).as_str());
            assert(key@ =~= list_key(kind, line@));
            key
        },
    }
}

/// Sorts the lists of one kind.
///
/// Duplicate entries of a list are dropped; lines of a list that are no entries
/// stay before the entries, but for blank ones.  The children of the main group
/// keep their order; `main` is its UUID in upper case, empty if its list is to
/// be sorted as well.
pub fn sort_list_sections(input: &str, kind: ListKind, main: &str) -> (r: Sorted)
    ensures
        r.text@ == lists_sorted(kind, main@, input@),
        r.sorted == list_end(kind, main@, input@).sorted,
        r.dropped == list_end(kind, main@, input@).dropped,
{
    let start = match kind {
        ListKind::Files => compile(FILES_START),
        ListKind::Children => compile(CHILDREN_START),
    };
    let name = match kind {
        ListKind::Files => compile(FILES_NAME),
        ListKind::Children => compile(COMMENT_NAME),
    };
    let item = compile(LIST_ITEM);
    let decl = compile(OBJECT_DECL);
    let ghost key = |l: Seq<char>| list_key(kind, l);
    let lines = split_lines(input);
    let ghost ls = texts(lines@);
    let mut out: Vec<String> = Vec::new();
    let mut pending: Vec<Entry> = Vec::new();
    let mut in_list = false;
    let mut list_indent: u128 = 0;
    let mut sorts = true;
    let mut seen = StringHashSet::new();
    let mut sorted: usize = 0;
    let mut dropped: usize = 0;
    let mut i: usize = 0;
    proof {
        assert(texts(out@) =~= Seq::empty());
        assert(items(pending@) =~= Seq::empty());
    }
    while i < lines.len()
        invariant
            i <= lines@.len(),
            ls == texts(lines@),
            key == (|l: Seq<char>| list_key(kind, l)),
            start.wf(),
            kind == ListKind::Files ==> start.source() == FILES_START@,
            kind == ListKind::Children ==> start.source() == CHILDREN_START@,
            name.wf(),
            kind == ListKind::Files ==> name.source() == FILES_NAME@,
            kind == ListKind::Children ==> name.source() == COMMENT_NAME@,
            item.wf() && item.source() == LIST_ITEM@,
            decl.wf() && decl.source() == OBJECT_DECL@,
            keyed(pending@, key),
            sorted <= i,
            dropped <= i,
            ({
                let st = list_run(kind, main@, ls, i as int);
                &&& in_list == st.in_list
                &&& list_indent == st.indent
                &&& sorts == st.sorts
                &&& seen@ == st.seen
                &&& items(pending@) == st.pending
                &&& texts(out@) == st.out
                &&& sorted == st.sorted
                &&& dropped == st.dropped
            }),
        decreases lines.len() - i,
    {
        let line = lines[i].as_str();
        let ghost st = list_run(kind, main@, ls, i as int);
        assert(ls[i as int] == line@);
        if !in_list {
            if is_match(&start, line) {
                in_list = true;
                list_indent = line_indent(line);
                let is_main = match kind {
                    ListKind::Files => false,
                    ListKind::Children => !main.is_empty() && (follows_uuid_line(&lines, i, main)
                        || belongs_to_uuid(&lines, i, main, &decl)),
                };
                sorts = !is_main;
                seen.clear();
            }
            push_text(&mut out, line);
        } else if starts_with(trim(line).as_str(), ");") && line_indent(line) == list_indent {
            let batch = pending;
            pending = Vec::new();
            if sorts && batch.len() > 0 {
                let ordered = sort_entries(batch, Ghost(key));
                push_entries(&mut out, ordered);
                sorted += 1;
            } else {
                push_entries(&mut out, batch);
            }
            in_list = false;
            push_text(&mut out, line);
            assert(items(pending@) =~= Seq::empty());
        } else {
            match has_list_uuid(line, &item) {
                Some(uuid) => {
                    if seen.contains(uuid.as_str()) {
                        dropped += 1;
                    } else {
                        seen.insert(uuid);
                        let k = list_sort_key(kind, line, &name);
                        push_entry(&mut pending, k, owned(line));
                    }
                },
                None => {
                    if !blank(line) {
                        push_text(&mut out, line);
                    }
                },
            }
        }
        i += 1;
    }
    push_entries(&mut out, pending);
    Sorted { text: assemble_lines(&out, input), sorted, dropped }
}

// ── PBXBuildFile and PBXFileReference ────────────────────────────────────────

/// The key of an entry by the name in its comment.
pub open spec fn comment_key(line: Seq<char>) -> Seq<char> {
    match comment_name(line) {
        Some(name) => lowercase(name),
        None => Seq::empty(),
    }
}

fn comment_sort_key(line: &str, name: &Pattern) -> (key: String)
    requires
        name.wf(),
        name.source() == COMMENT_NAME@,
    ensures
        key@ == comment_key(line@),
{
    match first_group(name, line) {
        Some(n) => to_lowercase(n.as_str()),
        None => String::new(),
    }
}

/// The state of sorting sections with one entry per line.
pub ghost struct LineState {
    pub section: Option<Seq<char>>,
    pub seen: Set<Seq<char>>,
    pub pending: Seq<Seq<char>>,
    pub out: Seq<Seq<char>>,
    pub sorted: nat,
    pub dropped: nat,
}

pub open spec fn line_step(st: LineState, line: Seq<char>) -> LineState {
    let kept = LineState { out: st.out.push(line), ..st };
    let begun = line_section(line, "/* Begin "@);
    let ended = line_section(line, "/* End "@);
    let uuid = entry_key(line);
    if st.section is None {
        if begun is Some {
            LineState { section: begun, seen: Set::empty(), ..kept }
        } else {
            kept
        }
    } else if ended == st.section {
        LineState {
            section: None,
            pending: Seq::empty(),
            out: (st.out + sort_by(st.pending, |l: Seq<char>| comment_key(l))).push(line),
            sorted: if st.pending.len() > 0 {
                st.sorted + 1
            } else {
                st.sorted
            },
            ..st
        }
    } else if uuid is Some {
        if st.seen.contains(uuid->Some_0) {
            LineState { dropped: st.dropped + 1, ..st }
        } else {
            LineState {
                seen: st.seen.insert(uuid->Some_0),
                pending: st.pending.push(line),
                ..st
            }
        }
    } else if is_blank(line) {
        st
    } else {
        kept
    }
}

pub open spec fn line_run(lines: Seq<Seq<char>>, n: int) -> LineState
    decreases n,
{
    if n <= 0 {
        LineState {
            section: None,
            seen: Set::empty(),
            pending: Seq::empty(),
            out: Seq::empty(),
            sorted: 0,
            dropped: 0,
        }
    } else {
        line_step(line_run(lines, n - 1), lines[n - 1])
    }
}

pub open spec fn line_end(input: Seq<char>) -> LineState {
    line_run(lines_of(input), lines_of(input).len() as int)
}

/// The text with its sections of one entry per line sorted.
pub open spec fn line_sections_sorted(input: Seq<char>) -> Seq<char> {
    let st = line_end(input);
    assemble(st.out + st.pending, input)
}

/// Sorts the PBXBuildFile and PBXFileReference sections by the names in the
/// comments of their entries, and drops duplicates.
pub fn sort_pbx_sections(input: &str) -> (r: Sorted)
    ensures
        r.text@ == line_sections_sorted(input@),
        r.sorted == line_end(input@).sorted,
        r.dropped == line_end(input@).dropped,
{
    let begin = compile(BEGIN_LINE_SECTION);
    let end = compile(END_LINE_SECTION);
    let name = compile(COMMENT_NAME);
    let item = compile(LIST_ITEM);
    let ghost key = |l: Seq<char>| comment_key(l);
    let lines = split_lines(input);
    let ghost ls = texts(lines@);
    let mut out: Vec<String> = Vec::new();
    let mut pending: Vec<Entry> = Vec::new();
    let mut section: Option<String> = None;
    let mut seen = StringHashSet::new();
    let mut sorted: usize = 0;
    let mut dropped: usize = 0;
    let mut i: usize = 0;
    proof {
        assert(texts(out@) =~= Seq::empty());
        assert(items(pending@) =~= Seq::empty());
    }
    while i < lines.len()
        invariant
            i <= lines@.len(),
            ls == texts(lines@),
            key == (|l: Seq<char>| comment_key(l)),
            begin.wf() && begin.source() == BEGIN_LINE_SECTION@,
            end.wf() && end.source() == END_LINE_SECTION@,
            name.wf() && name.source() == COMMENT_NAME@,
            item.wf() && item.source() == LIST_ITEM@,
            keyed(pending@, key),
            sorted <= i,
            dropped <= i,
            ({
                let st = line_run(ls, i as int);
                &&& opt_view(section) == st.section
                &&& seen@ == st.seen
                &&& items(pending@) == st.pending
                &&& texts(out@) == st.out
                &&& sorted == st.sorted
                &&& dropped == st.dropped
            }),
        decreases lines.len() - i,
    {
        let line = lines[i].as_str();
        let ghost st = line_run(ls, i as int);
        assert(ls[i as int] == line@);
        let current: Option<String> = match &section {
            Some(s) => Some(owned(s.as_str())),
            None => None,
        };
        match current {
            None => {
                if let Some(found) = first_group(&begin, line) {
                    section = Some(found);
                    seen.clear();
                }
                push_text(&mut out, line);
            },
            Some(now) => {
                let closes = match first_group(&end, line) {
                    Some(found) => same(found.as_str(), now.as_str()),
                    None => false,
                };
                if closes {
                    let batch = pending;
                    pending = Vec::new();
                    if batch.len() > 0 {
                        let ordered = sort_entries(batch, Ghost(key));
                        push_entries(&mut out, ordered);
                        sorted += 1;
                    } else {
                        assert(st.out + sort_by(st.pending, key) =~= st.out);
                    }
                    section = None;
                    push_text(&mut out, line);
                    assert(items(pending@) =~= Seq::empty());
                } else {
                    match has_list_uuid(line, &item) {
                        Some(uuid) => {
                            if seen.contains(uuid.as_str()) {
                                dropped += 1;
                            } else {
                                seen.insert(uuid);
                                let k = comment_sort_key(line, &name);
                                push_entry(&mut pending, k, owned(line));
                            }
                        },
                        None => {
                            if !blank(line) {
                                push_text(&mut out, line);
                            }
                        },
                    }
                }
            },
        }
        i += 1;
    }
    push_entries(&mut out, pending);
    Sorted { text: assemble_lines(&out, input), sorted, dropped }
}

// ── Sections whose entries span several lines ────────────────────────────────

/// What the entries of a section are sorted by.
#[derive(Debug, Clone, Copy, PartialEq, Eq)]
pub enum SectionKey {
    /// The name in the comment of the opening line.
    Comment,
    /// The name of the base configuration, or else as `Comment`.
    BaseConfiguration,
    /// The quoted name in the opening line.
    Quoted,
    /// The name in the `target` field.
    Target,
}

/// The first line of a text, empty if the text is.
pub open spec fn first_line(text: Seq<char>) -> Seq<char> {
    if lines_of(text).len() > 0 {
        lines_of(text)[0]
    } else {
        Seq::empty()
    }
}

/// The name in the first `target` field, from line `i` on.
pub open spec fn target_name(lines: Seq<Seq<char>>, i: int) -> Option<Seq<char>>
    decreases lines.len() - i,
{
    if i < 0 || i >= lines.len() {
        None
    } else if target_field(lines[i]) is Some {
        target_field(lines[i])
    } else {
        target_name(lines, i + 1)
    }
}

/// The key of an entry; `base` is the name of its base configuration and
/// `target` that in its `target` field, as far as it has them.
pub open spec fn key_of_entry(
    by: SectionKey,
    entry: Seq<char>,
    base: Option<Seq<char>>,
    target: Option<Seq<char>>,
) -> Seq<char> {
    let comment = comment_key(first_line(entry));
    match by {
        SectionKey::Comment => comment,
        SectionKey::BaseConfiguration => match base {
            Some(name) => lowercase(trimmed(name)),
            None => comment,
        },
        SectionKey::Quoted => match quoted_name(first_line(entry)) {
            Some(name) => lowercase(name),
            None => Seq::empty(),
        },
        SectionKey::Target => match target {
            Some(name) => lowercase(trimmed(name)),
            None => Seq::empty(),
        },
    }
}

/// The key of an entry.
pub open spec fn section_key(by: SectionKey, entry: Seq<char>) -> Seq<char> {
    key_of_entry(
        by,
        entry,
        base_name(entry),
        target_name(lines_of(entry), 0),
    )
}

/// The key of an entry, whose base configuration and target have been found.
pub fn entry_sort_key(
    by: SectionKey,
    entry: &str,
    base: Option<String>,
    target: Option<String>,
) -> (key: String)
    ensures
        key@ == key_of_entry(by, entry@, opt_view(base), opt_view(target)),
{
    let lines = split_lines(entry);
    let empty = String::new();
    let first = if lines.len() > 0 { lines[0].as_str() } else { empty.as_str() };
    proof {
        assert(first@ =~= first_line(entry@));
    }
    match by {
        SectionKey::Comment => comment_sort_key(first, &compile(COMMENT_NAME)),
        SectionKey::BaseConfiguration => match base {
            Some(name) => to_lowercase(trim(name.as_str()).as_str()),
            None => comment_sort_key(first, &compile(COMMENT_NAME)),
        },
        SectionKey::Quoted => match first_group(&compile(QUOTED_NAME), first) {
            Some(name) => to_lowercase(name.as_str()),
            None => String::new(),
        },
        SectionKey::Target => match target {
            Some(name) => to_lowercase(trim(name.as_str()).as_str()),
            None => String::new(),
        },
    }
}

/// The key of an entry.
fn section_sort_key(by: SectionKey, entry: &str) -> (key: String)
    ensures
        key@ == section_key(by, entry@),
{
    let mut base: Option<String> = None;
    let mut target: Option<String> = None;
    match by {
        SectionKey::BaseConfiguration => {
            base = first_group(&compile(BASE_CONFIG_REF), entry);
        },
        SectionKey::Target => {
            let field = compile(TARGET_FIELD);
            let lines = split_lines(entry);
            let mut i: usize = 0;
            while i < lines.len() && target.is_none()
                invariant
                    i <= lines@.len(),
                    texts(lines@) == lines_of(entry@),
                    field.wf() && field.source() == TARGET_FIELD@,
                    target is None ==> target_name(lines_of(entry@), 0) == target_name(
                        lines_of(entry@),
                        i as int,
                    ),
                    target is Some ==> target_name(lines_of(entry@), 0) == opt_view(target),
                decreases lines.len() - i,
            {
                assert(lines_of(entry@)[i as int] == lines@[i as int]@);
                target = first_group(&field, lines[i].as_str());
                i += 1;
            }
        },
        _ => {},
    }
    entry_sort_key(by, entry, base, target)
}

/// The state of sorting a section.
pub ghost struct SectionState {
    pub in_section: bool,
    pub in_entry: bool,
    /// The entry being read has a UUID that the section has already.
    pub duplicate: bool,
    pub seen: Set<Seq<char>>,
    /// Lines of the section outside its entries.
    pub prefix: Seq<Seq<char>>,
    /// The entries, each with its lines joined.
    pub entries: Seq<Seq<char>>,
    /// The lines of the entry being read.
    pub current: Seq<Seq<char>>,
    pub out: Seq<Seq<char>>,
    pub sorted: nat,
    pub dropped: nat,
}

/// The entry being read is complete.
pub open spec fn close_entry(st: SectionState) -> SectionState {
    if st.current.len() == 0 {
        SectionState { in_entry: false, duplicate: false, ..st }
    } else if st.duplicate {
        SectionState {
            in_entry: false,
            duplicate: false,
            current: Seq::empty(),
            dropped: st.dropped + 1,
            ..st
        }
    } else {
        SectionState {
            in_entry: false,
            duplicate: false,
            current: Seq::empty(),
            entries: st.entries.push(joined(st.current)),
            ..st
        }
    }
}

pub open spec fn section_step(
    name: Seq<char>,
    by: SectionKey,
    st: SectionState,
    line: Seq<char>,
) -> SectionState {
    if !st.in_section {
        let begins = word_section_begin(line) == Some(name);
        SectionState {
            in_section: begins,
            seen: Set::empty(),
            out: st.out.push(line),
            ..st
        }
    } else if word_section_end(line) == Some(name) {
        let done = close_entry(st);
        SectionState {
            in_section: false,
            prefix: Seq::empty(),
            entries: Seq::empty(),
            out: (st.out + st.prefix + sort_by(
                done.entries,
                |e: Seq<char>| section_key(by, e),
            )).push(line),
            sorted: if done.entries.len() > 0 {
                st.sorted + 1
            } else {
                st.sorted
            },
            ..done
        }
    } else if st.in_entry {
        let more = SectionState { current: st.current.push(line), ..st };
        if line == "\t\t};"@ {
            close_entry(more)
        } else {
            more
        }
    } else if entry_uuid(line) is Some {
        let uuid = uppercase(entry_uuid(line)->Some_0);
        SectionState {
            in_entry: true,
            duplicate: st.seen.contains(uuid),
            seen: st.seen.insert(uuid),
            current: st.current.push(line),
            ..st
        }
    } else {
        SectionState { prefix: st.prefix.push(line), ..st }
    }
}

pub open spec fn section_run(
    name: Seq<char>,
    by: SectionKey,
    lines: Seq<Seq<char>>,
    n: int,
) -> SectionState
    decreases n,
{
    if n <= 0 {
        SectionState {
            in_section: false,
            in_entry: false,
            duplicate: false,
            seen: Set::empty(),
            prefix: Seq::empty(),
            entries: Seq::empty(),
            current: Seq::empty(),
            out: Seq::empty(),
            sorted: 0,
            dropped: 0,
        }
    } else {
        section_step(name, by, section_run(name, by, lines, n - 1), lines[n - 1])
    }
}

pub open spec fn section_state(name: Seq<char>, by: SectionKey, input: Seq<char>) -> SectionState {
    section_run(name, by, lines_of(input), lines_of(input).len() as int)
}

/// The text with the entries of a section sorted; what has been read of a
/// section that is not closed comes last.
pub open spec fn section_sorted(name: Seq<char>, by: SectionKey, input: Seq<char>) -> Seq<char> {
    let st = section_state(name, by, input);
    assemble(st.out + st.prefix + st.entries + st.current, input)
}

/// Appends lines.
fn push_texts(out: &mut Vec<String>, more: &Vec<String>)
    ensures
        texts(final(out)@) == texts(old(out)@) + texts(more@),
{
    let ghost start = texts(out@);
    let mut i: usize = 0;
    proof {
        assert(start + texts(more@).take(0) =~= start);
    }
    while i < more.len()
        invariant
            i <= more@.len(),
            texts(out@) == start + texts(more@).take(i as int),
        decreases more.len() - i,
    {
        push_text(out, more[i].as_str());
        proof {
            assert(texts(more@).take(i + 1) =~= texts(more@).take(i as int).push(
                more@[i as int]@,
            ));
            assert(start + texts(more@).take(i + 1) =~= (start + texts(more@).take(
                i as int,
            )).push(more@[i as int]@));
        }
        i += 1;
    }
    assert(texts(more@).take(i as int) =~= texts(more@));
}

/// Sorts the entries of the section `name`, each of which opens with
/// `\t\tUUID … = {` and closes with `\t\t};`, and drops duplicates.
///
/// Lines of the section outside its entries come before them.
pub fn sort_multiline_pbx_section(input: &str, name: &str, by: SectionKey) -> (r: Sorted)
    ensures
        r.text@ == section_sorted(name@, by, input@),
        r.sorted == section_state(name@, by, input@).sorted,
        r.dropped == section_state(name@, by, input@).dropped,
{
    let begin = compile(BEGIN_WORD_SECTION);
    let end = compile(END_WORD_SECTION);
    let open = compile(ENTRY_OPEN);
    let ghost key = |e: Seq<char>| section_key(by, e);
    let lines = split_lines(input);
    let ghost ls = texts(lines@);
    let mut out: Vec<String> = Vec::new();
    let mut prefix: Vec<String> = Vec::new();
    let mut entries: Vec<Entry> = Vec::new();
    let mut current: Vec<String> = Vec::new();
    let mut seen = StringHashSet::new();
    let mut in_section = false;
    let mut in_entry = false;
    let mut duplicate = false;
    let mut sorted: usize = 0;
    let mut dropped: usize = 0;
    let mut i: usize = 0;
    proof {
        assert(texts(out@) =~= Seq::empty());
        assert(items(entries@) =~= Seq::empty());
    }
    while i < lines.len()
        invariant
            i <= lines@.len(),
            ls == texts(lines@),
            key == (|e: Seq<char>| section_key(by, e)),
            begin.wf() && begin.source() == BEGIN_WORD_SECTION@,
            end.wf() && end.source() == END_WORD_SECTION@,
            open.wf() && open.source() == ENTRY_OPEN@,
            keyed(entries@, key),
            sorted <= i,
            dropped <= i,
            ({
                let st = section_run(name@, by, ls, i as int);
                &&& in_section == st.in_section
                &&& in_entry == st.in_entry
                &&& duplicate == st.duplicate
                &&& seen@ == st.seen
                &&& texts(prefix@) == st.prefix
                &&& items(entries@) == st.entries
                &&& texts(current@) == st.current
                &&& texts(out@) == st.out
                &&& sorted == st.sorted
                &&& dropped == st.dropped
            }),
        decreases lines.len() - i,
    {
        let line = lines[i].as_str();
        let ghost st = section_run(name@, by, ls, i as int);
        assert(ls[i as int] == line@);
        i += 1;
        if !in_section {
            in_section = match first_group(&begin, line) {
                Some(found) => same(found.as_str(), name),
                None => false,
            };
            seen.clear();
            push_text(&mut out, line);
            continue;
        }
        let closes_section = match first_group(&end, line) {
            Some(found) => same(found.as_str(), name),
            None => false,
        };
        let ghost mut reading = st;
        if !closes_section {
            if !in_entry {
                match first_group(&open, line) {
                    Some(found) => {
                        let uuid = to_uppercase(found.as_str());
                        duplicate = seen.contains(uuid.as_str());
                        seen.insert(uuid);
                        in_entry = true;
                        push_text(&mut current, line);
                    },
                    None => {
                        push_text(&mut prefix, line);
                    },
                }
                continue;
            }
            push_text(&mut current, line);
            if !same(line, "\t\t};") {
                continue;
            }
            proof {
                reading = SectionState { current: st.current.push(line@), ..st };
            }
        }
        // The entry being read is complete.
        if current.len() > 0 {
            if duplicate {
                dropped += 1;
            } else {
                let text = join_lines(&current);
                let k = section_sort_key(by, text.as_str());
                push_entry(&mut entries, k, text);
            }
            current = Vec::new();
        }
        in_entry = false;
        duplicate = false;
        proof {
            let done = close_entry(reading);
            assert(texts(current@) =~= done.current);
            assert(items(entries@) == done.entries);
        }
        if closes_section {
            push_texts(&mut out, &prefix);
            prefix = Vec::new();
            let batch = entries;
            entries = Vec::new();
            if batch.len() > 0 {
                sorted += 1;
            }
            let ordered = sort_entries(batch, Ghost(key));
            push_entries(&mut out, ordered);
            in_section = false;
            push_text(&mut out, line);
            assert(texts(prefix@) =~= Seq::empty());
            assert(items(entries@) =~= Seq::empty());
        }
    }
    push_texts(&mut out, &prefix);
    push_entries(&mut out, entries);
    push_texts(&mut out, &current);
    Sorted { text: assemble_lines(&out, input), sorted, dropped }
}

// ── All passes ───────────────────────────────────────────────────────────────

/// What the passes did.
#[derive(Debug, Clone, Copy, PartialEq, Eq, Default)]
pub struct SortStats {
    pub files_lists_sorted: usize,
    pub children_lists_sorted: usize,
    pub pbx_sections_sorted: usize,
    pub duplicate_entries_removed: usize,
    pub xc_build_configs_sorted: usize,
    pub pbx_variant_groups_sorted: usize,
    pub xc_config_lists_sorted: usize,
    pub pbx_native_targets_sorted: usize,
    pub pbx_aggregate_targets_sorted: usize,
    pub pbx_groups_sorted: usize,
    pub pbx_target_dependencies_sorted: usize,
    pub xc_remote_package_refs_sorted: usize,
    pub xc_package_product_deps_sorted: usize,
}

/// The section that pass `n` sorts, and what it is sorted by.
pub open spec fn section_of_pass(n: int) -> (Seq<char>, SectionKey) {
    if n == 4 {
        ("XCBuildConfiguration"@, SectionKey::BaseConfiguration)
    } else if n == 5 {
        ("PBXVariantGroup"@, SectionKey::Comment)
    } else if n == 6 {
        ("XCConfigurationList"@, SectionKey::Quoted)
    } else if n == 7 {
        ("PBXNativeTarget"@, SectionKey::Comment)
    } else if n == 8 {
        ("PBXAggregateTarget"@, SectionKey::Comment)
    } else if n == 9 {
        ("PBXGroup"@, SectionKey::Comment)
    } else if n == 10 {
        ("PBXTargetDependency"@, SectionKey::Target)
    } else if n == 11 {
        ("XCRemoteSwiftPackageReference"@, SectionKey::Comment)
    } else {
        ("XCSwiftPackageProductDependency"@, SectionKey::Comment)
    }
}

/// What pass `n` makes of a text: the new text, the number of lists or sections
/// sorted and the number of duplicates dropped.
pub open spec fn sort_pass(main: Seq<char>, t: Seq<char>, n: int) -> (Seq<char>, nat, nat) {
    if n == 1 {
        let st = list_end(ListKind::Files, Seq::empty(), t);
        (lists_sorted(ListKind::Files, Seq::empty(), t), st.sorted, st.dropped)
    } else if n == 2 {
        let st = list_end(ListKind::Children, main, t);
        (lists_sorted(ListKind::Children, main, t), st.sorted, st.dropped)
    } else if n == 3 {
        (line_sections_sorted(t), line_end(t).sorted, line_end(t).dropped)
    } else {
        let (name, by) = section_of_pass(n);
        let st = section_state(name, by, t);
        (section_sorted(name, by, t), st.sorted, st.dropped)
    }
}

/// The text after `n` passes.
pub open spec fn sort_text(main: Seq<char>, s: Seq<char>, n: int) -> Seq<char>
    decreases n,
{
    if n <= 0 {
        s
    } else {
        sort_pass(main, sort_text(main, s, n - 1), n).0
    }
}

/// How many lists or sections pass `n` sorts.
pub open spec fn sorted_in_pass(main: Seq<char>, s: Seq<char>, n: int) -> nat {
    sort_pass(main, sort_text(main, s, n - 1), n).1
}

/// How many duplicates the first `n` passes drop.
pub open spec fn dropped_until(main: Seq<char>, s: Seq<char>, n: int) -> nat
    decreases n,
{
    if n <= 0 {
        0
    } else {
        dropped_until(main, s, n - 1) + sort_pass(main, sort_text(main, s, n - 1), n).2
    }
}

/// The UUID, in upper case, of the main group whose children keep their order;
/// empty if there is none or if its children are to be sorted as well.
pub open spec fn unsorted_group(s: Seq<char>, sort_main_group: bool) -> Seq<char> {
    if sort_main_group {
        Seq::empty()
    } else {
        match main_group(s) {
            Some(u) => uppercase(u),
            None => Seq::empty(),
        }
    }
}

/// The sorted text.
pub open spec fn sorted_text(s: Seq<char>, sort_main_group: bool) -> Seq<char> {
    sort_text(unsorted_group(s, sort_main_group), s, 12)
}

/// The passes together make a text no longer, and shorter by a character at
/// least for each duplicate that is dropped.
pub proof fn law_sort_no_longer(main: Seq<char>, s: Seq<char>, n: int)
    requires
        0 <= n <= 12,
    ensures
        sort_text(main, s, n).len() + dropped_until(main, s, n) <= s.len(),
    decreases n,
{
    if n > 0 {
        law_sort_no_longer(main, s, n - 1);
        let t = sort_text(main, s, n - 1);
        law_lists_no_longer(ListKind::Files, Seq::empty(), t);
        law_lists_no_longer(ListKind::Children, main, t);
        law_line_sections_no_longer(t);
        law_section_no_longer(section_of_pass(n).0, section_of_pass(n).1, t);
    }
}

/// The UUID of the main group, from the project's `mainGroup` field.
pub fn extract_main_group_uuid(text: &str) -> (r: Option<String>)
    ensures
        opt_view(r) == main_group(text@),
{
    first_group(&compile(MAIN_GROUP), text)
}

/// Sorts a pbxproj text.  The children of the main group keep their order.
pub fn sort(input: &str) -> (r: (String, SortStats))
    ensures
        r.0@ == sorted_text(input@, false),
        sort_stats_of(r.1, unsorted_group(input@, false), input@),
{
    sort_with(input, false)
}

/// The numbers of `stats` are those of sorting `s`.
pub open spec fn sort_stats_of(stats: SortStats, main: Seq<char>, s: Seq<char>) -> bool {
    &&& stats.files_lists_sorted == sorted_in_pass(main, s, 1)
    &&& stats.children_lists_sorted == sorted_in_pass(main, s, 2)
    &&& stats.pbx_sections_sorted == sorted_in_pass(main, s, 3)
    &&& stats.xc_build_configs_sorted == sorted_in_pass(main, s, 4)
    &&& stats.pbx_variant_groups_sorted == sorted_in_pass(main, s, 5)
    &&& stats.xc_config_lists_sorted == sorted_in_pass(main, s, 6)
    &&& stats.pbx_native_targets_sorted == sorted_in_pass(main, s, 7)
    &&& stats.pbx_aggregate_targets_sorted == sorted_in_pass(main, s, 8)
    &&& stats.pbx_groups_sorted == sorted_in_pass(main, s, 9)
    &&& stats.pbx_target_dependencies_sorted == sorted_in_pass(main, s, 10)
    &&& stats.xc_remote_package_refs_sorted == sorted_in_pass(main, s, 11)
    &&& stats.xc_package_product_deps_sorted == sorted_in_pass(main, s, 12)
    &&& stats.duplicate_entries_removed == dropped_until(main, s, 12)
}

/// Sorts a pbxproj text, with the children of the main group if asked.
pub fn sort_with(input: &str, sort_main_group: bool) -> (r: (String, SortStats))
    ensures
        r.0@ == sorted_text(input@, sort_main_group),
        sort_stats_of(r.1, unsorted_group(input@, sort_main_group), input@),
{
    let main: String = if sort_main_group {
        String::new()
    } else {
        match extract_main_group_uuid(input) {
            Some(u) => to_uppercase(u.as_str()),
            None => String::new(),
        }
    };
    // The text fits in memory, and so the number of duplicates in it does.
    let _length: usize = to_chars(input).len();
    let ghost m = main@;
    let ghost s = input@;
    let no_group = String::new();
    proof {
        law_sort_no_longer(m, s, 1);
        law_sort_no_longer(m, s, 2);
        law_sort_no_longer(m, s, 3);
        law_sort_no_longer(m, s, 4);
        law_sort_no_longer(m, s, 5);
        law_sort_no_longer(m, s, 6);
        law_sort_no_longer(m, s, 7);
        law_sort_no_longer(m, s, 8);
        law_sort_no_longer(m, s, 9);
        law_sort_no_longer(m, s, 10);
        law_sort_no_longer(m, s, 11);
        law_sort_no_longer(m, s, 12);
    }
    let p1 = sort_list_sections(input, ListKind::Files, no_group.as_str());
    assert(p1.text@ == sort_text(m, s, 1));
    let p2 = sort_list_sections(p1.text.as_str(), ListKind::Children, main.as_str());
    assert(p2.text@ == sort_text(m, s, 2));
    let p3 = sort_pbx_sections(p2.text.as_str());
    assert(p3.text@ == sort_text(m, s, 3));
    let p4 = sort_multiline_pbx_section(
        p3.text.as_str(),
        "XCBuildConfiguration",
        SectionKey::BaseConfiguration,
    );
    assert(p4.text@ == sort_text(m, s, 4));
    let p5 = sort_multiline_pbx_section(p4.text.as_str(), "PBXVariantGroup", SectionKey::Comment);
    assert(p5.text@ == sort_text(m, s, 5));
    let p6 = sort_multiline_pbx_section(
        p5.text.as_str(),
        "XCConfigurationList",
        SectionKey::Quoted,
    );
    assert(p6.text@ == sort_text(m, s, 6));
    let p7 = sort_multiline_pbx_section(p6.text.as_str(), "PBXNativeTarget", SectionKey::Comment);
    assert(p7.text@ == sort_text(m, s, 7));
    let p8 = sort_multiline_pbx_section(
        p7.text.as_str(),
        "PBXAggregateTarget",
        SectionKey::Comment,
    );
    assert(p8.text@ == sort_text(m, s, 8));
    let p9 = sort_multiline_pbx_section(p8.text.as_str(), "PBXGroup", SectionKey::Comment);
    assert(p9.text@ == sort_text(m, s, 9));
    let p10 = sort_multiline_pbx_section(
        p9.text.as_str(),
        "PBXTargetDependency",
        SectionKey::Target,
    );
    assert(p10.text@ == sort_text(m, s, 10));
    let p11 = sort_multiline_pbx_section(
        p10.text.as_str(),
        "XCRemoteSwiftPackageReference",
        SectionKey::Comment,
    );
    assert(p11.text@ == sort_text(m, s, 11));
    let p12 = sort_multiline_pbx_section(
        p11.text.as_str(),
        "XCSwiftPackageProductDependency",
        SectionKey::Comment,
    );
    assert(p12.text@ == sort_text(m, s, 12));
    let d3: usize = p1.dropped + p2.dropped + p3.dropped;
    assert(d3 == dropped_until(m, s, 3)) by {
        reveal_with_fuel(dropped_until, 4);
    }
    let d6: usize = d3 + p4.dropped + p5.dropped + p6.dropped;
    assert(d6 == dropped_until(m, s, 6)) by {
        reveal_with_fuel(dropped_until, 4);
    }
    let d9: usize = d6 + p7.dropped + p8.dropped + p9.dropped;
    assert(d9 == dropped_until(m, s, 9)) by {
        reveal_with_fuel(dropped_until, 4);
    }
    let d12: usize = d9 + p10.dropped + p11.dropped + p12.dropped;
    assert(d12 == dropped_until(m, s, 12)) by {
        reveal_with_fuel(dropped_until, 4);
    }
    (
        p12.text,
        SortStats {
            files_lists_sorted: p1.sorted,
            children_lists_sorted: p2.sorted,
            pbx_sections_sorted: p3.sorted,
            duplicate_entries_removed: d12,
            xc_build_configs_sorted: p4.sorted,
            pbx_variant_groups_sorted: p5.sorted,
            xc_config_lists_sorted: p6.sorted,
            pbx_native_targets_sorted: p7.sorted,
            pbx_aggregate_targets_sorted: p8.sorted,
            pbx_groups_sorted: p9.sorted,
            pbx_target_dependencies_sorted: p10.sorted,
            xc_remote_package_refs_sorted: p11.sorted,
            xc_package_product_deps_sorted: p12.sorted,
        },
    )
}

} // verus!
