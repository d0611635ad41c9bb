//! Regular expressions: the patterns that the passes search for, and what each
//! of them finds.
//!
//! The matching itself is done by the `regex` crate.  For the patterns whose
//! meaning can be put in a few lines the functions below say what is found;
//! for the others the result has a name and nothing more is claimed of it.

use crate::text::{indent, is_white, occurs_at, opt_view, trimmed_start};
use regex::Regex;
use vstd::prelude::*;

verus! {

/// A compiled regular expression.
#[verifier::external_type_specification]
#[verifier::external_body]
pub struct ExRegex(regex::Regex);

// ── The patterns ─────────────────────────────────────────────────────────────

/// The line that opens our side of a conflict.
pub const CONFLICT_OURS: &'static str = r"^<{7}[^\n]*$";

/// The line between the two sides of a conflict.
pub const CONFLICT_SEP: &'static str = r"^={7}$";

/// The line that closes their side of a conflict.
pub const CONFLICT_THEIRS: &'static str = r"^>{7}[^\n]*$";

/// An object declaration: `UUID = {` or `UUID /* comment */ = {`.
pub const OBJECT_DECL: &'static str =
    r"^\s+([0-9A-Fa-f]{24}|[0-9A-Fa-f]{32})\b[^,;]*=\s*\{";

/// A UUID followed by a comment or an equals sign.
pub const OBJECT_DECL_ANY: &'static str =
    r"^\s+([0-9A-Fa-f]{24}|[0-9A-Fa-f]{32})(\s+/\*|\s*=)";

/// A UUID at the start of a line, followed by white space.
pub const LIST_ITEM: &'static str = r"^\s+([0-9A-Fa-f]{24}|[0-9A-Fa-f]{32})\s";

/// A section marker with any name.
pub const BEGIN_SECTION: &'static str = r"/\* Begin (\S+) section \*/";

pub const END_SECTION: &'static str = r"/\* End (\S+) section \*/";

/// A section marker whose name is a word.
pub const BEGIN_WORD_SECTION: &'static str = r"/\* Begin (\w+) section \*/";

pub const END_WORD_SECTION: &'static str = r"/\* End (\w+) section \*/";

/// A marker of one of the two sections with one entry per line.
pub const BEGIN_LINE_SECTION: &'static str =
    r"/\* Begin (PBXBuildFile|PBXFileReference) section \*/";

pub const END_LINE_SECTION: &'static str =
    r"/\* End (PBXBuildFile|PBXFileReference) section \*/";

/// The name in a comment `/* name in Phase */`.
pub const FILES_NAME: &'static str = r"/\* (.+?) in ";

/// The name in a comment `/* name */`.
pub const COMMENT_NAME: &'static str = r"/\* (.+?) \*/";

/// The line that opens a `files` list.
pub const FILES_START: &'static str = r"^\s+files\s*=\s*\(\s*$";

/// The line that opens a `children` list.
pub const CHILDREN_START: &'static str = r"^\s+children\s*=\s*\(\s*$";

/// The opening line of an entry that spans several lines.
pub const ENTRY_OPEN: &'static str = r"^\t\t([0-9A-Fa-f]{24}|[0-9A-Fa-f]{32})\b.*=\s*\{$";

/// A base configuration reference; the name in its comment.
pub const BASE_CONFIG_REF: &'static str =
    r"baseConfigurationReference\s*=\s*[0-9A-Fa-f]+\s*/\*\s*(.+?)\s*\*/";

/// A name in double quotes.
pub const QUOTED_NAME: &'static str = "\"([^\"]+)\"";

/// A `target` field; the name in its comment.
pub const TARGET_FIELD: &'static str =
    r"^\s+target\s*=\s*[0-9A-Fa-f]+\s*/\*\s*(.+?)\s*\*/";

/// The `mainGroup` field of the project.
pub const MAIN_GROUP: &'static str =
    r"mainGroup\s*=\s*([0-9A-Fa-f]{24}|[0-9A-Fa-f]{32})\s*;";

/// A UUID that stands as a word of its own.
pub const UUID: &'static str = r"\b([0-9A-Fa-f]{32}|[0-9A-Fa-f]{24})\b";

/// A blueprint identifier of a scheme.
pub const BLUEPRINT: &'static str =
    "BlueprintIdentifier\\s*=\\s*\"([0-9A-Fa-f]{32}|[0-9A-Fa-f]{24})\"";

/// The opening tag of a buildable reference of a scheme.
pub const BUILDABLE_REF: &'static str = r"(?s)<BuildableReference\b[^>]*>";

/// An attribute of a tag.
pub const SCHEME_ATTR: &'static str = "(\\w+)\\s*=\\s*\"([^\"]*)\"";

/// The patterns of this module, each of which is a valid regular expression.
pub open spec fn is_pattern(p: Seq<char>) -> bool {
    ||| p == CONFLICT_OURS@
    ||| p == CONFLICT_SEP@
    ||| p == CONFLICT_THEIRS@
    ||| p == OBJECT_DECL@
    ||| p == OBJECT_DECL_ANY@
    ||| p == LIST_ITEM@
    ||| p == BEGIN_SECTION@
    ||| p == END_SECTION@
    ||| p == BEGIN_WORD_SECTION@
    ||| p == END_WORD_SECTION@
    ||| p == BEGIN_LINE_SECTION@
    ||| p == END_LINE_SECTION@
    ||| p == FILES_NAME@
    ||| p == COMMENT_NAME@
    ||| p == FILES_START@
    ||| p == CHILDREN_START@
    ||| p == ENTRY_OPEN@
    ||| p == BASE_CONFIG_REF@
    ||| p == QUOTED_NAME@
    ||| p == TARGET_FIELD@
    ||| p == MAIN_GROUP@
    ||| p == UUID@
    ||| p == BLUEPRINT@
    ||| p == BUILDABLE_REF@
    ||| p == SCHEME_ATTR@
}

/// The patterns whose first group takes part in every match and is asked for.
pub open spec fn has_group(p: Seq<char>) -> bool {
    ||| p == OBJECT_DECL@
    ||| p == LIST_ITEM@
    ||| p == BEGIN_SECTION@
    ||| p == END_SECTION@
    ||| p == BEGIN_WORD_SECTION@
    ||| p == END_WORD_SECTION@
    ||| p == BEGIN_LINE_SECTION@
    ||| p == END_LINE_SECTION@
    ||| p == FILES_NAME@
    ||| p == COMMENT_NAME@
    ||| p == ENTRY_OPEN@
    ||| p == BASE_CONFIG_REF@
    ||| p == QUOTED_NAME@
    ||| p == TARGET_FIELD@
    ||| p == MAIN_GROUP@
}

// ── What a pattern finds ─────────────────────────────────────────────────────

pub open spec fn is_hex(c: char) -> bool {
    ('0' <= c <= '9') || ('A' <= c <= 'F') || ('a' <= c <= 'f')
}

/// A word character.  Outside ASCII this is what the pattern `\w` matches.
pub open spec fn is_word(c: char) -> bool {
    if c <= '\u{7f}' {
        ('0' <= c <= '9') || ('A' <= c <= 'Z') || ('a' <= c <= 'z') || c == '_'
    } else {
        matches_in(r"\w"@, seq![c])
    }
}

/// `s` begins with `n` hexadecimal digits.
pub open spec fn starts_hex(s: Seq<char>, n: int) -> bool {
    n <= s.len() && forall|i: int| 0 <= i < n ==> is_hex(#[trigger] s[i])
}

/// The UUID, of 24 or 32 digits, at the start of `s`, if what follows is as
/// `after` asks.
pub open spec fn leading_uuid(s: Seq<char>, after: spec_fn(Seq<char>) -> bool) -> Option<
    Seq<char>,
> {
    if starts_hex(s, 24) && after(s.skip(24)) {
        Some(s.take(24))
    } else if starts_hex(s, 32) && after(s.skip(32)) {
        Some(s.take(32))
    } else {
        None
    }
}

/// The UUID behind the indentation of a line, which may not be empty.
pub open spec fn line_uuid(s: Seq<char>, after: spec_fn(Seq<char>) -> bool) -> Option<Seq<char>> {
    if indent(s) >= 1 {
        leading_uuid(trimmed_start(s), after)
    } else {
        None
    }
}

/// No word goes on at the start of `s`.
pub open spec fn word_ends(s: Seq<char>) -> bool {
    s.len() == 0 || !is_word(s[0])
}

/// `s` holds an equals sign, with no comma or semicolon before it, and the next
/// character behind it that is no white space is an opening brace.
pub open spec fn opens_brace(s: Seq<char>) -> bool {
    exists|p: int|
        0 <= p < s.len() && #[trigger] s[p] == '=' && (forall|q: int|
            0 <= q < p ==> s[q] != ',' && s[q] != ';') && seq!['{'].is_prefix_of(
            trimmed_start(s.skip(p + 1)),
        )
}

/// The UUID that a line declares an object for.
pub open spec fn decl_uuid(s: Seq<char>) -> Option<Seq<char>> {
    line_uuid(s, |rest: Seq<char>| word_ends(rest) && opens_brace(rest))
}

/// The UUID that a line begins with, as an item of a list.
pub open spec fn item_uuid(s: Seq<char>) -> Option<Seq<char>> {
    line_uuid(s, |rest: Seq<char>| rest.len() > 0 && is_white(rest[0]))
}

/// A line that begins with a UUID and goes on with a comment or an equals sign.
pub open spec fn is_uuid_header(s: Seq<char>) -> bool {
    line_uuid(
        s,
        |rest: Seq<char>|
            seq!['='].is_prefix_of(trimmed_start(rest)) || (indent(rest) >= 1
                && seq!['/', '*'].is_prefix_of(trimmed_start(rest))),
    ) is Some
}

/// A line made of seven characters `c` and any others, but no line feed.
pub open spec fn is_marker(s: Seq<char>, c: char) -> bool {
    &&& s.len() >= 7
    &&& forall|i: int| 0 <= i < 7 ==> s[i] == c
    &&& forall|i: int| 0 <= i < s.len() ==> s[i] != '\n'
}

/// Seven equals signs.
pub open spec fn is_separator(s: Seq<char>) -> bool {
    s.len() == 7 && forall|i: int| 0 <= i < 7 ==> s[i] == '='
}

/// An indented line `word = (`.
pub open spec fn opens_list(s: Seq<char>, word: Seq<char>) -> bool {
    let name = trimmed_start(s);
    let eq = trimmed_start(name.skip(word.len() as int));
    let paren = trimmed_start(eq.skip(1));
    &&& indent(s) >= 1
    &&& word.is_prefix_of(name)
    &&& seq!['='].is_prefix_of(eq)
    &&& seq!['('].is_prefix_of(paren)
    &&& trimmed_start(paren.skip(1)).len() == 0
}

/// The UUID of a line with two tabs, a UUID and, at its end, `= {`.
pub open spec fn entry_uuid(s: Seq<char>) -> Option<Seq<char>> {
    if seq!['\t', '\t'].is_prefix_of(s) {
        leading_uuid(
            s.skip(2),
            |rest: Seq<char>|
                word_ends(rest) && exists|p: int|
                    0 <= p < rest.len() && #[trigger] rest[p] == '=' && (forall|q: int|
                        0 <= q < p ==> rest[q] != '\n') && trimmed_start(rest.skip(p + 1))
                        =~= seq!['{'],
        )
    } else {
        None
    }
}

/// How many characters from the start of `s` on are in `class`.
pub open spec fn run_len(s: Seq<char>, class: spec_fn(char) -> bool) -> nat
    decreases s.len(),
{
    if s.len() > 0 && class(s[0]) {
        1 + run_len(s.drop_first(), class)
    } else {
        0
    }
}

/// The name that stands at position `i` between `open` and `close`: at least
/// one character of `class`.
pub open spec fn enclosed_at(
    s: Seq<char>,
    i: int,
    open: Seq<char>,
    class: spec_fn(char) -> bool,
    close: Seq<char>,
) -> Option<Seq<char>> {
    let from = i + open.len();
    let n = run_len(s.skip(from), class);
    if occurs_at(s, open, i) && n >= 1 && occurs_at(s, close, from + n) {
        Some(s.subrange(from, from + n))
    } else {
        None
    }
}

/// The first result, from position `i` on, of looking at each position.
pub open spec fn first_from(
    s: Seq<char>,
    i: int,
    at: spec_fn(int) -> Option<Seq<char>>,
) -> Option<Seq<char>>
    decreases s.len() + 1 - i,
{
    if i < 0 || i > s.len() {
        None
    } else if at(i) is Some {
        at(i)
    } else {
        first_from(s, i + 1, at)
    }
}

/// The name in the first marker `open name close` of a line.
pub open spec fn enclosed(
    s: Seq<char>,
    open: Seq<char>,
    class: spec_fn(char) -> bool,
    close: Seq<char>,
) -> Option<Seq<char>> {
    first_from(s, 0, |i: int| enclosed_at(s, i, open, class, close))
}

/// The name in a section marker: `/* Begin name section */`.
pub open spec fn section_begin(s: Seq<char>) -> Option<Seq<char>> {
    enclosed(s, "/* Begin "@, |c: char| !is_white(c), " section */"@)
}

pub open spec fn section_end(s: Seq<char>) -> Option<Seq<char>> {
    enclosed(s, "/* End "@, |c: char| !is_white(c), " section */"@)
}

pub open spec fn word_section_begin(s: Seq<char>) -> Option<Seq<char>> {
    enclosed(s, "/* Begin "@, |c: char| is_word(c), " section */"@)
}

pub open spec fn word_section_end(s: Seq<char>) -> Option<Seq<char>> {
    enclosed(s, "/* End "@, |c: char| is_word(c), " section */"@)
}

/// The name of a section with one entry per line, in its first marker.
pub open spec fn line_section(s: Seq<char>, open: Seq<char>) -> Option<Seq<char>> {
    first_from(
        s,
        0,
        |i: int|
            if occurs_at(s, open + "PBXBuildFile section */"@, i) {
                Some("PBXBuildFile"@)
            } else if occurs_at(s, open + "PBXFileReference section */"@, i) {
                Some("PBXFileReference"@)
            } else {
                None
            },
    )
}

/// How many characters, at least `n`, of the line at the start of `s` stand
/// before the first `close`.
pub open spec fn length_until(s: Seq<char>, close: Seq<char>, n: int) -> Option<int>
    decreases s.len() + 1 - n,
{
    if n < 0 || n > s.len() || (n > 0 && s[n - 1] == '\n') {
        None
    } else if occurs_at(s, close, n) {
        Some(n)
    } else {
        length_until(s, close, n + 1)
    }
}

/// The text, of at least one character and without a line feed, between the
/// first `open` for which there is one and the next `close`.
pub open spec fn between(s: Seq<char>, open: Seq<char>, close: Seq<char>) -> Option<Seq<char>> {
    first_from(
        s,
        0,
        |i: int|
            {
                let rest = s.skip(i + open.len());
                if occurs_at(s, open, i) && rest.len() > 0 && rest[0] != '\n' && length_until(
                    rest,
                    close,
                    1,
                ) is Some {
                    Some(rest.take(length_until(rest, close, 1)->Some_0))
                } else {
                    None
                }
            },
    )
}

/// The name before ` in ` in a comment.
pub open spec fn files_name(s: Seq<char>) -> Option<Seq<char>> {
    between(s, "/* "@, " in "@)
}

/// The name in a comment.
pub open spec fn comment_name(s: Seq<char>) -> Option<Seq<char>> {
    between(s, "/* "@, " */"@)
}

/// The first name in double quotes.
pub open spec fn quoted_name(s: Seq<char>) -> Option<Seq<char>> {
    enclosed(s, "\""@, |c: char| c != '"', "\""@)
}

/// The UUID in `mainGroup = UUID;` at position `i`.
pub open spec fn main_group_at(s: Seq<char>, i: int) -> Option<Seq<char>> {
    let eq = trimmed_start(s.skip(i + 9));
    if occurs_at(s, "mainGroup"@, i) && seq!['='].is_prefix_of(eq) {
        leading_uuid(
            trimmed_start(eq.skip(1)),
            |rest: Seq<char>| seq![';'].is_prefix_of(trimmed_start(rest)),
        )
    } else {
        None
    }
}

/// The UUID in the first `mainGroup = UUID;` of a text.
pub open spec fn main_group(s: Seq<char>) -> Option<Seq<char>> {
    first_from(s, 0, |i: int| main_group_at(s, i))
}

/// How many characters, at least `n`, of the line at the start of `s` stand
/// before the first end of a comment and the white space before it.
pub open spec fn length_of_remark(s: Seq<char>, n: int) -> Option<int>
    decreases s.len() + 1 - n,
{
    if n < 0 || n > s.len() || (n > 0 && s[n - 1] == '\n') {
        None
    } else if seq!['*', '/'].is_prefix_of(trimmed_start(s.skip(n))) {
        Some(n)
    } else {
        length_of_remark(s, n + 1)
    }
}

/// The text, of at least one character and without a line feed, of a comment
/// that is open at the start of `s`: behind `k` white characters, or behind as
/// many less as it takes.
pub open spec fn remark(s: Seq<char>, k: nat) -> Option<Seq<char>>
    decreases k,
{
    match length_of_remark(s.skip(k as int), 1) {
        Some(n) => Some(s.skip(k as int).take(n)),
        None => if k == 0 {
            None
        } else {
            remark(s, (k - 1) as nat)
        },
    }
}

/// The name in `= UUID /* name */`, at the start of `s` behind white space.
pub open spec fn reference_name(s: Seq<char>) -> Option<Seq<char>> {
    let eq = trimmed_start(s);
    let value = trimmed_start(eq.skip(1));
    let n = run_len(value, |c: char| is_hex(c));
    let comment = trimmed_start(value.skip(n as int));
    if seq!['='].is_prefix_of(eq) && n >= 1 && seq!['/', '*'].is_prefix_of(comment) {
        remark(comment.skip(2), indent(comment.skip(2)))
    } else {
        None
    }
}

/// The name in the first `baseConfigurationReference = UUID /* name */`.
pub open spec fn base_name(s: Seq<char>) -> Option<Seq<char>> {
    let field = "baseConfigurationReference"@;
    first_from(
        s,
        0,
        |i: int|
            if occurs_at(s, field, i) {
                reference_name(s.skip(i + field.len()))
            } else {
                None
            },
    )
}

/// The name in `target = UUID /* name */`, at the start of `s` behind white space.
pub open spec fn target_field(s: Seq<char>) -> Option<Seq<char>> {
    let rest = trimmed_start(s);
    if indent(s) > 0 && "target"@.is_prefix_of(rest) {
        reference_name(rest.skip("target"@.len() as int))
    } else {
        None
    }
}

// ── All matches in a text ────────────────────────────────────────────────────

/// A match: where it begins and ends, and what its groups captured.
pub ghost struct Hit {
    pub start: int,
    pub end: int,
    pub first: Seq<char>,
    pub second: Seq<char>,
}

/// A UUID at position `i` that is a word of its own.
pub open spec fn uuid_hit(s: Seq<char>, i: int) -> Option<Hit> {
    let rest = s.skip(i);
    if !(i == 0 || !is_word(s[i - 1])) {
        None
    } else if starts_hex(rest, 32) && word_ends(rest.skip(32)) {
        Some(Hit { start: i, end: i + 32, first: rest.take(32), second: Seq::empty() })
    } else if starts_hex(rest, 24) && word_ends(rest.skip(24)) {
        Some(Hit { start: i, end: i + 24, first: rest.take(24), second: Seq::empty() })
    } else {
        None
    }
}

/// Where the value in double quotes begins behind white space, an equals sign
/// and white space.
pub open spec fn value_start(s: Seq<char>, i: int) -> Option<int> {
    let eq = i + indent(s.skip(i));
    let quote = eq + 1 + indent(s.skip(eq + 1));
    if occurs_at(s, seq!['='], eq) && occurs_at(s, seq!['"'], quote) {
        Some(quote + 1)
    } else {
        None
    }
}

/// `BlueprintIdentifier = "UUID"` at position `i`.
pub open spec fn blueprint_hit(s: Seq<char>, i: int) -> Option<Hit> {
    let value = value_start(s, i + 19);
    if occurs_at(s, "BlueprintIdentifier"@, i) && value is Some {
        let v = value->Some_0;
        let rest = s.skip(v);
        if starts_hex(rest, 32) && occurs_at(s, seq!['"'], v + 32) {
            Some(Hit { start: i, end: v + 33, first: rest.take(32), second: Seq::empty() })
        } else if starts_hex(rest, 24) && occurs_at(s, seq!['"'], v + 24) {
            Some(Hit { start: i, end: v + 25, first: rest.take(24), second: Seq::empty() })
        } else {
            None
        }
    } else {
        None
    }
}

/// The tag `<BuildableReference …>` at position `i`.
pub open spec fn reference_hit(s: Seq<char>, i: int) -> Option<Hit> {
    let from = i + 19;
    let close = from + run_len(s.skip(from), |c: char| c != '>');
    if occurs_at(s, "<BuildableReference"@, i) && word_ends(s.skip(from)) && occurs_at(
        s,
        seq!['>'],
        close,
    ) {
        Some(Hit { start: i, end: close + 1, first: Seq::empty(), second: Seq::empty() })
    } else {
        None
    }
}

/// An attribute `name = "value"` at position `i`.
pub open spec fn attribute_hit(s: Seq<char>, i: int) -> Option<Hit> {
    let n = run_len(s.skip(i), |c: char| is_word(c)) as int;
    let value = value_start(s, i + n);
    if n >= 1 && value is Some {
        let v = value->Some_0;
        let close = v + run_len(s.skip(v), |c: char| c != '"');
        if occurs_at(s, seq!['"'], close) {
            Some(
                Hit {
                    start: i,
                    end: close + 1,
                    first: s.subrange(i, i + n),
                    second: s.subrange(v, close),
                },
            )
        } else {
            None
        }
    } else {
        None
    }
}

/// The match at position `i` of one of the patterns that are searched for
/// throughout a text.
pub open spec fn hit_at(p: Seq<char>, s: Seq<char>, i: int) -> Option<Hit> {
    if p == UUID@ {
        uuid_hit(s, i)
    } else if p == BLUEPRINT@ {
        blueprint_hit(s, i)
    } else if p == BUILDABLE_REF@ {
        reference_hit(s, i)
    } else {
        attribute_hit(s, i)
    }
}

/// The patterns that are searched for throughout a text.
pub open spec fn is_searched(p: Seq<char>) -> bool {
    p == UUID@ || p == BLUEPRINT@ || p == BUILDABLE_REF@ || p == SCHEME_ATTR@
}

/// The matches in `s` from position `i` on: from left to right, each behind the
/// end of the one before it.
pub open spec fn hits_from(p: Seq<char>, s: Seq<char>, i: int) -> Seq<Hit>
    decreases s.len() - i,
{
    let h = hit_at(p, s, i);
    if i < 0 || i >= s.len() {
        Seq::empty()
    } else if h is Some && i < h->Some_0.end <= s.len() {
        seq![h->Some_0] + hits_from(p, s, h->Some_0.end)
    } else {
        hits_from(p, s, i + 1)
    }
}

/// All matches in a text.
pub open spec fn hits(p: Seq<char>, s: Seq<char>) -> Seq<Hit> {
    hits_from(p, s, 0)
}

/// The text between match `k - 1` and match `k`.
pub open spec fn gap(s: Seq<char>, hs: Seq<Hit>, k: int) -> Seq<char> {
    s.subrange(
        if k == 0 {
            0
        } else {
            hs[k - 1].end
        },
        if k == hs.len() {
            s.len() as int
        } else {
            hs[k].start
        },
    )
}

/// A match as text: all of it, and what its first two groups captured (nothing
/// for a group that the pattern does not have).
pub struct Found {
    pub whole: String,
    pub first: String,
    pub second: String,
}

/// A match of the text `s`.
pub open spec fn is_found(f: Found, s: Seq<char>, h: Hit) -> bool {
    &&& f.whole@ == s.subrange(h.start, h.end)
    &&& f.first@ == h.first
    &&& f.second@ == h.second
}

// ── Names for results ────────────────────────────────────────────────────────

/// The regular expression compiled from a pattern.
pub uninterp spec fn compiled(pattern: Seq<char>) -> Regex;

/// Whether a pattern matches somewhere in a text.
pub uninterp spec fn matches_in(pattern: Seq<char>, text: Seq<char>) -> bool;

/// What `is_match` says of the patterns whose meaning is put in a few lines.
pub open spec fn match_facts(p: Seq<char>, s: Seq<char>, r: bool) -> bool {
    &&& p == CONFLICT_OURS@ ==> r == is_marker(s, '<')
    &&& p == CONFLICT_SEP@ ==> r == is_separator(s)
    &&& p == CONFLICT_THEIRS@ ==> r == is_marker(s, '>')
    &&& p == OBJECT_DECL_ANY@ ==> r == is_uuid_header(s)
    &&& p == FILES_START@ ==> r == opens_list(s, "files"@)
    &&& p == CHILDREN_START@ ==> r == opens_list(s, "children"@)
}

/// What the first group of a pattern captures in its leftmost match in a text.
pub open spec fn group_facts(p: Seq<char>, s: Seq<char>, r: Option<Seq<char>>) -> bool {
    &&& p == OBJECT_DECL@ ==> r == decl_uuid(s)
    &&& p == LIST_ITEM@ ==> r == item_uuid(s)
    &&& p == BEGIN_SECTION@ ==> r == section_begin(s)
    &&& p == END_SECTION@ ==> r == section_end(s)
    &&& p == BEGIN_WORD_SECTION@ ==> r == word_section_begin(s)
    &&& p == END_WORD_SECTION@ ==> r == word_section_end(s)
    &&& p == BEGIN_LINE_SECTION@ ==> r == line_section(s, "/* Begin "@)
    &&& p == END_LINE_SECTION@ ==> r == line_section(s, "/* End "@)
    &&& p == FILES_NAME@ ==> r == files_name(s)
    &&& p == COMMENT_NAME@ ==> r == comment_name(s)
    &&& p == ENTRY_OPEN@ ==> r == entry_uuid(s)
    &&& p == QUOTED_NAME@ ==> r == quoted_name(s)
    &&& p == MAIN_GROUP@ ==> r == main_group(s)
    &&& p == BASE_CONFIG_REF@ ==> r == base_name(s)
    &&& p == TARGET_FIELD@ ==> r == target_field(s)
}

/// A pattern and the regular expression compiled from it.
pub struct Pattern {
    pub re: Regex,
    pub source: String,
}

impl Pattern {
    pub open spec fn wf(self) -> bool {
        self.re == compiled(self.source@)
    }

    /// The pattern's text.
    pub open spec fn source(self) -> Seq<char> {
        self.source@
    }
}

/// `regex::Regex::new`: compiles a pattern.  The call fails on a text that is
/// no regular expression; each pattern of this module is one.
#[verifier::external_body]
pub(crate) fn compile(pattern: &str) -> (p: Pattern)
    requires
        is_pattern(pattern@),
    ensures
        p.re == compiled(pattern@),
        p.source@ == pattern@,
{
    Pattern { re: Regex::new(pattern).unwrap(), source: pattern.to_string() }
}

/// `regex::Regex::is_match`: whether the pattern matches somewhere in the text.
#[verifier::external_body]
pub(crate) fn is_match(p: &Pattern, text: &str) -> (r: bool)
    requires
        p.wf(),
        is_pattern(p.source()),
    ensures
        r == matches_in(p.source(), text@),
        match_facts(p.source(), text@, r),
{
    p.re.is_match(text)
}

/// `regex::Regex::captures`: what the first group captures in the leftmost
/// match, if there is a match.
#[verifier::external_body]
pub(crate) fn first_group(p: &Pattern, text: &str) -> (r: Option<String>)
    requires
        p.wf(),
        has_group(p.source()),
    ensures
        group_facts(p.source(), text@, opt_view(r)),
{
    p.re.captures(text).map(|c| c[1].to_string())
}

/// `regex::Regex::captures_iter`: the matches in the text, from left to right,
/// with their groups.
#[verifier::external_body]
pub(crate) fn find_all(p: &Pattern, text: &str) -> (r: Vec<Found>)
    requires
        p.wf(),
        is_searched(p.source()),
    ensures
        r@.len() == hits(p.source(), text@).len(),
        forall|k: int|
            0 <= k < r@.len() ==> is_found(#[trigger] r@[k], text@, hits(p.source(), text@)[k]),
{
    let group = |c: &regex::Captures<'_>, n: usize| c.get(n).map_or("", |m| m.as_str()).to_string();
    p.re.captures_iter(text)
        .map(|c| Found { whole: group(&c, 0), first: group(&c, 1), second: group(&c, 2) })
        .collect()
}

/// `regex::Regex::split`: the parts of the text before, between and behind the
/// matches.
#[verifier::external_body]
pub(crate) fn split_around(p: &Pattern, text: &str) -> (r: Vec<String>)
    requires
        p.wf(),
        is_searched(p.source()),
    ensures
        r@.len() == hits(p.source(), text@).len() + 1,
        forall|k: int|
            0 <= k < r@.len() ==> (#[trigger] r@[k])@ == gap(text@, hits(p.source(), text@), k),
{
    p.re.split(text).map(|part| part.to_string()).collect()
}

} // verus!
