//! Text as a sequence of characters: lines, trimming, searching, joining.
//!
//! A `String` is read through its view, a `Seq<char>`.  The functions here
//! give the string operations the passes are written with, each with the
//! sequence it yields.

use vstd::prelude::*;

verus! {

// ── Views of vectors of strings ──────────────────────────────────────────────

/// The character sequences of a sequence of strings.
pub open spec fn texts(v: Seq<String>) -> Seq<Seq<char>> {
    Seq::new(v.len(), |i: int| v[i]@)
}

pub broadcast proof fn lemma_texts_push(v: Seq<String>, s: String)
    ensures
        #[trigger] texts(v.push(s)) == texts(v).push(s@),
{
    assert(texts(v.push(s)) =~= texts(v).push(s@));
}

// ── Building strings ─────────────────────────────────────────────────────────

/// `String::push` appends one character.
pub assume_specification[ String::push ](s: &mut String, c: char)
    ensures
        final(s)@ == old(s)@.push(c),
;

/// `String::push_str` appends the characters of a string slice.
pub assume_specification[ String::push_str ](s: &mut String, t: &str)
    ensures
        final(s)@ == old(s)@ + t@,
;

/// The characters of a string.
pub fn to_chars(s: &str) -> (v: Vec<char>)
    ensures
        v@ == s@,
{
    let mut v: Vec<char> = Vec::new();
    for c in it: s.chars()
        invariant
            v@ == it.seq().take(it.index()),
            it.seq() == s@,
    {
        v.push(c);
    }
    v
}

/// The string of the characters `v[from..to]`.
pub fn slice_to_string(v: &Vec<char>, from: usize, to: usize) -> (s: String)
    requires
        from <= to <= v@.len(),
    ensures
        s@ == v@.subrange(from as int, to as int),
{
    let mut s = String::new();
    let mut i: usize = from;
    while i < to
        invariant
            from <= i <= to <= v@.len(),
            s@ == v@.subrange(from as int, i as int),
        decreases to - i,
    {
        s.push(v[i]);
        i += 1;
        assert(s@ =~= v@.subrange(from as int, i as int));
    }
    s
}

/// A copy of a string slice.
pub fn owned(s: &str) -> (r: String)
    ensures
        r@ == s@,
{
    s.to_owned()
}

/// Equality of two string slices.
pub fn same(a: &str, b: &str) -> (r: bool)
    ensures
        r == (a@ == b@),
{
    a.to_owned() == b.to_owned()
}

/// The view of a text that may be missing.
pub open spec fn opt_view(s: Option<String>) -> Option<Seq<char>> {
    match s {
        Some(x) => Some(x@),
        None => None,
    }
}

// ── Prefixes, suffixes, substrings ───────────────────────────────────────────

/// Whether `p` stands in `s` at position `i`.
pub open spec fn occurs_at(s: Seq<char>, p: Seq<char>, i: int) -> bool {
    0 <= i && i + p.len() <= s.len() && s.subrange(i, i + p.len()) == p
}

/// Whether `p` occurs in `s`.
pub open spec fn has_substring(s: Seq<char>, p: Seq<char>) -> bool {
    exists|i: int| occurs_at(s, p, i)
}

/// Whether `p` stands in the characters `s` at position `i`.
pub fn chars_at(s: &Vec<char>, p: &Vec<char>, i: usize) -> (r: bool)
    ensures
        r == occurs_at(s@, p@, i as int),
{
    if i > s.len() || p.len() > s.len() - i {
        return false;
    }
    let mut k: usize = 0;
    assert(s@.len() == s.len());
    while k < p.len()
        invariant
            k <= p@.len(),
            i + p@.len() <= s@.len(),
            s@.len() <= usize::MAX,
            forall|j: int| 0 <= j < k ==> s@[i + j] == p@[j],
        decreases p.len() - k,
    {
        if s[i + k] != p[k] {
            assert(s@.subrange(i as int, i + p@.len())[k as int] != p@[k as int]);
            return false;
        }
        k += 1;
    }
    assert(s@.subrange(i as int, i + p@.len()) =~= p@);
    true
}

/// `s` begins with `p`.
pub fn starts_with(s: &str, p: &str) -> (r: bool)
    ensures
        r == p@.is_prefix_of(s@),
{
    chars_at(&to_chars(s), &to_chars(p), 0)
}

/// `s` ends with `p`.
pub fn ends_with(s: &str, p: &str) -> (r: bool)
    ensures
        r == p@.is_suffix_of(s@),
{
    let cs = to_chars(s);
    let cp = to_chars(p);
    if cp.len() > cs.len() {
        return false;
    }
    let r = chars_at(&cs, &cp, cs.len() - cp.len());
    assert(s@.subrange(s@.len() - p@.len(), s@.len() - p@.len() + p@.len())
        == s@.subrange(s@.len() - p@.len(), s@.len() as int));
    r
}

/// `p` occurs in `s`.
pub fn contains(s: &str, p: &str) -> (r: bool)
    ensures
        r == has_substring(s@, p@),
{
    let cs = to_chars(s);
    let cp = to_chars(p);
    if cp.len() > cs.len() {
        return false;
    }
    let last: usize = cs.len() - cp.len();
    let mut i: usize = 0;
    loop
        invariant
            cs@ == s@,
            cp@ == p@,
            last == cs@.len() - cp@.len(),
            i <= last,
            forall|j: int| 0 <= j < i ==> !occurs_at(s@, p@, j),
        decreases last - i,
    {
        if chars_at(&cs, &cp, i) {
            return true;
        }
        if i == last {
            return false;
        }
        i += 1;
    }
}

/// The text from position `i` on with every `from` replaced by `to`, from left
/// to right.
pub open spec fn replaced_from(s: Seq<char>, from: Seq<char>, to: Seq<char>, i: int) -> Seq<char>
    decreases s.len() - i,
{
    if i < 0 || i >= s.len() {
        Seq::empty()
    } else if from.len() > 0 && occurs_at(s, from, i) {
        to + replaced_from(s, from, to, i + from.len())
    } else {
        seq![s[i]] + replaced_from(s, from, to, i + 1)
    }
}

/// The text with every `from` replaced by `to`.
pub open spec fn replaced_text(s: Seq<char>, from: Seq<char>, to: Seq<char>) -> Seq<char> {
    replaced_from(s, from, to, 0)
}

/// Replaces every `from` by `to`.
pub fn replace(s: &str, from: &str, to: &str) -> (r: String)
    ensures
        r@ == replaced_text(s@, from@, to@),
{
    let cs = to_chars(s);
    let cf = to_chars(from);
    let mut r = String::new();
    let mut i: usize = 0;
    proof {
        assert(r@ + replaced_from(s@, from@, to@, 0) =~= replaced_text(s@, from@, to@));
    }
    while i < cs.len()
        invariant
            cs@ == s@,
            cf@ == from@,
            i <= cs@.len(),
            r@ + replaced_from(s@, from@, to@, i as int) == replaced_text(s@, from@, to@),
        decreases cs.len() - i,
    {
        let ghost before = r@;
        if cf.len() > 0 && chars_at(&cs, &cf, i) {
            proof {
                assert(before + (to@ + replaced_from(s@, from@, to@, i + from@.len())) =~= (before
                    + to@) + replaced_from(s@, from@, to@, i + from@.len()));
            }
            r.push_str(to);
            i += cf.len();
        } else {
            proof {
                assert(before + (seq![s@[i as int]] + replaced_from(s@, from@, to@, i + 1))
                    =~= before.push(s@[i as int]) + replaced_from(s@, from@, to@, i + 1));
            }
            r.push(cs[i]);
            i += 1;
        }
    }
    proof {
        assert(r@ + replaced_from(s@, from@, to@, i as int) =~= r@);
    }
    r
}

// ── White space ──────────────────────────────────────────────────────────────

/// The characters with the Unicode property `White_Space`.
pub open spec fn is_white(c: char) -> bool {
    ||| '\u{9}' <= c <= '\u{d}'
    ||| c == '\u{20}'
    ||| c == '\u{85}'
    ||| c == '\u{a0}'
    ||| c == '\u{1680}'
    ||| '\u{2000}' <= c <= '\u{200a}'
    ||| c == '\u{2028}'
    ||| c == '\u{2029}'
    ||| c == '\u{202f}'
    ||| c == '\u{205f}'
    ||| c == '\u{3000}'
}

pub fn white(c: char) -> (r: bool)
    ensures
        r == is_white(c),
{
    ('\u{9}' <= c && c <= '\u{d}') || c == '\u{20}' || c == '\u{85}' || c == '\u{a0}'
        || c == '\u{1680}' || ('\u{2000}' <= c && c <= '\u{200a}') || c == '\u{2028}'
        || c == '\u{2029}' || c == '\u{202f}' || c == '\u{205f}' || c == '\u{3000}'
}

/// How many characters at the start of `s` are white space.
pub open spec fn indent(s: Seq<char>) -> nat
    decreases s.len(),
{
    if s.len() > 0 && is_white(s[0]) {
        1 + indent(s.drop_first())
    } else {
        0
    }
}

/// `s` without the white space at its start.
pub open spec fn trimmed_start(s: Seq<char>) -> Seq<char> {
    s.skip(indent(s) as int)
}

/// `s` without the white space at its end.
pub open spec fn trimmed_end(s: Seq<char>) -> Seq<char>
    decreases s.len(),
{
    if s.len() > 0 && is_white(s.last()) {
        trimmed_end(s.drop_last())
    } else {
        s
    }
}

/// `s` without the white space at its start and at its end.
pub open spec fn trimmed(s: Seq<char>) -> Seq<char> {
    trimmed_end(trimmed_start(s))
}

/// `s` holds nothing but white space.
pub open spec fn is_blank(s: Seq<char>) -> bool {
    trimmed(s).len() == 0
}

pub proof fn lemma_indent(s: Seq<char>, n: int)
    requires
        0 <= n <= s.len(),
        forall|i: int| 0 <= i < n ==> is_white(s[i]),
        n < s.len() ==> !is_white(s[n]),
    ensures
        indent(s) == n,
    decreases s.len(),
{
    if n > 0 {
        lemma_indent(s.drop_first(), n - 1);
    }
}

pub proof fn lemma_indent_bound(s: Seq<char>)
    ensures
        indent(s) <= s.len(),
        forall|i: int| 0 <= i < indent(s) ==> is_white(s[i]),
        indent(s) < s.len() ==> !is_white(s[indent(s) as int]),
    decreases s.len(),
{
    if s.len() > 0 && is_white(s[0]) {
        let t = s.drop_first();
        lemma_indent_bound(t);
        assert forall|i: int| 0 <= i < indent(s) implies is_white(s[i]) by {
            if i > 0 {
                assert(s[i] == t[i - 1]);
            }
        }
        if indent(s) < s.len() {
            assert(s[indent(s) as int] == t[indent(t) as int]);
        }
    }
}

/// The number of white-space characters at the start of `s`.
pub fn count_indent(s: &Vec<char>) -> (n: usize)
    ensures
        n == indent(s@),
        n <= s@.len(),
{
    let mut n: usize = 0;
    while n < s.len() && white(s[n])
        invariant
            n <= s@.len(),
            forall|i: int| 0 <= i < n ==> is_white(s@[i]),
        decreases s.len() - n,
    {
        n += 1;
    }
    proof {
        lemma_indent(s@, n as int);
    }
    n
}

/// `s` without the white space at its start.
pub fn trim_start(s: &str) -> (r: String)
    ensures
        r@ == trimmed_start(s@),
{
    let cs = to_chars(s);
    let n = count_indent(&cs);
    slice_to_string(&cs, n, cs.len())
}

/// The white space at the start of `s`.
pub fn leading_whitespace(s: &str) -> (r: String)
    ensures
        r@ == s@.take(indent(s@) as int),
{
    let cs = to_chars(s);
    let n = count_indent(&cs);
    slice_to_string(&cs, 0, n)
}

proof fn lemma_trimmed_end(s: Seq<char>, n: int)
    requires
        0 <= n <= s.len(),
        forall|i: int| n <= i < s.len() ==> is_white(s[i]),
        n > 0 ==> !is_white(s[n - 1]),
    ensures
        trimmed_end(s) == s.take(n),
    decreases s.len(),
{
    if n < s.len() {
        lemma_trimmed_end(s.drop_last(), n);
        assert(s.drop_last().take(n) =~= s.take(n));
    } else {
        assert(s.take(n) =~= s);
    }
}

/// `s` without the white space at its end.
pub fn trim_end(s: &str) -> (r: String)
    ensures
        r@ == trimmed_end(s@),
{
    let cs = to_chars(s);
    let mut n: usize = cs.len();
    while n > 0 && white(cs[n - 1])
        invariant
            n <= cs@.len(),
            forall|i: int| n <= i < cs@.len() ==> is_white(cs@[i]),
        decreases n,
    {
        n -= 1;
    }
    proof {
        lemma_trimmed_end(s@, n as int);
    }
    slice_to_string(&cs, 0, n)
}

/// `s` without the white space at its start and at its end.
pub fn trim(s: &str) -> (r: String)
    ensures
        r@ == trimmed(s@),
{
    trim_end(trim_start(s).as_str())
}

/// Whether `s` holds nothing but white space.
pub fn blank(s: &str) -> (r: bool)
    ensures
        r == is_blank(s@),
{
    trim(s).as_str().is_empty()
}

// ── Numbers ──────────────────────────────────────────────────────────────────

/// The character of a decimal digit.
pub open spec fn digit(n: nat) -> char {
    (('0' as int) + n) as char
}

/// A number in decimal digits.
pub open spec fn decimal(n: nat) -> Seq<char>
    decreases n,
{
    if n < 10 {
        seq![digit(n)]
    } else {
        decimal(n / 10).push(digit(n % 10))
    }
}

/// The character of a decimal digit.
pub fn digit_char(d: u8) -> (c: char)
    requires
        d < 10,
    ensures
        c == digit(d as nat),
{
    (48u8 + d) as char
}

/// A number in decimal digits.
pub fn u128_text(n: u128) -> (r: String)
    ensures
        r@ == decimal(n as nat),
    decreases n,
{
    if n < 10 {
        let mut r = String::new();
        r.push(digit_char(n as u8));
        assert(r@ =~= decimal(n as nat));
        r
    } else {
        let mut r = u128_text(n / 10);
        r.push(digit_char((n % 10) as u8));
        r
    }
}

/// A number in decimal digits.
pub fn usize_text(n: usize) -> (r: String)
    ensures
        r@ == decimal(n as nat),
{
    u128_text(n as u128)
}

// ── Letter case ──────────────────────────────────────────────────────────────

/// A text that is not in ASCII, in upper case.
pub uninterp spec fn other_uppercase(s: Seq<char>) -> Seq<char>;

/// A text that is not in ASCII, in lower case.
pub uninterp spec fn other_lowercase(s: Seq<char>) -> Seq<char>;

/// Every character is in the range of ASCII.
pub open spec fn all_ascii(s: Seq<char>) -> bool {
    forall|i: int| 0 <= i < s.len() ==> #[trigger] s[i] <= '\u{7f}'
}

/// The upper-case form of an ASCII character.
pub open spec fn ascii_upper(c: char) -> char {
    if 'a' <= c <= 'z' {
        (c as int - 32) as char
    } else {
        c
    }
}

/// The lower-case form of an ASCII character.
pub open spec fn ascii_lower(c: char) -> char {
    if 'A' <= c <= 'Z' {
        (c as int + 32) as char
    } else {
        c
    }
}

/// A text in upper case.
#[verifier::opaque]
pub open spec fn uppercase(s: Seq<char>) -> Seq<char> {
    if all_ascii(s) {
        s.map_values(|c: char| ascii_upper(c))
    } else {
        other_uppercase(s)
    }
}

/// A text in lower case.
#[verifier::opaque]
pub open spec fn lowercase(s: Seq<char>) -> Seq<char> {
    if all_ascii(s) {
        s.map_values(|c: char| ascii_lower(c))
    } else {
        other_lowercase(s)
    }
}

/// `str::to_uppercase`.  Of a text in ASCII the result is stated; of other
/// texts it is only named.
#[verifier::external_body]
fn std_uppercase(s: &str) -> (r: String)
    ensures
        all_ascii(s@) ==> r@ == s@.map_values(|c: char| ascii_upper(c)),
        !all_ascii(s@) ==> r@ == other_uppercase(s@),
{
    s.to_uppercase()
}

/// `str::to_lowercase`.  Of a text in ASCII the result is stated; of other
/// texts it is only named.
#[verifier::external_body]
fn std_lowercase(s: &str) -> (r: String)
    ensures
        all_ascii(s@) ==> r@ == s@.map_values(|c: char| ascii_lower(c)),
        !all_ascii(s@) ==> r@ == other_lowercase(s@),
{
    s.to_lowercase()
}

/// The text in upper case.
pub(crate) fn to_uppercase(s: &str) -> (r: String)
    ensures
        r@ == uppercase(s@),
{
    proof {
        reveal(uppercase);
    }
    std_uppercase(s)
}

/// The text in lower case.
pub(crate) fn to_lowercase(s: &str) -> (r: String)
    ensures
        r@ == lowercase(s@),
{
    proof {
        reveal(lowercase);
    }
    std_lowercase(s)
}

// ── Lines ────────────────────────────────────────────────────────────────────

/// How many characters of `s` stand before its first line feed.
pub open spec fn line_len(s: Seq<char>) -> nat
    decreases s.len(),
{
    if s.len() == 0 || s[0] == '\n' {
        0
    } else {
        1 + line_len(s.drop_first())
    }
}

/// A line without the carriage return that belongs to its line ending.
pub open spec fn without_cr(s: Seq<char>) -> Seq<char> {
    if s.len() > 0 && s.last() == '\r' {
        s.drop_last()
    } else {
        s
    }
}

/// The lines of a text.  A line ends at `\n` or `\r\n`, which is no part of
/// it; the last line need not have an ending.
pub open spec fn lines_of(s: Seq<char>) -> Seq<Seq<char>>
    decreases s.len(),
{
    let n = line_len(s);
    if s.len() == 0 {
        Seq::empty()
    } else if n >= s.len() {
        seq![s]
    } else {
        seq![without_cr(s.take(n as int))] + lines_of(s.skip(n as int + 1))
    }
}

/// Lines, each followed by a line feed.
pub open spec fn unlines(ls: Seq<Seq<char>>) -> Seq<char>
    decreases ls.len(),
{
    if ls.len() == 0 {
        Seq::empty()
    } else {
        unlines(ls.drop_last()) + ls.last().push('\n')
    }
}

/// Lines with a line feed between each two.
pub open spec fn joined(ls: Seq<Seq<char>>) -> Seq<char>
    decreases ls.len(),
{
    if ls.len() == 0 {
        Seq::empty()
    } else if ls.len() == 1 {
        ls[0]
    } else {
        joined(ls.drop_last()).push('\n') + ls.last()
    }
}

/// A line as it stands in a text: without a line feed, and without a carriage
/// return that would be read as part of its ending.
pub open spec fn is_plain_line(l: Seq<char>) -> bool {
    &&& forall|i: int| 0 <= i < l.len() ==> l[i] != '\n'
    &&& !(l.len() > 0 && l.last() == '\r')
}

pub open spec fn are_plain_lines(ls: Seq<Seq<char>>) -> bool {
    forall|i: int| 0 <= i < ls.len() ==> is_plain_line(#[trigger] ls[i])
}

pub proof fn lemma_line_len(s: Seq<char>, n: int)
    requires
        0 <= n <= s.len(),
        forall|i: int| 0 <= i < n ==> s[i] != '\n',
        n < s.len() ==> s[n] == '\n',
    ensures
        line_len(s) == n,
    decreases s.len(),
{
    if n > 0 {
        lemma_line_len(s.drop_first(), n - 1);
    }
}

pub proof fn lemma_line_len_bound(s: Seq<char>)
    ensures
        line_len(s) <= s.len(),
        forall|i: int| 0 <= i < line_len(s) ==> s[i] != '\n',
        line_len(s) < s.len() ==> s[line_len(s) as int] == '\n',
    decreases s.len(),
{
    if s.len() > 0 && s[0] != '\n' {
        let t = s.drop_first();
        lemma_line_len_bound(t);
        assert forall|i: int| 0 <= i < line_len(s) implies s[i] != '\n' by {
            if i > 0 {
                assert(s[i] == t[i - 1]);
            }
        }
        if line_len(s) < s.len() {
            assert(s[line_len(s) as int] == t[line_len(t) as int]);
        }
    }
}

/// The lines of a text.
pub fn split_lines(s: &str) -> (v: Vec<String>)
    ensures
        texts(v@) == lines_of(s@),
        s@.len() <= usize::MAX,
{
    let cs = to_chars(s);
    let mut v: Vec<String> = Vec::new();
    let mut start: usize = 0;
    proof {
        assert(texts(v@) =~= Seq::empty());
        assert(s@.skip(0) =~= s@);
        assert(texts(v@) + lines_of(s@.skip(0)) =~= lines_of(s@));
    }
    while start < cs.len()
        invariant
            cs@ == s@,
            start <= cs@.len(),
            texts(v@) + lines_of(s@.skip(start as int)) == lines_of(s@),
        decreases cs.len() - start,
    {
        let ghost rest = s@.skip(start as int);
        let mut end: usize = start;
        while end < cs.len() && cs[end] != '\n'
            invariant
                cs@ == s@,
                start <= end <= cs@.len(),
                forall|i: int| start <= i < end ==> cs@[i] != '\n',
            decreases cs.len() - end,
        {
            end += 1;
        }
        proof {
            lemma_line_len(rest, end - start);
        }
        let ghost before = texts(v@);
        if end == cs.len() {
            let line = slice_to_string(&cs, start, end);
            v.push(line);
            proof {
                lemma_texts_push(v@.drop_last(), v@.last());
                assert(v@.drop_last().push(v@.last()) =~= v@);
                assert(line@ =~= rest);
                assert(s@.skip(end as int) =~= Seq::empty());
                assert(before.push(line@) + lines_of(s@.skip(end as int)) =~= before + seq![rest]);
            }
            start = end;
        } else {
            let stop: usize = if end > start && cs[end - 1] == '\r' { end - 1 } else { end };
            let line = slice_to_string(&cs, start, stop);
            v.push(line);
            proof {
                assert(v@.drop_last().push(v@.last()) =~= v@);
                lemma_texts_push(v@.drop_last(), v@.last());
                assert(rest.take(end - start) =~= s@.subrange(start as int, end as int));
                assert(line@ =~= without_cr(rest.take(end - start)));
                assert(rest.skip(end - start + 1) =~= s@.skip(end + 1));
                assert(before.push(line@) + lines_of(s@.skip(end + 1)) =~= before + (seq![line@]
                    + lines_of(s@.skip(end + 1))));
            }
            start = end + 1;
        }
    }
    proof {
        assert(s@.skip(start as int) =~= Seq::empty());
        assert(texts(v@) + lines_of(s@.skip(start as int)) =~= texts(v@));
    }
    v
}

/// Appends a line and its line feed.
pub fn push_line(out: &mut String, line: &str)
    ensures
        final(out)@ == old(out)@ + line@.push('\n'),
{
    out.push_str(line);
    out.push('\n');
    assert(out@ =~= old(out)@ + line@.push('\n'));
}

pub proof fn lemma_unlines_push(ls: Seq<Seq<char>>, l: Seq<char>)
    ensures
        unlines(ls.push(l)) == unlines(ls) + l.push('\n'),
{
    assert(ls.push(l).drop_last() =~= ls);
}

pub proof fn lemma_unlines_front(l: Seq<char>, ls: Seq<Seq<char>>)
    ensures
        unlines(seq![l] + ls) == l.push('\n') + unlines(ls),
    decreases ls.len(),
{
    if ls.len() == 0 {
        assert(seq![l] + ls =~= Seq::empty().push(l));
        lemma_unlines_push(Seq::empty(), l);
        assert(unlines(seq![l] + ls) =~= l.push('\n') + unlines(ls));
    } else {
        lemma_unlines_front(l, ls.drop_last());
        assert((seq![l] + ls).drop_last() =~= seq![l] + ls.drop_last());
        assert(unlines(seq![l] + ls) =~= l.push('\n') + unlines(ls));
    }
}

/// The lines of a text written line by line are the lines that were written.
pub proof fn lemma_lines_of_unlines(ls: Seq<Seq<char>>)
    requires
        are_plain_lines(ls),
    ensures
        lines_of(unlines(ls)) == ls,
    decreases ls.len(),
{
    if ls.len() == 0 {
        assert(lines_of(unlines(ls)) =~= ls);
    } else {
        let l = ls[0];
        let rest = ls.drop_first();
        assert(is_plain_line(l));
        assert forall|i: int| 0 <= i < rest.len() implies is_plain_line(#[trigger] rest[i]) by {
            assert(is_plain_line(ls[i + 1]));
        }
        lemma_lines_of_unlines(rest);
        assert(seq![l] + rest =~= ls);
        lemma_unlines_front(l, rest);
        let s = unlines(ls);
        assert(s =~= l.push('\n') + unlines(rest));
        lemma_line_len(s, l.len() as int);
        assert(s.take(l.len() as int) =~= l);
        assert(s.skip(l.len() as int + 1) =~= unlines(rest));
        assert(lines_of(s) =~= ls);
    }
}

/// No line of a text holds a line feed.
pub proof fn lemma_lines_have_no_lf(s: Seq<char>)
    ensures
        forall|k: int, i: int|
            0 <= k < lines_of(s).len() && 0 <= i < #[trigger] lines_of(s)[k].len()
                ==> #[trigger] lines_of(s)[k][i] != '\n',
    decreases s.len(),
{
    lemma_line_len_bound(s);
    let n = line_len(s) as int;
    if s.len() > 0 && n < s.len() {
        lemma_lines_have_no_lf(s.skip(n + 1));
        let tail = lines_of(s.skip(n + 1));
        assert forall|k: int, i: int|
            0 <= k < lines_of(s).len() && 0 <= i < #[trigger] lines_of(s)[k].len() implies
                #[trigger] lines_of(s)[k][i] != '\n' by {
            if k > 0 {
                assert(lines_of(s)[k] == tail[k - 1]);
                assert(tail[k - 1][i] != '\n');
            }
        }
    }
}

/// The number of characters in a sequence of lines.
pub open spec fn total_len(ls: Seq<Seq<char>>) -> nat
    decreases ls.len(),
{
    if ls.len() == 0 {
        0
    } else {
        total_len(ls.drop_last()) + ls.last().len()
    }
}

proof fn lemma_total_len_front(l: Seq<char>, ls: Seq<Seq<char>>)
    ensures
        total_len(seq![l] + ls) == l.len() + total_len(ls),
    decreases ls.len(),
{
    if ls.len() == 0 {
        assert(seq![l] + ls =~= seq![l]);
        assert(seq![l].drop_last() =~= Seq::empty());
        assert(total_len(seq![l].drop_last()) == 0);
    } else {
        lemma_total_len_front(l, ls.drop_last());
        assert((seq![l] + ls).drop_last() =~= seq![l] + ls.drop_last());
    }
}

/// The lines of a text hold no more characters than the text.
pub proof fn lemma_total_len_of_lines(s: Seq<char>)
    ensures
        total_len(lines_of(s)) <= s.len(),
    decreases s.len(),
{
    lemma_line_len_bound(s);
    let n = line_len(s) as int;
    if s.len() > 0 {
        if n < s.len() {
            lemma_total_len_of_lines(s.skip(n + 1));
            lemma_total_len_front(without_cr(s.take(n)), lines_of(s.skip(n + 1)));
        } else {
            assert(seq![s].drop_last() =~= Seq::empty());
            assert(total_len(seq![s].drop_last()) == 0);
        }
    }
}

pub proof fn lemma_total_len_take(ls: Seq<Seq<char>>, n: int)
    requires
        0 <= n <= ls.len(),
    ensures
        total_len(ls.take(n)) <= total_len(ls),
    decreases ls.len(),
{
    if n < ls.len() {
        lemma_total_len_take(ls.drop_last(), n);
        assert(ls.drop_last().take(n) =~= ls.take(n));
    } else {
        assert(ls.take(n) =~= ls);
    }
}

/// `joined` over a longer sequence.
pub proof fn lemma_joined_push(ls: Seq<Seq<char>>, l: Seq<char>)
    ensures
        joined(ls.push(l)) == (if ls.len() == 0 { l } else { joined(ls).push('\n') + l }),
{
    assert(ls.push(l).drop_last() =~= ls);
}

/// Joins lines with line feeds.
pub fn join_lines(ls: &Vec<String>) -> (r: String)
    ensures
        r@ == joined(texts(ls@)),
{
    let mut r = String::new();
    let mut i: usize = 0;
    proof {
        assert(texts(ls@).take(0) =~= Seq::empty());
    }
    while i < ls.len()
        invariant
            i <= ls@.len(),
            r@ == joined(texts(ls@).take(i as int)),
        decreases ls.len() - i,
    {
        proof {
            assert(texts(ls@).take(i + 1) =~= texts(ls@).take(i as int).push(ls@[i as int]@));
            lemma_joined_push(texts(ls@).take(i as int), ls@[i as int]@);
        }
        if i > 0 {
            r.push('\n');
        }
        r.push_str(ls[i].as_str());
        proof {
            if i == 0 {
                assert(r@ =~= ls@[0]@);
            }
        }
        i += 1;
    }
    assert(texts(ls@).take(i as int) =~= texts(ls@));
    r
}

/// The lines of joined lines are those lines, but for an empty last line.
pub proof fn lemma_joined_is_unlines(ls: Seq<Seq<char>>)
    requires
        ls.len() > 0,
    ensures
        joined(ls).push('\n') == unlines(ls),
    decreases ls.len(),
{
    if ls.len() == 1 {
        assert(ls.drop_last() =~= Seq::empty());
        assert(unlines(ls.drop_last()) =~= Seq::empty());
        assert(joined(ls).push('\n') =~= unlines(ls));
    } else {
        lemma_joined_is_unlines(ls.drop_last());
        assert(joined(ls).push('\n') =~= unlines(ls));
    }
}

} // verus!
