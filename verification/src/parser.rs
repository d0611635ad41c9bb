//! A parser for ASCII property lists, tuned for `project.pbxproj` files.
//!
//! Grammar (simplified):
//!
//! ```text
//! File        := Value
//! Dict        := "{" (Key "=" Value ";")* "}"
//! Array       := "(" (Value ","?)* ")"
//! Value       := Dict | Array | QuotedStr | UnquotedStr
//! QuotedStr   := '"' … '"'            (handles \n \t \r \\ \")
//! UnquotedStr := [^ \t\n\r{}()=;,]+   (but stops at a comment)
//! ```
//!
//! Comments (`/* … */` and `// …`) may stand before values and keys.

use crate::error::ElectrolysisError;
pub use crate::plist::{entries, plist, plists, PbxDict, PbxValue, Plist};
use crate::table::{lemma_no_slot, lookup, upsert};
use crate::text::{owned, texts};
use vstd::prelude::*;
use vstd::utf8::{decode_utf8, encode_utf8, valid_utf8};

verus! {

// ── White space and comments ─────────────────────────────────────────────────

/// The byte at position `p` is `b`.
pub open spec fn at(s: Seq<u8>, p: int, b: u8) -> bool {
    0 <= p < s.len() && s[p] == b
}

pub open spec fn is_space(b: u8) -> bool {
    b == 32 || b == 9 || b == 10 || b == 13
}

/// The end of the line that holds position `p`.
pub open spec fn skip_line(s: Seq<u8>, p: int) -> int
    decreases s.len() - p,
{
    if 0 <= p < s.len() && s[p] != 10 {
        skip_line(s, p + 1)
    } else {
        p
    }
}

/// The position behind the `*/` that comes next; the last byte, if there is
/// none.
pub open spec fn skip_block(s: Seq<u8>, p: int) -> int
    decreases s.len() - p,
{
    if 0 <= p && p + 1 < s.len() {
        if s[p] == 42 && s[p + 1] == 47 {
            p + 2
        } else {
            skip_block(s, p + 1)
        }
    } else {
        p
    }
}

pub proof fn lemma_skip_line(s: Seq<u8>, p: int)
    requires
        0 <= p <= s.len(),
    ensures
        p <= skip_line(s, p) <= s.len(),
        p < s.len() && s[p] != 10 ==> p < skip_line(s, p),
    decreases s.len() - p,
{
    if p < s.len() && s[p] != 10 {
        lemma_skip_line(s, p + 1);
    }
}

pub proof fn lemma_skip_block(s: Seq<u8>, p: int)
    requires
        0 <= p <= s.len(),
    ensures
        p <= skip_block(s, p) <= s.len(),
    decreases s.len() - p,
{
    if p + 1 < s.len() && !(s[p] == 42 && s[p + 1] == 47) {
        lemma_skip_block(s, p + 1);
    }
}

/// The position behind white space and comments.
pub open spec fn skip(s: Seq<u8>, p: int) -> int
    decreases s.len() - p,
{
    if p < 0 || p >= s.len() {
        p
    } else if is_space(s[p]) {
        skip(s, p + 1)
    } else if at(s, p, 47) && at(s, p + 1, 42) {
        proof {
            lemma_skip_block(s, p + 2);
        }
        skip(s, skip_block(s, p + 2))
    } else if at(s, p, 47) && at(s, p + 1, 47) {
        proof {
            lemma_skip_line(s, p);
        }
        skip(s, skip_line(s, p))
    } else {
        p
    }
}

pub proof fn lemma_skip(s: Seq<u8>, p: int)
    requires
        0 <= p <= s.len(),
    ensures
        p <= skip(s, p) <= s.len(),
        skip(s, p) < s.len() ==> !is_space(s[skip(s, p)]),
        skip(s, p) < s.len() ==> !(at(s, skip(s, p), 47) && (at(s, skip(s, p) + 1, 42) || at(
            s,
            skip(s, p) + 1,
            47,
        ))),
    decreases s.len() - p,
{
    if p < s.len() {
        if is_space(s[p]) {
            lemma_skip(s, p + 1);
        } else if at(s, p, 47) && at(s, p + 1, 42) {
            lemma_skip_block(s, p + 2);
            lemma_skip(s, skip_block(s, p + 2));
        } else if at(s, p, 47) && at(s, p + 1, 47) {
            lemma_skip_line(s, p);
            lemma_skip(s, skip_line(s, p));
        }
    }
}

// ── Strings ──────────────────────────────────────────────────────────────────

/// Text between quotes, from position `p` on: the bytes it stands for, behind
/// those of `acc`, and the position behind the closing quote; or else where
/// reading failed, and why.
pub open spec fn quoted_body(s: Seq<u8>, p: int, acc: Seq<u8>) -> Result<
    (Seq<u8>, int),
    (int, Seq<char>),
>
    decreases s.len() - p,
{
    if p < 0 || p >= s.len() {
        Err((p, "unterminated quoted string"@))
    } else if s[p] == 34 {
        Ok((acc, p + 1))
    } else if s[p] != 92 {
        quoted_body(s, p + 1, acc.push(s[p]))
    } else if p + 1 >= s.len() {
        Err((p + 1, "truncated escape sequence"@))
    } else if s[p + 1] == 110 {
        quoted_body(s, p + 2, acc.push(10))
    } else if s[p + 1] == 116 {
        quoted_body(s, p + 2, acc.push(9))
    } else if s[p + 1] == 114 {
        quoted_body(s, p + 2, acc.push(13))
    } else if s[p + 1] == 34 || s[p + 1] == 92 {
        quoted_body(s, p + 2, acc.push(s[p + 1]))
    } else if s[p + 1] == 85 {
        // `\U` and the four bytes behind it are kept as they are.
        let end = if p + 6 <= s.len() {
            p + 6
        } else {
            s.len() as int
        };
        quoted_body(s, end, acc + s.subrange(p, end))
    } else {
        quoted_body(s, p + 2, acc.push(92).push(s[p + 1]))
    }
}

pub proof fn lemma_quoted_body(s: Seq<u8>, p: int, acc: Seq<u8>)
    requires
        0 <= p <= s.len(),
    ensures
        match quoted_body(s, p, acc) {
            Ok((_, q)) => p < q <= s.len(),
            Err((q, _)) => p <= q <= s.len(),
        },
    decreases s.len() - p,
{
    if p < s.len() && s[p] != 34 {
        if s[p] != 92 {
            lemma_quoted_body(s, p + 1, acc.push(s[p]));
        } else if p + 1 < s.len() {
            let c = s[p + 1];
            if c == 110 {
                lemma_quoted_body(s, p + 2, acc.push(10));
            } else if c == 116 {
                lemma_quoted_body(s, p + 2, acc.push(9));
            } else if c == 114 {
                lemma_quoted_body(s, p + 2, acc.push(13));
            } else if c == 34 || c == 92 {
                lemma_quoted_body(s, p + 2, acc.push(c));
            } else if c == 85 {
                let end = if p + 6 <= s.len() {
                    p + 6
                } else {
                    s.len() as int
                };
                lemma_quoted_body(s, end, acc + s.subrange(p, end));
            } else {
                lemma_quoted_body(s, p + 2, acc.push(92).push(c));
            }
        }
    }
}

/// Bytes as text, with the position behind them.
pub open spec fn text_at(bytes: Seq<u8>, p: int, message: Seq<char>) -> Result<
    (Seq<char>, int),
    (int, Seq<char>),
> {
    if valid_utf8(bytes) {
        Ok((decode_utf8(bytes), p))
    } else {
        Err((p, message))
    }
}

/// The quoted string whose opening quote stands at position `p`.
pub open spec fn quoted(s: Seq<u8>, p: int) -> Result<(Seq<char>, int), (int, Seq<char>)> {
    match quoted_body(s, p + 1, Seq::empty()) {
        Ok((bytes, q)) => text_at(bytes, q, "invalid UTF-8 in quoted string"@),
        Err(e) => Err(e),
    }
}

/// A byte that ends an unquoted string.
pub open spec fn is_delimiter(b: u8) -> bool {
    is_space(b) || b == 123 || b == 125 || b == 40 || b == 41 || b == 61 || b == 59 || b == 44
}

/// The end of the unquoted string at position `p`.
pub open spec fn unquoted_end(s: Seq<u8>, p: int) -> int
    decreases s.len() - p,
{
    if p < 0 || p >= s.len() || is_delimiter(s[p]) || (s[p] == 47 && (at(s, p + 1, 42) || at(
        s,
        p + 1,
        47,
    ))) {
        p
    } else {
        unquoted_end(s, p + 1)
    }
}

pub proof fn lemma_unquoted_end(s: Seq<u8>, p: int)
    requires
        0 <= p <= s.len(),
    ensures
        p <= unquoted_end(s, p) <= s.len(),
    decreases s.len() - p,
{
    if unquoted_end(s, p) != p {
        lemma_unquoted_end(s, p + 1);
    }
}

/// The unquoted string at position `p`.
pub open spec fn unquoted(s: Seq<u8>, p: int) -> Result<(Seq<char>, int), (int, Seq<char>)> {
    let end = unquoted_end(s, p);
    if end == p {
        Err((p, "expected string value, found Some('"@ + seq![s[p] as char] + "')"@))
    } else {
        text_at(s.subrange(p, end), end, "invalid UTF-8 in unquoted string"@)
    }
}

/// A string, behind white space and comments.
pub open spec fn string(s: Seq<u8>, p: int) -> Result<(Seq<char>, int), (int, Seq<char>)> {
    let q = skip(s, p);
    if q >= s.len() {
        Err((q, "unexpected EOF while reading string"@))
    } else if s[q] == 34 {
        quoted(s, q)
    } else {
        unquoted(s, q)
    }
}

pub proof fn lemma_string(s: Seq<u8>, p: int)
    requires
        0 <= p <= s.len(),
    ensures
        match string(s, p) {
            Ok((_, q)) => p < q <= s.len(),
            Err((q, _)) => p <= q <= s.len(),
        },
{
    lemma_skip(s, p);
    let q = skip(s, p);
    if q < s.len() {
        lemma_quoted_body(s, q + 1, Seq::empty());
        lemma_unquoted_end(s, q);
    }
}

// ── Values ───────────────────────────────────────────────────────────────────

/// A printable ASCII character that is no quote and no backslash.
pub open spec fn is_shown_plainly(c: char) -> bool {
    ' ' <= c <= '~' && c != '"' && c != '\'' && c != '\\'
}

pub open spec fn all_shown_plainly(s: Seq<char>) -> bool {
    forall|i: int| 0 <= i < s.len() ==> is_shown_plainly(#[trigger] s[i])
}

/// A text with other characters, as the debug format shows it.
pub uninterp spec fn other_debug_text(s: Seq<char>) -> Seq<char>;

/// Another character, as the debug format shows it.
pub uninterp spec fn other_debug_char(c: char) -> Seq<char>;

/// A text as the debug format shows it.
pub open spec fn debug_text(s: Seq<char>) -> Seq<char> {
    if all_shown_plainly(s) {
        "\""@ + s + "\""@
    } else {
        other_debug_text(s)
    }
}

/// A character as the debug format shows it.
pub open spec fn debug_char(c: char) -> Seq<char> {
    if is_shown_plainly(c) {
        seq!['\'', c, '\'']
    } else {
        other_debug_char(c)
    }
}

/// The message for a key that no equals sign follows.
pub open spec fn expected_equals(key: Seq<char>, s: Seq<u8>, p: int) -> Seq<char> {
    "expected '=' after key "@ + debug_text(key) + ", got "@ + if p < s.len() {
        "Some("@ + debug_char(s[p] as char) + ")"@
    } else {
        "None"@
    }
}

/// The value at position `p`, behind white space and comments.
pub open spec fn value(s: Seq<u8>, p: int) -> Result<(Plist, int), (int, Seq<char>)>
    decreases s.len() - p, 1int,
{
    let q = skip(s, p);
    if p < 0 || p > s.len() {
        Err((p, Seq::empty()))
    } else if q >= s.len() {
        Err((q, "unexpected EOF"@))
    } else {
        proof {
            lemma_skip(s, p);
        }
        if s[q] == 123 {
            dict(s, q + 1, Seq::empty())
        } else if s[q] == 40 {
            array(s, q + 1, Seq::empty())
        } else {
            match if s[q] == 34 {
                quoted(s, q)
            } else {
                unquoted(s, q)
            } {
                Ok((t, r)) => Ok((Plist::Str(t), r)),
                Err(e) => Err(e),
            }
        }
    }
}

/// The rest of a dictionary from position `p` on; `acc` holds its entries so
/// far.
pub open spec fn dict(s: Seq<u8>, p: int, acc: Seq<(Seq<char>, Plist)>) -> Result<
    (Plist, int),
    (int, Seq<char>),
>
    decreases s.len() - p, 0int,
{
    let q = skip(s, p);
    if p < 0 || p > s.len() {
        Err((p, Seq::empty()))
    } else if q >= s.len() {
        Err((q, "unterminated dict"@))
    } else if s[q] == 125 {
        Ok((Plist::Dict(acc), q + 1))
    } else {
        proof {
            lemma_skip(s, p);
            lemma_string(s, q);
        }
        match string(s, q) {
            Err(e) => Err(e),
            Ok((key, k)) => {
                let e = skip(s, k);
                proof {
                    lemma_skip(s, k);
                }
                if !at(s, e, 61) {
                    Err((e, expected_equals(key, s, e)))
                } else {
                    match value(s, e + 1) {
                        Err(e) => Err(e),
                        Ok((v, r)) => {
                            let t = skip(s, r);
                            let u = if at(s, t, 59) {
                                t + 1
                            } else {
                                t
                            };
                            if p < u <= s.len() {
                                dict(s, u, upsert(acc, key, v))
                            } else {
                                Err((u, Seq::empty()))
                            }
                        },
                    }
                }
            },
        }
    }
}

/// The rest of an array from position `p` on; `acc` holds its items so far.
pub open spec fn array(s: Seq<u8>, p: int, acc: Seq<Plist>) -> Result<
    (Plist, int),
    (int, Seq<char>),
>
    decreases s.len() - p, 2int,
{
    let q = skip(s, p);
    if p < 0 || p > s.len() {
        Err((p, Seq::empty()))
    } else if q >= s.len() {
        Err((q, "unterminated array"@))
    } else if s[q] == 41 {
        Ok((Plist::Array(acc), q + 1))
    } else {
        proof {
            lemma_skip(s, p);
        }
        match value(s, q) {
            Err(e) => Err(e),
            Ok((v, r)) => {
                let t = skip(s, r);
                let u = if at(s, t, 44) {
                    t + 1
                } else {
                    t
                };
                if p < u <= s.len() {
                    array(s, u, acc.push(v))
                } else {
                    Err((u, Seq::empty()))
                }
            },
        }
    }
}

/// Reading a value goes forward, and not beyond the end.
pub proof fn lemma_value(s: Seq<u8>, p: int)
    requires
        0 <= p <= s.len(),
    ensures
        match value(s, p) {
            Ok((_, q)) => p < q <= s.len(),
            Err((q, _)) => p <= q <= s.len(),
        },
    decreases s.len() - p, 1int,
{
    let q = skip(s, p);
    lemma_skip(s, p);
    if q < s.len() {
        if s[q] == 123 {
            lemma_dict(s, q + 1, Seq::empty());
        } else if s[q] == 40 {
            lemma_array(s, q + 1, Seq::empty());
        } else {
            lemma_quoted_body(s, q + 1, Seq::empty());
            lemma_unquoted_end(s, q);
        }
    }
}

pub proof fn lemma_dict(s: Seq<u8>, p: int, acc: Seq<(Seq<char>, Plist)>)
    requires
        0 <= p <= s.len(),
    ensures
        match dict(s, p, acc) {
            Ok((_, q)) => p < q <= s.len(),
            Err((q, _)) => p <= q <= s.len(),
        },
    decreases s.len() - p, 0int,
{
    let q = skip(s, p);
    lemma_skip(s, p);
    if q < s.len() && s[q] != 125 {
        lemma_string(s, q);
        if let Ok((key, k)) = string(s, q) {
            let e = skip(s, k);
            lemma_skip(s, k);
            if at(s, e, 61) {
                lemma_value(s, e + 1);
                if let Ok((v, r)) = value(s, e + 1) {
                    let t = skip(s, r);
                    lemma_skip(s, r);
                    let u = if at(s, t, 59) {
                        t + 1
                    } else {
                        t
                    };
                    lemma_dict(s, u, upsert(acc, key, v));
                }
            }
        }
    }
}

pub proof fn lemma_array(s: Seq<u8>, p: int, acc: Seq<Plist>)
    requires
        0 <= p <= s.len(),
    ensures
        match array(s, p, acc) {
            Ok((_, q)) => p < q <= s.len(),
            Err((q, _)) => p <= q <= s.len(),
        },
    decreases s.len() - p, 2int,
{
    let q = skip(s, p);
    lemma_skip(s, p);
    if q < s.len() && s[q] != 41 {
        lemma_value(s, q);
        if let Ok((v, r)) = value(s, q) {
            let t = skip(s, r);
            lemma_skip(s, r);
            let u = if at(s, t, 44) {
                t + 1
            } else {
                t
            };
            lemma_array(s, u, acc.push(v));
        }
    }
}

// ── Reading ──────────────────────────────────────────────────────────────────

/// The number of line feeds among the first `p` bytes.
pub open spec fn feeds(s: Seq<u8>, p: int) -> nat
    decreases p,
{
    if p <= 0 {
        0
    } else if s[p - 1] == 10 {
        feeds(s, p - 1) + 1
    } else {
        feeds(s, p - 1)
    }
}

/// The number of the line that holds position `p`, counted from 1 (and not
/// beyond what the machine can count).
pub open spec fn line_at(s: Seq<u8>, p: int) -> nat {
    if feeds(s, p) < usize::MAX {
        feeds(s, p) + 1
    } else {
        feeds(s, p)
    }
}

/// A parse error for position `p`.
pub open spec fn is_error(e: ElectrolysisError, s: Seq<u8>, p: int, message: Seq<char>) -> bool {
    e is Parse && e->line == line_at(s, p) && e->message@ == message
}

/// `String::from_utf8`: bytes as text, if they are UTF-8.
#[verifier::external_body]
fn utf8_text(bytes: Vec<u8>) -> (r: Option<String>)
    ensures
        match r {
            Some(t) => valid_utf8(bytes@) && t@ == decode_utf8(bytes@),
            None => !valid_utf8(bytes@),
        },
{
    String::from_utf8(bytes).ok()
}

/// `str`'s `Debug` format.  Of a text of printable ASCII characters without
/// quotes and backslashes the result is stated: the text in double quotes; of
/// other texts it is only named.
#[verifier::external_body]
pub(crate) fn show_text(s: &str) -> (r: String)
    ensures
        all_shown_plainly(s@) ==> r@ == "\""@ + s@ + "\""@,
        !all_shown_plainly(s@) ==> r@ == other_debug_text(s@),
{
    format!("{:?}", s)
}

/// `char`'s `Debug` format.  Of a printable ASCII character that is no quote and
/// no backslash the result is stated: the character in single quotes; of others
/// it is only named.
#[verifier::external_body]
fn show_char(c: char) -> (r: String)
    ensures
        is_shown_plainly(c) ==> r@ == seq!['\'', c, '\''],
        !is_shown_plainly(c) ==> r@ == other_debug_char(c),
{
    format!("{:?}", c)
}

/// A reader of a property list.
pub struct PbxParser<'a> {
    src: &'a [u8],
    pos: usize,
    /// The line feeds before `pos`.
    feeds: usize,
}

/// The outcome of reading a string.
pub open spec fn string_agrees(
    r: Result<String, ElectrolysisError>,
    s: Seq<u8>,
    end: int,
    wanted: Result<(Seq<char>, int), (int, Seq<char>)>,
) -> bool {
    match wanted {
        Ok((t, q)) => r is Ok && r->Ok_0@ == t && end == q,
        Err((q, message)) => r is Err && is_error(r->Err_0, s, q, message),
    }
}

/// The outcome of reading a value.
pub open spec fn value_agrees(
    r: Result<PbxValue, ElectrolysisError>,
    s: Seq<u8>,
    end: int,
    wanted: Result<(Plist, int), (int, Seq<char>)>,
) -> bool {
    match wanted {
        Ok((v, q)) => r is Ok && plist(r->Ok_0) == v && end == q,
        Err((q, message)) => r is Err && is_error(r->Err_0, s, q, message),
    }
}

impl<'a> PbxParser<'a> {
    /// The bytes that are read.
    pub closed spec fn bytes(self) -> Seq<u8> {
        self.src@
    }

    /// The position up to which they have been read.
    pub closed spec fn position(self) -> int {
        self.pos as int
    }

    pub closed spec fn wf(self) -> bool {
        &&& self.pos <= self.src@.len()
        &&& self.feeds == feeds(self.src@, self.pos as int)
        &&& self.feeds <= self.pos
    }

    pub fn new(src: &'a str) -> (p: Self)
        ensures
            p.wf(),
            p.bytes() == encode_utf8(src@),
            p.position() == 0,
    {
        PbxParser { src: src.as_bytes(), pos: 0, feeds: 0 }
    }

    fn cur(&self) -> (b: Option<u8>)
        requires
            self.wf(),
        ensures
            b == if self.pos < self.src@.len() {
                Some(self.src@[self.pos as int])
            } else {
                None
            },
    {
        if self.pos < self.src.len() {
            Some(self.src[self.pos])
        } else {
            None
        }
    }

    fn peek(&self) -> (b: Option<u8>)
        requires
            self.wf(),
        ensures
            b == if self.pos + 1 < self.src@.len() {
                Some(self.src@[self.pos + 1])
            } else {
                None
            },
    {
        if self.pos < self.src.len() && self.src.len() - self.pos > 1 {
            Some(self.src[self.pos + 1])
        } else {
            None
        }
    }

    fn advance(&mut self) -> (b: Option<u8>)
        requires
            old(self).wf(),
        ensures
            final(self).wf(),
            final(self).src == old(self).src,
            b == if old(self).pos < old(self).src@.len() {
                Some(old(self).src@[old(self).pos as int])
            } else {
                None
            },
            final(self).pos == if old(self).pos < old(self).src@.len() {
                old(self).pos + 1
            } else {
                old(self).pos as int
            },
    {
        if self.pos < self.src.len() {
            let b = self.src[self.pos];
            if b == 10 {
                self.feeds = self.feeds + 1;
            }
            self.pos = self.pos + 1;
            Some(b)
        } else {
            None
        }
    }

    fn skip_ws_and_comments(&mut self)
        requires
            old(self).wf(),
        ensures
            final(self).wf(),
            final(self).src == old(self).src,
            final(self).pos == skip(old(self).src@, old(self).pos as int),
    {
        let ghost s = self.src@;
        let ghost start = self.pos as int;
        loop
            invariant
                self.wf(),
                self.src == old(self).src,
                s == self.src@,
                start == old(self).pos,
                skip(s, self.pos as int) == skip(s, start),
            ensures
                self.wf(),
                self.src == old(self).src,
                self.pos == skip(s, start),
            decreases s.len() - self.pos,
        {
            let ghost from = self.pos as int;
            match self.cur() {
                Some(b) => {
                    if b == 32 || b == 9 || b == 10 || b == 13 {
                        self.advance();
                    } else if b == 47 && self.peek() == Some(42u8) {
                        self.advance();
                        self.advance();
                        proof {
                            lemma_skip_block(s, from + 2);
                        }
                        while self.src.len() - self.pos > 1 && !(self.src[self.pos] == 42
                            && self.src[self.pos + 1] == 47)
                            invariant
                                self.wf(),
                                self.src == old(self).src,
                                s == self.src@,
                                from + 2 <= self.pos,
                                skip_block(s, self.pos as int) == skip_block(s, from + 2),
                            decreases s.len() - self.pos,
                        {
                            self.advance();
                        }
                        if self.src.len() - self.pos > 1 {
                            self.advance();
                            self.advance();
                        }
                        assert(self.pos == skip_block(s, from + 2));
                    } else if b == 47 && self.peek() == Some(47u8) {
                        proof {
                            lemma_skip_line(s, from);
                        }
                        while self.pos < self.src.len() && self.src[self.pos] != 10
                            invariant
                                self.wf(),
                                self.src == old(self).src,
                                s == self.src@,
                                from <= self.pos,
                                skip_line(s, self.pos as int) == skip_line(s, from),
                            decreases s.len() - self.pos,
                        {
                            self.advance();
                        }
                        assert(self.pos == skip_line(s, from));
                    } else {
                        break;
                    }
                },
                None => {
                    break;
                },
            }
        }
    }

    /// The error for the current position.
    fn err(&self, message: String) -> (e: ElectrolysisError)
        requires
            self.wf(),
        ensures
            is_error(e, self.src@, self.pos as int, message@),
    {
        let line: usize = if self.feeds < usize::MAX {
            self.feeds + 1
        } else {
            self.feeds
        };
        ElectrolysisError::Parse { line, message }
    }

    fn parse_quoted_string(&mut self) -> (r: Result<String, ElectrolysisError>)
        requires
            old(self).wf(),
            at(old(self).src@, old(self).pos as int, 34),
        ensures
            final(self).wf(),
            final(self).src == old(self).src,
            string_agrees(
                r,
                old(self).src@,
                final(self).pos as int,
                quoted(old(self).src@, old(self).pos as int),
            ),
    {
        let ghost s = self.src@;
        let ghost wanted = quoted_body(s, self.pos + 1, Seq::empty());
        self.advance();
        let mut bytes: Vec<u8> = Vec::new();
        proof {
            assert(bytes@ =~= Seq::empty());
        }
        loop
            invariant_except_break
                wanted == quoted_body(s, self.pos as int, bytes@),
            invariant
                self.wf(),
                self.src == old(self).src,
                s == self.src@,
                wanted == quoted_body(s, old(self).pos + 1, Seq::empty()),
            ensures
                self.wf(),
                self.src == old(self).src,
                wanted == Ok::<(Seq<u8>, int), (int, Seq<char>)>((bytes@, self.pos as int)),
            decreases s.len() - self.pos,
        {
            let ghost from = self.pos as int;
            match self.advance() {
                None => {
                    return Err(self.err(owned("unterminated quoted string")));
                },
                Some(34) => {
                    break;
                },
                Some(92) => {
                    match self.advance() {
                        Some(110) => {
                            bytes.push(10);
                        },
                        Some(116) => {
                            bytes.push(9);
                        },
                        Some(114) => {
                            bytes.push(13);
                        },
                        Some(34) => {
                            bytes.push(34);
                        },
                        Some(92) => {
                            bytes.push(92);
                        },
                        Some(85) => {
                            let ghost before = bytes@;
                            bytes.push(92);
                            bytes.push(85);
                            let mut k: usize = 0;
                            proof {
                                assert(bytes@ =~= before + s.subrange(from, from + 2));
                            }
                            while k < 4
                                invariant
                                    k <= 4,
                                    self.wf(),
                                    self.src == old(self).src,
                                    s == self.src@,
                                    from + 2 <= s.len(),
                                    from >= 0,
                                    self.pos == if from + 2 + k <= s.len() {
                                        from + 2 + k
                                    } else {
                                        s.len() as int
                                    },
                                    bytes@ == before + s.subrange(from, self.pos as int),
                                decreases 4 - k,
                            {
                                let ghost sofar = bytes@;
                                if let Some(c) = self.advance() {
                                    bytes.push(c);
                                    assert(bytes@ =~= before + s.subrange(from, self.pos as int));
                                }
                                k += 1;
                            }
                        },
                        Some(c) => {
                            bytes.push(92);
                            bytes.push(c);
                        },
                        None => {
                            return Err(self.err(owned("truncated escape sequence")));
                        },
                    }
                },
                Some(c) => {
                    bytes.push(c);
                },
            }
        }
        match utf8_text(bytes) {
            Some(t) => Ok(t),
            None => Err(self.err(owned("invalid UTF-8 in quoted string"))),
        }
    }

    fn parse_unquoted_string(&mut self) -> (r: Result<String, ElectrolysisError>)
        requires
            old(self).wf(),
            old(self).pos < old(self).src@.len(),
            !is_space(old(self).src@[old(self).pos as int]),
        ensures
            final(self).wf(),
            final(self).src == old(self).src,
            string_agrees(
                r,
                old(self).src@,
                final(self).pos as int,
                unquoted(old(self).src@, old(self).pos as int),
            ),
    {
        let ghost s = self.src@;
        let start = self.pos;
        let mut bytes: Vec<u8> = Vec::new();
        loop
            invariant
                self.wf(),
                self.src == old(self).src,
                s == self.src@,
                start == old(self).pos,
                start <= self.pos,
                bytes@ == s.subrange(start as int, self.pos as int),
                unquoted_end(s, self.pos as int) == unquoted_end(s, start as int),
            ensures
                self.wf(),
                self.src == old(self).src,
                bytes@ == s.subrange(start as int, self.pos as int),
                self.pos == unquoted_end(s, start as int),
            decreases s.len() - self.pos,
        {
            match self.cur() {
                None => {
                    break;
                },
                Some(b) => {
                    if b == 123 || b == 125 || b == 40 || b == 41 || b == 61 || b == 59 || b == 44
                        || b == 32 || b == 9 || b == 10 || b == 13 {
                        break;
                    }
                    if b == 47 && (self.peek() == Some(42u8) || self.peek() == Some(47u8)) {
                        break;
                    }
                    self.advance();
                    bytes.push(b);
                    assert(bytes@ =~= s.subrange(start as int, self.pos as int));
                },
            }
        }
        if self.pos == start {
            let mut message = owned("expected string value, found Some('");
            message.push(self.src[start] as char);
            message.push_str("')");
            assert(message@ =~= "expected string value, found Some('"@ + seq![s[start as int] as char]
                + "')"@);
            return Err(self.err(message));
        }
        match utf8_text(bytes) {
            Some(t) => Ok(t),
            None => Err(self.err(owned("invalid UTF-8 in unquoted string"))),
        }
    }

    fn parse_string(&mut self) -> (r: Result<String, ElectrolysisError>)
        requires
            old(self).wf(),
        ensures
            final(self).wf(),
            final(self).src == old(self).src,
            string_agrees(
                r,
                old(self).src@,
                final(self).pos as int,
                string(old(self).src@, old(self).pos as int),
            ),
    {
        proof {
            lemma_skip(self.src@, self.pos as int);
        }
        self.skip_ws_and_comments();
        match self.cur() {
            Some(34) => self.parse_quoted_string(),
            Some(_) => self.parse_unquoted_string(),
            None => Err(self.err(owned("unexpected EOF while reading string"))),
        }
    }

    fn parse_dict(&mut self) -> (r: Result<PbxValue, ElectrolysisError>)
        requires
            old(self).wf(),
            at(old(self).src@, old(self).pos as int, 123),
        ensures
            final(self).wf(),
            final(self).src == old(self).src,
            value_agrees(
                r,
                old(self).src@,
                final(self).pos as int,
                dict(old(self).src@, old(self).pos + 1, Seq::empty()),
            ),
        decreases old(self).src@.len() - old(self).pos, 0int,
    {
        let ghost s = self.src@;
        let ghost start = self.pos as int;
        let ghost wanted = dict(s, start + 1, Seq::empty());
        self.advance();
        let mut map = PbxDict::new();
        loop
            invariant_except_break
                wanted == dict(s, self.pos as int, entries(map)),
            invariant
                self.wf(),
                self.src == old(self).src,
                s == self.src@,
                start == old(self).pos,
                start < self.pos,
                wanted == dict(s, start + 1, Seq::empty()),
            ensures
                self.wf(),
                self.src == old(self).src,
                wanted == Ok::<(Plist, int), (int, Seq<char>)>(
                    (Plist::Dict(entries(map)), self.pos as int),
                ),
            decreases s.len() - self.pos,
        {
            let ghost p = self.pos as int;
            proof {
                lemma_skip(s, p);
            }
            self.skip_ws_and_comments();
            let ghost q = self.pos as int;
            match self.cur() {
                Some(125) => {
                    self.advance();
                    break;
                },
                None => {
                    return Err(self.err(owned("unterminated dict")));
                },
                _ => {},
            }
            proof {
                lemma_string(s, q);
            }
            let key = match self.parse_string() {
                Ok(k) => k,
                Err(e) => {
                    return Err(e);
                },
            };
            proof {
                lemma_skip(s, self.pos as int);
            }
            self.skip_ws_and_comments();
            let ghost e = self.pos as int;
            match self.cur() {
                Some(61) => {
                    self.advance();
                },
                c => {
                    let mut message = owned("expected '=' after key ");
                    message.push_str(show_text(key.as_str()).as_str());
                    message.push_str(", got ");
                    match c {
                        Some(b) => {
                            message.push_str("Some(");
                            message.push_str(show_char(b as char).as_str());
                            message.push_str(")");
                        },
                        None => {
                            message.push_str("None");
                        },
                    }
                    assert(message@ =~= expected_equals(key@, s, e));
                    return Err(self.err(message));
                },
            }
            proof {
                lemma_value(s, e + 1);
            }
            let val = match self.parse_value() {
                Ok(v) => v,
                Err(e) => {
                    return Err(e);
                },
            };
            proof {
                lemma_skip(s, self.pos as int);
            }
            self.skip_ws_and_comments();
            if self.cur() == Some(59u8) {
                self.advance();
            }
            map.insert(key, val);
        }
        Ok(PbxValue::Dict(map))
    }

    fn parse_array(&mut self) -> (r: Result<PbxValue, ElectrolysisError>)
        requires
            old(self).wf(),
            at(old(self).src@, old(self).pos as int, 40),
        ensures
            final(self).wf(),
            final(self).src == old(self).src,
            value_agrees(
                r,
                old(self).src@,
                final(self).pos as int,
                array(old(self).src@, old(self).pos + 1, Seq::empty()),
            ),
        decreases old(self).src@.len() - old(self).pos, 0int,
    {
        let ghost s = self.src@;
        let ghost start = self.pos as int;
        let ghost wanted = array(s, start + 1, Seq::empty());
        self.advance();
        let mut items: Vec<PbxValue> = Vec::new();
        proof {
            assert(plists(items@) =~= Seq::empty());
        }
        loop
            invariant_except_break
                wanted == array(s, self.pos as int, plists(items@)),
            invariant
                self.wf(),
                self.src == old(self).src,
                s == self.src@,
                start == old(self).pos,
                start < self.pos,
                wanted == array(s, start + 1, Seq::empty()),
            ensures
                self.wf(),
                self.src == old(self).src,
                wanted == Ok::<(Plist, int), (int, Seq<char>)>(
                    (Plist::Array(plists(items@)), self.pos as int),
                ),
            decreases s.len() - self.pos,
        {
            let ghost p = self.pos as int;
            proof {
                lemma_skip(s, p);
            }
            self.skip_ws_and_comments();
            let ghost q = self.pos as int;
            match self.cur() {
                Some(41) => {
                    self.advance();
                    break;
                },
                None => {
                    return Err(self.err(owned("unterminated array")));
                },
                _ => {},
            }
            proof {
                lemma_value(s, q);
            }
            let val = match self.parse_value() {
                Ok(v) => v,
                Err(e) => {
                    return Err(e);
                },
            };
            let ghost before = items@;
            items.push(val);
            proof {
                assert(plists(items@) =~= plists(before).push(plist(val)));
                lemma_skip(s, self.pos as int);
            }
            self.skip_ws_and_comments();
            if self.cur() == Some(44u8) {
                self.advance();
            }
        }
        let r = PbxValue::Array(items);
        assert(plist(r)->Array_0 =~= plists(items@));
        Ok(r)
    }

    fn parse_value(&mut self) -> (r: Result<PbxValue, ElectrolysisError>)
        requires
            old(self).wf(),
        ensures
            final(self).wf(),
            final(self).src == old(self).src,
            value_agrees(
                r,
                old(self).src@,
                final(self).pos as int,
                value(old(self).src@, old(self).pos as int),
            ),
        decreases old(self).src@.len() - old(self).pos, 1int,
    {
        proof {
            lemma_skip(self.src@, self.pos as int);
        }
        self.skip_ws_and_comments();
        match self.cur() {
            Some(123) => self.parse_dict(),
            Some(40) => self.parse_array(),
            Some(34) => match self.parse_quoted_string() {
                Ok(t) => Ok(PbxValue::Str(t)),
                Err(e) => Err(e),
            },
            Some(_) => match self.parse_unquoted_string() {
                Ok(t) => Ok(PbxValue::Str(t)),
                Err(e) => Err(e),
            },
            None => Err(self.err(owned("unexpected EOF"))),
        }
    }

    /// Reads the value of a file; a header `// !$*UTF8*$!` is a comment.
    pub fn parse_file(&mut self) -> (r: Result<PbxValue, ElectrolysisError>)
        requires
            old(self).wf(),
        ensures
            final(self).wf(),
            final(self).bytes() == old(self).bytes(),
            value_agrees(
                r,
                old(self).bytes(),
                final(self).position(),
                value(old(self).bytes(), old(self).position()),
            ),
    {
        self.parse_value()
    }
}

// ── Projects ─────────────────────────────────────────────────────────────────

/// The fields of an object.
pub type PbxObject = PbxDict;

/// A project as a mathematical object.
pub ghost struct Project {
    pub root_object: Seq<char>,
    pub objects: Seq<(Seq<char>, Plist)>,
    pub archive_version: Seq<char>,
    pub object_version: Seq<char>,
}

/// The text of a value, if it is a string.
pub open spec fn str_of(v: Option<Plist>) -> Option<Seq<char>> {
    match v {
        Some(Plist::Str(s)) => Some(s),
        _ => None,
    }
}

/// The entries of a value, if it is a dictionary.
pub open spec fn dict_of(v: Option<Plist>) -> Option<Seq<(Seq<char>, Plist)>> {
    match v {
        Some(Plist::Dict(es)) => Some(es),
        _ => None,
    }
}

/// The strings among some values.
pub open spec fn strings_of(vs: Seq<Plist>) -> Seq<Seq<char>>
    decreases vs.len(),
{
    if vs.len() == 0 {
        Seq::empty()
    } else {
        match vs.last() {
            Plist::Str(s) => strings_of(vs.drop_last()).push(s),
            _ => strings_of(vs.drop_last()),
        }
    }
}

/// The strings of a value, if it is an array.
pub open spec fn array_of(v: Option<Plist>) -> Option<Seq<Seq<char>>> {
    match v {
        Some(Plist::Array(vs)) => Some(strings_of(vs)),
        _ => None,
    }
}

/// A field of the object `uuid`.
pub open spec fn field(
    objects: Seq<(Seq<char>, Plist)>,
    uuid: Seq<char>,
    name: Seq<char>,
) -> Option<Plist> {
    match dict_of(lookup(objects, uuid)) {
        Some(es) => lookup(es, name),
        None => None,
    }
}

/// The entries whose value is a dictionary.
pub open spec fn only_dicts(es: Seq<(Seq<char>, Plist)>) -> Seq<(Seq<char>, Plist)> {
    es.filter(|e: (Seq<char>, Plist)| e.1 is Dict)
}

/// The project that a property list stands for, or what it lacks.
pub open spec fn project_of(v: Plist) -> Result<Project, Seq<char>> {
    match dict_of(Some(v)) {
        None => Err("top-level value is not a dict"@),
        Some(es) => match str_of(lookup(es, "rootObject"@)) {
            None => Err("missing rootObject"@),
            Some(root_object) => match dict_of(lookup(es, "objects"@)) {
                None => Err("missing objects dict"@),
                Some(objects) => Ok(
                    Project {
                        root_object,
                        objects: only_dicts(objects),
                        archive_version: match str_of(lookup(es, "archiveVersion"@)) {
                            Some(s) => s,
                            None => "1"@,
                        },
                        object_version: match str_of(lookup(es, "objectVersion"@)) {
                            Some(s) => s,
                            None => "46"@,
                        },
                    },
                ),
            },
        },
    }
}

/// A project: its objects by their UUIDs, and the UUID of the root object.
#[derive(Debug)]
pub struct PbxProject {
    pub root_object: String,
    pub objects: PbxDict,
    pub archive_version: String,
    pub object_version: String,
}

impl View for PbxProject {
    type V = Project;

    open spec fn view(&self) -> Project {
        Project {
            root_object: self.root_object@,
            objects: entries(self.objects),
            archive_version: self.archive_version@,
            object_version: self.object_version@,
        }
    }
}

/// The view of a text that may be missing.
pub open spec fn str_view(s: Option<&str>) -> Option<Seq<char>> {
    match s {
        Some(x) => Some(x@),
        None => None,
    }
}

impl PbxProject {
    pub fn get_object(&self, uuid: &str) -> (r: Option<&PbxObject>)
        ensures
            match r {
                Some(o) => dict_of(lookup(self@.objects, uuid@)) == Some(entries(*o)),
                None => dict_of(lookup(self@.objects, uuid@)) is None,
            },
    {
        match self.objects.get(uuid) {
            Some(v) => v.as_dict(),
            None => None,
        }
    }

    /// The raw value of a field.
    pub fn raw_field(&self, uuid: &str, name: &str) -> (r: Option<&PbxValue>)
        ensures
            match r {
                Some(v) => field(self@.objects, uuid@, name@) == Some(plist(*v)),
                None => field(self@.objects, uuid@, name@) is None,
            },
    {
        match self.get_object(uuid) {
            Some(o) => o.get(name),
            None => None,
        }
    }

    pub fn str_field(&self, uuid: &str, name: &str) -> (r: Option<&str>)
        ensures
            str_view(r) == str_of(field(self@.objects, uuid@, name@)),
    {
        match self.raw_field(uuid, name) {
            Some(v) => v.as_str(),
            None => None,
        }
    }

    pub fn isa(&self, uuid: &str) -> (r: Option<&str>)
        ensures
            str_view(r) == str_of(field(self@.objects, uuid@, "isa"@)),
    {
        self.str_field(uuid, "isa")
    }

    /// The strings of a field that is an array.
    pub fn array_field(&self, uuid: &str, name: &str) -> (r: Option<Vec<String>>)
        ensures
            match r {
                Some(v) => array_of(field(self@.objects, uuid@, name@)) == Some(texts(v@)),
                None => array_of(field(self@.objects, uuid@, name@)) is None,
            },
    {
        match self.raw_field(uuid, name) {
            Some(v) => match v.as_array() {
                Some(a) => Some(strings(a)),
                None => None,
            },
            None => None,
        }
    }
}

/// The strings among some values.
pub fn strings(a: &Vec<PbxValue>) -> (r: Vec<String>)
    ensures
        texts(r@) == strings_of(plists(a@)),
{
    let mut r: Vec<String> = Vec::new();
    let mut i: usize = 0;
    proof {
        assert(plists(a@).take(0) =~= Seq::empty());
        assert(texts(r@) =~= Seq::empty());
    }
    while i < a.len()
        invariant
            i <= a@.len(),
            texts(r@) == strings_of(plists(a@).take(i as int)),
        decreases a.len() - i,
    {
        let ghost before = r@;
        proof {
            assert(plists(a@).take(i + 1).drop_last() =~= plists(a@).take(i as int));
            assert(plists(a@).take(i + 1).last() == plist(a@[i as int]));
        }
        if let Some(t) = a[i].str_val() {
            r.push(t);
            assert(r@ =~= before.push(t));
            assert(texts(r@) =~= texts(before).push(t@));
        }
        i += 1;
    }
    assert(plists(a@).take(i as int) =~= plists(a@));
    r
}

/// The entries of a dictionary whose values are dictionaries.
fn copy_dicts(d: &PbxDict) -> (r: PbxDict)
    ensures
        entries(r) == only_dicts(entries(*d)),
{
    let ghost es = entries(*d);
    let ghost pred = |e: (Seq<char>, Plist)| e.1 is Dict;
    let mut r = PbxDict::new();
    let n: usize = d.len();
    let mut i: usize = 0;
    proof {
        assert(es.take(0) =~= Seq::empty());
        assert(es.take(0).filter(pred) =~= Seq::empty()) by {
            reveal(Seq::filter);
        }
    }
    while i < n
        invariant
            i <= n,
            n == es.len(),
            es == entries(*d),
            pred == (|e: (Seq<char>, Plist)| e.1 is Dict),
            entries(r) == es.take(i as int).filter(pred),
        decreases n - i,
    {
        if let Some((k, v)) = d.get_index(i) {
            let ghost done = es.take(i as int);
            proof {
                assert(es.take(i + 1).drop_last() =~= done);
                assert(es.take(i + 1).filter(pred) == if pred(es[i as int]) {
                    done.filter(pred).push(es[i as int])
                } else {
                    done.filter(pred)
                }) by {
                    reveal(Seq::filter);
                }
                assert forall|j: int| 0 <= j < done.filter(pred).len() implies (
                #[trigger] done.filter(pred)[j]).0 != k@ by {
                    done.lemma_filter_contains_rev(pred, done.filter(pred)[j]);
                    let m = choose|m: int| 0 <= m < done.len() && done[m] == done.filter(pred)[j];
                    assert(es[m] == done[m]);
                }
                lemma_no_slot(done.filter(pred), k@);
            }
            if v.as_dict().is_some() {
                r.insert(owned(k.as_str()), v.copy());
            }
        }
        i += 1;
    }
    assert(es.take(i as int) =~= es);
    r
}

/// The project that a text describes, if it describes one.
pub open spec fn project_in(content: Seq<char>) -> Option<Project> {
    match value(encode_utf8(content), 0) {
        Ok((v, _)) => match project_of(v) {
            Ok(project) => Some(project),
            Err(_) => None,
        },
        Err(_) => None,
    }
}

/// What is wrong with a text that does not describe a project.
pub open spec fn complaint(content: Seq<char>) -> Seq<char> {
    match value(encode_utf8(content), 0) {
        Err((p, message)) => "Parse error at line "@ + crate::text::decimal(
            line_at(encode_utf8(content), p),
        ) + ": "@ + message,
        Ok((v, _)) => match project_of(v) {
            Err(message) => "Project structure error: "@ + message,
            Ok(_) => Seq::empty(),
        },
    }
}

/// Reads the project that a text describes.
pub fn parse_project(content: &str) -> (r: Result<PbxProject, ElectrolysisError>)
    ensures
        match value(encode_utf8(content@), 0) {
            Err((p, message)) => r is Err && is_error(
                r->Err_0,
                encode_utf8(content@),
                p,
                message,
            ),
            Ok((v, _)) => match project_of(v) {
                Err(message) => r is Err && r->Err_0 is Structure && r->Err_0->Structure_0@
                    == message,
                Ok(project) => r is Ok && r->Ok_0@ == project,
            },
        },
{
    let mut p = PbxParser::new(content);
    let root = match p.parse_file() {
        Ok(v) => v,
        Err(e) => {
            return Err(e);
        },
    };
    let top = match root.as_dict() {
        Some(d) => d,
        None => {
            return Err(ElectrolysisError::Structure(owned("top-level value is not a dict")));
        },
    };
    let root_object = match string_entry(top, "rootObject") {
        Some(s) => s,
        None => {
            return Err(ElectrolysisError::Structure(owned("missing rootObject")));
        },
    };
    let archive_version = match string_entry(top, "archiveVersion") {
        Some(s) => s,
        None => owned("1"),
    };
    let object_version = match string_entry(top, "objectVersion") {
        Some(s) => s,
        None => owned("46"),
    };
    let found = match top.get("objects") {
        Some(v) => v.as_dict(),
        None => None,
    };
    match found {
        Some(d) => Ok(
            PbxProject { root_object, objects: copy_dicts(d), archive_version, object_version },
        ),
        None => Err(ElectrolysisError::Structure(owned("missing objects dict"))),
    }
}

/// The text of an entry that is a string.
fn string_entry(d: &PbxDict, key: &str) -> (r: Option<String>)
    ensures
        crate::text::opt_view(r) == str_of(lookup(entries(*d), key@)),
{
    match d.get(key) {
        Some(v) => v.str_val(),
        None => None,
    }
}

} // verus!
