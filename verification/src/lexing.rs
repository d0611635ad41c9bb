//! The tokens of a property list, read byte by byte.
//!
//! The parser goes from position to position.  Here the same tokens are read by
//! a state that goes from byte to byte, so that the tokens of a text are those of
//! its parts.

use crate::parser::{
    at, is_delimiter, is_space, lemma_quoted_body, lemma_skip, lemma_skip_block, lemma_skip_line,
    lemma_unquoted_end, quoted_body, skip, skip_block, skip_line, unquoted_end,
};
use vstd::prelude::*;

verus! {

/// A token.
pub ghost enum Tok {
    Open,
    Close,
    ListOpen,
    ListClose,
    Equals,
    Semicolon,
    Comma,
    /// A string, as the bytes that it stands for.
    Text(Seq<u8>),
}

/// Where the reading stands.
pub ghost enum Mode {
    Between,
    /// Behind a slash between tokens.
    Slash,
    Word(Seq<u8>),
    /// Behind a slash in a word.
    WordSlash(Seq<u8>),
    Quote(Seq<u8>),
    /// Behind a backslash in quotes.
    Escape(Seq<u8>),
    /// In quotes, with so many bytes to be kept as they are.
    Keep(Seq<u8>, nat),
    /// In a comment up to the end of the line.
    Line,
    Block,
    /// Behind an asterisk in a block comment.
    Star,
}

pub open spec fn between_step(b: u8) -> Mode {
    if b == 47 {
        Mode::Slash
    } else if b == 34 {
        Mode::Quote(Seq::empty())
    } else if is_delimiter(b) {
        Mode::Between
    } else {
        Mode::Word(seq![b])
    }
}

/// The token that a byte is.
pub open spec fn punctuation(b: u8) -> Seq<Tok> {
    if b == 123 {
        seq![Tok::Open]
    } else if b == 125 {
        seq![Tok::Close]
    } else if b == 40 {
        seq![Tok::ListOpen]
    } else if b == 41 {
        seq![Tok::ListClose]
    } else if b == 61 {
        seq![Tok::Equals]
    } else if b == 59 {
        seq![Tok::Semicolon]
    } else if b == 44 {
        seq![Tok::Comma]
    } else {
        Seq::empty()
    }
}

pub open spec fn word_step(acc: Seq<u8>, b: u8) -> Mode {
    if is_delimiter(b) {
        Mode::Between
    } else if b == 47 {
        Mode::WordSlash(acc)
    } else {
        Mode::Word(acc.push(b))
    }
}

pub open spec fn word_tokens(acc: Seq<u8>, b: u8) -> Seq<Tok> {
    if is_delimiter(b) {
        seq![Tok::Text(acc)] + punctuation(b)
    } else {
        Seq::empty()
    }
}

/// The mode behind one more byte.
pub open spec fn mode_step(m: Mode, b: u8) -> Mode {
    match m {
        Mode::Between => between_step(b),
        Mode::Slash => if b == 42 {
            Mode::Block
        } else if b == 47 {
            Mode::Line
        } else {
            word_step(seq![47u8], b)
        },
        Mode::Word(acc) => word_step(acc, b),
        Mode::WordSlash(acc) => if b == 42 {
            Mode::Block
        } else if b == 47 {
            Mode::Line
        } else {
            word_step(acc.push(47), b)
        },
        Mode::Quote(acc) => if b == 34 {
            Mode::Between
        } else if b == 92 {
            Mode::Escape(acc)
        } else {
            Mode::Quote(acc.push(b))
        },
        Mode::Escape(acc) => if b == 110 {
            Mode::Quote(acc.push(10))
        } else if b == 116 {
            Mode::Quote(acc.push(9))
        } else if b == 114 {
            Mode::Quote(acc.push(13))
        } else if b == 34 || b == 92 {
            Mode::Quote(acc.push(b))
        } else if b == 85 {
            Mode::Keep(acc.push(92).push(85), 4)
        } else {
            Mode::Quote(acc.push(92).push(b))
        },
        Mode::Keep(acc, n) => if n <= 1 {
            Mode::Quote(acc.push(b))
        } else {
            Mode::Keep(acc.push(b), (n - 1) as nat)
        },
        Mode::Line => if b == 10 {
            Mode::Between
        } else {
            Mode::Line
        },
        Mode::Block => if b == 42 {
            Mode::Star
        } else {
            Mode::Block
        },
        Mode::Star => if b == 47 {
            Mode::Between
        } else if b == 42 {
            Mode::Star
        } else {
            Mode::Block
        },
    }
}

/// The tokens that are complete with one more byte.
pub open spec fn step_tokens(m: Mode, b: u8) -> Seq<Tok> {
    match m {
        Mode::Between => punctuation(b),
        Mode::Slash => if b == 42 || b == 47 {
            Seq::empty()
        } else {
            word_tokens(seq![47u8], b)
        },
        Mode::Word(acc) => word_tokens(acc, b),
        Mode::WordSlash(acc) => if b == 42 || b == 47 {
            seq![Tok::Text(acc)]
        } else {
            word_tokens(acc.push(47), b)
        },
        Mode::Quote(acc) => if b == 34 {
            seq![Tok::Text(acc)]
        } else {
            Seq::empty()
        },
        _ => Seq::empty(),
    }
}

/// The mode behind all bytes from position `p` on.
pub open spec fn mode_from(m: Mode, s: Seq<u8>, p: int) -> Mode
    decreases s.len() - p,
{
    if p < 0 || p >= s.len() {
        m
    } else {
        mode_from(mode_step(m, s[p]), s, p + 1)
    }
}

/// The tokens of the bytes from position `p` on.
pub open spec fn toks_from(m: Mode, s: Seq<u8>, p: int) -> Seq<Tok>
    decreases s.len() - p,
{
    if p < 0 || p >= s.len() {
        Seq::empty()
    } else {
        step_tokens(m, s[p]) + toks_from(mode_step(m, s[p]), s, p + 1)
    }
}

/// The rest of the bytes can be read, and ends between tokens.
pub open spec fn ends_well(m: Mode, s: Seq<u8>, p: int) -> bool {
    mode_from(m, s, p) == Mode::Between
}

/// Reading on from one place in one mode, and from another in another, comes to
/// the same, but for tokens before.
spec fn same_rest(m: Mode, s: Seq<u8>, p: int, before: Seq<Tok>, n: Mode, q: int) -> bool {
    &&& toks_from(m, s, p) == before + toks_from(n, s, q)
    &&& mode_from(m, s, p) == mode_from(n, s, q)
}

proof fn lemma_empty_before(ts: Seq<Tok>)
    ensures
        Seq::<Tok>::empty() + ts == ts,
{
    assert(Seq::<Tok>::empty() + ts =~= ts);
}

// ── Comments and white space ─────────────────────────────────────────────────

proof fn lemma_line(s: Seq<u8>, p: int)
    requires
        0 <= p <= s.len(),
        ends_well(Mode::Line, s, p),
    ensures
        same_rest(Mode::Line, s, p, Seq::empty(), Mode::Between, skip_line(s, p)),
        p <= skip_line(s, p) < s.len(),
    decreases s.len() - p,
{
    lemma_skip_line(s, p);
    lemma_empty_before(toks_from(Mode::Between, s, skip_line(s, p)));
    if p < s.len() {
        lemma_empty_before(toks_from(mode_step(Mode::Line, s[p]), s, p + 1));
        if s[p] != 10 {
            lemma_line(s, p + 1);
        } else {
            lemma_empty_before(toks_from(Mode::Between, s, p + 1));
        }
    }
}

proof fn lemma_block(s: Seq<u8>, p: int)
    requires
        0 <= p <= s.len(),
        ends_well(Mode::Block, s, p),
    ensures
        same_rest(Mode::Block, s, p, Seq::empty(), Mode::Between, skip_block(s, p)),
        p < skip_block(s, p) <= s.len(),
    decreases s.len() - p,
{
    lemma_skip_block(s, p);
    lemma_empty_before(toks_from(Mode::Between, s, skip_block(s, p)));
    if p < s.len() {
        lemma_empty_before(toks_from(mode_step(Mode::Block, s[p]), s, p + 1));
        if p + 1 < s.len() {
            lemma_empty_before(toks_from(mode_step(Mode::Star, s[p + 1]), s, p + 2));
            lemma_empty_before(toks_from(mode_step(Mode::Block, s[p + 1]), s, p + 2));
            if s[p] == 42 && s[p + 1] == 47 {
            } else {
                assert(mode_from(mode_step(Mode::Block, s[p]), s, p + 1) == mode_from(
                    Mode::Block,
                    s,
                    p + 1,
                ));
                lemma_block(s, p + 1);
            }
        } else {
            assert(mode_from(mode_step(Mode::Block, s[p]), s, p + 1) == mode_step(
                Mode::Block,
                s[p],
            ));
        }
    }
}

/// White space and comments hold no tokens.
pub proof fn lemma_skipped(s: Seq<u8>, p: int)
    requires
        0 <= p <= s.len(),
        ends_well(Mode::Between, s, p),
    ensures
        toks_from(Mode::Between, s, p) == toks_from(Mode::Between, s, skip(s, p)),
        ends_well(Mode::Between, s, skip(s, p)),
        p <= skip(s, p) <= s.len(),
    decreases s.len() - p,
{
    lemma_skip(s, p);
    if p < s.len() {
        let m = mode_step(Mode::Between, s[p]);
        if is_space(s[p]) {
            lemma_empty_before(toks_from(m, s, p + 1));
            lemma_skipped(s, p + 1);
        } else if at(s, p, 47) && at(s, p + 1, 42) {
            lemma_empty_before(toks_from(m, s, p + 1));
            lemma_empty_before(toks_from(Mode::Block, s, p + 2));
            assert(m == Mode::Slash && mode_step(m, s[p + 1]) == Mode::Block);
            assert(mode_from(m, s, p + 1) == mode_from(Mode::Block, s, p + 2));
            lemma_block(s, p + 2);
            lemma_empty_before(toks_from(Mode::Between, s, skip_block(s, p + 2)));
            lemma_skipped(s, skip_block(s, p + 2));
        } else if at(s, p, 47) && at(s, p + 1, 47) {
            lemma_empty_before(toks_from(m, s, p + 1));
            lemma_empty_before(toks_from(Mode::Line, s, p + 2));
            assert(m == Mode::Slash && mode_step(m, s[p + 1]) == Mode::Line);
            assert(mode_from(m, s, p + 1) == mode_from(Mode::Line, s, p + 2));
            lemma_line(s, p + 2);
            lemma_skip_line(s, p);
            assert(skip_line(s, p) == skip_line(s, p + 1));
            assert(skip_line(s, p + 1) == skip_line(s, p + 2));
            lemma_empty_before(toks_from(Mode::Between, s, skip_line(s, p)));
            lemma_skipped(s, skip_line(s, p));
        }
    }
}

// ── Strings ──────────────────────────────────────────────────────────────────

#[verifier::rlimit(40)]
#[verifier::spinoff_prover]
proof fn lemma_word(s: Seq<u8>, q: int, p: int)
    requires
        0 <= q < p <= s.len(),
        ends_well(Mode::Word(s.subrange(q, p)), s, p),
    ensures
        same_rest(
            Mode::Word(s.subrange(q, p)),
            s,
            p,
            seq![Tok::Text(s.subrange(q, unquoted_end(s, p)))],
            Mode::Between,
            unquoted_end(s, p),
        ),
        p <= unquoted_end(s, p) < s.len(),
    decreases s.len() - p,
{
    let acc = s.subrange(q, p);
    let text = seq![Tok::Text(acc)];
    lemma_unquoted_end(s, p);
    if p < s.len() {
        let b = s[p];
        assert(s.subrange(q, p + 1) =~= acc.push(b));
        if is_delimiter(b) {
            assert(text + punctuation(b) + toks_from(Mode::Between, s, p + 1) =~= text + (
            punctuation(b) + toks_from(Mode::Between, s, p + 1)));
        } else if b == 47 {
            if p + 1 < s.len() {
                let c = s[p + 1];
                lemma_empty_before(toks_from(Mode::WordSlash(acc), s, p + 1));
                lemma_empty_before(toks_from(Mode::Slash, s, p + 1));
                if c == 42 || c == 47 {
                    let m = mode_step(Mode::Slash, c);
                    lemma_empty_before(toks_from(m, s, p + 2));
                    assert(mode_step(Mode::WordSlash(acc), c) == m);
                    assert(toks_from(Mode::WordSlash(acc), s, p + 1) == text + toks_from(
                        m,
                        s,
                        p + 2,
                    ));
                    assert(toks_from(Mode::Slash, s, p + 1) == toks_from(m, s, p + 2));
                    assert(toks_from(Mode::Between, s, p) == toks_from(m, s, p + 2));
                    assert(mode_from(Mode::Slash, s, p + 1) == mode_from(m, s, p + 2));
                    assert(mode_from(Mode::Between, s, p) == mode_from(m, s, p + 2));
                    assert(unquoted_end(s, p) == p);
                } else {
                    assert(toks_from(Mode::WordSlash(acc), s, p + 1) == toks_from(
                        Mode::Word(acc.push(47)),
                        s,
                        p + 1,
                    ));
                    assert(mode_from(Mode::WordSlash(acc), s, p + 1) == mode_from(
                        Mode::Word(acc.push(47)),
                        s,
                        p + 1,
                    ));
                    lemma_word(s, q, p + 1);
                }
            } else {
                assert(mode_from(Mode::WordSlash(acc), s, p + 1) == Mode::WordSlash(acc));
            }
        } else {
            lemma_empty_before(toks_from(Mode::Word(acc.push(b)), s, p + 1));
            lemma_word(s, q, p + 1);
        }
    }
}

/// The string at a position where a word begins.
pub proof fn lemma_unquoted_token(s: Seq<u8>, q: int)
    requires
        0 <= q < s.len(),
        ends_well(Mode::Between, s, q),
        !is_delimiter(s[q]),
        s[q] != 34,
        !(at(s, q, 47) && (at(s, q + 1, 42) || at(s, q + 1, 47))),
    ensures
        ({
            let e = unquoted_end(s, q);
            &&& q < e < s.len()
            &&& toks_from(Mode::Between, s, q) == seq![Tok::Text(s.subrange(q, e))] + toks_from(
                Mode::Between,
                s,
                e,
            )
            &&& ends_well(Mode::Between, s, e)
        }),
{
    let b = s[q];
    assert(s.subrange(q, q + 1) =~= seq![b]);
    let m = mode_step(Mode::Between, b);
    lemma_empty_before(toks_from(m, s, q + 1));
    if b == 47 {
        if q + 1 < s.len() {
            let c = s[q + 1];
            assert(toks_from(Mode::Slash, s, q + 1) == toks_from(Mode::Word(seq![47u8]), s, q + 1));
            assert(mode_from(Mode::Slash, s, q + 1) == mode_from(Mode::Word(seq![47u8]), s, q + 1));
        } else {
            assert(mode_from(Mode::Slash, s, q + 1) == Mode::Slash);
        }
    }
    assert(unquoted_end(s, q) == unquoted_end(s, q + 1));
    lemma_word(s, q, q + 1);
}

#[verifier::rlimit(60)]
#[verifier::spinoff_prover]
proof fn lemma_quote(s: Seq<u8>, p: int, acc: Seq<u8>)
    requires
        0 <= p <= s.len(),
        ends_well(Mode::Quote(acc), s, p),
    ensures
        quoted_body(s, p, acc) is Ok,
        ({
            let (bytes, r) = quoted_body(s, p, acc)->Ok_0;
            &&& same_rest(Mode::Quote(acc), s, p, seq![Tok::Text(bytes)], Mode::Between, r)
            &&& p < r <= s.len()
        }),
    decreases s.len() - p,
{
    lemma_quoted_body(s, p, acc);
    if p < s.len() {
        let b = s[p];
        lemma_empty_before(toks_from(mode_step(Mode::Quote(acc), b), s, p + 1));
        if b == 34 {
        } else if b != 92 {
            lemma_quote(s, p + 1, acc.push(b));
        } else if p + 1 < s.len() {
            let c = s[p + 1];
            let m = mode_step(Mode::Escape(acc), c);
            lemma_empty_before(toks_from(m, s, p + 2));
            if c == 110 {
                lemma_quote(s, p + 2, acc.push(10));
            } else if c == 116 {
                lemma_quote(s, p + 2, acc.push(9));
            } else if c == 114 {
                lemma_quote(s, p + 2, acc.push(13));
            } else if c == 34 || c == 92 {
                lemma_quote(s, p + 2, acc.push(c));
            } else if c == 85 {
                lemma_keep(s, p, acc);
                lemma_quote(s, p + 6, acc + s.subrange(p, p + 6));
            } else {
                lemma_quote(s, p + 2, acc.push(92).push(c));
            }
        } else {
            assert(mode_from(Mode::Escape(acc), s, p + 1) == Mode::Escape(acc));
        }
    }
}

proof fn lemma_keep(s: Seq<u8>, p: int, acc: Seq<u8>)
    requires
        0 <= p,
        p + 1 < s.len(),
        s[p] == 92,
        s[p + 1] == 85,
        ends_well(Mode::Keep(acc.push(92).push(85), 4), s, p + 2),
    ensures
        p + 6 <= s.len(),
        same_rest(
            Mode::Keep(acc.push(92).push(85), 4),
            s,
            p + 2,
            Seq::empty(),
            Mode::Quote(acc + s.subrange(p, p + 6)),
            p + 6,
        ),
{
    let k0 = acc.push(92).push(85);
    reveal_with_fuel(mode_from, 5);
    reveal_with_fuel(toks_from, 5);
    if p + 6 <= s.len() {
        let k4 = k0.push(s[p + 2]).push(s[p + 3]).push(s[p + 4]).push(s[p + 5]);
        assert(k4 =~= acc + s.subrange(p, p + 6));
        let ts = toks_from(Mode::Quote(k4), s, p + 6);
        lemma_empty_before(ts);
    }
}

/// The string whose opening quote stands at a position.
pub proof fn lemma_quoted_token(s: Seq<u8>, q: int)
    requires
        0 <= q < s.len(),
        ends_well(Mode::Between, s, q),
        s[q] == 34,
    ensures
        quoted_body(s, q + 1, Seq::empty()) is Ok,
        ({
            let (bytes, r) = quoted_body(s, q + 1, Seq::empty())->Ok_0;
            &&& q < r <= s.len()
            &&& toks_from(Mode::Between, s, q) == seq![Tok::Text(bytes)] + toks_from(
                Mode::Between,
                s,
                r,
            )
            &&& ends_well(Mode::Between, s, r)
        }),
{
    lemma_empty_before(toks_from(Mode::Quote(Seq::empty()), s, q + 1));
    lemma_quote(s, q + 1, Seq::empty());
}

/// A byte that is a token of its own.
pub proof fn lemma_punctuation(s: Seq<u8>, q: int)
    requires
        0 <= q < s.len(),
        ends_well(Mode::Between, s, q),
        punctuation(s[q]).len() > 0,
    ensures
        toks_from(Mode::Between, s, q) == punctuation(s[q]) + toks_from(Mode::Between, s, q + 1),
        ends_well(Mode::Between, s, q + 1),
{
}

// ── Parts ────────────────────────────────────────────────────────────────────

proof fn lemma_shift(m: Mode, a: Seq<u8>, b: Seq<u8>, p: int)
    requires
        0 <= p <= b.len(),
    ensures
        toks_from(m, a + b, a.len() + p) == toks_from(m, b, p),
        mode_from(m, a + b, a.len() + p) == mode_from(m, b, p),
    decreases b.len() - p,
{
    if p < b.len() {
        assert((a + b)[a.len() + p] == b[p]);
        lemma_shift(mode_step(m, b[p]), a, b, p + 1);
    }
}

/// The tokens of a text are those of its parts.
pub proof fn lemma_parts(m: Mode, a: Seq<u8>, b: Seq<u8>, p: int)
    requires
        0 <= p <= a.len(),
    ensures
        toks_from(m, a + b, p) == toks_from(m, a, p) + toks_from(mode_from(m, a, p), b, 0),
        mode_from(m, a + b, p) == mode_from(mode_from(m, a, p), b, 0),
    decreases a.len() - p,
{
    if p < a.len() {
        assert((a + b)[p] == a[p]);
        let n = mode_step(m, a[p]);
        lemma_parts(n, a, b, p + 1);
        let rest = toks_from(mode_from(n, a, p + 1), b, 0);
        assert(step_tokens(m, a[p]) + (toks_from(n, a, p + 1) + rest) =~= (step_tokens(m, a[p])
            + toks_from(n, a, p + 1)) + rest);
    } else {
        lemma_shift(m, a, b, 0);
        lemma_empty_before(toks_from(m, b, 0));
    }
}

} // verus!
