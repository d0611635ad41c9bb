//! The facts of a text, line by line.

use crate::lexing::{
    ends_well, lemma_parts, mode_from, mode_step, step_tokens, toks_from, Mode, Tok,
};
use crate::parser::{is_delimiter, value};
use crate::pattern::{hits_from, is_hex, starts_hex, uuid_hit, Hit, UUID};
use crate::reading::{
    facts_of, law_parser_reads_facts, lemma_run_concat, repeats_key, run, run_facts, worth, Fact,
    Spot,
};
use crate::rewritten_laws::{lemma_hit, rewritten};
use crate::shape::fold;
use crate::text::unlines;
use crate::uniquifier::{is_new_uuid, is_upper_hex};
use vstd::prelude::*;
use vstd::utf8::{
    decode_utf8, encode_scalar, encode_utf8, is_ascii_chars, is_ascii_chars_encode_utf8, valid_utf8,
};

verus! {

// ── Lines ────────────────────────────────────────────────────────────────────

/// The bytes of a line and its line feed.
pub open spec fn line_bytes(l: Seq<char>) -> Seq<u8> {
    encode_utf8(l) + seq![10u8]
}

/// The tokens of a line.
pub open spec fn line_toks(l: Seq<char>) -> Seq<Tok> {
    toks_from(Mode::Between, line_bytes(l), 0)
}

/// No string and no comment goes beyond the end of the line.
pub open spec fn is_closed_line(l: Seq<char>) -> bool {
    ends_well(Mode::Between, line_bytes(l), 0)
}

pub open spec fn all_closed(ls: Seq<Seq<char>>) -> bool {
    forall|i: int| 0 <= i < ls.len() ==> is_closed_line(#[trigger] ls[i])
}

/// Reading a line.
pub open spec fn read_line(spot: Spot, l: Seq<char>) -> Spot {
    run(spot, line_toks(l))
}

pub open spec fn reading() -> spec_fn(Spot, Seq<char>) -> Spot {
    |spot: Spot, l: Seq<char>| read_line(spot, l)
}

/// Where the reading stands behind some lines.
pub open spec fn spot_of(ls: Seq<Seq<char>>) -> Spot {
    fold(reading(), Spot::Start, ls)
}

/// The facts of some lines, read from a spot on.
pub open spec fn facts_from(spot: Spot, ls: Seq<Seq<char>>) -> Seq<Fact>
    decreases ls.len(),
{
    if ls.len() == 0 {
        Seq::empty()
    } else {
        let rest = ls.drop_last();
        facts_from(spot, rest) + run_facts(fold(reading(), spot, rest), line_toks(ls.last()))
    }
}

/// The facts of a text.
pub open spec fn text_facts(ls: Seq<Seq<char>>) -> Seq<Fact> {
    facts_from(Spot::Start, ls)
}

pub proof fn lemma_encode_concat(a: Seq<char>, b: Seq<char>)
    ensures
        encode_utf8(a + b) == encode_utf8(a) + encode_utf8(b),
    decreases a.len(),
{
    if a.len() == 0 {
        assert(a + b =~= b);
        assert(encode_utf8(a) + encode_utf8(b) =~= encode_utf8(b));
    } else {
        lemma_encode_concat(a.drop_first(), b);
        assert((a + b).drop_first() =~= a.drop_first() + b);
        assert((a + b)[0] == a[0]);
        let first = encode_scalar(a[0] as u32);
        assert(first + (encode_utf8(a.drop_first()) + encode_utf8(b)) =~= (first + encode_utf8(
            a.drop_first(),
        )) + encode_utf8(b));
    }
}

proof fn lemma_encode_feed()
    ensures
        encode_utf8(seq!['\n']) == seq![10u8],
{
    let s = seq!['\n'];
    assert(is_ascii_chars(s));
    is_ascii_chars_encode_utf8(s);
    assert(s[0] as u8 == encode_utf8(s)[0]);
    assert(encode_utf8(s) =~= seq![10u8]);
}

/// The tokens of a text are those of its lines.
pub proof fn lemma_text_toks(ls: Seq<Seq<char>>)
    requires
        all_closed(ls),
    ensures
        ({
            let s = encode_utf8(unlines(ls));
            &&& ends_well(Mode::Between, s, 0)
            &&& run(Spot::Start, toks_from(Mode::Between, s, 0)) == spot_of(ls)
            &&& run_facts(Spot::Start, toks_from(Mode::Between, s, 0)) == text_facts(ls)
        }),
    decreases ls.len(),
{
    let s = encode_utf8(unlines(ls));
    if ls.len() == 0 {
        assert(s =~= Seq::empty());
        assert(toks_from(Mode::Between, s, 0) =~= Seq::empty());
    } else {
        let rest = ls.drop_last();
        let l = ls.last();
        assert forall|i: int| 0 <= i < rest.len() implies is_closed_line(#[trigger] rest[i]) by {
            assert(rest[i] == ls[i]);
        }
        assert(is_closed_line(ls[ls.len() - 1]));
        lemma_text_toks(rest);
        let a = encode_utf8(unlines(rest));
        lemma_encode_concat(unlines(rest), l.push('\n'));
        assert(l.push('\n') =~= l + seq!['\n']);
        lemma_encode_concat(l, seq!['\n']);
        lemma_encode_feed();
        assert(s == a + line_bytes(l));
        lemma_parts(Mode::Between, a, line_bytes(l), 0);
        lemma_run_concat(Spot::Start, toks_from(Mode::Between, a, 0), line_toks(l));
    }
}

/// The facts of a text that the parser reads.
pub proof fn law_text_holds_its_facts(ls: Seq<Seq<char>>)
    requires
        all_closed(ls),
        !repeats_key(text_facts(ls)),
    ensures
        value(encode_utf8(unlines(ls)), 0) is Ok == (spot_of(ls) == Spot::Done),
        value(encode_utf8(unlines(ls)), 0) is Ok ==> worth(text_facts(ls)) == worth(
            facts_of(value(encode_utf8(unlines(ls)), 0)->Ok_0.0, Seq::empty()),
        ),
{
    lemma_text_toks(ls);
    law_parser_reads_facts(encode_utf8(unlines(ls)));
}

// ── UUIDs in a line ──────────────────────────────────────────────────────────

/// A text that has the form of a UUID.
pub open spec fn is_uuid_text(t: Seq<char>) -> bool {
    (t.len() == 24 && starts_hex(t, 24)) || (t.len() == 32 && starts_hex(t, 32))
}

/// No string among the tokens is a UUID.
pub open spec fn no_uuid_token(ts: Seq<Tok>) -> bool {
    forall|k: int|
        0 <= k < ts.len() && (#[trigger] ts[k]) is Text && valid_utf8(ts[k]->Text_0)
            ==> !is_uuid_text(decode_utf8(ts[k]->Text_0))
}

/// A character that ends a word.
pub open spec fn ends_string(c: char) -> bool {
    c == ' ' || c == '\t' || c == '\r' || c == '{' || c == '}' || c == '(' || c == ')' || c == '='
        || c == ';' || c == ','
}

/// The line is read from column `i` on, in a mode: its UUIDs are strings of their
/// own, or stand in comments.
pub open spec fn is_whole_from(l: Seq<char>, i: int, m: Mode) -> bool
    decreases l.len() - i,
{
    if i < 0 || i >= l.len() {
        no_uuid_token(step_tokens(m, 10))
    } else if uuid_hit(l, i) is Some && i < uuid_hit(l, i)->Some_0.end <= l.len() {
        let j = uuid_hit(l, i)->Some_0.end;
        match m {
            Mode::Line => is_whole_from(l, j, Mode::Line),
            Mode::Block => is_whole_from(l, j, Mode::Block),
            Mode::Star => is_whole_from(l, j, Mode::Block),
            Mode::Between => (j == l.len() || ends_string(l[j])) && is_whole_from(
                l,
                j,
                Mode::Between,
            ),
            Mode::Quote(acc) => acc.len() == 0 && j < l.len() && l[j] == '"' && is_whole_from(
                l,
                j + 1,
                Mode::Between,
            ),
            _ => false,
        }
    } else {
        let b = encode_scalar(l[i] as u32);
        &&& no_uuid_token(toks_from(m, b, 0))
        &&& is_whole_from(l, i + 1, mode_from(m, b, 0))
    }
}

/// The UUIDs of the line are strings of their own, or stand in comments.
pub open spec fn is_whole_line(l: Seq<char>) -> bool {
    is_whole_from(l, 0, Mode::Between)
}

// ── Renamed tokens ───────────────────────────────────────────────────────────

/// A change of texts.
pub open spec fn renamed_tok(g: spec_fn(Seq<char>) -> Seq<char>, t: Tok) -> Tok {
    match t {
        Tok::Text(b) => if valid_utf8(b) {
            Tok::Text(encode_utf8(g(decode_utf8(b))))
        } else {
            t
        },
        _ => t,
    }
}

pub open spec fn renamed_toks(g: spec_fn(Seq<char>) -> Seq<char>, ts: Seq<Tok>) -> Seq<Tok> {
    ts.map_values(|t: Tok| renamed_tok(g, t))
}

/// Texts that are no UUIDs stay.
pub open spec fn changes_uuids_only(g: spec_fn(Seq<char>) -> Seq<char>) -> bool {
    forall|t: Seq<char>| !is_uuid_text(t) ==> #[trigger] g(t) == t
}

proof fn lemma_unchanged(g: spec_fn(Seq<char>) -> Seq<char>, ts: Seq<Tok>)
    requires
        changes_uuids_only(g),
        no_uuid_token(ts),
    ensures
        renamed_toks(g, ts) == ts,
{
    assert forall|k: int| 0 <= k < ts.len() implies renamed_toks(g, ts)[k] == ts[k] by {
        if ts[k] is Text && valid_utf8(ts[k]->Text_0) {
            let b = ts[k]->Text_0;
            assert(!is_uuid_text(decode_utf8(b)));
            vstd::utf8::decode_utf8_encode_utf8(b);
        }
    }
    assert(renamed_toks(g, ts) =~= ts);
}

proof fn lemma_renamed_concat(g: spec_fn(Seq<char>) -> Seq<char>, a: Seq<Tok>, b: Seq<Tok>)
    ensures
        renamed_toks(g, a + b) == renamed_toks(g, a) + renamed_toks(g, b),
{
    assert(renamed_toks(g, a + b) =~= renamed_toks(g, a) + renamed_toks(g, b));
}

/// Bytes of hexadecimal digits.
spec fn are_hex_bytes(b: Seq<u8>) -> bool {
    forall|i: int|
        0 <= i < b.len() ==> (48 <= #[trigger] b[i] <= 57) || (65 <= b[i] <= 70) || (97 <= b[i]
            <= 102)
}

proof fn lemma_hex_bytes(u: Seq<char>)
    requires
        forall|i: int| 0 <= i < u.len() ==> is_hex(#[trigger] u[i]),
    ensures
        are_hex_bytes(encode_utf8(u)),
        encode_utf8(u).len() == u.len(),
{
    assert(is_ascii_chars(u)) by {
        assert forall|i: int| 0 <= i < u.len() implies '\0' <= #[trigger] u[i] <= '\u{7f}' by {
            assert(is_hex(u[i]));
        }
    }
    is_ascii_chars_encode_utf8(u);
    assert forall|i: int| 0 <= i < encode_utf8(u).len() implies (48 <= #[trigger] encode_utf8(
        u,
    )[i] <= 57) || (65 <= encode_utf8(u)[i] <= 70) || (97 <= encode_utf8(u)[i] <= 102) by {
        assert(is_hex(u[i]));
        assert(u[i] as u8 == encode_utf8(u)[i]);
    }
}

proof fn lemma_hex_in_comment(m: Mode, b: Seq<u8>, p: int)
    requires
        are_hex_bytes(b),
        0 <= p <= b.len(),
        m is Line || m is Block || m is Star,
    ensures
        toks_from(m, b, p) == Seq::<Tok>::empty(),
        m is Line ==> mode_from(m, b, p) == Mode::Line,
        !(m is Line) && p < b.len() ==> mode_from(m, b, p) == Mode::Block,
        m is Block ==> mode_from(m, b, p) == Mode::Block,
    decreases b.len() - p,
{
    if p < b.len() {
        let n = mode_step(m, b[p]);
        lemma_hex_in_comment(n, b, p + 1);
        assert(Seq::<Tok>::empty() + toks_from(n, b, p + 1) =~= Seq::<Tok>::empty());
    }
}

proof fn lemma_hex_word(acc: Seq<u8>, b: Seq<u8>, p: int)
    requires
        are_hex_bytes(b),
        0 <= p <= b.len(),
    ensures
        toks_from(Mode::Word(acc), b, p) == Seq::<Tok>::empty(),
        mode_from(Mode::Word(acc), b, p) == Mode::Word(acc + b.skip(p)),
        toks_from(Mode::Quote(acc), b, p) == Seq::<Tok>::empty(),
        mode_from(Mode::Quote(acc), b, p) == Mode::Quote(acc + b.skip(p)),
    decreases b.len() - p,
{
    if p < b.len() {
        let more = acc.push(b[p]);
        lemma_hex_word(more, b, p + 1);
        assert(more + b.skip(p + 1) =~= acc + b.skip(p));
        assert(Seq::<Tok>::empty() + Seq::<Tok>::empty() =~= Seq::<Tok>::empty());
    } else {
        assert(acc + b.skip(p) =~= acc);
    }
}

/// A word of hexadecimal digits before a character that ends it.
proof fn lemma_hex_string(b: Seq<u8>, rest: Seq<u8>)
    requires
        are_hex_bytes(b),
        b.len() > 0,
        rest.len() > 0,
        is_delimiter(rest[0]),
    ensures
        toks_from(Mode::Between, b + rest, 0) == seq![Tok::Text(b)] + toks_from(
            Mode::Between,
            rest,
            0,
        ),
        mode_from(Mode::Between, b + rest, 0) == mode_from(Mode::Between, rest, 0),
{
    let none = Seq::<Tok>::empty();
    let one = seq![b[0]];
    lemma_hex_word(one, b, 1);
    assert(one + b.skip(1) =~= b);
    assert(mode_step(Mode::Between, b[0]) == Mode::Word(one));
    assert(toks_from(Mode::Between, b, 0) =~= none);
    assert(mode_from(Mode::Between, b, 0) == Mode::Word(b));
    lemma_parts(Mode::Between, b, rest, 0);
    assert(toks_from(Mode::Between, b + rest, 0) =~= toks_from(Mode::Word(b), rest, 0));
    let more = toks_from(Mode::Between, rest, 1);
    let punct = crate::lexing::punctuation(rest[0]);
    assert(mode_step(Mode::Word(b), rest[0]) == Mode::Between);
    assert(mode_step(Mode::Between, rest[0]) == Mode::Between);
    assert(toks_from(Mode::Word(b), rest, 0) == (seq![Tok::Text(b)] + punct) + more);
    assert(toks_from(Mode::Between, rest, 0) == punct + more);
    assert((seq![Tok::Text(b)] + punct) + more =~= seq![Tok::Text(b)] + (punct + more));
}

/// Hexadecimal digits in quotes.
proof fn lemma_hex_quoted(b: Seq<u8>, rest: Seq<u8>)
    requires
        are_hex_bytes(b),
        rest.len() > 0,
        rest[0] == 34,
    ensures
        toks_from(Mode::Quote(Seq::empty()), b + rest, 0) == seq![Tok::Text(b)] + toks_from(
            Mode::Between,
            rest,
            1,
        ),
        mode_from(Mode::Quote(Seq::empty()), b + rest, 0) == mode_from(Mode::Between, rest, 1),
{
    let none = Seq::<u8>::empty();
    lemma_hex_word(none, b, 0);
    assert(none + b.skip(0) =~= b);
    lemma_parts(Mode::Quote(none), b, rest, 0);
    assert(Seq::<Tok>::empty() + toks_from(Mode::Quote(b), rest, 0) =~= toks_from(
        Mode::Quote(b),
        rest,
        0,
    ));
}

/// The bytes of a line from a column on, with its line feed.
spec fn tail_bytes(l: Seq<char>, i: int) -> Seq<u8> {
    encode_utf8(l.skip(i)) + seq![10u8]
}

proof fn lemma_tail_split(l: Seq<char>, i: int, j: int)
    requires
        0 <= i <= j <= l.len(),
    ensures
        tail_bytes(l, i) == encode_utf8(l.subrange(i, j)) + tail_bytes(l, j),
{
    assert(l.skip(i) =~= l.subrange(i, j) + l.skip(j));
    lemma_encode_concat(l.subrange(i, j), l.skip(j));
    assert(tail_bytes(l, i) =~= encode_utf8(l.subrange(i, j)) + tail_bytes(l, j));
}

proof fn lemma_one_char(c: char)
    ensures
        encode_utf8(seq![c]) == encode_scalar(c as u32),
        c <= '\u{7f}' ==> encode_scalar(c as u32) == seq![c as u8],
{
    let s = seq![c];
    assert(s.drop_first() =~= Seq::empty());
    assert(encode_utf8(s.drop_first()) =~= Seq::empty());
    assert(encode_utf8(s) =~= encode_scalar(c as u32));
    if c <= '\u{7f}' {
        assert(is_ascii_chars(s));
        is_ascii_chars_encode_utf8(s);
        assert(s[0] as u8 == encode_utf8(s)[0]);
        assert(encode_utf8(s) =~= seq![c as u8]);
    }
}

/// What follows a UUID ends it, in the line and in the rewritten line.
proof fn lemma_tail_first(l: Seq<char>, j: int)
    requires
        0 <= j <= l.len(),
        j < l.len() ==> l[j] <= '\u{7f}',
    ensures
        tail_bytes(l, j).len() > 0,
        j < l.len() ==> tail_bytes(l, j)[0] == l[j] as u8,
        j == l.len() ==> tail_bytes(l, j)[0] == 10,
{
    if j < l.len() {
        lemma_tail_split(l, j, j + 1);
        assert(l.subrange(j, j + 1) =~= seq![l[j]]);
        lemma_one_char(l[j]);
    } else {
        assert(l.skip(j) =~= Seq::empty());
        assert(encode_utf8(l.skip(j)) =~= Seq::empty());
    }
}

/// Every UUID that is found is replaced as `g` says, by a new one.
pub open spec fn replaces(
    g: spec_fn(Seq<char>) -> Seq<char>,
    l: Seq<char>,
    new: spec_fn(Hit) -> Seq<char>,
    i: int,
) -> bool {
    forall|k: int|
        0 <= k < hits_from(UUID@, l, i).len() ==> {
            let h = #[trigger] hits_from(UUID@, l, i)[k];
            new(h) == g(h.first) && is_new_uuid(new(h))
        }
}

proof fn lemma_replaces_rest(
    g: spec_fn(Seq<char>) -> Seq<char>,
    l: Seq<char>,
    new: spec_fn(Hit) -> Seq<char>,
    i: int,
)
    requires
        0 <= i < l.len(),
        replaces(g, l, new, i),
    ensures
        uuid_hit(l, i) is Some ==> {
            let h = uuid_hit(l, i)->Some_0;
            &&& new(h) == g(h.first) && is_new_uuid(new(h))
            &&& i < h.end <= l.len()
            &&& h.first == l.subrange(i, h.end)
            &&& forall|k: int| 0 <= k < h.first.len() ==> is_hex(#[trigger] h.first[k])
            &&& h.first.len() >= 24
            &&& replaces(g, l, new, h.end)
        },
        uuid_hit(l, i) is None ==> replaces(g, l, new, i + 1),
{
    let all = hits_from(UUID@, l, i);
    if uuid_hit(l, i) is Some {
        lemma_hit(l, i);
        let h = uuid_hit(l, i)->Some_0;
        let rest = hits_from(UUID@, l, h.end);
        assert(all == seq![h] + rest);
        assert(all[0] == h);
        let o = l.skip(i);
        assert(h.first =~= l.subrange(i, h.end));
        assert forall|k: int| 0 <= k < h.first.len() implies is_hex(#[trigger] h.first[k]) by {
            assert(h.first[k] == o[k]);
        }
        assert forall|k: int| 0 <= k < rest.len() implies ({
            let h = #[trigger] rest[k];
            new(h) == g(h.first) && is_new_uuid(new(h))
        }) by {
            assert(all[k + 1] == rest[k]);
        }
    } else {
        assert(all == hits_from(UUID@, l, i + 1));
    }
}

proof fn lemma_new_bytes(v: Seq<char>)
    requires
        is_new_uuid(v),
    ensures
        are_hex_bytes(encode_utf8(v)),
        encode_utf8(v).len() == 32,
{
    assert forall|i: int| 0 <= i < v.len() implies is_hex(#[trigger] v[i]) by {
        assert(is_upper_hex(v[i]));
    }
    lemma_hex_bytes(v);
}

proof fn lemma_uuid_tok(g: spec_fn(Seq<char>) -> Seq<char>, u: Seq<char>)
    ensures
        renamed_toks(g, seq![Tok::Text(encode_utf8(u))]) == seq![Tok::Text(encode_utf8(g(u)))],
{
    vstd::utf8::encode_utf8_valid_utf8(u);
    vstd::utf8::encode_utf8_decode_utf8(u);
    assert(renamed_toks(g, seq![Tok::Text(encode_utf8(u))]) =~= seq![
        Tok::Text(encode_utf8(g(u))),
    ]);
}

/// The tokens of a rewritten line are the renamed tokens of the line.
#[verifier::rlimit(80)]
#[verifier::spinoff_prover]
proof fn lemma_rewritten_toks(
    g: spec_fn(Seq<char>) -> Seq<char>,
    l: Seq<char>,
    new: spec_fn(Hit) -> Seq<char>,
    i: int,
    m: Mode,
)
    requires
        changes_uuids_only(g),
        0 <= i <= l.len(),
        is_whole_from(l, i, m),
        replaces(g, l, new, i),
    ensures
        ({
            let r = encode_utf8(rewritten(l, new, i)) + seq![10u8];
            &&& toks_from(m, r, 0) == renamed_toks(g, toks_from(m, tail_bytes(l, i), 0))
            &&& mode_from(m, r, 0) == mode_from(m, tail_bytes(l, i), 0)
        }),
    decreases l.len() - i,
{
    let feed = seq![10u8];
    let q = rewritten(l, new, i);
    let r = encode_utf8(q) + feed;
    let t = tail_bytes(l, i);
    if i == l.len() {
        assert(l.skip(i) =~= Seq::empty());
        assert(q =~= Seq::empty());
        assert(r =~= feed && t =~= feed);
        assert(toks_from(mode_step(m, 10), feed, 1) =~= Seq::empty());
        assert(toks_from(m, feed, 0) =~= step_tokens(m, 10));
        lemma_unchanged(g, step_tokens(m, 10));
    } else {
        lemma_replaces_rest(g, l, new, i);
        if uuid_hit(l, i) is Some {
            let h = uuid_hit(l, i)->Some_0;
            let j = h.end;
            let u = h.first;
            let v = new(h);
            let a = encode_utf8(u);
            let b = encode_utf8(v);
            lemma_hex_bytes(u);
            lemma_new_bytes(v);
            lemma_tail_split(l, i, j);
            let rest = rewritten(l, new, j);
            let rb = encode_utf8(rest) + feed;
            lemma_encode_concat(v, rest);
            assert(r =~= b + rb);
            assert(t == a + tail_bytes(l, j));
            let none = Seq::<Tok>::empty();
            match m {
                Mode::Line | Mode::Block | Mode::Star => {
                    let n = if m is Line {
                        Mode::Line
                    } else {
                        Mode::Block
                    };
                    lemma_hex_in_comment(m, a, 0);
                    lemma_hex_in_comment(m, b, 0);
                    lemma_parts(m, a, tail_bytes(l, j), 0);
                    lemma_parts(m, b, rb, 0);
                    lemma_rewritten_toks(g, l, new, j, n);
                    assert(none + toks_from(n, rb, 0) =~= toks_from(n, rb, 0));
                    assert(none + toks_from(n, tail_bytes(l, j), 0) =~= toks_from(
                        n,
                        tail_bytes(l, j),
                        0,
                    ));
                },
                Mode::Between => {
                    lemma_rewritten_toks(g, l, new, j, Mode::Between);
                    lemma_tail_first(l, j);
                    lemma_rewritten_first(l, new, j);
                    lemma_hex_string(a, tail_bytes(l, j));
                    lemma_hex_string(b, rb);
                    lemma_renamed_concat(
                        g,
                        seq![Tok::Text(a)],
                        toks_from(Mode::Between, tail_bytes(l, j), 0),
                    );
                    lemma_uuid_tok(g, u);
                },
                Mode::Quote(acc) => {
                    assert(acc =~= Seq::empty());
                    lemma_no_hit_here(l, j);
                    lemma_replaces_rest(g, l, new, j);
                    lemma_rewritten_toks(g, l, new, j + 1, Mode::Between);
                    lemma_tail_first(l, j);
                    lemma_tail_split(l, j, j + 1);
                    assert(l.subrange(j, j + 1) =~= seq!['"']);
                    lemma_one_char('"');
                    let more = rewritten(l, new, j + 1);
                    assert(rest == seq!['"'] + more);
                    lemma_encode_concat(seq!['"'], more);
                    let mb = encode_utf8(more) + feed;
                    assert(rb =~= seq![34u8] + mb);
                    assert(tail_bytes(l, j) == seq![34u8] + tail_bytes(l, j + 1));
                    lemma_hex_quoted(a, tail_bytes(l, j));
                    lemma_hex_quoted(b, rb);
                    lemma_behind_one(34, mb);
                    lemma_behind_one(34, tail_bytes(l, j + 1));
                    lemma_renamed_concat(
                        g,
                        seq![Tok::Text(a)],
                        toks_from(Mode::Between, tail_bytes(l, j + 1), 0),
                    );
                    lemma_uuid_tok(g, u);
                },
                _ => {},
            }
        } else {
            let c = l[i];
            let cb = encode_scalar(c as u32);
            let n = mode_from(m, cb, 0);
            lemma_rewritten_toks(g, l, new, i + 1, n);
            lemma_tail_split(l, i, i + 1);
            assert(l.subrange(i, i + 1) =~= seq![c]);
            lemma_one_char(c);
            let rest = rewritten(l, new, i + 1);
            assert(q == seq![c] + rest);
            lemma_encode_concat(seq![c], rest);
            let rb = encode_utf8(rest) + feed;
            assert(r =~= cb + rb);
            lemma_parts(m, cb, rb, 0);
            lemma_parts(m, cb, tail_bytes(l, i + 1), 0);
            lemma_unchanged(g, toks_from(m, cb, 0));
            lemma_renamed_concat(g, toks_from(m, cb, 0), toks_from(n, tail_bytes(l, i + 1), 0));
        }
    }
}

proof fn lemma_behind_one(b: u8, rest: Seq<u8>)
    ensures
        toks_from(Mode::Between, seq![b] + rest, 1) == toks_from(Mode::Between, rest, 0),
        mode_from(Mode::Between, seq![b] + rest, 1) == mode_from(Mode::Between, rest, 0),
{
    let one = seq![b];
    lemma_parts(Mode::Between, one, rest, 1);
    assert(toks_from(Mode::Between, one, 1) =~= Seq::empty());
    assert(Seq::<Tok>::empty() + toks_from(Mode::Between, rest, 0) =~= toks_from(
        Mode::Between,
        rest,
        0,
    ));
}

/// No UUID begins with a quote.
proof fn lemma_no_hit_here(l: Seq<char>, j: int)
    requires
        0 <= j < l.len(),
        l[j] == '"',
    ensures
        uuid_hit(l, j) is None,
{
    if uuid_hit(l, j) is Some {
        lemma_hit(l, j);
    }
}

/// A rewritten rest that begins with a character that ends a string.
proof fn lemma_rewritten_first(l: Seq<char>, new: spec_fn(Hit) -> Seq<char>, j: int)
    requires
        0 <= j <= l.len(),
        j == l.len() || ends_string(l[j]),
    ensures
        ({
            let rb = encode_utf8(rewritten(l, new, j)) + seq![10u8];
            rb.len() > 0 && is_delimiter(rb[0])
        }),
{
    if j < l.len() {
        if uuid_hit(l, j) is Some {
            lemma_hit(l, j);
        }
        let rest = rewritten(l, new, j + 1);
        assert(rewritten(l, new, j) == seq![l[j]] + rest);
        lemma_encode_concat(seq![l[j]], rest);
        lemma_one_char(l[j]);
    } else {
        assert(encode_utf8(rewritten(l, new, j)) =~= Seq::empty());
    }
}

/// The tokens of a rewritten line are the tokens of the line with its UUIDs
/// changed.
pub proof fn law_rewritten_line_has_renamed_tokens(
    g: spec_fn(Seq<char>) -> Seq<char>,
    l: Seq<char>,
    new: spec_fn(Hit) -> Seq<char>,
)
    requires
        changes_uuids_only(g),
        is_whole_line(l),
        replaces(g, l, new, 0),
    ensures
        line_toks(rewritten(l, new, 0)) == renamed_toks(g, line_toks(l)),
        is_closed_line(l) ==> is_closed_line(rewritten(l, new, 0)),
{
    lemma_rewritten_toks(g, l, new, 0, Mode::Between);
    assert(l.skip(0) =~= l);
}

} // verus!
