//! The facts of a property list, read token by token.
//!
//! A fact says what stands at a path.  The facts of a list of tokens follow from
//! its parts, as far as each part is read from the place where it stands.

use crate::lexing::{
    ends_well, lemma_punctuation, lemma_quoted_token, lemma_skipped, lemma_unquoted_token,
    punctuation, toks_from, Mode, Tok,
};
use crate::parser::{
    array, at, dict, lemma_array, lemma_dict, lemma_skip, lemma_string, lemma_value, quoted,
    quoted_body, skip, string, text_at, unquoted, unquoted_end, value, Plist,
};
use crate::project_facts::{lemma_facts_below, path_of_fact};
use crate::renaming_laws::{describes, lists_objects, refers};
use crate::table::{lemma_slot, slot, upsert};
use vstd::prelude::*;
use vstd::utf8::{decode_utf8, valid_utf8};

verus! {

// ── Facts ────────────────────────────────────────────────────────────────────

/// A step from a value to one inside it: by the key of a dictionary, or by the
/// number of dictionaries and lists before it in a list.
pub ghost enum Step {
    Key(Seq<char>),
    Nth(nat),
}

pub ghost enum Fact {
    /// A dictionary has an entry at this path.
    Key(Seq<Step>),
    Text(Seq<Step>, Seq<char>),
    Dict(Seq<Step>),
    List(Seq<Step>),
    /// The list at this path holds a string.
    Item(Seq<Step>, Seq<char>),
}

/// How many of the values are no strings.
pub open spec fn containers(xs: Seq<Plist>) -> nat
    decreases xs.len(),
{
    if xs.len() == 0 {
        0
    } else if xs.last() is Str {
        containers(xs.drop_last())
    } else {
        containers(xs.drop_last()) + 1
    }
}

/// The facts of a value at a path.
pub open spec fn facts_of(v: Plist, path: Seq<Step>) -> Seq<Fact>
    decreases v,
{
    match v {
        Plist::Str(t) => seq![Fact::Text(path, t)],
        Plist::Dict(es) => seq![Fact::Dict(path)] + entry_facts(es, path),
        Plist::Array(xs) => seq![Fact::List(path)] + item_facts(xs, path),
    }
}

pub open spec fn entry_facts(es: Seq<(Seq<char>, Plist)>, path: Seq<Step>) -> Seq<Fact>
    decreases es,
{
    if es.len() == 0 {
        Seq::empty()
    } else {
        let to = path.push(Step::Key(es.last().0));
        entry_facts(es.drop_last(), path) + (seq![Fact::Key(to)] + facts_of(es.last().1, to))
    }
}

pub open spec fn item_facts(xs: Seq<Plist>, path: Seq<Step>) -> Seq<Fact>
    decreases xs,
{
    if xs.len() == 0 {
        Seq::empty()
    } else {
        item_facts(xs.drop_last(), path) + (match xs.last() {
            Plist::Str(t) => seq![Fact::Item(path, t)],
            _ => facts_of(xs.last(), path.push(Step::Nth(containers(xs.drop_last())))),
        })
    }
}

/// The name of a field that counts.
pub open spec fn counts(n: Seq<char>) -> bool {
    describes(n) || refers(n) || lists_objects(n) || n == "fileRef"@ || n == "productRef"@ || n
        == "projectReferences"@
}

/// The path leads to an object at most, or into a field of one that counts.
pub open spec fn is_worth(path: Seq<Step>) -> bool {
    path.len() <= 2 || (path[2] is Key && counts(path[2]->Key_0))
}

/// The facts about a project, its objects and their fields that count.
pub open spec fn worth(fs: Seq<Fact>) -> Seq<Fact>
    decreases fs.len(),
{
    if fs.len() == 0 {
        fs
    } else if is_worth(path_of_fact(fs.last())) {
        worth(fs.drop_last()).push(fs.last())
    } else {
        worth(fs.drop_last())
    }
}

/// A dictionary has one key twice, at a path that counts.
pub open spec fn repeats_key(fs: Seq<Fact>) -> bool {
    exists|i: int, j: int|
        0 <= i < j < fs.len() && fs[i] is Key && is_worth(path_of_fact(fs[i])) && #[trigger] fs[i]
            == #[trigger] fs[j]
}

pub proof fn lemma_worth_concat(a: Seq<Fact>, b: Seq<Fact>)
    ensures
        worth(a + b) == worth(a) + worth(b),
    decreases b.len(),
{
    if b.len() == 0 {
        assert(a + b =~= a);
        assert(worth(a) + b =~= worth(a));
    } else {
        lemma_worth_concat(a, b.drop_last());
        assert((a + b).drop_last() =~= a + b.drop_last());
        assert((worth(a) + worth(b.drop_last())).push(b.last()) =~= worth(a) + worth(
            b.drop_last(),
        ).push(b.last()));
    }
}

/// What counts is among what counts, and nothing else.
pub proof fn lemma_worth_contains(fs: Seq<Fact>, f: Fact)
    ensures
        worth(fs).contains(f) == (fs.contains(f) && is_worth(path_of_fact(f))),
    decreases fs.len(),
{
    if fs.len() > 0 {
        let rest = fs.drop_last();
        let last = fs.last();
        lemma_worth_contains(rest, f);
        assert(rest.push(last) =~= fs);
        lemma_contains_push(rest, last, f);
        lemma_contains_push(worth(rest), last, f);
    }
}

proof fn lemma_contains_push(fs: Seq<Fact>, x: Fact, f: Fact)
    ensures
        fs.push(x).contains(f) == (fs.contains(f) || x == f),
{
    if fs.contains(f) {
        let i = choose|i: int| 0 <= i < fs.len() && fs[i] == f;
        assert(fs.push(x)[i] == f);
    }
    if x == f {
        assert(fs.push(x)[fs.len() as int] == f);
    }
    if fs.push(x).contains(f) && x != f {
        let i = choose|i: int| 0 <= i < fs.push(x).len() && fs.push(x)[i] == f;
        assert(fs[i] == f);
    }
}

proof fn lemma_repeats_push(fs: Seq<Fact>, x: Fact)
    ensures
        repeats_key(fs.push(x)) == (repeats_key(fs) || (x is Key && is_worth(path_of_fact(x))
            && fs.contains(x))),
{
    let all = fs.push(x);
    let n = fs.len() as int;
    if repeats_key(fs) {
        let (i, j) = choose|i: int, j: int|
            0 <= i < j < fs.len() && fs[i] is Key && is_worth(path_of_fact(fs[i]))
                && #[trigger] fs[i] == #[trigger] fs[j];
        assert(all[i] == all[j]);
    }
    if x is Key && is_worth(path_of_fact(x)) && fs.contains(x) {
        let i = choose|i: int| 0 <= i < fs.len() && fs[i] == x;
        assert(all[i] == all[n]);
    }
    if repeats_key(all) {
        let (i, j) = choose|i: int, j: int|
            0 <= i < j < all.len() && all[i] is Key && is_worth(path_of_fact(all[i]))
                && #[trigger] all[i] == #[trigger] all[j];
        if j < n {
            assert(fs[i] == fs[j]);
        } else {
            assert(fs[i] == x);
        }
    }
}

/// Whether a key repeats is seen from what counts.
pub proof fn lemma_repeats_worth(fs: Seq<Fact>)
    ensures
        repeats_key(worth(fs)) == repeats_key(fs),
    decreases fs.len(),
{
    if fs.len() > 0 {
        let rest = fs.drop_last();
        let x = fs.last();
        assert(rest.push(x) =~= fs);
        lemma_repeats_worth(rest);
        lemma_repeats_push(rest, x);
        lemma_repeats_push(worth(rest), x);
        lemma_worth_contains(rest, x);
    }
}

/// Nothing of what does not count counts.
proof fn lemma_none_worth(fs: Seq<Fact>)
    requires
        forall|f: Fact| #[trigger] fs.contains(f) ==> !is_worth(path_of_fact(f)),
    ensures
        worth(fs) == Seq::<Fact>::empty(),
    decreases fs.len(),
{
    if fs.len() > 0 {
        let rest = fs.drop_last();
        assert forall|f: Fact| #[trigger] rest.contains(f) implies !is_worth(path_of_fact(f)) by {
            let i = choose|i: int| 0 <= i < rest.len() && rest[i] == f;
            assert(fs[i] == f);
            assert(fs.contains(f));
        }
        lemma_none_worth(rest);
        assert(fs.contains(fs[fs.len() - 1]));
    } else {
        assert(fs =~= Seq::empty());
    }
}

/// An entry at a path that does not count.
proof fn lemma_entry_not_worth(v: Plist, to: Seq<Step>)
    requires
        !is_worth(to),
    ensures
        worth(seq![Fact::Key(to)] + facts_of(v, to)) == Seq::<Fact>::empty(),
{
    let all = seq![Fact::Key(to)] + facts_of(v, to);
    assert forall|f: Fact| #[trigger] all.contains(f) implies !is_worth(path_of_fact(f)) by {
        let i = choose|i: int| 0 <= i < all.len() && all[i] == f;
        if i > 0 {
            assert(facts_of(v, to)[i - 1] == f);
            lemma_facts_below(v, to, f);
            let path = path_of_fact(f);
            assert(path.take(to.len() as int)[2] == to[2]);
        }
    }
    lemma_none_worth(all);
}

/// Another value there changes nothing that counts.
proof fn lemma_update_not_worth(
    es: Seq<(Seq<char>, Plist)>,
    path: Seq<Step>,
    i: int,
    k: Seq<char>,
    v: Plist,
)
    requires
        0 <= i < es.len(),
        es[i].0 == k,
        !is_worth(path.push(Step::Key(k))),
    ensures
        worth(entry_facts(es.update(i, (k, v)), path)) == worth(entry_facts(es, path)),
    decreases es.len(),
{
    let to = path.push(Step::Key(k));
    let rest = es.drop_last();
    let now = es.update(i, (k, v));
    let head = entry_facts(rest, path);
    let last = path.push(Step::Key(es.last().0));
    lemma_worth_concat(head, seq![Fact::Key(last)] + facts_of(es.last().1, last));
    if i == es.len() - 1 {
        assert(now.drop_last() =~= rest);
        lemma_entry_not_worth(es.last().1, to);
        lemma_entry_not_worth(v, to);
        lemma_worth_concat(head, seq![Fact::Key(to)] + facts_of(v, to));
    } else {
        lemma_update_not_worth(rest, path, i, k, v);
        assert(now.drop_last() =~= rest.update(i, (k, v)));
        lemma_worth_concat(
            entry_facts(rest.update(i, (k, v)), path),
            seq![Fact::Key(last)] + facts_of(es.last().1, last),
        );
    }
}

pub proof fn lemma_repeats(a: Seq<Fact>, b: Seq<Fact>)
    ensures
        repeats_key(a) ==> repeats_key(a + b),
        repeats_key(b) ==> repeats_key(a + b),
{
    if repeats_key(a) {
        let (i, j) = choose|i: int, j: int|
            0 <= i < j < a.len() && a[i] is Key && is_worth(path_of_fact(a[i])) && #[trigger] a[i]
                == #[trigger] a[j];
        assert((a + b)[i] == (a + b)[j]);
    }
    if repeats_key(b) {
        let (i, j) = choose|i: int, j: int|
            0 <= i < j < b.len() && b[i] is Key && is_worth(path_of_fact(b[i])) && #[trigger] b[i]
                == #[trigger] b[j];
        assert((a + b)[a.len() + i] == (a + b)[a.len() + j]);
    }
}

// ── Reading tokens ───────────────────────────────────────────────────────────

/// What a dictionary that is being read goes on with.
pub ghost enum Want {
    Key,
    Equals(Seq<char>),
    Value(Seq<char>),
    /// A semicolon, or else as `Key`.
    End,
}

/// A dictionary or a list that is being read.
pub ghost enum Frame {
    Dict(Seq<Step>, Want),
    /// With the number of dictionaries and lists in it so far; an item stands
    /// before, so that a comma may follow.
    List(Seq<Step>, nat, bool),
}

/// Where the reading of a value stands.
pub ghost enum Spot {
    Start,
    Inside(Seq<Frame>),
    Done,
    Failed,
}

/// Behind a value inside the frames.
pub open spec fn behind(frames: Seq<Frame>, is_string: bool) -> Spot {
    if frames.len() == 0 {
        Spot::Done
    } else {
        match frames.last() {
            Frame::Dict(path, _) => Spot::Inside(
                frames.drop_last().push(Frame::Dict(path, Want::End)),
            ),
            Frame::List(path, n, _) => Spot::Inside(
                frames.drop_last().push(
                    Frame::List(
                        path,
                        if is_string {
                            n
                        } else {
                            n + 1
                        },
                        true,
                    ),
                ),
            ),
        }
    }
}

/// The path of a value inside the frames.
pub open spec fn inner_path(frames: Seq<Frame>) -> Seq<Step> {
    if frames.len() == 0 {
        Seq::empty()
    } else {
        match frames.last() {
            Frame::Dict(path, Want::Value(k)) => path.push(Step::Key(k)),
            Frame::Dict(path, _) => path,
            Frame::List(path, n, _) => path.push(Step::Nth(n)),
        }
    }
}

/// A token where a value is to begin.
pub open spec fn value_step(frames: Seq<Frame>, t: Tok) -> Spot {
    match t {
        Tok::Open => Spot::Inside(frames.push(Frame::Dict(inner_path(frames), Want::Key))),
        Tok::ListOpen => Spot::Inside(frames.push(Frame::List(inner_path(frames), 0, false))),
        Tok::Text(b) => if valid_utf8(b) {
            behind(frames, true)
        } else {
            Spot::Failed
        },
        _ => Spot::Failed,
    }
}

/// A token where a key is to stand.
pub open spec fn key_step(below: Seq<Frame>, path: Seq<Step>, t: Tok) -> Spot {
    match t {
        Tok::Close => behind(below, false),
        Tok::Text(b) => if valid_utf8(b) {
            Spot::Inside(below.push(Frame::Dict(path, Want::Equals(decode_utf8(b)))))
        } else {
            Spot::Failed
        },
        _ => Spot::Failed,
    }
}

pub open spec fn spot_step(spot: Spot, t: Tok) -> Spot {
    match spot {
        Spot::Start => value_step(Seq::empty(), t),
        Spot::Inside(frames) => if frames.len() == 0 {
            Spot::Failed
        } else {
            let below = frames.drop_last();
            match frames.last() {
                Frame::Dict(path, want) => match want {
                    Want::Key => key_step(below, path, t),
                    Want::End => if t is Semicolon {
                        Spot::Inside(below.push(Frame::Dict(path, Want::Key)))
                    } else {
                        key_step(below, path, t)
                    },
                    Want::Equals(k) => if t is Equals {
                        Spot::Inside(below.push(Frame::Dict(path, Want::Value(k))))
                    } else {
                        Spot::Failed
                    },
                    Want::Value(k) => value_step(frames, t),
                },
                Frame::List(path, n, comma) => if t is ListClose {
                    behind(below, false)
                } else if t is Comma && comma {
                    Spot::Inside(below.push(Frame::List(path, n, false)))
                } else {
                    value_step(frames, t)
                },
            }
        },
        _ => spot,
    }
}

/// The facts of a token where a value is to begin.
pub open spec fn value_facts(frames: Seq<Frame>, t: Tok) -> Seq<Fact> {
    let path = inner_path(frames);
    let key = if frames.len() > 0 && frames.last() is Dict {
        seq![Fact::Key(path)]
    } else {
        Seq::empty()
    };
    match t {
        Tok::Open => key + seq![Fact::Dict(path)],
        Tok::ListOpen => key + seq![Fact::List(path)],
        Tok::Text(b) => if frames.len() > 0 && frames.last() is List {
            seq![Fact::Item(frames.last()->List_0, decode_utf8(b))]
        } else {
            key + seq![Fact::Text(path, decode_utf8(b))]
        },
        _ => Seq::empty(),
    }
}

pub open spec fn spot_facts(spot: Spot, t: Tok) -> Seq<Fact> {
    match spot {
        Spot::Start => value_facts(Seq::empty(), t),
        Spot::Inside(frames) => if frames.len() == 0 {
            Seq::empty()
        } else {
            match frames.last() {
                Frame::Dict(_, Want::Value(_)) => value_facts(frames, t),
                Frame::Dict(_, _) => Seq::empty(),
                Frame::List(_, _, _) => value_facts(frames, t),
            }
        },
        _ => Seq::empty(),
    }
}

/// The spot behind some tokens.
pub open spec fn run(spot: Spot, ts: Seq<Tok>) -> Spot
    decreases ts.len(),
{
    if ts.len() == 0 {
        spot
    } else {
        run(spot_step(spot, ts[0]), ts.drop_first())
    }
}

/// The facts of some tokens.
pub open spec fn run_facts(spot: Spot, ts: Seq<Tok>) -> Seq<Fact>
    decreases ts.len(),
{
    if ts.len() == 0 {
        Seq::empty()
    } else {
        spot_facts(spot, ts[0]) + run_facts(spot_step(spot, ts[0]), ts.drop_first())
    }
}

pub proof fn lemma_run_first(spot: Spot, t: Tok, rest: Seq<Tok>)
    ensures
        run(spot, seq![t] + rest) == run(spot_step(spot, t), rest),
        run_facts(spot, seq![t] + rest) == spot_facts(spot, t) + run_facts(
            spot_step(spot, t),
            rest,
        ),
{
    assert((seq![t] + rest).drop_first() =~= rest);
    assert((seq![t] + rest)[0] == t);
}

pub proof fn lemma_run_concat(spot: Spot, a: Seq<Tok>, b: Seq<Tok>)
    ensures
        run(spot, a + b) == run(run(spot, a), b),
        run_facts(spot, a + b) == run_facts(spot, a) + run_facts(run(spot, a), b),
    decreases a.len(),
{
    if a.len() == 0 {
        assert(a + b =~= b);
        assert(Seq::<Fact>::empty() + run_facts(spot, b) =~= run_facts(spot, b));
    } else {
        let next = spot_step(spot, a[0]);
        lemma_run_concat(next, a.drop_first(), b);
        assert((a + b).drop_first() =~= a.drop_first() + b);
        assert((a + b)[0] == a[0]);
        assert(spot_facts(spot, a[0]) + (run_facts(next, a.drop_first()) + run_facts(
            run(next, a.drop_first()),
            b,
        )) =~= (spot_facts(spot, a[0]) + run_facts(next, a.drop_first())) + run_facts(
            run(next, a.drop_first()),
            b,
        ));
    }
}

pub proof fn lemma_run_over(spot: Spot, ts: Seq<Tok>)
    requires
        spot is Done || spot is Failed,
    ensures
        run(spot, ts) == spot,
        run_facts(spot, ts) == Seq::<Fact>::empty(),
    decreases ts.len(),
{
    if ts.len() > 0 {
        lemma_run_over(spot, ts.drop_first());
    }
}

// ── The parser reads the same facts ──────────────────────────────────────────

/// The spot where a value inside the frames begins.
spec fn value_spot(frames: Seq<Frame>) -> Spot {
    if frames.len() == 0 {
        Spot::Start
    } else {
        Spot::Inside(frames)
    }
}

spec fn wants_value(frames: Seq<Frame>) -> bool {
    frames.len() == 0 || frames.last() is List || (frames.last() is Dict
        && frames.last()->Dict_1 is Value)
}

/// The facts of a value inside the frames.
spec fn placed_facts(frames: Seq<Frame>, v: Plist) -> Seq<Fact> {
    let path = inner_path(frames);
    if frames.len() == 0 {
        facts_of(v, path)
    } else if frames.last() is List {
        match v {
            Plist::Str(t) => seq![Fact::Item(frames.last()->List_0, t)],
            _ => facts_of(v, path),
        }
    } else {
        seq![Fact::Key(path)] + facts_of(v, path)
    }
}

/// From position `p` on, the spot comes to `next` at position `q`, with these
/// facts.
spec fn comes_to(
    spot: Spot,
    s: Seq<u8>,
    p: int,
    facts: Seq<Fact>,
    next: Spot,
    q: int,
) -> bool {
    let a = toks_from(Mode::Between, s, p);
    let b = toks_from(Mode::Between, s, q);
    &&& run(spot, a) == run(next, b)
    &&& run_facts(spot, a) == facts + run_facts(next, b)
    &&& ends_well(Mode::Between, s, q)
}

spec fn never_done(spot: Spot, s: Seq<u8>, p: int) -> bool {
    run(spot, toks_from(Mode::Between, s, p)) != Spot::Done
}

proof fn lemma_comes_first(
    spot: Spot,
    s: Seq<u8>,
    p: int,
    t: Tok,
    q: int,
)
    requires
        toks_from(Mode::Between, s, p) == seq![t] + toks_from(Mode::Between, s, q),
        ends_well(Mode::Between, s, q),
    ensures
        comes_to(spot, s, p, spot_facts(spot, t), spot_step(spot, t), q),
{
    lemma_run_first(spot, t, toks_from(Mode::Between, s, q));
}

proof fn lemma_comes_on(
    a: Spot,
    s: Seq<u8>,
    p: int,
    f: Seq<Fact>,
    b: Spot,
    q: int,
    g: Seq<Fact>,
    c: Spot,
    r: int,
)
    requires
        comes_to(a, s, p, f, b, q),
        comes_to(b, s, q, g, c, r),
    ensures
        comes_to(a, s, p, f + g, c, r),
{
    let rest = run_facts(c, toks_from(Mode::Between, s, r));
    assert(f + (g + rest) =~= (f + g) + rest);
}

/// A string where a value or a key is to stand.
proof fn lemma_text_token(s: Seq<u8>, q: int)
    requires
        0 <= q < s.len(),
        ends_well(Mode::Between, s, q),
        skip(s, q) == q,
        punctuation(s[q]).len() == 0,
    ensures
        ({
            let text = if s[q] == 34 {
                quoted(s, q)
            } else {
                unquoted(s, q)
            };
            exists|b: Seq<u8>, r: int|
                {
                    &&& q < r <= s.len()
                    &&& #[trigger] text_at(b, r, Seq::empty()) is Ok == text is Ok
                    &&& text is Ok ==> text->Ok_0 == (decode_utf8(b), r)
                    &&& text is Ok == valid_utf8(b)
                    &&& toks_from(Mode::Between, s, q) == seq![Tok::Text(b)] + toks_from(
                        Mode::Between,
                        s,
                        r,
                    )
                    &&& ends_well(Mode::Between, s, r)
                }
        }),
{
    lemma_skip(s, q);
    if s[q] == 34 {
        lemma_quoted_token(s, q);
        let (b, r) = quoted_body(s, q + 1, Seq::empty())->Ok_0;
        assert(text_at(b, r, Seq::empty()) is Ok == valid_utf8(b));
    } else {
        lemma_unquoted_token(s, q);
        let r = unquoted_end(s, q);
        let b = s.subrange(q, r);
        assert(text_at(b, r, Seq::empty()) is Ok == valid_utf8(b));
    }
}

proof fn lemma_skip_again(s: Seq<u8>, p: int)
    requires
        0 <= p <= s.len(),
    ensures
        skip(s, skip(s, p)) == skip(s, p),
{
    lemma_skip(s, p);
}

#[verifier::rlimit(60)]
#[verifier::spinoff_prover]
proof fn lemma_value_read(s: Seq<u8>, p: int, frames: Seq<Frame>) -> (facts: Seq<Fact>)
    requires
        0 <= p <= s.len(),
        ends_well(Mode::Between, s, p),
        wants_value(frames),
        frames.len() > 0 && frames.last() is List && frames.last()->List_2 ==> !at(
            s,
            skip(s, p),
            44,
        ),
        frames.len() > 0 && frames.last() is List ==> !at(s, skip(s, p), 41),
    ensures
        match value(s, p) {
            Ok((v, q)) => {
                &&& comes_to(value_spot(frames), s, p, facts, behind(frames, v is Str), q)
                &&& worth(facts) == worth(placed_facts(frames, v)) || repeats_key(facts)
            },
            Err(_) => never_done(value_spot(frames), s, p),
        },
    decreases s.len() - p, 1int,
{
    let q = skip(s, p);
    let spot = value_spot(frames);
    let none = Seq::<Fact>::empty();
    lemma_skip(s, p);
    lemma_skip_again(s, p);
    lemma_skipped(s, p);
    lemma_value(s, p);
    if frames.len() == 0 {
        assert(frames =~= Seq::empty());
    }
    if q >= s.len() {
        assert(toks_from(Mode::Between, s, q) =~= Seq::empty());
        none
    } else if s[q] == 123 {
        lemma_punctuation(s, q);
        lemma_comes_first(spot, s, q, Tok::Open, q + 1);
        let path = inner_path(frames);
        let more = lemma_dict_read(s, q + 1, Seq::empty(), frames, path, Want::Key);
        if dict(s, q + 1, Seq::empty()) is Ok {
            let (v, r) = dict(s, q + 1, Seq::empty())->Ok_0;
            let inside = Spot::Inside(frames.push(Frame::Dict(path, Want::Key)));
            lemma_comes_on(
                spot,
                s,
                q,
                spot_facts(spot, Tok::Open),
                inside,
                q + 1,
                more,
                behind(frames, false),
                r,
            );
            assert(entry_facts(Seq::empty(), path) + more =~= more);
            lemma_repeats(spot_facts(spot, Tok::Open), more);
            let all = spot_facts(spot, Tok::Open) + more;
            if !repeats_key(more) {
                let exact = spot_facts(spot, Tok::Open) + entry_facts(v->Dict_0, path);
                assert(exact =~= placed_facts(frames, v));
                lemma_worth_concat(spot_facts(spot, Tok::Open), more);
                lemma_worth_concat(spot_facts(spot, Tok::Open), entry_facts(v->Dict_0, path));
            }
        }
        spot_facts(spot, Tok::Open) + more
    } else if s[q] == 40 {
        lemma_punctuation(s, q);
        lemma_comes_first(spot, s, q, Tok::ListOpen, q + 1);
        let path = inner_path(frames);
        let more = lemma_array_read(s, q + 1, Seq::empty(), frames, path, false);
        if array(s, q + 1, Seq::empty()) is Ok {
            let (v, r) = array(s, q + 1, Seq::empty())->Ok_0;
            let inside = Spot::Inside(frames.push(Frame::List(path, 0, false)));
            lemma_comes_on(
                spot,
                s,
                q,
                spot_facts(spot, Tok::ListOpen),
                inside,
                q + 1,
                more,
                behind(frames, false),
                r,
            );
            assert(item_facts(Seq::empty(), path) + more =~= more);
            lemma_repeats(spot_facts(spot, Tok::ListOpen), more);
            let all = spot_facts(spot, Tok::ListOpen) + more;
            if !repeats_key(more) {
                let exact = spot_facts(spot, Tok::ListOpen) + item_facts(v->Array_0, path);
                assert(exact =~= placed_facts(frames, v));
                lemma_worth_concat(spot_facts(spot, Tok::ListOpen), more);
                lemma_worth_concat(spot_facts(spot, Tok::ListOpen), item_facts(v->Array_0, path));
            }
        }
        spot_facts(spot, Tok::ListOpen) + more
    } else if punctuation(s[q]).len() > 0 {
        lemma_punctuation(s, q);
        let t = punctuation(s[q])[0];
        assert(punctuation(s[q]) =~= seq![t]);
        lemma_comes_first(spot, s, q, t, q + 1);
        assert(spot_step(spot, t) == Spot::Failed);
        lemma_run_over(Spot::Failed, toks_from(Mode::Between, s, q + 1));
        assert(unquoted_end(s, q) == q);
        none
    } else {
        lemma_text_token(s, q);
        let text = if s[q] == 34 {
            quoted(s, q)
        } else {
            unquoted(s, q)
        };
        let (b, r) = choose|b: Seq<u8>, r: int|
            {
                &&& q < r <= s.len()
                &&& #[trigger] text_at(b, r, Seq::empty()) is Ok == text is Ok
                &&& text is Ok ==> text->Ok_0 == (decode_utf8(b), r)
                &&& text is Ok == valid_utf8(b)
                &&& toks_from(Mode::Between, s, q) == seq![Tok::Text(b)] + toks_from(
                    Mode::Between,
                    s,
                    r,
                )
                &&& ends_well(Mode::Between, s, r)
            };
        lemma_comes_first(spot, s, q, Tok::Text(b), r);
        if text is Err {
            lemma_run_over(Spot::Failed, toks_from(Mode::Between, s, r));
        } else {
            assert(spot_facts(spot, Tok::Text(b)) =~= placed_facts(
                frames,
                Plist::Str(decode_utf8(b)),
            ));
        }
        spot_facts(spot, Tok::Text(b))
    }
}

pub proof fn lemma_known_key(es: Seq<(Seq<char>, Plist)>, path: Seq<Step>, k: Seq<char>)
    ensures
        slot(es, k) is Some ==> entry_facts(es, path).contains(
            Fact::Key(path.push(Step::Key(k))),
        ),
    decreases es.len(),
{
    if es.len() > 0 {
        lemma_known_key(es.drop_last(), path, k);
        let to = path.push(Step::Key(es.last().0));
        let head = entry_facts(es.drop_last(), path);
        let all = entry_facts(es, path);
        if es.last().0 == k {
            assert(all[head.len() as int] == Fact::Key(to));
        } else if slot(es, k) is Some {
            let i = choose|i: int| 0 <= i < head.len() && head[i] == Fact::Key(path.push(Step::Key(k)));
            assert(all[i] == head[i]);
        }
    }
}

#[verifier::rlimit(80)]
#[verifier::spinoff_prover]
proof fn lemma_dict_read(
    s: Seq<u8>,
    p: int,
    acc: Seq<(Seq<char>, Plist)>,
    below: Seq<Frame>,
    path: Seq<Step>,
    want: Want,
) -> (facts: Seq<Fact>)
    requires
        0 <= p <= s.len(),
        ends_well(Mode::Between, s, p),
        want is Key || (want is End && !at(s, skip(s, p), 59)),
    ensures
        ({
            let spot = Spot::Inside(below.push(Frame::Dict(path, want)));
            match dict(s, p, acc) {
                Ok((v, q)) => {
                    &&& v is Dict
                    &&& comes_to(spot, s, p, facts, behind(below, false), q)
                    &&& worth(entry_facts(acc, path) + facts) == worth(
                        entry_facts(v->Dict_0, path),
                    ) || repeats_key(entry_facts(acc, path) + facts)
                },
                Err(_) => never_done(spot, s, p),
            }
        }),
    decreases s.len() - p, 0int,
{
    let frames = below.push(Frame::Dict(path, want));
    let spot = Spot::Inside(frames);
    assert(frames.drop_last() =~= below);
    let none = Seq::<Fact>::empty();
    let q = skip(s, p);
    lemma_skip(s, p);
    lemma_skip_again(s, p);
    lemma_skipped(s, p);
    lemma_dict(s, p, acc);
    let had = entry_facts(acc, path);
    if q >= s.len() {
        assert(toks_from(Mode::Between, s, q) =~= Seq::empty());
        none
    } else if s[q] == 125 {
        lemma_punctuation(s, q);
        lemma_comes_first(spot, s, q, Tok::Close, q + 1);
        assert(had + none =~= had);
        none
    } else if punctuation(s[q]).len() > 0 {
        lemma_punctuation(s, q);
        let t = punctuation(s[q])[0];
        assert(punctuation(s[q]) =~= seq![t]);
        lemma_comes_first(spot, s, q, t, q + 1);
        assert(spot_step(spot, t) == Spot::Failed);
        lemma_run_over(Spot::Failed, toks_from(Mode::Between, s, q + 1));
        assert(unquoted_end(s, q) == q);
        assert(string(s, q) is Err);
        none
    } else {
        lemma_text_token(s, q);
        lemma_string(s, q);
        let text = if s[q] == 34 {
            quoted(s, q)
        } else {
            unquoted(s, q)
        };
        assert(string(s, q) == text);
        let (b, k) = choose|b: Seq<u8>, r: int|
            {
                &&& q < r <= s.len()
                &&& #[trigger] text_at(b, r, Seq::empty()) is Ok == text is Ok
                &&& text is Ok ==> text->Ok_0 == (decode_utf8(b), r)
                &&& text is Ok == valid_utf8(b)
                &&& toks_from(Mode::Between, s, q) == seq![Tok::Text(b)] + toks_from(
                    Mode::Between,
                    s,
                    r,
                )
                &&& ends_well(Mode::Between, s, r)
            };
        lemma_comes_first(spot, s, q, Tok::Text(b), k);
        if text is Err {
            lemma_run_over(Spot::Failed, toks_from(Mode::Between, s, k));
            none
        } else {
            let key = decode_utf8(b);
            let f1 = below.push(Frame::Dict(path, Want::Equals(key)));
            assert(f1.drop_last() =~= below);
            let spot1 = Spot::Inside(f1);
            assert(spot_step(spot, Tok::Text(b)) == spot1);
            let e = skip(s, k);
            lemma_skip(s, k);
            lemma_skipped(s, k);
            if !at(s, e, 61) {
                lemma_not_equals(s, e, spot1);
                none
            } else {
                lemma_punctuation(s, e);
                lemma_comes_first(spot1, s, e, Tok::Equals, e + 1);
                let f2 = below.push(Frame::Dict(path, Want::Value(key)));
                assert(f2.drop_last() =~= below);
                let spot2 = Spot::Inside(f2);
                assert(spot_step(spot1, Tok::Equals) == spot2);
                lemma_comes_on(spot, s, p, none, spot1, k, none, spot2, e + 1);
                assert(none + none =~= none);
                let mid = lemma_value_read(s, e + 1, f2);
                lemma_value(s, e + 1);
                if value(s, e + 1) is Err {
                    none
                } else {
                    let (v, r) = value(s, e + 1)->Ok_0;
                    let f3 = below.push(Frame::Dict(path, Want::End));
                    assert(f3.drop_last() =~= below);
                    let spot3 = Spot::Inside(f3);
                    assert(behind(f2, v is Str) == spot3);
                    lemma_comes_on(spot, s, p, none, spot2, e + 1, mid, spot3, r);
                    assert(none + mid =~= mid);
                    let t = skip(s, r);
                    lemma_skip(s, r);
                    lemma_skipped(s, r);
                    let semi = at(s, t, 59);
                    let u = if semi {
                        t + 1
                    } else {
                        t
                    };
                    let w = if semi {
                        Want::Key
                    } else {
                        Want::End
                    };
                    let f4 = below.push(Frame::Dict(path, w));
                    let spot4 = Spot::Inside(f4);
                    if semi {
                        lemma_punctuation(s, t);
                        lemma_comes_first(spot3, s, t, Tok::Semicolon, t + 1);
                        assert(spot_step(spot3, Tok::Semicolon) == spot4);
                    } else {
                        lemma_skip_again(s, r);
                        assert(none + run_facts(spot3, toks_from(Mode::Between, s, t))
                            =~= run_facts(spot3, toks_from(Mode::Between, s, t)));
                    }
                    assert(comes_to(spot3, s, r, none, spot4, u));
                    lemma_comes_on(spot, s, p, mid, spot3, r, none, spot4, u);
                    assert(mid + none =~= mid);
                    let acc2 = upsert(acc, key, v);
                    let more = lemma_dict_read(s, u, acc2, below, path, w);
                    lemma_dict(s, u, acc2);
                    let all = mid + more;
                    if dict(s, u, acc2) is Ok {
                        let (v2, z) = dict(s, u, acc2)->Ok_0;
                        lemma_comes_on(spot, s, p, mid, spot4, u, more, behind(below, false), z);
                        assert(had + all =~= (had + mid) + more);
                        lemma_entry_added(acc, path, key, v, mid, more, f2);
                        lemma_worth_concat(had + mid, more);
                        lemma_worth_concat(entry_facts(acc2, path), more);
                    }
                    all
                }
            }
        }
    }
}

proof fn lemma_not_equals(s: Seq<u8>, e: int, spot: Spot)
    requires
        0 <= e <= s.len(),
        ends_well(Mode::Between, s, e),
        skip(s, e) == e || e == s.len(),
        !at(s, e, 61),
        spot is Inside,
        spot->Inside_0.len() > 0,
        spot->Inside_0.last() is Dict,
        spot->Inside_0.last()->Dict_1 is Equals,
    ensures
        never_done(spot, s, e),
{
    if e < s.len() {
        if punctuation(s[e]).len() > 0 {
            lemma_punctuation(s, e);
            let t = punctuation(s[e])[0];
            assert(punctuation(s[e]) =~= seq![t]);
            lemma_comes_first(spot, s, e, t, e + 1);
            lemma_run_over(Spot::Failed, toks_from(Mode::Between, s, e + 1));
        } else {
            lemma_text_token(s, e);
            let text = if s[e] == 34 {
                quoted(s, e)
            } else {
                unquoted(s, e)
            };
            let (b, r) = choose|b: Seq<u8>, r: int|
                {
                    &&& e < r <= s.len()
                    &&& #[trigger] text_at(b, r, Seq::empty()) is Ok == text is Ok
                    &&& text is Ok ==> text->Ok_0 == (decode_utf8(b), r)
                    &&& text is Ok == valid_utf8(b)
                    &&& toks_from(Mode::Between, s, e) == seq![Tok::Text(b)] + toks_from(
                        Mode::Between,
                        s,
                        r,
                    )
                    &&& ends_well(Mode::Between, s, r)
                };
            lemma_comes_first(spot, s, e, Tok::Text(b), r);
            lemma_run_over(Spot::Failed, toks_from(Mode::Between, s, r));
        }
    } else {
        assert(toks_from(Mode::Between, s, e) =~= Seq::empty());
    }
}

/// One more entry.
proof fn lemma_entry_added(
    acc: Seq<(Seq<char>, Plist)>,
    path: Seq<Step>,
    key: Seq<char>,
    v: Plist,
    mid: Seq<Fact>,
    more: Seq<Fact>,
    frames: Seq<Frame>,
)
    requires
        frames.len() > 0,
        frames.last() == Frame::Dict(path, Want::Value(key)),
        worth(mid) == worth(placed_facts(frames, v)) || repeats_key(mid),
    ensures
        worth(entry_facts(acc, path) + mid) == worth(entry_facts(upsert(acc, key, v), path))
            || repeats_key(entry_facts(acc, path) + mid + more),
        repeats_key(entry_facts(upsert(acc, key, v), path) + more) && worth(
            entry_facts(acc, path) + mid,
        ) == worth(entry_facts(upsert(acc, key, v), path)) ==> repeats_key(
            entry_facts(acc, path) + mid + more,
        ),
{
    let had = entry_facts(acc, path);
    let to = path.push(Step::Key(key));
    let acc2 = upsert(acc, key, v);
    let now = entry_facts(acc2, path);
    lemma_repeats(had, mid);
    lemma_repeats(had + mid, more);
    lemma_worth_concat(had, mid);
    if !repeats_key(mid) {
        let one = seq![Fact::Key(to)] + facts_of(v, to);
        assert(worth(mid) == worth(one));
        lemma_slot(acc, key);
        if is_worth(to) {
            assert(one[0] == Fact::Key(to));
            assert(one.contains(Fact::Key(to)));
            lemma_worth_contains(one, Fact::Key(to));
            lemma_worth_contains(mid, Fact::Key(to));
            if slot(acc, key) is Some {
                lemma_known_key(acc, path, key);
                let i = choose|i: int| 0 <= i < had.len() && had[i] == Fact::Key(to);
                let j = choose|j: int| 0 <= j < mid.len() && mid[j] == Fact::Key(to);
                let all = had + mid;
                assert(all[i] == Fact::Key(to));
                assert(all[had.len() + j] == Fact::Key(to));
                assert(repeats_key(all));
            } else {
                assert(acc2.drop_last() =~= acc);
                assert(acc2.last() == (key, v));
                lemma_worth_concat(had, one);
            }
        } else {
            lemma_entry_not_worth(v, to);
            if slot(acc, key) is Some {
                lemma_update_not_worth(acc, path, slot(acc, key)->Some_0, key, v);
                assert(worth(had) + worth(mid) =~= worth(had));
            } else {
                assert(acc2.drop_last() =~= acc);
                assert(acc2.last() == (key, v));
                lemma_worth_concat(had, one);
            }
        }
    }
    lemma_worth_concat(had + mid, more);
    lemma_worth_concat(now, more);
    lemma_repeats_worth(had + mid + more);
    lemma_repeats_worth(now + more);
}

#[verifier::rlimit(80)]
#[verifier::spinoff_prover]
proof fn lemma_array_read(
    s: Seq<u8>,
    p: int,
    acc: Seq<Plist>,
    below: Seq<Frame>,
    path: Seq<Step>,
    comma: bool,
) -> (facts: Seq<Fact>)
    requires
        0 <= p <= s.len(),
        ends_well(Mode::Between, s, p),
        comma ==> !at(s, skip(s, p), 44),
    ensures
        ({
            let spot = Spot::Inside(below.push(Frame::List(path, containers(acc), comma)));
            match array(s, p, acc) {
                Ok((v, q)) => {
                    &&& v is Array
                    &&& comes_to(spot, s, p, facts, behind(below, false), q)
                    &&& worth(item_facts(acc, path) + facts) == worth(
                        item_facts(v->Array_0, path),
                    ) || repeats_key(facts)
                },
                Err(_) => never_done(spot, s, p),
            }
        }),
    decreases s.len() - p, 2int,
{
    let n = containers(acc);
    let frames = below.push(Frame::List(path, n, comma));
    let spot = Spot::Inside(frames);
    assert(frames.drop_last() =~= below);
    let none = Seq::<Fact>::empty();
    let q = skip(s, p);
    lemma_skip(s, p);
    lemma_skip_again(s, p);
    lemma_skipped(s, p);
    lemma_array(s, p, acc);
    let had = item_facts(acc, path);
    if q >= s.len() {
        assert(toks_from(Mode::Between, s, q) =~= Seq::empty());
        none
    } else if s[q] == 41 {
        lemma_punctuation(s, q);
        lemma_comes_first(spot, s, q, Tok::ListClose, q + 1);
        assert(value_facts(frames, Tok::ListClose) =~= none);
        assert(had + none =~= had);
        none
    } else {
        let mid = lemma_value_read(s, q, frames);
        lemma_value(s, q);
        if value(s, q) is Err {
            none
        } else {
            let (v, r) = value(s, q)->Ok_0;
            let n2 = if v is Str {
                n
            } else {
                n + 1
            };
            let f3 = below.push(Frame::List(path, n2, true));
            assert(f3.drop_last() =~= below);
            let spot3 = Spot::Inside(f3);
            assert(behind(frames, v is Str) == spot3);
            assert(comes_to(spot, s, p, mid, spot3, r));
            let t = skip(s, r);
            lemma_skip(s, r);
            lemma_skipped(s, r);
            let has_comma = at(s, t, 44);
            let u = if has_comma {
                t + 1
            } else {
                t
            };
            let spot4 = Spot::Inside(below.push(Frame::List(path, n2, !has_comma)));
            if has_comma {
                lemma_punctuation(s, t);
                lemma_comes_first(spot3, s, t, Tok::Comma, t + 1);
                assert(value_facts(f3, Tok::Comma) =~= none);
                assert(spot_step(spot3, Tok::Comma) == spot4);
            } else {
                lemma_skip_again(s, r);
                assert(none + run_facts(spot3, toks_from(Mode::Between, s, t)) =~= run_facts(
                    spot3,
                    toks_from(Mode::Between, s, t),
                ));
            }
            assert(comes_to(spot3, s, r, none, spot4, u));
            lemma_comes_on(spot, s, p, mid, spot3, r, none, spot4, u);
            assert(mid + none =~= mid);
            let acc2 = acc.push(v);
            assert(acc2.drop_last() =~= acc);
            assert(containers(acc2) == n2);
            let more = lemma_array_read(s, u, acc2, below, path, !has_comma);
            lemma_array(s, u, acc2);
            let all = mid + more;
            if array(s, u, acc2) is Ok {
                let (v2, z) = array(s, u, acc2)->Ok_0;
                lemma_comes_on(spot, s, p, mid, spot4, u, more, behind(below, false), z);
                lemma_repeats(mid, more);
                if !repeats_key(all) {
                    let one = placed_facts(frames, v);
                    assert(item_facts(acc2, path) == had + one);
                    assert(had + all =~= (had + mid) + more);
                    lemma_worth_concat(had, mid);
                    lemma_worth_concat(had, one);
                    lemma_worth_concat(had + mid, more);
                    lemma_worth_concat(item_facts(acc2, path), more);
                }
            }
            all
        }
    }
}

/// A text whose tokens can be read, without a key that comes twice where it counts,
/// holds the facts of its tokens that count: the parser reads it if and only if
/// its tokens are those of a value.
pub proof fn law_parser_reads_facts(s: Seq<u8>)
    requires
        ends_well(Mode::Between, s, 0),
        !repeats_key(run_facts(Spot::Start, toks_from(Mode::Between, s, 0))),
    ensures
        value(s, 0) is Ok == (run(Spot::Start, toks_from(Mode::Between, s, 0)) == Spot::Done),
        value(s, 0) is Ok ==> worth(run_facts(Spot::Start, toks_from(Mode::Between, s, 0)))
            == worth(facts_of(value(s, 0)->Ok_0.0, Seq::empty())),
{
    let facts = lemma_value_read(s, 0, Seq::empty());
    if value(s, 0) is Ok {
        let q = value(s, 0)->Ok_0.1;
        let rest = toks_from(Mode::Between, s, q);
        lemma_run_over(Spot::Done, rest);
        assert(facts + Seq::<Fact>::empty() =~= facts);
    }
}

} // verus!
