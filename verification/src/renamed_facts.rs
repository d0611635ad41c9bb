//! The facts of a text with other UUIDs, and of one with fewer lines.

use crate::lexing::Tok;
use crate::line_reading::{line_toks, renamed_tok, renamed_toks, spot_of, text_facts};
use crate::reading::{
    behind, inner_path, key_step, run, run_facts, spot_facts, spot_step, value_facts, value_step,
    Fact, Frame, Spot, Step, Want,
};
use crate::uniquifier::{is_orphan_line, new_line, rewrite_run, rewrite_step};
use vstd::prelude::*;
use vstd::utf8::{decode_utf8, valid_utf8};

verus! {

// ── Other UUIDs ──────────────────────────────────────────────────────────────

/// A change of texts.
pub type Change = spec_fn(Seq<char>) -> Seq<char>;

pub open spec fn renamed_step(g: Change, x: Step) -> Step {
    match x {
        Step::Key(k) => Step::Key(g(k)),
        _ => x,
    }
}

pub open spec fn renamed_path(g: Change, path: Seq<Step>) -> Seq<Step> {
    path.map_values(|x: Step| renamed_step(g, x))
}

pub open spec fn renamed_fact(g: Change, f: Fact) -> Fact {
    match f {
        Fact::Key(path) => Fact::Key(renamed_path(g, path)),
        Fact::Text(path, t) => Fact::Text(renamed_path(g, path), g(t)),
        Fact::Dict(path) => Fact::Dict(renamed_path(g, path)),
        Fact::List(path) => Fact::List(renamed_path(g, path)),
        Fact::Item(path, t) => Fact::Item(renamed_path(g, path), g(t)),
    }
}

pub open spec fn renamed_facts(g: Change, fs: Seq<Fact>) -> Seq<Fact> {
    fs.map_values(|f: Fact| renamed_fact(g, f))
}

spec fn renamed_want(g: Change, w: Want) -> Want {
    match w {
        Want::Equals(k) => Want::Equals(g(k)),
        Want::Value(k) => Want::Value(g(k)),
        _ => w,
    }
}

spec fn renamed_frame(g: Change, f: Frame) -> Frame {
    match f {
        Frame::Dict(path, w) => Frame::Dict(renamed_path(g, path), renamed_want(g, w)),
        Frame::List(path, n, comma) => Frame::List(renamed_path(g, path), n, comma),
    }
}

spec fn renamed_frames(g: Change, fs: Seq<Frame>) -> Seq<Frame> {
    fs.map_values(|f: Frame| renamed_frame(g, f))
}

pub closed spec fn renamed_spot(g: Change, s: Spot) -> Spot {
    match s {
        Spot::Inside(fs) => Spot::Inside(renamed_frames(g, fs)),
        _ => s,
    }
}

/// What is at its start, at its end or nowhere stays so.
pub proof fn lemma_renamed_ends(g: Change)
    ensures
        renamed_spot(g, Spot::Start) == Spot::Start,
        renamed_spot(g, Spot::Done) == Spot::Done,
{
}

proof fn lemma_path_push(g: Change, path: Seq<Step>, x: Step)
    ensures
        renamed_path(g, path.push(x)) == renamed_path(g, path).push(renamed_step(g, x)),
{
    assert(renamed_path(g, path.push(x)) =~= renamed_path(g, path).push(renamed_step(g, x)));
}

proof fn lemma_frames_push(g: Change, fs: Seq<Frame>, f: Frame)
    ensures
        renamed_frames(g, fs.push(f)) == renamed_frames(g, fs).push(renamed_frame(g, f)),
        renamed_frames(g, fs).len() == fs.len(),
        fs.len() > 0 ==> renamed_frames(g, fs).last() == renamed_frame(g, fs.last()),
        fs.len() > 0 ==> renamed_frames(g, fs).drop_last() == renamed_frames(g, fs.drop_last()),
{
    assert(renamed_frames(g, fs.push(f)) =~= renamed_frames(g, fs).push(renamed_frame(g, f)));
    if fs.len() > 0 {
        assert(renamed_frames(g, fs).drop_last() =~= renamed_frames(g, fs.drop_last()));
    }
}

proof fn lemma_behind(g: Change, fs: Seq<Frame>, is_string: bool)
    ensures
        behind(renamed_frames(g, fs), is_string) == renamed_spot(g, behind(fs, is_string)),
{
    if fs.len() > 0 {
        lemma_frames_push(g, fs, fs.last());
        let below = fs.drop_last();
        match fs.last() {
            Frame::Dict(path, _) => {
                lemma_frames_push(g, below, Frame::Dict(path, Want::End));
            },
            Frame::List(path, n, _) => {
                let m = if is_string {
                    n
                } else {
                    n + 1
                };
                lemma_frames_push(g, below, Frame::List(path, m, true));
            },
        }
    }
}

proof fn lemma_inner_path(g: Change, fs: Seq<Frame>)
    ensures
        inner_path(renamed_frames(g, fs)) == renamed_path(g, inner_path(fs)),
{
    if fs.len() > 0 {
        lemma_frames_push(g, fs, fs.last());
        match fs.last() {
            Frame::Dict(path, Want::Value(k)) => {
                lemma_path_push(g, path, Step::Key(k));
            },
            Frame::Dict(path, _) => {},
            Frame::List(path, n, _) => {
                lemma_path_push(g, path, Step::Nth(n));
            },
        }
    } else {
        assert(renamed_path(g, Seq::empty()) =~= Seq::empty());
    }
}

proof fn lemma_tok(g: Change, t: Tok)
    ensures
        t is Text == renamed_tok(g, t) is Text,
        t is Text ==> valid_utf8(renamed_tok(g, t)->Text_0) == valid_utf8(t->Text_0),
        t is Text && valid_utf8(t->Text_0) ==> decode_utf8(renamed_tok(g, t)->Text_0) == g(
            decode_utf8(t->Text_0),
        ),
        !(t is Text) ==> renamed_tok(g, t) == t,
{
    if let Tok::Text(b) = t {
        if valid_utf8(b) {
            let v = g(decode_utf8(b));
            vstd::utf8::encode_utf8_valid_utf8(v);
            vstd::utf8::encode_utf8_decode_utf8(v);
        }
    }
}

proof fn lemma_value_step(g: Change, fs: Seq<Frame>, t: Tok)
    ensures
        value_step(renamed_frames(g, fs), renamed_tok(g, t)) == renamed_spot(g, value_step(fs, t)),
{
    lemma_tok(g, t);
    lemma_inner_path(g, fs);
    lemma_behind(g, fs, true);
    lemma_frames_push(g, fs, Frame::Dict(inner_path(fs), Want::Key));
    lemma_frames_push(g, fs, Frame::List(inner_path(fs), 0, false));
}

proof fn lemma_key_step(g: Change, fs: Seq<Frame>, path: Seq<Step>, t: Tok)
    ensures
        key_step(renamed_frames(g, fs), renamed_path(g, path), renamed_tok(g, t)) == renamed_spot(
            g,
            key_step(fs, path, t),
        ),
{
    lemma_tok(g, t);
    lemma_behind(g, fs, false);
    if let Tok::Text(b) = t {
        lemma_frames_push(g, fs, Frame::Dict(path, Want::Equals(decode_utf8(b))));
    }
}

#[verifier::rlimit(40)]
#[verifier::spinoff_prover]
proof fn lemma_spot_step(g: Change, spot: Spot, t: Tok)
    ensures
        spot_step(renamed_spot(g, spot), renamed_tok(g, t)) == renamed_spot(
            g,
            spot_step(spot, t),
        ),
{
    lemma_tok(g, t);
    match spot {
        Spot::Start => {
            lemma_value_step(g, Seq::empty(), t);
            assert(renamed_frames(g, Seq::empty()) =~= Seq::empty());
        },
        Spot::Inside(fs) => {
            if fs.len() > 0 {
                lemma_frames_push(g, fs, fs.last());
                let below = fs.drop_last();
                lemma_value_step(g, fs, t);
                match fs.last() {
                    Frame::Dict(path, want) => {
                        lemma_key_step(g, below, path, t);
                        lemma_frames_push(g, below, Frame::Dict(path, Want::Key));
                        if let Want::Equals(k) = want {
                            lemma_frames_push(g, below, Frame::Dict(path, Want::Value(k)));
                        }
                    },
                    Frame::List(path, n, comma) => {
                        lemma_behind(g, below, false);
                        lemma_frames_push(g, below, Frame::List(path, n, false));
                    },
                }
            }
        },
        _ => {},
    }
}

/// Every string among the tokens is a text.
pub open spec fn all_valid(ts: Seq<Tok>) -> bool {
    forall|k: int| 0 <= k < ts.len() && (#[trigger] ts[k]) is Text ==> valid_utf8(ts[k]->Text_0)
}

#[verifier::rlimit(40)]
#[verifier::spinoff_prover]
proof fn lemma_value_facts(g: Change, fs: Seq<Frame>, t: Tok)
    requires
        t is Text ==> valid_utf8(t->Text_0),
    ensures
        value_facts(renamed_frames(g, fs), renamed_tok(g, t)) == renamed_facts(
            g,
            value_facts(fs, t),
        ),
{
    lemma_tok(g, t);
    lemma_inner_path(g, fs);
    if fs.len() > 0 {
        lemma_frames_push(g, fs, fs.last());
    }
    assert(value_facts(renamed_frames(g, fs), renamed_tok(g, t)) =~= renamed_facts(
        g,
        value_facts(fs, t),
    ));
}

proof fn lemma_spot_facts(g: Change, spot: Spot, t: Tok)
    requires
        t is Text ==> valid_utf8(t->Text_0),
    ensures
        spot_facts(renamed_spot(g, spot), renamed_tok(g, t)) == renamed_facts(
            g,
            spot_facts(spot, t),
        ),
{
    assert(renamed_facts(g, Seq::empty()) =~= Seq::empty());
    match spot {
        Spot::Start => {
            lemma_value_facts(g, Seq::empty(), t);
            assert(renamed_frames(g, Seq::empty()) =~= Seq::empty());
        },
        Spot::Inside(fs) => {
            if fs.len() > 0 {
                lemma_frames_push(g, fs, fs.last());
                lemma_value_facts(g, fs, t);
            }
        },
        _ => {},
    }
}

proof fn lemma_renamed_run(g: Change, spot: Spot, ts: Seq<Tok>)
    requires
        all_valid(ts),
    ensures
        run(renamed_spot(g, spot), renamed_toks(g, ts)) == renamed_spot(g, run(spot, ts)),
        run_facts(renamed_spot(g, spot), renamed_toks(g, ts)) == renamed_facts(
            g,
            run_facts(spot, ts),
        ),
    decreases ts.len(),
{
    if ts.len() > 0 {
        let t = ts[0];
        let rest = ts.drop_first();
        assert forall|k: int| 0 <= k < rest.len() && (#[trigger] rest[k]) is Text implies valid_utf8(
            rest[k]->Text_0,
        ) by {
            assert(rest[k] == ts[k + 1]);
        }
        lemma_spot_step(g, spot, t);
        lemma_spot_facts(g, spot, t);
        lemma_renamed_run(g, spot_step(spot, t), rest);
        assert(renamed_toks(g, ts).drop_first() =~= renamed_toks(g, rest));
        assert(renamed_facts(g, run_facts(spot, ts)) =~= renamed_facts(g, spot_facts(spot, t))
            + renamed_facts(g, run_facts(spot_step(spot, t), rest)));
    } else {
        assert(renamed_facts(g, Seq::empty()) =~= Seq::empty());
    }
}

/// Every string of a line is a text.
pub open spec fn has_valid_strings(l: Seq<char>) -> bool {
    all_valid(line_toks(l))
}

/// The line `b` has the tokens of the line `a`, with other UUIDs.
pub open spec fn is_line_renamed(g: Change, a: Seq<char>, b: Seq<char>) -> bool {
    has_valid_strings(a) && line_toks(b) == renamed_toks(g, line_toks(a))
}

/// The facts of renamed lines are the renamed facts.
pub proof fn lemma_renamed_text(g: Change, a: Seq<Seq<char>>, b: Seq<Seq<char>>)
    requires
        a.len() == b.len(),
        forall|i: int| 0 <= i < a.len() ==> is_line_renamed(g, #[trigger] a[i], b[i]),
    ensures
        spot_of(b) == renamed_spot(g, spot_of(a)),
        text_facts(b) == renamed_facts(g, text_facts(a)),
    decreases a.len(),
{
    if a.len() == 0 {
        assert(renamed_facts(g, Seq::empty()) =~= Seq::empty());
        lemma_renamed_ends(g);
    } else {
        let x = a.drop_last();
        let y = b.drop_last();
        assert forall|i: int| 0 <= i < x.len() implies is_line_renamed(g, #[trigger] x[i], y[i]) by {
            assert(x[i] == a[i] && y[i] == b[i]);
        }
        lemma_renamed_text(g, x, y);
        assert(is_line_renamed(g, a[a.len() - 1], b[b.len() - 1]));
        lemma_renamed_run(g, spot_of(x), line_toks(a.last()));
        assert(renamed_facts(g, text_facts(a)) =~= renamed_facts(g, text_facts(x)) + renamed_facts(
            g,
            run_facts(spot_of(x), line_toks(a.last())),
        ));
    }
}

// ── Fewer lines ──────────────────────────────────────────────────────────────

/// The lines that rewriting keeps.
pub open spec fn kept_lines(
    map: Seq<(Seq<char>, Seq<char>)>,
    remove: Seq<Seq<char>>,
    ls: Seq<Seq<char>>,
) -> Seq<Seq<char>>
    decreases ls.len(),
{
    if ls.len() == 0 {
        Seq::empty()
    } else {
        let before = kept_lines(map, remove, ls.drop_last());
        if rewrite_run(map, remove, ls.drop_last()).skip_to is None && !is_orphan_line(
            map,
            remove,
            ls.last(),
        ) {
            before.push(ls.last())
        } else {
            before
        }
    }
}

/// Rewriting rewrites the lines that it keeps.
pub proof fn lemma_rewritten_kept(
    map: Seq<(Seq<char>, Seq<char>)>,
    remove: Seq<Seq<char>>,
    ls: Seq<Seq<char>>,
)
    ensures
        rewrite_run(map, remove, ls).out == kept_lines(map, remove, ls).map_values(
            |l: Seq<char>| new_line(map, l),
        ),
        forall|i: int|
            0 <= i < kept_lines(map, remove, ls).len() ==> ls.contains(
                #[trigger] kept_lines(map, remove, ls)[i],
            ) && !is_orphan_line(map, remove, kept_lines(map, remove, ls)[i]),
    decreases ls.len(),
{
    let f = |l: Seq<char>| new_line(map, l);
    let kept = kept_lines(map, remove, ls);
    if ls.len() == 0 {
        assert(kept.map_values(f) =~= Seq::empty());
    } else {
        let rest = ls.drop_last();
        lemma_rewritten_kept(map, remove, rest);
        let before = kept_lines(map, remove, rest);
        let st = rewrite_run(map, remove, rest);
        assert(rewrite_run(map, remove, ls) == rewrite_step(map, remove, st, ls.last()));
        assert forall|i: int| 0 <= i < kept.len() implies ls.contains(#[trigger] kept[i])
            && !is_orphan_line(map, remove, kept[i]) by {
            if i < before.len() {
                assert(kept[i] == before[i]);
                let k = choose|k: int| 0 <= k < rest.len() && rest[k] == before[i];
                assert(ls[k] == kept[i]);
            } else {
                assert(ls[ls.len() - 1] == kept[i]);
            }
        }
        if kept.len() > before.len() {
            assert(kept.map_values(f) =~= before.map_values(f).push(new_line(map, ls.last())));
        }
    }
}

/// Dropping lines leaves the reading where it would be: what is dropped is whole
/// entries and items.
pub open spec fn drops_whole_entries(
    map: Seq<(Seq<char>, Seq<char>)>,
    remove: Seq<Seq<char>>,
    ls: Seq<Seq<char>>,
) -> bool {
    &&& rewrite_run(map, remove, ls).skip_to is None
    &&& forall|k: int|
        0 <= k <= ls.len() && rewrite_run(map, remove, #[trigger] ls.take(k)).skip_to is None
            ==> spot_of(kept_lines(map, remove, ls.take(k))) == spot_of(ls.take(k))
}

/// What is kept holds no fact more often.
pub proof fn lemma_kept_facts(
    map: Seq<(Seq<char>, Seq<char>)>,
    remove: Seq<Seq<char>>,
    ls: Seq<Seq<char>>,
    n: int,
)
    requires
        drops_whole_entries(map, remove, ls),
        0 <= n <= ls.len(),
    ensures
        text_facts(kept_lines(map, remove, ls.take(n))).to_multiset().subset_of(
            text_facts(ls.take(n)).to_multiset(),
        ),
    decreases n,
{
    if n == 0 {
        assert(ls.take(0) =~= Seq::empty());
    } else {
        lemma_kept_facts(map, remove, ls, n - 1);
        let rest = ls.take(n - 1);
        assert(ls.take(n).drop_last() =~= rest);
        let line = ls[n - 1];
        let kept = kept_lines(map, remove, rest);
        let more = run_facts(spot_of(rest), line_toks(line));
        vstd::seq_lib::lemma_multiset_commutative(text_facts(rest), more);
        if rewrite_run(map, remove, rest).skip_to is None && !is_orphan_line(map, remove, line) {
            assert(kept_lines(map, remove, ls.take(n)).drop_last() =~= kept);
            assert(spot_of(kept) == spot_of(rest));
            vstd::seq_lib::lemma_multiset_commutative(text_facts(kept), more);
        }
    }
}

} // verus!
