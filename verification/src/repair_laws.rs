//! Repairing the references of a scheme again changes nothing.

use crate::pattern::{
    attribute_hit, hit_at, hits, hits_from, is_word, reference_hit, run_len, value_start, Hit,
    BLUEPRINT, BUILDABLE_REF, SCHEME_ATTR, UUID,
};
use crate::scheme_laws::{lemma_replaced_is_woven, woven};
use crate::scheme_updater::{
    attribute, attribute_place, canonical, identifier, named_until, repaired, repaired_block,
    with_identifier,
};
use crate::settled_laws::{in_order, lemma_hits_in_order};
use crate::table::lookup;
use crate::text::{indent, is_white, lemma_indent, lemma_indent_bound};
use vstd::prelude::*;

verus! {

proof fn lemma_patterns_differ()
    ensures
        BUILDABLE_REF@ != UUID@,
        BUILDABLE_REF@ != BLUEPRINT@,
        SCHEME_ATTR@ != UUID@,
        SCHEME_ATTR@ != BLUEPRINT@,
        SCHEME_ATTR@ != BUILDABLE_REF@,
{
    reveal_strlit("BlueprintIdentifier\\s*=\\s*\"([0-9A-Fa-f]{32}|[0-9A-Fa-f]{24})\"");
    reveal_strlit(r"\b([0-9A-Fa-f]{32}|[0-9A-Fa-f]{24})\b");
    reveal_strlit(r"(?s)<BuildableReference\b[^>]*>");
    reveal_strlit("(\\w+)\\s*=\\s*\"([^\"]*)\"");
    assert(UUID@.len() == 37);
    assert(BLUEPRINT@.len() == 61);
    assert(BUILDABLE_REF@.len() == 31);
    assert(SCHEME_ATTR@.len() == 21);
}

// ── Tags ─────────────────────────────────────────────────────────────────────

/// The reference that a text begins with.
spec fn leading(t: Seq<char>) -> Option<Hit> {
    reference_hit(t, 0)
}

/// The text of a tag: the only `>` is its last character.
spec fn is_tag(b: Seq<char>) -> bool {
    &&& b.len() > 20
    &&& b.take(19) == "<BuildableReference"@
    &&& !is_word(b[19])
    &&& b.last() == '>'
    &&& forall|i: int| 0 <= i < b.len() - 1 ==> #[trigger] b[i] != '>'
}

proof fn lemma_run_until(s: Seq<char>)
    ensures
        run_len(s, |c: char| c != '>') <= s.len(),
        forall|i: int| 0 <= i < run_len(s, |c: char| c != '>') ==> #[trigger] s[i] != '>',
        run_len(s, |c: char| c != '>') < s.len() ==> s[run_len(s, |c: char| c != '>') as int]
            == '>',
    decreases s.len(),
{
    let class = |c: char| c != '>';
    if s.len() > 0 && class(s[0]) {
        let t = s.drop_first();
        lemma_run_until(t);
        assert forall|i: int| 0 <= i < run_len(s, class) implies #[trigger] s[i] != '>' by {
            if i > 0 {
                assert(s[i] == t[i - 1]);
            }
        }
        if run_len(s, class) < s.len() {
            assert(s[run_len(s, class) as int] == t[run_len(t, class) as int]);
        }
    }
}

proof fn lemma_run_len(s: Seq<char>, n: int)
    requires
        0 <= n < s.len(),
        s[n] == '>',
        forall|i: int| 0 <= i < n ==> #[trigger] s[i] != '>',
    ensures
        run_len(s, |c: char| c != '>') == n,
{
    lemma_run_until(s);
    let r = run_len(s, |c: char| c != '>') as int;
    if r < n {
        assert(s[r] != '>');
    }
    if n < r {
        assert(s[n] != '>');
    }
}

/// What a match is made of.
proof fn lemma_match(s: Seq<char>, i: int)
    requires
        0 <= i <= s.len(),
    ensures
        reference_hit(s, i) is Some == leading(s.skip(i)) is Some,
        reference_hit(s, i) is Some ==> {
            let h = reference_hit(s, i)->Some_0;
            let h0 = leading(s.skip(i))->Some_0;
            &&& h.start == i && h0.start == 0
            &&& h.end == i + h0.end
            &&& i < h.end <= s.len()
            &&& s.subrange(h.start, h.end) == s.skip(i).take(h0.end)
            &&& h0.end > 20 ==> is_tag(s.skip(i).take(h0.end))
            &&& h0.end >= 20
        },
{
    reveal_strlit("<BuildableReference");
    let t = s.skip(i);
    let name = "<BuildableReference"@;
    if i + 19 <= s.len() {
        assert(s.subrange(i, i + 19) =~= t.subrange(0, 19));
        assert(s.skip(i + 19) =~= t.skip(19));
        let rest = t.skip(19);
        lemma_run_until(rest);
        let n = run_len(rest, |c: char| c != '>') as int;
        if i + 19 + n < s.len() {
            assert(s.subrange(i + 19 + n, i + 20 + n) =~= t.subrange(19 + n, 20 + n));
            assert(t.subrange(19 + n, 20 + n)[0] == rest[n]);
        }
        if reference_hit(s, i) is Some {
            let h = reference_hit(s, i)->Some_0;
            assert(h.end == i + 20 + n);
            let b = t.take(20 + n);
            assert(s.subrange(i, h.end) =~= b);
            assert(b.take(19) =~= t.subrange(0, 19));
            assert(b.last() == rest[n]);
            assert forall|k: int| 0 <= k < b.len() - 1 implies #[trigger] b[k] != '>' by {
                if k < 19 {
                    assert(b[k] == b.take(19)[k]);
                } else {
                    assert(b[k] == rest[k - 19]);
                }
            }
            if n > 0 {
                assert(b[19] == rest[0]);
            }
        }
    }
}

/// A tag at the start of a text is found.
proof fn lemma_tag_leads(b: Seq<char>, rest: Seq<char>)
    requires
        is_tag(b),
    ensures
        leading(b + rest) is Some,
        leading(b + rest)->Some_0.end == b.len(),
{
    reveal_strlit("<BuildableReference");
    let t = b + rest;
    assert(t.subrange(0, 19) =~= b.take(19));
    let tail = t.skip(19);
    assert(tail[0] == b[19]);
    let n = b.len() - 20;
    assert(tail[n] == b.last());
    assert forall|i: int| 0 <= i < n implies #[trigger] tail[i] != '>' by {
        assert(tail[i] == b[19 + i]);
    }
    lemma_run_len(tail, n);
    assert(t.subrange(19 + n, 20 + n) =~= seq!['>']);
}

// ── Writing another identifier ───────────────────────────────────────────────

/// How far a run reaches.
proof fn lemma_run(s: Seq<char>, class: spec_fn(char) -> bool)
    ensures
        run_len(s, class) <= s.len(),
        forall|i: int| 0 <= i < run_len(s, class) ==> class(#[trigger] s[i]),
        run_len(s, class) < s.len() ==> !class(s[run_len(s, class) as int]),
    decreases s.len(),
{
    if s.len() > 0 && class(s[0]) {
        let t = s.drop_first();
        lemma_run(t, class);
        assert forall|i: int| 0 <= i < run_len(s, class) implies class(#[trigger] s[i]) by {
            if i > 0 {
                assert(s[i] == t[i - 1]);
            }
        }
    }
}

/// A run that ends at the same place in two texts that agree up to there.
proof fn lemma_run_is(s: Seq<char>, class: spec_fn(char) -> bool, n: int)
    requires
        0 <= n < s.len(),
        forall|i: int| 0 <= i < n ==> class(#[trigger] s[i]),
        !class(s[n]),
    ensures
        run_len(s, class) == n,
{
    lemma_run(s, class);
    let r = run_len(s, class) as int;
    if r < n {
        assert(class(s[r]));
    }
    if n < r {
        assert(class(s[n]));
    }
}

/// The place of an identifier in a text: its name, and the value behind it.
spec fn is_place(s: Seq<char>, p: int) -> bool {
    &&& 0 <= p < s.len()
    &&& attribute_hit(s, p) is Some
    &&& attribute_hit(s, p)->Some_0.first == "BlueprintIdentifier"@
}

/// What stands at the place of an identifier.
proof fn lemma_place(s: Seq<char>, p: int)
    requires
        is_place(s, p),
    ensures
        p + 21 < attribute_hit(s, p)->Some_0.end <= s.len(),
        s[p] == 'B',
        s[p + 1] == 'l',
        run_len(s.skip(p), |c: char| is_word(c)) == 19,
        s.subrange(p, p + 19) == "BlueprintIdentifier"@,
        s[attribute_hit(s, p)->Some_0.end - 1] == '"',
{
    reveal_strlit("BlueprintIdentifier");
    let word = |c: char| is_word(c);
    lemma_run(s.skip(p), word);
    let n = run_len(s.skip(p), word) as int;
    let h = attribute_hit(s, p)->Some_0;
    assert(h.first == s.subrange(p, p + n));
    assert(n == 19);
    assert(h.first[0] == s[p] && h.first[1] == s[p + 1]);
    let v = value_start(s, p + 19)->Some_0;
    lemma_run(s.skip(v), |c: char| c != '"');
    let close = v + run_len(s.skip(v), |c: char| c != '"');
    assert(s.subrange(close, close + 1)[0] == s[close]);
}

/// An attribute before an identifier is the same whatever the identifier.
#[verifier::rlimit(40)]
#[verifier::spinoff_prover]
proof fn lemma_attribute_before(s: Seq<char>, r: Seq<char>, i: int, p: int)
    requires
        0 <= i < p,
        is_place(s, p),
        p + 19 <= r.len(),
        r.take(p + 19) == s.take(p + 19),
        attribute_hit(s, i) is None || attribute_hit(s, i)->Some_0.end <= p,
    ensures
        attribute_hit(r, i) == attribute_hit(s, i),
{
    lemma_place(s, p);
    let word = |c: char| is_word(c);
    let inside = |c: char| c != '"';
    assert forall|k: int| 0 <= k < p + 19 implies r[k] == s[k] by {
        assert(r.take(p + 19)[k] == r[k]);
        assert(s.take(p + 19)[k] == s[k]);
    }
    let h = attribute_hit(s, p)->Some_0;
    let o = s.skip(i);
    lemma_run(o, word);
    lemma_run(s.skip(p), word);
    let n = run_len(o, word) as int;
    if i + n >= p {
        assert forall|k: int| 0 <= k < p - i + 19 implies word(#[trigger] o[k]) by {
            if k >= p - i {
                assert(o[k] == s.skip(p)[k - (p - i)]);
            }
        }
        assert(o[p - i + 19] == s.skip(p)[19]);
        lemma_run_is(o, word, p - i + 19);
        assert(i + n == p + 19);
        assert(false);
    }
    assert(o[n] == s[i + n]);
    assert forall|k: int| 0 <= k < n implies word(#[trigger] r.skip(i)[k]) by {
        assert(o[k] == r.skip(i)[k]);
    }
    lemma_run_is(r.skip(i), word, n);
    assert(s.subrange(i, i + n) =~= r.subrange(i, i + n));
    let j = i + n;
    lemma_value_before(s, r, j, p);
    if value_start(s, j) is Some && n >= 1 {
        let v = value_start(s, j)->Some_0;
        lemma_run(s.skip(v), inside);
        let c = run_len(s.skip(v), inside) as int;
        if v + c >= p {
            if v + c >= s.len() {
                assert(s.skip(v)[h.end - 1 - v] == '"');
                assert(inside(s.skip(v)[h.end - 1 - v]));
            }
            assert(s.skip(v)[c] == s[v + c]);
            assert(s.subrange(v + c, v + c + 1) =~= seq!['"']);
            assert(false);
        }
        assert(s.skip(v)[c] == s[v + c]);
        assert forall|k: int| 0 <= k < c implies inside(#[trigger] r.skip(v)[k]) by {
            assert(r.skip(v)[k] == s.skip(v)[k]);
        }
        lemma_run_is(r.skip(v), inside, c);
        assert(s.subrange(v, v + c) =~= r.subrange(v, v + c));
        assert(s.subrange(v + c, v + c + 1) =~= r.subrange(v + c, v + c + 1));
    }
}

proof fn lemma_value_before(s: Seq<char>, r: Seq<char>, j: int, p: int)
    requires
        0 <= j < p < s.len(),
        p < r.len(),
        s[p] == 'B',
        forall|k: int| 0 <= k <= p ==> r[k] == s[k],
    ensures
        value_start(r, j) == value_start(s, j),
        value_start(s, j) is Some ==> j < value_start(s, j)->Some_0 <= p,
{
    assert(!is_white('B'));
    lemma_indent_before(s, r, j, p);
    let eq = j + indent(s.skip(j));
    assert(s.subrange(eq, eq + 1) =~= seq![s[eq]]);
    assert(r.subrange(eq, eq + 1) =~= seq![r[eq]]);
    assert(seq![s[eq]][0] == s[eq]);
    assert(seq!['='][0] == '=');
    if s[eq] == '=' {
        assert(eq < p);
        assert(seq![s[eq]] =~= seq!['=']);
        lemma_indent_before(s, r, eq + 1, p);
        let quote = eq + 1 + indent(s.skip(eq + 1));
        assert(s.subrange(quote, quote + 1) =~= seq![s[quote]]);
        assert(r.subrange(quote, quote + 1) =~= seq![r[quote]]);
        assert(seq![s[quote]][0] == s[quote]);
        assert(seq!['"'][0] == '"');
    }
}

proof fn lemma_indent_before(s: Seq<char>, r: Seq<char>, j: int, p: int)
    requires
        0 <= j <= p < s.len(),
        p < r.len(),
        !is_white(s[p]),
        forall|k: int| 0 <= k <= p ==> r[k] == s[k],
    ensures
        indent(r.skip(j)) == indent(s.skip(j)),
        j + indent(s.skip(j)) <= p,
{
    let a = s.skip(j);
    let b = r.skip(j);
    lemma_indent_bound(a);
    let n = indent(a) as int;
    if n > p - j {
        assert(is_white(a[p - j]));
    }
    assert forall|k: int| 0 <= k < n implies is_white(b[k]) by {
        assert(b[k] == a[k]);
    }
    assert(b[n] == a[n]);
    lemma_indent(b, n);
}

proof fn lemma_named_first(h: Hit, rest: Seq<Hit>, name: Seq<char>, k: int)
    requires
        0 <= k <= rest.len(),
    ensures
        named_until(seq![h] + rest, name, k + 1) == if h.first == name {
            Some(h)
        } else {
            named_until(rest, name, k)
        },
    decreases k,
{
    let all = seq![h] + rest;
    assert(all[0] == h);
    if k > 0 {
        lemma_named_first(h, rest, name, k - 1);
        assert(all[k] == rest[k - 1]);
    } else {
        assert(named_until(all, name, 0) is None);
    }
}

proof fn lemma_named_in_order(s: Seq<char>, hs: Seq<Hit>, from: int, name: Seq<char>, k: int)
    requires
        in_order(s, hs, from),
        0 <= k <= hs.len(),
        named_until(hs, name, k) is Some,
    ensures
        from <= named_until(hs, name, k)->Some_0.start,
        named_until(hs, name, k)->Some_0.first == name,
    decreases k,
{
    if k > 0 {
        if named_until(hs, name, k - 1) is Some {
            lemma_named_in_order(s, hs, from, name, k - 1);
        } else {
            assert(from <= hs[k - 1].start);
        }
    }
}

/// The first attribute with a name, from a position on.
spec fn named_from(s: Seq<char>, i: int, name: Seq<char>) -> Option<Hit> {
    let hs = hits_from(SCHEME_ATTR@, s, i);
    named_until(hs, name, hs.len() as int)
}

/// An identifier is found where it stands, whatever its value.
#[verifier::rlimit(60)]
#[verifier::spinoff_prover]
proof fn lemma_found_again(s: Seq<char>, r: Seq<char>, i: int, p: int)
    requires
        0 <= i <= p,
        named_from(s, i, "BlueprintIdentifier"@) is Some,
        named_from(s, i, "BlueprintIdentifier"@)->Some_0.start == p,
        p + 19 <= r.len(),
        r.take(p + 19) == s.take(p + 19),
        is_place(r, p),
    ensures
        named_from(r, i, "BlueprintIdentifier"@) == attribute_hit(r, p),
        is_place(s, p),
        named_from(s, i, "BlueprintIdentifier"@) == attribute_hit(s, p),
    decreases p - i,
{
    lemma_patterns_differ();
    let name = "BlueprintIdentifier"@;
    let hs = hits_from(SCHEME_ATTR@, s, i);
    lemma_hits_in_order(SCHEME_ATTR@, s, i);
    lemma_named_in_order(s, hs, i, name, hs.len() as int);
    assert(i < s.len());
    let h = hit_at(SCHEME_ATTR@, s, i);
    assert(h == attribute_hit(s, i));
    assert(hit_at(SCHEME_ATTR@, r, i) == attribute_hit(r, i));
    if h is Some && i < h->Some_0.end <= s.len() {
        let hit = h->Some_0;
        let rest = hits_from(SCHEME_ATTR@, s, hit.end);
        lemma_named_first(hit, rest, name, rest.len() as int);
        if i < p {
            lemma_hits_in_order(SCHEME_ATTR@, s, hit.end);
            lemma_named_in_order(s, rest, hit.end, name, rest.len() as int);
            lemma_found_again(s, r, hit.end, p);
            lemma_attribute_before(s, r, i, p);
            let more = hits_from(SCHEME_ATTR@, r, hit.end);
            lemma_named_first(hit, more, name, more.len() as int);
        } else if hit.first != name {
            lemma_hits_in_order(SCHEME_ATTR@, s, hit.end);
            lemma_named_in_order(s, rest, hit.end, name, rest.len() as int);
        }
    } else {
        lemma_hits_in_order(SCHEME_ATTR@, s, i + 1);
        let rest = hits_from(SCHEME_ATTR@, s, i + 1);
        lemma_named_in_order(s, rest, i + 1, name, rest.len() as int);
        lemma_found_again(s, r, i + 1, p);
        if h is Some {
            lemma_hit_end(s, i);
        }
        lemma_attribute_before(s, r, i, p);
    }
    if i == p {
        lemma_place(r, p);
        let hit = attribute_hit(r, p)->Some_0;
        let rest = hits_from(SCHEME_ATTR@, r, hit.end);
        lemma_named_first(hit, rest, name, rest.len() as int);
    }
}

proof fn lemma_hit_end(s: Seq<char>, i: int)
    requires
        0 <= i < s.len(),
        attribute_hit(s, i) is Some,
    ensures
        i < attribute_hit(s, i)->Some_0.end <= s.len(),
{
    let n = run_len(s.skip(i), |c: char| is_word(c)) as int;
    lemma_run(s.skip(i), |c: char| is_word(c));
    lemma_indent_bound(s.skip(i + n));
    let v = value_start(s, i + n)->Some_0;
    lemma_run(s.skip(v), |c: char| c != '"');
}

/// An identifier as it is written is one.
proof fn lemma_written_place(a: Seq<char>, u: Seq<char>, c: Seq<char>)
    requires
        !u.contains('"'),
    ensures
        is_place(a + identifier(u) + c, a.len() as int),
        attribute_hit(a + identifier(u) + c, a.len() as int)->Some_0.second == u,
{
    reveal_strlit("BlueprintIdentifier = \"");
    reveal_strlit("BlueprintIdentifier");
    reveal_strlit("\"");
    let s = a + identifier(u) + c;
    let p = a.len() as int;
    let word = |c: char| is_word(c);
    let inside = |c: char| c != '"';
    assert forall|k: int| 0 <= k < identifier(u).len() implies s[p + k] == #[trigger] identifier(
        u,
    )[k] by {
    }
    assert(s.subrange(p, p + 19) =~= "BlueprintIdentifier"@);
    let o = s.skip(p);
    assert forall|k: int| 0 <= k < 19 implies word(#[trigger] o[k]) by {
        assert(o[k] == "BlueprintIdentifier"@[k]);
    }
    assert(o[19] == identifier(u)[19]);
    assert(identifier(u)[19] == ' ' && identifier(u)[20] == '=' && identifier(u)[21] == ' ');
    assert(identifier(u)[22] == '"');
    lemma_run_is(o, word, 19);
    let a1 = s.skip(p + 19);
    assert(a1[0] == identifier(u)[19] && a1[1] == identifier(u)[20]);
    lemma_indent(a1, 1);
    assert(s.subrange(p + 20, p + 21) =~= seq!['=']);
    let a2 = s.skip(p + 21);
    assert(a2[0] == identifier(u)[21] && a2[1] == identifier(u)[22]);
    lemma_indent(a2, 1);
    assert(s.subrange(p + 22, p + 23) =~= seq!['"']);
    assert(value_start(s, p + 19) == Some(p + 23));
    let v = p + 23;
    let a3 = s.skip(v);
    let m = u.len() as int;
    assert forall|k: int| 0 <= k < m implies inside(#[trigger] a3[k]) by {
        assert(a3[k] == identifier(u)[23 + k]);
        assert(u.contains(u[k]));
    }
    assert(a3[m] == identifier(u)[23 + m]);
    lemma_run_is(a3, inside, m);
    assert(s.subrange(v + m, v + m + 1) =~= seq!['"']);
    assert(s.subrange(v, v + m) =~= u);
}

/// A reference that is repaired has the new UUID then, and nothing before or
/// behind its identifier is changed.
pub proof fn law_repair_takes_effect(block: Seq<char>, u: Seq<char>)
    requires
        attribute(block, "BlueprintIdentifier"@) is Some,
        !u.contains('"'),
    ensures
        attribute(with_identifier(block, u), "BlueprintIdentifier"@) == Some(u),
        ({
            let h = attribute_place(block, "BlueprintIdentifier"@)->Some_0;
            let n = identifier(u).len();
            &&& with_identifier(block, u).take(h.start) == block.take(h.start)
            &&& with_identifier(block, u).skip(h.start + n) == block.skip(h.end)
        }),
{
    lemma_identifier_place(block, u);
    let h = attribute_place(block, "BlueprintIdentifier"@)->Some_0;
    let r = with_identifier(block, u);
    assert(r.take(h.start) =~= block.take(h.start));
    assert(r.skip(h.start + identifier(u).len()) =~= block.skip(h.end));
}

proof fn lemma_identifier_place(block: Seq<char>, u: Seq<char>)
    requires
        attribute(block, "BlueprintIdentifier"@) is Some,
        !u.contains('"'),
    ensures
        ({
            let h = attribute_place(block, "BlueprintIdentifier"@)->Some_0;
            let r = with_identifier(block, u);
            &&& is_place(block, h.start)
            &&& attribute_hit(block, h.start) == Some(h)
            &&& r == block.take(h.start) + identifier(u) + block.skip(h.end)
            &&& attribute(r, "BlueprintIdentifier"@) == Some(u)
        }),
{
    reveal_strlit("BlueprintIdentifier = \"");
    reveal_strlit("BlueprintIdentifier");
    let h = attribute_place(block, "BlueprintIdentifier"@)->Some_0;
    let hs = hits(SCHEME_ATTR@, block);
    lemma_hits_in_order(SCHEME_ATTR@, block, 0);
    lemma_named_in_order(block, hs, 0, "BlueprintIdentifier"@, hs.len() as int);
    let p = h.start;
    lemma_attribute_found(block, 0, p);
    lemma_place(block, p);
    let a = block.take(p);
    let r = with_identifier(block, u);
    assert(r == a + identifier(u) + block.skip(h.end));
    lemma_written_place(a, u, block.skip(h.end));
    assert(block.take(p + 19) =~= a + block.subrange(p, p + 19));
    assert(r.take(p + 19) =~= a + "BlueprintIdentifier"@);
    lemma_found_again(block, r, 0, p);
}

/// The first attribute with a name is an attribute where it stands.
proof fn lemma_attribute_found(s: Seq<char>, i: int, p: int)
    requires
        0 <= i,
        named_from(s, i, "BlueprintIdentifier"@) is Some,
        named_from(s, i, "BlueprintIdentifier"@)->Some_0.start == p,
    ensures
        is_place(s, p),
        named_from(s, i, "BlueprintIdentifier"@) == attribute_hit(s, p),
    decreases s.len() - i,
{
    lemma_patterns_differ();
    let name = "BlueprintIdentifier"@;
    let hs = hits_from(SCHEME_ATTR@, s, i);
    assert(i < s.len());
    let h = hit_at(SCHEME_ATTR@, s, i);
    assert(h == attribute_hit(s, i));
    if h is Some && i < h->Some_0.end <= s.len() {
        let hit = h->Some_0;
        let rest = hits_from(SCHEME_ATTR@, s, hit.end);
        lemma_named_first(hit, rest, name, rest.len() as int);
        if hit.first != name {
            lemma_attribute_found(s, hit.end, p);
        }
    } else {
        lemma_attribute_found(s, i + 1, p);
    }
}

/// The new UUIDs are those of objects, and no UUID holds a quote or the end of
/// a tag.
pub open spec fn names_are_valid(
    names: Seq<(Seq<char>, Seq<char>)>,
    valid: Set<Seq<char>>,
) -> bool {
    forall|name: Seq<char>| #[trigger]
        lookup(names, name) is Some ==> {
            let u = lookup(names, name)->Some_0;
            valid.contains(u) && !u.contains('>') && !u.contains('"')
        }
}

/// A tag stays one when its identifier is written anew.
proof fn lemma_tag_kept(b: Seq<char>, u: Seq<char>)
    requires
        is_tag(b),
        attribute(b, "BlueprintIdentifier"@) is Some,
        !u.contains('>'),
        !u.contains('"'),
    ensures
        is_tag(with_identifier(b, u)),
{
    reveal_strlit("<BuildableReference");
    reveal_strlit("BlueprintIdentifier = \"");
    reveal_strlit("\"");
    lemma_identifier_place(b, u);
    let h = attribute_place(b, "BlueprintIdentifier"@)->Some_0;
    let r = with_identifier(b, u);
    let p = h.start;
    lemma_place(b, p);
    assert(is_word('B'));
    if p < 19 {
        assert(b.take(19)[p] == b[p]);
        if p == 1 {
            assert(b.take(19)[2] == b[2]);
        }
    }
    assert(p >= 20);
    assert(h.end < b.len()) by {
        assert(b[h.end - 1] == '"');
    }
    assert(r.take(19) =~= b.take(19));
    assert(r[19] == b[19]);
    let n = identifier(u).len();
    assert(r.last() == b.last());
    assert forall|k: int| 0 <= k < r.len() - 1 implies #[trigger] r[k] != '>' by {
        if k < p {
            assert(r[k] == b[k]);
        } else if k < p + n {
            assert(r[k] == identifier(u)[k - p]);
            if 23 <= k - p < n - 1 {
                assert(identifier(u)[k - p] == u[k - p - 23]);
                assert(u.contains(u[k - p - 23]));
            }
        } else {
            assert(r[k] == b[k - p - n + h.end]);
        }
    }
}

proof fn lemma_repaired_block(
    b: Seq<char>,
    names: Seq<(Seq<char>, Seq<char>)>,
    valid: Set<Seq<char>>,
    container: Seq<char>,
)
    requires
        is_tag(b),
        names_are_valid(names, valid),
    ensures
        is_tag(repaired_block(b, names, valid, container)),
        canonical(repaired_block(b, names, valid, container), names, valid, container) is None,
{
    match canonical(b, names, valid, container) {
        None => {},
        Some(u) => {
            let name = attribute(b, "BlueprintName"@)->Some_0;
            assert(lookup(names, name) == Some(u));
            lemma_tag_kept(b, u);
            lemma_identifier_place(b, u);
        },
    }
}

// ── Whole schemes ────────────────────────────────────────────────────────────

/// The scheme with its references repaired, from the left on.
spec fn mended(
    t: Seq<char>,
    names: Seq<(Seq<char>, Seq<char>)>,
    valid: Set<Seq<char>>,
    container: Seq<char>,
) -> Seq<char>
    decreases t.len(),
{
    if t.len() == 0 {
        Seq::empty()
    } else if leading(t) is Some && 0 < leading(t)->Some_0.end <= t.len() {
        let e = leading(t)->Some_0.end;
        repaired_block(t.take(e), names, valid, container) + mended(
            t.skip(e),
            names,
            valid,
            container,
        )
    } else {
        seq![t[0]] + mended(t.skip(1), names, valid, container)
    }
}

#[verifier::rlimit(30)]
proof fn lemma_woven_mended(
    s: Seq<char>,
    names: Seq<(Seq<char>, Seq<char>)>,
    valid: Set<Seq<char>>,
    container: Seq<char>,
    i: int,
)
    requires
        0 <= i <= s.len(),
    ensures
        ({
            let new = |h: Hit|
                repaired_block(s.subrange(h.start, h.end), names, valid, container);
            let hs = hits_from(BUILDABLE_REF@, s, i);
            &&& woven(s, hs, new, i) == mended(s.skip(i), names, valid, container)
            &&& hs.len() > 0 ==> i <= hs[0].start <= s.len()
        }),
    decreases s.len() - i,
{
    let new = |h: Hit| repaired_block(s.subrange(h.start, h.end), names, valid, container);
    let t = s.skip(i);
    let hs = hits_from(BUILDABLE_REF@, s, i);
    if i == s.len() {
        assert(s.subrange(i, s.len() as int) =~= Seq::empty());
    } else {
        lemma_patterns_differ();
        lemma_match(s, i);
        let h = hit_at(BUILDABLE_REF@, s, i);
        assert(h == reference_hit(s, i));
        if h is Some {
            let hit = h->Some_0;
            let h0 = leading(t)->Some_0;
            lemma_woven_mended(s, names, valid, container, hit.end);
            let rest = hits_from(BUILDABLE_REF@, s, hit.end);
            assert(hs == seq![hit] + rest);
            assert(hs.drop_first() =~= rest);
            assert(t.skip(h0.end) =~= s.skip(hit.end));
            assert(s.subrange(i, i) =~= Seq::empty());
            assert(Seq::<char>::empty() + new(hit) =~= new(hit));
        } else {
            lemma_woven_mended(s, names, valid, container, i + 1);
            assert(t.skip(1) =~= s.skip(i + 1));
            if hs.len() == 0 {
                assert(s.subrange(i, s.len() as int) =~= seq![s[i]] + s.subrange(
                    i + 1,
                    s.len() as int,
                ));
            } else {
                let tail = woven(s, hs.drop_first(), new, hs[0].end);
                assert(s.subrange(i, hs[0].start) =~= seq![s[i]] + s.subrange(i + 1, hs[0].start));
                assert(woven(s, hs, new, i) =~= seq![s[i]] + woven(s, hs, new, i + 1));
            }
        }
    }
}

proof fn lemma_repaired_is_mended(
    xml: Seq<char>,
    names: Seq<(Seq<char>, Seq<char>)>,
    valid: Set<Seq<char>>,
    container: Seq<char>,
)
    ensures
        repaired(xml, names, valid, container) == mended(xml, names, valid, container),
{
    let new = |h: Hit| repaired_block(xml.subrange(h.start, h.end), names, valid, container);
    lemma_replaced_is_woven(xml, hits(BUILDABLE_REF@, xml), new);
    lemma_woven_mended(xml, names, valid, container, 0);
    assert(xml.skip(0) =~= xml);
}

/// How far a scheme and its repaired form agree: up to a reference, or the end.
#[verifier::rlimit(30)]
proof fn lemma_agree(
    t: Seq<char>,
    names: Seq<(Seq<char>, Seq<char>)>,
    valid: Set<Seq<char>>,
    container: Seq<char>,
) -> (p: int)
    requires
        names_are_valid(names, valid),
    ensures
        0 <= p <= t.len(),
        p <= mended(t, names, valid, container).len(),
        mended(t, names, valid, container).take(p) == t.take(p),
        p < t.len() ==> {
            &&& t[p] == '<'
            &&& p < mended(t, names, valid, container).len()
            &&& mended(t, names, valid, container)[p] == '<'
            &&& exists|k: int| p <= k < t.len() && #[trigger] t[k] == '>'
        },
        p == t.len() ==> mended(t, names, valid, container) == t,
    decreases t.len(),
{
    reveal_strlit("<BuildableReference");
    let r = mended(t, names, valid, container);
    if t.len() == 0 {
        assert(r =~= t);
        assert(r.take(0) =~= t.take(0));
        0
    } else if leading(t) is Some && 0 < leading(t)->Some_0.end <= t.len() {
        lemma_match(t, 0);
        assert(t.skip(0) =~= t);
        let e = leading(t)->Some_0.end;
        let b = t.take(e);
        let q = mended(t.skip(e), names, valid, container);
        lemma_block(t, names, valid, container);
        let c = repaired_block(b, names, valid, container);
        assert(r == c + q);
        assert(c[0] == '<');
        assert(r[0] == c[0]);
        assert(b[0] == t[0]);
        assert(t[e - 1] == b.last());
        assert(r.take(0) =~= t.take(0));
        0
    } else {
        let rest = t.skip(1);
        let p = lemma_agree(rest, names, valid, container);
        let q = mended(rest, names, valid, container);
        assert(r == seq![t[0]] + q);
        assert(r.take(p + 1) =~= seq![t[0]] + q.take(p));
        assert(t.take(p + 1) =~= seq![t[0]] + rest.take(p));
        if p < rest.len() {
            assert(r[p + 1] == q[p]);
            assert(t[p + 1] == rest[p]);
            let k = choose|k: int| p <= k < rest.len() && #[trigger] rest[k] == '>';
            assert(t[k + 1] == '>');
        } else {
            assert(r =~= t);
        }
        p + 1
    }
}

/// The reference that a text begins with, and its repaired form.
proof fn lemma_block(
    t: Seq<char>,
    names: Seq<(Seq<char>, Seq<char>)>,
    valid: Set<Seq<char>>,
    container: Seq<char>,
)
    requires
        names_are_valid(names, valid),
        leading(t) is Some,
    ensures
        ({
            let e = leading(t)->Some_0.end;
            let c = repaired_block(t.take(e), names, valid, container);
            &&& 0 < e <= t.len()
            &&& t[0] == '<'
            &&& t[e - 1] == '>'
            &&& c.len() > 0 && c[0] == '<'
            &&& repaired_block(c, names, valid, container) == c
            &&& forall|rest: Seq<char>| (#[trigger] leading(c + rest)) is Some && leading(
                c + rest,
            )->Some_0.end == c.len()
        }),
{
    reveal_strlit("<BuildableReference");
    lemma_match(t, 0);
    assert(t.skip(0) =~= t);
    let e = leading(t)->Some_0.end;
    let b = t.take(e);
    let c = repaired_block(b, names, valid, container);
    assert(t.subrange(0, e) =~= b);
    assert(t.subrange(0, 19)[0] == t[0]);
    if e > 20 {
        lemma_repaired_block(b, names, valid, container);
        assert(c.take(19)[0] == c[0]);
        assert forall|rest: Seq<char>| (#[trigger] leading(c + rest)) is Some && leading(
            c + rest,
        )->Some_0.end == c.len() by {
            lemma_tag_leads(c, rest);
        }
        assert(t[e - 1] == b.last());
    } else {
        lemma_short_tag(t, names, valid, container);
    }
}

/// A reference without attributes.
proof fn lemma_short_tag(
    t: Seq<char>,
    names: Seq<(Seq<char>, Seq<char>)>,
    valid: Set<Seq<char>>,
    container: Seq<char>,
)
    requires
        leading(t) is Some,
        leading(t)->Some_0.end == 20,
    ensures
        ({
            let b = t.take(20);
            &&& t.len() >= 20
            &&& t[19] == '>'
            &&& b[0] == '<'
            &&& repaired_block(b, names, valid, container) == b
            &&& forall|rest: Seq<char>| (#[trigger] leading(b + rest)) is Some && leading(
                b + rest,
            )->Some_0.end == 20
        }),
{
    reveal_strlit("<BuildableReference");
    lemma_match(t, 0);
    assert(t.skip(0) =~= t);
    let b = t.take(20);
    let tail = t.skip(19);
    lemma_run_until(tail);
    assert(t.subrange(19, 20)[0] == t[19]);
    assert(t.subrange(0, 19)[0] == t[0]);
    assert(b[19] == '>');
    assert(b.take(19) =~= t.subrange(0, 19));
    lemma_no_attributes(b, 0);
    assert(attribute(b, "BlueprintIdentifier"@) is None);
    assert forall|rest: Seq<char>| (#[trigger] leading(b + rest)) is Some && leading(
        b + rest,
    )->Some_0.end == 20 by {
        let r = b + rest;
        assert(r.subrange(0, 19) =~= t.subrange(0, 19));
        assert(r.skip(19)[0] == '>');
        lemma_run_len(r.skip(19), 0);
        assert(r.subrange(19, 20) =~= seq!['>']);
        assert(!is_word('>'));
    }
}

/// A text without a quote has no attributes.
proof fn lemma_no_attributes(b: Seq<char>, i: int)
    requires
        0 <= i,
        b.len() == 20,
        b.take(19) == "<BuildableReference"@,
        b[19] == '>',
    ensures
        hits_from(SCHEME_ATTR@, b, i).len() == 0,
    decreases b.len() - i,
{
    reveal_strlit("<BuildableReference");
    lemma_patterns_differ();
    if i < b.len() {
        let h = attribute_hit(b, i);
        assert(hit_at(SCHEME_ATTR@, b, i) == h);
        if h is Some {
            let n = run_len(b.skip(i), |c: char| is_word(c)) as int;
            let v = value_start(b, i + n)->Some_0;
            assert(b.subrange(v - 1, v)[0] == b[v - 1]);
            assert(b[v - 1] == '"');
            if v - 1 < 19 {
                assert(b.take(19)[v - 1] == b[v - 1]);
            }
        }
        lemma_no_attributes(b, i + 1);
    }
}

/// Repairing what follows makes no new reference.
#[verifier::rlimit(30)]
proof fn lemma_no_new_reference(
    t: Seq<char>,
    names: Seq<(Seq<char>, Seq<char>)>,
    valid: Set<Seq<char>>,
    container: Seq<char>,
)
    requires
        t.len() > 0,
        leading(t) is None,
        names_are_valid(names, valid),
    ensures
        leading(seq![t[0]] + mended(t.skip(1), names, valid, container)) is None,
{
    reveal_strlit("<BuildableReference");
    let rest = t.skip(1);
    let p = lemma_agree(rest, names, valid, container);
    let q = mended(rest, names, valid, container);
    let r = seq![t[0]] + q;
    if leading(r) is Some {
        if p == rest.len() {
            assert(r =~= t);
        } else {
            lemma_match(r, 0);
            assert(r.skip(0) =~= r);
            let name = r.subrange(0, 19);
            assert(name == "<BuildableReference"@);
            assert(r[p + 1] == '<' && t[p + 1] == '<');
            if p + 1 < 19 {
                assert(name[p + 1] == r[p + 1]);
            }
            assert forall|k: int| 0 <= k <= p + 1 implies r[k] == t[k] by {
                if 0 < k <= p {
                    assert(q.take(p)[k - 1] == rest.take(p)[k - 1]);
                }
            }
            assert(t.subrange(0, 19) =~= name);
            let tail = t.skip(19);
            assert(r.skip(19)[0] == r[19]);
            assert(tail[0] == t[19]);
            lemma_run_until(tail);
            let n = run_len(tail, |c: char| c != '>') as int;
            let k = choose|k: int| p <= k < rest.len() && #[trigger] rest[k] == '>';
            assert(tail[k + 1 - 19] == '>');
            assert(n < tail.len());
            assert(t.subrange(19 + n, 20 + n) =~= seq!['>']);
            assert(leading(t) is Some);
        }
    }
}

proof fn lemma_mended_twice(
    t: Seq<char>,
    names: Seq<(Seq<char>, Seq<char>)>,
    valid: Set<Seq<char>>,
    container: Seq<char>,
)
    requires
        names_are_valid(names, valid),
    ensures
        mended(mended(t, names, valid, container), names, valid, container) == mended(
            t,
            names,
            valid,
            container,
        ),
    decreases t.len(),
{
    let r = mended(t, names, valid, container);
    if t.len() == 0 {
    } else if leading(t) is Some && 0 < leading(t)->Some_0.end <= t.len() {
        lemma_block(t, names, valid, container);
        let e = leading(t)->Some_0.end;
        let rest = t.skip(e);
        let c = repaired_block(t.take(e), names, valid, container);
        let q = mended(rest, names, valid, container);
        lemma_mended_twice(rest, names, valid, container);
        assert(r == c + q);
        assert(leading(c + q) is Some);
        assert(r.take(c.len() as int) =~= c);
        assert(r.skip(c.len() as int) =~= q);
    } else {
        let rest = t.skip(1);
        let q = mended(rest, names, valid, container);
        lemma_mended_twice(rest, names, valid, container);
        if leading(t) is Some {
            lemma_match(t, 0);
            assert(t.skip(0) =~= t);
        }
        lemma_no_new_reference(t, names, valid, container);
        assert(r[0] == t[0]);
        assert(r.skip(1) =~= q);
    }
}

/// Repairing the references of a scheme again changes nothing, if the UUIDs of
/// the names are those of objects.
pub proof fn law_references_repaired_once(
    xml: Seq<char>,
    names: Seq<(Seq<char>, Seq<char>)>,
    valid: Set<Seq<char>>,
    container: Seq<char>,
)
    requires
        names_are_valid(names, valid),
    ensures
        repaired(repaired(xml, names, valid, container), names, valid, container) == repaired(
            xml,
            names,
            valid,
            container,
        ),
{
    lemma_repaired_is_mended(xml, names, valid, container);
    lemma_repaired_is_mended(repaired(xml, names, valid, container), names, valid, container);
    lemma_mended_twice(xml, names, valid, container);
}

} // verus!
