//! Renaming identifiers in schemes again changes nothing.

use crate::pattern::{
    blueprint_hit, gap, hit_at, hits, hits_from, is_hex, starts_hex, value_start, Hit, BLUEPRINT,
    BUILDABLE_REF, UUID,
};
use crate::scheme_updater::{
    attribute, canonical, count_until, identifier, remapped, renamed, repair_count, repaired,
    repaired_block,
};
use crate::settled_laws::{lemma_hits_in_order, lemma_replaced_same};
use crate::table::lookup;
use crate::text::{indent, is_white, lemma_indent, lemma_indent_bound, occurs_at, uppercase};
use crate::uniquifier::{replaced, replaced_until};
use vstd::prelude::*;

verus! {

// ── Replacing from the left ──────────────────────────────────────────────────

/// A text from position `from` on, with matches replaced.
pub open spec fn woven(
    s: Seq<char>,
    hs: Seq<Hit>,
    new: spec_fn(Hit) -> Seq<char>,
    from: int,
) -> Seq<char>
    decreases hs.len(),
{
    if hs.len() == 0 {
        s.subrange(from, s.len() as int)
    } else {
        s.subrange(from, hs[0].start) + new(hs[0]) + woven(s, hs.drop_first(), new, hs[0].end)
    }
}

proof fn lemma_woven_behind(s: Seq<char>, hs: Seq<Hit>, new: spec_fn(Hit) -> Seq<char>, k: int)
    requires
        0 <= k <= hs.len(),
    ensures
        replaced(s, hs, new) == replaced_until(s, hs, new, k) + woven(
            s,
            hs.skip(k),
            new,
            if k == 0 {
                0
            } else {
                hs[k - 1].end
            },
        ),
    decreases hs.len() - k,
{
    let n = hs.len() as int;
    let from = if k == 0 {
        0
    } else {
        hs[k - 1].end
    };
    if k == n {
        assert(hs.skip(k) =~= Seq::empty());
    } else {
        lemma_woven_behind(s, hs, new, k + 1);
        let rest = hs.skip(k);
        assert(rest[0] == hs[k]);
        assert(rest.drop_first() =~= hs.skip(k + 1));
        let tail = woven(s, hs.skip(k + 1), new, hs[k].end);
        let head = replaced_until(s, hs, new, k);
        assert(gap(s, hs, k) == s.subrange(from, hs[k].start));
        assert((head + gap(s, hs, k) + new(hs[k])) + tail =~= head + (s.subrange(
            from,
            hs[k].start,
        ) + new(hs[k]) + tail));
    }
}

/// Replacing matches is weaving from the start on.
pub proof fn lemma_replaced_is_woven(s: Seq<char>, hs: Seq<Hit>, new: spec_fn(Hit) -> Seq<char>)
    ensures
        replaced(s, hs, new) == woven(s, hs, new, 0),
{
    lemma_woven_behind(s, hs, new, 0);
    assert(hs.skip(0) =~= hs);
    assert(replaced_until(s, hs, new, 0) + woven(s, hs, new, 0) =~= woven(s, hs, new, 0));
}

// ── Identifiers at the start of a text ───────────────────────────────────────

/// The identifier that a text begins with.
spec fn leading(t: Seq<char>) -> Option<Hit> {
    blueprint_hit(t, 0)
}

proof fn lemma_value_start(s: Seq<char>, i: int, j: int)
    requires
        0 <= i <= s.len(),
        0 <= j,
        i + j <= s.len(),
    ensures
        value_start(s, i + j) == match value_start(s.skip(i), j) {
            Some(v) => Some(i + v),
            None => None,
        },
        value_start(s, i + j) is Some ==> {
            let v = value_start(s, i + j)->Some_0;
            &&& i + j + 2 <= v <= s.len()
            &&& s[v - 1] == '"'
            &&& forall|k: int| i + j <= k < v ==> is_white(#[trigger] s[k]) || s[k] == '=' || s[k]
                == '"'
        },
{
    let t = s.skip(i);
    assert(s.skip(i + j) =~= t.skip(j));
    let a = indent(s.skip(i + j)) as int;
    lemma_indent_bound(s.skip(i + j));
    let eq = i + j + a;
    lemma_occurs_shift(s, seq!['='], i, j + a);
    if occurs_at(s, seq!['='], eq) {
        assert(s.skip(eq + 1) =~= t.skip(j + a + 1));
        let b = indent(s.skip(eq + 1)) as int;
        lemma_indent_bound(s.skip(eq + 1));
        lemma_occurs_shift(s, seq!['"'], i, j + a + 1 + b);
        let quote = eq + 1 + b;
        assert(s.subrange(eq, eq + 1)[0] == s[eq]);
        if occurs_at(s, seq!['"'], quote) {
            assert(s.subrange(quote, quote + 1)[0] == s[quote]);
            assert forall|k: int| i + j <= k < quote + 1 implies is_white(#[trigger] s[k]) || s[k]
                == '=' || s[k] == '"' by {
                if k < eq {
                    assert(s.skip(i + j)[k - i - j] == s[k]);
                } else if eq < k < quote {
                    assert(s.skip(eq + 1)[k - eq - 1] == s[k]);
                }
            }
        }
    }
}

proof fn lemma_occurs_shift(s: Seq<char>, p: Seq<char>, i: int, j: int)
    requires
        0 <= i <= s.len(),
        0 <= j,
    ensures
        occurs_at(s, p, i + j) == occurs_at(s.skip(i), p, j),
{
    if i + j + p.len() <= s.len() {
        assert(s.subrange(i + j, i + j + p.len()) =~= s.skip(i).subrange(j, j + p.len()));
    }
}

/// What a match is made of.
proof fn lemma_match(s: Seq<char>, i: int)
    requires
        0 <= i <= s.len(),
    ensures
        blueprint_hit(s, i) is Some == leading(s.skip(i)) is Some,
        blueprint_hit(s, i) is Some ==> {
            let h = blueprint_hit(s, i)->Some_0;
            let h0 = leading(s.skip(i))->Some_0;
            &&& h.start == i && h0.start == 0
            &&& h.end == i + h0.end
            &&& h.first == h0.first
            &&& i + 21 < h.end <= s.len()
            &&& s.subrange(h.start, h.end) == s.skip(i).take(h0.end)
        },
{
    reveal_strlit("BlueprintIdentifier");
    let t = s.skip(i);
    lemma_occurs_shift(s, "BlueprintIdentifier"@, i, 0);
    if occurs_at(s, "BlueprintIdentifier"@, i) {
        lemma_value_start(s, i, 19);
        if value_start(s, i + 19) is Some {
            let v = value_start(s, i + 19)->Some_0;
            assert(s.skip(v) =~= t.skip(v - i));
            lemma_occurs_shift(s, seq!['"'], i, v - i + 32);
            lemma_occurs_shift(s, seq!['"'], i, v - i + 24);
            if blueprint_hit(s, i) is Some {
                let h = blueprint_hit(s, i)->Some_0;
                assert(s.subrange(h.start, h.end) =~= t.take(h.end - i));
            }
        }
    }
}

/// The characters of an identifier at the start of a text.
proof fn lemma_leading_chars(t: Seq<char>)
    requires
        leading(t) is Some,
    ensures
        ({
            let h = leading(t)->Some_0;
            &&& t.take(19) == "BlueprintIdentifier"@
            &&& 21 < h.end <= t.len()
            &&& forall|k: int|
                19 <= k < h.end ==> is_white(#[trigger] t[k]) || t[k] == '=' || t[k] == '"'
                    || is_hex(t[k])
        }),
{
    reveal_strlit("BlueprintIdentifier");
    lemma_match(t, 0);
    assert(t.skip(0) =~= t);
    lemma_value_start(t, 0, 19);
    let h = leading(t)->Some_0;
    let v = value_start(t, 19)->Some_0;
    assert(t.take(19) =~= t.subrange(0, 19));
    assert(t.skip(v).len() == t.len() - v);
    assert forall|k: int| 19 <= k < h.end implies is_white(#[trigger] t[k]) || t[k] == '=' || t[k]
        == '"' || is_hex(t[k]) by {
        if k >= v {
            assert(t.skip(v)[k - v] == t[k]);
            if k == h.end - 1 {
                assert(t.subrange(k, k + 1)[0] == t[k]);
            }
        }
    }
}

/// A match goes by its own characters only.
#[verifier::rlimit(30)]
proof fn lemma_leading_local(t: Seq<char>, other: Seq<char>)
    requires
        leading(t) is Some,
        leading(t)->Some_0.end <= other.len(),
        other.take(leading(t)->Some_0.end) == t.take(leading(t)->Some_0.end),
    ensures
        leading(other) == leading(t),
{
    reveal_strlit("BlueprintIdentifier");
    lemma_leading_chars(t);
    let h = leading(t)->Some_0;
    let e = h.end;
    assert forall|k: int| 0 <= k < e implies #[trigger] other[k] == t[k] by {
        assert(other.take(e)[k] == t.take(e)[k]);
    }
    assert(other.subrange(0, 19) =~= t.subrange(0, 19));
    let a = indent(t.skip(19)) as int;
    lemma_indent_bound(t.skip(19));
    let eq = 19 + a;
    assert(t.subrange(eq, eq + 1)[0] == t[eq]);
    let b = indent(t.skip(eq + 1)) as int;
    lemma_indent_bound(t.skip(eq + 1));
    let quote = eq + 1 + b;
    assert(t.subrange(quote, quote + 1)[0] == t[quote]);
    let v = quote + 1;
    assert(v < e);
    let t1 = t.skip(19);
    let o1 = other.skip(19);
    assert forall|k: int| 0 <= k < a implies is_white(#[trigger] o1[k]) by {
        assert(is_white(t1[k]));
        assert(t1[k] == t[19 + k] && o1[k] == other[19 + k]);
    }
    assert(o1[a] == other[eq]);
    lemma_indent(o1, a);
    let t2 = t.skip(eq + 1);
    let o2 = other.skip(eq + 1);
    assert forall|k: int| 0 <= k < b implies is_white(#[trigger] o2[k]) by {
        assert(is_white(t2[k]));
        assert(t2[k] == t[eq + 1 + k]);
        assert(o2[k] == other[eq + 1 + k]);
    }
    assert(o2[b] == other[quote]);
    lemma_indent(o2, b);
    assert(other.subrange(eq, eq + 1) =~= t.subrange(eq, eq + 1));
    assert(other.subrange(quote, quote + 1) =~= t.subrange(quote, quote + 1));
    assert(value_start(other, 19) == Some(v));
    let n = h.first.len() as int;
    assert(e == v + n + 1);
    assert(other.subrange(v + n, v + n + 1) =~= t.subrange(v + n, v + n + 1));
    assert(other.skip(v).take(n) =~= t.skip(v).take(n));
    assert forall|k: int| 0 <= k < n implies is_hex(#[trigger] other.skip(v)[k]) by {
        assert(is_hex(t.skip(v)[k]));
        assert(t.skip(v)[k] == t[v + k] && other.skip(v)[k] == other[v + k]);
    }
    if n == 24 {
        assert(other.skip(v)[24] == other[v + 24]);
        assert(t.subrange(v + 24, v + 25)[0] == t[v + 24]);
        assert(!is_hex('"'));
        assert(!starts_hex(other.skip(v), 32)) by {
            if starts_hex(other.skip(v), 32) {
                assert(is_hex(other.skip(v)[24]));
            }
        }
    }
}

/// An identifier as it is written is found.
proof fn lemma_written(u: Seq<char>, rest: Seq<char>)
    requires
        u.len() == 24 || u.len() == 32,
        forall|i: int| 0 <= i < u.len() ==> is_hex(#[trigger] u[i]),
    ensures
        leading(identifier(u) + rest) is Some,
        leading(identifier(u) + rest)->Some_0.end == identifier(u).len(),
        leading(identifier(u) + rest)->Some_0.first == u,
{
    reveal_strlit("BlueprintIdentifier");
    reveal_strlit("BlueprintIdentifier = \"");
    reveal_strlit("\"");
    let t = identifier(u) + rest;
    let n = u.len() as int;
    assert(t.subrange(0, 19) =~= "BlueprintIdentifier"@);
    assert(t[19] == ' ' && t[20] == '=' && t[21] == ' ' && t[22] == '"');
    assert(t.skip(19)[0] == ' ' && t.skip(19)[1] == '=');
    lemma_indent(t.skip(19), 1);
    assert(t.subrange(20, 21) =~= seq!['=']);
    assert(t.skip(21)[0] == ' ' && t.skip(21)[1] == '"');
    lemma_indent(t.skip(21), 1);
    assert(t.subrange(22, 23) =~= seq!['"']);
    assert(value_start(t, 19) == Some(23int));
    assert(t.skip(23).take(n) =~= u);
    assert forall|k: int| 0 <= k < n implies is_hex(#[trigger] t.skip(23)[k]) by {
        assert(t.skip(23)[k] == u[k]);
    }
    assert(t.skip(23)[n] == '"');
    assert(t.subrange(23 + n, 24 + n) =~= seq!['"']);
    if n == 24 {
        assert(!starts_hex(t.skip(23), 32)) by {
            if starts_hex(t.skip(23), 32) {
                assert(is_hex(t.skip(23)[24]));
            }
        }
    }
}

// ── Renaming ─────────────────────────────────────────────────────────────────

/// The text with its identifiers renamed, from the left on.
spec fn renamed_text(map: Seq<(Seq<char>, Seq<char>)>, t: Seq<char>) -> Seq<char>
    decreases t.len(),
{
    if t.len() == 0 {
        Seq::empty()
    } else if leading(t) is Some && 0 < leading(t)->Some_0.end <= t.len() {
        let h = leading(t)->Some_0;
        (match renamed(map, h) {
            Some(u) => identifier(u),
            None => t.take(h.end),
        }) + renamed_text(map, t.skip(h.end))
    } else {
        seq![t[0]] + renamed_text(map, t.skip(1))
    }
}

#[verifier::rlimit(30)]
proof fn lemma_woven_renamed(map: Seq<(Seq<char>, Seq<char>)>, s: Seq<char>, i: int)
    requires
        0 <= i <= s.len(),
    ensures
        ({
            let new = |h: Hit|
                match renamed(map, h) {
                    Some(u) => identifier(u),
                    None => s.subrange(h.start, h.end),
                };
            let hs = hits_from(BLUEPRINT@, s, i);
            &&& woven(s, hs, new, i) == renamed_text(map, s.skip(i))
            &&& hs.len() > 0 ==> i <= hs[0].start <= s.len()
        }),
    decreases s.len() - i,
{
    let new = |h: Hit|
        match renamed(map, h) {
            Some(u) => identifier(u),
            None => s.subrange(h.start, h.end),
        };
    let t = s.skip(i);
    let hs = hits_from(BLUEPRINT@, s, i);
    if i == s.len() {
        assert(s.subrange(i, s.len() as int) =~= Seq::empty());
    } else {
        lemma_patterns_differ();
        lemma_match(s, i);
        let h = hit_at(BLUEPRINT@, s, i);
        assert(h == blueprint_hit(s, i));
        if h is Some {
            let hit = h->Some_0;
            let h0 = leading(t)->Some_0;
            lemma_woven_renamed(map, s, hit.end);
            let rest = hits_from(BLUEPRINT@, s, hit.end);
            assert(hs == seq![hit] + rest);
            assert(hs.drop_first() =~= rest);
            assert(t.skip(h0.end) =~= s.skip(hit.end));
            assert(s.subrange(i, i) =~= Seq::empty());
            assert(Seq::<char>::empty() + new(hit) =~= new(hit));
        } else {
            lemma_woven_renamed(map, s, i + 1);
            assert(t.skip(1) =~= s.skip(i + 1));
            if hs.len() == 0 {
                assert(s.subrange(i, s.len() as int) =~= seq![s[i]] + s.subrange(
                    i + 1,
                    s.len() as int,
                ));
            } else {
                let tail = woven(s, hs.drop_first(), new, hs[0].end);
                assert(s.subrange(i, hs[0].start) =~= seq![s[i]] + s.subrange(i + 1, hs[0].start));
                assert(woven(s, hs, new, i) =~= seq![s[i]] + woven(s, hs, new, i + 1));
            }
        }
    }
}

proof fn lemma_patterns_differ()
    ensures
        BLUEPRINT@ != UUID@,
{
    reveal_strlit("BlueprintIdentifier\\s*=\\s*\"([0-9A-Fa-f]{32}|[0-9A-Fa-f]{24})\"");
    reveal_strlit(r"\b([0-9A-Fa-f]{32}|[0-9A-Fa-f]{24})\b");
    assert(BLUEPRINT@.len() != UUID@.len());
}

/// How far a text and its renamed form agree: up to an identifier, or the end.
#[verifier::rlimit(30)]
proof fn lemma_agree(map: Seq<(Seq<char>, Seq<char>)>, t: Seq<char>) -> (p: int)
    ensures
        0 <= p <= t.len(),
        p <= renamed_text(map, t).len(),
        renamed_text(map, t).take(p) == t.take(p),
        p < t.len() ==> {
            &&& p + 19 <= t.len()
            &&& p + 19 <= renamed_text(map, t).len()
            &&& t.subrange(p, p + 19) == "BlueprintIdentifier"@
            &&& renamed_text(map, t).subrange(p, p + 19) == "BlueprintIdentifier"@
        },
        p == t.len() ==> renamed_text(map, t) == t,
    decreases t.len(),
{
    let r = renamed_text(map, t);
    if t.len() == 0 {
        assert(r =~= t);
        assert(r.take(0) =~= t.take(0));
        0
    } else if leading(t) is Some && 0 < leading(t)->Some_0.end <= t.len() {
        reveal_strlit("BlueprintIdentifier");
        reveal_strlit("BlueprintIdentifier = \"");
        lemma_leading_chars(t);
        let h = leading(t)->Some_0;
        assert(t.subrange(0, 19) =~= t.take(19));
        match renamed(map, h) {
            Some(u) => {
                assert(r.subrange(0, 19) =~= "BlueprintIdentifier"@);
            },
            None => {
                assert(r.subrange(0, 19) =~= t.take(19));
            },
        }
        assert(r.take(0) =~= t.take(0));
        0
    } else {
        let rest = t.skip(1);
        let p = lemma_agree(map, rest);
        let q = renamed_text(map, rest);
        assert(r == seq![t[0]] + q);
        assert(r.take(p + 1) =~= seq![t[0]] + q.take(p));
        assert(t.take(p + 1) =~= seq![t[0]] + rest.take(p));
        if p < rest.len() {
            assert(t.subrange(p + 1, p + 20) =~= rest.subrange(p, p + 19));
            assert(r.subrange(p + 1, p + 20) =~= q.subrange(p, p + 19));
        } else {
            assert(r =~= t);
        }
        p + 1
    }
}

/// Renaming what follows makes no new identifier.
proof fn lemma_no_new_identifier(map: Seq<(Seq<char>, Seq<char>)>, t: Seq<char>)
    requires
        t.len() > 0,
        leading(t) is None,
    ensures
        leading(seq![t[0]] + renamed_text(map, t.skip(1))) is None,
{
    reveal_strlit("BlueprintIdentifier");
    let rest = t.skip(1);
    let p = lemma_agree(map, rest);
    let q = renamed_text(map, rest);
    let r = seq![t[0]] + q;
    if leading(r) is Some {
        lemma_leading_chars(r);
        let h = leading(r)->Some_0;
        let e = h.end;
        if p == rest.len() {
            assert(r =~= t);
        } else {
            let same = p + 20;
            assert(r.take(same) =~= t.take(same)) by {
                assert forall|k: int| 0 <= k < same implies r[k] == t[k] by {
                    if k > 0 && k <= p {
                        assert(q.take(p)[k - 1] == rest.take(p)[k - 1]);
                    } else if k > p {
                        assert(q.subrange(p, p + 19)[k - 1 - p] == rest.subrange(p, p + 19)[k - 1
                            - p]);
                    }
                }
            }
            if e <= same {
                assert(r.take(e) =~= r.take(same).take(e));
                assert(t.take(e) =~= t.take(same).take(e));
                lemma_leading_local(r, t);
            } else {
                assert(q.subrange(p, p + 19)[0] == q[p]);
                assert(q.subrange(p, p + 19)[1] == q[p + 1]);
                assert(r[p + 1] == 'B' && r[p + 2] == 'l');
                if p + 2 >= 19 {
                    assert(is_white(r[p + 2]) || r[p + 2] == '=' || r[p + 2] == '"' || is_hex(
                        r[p + 2],
                    ));
                } else {
                    assert(r.take(19)[p + 1] == r[p + 1]);
                }
            }
        }
    }
}

/// The new UUIDs of a map have the form of UUIDs.
pub open spec fn is_formed(map: Seq<(Seq<char>, Seq<char>)>) -> bool {
    forall|k: Seq<char>| #[trigger]
        lookup(map, k) is Some ==> {
            let u = lookup(map, k)->Some_0;
            &&& u.len() == 24 || u.len() == 32
            &&& forall|i: int| 0 <= i < u.len() ==> is_hex(#[trigger] u[i])
        }
}

/// The new UUIDs of a map have the form of UUIDs, and are not changed by it.
pub open spec fn is_final(map: Seq<(Seq<char>, Seq<char>)>) -> bool {
    &&& is_formed(map)
    &&& forall|k: Seq<char>| #[trigger]
        lookup(map, k) is Some ==> followed(map, lookup(map, k)->Some_0) == lookup(map, k)->Some_0
}

proof fn lemma_renamed_twice(map: Seq<(Seq<char>, Seq<char>)>, t: Seq<char>)
    requires
        is_final(map),
    ensures
        renamed_text(map, renamed_text(map, t)) == renamed_text(map, t),
    decreases t.len(),
{
    let r = renamed_text(map, t);
    if t.len() == 0 {
    } else if leading(t) is Some && 0 < leading(t)->Some_0.end <= t.len() {
        let h = leading(t)->Some_0;
        let rest = t.skip(h.end);
        let q = renamed_text(map, rest);
        lemma_renamed_twice(map, rest);
        match renamed(map, h) {
            Some(u) => {
                assert(lookup(map, uppercase(h.first)) == Some(u));
                lemma_written(u, q);
                let h2 = leading(r)->Some_0;
                assert(r.skip(h2.end) =~= q);
                assert(r.take(h2.end) =~= identifier(u));
                assert(h2.first == u);
                assert(followed(map, u) == u);
                assert(t.take(0) =~= Seq::empty());
            },
            None => {
                let head = t.take(h.end);
                assert(r.take(h.end) =~= head);
                assert(r == head + q);
                lemma_leading_local(t, r);
                assert(r.skip(h.end) =~= q);
            },
        }
    } else {
        let rest = t.skip(1);
        let q = renamed_text(map, rest);
        lemma_renamed_twice(map, rest);
        if leading(t) is Some {
            lemma_leading_chars(t);
        }
        lemma_no_new_identifier(map, t);
        assert(r[0] == t[0]);
        assert(r.skip(1) =~= q);
    }
}

proof fn lemma_remapped_is_renamed(map: Seq<(Seq<char>, Seq<char>)>, xml: Seq<char>)
    ensures
        remapped(map, xml) == renamed_text(map, xml),
{
    let new = |h: Hit|
        match renamed(map, h) {
            Some(u) => identifier(u),
            None => xml.subrange(h.start, h.end),
        };
    lemma_replaced_is_woven(xml, hits(BLUEPRINT@, xml), new);
    lemma_woven_renamed(map, xml, 0);
    assert(xml.skip(0) =~= xml);
}

/// Renaming the identifiers of a scheme again changes nothing, with a map whose
/// new UUIDs are not themselves renamed.
pub proof fn law_identifiers_renamed_once(map: Seq<(Seq<char>, Seq<char>)>, xml: Seq<char>)
    requires
        is_final(map),
    ensures
        remapped(map, remapped(map, xml)) == remapped(map, xml),
{
    lemma_remapped_is_renamed(map, xml);
    lemma_remapped_is_renamed(map, remapped(map, xml));
    lemma_renamed_twice(map, xml);
}

/// The identifiers of a text, from the left on.
spec fn identifiers_in(t: Seq<char>) -> Seq<Seq<char>>
    decreases t.len(),
{
    if t.len() == 0 {
        Seq::empty()
    } else if leading(t) is Some && 0 < leading(t)->Some_0.end <= t.len() {
        seq![leading(t)->Some_0.first] + identifiers_in(t.skip(leading(t)->Some_0.end))
    } else {
        identifiers_in(t.skip(1))
    }
}

/// The identifiers of a scheme.
pub open spec fn identifiers(xml: Seq<char>) -> Seq<Seq<char>> {
    Seq::new(hits(BLUEPRINT@, xml).len(), |k: int| hits(BLUEPRINT@, xml)[k].first)
}

/// An identifier with its new UUID, if it has one.
pub open spec fn followed(map: Seq<(Seq<char>, Seq<char>)>, u: Seq<char>) -> Seq<char> {
    match lookup(map, uppercase(u)) {
        Some(new) => new,
        None => u,
    }
}

proof fn lemma_identifiers_in(s: Seq<char>, i: int)
    requires
        0 <= i <= s.len(),
    ensures
        identifiers_in(s.skip(i)) == Seq::new(
            hits_from(BLUEPRINT@, s, i).len(),
            |k: int| hits_from(BLUEPRINT@, s, i)[k].first,
        ),
    decreases s.len() - i,
{
    let t = s.skip(i);
    let hs = hits_from(BLUEPRINT@, s, i);
    if i == s.len() {
        assert(identifiers_in(t) =~= Seq::new(hs.len(), |k: int| hs[k].first));
    } else {
        lemma_patterns_differ();
        lemma_match(s, i);
        let h = hit_at(BLUEPRINT@, s, i);
        assert(h == blueprint_hit(s, i));
        if h is Some {
            let hit = h->Some_0;
            lemma_identifiers_in(s, hit.end);
            let rest = hits_from(BLUEPRINT@, s, hit.end);
            assert(hs == seq![hit] + rest);
            assert(t.skip(leading(t)->Some_0.end) =~= s.skip(hit.end));
            assert(identifiers_in(t) =~= Seq::new(hs.len(), |k: int| hs[k].first));
        } else {
            lemma_identifiers_in(s, i + 1);
            assert(t.skip(1) =~= s.skip(i + 1));
        }
    }
}

proof fn lemma_identifiers_followed(map: Seq<(Seq<char>, Seq<char>)>, t: Seq<char>)
    requires
        is_formed(map),
    ensures
        identifiers_in(renamed_text(map, t)) == Seq::new(
            identifiers_in(t).len(),
            |k: int| followed(map, identifiers_in(t)[k]),
        ),
    decreases t.len(),
{
    let r = renamed_text(map, t);
    let ids = identifiers_in(t);
    if t.len() == 0 {
        assert(identifiers_in(r) =~= Seq::new(ids.len(), |k: int| followed(map, ids[k])));
    } else if leading(t) is Some && 0 < leading(t)->Some_0.end <= t.len() {
        let h = leading(t)->Some_0;
        let rest = t.skip(h.end);
        let q = renamed_text(map, rest);
        lemma_identifiers_followed(map, rest);
        match renamed(map, h) {
            Some(u) => {
                assert(lookup(map, uppercase(h.first)) == Some(u));
                lemma_written(u, q);
                assert(r.skip(leading(r)->Some_0.end) =~= q);
            },
            None => {
                assert(r.take(h.end) =~= t.take(h.end));
                lemma_leading_local(t, r);
                assert(r.skip(h.end) =~= q);
            },
        }
        assert(identifiers_in(r) =~= Seq::new(ids.len(), |k: int| followed(map, ids[k])));
    } else {
        let rest = t.skip(1);
        lemma_identifiers_followed(map, rest);
        if leading(t) is Some {
            lemma_leading_chars(t);
        }
        lemma_no_new_identifier(map, t);
        assert(r.skip(1) =~= renamed_text(map, rest));
    }
}

/// The identifiers of a renamed scheme are those of the scheme, in their order,
/// each with the new UUID of its target if that has one: schemes keep resolving
/// to their targets.
pub proof fn law_identifiers_follow_targets(map: Seq<(Seq<char>, Seq<char>)>, xml: Seq<char>)
    requires
        is_formed(map),
    ensures
        identifiers(remapped(map, xml)) == Seq::new(
            identifiers(xml).len(),
            |k: int| followed(map, identifiers(xml)[k]),
        ),
{
    let r = remapped(map, xml);
    lemma_remapped_is_renamed(map, xml);
    lemma_identifiers_followed(map, xml);
    lemma_identifiers_in(xml, 0);
    lemma_identifiers_in(r, 0);
    assert(xml.skip(0) =~= xml);
    assert(r.skip(0) =~= r);
}

// ── Orphaned references ──────────────────────────────────────────────────────

/// No reference of the scheme is orphaned.
pub open spec fn nothing_orphaned(
    xml: Seq<char>,
    names: Seq<(Seq<char>, Seq<char>)>,
    valid: Set<Seq<char>>,
    container: Seq<char>,
) -> bool {
    forall|k: int|
        0 <= k < hits(BUILDABLE_REF@, xml).len() ==> canonical(
            xml.subrange(
                (#[trigger] hits(BUILDABLE_REF@, xml)[k]).start,
                hits(BUILDABLE_REF@, xml)[k].end,
            ),
            names,
            valid,
            container,
        ) is None
}

proof fn lemma_none_counted(hs: Seq<Hit>, holds: spec_fn(Hit) -> bool, k: int)
    requires
        0 <= k <= hs.len(),
        forall|i: int| 0 <= i < hs.len() ==> !holds(#[trigger] hs[i]),
    ensures
        count_until(hs, holds, k) == 0,
    decreases k,
{
    if k > 0 {
        lemma_none_counted(hs, holds, k - 1);
        assert(!holds(hs[k - 1]));
    }
}

/// A scheme without orphaned references is left as it is.
pub proof fn law_sound_references_are_kept(
    xml: Seq<char>,
    names: Seq<(Seq<char>, Seq<char>)>,
    valid: Set<Seq<char>>,
    container: Seq<char>,
)
    requires
        nothing_orphaned(xml, names, valid, container),
    ensures
        repaired(xml, names, valid, container) == xml,
        repair_count(xml, names, valid, container) == 0,
{
    let hs = hits(BUILDABLE_REF@, xml);
    let new = |h: Hit| repaired_block(xml.subrange(h.start, h.end), names, valid, container);
    let holds = |h: Hit|
        canonical(xml.subrange(h.start, h.end), names, valid, container) is Some;
    lemma_hits_in_order(BUILDABLE_REF@, xml, 0);
    assert forall|i: int| 0 <= i < hs.len() implies new(#[trigger] hs[i]) == xml.subrange(
        hs[i].start,
        hs[i].end,
    ) && !holds(hs[i]) by {
    }
    lemma_replaced_same(xml, hs, new);
    lemma_none_counted(hs, holds, hs.len() as int);
}

/// Only orphaned references of this project with a known name are repaired: a
/// reference whose UUID is that of an object, or which is to another project,
/// stays as it is.
pub proof fn law_other_references_are_kept(
    block: Seq<char>,
    names: Seq<(Seq<char>, Seq<char>)>,
    valid: Set<Seq<char>>,
    container: Seq<char>,
)
    requires
        ({
            let id = attribute(block, "BlueprintIdentifier"@);
            let place = attribute(block, "ReferencedContainer"@);
            ||| id is Some && (valid.contains(id->Some_0) || valid.contains(
                uppercase(id->Some_0),
            ))
            ||| place != Some("container:"@ + container)
        }),
    ensures
        repaired_block(block, names, valid, container) == block,
{
}

} // verus!
