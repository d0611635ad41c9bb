//! What is written as a property list is read back.

use crate::kept_laws::{all_lines, depth_of, is_whole, kept_lines, Piece};
use crate::parser::{
    array, at, dict, is_delimiter, only_dicts, project_of, quoted, quoted_body, skip, string,
    unquoted_end, value,
};
use crate::pattern::{hits, UUID};
use crate::plist::Plist;
use crate::sanitizer::line_braces;
use crate::table::{distinct_keys, lemma_slot, lemma_slot_at, lookup, slot, upsert};
use crate::text::uppercase;
use crate::uniquifier::{
    is_orphan_line, is_removed, line_uuids, new_line, rewrite_run, rewrite_step,
};
use vstd::prelude::*;
use vstd::utf8::{encode_utf8, encode_utf8_decode_utf8, encode_utf8_valid_utf8};

verus! {

// ── Strings ──────────────────────────────────────────────────────────────────

/// A byte as it stands in quotes.
pub open spec fn escaped_byte(b: u8) -> Seq<u8> {
    if b == 10 {
        seq![92u8, 110]
    } else if b == 9 {
        seq![92u8, 116]
    } else if b == 13 {
        seq![92u8, 114]
    } else if b == 34 || b == 92 {
        seq![92u8, b]
    } else {
        seq![b]
    }
}

/// Bytes as they stand in quotes.
pub open spec fn escaped(bs: Seq<u8>) -> Seq<u8>
    decreases bs.len(),
{
    if bs.len() == 0 {
        Seq::empty()
    } else {
        escaped_byte(bs[0]) + escaped(bs.drop_first())
    }
}

/// A text in quotes.
pub open spec fn in_quotes(t: Seq<char>) -> Seq<u8> {
    seq![34u8] + escaped(encode_utf8(t)) + seq![34u8]
}

/// The bytes stand at that position.
pub open spec fn stands_at(s: Seq<u8>, p: int, t: Seq<u8>) -> bool {
    0 <= p && p + t.len() <= s.len() && s.subrange(p, p + t.len()) == t
}

proof fn lemma_stands(s: Seq<u8>, p: int, a: Seq<u8>, b: Seq<u8>)
    requires
        stands_at(s, p, a + b),
    ensures
        stands_at(s, p, a),
        stands_at(s, p + a.len(), b),
{
    let all = s.subrange(p, p + a.len() + b.len());
    assert forall|i: int| 0 <= i < a.len() implies s[p + i] == a[i] by {
        assert(all[i] == (a + b)[i]);
    }
    assert forall|i: int| 0 <= i < b.len() implies s[p + a.len() + i] == b[i] by {
        assert(all[a.len() + i] == (a + b)[a.len() + i]);
    }
    assert(s.subrange(p, p + a.len()) =~= a);
    assert(s.subrange(p + a.len(), p + a.len() + b.len()) =~= b);
}

proof fn lemma_byte_at(s: Seq<u8>, p: int, t: Seq<u8>, i: int)
    requires
        stands_at(s, p, t),
        0 <= i < t.len(),
    ensures
        s[p + i] == t[i],
{
    assert(s.subrange(p, p + t.len())[i] == t[i]);
}

proof fn lemma_quoted_back(s: Seq<u8>, p: int, bs: Seq<u8>, acc: Seq<u8>)
    requires
        stands_at(s, p, escaped(bs) + seq![34u8]),
    ensures
        quoted_body(s, p, acc) == Ok::<(Seq<u8>, int), (int, Seq<char>)>(
            (acc + bs, p + escaped(bs).len() + 1),
        ),
    decreases bs.len(),
{
    lemma_stands(s, p, escaped(bs), seq![34u8]);
    if bs.len() == 0 {
        lemma_byte_at(s, p + escaped(bs).len(), seq![34u8], 0);
        assert(acc + bs =~= acc);
    } else {
        let b = bs[0];
        let rest = bs.drop_first();
        let one = escaped_byte(b);
        lemma_stands(s, p, one, escaped(rest));
        lemma_byte_at(s, p, one, 0);
        if one.len() > 1 {
            lemma_byte_at(s, p, one, 1);
        }
        assert(one + (escaped(rest) + seq![34u8]) =~= escaped(bs) + seq![34u8]);
        lemma_stands(s, p, one, escaped(rest) + seq![34u8]);
        lemma_quoted_back(s, p + one.len(), rest, acc.push(b));
        assert(acc.push(b) + rest =~= acc + bs);
    }
}

proof fn lemma_in_quotes(s: Seq<u8>, p: int, t: Seq<char>)
    requires
        stands_at(s, p, in_quotes(t)),
    ensures
        skip(s, p) == p,
        s[p] == 34,
        quoted(s, p) == Ok::<(Seq<char>, int), (int, Seq<char>)>((t, p + in_quotes(t).len())),
{
    let bs = encode_utf8(t);
    assert(in_quotes(t) =~= seq![34u8] + (escaped(bs) + seq![34u8]));
    lemma_stands(s, p, seq![34u8], escaped(bs) + seq![34u8]);
    lemma_byte_at(s, p, in_quotes(t), 0);
    lemma_quoted_back(s, p + 1, bs, Seq::empty());
    assert(Seq::<u8>::empty() + bs =~= bs);
    encode_utf8_valid_utf8(t);
    encode_utf8_decode_utf8(t);
}

/// A text in quotes is read as that text, with its quotes, backslashes, tabs and
/// ends of lines.
pub proof fn law_quoted_text_is_read(before: Seq<u8>, t: Seq<char>, after: Seq<u8>)
    ensures
        string(before + in_quotes(t) + after, before.len() as int) == Ok::<
            (Seq<char>, int),
            (int, Seq<char>),
        >((t, (before.len() + in_quotes(t).len()) as int)),
{
    let s = before + in_quotes(t) + after;
    let p = before.len() as int;
    assert(s.subrange(p, p + in_quotes(t).len()) =~= in_quotes(t));
    lemma_in_quotes(s, p, t);
}

/// The bytes can stand without quotes: none parts words, and none is a quote or a
/// slash.
pub open spec fn is_plain_word(bs: Seq<u8>) -> bool {
    &&& bs.len() > 0
    &&& forall|i: int|
        0 <= i < bs.len() ==> !is_delimiter(#[trigger] bs[i]) && bs[i] != 34 && bs[i] != 47
}

proof fn lemma_word_ends(s: Seq<u8>, p: int, q: int)
    requires
        0 <= p <= q < s.len(),
        forall|i: int| p <= i < q ==> !is_delimiter(#[trigger] s[i]) && s[i] != 47,
        is_delimiter(s[q]),
    ensures
        unquoted_end(s, p) == q,
    decreases q - p,
{
    if p < q {
        lemma_word_ends(s, p + 1, q);
    }
}

/// A word without quotes, with a delimiter behind it, is read as that word.
pub proof fn law_plain_word_is_read(before: Seq<u8>, t: Seq<char>, after: Seq<u8>)
    requires
        is_plain_word(encode_utf8(t)),
        after.len() > 0,
        is_delimiter(after[0]),
    ensures
        string(before + encode_utf8(t) + after, before.len() as int) == Ok::<
            (Seq<char>, int),
            (int, Seq<char>),
        >((t, (before.len() + encode_utf8(t).len()) as int)),
{
    let bs = encode_utf8(t);
    let s = before + bs + after;
    let p = before.len() as int;
    let q = p + bs.len();
    assert forall|i: int| p <= i < q implies !is_delimiter(#[trigger] s[i]) && s[i] != 47 by {
        assert(s[i] == bs[i - p]);
    }
    assert(s[p] == bs[0]);
    assert(s[q] == after[0]);
    lemma_word_ends(s, p, q);
    assert(s.subrange(p, q) =~= bs);
    encode_utf8_valid_utf8(t);
    encode_utf8_decode_utf8(t);
}

// ── Values ───────────────────────────────────────────────────────────────────

/// A value in full: strings in quotes, a comma behind each item, a semicolon behind
/// each entry.
pub open spec fn written(v: Plist) -> Seq<u8>
    decreases v,
{
    match v {
        Plist::Str(t) => in_quotes(t),
        Plist::Array(vs) => seq![40u8] + written_items(vs) + seq![41u8],
        Plist::Dict(es) => seq![123u8] + written_entries(es) + seq![125u8],
    }
}

pub open spec fn written_items(vs: Seq<Plist>) -> Seq<u8>
    decreases vs,
{
    if vs.len() == 0 {
        Seq::empty()
    } else {
        written_items(vs.drop_last()) + written(vs.last()) + seq![44u8]
    }
}

pub open spec fn written_entries(es: Seq<(Seq<char>, Plist)>) -> Seq<u8>
    decreases es,
{
    if es.len() == 0 {
        Seq::empty()
    } else {
        written_entries(es.drop_last()) + in_quotes(es.last().0) + seq![61u8] + written(es.last().1)
            + seq![59u8]
    }
}

/// No dictionary has two entries with one key.
pub open spec fn has_distinct_keys(v: Plist) -> bool
    decreases v,
{
    match v {
        Plist::Str(t) => true,
        Plist::Array(vs) => items_have_distinct_keys(vs),
        Plist::Dict(es) => distinct_keys(es) && entries_have_distinct_keys(es),
    }
}

pub open spec fn items_have_distinct_keys(vs: Seq<Plist>) -> bool
    decreases vs,
{
    vs.len() == 0 || (items_have_distinct_keys(vs.drop_last()) && has_distinct_keys(vs.last()))
}

pub open spec fn entries_have_distinct_keys(es: Seq<(Seq<char>, Plist)>) -> bool
    decreases es,
{
    es.len() == 0 || (entries_have_distinct_keys(es.drop_last()) && has_distinct_keys(es.last().1))
}

proof fn lemma_written_first(v: Plist)
    ensures
        written(v).len() > 0,
        written(v)[0] == 34 || written(v)[0] == 40 || written(v)[0] == 123,
{
    reveal_with_fuel(written, 2);
}

proof fn lemma_skip_none(s: Seq<u8>, p: int)
    requires
        0 <= p < s.len(),
        s[p] == 34 || s[p] == 40 || s[p] == 41 || s[p] == 44 || s[p] == 59 || s[p] == 61 || s[p]
            == 123 || s[p] == 125,
    ensures
        skip(s, p) == p,
{
}

proof fn lemma_items_before(vs: Seq<Plist>, k: int)
    requires
        0 <= k < vs.len(),
    ensures
        written_items(vs.take(k + 1)) == written_items(vs.take(k)) + written(vs[k]) + seq![44u8],
        items_have_distinct_keys(vs.take(k + 1)) == (items_have_distinct_keys(vs.take(k))
            && has_distinct_keys(vs[k])),
{
    reveal_with_fuel(written_items, 2);
    reveal_with_fuel(items_have_distinct_keys, 2);
    assert(vs.take(k + 1).drop_last() =~= vs.take(k));
    assert(vs.take(k + 1).last() == vs[k]);
}

proof fn lemma_items_prefix(vs: Seq<Plist>, k: int)
    requires
        0 <= k <= vs.len(),
    ensures
        exists|rest: Seq<u8>| written_items(vs) == #[trigger] (written_items(vs.take(k)) + rest),
        items_have_distinct_keys(vs) ==> items_have_distinct_keys(vs.take(k)),
    decreases vs.len() - k,
{
    if k == vs.len() {
        assert(vs.take(k) =~= vs);
        assert(written_items(vs) =~= written_items(vs.take(k)) + Seq::<u8>::empty());
    } else {
        lemma_items_prefix(vs, k + 1);
        lemma_items_before(vs, k);
        let rest = choose|rest: Seq<u8>|
            written_items(vs) == #[trigger] (written_items(vs.take(k + 1)) + rest);
        assert(written_items(vs) =~= written_items(vs.take(k)) + (written(vs[k]) + seq![44u8]
            + rest));
    }
}

proof fn lemma_entries_before(es: Seq<(Seq<char>, Plist)>, k: int)
    requires
        0 <= k < es.len(),
    ensures
        written_entries(es.take(k + 1)) == written_entries(es.take(k)) + (in_quotes(es[k].0)
            + seq![61u8] + written(es[k].1) + seq![59u8]),
        entries_have_distinct_keys(es.take(k + 1)) == (entries_have_distinct_keys(es.take(k))
            && has_distinct_keys(es[k].1)),
{
    reveal_with_fuel(written_entries, 2);
    reveal_with_fuel(entries_have_distinct_keys, 2);
    assert(es.take(k + 1).drop_last() =~= es.take(k));
    assert(es.take(k + 1).last() == es[k]);
    assert(written_entries(es.take(k + 1)) =~= written_entries(es.take(k)) + (in_quotes(es[k].0)
        + seq![61u8] + written(es[k].1) + seq![59u8]));
}

proof fn lemma_entries_prefix(es: Seq<(Seq<char>, Plist)>, k: int)
    requires
        0 <= k <= es.len(),
    ensures
        exists|rest: Seq<u8>|
            written_entries(es) == #[trigger] (written_entries(es.take(k)) + rest),
        entries_have_distinct_keys(es) ==> entries_have_distinct_keys(es.take(k)),
    decreases es.len() - k,
{
    if k == es.len() {
        assert(es.take(k) =~= es);
        assert(written_entries(es) =~= written_entries(es.take(k)) + Seq::<u8>::empty());
    } else {
        lemma_entries_prefix(es, k + 1);
        lemma_entries_before(es, k);
        let rest = choose|rest: Seq<u8>|
            written_entries(es) == #[trigger] (written_entries(es.take(k + 1)) + rest);
        assert(written_entries(es) =~= written_entries(es.take(k)) + (in_quotes(es[k].0)
            + seq![61u8] + written(es[k].1) + seq![59u8] + rest));
    }
}

proof fn lemma_value_back(s: Seq<u8>, p: int, v: Plist)
    requires
        stands_at(s, p, written(v)),
        has_distinct_keys(v),
    ensures
        value(s, p) == Ok::<(Plist, int), (int, Seq<char>)>((v, p + written(v).len())),
    decreases v, 0int,
{
    reveal_with_fuel(written, 2);
    reveal_with_fuel(has_distinct_keys, 2);
    reveal_with_fuel(value, 2);
    lemma_written_first(v);
    lemma_byte_at(s, p, written(v), 0);
    lemma_skip_none(s, p);
    match v {
        Plist::Str(t) => {
            lemma_in_quotes(s, p, t);
        },
        Plist::Array(vs) => {
            assert(written(v) =~= seq![40u8] + (written_items(vs) + seq![41u8]));
            lemma_stands(s, p, seq![40u8], written_items(vs) + seq![41u8]);
            assert(vs.take(0) =~= Seq::empty());
            lemma_array_back(s, p + 1, vs, 0);
            assert(written_items(vs.take(0)).len() == 0);
        },
        Plist::Dict(es) => {
            assert(written(v) =~= seq![123u8] + (written_entries(es) + seq![125u8]));
            lemma_stands(s, p, seq![123u8], written_entries(es) + seq![125u8]);
            assert(es.take(0) =~= Seq::empty());
            lemma_dict_back(s, p + 1, es, 0);
            assert(written_entries(es.take(0)).len() == 0);
        },
    }
}

#[verifier::rlimit(40)]
proof fn lemma_array_back(s: Seq<u8>, p: int, vs: Seq<Plist>, k: int)
    requires
        stands_at(s, p, written_items(vs) + seq![41u8]),
        items_have_distinct_keys(vs),
        0 <= k <= vs.len(),
    ensures
        array(s, p + written_items(vs.take(k)).len(), vs.take(k)) == Ok::<
            (Plist, int),
            (int, Seq<char>),
        >((Plist::Array(vs), p + written_items(vs).len() + 1)),
    decreases vs, vs.len() - k,
{
    reveal_with_fuel(array, 2);
    let all = written_items(vs);
    let here = written_items(vs.take(k));
    let q = p + here.len();
    lemma_stands(s, p, all, seq![41u8]);
    if k == vs.len() {
        assert(vs.take(k) =~= vs);
        lemma_byte_at(s, q, seq![41u8], 0);
        lemma_skip_none(s, q);
    } else {
        lemma_items_before(vs, k);
        lemma_items_prefix(vs, k + 1);
        let one = written(vs[k]);
        let rest = choose|rest: Seq<u8>| all == #[trigger] (written_items(vs.take(k + 1)) + rest);
        assert(all =~= here + (one + (seq![44u8] + rest)));
        lemma_stands(s, p, here, one + (seq![44u8] + rest));
        lemma_stands(s, q, one, seq![44u8] + rest);
        lemma_stands(s, q + one.len(), seq![44u8], rest);
        lemma_byte_at(s, q + one.len(), seq![44u8], 0);
        lemma_written_first(vs[k]);
        lemma_byte_at(s, q, one, 0);
        lemma_skip_none(s, q);
        lemma_skip_none(s, q + one.len());
        lemma_value_back(s, q, vs[k]);
        lemma_array_back(s, p, vs, k + 1);
        assert(vs.take(k).push(vs[k]) =~= vs.take(k + 1));
        assert(at(s, q + one.len(), 44));
    }
}

#[verifier::rlimit(60)]
proof fn lemma_dict_back(s: Seq<u8>, p: int, es: Seq<(Seq<char>, Plist)>, k: int)
    requires
        stands_at(s, p, written_entries(es) + seq![125u8]),
        distinct_keys(es),
        entries_have_distinct_keys(es),
        0 <= k <= es.len(),
    ensures
        dict(s, p + written_entries(es.take(k)).len(), es.take(k)) == Ok::<
            (Plist, int),
            (int, Seq<char>),
        >((Plist::Dict(es), p + written_entries(es).len() + 1)),
    decreases es, es.len() - k,
{
    reveal_with_fuel(dict, 2);
    let all = written_entries(es);
    let here = written_entries(es.take(k));
    let q = p + here.len();
    lemma_stands(s, p, all, seq![125u8]);
    if k == es.len() {
        assert(es.take(k) =~= es);
        lemma_byte_at(s, q, seq![125u8], 0);
        lemma_skip_none(s, q);
    } else {
        lemma_entries_before(es, k);
        lemma_entries_prefix(es, k + 1);
        let (key, v) = es[k];
        let a = in_quotes(key);
        let b = written(v);
        let rest = choose|rest: Seq<u8>| all == #[trigger] (written_entries(es.take(k + 1)) + rest);
        assert(all =~= here + (a + (seq![61u8] + (b + (seq![59u8] + rest)))));
        lemma_stands(s, p, here, a + (seq![61u8] + (b + (seq![59u8] + rest))));
        lemma_stands(s, q, a, seq![61u8] + (b + (seq![59u8] + rest)));
        let e = q + a.len();
        lemma_stands(s, e, seq![61u8], b + (seq![59u8] + rest));
        lemma_stands(s, e + 1, b, seq![59u8] + rest);
        let t = e + 1 + b.len();
        lemma_stands(s, t, seq![59u8], rest);
        lemma_byte_at(s, e, seq![61u8], 0);
        lemma_byte_at(s, t, seq![59u8], 0);
        lemma_in_quotes(s, q, key);
        lemma_skip_none(s, e);
        lemma_skip_none(s, t);
        lemma_value_back(s, e + 1, v);
        lemma_dict_back(s, p, es, k + 1);
        lemma_slot(es.take(k), key);
        if slot(es.take(k), key) is Some {
            let i = slot(es.take(k), key)->Some_0;
            assert(es.take(k)[i] == es[i]);
            assert(es[i].0 != es[k].0);
        }
        assert(upsert(es.take(k), key, v) =~= es.take(k + 1));
        assert(string(s, q) == Ok::<(Seq<char>, int), (int, Seq<char>)>((key, e)));
        assert(at(s, e, 61));
        assert(at(s, t, 59));
    }
}

/// A value that is written in full is read as that value, to its end, whatever
/// stands before and behind it.
pub proof fn law_written_value_is_read(before: Seq<u8>, v: Plist, after: Seq<u8>)
    requires
        has_distinct_keys(v),
    ensures
        value(before + written(v) + after, before.len() as int) == Ok::<
            (Plist, int),
            (int, Seq<char>),
        >((v, (before.len() + written(v).len()) as int)),
{
    let s = before + written(v) + after;
    let p = before.len() as int;
    assert(s.subrange(p, p + written(v).len()) =~= written(v));
    lemma_value_back(s, p, v);
}

/// A dictionary with a root and a dictionary of objects is a project with that root
/// and those objects, wherever its entries stand; what is not a dictionary is no
/// object.
pub proof fn law_project_has_its_root_and_objects(
    es: Seq<(Seq<char>, Plist)>,
    i: int,
    j: int,
    root: Seq<char>,
    objects: Seq<(Seq<char>, Plist)>,
)
    requires
        distinct_keys(es),
        0 <= i < es.len(),
        0 <= j < es.len(),
        es[i] == ("rootObject"@, Plist::Str(root)),
        es[j] == ("objects"@, Plist::Dict(objects)),
    ensures
        project_of(Plist::Dict(es)) is Ok,
        ({
            let p = project_of(Plist::Dict(es))->Ok_0;
            &&& p.root_object == root
            &&& forall|k: int|
                0 <= k < objects.len() && (#[trigger] objects[k]).1 is Dict ==> p.objects.contains(
                    objects[k],
                )
            &&& forall|k: int|
                0 <= k < p.objects.len() ==> (#[trigger] p.objects[k]).1 is Dict
                    && objects.contains(p.objects[k])
            &&& (forall|k: int| 0 <= k < objects.len() ==> (#[trigger] objects[k]).1 is Dict)
                ==> p.objects == objects
        }),
{
    lemma_slot_at(es, i);
    lemma_slot_at(es, j);
    lemma_only_dicts(objects);
    if forall|k: int| 0 <= k < objects.len() ==> (#[trigger] objects[k]).1 is Dict {
        lemma_filter_all(objects);
    }
}

proof fn lemma_only_dicts(objects: Seq<(Seq<char>, Plist)>)
    ensures
        forall|k: int|
            0 <= k < objects.len() && (#[trigger] objects[k]).1 is Dict ==> only_dicts(
                objects,
            ).contains(objects[k]),
        forall|k: int|
            0 <= k < only_dicts(objects).len() ==> (#[trigger] only_dicts(objects)[k]).1 is Dict
                && objects.contains(only_dicts(objects)[k]),
    decreases objects.len(),
{
    reveal(Seq::filter);
    if objects.len() > 0 {
        let rest = objects.drop_last();
        let a = only_dicts(rest);
        let b = only_dicts(objects);
        lemma_only_dicts(rest);
        assert forall|k: int|
            0 <= k < objects.len() && (#[trigger] objects[k]).1 is Dict implies b.contains(
            objects[k],
        ) by {
            if k < rest.len() {
                assert(rest[k] == objects[k]);
                let i = choose|i: int| 0 <= i < a.len() && a[i] == rest[k];
                assert(b[i] == a[i]);
            } else {
                assert(b[b.len() - 1] == objects[k]);
            }
        }
        assert forall|k: int| 0 <= k < b.len() implies (#[trigger] b[k]).1 is Dict
            && objects.contains(b[k]) by {
            if k < a.len() {
                assert(b[k] == a[k]);
                let i = choose|i: int| 0 <= i < rest.len() && rest[i] == a[k];
                assert(objects[i] == a[k]);
            } else {
                assert(objects[objects.len() - 1] == b[k]);
            }
        }
    }
}

proof fn lemma_filter_all(objects: Seq<(Seq<char>, Plist)>)
    requires
        forall|k: int| 0 <= k < objects.len() ==> (#[trigger] objects[k]).1 is Dict,
    ensures
        only_dicts(objects) == objects,
    decreases objects.len(),
{
    reveal(Seq::filter);
    if objects.len() > 0 {
        let rest = objects.drop_last();
        assert forall|k: int| 0 <= k < rest.len() implies (#[trigger] rest[k]).1 is Dict by {
            assert(rest[k] == objects[k]);
        }
        lemma_filter_all(rest);
        assert(objects[objects.len() - 1].1 is Dict);
        assert(rest.push(objects.last()) =~= objects);
    }
}

// ── Lines with new UUIDs ─────────────────────────────────────────────────────

/// The line holds a UUID that has no new one, or that is to be dropped.
pub open spec fn is_doomed(
    map: Seq<(Seq<char>, Seq<char>)>,
    remove: Seq<Seq<char>>,
    line: Seq<char>,
) -> bool {
    exists|k: int|
        0 <= k < hits(UUID@, line).len() && {
            let u = uppercase((#[trigger] hits(UUID@, line)[k]).first);
            lookup(map, u) is None || exists|i: int|
                0 <= i < remove.len() && uppercase(#[trigger] remove[i]) == u
        }
}

proof fn lemma_doomed(
    map: Seq<(Seq<char>, Seq<char>)>,
    remove: Seq<Seq<char>>,
    line: Seq<char>,
)
    ensures
        is_doomed(map, remove, line) == is_orphan_line(map, remove, line),
{
    if is_doomed(map, remove, line) {
        let k = choose|k: int|
            0 <= k < hits(UUID@, line).len() && {
                let u = uppercase((#[trigger] hits(UUID@, line)[k]).first);
                lookup(map, u) is None || exists|i: int|
                    0 <= i < remove.len() && uppercase(#[trigger] remove[i]) == u
            };
        assert(line_uuids(line)[k] == uppercase(hits(UUID@, line)[k].first));
    }
    if is_orphan_line(map, remove, line) {
        let k = choose|k: int|
            0 <= k < line_uuids(line).len() && (is_removed(remove, #[trigger] line_uuids(line)[k])
                || lookup(map, line_uuids(line)[k]) is None);
        assert(uppercase(hits(UUID@, line)[k].first) == line_uuids(line)[k]);
    }
}

/// The pieces are lines whose UUIDs all have new ones, which stay; and lines that
/// hold others, which do not, each with the object that it opens.
pub open spec fn are_rewritten(
    map: Seq<(Seq<char>, Seq<char>)>,
    remove: Seq<Seq<char>>,
    ps: Seq<Piece>,
) -> bool {
    forall|i: int|
        0 <= i < ps.len() ==> {
            let p = #[trigger] ps[i];
            &&& p.lines.len() > 0
            &&& p.stays == !is_doomed(map, remove, p.lines[0])
            &&& p.stays ==> p.lines.len() == 1
            &&& !p.stays ==> is_whole(p.lines) || (p.lines.len() == 1 && line_braces(p.lines[0])
                <= 0)
        }
}

/// The lines, with new UUIDs.
pub open spec fn new_lines(map: Seq<(Seq<char>, Seq<char>)>, ls: Seq<Seq<char>>) -> Seq<Seq<char>> {
    Seq::new(ls.len(), |i: int| new_line(map, ls[i]))
}

proof fn lemma_rewrite_more(
    map: Seq<(Seq<char>, Seq<char>)>,
    remove: Seq<Seq<char>>,
    a: Seq<Seq<char>>,
    l: Seq<char>,
)
    ensures
        rewrite_run(map, remove, a + seq![l]) == rewrite_step(
            map,
            remove,
            rewrite_run(map, remove, a),
            l,
        ),
{
    assert((a + seq![l]).drop_last() =~= a);
}

proof fn lemma_rewrite_dropped(
    map: Seq<(Seq<char>, Seq<char>)>,
    remove: Seq<Seq<char>>,
    a: Seq<Seq<char>>,
    b: Seq<Seq<char>>,
    k: int,
)
    requires
        0 < k <= b.len(),
        is_doomed(map, remove, b[0]),
        is_whole(b) || (b.len() == 1 && line_braces(b[0]) <= 0),
        rewrite_run(map, remove, a).skip_to is None,
    ensures
        ({
            let old = rewrite_run(map, remove, a);
            let st = rewrite_run(map, remove, a + b.take(k));
            &&& st.depth == old.depth + depth_of(b.take(k))
            &&& st.out == old.out
            &&& st.removed == old.removed + k
            &&& st.skip_to == if k < b.len() {
                Some(old.depth)
            } else {
                None
            }
        }),
    decreases k,
{
    let old = rewrite_run(map, remove, a);
    assert(a + b.take(k) =~= a + b.take(k - 1) + seq![b[k - 1]]);
    lemma_rewrite_more(map, remove, a + b.take(k - 1), b[k - 1]);
    assert(b.take(k).drop_last() =~= b.take(k - 1));
    assert(depth_of(b.take(k)) == depth_of(b.take(k - 1)) + line_braces(b[k - 1]));
    if k < b.len() {
        assert(depth_of(b.take(k)) > 0);
    } else {
        assert(b.take(k) =~= b);
    }
    if k == 1 {
        assert(a + b.take(0) =~= a);
        assert(depth_of(b.take(0)) == 0);
        lemma_doomed(map, remove, b[0]);
    } else {
        lemma_rewrite_dropped(map, remove, a, b, k - 1);
    }
}

/// Giving a text its new UUIDs keeps, in their order, the lines whose UUIDs all have
/// new ones, each with these in place of the old ones; it drops the others, each
/// with the whole object that it opens.
pub proof fn law_known_lines_are_kept(
    map: Seq<(Seq<char>, Seq<char>)>,
    remove: Seq<Seq<char>>,
    ps: Seq<Piece>,
)
    requires
        are_rewritten(map, remove, ps),
    ensures
        rewrite_run(map, remove, all_lines(ps)).out == new_lines(map, kept_lines(ps)),
        rewrite_run(map, remove, all_lines(ps)).skip_to is None,
        rewrite_run(map, remove, all_lines(ps)).removed == all_lines(ps).len() - kept_lines(
            ps,
        ).len(),
    decreases ps.len(),
{
    if ps.len() == 0 {
        assert(new_lines(map, kept_lines(ps)) =~= Seq::empty());
    } else {
        let rest = ps.drop_last();
        assert forall|i: int| 0 <= i < rest.len() implies {
            let p = #[trigger] rest[i];
            &&& p.lines.len() > 0
            &&& p.stays == !is_doomed(map, remove, p.lines[0])
            &&& p.stays ==> p.lines.len() == 1
            &&& !p.stays ==> is_whole(p.lines) || (p.lines.len() == 1 && line_braces(p.lines[0])
                <= 0)
        } by {
            assert(rest[i] == ps[i]);
        }
        law_known_lines_are_kept(map, remove, rest);
        let a = all_lines(rest);
        let b = ps.last().lines;
        assert(ps[ps.len() - 1] == ps.last());
        if ps.last().stays {
            assert(b =~= seq![b[0]]);
            lemma_rewrite_more(map, remove, a, b[0]);
            lemma_doomed(map, remove, b[0]);
            assert(new_lines(map, kept_lines(ps)) =~= new_lines(map, kept_lines(rest)).push(
                new_line(map, b[0]),
            ));
        } else {
            assert(b.take(b.len() as int) =~= b);
            lemma_rewrite_dropped(map, remove, a, b, b.len() as int);
        }
    }
}

/// A line in which one UUID stands has the new one in its place, and is otherwise
/// the same; one without stays as it is.
pub proof fn law_new_uuid_takes_its_place(map: Seq<(Seq<char>, Seq<char>)>, line: Seq<char>)
    ensures
        hits(UUID@, line).len() == 0 ==> new_line(map, line) == line,
        hits(UUID@, line).len() == 1 ==> {
            let h = hits(UUID@, line)[0];
            match lookup(map, uppercase(h.first)) {
                Some(new) => new_line(map, line) == line.subrange(0, h.start) + new
                    + line.subrange(h.end, line.len() as int),
                None => true,
            }
        },
{
    reveal_with_fuel(crate::uniquifier::replaced_until, 2);
    if hits(UUID@, line).len() == 0 {
        assert(new_line(map, line) =~= line);
    } else if hits(UUID@, line).len() == 1 {
        let h = hits(UUID@, line)[0];
        if let Some(new) = lookup(map, uppercase(h.first)) {
            assert(new_line(map, line) =~= line.subrange(0, h.start) + new + line.subrange(
                h.end,
                line.len() as int,
            ));
        }
    }
}

} // verus!
