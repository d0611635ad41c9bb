//! A project by its facts.

use crate::line_reading::{all_closed, law_text_holds_its_facts, spot_of, text_facts};
use crate::parser::{
    dict_of, field, only_dicts, project_in, project_of, str_of, strings_of, value, Plist, Project,
};
use crate::reading::{
    containers, counts, entry_facts, facts_of, is_worth, item_facts, lemma_repeats,
    lemma_repeats_worth, lemma_worth_contains, repeats_key, Fact, Spot, Step,
};
use crate::renaming_laws::{reference_of, references};
use crate::table::{distinct_keys, lemma_slot, lookup, slot};
use crate::text::unlines;
use crate::uniquifier::{is_object, list_field, text_field, Objects};
use vstd::prelude::*;
use vstd::utf8::encode_utf8;

verus! {

// ── Paths ────────────────────────────────────────────────────────────────────

pub open spec fn path_of_fact(f: Fact) -> Seq<Step> {
    match f {
        Fact::Key(path) => path,
        Fact::Text(path, _) => path,
        Fact::Dict(path) => path,
        Fact::List(path) => path,
        Fact::Item(path, _) => path,
    }
}

pub open spec fn extends(path: Seq<Step>, base: Seq<Step>) -> bool {
    path.len() >= base.len() && path.take(base.len() as int) == base
}

proof fn lemma_extends_push(path: Seq<Step>, base: Seq<Step>, x: Step)
    ensures
        extends(path, base.push(x)) == (path.len() > base.len() && extends(path, base)
            && path[base.len() as int] == x),
{
    let n = base.len() as int;
    if path.len() > n {
        assert(path.take(n + 1).drop_last() =~= path.take(n));
        if extends(path, base.push(x)) {
            assert(path.take(n + 1)[n] == x);
            assert(base.push(x).drop_last() =~= base);
        }
        if extends(path, base) && path[n] == x {
            assert(path.take(n + 1) =~= base.push(x));
        }
    }
}

/// Every fact of a value stands at its path or below.
pub proof fn lemma_facts_below(v: Plist, base: Seq<Step>, f: Fact)
    requires
        facts_of(v, base).contains(f),
    ensures
        extends(path_of_fact(f), base),
        path_of_fact(f) == base ==> f == seq![facts_of(v, base)[0]][0] || f is Item,
    decreases v,
{
    let i = choose|i: int| 0 <= i < facts_of(v, base).len() && facts_of(v, base)[i] == f;
    assert(base.take(base.len() as int) =~= base);
    match v {
        Plist::Str(t) => {},
        Plist::Dict(es) => {
            if i > 0 {
                assert(entry_facts(es, base)[i - 1] == f);
                lemma_entries_below(es, base, f);
            }
        },
        Plist::Array(xs) => {
            if i > 0 {
                assert(item_facts(xs, base)[i - 1] == f);
                lemma_items_below(xs, base, f);
            }
        },
    }
}

proof fn lemma_entries_below(es: Seq<(Seq<char>, Plist)>, base: Seq<Step>, f: Fact)
    requires
        entry_facts(es, base).contains(f),
    ensures
        extends(path_of_fact(f), base),
        path_of_fact(f).len() > base.len(),
    decreases es,
{
    let all = entry_facts(es, base);
    let i = choose|i: int| 0 <= i < all.len() && all[i] == f;
    if es.len() > 0 {
        let head = entry_facts(es.drop_last(), base);
        let x = Step::Key(es.last().0);
        let to = base.push(x);
        if i < head.len() {
            assert(head[i] == f);
            lemma_entries_below(es.drop_last(), base, f);
        } else if i == head.len() {
            assert(f == Fact::Key(to));
            assert(to.take(base.len() as int) =~= base);
        } else {
            assert(facts_of(es.last().1, to)[i - head.len() - 1] == f);
            lemma_facts_below(es.last().1, to, f);
            lemma_extends_push(path_of_fact(f), base, x);
        }
    }
}

proof fn lemma_items_below(xs: Seq<Plist>, base: Seq<Step>, f: Fact)
    requires
        item_facts(xs, base).contains(f),
    ensures
        extends(path_of_fact(f), base),
        path_of_fact(f) == base ==> f is Item,
    decreases xs,
{
    let all = item_facts(xs, base);
    let i = choose|i: int| 0 <= i < all.len() && all[i] == f;
    assert(base.take(base.len() as int) =~= base);
    if xs.len() > 0 {
        let head = item_facts(xs.drop_last(), base);
        let x = Step::Nth(containers(xs.drop_last()));
        if i < head.len() {
            assert(head[i] == f);
            lemma_items_below(xs.drop_last(), base, f);
        } else {
            match xs.last() {
                Plist::Str(t) => {
                    assert(f == Fact::Item(base, t));
                },
                _ => {
                    assert(facts_of(xs.last(), base.push(x))[i - head.len()] == f);
                    lemma_facts_below(xs.last(), base.push(x), f);
                    lemma_extends_push(path_of_fact(f), base, x);
                },
            }
        }
    }
}

// ── Entries ──────────────────────────────────────────────────────────────────

/// A fact of an entry is one of the entry with the key in its path.
proof fn lemma_entry_fact(es: Seq<(Seq<char>, Plist)>, base: Seq<Step>, k: Seq<char>, f: Fact)
    requires
        !repeats_key(entry_facts(es, base)),
        is_worth(base.push(Step::Key(k))),
        extends(path_of_fact(f), base.push(Step::Key(k))),
    ensures
        entry_facts(es, base).contains(f) == match lookup(es, k) {
            Some(v) => f == Fact::Key(base.push(Step::Key(k))) || facts_of(
                v,
                base.push(Step::Key(k)),
            ).contains(f),
            None => false,
        },
        lookup(es, k) is Some ==> !repeats_key(
            facts_of(lookup(es, k)->Some_0, base.push(Step::Key(k))),
        ),
    decreases es.len(),
{
    let all = entry_facts(es, base);
    let to = base.push(Step::Key(k));
    lemma_extends_push(path_of_fact(f), base, Step::Key(k));
    if es.len() > 0 {
        let rest = es.drop_last();
        let head = entry_facts(rest, base);
        let last = es.last();
        let lto = base.push(Step::Key(last.0));
        let body = facts_of(last.1, lto);
        let tail = seq![Fact::Key(lto)] + body;
        assert(all == head + tail);
        lemma_repeats(head, tail);
        lemma_repeats(seq![Fact::Key(lto)], body);
        lemma_entry_fact(rest, base, k, f);
        if body.contains(f) {
            lemma_facts_below(last.1, lto, f);
            lemma_extends_push(path_of_fact(f), base, Step::Key(last.0));
            let i = choose|i: int| 0 <= i < body.len() && body[i] == f;
            assert(all[head.len() + 1 + i] == f);
        }
        if head.contains(f) {
            let i = choose|i: int| 0 <= i < head.len() && head[i] == f;
            assert(all[i] == f);
        }
        if all.contains(f) {
            let i = choose|i: int| 0 <= i < all.len() && all[i] == f;
            if i < head.len() {
                assert(head[i] == f);
            } else if i > head.len() {
                assert(body[i - head.len() - 1] == f);
            } else {
                assert(f == Fact::Key(lto));
            }
        }
        if last.0 == k {
            assert(all[head.len() as int] == Fact::Key(to));
            // The key is that of no entry before.
            if lookup(rest, k) is Some {
                crate::reading::lemma_known_key(rest, base, k);
                let i = choose|i: int| 0 <= i < head.len() && head[i] == Fact::Key(to);
                assert(all[i] == all[head.len() as int]);
                assert(repeats_key(all));
            }
        } else {
            assert(lto[base.len() as int] == Step::Key(last.0));
            assert(to[base.len() as int] == Step::Key(k));
            assert(lookup(es, k) == lookup(rest, k)) by {
                lemma_slot(rest, k);
            }
        }
    }
}

proof fn lemma_distinct(es: Seq<(Seq<char>, Plist)>, base: Seq<Step>)
    requires
        !repeats_key(entry_facts(es, base)),
        base.len() <= 1,
    ensures
        distinct_keys(es),
    decreases es.len(),
{
    if es.len() > 0 {
        let rest = es.drop_last();
        let head = entry_facts(rest, base);
        let to = base.push(Step::Key(es.last().0));
        let tail = seq![Fact::Key(to)] + facts_of(es.last().1, to);
        lemma_repeats(head, tail);
        lemma_distinct(rest, base);
        assert forall|i: int, j: int|
            0 <= i < es.len() && 0 <= j < es.len() && i != j implies (#[trigger] es[i]).0 != (
        #[trigger] es[j]).0 by {
            let n = es.len() - 1;
            if i < n && j < n {
                assert(rest[i].0 != rest[j].0);
            } else {
                let a = if i < n {
                    i
                } else {
                    j
                };
                lemma_slot(rest, es.last().0);
                if rest[a].0 == es.last().0 {
                    crate::reading::lemma_known_key(rest, base, es.last().0);
                    let m = choose|m: int| 0 <= m < head.len() && head[m] == Fact::Key(to);
                    let all = entry_facts(es, base);
                    assert(all[m] == all[head.len() as int]);
                    assert(repeats_key(all));
                }
            }
        }
    }
}

proof fn lemma_only_dicts(es: Seq<(Seq<char>, Plist)>, u: Seq<char>)
    requires
        distinct_keys(es),
    ensures
        dict_of(lookup(only_dicts(es), u)) == dict_of(lookup(es, u)),
        lookup(only_dicts(es), u) is Some ==> lookup(only_dicts(es), u) == lookup(es, u),
    decreases es.len(),
{
    reveal(Seq::filter);
    let pred = |e: (Seq<char>, Plist)| e.1 is Dict;
    if es.len() > 0 {
        let rest = es.drop_last();
        assert forall|i: int, j: int|
            0 <= i < rest.len() && 0 <= j < rest.len() && i != j implies (#[trigger] rest[i]).0 != (
        #[trigger] rest[j]).0 by {
            assert(es[i].0 != es[j].0);
        }
        lemma_only_dicts(rest, u);
        let r = rest.filter(pred);
        lemma_slot(rest, u);
        if es.last().1 is Dict {
            assert(es.filter(pred) == r.push(es.last()));
            assert(r.push(es.last()).drop_last() =~= r);
            lemma_slot(r, u);
            if es.last().0 != u {
                assert(lookup(r.push(es.last()), u) == lookup(r, u));
                assert(lookup(es, u) == lookup(rest, u));
            }
        } else {
            assert(es.filter(pred) == r);
            if es.last().0 == u {
                if slot(rest, u) is Some {
                    let i = slot(rest, u)->Some_0;
                    assert(es[i].0 != es[es.len() - 1].0);
                }
                assert(lookup(rest, u) is None);
                assert(lookup(r, u) is None);
            } else {
                assert(lookup(es, u) == lookup(rest, u));
            }
        }
    }
}

// ── Lists ────────────────────────────────────────────────────────────────────

proof fn lemma_item_fact(xs: Seq<Plist>, base: Seq<Step>, t: Seq<char>)
    ensures
        item_facts(xs, base).contains(Fact::Item(base, t)) == strings_of(xs).contains(t),
    decreases xs.len(),
{
    let f = Fact::Item(base, t);
    let all = item_facts(xs, base);
    if xs.len() > 0 {
        let rest = xs.drop_last();
        lemma_item_fact(rest, base, t);
        let head = item_facts(rest, base);
        if head.contains(f) {
            let i = choose|i: int| 0 <= i < head.len() && head[i] == f;
            assert(all[i] == f);
        }
        let n = Step::Nth(containers(rest));
        match xs.last() {
            Plist::Str(x) => {
                assert(all[head.len() as int] == Fact::Item(base, x));
                assert(strings_of(xs) == strings_of(rest).push(x));
                if strings_of(rest).contains(t) {
                    let i = choose|i: int|
                        0 <= i < strings_of(rest).len() && strings_of(rest)[i] == t;
                    assert(strings_of(xs)[i] == t);
                }
                if x == t {
                    assert(strings_of(xs)[strings_of(rest).len() as int] == t);
                }
                if strings_of(xs).contains(t) && x != t {
                    let i = choose|i: int| 0 <= i < strings_of(xs).len() && strings_of(xs)[i] == t;
                    assert(strings_of(rest)[i] == t);
                }
                if all.contains(f) && x != t {
                    let i = choose|i: int| 0 <= i < all.len() && all[i] == f;
                    assert(head[i] == f);
                }
            },
            _ => {
                if all.contains(f) && !head.contains(f) {
                    let i = choose|i: int| 0 <= i < all.len() && all[i] == f;
                    if i < head.len() {
                        assert(head[i] == f);
                    } else {
                        assert(facts_of(xs.last(), base.push(n))[i - head.len()] == f);
                        lemma_facts_below(xs.last(), base.push(n), f);
                    }
                }
            },
        }
    }
}

/// A fact of a dictionary or list in a list is one of that with the number in its
/// path.
proof fn lemma_nth_fact(xs: Seq<Plist>, base: Seq<Step>, n: nat, f: Fact)
    requires
        extends(path_of_fact(f), base.push(Step::Nth(n))),
    ensures
        item_facts(xs, base).contains(f) == exists|i: int|
            0 <= i < xs.len() && !(#[trigger] xs[i] is Str) && containers(xs.take(i)) == n
                && facts_of(xs[i], base.push(Step::Nth(n))).contains(f),
    decreases xs.len(),
{
    let all = item_facts(xs, base);
    lemma_extends_push(path_of_fact(f), base, Step::Nth(n));
    if xs.len() > 0 {
        let rest = xs.drop_last();
        let last = xs.last();
        let m = xs.len() - 1;
        lemma_nth_fact(rest, base, n, f);
        let head = item_facts(rest, base);
        let to = base.push(Step::Nth(containers(rest)));
        assert(xs.take(m) =~= rest);
        if head.contains(f) {
            let j = choose|j: int| 0 <= j < head.len() && head[j] == f;
            assert(all[j] == f);
            let i = choose|i: int|
                0 <= i < rest.len() && !(#[trigger] rest[i] is Str) && containers(rest.take(i))
                    == n && facts_of(rest[i], base.push(Step::Nth(n))).contains(f);
            assert(rest.take(i) =~= xs.take(i));
            assert(!(xs[i] is Str));
        }
        if all.contains(f) && !head.contains(f) {
            let j = choose|j: int| 0 <= j < all.len() && all[j] == f;
            if j < head.len() {
                assert(head[j] == f);
            }
            match last {
                Plist::Str(x) => {
                    assert(f == Fact::Item(base, x));
                    assert(false);
                },
                _ => {
                    assert(facts_of(last, to)[j - head.len()] == f);
                    lemma_facts_below(last, to, f);
                    lemma_extends_push(path_of_fact(f), base, Step::Nth(containers(rest)));
                    assert(!(xs[m] is Str));
                },
            }
        }
        if exists|i: int|
            0 <= i < xs.len() && !(#[trigger] xs[i] is Str) && containers(xs.take(i)) == n
                && facts_of(xs[i], base.push(Step::Nth(n))).contains(f) {
            let i = choose|i: int|
                0 <= i < xs.len() && !(#[trigger] xs[i] is Str) && containers(xs.take(i)) == n
                    && facts_of(xs[i], base.push(Step::Nth(n))).contains(f);
            if i < m {
                assert(rest.take(i) =~= xs.take(i));
                assert(!(rest[i] is Str));
                assert(head.contains(f));
            } else {
                let body = facts_of(last, to);
                let j = choose|j: int| 0 <= j < body.len() && body[j] == f;
                assert(all[head.len() + j] == f);
            }
        }
    }
}

proof fn lemma_containers_grow(xs: Seq<Plist>, i: int, j: int)
    requires
        0 <= i < j <= xs.len(),
        !(xs[i] is Str),
    ensures
        containers(xs.take(i)) < containers(xs.take(j)),
    decreases j,
{
    assert(xs.take(j).drop_last() =~= xs.take(j - 1));
    if j > i + 1 {
        lemma_containers_grow(xs, i, j - 1);
    }
}

proof fn lemma_nth_sound(xs: Seq<Plist>, base: Seq<Step>, i: int)
    requires
        !repeats_key(item_facts(xs, base)),
        0 <= i < xs.len(),
        !(xs[i] is Str),
    ensures
        !repeats_key(facts_of(xs[i], base.push(Step::Nth(containers(xs.take(i)))))),
    decreases xs.len(),
{
    let rest = xs.drop_last();
    let head = item_facts(rest, base);
    let m = xs.len() - 1;
    assert(xs.take(m) =~= rest);
    let tail = match xs.last() {
        Plist::Str(t) => seq![Fact::Item(base, t)],
        _ => facts_of(xs.last(), base.push(Step::Nth(containers(rest)))),
    };
    lemma_repeats(head, tail);
    if i < m {
        assert(rest.take(i) =~= xs.take(i));
        lemma_nth_sound(rest, base, i);
    }
}

// ── Projects ─────────────────────────────────────────────────────────────────

/// The path of a key at the top.
pub open spec fn top_path(k: Seq<char>) -> Seq<Step> {
    seq![Step::Key(k)]
}

/// The path of an object.
pub open spec fn object_path(u: Seq<char>) -> Seq<Step> {
    top_path("objects"@).push(Step::Key(u))
}

/// The path of a field of an object.
pub open spec fn field_path(u: Seq<char>, name: Seq<char>) -> Seq<Step> {
    object_path(u).push(Step::Key(name))
}

/// The path of a field of a dictionary in a list field.
pub open spec fn nested_path(u: Seq<char>, name: Seq<char>, n: nat, inner: Seq<char>) -> Seq<
    Step,
> {
    field_path(u, name).push(Step::Nth(n)).push(Step::Key(inner))
}

/// The project references name a group of products and a project.
pub open spec fn has_reference(
    os: Objects,
    u: Seq<char>,
    group: Seq<char>,
    project: Seq<char>,
) -> bool {
    exists|i: int|
        0 <= i < references(os, u).len() && reference_of(#[trigger] references(os, u)[i]) == Some(
            (group, project),
        )
}

/// The same, by facts.
pub open spec fn shows_reference(
    fs: Seq<Fact>,
    u: Seq<char>,
    group: Seq<char>,
    project: Seq<char>,
) -> bool {
    exists|n: nat|
        {
            &&& #[trigger] fs.contains(
                Fact::Text(
                    nested_path(u, "projectReferences"@, n, "ProductGroup"@),
                    group,
                ),
            )
            &&& fs.contains(
                Fact::Text(nested_path(u, "projectReferences"@, n, "ProjectRef"@), project),
            )
        }
}

/// The facts show what the project holds, as far as it counts.
pub open spec fn shows(fs: Seq<Fact>, p: Project) -> bool {
    &&& forall|t: Seq<char>| #[trigger]
        fs.contains(Fact::Text(top_path("rootObject"@), t)) == (p.root_object == t)
    &&& forall|u: Seq<char>| #[trigger]
        fs.contains(Fact::Dict(object_path(u))) == is_object(p.objects, u)
    &&& forall|u: Seq<char>, name: Seq<char>, t: Seq<char>|
        counts(name) ==> #[trigger] fs.contains(Fact::Text(field_path(u, name), t)) == (text_field(
            p.objects,
            u,
            name,
        ) == Some(t))
    &&& forall|u: Seq<char>, name: Seq<char>|
        counts(name) ==> #[trigger] fs.contains(Fact::Key(field_path(u, name))) == field(
            p.objects,
            u,
            name,
        ) is Some
    &&& forall|u: Seq<char>, name: Seq<char>, x: Seq<char>|
        counts(name) ==> #[trigger] fs.contains(Fact::Item(field_path(u, name), x)) == list_field(
            p.objects,
            u,
            name,
        ).contains(x)
    &&& forall|u: Seq<char>, group: Seq<char>, project: Seq<char>| #[trigger]
        has_reference(p.objects, u, group, project) == shows_reference(fs, u, group, project)
    &&& distinct_keys(p.objects)
}

/// A fact of a dictionary by its first key.
proof fn lemma_in_dict(v: Plist, base: Seq<Step>, k: Seq<char>, f: Fact)
    requires
        !repeats_key(facts_of(v, base)),
        is_worth(base.push(Step::Key(k))),
        extends(path_of_fact(f), base.push(Step::Key(k))),
    ensures
        facts_of(v, base).contains(f) == match dict_of(Some(v)) {
            Some(es) => match lookup(es, k) {
                Some(w) => f == Fact::Key(base.push(Step::Key(k))) || facts_of(
                    w,
                    base.push(Step::Key(k)),
                ).contains(f),
                None => false,
            },
            None => false,
        },
        dict_of(Some(v)) is Some && lookup(dict_of(Some(v))->Some_0, k) is Some ==> !repeats_key(
            facts_of(lookup(dict_of(Some(v))->Some_0, k)->Some_0, base.push(Step::Key(k))),
        ),
{
    lemma_extends_push(path_of_fact(f), base, Step::Key(k));
    let all = facts_of(v, base);
    match v {
        Plist::Dict(es) => {
            let body = entry_facts(es, base);
            lemma_repeats(seq![Fact::Dict(base)], body);
            lemma_entry_fact(es, base, k, f);
            if body.contains(f) {
                let i = choose|i: int| 0 <= i < body.len() && body[i] == f;
                assert(all[i + 1] == f);
            }
            if all.contains(f) {
                let i = choose|i: int| 0 <= i < all.len() && all[i] == f;
                if i > 0 {
                    assert(body[i - 1] == f);
                } else {
                    assert(f == Fact::Dict(base));
                }
            }
        },
        Plist::Str(t) => {},
        Plist::Array(xs) => {
            if all.contains(f) {
                let i = choose|i: int| 0 <= i < all.len() && all[i] == f;
                if i > 0 {
                    let body = item_facts(xs, base);
                    assert(body[i - 1] == f);
                    lemma_array_fact(xs, base, f);
                } else {
                    assert(f == Fact::List(base));
                }
            }
        },
    }
}

proof fn lemma_array_fact(xs: Seq<Plist>, base: Seq<Step>, f: Fact)
    requires
        item_facts(xs, base).contains(f),
        path_of_fact(f).len() > base.len(),
    ensures
        path_of_fact(f)[base.len() as int] is Nth,
    decreases xs.len(),
{
    let all = item_facts(xs, base);
    let i = choose|i: int| 0 <= i < all.len() && all[i] == f;
    if xs.len() > 0 {
        let rest = xs.drop_last();
        let head = item_facts(rest, base);
        let x = Step::Nth(containers(rest));
        if i < head.len() {
            assert(head[i] == f);
            lemma_array_fact(rest, base, f);
        } else {
            match xs.last() {
                Plist::Str(t) => {},
                _ => {
                    assert(facts_of(xs.last(), base.push(x))[i - head.len()] == f);
                    lemma_facts_below(xs.last(), base.push(x), f);
                    lemma_extends_push(path_of_fact(f), base, x);
                },
            }
        }
    }
}

/// The facts at the path of a value itself.
proof fn lemma_own_facts(v: Plist, base: Seq<Step>)
    ensures
        forall|t: Seq<char>|
            #[trigger] facts_of(v, base).contains(Fact::Text(base, t)) == (v == Plist::Str(t)),
        facts_of(v, base).contains(Fact::Dict(base)) == (v is Dict),
        !facts_of(v, base).contains(Fact::Key(base)),
        forall|t: Seq<char>|
            #[trigger] facts_of(v, base).contains(Fact::Item(base, t)) == (v is Array && strings_of(
                v->Array_0,
            ).contains(t)),
{
    let all = facts_of(v, base);
    assert forall|t: Seq<char>| #[trigger] all.contains(Fact::Text(base, t)) == (v == Plist::Str(
        t,
    )) by {
        let f = Fact::Text(base, t);
        if all.contains(f) {
            lemma_facts_below(v, base, f);
        }
        if v == Plist::Str(t) {
            assert(all[0] == f);
        }
    }
    if all.contains(Fact::Dict(base)) {
        lemma_facts_below(v, base, Fact::Dict(base));
    }
    if v is Dict {
        assert(all[0] == Fact::Dict(base));
    }
    if all.contains(Fact::Key(base)) {
        lemma_facts_below(v, base, Fact::Key(base));
    }
    assert forall|t: Seq<char>| #[trigger] all.contains(Fact::Item(base, t)) == (v is Array
        && strings_of(v->Array_0).contains(t)) by {
        let f = Fact::Item(base, t);
        match v {
            Plist::Array(xs) => {
                let body = item_facts(xs, base);
                lemma_item_fact(xs, base, t);
                if body.contains(f) {
                    let i = choose|i: int| 0 <= i < body.len() && body[i] == f;
                    assert(all[i + 1] == f);
                }
                if all.contains(f) {
                    let i = choose|i: int| 0 <= i < all.len() && all[i] == f;
                    assert(i > 0);
                    assert(body[i - 1] == f);
                }
            },
            Plist::Dict(es) => {
                if all.contains(f) {
                    let i = choose|i: int| 0 <= i < all.len() && all[i] == f;
                    assert(i > 0);
                    assert(entry_facts(es, base)[i - 1] == f);
                    lemma_entries_below(es, base, f);
                }
            },
            Plist::Str(x) => {},
        }
    }
}

proof fn lemma_extends_self(path: Seq<Step>)
    ensures
        extends(path, path),
        forall|x: Step| #[trigger] extends(path.push(x), path),
        forall|x: Step, y: Step| #[trigger] extends(path.push(x).push(y), path),
{
    assert(path.take(path.len() as int) =~= path);
    assert forall|x: Step| #[trigger] extends(path.push(x), path) by {
        assert(path.push(x).take(path.len() as int) =~= path);
    }
    assert forall|x: Step, y: Step| #[trigger] extends(path.push(x).push(y), path) by {
        assert(path.push(x).push(y).take(path.len() as int) =~= path);
    }
}

/// What the facts of a property list say of an object.
#[verifier::rlimit(60)]
#[verifier::spinoff_prover]
proof fn lemma_object_facts(v: Plist, os: Objects, f: Fact, u: Seq<char>)
    requires
        !repeats_key(facts_of(v, Seq::empty())),
        dict_of(Some(v)) is Some,
        dict_of(lookup(dict_of(Some(v))->Some_0, "objects"@)) is Some,
        os == only_dicts(dict_of(lookup(dict_of(Some(v))->Some_0, "objects"@))->Some_0),
        extends(path_of_fact(f), object_path(u)),
        !(f is Key) || path_of_fact(f) != object_path(u),
        !(path_of_fact(f) == object_path(u)) || f is Dict,
        path_of_fact(f).len() > 2 ==> path_of_fact(f)[2] is Key,
    ensures
        facts_of(v, Seq::empty()).contains(f) == match dict_of(lookup(os, u)) {
            Some(fields) => facts_of(Plist::Dict(fields), object_path(u)).contains(f),
            None => false,
        },
        dict_of(lookup(os, u)) is Some ==> !repeats_key(
            facts_of(Plist::Dict(dict_of(lookup(os, u))->Some_0), object_path(u)),
        ),
        distinct_keys(os),
{
    let none = Seq::<Step>::empty();
    let top = top_path("objects"@);
    assert(none.push(Step::Key("objects"@)) =~= top);
    lemma_extends_push(path_of_fact(f), top, Step::Key(u));
    lemma_in_dict(v, none, "objects"@, f);
    let es = dict_of(Some(v))->Some_0;
    let objs_value = lookup(es, "objects"@)->Some_0;
    let objs = dict_of(Some(objs_value))->Some_0;
    lemma_in_dict(objs_value, top, u, f);
    lemma_repeats(seq![Fact::Dict(top)], entry_facts(objs, top));
    lemma_distinct(objs, top);
    lemma_only_dicts(objs, u);
    if let Some(w) = lookup(objs, u) {
        match w {
            Plist::Dict(fields) => {},
            _ => {
                if facts_of(w, object_path(u)).contains(f) {
                    lemma_facts_below(w, object_path(u), f);
                    lemma_own_facts(w, object_path(u));
                    lemma_not_below(w, object_path(u), f);
                    let path = path_of_fact(f);
                    assert(object_path(u).len() == 2);
                    if path.len() == 2 {
                        assert(path.take(2) =~= path);
                        assert(path == object_path(u));
                        assert(f == Fact::Dict(object_path(u)));
                    }
                }
            },
        }
    }
    lemma_filter_distinct(objs);
    let path = path_of_fact(f);
    assert(path.len() >= 2);
    assert(top.len() == 1);
    assert(f != Fact::Key(top));
    assert(top.push(Step::Key(u)) == object_path(u));
    let objs_facts = facts_of(objs_value, top);
    assert(facts_of(v, none).contains(f) == objs_facts.contains(f));
    assert(objs_value == Plist::Dict(objs));
    if let Some(w) = lookup(objs, u) {
        assert(objs_facts.contains(f) == facts_of(w, object_path(u)).contains(f));
    } else {
        assert(!objs_facts.contains(f));
    }
}

/// A string or a list has no facts below keys.
proof fn lemma_not_below(w: Plist, base: Seq<Step>, f: Fact)
    requires
        !(w is Dict),
        facts_of(w, base).contains(f),
    ensures
        path_of_fact(f) == base || path_of_fact(f)[base.len() as int] is Nth,
{
    let all = facts_of(w, base);
    let i = choose|i: int| 0 <= i < all.len() && all[i] == f;
    lemma_facts_below(w, base, f);
    assert(path_of_fact(f).take(path_of_fact(f).len() as int) =~= path_of_fact(f));
    match w {
        Plist::Array(xs) => {
            if i > 0 {
                assert(item_facts(xs, base)[i - 1] == f);
                if path_of_fact(f).len() > base.len() {
                    lemma_array_fact(xs, base, f);
                }
            }
        },
        _ => {},
    }
}

proof fn lemma_filter_distinct(es: Seq<(Seq<char>, Plist)>)
    requires
        distinct_keys(es),
    ensures
        distinct_keys(only_dicts(es)),
        forall|i: int|
            0 <= i < only_dicts(es).len() ==> exists|j: int|
                0 <= j < es.len() && #[trigger] es[j] == #[trigger] only_dicts(es)[i],
    decreases es.len(),
{
    reveal(Seq::filter);
    let pred = |e: (Seq<char>, Plist)| e.1 is Dict;
    if es.len() > 0 {
        let rest = es.drop_last();
        assert forall|i: int, j: int|
            0 <= i < rest.len() && 0 <= j < rest.len() && i != j implies (#[trigger] rest[i]).0 != (
        #[trigger] rest[j]).0 by {
            assert(es[i].0 != es[j].0);
        }
        lemma_filter_distinct(rest);
        let r = only_dicts(rest);
        let all = only_dicts(es);
        assert forall|i: int| 0 <= i < all.len() implies exists|j: int|
            0 <= j < es.len() && #[trigger] es[j] == #[trigger] all[i] by {
            if i < r.len() {
                assert(all[i] == r[i]);
                let j = choose|j: int| 0 <= j < rest.len() && #[trigger] rest[j] == r[i];
                assert(es[j] == all[i]);
            } else {
                assert(es[es.len() - 1] == all[i]);
            }
        }
        assert forall|i: int, j: int|
            0 <= i < all.len() && 0 <= j < all.len() && i != j implies (#[trigger] all[i]).0 != (
        #[trigger] all[j]).0 by {
            if i < r.len() && j < r.len() {
                assert(r[i].0 != r[j].0);
            } else {
                let a = if i < r.len() {
                    i
                } else {
                    j
                };
                assert(all[a] == r[a]);
                let m = choose|m: int| 0 <= m < rest.len() && #[trigger] rest[m] == r[a];
                assert(es[m].0 != es[es.len() - 1].0);
            }
        }
    }
}

#[verifier::rlimit(60)]
#[verifier::spinoff_prover]
proof fn lemma_references_shown(v: Plist, os: Objects, u: Seq<char>, g: Seq<char>, r: Seq<char>)
    requires
        !repeats_key(facts_of(v, Seq::empty())),
        dict_of(Some(v)) is Some,
        dict_of(lookup(dict_of(Some(v))->Some_0, "objects"@)) is Some,
        os == only_dicts(dict_of(lookup(dict_of(Some(v))->Some_0, "objects"@))->Some_0),
    ensures
        has_reference(os, u, g, r) == shows_reference(facts_of(v, Seq::empty()), u, g, r),
{
    let fs = facts_of(v, Seq::empty());
    let name = "projectReferences"@;
    let base = field_path(u, name);
    let pg = "ProductGroup"@;
    let pr = "ProjectRef"@;
    assert forall|n: nat, k: Seq<char>, t: Seq<char>|
        #[trigger] fs.contains(Fact::Text(nested_path(u, name, n, k), t)) == exists|i: int|
            nested_at(os, u, i, n, k, t) by {
        lemma_nested(v, os, u, n, k, t);
    }
    if has_reference(os, u, g, r) {
        let i = choose|i: int|
            0 <= i < references(os, u).len() && reference_of(#[trigger] references(os, u)[i])
                == Some((g, r));
        let n = containers(references(os, u).take(i));
        assert(nested_at(os, u, i, n, pg, g));
        assert(nested_at(os, u, i, n, pr, r));
        assert(fs.contains(Fact::Text(nested_path(u, name, n, pg), g)));
        assert(fs.contains(Fact::Text(nested_path(u, name, n, pr), r)));
    }
    if shows_reference(fs, u, g, r) {
        let n = choose|n: nat|
            {
                &&& #[trigger] fs.contains(Fact::Text(nested_path(u, name, n, pg), g))
                &&& fs.contains(Fact::Text(nested_path(u, name, n, pr), r))
            };
        let i = choose|i: int| nested_at(os, u, i, n, pg, g);
        assert(fs.contains(Fact::Text(nested_path(u, name, n, pr), r)));
        let j = choose|j: int| nested_at(os, u, j, n, pr, r);
        let xs = references(os, u);
        if i < j {
            lemma_containers_grow(xs, i, j);
        } else if j < i {
            lemma_containers_grow(xs, j, i);
        }
        assert(reference_of(xs[i]) == Some((g, r)));
    }
}

/// Item `i` of the project references is dictionary `n`, with this text.
spec fn nested_at(
    os: Objects,
    u: Seq<char>,
    i: int,
    n: nat,
    k: Seq<char>,
    t: Seq<char>,
) -> bool {
    let xs = references(os, u);
    &&& 0 <= i < xs.len()
    &&& containers(xs.take(i)) == n
    &&& match xs[i] {
        Plist::Dict(es) => str_of(lookup(es, k)) == Some(t),
        _ => false,
    }
}

#[verifier::rlimit(60)]
#[verifier::spinoff_prover]
proof fn lemma_nested(
    v: Plist,
    os: Objects,
    u: Seq<char>,
    n: nat,
    k: Seq<char>,
    t: Seq<char>,
)
    requires
        !repeats_key(facts_of(v, Seq::empty())),
        dict_of(Some(v)) is Some,
        dict_of(lookup(dict_of(Some(v))->Some_0, "objects"@)) is Some,
        os == only_dicts(dict_of(lookup(dict_of(Some(v))->Some_0, "objects"@))->Some_0),
    ensures
        facts_of(v, Seq::empty()).contains(
            Fact::Text(nested_path(u, "projectReferences"@, n, k), t),
        ) == exists|i: int| nested_at(os, u, i, n, k, t),
{
    let name = "projectReferences"@;
    let base = field_path(u, name);
    let nth = base.push(Step::Nth(n));
    let path = nested_path(u, name, n, k);
    let f = Fact::Text(path, t);
    lemma_extends_self(nth);
    lemma_extends_self(path);
    lemma_extends_push(path, base, Step::Nth(n));
    lemma_extends_push(path, object_path(u), Step::Key(name));
    lemma_object_facts(v, os, f, u);
    let xs = references(os, u);
    if let Some(fields) = dict_of(lookup(os, u)) {
        lemma_in_dict(Plist::Dict(fields), object_path(u), name, f);
        if let Some(w) = lookup(fields, name) {
            match w {
                Plist::Array(ys) => {
                    assert(xs == ys);
                    let all = facts_of(w, base);
                    let body = item_facts(ys, base);
                    lemma_repeats(seq![Fact::List(base)], body);
                    lemma_nth_fact(ys, base, n, f);
                    if body.contains(f) {
                        let i = choose|i: int| 0 <= i < body.len() && body[i] == f;
                        assert(all[i + 1] == f);
                        let j = choose|j: int|
                            0 <= j < ys.len() && !(#[trigger] ys[j] is Str) && containers(
                                ys.take(j),
                            ) == n && facts_of(ys[j], nth).contains(f);
                        lemma_nth_sound(ys, base, j);
                        lemma_in_dict(ys[j], nth, k, f);
                        let w2 = lookup(dict_of(Some(ys[j]))->Some_0, k)->Some_0;
                        lemma_own_facts(w2, nth.push(Step::Key(k)));
                        assert(nested_at(os, u, j, n, k, t));
                    }
                    if all.contains(f) {
                        let i = choose|i: int| 0 <= i < all.len() && all[i] == f;
                        assert(i > 0);
                        assert(body[i - 1] == f);
                    }
                    if exists|i: int| nested_at(os, u, i, n, k, t) {
                        let j = choose|i: int| nested_at(os, u, i, n, k, t);
                        lemma_nth_sound(ys, base, j);
                        lemma_in_dict(ys[j], nth, k, f);
                        let w2 = lookup(dict_of(Some(ys[j]))->Some_0, k)->Some_0;
                        lemma_own_facts(w2, nth.push(Step::Key(k)));
                        assert(!(ys[j] is Str));
                        assert(body.contains(f));
                    }
                },
                _ => {
                    assert(xs =~= Seq::empty());
                    if facts_of(w, base).contains(f) {
                        lemma_other_value(w, base, f, n);
                    }
                },
            }
        } else {
            assert(xs =~= Seq::empty());
        }
    } else {
        assert(xs =~= Seq::empty());
    }
}

/// A string or a dictionary has no facts below numbers.
proof fn lemma_other_value(w: Plist, base: Seq<Step>, f: Fact, n: nat)
    requires
        !(w is Array),
        facts_of(w, base).contains(f),
    ensures
        !extends(path_of_fact(f), base.push(Step::Nth(n))),
{
    lemma_extends_push(path_of_fact(f), base, Step::Nth(n));
    let all = facts_of(w, base);
    let i = choose|i: int| 0 <= i < all.len() && all[i] == f;
    match w {
        Plist::Dict(es) => {
            if i > 0 {
                assert(entry_facts(es, base)[i - 1] == f);
                lemma_key_step(es, base, f);
            }
        },
        _ => {},
    }
}

proof fn lemma_key_step(es: Seq<(Seq<char>, Plist)>, base: Seq<Step>, f: Fact)
    requires
        entry_facts(es, base).contains(f),
    ensures
        path_of_fact(f).len() > base.len(),
        path_of_fact(f)[base.len() as int] is Key,
    decreases es.len(),
{
    let all = entry_facts(es, base);
    let i = choose|i: int| 0 <= i < all.len() && all[i] == f;
    if es.len() > 0 {
        let rest = es.drop_last();
        let head = entry_facts(rest, base);
        let x = Step::Key(es.last().0);
        if i < head.len() {
            assert(head[i] == f);
            lemma_key_step(rest, base, f);
        } else if i > head.len() {
            assert(facts_of(es.last().1, base.push(x))[i - head.len() - 1] == f);
            lemma_facts_below(es.last().1, base.push(x), f);
            lemma_extends_push(path_of_fact(f), base, x);
        }
    }
}

/// The facts of a property list show its project.
#[verifier::rlimit(60)]
#[verifier::spinoff_prover]
pub proof fn lemma_shows(v: Plist)
    requires
        !repeats_key(facts_of(v, Seq::empty())),
    ensures
        project_of(v) is Ok == {
            &&& facts_of(v, Seq::empty()).contains(Fact::Dict(top_path("objects"@)))
            &&& exists|t: Seq<char>|
                #[trigger] facts_of(v, Seq::empty()).contains(
                    Fact::Text(top_path("rootObject"@), t),
                )
        },
        project_of(v) is Ok ==> shows(facts_of(v, Seq::empty()), project_of(v)->Ok_0),
{
    let none = Seq::<Step>::empty();
    let fs = facts_of(v, none);
    let root = top_path("rootObject"@);
    let top = top_path("objects"@);
    assert(none.push(Step::Key("objects"@)) =~= top);
    assert(none.push(Step::Key("rootObject"@)) =~= root);
    lemma_extends_self(root);
    lemma_extends_self(top);
    lemma_in_dict(v, none, "objects"@, Fact::Dict(top));
    if let Some(es) = dict_of(Some(v)) {
        if let Some(w) = lookup(es, "objects"@) {
            lemma_own_facts(w, top);
        }
        if let Some(w) = lookup(es, "rootObject"@) {
            lemma_own_facts(w, root);
        }
    }
    assert forall|t: Seq<char>| #[trigger] fs.contains(Fact::Text(root, t)) == (dict_of(
        Some(v),
    ) is Some && str_of(lookup(dict_of(Some(v))->Some_0, "rootObject"@)) == Some(t)) by {
        lemma_in_dict(v, none, "rootObject"@, Fact::Text(root, t));
    }
    if project_of(v) is Ok {
        let p = project_of(v)->Ok_0;
        let os = p.objects;
        assert(fs.contains(Fact::Text(root, p.root_object)));
        assert forall|u: Seq<char>| #[trigger] fs.contains(Fact::Dict(object_path(u)))
            == is_object(os, u) by {
            lemma_extends_self(object_path(u));
            lemma_object_facts(v, os, Fact::Dict(object_path(u)), u);
            if let Some(fields) = dict_of(lookup(os, u)) {
                lemma_own_facts(Plist::Dict(fields), object_path(u));
            }
        }
        assert forall|u: Seq<char>, name: Seq<char>, t: Seq<char>|
            counts(name) implies #[trigger] fs.contains(Fact::Text(field_path(u, name), t)) == (
        text_field(os, u, name) == Some(t)) by {
            lemma_field(v, os, u, name, Fact::Text(field_path(u, name), t));
        }
        assert forall|u: Seq<char>, name: Seq<char>| counts(name) implies #[trigger] fs.contains(
            Fact::Key(field_path(u, name)),
        ) == field(os, u, name) is Some by {
            lemma_field(v, os, u, name, Fact::Key(field_path(u, name)));
        }
        assert forall|u: Seq<char>, name: Seq<char>, x: Seq<char>|
            counts(name) implies #[trigger] fs.contains(Fact::Item(field_path(u, name), x))
            == list_field(os, u, name).contains(x) by {
            lemma_field(v, os, u, name, Fact::Item(field_path(u, name), x));
        }
        assert forall|u: Seq<char>, g: Seq<char>, r: Seq<char>| #[trigger]
            has_reference(os, u, g, r) == shows_reference(fs, u, g, r) by {
            lemma_references_shown(v, os, u, g, r);
        }
        lemma_extends_self(object_path(p.root_object));
        lemma_object_facts(v, os, Fact::Dict(object_path(p.root_object)), p.root_object);
    }
}

proof fn lemma_field(v: Plist, os: Objects, u: Seq<char>, name: Seq<char>, f: Fact)
    requires
        !repeats_key(facts_of(v, Seq::empty())),
        dict_of(Some(v)) is Some,
        dict_of(lookup(dict_of(Some(v))->Some_0, "objects"@)) is Some,
        os == only_dicts(dict_of(lookup(dict_of(Some(v))->Some_0, "objects"@))->Some_0),
        counts(name),
        path_of_fact(f) == field_path(u, name),
        f is Text || f is Key || f is Item,
    ensures
        facts_of(v, Seq::empty()).contains(f) == match f {
            Fact::Text(_, t) => text_field(os, u, name) == Some(t),
            Fact::Key(_) => field(os, u, name) is Some,
            Fact::Item(_, x) => list_field(os, u, name).contains(x),
            _ => false,
        },
{
    let path = field_path(u, name);
    lemma_extends_self(object_path(u));
    lemma_extends_self(path);
    lemma_object_facts(v, os, f, u);
    if let Some(fields) = dict_of(lookup(os, u)) {
        lemma_in_dict(Plist::Dict(fields), object_path(u), name, f);
        if let Some(w) = lookup(fields, name) {
            lemma_own_facts(w, path);
        }
    }
}

/// Facts that are the same where it counts show the same.
proof fn lemma_shown_alike(fs: Seq<Fact>, gs: Seq<Fact>, p: Project)
    requires
        shows(gs, p),
        forall|f: Fact| is_worth(path_of_fact(f)) ==> #[trigger] fs.contains(f) == gs.contains(f),
    ensures
        shows(fs, p),
{
    let root = top_path("rootObject"@);
    assert forall|t: Seq<char>| #[trigger] fs.contains(Fact::Text(root, t)) == (p.root_object
        == t) by {
        assert(gs.contains(Fact::Text(root, t)) == (p.root_object == t));
    }
    assert forall|u: Seq<char>| #[trigger] fs.contains(Fact::Dict(object_path(u))) == is_object(
        p.objects,
        u,
    ) by {
        assert(gs.contains(Fact::Dict(object_path(u))) == is_object(p.objects, u));
    }
    assert forall|u: Seq<char>, name: Seq<char>, t: Seq<char>|
        counts(name) implies #[trigger] fs.contains(Fact::Text(field_path(u, name), t)) == (
    text_field(p.objects, u, name) == Some(t)) by {
        assert(is_worth(field_path(u, name)));
        assert(gs.contains(Fact::Text(field_path(u, name), t)) == (text_field(p.objects, u, name)
            == Some(t)));
    }
    assert forall|u: Seq<char>, name: Seq<char>| counts(name) implies #[trigger] fs.contains(
        Fact::Key(field_path(u, name)),
    ) == field(p.objects, u, name) is Some by {
        assert(is_worth(field_path(u, name)));
        assert(gs.contains(Fact::Key(field_path(u, name))) == field(p.objects, u, name) is Some);
    }
    assert forall|u: Seq<char>, name: Seq<char>, x: Seq<char>|
        counts(name) implies #[trigger] fs.contains(Fact::Item(field_path(u, name), x))
        == list_field(p.objects, u, name).contains(x) by {
        assert(is_worth(field_path(u, name)));
        assert(gs.contains(Fact::Item(field_path(u, name), x)) == list_field(
            p.objects,
            u,
            name,
        ).contains(x));
    }
    assert forall|u: Seq<char>, group: Seq<char>, project: Seq<char>| #[trigger]
        has_reference(p.objects, u, group, project) == shows_reference(fs, u, group, project) by {
        let name = "projectReferences"@;
        let pg = "ProductGroup"@;
        let pr = "ProjectRef"@;
        assert(has_reference(p.objects, u, group, project) == shows_reference(
            gs,
            u,
            group,
            project,
        ));
        assert forall|n: nat| #[trigger] fs.contains(Fact::Text(nested_path(u, name, n, pg), group))
            == gs.contains(Fact::Text(nested_path(u, name, n, pg), group)) && fs.contains(
            Fact::Text(nested_path(u, name, n, pr), project),
        ) == gs.contains(Fact::Text(nested_path(u, name, n, pr), project)) by {
            assert(nested_path(u, name, n, pg)[2] == Step::Key(name));
            assert(nested_path(u, name, n, pr)[2] == Step::Key(name));
        }
        if shows_reference(gs, u, group, project) {
            let n = choose|n: nat|
                {
                    &&& #[trigger] gs.contains(Fact::Text(nested_path(u, name, n, pg), group))
                    &&& gs.contains(Fact::Text(nested_path(u, name, n, pr), project))
                };
            assert(fs.contains(Fact::Text(nested_path(u, name, n, pg), group)));
        }
    }
}

/// The facts of a text show the project that it describes.
pub proof fn law_text_shows_project(ls: Seq<Seq<char>>)
    requires
        all_closed(ls),
        !repeats_key(text_facts(ls)),
    ensures
        project_in(unlines(ls)) is Some ==> shows(text_facts(ls), project_in(unlines(ls))->Some_0)
            && spot_of(ls) == Spot::Done,
        project_in(unlines(ls)) is Some == {
            &&& spot_of(ls) == Spot::Done
            &&& text_facts(ls).contains(Fact::Dict(top_path("objects"@)))
            &&& exists|t: Seq<char>|
                #[trigger] text_facts(ls).contains(Fact::Text(top_path("rootObject"@), t))
        },
{
    law_text_holds_its_facts(ls);
    let s = encode_utf8(unlines(ls));
    let fs = text_facts(ls);
    if value(s, 0) is Ok {
        let v = value(s, 0)->Ok_0.0;
        let gs = facts_of(v, Seq::empty());
        lemma_repeats_worth(fs);
        lemma_repeats_worth(gs);
        lemma_shows(v);
        assert forall|f: Fact| is_worth(path_of_fact(f)) implies #[trigger] fs.contains(f)
            == gs.contains(f) by {
            lemma_worth_contains(fs, f);
            lemma_worth_contains(gs, f);
        }
        assert forall|f: Fact| is_worth(path_of_fact(f)) implies fs.contains(f)
            == #[trigger] gs.contains(f) by {
            assert(fs.contains(f) == gs.contains(f));
        }
        if project_of(v) is Ok {
            lemma_shown_alike(fs, gs, project_of(v)->Ok_0);
        }
        let objects = Fact::Dict(top_path("objects"@));
        assert(fs.contains(objects) == gs.contains(objects));
        let top = top_path("rootObject"@);
        if exists|t: Seq<char>| #[trigger] gs.contains(Fact::Text(top, t)) {
            let t = choose|t: Seq<char>| #[trigger] gs.contains(Fact::Text(top, t));
            assert(fs.contains(Fact::Text(top, t)));
        }
        if exists|t: Seq<char>| #[trigger] fs.contains(Fact::Text(top, t)) {
            let t = choose|t: Seq<char>| #[trigger] fs.contains(Fact::Text(top, t));
            assert(gs.contains(Fact::Text(top, t)));
        }
    }
}

} // verus!
