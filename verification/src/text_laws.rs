//! How texts are taken apart.

use crate::mapper::{is_map_of, node, table_view, ProjectMap};
use crate::order::text_le;
use crate::parser::Project;
use crate::text::{
    all_ascii, has_substring, is_blank, is_white, lemma_indent, lemma_line_len, lines_of,
    lowercase, occurs_at, trimmed, trimmed_end, trimmed_start, uppercase, without_cr,
};
use crate::uniquifier::{is_object, text_field, Rows};
use vstd::prelude::*;

verus! {

// ── Lines ────────────────────────────────────────────────────────────────────

/// A line of a text, and whether a carriage return stands before the line feed that
/// ends it.
pub ghost struct Ended {
    pub line: Seq<char>,
    pub with_return: bool,
}

/// The line holds no line feed, and does not end with a carriage return.
pub open spec fn is_bare(l: Seq<char>) -> bool {
    &&& forall|i: int| 0 <= i < l.len() ==> #[trigger] l[i] != '\n'
    &&& l.len() > 0 ==> l.last() != '\r'
}

/// The lines as a text, each with its end, and some text behind them.
pub open spec fn with_ends(ls: Seq<Ended>, rest: Seq<char>) -> Seq<char>
    decreases ls.len(),
{
    if ls.len() == 0 {
        rest
    } else if ls[0].with_return {
        ls[0].line + seq!['\r', '\n'] + with_ends(ls.drop_first(), rest)
    } else {
        ls[0].line + seq!['\n'] + with_ends(ls.drop_first(), rest)
    }
}

/// Lines are told apart by line feeds, with carriage returns before them or without;
/// a last line needs no end.
pub proof fn law_lines_are_read(ls: Seq<Ended>, rest: Seq<char>)
    requires
        forall|i: int| 0 <= i < ls.len() ==> is_bare((#[trigger] ls[i]).line),
        is_bare(rest),
    ensures
        lines_of(with_ends(ls, rest)) == Seq::new(ls.len(), |i: int| ls[i].line) + if rest.len()
            == 0 {
            Seq::empty()
        } else {
            seq![rest]
        },
    decreases ls.len(),
{
    let s = with_ends(ls, rest);
    let all = Seq::new(ls.len(), |i: int| ls[i].line);
    if ls.len() == 0 {
        if rest.len() > 0 {
            lemma_line_len(rest, rest.len() as int);
            assert(lines_of(s) =~= seq![rest]);
        }
        assert(all =~= Seq::empty());
        assert(lines_of(s) =~= all + if rest.len() == 0 {
            Seq::empty()
        } else {
            seq![rest]
        });
    } else {
        let more = ls.drop_first();
        assert forall|i: int| 0 <= i < more.len() implies is_bare((#[trigger] more[i]).line) by {
            assert(more[i] == ls[i + 1]);
        }
        law_lines_are_read(more, rest);
        let l = ls[0].line;
        assert(is_bare(ls[0].line));
        let n: int = if ls[0].with_return {
            l.len() as int + 1
        } else {
            l.len() as int
        };
        assert forall|i: int| 0 <= i < n implies s[i] != '\n' by {
            if i < l.len() {
                assert(s[i] == l[i]);
            }
        }
        assert(s[n] == '\n');
        lemma_line_len(s, n);
        assert(s.skip(n + 1) =~= with_ends(more, rest));
        if ls[0].with_return {
            assert(s.take(n) =~= l.push('\r'));
            assert(l.push('\r').drop_last() =~= l);
        } else {
            assert(s.take(n) =~= l);
        }
        assert(without_cr(s.take(n)) =~= l);
        assert(all =~= seq![l] + Seq::new(more.len(), |i: int| more[i].line));
        assert(lines_of(s) =~= all + if rest.len() == 0 {
            Seq::empty()
        } else {
            seq![rest]
        });
    }
}

// ── White space ──────────────────────────────────────────────────────────────

/// A text of nothing but white space.
pub open spec fn is_space(s: Seq<char>) -> bool {
    forall|i: int| 0 <= i < s.len() ==> is_white(#[trigger] s[i])
}

proof fn lemma_trim_end(s: Seq<char>, b: Seq<char>)
    requires
        s.len() > 0,
        !is_white(s.last()),
        is_space(b),
    ensures
        trimmed_end(s + b) == s,
    decreases b.len(),
{
    if b.len() == 0 {
        assert(s + b =~= s);
    } else {
        let rest = b.drop_last();
        assert forall|i: int| 0 <= i < rest.len() implies is_white(#[trigger] rest[i]) by {
            assert(rest[i] == b[i]);
        }
        assert((s + b).last() == b[b.len() - 1]);
        assert((s + b).drop_last() =~= s + rest);
        lemma_trim_end(s, rest);
    }
}

/// White space around a text is trimmed, and nothing of the text is.
pub proof fn law_white_space_is_trimmed(a: Seq<char>, s: Seq<char>, b: Seq<char>)
    requires
        is_space(a),
        is_space(b),
        s.len() > 0,
        !is_white(s[0]),
        !is_white(s.last()),
    ensures
        trimmed(a + s + b) == s,
        trimmed_start(a + s + b) == s + b,
        trimmed_end(a + s + b) == a + s,
        !is_blank(a + s + b),
        is_blank(a),
{
    let t = a + s + b;
    let n = a.len() as int;
    assert forall|i: int| 0 <= i < n implies is_white(t[i]) by {
        assert(t[i] == a[i]);
    }
    assert(t[n] == s[0]);
    lemma_indent(t, n);
    assert(t.skip(n) =~= s + b);
    lemma_trim_end(s, b);
    assert((a + s).last() == s.last());
    lemma_trim_end(a + s, b);
    assert forall|i: int| 0 <= i < n implies is_white(a[i]) by {}
    lemma_indent(a, n);
    assert(a.skip(n) =~= Seq::empty());
}

/// A text is found wherever it stands in another, and only there.
pub proof fn law_substring_is_found(a: Seq<char>, s: Seq<char>, b: Seq<char>)
    ensures
        has_substring(a + s + b, s),
        s.len() > a.len() ==> !has_substring(a, s),
{
    let t = a + s + b;
    assert(t.subrange(a.len() as int, (a.len() + s.len()) as int) =~= s);
    assert(occurs_at(t, s, a.len() as int));
}

// ── Case ─────────────────────────────────────────────────────────────────────

/// Of ASCII texts case is all that changing it changes.
pub proof fn law_only_case_is_changed(s: Seq<char>)
    requires
        all_ascii(s),
    ensures
        uppercase(s).len() == s.len(),
        lowercase(s).len() == s.len(),
        uppercase(uppercase(s)) == uppercase(s),
        lowercase(lowercase(s)) == lowercase(s),
        uppercase(lowercase(s)) == uppercase(s),
        lowercase(uppercase(s)) == lowercase(s),
        forall|i: int|
            0 <= i < s.len() && !('a' <= s[i] <= 'z') ==> #[trigger] uppercase(s)[i] == s[i],
        forall|i: int|
            0 <= i < s.len() && 'a' <= s[i] <= 'z' ==> 'A' <= #[trigger] uppercase(s)[i] <= 'Z',
        forall|i: int|
            0 <= i < s.len() && !('A' <= s[i] <= 'Z') ==> #[trigger] lowercase(s)[i] == s[i],
        forall|i: int|
            0 <= i < s.len() && 'A' <= s[i] <= 'Z' ==> 'a' <= #[trigger] lowercase(s)[i] <= 'z',
{
    reveal(uppercase);
    reveal(lowercase);
    let u = uppercase(s);
    let l = lowercase(s);
    assert forall|i: int| 0 <= i < s.len() implies #[trigger] u[i] <= '\u{7f}' by {
        assert(s[i] <= '\u{7f}');
    }
    assert forall|i: int| 0 <= i < s.len() implies #[trigger] l[i] <= '\u{7f}' by {
        assert(s[i] <= '\u{7f}');
    }
    assert(uppercase(u) =~= u);
    assert(lowercase(l) =~= l);
    assert(uppercase(l) =~= u);
    assert(lowercase(u) =~= l);
}

// ── Maps without a tree ──────────────────────────────────────────────────────

/// The map of a project whose main group is no object has a tree without files, with
/// the name of the project; and the table of every map is in the order of its UUIDs,
/// without one twice.
pub proof fn law_map_is_in_order(
    m: ProjectMap,
    p: Project,
    rows: Rows,
    map: Seq<(Seq<char>, Seq<char>)>,
    name: Seq<char>,
    i: int,
    j: int,
)
    requires
        is_map_of(m, p, rows, map, name),
        0 <= i < j < m.uuid_table@.len(),
    ensures
        match text_field(p.objects, p.root_object, "mainGroup"@) {
            Some(g) => !is_object(p.objects, g) ==> node(m.file_tree).children.len() == 0 && node(
                m.file_tree,
            ).name == name,
            None => true,
        },
        text_le(m.uuid_table@[i].0@, m.uuid_table@[j].0@),
        m.uuid_table@[i].0@ != m.uuid_table@[j].0@,
{
    let ks = crate::mapper::keys(table_view(m.uuid_table@));
    assert(ks[i] == m.uuid_table@[i].0@);
    assert(ks[j] == m.uuid_table@[j].0@);
    assert(crate::listing::strictly_sorted(ks));
}

} // verus!
