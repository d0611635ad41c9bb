//! How paths, numbers and dates are read.

use crate::calendar::{days_before_month, is_date, month_len, padded, stamp, year_len};
use crate::cli::{all_digits, digits_value, number_in};
use crate::difference_laws::lacks;
use crate::paths::{
    below, component_end, components, components_from, dir_of, dot_of, extended, extension_of,
    file_name_of, is_component, last_dot, map_path, name_of, parent_of, project_name, root_len,
    stem_of,
};
use crate::text::decimal;
use vstd::prelude::*;

verus! {

// ── Paths ────────────────────────────────────────────────────────────────────

/// A name of a file or directory.
pub open spec fn is_name(n: Seq<char>) -> bool {
    n.len() > 0 && lacks(n, '/') && n != "."@ && n != ".."@
}

/// The path of a directory that ends in a name.
pub open spec fn is_directory(d: Seq<char>) -> bool {
    &&& d.len() > 0
    &&& d.last() != '/'
    &&& !(d.len() > 1 && d[d.len() - 2] == '/' && d.last() == '.')
}

proof fn lemma_component_ends(s: Seq<char>, i: int, j: int)
    requires
        0 <= i <= j <= s.len(),
        forall|k: int| i <= k < j ==> #[trigger] s[k] != '/',
        j < s.len() ==> s[j] == '/',
    ensures
        component_end(s, i) == j,
    decreases j - i,
{
    if i < j {
        lemma_component_ends(s, i + 1, j);
    }
}

proof fn lemma_component_stops(s: Seq<char>, i: int)
    requires
        0 <= i <= s.len(),
    ensures
        ({
            let j = component_end(s, i);
            &&& i <= j <= s.len()
            &&& forall|k: int| i <= k < j ==> #[trigger] s[k] != '/'
            &&& j < s.len() ==> s[j] == '/'
        }),
    decreases s.len() - i,
{
    if i < s.len() && s[i] != '/' {
        lemma_component_stops(s, i + 1);
    }
}

proof fn lemma_components_on(d: Seq<char>, n: Seq<char>, i: int)
    requires
        is_name(n) || n == ".."@,
        0 <= i <= d.len() + 1,
    ensures
        components_from(d + "/"@ + n, i) == components_from(d, i).push(
            (d.len() as int + 1, (d + "/"@ + n).len() as int),
        ),
    decreases d.len() + 1 - i,
{
    reveal_strlit("/");
    reveal_strlit(".");
    reveal_strlit("..");
    let s = d + "/"@ + n;
    let m = d.len() as int;
    let end = s.len() as int;
    assert(lacks(n, '/')) by {
        if n == ".."@ {
            assert(n[0] == '.' && n[1] == '.');
        }
    }
    assert(n.len() > 0);
    if i > m {
        assert forall|k: int| i <= k < end implies #[trigger] s[k] != '/' by {
            assert(s[k] == n[k - m - 1]);
        }
        lemma_component_ends(s, i, end);
        if end == i + 1 && s[i] == '.' {
            assert(n[0] == '.');
            assert(n =~= "."@);
        }
        assert(is_component(s, i, end));
        assert(components_from(s, end + 1) =~= Seq::empty());
        assert(components_from(d, i) =~= Seq::empty());
        assert(components_from(s, i) =~= seq![(i, end)]);
    } else {
        lemma_component_stops(d, i);
        let j = component_end(d, i);
        assert forall|k: int| i <= k < j implies #[trigger] s[k] != '/' by {
            assert(s[k] == d[k]);
        }
        if j < m {
            assert(s[j] == d[j]);
        }
        lemma_component_ends(s, i, j);
        if i == m {
            assert(components_from(d, i) =~= Seq::empty());
            lemma_components_on(d, n, m + 1);
            assert(components_from(d, m + 1) =~= Seq::empty());
        } else {
            lemma_components_on(d, n, j + 1);
            assert(is_component(s, i, j) == is_component(d, i, j)) by {
                if i < j {
                    assert(s[i] == d[i]);
                }
            }
            assert(components_from(s, i) =~= components_from(d, i).push((m + 1, end)));
        }
    }
}

proof fn lemma_last_component(d: Seq<char>, i: int)
    requires
        is_directory(d),
        0 <= i < d.len(),
        i == 0 || d[i - 1] == '/',
    ensures
        components_from(d, i).len() > 0,
        components_from(d, i).last().1 == d.len(),
    decreases d.len() - i,
{
    lemma_component_stops(d, i);
    let j = component_end(d, i);
    if j == d.len() {
        assert(is_component(d, i, j));
        assert(components_from(d, j + 1) =~= Seq::empty());
    } else {
        assert(d[j] == '/');
        lemma_last_component(d, j + 1);
        let rest = components_from(d, j + 1);
        if is_component(d, i, j) {
            assert(components_from(d, i).last() == rest.last());
        }
    }
}

/// A name below a directory leads to that name, in that directory.
pub proof fn law_name_below_directory(d: Seq<char>, n: Seq<char>)
    requires
        is_directory(d),
        is_name(n),
    ensures
        below(d, n) == d + "/"@ + n,
        parent_of(d + "/"@ + n) == Some(d),
        file_name_of(d + "/"@ + n) == Some(n),
{
    reveal_strlit("/");
    let s = d + "/"@ + n;
    let i = root_len(d);
    assert(s[0] == d[0]);
    assert(root_len(s) == i);
    assert(d.push('/') + n =~= s);
    lemma_components_on(d, n, i);
    lemma_last_component(d, i);
    let cs = components(s);
    assert(cs.last() == (d.len() as int + 1, s.len() as int));
    assert(cs[cs.len() - 2] == components(d).last());
    assert(s.take(d.len() as int) =~= d);
    assert(s.subrange(d.len() as int + 1, s.len() as int) =~= n);
}

/// A project is called as the bundle that its file is in.
pub proof fn law_project_is_called_as_its_bundle(d: Seq<char>, bundle: Seq<char>, file: Seq<char>)
    requires
        is_directory(d),
        is_name(bundle),
        is_name(file),
    ensures
        project_name(d + "/"@ + bundle + "/"@ + file) == bundle,
        project_name(bundle + "/"@ + file) == bundle,
{
    reveal_strlit("/");
    reveal_strlit(".");
    let b = d + "/"@ + bundle;
    assert(b.last() == bundle.last());
    assert(bundle[bundle.len() - 1] != '/');
    if b[b.len() - 2] == '/' && b.last() == '.' {
        if bundle.len() == 1 {
            assert(bundle =~= "."@);
        } else {
            assert(b[b.len() - 2] == bundle[bundle.len() - 2]);
        }
    }
    law_name_below_directory(b, file);
    law_name_below_directory(d, bundle);
    if bundle.len() > 1 {
        assert(bundle[bundle.len() - 2] != '/');
    }
    law_name_below_directory(bundle, file);
    lemma_components_of_name(bundle);
}

proof fn lemma_components_of_name(n: Seq<char>)
    requires
        is_name(n),
    ensures
        file_name_of(n) == Some(n),
        parent_of(n) == Some(Seq::<char>::empty()),
{
    assert(n[0] != '/');
    lemma_component_ends(n, 0, n.len() as int);
    assert(components_from(n, n.len() as int + 1) =~= Seq::empty());
    assert(components(n) =~= seq![(0int, n.len() as int)]);
    assert(n.subrange(0, n.len() as int) =~= n);
    assert(n.take(0) =~= Seq::empty());
}

proof fn lemma_last_dot(s: Seq<char>, i: int, j: int, d: int)
    requires
        0 <= i < d < j <= s.len(),
        s[d] == '.',
        forall|k: int| d < k < j ==> #[trigger] s[k] != '.',
    ensures
        last_dot(s, i, j) == d,
    decreases j,
{
    if j - 1 > d {
        lemma_last_dot(s, i, j - 1, d);
    }
}

/// The name of a file is its stem, a dot, and its extension.
pub proof fn law_stem_and_extension(d: Seq<char>, stem: Seq<char>, extension: Seq<char>)
    requires
        is_directory(d),
        stem.len() > 0,
        lacks(stem, '/'),
        lacks(extension, '/'),
        lacks(extension, '.'),
        is_name(stem + "."@ + extension),
    ensures
        stem_of(d + "/"@ + (stem + "."@ + extension)) == Some(stem),
        extension_of(d + "/"@ + (stem + "."@ + extension)) == Some(extension),
        map_path(d + "/"@ + (stem + "."@ + extension)) == d + "/"@ + (stem
            + ".electrolysis-map.json"@),
{
    reveal_strlit("/");
    reveal_strlit(".");
    let n = stem + "."@ + extension;
    let s = d + "/"@ + n;
    law_name_below_directory(d, n);
    let i = root_len(d);
    lemma_components_on(d, n, i);
    assert(s[0] == d[0]);
    let a = d.len() as int + 1;
    let z = s.len() as int;
    let dot = a + stem.len();
    assert(s.subrange(a, z) =~= n);
    assert(name_of(s) == Some((a, z)));
    assert(s[dot] == n[stem.len() as int]);
    assert forall|k: int| dot < k < z implies #[trigger] s[k] != '.' by {
        assert(s[k] == extension[k - dot - 1]);
    }
    lemma_last_dot(s, a, z, dot);
    assert(dot_of(s, a, z) == dot);
    assert(s.subrange(a, dot) =~= stem);
    assert(s.subrange(dot + 1, z) =~= extension);
    assert(dir_of(s) == d);
    assert(d.push('/') + (stem + ".electrolysis-map.json"@) =~= d + "/"@ + (stem
        + ".electrolysis-map.json"@));
}

/// A file with another extension has the same stem.
pub proof fn lemma_extended(
    d: Seq<char>,
    stem: Seq<char>,
    extension: Seq<char>,
    other: Seq<char>,
)
    requires
        is_directory(d),
        stem.len() > 0,
        lacks(stem, '/'),
        lacks(extension, '/'),
        lacks(extension, '.'),
        is_name(stem + "."@ + extension),
    ensures
        extended(d + "/"@ + (stem + "."@ + extension), other) == d + "/"@ + (stem + "."@ + other),
{
    reveal_strlit("/");
    reveal_strlit(".");
    let n = stem + "."@ + extension;
    let s = d + "/"@ + n;
    law_name_below_directory(d, n);
    lemma_components_on(d, n, root_len(d));
    assert(s[0] == d[0]);
    let a = d.len() as int + 1;
    let z = s.len() as int;
    let dot = a + stem.len();
    assert(s.subrange(a, z) =~= n);
    assert(s[dot] == n[stem.len() as int]);
    assert forall|k: int| dot < k < z implies #[trigger] s[k] != '.' by {
        assert(s[k] == extension[k - dot - 1]);
    }
    lemma_last_dot(s, a, z, dot);
    assert(s.take(dot) + "."@ + other =~= d + "/"@ + (stem + "."@ + other));
}

// ── Numbers ──────────────────────────────────────────────────────────────────

proof fn lemma_decimal(n: nat)
    ensures
        decimal(n).len() > 0,
        all_digits(decimal(n)),
        digits_value(decimal(n)) == n,
        n < 10 ==> decimal(n).len() == 1,
    decreases n,
{
    if n >= 10 {
        lemma_decimal(n / 10);
        let d = decimal(n);
        assert(d.drop_last() =~= decimal(n / 10));
        assert forall|i: int| 0 <= i < d.len() implies '0' <= #[trigger] d[i] <= '9' by {
            if i < d.len() - 1 {
                assert(d[i] == decimal(n / 10)[i]);
            }
        }
    } else {
        let d = decimal(n);
        assert(d.drop_last() =~= Seq::empty());
        assert(digits_value(d.drop_last()) == 0);
    }
}

/// The digits of a number are read as that number, with a plus sign or without.
pub proof fn law_numbers_are_read(n: nat)
    requires
        n <= usize::MAX,
    ensures
        number_in(decimal(n)) == Some(n),
        number_in(seq!['+'] + decimal(n)) == Some(n),
{
    lemma_decimal(n);
    let d = decimal(n);
    assert('0' <= d[0] <= '9');
    assert(d[0] != '+');
    assert((seq!['+'] + d).skip(1) =~= d);
}

// ── Dates ────────────────────────────────────────────────────────────────────

proof fn lemma_year_of_months(y: int)
    ensures
        days_before_month(y, 12) + 31 == year_len(y),
{
    reveal_with_fuel(days_before_month, 13);
}

/// The day after a day of a month is the next one of that month, or the first of
/// the next month, or the first of the next year.
pub proof fn law_days_follow_each_other(days: int, y: int, m: int, d: int)
    requires
        is_date(days, y, m, d),
    ensures
        d < month_len(y, m) ==> is_date(days + 1, y, m, d + 1),
        d == month_len(y, m) && m < 12 ==> is_date(days + 1, y, m + 1, 1),
        d == month_len(y, m) && m == 12 ==> is_date(days + 1, y + 1, 1, 1),
{
    lemma_year_of_months(y);
}

/// Every month has its days: February one more in years that four divides, but not
/// in those that a hundred divides, unless four hundred does; and the days are
/// counted from the first of 1970.
pub proof fn law_months_have_their_days(y: int)
    ensures
        forall|m: int|
            1 <= m <= 12 && m != 2 ==> #[trigger] month_len(y, m) == seq![
                31int,
                28,
                31,
                30,
                31,
                30,
                31,
                31,
                30,
                31,
                30,
                31,
            ][m - 1],
        y % 4 != 0 ==> month_len(y, 2) == 28,
        y % 4 == 0 && y % 100 != 0 ==> month_len(y, 2) == 29,
        y % 100 == 0 && y % 400 != 0 ==> month_len(y, 2) == 28,
        y % 400 == 0 ==> month_len(y, 2) == 29,
        is_date(0, 1970, 1, 1),
{
}

proof fn lemma_padded(n: nat, width: nat, limit: nat)
    requires
        width == 2 && limit == 100 || width == 4 && limit == 10000,
        n < limit,
    ensures
        padded(n, width).len() == width,
        digits_value(padded(n, width)) == n,
{
    lemma_decimal(n);
    let d = decimal(n);
    lemma_decimal(n / 10);
    lemma_decimal(n / 100);
    lemma_decimal(n / 1000);
    assert(d.len() <= width);
    if d.len() < width {
        lemma_zeros(d, (width - d.len()) as nat);
    }
}

proof fn lemma_zeros(d: Seq<char>, count: nat)
    ensures
        digits_value(Seq::new(count, |i: int| '0') + d) == digits_value(d),
    decreases d.len(), count,
{
    let z = Seq::new(count, |i: int| '0');
    let s = z + d;
    if d.len() == 0 {
        if count > 0 {
            let less = Seq::new((count - 1) as nat, |i: int| '0');
            assert(s.drop_last() =~= less + d);
            assert(s.last() == '0');
            lemma_zeros(d, (count - 1) as nat);
        } else {
            assert(s =~= d);
        }
    } else {
        assert(s.drop_last() =~= z + d.drop_last());
        assert(s.last() == d.last());
        lemma_zeros(d.drop_last(), count);
    }
}

/// A timestamp shows the year, the month and the day, and the time of day, each in
/// its place.
#[verifier::rlimit(40)]
pub proof fn law_timestamp_shows_date_and_time(y: int, m: int, d: int, secs: int)
    requires
        0 <= y < 10000,
        1 <= m <= 12,
        1 <= d <= 31,
        0 <= secs < 86400,
    ensures
        ({
            let t = stamp(y, m, d, secs);
            &&& t.len() == 20
            &&& digits_value(t.subrange(0, 4)) == y
            &&& t[4] == '-'
            &&& digits_value(t.subrange(5, 7)) == m
            &&& t[7] == '-'
            &&& digits_value(t.subrange(8, 10)) == d
            &&& t[10] == 'T'
            &&& t[13] == ':'
            &&& t[16] == ':'
            &&& t[19] == 'Z'
            &&& digits_value(t.subrange(11, 13)) < 24
            &&& digits_value(t.subrange(14, 16)) < 60
            &&& digits_value(t.subrange(17, 19)) < 60
            &&& digits_value(t.subrange(11, 13)) * 3600 + digits_value(t.subrange(14, 16)) * 60
                + digits_value(t.subrange(17, 19)) == secs
        }),
{
    reveal_strlit("-");
    reveal_strlit("T");
    reveal_strlit(":");
    reveal_strlit("Z");
    lemma_padded(y as nat, 4, 10000);
    lemma_padded(m as nat, 2, 100);
    lemma_padded(d as nat, 2, 100);
    let h = secs / 3600;
    let i = secs / 60 % 60;
    let s = secs % 60;
    lemma_padded(h as nat, 2, 100);
    lemma_padded(i as nat, 2, 100);
    lemma_padded(s as nat, 2, 100);
    let t = stamp(y, m, d, secs);
    assert(t.subrange(0, 4) =~= padded(y as nat, 4));
    assert(t.subrange(5, 7) =~= padded(m as nat, 2));
    assert(t.subrange(8, 10) =~= padded(d as nat, 2));
    assert(t.subrange(11, 13) =~= padded(h as nat, 2));
    assert(t.subrange(14, 16) =~= padded(i as nat, 2));
    assert(t.subrange(17, 19) =~= padded(s as nat, 2));
}

} // verus!
