//! Paths as texts, with `/` between their components.

use crate::text::{opt_view, owned, same, slice_to_string, texts, to_chars};
use vstd::prelude::*;

verus! {

/// The length of the root of a path.
pub open spec fn root_len(s: Seq<char>) -> int {
    if s.len() > 0 && s[0] == '/' {
        1
    } else {
        0
    }
}

/// The end of the component that begins at `i`.
pub open spec fn component_end(s: Seq<char>, i: int) -> int
    decreases s.len() - i,
{
    if 0 <= i < s.len() && s[i] != '/' {
        component_end(s, i + 1)
    } else {
        i
    }
}

/// The text from `i` to `j` counts as a component: it is not empty, and no `.`,
/// except at the start of a path without root.
pub open spec fn is_component(s: Seq<char>, i: int, j: int) -> bool {
    i < j && !(j == i + 1 && s[i] == '.' && i > 0)
}

pub proof fn lemma_component_end(s: Seq<char>, i: int)
    requires
        0 <= i <= s.len(),
    ensures
        i <= component_end(s, i) <= s.len(),
    decreases s.len() - i,
{
    if i < s.len() && s[i] != '/' {
        lemma_component_end(s, i + 1);
    }
}

/// The components from position `i` on, each with its start and its end.
pub open spec fn components_from(s: Seq<char>, i: int) -> Seq<(int, int)>
    decreases s.len() + 1 - i,
{
    if i < 0 || i >= s.len() {
        Seq::empty()
    } else {
        let j = component_end(s, i);
        proof {
            lemma_component_end(s, i);
        }
        if is_component(s, i, j) {
            seq![(i, j)] + components_from(s, j + 1)
        } else {
            components_from(s, j + 1)
        }
    }
}

/// The components of a path.
pub open spec fn components(s: Seq<char>) -> Seq<(int, int)> {
    components_from(s, root_len(s))
}

/// The texts of the components of a path.
pub open spec fn parts(s: Seq<char>) -> Seq<Seq<char>> {
    components(s).map_values(|c: (int, int)| s.subrange(c.0, c.1))
}

/// The paths have the same root and the same components.
pub open spec fn is_same_path(a: Seq<char>, b: Seq<char>) -> bool {
    root_len(a) == root_len(b) && parts(a) == parts(b)
}

/// The path without its last component.
pub open spec fn parent_of(s: Seq<char>) -> Option<Seq<char>> {
    let cs = components(s);
    if cs.len() == 0 {
        None
    } else if cs.len() == 1 {
        Some(s.take(root_len(s)))
    } else {
        Some(s.take(cs[cs.len() - 2].1))
    }
}

/// The last component of a path, if it names a file or a directory.
pub open spec fn name_of(s: Seq<char>) -> Option<(int, int)> {
    let cs = components(s);
    if cs.len() == 0 {
        None
    } else {
        let last = s.subrange(cs.last().0, cs.last().1);
        if last == "."@ || last == ".."@ {
            None
        } else {
            Some(cs.last())
        }
    }
}

/// The name of the file or directory that a path leads to.
pub open spec fn file_name_of(s: Seq<char>) -> Option<Seq<char>> {
    match name_of(s) {
        Some((i, j)) => Some(s.subrange(i, j)),
        None => None,
    }
}

/// Where the extension of a name that ends at `j` begins with its dot; the end
/// of the name, if it has no extension.
pub open spec fn dot_of(s: Seq<char>, i: int, j: int) -> int {
    let d = last_dot(s, i, j);
    if d > i {
        d
    } else {
        j
    }
}

/// The last dot between `i` and `j`; `i`, if there is none behind it.
pub open spec fn last_dot(s: Seq<char>, i: int, j: int) -> int
    decreases j - i,
{
    if j <= i {
        i
    } else if s[j - 1] == '.' {
        j - 1
    } else {
        last_dot(s, i, j - 1)
    }
}

/// The name of a file without its extension.
pub open spec fn stem_of(s: Seq<char>) -> Option<Seq<char>> {
    match name_of(s) {
        Some((i, j)) => Some(s.subrange(i, dot_of(s, i, j))),
        None => None,
    }
}

/// The extension of the name of a file.
pub open spec fn extension_of(s: Seq<char>) -> Option<Seq<char>> {
    match name_of(s) {
        Some((i, j)) => if dot_of(s, i, j) < j {
            Some(s.subrange(dot_of(s, i, j) + 1, j))
        } else {
            None
        },
        None => None,
    }
}

/// The path with another extension; the path itself, if it has no name.
pub open spec fn extended(s: Seq<char>, extension: Seq<char>) -> Seq<char> {
    match name_of(s) {
        Some((i, j)) => s.take(dot_of(s, i, j)) + "."@ + extension,
        None => s,
    }
}

/// A name below a directory.
pub open spec fn below(dir: Seq<char>, name: Seq<char>) -> Seq<char> {
    if dir.len() == 0 || dir.last() == '/' {
        dir + name
    } else {
        dir.push('/') + name
    }
}

/// The components of a path.
fn path_components(cs: &Vec<char>) -> (r: Vec<(usize, usize)>)
    ensures
        r@.len() == components(cs@).len(),
        forall|k: int|
            0 <= k < r@.len() ==> components(cs@)[k] == ((#[trigger] r@[k]).0 as int, r@[k].1 as int),
        forall|k: int| 0 <= k < r@.len() ==> (#[trigger] r@[k]).0 < r@[k].1 <= cs@.len(),
{
    let ghost s = cs@;
    let mut r: Vec<(usize, usize)> = Vec::new();
    let mut i: usize = if cs.len() > 0 && cs[0] == '/' {
        1
    } else {
        0
    };
    let ghost view = |v: Seq<(usize, usize)>| v.map_values(|p: (usize, usize)| (p.0 as int, p.1 as int));
    proof {
        assert(view(r@) + components_from(s, i as int) =~= components(s));
    }
    while i < cs.len()
        invariant
            s == cs@,
            view == (|v: Seq<(usize, usize)>|
                v.map_values(|p: (usize, usize)| (p.0 as int, p.1 as int))),
            i <= cs@.len(),
            view(r@) + components_from(s, i as int) == components(s),
            forall|k: int| 0 <= k < r@.len() ==> (#[trigger] r@[k]).0 < r@[k].1 <= cs@.len(),
        decreases cs.len() - i,
    {
        let ghost before = r@;
        let mut j: usize = i;
        while j < cs.len() && cs[j] != '/'
            invariant
                s == cs@,
                i <= j <= cs@.len(),
                component_end(s, j as int) == component_end(s, i as int),
            decreases cs.len() - j,
        {
            j += 1;
        }
        if i < j && !(j == i + 1 && cs[i] == '.' && i > 0) {
            r.push((i, j));
            proof {
                assert(view(r@) =~= view(before).push((i as int, j as int)));
                assert(view(before).push((i as int, j as int)) + components_from(s, j + 1)
                    =~= view(before) + (seq![(i as int, j as int)] + components_from(s, j + 1)));
            }
        }
        if j < cs.len() {
            i = j + 1;
        } else {
            proof {
                assert(components_from(s, j + 1) =~= Seq::empty());
                assert(components_from(s, j as int) =~= Seq::empty());
            }
            i = j;
        }
    }
    proof {
        assert(components_from(s, i as int) =~= Seq::empty());
        assert(view(r@) =~= components(s));
    }
    r
}

/// The texts of the components of a path.
fn path_parts(cs: &Vec<char>) -> (r: Vec<String>)
    ensures
        texts(r@) == parts(cs@),
{
    let spans = path_components(cs);
    let mut r: Vec<String> = Vec::new();
    let mut k: usize = 0;
    while k < spans.len()
        invariant
            k <= spans@.len(),
            spans@.len() == components(cs@).len(),
            forall|k: int|
                0 <= k < spans@.len() ==> components(cs@)[k] == (
                    (#[trigger] spans@[k]).0 as int,
                    spans@[k].1 as int,
                ),
            forall|k: int| 0 <= k < spans@.len() ==> (#[trigger] spans@[k]).0 < spans@[k].1 <= cs@.len(),
            texts(r@) == parts(cs@).take(k as int),
        decreases spans.len() - k,
    {
        let ghost before = r@;
        let (i, j) = spans[k];
        assert(spans@[k as int].0 < spans@[k as int].1 <= cs@.len());
        r.push(slice_to_string(cs, i, j));
        assert(texts(r@) =~= texts(before).push(cs@.subrange(i as int, j as int)));
        assert(parts(cs@).take(k + 1) =~= parts(cs@).take(k as int).push(parts(cs@)[k as int]));
        k += 1;
    }
    assert(parts(cs@).take(k as int) =~= parts(cs@));
    r
}

/// The paths have the same root and the same components.
pub fn same_path(a: &str, b: &str) -> (r: bool)
    ensures
        r == is_same_path(a@, b@),
{
    let x = to_chars(a);
    let y = to_chars(b);
    if (x.len() > 0 && x[0] == '/') != (y.len() > 0 && y[0] == '/') {
        return false;
    }
    let p = path_parts(&x);
    let q = path_parts(&y);
    assert(texts(p@).len() == p@.len() && texts(q@).len() == q@.len());
    if p.len() != q.len() {
        return false;
    }
    let mut k: usize = 0;
    while k < p.len()
        invariant
            k <= p@.len(),
            p@.len() == q@.len(),
            texts(p@) == parts(a@),
            texts(q@) == parts(b@),
            forall|j: int| 0 <= j < k ==> #[trigger] texts(p@)[j] == texts(q@)[j],
        decreases p.len() - k,
    {
        assert(texts(p@)[k as int] == p@[k as int]@ && texts(q@)[k as int] == q@[k as int]@);
        if !same(p[k].as_str(), q[k].as_str()) {
            return false;
        }
        k += 1;
    }
    assert(texts(p@) =~= texts(q@));
    true
}

/// The path without its last component.
pub fn parent(path: &str) -> (r: Option<String>)
    ensures
        opt_view(r) == parent_of(path@),
{
    let cs = to_chars(path);
    let parts = path_components(&cs);
    if parts.len() == 0 {
        return None;
    }
    let end: usize = if parts.len() == 1 {
        if cs[0] == '/' {
            1
        } else {
            0
        }
    } else {
        parts[parts.len() - 2].1
    };
    let r = slice_to_string(&cs, 0, end);
    assert(r@ =~= path@.take(end as int));
    Some(r)
}

/// Where the name of the file that a path leads to begins and ends.
fn name_span(cs: &Vec<char>) -> (r: Option<(usize, usize)>)
    ensures
        match r {
            Some((i, j)) => name_of(cs@) == Some((i as int, j as int)) && i < j <= cs@.len(),
            None => name_of(cs@) is None,
        },
{
    let parts = path_components(cs);
    if parts.len() == 0 {
        return None;
    }
    let (i, j) = parts[parts.len() - 1];
    let last = slice_to_string(cs, i, j);
    if same(last.as_str(), ".") || same(last.as_str(), "..") {
        None
    } else {
        Some((i, j))
    }
}

/// Where the extension of a name begins with its dot.
fn dot_position(cs: &Vec<char>, i: usize, j: usize) -> (d: usize)
    requires
        i <= j <= cs@.len(),
    ensures
        d == dot_of(cs@, i as int, j as int),
        i <= d <= j,
        i < j ==> i < d,
{
    let mut d: usize = j;
    while d > i && cs[d - 1] != '.'
        invariant
            i <= d <= j <= cs@.len(),
            last_dot(cs@, i as int, d as int) == last_dot(cs@, i as int, j as int),
        decreases d,
    {
        d -= 1;
    }
    if d > i && d - 1 > i {
        d - 1
    } else {
        j
    }
}

/// The name of the file or directory that a path leads to.
pub fn file_name(path: &str) -> (r: Option<String>)
    ensures
        opt_view(r) == file_name_of(path@),
{
    let cs = to_chars(path);
    match name_span(&cs) {
        Some((i, j)) => Some(slice_to_string(&cs, i, j)),
        None => None,
    }
}

/// The name of a file without its extension.
pub fn file_stem(path: &str) -> (r: Option<String>)
    ensures
        opt_view(r) == stem_of(path@),
{
    let cs = to_chars(path);
    match name_span(&cs) {
        Some((i, j)) => {
            let d = dot_position(&cs, i, j);
            Some(slice_to_string(&cs, i, d))
        },
        None => None,
    }
}

/// The extension of the name of a file.
pub fn extension(path: &str) -> (r: Option<String>)
    ensures
        opt_view(r) == extension_of(path@),
{
    let cs = to_chars(path);
    match name_span(&cs) {
        Some((i, j)) => {
            let d = dot_position(&cs, i, j);
            if d < j {
                Some(slice_to_string(&cs, d + 1, j))
            } else {
                None
            }
        },
        None => None,
    }
}

/// The path with another extension.
pub fn with_extension(path: &str, extension: &str) -> (r: String)
    ensures
        r@ == extended(path@, extension@),
{
    let cs = to_chars(path);
    match name_span(&cs) {
        Some((i, j)) => {
            let d = dot_position(&cs, i, j);
            let mut r = slice_to_string(&cs, 0, d);
            assert(r@ =~= path@.take(d as int));
            r.push_str(".");
            r.push_str(extension);
            r
        },
        None => owned(path),
    }
}

/// A name below a directory.
pub fn join(dir: &str, name: &str) -> (r: String)
    ensures
        r@ == below(dir@, name@),
{
    let cs = to_chars(dir);
    let mut r = owned(dir);
    if cs.len() > 0 && cs[cs.len() - 1] != '/' {
        r.push('/');
    }
    r.push_str(name);
    r
}

// ── Places of a project ──────────────────────────────────────────────────────

/// The name of the bundle that holds a project file.
pub open spec fn project_name(path: Seq<char>) -> Seq<char> {
    match parent_of(path) {
        Some(dir) => match file_name_of(dir) {
            Some(name) => name,
            None => "Project.xcodeproj"@,
        },
        None => "Project.xcodeproj"@,
    }
}

/// The name of the bundle that holds a project file, such as `MyApp.xcodeproj`.
pub fn infer_project_name(pbxproj: &str) -> (r: String)
    ensures
        r@ == project_name(pbxproj@),
{
    let name = match parent(pbxproj) {
        Some(dir) => file_name(dir.as_str()),
        None => None,
    };
    match name {
        Some(n) => n,
        None => owned("Project.xcodeproj"),
    }
}

/// The directory of a path; the path itself, if it has none.
pub open spec fn dir_of(path: Seq<char>) -> Seq<char> {
    match parent_of(path) {
        Some(dir) => dir,
        None => path,
    }
}

pub fn directory(path: &str) -> (r: String)
    ensures
        r@ == dir_of(path@),
{
    match parent(path) {
        Some(dir) => dir,
        None => owned(path),
    }
}

/// Where the map of a project bundle is written: beside it.
pub open spec fn map_path(xcodeproj: Seq<char>) -> Seq<char> {
    below(
        dir_of(xcodeproj),
        match stem_of(xcodeproj) {
            Some(stem) => stem,
            None => "project"@,
        } + ".electrolysis-map.json"@,
    )
}

/// Where the map of a project bundle is written by default.
pub fn default_map_path(xcodeproj: &str) -> (r: String)
    ensures
        r@ == map_path(xcodeproj@),
{
    let mut name = match file_stem(xcodeproj) {
        Some(stem) => stem,
        None => owned("project"),
    };
    name.push_str(".electrolysis-map.json");
    join(directory(xcodeproj).as_str(), name.as_str())
}

} // verus!
