//! Access to files.

use crate::paths::{is_same_path, parent, parent_of, same_path};
use crate::text::{opt_view, owned, texts};
use crate::uniquifier::concat;
use vstd::prelude::*;

verus! {

/// Why something could not be done: the messages from the outermost to the
/// cause.
#[derive(Debug)]
pub struct Failure {
    pub messages: Vec<String>,
}

impl View for Failure {
    type V = Seq<Seq<char>>;

    open spec fn view(&self) -> Self::V {
        texts(self.messages@)
    }
}

impl Failure {
    pub fn new(message: String) -> (f: Self)
        ensures
            f@ == seq![message@],
    {
        let mut messages: Vec<String> = Vec::new();
        messages.push(message);
        let f = Failure { messages };
        assert(f@ =~= seq![message@]);
        f
    }

    /// The failure with a message put before the others.
    pub fn context(self, message: String) -> (f: Self)
        ensures
            f@ == seq![message@] + self@,
    {
        let mut messages = self.messages;
        messages.insert(0, message);
        let f = Failure { messages };
        assert(f@ =~= seq![message@] + self@);
        f
    }
}

/// A call on a file system, with what it was answered: for a call that failed,
/// nothing or `false`.
pub ghost enum FsCall {
    Read { path: Seq<char>, reply: Option<Seq<char>> },
    Write { path: Seq<char>, content: Seq<char>, done: bool },
    Copy { from: Seq<char>, to: Seq<char>, done: bool },
    List { dir: Seq<char>, found: Option<Seq<Seq<char>>> },
}

/// The record of calls has grown by `calls`.
pub open spec fn grew(before: Seq<FsCall>, after: Seq<FsCall>, calls: Seq<FsCall>) -> bool {
    after =~= before + calls
}

/// The text of a reply.
pub open spec fn text_reply(r: Result<String, Failure>) -> Option<Seq<char>> {
    match r {
        Ok(s) => Some(s@),
        Err(_) => None,
    }
}

/// The paths of a reply.
pub open spec fn list_reply(r: Result<Vec<String>, Failure>) -> Option<Seq<Seq<char>>> {
    match r {
        Ok(v) => Some(texts(v@)),
        Err(_) => None,
    }
}

/// A file system.  Of an implementation nothing is asked but that it keeps a
/// record of the calls; what it answers is its own affair.
pub trait FileSystem {
    /// The calls so far.
    spec fn log(&self) -> Seq<FsCall>;

    fn read_to_string(&mut self, path: &str) -> (r: Result<String, Failure>)
        ensures
            final(self).log() == old(self).log().push(
                FsCall::Read { path: path@, reply: text_reply(r) },
            ),
    ;

    /// Replaces the content of a file at once.
    fn write_atomic(&mut self, path: &str, content: &str) -> (r: Result<(), Failure>)
        ensures
            final(self).log() == old(self).log().push(
                FsCall::Write { path: path@, content: content@, done: r is Ok },
            ),
    ;

    fn copy(&mut self, from: &str, to: &str) -> (r: Result<(), Failure>)
        ensures
            final(self).log() == old(self).log().push(
                FsCall::Copy { from: from@, to: to@, done: r is Ok },
            ),
    ;

    /// The entries directly inside a directory, in any order.
    fn list_dir(&mut self, dir: &str) -> (r: Result<Vec<String>, Failure>)
        ensures
            final(self).log() == old(self).log().push(
                FsCall::List { dir: dir@, found: list_reply(r) },
            ),
    ;
}

/// Access to the files of a machine, of which nothing is known.
pub trait Disk {
    fn read_to_string(&mut self, path: &str) -> (r: Result<String, Failure>);

    /// Replaces the content of a file at once.
    fn write_atomic(&mut self, path: &str, content: &str) -> (r: Result<(), Failure>);

    fn copy(&mut self, from: &str, to: &str) -> (r: Result<(), Failure>);

    /// The entries directly inside a directory, in any order.
    fn list_dir(&mut self, dir: &str) -> (r: Result<Vec<String>, Failure>);
}

/// The files of a machine, with a record of the calls.
pub struct Recorded<D> {
    disk: D,
    calls: Ghost<Seq<FsCall>>,
}

impl<D: Disk> Recorded<D> {
    pub fn new(disk: D) -> (fs: Self)
        ensures
            fs.log().len() == 0,
    {
        Recorded { disk, calls: Ghost(Seq::empty()) }
    }
}

impl<D: Disk> FileSystem for Recorded<D> {
    closed spec fn log(&self) -> Seq<FsCall> {
        self.calls@
    }

    fn read_to_string(&mut self, path: &str) -> (r: Result<String, Failure>) {
        let r = self.disk.read_to_string(path);
        self.calls = Ghost(self.calls@.push(FsCall::Read { path: path@, reply: text_reply(r) }));
        r
    }

    fn write_atomic(&mut self, path: &str, content: &str) -> (r: Result<(), Failure>) {
        let r = self.disk.write_atomic(path, content);
        self.calls = Ghost(
            self.calls@.push(FsCall::Write { path: path@, content: content@, done: r is Ok }),
        );
        r
    }

    fn copy(&mut self, from: &str, to: &str) -> (r: Result<(), Failure>) {
        let r = self.disk.copy(from, to);
        self.calls = Ghost(
            self.calls@.push(FsCall::Copy { from: from@, to: to@, done: r is Ok }),
        );
        r
    }

    fn list_dir(&mut self, dir: &str) -> (r: Result<Vec<String>, Failure>) {
        let r = self.disk.list_dir(dir);
        self.calls = Ghost(self.calls@.push(FsCall::List { dir: dir@, found: list_reply(r) }));
        r
    }
}

/// A file: its path and its content.
pub struct StoredFile {
    pub path: String,
    pub content: String,
}

/// The paths of the files directly inside a directory, in their order.
pub open spec fn paths_inside(
    files: Seq<(Seq<char>, Seq<char>)>,
    dir: Seq<char>,
) -> Seq<Seq<char>>
    decreases files.len(),
{
    if files.len() == 0 {
        Seq::empty()
    } else {
        let rest = paths_inside(files.drop_last(), dir);
        let inside = match parent_of(files.last().0) {
            Some(parent) => is_same_path(parent, dir),
            None => false,
        };
        if inside {
            rest.push(files.last().0)
        } else {
            rest
        }
    }
}

/// Where the file with a path is.
pub open spec fn place_of(files: Seq<(Seq<char>, Seq<char>)>, path: Seq<char>) -> Option<int>
    decreases files.len(),
{
    if files.len() == 0 {
        None
    } else if is_same_path(files.last().0, path) {
        Some(files.len() - 1)
    } else {
        place_of(files.drop_last(), path)
    }
}

/// The content of the file with a path.
pub open spec fn content_of(
    files: Seq<(Seq<char>, Seq<char>)>,
    path: Seq<char>,
) -> Option<Seq<char>> {
    match place_of(files, path) {
        Some(i) => Some(files[i].1),
        None => None,
    }
}

/// The files with this content of the file with a path.  A file that is there
/// keeps the path that it was first stored under.
pub open spec fn with_content(
    files: Seq<(Seq<char>, Seq<char>)>,
    path: Seq<char>,
    content: Seq<char>,
) -> Seq<(Seq<char>, Seq<char>)> {
    match place_of(files, path) {
        Some(i) => files.update(i, (files[i].0, content)),
        None => files.push((path, content)),
    }
}

/// What was written to a path is read from it, and what stands under other paths
/// stays.
pub proof fn law_written_is_read(
    files: Seq<(Seq<char>, Seq<char>)>,
    path: Seq<char>,
    content: Seq<char>,
    other: Seq<char>,
)
    ensures
        content_of(with_content(files, path, content), other) == if is_same_path(path, other) {
            Some(content)
        } else {
            content_of(files, other)
        },
    decreases files.len(),
{
    let after = with_content(files, path, content);
    if files.len() == 0 {
        assert(after.drop_last() =~= files);
    } else {
        let rest = files.drop_last();
        law_written_is_read(rest, path, content, other);
        lemma_place(rest, path);
        lemma_place(rest, other);
        lemma_place(after.drop_last(), other);
        if is_same_path(files.last().0, path) {
            assert(after.drop_last() =~= rest);
        } else if place_of(files, path) is Some {
            assert(after.drop_last() =~= with_content(rest, path, content));
        } else {
            assert(after.drop_last() =~= files);
        }
    }
}

proof fn lemma_place(files: Seq<(Seq<char>, Seq<char>)>, path: Seq<char>)
    ensures
        match place_of(files, path) {
            Some(i) => 0 <= i < files.len() && is_same_path(files[i].0, path),
            None => true,
        },
    decreases files.len(),
{
    if files.len() > 0 {
        lemma_place(files.drop_last(), path);
    }
}

/// A file system in memory, for dry runs.
pub struct InMemoryFileSystem {
    files: Vec<StoredFile>,
    calls: Ghost<Seq<FsCall>>,
}

impl InMemoryFileSystem {
    /// The contents of the files by their paths.
    pub closed spec fn files(&self) -> Seq<(Seq<char>, Seq<char>)> {
        Seq::new(self.files@.len(), |i: int| (self.files@[i].path@, self.files@[i].content@))
    }

    pub fn new() -> (fs: Self)
        ensures
            fs.files().len() == 0,
            fs.log().len() == 0,
    {
        InMemoryFileSystem { files: Vec::new(), calls: Ghost(Seq::empty()) }
    }

    /// Where a file is stored.
    fn position(&self, path: &str) -> (r: Option<usize>)
        ensures
            match r {
                Some(i) => place_of(self.files(), path@) == Some(i as int) && i < self.files@.len(),
                None => place_of(self.files(), path@) is None,
            },
    {
        let ghost fs = self.files();
        let mut n: usize = self.files.len();
        proof {
            assert(fs.take(n as int) =~= fs);
        }
        while n > 0
            invariant
                n <= self.files@.len(),
                fs == self.files(),
                place_of(fs.take(n as int), path@) == place_of(fs, path@),
            decreases n,
        {
            proof {
                assert(fs.take(n as int).drop_last() =~= fs.take(n - 1));
                assert(fs.take(n as int).last() == fs[n - 1]);
            }
            if same_path(self.files[n - 1].path.as_str(), path) {
                return Some(n - 1);
            }
            n -= 1;
        }
        None
    }

    pub fn insert(&mut self, path: String, content: String)
        ensures
            final(self).files() == with_content(old(self).files(), path@, content@),
            final(self).log() == old(self).log(),
    {
        let ghost before = self.files();
        match self.position(path.as_str()) {
            Some(i) => {
                let first = owned(self.files[i].path.as_str());
                self.files.set(i, StoredFile { path: first, content });
            },
            None => {
                self.files.push(StoredFile { path, content });
            },
        }
        assert(self.files() =~= with_content(before, path@, content@));
    }

    pub fn get(&self, path: &str) -> (r: Option<String>)
        ensures
            opt_view(r) == content_of(self.files(), path@),
    {
        match self.position(path) {
            Some(i) => Some(owned(self.files[i].content.as_str())),
            None => None,
        }
    }
}

impl FileSystem for InMemoryFileSystem {
    closed spec fn log(&self) -> Seq<FsCall> {
        self.calls@
    }

    fn read_to_string(&mut self, path: &str) -> (r: Result<String, Failure>)
        ensures
            text_reply(r) == content_of(old(self).files(), path@),
            r is Err ==> r->Err_0@ =~= seq!["file not found: "@ + path@],
            final(self).files() == old(self).files(),
    {
        let r = match self.get(path) {
            Some(s) => Ok(s),
            None => Err(Failure::new(concat("file not found: ", path))),
        };
        self.calls = Ghost(self.calls@.push(FsCall::Read { path: path@, reply: text_reply(r) }));
        r
    }

    fn write_atomic(&mut self, path: &str, content: &str) -> (r: Result<(), Failure>)
        ensures
            r is Ok,
            final(self).files() == with_content(old(self).files(), path@, content@),
    {
        self.insert(owned(path), owned(content));
        self.calls = Ghost(
            self.calls@.push(FsCall::Write { path: path@, content: content@, done: true }),
        );
        Ok(())
    }

    fn copy(&mut self, from: &str, to: &str) -> (r: Result<(), Failure>)
        ensures
            match content_of(old(self).files(), from@) {
                Some(content) => {
                    &&& r is Ok
                    &&& final(self).files() == with_content(old(self).files(), to@, content)
                },
                None => {
                    &&& r is Err && r->Err_0@ =~= seq!["file not found: "@ + from@]
                    &&& final(self).files() == old(self).files()
                },
            },
    {
        let r = match self.get(from) {
            Some(s) => {
                self.insert(owned(to), s);
                Ok(())
            },
            None => Err(Failure::new(concat("file not found: ", from))),
        };
        self.calls = Ghost(
            self.calls@.push(FsCall::Copy { from: from@, to: to@, done: r is Ok }),
        );
        r
    }

    fn list_dir(&mut self, dir: &str) -> (r: Result<Vec<String>, Failure>)
        ensures
            list_reply(r) == Some(paths_inside(old(self).files(), dir@)),
            final(self).files() == old(self).files(),
    {
        let ghost fs = self.files();
        let mut v: Vec<String> = Vec::new();
        let mut i: usize = 0;
        assert(fs.take(0) =~= Seq::empty());
        assert(texts(v@) =~= paths_inside(fs.take(0), dir@));
        while i < self.files.len()
            invariant
                i <= self.files@.len(),
                fs == self.files(),
                texts(v@) == paths_inside(fs.take(i as int), dir@),
            decreases self.files@.len() - i,
        {
            let path = self.files[i].path.as_str();
            let ghost before = v@;
            assert(fs.take(i + 1).drop_last() =~= fs.take(i as int));
            assert(fs[i as int].0 == path@);
            let inside = match parent(path) {
                Some(p) => same_path(p.as_str(), dir),
                None => false,
            };
            if inside {
                v.push(owned(path));
                assert(texts(v@) =~= texts(before).push(path@));
            }
            i += 1;
        }
        assert(fs.take(i as int) =~= fs);
        self.calls = Ghost(
            self.calls@.push(FsCall::List { dir: dir@, found: Some(texts(v@)) }),
        );
        assert(self.files() =~= fs);
        Ok(v)
    }
}

} // verus!
