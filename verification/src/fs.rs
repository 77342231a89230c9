//! An in-memory model of a directory tree.
//!
//! The tree root is the empty path and always exists.  Every other
//! directory, and every regular file with its contents, is listed
//! explicitly.  The pipeline is verified against this model; callers that
//! work on a real disk build a snapshot, run the verified logic, and apply
//! the outcome.

use vstd::prelude::*;
use crate::path::{clone_path, hidden_name, is_prefix, path_eq, starts_with};

verus! {

/// One regular file: its path and its contents.
pub struct FsFile {
    pub path: Vec<String>,
    pub data: Vec<u8>,
}

/// A snapshot of a directory tree.
pub struct Fs {
    pub dirs: Vec<Vec<String>>,
    pub files: Vec<FsFile>,
}

impl Fs {
    /// The directory paths, as mathematical values.
    pub open spec fn dir_views(self) -> Seq<Seq<Seq<char>>> {
        Seq::new(self.dirs@.len(), |i: int| self.dirs@[i].deep_view())
    }

    /// The file paths, as mathematical values.
    pub open spec fn file_paths(self) -> Seq<Seq<Seq<char>>> {
        Seq::new(self.files@.len(), |i: int| self.files@[i].path.deep_view())
    }

    /// Whether `p` names a directory (the root always does).
    pub open spec fn has_dir(self, p: Seq<Seq<char>>) -> bool {
        p.len() == 0 || self.dir_views().contains(p)
    }

    /// Whether `p` names a regular file.
    pub open spec fn has_file(self, p: Seq<Seq<char>>) -> bool {
        self.file_paths().contains(p)
    }

    /// The index of the file named `p`.
    pub open spec fn file_index(self, p: Seq<Seq<char>>) -> int {
        choose|i: int| 0 <= i < self.files@.len() && self.files@[i].path.deep_view() == p
    }

    /// The contents of the file named `p`.
    pub open spec fn file_data(self, p: Seq<Seq<char>>) -> Seq<u8> {
        self.files@[self.file_index(p)].data@
    }

    /// A well-formed snapshot: entries are unique, named by non-empty
    /// paths, and no path is both a directory and a file.
    pub open spec fn wf(self) -> bool {
        &&& forall|i: int, j: int|
            0 <= i < j < self.dirs@.len() ==> #[trigger] self.dir_views()[i]
                != #[trigger] self.dir_views()[j]
        &&& forall|i: int, j: int|
            0 <= i < j < self.files@.len() ==> #[trigger] self.file_paths()[i]
                != #[trigger] self.file_paths()[j]
        &&& forall|i: int| 0 <= i < self.dirs@.len() ==> #[trigger] self.dir_views()[i].len() > 0
        &&& forall|i: int|
            0 <= i < self.files@.len() ==> #[trigger] self.file_paths()[i].len() > 0
        &&& forall|i: int|
            0 <= i < self.dirs@.len() ==> !self.has_file(#[trigger] self.dir_views()[i])
    }

    /// Whether `p` is a visible file inside the tree rooted at `root`:
    /// a regular file strictly below `root` whose final name is not hidden.
    pub open spec fn visible_file_under(self, root: Seq<Seq<char>>, p: Seq<Seq<char>>) -> bool {
        &&& self.has_file(p)
        &&& is_prefix(root, p)
        &&& p.len() > root.len()
        &&& p.last().len() > 0
        &&& !hidden_name(p.last())
    }

    /// An empty tree: just the root.
    pub fn new() -> (r: Fs)
        ensures
            r.wf(),
            forall|p: Seq<Seq<char>>| !r.has_file(p),
            forall|p: Seq<Seq<char>>| r.has_dir(p) <==> p.len() == 0,
    {
        Fs { dirs: Vec::new(), files: Vec::new() }
    }

    /// Whether `p` names a directory.
    pub fn is_dir(&self, p: &Vec<String>) -> (r: bool)
        ensures
            r == self.has_dir(p.deep_view()),
    {
        if p.len() == 0 {
            return true;
        }
        let mut i: usize = 0;
        while i < self.dirs.len()
            invariant
                i <= self.dirs@.len(),
                forall|j: int| 0 <= j < i ==> #[trigger] self.dir_views()[j] != p.deep_view(),
            decreases self.dirs@.len() - i,
        {
            if path_eq(&self.dirs[i], p) {
                assert(self.dir_views()[i as int] == p.deep_view());
                return true;
            }
            i += 1;
        }
        false
    }

    /// Whether `p` names a regular file.
    pub fn is_file(&self, p: &Vec<String>) -> (r: bool)
        ensures
            r == self.has_file(p.deep_view()),
    {
        let mut i: usize = 0;
        while i < self.files.len()
            invariant
                i <= self.files@.len(),
                forall|j: int| 0 <= j < i ==> #[trigger] self.file_paths()[j] != p.deep_view(),
            decreases self.files@.len() - i,
        {
            if path_eq(&self.files[i].path, p) {
                assert(self.file_paths()[i as int] == p.deep_view());
                return true;
            }
            i += 1;
        }
        false
    }

    /// The contents of the file named `p`, when it exists.
    pub fn read_file(&self, p: &Vec<String>) -> (r: Option<Vec<u8>>)
        requires
            self.wf(),
        ensures
            match r {
                Some(data) => self.has_file(p.deep_view()) && data@ == self.file_data(
                    p.deep_view(),
                ),
                None => !self.has_file(p.deep_view()),
            },
    {
        let mut i: usize = 0;
        while i < self.files.len()
            invariant
                self.wf(),
                i <= self.files@.len(),
                forall|j: int| 0 <= j < i ==> #[trigger] self.file_paths()[j] != p.deep_view(),
            decreases self.files@.len() - i,
        {
            if path_eq(&self.files[i].path, p) {
                assert(self.file_paths()[i as int] == p.deep_view());
                let data = copy_bytes(&self.files[i].data);
                proof {
                    assert(self.files@[i as int].path.deep_view() == p.deep_view());
                    let k = self.file_index(p.deep_view());
                    assert(0 <= k < self.files@.len() && self.files@[k].path.deep_view()
                        == p.deep_view());
                    assert(self.file_paths()[k] == p.deep_view());
                    assert(k == i as int);
                }
                return Some(data);
            }
            i += 1;
        }
        None
    }
}

/// Two file entries with the same path and the same contents.
pub open spec fn entry_like(x: FsFile, y: FsFile) -> bool {
    x.path.deep_view() == y.path.deep_view() && x.data@ == y.data@
}

/// Two directory entries with the same path.
pub open spec fn dir_like(x: Vec<String>, y: Vec<String>) -> bool {
    x.deep_view() == y.deep_view()
}


/// When `b`'s files are exactly `a`'s files with a kept path (each entry
/// carried over with its path and contents), the file set and contents of
/// `b` are those of `a` restricted to `keep`.
proof fn lemma_file_correspondence(a: Fs, b: Fs, keep: spec_fn(Seq<Seq<char>>) -> bool)
    requires
        forall|i: int, j: int|
            0 <= i < j < a.files@.len() ==> #[trigger] a.file_paths()[i]
                != #[trigger] a.file_paths()[j],
        forall|i: int, j: int|
            0 <= i < j < b.files@.len() ==> #[trigger] b.file_paths()[i]
                != #[trigger] b.file_paths()[j],
        forall|j: int|
            0 <= j < b.files@.len() ==> keep(#[trigger] b.file_paths()[j]) && exists|k: int|
                0 <= k < a.files@.len() && entry_like(b.files@[j], a.files@[k]),
        forall|k: int|
            0 <= k < a.files@.len() && keep(#[trigger] a.file_paths()[k]) ==> exists|j: int|
                0 <= j < b.files@.len() && entry_like(b.files@[j], a.files@[k]),
    ensures
        forall|q: Seq<Seq<char>>| b.has_file(q) <==> a.has_file(q) && keep(q),
        forall|q: Seq<Seq<char>>|
            a.has_file(q) && keep(q) ==> b.file_data(q) == a.file_data(q),
{
    assert forall|q: Seq<Seq<char>>| b.has_file(q) implies a.has_file(q) && keep(q) by {
        let j = choose|j: int| 0 <= j < b.file_paths().len() && b.file_paths()[j] == q;
        assert(keep(b.file_paths()[j]));
        let k = choose|k: int|
            0 <= k < a.files@.len() && entry_like(b.files@[j], a.files@[k]);
        assert(a.file_paths()[k] == q);
    }
    assert forall|q: Seq<Seq<char>>| a.has_file(q) && keep(q) implies b.has_file(q) by {
        let k = choose|k: int| 0 <= k < a.file_paths().len() && a.file_paths()[k] == q;
        assert(keep(a.file_paths()[k]));
        let j = choose|j: int|
            0 <= j < b.files@.len() && entry_like(b.files@[j], a.files@[k]);
        assert(b.file_paths()[j] == q);
    }
    assert forall|q: Seq<Seq<char>>| a.has_file(q) && keep(q) implies b.file_data(q)
        == a.file_data(q) by {
        let jb = b.file_index(q);
        assert(b.has_file(q));
        assert(0 <= jb < b.files@.len() && b.files@[jb].path.deep_view() == q);
        assert(b.file_paths()[jb] == q);
        let k = choose|k: int|
            0 <= k < a.files@.len() && entry_like(b.files@[jb], a.files@[k]);
        let ka = a.file_index(q);
        assert(0 <= ka < a.files@.len() && a.files@[ka].path.deep_view() == q);
        assert(a.file_paths()[k] == q && a.file_paths()[ka] == q);
        assert(k == ka);
    }
}

impl Fs {
    /// The position of the file named `p` among the entries, if any.
    fn find_file(&self, p: &Vec<String>) -> (r: Option<usize>)
        ensures
            match r {
                Some(i) => i < self.files@.len() && self.file_paths()[i as int]
                    == p.deep_view(),
                None => !self.has_file(p.deep_view()),
            },
    {
        let mut i: usize = 0;
        while i < self.files.len()
            invariant
                i <= self.files@.len(),
                forall|j: int| 0 <= j < i ==> #[trigger] self.file_paths()[j] != p.deep_view(),
            decreases self.files@.len() - i,
        {
            if path_eq(&self.files[i].path, p) {
                assert(self.file_paths()[i as int] == p.deep_view());
                return Some(i);
            }
            i += 1;
        }
        None
    }

    /// Create or replace the file named `p` with the given contents.
    pub fn write_file(&mut self, p: &Vec<String>, data: Vec<u8>)
        requires
            old(self).wf(),
            p.deep_view().len() > 0,
            !old(self).has_dir(p.deep_view()),
        ensures
            final(self).wf(),
            final(self).dirs == old(self).dirs,
            forall|q: Seq<Seq<char>>| final(self).has_dir(q) == old(self).has_dir(q),
            final(self).has_file(p.deep_view()),
            final(self).file_data(p.deep_view()) == data@,
            forall|q: Seq<Seq<char>>|
                q != p.deep_view() ==> final(self).has_file(q) == old(self).has_file(q),
            forall|q: Seq<Seq<char>>|
                q != p.deep_view() && old(self).has_file(q) ==> final(self).file_data(q) == old(
                    self,
                ).file_data(q),
    {
        let ghost orig = *self;
        let found = self.find_file(p);
        if let Some(idx) = found {
            // Replace the entry in place: every other entry keeps its
            // position, so the set of file paths is unchanged.
            let mut nf: Vec<FsFile> = Vec::new();
            let n = self.files.len();
            let mut j: usize = 0;
            while j < n
                invariant
                    *self == orig,
                    n == self.files@.len(),
                    idx < n,
                    self.file_paths()[idx as int] == p.deep_view(),
                    j <= n,
                    nf@.len() == j,
                    forall|k: int|
                        0 <= k < j && k != idx ==> entry_like(
                            #[trigger] nf@[k],
                            self.files@[k],
                        ),
                    j > idx ==> nf@[idx as int].path.deep_view() == p.deep_view()
                        && nf@[idx as int].data@ == data@,
                decreases n - j,
            {
                if j == idx {
                    nf.push(FsFile { path: clone_path(p), data: copy_bytes(&data) });
                } else {
                    nf.push(
                        FsFile {
                            path: clone_path(&self.files[j].path),
                            data: copy_bytes(&self.files[j].data),
                        },
                    );
                }
                j += 1;
            }
            self.files = nf;
            proof {
                assert(self.file_paths() =~= orig.file_paths());
                assert(self.wf());
                assert(self.files@[idx as int].path.deep_view() == p.deep_view());
                let ki = self.file_index(p.deep_view());
                assert(self.file_paths()[ki] == p.deep_view());
                assert(ki == idx as int);
                assert(self.file_data(p.deep_view()) == data@);
                assert forall|q: Seq<Seq<char>>|
                    q != p.deep_view() && orig.has_file(q) implies self.file_data(q)
                    == orig.file_data(q) by {
                    let ko = orig.file_index(q);
                    assert(0 <= ko < orig.files@.len() && orig.file_paths()[ko] == q);
                    assert(ko != idx as int);
                    assert(entry_like(self.files@[ko], orig.files@[ko]));
                    assert(self.file_paths()[ko] == q);
                    let kn = self.file_index(q);
                    assert(self.file_paths()[kn] == q);
                    assert(kn == ko);
                }
            }
        } else {
            self.files.push(FsFile { path: clone_path(p), data });
            proof {
                let n = orig.files@.len() as int;
                assert(self.files@.len() == n + 1);
                assert(forall|k: int|
                    0 <= k < n ==> #[trigger] self.file_paths()[k] == orig.file_paths()[k]);
                assert(self.file_paths()[n] == p.deep_view());
                assert forall|q: Seq<Seq<char>>| q != p.deep_view() implies self.has_file(q)
                    == orig.has_file(q) by {
                    if self.has_file(q) {
                        let k = choose|k: int|
                            0 <= k < self.file_paths().len() && self.file_paths()[k] == q;
                        assert(k < n);
                        assert(orig.file_paths()[k] == q);
                    }
                    if orig.has_file(q) {
                        let k = choose|k: int|
                            0 <= k < orig.file_paths().len() && orig.file_paths()[k] == q;
                        assert(self.file_paths()[k] == q);
                    }
                }
                assert(self.wf());
                let ki = self.file_index(p.deep_view());
                assert(self.file_paths()[ki] == p.deep_view());
                assert(ki == n);
                assert forall|q: Seq<Seq<char>>|
                    q != p.deep_view() && orig.has_file(q) implies self.file_data(q)
                    == orig.file_data(q) by {
                    let ko = orig.file_index(q);
                    assert(0 <= ko < orig.files@.len() && orig.file_paths()[ko] == q);
                    assert(self.file_paths()[ko] == q);
                    let kn = self.file_index(q);
                    assert(self.file_paths()[kn] == q);
                    assert(kn == ko);
                }
            }
        }
    }

    /// Remove the file named `p`.
    pub fn remove_file(&mut self, p: &Vec<String>)
        requires
            old(self).wf(),
            old(self).has_file(p.deep_view()),
        ensures
            final(self).wf(),
            final(self).dirs == old(self).dirs,
            forall|q: Seq<Seq<char>>| final(self).has_dir(q) == old(self).has_dir(q),
            !final(self).has_file(p.deep_view()),
            forall|q: Seq<Seq<char>>|
                q != p.deep_view() ==> final(self).has_file(q) == old(self).has_file(q),
            forall|q: Seq<Seq<char>>|
                q != p.deep_view() && old(self).has_file(q) ==> final(self).file_data(q) == old(
                    self,
                ).file_data(q),
    {
        let ghost orig = *self;
        let mut nf: Vec<FsFile> = Vec::new();
        let n = self.files.len();
        let mut i: usize = 0;
        while i < n
            invariant
                *self == orig,
                self.wf(),
                n == self.files@.len(),
                i <= n,
                forall|j: int|
                    0 <= j < nf@.len() ==> #[trigger] nf@[j].path.deep_view() != p.deep_view(),
                forall|j: int|
                    0 <= j < nf@.len() ==> exists|k: int|
                        0 <= k < i && entry_like(#[trigger] nf@[j], self.files@[k]),
                forall|k: int|
                    0 <= k < i && #[trigger] self.file_paths()[k] != p.deep_view()
                        ==> exists|j: int|
                        0 <= j < nf@.len() && entry_like(nf@[j], self.files@[k]),
                forall|j1: int, j2: int|
                    0 <= j1 < j2 < nf@.len() ==> #[trigger] nf@[j1].path.deep_view()
                        != #[trigger] nf@[j2].path.deep_view(),
            decreases n - i,
        {
            if !path_eq(&self.files[i].path, p) {
                let ghost nf0 = nf;
                assert forall|j: int| 0 <= j < nf0@.len()
                    implies #[trigger] nf0@[j].path.deep_view()
                    != self.files@[i as int].path.deep_view() by {
                    let k = choose|k: int|
                        0 <= k < i && entry_like(nf0@[j], self.files@[k]);
                    assert(self.file_paths()[k] != self.file_paths()[i as int]);
                }
                nf.push(
                    FsFile {
                        path: clone_path(&self.files[i].path),
                        data: copy_bytes(&self.files[i].data),
                    },
                );
                assert(forall|j: int| 0 <= j < nf0@.len() ==> #[trigger] nf@[j] == nf0@[j]);
                assert(entry_like(nf@[nf@.len() - 1], self.files@[i as int]));
                assert(nf@[nf@.len() - 1].path.deep_view() != p.deep_view());
                assert forall|j1: int, j2: int|
                    0 <= j1 < j2 < nf@.len()
                    implies #[trigger] nf@[j1].path.deep_view()
                    != #[trigger] nf@[j2].path.deep_view() by {
                    if j2 == nf@.len() - 1 {
                        assert(nf@[j1] == nf0@[j1]);
                        assert(nf0@[j1].path.deep_view()
                            != self.files@[i as int].path.deep_view());
                    }
                }
                assert forall|k: int|
                    0 <= k < i + 1 && #[trigger] self.file_paths()[k] != p.deep_view()
                    implies exists|j: int|
                    0 <= j < nf@.len() && entry_like(nf@[j], self.files@[k]) by {
                    if k < i {
                        let j0 = choose|j0: int|
                            0 <= j0 < nf0@.len() && entry_like(nf0@[j0], self.files@[k]);
                        assert(nf@[j0] == nf0@[j0]);
                        assert(entry_like(nf@[j0], self.files@[k]));
                    } else {
                        assert(entry_like(nf@[nf@.len() - 1], self.files@[i as int]));
                    }
                }
            } else {
                assert(self.file_paths()[i as int] == p.deep_view());
            }
            i += 1;
        }
        let ghost keep = |q: Seq<Seq<char>>| q != p.deep_view();
        proof {
            let b = Fs { dirs: orig.dirs, files: nf };
            assert(b.file_paths() =~= Seq::new(nf@.len(), |j: int| nf@[j].path.deep_view()));
            assert forall|j: int| 0 <= j < b.files@.len() implies keep(
                #[trigger] b.file_paths()[j],
            ) && exists|k: int|
                0 <= k < orig.files@.len() && entry_like(b.files@[j], orig.files@[k]) by {
                assert(b.files@[j] == nf@[j]);
                assert(nf@[j].path.deep_view() != p.deep_view());
            }
            assert forall|k: int|
                0 <= k < orig.files@.len() && keep(#[trigger] orig.file_paths()[k])
                implies exists|j: int|
                0 <= j < b.files@.len() && entry_like(b.files@[j], orig.files@[k]) by {}
            lemma_file_correspondence(orig, b, keep);
            assert(b.dir_views() =~= orig.dir_views());
            assert forall|i2: int|
                0 <= i2 < b.dirs@.len() implies !b.has_file(#[trigger] b.dir_views()[i2]) by {
                assert(b.dir_views()[i2] == orig.dir_views()[i2]);
                assert(!orig.has_file(orig.dir_views()[i2]));
            }
            assert forall|i2: int|
                0 <= i2 < b.files@.len() implies #[trigger] b.file_paths()[i2].len() > 0 by {
                assert(b.has_file(b.file_paths()[i2]));
                assert(orig.has_file(b.file_paths()[i2]));
                let k = choose|k: int|
                    0 <= k < orig.file_paths().len() && orig.file_paths()[k]
                        == b.file_paths()[i2];
                assert(orig.file_paths()[k].len() > 0);
            }
            assert(b.wf());
        }
        self.files = nf;
    }
}

/// When `b`'s directories are exactly `a`'s directories with a kept path,
/// the directory set of `b` is that of `a` restricted to `keep`.
proof fn lemma_dir_correspondence(a: Fs, b: Fs, keep: spec_fn(Seq<Seq<char>>) -> bool)
    requires
        forall|j: int|
            0 <= j < b.dirs@.len() ==> keep(#[trigger] b.dir_views()[j]) && exists|k: int|
                0 <= k < a.dirs@.len() && dir_like(b.dirs@[j], a.dirs@[k]),
        forall|k: int|
            0 <= k < a.dirs@.len() && keep(#[trigger] a.dir_views()[k]) ==> exists|j: int|
                0 <= j < b.dirs@.len() && dir_like(b.dirs@[j], a.dirs@[k]),
    ensures
        forall|q: Seq<Seq<char>>|
            q.len() > 0 ==> (b.has_dir(q) <==> a.has_dir(q) && keep(q)),
{
    assert forall|q: Seq<Seq<char>>| q.len() > 0 && b.has_dir(q) implies a.has_dir(q)
        && keep(q) by {
        let j = choose|j: int| 0 <= j < b.dir_views().len() && b.dir_views()[j] == q;
        assert(keep(b.dir_views()[j]));
        let k = choose|k: int| 0 <= k < a.dirs@.len() && dir_like(b.dirs@[j], a.dirs@[k]);
        assert(a.dir_views()[k] == q);
    }
    assert forall|q: Seq<Seq<char>>| q.len() > 0 && a.has_dir(q) && keep(q)
        implies b.has_dir(q) by {
        let k = choose|k: int| 0 <= k < a.dir_views().len() && a.dir_views()[k] == q;
        assert(keep(a.dir_views()[k]));
        let j = choose|j: int| 0 <= j < b.dirs@.len() && dir_like(b.dirs@[j], a.dirs@[k]);
        assert(b.dir_views()[j] == q);
    }
}

/// The entries of `dirs` whose path does not begin with `root`.
#[verifier::rlimit(60)]
fn filter_dirs_outside(dirs: &Vec<Vec<String>>, root: &Vec<String>) -> (nd: Vec<Vec<String>>)
    requires
        forall|i: int, j: int|
            0 <= i < j < dirs@.len() ==> #[trigger] dirs@[i].deep_view()
                != #[trigger] dirs@[j].deep_view(),
    ensures
        forall|j: int|
            0 <= j < nd@.len() ==> !is_prefix(root.deep_view(), #[trigger] nd@[j].deep_view())
                && exists|k: int| 0 <= k < dirs@.len() && dir_like(nd@[j], dirs@[k]),
        forall|k: int|
            0 <= k < dirs@.len() && !is_prefix(root.deep_view(), #[trigger] dirs@[k].deep_view())
                ==> exists|j: int| 0 <= j < nd@.len() && dir_like(nd@[j], dirs@[k]),
        forall|j1: int, j2: int|
            0 <= j1 < j2 < nd@.len() ==> #[trigger] nd@[j1].deep_view()
                != #[trigger] nd@[j2].deep_view(),
{
    let mut nd: Vec<Vec<String>> = Vec::new();
    let ghost mut sel: Seq<int> = Seq::empty();
    let ghost mut rev: Map<int, int> = Map::empty();
    let mut i: usize = 0;
    while i < dirs.len()
        invariant
            i <= dirs@.len(),
            sel.len() == nd@.len(),
            forall|j: int| 0 <= j < sel.len() ==> 0 <= #[trigger] sel[j] < i,
            forall|j: int|
                0 <= j < sel.len() ==> #[trigger] nd@[j].deep_view()
                    == dirs@[sel[j]].deep_view(),
            forall|j: int|
                0 <= j < sel.len() ==> !is_prefix(
                    root.deep_view(),
                    #[trigger] nd@[j].deep_view(),
                ),
            forall|j1: int, j2: int| 0 <= j1 < j2 < sel.len() ==> sel[j1] < sel[j2],
            forall|k: int|
                0 <= k < i && !is_prefix(root.deep_view(), #[trigger] dirs@[k].deep_view())
                    ==> rev.contains_key(k) && 0 <= rev[k] < nd@.len() && nd@[rev[k]].deep_view()
                    == dirs@[k].deep_view(),
        decreases dirs@.len() - i,
    {
        if !starts_with(root, &dirs[i]) {
            let ghost nd0 = nd;
            nd.push(clone_path(&dirs[i]));
            proof {
                assert(forall|j: int| 0 <= j < nd0@.len() ==> #[trigger] nd@[j] == nd0@[j]);
                assert(nd@[nd@.len() - 1].deep_view() == dirs@[i as int].deep_view());
                assert(!is_prefix(root.deep_view(), nd@[nd@.len() - 1].deep_view()));
                sel = sel.push(i as int);
                rev = rev.insert(i as int, nd@.len() - 1);
                assert forall|j: int| 0 <= j < sel.len() implies #[trigger] nd@[j].deep_view()
                    == dirs@[sel[j]].deep_view() by {
                    if j < sel.len() - 1 {
                        assert(nd@[j] == nd0@[j]);
                        assert(nd0@[j].deep_view() == dirs@[sel[j]].deep_view());
                    }
                }
                assert forall|j: int| 0 <= j < sel.len() implies !is_prefix(
                    root.deep_view(),
                    #[trigger] nd@[j].deep_view(),
                ) by {
                    if j < sel.len() - 1 {
                        assert(nd@[j] == nd0@[j]);
                        assert(!is_prefix(root.deep_view(), nd0@[j].deep_view()));
                    }
                }
            }
        }
        i += 1;
    }
    proof {
        assert forall|j: int|
            0 <= j < nd@.len() implies !is_prefix(
            root.deep_view(),
            #[trigger] nd@[j].deep_view(),
        ) && exists|k: int| 0 <= k < dirs@.len() && dir_like(nd@[j], dirs@[k]) by {
            assert(0 <= sel[j] < dirs@.len());
            assert(nd@[j].deep_view() == dirs@[sel[j]].deep_view());
            assert(dir_like(nd@[j], dirs@[sel[j]]));
        }
        assert forall|k: int|
            0 <= k < dirs@.len() && !is_prefix(root.deep_view(), #[trigger] dirs@[k].deep_view())
            implies exists|j: int| 0 <= j < nd@.len() && dir_like(nd@[j], dirs@[k]) by {
            assert(nd@[rev[k]].deep_view() == dirs@[k].deep_view());
            assert(dir_like(nd@[rev[k]], dirs@[k]));
        }
        assert forall|j1: int, j2: int|
            0 <= j1 < j2 < nd@.len()
            implies #[trigger] nd@[j1].deep_view() != #[trigger] nd@[j2].deep_view() by {
            assert(sel[j1] < sel[j2]);
            assert(dirs@[sel[j1]].deep_view() != dirs@[sel[j2]].deep_view());
        }
    }
    nd
}

/// The entries of `files` whose path does not begin with `root`.
#[verifier::rlimit(60)]
fn filter_files_outside(files: &Vec<FsFile>, root: &Vec<String>) -> (nf: Vec<FsFile>)
    requires
        forall|i: int, j: int|
            0 <= i < j < files@.len() ==> #[trigger] files@[i].path.deep_view()
                != #[trigger] files@[j].path.deep_view(),
    ensures
        forall|j: int|
            0 <= j < nf@.len() ==> !is_prefix(
                root.deep_view(),
                #[trigger] nf@[j].path.deep_view(),
            ) && exists|k: int| 0 <= k < files@.len() && entry_like(nf@[j], files@[k]),
        forall|k: int|
            0 <= k < files@.len() && !is_prefix(
                root.deep_view(),
                #[trigger] files@[k].path.deep_view(),
            ) ==> exists|j: int| 0 <= j < nf@.len() && entry_like(nf@[j], files@[k]),
        forall|j1: int, j2: int|
            0 <= j1 < j2 < nf@.len() ==> #[trigger] nf@[j1].path.deep_view()
                != #[trigger] nf@[j2].path.deep_view(),
{
    let mut nf: Vec<FsFile> = Vec::new();
    let ghost mut sel: Seq<int> = Seq::empty();
    let ghost mut rev: Map<int, int> = Map::empty();
    let mut i: usize = 0;
    while i < files.len()
        invariant
            i <= files@.len(),
            sel.len() == nf@.len(),
            forall|j: int| 0 <= j < sel.len() ==> 0 <= #[trigger] sel[j] < i,
            forall|j: int| 0 <= j < sel.len() ==> entry_like(#[trigger] nf@[j], files@[sel[j]]),
            forall|j: int|
                0 <= j < sel.len() ==> !is_prefix(
                    root.deep_view(),
                    #[trigger] nf@[j].path.deep_view(),
                ),
            forall|j1: int, j2: int| 0 <= j1 < j2 < sel.len() ==> sel[j1] < sel[j2],
            forall|k: int|
                0 <= k < i && !is_prefix(
                    root.deep_view(),
                    #[trigger] files@[k].path.deep_view(),
                ) ==> rev.contains_key(k) && 0 <= rev[k] < nf@.len() && entry_like(
                    nf@[rev[k]],
                    files@[k],
                ),
        decreases files@.len() - i,
    {
        if !starts_with(root, &files[i].path) {
            let ghost nf0 = nf;
            nf.push(
                FsFile {
                    path: clone_path(&files[i].path),
                    data: copy_bytes(&files[i].data),
                },
            );
            proof {
                assert(forall|j: int| 0 <= j < nf0@.len() ==> #[trigger] nf@[j] == nf0@[j]);
                assert(entry_like(nf@[nf@.len() - 1], files@[i as int]));
                assert(!is_prefix(root.deep_view(), nf@[nf@.len() - 1].path.deep_view()));
                sel = sel.push(i as int);
                rev = rev.insert(i as int, nf@.len() - 1);
                assert forall|j: int| 0 <= j < sel.len() implies entry_like(
                    #[trigger] nf@[j],
                    files@[sel[j]],
                ) by {
                    if j < sel.len() - 1 {
                        assert(nf@[j] == nf0@[j]);
                        assert(entry_like(nf0@[j], files@[sel[j]]));
                    }
                }
                assert forall|j: int| 0 <= j < sel.len() implies !is_prefix(
                    root.deep_view(),
                    #[trigger] nf@[j].path.deep_view(),
                ) by {
                    if j < sel.len() - 1 {
                        assert(nf@[j] == nf0@[j]);
                        assert(!is_prefix(root.deep_view(), nf0@[j].path.deep_view()));
                    }
                }
            }
        }
        i += 1;
    }
    proof {
        assert forall|j: int|
            0 <= j < nf@.len() implies !is_prefix(
            root.deep_view(),
            #[trigger] nf@[j].path.deep_view(),
        ) && exists|k: int| 0 <= k < files@.len() && entry_like(nf@[j], files@[k]) by {
            assert(0 <= sel[j] < files@.len());
            assert(entry_like(nf@[j], files@[sel[j]]));
        }
        assert forall|k: int|
            0 <= k < files@.len() && !is_prefix(
                root.deep_view(),
                #[trigger] files@[k].path.deep_view(),
            ) implies exists|j: int| 0 <= j < nf@.len() && entry_like(nf@[j], files@[k]) by {
            assert(entry_like(nf@[rev[k]], files@[k]));
        }
        assert forall|j1: int, j2: int|
            0 <= j1 < j2 < nf@.len()
            implies #[trigger] nf@[j1].path.deep_view() != #[trigger] nf@[j2].path.deep_view() by {
            assert(sel[j1] < sel[j2]);
            assert(entry_like(nf@[j1], files@[sel[j1]]));
            assert(entry_like(nf@[j2], files@[sel[j2]]));
            assert(files@[sel[j1]].path.deep_view() != files@[sel[j2]].path.deep_view());
        }
    }
    nf
}

impl Fs {
    /// Create the directory named `p` and any missing ancestors, as the
    /// real call does.  Fails, changing nothing, when some initial segment
    /// of `p` already names a regular file.
    #[verifier::rlimit(60)]
    pub fn create_dir_all(&mut self, p: &Vec<String>) -> (r: bool)
        requires
            old(self).wf(),
        ensures
            final(self).wf(),
            final(self).files == old(self).files,
            forall|q: Seq<Seq<char>>| final(self).has_file(q) == old(self).has_file(q),
            forall|q: Seq<Seq<char>>|
                old(self).has_file(q) ==> final(self).file_data(q) == old(self).file_data(q),
            r == (forall|k: int|
                1 <= k <= p.deep_view().len() ==> !old(self).has_file(
                    #[trigger] p.deep_view().subrange(0, k),
                )),
            !r ==> *final(self) == *old(self),
            r ==> forall|q: Seq<Seq<char>>|
                final(self).has_dir(q) <==> old(self).has_dir(q) || (is_prefix(
                    q,
                    p.deep_view(),
                ) && q.len() > 0),
    {
        let ghost orig = *self;
        // First pass: refuse when a file stands where a directory must go.
        let mut q: Vec<String> = Vec::new();
        let mut k: usize = 0;
        while k < p.len()
            invariant
                *self == *old(self),
                old(self).wf(),
                k <= p@.len(),
                q@.len() == k,
                forall|j: int| 0 <= j < k ==> q@[j]@ == p@[j]@,
                forall|m: int|
                    1 <= m <= k ==> !self.has_file(#[trigger] p.deep_view().subrange(0, m)),
            decreases p@.len() - k,
        {
            q.push(p[k].clone());
            assert(q.deep_view() =~= p.deep_view().subrange(0, k + 1));
            if self.is_file(&q) {
                assert(self.has_file(p.deep_view().subrange(0, k + 1)));
                return false;
            }
            k += 1;
        }
        // Second pass: add every missing initial segment.
        let ghost n0 = self.dirs@.len();
        let mut q2: Vec<String> = Vec::new();
        let mut k2: usize = 0;
        while k2 < p.len()
            invariant
                self.files == orig.files,
                self.wf(),
                orig.wf(),
                self.file_paths() =~= orig.file_paths(),
                k2 <= p@.len(),
                q2@.len() == k2,
                forall|j: int| 0 <= j < k2 ==> q2@[j]@ == p@[j]@,
                forall|m: int|
                    1 <= m <= p.deep_view().len() ==> !orig.has_file(
                        #[trigger] p.deep_view().subrange(0, m),
                    ),
                n0 == orig.dirs@.len(),
                n0 <= self.dirs@.len(),
                forall|j: int| 0 <= j < n0 ==> #[trigger] self.dirs@[j] == orig.dirs@[j],
                forall|j: int|
                    n0 <= j < self.dirs@.len() ==> is_prefix(
                        #[trigger] self.dir_views()[j],
                        p.deep_view(),
                    ) && self.dir_views()[j].len() <= k2,
                forall|m: int|
                    1 <= m <= k2 ==> self.has_dir(#[trigger] p.deep_view().subrange(0, m)),
            decreases p@.len() - k2,
        {
            q2.push(p[k2].clone());
            assert(q2.deep_view() =~= p.deep_view().subrange(0, k2 + 1));
            let ghost mid = *self;
            if !self.is_dir(&q2) {
                let nd = clone_path(&q2);
                self.dirs.push(nd);
                proof {
                    assert(forall|j: int|
                        0 <= j < mid.dirs@.len() ==> #[trigger] self.dirs@[j] == mid.dirs@[j]);
                    assert(forall|j: int|
                        0 <= j < mid.dirs@.len() ==> #[trigger] self.dir_views()[j]
                            == mid.dir_views()[j]);
                    assert(self.dir_views()[mid.dirs@.len() as int] == q2.deep_view());
                    assert(is_prefix(q2.deep_view(), p.deep_view()));
                    assert(self.file_paths() =~= mid.file_paths());
                    assert(self.wf()) by {
                        assert forall|i: int, j: int|
                            0 <= i < j < self.dirs@.len() implies #[trigger] self.dir_views()[i]
                            != #[trigger] self.dir_views()[j] by {
                            if j == mid.dirs@.len() as int {
                                assert(!mid.has_dir(q2.deep_view()));
                                assert(mid.dir_views().contains(mid.dir_views()[i]));
                            }
                        }
                        assert forall|i: int|
                            0 <= i < self.dirs@.len() implies !self.has_file(
                            #[trigger] self.dir_views()[i],
                        ) by {
                            if i < mid.dirs@.len() {
                                assert(!mid.has_file(mid.dir_views()[i]));
                            } else {
                                assert(self.dir_views()[i] == q2.deep_view());
                                assert(q2.deep_view() == p.deep_view().subrange(0, k2 + 1));
                                assert(!orig.has_file(p.deep_view().subrange(0, k2 + 1)));
                            }
                        }
                    }
                }
            }
            proof {
                assert(self.has_dir(q2.deep_view()));
                assert forall|m: int| 1 <= m <= k2 + 1 implies self.has_dir(
                    #[trigger] p.deep_view().subrange(0, m),
                ) by {
                    if m <= k2 {
                        assert(mid.has_dir(p.deep_view().subrange(0, m)));
                        if p.deep_view().subrange(0, m).len() > 0 {
                            let j = choose|j: int|
                                0 <= j < mid.dir_views().len() && mid.dir_views()[j]
                                    == p.deep_view().subrange(0, m);
                            assert(self.dir_views()[j] == p.deep_view().subrange(0, m));
                        }
                    } else {
                        assert(p.deep_view().subrange(0, m) =~= q2.deep_view());
                    }
                }
            }
            k2 += 1;
        }
        proof {
            assert(p.deep_view().subrange(0, p.deep_view().len() as int) =~= p.deep_view());
            assert forall|q3: Seq<Seq<char>>| self.has_dir(q3) implies orig.has_dir(q3) || (
            is_prefix(q3, p.deep_view()) && q3.len() > 0) by {
                if q3.len() > 0 {
                    let j = choose|j: int|
                        0 <= j < self.dir_views().len() && self.dir_views()[j] == q3;
                    if j < n0 {
                        assert(orig.dir_views()[j] == q3);
                    }
                }
            }
            assert forall|q3: Seq<Seq<char>>|
                orig.has_dir(q3) || (is_prefix(q3, p.deep_view()) && q3.len() > 0)
                implies self.has_dir(q3) by {
                if q3.len() > 0 {
                    if orig.has_dir(q3) {
                        let j = choose|j: int|
                            0 <= j < orig.dir_views().len() && orig.dir_views()[j] == q3;
                        assert(self.dir_views()[j] == q3);
                    } else {
                        assert(q3 =~= p.deep_view().subrange(0, q3.len() as int));
                        assert(self.has_dir(p.deep_view().subrange(0, q3.len() as int)));
                    }
                }
            }
        }
        true
    }

    /// Remove the directory named `root` together with everything below it.
    #[verifier::rlimit(60)]
    pub fn remove_subtree(&mut self, root: &Vec<String>)
        requires
            old(self).wf(),
        ensures
            final(self).wf(),
            forall|q: Seq<Seq<char>>|
                final(self).has_file(q) <==> old(self).has_file(q) && !is_prefix(
                    root.deep_view(),
                    q,
                ),
            forall|q: Seq<Seq<char>>|
                q.len() > 0 ==> (final(self).has_dir(q) <==> old(self).has_dir(q) && !is_prefix(
                    root.deep_view(),
                    q,
                )),
            forall|q: Seq<Seq<char>>|
                old(self).has_file(q) && !is_prefix(root.deep_view(), q)
                    ==> final(self).file_data(q) == old(self).file_data(q),
    {
        let ghost orig = *self;
        let ghost keep = |q: Seq<Seq<char>>| !is_prefix(root.deep_view(), q);
        proof {
            assert(forall|i: int|
                0 <= i < orig.files@.len() ==> #[trigger] orig.files@[i].path.deep_view()
                    == orig.file_paths()[i]);
            assert(forall|i: int|
                0 <= i < orig.dirs@.len() ==> #[trigger] orig.dirs@[i].deep_view()
                    == orig.dir_views()[i]);
        }
        let nf = filter_files_outside(&self.files, root);
        let nd = filter_dirs_outside(&self.dirs, root);
        proof {
            let b = Fs { dirs: nd, files: nf };
            assert forall|j: int| 0 <= j < b.files@.len() implies keep(
                #[trigger] b.file_paths()[j],
            ) && exists|k: int|
                0 <= k < orig.files@.len() && entry_like(b.files@[j], orig.files@[k]) by {
                assert(b.files@[j] == nf@[j]);
                assert(!is_prefix(root.deep_view(), nf@[j].path.deep_view()));
            }
            assert forall|k: int|
                0 <= k < orig.files@.len() && keep(#[trigger] orig.file_paths()[k])
                implies exists|j: int|
                0 <= j < b.files@.len() && entry_like(b.files@[j], orig.files@[k]) by {
                assert(!is_prefix(root.deep_view(), orig.files@[k].path.deep_view()));
            }
            assert(forall|j1: int, j2: int|
                0 <= j1 < j2 < b.files@.len() ==> #[trigger] b.file_paths()[j1]
                    != #[trigger] b.file_paths()[j2]);
            lemma_file_correspondence(orig, b, keep);
            assert forall|j: int| 0 <= j < b.dirs@.len() implies keep(
                #[trigger] b.dir_views()[j],
            ) && exists|k: int|
                0 <= k < orig.dirs@.len() && dir_like(b.dirs@[j], orig.dirs@[k]) by {
                assert(b.dir_views()[j] == nd@[j].deep_view());
                assert(!is_prefix(root.deep_view(), nd@[j].deep_view()));
                let k = choose|k: int|
                    0 <= k < orig.dirs@.len() && dir_like(nd@[j], orig.dirs@[k]);
                assert(dir_like(b.dirs@[j], orig.dirs@[k]));
            }
            assert forall|k: int|
                0 <= k < orig.dirs@.len() && keep(#[trigger] orig.dir_views()[k])
                implies exists|j: int|
                0 <= j < b.dirs@.len() && dir_like(b.dirs@[j], orig.dirs@[k]) by {
                assert(!is_prefix(root.deep_view(), orig.dirs@[k].deep_view()));
                let j = choose|j: int| 0 <= j < nd@.len() && dir_like(nd@[j], orig.dirs@[k]);
                assert(dir_like(b.dirs@[j], orig.dirs@[k]));
            }
            lemma_dir_correspondence(orig, b, keep);
            assert forall|i2: int|
                0 <= i2 < b.files@.len() implies #[trigger] b.file_paths()[i2].len() > 0 by {
                assert(b.has_file(b.file_paths()[i2]));
                assert(orig.has_file(b.file_paths()[i2]));
                let k = choose|k: int|
                    0 <= k < orig.file_paths().len() && orig.file_paths()[k]
                        == b.file_paths()[i2];
                assert(orig.file_paths()[k].len() > 0);
            }
            assert forall|i2: int|
                0 <= i2 < b.dirs@.len() implies #[trigger] b.dir_views()[i2].len() > 0
                && !b.has_file(b.dir_views()[i2]) by {
                assert(keep(b.dir_views()[i2]));
                assert(b.has_dir(b.dir_views()[i2])) by {
                    assert(b.dir_views().contains(b.dir_views()[i2]));
                }
                assert(orig.has_dir(b.dir_views()[i2]));
                let k = choose|k: int|
                    0 <= k < orig.dir_views().len() && orig.dir_views()[k] == b.dir_views()[i2];
                assert(orig.dir_views()[k].len() > 0);
                assert(!orig.has_file(orig.dir_views()[k]));
            }
            assert(b.wf());
        }
        self.files = nf;
        self.dirs = nd;
    }
}

/// A copy of the given byte vector.
pub fn copy_bytes(src: &Vec<u8>) -> (r: Vec<u8>)
    ensures
        r@ == src@,
{
    let mut r: Vec<u8> = Vec::new();
    let mut i: usize = 0;
    while i < src.len()
        invariant
            i <= src@.len(),
            r@ =~= src@.subrange(0, i as int),
        decreases src@.len() - i,
    {
        r.push(src[i]);
        i += 1;
    }
    proof {
        assert(r@ =~= src@);
    }
    r
}

} // verus!
