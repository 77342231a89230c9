//! Pruning directories that hold no visible content.

use vstd::prelude::*;
use crate::fs::Fs;
use crate::path::{is_prefix, is_visible_name, starts_with};

verus! {

/// Why a prune failed.
#[derive(Clone, Copy, PartialEq, Eq, Structural, Debug)]
pub enum DirError {
    /// A visible file remains somewhere below the directory.
    NotEmpty,
    /// The target is not a directory.
    InvalidInput,
}

/// Whether some visible file lies at or below `root`: such a file blocks
/// the removal of `root` and of every directory between them.
pub open spec fn blocked(fs: Fs, root: Seq<Seq<char>>) -> bool {
    exists|k: int|
        0 <= k < fs.files@.len() && is_prefix(root, #[trigger] fs.file_paths()[k])
            && fs.file_paths()[k].last().len() > 0 && !crate::path::hidden_name(
            fs.file_paths()[k].last(),
        )
}

/// Remove the tree rooted at `dir` when nothing below it is a visible
/// file; hidden files vanish with their directories.  When any visible
/// file remains anywhere below, fail and remove nothing at all, at any
/// level.  A target that is not a directory is a distinct error.
pub fn delete_recursive(fs: &mut Fs, dir: &Vec<String>) -> (r: Result<(), DirError>)
    requires
        old(fs).wf(),
    ensures
        final(fs).wf(),
        !old(fs).has_dir(dir.deep_view()) ==> r == Result::<(), DirError>::Err(
            DirError::InvalidInput,
        ) && *final(fs) == *old(fs),
        old(fs).has_dir(dir.deep_view()) && blocked(*old(fs), dir.deep_view()) ==> r
            == Result::<(), DirError>::Err(DirError::NotEmpty) && *final(fs) == *old(fs),
        old(fs).has_dir(dir.deep_view()) && !blocked(*old(fs), dir.deep_view()) ==> r
            == Result::<(), DirError>::Ok(()) && {
            &&& forall|q: Seq<Seq<char>>|
                final(fs).has_file(q) <==> old(fs).has_file(q) && !is_prefix(dir.deep_view(), q)
            &&& forall|q: Seq<Seq<char>>|
                q.len() > 0 ==> (final(fs).has_dir(q) <==> old(fs).has_dir(q) && !is_prefix(
                    dir.deep_view(),
                    q,
                ))
            &&& forall|q: Seq<Seq<char>>|
                old(fs).has_file(q) && !is_prefix(dir.deep_view(), q) ==> final(fs).file_data(q)
                    == old(fs).file_data(q)
        },
{
    if !fs.is_dir(dir) {
        return Err(DirError::InvalidInput);
    }
    let n = fs.files.len();
    let mut i: usize = 0;
    while i < n
        invariant
            *fs == *old(fs),
            old(fs).has_dir(dir.deep_view()),
            fs.wf(),
            n == fs.files@.len(),
            i <= n,
            forall|k: int|
                0 <= k < i ==> !(is_prefix(dir.deep_view(), #[trigger] fs.file_paths()[k])
                    && fs.file_paths()[k].last().len() > 0 && !crate::path::hidden_name(
                    fs.file_paths()[k].last(),
                )),
        decreases n - i,
    {
        let f = &fs.files[i];
        proof {
            assert(fs.file_paths()[i as int] == f.path.deep_view());
            assert(fs.file_paths()[i as int].len() > 0);
            assert(f.path.deep_view().last() == f.path@[f.path@.len() - 1]@);
        }
        if starts_with(dir, &f.path) && is_visible_name(&f.path[f.path.len() - 1]) {
            assert(blocked(*fs, dir.deep_view()));
            return Err(DirError::NotEmpty);
        }
        i += 1;
    }
    assert(!blocked(*fs, dir.deep_view()));
    fs.remove_subtree(dir);
    Ok(())
}

} // verus!
