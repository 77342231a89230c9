//! Listing the files and directories of a tree.

use vstd::prelude::*;
use crate::fs::Fs;
use crate::path::{is_prefix, is_visible_name, starts_with};

verus! {

/// Why a listing failed.
#[derive(Clone, Copy, PartialEq, Eq, Structural, Debug)]
pub enum CrawlError {
    /// The root cannot be read as a directory.
    NotADirectory,
}

/// `list` holds an entry for every visible file of `fs` below `root`.
pub open spec fn lists_all_visible(fs: Fs, root: Seq<Seq<char>>, list: Seq<Vec<String>>) -> bool {
    forall|k: int|
        0 <= k < fs.files@.len() && fs.visible_file_under(root, #[trigger] fs.file_paths()[k])
            ==> exists|j: int| 0 <= j < list.len() && list[j].deep_view() == fs.file_paths()[k]
}

/// From `lists_all_visible`: any visible file below `root` has an entry.
pub proof fn lemma_file_list_complete(
    fs: Fs,
    root: Seq<Seq<char>>,
    list: Seq<Vec<String>>,
    p: Seq<Seq<char>>,
)
    requires
        lists_all_visible(fs, root, list),
        fs.visible_file_under(root, p),
    ensures
        exists|j: int| 0 <= j < list.len() && #[trigger] list[j].deep_view() == p,
{
    let k = choose|k: int| 0 <= k < fs.file_paths().len() && fs.file_paths()[k] == p;
    assert(fs.visible_file_under(root, fs.file_paths()[k]));
    let j = choose|j: int|
        0 <= j < list.len() && list[j].deep_view() == fs.file_paths()[k];
    assert(list[j].deep_view() == p);
}

/// `list` holds an entry for every immediate subdirectory of `root`.
pub open spec fn lists_all_children(fs: Fs, root: Seq<Seq<char>>, list: Seq<Vec<String>>) -> bool {
    forall|k: int|
        0 <= k < fs.dirs@.len() && is_prefix(root, #[trigger] fs.dir_views()[k])
            && fs.dir_views()[k].len() == root.len() + 1 ==> exists|j: int|
            0 <= j < list.len() && list[j].deep_view() == fs.dir_views()[k]
}

/// From `lists_all_children`: any immediate subdirectory has an entry.
pub proof fn lemma_dir_list_complete(
    fs: Fs,
    root: Seq<Seq<char>>,
    list: Seq<Vec<String>>,
    p: Seq<Seq<char>>,
)
    requires
        lists_all_children(fs, root, list),
        fs.has_dir(p),
        is_prefix(root, p),
        p.len() == root.len() + 1,
    ensures
        exists|j: int| 0 <= j < list.len() && #[trigger] list[j].deep_view() == p,
{
    let k = choose|k: int| 0 <= k < fs.dir_views().len() && fs.dir_views()[k] == p;
    assert(is_prefix(root, fs.dir_views()[k]));
    let j = choose|j: int|
        0 <= j < list.len() && list[j].deep_view() == fs.dir_views()[k];
    assert(list[j].deep_view() == p);
}

/// Every visible file anywhere below `root`, each exactly once, in no
/// promised order.  Hidden files are left out wherever they lie; hidden
/// directories are still descended into, so a visible file below a hidden
/// directory is listed.  Fails when `root` is not a directory.
#[verifier::rlimit(100)]
pub fn get_file_list(fs: &Fs, root: &Vec<String>) -> (r: Result<
    Vec<Vec<String>>,
    CrawlError,
>)
    requires
        fs.wf(),
    ensures
        r is Ok <==> fs.has_dir(root.deep_view()),
        r matches Ok(list) ==> forall|j: int|
            0 <= j < list@.len() ==> fs.visible_file_under(
                root.deep_view(),
                #[trigger] list@[j].deep_view(),
            ),
        r matches Ok(list) ==> lists_all_visible(*fs, root.deep_view(), list@),
        r matches Ok(list) ==> forall|j1: int, j2: int|
            0 <= j1 < j2 < list@.len() ==> #[trigger] list@[j1].deep_view()
                != #[trigger] list@[j2].deep_view(),
{
    if !fs.is_dir(root) {
        return Err(CrawlError::NotADirectory);
    }
    let mut list: Vec<Vec<String>> = Vec::new();
    let ghost mut sel: Seq<int> = Seq::empty();
    let ghost mut rev: Map<int, int> = Map::empty();
    let n = fs.files.len();
    let mut i: usize = 0;
    while i < n
        invariant
            fs.wf(),
            n == fs.files@.len(),
            i <= n,
            sel.len() == list@.len(),
            forall|j: int| 0 <= j < sel.len() ==> 0 <= #[trigger] sel[j] < i,
            forall|j: int|
                0 <= j < sel.len() ==> #[trigger] list@[j].deep_view()
                    == fs.file_paths()[sel[j]],
            forall|j: int|
                0 <= j < sel.len() ==> fs.visible_file_under(
                    root.deep_view(),
                    #[trigger] list@[j].deep_view(),
                ),
            forall|j1: int, j2: int| 0 <= j1 < j2 < sel.len() ==> sel[j1] < sel[j2],
            forall|k: int|
                0 <= k < i && fs.visible_file_under(
                    root.deep_view(),
                    #[trigger] fs.file_paths()[k],
                ) ==> rev.contains_key(k) && 0 <= rev[k] < list@.len()
                    && list@[rev[k]].deep_view() == fs.file_paths()[k],
        decreases n - i,
    {
        let f = &fs.files[i];
        let visible = starts_with(root, &f.path) && f.path.len() > root.len()
            && is_visible_name(&f.path[f.path.len() - 1]);
        proof {
            assert(f.path.deep_view().len() == f.path@.len());
            if f.path@.len() > 0 {
                assert(f.path.deep_view().last() == f.path@[f.path@.len() - 1]@);
            }
            assert(fs.file_paths()[i as int] == f.path.deep_view());
            assert(fs.has_file(fs.file_paths()[i as int]));
            assert(visible == fs.visible_file_under(root.deep_view(), f.path.deep_view()));
        }
        if visible {
            let ghost list0 = list;
            list.push(crate::path::clone_path(&f.path));
            proof {
                assert(forall|j: int|
                    0 <= j < list0@.len() ==> #[trigger] list@[j] == list0@[j]);
                assert(list@[list@.len() - 1].deep_view() == fs.file_paths()[i as int]);
                sel = sel.push(i as int);
                rev = rev.insert(i as int, list@.len() - 1);
                assert forall|j: int| 0 <= j < sel.len()
                    implies #[trigger] list@[j].deep_view() == fs.file_paths()[sel[j]] by {
                    if j < sel.len() - 1 {
                        assert(list@[j] == list0@[j]);
                        assert(list0@[j].deep_view() == fs.file_paths()[sel[j]]);
                    }
                }
                assert forall|j: int| 0 <= j < sel.len() implies fs.visible_file_under(
                    root.deep_view(),
                    #[trigger] list@[j].deep_view(),
                ) by {
                    if j < sel.len() - 1 {
                        assert(list@[j] == list0@[j]);
                        assert(fs.visible_file_under(root.deep_view(), list0@[j].deep_view()));
                    }
                }
            }
        }
        i += 1;
    }
    proof {
        assert forall|j: int|
            0 <= j < list@.len() implies fs.visible_file_under(
            root.deep_view(),
            #[trigger] list@[j].deep_view(),
        ) by {
            assert(0 <= sel[j] < fs.files@.len());
            assert(list@[j].deep_view() == fs.file_paths()[sel[j]]);
        }
        assert forall|k: int|
            0 <= k < fs.files@.len() && fs.visible_file_under(
                root.deep_view(),
                #[trigger] fs.file_paths()[k],
            ) implies exists|j: int|
            0 <= j < list@.len() && list@[j].deep_view() == fs.file_paths()[k] by {
            assert(list@[rev[k]].deep_view() == fs.file_paths()[k]);
        }
        assert(lists_all_visible(*fs, root.deep_view(), list@));
        assert forall|j1: int, j2: int|
            0 <= j1 < j2 < list@.len()
            implies #[trigger] list@[j1].deep_view() != #[trigger] list@[j2].deep_view() by {
            assert(sel[j1] < sel[j2]);
            assert(list@[j1].deep_view() == fs.file_paths()[sel[j1]]);
            assert(list@[j2].deep_view() == fs.file_paths()[sel[j2]]);
        }
    }
    Ok(list)
}

/// The immediate subdirectories of `root`, each exactly once.  Fails when
/// `root` is not a directory.
#[verifier::rlimit(100)]
pub fn get_dir_list(fs: &Fs, root: &Vec<String>) -> (r: Result<Vec<Vec<String>>, CrawlError>)
    requires
        fs.wf(),
    ensures
        r is Ok <==> fs.has_dir(root.deep_view()),
        r matches Ok(list) ==> forall|j: int|
            0 <= j < list@.len() ==> fs.has_dir(#[trigger] list@[j].deep_view()) && is_prefix(
                root.deep_view(),
                list@[j].deep_view(),
            ) && list@[j].deep_view().len() == root.deep_view().len() + 1,
        r matches Ok(list) ==> lists_all_children(*fs, root.deep_view(), list@),
        r matches Ok(list) ==> forall|j1: int, j2: int|
            0 <= j1 < j2 < list@.len() ==> #[trigger] list@[j1].deep_view()
                != #[trigger] list@[j2].deep_view(),
{
    if !fs.is_dir(root) {
        return Err(CrawlError::NotADirectory);
    }
    let mut list: Vec<Vec<String>> = Vec::new();
    let ghost mut sel: Seq<int> = Seq::empty();
    let ghost mut rev: Map<int, int> = Map::empty();
    let n = fs.dirs.len();
    let mut i: usize = 0;
    while i < n
        invariant
            fs.wf(),
            n == fs.dirs@.len(),
            i <= n,
            sel.len() == list@.len(),
            forall|j: int| 0 <= j < sel.len() ==> 0 <= #[trigger] sel[j] < i,
            forall|j: int|
                0 <= j < sel.len() ==> #[trigger] list@[j].deep_view()
                    == fs.dir_views()[sel[j]],
            forall|j: int|
                0 <= j < sel.len() ==> is_prefix(
                    root.deep_view(),
                    #[trigger] list@[j].deep_view(),
                ) && list@[j].deep_view().len() == root.deep_view().len() + 1,
            forall|j1: int, j2: int| 0 <= j1 < j2 < sel.len() ==> sel[j1] < sel[j2],
            forall|k: int|
                0 <= k < i && is_prefix(root.deep_view(), #[trigger] fs.dir_views()[k])
                    && fs.dir_views()[k].len() == root.deep_view().len() + 1
                    ==> rev.contains_key(k) && 0 <= rev[k] < list@.len()
                    && list@[rev[k]].deep_view() == fs.dir_views()[k],
        decreases n - i,
    {
        let d = &fs.dirs[i];
        let child = starts_with(root, d) && d.len() > root.len() && d.len() - root.len() == 1;
        proof {
            assert(fs.dir_views()[i as int] == d.deep_view());
        }
        if child {
            let ghost list0 = list;
            list.push(crate::path::clone_path(d));
            proof {
                assert(forall|j: int|
                    0 <= j < list0@.len() ==> #[trigger] list@[j] == list0@[j]);
                assert(list@[list@.len() - 1].deep_view() == fs.dir_views()[i as int]);
                sel = sel.push(i as int);
                rev = rev.insert(i as int, list@.len() - 1);
                assert forall|j: int| 0 <= j < sel.len()
                    implies #[trigger] list@[j].deep_view() == fs.dir_views()[sel[j]] by {
                    if j < sel.len() - 1 {
                        assert(list@[j] == list0@[j]);
                        assert(list0@[j].deep_view() == fs.dir_views()[sel[j]]);
                    }
                }
                assert forall|j: int| 0 <= j < sel.len() implies is_prefix(
                    root.deep_view(),
                    #[trigger] list@[j].deep_view(),
                ) && list@[j].deep_view().len() == root.deep_view().len() + 1 by {
                    if j < sel.len() - 1 {
                        assert(list@[j] == list0@[j]);
                        assert(is_prefix(root.deep_view(), list0@[j].deep_view())
                            && list0@[j].deep_view().len() == root.deep_view().len() + 1);
                    }
                }
            }
        }
        i += 1;
    }
    proof {
        assert forall|j: int|
            0 <= j < list@.len() implies fs.has_dir(#[trigger] list@[j].deep_view())
            && is_prefix(root.deep_view(), list@[j].deep_view()) && list@[j].deep_view().len()
            == root.deep_view().len() + 1 by {
            assert(0 <= sel[j] < fs.dirs@.len());
            assert(list@[j].deep_view() == fs.dir_views()[sel[j]]);
            assert(fs.dir_views().contains(fs.dir_views()[sel[j]]));
        }
        assert forall|k: int|
            0 <= k < fs.dirs@.len() && is_prefix(
                root.deep_view(),
                #[trigger] fs.dir_views()[k],
            ) && fs.dir_views()[k].len() == root.deep_view().len() + 1 implies exists|j: int|
            0 <= j < list@.len() && list@[j].deep_view() == fs.dir_views()[k] by {
            assert(list@[rev[k]].deep_view() == fs.dir_views()[k]);
        }
        assert(lists_all_children(*fs, root.deep_view(), list@));
        assert forall|j1: int, j2: int|
            0 <= j1 < j2 < list@.len()
            implies #[trigger] list@[j1].deep_view() != #[trigger] list@[j2].deep_view() by {
            assert(sel[j1] < sel[j2]);
            assert(list@[j1].deep_view() == fs.dir_views()[sel[j1]]);
            assert(list@[j2].deep_view() == fs.dir_views()[sel[j2]]);
        }
    }
    Ok(list)
}

} // verus!
