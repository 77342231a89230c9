//! A verified library for batch compression of image trees.
//!
//! The library models a directory tree as a value (`fs::Fs`), crawls it
//! for visible files, drains a shared work queue of jobs, compresses each
//! file to a JPEG through the `image` and `mozjpeg` crates, and prunes
//! directories that hold no visible content afterwards.

pub mod compressor;
pub mod crawler;
pub mod dir;
pub mod fs;
pub mod path;
pub mod progress;
mod queue;

use vstd::prelude::*;
use vstd::multiset::Multiset;
use std::sync::mpsc::Sender;
use crate::compressor::{spec_compress_bytes, Compressor, CompressError, Factor};
use crate::crawler::{get_file_list, CrawlError};
use crate::dir::delete_recursive;
use crate::fs::Fs;
use crate::path::{
    clone_path, file_name, is_prefix, join, jpg_name, lemma_jpg_name_stem,
    lemma_prefixes_comparable, parent, stem_of, strip_prefix,
};
use crate::progress::{send_string, usize_to_string};
use crate::queue::JobQueue;

verus! {

/// The components of `p`'s parent that follow the tree root `source`.
pub open spec fn rel_parent(source: Seq<Seq<char>>, p: Seq<Seq<char>>) -> Seq<Seq<char>> {
    p.subrange(source.len() as int, p.len() - 1)
}

/// The directory a job's output goes to: the job's parent chain,
/// re-rooted from `source` onto `dest`.
pub open spec fn job_dest_dir(
    source: Seq<Seq<char>>,
    dest: Seq<Seq<char>>,
    p: Seq<Seq<char>>,
) -> Seq<Seq<char>> {
    dest + rel_parent(source, p)
}

/// The output path of a job that compresses.
pub open spec fn job_target(
    source: Seq<Seq<char>>,
    dest: Seq<Seq<char>>,
    p: Seq<Seq<char>>,
) -> Seq<Seq<char>> {
    job_dest_dir(source, dest, p).push(jpg_name(p.last()))
}

/// The output path of a job that falls back to a verbatim copy.
pub open spec fn job_copy_target(
    source: Seq<Seq<char>>,
    dest: Seq<Seq<char>>,
    p: Seq<Seq<char>>,
) -> Seq<Seq<char>> {
    job_dest_dir(source, dest, p).push(p.last())
}

/// Whether processing the file at `p` leaves an output file behind:
/// everything but a job whose image decodes and is then declined by the
/// encoder writes something (a compressed file, or a verbatim copy).
pub open spec fn job_writes(fs: Fs, p: Seq<Seq<char>>, factor: Factor) -> bool {
    spec_compress_bytes(fs.file_data(p), factor.spec_quality_points(), factor.size_ratio as nat)
        != Result::<Seq<u8>, CompressError>::Err(CompressError::Encode)
}

/// The stems of the visible files below `root`.
pub open spec fn dest_stems(fs: Fs, root: Seq<Seq<char>>) -> Set<Seq<char>> {
    Set::new(
        |s: Seq<char>|
            exists|p: Seq<Seq<char>>|
                #[trigger] fs.visible_file_under(root, p) && s == stem_of(p.last()),
    )
}

/// The stems of the visible files below `source` whose processing leaves
/// an output file behind.
pub open spec fn written_stems(fs: Fs, source: Seq<Seq<char>>, factor: Factor) -> Set<
    Seq<char>,
> {
    Set::new(
        |s: Seq<char>|
            exists|p: Seq<Seq<char>>|
                #[trigger] fs.visible_file_under(source, p) && job_writes(fs, p, factor) && s
                    == stem_of(p.last()),
    )
}

/// The stems of the processed jobs that leave an output file behind.
spec fn stems_of_written(
    fs0: Fs,
    processed: Multiset<Seq<Seq<char>>>,
    factor: Factor,
) -> Set<Seq<char>> {
    Set::new(
        |s: Seq<char>|
            exists|j: Seq<Seq<char>>|
                #[trigger] processed.contains(j) && job_writes(fs0, j, factor) && s == stem_of(
                    j.last(),
                ),
    )
}

/// The run can mirror the source tree into the destination without the
/// two trees touching: the roots lead past each other, nothing stands
/// below the destination root yet, no file stands on the destination
/// root's own chain, and no mirrored parent chain of one visible file
/// runs through the output path of another.
pub open spec fn mirror_clear(fs: Fs, source: Seq<Seq<char>>, dest: Seq<Seq<char>>) -> bool {
    &&& !is_prefix(source, dest)
    &&& !is_prefix(dest, source)
    &&& forall|q: Seq<Seq<char>>|
        #![trigger fs.has_dir(q)]
        #![trigger fs.has_file(q)]
        is_prefix(dest, q) && q.len() > dest.len() ==> !fs.has_dir(q) && !fs.has_file(q)
    &&& forall|q: Seq<Seq<char>>| #![trigger fs.has_file(q)] is_prefix(q, dest) ==> !fs.has_file(q)
    &&& forall|p: Seq<Seq<char>>, k: Seq<Seq<char>>|
        #![trigger fs.visible_file_under(source, p), fs.visible_file_under(source, k)]
        fs.visible_file_under(source, p) && fs.visible_file_under(source, k) ==> !is_prefix(
            job_target(source, dest, p),
            job_dest_dir(source, dest, k),
        ) && !is_prefix(job_copy_target(source, dest, p), job_dest_dir(source, dest, k))
}

/// The jobs of a crawl result, as a multiset of path values.
spec fn paths_multiset(l: Seq<Vec<String>>) -> Multiset<Seq<Seq<char>>>
    decreases l.len(),
{
    if l.len() == 0 {
        Multiset::empty()
    } else {
        paths_multiset(l.drop_last()).insert(l.last().deep_view())
    }
}

proof fn lemma_paths_multiset_contains(l: Seq<Vec<String>>, x: Seq<Seq<char>>)
    ensures
        paths_multiset(l).contains(x) <==> exists|i: int|
            0 <= i < l.len() && l[i].deep_view() == x,
    decreases l.len(),
{
    if l.len() > 0 {
        lemma_paths_multiset_contains(l.drop_last(), x);
        if paths_multiset(l).contains(x) {
            if l.last().deep_view() != x {
                let i = choose|i: int|
                    0 <= i < l.drop_last().len() && l.drop_last()[i].deep_view() == x;
                assert(l[i].deep_view() == x);
            }
        }
        if exists|i: int| 0 <= i < l.len() && l[i].deep_view() == x {
            let i = choose|i: int| 0 <= i < l.len() && l[i].deep_view() == x;
            if i < l.len() - 1 {
                assert(l.drop_last()[i].deep_view() == x);
            }
        }
    }
}

proof fn lemma_paths_multiset_count(l: Seq<Vec<String>>)
    requires
        forall|i: int, j: int|
            0 <= i < j < l.len() ==> #[trigger] l[i].deep_view() != #[trigger] l[j].deep_view(),
    ensures
        forall|x: Seq<Seq<char>>| paths_multiset(l).count(x) <= 1,
    decreases l.len(),
{
    if l.len() > 0 {
        assert(forall|i: int, j: int|
            0 <= i < j < l.drop_last().len() ==> #[trigger] l.drop_last()[i].deep_view()
                != #[trigger] l.drop_last()[j].deep_view());
        lemma_paths_multiset_count(l.drop_last());
        let x0 = l.last().deep_view();
        lemma_paths_multiset_contains(l.drop_last(), x0);
        assert(!paths_multiset(l.drop_last()).contains(x0)) by {
            if paths_multiset(l.drop_last()).contains(x0) {
                let i = choose|i: int|
                    0 <= i < l.drop_last().len() && l.drop_last()[i].deep_view() == x0;
                assert(l[i].deep_view() == l[l.len() - 1].deep_view());
            }
        }
        assert forall|x: Seq<Seq<char>>| paths_multiset(l).count(x) <= 1 by {
            assert(paths_multiset(l) == paths_multiset(l.drop_last()).insert(x0));
            if x == x0 {
                assert(paths_multiset(l.drop_last()).count(x0) == 0);
            }
        }
    }
}

/// A folder compressor: one source tree, one destination tree, a factor,
/// a worker count, a deletion flag and an optional observer.
pub struct FolderCompressor {
    pub factor: Factor,
    pub source_path: Vec<String>,
    pub dest_path: Vec<String>,
    pub thread_count: u32,
    pub delete_source: bool,
    pub sender: Option<Sender<String>>,
}

impl FolderCompressor {
    /// A new folder compressor for the two roots, with one worker, the
    /// default factor, no deletion and no observer.
    pub fn new(source_path: Vec<String>, dest_path: Vec<String>) -> (r: FolderCompressor)
        ensures
            r.source_path == source_path,
            r.dest_path == dest_path,
            r.factor.quality == 8000,
            r.factor.size_ratio == 800,
            r.factor.valid(),
            r.thread_count == 1,
            !r.delete_source,
            r.sender is None,
    {
        FolderCompressor {
            factor: Factor::default(),
            source_path,
            dest_path,
            thread_count: 1,
            delete_source: false,
            sender: None,
        }
    }

    /// Set the factor used to compress images.
    pub fn set_factor(&mut self, factor: Factor)
        ensures
            *final(self) == (FolderCompressor { factor, ..*old(self) }),
    {
        self.factor = factor;
    }

    /// Set whether source files are deleted and the source tree pruned.
    pub fn set_delete_source(&mut self, to_delete: bool)
        ensures
            *final(self) == (FolderCompressor { delete_source: to_delete, ..*old(self) }),
    {
        self.delete_source = to_delete;
    }

    /// Set an observer for progress messages.
    pub fn set_sender(&mut self, sender: Sender<String>)
        ensures
            *final(self) == (FolderCompressor { sender: Some(sender), ..*old(self) }),
    {
        self.sender = Some(sender);
    }

    /// Set how many workers drain the queue.
    pub fn set_thread_count(&mut self, thread_count: u32)
        ensures
            *final(self) == (FolderCompressor { thread_count, ..*old(self) }),
    {
        self.thread_count = thread_count;
    }
}



/// The running state of a drain: outside the destination subtree the
/// tree is the starting tree minus some processed sources; directories
/// appear only on mirrored parent chains; files below the destination
/// are outputs of processed jobs; and the stems below the destination
/// are exactly the stems of the processed jobs that write.
spec fn drain_inv(
    fs0: Fs,
    fs: Fs,
    s_v: Seq<Seq<char>>,
    d_v: Seq<Seq<char>>,
    factor: Factor,
    to_delete_source: bool,
    jobs0: Multiset<Seq<Seq<char>>>,
    processed: Multiset<Seq<Seq<char>>>,
) -> bool {
    &&& fs.wf()
    &&& forall|q: Seq<Seq<char>>|
        #![trigger fs.has_file(q)]
        !is_prefix(d_v, q) && fs.has_file(q) ==> fs0.has_file(q) && fs.file_data(q)
            == fs0.file_data(q)
    &&& forall|q: Seq<Seq<char>>|
        #![trigger fs0.has_file(q)]
        !is_prefix(d_v, q) && fs0.has_file(q) && !processed.contains(q) ==> fs.has_file(q)
            && fs.file_data(q) == fs0.file_data(q)
    &&& (!to_delete_source ==> forall|q: Seq<Seq<char>>|
        #![trigger fs0.has_file(q)]
        !is_prefix(d_v, q) && fs0.has_file(q) ==> fs.has_file(q) && fs.file_data(q)
            == fs0.file_data(q))
    &&& forall|q: Seq<Seq<char>>|
        #![trigger fs.has_dir(q)]
        q.len() > 0 && fs.has_dir(q) ==> fs0.has_dir(q) || is_prefix(q, d_v) || (is_prefix(
            d_v,
            q,
        ) && exists|k: Seq<Seq<char>>|
            #[trigger] jobs0.contains(k) && is_prefix(q, job_dest_dir(s_v, d_v, k)))
    &&& forall|q: Seq<Seq<char>>|
        #![trigger fs.has_file(q)]
        is_prefix(d_v, q) && fs.has_file(q) ==> exists|j: Seq<Seq<char>>|
            #[trigger] processed.contains(j) && (q == job_target(s_v, d_v, j) || q
                == job_copy_target(s_v, d_v, j))
    &&& dest_stems(fs, d_v) == stems_of_written(fs0, processed, factor)
}

/// When the only file-set changes are a new output at `t` below the
/// destination, and possibly one removal away from it, the stems below
/// the destination gain exactly the stem of `t`.
proof fn lemma_dest_stems_after_write(
    pre: Fs,
    post: Fs,
    d_v: Seq<Seq<char>>,
    t: Seq<Seq<char>>,
    rm: Option<Seq<Seq<char>>>,
)
    requires
        is_prefix(d_v, t),
        t.len() > d_v.len(),
        t.last().len() > 0,
        !crate::path::hidden_name(t.last()),
        post.has_file(t),
        rm matches Some(r) ==> !is_prefix(d_v, r),
        forall|q: Seq<Seq<char>>|
            #![trigger post.has_file(q)]
            #![trigger pre.has_file(q)]
            q != t && Some(q) != rm ==> post.has_file(q) == pre.has_file(q),
    ensures
        dest_stems(post, d_v) == dest_stems(pre, d_v).insert(stem_of(t.last())),
{
    assert forall|s: Seq<char>| #[trigger] dest_stems(post, d_v).contains(s)
        implies dest_stems(pre, d_v).insert(stem_of(t.last())).contains(s) by {
        let p = choose|p: Seq<Seq<char>>|
            #[trigger] post.visible_file_under(d_v, p) && s == stem_of(p.last());
        if p != t {
            assert(Some(p) != rm);
            assert(pre.has_file(p));
            assert(pre.visible_file_under(d_v, p));
            assert(dest_stems(pre, d_v).contains(s));
        }
    }
    assert forall|s: Seq<char>| #[trigger] dest_stems(pre, d_v).insert(
        stem_of(t.last()),
    ).contains(s) implies dest_stems(post, d_v).contains(s) by {
        if s == stem_of(t.last()) {
            assert(post.visible_file_under(d_v, t));
        } else {
            let p = choose|p: Seq<Seq<char>>|
                #[trigger] pre.visible_file_under(d_v, p) && s == stem_of(p.last());
            assert(p != t);
            assert(Some(p) != rm);
            assert(post.has_file(p));
            assert(post.visible_file_under(d_v, p));
        }
    }
    assert(dest_stems(post, d_v) =~= dest_stems(pre, d_v).insert(stem_of(t.last())));
}

/// When nothing below the destination changes, the stems below it stay.
proof fn lemma_dest_stems_unchanged(pre: Fs, post: Fs, d_v: Seq<Seq<char>>)
    requires
        forall|q: Seq<Seq<char>>|
            #![trigger post.has_file(q)]
            #![trigger pre.has_file(q)]
            is_prefix(d_v, q) ==> post.has_file(q) == pre.has_file(q),
    ensures
        dest_stems(post, d_v) == dest_stems(pre, d_v),
{
    assert forall|s: Seq<char>| #[trigger] dest_stems(post, d_v).contains(s)
        implies dest_stems(pre, d_v).contains(s) by {
        let p = choose|p: Seq<Seq<char>>|
            #[trigger] post.visible_file_under(d_v, p) && s == stem_of(p.last());
        assert(pre.has_file(p));
        assert(pre.visible_file_under(d_v, p));
    }
    assert forall|s: Seq<char>| #[trigger] dest_stems(pre, d_v).contains(s)
        implies dest_stems(post, d_v).contains(s) by {
        let p = choose|p: Seq<Seq<char>>|
            #[trigger] pre.visible_file_under(d_v, p) && s == stem_of(p.last());
        assert(post.has_file(p));
        assert(post.visible_file_under(d_v, p));
    }
    assert(dest_stems(post, d_v) =~= dest_stems(pre, d_v));
}

/// Processing one more job adds its stem to the written stems exactly
/// when the job writes.
proof fn lemma_stems_of_written_insert(
    fs0: Fs,
    processed: Multiset<Seq<Seq<char>>>,
    factor: Factor,
    j: Seq<Seq<char>>,
)
    ensures
        job_writes(fs0, j, factor) ==> stems_of_written(fs0, processed.insert(j), factor)
            == stems_of_written(fs0, processed, factor).insert(stem_of(j.last())),
        !job_writes(fs0, j, factor) ==> stems_of_written(fs0, processed.insert(j), factor)
            == stems_of_written(fs0, processed, factor),
{
    let with_j = stems_of_written(fs0, processed.insert(j), factor);
    let without = stems_of_written(fs0, processed, factor);
    assert forall|s: Seq<char>| #[trigger] with_j.contains(s) implies without.contains(s) || (
    job_writes(fs0, j, factor) && s == stem_of(j.last())) by {
        let k = choose|k: Seq<Seq<char>>|
            #[trigger] processed.insert(j).contains(k) && job_writes(fs0, k, factor) && s
                == stem_of(k.last());
        if k != j {
            assert(processed.contains(k));
        }
    }
    assert forall|s: Seq<char>| #[trigger] without.contains(s) implies with_j.contains(s) by {
        let k = choose|k: Seq<Seq<char>>|
            #[trigger] processed.contains(k) && job_writes(fs0, k, factor) && s == stem_of(
                k.last(),
            );
        assert(processed.insert(j).contains(k));
    }
    if job_writes(fs0, j, factor) {
        assert(processed.insert(j).contains(j));
        assert(with_j.contains(stem_of(j.last())));
        assert(with_j =~= without.insert(stem_of(j.last())));
    } else {
        assert(with_j =~= without);
    }
}


/// Mirror one job's parent chain below `dest`, compress the job there,
/// and report the outcome to the observer when one is present.
#[verifier::rlimit(100)]
fn process_job(
    fs: &mut Fs,
    file: &Vec<String>,
    root: &Vec<String>,
    dest: &Vec<String>,
    to_delete_source: bool,
    factor: Factor,
    sender: Option<&Sender<String>>,
    Ghost(fs0): Ghost<Fs>,
    Ghost(jobs0): Ghost<Multiset<Seq<Seq<char>>>>,
    Ghost(processed): Ghost<Multiset<Seq<Seq<char>>>>,
)
    requires
        old(fs).wf(),
        factor.valid(),
        fs0.wf(),
        forall|j: Seq<Seq<char>>|
            #[trigger] jobs0.contains(j) ==> fs0.visible_file_under(root.deep_view(), j),
        jobs0.contains(file.deep_view()),
        !processed.contains(file.deep_view()),
        forall|j: Seq<Seq<char>>| #[trigger] processed.contains(j) ==> jobs0.contains(j),
        mirror_clear(fs0, root.deep_view(), dest.deep_view()) ==> drain_inv(
            fs0,
            *old(fs),
            root.deep_view(),
            dest.deep_view(),
            factor,
            to_delete_source,
            jobs0,
            processed,
        ),
    ensures
        final(fs).wf(),
        mirror_clear(fs0, root.deep_view(), dest.deep_view()) ==> drain_inv(
            fs0,
            *final(fs),
            root.deep_view(),
            dest.deep_view(),
            factor,
            to_delete_source,
            jobs0,
            processed.insert(file.deep_view()),
        ),
{
    let ghost s_v = root.deep_view();
    let ghost d_v = dest.deep_view();
    let ghost fv = file.deep_view();
    let ghost processed2 = processed.insert(fv);
    let ghost mc = mirror_clear(fs0, s_v, d_v);
    proof {
        assert(fs0.visible_file_under(s_v, fv));
        assert(fv.len() > s_v.len() && is_prefix(s_v, fv) && fs0.has_file(fv));
        assert(!crate::path::hidden_name(fv.last()));
        if mc {
            assert(!is_prefix(d_v, fv)) by {
                if is_prefix(d_v, fv) {
                    lemma_prefixes_comparable(s_v, d_v, fv);
                }
            }
            assert(fs.has_file(fv) && fs.file_data(fv) == fs0.file_data(fv));
        }
        assert(forall|j: Seq<Seq<char>>|
            #[trigger] processed2.contains(j) ==> processed.contains(j) || j == fv);
    }
    let par = parent(file);
    proof {
        assert(is_prefix(s_v, par.deep_view())) by {
            assert(par.deep_view() == fv.drop_last());
            assert(forall|i: int| 0 <= i < s_v.len() ==> s_v[i] == #[trigger] fv.drop_last()[i]);
        }
    }
    let rel = match strip_prefix(root, &par) {
        Some(rel) => rel,
        None => {
            proof {
                assert(false);
            }
            vstd::pervasive::unreached()
        },
    };
    let new_dest_dir = join(dest, &rel);
    proof {
        assert(rel.deep_view() =~= fv.subrange(s_v.len() as int, fv.len() - 1));
        assert(new_dest_dir.deep_view() =~= job_dest_dir(s_v, d_v, fv));
        assert(new_dest_dir.deep_view() == job_dest_dir(s_v, d_v, fv));
    }
    let ghost fs_a = *fs;
    let created = fs.create_dir_all(&new_dest_dir);
    proof {
        if mc {
            let nd = new_dest_dir.deep_view();
            // the mirrored chain is clear of files, so the creation succeeds
            assert forall|k: int| 1 <= k <= nd.len() implies !fs_a.has_file(
                #[trigger] nd.subrange(0, k),
            ) by {
                let q = nd.subrange(0, k);
                if fs_a.has_file(q) {
                    if k <= d_v.len() {
                        assert(is_prefix(q, d_v));
                        if is_prefix(d_v, q) {
                            // q == d_v: a file below the destination root
                            let j = choose|j: Seq<Seq<char>>|
                                #[trigger] processed.contains(j) && (q == job_target(s_v, d_v, j)
                                    || q == job_copy_target(s_v, d_v, j));
                            assert(q.len() > d_v.len());
                        } else {
                            assert(fs0.has_file(q));
                        }
                    } else {
                        assert(is_prefix(d_v, q) && q.len() > d_v.len());
                        let j = choose|j: Seq<Seq<char>>|
                            #[trigger] processed.contains(j) && (q == job_target(s_v, d_v, j) || q
                                == job_copy_target(s_v, d_v, j));
                        assert(jobs0.contains(j));
                        assert(fs0.visible_file_under(s_v, j) && fs0.visible_file_under(s_v, fv));
                        assert(is_prefix(q, job_dest_dir(s_v, d_v, fv)));
                    }
                }
            }
            assert(created);
            // the invariant survives: files untouched, new directories lie on
            // the mirrored chain
            assert forall|q: Seq<Seq<char>>|
                q.len() > 0 && #[trigger] fs.has_dir(q) implies fs0.has_dir(q) || is_prefix(
                q,
                d_v,
            ) || (is_prefix(d_v, q) && exists|k: Seq<Seq<char>>|
                #[trigger] jobs0.contains(k) && is_prefix(q, job_dest_dir(s_v, d_v, k))) by {
                if !fs_a.has_dir(q) {
                    assert(is_prefix(q, new_dest_dir.deep_view()));
                    if q.len() > d_v.len() {
                        assert(is_prefix(d_v, q)) by {
                            assert(forall|i: int|
                                0 <= i < d_v.len() ==> #[trigger] d_v[i] == job_dest_dir(
                                    s_v,
                                    d_v,
                                    fv,
                                )[i]);
                        }
                        assert(jobs0.contains(fv) && is_prefix(q, job_dest_dir(s_v, d_v, fv)));
                    } else {
                        assert(is_prefix(q, d_v)) by {
                            assert(forall|i: int|
                                0 <= i < q.len() ==> #[trigger] q[i] == job_dest_dir(
                                    s_v,
                                    d_v,
                                    fv,
                                )[i]);
                        }
                    }
                }
            }
            lemma_dest_stems_unchanged(fs_a, *fs, d_v);
            assert(drain_inv(fs0, *fs, s_v, d_v, factor, to_delete_source, jobs0, processed));
        }
    }
    if !created {
        // a file stands where a directory must go: give the job up
        return;
    }
    let mut comp = Compressor::new(clone_path(file), new_dest_dir);
    comp.set_factor(factor);
    comp.set_delete_source(to_delete_source);
    proof {
        assert(comp.source_path.deep_view() == fv);
        assert(comp.dest_path.deep_view() == job_dest_dir(s_v, d_v, fv));
        assert(comp.spec_target() == job_target(s_v, d_v, fv));
        assert(comp.spec_copy_target() == job_copy_target(s_v, d_v, fv));
    }
    let ghost fs_b = *fs;
    let ghost outcome = comp.spec_outcome(fs_b);
    proof {
        if mc {
            // pin the branch conditions of the outcome
            assert(fs_b.has_file(fv) && fs_b.file_data(fv) == fs0.file_data(fv));
            assert(fs_b.has_dir(comp.dest_path.deep_view()));
            assert(!fs_b.has_dir(comp.spec_copy_target())) by {
                let ct = job_copy_target(s_v, d_v, fv);
                if fs_b.has_dir(ct) {
                    assert(ct.len() == job_dest_dir(s_v, d_v, fv).len() + 1);
                    assert(ct.len() > d_v.len()) by {
                        assert(job_dest_dir(s_v, d_v, fv).len() >= d_v.len());
                    }
                    assert(!fs0.has_dir(ct)) by {
                        assert(is_prefix(d_v, ct)) by {
                            assert(forall|i: int|
                                0 <= i < d_v.len() ==> #[trigger] d_v[i] == ct[i]);
                        }
                    }
                    assert(!is_prefix(ct, d_v));
                    let k = choose|k: Seq<Seq<char>>|
                        #[trigger] jobs0.contains(k) && is_prefix(ct, job_dest_dir(s_v, d_v, k));
                    assert(fs0.visible_file_under(s_v, k) && fs0.visible_file_under(s_v, fv));
                }
            }
            assert(!fs_b.has_dir(comp.spec_target())) by {
                let t = job_target(s_v, d_v, fv);
                if fs_b.has_dir(t) {
                    assert(t.len() == job_dest_dir(s_v, d_v, fv).len() + 1);
                    assert(t.len() > d_v.len()) by {
                        assert(job_dest_dir(s_v, d_v, fv).len() >= d_v.len());
                    }
                    assert(!fs0.has_dir(t)) by {
                        assert(is_prefix(d_v, t)) by {
                            assert(forall|i: int| 0 <= i < d_v.len() ==> #[trigger] d_v[i] == t[i]);
                        }
                    }
                    assert(!is_prefix(t, d_v));
                    let k = choose|k: Seq<Seq<char>>|
                        #[trigger] jobs0.contains(k) && is_prefix(t, job_dest_dir(s_v, d_v, k));
                    assert(fs0.visible_file_under(s_v, k) && fs0.visible_file_under(s_v, fv));
                }
            }
            assert(is_prefix(d_v, comp.spec_target()) && comp.spec_target().len() > d_v.len()) by {
                assert(forall|i: int|
                    0 <= i < d_v.len() ==> #[trigger] d_v[i] == job_target(s_v, d_v, fv)[i]);
                assert(job_dest_dir(s_v, d_v, fv).len() >= d_v.len());
            }
            assert(is_prefix(d_v, comp.spec_copy_target()) && comp.spec_copy_target().len()
                > d_v.len()) by {
                assert(forall|i: int|
                    0 <= i < d_v.len() ==> #[trigger] d_v[i] == job_copy_target(s_v, d_v, fv)[i]);
                assert(job_dest_dir(s_v, d_v, fv).len() >= d_v.len());
            }
        }
        lemma_jpg_name_stem(fv.last());
    }
    let res = comp.compress_to_jpg(fs);
    proof {
        if mc {
            let t = job_target(s_v, d_v, fv);
            let ct = job_copy_target(s_v, d_v, fv);
            assert(t.last() == jpg_name(fv.last()) && ct.last() == fv.last());
            assert(job_writes(fs0, fv, factor) == (spec_compress_bytes(
                fs_b.file_data(fv),
                factor.spec_quality_points(),
                factor.size_ratio as nat,
            ) != Result::<Seq<u8>, CompressError>::Err(CompressError::Encode)));
            lemma_stems_of_written_insert(fs0, processed, factor, fv);
            match outcome {
                Result::Ok(_) => {
                    // output written at the target; the source possibly gone
                    assert(job_writes(fs0, fv, factor));
                    let rm: Option<Seq<Seq<char>>> = if to_delete_source && fv != t {
                        Some(fv)
                    } else {
                        None
                    };
                    lemma_dest_stems_after_write(fs_b, *fs, d_v, t, rm);
                    assert(stem_of(t.last()) == stem_of(fv.last()));
                    assert(dest_stems(*fs, d_v) == stems_of_written(fs0, processed2, factor));
                },
                Result::Err(CompressError::UnsupportedFormat) => {
                    assert(job_writes(fs0, fv, factor));
                    lemma_dest_stems_after_write(
                        fs_b,
                        *fs,
                        d_v,
                        ct,
                        None::<Seq<Seq<char>>>,
                    );
                    assert(stem_of(ct.last()) == stem_of(fv.last()));
                    assert(dest_stems(*fs, d_v) == stems_of_written(fs0, processed2, factor));
                },
                Result::Err(CompressError::AlreadyExists) => {
                    assert(*fs == fs_b);
                    lemma_dest_stems_unchanged(fs_b, *fs, d_v);
                    if job_writes(fs0, fv, factor) {
                        // the target already stands below the destination, so
                        // its stem is already counted
                        assert(fs_b.has_file(t));
                        assert(fs_b.visible_file_under(d_v, t));
                        assert(dest_stems(fs_b, d_v).contains(stem_of(fv.last())));
                        assert(dest_stems(*fs, d_v) =~= stems_of_written(fs0, processed2, factor));
                    }
                    assert(dest_stems(*fs, d_v) == stems_of_written(fs0, processed2, factor));
                },
                Result::Err(CompressError::Encode) => {
                    assert(*fs == fs_b);
                    assert(!job_writes(fs0, fv, factor));
                    assert(dest_stems(*fs, d_v) == stems_of_written(fs0, processed2, factor));
                },
                Result::Err(CompressError::Io) => {
                    assert(false);
                },
            }
            // the remaining invariant pieces
            assert forall|q: Seq<Seq<char>>|
                is_prefix(d_v, q) && #[trigger] fs.has_file(q) implies exists|j: Seq<Seq<char>>|
                #[trigger] processed2.contains(j) && (q == job_target(s_v, d_v, j) || q
                    == job_copy_target(s_v, d_v, j)) by {
                if fs_b.has_file(q) {
                    let j = choose|j: Seq<Seq<char>>|
                        #[trigger] processed.contains(j) && (q == job_target(s_v, d_v, j) || q
                            == job_copy_target(s_v, d_v, j));
                    assert(processed2.contains(j));
                } else {
                    assert(q == t || q == ct);
                    assert(processed2.contains(fv));
                }
            }
            assert(drain_inv(fs0, *fs, s_v, d_v, factor, to_delete_source, jobs0, processed2));
        }
    }
    if let Some(s) = sender {
        match res {
            Ok(p) => {
                let name = file_name(&p);
                let prefix = <String as vstd::string::StringExecFns>::from_str(
                    "Compress complete! File: ",
                );
                send_message(s, prefix.concat(name.as_str()));
            },
            Err(e) => {
                send_message(s, e.message());
            },
        }
    }
}

/// Work the queue dry: pop jobs until the queue reports empty, mirror
/// each job's parent chain below `dest`, compress the job there, and
/// report each outcome to the observer when one is present.  Every
/// queued job is processed exactly once, and the files that appear below
/// `dest` are exactly the outputs of the jobs that write — whatever
/// order the queue yields them in.
#[verifier::rlimit(100)]
fn drain_queue(
    queue: &mut JobQueue,
    fs: &mut Fs,
    root: &Vec<String>,
    dest: &Vec<String>,
    to_delete_source: bool,
    factor: Factor,
    sender: Option<&Sender<String>>,
)
    requires
        old(fs).wf(),
        factor.valid(),
        forall|j: Seq<Seq<char>>|
            #[trigger] old(queue).jobs().contains(j) ==> old(fs).visible_file_under(
                root.deep_view(),
                j,
            ),
        forall|j: Seq<Seq<char>>| old(queue).jobs().count(j) <= 1,
    ensures
        final(fs).wf(),
        final(queue).jobs() == Multiset::<Seq<Seq<char>>>::empty(),
        mirror_clear(*old(fs), root.deep_view(), dest.deep_view()) ==> {
            &&& dest_stems(*final(fs), dest.deep_view()) == stems_of_written(
                *old(fs),
                old(queue).jobs(),
                factor,
            )
            &&& forall|q: Seq<Seq<char>>|
                #![trigger final(fs).has_file(q)]
                !is_prefix(dest.deep_view(), q) && final(fs).has_file(q) ==> old(fs).has_file(
                    q,
                ) && final(fs).file_data(q) == old(fs).file_data(q)
            &&& forall|q: Seq<Seq<char>>|
                #![trigger old(fs).has_file(q)]
                !is_prefix(dest.deep_view(), q) && old(fs).has_file(q) && !old(
                    queue,
                ).jobs().contains(q) ==> final(fs).has_file(q) && final(fs).file_data(q)
                    == old(fs).file_data(q)
            &&& (!to_delete_source ==> forall|q: Seq<Seq<char>>|
                #![trigger old(fs).has_file(q)]
                !is_prefix(dest.deep_view(), q) && old(fs).has_file(q) ==> final(fs).has_file(
                    q,
                ) && final(fs).file_data(q) == old(fs).file_data(q))
        },
{
    let ghost fs0 = *fs;
    let ghost jobs0 = old(queue).jobs();
    let ghost s_v = root.deep_view();
    let ghost d_v = dest.deep_view();
    let ghost mut processed: Multiset<Seq<Seq<char>>> = Multiset::empty();
    let ghost mc = mirror_clear(fs0, s_v, d_v);
    proof {
        assert(processed.add(queue.jobs()) =~= jobs0);
        if mc {
            assert forall|s: Seq<char>| #[trigger] dest_stems(*fs, d_v).contains(s)
                implies stems_of_written(fs0, processed, factor).contains(s) by {
                let p = choose|p: Seq<Seq<char>>|
                    #[trigger] fs0.visible_file_under(d_v, p) && s == stem_of(p.last());
                assert(fs0.has_file(p) && is_prefix(d_v, p) && p.len() > d_v.len());
                assert(false);
            }
            assert forall|s: Seq<char>| #[trigger] stems_of_written(
                fs0,
                processed,
                factor,
            ).contains(s) implies dest_stems(*fs, d_v).contains(s) by {
                let j = choose|j: Seq<Seq<char>>|
                    #[trigger] processed.contains(j) && job_writes(fs0, j, factor) && s
                        == stem_of(j.last());
                assert(false);
            }
            assert(dest_stems(*fs, d_v) =~= stems_of_written(fs0, processed, factor));
            assert(drain_inv(fs0, *fs, s_v, d_v, factor, to_delete_source, jobs0, processed));
        }
    }
    loop
        invariant_except_break
            factor.valid(),
            fs0.wf(),
            s_v == root.deep_view(),
            d_v == dest.deep_view(),
            forall|j: Seq<Seq<char>>|
                #[trigger] jobs0.contains(j) ==> fs0.visible_file_under(s_v, j),
            forall|j: Seq<Seq<char>>| jobs0.count(j) <= 1,
            processed.add(queue.jobs()) == jobs0,
            fs.wf(),
            mc == mirror_clear(fs0, s_v, d_v),
            mc ==> drain_inv(fs0, *fs, s_v, d_v, factor, to_delete_source, jobs0, processed),
        ensures
            queue.jobs() == Multiset::<Seq<Seq<char>>>::empty(),
            processed == jobs0,
            fs.wf(),
            mc ==> drain_inv(fs0, *fs, s_v, d_v, factor, to_delete_source, jobs0, processed),
        decreases queue.jobs().len(),
    {
        let popped = queue.pop();
        match popped {
            None => {
                proof {
                    assert(processed =~= jobs0);
                }
                break;
            },
            Some(file) => {
                let ghost fv = file.deep_view();
                proof {
                    assert(jobs0.count(fv) >= 1) by {
                        assert(processed.add(queue.jobs().insert(fv)) == jobs0);
                        assert(jobs0.count(fv) >= queue.jobs().insert(fv).count(fv));
                    }
                    assert(jobs0.contains(fv));
                    assert(processed.count(fv) == 0) by {
                        assert(processed.add(queue.jobs().insert(fv)) == jobs0);
                        assert(jobs0.count(fv) <= 1);
                    }
                    assert(fs0.visible_file_under(s_v, fv));
                }
                process_job(
                    fs,
                    &file,
                    root,
                    dest,
                    to_delete_source,
                    factor,
                    sender,
                    Ghost(fs0),
                    Ghost(jobs0),
                    Ghost(processed),
                );
                proof {
                    processed = processed.insert(fv);
                    assert(processed.add(queue.jobs()) =~= jobs0);
                }
            },
        }
    }
}


/// One worker without an observer: drains the queue until it reports
/// empty, compressing every job it takes.
fn process(
    queue: &mut JobQueue,
    fs: &mut Fs,
    root: &Vec<String>,
    dest: &Vec<String>,
    to_delete_source: bool,
    factor: Factor,
)
    requires
        old(fs).wf(),
        factor.valid(),
        forall|j: Seq<Seq<char>>|
            #[trigger] old(queue).jobs().contains(j) ==> old(fs).visible_file_under(
                root.deep_view(),
                j,
            ),
        forall|j: Seq<Seq<char>>| old(queue).jobs().count(j) <= 1,
    ensures
        final(fs).wf(),
        final(queue).jobs() == Multiset::<Seq<Seq<char>>>::empty(),
        mirror_clear(*old(fs), root.deep_view(), dest.deep_view()) ==> {
            &&& dest_stems(*final(fs), dest.deep_view()) == stems_of_written(
                *old(fs),
                old(queue).jobs(),
                factor,
            )
            &&& forall|q: Seq<Seq<char>>|
                #![trigger final(fs).has_file(q)]
                !is_prefix(dest.deep_view(), q) && final(fs).has_file(q) ==> old(fs).has_file(
                    q,
                ) && final(fs).file_data(q) == old(fs).file_data(q)
            &&& forall|q: Seq<Seq<char>>|
                #![trigger old(fs).has_file(q)]
                !is_prefix(dest.deep_view(), q) && old(fs).has_file(q) && !old(
                    queue,
                ).jobs().contains(q) ==> final(fs).has_file(q) && final(fs).file_data(q)
                    == old(fs).file_data(q)
            &&& (!to_delete_source ==> forall|q: Seq<Seq<char>>|
                #![trigger old(fs).has_file(q)]
                !is_prefix(dest.deep_view(), q) && old(fs).has_file(q) ==> final(fs).has_file(
                    q,
                ) && final(fs).file_data(q) == old(fs).file_data(q))
        },
{
    drain_queue(queue, fs, root, dest, to_delete_source, factor, None);
}

/// One worker with an observer: as `process`, and each job's outcome is
/// reported through the sender.
fn process_with_sender(
    queue: &mut JobQueue,
    fs: &mut Fs,
    root: &Vec<String>,
    dest: &Vec<String>,
    to_delete_source: bool,
    factor: Factor,
    sender: &Sender<String>,
)
    requires
        old(fs).wf(),
        factor.valid(),
        forall|j: Seq<Seq<char>>|
            #[trigger] old(queue).jobs().contains(j) ==> old(fs).visible_file_under(
                root.deep_view(),
                j,
            ),
        forall|j: Seq<Seq<char>>| old(queue).jobs().count(j) <= 1,
    ensures
        final(fs).wf(),
        final(queue).jobs() == Multiset::<Seq<Seq<char>>>::empty(),
        mirror_clear(*old(fs), root.deep_view(), dest.deep_view()) ==> {
            &&& dest_stems(*final(fs), dest.deep_view()) == stems_of_written(
                *old(fs),
                old(queue).jobs(),
                factor,
            )
            &&& forall|q: Seq<Seq<char>>|
                #![trigger final(fs).has_file(q)]
                !is_prefix(dest.deep_view(), q) && final(fs).has_file(q) ==> old(fs).has_file(
                    q,
                ) && final(fs).file_data(q) == old(fs).file_data(q)
            &&& forall|q: Seq<Seq<char>>|
                #![trigger old(fs).has_file(q)]
                !is_prefix(dest.deep_view(), q) && old(fs).has_file(q) && !old(
                    queue,
                ).jobs().contains(q) ==> final(fs).has_file(q) && final(fs).file_data(q)
                    == old(fs).file_data(q)
            &&& (!to_delete_source ==> forall|q: Seq<Seq<char>>|
                #![trigger old(fs).has_file(q)]
                !is_prefix(dest.deep_view(), q) && old(fs).has_file(q) ==> final(fs).has_file(
                    q,
                ) && final(fs).file_data(q) == old(fs).file_data(q))
        },
{
    drain_queue(queue, fs, root, dest, to_delete_source, factor, Some(sender));
}

impl FolderCompressor {
    /// Run the whole pipeline over the tree: crawl the source root, fill
    /// the work queue, drain it when at least one worker is configured,
    /// and finally prune the source tree when deletion is on.  A crawl
    /// failure aborts the run before anything happens; a prune failure is
    /// reported but never escalates.
    ///
    /// When the destination tree starts clear of the source tree
    /// (`mirror_clear`) and at least one worker runs, the stems below the
    /// destination root afterwards are exactly the stems of the visible
    /// source files whose processing writes output — a function of the
    /// starting tree, the roots and the factor alone, and so the same for
    /// every thread count of one or more.
    #[verifier::rlimit(100)]
    pub fn compress(self, fs: &mut Fs) -> (r: Result<(), CrawlError>)
        requires
            old(fs).wf(),
            self.factor.valid(),
        ensures
            final(fs).wf(),
            r is Ok <==> old(fs).has_dir(self.source_path.deep_view()),
            r is Err ==> *final(fs) == *old(fs),
            r is Ok && self.thread_count >= 1 && mirror_clear(
                *old(fs),
                self.source_path.deep_view(),
                self.dest_path.deep_view(),
            ) ==> dest_stems(*final(fs), self.dest_path.deep_view()) == written_stems(
                *old(fs),
                self.source_path.deep_view(),
                self.factor,
            ),
            r is Ok && self.thread_count == 0 && mirror_clear(
                *old(fs),
                self.source_path.deep_view(),
                self.dest_path.deep_view(),
            ) ==> dest_stems(*final(fs), self.dest_path.deep_view()) == dest_stems(
                *old(fs),
                self.dest_path.deep_view(),
            ),
            r is Ok && self.thread_count >= 1 && mirror_clear(
                *old(fs),
                self.source_path.deep_view(),
                self.dest_path.deep_view(),
            ) && !self.delete_source ==> forall|q: Seq<Seq<char>>|
                #![trigger final(fs).has_file(q)]
                #![trigger old(fs).has_file(q)]
                !is_prefix(self.dest_path.deep_view(), q) ==> final(fs).has_file(q) == old(
                    fs,
                ).has_file(q) && (old(fs).has_file(q) ==> final(fs).file_data(q) == old(
                    fs,
                ).file_data(q)),
    {
        let ghost s_v = self.source_path.deep_view();
        let ghost d_v = self.dest_path.deep_view();
        let ghost fs0 = *fs;
        let to_comp_file_list = match get_file_list(fs, &self.source_path) {
            Ok(l) => l,
            Err(e) => {
                return Err(e);
            },
        };
        let count_text = usize_to_string(to_comp_file_list.len());
        let prefix = <String as vstd::string::StringExecFns>::from_str("Total file count: ");
        try_send_message(&self.sender, prefix.concat(count_text.as_str()));
        let mut queue = JobQueue::new();
        let mut i: usize = 0;
        while i < to_comp_file_list.len()
            invariant
                i <= to_comp_file_list@.len(),
                queue.jobs() == paths_multiset(to_comp_file_list@.subrange(0, i as int)),
            decreases to_comp_file_list@.len() - i,
        {
            queue.push(clone_path(&to_comp_file_list[i]));
            proof {
                assert(to_comp_file_list@.subrange(0, i + 1).drop_last()
                    =~= to_comp_file_list@.subrange(0, i as int));
                assert(to_comp_file_list@.subrange(0, i + 1).last()
                    == to_comp_file_list@[i as int]);
            }
            i += 1;
        }
        let ghost jobs0 = queue.jobs();
        proof {
            assert(to_comp_file_list@.subrange(0, to_comp_file_list@.len() as int)
                =~= to_comp_file_list@);
            lemma_paths_multiset_count(to_comp_file_list@);
            assert forall|j: Seq<Seq<char>>| #[trigger] jobs0.contains(j)
                implies fs0.visible_file_under(s_v, j) by {
                lemma_paths_multiset_contains(to_comp_file_list@, j);
                let k = choose|k: int|
                    0 <= k < to_comp_file_list@.len() && to_comp_file_list@[k].deep_view()
                        == j;
                assert(fs0.visible_file_under(s_v, to_comp_file_list@[k].deep_view()));
            }
        }
        if self.thread_count >= 1 {
            match self.sender {
                Some(ref s) => {
                    process_with_sender(
                        &mut queue,
                        fs,
                        &self.source_path,
                        &self.dest_path,
                        self.delete_source,
                        self.factor,
                        s,
                    );
                },
                None => {
                    process(
                        &mut queue,
                        fs,
                        &self.source_path,
                        &self.dest_path,
                        self.delete_source,
                        self.factor,
                    );
                },
            }
            proof {
                if mirror_clear(fs0, s_v, d_v) {
                    assert(stems_of_written(fs0, jobs0, self.factor) =~= written_stems(
                        fs0,
                        s_v,
                        self.factor,
                    )) by {
                        assert forall|s: Seq<char>| #[trigger] stems_of_written(
                            fs0,
                            jobs0,
                            self.factor,
                        ).contains(s) implies written_stems(fs0, s_v, self.factor).contains(
                            s,
                        ) by {
                            let j = choose|j: Seq<Seq<char>>|
                                #[trigger] jobs0.contains(j) && job_writes(
                                    fs0,
                                    j,
                                    self.factor,
                                ) && s == stem_of(j.last());
                            assert(fs0.visible_file_under(s_v, j));
                        }
                        assert forall|s: Seq<char>| #[trigger] written_stems(
                            fs0,
                            s_v,
                            self.factor,
                        ).contains(s) implies stems_of_written(fs0, jobs0, self.factor).contains(
                            s,
                        ) by {
                            let p = choose|p: Seq<Seq<char>>|
                                #[trigger] fs0.visible_file_under(s_v, p) && job_writes(
                                    fs0,
                                    p,
                                    self.factor,
                                ) && s == stem_of(p.last());
                            crate::crawler::lemma_file_list_complete(
                                fs0,
                                s_v,
                                to_comp_file_list@,
                                p,
                            );
                            let k = choose|k: int|
                                0 <= k < to_comp_file_list@.len()
                                    && to_comp_file_list@[k].deep_view() == p;
                            lemma_paths_multiset_contains(to_comp_file_list@, p);
                            assert(jobs0.contains(p));
                        }
                    }
                }
            }
        }
        let done = <String as vstd::string::StringExecFns>::from_str("Compress complete!");
        try_send_message(&self.sender, done);
        let ghost fs_mid = *fs;
        if self.delete_source {
            match delete_recursive(fs, &self.source_path) {
                Ok(_) => {
                    let m = <String as vstd::string::StringExecFns>::from_str(
                        "Delete source directories complete!",
                    );
                    try_send_message(&self.sender, m);
                },
                Err(_) => {
                    let m = <String as vstd::string::StringExecFns>::from_str(
                        "Cannot delete source directories!",
                    );
                    try_send_message(&self.sender, m);
                },
            }
            proof {
                if mirror_clear(fs0, s_v, d_v) {
                    assert forall|q: Seq<Seq<char>>| is_prefix(d_v, q) implies #[trigger] fs.has_file(
                        q,
                    ) == fs_mid.has_file(q) by {
                        if is_prefix(s_v, q) {
                            lemma_prefixes_comparable(s_v, d_v, q);
                        }
                    }
                    lemma_dest_stems_unchanged(fs_mid, *fs, d_v);
                }
            }
        }
        Ok(())
    }
}

/// Law: which stems a run writes below the destination depends only on
/// the starting tree, the source root and the factor — the thread count
/// never enters.  With `compress`'s contract this says that two runs
/// over the same starting tree with any two worker counts of one or
/// more produce destination trees with identical stem sets.
pub proof fn lemma_thread_count_immaterial(fs: Fs, a: FolderCompressor, b: FolderCompressor)
    requires
        a.thread_count >= 1,
        b.thread_count >= 1,
        a.source_path.deep_view() == b.source_path.deep_view(),
        a.factor == b.factor,
    ensures
        written_stems(fs, a.source_path.deep_view(), a.factor) == written_stems(
            fs,
            b.source_path.deep_view(),
            b.factor,
        ),
{
}

/// Report progress when an observer is present; send failures are
/// swallowed, as the observer may only watch and never steer.
pub fn try_send_message(sender: &Option<Sender<String>>, message: String) {
    match sender {
        Some(s) => send_message(s, message),
        None => (),
    }
}

/// Report progress to the observer; a send failure is swallowed.
fn send_message(sender: &Sender<String>, message: String) {
    let _delivered = send_string(sender, message);
}

} // verus!
