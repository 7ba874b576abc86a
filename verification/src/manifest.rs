//! The data model of one synchronisation round: file descriptors, file
//! payloads, the two message shapes, and the sender's manifest ordering.

use crate::path::copy_bytes;
use crate::path::copy_path;
use crate::path::FilePath;
use vstd::prelude::*;

verus! {

/// The mathematical value of a [`Directory`]: one file's state.
#[verifier::ext_equal]
pub ghost struct DirectoryView {
    pub file_path: Seq<Seq<u8>>,
    pub modified: u64,
    pub size: u64,
}

/// One file's descriptor: the path it was found at, its last-modified time
/// (an uninterpreted tick count) and its byte size.  Produced fresh on every
/// manifest build and never persisted.
#[derive(Debug, PartialEq)]
pub struct Directory {
    pub file_path: FilePath,
    pub modified: u64,
    pub size: u64,
}

impl View for Directory {
    type V = DirectoryView;

    open spec fn view(&self) -> DirectoryView {
        DirectoryView { file_path: self.file_path@, modified: self.modified, size: self.size }
    }
}

impl DeepView for Directory {
    type V = DirectoryView;

    open spec fn deep_view(&self) -> DirectoryView {
        self.view()
    }
}

impl Directory {
    pub fn new(file_path: FilePath, modified: u64, size: u64) -> (r: Self)
        ensures
            r@ == (DirectoryView { file_path: file_path@, modified, size }),
    {
        Directory { file_path, modified, size }
    }
}

impl Clone for Directory {
    fn clone(&self) -> (r: Self)
        ensures
            r@ == self@,
    {
        Directory {
            file_path: copy_path(&self.file_path),
            modified: self.modified,
            size: self.size,
        }
    }
}

/// The mathematical value of a [`FileData`].
#[verifier::ext_equal]
pub ghost struct FileDataView {
    pub dir: Seq<Seq<u8>>,
    pub contents: Seq<u8>,
}

/// One file's full content in transit, paired with the path it was read
/// from on the sender.
#[derive(Debug, PartialEq)]
pub struct FileData {
    pub dir: FilePath,
    pub contents: Vec<u8>,
}

impl View for FileData {
    type V = FileDataView;

    open spec fn view(&self) -> FileDataView {
        FileDataView { dir: self.dir@, contents: self.contents@ }
    }
}

impl DeepView for FileData {
    type V = FileDataView;

    open spec fn deep_view(&self) -> FileDataView {
        self.view()
    }
}

impl FileData {
    pub fn new(dir: FilePath, contents: Vec<u8>) -> (r: Self)
        ensures
            r@ == (FileDataView { dir: dir@, contents: contents@ }),
    {
        FileData { dir, contents }
    }
}

impl Clone for FileData {
    fn clone(&self) -> (r: Self)
        ensures
            r@ == self@,
    {
        FileData { dir: copy_path(&self.dir), contents: copy_bytes(&self.contents) }
    }
}

/// The mathematical value of a [`Data`] message.
#[verifier::ext_equal]
pub ghost enum DataView {
    WebMessage { directories: Seq<DirectoryView> },
    JsonFileMessage { file: FileDataView },
}

/// A message of the synchronisation protocol: either a manifest (a list of
/// descriptors) or one file's payload.  On the wire the two shapes are told
/// apart structurally, by the leading field name, not by a discriminant.
#[derive(Debug, PartialEq)]
pub enum Data {
    WebMessage { directories: Vec<Directory> },
    JsonFileMessage { file: FileData },
}

impl View for Data {
    type V = DataView;

    open spec fn view(&self) -> DataView {
        match self {
            Data::WebMessage { directories } => DataView::WebMessage {
                directories: directories.deep_view(),
            },
            Data::JsonFileMessage { file } => DataView::JsonFileMessage { file: file@ },
        }
    }
}

impl DeepView for Data {
    type V = DataView;

    open spec fn deep_view(&self) -> DataView {
        self.view()
    }
}

/// The manifest's descriptors are indexed by the descriptors' own views.
pub broadcast proof fn lemma_dirs_deep_view_index(v: Vec<Directory>, i: int)
    requires
        0 <= i < v@.len(),
    ensures
        #[trigger] v.deep_view()[i] == v@[i]@,
{
}

/// Whether a manifest is ordered most-recently-modified first.
pub open spec fn sorted_by_modified_desc(s: Seq<Directory>) -> bool {
    forall|i: int, j: int| 0 <= i < j < s.len() ==> s[i]@.modified >= s[j]@.modified
}

/// Reorders a manifest most-recently-modified first; the descriptors
/// themselves are kept, as a multiset.
pub fn sort_by_modified_desc(v: Vec<Directory>) -> (r: Vec<Directory>)
    ensures
        sorted_by_modified_desc(r@),
        r@.to_multiset() == v@.to_multiset(),
{
    broadcast use vstd::seq_lib::group_to_multiset_ensures;

    let mut src = v;
    let mut out: Vec<Directory> = Vec::new();
    proof {
        assert(out@.to_multiset().add(src@.to_multiset()) =~= v@.to_multiset());
    }
    while src.len() > 0
        invariant
            out@.to_multiset().add(src@.to_multiset()) == v@.to_multiset(),
            sorted_by_modified_desc(out@),
            forall|i: int, j: int|
                0 <= i < out@.len() && 0 <= j < src@.len() ==> out@[i]@.modified
                    >= src@[j]@.modified,
        decreases src.len(),
    {
        let mut best: usize = 0;
        let mut idx: usize = 1;
        while idx < src.len()
            invariant
                src.len() > 0,
                best < idx <= src.len(),
                forall|m: int| 0 <= m < idx ==> src@[best as int]@.modified >= src@[m]@.modified,
            decreases src.len() - idx,
        {
            if src[idx].modified > src[best].modified {
                best = idx;
            }
            idx = idx + 1;
        }
        let ghost old_out = out@;
        let ghost old_src = src@;
        let d = src.remove(best);
        out.push(d);
        proof {
            broadcast use vstd::seq_lib::group_to_multiset_ensures;

            assert(old_src.contains(old_src[best as int]));
            assert(old_src.to_multiset().count(d) > 0);
            assert(out@.to_multiset().add(src@.to_multiset()) =~= v@.to_multiset());
            assert forall|i: int, j: int|
                0 <= i < j < out@.len() implies out@[i]@.modified >= out@[j]@.modified by {
                if j < out@.len() - 1 {
                    assert(old_out[i]@.modified >= old_out[j]@.modified);
                }
            }
        }
    }
    out
}


/// One node of a directory tree as the filesystem walk sees it: a regular
/// file with its descriptor, or a directory with its entries.  The
/// surrounding process reads the real tree into this shape.
pub enum FsNode {
    File { info: Directory },
    Dir { entries: Vec<FsNode> },
}

/// The descriptors of every regular file anywhere under a node, one per
/// file, in entry order.
pub open spec fn node_files(n: FsNode) -> Seq<DirectoryView>
    decreases n,
{
    match n {
        FsNode::File { info } => seq![info@],
        FsNode::Dir { entries } => entries_files(entries@),
    }
}

pub open spec fn entries_files(s: Seq<FsNode>) -> Seq<DirectoryView>
    decreases s,
{
    if s.len() == 0 {
        Seq::empty()
    } else {
        node_files(s[0]) + entries_files(s.skip(1))
    }
}

/// What a manifest build of `n` must list: nothing when `n` is not a
/// directory (by design not an error), else every file in the subtree.
pub open spec fn walk_spec(n: FsNode) -> Seq<DirectoryView> {
    match n {
        FsNode::File { info } => Seq::empty(),
        FsNode::Dir { entries } => entries_files(entries@),
    }
}

pub proof fn lemma_entries_files_push(s: Seq<FsNode>, x: FsNode)
    ensures
        entries_files(s.push(x)) == entries_files(s) + node_files(x),
    decreases s.len(),
{
    if s.len() == 0 {
        assert(s.push(x)[0] == x);
        assert(s.push(x).skip(1) =~= s);
        assert(entries_files(s.push(x)) == node_files(x) + entries_files(s));
        assert(entries_files(s) == Seq::<DirectoryView>::empty());
        assert(entries_files(s.push(x)) =~= entries_files(s) + node_files(x));
    } else {
        assert(s.push(x).skip(1) =~= s.skip(1).push(x));
        lemma_entries_files_push(s.skip(1), x);
        assert(s.push(x)[0] == s[0]);
        assert(entries_files(s.push(x)) == node_files(s[0]) + entries_files(s.skip(1).push(x)));
        assert(entries_files(s) == node_files(s[0]) + entries_files(s.skip(1)));
        assert(entries_files(s.push(x)) =~= entries_files(s) + node_files(x));
    }
}

/// Builds the manifest of a directory tree: one descriptor per regular file
/// anywhere in the subtree, in entry order.  On a node that is not a
/// directory the manifest is empty; by design that is not an error.
pub fn walk_dir(dir: &FsNode) -> (r: Vec<Directory>)
    ensures
        r.deep_view() == walk_spec(*dir),
    decreases *dir,
{
    let mut res: Vec<Directory> = Vec::new();
    match dir {
        FsNode::File { info: _ } => {
            proof {
                assert(res.deep_view() =~= walk_spec(*dir));
            }
        },
        FsNode::Dir { entries } => {
            let mut i: usize = 0;
            proof {
                assert(res.deep_view() =~= entries_files(entries@.take(0)));
            }
            while i < entries.len()
                invariant
                    i <= entries.len(),
                    dir is Dir,
                    *entries == (*dir)->Dir_entries,
                    res.deep_view() == entries_files(entries@.take(i as int)),
                decreases entries.len() - i,
            {
                let ghost old_res = res.deep_view();
                match &entries[i] {
                    FsNode::File { info } => {
                        res.push(info.clone());
                        proof {
                            assert(res.deep_view() =~= old_res + node_files(entries@[i as int]));
                        }
                    },
                    FsNode::Dir { entries: _ } => {
                        proof {
                            broadcast use vstd::std_specs::vec::axiom_vec_decreases_to_view;

                            assert(decreases_to!(*dir => (*dir)->Dir_entries));
                            assert(decreases_to!(*entries => entries@));
                            assert(decreases_to!(entries@ => entries@[i as int]));
                        }
                        let mut sub = walk_dir(&entries[i]);
                        let ghost subv = sub.deep_view();
                        res.append(&mut sub);
                        proof {
                            assert forall|q: int|
                                0 <= q < res@.len() implies res.deep_view()[q] == (old_res
                                + subv)[q] by {
                                lemma_dirs_deep_view_index(res, q);
                                if q < old_res.len() {
                                    assert(res@[q]@ == old_res[q]);
                                } else {
                                    assert(res@[q]@ == subv[q - old_res.len()]);
                                }
                            }
                            assert(res.deep_view() =~= old_res + subv);
                            assert(subv == node_files(entries@[i as int]));
                        }
                    },
                }
                proof {
                    assert(entries@.take(i + 1) =~= entries@.take(i as int).push(
                        entries@[i as int],
                    ));
                    lemma_entries_files_push(entries@.take(i as int), entries@[i as int]);
                }
                i = i + 1;
            }
            proof {
                assert(entries@.take(entries@.len() as int) =~= entries@);
            }
        },
    }
    res
}

} // verus!
