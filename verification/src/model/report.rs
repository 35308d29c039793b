//! Ranked lists over a tree: its largest directories, the directories with most
//! of one file type, its files.

use vstd::prelude::*;
use vstd::seq_lib::*;

use crate::model::node::{FileNode, Node};
use crate::model::tree::{copy_path, node_extension, FileTree, TreePath};
use crate::ranking::{descending, lemma_map_multiset, lemma_multiset_len, rank_descending, Ranked};
use crate::text::same_text;

verus! {

broadcast use crate::model::node::group_nodes;

/// A directory summary used by the "Largest folders" view.
#[derive(Clone)]
pub struct DirSummary {
    pub path: TreePath,
    pub name: String,
    pub size: u64,
    pub file_count: u32,
    pub dir_count: u32,
}

/// A directory's total for one file extension, used by the "filter by type" view.
#[derive(Clone)]
pub struct ExtDirSummary {
    pub path: TreePath,
    pub name: String,
    pub ext_bytes: u64,
    pub ext_count: u64,
}

/// A file, used by the "All Files" view.
#[derive(Clone)]
pub struct FileSummary {
    pub path: TreePath,
    pub name: String,
    pub size: u64,
}

pub struct DirSummaryView {
    pub path: Seq<usize>,
    pub name: Seq<char>,
    pub size: u64,
    pub file_count: u32,
    pub dir_count: u32,
}

pub struct ExtDirSummaryView {
    pub path: Seq<usize>,
    pub name: Seq<char>,
    pub ext_bytes: u64,
    pub ext_count: u64,
}

pub struct FileSummaryView {
    pub path: Seq<usize>,
    pub name: Seq<char>,
    pub size: u64,
}

impl View for DirSummary {
    type V = DirSummaryView;

    open spec fn view(&self) -> DirSummaryView {
        DirSummaryView {
            path: self.path@,
            name: self.name@,
            size: self.size,
            file_count: self.file_count,
            dir_count: self.dir_count,
        }
    }
}

impl View for ExtDirSummary {
    type V = ExtDirSummaryView;

    open spec fn view(&self) -> ExtDirSummaryView {
        ExtDirSummaryView {
            path: self.path@,
            name: self.name@,
            ext_bytes: self.ext_bytes,
            ext_count: self.ext_count,
        }
    }
}

impl View for FileSummary {
    type V = FileSummaryView;

    open spec fn view(&self) -> FileSummaryView {
        FileSummaryView { path: self.path@, name: self.name@, size: self.size }
    }
}

impl Ranked for DirSummary {
    open spec fn rank(self) -> u64 {
        self.size
    }

    fn rank_of(&self) -> (r: u64) {
        self.size
    }
}

impl Ranked for ExtDirSummary {
    open spec fn rank(self) -> u64 {
        self.ext_bytes
    }

    fn rank_of(&self) -> (r: u64) {
        self.ext_bytes
    }
}

impl Ranked for FileSummary {
    open spec fn rank(self) -> u64 {
        self.size
    }

    fn rank_of(&self) -> (r: u64) {
        self.size
    }
}

pub open spec fn dir_views(v: Seq<DirSummary>) -> Seq<DirSummaryView> {
    v.map_values(|d: DirSummary| d@)
}

pub open spec fn ext_dir_views(v: Seq<ExtDirSummary>) -> Seq<ExtDirSummaryView> {
    v.map_values(|d: ExtDirSummary| d@)
}

pub open spec fn file_views(v: Seq<FileSummary>) -> Seq<FileSummaryView> {
    v.map_values(|d: FileSummary| d@)
}

/// The directories among the children `s` of the node at `prefix` and below
/// them, each before those in it.
pub open spec fn directories(s: Seq<Node>, prefix: Seq<usize>) -> Seq<DirSummaryView>
    decreases s,
{
    if s.len() == 0 {
        Seq::empty()
    } else {
        let c = s.last();
        let path = prefix.push((s.len() - 1) as usize);
        directories(s.drop_last(), prefix) + if c.is_dir {
            seq![
                DirSummaryView {
                    path,
                    name: c.name,
                    size: c.size,
                    file_count: c.file_count,
                    dir_count: c.dir_count,
                },
            ] + directories(c.children, path)
        } else {
            Seq::empty()
        }
    }
}

/// Whether `n` is a file with the extension `ext`. The sentinel stands for files
/// without one.
pub open spec fn matches_extension(n: Node, ext: Seq<char>) -> bool {
    &&& !n.is_dir
    &&& if ext == "(no ext)"@ {
        node_extension(n).len() == 0
    } else {
        node_extension(n) == ext
    }
}

/// The bytes of the matching files among some nodes and below the directories
/// among them.
pub open spec fn matching_bytes(s: Seq<Node>, ext: Seq<char>) -> nat
    decreases s,
{
    if s.len() == 0 {
        0
    } else {
        let c = s.last();
        matching_bytes(s.drop_last(), ext) + if c.is_dir {
            matching_bytes(c.children, ext)
        } else if matches_extension(c, ext) {
            c.size as nat
        } else {
            0
        }
    }
}

/// The number of matching files among some nodes and below the directories among
/// them.
pub open spec fn matching_files(s: Seq<Node>, ext: Seq<char>) -> nat
    decreases s,
{
    if s.len() == 0 {
        0
    } else {
        let c = s.last();
        matching_files(s.drop_last(), ext) + if c.is_dir {
            matching_files(c.children, ext)
        } else if matches_extension(c, ext) {
            1
        } else {
            0
        }
    }
}

/// The directories among the children `s` of the node at `prefix` and below them
/// that have a matching file somewhere in them, each after those in it.
pub open spec fn matching_directories(
    s: Seq<Node>,
    prefix: Seq<usize>,
    ext: Seq<char>,
) -> Seq<ExtDirSummaryView>
    decreases s,
{
    if s.len() == 0 {
        Seq::empty()
    } else {
        let c = s.last();
        let path = prefix.push((s.len() - 1) as usize);
        matching_directories(s.drop_last(), prefix, ext) + if !c.is_dir {
            Seq::empty()
        } else if matching_files(c.children, ext) == 0 {
            matching_directories(c.children, path, ext)
        } else {
            matching_directories(c.children, path, ext).push(
                ExtDirSummaryView {
                    path,
                    name: c.name,
                    ext_bytes: matching_bytes(c.children, ext) as u64,
                    ext_count: matching_files(c.children, ext) as u64,
                },
            )
        }
    }
}

/// The files among the children `s` of the node at `prefix` and below the
/// directories among them.
pub open spec fn files(s: Seq<Node>, prefix: Seq<usize>) -> Seq<FileSummaryView>
    decreases s,
{
    if s.len() == 0 {
        Seq::empty()
    } else {
        let c = s.last();
        let path = prefix.push((s.len() - 1) as usize);
        files(s.drop_last(), prefix) + if c.is_dir {
            files(c.children, path)
        } else {
            seq![FileSummaryView { path, name: c.name, size: c.size }]
        }
    }
}

/// Whether `s` holds the items of `all`, each as often, with no item followed by
/// one of a higher key.
pub open spec fn in_order<V>(s: Seq<V>, all: Seq<V>, key: spec_fn(V) -> u64) -> bool {
    &&& forall|i: int, j: int|
        0 <= i <= j < s.len() ==> key(#[trigger] s[i]) >= key(#[trigger] s[j])
    &&& s.to_multiset() == all.to_multiset()
}

/// Whether `r` is the start of the items of `all` in descending order, as many as
/// there are up to `limit`.
pub open spec fn is_top<V>(r: Seq<V>, all: Seq<V>, key: spec_fn(V) -> u64, limit: nat) -> bool {
    exists|s: Seq<V>| #[trigger]
        in_order(s, all, key) && r == s.take(
            if limit < s.len() {
                limit as int
            } else {
                s.len() as int
            },
        )
}

/// A ranked list up to a limit is as long as it can be, descends, and leaves out
/// nothing that is larger than what it holds.
pub proof fn top_leaves_out_nothing_larger<V>(
    r: Seq<V>,
    all: Seq<V>,
    key: spec_fn(V) -> u64,
    limit: nat,
)
    requires
        is_top(r, all, key, limit),
    ensures
        r.len() == if limit < all.len() {
            limit
        } else {
            all.len()
        },
        forall|i: int, j: int|
            0 <= i <= j < r.len() ==> key(#[trigger] r[i]) >= key(#[trigger] r[j]),
        forall|x: V| #[trigger] r.to_multiset().count(x) <= all.to_multiset().count(x),
        forall|x: V, i: int|
            #![trigger all.to_multiset().count(x), r[i]]
            r.to_multiset().count(x) < all.to_multiset().count(x) && 0 <= i < r.len() ==> key(x)
                <= key(r[i]),
{
    broadcast use vstd::multiset::group_multiset_axioms;
    broadcast use group_to_multiset_ensures;

    let s = choose|s: Seq<V>| #[trigger]
        in_order(s, all, key) && r == s.take(
            if limit < s.len() {
                limit as int
            } else {
                s.len() as int
            },
        );
    lemma_multiset_len(s, all);
    let k = r.len() as int;
    let rest = s.skip(k);
    assert(s =~= r + rest);
    lemma_multiset_commutative(r, rest);
    assert forall|i: int, j: int| 0 <= i <= j < r.len() implies key(#[trigger] r[i]) >= key(
        #[trigger] r[j],
    ) by {
        assert(r[i] == s[i] && r[j] == s[j]);
    }
    assert forall|x: V, i: int|
        #![trigger all.to_multiset().count(x), r[i]]
        r.to_multiset().count(x) < all.to_multiset().count(x) && 0 <= i < r.len() implies key(x)
        <= key(r[i]) by {
        assert(rest.to_multiset().count(x) > 0);
        assert(rest.contains(x));
        let j = choose|j: int| 0 <= j < rest.len() && rest[j] == x;
        assert(s[k + j] == x);
        assert(s[i] == r[i]);
    }
}

fn file_matches_ext(node: &FileNode, ext: &str) -> (r: bool)
    ensures
        r == matches_extension(node@, ext@),
{
    if node.is_dir {
        return false;
    }
    let e = node.extension();
    if same_text(ext, "(no ext)") {
        e.as_str().is_empty()
    } else {
        same_text(e.as_str(), ext)
    }
}

/// Appends every directory below `node`, which is at `path`, to `out`.
fn collect_dirs(node: &FileNode, path: &mut Vec<usize>, out: &mut Vec<DirSummary>)
    ensures
        final(path)@ == old(path)@,
        dir_views(final(out)@) == dir_views(old(out)@) + directories(
            node@.children,
            old(path)@,
        ),
    decreases node,
{
    let ghost kids = node@.children;
    let ghost start = dir_views(out@);
    assert(kids.take(0) =~= Seq::empty());
    assert(start + directories(kids.take(0), path@) =~= start);
    for i in 0..node.children.len()
        invariant
            kids == node@.children,
            path@ == old(path)@,
            dir_views(out@) == start + directories(kids.take(i as int), path@),
    {
        let child = &node.children[i];
        proof {
            assert(kids.take(i + 1).drop_last() =~= kids.take(i as int));
            assert(kids.take(i + 1).last() == child@);
        }
        if child.is_dir {
            let ghost before = out@;
            path.push(i);
            let d = DirSummary {
                path: copy_path(path.as_slice()),
                name: child.name.clone(),
                size: child.size,
                file_count: child.file_count,
                dir_count: child.dir_count,
            };
            assert(dir_views(before.push(d)) =~= dir_views(before).push(d@));
            out.push(d);
            collect_dirs(child, path, out);
            let _ = path.pop();
            assert(path@ =~= old(path)@);
            assert(dir_views(out@) =~= start + directories(kids.take(i + 1), path@));
        } else {
            assert(directories(kids.take(i + 1), path@) =~= directories(
                kids.take(i as int),
                path@,
            ));
        }
    }
    assert(kids.take(kids.len() as int) =~= kids);
}

/// Appends every directory below `node`, which is at `path`, that has a matching
/// file in it to `out`. Returns the bytes and the number of the matching files
/// below `node`.
fn collect_ext_dirs(
    node: &FileNode,
    ext: &str,
    path: &mut Vec<usize>,
    out: &mut Vec<ExtDirSummary>,
) -> (r: (u64, u64))
    requires
        matching_bytes(node@.children, ext@) <= u64::MAX,
        matching_files(node@.children, ext@) <= u64::MAX,
    ensures
        r.0 == matching_bytes(node@.children, ext@),
        r.1 == matching_files(node@.children, ext@),
        final(path)@ == old(path)@,
        ext_dir_views(final(out)@) == ext_dir_views(old(out)@) + matching_directories(
            node@.children,
            old(path)@,
            ext@,
        ),
    decreases node,
{
    let ghost kids = node@.children;
    let ghost start = ext_dir_views(out@);
    assert(kids.take(0) =~= Seq::empty());
    assert(start + matching_directories(kids.take(0), path@, ext@) =~= start);
    let mut bytes: u64 = 0;
    let mut count: u64 = 0;
    for i in 0..node.children.len()
        invariant
            kids == node@.children,
            matching_bytes(kids, ext@) <= u64::MAX,
            matching_files(kids, ext@) <= u64::MAX,
            bytes == matching_bytes(kids.take(i as int), ext@),
            count == matching_files(kids.take(i as int), ext@),
            path@ == old(path)@,
            ext_dir_views(out@) == start + matching_directories(kids.take(i as int), path@, ext@),
    {
        let child = &node.children[i];
        proof {
            assert(kids.take(i + 1).drop_last() =~= kids.take(i as int));
            assert(kids.take(i + 1).last() == child@);
            lemma_matching_take(kids, i + 1, ext@);
        }
        if child.is_dir {
            path.push(i);
            let (b, c) = collect_ext_dirs(child, ext, path, out);
            if c > 0 {
                let ghost before = out@;
                let d = ExtDirSummary {
                    path: copy_path(path.as_slice()),
                    name: child.name.clone(),
                    ext_bytes: b,
                    ext_count: c,
                };
                assert(ext_dir_views(before.push(d)) =~= ext_dir_views(before).push(d@));
                out.push(d);
            }
            let _ = path.pop();
            assert(path@ =~= old(path)@);
            bytes = bytes + b;
            count = count + c;
        } else if file_matches_ext(child, ext) {
            bytes = bytes + child.size;
            count = count + 1;
        }
        assert(ext_dir_views(out@) =~= start + matching_directories(
            kids.take(i + 1),
            path@,
            ext@,
        ));
    }
    assert(kids.take(kids.len() as int) =~= kids);
    (bytes, count)
}

proof fn lemma_matching_take(s: Seq<Node>, k: int, ext: Seq<char>)
    requires
        0 <= k <= s.len(),
    ensures
        matching_bytes(s.take(k), ext) <= matching_bytes(s, ext),
        matching_files(s.take(k), ext) <= matching_files(s, ext),
    decreases s.len() - k,
{
    if k == s.len() {
        assert(s.take(k) =~= s);
    } else {
        lemma_matching_take(s, k + 1, ext);
        assert(s.take(k + 1).drop_last() =~= s.take(k));
    }
}

/// Appends every file below `node`, which is at `path`, to `out`.
fn collect_files(node: &FileNode, path: &mut Vec<usize>, out: &mut Vec<FileSummary>)
    ensures
        final(path)@ == old(path)@,
        file_views(final(out)@) == file_views(old(out)@) + files(node@.children, old(path)@),
    decreases node,
{
    let ghost kids = node@.children;
    let ghost start = file_views(out@);
    assert(kids.take(0) =~= Seq::empty());
    assert(start + files(kids.take(0), path@) =~= start);
    for i in 0..node.children.len()
        invariant
            kids == node@.children,
            path@ == old(path)@,
            file_views(out@) == start + files(kids.take(i as int), path@),
    {
        let child = &node.children[i];
        proof {
            assert(kids.take(i + 1).drop_last() =~= kids.take(i as int));
            assert(kids.take(i + 1).last() == child@);
        }
        path.push(i);
        if child.is_dir {
            collect_files(child, path, out);
        } else {
            let ghost before = out@;
            let f = FileSummary {
                path: copy_path(path.as_slice()),
                name: child.name.clone(),
                size: child.size,
            };
            assert(file_views(before.push(f)) =~= file_views(before).push(f@));
            out.push(f);
        }
        let _ = path.pop();
        assert(path@ =~= old(path)@);
        assert(file_views(out@) =~= start + files(kids.take(i + 1), path@));
    }
    assert(kids.take(kids.len() as int) =~= kids);
}

impl FileTree {
    /// Flatten every directory below the root and return the `limit` largest by
    /// size (descending). Powers the "Largest folders" view.
    pub fn largest_directories(&self, limit: usize) -> (r: Vec<DirSummary>)
        ensures
            is_top(
                dir_views(r@),
                directories(self.root@.children, Seq::empty()),
                |d: DirSummaryView| d.size,
                limit as nat,
            ),
    {
        let mut dirs: Vec<DirSummary> = Vec::new();
        let mut path: Vec<usize> = Vec::new();
        assert(dir_views(dirs@) =~= Seq::empty());
        collect_dirs(&self.root, &mut path, &mut dirs);
        let ghost all = directories(self.root@.children, Seq::empty());
        assert(dir_views(dirs@) =~= all);
        let mut ranked = rank_descending(dirs);
        proof {
            let f = |d: DirSummary| d@;
            let key = |d: DirSummaryView| d.size;
            lemma_map_multiset(ranked@, dirs@, f);
            let s = dir_views(ranked@);
            assert forall|i: int, j: int| 0 <= i <= j < s.len() implies key(#[trigger] s[i])
                >= key(#[trigger] s[j]) by {
                assert(ranked@[i].rank() >= ranked@[j].rank());
            }
            assert(in_order(s, all, key));
            let k = if limit < s.len() {
                limit as int
            } else {
                s.len() as int
            };
            assert(dir_views(ranked@.take(k)) =~= s.take(k));
            assert(ranked@.take(ranked@.len() as int) =~= ranked@);
        }
        ranked.truncate(limit);
        ranked
    }

    /// Folders that contain files of `ext`, ranked by how many bytes of that
    /// extension live under each (descending). Pass the `(no ext)` sentinel to
    /// match extensionless files. Powers the "filter by file type" view.
    pub fn folders_by_extension(&self, ext: &str, limit: usize) -> (r: Vec<ExtDirSummary>)
        requires
            matching_bytes(self.root@.children, ext@) <= u64::MAX,
            matching_files(self.root@.children, ext@) <= u64::MAX,
        ensures
            is_top(
                ext_dir_views(r@),
                matching_directories(self.root@.children, Seq::empty(), ext@),
                |d: ExtDirSummaryView| d.ext_bytes,
                limit as nat,
            ),
    {
        let mut out: Vec<ExtDirSummary> = Vec::new();
        let mut path: Vec<usize> = Vec::new();
        assert(ext_dir_views(out@) =~= Seq::empty());
        let _ = collect_ext_dirs(&self.root, ext, &mut path, &mut out);
        let ghost all = matching_directories(self.root@.children, Seq::empty(), ext@);
        assert(ext_dir_views(out@) =~= all);
        let mut ranked = rank_descending(out);
        proof {
            let f = |d: ExtDirSummary| d@;
            let key = |d: ExtDirSummaryView| d.ext_bytes;
            lemma_map_multiset(ranked@, out@, f);
            let s = ext_dir_views(ranked@);
            assert forall|i: int, j: int| 0 <= i <= j < s.len() implies key(#[trigger] s[i])
                >= key(#[trigger] s[j]) by {
                assert(ranked@[i].rank() >= ranked@[j].rank());
            }
            assert(in_order(s, all, key));
            let k = if limit < s.len() {
                limit as int
            } else {
                s.len() as int
            };
            assert(ext_dir_views(ranked@.take(k)) =~= s.take(k));
            assert(ranked@.take(ranked@.len() as int) =~= ranked@);
        }
        ranked.truncate(limit);
        ranked
    }

    /// Every individual file in the scan, largest first. Powers the "All Files"
    /// view.
    pub fn all_files(&self) -> (r: Vec<FileSummary>)
        ensures
            in_order(
                file_views(r@),
                files(self.root@.children, Seq::empty()),
                |f: FileSummaryView| f.size,
            ),
    {
        let mut out: Vec<FileSummary> = Vec::new();
        let mut path: Vec<usize> = Vec::new();
        assert(file_views(out@) =~= Seq::empty());
        collect_files(&self.root, &mut path, &mut out);
        let ghost all = files(self.root@.children, Seq::empty());
        assert(file_views(out@) =~= all);
        let ranked = rank_descending(out);
        proof {
            let f = |d: FileSummary| d@;
            let key = |d: FileSummaryView| d.size;
            lemma_map_multiset(ranked@, out@, f);
            let s = file_views(ranked@);
            assert forall|i: int, j: int| 0 <= i <= j < s.len() implies key(#[trigger] s[i])
                >= key(#[trigger] s[j]) by {
                assert(ranked@[i].rank() >= ranked@[j].rank());
            }
            assert(in_order(s, all, key));
        }
        ranked
    }
}

} // verus!
