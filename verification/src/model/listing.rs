//! What the ranked lists say of the tree: each entry leads to its node, and each
//! node has its entry.

use vstd::prelude::*;

use crate::model::node::{nodes_of, FileNode, Node};
use crate::model::report::{
    directories, files, matching_bytes, matching_directories, matching_files, DirSummaryView,
    ExtDirSummaryView, FileSummaryView,
};
use crate::model::totals::{all_consistent, consistent, own, total, total_all, Measure};
use crate::model::tree::{node_at, node_extension};

verus! {

broadcast use crate::model::node::group_nodes;

/// Whether every child in a tree can be told by an index.
pub open spec fn addressable(n: Node) -> bool
    decreases n,
{
    n.children.len() <= usize::MAX && all_addressable(n.children)
}

pub open spec fn all_addressable(s: Seq<Node>) -> bool
    decreases s,
{
    s.len() > 0 ==> all_addressable(s.drop_last()) && addressable(s.last())
}

/// The children of a node in memory can be told by an index.
pub proof fn trees_are_addressable(n: FileNode)
    ensures
        addressable(n@),
    decreases n,
{
    assert(n.children.len() == n.children@.len());
    lemma_all_addressable(n.children@);
}

proof fn lemma_all_addressable(s: Seq<FileNode>)
    ensures
        all_addressable(nodes_of(s)),
    decreases s,
{
    if s.len() > 0 {
        lemma_all_addressable(s.drop_last());
        trees_are_addressable(s.last());
        assert(nodes_of(s).drop_last() =~= nodes_of(s.drop_last()));
    }
}

/// In addressable nodes each is addressable.
pub proof fn lemma_all_addressable_at(s: Seq<Node>)
    requires
        all_addressable(s),
    ensures
        forall|i: int| 0 <= i < s.len() ==> addressable(#[trigger] s[i]),
    decreases s.len(),
{
    if s.len() > 0 {
        lemma_all_addressable_at(s.drop_last());
        assert forall|i: int| 0 <= i < s.len() implies addressable(#[trigger] s[i]) by {
            if i < s.len() - 1 {
                assert(s[i] == s.drop_last()[i]);
            }
        }
    }
}

/// The node that `q` leads to from a node with the children `s`.
pub open spec fn below(s: Seq<Node>, q: Seq<usize>) -> Option<Node> {
    if q.len() > 0 && q[0] < s.len() {
        node_at(s[q[0] as int], q.drop_first())
    } else {
        None
    }
}

/// Whether `q` leads through directories alone from a node with the children `s`
/// to a node below it.
pub open spec fn through_directories(s: Seq<Node>, q: Seq<usize>) -> bool
    decreases q.len(),
{
    &&& q.len() > 0
    &&& q[0] < s.len()
    &&& q.len() > 1 ==> s[q[0] as int].is_dir && through_directories(
        s[q[0] as int].children,
        q.drop_first(),
    )
}

pub open spec fn dir_summary(n: Node, path: Seq<usize>) -> DirSummaryView {
    DirSummaryView {
        path,
        name: n.name,
        size: n.size,
        file_count: n.file_count,
        dir_count: n.dir_count,
    }
}

proof fn lemma_below(n: Node, q: Seq<usize>)
    requires
        q.len() > 0,
    ensures
        below(n.children, q) == node_at(n, q),
{
}

/// The paths that go on from `prefix` are told apart by what follows it.
proof fn lemma_prefix(prefix: Seq<usize>, a: Seq<usize>, b: Seq<usize>)
    requires
        prefix + a == prefix + b,
    ensures
        a == b,
{
    assert(a =~= (prefix + a).skip(prefix.len() as int));
    assert(b =~= (prefix + b).skip(prefix.len() as int));
}

/// Every entry in the list of directories is a directory of the tree, and its
/// path leads there.
pub proof fn listed_directories_are_there(n: Node, i: int)
    requires
        addressable(n),
        0 <= i < directories(n.children, Seq::empty()).len(),
    ensures
        ({
            let d = directories(n.children, Seq::empty())[i];
            &&& d.path.len() > 0
            &&& node_at(n, d.path) is Some
            &&& node_at(n, d.path)->0.is_dir
            &&& d == dir_summary(node_at(n, d.path)->0, d.path)
        }),
{
    let q = lemma_directory(n.children, Seq::empty(), i);
    assert(Seq::<usize>::empty() + q =~= q);
    lemma_below(n, q);
}

proof fn lemma_directory(s: Seq<Node>, prefix: Seq<usize>, i: int) -> (q: Seq<usize>)
    requires
        s.len() <= usize::MAX,
        all_addressable(s),
        0 <= i < directories(s, prefix).len(),
    ensures
        through_directories(s, q),
        below(s, q) is Some,
        below(s, q)->0.is_dir,
        directories(s, prefix)[i] == dir_summary(below(s, q)->0, prefix + q),
    decreases s,
{
    let before = directories(s.drop_last(), prefix);
    let c = s.last();
    let k = (s.len() - 1) as usize;
    reveal_with_fuel(addressable, 2);
    assert(addressable(c));
    if i < before.len() {
        let q = lemma_directory(s.drop_last(), prefix, i);
        assert(s.drop_last()[q[0] as int] == s[q[0] as int]);
        q
    } else if i == before.len() {
        let q = seq![k];
        assert(q.drop_first() =~= Seq::empty());
        assert(prefix.push(k) =~= prefix + q);
        q
    } else {
        let inner = lemma_directory(c.children, prefix.push(k), i - before.len() - 1);
        let q = seq![k] + inner;
        assert(q.drop_first() =~= inner);
        assert(prefix.push(k) + inner =~= prefix + q);
        lemma_below(c, inner);
        q
    }
}

/// Every directory below the root has its entry in the list of directories.
pub proof fn directories_are_listed(n: Node, path: Seq<usize>) -> (i: int)
    requires
        addressable(n),
        through_directories(n.children, path),
        node_at(n, path)->0.is_dir,
    ensures
        0 <= i < directories(n.children, Seq::empty()).len(),
        directories(n.children, Seq::empty())[i] == dir_summary(node_at(n, path)->0, path),
{
    lemma_below(n, path);
    assert(Seq::<usize>::empty() + path =~= path);
    lemma_directory_listed(n.children, Seq::empty(), path)
}

proof fn lemma_directory_listed(s: Seq<Node>, prefix: Seq<usize>, q: Seq<usize>) -> (i: int)
    requires
        s.len() <= usize::MAX,
        all_addressable(s),
        through_directories(s, q),
        below(s, q)->0.is_dir,
    ensures
        0 <= i < directories(s, prefix).len(),
        directories(s, prefix)[i] == dir_summary(below(s, q)->0, prefix + q),
    decreases s,
{
    let before = directories(s.drop_last(), prefix);
    let c = s.last();
    let k = (s.len() - 1) as usize;
    reveal_with_fuel(addressable, 2);
    assert(addressable(c));
    if q[0] < k {
        assert(s.drop_last()[q[0] as int] == s[q[0] as int]);
        lemma_directory_listed(s.drop_last(), prefix, q)
    } else if q.len() == 1 {
        assert(q.drop_first() =~= Seq::empty());
        assert(prefix.push(k) =~= prefix + q);
        before.len() as int
    } else {
        let inner = q.drop_first();
        lemma_below(c, inner);
        let j = lemma_directory_listed(c.children, prefix.push(k), inner);
        assert(prefix.push(k) + inner =~= prefix + q);
        before.len() + 1 + j
    }
}

/// No directory is listed twice.
pub proof fn directories_are_listed_once(n: Node, i: int, j: int)
    requires
        addressable(n),
        0 <= i < j < directories(n.children, Seq::empty()).len(),
    ensures
        directories(n.children, Seq::empty())[i].path != directories(
            n.children,
            Seq::empty(),
        )[j].path,
{
    lemma_listed_once(n.children, Seq::empty(), i, j);
}

proof fn lemma_listed_once(s: Seq<Node>, prefix: Seq<usize>, i: int, j: int)
    requires
        s.len() <= usize::MAX,
        all_addressable(s),
        0 <= i < j < directories(s, prefix).len(),
    ensures
        directories(s, prefix)[i].path != directories(s, prefix)[j].path,
    decreases s,
{
    let all = directories(s, prefix);
    let before = directories(s.drop_last(), prefix);
    let c = s.last();
    let k = (s.len() - 1) as usize;
    reveal_with_fuel(addressable, 2);
    assert(addressable(c));
    if j < before.len() {
        lemma_listed_once(s.drop_last(), prefix, i, j);
    } else if i < before.len() {
        let q = lemma_directory(s.drop_last(), prefix, i);
        if j == before.len() {
            let p = seq![k];
            assert(prefix.push(k) =~= prefix + p);
            if all[i].path == all[j].path {
                lemma_prefix(prefix, q, p);
                assert(q[0] == p[0]);
            }
        } else {
            let inner = lemma_directory(c.children, prefix.push(k), j - before.len() - 1);
            let p = seq![k] + inner;
            assert(prefix.push(k) + inner =~= prefix + p);
            if all[i].path == all[j].path {
                lemma_prefix(prefix, q, p);
                assert(q[0] == p[0]);
            }
        }
    } else if i == before.len() {
        let inner = lemma_directory(c.children, prefix.push(k), j - before.len() - 1);
        assert(all[j].path.len() == prefix.len() + 1 + inner.len());
    } else {
        lemma_listed_once(
            c.children,
            prefix.push(k),
            i - before.len() - 1,
            j - before.len() - 1,
        );
    }
}

/// Every entry in the list of folders with files of one type is a directory of the
/// tree that has such files, and its path leads there.
pub proof fn listed_folders_hold_the_type(n: Node, ext: Seq<char>, i: int)
    requires
        addressable(n),
        0 <= i < matching_directories(n.children, Seq::empty(), ext).len(),
    ensures
        ({
            let d = matching_directories(n.children, Seq::empty(), ext)[i];
            let m = node_at(n, d.path)->0;
            &&& d.path.len() > 0
            &&& node_at(n, d.path) is Some
            &&& m.is_dir
            &&& m.name == d.name
            &&& matching_files(m.children, ext) > 0
            &&& d.ext_bytes == matching_bytes(m.children, ext) as u64
            &&& d.ext_count == matching_files(m.children, ext) as u64
        }),
{
    let q = lemma_matching(n.children, Seq::empty(), ext, i);
    assert(Seq::<usize>::empty() + q =~= q);
    lemma_below(n, q);
}

pub open spec fn ext_summary(n: Node, path: Seq<usize>, ext: Seq<char>) -> ExtDirSummaryView {
    ExtDirSummaryView {
        path,
        name: n.name,
        ext_bytes: matching_bytes(n.children, ext) as u64,
        ext_count: matching_files(n.children, ext) as u64,
    }
}

proof fn lemma_matching(s: Seq<Node>, prefix: Seq<usize>, ext: Seq<char>, i: int) -> (q: Seq<
    usize,
>)
    requires
        s.len() <= usize::MAX,
        all_addressable(s),
        0 <= i < matching_directories(s, prefix, ext).len(),
    ensures
        q.len() > 0,
        below(s, q) is Some,
        below(s, q)->0.is_dir,
        matching_files(below(s, q)->0.children, ext) > 0,
        matching_directories(s, prefix, ext)[i] == ext_summary(below(s, q)->0, prefix + q, ext),
    decreases s,
{
    let before = matching_directories(s.drop_last(), prefix, ext);
    let c = s.last();
    let k = (s.len() - 1) as usize;
    reveal_with_fuel(addressable, 2);
    assert(addressable(c));
    let inside = matching_directories(c.children, prefix.push(k), ext);
    if i < before.len() {
        let q = lemma_matching(s.drop_last(), prefix, ext, i);
        assert(s.drop_last()[q[0] as int] == s[q[0] as int]);
        q
    } else if i - before.len() < inside.len() {
        let inner = lemma_matching(c.children, prefix.push(k), ext, i - before.len());
        let q = seq![k] + inner;
        assert(q.drop_first() =~= inner);
        assert(prefix.push(k) + inner =~= prefix + q);
        lemma_below(c, inner);
        q
    } else {
        let q = seq![k];
        assert(q.drop_first() =~= Seq::empty());
        assert(prefix.push(k) =~= prefix + q);
        q
    }
}

/// No folder is listed twice for a type.
pub proof fn folders_with_the_type_are_listed_once(n: Node, ext: Seq<char>, i: int, j: int)
    requires
        addressable(n),
        0 <= i < j < matching_directories(n.children, Seq::empty(), ext).len(),
    ensures
        matching_directories(n.children, Seq::empty(), ext)[i].path != matching_directories(
            n.children,
            Seq::empty(),
            ext,
        )[j].path,
{
    lemma_matching_once(n.children, Seq::empty(), ext, i, j);
}

proof fn lemma_matching_once(
    s: Seq<Node>,
    prefix: Seq<usize>,
    ext: Seq<char>,
    i: int,
    j: int,
)
    requires
        s.len() <= usize::MAX,
        all_addressable(s),
        0 <= i < j < matching_directories(s, prefix, ext).len(),
    ensures
        matching_directories(s, prefix, ext)[i].path != matching_directories(
            s,
            prefix,
            ext,
        )[j].path,
    decreases s,
{
    let all = matching_directories(s, prefix, ext);
    let before = matching_directories(s.drop_last(), prefix, ext);
    let c = s.last();
    let k = (s.len() - 1) as usize;
    reveal_with_fuel(addressable, 2);
    assert(addressable(c));
    let inside = matching_directories(c.children, prefix.push(k), ext);
    if j < before.len() {
        lemma_matching_once(s.drop_last(), prefix, ext, i, j);
    } else if i < before.len() {
        let q = lemma_matching(s.drop_last(), prefix, ext, i);
        let p = if j - before.len() < inside.len() {
            let inner = lemma_matching(c.children, prefix.push(k), ext, j - before.len());
            assert(prefix.push(k) + inner =~= prefix + (seq![k] + inner));
            seq![k] + inner
        } else {
            assert(prefix.push(k) =~= prefix + seq![k]);
            seq![k]
        };
        if all[i].path == all[j].path {
            lemma_prefix(prefix, q, p);
            assert(q[0] == p[0]);
        }
    } else if j - before.len() < inside.len() {
        lemma_matching_once(
            c.children,
            prefix.push(k),
            ext,
            i - before.len(),
            j - before.len(),
        );
    } else {
        let inner = lemma_matching(c.children, prefix.push(k), ext, i - before.len());
        assert(all[i].path.len() == prefix.len() + 1 + inner.len());
    }
}

/// Every directory below the root that has files of a type somewhere in it is
/// listed for that type.
pub proof fn folders_with_the_type_are_listed(n: Node, ext: Seq<char>, path: Seq<usize>) -> (i:
    int)
    requires
        addressable(n),
        through_directories(n.children, path),
        node_at(n, path)->0.is_dir,
        matching_files(node_at(n, path)->0.children, ext) > 0,
    ensures
        0 <= i < matching_directories(n.children, Seq::empty(), ext).len(),
        matching_directories(n.children, Seq::empty(), ext)[i].path == path,
{
    lemma_below(n, path);
    assert(Seq::<usize>::empty() + path =~= path);
    lemma_matching_listed(n.children, Seq::empty(), ext, path)
}

proof fn lemma_matching_listed(
    s: Seq<Node>,
    prefix: Seq<usize>,
    ext: Seq<char>,
    q: Seq<usize>,
) -> (i: int)
    requires
        s.len() <= usize::MAX,
        all_addressable(s),
        through_directories(s, q),
        below(s, q)->0.is_dir,
        matching_files(below(s, q)->0.children, ext) > 0,
    ensures
        0 <= i < matching_directories(s, prefix, ext).len(),
        matching_directories(s, prefix, ext)[i].path == prefix + q,
    decreases s,
{
    let before = matching_directories(s.drop_last(), prefix, ext);
    let c = s.last();
    let k = (s.len() - 1) as usize;
    reveal_with_fuel(addressable, 2);
    assert(addressable(c));
    let inside = matching_directories(c.children, prefix.push(k), ext);
    if q[0] < k {
        assert(s.drop_last()[q[0] as int] == s[q[0] as int]);
        lemma_matching_listed(s.drop_last(), prefix, ext, q)
    } else if q.len() == 1 {
        assert(q.drop_first() =~= Seq::empty());
        assert(prefix.push(k) =~= prefix + q);
        (before.len() + inside.len()) as int
    } else {
        let inner = q.drop_first();
        lemma_below(c, inner);
        let j = lemma_matching_listed(c.children, prefix.push(k), ext, inner);
        assert(prefix.push(k) + inner =~= prefix + q);
        before.len() + j
    }
}

/// Every entry in the list of files is a file of the tree, and its path leads
/// there.
pub proof fn listed_files_are_there(n: Node, i: int)
    requires
        addressable(n),
        0 <= i < files(n.children, Seq::empty()).len(),
    ensures
        ({
            let f = files(n.children, Seq::empty())[i];
            let m = node_at(n, f.path)->0;
            &&& f.path.len() > 0
            &&& node_at(n, f.path) is Some
            &&& !m.is_dir
            &&& f == (FileSummaryView { path: f.path, name: m.name, size: m.size })
        }),
{
    let q = lemma_file(n.children, Seq::empty(), i);
    assert(Seq::<usize>::empty() + q =~= q);
    lemma_below(n, q);
}

proof fn lemma_file(s: Seq<Node>, prefix: Seq<usize>, i: int) -> (q: Seq<usize>)
    requires
        s.len() <= usize::MAX,
        all_addressable(s),
        0 <= i < files(s, prefix).len(),
    ensures
        q.len() > 0,
        below(s, q) is Some,
        !below(s, q)->0.is_dir,
        files(s, prefix)[i] == (FileSummaryView {
            path: prefix + q,
            name: below(s, q)->0.name,
            size: below(s, q)->0.size,
        }),
    decreases s,
{
    let before = files(s.drop_last(), prefix);
    let c = s.last();
    let k = (s.len() - 1) as usize;
    reveal_with_fuel(addressable, 2);
    assert(addressable(c));
    if i < before.len() {
        let q = lemma_file(s.drop_last(), prefix, i);
        assert(s.drop_last()[q[0] as int] == s[q[0] as int]);
        q
    } else if c.is_dir {
        let inner = lemma_file(c.children, prefix.push(k), i - before.len());
        let q = seq![k] + inner;
        assert(q.drop_first() =~= inner);
        assert(prefix.push(k) + inner =~= prefix + q);
        lemma_below(c, inner);
        q
    } else {
        let q = seq![k];
        assert(q.drop_first() =~= Seq::empty());
        assert(prefix.push(k) =~= prefix + q);
        q
    }
}

/// No file is listed twice.
pub proof fn files_are_listed_once(n: Node, i: int, j: int)
    requires
        addressable(n),
        0 <= i < j < files(n.children, Seq::empty()).len(),
    ensures
        files(n.children, Seq::empty())[i].path != files(n.children, Seq::empty())[j].path,
{
    lemma_file_once(n.children, Seq::empty(), i, j);
}

proof fn lemma_file_once(s: Seq<Node>, prefix: Seq<usize>, i: int, j: int)
    requires
        s.len() <= usize::MAX,
        all_addressable(s),
        0 <= i < j < files(s, prefix).len(),
    ensures
        files(s, prefix)[i].path != files(s, prefix)[j].path,
    decreases s,
{
    let all = files(s, prefix);
    let before = files(s.drop_last(), prefix);
    let c = s.last();
    let k = (s.len() - 1) as usize;
    reveal_with_fuel(addressable, 2);
    assert(addressable(c));
    if j < before.len() {
        lemma_file_once(s.drop_last(), prefix, i, j);
    } else if i < before.len() {
        let q = lemma_file(s.drop_last(), prefix, i);
        let p = if c.is_dir {
            let inner = lemma_file(c.children, prefix.push(k), j - before.len());
            assert(prefix.push(k) + inner =~= prefix + (seq![k] + inner));
            seq![k] + inner
        } else {
            assert(prefix.push(k) =~= prefix + seq![k]);
            seq![k]
        };
        if all[i].path == all[j].path {
            lemma_prefix(prefix, q, p);
            assert(q[0] == p[0]);
        }
    } else {
        lemma_file_once(c.children, prefix.push(k), i - before.len(), j - before.len());
    }
}

/// Every file below the root has its entry in the list of files.
pub proof fn files_are_listed(n: Node, path: Seq<usize>) -> (i: int)
    requires
        addressable(n),
        through_directories(n.children, path),
        !node_at(n, path)->0.is_dir,
    ensures
        0 <= i < files(n.children, Seq::empty()).len(),
        files(n.children, Seq::empty())[i].path == path,
{
    lemma_below(n, path);
    assert(Seq::<usize>::empty() + path =~= path);
    lemma_file_listed(n.children, Seq::empty(), path)
}

proof fn lemma_file_listed(s: Seq<Node>, prefix: Seq<usize>, q: Seq<usize>) -> (i: int)
    requires
        s.len() <= usize::MAX,
        all_addressable(s),
        through_directories(s, q),
        !below(s, q)->0.is_dir,
    ensures
        0 <= i < files(s, prefix).len(),
        files(s, prefix)[i].path == prefix + q,
    decreases s,
{
    let before = files(s.drop_last(), prefix);
    let c = s.last();
    let k = (s.len() - 1) as usize;
    reveal_with_fuel(addressable, 2);
    assert(addressable(c));
    if q[0] < k {
        assert(s.drop_last()[q[0] as int] == s[q[0] as int]);
        lemma_file_listed(s.drop_last(), prefix, q)
    } else if q.len() == 1 {
        assert(q.drop_first() =~= Seq::empty());
        assert(prefix.push(k) =~= prefix + q);
        before.len() as int
    } else {
        let inner = q.drop_first();
        lemma_below(c, inner);
        let j = lemma_file_listed(c.children, prefix.push(k), inner);
        assert(prefix.push(k) + inner =~= prefix + q);
        before.len() + j
    }
}

/// Whether no file among some nodes and below them has the sentinel of the statistics
/// for its extension.
pub open spec fn no_sentinel_extension(s: Seq<Node>) -> bool
    decreases s,
{
    s.len() > 0 ==> {
        &&& no_sentinel_extension(s.drop_last())
        &&& no_sentinel_extension(s.last().children)
        &&& node_extension(s.last()) != "(no ext)"@
    }
}

/// The folders of one file type are ranked by the same bytes and files that the
/// statistics list for it.
pub proof fn type_filter_agrees_with_the_statistics(n: Node, ext: Seq<char>)
    requires
        consistent(n),
        n.is_dir,
        ext.len() > 0,
        ext == "(no ext)"@ ==> no_sentinel_extension(n.children),
    ensures
        matching_bytes(n.children, ext) == total(n, Measure::LabelBytes(ext)),
        matching_files(n.children, ext) == total(n, Measure::LabelFiles(ext)),
{
    lemma_type_filter(n.children, ext);
}

proof fn lemma_type_filter(s: Seq<Node>, ext: Seq<char>)
    requires
        all_consistent(s),
        ext.len() > 0,
        ext == "(no ext)"@ ==> no_sentinel_extension(s),
    ensures
        matching_bytes(s, ext) == total_all(s, Measure::LabelBytes(ext)),
        matching_files(s, ext) == total_all(s, Measure::LabelFiles(ext)),
    decreases s,
{
    if s.len() > 0 {
        let c = s.last();
        reveal_with_fuel(consistent, 2);
        assert(consistent(c));
        lemma_type_filter(s.drop_last(), ext);
        assert(total(c, Measure::LabelBytes(ext)) == own(c, Measure::LabelBytes(ext)) + total_all(
            c.children,
            Measure::LabelBytes(ext),
        ));
        assert(total(c, Measure::LabelFiles(ext)) == own(c, Measure::LabelFiles(ext)) + total_all(
            c.children,
            Measure::LabelFiles(ext),
        ));
        if c.is_dir {
            lemma_type_filter(c.children, ext);
        } else {
            assert(c.children =~= Seq::empty());
            assert(total_all(c.children, Measure::LabelBytes(ext)) == 0);
            assert(total_all(c.children, Measure::LabelFiles(ext)) == 0);
        }
    }
}

} // verus!
