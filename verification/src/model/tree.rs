//! The scanned file tree.

use vstd::prelude::*;

use crate::model::node::{FileNode, Node};
use crate::path::{join, joined};
use crate::ranking::Ranked;
use crate::text::{chars_of, slice_copy, string_of};

verus! {

broadcast use crate::model::node::group_nodes;

/// Index path from the root to a node in the tree: `[2, 0]` is the first child
/// of the root's third child.
pub type TreePath = Vec<usize>;

impl Ranked for FileNode {
    open spec fn rank(self) -> u64 {
        self.size
    }

    fn rank_of(&self) -> (r: u64) {
        self.size
    }
}

/// The node that an index path leads to.
pub open spec fn node_at(n: Node, path: Seq<usize>) -> Option<Node>
    decreases path.len(),
{
    if path.len() == 0 {
        Some(n)
    } else if path[0] < n.children.len() {
        node_at(n.children[path[0] as int], path.drop_first())
    } else {
        None
    }
}

/// The file system path of the node that an index path leads to, where `base` is
/// that of `n`.
pub open spec fn fs_path_at(base: Seq<char>, n: Node, path: Seq<usize>) -> Option<Seq<char>>
    decreases path.len(),
{
    if path.len() == 0 {
        Some(base)
    } else if path[0] < n.children.len() {
        let c = n.children[path[0] as int];
        fs_path_at(joined(base, c.name), c, path.drop_first())
    } else {
        None
    }
}

/// The position of the last `c` in `s`, or -1 if there is none.
pub open spec fn last_index(s: Seq<char>, c: char) -> int
    decreases s.len(),
{
    if s.len() == 0 {
        -1
    } else if s.last() == c {
        s.len() - 1
    } else {
        last_index(s.drop_last(), c)
    }
}

/// The text after the last dot of a name, empty if there is no dot.
pub open spec fn name_extension(name: Seq<char>) -> Seq<char> {
    let k = last_index(name, '.');
    if k < 0 {
        Seq::empty()
    } else {
        name.skip(k + 1)
    }
}

/// The extension of a node: a directory has none.
pub open spec fn node_extension(n: Node) -> Seq<char> {
    if n.is_dir {
        Seq::empty()
    } else {
        name_extension(n.name)
    }
}

/// An index path leads to a node exactly if it has a file system path.
pub proof fn fs_path_exists_with_node(base: Seq<char>, n: Node, path: Seq<usize>)
    ensures
        fs_path_at(base, n, path) is Some <==> node_at(n, path) is Some,
    decreases path.len(),
{
    if path.len() > 0 && path[0] < n.children.len() {
        let c = n.children[path[0] as int];
        fs_path_exists_with_node(joined(base, c.name), c, path.drop_first());
    }
}

/// The path of a child is that of its parent with the child's name joined.
pub proof fn fs_path_of_child(base: Seq<char>, n: Node, path: Seq<usize>, i: usize)
    requires
        node_at(n, path) is Some,
        i < node_at(n, path)->0.children.len(),
    ensures
        node_at(n, path.push(i)) == Some(node_at(n, path)->0.children[i as int]),
        fs_path_at(base, n, path.push(i)) == Some(
            joined(
                fs_path_at(base, n, path)->0,
                node_at(n, path)->0.children[i as int].name,
            ),
        ),
    decreases path.len(),
{
    let longer = path.push(i);
    if path.len() == 0 {
        assert(longer.drop_first() =~= Seq::empty());
        assert(longer[0] == i);
        let c = n.children[i as int];
        assert(node_at(c, longer.drop_first()) == Some(c));
        assert(fs_path_at(joined(base, c.name), c, longer.drop_first()) == Some(
            joined(base, c.name),
        ));
    } else {
        let c = n.children[path[0] as int];
        assert(longer.drop_first() =~= path.drop_first().push(i));
        assert(longer[0] == path[0]);
        fs_path_of_child(joined(base, c.name), c, path.drop_first(), i);
    }
}

/// The part of a path is walked first, then the rest of it.
pub proof fn lemma_node_at_concat(n: Node, a: Seq<usize>, b: Seq<usize>)
    ensures
        node_at(n, a + b) == (match node_at(n, a) {
            Some(m) => node_at(m, b),
            None => None,
        }),
    decreases a.len(),
{
    if a.len() == 0 {
        assert(a + b =~= b);
    } else {
        assert((a + b).drop_first() =~= a.drop_first() + b);
        assert((a + b)[0] == a[0]);
        if a[0] < n.children.len() {
            lemma_node_at_concat(n.children[a[0] as int], a.drop_first(), b);
        }
    }
}

/// The text after the last dot of a name, empty if there is no dot.
pub fn raw_extension(name: &str) -> (r: String)
    ensures
        r@ == name_extension(name@),
{
    let v = chars_of(name);
    let mut k: usize = v.len();
    assert(v@.take(v@.len() as int) =~= v@);
    while k > 0
        invariant
            v@ == name@,
            k <= v@.len(),
            last_index(v@.take(k as int), '.') == last_index(v@, '.'),
        decreases k,
    {
        assert(v@.take(k as int).last() == v@[k - 1]);
        assert(v@.take(k as int).drop_last() =~= v@.take(k - 1));
        if v[k - 1] == '.' {
            assert(last_index(v@, '.') == k - 1);
            let ext = slice_copy(v.as_slice(), k, v.len());
            assert(ext@ =~= v@.skip(k as int));
            return string_of(ext.as_slice());
        }
        k = k - 1;
    }
    String::new()
}

/// A copy of an index path.
pub fn copy_path(path: &[usize]) -> (r: TreePath)
    ensures
        r@ == path@,
{
    let mut r: TreePath = Vec::new();
    for i in 0..path.len()
        invariant
            r@ == path@.take(i as int),
    {
        r.push(path[i]);
    }
    assert(path@.take(path@.len() as int) =~= path@);
    r
}

/// Whether two index paths are the same.
pub fn same_index_path(a: &[usize], b: &[usize]) -> (r: bool)
    ensures
        r == (a@ == b@),
{
    if a.len() != b.len() {
        return false;
    }
    for i in 0..a.len()
        invariant
            a@.len() == b@.len(),
            forall|j: int| 0 <= j < i ==> a@[j] == b@[j],
    {
        if a[i] != b[i] {
            return false;
        }
    }
    assert(a@ =~= b@);
    true
}

impl FileNode {
    /// The file extension, or an empty text for dirs and extensionless files.
    pub fn extension(&self) -> (r: String)
        ensures
            r@ == node_extension(self@),
    {
        if self.is_dir {
            String::new()
        } else {
            raw_extension(self.name.as_str())
        }
    }

    /// Walk a path of child indices to reach a descendant node.
    pub fn resolve_path(&self, path: &[usize]) -> (r: Option<&FileNode>)
        ensures
            (match r {
                Some(n) => node_at(self@, path@) == Some(n@),
                None => node_at(self@, path@) is None,
            }),
    {
        let mut node: &FileNode = self;
        assert(path@.skip(0) =~= path@);
        for i in 0..path.len()
            invariant
                node_at(node@, path@.skip(i as int)) == node_at(self@, path@),
        {
            let idx = path[i];
            assert(path@.skip(i as int).drop_first() =~= path@.skip(i + 1));
            assert(path@.skip(i as int)[0] == idx);
            if idx >= node.children.len() {
                return None;
            }
            node = &node.children[idx];
        }
        Some(node)
    }
}

/// Aggregated statistics for one file extension across the whole scan.
#[derive(Clone)]
pub struct ExtStat {
    pub ext: String,
    pub bytes: u64,
    pub count: u64,
}

/// The complete scanned file tree with precomputed extension statistics.
pub struct FileTree {
    pub root: FileNode,
    pub root_path: String,
    /// Per-extension totals (bytes and file count), sorted by bytes descending.
    pub extensions: Vec<ExtStat>,
    /// Directories that could not be opened during the scan. Their contents are
    /// missing from the totals.
    pub permission_denied: u64,
    /// True when directory totals are lower bounds rather than exact: the scan
    /// skipped small files, skipped excluded folders, or hit unreadable
    /// directories.
    pub size_approximate: bool,
}

impl FileTree {
    /// Build the full file system path for a node identified by index path.
    pub fn build_fs_path(&self, path: &[usize]) -> (r: Option<String>)
        ensures
            (match r {
                Some(p) => fs_path_at(self.root_path@, self.root@, path@) == Some(p@),
                None => fs_path_at(self.root_path@, self.root@, path@) is None,
            }),
    {
        let mut fs_path = self.root_path.clone();
        let mut node: &FileNode = &self.root;
        assert(path@.skip(0) =~= path@);
        for i in 0..path.len()
            invariant
                fs_path_at(fs_path@, node@, path@.skip(i as int)) == fs_path_at(
                    self.root_path@,
                    self.root@,
                    path@,
                ),
        {
            let idx = path[i];
            assert(path@.skip(i as int).drop_first() =~= path@.skip(i + 1));
            assert(path@.skip(i as int)[0] == idx);
            if idx >= node.children.len() {
                return None;
            }
            let child = &node.children[idx];
            fs_path = join(fs_path.as_str(), child.name.as_str());
            node = child;
        }
        Some(fs_path)
    }
}

} // verus!
