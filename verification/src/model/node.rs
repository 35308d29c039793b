//! The nodes of a file tree.

use vstd::prelude::*;

verus! {

/// A node in the file tree. Compact by design, 72 bytes: a full-disk scan can
/// hold several million of these.
pub struct FileNode {
    pub name: String,
    pub children: Vec<FileNode>,
    pub size: u64,
    /// Cached file count (1 for files, sum of children for dirs).
    pub file_count: u32,
    /// Cached directory count (0 for files, 1 + sum of children for dirs).
    pub dir_count: u32,
    pub is_dir: bool,
}

/// A node as a value.
pub struct Node {
    pub name: Seq<char>,
    pub children: Seq<Node>,
    pub size: u64,
    pub file_count: u32,
    pub dir_count: u32,
    pub is_dir: bool,
}

impl View for FileNode {
    type V = Node;

    open spec fn view(&self) -> Node {
        node_of(*self)
    }
}

pub open spec fn node_of(n: FileNode) -> Node
    decreases n,
{
    Node {
        name: n.name@,
        children: nodes_of(n.children@),
        size: n.size,
        file_count: n.file_count,
        dir_count: n.dir_count,
        is_dir: n.is_dir,
    }
}

pub open spec fn nodes_of(s: Seq<FileNode>) -> Seq<Node>
    decreases s,
{
    if s.len() == 0 {
        Seq::empty()
    } else {
        nodes_of(s.drop_last()).push(node_of(s.last()))
    }
}

pub broadcast proof fn lemma_nodes_of(s: Seq<FileNode>)
    ensures
        (#[trigger] nodes_of(s)).len() == s.len(),
        forall|i: int| 0 <= i < s.len() ==> #[trigger] nodes_of(s)[i] == s[i]@,
    decreases s.len(),
{
    if s.len() > 0 {
        lemma_nodes_of(s.drop_last());
    }
}

pub broadcast proof fn lemma_node_of(n: FileNode)
    ensures
        (#[trigger] node_of(n)).children == nodes_of(n.children@),
        node_of(n).children.len() == n.children@.len(),
{
    lemma_nodes_of(n.children@);
}

pub broadcast group group_nodes {
    lemma_nodes_of,
    lemma_node_of,
}

} // verus!
