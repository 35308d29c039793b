//! Taking nodes out of a tree.

use vstd::prelude::*;

use crate::model::node::{nodes_of, FileNode, Node};
use crate::model::totals::{
    consistent, lemma_all_consistent, lemma_all_ordered, lemma_total_child, lemma_total_remove,
    lemma_total_update, ordered, own, total, Measure,
};
use crate::model::tree::{node_at, FileTree};

verus! {

broadcast use crate::model::node::group_nodes;

/// A node with less in its cached totals, none of which falls below 0.
pub open spec fn reduced(n: Node, size: u64, files: u32, dirs: u32) -> Node {
    Node {
        size: if n.size >= size {
            (n.size - size) as u64
        } else {
            0
        },
        file_count: if n.file_count >= files {
            (n.file_count - files) as u32
        } else {
            0
        },
        dir_count: if n.dir_count >= dirs {
            (n.dir_count - dirs) as u32
        } else {
            0
        },
        ..n
    }
}

/// A node without the child at `i`, and with less in its cached totals by what
/// that child had.
pub open spec fn without_child(n: Node, i: int) -> Node {
    let c = n.children[i];
    Node { children: n.children.remove(i), ..reduced(n, c.size, c.file_count, c.dir_count) }
}

/// A tree without the node at `path`. The cached totals of every node above it
/// have less by what it had.
pub open spec fn without(n: Node, path: Seq<usize>) -> Node
    decreases path.len(),
{
    if path.len() < 2 {
        without_child(n, path[0] as int)
    } else {
        let i = path[0] as int;
        let gone = node_at(n, path)->0;
        Node {
            children: n.children.update(i, without(n.children[i], path.drop_first())),
            ..reduced(n, gone.size, gone.file_count, gone.dir_count)
        }
    }
}

/// A tree in which the nodes above the parent of the one at `path` have less in
/// their cached totals, down to where the path leaves the tree.
pub open spec fn reduced_above(
    n: Node,
    path: Seq<usize>,
    size: u64,
    files: u32,
    dirs: u32,
) -> Node
    decreases path.len(),
{
    if path.len() < 2 {
        n
    } else {
        let i = path[0] as int;
        let m = reduced(n, size, files, dirs);
        if i < n.children.len() {
            Node {
                children: n.children.update(
                    i,
                    reduced_above(n.children[i], path.drop_first(), size, files, dirs),
                ),
                ..m
            }
        } else {
            m
        }
    }
}

/// Taking a node out takes exactly its totals out of the tree.
pub proof fn lemma_without_totals(n: Node, path: Seq<usize>, m: Measure)
    requires
        consistent(n),
        path.len() > 0,
        node_at(n, path) is Some,
    ensures
        n.is_dir,
        total(n, m) == total(without(n, path), m) + total(node_at(n, path)->0, m),
    decreases path.len(),
{
    let i = path[0] as int;
    let c = n.children[i];
    lemma_all_consistent(n.children);
    assert(own(n, m) == own(without(n, path), m));
    if path.len() == 1 {
        assert(path.drop_first() =~= Seq::empty());
        assert(node_at(c, path.drop_first()) == Some(c));
        lemma_total_remove(n.children, i, m);
    } else {
        lemma_without_totals(c, path.drop_first(), m);
        lemma_total_update(n.children, i, without(c, path.drop_first()), m);
    }
}

/// A node counts no less than any node below it.
pub proof fn lemma_total_at(n: Node, path: Seq<usize>, m: Measure)
    requires
        node_at(n, path) is Some,
    ensures
        total(node_at(n, path)->0, m) <= total(n, m),
    decreases path.len(),
{
    if path.len() > 0 {
        let c = n.children[path[0] as int];
        lemma_total_at(c, path.drop_first(), m);
        lemma_total_child(n.children, path[0] as int, m);
    }
}

pub proof fn lemma_consistent_at(n: Node, path: Seq<usize>)
    requires
        consistent(n),
        node_at(n, path) is Some,
    ensures
        consistent(node_at(n, path)->0),
    decreases path.len(),
{
    if path.len() > 0 {
        lemma_all_consistent(n.children);
        lemma_consistent_at(n.children[path[0] as int], path.drop_first());
    }
}

/// What is left after a node is taken out adds up to no more than there was.
pub proof fn lemma_without_no_more(n: Node, path: Seq<usize>, m: Measure)
    requires
        path.len() > 0,
        node_at(n, path) is Some,
    ensures
        total(without(n, path), m) <= total(n, m),
    decreases path.len(),
{
    let i = path[0] as int;
    let c = n.children[i];
    assert(own(without(n, path), m) <= own(n, m));
    if path.len() == 1 {
        lemma_total_remove(n.children, i, m);
    } else {
        lemma_without_no_more(c, path.drop_first(), m);
        lemma_total_update(n.children, i, without(c, path.drop_first()), m);
    }
}

/// Deleting keeps a tree right: if its cached totals are the true ones, and no
/// count has reached the cap, they still are after a node is taken out.
pub proof fn removal_keeps_totals_right(n: Node, path: Seq<usize>)
    requires
        consistent(n),
        total(n, Measure::Files) <= u32::MAX,
        total(n, Measure::Dirs) <= u32::MAX,
        path.len() > 0,
        node_at(n, path) is Some,
    ensures
        consistent(without(n, path)),
    decreases path.len(),
{
    let i = path[0] as int;
    let c = n.children[i];
    let gone = node_at(n, path)->0;
    let after = without(n, path);
    lemma_without_totals(n, path, Measure::Bytes);
    lemma_without_totals(n, path, Measure::Files);
    lemma_without_totals(n, path, Measure::Dirs);
    lemma_consistent_at(n, path);
    lemma_total_at(n, path, Measure::Files);
    lemma_total_at(n, path, Measure::Dirs);
    lemma_all_consistent(n.children);
    if path.len() == 1 {
        assert(path.drop_first() =~= Seq::empty());
        assert(node_at(c, path.drop_first()) == Some(c));
        assert forall|j: int| 0 <= j < after.children.len() implies consistent(
            #[trigger] after.children[j],
        ) by {
            assert(after.children[j] == if j < i {
                n.children[j]
            } else {
                n.children[j + 1]
            });
        }
    } else {
        lemma_total_child(n.children, i, Measure::Files);
        lemma_total_child(n.children, i, Measure::Dirs);
        removal_keeps_totals_right(c, path.drop_first());
        assert forall|j: int| 0 <= j < after.children.len() implies consistent(
            #[trigger] after.children[j],
        ) by {
            if j != i {
                assert(after.children[j] == n.children[j]);
            }
        }
    }
    lemma_all_consistent(after.children);
}

/// Taking a node out is what is done to the nodes above its parent together with
/// taking the child out of the parent.
pub proof fn removal_is_reduction_above_and_child_removal(n: Node, path: Seq<usize>)
    requires
        path.len() > 0,
        node_at(n, path) is Some,
    ensures
        ({
            let gone = node_at(n, path)->0;
            let above = reduced_above(n, path, gone.size, gone.file_count, gone.dir_count);
            let parent = path.drop_last();
            &&& node_at(above, parent) is Some
            &&& without(n, path) == replaced_at(
                above,
                parent,
                without_child(node_at(above, parent)->0, path.last() as int),
            )
        }),
    decreases path.len(),
{
    let gone = node_at(n, path)->0;
    let parent = path.drop_last();
    let above = reduced_above(n, path, gone.size, gone.file_count, gone.dir_count);
    if path.len() == 1 {
        assert(path.drop_first() =~= Seq::empty());
        assert(node_at(n.children[path[0] as int], path.drop_first()) == Some(
            n.children[path[0] as int],
        ));
    } else {
        let i = path[0] as int;
        let c = n.children[i];
        removal_is_reduction_above_and_child_removal(c, path.drop_first());
        assert(path.drop_first().drop_last() =~= parent.drop_first());
        assert(parent[0] == path[0]);
        assert(path.drop_first().last() == path.last());
        let above_c = reduced_above(
            c,
            path.drop_first(),
            gone.size,
            gone.file_count,
            gone.dir_count,
        );
        assert(above.children[i] == above_c);
        assert(above.children.update(i, without(c, path.drop_first())) =~= n.children.update(
            i,
            without(c, path.drop_first()),
        ));
    }
}

/// A tree with `x` in place of the node at `path`.
pub open spec fn replaced_at(n: Node, path: Seq<usize>, x: Node) -> Node
    decreases path.len(),
{
    if path.len() == 0 {
        x
    } else {
        let i = path[0] as int;
        Node {
            children: n.children.update(i, replaced_at(n.children[i], path.drop_first(), x)),
            ..n
        }
    }
}

/// Taking a child out of a directory leaves the others in order. (Taking out what is
/// deeper makes the folders above it smaller, and may put them out of order.)
pub proof fn removing_a_child_keeps_the_order(n: Node, i: int)
    requires
        ordered(n),
        0 <= i < n.children.len(),
    ensures
        ordered(without_child(n, i)),
{
    let s = n.children.remove(i);
    lemma_all_ordered(n.children);
    assert forall|k: int| 0 <= k < s.len() implies ordered(#[trigger] s[k]) by {
        if k < i {
            assert(s[k] == n.children[k]);
        } else {
            assert(s[k] == n.children[k + 1]);
        }
    }
    lemma_all_ordered(s);
    assert forall|a: int, b: int| 0 <= a <= b < s.len() implies (#[trigger] s[a]).size >= (
    #[trigger] s[b]).size by {
        let x = if a < i {
            a
        } else {
            a + 1
        };
        let y = if b < i {
            b
        } else {
            b + 1
        };
        assert(s[a] == n.children[x] && s[b] == n.children[y]);
    }
}

impl FileNode {
    /// Takes from the cached totals, none of which falls below 0.
    fn reduce(&mut self, size: u64, files: u32, dirs: u32)
        ensures
            final(self)@ == reduced(old(self)@, size, files, dirs),
            final(self).children == old(self).children,
    {
        self.size = self.size.saturating_sub(size);
        self.file_count = self.file_count.saturating_sub(files);
        self.dir_count = self.dir_count.saturating_sub(dirs);
    }

    /// Remove the child at `index` from this node's children, updating size and
    /// counts. Returns the removed child.
    pub fn remove_child(&mut self, index: usize) -> (r: FileNode)
        requires
            index < old(self)@.children.len(),
        ensures
            r@ == old(self)@.children[index as int],
            final(self)@ == without_child(old(self)@, index as int),
    {
        let ghost before = self.children@;
        let removed = self.children.remove(index);
        assert(nodes_of(self.children@) =~= nodes_of(before).remove(index as int));
        self.reduce(removed.size, removed.file_count, removed.dir_count);
        removed
    }

    fn remove_below(&mut self, path: &[usize], at: usize) -> (r: FileNode)
        requires
            at < path@.len(),
            node_at(old(self)@, path@.skip(at as int)) is Some,
        ensures
            Some(r@) == node_at(old(self)@, path@.skip(at as int)),
            final(self)@ == without(old(self)@, path@.skip(at as int)),
        decreases path@.len() - at,
    {
        let ghost rest = path@.skip(at as int);
        let i = path[at];
        assert(rest[0] == i);
        assert(rest.drop_first() =~= path@.skip(at + 1));
        if at + 1 == path.len() {
            assert(node_at(self@.children[i as int], rest.drop_first()) == Some(
                self@.children[i as int],
            ));
            return self.remove_child(i);
        }
        let ghost before = self.children@;
        let removed = self.children[i].remove_below(path, at + 1);
        assert(nodes_of(self.children@) =~= nodes_of(before).update(
            i as int,
            self.children@[i as int]@,
        ));
        self.reduce(removed.size, removed.file_count, removed.dir_count);
        removed
    }

    fn reduce_above(&mut self, path: &[usize], at: usize, size: u64, files: u32, dirs: u32)
        requires
            at <= path@.len(),
        ensures
            final(self)@ == reduced_above(
                old(self)@,
                path@.skip(at as int),
                size,
                files,
                dirs,
            ),
        decreases path@.len() - at,
    {
        let ghost rest = path@.skip(at as int);
        if path.len() - at < 2 {
            return ;
        }
        let i = path[at];
        assert(rest[0] == i);
        assert(rest.drop_first() =~= path@.skip(at + 1));
        let ghost before = self.children@;
        if i < self.children.len() {
            self.children[i].reduce_above(path, at + 1, size, files, dirs);
            assert(nodes_of(self.children@) =~= nodes_of(before).update(
                i as int,
                self.children@[i as int]@,
            ));
        }
        self.reduce(size, files, dirs);
    }
}

impl FileTree {
    /// Remove the node at the given index path from the tree, updating all
    /// ancestor sizes and counts. Returns the removed node, or None if the path
    /// is invalid or leads to the root.
    pub fn remove_at_path(&mut self, path: &[usize]) -> (r: Option<FileNode>)
        ensures
            path@.len() > 0 && node_at(old(self).root@, path@) is Some ==> {
                &&& r is Some
                &&& Some(r->0@) == node_at(old(self).root@, path@)
                &&& final(self).root@ == without(old(self).root@, path@)
            },
            path@.len() == 0 || node_at(old(self).root@, path@) is None ==> r is None
                && final(self).root == old(self).root,
            final(self).root_path == old(self).root_path,
            final(self).extensions == old(self).extensions,
            final(self).permission_denied == old(self).permission_denied,
            final(self).size_approximate == old(self).size_approximate,
    {
        if path.len() == 0 || self.root.resolve_path(path).is_none() {
            return None;
        }
        assert(path@.skip(0) =~= path@);
        Some(self.root.remove_below(path, 0))
    }

    /// Propagate a size and count reduction up the ancestor chain. The direct
    /// parent of the node at `path` is not touched: `FileNode::remove_child`
    /// updates it; its parent and those above are.
    pub fn subtract_from_ancestors(
        &mut self,
        path: &[usize],
        size: u64,
        file_count: u32,
        dir_count: u32,
    )
        ensures
            final(self).root@ == reduced_above(
                old(self).root@,
                path@,
                size,
                file_count,
                dir_count,
            ),
            final(self).root_path == old(self).root_path,
            final(self).extensions == old(self).extensions,
            final(self).permission_denied == old(self).permission_denied,
            final(self).size_approximate == old(self).size_approximate,
    {
        assert(path@.skip(0) =~= path@);
        self.root.reduce_above(path, 0, size, file_count, dir_count);
    }
}

} // verus!
