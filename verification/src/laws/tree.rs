//! Where the nodes of a tree are, and what taking one out does.

use vstd::prelude::*;

use crate::laws::paths::{is_one_name, joined_names};
use crate::model::edit::{reduced_above, without};
use crate::model::node::{FileNode, Node};
use crate::model::tree::{
    copy_path, fs_path_at, fs_path_exists_with_node, fs_path_of_child, node_at, same_index_path,
    FileTree, TreePath,
};
use crate::path::{joined, path_parts};

verus! {

broadcast use crate::model::node::group_nodes;

/// An index path leads from a node to itself where it is empty. One index more leads to that
/// child of where the path leads, if there is one.
pub proof fn an_index_leads_to_the_child_at_it(n: Node, p: Seq<usize>, i: usize)
    ensures
        p.len() == 0 ==> node_at(n, p) == Some(n),
        node_at(n, p) is None ==> node_at(n, p.push(i)) is None,
        node_at(n, p) is Some && i >= node_at(n, p)->0.children.len() ==> node_at(
            n,
            p.push(i),
        ) is None,
        node_at(n, p) is Some && i < node_at(n, p)->0.children.len() ==> node_at(n, p.push(i))
            == Some(node_at(n, p)->0.children[i as int]),
    decreases p.len(),
{
    let q = p.push(i);
    if p.len() == 0 {
        assert(q.drop_first() =~= Seq::empty());
        if i < n.children.len() {
            assert(node_at(n.children[i as int], q.drop_first()) == Some(n.children[i as int]));
        }
    } else {
        assert(q.drop_first() =~= p.drop_first().push(i));
        assert(q[0] == p[0]);
        if p[0] < n.children.len() {
            an_index_leads_to_the_child_at_it(n.children[p[0] as int], p.drop_first(), i);
        }
    }
}

/// Resolving a path gives the node that it leads to.
pub proof fn resolving_gives_the_node_at_a_path(n: &FileNode, path: &[usize], r: Option<&FileNode>)
    requires
        call_ensures(FileNode::resolve_path, (n, path), r),
    ensures
        r is Some <==> node_at(n@, path@) is Some,
        r is Some ==> r->0@ == node_at(n@, path@)->0,
        path@.len() == 0 ==> r is Some && r->0@ == n@,
        path@.len() == 1 ==> (r is Some <==> path@[0] < n.children@.len()),
        path@.len() == 1 && r is Some ==> r->0@ == n.children@[path@[0] as int]@,
{
    if path@.len() == 1 {
        assert(path@ =~= Seq::<usize>::empty().push(path@[0]));
        an_index_leads_to_the_child_at_it(n@, Seq::empty(), path@[0]);
    }
}

/// A copy of a path is that path.
pub proof fn a_copied_path_is_the_path(path: &[usize], r: TreePath, i: int)
    requires
        call_ensures(copy_path, (path,), r),
    ensures
        r@.len() == path@.len(),
        0 <= i < path@.len() ==> r@[i] == path@[i],
{
}

/// Two paths are the same if their indices are.
pub proof fn paths_are_the_same_index_by_index(a: &[usize], b: &[usize], r: bool)
    requires
        call_ensures(same_index_path, (a, b), r),
    ensures
        r <==> a@.len() == b@.len() && forall|i: int| 0 <= i < a@.len() ==> a@[i] == b@[i],
{
    if a@.len() == b@.len() && (forall|i: int| 0 <= i < a@.len() ==> a@[i] == b@[i]) {
        assert(a@ =~= b@);
    }
}

/// Whether every node below `n` that `path` leads through has a name that is one.
pub open spec fn named_along(n: Node, path: Seq<usize>) -> bool {
    forall|k: int|
        0 < k <= path.len() ==> is_one_name(node_at(n, #[trigger] path.take(k))->0.name)
}

pub proof fn lemma_fs_names(base: Seq<char>, n: Node, path: Seq<usize>)
    requires
        node_at(n, path) is Some,
        named_along(n, path),
    ensures
        fs_path_at(base, n, path) is Some,
        ({
            let names = path_parts(fs_path_at(base, n, path)->0).names;
            let start = path_parts(base).names;
            &&& path_parts(fs_path_at(base, n, path)->0).absolute == path_parts(base).absolute
            &&& names.len() == start.len() + path.len()
            &&& names.take(start.len() as int) == start
            &&& forall|k: int|
                0 < k <= path.len() ==> names[start.len() + k - 1] == node_at(
                    n,
                    #[trigger] path.take(k),
                )->0.name
        }),
    decreases path.len(),
{
    fs_path_exists_with_node(base, n, path);
    let start = path_parts(base).names;
    if path.len() == 0 {
        assert(start.take(start.len() as int) =~= start);
    } else {
        let p = path.drop_last();
        let i = path.last();
        assert(p.push(i) =~= path);
        an_index_leads_to_the_child_at_it(n, p, i);
        assert forall|k: int| 0 < k <= p.len() implies is_one_name(
            node_at(n, #[trigger] p.take(k))->0.name,
        ) by {
            assert(p.take(k) =~= path.take(k));
        }
        lemma_fs_names(base, n, p);
        fs_path_of_child(base, n, p, i);
        assert(path.take(path.len() as int) =~= path);
        let before = path_parts(fs_path_at(base, n, p)->0).names;
        let name = node_at(n, path)->0.name;
        joined_names(fs_path_at(base, n, p)->0, name);
        let names = before.push(name);
        assert(names.take(start.len() as int) =~= before.take(start.len() as int));
        assert forall|k: int| 0 < k <= path.len() implies names[start.len() + k - 1] == node_at(
            n,
            #[trigger] path.take(k),
        )->0.name by {
            if k < path.len() {
                assert(path.take(k) =~= p.take(k));
            }
        }
    }
}

/// The file system path of a node has the names of the root path, then those of the nodes
/// from the root down to it, each a name of its own. It is absolute if the root path is.
pub proof fn a_file_system_path_names_the_nodes_on_the_way(
    t: &FileTree,
    path: &[usize],
    r: Option<String>,
)
    requires
        call_ensures(FileTree::build_fs_path, (t, path), r),
    ensures
        r is Some <==> node_at(t.root@, path@) is Some,
        path@.len() == 0 ==> r is Some && r->0@ == t.root_path@,
        r is Some && named_along(t.root@, path@) ==> {
            let names = path_parts(r->0@).names;
            let start = path_parts(t.root_path@).names;
            &&& path_parts(r->0@).absolute == path_parts(t.root_path@).absolute
            &&& names.len() == start.len() + path@.len()
            &&& names.take(start.len() as int) == start
            &&& forall|k: int|
                0 < k <= path@.len() ==> names[start.len() + k - 1] == node_at(
                    t.root@,
                    #[trigger] path@.take(k),
                )->0.name
        },
{
    fs_path_exists_with_node(t.root_path@, t.root@, path@);
    if r is Some && named_along(t.root@, path@) {
        lemma_fs_names(t.root_path@, t.root@, path@);
    }
}

/// The path of the root is where the scan began, that of a child is the one of its folder
/// with its name joined, and what is not there has none.
pub proof fn a_file_system_path_grows_by_a_name(
    base: Seq<char>,
    n: Node,
    p: Seq<usize>,
    i: usize,
)
    ensures
        fs_path_at(base, n, Seq::empty()) == Some(base),
        fs_path_at(base, n, p) is Some <==> node_at(n, p) is Some,
        node_at(n, p.push(i)) is Some ==> fs_path_at(base, n, p.push(i)) == Some(
            joined(fs_path_at(base, n, p)->0, node_at(n, p.push(i))->0.name),
        ),
{
    fs_path_exists_with_node(base, n, p);
    an_index_leads_to_the_child_at_it(n, p, i);
    if node_at(n, p.push(i)) is Some {
        fs_path_of_child(base, n, p, i);
    }
}

/// The file system path of a child is that of its folder with its name joined.
pub proof fn the_path_of_a_child_is_that_of_its_folder_and_its_name(
    t: &FileTree,
    path: &[usize],
    child: &[usize],
    a: Option<String>,
    b: Option<String>,
)
    requires
        call_ensures(FileTree::build_fs_path, (t, path), a),
        call_ensures(FileTree::build_fs_path, (t, child), b),
        child@.len() == path@.len() + 1,
        child@.drop_last() == path@,
        node_at(t.root@, child@) is Some,
    ensures
        a is Some && b is Some,
        b->0@ == joined(a->0@, node_at(t.root@, child@)->0.name),
{
    let i = child@.last();
    assert(path@.push(i) =~= child@);
    an_index_leads_to_the_child_at_it(t.root@, path@, i);
    fs_path_of_child(t.root_path@, t.root@, path@, i);
    fs_path_exists_with_node(t.root_path@, t.root@, path@);
}

/// Whether `a` is `b` less `c`, or 0 where that would be negative.
pub open spec fn is_less_by(a: int, b: int, c: int) -> bool {
    a == (if b >= c {
        b - c
    } else {
        0
    })
}

/// Whether the cached totals of `a` are those of `b` less those of `gone`; the name and the
/// kind are the same.
pub open spec fn has_less(a: Node, b: Node, gone: Node) -> bool {
    &&& a.name == b.name
    &&& a.is_dir == b.is_dir
    &&& is_less_by(a.size as int, b.size as int, gone.size as int)
    &&& is_less_by(a.file_count as int, b.file_count as int, gone.file_count as int)
    &&& is_less_by(a.dir_count as int, b.dir_count as int, gone.dir_count as int)
}

/// Whether `after` is `before` without the node at `path`, as far as the node after `k`
/// indices of the path shows it: its totals have less by those of the node that is gone, and
/// its children are what they were, without that node or with the next one on the way to it
/// changed.
pub open spec fn is_taken_out_at(before: Node, after: Node, path: Seq<usize>, k: int) -> bool {
    let b = node_at(before, path.take(k))->0;
    let a = node_at(after, path.take(k))->0;
    &&& node_at(after, path.take(k)) is Some
    &&& has_less(a, b, node_at(before, path)->0)
    &&& k == path.len() - 1 ==> a.children == b.children.remove(path[k] as int)
    &&& k < path.len() - 1 ==> a.children.len() == b.children.len() && forall|j: int|
        0 <= j < b.children.len() && j != path[k] ==> (#[trigger] a.children[j]) == b.children[j]
}

/// Whether `after` is `before` without the node at `path`.
pub open spec fn is_taken_out(before: Node, after: Node, path: Seq<usize>) -> bool {
    forall|k: int| 0 <= k < path.len() ==> #[trigger] is_taken_out_at(before, after, path, k)
}

proof fn lemma_without_at(n: Node, path: Seq<usize>, k: int)
    requires
        0 <= k < path.len(),
        node_at(n, path) is Some,
    ensures
        node_at(n, path.take(k)) is Some,
        is_taken_out_at(n, without(n, path), path, k),
    decreases path.len(),
{
    let m = without(n, path);
    let i = path[0] as int;
    let c = n.children[i];
    let q = path.take(k);
    if path.len() == 1 {
        assert(q =~= Seq::empty());
        assert(path.drop_first() =~= Seq::empty());
        assert(node_at(c, path.drop_first()) == Some(c));
    } else if k == 0 {
        assert(q =~= Seq::empty());
    } else {
        let rest = path.drop_first();
        lemma_without_at(c, rest, k - 1);
        assert(q[0] == path[0]);
        assert(q.drop_first() =~= rest.take(k - 1));
        assert(m.children[i] == without(c, rest));
        assert(rest[k - 1] == path[k]);
    }
}

pub proof fn lemma_taken_out(n: Node, path: Seq<usize>)
    requires
        path.len() > 0,
        node_at(n, path) is Some,
    ensures
        is_taken_out(n, without(n, path), path),
{
    assert forall|k: int| 0 <= k < path.len() implies #[trigger] is_taken_out_at(
        n,
        without(n, path),
        path,
        k,
    ) by {
        lemma_without_at(n, path, k);
    }
}

/// Removing a child takes that child out, and its totals from those of the node. The other
/// children stay as they are, in their order.
pub proof fn removing_a_child_takes_its_totals(n: &mut FileNode, index: usize, r: FileNode)
    requires
        call_ensures(FileNode::remove_child, (n, index), r),
        index < old(n).children@.len(),
    ensures
        r@ == old(n).children@[index as int]@,
        final(n)@.children == old(n)@.children.remove(index as int),
        has_less(final(n)@, old(n)@, r@),
{
}

/// Removing what is at a path takes that node out of the tree, and its totals from those of
/// every node above it; all else stays. A path that leads nowhere, or to the root, removes
/// nothing.
pub proof fn removing_takes_a_node_out_of_all_above_it(
    t: &mut FileTree,
    path: &[usize],
    r: Option<FileNode>,
)
    requires
        call_ensures(FileTree::remove_at_path, (t, path), r),
    ensures
        r is Some <==> path@.len() > 0 && node_at(old(t).root@, path@) is Some,
        r is Some ==> r->0@ == node_at(old(t).root@, path@)->0,
        r is Some ==> is_taken_out(old(t).root@, final(t).root@, path@),
        r is None ==> final(t).root == old(t).root,
        final(t).root_path@ == old(t).root_path@,
        final(t).extensions == old(t).extensions,
        final(t).permission_denied == old(t).permission_denied,
        final(t).size_approximate == old(t).size_approximate,
{
    if r is Some {
        lemma_taken_out(old(t).root@, path@);
    }
}

/// Whether the node after `k` indices of a path has less by these numbers, and its children
/// are what they were but for the next one on the way.
pub open spec fn is_reduced_at(
    before: Node,
    after: Node,
    path: Seq<usize>,
    less: Node,
    k: int,
) -> bool {
    let b = node_at(before, path.take(k))->0;
    let a = node_at(after, path.take(k))->0;
    &&& node_at(after, path.take(k)) is Some
    &&& has_less(a, b, less)
    &&& a.children.len() == b.children.len()
    &&& forall|j: int|
        0 <= j < b.children.len() && (j != path[k] || k == path.len() - 2) ==> (
        #[trigger] a.children[j]) == b.children[j]
}

proof fn lemma_reduced_at(n: Node, path: Seq<usize>, less: Node, k: int)
    requires
        0 <= k < path.len() - 1,
        node_at(n, path.take(k)) is Some,
    ensures
        is_reduced_at(
            n,
            reduced_above(n, path, less.size, less.file_count, less.dir_count),
            path,
            less,
            k,
        ),
    decreases path.len(),
{
    let m = reduced_above(n, path, less.size, less.file_count, less.dir_count);
    let i = path[0] as int;
    let q = path.take(k);
    reveal_with_fuel(reduced_above, 2);
    if k == 0 {
        assert(q =~= Seq::empty());
    } else {
        let c = n.children[i];
        let rest = path.drop_first();
        assert(q[0] == path[0]);
        assert(q.drop_first() =~= rest.take(k - 1));
        lemma_reduced_at(c, rest, less, k - 1);
        assert(m.children[i] == reduced_above(
            c,
            rest,
            less.size,
            less.file_count,
            less.dir_count,
        ));
        assert(rest[k - 1] == path[k]);
    }
}

/// Subtracting from the ancestors of a node takes the numbers from every node above the one
/// that it is in; that one, and all else, stays.
pub proof fn subtracting_reduces_the_nodes_above_the_parent(
    t: &mut FileTree,
    path: &[usize],
    less: Node,
    k: int,
)
    requires
        call_ensures(
            FileTree::subtract_from_ancestors,
            (t, path, less.size, less.file_count, less.dir_count),
            (),
        ),
    ensures
        path@.len() < 2 ==> final(t).root@ == old(t).root@,
        0 <= k < path@.len() - 1 && node_at(old(t).root@, path@.take(k)) is Some ==> is_reduced_at(
            old(t).root@,
            final(t).root@,
            path@,
            less,
            k,
        ),
        final(t).root_path@ == old(t).root_path@,
        final(t).extensions == old(t).extensions,
        final(t).permission_denied == old(t).permission_denied,
        final(t).size_approximate == old(t).size_approximate,
{
    if 0 <= k < path@.len() - 1 && node_at(old(t).root@, path@.take(k)) is Some {
        lemma_reduced_at(old(t).root@, path@, less, k);
    }
}

} // verus!
