//! The treemap: which folder it shows, and what a click in it selects.

use vstd::prelude::*;

use crate::model::node::{FileNode, Node};
use crate::model::tree::{copy_path, lemma_node_at_concat, node_at, TreePath};
use crate::text::push_text;
use crate::ui::tree_view::{copy_opt_path, opt_path, prefix_of};

verus! {

broadcast use crate::model::node::group_nodes;

/// The folder that the view is rooted at: the one that was navigated to, or the
/// whole tree if that path is stale (a delete can reindex siblings).
pub fn view_root(root: &FileNode, dir: &[usize]) -> (r: TreePath)
    ensures
        r@ == (if node_at(root@, dir@) is Some {
            dir@
        } else {
            Seq::empty()
        }),
{
    if root.resolve_path(dir).is_some() {
        copy_path(dir)
    } else {
        Vec::new()
    }
}

/// The index path in the tree of what is at `rel` in the view.
pub fn absolute_path(view: &[usize], rel: &[usize]) -> (r: TreePath)
    ensures
        r@ == view@ + rel@,
{
    let mut r = copy_path(view);
    for i in 0..rel.len()
        invariant
            r@ == view@ + rel@.take(i as int),
    {
        r.push(rel[i]);
        assert(view@ + rel@.take(i + 1) =~= (view@ + rel@.take(i as int)).push(rel@[i as int]));
    }
    assert(rel@.take(rel@.len() as int) =~= rel@);
    r
}

/// The selection after a click. What was hit is selected. A click on the background
/// of the view, which hits the folder itself, selects the folder above it, if that
/// is not the root; a click on the background of the whole tree, or beside
/// everything, changes nothing.
pub open spec fn clicked(
    view: Seq<usize>,
    hit: Option<Seq<usize>>,
    selected: Option<Seq<usize>>,
) -> Option<Seq<usize>> {
    match hit {
        None => selected,
        Some(rel) => if rel.len() > 0 {
            Some(view + rel)
        } else if view.len() == 0 {
            selected
        } else if view.len() == 1 {
            None
        } else {
            Some(view.drop_last())
        },
    }
}

/// The selection after a click that hit what is at `hit` in the view.
pub fn click_selection(view: &[usize], hit: &Option<TreePath>, selected: &Option<TreePath>) -> (r:
    Option<TreePath>)
    ensures
        opt_path(r) == clicked(view@, opt_path(*hit), opt_path(*selected)),
{
    match hit {
        None => copy_opt_path(selected),
        Some(rel) => {
            if rel.len() > 0 {
                Some(absolute_path(view, rel.as_slice()))
            } else if view.len() == 0 {
                copy_opt_path(selected)
            } else if view.len() == 1 {
                None
            } else {
                let up = prefix_of(view, view.len() - 1);
                assert(up@ =~= view@.drop_last());
                Some(up)
            }
        },
    }
}

/// What a hit in the view stands for in the tree, if it is not the background.
pub fn hit_path(view: &[usize], hit: &Option<TreePath>) -> (r: Option<TreePath>)
    ensures
        opt_path(r) == (match *hit {
            Some(rel) => if rel@.len() > 0 {
                Some(view@ + rel@)
            } else {
                None
            },
            None => None,
        }),
{
    match hit {
        Some(rel) => if rel.len() > 0 {
            Some(absolute_path(view, rel.as_slice()))
        } else {
            None
        },
        None => None,
    }
}

/// Where the selection is in the view, if it is in it.
pub fn selection_in_view(view: &[usize], selected: &[usize]) -> (r: Option<TreePath>)
    ensures
        opt_path(r) == (if view@.is_prefix_of(selected@) {
            Some(selected@.skip(view@.len() as int))
        } else {
            None
        }),
{
    if selected.len() < view.len() {
        return None;
    }
    for i in 0..view.len()
        invariant
            view@.len() <= selected@.len(),
            forall|j: int| 0 <= j < i ==> view@[j] == selected@[j],
    {
        if view[i] != selected[i] {
            assert(view@[i as int] != selected@.subrange(0, view@.len() as int)[i as int]);
            return None;
        }
    }
    assert(view@ =~= selected@.subrange(0, view@.len() as int));
    let mut r: TreePath = Vec::new();
    let n = view.len();
    for i in n..selected.len()
        invariant
            n == view@.len(),
            n <= selected@.len(),
            r@ == selected@.subrange(n as int, i as int),
    {
        r.push(selected[i]);
        assert(selected@.subrange(n as int, i + 1) =~= selected@.subrange(n as int, i as int).push(
            selected@[i as int],
        ));
    }
    assert(selected@.subrange(n as int, selected@.len() as int) =~= selected@.skip(n as int));
    Some(r)
}

/// What is found in the view is what the path in the tree leads to.
pub proof fn view_paths_lead_to_the_same_node(root: Node, view: Seq<usize>, rel: Seq<usize>)
    requires
        node_at(root, view) is Some,
    ensures
        node_at(root, view + rel) == node_at(node_at(root, view)->0, rel),
{
    lemma_node_at_concat(root, view, rel);
}

/// The names from a node down a path, where an index that leads nowhere is passed
/// over.
pub open spec fn names_through(n: Node, path: Seq<usize>) -> Seq<Seq<char>>
    decreases path.len(),
{
    if path.len() == 0 {
        Seq::empty()
    } else if path[0] < n.children.len() {
        let c = n.children[path[0] as int];
        seq![c.name] + names_through(c, path.drop_first())
    } else {
        names_through(n, path.drop_first())
    }
}

/// A text with each of `names` after it, a slash before each.
pub open spec fn with_names(s: Seq<char>, names: Seq<Seq<char>>) -> Seq<char>
    decreases names.len(),
{
    if names.len() == 0 {
        s
    } else {
        with_names(s.push('/') + names[0], names.drop_first())
    }
}

/// The path that a tooltip shows for a node: the names from the root down.
pub fn build_path(root: &FileNode, path: &[usize]) -> (r: String)
    ensures
        r@ == with_names(root@.name, names_through(root@, path@)),
{
    let mut s = root.name.clone();
    let mut node: &FileNode = root;
    assert(path@.skip(0) =~= path@);
    for i in 0..path.len()
        invariant
            with_names(s@, names_through(node@, path@.skip(i as int))) == with_names(
                root@.name,
                names_through(root@, path@),
            ),
    {
        let ghost rest = path@.skip(i as int);
        assert(rest.drop_first() =~= path@.skip(i + 1));
        if path[i] < node.children.len() {
            let child = &node.children[path[i]];
            let ghost names = names_through(node@, rest);
            assert(names.drop_first() =~= names_through(child@, path@.skip(i + 1)));
            s.push('/');
            push_text(&mut s, child.name.as_str());
            node = child;
        }
    }
    s
}

} // verus!
