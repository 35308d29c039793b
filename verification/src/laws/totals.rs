//! What is added up over a tree.

use vstd::prelude::*;

use crate::laws::scan::cached;
use crate::laws::words::{lemma_sum_last, sum};
use crate::model::node::{FileNode, Node};
use crate::model::totals::{
    consistent, ext_label, lemma_all_consistent, lemma_all_ordered, ordered, total, total_all,
    Measure,
};

verus! {

broadcast use crate::model::node::group_nodes;

/// A node is seen as it is: with its name, its numbers, its kind, and its children in their
/// order.
pub proof fn a_node_is_seen_as_it_is(n: FileNode, i: int)
    ensures
        n@.name == n.name@,
        n@.size == n.size,
        n@.file_count == n.file_count,
        n@.dir_count == n.dir_count,
        n@.is_dir == n.is_dir,
        n@.children.len() == n.children@.len(),
        0 <= i < n.children@.len() ==> n@.children[i] == n.children@[i]@,
{
}

/// What each of some nodes adds up to.
pub open spec fn totals_of(s: Seq<Node>, m: Measure) -> Seq<nat> {
    s.map_values(|c: Node| total(c, m))
}

pub proof fn lemma_total_all_sum(s: Seq<Node>, m: Measure)
    ensures
        total_all(s, m) == sum(totals_of(s, m)),
    decreases s.len(),
{
    if s.len() > 0 {
        lemma_total_all_sum(s.drop_last(), m);
        assert(totals_of(s, m).drop_last() =~= totals_of(s.drop_last(), m));
        lemma_sum_last(totals_of(s, m));
    }
}

/// The total of a directory is the sum of those of its children, and one more where
/// directories are counted. A file adds its size to the bytes, and one to the files, of the
/// whole and of its label.
pub proof fn a_total_is_the_sum_over_the_children(n: Node, m: Measure)
    ensures
        n.is_dir ==> total(n, m) == sum(totals_of(n.children, m)) + (if m is Dirs {
            1nat
        } else {
            0
        }),
        !n.is_dir ==> total(n, m) == sum(totals_of(n.children, m)) + (match m {
            Measure::Bytes => n.size as nat,
            Measure::Files => 1,
            Measure::Dirs => 0,
            Measure::LabelBytes(l) => if ext_label(n) == l {
                n.size as nat
            } else {
                0
            },
            Measure::LabelFiles(l) => if ext_label(n) == l {
                1
            } else {
                0
            },
        }),
{
    lemma_total_all_sum(n.children, m);
}

/// The cached totals of a tree are right exactly if each node has the bytes, files and
/// directories that it adds up to.
pub proof fn right_totals_are_what_a_tree_adds_up_to(n: Node)
    ensures
        consistent(n) <==> {
            &&& n.size == total(n, Measure::Bytes)
            &&& cached(total(n, Measure::Files), n.file_count)
            &&& cached(total(n, Measure::Dirs), n.dir_count)
            &&& !n.is_dir ==> n.children.len() == 0
            &&& forall|i: int| 0 <= i < n.children.len() ==> consistent(#[trigger] n.children[i])
        },
        ordered(n) <==> {
            &&& forall|i: int, j: int|
                0 <= i <= j < n.children.len() ==> (#[trigger] n.children[i]).size >= (
                #[trigger] n.children[j]).size
            &&& forall|i: int| 0 <= i < n.children.len() ==> ordered(#[trigger] n.children[i])
        },
{
    lemma_all_consistent(n.children);
    lemma_all_ordered(n.children);
}

/// Counting a tree gives the bytes and the files that it adds up to, if they can be told.
pub proof fn counting_gives_the_totals(n: FileNode, r: Option<(u64, u64)>)
    requires
        call_ensures(FileNode::count_all, (&n,), r),
    ensures
        r is Some ==> (r->0).0 == total(n@, Measure::Bytes),
        r is Some ==> (r->0).1 == total(n@, Measure::Files),
        r is None ==> total(n@, Measure::Bytes) > u64::MAX || total(n@, Measure::Files) > u64::MAX,
        !n.is_dir && n.children@.len() == 0 ==> r == Some((n.size, 1u64)),
{
    a_total_is_the_sum_over_the_children(n@, Measure::Bytes);
    a_total_is_the_sum_over_the_children(n@, Measure::Files);
    if n.children@.len() == 0 {
        assert(totals_of(n@.children, Measure::Bytes) =~= Seq::empty());
        assert(totals_of(n@.children, Measure::Files) =~= Seq::empty());
    }
}

} // verus!
