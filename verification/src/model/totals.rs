//! Totals over a tree, and what it means that the cached ones are right.

use vstd::prelude::*;
use vstd::seq_lib::*;

use crate::model::node::{FileNode, Node};
use crate::model::tree::node_extension;

verus! {

broadcast use crate::model::node::group_nodes;

/// What is added up over a tree.
pub enum Measure {
    /// The bytes of its files.
    Bytes,
    /// Its files.
    Files,
    /// Its directories.
    Dirs,
    /// The bytes of its files that are listed under a label.
    LabelBytes(Seq<char>),
    /// Its files that are listed under a label.
    LabelFiles(Seq<char>),
}

/// The label under which the statistics list a file: its extension, or a
/// sentinel if it has none.
pub open spec fn ext_label(n: Node) -> Seq<char> {
    if node_extension(n).len() == 0 {
        "(no ext)"@
    } else {
        node_extension(n)
    }
}

/// What a node itself adds to a total.
pub open spec fn own(n: Node, m: Measure) -> nat {
    match m {
        Measure::Bytes => if n.is_dir {
            0
        } else {
            n.size as nat
        },
        Measure::Files => if n.is_dir {
            0
        } else {
            1
        },
        Measure::Dirs => if n.is_dir {
            1
        } else {
            0
        },
        Measure::LabelBytes(l) => if !n.is_dir && ext_label(n) == l {
            n.size as nat
        } else {
            0
        },
        Measure::LabelFiles(l) => if !n.is_dir && ext_label(n) == l {
            1
        } else {
            0
        },
    }
}

/// The total over a node and everything below it.
pub open spec fn total(n: Node, m: Measure) -> nat
    decreases n,
{
    own(n, m) + total_all(n.children, m)
}

/// The total over some nodes and everything below them.
pub open spec fn total_all(s: Seq<Node>, m: Measure) -> nat
    decreases s,
{
    if s.len() == 0 {
        0
    } else {
        total_all(s.drop_last(), m) + total(s.last(), m)
    }
}

/// A count, held at the highest one that can be cached.
pub open spec fn capped(n: nat) -> u32 {
    if n > u32::MAX {
        u32::MAX
    } else {
        n as u32
    }
}

/// Whether the totals cached in a node and in everything below it are the true
/// ones, counts being held at the highest one that can be cached.
pub open spec fn consistent(n: Node) -> bool
    decreases n,
{
    &&& n.size == total(n, Measure::Bytes)
    &&& n.file_count == capped(total(n, Measure::Files))
    &&& n.dir_count == capped(total(n, Measure::Dirs))
    &&& !n.is_dir ==> n.children.len() == 0
    &&& all_consistent(n.children)
}

pub open spec fn all_consistent(s: Seq<Node>) -> bool
    decreases s,
{
    s.len() > 0 ==> all_consistent(s.drop_last()) && consistent(s.last())
}

/// Whether the children of a node, and of every node below it, descend in size.
pub open spec fn ordered(n: Node) -> bool
    decreases n,
{
    &&& forall|i: int, j: int|
        0 <= i <= j < n.children.len() ==> (#[trigger] n.children[i]).size >= (
        #[trigger] n.children[j]).size
    &&& all_ordered(n.children)
}

pub open spec fn all_ordered(s: Seq<Node>) -> bool
    decreases s,
{
    s.len() > 0 ==> all_ordered(s.drop_last()) && ordered(s.last())
}

/// The sum of the sizes cached in some nodes.
pub open spec fn sum_sizes(s: Seq<Node>) -> nat
    decreases s.len(),
{
    if s.len() == 0 {
        0
    } else {
        sum_sizes(s.drop_last()) + s.last().size as nat
    }
}

/// The sum of the file counts cached in some nodes.
pub open spec fn sum_files(s: Seq<Node>) -> nat
    decreases s.len(),
{
    if s.len() == 0 {
        0
    } else {
        sum_files(s.drop_last()) + s.last().file_count as nat
    }
}

/// The sum of the directory counts cached in some nodes.
pub open spec fn sum_dirs(s: Seq<Node>) -> nat
    decreases s.len(),
{
    if s.len() == 0 {
        0
    } else {
        sum_dirs(s.drop_last()) + s.last().dir_count as nat
    }
}

/// In a tree with right totals a directory caches the sums over its children:
/// their sizes, their file counts, and one more than their directory counts. A
/// file caches its own size, one file and no directory.
pub proof fn consistent_totals_are_sums(n: Node)
    requires
        consistent(n),
    ensures
        n.is_dir ==> n.size == sum_sizes(n.children),
        n.is_dir ==> n.file_count == capped(sum_files(n.children)),
        n.is_dir ==> n.dir_count == capped(1 + sum_dirs(n.children)),
        !n.is_dir ==> n.file_count == 1 && n.dir_count == 0,
{
    lemma_sums(n.children);
    if !n.is_dir {
        assert(n.children =~= Seq::empty());
    }
}

/// The sums over nodes with right totals are the true totals, as far as no cap
/// is reached.
pub proof fn lemma_sums(s: Seq<Node>)
    requires
        all_consistent(s),
    ensures
        sum_sizes(s) == total_all(s, Measure::Bytes),
        capped(sum_files(s)) == capped(total_all(s, Measure::Files)),
        capped(sum_dirs(s)) == capped(total_all(s, Measure::Dirs)),
        capped(1 + sum_dirs(s)) == capped(1 + total_all(s, Measure::Dirs)),
    decreases s.len(),
{
    if s.len() > 0 {
        reveal_with_fuel(consistent, 2);
        lemma_sums(s.drop_last());
        assert(consistent(s.last()));
    }
}

pub proof fn lemma_all_consistent(s: Seq<Node>)
    ensures
        all_consistent(s) <==> forall|i: int| 0 <= i < s.len() ==> consistent(#[trigger] s[i]),
    decreases s.len(),
{
    if s.len() > 0 {
        lemma_all_consistent(s.drop_last());
        if all_consistent(s) {
            assert forall|i: int| 0 <= i < s.len() implies consistent(#[trigger] s[i]) by {
                if i < s.len() - 1 {
                    assert(s[i] == s.drop_last()[i]);
                }
            }
        }
        if forall|i: int| 0 <= i < s.len() ==> consistent(#[trigger] s[i]) {
            assert forall|i: int| 0 <= i < s.drop_last().len() implies consistent(
                #[trigger] s.drop_last()[i],
            ) by {
                assert(s[i] == s.drop_last()[i]);
            }
            assert(s[s.len() - 1] == s.last());
        }
    }
}

pub proof fn lemma_all_ordered(s: Seq<Node>)
    ensures
        all_ordered(s) <==> forall|i: int| 0 <= i < s.len() ==> ordered(#[trigger] s[i]),
    decreases s.len(),
{
    if s.len() > 0 {
        lemma_all_ordered(s.drop_last());
        if all_ordered(s) {
            assert forall|i: int| 0 <= i < s.len() implies ordered(#[trigger] s[i]) by {
                if i < s.len() - 1 {
                    assert(s[i] == s.drop_last()[i]);
                }
            }
        }
        if forall|i: int| 0 <= i < s.len() ==> ordered(#[trigger] s[i]) {
            assert forall|i: int| 0 <= i < s.drop_last().len() implies ordered(
                #[trigger] s.drop_last()[i],
            ) by {
                assert(s[i] == s.drop_last()[i]);
            }
            assert(s[s.len() - 1] == s.last());
        }
    }
}

pub proof fn lemma_total_concat(a: Seq<Node>, b: Seq<Node>, m: Measure)
    ensures
        total_all(a + b, m) == total_all(a, m) + total_all(b, m),
    decreases b.len(),
{
    if b.len() == 0 {
        assert(a + b =~= a);
    } else {
        assert((a + b).drop_last() =~= a + b.drop_last());
        lemma_total_concat(a, b.drop_last(), m);
    }
}

pub proof fn lemma_total_one(x: Node, m: Measure)
    ensures
        total_all(seq![x], m) == total(x, m),
{
    assert(seq![x].drop_last() =~= Seq::empty());
    assert(total_all(Seq::empty(), m) == 0);
}

pub proof fn lemma_total_take(s: Seq<Node>, i: int, m: Measure)
    requires
        0 <= i < s.len(),
    ensures
        total_all(s.take(i + 1), m) == total_all(s.take(i), m) + total(s[i], m),
        total_all(s.take(i + 1), m) <= total_all(s, m),
{
    assert(s.take(i + 1).drop_last() =~= s.take(i));
    assert(s.take(i + 1).last() == s[i]);
    assert(s =~= s.take(i + 1) + s.skip(i + 1));
    lemma_total_concat(s.take(i + 1), s.skip(i + 1), m);
}

/// The total over nodes of which one is taken out.
pub proof fn lemma_total_remove(s: Seq<Node>, i: int, m: Measure)
    requires
        0 <= i < s.len(),
    ensures
        total_all(s, m) == total_all(s.remove(i), m) + total(s[i], m),
{
    let a = s.take(i);
    let b = s.skip(i + 1);
    assert(s =~= (a + seq![s[i]]) + b);
    assert(s.remove(i) =~= a + b);
    lemma_total_concat(a + seq![s[i]], b, m);
    lemma_total_concat(a, seq![s[i]], m);
    lemma_total_concat(a, b, m);
    lemma_total_one(s[i], m);
}

/// The total over nodes of which one is replaced.
pub proof fn lemma_total_update(s: Seq<Node>, i: int, x: Node, m: Measure)
    requires
        0 <= i < s.len(),
    ensures
        total_all(s.update(i, x), m) + total(s[i], m) == total_all(s, m) + total(x, m),
{
    let t = s.update(i, x);
    lemma_total_remove(s, i, m);
    lemma_total_remove(t, i, m);
    assert(t.remove(i) =~= s.remove(i));
}

/// The total does not depend on the order of the nodes.
pub proof fn lemma_total_permuted(a: Seq<Node>, b: Seq<Node>, m: Measure)
    requires
        a.to_multiset() == b.to_multiset(),
    ensures
        total_all(a, m) == total_all(b, m),
    decreases a.len(),
{
    broadcast use group_to_multiset_ensures;
    broadcast use vstd::multiset::group_multiset_axioms;

    assert(a.len() == a.to_multiset().len());
    assert(b.len() == b.to_multiset().len());
    if a.len() == 0 {
        assert(a =~= b);
    } else {
        let x = a.last();
        assert(a.contains(x));
        assert(a.to_multiset().count(x) > 0);
        assert(b.contains(x));
        let i = choose|i: int| 0 <= i < b.len() && b[i] == x;
        assert(a.remove(a.len() - 1) =~= a.drop_last());
        assert(a.drop_last().to_multiset() =~= b.remove(i).to_multiset());
        lemma_total_permuted(a.drop_last(), b.remove(i), m);
        lemma_total_remove(b, i, m);
    }
}

proof fn lemma_sums_concat(a: Seq<Node>, b: Seq<Node>)
    ensures
        sum_sizes(a + b) == sum_sizes(a) + sum_sizes(b),
        sum_files(a + b) == sum_files(a) + sum_files(b),
        sum_dirs(a + b) == sum_dirs(a) + sum_dirs(b),
    decreases b.len(),
{
    if b.len() == 0 {
        assert(a + b =~= a);
    } else {
        assert((a + b).drop_last() =~= a + b.drop_last());
        lemma_sums_concat(a, b.drop_last());
    }
}

/// The sums over cached totals do not depend on the order of the nodes.
pub proof fn lemma_sums_permuted(a: Seq<Node>, b: Seq<Node>)
    requires
        a.to_multiset() == b.to_multiset(),
    ensures
        sum_sizes(a) == sum_sizes(b),
        sum_files(a) == sum_files(b),
        sum_dirs(a) == sum_dirs(b),
    decreases a.len(),
{
    broadcast use group_to_multiset_ensures;
    broadcast use vstd::multiset::group_multiset_axioms;

    assert(a.len() == a.to_multiset().len());
    assert(b.len() == b.to_multiset().len());
    if a.len() == 0 {
        assert(a =~= b);
    } else {
        let x = a.last();
        assert(a.contains(x));
        assert(a.to_multiset().count(x) > 0);
        assert(b.contains(x));
        let i = choose|i: int| 0 <= i < b.len() && b[i] == x;
        assert(a.remove(a.len() - 1) =~= a.drop_last());
        assert(a.drop_last().to_multiset() =~= b.remove(i).to_multiset());
        lemma_sums_permuted(a.drop_last(), b.remove(i));
        let front = b.take(i);
        let back = b.skip(i + 1);
        assert(b =~= (front + seq![x]) + back);
        assert(b.remove(i) =~= front + back);
        lemma_sums_concat(front + seq![x], back);
        lemma_sums_concat(front, seq![x]);
        lemma_sums_concat(front, back);
        assert(seq![x].drop_last() =~= Seq::empty());
        assert(sum_sizes(seq![x].drop_last()) == 0);
        assert(sum_files(seq![x].drop_last()) == 0);
        assert(sum_dirs(seq![x].drop_last()) == 0);
    }
}

/// A tree with files has files under some label.
pub proof fn lemma_some_label(n: Node)
    requires
        total(n, Measure::Files) > 0,
    ensures
        exists|k: Seq<char>| #[trigger] total(n, Measure::LabelFiles(k)) > 0,
    decreases n,
{
    if !n.is_dir {
        let k = ext_label(n);
        assert(own(n, Measure::LabelFiles(k)) == 1);
        assert(total(n, Measure::LabelFiles(k)) > 0);
    } else {
        lemma_some_label_all(n.children);
        let k = choose|k: Seq<char>| #[trigger] total_all(n.children, Measure::LabelFiles(k)) > 0;
        assert(total(n, Measure::LabelFiles(k)) > 0);
    }
}

proof fn lemma_some_label_all(s: Seq<Node>)
    requires
        total_all(s, Measure::Files) > 0,
    ensures
        exists|k: Seq<char>| #[trigger] total_all(s, Measure::LabelFiles(k)) > 0,
    decreases s,
{
    if total_all(s.drop_last(), Measure::Files) > 0 {
        lemma_some_label_all(s.drop_last());
        let k = choose|k: Seq<char>| #[trigger]
            total_all(s.drop_last(), Measure::LabelFiles(k)) > 0;
        assert(total_all(s, Measure::LabelFiles(k)) > 0);
    } else {
        lemma_some_label(s.last());
        let k = choose|k: Seq<char>| #[trigger] total(s.last(), Measure::LabelFiles(k)) > 0;
        assert(total_all(s, Measure::LabelFiles(k)) > 0);
    }
}

/// No part of a tree adds up to more than the whole.
pub proof fn lemma_total_child(s: Seq<Node>, i: int, m: Measure)
    requires
        0 <= i < s.len(),
    ensures
        total(s[i], m) <= total_all(s, m),
{
    lemma_total_remove(s, i, m);
}

/// What is listed under one label is no more than there is in all.
pub proof fn lemma_label_total(n: Node, l: Seq<char>)
    ensures
        total(n, Measure::LabelBytes(l)) <= total(n, Measure::Bytes),
        total(n, Measure::LabelFiles(l)) <= total(n, Measure::Files),
    decreases n,
{
    lemma_label_total_all(n.children, l);
}

proof fn lemma_label_total_all(s: Seq<Node>, l: Seq<char>)
    ensures
        total_all(s, Measure::LabelBytes(l)) <= total_all(s, Measure::Bytes),
        total_all(s, Measure::LabelFiles(l)) <= total_all(s, Measure::Files),
    decreases s,
{
    if s.len() > 0 {
        lemma_label_total_all(s.drop_last(), l);
        lemma_label_total(s.last(), l);
    }
}

/// Whether the bytes and files of a tree can be counted.
pub open spec fn countable(n: Node) -> bool {
    total(n, Measure::Bytes) <= u64::MAX && total(n, Measure::Files) <= u64::MAX
}

impl FileNode {
    /// The bytes and files of a tree, counted one by one, if the counts stay in
    /// range.
    pub fn count_all(&self) -> (r: Option<(u64, u64)>)
        ensures
            (match r {
                Some(t) => t.0 == total(self@, Measure::Bytes) && t.1 == total(
                    self@,
                    Measure::Files,
                ),
                None => !countable(self@),
            }),
        decreases self,
    {
        let mut bytes: u64 = if self.is_dir {
            0
        } else {
            self.size
        };
        let mut files: u64 = if self.is_dir {
            0
        } else {
            1
        };
        assert(self@.children.take(0) =~= Seq::empty());
        for i in 0..self.children.len()
            invariant
                bytes == own(self@, Measure::Bytes) + total_all(
                    self@.children.take(i as int),
                    Measure::Bytes,
                ),
                files == own(self@, Measure::Files) + total_all(
                    self@.children.take(i as int),
                    Measure::Files,
                ),
        {
            proof {
                lemma_total_take(self@.children, i as int, Measure::Bytes);
                lemma_total_take(self@.children, i as int, Measure::Files);
            }
            match self.children[i].count_all() {
                None => {
                    return None;
                },
                Some(t) => {
                    if t.0 > u64::MAX - bytes || t.1 > u64::MAX - files {
                        return None;
                    }
                    bytes = bytes + t.0;
                    files = files + t.1;
                },
            }
        }
        assert(self@.children.take(self@.children.len() as int) =~= self@.children);
        Some((bytes, files))
    }
}

} // verus!
