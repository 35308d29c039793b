//! What the ranked lists hold.

use vstd::prelude::*;
use vstd::seq_lib::*;

use crate::laws::statistics::no_extension;
use crate::laws::words::{lemma_sum_last, sum};
use crate::model::listing::{
    addressable, directories_are_listed, directories_are_listed_once, files_are_listed,
    files_are_listed_once, folders_with_the_type_are_listed,
    folders_with_the_type_are_listed_once, listed_directories_are_there, listed_files_are_there,
    listed_folders_hold_the_type, through_directories, trees_are_addressable,
};
use crate::model::node::Node;
use crate::model::report::{
    dir_views, directories, ext_dir_views, file_views, files, in_order, is_top, matching_bytes,
    matching_directories, matching_files, DirSummary, DirSummaryView, ExtDirSummary,
    ExtDirSummaryView, FileSummary, FileSummaryView,
};
use crate::model::tree::{name_extension, node_at, FileTree};
use crate::ranking::{lemma_multiset_len, lemma_multiset_member, rank_descending, Ranked};

verus! {

broadcast use crate::model::node::group_nodes;

/// Whether `q` leads to a node below the root, through directories alone.
pub open spec fn is_below(root: Node, q: Seq<usize>) -> bool {
    &&& q.len() > 0
    &&& node_at(root, q) is Some
    &&& forall|k: int| 0 < k < q.len() ==> node_at(root, #[trigger] q.take(k))->0.is_dir
}

proof fn lemma_through(n: Node, q: Seq<usize>)
    requires
        is_below(n, q),
    ensures
        through_directories(n.children, q),
    decreases q.len(),
{
    if q.len() > 1 {
        let c = n.children[q[0] as int];
        let rest = q.drop_first();
        assert(q.take(1).drop_first() =~= Seq::empty());
        assert(q.take(1)[0] == q[0]);
        assert(node_at(c, q.take(1).drop_first()) == Some(c));
        assert forall|k: int| 0 < k < rest.len() implies node_at(
            c,
            #[trigger] rest.take(k),
        )->0.is_dir by {
            assert(q.take(k + 1).drop_first() =~= rest.take(k));
            assert(q.take(k + 1)[0] == q[0]);
        }
        lemma_through(c, rest);
    }
}

proof fn lemma_top<V>(r: Seq<V>, all: Seq<V>, key: spec_fn(V) -> u64, limit: nat)
    requires
        is_top(r, all, key, limit),
        all.no_duplicates(),
    ensures
        r.len() <= limit,
        r.no_duplicates(),
        forall|i: int, j: int|
            0 <= i <= j < r.len() ==> key(#[trigger] r[i]) >= key(#[trigger] r[j]),
        forall|i: int| 0 <= i < r.len() ==> all.contains(#[trigger] r[i]),
        forall|x: V| #[trigger]
            all.contains(x) ==> r.contains(x) || (r.len() == limit && forall|i: int|
                0 <= i < r.len() ==> key(#[trigger] r[i]) >= key(x)),
{
    let s = choose|s: Seq<V>| #[trigger]
        in_order(s, all, key) && r == s.take(
            if limit < s.len() {
                limit as int
            } else {
                s.len() as int
            },
        );
    lemma_order(s, all, key);
    assert forall|i: int, j: int| 0 <= i <= j < r.len() implies key(#[trigger] r[i]) >= key(
        #[trigger] r[j],
    ) by {
        assert(r[i] == s[i] && r[j] == s[j]);
    }
    assert forall|i: int| 0 <= i < r.len() implies all.contains(#[trigger] r[i]) by {
        assert(all.contains(s[i]));
    }
    assert forall|x: V| #[trigger] all.contains(x) implies r.contains(x) || (r.len() == limit
        && forall|i: int| 0 <= i < r.len() ==> key(#[trigger] r[i]) >= key(x)) by {
        assert(s.contains(x));
        let k = choose|k: int| 0 <= k < s.len() && s[k] == x;
        if k < r.len() {
            assert(r[k] == x);
        } else {
            assert forall|i: int| 0 <= i < r.len() implies key(#[trigger] r[i]) >= key(x) by {
                assert(r[i] == s[i]);
            }
        }
    }
}

proof fn lemma_order<V>(s: Seq<V>, all: Seq<V>, key: spec_fn(V) -> u64)
    requires
        in_order(s, all, key),
        all.no_duplicates(),
    ensures
        s.no_duplicates(),
        s.len() == all.len(),
        forall|i: int| 0 <= i < s.len() ==> all.contains(#[trigger] s[i]),
        forall|x: V| #[trigger] all.contains(x) ==> s.contains(x),
{
    lemma_multiset_len(s, all);
    all.lemma_multiset_has_no_duplicates();
    s.lemma_multiset_has_no_duplicates_conv();
    assert forall|i: int| 0 <= i < s.len() implies all.contains(#[trigger] s[i]) by {
        lemma_multiset_member(s, all, i);
    }
    assert forall|x: V| #[trigger] all.contains(x) implies s.contains(x) by {
        let k = choose|k: int| 0 <= k < all.len() && all[k] == x;
        lemma_multiset_member(all, s, k);
    }
}

/// Items in order of a rank are the same items, each as often, and none is followed by one
/// of a higher rank.
pub proof fn ranking_loses_nothing<T: Ranked>(v: Vec<T>, r: Vec<T>)
    requires
        call_ensures(rank_descending::<T>, (v,), r),
    ensures
        r@.len() == v@.len(),
        r@.to_multiset() == v@.to_multiset(),
        forall|i: int, j: int|
            0 <= i <= j < r@.len() ==> (#[trigger] r@[i]).rank() >= (#[trigger] r@[j]).rank(),
{
    lemma_multiset_len(r@, v@);
}

/// Whether an entry says of the directory at its path what that says of itself.
pub open spec fn is_entry_of(d: DirSummary, root: Node) -> bool {
    let n = node_at(root, d.path@)->0;
    &&& d.path@.len() > 0
    &&& node_at(root, d.path@) is Some
    &&& n.is_dir
    &&& d.name@ == n.name
    &&& d.size == n.size
    &&& d.file_count == n.file_count
    &&& d.dir_count == n.dir_count
}

/// Whether `v` lists the largest directories below the root, each once, larger ones first,
/// up to `limit` of them: none is missing that is larger than one in the list.
pub open spec fn lists_the_largest(v: Seq<DirSummary>, root: Node, limit: nat) -> bool {
    &&& v.len() <= limit
    &&& forall|i: int| 0 <= i < v.len() ==> is_entry_of(#[trigger] v[i], root)
    &&& forall|i: int, j: int|
        0 <= i < j < v.len() ==> (#[trigger] v[i]).path@ != (#[trigger] v[j]).path@
    &&& forall|i: int, j: int|
        0 <= i <= j < v.len() ==> (#[trigger] v[i]).size >= (#[trigger] v[j]).size
    &&& forall|q: Seq<usize>| #[trigger]
        is_below(root, q) && node_at(root, q)->0.is_dir ==> (exists|i: int|
            0 <= i < v.len() && (#[trigger] v[i]).path@ == q) || (v.len() == limit && forall|
            i: int,
        |
            0 <= i < v.len() ==> (#[trigger] v[i]).size >= node_at(root, q)->0.size)
}

pub proof fn lemma_largest(v: Seq<DirSummary>, root: Node, limit: nat)
    requires
        addressable(root),
        is_top(
            dir_views(v),
            directories(root.children, Seq::empty()),
            |d: DirSummaryView| d.size,
            limit,
        ),
    ensures
        lists_the_largest(v, root, limit),
{
    let all = directories(root.children, Seq::empty());
    let key = |d: DirSummaryView| d.size;
    let r = dir_views(v);
    assert forall|i: int, j: int| 0 <= i < all.len() && 0 <= j < all.len() && i != j implies all[i]
        != all[j] by {
        if i < j {
            directories_are_listed_once(root, i, j);
        } else {
            directories_are_listed_once(root, j, i);
        }
    }
    lemma_top(r, all, key, limit);
    assert forall|i: int| 0 <= i < v.len() implies is_entry_of(#[trigger] v[i], root) by {
        assert(r[i] == v[i]@);
        assert(all.contains(r[i]));
        let k = choose|k: int| 0 <= k < all.len() && all[k] == r[i];
        listed_directories_are_there(root, k);
    }
    assert forall|i: int, j: int| 0 <= i < j < v.len() implies (#[trigger] v[i]).path@ != (
    #[trigger] v[j]).path@ by {
        assert(r[i] == v[i]@ && r[j] == v[j]@);
        assert(all.contains(r[i]) && all.contains(r[j]));
        let a = choose|a: int| 0 <= a < all.len() && all[a] == r[i];
        let b = choose|b: int| 0 <= b < all.len() && all[b] == r[j];
        assert(r[i] != r[j]);
        if a < b {
            directories_are_listed_once(root, a, b);
        } else {
            directories_are_listed_once(root, b, a);
        }
    }
    assert forall|i: int, j: int| 0 <= i <= j < v.len() implies (#[trigger] v[i]).size >= (
    #[trigger] v[j]).size by {
        assert(r[i] == v[i]@ && r[j] == v[j]@);
        assert(key(r[i]) >= key(r[j]));
    }
    assert forall|q: Seq<usize>| #[trigger]
        is_below(root, q) && node_at(root, q)->0.is_dir implies (exists|i: int|
        0 <= i < v.len() && (#[trigger] v[i]).path@ == q) || (v.len() == limit && forall|i: int|
        0 <= i < v.len() ==> (#[trigger] v[i]).size >= node_at(root, q)->0.size) by {
        lemma_through(root, q);
        let k = directories_are_listed(root, q);
        let x = all[k];
        assert(all.contains(x));
        if r.contains(x) {
            let i = choose|i: int| 0 <= i < r.len() && r[i] == x;
            assert(v[i].path@ == q);
        } else {
            assert forall|i: int| 0 <= i < v.len() implies (#[trigger] v[i]).size >= node_at(
                root,
                q,
            )->0.size by {
                assert(r[i] == v[i]@);
                assert(key(r[i]) >= key(x));
            }
        }
    }
}

/// The largest directories are the largest ones.
pub proof fn the_largest_directories_are_listed(
    t: &FileTree,
    limit: usize,
    r: Vec<DirSummary>,
)
    requires
        call_ensures(FileTree::largest_directories, (t, limit), r),
    ensures
        lists_the_largest(r@, t.root@, limit as nat),
{
    trees_are_addressable(t.root);
    lemma_largest(r@, t.root@, limit as nat);
}

/// Whether a file is of the type that `ext` stands for.
pub open spec fn is_of_type(n: Node, ext: Seq<char>) -> bool {
    !n.is_dir && (if ext == no_extension() {
        name_extension(n.name).len() == 0
    } else {
        name_extension(n.name) == ext
    })
}

/// What each of some nodes has of a type: a directory what is in it, a file itself.
pub open spec fn bytes_of_type(s: Seq<Node>, ext: Seq<char>) -> Seq<nat> {
    s.map_values(
        |c: Node|
            if c.is_dir {
                matching_bytes(c.children, ext)
            } else if is_of_type(c, ext) {
                c.size as nat
            } else {
                0
            },
    )
}

pub open spec fn files_of_type(s: Seq<Node>, ext: Seq<char>) -> Seq<nat> {
    s.map_values(
        |c: Node|
            if c.is_dir {
                matching_files(c.children, ext)
            } else if is_of_type(c, ext) {
                1nat
            } else {
                0
            },
    )
}

/// What there is of a type among some nodes is the sum of what each of them has of it.
pub proof fn what_there_is_of_a_type_adds_up(s: Seq<Node>, ext: Seq<char>)
    ensures
        matching_bytes(s, ext) == sum(bytes_of_type(s, ext)),
        matching_files(s, ext) == sum(files_of_type(s, ext)),
    decreases s.len(),
{
    reveal_strlit("(no ext)");
    assert("(no ext)"@ =~= no_extension());
    if s.len() > 0 {
        what_there_is_of_a_type_adds_up(s.drop_last(), ext);
        assert(bytes_of_type(s, ext).drop_last() =~= bytes_of_type(s.drop_last(), ext));
        assert(files_of_type(s, ext).drop_last() =~= files_of_type(s.drop_last(), ext));
        lemma_sum_last(bytes_of_type(s, ext));
        lemma_sum_last(files_of_type(s, ext));
    }
}

/// The folders with files of a type are those of the tree that have some, each once, with
/// how much and how many, those with more bytes first; none is missing that has more than
/// one in the list.
pub proof fn the_folders_with_most_of_a_type_are_listed(
    t: &FileTree,
    ext: &str,
    limit: usize,
    r: Vec<ExtDirSummary>,
    q: Seq<usize>,
)
    requires
        call_ensures(FileTree::folders_by_extension, (t, ext, limit), r),
    ensures
        r@.len() <= limit,
        forall|i: int|
            0 <= i < r@.len() ==> {
                let d = #[trigger] r@[i];
                let n = node_at(t.root@, d.path@)->0;
                &&& d.path@.len() > 0
                &&& node_at(t.root@, d.path@) is Some
                &&& n.is_dir
                &&& d.name@ == n.name
                &&& matching_files(n.children, ext@) > 0
                &&& matching_bytes(n.children, ext@) <= u64::MAX ==> d.ext_bytes == matching_bytes(
                    n.children,
                    ext@,
                )
                &&& matching_files(n.children, ext@) <= u64::MAX ==> d.ext_count == matching_files(
                    n.children,
                    ext@,
                )
            },
        forall|i: int, j: int|
            0 <= i < j < r@.len() ==> (#[trigger] r@[i]).path@ != (#[trigger] r@[j]).path@,
        forall|i: int, j: int|
            0 <= i <= j < r@.len() ==> (#[trigger] r@[i]).ext_bytes >= (#[trigger] r@[j]).ext_bytes,
        is_below(t.root@, q) && node_at(t.root@, q)->0.is_dir && matching_files(
            node_at(t.root@, q)->0.children,
            ext@,
        ) > 0 && matching_bytes(node_at(t.root@, q)->0.children, ext@) <= u64::MAX ==> (exists|
            i: int,
        |
            0 <= i < r@.len() && (#[trigger] r@[i]).path@ == q) || (r@.len() == limit && forall|
            i: int,
        |
            0 <= i < r@.len() ==> (#[trigger] r@[i]).ext_bytes >= matching_bytes(
                node_at(t.root@, q)->0.children,
                ext@,
            )),
{
    let root = t.root@;
    let v = r@;
    trees_are_addressable(t.root);
    let all = matching_directories(root.children, Seq::empty(), ext@);
    let key = |d: ExtDirSummaryView| d.ext_bytes;
    let s = ext_dir_views(v);
    assert forall|i: int, j: int| 0 <= i < all.len() && 0 <= j < all.len() && i != j implies all[i]
        != all[j] by {
        if i < j {
            folders_with_the_type_are_listed_once(root, ext@, i, j);
        } else {
            folders_with_the_type_are_listed_once(root, ext@, j, i);
        }
    }
    lemma_top(s, all, key, limit as nat);
    assert forall|i: int| 0 <= i < v.len() implies ({
        let d = #[trigger] v[i];
        let n = node_at(root, d.path@)->0;
        &&& d.path@.len() > 0
        &&& node_at(root, d.path@) is Some
        &&& n.is_dir
        &&& d.name@ == n.name
        &&& matching_files(n.children, ext@) > 0
        &&& matching_bytes(n.children, ext@) <= u64::MAX ==> d.ext_bytes == matching_bytes(
            n.children,
            ext@,
        )
        &&& matching_files(n.children, ext@) <= u64::MAX ==> d.ext_count == matching_files(
            n.children,
            ext@,
        )
    }) by {
        assert(s[i] == v[i]@);
        assert(all.contains(s[i]));
        let k = choose|k: int| 0 <= k < all.len() && all[k] == s[i];
        listed_folders_hold_the_type(root, ext@, k);
    }
    assert forall|i: int, j: int| 0 <= i < j < v.len() implies (#[trigger] v[i]).path@ != (
    #[trigger] v[j]).path@ by {
        assert(s[i] == v[i]@ && s[j] == v[j]@);
        assert(all.contains(s[i]) && all.contains(s[j]));
        let a = choose|a: int| 0 <= a < all.len() && all[a] == s[i];
        let b = choose|b: int| 0 <= b < all.len() && all[b] == s[j];
        assert(s[i] != s[j]);
        if a < b {
            folders_with_the_type_are_listed_once(root, ext@, a, b);
        } else {
            folders_with_the_type_are_listed_once(root, ext@, b, a);
        }
    }
    assert forall|i: int, j: int| 0 <= i <= j < v.len() implies (#[trigger] v[i]).ext_bytes >= (
    #[trigger] v[j]).ext_bytes by {
        assert(s[i] == v[i]@ && s[j] == v[j]@);
        assert(key(s[i]) >= key(s[j]));
    }
    if is_below(root, q) && node_at(root, q)->0.is_dir && matching_files(
        node_at(root, q)->0.children,
        ext@,
    ) > 0 && matching_bytes(node_at(root, q)->0.children, ext@) <= u64::MAX {
        lemma_through(root, q);
        let k = folders_with_the_type_are_listed(root, ext@, q);
        listed_folders_hold_the_type(root, ext@, k);
        let x = all[k];
        assert(all.contains(x));
        if s.contains(x) {
            let i = choose|i: int| 0 <= i < s.len() && s[i] == x;
            assert(v[i].path@ == q);
        } else {
            assert forall|i: int| 0 <= i < v.len() implies (#[trigger] v[i]).ext_bytes
                >= matching_bytes(node_at(root, q)->0.children, ext@) by {
                assert(s[i] == v[i]@);
                assert(key(s[i]) >= key(x));
            }
        }
    }
}

/// The list of all files has each file of the tree once, with its name and its size, larger
/// ones first.
pub proof fn all_files_are_listed(t: &FileTree, r: Vec<FileSummary>, q: Seq<usize>)
    requires
        call_ensures(FileTree::all_files, (t,), r),
    ensures
        forall|i: int|
            0 <= i < r@.len() ==> {
                let f = #[trigger] r@[i];
                let n = node_at(t.root@, f.path@)->0;
                &&& f.path@.len() > 0
                &&& node_at(t.root@, f.path@) is Some
                &&& !n.is_dir
                &&& f.name@ == n.name
                &&& f.size == n.size
            },
        forall|i: int, j: int|
            0 <= i < j < r@.len() ==> (#[trigger] r@[i]).path@ != (#[trigger] r@[j]).path@,
        forall|i: int, j: int|
            0 <= i <= j < r@.len() ==> (#[trigger] r@[i]).size >= (#[trigger] r@[j]).size,
        is_below(t.root@, q) && !node_at(t.root@, q)->0.is_dir ==> exists|i: int|
            0 <= i < r@.len() && (#[trigger] r@[i]).path@ == q,
{
    let root = t.root@;
    let v = r@;
    trees_are_addressable(t.root);
    let all = files(root.children, Seq::empty());
    let key = |f: FileSummaryView| f.size;
    let s = file_views(v);
    assert forall|i: int, j: int| 0 <= i < all.len() && 0 <= j < all.len() && i != j implies all[i]
        != all[j] by {
        if i < j {
            files_are_listed_once(root, i, j);
        } else {
            files_are_listed_once(root, j, i);
        }
    }
    lemma_order(s, all, key);
    assert forall|i: int| 0 <= i < v.len() implies ({
        let f = #[trigger] v[i];
        let n = node_at(root, f.path@)->0;
        &&& f.path@.len() > 0
        &&& node_at(root, f.path@) is Some
        &&& !n.is_dir
        &&& f.name@ == n.name
        &&& f.size == n.size
    }) by {
        assert(s[i] == v[i]@);
        assert(all.contains(s[i]));
        let k = choose|k: int| 0 <= k < all.len() && all[k] == s[i];
        listed_files_are_there(root, k);
    }
    assert forall|i: int, j: int| 0 <= i < j < v.len() implies (#[trigger] v[i]).path@ != (
    #[trigger] v[j]).path@ by {
        assert(s[i] == v[i]@ && s[j] == v[j]@);
        assert(all.contains(s[i]) && all.contains(s[j]));
        let a = choose|a: int| 0 <= a < all.len() && all[a] == s[i];
        let b = choose|b: int| 0 <= b < all.len() && all[b] == s[j];
        assert(s[i] != s[j]);
        if a < b {
            files_are_listed_once(root, a, b);
        } else {
            files_are_listed_once(root, b, a);
        }
    }
    assert forall|i: int, j: int| 0 <= i <= j < v.len() implies (#[trigger] v[i]).size >= (
    #[trigger] v[j]).size by {
        assert(s[i] == v[i]@ && s[j] == v[j]@);
        assert(key(s[i]) >= key(s[j]));
    }
    if is_below(root, q) && !node_at(root, q)->0.is_dir {
        lemma_through(root, q);
        let k = files_are_listed(root, q);
        assert(all.contains(all[k]));
        let i = choose|i: int| 0 <= i < s.len() && s[i] == all[k];
        assert(v[i].path@ == q);
    }
}

} // verus!
