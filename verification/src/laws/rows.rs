//! Which rows the tree shows, in which order, and how the arrow keys go through them.

use vstd::prelude::*;

use crate::model::listing::{addressable, lemma_all_addressable_at, trees_are_addressable};
use crate::model::node::{FileNode, Node};
use crate::model::tree::{lemma_node_at_concat, node_at, TreePath};
use crate::ui::tree_view::{
    child_rows, item_count, lemma_first_at, lemma_item_concat, lemma_item_one, move_selection,
    node_rows, open_ancestors_show_a_node, row_views, rows_stay_within_the_limit, shown_paths,
    tree_rows, visible_rows, Expansion, Row, RowView,
};

verus! {

broadcast use crate::model::node::group_nodes;

/// Whether a path leads to an open folder.
pub open spec fn is_open_folder(
    root: Node,
    open: spec_fn(Seq<usize>) -> bool,
    p: Seq<usize>,
) -> bool {
    node_at(root, p) is Some && node_at(root, p)->0.is_dir && open(p)
}

/// Whether a path leads to a node that can be seen: each folder above it is open.
pub open spec fn is_seen(root: Node, open: spec_fn(Seq<usize>) -> bool, p: Seq<usize>) -> bool {
    &&& node_at(root, p) is Some
    &&& forall|k: int| 0 <= k < p.len() ==> is_open_folder(root, open, #[trigger] p.take(k))
}

/// Whether one path comes before another: it leads to a folder above it, or where they part
/// it goes to an earlier child.
pub open spec fn comes_before(p: Seq<usize>, q: Seq<usize>) -> bool {
    ||| p.len() < q.len() && q.take(p.len() as int) == p
    ||| exists|k: int|
        #![trigger p.take(k)]
        0 <= k < p.len() && k < q.len() && p.take(k) == q.take(k) && p[k] < q[k]
}

spec fn starts(path: Seq<usize>, p: Seq<usize>) -> bool {
    path.len() <= p.len() && forall|j: int| 0 <= j < path.len() ==> path[j] == #[trigger] p[j]
}

spec fn in_order(rows: Seq<RowView>) -> bool {
    forall|i: int, j: int|
        0 <= i < j < rows.len() && (#[trigger] rows[i]) is Item && (#[trigger] rows[j]) is Item
            ==> comes_before(rows[i]->Item_0, rows[j]->Item_0)
}

spec fn all_seen(rows: Seq<RowView>, root: Node, open: spec_fn(Seq<usize>) -> bool) -> bool {
    forall|i: int|
        0 <= i < rows.len() && (#[trigger] rows[i]) is Item ==> is_seen(root, open, rows[i]->Item_0)
}

spec fn all_start(rows: Seq<RowView>, path: Seq<usize>) -> bool {
    forall|i: int|
        0 <= i < rows.len() && (#[trigger] rows[i]) is Item ==> starts(path, rows[i]->Item_0)
}

spec fn all_from(rows: Seq<RowView>, path: Seq<usize>, from: nat) -> bool {
    forall|i: int|
        0 <= i < rows.len() && (#[trigger] rows[i]) is Item ==> starts(path, rows[i]->Item_0)
            && rows[i]->Item_0.len() > path.len() && rows[i]->Item_0[path.len() as int] >= from
}

/// Of the children of `f` from the index `from` on, those before `c` have a row, and if others
/// are left one row says how many.
spec fn filled_to(rows: Seq<RowView>, f: Seq<usize>, from: int, len: int, c: int) -> bool {
    &&& from <= c <= len
    &&& forall|k: usize|
        from <= k < len ==> (#[trigger] rows.contains(RowView::Item(f.push(k))) <==> k < c)
    &&& c < len ==> rows.contains(RowView::More((len - c) as nat))
}

spec fn all_filled(rows: Seq<RowView>, root: Node, open: spec_fn(Seq<usize>) -> bool) -> bool {
    forall|f: Seq<usize>| #[trigger]
        rows.contains(RowView::Item(f)) && is_open_folder(root, open, f) ==> exists|c: int|
            #[trigger] filled_to(rows, f, 0, node_at(root, f)->0.children.len() as int, c)
}

/// Whether what is left is counted after all that is shown.
spec fn counted_last(rows: Seq<RowView>) -> bool {
    forall|i: int, j: int|
        0 <= i < j < rows.len() && (#[trigger] rows[i]) is More ==> (#[trigger] rows[j]) is More
}

spec fn some_left(rows: Seq<RowView>) -> bool {
    exists|i: int| 0 <= i < rows.len() && (#[trigger] rows[i]) is More
}

/// What the rows that say how many are left say, in their order.
spec fn counts_left(rows: Seq<RowView>) -> Seq<nat>
    decreases rows.len(),
{
    if rows.len() == 0 {
        Seq::empty()
    } else {
        let before = counts_left(rows.drop_last());
        match rows.last() {
            RowView::Item(_) => before,
            RowView::More(n) => before.push(n),
        }
    }
}

/// Whether each of the folders `fs` has as many children without a row as `counts` says, and
/// each is on the way to those before it.
spec fn accounted(
    rows: Seq<RowView>,
    root: Node,
    open: spec_fn(Seq<usize>) -> bool,
    fs: Seq<Seq<usize>>,
    counts: Seq<nat>,
) -> bool {
    &&& fs.len() == counts.len()
    &&& forall|k: int|
        0 <= k < fs.len() ==> accounts(rows, root, open, #[trigger] fs[k], counts[k])
    &&& forall|k: int, l: int|
        0 <= k < l < fs.len() ==> (#[trigger] fs[l]).len() < (#[trigger] fs[k]).len() && starts(
            fs[l],
            fs[k],
        )
}

spec fn accounts(
    rows: Seq<RowView>,
    root: Node,
    open: spec_fn(Seq<usize>) -> bool,
    f: Seq<usize>,
    n: nat,
) -> bool {
    let len = node_at(root, f)->0.children.len() as int;
    &&& rows.contains(RowView::Item(f))
    &&& is_open_folder(root, open, f)
    &&& 0 < n <= len
    &&& filled_to(rows, f, 0, len, len - n)
}

proof fn lemma_counts_concat(a: Seq<RowView>, b: Seq<RowView>)
    ensures
        counts_left(a + b) == counts_left(a) + counts_left(b),
    decreases b.len(),
{
    if b.len() == 0 {
        assert(a + b =~= a);
        assert(counts_left(a) + counts_left(b) =~= counts_left(a));
    } else {
        assert((a + b).drop_last() =~= a + b.drop_last());
        lemma_counts_concat(a, b.drop_last());
        assert((a + b).last() == b.last());
        assert(counts_left(a + b) =~= counts_left(a) + counts_left(b));
    }
}

proof fn lemma_counts_one(x: RowView)
    ensures
        counts_left(seq![x]) == (match x {
            RowView::Item(_) => Seq::<nat>::empty(),
            RowView::More(n) => seq![n],
        }),
{
    assert(seq![x].drop_last() =~= Seq::empty());
    assert(counts_left(seq![x].drop_last()) =~= Seq::empty());
    assert(counts_left(seq![x]) =~= (match x {
        RowView::Item(_) => Seq::<nat>::empty(),
        RowView::More(n) => seq![n],
    }));
}

proof fn lemma_counts_some(rows: Seq<RowView>)
    ensures
        counts_left(rows).len() > 0 ==> some_left(rows),
    decreases rows.len(),
{
    if rows.len() > 0 {
        let t = rows.drop_last();
        lemma_counts_some(t);
        if rows.last() is More {
            assert(rows[rows.len() - 1] is More);
        } else if some_left(t) {
            let i = choose|i: int| 0 <= i < t.len() && (#[trigger] t[i]) is More;
            assert(rows[i] is More);
        }
    }
}

proof fn lemma_contains(a: Seq<RowView>, b: Seq<RowView>, x: RowView)
    ensures
        (a + b).contains(x) <==> a.contains(x) || b.contains(x),
{
    if a.contains(x) {
        let i = choose|i: int| 0 <= i < a.len() && a[i] == x;
        assert((a + b)[i] == x);
    }
    if b.contains(x) {
        let i = choose|i: int| 0 <= i < b.len() && b[i] == x;
        assert((a + b)[a.len() + i] == x);
    }
    if (a + b).contains(x) {
        let i = choose|i: int| 0 <= i < (a + b).len() && (a + b)[i] == x;
        if i < a.len() {
            assert(a[i] == x);
        } else {
            assert(b[i - a.len()] == x);
        }
    }
}

proof fn lemma_child_seen(root: Node, open: spec_fn(Seq<usize>) -> bool, path: Seq<usize>, i: usize)
    requires
        is_seen(root, open, path),
        is_open_folder(root, open, path),
        i < node_at(root, path)->0.children.len(),
    ensures
        is_seen(root, open, path.push(i)),
        node_at(root, path.push(i)) == Some(node_at(root, path)->0.children[i as int]),
{
    let p = path.push(i);
    let n = node_at(root, path)->0;
    assert(p =~= path + seq![i]);
    lemma_node_at_concat(root, path, seq![i]);
    assert(seq![i].drop_first() =~= Seq::empty());
    assert(node_at(n.children[i as int], seq![i].drop_first()) == Some(n.children[i as int]));
    assert forall|k: int| 0 <= k < p.len() implies is_open_folder(
        root,
        open,
        #[trigger] p.take(k),
    ) by {
        if k < path.len() {
            assert(p.take(k) =~= path.take(k));
        } else {
            assert(p.take(k) =~= path);
        }
    }
}

proof fn lemma_before_below(path: Seq<usize>, p: Seq<usize>)
    requires
        starts(path, p),
        p.len() > path.len(),
    ensures
        comes_before(path, p),
{
    assert(p.take(path.len() as int) =~= path);
}

proof fn lemma_before_beside(path: Seq<usize>, p: Seq<usize>, q: Seq<usize>)
    requires
        starts(path, p),
        starts(path, q),
        p.len() > path.len(),
        q.len() > path.len(),
        p[path.len() as int] < q[path.len() as int],
    ensures
        comes_before(p, q),
{
    let k = path.len() as int;
    assert(p.take(k) =~= path);
    assert(q.take(k) =~= path);
}

proof fn lemma_node(
    root: Node,
    n: Node,
    path: Seq<usize>,
    open: spec_fn(Seq<usize>) -> bool,
    shown: nat,
    limit: nat,
) -> (fs: Seq<Seq<usize>>)
    requires
        node_at(root, path) == Some(n),
        is_seen(root, open, path),
        addressable(n),
    ensures
        forall|k: int| 0 <= k < fs.len() ==> starts(path, #[trigger] fs[k]),
        ({
            let rows = node_rows(n, path, open, shown, limit);
            &&& accounted(rows, root, open, fs, counts_left(rows))
            &&& counted_last(rows)
            &&& all_seen(rows, root, open)
            &&& all_start(rows, path)
            &&& in_order(rows)
            &&& all_filled(rows, root, open)
            &&& shown < limit ==> rows.contains(RowView::Item(path))
            &&& some_left(rows) ==> shown + item_count(rows) >= limit
        }),
    decreases n,
{
    let rows = node_rows(n, path, open, shown, limit);
    let one = seq![RowView::Item(path)];
    lemma_item_one(path);
    lemma_counts_one(RowView::Item(path));
    if shown >= limit {
        assert(rows.len() == 0);
        Seq::empty()
    } else if n.is_dir && n.children.len() > 0 && open(path) {
        let inside = child_rows(n.children, 0, path, open, shown + 1, limit);
        lemma_all_addressable_at(n.children);
        assert(n.children.skip(0) =~= n.children);
        let (c, below) = lemma_children(root, n, 0, path, open, shown + 1, limit);
        assert(rows =~= one + inside);
        lemma_counts_concat(one, inside);
        assert(counts_left(rows) =~= counts_left(inside));
        assert(rows[0] == RowView::Item(path));
        lemma_item_concat(one, inside);
        assert forall|i: int| 0 <= i < rows.len() && (#[trigger] rows[i]) is Item implies is_seen(
            root,
            open,
            rows[i]->Item_0,
        ) && starts(path, rows[i]->Item_0) by {
            if i > 0 {
                assert(rows[i] == inside[i - 1]);
            }
        }
        assert forall|i: int, j: int|
            0 <= i < j < rows.len() && (#[trigger] rows[i]) is Item && (
            #[trigger] rows[j]) is Item implies comes_before(rows[i]->Item_0, rows[j]->Item_0) by {
            assert(rows[j] == inside[j - 1]);
            if i > 0 {
                assert(rows[i] == inside[i - 1]);
            } else {
                lemma_before_below(path, rows[j]->Item_0);
            }
        }
        assert forall|i: int, j: int|
            0 <= i < j < rows.len() && (#[trigger] rows[i]) is More implies (
        #[trigger] rows[j]) is More by {
            assert(rows[i] == inside[i - 1] && rows[j] == inside[j - 1]);
        }
        let len = n.children.len() as int;
        assert forall|f: Seq<usize>| #[trigger]
            rows.contains(RowView::Item(f)) && is_open_folder(root, open, f) implies exists|d: int|
            #[trigger] filled_to(rows, f, 0, node_at(root, f)->0.children.len() as int, d) by {
            lemma_contains(one, inside, RowView::Item(f));
            let size = node_at(root, f)->0.children.len() as int;
            if f == path {
                lemma_more(one, inside, path, f, 0, len, c);
                assert(filled_to(rows, f, 0, size, c));
            } else {
                assert(inside.contains(RowView::Item(f))) by {
                    if one.contains(RowView::Item(f)) {
                        let i = choose|i: int| 0 <= i < one.len() && one[i] == RowView::Item(f);
                        assert(one[i] == RowView::Item(path));
                    }
                }
                let d = choose|d: int| #[trigger] filled_to(inside, f, 0, size, d);
                let i = choose|i: int| 0 <= i < inside.len() && inside[i] == RowView::Item(f);
                assert(starts(path, inside[i]->Item_0));
                lemma_more(one, inside, path, f, 0, size, d);
                assert(filled_to(rows, f, 0, size, d));
            }
        }
        if some_left(rows) {
            let i = choose|i: int| 0 <= i < rows.len() && (#[trigger] rows[i]) is More;
            assert(inside[i - 1] is More);
        }
        assert forall|k: int| 0 <= k < below.len() implies accounts(
            rows,
            root,
            open,
            #[trigger] below[k],
            counts_left(rows)[k],
        ) by {
            let f = below[k];
            let size = node_at(root, f)->0.children.len() as int;
            let m = counts_left(rows)[k];
            assert(accounts(inside, root, open, f, m));
            lemma_contains(one, inside, RowView::Item(f));
            lemma_more(one, inside, path, f, 0, size, size - m);
        }
        if c < len {
            let fs = below.push(path);
            let m = (len - c) as nat;
            lemma_more(one, inside, path, path, 0, len, c);
            assert(accounts(rows, root, open, path, m));
            assert forall|k: int| 0 <= k < fs.len() implies accounts(
                rows,
                root,
                open,
                #[trigger] fs[k],
                counts_left(rows)[k],
            ) by {
                if k < below.len() {
                    assert(fs[k] == below[k]);
                }
            }
            assert forall|k: int, l: int| 0 <= k < l < fs.len() implies (#[trigger] fs[l]).len() < (
            #[trigger] fs[k]).len() && starts(fs[l], fs[k]) by {
                assert(fs[k] == below[k]);
                if l < below.len() {
                    assert(fs[l] == below[l]);
                }
            }
            fs
        } else {
            below
        }
    } else {
        assert(rows =~= one);
        assert(rows[0] == RowView::Item(path));
        assert forall|f: Seq<usize>| #[trigger]
            rows.contains(RowView::Item(f)) && is_open_folder(root, open, f) implies exists|d: int|
            #[trigger] filled_to(rows, f, 0, node_at(root, f)->0.children.len() as int, d) by {
            let i = choose|i: int| 0 <= i < rows.len() && rows[i] == RowView::Item(f);
            assert(f == path);
            assert(n.children.len() == 0);
            assert(filled_to(rows, f, 0, 0, 0));
        }
        Seq::empty()
    }
}

/// The row of a folder before those of what is in it changes nothing for the children of what
/// is at or below it.
proof fn lemma_more(
    one: Seq<RowView>,
    inside: Seq<RowView>,
    path: Seq<usize>,
    f: Seq<usize>,
    from: int,
    len: int,
    c: int,
)
    requires
        one == seq![RowView::Item(path)],
        starts(path, f),
        filled_to(inside, f, from, len, c),
    ensures
        filled_to(one + inside, f, from, len, c),
{
    assert forall|k: usize| from <= k < len implies (#[trigger] (one + inside).contains(
        RowView::Item(f.push(k)),
    ) <==> k < c) by {
        let x = RowView::Item(f.push(k));
        lemma_contains(one, inside, x);
        if one.contains(x) {
            let i = choose|i: int| 0 <= i < one.len() && one[i] == x;
            assert(one[i] == RowView::Item(path));
            assert(path.len() == f.push(k).len());
        }
        assert(inside.contains(x) <==> k < c);
    }
    if c < len {
        lemma_contains(one, inside, RowView::More((len - c) as nat));
    }
}

proof fn lemma_children(
    root: Node,
    n: Node,
    i: nat,
    path: Seq<usize>,
    open: spec_fn(Seq<usize>) -> bool,
    shown: nat,
    limit: nat,
) -> (r: (int, Seq<Seq<usize>>))
    requires
        node_at(root, path) == Some(n),
        is_seen(root, open, path),
        is_open_folder(root, open, path),
        n.children.len() <= usize::MAX,
        forall|k: int| 0 <= k < n.children.len() ==> addressable(#[trigger] n.children[k]),
        i <= n.children.len(),
    ensures
        shown >= limit ==> r.1.len() == 0,
        forall|k: int|
            0 <= k < r.1.len() ==> starts(path, #[trigger] r.1[k]) && r.1[k].len() > path.len(),
        ({
            let rows = child_rows(n.children.skip(i as int), i, path, open, shown, limit);
            let left = counts_left(rows);
            &&& r.0 < n.children.len() ==> left.len() > 0 && left.last() == n.children.len() - r.0
                && accounted(rows, root, open, r.1, left.drop_last())
            &&& r.0 == n.children.len() ==> accounted(rows, root, open, r.1, left)
            &&& counted_last(rows)
            &&& all_seen(rows, root, open)
            &&& all_from(rows, path, i)
            &&& in_order(rows)
            &&& all_filled(rows, root, open)
            &&& filled_to(rows, path, i as int, n.children.len() as int, r.0)
            &&& some_left(rows) ==> shown + item_count(rows) >= limit
        }),
    decreases n.children, n.children.len() - i,
{
    let s = n.children.skip(i as int);
    let rows = child_rows(s, i, path, open, shown, limit);
    let len = n.children.len() as int;
    if s.len() == 0 {
        assert(rows.len() == 0);
        assert(filled_to(rows, path, i as int, len, len));
        (len, Seq::empty())
    } else if shown >= limit {
        assert(rows =~= seq![RowView::More(s.len())]);
        assert(rows[0] == RowView::More((len - i) as nat));
        assert forall|f: Seq<usize>| !rows.contains(RowView::Item(f)) by {
            if rows.contains(RowView::Item(f)) {
                let j = choose|j: int| 0 <= j < rows.len() && rows[j] == RowView::Item(f);
                assert(rows[j] is More);
            }
        }
        assert(filled_to(rows, path, i as int, len, i as int));
        lemma_counts_one(RowView::More(s.len()));
        assert(counts_left(rows) =~= seq![s.len()]);
        assert(counts_left(rows).drop_last() =~= Seq::empty());
        (i as int, Seq::empty())
    } else {
        let at = i as usize;
        let here = path.push(at);
        let first = node_rows(s[0], here, open, shown, limit);
        let then = shown + item_count(first);
        let rest = child_rows(s.drop_first(), i + 1, path, open, then, limit);
        assert(s[0] == n.children[i as int]);
        assert(s.drop_first() =~= n.children.skip((i + 1) as int));
        lemma_child_seen(root, open, path, at);
        let deep = lemma_node(root, s[0], here, open, shown, limit);
        let (c, next) = lemma_children(root, n, i + 1, path, open, then, limit);
        assert(rows =~= first + rest);
        lemma_counts_concat(first, rest);
        lemma_counts_some(first);
        lemma_item_concat(first, rest);
        assert forall|k: int| 0 <= k < first.len() && (#[trigger] first[k]) is Item implies starts(
            path,
            first[k]->Item_0,
        ) && first[k]->Item_0.len() > path.len() && first[k]->Item_0[path.len() as int] == i by {
            let p = first[k]->Item_0;
            assert(starts(here, p));
            assert(here[path.len() as int] == p[path.len() as int]);
            assert forall|j: int| 0 <= j < path.len() implies path[j] == #[trigger] p[j] by {
                assert(here[j] == p[j]);
            }
        }
        assert forall|k: int| 0 <= k < rows.len() && (#[trigger] rows[k]) is Item implies is_seen(
            root,
            open,
            rows[k]->Item_0,
        ) && starts(path, rows[k]->Item_0) && rows[k]->Item_0.len() > path.len()
            && rows[k]->Item_0[path.len() as int] >= i by {
            if k < first.len() {
                assert(rows[k] == first[k]);
            } else {
                assert(rows[k] == rest[k - first.len()]);
            }
        }
        assert forall|a: int, b: int|
            0 <= a < b < rows.len() && (#[trigger] rows[a]) is Item && (
            #[trigger] rows[b]) is Item implies comes_before(rows[a]->Item_0, rows[b]->Item_0) by {
            if b < first.len() {
                assert(rows[a] == first[a] && rows[b] == first[b]);
            } else {
                assert(rows[b] == rest[b - first.len()]);
                if a < first.len() {
                    assert(rows[a] == first[a]);
                    lemma_before_beside(path, rows[a]->Item_0, rows[b]->Item_0);
                } else {
                    assert(rows[a] == rest[a - first.len()]);
                }
            }
        }
        assert forall|f: Seq<usize>| #[trigger]
            rows.contains(RowView::Item(f)) && is_open_folder(root, open, f) implies exists|d: int|
            #[trigger] filled_to(rows, f, 0, node_at(root, f)->0.children.len() as int, d) by {
            let x = RowView::Item(f);
            let size = node_at(root, f)->0.children.len() as int;
            lemma_contains(first, rest, x);
            if first.contains(x) {
                let j = choose|j: int| 0 <= j < first.len() && first[j] == x;
                assert(first[j]->Item_0 == f);
                let d = choose|d: int| #[trigger] filled_to(first, f, 0, size, d);
                lemma_beside(first, rest, path, i, f, 0, size, d);
                assert(filled_to(rows, f, 0, size, d));
            } else {
                let j = choose|j: int| 0 <= j < rest.len() && rest[j] == x;
                assert(rest[j]->Item_0 == f);
                let d = choose|d: int| #[trigger] filled_to(rest, f, 0, size, d);
                lemma_beside(first, rest, path, i, f, 0, size, d);
                assert(filled_to(rows, f, 0, size, d));
            }
        }
        assert forall|k: usize| i <= k < len implies (#[trigger] rows.contains(
            RowView::Item(path.push(k)),
        ) <==> k < c) by {
            let x = RowView::Item(path.push(k));
            lemma_contains(first, rest, x);
            if k > i {
                lemma_not_in_first(first, path, i, path.push(k));
                assert(rest.contains(x) <==> k < c);
            } else {
                assert(k == at);
            }
        }
        if c < len {
            lemma_contains(first, rest, RowView::More((len - c) as nat));
        }
        if some_left(rows) {
            let k = choose|k: int| 0 <= k < rows.len() && (#[trigger] rows[k]) is More;
            if k < first.len() {
                assert(first[k] is More);
                assert(some_left(first));
            } else {
                assert(rest[k - first.len()] is More);
                assert(some_left(rest));
            }
        }
        assert forall|a: int, b: int|
            0 <= a < b < rows.len() && (#[trigger] rows[a]) is More implies (
        #[trigger] rows[b]) is More by {
            if b < first.len() {
                assert(rows[a] == first[a] && rows[b] == first[b]);
            } else {
                assert(rows[b] == rest[b - first.len()]);
                if a < first.len() {
                    assert(first[a] is More);
                    assert(some_left(first));
                } else {
                    assert(rows[a] == rest[a - first.len()]);
                }
            }
        }
        let ours = counts_left(first);
        let theirs = if c < len {
            counts_left(rest).drop_last()
        } else {
            counts_left(rest)
        };
        let fs = deep + next;
        assert(deep.len() == 0 || next.len() == 0);
        assert forall|k: int| 0 <= k < deep.len() implies starts(path, #[trigger] deep[k])
            && deep[k].len() > path.len() && deep[k][path.len() as int] == i by {
            assert(starts(here, deep[k]));
            assert(here[path.len() as int] == deep[k][path.len() as int]);
            assert forall|j: int| 0 <= j < path.len() implies path[j] == #[trigger] deep[k][j] by {
                assert(here[j] == deep[k][j]);
            }
        }
        assert forall|k: int| 0 <= k < fs.len() implies accounts(
            rows,
            root,
            open,
            #[trigger] fs[k],
            (ours + theirs)[k],
        ) && starts(path, fs[k]) && fs[k].len() > path.len() by {
            let f = fs[k];
            let m = (ours + theirs)[k];
            let size = node_at(root, f)->0.children.len() as int;
            lemma_contains(first, rest, RowView::Item(f));
            if k < deep.len() {
                assert(f == deep[k]);
                assert(accounts(first, root, open, f, m));
            } else {
                assert(f == next[k - deep.len()]);
                assert(accounts(rest, root, open, f, m));
                let j = choose|j: int| 0 <= j < rest.len() && rest[j] == RowView::Item(f);
                assert(rest[j]->Item_0 == f);
            }
            lemma_beside(first, rest, path, i, f, 0, size, size - m);
        }
        assert forall|k: int, l: int| 0 <= k < l < fs.len() implies (#[trigger] fs[l]).len() < (
        #[trigger] fs[k]).len() && starts(fs[l], fs[k]) by {
            if deep.len() == 0 {
                assert(fs[k] == next[k] && fs[l] == next[l]);
            } else {
                assert(fs[k] == deep[k] && fs[l] == deep[l]);
            }
        }
        if c < len {
            assert(counts_left(rows).last() == counts_left(rest).last());
            assert(counts_left(rows).drop_last() =~= ours + theirs);
        }
        (c, fs)
    }
}

proof fn lemma_not_in_first(first: Seq<RowView>, path: Seq<usize>, i: nat, p: Seq<usize>)
    requires
        forall|k: int|
            0 <= k < first.len() && (#[trigger] first[k]) is Item ==> starts(path, first[k]->Item_0)
                && first[k]->Item_0.len() > path.len() && first[k]->Item_0[path.len() as int] == i,
        p.len() > path.len(),
        p[path.len() as int] != i,
    ensures
        !first.contains(RowView::Item(p)),
{
    if first.contains(RowView::Item(p)) {
        let k = choose|k: int| 0 <= k < first.len() && first[k] == RowView::Item(p);
        assert(first[k]->Item_0 == p);
    }
}

/// What is in one child and what is in the later ones are apart.
proof fn lemma_beside(
    first: Seq<RowView>,
    rest: Seq<RowView>,
    path: Seq<usize>,
    i: nat,
    f: Seq<usize>,
    from: int,
    len: int,
    c: int,
)
    requires
        forall|k: int|
            0 <= k < first.len() && (#[trigger] first[k]) is Item ==> starts(path, first[k]->Item_0)
                && first[k]->Item_0.len() > path.len() && first[k]->Item_0[path.len() as int] == i,
        all_from(rest, path, i + 1),
        f.len() > path.len(),
        f[path.len() as int] == i ==> filled_to(first, f, from, len, c),
        f[path.len() as int] != i ==> filled_to(rest, f, from, len, c),
    ensures
        filled_to(first + rest, f, from, len, c),
{
    assert forall|k: usize| from <= k < len implies (#[trigger] (first + rest).contains(
        RowView::Item(f.push(k)),
    ) <==> k < c) by {
        let p = f.push(k);
        let x = RowView::Item(p);
        lemma_contains(first, rest, x);
        assert(p[path.len() as int] == f[path.len() as int]);
        if f[path.len() as int] == i {
            if rest.contains(x) {
                let j = choose|j: int| 0 <= j < rest.len() && rest[j] == x;
                assert(rest[j]->Item_0 == p);
            }
            assert(first.contains(x) <==> k < c);
        } else {
            lemma_not_in_first(first, path, i, p);
            assert(rest.contains(x) <==> k < c);
        }
    }
    if c < len {
        lemma_contains(first, rest, RowView::More((len - c) as nat));
    }
}

/// Whether a node has its row.
pub open spec fn has_row(rows: Seq<Row>, p: Seq<usize>) -> bool {
    exists|i: int| 0 <= i < rows.len() && (#[trigger] rows[i]) is Item && rows[i]->Item_0@ == p
}

/// Whether a row says that so many are left.
pub open spec fn says_left(rows: Seq<Row>, n: int) -> bool {
    exists|i: int| 0 <= i < rows.len() && (#[trigger] rows[i]) is More && rows[i]->More_0 == n
}

/// How many rows show a node.
pub open spec fn shown_nodes(rows: Seq<Row>) -> nat {
    rows.filter(|r: Row| r is Item).len()
}

proof fn lemma_count(rows: Seq<Row>)
    ensures
        item_count(row_views(rows)) == shown_nodes(rows),
    decreases rows.len(),
{
    reveal(Seq::filter);
    let v = row_views(rows);
    if rows.len() > 0 {
        assert(v.drop_last() =~= row_views(rows.drop_last()));
        assert(v.last() == rows.last()@);
        lemma_count(rows.drop_last());
    }
}

proof fn lemma_views(rows: Seq<Row>, p: Seq<usize>, n: nat)
    ensures
        row_views(rows).contains(RowView::Item(p)) <==> has_row(rows, p),
        row_views(rows).contains(RowView::More(n)) <==> says_left(rows, n as int),
{
    let v = row_views(rows);
    assert forall|i: int| 0 <= i < rows.len() implies v[i] == (#[trigger] rows[i])@ by {
    }
    if v.contains(RowView::Item(p)) {
        let i = choose|i: int| 0 <= i < v.len() && v[i] == RowView::Item(p);
        assert(rows[i] is Item && rows[i]->Item_0@ == p);
    }
    if has_row(rows, p) {
        let i = choose|i: int|
            0 <= i < rows.len() && (#[trigger] rows[i]) is Item && rows[i]->Item_0@ == p;
        assert(v[i] == RowView::Item(p));
    }
    if v.contains(RowView::More(n)) {
        let i = choose|i: int| 0 <= i < v.len() && v[i] == RowView::More(n);
        assert(rows[i] is More && rows[i]->More_0 == n);
    }
    if says_left(rows, n as int) {
        let i = choose|i: int|
            0 <= i < rows.len() && (#[trigger] rows[i]) is More && rows[i]->More_0 == n;
        assert(v[i] == RowView::More(n));
    }
}

proof fn lemma_tree(root: &FileNode, open: spec_fn(Seq<usize>) -> bool) -> (fs: Seq<Seq<usize>>)
    ensures
        ({
            let rows = tree_rows(root@, open);
            &&& accounted(rows, root@, open, fs, counts_left(rows))
            &&& counted_last(rows)
            &&& all_seen(rows, root@, open)
            &&& in_order(rows)
            &&& all_filled(rows, root@, open)
            &&& rows.contains(RowView::Item(Seq::empty()))
            &&& some_left(rows) ==> item_count(rows) == 2_000
            &&& item_count(rows) <= 2_000
        }),
{
    trees_are_addressable(*root);
    let none = Seq::<usize>::empty();
    rows_stay_within_the_limit(root@, none, open, 0, 2_000);
    lemma_node(root@, root@, none, open, 0, 2_000)
}

/// The tree shows the root, and only nodes whose folders are all open, at most 2000 of them.
/// As long as it shows fewer, it shows all of those, and nothing is said to be left.
pub proof fn the_tree_shows_what_is_in_open_folders(
    root: &FileNode,
    e: &Expansion,
    r: Vec<Row>,
    p: Seq<usize>,
    i: int,
)
    requires
        call_ensures(visible_rows, (root, e), r),
    ensures
        has_row(r@, Seq::empty()),
        has_row(r@, p) ==> is_seen(root@, e@, p),
        shown_nodes(r@) <= 2_000,
        shown_nodes(r@) < 2_000 && is_seen(root@, e@, p) ==> has_row(r@, p),
        shown_nodes(r@) < 2_000 && 0 <= i < r@.len() ==> r@[i] is Item,
{
    let rows = tree_rows(root@, e@);
    let none = Seq::<usize>::empty();
    let _ = lemma_tree(root, e@);
    lemma_count(r@);
    lemma_views(r@, none, 0);
    lemma_views(r@, p, 0);
    if has_row(r@, p) {
        let k = choose|k: int| 0 <= k < rows.len() && rows[k] == RowView::Item(p);
        assert(rows[k]->Item_0 == p);
    }
    if shown_nodes(r@) < 2_000 {
        if is_seen(root@, e@, p) {
            assert(none + p =~= p);
            assert forall|k: int| 0 <= k < p.len() implies node_at(
                root@,
                #[trigger] p.take(k),
            )->0.is_dir && e@(none + p.take(k)) by {
                assert(none + p.take(k) =~= p.take(k));
                assert(is_open_folder(root@, e@, p.take(k)));
            }
            open_ancestors_show_a_node(root@, none, p, e@, 0, 2_000);
        }
        if 0 <= i < r@.len() && !(r@[i] is Item) {
            assert(row_views(r@)[i] == r@[i]@);
            assert(rows[i] is More);
        }
    }
}

/// The rows go through the tree from the top: a folder comes before what is in it, and what
/// is in one child before what is in the next. So no node has two rows.
pub proof fn the_rows_go_through_the_tree_from_the_top(
    root: &FileNode,
    e: &Expansion,
    r: Vec<Row>,
    i: int,
    j: int,
)
    requires
        call_ensures(visible_rows, (root, e), r),
        0 <= i < j < r@.len(),
        r@[i] is Item,
        r@[j] is Item,
    ensures
        comes_before(r@[i]->Item_0@, r@[j]->Item_0@),
        r@[i]->Item_0@ != r@[j]->Item_0@,
{
    let rows = tree_rows(root@, e@);
    let _ = lemma_tree(root, e@);
    assert(row_views(r@)[i] == r@[i]@);
    assert(row_views(r@)[j] == r@[j]@);
    assert(rows[i] is Item && rows[j] is Item);
}

/// Of the children of an open folder that is shown the first ones have their rows, and if
/// there are others a row says how many.
pub proof fn what_is_not_shown_is_counted(
    root: &FileNode,
    e: &Expansion,
    r: Vec<Row>,
    f: Seq<usize>,
) -> (c: int)
    requires
        call_ensures(visible_rows, (root, e), r),
        has_row(r@, f),
        is_open_folder(root@, e@, f),
    ensures
        ({
            let len = node_at(root@, f)->0.children.len();
            &&& 0 <= c <= len
            &&& forall|k: usize| k < len ==> (#[trigger] has_row(r@, f.push(k)) <==> k < c)
            &&& c < len ==> says_left(r@, len - c)
        }),
{
    let rows = tree_rows(root@, e@);
    let len = node_at(root@, f)->0.children.len();
    let _ = lemma_tree(root, e@);
    lemma_views(r@, f, 0);
    assert(rows.contains(RowView::Item(f)));
    let c = choose|c: int| #[trigger] filled_to(rows, f, 0, len as int, c);
    assert forall|k: usize| k < len implies (#[trigger] has_row(r@, f.push(k)) <==> k < c) by {
        lemma_views(r@, f.push(k), 0);
        assert(rows.contains(RowView::Item(f.push(k))) <==> k < c);
    }
    if c < len {
        lemma_views(r@, f, (len - c) as nat);
    }
    c
}

/// What the rows that show no node say, in their order.
pub open spec fn numbers_left(rows: Seq<Row>) -> Seq<usize> {
    rows.filter(|r: Row| r is More).map_values(|r: Row| r->More_0)
}

proof fn lemma_numbers(rows: Seq<Row>, k: int)
    ensures
        numbers_left(rows).len() == counts_left(row_views(rows)).len(),
        0 <= k < numbers_left(rows).len() ==> numbers_left(rows)[k] == counts_left(
            row_views(rows),
        )[k],
    decreases rows.len(),
{
    reveal(Seq::filter);
    let v = row_views(rows);
    if rows.len() > 0 {
        assert(v.drop_last() =~= row_views(rows.drop_last()));
        assert(v.last() == rows.last()@);
        lemma_numbers(rows.drop_last(), k);
    }
}

/// A row that says how many are left says it of an open folder that is shown, each of another
/// one: those come first that are further down, and each is on the way to those before it.
/// They come after all the rows that show a node.
pub proof fn every_count_is_of_a_folder_that_is_shown(
    root: &FileNode,
    e: &Expansion,
    r: Vec<Row>,
) -> (fs: Seq<Seq<usize>>)
    requires
        call_ensures(visible_rows, (root, e), r),
    ensures
        fs.len() == numbers_left(r@).len(),
        forall|k: int|
            0 <= k < fs.len() ==> has_row(r@, #[trigger] fs[k]) && is_open_folder(
                root@,
                e@,
                fs[k],
            ) && 0 < numbers_left(r@)[k] <= node_at(root@, fs[k])->0.children.len(),
        forall|k: int, i: usize|
            #![trigger fs[k], has_row(r@, fs[k].push(i))]
            0 <= k < fs.len() && i < node_at(root@, fs[k])->0.children.len() ==> (has_row(
                r@,
                fs[k].push(i),
            ) <==> i < node_at(root@, fs[k])->0.children.len() - numbers_left(r@)[k]),
        forall|k: int, l: int|
            0 <= k < l < fs.len() ==> (#[trigger] fs[l]).len() < (#[trigger] fs[k]).len()
                && fs[k].take(fs[l].len() as int) == fs[l],
        forall|i: int, j: int|
            0 <= i < j < r@.len() && (#[trigger] r@[i]) is More ==> (#[trigger] r@[j]) is More,
{
    let rows = tree_rows(root@, e@);
    let fs = lemma_tree(root, e@);
    lemma_numbers(r@, 0);
    assert forall|i: int, j: int|
        0 <= i < j < r@.len() && (#[trigger] r@[i]) is More implies (#[trigger] r@[j]) is More by {
        assert(row_views(r@)[i] == r@[i]@ && row_views(r@)[j] == r@[j]@);
        assert(rows[i] is More);
        assert(rows[j] is More);
    }
    assert forall|k: int| 0 <= k < fs.len() implies has_row(r@, #[trigger] fs[k])
        && is_open_folder(root@, e@, fs[k]) && 0 < numbers_left(r@)[k] <= node_at(
        root@,
        fs[k],
    )->0.children.len() by {
        lemma_numbers(r@, k);
        assert(accounts(rows, root@, e@, fs[k], counts_left(rows)[k]));
        lemma_views(r@, fs[k], 0);
    }
    assert forall|k: int, i: usize|
        #![trigger fs[k], has_row(r@, fs[k].push(i))]
        0 <= k < fs.len() && i < node_at(root@, fs[k])->0.children.len() implies (has_row(
        r@,
        fs[k].push(i),
    ) <==> i < node_at(root@, fs[k])->0.children.len() - numbers_left(r@)[k]) by {
        lemma_numbers(r@, k);
        assert(accounts(rows, root@, e@, fs[k], counts_left(rows)[k]));
        lemma_views(r@, fs[k].push(i), 0);
        let len = node_at(root@, fs[k])->0.children.len() as int;
        assert(rows.contains(RowView::Item(fs[k].push(i))) <==> i < len - counts_left(rows)[k]);
    }
    assert forall|k: int, l: int| 0 <= k < l < fs.len() implies (#[trigger] fs[l]).len() < (
    #[trigger] fs[k]).len() && fs[k].take(fs[l].len() as int) == fs[l] by {
        assert(starts(fs[l], fs[k]));
        assert(fs[k].take(fs[l].len() as int) =~= fs[l]);
    }
    fs
}

proof fn lemma_shown_concat(a: Seq<RowView>, b: Seq<RowView>)
    ensures
        shown_paths(a + b) == shown_paths(a) + shown_paths(b),
    decreases b.len(),
{
    if b.len() == 0 {
        assert(a + b =~= a);
        assert(shown_paths(a) + shown_paths(b) =~= shown_paths(a));
    } else {
        assert((a + b).drop_last() =~= a + b.drop_last());
        lemma_shown_concat(a, b.drop_last());
        assert((a + b).last() == b.last());
        assert(shown_paths(a + b) =~= shown_paths(a) + shown_paths(b));
    }
}

proof fn lemma_none_shown(a: Seq<RowView>)
    requires
        forall|i: int| 0 <= i < a.len() ==> (#[trigger] a[i]) is More,
    ensures
        shown_paths(a).len() == 0,
    decreases a.len(),
{
    if a.len() > 0 {
        lemma_none_shown(a.drop_last());
        assert(a[a.len() - 1] is More);
    }
}

proof fn lemma_shown_one(p: Seq<usize>)
    ensures
        shown_paths(seq![RowView::Item(p)]) == seq![p],
{
    let one = seq![RowView::Item(p)];
    assert(one.drop_last() =~= Seq::empty());
    assert(shown_paths(one.drop_last()) =~= Seq::empty());
    assert(shown_paths(one) =~= seq![p]);
}

/// Every path that is shown is that of a row.
proof fn lemma_shown_from(a: Seq<RowView>, k: int)
    requires
        0 <= k < shown_paths(a).len(),
    ensures
        a.contains(RowView::Item(shown_paths(a)[k])),
    decreases a.len(),
{
    let before = shown_paths(a.drop_last());
    let p = shown_paths(a)[k];
    if k < before.len() {
        assert(before[k] == p);
        lemma_shown_from(a.drop_last(), k);
        let i = choose|i: int|
            0 <= i < a.drop_last().len() && a.drop_last()[i] == RowView::Item(p);
        assert(a[i] == RowView::Item(p));
    } else {
        assert(a[a.len() - 1] == RowView::Item(p));
    }
}

/// The rows up to one that shows a node, that one, and those after it.
proof fn lemma_parts(rows: Seq<RowView>, i: int)
    requires
        0 <= i < rows.len(),
        rows[i] is Item,
    ensures
        shown_paths(rows) == shown_paths(rows.take(i)) + seq![rows[i]->Item_0] + shown_paths(
            rows.skip(i + 1),
        ),
{
    let one = seq![rows[i]];
    assert(rows =~= rows.take(i) + one + rows.skip(i + 1));
    lemma_shown_concat(rows.take(i) + one, rows.skip(i + 1));
    lemma_shown_concat(rows.take(i), one);
    lemma_shown_one(rows[i]->Item_0);
}

/// Between two rows that show nodes, with only others between them, an arrow key leads from
/// the one to the other, if the selected one has no other row before it.
pub proof fn the_arrows_lead_to_the_next_row(
    rows: &Vec<Row>,
    i: int,
    j: int,
    down: bool,
    selected: &Option<TreePath>,
    r: Option<TreePath>,
)
    requires
        call_ensures(move_selection, (rows, selected, down), r),
        0 <= i < j < rows@.len(),
        rows@[i] is Item && rows@[j] is Item,
        forall|k: int| i < k < j ==> (#[trigger] rows@[k]) is More,
        *selected is Some,
        (*selected)->0@ == (if down {
            rows@[i]->Item_0@
        } else {
            rows@[j]->Item_0@
        }),
        forall|k: int|
            0 <= k < (if down {
                i
            } else {
                j
            }) && (#[trigger] rows@[k]) is Item ==> rows@[k]->Item_0@ != (*selected)->0@,
    ensures
        r is Some,
        down ==> r->0@ == rows@[j]->Item_0@,
        !down ==> r->0@ == rows@[i]->Item_0@,
{
    let v = row_views(rows@);
    let sel = (*selected)->0@;
    let p = v[i]->Item_0;
    let q = v[j]->Item_0;
    assert(v[i] == rows@[i]@ && v[j] == rows@[j]@);
    let a = v.take(i);
    let b = v.skip(i + 1);
    let m = b.take(j - i - 1);
    assert(b[j - i - 1] == v[j]);
    lemma_parts(v, i);
    lemma_parts(b, j - i - 1);
    assert forall|k: int| 0 <= k < m.len() implies (#[trigger] m[k]) is More by {
        assert(m[k] == v[i + 1 + k]);
        assert(v[i + 1 + k] == rows@[i + 1 + k]@);
    }
    lemma_none_shown(m);
    let paths = shown_paths(v);
    let at = shown_paths(a).len() as int;
    assert(paths[at] == p);
    assert(paths[at + 1] == q);
    let here = if down {
        at
    } else {
        at + 1
    };
    assert(paths[here] == sel);
    assert(paths.contains(sel));
    assert forall|k: int| 0 <= k < here implies paths[k] != sel by {
        if k < at {
            assert(paths[k] == shown_paths(a)[k]);
            lemma_shown_from(a, k);
            let x = choose|x: int|
                0 <= x < a.len() && a[x] == RowView::Item(shown_paths(a)[k]);
            assert(v[x] == rows@[x]@);
            assert(rows@[x] is Item && rows@[x]->Item_0@ == paths[k]);
        } else {
            assert(rows@[i]->Item_0@ != sel);
        }
    }
    lemma_first_at(paths, sel, here);
}

/// At the last row Down changes nothing, and at the first row Up changes nothing.
pub proof fn the_arrows_stop_at_the_ends(
    rows: &Vec<Row>,
    i: int,
    down: bool,
    selected: &Option<TreePath>,
    r: Option<TreePath>,
)
    requires
        call_ensures(move_selection, (rows, selected, down), r),
        0 <= i < rows@.len(),
        rows@[i] is Item,
        *selected is Some && (*selected)->0@ == rows@[i]->Item_0@,
        !down ==> forall|k: int| 0 <= k < i ==> (#[trigger] rows@[k]) is More,
        forall|k: int|
            0 <= k < i && (#[trigger] rows@[k]) is Item ==> rows@[k]->Item_0@ != (*selected)->0@,
        down ==> forall|k: int| i < k < rows@.len() ==> (#[trigger] rows@[k]) is More,
    ensures
        r is Some && r->0@ == (*selected)->0@,
{
    let v = row_views(rows@);
    let sel = (*selected)->0@;
    assert(v[i] == rows@[i]@);
    let a = v.take(i);
    let b = v.skip(i + 1);
    lemma_parts(v, i);
    let paths = shown_paths(v);
    let at = shown_paths(a).len() as int;
    assert(paths[at] == sel);
    assert(paths.contains(sel));
    assert forall|k: int| 0 <= k < at implies paths[k] != sel by {
        assert(paths[k] == shown_paths(a)[k]);
        lemma_shown_from(a, k);
        let x = choose|x: int| 0 <= x < a.len() && a[x] == RowView::Item(shown_paths(a)[k]);
        assert(v[x] == rows@[x]@);
        assert(rows@[x] is Item && rows@[x]->Item_0@ == paths[k]);
    }
    lemma_first_at(paths, sel, at);
    if down {
        assert forall|k: int| 0 <= k < b.len() implies (#[trigger] b[k]) is More by {
            assert(b[k] == v[i + 1 + k]);
            assert(v[i + 1 + k] == rows@[i + 1 + k]@);
        }
        lemma_none_shown(b);
    } else {
        assert forall|k: int| 0 <= k < a.len() implies (#[trigger] a[k]) is More by {
            assert(a[k] == v[k]);
            assert(v[k] == rows@[k]@);
        }
        lemma_none_shown(a);
    }
}

/// If what is selected has no row, or nothing is selected, an arrow key leads to the first row.
/// If no row shows a node it changes nothing.
pub proof fn the_arrows_begin_at_the_first_row(
    rows: &Vec<Row>,
    i: int,
    down: bool,
    selected: &Option<TreePath>,
    r: Option<TreePath>,
)
    requires
        call_ensures(move_selection, (rows, selected, down), r),
        0 <= i <= rows@.len(),
        i < rows@.len() ==> rows@[i] is Item,
        forall|k: int| 0 <= k < i ==> (#[trigger] rows@[k]) is More,
    ensures
        i < rows@.len() && (*selected is None || !has_row(rows@, (*selected)->0@)) ==> r is Some
            && r->0@ == rows@[i]->Item_0@,
        i == rows@.len() ==> (r is Some <==> *selected is Some) && (r is Some ==> r->0@
            == (*selected)->0@),
{
    let v = row_views(rows@);
    let a = v.take(i);
    assert forall|k: int| 0 <= k < a.len() implies (#[trigger] a[k]) is More by {
        assert(a[k] == v[k]);
        assert(v[k] == rows@[k]@);
    }
    lemma_none_shown(a);
    if i < rows@.len() {
        assert(v[i] == rows@[i]@);
        lemma_parts(v, i);
        let paths = shown_paths(v);
        assert(paths[0] == rows@[i]->Item_0@);
        if *selected is Some && paths.contains((*selected)->0@) {
            let sel = (*selected)->0@;
            let k = choose|k: int| 0 <= k < paths.len() && paths[k] == sel;
            lemma_shown_from(v, k);
            lemma_views(rows@, sel, 0);
        }
    } else {
        assert(a =~= v);
    }
}

} // verus!
