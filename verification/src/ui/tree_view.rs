//! The directory tree: which folders are open, which rows that gives, and how
//! the arrow keys move the selection.

use vstd::prelude::*;

use crate::model::listing::{addressable, lemma_all_addressable_at};
use crate::model::node::{FileNode, Node};
use crate::model::tree::{copy_path, node_at, same_index_path, TreePath};
use crate::path::{after_last_slash, short_name};

verus! {

broadcast use crate::model::node::group_nodes;

/// The most items that the tree shows.
pub const MAX_RENDERED_ITEMS: usize = 2000;

/// An index path that may be absent, as a value.
pub open spec fn opt_path(p: Option<TreePath>) -> Option<Seq<usize>> {
    match p {
        Some(v) => Some(v@),
        None => None,
    }
}

/// A copy of an index path that may be absent.
pub fn copy_opt_path(p: &Option<TreePath>) -> (r: Option<TreePath>)
    ensures
        opt_path(r) == opt_path(*p),
{
    match p {
        Some(v) => Some(copy_path(v.as_slice())),
        None => None,
    }
}

/// Which folders of the tree are open. Until it is opened or closed, the root is
/// open and every other folder is closed.
pub struct Expansion {
    entries: Vec<(TreePath, bool)>,
}

/// What is last said of a path, if anything is.
spec fn said_of(entries: Seq<(TreePath, bool)>, path: Seq<usize>) -> Option<bool>
    decreases entries.len(),
{
    if entries.len() == 0 {
        None
    } else if entries[0].0@ == path {
        Some(entries[0].1)
    } else {
        said_of(entries.drop_first(), path)
    }
}

impl View for Expansion {
    type V = spec_fn(Seq<usize>) -> bool;

    closed spec fn view(&self) -> spec_fn(Seq<usize>) -> bool {
        |path: Seq<usize>|
            match said_of(self.entries@, path) {
                Some(open) => open,
                None => path.len() < 1,
            }
    }
}

/// The folders that are open at first.
pub open spec fn open_at_first() -> spec_fn(Seq<usize>) -> bool {
    |path: Seq<usize>| path.len() < 1
}

/// The open folders after the one at `path` was opened or closed.
pub open spec fn with_open(
    e: spec_fn(Seq<usize>) -> bool,
    path: Seq<usize>,
    open: bool,
) -> spec_fn(Seq<usize>) -> bool {
    |p: Seq<usize>| if p == path { open } else { e(p) }
}

/// The open folders after every folder above `path` was opened.
pub open spec fn expanded_to(
    e: spec_fn(Seq<usize>) -> bool,
    path: Seq<usize>,
) -> spec_fn(Seq<usize>) -> bool {
    |p: Seq<usize>| (p.len() < path.len() && p.is_prefix_of(path)) || e(p)
}

impl Expansion {
    /// Only the root is open.
    pub fn new() -> (r: Expansion)
        ensures
            r@ == open_at_first(),
    {
        let r = Expansion { entries: Vec::new() };
        assert(r@ =~= open_at_first());
        r
    }

    /// Whether the folder at `path` is open.
    pub fn is_open(&self, path: &[usize]) -> (r: bool)
        ensures
            r == self@(path@),
    {
        assert(self.entries@.skip(0) =~= self.entries@);
        for i in 0..self.entries.len()
            invariant
                said_of(self.entries@.skip(i as int), path@) == said_of(self.entries@, path@),
        {
            assert(self.entries@.skip(i as int).drop_first() =~= self.entries@.skip(i + 1));
            if same_index_path(self.entries[i].0.as_slice(), path) {
                return self.entries[i].1;
            }
        }
        path.len() < 1
    }

    /// Opens or closes the folder at `path`.
    pub fn set_open(&mut self, path: &[usize], open: bool)
        ensures
            final(self)@ == with_open(old(self)@, path@, open),
    {
        let ghost before = self.entries@;
        let n = self.entries.len();
        let mut k: usize = 0;
        while k < n && !same_index_path(self.entries[k].0.as_slice(), path)
            invariant
                n == self.entries@.len(),
                self.entries@ == before,
                k <= n,
                forall|j: int| 0 <= j < k ==> (#[trigger] before[j]).0@ != path@,
            decreases n - k,
        {
            k = k + 1;
        }
        if k < n {
            self.entries.set(k, (copy_path(path), open));
        } else {
            self.entries.push((copy_path(path), open));
        }
        proof {
            lemma_said(before, self.entries@, path@, open, k as int);
            assert(self@ =~= with_open(old(self)@, path@, open));
        }
    }

    /// Opens every folder above the node at `path`, so that it becomes visible.
    pub fn expand_to_path(&mut self, path: &[usize])
        ensures
            final(self)@ == expanded_to(old(self)@, path@),
    {
        let n = path.len();
        for depth in 0..n
            invariant
                n == path@.len(),
                self@ == (|p: Seq<usize>|
                    (p.len() < depth && p.is_prefix_of(path@)) || old(self)@(p)),
        {
            let prefix = prefix_of(path, depth);
            let ghost before = self@;
            self.set_open(prefix.as_slice(), true);
            proof {
                let now = |p: Seq<usize>|
                    (p.len() < depth + 1 && p.is_prefix_of(path@)) || old(self)@(p);
                assert forall|p: Seq<usize>| #[trigger] self@(p) == now(p) by {
                    if p.len() == depth && p.is_prefix_of(path@) {
                        assert(p =~= path@.take(depth as int));
                    }
                    if p == path@.take(depth as int) {
                        assert(p.is_prefix_of(path@));
                    }
                }
                assert(self@ =~= now);
            }
        }
        assert(self@ =~= expanded_to(old(self)@, path@));
    }
}

proof fn lemma_said(
    before: Seq<(TreePath, bool)>,
    after: Seq<(TreePath, bool)>,
    path: Seq<usize>,
    open: bool,
    k: int,
)
    requires
        0 <= k <= before.len(),
        forall|j: int| 0 <= j < k ==> (#[trigger] before[j]).0@ != path,
        k < before.len() ==> before[k].0@ == path && after.len() == before.len(),
        k == before.len() ==> after.len() == before.len() + 1,
        after[k].0@ == path && after[k].1 == open,
        forall|j: int| 0 <= j < before.len() && j != k ==> (#[trigger] after[j]) == before[j],
    ensures
        said_of(after, path) == Some(open),
        forall|p: Seq<usize>| p != path ==> #[trigger] said_of(after, p) == said_of(before, p),
    decreases k,
{
    if k == 0 {
        assert forall|p: Seq<usize>| p != path implies #[trigger] said_of(after, p) == said_of(
            before,
            p,
        ) by {
            if before.len() > 0 {
                assert(after.drop_first() =~= before.drop_first());
            } else {
                assert(after.drop_first() =~= Seq::empty());
                assert(said_of(after.drop_first(), p) is None);
            }
        }
    } else {
        assert(after[0] == before[0]);
        lemma_said(before.drop_first(), after.drop_first(), path, open, k - 1);
        assert forall|p: Seq<usize>| p != path implies #[trigger] said_of(after, p) == said_of(
            before,
            p,
        ) by {
            assert(said_of(after.drop_first(), p) == said_of(before.drop_first(), p));
        }
    }
}

/// The first `n` indices of a path.
pub fn prefix_of(path: &[usize], n: usize) -> (r: TreePath)
    requires
        n <= path@.len(),
    ensures
        r@ == path@.take(n as int),
{
    let mut r: TreePath = Vec::new();
    for i in 0..n
        invariant
            n <= path@.len(),
            r@ == path@.take(i as int),
    {
        r.push(path[i]);
    }
    r
}

/// A row of the tree.
pub enum Row {
    /// The node at an index path.
    Item(TreePath),
    /// So many more children of the folder above are not shown.
    More(usize),
}

pub enum RowView {
    Item(Seq<usize>),
    More(nat),
}

impl View for Row {
    type V = RowView;

    open spec fn view(&self) -> RowView {
        match self {
            Row::Item(path) => RowView::Item(path@),
            Row::More(n) => RowView::More(*n as nat),
        }
    }
}

pub open spec fn row_views(v: Seq<Row>) -> Seq<RowView> {
    v.map_values(|r: Row| r@)
}

/// How many of the rows show a node.
pub open spec fn item_count(rows: Seq<RowView>) -> nat
    decreases rows.len(),
{
    if rows.len() == 0 {
        0
    } else {
        item_count(rows.drop_last()) + if rows.last() is Item {
            1nat
        } else {
            0
        }
    }
}

/// The rows for the node at `path`, after `shown` items: the node, then its
/// children if it is an open folder.
pub open spec fn node_rows(
    n: Node,
    path: Seq<usize>,
    open: spec_fn(Seq<usize>) -> bool,
    shown: nat,
    limit: nat,
) -> Seq<RowView>
    decreases n,
{
    if shown >= limit {
        Seq::empty()
    } else if n.is_dir && n.children.len() > 0 && open(path) {
        seq![RowView::Item(path)] + child_rows(n.children, 0, path, open, shown + 1, limit)
    } else {
        seq![RowView::Item(path)]
    }
}

/// The rows for the children `s` of the node at `path`, the first of which has the
/// index `i`. Where the limit is reached, one row says how many are left.
pub open spec fn child_rows(
    s: Seq<Node>,
    i: nat,
    path: Seq<usize>,
    open: spec_fn(Seq<usize>) -> bool,
    shown: nat,
    limit: nat,
) -> Seq<RowView>
    decreases s,
{
    if s.len() == 0 {
        Seq::empty()
    } else if shown >= limit {
        seq![RowView::More(s.len())]
    } else {
        let first = node_rows(s[0], path.push(i as usize), open, shown, limit);
        first + child_rows(s.drop_first(), i + 1, path, open, shown + item_count(first), limit)
    }
}

/// The rows of a tree.
pub open spec fn tree_rows(root: Node, open: spec_fn(Seq<usize>) -> bool) -> Seq<RowView> {
    node_rows(root, Seq::empty(), open, 0, MAX_RENDERED_ITEMS as nat)
}

pub proof fn lemma_item_concat(a: Seq<RowView>, b: Seq<RowView>)
    ensures
        item_count(a + b) == item_count(a) + item_count(b),
    decreases b.len(),
{
    if b.len() == 0 {
        assert(a + b =~= a);
    } else {
        assert((a + b).drop_last() =~= a + b.drop_last());
        lemma_item_concat(a, b.drop_last());
    }
}

pub proof fn lemma_item_one(path: Seq<usize>)
    ensures
        item_count(seq![RowView::Item(path)]) == 1,
{
    let s = seq![RowView::Item(path)];
    assert(s.drop_last() =~= Seq::empty());
    assert(item_count(s.drop_last()) == 0);
}

proof fn lemma_item_more(n: nat)
    ensures
        item_count(seq![RowView::More(n)]) == 0,
{
    let s = seq![RowView::More(n)];
    assert(s.drop_last() =~= Seq::empty());
    assert(item_count(s.drop_last()) == 0);
}

/// The tree never shows more items than the limit.
pub proof fn rows_stay_within_the_limit(
    n: Node,
    path: Seq<usize>,
    open: spec_fn(Seq<usize>) -> bool,
    shown: nat,
    limit: nat,
)
    requires
        shown <= limit,
    ensures
        shown + item_count(node_rows(n, path, open, shown, limit)) <= limit,
    decreases n,
{
    if shown < limit {
        lemma_item_one(path);
        if n.is_dir && n.children.len() > 0 && open(path) {
            lemma_child_rows_limit(n.children, 0, path, open, shown + 1, limit);
            lemma_item_concat(
                seq![RowView::Item(path)],
                child_rows(n.children, 0, path, open, shown + 1, limit),
            );
        }
    } else {
        assert(node_rows(n, path, open, shown, limit) =~= Seq::empty());
    }
}

proof fn lemma_child_rows_limit(
    s: Seq<Node>,
    i: nat,
    path: Seq<usize>,
    open: spec_fn(Seq<usize>) -> bool,
    shown: nat,
    limit: nat,
)
    requires
        shown <= limit,
    ensures
        shown + item_count(child_rows(s, i, path, open, shown, limit)) <= limit,
    decreases s,
{
    if s.len() > 0 {
        if shown >= limit {
            lemma_item_more(s.len());
        } else {
            let first = node_rows(s[0], path.push(i as usize), open, shown, limit);
            rows_stay_within_the_limit(s[0], path.push(i as usize), open, shown, limit);
            let rest = child_rows(
                s.drop_first(),
                i + 1,
                path,
                open,
                shown + item_count(first),
                limit,
            );
            lemma_child_rows_limit(
                s.drop_first(),
                i + 1,
                path,
                open,
                shown + item_count(first),
                limit,
            );
            lemma_item_concat(first, rest);
        }
    }
}

/// A node all of whose ancestors are open folders has its row, unless the tree
/// has so many rows that it was cut off.
pub proof fn open_ancestors_show_a_node(
    n: Node,
    path: Seq<usize>,
    q: Seq<usize>,
    open: spec_fn(Seq<usize>) -> bool,
    shown: nat,
    limit: nat,
)
    requires
        node_at(n, q) is Some,
        forall|k: int|
            0 <= k < q.len() ==> node_at(n, #[trigger] q.take(k))->0.is_dir && open(
                path + q.take(k),
            ),
        shown + item_count(node_rows(n, path, open, shown, limit)) < limit,
    ensures
        node_rows(n, path, open, shown, limit).contains(RowView::Item(path + q)),
    decreases n,
{
    let rows = node_rows(n, path, open, shown, limit);
    if q.len() == 0 {
        assert(path + q =~= path);
        assert(rows[0] == RowView::Item(path));
    } else {
        assert(q.take(0) =~= Seq::empty());
        assert(path + q.take(0) =~= path);
        assert(n.is_dir && open(path));
        let inside = child_rows(n.children, 0, path, open, shown + 1, limit);
        lemma_item_one(path);
        lemma_item_concat(seq![RowView::Item(path)], inside);
        assert(n.children.skip(0) =~= n.children);
        lemma_child_shown(n, 0, path, q, open, shown + 1, limit);
        let j = choose|j: int| 0 <= j < inside.len() && inside[j] == RowView::Item(path + q);
        assert(rows[j + 1] == inside[j]);
    }
}

proof fn lemma_child_shown(
    n: Node,
    i: nat,
    path: Seq<usize>,
    q: Seq<usize>,
    open: spec_fn(Seq<usize>) -> bool,
    shown: nat,
    limit: nat,
)
    requires
        q.len() > 0,
        i <= q[0] < n.children.len(),
        node_at(n, q) is Some,
        forall|k: int|
            0 <= k < q.len() ==> node_at(n, #[trigger] q.take(k))->0.is_dir && open(
                path + q.take(k),
            ),
        shown + item_count(
            child_rows(n.children.skip(i as int), i, path, open, shown, limit),
        ) < limit,
    ensures
        child_rows(n.children.skip(i as int), i, path, open, shown, limit).contains(
            RowView::Item(path + q),
        ),
    decreases n.children, n.children.len() - i,
{
    let s = n.children.skip(i as int);
    let rows = child_rows(s, i, path, open, shown, limit);
    let c = s[0];
    let first = node_rows(c, path.push(i as usize), open, shown, limit);
    let next = child_rows(s.drop_first(), i + 1, path, open, shown + item_count(first), limit);
    assert(rows =~= first + next);
    lemma_item_concat(first, next);
    if i == q[0] {
        let rest = q.drop_first();
        assert(path.push(i as usize) + rest =~= path + q);
        assert forall|k: int| 0 <= k < rest.len() implies node_at(
            c,
            #[trigger] rest.take(k),
        )->0.is_dir && open(path.push(i as usize) + rest.take(k)) by {
            let whole = q.take(k + 1);
            assert(whole.drop_first() =~= rest.take(k));
            assert(path.push(i as usize) + rest.take(k) =~= path + whole);
        }
        open_ancestors_show_a_node(c, path.push(i as usize), rest, open, shown, limit);
        let j = choose|j: int| 0 <= j < first.len() && first[j] == RowView::Item(path + q);
        assert(rows[j] == first[j]);
    } else {
        assert(s.drop_first() =~= n.children.skip((i + 1) as int));
        lemma_child_shown(n, i + 1, path, q, open, shown + item_count(first), limit);
        let j = choose|j: int| 0 <= j < next.len() && next[j] == RowView::Item(path + q);
        assert(rows[first.len() + j] == next[j]);
    }
}

/// After the tree was expanded to a node it has its row, unless the tree has so
/// many rows that it was cut off.
pub proof fn expanding_shows_a_node(root: Node, q: Seq<usize>, e: spec_fn(Seq<usize>) -> bool)
    requires
        node_at(root, q) is Some,
        forall|k: int| 0 <= k < q.len() ==> node_at(root, #[trigger] q.take(k))->0.is_dir,
        item_count(tree_rows(root, expanded_to(e, q))) < MAX_RENDERED_ITEMS,
    ensures
        tree_rows(root, expanded_to(e, q)).contains(RowView::Item(q)),
{
    let open = expanded_to(e, q);
    assert(Seq::<usize>::empty() + q =~= q);
    assert forall|k: int| 0 <= k < q.len() implies node_at(root, #[trigger] q.take(k))->0.is_dir
        && open(Seq::<usize>::empty() + q.take(k)) by {
        assert(Seq::<usize>::empty() + q.take(k) =~= q.take(k));
        assert(q.take(k).is_prefix_of(q));
    }
    open_ancestors_show_a_node(
        root,
        Seq::empty(),
        q,
        open,
        0,
        MAX_RENDERED_ITEMS as nat,
    );
}

/// Whether no two rows show the same node.
pub open spec fn distinct_items(rows: Seq<RowView>) -> bool {
    forall|i: int, j: int|
        0 <= i < j < rows.len() && (#[trigger] rows[i]) is Item ==> rows[i] != #[trigger] rows[j]
}

/// Whether every row that shows a node shows one at `path` or below it.
spec fn items_from(rows: Seq<RowView>, path: Seq<usize>) -> bool {
    forall|i: int|
        0 <= i < rows.len() && (#[trigger] rows[i]) is Item ==> path.is_prefix_of(rows[i]->Item_0)
}

/// Whether every row that shows a node shows one below `path`, in a child whose index
/// is at least `from`.
spec fn items_below(rows: Seq<RowView>, path: Seq<usize>, from: nat) -> bool {
    forall|i: int|
        0 <= i < rows.len() && (#[trigger] rows[i]) is Item ==> rows[i]->Item_0.len() > path.len()
            && path.is_prefix_of(rows[i]->Item_0) && rows[i]->Item_0[path.len() as int] >= from
}

/// No node has two rows.
pub proof fn no_node_has_two_rows(root: Node, open: spec_fn(Seq<usize>) -> bool)
    requires
        addressable(root),
    ensures
        distinct_items(tree_rows(root, open)),
        shown_paths(tree_rows(root, open)).no_duplicates(),
{
    lemma_node_rows_distinct(root, Seq::empty(), open, 0, MAX_RENDERED_ITEMS as nat);
    lemma_shown_distinct(tree_rows(root, open));
}

proof fn lemma_node_rows_distinct(
    n: Node,
    path: Seq<usize>,
    open: spec_fn(Seq<usize>) -> bool,
    shown: nat,
    limit: nat,
)
    requires
        addressable(n),
    ensures
        distinct_items(node_rows(n, path, open, shown, limit)),
        items_from(node_rows(n, path, open, shown, limit), path),
    decreases n,
{
    let rows = node_rows(n, path, open, shown, limit);
    if shown < limit && n.is_dir && n.children.len() > 0 && open(path) {
        let inside = child_rows(n.children, 0, path, open, shown + 1, limit);
        lemma_all_addressable_at(n.children);
        lemma_child_rows_distinct(n.children, 0, path, open, shown + 1, limit);
        assert forall|i: int, j: int|
            0 <= i < j < rows.len() && (#[trigger] rows[i]) is Item implies rows[i]
            != #[trigger] rows[j] by {
            assert(rows[j] == inside[j - 1]);
            if i > 0 {
                assert(rows[i] == inside[i - 1]);
            }
        }
        assert forall|i: int| 0 <= i < rows.len() && (#[trigger] rows[i]) is Item implies
            path.is_prefix_of(rows[i]->Item_0) by {
            if i > 0 {
                assert(rows[i] == inside[i - 1]);
            } else {
                assert(path =~= path.subrange(0, path.len() as int));
            }
        }
    } else {
        assert(path =~= path.subrange(0, path.len() as int));
    }
}

proof fn lemma_child_rows_distinct(
    s: Seq<Node>,
    i: nat,
    path: Seq<usize>,
    open: spec_fn(Seq<usize>) -> bool,
    shown: nat,
    limit: nat,
)
    requires
        forall|k: int| 0 <= k < s.len() ==> addressable(#[trigger] s[k]),
        i + s.len() <= usize::MAX,
    ensures
        distinct_items(child_rows(s, i, path, open, shown, limit)),
        items_below(child_rows(s, i, path, open, shown, limit), path, i),
    decreases s,
{
    let rows = child_rows(s, i, path, open, shown, limit);
    if s.len() > 0 && shown < limit {
        let here = path.push(i as usize);
        let first = node_rows(s[0], here, open, shown, limit);
        let rest = child_rows(
            s.drop_first(),
            i + 1,
            path,
            open,
            shown + item_count(first),
            limit,
        );
        lemma_node_rows_distinct(s[0], here, open, shown, limit);
        assert forall|k: int| 0 <= k < s.drop_first().len() implies addressable(
            #[trigger] s.drop_first()[k],
        ) by {
            assert(s.drop_first()[k] == s[k + 1]);
        }
        lemma_child_rows_distinct(
            s.drop_first(),
            i + 1,
            path,
            open,
            shown + item_count(first),
            limit,
        );
        assert forall|k: int| 0 <= k < first.len() && (#[trigger] first[k]) is Item implies
            first[k]->Item_0.len() > path.len() && path.is_prefix_of(first[k]->Item_0)
            && first[k]->Item_0[path.len() as int] == i by {
            let p = first[k]->Item_0;
            assert(here.is_prefix_of(p));
            assert(p.subrange(0, here.len() as int)[path.len() as int] == i);
            assert(path =~= p.subrange(0, path.len() as int)) by {
                assert forall|m: int| 0 <= m < path.len() implies path[m] == p[m] by {
                    assert(here[m] == p.subrange(0, here.len() as int)[m]);
                }
            }
        }
        assert forall|a: int, b: int|
            0 <= a < b < rows.len() && (#[trigger] rows[a]) is Item implies rows[a]
            != #[trigger] rows[b] by {
            if b < first.len() {
                assert(rows[a] == first[a] && rows[b] == first[b]);
            } else {
                assert(rows[b] == rest[b - first.len()]);
                if a < first.len() {
                    assert(rows[a] == first[a]);
                } else {
                    assert(rows[a] == rest[a - first.len()]);
                }
            }
        }
        assert forall|k: int| 0 <= k < rows.len() && (#[trigger] rows[k]) is Item implies
            rows[k]->Item_0.len() > path.len() && path.is_prefix_of(rows[k]->Item_0)
            && rows[k]->Item_0[path.len() as int] >= i by {
            if k < first.len() {
                assert(rows[k] == first[k]);
            } else {
                assert(rows[k] == rest[k - first.len()]);
            }
        }
    }
}

proof fn lemma_shown_distinct(rows: Seq<RowView>)
    requires
        distinct_items(rows),
    ensures
        shown_paths(rows).no_duplicates(),
        forall|p: Seq<usize>| #[trigger]
            shown_paths(rows).contains(p) ==> rows.contains(RowView::Item(p)),
    decreases rows.len(),
{
    if rows.len() > 0 {
        let rest = rows.drop_last();
        let before = shown_paths(rest);
        let all = shown_paths(rows);
        assert forall|i: int, j: int|
            0 <= i < j < rest.len() && (#[trigger] rest[i]) is Item implies rest[i]
            != #[trigger] rest[j] by {
            assert(rest[i] == rows[i] && rest[j] == rows[j]);
        }
        lemma_shown_distinct(rest);
        assert forall|p: Seq<usize>| #[trigger] all.contains(p) implies rows.contains(
            RowView::Item(p),
        ) by {
            let k = choose|k: int| 0 <= k < all.len() && all[k] == p;
            if k < before.len() {
                assert(before[k] == p);
                assert(before.contains(p));
                let m = choose|m: int| 0 <= m < rest.len() && rest[m] == RowView::Item(p);
                assert(rows[m] == RowView::Item(p));
            } else {
                assert(rows[rows.len() - 1] == RowView::Item(p));
            }
        }
        assert forall|i: int, j: int| 0 <= i < all.len() && 0 <= j < all.len() && i != j implies
            all[i] != all[j] by {
            let a = if i < j {
                i
            } else {
                j
            };
            let b = if i < j {
                j
            } else {
                i
            };
            if b < before.len() {
                assert(before[a] != before[b]);
            } else {
                assert(before[a] == all[a]);
                assert(before.contains(before[a]));
                let m = choose|m: int| 0 <= m < rest.len() && rest[m] == RowView::Item(before[a]);
                assert(rows[m] == rest[m]);
                assert(rows[m] != rows[rows.len() - 1]);
            }
        }
    }
}

/// Adds the rows for a node. `shown` counts the items.
fn add_rows(
    node: &FileNode,
    path: &mut TreePath,
    expansion: &Expansion,
    shown: &mut usize,
    rows: &mut Vec<Row>,
)
    requires
        *old(shown) <= MAX_RENDERED_ITEMS,
    ensures
        final(path)@ == old(path)@,
        row_views(final(rows)@) == row_views(old(rows)@) + node_rows(
            node@,
            old(path)@,
            expansion@,
            *old(shown) as nat,
            MAX_RENDERED_ITEMS as nat,
        ),
        *final(shown) == *old(shown) + item_count(
            node_rows(
                node@,
                old(path)@,
                expansion@,
                *old(shown) as nat,
                MAX_RENDERED_ITEMS as nat,
            ),
        ),
        *final(shown) <= MAX_RENDERED_ITEMS,
    decreases node,
{
    let ghost p = path@;
    let ghost rows0 = row_views(rows@);
    let ghost shown0 = *shown as nat;
    let ghost limit = MAX_RENDERED_ITEMS as nat;
    let ghost open = expansion@;
    let ghost all = node_rows(node@, p, open, shown0, limit);
    if *shown >= MAX_RENDERED_ITEMS {
        assert(all =~= Seq::empty());
        assert(rows0 + all =~= rows0);
        return;
    }
    *shown = *shown + 1;
    let ghost before = rows@;
    rows.push(Row::Item(copy_path(path.as_slice())));
    proof {
        assert(row_views(rows@) =~= row_views(before).push(RowView::Item(p)));
        lemma_item_one(p);
        assert(row_views(rows@) =~= rows0 + seq![RowView::Item(p)]);
    }
    if !(node.is_dir && node.children.len() > 0 && expansion.is_open(path.as_slice())) {
        return;
    }
    let ghost kids = node@.children;
    let ghost inside = child_rows(kids, 0, p, open, shown0 + 1, limit);
    let ghost head = rows0 + seq![RowView::Item(p)];
    let n = node.children.len();
    let mut i: usize = 0;
    proof {
        assert(kids.skip(0) =~= kids);
        assert(head + inside =~= rows0 + all);
        lemma_item_concat(seq![RowView::Item(p)], inside);
    }
    while i < n
        invariant
            n == node.children@.len(),
            i <= n,
            kids == node@.children,
            open == expansion@,
            limit == MAX_RENDERED_ITEMS as nat,
            path@ == p,
            *shown <= MAX_RENDERED_ITEMS,
            row_views(rows@) + child_rows(
                kids.skip(i as int),
                i as nat,
                p,
                open,
                *shown as nat,
                limit,
            ) == head + inside,
            *shown + item_count(
                child_rows(kids.skip(i as int), i as nat, p, open, *shown as nat, limit),
            ) == shown0 + 1 + item_count(inside),
        decreases n - i,
    {
        let ghost rest = kids.skip(i as int);
        let ghost todo = child_rows(rest, i as nat, p, open, *shown as nat, limit);
        let ghost rows1 = rows@;
        let ghost shown1 = *shown as nat;
        assert(rest.drop_first() =~= kids.skip(i + 1));
        if *shown >= MAX_RENDERED_ITEMS {
            rows.push(Row::More(n - i));
            proof {
                assert(row_views(rows@) =~= row_views(rows1).push(RowView::More((n - i) as nat)));
                assert(todo =~= seq![RowView::More((n - i) as nat)]);
                lemma_item_more((n - i) as nat);
                let nothing = child_rows(
                    kids.skip(n as int),
                    n as nat,
                    p,
                    open,
                    *shown as nat,
                    limit,
                );
                assert(nothing =~= Seq::empty());
                assert(row_views(rows@) + nothing =~= row_views(rows1) + todo);
            }
            i = n;
        } else {
            path.push(i);
            let ghost first = node_rows(rest[0], p.push(i), open, shown1, limit);
            add_rows(&node.children[i], path, expansion, shown, rows);
            let _ = path.pop();
            proof {
                assert(path@ =~= p);
                let next = child_rows(
                    kids.skip(i + 1),
                    (i + 1) as nat,
                    p,
                    open,
                    *shown as nat,
                    limit,
                );
                assert(todo =~= first + next);
                lemma_item_concat(first, next);
                assert(row_views(rows1) + first + next =~= row_views(rows1) + todo);
            }
            i = i + 1;
        }
    }
    proof {
        let nothing = child_rows(kids.skip(n as int), n as nat, p, open, *shown as nat, limit);
        assert(kids.skip(n as int) =~= Seq::empty());
        assert(nothing =~= Seq::empty());
        assert(row_views(rows@) + nothing =~= row_views(rows@));
    }
}

/// The rows that the tree shows.
pub fn visible_rows(root: &FileNode, expansion: &Expansion) -> (r: Vec<Row>)
    ensures
        row_views(r@) == tree_rows(root@, expansion@),
{
    let mut path: TreePath = Vec::new();
    let mut shown: usize = 0;
    let mut rows: Vec<Row> = Vec::new();
    add_rows(root, &mut path, expansion, &mut shown, &mut rows);
    assert(row_views(Seq::empty()) =~= Seq::empty());
    assert(row_views(rows@) =~= tree_rows(root@, expansion@));
    rows
}

/// The name that the tree shows for a node: for the root, which is named by its
/// whole path, the last part of it.
pub fn display_name(node: &FileNode, depth: usize) -> (r: String)
    ensures
        r@ == (if depth == 0 {
            after_last_slash(node@.name)
        } else {
            node@.name
        }),
{
    if depth == 0 {
        short_name(node.name.as_str())
    } else {
        node.name.clone()
    }
}

/// The index paths that the rows show, in their order.
pub open spec fn shown_paths(rows: Seq<RowView>) -> Seq<Seq<usize>>
    decreases rows.len(),
{
    if rows.len() == 0 {
        Seq::empty()
    } else {
        let before = shown_paths(rows.drop_last());
        match rows.last() {
            RowView::Item(path) => before.push(path),
            RowView::More(_) => before,
        }
    }
}

/// The selection after an arrow key, where the tree shows `paths`. It moves to the
/// row below or above, if there is one. If nothing that is shown is selected, the
/// first row is.
pub open spec fn arrow_selection(
    paths: Seq<Seq<usize>>,
    selected: Option<Seq<usize>>,
    down: bool,
) -> Option<Seq<usize>> {
    if paths.len() == 0 {
        selected
    } else if selected is Some && paths.contains(selected->0) {
        let at = first_at(paths, selected->0);
        if down && at + 1 < paths.len() {
            Some(paths[at + 1])
        } else if !down && at > 0 {
            Some(paths[at - 1])
        } else {
            selected
        }
    } else {
        Some(paths[0])
    }
}

/// The first position of a path.
pub open spec fn first_at(paths: Seq<Seq<usize>>, p: Seq<usize>) -> int
    decreases paths.len(),
{
    if paths.len() == 0 || paths[0] == p {
        0
    } else {
        1 + first_at(paths.drop_first(), p)
    }
}

pub proof fn lemma_first_at(paths: Seq<Seq<usize>>, p: Seq<usize>, k: int)
    requires
        0 <= k < paths.len(),
        paths[k] == p,
        forall|j: int| 0 <= j < k ==> paths[j] != p,
    ensures
        first_at(paths, p) == k,
    decreases k,
{
    if k > 0 {
        assert(paths[0] != p);
        lemma_first_at(paths.drop_first(), p, k - 1);
    }
}

/// Up undoes Down, and Down undoes Up, where each node has one row.
pub proof fn arrows_undo_each_other(paths: Seq<Seq<usize>>, at: int, down: bool)
    requires
        paths.no_duplicates(),
        0 <= at < paths.len(),
        down ==> at + 1 < paths.len(),
        !down ==> at > 0,
    ensures
        arrow_selection(
            paths,
            arrow_selection(paths, Some(paths[at]), down),
            !down,
        ) == Some(paths[at]),
{
    let to = if down {
        at + 1
    } else {
        at - 1
    };
    lemma_first_at(paths, paths[at], at);
    lemma_first_at(paths, paths[to], to);
    assert(paths.contains(paths[at]));
    assert(paths.contains(paths[to]));
}

/// The selection after an arrow key.
pub fn move_selection(rows: &Vec<Row>, selected: &Option<TreePath>, down: bool) -> (r: Option<
    TreePath,
>)
    ensures
        opt_path(r) == arrow_selection(
            shown_paths(row_views(rows@)),
            opt_path(*selected),
            down,
        ),
{
    let mut paths: Vec<TreePath> = Vec::new();
    let ghost views = row_views(rows@);
    assert(views.take(0) =~= Seq::empty());
    assert(index_paths(paths@) =~= shown_paths(views.take(0)));
    for i in 0..rows.len()
        invariant
            views == row_views(rows@),
            index_paths(paths@) == shown_paths(views.take(i as int)),
    {
        let ghost before = paths@;
        proof {
            assert(views.take(i + 1).drop_last() =~= views.take(i as int));
            assert(views.take(i + 1).last() == rows@[i as int]@);
        }
        match &rows[i] {
            Row::Item(path) => {
                paths.push(copy_path(path.as_slice()));
                assert(index_paths(paths@) =~= index_paths(before).push(path@));
            },
            Row::More(_) => {},
        }
    }
    assert(views.take(views.len() as int) =~= views);
    let ghost shown = index_paths(paths@);
    if paths.len() == 0 {
        return copy_opt_path(selected);
    }
    if let Some(sel) = selected {
        let n = paths.len();
        let mut at: usize = 0;
        while at < n && !same_index_path(paths[at].as_slice(), sel.as_slice())
            invariant
                n == paths@.len(),
                shown == index_paths(paths@),
                at <= n,
                forall|j: int| 0 <= j < at ==> shown[j] != sel@,
            decreases n - at,
        {
            assert(shown[at as int] == paths@[at as int]@);
            at = at + 1;
        }
        if at < n {
            proof {
                assert(shown[at as int] == sel@);
                assert(shown.contains(sel@));
                lemma_first_at(shown, sel@, at as int);
            }
            if down && at + 1 < n {
                assert(shown[at + 1] == paths@[at + 1]@);
                return Some(copy_path(paths[at + 1].as_slice()));
            }
            if !down && at > 0 {
                assert(shown[at - 1] == paths@[at - 1]@);
                return Some(copy_path(paths[at - 1].as_slice()));
            }
            return Some(copy_path(sel.as_slice()));
        }
        assert(!shown.contains(sel@));
    }
    assert(shown[0] == paths@[0]@);
    Some(copy_path(paths[0].as_slice()))
}

pub open spec fn index_paths(v: Seq<TreePath>) -> Seq<Seq<usize>> {
    v.map_values(|p: TreePath| p@)
}

/// What the tree view keeps from one frame to the next.
pub struct TreeViewState {
    pub expansion: Expansion,
    /// The selection that the tree was last expanded to.
    pub last_expanded: Option<TreePath>,
}

impl TreeViewState {
    pub fn new() -> (r: TreeViewState)
        ensures
            r.expansion@ == open_at_first(),
            r.last_expanded is None,
    {
        TreeViewState { expansion: Expansion::new(), last_expanded: None }
    }

    /// Expands the tree to the selection, but only when the selection changed, so
    /// that the folders above it can be closed again by hand. Returns whether it
    /// changed, and with it where the tree is to scroll.
    pub fn follow_selection(&mut self, selected: &Option<TreePath>) -> (r: bool)
        ensures
            r == (opt_path(*selected) != opt_path(old(self).last_expanded)),
            opt_path(final(self).last_expanded) == opt_path(*selected),
            final(self).expansion@ == (if r && selected is Some {
                expanded_to(old(self).expansion@, selected->0@)
            } else {
                old(self).expansion@
            }),
    {
        let same = match (selected, &self.last_expanded) {
            (Some(a), Some(b)) => same_index_path(a.as_slice(), b.as_slice()),
            (None, None) => true,
            _ => false,
        };
        if same {
            return false;
        }
        if let Some(path) = selected {
            self.expansion.expand_to_path(path.as_slice());
        }
        self.last_expanded = copy_opt_path(selected);
        true
    }
}

/// The color channel of every other row of the tree: in a dark theme a little
/// lighter than the frame, else a little darker.
pub fn alternate_channel(frame: u8, dark_mode: bool) -> (r: u8)
    ensures
        dark_mode ==> r == (if frame > 247 {
            255
        } else {
            frame + 8
        }),
        !dark_mode ==> r == (if frame < 10 {
            0
        } else {
            frame - 10
        }),
{
    if dark_mode {
        frame.saturating_add(8)
    } else {
        frame.saturating_sub(10)
    }
}

} // verus!
