//! Refreshes as a whole: what a refresh makes of a tree, whatever its directories have
//! become and wherever it was stopped.

use vstd::prelude::*;

use crate::model::node::Node;
use crate::model::refresh::{
    fate, is_refreshed, refreshed_directory_is_right, run, stepped, Fate, RefreshState,
};
use crate::model::scan::EntryView;
use crate::model::totals::{
    all_consistent, all_ordered, consistent, lemma_all_consistent, lemma_all_ordered, ordered,
    total_all, Measure,
};
use crate::path::joined;
use crate::ranking::lemma_multiset_member;

verus! {

/// How a refresh went in a directory: the entries that it found, the children on which it
/// was asked to stop, the node that it made, and how it went in the children. Those that it
/// did not go into have none: a file, a folder with nothing in it or that cannot be read,
/// and what was left once the refresh was stopped.
pub struct Pass {
    pub entries: Seq<EntryView>,
    pub stops: spec_fn(nat) -> bool,
    pub node: Node,
    pub inside: Seq<Option<Pass>>,
}

/// What a refresh made of a node. Where it did not go, that stays as it was.
pub open spec fn outcome(v: Option<Pass>, before: Node) -> Node {
    match v {
        Some(w) => w.node,
        None => before,
    }
}

/// A directory at the start of its refresh.
pub open spec fn begun(entries: Seq<EntryView>, before: Node) -> RefreshState {
    RefreshState { entries, todo: before.children, kept: Seq::empty(), stopped: false }
}

/// The folders as they come back.
pub open spec fn brought_back(w: Pass, before: Node) -> spec_fn(nat) -> Node {
    |i: nat| outcome(w.inside[i as int], before.children[i as int])
}

/// Whether the refresh may have gone as `w` says in the directory at `path`, which was
/// `before`.
pub open spec fn passed(w: Pass, before: Node, path: Seq<char>, excluded: Seq<String>) -> bool
    decreases w,
{
    &&& before.children.len() > 0
    &&& w.inside.len() == before.children.len()
    &&& forall|i: int|
        0 <= i < w.inside.len() && (#[trigger] w.inside[i]) is Some ==> passed(
            w.inside[i]->0,
            before.children[i],
            joined(path, before.children[i].name),
            excluded,
        )
    &&& is_refreshed(
        w.node,
        before,
        run(
            begun(w.entries, before),
            0,
            w.stops,
            brought_back(w, before),
            path,
            excluded,
        ).kept,
    )
}

/// Whether a refresh of the tree `before` may have gone as `v` says. Where its root cannot
/// be read, or there is nothing in it, it goes nowhere.
pub open spec fn refreshes(
    v: Option<Pass>,
    before: Node,
    path: Seq<char>,
    excluded: Seq<String>,
) -> bool {
    v is Some ==> passed(v->0, before, path, excluded)
}

/// Whether a path of names and kinds leads down from a node.
pub open spec fn has_path(n: Node, p: Seq<(Seq<char>, bool)>) -> bool
    decreases p.len(),
{
    p.len() == 0 || exists|i: int|
        0 <= i < n.children.len() && (#[trigger] n.children[i]).name == p[0].0
            && n.children[i].is_dir == p[0].1 && has_path(n.children[i], p.drop_first())
}

/// Whether the refresh was stopped before it looked at the child at `i`.
pub open spec fn carried(w: Pass, i: int) -> bool {
    exists|j: nat| j <= i && #[trigger] (w.stops)(j)
}

/// Whether the child at `i` stays: it was not looked at, or it is still there.
pub open spec fn stays(
    w: Pass,
    before: Node,
    path: Seq<char>,
    excluded: Seq<String>,
    i: int,
) -> bool {
    carried(w, i) || !(fate(before.children[i], w.entries, path, excluded) is Dropped)
}

/// How the refresh went in the child at `i`, if it went into it.
pub open spec fn into(
    w: Pass,
    before: Node,
    path: Seq<char>,
    excluded: Seq<String>,
    i: int,
) -> Option<Pass> {
    if !carried(w, i) && fate(before.children[i], w.entries, path, excluded) is Entered {
        w.inside[i]
    } else {
        None
    }
}

/// Whether a path of names and kinds that leads down from `before` is one of the tree after
/// the refresh: each step of it stays, down to where the refresh did not go.
pub open spec fn still_there(
    v: Option<Pass>,
    before: Node,
    path: Seq<char>,
    excluded: Seq<String>,
    p: Seq<(Seq<char>, bool)>,
) -> bool
    decreases p.len(),
{
    if v is None {
        has_path(before, p)
    } else {
        p.len() == 0 || exists|i: int|
            0 <= i < before.children.len() && (#[trigger] before.children[i]).name == p[0].0
                && before.children[i].is_dir == p[0].1 && stays(v->0, before, path, excluded, i)
                && still_there(
                into(v->0, before, path, excluded, i),
                before.children[i],
                joined(path, before.children[i].name),
                excluded,
                p.drop_first(),
            )
    }
}

/// Whether a path of names leads down from a node to a file of this size.
pub open spec fn has_file(n: Node, p: Seq<Seq<char>>, size: u64) -> bool
    decreases p.len(),
{
    p.len() > 0 && exists|i: int|
        0 <= i < n.children.len() && (#[trigger] n.children[i]).name == p[0] && if p.len() == 1 {
            !n.children[i].is_dir && n.children[i].size == size
        } else {
            has_file(n.children[i], p.drop_first(), size)
        }
}

/// The size that the file at `i` has after the refresh: the one it has now, if the refresh
/// looked at it.
pub open spec fn size_now(
    w: Pass,
    before: Node,
    path: Seq<char>,
    excluded: Seq<String>,
    i: int,
) -> u64 {
    if carried(w, i) {
        before.children[i].size
    } else {
        match fate(before.children[i], w.entries, path, excluded) {
            Fate::Resized(size) => size,
            _ => before.children[i].size,
        }
    }
}

/// Whether a path of names leads down from `before` to a file that stays, and has this size
/// after the refresh.
pub open spec fn file_now(
    v: Option<Pass>,
    before: Node,
    path: Seq<char>,
    excluded: Seq<String>,
    p: Seq<Seq<char>>,
    size: u64,
) -> bool
    decreases p.len(),
{
    if v is None {
        has_file(before, p, size)
    } else {
        p.len() > 0 && exists|i: int|
            0 <= i < before.children.len() && (#[trigger] before.children[i]).name == p[0]
                && stays(v->0, before, path, excluded, i) && if p.len() == 1 {
                !before.children[i].is_dir && size_now(v->0, before, path, excluded, i) == size
            } else {
                file_now(
                    into(v->0, before, path, excluded, i),
                    before.children[i],
                    joined(path, before.children[i].name),
                    excluded,
                    p.drop_first(),
                    size,
                )
            }
    }
}

/// What becomes of the child at `i`, if it stays.
spec fn becomes(
    w: Pass,
    before: Node,
    path: Seq<char>,
    excluded: Seq<String>,
    i: int,
) -> Node {
    let c = before.children[i];
    if carried(w, i) {
        c
    } else {
        match fate(c, w.entries, path, excluded) {
            Fate::Dropped => c,
            Fate::Resized(size) => Node { size, ..c },
            Fate::Entered => outcome(w.inside[i], c),
        }
    }
}

/// What stays of the children from `i` on.
spec fn kept_from(
    w: Pass,
    before: Node,
    path: Seq<char>,
    excluded: Seq<String>,
    i: nat,
) -> Seq<Node>
    decreases before.children.len() - i,
{
    if i >= before.children.len() {
        Seq::empty()
    } else {
        let rest = kept_from(w, before, path, excluded, i + 1);
        if stays(w, before, path, excluded, i as int) {
            seq![becomes(w, before, path, excluded, i as int)] + rest
        } else {
            rest
        }
    }
}

/// Whether `x` is what one of the children from `i` on became.
spec fn comes_from(
    x: Node,
    w: Pass,
    before: Node,
    path: Seq<char>,
    excluded: Seq<String>,
    i: nat,
) -> bool {
    exists|j: int|
        i <= j < before.children.len() && stays(w, before, path, excluded, j) && x
            == #[trigger] becomes(w, before, path, excluded, j)
}

proof fn lemma_run(
    st: RefreshState,
    i: nat,
    w: Pass,
    before: Node,
    path: Seq<char>,
    excluded: Seq<String>,
)
    requires
        i <= before.children.len(),
        st.entries == w.entries,
        st.todo == before.children.skip(i as int),
        st.stopped == carried(w, i - 1),
    ensures
        run(st, i, w.stops, brought_back(w, before), path, excluded).kept == st.kept + kept_from(
            w,
            before,
            path,
            excluded,
            i,
        ),
    decreases before.children.len() - i,
{
    let back = brought_back(w, before);
    let all = kept_from(w, before, path, excluded, i);
    if i == before.children.len() {
        assert(st.kept + all =~= st.kept);
    } else {
        let c = before.children[i as int];
        assert(st.todo[0] == c);
        let stop = st.stopped || (w.stops)(i);
        assert(stop == carried(w, i as int));
        let next = stepped(st, (w.stops)(i), path, excluded);
        let resumed = if !stop && fate(c, st.entries, path, excluded) is Entered {
            RefreshState { kept: next.kept.push(back(i)), ..next }
        } else {
            next
        };
        assert(resumed.todo =~= before.children.skip((i + 1) as int));
        lemma_run(resumed, i + 1, w, before, path, excluded);
        let rest = kept_from(w, before, path, excluded, i + 1);
        assert(resumed.kept + rest =~= st.kept + all);
    }
}

proof fn lemma_kept(
    w: Pass,
    before: Node,
    path: Seq<char>,
    excluded: Seq<String>,
    i: nat,
)
    ensures
        forall|k: int|
            0 <= k < kept_from(w, before, path, excluded, i).len() ==> comes_from(
                #[trigger] kept_from(w, before, path, excluded, i)[k],
                w,
                before,
                path,
                excluded,
                i,
            ),
        forall|j: int|
            i <= j < before.children.len() && stays(w, before, path, excluded, j) ==> kept_from(
                w,
                before,
                path,
                excluded,
                i,
            ).contains(#[trigger] becomes(w, before, path, excluded, j)),
    decreases before.children.len() - i,
{
    if i < before.children.len() {
        lemma_kept(w, before, path, excluded, i + 1);
        let all = kept_from(w, before, path, excluded, i);
        let rest = kept_from(w, before, path, excluded, i + 1);
        let shift: int = if stays(w, before, path, excluded, i as int) { 1 } else { 0 };
        assert forall|k: int| 0 <= k < all.len() implies comes_from(
            #[trigger] all[k],
            w,
            before,
            path,
            excluded,
            i,
        ) by {
            if k < shift {
                assert(all[k] == becomes(w, before, path, excluded, i as int));
            } else {
                assert(all[k] == rest[k - shift]);
                assert(comes_from(rest[k - shift], w, before, path, excluded, i + 1));
            }
        }
        assert forall|j: int|
            i <= j < before.children.len() && stays(w, before, path, excluded, j) implies
            all.contains(#[trigger] becomes(w, before, path, excluded, j)) by {
            let x = becomes(w, before, path, excluded, j);
            if j == i {
                assert(all[0] == x);
            } else {
                assert(rest.contains(x));
                let k = choose|k: int| 0 <= k < rest.len() && rest[k] == x;
                assert(all[k + shift] == x);
            }
        }
    }
}

/// The children of a directory after its refresh are what its children became, each of
/// those that stay.
proof fn lemma_children(w: Pass, before: Node, path: Seq<char>, excluded: Seq<String>)
    requires
        passed(w, before, path, excluded),
    ensures
        is_refreshed(w.node, before, kept_from(w, before, path, excluded, 0)),
        forall|k: int|
            0 <= k < w.node.children.len() ==> comes_from(
                #[trigger] w.node.children[k],
                w,
                before,
                path,
                excluded,
                0,
            ),
        forall|j: int|
            0 <= j < before.children.len() && stays(w, before, path, excluded, j)
                ==> w.node.children.contains(#[trigger] becomes(w, before, path, excluded, j)),
{
    let start = begun(w.entries, before);
    let kept = kept_from(w, before, path, excluded, 0);
    assert(start.todo =~= before.children.skip(0));
    assert(!carried(w, -1));
    lemma_run(start, 0, w, before, path, excluded);
    assert(start.kept + kept =~= kept);
    lemma_kept(w, before, path, excluded, 0);
    assert forall|k: int| 0 <= k < w.node.children.len() implies comes_from(
        #[trigger] w.node.children[k],
        w,
        before,
        path,
        excluded,
        0,
    ) by {
        lemma_multiset_member(w.node.children, kept, k);
        let m = choose|m: int| 0 <= m < kept.len() && kept[m] == w.node.children[k];
        assert(comes_from(kept[m], w, before, path, excluded, 0));
    }
    assert forall|j: int|
        0 <= j < before.children.len() && stays(w, before, path, excluded, j) implies
        w.node.children.contains(#[trigger] becomes(w, before, path, excluded, j)) by {
        let x = becomes(w, before, path, excluded, j);
        let m = choose|m: int| 0 <= m < kept.len() && kept[m] == x;
        lemma_multiset_member(kept, w.node.children, m);
    }
}

/// The tree after a refresh has the paths of the tree before that are still there, and no
/// others, whatever was found on the disk and wherever the refresh was stopped.
pub proof fn refreshed_tree_has_what_is_still_there(
    v: Option<Pass>,
    before: Node,
    path: Seq<char>,
    excluded: Seq<String>,
    p: Seq<(Seq<char>, bool)>,
)
    requires
        refreshes(v, before, path, excluded),
    ensures
        has_path(outcome(v, before), p) <==> still_there(v, before, path, excluded, p),
    decreases p.len(),
{
    if v is Some && p.len() > 0 {
        let w = v->0;
        let after = w.node;
        let rest = p.drop_first();
        lemma_children(w, before, path, excluded);
        assert forall|j: int|
            0 <= j < before.children.len() && stays(w, before, path, excluded, j) implies ({
            let x = #[trigger] becomes(w, before, path, excluded, j);
            let c = before.children[j];
            &&& x.name == c.name && x.is_dir == c.is_dir
            &&& has_path(x, rest) <==> still_there(
                into(w, before, path, excluded, j),
                c,
                joined(path, c.name),
                excluded,
                rest,
            )
        }) by {
            let x = becomes(w, before, path, excluded, j);
            let c = before.children[j];
            let inner = into(w, before, path, excluded, j);
            refreshed_tree_has_what_is_still_there(
                inner,
                c,
                joined(path, c.name),
                excluded,
                rest,
            );
            if inner is Some {
                assert(w.inside[j] is Some);
                lemma_children(inner->0, c, joined(path, c.name), excluded);
            } else {
                assert(x.children == c.children);
                assert(has_path(x, rest) == has_path(c, rest));
            }
        }
        if has_path(after, p) {
            let k = choose|k: int|
                0 <= k < after.children.len() && (#[trigger] after.children[k]).name == p[0].0
                    && after.children[k].is_dir == p[0].1 && has_path(after.children[k], rest);
            let x = after.children[k];
            assert(comes_from(x, w, before, path, excluded, 0));
            let j = choose|j: int|
                0 <= j < before.children.len() && stays(w, before, path, excluded, j) && x
                    == #[trigger] becomes(w, before, path, excluded, j);
            assert(before.children[j].name == p[0].0);
        }
        if still_there(v, before, path, excluded, p) {
            let j = choose|j: int|
                0 <= j < before.children.len() && (#[trigger] before.children[j]).name == p[0].0
                    && before.children[j].is_dir == p[0].1 && stays(w, before, path, excluded, j)
                    && still_there(
                    into(w, before, path, excluded, j),
                    before.children[j],
                    joined(path, before.children[j].name),
                    excluded,
                    rest,
                );
            let x = becomes(w, before, path, excluded, j);
            let k = choose|k: int| 0 <= k < after.children.len() && after.children[k] == x;
            assert(after.children[k].name == p[0].0);
        }
    }
}

/// Nothing that was not in the tree is added by a refresh: every path of names and kinds
/// in the tree after it was in the tree before. The root keeps its name and kind.
pub proof fn refresh_adds_nothing(
    v: Option<Pass>,
    before: Node,
    path: Seq<char>,
    excluded: Seq<String>,
    p: Seq<(Seq<char>, bool)>,
)
    requires
        refreshes(v, before, path, excluded),
    ensures
        has_path(outcome(v, before), p) ==> has_path(before, p),
        outcome(v, before).name == before.name,
        outcome(v, before).is_dir == before.is_dir,
{
    refreshed_tree_has_what_is_still_there(v, before, path, excluded, p);
    lemma_was_there(v, before, path, excluded, p);
}

proof fn lemma_was_there(
    v: Option<Pass>,
    before: Node,
    path: Seq<char>,
    excluded: Seq<String>,
    p: Seq<(Seq<char>, bool)>,
)
    ensures
        still_there(v, before, path, excluded, p) ==> has_path(before, p),
    decreases p.len(),
{
    if v is Some && p.len() > 0 && still_there(v, before, path, excluded, p) {
        let w = v->0;
        let j = choose|j: int|
            0 <= j < before.children.len() && (#[trigger] before.children[j]).name == p[0].0
                && before.children[j].is_dir == p[0].1 && stays(w, before, path, excluded, j)
                && still_there(
                into(w, before, path, excluded, j),
                before.children[j],
                joined(path, before.children[j].name),
                excluded,
                p.drop_first(),
            );
        lemma_was_there(
            into(w, before, path, excluded, j),
            before.children[j],
            joined(path, before.children[j].name),
            excluded,
            p.drop_first(),
        );
        assert(has_path(before.children[j], p.drop_first()));
    }
}

/// The files of the tree after a refresh are those that stay, each with the size that was
/// found for it, or its old one where the refresh did not look at it.
pub proof fn refreshed_files_have_their_sizes(
    v: Option<Pass>,
    before: Node,
    path: Seq<char>,
    excluded: Seq<String>,
    p: Seq<Seq<char>>,
    size: u64,
)
    requires
        refreshes(v, before, path, excluded),
    ensures
        has_file(outcome(v, before), p, size) <==> file_now(
            v,
            before,
            path,
            excluded,
            p,
            size,
        ),
    decreases p.len(),
{
    if v is Some && p.len() > 0 {
        let w = v->0;
        let after = w.node;
        let rest = p.drop_first();
        lemma_children(w, before, path, excluded);
        assert forall|j: int|
            0 <= j < before.children.len() && stays(w, before, path, excluded, j) implies ({
            let x = #[trigger] becomes(w, before, path, excluded, j);
            let c = before.children[j];
            &&& x.name == c.name && x.is_dir == c.is_dir
            &&& !c.is_dir ==> x.size == size_now(w, before, path, excluded, j)
            &&& has_file(x, rest, size) <==> file_now(
                into(w, before, path, excluded, j),
                c,
                joined(path, c.name),
                excluded,
                rest,
                size,
            )
        }) by {
            let x = becomes(w, before, path, excluded, j);
            let c = before.children[j];
            let inner = into(w, before, path, excluded, j);
            refreshed_files_have_their_sizes(
                inner,
                c,
                joined(path, c.name),
                excluded,
                rest,
                size,
            );
            if inner is Some {
                assert(w.inside[j] is Some);
                lemma_children(inner->0, c, joined(path, c.name), excluded);
            } else {
                assert(x.children == c.children);
                assert(has_file(x, rest, size) == has_file(c, rest, size));
            }
        }
        if has_file(after, p, size) {
            let k = choose|k: int|
                0 <= k < after.children.len() && (#[trigger] after.children[k]).name == p[0]
                    && if p.len() == 1 {
                    !after.children[k].is_dir && after.children[k].size == size
                } else {
                    has_file(after.children[k], rest, size)
                };
            let x = after.children[k];
            assert(comes_from(x, w, before, path, excluded, 0));
            let j = choose|j: int|
                0 <= j < before.children.len() && stays(w, before, path, excluded, j) && x
                    == #[trigger] becomes(w, before, path, excluded, j);
            assert(before.children[j].name == p[0]);
        }
        if file_now(v, before, path, excluded, p, size) {
            let j = choose|j: int|
                0 <= j < before.children.len() && (#[trigger] before.children[j]).name == p[0]
                    && stays(w, before, path, excluded, j) && if p.len() == 1 {
                    !before.children[j].is_dir && size_now(w, before, path, excluded, j) == size
                } else {
                    file_now(
                        into(w, before, path, excluded, j),
                        before.children[j],
                        joined(path, before.children[j].name),
                        excluded,
                        rest,
                        size,
                    )
                };
            let x = becomes(w, before, path, excluded, j);
            let k = choose|k: int| 0 <= k < after.children.len() && after.children[k] == x;
            assert(after.children[k].name == p[0]);
        }
    }
}

/// A tree with right totals has right totals after a refresh, and one that is in order
/// stays so, whatever was found on the disk and wherever the refresh was stopped.
pub proof fn refreshed_trees_are_right(
    v: Option<Pass>,
    before: Node,
    path: Seq<char>,
    excluded: Seq<String>,
)
    requires
        refreshes(v, before, path, excluded),
        consistent(before),
    ensures
        consistent(outcome(v, before)),
        ordered(before) ==> ordered(outcome(v, before)),
    decreases v,
{
    if v is Some {
        let w = v->0;
        let kept = kept_from(w, before, path, excluded, 0);
        lemma_children(w, before, path, excluded);
        lemma_kept(w, before, path, excluded, 0);
        lemma_all_consistent(before.children);
        lemma_all_ordered(before.children);
        assert forall|j: int|
            0 <= j < before.children.len() implies consistent(
            #[trigger] becomes(w, before, path, excluded, j),
        ) && (ordered(before) ==> ordered(becomes(w, before, path, excluded, j))) by {
            let c = before.children[j];
            let x = becomes(w, before, path, excluded, j);
            assert(consistent(c));
            if !carried(w, j) {
                match fate(c, w.entries, path, excluded) {
                    Fate::Dropped => {},
                    Fate::Resized(_) => {
                        assert(c.children =~= Seq::empty());
                        assert(total_all(x.children, Measure::Bytes) == 0);
                    },
                    Fate::Entered => {
                        assert(w.inside[j] is Some ==> passed(
                            w.inside[j]->0,
                            c,
                            joined(path, c.name),
                            excluded,
                        ));
                        refreshed_trees_are_right(
                            w.inside[j],
                            c,
                            joined(path, c.name),
                            excluded,
                        );
                    },
                }
            }
        }
        assert forall|k: int| 0 <= k < kept.len() implies consistent(#[trigger] kept[k]) && (
        ordered(before) ==> ordered(kept[k])) by {
            assert(comes_from(kept[k], w, before, path, excluded, 0));
        }
        lemma_all_consistent(kept);
        lemma_all_ordered(kept);
        assert(all_consistent(kept));
        assert(ordered(before) ==> all_ordered(kept));
        refreshed_directory_is_right(w.node, before, kept);
    }
}

} // verus!
