//! What the user does with a loaded scan, and what that comes to.

use vstd::prelude::*;

use crate::format::{format_file_count, FileCount};
use crate::laws::lists::{lemma_largest, lists_the_largest};
use crate::laws::statistics::more_bytes_first;
use crate::laws::tree::{is_taken_out, lemma_fs_names, lemma_taken_out, named_along};
use crate::loaded::{
    next_selection_after_delete, Command, ContextEffect, DeleteChoice, DeleteTarget, InfoCard,
    LoadedState, NavIntent, Volume,
};
use crate::model::listing::trees_are_addressable;
use crate::model::node::{FileNode, Node};
use crate::model::totals::{total, Measure};
use crate::model::tree::{
    fs_path_at, fs_path_exists_with_node, name_extension, node_at, FileTree, TreePath,
};
use crate::path::path_parts;
use crate::ranking::Ranked;
use crate::ui::tree_view::{index_paths, TreeViewState};
use crate::ui::ContextAction;

verus! {

broadcast use crate::model::node::group_nodes;

/// Whether all is as it was but for where the user is, which folders are open, and whether
/// the treemap has to be laid out.
pub open spec fn only_moved(a: LoadedState, b: LoadedState) -> bool {
    &&& a.tree == b.tree
    &&& a.selected == b.selected
    &&& a.partial == b.partial
    &&& a.from_cache == b.from_cache
    &&& a.pending_scan == b.pending_scan
    &&& a.open_settings_requested == b.open_settings_requested
    &&& a.pending_refresh == b.pending_refresh
    &&& a.view_mode == b.view_mode
    &&& a.largest == b.largest
    &&& a.show_all_file_types == b.show_all_file_types
    &&& a.file_types_search == b.file_types_search
    &&& a.volume == b.volume
    &&& a.tree_view.last_expanded == b.tree_view.last_expanded
    &&& a.colors_stale == b.colors_stale
}

/// Whether the tree panel has the folder at `dir` and all above it open, and the others as
/// they were.
pub open spec fn is_opened_to(
    now: spec_fn(Seq<usize>) -> bool,
    before: spec_fn(Seq<usize>) -> bool,
    dir: Seq<usize>,
) -> bool {
    forall|p: Seq<usize>| #[trigger] now(p) == (p.is_prefix_of(dir) || before(p))
}

proof fn lemma_opened(e: spec_fn(Seq<usize>) -> bool, dir: Seq<usize>)
    ensures
        is_opened_to(crate::loaded::opened_to(e, dir), e, dir),
{
    let now = crate::loaded::opened_to(e, dir);
    assert forall|p: Seq<usize>| #[trigger] now(p) == (p.is_prefix_of(dir) || e(p)) by {
        if p.is_prefix_of(dir) && p.len() == dir.len() {
            assert(dir.subrange(0, dir.len() as int) =~= dir);
        }
        if p == dir {
            assert(dir.subrange(0, dir.len() as int) =~= dir);
        }
    }
}

proof fn lemma_history(v: Seq<TreePath>, i: int)
    ensures
        index_paths(v).len() == v.len(),
        0 <= i < v.len() ==> index_paths(v)[i] == v[i]@,
{
}

/// A scan that was just loaded is shown from its root, with nothing selected or asked for.
pub proof fn a_loaded_scan_is_shown_from_its_root(
    tree: FileTree,
    volume: Option<Volume>,
    partial: bool,
    from_cache: bool,
    tree_view: TreeViewState,
    r: LoadedState,
)
    requires
        call_ensures(LoadedState::new, (tree, volume, partial, from_cache, tree_view), r),
    ensures
        r.tree == tree,
        r.volume == volume,
        r.partial == partial,
        r.from_cache == from_cache,
        r.tree_view == tree_view,
        r.current_dir@.len() == 0,
        r.history@.len() == 1,
        r.history@[0]@.len() == 0,
        r.history_pos == 0,
        r.selected is None,
        r.pending_scan is None,
        !r.pending_refresh,
        !r.open_settings_requested,
        r.largest is None,
        r.view_mode is Treemap,
        !r.show_all_file_types,
        r.file_types_search@.len() == 0,
        r.layout_stale && r.colors_stale,
{
    lemma_history(r.history@, 0);
    let h = seq![Seq::<usize>::empty()];
    assert(r.place().history == h);
    assert(h.len() == 1 && h[0].len() == 0);
}

/// Setting the folder shows it, and opens it in the tree with all that are above it.
pub proof fn setting_the_folder_opens_the_tree_to_it(s: &mut LoadedState, dir: TreePath, i: int)
    requires
        call_ensures(LoadedState::set_dir, (s, dir), ()),
    ensures
        final(s).current_dir@ == dir@,
        final(s).layout_stale,
        only_moved(*final(s), *old(s)),
        is_opened_to(final(s).tree_view.expansion@, old(s).tree_view.expansion@, dir@),
        final(s).history_pos == old(s).history_pos,
        final(s).history@.len() == old(s).history@.len(),
        0 <= i < old(s).history@.len() ==> final(s).history@[i]@ == old(s).history@[i]@,
{
    lemma_opened(old(s).tree_view.expansion@, dir@);
    lemma_history(final(s).history@, i);
    lemma_history(old(s).history@, i);
    assert(final(s).place().history == old(s).place().history);
    assert(final(s).place().pos == old(s).place().pos);
}

/// Whether the user was taken to `dir`, which is the last place of the history now, after
/// those up to the one where they were.
pub open spec fn is_navigated(a: LoadedState, b: LoadedState, dir: Seq<usize>) -> bool {
    &&& a.current_dir@ == dir
    &&& a.history_pos == b.history_pos + 1
    &&& a.history@.len() == b.history_pos + 2
    &&& a.history@[a.history_pos as int]@ == dir
    &&& forall|i: int|
        0 <= i <= b.history_pos ==> (#[trigger] a.history@[i])@ == b.history@[i]@
    &&& a.layout_stale
    &&& is_opened_to(a.tree_view.expansion@, b.tree_view.expansion@, dir)
}

/// Whether the user is at the place `pos` of the history, which stays as it was.
pub open spec fn is_at(a: LoadedState, b: LoadedState, pos: int) -> bool {
    &&& a.history_pos == pos
    &&& a.current_dir@ == b.history@[pos]@
    &&& a.history@.len() == b.history@.len()
    &&& forall|i: int|
        0 <= i < b.history@.len() ==> (#[trigger] a.history@[i])@ == b.history@[i]@
    &&& a.layout_stale
    &&& is_opened_to(a.tree_view.expansion@, b.tree_view.expansion@, b.history@[pos]@)
}

proof fn lemma_navigated(a: LoadedState, b: LoadedState, dir: Seq<usize>)
    requires
        b.wf(),
        dir != b.current_dir@,
        a.moved(b, crate::loaded::navigated(b.place(), dir)),
    ensures
        is_navigated(a, b, dir),
        only_moved(a, b),
{
    lemma_opened(b.tree_view.expansion@, dir);
    lemma_history(a.history@, a.history_pos as int);
    lemma_history(b.history@, 0);
    let h = b.place().history.take(b.history_pos + 1).push(dir);
    assert(a.place().history == h);
    assert forall|i: int| 0 <= i <= b.history_pos implies (#[trigger] a.history@[i])@
        == b.history@[i]@ by {
        lemma_history(a.history@, i);
        lemma_history(b.history@, i);
        assert(h[i] == b.place().history[i]);
    }
}

proof fn lemma_at(a: LoadedState, b: LoadedState, pos: int)
    requires
        b.wf(),
        0 <= pos < b.history@.len(),
        a.moved(
            b,
            (crate::loaded::Place { dir: b.place().history[pos], pos, ..b.place() }),
        ),
    ensures
        is_at(a, b, pos),
        only_moved(a, b),
{
    lemma_opened(b.tree_view.expansion@, b.history@[pos]@);
    lemma_history(b.history@, pos);
    assert(a.place().history == b.place().history);
    assert forall|i: int| 0 <= i < b.history@.len() implies (#[trigger] a.history@[i])@
        == b.history@[i]@ by {
        lemma_history(a.history@, i);
        lemma_history(b.history@, i);
    }
    lemma_history(a.history@, 0);
}

/// Going to a folder shows it, keeps the places up to the present one in the history, and
/// adds the folder after them. Going to where one is changes nothing.
pub proof fn going_to_a_folder_is_recorded(s: &mut LoadedState, dir: TreePath)
    requires
        call_ensures(LoadedState::navigate_to, (s, dir), ()),
        old(s).history_pos < old(s).history@.len(),
    ensures
        dir@ == old(s).current_dir@ ==> *final(s) == *old(s),
        dir@ != old(s).current_dir@ ==> is_navigated(*final(s), *old(s), dir@) && only_moved(
            *final(s),
            *old(s),
        ),
{
    lemma_history(old(s).history@, 0);
    if dir@ != old(s).current_dir@ {
        lemma_navigated(*final(s), *old(s), dir@);
    }
}

/// Back leads to the place before the present one, if there is one.
pub proof fn going_back_leads_to_the_place_before(s: &mut LoadedState)
    requires
        call_ensures(LoadedState::go_back, (s,), ()),
        old(s).history_pos < old(s).history@.len(),
    ensures
        old(s).history_pos == 0 ==> *final(s) == *old(s),
        old(s).history_pos > 0 ==> is_at(*final(s), *old(s), old(s).history_pos - 1) && only_moved(
            *final(s),
            *old(s),
        ),
{
    lemma_history(old(s).history@, 0);
    if old(s).history_pos > 0 {
        lemma_at(*final(s), *old(s), old(s).history_pos - 1);
    }
}

/// Forward leads to the place after the present one, if there is one.
pub proof fn going_forward_leads_to_the_place_after(s: &mut LoadedState)
    requires
        call_ensures(LoadedState::go_forward, (s,), ()),
        old(s).history_pos < old(s).history@.len(),
    ensures
        old(s).history_pos + 1 == old(s).history@.len() ==> *final(s) == *old(s),
        old(s).history_pos + 1 < old(s).history@.len() ==> is_at(
            *final(s),
            *old(s),
            old(s).history_pos + 1,
        ) && only_moved(*final(s), *old(s)),
{
    lemma_history(old(s).history@, 0);
    if old(s).history_pos + 1 < old(s).history@.len() {
        lemma_at(*final(s), *old(s), old(s).history_pos + 1);
    }
}

/// One can go back unless at the first place.
pub proof fn one_can_go_back_unless_at_the_start(s: &LoadedState, r: bool)
    requires
        call_ensures(LoadedState::can_go_back, (s,), r),
    ensures
        r <==> s.history_pos > 0,
{
    let p = s.place();
    assert(p.pos == s.history_pos);
    assert(crate::loaded::gone_back(p).pos == if p.pos > 0 {
        p.pos - 1
    } else {
        p.pos
    });
}

/// One can go forward unless at the last place.
pub proof fn one_can_go_forward_unless_at_the_end(s: &LoadedState, r: bool)
    requires
        call_ensures(LoadedState::can_go_forward, (s,), r),
        s.history_pos < s.history@.len(),
    ensures
        r <==> s.history_pos + 1 < s.history@.len(),
{
    let p = s.place();
    lemma_history(s.history@, 0);
    assert(p.pos == s.history_pos);
    assert(crate::loaded::gone_forward(p).pos == if p.pos + 1 < p.history.len() {
        p.pos + 1
    } else {
        p.pos
    });
}

/// What is asked for in the breadcrumb is done: back, forward, a folder of the tree, or a
/// scan of a folder above it.
pub proof fn what_the_breadcrumb_asks_for_is_done(s: &mut LoadedState, n: NavIntent)
    requires
        call_ensures(LoadedState::apply_nav, (s, n), ()),
        old(s).history_pos < old(s).history@.len(),
    ensures
        n is Back && old(s).history_pos > 0 ==> is_at(*final(s), *old(s), old(s).history_pos - 1),
        n is Forward && old(s).history_pos + 1 < old(s).history@.len() ==> is_at(
            *final(s),
            *old(s),
            old(s).history_pos + 1,
        ),
        n is SetDir && n->SetDir_0@ != old(s).current_dir@ ==> is_navigated(
            *final(s),
            *old(s),
            n->SetDir_0@,
        ),
        n is Rescan ==> final(s).pending_scan is Some && final(s).pending_scan->0@ == n->Rescan_0@
            && *final(s) == (LoadedState { pending_scan: final(s).pending_scan, ..*old(s) }),
        n is Back && old(s).history_pos == 0 ==> *final(s) == *old(s),
        n is Forward && old(s).history_pos + 1 == old(s).history@.len() ==> *final(s) == *old(s),
        n is SetDir && n->SetDir_0@ == old(s).current_dir@ ==> *final(s) == *old(s),
        !(n is Rescan) ==> only_moved(*final(s), *old(s)),
{
    lemma_history(old(s).history@, 0);
    match n {
        NavIntent::Back => if old(s).history_pos > 0 {
            lemma_at(*final(s), *old(s), old(s).history_pos - 1);
        },
        NavIntent::Forward => if old(s).history_pos + 1 < old(s).history@.len() {
            lemma_at(*final(s), *old(s), old(s).history_pos + 1);
        },
        NavIntent::SetDir(d) => if d@ != old(s).current_dir@ {
            lemma_navigated(*final(s), *old(s), d@);
        },
        NavIntent::Rescan(_) => {},
    }
}

/// A double click selects what it is on and shows that folder, or the folder that the file
/// is in. On what is not there it does nothing.
pub proof fn a_double_click_shows_the_folder(s: &mut LoadedState, path: TreePath)
    requires
        call_ensures(LoadedState::activate, (s, path), ()),
        old(s).history_pos < old(s).history@.len(),
    ensures
        node_at(old(s).tree.root@, path@) is None ==> *final(s) == *old(s),
        node_at(old(s).tree.root@, path@) is Some ==> final(s).selected is Some && final(
            s).selected->0@ == path@,
        node_at(old(s).tree.root@, path@) is Some && node_at(old(s).tree.root@, path@)->0.is_dir
            ==> final(s).current_dir@ == path@,
        node_at(old(s).tree.root@, path@) is Some && !node_at(old(s).tree.root@, path@)->0.is_dir
            && path@.len() > 0 ==> final(s).current_dir@ == path@.take(path@.len() - 1),
        node_at(old(s).tree.root@, path@) is Some && !node_at(old(s).tree.root@, path@)->0.is_dir
            && path@.len() == 0 ==> final(s).current_dir@.len() == 0,
        node_at(old(s).tree.root@, path@) is Some && final(s).current_dir@ != old(s).current_dir@
            ==> is_navigated(*final(s), *old(s), final(s).current_dir@),
        node_at(old(s).tree.root@, path@) is Some && final(s).current_dir@ == old(s).current_dir@
            ==> *final(s) == (LoadedState { selected: final(s).selected, ..*old(s) }),
        only_moved(*final(s), LoadedState { selected: final(s).selected, ..*old(s) }),
{
    let n = node_at(old(s).tree.root@, path@);
    if n is Some {
        let to = crate::loaded::activation_target(n->0, path@);
        let sel = LoadedState { selected: Some(path), ..*old(s) };
        assert(path@.len() > 0 ==> path@.drop_last() =~= path@.take(path@.len() - 1));
        if to != old(s).current_dir@ {
            assert(sel.place() == old(s).place());
            lemma_history(old(s).history@, 0);
            assert(final(s).moved(sel, crate::loaded::navigated(sel.place(), to)));
            lemma_navigated(*final(s), sel, to);
        }
    }
}

/// A folder that is not there any more is left for the root; one that is stays.
pub proof fn a_folder_that_is_gone_is_left(s: &mut LoadedState)
    requires
        call_ensures(LoadedState::drop_dangling_dir, (s,), ()),
    ensures
        node_at(old(s).tree.root@, old(s).current_dir@) is Some ==> *final(s) == *old(s),
        node_at(old(s).tree.root@, old(s).current_dir@) is None ==> final(s).current_dir@.len() == 0
            && *final(s) == (LoadedState {
            current_dir: final(s).current_dir,
            layout_stale: true,
            ..*old(s)
        }),
{
}

/// The ranking of folders has the largest of the tree, unless there is one.
pub proof fn the_ranking_has_the_largest_folders(s: &mut LoadedState)
    requires
        call_ensures(LoadedState::ensure_largest, (s,), ()),
    ensures
        old(s).largest is Some ==> *final(s) == *old(s),
        old(s).largest is None ==> final(s).largest is Some && lists_the_largest(
            final(s).largest->0@,
            old(s).tree.root@,
            200,
        ),
        *final(s) == (LoadedState { largest: final(s).largest, ..*old(s) }),
{
    if old(s).largest is None {
        trees_are_addressable(old(s).tree.root);
        lemma_largest(final(s).largest->0@, old(s).tree.root@, 200);
    }
}

/// Whether a target is what is at `path`: it has its numbers and its kind, and its path in
/// the file system goes by the names from the root down.
pub open spec fn is_target(t: DeleteTarget, tree: FileTree, path: Seq<usize>) -> bool {
    let n = node_at(tree.root@, path)->0;
    &&& node_at(tree.root@, path) is Some
    &&& t.sel_path@ == path
    &&& t.is_dir == n.is_dir
    &&& t.size == n.size
    &&& t.file_count == n.file_count
    &&& t.dir_count == n.dir_count
    &&& leads_to(t.fs_path@, tree, path)
}

/// Whether `text` is the file system path of the node at `path`.
pub open spec fn leads_to(text: Seq<char>, tree: FileTree, path: Seq<usize>) -> bool {
    let start = path_parts(tree.root_path@).names;
    let names = path_parts(text).names;
    &&& fs_path_at(tree.root_path@, tree.root@, path) == Some(text)
    &&& path.len() == 0 ==> text == tree.root_path@
    &&& named_along(tree.root@, path) ==> {
        &&& path_parts(text).absolute == path_parts(tree.root_path@).absolute
        &&& names.len() == start.len() + path.len()
        &&& names.take(start.len() as int) == start
        &&& forall|k: int|
            0 < k <= path.len() ==> names[start.len() + k - 1] == node_at(
                tree.root@,
                #[trigger] path.take(k),
            )->0.name
    }
}

proof fn lemma_leads_to(text: Seq<char>, tree: FileTree, path: Seq<usize>)
    requires
        fs_path_at(tree.root_path@, tree.root@, path) == Some(text),
    ensures
        leads_to(text, tree, path),
        node_at(tree.root@, path) is Some,
{
    fs_path_exists_with_node(tree.root_path@, tree.root@, path);
    if named_along(tree.root@, path) {
        lemma_fs_names(tree.root_path@, tree.root@, path);
    }
}

/// What is to be deleted is what is selected.
pub proof fn the_target_is_what_is_selected(
    tree: &FileTree,
    path: &[usize],
    r: Option<DeleteTarget>,
)
    requires
        call_ensures(DeleteTarget::from_selection, (tree, path), r),
    ensures
        r is Some <==> node_at(tree.root@, path@) is Some,
        r is Some ==> is_target(r->0, *tree, path@),
{
    if r is Some {
        lemma_leads_to(r->0.fs_path@, *tree, path@);
    }
}

/// The name that is shown for what is to be deleted is the last one of its path.
pub proof fn the_target_is_shown_by_its_last_name(t: &DeleteTarget, r: String)
    requires
        call_ensures(DeleteTarget::name, (t,), r),
    ensures
        path_parts(t.fs_path@).names.len() > 0 && path_parts(t.fs_path@).names.last() != seq![
            '.',
            '.',
        ] ==> r@ == path_parts(t.fs_path@).names.last(),
        path_parts(t.fs_path@).names.len() == 0 || path_parts(t.fs_path@).names.last() == seq![
            '.',
            '.',
        ] ==> r@.len() == 0,
{
}

/// The delete key deletes what is selected, at once with the command key, else after a
/// question. Without the key, or with nothing selected that is there, nothing is deleted.
pub proof fn the_delete_key_deletes_what_is_selected(
    s: &LoadedState,
    del: bool,
    cmd: bool,
    r: DeleteChoice,
)
    requires
        call_ensures(LoadedState::delete_choice, (s, del, cmd), r),
    ensures
        r is Nothing <==> !(del && s.selected is Some && node_at(
            s.tree.root@,
            s.selected->0@,
        ) is Some),
        r is Now ==> cmd && is_target(r->Now_0, s.tree, s.selected->0@),
        r is Confirm ==> !cmd && is_target(r->Confirm_0, s.tree, s.selected->0@),
{
    if r is Now {
        lemma_leads_to(r->Now_0.fs_path@, s.tree, s.selected->0@);
    }
    if r is Confirm {
        lemma_leads_to(r->Confirm_0.fs_path@, s.tree, s.selected->0@);
    }
}

/// What is selected after a delete: what took its place, else the sibling before it, else
/// the folder that it was in, but not the root.
pub open spec fn is_next(root: Node, path: Seq<usize>, r: Option<Seq<usize>>) -> bool {
    let parent = path.take(path.len() - 1);
    let count = node_at(root, parent)->0.children.len();
    if path.len() == 0 || node_at(root, parent) is None {
        r is None
    } else if path.last() < count {
        r == Some(path)
    } else if count > 0 {
        r is Some && r->0.len() == path.len() && r->0.take(path.len() - 1) == parent
            && r->0.last() == count - 1
    } else if path.len() == 1 {
        r is None
    } else {
        r == Some(parent)
    }
}

proof fn lemma_next(root: FileNode, path: Seq<usize>)
    ensures
        is_next(root@, path, crate::loaded::next_selection(root@, path)),
{
    if path.len() > 0 {
        let parent = path.drop_last();
        assert(parent =~= path.take(path.len() - 1));
        if node_at(root@, parent) is Some {
            lemma_count(root, parent);
            let count = node_at(root@, parent)->0.children.len();
            if count > 0 && path.last() >= count {
                let q = parent.push((count - 1) as usize);
                assert(q.take(path.len() - 1) =~= parent);
            }
        }
    }
}

proof fn lemma_count(root: FileNode, p: Seq<usize>)
    requires
        node_at(root@, p) is Some,
    ensures
        node_at(root@, p)->0.children.len() <= usize::MAX,
    decreases p.len(),
{
    assert(root.children.len() == root.children@.len());
    if p.len() > 0 {
        assert(root@.children[p[0] as int] == root.children@[p[0] as int]@);
        lemma_count(root.children@[p[0] as int], p.drop_first());
    }
}

/// After a delete something near is selected.
pub proof fn something_near_is_selected_after_a_delete(
    root: &FileNode,
    path: &[usize],
    r: Option<TreePath>,
)
    requires
        call_ensures(next_selection_after_delete, (root, path), r),
    ensures
        is_next(
            root@,
            path@,
            match r {
                Some(p) => Some(p@),
                None => None,
            },
        ),
{
    lemma_next(*root, path@);
}

/// Deleting takes the node out of the tree and its totals from all above it. The statistics
/// are those of the tree that is left, something near is selected, and what was computed
/// from the tree is computed anew. The root cannot be taken out.
pub proof fn deleting_takes_the_node_out_of_everything(s: &mut LoadedState, t: &DeleteTarget)
    requires
        call_ensures(LoadedState::apply_delete, (s, t), ()),
    ensures
        t.sel_path@.len() > 0 && node_at(old(s).tree.root@, t.sel_path@) is Some ==> is_taken_out(
            old(s).tree.root@,
            final(s).tree.root@,
            t.sel_path@,
        ),
        t.sel_path@.len() == 0 || node_at(old(s).tree.root@, t.sel_path@) is None ==> final(
            s).tree.root@ == old(s).tree.root@,
        more_bytes_first(final(s).tree.extensions@),
        forall|i: int|
            0 <= i < final(s).tree.extensions@.len() ==> (#[trigger] final(
                s).tree.extensions@[i]).bytes == total(
                final(s).tree.root@,
                Measure::LabelBytes(final(s).tree.extensions@[i].ext@),
            ),
        forall|i: int|
            0 <= i < final(s).tree.extensions@.len() ==> (#[trigger] final(
                s).tree.extensions@[i]).count == total(
                final(s).tree.root@,
                Measure::LabelFiles(final(s).tree.extensions@[i].ext@),
            ),
        forall|k: Seq<char>| #[trigger]
            total(final(s).tree.root@, Measure::LabelFiles(k)) > 0 ==> exists|i: int|
                0 <= i < final(s).tree.extensions@.len() && (#[trigger] final(
                    s).tree.extensions@[i]).ext@ == k,
        forall|i: int, j: int|
            0 <= i < j < final(s).tree.extensions@.len() ==> (#[trigger] final(
                s).tree.extensions@[i]).ext@ != (#[trigger] final(s).tree.extensions@[j]).ext@,
        forall|i: int|
            0 <= i < final(s).tree.extensions@.len() ==> (#[trigger] final(
                s).tree.extensions@[i]).count > 0,
        is_next(
            final(s).tree.root@,
            t.sel_path@,
            match final(s).selected {
                Some(p) => Some(p@),
                None => None,
            },
        ),
        *final(s) == (LoadedState {
            tree: final(s).tree,
            selected: final(s).selected,
            largest: None,
            layout_stale: true,
            colors_stale: true,
            ..*old(s)
        }),
        final(s).tree.root_path@ == old(s).tree.root_path@,
        final(s).tree.permission_denied == old(s).tree.permission_denied,
        final(s).tree.size_approximate == old(s).tree.size_approximate,
{
    if t.sel_path@.len() > 0 && node_at(old(s).tree.root@, t.sel_path@) is Some {
        lemma_taken_out(old(s).tree.root@, t.sel_path@);
    }
    let v = final(s).tree.extensions@;
    assert forall|i: int, j: int| 0 <= i <= j < v.len() implies (#[trigger] v[i]).bytes >= (
    #[trigger] v[j]).bytes by {
        assert(v[i].rank() >= v[j].rank());
    }
    lemma_next(final(s).tree.root, t.sel_path@);
}

/// A context menu does what it says to what it is on: it asks before deleting, copies the
/// path, opens a folder, or shows something in the folder that it is in.
pub proof fn a_context_menu_does_what_it_says(
    s: &LoadedState,
    path: &[usize],
    action: ContextAction,
    r: ContextEffect,
)
    requires
        call_ensures(LoadedState::context_effect, (s, path, action), r),
    ensures
        r is Nothing <==> node_at(s.tree.root@, path@) is None,
        action is Delete && !(r is Nothing) ==> r is ConfirmDelete && is_target(
            r->ConfirmDelete_0,
            s.tree,
            path@,
        ),
        action is CopyPath && !(r is Nothing) ==> r is Copy && leads_to(
            r->Copy_0@,
            s.tree,
            path@,
        ),
        action is RevealInFinder && !(r is Nothing) ==> r is Reveal && leads_to(
            r->Reveal_0@,
            s.tree,
            path@,
        ),
        action is OpenInFinder && !(r is Nothing) ==> {
            &&& node_at(s.tree.root@, path@)->0.is_dir ==> r is Open && leads_to(
                r->Open_0@,
                s.tree,
                path@,
            )
            &&& !node_at(s.tree.root@, path@)->0.is_dir ==> r is Reveal && leads_to(
                r->Reveal_0@,
                s.tree,
                path@,
            )
        },
{
    match r {
        ContextEffect::Nothing => {},
        ContextEffect::ConfirmDelete(t) => lemma_leads_to(t.fs_path@, s.tree, path@),
        ContextEffect::Copy(p) => lemma_leads_to(p@, s.tree, path@),
        ContextEffect::Open(p) => lemma_leads_to(p@, s.tree, path@),
        ContextEffect::Reveal(p) => lemma_leads_to(p@, s.tree, path@),
    }
}

/// The card shows the name, the size and the path of what is selected, if cards are shown;
/// of a folder also how much is in it.
pub proof fn the_card_shows_what_is_selected(s: &LoadedState, shown: bool, r: Option<InfoCard>)
    requires
        call_ensures(LoadedState::info_card, (s, shown), r),
    ensures
        r is Some <==> shown && s.selected is Some && node_at(
            s.tree.root@,
            s.selected->0@,
        ) is Some,
        r is Some ==> {
            let n = node_at(s.tree.root@, s.selected->0@)->0;
            &&& r->0.name@ == n.name
            &&& r->0.size == n.size
            &&& leads_to(r->0.path@, s.tree, s.selected->0@)
            &&& r->0.detail is Folder <==> n.is_dir
        },
{
    if r is Some {
        fs_path_exists_with_node(s.tree.root_path@, s.tree.root@, s.selected->0@);
        lemma_leads_to(r->0.path@, s.tree, s.selected->0@);
    }
}

/// Whether two counts are shown alike.
pub open spec fn shown_alike(a: FileCount, b: FileCount) -> bool {
    match (a, b) {
        (FileCount::Exact(s), FileCount::Exact(t)) => s@ == t@,
        (FileCount::Millions(m), FileCount::Millions(n)) => m == n,
        _ => false,
    }
}

/// The card of a folder shows how many files and folders are in it, as counts are shown.
pub proof fn the_card_of_a_folder_counts_what_is_in_it(
    s: &LoadedState,
    shown: bool,
    r: Option<InfoCard>,
    many: u64,
    files: FileCount,
    more: u64,
    folders: FileCount,
)
    requires
        call_ensures(LoadedState::info_card, (s, shown), r),
        r is Some && r->0.detail is Folder,
        many == node_at(s.tree.root@, s.selected->0@)->0.file_count,
        more == node_at(s.tree.root@, s.selected->0@)->0.dir_count,
        call_ensures(format_file_count, (many,), files),
        call_ensures(format_file_count, (more,), folders),
    ensures
        shown_alike(r->0.detail->Folder_0, files),
        shown_alike(r->0.detail->Folder_1, folders),
{
}

/// The card of a file says of which kind it is.
pub proof fn the_card_of_a_file_says_its_kind(s: &LoadedState, shown: bool, r: Option<InfoCard>)
    requires
        call_ensures(LoadedState::info_card, (s, shown), r),
        r is Some && r->0.detail is File,
    ensures
        ({
            let ext = name_extension(node_at(s.tree.root@, s.selected->0@)->0.name);
            &&& ext.len() == 0 ==> r->0.detail->File_0@ == "File"@
            &&& ext.len() > 0 ==> r->0.detail->File_0@ == "."@ + ext + " file"@
        }),
{
}

/// A rescan is asked for of the root that is loaded.
pub proof fn a_rescan_is_of_the_same_root(s: &mut LoadedState)
    requires
        call_ensures(LoadedState::request_rescan, (s,), ()),
    ensures
        final(s).pending_scan is Some,
        final(s).pending_scan->0@ == old(s).tree.root_path@,
        *final(s) == (LoadedState { pending_scan: final(s).pending_scan, ..*old(s) }),
{
}

/// The request to open the settings is taken once.
pub proof fn a_settings_request_is_taken_once(
    first: &mut LoadedState,
    second: &mut LoadedState,
    a: bool,
    b: bool,
)
    requires
        call_ensures(LoadedState::take_settings_request, (first,), a),
        *final(first) == *old(second),
        call_ensures(LoadedState::take_settings_request, (second,), b),
    ensures
        a == old(first).open_settings_requested,
        !b,
        *final(second) == (LoadedState { open_settings_requested: false, ..*old(first) }),
{
}

/// A scan goes before a refresh: of the folder that was picked, else of the one that was
/// asked for. A request is carried out once.
pub proof fn a_request_is_carried_out(
    s: &mut LoadedState,
    cmd_r: bool,
    cmd_o: bool,
    picked: Option<String>,
    r: Command,
)
    requires
        call_ensures(LoadedState::take_command, (s, cmd_r, cmd_o, picked), r),
    ensures
        cmd_o && picked is Some ==> r is Scan && r->Scan_0@ == picked->0@,
        !cmd_o && old(s).pending_scan is Some ==> r is Scan && r->Scan_0@ == old(
            s).pending_scan->0@ && final(s).pending_scan is None,
        !(cmd_o && picked is Some) && !(!cmd_o && old(s).pending_scan is Some) ==> {
            &&& r is Refresh <==> cmd_r || old(s).pending_refresh
            &&& r is Nothing <==> !cmd_r && !old(s).pending_refresh
        },
        !cmd_r ==> !final(s).pending_refresh,
        cmd_r ==> final(s).pending_refresh == old(s).pending_refresh,
        cmd_o ==> final(s).pending_scan == old(s).pending_scan,
        *final(s) == (LoadedState {
            pending_scan: final(s).pending_scan,
            pending_refresh: final(s).pending_refresh,
            ..*old(s)
        }),
{
}

} // verus!
