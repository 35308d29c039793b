//! The state of a loaded scan: where the user is in the tree, what is selected,
//! what was asked for, and what deleting does to all of that.

use vstd::prelude::*;

use crate::format::{format_file_count, kind_label, kind_text, shows_count, FileCount};
use crate::model::edit::{lemma_without_no_more, without};
use crate::model::extensions::{labels_countable, lists_tree};
use crate::model::node::{FileNode, Node};
use crate::model::report::{dir_views, directories, is_top, DirSummary, DirSummaryView};
use crate::model::totals::{total, Measure};
use crate::model::tree::{
    copy_path, fs_path_at, fs_path_exists_with_node, fs_path_of_child, node_at, node_extension,
    same_index_path, FileTree, TreePath,
};
use crate::path::{file_name, last_name};
use crate::ui::tree_view::{
    expanded_to, index_paths, item_count, open_ancestors_show_a_node, opt_path, prefix_of,
    tree_rows, with_open, RowView, TreeViewState, MAX_RENDERED_ITEMS,
};
use crate::ui::ContextAction;

verus! {

broadcast use crate::model::node::group_nodes;

/// Which visualization the right-hand panel shows.
#[derive(Clone, Copy, PartialEq, Eq, Structural)]
pub enum ViewMode {
    Treemap,
    Sunburst,
    Largest,
}

/// The space on a volume, and its display name.
pub struct Volume {
    pub free: u64,
    pub total: u64,
    pub name: String,
}

/// A loaded scan.
pub struct LoadedState {
    pub tree: FileTree,
    pub selected: Option<TreePath>,
    /// True when the displayed tree came from a scan the user stopped early.
    pub partial: bool,
    /// True when this tree was loaded from the on-disk cache (not freshly scanned).
    pub from_cache: bool,
    /// A full scan was requested, of this folder.
    pub pending_scan: Option<String>,
    pub open_settings_requested: bool,
    /// A refresh was requested (check existing nodes only, no full re-walk).
    pub pending_refresh: bool,
    /// Right-panel visualization mode.
    pub view_mode: ViewMode,
    /// The "largest folders" ranking, recomputed lazily after tree changes.
    pub largest: Option<Vec<DirSummary>>,
    /// "All File Types" report popover state.
    pub show_all_file_types: bool,
    pub file_types_search: String,
    /// The scanned volume, for the sidebar bar.
    pub volume: Option<Volume>,
    /// The navigated folder the right panel and breadcrumb reflect. Distinct from
    /// `selected` (the highlighted item): single-click selects, double-click
    /// navigates here.
    pub current_dir: TreePath,
    /// Back/forward history of `current_dir`.
    pub history: Vec<TreePath>,
    pub history_pos: usize,
    /// What the tree panel keeps.
    pub tree_view: TreeViewState,
    /// The treemap has to be laid out anew.
    pub layout_stale: bool,
    /// The colors of the file types have to be chosen anew.
    pub colors_stale: bool,
}

/// Where the user is, as a value.
#[verifier::ext_equal]
pub struct Place {
    pub dir: Seq<usize>,
    pub history: Seq<Seq<usize>>,
    pub pos: int,
}

/// A navigation request collected during rendering and applied afterwards.
pub enum NavIntent {
    Back,
    Forward,
    SetDir(TreePath),
    Rescan(String),
}

/// Whether the place in the history is one.
pub open spec fn placed(p: Place) -> bool {
    0 <= p.pos < p.history.len()
}

/// Navigating to `dir` drops what was ahead in the history and adds `dir`. It does
/// nothing if that is where the user is.
pub open spec fn navigated(p: Place, dir: Seq<usize>) -> Place {
    if dir == p.dir {
        p
    } else {
        Place { dir, history: p.history.take(p.pos + 1).push(dir), pos: p.pos + 1 }
    }
}

pub open spec fn gone_back(p: Place) -> Place {
    if p.pos > 0 {
        Place { dir: p.history[p.pos - 1], pos: p.pos - 1, ..p }
    } else {
        p
    }
}

pub open spec fn gone_forward(p: Place) -> Place {
    if p.pos + 1 < p.history.len() {
        Place { dir: p.history[p.pos + 1], pos: p.pos + 1, ..p }
    } else {
        p
    }
}

/// Wherever the user goes, the place in the history is one.
pub proof fn navigation_stays_in_the_history(p: Place, dir: Seq<usize>)
    requires
        placed(p),
    ensures
        placed(navigated(p, dir)),
        placed(gone_back(p)),
        placed(gone_forward(p)),
{
}

/// If the user is where the history says, they are after any navigation.
pub proof fn navigation_follows_the_history(p: Place, dir: Seq<usize>)
    requires
        placed(p),
        p.history[p.pos] == p.dir,
    ensures
        navigated(p, dir).history[navigated(p, dir).pos] == navigated(p, dir).dir,
        gone_back(p).history[gone_back(p).pos] == gone_back(p).dir,
        gone_forward(p).history[gone_forward(p).pos] == gone_forward(p).dir,
{
}

/// Back after navigating leads to where the user was, and forward from there to
/// where they had gone.
pub proof fn back_undoes_navigating(p: Place, dir: Seq<usize>)
    requires
        placed(p),
        p.history[p.pos] == p.dir,
        dir != p.dir,
    ensures
        gone_back(navigated(p, dir)).dir == p.dir,
        gone_back(navigated(p, dir)).pos == p.pos,
        gone_forward(gone_back(navigated(p, dir))) == navigated(p, dir),
{
}

/// Back and forward undo each other.
pub proof fn back_and_forward_undo_each_other(p: Place)
    requires
        placed(p),
        p.history[p.pos] == p.dir,
    ensures
        p.pos > 0 ==> gone_forward(gone_back(p)) == p,
        p.pos + 1 < p.history.len() ==> gone_back(gone_forward(p)) == p,
{
}

/// The folder that double-clicking the node at `path` navigates to: the node
/// itself if it is a folder, else the folder that it is in.
pub open spec fn activation_target(n: Node, path: Seq<usize>) -> Seq<usize> {
    if n.is_dir {
        path
    } else if path.len() == 0 {
        Seq::empty()
    } else {
        path.drop_last()
    }
}

/// The open folders of the tree after navigating to `dir`: it is open, and so is
/// every folder above it.
pub open spec fn opened_to(
    e: spec_fn(Seq<usize>) -> bool,
    dir: Seq<usize>,
) -> spec_fn(Seq<usize>) -> bool {
    with_open(expanded_to(e, dir), dir, true)
}

/// After navigating to a folder the tree shows it, unless it has so many rows that it
/// was cut off.
pub proof fn navigating_shows_the_folder(
    root: Node,
    dir: Seq<usize>,
    e: spec_fn(Seq<usize>) -> bool,
)
    requires
        node_at(root, dir) is Some,
        forall|k: int| 0 <= k < dir.len() ==> node_at(root, #[trigger] dir.take(k))->0.is_dir,
        item_count(tree_rows(root, opened_to(e, dir))) < MAX_RENDERED_ITEMS,
    ensures
        tree_rows(root, opened_to(e, dir)).contains(RowView::Item(dir)),
{
    let open = opened_to(e, dir);
    assert(Seq::<usize>::empty() + dir =~= dir);
    assert forall|k: int| 0 <= k < dir.len() implies node_at(root, #[trigger] dir.take(k))->0.is_dir
        && open(Seq::<usize>::empty() + dir.take(k)) by {
        assert(Seq::<usize>::empty() + dir.take(k) =~= dir.take(k));
        assert(dir.take(k).is_prefix_of(dir));
    }
    open_ancestors_show_a_node(root, Seq::empty(), dir, open, 0, MAX_RENDERED_ITEMS as nat);
}

/// What to select after the node at `path` was deleted from the tree that is now
/// `root`: what took its place, else the last of its siblings, else the folder
/// that it was in, unless that is the root.
pub open spec fn next_selection(root: Node, path: Seq<usize>) -> Option<Seq<usize>> {
    if path.len() == 0 || node_at(root, path.drop_last()) is None {
        None
    } else {
        let parent = path.drop_last();
        let count = node_at(root, parent)->0.children.len();
        if count == 0 {
            if parent.len() == 0 {
                None
            } else {
                Some(parent)
            }
        } else if path.last() < count {
            Some(path)
        } else {
            Some(parent.push((count - 1) as usize))
        }
    }
}

/// What is selected after deleting is there.
pub proof fn next_selection_is_there(root: Node, path: Seq<usize>)
    requires
        next_selection(root, path) is Some,
        path.len() > 0 ==> node_at(root, path.drop_last())->0.children.len() <= usize::MAX,
    ensures
        node_at(root, next_selection(root, path)->0) is Some,
{
    let parent = path.drop_last();
    let count = node_at(root, parent)->0.children.len();
    if count > 0 {
        if path.last() < count {
            fs_path_of_child(Seq::empty(), root, parent, path.last());
            assert(parent.push(path.last()) =~= path);
        } else {
            fs_path_of_child(Seq::empty(), root, parent, (count - 1) as usize);
        }
    }
}

/// Snapshot of a node's metadata needed for deletion.
pub struct DeleteTarget {
    pub sel_path: TreePath,
    pub fs_path: String,
    pub is_dir: bool,
    pub size: u64,
    pub file_count: u32,
    pub dir_count: u32,
}

/// Whether `t` is the target for deleting the node at `path`.
pub open spec fn targets(t: DeleteTarget, tree: FileTree, path: Seq<usize>) -> bool {
    &&& node_at(tree.root@, path) is Some
    &&& t.sel_path@ == path
    &&& fs_path_at(tree.root_path@, tree.root@, path) == Some(t.fs_path@)
    &&& t.is_dir == node_at(tree.root@, path)->0.is_dir
    &&& t.size == node_at(tree.root@, path)->0.size
    &&& t.file_count == node_at(tree.root@, path)->0.file_count
    &&& t.dir_count == node_at(tree.root@, path)->0.dir_count
}

impl DeleteTarget {
    /// Resolve the selected node into a target, or `None` if the path is invalid.
    pub fn from_selection(tree: &FileTree, sel_path: &[usize]) -> (r: Option<DeleteTarget>)
        ensures
            (match r {
                Some(t) => targets(t, *tree, sel_path@),
                None => node_at(tree.root@, sel_path@) is None,
            }),
    {
        proof {
            fs_path_exists_with_node(tree.root_path@, tree.root@, sel_path@);
        }
        match (tree.build_fs_path(sel_path), tree.root.resolve_path(sel_path)) {
            (Some(fs_path), Some(node)) => Some(
                DeleteTarget {
                    sel_path: copy_path(sel_path),
                    fs_path,
                    is_dir: node.is_dir,
                    size: node.size,
                    file_count: node.file_count,
                    dir_count: node.dir_count,
                },
            ),
            _ => None,
        }
    }

    /// The name to show for what is to be deleted.
    pub fn name(&self) -> (r: String)
        ensures
            r@ == (match last_name(self.fs_path@) {
                Some(t) => t,
                None => Seq::empty(),
            }),
    {
        match file_name(self.fs_path.as_str()) {
            Some(t) => t,
            None => String::new(),
        }
    }
}

/// What the delete keys ask for.
pub enum DeleteChoice {
    Nothing,
    /// Ask first, then delete.
    Confirm(DeleteTarget),
    /// Delete at once.
    Now(DeleteTarget),
}

/// What a context menu entry comes to.
pub enum ContextEffect {
    Nothing,
    /// Ask first, then delete.
    ConfirmDelete(DeleteTarget),
    /// Put this text on the clipboard.
    Copy(String),
    /// Open this folder in the Finder.
    Open(String),
    /// Show this path in the folder that it is in.
    Reveal(String),
}

/// What is started at the end of a frame.
pub enum Command {
    Nothing,
    /// A full scan of a folder.
    Scan(String),
    /// A refresh of the tree that is loaded.
    Refresh,
}

pub open spec fn opt_string(s: Option<String>) -> Option<Seq<char>> {
    match s {
        Some(t) => Some(t@),
        None => None,
    }
}

/// The details of a node.
pub struct InfoCard {
    pub name: String,
    pub size: u64,
    pub detail: CardDetail,
    pub path: String,
}

pub enum CardDetail {
    /// How many files and folders it has.
    Folder(FileCount, FileCount),
    /// What kind of file it is.
    File(String),
}

/// Whether a card shows the details of a node.
pub open spec fn card_of(card: InfoCard, n: Node, path: Seq<char>) -> bool {
    &&& card.name@ == n.name
    &&& card.size == n.size
    &&& card.path@ == path
    &&& match card.detail {
        CardDetail::Folder(files, folders) => n.is_dir && shows_count(files, n.file_count as u64)
            && shows_count(folders, n.dir_count as u64),
        CardDetail::File(kind) => !n.is_dir && kind@ == kind_text(node_extension(n)),
    }
}

impl LoadedState {
    /// Where the user is.
    pub open spec fn place(self) -> Place {
        Place {
            dir: self.current_dir@,
            history: index_paths(self.history@),
            pos: self.history_pos as int,
        }
    }

    /// The place in the history is one.
    pub open spec fn wf(self) -> bool {
        placed(self.place())
    }

    /// Whether all but the place, the open folders and the need to lay out is as
    /// in `other`.
    pub open spec fn same_but_place(self, other: LoadedState) -> bool {
        &&& self.tree == other.tree
        &&& self.selected == other.selected
        &&& self.partial == other.partial
        &&& self.from_cache == other.from_cache
        &&& self.pending_scan == other.pending_scan
        &&& self.open_settings_requested == other.open_settings_requested
        &&& self.pending_refresh == other.pending_refresh
        &&& self.view_mode == other.view_mode
        &&& self.largest == other.largest
        &&& self.show_all_file_types == other.show_all_file_types
        &&& self.file_types_search == other.file_types_search
        &&& self.volume == other.volume
        &&& self.tree_view.last_expanded == other.tree_view.last_expanded
        &&& self.colors_stale == other.colors_stale
    }

    /// Whether the user was taken from `before`, where they were, to `place`. The
    /// treemap has to be laid out, and the tree is open down to the folder.
    pub open spec fn moved(self, before: LoadedState, place: Place) -> bool {
        &&& self.same_but_place(before)
        &&& self.place() == place
        &&& self.layout_stale
        &&& self.tree_view.expansion@ == opened_to(before.tree_view.expansion@, place.dir)
    }

    /// The state of a tree that was just scanned or loaded. The tree panel goes on as it
    /// was, so that folders stay open over a rescan.
    pub fn new(
        tree: FileTree,
        volume: Option<Volume>,
        partial: bool,
        from_cache: bool,
        tree_view: TreeViewState,
    ) -> (r: LoadedState)
        ensures
            r.wf(),
            r.tree == tree,
            r.tree_view == tree_view,
            r.volume == volume,
            r.partial == partial,
            r.from_cache == from_cache,
            r.selected is None,
            r.pending_scan is None,
            !r.open_settings_requested,
            !r.pending_refresh,
            r.view_mode == ViewMode::Treemap,
            r.largest is None,
            !r.show_all_file_types,
            r.file_types_search@ == Seq::<char>::empty(),
            r.place() == (Place {
                dir: Seq::empty(),
                history: seq![Seq::<usize>::empty()],
                pos: 0,
            }),
            r.layout_stale,
            r.colors_stale,
    {
        let mut history: Vec<TreePath> = Vec::new();
        let start: TreePath = Vec::new();
        history.push(start);
        let r = LoadedState {
            tree,
            selected: None,
            partial,
            from_cache,
            pending_scan: None,
            open_settings_requested: false,
            pending_refresh: false,
            view_mode: ViewMode::Treemap,
            largest: None,
            show_all_file_types: false,
            file_types_search: String::new(),
            volume,
            current_dir: Vec::new(),
            history,
            history_pos: 0,
            tree_view,
            layout_stale: true,
            colors_stale: true,
        };
        assert(r.place().history =~= seq![Seq::<usize>::empty()]);
        r
    }

    /// Set `current_dir`, have the treemap laid out anew so that it re-roots, and
    /// open the tree down to the folder.
    pub fn set_dir(&mut self, dir: TreePath)
        ensures
            final(self).moved(*old(self), (Place { dir: dir@, ..old(self).place() })),
    {
        self.tree_view.expansion.expand_to_path(dir.as_slice());
        self.tree_view.expansion.set_open(dir.as_slice(), true);
        self.current_dir = dir;
        self.layout_stale = true;
    }

    /// Navigate the right panel and breadcrumb to `dir`, recording history.
    pub fn navigate_to(&mut self, dir: TreePath)
        requires
            old(self).wf(),
        ensures
            final(self).wf(),
            dir@ == old(self).current_dir@ ==> *final(self) == *old(self),
            dir@ != old(self).current_dir@ ==> final(self).moved(
                *old(self),
                navigated(old(self).place(), dir@),
            ),
    {
        if same_index_path(dir.as_slice(), self.current_dir.as_slice()) {
            return;
        }
        let ghost before = self.history@;
        let len = self.history.len();
        assert(self.history_pos < len);
        let keep = self.history_pos + 1;
        self.history.truncate(keep);
        self.history.push(copy_path(dir.as_slice()));
        self.history_pos = self.history.len() - 1;
        proof {
            assert(index_paths(self.history@) =~= index_paths(before).take(keep as int).push(
                dir@,
            ));
        }
        self.set_dir(dir);
    }

    pub fn go_back(&mut self)
        requires
            old(self).wf(),
        ensures
            final(self).wf(),
            old(self).history_pos == 0 ==> *final(self) == *old(self),
            old(self).history_pos > 0 ==> final(self).moved(
                *old(self),
                gone_back(old(self).place()),
            ),
    {
        if self.history_pos > 0 {
            self.history_pos = self.history_pos - 1;
            let dir = copy_path(self.history[self.history_pos].as_slice());
            self.set_dir(dir);
        }
    }

    pub fn go_forward(&mut self)
        requires
            old(self).wf(),
        ensures
            final(self).wf(),
            old(self).history_pos + 1 >= old(self).history@.len() ==> *final(self) == *old(self),
            old(self).history_pos + 1 < old(self).history@.len() ==> final(self).moved(
                *old(self),
                gone_forward(old(self).place()),
            ),
    {
        let len = self.history.len();
        assert(self.history_pos < len);
        if self.history_pos + 1 < len {
            self.history_pos = self.history_pos + 1;
            let dir = copy_path(self.history[self.history_pos].as_slice());
            self.set_dir(dir);
        }
    }

    /// Whether there is something to go back to.
    pub fn can_go_back(&self) -> (r: bool)
        ensures
            r == (gone_back(self.place()) != self.place()),
    {
        self.history_pos > 0
    }

    /// Whether there is something to go forward to.
    pub fn can_go_forward(&self) -> (r: bool)
        requires
            self.wf(),
        ensures
            r == (gone_forward(self.place()) != self.place()),
    {
        let len = self.history.len();
        assert(self.history_pos < len);
        self.history_pos + 1 < len
    }

    pub fn apply_nav(&mut self, n: NavIntent)
        requires
            old(self).wf(),
        ensures
            final(self).wf(),
            (match n {
                NavIntent::Back => if old(self).history_pos > 0 {
                    final(self).moved(*old(self), gone_back(old(self).place()))
                } else {
                    *final(self) == *old(self)
                },
                NavIntent::Forward => if old(self).history_pos + 1 < old(self).history@.len() {
                    final(self).moved(*old(self), gone_forward(old(self).place()))
                } else {
                    *final(self) == *old(self)
                },
                NavIntent::SetDir(d) => if d@ != old(self).current_dir@ {
                    final(self).moved(*old(self), navigated(old(self).place(), d@))
                } else {
                    *final(self) == *old(self)
                },
                NavIntent::Rescan(p) => *final(self) == (LoadedState {
                    pending_scan: Some(p),
                    ..*old(self)
                }),
            }),
    {
        match n {
            NavIntent::Back => self.go_back(),
            NavIntent::Forward => self.go_forward(),
            NavIntent::SetDir(d) => self.navigate_to(d),
            NavIntent::Rescan(p) => {
                self.pending_scan = Some(p);
            },
        }
    }

    /// Double-clicking `path`: select it, and navigate into a folder, or to a
    /// file's parent. A path that leads nowhere does nothing.
    pub fn activate(&mut self, path: TreePath)
        requires
            old(self).wf(),
        ensures
            final(self).wf(),
            (match node_at(old(self).tree.root@, path@) {
                None => *final(self) == *old(self),
                Some(n) => {
                    let to = activation_target(n, path@);
                    let sel = LoadedState { selected: Some(path), ..*old(self) };
                    if to == old(self).current_dir@ {
                        *final(self) == sel
                    } else {
                        final(self).moved(sel, navigated(old(self).place(), to))
                    }
                },
            }),
    {
        let target = match self.tree.root.resolve_path(path.as_slice()) {
            Some(n) => {
                if n.is_dir {
                    copy_path(path.as_slice())
                } else if path.len() > 0 {
                    prefix_of(path.as_slice(), path.len() - 1)
                } else {
                    Vec::new()
                }
            },
            None => {
                return;
            },
        };
        self.selected = Some(path);
        self.navigate_to(target);
    }

    /// Shows the root if the current folder is gone: a delete can reindex siblings
    /// and leave `current_dir` dangling. Neither the history nor the open folders of the
    /// tree change.
    pub fn drop_dangling_dir(&mut self)
        ensures
            node_at(old(self).tree.root@, old(self).current_dir@) is Some ==> *final(self) == *old(
                self,
            ),
            node_at(old(self).tree.root@, old(self).current_dir@) is None ==> {
                &&& final(self).current_dir@ == Seq::<usize>::empty()
                &&& *final(self) == (LoadedState {
                    current_dir: final(self).current_dir,
                    layout_stale: true,
                    ..*old(self)
                })
            },
    {
        if self.tree.root.resolve_path(self.current_dir.as_slice()).is_none() {
            self.current_dir = Vec::new();
            self.layout_stale = true;
        }
    }

    /// Ranks the 200 largest folders, unless that was done since the tree last
    /// changed.
    pub fn ensure_largest(&mut self)
        ensures
            old(self).largest is Some ==> *final(self) == *old(self),
            old(self).largest is None ==> {
                &&& final(self).largest is Some
                &&& is_top(
                    dir_views(final(self).largest->0@),
                    directories(old(self).tree.root@.children, Seq::empty()),
                    |d: DirSummaryView| d.size,
                    200,
                )
                &&& *final(self) == (LoadedState { largest: final(self).largest, ..*old(self) })
            },
    {
        if self.largest.is_none() {
            self.largest = Some(self.tree.largest_directories(200));
        }
    }

    /// What Delete or Backspace does: with the command key the selected node is
    /// deleted at once, else after a confirmation.
    pub fn delete_choice(&self, del: bool, cmd: bool) -> (r: DeleteChoice)
        ensures
            (match r {
                DeleteChoice::Nothing => !del || self.selected is None || node_at(
                    self.tree.root@,
                    self.selected->0@,
                ) is None,
                DeleteChoice::Confirm(t) => del && !cmd && self.selected is Some && targets(
                    t,
                    self.tree,
                    self.selected->0@,
                ),
                DeleteChoice::Now(t) => del && cmd && self.selected is Some && targets(
                    t,
                    self.tree,
                    self.selected->0@,
                ),
            }),
    {
        if !del {
            return DeleteChoice::Nothing;
        }
        match &self.selected {
            Some(sel) => match DeleteTarget::from_selection(&self.tree, sel.as_slice()) {
                Some(t) => if cmd {
                    DeleteChoice::Now(t)
                } else {
                    DeleteChoice::Confirm(t)
                },
                None => DeleteChoice::Nothing,
            },
            None => DeleteChoice::Nothing,
        }
    }

    /// Takes what was deleted on disk out of the tree: the totals above it and the
    /// statistics follow, something near it is selected, and whatever was computed
    /// from the tree is stale.
    pub fn apply_delete(&mut self, target: &DeleteTarget)
        requires
            labels_countable(old(self).tree.root@),
        ensures
            final(self).tree.root@ == (if target.sel_path@.len() > 0 && node_at(
                old(self).tree.root@,
                target.sel_path@,
            ) is Some {
                without(old(self).tree.root@, target.sel_path@)
            } else {
                old(self).tree.root@
            }),
            lists_tree(final(self).tree.extensions@, final(self).tree.root@),
            final(self).tree.root_path == old(self).tree.root_path,
            final(self).tree.permission_denied == old(self).tree.permission_denied,
            final(self).tree.size_approximate == old(self).tree.size_approximate,
            opt_path(final(self).selected) == next_selection(
                final(self).tree.root@,
                target.sel_path@,
            ),
            *final(self) == (LoadedState {
                tree: final(self).tree,
                selected: final(self).selected,
                largest: None,
                layout_stale: true,
                colors_stale: true,
                ..*old(self)
            }),
    {
        let ghost root = self.tree.root@;
        let removed = self.tree.remove_at_path(target.sel_path.as_slice());
        proof {
            if removed is Some {
                assert forall|k: Seq<char>|
                    #![trigger total(self.tree.root@, Measure::LabelBytes(k))]
                    #![trigger total(self.tree.root@, Measure::LabelFiles(k))]
                    total(self.tree.root@, Measure::LabelBytes(k)) <= u64::MAX && total(
                        self.tree.root@,
                        Measure::LabelFiles(k),
                    ) <= u64::MAX by {
                    lemma_without_no_more(root, target.sel_path@, Measure::LabelBytes(k));
                    lemma_without_no_more(root, target.sel_path@, Measure::LabelFiles(k));
                    let _ = total(root, Measure::LabelBytes(k));
                }
            }
        }
        self.tree.rebuild_extensions();
        self.selected = next_selection_after_delete(&self.tree.root, target.sel_path.as_slice());
        self.layout_stale = true;
        self.colors_stale = true;
        self.largest = None;
    }

    /// What a context menu entry comes to. For a file, opening it in the Finder
    /// shows it in its folder.
    pub fn context_effect(&self, path: &[usize], action: ContextAction) -> (r: ContextEffect)
        ensures
            (match r {
                ContextEffect::Nothing => node_at(self.tree.root@, path@) is None,
                ContextEffect::ConfirmDelete(t) => action is Delete && targets(
                    t,
                    self.tree,
                    path@,
                ),
                ContextEffect::Copy(p) => action is CopyPath && fs_path_at(
                    self.tree.root_path@,
                    self.tree.root@,
                    path@,
                ) == Some(p@),
                ContextEffect::Open(p) => action is OpenInFinder && node_at(
                    self.tree.root@,
                    path@,
                )->0.is_dir && fs_path_at(self.tree.root_path@, self.tree.root@, path@) == Some(
                    p@,
                ),
                ContextEffect::Reveal(p) => (action is RevealInFinder || (action is OpenInFinder
                    && !node_at(self.tree.root@, path@)->0.is_dir)) && fs_path_at(
                    self.tree.root_path@,
                    self.tree.root@,
                    path@,
                ) == Some(p@),
            }),
    {
        proof {
            fs_path_exists_with_node(self.tree.root_path@, self.tree.root@, path@);
        }
        match action {
            ContextAction::Delete => match DeleteTarget::from_selection(&self.tree, path) {
                Some(t) => ContextEffect::ConfirmDelete(t),
                None => ContextEffect::Nothing,
            },
            ContextAction::CopyPath => match self.tree.build_fs_path(path) {
                Some(p) => ContextEffect::Copy(p),
                None => ContextEffect::Nothing,
            },
            ContextAction::OpenInFinder => match self.tree.build_fs_path(path) {
                Some(p) => {
                    let is_dir = match self.tree.root.resolve_path(path) {
                        Some(n) => n.is_dir,
                        None => false,
                    };
                    if is_dir {
                        ContextEffect::Open(p)
                    } else {
                        ContextEffect::Reveal(p)
                    }
                },
                None => ContextEffect::Nothing,
            },
            ContextAction::RevealInFinder => match self.tree.build_fs_path(path) {
                Some(p) => ContextEffect::Reveal(p),
                None => ContextEffect::Nothing,
            },
        }
    }

    /// The card with the details of what is selected, if such cards are shown.
    pub fn info_card(&self, shown: bool) -> (r: Option<InfoCard>)
        ensures
            r is Some <==> shown && self.selected is Some && node_at(
                self.tree.root@,
                self.selected->0@,
            ) is Some,
            r is Some ==> card_of(
                r->0,
                node_at(self.tree.root@, self.selected->0@)->0,
                fs_path_at(self.tree.root_path@, self.tree.root@, self.selected->0@)->0,
            ),
    {
        if !shown {
            return None;
        }
        let sel = match &self.selected {
            Some(sel) => sel,
            None => {
                return None;
            },
        };
        proof {
            fs_path_exists_with_node(self.tree.root_path@, self.tree.root@, sel@);
        }
        match (self.tree.root.resolve_path(sel.as_slice()), self.tree.build_fs_path(
            sel.as_slice(),
        )) {
            (Some(node), Some(path)) => Some(
                InfoCard {
                    name: node.name.clone(),
                    size: node.size,
                    detail: if node.is_dir {
                        CardDetail::Folder(
                            format_file_count(node.file_count as u64),
                            format_file_count(node.dir_count as u64),
                        )
                    } else {
                        CardDetail::File(kind_label(node.extension().as_str()))
                    },
                    path,
                },
            ),
            _ => None,
        }
    }

    /// Requests a full scan of the root that is loaded, as after a change of the
    /// settings.
    pub fn request_rescan(&mut self)
        ensures
            opt_string(final(self).pending_scan) == Some(old(self).tree.root_path@),
            *final(self) == (LoadedState { pending_scan: final(self).pending_scan, ..*old(self) }),
    {
        self.pending_scan = Some(self.tree.root_path.clone());
    }

    /// Takes the request to open the settings.
    pub fn take_settings_request(&mut self) -> (r: bool)
        ensures
            r == old(self).open_settings_requested,
            *final(self) == (LoadedState { open_settings_requested: false, ..*old(self) }),
    {
        let r = self.open_settings_requested;
        self.open_settings_requested = false;
        r
    }

    /// What is started at the end of a frame. With ⌘O it is a scan of the folder that
    /// was picked, else of the one that was requested. If there is none, ⌘R or a
    /// request starts a refresh.
    pub fn take_command(&mut self, cmd_r: bool, cmd_o: bool, picked: Option<String>) -> (r:
        Command)
        ensures
            ({
                let scan = if cmd_o {
                    picked
                } else {
                    old(self).pending_scan
                };
                match r {
                    Command::Scan(p) => scan == Some(p),
                    Command::Refresh => scan is None && (cmd_r || old(self).pending_refresh),
                    Command::Nothing => scan is None && !cmd_r && !old(self).pending_refresh,
                }
            }),
            *final(self) == (LoadedState {
                pending_refresh: cmd_r && old(self).pending_refresh,
                pending_scan: if cmd_o {
                    old(self).pending_scan
                } else {
                    None
                },
                ..*old(self)
            }),
    {
        let refresh = if cmd_r {
            true
        } else {
            let asked = self.pending_refresh;
            self.pending_refresh = false;
            asked
        };
        let scan = if cmd_o {
            picked
        } else {
            self.pending_scan.take()
        };
        match scan {
            Some(path) => Command::Scan(path),
            None => if refresh {
                Command::Refresh
            } else {
                Command::Nothing
            },
        }
    }
}

/// What to select after the node at `deleted_path` was deleted.
pub fn next_selection_after_delete(root: &FileNode, deleted_path: &[usize]) -> (r: Option<
    TreePath,
>)
    ensures
        opt_path(r) == next_selection(root@, deleted_path@),
{
    let n = deleted_path.len();
    if n == 0 {
        return None;
    }
    let mut parent_path = prefix_of(deleted_path, n - 1);
    assert(parent_path@ =~= deleted_path@.drop_last());
    let child_count = match root.resolve_path(parent_path.as_slice()) {
        Some(parent) => parent.children.len(),
        None => {
            return None;
        },
    };
    let deleted_idx = deleted_path[n - 1];
    if child_count == 0 {
        if parent_path.len() == 0 {
            None
        } else {
            Some(parent_path)
        }
    } else if deleted_idx < child_count {
        Some(copy_path(deleted_path))
    } else {
        parent_path.push(child_count - 1);
        Some(parent_path)
    }
}

} // verus!
