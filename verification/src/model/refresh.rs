//! The decisions of a refresh: which nodes of a tree are still there, and what
//! they have become.
//!
//! A refresh looks at one directory after another. For each, [`RefreshDir`] goes
//! through the children that the tree has, with the entries that the directory
//! has now. It hands out each folder that is to be refreshed in turn, and takes it
//! back. Reading directories is left to the caller.

use rustc_hash::FxHashMap;
use vstd::prelude::*;

use crate::hashed::{index_contents, index_get, index_insert, index_new};
use crate::model::node::{nodes_of, FileNode, Node};
use crate::model::scan::{
    add_capped, add_sizes, entry_views, lemma_ranked_nodes, lemma_sum_take, DirEntry, EntryView,
};
use crate::model::totals::{
    all_consistent, all_ordered, capped, consistent, consistent_totals_are_sums,
    lemma_all_consistent, lemma_all_ordered, lemma_sums, lemma_total_permuted, ordered, sum_dirs,
    sum_files, sum_sizes, Measure,
};
use crate::path::{is_excluded, is_excluded_path, join, joined};
use crate::ranking::{lemma_multiset_member, rank_descending};

verus! {

broadcast use crate::model::node::group_nodes;

/// The last entry that has a name.
pub open spec fn last_named(entries: Seq<EntryView>, name: Seq<char>) -> Option<EntryView>
    decreases entries.len(),
{
    if entries.len() == 0 {
        None
    } else if entries.last().name == name {
        Some(entries.last())
    } else {
        last_named(entries.drop_last(), name)
    }
}

/// What becomes of a child.
pub enum Fate {
    /// It is gone, was replaced by something of the other kind, or is excluded.
    Dropped,
    /// It is a file of this size now.
    Resized(u64),
    /// It is a folder to go into.
    Entered,
}

pub open spec fn fate(
    c: Node,
    entries: Seq<EntryView>,
    path: Seq<char>,
    excluded: Seq<String>,
) -> Fate {
    match last_named(entries, c.name) {
        None => Fate::Dropped,
        Some(e) => if e.is_dir != c.is_dir {
            Fate::Dropped
        } else if !c.is_dir {
            Fate::Resized(e.file_size)
        } else if is_excluded_path(joined(path, c.name), excluded) {
            Fate::Dropped
        } else {
            Fate::Entered
        },
    }
}

/// A directory under refresh: its entries now, the children still to go
/// through, those that stay, and whether the refresh was stopped.
#[verifier::ext_equal]
pub struct RefreshState {
    pub entries: Seq<EntryView>,
    pub todo: Seq<Node>,
    pub kept: Seq<Node>,
    pub stopped: bool,
}

/// What one step came to.
pub enum RefreshStep {
    /// There is no child left.
    Done,
    /// The refresh was stopped: the child stays as it was.
    Carried,
    /// The child was dropped.
    Dropped,
    /// The child is a file. It stays, with the size it has now.
    FileSeen,
    /// The child is a folder, at this path. It stays, and is to be handed back
    /// after it was refreshed, or as it is if it cannot be read.
    Enter(FileNode, String),
}

/// The state after one step.
pub open spec fn stepped(
    st: RefreshState,
    stop: bool,
    path: Seq<char>,
    excluded: Seq<String>,
) -> RefreshState {
    if st.todo.len() == 0 {
        st
    } else {
        let c = st.todo[0];
        let rest = st.todo.drop_first();
        if st.stopped || stop {
            RefreshState { todo: rest, kept: st.kept.push(c), stopped: true, ..st }
        } else {
            match fate(c, st.entries, path, excluded) {
                Fate::Dropped => RefreshState { todo: rest, ..st },
                Fate::Resized(size) => RefreshState {
                    todo: rest,
                    kept: st.kept.push(Node { size, ..c }),
                    ..st
                },
                Fate::Entered => RefreshState { todo: rest, ..st },
            }
        }
    }
}

/// Whether a step reports what it came to.
pub open spec fn step_says(
    r: RefreshStep,
    st: RefreshState,
    stop: bool,
    path: Seq<char>,
    excluded: Seq<String>,
) -> bool {
    if st.todo.len() == 0 {
        r is Done
    } else if st.stopped || stop {
        r is Carried
    } else {
        let c = st.todo[0];
        match fate(c, st.entries, path, excluded) {
            Fate::Dropped => r is Dropped,
            Fate::Resized(_) => r is FileSeen,
            Fate::Entered => r matches RefreshStep::Enter(n, p) && n@ == c && p@ == joined(
                path,
                c.name,
            ),
        }
    }
}

/// A whole run, where the step on the child after `i` others is asked to stop if
/// `stops(i)`, and a folder that is handed out there comes back as `back(i)`.
pub open spec fn run(
    st: RefreshState,
    i: nat,
    stops: spec_fn(nat) -> bool,
    back: spec_fn(nat) -> Node,
    path: Seq<char>,
    excluded: Seq<String>,
) -> RefreshState
    decreases st.todo.len(),
{
    if st.todo.len() == 0 {
        st
    } else {
        let next = stepped(st, stops(i), path, excluded);
        let entered = !(st.stopped || stops(i)) && fate(
            st.todo[0],
            st.entries,
            path,
            excluded,
        ) is Entered;
        let resumed = if entered {
            RefreshState { kept: next.kept.push(back(i)), ..next }
        } else {
            next
        };
        run(resumed, i + 1, stops, back, path, excluded)
    }
}

/// The children that stay, as they are now, in their order. The first of them is the one
/// after `i` others.
pub open spec fn survivors(
    todo: Seq<Node>,
    i: nat,
    entries: Seq<EntryView>,
    back: spec_fn(nat) -> Node,
    path: Seq<char>,
    excluded: Seq<String>,
) -> Seq<Node>
    decreases todo.len(),
{
    if todo.len() == 0 {
        Seq::empty()
    } else {
        let c = todo[0];
        let rest = survivors(todo.drop_first(), i + 1, entries, back, path, excluded);
        match fate(c, entries, path, excluded) {
            Fate::Dropped => rest,
            Fate::Resized(size) => seq![Node { size, ..c }] + rest,
            Fate::Entered => seq![back(i)] + rest,
        }
    }
}

/// A refresh that is not stopped keeps exactly the children that are still
/// there, in the state they are in now.
pub proof fn refresh_keeps_the_survivors(
    st: RefreshState,
    i: nat,
    stops: spec_fn(nat) -> bool,
    back: spec_fn(nat) -> Node,
    path: Seq<char>,
    excluded: Seq<String>,
)
    requires
        !st.stopped,
        forall|j: nat| i <= j < i + st.todo.len() ==> !(#[trigger] stops(j)),
    ensures
        run(st, i, stops, back, path, excluded).kept == st.kept + survivors(
            st.todo,
            i,
            st.entries,
            back,
            path,
            excluded,
        ),
    decreases st.todo.len(),
{
    if st.todo.len() == 0 {
        assert(st.kept + Seq::empty() =~= st.kept);
    } else {
        assert(!stops(i));
        let next = stepped(st, stops(i), path, excluded);
        let c = st.todo[0];
        let rest = survivors(st.todo.drop_first(), i + 1, st.entries, back, path, excluded);
        let resumed = match fate(c, st.entries, path, excluded) {
            Fate::Entered => RefreshState { kept: next.kept.push(back(i)), ..next },
            _ => next,
        };
        refresh_keeps_the_survivors(resumed, i + 1, stops, back, path, excluded);
        assert(resumed.kept + rest =~= st.kept + survivors(
            st.todo,
            i,
            st.entries,
            back,
            path,
            excluded,
        ));
    }
}

/// A refresh that is stopped before the child after `k` others keeps what is still
/// there of the children before it, and all the others unchanged.
pub proof fn stopped_refresh_keeps_the_rest(
    st: RefreshState,
    i: nat,
    k: nat,
    stops: spec_fn(nat) -> bool,
    back: spec_fn(nat) -> Node,
    path: Seq<char>,
    excluded: Seq<String>,
)
    requires
        !st.stopped,
        k <= st.todo.len(),
        forall|j: nat| i <= j < i + k ==> !(#[trigger] stops(j)),
        k < st.todo.len() ==> stops(i + k),
    ensures
        run(st, i, stops, back, path, excluded).kept == st.kept + survivors(
            st.todo.take(k as int),
            i,
            st.entries,
            back,
            path,
            excluded,
        ) + st.todo.skip(k as int),
    decreases st.todo.len(),
{
    let first = st.todo.take(k as int);
    let gone = survivors(first, i, st.entries, back, path, excluded);
    if st.todo.len() == 0 {
        assert(st.kept + gone + st.todo.skip(k as int) =~= st.kept);
    } else if k == 0 {
        let next = stepped(st, stops(i), path, excluded);
        lemma_stopped_run(next, i + 1, stops, back, path, excluded);
        assert(next.kept + next.todo =~= st.kept + gone + st.todo.skip(0));
    } else {
        assert(!stops(i));
        let next = stepped(st, stops(i), path, excluded);
        let c = st.todo[0];
        let resumed = match fate(c, st.entries, path, excluded) {
            Fate::Entered => RefreshState { kept: next.kept.push(back(i)), ..next },
            _ => next,
        };
        stopped_refresh_keeps_the_rest(
            resumed,
            i + 1,
            (k - 1) as nat,
            stops,
            back,
            path,
            excluded,
        );
        assert(first[0] == c);
        assert(first.drop_first() =~= resumed.todo.take(k - 1));
        let rest = survivors(
            resumed.todo.take(k - 1),
            i + 1,
            st.entries,
            back,
            path,
            excluded,
        );
        assert(resumed.kept + rest + resumed.todo.skip(k - 1) =~= st.kept + gone + st.todo.skip(
            k as int,
        ));
    }
}

proof fn lemma_stopped_run(
    st: RefreshState,
    i: nat,
    stops: spec_fn(nat) -> bool,
    back: spec_fn(nat) -> Node,
    path: Seq<char>,
    excluded: Seq<String>,
)
    requires
        st.stopped,
    ensures
        run(st, i, stops, back, path, excluded).kept == st.kept + st.todo,
    decreases st.todo.len(),
{
    if st.todo.len() == 0 {
        assert(st.kept + st.todo =~= st.kept);
    } else {
        let next = stepped(st, stops(i), path, excluded);
        lemma_stopped_run(next, i + 1, stops, back, path, excluded);
        assert(next.kept + next.todo =~= st.kept + st.todo);
    }
}

/// Whether `after` is the directory `before` with the children `kept`: it has
/// their totals, and them in descending order of size.
pub open spec fn is_refreshed(after: Node, before: Node, kept: Seq<Node>) -> bool {
    &&& after.name == before.name
    &&& after.is_dir == before.is_dir
    &&& after.size == sum_sizes(kept)
    &&& after.file_count == capped(sum_files(kept))
    &&& after.dir_count == capped(1 + sum_dirs(kept))
    &&& after.children.to_multiset() == kept.to_multiset()
    &&& forall|i: int, j: int|
        0 <= i <= j < after.children.len() ==> (#[trigger] after.children[i]).size >= (
        #[trigger] after.children[j]).size
}

/// A directory whose children have right totals has right totals after the
/// refresh, and if they are in order it is.
pub proof fn refreshed_directory_is_right(after: Node, before: Node, kept: Seq<Node>)
    requires
        is_refreshed(after, before, kept),
        before.is_dir,
        all_consistent(kept),
    ensures
        consistent(after),
        all_ordered(kept) ==> ordered(after),
{
    lemma_sums(kept);
    lemma_total_permuted(after.children, kept, Measure::Bytes);
    lemma_total_permuted(after.children, kept, Measure::Files);
    lemma_total_permuted(after.children, kept, Measure::Dirs);
    lemma_all_consistent(kept);
    assert forall|i: int| 0 <= i < after.children.len() implies consistent(
        #[trigger] after.children[i],
    ) by {
        lemma_multiset_member(after.children, kept, i);
        let j = choose|j: int| 0 <= j < kept.len() && kept[j] == after.children[i];
        assert(consistent(kept[j]));
    }
    lemma_all_consistent(after.children);
    if all_ordered(kept) {
        lemma_all_ordered(kept);
        assert forall|i: int| 0 <= i < after.children.len() implies ordered(
            #[trigger] after.children[i],
        ) by {
            lemma_multiset_member(after.children, kept, i);
            let j = choose|j: int| 0 <= j < kept.len() && kept[j] == after.children[i];
            assert(ordered(kept[j]));
        }
        lemma_all_ordered(after.children);
    }
}

/// Where every child is still there as the tree has it, all of them stay as they are.
pub proof fn unchanged_children_stay(
    todo: Seq<Node>,
    i: nat,
    entries: Seq<EntryView>,
    back: spec_fn(nat) -> Node,
    path: Seq<char>,
    excluded: Seq<String>,
)
    requires
        forall|k: int|
            0 <= k < todo.len() ==> match fate(#[trigger] todo[k], entries, path, excluded) {
                Fate::Dropped => false,
                Fate::Resized(size) => size == todo[k].size,
                Fate::Entered => back((i + k) as nat) == todo[k],
            },
    ensures
        survivors(todo, i, entries, back, path, excluded) == todo,
    decreases todo.len(),
{
    if todo.len() > 0 {
        let rest = todo.drop_first();
        assert forall|k: int| 0 <= k < rest.len() implies match fate(
            #[trigger] rest[k],
            entries,
            path,
            excluded,
        ) {
            Fate::Dropped => false,
            Fate::Resized(size) => size == rest[k].size,
            Fate::Entered => back((i + 1 + k) as nat) == rest[k],
        } by {
            assert(rest[k] == todo[k + 1]);
        }
        unchanged_children_stay(rest, i + 1, entries, back, path, excluded);
        let c = todo[0];
        assert(survivors(todo, i, entries, back, path, excluded) =~= seq![c] + rest);
        assert(seq![c] + rest =~= todo);
    }
}

/// A directory with right totals whose children all stay as they are keeps its
/// totals.
pub proof fn unchanged_directory_keeps_its_totals(after: Node, before: Node)
    requires
        consistent(before),
        before.is_dir,
        is_refreshed(after, before, before.children),
    ensures
        after.size == before.size,
        after.file_count == before.file_count,
        after.dir_count == before.dir_count,
{
    consistent_totals_are_sums(before);
}

/// A directory under refresh.
pub struct RefreshDir {
    index: FxHashMap<String, usize>,
    entries: Vec<DirEntry>,
    /// The children still to go through, the next one last.
    todo: Vec<FileNode>,
    kept: Vec<FileNode>,
    stopped: bool,
}

impl View for RefreshDir {
    type V = RefreshState;

    closed spec fn view(&self) -> RefreshState {
        RefreshState {
            entries: entry_views(self.entries@),
            todo: nodes_of(self.todo@).reverse(),
            kept: nodes_of(self.kept@),
            stopped: self.stopped,
        }
    }
}

/// Whether the index finds the last entry of every name.
spec fn indexes(index: Map<Seq<char>, usize>, entries: Seq<EntryView>) -> bool {
    forall|k: Seq<char>| #[trigger]
        index.contains_key(k) ==> index[k] < entries.len() && last_named(entries, k) == Some(
            entries[index[k] as int],
        )
}

spec fn indexes_all(index: Map<Seq<char>, usize>, entries: Seq<EntryView>) -> bool {
    forall|k: Seq<char>| !(#[trigger] index.contains_key(k)) ==> last_named(entries, k) is None
}

impl FileNode {
    /// Whether there is something to refresh in a directory.
    pub fn needs_refresh(&self, cancelled: bool) -> (r: bool)
        ensures
            r == (!cancelled && self@.children.len() > 0),
    {
        !cancelled && self.children.len() > 0
    }
}

impl RefreshDir {
    pub closed spec fn wf(self) -> bool {
        &&& indexes(index_contents(self.index), entry_views(self.entries@))
        &&& indexes_all(index_contents(self.index), entry_views(self.entries@))
    }

    /// Begins with the children of a directory and the entries that it has now.
    /// The node is left without children until `finish` gives it those that stay.
    pub fn begin(node: &mut FileNode, entries: Vec<DirEntry>) -> (r: RefreshDir)
        ensures
            r.wf(),
            r@ == (RefreshState {
                entries: entry_views(entries@),
                todo: old(node)@.children,
                kept: Seq::empty(),
                stopped: false,
            }),
            final(node)@ == (Node { children: Seq::empty(), ..old(node)@ }),
    {
        let ghost views = entry_views(entries@);
        let mut index = index_new();
        assert(views.take(0) =~= Seq::empty());
        for i in 0..entries.len()
            invariant
                views == entry_views(entries@),
                indexes(index_contents(index), views.take(i as int)),
                indexes_all(index_contents(index), views.take(i as int)),
        {
            let ghost before = index_contents(index);
            let ghost now = views.take(i + 1);
            let ghost name = entries@[i as int].name@;
            index_insert(&mut index, entries[i].name.clone(), i);
            proof {
                assert(now.drop_last() =~= views.take(i as int));
                assert(now.last().name == name);
                assert forall|k: Seq<char>| #[trigger]
                    index_contents(index).contains_key(k) implies index_contents(index)[k]
                    < now.len() && last_named(now, k) == Some(
                    now[index_contents(index)[k] as int],
                ) by {
                    if k != name {
                        assert(before.contains_key(k));
                        assert(now[before[k] as int] == views.take(i as int)[before[k] as int]);
                    }
                }
                assert forall|k: Seq<char>| !(#[trigger] index_contents(index).contains_key(
                    k,
                )) implies last_named(now, k) is None by {
                    assert(!before.contains_key(k));
                }
            }
        }
        assert(views.take(views.len() as int) =~= views);
        let ghost all = node.children@;
        let mut children: Vec<FileNode> = Vec::new();
        std::mem::swap(&mut children, &mut node.children);
        let mut todo: Vec<FileNode> = Vec::new();
        while children.len() > 0
            invariant
                children@ == all.take(all.len() - todo@.len()),
                todo@.len() + children@.len() == all.len(),
                forall|j: int| 0 <= j < todo@.len() ==> todo@[j] == all[all.len() - 1 - j],
            decreases children@.len(),
        {
            match children.pop() {
                Some(c) => {
                    todo.push(c);
                },
                None => {},
            }
        }
        assert(nodes_of(todo@).reverse() =~= nodes_of(all));
        assert(nodes_of(node.children@) =~= Seq::empty());
        let kept: Vec<FileNode> = Vec::new();
        assert(nodes_of(kept@) =~= Seq::empty());
        RefreshDir { index, entries, todo, kept, stopped: false }
    }

    /// Goes on to the next child of the directory at `path`. `stop` says whether
    /// the refresh is to stop; once it was stopped it stays so.
    pub fn step(&mut self, stop: bool, path: &str, excluded: &[String]) -> (r: RefreshStep)
        requires
            old(self).wf(),
        ensures
            final(self).wf(),
            final(self)@ == stepped(old(self)@, stop, path@, excluded@),
            step_says(r, old(self)@, stop, path@, excluded@),
    {
        let ghost todo0 = self.todo@;
        let ghost kept0 = self.kept@;
        match self.todo.pop() {
            None => RefreshStep::Done,
            Some(child) => {
                proof {
                    assert(nodes_of(todo0).reverse()[0] == child@);
                    assert(nodes_of(self.todo@).reverse() =~= nodes_of(
                        todo0,
                    ).reverse().drop_first());
                }
                if self.stopped || stop {
                    self.stopped = true;
                    self.kept.push(child);
                    assert(nodes_of(self.kept@) =~= nodes_of(kept0).push(child@));
                    return RefreshStep::Carried;
                }
                let at = match index_get(&self.index, child.name.as_str()) {
                    Some(at) => at,
                    None => {
                        assert(!index_contents(self.index).contains_key(child@.name));
                        return RefreshStep::Dropped;
                    },
                };
                assert(index_contents(self.index).contains_key(child@.name));
                let is_dir = self.entries[at].is_dir;
                let file_size = self.entries[at].file_size;
                if is_dir != child.is_dir {
                    return RefreshStep::Dropped;
                }
                if child.is_dir {
                    let child_path = join(path, child.name.as_str());
                    if is_excluded(child_path.as_str(), excluded) {
                        return RefreshStep::Dropped;
                    }
                    RefreshStep::Enter(child, child_path)
                } else {
                    let ghost c = child@;
                    let mut child = child;
                    child.size = file_size;
                    assert(child@ == (Node { size: file_size, ..c }));
                    self.kept.push(child);
                    assert(nodes_of(self.kept@) =~= nodes_of(kept0).push(child@));
                    RefreshStep::FileSeen
                }
            },
        }
    }

    /// Takes back a folder that a step handed out.
    pub fn resume(&mut self, child: FileNode)
        requires
            old(self).wf(),
        ensures
            final(self).wf(),
            final(self)@ == (RefreshState {
                kept: old(self)@.kept.push(child@),
                ..old(self)@
            }),
    {
        let ghost kept0 = self.kept@;
        self.kept.push(child);
        assert(nodes_of(self.kept@) =~= nodes_of(kept0).push(child@));
    }

    /// Whether the sizes of the children that stay can be added up.
    pub fn fits(&self) -> (r: bool)
        ensures
            r == (sum_sizes(self@.kept) <= u64::MAX),
    {
        add_sizes(&self.kept, 0).is_some()
    }

    /// Gives the directory the children that stay, larger ones first, and the
    /// totals that they add up to.
    pub fn finish(self, node: &mut FileNode)
        requires
            sum_sizes(self@.kept) <= u64::MAX,
        ensures
            is_refreshed(final(node)@, old(node)@, self@.kept),
    {
        let ghost s = nodes_of(self.kept@);
        let mut size: u64 = 0;
        let mut file_count: u32 = 0;
        let mut dir_count: u32 = 0;
        assert(s.take(0) =~= Seq::empty());
        for i in 0..self.kept.len()
            invariant
                s == nodes_of(self.kept@),
                sum_sizes(s) <= u64::MAX,
                size == sum_sizes(s.take(i as int)),
                file_count == capped(sum_files(s.take(i as int))),
                dir_count == capped(sum_dirs(s.take(i as int))),
        {
            proof {
                lemma_sum_take(s, i as int);
            }
            size = size + self.kept[i].size;
            file_count = add_capped(file_count, self.kept[i].file_count);
            dir_count = add_capped(dir_count, self.kept[i].dir_count);
        }
        assert(s.take(s.len() as int) =~= s);
        let ghost kept = self.kept@;
        let ranked = rank_descending(self.kept);
        proof {
            lemma_ranked_nodes(ranked@, kept);
        }
        node.children = ranked;
        node.size = size;
        node.file_count = file_count;
        node.dir_count = add_capped(dir_count, 1);
    }
}

} // verus!
