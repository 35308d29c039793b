//! The decisions of a scan: which entries of a directory count, which folders to
//! go into, and what a directory adds up to.
//!
//! Reading directories is left to the caller. For each directory it hands the
//! entries to [`ScanCtx::take_entries`], goes into the folders that come back
//! and that [`ScanCtx::enter_dir`] admits, and puts the results together
//! with [`assemble_dir`].

use rustc_hash::FxHashSet;
use vstd::prelude::*;
use vstd::seq_lib::*;

use crate::hashed::{seen_contents, seen_insert, seen_new};
use crate::model::extensions::{lists_table, ExtTable};
use crate::model::node::{nodes_of, FileNode, Node};
use crate::model::totals::{
    all_consistent, all_ordered, capped, consistent, lemma_all_consistent, lemma_all_ordered,
    lemma_sums, lemma_sums_permuted, lemma_total_concat, lemma_total_permuted, ordered, sum_dirs,
    sum_files, sum_sizes, total, total_all, Measure,
};
use crate::model::tree::FileTree;
use crate::path::{is_excluded, is_excluded_path, join, joined, lemma_filter_step};
use crate::ranking::{
    lemma_map_multiset, lemma_multiset_len, lemma_multiset_member, rank_descending, ranking_of,
    Ranked,
};
use crate::settings::opt_text;

verus! {

broadcast use crate::model::node::group_nodes;

/// One entry of a directory, as it was read.
pub struct DirEntry {
    pub name: String,
    pub is_dir: bool,
    pub file_size: u64,
    pub devid: u32,
    pub fileid: u64,
}

pub struct EntryView {
    pub name: Seq<char>,
    pub is_dir: bool,
    pub file_size: u64,
    pub devid: u32,
    pub fileid: u64,
}

impl View for DirEntry {
    type V = EntryView;

    open spec fn view(&self) -> EntryView {
        EntryView {
            name: self.name@,
            is_dir: self.is_dir,
            file_size: self.file_size,
            devid: self.devid,
            fileid: self.fileid,
        }
    }
}

pub open spec fn entry_views(v: Seq<DirEntry>) -> Seq<EntryView> {
    v.map_values(|e: DirEntry| e@)
}

/// Options and state of a scan.
pub struct ScanCtx {
    skip_duplicates: bool,
    /// Files strictly smaller than this byte count are ignored (0 = disabled).
    min_file_size_bytes: u64,
    /// (devid, ino) of every directory opened so far.
    seen_dirs: FxHashSet<(u32, u64)>,
    /// (devid, fileid) of every regular file counted so far.
    seen_files: FxHashSet<(u32, u64)>,
    /// Count of directories that could not be opened.
    denied: u64,
    /// Set once any directory was skipped because it was excluded.
    excluded_hit: bool,
}

pub struct ScanState {
    pub skip_duplicates: bool,
    pub min_file_size_bytes: u64,
    pub seen_dirs: Set<(u32, u64)>,
    pub seen_files: Set<(u32, u64)>,
    pub denied: u64,
    pub excluded_hit: bool,
}

impl View for ScanCtx {
    type V = ScanState;

    closed spec fn view(&self) -> ScanState {
        ScanState {
            skip_duplicates: self.skip_duplicates,
            min_file_size_bytes: self.min_file_size_bytes,
            seen_dirs: seen_contents(self.seen_dirs),
            seen_files: seen_contents(self.seen_files),
            denied: self.denied,
            excluded_hit: self.excluded_hit,
        }
    }
}

/// Whether a file falls under the size floor.
pub open spec fn below_floor(e: EntryView, st: ScanState) -> bool {
    st.min_file_size_bytes > 0 && e.file_size < st.min_file_size_bytes
}

/// Whether a file is counted once only: duplicates are skipped, and it says which
/// file it is.
pub open spec fn identified(e: EntryView, st: ScanState) -> bool {
    st.skip_duplicates && e.fileid != 0
}

/// The files seen after the entries were taken.
pub open spec fn seen_after(entries: Seq<EntryView>, st: ScanState) -> Set<(u32, u64)>
    decreases entries.len(),
{
    if entries.len() == 0 {
        st.seen_files
    } else {
        let e = entries.last();
        let before = seen_after(entries.drop_last(), st);
        if !e.is_dir && !below_floor(e, st) && identified(e, st) {
            before.insert((e.devid, e.fileid))
        } else {
            before
        }
    }
}

/// The files that count: those above the floor that were not seen before, in
/// their order.
pub open spec fn counted_files(entries: Seq<EntryView>, st: ScanState) -> Seq<EntryView>
    decreases entries.len(),
{
    if entries.len() == 0 {
        Seq::empty()
    } else {
        let e = entries.last();
        let before = counted_files(entries.drop_last(), st);
        let seen = seen_after(entries.drop_last(), st);
        if !e.is_dir && !below_floor(e, st) && !(identified(e, st) && seen.contains(
            (e.devid, e.fileid),
        )) {
            before.push(e)
        } else {
            before
        }
    }
}

/// Whether a folder is excluded. Without a known parent nothing is.
pub open spec fn folder_excluded(
    e: EntryView,
    parent: Option<Seq<char>>,
    excluded: Seq<String>,
) -> bool {
    parent is Some && is_excluded_path(joined(parent->0, e.name), excluded)
}

/// The folders that are not excluded, in their order.
pub open spec fn open_folders(
    entries: Seq<EntryView>,
    parent: Option<Seq<char>>,
    excluded: Seq<String>,
) -> Seq<EntryView> {
    entries.filter(|e: EntryView| e.is_dir && !folder_excluded(e, parent, excluded))
}

/// Whether one of the entries is an excluded folder.
pub open spec fn any_excluded(
    entries: Seq<EntryView>,
    parent: Option<Seq<char>>,
    excluded: Seq<String>,
) -> bool {
    exists|i: int|
        0 <= i < entries.len() && (#[trigger] entries[i]).is_dir && folder_excluded(
            entries[i],
            parent,
            excluded,
        )
}

/// The node of a file.
pub open spec fn file_node(e: EntryView) -> Node {
    Node {
        name: e.name,
        children: Seq::empty(),
        size: e.file_size,
        file_count: 1,
        dir_count: 0,
        is_dir: false,
    }
}

/// Whether `n` is the directory that its files and folders add up to: it has
/// their bytes, their files, one directory more than they have, and them as its
/// children, larger ones first.
pub open spec fn is_assembled(
    n: Node,
    name: Seq<char>,
    files: Seq<Node>,
    dirs: Seq<Node>,
) -> bool {
    &&& n.name == name
    &&& n.is_dir
    &&& n.size == sum_sizes(files) + sum_sizes(dirs)
    &&& n.file_count == capped(files.len() + sum_files(dirs))
    &&& n.dir_count == capped(1 + sum_dirs(dirs))
    &&& n.children.to_multiset() == (files + dirs).to_multiset()
    &&& forall|i: int, j: int|
        0 <= i <= j < n.children.len() ==> (#[trigger] n.children[i]).size >= (
        #[trigger] n.children[j]).size
}

/// Whether a directory that the scan came to has its place in the tree: unless it is
/// known to have been seen, when duplicates are skipped.
pub open spec fn is_admitted(
    st: ScanState,
    opened: bool,
    identity: Option<(u32, u64)>,
) -> bool {
    opened && identity is Some && st.skip_duplicates ==> !st.seen_dirs.contains(identity->0)
}

/// The state after the scan came to a directory.
pub open spec fn dir_entered(
    st: ScanState,
    opened: bool,
    identity: Option<(u32, u64)>,
) -> ScanState {
    if !opened {
        ScanState {
            denied: if st.denied == u64::MAX {
                0
            } else {
                (st.denied + 1) as u64
            },
            ..st
        }
    } else if identity is Some && st.skip_duplicates {
        ScanState { seen_dirs: st.seen_dirs.insert(identity->0), ..st }
    } else {
        st
    }
}

/// Whether the totals of a scan are lower bounds: it had a size floor, skipped an
/// excluded folder, or could not open a folder.
pub open spec fn leaves_out(st: ScanState) -> bool {
    st.min_file_size_bytes > 0 || st.excluded_hit || st.denied > 0
}

/// A directory that is put together from parts with right totals has right
/// totals, and if its parts are in order it is.
pub proof fn assembled_directory_is_right(
    n: Node,
    name: Seq<char>,
    files: Seq<Node>,
    dirs: Seq<Node>,
)
    requires
        is_assembled(n, name, files, dirs),
        all_consistent(files),
        all_consistent(dirs),
        forall|i: int| 0 <= i < files.len() ==> !(#[trigger] files[i]).is_dir,
    ensures
        consistent(n),
        all_ordered(files) && all_ordered(dirs) ==> ordered(n),
{
    let all = files + dirs;
    lemma_sums(files);
    lemma_sums(dirs);
    lemma_plain_files(files);
    lemma_total_permuted(n.children, all, Measure::Bytes);
    lemma_total_permuted(n.children, all, Measure::Files);
    lemma_total_permuted(n.children, all, Measure::Dirs);
    lemma_total_concat(files, dirs, Measure::Bytes);
    lemma_total_concat(files, dirs, Measure::Files);
    lemma_total_concat(files, dirs, Measure::Dirs);
    lemma_all_consistent(files);
    lemma_all_consistent(dirs);
    assert forall|i: int| 0 <= i < n.children.len() implies consistent(
        #[trigger] n.children[i],
    ) by {
        lemma_multiset_member(n.children, all, i);
        let j = choose|j: int| 0 <= j < all.len() && all[j] == n.children[i];
        if j >= files.len() {
            assert(all[j] == dirs[j - files.len()]);
        }
    }
    lemma_all_consistent(n.children);
    if all_ordered(files) && all_ordered(dirs) {
        lemma_all_ordered(files);
        lemma_all_ordered(dirs);
        assert forall|i: int| 0 <= i < n.children.len() implies ordered(
            #[trigger] n.children[i],
        ) by {
            lemma_multiset_member(n.children, all, i);
            let j = choose|j: int| 0 <= j < all.len() && all[j] == n.children[i];
            if j >= files.len() {
                assert(all[j] == dirs[j - files.len()]);
            }
        }
        lemma_all_ordered(n.children);
    }
}

/// A directory none of whose folders was gone into, as after the scan was stopped, has
/// its own files alone, and is the one directory that it counts.
pub proof fn directory_without_folders_has_its_own_files(
    n: Node,
    name: Seq<char>,
    files: Seq<Node>,
)
    requires
        is_assembled(n, name, files, Seq::empty()),
    ensures
        n.size == sum_sizes(files),
        n.file_count == capped(files.len()),
        n.dir_count == 1,
        n.children.to_multiset() == files.to_multiset(),
{
    assert(files + Seq::<Node>::empty() =~= files);
    assert(sum_sizes(Seq::<Node>::empty()) == 0);
    assert(sum_files(Seq::<Node>::empty()) == 0);
    assert(sum_dirs(Seq::<Node>::empty()) == 0);
}

/// What a directory adds up to is what its files and its folders add up to, and
/// itself where directories are counted. So what a scan has counted file by file
/// is what the tree holds.
pub proof fn assembled_totals_add_up(
    n: Node,
    name: Seq<char>,
    files: Seq<Node>,
    dirs: Seq<Node>,
    m: Measure,
)
    requires
        is_assembled(n, name, files, dirs),
    ensures
        total(n, m) == total_all(files, m) + total_all(dirs, m) + (if m is Dirs {
            1nat
        } else {
            0
        }),
{
    lemma_total_permuted(n.children, files + dirs, m);
    lemma_total_concat(files, dirs, m);
}

/// It does not matter in which order the parts of a directory were found: what it adds up
/// to, and what it holds, is the same.
pub proof fn assembled_totals_ignore_the_order(
    a: Node,
    b: Node,
    name: Seq<char>,
    files: Seq<Node>,
    dirs: Seq<Node>,
    other_files: Seq<Node>,
    other_dirs: Seq<Node>,
)
    requires
        is_assembled(a, name, files, dirs),
        is_assembled(b, name, other_files, other_dirs),
        files.to_multiset() == other_files.to_multiset(),
        dirs.to_multiset() == other_dirs.to_multiset(),
    ensures
        a.size == b.size,
        a.file_count == b.file_count,
        a.dir_count == b.dir_count,
        a.children.to_multiset() == b.children.to_multiset(),
{
    lemma_sums_permuted(files, other_files);
    lemma_sums_permuted(dirs, other_dirs);
    lemma_multiset_len(files, other_files);
    lemma_multiset_commutative(files, dirs);
    lemma_multiset_commutative(other_files, other_dirs);
}

proof fn lemma_plain_files(s: Seq<Node>)
    requires
        all_consistent(s),
        forall|i: int| 0 <= i < s.len() ==> !(#[trigger] s[i]).is_dir,
    ensures
        total_all(s, Measure::Files) == s.len(),
        total_all(s, Measure::Dirs) == 0,
    decreases s.len(),
{
    if s.len() > 0 {
        reveal_with_fuel(consistent, 2);
        let t = s.drop_last();
        assert forall|i: int| 0 <= i < t.len() implies !(#[trigger] t[i]).is_dir by {
            assert(t[i] == s[i]);
        }
        lemma_plain_files(t);
        let c = s.last();
        assert(consistent(c));
        assert(!s[s.len() - 1].is_dir);
        assert(c.children =~= Seq::empty());
        assert(total_all(c.children, Measure::Files) == 0);
        assert(total_all(c.children, Measure::Dirs) == 0);
    }
}

/// The node of a file has right totals.
pub proof fn file_node_is_right(e: EntryView)
    ensures
        consistent(file_node(e)),
        ordered(file_node(e)),
{
    let n = file_node(e);
    assert(total_all(n.children, Measure::Bytes) == 0);
    assert(total_all(n.children, Measure::Files) == 0);
    assert(total_all(n.children, Measure::Dirs) == 0);
}

/// A scan without a floor that keeps duplicates counts every file.
pub proof fn unfiltered_scan_counts_every_file(entries: Seq<EntryView>, st: ScanState)
    requires
        !st.skip_duplicates,
        st.min_file_size_bytes == 0,
    ensures
        counted_files(entries, st) == entries.filter(|e: EntryView| !e.is_dir),
    decreases entries.len(),
{
    reveal(Seq::filter);
    if entries.len() > 0 {
        unfiltered_scan_counts_every_file(entries.drop_last(), st);
    }
}

/// No file under the floor is counted.
pub proof fn no_file_below_floor_is_counted(entries: Seq<EntryView>, st: ScanState)
    ensures
        forall|i: int|
            0 <= i < counted_files(entries, st).len() ==> (#[trigger] counted_files(
                entries,
                st,
            )[i]).file_size >= st.min_file_size_bytes,
    decreases entries.len(),
{
    if entries.len() > 0 {
        no_file_below_floor_is_counted(entries.drop_last(), st);
        let c = counted_files(entries, st);
        let b = counted_files(entries.drop_last(), st);
        assert forall|i: int| 0 <= i < c.len() implies (#[trigger] c[i]).file_size
            >= st.min_file_size_bytes by {
            if i < b.len() {
                assert(c[i] == b[i]);
            }
        }
    }
}

/// When duplicates are skipped, a file is counted once: none that was seen
/// before is counted, and no two that are counted are the same.
pub proof fn duplicates_are_counted_once(entries: Seq<EntryView>, st: ScanState)
    requires
        st.skip_duplicates,
    ensures
        forall|i: int|
            0 <= i < counted_files(entries, st).len() && (#[trigger] counted_files(
                entries,
                st,
            )[i]).fileid != 0 ==> !st.seen_files.contains(
                (counted_files(entries, st)[i].devid, counted_files(entries, st)[i].fileid),
            ),
        forall|i: int, j: int|
            #![trigger counted_files(entries, st)[i], counted_files(entries, st)[j]]
            0 <= i < j < counted_files(entries, st).len() && counted_files(entries, st)[i].fileid
                != 0 ==> (
                counted_files(entries, st)[i].devid,
                counted_files(entries, st)[i].fileid,
            ) != (counted_files(entries, st)[j].devid, counted_files(entries, st)[j].fileid),
{
    lemma_counted_seen(entries, st);
}

proof fn lemma_counted_seen(entries: Seq<EntryView>, st: ScanState)
    requires
        st.skip_duplicates,
    ensures
        st.seen_files.subset_of(seen_after(entries, st)),
        forall|i: int|
            0 <= i < counted_files(entries, st).len() && (#[trigger] counted_files(
                entries,
                st,
            )[i]).fileid != 0 ==> seen_after(entries, st).contains(
                (counted_files(entries, st)[i].devid, counted_files(entries, st)[i].fileid),
            ) && !st.seen_files.contains(
                (counted_files(entries, st)[i].devid, counted_files(entries, st)[i].fileid),
            ),
        forall|i: int, j: int|
            #![trigger counted_files(entries, st)[i], counted_files(entries, st)[j]]
            0 <= i < j < counted_files(entries, st).len() && counted_files(entries, st)[i].fileid
                != 0 ==> (
                counted_files(entries, st)[i].devid,
                counted_files(entries, st)[i].fileid,
            ) != (counted_files(entries, st)[j].devid, counted_files(entries, st)[j].fileid),
    decreases entries.len(),
{
    if entries.len() > 0 {
        let rest = entries.drop_last();
        lemma_counted_seen(rest, st);
        let c = counted_files(entries, st);
        let b = counted_files(rest, st);
        assert forall|i: int| 0 <= i < c.len() && (#[trigger] c[i]).fileid != 0 implies seen_after(
            entries,
            st,
        ).contains((c[i].devid, c[i].fileid)) && !st.seen_files.contains(
            (c[i].devid, c[i].fileid),
        ) by {
            if i < b.len() {
                assert(c[i] == b[i]);
            }
        }
        assert forall|i: int, j: int|
            #![trigger c[i], c[j]]
            0 <= i < j < c.len() && c[i].fileid != 0 implies (c[i].devid, c[i].fileid) != (
            c[j].devid,
            c[j].fileid,
        ) by {
            assert(c[i] == b[i]);
            if j < b.len() {
                assert(c[j] == b[j]);
            }
        }
    }
}

/// When duplicates are skipped, a file that was counted in one directory is not
/// counted again in a later one.
pub proof fn duplicates_are_counted_once_over_directories(
    first: Seq<EntryView>,
    second: Seq<EntryView>,
    st: ScanState,
    later: ScanState,
    i: int,
    j: int,
)
    requires
        st.skip_duplicates,
        later.skip_duplicates,
        seen_after(first, st).subset_of(later.seen_files),
        0 <= i < counted_files(first, st).len(),
        0 <= j < counted_files(second, later).len(),
        counted_files(first, st)[i].fileid != 0,
    ensures
        (counted_files(first, st)[i].devid, counted_files(first, st)[i].fileid) != (
            counted_files(second, later)[j].devid,
            counted_files(second, later)[j].fileid,
        ),
{
    lemma_counted_seen(first, st);
    lemma_counted_seen(second, later);
}

/// What was seen before is still seen after more entries were taken.
pub proof fn seen_files_stay_seen(entries: Seq<EntryView>, st: ScanState)
    ensures
        st.seen_files.subset_of(seen_after(entries, st)),
    decreases entries.len(),
{
    if entries.len() > 0 {
        seen_files_stay_seen(entries.drop_last(), st);
    }
}

/// Whether the entry at `k` is a file that was seen before: earlier in the scan, or
/// earlier among the entries.
pub open spec fn is_duplicate(entries: Seq<EntryView>, st: ScanState, k: int) -> bool {
    let key = (entries[k].devid, entries[k].fileid);
    identified(entries[k], st) && (st.seen_files.contains(key) || exists|j: int|
        0 <= j < k && !(#[trigger] entries[j]).is_dir && (entries[j].devid, entries[j].fileid)
            == key)
}

/// Where a scan does not say that its sizes are lower bounds, it leaves out nothing but
/// duplicates: it goes into every folder, and counts every other file.
pub proof fn exact_scan_leaves_out_duplicates_only(
    entries: Seq<EntryView>,
    parent: Option<Seq<char>>,
    excluded: Seq<String>,
    st: ScanState,
)
    requires
        st.min_file_size_bytes == 0,
        !any_excluded(entries, parent, excluded),
    ensures
        open_folders(entries, parent, excluded) == entries.filter(|e: EntryView| e.is_dir),
        forall|k: int|
            0 <= k < entries.len() && !(#[trigger] entries[k]).is_dir && !is_duplicate(
                entries,
                st,
                k,
            ) ==> counted_files(entries, st).contains(entries[k]),
    decreases entries.len(),
{
    reveal(Seq::filter);
    if entries.len() > 0 {
        let rest = entries.drop_last();
        let last = entries.len() - 1;
        assert(!any_excluded(rest, parent, excluded)) by {
            if any_excluded(rest, parent, excluded) {
                let i = choose|i: int|
                    0 <= i < rest.len() && (#[trigger] rest[i]).is_dir && folder_excluded(
                        rest[i],
                        parent,
                        excluded,
                    );
                assert(entries[i] == rest[i]);
            }
        }
        exact_scan_leaves_out_duplicates_only(rest, parent, excluded, st);
        assert(entries[last] == entries.last());
        let before = counted_files(rest, st);
        let all = counted_files(entries, st);
        assert forall|k: int|
            0 <= k < entries.len() && !(#[trigger] entries[k]).is_dir && !is_duplicate(
                entries,
                st,
                k,
            ) implies all.contains(entries[k]) by {
            if k < last {
                assert(rest[k] == entries[k]);
                assert(!is_duplicate(rest, st, k)) by {
                    if is_duplicate(rest, st, k) && !st.seen_files.contains(
                        (rest[k].devid, rest[k].fileid),
                    ) {
                        let j = choose|j: int|
                            0 <= j < k && !(#[trigger] rest[j]).is_dir && (
                                rest[j].devid,
                                rest[j].fileid,
                            ) == (rest[k].devid, rest[k].fileid);
                        assert(entries[j] == rest[j]);
                    }
                }
                let m = choose|m: int| 0 <= m < before.len() && before[m] == rest[k];
                assert(all[m] == entries[k]);
            } else {
                seen_files_are_files_of_the_entries(
                    rest,
                    st,
                    (entries[k].devid, entries[k].fileid),
                );
                if identified(entries[k], st) && seen_after(rest, st).contains(
                    (entries[k].devid, entries[k].fileid),
                ) {
                    if !st.seen_files.contains((entries[k].devid, entries[k].fileid)) {
                        let j = choose|j: int|
                            0 <= j < rest.len() && !(#[trigger] rest[j]).is_dir && (
                                rest[j].devid,
                                rest[j].fileid,
                            ) == (entries[k].devid, entries[k].fileid);
                        assert(entries[j] == rest[j]);
                    }
                    assert(is_duplicate(entries, st, k));
                }
                assert(all == before.push(entries[k]));
                assert(all[before.len() as int] == entries[k]);
            }
        }
    }
}

/// What is seen after entries were taken was seen before, or is one of their files.
pub proof fn seen_files_are_files_of_the_entries(
    entries: Seq<EntryView>,
    st: ScanState,
    key: (u32, u64),
)
    ensures
        seen_after(entries, st).contains(key) ==> st.seen_files.contains(key) || exists|j: int|
            0 <= j < entries.len() && !(#[trigger] entries[j]).is_dir && (
                entries[j].devid,
                entries[j].fileid,
            ) == key,
    decreases entries.len(),
{
    if entries.len() > 0 && seen_after(entries, st).contains(key) {
        let rest = entries.drop_last();
        seen_files_are_files_of_the_entries(rest, st, key);
        let e = entries[entries.len() - 1];
        if seen_after(rest, st).contains(key) {
            if !st.seen_files.contains(key) {
                let j = choose|j: int|
                    0 <= j < rest.len() && !(#[trigger] rest[j]).is_dir && (
                        rest[j].devid,
                        rest[j].fileid,
                    ) == key;
                assert(entries[j] == rest[j]);
            }
        } else {
            assert((e.devid, e.fileid) == key);
        }
    }
}

impl ScanCtx {
    /// The state at the start of a scan.
    pub fn new(skip_duplicates: bool, min_file_size_bytes: u64) -> (r: ScanCtx)
        ensures
            r@ == (ScanState {
                skip_duplicates,
                min_file_size_bytes,
                seen_dirs: Set::empty(),
                seen_files: Set::empty(),
                denied: 0,
                excluded_hit: false,
            }),
    {
        ScanCtx {
            skip_duplicates,
            min_file_size_bytes,
            seen_dirs: seen_new(),
            seen_files: seen_new(),
            denied: 0,
            excluded_hit: false,
        }
    }

    /// Decides on a directory that the scan came to: whether it could be opened,
    /// and its (devid, ino) as far as it is known. One that could not be opened is
    /// counted and stays in the tree, with nothing in it. Returns `false` if the
    /// directory was already seen and is left out.
    pub fn enter_dir(&mut self, opened: bool, identity: Option<(u32, u64)>) -> (r: bool)
        ensures
            r == is_admitted(old(self)@, opened, identity),
            final(self)@ == dir_entered(old(self)@, opened, identity),
    {
        if !opened {
            self.denied = self.denied.wrapping_add(1);
            return true;
        }
        self.try_register_dir(identity)
    }

    /// Registers a directory by its (devid, ino), as far as it is known. Returns
    /// `false` if it was already seen.
    pub fn try_register_dir(&mut self, identity: Option<(u32, u64)>) -> (r: bool)
        ensures
            (match identity {
                Some(id) if old(self)@.skip_duplicates => {
                    &&& r == !old(self)@.seen_dirs.contains(id)
                    &&& final(self)@ == (ScanState {
                        seen_dirs: old(self)@.seen_dirs.insert(id),
                        ..old(self)@
                    })
                },
                _ => r && final(self)@ == old(self)@,
            }),
    {
        if !self.skip_duplicates {
            return true;
        }
        match identity {
            Some(id) => seen_insert(&mut self.seen_dirs, id),
            None => true,
        }
    }

    /// Registers a file by its (devid, fileid). Returns `false` if it was already
    /// seen. A file id of 0 says nothing.
    pub fn try_register_file(&mut self, devid: u32, fileid: u64) -> (r: bool)
        ensures
            if old(self)@.skip_duplicates && fileid != 0 {
                &&& r == !old(self)@.seen_files.contains((devid, fileid))
                &&& final(self)@ == (ScanState {
                    seen_files: old(self)@.seen_files.insert((devid, fileid)),
                    ..old(self)@
                })
            } else {
                r && final(self)@ == old(self)@
            },
    {
        if !self.skip_duplicates || fileid == 0 {
            return true;
        }
        seen_insert(&mut self.seen_files, (devid, fileid))
    }

    /// Takes the entries of the directory at `parent`. Returns the nodes of the
    /// files that count and the folders to go into.
    pub fn take_entries(
        &mut self,
        entries: Vec<DirEntry>,
        parent: Option<&str>,
        excluded: &[String],
    ) -> (r: (Vec<FileNode>, Vec<DirEntry>))
        ensures
            nodes_of(r.0@) == counted_files(entry_views(entries@), old(self)@).map_values(
                |e: EntryView| file_node(e),
            ),
            entry_views(r.1@) == open_folders(
                entry_views(entries@),
                opt_text(parent),
                excluded@,
            ),
            final(self)@ == (ScanState {
                seen_files: seen_after(entry_views(entries@), old(self)@),
                excluded_hit: old(self)@.excluded_hit || any_excluded(
                    entry_views(entries@),
                    opt_text(parent),
                    excluded@,
                ),
                ..old(self)@
            }),
    {
        let mut files: Vec<FileNode> = Vec::new();
        let mut dirs: Vec<DirEntry> = Vec::new();
        let ghost views = entry_views(entries@);
        let ghost st = self@;
        let ghost up = opt_text(parent);
        let ghost keep = |e: EntryView| e.is_dir && !folder_excluded(e, up, excluded@);
        let ghost to_node = |e: EntryView| file_node(e);
        proof {
            reveal(Seq::filter);
            assert(views.take(0) =~= Seq::empty());
            assert(nodes_of(files@) =~= counted_files(views.take(0), st).map_values(to_node));
            assert(entry_views(dirs@) =~= views.take(0).filter(keep));
        }
        for entry in it: entries
            invariant
                it.seq() == entries@,
                views == entry_views(entries@),
                st == old(self)@,
                up == opt_text(parent),
                keep == (|e: EntryView| e.is_dir && !folder_excluded(e, up, excluded@)),
                to_node == (|e: EntryView| file_node(e)),
                nodes_of(files@) == counted_files(
                    views.take(it.index() as int),
                    st,
                ).map_values(to_node),
                entry_views(dirs@) == views.take(it.index() as int).filter(keep),
                self@ == (ScanState {
                    seen_files: seen_after(views.take(it.index() as int), st),
                    excluded_hit: st.excluded_hit || any_excluded(
                        views.take(it.index() as int),
                        up,
                        excluded@,
                    ),
                    ..st
                }),
        {
            let ghost i = it.index() as int;
            let ghost e = entry@;
            let ghost files0 = files@;
            let ghost dirs0 = dirs@;
            let ghost now = views.take(i + 1);
            proof {
                assert(views[i] == e);
                assert(now.drop_last() =~= views.take(i));
                assert(now.last() == e);
                lemma_filter_step(views, keep, i);
                assert(any_excluded(now, up, excluded@) == (any_excluded(
                    views.take(i),
                    up,
                    excluded@,
                ) || (e.is_dir && folder_excluded(e, up, excluded@)))) by {
                    if any_excluded(views.take(i), up, excluded@) {
                        let j = choose|j: int|
                            0 <= j < i && (#[trigger] views.take(i)[j]).is_dir && folder_excluded(
                                views.take(i)[j],
                                up,
                                excluded@,
                            );
                        assert(now[j] == views.take(i)[j]);
                    }
                    if e.is_dir && folder_excluded(e, up, excluded@) {
                        assert(now[i] == e);
                    }
                    if any_excluded(now, up, excluded@) {
                        let j = choose|j: int|
                            0 <= j < i + 1 && (#[trigger] now[j]).is_dir && folder_excluded(
                                now[j],
                                up,
                                excluded@,
                            );
                        if j < i {
                            assert(now[j] == views.take(i)[j]);
                        }
                    }
                }
            }
            if entry.is_dir {
                let hit = match parent {
                    Some(p) => {
                        let child_path = join(p, entry.name.as_str());
                        is_excluded(child_path.as_str(), excluded)
                    },
                    None => false,
                };
                if hit {
                    self.excluded_hit = true;
                } else {
                    dirs.push(entry);
                    assert(entry_views(dirs@) =~= entry_views(dirs0).push(e));
                }
            } else if self.min_file_size_bytes > 0 && entry.file_size < self.min_file_size_bytes {
            } else if self.try_register_file(entry.devid, entry.fileid) {
                let f = FileNode {
                    name: entry.name,
                    children: Vec::new(),
                    size: entry.file_size,
                    file_count: 1,
                    dir_count: 0,
                    is_dir: false,
                };
                files.push(f);
                proof {
                    assert(nodes_of(f.children@) =~= Seq::empty());
                    assert(f@ == file_node(e));
                    assert(nodes_of(files@) =~= nodes_of(files0).push(f@));
                    assert(counted_files(now, st) == counted_files(views.take(i), st).push(e));
                    assert(counted_files(now, st).map_values(to_node) =~= counted_files(
                        views.take(i),
                        st,
                    ).map_values(to_node).push(file_node(e)));
                }
            }
        }
        assert(views.take(views.len() as int) =~= views);
        (files, dirs)
    }
}

pub(crate) fn add_capped(a: u32, b: u32) -> (r: u32)
    ensures
        r == capped((a + b) as nat),
{
    a.saturating_add(b)
}

/// Whether the scan goes into a folder: not once it was stopped. What was found until
/// then is kept.
pub fn goes_into(stopped: bool, folder: &DirEntry) -> (r: bool)
    ensures
        r == (!stopped && folder.is_dir),
{
    !stopped && folder.is_dir
}

/// Whether the sizes of the files and folders of a directory can be added up.
pub fn sizes_fit(files: &Vec<FileNode>, dirs: &Vec<FileNode>) -> (r: bool)
    ensures
        r == (sum_sizes(nodes_of(files@)) + sum_sizes(nodes_of(dirs@)) <= u64::MAX),
{
    match add_sizes(files, 0) {
        Some(size) => add_sizes(dirs, size).is_some(),
        None => false,
    }
}

pub(crate) fn add_sizes(nodes: &Vec<FileNode>, start: u64) -> (r: Option<u64>)
    ensures
        (match r {
            Some(t) => t == start + sum_sizes(nodes_of(nodes@)),
            None => start + sum_sizes(nodes_of(nodes@)) > u64::MAX,
        }),
{
    let ghost s = nodes_of(nodes@);
    let mut size: u64 = start;
    assert(s.take(0) =~= Seq::empty());
    for i in 0..nodes.len()
        invariant
            s == nodes_of(nodes@),
            size == start + sum_sizes(s.take(i as int)),
    {
        proof {
            lemma_sum_take(s, i as int);
        }
        if nodes[i].size > u64::MAX - size {
            return None;
        }
        size = size + nodes[i].size;
    }
    assert(s.take(s.len() as int) =~= s);
    Some(size)
}

/// The directory that its files and folders add up to.
pub fn assemble_dir(name: String, files: Vec<FileNode>, dirs: Vec<FileNode>) -> (r: FileNode)
    requires
        sum_sizes(nodes_of(files@)) + sum_sizes(nodes_of(dirs@)) <= u64::MAX,
    ensures
        is_assembled(r@, name@, nodes_of(files@), nodes_of(dirs@)),
{
    let ghost f = nodes_of(files@);
    let ghost d = nodes_of(dirs@);
    let mut size: u64 = 0;
    let mut file_count: u32 = 0;
    let mut dir_count: u32 = 0;
    assert(f.take(0) =~= Seq::empty());
    assert(d.take(0) =~= Seq::empty());
    for i in 0..files.len()
        invariant
            f == nodes_of(files@),
            sum_sizes(f) <= u64::MAX,
            size == sum_sizes(f.take(i as int)),
            file_count == capped(i as nat),
    {
        proof {
            lemma_sum_take(f, i as int);
        }
        size = size + files[i].size;
        file_count = add_capped(file_count, 1);
    }
    assert(f.take(f.len() as int) =~= f);
    for i in 0..dirs.len()
        invariant
            d == nodes_of(dirs@),
            sum_sizes(f) + sum_sizes(d) <= u64::MAX,
            size == sum_sizes(f) + sum_sizes(d.take(i as int)),
            file_count == capped(f.len() + sum_files(d.take(i as int))),
            dir_count == capped(sum_dirs(d.take(i as int))),
    {
        proof {
            lemma_sum_take(d, i as int);
        }
        size = size + dirs[i].size;
        file_count = add_capped(file_count, dirs[i].file_count);
        dir_count = add_capped(dir_count, dirs[i].dir_count);
    }
    assert(d.take(d.len() as int) =~= d);
    let mut children: Vec<FileNode> = files;
    let mut more: Vec<FileNode> = dirs;
    children.append(&mut more);
    let ghost unsorted = children@;
    assert(nodes_of(unsorted) =~= f + d);
    let ranked = rank_descending(children);
    proof {
        lemma_ranked_nodes(ranked@, unsorted);
    }
    FileNode {
        name,
        children: ranked,
        size,
        file_count,
        dir_count: add_capped(dir_count, 1),
        is_dir: true,
    }
}

pub proof fn lemma_sum_take(s: Seq<Node>, i: int)
    requires
        0 <= i < s.len(),
    ensures
        sum_sizes(s.take(i + 1)) == sum_sizes(s.take(i)) + s[i].size,
        sum_files(s.take(i + 1)) == sum_files(s.take(i)) + s[i].file_count,
        sum_dirs(s.take(i + 1)) == sum_dirs(s.take(i)) + s[i].dir_count,
        sum_sizes(s.take(i + 1)) <= sum_sizes(s),
    decreases s.len() - i,
{
    assert(s.take(i + 1).drop_last() =~= s.take(i));
    assert(s.take(i + 1).last() == s[i]);
    if i + 1 < s.len() {
        lemma_sum_take(s, i + 1);
    } else {
        assert(s.take(i + 1) =~= s);
    }
}

/// Ranked nodes are, as values, the same nodes in descending order.
pub proof fn lemma_ranked_nodes(r: Seq<FileNode>, all: Seq<FileNode>)
    requires
        ranking_of(r, all),
    ensures
        nodes_of(r).to_multiset() == nodes_of(all).to_multiset(),
        forall|i: int, j: int|
            0 <= i <= j < r.len() ==> (#[trigger] nodes_of(r)[i]).size >= (#[trigger] nodes_of(
                r,
            )[j]).size,
{
    let f = |n: FileNode| n@;
    lemma_map_multiset(r, all, f);
    assert(nodes_of(r) =~= r.map_values(f));
    assert(nodes_of(all) =~= all.map_values(f));
    assert forall|i: int, j: int| 0 <= i <= j < r.len() implies (#[trigger] nodes_of(r)[i]).size
        >= (#[trigger] nodes_of(r)[j]).size by {
        assert(r[i].rank() >= r[j].rank());
    }
}

impl FileTree {
    /// The tree that a finished scan gives. Its sizes are approximate whenever
    /// the scan left content out.
    pub fn from_scan(root: FileNode, root_path: String, table: ExtTable, ctx: &ScanCtx) -> (r:
        FileTree)
        requires
            table.wf(),
        ensures
            r.root == root,
            r.root_path == root_path,
            lists_table(r.extensions@, table@),
            r.permission_denied == ctx@.denied,
            r.size_approximate == leaves_out(ctx@),
    {
        FileTree {
            root,
            root_path,
            extensions: table.into_stats(),
            permission_denied: ctx.denied,
            size_approximate: ctx.min_file_size_bytes > 0 || ctx.excluded_hit || ctx.denied > 0,
        }
    }
}

} // verus!
