//! Scans as a whole: what a scan of a disk comes to, whatever order its directories
//! were read in, however the work was shared out among threads, and wherever it was
//! stopped.

use vstd::prelude::*;

use crate::model::extensions::{
    is_table_of, lists_table, one_table_has_one_list, stat_views,
    the_order_of_counting_does_not_matter,
};
use crate::model::node::Node;
use crate::model::scan::{
    assembled_directory_is_right, assembled_totals_add_up, counted_files, file_node,
    file_node_is_right, folder_excluded, identified, is_admitted, is_assembled, open_folders,
    seen_after, seen_files_are_files_of_the_entries, EntryView, ScanState,
};
use crate::model::totals::{
    consistent, lemma_all_consistent, lemma_all_ordered, lemma_some_label, lemma_total_concat,
    lemma_total_one, lemma_total_permuted, ordered, total, total_all, Measure,
};
use crate::model::tree::ExtStat;
use crate::path::joined;

verus! {

/// A directory on disk. What its entry at `i` leads to, if that is a folder, is
/// `inside[i]`.
pub struct Disk {
    pub opened: bool,
    pub identity: Option<(u32, u64)>,
    pub entries: Seq<EntryView>,
    pub inside: Seq<Disk>,
}

/// What a scan is asked to do, and whether it is asked to stop on the way.
pub struct Job {
    pub disk: Disk,
    pub skip_duplicates: bool,
    pub min_file_size_bytes: u64,
    pub excluded: Seq<String>,
    pub stopped: bool,
}

/// The same, without a stop.
pub open spec fn unstopped(job: Job) -> Job {
    Job { stopped: false, ..job }
}

/// Whether `q` leads from a directory down to another.
pub open spec fn reaches(d: Disk, q: Seq<int>) -> bool
    decreases q.len(),
{
    q.len() == 0 || (0 <= q[0] < d.inside.len() && reaches(d.inside[q[0]], q.drop_first()))
}

/// The directory that `q` leads to.
pub open spec fn dir_at(d: Disk, q: Seq<int>) -> Disk
    decreases q.len(),
{
    if q.len() == 0 {
        d
    } else {
        dir_at(d.inside[q[0]], q.drop_first())
    }
}

/// Whether the entry at `i` of the directory at `q` is a file that is told by `key`.
pub open spec fn file_at(d: Disk, q: Seq<int>, i: int, key: (u32, u64)) -> bool {
    let entries = dir_at(d, q).entries;
    &&& reaches(d, q)
    &&& 0 <= i < entries.len()
    &&& !entries[i].is_dir
    &&& entries[i].fileid != 0
    &&& (entries[i].devid, entries[i].fileid) == key
}

/// Whether the directory at `q` can be opened and is told by `key`.
pub open spec fn directory_at(d: Disk, q: Seq<int>, key: (u32, u64)) -> bool {
    reaches(d, q) && dir_at(d, q).opened && dir_at(d, q).identity == Some(key)
}

/// Whether there are neither hard links nor firmlinks on a disk: no file and no directory
/// is in two places.
pub open spec fn unlinked(d: Disk) -> bool {
    &&& forall|q: Seq<int>, i: int, p: Seq<int>, j: int, key: (u32, u64)| #[trigger]
        file_at(d, q, i, key) && #[trigger] file_at(d, p, j, key) ==> q == p && i == j
    &&& forall|q: Seq<int>, p: Seq<int>, key: (u32, u64)| #[trigger]
        directory_at(d, q, key) && #[trigger] directory_at(d, p, key) ==> q == p
}

/// The positions of the folders that are not excluded.
pub open spec fn open_at(
    entries: Seq<EntryView>,
    path: Seq<char>,
    excluded: Seq<String>,
) -> Seq<int>
    decreases entries.len(),
{
    if entries.len() == 0 {
        Seq::empty()
    } else {
        let before = open_at(entries.drop_last(), path, excluded);
        let e = entries.last();
        if e.is_dir && !folder_excluded(e, Some(path), excluded) {
            before.push(entries.len() - 1)
        } else {
            before
        }
    }
}

/// What stands at those positions is what the scan goes into.
pub proof fn open_positions_hold_the_open_folders(
    entries: Seq<EntryView>,
    path: Seq<char>,
    excluded: Seq<String>,
)
    ensures
        open_folders(entries, Some(path), excluded) == open_at(
            entries,
            path,
            excluded,
        ).map_values(|i: int| entries[i]),
    decreases entries.len(),
{
    reveal(Seq::filter);
    let at = |i: int| entries[i];
    let all = open_at(entries, path, excluded);
    if entries.len() > 0 {
        let rest = entries.drop_last();
        let before = open_at(rest, path, excluded);
        open_positions_hold_the_open_folders(rest, path, excluded);
        lemma_open_at(rest, path, excluded);
        assert(before.map_values(|i: int| rest[i]) =~= before.map_values(at));
        let e = entries.last();
        if e.is_dir && !folder_excluded(e, Some(path), excluded) {
            assert(all.map_values(at) =~= before.map_values(at).push(e));
        }
    } else {
        assert(all.map_values(at) =~= Seq::empty());
    }
}

/// How the scan went in a directory: the state that it came with, the state that it took
/// the entries in, the node that it made, and how it went in the folders. Those that it did
/// not come to, once it was stopped, have none.
pub struct Visit {
    pub entered: ScanState,
    pub taken: ScanState,
    pub node: Node,
    pub folders: Seq<Option<Visit>>,
}

/// Whether the scan went into the folder at `i` of a directory: it came to it, and admitted
/// it.
pub open spec fn gone_into(f: Option<Visit>, d: Disk, i: int) -> bool {
    f is Some && is_admitted(f->0.entered, d.inside[i].opened, d.inside[i].identity)
}

/// The nodes of the folders that the scan went into.
pub open spec fn admitted(folders: Seq<Option<Visit>>, d: Disk, open: Seq<int>) -> Seq<Node>
    decreases folders.len(),
{
    if folders.len() == 0 {
        Seq::empty()
    } else {
        let f = folders.last();
        let before = admitted(folders.drop_last(), d, open);
        if gone_into(f, d, open[folders.len() - 1]) {
            before.push(f->0.node)
        } else {
            before
        }
    }
}

/// The nodes of the files that were counted in a directory.
pub open spec fn counted_nodes(v: Visit, d: Disk) -> Seq<Node> {
    counted_files(d.entries, v.taken).map_values(|e: EntryView| file_node(e))
}

/// Whether a thread may come to the directory at `q` with this state: the directories that
/// were seen until then are others.
pub open spec fn came(st: ScanState, job: Job, q: Seq<int>) -> bool {
    &&& st.skip_duplicates == job.skip_duplicates
    &&& forall|key: (u32, u64)| #[trigger]
        st.seen_dirs.contains(key) ==> exists|p: Seq<int>|
            p != q && directory_at(job.disk, p, key)
}

/// Whether the entries of the directory at `q` may be taken in this state: the files that
/// were seen until then are in other directories.
pub open spec fn took(st: ScanState, job: Job, q: Seq<int>) -> bool {
    &&& st.skip_duplicates == job.skip_duplicates
    &&& st.min_file_size_bytes == job.min_file_size_bytes
    &&& forall|key: (u32, u64)| #[trigger]
        st.seen_files.contains(key) ==> exists|p: Seq<int>, i: int|
            p != q && file_at(job.disk, p, i, key)
}

/// Whether the scan may have gone as `v` says in the directory at `q`, which has this
/// name and path. The states are those that threads come with in any order, and once the
/// scan was stopped any folder that none has come to yet is left out.
pub open spec fn went(v: Visit, job: Job, q: Seq<int>, name: Seq<char>, path: Seq<char>) -> bool
    decreases v,
{
    let d = dir_at(job.disk, q);
    let open = open_at(d.entries, path, job.excluded);
    &&& reaches(job.disk, q)
    &&& d.inside.len() == d.entries.len()
    &&& took(v.taken, job, q)
    &&& v.folders.len() == open.len()
    &&& forall|j: int|
        0 <= j < v.folders.len() && (#[trigger] v.folders[j]) is None ==> job.stopped
    &&& forall|j: int|
        0 <= j < v.folders.len() && (#[trigger] v.folders[j]) is Some ==> came(
            v.folders[j]->0.entered,
            job,
            q.push(open[j]),
        )
    &&& forall|j: int|
        0 <= j < v.folders.len() && gone_into(#[trigger] v.folders[j], d, open[j]) ==> went(
            v.folders[j]->0,
            job,
            q.push(open[j]),
            d.entries[open[j]].name,
            joined(path, d.entries[open[j]].name),
        )
    &&& is_assembled(v.node, name, counted_nodes(v, d), admitted(v.folders, d, open))
}

/// All the files that were counted in a directory and the folders in it.
pub open spec fn all_counted(v: Visit, job: Job, q: Seq<int>, path: Seq<char>) -> Seq<Node>
    decreases v,
{
    let d = dir_at(job.disk, q);
    let open = open_at(d.entries, path, job.excluded);
    counted_nodes(v, d) + counted_inside(v.folders, job, q, path, open)
}

pub open spec fn counted_inside(
    folders: Seq<Option<Visit>>,
    job: Job,
    q: Seq<int>,
    path: Seq<char>,
    open: Seq<int>,
) -> Seq<Node>
    decreases folders,
{
    if folders.len() == 0 {
        Seq::empty()
    } else {
        let f = folders.last();
        let i = open[folders.len() - 1];
        let d = dir_at(job.disk, q);
        let before = counted_inside(folders.drop_last(), job, q, path, open);
        if gone_into(f, d, i) {
            before + all_counted(f->0, job, q.push(i), joined(path, d.entries[i].name))
        } else {
            before
        }
    }
}

proof fn lemma_open_at(entries: Seq<EntryView>, path: Seq<char>, excluded: Seq<String>)
    ensures
        forall|j: int|
            0 <= j < open_at(entries, path, excluded).len() ==> 0 <= (#[trigger] open_at(
                entries,
                path,
                excluded,
            )[j]) < entries.len(),
    decreases entries.len(),
{
    if entries.len() > 0 {
        lemma_open_at(entries.drop_last(), path, excluded);
        let before = open_at(entries.drop_last(), path, excluded);
        let all = open_at(entries, path, excluded);
        assert forall|j: int| 0 <= j < all.len() implies 0 <= (#[trigger] all[j])
            < entries.len() by {
            if j < before.len() {
                assert(all[j] == before[j]);
            }
        }
    }
}

proof fn lemma_dir_at(d: Disk, q: Seq<int>, i: int)
    requires
        reaches(d, q),
        0 <= i < dir_at(d, q).inside.len(),
    ensures
        reaches(d, q.push(i)),
        dir_at(d, q.push(i)) == dir_at(d, q).inside[i],
    decreases q.len(),
{
    let p = q.push(i);
    if q.len() == 0 {
        assert(p.drop_first() =~= Seq::empty());
        assert(reaches(d.inside[i], p.drop_first()));
        assert(dir_at(d.inside[i], p.drop_first()) == d.inside[i]);
    } else {
        assert(p.drop_first() =~= q.drop_first().push(i));
        lemma_dir_at(d.inside[q[0]], q.drop_first(), i);
    }
}

/// Where nothing in a directory was seen before, and nothing is in it twice, what was
/// seen elsewhere does not matter.
proof fn lemma_fresh(entries: Seq<EntryView>, a: ScanState, b: ScanState)
    requires
        a.skip_duplicates == b.skip_duplicates,
        a.min_file_size_bytes == b.min_file_size_bytes,
        forall|i: int|
            0 <= i < entries.len() && !(#[trigger] entries[i]).is_dir && entries[i].fileid != 0
                ==> !a.seen_files.contains((entries[i].devid, entries[i].fileid))
                && !b.seen_files.contains((entries[i].devid, entries[i].fileid)),
        forall|i: int, j: int|
            0 <= i < j < entries.len() && !(#[trigger] entries[i]).is_dir && !(
            #[trigger] entries[j]).is_dir && entries[i].fileid != 0 ==> (
                entries[i].devid,
                entries[i].fileid,
            ) != (entries[j].devid, entries[j].fileid),
    ensures
        counted_files(entries, a) == counted_files(entries, b),
    decreases entries.len(),
{
    if entries.len() > 0 {
        let rest = entries.drop_last();
        let last = entries.len() - 1;
        let e = entries[last];
        let key = (e.devid, e.fileid);
        assert forall|i: int|
            0 <= i < rest.len() && !(#[trigger] rest[i]).is_dir && rest[i].fileid != 0 implies
            !a.seen_files.contains((rest[i].devid, rest[i].fileid)) && !b.seen_files.contains(
            (rest[i].devid, rest[i].fileid),
        ) by {
            assert(rest[i] == entries[i]);
        }
        assert forall|i: int, j: int|
            0 <= i < j < rest.len() && !(#[trigger] rest[i]).is_dir && !(#[trigger] rest[j]).is_dir
                && rest[i].fileid != 0 implies (rest[i].devid, rest[i].fileid) != (
            rest[j].devid,
            rest[j].fileid,
        ) by {
            assert(rest[i] == entries[i] && rest[j] == entries[j]);
        }
        lemma_fresh(rest, a, b);
        seen_files_are_files_of_the_entries(rest, a, key);
        seen_files_are_files_of_the_entries(rest, b, key);
        if !e.is_dir && e.fileid != 0 {
            assert forall|j: int| 0 <= j < rest.len() && !(#[trigger] rest[j]).is_dir implies (
                rest[j].devid,
                rest[j].fileid,
            ) != key by {
                assert(rest[j] == entries[j]);
                if rest[j].fileid != 0 {
                    assert(!entries[j].is_dir && !entries[last].is_dir);
                }
            }
            assert(!seen_after(rest, a).contains(key));
            assert(!seen_after(rest, b).contains(key));
        }
        assert(identified(e, a) == identified(e, b));
    }
}

/// On a disk without links the files that count in a directory do not depend on what was
/// seen before.
proof fn lemma_counted_agree(
    a: Visit,
    b: Visit,
    job: Job,
    q: Seq<int>,
    name: Seq<char>,
    path: Seq<char>,
)
    requires
        unlinked(job.disk),
        went(a, job, q, name, path),
        went(b, unstopped(job), q, name, path),
    ensures
        counted_nodes(a, dir_at(job.disk, q)) == counted_nodes(b, dir_at(job.disk, q)),
{
    let entries = dir_at(job.disk, q).entries;
    assert forall|i: int|
        0 <= i < entries.len() && !(#[trigger] entries[i]).is_dir && entries[i].fileid != 0 implies
        !a.taken.seen_files.contains((entries[i].devid, entries[i].fileid))
        && !b.taken.seen_files.contains((entries[i].devid, entries[i].fileid)) by {
        assert(file_at(job.disk, q, i, (entries[i].devid, entries[i].fileid)));
    }
    assert forall|i: int, j: int|
        0 <= i < j < entries.len() && !(#[trigger] entries[i]).is_dir && !(
        #[trigger] entries[j]).is_dir && entries[i].fileid != 0 implies (
        entries[i].devid,
        entries[i].fileid,
    ) != (entries[j].devid, entries[j].fileid) by {
        let key = (entries[i].devid, entries[i].fileid);
        if key == (entries[j].devid, entries[j].fileid) {
            assert(file_at(job.disk, q, i, key));
            assert(file_at(job.disk, q, j, key));
        }
    }
    lemma_fresh(entries, a.taken, b.taken);
}

/// On a disk without links a scan that is not stopped goes into every folder.
proof fn lemma_all_gone_into(
    v: Visit,
    job: Job,
    q: Seq<int>,
    name: Seq<char>,
    path: Seq<char>,
    j: int,
)
    requires
        unlinked(job.disk),
        !job.stopped,
        went(v, job, q, name, path),
        0 <= j < v.folders.len(),
    ensures
        gone_into(
            v.folders[j],
            dir_at(job.disk, q),
            open_at(dir_at(job.disk, q).entries, path, job.excluded)[j],
        ),
{
    let d = dir_at(job.disk, q);
    let open = open_at(d.entries, path, job.excluded);
    lemma_open_at(d.entries, path, job.excluded);
    let i = open[j];
    let inside = d.inside[i];
    lemma_dir_at(job.disk, q, i);
    assert(v.folders[j] is Some);
    let st = v.folders[j]->0.entered;
    if inside.opened && inside.identity is Some {
        let key = inside.identity->0;
        assert(directory_at(job.disk, q.push(i), key));
        if st.seen_dirs.contains(key) {
            let p = choose|p: Seq<int>| p != q.push(i) && directory_at(job.disk, p, key);
            assert(directory_at(job.disk, p, key));
        }
    }
}

proof fn lemma_totals_at_most(
    a: Visit,
    b: Visit,
    job: Job,
    q: Seq<int>,
    name: Seq<char>,
    path: Seq<char>,
    m: Measure,
)
    requires
        unlinked(job.disk),
        went(a, job, q, name, path),
        went(b, unstopped(job), q, name, path),
    ensures
        total(a.node, m) <= total(b.node, m),
    decreases a, 0int,
{
    let d = dir_at(job.disk, q);
    let open = open_at(d.entries, path, job.excluded);
    let n = open.len() as int;
    lemma_counted_agree(a, b, job, q, name, path);
    assembled_totals_add_up(a.node, name, counted_nodes(a, d), admitted(a.folders, d, open), m);
    assembled_totals_add_up(b.node, name, counted_nodes(b, d), admitted(b.folders, d, open), m);
    lemma_inside_at_most(a, b, job, q, name, path, m, n);
    assert(a.folders.take(n) =~= a.folders);
    assert(b.folders.take(n) =~= b.folders);
}

proof fn lemma_inside_at_most(
    a: Visit,
    b: Visit,
    job: Job,
    q: Seq<int>,
    name: Seq<char>,
    path: Seq<char>,
    m: Measure,
    k: int,
)
    requires
        unlinked(job.disk),
        went(a, job, q, name, path),
        went(b, unstopped(job), q, name, path),
        0 <= k <= a.folders.len(),
    ensures
        ({
            let d = dir_at(job.disk, q);
            let open = open_at(d.entries, path, job.excluded);
            total_all(admitted(a.folders.take(k), d, open), m) <= total_all(
                admitted(b.folders.take(k), d, open),
                m,
            )
        }),
    decreases a.folders, k,
{
    let d = dir_at(job.disk, q);
    let open = open_at(d.entries, path, job.excluded);
    let x = a.folders.take(k);
    let y = b.folders.take(k);
    if k > 0 {
        let f = a.folders[k - 1];
        let g = b.folders[k - 1];
        let i = open[k - 1];
        lemma_inside_at_most(a, b, job, q, name, path, m, k - 1);
        assert(x.drop_last() =~= a.folders.take(k - 1));
        assert(y.drop_last() =~= b.folders.take(k - 1));
        assert(x.last() == f && y.last() == g);
        lemma_all_gone_into(b, unstopped(job), q, name, path, k - 1);
        let before = admitted(x.drop_last(), d, open);
        let other = admitted(y.drop_last(), d, open);
        assert(other.push(g->0.node).drop_last() =~= other);
        if gone_into(f, d, i) {
            assert(before.push(f->0.node).drop_last() =~= before);
            lemma_totals_at_most(
                f->0,
                g->0,
                job,
                q.push(i),
                d.entries[i].name,
                joined(path, d.entries[i].name),
                m,
            );
        }
    }
}

proof fn lemma_totals_agree(
    a: Visit,
    b: Visit,
    job: Job,
    name: Seq<char>,
    path: Seq<char>,
    m: Measure,
)
    requires
        unlinked(job.disk),
        !job.stopped,
        went(a, job, Seq::empty(), name, path),
        went(b, job, Seq::empty(), name, path),
    ensures
        total(a.node, m) == total(b.node, m),
{
    assert(unstopped(job) == job);
    lemma_totals_at_most(a, b, job, Seq::empty(), name, path, m);
    lemma_totals_at_most(b, a, job, Seq::empty(), name, path, m);
}

proof fn lemma_admitted_member(
    folders: Seq<Option<Visit>>,
    d: Disk,
    open: Seq<int>,
    i: int,
) -> (j: int)
    requires
        0 <= i < admitted(folders, d, open).len(),
    ensures
        0 <= j < folders.len(),
        gone_into(folders[j], d, open[j]),
        folders[j]->0.node == admitted(folders, d, open)[i],
    decreases folders.len(),
{
    let before = admitted(folders.drop_last(), d, open);
    if i < before.len() {
        let j = lemma_admitted_member(folders.drop_last(), d, open, i);
        assert(folders.drop_last()[j] == folders[j]);
        j
    } else {
        folders.len() - 1
    }
}

/// However a scan went, and wherever it was stopped: the totals of its tree are right, and
/// the tree is in order.
pub proof fn scanned_trees_are_right(
    v: Visit,
    job: Job,
    q: Seq<int>,
    name: Seq<char>,
    path: Seq<char>,
)
    requires
        went(v, job, q, name, path),
    ensures
        consistent(v.node),
        ordered(v.node),
    decreases v,
{
    let d = dir_at(job.disk, q);
    let open = open_at(d.entries, path, job.excluded);
    let files = counted_nodes(v, d);
    let dirs = admitted(v.folders, d, open);
    assert forall|i: int| 0 <= i < files.len() implies consistent(#[trigger] files[i]) && ordered(
        files[i],
    ) && !files[i].is_dir by {
        file_node_is_right(counted_files(d.entries, v.taken)[i]);
    }
    assert forall|i: int| 0 <= i < dirs.len() implies consistent(#[trigger] dirs[i]) && ordered(
        dirs[i],
    ) by {
        let j = lemma_admitted_member(v.folders, d, open, i);
        scanned_trees_are_right(
            v.folders[j]->0,
            job,
            q.push(open[j]),
            d.entries[open[j]].name,
            joined(path, d.entries[open[j]].name),
        );
    }
    lemma_all_consistent(files);
    lemma_all_ordered(files);
    lemma_all_consistent(dirs);
    lemma_all_ordered(dirs);
    assembled_directory_is_right(v.node, name, files, dirs);
}

/// The files that were counted one by one are those of the tree, also where the scan was
/// stopped: under every label they add up to the same.
pub proof fn counted_files_are_those_of_the_tree(
    v: Visit,
    job: Job,
    q: Seq<int>,
    name: Seq<char>,
    path: Seq<char>,
    m: Measure,
)
    requires
        went(v, job, q, name, path),
        !(m is Dirs),
    ensures
        total(v.node, m) == total_all(all_counted(v, job, q, path), m),
    decreases v, 0int,
{
    let d = dir_at(job.disk, q);
    let open = open_at(d.entries, path, job.excluded);
    let files = counted_nodes(v, d);
    assembled_totals_add_up(v.node, name, files, admitted(v.folders, d, open), m);
    lemma_total_concat(files, counted_inside(v.folders, job, q, path, open), m);
    let n = v.folders.len() as int;
    assert(v.folders.take(n) =~= v.folders);
    lemma_inside_totals(v, job, q, name, path, m, n);
}

proof fn lemma_inside_totals(
    v: Visit,
    job: Job,
    q: Seq<int>,
    name: Seq<char>,
    path: Seq<char>,
    m: Measure,
    k: int,
)
    requires
        went(v, job, q, name, path),
        !(m is Dirs),
        0 <= k <= v.folders.len(),
    ensures
        ({
            let d = dir_at(job.disk, q);
            let open = open_at(d.entries, path, job.excluded);
            total_all(admitted(v.folders.take(k), d, open), m) == total_all(
                counted_inside(v.folders.take(k), job, q, path, open),
                m,
            )
        }),
    decreases v.folders, k,
{
    let d = dir_at(job.disk, q);
    let open = open_at(d.entries, path, job.excluded);
    let now = v.folders.take(k);
    if k > 0 {
        let f = v.folders[k - 1];
        let i = open[k - 1];
        lemma_inside_totals(v, job, q, name, path, m, k - 1);
        assert(now.drop_last() =~= v.folders.take(k - 1));
        assert(now.last() == f);
        let before = admitted(now.drop_last(), d, open);
        if gone_into(f, d, i) {
            assert(before.push(f->0.node).drop_last() =~= before);
            counted_files_are_those_of_the_tree(
                f->0,
                job,
                q.push(i),
                d.entries[i].name,
                joined(path, d.entries[i].name),
                m,
            );
            lemma_total_concat(
                counted_inside(now.drop_last(), job, q, path, open),
                all_counted(f->0, job, q.push(i), joined(path, d.entries[i].name)),
                m,
            );
        }
    } else {
        assert(admitted(now, d, open) =~= Seq::empty());
        assert(counted_inside(now, job, q, path, open) =~= Seq::empty());
    }
}

/// Two scans of the same disk, without links on it, agree if neither is stopped: on the
/// bytes, files and directories of the tree, and on the statistics. Neither the order in
/// which directories were read matters, nor how the files were shared out to be counted:
/// `x` and `y` are the files as the one scan and the other counted them, in whatever
/// order.
pub proof fn scans_of_one_disk_agree(
    a: Visit,
    b: Visit,
    job: Job,
    name: Seq<char>,
    path: Seq<char>,
    x: Seq<Node>,
    y: Seq<Node>,
    table: Map<Seq<char>, (u64, u64)>,
    other: Map<Seq<char>, (u64, u64)>,
)
    requires
        unlinked(job.disk),
        !job.stopped,
        went(a, job, Seq::empty(), name, path),
        went(b, job, Seq::empty(), name, path),
        x.to_multiset() == all_counted(a, job, Seq::empty(), path).to_multiset(),
        y.to_multiset() == all_counted(b, job, Seq::empty(), path).to_multiset(),
        is_table_of(table, x),
        is_table_of(other, y),
    ensures
        a.node.size == b.node.size,
        a.node.file_count == b.node.file_count,
        a.node.dir_count == b.node.dir_count,
        table == other,
{
    lemma_totals_agree(a, b, job, name, path, Measure::Bytes);
    lemma_totals_agree(a, b, job, name, path, Measure::Files);
    lemma_totals_agree(a, b, job, name, path, Measure::Dirs);
    scanned_trees_are_right(a, job, Seq::empty(), name, path);
    scanned_trees_are_right(b, job, Seq::empty(), name, path);
    statistics_are_those_of_the_tree(a, job, name, path, x, table);
    statistics_are_those_of_the_tree(b, job, name, path, y, other);
    let s = seq![a.node];
    let t = seq![b.node];
    assert(is_table_of(other, s)) by {
        assert forall|k: Seq<char>|
            total_all(s, Measure::LabelBytes(k)) == total_all(t, Measure::LabelBytes(k))
                && total_all(s, Measure::LabelFiles(k)) == total_all(
                t,
                Measure::LabelFiles(k),
            ) by {
            lemma_totals_agree(a, b, job, name, path, Measure::LabelBytes(k));
            lemma_totals_agree(a, b, job, name, path, Measure::LabelFiles(k));
            lemma_total_one(a.node, Measure::LabelBytes(k));
            lemma_total_one(a.node, Measure::LabelFiles(k));
            lemma_total_one(b.node, Measure::LabelBytes(k));
            lemma_total_one(b.node, Measure::LabelFiles(k));
        }
    }
    the_order_of_counting_does_not_matter(table, other, s, s);
}

/// The table of the files that a scan counted, in whatever order, is that of its tree, also
/// where the scan was stopped.
pub proof fn statistics_are_those_of_the_tree(
    v: Visit,
    job: Job,
    name: Seq<char>,
    path: Seq<char>,
    x: Seq<Node>,
    table: Map<Seq<char>, (u64, u64)>,
)
    requires
        went(v, job, Seq::empty(), name, path),
        x.to_multiset() == all_counted(v, job, Seq::empty(), path).to_multiset(),
        is_table_of(table, x),
    ensures
        is_table_of(table, seq![v.node]),
{
    let s = seq![v.node];
    let all = all_counted(v, job, Seq::empty(), path);
    assert forall|k: Seq<char>|
        total_all(x, Measure::LabelBytes(k)) == total_all(s, Measure::LabelBytes(k)) && total_all(
            x,
            Measure::LabelFiles(k),
        ) == total_all(s, Measure::LabelFiles(k)) by {
        lemma_total_permuted(x, all, Measure::LabelBytes(k));
        lemma_total_permuted(x, all, Measure::LabelFiles(k));
        counted_files_are_those_of_the_tree(
            v,
            job,
            Seq::empty(),
            name,
            path,
            Measure::LabelBytes(k),
        );
        counted_files_are_those_of_the_tree(
            v,
            job,
            Seq::empty(),
            name,
            path,
            Measure::LabelFiles(k),
        );
        lemma_total_one(v.node, Measure::LabelBytes(k));
        lemma_total_one(v.node, Measure::LabelFiles(k));
    }
}

/// In no measure is there more in the tree of a scan that was stopped than in that of one
/// that was not, on the same disk without links.
pub proof fn a_stopped_scan_finds_no_more(
    a: Visit,
    b: Visit,
    job: Job,
    name: Seq<char>,
    path: Seq<char>,
    m: Measure,
)
    requires
        unlinked(job.disk),
        went(a, job, Seq::empty(), name, path),
        went(b, unstopped(job), Seq::empty(), name, path),
    ensures
        total(a.node, m) <= total(b.node, m),
        a.node.size <= b.node.size,
        a.node.file_count <= b.node.file_count,
        a.node.dir_count <= b.node.dir_count,
{
    lemma_totals_at_most(a, b, job, Seq::empty(), name, path, m);
    lemma_totals_at_most(a, b, job, Seq::empty(), name, path, Measure::Bytes);
    lemma_totals_at_most(a, b, job, Seq::empty(), name, path, Measure::Files);
    lemma_totals_at_most(a, b, job, Seq::empty(), name, path, Measure::Dirs);
    scanned_trees_are_right(a, job, Seq::empty(), name, path);
    scanned_trees_are_right(b, unstopped(job), Seq::empty(), name, path);
}

/// The statistics of two such scans hold the same, each as often.
pub proof fn scans_of_one_disk_have_the_same_statistics(
    a: Visit,
    b: Visit,
    job: Job,
    name: Seq<char>,
    path: Seq<char>,
    x: Seq<Node>,
    y: Seq<Node>,
    table: Map<Seq<char>, (u64, u64)>,
    other: Map<Seq<char>, (u64, u64)>,
    v: Seq<ExtStat>,
    w: Seq<ExtStat>,
)
    requires
        unlinked(job.disk),
        !job.stopped,
        went(a, job, Seq::empty(), name, path),
        went(b, job, Seq::empty(), name, path),
        x.to_multiset() == all_counted(a, job, Seq::empty(), path).to_multiset(),
        y.to_multiset() == all_counted(b, job, Seq::empty(), path).to_multiset(),
        is_table_of(table, x),
        is_table_of(other, y),
        lists_table(v, table),
        lists_table(w, other),
    ensures
        stat_views(v).to_multiset() == stat_views(w).to_multiset(),
{
    scans_of_one_disk_agree(a, b, job, name, path, x, y, table, other);
    one_table_has_one_list(v, w, table);
}

/// A scan that counted a file has statistics.
pub proof fn a_scan_with_files_has_statistics(
    a: Visit,
    job: Job,
    name: Seq<char>,
    path: Seq<char>,
    x: Seq<Node>,
    table: Map<Seq<char>, (u64, u64)>,
    v: Seq<ExtStat>,
)
    requires
        went(a, job, Seq::empty(), name, path),
        x.to_multiset() == all_counted(a, job, Seq::empty(), path).to_multiset(),
        is_table_of(table, x),
        lists_table(v, table),
        a.node.file_count > 0,
    ensures
        v.len() > 0,
{
    scanned_trees_are_right(a, job, Seq::empty(), name, path);
    lemma_some_label(a.node);
    let k = choose|k: Seq<char>| #[trigger] total(a.node, Measure::LabelFiles(k)) > 0;
    statistics_are_those_of_the_tree(a, job, name, path, x, table);
    lemma_total_one(a.node, Measure::LabelFiles(k));
    assert(table.contains_key(k));
}

} // verus!
