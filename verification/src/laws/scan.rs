//! What a scan makes of the entries of a directory.

use vstd::prelude::*;

use crate::laws::words::{lemma_picks_more, lemma_sum_last, picks, sum};
use crate::model::extensions::ExtTable;
use crate::model::node::{nodes_of, FileNode};
use crate::model::scan::{
    any_excluded, assemble_dir, counted_files, entry_views, file_node, folder_excluded, goes_into,
    open_folders, seen_after, sizes_fit, DirEntry, EntryView, ScanCtx, ScanState,
};
use crate::model::totals::{sum_dirs, sum_files, sum_sizes};
use crate::model::tree::FileTree;
use crate::path::{joined, same_path};
use crate::ranking::Ranked;

verus! {

broadcast use crate::model::node::group_nodes;

/// Whether the entry at `k` is a file that the size floor lets through.
pub open spec fn is_large_file(entries: Seq<DirEntry>, floor: u64, k: int) -> bool {
    !entries[k].is_dir && entries[k].file_size >= floor
}

/// Whether two entries say that they are the same file.
pub open spec fn is_same_file(a: DirEntry, b: DirEntry) -> bool {
    a.devid == b.devid && a.fileid == b.fileid && a.fileid != 0
}

/// Whether the entry at `k` is a file that counts: it is not too small and, where
/// duplicates are skipped, none that was seen before, in this directory or another.
pub open spec fn counts(
    entries: Seq<DirEntry>,
    skip_duplicates: bool,
    floor: u64,
    seen: Set<(u32, u64)>,
    k: int,
) -> bool {
    &&& is_large_file(entries, floor, k)
    &&& skip_duplicates && entries[k].fileid != 0 ==> {
        &&& !seen.contains((entries[k].devid, entries[k].fileid))
        &&& forall|j: int|
            0 <= j < k && is_large_file(entries, floor, j) ==> !is_same_file(
                #[trigger] entries[j],
                entries[k],
            )
    }
}

/// Whether the entry at `k` is a folder to go into: it is not in the list of those that
/// are left out.
pub open spec fn is_open_folder(
    entries: Seq<DirEntry>,
    parent: Option<Seq<char>>,
    excluded: Seq<String>,
    k: int,
) -> bool {
    entries[k].is_dir && (parent is Some ==> forall|i: int|
        0 <= i < excluded.len() ==> !same_path(
            joined(parent->0, entries[k].name@),
            #[trigger] excluded[i]@,
        ))
}

proof fn lemma_seen(entries: Seq<DirEntry>, st: ScanState, n: int, key: (u32, u64))
    requires
        0 <= n <= entries.len(),
    ensures
        seen_after(entry_views(entries).take(n), st).contains(key) <==> st.seen_files.contains(key)
            || (st.skip_duplicates && exists|j: int|
            0 <= j < n && is_large_file(entries, st.min_file_size_bytes, j) && (
            #[trigger] entries[j]).fileid != 0 && (entries[j].devid, entries[j].fileid) == key),
    decreases n,
{
    let views = entry_views(entries);
    if n > 0 {
        lemma_seen(entries, st, n - 1, key);
        assert(views.take(n).drop_last() =~= views.take(n - 1));
        assert(views.take(n).last() == entries[n - 1]@);
    }
}

proof fn lemma_counted(entries: Seq<DirEntry>, st: ScanState, n: int) -> (at: Seq<int>)
    requires
        0 <= n <= entries.len(),
    ensures
        picks(
            at,
            n as nat,
            |k: int|
                counts(entries, st.skip_duplicates, st.min_file_size_bytes, st.seen_files, k),
        ),
        counted_files(entry_views(entries).take(n), st) == at.map_values(|k: int| entries[k]@),
    decreases n,
{
    let p = |k: int|
        counts(entries, st.skip_duplicates, st.min_file_size_bytes, st.seen_files, k);
    let f = |k: int| entries[k]@;
    let views = entry_views(entries);
    if n == 0 {
        let at = Seq::<int>::empty();
        assert(counted_files(views.take(0), st) =~= at.map_values(f));
        at
    } else {
        let before = lemma_counted(entries, st, n - 1);
        let at = lemma_picks_more(before, (n - 1) as nat, p);
        assert(views.take(n).drop_last() =~= views.take(n - 1));
        let e = entries[n - 1];
        assert(views.take(n).last() == e@);
        lemma_seen(entries, st, n - 1, (e.devid, e.fileid));
        assert(before.push(n - 1).map_values(f) =~= before.map_values(f).push(e@));
        at
    }
}

proof fn lemma_open(
    entries: Seq<DirEntry>,
    parent: Option<Seq<char>>,
    excluded: Seq<String>,
    n: int,
) -> (at: Seq<int>)
    requires
        0 <= n <= entries.len(),
    ensures
        picks(at, n as nat, |k: int| is_open_folder(entries, parent, excluded, k)),
        open_folders(entry_views(entries).take(n), parent, excluded) == at.map_values(
            |k: int| entries[k]@,
        ),
    decreases n,
{
    reveal(Seq::filter);
    let p = |k: int| is_open_folder(entries, parent, excluded, k);
    let f = |k: int| entries[k]@;
    let views = entry_views(entries);
    if n == 0 {
        let at = Seq::<int>::empty();
        assert(open_folders(views.take(0), parent, excluded) =~= at.map_values(f));
        at
    } else {
        let before = lemma_open(entries, parent, excluded, n - 1);
        let at = lemma_picks_more(before, (n - 1) as nat, p);
        assert(views.take(n).drop_last() =~= views.take(n - 1));
        let e = entries[n - 1];
        assert(views.take(n).last() == e@);
        assert(before.push(n - 1).map_values(f) =~= before.map_values(f).push(e@));
        at
    }
}

/// A scan makes a node of each file that counts, in their order, and of no other: its name
/// and its size are those of the entry.
pub proof fn scanned_files_have_the_names_and_sizes_of_their_entries(
    ctx: &mut ScanCtx,
    entries: Vec<DirEntry>,
    parent: Option<&str>,
    excluded: &[String],
    r: (Vec<FileNode>, Vec<DirEntry>),
) -> (at: Seq<int>)
    requires
        call_ensures(ScanCtx::take_entries, (ctx, entries, parent, excluded), r),
    ensures
        picks(
            at,
            entries@.len(),
            |k: int|
                counts(
                    entries@,
                    old(ctx)@.skip_duplicates,
                    old(ctx)@.min_file_size_bytes,
                    old(ctx)@.seen_files,
                    k,
                ),
        ),
        r.0@.len() == at.len(),
        forall|i: int|
            0 <= i < at.len() ==> (#[trigger] r.0@[i]).size == entries@[at[i]].file_size
                && r.0@[i].name@ == entries@[at[i]].name@ && !r.0@[i].is_dir
                && r.0@[i].children@.len() == 0 && r.0@[i].file_count == 1 && r.0@[i].dir_count
                == 0,
{
    let views = entry_views(entries@);
    let n = entries@.len() as int;
    let at = lemma_counted(entries@, old(ctx)@, n);
    assert(views.take(n) =~= views);
    let made = counted_files(views, old(ctx)@).map_values(|e: EntryView| file_node(e));
    assert(nodes_of(r.0@) == made);
    assert forall|i: int| 0 <= i < at.len() implies (#[trigger] r.0@[i]).size
        == entries@[at[i]].file_size && r.0@[i].name@ == entries@[at[i]].name@ && !r.0@[i].is_dir
        && r.0@[i].children@.len() == 0 && r.0@[i].file_count == 1 && r.0@[i].dir_count == 0 by {
        assert(nodes_of(r.0@)[i] == r.0@[i]@);
        assert(made[i] == file_node(entries@[at[i]]@));
        assert(r.0@[i]@.children.len() == r.0@[i].children@.len());
    }
    at
}

/// A scan goes into each folder that is not left out, in their order, and into no other.
pub proof fn a_scan_goes_into_the_folders_that_are_not_left_out(
    ctx: &mut ScanCtx,
    entries: Vec<DirEntry>,
    parent: Option<&str>,
    excluded: &[String],
    r: (Vec<FileNode>, Vec<DirEntry>),
) -> (at: Seq<int>)
    requires
        call_ensures(ScanCtx::take_entries, (ctx, entries, parent, excluded), r),
    ensures
        picks(
            at,
            entries@.len(),
            |k: int|
                is_open_folder(
                    entries@,
                    match parent {
                        Some(t) => Some(t@),
                        None => None,
                    },
                    excluded@,
                    k,
                ),
        ),
        r.1@.len() == at.len(),
        forall|i: int|
            0 <= i < at.len() ==> (#[trigger] r.1@[i]).name@ == entries@[at[i]].name@
                && r.1@[i].is_dir && r.1@[i].devid == entries@[at[i]].devid && r.1@[i].fileid
                == entries@[at[i]].fileid && r.1@[i].file_size == entries@[at[i]].file_size,
        final(ctx)@.excluded_hit <==> old(ctx)@.excluded_hit || exists|k: int|
            0 <= k < entries@.len() && (#[trigger] entries@[k]).is_dir && !at.contains(k),
{
    let views = entry_views(entries@);
    let n = entries@.len() as int;
    let up = match parent {
        Some(t) => Some(t@),
        None => None,
    };
    let at = lemma_open(entries@, up, excluded@, n);
    assert(views.take(n) =~= views);
    assert forall|i: int| 0 <= i < at.len() implies (#[trigger] r.1@[i]).name@
        == entries@[at[i]].name@ && r.1@[i].is_dir && r.1@[i].devid == entries@[at[i]].devid
        && r.1@[i].fileid == entries@[at[i]].fileid && r.1@[i].file_size
        == entries@[at[i]].file_size by {
        assert(entry_views(r.1@)[i] == r.1@[i]@);
        assert(open_folders(views, up, excluded@)[i] == entries@[at[i]]@);
    }
    assert(entry_views(r.1@).len() == at.len());
    let p = |k: int| is_open_folder(entries@, up, excluded@, k);
    assert forall|k: int| 0 <= k < n && (#[trigger] entries@[k]).is_dir implies !at.contains(k)
        == folder_excluded(views[k], up, excluded@) by {
        assert(p(k) == !folder_excluded(views[k], up, excluded@));
    }
    if any_excluded(views, up, excluded@) {
        let k = choose|k: int|
            0 <= k < views.len() && (#[trigger] views[k]).is_dir && folder_excluded(
                views[k],
                up,
                excluded@,
            );
        assert(entries@[k].is_dir && !at.contains(k));
    }
    if exists|k: int| 0 <= k < n && (#[trigger] entries@[k]).is_dir && !at.contains(k) {
        let k = choose|k: int| 0 <= k < n && (#[trigger] entries@[k]).is_dir && !at.contains(k);
        assert(views[k].is_dir);
    }
    at
}

/// After entries were taken, those of their files that count and can be told are seen; what
/// a scan is asked to do stays as it was.
pub proof fn files_that_were_counted_are_seen(
    ctx: &mut ScanCtx,
    entries: Vec<DirEntry>,
    parent: Option<&str>,
    excluded: &[String],
    r: (Vec<FileNode>, Vec<DirEntry>),
    key: (u32, u64),
)
    requires
        call_ensures(ScanCtx::take_entries, (ctx, entries, parent, excluded), r),
    ensures
        final(ctx)@.seen_files.contains(key) <==> old(ctx)@.seen_files.contains(key) || (old(
            ctx,
        )@.skip_duplicates && exists|j: int|
            0 <= j < entries@.len() && is_large_file(
                entries@,
                old(ctx)@.min_file_size_bytes,
                j,
            ) && (#[trigger] entries@[j]).fileid != 0 && entries@[j].devid == key.0
                && entries@[j].fileid == key.1),
        final(ctx)@.seen_dirs == old(ctx)@.seen_dirs,
        final(ctx)@.skip_duplicates == old(ctx)@.skip_duplicates,
        final(ctx)@.min_file_size_bytes == old(ctx)@.min_file_size_bytes,
        final(ctx)@.denied == old(ctx)@.denied,
{
    let views = entry_views(entries@);
    lemma_seen(entries@, old(ctx)@, entries@.len() as int, key);
    assert(views.take(entries@.len() as int) =~= views);
}

/// A scan begins with nothing seen, and with what it was asked to do.
pub proof fn a_scan_begins_with_nothing_seen(skip_duplicates: bool, floor: u64, r: ScanCtx)
    requires
        call_ensures(ScanCtx::new, (skip_duplicates, floor), r),
    ensures
        r@.skip_duplicates == skip_duplicates,
        r@.min_file_size_bytes == floor,
        forall|key: (u32, u64)| !r@.seen_files.contains(key) && !r@.seen_dirs.contains(key),
        r@.denied == 0,
        !r@.excluded_hit,
{
}

/// The numbers that some nodes have cached.
pub open spec fn sizes(s: Seq<FileNode>) -> Seq<nat> {
    s.map_values(|n: FileNode| n.size as nat)
}

pub open spec fn file_counts(s: Seq<FileNode>) -> Seq<nat> {
    s.map_values(|n: FileNode| n.file_count as nat)
}

pub open spec fn dir_counts(s: Seq<FileNode>) -> Seq<nat> {
    s.map_values(|n: FileNode| n.dir_count as nat)
}

/// A count as it is cached: held at the highest one that can be.
pub open spec fn cached(n: nat, r: u32) -> bool {
    r == n || (r == u32::MAX && n > u32::MAX)
}

pub proof fn lemma_sums_of(s: Seq<FileNode>)
    ensures
        sum_sizes(nodes_of(s)) == sum(sizes(s)),
        sum_files(nodes_of(s)) == sum(file_counts(s)),
        sum_dirs(nodes_of(s)) == sum(dir_counts(s)),
    decreases s.len(),
{
    if s.len() > 0 {
        let t = s.drop_last();
        lemma_sums_of(t);
        assert(nodes_of(s).drop_last() =~= nodes_of(t));
        assert(nodes_of(s).last() == s.last()@);
        assert(sizes(s).drop_last() =~= sizes(t));
        assert(file_counts(s).drop_last() =~= file_counts(t));
        assert(dir_counts(s).drop_last() =~= dir_counts(t));
        lemma_sum_last(sizes(s));
        lemma_sum_last(file_counts(s));
        lemma_sum_last(dir_counts(s));
    }
}

/// A directory has the bytes of its files and folders, one file for each of its files and
/// those of its folders, itself and the directories of its folders, and them as its
/// children, larger ones first.
pub proof fn a_directory_adds_up_what_is_in_it(
    name: String,
    files: Vec<FileNode>,
    dirs: Vec<FileNode>,
    r: FileNode,
)
    requires
        call_ensures(assemble_dir, (name, files, dirs), r),
    ensures
        r.name@ == name@,
        r.is_dir,
        r.size == sum(sizes(files@)) + sum(sizes(dirs@)),
        cached(files@.len() + sum(file_counts(dirs@)), r.file_count),
        cached(1 + sum(dir_counts(dirs@)), r.dir_count),
        nodes_of(r.children@).to_multiset() == nodes_of(files@ + dirs@).to_multiset(),
        forall|i: int, j: int|
            0 <= i <= j < r.children@.len() ==> (#[trigger] r.children@[i]).size >= (
            #[trigger] r.children@[j]).size,
{
    lemma_sums_of(files@);
    lemma_sums_of(dirs@);
    assert(nodes_of(files@ + dirs@) =~= nodes_of(files@) + nodes_of(dirs@));
    assert(r@.name == r.name@ && r@.size == r.size);
    assert forall|i: int, j: int| 0 <= i <= j < r.children@.len() implies (
    #[trigger] r.children@[i]).size >= (#[trigger] r.children@[j]).size by {
        assert(r@.children[i] == r.children@[i]@);
        assert(r@.children[j] == r.children@[j]@);
    }
}

/// The bytes of a directory without folders are those of the entries that count.
pub proof fn a_scanned_directory_has_the_bytes_of_its_entries(
    ctx: &mut ScanCtx,
    entries: Vec<DirEntry>,
    parent: Option<&str>,
    excluded: &[String],
    r: (Vec<FileNode>, Vec<DirEntry>),
    name: String,
    dirs: Vec<FileNode>,
    n: FileNode,
) -> (at: Seq<int>)
    requires
        call_ensures(ScanCtx::take_entries, (ctx, entries, parent, excluded), r),
        call_ensures(assemble_dir, (name, r.0, dirs), n),
    ensures
        picks(
            at,
            entries@.len(),
            |k: int|
                counts(
                    entries@,
                    old(ctx)@.skip_duplicates,
                    old(ctx)@.min_file_size_bytes,
                    old(ctx)@.seen_files,
                    k,
                ),
        ),
        n.size == sum(at.map_values(|k: int| entries@[k].file_size as nat)) + sum(sizes(dirs@)),
        cached(at.len() + sum(file_counts(dirs@)), n.file_count),
{
    let at = scanned_files_have_the_names_and_sizes_of_their_entries(
        ctx,
        entries,
        parent,
        excluded,
        r,
    );
    a_directory_adds_up_what_is_in_it(name, r.0, dirs, n);
    assert(sizes(r.0@) =~= at.map_values(|k: int| entries@[k].file_size as nat)) by {
        assert forall|i: int| 0 <= i < at.len() implies sizes(r.0@)[i] == entries@[at[i]].file_size
            by {
            assert(r.0@[i].size == entries@[at[i]].file_size);
        }
    }
    at
}

/// Whether sizes can be added up is told by their sum.
pub proof fn sizes_fit_if_their_sum_does(files: &Vec<FileNode>, dirs: &Vec<FileNode>, r: bool)
    requires
        call_ensures(sizes_fit, (files, dirs), r),
    ensures
        r == (sum(sizes(files@)) + sum(sizes(dirs@)) <= u64::MAX),
{
    lemma_sums_of(files@);
    lemma_sums_of(dirs@);
}

/// A scan that was stopped goes into no folder, one that was not into every folder.
pub proof fn a_stop_keeps_a_scan_from_going_on(stopped: bool, folder: &DirEntry, r: bool)
    requires
        call_ensures(goes_into, (stopped, folder), r),
    ensures
        r ==> !stopped && folder.is_dir,
        !stopped && folder.is_dir ==> r,
{
}

/// A directory that cannot be opened is counted, and has its place in the tree. One that can
/// be has its place unless duplicates are skipped and it was come to before; after that it
/// was.
pub proof fn a_directory_has_its_place_once(
    ctx: &mut ScanCtx,
    opened: bool,
    identity: Option<(u32, u64)>,
    r: bool,
    key: (u32, u64),
)
    requires
        call_ensures(ScanCtx::enter_dir, (ctx, opened, identity), r),
    ensures
        !opened ==> r,
        !opened && old(ctx)@.denied < u64::MAX ==> final(ctx)@.denied == old(ctx)@.denied + 1,
        !opened && old(ctx)@.denied == u64::MAX ==> final(ctx)@.denied == 0,
        opened ==> final(ctx)@.denied == old(ctx)@.denied,
        !r <==> opened && old(ctx)@.skip_duplicates && identity is Some && old(
            ctx,
        )@.seen_dirs.contains(identity->0),
        final(ctx)@.seen_dirs.contains(key) <==> old(ctx)@.seen_dirs.contains(key) || (opened
            && old(ctx)@.skip_duplicates && identity == Some(key)),
        final(ctx)@.seen_files == old(ctx)@.seen_files,
        final(ctx)@.skip_duplicates == old(ctx)@.skip_duplicates,
        final(ctx)@.min_file_size_bytes == old(ctx)@.min_file_size_bytes,
        final(ctx)@.excluded_hit == old(ctx)@.excluded_hit,
{
}

/// The second time that a scan which skips duplicates comes to a directory, it leaves it
/// out.
pub proof fn a_directory_is_left_out_the_second_time(
    first: &mut ScanCtx,
    second: &mut ScanCtx,
    key: (u32, u64),
    a: bool,
    b: bool,
)
    requires
        call_ensures(ScanCtx::enter_dir, (first, true, Some(key)), a),
        *final(first) == *old(second),
        call_ensures(ScanCtx::enter_dir, (second, true, Some(key)), b),
        old(first)@.skip_duplicates,
    ensures
        !b,
{
}

/// The second time that a file is registered it was seen, where duplicates are skipped and
/// the file can be told; else it never was.
pub proof fn a_file_is_registered_once(
    first: &mut ScanCtx,
    second: &mut ScanCtx,
    devid: u32,
    fileid: u64,
    a: bool,
    b: bool,
)
    requires
        call_ensures(ScanCtx::try_register_file, (first, devid, fileid), a),
        *final(first) == *old(second),
        call_ensures(ScanCtx::try_register_file, (second, devid, fileid), b),
    ensures
        old(first)@.skip_duplicates && fileid != 0 ==> !b && a == !old(
            first,
        )@.seen_files.contains((devid, fileid)),
        !(old(first)@.skip_duplicates && fileid != 0) ==> a && b,
        final(second)@.seen_dirs == old(first)@.seen_dirs,
{
}

/// A directory is registered once in the same way.
pub proof fn a_directory_is_registered_once(
    first: &mut ScanCtx,
    second: &mut ScanCtx,
    identity: Option<(u32, u64)>,
    a: bool,
    b: bool,
)
    requires
        call_ensures(ScanCtx::try_register_dir, (first, identity), a),
        *final(first) == *old(second),
        call_ensures(ScanCtx::try_register_dir, (second, identity), b),
    ensures
        old(first)@.skip_duplicates && identity is Some ==> !b && a == !old(
            first,
        )@.seen_dirs.contains(identity->0),
        !(old(first)@.skip_duplicates && identity is Some) ==> a && b,
        final(second)@.seen_files == old(first)@.seen_files,
{
}

/// What is registered is seen from then on, where duplicates are skipped and it can be told,
/// and nothing else comes to be.
pub proof fn registering_adds_one_to_what_was_seen(
    f: &mut ScanCtx,
    devid: u32,
    fileid: u64,
    a: bool,
    d: &mut ScanCtx,
    identity: Option<(u32, u64)>,
    b: bool,
    key: (u32, u64),
)
    requires
        call_ensures(ScanCtx::try_register_file, (f, devid, fileid), a),
        call_ensures(ScanCtx::try_register_dir, (d, identity), b),
    ensures
        final(f)@.seen_files.contains(key) <==> old(f)@.seen_files.contains(key) || (old(
            f,
        )@.skip_duplicates && fileid != 0 && key == (devid, fileid)),
        final(f)@.seen_dirs == old(f)@.seen_dirs,
        final(f)@.skip_duplicates == old(f)@.skip_duplicates,
        final(f)@.min_file_size_bytes == old(f)@.min_file_size_bytes,
        final(f)@.denied == old(f)@.denied,
        final(f)@.excluded_hit == old(f)@.excluded_hit,
        final(d)@.seen_dirs.contains(key) <==> old(d)@.seen_dirs.contains(key) || (old(
            d,
        )@.skip_duplicates && identity == Some(key)),
        final(d)@.seen_files == old(d)@.seen_files,
        final(d)@.skip_duplicates == old(d)@.skip_duplicates,
        final(d)@.min_file_size_bytes == old(d)@.min_file_size_bytes,
        final(d)@.denied == old(d)@.denied,
        final(d)@.excluded_hit == old(d)@.excluded_hit,
{
}

/// The tree of a scan has its root and its statistics, those with more bytes first. Its
/// sizes are approximate exactly if the scan had a floor, left a folder out, or could not
/// open one.
pub proof fn a_scan_says_when_its_sizes_are_approximate(
    root: FileNode,
    root_path: String,
    table: ExtTable,
    ctx: &ScanCtx,
    r: FileTree,
)
    requires
        call_ensures(FileTree::from_scan, (root, root_path, table, ctx), r),
    ensures
        r.root == root,
        r.root_path@ == root_path@,
        r.permission_denied == ctx@.denied,
        r.size_approximate <==> ctx@.min_file_size_bytes != 0 || ctx@.excluded_hit || ctx@.denied
            != 0,
        forall|i: int, j: int|
            0 <= i <= j < r.extensions@.len() ==> (#[trigger] r.extensions@[i]).bytes >= (
            #[trigger] r.extensions@[j]).bytes,
        forall|i: int|
            0 <= i < r.extensions@.len() ==> table@.contains_key((#[trigger] r.extensions@[i]).ext@)
                && table@[r.extensions@[i].ext@] == (
                r.extensions@[i].bytes,
                r.extensions@[i].count,
            ),
        forall|i: int, j: int|
            0 <= i < j < r.extensions@.len() ==> (#[trigger] r.extensions@[i]).ext@ != (
            #[trigger] r.extensions@[j]).ext@,
        forall|k: Seq<char>| #[trigger]
            table@.contains_key(k) ==> exists|i: int|
                0 <= i < r.extensions@.len() && (#[trigger] r.extensions@[i]).ext@ == k,
{
    assert forall|i: int, j: int| 0 <= i <= j < r.extensions@.len() implies (
    #[trigger] r.extensions@[i]).bytes >= (#[trigger] r.extensions@[j]).bytes by {
        assert(r.extensions@[i].rank() >= r.extensions@[j].rank());
    }
}

} // verus!
