//! What a refresh makes of a directory.

use vstd::prelude::*;

use crate::laws::paths::{leads_alike, lemma_same_path};
use crate::laws::scan::cached;
use crate::laws::words::{lemma_sum_last, sum};
use crate::model::node::{nodes_of, FileNode, Node};
use crate::model::refresh::{fate, last_named, Fate, RefreshDir, RefreshStep};
use crate::model::scan::{entry_views, DirEntry, EntryView};
use crate::model::totals::{sum_dirs, sum_files, sum_sizes};
use crate::path::joined;

verus! {

broadcast use crate::model::node::group_nodes;

/// Whether the entry at `k` is the one of that name, the last if there are several.
pub open spec fn is_named(entries: Seq<EntryView>, name: Seq<char>, k: int) -> bool {
    &&& 0 <= k < entries.len()
    &&& entries[k].name == name
    &&& forall|j: int| k < j < entries.len() ==> (#[trigger] entries[j]).name != name
}

/// Whether there is no entry of that name.
pub open spec fn is_gone(entries: Seq<EntryView>, name: Seq<char>) -> bool {
    forall|j: int| 0 <= j < entries.len() ==> (#[trigger] entries[j]).name != name
}

/// Whether the folder of that name in the directory at `path` is to be left out.
pub open spec fn is_left_out(path: Seq<char>, name: Seq<char>, excluded: Seq<String>) -> bool {
    exists|i: int|
        0 <= i < excluded.len() && leads_alike(joined(path, name), #[trigger] excluded[i]@)
}

proof fn lemma_last_named(entries: Seq<EntryView>, name: Seq<char>)
    ensures
        last_named(entries, name) is None ==> is_gone(entries, name),
        last_named(entries, name) is Some ==> exists|k: int|
            #[trigger] is_named(entries, name, k) && last_named(entries, name) == Some(entries[k]),
        forall|k: int| #[trigger]
            is_named(entries, name, k) ==> last_named(entries, name) == Some(entries[k]),
        is_gone(entries, name) ==> last_named(entries, name) is None,
    decreases entries.len(),
{
    if entries.len() > 0 {
        let rest = entries.drop_last();
        let n = entries.len() - 1;
        lemma_last_named(rest, name);
        if entries[n].name == name {
            assert(is_named(entries, name, n));
            assert forall|k: int| #[trigger] is_named(entries, name, k) implies last_named(
                entries,
                name,
            ) == Some(entries[k]) by {
                if k < n {
                    assert(entries[n].name != name);
                }
            }
        } else {
            assert forall|k: int| #[trigger] is_named(entries, name, k) implies is_named(
                rest,
                name,
                k,
            ) by {
                assert forall|j: int| k < j < rest.len() implies (#[trigger] rest[j]).name
                    != name by {
                    assert(rest[j] == entries[j]);
                }
            }
            if last_named(rest, name) is Some {
                let k = choose|k: int| #[trigger]
                    is_named(rest, name, k) && last_named(rest, name) == Some(rest[k]);
                assert forall|j: int| k < j < entries.len() implies (#[trigger] entries[j]).name
                    != name by {
                    if j < n {
                        assert(rest[j] == entries[j]);
                    }
                }
                assert(is_named(entries, name, k));
            } else {
                assert forall|j: int| 0 <= j < entries.len() implies (#[trigger] entries[j]).name
                    != name by {
                    if j < n {
                        assert(rest[j] == entries[j]);
                    }
                }
            }
            if is_gone(entries, name) {
                assert forall|j: int| 0 <= j < rest.len() implies (#[trigger] rest[j]).name
                    != name by {
                    assert(rest[j] == entries[j]);
                }
            }
        }
    }
}

proof fn lemma_left_out(path: Seq<char>, name: Seq<char>, excluded: Seq<String>)
    ensures
        crate::path::is_excluded_path(joined(path, name), excluded) == is_left_out(
            path,
            name,
            excluded,
        ),
{
    assert forall|i: int| 0 <= i < excluded.len() implies crate::path::same_path(
        joined(path, name),
        #[trigger] excluded[i]@,
    ) == leads_alike(joined(path, name), excluded[i]@) by {
        lemma_same_path(joined(path, name), excluded[i]@);
    }
}

/// What becomes of a child is decided by the entry of its name: without one, or with one of
/// the other kind, it is dropped; a file has the size that the entry has; a folder is gone
/// into unless it is to be left out.
pub proof fn the_entry_of_its_name_decides_on_a_child(
    c: Node,
    entries: Seq<EntryView>,
    path: Seq<char>,
    excluded: Seq<String>,
    k: int,
)
    ensures
        is_gone(entries, c.name) ==> fate(c, entries, path, excluded) is Dropped,
        is_named(entries, c.name, k) && entries[k].is_dir != c.is_dir ==> fate(
            c,
            entries,
            path,
            excluded,
        ) is Dropped,
        is_named(entries, c.name, k) && !entries[k].is_dir && !c.is_dir ==> fate(
            c,
            entries,
            path,
            excluded,
        ) == Fate::Resized(entries[k].file_size),
        is_named(entries, c.name, k) && entries[k].is_dir && c.is_dir ==> (fate(
            c,
            entries,
            path,
            excluded,
        ) is Dropped <==> is_left_out(path, c.name, excluded)) && (fate(
            c,
            entries,
            path,
            excluded,
        ) is Entered <==> !is_left_out(path, c.name, excluded)),
{
    lemma_last_named(entries, c.name);
    lemma_left_out(path, c.name, excluded);
}

/// A refresh begins with the children that the directory has, and with the entries as they
/// were read.
pub proof fn a_refresh_begins_with_all_children(
    node: &mut FileNode,
    entries: Vec<DirEntry>,
    r: RefreshDir,
    i: int,
)
    requires
        call_ensures(RefreshDir::begin, (node, entries), r),
    ensures
        r@.todo == old(node)@.children,
        r@.kept.len() == 0,
        !r@.stopped,
        r@.entries.len() == entries@.len(),
        0 <= i < entries@.len() ==> r@.entries[i].name == entries@[i].name@ && r@.entries[i].is_dir
            == entries@[i].is_dir && r@.entries[i].file_size == entries@[i].file_size,
        final(node).name@ == old(node).name@,
        final(node).is_dir == old(node).is_dir,
        final(node).children@.len() == 0,
{
    assert(final(node)@.children.len() == final(node).children@.len());
    assert(final(node)@.name == final(node).name@ && old(node)@.name == old(node).name@);
    if 0 <= i < entries@.len() {
        assert(entry_views(entries@)[i] == entries@[i]@);
    }
}

/// A file that is still there stays, with the size that it has now, be it more or less than
/// before.
pub proof fn a_file_that_is_there_gets_its_size_now(
    run: &mut RefreshDir,
    stop: bool,
    path: &str,
    excluded: &[String],
    r: RefreshStep,
    k: int,
)
    requires
        call_ensures(RefreshDir::step, (run, stop, path, excluded), r),
        old(run)@.todo.len() > 0,
        !stop,
        !old(run)@.stopped,
        !old(run)@.todo[0].is_dir,
        is_named(old(run)@.entries, old(run)@.todo[0].name, k),
        !old(run)@.entries[k].is_dir,
    ensures
        r is FileSeen,
        final(run)@.kept.len() == old(run)@.kept.len() + 1,
        final(run)@.kept.drop_last() == old(run)@.kept,
        final(run)@.kept.last().size == old(run)@.entries[k].file_size,
        final(run)@.kept.last().name == old(run)@.todo[0].name,
        !final(run)@.kept.last().is_dir,
        final(run)@.kept.last().file_count == old(run)@.todo[0].file_count,
        final(run)@.kept.last().dir_count == old(run)@.todo[0].dir_count,
        final(run)@.kept.last().children == old(run)@.todo[0].children,
        final(run)@.todo == old(run)@.todo.drop_first(),
        final(run)@.entries == old(run)@.entries,
        !final(run)@.stopped,
{
    lemma_last_named(old(run)@.entries, old(run)@.todo[0].name);
    let c = old(run)@.todo[0];
    assert(final(run)@.kept.drop_last() =~= old(run)@.kept);
}

/// A child is dropped exactly if there is no entry of its name, or one of the other kind, or
/// it is a folder that is to be left out.
pub proof fn a_child_that_is_gone_is_dropped(
    run: &mut RefreshDir,
    stop: bool,
    path: &str,
    excluded: &[String],
    r: RefreshStep,
)
    requires
        call_ensures(RefreshDir::step, (run, stop, path, excluded), r),
        old(run)@.todo.len() > 0,
        !stop,
        !old(run)@.stopped,
    ensures
        r is Dropped <==> is_gone(old(run)@.entries, old(run)@.todo[0].name) || (exists|k: int|
            #[trigger] is_named(old(run)@.entries, old(run)@.todo[0].name, k) && old(
                run,
            )@.entries[k].is_dir != old(run)@.todo[0].is_dir) || (old(run)@.todo[0].is_dir
            && is_left_out(path@, old(run)@.todo[0].name, excluded@)),
        r is Dropped ==> final(run)@.kept == old(run)@.kept,
        final(run)@.todo == old(run)@.todo.drop_first(),
        final(run)@.entries == old(run)@.entries,
        !final(run)@.stopped,
{
    let c = old(run)@.todo[0];
    let entries = old(run)@.entries;
    lemma_last_named(entries, c.name);
    lemma_left_out(path@, c.name, excluded@);
    if last_named(entries, c.name) is Some {
        let k = choose|k: int| #[trigger]
            is_named(entries, c.name, k) && last_named(entries, c.name) == Some(entries[k]);
        assert(is_named(entries, c.name, k));
        assert(!is_gone(entries, c.name)) by {
            assert(entries[k].name == c.name);
        }
    }
}

/// A folder that is still there, and not to be left out, is handed out as it is, with its
/// path, to be gone into.
pub proof fn a_folder_that_is_there_is_gone_into(
    run: &mut RefreshDir,
    stop: bool,
    path: &str,
    excluded: &[String],
    r: RefreshStep,
    k: int,
)
    requires
        call_ensures(RefreshDir::step, (run, stop, path, excluded), r),
        old(run)@.todo.len() > 0,
        !stop,
        !old(run)@.stopped,
        old(run)@.todo[0].is_dir,
        is_named(old(run)@.entries, old(run)@.todo[0].name, k),
        old(run)@.entries[k].is_dir,
        !is_left_out(path@, old(run)@.todo[0].name, excluded@),
    ensures
        r is Enter,
        r->Enter_0@ == old(run)@.todo[0],
        r->Enter_1@ == joined(path@, old(run)@.todo[0].name),
        final(run)@.kept == old(run)@.kept,
        final(run)@.todo == old(run)@.todo.drop_first(),
        final(run)@.entries == old(run)@.entries,
{
    lemma_last_named(old(run)@.entries, old(run)@.todo[0].name);
    lemma_left_out(path@, old(run)@.todo[0].name, excluded@);
}

/// Once it was stopped, a refresh keeps every child as it is. Without a child left there is
/// nothing to do.
pub proof fn a_stopped_refresh_keeps_a_child_as_it_is(
    run: &mut RefreshDir,
    stop: bool,
    path: &str,
    excluded: &[String],
    r: RefreshStep,
)
    requires
        call_ensures(RefreshDir::step, (run, stop, path, excluded), r),
    ensures
        old(run)@.todo.len() > 0 && (stop || old(run)@.stopped) ==> {
            &&& r is Carried
            &&& final(run)@.stopped
            &&& final(run)@.kept == old(run)@.kept.push(old(run)@.todo[0])
            &&& final(run)@.todo == old(run)@.todo.drop_first()
            &&& final(run)@.entries == old(run)@.entries
        },
        old(run)@.todo.len() == 0 ==> r is Done && final(run)@ == old(run)@,
        r is Done ==> old(run)@.todo.len() == 0,
{
}

/// A folder that is brought back is kept as it came.
pub proof fn a_folder_that_is_brought_back_is_kept(run: &mut RefreshDir, child: FileNode)
    requires
        call_ensures(RefreshDir::resume, (run, child), ()),
    ensures
        final(run)@.kept == old(run)@.kept.push(child@),
        final(run)@.todo == old(run)@.todo,
        final(run)@.entries == old(run)@.entries,
        final(run)@.stopped == old(run)@.stopped,
{
}

/// The numbers that some nodes have cached.
pub open spec fn node_sizes(s: Seq<Node>) -> Seq<nat> {
    s.map_values(|n: Node| n.size as nat)
}

pub open spec fn node_file_counts(s: Seq<Node>) -> Seq<nat> {
    s.map_values(|n: Node| n.file_count as nat)
}

pub open spec fn node_dir_counts(s: Seq<Node>) -> Seq<nat> {
    s.map_values(|n: Node| n.dir_count as nat)
}

proof fn lemma_node_sums(s: Seq<Node>)
    ensures
        sum_sizes(s) == sum(node_sizes(s)),
        sum_files(s) == sum(node_file_counts(s)),
        sum_dirs(s) == sum(node_dir_counts(s)),
    decreases s.len(),
{
    if s.len() > 0 {
        let t = s.drop_last();
        lemma_node_sums(t);
        assert(node_sizes(s).drop_last() =~= node_sizes(t));
        assert(node_file_counts(s).drop_last() =~= node_file_counts(t));
        assert(node_dir_counts(s).drop_last() =~= node_dir_counts(t));
        lemma_sum_last(node_sizes(s));
        lemma_sum_last(node_file_counts(s));
        lemma_sum_last(node_dir_counts(s));
    }
}

/// After its refresh a directory has the children that stay, larger ones first, and adds up
/// to what they add up to. It keeps its name and kind.
pub proof fn a_refreshed_directory_adds_up_what_stays(run: RefreshDir, node: &mut FileNode)
    requires
        call_ensures(RefreshDir::finish, (run, node), ()),
    ensures
        final(node).size == sum(node_sizes(run@.kept)),
        cached(sum(node_file_counts(run@.kept)), final(node).file_count),
        cached(1 + sum(node_dir_counts(run@.kept)), final(node).dir_count),
        nodes_of(final(node).children@).to_multiset() == run@.kept.to_multiset(),
        forall|i: int, j: int|
            0 <= i <= j < final(node).children@.len() ==> (#[trigger] final(
                node).children@[i]).size >= (#[trigger] final(node).children@[j]).size,
        final(node).name@ == old(node).name@,
        final(node).is_dir == old(node).is_dir,
{
    lemma_node_sums(run@.kept);
    let n = *final(node);
    assert(n@.name == n.name@ && n@.size == n.size && n@.children == nodes_of(n.children@));
    assert(old(node)@.name == old(node).name@);
    assert forall|i: int, j: int| 0 <= i <= j < n.children@.len() implies (
    #[trigger] n.children@[i]).size >= (#[trigger] n.children@[j]).size by {
        assert(n@.children[i] == n.children@[i]@);
        assert(n@.children[j] == n.children@[j]@);
    }
}

/// A refresh fits if the sum of what stays does.
pub proof fn a_refresh_fits_if_the_sum_does(run: &RefreshDir, r: bool)
    requires
        call_ensures(RefreshDir::fits, (run,), r),
    ensures
        r == (sum(node_sizes(run@.kept)) <= u64::MAX),
{
    lemma_node_sums(run@.kept);
}

/// There is something to refresh in a directory with children, unless it is to stop.
pub proof fn a_directory_with_children_is_refreshed(n: &FileNode, cancelled: bool, r: bool)
    requires
        call_ensures(FileNode::needs_refresh, (n, cancelled), r),
    ensures
        r <==> !cancelled && n.children@.len() > 0,
{
}

} // verus!
