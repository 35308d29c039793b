//! What the statistics say of the files.

use vstd::prelude::*;

use crate::laws::totals::{a_total_is_the_sum_over_the_children, totals_of};
use crate::laws::words::{lemma_sum_last, sum};
use crate::model::extensions::{
    can_be_merged, has_room_for_all, label_for, name_label, tally, ExtTable,
};
use crate::model::node::{nodes_of, FileNode};
use crate::model::totals::{ext_label, total, total_all, Measure};
use crate::model::tree::{
    last_index, name_extension, node_extension, raw_extension, ExtStat, FileTree,
};
use crate::ranking::Ranked;

verus! {

broadcast use crate::model::node::group_nodes;

/// The text that stands for files without an extension.
pub open spec fn no_extension() -> Seq<char> {
    seq!['(', 'n', 'o', ' ', 'e', 'x', 't', ')']
}

proof fn lemma_last_dot(s: Seq<char>)
    ensures
        -1 <= last_index(s, '.') < s.len(),
        last_index(s, '.') >= 0 ==> s[last_index(s, '.')] == '.',
        forall|i: int| last_index(s, '.') < i < s.len() ==> s[i] != '.',
    decreases s.len(),
{
    if s.len() > 0 && s.last() != '.' {
        lemma_last_dot(s.drop_last());
        assert forall|i: int| last_index(s, '.') < i < s.len() implies s[i] != '.' by {
            if i < s.len() - 1 {
                assert(s[i] == s.drop_last()[i]);
            }
        }
    }
}

pub proof fn lemma_extension(name: Seq<char>)
    ensures
        !name.contains('.') ==> name_extension(name).len() == 0,
        forall|a: Seq<char>, e: Seq<char>|
            name == #[trigger] (a.push('.') + e) && !e.contains('.') ==> name_extension(name) == e,
{
    lemma_last_dot(name);
    let k = last_index(name, '.');
    if k >= 0 {
        assert(name.contains(name[k]));
    }
    assert forall|a: Seq<char>, e: Seq<char>|
        name == #[trigger] (a.push('.') + e) && !e.contains('.') implies name_extension(name)
        == e by {
        assert(name[a.len() as int] == '.');
        if k > a.len() {
            assert(e[k - a.len() - 1] == '.');
            assert(e.contains(e[k - a.len() - 1]));
        }
        assert(k == a.len());
        assert(name.skip(k + 1) =~= e);
    }
}

/// The extension of a name is what stands after its last dot. There is none without a dot.
pub proof fn the_extension_stands_after_the_last_dot(name: &str, r: String)
    requires
        call_ensures(raw_extension, (name,), r),
    ensures
        !name@.contains('.') ==> r@.len() == 0,
        forall|a: Seq<char>, e: Seq<char>|
            name@ == #[trigger] (a.push('.') + e) && !e.contains('.') ==> r@ == e,
        r@ == name_extension(name@),
{
    lemma_extension(name@);
}

/// A file has the extension of its name, a directory has none.
pub proof fn files_have_the_extension_of_their_name(n: &FileNode, r: String)
    requires
        call_ensures(FileNode::extension, (n,), r),
    ensures
        n.is_dir ==> r@.len() == 0,
        !n.is_dir ==> r@ == name_extension(n.name@),
        node_extension(n@) == r@,
{
}

/// A file is listed under its extension, or under the text for those without one.
pub proof fn files_are_listed_under_their_extension(name: &str, r: String)
    requires
        call_ensures(label_for, (name,), r),
    ensures
        name_extension(name@).len() == 0 ==> r@ == no_extension(),
        name_extension(name@).len() > 0 ==> r@ == name_extension(name@),
        r@ == name_label(name@),
{
    reveal_strlit("(no ext)");
    assert("(no ext)"@ =~= no_extension());
}

/// The tree lists a file as its name does.
pub proof fn a_tree_lists_files_by_their_names(n: FileNode)
    requires
        !n.is_dir,
    ensures
        ext_label(n@) == name_label(n.name@),
        name_extension(n.name@).len() == 0 ==> ext_label(n@) == no_extension(),
        name_extension(n.name@).len() > 0 ==> ext_label(n@) == name_extension(n.name@),
{
    reveal_strlit("(no ext)");
    assert("(no ext)"@ =~= no_extension());
}

/// What a table has under a label.
pub open spec fn bytes_under(m: Map<Seq<char>, (u64, u64)>, k: Seq<char>) -> nat {
    if m.contains_key(k) {
        m[k].0 as nat
    } else {
        0
    }
}

pub open spec fn files_under(m: Map<Seq<char>, (u64, u64)>, k: Seq<char>) -> nat {
    if m.contains_key(k) {
        m[k].1 as nat
    } else {
        0
    }
}

/// A table begins with nothing under any label.
pub proof fn a_table_begins_empty(r: ExtTable, k: Seq<char>)
    requires
        call_ensures(ExtTable::new, (), r),
    ensures
        r.wf(),
        !r@.contains_key(k),
{
}

/// What is added under a label is under it from then on, and changes no other.
pub proof fn adding_under_a_label_changes_that_one(
    t: &mut ExtTable,
    label: &str,
    bytes: u64,
    count: u64,
    k: Seq<char>,
)
    requires
        call_ensures(ExtTable::add, (t, label, bytes, count), ()),
        bytes_under(old(t)@, label@) + bytes <= u64::MAX,
        files_under(old(t)@, label@) + count <= u64::MAX,
    ensures
        final(t)@.contains_key(label@),
        final(t)@[label@].0 == bytes_under(old(t)@, label@) + bytes,
        final(t)@[label@].1 == files_under(old(t)@, label@) + count,
        k != label@ ==> final(t)@.contains_key(k) == old(t)@.contains_key(k),
        k != label@ && old(t)@.contains_key(k) ==> final(t)@[k] == old(t)@[k],
{
}

/// There is room under a label as long as neither number overflows.
pub proof fn there_is_room_while_nothing_overflows(
    t: &ExtTable,
    label: &str,
    bytes: u64,
    count: u64,
    r: bool,
)
    requires
        call_ensures(ExtTable::has_room, (t, label, bytes, count), r),
    ensures
        r == (bytes_under(t@, label@) + bytes <= u64::MAX && files_under(t@, label@) + count
            <= u64::MAX),
{
}

/// Merging adds what the other table has under each label.
pub proof fn merging_adds_label_by_label(t: &mut ExtTable, other: ExtTable, k: Seq<char>)
    requires
        call_ensures(ExtTable::merge, (t, other), ()),
    ensures
        bytes_under(final(t)@, k) == bytes_under(old(t)@, k) + bytes_under(other@, k),
        files_under(final(t)@, k) == files_under(old(t)@, k) + files_under(other@, k),
        final(t)@.contains_key(k) <==> old(t)@.contains_key(k) || other@.contains_key(k),
{
    let _ = tally(final(t)@, k);
    assert(tally(final(t)@, k) == (bytes_under(final(t)@, k), files_under(final(t)@, k)));
    assert(tally(old(t)@, k) == (bytes_under(old(t)@, k), files_under(old(t)@, k)));
    assert(tally(other@, k) == (bytes_under(other@, k), files_under(other@, k)));
    assert(final(t)@.dom().contains(k) == (old(t)@.dom().contains(k) || other@.dom().contains(k)));
}

/// Two tables can be merged as long as no number under any label overflows.
pub proof fn tables_can_be_merged_while_nothing_overflows(t: &ExtTable, other: &ExtTable, r: bool)
    requires
        call_ensures(ExtTable::can_merge, (t, other), r),
    ensures
        r <==> forall|k: Seq<char>|
            #![trigger bytes_under(other@, k)]
            bytes_under(t@, k) + bytes_under(other@, k) <= u64::MAX && files_under(t@, k)
                + files_under(other@, k) <= u64::MAX,
{
    assert(r == can_be_merged(t@, other@));
    if forall|k: Seq<char>|
        #![trigger bytes_under(other@, k)]
        bytes_under(t@, k) + bytes_under(other@, k) <= u64::MAX && files_under(t@, k)
            + files_under(other@, k) <= u64::MAX {
        assert forall|k: Seq<char>| #[trigger] other@.contains_key(k) implies tally(t@, k).0
            + other@[k].0 <= u64::MAX && tally(t@, k).1 + other@[k].1 <= u64::MAX by {
            assert(bytes_under(other@, k) == other@[k].0);
        }
    }
}

/// The sizes of the files that are listed under a label, each in its place.
pub open spec fn sizes_under(files: Seq<FileNode>, k: Seq<char>) -> Seq<nat> {
    files.map_values(
        |f: FileNode|
            if name_label(f.name@) == k {
                f.size as nat
            } else {
                0
            },
    )
}

/// One for each file that is listed under a label.
pub open spec fn ones_under(files: Seq<FileNode>, k: Seq<char>) -> Seq<nat> {
    files.map_values(
        |f: FileNode|
            if name_label(f.name@) == k {
                1nat
            } else {
                0
            },
    )
}

proof fn lemma_plain_totals(files: Seq<FileNode>, k: Seq<char>)
    requires
        forall|i: int|
            0 <= i < files.len() ==> !(#[trigger] files[i]).is_dir && files[i].children@.len() == 0,
    ensures
        total_all(nodes_of(files), Measure::LabelBytes(k)) == sum(sizes_under(files, k)),
        total_all(nodes_of(files), Measure::LabelFiles(k)) == sum(ones_under(files, k)),
    decreases files.len(),
{
    if files.len() > 0 {
        let rest = files.drop_last();
        let f = files[files.len() - 1];
        assert forall|i: int| 0 <= i < rest.len() implies !(#[trigger] rest[i]).is_dir
            && rest[i].children@.len() == 0 by {
            assert(rest[i] == files[i]);
        }
        lemma_plain_totals(rest, k);
        assert(nodes_of(files).drop_last() =~= nodes_of(rest));
        assert(nodes_of(files).last() == f@);
        assert(sizes_under(files, k).drop_last() =~= sizes_under(rest, k));
        assert(ones_under(files, k).drop_last() =~= ones_under(rest, k));
        lemma_sum_last(sizes_under(files, k));
        lemma_sum_last(ones_under(files, k));
        a_total_is_the_sum_over_the_children(f@, Measure::LabelBytes(k));
        a_total_is_the_sum_over_the_children(f@, Measure::LabelFiles(k));
        assert(totals_of(f@.children, Measure::LabelBytes(k)) =~= Seq::empty());
        assert(totals_of(f@.children, Measure::LabelFiles(k)) =~= Seq::empty());
        a_tree_lists_files_by_their_names(f);
    }
}

/// Counting files adds the size of each, and one, under its label.
pub proof fn counting_adds_each_file_under_its_label(
    t: &mut ExtTable,
    files: &Vec<FileNode>,
    r: bool,
    k: Seq<char>,
)
    requires
        call_ensures(ExtTable::count_files, (t, files), r),
        forall|i: int|
            0 <= i < files@.len() ==> !(#[trigger] files@[i]).is_dir && files@[i].children@.len()
                == 0,
    ensures
        r ==> bytes_under(final(t)@, k) == bytes_under(old(t)@, k) + sum(
            sizes_under(files@, k),
        ),
        r ==> files_under(final(t)@, k) == files_under(old(t)@, k) + sum(ones_under(files@, k)),
        r ==> (final(t)@.contains_key(k) <==> old(t)@.contains_key(k) || sum(
            ones_under(files@, k),
        ) > 0),
        bytes_under(old(t)@, k) + sum(sizes_under(files@, k)) > u64::MAX || files_under(
            old(t)@,
            k,
        ) + sum(ones_under(files@, k)) > u64::MAX ==> !r,
{
    lemma_plain_totals(files@, k);
    assert(tally(old(t)@, k) == (bytes_under(old(t)@, k), files_under(old(t)@, k)));
    assert(tally(final(t)@, k) == (bytes_under(final(t)@, k), files_under(final(t)@, k)));
}

/// There is room for files if no label overflows.
pub proof fn there_is_room_for_files_while_nothing_overflows(
    t: &mut ExtTable,
    files: &Vec<FileNode>,
    r: bool,
)
    requires
        call_ensures(ExtTable::count_files, (t, files), r),
        forall|i: int|
            0 <= i < files@.len() ==> !(#[trigger] files@[i]).is_dir && files@[i].children@.len()
                == 0,
        forall|l: Seq<char>|
            #![trigger sizes_under(files@, l)]
            bytes_under(old(t)@, l) + sum(sizes_under(files@, l)) <= u64::MAX && files_under(
                old(t)@,
                l,
            ) + sum(ones_under(files@, l)) <= u64::MAX,
    ensures
        r,
{
    assert forall|l: Seq<char>|
        #![trigger total_all(nodes_of(files@), Measure::LabelBytes(l))]
        #![trigger total_all(nodes_of(files@), Measure::LabelFiles(l))]
        tally(old(t)@, l).0 + total_all(nodes_of(files@), Measure::LabelBytes(l)) <= u64::MAX
            && tally(old(t)@, l).1 + total_all(nodes_of(files@), Measure::LabelFiles(l))
            <= u64::MAX by {
        lemma_plain_totals(files@, l);
        let _ = sizes_under(files@, l);
    }
    assert(has_room_for_all(old(t)@, nodes_of(files@)));
}

/// Collecting a tree adds the bytes and files that it has under each label.
pub proof fn collecting_adds_what_a_tree_has(t: &mut ExtTable, n: &FileNode, k: Seq<char>)
    requires
        call_ensures(ExtTable::collect_extensions, (t, n), ()),
    ensures
        bytes_under(final(t)@, k) == bytes_under(old(t)@, k) + total(n@, Measure::LabelBytes(k)),
        files_under(final(t)@, k) == files_under(old(t)@, k) + total(n@, Measure::LabelFiles(k)),
        final(t)@.contains_key(k) <==> old(t)@.contains_key(k) || total(
            n@,
            Measure::LabelFiles(k),
        ) > 0,
{
    assert(tally(old(t)@, k) == (bytes_under(old(t)@, k), files_under(old(t)@, k)));
    assert(tally(final(t)@, k) == (bytes_under(final(t)@, k), files_under(final(t)@, k)));
}

/// Whether those with more bytes come first.
pub open spec fn more_bytes_first(v: Seq<ExtStat>) -> bool {
    forall|i: int, j: int|
        0 <= i <= j < v.len() ==> (#[trigger] v[i]).bytes >= (#[trigger] v[j]).bytes
}

/// The statistics of a table list each of its labels once, with what it has under it, those
/// with more bytes first.
pub proof fn statistics_list_a_table_by_bytes(t: ExtTable, r: Vec<ExtStat>)
    requires
        call_ensures(ExtTable::into_stats, (t,), r),
    ensures
        more_bytes_first(r@),
        forall|i: int|
            0 <= i < r@.len() ==> t@.contains_key((#[trigger] r@[i]).ext@) && t@[r@[i].ext@].0
                == r@[i].bytes && t@[r@[i].ext@].1 == r@[i].count,
        forall|i: int, j: int|
            0 <= i < j < r@.len() ==> (#[trigger] r@[i]).ext@ != (#[trigger] r@[j]).ext@,
        forall|k: Seq<char>| #[trigger]
            t@.contains_key(k) ==> exists|i: int|
                0 <= i < r@.len() && (#[trigger] r@[i]).ext@ == k,
{
    assert forall|i: int, j: int| 0 <= i <= j < r@.len() implies (#[trigger] r@[i]).bytes >= (
    #[trigger] r@[j]).bytes by {
        assert(r@[i].rank() >= r@[j].rank());
    }
}

/// The statistics of a tree list each label that a file of it has once, with the bytes and
/// the files that the tree has under it, those with more bytes first. The tree stays.
pub proof fn statistics_list_a_tree_by_bytes(t: &mut FileTree)
    requires
        call_ensures(FileTree::rebuild_extensions, (t,), ()),
    ensures
        more_bytes_first(final(t).extensions@),
        forall|i: int|
            0 <= i < final(t).extensions@.len() ==> (#[trigger] final(t).extensions@[i]).bytes
                == total(old(t).root@, Measure::LabelBytes(final(t).extensions@[i].ext@)),
        forall|i: int|
            0 <= i < final(t).extensions@.len() ==> (#[trigger] final(t).extensions@[i]).count
                == total(old(t).root@, Measure::LabelFiles(final(t).extensions@[i].ext@)),
        forall|i: int|
            0 <= i < final(t).extensions@.len() ==> (#[trigger] final(t).extensions@[i]).count > 0,
        forall|i: int, j: int|
            0 <= i < j < final(t).extensions@.len() ==> (#[trigger] final(t).extensions@[i]).ext@
                != (#[trigger] final(t).extensions@[j]).ext@,
        forall|k: Seq<char>| #[trigger]
            total(old(t).root@, Measure::LabelFiles(k)) > 0 ==> exists|i: int|
                0 <= i < final(t).extensions@.len() && (#[trigger] final(t).extensions@[i]).ext@
                    == k,
        final(t).root == old(t).root,
        final(t).root_path@ == old(t).root_path@,
        final(t).permission_denied == old(t).permission_denied,
        final(t).size_approximate == old(t).size_approximate,
{
    let v = final(t).extensions@;
    assert forall|i: int, j: int| 0 <= i <= j < v.len() implies (#[trigger] v[i]).bytes >= (
    #[trigger] v[j]).bytes by {
        assert(v[i].rank() >= v[j].rank());
    }
}

} // verus!
