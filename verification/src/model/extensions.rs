//! Statistics per file extension.

use rustc_hash::FxHashMap;
use vstd::prelude::*;
use vstd::seq_lib::*;

use crate::hashed::{index_contents, index_get, index_insert, index_new};
use crate::model::node::{nodes_of, FileNode, Node};
use crate::model::totals::{
    ext_label, lemma_total_concat, lemma_total_permuted, lemma_total_take, own, total, total_all,
    Measure,
};
use crate::model::tree::{name_extension, raw_extension, ExtStat, FileTree};
use crate::ranking::{
    descending, lemma_multiset_len, lemma_multiset_member, rank_descending, Ranked,
};

verus! {

broadcast use crate::model::node::group_nodes;

impl Ranked for ExtStat {
    open spec fn rank(self) -> u64 {
        self.bytes
    }

    fn rank_of(&self) -> (r: u64) {
        self.bytes
    }
}

/// Bytes and files per label, gathered file by file.
pub struct ExtTable {
    index: FxHashMap<String, usize>,
    stats: Vec<ExtStat>,
}

/// The label under which a file of this name is listed.
pub open spec fn name_label(name: Seq<char>) -> Seq<char> {
    if name_extension(name).len() == 0 {
        "(no ext)"@
    } else {
        name_extension(name)
    }
}

/// The bytes and files that a table has under a label.
pub open spec fn tally(m: Map<Seq<char>, (u64, u64)>, label: Seq<char>) -> (nat, nat) {
    if m.contains_key(label) {
        (m[label].0 as nat, m[label].1 as nat)
    } else {
        (0, 0)
    }
}

/// Whether a table has what two others have together.
pub open spec fn is_merged(
    r: Map<Seq<char>, (u64, u64)>,
    a: Map<Seq<char>, (u64, u64)>,
    b: Map<Seq<char>, (u64, u64)>,
) -> bool {
    &&& r.dom() == a.dom().union(b.dom())
    &&& forall|k: Seq<char>| #[trigger]
        tally(r, k) == (tally(a, k).0 + tally(b, k).0, tally(a, k).1 + tally(b, k).1)
}

/// Whether two tables can be merged without an overflow.
pub open spec fn can_be_merged(
    a: Map<Seq<char>, (u64, u64)>,
    b: Map<Seq<char>, (u64, u64)>,
) -> bool {
    forall|k: Seq<char>| #[trigger]
        b.contains_key(k) ==> tally(a, k).0 + b[k].0 <= u64::MAX && tally(a, k).1 + b[k].1
            <= u64::MAX
}

proof fn lemma_same_tables(a: Map<Seq<char>, (u64, u64)>, b: Map<Seq<char>, (u64, u64)>)
    requires
        a.dom() =~= b.dom(),
        forall|k: Seq<char>| #[trigger] tally(a, k) == tally(b, k),
    ensures
        a == b,
{
    assert forall|k: Seq<char>| #[trigger] a.contains_key(k) implies a[k] == b[k] by {
        assert(tally(a, k) == tally(b, k));
    }
    assert(a =~= b);
}

/// It does not matter which of two tables is merged into the other.
pub proof fn merging_commutes(
    a: Map<Seq<char>, (u64, u64)>,
    b: Map<Seq<char>, (u64, u64)>,
    ab: Map<Seq<char>, (u64, u64)>,
    ba: Map<Seq<char>, (u64, u64)>,
)
    requires
        is_merged(ab, a, b),
        is_merged(ba, b, a),
    ensures
        ab == ba,
{
    assert forall|k: Seq<char>| #[trigger] tally(ab, k) == tally(ba, k) by {
        let _ = tally(ba, k);
    }
    lemma_same_tables(ab, ba);
}

/// It does not matter in which order tables are merged.
pub proof fn merging_associates(
    a: Map<Seq<char>, (u64, u64)>,
    b: Map<Seq<char>, (u64, u64)>,
    c: Map<Seq<char>, (u64, u64)>,
    ab: Map<Seq<char>, (u64, u64)>,
    bc: Map<Seq<char>, (u64, u64)>,
    left: Map<Seq<char>, (u64, u64)>,
    right: Map<Seq<char>, (u64, u64)>,
)
    requires
        is_merged(ab, a, b),
        is_merged(bc, b, c),
        is_merged(left, ab, c),
        is_merged(right, a, bc),
    ensures
        left == right,
{
    assert forall|k: Seq<char>| #[trigger] tally(left, k) == tally(right, k) by {
        let _ = tally(ab, k);
        let _ = tally(bc, k);
        let _ = tally(right, k);
    }
    lemma_same_tables(left, right);
}

/// Whether a table has what it had before and some files.
pub open spec fn is_counted(
    after: Map<Seq<char>, (u64, u64)>,
    before: Map<Seq<char>, (u64, u64)>,
    files: Seq<Node>,
) -> bool {
    &&& forall|k: Seq<char>| #[trigger]
        tally(after, k) == (
            tally(before, k).0 + total_all(files, Measure::LabelBytes(k)),
            tally(before, k).1 + total_all(files, Measure::LabelFiles(k)),
        )
    &&& forall|k: Seq<char>| #[trigger]
        after.contains_key(k) <==> before.contains_key(k) || total_all(
            files,
            Measure::LabelFiles(k),
        ) > 0
}

/// Whether a table has the bytes and files of `s`, each label that occurs, and nothing
/// else.
pub open spec fn is_table_of(m: Map<Seq<char>, (u64, u64)>, s: Seq<Node>) -> bool {
    is_counted(m, Map::empty(), s)
}

/// Whether a table has what some tables have together.
pub open spec fn is_merged_all(
    r: Map<Seq<char>, (u64, u64)>,
    tables: Seq<Map<Seq<char>, (u64, u64)>>,
) -> bool
    decreases tables.len(),
{
    if tables.len() == 0 {
        r == Map::<Seq<char>, (u64, u64)>::empty()
    } else {
        exists|part: Map<Seq<char>, (u64, u64)>|
            is_merged_all(part, tables.drop_last()) && #[trigger] is_merged(
                r,
                part,
                tables.last(),
            )
    }
}

/// All that the parts hold.
pub open spec fn all_parts(parts: Seq<Seq<Node>>) -> Seq<Node>
    decreases parts.len(),
{
    if parts.len() == 0 {
        Seq::empty()
    } else {
        all_parts(parts.drop_last()) + parts.last()
    }
}

/// Counting more files into a table gives the table of all of them.
pub proof fn counting_goes_on(
    after: Map<Seq<char>, (u64, u64)>,
    before: Map<Seq<char>, (u64, u64)>,
    counted: Seq<Node>,
    files: Seq<Node>,
)
    requires
        is_table_of(before, counted),
        is_counted(after, before, files),
    ensures
        is_table_of(after, counted + files),
{
    assert forall|k: Seq<char>| #[trigger]
        tally(after, k) == (
            tally(Map::empty(), k).0 + total_all(counted + files, Measure::LabelBytes(k)),
            tally(Map::empty(), k).1 + total_all(counted + files, Measure::LabelFiles(k)),
        ) by {
        let _ = tally(before, k);
        lemma_total_concat(counted, files, Measure::LabelBytes(k));
        lemma_total_concat(counted, files, Measure::LabelFiles(k));
    }
    assert forall|k: Seq<char>| #[trigger]
        after.contains_key(k) <==> Map::<Seq<char>, (u64, u64)>::empty().contains_key(k)
            || total_all(counted + files, Measure::LabelFiles(k)) > 0 by {
        let _ = before.contains_key(k);
        lemma_total_concat(counted, files, Measure::LabelFiles(k));
    }
}

/// Merging the tables of two parts gives the table of both.
pub proof fn merging_joins_the_parts(
    r: Map<Seq<char>, (u64, u64)>,
    a: Map<Seq<char>, (u64, u64)>,
    b: Map<Seq<char>, (u64, u64)>,
    x: Seq<Node>,
    y: Seq<Node>,
)
    requires
        is_table_of(a, x),
        is_table_of(b, y),
        is_merged(r, a, b),
    ensures
        is_table_of(r, x + y),
{
    assert forall|k: Seq<char>| #[trigger]
        tally(r, k) == (
            tally(Map::empty(), k).0 + total_all(x + y, Measure::LabelBytes(k)),
            tally(Map::empty(), k).1 + total_all(x + y, Measure::LabelFiles(k)),
        ) by {
        let _ = tally(a, k);
        let _ = tally(b, k);
        lemma_total_concat(x, y, Measure::LabelBytes(k));
        lemma_total_concat(x, y, Measure::LabelFiles(k));
    }
    assert forall|k: Seq<char>| #[trigger]
        r.contains_key(k) <==> Map::<Seq<char>, (u64, u64)>::empty().contains_key(k) || total_all(
            x + y,
            Measure::LabelFiles(k),
        ) > 0 by {
        let _ = a.contains_key(k);
        let _ = b.contains_key(k);
        assert(r.dom().contains(k) == (a.dom().contains(k) || b.dom().contains(k)));
        lemma_total_concat(x, y, Measure::LabelFiles(k));
    }
}

/// There is one table of some files, in whatever order they were counted.
pub proof fn the_order_of_counting_does_not_matter(
    a: Map<Seq<char>, (u64, u64)>,
    b: Map<Seq<char>, (u64, u64)>,
    x: Seq<Node>,
    y: Seq<Node>,
)
    requires
        is_table_of(a, x),
        is_table_of(b, y),
        x.to_multiset() == y.to_multiset(),
    ensures
        a == b,
{
    assert forall|k: Seq<char>| #[trigger] tally(a, k) == tally(b, k) by {
        let _ = tally(b, k);
        lemma_total_permuted(x, y, Measure::LabelBytes(k));
        lemma_total_permuted(x, y, Measure::LabelFiles(k));
    }
    assert forall|k: Seq<char>| a.dom().contains(k) == b.dom().contains(k) by {
        lemma_total_permuted(x, y, Measure::LabelFiles(k));
        assert(a.contains_key(k) == b.contains_key(k));
    }
    assert(a.dom() =~= b.dom());
    lemma_same_tables(a, b);
}

/// Files that are shared out, counted part by part and then merged give the table that
/// is counted on the whole.
pub proof fn shared_out_counts_give_the_whole(
    parts: Seq<Seq<Node>>,
    tables: Seq<Map<Seq<char>, (u64, u64)>>,
    merged: Map<Seq<char>, (u64, u64)>,
    whole: Map<Seq<char>, (u64, u64)>,
    files: Seq<Node>,
)
    requires
        tables.len() == parts.len(),
        forall|i: int| 0 <= i < parts.len() ==> is_table_of(#[trigger] tables[i], parts[i]),
        is_merged_all(merged, tables),
        is_table_of(whole, files),
        files.to_multiset() == all_parts(parts).to_multiset(),
    ensures
        merged == whole,
{
    lemma_merged_all(parts, tables, merged);
    the_order_of_counting_does_not_matter(merged, whole, all_parts(parts), files);
}

pub proof fn lemma_merged_all(
    parts: Seq<Seq<Node>>,
    tables: Seq<Map<Seq<char>, (u64, u64)>>,
    merged: Map<Seq<char>, (u64, u64)>,
)
    requires
        tables.len() == parts.len(),
        forall|i: int| 0 <= i < parts.len() ==> is_table_of(#[trigger] tables[i], parts[i]),
        is_merged_all(merged, tables),
    ensures
        is_table_of(merged, all_parts(parts)),
    decreases parts.len(),
{
    if parts.len() > 0 {
        let part = choose|part: Map<Seq<char>, (u64, u64)>|
            is_merged_all(part, tables.drop_last()) && #[trigger] is_merged(
                merged,
                part,
                tables.last(),
            );
        assert forall|i: int| 0 <= i < parts.drop_last().len() implies is_table_of(
            #[trigger] tables.drop_last()[i],
            parts.drop_last()[i],
        ) by {
            assert(tables.drop_last()[i] == tables[i]);
        }
        lemma_merged_all(parts.drop_last(), tables.drop_last(), part);
        assert(is_table_of(tables[parts.len() - 1], parts[parts.len() - 1]));
        merging_joins_the_parts(
            merged,
            part,
            tables.last(),
            all_parts(parts.drop_last()),
            parts.last(),
        );
    } else {
        assert forall|k: Seq<char>| total_all(all_parts(parts), Measure::LabelBytes(k)) == 0
            && total_all(all_parts(parts), Measure::LabelFiles(k)) == 0 by {}
    }
}

/// Statistics as values.
pub open spec fn stat_views(v: Seq<ExtStat>) -> Seq<(Seq<char>, u64, u64)> {
    v.map_values(|s: ExtStat| (s.ext@, s.bytes, s.count))
}

/// Two lists of the statistics of one table hold the same, each as often.
pub proof fn one_table_has_one_list(
    v: Seq<ExtStat>,
    w: Seq<ExtStat>,
    m: Map<Seq<char>, (u64, u64)>,
)
    requires
        lists_table(v, m),
        lists_table(w, m),
    ensures
        stat_views(v).to_multiset() == stat_views(w).to_multiset(),
{
    broadcast use group_to_multiset_ensures;
    broadcast use vstd::multiset::group_multiset_axioms;

    let a = stat_views(v);
    let b = stat_views(w);
    lemma_stats_in(v, w, m);
    lemma_stats_in(w, v, m);
    a.lemma_multiset_has_no_duplicates();
    b.lemma_multiset_has_no_duplicates();
    assert forall|x: (Seq<char>, u64, u64)| a.to_multiset().count(x) == b.to_multiset().count(
        x,
    ) by {
        assert(a.contains(x) == b.contains(x));
        assert(a.to_multiset().contains(x) == (a.to_multiset().count(x) > 0));
        assert(b.to_multiset().contains(x) == (b.to_multiset().count(x) > 0));
    }
    assert(a.to_multiset() =~= b.to_multiset());
}

proof fn lemma_stats_in(v: Seq<ExtStat>, w: Seq<ExtStat>, m: Map<Seq<char>, (u64, u64)>)
    requires
        lists_table(v, m),
        lists_table(w, m),
    ensures
        stat_views(v).no_duplicates(),
        forall|x: (Seq<char>, u64, u64)| #[trigger]
            stat_views(v).contains(x) ==> stat_views(w).contains(x),
{
    let a = stat_views(v);
    let b = stat_views(w);
    assert forall|i: int, j: int| 0 <= i < a.len() && 0 <= j < a.len() && i != j implies a[i]
        != a[j] by {
        if i < j {
            assert(v[i].ext@ != v[j].ext@);
        } else {
            assert(v[j].ext@ != v[i].ext@);
        }
    }
    assert forall|x: (Seq<char>, u64, u64)| #[trigger] a.contains(x) implies b.contains(x) by {
        let i = choose|i: int| 0 <= i < a.len() && a[i] == x;
        assert(m.contains_key(v[i].ext@));
        let j = choose|j: int| 0 <= j < w.len() && (#[trigger] w[j]).ext@ == v[i].ext@;
        assert(b[j] == x);
    }
}

/// Whether the statistics list each label of the table once, with its bytes and
/// files, those with more bytes first.
pub open spec fn lists_table(v: Seq<ExtStat>, m: Map<Seq<char>, (u64, u64)>) -> bool {
    &&& descending(v)
    &&& forall|i: int|
        0 <= i < v.len() ==> m.contains_key((#[trigger] v[i]).ext@) && m[v[i].ext@] == (
            v[i].bytes,
            v[i].count,
        )
    &&& forall|i: int, j: int|
        0 <= i < j < v.len() ==> (#[trigger] v[i]).ext@ != (#[trigger] v[j]).ext@
    &&& forall|k: Seq<char>|
        m.contains_key(k) ==> exists|i: int| 0 <= i < v.len() && (#[trigger] v[i]).ext@ == k
}

/// Whether the statistics list each label that a file of the tree has once, with
/// the bytes and files that the tree has under it, those with more bytes first.
pub open spec fn lists_tree(v: Seq<ExtStat>, n: Node) -> bool {
    &&& descending(v)
    &&& forall|i: int|
        0 <= i < v.len() ==> (#[trigger] v[i]).bytes == total(
            n,
            Measure::LabelBytes(v[i].ext@),
        ) && v[i].count == total(n, Measure::LabelFiles(v[i].ext@)) && v[i].count > 0
    &&& forall|i: int, j: int|
        0 <= i < j < v.len() ==> (#[trigger] v[i]).ext@ != (#[trigger] v[j]).ext@
    &&& forall|k: Seq<char>|
        #[trigger] total(n, Measure::LabelFiles(k)) > 0 ==> exists|i: int|
            0 <= i < v.len() && (#[trigger] v[i]).ext@ == k
}

/// Whether the bytes and files under every label can be counted.
pub open spec fn labels_countable(n: Node) -> bool {
    forall|k: Seq<char>|
        #![trigger total(n, Measure::LabelBytes(k))]
        #![trigger total(n, Measure::LabelFiles(k))]
        total(n, Measure::LabelBytes(k)) <= u64::MAX && total(n, Measure::LabelFiles(k))
            <= u64::MAX
}

/// Whether what `n` has can be added to the table.
pub open spec fn has_room_for(m: Map<Seq<char>, (u64, u64)>, n: Node) -> bool {
    forall|k: Seq<char>|
        #![trigger total(n, Measure::LabelBytes(k))]
        #![trigger total(n, Measure::LabelFiles(k))]
        tally(m, k).0 + total(n, Measure::LabelBytes(k)) <= u64::MAX && tally(m, k).1 + total(
            n,
            Measure::LabelFiles(k),
        ) <= u64::MAX
}

/// Whether what all of `s` have can be added to the table.
pub open spec fn has_room_for_all(m: Map<Seq<char>, (u64, u64)>, s: Seq<Node>) -> bool {
    forall|k: Seq<char>|
        #![trigger total_all(s, Measure::LabelBytes(k))]
        #![trigger total_all(s, Measure::LabelFiles(k))]
        tally(m, k).0 + total_all(s, Measure::LabelBytes(k)) <= u64::MAX && tally(m, k).1
            + total_all(s, Measure::LabelFiles(k)) <= u64::MAX
}

impl View for ExtTable {
    type V = Map<Seq<char>, (u64, u64)>;

    closed spec fn view(&self) -> Map<Seq<char>, (u64, u64)> {
        Map::new(
            |k: Seq<char>| index_contents(self.index).contains_key(k),
            |k: Seq<char>|
                {
                    let s = self.stats@[index_contents(self.index)[k] as int];
                    (s.bytes, s.count)
                },
        )
    }
}

/// The label under which a file of this name is listed.
pub fn label_for(name: &str) -> (r: String)
    ensures
        r@ == name_label(name@),
{
    let ext = raw_extension(name);
    if ext.as_str().is_empty() {
        "(no ext)".to_owned()
    } else {
        ext
    }
}

impl ExtTable {
    /// Every statistic is found under its own label, and nothing else is.
    pub closed spec fn wf(self) -> bool {
        let m = index_contents(self.index);
        &&& forall|i: int|
            0 <= i < self.stats@.len() ==> m.contains_key((#[trigger] self.stats@[i]).ext@)
                && m[self.stats@[i].ext@] == i
        &&& forall|k: Seq<char>| #[trigger]
            m.contains_key(k) ==> m[k] < self.stats@.len() && self.stats@[m[k] as int].ext@ == k
    }

    /// A table without any files.
    pub fn new() -> (r: ExtTable)
        ensures
            r.wf(),
            r@ == Map::<Seq<char>, (u64, u64)>::empty(),
    {
        let r = ExtTable { index: index_new(), stats: Vec::new() };
        assert(r@ =~= Map::<Seq<char>, (u64, u64)>::empty());
        r
    }

    /// Whether `bytes` and `count` can be added under `label`.
    pub fn has_room(&self, label: &str, bytes: u64, count: u64) -> (r: bool)
        requires
            self.wf(),
        ensures
            r == (tally(self@, label@).0 + bytes <= u64::MAX && tally(self@, label@).1 + count
                <= u64::MAX),
    {
        match index_get(&self.index, label) {
            Some(i) => {
                assert(index_contents(self.index).contains_key(label@));
                self.stats[i].bytes <= u64::MAX - bytes && self.stats[i].count <= u64::MAX - count
            },
            None => true,
        }
    }

    /// Adds bytes and files under a label.
    pub fn add(&mut self, label: &str, bytes: u64, count: u64)
        requires
            old(self).wf(),
            tally(old(self)@, label@).0 + bytes <= u64::MAX,
            tally(old(self)@, label@).1 + count <= u64::MAX,
        ensures
            final(self).wf(),
            final(self)@ == old(self)@.insert(
                label@,
                (
                    (tally(old(self)@, label@).0 + bytes) as u64,
                    (tally(old(self)@, label@).1 + count) as u64,
                ),
            ),
    {
        let ghost m0 = index_contents(self.index);
        let ghost s0 = self.stats@;
        match index_get(&self.index, label) {
            Some(i) => {
                assert(m0.contains_key(label@));
                let b = self.stats[i].bytes + bytes;
                let c = self.stats[i].count + count;
                self.stats[i].bytes = b;
                self.stats[i].count = c;
                assert(self.stats@ =~= s0.update(i as int, self.stats@[i as int]));
                assert(self.stats@[i as int].ext == s0[i as int].ext);
                assert forall|j: int| 0 <= j < self.stats@.len() implies m0.contains_key(
                    (#[trigger] self.stats@[j]).ext@,
                ) && m0[self.stats@[j].ext@] == j by {
                    assert(self.stats@[j].ext == s0[j].ext);
                }
            },
            None => {
                let at = self.stats.len();
                self.stats.push(ExtStat { ext: label.to_owned(), bytes, count });
                index_insert(&mut self.index, label.to_owned(), at);
                assert forall|j: int| 0 <= j < self.stats@.len() implies index_contents(
                    self.index,
                ).contains_key((#[trigger] self.stats@[j]).ext@) && index_contents(
                    self.index,
                )[self.stats@[j].ext@] == j by {
                    if j < at {
                        assert(self.stats@[j] == s0[j]);
                    }
                }
            },
        }
        assert(self@ =~= old(self)@.insert(
            label@,
            (
                (tally(old(self)@, label@).0 + bytes) as u64,
                (tally(old(self)@, label@).1 + count) as u64,
            ),
        ));
    }

    /// Whether everything of `other` can be added.
    pub fn can_merge(&self, other: &ExtTable) -> (r: bool)
        requires
            self.wf(),
            other.wf(),
        ensures
            r == forall|k: Seq<char>| #[trigger]
                other@.contains_key(k) ==> tally(self@, k).0 + other@[k].0 <= u64::MAX && tally(
                    self@,
                    k,
                ).1 + other@[k].1 <= u64::MAX,
            r == can_be_merged(self@, other@),
    {
        for i in 0..other.stats.len()
            invariant
                self.wf(),
                other.wf(),
                forall|j: int|
                    0 <= j < i ==> tally(self@, (#[trigger] other.stats@[j]).ext@).0
                        + other.stats@[j].bytes <= u64::MAX && tally(
                        self@,
                        other.stats@[j].ext@,
                    ).1 + other.stats@[j].count <= u64::MAX,
        {
            let s = &other.stats[i];
            assert(other@.contains_key(s.ext@));
            if !self.has_room(s.ext.as_str(), s.bytes, s.count) {
                return false;
            }
        }
        true
    }

    /// Adds everything of `other`.
    pub fn merge(&mut self, other: ExtTable)
        requires
            old(self).wf(),
            other.wf(),
            forall|k: Seq<char>| #[trigger]
                other@.contains_key(k) ==> tally(old(self)@, k).0 + other@[k].0 <= u64::MAX
                    && tally(old(self)@, k).1 + other@[k].1 <= u64::MAX,
        ensures
            final(self).wf(),
            is_merged(final(self)@, old(self)@, other@),
    {
        let ghost m = index_contents(other.index);
        assert(forall|k: Seq<char>|
            other@.contains_key(k) ==> m.contains_key(k) && 0 <= m[k] < other.stats@.len());
        for i in 0..other.stats.len()
            invariant
                self.wf(),
                other.wf(),
                m == index_contents(other.index),
                forall|k: Seq<char>| #[trigger]
                    other@.contains_key(k) ==> tally(old(self)@, k).0 + other@[k].0 <= u64::MAX
                        && tally(old(self)@, k).1 + other@[k].1 <= u64::MAX,
                forall|k: Seq<char>| #[trigger]
                    tally(self@, k) == if other@.contains_key(k) && m[k] < i {
                        (
                            tally(old(self)@, k).0 + tally(other@, k).0,
                            tally(old(self)@, k).1 + tally(other@, k).1,
                        )
                    } else {
                        tally(old(self)@, k)
                    },
                forall|k: Seq<char>| #[trigger]
                    self@.contains_key(k) <==> old(self)@.contains_key(k) || (
                    other@.contains_key(k) && m[k] < i),
        {
            let s = &other.stats[i];
            let ghost label = s.ext@;
            let ghost before = self@;
            proof {
                assert(other@.contains_key(label));
                assert(m[label] == i);
                assert(other@[label] == (s.bytes, s.count));
                assert(tally(before, label) == tally(old(self)@, label));
            }
            self.add(s.ext.as_str(), s.bytes, s.count);
            assert forall|k: Seq<char>| #[trigger]
                tally(self@, k) == if other@.contains_key(k) && m[k] < i + 1 {
                    (
                        tally(old(self)@, k).0 + tally(other@, k).0,
                        tally(old(self)@, k).1 + tally(other@, k).1,
                    )
                } else {
                    tally(old(self)@, k)
                } by {
                let _ = tally(before, k);
                if k != label && other@.contains_key(k) && m[k] == i {
                    assert(other.stats@[m[k] as int].ext@ == k);
                }
            }
            assert forall|k: Seq<char>| #[trigger]
                self@.contains_key(k) <==> old(self)@.contains_key(k) || (other@.contains_key(k)
                    && m[k] < i + 1) by {
                let _ = before.contains_key(k);
                if k != label && other@.contains_key(k) && m[k] == i {
                    assert(other.stats@[m[k] as int].ext@ == k);
                }
            }
        }
        assert(self@.dom() =~= old(self)@.dom().union(other@.dom()));
    }

    /// Adds the files of a tree.
    pub fn collect_extensions(&mut self, node: &FileNode)
        requires
            old(self).wf(),
            has_room_for(old(self)@, node@),
        ensures
            final(self).wf(),
            forall|k: Seq<char>| #[trigger]
                tally(final(self)@, k) == (
                    tally(old(self)@, k).0 + total(node@, Measure::LabelBytes(k)),
                    tally(old(self)@, k).1 + total(node@, Measure::LabelFiles(k)),
                ),
            forall|k: Seq<char>| #[trigger]
                final(self)@.contains_key(k) <==> old(self)@.contains_key(k) || total(
                    node@,
                    Measure::LabelFiles(k),
                ) > 0,
        decreases node,
    {
        if !node.is_dir {
            let label = label_for(node.name.as_str());
            proof {
                assert(label@ == ext_label(node@));
                assert(own(node@, Measure::LabelBytes(label@)) <= total(
                    node@,
                    Measure::LabelBytes(label@),
                ));
                assert(own(node@, Measure::LabelFiles(label@)) <= total(
                    node@,
                    Measure::LabelFiles(label@),
                ));
            }
            self.add(label.as_str(), node.size, 1);
        }
        let ghost kids = node@.children;
        proof {
            assert(kids.take(0) =~= Seq::empty());
        }
        for i in 0..node.children.len()
            invariant
                self.wf(),
                has_room_for(old(self)@, node@),
                kids == node@.children,
                forall|k: Seq<char>| #[trigger]
                    tally(self@, k) == (
                        tally(old(self)@, k).0 + own(node@, Measure::LabelBytes(k)) + total_all(
                            kids.take(i as int),
                            Measure::LabelBytes(k),
                        ),
                        tally(old(self)@, k).1 + own(node@, Measure::LabelFiles(k)) + total_all(
                            kids.take(i as int),
                            Measure::LabelFiles(k),
                        ),
                    ),
                forall|k: Seq<char>| #[trigger]
                    self@.contains_key(k) <==> old(self)@.contains_key(k) || own(
                        node@,
                        Measure::LabelFiles(k),
                    ) + total_all(kids.take(i as int), Measure::LabelFiles(k)) > 0,
        {
            let ghost before = self@;
            let child = &node.children[i];
            assert forall|k: Seq<char>|
                #![trigger total(child@, Measure::LabelBytes(k))]
                #![trigger total(child@, Measure::LabelFiles(k))]
                tally(before, k).0 + total(child@, Measure::LabelBytes(k)) <= u64::MAX && tally(
                    before,
                    k,
                ).1 + total(child@, Measure::LabelFiles(k)) <= u64::MAX by {
                lemma_total_take(kids, i as int, Measure::LabelBytes(k));
                lemma_total_take(kids, i as int, Measure::LabelFiles(k));
                assert(total(node@, Measure::LabelBytes(k)) == own(node@, Measure::LabelBytes(k))
                    + total_all(kids, Measure::LabelBytes(k)));
                assert(total(node@, Measure::LabelFiles(k)) == own(node@, Measure::LabelFiles(k))
                    + total_all(kids, Measure::LabelFiles(k)));
            }
            self.collect_extensions(child);
            assert forall|k: Seq<char>| #[trigger]
                tally(self@, k) == (
                    tally(old(self)@, k).0 + own(node@, Measure::LabelBytes(k)) + total_all(
                        kids.take(i + 1),
                        Measure::LabelBytes(k),
                    ),
                    tally(old(self)@, k).1 + own(node@, Measure::LabelFiles(k)) + total_all(
                        kids.take(i + 1),
                        Measure::LabelFiles(k),
                    ),
                ) by {
                let _ = tally(before, k);
                lemma_total_take(kids, i as int, Measure::LabelBytes(k));
                lemma_total_take(kids, i as int, Measure::LabelFiles(k));
            }
            assert forall|k: Seq<char>| #[trigger]
                self@.contains_key(k) <==> old(self)@.contains_key(k) || own(
                    node@,
                    Measure::LabelFiles(k),
                ) + total_all(kids.take(i + 1), Measure::LabelFiles(k)) > 0 by {
                let _ = before.contains_key(k);
                lemma_total_take(kids, i as int, Measure::LabelFiles(k));
            }
        }
        assert(kids.take(kids.len() as int) =~= kids);
    }

    /// Adds the files that a directory holds, if there is room for all of them.
    /// Where there is not, the table has taken in some of them only.
    pub fn count_files(&mut self, files: &Vec<FileNode>) -> (r: bool)
        requires
            old(self).wf(),
            forall|i: int|
                0 <= i < files@.len() ==> !(#[trigger] files@[i]).is_dir
                    && files@[i].children@.len() == 0,
        ensures
            final(self).wf(),
            r == has_room_for_all(old(self)@, nodes_of(files@)),
            r ==> is_counted(final(self)@, old(self)@, nodes_of(files@)),
    {
        let ghost s = nodes_of(files@);
        assert(s.take(0) =~= Seq::empty());
        for i in 0..files.len()
            invariant
                self.wf(),
                s == nodes_of(files@),
                forall|i: int|
                    0 <= i < files@.len() ==> !(#[trigger] files@[i]).is_dir
                        && files@[i].children@.len() == 0,
                forall|k: Seq<char>| #[trigger]
                    tally(self@, k) == (
                        tally(old(self)@, k).0 + total_all(
                            s.take(i as int),
                            Measure::LabelBytes(k),
                        ),
                        tally(old(self)@, k).1 + total_all(
                            s.take(i as int),
                            Measure::LabelFiles(k),
                        ),
                    ),
                forall|k: Seq<char>| #[trigger]
                    self@.contains_key(k) <==> old(self)@.contains_key(k) || total_all(
                        s.take(i as int),
                        Measure::LabelFiles(k),
                    ) > 0,
        {
            let ghost before = self@;
            let file = &files[i];
            let label = label_for(file.name.as_str());
            proof {
                assert(s[i as int] == file@);
                assert(file@.children =~= Seq::empty());
                assert(label@ == ext_label(file@));
                assert forall|k: Seq<char>|
                    total(file@, Measure::LabelBytes(k)) == (if k == label@ {
                        file.size as nat
                    } else {
                        0
                    }) && total(file@, Measure::LabelFiles(k)) == (if k == label@ {
                        1nat
                    } else {
                        0
                    }) by {
                    assert(total_all(file@.children, Measure::LabelBytes(k)) == 0);
                    assert(total_all(file@.children, Measure::LabelFiles(k)) == 0);
                }
                lemma_total_take(s, i as int, Measure::LabelBytes(label@));
                lemma_total_take(s, i as int, Measure::LabelFiles(label@));
            }
            if !self.has_room(label.as_str(), file.size, 1) {
                assert(tally(before, label@).0 + total(file@, Measure::LabelBytes(label@))
                    > u64::MAX || tally(before, label@).1 + total(
                    file@,
                    Measure::LabelFiles(label@),
                ) > u64::MAX);
                return false;
            }
            self.add(label.as_str(), file.size, 1);
            assert forall|k: Seq<char>| #[trigger]
                tally(self@, k) == (
                    tally(old(self)@, k).0 + total_all(s.take(i + 1), Measure::LabelBytes(k)),
                    tally(old(self)@, k).1 + total_all(s.take(i + 1), Measure::LabelFiles(k)),
                ) by {
                let _ = tally(before, k);
                lemma_total_take(s, i as int, Measure::LabelBytes(k));
                lemma_total_take(s, i as int, Measure::LabelFiles(k));
            }
            assert forall|k: Seq<char>| #[trigger]
                self@.contains_key(k) <==> old(self)@.contains_key(k) || total_all(
                    s.take(i + 1),
                    Measure::LabelFiles(k),
                ) > 0 by {
                let _ = before.contains_key(k);
                lemma_total_take(s, i as int, Measure::LabelFiles(k));
            }
        }
        assert(s.take(s.len() as int) =~= s);
        assert forall|k: Seq<char>|
            #![trigger total_all(s, Measure::LabelBytes(k))]
            #![trigger total_all(s, Measure::LabelFiles(k))]
            tally(old(self)@, k).0 + total_all(s, Measure::LabelBytes(k)) <= u64::MAX && tally(
                old(self)@,
                k,
            ).1 + total_all(s, Measure::LabelFiles(k)) <= u64::MAX by {
            let _ = tally(self@, k);
        }
        true
    }

    /// The statistics, those with more bytes first. The order among those with
    /// the same bytes is left open.
    pub fn into_stats(self) -> (r: Vec<ExtStat>)
        requires
            self.wf(),
        ensures
            lists_table(r@, self@),
    {
        let ghost s = self.stats@;
        let ghost m = index_contents(self.index);
        let r = rank_descending(self.stats);
        proof {
            lemma_multiset_len(r@, s);
            assert forall|i: int| 0 <= i < r@.len() implies self@.contains_key(
                (#[trigger] r@[i]).ext@,
            ) && self@[r@[i].ext@] == (r@[i].bytes, r@[i].count) by {
                lemma_multiset_member(r@, s, i);
                let a = choose|a: int| 0 <= a < s.len() && s[a] == r@[i];
                assert(m.contains_key(s[a].ext@));
            }
            assert(s.no_duplicates()) by {
                assert forall|a: int, b: int|
                    0 <= a < s.len() && 0 <= b < s.len() && a != b implies s[a] != s[b] by {
                    assert(m[s[a].ext@] == a);
                    assert(m[s[b].ext@] == b);
                }
            }
            s.lemma_multiset_has_no_duplicates();
            r@.lemma_multiset_has_no_duplicates_conv();
            assert forall|i: int, j: int| 0 <= i < j < r@.len() implies (#[trigger] r@[i]).ext@
                != (#[trigger] r@[j]).ext@ by {
                lemma_multiset_member(r@, s, i);
                lemma_multiset_member(r@, s, j);
                let a = choose|a: int| 0 <= a < s.len() && s[a] == r@[i];
                let b = choose|b: int| 0 <= b < s.len() && s[b] == r@[j];
                assert(m[s[a].ext@] == a);
                assert(m[s[b].ext@] == b);
            }
            assert forall|k: Seq<char>| self@.contains_key(k) implies exists|i: int|
                0 <= i < r@.len() && (#[trigger] r@[i]).ext@ == k by {
                assert(m.contains_key(k));
                let a = m[k] as int;
                lemma_multiset_member(s, r@, a);
                let i = choose|i: int| 0 <= i < r@.len() && r@[i] == s[a];
                assert(r@[i].ext@ == k);
            }
        }
        r
    }
}

impl FileTree {
    /// Rebuild extension statistics from the current tree.
    pub fn rebuild_extensions(&mut self)
        requires
            labels_countable(old(self).root@),
        ensures
            lists_tree(final(self).extensions@, old(self).root@),
            final(self).root == old(self).root,
            final(self).root_path == old(self).root_path,
            final(self).permission_denied == old(self).permission_denied,
            final(self).size_approximate == old(self).size_approximate,
    {
        let mut table = ExtTable::new();
        let ghost empty = table@;
        assert(forall|k: Seq<char>| #[trigger] tally(empty, k) == (0nat, 0nat));
        table.collect_extensions(&self.root);
        let ghost m = table@;
        let stats = table.into_stats();
        proof {
            let n = self.root@;
            assert forall|i: int| 0 <= i < stats@.len() implies (#[trigger] stats@[i]).bytes
                == total(n, Measure::LabelBytes(stats@[i].ext@)) && stats@[i].count == total(
                n,
                Measure::LabelFiles(stats@[i].ext@),
            ) && stats@[i].count > 0 by {
                let k = stats@[i].ext@;
                assert(m.contains_key(k));
                let _ = tally(m, k);
                let _ = tally(empty, k);
            }
            assert forall|k: Seq<char>| #[trigger]
                total(n, Measure::LabelFiles(k)) > 0 implies exists|i: int|
                0 <= i < stats@.len() && (#[trigger] stats@[i]).ext@ == k by {
                assert(m.contains_key(k));
            }
        }
        self.extensions = stats;
    }
}

} // verus!
