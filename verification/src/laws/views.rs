//! Which folders are open, what a click selects, what a search finds, and what the views say.

use vstd::prelude::*;

use crate::laws::texts::{is_field, lemma_decimal, lemma_found, lemma_trimmed, stands_at};
use crate::model::node::FileNode;
use crate::model::report::{DirSummary, FileSummary};
use crate::model::tree::{node_at, ExtStat, TreePath};
use crate::text::{contains_text, is_space, lowercase, trimmed};
use crate::ui::files_view::{
    as_ints, file_names, find_files, find_types, found_at, found_positions_are_right, is_found,
    search_query, type_names, update_filter, FilesFilter,
};
use crate::ui::largest_view::{bar_size, reaches_all, row_counts, row_title};
use crate::ui::sunburst_view::{center_activation, center_name, dir_color, truncate};
use crate::ui::tree_view::{
    alternate_channel, copy_opt_path, display_name, prefix_of, Expansion, TreeViewState,
};
use crate::ui::treemap_view::{
    absolute_path, build_path, click_selection, hit_path, names_through, selection_in_view,
    view_root, with_names,
};

verus! {

broadcast use crate::model::node::group_nodes;

/// At first only the root is open.
pub proof fn only_the_root_is_open_at_first(
    e: Expansion,
    s: TreeViewState,
    path: &[usize],
    a: bool,
    b: bool,
)
    requires
        call_ensures(Expansion::new, (), e),
        call_ensures(Expansion::is_open, (&e, path), a),
        call_ensures(TreeViewState::new, (), s),
        call_ensures(Expansion::is_open, (&s.expansion, path), b),
    ensures
        a <==> path@.len() == 0,
        b <==> path@.len() == 0,
        s.last_expanded is None,
{
}

/// A folder that was opened is open, one that was closed is not, and all others are as they
/// were.
pub proof fn opening_a_folder_changes_only_that_one(
    e: &mut Expansion,
    path: &[usize],
    open: bool,
    other: &[usize],
    before: bool,
    after: bool,
)
    requires
        call_ensures(Expansion::set_open, (e, path, open), ()),
        call_ensures(Expansion::is_open, (&*old(e), other), before),
        call_ensures(Expansion::is_open, (&*final(e), other), after),
    ensures
        other@ == path@ ==> after == open,
        other@ != path@ ==> after == before,
{
}

/// Expanding to a node opens the folders above it, closes none, and opens no others.
pub proof fn expanding_opens_the_folders_above(
    e: &mut Expansion,
    path: &[usize],
    other: &[usize],
    before: bool,
    after: bool,
)
    requires
        call_ensures(Expansion::expand_to_path, (e, path), ()),
        call_ensures(Expansion::is_open, (&*old(e), other), before),
        call_ensures(Expansion::is_open, (&*final(e), other), after),
    ensures
        other@.len() < path@.len() && other@ == path@.take(other@.len() as int) ==> after,
        !(other@.len() < path@.len() && other@ == path@.take(other@.len() as int)) ==> after
            == before,
{
    if other@.len() < path@.len() {
        assert(path@.take(other@.len() as int) =~= path@.subrange(0, other@.len() as int));
    }
}

/// The tree is expanded to a selection once, when it changes, and then left as it is.
pub proof fn the_tree_follows_a_selection_once(
    s: &mut TreeViewState,
    selected: &Option<TreePath>,
    r: bool,
    t: &mut TreeViewState,
    again: bool,
    other: &[usize],
    before: bool,
    after: bool,
    later: bool,
)
    requires
        call_ensures(TreeViewState::follow_selection, (s, selected), r),
        *final(s) == *old(t),
        call_ensures(TreeViewState::follow_selection, (t, selected), again),
        call_ensures(Expansion::is_open, (&old(s).expansion, other), before),
        call_ensures(Expansion::is_open, (&final(s).expansion, other), after),
        call_ensures(Expansion::is_open, (&final(t).expansion, other), later),
    ensures
        !again,
        later == after,
        r == (match (*selected, old(s).last_expanded) {
            (Some(a), Some(b)) => a@ != b@,
            (None, None) => false,
            _ => true,
        }),
        r && *selected is Some && other@.len() < (*selected)->0@.len() && other@
            == (*selected)->0@.take(other@.len() as int) ==> after,
        !(r && *selected is Some && other@.len() < (*selected)->0@.len() && other@
            == (*selected)->0@.take(other@.len() as int)) ==> after == before,
{
    if *selected is Some {
        let p = (*selected)->0@;
        if other@.len() < p.len() {
            assert(p.take(other@.len() as int) =~= p.subrange(0, other@.len() as int));
        }
    }
}

/// The root is shown by what stands after the last slash of its name, all else by its name.
pub proof fn the_root_is_shown_by_its_short_name(node: &FileNode, depth: usize, r: String)
    requires
        call_ensures(display_name, (node, depth), r),
    ensures
        depth > 0 ==> r@ == node.name@,
        depth == 0 ==> {
            &&& !r@.contains('/')
            &&& r@.len() <= node.name@.len()
            &&& node.name@.skip(node.name@.len() - r@.len()) == r@
            &&& r@.len() < node.name@.len() ==> node.name@[node.name@.len() - r@.len() - 1] == '/'
        },
{
    crate::laws::paths::lemma_last_segment(node.name@);
}

/// The same of the center of the sunburst.
pub proof fn the_center_is_shown_as_the_tree_shows_it(
    base: &FileNode,
    view: &[usize],
    depth: usize,
    r: String,
    s: String,
)
    requires
        call_ensures(center_name, (base, view), r),
        call_ensures(display_name, (base, depth), s),
        depth == view@.len(),
    ensures
        r@ == s@,
        view@.len() > 0 ==> r@ == base.name@,
{
}

/// A copy of a path, or of its beginning, has the same indices.
pub proof fn copies_of_paths_are_the_same(
    p: &Option<TreePath>,
    c: Option<TreePath>,
    path: &[usize],
    n: usize,
    r: TreePath,
    i: int,
)
    requires
        call_ensures(copy_opt_path, (p,), c),
        call_ensures(prefix_of, (path, n), r),
        n <= path@.len(),
    ensures
        *p is Some <==> c is Some,
        *p is Some ==> c->0@ == (*p)->0@,
        r@.len() == n,
        0 <= i < n ==> r@[i] == path@[i],
{
}

/// Every other row differs a little from the frame: by 8 in a dark theme and by 10 else, as
/// far as a channel goes.
pub proof fn every_other_row_differs_a_little(frame: u8, dark: bool, r: u8)
    requires
        call_ensures(alternate_channel, (frame, dark), r),
    ensures
        dark && r < 255 ==> r - frame == 8,
        dark && r == 255 ==> frame >= 247,
        !dark && r > 0 ==> frame - r == 10,
        !dark && r == 0 ==> frame <= 10,
{
}

/// The view shows the folder that was navigated to, or the whole tree if there is none.
pub proof fn the_view_shows_the_folder_or_the_tree(root: &FileNode, dir: &[usize], r: TreePath)
    requires
        call_ensures(view_root, (root, dir), r),
    ensures
        node_at(root@, r@) is Some,
        node_at(root@, dir@) is Some ==> r@ == dir@,
        node_at(root@, dir@) is None ==> r@.len() == 0,
{
}

/// A path in the view and where it is in the tree: the one leads from the folder of the view
/// to where the other leads from the root, and each gives the other.
pub proof fn paths_in_the_view_and_in_the_tree(
    view: &[usize],
    rel: &[usize],
    r: TreePath,
    whole: &[usize],
    s: Option<TreePath>,
)
    requires
        call_ensures(absolute_path, (view, rel), r),
        whole@ == r@,
        call_ensures(selection_in_view, (view, whole), s),
    ensures
        r@.len() == view@.len() + rel@.len(),
        forall|i: int| 0 <= i < view@.len() ==> r@[i] == view@[i],
        forall|i: int| 0 <= i < rel@.len() ==> r@[view@.len() + i] == #[trigger] rel@[i],
        s is Some && s->0@ == rel@,
{
    assert(whole@.subrange(0, view@.len() as int) =~= view@);
    assert(whole@.skip(view@.len() as int) =~= rel@);
}

/// What is selected is in the view if the path to it goes on from that of the view.
pub proof fn the_selection_is_in_the_view_below_its_folder(
    view: &[usize],
    selected: &[usize],
    r: Option<TreePath>,
)
    requires
        call_ensures(selection_in_view, (view, selected), r),
    ensures
        r is Some ==> selected@ == view@ + r->0@,
        r is None ==> view@.len() > selected@.len() || view@ != selected@.take(view@.len() as int),
{
    if view@.len() <= selected@.len() {
        assert(selected@.subrange(0, view@.len() as int) =~= selected@.take(view@.len() as int));
        if r is Some {
            assert(selected@ =~= view@ + selected@.skip(view@.len() as int));
        }
    }
}

/// A click selects what it hits. One on the background selects the folder above the view, or
/// nothing if that is the root. One on the background of the whole tree, or beside
/// everything, changes nothing.
pub proof fn a_click_selects_what_it_hits(
    view: &[usize],
    hit: &Option<TreePath>,
    selected: &Option<TreePath>,
    r: Option<TreePath>,
    h: Option<TreePath>,
)
    requires
        call_ensures(click_selection, (view, hit, selected), r),
        call_ensures(hit_path, (view, hit), h),
    ensures
        *hit is Some && (*hit)->0@.len() > 0 ==> {
            &&& r is Some && r->0@ == view@ + (*hit)->0@
            &&& h is Some && h->0@ == r->0@
        },
        !(*hit is Some && (*hit)->0@.len() > 0) ==> h is None,
        *hit is Some && (*hit)->0@.len() == 0 && view@.len() == 1 ==> r is None,
        *hit is Some && (*hit)->0@.len() == 0 && view@.len() > 1 ==> r is Some && r->0@.len()
            == view@.len() - 1 && r->0@ == view@.take(view@.len() - 1),
        *hit is None || ((*hit)->0@.len() == 0 && view@.len() == 0) ==> {
            &&& r is Some <==> *selected is Some
            &&& r is Some ==> r->0@ == (*selected)->0@
        },
{
    if view@.len() > 0 {
        assert(view@.drop_last() =~= view@.take(view@.len() - 1));
    }
}

/// A double click on the center leads one level up, but not above the root.
pub proof fn the_center_leads_one_level_up(view: &[usize], r: Option<TreePath>)
    requires
        call_ensures(center_activation, (view,), r),
    ensures
        r is Some <==> view@.len() > 0,
        r is Some ==> r->0@.len() == view@.len() - 1 && r->0@ == view@.take(view@.len() - 1),
{
    if view@.len() > 0 {
        assert(view@.drop_last() =~= view@.take(view@.len() - 1));
    }
}

proof fn lemma_with_names(a: Seq<char>, b: Seq<char>, names: Seq<Seq<char>>)
    ensures
        with_names(a + b, names) == a + with_names(b, names),
    decreases names.len(),
{
    if names.len() > 0 {
        assert((a + b).push('/') + names[0] =~= a + (b.push('/') + names[0]));
        lemma_with_names(a, b.push('/') + names[0], names.drop_first());
    }
}

/// The path in a tooltip goes down name by name: the name of the root, a slash, and the path
/// from the child that the first index leads to. An index that leads nowhere is passed over.
pub proof fn a_tooltip_goes_down_name_by_name(
    root: &FileNode,
    path: &[usize],
    r: String,
    child: &FileNode,
    rest: &[usize],
    below: String,
    beside: String,
)
    requires
        call_ensures(build_path, (root, path), r),
        call_ensures(build_path, (child, rest), below),
        call_ensures(build_path, (root, rest), beside),
        path@.len() > 0 ==> rest@ == path@.drop_first(),
    ensures
        path@.len() == 0 ==> r@ == root.name@,
        path@.len() > 0 && path@[0] < root.children@.len() && *child
            == root.children@[path@[0] as int] ==> r@ == root.name@.push('/') + below@,
        path@.len() > 0 && path@[0] >= root.children@.len() ==> r@ == beside@,
{
    if path@.len() > 0 && path@[0] < root.children@.len() && *child
        == root.children@[path@[0] as int] {
        let c = root@.children[path@[0] as int];
        assert(c == child@);
        let names = names_through(root@, path@);
        assert(names.drop_first() =~= names_through(c, rest@));
        lemma_with_names(root@.name.push('/'), c.name, names_through(c, rest@));
    }
}

/// A text that is too long is cut, and ends in an ellipsis then; no other is touched.
pub proof fn a_text_that_is_too_long_is_cut(s: &str, max: usize, r: String)
    requires
        call_ensures(truncate, (s, max), r),
        s@.len() > max ==> max > 0,
    ensures
        r@.len() <= max,
        s@.len() <= max ==> r@ == s@,
        s@.len() > max ==> r@.len() == max && r@.last() == '\u{2026}' && forall|i: int|
            0 <= i < max - 1 ==> r@[i] == s@[i],
{
}

/// A directory is lighter the deeper it is, down to the last ring.
pub proof fn deeper_directories_are_lighter(
    depth: usize,
    r: (u8, u8, u8),
    next: usize,
    s: (u8, u8, u8),
)
    requires
        call_ensures(dir_color, (depth,), r),
        call_ensures(dir_color, (next,), s),
        next == depth + 1,
    ensures
        depth == 0 ==> r == (70u8, 92u8, 78u8),
        depth < 6 ==> s.0 - r.0 == 6 && s.1 - r.1 == 9 && s.2 - r.2 == 6,
        depth >= 6 ==> s == r,
{
}

/// A name is found if the query stands somewhere in it. An empty query finds everything.
pub proof fn a_name_is_found_by_what_stands_in_it(lowered: &str, query: &str, r: bool)
    requires
        call_ensures(is_found, (lowered, query), r),
    ensures
        query@.len() == 0 ==> r,
        forall|a: Seq<char>, b: Seq<char>| lowered@ == #[trigger] (a + query@ + b) ==> r,
        r && query@.len() > 0 ==> exists|i: int| #[trigger] stands_at(lowered@, query@, i),
{
    lemma_found(lowered@, query@);
}

/// Whether a text is the other without the white space at its ends.
pub open spec fn is_core(t: Seq<char>, s: Seq<char>) -> bool {
    &&& exists|a: Seq<char>, b: Seq<char>|
        s == #[trigger] (a + t + b) && (forall|i: int|
            0 <= i < a.len() ==> is_space(#[trigger] a[i])) && (forall|i: int|
            0 <= i < b.len() ==> is_space(#[trigger] b[i]))
    &&& t.len() > 0 ==> !is_space(t[0]) && !is_space(t.last())
}

/// A search looks for the text without the white space at its ends, in lower case.
pub proof fn a_search_looks_for_the_text_in_lower_case(search: &str, r: String)
    requires
        call_ensures(search_query, (search,), r),
    ensures
        exists|t: Seq<char>| is_core(t, search@) && r@ == #[trigger] lowercase(t),
{
    lemma_core(search@);
    assert(is_core(trimmed(search@), search@));
}

proof fn lemma_core(s: Seq<char>)
    ensures
        is_core(trimmed(s), s),
{
    let t = trimmed(s);
    let from = lemma_trimmed(s);
    let a = s.take(from);
    let b = s.skip(from + t.len());
    assert(s =~= a + t + b);
}

/// Whether a name is one that a query finds.
pub open spec fn is_match(name: Seq<char>, query: Seq<char>) -> bool {
    query.len() == 0 || exists|i: int| #[trigger] stands_at(lowercase(name), query, i)
}

/// Whether these are the positions of the names that a query finds, in their order, each
/// once.
pub open spec fn are_matches(r: Seq<usize>, names: Seq<Seq<char>>, query: Seq<char>) -> bool {
    &&& forall|i: int, j: int| 0 <= i < j < r.len() ==> #[trigger] r[i] < #[trigger] r[j]
    &&& forall|i: int|
        0 <= i < r.len() ==> (#[trigger] r[i]) < names.len() && is_match(names[r[i] as int], query)
    &&& forall|k: int|
        0 <= k < names.len() && is_match(#[trigger] names[k], query) ==> exists|i: int|
            0 <= i < r.len() && #[trigger] r[i] == k
}

proof fn lemma_stands(hay: Seq<char>, needle: Seq<char>)
    ensures
        contains_text(hay, needle) == exists|i: int| #[trigger] stands_at(hay, needle, i),
{
    lemma_found(hay, needle);
    if exists|i: int| #[trigger] stands_at(hay, needle, i) {
        let i = choose|i: int| #[trigger] stands_at(hay, needle, i);
        assert(hay.subrange(i, i + needle.len()) =~= needle);
    }
}

proof fn lemma_matches(r: Seq<usize>, names: Seq<Seq<char>>, query: Seq<char>)
    requires
        as_ints(r) == found_at(names, query),
    ensures
        are_matches(r, names, query),
{
    let all = found_at(names, query);
    found_positions_are_right(names, query);
    assert(all.len() == r.len());
    assert forall|n: Seq<char>| crate::ui::files_view::found(lowercase(n), query) == is_match(
        n,
        query,
    ) by {
        lemma_stands(lowercase(n), query);
    }
    assert forall|i: int| 0 <= i < r.len() implies all[i] == #[trigger] r[i] by {
        assert(as_ints(r)[i] == r[i]);
    }
    assert forall|i: int| 0 <= i < r.len() implies (#[trigger] r[i]) < names.len() && is_match(
        names[r[i] as int],
        query,
    ) by {
        assert(all[i] == r[i]);
        assert(crate::ui::files_view::found(lowercase(names[all[i]]), query));
    }
    assert forall|i: int, j: int| 0 <= i < j < r.len() implies #[trigger] r[i]
        < #[trigger] r[j] by {
        assert(all[i] < all[j]);
    }
    assert forall|k: int|
        0 <= k < names.len() && is_match(#[trigger] names[k], query) implies exists|i: int|
        0 <= i < r.len() && #[trigger] r[i] == k by {
        assert(crate::ui::files_view::found(lowercase(names[k]), query));
        assert(all.contains(k));
        let i = choose|i: int| 0 <= i < all.len() && all[i] == k;
        assert(r[i] == k);
    }
}

/// The files that are found are those in whose names the query stands, in the order of the
/// list.
pub proof fn files_are_found_by_their_names(
    files: &Vec<FileSummary>,
    query: &str,
    r: Vec<usize>,
    names: Seq<Seq<char>>,
)
    requires
        call_ensures(find_files, (files, query), r),
        names.len() == files@.len(),
        forall|i: int| 0 <= i < names.len() ==> #[trigger] names[i] == files@[i].name@,
    ensures
        are_matches(r@, names, query@),
{
    assert(names =~= file_names(files@));
    lemma_matches(r@, names, query@);
}

/// The file types that are found are those in whose names the search text stands.
pub proof fn file_types_are_found_by_their_names(
    types: &Vec<ExtStat>,
    search: &str,
    r: Vec<usize>,
    query: String,
    names: Seq<Seq<char>>,
)
    requires
        call_ensures(find_types, (types, search), r),
        call_ensures(search_query, (search,), query),
        names.len() == types@.len(),
        forall|i: int| 0 <= i < names.len() ==> #[trigger] names[i] == types@[i].ext@,
    ensures
        are_matches(r@, names, query@),
{
    assert(names =~= type_names(types@));
    lemma_matches(r@, names, query@);
}

/// Whatever was found before, the filter holds what the search finds now.
pub proof fn the_filter_holds_what_the_search_finds(
    cache: Option<FilesFilter>,
    files: &Vec<FileSummary>,
    search: &str,
    r: FilesFilter,
    query: String,
    names: Seq<Seq<char>>,
)
    requires
        call_ensures(update_filter, (cache, files, search), r),
        call_ensures(search_query, (search,), query),
        names.len() == files@.len(),
        forall|i: int| 0 <= i < names.len() ==> #[trigger] names[i] == files@[i].name@,
    ensures
        r.query@ == query@,
        are_matches(r.indices@, names, query@),
{
    assert(names =~= file_names(files@));
    lemma_matches(r.indices@, names, query@);
}

/// The full bar stands for the largest folder.
pub proof fn the_full_bar_is_the_largest_folder(dirs: &Vec<DirSummary>, r: u64, i: int)
    requires
        call_ensures(bar_size, (dirs,), r),
    ensures
        r >= 1,
        0 <= i < dirs@.len() ==> dirs@[i].size <= r,
        r > 1 ==> exists|j: int| 0 <= j < dirs@.len() && (#[trigger] dirs@[j]).size == r,
{
    assert(reaches_all(dirs@, r));
}

/// A row has its rank, counted from 1, before the name.
pub proof fn a_row_has_its_rank_before_the_name(rank: usize, name: &str, r: String)
    requires
        call_ensures(row_title, (rank, name), r),
        rank < usize::MAX,
    ensures
        exists|n: Seq<char>|
            r@ == #[trigger] (n + ".  "@ + name@) && is_field(n, 1, rank + 1),
{
    lemma_decimal((rank + 1) as nat);
    assert(r@ == crate::decimal::decimal((rank + 1) as nat) + ".  "@ + name@);
}

/// A row says how many files and directories there are in the folder.
pub proof fn a_row_counts_files_and_directories(dir: &DirSummary, r: String)
    requires
        call_ensures(row_counts, (dir,), r),
    ensures
        exists|a: Seq<char>, b: Seq<char>|
            r@ == #[trigger] (a + " files \u{2022} "@ + b + " dirs"@) && is_field(
                a,
                1,
                dir.file_count as int,
            ) && is_field(b, 1, dir.dir_count as int),
{
    let a = crate::decimal::decimal(dir.file_count as nat);
    let b = crate::decimal::decimal(dir.dir_count as nat);
    lemma_decimal(dir.file_count as nat);
    lemma_decimal(dir.dir_count as nat);
    assert(r@ == a + " files \u{2022} "@ + b + " dirs"@);
}

} // verus!
