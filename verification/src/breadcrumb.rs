//! The breadcrumb: the parts of the path from the volume to the current folder,
//! and where each of them leads.

use vstd::prelude::*;

use crate::loaded::NavIntent;
use crate::model::node::{FileNode, Node};
use crate::model::tree::node_at;
use crate::path::{join, joined, lemma_filter_step, segments, split_path, strings, texts};
use crate::text::{chars_of, string_of};
use crate::ui::tree_view::prefix_of;

verus! {

broadcast use crate::model::node::group_nodes;

/// A part of the path, and what clicking it asks for.
pub struct Crumb {
    pub label: String,
    pub intent: NavIntent,
}

pub enum NavView {
    Back,
    Forward,
    SetDir(Seq<usize>),
    Rescan(Seq<char>),
}

pub struct CrumbView {
    pub label: Seq<char>,
    pub intent: NavView,
}

impl View for NavIntent {
    type V = NavView;

    open spec fn view(&self) -> NavView {
        match self {
            NavIntent::Back => NavView::Back,
            NavIntent::Forward => NavView::Forward,
            NavIntent::SetDir(d) => NavView::SetDir(d@),
            NavIntent::Rescan(p) => NavView::Rescan(p@),
        }
    }
}

impl View for Crumb {
    type V = CrumbView;

    open spec fn view(&self) -> CrumbView {
        CrumbView { label: self.label@, intent: self.intent@ }
    }
}

pub open spec fn crumb_views(v: Seq<Crumb>) -> Seq<CrumbView> {
    v.map_values(|c: Crumb| c@)
}

/// The parts of a path between its slashes, without the empty ones.
pub open spec fn components(path: Seq<char>) -> Seq<Seq<char>> {
    segments(path).filter(|t: Seq<char>| t.len() > 0)
}

/// The names of the nodes that `dir` leads through, down to where it leaves the
/// tree.
pub open spec fn names_along(n: Node, dir: Seq<usize>) -> Seq<Seq<char>>
    decreases dir.len(),
{
    if dir.len() == 0 || dir[0] >= n.children.len() {
        Seq::empty()
    } else {
        let c = n.children[dir[0] as int];
        seq![c.name] + names_along(c, dir.drop_first())
    }
}

/// The absolute path with these parts.
pub open spec fn rooted(parts: Seq<Seq<char>>) -> Seq<char>
    decreases parts.len(),
{
    if parts.len() == 0 {
        seq!['/']
    } else {
        joined(rooted(parts.drop_last()), parts.last())
    }
}

/// Where the crumb after `k` parts leads: at or below the root of the scan to the
/// folder in the tree, above it to a scan of that folder.
pub open spec fn crumb_intent(
    parts: Seq<Seq<char>>,
    root_depth: nat,
    dir: Seq<usize>,
    k: int,
) -> NavView {
    if k >= root_depth {
        NavView::SetDir(dir.take(k - root_depth))
    } else {
        NavView::Rescan(rooted(parts.take(k)))
    }
}

/// The crumbs: the volume, then each part of the path of the root, then each
/// folder down to the current one.
pub open spec fn crumbs(
    volume: Seq<char>,
    root_path: Seq<char>,
    root: Node,
    dir: Seq<usize>,
) -> Seq<CrumbView> {
    let depth = components(root_path).len();
    let parts = components(root_path) + names_along(root, dir);
    Seq::new(
        parts.len() + 1,
        |k: int|
            CrumbView {
                label: if k == 0 {
                    volume
                } else {
                    parts[k - 1]
                },
                intent: crumb_intent(parts, depth, dir, k),
            },
    )
}

proof fn lemma_names_along(n: Node, dir: Seq<usize>)
    ensures
        names_along(n, dir).len() <= dir.len(),
        node_at(n, dir) is Some ==> names_along(n, dir).len() == dir.len(),
    decreases dir.len(),
{
    if dir.len() > 0 && dir[0] < n.children.len() {
        lemma_names_along(n.children[dir[0] as int], dir.drop_first());
    }
}

/// The last crumb leads to the folder where the user is.
pub proof fn last_crumb_is_the_current_folder(
    volume: Seq<char>,
    root_path: Seq<char>,
    root: Node,
    dir: Seq<usize>,
)
    requires
        node_at(root, dir) is Some,
    ensures
        crumbs(volume, root_path, root, dir).last().intent == NavView::SetDir(dir),
{
    lemma_names_along(root, dir);
    assert(dir.take(dir.len() as int) =~= dir);
}

/// Every crumb at or below the root of the scan leads to a folder on the way to
/// the one where the user is, each a level below the one before it.
pub proof fn crumbs_lead_down_the_path(
    volume: Seq<char>,
    root_path: Seq<char>,
    root: Node,
    dir: Seq<usize>,
    k: int,
)
    requires
        node_at(root, dir) is Some,
        0 <= k <= dir.len(),
    ensures
        crumbs(volume, root_path, root, dir).len() == components(root_path).len() + dir.len() + 1,
        crumbs(volume, root_path, root, dir)[components(root_path).len() + k].intent
            == NavView::SetDir(dir.take(k)),
{
    lemma_names_along(root, dir);
}

/// The parts of a path between its slashes, without the empty ones.
pub fn path_components(path: &str) -> (r: Vec<String>)
    ensures
        strings(r@) == components(path@),
{
    let v = chars_of(path);
    let all = split_path(v.as_slice());
    let ghost segs = segments(path@);
    let ghost keep = |t: Seq<char>| t.len() > 0;
    let mut r: Vec<String> = Vec::new();
    proof {
        reveal(Seq::filter);
        assert(segs.take(0) =~= Seq::empty());
        assert(strings(r@) =~= segs.take(0).filter(keep));
    }
    for i in 0..all.len()
        invariant
            segs == texts(all@),
            keep == (|t: Seq<char>| t.len() > 0),
            strings(r@) == segs.take(i as int).filter(keep),
    {
        let ghost before = r@;
        proof {
            lemma_filter_step(segs, keep, i as int);
        }
        if all[i].len() > 0 {
            let t = string_of(all[i].as_slice());
            r.push(t);
            assert(strings(r@) =~= strings(before).push(t@));
        }
    }
    assert(segs.take(segs.len() as int) =~= segs);
    r
}

fn add_names_along(root: &FileNode, dir: &[usize], parts: &mut Vec<String>)
    ensures
        strings(final(parts)@) == strings(old(parts)@) + names_along(root@, dir@),
{
    let n = dir.len();
    let mut node: &FileNode = root;
    let mut i: usize = 0;
    let ghost all = strings(parts@) + names_along(root@, dir@);
    assert(dir@.skip(0) =~= dir@);
    while i < n && dir[i] < node.children.len()
        invariant
            n == dir@.len(),
            i <= n,
            strings(parts@) + names_along(node@, dir@.skip(i as int)) == all,
        decreases n - i,
    {
        let ghost before = parts@;
        let child = &node.children[dir[i]];
        parts.push(child.name.clone());
        proof {
            assert(dir@.skip(i as int).drop_first() =~= dir@.skip(i + 1));
            assert(strings(parts@) =~= strings(before).push(child@.name));
            assert(strings(parts@) + names_along(child@, dir@.skip(i + 1)) =~= strings(before)
                + names_along(node@, dir@.skip(i as int)));
        }
        node = child;
        i = i + 1;
    }
    assert(names_along(node@, dir@.skip(i as int)) =~= Seq::empty());
    assert(strings(parts@) =~= all);
}

/// The absolute path with the first `k` of these parts.
fn rooted_path(parts: &Vec<String>, k: usize) -> (r: String)
    requires
        k <= parts@.len(),
    ensures
        r@ == rooted(strings(parts@).take(k as int)),
{
    let ghost all = strings(parts@);
    let mut p = String::new();
    p.push('/');
    assert(p@ =~= rooted(all.take(0)));
    for i in 0..k
        invariant
            all == strings(parts@),
            k <= parts@.len(),
            p@ == rooted(all.take(i as int)),
    {
        assert(all.take(i + 1).drop_last() =~= all.take(i as int));
        assert(all.take(i + 1).last() == parts@[i as int]@);
        p = join(p.as_str(), parts[i].as_str());
    }
    p
}

/// The crumbs for the folder at `dir`.
pub fn build_crumbs(volume: String, root_path: &str, root: &FileNode, dir: &[usize]) -> (r: Vec<
    Crumb,
>)
    ensures
        crumb_views(r@) == crumbs(volume@, root_path@, root@, dir@),
{
    let mut parts = path_components(root_path);
    let root_depth = parts.len();
    let ghost depth = components(root_path@).len();
    assert(strings(parts@).len() == parts@.len());
    add_names_along(root, dir, &mut parts);
    let ghost all = strings(parts@);
    let n = parts.len();
    proof {
        lemma_names_along(root@, dir@);
        assert(all.len() == n);
    }
    let ghost whole = crumbs(volume@, root_path@, root@, dir@);
    let mut r: Vec<Crumb> = Vec::new();
    let first = if root_depth == 0 {
        assert(dir@.take(0) =~= Seq::empty());
        NavIntent::SetDir(Vec::new())
    } else {
        assert(all.take(0) =~= Seq::empty());
        NavIntent::Rescan(rooted_path(&parts, 0))
    };
    r.push(Crumb { label: volume, intent: first });
    assert(crumb_views(r@) =~= whole.take(1));
    for k in 0..n
        invariant
            n == parts@.len(),
            all == strings(parts@),
            all == components(root_path@) + names_along(root@, dir@),
            root_depth == components(root_path@).len(),
            names_along(root@, dir@).len() <= dir@.len(),
            whole == crumbs(volume@, root_path@, root@, dir@),
            crumb_views(r@) == whole.take(k + 1),
    {
        let ghost before = r@;
        let intent = if k + 1 >= root_depth {
            NavIntent::SetDir(prefix_of(dir, k + 1 - root_depth))
        } else {
            NavIntent::Rescan(rooted_path(&parts, k + 1))
        };
        let label = parts[k].clone();
        assert(label@ == all[k as int]);
        let c = Crumb { label, intent };
        r.push(c);
        assert(whole[k + 1] == c@);
        assert(crumb_views(r@) =~= crumb_views(before).push(c@));
        assert(whole.take(k + 2) =~= whole.take(k + 1).push(whole[k + 1]));
    }
    assert(whole.take(n + 1) =~= whole);
    r
}

/// Which of `n` crumbs are shown: all of up to five, else the first, a gap, and the
/// last three.
pub open spec fn shown_crumbs(n: nat) -> Seq<Option<int>> {
    if n > 5 {
        seq![Some(0int), None, Some(n - 3), Some(n - 2), Some(n - 1)]
    } else {
        Seq::new(n, |i: int| Some(i))
    }
}

pub open spec fn opt_ints(v: Seq<Option<usize>>) -> Seq<Option<int>> {
    v.map_values(
        |o: Option<usize>|
            match o {
                Some(i) => Some(i as int),
                None => None,
            },
    )
}

/// Which of `n` crumbs to show, where `None` stands for a gap.
pub fn elide(n: usize) -> (r: Vec<Option<usize>>)
    ensures
        opt_ints(r@) == shown_crumbs(n as nat),
{
    let mut r: Vec<Option<usize>> = Vec::new();
    if n > 5 {
        r.push(Some(0));
        r.push(None);
        r.push(Some(n - 3));
        r.push(Some(n - 2));
        r.push(Some(n - 1));
    } else {
        for i in 0..n
            invariant
                r@.len() == i,
                forall|j: int| 0 <= j < i ==> r@[j] == Some(j as usize),
        {
            r.push(Some(i));
        }
    }
    assert(opt_ints(r@) =~= shown_crumbs(n as nat));
    r
}

/// The label of the first crumb.
pub fn volume_label(name: Option<&str>) -> (r: String)
    ensures
        r@ == (match name {
            Some(t) => t@,
            None => "Macintosh HD"@,
        }),
{
    match name {
        Some(t) => t.to_owned(),
        None => "Macintosh HD".to_owned(),
    }
}

} // verus!
