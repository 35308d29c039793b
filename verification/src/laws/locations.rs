//! Where something is: the breadcrumb, and paths as seen from the root of the scan.

use vstd::prelude::*;

use crate::breadcrumb::{
    build_crumbs, components, crumb_views, elide, names_along, opt_ints, path_components, rooted,
    shown_crumbs, volume_label, Crumb,
};
use crate::laws::paths::{
    a_path_is_the_names_between_its_slashes, is_one_name, leads_alike, lemma_filter_concat,
    slashes_part_a_path,
};
use crate::location::{
    after_names, file_location, folder_location, from_first_name, joined_segments, parent_path,
    path_text, strip_base, through_last_name,
};
use crate::model::node::{FileNode, Node};
use crate::model::tree::node_at;
use crate::path::{is_name, joined, lemma_segments, path_parts, segments, strings, PathParts};

verus! {

broadcast use crate::model::node::group_nodes;

proof fn lemma_components(a: Seq<char>, b: Seq<char>)
    ensures
        components(a.push('/') + b) == components(a) + components(b),
        !a.contains('/') && a.len() > 0 ==> components(a) == seq![a],
        a.len() == 0 ==> components(a).len() == 0,
{
    let keep = |t: Seq<char>| t.len() > 0;
    slashes_part_a_path(a, b);
    lemma_filter_concat(segments(a), segments(b), keep);
    reveal(Seq::filter);
    let none = Seq::<Seq<char>>::empty();
    assert(seq![a].drop_last() =~= none);
    assert(none.filter(keep) =~= none);
    if !a.contains('/') {
        assert(seq![a].filter(keep) == if keep(a) {
            none.push(a)
        } else {
            none
        });
        assert(none.push(a) =~= seq![a]);
    }
}

/// The parts of a path are those before a slash and those after it. A text without a slash is
/// one part, if there is something in it.
pub proof fn a_slash_parts_the_parts(
    path: &str,
    a: &str,
    b: &str,
    r: Vec<String>,
    s: Vec<String>,
    t: Vec<String>,
)
    requires
        call_ensures(path_components, (path,), r),
        call_ensures(path_components, (a,), s),
        call_ensures(path_components, (b,), t),
    ensures
        path@ == a@.push('/') + b@ ==> strings(r@) == strings(s@) + strings(t@),
        !path@.contains('/') && path@.len() > 0 ==> r@.len() == 1 && r@[0]@ == path@,
        path@.len() == 0 ==> r@.len() == 0,
{
    lemma_components(a@, b@);
    lemma_components(path@, b@);
    assert(strings(r@).len() == r@.len());
    if !path@.contains('/') && path@.len() > 0 {
        assert(strings(r@)[0] == r@[0]@);
    }
}

/// Whether `dir` leads `m` levels down, and no further.
pub open spec fn leads_down(root: Node, dir: Seq<usize>, m: int) -> bool {
    &&& 0 <= m <= dir.len()
    &&& node_at(root, dir.take(m)) is Some
    &&& m < dir.len() ==> node_at(root, dir.take(m + 1)) is None
}

proof fn lemma_along(n: Node, dir: Seq<usize>, m: int)
    requires
        leads_down(n, dir, m),
    ensures
        names_along(n, dir).len() == m,
        forall|j: int|
            1 <= j <= m ==> node_at(n, #[trigger] dir.take(j)) is Some && names_along(
                n,
                dir,
            )[j - 1] == node_at(n, dir.take(j))->0.name,
    decreases dir.len(),
{
    if m == 0 {
        if dir.len() > 0 {
            let one = dir.take(1);
            assert(one.drop_first() =~= Seq::empty());
            if dir[0] < n.children.len() {
                assert(node_at(n.children[dir[0] as int], one.drop_first()) is Some);
            }
        }
    } else {
        let all = dir.take(m);
        assert(dir[0] == all[0]);
        assert(dir[0] < n.children.len());
        let c = n.children[dir[0] as int];
        let rest = dir.drop_first();
        assert(all.drop_first() =~= rest.take(m - 1));
        if m < dir.len() {
            assert(dir.take(m + 1).drop_first() =~= rest.take(m));
        }
        lemma_along(c, rest, m - 1);
        assert forall|j: int| 1 <= j <= m implies node_at(n, #[trigger] dir.take(j)) is Some
            && names_along(n, dir)[j - 1] == node_at(n, dir.take(j))->0.name by {
            assert(dir.take(j).drop_first() =~= rest.take(j - 1));
            assert(dir.take(j)[0] == dir[0]);
            if j == 1 {
                assert(rest.take(0) =~= Seq::empty());
                assert(node_at(c, rest.take(0)) == Some(c));
            }
        }
    }
}

/// The labels of the breadcrumb are the volume, the parts of the path of the root, and the
/// names of the folders down to the current one.
pub proof fn the_breadcrumb_names_the_way(
    volume: String,
    root_path: &str,
    root: &FileNode,
    dir: &[usize],
    r: Vec<Crumb>,
    parts: Vec<String>,
    m: int,
    k: int,
)
    requires
        call_ensures(build_crumbs, (volume, root_path, root, dir), r),
        call_ensures(path_components, (root_path,), parts),
        leads_down(root@, dir@, m),
        0 <= k < r@.len(),
    ensures
        r@.len() == parts@.len() + m + 1,
        k == 0 ==> r@[k].label@ == volume@,
        1 <= k <= parts@.len() ==> r@[k].label@ == parts@[k - 1]@,
        k > parts@.len() ==> r@[k].label@ == node_at(
            root@,
            dir@.take(k - parts@.len()),
        )->0.name,
{
    lemma_along(root@, dir@, m);
    assert(strings(parts@).len() == parts@.len());
    assert(crumb_views(r@).len() == r@.len());
    assert(crumb_views(r@)[k] == r@[k]@);
    if 1 <= k <= parts@.len() {
        assert(strings(parts@)[k - 1] == parts@[k - 1]@);
    }
}

/// The crumbs at and below the root of the scan lead to the folders on the way down. Those
/// above it ask for a scan of the folder with the parts up to there: the first of all
/// of the volume, and each other of the path before it and its own label.
pub proof fn the_breadcrumb_leads_along_the_way(
    volume: String,
    root_path: &str,
    root: &FileNode,
    dir: &[usize],
    r: Vec<Crumb>,
    parts: Vec<String>,
    m: int,
    k: int,
)
    requires
        call_ensures(build_crumbs, (volume, root_path, root, dir), r),
        call_ensures(path_components, (root_path,), parts),
        leads_down(root@, dir@, m),
        0 <= k < r@.len(),
    ensures
        k >= parts@.len() ==> r@[k].intent is SetDir && r@[k].intent->SetDir_0@ == dir@.take(
            k - parts@.len(),
        ),
        k < parts@.len() ==> r@[k].intent is Rescan,
        k == 0 && k < parts@.len() ==> r@[k].intent->Rescan_0@ == seq!['/'],
        k == 1 && k < parts@.len() ==> r@[k].intent->Rescan_0@ == seq!['/'] + parts@[0]@,
        2 <= k < parts@.len() ==> r@[k].intent->Rescan_0@ == r@[k - 1].intent->Rescan_0@.push('/')
            + parts@[k - 1]@,
{
    lemma_along(root@, dir@, m);
    lemma_segments(root_path@);
    let all = components(root_path@) + names_along(root@, dir@);
    assert(strings(parts@).len() == parts@.len());
    assert(crumb_views(r@).len() == r@.len());
    assert(crumb_views(r@)[k] == r@[k]@);
    if k == 0 {
        assert(all.take(0) =~= Seq::empty());
    } else if k < parts@.len() {
        assert(crumb_views(r@)[k - 1] == r@[k - 1]@);
        let part = parts@[k - 1]@;
        assert(strings(parts@)[k - 1] == part);
        assert(all[k - 1] == part);
        lemma_component(root_path@, k - 1);
        assert(all.take(k).drop_last() =~= all.take(k - 1));
        assert(all.take(k).last() == part);
        let before = rooted(all.take(k - 1));
        if k == 1 {
            assert(all.take(0) =~= Seq::empty());
            assert(before == seq!['/']);
            assert(joined(before, part) =~= seq!['/'] + part);
        } else {
            assert(all.take(k - 1).last() == all[k - 2]);
            lemma_component(root_path@, k - 2);
            lemma_rooted(all.take(k - 1));
        }
    }
}

proof fn lemma_component(path: Seq<char>, k: int)
    requires
        0 <= k < components(path).len(),
    ensures
        components(path)[k].len() > 0,
        !components(path)[k].contains('/'),
        components(path)[k][0] != '/',
{
    let keep = |t: Seq<char>| t.len() > 0;
    let t = components(path)[k];
    segments(path).lemma_filter_contains_rev(keep, t);
    let i = choose|i: int| 0 <= i < segments(path).len() && segments(path)[i] == t;
    lemma_segments(path);
    if t.contains('/') {
        let j = choose|j: int| 0 <= j < t.len() && t[j] == '/';
        assert(segments(path)[i][j] == '/');
    }
    assert(keep(t));
    assert(t.contains(t[0]));
}

proof fn lemma_rooted(parts: Seq<Seq<char>>)
    requires
        parts.len() > 0,
        parts.last().len() > 0,
        !parts.last().contains('/'),
    ensures
        rooted(parts).len() > 0,
        rooted(parts).last() != '/',
{
    let t = parts.last();
    assert(t.contains(t[0]));
    assert(t.contains(t[t.len() - 1]));
    assert(rooted(parts).last() == t.last());
}

/// Up to five crumbs are all shown. Of more, the first and the last three are, with one gap
/// after the first.
pub proof fn long_breadcrumbs_have_a_gap(n: usize, r: Vec<Option<usize>>, i: int)
    requires
        call_ensures(elide, (n,), r),
    ensures
        n <= 5 ==> r@.len() == n && (0 <= i < n ==> r@[i] == Some(i as usize)),
        n > 5 ==> {
            &&& r@.len() == 5
            &&& r@[0] == Some(0usize)
            &&& r@[1] is None
            &&& 2 <= i < 5 ==> r@[i] is Some && r@[i]->0 == n - 5 + i
        },
{
    let v = opt_ints(r@);
    assert(v.len() == r@.len());
    assert(shown_crumbs(n as nat).len() == r@.len());
    assert forall|j: int| 0 <= j < r@.len() implies shown_crumbs(n as nat)[j] == (
    match #[trigger] r@[j] {
        Some(x) => Some(x as int),
        None => None,
    }) by {
        assert(v[j] == shown_crumbs(n as nat)[j]);
    }
    if n > 5 {
        let _ = (r@[0], r@[1], r@[2], r@[3], r@[4]);
    }
}

/// The first crumb is named as the volume is, if that has a name.
pub proof fn the_first_crumb_is_the_volume(name: Option<&str>, r: String)
    requires
        call_ensures(volume_label, (name,), r),
    ensures
        name is Some ==> r@ == name->0@,
        name is None ==> r@ == "Macintosh HD"@,
{
}

spec fn without_slash(s: Seq<Seq<char>>) -> bool {
    forall|i: int| 0 <= i < s.len() ==> !(#[trigger] s[i]).contains('/')
}

spec fn named(s: Seq<Seq<char>>) -> Seq<Seq<char>> {
    s.filter(|t: Seq<char>| is_name(t))
}

proof fn lemma_without_slash(path: Seq<char>)
    ensures
        without_slash(segments(path)),
{
    lemma_segments(path);
    assert forall|i: int| 0 <= i < segments(path).len() implies !(
    #[trigger] segments(path)[i]).contains('/') by {
        let t = segments(path)[i];
        if t.contains('/') {
            let j = choose|j: int| 0 <= j < t.len() && t[j] == '/';
            assert(segments(path)[i][j] == '/');
        }
    }
}

proof fn lemma_joined_segments(s: Seq<Seq<char>>)
    requires
        s.len() > 0,
        without_slash(s),
    ensures
        segments(joined_segments(s)) == s,
    decreases s.len(),
{
    if s.len() == 1 {
        slashes_part_a_path(s[0], Seq::empty());
        assert(s =~= seq![s[0]]);
    } else {
        let rest = s.drop_last();
        assert forall|i: int| 0 <= i < rest.len() implies !(#[trigger] rest[i]).contains('/') by {
            assert(rest[i] == s[i]);
        }
        lemma_joined_segments(rest);
        slashes_part_a_path(joined_segments(rest), s.last());
        slashes_part_a_path(s.last(), Seq::empty());
        assert(!s[s.len() - 1].contains('/'));
        assert(rest + seq![s.last()] =~= s);
    }
}

proof fn lemma_joined_parts(s: Seq<Seq<char>>)
    requires
        without_slash(s),
    ensures
        path_parts(joined_segments(s)).names == named(s),
        path_parts(joined_segments(s)).absolute <==> s.len() > 1 && s[0].len() == 0,
        s.len() > 0 && !(s.len() > 1 && s[0].len() == 0) ==> (path_parts(
            joined_segments(s),
        ).dotted <==> s[0] == seq!['.']),
        s.len() == 0 ==> !path_parts(joined_segments(s)).dotted,
    decreases s.len(),
{
    let t = joined_segments(s);
    if s.len() == 0 {
        reveal(Seq::filter);
        slashes_part_a_path(t, t);
        a_path_is_the_names_between_its_slashes(t, t);
        assert(named(s) =~= path_parts(t).names);
        assert(segments(t)[0] == t);
        assert(t.len() != seq!['.'].len());
    } else {
        lemma_joined_segments(s);
        lemma_starts(t);
    }
}

/// A path is absolute if its first piece is empty and not the only one.
proof fn lemma_starts(t: Seq<char>)
    ensures
        (t.len() > 0 && t[0] == '/') <==> segments(t).len() > 1 && segments(t)[0].len() == 0,
{
    lemma_segments(t);
    let k = crate::text::first_index(t, '/') as int;
    crate::laws::paths::lemma_first(t);
    if k < t.len() {
        lemma_segments(t.skip(k + 1));
        assert(segments(t)[0] == t.take(k));
        if k > 0 {
            assert(t[0] != '/');
        }
    } else {
        assert(segments(t)[0] == t);
    }
}

proof fn lemma_through(s: Seq<Seq<char>>)
    ensures
        named(through_last_name(s)) == named(s),
        through_last_name(s).is_prefix_of(s),
        named(s).len() == 0 <==> through_last_name(s).len() == 0,
        through_last_name(s).len() > 0 ==> is_name(through_last_name(s).last()) && named(
            through_last_name(s).drop_last(),
        ) == named(s).drop_last(),
    decreases s.len(),
{
    reveal(Seq::filter);
    if s.len() == 0 {
        assert(s.subrange(0, 0) =~= s);
    } else if is_name(s.last()) {
        assert(s.subrange(0, s.len() as int) =~= s);
        assert(named(s) == named(s.drop_last()).push(s.last()));
        assert(named(s).drop_last() =~= named(s.drop_last()));
    } else {
        lemma_through(s.drop_last());
        let t = through_last_name(s);
        assert(t =~= s.subrange(0, t.len() as int)) by {
            assert(t =~= s.drop_last().subrange(0, t.len() as int));
        }
    }
}

proof fn lemma_from(s: Seq<Seq<char>>)
    ensures
        named(from_first_name(s)) == named(s),
        from_first_name(s).len() > 0 ==> is_name(from_first_name(s)[0]),
        without_slash(s) ==> without_slash(from_first_name(s)),
    decreases s.len(),
{
    if s.len() > 0 && !is_name(s[0]) {
        lemma_first_out(s);
        lemma_from(s.drop_first());
        if without_slash(s) {
            assert forall|i: int| 0 <= i < s.drop_first().len() implies !(
            #[trigger] s.drop_first()[i]).contains('/') by {
                assert(s.drop_first()[i] == s[i + 1]);
            }
        }
    }
}

proof fn lemma_first_out(s: Seq<Seq<char>>)
    requires
        s.len() > 0,
    ensures
        named(s) == if is_name(s[0]) {
            seq![s[0]] + named(s.drop_first())
        } else {
            named(s.drop_first())
        },
{
    reveal(Seq::filter);
    let keep = |t: Seq<char>| is_name(t);
    let one = seq![s[0]];
    assert(s =~= one + s.drop_first());
    lemma_filter_concat(one, s.drop_first(), keep);
    assert(one.drop_last() =~= Seq::empty());
    let none = Seq::<Seq<char>>::empty();
    assert(none.filter(keep) =~= none);
    assert(one.filter(keep) == if is_name(s[0]) {
        none.push(s[0])
    } else {
        none
    });
    assert(none.push(s[0]) =~= one);
    assert(none + named(s.drop_first()) =~= named(s.drop_first()));
}

proof fn lemma_after(s: Seq<Seq<char>>, m: nat)
    requires
        m <= named(s).len(),
    ensures
        named(after_names(s, m)) == named(s).skip(m as int),
        without_slash(s) ==> without_slash(after_names(s, m)),
    decreases s.len(),
{
    if m == 0 || s.len() == 0 {
        reveal(Seq::filter);
        assert(named(s).skip(m as int) =~= named(s));
    } else {
        lemma_first_out(s);
        let rest = s.drop_first();
        if without_slash(s) {
            assert forall|i: int| 0 <= i < rest.len() implies !(#[trigger] rest[i]).contains(
                '/',
            ) by {
                assert(rest[i] == s[i + 1]);
            }
        }
        if is_name(s[0]) {
            lemma_after(rest, (m - 1) as nat);
            assert(named(s).skip(m as int) =~= named(rest).skip(m - 1));
        } else {
            lemma_after(rest, m);
        }
    }
}

proof fn lemma_prefix_slash(t: Seq<Seq<char>>, s: Seq<Seq<char>>)
    requires
        without_slash(s),
        t.is_prefix_of(s),
    ensures
        without_slash(t),
{
    assert forall|i: int| 0 <= i < t.len() implies !(#[trigger] t[i]).contains('/') by {
        assert(t[i] == s.subrange(0, t.len() as int)[i]);
        assert(t[i] == s[i]);
    }
}

/// A path through the first pieces of another begins as that does and has their names.
proof fn lemma_path_text(path: Seq<char>, s: Seq<Seq<char>>)
    requires
        s.is_prefix_of(segments(path)),
    ensures
        path_parts(path_text(path_parts(path), s)).names == named(s),
        path_parts(path_text(path_parts(path), s)).absolute == path_parts(path).absolute,
        path_parts(path_text(path_parts(path), s)).dotted == path_parts(path).dotted,
{
    let parts = path_parts(path);
    let t = through_last_name(s);
    let none = Seq::<char>::empty();
    lemma_through(s);
    lemma_without_slash(path);
    lemma_prefix_slash(s, segments(path));
    lemma_prefix_slash(t, s);
    lemma_starts(path);
    lemma_segments(path);
    reveal(Seq::filter);
    if t.len() > 0 {
        lemma_joined_parts(t);
        assert(t[0] == s.subrange(0, t.len() as int)[0]);
        assert(s[0] == segments(path).subrange(0, s.len() as int)[0]);
        assert(t[0] == segments(path)[0]);
        assert(is_name(t.last()));
        if t.len() == 1 {
            assert(t[0] == t.last());
        } else {
            assert(s.len() > 1);
            assert(segments(path).len() > 1);
        }
    } else {
        assert(named(s).len() == 0);
        assert(named(s) =~= Seq::empty());
        let slash = seq!['/'];
        let dot = seq!['.'];
        a_path_is_the_names_between_its_slashes(none, none);
        assert(none.push('/') + none =~= slash);
        a_path_is_the_names_between_its_slashes(slash, none);
        a_path_is_the_names_between_its_slashes(dot, none);
        assert(path_parts(slash).names =~= Seq::empty());
        assert(path_parts(dot).names =~= Seq::empty());
        assert(path_parts(none).names =~= Seq::empty());
        if parts.absolute {
            assert(slash[0] == '/');
            assert(!path_parts(slash).dotted);
        } else if parts.dotted {
            assert(dot[0] != '/');
        } else {
            if seq!['.', '/'].is_prefix_of(none) {
                assert(seq!['.', '/'].len() <= none.len());
            }
            assert(none.len() != dot.len());
        }
    }
}

/// The folder of a path has all its names but the last and begins as the path does. A path
/// without names is in no folder, but for a single dot.
pub proof fn the_folder_of_a_path_has_one_name_less(path: &str, r: Option<String>)
    requires
        call_ensures(parent_path, (path,), r),
    ensures
        r is Some <==> path_parts(path@).names.len() > 0 || path_parts(path@).dotted,
        path_parts(path@).names.len() > 0 ==> {
            &&& path_parts(r->0@).names == path_parts(path@).names.drop_last()
            &&& path_parts(r->0@).absolute == path_parts(path@).absolute
            &&& path_parts(r->0@).dotted == path_parts(path@).dotted
        },
        path_parts(path@).names.len() == 0 && path_parts(path@).dotted ==> r->0@.len() == 0,
{
    if path_parts(path@).names.len() > 0 {
        lemma_parent(path@);
    }
}

proof fn lemma_parent(path: Seq<char>)
    requires
        path_parts(path).names.len() > 0,
    ensures
        ({
            let t = crate::location::parent(path)->0;
            &&& path_parts(t).names == path_parts(path).names.drop_last()
            &&& path_parts(t).absolute == path_parts(path).absolute
            &&& path_parts(t).dotted == path_parts(path).dotted
        }),
{
    let s = segments(path);
    let t = through_last_name(s);
    lemma_through(s);
    let u = t.drop_last();
    assert(u =~= s.subrange(0, u.len() as int)) by {
        assert(t =~= s.subrange(0, t.len() as int));
    }
    lemma_path_text(path, u);
}

/// Whether a path is under another: it begins as that does and has its names first. Every
/// path is under the empty one.
pub open spec fn is_under(path: PathParts, base: PathParts) -> bool {
    &&& base.names.is_prefix_of(path.names)
    &&& (!base.absolute && !base.dotted && base.names.len() == 0) || (path.absolute == base.absolute
        && path.dotted == base.dotted)
}

proof fn lemma_stripped(path: Seq<char>, base: Seq<char>)
    ensures
        ({
            let a = path_parts(path);
            let b = path_parts(base);
            let r = crate::location::stripped(path, base);
            &&& r is Some <==> is_under(a, b)
            &&& r is Some ==> path_parts(r->0).names == a.names.skip(b.names.len() as int)
            &&& r is Some && base.len() == 0 ==> leads_alike(r->0, path)
            &&& r is Some && (b.absolute || b.dotted || b.names.len() > 0) ==> !path_parts(
                r->0,
            ).absolute && !path_parts(r->0).dotted
        }),
{
    let a = path_parts(path);
    let b = path_parts(base);
    let s = segments(path);
    let none = Seq::<char>::empty();
    a_path_is_the_names_between_its_slashes(base, none);
    if base.len() == 0 {
        assert(base =~= none);
        assert(none.len() != seq!['.'].len());
        if seq!['.', '/'].is_prefix_of(none) {
            assert(seq!['.', '/'].len() <= none.len());
        }
    }
    if b.names.is_prefix_of(a.names) {
        if !b.absolute && !b.dotted && b.names.len() == 0 {
            assert(s.subrange(0, s.len() as int) =~= s);
            lemma_path_text(path, s);
            assert(a.names.skip(0) =~= a.names);
        } else if a.absolute == b.absolute && a.dotted == b.dotted {
            let u = after_names(s, b.names.len());
            let v = from_first_name(u);
            let w = through_last_name(v);
            lemma_without_slash(path);
            lemma_after(s, b.names.len());
            lemma_from(u);
            lemma_through(v);
            lemma_prefix_slash(w, v);
            lemma_joined_parts(w);
            if w.len() > 0 {
                assert(w[0] == v.subrange(0, w.len() as int)[0]);
                assert(is_name(w[0]));
            }
        }
    }
}

/// What follows a base in a path has the names of the path after those of the base, and is
/// there if the path is under the base.
pub proof fn what_follows_a_base_has_the_other_names(path: &str, base: &str, r: Option<String>)
    requires
        call_ensures(strip_base, (path, base), r),
    ensures
        r is Some <==> is_under(path_parts(path@), path_parts(base@)),
        r is Some ==> path_parts(r->0@).names == path_parts(path@).names.skip(
            path_parts(base@).names.len() as int,
        ),
        r is Some && base@.len() == 0 ==> leads_alike(r->0@, path@),
        r is Some && (path_parts(base@).absolute || path_parts(base@).dotted || path_parts(
            base@,
        ).names.len() > 0) ==> !path_parts(r->0@).absolute && !path_parts(r->0@).dotted,
{
    lemma_stripped(path@, base@);
}

/// A folder under the root is shown by the names after those of the root, any other by its
/// whole path.
pub proof fn a_folder_is_shown_as_seen_from_the_root(path: &str, root: &str, r: String)
    requires
        call_ensures(folder_location, (path, root), r),
    ensures
        is_under(path_parts(path@), path_parts(root@)) ==> path_parts(r@).names == path_parts(
            path@,
        ).names.skip(path_parts(root@).names.len() as int),
        !is_under(path_parts(path@), path_parts(root@)) ==> r@ == path@,
{
    lemma_stripped(path@, root@);
}

/// A file is shown by the names of its folder after those of the root, if the folder is under
/// it, and else by its whole path.
pub proof fn a_file_is_shown_by_its_folder_as_seen_from_the_root(
    path: &str,
    root: &str,
    r: String,
    folder: PathParts,
)
    requires
        call_ensures(file_location, (path, root), r),
        path_parts(path@).names.len() > 0,
        folder.names == path_parts(path@).names.drop_last(),
        folder.absolute == path_parts(path@).absolute,
        folder.dotted == path_parts(path@).dotted,
    ensures
        is_under(folder, path_parts(root@)) ==> path_parts(r@).names == folder.names.skip(
            path_parts(root@).names.len() as int,
        ),
        !is_under(folder, path_parts(root@)) ==> r@ == path@,
{
    lemma_parent(path@);
    let t = crate::location::parent(path@)->0;
    lemma_stripped(t, root@);
}

proof fn lemma_joined_first(x: Seq<char>, t: Seq<Seq<char>>)
    requires
        t.len() > 0,
    ensures
        joined_segments(seq![x] + t) == x.push('/') + joined_segments(t),
    decreases t.len(),
{
    let s = seq![x] + t;
    assert(s.last() == t.last());
    if t.len() == 1 {
        assert(s.drop_last() =~= seq![x]);
        assert(joined_segments(s.drop_last()) == x);
    } else {
        assert(s.drop_last() =~= seq![x] + t.drop_last());
        lemma_joined_first(x, t.drop_last());
        assert((x.push('/') + joined_segments(t.drop_last())).push('/') + t.last() =~= x.push('/')
            + (joined_segments(t.drop_last()).push('/') + t.last()));
    }
}

/// The pieces of a path with slashes between them are the path.
proof fn lemma_joined_back(s: Seq<char>)
    ensures
        joined_segments(segments(s)) == s,
    decreases s.len(),
{
    let k = crate::text::first_index(s, '/') as int;
    crate::laws::paths::lemma_first(s);
    if k < s.len() {
        let rest = s.skip(k + 1);
        lemma_joined_back(rest);
        lemma_segments(rest);
        lemma_joined_first(s.take(k), segments(rest));
        assert(s.take(k).push('/') + rest =~= s);
    }
}

proof fn lemma_after_base(a: Seq<Seq<char>>, b: Seq<Seq<char>>)
    requires
        b.len() > 0,
        is_name(b[0]),
    ensures
        from_first_name(after_names(a + b, named(a).len())) == b,
    decreases a.len(),
{
    let s = a + b;
    if a.len() == 0 {
        reveal(Seq::filter);
        assert(s =~= b);
    } else {
        lemma_first_out(a);
        assert(s.drop_first() =~= a.drop_first() + b);
        assert(s[0] == a[0]);
        lemma_after_base(a.drop_first(), b);
    }
}

/// Whether a relative path begins and ends with a name.
pub open spec fn is_neat(rest: Seq<char>) -> bool {
    is_name(segments(rest)[0]) && is_name(segments(rest).last())
}

proof fn lemma_strip_text(path: Seq<char>, base: Seq<char>, b: Seq<char>, rest: Seq<char>)
    requires
        base.len() > 0,
        path == b.push('/') + rest,
        base == b || base == b.push('/'),
        is_neat(rest),
    ensures
        crate::location::stripped(path, base) == Some(rest),
{
    let none = Seq::<char>::empty();
    let s = segments(b);
    let t = segments(rest);
    lemma_segments(b);
    lemma_segments(rest);
    slashes_part_a_path(b, rest);
    slashes_part_a_path(b, none);
    slashes_part_a_path(none, none);
    assert(b.push('/') + none =~= b.push('/'));
    a_path_is_the_names_between_its_slashes(b, rest);
    a_path_is_the_names_between_its_slashes(b, none);
    a_path_is_the_names_between_its_slashes(none, none);
    assert(path_parts(b).names + path_parts(none).names =~= path_parts(b).names);
    let names = path_parts(base).names;
    assert(names == path_parts(b).names);
    assert(path_parts(path).names.subrange(0, names.len() as int) =~= names);
    assert(segments(path)[0] == s[0]);
    assert(segments(base)[0] == s[0]);
    assert(path_parts(path).absolute == path_parts(base).absolute);
    assert(path_parts(path).dotted == path_parts(base).dotted);
    if !path_parts(base).absolute && !path_parts(base).dotted && names.len() == 0 {
        lemma_starts(base);
        lemma_segments(base);
        lemma_first_out(segments(base));
        if s[0].len() == 0 {
            lemma_joined_back(base);
            assert(segments(base) =~= seq![s[0]]);
            assert(joined_segments(segments(base)) == s[0]);
        }
        assert(is_name(s[0]));
    }
    assert(named(s) == names);
    lemma_after_base(s, t);
    assert(through_last_name(t) == t);
    lemma_joined_back(rest);
}

/// What follows a base is written as it is in the path: of the base, a slash and the rest, or
/// of a base that ends in a slash and the rest, the rest is what follows.
pub proof fn what_follows_a_base_is_written_as_it_is(
    path: &str,
    base: &str,
    rest: Seq<char>,
    r: Option<String>,
    l: String,
)
    requires
        call_ensures(strip_base, (path, base), r),
        call_ensures(folder_location, (path, base), l),
        base@.len() > 0,
        path@ == base@.push('/') + rest || (base@.last() == '/' && path@ == base@ + rest),
        is_neat(rest),
    ensures
        r is Some && r->0@ == rest,
        l@ == rest,
{
    if path@ == base@.push('/') + rest {
        lemma_strip_text(path@, base@, base@, rest);
    } else {
        let b = base@.drop_last();
        assert(b.push('/') =~= base@);
        lemma_strip_text(path@, base@, b, rest);
    }
}

proof fn lemma_one_name(name: Seq<char>)
    requires
        is_one_name(name),
    ensures
        is_name(name),
        segments(name) == seq![name],
        !path_parts(name).absolute,
        !path_parts(name).dotted,
        path_parts(name).names == seq![name],
{
    let none = Seq::<char>::empty();
    if name == seq!['.'] {
        assert(name.len() == 1 && name[0] == '.');
    }
    slashes_part_a_path(name, none);
    a_path_is_the_names_between_its_slashes(name, none);
    assert(name.contains(name[0]));
}

proof fn lemma_parent_under(base: Seq<char>, name: Seq<char>)
    requires
        is_one_name(name),
        base.len() > 0,
        is_name(segments(base).last()),
    ensures
        crate::location::parent(base.push('/') + name) == Some(base),
{
    let path = base.push('/') + name;
    let s = segments(path);
    lemma_one_name(name);
    slashes_part_a_path(base, name);
    a_path_is_the_names_between_its_slashes(base, name);
    lemma_segments(base);
    assert(s == segments(base) + seq![name]);
    assert(s.last() == name);
    assert(s.drop_last() =~= segments(base));
    assert(through_last_name(s) == s);
    assert(through_last_name(segments(base)) == segments(base));
    assert(path_parts(path).names.len() > 0);
    lemma_joined_back(base);
}

proof fn lemma_parent_root(name: Seq<char>)
    requires
        is_one_name(name),
    ensures
        crate::location::parent(Seq::<char>::empty().push('/') + name) == Some(seq!['/']),
{
    let base = Seq::<char>::empty();
    let path = base.push('/') + name;
    let s = segments(path);
    let one = seq![base];
    lemma_one_name(name);
    slashes_part_a_path(base, name);
    a_path_is_the_names_between_its_slashes(base, name);
    assert(segments(base) == one);
    assert(s == one + seq![name]);
    assert(s.last() == name);
    assert(s.drop_last() =~= one);
    assert(through_last_name(s) == s);
    assert(!is_name(one.last()));
    assert(one.drop_last() =~= Seq::empty());
    assert(through_last_name(one.drop_last()).len() == 0);
    assert(path[0] == '/');
    assert(path_parts(path).names.len() > 0);
}

proof fn lemma_parent_alone(name: Seq<char>)
    requires
        is_one_name(name),
    ensures
        crate::location::parent(name) == Some(Seq::<char>::empty()),
{
    let t = seq![name];
    lemma_one_name(name);
    assert(t.last() == name);
    assert(t.drop_last() =~= Seq::empty());
    assert(through_last_name(t) == t);
    assert(through_last_name(t.drop_last()).len() == 0);
}

/// The folder of something is written as it is in the path: of a folder, a slash and a name,
/// it is the folder.
pub proof fn the_folder_of_a_path_is_written_as_it_is(
    path: &str,
    base: Seq<char>,
    name: Seq<char>,
    r: Option<String>,
)
    requires
        call_ensures(parent_path, (path,), r),
        is_one_name(name),
    ensures
        path@ == base.push('/') + name && base.len() > 0 && is_name(segments(base).last()) ==> r
            is Some && r->0@ == base,
        path@ == base.push('/') + name && base.len() == 0 ==> r is Some && r->0@ == seq!['/'],
        path@ == name ==> r is Some && r->0@.len() == 0,
{
    if base.len() > 0 {
        if is_name(segments(base).last()) {
            lemma_parent_under(base, name);
        }
    } else {
        assert(base =~= Seq::empty());
        lemma_parent_root(name);
    }
    lemma_parent_alone(name);
}

/// A file in a folder under the root is shown by where the folder is from there.
pub proof fn a_file_is_shown_by_where_its_folder_is(
    path: &str,
    root: &str,
    rest: Seq<char>,
    name: Seq<char>,
    r: String,
)
    requires
        call_ensures(file_location, (path, root), r),
        root@.len() > 0,
        is_neat(rest),
        is_one_name(name),
        path@ == (root@.push('/') + rest).push('/') + name,
    ensures
        r@ == rest,
{
    let folder = root@.push('/') + rest;
    slashes_part_a_path(root@, rest);
    lemma_segments(rest);
    assert(segments(folder).last() == segments(rest).last());
    lemma_parent_under(folder, name);
    lemma_strip_text(folder, root@, root@, rest);
}

} // verus!
