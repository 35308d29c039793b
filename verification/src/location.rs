//! Where something is, relative to the root of the scan.

use vstd::prelude::*;

use crate::path::{
    is_dot, is_dotted, is_name, lemma_segments, path_names, path_parts, same_chars, segments,
    split_path, texts, PathParts,
};
use crate::text::{chars_of, push_text, string_of};

verus! {

/// The segments with a slash between each two.
pub open spec fn joined_segments(s: Seq<Seq<char>>) -> Seq<char>
    decreases s.len(),
{
    if s.len() == 0 {
        Seq::empty()
    } else if s.len() == 1 {
        s[0]
    } else {
        joined_segments(s.drop_last()).push('/') + s.last()
    }
}

/// The segments up to the last one that names something.
pub open spec fn through_last_name(s: Seq<Seq<char>>) -> Seq<Seq<char>>
    decreases s.len(),
{
    if s.len() == 0 || is_name(s.last()) {
        s
    } else {
        through_last_name(s.drop_last())
    }
}

/// The segments from the first one on that names something.
pub open spec fn from_first_name(s: Seq<Seq<char>>) -> Seq<Seq<char>>
    decreases s.len(),
{
    if s.len() == 0 || is_name(s[0]) {
        s
    } else {
        from_first_name(s.drop_first())
    }
}

/// The segments after the first `m` that name something.
pub open spec fn after_names(s: Seq<Seq<char>>, m: nat) -> Seq<Seq<char>>
    decreases s.len(),
{
    if s.len() == 0 || m == 0 {
        s
    } else if is_name(s[0]) {
        after_names(s.drop_first(), (m - 1) as nat)
    } else {
        after_names(s.drop_first(), m)
    }
}

/// The path that begins as `parts` does and goes through `s`, without a slash or
/// dot at its end.
pub open spec fn path_text(parts: PathParts, s: Seq<Seq<char>>) -> Seq<char> {
    let t = through_last_name(s);
    if t.len() > 0 {
        joined_segments(t)
    } else if parts.absolute {
        seq!['/']
    } else if parts.dotted {
        seq!['.']
    } else {
        Seq::empty()
    }
}

/// What follows `base` in `path`, if `path` is under `base`.
pub open spec fn stripped(path: Seq<char>, base: Seq<char>) -> Option<Seq<char>> {
    let a = path_parts(path);
    let b = path_parts(base);
    if !b.names.is_prefix_of(a.names) {
        None
    } else if !b.absolute && !b.dotted && b.names.len() == 0 {
        Some(path_text(a, segments(path)))
    } else if a.absolute != b.absolute || a.dotted != b.dotted {
        None
    } else {
        Some(
            joined_segments(
                through_last_name(from_first_name(after_names(segments(path), b.names.len()))),
            ),
        )
    }
}

/// The path of the folder that `path` is in.
pub open spec fn parent(path: Seq<char>) -> Option<Seq<char>> {
    let a = path_parts(path);
    if a.names.len() > 0 {
        Some(path_text(a, through_last_name(segments(path)).drop_last()))
    } else if a.dotted {
        Some(Seq::empty())
    } else {
        None
    }
}

/// Where a folder is, as seen from the root of the scan.
pub open spec fn folder_location_of(path: Seq<char>, root: Seq<char>) -> Seq<char> {
    match stripped(path, root) {
        Some(t) => t,
        None => path,
    }
}

/// Where the folder of a file is, as seen from the root of the scan.
pub open spec fn file_location_of(path: Seq<char>, root: Seq<char>) -> Seq<char> {
    let folder = match parent(path) {
        Some(t) => t,
        None => path,
    };
    match stripped(folder, root) {
        Some(t) => t,
        None => path,
    }
}

fn names_something(t: &Vec<char>) -> (r: bool)
    ensures
        r == is_name(t@),
{
    t.len() > 0 && !is_dot(t)
}

/// The end of the part of `segs` from `lo` to `hi` that ends in a name.
fn name_end(segs: &Vec<Vec<char>>, lo: usize, hi: usize) -> (r: usize)
    requires
        lo <= hi <= segs@.len(),
    ensures
        lo <= r <= hi,
        through_last_name(texts(segs@).subrange(lo as int, hi as int)) == texts(segs@).subrange(
            lo as int,
            r as int,
        ),
        r > lo ==> is_name(segs@[r - 1]@),
        forall|i: int| r <= i < hi ==> !is_name(#[trigger] segs@[i]@),
{
    let ghost all = texts(segs@);
    let mut e: usize = hi;
    while e > lo && !names_something(&segs[e - 1])
        invariant
            lo <= e <= hi <= segs@.len(),
            all == texts(segs@),
            through_last_name(all.subrange(lo as int, hi as int)) == through_last_name(
                all.subrange(lo as int, e as int),
            ),
            forall|i: int| e <= i < hi ==> !is_name(#[trigger] segs@[i]@),
        decreases e,
    {
        let ghost now = all.subrange(lo as int, e as int);
        assert(now.last() == segs@[e - 1]@);
        assert(now.drop_last() =~= all.subrange(lo as int, e - 1));
        e = e - 1;
    }
    proof {
        let now = all.subrange(lo as int, e as int);
        if e > lo {
            assert(now.last() == segs@[e - 1]@);
        }
    }
    e
}

/// The start of the part of `segs` from `lo` on that begins with a name.
fn name_start(segs: &Vec<Vec<char>>, lo: usize) -> (r: usize)
    requires
        lo <= segs@.len(),
    ensures
        lo <= r <= segs@.len(),
        from_first_name(texts(segs@).skip(lo as int)) == texts(segs@).skip(r as int),
{
    let ghost all = texts(segs@);
    let mut k: usize = lo;
    while k < segs.len() && !names_something(&segs[k])
        invariant
            lo <= k <= segs@.len(),
            all == texts(segs@),
            from_first_name(all.skip(lo as int)) == from_first_name(all.skip(k as int)),
        decreases segs@.len() - k,
    {
        assert(all.skip(k as int)[0] == segs@[k as int]@);
        assert(all.skip(k as int).drop_first() =~= all.skip(k + 1));
        k = k + 1;
    }
    proof {
        if k < segs@.len() {
            assert(all.skip(k as int)[0] == segs@[k as int]@);
        }
    }
    k
}

/// The start of the part of `segs` after the first `m` names.
fn names_end(segs: &Vec<Vec<char>>, m: usize) -> (r: usize)
    ensures
        r <= segs@.len(),
        after_names(texts(segs@), m as nat) == texts(segs@).skip(r as int),
{
    let ghost all = texts(segs@);
    let mut k: usize = 0;
    let mut left: usize = m;
    assert(all.skip(0) =~= all);
    while k < segs.len() && left > 0
        invariant
            k <= segs@.len(),
            all == texts(segs@),
            after_names(all, m as nat) == after_names(all.skip(k as int), left as nat),
        decreases segs@.len() - k,
    {
        assert(all.skip(k as int)[0] == segs@[k as int]@);
        assert(all.skip(k as int).drop_first() =~= all.skip(k + 1));
        if names_something(&segs[k]) {
            left = left - 1;
        }
        k = k + 1;
    }
    k
}

fn join_range(segs: &Vec<Vec<char>>, lo: usize, hi: usize) -> (r: String)
    requires
        lo <= hi <= segs@.len(),
    ensures
        r@ == joined_segments(texts(segs@).subrange(lo as int, hi as int)),
{
    let ghost all = texts(segs@);
    let mut s = String::new();
    for i in lo..hi
        invariant
            lo <= hi <= segs@.len(),
            all == texts(segs@),
            s@ == joined_segments(all.subrange(lo as int, i as int)),
    {
        let ghost now = all.subrange(lo as int, i + 1);
        proof {
            assert(now.drop_last() =~= all.subrange(lo as int, i as int));
            assert(now.last() == segs@[i as int]@);
        }
        if i > lo {
            s.push('/');
        }
        push_text(&mut s, string_of(segs[i].as_slice()).as_str());
        assert(s@ =~= joined_segments(now));
    }
    s
}

fn has_prefix(names: &Vec<Vec<char>>, prefix: &Vec<Vec<char>>) -> (r: bool)
    ensures
        r == texts(prefix@).is_prefix_of(texts(names@)),
{
    let ghost a = texts(names@);
    let ghost b = texts(prefix@);
    if prefix.len() > names.len() {
        return false;
    }
    for i in 0..prefix.len()
        invariant
            a == texts(names@),
            b == texts(prefix@),
            prefix@.len() <= names@.len(),
            forall|j: int| 0 <= j < i ==> b[j] == a[j],
    {
        if !same_chars(&prefix[i], &names[i]) {
            assert(b[i as int] != a.subrange(0, b.len() as int)[i as int]);
            return false;
        }
    }
    assert(b =~= a.subrange(0, b.len() as int));
    true
}

/// The path that begins as the one `v` does and goes through the first `hi` of its
/// segments.
fn path_through(v: &Vec<char>, segs: &Vec<Vec<char>>, hi: usize) -> (r: String)
    requires
        texts(segs@) == segments(v@),
        hi <= segs@.len(),
    ensures
        r@ == path_text(path_parts(v@), segments(v@).take(hi as int)),
{
    let end = name_end(segs, 0, hi);
    proof {
        assert(segments(v@).take(hi as int) =~= texts(segs@).subrange(0, hi as int));
    }
    let mut s = String::new();
    if end > 0 {
        s = join_range(segs, 0, end);
    } else if v.len() > 0 && v[0] == '/' {
        s.push('/');
        assert(s@ =~= seq!['/']);
    } else if is_dotted(v.as_slice()) {
        s.push('.');
        assert(s@ =~= seq!['.']);
    }
    s
}

/// What follows `base` in `path`, if `path` is under `base`.
pub fn strip_base(path: &str, base: &str) -> (r: Option<String>)
    ensures
        (match r {
            Some(t) => stripped(path@, base@) == Some(t@),
            None => stripped(path@, base@) is None,
        }),
{
    let v = chars_of(path);
    let w = chars_of(base);
    let a_names = path_names(v.as_slice());
    let b_names = path_names(w.as_slice());
    let a_abs = v.len() > 0 && v[0] == '/';
    let b_abs = w.len() > 0 && w[0] == '/';
    let a_dot = !a_abs && is_dotted(v.as_slice());
    let b_dot = !b_abs && is_dotted(w.as_slice());
    assert(texts(b_names@).len() == b_names@.len());
    if !has_prefix(&a_names, &b_names) {
        return None;
    }
    let segs = split_path(v.as_slice());
    if !b_abs && !b_dot && b_names.len() == 0 {
        let n = segs.len();
        assert(segments(v@).take(n as int) =~= segments(v@));
        return Some(path_through(&v, &segs, n));
    }
    if a_abs != b_abs || a_dot != b_dot {
        return None;
    }
    let k = names_end(&segs, b_names.len());
    let lo = name_start(&segs, k);
    let n = segs.len();
    let hi = name_end(&segs, lo, n);
    assert(texts(segs@).subrange(lo as int, n as int) =~= texts(segs@).skip(lo as int));
    Some(join_range(&segs, lo, hi))
}

proof fn lemma_some_name(s: Seq<Seq<char>>, e: int)
    requires
        0 <= e <= s.len(),
        e > 0 ==> is_name(s[e - 1]),
        forall|i: int| e <= i < s.len() ==> !is_name(#[trigger] s[i]),
    ensures
        (s.filter(|t: Seq<char>| is_name(t)).len() > 0) == (e > 0),
    decreases s.len(),
{
    reveal(Seq::filter);
    if s.len() > 0 && e < s.len() {
        assert(!is_name(s[s.len() - 1]));
        lemma_some_name(s.drop_last(), e);
    }
}

/// The path of the folder that `path` is in.
pub fn parent_path(path: &str) -> (r: Option<String>)
    ensures
        (match r {
            Some(t) => parent(path@) == Some(t@),
            None => parent(path@) is None,
        }),
{
    let v = chars_of(path);
    let segs = split_path(v.as_slice());
    let n = segs.len();
    let end = name_end(&segs, 0, n);
    let ghost all = segments(v@);
    proof {
        assert(texts(segs@).subrange(0, n as int) =~= all);
        assert forall|i: int| end <= i < all.len() implies !is_name(#[trigger] all[i]) by {
            assert(all[i] == segs@[i]@);
        }
        if end > 0 {
            assert(all[end - 1] == segs@[end - 1]@);
        }
        lemma_some_name(all, end as int);
        lemma_segments(v@);
    }
    if end > 0 {
        assert(texts(segs@).subrange(0, end as int).drop_last() =~= all.take(end - 1));
        return Some(path_through(&v, &segs, end - 1));
    }
    let absolute = v.len() > 0 && v[0] == '/';
    if !absolute && is_dotted(v.as_slice()) {
        Some(String::new())
    } else {
        None
    }
}

/// Where a folder is, as seen from the root of the scan.
pub fn folder_location(path: &str, root: &str) -> (r: String)
    ensures
        r@ == folder_location_of(path@, root@),
{
    match strip_base(path, root) {
        Some(t) => t,
        None => path.to_owned(),
    }
}

/// Where the folder of a file is, as seen from the root of the scan.
pub fn file_location(path: &str, root: &str) -> (r: String)
    ensures
        r@ == file_location_of(path@, root@),
{
    let folder = match parent_path(path) {
        Some(t) => t,
        None => path.to_owned(),
    };
    match strip_base(folder.as_str(), root) {
        Some(t) => t,
        None => path.to_owned(),
    }
}

} // verus!
