//! File system paths as text, with `/` between the names.

use vstd::prelude::*;

use crate::text::{chars_of, find_from, first_index, push_text, slice_copy, string_of};

verus! {

/// The pieces of `s` between its slashes.
pub open spec fn segments(s: Seq<char>) -> Seq<Seq<char>>
    decreases s.len(),
{
    let k = first_index(s, '/') as int;
    if k >= s.len() {
        seq![s]
    } else {
        seq![s.take(k)] + segments(s.skip(k + 1))
    }
}

/// Whether a segment names something: it is neither empty nor a single dot.
pub open spec fn is_name(t: Seq<char>) -> bool {
    t.len() > 0 && t != seq!['.']
}

/// What a path means: where it starts, and the names on the way.
pub struct PathParts {
    pub absolute: bool,
    /// A relative path that begins with a single dot.
    pub dotted: bool,
    pub names: Seq<Seq<char>>,
}

/// The meaning of a path. Repeated slashes, a slash at the end, and single dots
/// after the start make no difference.
pub open spec fn path_parts(s: Seq<char>) -> PathParts {
    let absolute = s.len() > 0 && s[0] == '/';
    PathParts {
        absolute,
        dotted: !absolute && segments(s)[0] == seq!['.'],
        names: segments(s).filter(|t: Seq<char>| is_name(t)),
    }
}

/// Whether two paths mean the same.
pub open spec fn same_path(a: Seq<char>, b: Seq<char>) -> bool {
    path_parts(a) == path_parts(b)
}

/// The path of `name` under `base`. An absolute `name` stands for itself.
pub open spec fn joined(base: Seq<char>, name: Seq<char>) -> Seq<char> {
    if name.len() > 0 && name[0] == '/' {
        name
    } else if base.len() > 0 && base.last() != '/' {
        base.push('/') + name
    } else {
        base + name
    }
}

/// The last name of a path, unless there is none or it leads back up.
pub open spec fn last_name(s: Seq<char>) -> Option<Seq<char>> {
    let names = path_parts(s).names;
    if names.len() == 0 || names.last() == seq!['.', '.'] {
        None
    } else {
        Some(names.last())
    }
}

/// The text after the last slash of `s`.
pub open spec fn after_last_slash(s: Seq<char>) -> Seq<char> {
    segments(s).last()
}

/// Whether `path` means the same as one of `excluded`.
pub open spec fn is_excluded_path(path: Seq<char>, excluded: Seq<String>) -> bool {
    exists|i: int| 0 <= i < excluded.len() && same_path(path, #[trigger] excluded[i]@)
}

/// The texts that a vector of character vectors holds.
pub open spec fn texts(v: Seq<Vec<char>>) -> Seq<Seq<char>> {
    v.map_values(|t: Vec<char>| t@)
}

/// The texts that a vector of strings holds.
pub open spec fn strings(v: Seq<String>) -> Seq<Seq<char>> {
    v.map_values(|t: String| t@)
}

/// There is always a first segment, and none of them holds a slash.
pub proof fn lemma_segments(s: Seq<char>)
    ensures
        segments(s).len() > 0,
        forall|i: int, j: int|
            0 <= i < segments(s).len() && 0 <= j < segments(s)[i].len() ==> #[trigger] segments(
                s,
            )[i][j] != '/',
    decreases s.len(),
{
    lemma_before_first(s, '/');
    let k = first_index(s, '/') as int;
    if k < s.len() {
        lemma_segments(s.skip(k + 1));
        assert forall|i: int, j: int|
            0 <= i < segments(s).len() && 0 <= j < segments(s)[i].len() implies #[trigger] segments(
            s,
        )[i][j] != '/' by {
            if i > 0 {
                assert(segments(s)[i] == segments(s.skip(k + 1))[i - 1]);
            }
        }
    }
}

proof fn lemma_before_first(s: Seq<char>, c: char)
    ensures
        first_index(s, c) <= s.len(),
        forall|i: int| 0 <= i < first_index(s, c) ==> s[i] != c,
    decreases s.len(),
{
    if s.len() > 0 && s[0] != c {
        lemma_before_first(s.drop_first(), c);
        assert forall|i: int| 0 <= i < first_index(s, c) implies s[i] != c by {
            if i > 0 {
                assert(s[i] == s.drop_first()[i - 1]);
            }
        }
    }
}

pub proof fn lemma_filter_step<A>(s: Seq<A>, keep: spec_fn(A) -> bool, i: int)
    requires
        0 <= i < s.len(),
    ensures
        s.take(i + 1).filter(keep) == if keep(s[i]) {
            s.take(i).filter(keep).push(s[i])
        } else {
            s.take(i).filter(keep)
        },
{
    reveal(Seq::filter);
    assert(s.take(i + 1).drop_last() =~= s.take(i));
}

/// The pieces of `v` between its slashes.
pub fn split_path(v: &[char]) -> (r: Vec<Vec<char>>)
    ensures
        texts(r@) == segments(v@),
{
    let n = v.len();
    let mut r: Vec<Vec<char>> = Vec::new();
    let mut from: usize = 0;
    assert(v@.skip(0) =~= v@);
    assert(texts(r@) + segments(v@) =~= segments(v@));
    loop
        invariant
            n == v@.len(),
            from <= n,
            texts(r@) + segments(v@.skip(from as int)) == segments(v@),
        decreases n - from,
    {
        let k = find_from(v, '/', from);
        let ghost before = r@;
        let ghost start = from as int;
        let ghost rest = v@.skip(start);
        let piece = slice_copy(v, from, k);
        proof {
            assert(piece@ =~= rest.take(k - from));
            assert(texts(before.push(piece)) =~= texts(before).push(piece@));
        }
        r.push(piece);
        if k == n {
            assert(rest.take(k - from) =~= rest);
            assert(texts(before) + seq![rest] =~= texts(r@));
            return r;
        }
        from = k + 1;
        proof {
            assert(rest.skip(k - start + 1) =~= v@.skip(from as int));
            assert(texts(before) + (seq![piece@] + segments(v@.skip(from as int))) =~= texts(r@)
                + segments(v@.skip(from as int)));
        }
    }
}

pub(crate) fn is_dot(t: &Vec<char>) -> (r: bool)
    ensures
        r == (t@ == seq!['.']),
{
    if t.len() == 1 && t[0] == '.' {
        assert(t@ =~= seq!['.']);
        true
    } else {
        false
    }
}

fn is_dot_dot(t: &Vec<char>) -> (r: bool)
    ensures
        r == (t@ == seq!['.', '.']),
{
    if t.len() == 2 && t[0] == '.' && t[1] == '.' {
        assert(t@ =~= seq!['.', '.']);
        true
    } else {
        false
    }
}

/// The names of a path.
pub(crate) fn path_names(v: &[char]) -> (r: Vec<Vec<char>>)
    ensures
        texts(r@) == path_parts(v@).names,
{
    let all = split_path(v);
    let ghost keep = |t: Seq<char>| is_name(t);
    let mut r: Vec<Vec<char>> = Vec::new();
    proof {
        reveal(Seq::filter);
        assert(texts(r@) =~= Seq::empty());
    }
    for i in 0..all.len()
        invariant
            keep == (|t: Seq<char>| is_name(t)),
            texts(all@) == segments(v@),
            texts(r@) == texts(all@).take(i as int).filter(keep),
    {
        proof {
            lemma_filter_step(texts(all@), keep, i as int);
        }
        let t = &all[i];
        if t.len() > 0 && !is_dot(t) {
            let ghost before = r@;
            let piece = slice_copy(t.as_slice(), 0, t.len());
            assert(piece@ =~= t@);
            r.push(piece);
            assert(texts(before.push(piece)) =~= texts(before).push(piece@));
        }
    }
    assert(texts(all@).take(all@.len() as int) =~= texts(all@));
    r
}

pub(crate) fn same_chars(a: &Vec<char>, b: &Vec<char>) -> (r: bool)
    ensures
        r == (a@ == b@),
{
    if a.len() != b.len() {
        return false;
    }
    for i in 0..a.len()
        invariant
            a@.len() == b@.len(),
            forall|j: int| 0 <= j < i ==> a@[j] == b@[j],
    {
        if a[i] != b[i] {
            return false;
        }
    }
    assert(a@ =~= b@);
    true
}

fn same_texts(a: &Vec<Vec<char>>, b: &Vec<Vec<char>>) -> (r: bool)
    ensures
        r == (texts(a@) == texts(b@)),
{
    if a.len() != b.len() {
        assert(texts(a@).len() != texts(b@).len());
        return false;
    }
    for i in 0..a.len()
        invariant
            a@.len() == b@.len(),
            forall|j: int| 0 <= j < i ==> a@[j]@ == b@[j]@,
    {
        if !same_chars(&a[i], &b[i]) {
            assert(texts(a@)[i as int] != texts(b@)[i as int]);
            return false;
        }
    }
    assert(texts(a@) =~= texts(b@));
    true
}

pub(crate) fn is_dotted(v: &[char]) -> (r: bool)
    ensures
        r == (segments(v@)[0] == seq!['.']),
{
    let all = split_path(v);
    proof {
        lemma_segments(v@);
        assert(texts(all@)[0] == all@[0]@);
    }
    is_dot(&all[0])
}

/// Whether two paths mean the same.
pub fn paths_match(a: &str, b: &str) -> (r: bool)
    ensures
        r == same_path(a@, b@),
{
    let x = chars_of(a);
    let y = chars_of(b);
    let xa = x.len() > 0 && x[0] == '/';
    let ya = y.len() > 0 && y[0] == '/';
    let xd = !xa && is_dotted(x.as_slice());
    let yd = !ya && is_dotted(y.as_slice());
    let xn = path_names(x.as_slice());
    let yn = path_names(y.as_slice());
    xa == ya && xd == yd && same_texts(&xn, &yn)
}

/// Whether `path` means the same as one of `excluded`.
pub fn is_excluded(path: &str, excluded: &[String]) -> (r: bool)
    ensures
        r == is_excluded_path(path@, excluded@),
{
    for i in 0..excluded.len()
        invariant
            forall|j: int| 0 <= j < i ==> !same_path(path@, #[trigger] excluded@[j]@),
    {
        if paths_match(path, excluded[i].as_str()) {
            return true;
        }
    }
    false
}

/// The path of `name` under `base`.
pub fn join(base: &str, name: &str) -> (r: String)
    ensures
        r@ == joined(base@, name@),
{
    let b = chars_of(base);
    let n = chars_of(name);
    if n.len() > 0 && n[0] == '/' {
        return name.to_owned();
    }
    let mut r = base.to_owned();
    if b.len() > 0 && b[b.len() - 1] != '/' {
        r.push('/');
    }
    push_text(&mut r, name);
    r
}

/// The last name of a path, unless there is none or it leads back up.
pub fn file_name(path: &str) -> (r: Option<String>)
    ensures
        (match r {
            Some(t) => last_name(path@) == Some(t@),
            None => last_name(path@) is None,
        }),
{
    let v = chars_of(path);
    let names = path_names(v.as_slice());
    if names.len() == 0 {
        assert(texts(names@).len() == 0);
        return None;
    }
    let t = &names[names.len() - 1];
    assert(texts(names@).last() == t@);
    if is_dot_dot(t) {
        None
    } else {
        Some(string_of(t.as_slice()))
    }
}

/// The text after the last slash of `name`.
pub fn short_name(name: &str) -> (r: String)
    ensures
        r@ == after_last_slash(name@),
{
    let v = chars_of(name);
    let all = split_path(v.as_slice());
    proof {
        lemma_segments(v@);
        assert(texts(all@).last() == all@.last()@);
    }
    string_of(all[all.len() - 1].as_slice())
}

} // verus!
