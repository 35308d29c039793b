//! What paths mean, and what is done with them.

use vstd::prelude::*;

use crate::path::{
    file_name, is_excluded, join, joined, lemma_segments, path_parts, paths_match, same_path,
    segments, short_name, split_path, texts,
};
use crate::text::{first_index, lemma_first_index};

verus! {

/// Whether a text is one name: there is something in it, but no slash, and it is no single
/// dot.
pub open spec fn is_one_name(t: Seq<char>) -> bool {
    t.len() > 0 && !t.contains('/') && !(t.len() == 1 && t[0] == '.')
}

/// Whether two paths lead to the same place.
pub open spec fn leads_alike(a: Seq<char>, b: Seq<char>) -> bool {
    &&& path_parts(a).absolute == path_parts(b).absolute
    &&& path_parts(a).dotted == path_parts(b).dotted
    &&& path_parts(a).names == path_parts(b).names
}

/// What stands between slashes: a text without any is one piece, and a slash parts the
/// pieces before it from those after it.
pub proof fn slashes_part_a_path(a: Seq<char>, b: Seq<char>)
    ensures
        !a.contains('/') ==> segments(a) == seq![a],
        segments(a.push('/') + b) == segments(a) + segments(b),
    decreases a.len(),
{
    let s = a.push('/') + b;
    let k = first_index(a, '/') as int;
    lemma_first(a);
    if k >= a.len() {
        lemma_first_index(s, '/', a.len() as int);
        assert(s.take(a.len() as int) =~= a);
        assert(s.skip((a.len() + 1) as int) =~= b);
    } else {
        assert(a.contains(a[k]));
        lemma_first_index(s, '/', k);
        slashes_part_a_path(a.skip(k + 1), b);
        assert(s.take(k) =~= a.take(k));
        assert(s.skip(k + 1) =~= a.skip(k + 1).push('/') + b);
        assert(segments(s) =~= segments(a) + segments(b));
    }
}

pub proof fn lemma_first(a: Seq<char>)
    ensures
        first_index(a, '/') <= a.len(),
        first_index(a, '/') < a.len() ==> a[first_index(a, '/') as int] == '/',
        forall|i: int| 0 <= i < first_index(a, '/') ==> a[i] != '/',
    decreases a.len(),
{
    if a.len() > 0 && a[0] != '/' {
        lemma_first(a.drop_first());
        assert forall|i: int| 0 <= i < first_index(a, '/') implies a[i] != '/' by {
            if i > 0 {
                assert(a[i] == a.drop_first()[i - 1]);
            }
        }
    }
}

pub proof fn lemma_filter_concat<A>(a: Seq<A>, b: Seq<A>, keep: spec_fn(A) -> bool)
    ensures
        (a + b).filter(keep) == a.filter(keep) + b.filter(keep),
    decreases b.len(),
{
    reveal(Seq::filter);
    if b.len() == 0 {
        assert(a + b =~= a);
        assert(a.filter(keep) + b.filter(keep) =~= a.filter(keep));
    } else {
        assert((a + b).drop_last() =~= a + b.drop_last());
        lemma_filter_concat(a, b.drop_last(), keep);
        assert((a + b).last() == b.last());
        let x = b.last();
        assert((a.filter(keep) + b.drop_last().filter(keep)).push(x) =~= a.filter(keep)
            + b.drop_last().filter(keep).push(x));
    }
}

/// The names of a path are those of its parts: a slash parts them, and a piece that is
/// empty or a single dot names nothing. The path is absolute if it begins with a slash.
pub proof fn a_path_is_the_names_between_its_slashes(a: Seq<char>, b: Seq<char>)
    ensures
        path_parts(a.push('/') + b).names == path_parts(a).names + path_parts(b).names,
        is_one_name(a) ==> path_parts(a).names == seq![a],
        a.len() == 0 || a == seq!['.'] ==> path_parts(a).names.len() == 0,
        path_parts(a).absolute <==> a.len() > 0 && a[0] == '/',
        path_parts(a).dotted <==> a == seq!['.'] || seq!['.', '/'].is_prefix_of(a),
{
    slashes_part_a_path(a, b);
    let keep = |t: Seq<char>| crate::path::is_name(t);
    lemma_filter_concat(segments(a), segments(b), keep);
    reveal(Seq::filter);
    assert(seq![a].drop_last() =~= Seq::empty());
    let none = Seq::<Seq<char>>::empty();
    assert(none.filter(keep) =~= none);
    if !a.contains('/') {
        assert(seq![a].filter(keep) == if keep(a) {
            none.push(a)
        } else {
            none
        });
        assert(none.push(a) =~= seq![a]);
        if a.len() == 1 && a[0] == '.' {
            assert(a =~= seq!['.']);
        }
        if seq!['.', '/'].is_prefix_of(a) {
            assert(a.subrange(0, 2)[1] == a[1]);
            assert(a.contains(a[1]));
        }
    }
    let k = first_index(a, '/') as int;
    lemma_first(a);
    assert(segments(a)[0] == a.take(k)) by {
        if k >= a.len() {
            assert(a.take(k) =~= a);
        }
    }
    let dot = seq!['.'];
    let start = seq!['.', '/'];
    if segments(a)[0] == dot {
        assert(a.take(k).len() == 1 && a.take(k)[0] == '.');
        if k < a.len() {
            assert(k == 1 && a[1] == '/' && a[0] == '.');
            assert(a.subrange(0, 2) =~= start);
        } else {
            assert(a =~= dot);
        }
    }
    if a == dot {
        assert(a[0] == '.');
        lemma_first_index(a, '/', 1);
        assert(a.take(1) =~= dot);
    }
    if start.is_prefix_of(a) {
        assert(a.subrange(0, 2)[0] == a[0] && a.subrange(0, 2)[1] == a[1]);
        lemma_first_index(a, '/', 1);
        assert(a.take(1) =~= dot);
    }
}

/// Repeated slashes and a slash at the end make no difference to where a path leads.
pub proof fn slashes_at_the_end_make_no_difference(a: Seq<char>)
    requires
        a.len() > 0,
    ensures
        leads_alike(a.push('/'), a),
{
    let none = Seq::<char>::empty();
    assert(a.push('/') + none =~= a.push('/'));
    a_path_is_the_names_between_its_slashes(a, none);
    a_path_is_the_names_between_its_slashes(none, none);
    a_path_is_the_names_between_its_slashes(a.push('/'), none);
    assert(path_parts(a).names + path_parts(none).names =~= path_parts(a).names);
    if a == seq!['.'] {
        assert(a.push('/').subrange(0, 2) =~= seq!['.', '/']);
    }
    if seq!['.', '/'].is_prefix_of(a) {
        assert(a.push('/').subrange(0, 2) =~= a.subrange(0, 2));
    }
    if seq!['.', '/'].is_prefix_of(a.push('/')) {
        let t = a.push('/').subrange(0, 2);
        assert(t[0] == '.' && t[1] == '/');
        assert(a[0] == '.');
        if a.len() == 1 {
            assert(a =~= seq!['.']);
        } else {
            assert(a.subrange(0, 2) =~= t);
        }
    }
    if a.push('/') == seq!['.'] {
        assert(a.push('/')[a.len() as int] == '/');
    }
}

/// A relative name is set after the base with one slash between them, unless the base ends
/// in one or is empty. An absolute one stands for itself.
pub proof fn a_joined_path_is_the_base_a_slash_and_the_name(base: &str, name: &str, r: String)
    requires
        call_ensures(join, (base, name), r),
    ensures
        r@ == joined(base@, name@),
        name@.len() > 0 && name@[0] == '/' ==> r@ == name@,
        !(name@.len() > 0 && name@[0] == '/') ==> {
            &&& base@.is_prefix_of(r@)
            &&& r@.skip(r@.len() - name@.len()) == name@
            &&& base@.len() == 0 || base@.last() == '/' ==> r@.len() == base@.len() + name@.len()
            &&& base@.len() > 0 && base@.last() != '/' ==> r@.len() == base@.len() + 1 + name@.len()
                && r@[base@.len() as int] == '/'
        },
{
    if !(name@.len() > 0 && name@[0] == '/') {
        assert(r@.subrange(0, base@.len() as int) =~= base@);
        assert(r@.skip(r@.len() - name@.len()) =~= name@);
    }
}

proof fn lemma_joined(base: Seq<char>, name: Seq<char>)
    requires
        is_one_name(name),
    ensures
        path_parts(joined(base, name)).names == path_parts(base).names.push(name),
        path_parts(joined(base, name)).absolute == path_parts(base).absolute,
{
    let none = Seq::<char>::empty();
    if name[0] == '/' {
        assert(name.contains(name[0]));
    }
    a_path_is_the_names_between_its_slashes(name, none);
    a_path_is_the_names_between_its_slashes(base, name);
    a_path_is_the_names_between_its_slashes(none, none);
    a_path_is_the_names_between_its_slashes(joined(base, name), none);
    let names = path_parts(base).names;
    assert(names + seq![name] =~= names.push(name));
    if base.len() == 0 {
        assert(base =~= none);
        assert(none + name =~= name);
        assert(names.push(name) =~= seq![name]);
    } else if base.last() == '/' {
        let b = base.drop_last();
        assert(base =~= b.push('/') + none);
        a_path_is_the_names_between_its_slashes(b, none);
        a_path_is_the_names_between_its_slashes(b, name);
        assert(path_parts(b).names + path_parts(none).names =~= path_parts(b).names);
        assert(base + name =~= b.push('/') + name);
    }
}

/// Joining a name to a path adds that name to its names: the path of a child is that of its
/// folder and one name more, and is absolute if that is.
pub proof fn joining_a_name_adds_it_to_the_names(base: &str, name: &str, r: String)
    requires
        call_ensures(join, (base, name), r),
        is_one_name(name@),
    ensures
        path_parts(r@).names == path_parts(base@).names.push(name@),
        path_parts(r@).absolute == path_parts(base@).absolute,
{
    lemma_joined(base@, name@);
}

/// The same of the path that contracts speak of.
pub proof fn joined_names(base: Seq<char>, name: Seq<char>)
    requires
        is_one_name(name),
    ensures
        path_parts(joined(base, name)).names == path_parts(base).names.push(name),
        path_parts(joined(base, name)).absolute == path_parts(base).absolute,
{
    lemma_joined(base, name);
}

/// Two names in one folder are the same path only if they are the same name.
pub proof fn different_names_are_different_paths(base: Seq<char>, a: Seq<char>, b: Seq<char>)
    requires
        is_one_name(a),
        is_one_name(b),
    ensures
        leads_alike(joined(base, a), joined(base, b)) ==> a == b,
{
    lemma_joined(base, a);
    lemma_joined(base, b);
    assert(path_parts(base).names.push(a).last() == a);
    assert(path_parts(base).names.push(b).last() == b);
}

/// Paths match if they lead to the same place, and only then.
pub proof fn paths_match_if_they_lead_alike(a: &str, b: &str, r: bool)
    requires
        call_ensures(paths_match, (a, b), r),
    ensures
        r == leads_alike(a@, b@),
        r == same_path(a@, b@),
        a@ == b@ ==> r,
{
    lemma_same_path(a@, b@);
}

pub proof fn lemma_same_path(a: Seq<char>, b: Seq<char>)
    ensures
        same_path(a, b) == leads_alike(a, b),
{
}

/// Whatever its place in the list, a path of the list is left out, however it is written;
/// what leads to none of them is not.
pub proof fn every_path_of_the_list_is_left_out(path: &str, excluded: &[String], r: bool, i: int)
    requires
        call_ensures(is_excluded, (path, excluded), r),
    ensures
        0 <= i < excluded@.len() && leads_alike(path@, excluded@[i]@) ==> r,
        (forall|j: int| 0 <= j < excluded@.len() ==> !leads_alike(path@, #[trigger] excluded@[j]@))
            ==> !r,
{
    if 0 <= i < excluded@.len() {
        lemma_same_path(path@, excluded@[i]@);
    }
}

/// The pieces of a path are what stands between its slashes: there is at least one, and none
/// has a slash in it.
pub proof fn the_pieces_of_a_path_stand_between_its_slashes(v: &[char], r: Vec<Vec<char>>, i: int)
    requires
        call_ensures(split_path, (v,), r),
    ensures
        r@.len() > 0,
        !v@.contains('/') ==> r@.len() == 1 && r@[0]@ == v@,
        0 <= i < r@.len() ==> !r@[i]@.contains('/'),
        texts(r@) == segments(v@),
{
    lemma_segments(v@);
    slashes_part_a_path(v@, Seq::empty());
    assert(texts(r@).len() == r@.len());
    if 0 <= i < r@.len() {
        assert(texts(r@)[i] == r@[i]@);
        if r@[i]@.contains('/') {
            let j = choose|j: int| 0 <= j < r@[i]@.len() && r@[i]@[j] == '/';
            assert(segments(v@)[i][j] == '/');
        }
    }
    if !v@.contains('/') {
        assert(texts(r@)[0] == r@[0]@);
    }
}

/// The file name of a path to something in a folder is the name that it has there.
pub proof fn the_file_name_is_the_last_name(path: &str, r: Option<String>)
    requires
        call_ensures(file_name, (path,), r),
    ensures
        r is Some <==> path_parts(path@).names.len() > 0 && path_parts(path@).names.last() != seq![
            '.',
            '.',
        ],
        r is Some ==> r->0@ == path_parts(path@).names.last(),
        forall|base: Seq<char>, name: Seq<char>|
            path@ == #[trigger] joined(base, name) && is_one_name(name) && name != seq!['.', '.']
                ==> r is Some && r->0@ == name,
{
    assert forall|base: Seq<char>, name: Seq<char>|
        path@ == #[trigger] joined(base, name) && is_one_name(name) && name != seq![
            '.',
            '.',
        ] implies r is Some && r->0@ == name by {
        lemma_joined(base, name);
    }
}

/// The short name is what stands after the last slash.
pub proof fn the_short_name_stands_after_the_last_slash(name: &str, r: String)
    requires
        call_ensures(short_name, (name,), r),
    ensures
        !r@.contains('/'),
        r@.len() <= name@.len(),
        name@.skip(name@.len() - r@.len()) == r@,
        r@.len() < name@.len() ==> name@[name@.len() - r@.len() - 1] == '/',
{
    lemma_last_segment(name@);
}

pub proof fn lemma_last_segment(s: Seq<char>)
    ensures
        ({
            let t = segments(s).last();
            &&& !t.contains('/')
            &&& t.len() <= s.len()
            &&& s.skip(s.len() - t.len()) == t
            &&& t.len() < s.len() ==> s[s.len() - t.len() - 1] == '/'
        }),
    decreases s.len(),
{
    let k = first_index(s, '/') as int;
    lemma_first(s);
    if k >= s.len() {
        assert(s.skip(0) =~= s);
    } else {
        let rest = s.skip(k + 1);
        lemma_last_segment(rest);
        lemma_segments(rest);
        let t = segments(rest).last();
        assert(segments(s).last() == t);
        assert(s.skip(s.len() - t.len()) =~= rest.skip(rest.len() - t.len()));
    }
}

} // verus!
