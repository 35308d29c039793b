//! Rankings: items in descending order of a size.

use vstd::prelude::*;
use vstd::seq_lib::*;

verus! {

broadcast use vstd::multiset::group_multiset_axioms;

/// Something that is ranked by a size.
pub trait Ranked: Sized {
    spec fn rank(self) -> u64;

    fn rank_of(&self) -> (r: u64)
        ensures
            r == self.rank(),
    ;
}

/// Whether no item is followed by one of a higher rank.
pub open spec fn descending<T: Ranked>(s: Seq<T>) -> bool {
    forall|i: int, j: int|
        0 <= i <= j < s.len() ==> (#[trigger] s[i]).rank() >= (#[trigger] s[j]).rank()
}

/// Whether `r` holds the items of `all`, each as often, in descending order.
pub open spec fn ranking_of<T: Ranked>(r: Seq<T>, all: Seq<T>) -> bool {
    &&& descending(r)
    &&& r.to_multiset() == all.to_multiset()
}

/// Equal multisets stay equal when every item is replaced by its image.
pub proof fn lemma_map_multiset<T, U>(a: Seq<T>, b: Seq<T>, f: spec_fn(T) -> U)
    requires
        a.to_multiset() == b.to_multiset(),
    ensures
        a.map_values(f).to_multiset() == b.map_values(f).to_multiset(),
    decreases a.len(),
{
    broadcast use group_to_multiset_ensures;

    assert(a.len() == a.to_multiset().len());
    assert(b.len() == b.to_multiset().len());
    if a.len() == 0 {
        assert(a.map_values(f) =~= b.map_values(f));
    } else {
        let x = a.last();
        assert(a[a.len() - 1] == x);
        assert(a.contains(x));
        assert(b.to_multiset().count(x) > 0);
        assert(b.contains(x));
        let i = choose|i: int| 0 <= i < b.len() && b[i] == x;
        let a1 = a.drop_last();
        let b1 = b.remove(i);
        assert(a1.push(x) =~= a);
        assert(b1.insert(i, x) =~= b);
        assert(a1.to_multiset() =~= a.to_multiset().remove(x));
        assert(b1.to_multiset() =~= b.to_multiset().remove(x));
        lemma_map_multiset(a1, b1, f);
        assert(a.map_values(f) =~= a1.map_values(f).push(f(x)));
        assert(b.map_values(f) =~= b1.map_values(f).insert(i, f(x)));
        to_multiset_insert(b1.map_values(f), i, f(x));
    }
}

/// Items with the same multiset are the same number of items.
pub proof fn lemma_multiset_len<T>(a: Seq<T>, b: Seq<T>)
    requires
        a.to_multiset() == b.to_multiset(),
    ensures
        a.len() == b.len(),
{
    broadcast use group_to_multiset_ensures;

    assert(a.len() == a.to_multiset().len());
    assert(b.len() == b.to_multiset().len());
}

/// An item of one of two sequences with the same multiset is one of the other.
pub proof fn lemma_multiset_member<T>(a: Seq<T>, b: Seq<T>, i: int)
    requires
        a.to_multiset() == b.to_multiset(),
        0 <= i < a.len(),
    ensures
        b.contains(a[i]),
{
    broadcast use group_to_multiset_ensures;

    assert(a.contains(a[i]));
    assert(a.to_multiset().count(a[i]) > 0);
}

/// Merges two descending vectors, given from their ends, into one that ascends.
fn merge_ascending<T: Ranked>(left: Vec<T>, right: Vec<T>) -> (r: Vec<T>)
    requires
        descending(left@),
        descending(right@),
    ensures
        descending(r@.reverse()),
        r@.to_multiset() == left@.to_multiset().add(right@.to_multiset()),
{
    broadcast use group_to_multiset_ensures;

    let mut a: Vec<T> = left;
    let mut b: Vec<T> = right;
    let mut r: Vec<T> = Vec::with_capacity(a.len());
    assert(r@.to_multiset().add(left@.to_multiset()) =~= left@.to_multiset());
    while a.len() > 0 || b.len() > 0
        invariant
            descending(a@),
            descending(b@),
            forall|i: int, j: int|
                0 <= i <= j < r@.len() ==> (#[trigger] r@[i]).rank() <= (#[trigger] r@[j]).rank(),
            forall|i: int, j: int|
                0 <= i < r@.len() && 0 <= j < a@.len() ==> (#[trigger] r@[i]).rank() <= (
                #[trigger] a@[j]).rank(),
            forall|i: int, j: int|
                0 <= i < r@.len() && 0 <= j < b@.len() ==> (#[trigger] r@[i]).rank() <= (
                #[trigger] b@[j]).rank(),
            r@.to_multiset().add(a@.to_multiset()).add(b@.to_multiset())
                == left@.to_multiset().add(right@.to_multiset()),
        decreases a@.len() + b@.len(),
    {
        let from_a = if a.len() == 0 {
            false
        } else if b.len() == 0 {
            true
        } else {
            a[a.len() - 1].rank_of() <= b[b.len() - 1].rank_of()
        };
        let ghost r0 = r@;
        let ghost a0 = a@;
        let ghost b0 = b@;
        if from_a {
            if let Some(x) = a.pop() {
                proof {
                    assert(a0 =~= a@.push(x));
                    to_multiset_build(a@, x);
                    to_multiset_build(r0, x);
                }
                r.push(x);
                assert(r@.to_multiset().add(a@.to_multiset()) =~= r0.to_multiset().add(
                    a0.to_multiset(),
                ));
            }
        } else {
            if let Some(x) = b.pop() {
                proof {
                    assert(b0 =~= b@.push(x));
                    to_multiset_build(b@, x);
                    to_multiset_build(r0, x);
                }
                r.push(x);
                assert(r@.to_multiset().add(a@.to_multiset()).add(b@.to_multiset())
                    =~= r0.to_multiset().add(a0.to_multiset()).add(b0.to_multiset()));
            }
        }
    }
    assert(a@ =~= Seq::empty());
    assert(b@ =~= Seq::empty());
    assert(r@.to_multiset() =~= r@.to_multiset().add(a@.to_multiset()).add(b@.to_multiset()));
    r
}

fn reverse<T>(v: Vec<T>) -> (r: Vec<T>)
    ensures
        r@ == v@.reverse(),
{
    let mut a: Vec<T> = v;
    let mut r: Vec<T> = Vec::with_capacity(a.len());
    while a.len() > 0
        invariant
            a@.len() <= v@.len(),
            a@ == v@.take(a@.len() as int),
            r@ == v@.reverse().take(v@.len() - a@.len()),
        decreases a@.len(),
    {
        if let Some(x) = a.pop() {
            r.push(x);
            assert(r@ =~= v@.reverse().take(v@.len() - a@.len()));
        }
    }
    assert(v@.reverse().take(v@.len() as int) =~= v@.reverse());
    r
}

/// Ranks the items of `v`. The order among items of one rank is left open.
pub fn rank_descending<T: Ranked>(v: Vec<T>) -> (r: Vec<T>)
    ensures
        ranking_of(r@, v@),
    decreases v@.len(),
{
    if v.len() < 2 {
        return v;
    }
    let mut left: Vec<T> = v;
    let mid = left.len() / 2;
    let right = left.split_off(mid);
    proof {
        assert(v@ =~= left@ + right@);
        lemma_multiset_commutative(left@, right@);
    }
    let a = rank_descending(left);
    let b = rank_descending(right);
    let up = merge_ascending(a, b);
    proof {
        up@.lemma_reverse_to_multiset();
    }
    reverse(up)
}

} // verus!
