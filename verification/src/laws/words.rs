//! The words that the laws are said in.

use vstd::prelude::*;

verus! {

/// The sum of some numbers.
pub open spec fn sum(s: Seq<nat>) -> nat {
    s.fold_left(0, |a: nat, b: nat| a + b)
}

/// Whether `at` holds the positions below `n` that `p` is true of, each once, in
/// ascending order.
pub open spec fn picks(at: Seq<int>, n: nat, p: spec_fn(int) -> bool) -> bool {
    &&& forall|i: int, j: int| 0 <= i < j < at.len() ==> #[trigger] at[i] < #[trigger] at[j]
    &&& forall|i: int| 0 <= i < at.len() ==> 0 <= (#[trigger] at[i]) < n && p(at[i])
    &&& forall|k: int| 0 <= k < n && #[trigger] p(k) ==> at.contains(k)
}

pub proof fn lemma_sum_last(s: Seq<nat>)
    requires
        s.len() > 0,
    ensures
        sum(s) == sum(s.drop_last()) + s.last(),
{
    assert(s.drop_last().push(s.last()) =~= s);
}

pub proof fn lemma_sum_concat(a: Seq<nat>, b: Seq<nat>)
    ensures
        sum(a + b) == sum(a) + sum(b),
    decreases b.len(),
{
    if b.len() == 0 {
        assert(a + b =~= a);
    } else {
        lemma_sum_concat(a, b.drop_last());
        lemma_sum_last(b);
        assert((a + b).drop_last() =~= a + b.drop_last());
        lemma_sum_last(a + b);
    }
}

/// Positions below one more.
pub proof fn lemma_picks_more(at: Seq<int>, n: nat, p: spec_fn(int) -> bool) -> (r: Seq<int>)
    requires
        picks(at, n, p),
    ensures
        picks(r, n + 1, p),
        r == if p(n as int) {
            at.push(n as int)
        } else {
            at
        },
{
    let r = if p(n as int) {
        at.push(n as int)
    } else {
        at
    };
    assert forall|k: int| 0 <= k < n + 1 && #[trigger] p(k) implies r.contains(k) by {
        if k < n {
            assert(at.contains(k));
            let i = choose|i: int| 0 <= i < at.len() && at[i] == k;
            assert(r[i] == k);
        } else {
            assert(r[at.len() as int] == k);
        }
    }
    r
}

} // verus!
