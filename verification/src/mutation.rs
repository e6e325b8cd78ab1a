//! The mutation operator: segment inversion. A contiguous sub-range of a
//! tour is reversed in place; everything outside it stays put. Reversing
//! a sub-range of a permutation yields a permutation again.

use crate::perm::is_perm;
use crate::perm::clone_tour;
use crate::rng::rand_below;
use crate::towns::MAX_TOWNS;
use vstd::prelude::*;
use vstd::pervasive::VecAdditionalExecFns;

verus! {

/// The sequence `t` with its sub-range `[idx1, idx2)` reversed.
pub open spec fn reversed_segment(t: Seq<usize>, idx1: int, idx2: int) -> Seq<usize> {
    Seq::new(
        t.len(),
        |k: int|
            if idx1 <= k < idx2 {
                t[idx2 - 1 - (k - idx1)]
            } else {
                t[k]
            },
    )
}

/// Whether a tour could have arisen by mutating a member of a pool:
/// some member with some sub-range reversed.
pub open spec fn mutated_from(pool: Seq<Seq<usize>>, m: Seq<usize>) -> bool {
    exists|t: Seq<usize>, i1: int, i2: int|
        pool.contains(t) && 0 <= i1 <= i2 <= t.len() && m == #[trigger] reversed_segment(
            t,
            i1,
            i2,
        )
}

/// Reversing a sub-range of a permutation yields a permutation.
pub proof fn lemma_reverse_preserves_perm(t: Seq<usize>, idx1: int, idx2: int, n: nat)
    requires
        is_perm(t, n),
        0 <= idx1 <= idx2 <= t.len(),
    ensures
        is_perm(reversed_segment(t, idx1, idx2), n),
{
    let r = reversed_segment(t, idx1, idx2);
    assert(r.len() == n);
    assert forall|i: int| 0 <= i < r.len() implies (#[trigger] r[i]) < n by {
        if idx1 <= i < idx2 {
            assert(r[i] == t[idx2 - 1 - (i - idx1)]);
        }
    }
    assert forall|v: int| 0 <= v < n implies #[trigger] r.contains(v as usize) by {
        assert(t.contains(v as usize));
        let j = choose|j: int| 0 <= j < t.len() && t[j] == v as usize;
        if idx1 <= j < idx2 {
            let k = idx2 - 1 - (j - idx1);
            assert(idx1 <= k < idx2);
            assert(r[k] == t[idx2 - 1 - (k - idx1)]);
            assert(idx2 - 1 - (k - idx1) == j);
        } else {
            assert(r[j] == v as usize);
        }
    }
    assert forall|a: int, b: int| 0 <= a < b < r.len() implies r[a] != r[b] by {
        let a2 = if idx1 <= a < idx2 {
            idx2 - 1 - (a - idx1)
        } else {
            a
        };
        let b2 = if idx1 <= b < idx2 {
            idx2 - 1 - (b - idx1)
        } else {
            b
        };
        assert(r[a] == t[a2]);
        assert(r[b] == t[b2]);
        assert(a2 != b2);
    }
}

/// The tour with its sub-range `[idx1, idx2)` reversed and everything
/// else unchanged; the random draw stands apart in `mutate`.
pub fn reverse_segment(t: &Vec<usize>, idx1: usize, idx2: usize) -> (r: Vec<usize>)
    requires
        idx1 <= idx2 <= t@.len(),
    ensures
        r@ == reversed_segment(t@, idx1 as int, idx2 as int),
{
    let mut r = clone_tour(t);
    let length = idx2 - idx1;
    let mut i: usize = 0;
    while i < length
        invariant
            i <= length,
            length == idx2 - idx1,
            idx1 <= idx2 <= t@.len(),
            r@.len() == t@.len(),
            forall|k: int|
                0 <= k < t@.len() && !(idx1 <= k < idx1 + i) ==> #[trigger] r@[k] == t@[k],
            forall|k: int|
                idx1 <= k < idx1 + i ==> #[trigger] r@[k] == t@[idx2 - 1 - (k - idx1)],
        decreases length - i,
    {
        r.set(idx1 + i, t[idx2 - i - 1]);
        i = i + 1;
    }
    proof {
        assert(r@ =~= reversed_segment(t@, idx1 as int, idx2 as int));
    }
    r
}

/// Perturbs a tour by reversing a random sub-range `[idx1, idx2)`, the
/// lower bound drawn uniformly over all but the last position and the
/// upper from the lower up to the last position. A single-town tour has
/// no room to invert and comes back unchanged. The result is always a
/// permutation of the same length, whatever the draw.
pub fn mutate(t: &Vec<usize>) -> (r: Vec<usize>)
    requires
        is_perm(t@, t@.len() as nat),
        1 <= t@.len() <= MAX_TOWNS,
    ensures
        is_perm(r@, t@.len() as nat),
        r@.len() == t@.len(),
        exists|i1: int, i2: int|
            0 <= i1 <= i2 <= t@.len() && r@ == #[trigger] reversed_segment(t@, i1, i2),
{
    let n = t.len();
    let mut idx1: usize = 0;
    let mut idx2: usize = 0;
    if n >= 2 {
        idx1 = rand_below(n - 1);
        idx2 = idx1 + rand_below(n - idx1);
    }
    let r = reverse_segment(t, idx1, idx2);
    proof {
        lemma_reverse_preserves_perm(t@, idx1 as int, idx2 as int, t@.len() as nat);
        assert(r@ == reversed_segment(t@, idx1 as int, idx2 as int));
    }
    r
}

} // verus!
