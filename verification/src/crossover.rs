//! The crossover operator: recombines two parent tours into one child
//! tour that is again a permutation. A contiguous segment of the first
//! parent is copied verbatim; the rest of the child is filled by walking
//! the second parent cyclically from the upper cut point and appending
//! every town the segment does not already hold.
//!
//! The cut points are drawn uniformly over the whole length, the lower
//! one first and the upper one from the remainder.

use crate::perm::is_perm;
use crate::perm::lemma_len_from_distinct_complete;
use crate::perm::lemma_perm_from_multiset;
use crate::perm::tour_contains;
use crate::rng::rand_below;
use crate::towns::MAX_TOWNS;
use vstd::prelude::*;
use vstd::seq_lib::lemma_multiset_commutative;

verus! {

/// A tour read cyclically from position `k`: its tail from `k`, then its
/// head before `k`.
pub open spec fn rotate_from(s: Seq<usize>, k: int) -> Seq<usize>
    recommends
        0 <= k <= s.len(),
{
    s.subrange(k, s.len() as int) + s.subrange(0, k)
}

/// The child that crossover produces for cut points `idx1 <= idx2`: the
/// copied segment of the first parent, then every town of the second
/// parent — read cyclically from `idx2` — that the segment does not
/// already hold, in that order.
pub open spec fn crossover_spec(p1: Seq<usize>, p2: Seq<usize>, idx1: int, idx2: int) -> Seq<
    usize,
> {
    let head = p1.subrange(idx1, idx2);
    head + rotate_from(p2, idx2).filter(|x: usize| !head.contains(x))
}

/// Whether a tour could have been bred by crossover from two members of
/// a pool, at some pair of cut points.
pub open spec fn bred_from(pool: Seq<Seq<usize>>, c: Seq<usize>) -> bool {
    exists|a: Seq<usize>, b: Seq<usize>, i1: int, i2: int|
        pool.contains(a) && pool.contains(b) && 0 <= i1 <= i2 <= a.len() && c
            == #[trigger] crossover_spec(a, b, i1, i2)
}

/// Filtering keeps no element the sequence did not hold.
proof fn lemma_filter_outside<A>(s: Seq<A>, pred: spec_fn(A) -> bool)
    ensures
        forall|x: A| #[trigger] s.filter(pred).contains(x) ==> s.contains(x),
    decreases s.len(),
{
    reveal(Seq::filter);
    if s.len() > 0 {
        lemma_filter_outside(s.drop_last(), pred);
        assert forall|x: A| #[trigger] s.filter(pred).contains(x) implies s.contains(x) by {
            if s.drop_last().filter(pred).contains(x) {
                let i = choose|i: int|
                    0 <= i < s.drop_last().len() && s.drop_last()[i] == x;
                assert(s[i] == x);
            } else {
                assert(x == s.last());
                assert(s[s.len() - 1] == x);
            }
        }
    }
}

/// Filtering a duplicate-free sequence leaves it duplicate-free.
proof fn lemma_filter_no_dup<A>(s: Seq<A>, pred: spec_fn(A) -> bool)
    requires
        s.no_duplicates(),
    ensures
        s.filter(pred).no_duplicates(),
    decreases s.len(),
{
    reveal(Seq::filter);
    if s.len() > 0 {
        lemma_filter_no_dup(s.drop_last(), pred);
        lemma_filter_outside(s.drop_last(), pred);
        if pred(s.last()) {
            assert(forall|i: int|
                0 <= i < s.drop_last().len() ==> s.drop_last()[i] == #[trigger] s[i]);
            assert(!s.drop_last().contains(s.last()));
            assert(!s.drop_last().filter(pred).contains(s.last()));
        }
    }
}

/// Filtering a one-element sequence keeps or drops its element.
proof fn lemma_filter_singleton<A>(x: A, pred: spec_fn(A) -> bool)
    ensures
        pred(x) ==> seq![x].filter(pred) == seq![x],
        !pred(x) ==> seq![x].filter(pred) == Seq::<A>::empty(),
{
    reveal(Seq::filter);
    assert(seq![x].drop_last() =~= Seq::<A>::empty());
    assert(Seq::<A>::empty().filter(pred) =~= Seq::<A>::empty());
    if pred(x) {
        assert(seq![x].filter(pred) =~= seq![x]);
    } else {
        assert(seq![x].filter(pred) =~= Seq::<A>::empty());
    }
}

/// Filtering with a predicate that holds of every element changes nothing.
proof fn lemma_filter_all<A>(s: Seq<A>, pred: spec_fn(A) -> bool)
    requires
        forall|i: int| 0 <= i < s.len() ==> pred(#[trigger] s[i]),
    ensures
        s.filter(pred) == s,
    decreases s.len(),
{
    reveal(Seq::filter);
    if s.len() > 0 {
        assert(forall|i: int|
            0 <= i < s.drop_last().len() ==> s.drop_last()[i] == #[trigger] s[i]);
        lemma_filter_all(s.drop_last(), pred);
        assert(s.filter(pred) =~= s);
    }
}

/// Reading a tour cyclically from any position yields a tour over the
/// same towns.
pub proof fn lemma_rotate_perm(s: Seq<usize>, k: int, n: nat)
    requires
        is_perm(s, n),
        0 <= k <= s.len(),
    ensures
        is_perm(rotate_from(s, k), n),
        rotate_from(s, k).to_multiset() == s.to_multiset(),
{
    let rot = rotate_from(s, k);
    let head = s.subrange(0, k);
    let tail = s.subrange(k, s.len() as int);
    lemma_multiset_commutative(tail, head);
    lemma_multiset_commutative(head, tail);
    assert(head + tail =~= s);
    assert(rot.to_multiset() =~= s.to_multiset()) by {
        broadcast use vstd::multiset::group_multiset_axioms;

    }
    lemma_perm_from_multiset(s, rot, n);
}

/// With an empty copied segment, the child is exactly the second parent
/// read cyclically from the cut: crossover degenerates to a rotation.
pub proof fn lemma_crossover_empty_head(p1: Seq<usize>, p2: Seq<usize>, idx: int)
    requires
        0 <= idx <= p1.len(),
    ensures
        crossover_spec(p1, p2, idx, idx) == rotate_from(p2, idx),
{
    let head = p1.subrange(idx, idx);
    assert(head =~= Seq::<usize>::empty());
    let rot = rotate_from(p2, idx);
    let pred = |x: usize| !head.contains(x);
    assert(forall|i: int| 0 <= i < rot.len() ==> pred(#[trigger] rot[i]));
    lemma_filter_all(rot, pred);
    assert(head + rot.filter(pred) =~= rot);
}

/// Crossover with explicit cut points; the random draw stands apart in
/// `pairwise_crossover`. The child is the copied segment of `p1` followed
/// by the cyclic fill from `p2`, and is always a permutation of the same
/// length as its parents.
pub fn crossover_with_cuts(p1: &Vec<usize>, p2: &Vec<usize>, idx1: usize, idx2: usize) -> (child:
    Vec<usize>)
    requires
        is_perm(p1@, p1@.len() as nat),
        is_perm(p2@, p2@.len() as nat),
        p1@.len() == p2@.len(),
        idx1 <= idx2 <= p1@.len(),
    ensures
        child@ == crossover_spec(p1@, p2@, idx1 as int, idx2 as int),
        is_perm(child@, p1@.len() as nat),
{
    let n = p1.len();
    let ghost head = p1@.subrange(idx1 as int, idx2 as int);
    let ghost rot = rotate_from(p2@, idx2 as int);
    let ghost pred = |x: usize| !head.contains(x);
    proof {
        lemma_rotate_perm(p2@, idx2 as int, p2@.len() as nat);
    }
    let mut child: Vec<usize> = Vec::new();
    let mut i: usize = idx1;
    while i < idx2
        invariant
            idx1 <= i <= idx2 <= p1@.len(),
            child@ == p1@.subrange(idx1 as int, i as int),
        decreases idx2 - i,
    {
        child.push(p1[i]);
        i = i + 1;
        proof {
            assert(child@ =~= p1@.subrange(idx1 as int, i as int));
        }
    }
    proof {
        assert(child@ == head);
        assert(rot.subrange(0, 0) =~= Seq::<usize>::empty());
        reveal(Seq::filter);
        assert(child@ =~= head + rot.subrange(0, 0).filter(pred));
    }
    let mut k: usize = 0;
    while k < n
        invariant
            k <= n,
            n == p1@.len(),
            n == p2@.len(),
            idx1 <= idx2 <= n,
            is_perm(p2@, n as nat),
            is_perm(rot, n as nat),
            head == p1@.subrange(idx1 as int, idx2 as int),
            rot == rotate_from(p2@, idx2 as int),
            pred == (|x: usize| !head.contains(x)),
            child@ == head + rot.subrange(0, k as int).filter(pred),
        decreases n - k,
    {
        let pos = if k < n - idx2 {
            idx2 + k
        } else {
            k - (n - idx2)
        };
        let x = p2[pos];
        proof {
            if k < n - idx2 {
                assert(rot[k as int] == p2@[idx2 + k]);
            } else {
                assert(rot[k as int] == p2@.subrange(0, idx2 as int)[k - (n - idx2)]);
            }
            assert(x == rot[k as int]);
            let taken = rot.subrange(0, k as int);
            assert(forall|j: int| 0 <= j < k ==> taken[j] == rot[j]);
            assert(!taken.contains(x));
            lemma_filter_outside(taken, pred);
            assert(!taken.filter(pred).contains(x));
            if head.contains(x) {
                let j = choose|j: int| 0 <= j < head.len() && head[j] == x;
                assert(child@[j] == x);
                assert(child@.contains(x));
            } else {
                if child@.contains(x) {
                    let j = choose|j: int| 0 <= j < child@.len() && child@[j] == x;
                    if j < head.len() {
                        assert(head[j] == x);
                        assert(false);
                    } else {
                        assert(taken.filter(pred)[j - head.len()] == x);
                        assert(taken.filter(pred).contains(x));
                        assert(false);
                    }
                }
            }
        }
        if !tour_contains(&child, x) {
            child.push(x);
        }
        proof {
            let taken = rot.subrange(0, k as int);
            let step = rot.subrange(0, k + 1);
            assert(step =~= taken + seq![x]);
            Seq::<usize>::filter_distributes_over_add(taken, seq![x], pred);
            lemma_filter_singleton(x, pred);
            assert(child@ =~= head + step.filter(pred));
        }
        k = k + 1;
    }
    proof {
        assert(rot.subrange(0, n as int) =~= rot);
        assert(child@ == crossover_spec(p1@, p2@, idx1 as int, idx2 as int));
        let filtered = rot.filter(pred);
        lemma_filter_outside(rot, pred);
        lemma_filter_no_dup(rot, pred);
        assert(forall|j: int|
            0 <= j < head.len() ==> head[j] == #[trigger] p1@[idx1 + j]);
        assert(head.no_duplicates());
        // entries are in range
        assert forall|j: int| 0 <= j < child@.len() implies (#[trigger] child@[j]) < n by {
            if j < head.len() {
                assert(child@[j] == p1@[idx1 + j]);
            } else {
                assert(child@[j] == filtered[j - head.len()]);
                assert(filtered.contains(filtered[j - head.len()]));
                let m = choose|m: int| 0 <= m < rot.len() && rot[m] == child@[j];
                assert(rot[m] < n);
            }
        }
        // no index is repeated
        assert forall|a: int, b: int| 0 <= a < b < child@.len() implies child@[a] != child@[b] by {
            if b < head.len() {
                assert(child@[a] == head[a] && child@[b] == head[b]);
            } else if a >= head.len() {
                assert(child@[a] == filtered[a - head.len()]);
                assert(child@[b] == filtered[b - head.len()]);
            } else {
                assert(child@[a] == head[a]);
                assert(child@[b] == filtered[b - head.len()]);
                rot.lemma_filter_pred(pred, b - head.len());
                assert(pred(filtered[b - head.len()]));
                assert(head.contains(head[a]));
            }
        }
        // every town index is present
        assert forall|v: int| 0 <= v < n implies #[trigger] child@.contains(v as usize) by {
            assert(rot.contains(v as usize));
            if head.contains(v as usize) {
                let j = choose|j: int| 0 <= j < head.len() && head[j] == v as usize;
                assert(child@[j] == v as usize);
            } else {
                let m = choose|m: int| 0 <= m < rot.len() && rot[m] == v as usize;
                rot.lemma_filter_contains(pred, m);
                let j = choose|j: int| 0 <= j < filtered.len() && filtered[j] == v as usize;
                assert(child@[head.len() + j] == v as usize);
            }
        }
        lemma_len_from_distinct_complete(child@, n as nat);
    }
    child
}

/// Recombines two parents at random cut points `idx1 <= idx2`: the lower
/// cut is drawn uniformly over all but the last position, the upper
/// uniformly from the lower cut up to the last position. A single-town
/// tour has no room for cuts and is recombined with both cuts at zero.
/// The child is always a permutation of the same length as its parents,
/// whatever the draw.
pub fn pairwise_crossover(p1: &Vec<usize>, p2: &Vec<usize>) -> (child: Vec<usize>)
    requires
        is_perm(p1@, p1@.len() as nat),
        is_perm(p2@, p2@.len() as nat),
        p1@.len() == p2@.len(),
        1 <= p1@.len() <= MAX_TOWNS,
    ensures
        is_perm(child@, p1@.len() as nat),
        child@.len() == p1@.len(),
        exists|i1: int, i2: int|
            0 <= i1 <= i2 <= p1@.len() && child@ == #[trigger] crossover_spec(p1@, p2@, i1, i2),
{
    let n = p1.len();
    let mut idx1: usize = 0;
    let mut idx2: usize = 0;
    if n >= 2 {
        idx1 = rand_below(n - 1);
        idx2 = idx1 + rand_below(n - idx1);
    }
    let child = crossover_with_cuts(p1, p2, idx1, idx2);
    proof {
        assert(child@ == crossover_spec(p1@, p2@, idx1 as int, idx2 as int));
    }
    child
}

} // verus!
