//! The population initializer: a collection of distinct random tours.
//! The target size is first capped by a cheap estimate of how many
//! distinct permutations exist at all, so that duplicate rejection cannot
//! chase an unreachable goal for very small town counts.

use crate::perm::is_perm;
use crate::perm::lemma_perm_from_multiset;
use crate::perm::pop_view;
use crate::perm::tours_equal;
use crate::rng::shuffle_tour;
use vstd::prelude::*;

verus! {

/// Largest admissible target population size.
pub const MAX_POPULATION: usize = 0xFFFF_FFFF;

/// A well-formed population over `n` towns: every member is a
/// permutation, and no two members are structurally equal.
pub open spec fn pop_wf(p: Seq<Seq<usize>>, n: nat) -> bool {
    &&& forall|i: int| 0 <= i < p.len() ==> is_perm(#[trigger] p[i], n)
    &&& p.no_duplicates()
}

/// The feasibility estimate of how many distinct tours exist over `n`
/// towns: the product of `2..n`. It understates the true count (which
/// is the product of `1..=n`) and is used only to cap the population
/// size, never to decide correctness.
pub open spec fn distinct_tours_estimate(n: nat) -> nat
    decreases n,
{
    if n <= 2 {
        1
    } else {
        distinct_tours_estimate((n - 1) as nat) * ((n - 1) as nat)
    }
}

/// The estimate is always at least one.
pub proof fn lemma_estimate_pos(n: nat)
    ensures
        distinct_tours_estimate(n) >= 1,
    decreases n,
{
    if n <= 2 {
    } else {
        lemma_estimate_pos((n - 1) as nat);
        assert(distinct_tours_estimate((n - 1) as nat) * ((n - 1) as nat) >= 1)
            by (nonlinear_arith)
            requires
                distinct_tours_estimate((n - 1) as nat) >= 1,
                n >= 3,
        ;
    }
}

/// The estimate never shrinks as towns are added.
pub proof fn lemma_estimate_monotone(a: nat, b: nat)
    requires
        a <= b,
    ensures
        distinct_tours_estimate(a) <= distinct_tours_estimate(b),
    decreases b,
{
    if b <= 2 || a == b {
    } else {
        lemma_estimate_monotone(a, (b - 1) as nat);
        assert(distinct_tours_estimate(b) == distinct_tours_estimate((b - 1) as nat) * ((b
            - 1) as nat));
        assert(distinct_tours_estimate((b - 1) as nat) * ((b - 1) as nat)
            >= distinct_tours_estimate((b - 1) as nat) * 1) by (nonlinear_arith)
            requires
                b >= 3,
        ;
    }
}

/// How many members a population over `n` towns can be given: the target,
/// unless the estimate of distinct tours is smaller.
pub fn population_capacity(n: usize, target: usize) -> (r: usize)
    requires
        1 <= target <= MAX_POPULATION,
        n <= MAX_POPULATION,
    ensures
        r == vstd::math::min(target as int, distinct_tours_estimate(n as nat) as int),
        1 <= r <= target,
{
    let mut cap: u64 = 1;
    let mut i: u64 = 2;
    let n64 = n as u64;
    if target == 1 {
        proof {
            lemma_estimate_pos(n as nat);
        }
        return 1;
    }
    while i < n64
        invariant
            2 <= i,
            i <= n64 || n64 < 2,
            n64 < 2 ==> i == 2,
            n64 == n,
            n <= MAX_POPULATION,
            1 <= target <= MAX_POPULATION,
            cap == distinct_tours_estimate(i as nat),
            1 <= cap < target,
        decreases n64 - i,
    {
        proof {
            assert(cap * i < (MAX_POPULATION as u64) * (MAX_POPULATION as u64))
                by (nonlinear_arith)
                requires
                    cap < MAX_POPULATION as u64,
                    i < MAX_POPULATION as u64,
            ;
            assert((MAX_POPULATION as int) * (MAX_POPULATION as int) < u64::MAX as int)
                by (nonlinear_arith);
            assert(cap * i >= 1) by (nonlinear_arith)
                requires
                    cap >= 1,
                    i >= 2,
            ;
        }
        cap = cap * i;
        i = i + 1;
        if cap >= target as u64 {
            proof {
                lemma_estimate_monotone(i as nat, n as nat);
            }
            return target;
        }
    }
    proof {
        lemma_estimate_pos(n as nat);
        if n64 < 2 {
            assert(distinct_tours_estimate(n as nat) == 1);
            assert(cap == 1);
        } else {
            assert(i == n64);
            assert(cap == distinct_tours_estimate(n as nat));
        }
        assert(cap < target);
        assert(cap as int == distinct_tours_estimate(n as nat) as int);
    }
    cap as usize
}

/// Whether a population already holds a structurally equal tour.
pub fn population_contains(pop: &Vec<Vec<usize>>, t: &Vec<usize>) -> (r: bool)
    ensures
        r == pop_view(pop@).contains(t@),
{
    let mut i: usize = 0;
    while i < pop.len()
        invariant
            i <= pop@.len(),
            forall|j: int| 0 <= j < i ==> pop_view(pop@)[j] != t@,
        decreases pop@.len() - i,
    {
        if tours_equal(&pop[i], t) {
            proof {
                assert(pop_view(pop@)[i as int] == t@);
            }
            return true;
        }
        i = i + 1;
    }
    proof {
        if pop_view(pop@).contains(t@) {
            let j = choose|j: int|
                0 <= j < pop_view(pop@).len() && pop_view(pop@)[j] == t@;
            assert(false);
        }
    }
    false
}

/// The tour that visits the towns in index order.
pub fn identity_tour(n: usize) -> (t: Vec<usize>)
    ensures
        is_perm(t@, n as nat),
        t@.len() == n,
{
    let mut t: Vec<usize> = Vec::new();
    let mut i: usize = 0;
    while i < n
        invariant
            i <= n,
            t@.len() == i,
            forall|j: int| 0 <= j < i ==> #[trigger] t@[j] == j,
        decreases n - i,
    {
        t.push(i);
        i = i + 1;
    }
    proof {
        assert forall|v: int| 0 <= v < n implies #[trigger] t@.contains(v as usize) by {
            assert(t@[v] == v as usize);
        }
    }
    t
}

/// A fresh uniformly random tour over `n` towns.
pub fn random_tour(n: usize) -> (t: Vec<usize>)
    ensures
        is_perm(t@, n as nat),
{
    let mut t = identity_tour(n);
    let ghost base = t@;
    shuffle_tour(&mut t);
    proof {
        lemma_perm_from_multiset(base, t@, n as nat);
    }
    t
}

/// Produces a population of distinct random tours over the given town
/// count, of size `min(target, feasibility estimate)`. Tours are drawn
/// at random and duplicates rejected; a bounded number of draws keeps
/// the initializer terminating even in the degenerate cases. The flag
/// reports the one shortfall that the draw budget admits: it is true
/// exactly when the budget ran out first and the population stayed
/// below that size.
pub fn generate_population(n: usize, target: usize) -> (r: (Vec<Vec<usize>>, bool))
    requires
        1 <= n <= MAX_POPULATION,
        1 <= target <= MAX_POPULATION,
    ensures
        pop_wf(pop_view(r.0@), n as nat),
        1 <= r.0@.len(),
        r.0@.len() <= vstd::math::min(target as int, distinct_tours_estimate(n as nat) as int),
        r.1 <==> r.0@.len() < vstd::math::min(
            target as int,
            distinct_tours_estimate(n as nat) as int,
        ),
{
    let size = population_capacity(n, target);
    let mut pop: Vec<Vec<usize>> = Vec::new();
    let first = random_tour(n);
    pop.push(first);
    let mut attempts: u64 = 0;
    let fuel: u64 = (size as u64) * 64 + 64;
    while pop.len() < size && attempts < fuel
        invariant
            1 <= pop@.len() <= size,
            pop_wf(pop_view(pop@), n as nat),
            n >= 1,
        decreases fuel - attempts,
    {
        let member = random_tour(n);
        if !population_contains(&pop, &member) {
            let ghost before = pop_view(pop@);
            pop.push(member);
            proof {
                assert(pop_view(pop@) =~= before.push(member@));
            }
        }
        attempts = attempts + 1;
    }
    let exhausted = pop.len() < size;
    (pop, exhausted)
}

} // verus!
