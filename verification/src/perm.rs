//! Tours as permutations: the well-formedness predicate, the executable
//! helpers that test membership and structural equality, and the lemmas
//! that carry permutation facts through reorderings.

use vstd::prelude::*;
use vstd::seq_lib::group_to_multiset_ensures;
use vstd::set_lib::lemma_int_range;
use vstd::set_lib::set_int_range;

verus! {

/// A tour over `n` towns is a sequence that holds each town index `0..n`
/// exactly once: right length, every entry in range, every index present,
/// and no entry repeated.
pub open spec fn is_perm(s: Seq<usize>, n: nat) -> bool {
    &&& s.len() == n
    &&& forall|i: int| 0 <= i < s.len() ==> (#[trigger] s[i]) < n
    &&& forall|v: int| 0 <= v < n ==> #[trigger] s.contains(v as usize)
    &&& s.no_duplicates()
}

/// The mathematical view of a population: its members as sequences.
pub open spec fn pop_view(p: Seq<Vec<usize>>) -> Seq<Seq<usize>> {
    p.map_values(|t: Vec<usize>| t@)
}

/// Whether a tour contains a given town index.
pub fn tour_contains(t: &Vec<usize>, x: usize) -> (r: bool)
    ensures
        r == t@.contains(x),
{
    let mut i: usize = 0;
    while i < t.len()
        invariant
            i <= t@.len(),
            forall|j: int| 0 <= j < i ==> t@[j] != x,
        decreases t@.len() - i,
    {
        if t[i] == x {
            return true;
        }
        i = i + 1;
    }
    false
}

/// Structural equality of two tours.
pub fn tours_equal(a: &Vec<usize>, b: &Vec<usize>) -> (r: bool)
    ensures
        r <==> a@ == b@,
{
    if a.len() != b.len() {
        assert(a@ != b@);
        return false;
    }
    let mut i: usize = 0;
    while i < a.len()
        invariant
            i <= a@.len(),
            a@.len() == b@.len(),
            forall|j: int| 0 <= j < i ==> a@[j] == b@[j],
        decreases a@.len() - i,
    {
        if a[i] != b[i] {
            return false;
        }
        i = i + 1;
    }
    proof {
        assert(a@ =~= b@);
    }
    true
}

/// An exact copy of a tour.
pub fn clone_tour(t: &Vec<usize>) -> (r: Vec<usize>)
    ensures
        r@ == t@,
{
    let mut r: Vec<usize> = Vec::new();
    let mut i: usize = 0;
    while i < t.len()
        invariant
            i <= t@.len(),
            r@ == t@.subrange(0, i as int),
        decreases t@.len() - i,
    {
        r.push(t[i]);
        i = i + 1;
        proof {
            assert(r@ =~= t@.subrange(0, i as int));
        }
    }
    proof {
        assert(r@ =~= t@);
    }
    r
}

/// A sequence with the same elements, in whatever order, as a
/// duplicate-free sequence is itself duplicate-free.
pub proof fn lemma_no_dup_from_multiset<A>(a: Seq<A>, b: Seq<A>)
    requires
        a.no_duplicates(),
        a.to_multiset() == b.to_multiset(),
    ensures
        b.no_duplicates(),
{
    a.lemma_multiset_has_no_duplicates();
    assert forall|x: A| b.to_multiset().contains(x) implies b.to_multiset().count(x) == 1 by {
        assert(a.to_multiset().contains(x));
    }
    b.lemma_multiset_has_no_duplicates_conv();
}

/// Reordering a tour keeps it a permutation.
pub proof fn lemma_perm_from_multiset(a: Seq<usize>, b: Seq<usize>, n: nat)
    requires
        is_perm(a, n),
        a.to_multiset() == b.to_multiset(),
    ensures
        is_perm(b, n),
{
    broadcast use group_to_multiset_ensures;

    assert(a.to_multiset().len() == a.len());
    assert(b.to_multiset().len() == b.len());
    assert(b.len() == n);
    assert forall|i: int| 0 <= i < b.len() implies (#[trigger] b[i]) < n by {
        assert(b.contains(b[i]));
        assert(a.to_multiset().count(b[i]) > 0);
        assert(a.contains(b[i]));
        let j = choose|j: int| 0 <= j < a.len() && a[j] == b[i];
        assert(a[j] < n);
    }
    assert forall|v: int| 0 <= v < n implies #[trigger] b.contains(v as usize) by {
        assert(a.contains(v as usize));
        assert(a.to_multiset().count(v as usize) > 0);
        assert(b.to_multiset().count(v as usize) > 0);
    }
    lemma_no_dup_from_multiset(a, b);
}

/// Reordering a population keeps every member a permutation.
pub proof fn lemma_members_from_multiset(a: Seq<Seq<usize>>, b: Seq<Seq<usize>>, n: nat)
    requires
        forall|i: int| 0 <= i < a.len() ==> is_perm(#[trigger] a[i], n),
        a.to_multiset() == b.to_multiset(),
    ensures
        b.len() == a.len(),
        forall|i: int| 0 <= i < b.len() ==> is_perm(#[trigger] b[i], n),
{
    broadcast use group_to_multiset_ensures;

    assert(a.to_multiset().len() == a.len());
    assert(b.to_multiset().len() == b.len());
    assert forall|i: int| 0 <= i < b.len() implies is_perm(#[trigger] b[i], n) by {
        assert(b.contains(b[i]));
        assert(a.to_multiset().count(b[i]) > 0);
        assert(a.contains(b[i]));
        let j = choose|j: int| 0 <= j < a.len() && a[j] == b[i];
        assert(is_perm(a[j], n));
    }
}

/// Reordering a population keeps every member one of a pool it was
/// already drawn from.
pub proof fn lemma_contained_from_multiset(
    a: Seq<Seq<usize>>,
    b: Seq<Seq<usize>>,
    pool: Seq<Seq<usize>>,
)
    requires
        forall|i: int| 0 <= i < a.len() ==> pool.contains(#[trigger] a[i]),
        a.to_multiset() == b.to_multiset(),
    ensures
        forall|i: int| 0 <= i < b.len() ==> pool.contains(#[trigger] b[i]),
{
    broadcast use group_to_multiset_ensures;

    assert forall|i: int| 0 <= i < b.len() implies pool.contains(#[trigger] b[i]) by {
        assert(b.contains(b[i]));
        assert(a.to_multiset().count(b[i]) > 0);
        assert(a.contains(b[i]));
        let j = choose|j: int| 0 <= j < a.len() && a[j] == b[i];
        assert(pool.contains(a[j]));
    }
}

/// Pigeonhole: a duplicate-free sequence of values below `n` that
/// contains all of `0..n` has length exactly `n`.
pub proof fn lemma_len_from_distinct_complete(s: Seq<usize>, n: nat)
    requires
        n <= usize::MAX,
        forall|i: int| 0 <= i < s.len() ==> (#[trigger] s[i]) < n,
        forall|v: int| 0 <= v < n ==> #[trigger] s.contains(v as usize),
        s.no_duplicates(),
    ensures
        s.len() == n,
        is_perm(s, n),
{
    let m = s.map_values(|x: usize| x as int);
    assert(m.no_duplicates());
    m.unique_seq_to_set();
    lemma_int_range(0, n as int);
    assert(m.to_set() =~= set_int_range(0, n as int)) by {
        assert forall|x: int| m.to_set().contains(x) implies set_int_range(0, n as int).contains(
            x,
        ) by {
            let i = choose|i: int| 0 <= i < m.len() && m[i] == x;
            assert(s[i] < n);
        }
        assert forall|x: int| set_int_range(0, n as int).contains(x) implies m.to_set().contains(
            x,
        ) by {
            assert(s.contains(x as usize));
            let i = choose|i: int| 0 <= i < s.len() && s[i] == x as usize;
            assert(m[i] == x);
        }
    }
}

} // verus!
