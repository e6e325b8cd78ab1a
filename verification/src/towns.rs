//! The town set: the geometry the search works on, captured as a symmetric
//! matrix of integer distances between towns, and the fitness of a tour as
//! the total length of the open path it traces.
//!
//! Coordinates themselves never enter the search: only distances do. A
//! caller that starts from points in the plane computes each pairwise
//! distance, scales it to an integer, and builds the matrix.

use crate::perm::is_perm;
use vstd::prelude::*;

verus! {

/// Largest admissible town count.
pub const MAX_TOWNS: usize = 0xFFFF_FFFF;

/// Largest admissible entry of a distance matrix. Together with
/// `MAX_TOWNS` it keeps every path length below `u64::MAX`.
pub const MAX_DISTANCE: u64 = 0xFFFF_FFFF;

/// An immutable set of towns, identified by index, with the distance
/// between every pair.
pub struct TownSet {
    dist: Vec<Vec<u64>>,
}

/// A valid distance matrix: at least one row, square, no larger than
/// `MAX_TOWNS`, entries at most `MAX_DISTANCE`, symmetric, and zero on
/// the diagonal.
pub open spec fn valid_matrix(d: Seq<Seq<u64>>) -> bool {
    &&& 1 <= d.len() <= MAX_TOWNS
    &&& forall|i: int| 0 <= i < d.len() ==> (#[trigger] d[i]).len() == d.len()
    &&& forall|i: int, j: int|
        0 <= i < d.len() && 0 <= j < d.len() ==> (#[trigger] d[i][j]) <= MAX_DISTANCE
    &&& forall|i: int, j: int|
        0 <= i < d.len() && 0 <= j < d.len() ==> (#[trigger] d[i][j]) == d[j][i]
    &&& forall|i: int| 0 <= i < d.len() ==> (#[trigger] d[i][i]) == 0
}

/// Total length of the open path that visits the rows of `d` in the order
/// given by `t`: the sum of the distances of consecutive hops. There is no
/// closing hop back to the start.
pub open spec fn path_len(d: Seq<Seq<u64>>, t: Seq<usize>) -> int
    decreases t.len(),
{
    if t.len() < 2 {
        0
    } else {
        path_len(d, t.drop_last()) + d[t[t.len() - 2] as int][t[t.len() - 1] as int]
    }
}

impl TownSet {
    /// Number of towns.
    pub closed spec fn n(self) -> nat {
        self.dist@.len()
    }

    /// The distance matrix.
    pub closed spec fn d(self) -> Seq<Seq<u64>> {
        self.dist@.map_values(|row: Vec<u64>| row@)
    }

    /// A well-formed town set holds a valid distance matrix, one row per
    /// town.
    pub open spec fn wf(self) -> bool {
        &&& valid_matrix(self.d())
        &&& self.n() == self.d().len()
    }

    /// Builds a town set from a distance matrix, validating it: the result
    /// is `Some` exactly when the matrix is valid.
    pub fn new(dist: Vec<Vec<u64>>) -> (r: Option<TownSet>)
        ensures
            match r {
                Some(t) => t.wf() && t.d() == dist@.map_values(|row: Vec<u64>| row@),
                None => !valid_matrix(dist@.map_values(|row: Vec<u64>| row@)),
            },
    {
        let ghost dv = dist@.map_values(|row: Vec<u64>| row@);
        proof {
            assert(dv.len() == dist@.len());
            assert(forall|a: int| 0 <= a < dv.len() ==> #[trigger] dv[a] == dist@[a]@);
        }
        let n = dist.len();
        if n < 1 || n > MAX_TOWNS {
            return None;
        }
        let mut i: usize = 0;
        while i < n
            invariant
                i <= n,
                n == dist@.len(),
                dv == dist@.map_values(|row: Vec<u64>| row@),
                dv.len() == dist@.len(),
                forall|a: int| 0 <= a < dv.len() ==> #[trigger] dv[a] == dist@[a]@,
                forall|a: int| 0 <= a < i ==> (#[trigger] dist@[a]@).len() == n,
                forall|a: int, b: int|
                    0 <= a < i && 0 <= b < n ==> (#[trigger] dist@[a]@[b]) <= MAX_DISTANCE,
                forall|a: int, b: int|
                    0 <= a < i && 0 <= b <= a ==> (#[trigger] dist@[a]@[b]) == dist@[b]@[a],
                forall|a: int| 0 <= a < i ==> (#[trigger] dist@[a]@[a]) == 0,
            decreases n - i,
        {
            if dist[i].len() != n {
                proof {
                    assert(dv[i as int].len() != dv.len());
                }
                return None;
            }
            let mut j: usize = 0;
            while j < n
                invariant
                    j <= n,
                    i < n,
                    n == dist@.len(),
                    dv == dist@.map_values(|row: Vec<u64>| row@),
                    dv.len() == dist@.len(),
                    forall|a: int| 0 <= a < dv.len() ==> #[trigger] dv[a] == dist@[a]@,
                    dist@[i as int]@.len() == n,
                    forall|a: int| 0 <= a < i ==> (#[trigger] dist@[a]@).len() == n,
                    forall|b: int| 0 <= b < j ==> (#[trigger] dist@[i as int]@[b]) <= MAX_DISTANCE,
                    forall|b: int|
                        0 <= b < j && b <= i ==> (#[trigger] dist@[i as int]@[b]) == dist@[b]@[i as int],
                    forall|b: int| 0 <= b < j && b == i ==> (#[trigger] dist@[i as int]@[b]) == 0,
                decreases n - j,
            {
                if dist[i][j] > MAX_DISTANCE {
                    proof {
                        assert(dv[i as int][j as int] > MAX_DISTANCE);
                    }
                    return None;
                }
                if j <= i && dist[i][j] != dist[j][i] {
                    proof {
                        assert(dv[i as int][j as int] != dv[j as int][i as int]);
                    }
                    return None;
                }
                if j == i && dist[i][j] != 0 {
                    proof {
                        assert(dv[i as int][i as int] != 0);
                    }
                    return None;
                }
                j = j + 1;
            }
            i = i + 1;
        }
        let t = TownSet { dist };
        proof {
            assert forall|a: int, b: int|
                0 <= a < t.n() && 0 <= b < t.n() implies (#[trigger] t.d()[a][b]) == t.d()[b][a] by {
                if b <= a {
                    assert(t.d()[a][b] == t.d()[b][a]);
                } else {
                    assert(t.d()[b][a] == t.d()[a][b]);
                }
            }
        }
        Some(t)
    }

    /// Number of towns, as a runtime value.
    pub fn town_count(&self) -> (r: usize)
        ensures
            r == self.n(),
    {
        self.dist.len()
    }

    /// The distance between two towns.
    pub fn distance(&self, a: usize, b: usize) -> (r: u64)
        requires
            self.wf(),
            a < self.n(),
            b < self.n(),
        ensures
            r == self.d()[a as int][b as int],
    {
        proof {
            assert(self.d()[a as int] == self.dist@[a as int]@);
        }
        self.dist[a][b]
    }

    /// The fitness of a tour: the total length of its open path. Lower is
    /// better.
    pub fn member_fitness(&self, t: &Vec<usize>) -> (r: u64)
        requires
            self.wf(),
            is_perm(t@, self.n()),
        ensures
            r as int == path_len(self.d(), t@),
    {
        let mut res: u64 = 0;
        let mut i: usize = 0;
        proof {
            assert(t@.len() >= 1);
            assert(t@.subrange(0, 1).len() < 2);
        }
        while i + 1 < t.len()
            invariant
                self.wf(),
                is_perm(t@, self.n()),
                i + 1 <= t@.len(),
                res as int == path_len(self.d(), t@.subrange(0, i + 1)),
            decreases t@.len() - i,
        {
            proof {
                let cur = t@.subrange(0, i + 1);
                let next = t@.subrange(0, i + 2);
                assert(next.drop_last() =~= cur);
                assert(next[i as int] == t@[i as int]);
                assert(next[i + 1] == t@[i + 1]);
                lemma_path_len_bounds(*self, cur);
                assert(((MAX_TOWNS - 1) as int) * (MAX_DISTANCE as int) < (u64::MAX as int))
                    by (nonlinear_arith);
                lemma_mul_le((cur.len() - 1) as int, (MAX_TOWNS - 1) as int, MAX_DISTANCE as int);
                assert(self.d()[t@[i as int] as int] == self.dist@[t@[i as int] as int]@);
            }
            res = res + self.dist[t[i]][t[i + 1]];
            i = i + 1;
        }
        proof {
            assert(t@.subrange(0, t@.len() as int) =~= t@);
        }
        res
    }
}

/// `a <= b` implies `a * c <= b * c` for non-negative `c`.
pub proof fn lemma_mul_le(a: int, b: int, c: int)
    requires
        a <= b,
        0 <= c,
    ensures
        a * c <= b * c,
{
    assert(a * c <= b * c) by (nonlinear_arith)
        requires
            a <= b,
            0 <= c,
    ;
}

/// A path over a well-formed town set is never negative, and is bounded by
/// the number of hops times the largest admissible distance.
pub proof fn lemma_path_len_bounds(ts: TownSet, t: Seq<usize>)
    requires
        ts.wf(),
        forall|i: int| 0 <= i < t.len() ==> (#[trigger] t[i]) < ts.n(),
    ensures
        0 <= path_len(ts.d(), t),
        t.len() >= 1 ==> path_len(ts.d(), t) <= (t.len() - 1) * MAX_DISTANCE as int,
        t.len() < 2 ==> path_len(ts.d(), t) == 0,
    decreases t.len(),
{
    if t.len() < 2 {
    } else {
        lemma_path_len_bounds(ts, t.drop_last());
        assert(t[t.len() - 2] < ts.n());
        assert(t[t.len() - 1] < ts.n());
        assert(ts.d()[t[t.len() - 2] as int][t[t.len() - 1] as int] <= MAX_DISTANCE);
    }
}

/// Fitness is never negative; over at most one town it is exactly zero.
pub proof fn lemma_fitness_non_negative(ts: TownSet, t: Seq<usize>)
    requires
        ts.wf(),
        is_perm(t, ts.n()),
    ensures
        path_len(ts.d(), t) >= 0,
        ts.n() <= 1 ==> path_len(ts.d(), t) == 0,
{
    lemma_path_len_bounds(ts, t);
}

/// With at least two towns and strictly positive distances between
/// distinct towns, the fitness of a tour is strictly positive. (Two towns
/// that share a location would have distance zero between them; such town
/// sets are left out here.)
pub proof fn lemma_fitness_positive(ts: TownSet, t: Seq<usize>)
    requires
        ts.wf(),
        is_perm(t, ts.n()),
        ts.n() >= 2,
        forall|i: int, j: int|
            0 <= i < ts.n() && 0 <= j < ts.n() && i != j ==> (#[trigger] ts.d()[i][j]) > 0,
    ensures
        path_len(ts.d(), t) > 0,
{
    let l = t.len() as int;
    lemma_path_len_bounds(ts, t.drop_last());
    assert(t[l - 2] != t[l - 1]);
    assert(ts.d()[t[l - 2] as int][t[l - 1] as int] > 0);
}

} // verus!
