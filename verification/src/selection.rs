//! The selection stage: rank scored members ascending by fitness, keep
//! only the fittest, and track the best tour ever seen. Ties between
//! equal fitness values are broken arbitrarily; only the ordering by
//! fitness is promised.

use crate::perm::clone_tour;
use vstd::prelude::*;
use vstd::seq_lib::group_to_multiset_ensures;

verus! {

/// Picks the `k` best-scoring entries, in ascending fitness order. The
/// result holds at most `k` entries, each taken from `scores` (no entry
/// more often than it occurs there), its first entry scores no worse
/// than anything in `scores`, nothing left out scores better than
/// anything kept, and when fewer than `k` entries exist all of them are
/// kept.
pub fn rank_and_truncate(scores: &Vec<(usize, u64)>, k: usize) -> (kept: Vec<(usize, u64)>)
    requires
        1 <= k,
    ensures
        kept@.len() == vstd::math::min(k as int, scores@.len() as int),
        forall|q: int| 0 <= q < kept@.len() ==> scores@.contains(#[trigger] kept@[q]),
        forall|a: int, b: int| 0 <= a <= b < kept@.len() ==> (#[trigger] kept@[a]).1 <= (#[trigger] kept@[b]).1,
        forall|x: (usize, u64)|
            #[trigger] kept@.to_multiset().count(x) <= scores@.to_multiset().count(x),
        scores@.len() >= 1 ==> forall|j: int|
            0 <= j < scores@.len() ==> kept@[0].1 <= (#[trigger] scores@[j]).1,
        forall|x: (usize, u64)|
            #[trigger] scores@.to_multiset().count(x) > kept@.to_multiset().count(x) ==> forall|
                a: int,
            |
                0 <= a < kept@.len() ==> (#[trigger] kept@[a]).1 <= x.1,
{
    let mut remaining: Vec<(usize, u64)> = Vec::new();
    let mut i: usize = 0;
    while i < scores.len()
        invariant
            i <= scores@.len(),
            remaining@ == scores@.subrange(0, i as int),
        decreases scores@.len() - i,
    {
        remaining.push(scores[i]);
        i = i + 1;
        proof {
            assert(remaining@ =~= scores@.subrange(0, i as int));
        }
    }
    proof {
        assert(remaining@ =~= scores@);
    }
    let mut kept: Vec<(usize, u64)> = Vec::new();
    proof {
        broadcast use group_to_multiset_ensures;
        broadcast use vstd::multiset::group_multiset_axioms;

        assert(kept@.to_multiset().add(remaining@.to_multiset())
            =~= scores@.to_multiset());
    }
    while kept.len() < k && remaining.len() > 0
        invariant
            kept@.len() + remaining@.len() == scores@.len(),
            kept@.len() <= k,
            kept@.to_multiset().add(remaining@.to_multiset()) == scores@.to_multiset(),
            forall|q: int| 0 <= q < kept@.len() ==> scores@.contains(#[trigger] kept@[q]),
            forall|q: int|
                0 <= q < remaining@.len() ==> scores@.contains(#[trigger] remaining@[q]),
            forall|a: int, b: int|
                0 <= a <= b < kept@.len() ==> (#[trigger] kept@[a]).1 <= (#[trigger] kept@[b]).1,
            forall|a: int, b: int|
                0 <= a < kept@.len() && 0 <= b < remaining@.len() ==> (#[trigger] kept@[a]).1
                    <= (#[trigger] remaining@[b]).1,
            kept@.len() == 0 ==> remaining@ == scores@,
            kept@.len() >= 1 ==> forall|j: int|
                0 <= j < scores@.len() ==> kept@[0].1 <= (#[trigger] scores@[j]).1,
        decreases k - kept@.len(),
    {
        let mut m: usize = 0;
        let mut q: usize = 1;
        while q < remaining.len()
            invariant
                m < remaining@.len(),
                q <= remaining@.len(),
                remaining@.len() >= 1,
                forall|j: int| 0 <= j < q ==> remaining@[m as int].1 <= (#[trigger] remaining@[j]).1,
            decreases remaining@.len() - q,
        {
            if remaining[q].1 < remaining[m].1 {
                m = q;
            }
            q = q + 1;
        }
        let ghost old_kept = kept@;
        let ghost old_rem = remaining@;
        let x = remaining.remove(m);
        kept.push(x);
        proof {
            broadcast use group_to_multiset_ensures;
            broadcast use vstd::multiset::group_multiset_axioms;

            assert(x == old_rem[m as int]);
            assert(remaining@ == old_rem.remove(m as int));
            assert(kept@ == old_kept.push(x));
            assert(old_rem.to_multiset().count(x) > 0) by {
                assert(old_rem.contains(x));
            }
            assert(kept@.to_multiset().add(remaining@.to_multiset())
                =~= scores@.to_multiset());
            assert(forall|j: int|
                0 <= j < remaining@.len() ==> #[trigger] remaining@[j] == (if j < m {
                    old_rem[j]
                } else {
                    old_rem[j + 1]
                }));
            assert forall|q2: int| 0 <= q2 < kept@.len() implies scores@.contains(
                #[trigger] kept@[q2],
            ) by {
                if q2 == kept@.len() - 1 {
                    assert(kept@[q2] == old_rem[m as int]);
                }
            }
            if old_kept.len() == 0 {
                assert(forall|j: int|
                    0 <= j < scores@.len() ==> kept@[0].1 <= (#[trigger] scores@[j]).1);
            }
        }
    }
    proof {
        broadcast use group_to_multiset_ensures;
        broadcast use vstd::multiset::group_multiset_axioms;

        assert forall|x: (usize, u64)|
            #[trigger] scores@.to_multiset().count(x) > kept@.to_multiset().count(x) implies forall|
            a: int,
        | 0 <= a < kept@.len() ==> (#[trigger] kept@[a]).1 <= x.1 by {
            assert(kept@.to_multiset().add(remaining@.to_multiset()).count(x) == scores@
                .to_multiset().count(x));
            assert(remaining@.to_multiset().count(x) > 0);
            assert(remaining@.contains(x));
            let b = choose|b: int| 0 <= b < remaining@.len() && remaining@[b] == x;
            assert(forall|a: int|
                0 <= a < kept@.len() ==> (#[trigger] kept@[a]).1 <= remaining@[b].1);
        }
    }
    kept
}

/// Folds this generation's champion into the best-so-far. The recorded
/// best never worsens: the result scores no worse than the previous best
/// and is replaced only on strict improvement; the flag says whether it
/// was.
pub fn update_best(best: Option<(Vec<usize>, u64)>, champion: &Vec<usize>, champion_fitness: u64)
    -> (r: ((Vec<usize>, u64), bool))
    ensures
        match best {
            Option::None => r.1 && r.0.0@ == champion@ && r.0.1 == champion_fitness,
            Option::Some(b) => {
                &&& r.0.1 <= b.1
                &&& r.1 == (champion_fitness < b.1)
                &&& (r.1 ==> r.0.0@ == champion@ && r.0.1 == champion_fitness)
                &&& (!r.1 ==> r.0.0@ == b.0@ && r.0.1 == b.1)
            },
        },
{
    match best {
        Option::None => ((clone_tour(champion), champion_fitness), true),
        Option::Some(b) => {
            if champion_fitness < b.1 {
                ((clone_tour(champion), champion_fitness), true)
            } else {
                (b, false)
            }
        },
    }
}

} // verus!
