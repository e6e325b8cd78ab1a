//! The search engine: evolves a population of distinct tours generation
//! by generation — score, select, breed, mutate — tracks the best tour
//! ever seen, and stops once no improvement has arrived within a patience
//! window, or at an explicit generation ceiling that guarantees
//! termination even in degenerate cases.

use crate::crossover::bred_from;
use crate::crossover::crossover_spec;
use crate::crossover::pairwise_crossover;
use crate::mutation::mutate;
use crate::mutation::mutated_from;
use crate::mutation::reversed_segment;
use crate::perm::clone_tour;
use crate::perm::lemma_contained_from_multiset;
use crate::perm::is_perm;
use crate::perm::lemma_members_from_multiset;
use crate::perm::lemma_no_dup_from_multiset;
use crate::perm::pop_view;
use crate::population::generate_population;
use crate::population::pop_wf;
use crate::population::population_contains;
use crate::population::MAX_POPULATION;
use crate::rng::shuffle_population;
use crate::selection::rank_and_truncate;
use crate::selection::update_best;
use crate::towns::path_len;
use crate::towns::TownSet;
use vstd::pervasive::VecAdditionalExecFns;
use vstd::prelude::*;

verus! {

/// The engine's one unrecoverable error: a population of fewer than two
/// members cannot breed.
#[derive(Debug, PartialEq, Eq)]
pub enum EngineError {
    PopulationTooSmall,
}

/// The evolutionary search over one town set: the live population, the
/// size it is refilled to each generation, and how many survivors
/// selection keeps.
pub struct Solver {
    towns: TownSet,
    population: Vec<Vec<usize>>,
    size: usize,
    survivors: usize,
}

impl Solver {
    /// The town set the search runs over.
    pub closed spec fn town_set(self) -> TownSet {
        self.towns
    }

    /// Number of towns.
    pub open spec fn n(self) -> nat {
        self.town_set().n()
    }

    /// The live population, as sequences.
    pub closed spec fn pop(self) -> Seq<Seq<usize>> {
        pop_view(self.population@)
    }

    /// The size the population is refilled to each generation.
    pub closed spec fn target(self) -> int {
        self.size as int
    }

    /// How many members selection keeps each generation.
    pub closed spec fn survivor_count(self) -> int {
        self.survivors as int
    }

    /// Well-formedness, maintained by every operation: a well-formed town
    /// set, and a population of distinct permutation tours within bounds.
    pub open spec fn wf(self) -> bool {
        &&& self.town_set().wf()
        &&& pop_wf(self.pop(), self.n())
        &&& 1 <= self.pop().len() <= self.target()
        &&& self.target() <= MAX_POPULATION
        &&& 1 <= self.survivor_count() <= MAX_POPULATION
    }

    /// Creates the engine over a town set: draws an initial population of
    /// distinct random tours of size `min(target, feasibility estimate)`
    /// and keeps half of `target` as survivors per generation. The flag
    /// surfaces the initializer's one admissible shortfall: it is true
    /// exactly when the draw budget ran out and the population stayed
    /// below that size.
    pub fn new(towns: TownSet, target: usize) -> (r: (Solver, bool))
        requires
            towns.wf(),
            2 <= target <= MAX_POPULATION,
        ensures
            r.0.wf(),
            r.0.town_set() == towns,
            r.0.survivor_count() == target as int / 2,
            r.0.target() == r.0.pop().len(),
            r.0.pop().len() <= vstd::math::min(
                target as int,
                crate::population::distinct_tours_estimate(towns.n()) as int,
            ),
            r.1 <==> r.0.pop().len() < vstd::math::min(
                target as int,
                crate::population::distinct_tours_estimate(towns.n()) as int,
            ),
    {
        let n = towns.town_count();
        proof {
            assert(crate::towns::MAX_TOWNS == MAX_POPULATION);
            assert(1 <= towns.n() <= crate::towns::MAX_TOWNS);
        }
        let (population, seed_short) = generate_population(n, target);
        let size = population.len();
        let survivors = target / 2;
        (Solver { towns, population, size, survivors }, seed_short)
    }

    /// Scores every member: pairs each population index with the fitness
    /// of the member standing there.
    fn fitness_scores(&self) -> (scores: Vec<(usize, u64)>)
        requires
            self.wf(),
        ensures
            scores@.len() == self.pop().len(),
            forall|j: int|
                0 <= j < scores@.len() ==> (#[trigger] scores@[j]).0 == j && scores@[j].1 as int
                    == path_len(self.town_set().d(), self.pop()[j]),
    {
        let mut scores: Vec<(usize, u64)> = Vec::new();
        let mut j: usize = 0;
        while j < self.population.len()
            invariant
                self.wf(),
                j <= self.pop().len(),
                scores@.len() == j,
                forall|q: int|
                    0 <= q < j ==> (#[trigger] scores@[q]).0 == q && scores@[q].1 as int
                        == path_len(self.town_set().d(), self.pop()[q]),
            decreases self.pop().len() - j,
        {
            proof {
                assert(is_perm(self.pop()[j as int], self.n()));
                assert(self.pop()[j as int] == self.population@[j as int]@);
            }
            let f = self.towns.member_fitness(&self.population[j]);
            scores.push((j, f));
            j = j + 1;
        }
        scores
    }

    /// The selection stage: ranks the population ascending by fitness,
    /// keeps the best `survivor_count` members (all of them when fewer
    /// exist), and returns this generation's champion — a copy of the
    /// best-ranked tour with its fitness, which scores no worse than any
    /// member of the population being ranked.
    pub fn select_survivors(&mut self) -> (champion: (Vec<usize>, u64))
        requires
            old(self).wf(),
        ensures
            final(self).wf(),
            final(self).town_set() == old(self).town_set(),
            final(self).target() == old(self).target(),
            final(self).survivor_count() == old(self).survivor_count(),
            is_perm(champion.0@, old(self).n()),
            champion.1 as int == path_len(old(self).town_set().d(), champion.0@),
            forall|j: int|
                0 <= j < old(self).pop().len() ==> champion.1 as int <= path_len(
                    old(self).town_set().d(),
                    #[trigger] old(self).pop()[j],
                ),
            final(self).pop().len() == vstd::math::min(
                old(self).survivor_count(),
                old(self).pop().len() as int,
            ),
            forall|i: int|
                0 <= i < final(self).pop().len() ==> old(self).pop().contains(
                    #[trigger] final(self).pop()[i],
                ),
            forall|j: int, i: int|
                (0 <= j < old(self).pop().len() && 0 <= i < final(self).pop().len()
                    && !(final(self).pop().contains(#[trigger] old(self).pop()[j])))
                    ==> path_len(
                    old(self).town_set().d(),
                    #[trigger] final(self).pop()[i],
                ) <= path_len(old(self).town_set().d(), old(self).pop()[j]),
    {
        let ghost pop0 = self.pop();
        let ghost d0 = self.town_set().d();
        let scores = self.fitness_scores();
        let kept = rank_and_truncate(&scores, self.survivors);
        proof {
            // entries of `kept` come from `scores`, so they are (index, fitness) pairs
            assert forall|q: int| 0 <= q < kept@.len() implies (#[trigger] kept@[q]).0
                < pop0.len() && kept@[q].1 as int == path_len(d0, pop0[kept@[q].0 as int]) by {
                assert(scores@.contains(kept@[q]));
                let j = choose|j: int| 0 <= j < scores@.len() && scores@[j] == kept@[q];
            }
            // `scores` has pairwise distinct entries
            assert forall|a: int, b: int|
                0 <= a < b < scores@.len() implies scores@[a] != scores@[b] by {
                assert(scores@[a].0 == a);
                assert(scores@[b].0 == b);
            }
            scores@.lemma_multiset_has_no_duplicates();
            assert forall|x: (usize, u64)| kept@.to_multiset().contains(x) implies kept@
                .to_multiset().count(x) == 1 by {
                broadcast use vstd::seq_lib::group_to_multiset_ensures;

                assert(kept@.to_multiset().count(x) <= scores@.to_multiset().count(x));
                assert(scores@.to_multiset().count(x) > 0);
                assert(scores@.contains(x));
                assert(scores@.to_multiset().count(x) == 1);
            }
            kept@.lemma_multiset_has_no_duplicates_conv();
            // hence the kept indices are pairwise distinct
            assert forall|a: int, b: int|
                0 <= a < b < kept@.len() implies (#[trigger] kept@[a]).0 != (
            #[trigger] kept@[b]).0 by {
                if kept@[a].0 == kept@[b].0 {
                    assert(kept@[a].1 == kept@[b].1);
                    assert(kept@[a] == kept@[b]);
                }
            }
        }
        let ci = kept[0].0;
        let champion_fit = kept[0].1;
        let champion_tour = clone_tour(&self.population[ci]);
        let mut new_pop: Vec<Vec<usize>> = Vec::new();
        let mut q: usize = 0;
        while q < kept.len()
            invariant
                q <= kept@.len(),
                pop_view(new_pop@).len() == q,
                self.wf(),
                self.pop() == pop0,
                forall|i: int|
                    0 <= i < kept@.len() ==> (#[trigger] kept@[i]).0 < pop0.len(),
                forall|a: int, b: int|
                    0 <= a < b < kept@.len() ==> (#[trigger] kept@[a]).0 != (#[trigger] kept@[b]).0,
                forall|i: int|
                    0 <= i < q ==> #[trigger] pop_view(new_pop@)[i] == pop0[kept@[i].0 as int],
            decreases kept@.len() - q,
        {
            let idx = kept[q].0;
            let t = clone_tour(&self.population[idx]);
            let ghost before = pop_view(new_pop@);
            new_pop.push(t);
            proof {
                assert(pop_view(new_pop@) =~= before.push(t@));
                assert(self.pop()[idx as int] == self.population@[idx as int]@);
            }
            q = q + 1;
        }
        proof {
            let nv = pop_view(new_pop@);
            assert forall|i: int| 0 <= i < nv.len() implies is_perm(#[trigger] nv[i], self.n())
                && pop0.contains(nv[i]) by {
                assert(nv[i] == pop0[kept@[i].0 as int]);
            }
            assert forall|a: int, b: int| 0 <= a < b < nv.len() implies nv[a] != nv[b] by {
                let ia = kept@[a].0 as int;
                let ib = kept@[b].0 as int;
                assert(nv[a] == pop0[ia]);
                assert(nv[b] == pop0[ib]);
                assert(ia != ib);
            }
            assert(champion_tour@ == pop0[ci as int]);
            assert forall|j: int| 0 <= j < pop0.len() implies champion_fit as int <= path_len(
                d0,
                #[trigger] pop0[j],
            ) by {
                assert(kept@[0].1 <= (scores@[j]).1);
                assert(scores@[j].1 as int == path_len(d0, pop0[j]));
            }
            // a member dropped by selection scores no better than any kept
            assert forall|j: int, i: int|
                0 <= j < pop0.len() && 0 <= i < nv.len() && !nv.contains(
                    #[trigger] pop0[j],
                ) implies path_len(d0, #[trigger] nv[i]) <= path_len(d0, pop0[j]) by {
                broadcast use vstd::seq_lib::group_to_multiset_ensures;

                let x = scores@[j];
                if kept@.to_multiset().count(x) > 0 {
                    assert(kept@.contains(x));
                    let q2 = choose|q2: int| 0 <= q2 < kept@.len() && kept@[q2] == x;
                    assert(nv[q2] == pop0[kept@[q2].0 as int]);
                    assert(nv.contains(pop0[j]));
                    assert(false);
                }
                assert(scores@.to_multiset().count(x) > 0) by {
                    assert(scores@.contains(x));
                }
                assert(kept@[i].1 <= x.1);
                assert(nv[i] == pop0[kept@[i].0 as int]);
                assert(kept@[i].1 as int == path_len(d0, nv[i]));
                assert(x.1 as int == path_len(d0, pop0[j]));
            }
        }
        self.population = new_pop;
        (champion_tour, champion_fit)
    }

    /// The crossover stage: breeds children from randomly paired parents
    /// — the survivors, shuffled — and inserts each child that is not a
    /// structural duplicate, until the population is back at its target
    /// size. Every surviving member stays where it was, in place. A
    /// population of fewer than two members cannot breed: that is the
    /// engine's fatal condition, reported as an error, and the population
    /// is left untouched. The retry budget is bounded so that the stage
    /// provably terminates; on success the flag says whether the target
    /// was reached — it is false exactly when the budget ran out first
    /// and the population stayed short.
    pub fn refill_to_target(&mut self) -> (r: Result<bool, EngineError>)
        requires
            old(self).wf(),
        ensures
            final(self).wf(),
            final(self).town_set() == old(self).town_set(),
            final(self).target() == old(self).target(),
            final(self).survivor_count() == old(self).survivor_count(),
            r is Err <==> old(self).pop().len() < 2,
            r is Err ==> final(self).pop() == old(self).pop(),
            r matches Ok(filled) ==> (filled <==> final(self).pop().len() == final(self).target()),
            r is Ok ==> old(self).pop().len() <= final(self).pop().len(),
            forall|j: int|
                0 <= j < old(self).pop().len() ==> #[trigger] final(self).pop()[j] == old(
                    self,
                ).pop()[j],
            forall|j: int|
                old(self).pop().len() <= j < final(self).pop().len() ==> bred_from(
                    old(self).pop(),
                    #[trigger] final(self).pop()[j],
                ),
    {
        if self.population.len() < 2 {
            return Err(EngineError::PopulationTooSmall);
        }
        let ghost pop0 = self.pop();
        let ghost n0 = self.n();
        let mut parents: Vec<Vec<usize>> = Vec::new();
        let mut i: usize = 0;
        while i < self.population.len()
            invariant
                self.wf(),
                self.pop() == pop0,
                i <= pop0.len(),
                pop_view(parents@) == pop0.subrange(0, i as int),
            decreases pop0.len() - i,
        {
            let ghost before = pop_view(parents@);
            let t = clone_tour(&self.population[i]);
            parents.push(t);
            i = i + 1;
            proof {
                assert(pop_view(parents@) =~= before.push(t@));
                assert(pop_view(parents@) =~= pop0.subrange(0, i as int));
            }
        }
        proof {
            assert(pop_view(parents@) =~= pop0);
        }
        let ghost pv = pop_view(parents@);
        shuffle_population(&mut parents);
        proof {
            lemma_members_from_multiset(pv, pop_view(parents@), n0);
            assert forall|j: int| 0 <= j < pv.len() implies pop0.contains(#[trigger] pv[j]) by {
                assert(pop0[j] == pv[j]);
            }
            lemma_contained_from_multiset(pv, pop_view(parents@), pop0);
        }
        let mut idx: usize = 0;
        let mut attempts: u64 = 0;
        let fuel: u64 = (self.size as u64) * 64 + 64;
        while self.population.len() < self.size && attempts < fuel
            invariant
                self.wf(),
                self.town_set() == old(self).town_set(),
                self.target() == old(self).target(),
                self.survivor_count() == old(self).survivor_count(),
                pop0.len() <= self.pop().len(),
                forall|j: int| 0 <= j < pop0.len() ==> #[trigger] self.pop()[j] == pop0[j],
                2 <= parents@.len() <= MAX_POPULATION,
                forall|j: int|
                    0 <= j < pop_view(parents@).len() ==> is_perm(
                        #[trigger] pop_view(parents@)[j],
                        n0,
                    ),
                forall|j: int|
                    0 <= j < pop_view(parents@).len() ==> pop0.contains(
                        #[trigger] pop_view(parents@)[j],
                    ),
                forall|j: int|
                    pop0.len() <= j < self.pop().len() ==> bred_from(
                        pop0,
                        #[trigger] self.pop()[j],
                    ),
                n0 == self.n(),
                idx + 1 < parents@.len(),
            decreases fuel - attempts,
        {
            proof {
                assert(pop_view(parents@)[idx as int] == parents@[idx as int]@);
                assert(pop_view(parents@)[idx + 1] == parents@[idx + 1]@);
                assert(is_perm(parents@[idx as int]@, n0));
                assert(is_perm(parents@[idx + 1]@, n0));
                assert(parents@[idx as int]@.len() == n0);
                assert(1 <= self.n() <= crate::towns::MAX_TOWNS);
            }
            let child = pairwise_crossover(&parents[idx], &parents[idx + 1]);
            proof {
                let p1v = parents@[idx as int]@;
                let p2v = parents@[idx + 1]@;
                let (i1, i2) = choose|i1: int, i2: int|
                    0 <= i1 <= i2 <= p1v.len() && child@ == #[trigger] crossover_spec(
                        p1v,
                        p2v,
                        i1,
                        i2,
                    );
                assert(pop0.contains(p1v));
                assert(pop0.contains(p2v));
                assert(child@ == crossover_spec(p1v, p2v, i1, i2));
                assert(bred_from(pop0, child@));
            }
            if !population_contains(&self.population, &child) {
                let ghost before = self.pop();
                self.population.push(child);
                proof {
                    assert(self.pop() =~= before.push(child@));
                }
            }
            idx = idx + 2;
            if idx >= parents.len() - 1 {
                let ghost pv2 = pop_view(parents@);
                shuffle_population(&mut parents);
                proof {
                    lemma_members_from_multiset(pv2, pop_view(parents@), n0);
                    lemma_contained_from_multiset(pv2, pop_view(parents@), pop0);
                }
                idx = 0;
            }
            attempts = attempts + 1;
        }
        Ok(self.population.len() == self.size)
    }

    /// The mutation stage: shuffles the population, then replaces each of
    /// the first half of its members by a mutated variant — unless that
    /// variant already occurs elsewhere, in which case the original is
    /// retained, so that the population never collapses into identical
    /// tours. The population keeps its size, and stays a well-formed set
    /// of distinct permutation tours.
    pub fn mutate_population(&mut self)
        requires
            old(self).wf(),
        ensures
            final(self).wf(),
            final(self).town_set() == old(self).town_set(),
            final(self).target() == old(self).target(),
            final(self).survivor_count() == old(self).survivor_count(),
            final(self).pop().len() == old(self).pop().len(),
            forall|i: int|
                0 <= i < final(self).pop().len() ==> old(self).pop().contains(
                    #[trigger] final(self).pop()[i],
                ) || mutated_from(old(self).pop(), final(self).pop()[i]),
            forall|i: int|
                old(self).pop().len() / 2 <= i < final(self).pop().len() ==> old(
                    self,
                ).pop().contains(#[trigger] final(self).pop()[i]),
    {
        let ghost n0 = self.n();
        let ghost pop0 = self.pop();
        let ghost pv = self.pop();
        shuffle_population(&mut self.population);
        proof {
            lemma_members_from_multiset(pv, self.pop(), n0);
            lemma_no_dup_from_multiset(pv, self.pop());
            assert forall|j: int| 0 <= j < pv.len() implies pop0.contains(#[trigger] pv[j]) by {
                assert(pop0[j] == pv[j]);
            }
            lemma_contained_from_multiset(pv, self.pop(), pop0);
        }
        let half = self.population.len() / 2;
        let mut q: usize = 0;
        while q < half
            invariant
                q <= half,
                half <= self.pop().len(),
                self.wf(),
                self.town_set() == old(self).town_set(),
                self.target() == old(self).target(),
                self.survivor_count() == old(self).survivor_count(),
                self.pop().len() == old(self).pop().len(),
                n0 == self.n(),
                pop0 == old(self).pop(),
                forall|i: int|
                    q <= i < self.pop().len() ==> pop0.contains(#[trigger] self.pop()[i]),
                forall|i: int|
                    0 <= i < q ==> pop0.contains(#[trigger] self.pop()[i]) || mutated_from(
                        pop0,
                        self.pop()[i],
                    ),
            decreases half - q,
        {
            proof {
                assert(is_perm(self.pop()[q as int], n0));
                assert(self.pop()[q as int] == self.population@[q as int]@);
                assert(1 <= n0 <= crate::towns::MAX_TOWNS);
            }
            let candidate = mutate(&self.population[q]);
            proof {
                let tv = self.population@[q as int]@;
                let (i1, i2) = choose|i1: int, i2: int|
                    0 <= i1 <= i2 <= tv.len() && candidate@ == #[trigger] reversed_segment(
                        tv,
                        i1,
                        i2,
                    );
                assert(pop0.contains(tv));
                assert(candidate@ == reversed_segment(tv, i1, i2));
                assert(mutated_from(pop0, candidate@));
            }
            if !population_contains(&self.population, &candidate) {
                let ghost before = self.pop();
                self.population.set(q, candidate);
                proof {
                    assert(self.pop() =~= before.update(q as int, candidate@));
                    assert forall|a: int, b: int|
                        0 <= a < b < self.pop().len() implies self.pop()[a] != self.pop()[b] by {
                        if a != q && b != q {
                            assert(self.pop()[a] == before[a]);
                            assert(self.pop()[b] == before[b]);
                        } else if a == q {
                            assert(self.pop()[b] == before[b]);
                            assert(!before.contains(candidate@));
                        } else {
                            assert(self.pop()[a] == before[a]);
                            assert(!before.contains(candidate@));
                        }
                    }
                }
            }
            q = q + 1;
        }
    }

    /// Runs the search: per generation, selection keeps the fittest
    /// survivors, the champion is folded into the best-so-far (replaced
    /// only on strict improvement), crossover refills the population and
    /// mutation perturbs it. The search stops once the generation index
    /// outruns the last improvement by more than `patience`, or at the
    /// `max_generations` ceiling, and yields the best tour ever seen with
    /// its fitness — no worse than any member of the starting population.
    /// It fails, with the population guard error, exactly when breeding is
    /// impossible from the start: fewer than two members, or fewer than
    /// two survivors per generation.
    ///
    /// The ghost record holds each generation's champion with its
    /// fitness: on success the result is one of those champions, scores
    /// no worse than any of them — the best seen across all generations,
    /// not necessarily the last — and no worse than any member of the
    /// final population, which the search leaves at the last generation's
    /// survivors.
    pub fn solve(&mut self, patience: u64, max_generations: u64) -> (r: (
        Result<(Vec<usize>, u64), EngineError>,
        Ghost<Seq<(Seq<usize>, int)>>,
    ))
        requires
            old(self).wf(),
            1 <= max_generations,
        ensures
            final(self).wf(),
            match r.0 {
                Result::Ok(best) => {
                    &&& is_perm(best.0@, old(self).n())
                    &&& best.1 as int == path_len(old(self).town_set().d(), best.0@)
                    &&& forall|j: int|
                        0 <= j < old(self).pop().len() ==> best.1 as int <= path_len(
                            old(self).town_set().d(),
                            #[trigger] old(self).pop()[j],
                        )
                    &&& forall|i: int|
                        0 <= i < final(self).pop().len() ==> best.1 as int <= path_len(
                            old(self).town_set().d(),
                            #[trigger] final(self).pop()[i],
                        )
                    &&& 1 <= r.1@.len() <= max_generations
                    &&& forall|g: int|
                        0 <= g < r.1@.len() ==> is_perm((#[trigger] r.1@[g]).0, old(self).n())
                            && r.1@[g].1 == path_len(old(self).town_set().d(), r.1@[g].0)
                    &&& forall|g: int| 0 <= g < r.1@.len() ==> best.1 as int <= (#[trigger] r.1@[g]).1
                    &&& exists|g: int|
                        0 <= g < r.1@.len() && (#[trigger] r.1@[g]).0 == best.0@ && r.1@[g].1
                            == best.1 as int
                    &&& old(self).pop().len() >= 2
                    &&& old(self).survivor_count() >= 2
                },
                Result::Err(e) => {
                    &&& e == EngineError::PopulationTooSmall
                    &&& (old(self).pop().len() < 2 || old(self).survivor_count() < 2)
                },
            },
    {
        let ghost towns0 = self.town_set();
        let ghost d0 = self.town_set().d();
        let ghost n0 = self.n();
        let ghost pop0 = self.pop();
        let ghost t0 = self.target();
        let ghost s0 = self.survivor_count();
        let ghost mut hist: Seq<(Seq<usize>, int)> = Seq::empty();
        let mut best: Option<(Vec<usize>, u64)> = None;
        let mut found_gen: u64 = 0;
        let mut gen: u64 = 0;
        while gen < max_generations
            invariant_except_break
                hist.len() == gen,
                gen == 0 ==> best is None && self.pop() == pop0,
            invariant
                self.wf(),
                self.town_set() == towns0,
                self.target() == t0,
                self.survivor_count() == s0,
                towns0 == old(self).town_set(),
                d0 == towns0.d(),
                n0 == self.n(),
                pop0 == old(self).pop(),
                s0 == old(self).survivor_count(),
                found_gen <= gen,
                gen <= max_generations - 1,
                1 <= max_generations,
                forall|g: int|
                    0 <= g < hist.len() ==> is_perm((#[trigger] hist[g]).0, n0) && hist[g].1
                        == path_len(d0, hist[g].0),
                gen >= 1 ==> pop0.len() >= 2 && s0 >= 2,
                gen >= 1 ==> best is Some,
                (pop0.len() >= 2 && s0 >= 2) ==> self.pop().len() >= 2,
                match best {
                    Option::Some(b) => {
                        &&& is_perm(b.0@, n0)
                        &&& b.1 as int == path_len(d0, b.0@)
                        &&& forall|j: int|
                            0 <= j < pop0.len() ==> b.1 as int <= path_len(
                                d0,
                                #[trigger] pop0[j],
                            )
                        &&& forall|g: int| 0 <= g < hist.len() ==> b.1 as int <= (#[trigger] hist[g]).1
                        &&& exists|g: int|
                            0 <= g < hist.len() && (#[trigger] hist[g]).0 == b.0@ && hist[g].1
                                == b.1 as int
                    },
                    Option::None => true,
                },
            ensures
                self.wf(),
                self.town_set() == towns0,
                best is Some,
                pop0.len() >= 2 && s0 >= 2,
                1 <= hist.len() <= max_generations,
                forall|g: int|
                    0 <= g < hist.len() ==> is_perm((#[trigger] hist[g]).0, n0) && hist[g].1
                        == path_len(d0, hist[g].0),
                match best {
                    Option::Some(b) => {
                        &&& is_perm(b.0@, n0)
                        &&& b.1 as int == path_len(d0, b.0@)
                        &&& forall|j: int|
                            0 <= j < pop0.len() ==> b.1 as int <= path_len(
                                d0,
                                #[trigger] pop0[j],
                            )
                        &&& forall|i: int|
                            0 <= i < self.pop().len() ==> b.1 as int <= path_len(
                                d0,
                                #[trigger] self.pop()[i],
                            )
                        &&& forall|g: int| 0 <= g < hist.len() ==> b.1 as int <= (#[trigger] hist[g]).1
                        &&& exists|g: int|
                            0 <= g < hist.len() && (#[trigger] hist[g]).0 == b.0@ && hist[g].1
                                == b.1 as int
                    },
                    Option::None => false,
                },
            decreases max_generations - gen,
        {
            let ghost pre = self.pop();
            let champion = self.select_survivors();
            let ghost hist0 = hist;
            proof {
                hist = hist.push((champion.0@, champion.1 as int));
            }
            let ghost prev = best;
            let (new_best, improved) = update_best(best, &champion.0, champion.1);
            let best_fit = new_best.1;
            best = Some(new_best);
            proof {
                // the updated best scores no worse than this generation's
                // champion, hence no worse than any surviving member
                assert(best_fit <= champion.1);
                assert forall|i: int| 0 <= i < self.pop().len() implies best_fit as int
                    <= path_len(d0, #[trigger] self.pop()[i]) by {
                    let t = self.pop()[i];
                    assert(pre.contains(t));
                    let j = choose|j: int| 0 <= j < pre.len() && pre[j] == t;
                    assert(champion.1 as int <= path_len(d0, pre[j]));
                }
                // the updated best is one of the recorded champions
                assert(forall|g: int| 0 <= g < hist0.len() ==> #[trigger] hist[g] == hist0[g]);
                assert(hist[hist0.len() as int] == (champion.0@, champion.1 as int));
                if !improved {
                    let b0 = prev.unwrap();
                    assert(new_best.0@ == b0.0@ && new_best.1 == b0.1);
                    let g = choose|g: int|
                        0 <= g < hist0.len() && (#[trigger] hist0[g]).0 == b0.0@ && hist0[g].1
                            == b0.1 as int;
                    assert(hist[g].0 == new_best.0@ && hist[g].1 == new_best.1 as int);
                } else {
                    assert(new_best.0@ == champion.0@ && new_best.1 == champion.1);
                    assert(hist[hist0.len() as int].0 == new_best.0@);
                }
            }
            proof {
                assert(self.pop().len() == vstd::math::min(s0, pre.len() as int));
            }
            if improved {
                found_gen = gen;
            } else {
                if gen - found_gen > patience {
                    break;
                }
            }
            if gen + 1 == max_generations {
                // the stage below would be the one to notice that breeding
                // is impossible; at the ceiling, raise its guard here
                if self.population.len() < 2 {
                    proof {
                        assert(gen == 0);
                        assert(pop0.len() < 2 || s0 < 2);
                    }
                    return (Err(EngineError::PopulationTooSmall), Ghost(hist));
                }
                proof {
                    if gen == 0 {
                        assert(pre == pop0);
                    }
                    assert(pop0.len() >= 2 && s0 >= 2);
                }
                break;
            }
            match self.refill_to_target() {
                Result::Err(e) => {
                    proof {
                        // breeding failed, so fewer than two members were
                        // selected: either the starting population or the
                        // survivor allowance was below two
                        assert(self.pop().len() < 2);
                        assert(gen == 0);
                        assert(pop0.len() < 2 || s0 < 2);
                    }
                    return (Err(e), Ghost(hist));
                },
                Result::Ok(_) => {},
            }
            self.mutate_population();
            gen = gen + 1;
        }
        match best {
            Option::Some(b) => (Ok(b), Ghost(hist)),
            Option::None => {
                proof {
                    assert(false);
                }
                (Err(EngineError::PopulationTooSmall), Ghost(hist))
            },
        }
    }

    /// Number of members in the live population.
    pub fn population_len(&self) -> (r: usize)
        ensures
            r == self.pop().len(),
    {
        self.population.len()
    }

    /// The member standing at a population index.
    pub fn member(&self, i: usize) -> (t: &Vec<usize>)
        requires
            i < self.pop().len(),
        ensures
            t@ == self.pop()[i as int],
    {
        &self.population[i]
    }
}

} // verus!
