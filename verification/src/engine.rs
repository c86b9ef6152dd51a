//! The population-based hill-climbing engine.
//!
//! The population is a fixed-size collection of tours, built once from
//! randomized constructions.  Each steady-state step samples one member,
//! generates a candidate per mutation operator, keeps the best strictly
//! improving candidate, and tracks the best distance seen so far, which
//! never increases.

use vstd::prelude::*;
use rand::rngs::ThreadRng;
use crate::city::City;
use crate::construct::{construct, lemma_perm_from_multiset};
use crate::ops::{
    copy_order, cross_half_swap_rand, full_shuffle, mirror_swap_rand, move_to_end_rand,
    move_to_start_rand,
};
use crate::rng::{new_rng, rand_index, shuffle_order};
use crate::tour::{Tour, cities_ok, is_perm, tour_wf, MAX_CITIES};

verus! {

/// Why the engine refused to start.
#[derive(Debug, PartialEq, Eq, Structural, Clone, Copy)]
pub enum ConfigError {
    /// The requested population size was zero.
    ZeroPopulation,
    /// Fewer than two cities were supplied.
    TooFewCities,
    /// More cities than the engine's distance sums can account for.
    TooManyCities,
    /// A coordinate lies outside the metric's grid.
    BadCoordinate,
}

/// The optimizer's whole state: the city set, the population of tours, the
/// best total distance seen so far, and the shared randomness source.
pub struct Optimizer {
    pub cities: Vec<City>,
    pub population: Vec<Tour>,
    pub best: u64,
    pub rng: ThreadRng,
}

impl Optimizer {
    /// Every tour of the population is a well-formed permutation of the
    /// city set, and `best` is the least total among the members.
    pub open spec fn wf(self) -> bool {
        &&& cities_ok(self.cities@)
        &&& 2 <= self.cities@.len() <= MAX_CITIES
        &&& self.population@.len() >= 1
        &&& forall|i: int|
            0 <= i < self.population@.len() ==> tour_wf(
                #[trigger] self.population@[i],
                self.cities@,
            )
        &&& forall|i: int|
            0 <= i < self.population@.len() ==> self.best <= (#[trigger] self.population@[i]).total
        &&& exists|i: int|
            0 <= i < self.population@.len() && self.best == (#[trigger] self.population@[i]).total
    }

    /// Validate the startup parameters and build the initial population by
    /// `pop_size` randomized constructions; refuse to start, before any tour
    /// is constructed, on a population size of zero or an unusable city set.
    pub fn new(cities: Vec<City>, pop_size: usize) -> (r: Result<Optimizer, ConfigError>)
        ensures
            r matches Ok(o) ==> o.wf() && o.population@.len() == pop_size && o.cities@ == cities@,
            r is Ok <==> (pop_size >= 1 && 2 <= cities@.len() <= MAX_CITIES && cities_ok(
                cities@,
            )),
            pop_size == 0 ==> r == Err::<Optimizer, ConfigError>(ConfigError::ZeroPopulation),
            pop_size >= 1 && cities@.len() < 2 ==> r == Err::<Optimizer, ConfigError>(
                ConfigError::TooFewCities,
            ),
            pop_size >= 1 && cities@.len() > MAX_CITIES ==> r == Err::<Optimizer, ConfigError>(
                ConfigError::TooManyCities,
            ),
            pop_size >= 1 && 2 <= cities@.len() <= MAX_CITIES && !cities_ok(cities@) ==> r
                == Err::<Optimizer, ConfigError>(ConfigError::BadCoordinate),
    {
        if pop_size == 0 {
            return Err(ConfigError::ZeroPopulation);
        }
        let n = cities.len();
        if n < 2 {
            return Err(ConfigError::TooFewCities);
        }
        if n > MAX_CITIES {
            return Err(ConfigError::TooManyCities);
        }
        let mut ci: usize = 0;
        while ci < n
            invariant
                pop_size >= 1,
                n == cities@.len(),
                2 <= n <= MAX_CITIES,
                0 <= ci <= n,
                forall|i: int| 0 <= i < ci ==> crate::city::city_ok(#[trigger] cities@[i]),
            decreases n - ci,
        {
            let c = &cities[ci];
            if c.x < -crate::city::COORD_LIMIT || c.x > crate::city::COORD_LIMIT || c.y
                < -crate::city::COORD_LIMIT || c.y > crate::city::COORD_LIMIT {
                return Err(ConfigError::BadCoordinate);
            }
            ci = ci + 1;
        }

        let mut rng = new_rng();
        let mut base: Vec<usize> = Vec::new();
        let mut i: usize = 0;
        while i < n
            invariant
                0 <= i <= n,
                base@.len() == i,
                forall|j: int| 0 <= j < i ==> (#[trigger] base@[j]) == j,
            decreases n - i,
        {
            base.push(i);
            i = i + 1;
        }
        proof {
            assert(is_perm(base@, cities@.len()));
        }

        let mut population: Vec<Tour> = Vec::new();
        let mut best: u64 = u64::MAX;
        let mut k: usize = 0;
        while k < pop_size
            invariant
                n == cities@.len(),
                cities_ok(cities@),
                2 <= n <= MAX_CITIES,
                is_perm(base@, cities@.len()),
                0 <= k <= pop_size,
                population@.len() == k,
                forall|i: int|
                    0 <= i < k ==> tour_wf(#[trigger] population@[i], cities@),
                forall|i: int| 0 <= i < k ==> best <= (#[trigger] population@[i]).total,
                k == 0 ==> best == u64::MAX,
                k >= 1 ==> exists|i: int|
                    0 <= i < k && best == (#[trigger] population@[i]).total,
            decreases pop_size - k,
        {
            let ghost oldpop = population@;
            let ghost oldbest = best;
            let ghost pb = base@;
            shuffle_order(&mut rng, &mut base);
            proof {
                lemma_perm_from_multiset(pb, base@, cities@.len());
            }
            let t = construct(&cities, &base);
            proof {
                crate::tour::lemma_cycle_dist_bound(cities@, t.order@);
                assert(cities@.len() * crate::city::DIST_MAX < u64::MAX) by (nonlinear_arith)
                    requires
                        cities@.len() <= 1_000_000,
                ;
            }
            let ghost tg = t;
            if t.total < best {
                best = t.total;
            }
            population.push(t);
            proof {
                assert(population@ == oldpop.push(tg));
                if tg.total <= oldbest {
                    assert(best == tg.total);
                    assert(population@[k as int].total == best);
                } else {
                    assert(best == oldbest);
                    assert(k >= 1);
                    let i = choose|i: int|
                        0 <= i < k && oldbest == (#[trigger] oldpop[i]).total;
                    assert(population@[i].total == best);
                }
            }
            k = k + 1;
        }
        Ok(Optimizer { cities, population, best, rng })
    }

    /// One steady-state iteration: sample a random member, generate one
    /// candidate per mutation operator, and replace the member by the best
    /// candidate when it is a strict improvement.  No member's total ever
    /// grows, and the best-known distance never increases; the result
    /// reports the new best distance exactly when it improved.
    pub fn step(&mut self) -> (r: Option<u64>)
        requires
            old(self).wf(),
        ensures
            final(self).wf(),
            final(self).cities@ == old(self).cities@,
            final(self).population@.len() == old(self).population@.len(),
            forall|j: int|
                0 <= j < old(self).population@.len()
                    ==> (#[trigger] final(self).population@[j]).total
                    <= old(self).population@[j].total,
            final(self).best <= old(self).best,
            r matches Some(d) ==> d == final(self).best && final(self).best < old(self).best,
            r is None ==> final(self).best == old(self).best,
    {
        let n_pop = self.population.len();
        let k = rand_index(&mut self.rng, 0, n_pop);
        let base_ord = copy_order(&self.population[k].order);
        proof {
            assert(tour_wf(self.population@[k as int], self.cities@));
        }

        let o1 = mirror_swap_rand(&base_ord, &mut self.rng);
        proof {
            lemma_perm_from_multiset(base_ord@, o1@, self.cities@.len());
        }
        let c1 = construct(&self.cities, &o1);

        let o2 = cross_half_swap_rand(&base_ord, &mut self.rng);
        proof {
            lemma_perm_from_multiset(base_ord@, o2@, self.cities@.len());
        }
        let c2 = construct(&self.cities, &o2);

        let o3 = move_to_end_rand(&base_ord, &mut self.rng);
        proof {
            lemma_perm_from_multiset(base_ord@, o3@, self.cities@.len());
        }
        let c3 = construct(&self.cities, &o3);

        let o4 = move_to_start_rand(&base_ord, &mut self.rng);
        proof {
            lemma_perm_from_multiset(base_ord@, o4@, self.cities@.len());
        }
        let c4 = construct(&self.cities, &o4);

        let o5 = full_shuffle(&base_ord, &mut self.rng);
        proof {
            lemma_perm_from_multiset(base_ord@, o5@, self.cities@.len());
        }
        let c5 = construct(&self.cities, &o5);

        let mut cand = c1;
        if c2.total < cand.total {
            cand = c2;
        }
        if c3.total < cand.total {
            cand = c3;
        }
        if c4.total < cand.total {
            cand = c4;
        }
        if c5.total < cand.total {
            cand = c5;
        }

        let cur_total = self.population[k].total;
        let ghost oldpop = old(self).population@;
        let ghost oldbest = old(self).best;
        let ghost candg = cand;
        let mut r: Option<u64> = None;
        if cand.total < cur_total {
            if cand.total < self.best {
                self.best = cand.total;
                r = Some(self.best);
            }
            self.population.set(k, cand);
            proof {
                assert(self.population@ == oldpop.update(k as int, candg));
                assert(tour_wf(candg, self.cities@));
                assert forall|i: int|
                    0 <= i < self.population@.len() implies tour_wf(
                    #[trigger] self.population@[i],
                    self.cities@,
                ) by {
                    if i != k as int {
                        assert(self.population@[i] == oldpop[i]);
                    }
                }
                assert forall|i: int|
                    0 <= i < self.population@.len() implies self.best
                    <= (#[trigger] self.population@[i]).total by {
                    if i != k as int {
                        assert(self.population@[i] == oldpop[i]);
                    }
                }
                if candg.total < oldbest {
                    assert(self.population@[k as int].total == self.best);
                } else {
                    let j = choose|j: int|
                        0 <= j < oldpop.len() && oldbest == (#[trigger] oldpop[j]).total;
                    assert(j != k as int) by {
                        assert(oldpop[k as int].total > candg.total);
                    }
                    assert(self.population@[j].total == self.best);
                }
            }
        }
        r
    }

    /// The best total distance found so far.
    pub fn best_distance(&self) -> (d: u64)
        ensures
            d == self.best,
    {
        self.best
    }
}

} // verus!
