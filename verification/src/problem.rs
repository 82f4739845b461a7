//! The optimization problem and its two optimizers: generational genetic
//! search with tournament selection, crossover, and mutation, and the
//! simpler random-search baseline that keeps the best of many freshly
//! routed candidates.

use vstd::prelude::*;
use rand::seq::SliceRandom;
use crate::individual::{
    Individual, clone_individual, ind_fitness, ind_like, ind_wf,
    lemma_ind_like_interchangeable, matches_pins,
};
use crate::geometry::{on_grid, pt};
use crate::parse::{field_val, lines_spec, lemma_split_len, parse_u32_field, split_on, split_spec};
use crate::rng::{rng_below, rng_from_entropy, rng_from_seed};
use crate::router::generate_individual;

verus! {

/// Crossover probability, in thousandths: 0.8.
pub const CROSSOVER_PERMILLE: u32 = 800;

/// Per-connection mutation probability, in thousandths: 0.03.
pub const MUTATION_PERMILLE: u32 = 30;

/// Number of generations of the genetic search.
pub const ITERATIONS: u32 = 100;

/// Population size of the genetic search.
pub const POPULATION: usize = 1000;

/// Tournament size of the genetic search's selection.
pub const BATCH_SIZE: usize = 20;

/// A routing problem: the grid, the pin pairs to join, the current scored
/// population, and an optional base seed for reproducible runs.
pub struct Problem {
    pub dimensions: (u32, u32),
    pub pin_locations: Vec<((u32, u32), (u32, u32))>,
    pub population: Vec<(Individual, u128)>,
    pub random: Option<u64>,
}

/// Every pin of the problem lies on its grid.
pub open spec fn problem_wf(p: Problem) -> bool {
    forall|i: int|
        0 <= i < p.pin_locations@.len() ==> on_grid(
            pt((#[trigger] p.pin_locations@[i]).0),
            p.dimensions,
        ) && on_grid(pt(p.pin_locations@[i].1), p.dimensions)
}

/// A scored population entry is valid: the individual is well-formed on
/// the problem's grid, aligned with its pin pairs, and carries its true
/// fitness as the cached score.
pub open spec fn entry_ok(p: Problem, e: (Individual, u128)) -> bool {
    &&& ind_wf(e.0)
    &&& e.0.dimensions == p.dimensions
    &&& matches_pins(e.0, p.pin_locations@)
    &&& e.1 == ind_fitness(e.0)
}

/// Every entry of the population is valid.
pub open spec fn population_ok(p: Problem) -> bool {
    forall|i: int| 0 <= i < p.population@.len() ==> entry_ok(p, #[trigger] p.population@[i])
}

/// An exact copy of a pin-pair list.
fn clone_pins(v: &Vec<((u32, u32), (u32, u32))>) -> (r: Vec<((u32, u32), (u32, u32))>)
    ensures
        r@ == v@,
{
    let mut r: Vec<((u32, u32), (u32, u32))> = Vec::new();
    let mut i: usize = 0;
    while i < v.len()
        invariant
            i <= v@.len(),
            r@ == v@.take(i as int),
        decreases v@.len() - i,
    {
        r.push(v[i]);
        proof {
            assert(r@ =~= v@.take(i + 1));
        }
        i = i + 1;
    }
    proof {
        assert(v@.take(v@.len() as int) =~= v@);
    }
    r
}

/// The batch consists of the population entries at the picked indices, in
/// order: the picks are in range, pairwise distinct, and each batch entry
/// carries the picked entry's individual (by contents) and cached score.
pub open spec fn picked_from(
    population: Seq<(Individual, u128)>,
    batch: Seq<(Individual, u128)>,
    picks: Seq<int>,
) -> bool {
    &&& picks.len() == batch.len()
    &&& forall|i: int| 0 <= i < picks.len() ==> 0 <= #[trigger] picks[i] < population.len()
    &&& forall|i: int, j: int|
        #![trigger picks[i], picks[j]]
        0 <= i < j < picks.len() ==> picks[i] != picks[j]
    &&& forall|i: int|
        0 <= i < picks.len() ==> ind_like((#[trigger] batch[i]).0, population[picks[i]].0)
            && batch[i].1 == population[picks[i]].1
}

/// The winner copies a population entry that was drawn into a sample of
/// `sample_size` pairwise-distinct indices and has minimal cached fitness
/// within that sample.
pub open spec fn sampled_minimum(
    winner: Individual,
    population: Seq<(Individual, u128)>,
    sample_size: int,
) -> bool {
    exists|picks: Seq<int>, w: int|
        #![trigger picks[w]]
        {
            &&& picks.len() == sample_size
            &&& 0 <= w < picks.len()
            &&& forall|i: int| 0 <= i < picks.len() ==> 0 <= #[trigger] picks[i] < population.len()
            &&& forall|i: int, j: int|
                #![trigger picks[i], picks[j]]
                0 <= i < j < picks.len() ==> picks[i] != picks[j]
            &&& ind_like(winner, population[picks[w]].0)
            &&& forall|i: int|
                0 <= i < picks.len() ==> population[picks[w]].1 <= population[
                    #[trigger] picks[i]
                ].1
        }
}

/// Relies on rand's `SliceRandom::choose_multiple`: it clamps the amount
/// to `min(amount, len)` and yields the slice elements at that many
/// distinct sampled indices. Each returned entry copies one population
/// entry.
#[verifier::external_body]
fn sample_population(
    population: &Vec<(Individual, u128)>,
    rng: &mut rand::rngs::StdRng,
    amount: usize,
) -> (batch: Vec<(Individual, u128)>)
    ensures
        batch@.len() == if amount as int <= population@.len() {
            amount as int
        } else {
            population@.len() as int
        },
        exists|picks: Seq<int>| #[trigger] picked_from(population@, batch@, picks),
{
    population
        .as_slice()
        .choose_multiple(rng, amount)
        .map(|e| (clone_individual(&e.0), e.1))
        .collect()
}

/// Tournament selection: sample `min(batch_size, population size)`
/// distinct population entries and return a copy of the sampled member
/// with minimal cached fitness. Over a population of one, this returns
/// that one individual whatever the batch size.
#[verifier::loop_isolation(false)]
pub fn tournament_selection(
    problem: &Problem,
    batch_size: usize,
    random: &mut rand::rngs::StdRng,
) -> (winner: Individual)
    requires
        problem.population@.len() >= 1,
        batch_size >= 1,
    ensures
        sampled_minimum(
            winner,
            problem.population@,
            if batch_size as int <= problem.population@.len() {
                batch_size as int
            } else {
                problem.population@.len() as int
            },
        ),
        exists|j: int|
            0 <= j < problem.population@.len() && ind_like(
                winner,
                (#[trigger] problem.population@[j]).0,
            ),
        problem.population@.len() == 1 ==> ind_like(winner, problem.population@[0].0),
{
    let batch = sample_population(&problem.population, random, batch_size);
    let ghost picks = choose|picks: Seq<int>| picked_from(problem.population@, batch@, picks);
    let n = batch.len();
    let mut best: usize = 0;
    let mut i: usize = 1;
    while i < n
        invariant
            1 <= i <= n,
            best < i,
            forall|k: int| 0 <= k < i ==> batch@[best as int].1 <= (#[trigger] batch@[k]).1,
        decreases n - i,
    {
        if batch[i].1 < batch[best].1 {
            best = i;
        }
        i = i + 1;
    }
    let ghost pop = problem.population@;
    proof {
        assert(picked_from(pop, batch@, picks));
        assert(ind_like(batch@[best as int].0, pop[picks[best as int]].0));
        assert forall|k: int| 0 <= k < picks.len() implies pop[picks[best as int]].1 <= pop[
            #[trigger] picks[k]
        ].1 by {
            assert(batch@[best as int].1 <= batch@[k].1);
            assert(batch@[k].1 == pop[picks[k]].1);
        }
    }
    let mut consumed = batch;
    let chosen = consumed.swap_remove(best);
    proof {
        assert(chosen == batch@[best as int]);
        assert(ind_like(chosen.0, pop[picks[best as int]].0));
        assert(sampled_minimum(
            chosen.0,
            pop,
            if batch_size as int <= pop.len() {
                batch_size as int
            } else {
                pop.len() as int
            },
        ));
        if pop.len() == 1 {
            assert(picks[0int] == 0);
        }
    }
    chosen.0
}

/// Fitness-proportionate selection, an alternative to tournament
/// selection that the search does not use; it selects nothing.
pub fn roulette_selection() {
}

impl Problem {
    /// A problem over the given grid and pin pairs, with an empty
    /// population; `None` if any pin lies outside the grid, which the
    /// design treats as a fatal configuration error.
    #[verifier::loop_isolation(false)]
    pub fn new(
        dimensions: (u32, u32),
        pin_locations: Vec<((u32, u32), (u32, u32))>,
        seed: Option<u64>,
    ) -> (r: Option<Problem>)
        ensures
            r is Some <==> forall|i: int|
                0 <= i < pin_locations@.len() ==> on_grid(
                    pt((#[trigger] pin_locations@[i]).0),
                    dimensions,
                ) && on_grid(pt(pin_locations@[i].1), dimensions),
            r is Some ==> {
                let p = r->Some_0;
                &&& p.dimensions == dimensions
                &&& p.pin_locations@ == pin_locations@
                &&& p.population@.len() == 0
                &&& p.random == seed
                &&& problem_wf(p)
                &&& population_ok(p)
            },
    {
        let n = pin_locations.len();
        let mut i: usize = 0;
        while i < n
            invariant
                i <= n,
                forall|k: int|
                    0 <= k < i ==> on_grid(pt((#[trigger] pin_locations@[k]).0), dimensions)
                        && on_grid(pt(pin_locations@[k].1), dimensions),
            decreases n - i,
        {
            let pair = pin_locations[i];
            let ok = pair.0.0 < dimensions.0 && pair.0.1 < dimensions.1 && pair.1.0 < dimensions.0
                && pair.1.1 < dimensions.1;
            if !ok {
                return None;
            }
            i = i + 1;
        }
        Some(Problem { dimensions, pin_locations, population: Vec::new(), random: seed })
    }

    /// Route `size` fresh individuals and append them, scored, to the
    /// population. With a base seed, individual `i` is routed with seed
    /// `base + i` (wrapping), for reproducible populations.
    #[verifier::loop_isolation(false)]
    pub fn init_population(&mut self, size: usize)
        requires
            problem_wf(*old(self)),
        ensures
            final(self).dimensions == old(self).dimensions,
            final(self).pin_locations@ == old(self).pin_locations@,
            final(self).random == old(self).random,
            final(self).population@.len() == old(self).population@.len() + size,
            forall|k: int|
                0 <= k < old(self).population@.len() ==> final(self).population@[k] == old(
                    self,
                ).population@[k],
            forall|k: int|
                old(self).population@.len() <= k < final(self).population@.len() ==> entry_ok(
                    *final(self),
                    #[trigger] final(self).population@[k],
                ),
    {
        let mut i: usize = 0;
        while i < size
            invariant
                i <= size,
                self.dimensions == old(self).dimensions,
                self.pin_locations@ == old(self).pin_locations@,
                self.random == old(self).random,
                problem_wf(*self),
                self.population@.len() == old(self).population@.len() + i,
                forall|k: int|
                    0 <= k < old(self).population@.len() ==> self.population@[k] == old(
                        self,
                    ).population@[k],
                forall|k: int|
                    old(self).population@.len() <= k < self.population@.len() ==> entry_ok(
                        *self,
                        #[trigger] self.population@[k],
                    ),
            decreases size - i,
        {
            let walk_seed: Option<u64> = match self.random {
                Some(s) => Some(s.wrapping_add(i as u64)),
                None => None,
            };
            let individual = generate_individual(
                self.dimensions,
                clone_pins(&self.pin_locations),
                walk_seed,
            );
            let points = individual.evaluate();
            self.population.push((individual, points));
            i = i + 1;
        }
    }
}

impl Problem {
    /// Generational genetic search with explicit parameters: build a
    /// population, then for each generation breed a full replacement
    /// population by tournament selection, crossover, and mutation (no
    /// elitism: the best individual of a generation can be lost). The
    /// result is a copy of the minimal-fitness member of the final
    /// population, with its fitness.
    #[verifier::loop_isolation(false)]
    #[verifier::rlimit(60)]
    pub fn genetic_search_with(
        &mut self,
        population_size: usize,
        iterations: u32,
        batch_size: usize,
        seed: Option<u64>,
    ) -> (r: (Individual, u128))
        requires
            problem_wf(*old(self)),
            population_ok(*old(self)),
            population_size >= 1,
            batch_size >= 1,
        ensures
            final(self).dimensions == old(self).dimensions,
            final(self).pin_locations@ == old(self).pin_locations@,
            final(self).random == old(self).random,
            problem_wf(*final(self)),
            population_ok(*final(self)),
            final(self).population@.len() >= 1,
            iterations >= 1 ==> final(self).population@.len() == population_size,
            iterations == 0 ==> final(self).population@.len() == old(self).population@.len()
                + population_size,
            ind_wf(r.0),
            r.0.dimensions == old(self).dimensions,
            matches_pins(r.0, old(self).pin_locations@),
            r.1 == ind_fitness(r.0),
            exists|j: int|
                0 <= j < final(self).population@.len() && ind_like(
                    r.0,
                    (#[trigger] final(self).population@[j]).0,
                ) && r.1 == final(self).population@[j].1,
            forall|k: int|
                0 <= k < final(self).population@.len()
                    ==> r.1 <= (#[trigger] final(self).population@[k]).1,
    {
        let mut random = match seed {
            Some(s) => rng_from_seed(s),
            None => rng_from_entropy(),
        };
        self.init_population(population_size);
        let mut generation: u32 = 0;
        while generation < iterations
            invariant
                generation <= iterations,
                self.dimensions == old(self).dimensions,
                self.pin_locations@ == old(self).pin_locations@,
                self.random == old(self).random,
                problem_wf(*self),
                population_ok(*self),
                self.population@.len() >= 1,
                generation == 0 ==> self.population@.len() == old(self).population@.len()
                    + population_size,
                generation >= 1 ==> self.population@.len() == population_size,
            decreases iterations - generation,
        {
            let mut new_population: Vec<(Individual, u128)> = Vec::new();
            while new_population.len() < population_size
                invariant
                    self.dimensions == old(self).dimensions,
                    self.pin_locations@ == old(self).pin_locations@,
                    self.random == old(self).random,
                    problem_wf(*self),
                    population_ok(*self),
                    self.population@.len() >= 1,
                    new_population@.len() <= population_size,
                    forall|k: int|
                        0 <= k < new_population@.len() ==> entry_ok(
                            *self,
                            #[trigger] new_population@[k],
                        ),
                decreases population_size - new_population.len(),
            {
                let mut i1 = tournament_selection(&*self, batch_size, &mut random);
                proof {
                    let j = choose|j: int|
                        0 <= j < self.population@.len() && ind_like(i1, self.population@[j].0);
                    lemma_ind_like_interchangeable(
                        i1,
                        self.population@[j].0,
                        self.pin_locations@,
                    );
                }
                let cross_draw = rng_below(&mut random, 1000);
                if cross_draw < CROSSOVER_PERMILLE as u128 {
                    let i2 = tournament_selection(&*self, batch_size, &mut random);
                    proof {
                        let j = choose|j: int|
                            0 <= j < self.population@.len() && ind_like(
                                i2,
                                self.population@[j].0,
                            );
                        lemma_ind_like_interchangeable(
                            i2,
                            self.population@[j].0,
                            self.pin_locations@,
                        );
                    }
                    let roll = rng_below(&mut random, crate::connection::ROLL_ONE as u128) as u32;
                    let ghost pre = i1;
                    i1.crossover(&i2, roll);
                    proof {
                        if pre.connections@.len() >= 1 {
                            let idx = crate::connection::roll_index(
                                roll,
                                pre.connections@.len() as int,
                            );
                            crate::individual::lemma_conn_like_geometry(
                                i1.connections@[idx],
                                i2.connections@[idx],
                                i1.dimensions,
                            );
                        }
                    }
                }
                i1.mutate(&mut random, MUTATION_PERMILLE);
                let points = i1.evaluate();
                new_population.push((i1, points));
            }
            self.population = new_population;
            generation = generation + 1;
        }
        let n = self.population.len();
        let mut best: usize = 0;
        let mut i: usize = 1;
        while i < n
            invariant
                1 <= i <= n,
                best < i,
                n == self.population@.len(),
                forall|k: int|
                    0 <= k < i ==> self.population@[best as int].1 <= (
                    #[trigger] self.population@[k]).1,
            decreases n - i,
        {
            if self.population[i].1 < self.population[best].1 {
                best = i;
            }
            i = i + 1;
        }
        let winner = clone_individual(&self.population[best].0);
        proof {
            lemma_ind_like_interchangeable(
                winner,
                self.population@[best as int].0,
                self.pin_locations@,
            );
        }
        (winner, self.population[best].1)
    }

    /// Generational genetic search with the configured population size,
    /// generation count, tournament size, and crossover and mutation
    /// rates.
    pub fn genetic_search(&mut self, seed: Option<u64>) -> (r: (Individual, u128))
        requires
            problem_wf(*old(self)),
            population_ok(*old(self)),
        ensures
            final(self).dimensions == old(self).dimensions,
            final(self).pin_locations@ == old(self).pin_locations@,
            final(self).random == old(self).random,
            problem_wf(*final(self)),
            population_ok(*final(self)),
            final(self).population@.len() == POPULATION,
            ind_wf(r.0),
            r.0.dimensions == old(self).dimensions,
            matches_pins(r.0, old(self).pin_locations@),
            r.1 == ind_fitness(r.0),
            exists|j: int|
                0 <= j < final(self).population@.len() && ind_like(
                    r.0,
                    (#[trigger] final(self).population@[j]).0,
                ) && r.1 == final(self).population@[j].1,
            forall|k: int|
                0 <= k < final(self).population@.len()
                    ==> r.1 <= (#[trigger] final(self).population@[k]).1,
    {
        self.genetic_search_with(POPULATION, ITERATIONS, BATCH_SIZE, seed)
    }

    /// Random search over `iterations` freshly routed candidates, keeping
    /// the best by fitness. With the problem's base seed set, candidate
    /// `i` is routed with seed `base + i` (wrapping), so a run is
    /// reproducible; without it every candidate draws from entropy.
    /// Reproducibility is a property of rand's seeded generator; the
    /// trusted boundary states only each draw's range, never the stream,
    /// so bit-identical reruns are checked by test rather than proved.
    pub fn random_search(&self, iterations: u64) -> (r: (Individual, u128))
        requires
            problem_wf(*self),
        ensures
            iterations >= 1 ==> ind_wf(r.0) && r.0.dimensions == self.dimensions && matches_pins(
                r.0,
                self.pin_locations@,
            ) && r.1 == ind_fitness(r.0),
            iterations == 0 ==> r.0.connections@.len() == 0 && r.1 == u128::MAX,
    {
        random_search_worker(self.dimensions, clone_pins(&self.pin_locations), iterations, self.random)
    }
}

/// One random-search worker: route `iterations` fresh candidates over the
/// given grid and pins and return the best seen, with its fitness. With a
/// seed, candidate `i` is routed with seed `base + i` (wrapping). With no
/// iterations the empty candidate and an infinite score come back.
#[verifier::loop_isolation(false)]
pub fn random_search_worker(
    dimensions: (u32, u32),
    pin_locations: Vec<((u32, u32), (u32, u32))>,
    iterations: u64,
    seed: Option<u64>,
) -> (r: (Individual, u128))
    requires
        forall|i: int|
            0 <= i < pin_locations@.len() ==> on_grid(
                pt((#[trigger] pin_locations@[i]).0),
                dimensions,
            ) && on_grid(pt(pin_locations@[i].1), dimensions),
    ensures
        iterations >= 1 ==> ind_wf(r.0) && r.0.dimensions == dimensions && matches_pins(
            r.0,
            pin_locations@,
        ) && r.1 == ind_fitness(r.0),
        iterations == 0 ==> r.0.connections@.len() == 0 && r.1 == u128::MAX,
{
    let mut best = Individual::new();
    let mut best_value: u128 = u128::MAX;
    let mut have_best = false;
    let mut i: u64 = 0;
    while i < iterations
        invariant
            i <= iterations,
            have_best == (i > 0),
            have_best ==> ind_wf(best) && best.dimensions == dimensions && matches_pins(
                best,
                pin_locations@,
            ) && best_value == ind_fitness(best),
            !have_best ==> best.connections@.len() == 0 && best_value == u128::MAX,
        decreases iterations - i,
    {
        let walk_seed: Option<u64> = match seed {
            Some(s) => Some(s.wrapping_add(i)),
            None => None,
        };
        let temp = generate_individual(dimensions, clone_pins(&pin_locations), walk_seed);
        let temp_value = temp.evaluate();
        if !have_best || temp_value < best_value {
            best = temp;
            best_value = temp_value;
            have_best = true;
        }
        i = i + 1;
    }
    (best, best_value)
}

/// What the first line of the problem text denotes: exactly two numeric
/// fields, the grid dimensions.
pub open spec fn dims_of_line(l: Seq<u8>) -> Option<(u32, u32)> {
    let fs = split_spec(l, 59);
    if fs.len() == 2 && field_val(fs[0]) is Some && field_val(fs[1]) is Some {
        Some((field_val(fs[0])->Some_0, field_val(fs[1])->Some_0))
    } else {
        None
    }
}

/// What one pin line denotes: exactly four numeric fields
/// `r0;c0;r1;c1`, one pin pair.
pub open spec fn pin_of_line(l: Seq<u8>) -> Option<((u32, u32), (u32, u32))> {
    let fs = split_spec(l, 59);
    if fs.len() == 4 && field_val(fs[0]) is Some && field_val(fs[1]) is Some && field_val(
        fs[2],
    ) is Some && field_val(fs[3]) is Some {
        Some(
            (
                (field_val(fs[0])->Some_0, field_val(fs[1])->Some_0),
                (field_val(fs[2])->Some_0, field_val(fs[3])->Some_0),
            ),
        )
    } else {
        None
    }
}

/// What a run of pin lines denotes: every line must be a valid pin line.
pub open spec fn pins_of_lines(ls: Seq<Seq<u8>>) -> Option<Seq<((u32, u32), (u32, u32))>>
    decreases ls.len(),
{
    if ls.len() == 0 {
        Some(Seq::empty())
    } else {
        let rest = pins_of_lines(ls.drop_last());
        let last = pin_of_line(ls.last());
        if rest is Some && last is Some {
            Some(rest->Some_0.push(last->Some_0))
        } else {
            None
        }
    }
}

/// What a whole problem text denotes: the dimensions from line one, the
/// pin pairs from the following lines, every pin on the grid. Empty text
/// denotes the empty problem on a zero-sized grid.
pub open spec fn spec_load_problem(s: Seq<u8>) -> Option<
    ((u32, u32), Seq<((u32, u32), (u32, u32))>),
> {
    let ls = lines_spec(s);
    if ls.len() == 0 {
        Some(((0u32, 0u32), Seq::empty()))
    } else if dims_of_line(ls.first()) is Some && pins_of_lines(ls.drop_first()) is Some {
        let dims = dims_of_line(ls.first())->Some_0;
        let pins = pins_of_lines(ls.drop_first())->Some_0;
        if forall|i: int|
            0 <= i < pins.len() ==> on_grid(pt((#[trigger] pins[i]).0), dims) && on_grid(
                pt(pins[i].1),
                dims,
            ) {
            Some((dims, pins))
        } else {
            None
        }
    } else {
        None
    }
}

/// One invalid pin line invalidates the whole run.
proof fn lemma_pins_none(ls: Seq<Seq<u8>>, k: int)
    requires
        0 <= k < ls.len(),
        pin_of_line(ls[k]) is None,
    ensures
        pins_of_lines(ls) is None,
    decreases ls.len(),
{
    if k < ls.len() - 1 {
        assert(ls.drop_last()[k] == ls[k]);
        lemma_pins_none(ls.drop_last(), k);
    }
}

/// Load a problem from its text: line one gives the grid as `W;H`, every
/// further line one pin pair as `r0;c0;r1;c1`. `None` on malformed text
/// or a pin outside the grid, both fatal configuration errors.
#[verifier::loop_isolation(false)]
#[verifier::rlimit(60)]
pub fn load_problem(text: &[u8], seed: Option<u64>) -> (r: Option<Problem>)
    ensures
        r is Some <==> spec_load_problem(text@) is Some,
        r is Some ==> {
            let parsed = spec_load_problem(text@)->Some_0;
            let p = r->Some_0;
            &&& p.dimensions == parsed.0
            &&& p.pin_locations@ == parsed.1
            &&& p.population@.len() == 0
            &&& p.random == seed
            &&& problem_wf(p)
            &&& population_ok(p)
        },
{
    let ghost ls = lines_spec(text@);
    let mut lines = split_on(text, 10);
    proof {
        lemma_split_len(text@, 10);
    }
    let last_is_empty = lines[lines.len() - 1].len() == 0;
    if last_is_empty {
        lines.pop();
    }
    proof {
        assert(lines@.len() == ls.len());
        assert(forall|i: int| 0 <= i < lines@.len() ==> (#[trigger] lines@[i])@ == ls[i]);
    }
    if lines.len() == 0 {
        return Some(
            Problem {
                dimensions: (0, 0),
                pin_locations: Vec::new(),
                population: Vec::new(),
                random: seed,
            },
        );
    }
    let dim_fields = split_on(lines[0].as_slice(), 59);
    if dim_fields.len() != 2 {
        return None;
    }
    let w = match parse_u32_field(dim_fields[0].as_slice()) {
        Some(x) => x,
        None => {
            return None;
        },
    };
    let h = match parse_u32_field(dim_fields[1].as_slice()) {
        Some(x) => x,
        None => {
            return None;
        },
    };
    let dimensions = (w, h);
    let mut pin_locations: Vec<((u32, u32), (u32, u32))> = Vec::new();
    let n = lines.len();
    let mut k: usize = 1;
    proof {
        assert(ls.drop_first().take(0) =~= Seq::<Seq<u8>>::empty());
    }
    while k < n
        invariant
            1 <= k <= n,
            pins_of_lines(ls.drop_first().take(k - 1)) == Some(pin_locations@),
        decreases n - k,
    {
        proof {
            assert(ls.drop_first().take(k as int).drop_last() =~= ls.drop_first().take(k - 1));
            assert(ls.drop_first().take(k as int).last() == ls[k as int]);
        }
        let fields = split_on(lines[k].as_slice(), 59);
        if fields.len() != 4 {
            proof {
                lemma_pins_none(ls.drop_first(), k - 1);
            }
            return None;
        }
        let v0 = match parse_u32_field(fields[0].as_slice()) {
            Some(x) => x,
            None => {
                proof {
                    lemma_pins_none(ls.drop_first(), k - 1);
                }
                return None;
            },
        };
        let v1 = match parse_u32_field(fields[1].as_slice()) {
            Some(x) => x,
            None => {
                proof {
                    lemma_pins_none(ls.drop_first(), k - 1);
                }
                return None;
            },
        };
        let v2 = match parse_u32_field(fields[2].as_slice()) {
            Some(x) => x,
            None => {
                proof {
                    lemma_pins_none(ls.drop_first(), k - 1);
                }
                return None;
            },
        };
        let v3 = match parse_u32_field(fields[3].as_slice()) {
            Some(x) => x,
            None => {
                proof {
                    lemma_pins_none(ls.drop_first(), k - 1);
                }
                return None;
            },
        };
        pin_locations.push(((v0, v1), (v2, v3)));
        k = k + 1;
    }
    proof {
        assert(ls.drop_first().take(n - 1) =~= ls.drop_first());
    }
    Problem::new(dimensions, pin_locations, seed)
}

/// The minimal-fitness entry of a list of scored candidates, found by a
/// final linear scan; `None` only on an empty list.
#[verifier::loop_isolation(false)]
pub fn best_individual(mut candidates: Vec<(Individual, u128)>) -> (r: Option<(Individual, u128)>)
    ensures
        r is None <==> candidates@.len() == 0,
        r is Some ==> exists|j: int|
            0 <= j < candidates@.len() && r->Some_0 == #[trigger] candidates@[j],
        r is Some ==> forall|k: int|
            0 <= k < candidates@.len() ==> r->Some_0.1 <= (#[trigger] candidates@[k]).1,
{
    let n = candidates.len();
    if n == 0 {
        return None;
    }
    let mut best: usize = 0;
    let mut i: usize = 1;
    while i < n
        invariant
            1 <= i <= n,
            best < i,
            forall|k: int| 0 <= k < i ==> candidates@[best as int].1 <= (#[trigger] candidates@[k]).1,
        decreases n - i,
    {
        if candidates[i].1 < candidates[best].1 {
            best = i;
        }
        i = i + 1;
    }
    let chosen = candidates.swap_remove(best);
    Some(chosen)
}

} // verus!
