//! The population of tours and the generational replacement that evolves it.
use crate::geometry::City;
use crate::random::random_index;
use crate::random::random_ratio;
use crate::random::shuffle;
use crate::tour::crossover_seq;
use crate::tour::is_permutation;
use crate::tour::path_length;
use crate::tour::swapped;
use crate::tour::Path;
use vstd::prelude::*;

verus! {

/// Rates are fractions of this denominator: `RATE_SCALE` is a rate of one.
pub const RATE_SCALE: u32 = 1_000_000;

/// Why a configuration cannot be run.
#[derive(Clone, Copy, Debug, PartialEq, Eq, Structural)]
pub enum ConfigError {
    /// There are no cities.
    NoCities,
    /// A rate is above one.
    RateOutOfRange,
    /// The population has fewer than three tours.
    PopulationTooSmall,
    /// A tour is not a permutation of the cities, or its fitness is not that of its order.
    InvalidTour,
    /// The crossover rate leaves no tour to breed from.
    NoBreedingPool,
    /// So many parents survive that the two lowest-fitness tours find no place.
    TooManySurvivors,
}

/// Size of the breeding pool: `floor(population_size * crossover_rate)`.
pub open spec fn breeding_count_spec(population_size: nat, crossover_rate: nat) -> nat {
    population_size * crossover_rate / (RATE_SCALE as nat)
}

/// Number of elites: `floor(breeding_count * survival_rate)`.
pub open spec fn surviving_count_spec(breeding_count: nat, survival_rate: nat) -> nat {
    breeding_count * survival_rate / (RATE_SCALE as nat)
}

/// What is wrong with a configuration, if anything, in this order of precedence.
pub open spec fn config_error(
    population: Seq<Path>,
    cities: Seq<City>,
    crossover_rate: u32,
    mutation_rate: u32,
    survival_rate: u32,
) -> Option<ConfigError> {
    let breeding = breeding_count_spec(population.len(), crossover_rate as nat);
    let surviving = surviving_count_spec(breeding, survival_rate as nat);
    if cities.len() == 0 {
        Some(ConfigError::NoCities)
    } else if crossover_rate > RATE_SCALE || mutation_rate > RATE_SCALE || survival_rate
        > RATE_SCALE {
        Some(ConfigError::RateOutOfRange)
    } else if population.len() < 3 {
        Some(ConfigError::PopulationTooSmall)
    } else if exists|i: int| 0 <= i < population.len() && !(#[trigger] population[i]).wf(cities) {
        Some(ConfigError::InvalidTour)
    } else if breeding == 0 {
        Some(ConfigError::NoBreedingPool)
    } else if population.len() < surviving + 2 {
        Some(ConfigError::TooManySurvivors)
    } else {
        None
    }
}

proof fn lemma_scaled_below(n: nat, rate: nat)
    requires
        rate <= RATE_SCALE,
    ensures
        n * rate / (RATE_SCALE as nat) <= n,
{
    assert(n * rate <= n * (RATE_SCALE as nat)) by (nonlinear_arith)
        requires rate <= RATE_SCALE;
    assert(n * (RATE_SCALE as nat) / (RATE_SCALE as nat) == n) by (nonlinear_arith);
    assert(n * rate / (RATE_SCALE as nat) <= n * (RATE_SCALE as nat) / (RATE_SCALE as nat))
        by (nonlinear_arith)
        requires n * rate <= n * (RATE_SCALE as nat);
}

/// `floor(count * rate)` for a rate of at most one.
fn scaled_count(count: usize, rate: u32) -> (r: usize)
    requires
        rate <= RATE_SCALE,
    ensures
        r as nat == count as nat * rate as nat / (RATE_SCALE as nat),
        r <= count,
{
    proof {
        lemma_scaled_below(count as nat, rate as nat);
    }
    assert(count as u128 * rate as u128 <= 0xFFFF_FFFF_FFFF_FFFF * 0xFFFF_FFFF) by (nonlinear_arith)
        requires count <= 0xFFFF_FFFF_FFFF_FFFF, rate <= 0xFFFF_FFFF;
    let product: u128 = count as u128 * rate as u128;
    (product / RATE_SCALE as u128) as usize
}

/// Size of the breeding pool: the fittest `floor(population_size * crossover_rate)` tours.
pub fn breeding_count(population_size: usize, crossover_rate: u32) -> (r: usize)
    requires
        crossover_rate <= RATE_SCALE,
    ensures
        r as nat == breeding_count_spec(population_size as nat, crossover_rate as nat),
        r <= population_size,
{
    scaled_count(population_size, crossover_rate)
}

/// Number of elites carried over unchanged: `floor(breeding_count * survival_rate)`.
pub fn surviving_parent_count(breeding_count: usize, survival_rate: u32) -> (r: usize)
    requires
        survival_rate <= RATE_SCALE,
    ensures
        r as nat == surviving_count_spec(breeding_count as nat, survival_rate as nat),
        r <= breeding_count,
{
    scaled_count(breeding_count, survival_rate)
}

/// Whether `path` is a permutation of the indices of `city_list` whose fitness is that
/// of its order.
pub fn is_valid_tour(path: &Path, city_list: &Vec<City>) -> (r: bool)
    ensures
        r == path.wf(city_list@),
{
    let n = city_list.len();
    if path.order.len() != n {
        return false;
    }
    let mut seen: Vec<bool> = Vec::new();
    let mut k: usize = 0;
    while k < n
        invariant
            k <= n,
            seen@.len() == k,
            forall|m: int| 0 <= m < k ==> !seen@[m],
        decreases n - k,
    {
        seen.push(false);
        k = k + 1;
    }
    let mut i: usize = 0;
    while i < n
        invariant
            i <= n == path.order.len() == seen.len(),
            path.order@.take(i as int).no_duplicates(),
            forall|m: int| 0 <= m < i ==> (path.order@[m] as nat) < n,
            forall|v: int| 0 <= v < n ==> (seen@[v] <==> path.order@.take(i as int).contains(v as usize)),
        decreases n - i,
    {
        let v = path.order[i];
        let ghost before = path.order@.take(i as int);
        let ghost after = path.order@.take(i as int + 1);
        assert(after =~= before.push(v));
        if v >= n {
            assert(!(path.order@[i as int] < n));
            return false;
        }
        if seen[v] {
            let ghost t = choose|t: int| 0 <= t < i && before[t] == v;
            assert(path.order@[t] == path.order@[i as int]);
            return false;
        }
        seen.set(v, true);
        assert forall|w: int| 0 <= w < n implies (seen@[w] <==> after.contains(w as usize)) by {
            if w != v as int {
                if after.contains(w as usize) {
                    let t = choose|t: int| 0 <= t <= i && after[t] == w as usize;
                    assert(before[t] == w as usize);
                }
                if before.contains(w as usize) {
                    let t = choose|t: int| 0 <= t < i && before[t] == w as usize;
                    assert(after[t] == w as usize);
                }
            } else {
                assert(after[i as int] == v);
            }
        }
        assert forall|a: int, b: int|
            0 <= a < after.len() && 0 <= b < after.len() && a != b implies after[a] != after[b] by {
            if a == i as int {
                assert(before.contains(after[b]) ==> after[b] != v);
                assert(before[b] == after[b]);
            } else if b == i as int {
                assert(before[a] == after[a]);
            } else {
                assert(before[a] == after[a] && before[b] == after[b]);
            }
        }
        i = i + 1;
    }
    assert(path.order@.take(n as int) =~= path.order@);
    let fitness = Path::calculate_fitness(&path.order, city_list);
    fitness.length == path.fitness.length
}

/// Checks every tour of `population` against `city_list`.
fn all_valid(population: &Vec<Path>, city_list: &Vec<City>) -> (r: bool)
    ensures
        r == forall|i: int| 0 <= i < population.len() ==> (#[trigger] population@[i]).wf(city_list@),
{
    let mut i: usize = 0;
    while i < population.len()
        invariant
            i <= population.len(),
            forall|k: int| 0 <= k < i ==> (#[trigger] population@[k]).wf(city_list@),
        decreases population.len() - i,
    {
        if !is_valid_tour(&population[i], city_list) {
            return false;
        }
        i = i + 1;
    }
    true
}

/// `population` is ordered from the greatest fitness to the least, that is by
/// non-decreasing path length.
pub open spec fn fittest_first(population: Seq<Path>) -> bool {
    forall|a: int, b: int|
        0 <= a < b < population.len() ==> population[a].fitness.length
            <= population[b].fitness.length
}

/// `q` is `p` with two of its entries exchanged; exchanging an entry with itself
/// leaves `p` as it was.
pub open spec fn is_swap_of(q: Seq<usize>, p: Seq<usize>) -> bool {
    exists|i: int, j: int| 0 <= i < p.len() && 0 <= j < p.len() && q == swapped(p, i, j)
}

/// `q` is `p` after the mutation step: at most one swap of its order, and, when
/// the mutation rate is zero, `p` itself.
pub open spec fn is_mutant_of(q: Path, p: Path, mutation_rate: u32) -> bool {
    &&& is_swap_of(q.order@, p.order@)
    &&& mutation_rate == 0 ==> q.order@ == p.order@ && q.fitness == p.fitness
}

/// `child` is a crossover of `mother` with one of the first `breeding` tours of
/// `pool`, at a point below `n`, up to one swap; exactly that crossover when the
/// mutation rate is zero.
pub open spec fn is_offspring(
    child: Seq<usize>,
    mother: Seq<usize>,
    pool: Seq<Path>,
    breeding: nat,
    n: nat,
    mutation_rate: u32,
) -> bool {
    exists|mate: int, point: nat|
        0 <= mate < breeding && point < n && is_swap_of(
            child,
            #[trigger] crossover_seq(mother, pool[mate].order@, point),
        ) && (mutation_rate == 0 ==> child == crossover_seq(mother, pool[mate].order@, point))
}

/// `next` is a generation bred from `sorted`, up to the swap that mutation may
/// apply to each tour (none when `mutation_rate` is zero): first the `surviving` fittest tours of `sorted`, then
/// offspring, the `i`-th of them a crossover of the `i mod breeding`-th tour with one
/// of the `breeding` fittest, at a point below `n`, and last the two least fit tours
/// of `sorted`.
pub open spec fn bred_from(
    next: Seq<Path>,
    sorted: Seq<Path>,
    breeding: nat,
    surviving: nat,
    n: nat,
    mutation_rate: u32,
) -> bool {
    &&& next.len() == sorted.len()
    &&& forall|k: int| 0 <= k < surviving ==> is_mutant_of(#[trigger] next[k], sorted[k], mutation_rate)
    &&& forall|k: int|
        surviving <= k < next.len() - 2 ==> is_offspring(
            (#[trigger] next[k]).order@,
            sorted[(k - surviving) % (breeding as int)].order@,
            sorted,
            breeding,
            n,
            mutation_rate,
        )
    &&& forall|k: int|
        next.len() - 2 <= k < next.len() ==> is_mutant_of(
            #[trigger] next[k],
            sorted[k],
            mutation_rate,
        )
}

/// `next` is what one generation step makes of `current` over `n` cities with these
/// rates: `current` sorted stably from the fittest to the least fit, then bred as
/// `bred_from` says.
pub open spec fn next_generation_of(
    next: Seq<Path>,
    current: Seq<Path>,
    n: nat,
    crossover_rate: u32,
    mutation_rate: u32,
    survival_rate: u32,
) -> bool {
    let breeding = breeding_count_spec(current.len(), crossover_rate as nat);
    let surviving = surviving_count_spec(breeding, survival_rate as nat);
    exists|sorted: Seq<Path>|
        {
            &&& sorted.to_multiset() == current.to_multiset()
            &&& fittest_first(sorted)
            &&& exists|from: Seq<int>| ties_keep_order(sorted, current, from)
            &&& #[trigger] bred_from(next, sorted, breeding, surviving, n, mutation_rate)
        }
}

/// Applies the mutation to `path` with probability `mutation_rate / RATE_SCALE`.
fn maybe_mutate(path: Path, city_list: &Vec<City>, mutation_rate: u32) -> (r: Path)
    requires
        path.wf(city_list@),
        city_list.len() > 0,
        mutation_rate <= RATE_SCALE,
    ensures
        r.wf(city_list@),
        is_mutant_of(r, path, mutation_rate),
{
    let mut p = path;
    if random_ratio(mutation_rate, RATE_SCALE) {
        p.mutate(city_list);
    } else {
        assert(swapped(p.order@, 0, 0) =~= p.order@);
    }
    p
}

/// The evolution of a population of tours over a fixed set of cities.
pub struct Simulation {
    pub population: Vec<Path>,
    pub city_list: Vec<City>,
    pub max_iterations: usize,
    pub crossover_rate: u32,
    pub mutation_rate: u32,
    pub survival_rate: u32,
}

impl Simulation {
    /// The configuration can be run, and every tour is valid for the cities.
    pub open spec fn wf(&self) -> bool {
        config_error(
            self.population@,
            self.city_list@,
            self.crossover_rate,
            self.mutation_rate,
            self.survival_rate,
        ).is_none()
    }

    /// A simulation of `initial_population` over `city_list`, or the first
    /// configuration error (see `config_error`).
    pub fn new(
        initial_population: Vec<Path>,
        city_list: Vec<City>,
        max_iterations: usize,
        crossover_rate: u32,
        mutation_rate: u32,
        survival_rate: u32,
    ) -> (r: Result<Simulation, ConfigError>)
        ensures
            match r {
                Ok(s) => {
                    &&& config_error(
                        initial_population@,
                        city_list@,
                        crossover_rate,
                        mutation_rate,
                        survival_rate,
                    ) is None
                    &&& s.population@ == initial_population@
                    &&& s.city_list@ == city_list@
                    &&& s.max_iterations == max_iterations
                    &&& s.crossover_rate == crossover_rate
                    &&& s.mutation_rate == mutation_rate
                    &&& s.survival_rate == survival_rate
                    &&& s.wf()
                },
                Err(e) => config_error(
                    initial_population@,
                    city_list@,
                    crossover_rate,
                    mutation_rate,
                    survival_rate,
                ) == Some(e),
            },
    {
        if city_list.len() == 0 {
            return Err(ConfigError::NoCities);
        }
        if crossover_rate > RATE_SCALE || mutation_rate > RATE_SCALE || survival_rate > RATE_SCALE {
            return Err(ConfigError::RateOutOfRange);
        }
        let size = initial_population.len();
        if size < 3 {
            return Err(ConfigError::PopulationTooSmall);
        }
        if !all_valid(&initial_population, &city_list) {
            return Err(ConfigError::InvalidTour);
        }
        let breeding = breeding_count(size, crossover_rate);
        if breeding == 0 {
            return Err(ConfigError::NoBreedingPool);
        }
        let surviving = surviving_parent_count(breeding, survival_rate);
        if size - surviving < 2 {
            return Err(ConfigError::TooManySurvivors);
        }
        Ok(
            Simulation {
                population: initial_population,
                city_list,
                max_iterations,
                crossover_rate,
                mutation_rate,
                survival_rate,
            },
        )
    }

    /// A copy of the fittest tour: the first one, by position, of the least path
    /// length.
    pub fn find_fittest(&self) -> (r: Path)
        requires
            self.population.len() > 0,
        ensures
            exists|k: int|
                {
                    &&& 0 <= k < self.population.len()
                    &&& r.order@ == self.population@[k].order@
                    &&& r.fitness == self.population@[k].fitness
                    &&& forall|j: int|
                        0 <= j < k ==> self.population@[j].fitness.length > r.fitness.length
                    &&& forall|j: int|
                        0 <= j < self.population.len() ==> self.population@[j].fitness.length
                            >= r.fitness.length
                },
            self.population.len() == 1 ==> r.order@ == self.population@[0].order@ && r.fitness
                == self.population@[0].fitness,
    {
        let mut best: usize = 0;
        let mut i: usize = 1;
        while i < self.population.len()
            invariant
                1 <= i <= self.population.len(),
                best < i,
                forall|j: int|
                    0 <= j < best ==> self.population@[j].fitness.length
                        > self.population@[best as int].fitness.length,
                forall|j: int|
                    0 <= j < i ==> self.population@[j].fitness.length
                        >= self.population@[best as int].fitness.length,
            decreases self.population.len() - i,
        {
            if self.population[i].fitness.exceeds(&self.population[best].fitness) {
                best = i;
            }
            i = i + 1;
        }
        self.population[best].duplicate()
    }
}

impl Simulation {
    /// Advances one generation: sorts the population by fitness, keeps the
    /// `surviving_parent_count` fittest tours, breeds offspring from the
    /// `breeding_count` fittest (the `i`-th from the `i mod breeding_count`-th and a
    /// mate drawn uniformly from the pool), keeps the two least fit tours, and mutates
    /// each tour of the new generation with probability `mutation_rate`.
    pub fn generate_next_generation(&mut self)
        requires
            old(self).wf(),
        ensures
            final(self).wf(),
            final(self).population.len() == old(self).population.len(),
            final(self).city_list@ == old(self).city_list@,
            final(self).max_iterations == old(self).max_iterations,
            final(self).crossover_rate == old(self).crossover_rate,
            final(self).mutation_rate == old(self).mutation_rate,
            final(self).survival_rate == old(self).survival_rate,
            next_generation_of(
                final(self).population@,
                old(self).population@,
                old(self).city_list.len() as nat,
                old(self).crossover_rate,
                old(self).mutation_rate,
                old(self).survival_rate,
            ),
    {
        broadcast use vstd::seq_lib::group_to_multiset_ensures;
        broadcast use vstd::multiset::group_multiset_axioms;

        let ghost original = self.population@;
        let size = self.population.len();
        sort_by_fitness(&mut self.population);
        let ghost sorted = self.population@;
        proof {
            sorted.to_multiset_ensures();
            original.to_multiset_ensures();
        }
        assert(sorted.len() == size);
        assert forall|k: int| 0 <= k < size implies (#[trigger] sorted[k]).wf(self.city_list@) by {
            assert(sorted.contains(sorted[k]));
            assert(sorted.to_multiset().count(sorted[k]) > 0);
            assert(original.contains(sorted[k]));
            let j = choose|j: int| 0 <= j < original.len() && original[j] == sorted[k];
            assert(original[j].wf(self.city_list@));
        }
        let breeding = breeding_count(size, self.crossover_rate);
        let surviving = surviving_parent_count(breeding, self.survival_rate);
        let ghost n = self.city_list.len() as nat;
        let mut next: Vec<Path> = Vec::new();
        let mut k: usize = 0;
        while k < surviving
            invariant
                k <= surviving <= breeding <= size == self.population.len() == sorted.len(),
                surviving + 2 <= size,
                self.population@ == sorted,
                self.city_list.len() > 0,
                self.mutation_rate <= RATE_SCALE,
                forall|m: int| 0 <= m < size ==> (#[trigger] sorted[m]).wf(self.city_list@),
                next@.len() == k,
                forall|m: int| 0 <= m < k ==> (#[trigger] next@[m]).wf(self.city_list@),
                forall|m: int|
                    0 <= m < k ==> is_mutant_of(#[trigger] next@[m], sorted[m], self.mutation_rate),
            decreases surviving - k,
        {
            let elite = self.population[k].duplicate();
            next.push(maybe_mutate(elite, &self.city_list, self.mutation_rate));
            k = k + 1;
        }
        let offspring = size - surviving - 2;
        let mut i: usize = 0;
        while i < offspring
            invariant
                i <= offspring == size - surviving - 2,
                0 < breeding,
                surviving <= breeding <= size == self.population.len() == sorted.len(),
                self.population@ == sorted,
                self.city_list.len() > 0,
                n == self.city_list.len(),
                self.mutation_rate <= RATE_SCALE,
                forall|m: int| 0 <= m < size ==> (#[trigger] sorted[m]).wf(self.city_list@),
                next@.len() == surviving + i,
                forall|m: int| 0 <= m < surviving + i ==> (#[trigger] next@[m]).wf(self.city_list@),
                forall|m: int|
                    0 <= m < surviving ==> is_mutant_of(
                        #[trigger] next@[m],
                        sorted[m],
                        self.mutation_rate,
                    ),
                forall|m: int|
                    surviving <= m < surviving + i ==> is_offspring(
                        (#[trigger] next@[m]).order@,
                        sorted[(m - surviving) % (breeding as int)].order@,
                        sorted,
                        breeding as nat,
                        n,
                        self.mutation_rate,
                    ),
            decreases offspring - i,
        {
            let mate = random_index(breeding);
            let mother = i % breeding;
            let child = self.population[mother].breed(&self.population[mate], &self.city_list);
            let ghost point = choose|point: nat|
                point < n && child.order@ == crossover_seq(
                    sorted[mother as int].order@,
                    sorted[mate as int].order@,
                    point,
                );
            let mutated = maybe_mutate(child, &self.city_list, self.mutation_rate);
            assert(is_offspring(
                mutated.order@,
                sorted[mother as int].order@,
                sorted,
                breeding as nat,
                n,
                self.mutation_rate,
            )) by {
                assert(is_swap_of(
                    mutated.order@,
                    crossover_seq(sorted[mother as int].order@, sorted[mate as int].order@, point),
                ));
            }
            let ghost before = next@;
            next.push(mutated);
            assert(((surviving + i) - surviving) % (breeding as int) == mother);
            assert forall|m: int| surviving <= m < surviving + i + 1 implies is_offspring(
                (#[trigger] next@[m]).order@,
                sorted[(m - surviving) % (breeding as int)].order@,
                sorted,
                breeding as nat,
                n,
                self.mutation_rate,
            ) by {
                if m < surviving + i {
                    assert(next@[m] == before[m]);
                }
            }
            i = i + 1;
        }
        let mut t: usize = size - 2;
        while t < size
            invariant
                size - 2 <= t <= size == self.population.len() == sorted.len(),
                surviving + 2 <= size,
                0 < breeding,
                self.population@ == sorted,
                self.city_list.len() > 0,
                n == self.city_list.len(),
                self.mutation_rate <= RATE_SCALE,
                forall|m: int| 0 <= m < size ==> (#[trigger] sorted[m]).wf(self.city_list@),
                next@.len() == t,
                forall|m: int| 0 <= m < t ==> (#[trigger] next@[m]).wf(self.city_list@),
                forall|m: int|
                    0 <= m < surviving ==> is_mutant_of(
                        #[trigger] next@[m],
                        sorted[m],
                        self.mutation_rate,
                    ),
                forall|m: int|
                    surviving <= m < size - 2 ==> is_offspring(
                        (#[trigger] next@[m]).order@,
                        sorted[(m - surviving) % (breeding as int)].order@,
                        sorted,
                        breeding as nat,
                        n,
                        self.mutation_rate,
                    ),
                forall|m: int|
                    size - 2 <= m < t ==> is_mutant_of(
                        #[trigger] next@[m],
                        sorted[m],
                        self.mutation_rate,
                    ),
            decreases size - t,
        {
            let kept = self.population[t].duplicate();
            next.push(maybe_mutate(kept, &self.city_list, self.mutation_rate));
            t = t + 1;
        }
        self.population = next;
        assert(bred_from(
            self.population@,
            sorted,
            breeding as nat,
            surviving as nat,
            n,
            self.mutation_rate,
        ));
    }
}

impl Simulation {
    /// Runs exactly `max_iterations` generations and returns the fittest tour seen in
    /// any of them, the starting one included: the best tour is replaced only by one of
    /// strictly greater fitness, so the result is the first tour, by generation and
    /// then by position, of the least path length over the whole run.
    pub fn run(&mut self) -> (r: Path)
        requires
            old(self).wf(),
        ensures
            final(self).wf(),
            final(self).population.len() == old(self).population.len(),
            final(self).city_list@ == old(self).city_list@,
            final(self).max_iterations == old(self).max_iterations,
            final(self).crossover_rate == old(self).crossover_rate,
            final(self).mutation_rate == old(self).mutation_rate,
            final(self).survival_rate == old(self).survival_rate,
            old(self).max_iterations == 0 ==> final(self).population@ == old(self).population@,
            r.wf(final(self).city_list@),
            exists|gens: Seq<Seq<Path>>|
                {
                    &&& gens.len() == old(self).max_iterations + 1
                    &&& gens[0] == old(self).population@
                    &&& gens.last() == final(self).population@
                    &&& forall|t: int|
                        0 <= t < old(self).max_iterations ==> next_generation_of(
                            #[trigger] gens[t + 1],
                            gens[t],
                            old(self).city_list.len() as nat,
                            old(self).crossover_rate,
                            old(self).mutation_rate,
                            old(self).survival_rate,
                        )
                    &&& first_fittest_of(r, gens)
                },
    {
        let ghost start = self.population@;
        let ghost cities = self.city_list@;
        let size = self.population.len();
        let mut fittest = self.find_fittest();
        let ghost first = choose|k: int|
            0 <= k < size && fittest.order@ == start[k].order@ && fittest.fitness == start[k].fitness
                && (forall|j: int| 0 <= j < k ==> start[j].fitness.length > fittest.fitness.length)
                && (forall|j: int|
                0 <= j < size ==> start[j].fitness.length >= fittest.fitness.length);
        assert(start[first].wf(cities));
        let ghost mut gens: Seq<Seq<Path>> = seq![start];
        let ghost mut best_t: int = 0;
        let ghost mut best_k: int = first;
        assert(fittest_at(fittest, gens, best_t, best_k));
        let mut iteration: usize = 0;
        while iteration < self.max_iterations
            invariant
                self.wf(),
                self.population.len() == size,
                self.city_list@ == cities,
                self.max_iterations == old(self).max_iterations,
                self.crossover_rate == old(self).crossover_rate,
                self.mutation_rate == old(self).mutation_rate,
                self.survival_rate == old(self).survival_rate,
                iteration <= self.max_iterations,
                gens.len() == iteration + 1,
                gens[0] == start,
                gens.last() == self.population@,
                forall|u: int| 0 <= u < gens.len() ==> (#[trigger] gens[u]).len() == size,
                forall|t: int|
                    0 <= t < iteration ==> next_generation_of(
                        #[trigger] gens[t + 1],
                        gens[t],
                        cities.len(),
                        self.crossover_rate,
                        self.mutation_rate,
                        self.survival_rate,
                    ),
                fittest.wf(cities),
                fittest_at(fittest, gens, best_t, best_k),
            decreases self.max_iterations - iteration,
        {
            let ghost prev = gens;
            self.generate_next_generation();
            proof {
                gens = gens.push(self.population@);
            }
            let challenger = self.find_fittest();
            let ghost c = choose|k: int|
                0 <= k < size && challenger.order@ == self.population@[k].order@
                    && challenger.fitness == self.population@[k].fitness
                    && (forall|j: int|
                    0 <= j < k ==> self.population@[j].fitness.length > challenger.fitness.length)
                    && (forall|j: int|
                    0 <= j < size ==> self.population@[j].fitness.length
                        >= challenger.fitness.length);
            assert(self.population@[c].wf(cities));
            assert forall|u: int| 0 <= u < prev.len() implies #[trigger] gens[u] == prev[u] by {}
            if challenger.fitness.exceeds(&fittest.fitness) {
                fittest = challenger;
                proof {
                    best_t = iteration + 1;
                    best_k = c;
                }
            }
            assert(fittest_at(fittest, gens, best_t, best_k));
            assert forall|t: int| 0 <= t < iteration + 1 implies next_generation_of(
                #[trigger] gens[t + 1],
                gens[t],
                cities.len(),
                self.crossover_rate,
                self.mutation_rate,
                self.survival_rate,
            ) by {
                if t < iteration {
                    assert(gens[t + 1] == prev[t + 1] && gens[t] == prev[t]);
                }
            }
            iteration = iteration + 1;
        }
        fittest
    }
}

/// `population_count` tours over `city_list`, each a uniformly shuffled order of the
/// city indices, with its fitness.
pub fn initial_population(city_list: &Vec<City>, population_count: usize) -> (r: Vec<Path>)
    ensures
        r.len() == population_count,
        forall|k: int| 0 <= k < r.len() ==> (#[trigger] r@[k]).wf(city_list@),
{
    let n = city_list.len();
    let mut base_list: Vec<usize> = Vec::new();
    let mut c: usize = 0;
    while c < n
        invariant
            c <= n,
            base_list@.len() == c,
            forall|m: int| 0 <= m < c ==> base_list@[m] == m,
        decreases n - c,
    {
        base_list.push(c);
        c = c + 1;
    }
    assert(is_permutation(base_list@, n as nat));
    let mut population: Vec<Path> = Vec::new();
    let mut i: usize = 0;
    while i < population_count
        invariant
            i <= population_count,
            n == city_list.len(),
            is_permutation(base_list@, n as nat),
            population@.len() == i,
            forall|k: int| 0 <= k < i ==> (#[trigger] population@[k]).wf(city_list@),
        decreases population_count - i,
    {
        let mut p = base_list.clone();
        assert(p@ =~= base_list@);
        shuffle(&mut p);
        proof {
            lemma_permutation_multiset(base_list@, p@, n as nat);
        }
        let fitness = Path::calculate_fitness(&p, city_list);
        population.push(Path { fitness, order: p });
        i = i + 1;
    }
    population
}

/// A sequence with the same entries, as often, as a permutation is a permutation.
pub proof fn lemma_permutation_multiset(s: Seq<usize>, t: Seq<usize>, n: nat)
    requires
        is_permutation(s, n),
        t.to_multiset() == s.to_multiset(),
    ensures
        is_permutation(t, n),
{
    s.to_multiset_ensures();
    t.to_multiset_ensures();
    s.lemma_multiset_has_no_duplicates();
    t.lemma_multiset_has_no_duplicates_conv();
    assert forall|i: int| 0 <= i < t.len() implies (t[i] as nat) < n by {
        assert(t.contains(t[i]));
        assert(t.to_multiset().count(t[i]) > 0);
        assert(s.to_multiset().count(t[i]) > 0);
        assert(s.contains(t[i]));
        let j = choose|j: int| 0 <= j < s.len() && s[j] == t[i];
    }
}

/// `from[k]` is the position in `original` of the `k`-th tour of `result`, and tours
/// of equal fitness appear in `result` in the order they had in `original`.
pub open spec fn ties_keep_order(result: Seq<Path>, original: Seq<Path>, from: Seq<int>) -> bool {
    &&& from.len() == result.len()
    &&& forall|k: int|
        0 <= k < result.len() ==> 0 <= #[trigger] from[k] < original.len() && result[k]
            == original[from[k]]
    &&& forall|a: int, b: int|
        0 <= a < b < result.len() && result[a].fitness.length == result[b].fitness.length
            ==> from[a] < from[b]
}

/// `r` is the tour at position `k` of generation `t` of `gens`: no tour of any
/// generation is fitter, every tour of an earlier generation is less fit, and so is
/// every tour before it in its own generation.
pub open spec fn fittest_at(r: Path, gens: Seq<Seq<Path>>, t: int, k: int) -> bool {
    &&& 0 <= t < gens.len()
    &&& 0 <= k < gens[t].len()
    &&& r.order@ == gens[t][k].order@
    &&& r.fitness == gens[t][k].fitness
    &&& forall|u: int, j: int|
        0 <= u < gens.len() && 0 <= j < gens[u].len() ==> (#[trigger] gens[u][j]).fitness.length
            >= r.fitness.length
    &&& forall|u: int, j: int|
        0 <= u < t && 0 <= j < gens[u].len() ==> (#[trigger] gens[u][j]).fitness.length
            > r.fitness.length
    &&& forall|j: int| 0 <= j < k ==> (#[trigger] gens[t][j]).fitness.length > r.fitness.length
}

/// `r` is the first tour of the least path length in the sequence of generations
/// `gens`, by generation and then by position.
pub open spec fn first_fittest_of(r: Path, gens: Seq<Seq<Path>>) -> bool {
    exists|t: int, k: int| fittest_at(r, gens, t, k)
}

/// Reorders `population` from the greatest fitness to the least; tours of equal
/// fitness keep their relative order.
pub fn sort_by_fitness(population: &mut Vec<Path>)
    ensures
        final(population)@.to_multiset() == old(population)@.to_multiset(),
        fittest_first(final(population)@),
        exists|from: Seq<int>| ties_keep_order(final(population)@, old(population)@, from),
{
    broadcast use vstd::seq_lib::group_to_multiset_ensures, vstd::seq_lib::to_multiset_insert;
    broadcast use vstd::multiset::group_multiset_axioms;

    let ghost original = population@;
    let mut sorted: Vec<Path> = Vec::new();
    let ghost mut from: Seq<int> = Seq::empty();
    assert(population@ == original.take(population.len() as int));
    assert(sorted@.to_multiset() =~= vstd::multiset::Multiset::empty()) by {
        assert(sorted@.len() == 0);
    }
    while population.len() > 0
        invariant
            population@.to_multiset().add(sorted@.to_multiset()) == original.to_multiset(),
            fittest_first(sorted@),
            population.len() <= original.len(),
            population@ == original.take(population.len() as int),
            from.len() == sorted@.len(),
            forall|k: int|
                0 <= k < sorted@.len() ==> population.len() <= #[trigger] from[k] < original.len()
                    && sorted@[k] == original[from[k]],
            forall|a: int, b: int|
                0 <= a < b < sorted@.len() && sorted@[a].fitness.length
                    == sorted@[b].fitness.length ==> from[a] < from[b],
        decreases population.len(),
    {
        let ghost rest = population@;
        let x = population.pop().unwrap();
        assert(rest == population@.push(x));
        assert(rest == original.take(rest.len() as int));
        assert(rest[population.len() as int] == x);
        assert(x == original[population.len() as int]);
        assert(population@ =~= original.take(population.len() as int)) by {
            assert forall|i: int| 0 <= i < population.len() implies population@[i] == original[i] by {
                assert(population@[i] == rest[i]);
            }
        }
        let mut p: usize = 0;
        while p < sorted.len() && sorted[p].fitness.length < x.fitness.length
            invariant
                p <= sorted.len(),
                forall|a: int| 0 <= a < p ==> sorted@[a].fitness.length < x.fitness.length,
            decreases sorted.len() - p,
        {
            p = p + 1;
        }
        let ghost prev = sorted@;
        let ghost prev_from = from;
        sorted.insert(p, x);
        assert(sorted@ == prev.insert(p as int, x));
        proof {
            from = prev_from.insert(p as int, population.len() as int);
        }
        assert forall|a: int, b: int|
            0 <= a < b < sorted@.len() && sorted@[a].fitness.length == sorted@[b].fitness.length
                implies from[a] < from[b] by {
            if a == p {
                assert(sorted@[b] == prev[b - 1]);
            } else if b == p {
            } else if b < p {
                assert(sorted@[a] == prev[a] && sorted@[b] == prev[b]);
            } else if a < p {
                assert(sorted@[a] == prev[a] && sorted@[b] == prev[b - 1]);
            } else {
                assert(sorted@[a] == prev[a - 1] && sorted@[b] == prev[b - 1]);
            }
        }
        assert(fittest_first(sorted@)) by {
            assert forall|a: int, b: int| 0 <= a < b < sorted@.len() implies sorted@[a].fitness.length
                <= sorted@[b].fitness.length by {
                if b < p {
                } else if b == p {
                    assert(sorted@[a] == prev[a]);
                } else if a == p {
                    assert(sorted@[b] == prev[b - 1]);
                } else if a < p {
                    assert(sorted@[a] == prev[a] && sorted@[b] == prev[b - 1]);
                } else {
                    assert(sorted@[a] == prev[a - 1] && sorted@[b] == prev[b - 1]);
                }
            }
        }
        proof {
            vstd::seq_lib::to_multiset_build(population@, x);
            vstd::seq_lib::to_multiset_insert(prev, p as int, x);
        }
        assert(rest.to_multiset() =~= population@.to_multiset().insert(x));
        assert(sorted@.to_multiset() =~= prev.to_multiset().insert(x));
        assert(population@.to_multiset().add(sorted@.to_multiset()) =~= original.to_multiset());
    }
    assert(population@ =~= Seq::<Path>::empty());
    assert(sorted@.to_multiset() =~= original.to_multiset());
    assert(ties_keep_order(sorted@, original, from));
    *population = sorted;
}

} // verus!
