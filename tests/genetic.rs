use tsp_genetic::geometry::isqrt;
use tsp_genetic::geometry::City;
use tsp_genetic::simulation::breeding_count;
use tsp_genetic::simulation::initial_population;
use tsp_genetic::simulation::is_valid_tour;
use tsp_genetic::simulation::sort_by_fitness;
use tsp_genetic::simulation::surviving_parent_count;
use tsp_genetic::simulation::ConfigError;
use tsp_genetic::simulation::Simulation;
use tsp_genetic::simulation::RATE_SCALE;
use tsp_genetic::tour::Fitness;
use tsp_genetic::tour::Path;

fn unit_square() -> Vec<City> {
    vec![
        City::new(0, 0),
        City::new(1000, 0),
        City::new(1000, 1000),
        City::new(0, 1000),
    ]
}

fn tour(order: Vec<usize>, cities: &Vec<City>) -> Path {
    let fitness = Path::calculate_fitness(&order, cities);
    Path { fitness, order }
}

fn is_permutation(order: &[usize], n: usize) -> bool {
    let mut sorted = order.to_vec();
    sorted.sort();
    sorted == (0..n).collect::<Vec<usize>>()
}

#[test]
fn unit_square_run_finds_open_path_of_three_sides() {
    let cities = unit_square();
    let population = initial_population(&cities, 20);
    let mut sim = Simulation::new(population, cities, 50, 800_000, 10_000, 200_000).unwrap();
    let best = sim.run();
    assert_eq!(best.fitness.length, 3000);
    assert!(is_permutation(&best.order, 4));
    assert_eq!(sim.population.len(), 20);
}

#[test]
fn population_of_three_with_two_survivors_is_rejected() {
    let cities = unit_square();
    let population = initial_population(&cities, 3);
    let r = Simulation::new(population, cities, 10, RATE_SCALE, 0, 700_000);
    assert!(matches!(r, Err(ConfigError::TooManySurvivors)));
}

#[test]
fn population_of_three_with_all_surviving_is_rejected() {
    let cities = unit_square();
    let population = initial_population(&cities, 3);
    let r = Simulation::new(population, cities, 10, RATE_SCALE, 0, RATE_SCALE);
    assert!(matches!(r, Err(ConfigError::TooManySurvivors)));
}

#[test]
fn coincident_cities_give_ordered_fitness() {
    let cities = vec![City::new(0, 0), City::new(0, 0), City::new(3, 0), City::new(3, 4)];
    let short = tour(vec![0, 1, 2, 3], &cities);
    let long = tour(vec![0, 2, 1, 3], &cities);
    assert_eq!(short.fitness.length, 7);
    assert_eq!(long.fitness.length, 11);
    assert!(short.fitness.exceeds(&long.fitness));
    assert!(!long.fitness.exceeds(&short.fitness));
}

#[test]
fn all_cities_at_one_place_give_zero_length() {
    let cities = vec![City::new(5, 5), City::new(5, 5), City::new(5, 5)];
    let t = tour(vec![2, 0, 1], &cities);
    assert_eq!(t.fitness.length, 0);
    let other = Fitness { length: 1 };
    assert!(t.fitness.exceeds(&other));
}

#[test]
fn reversed_order_has_same_fitness() {
    let cities = vec![City::new(0, 0), City::new(7, 1), City::new(-3, 9), City::new(4, -6), City::new(2, 2)];
    let forward = Path::calculate_fitness(&vec![0, 2, 4, 1, 3], &cities);
    let backward = Path::calculate_fitness(&vec![3, 1, 4, 2, 0], &cities);
    assert_eq!(forward, backward);
}

#[test]
fn fitness_sums_open_path_edges() {
    let cities = unit_square();
    assert_eq!(Path::calculate_fitness(&vec![0, 1, 2, 3], &cities).length, 3000);
    assert_eq!(Path::calculate_fitness(&vec![0, 2, 1, 3], &cities).length, 1414 + 1000 + 1414);
    assert_eq!(Path::calculate_fitness(&vec![2], &cities).length, 0);
}

#[test]
fn distances_round_down() {
    assert_eq!(City::new(0, 0).distance_to(&City::new(3, 4)), 5);
    assert_eq!(City::new(1, 1).distance_to(&City::new(2, 2)), 1);
    assert_eq!(City::new(i32::MIN, i32::MIN).distance_to(&City::new(i32::MAX, i32::MAX)), 6074000998);
    assert_eq!(isqrt(0), 0);
    assert_eq!(isqrt(99), 9);
    assert_eq!(isqrt(100), 10);
}

#[test]
fn crossover_takes_mother_prefix_then_father_rest() {
    let child = Path::crossover_order(&vec![0, 1, 2, 3, 4], &vec![4, 3, 2, 1, 0], 2);
    assert_eq!(child, vec![0, 1, 4, 3, 2]);
    let whole_father = Path::crossover_order(&vec![0, 1, 2, 3, 4], &vec![3, 0, 4, 1, 2], 0);
    assert_eq!(whole_father, vec![3, 0, 4, 1, 2]);
}

#[test]
fn breed_at_recomputes_fitness() {
    let cities = unit_square();
    let mother = tour(vec![0, 2, 1, 3], &cities);
    let father = tour(vec![3, 2, 1, 0], &cities);
    let child = mother.breed_at(&father, &cities, 1);
    assert_eq!(child.order, vec![0, 3, 2, 1]);
    assert_eq!(child.fitness.length, 3000);
}

#[test]
fn breed_yields_permutations() {
    let cities: Vec<City> = (0..9).map(|i| City::new(i * 10, (i * i) % 7)).collect();
    let population = initial_population(&cities, 10);
    for a in &population {
        for b in &population {
            let child = a.breed(b, &cities);
            assert!(is_permutation(&child.order, 9));
            assert!(is_valid_tour(&child, &cities));
        }
    }
}

#[test]
fn mutate_at_swaps_two_entries() {
    let cities = unit_square();
    let mut t = tour(vec![0, 1, 2, 3], &cities);
    t.mutate_at(&cities, 1, 3);
    assert_eq!(t.order, vec![0, 3, 2, 1]);
    assert_eq!(t.fitness.length, 3000);
    t.mutate_at(&cities, 2, 2);
    assert_eq!(t.order, vec![0, 3, 2, 1]);
}

#[test]
fn mutate_keeps_permutation() {
    let cities: Vec<City> = (0..6).map(|i| City::new(i, 2 * i)).collect();
    let mut t = tour(vec![5, 4, 3, 2, 1, 0], &cities);
    for _ in 0..50 {
        t.mutate(&cities);
        assert!(is_permutation(&t.order, 6));
        assert!(is_valid_tour(&t, &cities));
    }
}

#[test]
fn initial_population_holds_valid_tours() {
    let cities = unit_square();
    let population = initial_population(&cities, 12);
    assert_eq!(population.len(), 12);
    for p in &population {
        assert!(is_permutation(&p.order, 4));
        assert!(is_valid_tour(p, &cities));
    }
}

#[test]
fn counts_follow_rates() {
    assert_eq!(breeding_count(100, 800_000), 80);
    assert_eq!(surviving_parent_count(80, 200_000), 16);
    assert_eq!(breeding_count(3, 500_000), 1);
    assert_eq!(breeding_count(7, RATE_SCALE), 7);
    assert_eq!(surviving_parent_count(9, 0), 0);
}

#[test]
fn find_fittest_of_one_is_that_tour() {
    let cities = unit_square();
    let only = tour(vec![0, 2, 1, 3], &cities);
    let sim = Simulation {
        population: vec![only.clone()],
        city_list: cities,
        max_iterations: 1,
        crossover_rate: RATE_SCALE,
        mutation_rate: 0,
        survival_rate: 0,
    };
    let f = sim.find_fittest();
    assert_eq!(f.order, only.order);
    assert_eq!(f.fitness, only.fitness);
}

#[test]
fn find_fittest_keeps_first_of_equals() {
    let cities = unit_square();
    let sim = Simulation::new(
        vec![
            tour(vec![0, 2, 1, 3], &cities),
            tour(vec![0, 1, 2, 3], &cities),
            tour(vec![3, 2, 1, 0], &cities),
        ],
        cities,
        1,
        RATE_SCALE,
        0,
        0,
    )
    .unwrap();
    let f = sim.find_fittest();
    assert_eq!(f.order, vec![0, 1, 2, 3]);
}

#[test]
fn sort_puts_fittest_first_and_keeps_ties_in_order() {
    let cities = unit_square();
    let mut population = vec![
        tour(vec![0, 2, 1, 3], &cities),
        tour(vec![0, 1, 2, 3], &cities),
        tour(vec![1, 3, 0, 2], &cities),
        tour(vec![3, 2, 1, 0], &cities),
    ];
    sort_by_fitness(&mut population);
    let orders: Vec<Vec<usize>> = population.iter().map(|p| p.order.clone()).collect();
    assert_eq!(orders, vec![vec![0, 1, 2, 3], vec![3, 2, 1, 0], vec![0, 2, 1, 3], vec![1, 3, 0, 2]]);
}

#[test]
fn generation_keeps_size_elites_and_two_least_fit() {
    let cities: Vec<City> = (0..7).map(|i| City::new(i * 100, (i * 37) % 200)).collect();
    let population = initial_population(&cities, 10);
    let mut sorted = population.clone();
    sort_by_fitness(&mut sorted);
    let mut sim = Simulation::new(population, cities.clone(), 1, 500_000, 0, 400_000).unwrap();
    sim.generate_next_generation();
    assert_eq!(sim.population.len(), 10);
    // five breed, two of them survive as elites
    assert_eq!(sim.population[0].fitness, sorted[0].fitness);
    assert_eq!(sim.population[1].fitness, sorted[1].fitness);
    assert_eq!(sim.population[8].order, sorted[8].order);
    assert_eq!(sim.population[9].order, sorted[9].order);
    for p in &sim.population {
        assert!(is_valid_tour(p, &cities));
    }
}

#[test]
fn generations_with_full_mutation_stay_valid() {
    let cities: Vec<City> = (0..8).map(|i| City::new((i * 53) % 11, (i * 29) % 13)).collect();
    let population = initial_population(&cities, 9);
    let mut sim = Simulation::new(population, cities.clone(), 5, 700_000, RATE_SCALE, 300_000).unwrap();
    for _ in 0..5 {
        sim.generate_next_generation();
        assert_eq!(sim.population.len(), 9);
        for p in &sim.population {
            assert!(is_permutation(&p.order, 8));
            assert!(is_valid_tour(p, &cities));
        }
    }
}

#[test]
fn configuration_errors() {
    let cities = unit_square();
    let r = Simulation::new(initial_population(&cities, 5), vec![], 1, 500_000, 0, 0);
    assert!(matches!(r, Err(ConfigError::NoCities)));
    let r = Simulation::new(initial_population(&cities, 5), cities.clone(), 1, RATE_SCALE + 1, 0, 0);
    assert!(matches!(r, Err(ConfigError::RateOutOfRange)));
    let r = Simulation::new(initial_population(&cities, 5), cities.clone(), 1, 0, RATE_SCALE + 1, 0);
    assert!(matches!(r, Err(ConfigError::RateOutOfRange)));
    let r = Simulation::new(initial_population(&cities, 2), cities.clone(), 1, 500_000, 0, 0);
    assert!(matches!(r, Err(ConfigError::PopulationTooSmall)));
    let mut bad = initial_population(&cities, 4);
    bad[2].order = vec![0, 1, 1, 3];
    let r = Simulation::new(bad, cities.clone(), 1, 500_000, 0, 0);
    assert!(matches!(r, Err(ConfigError::InvalidTour)));
    let mut stale = initial_population(&cities, 4);
    stale[0].fitness = Fitness { length: 1 };
    let r = Simulation::new(stale, cities.clone(), 1, 500_000, 0, 0);
    assert!(matches!(r, Err(ConfigError::InvalidTour)));
    let r = Simulation::new(initial_population(&cities, 4), cities.clone(), 1, 200_000, 0, 0);
    assert!(matches!(r, Err(ConfigError::NoBreedingPool)));
    let r = Simulation::new(initial_population(&cities, 4), cities.clone(), 1, 250_000, 0, 0);
    assert!(r.is_ok());
}

#[test]
fn invalid_tours_are_detected() {
    let cities = unit_square();
    assert!(is_valid_tour(&tour(vec![1, 0, 3, 2], &cities), &cities));
    let short = Path { fitness: Fitness { length: 1000 }, order: vec![0, 1] };
    assert!(!is_valid_tour(&short, &cities));
    let out_of_range = Path { fitness: Fitness { length: 0 }, order: vec![0, 1, 2, 4] };
    assert!(!is_valid_tour(&out_of_range, &cities));
}

#[test]
fn run_with_no_iterations_returns_first_fittest_and_keeps_population() {
    let cities: Vec<City> = (0..6).map(|i| City::new(i * 300, (i * 170) % 500)).collect();
    let population = initial_population(&cities, 8);
    let before: Vec<Vec<usize>> = population.iter().map(|p| p.order.clone()).collect();
    let mut sim = Simulation::new(population, cities, 0, 800_000, 10_000, 200_000).unwrap();
    let expected = sim.find_fittest();
    let best = sim.run();
    let after: Vec<Vec<usize>> = sim.population.iter().map(|p| p.order.clone()).collect();
    assert_eq!(after, before);
    assert_eq!(best.order, expected.order);
    assert_eq!(best.fitness, expected.fitness);
    assert_eq!(sim.max_iterations, 0);
}

#[test]
fn run_result_is_at_least_as_fit_as_start_and_end() {
    let cities: Vec<City> = (0..7).map(|i| City::new((i * 431) % 1000, (i * 617) % 1000)).collect();
    let population = initial_population(&cities, 12);
    let start_best = population.iter().map(|p| p.fitness.length).min().unwrap();
    let mut sim = Simulation::new(population, cities.clone(), 15, 700_000, 50_000, 300_000).unwrap();
    let best = sim.run();
    assert!(best.fitness.length <= start_best);
    for p in &sim.population {
        assert!(best.fitness.length <= p.fitness.length);
    }
    assert!(is_valid_tour(&best, &cities));
    assert_eq!(sim.max_iterations, 15);
    assert_eq!(sim.crossover_rate, 700_000);
    assert_eq!(sim.mutation_rate, 50_000);
    assert_eq!(sim.survival_rate, 300_000);
}
