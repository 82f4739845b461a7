use wire_router::connection::{Connection, Segment};
use wire_router::geometry::Direction;
use wire_router::individual::Individual;
use wire_router::problem::{Problem, best_individual, tournament_selection};
use rand::SeedableRng;

fn straight_east(start: (u32, u32), length: u32) -> Connection {
    Connection {
        start,
        end: (start.0, start.1 + length),
        segments: vec![Segment { length, direction: Direction::East }],
    }
}

#[test]
fn evaluate_scores_length_and_segments() {
    // One eastward run of two cells: no collision, length 2, one segment.
    // In tenths: 0 * 1000 + 2 * 2 + 1 * 1 = 5.
    let individual = Individual {
        connections: vec![straight_east((0, 0), 2)],
        dimensions: (3, 3),
    };
    assert_eq!(individual.evaluate(), 5);
}

#[test]
fn evaluate_counts_collisions_once_per_repeat() {
    // Two identical wires: the second one repeats all three cells.
    // In tenths: 3 * 1000 + 2 * 4 + 1 * 2 = 3010.
    let individual = Individual {
        connections: vec![straight_east((0, 0), 2), straight_east((0, 0), 2)],
        dimensions: (3, 3),
    };
    assert_eq!(individual.evaluate(), 3010);
}

#[test]
fn collision_strictly_increases_fitness() {
    // Same lengths and segment counts; only the overlap differs.
    let apart = Individual {
        connections: vec![straight_east((0, 0), 2), straight_east((1, 0), 2)],
        dimensions: (3, 3),
    };
    let overlapping = Individual {
        connections: vec![straight_east((0, 0), 2), straight_east((0, 0), 2)],
        dimensions: (3, 3),
    };
    assert_eq!(apart.evaluate(), 10);
    assert!(overlapping.evaluate() > apart.evaluate());
}

#[test]
fn crossover_splices_the_picked_connection() {
    let mut a = Individual {
        connections: vec![straight_east((0, 0), 2), straight_east((1, 0), 2)],
        dimensions: (3, 3),
    };
    let b = Individual {
        connections: vec![straight_east((2, 0), 2), straight_east((1, 0), 2)],
        dimensions: (3, 3),
    };
    // Roll 0 picks index 0.
    a.crossover(&b, 0);
    assert_eq!(a.connections[0], b.connections[0]);
    assert_eq!(a.connections[1], straight_east((1, 0), 2));
}

#[test]
fn mutate_keeps_every_pin_pair() {
    let mut individual = Individual {
        connections: vec![straight_east((0, 0), 2), straight_east((2, 1), 1)],
        dimensions: (3, 3),
    };
    let mut rng = rand::rngs::StdRng::seed_from_u64(11);
    // A certain mutation chance: every connection gets a detour.
    individual.mutate(&mut rng, 1000);
    assert_eq!(individual.connections.len(), 2);
    assert_eq!(individual.connections[0].start, (0, 0));
    assert_eq!(individual.connections[0].end, (0, 2));
    assert_eq!(individual.connections[1].start, (2, 1));
    assert_eq!(individual.connections[1].end, (2, 2));
}

#[test]
fn tournament_of_one_returns_that_individual() {
    // A population of one: whatever the batch size, selection returns it.
    let lone = Individual { connections: vec![straight_east((1, 1), 3)], dimensions: (6, 6) };
    let fitness = lone.evaluate();
    let mut problem = Problem::new((6, 6), vec![((1, 1), (1, 4))], None).unwrap();
    problem.population.push((lone, fitness));
    for batch_size in [1usize, 2, 20] {
        let mut rng = rand::rngs::StdRng::seed_from_u64(3);
        let winner = tournament_selection(&problem, batch_size, &mut rng);
        assert_eq!(winner, problem.population[0].0);
    }
}

#[test]
fn tournament_returns_population_member() {
    let mut problem = Problem::new((6, 6), vec![((1, 1), (1, 4))], Some(5)).unwrap();
    problem.init_population(10);
    let mut rng = rand::rngs::StdRng::seed_from_u64(9);
    for _ in 0..20 {
        let winner = tournament_selection(&problem, 3, &mut rng);
        assert!(problem.population.iter().any(|e| e.0 == winner));
    }
}

#[test]
fn genetic_search_degenerate_sizes_terminate() {
    // Population of one, a single generation: the search must terminate
    // and hand back a valid individual.
    let mut problem = Problem::new((6, 6), vec![((1, 3), (5, 3))], Some(1)).unwrap();
    let (winner, fitness) = problem.genetic_search_with(1, 1, 1, Some(1));
    assert_eq!(winner.connections.len(), 1);
    assert_eq!(winner.connections[0].start, (1, 3));
    assert_eq!(winner.connections[0].end, (5, 3));
    assert_eq!(fitness, winner.evaluate());
}

#[test]
fn genetic_search_result_is_population_minimum() {
    let mut problem = Problem::new((4, 4), vec![((0, 0), (3, 3))], Some(2)).unwrap();
    let (_, fitness) = problem.genetic_search_with(8, 3, 2, Some(2));
    // Each generation entirely replaces the old population.
    assert_eq!(problem.population.len(), 8);
    assert!(problem.population.iter().all(|e| fitness <= e.1));
}

#[test]
fn tournament_with_full_batch_returns_global_minimum() {
    // A sample of min(batch, len) distinct entries with batch >= len is
    // the whole population, so the winner has globally minimal fitness.
    let mut problem = Problem::new((6, 6), vec![((1, 1), (1, 4))], Some(21)).unwrap();
    problem.init_population(7);
    let global_min = problem.population.iter().map(|e| e.1).min().unwrap();
    for trial in 0..10u64 {
        let mut rng = rand::rngs::StdRng::seed_from_u64(trial);
        let winner = tournament_selection(&problem, 7, &mut rng);
        assert_eq!(winner.evaluate(), global_min);
    }
}

#[test]
fn random_search_seeded_runs_are_identical() {
    // With a base seed, two full runs give bit-identical results.
    let problem = Problem::new((6, 6), vec![((1, 3), (5, 3)), ((0, 0), (4, 4))], Some(77))
        .unwrap();
    let first = problem.random_search(40);
    let second = problem.random_search(40);
    assert_eq!(first.0, second.0);
    assert_eq!(first.1, second.1);
}

#[test]
fn random_search_returns_scored_best() {
    let problem = Problem::new((6, 6), vec![((1, 3), (5, 3))], Some(13)).unwrap();
    let (winner, fitness) = problem.random_search(25);
    assert_eq!(winner.connections.len(), 1);
    assert_eq!(winner.connections[0].start, (1, 3));
    assert_eq!(winner.connections[0].end, (5, 3));
    assert_eq!(fitness, winner.evaluate());
}

#[test]
fn best_individual_picks_minimal_fitness() {
    let a = Individual { connections: vec![straight_east((0, 0), 2)], dimensions: (3, 3) };
    let b = Individual {
        connections: vec![straight_east((0, 0), 2), straight_east((0, 0), 2)],
        dimensions: (3, 3),
    };
    let fa = a.evaluate();
    let fb = b.evaluate();
    let best = best_individual(vec![(b, fb), (a, fa)]).unwrap();
    assert_eq!(best.1, fa);
    assert!(best_individual(Vec::new()).is_none());
}
