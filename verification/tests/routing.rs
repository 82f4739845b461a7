use wire_router::connection::{Connection, Segment};
use wire_router::geometry::Direction;
use wire_router::router::generate_individual;

fn walk_end(c: &Connection) -> (u32, u32) {
    let mut point = c.start;
    for seg in c.segments.iter() {
        match seg.direction {
            Direction::North => point.0 -= seg.length,
            Direction::South => point.0 += seg.length,
            Direction::East => point.1 += seg.length,
            Direction::West => point.1 -= seg.length,
        }
    }
    point
}

fn assert_canonical(c: &Connection) {
    for seg in c.segments.iter() {
        assert!(seg.length >= 1);
    }
    for w in c.segments.windows(2) {
        assert_ne!(w[0].direction, w[1].direction);
    }
}

const ROLL_03: u32 = 1288490188; // 0.3 of the fixed-point roll range
const ROLL_07: u32 = 3006477107; // 0.7 of the fixed-point roll range

fn setup() -> wire_router::individual::Individual {
    let mut pin_locations = vec![];
    pin_locations.push(((1, 3), (5, 3)));
    generate_individual((6, 6), pin_locations, Some(1))
}

#[test]
fn test_mutation() {
    let mut individual = setup();

    individual.connections[0].mutate_segment((ROLL_03, ROLL_07), (6, 6));
    assert_eq!(walk_end(&individual.connections[0]), (5, 3));

    for i in 0..100000 {
        let mut pin_locations = vec![];
        pin_locations.push(((1, 3), (5, 3)));
        individual = generate_individual((6, 6), pin_locations, Some(i));
        assert_eq!(walk_end(&individual.connections[0]), (5, 3));
        individual.connections[0].mutate_segment((ROLL_03, ROLL_07), (6, 6));
        assert_eq!(walk_end(&individual.connections[0]), (5, 3));
        assert_canonical(&individual.connections[0]);
        println!("------------------------------");
    }
}

#[test]
fn test_find_point() {
    let connection = Connection {
        start: (1, 3),
        end: (5, 3),
        segments: vec![
            Segment { length: 3, direction: Direction::West },
            Segment { length: 4, direction: Direction::South },
            Segment { length: 3, direction: Direction::East },
        ],
    };
    assert_eq!(connection.find_point(0), (1, 0));
    assert_eq!(connection.find_point(1), (5, 0));
    assert_eq!(connection.find_point(2), (5, 3));
}

#[test]
fn find_point_after_each_segment() {
    // Segments [South:1, East:1, South:1] from (1, 0).
    let connection = Connection {
        start: (1, 0),
        end: (3, 1),
        segments: vec![
            Segment { length: 1, direction: Direction::South },
            Segment { length: 1, direction: Direction::East },
            Segment { length: 1, direction: Direction::South },
        ],
    };
    assert_eq!(connection.find_point(0), (2, 0));
    assert_eq!(connection.find_point(1), (2, 1));
    assert_eq!(connection.find_point(2), (3, 1));
}

#[test]
fn router_reaches_target_for_many_seeds() {
    for seed in 0..200 {
        let individual = generate_individual(
            (6, 6),
            vec![((1, 3), (5, 3)), ((0, 0), (5, 5))],
            Some(seed),
        );
        assert_eq!(individual.connections.len(), 2);
        let first = &individual.connections[0];
        assert_eq!(first.start, (1, 3));
        assert_eq!(first.end, (5, 3));
        assert_eq!(walk_end(first), (5, 3));
        let second = &individual.connections[1];
        assert_eq!(walk_end(second), (5, 5));
    }
}

#[test]
fn router_wire_at_least_manhattan_distance() {
    // Grid 6x6, single pin pair ((1,3),(5,3)), seed 1: the walk terminates
    // on the target and the wire is at least the straight-line distance 4.
    let individual = setup();
    let connection = &individual.connections[0];
    assert_eq!(walk_end(connection), (5, 3));
    let total: u64 = connection.segments.iter().map(|s| s.length as u64).sum();
    assert!(total >= 4);
}

#[test]
fn coincident_pins_give_an_empty_connection() {
    let individual = generate_individual((4, 4), vec![((2, 2), (2, 2))], Some(3));
    assert_eq!(individual.connections.len(), 1);
    let c = &individual.connections[0];
    assert_eq!(c.start, (2, 2));
    assert_eq!(c.end, (2, 2));
    assert!(c.segments.is_empty());
}

#[test]
fn router_handles_a_single_row_corridor() {
    // On a one-row grid every sideways step leaves the grid, so the walk
    // may have to relax its ban on backtracking; it must still arrive.
    for seed in 0..50 {
        let individual = generate_individual((1, 8), vec![((0, 0), (0, 6))], Some(seed));
        let c = &individual.connections[0];
        assert_eq!(walk_end(c), (0, 6));
        assert_canonical(c);
    }
}

#[test]
fn flatten_merges_same_direction() {
    let mut c = Connection {
        start: (0, 0),
        end: (0, 5),
        segments: vec![
            Segment { length: 2, direction: Direction::East },
            Segment { length: 3, direction: Direction::East },
        ],
    };
    c.flatten();
    assert_eq!(c.segments.len(), 1);
    assert_eq!(c.segments[0].length, 5);
    assert_eq!(c.segments[0].direction, Direction::East);
}

#[test]
fn flatten_cancels_opposite_directions() {
    let mut c = Connection {
        start: (2, 2),
        end: (4, 2),
        segments: vec![
            Segment { length: 1, direction: Direction::South },
            Segment { length: 2, direction: Direction::East },
            Segment { length: 2, direction: Direction::West },
            Segment { length: 1, direction: Direction::South },
        ],
    };
    c.flatten();
    assert_eq!(c.start, (2, 2));
    assert_eq!(c.end, (4, 2));
    assert_eq!(walk_end(&c), (4, 2));
    assert_eq!(c.segments.len(), 1);
    assert_eq!(c.segments[0].length, 2);
    assert_eq!(c.segments[0].direction, Direction::South);
}

#[test]
fn flatten_keeps_longer_side_of_unequal_cancellation() {
    let mut c = Connection {
        start: (0, 4),
        end: (0, 1),
        segments: vec![
            Segment { length: 1, direction: Direction::West },
            Segment { length: 4, direction: Direction::West },
            Segment { length: 2, direction: Direction::East },
        ],
    };
    c.flatten();
    assert_eq!(walk_end(&c), (0, 1));
    assert_eq!(c.segments.len(), 1);
    assert_eq!(c.segments[0].length, 3);
    assert_eq!(c.segments[0].direction, Direction::West);
    assert_canonical(&c);
}

#[test]
fn flatten_drops_zero_length_segments() {
    let mut c = Connection {
        start: (1, 1),
        end: (1, 3),
        segments: vec![
            Segment { length: 0, direction: Direction::North },
            Segment { length: 2, direction: Direction::East },
            Segment { length: 0, direction: Direction::South },
        ],
    };
    c.flatten();
    assert_eq!(c.segments.len(), 1);
    assert_eq!(c.segments[0].length, 2);
    assert_eq!(c.segments[0].direction, Direction::East);
    assert_canonical(&c);
}

#[test]
fn flatten_is_idempotent() {
    // Canonicalizing a second time changes nothing.
    let mut c = Connection {
        start: (2, 2),
        end: (4, 2),
        segments: vec![
            Segment { length: 0, direction: Direction::North },
            Segment { length: 1, direction: Direction::South },
            Segment { length: 2, direction: Direction::East },
            Segment { length: 2, direction: Direction::West },
            Segment { length: 1, direction: Direction::South },
            Segment { length: 1, direction: Direction::East },
            Segment { length: 1, direction: Direction::West },
        ],
    };
    c.flatten();
    let once = c.segments.clone();
    c.flatten();
    assert_eq!(c.segments, once);
}

#[test]
fn mutation_preserves_pins_and_canonical_form() {
    // A detour insertion never changes a connection's two pins, and the
    // flatten pass leaves no degenerate or mergeable segments.
    for roll_a in [0u32, 900_000_000, 2_500_000_000, 4_294_967_295] {
        for roll_b in [0u32, 1_000_000_000, 4_294_967_295] {
            let mut c = Connection {
                start: (2, 2),
                end: (5, 2),
                segments: vec![
                    Segment { length: 1, direction: Direction::South },
                    Segment { length: 1, direction: Direction::East },
                    Segment { length: 1, direction: Direction::South },
                    Segment { length: 1, direction: Direction::West },
                    Segment { length: 1, direction: Direction::South },
                ],
            };
            c.mutate_segment((roll_a, roll_b), (6, 6));
            assert_eq!(c.start, (2, 2));
            assert_eq!(c.end, (5, 2));
            assert_eq!(walk_end(&c), (5, 2));
            assert_canonical(&c);
        }
    }
}

#[test]
fn following_points_lists_every_cell() {
    let c = Connection {
        start: (1, 0),
        end: (3, 1),
        segments: vec![
            Segment { length: 1, direction: Direction::South },
            Segment { length: 1, direction: Direction::East },
            Segment { length: 1, direction: Direction::South },
        ],
    };
    assert_eq!(c.following_points(), vec![(1, 0), (2, 0), (2, 1), (3, 1)]);
}
