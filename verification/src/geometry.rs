//! The 4-connected grid model: directions, unit steps, and Manhattan distance.

use vstd::prelude::*;

verus! {

/// One of the four axis directions a wire segment can run in.
#[derive(Copy, Clone, Debug, PartialEq, Eq, Structural)]
pub enum Direction {
    North,
    South,
    East,
    West,
}

/// Row delta of a unit step in direction `d` (rows grow southward).
pub open spec fn delta_row(d: Direction) -> int {
    match d {
        Direction::North => -1,
        Direction::South => 1,
        Direction::East => 0,
        Direction::West => 0,
    }
}

/// Column delta of a unit step in direction `d` (columns grow eastward).
pub open spec fn delta_col(d: Direction) -> int {
    match d {
        Direction::North => 0,
        Direction::South => 0,
        Direction::East => 1,
        Direction::West => -1,
    }
}

/// The direction opposite to `d`.
pub open spec fn spec_invert(d: Direction) -> Direction {
    match d {
        Direction::North => Direction::South,
        Direction::South => Direction::North,
        Direction::East => Direction::West,
        Direction::West => Direction::East,
    }
}

/// The direction opposite to `d` (North and South swap, East and West swap).
pub fn invert_direction(direction: Direction) -> (r: Direction)
    ensures
        r == spec_invert(direction),
{
    match direction {
        Direction::North => Direction::South,
        Direction::South => Direction::North,
        Direction::East => Direction::West,
        Direction::West => Direction::East,
    }
}

/// The point reached from `p` after `n` unit steps in direction `d`,
/// in unbounded integer coordinates.
pub open spec fn moved(p: (int, int), d: Direction, n: int) -> (int, int) {
    (p.0 + n * delta_row(d), p.1 + n * delta_col(d))
}

/// Whether `p` lies on the `dims.0` x `dims.1` grid.
pub open spec fn on_grid(p: (int, int), dims: (u32, u32)) -> bool {
    0 <= p.0 < dims.0 && 0 <= p.1 < dims.1
}

/// View of a grid point as a pair of unbounded integers.
pub open spec fn pt(p: (u32, u32)) -> (int, int) {
    (p.0 as int, p.1 as int)
}

/// Manhattan distance between two points.
pub open spec fn manhattan(a: (int, int), b: (int, int)) -> int {
    abs_diff(a.0, b.0) + abs_diff(a.1, b.1)
}

/// Absolute difference of two integers.
pub open spec fn abs_diff(a: int, b: int) -> int {
    if a >= b {
        a - b
    } else {
        b - a
    }
}

/// Multiplying a step count into a direction's deltas yields a plain
/// signed offset along exactly one axis.
pub proof fn lemma_delta_mul(n: int, d: Direction)
    ensures
        d == Direction::North ==> n * delta_row(d) == -n && n * delta_col(d) == 0,
        d == Direction::South ==> n * delta_row(d) == n && n * delta_col(d) == 0,
        d == Direction::East ==> n * delta_row(d) == 0 && n * delta_col(d) == n,
        d == Direction::West ==> n * delta_row(d) == 0 && n * delta_col(d) == -n,
{
}

/// Inverting a direction negates both deltas, and directions that are
/// neither equal nor inverse lie on different axes.
pub proof fn lemma_invert_cases(d1: Direction, d2: Direction)
    ensures
        delta_row(spec_invert(d1)) == -delta_row(d1),
        delta_col(spec_invert(d1)) == -delta_col(d1),
        spec_invert(spec_invert(d1)) == d1,
        d2 != d1 && d2 != spec_invert(d1) ==> spec_invert(d2) != d1 && spec_invert(d2)
            != spec_invert(d1),
{
}

/// One unit step from `point` in `direction`; the caller guarantees the
/// step does not leave the non-negative coordinate range.
pub fn move_direction(point: (u32, u32), direction: Direction) -> (r: (u32, u32))
    requires
        on_grid(moved(pt(point), direction, 1), (u32::MAX, u32::MAX)),
    ensures
        pt(r) == moved(pt(point), direction, 1),
{
    match direction {
        Direction::North => (point.0 - 1, point.1),
        Direction::South => (point.0 + 1, point.1),
        Direction::East => (point.0, point.1 + 1),
        Direction::West => (point.0, point.1 - 1),
    }
}

/// Manhattan distance, computed on grid coordinates.
pub fn manhattan_distance(a: (u32, u32), b: (u32, u32)) -> (r: u64)
    ensures
        r == manhattan(pt(a), pt(b)),
{
    let dr: u64 = if a.0 >= b.0 {
        (a.0 - b.0) as u64
    } else {
        (b.0 - a.0) as u64
    };
    let dc: u64 = if a.1 >= b.1 {
        (a.1 - b.1) as u64
    } else {
        (b.1 - a.1) as u64
    };
    dr + dc
}

} // verus!
