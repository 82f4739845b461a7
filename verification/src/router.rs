//! The stochastic router: builds one connection per pin pair by a biased
//! random walk over the grid. Direction weights combine an occupancy
//! factor, a distance factor favoring steps toward the target, a ban on
//! immediate backtracking, and a straightness bonus; weights are kept as
//! exact integers on a common denominator. A step budget bounds the walk;
//! if the budget runs out, a deterministic completion joins the current
//! point to the target so the router always terminates.

use vstd::prelude::*;
use crate::connection::{
    Connection, Segment, adjacent_distinct, lengths_positive, prefixes_on_grid, push_seg,
    walk_from, wf_connection,
};
use crate::geometry::{
    Direction, lemma_delta_mul, lemma_invert_cases, manhattan, manhattan_distance,
    move_direction, moved, on_grid, pt, spec_invert,
};
use crate::individual::Individual;
use crate::rng::{rng_below, rng_from_entropy, rng_from_seed};

verus! {

/// Occupancy scale, in tenths: a free neighbor cell weighs 1.0.
pub const FREE_FACTOR_TENTHS: u64 = 10;

/// Occupancy scale, in tenths: an already-occupied neighbor weighs 0.1.
pub const COLLISION_FACTOR_TENTHS: u64 = 1;

/// Distance scale, in tenths: landing exactly on the target weighs 10.0
/// instead of the reciprocal distance.
pub const TARGET_FACTOR_TENTHS: u64 = 100;

/// Straightness bonus, in tenths: each cell already consumed by the
/// connection adds 0.5 to the currently best direction(s).
pub const STEP_BONUS_HALVES: u64 = 5;

/// The walk's step budget cap.
pub const FUEL_CAP: u32 = 0x4000_0000;

/// An upper bound on any single direction weight, used to sum the four
/// weights without overflow.
pub const MAX_STEP_WEIGHT: u128 = 0x4000_0000_0000_0000_0000_0000_0000;

/// The occupancy scratch map has one row per grid row and one cell per
/// grid column.
pub open spec fn map_wf(m: Vec<Vec<bool>>, dims: (u32, u32)) -> bool {
    m@.len() == dims.0 && forall|i: int| 0 <= i < m@.len() ==> (#[trigger] m@[i])@.len() == dims.1
}

/// A fresh occupancy map for the given grid, with every cell free.
#[verifier::loop_isolation(false)]
pub fn new_map(dims: (u32, u32)) -> (m: Vec<Vec<bool>>)
    ensures
        map_wf(m, dims),
        forall|i: int, j: int|
            0 <= i < dims.0 && 0 <= j < dims.1 ==> !occupied_at(m, (i, j)),
{
    let mut m: Vec<Vec<bool>> = Vec::new();
    let mut i: u32 = 0;
    while i < dims.0
        invariant
            i <= dims.0,
            m@.len() == i,
            forall|k: int| 0 <= k < m@.len() ==> (#[trigger] m@[k])@.len() == dims.1,
            forall|k: int, j: int|
                0 <= k < m@.len() && 0 <= j < dims.1 ==> !(#[trigger] m@[k]@[j]),
        decreases dims.0 - i,
    {
        let mut row: Vec<bool> = Vec::new();
        let mut j: u32 = 0;
        while j < dims.1
            invariant
                j <= dims.1,
                row@.len() == j,
                forall|k: int| 0 <= k < row@.len() ==> !(#[trigger] row@[k]),
            decreases dims.1 - j,
        {
            row.push(false);
            j = j + 1;
        }
        let ghost pre = m@;
        m.push(row);
        proof {
            assert forall|k: int, j: int|
                0 <= k < m@.len() && 0 <= j < dims.1 implies !(#[trigger] m@[k]@[j]) by {
                if k < pre.len() {
                    assert(m@[k] == pre[k]);
                } else {
                    assert(m@[k] == row);
                    assert(!row@[j]);
                }
            }
        }
        i = i + 1;
    }
    proof {
        assert forall|k: int, j: int|
            0 <= k < dims.0 && 0 <= j < dims.1 implies !occupied_at(m, (k, j)) by {
            assert(!((m@[k])@[j]));
        }
    }
    m
}

/// Set one cell of the occupancy map; every other cell keeps its value.
pub fn mark_point(map: &mut Vec<Vec<bool>>, point: (u32, u32), val: bool, Ghost(dims): Ghost<(u32, u32)>)
    requires
        map_wf(*old(map), dims),
        on_grid(pt(point), dims),
    ensures
        map_wf(*final(map), dims),
        occupied_at(*final(map), pt(point)) == val,
        forall|i: int, j: int|
            0 <= i < dims.0 && 0 <= j < dims.1 && (i, j) != pt(point) ==> occupied_at(
                *final(map),
                (i, j),
            ) == occupied_at(*old(map), (i, j)),
{
    let r = point.0 as usize;
    let c = point.1 as usize;
    let row = &mut map[r];
    row[c] = val;
}

/// Read one cell of the occupancy map.
fn is_occupied(map: &Vec<Vec<bool>>, point: (u32, u32), Ghost(dims): Ghost<(u32, u32)>) -> (r:
    bool)
    requires
        map_wf(*map, dims),
        on_grid(pt(point), dims),
    ensures
        r == occupied_at(*map, pt(point)),
{
    let r = point.0 as usize;
    let c = point.1 as usize;
    let row = &map[r];
    row[c]
}

/// Whether a unit step in `d` from `p` stays on the grid.
pub open spec fn step_on_grid(p: (u32, u32), d: Direction, dims: (u32, u32)) -> bool {
    on_grid(moved(pt(p), d, 1), dims)
}

/// Whether the occupancy map marks the cell at `q`.
pub open spec fn occupied_at(map: Vec<Vec<bool>>, q: (int, int)) -> bool {
    map@[q.0]@[q.1]
}

/// The occupancy factor of a step landing on `q`, in tenths: the
/// collision penalty on an occupied cell, one otherwise.
pub open spec fn spec_neighbor_factor(map: Vec<Vec<bool>>, q: (int, int)) -> int {
    if occupied_at(map, q) {
        COLLISION_FACTOR_TENTHS as int
    } else {
        FREE_FACTOR_TENTHS as int
    }
}

/// The weight of one direction for the walk's first step: the occupancy
/// factor alone, zero off the grid.
pub open spec fn spec_first_weight(
    map: Vec<Vec<bool>>,
    dims: (u32, u32),
    p: (u32, u32),
    d: Direction,
) -> int {
    if !step_on_grid(p, d, dims) {
        0
    } else {
        spec_neighbor_factor(map, moved(pt(p), d, 1))
    }
}

/// One direction's weight for a walk step from `p`, before the
/// backtracking ban and the straightness bonus, scaled by ten times the
/// common denominator `spec_denom` of the neighboring distance factors:
/// zero off the grid, else the occupancy factor times the distance
/// factor, which is ten for a step landing on the target and the
/// reciprocal Manhattan distance otherwise.
pub open spec fn spec_step_weight(
    map: Vec<Vec<bool>>,
    dims: (u32, u32),
    p: (u32, u32),
    end: (u32, u32),
    d: Direction,
) -> int {
    if !step_on_grid(p, d, dims) {
        0
    } else {
        let q = moved(pt(p), d, 1);
        let nf = spec_neighbor_factor(map, q);
        let dq = manhattan(q, pt(end));
        let dn = spec_denom(manhattan(pt(p), pt(end)));
        if dq == 0 {
            nf * (10 * dn)
        } else {
            nf * (dn / dq)
        }
    }
}

/// One direction's weight with the backtracking ban applied: the
/// direction opposite to the previous step weighs nothing unless the ban
/// is relaxed.
pub open spec fn spec_banned_weight(
    map: Vec<Vec<bool>>,
    dims: (u32, u32),
    p: (u32, u32),
    end: (u32, u32),
    d: Direction,
    prev: Direction,
    relax: bool,
) -> int {
    if !relax && d == spec_invert(prev) {
        0
    } else {
        spec_step_weight(map, dims, p, end, d)
    }
}

/// The greatest of the four direction weights, in the fixed order.
pub open spec fn spec_max_weight(
    map: Vec<Vec<bool>>,
    dims: (u32, u32),
    p: (u32, u32),
    end: (u32, u32),
    prev: Direction,
    relax: bool,
) -> int {
    let wn = spec_banned_weight(map, dims, p, end, Direction::North, prev, relax);
    let ws = spec_banned_weight(map, dims, p, end, Direction::South, prev, relax);
    let we = spec_banned_weight(map, dims, p, end, Direction::East, prev, relax);
    let ww = spec_banned_weight(map, dims, p, end, Direction::West, prev, relax);
    let m1 = if ws > wn {
        ws
    } else {
        wn
    };
    let m2 = if we > m1 {
        we
    } else {
        m1
    };
    if ww > m2 {
        ww
    } else {
        m2
    }
}

/// One direction's final weight for a walk step: the banned weight, plus
/// the straightness bonus of half a point per consumed cell (scaled onto
/// the common denominator) if this direction is currently maximal.
pub open spec fn spec_dir_weight(
    map: Vec<Vec<bool>>,
    dims: (u32, u32),
    p: (u32, u32),
    end: (u32, u32),
    d: Direction,
    prev: Direction,
    steps: u32,
    relax: bool,
) -> int {
    let base = spec_banned_weight(map, dims, p, end, d, prev, relax);
    let mx = spec_max_weight(map, dims, p, end, prev, relax);
    if mx > 0 && base == mx {
        base + (steps as int * STEP_BONUS_HALVES as int) * spec_denom(
            manhattan(pt(p), pt(end)),
        )
    } else {
        base
    }
}

/// Whether a unit step in `d` from `p` stays on the grid, decided on grid
/// coordinates.
fn step_in_grid(p: (u32, u32), d: Direction, dims: (u32, u32)) -> (r: bool)
    requires
        on_grid(pt(p), dims),
    ensures
        r == step_on_grid(p, d, dims),
{
    match d {
        Direction::North => p.0 > 0,
        Direction::South => p.0 + 1 < dims.0,
        Direction::East => p.1 + 1 < dims.1,
        Direction::West => p.1 > 0,
    }
}

/// The neighbor-only weight of one direction for the walk's first step:
/// 0 off the grid, the collision factor on an occupied cell, the free
/// factor otherwise.
fn first_weight(
    p: (u32, u32),
    d: Direction,
    map: &Vec<Vec<bool>>,
    dims: (u32, u32),
) -> (w: u64)
    requires
        map_wf(*map, dims),
        on_grid(pt(p), dims),
    ensures
        w == spec_first_weight(*map, dims, p, d),
        w > 0 <==> step_on_grid(p, d, dims),
        w <= FREE_FACTOR_TENTHS,
{
    if !step_in_grid(p, d, dims) {
        0
    } else {
        let q = move_direction(p, d);
        if is_occupied(map, q, Ghost(dims)) {
            COLLISION_FACTOR_TENTHS
        } else {
            FREE_FACTOR_TENTHS
        }
    }
}

/// One direction's full weight for a walk step, before the backtracking
/// ban and the straightness bonus: the occupancy factor times the distance
/// factor, both scaled onto the common denominator `denom`; `dcur` is the
/// current Manhattan distance to the target.
fn step_weight(
    p: (u32, u32),
    end: (u32, u32),
    d: Direction,
    map: &Vec<Vec<bool>>,
    dims: (u32, u32),
    dcur: u64,
    denom: u128,
) -> (w: u128)
    requires
        map_wf(*map, dims),
        on_grid(pt(p), dims),
        on_grid(pt(end), dims),
        p != end,
        dcur == manhattan(pt(p), pt(end)),
        denom as int == spec_denom(dcur as int),
    ensures
        w == spec_step_weight(*map, dims, p, end, d),
        w > 0 <==> step_on_grid(p, d, dims),
        w <= MAX_STEP_WEIGHT,
{
    proof {
        lemma_denom_bounds(dcur as int);
    }
    if !step_in_grid(p, d, dims) {
        0
    } else {
        let q = move_direction(p, d);
        let nf: u64 = if is_occupied(map, q, Ghost(dims)) {
            COLLISION_FACTOR_TENTHS
        } else {
            FREE_FACTOR_TENTHS
        };
        let dq = manhattan_distance(q, end);
        proof {
            lemma_step_manhattan(p, q, end, d);
        }
        proof {
            if dcur >= 2 {
                assert((dcur as int - 1) * (dcur as int + 1) >= dcur as int + 1)
                    by (nonlinear_arith)
                    requires
                        dcur >= 2,
                ;
            }
        }
        let m: u128 = if dq == 0 {
            (TARGET_FACTOR_TENTHS as u128 / 10) * denom
        } else if dq < dcur {
            dcur as u128 + 1
        } else if dcur == 1 {
            1
        } else {
            dcur as u128 - 1
        };
        proof {
            // The exec factor equals the reciprocal distance factor on
            // the common denominator: the denominator is divisible by
            // every neighboring distance.
            if dq >= 1 {
                if dq < dcur {
                    assert(dq == dcur - 1);
                    vstd::arithmetic::div_mod::lemma_div_multiples_vanish(
                        dcur as int + 1,
                        dcur as int - 1,
                    );
                } else if dcur == 1 {
                    assert(dq == 2);
                    assert(spec_denom(dcur as int) == 2);
                    assert(denom == 2);
                    assert(2int / 2int == 1);
                } else {
                    assert(dq == dcur + 1);
                    vstd::arithmetic::div_mod::lemma_div_multiples_vanish(
                        dcur as int - 1,
                        dcur as int + 1,
                    );
                    vstd::arithmetic::mul::lemma_mul_is_commutative(
                        dcur as int - 1,
                        dcur as int + 1,
                    );
                }
                assert(m as int == spec_denom(dcur as int) / dq as int);
            }
            assert(m >= 1);
            assert(m as int <= 10 * denom as int);
            assert((nf as int) * (m as int) <= 10 * (10 * denom as int)) by {
                vstd::arithmetic::mul::lemma_mul_upper_bound(
                    nf as int,
                    10,
                    m as int,
                    10 * denom as int,
                );
            }
            assert((nf as int) * (m as int) >= 1) by {
                vstd::arithmetic::mul::lemma_mul_strictly_positive(nf as int, m as int);
            }
        }
        (nf as u128) * m
    }
}

/// The common denominator for the distance factors at Manhattan distance
/// `d`: every neighbor's distance is `d - 1` or `d + 1`, so their product
/// clears both reciprocals. At distance 1 the only nonzero neighbor
/// distance is 2.
pub open spec fn spec_denom(d: int) -> int {
    if d <= 1 {
        2
    } else {
        (d - 1) * (d + 1)
    }
}

proof fn lemma_denom_bounds(d: int)
    requires
        0 <= d < 0x2_0000_0000,
    ensures
        2 <= spec_denom(d) < 0x1_0000_0000_0000_0000_0000,
{
    if d > 1 {
        assert((d - 1) * (d + 1) >= 1 * 3) by (nonlinear_arith)
            requires
                d >= 2,
        ;
        assert((d - 1) * (d + 1) < 0x2_0000_0000 * 0x2_0000_0001) by (nonlinear_arith)
            requires
                2 <= d < 0x2_0000_0000,
        ;
    }
}

/// A unit step changes the Manhattan distance to any fixed target by
/// exactly one.
proof fn lemma_step_manhattan(p: (u32, u32), q: (u32, u32), end: (u32, u32), d: Direction)
    requires
        pt(q) == moved(pt(p), d, 1),
    ensures
        manhattan(pt(q), pt(end)) == manhattan(pt(p), pt(end)) + 1 || manhattan(pt(q), pt(end))
            == manhattan(pt(p), pt(end)) - 1,
{
    lemma_delta_mul(1, d);
}

/// An upper bound on a direction weight after the straightness bonus.
pub const MAX_DIR_WEIGHT: u128 = 0x100_0000_0000_0000_0000_0000_0000_0000;

/// All four direction weights for one walk step, in the fixed order
/// (North, South, East, West): occupancy and distance factors, the ban on
/// stepping back the way we just came (lifted when `relax` is set, the
/// policy for a walk that is otherwise boxed in), and the straightness
/// bonus on the currently maximal weights. `steps` is the number of cells
/// the connection has consumed in closed segments.
#[verifier::rlimit(30)]
fn step_weights(
    p: (u32, u32),
    end: (u32, u32),
    prev: Direction,
    map: &Vec<Vec<bool>>,
    dims: (u32, u32),
    steps: u32,
    relax: bool,
) -> (w: (u128, u128, u128, u128))
    requires
        map_wf(*map, dims),
        on_grid(pt(p), dims),
        on_grid(pt(end), dims),
        p != end,
        steps <= FUEL_CAP,
    ensures
        w.0 == spec_dir_weight(*map, dims, p, end, Direction::North, prev, steps, relax),
        w.1 == spec_dir_weight(*map, dims, p, end, Direction::South, prev, steps, relax),
        w.2 == spec_dir_weight(*map, dims, p, end, Direction::East, prev, steps, relax),
        w.3 == spec_dir_weight(*map, dims, p, end, Direction::West, prev, steps, relax),
        w.0 > 0 <==> step_on_grid(p, Direction::North, dims) && (relax || prev
            != Direction::South),
        w.1 > 0 <==> step_on_grid(p, Direction::South, dims) && (relax || prev
            != Direction::North),
        w.2 > 0 <==> step_on_grid(p, Direction::East, dims) && (relax || prev != Direction::West),
        w.3 > 0 <==> step_on_grid(p, Direction::West, dims) && (relax || prev != Direction::East),
        w.0 <= MAX_DIR_WEIGHT,
        w.1 <= MAX_DIR_WEIGHT,
        w.2 <= MAX_DIR_WEIGHT,
        w.3 <= MAX_DIR_WEIGHT,
{
    let dcur = manhattan_distance(p, end);
    proof {
        if dcur == 0 {
            assert(pt(p) == pt(end));
            assert(p == end);
        }
        lemma_denom_bounds(dcur as int);
    }
    let denom: u128 = if dcur <= 1 {
        2
    } else {
        (dcur - 1) as u128 * (dcur + 1) as u128
    };
    let mut wn = step_weight(p, end, Direction::North, map, dims, dcur, denom);
    let mut ws = step_weight(p, end, Direction::South, map, dims, dcur, denom);
    let mut we = step_weight(p, end, Direction::East, map, dims, dcur, denom);
    let mut ww = step_weight(p, end, Direction::West, map, dims, dcur, denom);
    if !relax {
        match prev {
            Direction::North => {
                ws = 0;
            },
            Direction::South => {
                wn = 0;
            },
            Direction::East => {
                ww = 0;
            },
            Direction::West => {
                we = 0;
            },
        }
    }
    proof {
        assert(wn as int == spec_banned_weight(*map, dims, p, end, Direction::North, prev, relax));
        assert(ws as int == spec_banned_weight(*map, dims, p, end, Direction::South, prev, relax));
        assert(we as int == spec_banned_weight(*map, dims, p, end, Direction::East, prev, relax));
        assert(ww as int == spec_banned_weight(*map, dims, p, end, Direction::West, prev, relax));
    }
    let mut mx = wn;
    if ws > mx {
        mx = ws;
    }
    if we > mx {
        mx = we;
    }
    if ww > mx {
        mx = ww;
    }
    proof {
        assert(mx as int == spec_max_weight(*map, dims, p, end, prev, relax));
    }
    if mx > 0 {
        proof {
            assert((steps as int) * (STEP_BONUS_HALVES as int) <= (FUEL_CAP as int) * (
            STEP_BONUS_HALVES as int)) by {
                vstd::arithmetic::mul::lemma_mul_inequality(
                    steps as int,
                    FUEL_CAP as int,
                    STEP_BONUS_HALVES as int,
                );
            }
            assert((steps as int * STEP_BONUS_HALVES as int) * (denom as int) <= (FUEL_CAP as int
                * STEP_BONUS_HALVES as int) * 0x1_0000_0000_0000_0000_0000) by {
                vstd::arithmetic::mul::lemma_mul_upper_bound(
                    steps as int * STEP_BONUS_HALVES as int,
                    FUEL_CAP as int * STEP_BONUS_HALVES as int,
                    denom as int,
                    0x1_0000_0000_0000_0000_0000,
                );
            }
        }
        let bonus: u128 = (steps as u128 * STEP_BONUS_HALVES as u128) * denom;
        if wn == mx {
            wn = wn + bonus;
        }
        if ws == mx {
            ws = ws + bonus;
        }
        if we == mx {
            we = we + bonus;
        }
        if ww == mx {
            ww = ww + bonus;
        }
    }
    (wn, ws, we, ww)
}

/// Map a draw from `[0, w.0 + w.1 + w.2 + w.3)` to a direction through
/// cumulative thresholds in the fixed order North, South, East, West. The
/// chosen direction always has positive weight.
fn select_direction(w: (u128, u128, u128, u128), r: u128) -> (d: Direction)
    requires
        w.0 <= MAX_DIR_WEIGHT,
        w.1 <= MAX_DIR_WEIGHT,
        w.2 <= MAX_DIR_WEIGHT,
        w.3 <= MAX_DIR_WEIGHT,
        r < w.0 + w.1 + w.2 + w.3,
    ensures
        d == Direction::North ==> w.0 > 0,
        d == Direction::South ==> w.1 > 0,
        d == Direction::East ==> w.2 > 0,
        d == Direction::West ==> w.3 > 0,
{
    if r < w.0 {
        Direction::North
    } else if r < w.0 + w.1 {
        Direction::South
    } else if r < w.0 + w.1 + w.2 {
        Direction::East
    } else {
        Direction::West
    }
}

/// Continue the run under construction by `a` cells in direction `d`:
/// extend the open segment if the direction matches, otherwise close it
/// and open a new one. Returns the new open segment and the new current
/// point. The target cell of the move must lie on the grid.
#[verifier::rlimit(30)]
fn extend_run(
    segments: &mut Vec<Segment>,
    open: Segment,
    at: (u32, u32),
    d: Direction,
    a: u32,
    Ghost(sp): Ghost<(int, int)>,
    Ghost(dims): Ghost<(u32, u32)>,
) -> (r: (Segment, (u32, u32)))
    requires
        prefixes_on_grid(sp, old(segments)@, dims),
        lengths_positive(old(segments)@),
        adjacent_distinct(old(segments)@),
        old(segments)@.len() > 0 ==> old(segments)@.last().direction != open.direction,
        open.length >= 1,
        a >= 1,
        moved(walk_from(sp, old(segments)@), open.direction, open.length as int) == pt(at),
        on_grid(pt(at), dims),
        on_grid(moved(pt(at), d, a as int), dims),
    ensures
        prefixes_on_grid(sp, final(segments)@, dims),
        lengths_positive(final(segments)@),
        adjacent_distinct(final(segments)@),
        final(segments)@.len() > 0 ==> final(segments)@.last().direction != r.0.direction,
        r.0.length >= 1,
        r.0.direction == d,
        d == open.direction ==> r.0.length == open.length + a && final(segments)@ == old(
            segments,
        )@,
        d != open.direction ==> r.0.length == a && final(segments)@ == old(segments)@.push(open),
        moved(walk_from(sp, final(segments)@), r.0.direction, r.0.length as int) == pt(r.1),
        pt(r.1) == moved(pt(at), d, a as int),
        on_grid(pt(r.1), dims),
{
    let ghost base = walk_from(sp, segments@);
    proof {
        assert(segments@.take(segments@.len() as int) =~= segments@);
        assert(on_grid(base, dims));
        lemma_delta_mul(open.length as int, open.direction);
        lemma_delta_mul(a as int, d);
        lemma_delta_mul(open.length as int + a as int, d);
        lemma_delta_mul(1, d);
    }
    let target: (u32, u32) = match d {
        Direction::North => (at.0 - a, at.1),
        Direction::South => (at.0 + a, at.1),
        Direction::East => (at.0, at.1 + a),
        Direction::West => (at.0, at.1 - a),
    };
    let same = match (d, open.direction) {
        (Direction::North, Direction::North) => true,
        (Direction::South, Direction::South) => true,
        (Direction::East, Direction::East) => true,
        (Direction::West, Direction::West) => true,
        _ => false,
    };
    if same {
        // The combined run spans two on-grid points along one axis, so the
        // summed length still fits in u32.
        let merged = Segment { length: open.length + a, direction: open.direction };
        (merged, target)
    } else {
        let ghost pre = segments@;
        push_seg(segments, open, Ghost(sp), Ghost(dims));
        proof {
            crate::connection::lemma_disp_push(pre, open);
            assert forall|k: int| 0 <= k < segments@.len() - 1 implies (#[trigger] segments@[k
                + 1]).direction != segments@[k].direction by {
                if k < pre.len() - 1 {
                    assert(segments@[k] == pre[k]);
                    assert(segments@[k + 1] == pre[k + 1]);
                }
            }
        }
        (Segment { length: a, direction: d }, target)
    }
}

/// Build one connection joining `pins.0` to `pins.1` by the biased random
/// walk, marking the cells the stochastic phase steps through as occupied
/// scratch state (which cells depends on the drawn path, so the contract
/// states that occupancy only ever grows). The target pin's cell is
/// cleared for the duration of the walk, so approaching one's own
/// destination is never penalized as a collision, and is re-marked at the
/// end. A step budget bounds the walk; if it runs out, a deterministic
/// completion joins the current point to the target along each axis (the
/// ban on backtracking is relaxed there, as it is for a walk that is
/// otherwise boxed in). The walk therefore always terminates, and the
/// returned connection telescopes from start to end for every random
/// outcome. Coincident pins yield the empty segment run: the walk loops
/// only until start reaches end, and here it already has.
#[verifier::rlimit(100)]
pub fn random_walk(
    dims: (u32, u32),
    pins: ((u32, u32), (u32, u32)),
    map: &mut Vec<Vec<bool>>,
    rng: &mut rand::rngs::StdRng,
) -> (c: Connection)
    requires
        map_wf(*old(map), dims),
        on_grid(pt(pins.0), dims),
        on_grid(pt(pins.1), dims),
    ensures
        map_wf(*final(map), dims),
        occupied_at(*final(map), pt(pins.1)),
        forall|i: int, j: int|
            #![trigger occupied_at(*final(map), (i, j))]
            0 <= i < dims.0 && 0 <= j < dims.1 && occupied_at(*old(map), (i, j))
                ==> occupied_at(*final(map), (i, j)),
        c.start == pins.0,
        c.end == pins.1,
        wf_connection(c, dims),
        adjacent_distinct(c.segments@),
        pins.0 == pins.1 <==> c.segments@.len() == 0,
{
    let start = pins.0;
    let end = pins.1;
    let ghost sp = pt(start);
    mark_point(map, end, false, Ghost(dims));
    if start.0 == end.0 && start.1 == end.1 {
        mark_point(map, end, true, Ghost(dims));
        let c = Connection { start, end, segments: Vec::new() };
        proof {
            assert(c.segments@.take(0) =~= Seq::<Segment>::empty());
            assert(pt(start) == pt(end));
        }
        return c;
    }
    let wn0 = first_weight(start, Direction::North, map, dims) as u128;
    let ws0 = first_weight(start, Direction::South, map, dims) as u128;
    let we0 = first_weight(start, Direction::East, map, dims) as u128;
    let ww0 = first_weight(start, Direction::West, map, dims) as u128;
    let s0 = wn0 + ws0 + we0 + ww0;
    proof {
        if s0 == 0 {
            // No neighbor on the grid would mean a single-cell grid, which
            // cannot hold two distinct pins.
            assert(!step_on_grid(start, Direction::North, dims));
            assert(!step_on_grid(start, Direction::South, dims));
            assert(!step_on_grid(start, Direction::East, dims));
            assert(!step_on_grid(start, Direction::West, dims));
            assert(start.0 == 0 && dims.0 == 1 && start.1 == 0 && dims.1 == 1);
            assert(end.0 == 0 && end.1 == 0);
            assert(false);
        }
    }
    let r0 = rng_below(rng, s0);
    let dir0 = select_direction((wn0, ws0, we0, ww0), r0);
    let mut segments: Vec<Segment> = Vec::new();
    let mut open = Segment { length: 1, direction: dir0 };
    let mut cur = move_direction(start, dir0);
    proof {
        assert(segments@.take(0) =~= Seq::<Segment>::empty());
        lemma_delta_mul(1, dir0);
        lemma_invert_cases(dir0, dir0);
        lemma_delta_mul(1, spec_invert(dir0));
    }
    let mut steps: u32 = 1;
    let mut closed_len: u32 = 0;
    proof {
        vstd::arithmetic::mul::lemma_mul_upper_bound(
            dims.0 as int,
            0xFFFF_FFFF,
            dims.1 as int,
            0xFFFF_FFFF,
        );
    }
    let cells: u128 = dims.0 as u128 * dims.1 as u128;
    let budget: u128 = 4 * cells + 4;
    let fuel: u32 = if budget > FUEL_CAP as u128 {
        FUEL_CAP
    } else {
        budget as u32
    };
    while (cur.0 != end.0 || cur.1 != end.1) && steps < fuel
        invariant
            map_wf(*map, dims),
            forall|i2: int, j2: int|
                #![trigger occupied_at(*map, (i2, j2))]
                0 <= i2 < dims.0 && 0 <= j2 < dims.1 && (i2, j2) != pt(end) && occupied_at(
                    *old(map),
                    (i2, j2),
                ) ==> occupied_at(*map, (i2, j2)),
            sp == pt(start),
            on_grid(pt(cur), dims),
            on_grid(pt(end), dims),
            prefixes_on_grid(sp, segments@, dims),
            lengths_positive(segments@),
            adjacent_distinct(segments@),
            segments@.len() > 0 ==> segments@.last().direction != open.direction,
            open.length >= 1,
            moved(walk_from(sp, segments@), open.direction, open.length as int) == pt(cur),
            on_grid(moved(pt(cur), spec_invert(open.direction), 1), dims),
            closed_len as int + open.length as int == steps as int,
            1 <= steps <= fuel,
            fuel <= FUEL_CAP,
        decreases fuel - steps,
    {
        proof {
            assert(cur != end);
        }
        let w1 = step_weights(cur, end, open.direction, map, dims, closed_len, false);
        let mut w = w1;
        let mut wsum = w.0 + w.1 + w.2 + w.3;
        if wsum == 0 {
            // Boxed in by walls and the backtracking ban: relax the ban,
            // which re-admits at least the cell we just came from.
            w = step_weights(cur, end, open.direction, map, dims, closed_len, true);
            wsum = w.0 + w.1 + w.2 + w.3;
            proof {
                assert(step_on_grid(cur, spec_invert(open.direction), dims));
                match open.direction {
                    Direction::North => {
                        assert(w.1 > 0);
                    },
                    Direction::South => {
                        assert(w.0 > 0);
                    },
                    Direction::East => {
                        assert(w.3 > 0);
                    },
                    Direction::West => {
                        assert(w.2 > 0);
                    },
                }
            }
        }
        let rr = rng_below(rng, wsum);
        let dir = select_direction(w, rr);
        proof {
            match dir {
                Direction::North => {
                    assert(step_on_grid(cur, Direction::North, dims));
                },
                Direction::South => {
                    assert(step_on_grid(cur, Direction::South, dims));
                },
                Direction::East => {
                    assert(step_on_grid(cur, Direction::East, dims));
                },
                Direction::West => {
                    assert(step_on_grid(cur, Direction::West, dims));
                },
            }
        }
        mark_point(map, cur, true, Ghost(dims));
        if !(dir == open.direction) {
            closed_len = closed_len + open.length;
        }
        let moved_to = extend_run(&mut segments, open, cur, dir, 1, Ghost(sp), Ghost(dims));
        proof {
            lemma_invert_cases(dir, dir);
            lemma_delta_mul(1, dir);
            lemma_delta_mul(1, spec_invert(dir));
        }
        open = moved_to.0;
        cur = moved_to.1;
        steps = steps + 1;
    }
    if cur.0 != end.0 || cur.1 != end.1 {
        // Step budget exhausted: complete deterministically, one axis at a
        // time, toward the target.
        if cur.0 != end.0 {
            let (d, a) = if end.0 > cur.0 {
                (Direction::South, end.0 - cur.0)
            } else {
                (Direction::North, cur.0 - end.0)
            };
            proof {
                lemma_delta_mul(a as int, d);
            }
            let moved_to = extend_run(&mut segments, open, cur, d, a, Ghost(sp), Ghost(dims));
            open = moved_to.0;
            cur = moved_to.1;
        }
        if cur.1 != end.1 {
            let (d, a) = if end.1 > cur.1 {
                (Direction::East, end.1 - cur.1)
            } else {
                (Direction::West, cur.1 - end.1)
            };
            proof {
                lemma_delta_mul(a as int, d);
            }
            let moved_to = extend_run(&mut segments, open, cur, d, a, Ghost(sp), Ghost(dims));
            open = moved_to.0;
            cur = moved_to.1;
        }
    }
    let ghost pre = segments@;
    proof {
        lemma_delta_mul(open.length as int, open.direction);
    }
    push_seg(&mut segments, open, Ghost(sp), Ghost(dims));
    proof {
        crate::connection::lemma_disp_push(pre, open);
        assert forall|k: int| 0 <= k < segments@.len() - 1 implies (#[trigger] segments@[k
            + 1]).direction != segments@[k].direction by {
            if k < pre.len() - 1 {
                assert(segments@[k] == pre[k]);
                assert(segments@[k + 1] == pre[k + 1]);
            }
        }
        assert forall|k: int| 0 <= k < segments@.len() implies (#[trigger] segments@[k]).length
            >= 1 by {
            if k < pre.len() {
                assert(segments@[k] == pre[k]);
            }
        }
    }
    mark_point(map, end, true, Ghost(dims));
    let c = Connection { start, end, segments };
    proof {
        assert(walk_from(sp, c.segments@) == pt(end));
        assert forall|i: int| 0 <= i <= c.segments@.len() implies on_grid(
            #[trigger] crate::connection::point_after(c, i),
            dims,
        ) by {
            assert(on_grid(walk_from(sp, c.segments@.take(i)), dims));
        }
    }
    c
}

/// Build one candidate solution: pre-mark every pin cell occupied, then
/// route each pin pair in order. With a seed, every pair's walk draws from
/// a fresh stream seeded by that same seed; without one, each walk draws
/// from entropy.
#[verifier::loop_isolation(false)]
pub fn generate_individual(
    dimensions: (u32, u32),
    pin_locations: Vec<((u32, u32), (u32, u32))>,
    seed: Option<u64>,
) -> (r: Individual)
    requires
        forall|i: int|
            0 <= i < pin_locations@.len() ==> on_grid(
                pt((#[trigger] pin_locations@[i]).0),
                dimensions,
            ) && on_grid(pt(pin_locations@[i].1), dimensions),
    ensures
        r.dimensions == dimensions,
        crate::individual::matches_pins(r, pin_locations@),
        crate::individual::ind_wf(r),
        forall|i: int|
            0 <= i < pin_locations@.len() ==> adjacent_distinct(
                (#[trigger] r.connections@[i]).segments@,
            ),
{
    let mut connections: Vec<Connection> = Vec::new();
    let mut point_map = new_map(dimensions);
    let n = pin_locations.len();
    let mut i: usize = 0;
    while i < n
        invariant
            i <= n,
            map_wf(point_map, dimensions),
        decreases n - i,
    {
        let pair = pin_locations[i];
        mark_point(&mut point_map, pair.0, true, Ghost(dimensions));
        mark_point(&mut point_map, pair.1, true, Ghost(dimensions));
        i = i + 1;
    }
    let mut k: usize = 0;
    while k < n
        invariant
            k <= n,
            map_wf(point_map, dimensions),
            connections@.len() == k,
            forall|j: int|
                0 <= j < k ==> (#[trigger] connections@[j]).start == pin_locations@[j].0
                    && connections@[j].end == pin_locations@[j].1 && wf_connection(
                    connections@[j],
                    dimensions,
                ) && adjacent_distinct(connections@[j].segments@),
        decreases n - k,
    {
        let pair = pin_locations[k];
        let mut walk_rng = match seed {
            Some(s) => rng_from_seed(s),
            None => rng_from_entropy(),
        };
        let c = random_walk(dimensions, pair, &mut point_map, &mut walk_rng);
        connections.push(c);
        k = k + 1;
    }
    Individual { connections, dimensions }
}

} // verus!
