//! Path representation: a `Connection` joins a pin pair through an ordered
//! run of straight `Segment`s. The central invariant is that walking the
//! segments from `start` lands exactly on `end`.

use vstd::prelude::*;
use crate::geometry::{
    Direction, abs_diff, delta_col, delta_row, invert_direction, lemma_delta_mul,
    lemma_invert_cases, manhattan, moved, on_grid, pt, spec_invert,
};

verus! {

/// A maximal straight run of grid cells in one direction.
#[derive(Copy, Clone, Debug, PartialEq, Eq, Structural)]
pub struct Segment {
    pub length: u32,
    pub direction: Direction,
}

/// A routed path from `start` to `end`, as an ordered run of segments.
/// The empty run is a valid value of the model: it is the path of a
/// coincident pin pair, and it telescopes exactly when `start == end`.
#[derive(Debug, PartialEq, Eq)]
#[verifier::ext_equal]
pub struct Connection {
    pub start: (u32, u32),
    pub end: (u32, u32),
    pub segments: Vec<Segment>,
}

/// Total row displacement of a run of segments.
pub open spec fn disp_row(segs: Seq<Segment>) -> int
    decreases segs.len(),
{
    if segs.len() == 0 {
        0
    } else {
        disp_row(segs.drop_last()) + segs.last().length * delta_row(segs.last().direction)
    }
}

/// Total column displacement of a run of segments.
pub open spec fn disp_col(segs: Seq<Segment>) -> int
    decreases segs.len(),
{
    if segs.len() == 0 {
        0
    } else {
        disp_col(segs.drop_last()) + segs.last().length * delta_col(segs.last().direction)
    }
}

/// Sum of the segment lengths of a run.
pub open spec fn total_len(segs: Seq<Segment>) -> int
    decreases segs.len(),
{
    if segs.len() == 0 {
        0
    } else {
        total_len(segs.drop_last()) + segs.last().length
    }
}

/// The point reached by walking `segs` from `p`.
pub open spec fn walk_from(p: (int, int), segs: Seq<Segment>) -> (int, int) {
    (p.0 + disp_row(segs), p.1 + disp_col(segs))
}

/// The point reached after the first `i` segments of `c`, starting at `c.start`.
pub open spec fn point_after(c: Connection, i: int) -> (int, int) {
    walk_from(pt(c.start), c.segments@.take(i))
}

/// The telescoping invariant: the segments walk exactly from start to end.
pub open spec fn telescopes(c: Connection) -> bool {
    walk_from(pt(c.start), c.segments@) == pt(c.end)
}

/// Every segment advances by at least one cell.
pub open spec fn lengths_positive(segs: Seq<Segment>) -> bool {
    forall|i: int| 0 <= i < segs.len() ==> (#[trigger] segs[i]).length >= 1
}

/// No two consecutive segments share a direction.
pub open spec fn adjacent_distinct(segs: Seq<Segment>) -> bool {
    forall|i: int|
        0 <= i < segs.len() - 1 ==> (#[trigger] segs[i + 1]).direction != segs[i].direction
}

/// Consecutive segments are perpendicular: neither the same direction nor
/// its inverse. This is the canonical form `flatten` establishes.
pub open spec fn adjacent_perpendicular(segs: Seq<Segment>) -> bool {
    forall|i: int|
        0 <= i < segs.len() - 1 ==> (#[trigger] segs[i + 1]).direction != segs[i].direction
            && segs[i + 1].direction != spec_invert(segs[i].direction)
}

/// Every point where one segment hands over to the next lies on the grid.
pub open spec fn endpoints_on_grid(c: Connection, dims: (u32, u32)) -> bool {
    forall|i: int| 0 <= i <= c.segments@.len() ==> on_grid(#[trigger] point_after(c, i), dims)
}

/// A well-formed connection on the given grid: it telescopes from start to
/// end, every segment is non-degenerate, and it never leaves the grid.
pub open spec fn wf_connection(c: Connection, dims: (u32, u32)) -> bool {
    &&& telescopes(c)
    &&& lengths_positive(c.segments@)
    &&& endpoints_on_grid(c, dims)
}

/// The point fits in u32 coordinates.
pub open spec fn fits_u32(p: (int, int)) -> bool {
    0 <= p.0 <= u32::MAX && 0 <= p.1 <= u32::MAX
}

/// Every segment handover point of `c` fits in u32 coordinates.
pub open spec fn endpoints_fit(c: Connection) -> bool {
    forall|i: int| 0 <= i <= c.segments@.len() ==> fits_u32(#[trigger] point_after(c, i))
}

pub proof fn lemma_disp_push(segs: Seq<Segment>, s: Segment)
    ensures
        disp_row(segs.push(s)) == disp_row(segs) + s.length * delta_row(s.direction),
        disp_col(segs.push(s)) == disp_col(segs) + s.length * delta_col(s.direction),
        total_len(segs.push(s)) == total_len(segs) + s.length,
{
    assert(segs.push(s).drop_last() =~= segs);
    assert(segs.push(s).last() == s);
}

pub proof fn lemma_disp_concat(a: Seq<Segment>, b: Seq<Segment>)
    ensures
        disp_row(a + b) == disp_row(a) + disp_row(b),
        disp_col(a + b) == disp_col(a) + disp_col(b),
        total_len(a + b) == total_len(a) + total_len(b),
    decreases b.len(),
{
    if b.len() == 0 {
        assert(a + b =~= a);
    } else {
        lemma_disp_concat(a, b.drop_last());
        assert((a + b).drop_last() =~= a + b.drop_last());
        assert((a + b).last() == b.last());
    }
}

/// Walking one more segment extends the displacement by that segment.
pub proof fn lemma_disp_take_succ(segs: Seq<Segment>, i: int)
    requires
        0 <= i < segs.len(),
    ensures
        disp_row(segs.take(i + 1)) == disp_row(segs.take(i)) + segs[i].length * delta_row(
            segs[i].direction,
        ),
        disp_col(segs.take(i + 1)) == disp_col(segs.take(i)) + segs[i].length * delta_col(
            segs[i].direction,
        ),
        total_len(segs.take(i + 1)) == total_len(segs.take(i)) + segs[i].length,
{
    assert(segs.take(i + 1) =~= segs.take(i).push(segs[i]));
    lemma_disp_push(segs.take(i), segs[i]);
}

/// A run's displacement along both axes together is bounded by its total
/// length: a wire cannot end further away than it is long.
pub proof fn lemma_disp_le_total_len(segs: Seq<Segment>)
    ensures
        abs_diff(disp_row(segs), 0) + abs_diff(disp_col(segs), 0) <= total_len(segs),
        total_len(segs) >= 0,
    decreases segs.len(),
{
    if segs.len() > 0 {
        lemma_disp_le_total_len(segs.drop_last());
        let s = segs.last();
        match s.direction {
            Direction::North => {
                assert(s.length * delta_row(s.direction) == -(s.length as int));
                assert(s.length * delta_col(s.direction) == 0);
            },
            Direction::South => {
                assert(s.length * delta_row(s.direction) == s.length as int);
                assert(s.length * delta_col(s.direction) == 0);
            },
            Direction::East => {
                assert(s.length * delta_row(s.direction) == 0);
                assert(s.length * delta_col(s.direction) == s.length as int);
            },
            Direction::West => {
                assert(s.length * delta_row(s.direction) == 0);
                assert(s.length * delta_col(s.direction) == -(s.length as int));
            },
        }
    }
}

/// Any telescoping connection is at least as long as the Manhattan distance
/// between its two pins: the straight-line lower bound on wire length.
pub proof fn lemma_wire_length_lower_bound(c: Connection)
    requires
        telescopes(c),
    ensures
        total_len(c.segments@) >= manhattan(pt(c.start), pt(c.end)),
{
    lemma_disp_le_total_len(c.segments@);
}

/// The cells a single segment occupies, starting at `p`: the segment's
/// origin and every cell it passes through, excluding its final cell.
pub open spec fn seg_cells(p: (int, int), s: Segment) -> Seq<(int, int)> {
    Seq::new(s.length as nat, |i: int| moved(p, s.direction, i))
}

/// The cells a run of segments occupies when walked from `p`, excluding the
/// very last cell of the walk.
pub open spec fn cells_from(p: (int, int), segs: Seq<Segment>) -> Seq<(int, int)>
    decreases segs.len(),
{
    if segs.len() == 0 {
        Seq::empty()
    } else {
        seg_cells(p, segs.first()) + cells_from(
            moved(p, segs.first().direction, segs.first().length as int),
            segs.drop_first(),
        )
    }
}

/// Every grid cell `c` occupies, in walking order: the cells of each segment
/// followed by the end pin.
pub open spec fn conn_cells(c: Connection) -> Seq<(int, int)> {
    cells_from(pt(c.start), c.segments@) + seq![pt(c.end)]
}

/// Reading a run from the front: the first segment's displacement plus the
/// displacement of the rest.
pub proof fn lemma_disp_drop_first(segs: Seq<Segment>)
    requires
        segs.len() > 0,
    ensures
        disp_row(segs) == segs.first().length * delta_row(segs.first().direction) + disp_row(
            segs.drop_first(),
        ),
        disp_col(segs) == segs.first().length * delta_col(segs.first().direction) + disp_col(
            segs.drop_first(),
        ),
{
    let f = segs.first();
    let single = seq![f];
    assert(segs =~= single + segs.drop_first());
    lemma_disp_concat(single, segs.drop_first());
    assert(single.drop_last() =~= Seq::<Segment>::empty());
    assert(single.last() == f);
    assert(disp_row(Seq::<Segment>::empty()) == 0);
    assert(disp_col(Seq::<Segment>::empty()) == 0);
    assert(disp_row(single) == f.length * delta_row(f.direction));
    assert(disp_col(single) == f.length * delta_col(f.direction));
}

/// Appending a segment appends its cells, starting at the old walk end.
pub proof fn lemma_cells_push(p: (int, int), segs: Seq<Segment>, s: Segment)
    ensures
        cells_from(p, segs.push(s)) == cells_from(p, segs) + seg_cells(walk_from(p, segs), s),
    decreases segs.len(),
{
    if segs.len() == 0 {
        assert(segs.push(s).first() == s);
        assert(segs.push(s).drop_first() =~= Seq::<Segment>::empty());
        assert(disp_row(segs) == 0);
        assert(disp_col(segs) == 0);
        assert(walk_from(p, segs) == p);
        assert(cells_from(moved(p, s.direction, s.length as int), Seq::<Segment>::empty())
            =~= Seq::<(int, int)>::empty());
        assert(cells_from(p, segs) =~= Seq::<(int, int)>::empty());
        assert(cells_from(p, segs.push(s)) =~= cells_from(p, segs) + seg_cells(
            walk_from(p, segs),
            s,
        ));
    } else {
        let f = segs.first();
        let p2 = moved(p, f.direction, f.length as int);
        assert(segs.push(s).first() == f);
        assert(segs.push(s).drop_first() =~= segs.drop_first().push(s));
        lemma_cells_push(p2, segs.drop_first(), s);
        lemma_disp_drop_first(segs);
        assert(walk_from(p2, segs.drop_first()) == walk_from(p, segs));
        assert(cells_from(p, segs.push(s)) =~= cells_from(p, segs) + seg_cells(
            walk_from(p, segs),
            s,
        ));
    }
}

/// One more segment of a connection contributes its cells after the cells of
/// the prefix before it.
pub proof fn lemma_cells_take_succ(c: Connection, i: int)
    requires
        0 <= i < c.segments@.len(),
    ensures
        cells_from(pt(c.start), c.segments@.take(i + 1)) == cells_from(
            pt(c.start),
            c.segments@.take(i),
        ) + seg_cells(point_after(c, i), c.segments@[i]),
{
    assert(c.segments@.take(i + 1) =~= c.segments@.take(i).push(c.segments@[i]));
    lemma_cells_push(pt(c.start), c.segments@.take(i), c.segments@[i]);
}

/// Fixed-point representation of one half: random rolls are fractions of
/// 2^32, so a roll at or below this constant means "at most one half".
pub const HALF_ROLL: u32 = 0x8000_0000;

/// The fixed-point scale of random rolls: a roll `r` stands for the
/// fraction `r / 2^32` in `[0, 1)`.
pub const ROLL_ONE: u64 = 0x1_0000_0000;

/// Every walk endpoint of every prefix of `segs`, walked from `p`, lies on
/// the grid.
pub open spec fn prefixes_on_grid(p: (int, int), segs: Seq<Segment>, dims: (u32, u32)) -> bool {
    forall|k: int| 0 <= k <= segs.len() ==> on_grid(walk_from(p, #[trigger] segs.take(k)), dims)
}

/// Append one segment to a run whose prefix endpoints all lie on the grid;
/// the new walk endpoint must lie on the grid as well.
pub(crate) fn push_seg(
    out: &mut Vec<Segment>,
    s: Segment,
    Ghost(sp): Ghost<(int, int)>,
    Ghost(dims): Ghost<(u32, u32)>,
)
    requires
        prefixes_on_grid(sp, old(out)@, dims),
        on_grid(
            moved(walk_from(sp, old(out)@), s.direction, s.length as int),
            dims,
        ),
    ensures
        final(out)@ == old(out)@.push(s),
        prefixes_on_grid(sp, final(out)@, dims),
        disp_row(final(out)@) == disp_row(old(out)@) + s.length * delta_row(s.direction),
        disp_col(final(out)@) == disp_col(old(out)@) + s.length * delta_col(s.direction),
{
    proof {
        lemma_disp_push(out@, s);
    }
    let ghost pre = out@;
    out.push(s);
    proof {
        assert forall|k: int| 0 <= k <= out@.len() implies on_grid(
            walk_from(sp, #[trigger] out@.take(k)),
            dims,
        ) by {
            if k <= pre.len() {
                assert(out@.take(k) =~= pre.take(k));
            } else {
                assert(out@.take(k) =~= pre.push(s));
                assert(pre.take(pre.len() as int) =~= pre);
            }
        }
    }
}

/// The segment or connection index a fixed-point roll picks out of `n`
/// items: the roll, read as a fraction of one, times the item count.
pub open spec fn roll_index(roll: u32, n: int) -> int {
    (roll * n) / (ROLL_ONE as int)
}

/// The side of the mutation detour: perpendicular to the mutated segment,
/// one way for rolls up to one half, the other way above.
pub open spec fn spec_detour_direction(mutant: Direction, roll_a: u32) -> Direction {
    match mutant {
        Direction::North | Direction::South => if roll_a <= HALF_ROLL {
            Direction::East
        } else {
            Direction::West
        },
        Direction::East | Direction::West => if roll_a <= HALF_ROLL {
            Direction::North
        } else {
            Direction::South
        },
    }
}

/// The detour length before clipping: the roll, read as a fraction of
/// one, times the grid's row count, plus one.
pub open spec fn spec_raw_detour_len(roll_b: u32, dims: (u32, u32)) -> int {
    if dims.0 == 0 {
        1
    } else {
        (roll_b * dims.0) / (ROLL_ONE as int) + 1
    }
}

/// The detour length clipped so the jog never leaves the grid, measured
/// at `sp`, the far end of the picked segment (its near end shares the
/// jog-axis coordinate, since the jog runs perpendicular to it).
pub open spec fn spec_detour_len(
    mutant: Direction,
    roll: (u32, u32),
    dims: (u32, u32),
    sp: (int, int),
) -> int {
    let raw = spec_raw_detour_len(roll.1, dims);
    match spec_detour_direction(mutant, roll.0) {
        Direction::East => if sp.1 + raw >= dims.1 {
            dims.1 - 1 - sp.1
        } else {
            raw
        },
        Direction::West => if sp.1 < raw {
            sp.1
        } else {
            raw
        },
        Direction::North => if sp.0 < raw {
            sp.0
        } else {
            raw
        },
        Direction::South => if sp.0 + raw >= dims.0 {
            dims.0 - 1 - sp.0
        } else {
            raw
        },
    }
}

/// Where the mutation's two detour corners lie: the jog displaces the two
/// ends of the picked segment sideways by the clipped detour length.
pub open spec fn spec_detour_corners(c: Connection, roll: (u32, u32), dims: (u32, u32)) -> (
    (int, int),
    (int, int),
) {
    let idx = roll_index(roll.0, c.segments@.len() as int);
    let md = c.segments@[idx].direction;
    let dd = spec_detour_direction(md, roll.0);
    let far = point_after(c, idx + 1);
    let mv = spec_detour_len(md, roll, dims, far);
    (moved(point_after(c, idx), dd, mv), moved(far, dd, mv))
}

/// One step of canonicalization: fold segment `s` onto a canonical
/// stack. A degenerate segment vanishes; a same-direction segment merges
/// into the last; an opposite-direction segment cancels against it, the
/// longer side surviving with the length difference; a perpendicular
/// segment is appended.
pub open spec fn flatten_step(stack: Seq<Segment>, s: Segment) -> Seq<Segment> {
    if s.length == 0 {
        stack
    } else if stack.len() == 0 {
        stack.push(s)
    } else {
        let last = stack.last();
        if s.direction == last.direction {
            stack.drop_last().push(
                Segment { length: (last.length + s.length) as u32, direction: last.direction },
            )
        } else if s.direction == spec_invert(last.direction) {
            if s.length > last.length {
                stack.drop_last().push(
                    Segment { length: (s.length - last.length) as u32, direction: s.direction },
                )
            } else if s.length == last.length {
                stack.drop_last()
            } else {
                stack.drop_last().push(
                    Segment { length: (last.length - s.length) as u32, direction: last.direction },
                )
            }
        } else {
            stack.push(s)
        }
    }
}

/// The canonical form of a segment run: each segment folded onto the
/// stack, in order.
pub open spec fn spec_flatten(segs: Seq<Segment>) -> Seq<Segment>
    decreases segs.len(),
{
    if segs.len() == 0 {
        Seq::empty()
    } else {
        flatten_step(spec_flatten(segs.drop_last()), segs.last())
    }
}

/// Canonicalization is idempotent: a run that is already canonical — no
/// degenerate segment, consecutive segments perpendicular — is its own
/// canonical form, so a second `flatten` changes nothing.
pub proof fn lemma_flatten_canonical_fixed(segs: Seq<Segment>)
    requires
        lengths_positive(segs),
        adjacent_perpendicular(segs),
    ensures
        spec_flatten(segs) == segs,
    decreases segs.len(),
{
    if segs.len() == 0 {
        assert(spec_flatten(segs) =~= segs);
    } else {
        assert(forall|i: int| 0 <= i < segs.drop_last().len() ==> segs.drop_last()[i] == segs[i]);
        lemma_flatten_canonical_fixed(segs.drop_last());
        let s = segs.last();
        assert(s == segs[segs.len() - 1]);
        assert(s.length >= 1);
        if segs.len() >= 2 {
            assert(segs[segs.len() - 2 + 1].direction != segs[segs.len() - 2].direction
                && segs[segs.len() - 2 + 1].direction != spec_invert(
                segs[segs.len() - 2].direction,
            ));
            assert(segs.drop_last().last() == segs[segs.len() - 2]);
        }
        assert(flatten_step(segs.drop_last(), s) =~= segs);
    }
}

/// The walk endpoint after the first `k` segments of `out` is either a
/// handover point of `orig` or one of the two given detour corners.
spec fn detour_covered(
    sp: (int, int),
    out: Seq<Segment>,
    k: int,
    orig: Connection,
    q1: (int, int),
    q2: (int, int),
) -> bool {
    ||| exists|j: int|
        0 <= j <= orig.segments@.len() && walk_from(sp, out.take(k)) == #[trigger] point_after(
            orig,
            j,
        )
    ||| walk_from(sp, out.take(k)) == q1
    ||| walk_from(sp, out.take(k)) == q2
}

/// The walk endpoint after the first `k` segments of `out` coincides with
/// some walk endpoint of the first `hi` segments of `orig` (both from `p`).
pub open spec fn endpoint_covered(
    p: (int, int),
    out: Seq<Segment>,
    k: int,
    orig: Seq<Segment>,
    hi: int,
) -> bool {
    exists|j: int|
        0 <= j <= hi && walk_from(p, out.take(k)) == walk_from(p, #[trigger] orig.take(j))
}

impl Connection {
    /// The point reached after walking segments `0 ..= index` from `start`.
    pub fn find_point(&self, index: usize) -> (r: (u32, u32))
        requires
            index < self.segments@.len(),
            forall|i: int| 0 <= i <= index + 1 ==> fits_u32(#[trigger] point_after(*self, i)),
        ensures
            pt(r) == point_after(*self, index + 1),
    {
        let n = self.segments.len();
        let mut point: (u32, u32) = self.start;
        let mut i: usize = 0;
        proof {
            assert(self.segments@.take(0) =~= Seq::<Segment>::empty());
        }
        while i <= index
            invariant
                i <= index + 1,
                index < n,
                n == self.segments@.len(),
                forall|k: int| 0 <= k <= index + 1 ==> fits_u32(#[trigger] point_after(*self, k)),
                pt(point) == point_after(*self, i as int),
            decreases index + 1 - i,
        {
            let seg = self.segments[i];
            proof {
                lemma_disp_take_succ(self.segments@, i as int);
                assert(fits_u32(point_after(*self, i as int)));
                assert(fits_u32(point_after(*self, i + 1)));
                lemma_delta_mul(seg.length as int, seg.direction);
            }
            match seg.direction {
                Direction::North => {
                    point = (point.0 - seg.length, point.1);
                },
                Direction::South => {
                    point = (point.0 + seg.length, point.1);
                },
                Direction::East => {
                    point = (point.0, point.1 + seg.length);
                },
                Direction::West => {
                    point = (point.0, point.1 - seg.length);
                },
            }
            i = i + 1;
        }
        point
    }

    /// Every grid cell this connection occupies, in walking order from
    /// `start`, ending with the `end` pin.
    #[verifier::loop_isolation(false)]
    pub fn following_points(&self) -> (r: Vec<(u32, u32)>)
        requires
            endpoints_fit(*self),
        ensures
            r@.len() == conn_cells(*self).len(),
            forall|k: int| 0 <= k < r@.len() ==> pt(#[trigger] r@[k]) == conn_cells(*self)[k],
    {
        let n = self.segments.len();
        let mut points: Vec<(u32, u32)> = Vec::new();
        let mut point: (u32, u32) = self.start;
        let mut i: usize = 0;
        proof {
            assert(self.segments@.take(0) =~= Seq::<Segment>::empty());
        }
        while i < n
            invariant
                i <= n,
                n == self.segments@.len(),
                endpoints_fit(*self),
                pt(point) == point_after(*self, i as int),
                points@.len() == cells_from(pt(self.start), self.segments@.take(i as int)).len(),
                forall|k: int|
                    0 <= k < points@.len() ==> pt(#[trigger] points@[k]) == cells_from(
                        pt(self.start),
                        self.segments@.take(i as int),
                    )[k],
            decreases n - i,
        {
            let ghost prefix_cells = cells_from(pt(self.start), self.segments@.take(i as int));
            let seg = self.segments[i];
            proof {
                lemma_disp_take_succ(self.segments@, i as int);
                assert(fits_u32(point_after(*self, i as int)));
                assert(fits_u32(point_after(*self, i + 1)));
                lemma_delta_mul(seg.length as int, seg.direction);
            }
            let mut j: u32 = 0;
            while j < seg.length
                invariant
                    j <= seg.length,
                    points@.len() == prefix_cells.len() + j,
                    forall|k: int|
                        0 <= k < prefix_cells.len() ==> pt(#[trigger] points@[k])
                            == prefix_cells[k],
                    forall|k: int|
                        0 <= k < j ==> pt(#[trigger] points@[prefix_cells.len() + k]) == seg_cells(
                            pt(point),
                            seg,
                        )[k],
                decreases seg.length - j,
            {
                proof {
                    lemma_delta_mul(j as int, seg.direction);
                }
                let cell: (u32, u32) = match seg.direction {
                    Direction::North => (point.0 - j, point.1),
                    Direction::South => (point.0 + j, point.1),
                    Direction::East => (point.0, point.1 + j),
                    Direction::West => (point.0, point.1 - j),
                };
                proof {
                    assert(seg_cells(pt(point), seg)[j as int] == moved(
                        pt(point),
                        seg.direction,
                        j as int,
                    ));
                    assert(pt(cell) == moved(pt(point), seg.direction, j as int));
                }
                points.push(cell);
                j = j + 1;
            }
            proof {
                lemma_cells_take_succ(*self, i as int);
                assert forall|k: int| 0 <= k < points@.len() implies pt(#[trigger] points@[k])
                    == cells_from(pt(self.start), self.segments@.take(i + 1))[k] by {
                    if k < prefix_cells.len() {
                        assert(pt(points@[k]) == prefix_cells[k]);
                    } else {
                        let k2 = k - prefix_cells.len();
                        assert(pt(points@[prefix_cells.len() + k2]) == seg_cells(
                            pt(point),
                            seg,
                        )[k2]);
                    }
                }
            }
            match seg.direction {
                Direction::North => {
                    point = (point.0 - seg.length, point.1);
                },
                Direction::South => {
                    point = (point.0 + seg.length, point.1);
                },
                Direction::East => {
                    point = (point.0, point.1 + seg.length);
                },
                Direction::West => {
                    point = (point.0, point.1 - seg.length);
                },
            }
            i = i + 1;
        }
        points.push(self.end);
        proof {
            assert(self.segments@.take(n as int) =~= self.segments@);
        }
        points
    }

    /// Insert a self-cancelling perpendicular detour and re-canonicalize.
    ///
    /// `roll.0` picks the segment index (as a fraction of 2^32) and decides
    /// the detour's side; `roll.1` sizes the detour, clipped so it never
    /// leaves the grid. The detour's two new segments cancel each other, so
    /// the connection still joins the same two pins afterwards.
    #[verifier::rlimit(60)]
    pub fn mutate_segment(&mut self, roll: (u32, u32), dimensions: (u32, u32))
        requires
            wf_connection(*old(self), dimensions),
            old(self).segments@.len() >= 1,
        ensures
            final(self).start == old(self).start,
            final(self).end == old(self).end,
            wf_connection(*final(self), dimensions),
            adjacent_perpendicular(final(self).segments@),
            ({
                let n0 = old(self).segments@.len() as int;
                let idx = roll_index(roll.0, n0);
                let md = old(self).segments@[idx].direction;
                let dd = spec_detour_direction(md, roll.0);
                let mv = spec_detour_len(md, roll, dimensions, point_after(*old(self), idx + 1));
                let mid = old(self).segments@.take(idx).push(
                    (Segment { length: mv as u32, direction: dd }),
                ).push(old(self).segments@[idx]).push(
                    (Segment { length: mv as u32, direction: spec_invert(dd) }),
                ) + old(self).segments@.skip(idx + 1);
                final(self).segments@ == spec_flatten(mid)
            }),
            ({
                let corners = spec_detour_corners(*old(self), roll, dimensions);
                forall|k: int|
                    #![trigger point_after(*final(self), k)]
                    0 <= k <= final(self).segments@.len() ==> (exists|j: int|
                        0 <= j <= old(self).segments@.len() && point_after(*final(self), k)
                            == #[trigger] point_after(*old(self), j)) || point_after(
                        *final(self),
                        k,
                    ) == corners.0 || point_after(*final(self), k) == corners.1
            }),
    {
        proof {
            assert((roll.0 as int) * (self.segments@.len() as int) < (ROLL_ONE as int) * (
            self.segments@.len() as int)) by {
                vstd::arithmetic::mul::lemma_mul_strict_inequality(
                    roll.0 as int,
                    ROLL_ONE as int,
                    self.segments@.len() as int,
                );
                vstd::arithmetic::mul::lemma_mul_is_commutative(
                    roll.0 as int,
                    self.segments@.len() as int,
                );
                vstd::arithmetic::mul::lemma_mul_is_commutative(
                    ROLL_ONE as int,
                    self.segments@.len() as int,
                );
            }
            vstd::arithmetic::div_mod::lemma_multiply_divide_lt(
                roll.0 as int * self.segments@.len() as int,
                ROLL_ONE as int,
                self.segments@.len() as int,
            );
        }
        let n = self.segments.len();
        let index = ((roll.0 as u128 * n as u128) / (ROLL_ONE as u128)) as usize;
        assert(index < n);
        let mut mutation_value: u32 = if dimensions.0 == 0 {
            1
        } else {
            proof {
                assert((roll.1 as int) * (dimensions.0 as int) < (ROLL_ONE as int) * (
                dimensions.0 as int)) by {
                    vstd::arithmetic::mul::lemma_mul_strict_inequality(
                        roll.1 as int,
                        ROLL_ONE as int,
                        dimensions.0 as int,
                    );
                    vstd::arithmetic::mul::lemma_mul_is_commutative(
                        roll.1 as int,
                        dimensions.0 as int,
                    );
                    vstd::arithmetic::mul::lemma_mul_is_commutative(
                        ROLL_ONE as int,
                        dimensions.0 as int,
                    );
                }
                vstd::arithmetic::div_mod::lemma_multiply_divide_lt(
                    roll.1 as int * dimensions.0 as int,
                    ROLL_ONE as int,
                    dimensions.0 as int,
                );
            }
            ((roll.1 as u128 * dimensions.0 as u128) / (ROLL_ONE as u128)) as u32 + 1
        };
        proof {
            assert forall|i: int| 0 <= i <= index + 1 implies fits_u32(
                #[trigger] point_after(*self, i),
            ) by {
                assert(on_grid(point_after(*self, i), dimensions));
            }
        }
        let mutant_direction = self.segments[index].direction;
        let segment_point = self.find_point(index);
        proof {
            lemma_disp_take_succ(self.segments@, index as int);
            lemma_delta_mul(self.segments@[index as int].length as int, mutant_direction);
            assert(on_grid(point_after(*self, index as int), dimensions));
            assert(on_grid(point_after(*self, index + 1), dimensions));
        }
        let direction: Direction;
        match mutant_direction {
            Direction::North | Direction::South => {
                if roll.0 <= HALF_ROLL {
                    if segment_point.1 as u64 + mutation_value as u64 >= dimensions.1 as u64 {
                        mutation_value = dimensions.1 - 1 - segment_point.1;
                    }
                    direction = Direction::East;
                } else {
                    if segment_point.1 < mutation_value {
                        mutation_value = segment_point.1;
                    }
                    direction = Direction::West;
                }
            },
            Direction::East | Direction::West => {
                if roll.0 <= HALF_ROLL {
                    if segment_point.0 < mutation_value {
                        mutation_value = segment_point.0;
                    }
                    direction = Direction::North;
                } else {
                    if segment_point.0 as u64 + mutation_value as u64 >= dimensions.0 as u64 {
                        mutation_value = dimensions.0 - 1 - segment_point.0;
                    }
                    direction = Direction::South;
                }
            },
        }
        let ghost orig = *self;
        let ghost sp = pt(self.start);
        let detour = Segment { length: mutation_value, direction };
        let detour_back = Segment { length: mutation_value, direction: invert_direction(direction) };
        proof {
            lemma_delta_mul(mutation_value as int, direction);
            lemma_invert_cases(direction, direction);
            lemma_delta_mul(mutation_value as int, spec_invert(direction));
            assert(orig.segments@.take(0) =~= Seq::<Segment>::empty());
        }
        // Rebuild the segment run with the detour flanking the picked segment.
        let mut out: Vec<Segment> = Vec::new();
        let mut i: usize = 0;
        proof {
            assert(out@.take(0) =~= Seq::<Segment>::empty());
            assert(out@ =~= orig.segments@.take(0));
            assert(on_grid(point_after(orig, 0), dimensions));
            assert(walk_from(sp, out@.take(0)) == point_after(orig, 0));
        }
        while i < index
            invariant
                i <= index,
                index < orig.segments@.len(),
                *self == orig,
                sp == pt(orig.start),
                out@ == orig.segments@.take(i as int),
                prefixes_on_grid(sp, out@, dimensions),
                wf_connection(orig, dimensions),
            decreases index - i,
        {
            proof {
                lemma_disp_take_succ(orig.segments@, i as int);
                assert(walk_from(sp, out@) == point_after(orig, i as int));
                assert(on_grid(point_after(orig, i + 1), dimensions));
            }
            push_seg(&mut out, self.segments[i], Ghost(sp), Ghost(dimensions));
            proof {
                assert(out@ =~= orig.segments@.take(i + 1));
            }
            i = i + 1;
        }
        proof {
            assert(walk_from(sp, out@) == point_after(orig, index as int));
            assert(on_grid(point_after(orig, index as int), dimensions));
            assert(on_grid(point_after(orig, index + 1), dimensions));
            // The jog axis coordinate agrees at both ends of the picked
            // segment, so the clipped detour stays on the grid from either.
            lemma_delta_mul(orig.segments@[index as int].length as int, mutant_direction);
        }
        let ghost p_lo = point_after(orig, index as int);
        let ghost p_hi = point_after(orig, index + 1);
        let ghost q1 = moved(p_lo, direction, mutation_value as int);
        let ghost q2 = moved(p_hi, direction, mutation_value as int);
        proof {
            assert(on_grid(q1, dimensions));
            assert(on_grid(q2, dimensions));
            assert(index as int == roll_index(roll.0, orig.segments@.len() as int));
            assert(direction == spec_detour_direction(mutant_direction, roll.0));
            assert(mutation_value as int == spec_detour_len(
                mutant_direction,
                roll,
                dimensions,
                pt(segment_point),
            ));
            assert((q1, q2) == spec_detour_corners(orig, roll, dimensions));
        }
        push_seg(&mut out, detour, Ghost(sp), Ghost(dimensions));
        let ghost out1 = out@;
        proof {
            assert(walk_from(sp, out@) == q1);
        }
        push_seg(&mut out, self.segments[index], Ghost(sp), Ghost(dimensions));
        let ghost out2 = out@;
        proof {
            assert(walk_from(sp, out@) == q2);
        }
        push_seg(&mut out, detour_back, Ghost(sp), Ghost(dimensions));
        proof {
            assert(walk_from(sp, out@) == p_hi);
            assert(disp_row(out@) == disp_row(orig.segments@.take(index + 1)));
            assert(disp_col(out@) == disp_col(orig.segments@.take(index + 1)));
            assert(detour == (Segment {
                length: spec_detour_len(
                    mutant_direction,
                    roll,
                    dimensions,
                    point_after(orig, index + 1),
                ) as u32,
                direction: spec_detour_direction(mutant_direction, roll.0),
            }));
            assert(detour_back == (Segment {
                length: spec_detour_len(
                    mutant_direction,
                    roll,
                    dimensions,
                    point_after(orig, index + 1),
                ) as u32,
                direction: spec_invert(spec_detour_direction(mutant_direction, roll.0)),
            }));
            assert forall|k: int| 0 <= k <= out@.len() implies #[trigger] detour_covered(
                sp,
                out@,
                k,
                orig,
                q1,
                q2,
            ) by {
                if k <= index {
                    assert(out@.take(k) =~= orig.segments@.take(k));
                    assert(walk_from(sp, out@.take(k)) == point_after(orig, k));
                } else if k == index + 1 {
                    assert(out@.take(k) =~= out1);
                    assert(walk_from(sp, out@.take(k)) == q1);
                } else if k == index + 2 {
                    assert(out@.take(k) =~= out2);
                    assert(walk_from(sp, out@.take(k)) == q2);
                } else {
                    assert(out@.take(k) =~= out@);
                    assert(walk_from(sp, out@.take(k)) == point_after(orig, index + 1));
                }
            }
        }
        let ghost base3 = out@;
        proof {
            assert(out@ =~= base3 + orig.segments@.subrange(index + 1, index + 1));
        }
        let mut j: usize = index + 1;
        while j < n
            invariant
                index + 1 <= j <= n,
                n == orig.segments@.len(),
                *self == orig,
                sp == pt(orig.start),
                wf_connection(orig, dimensions),
                prefixes_on_grid(sp, out@, dimensions),
                disp_row(out@) == disp_row(orig.segments@.take(j as int)),
                disp_col(out@) == disp_col(orig.segments@.take(j as int)),
                out@ == base3 + orig.segments@.subrange(index + 1, j as int),
                forall|k: int|
                    0 <= k <= out@.len() ==> #[trigger] detour_covered(sp, out@, k, orig, q1, q2),
            decreases n - j,
        {
            proof {
                lemma_disp_take_succ(orig.segments@, j as int);
                assert(walk_from(sp, out@) == point_after(orig, j as int));
                assert(on_grid(point_after(orig, j + 1), dimensions));
            }
            let ghost pre = out@;
            push_seg(&mut out, self.segments[j], Ghost(sp), Ghost(dimensions));
            proof {
                assert(out@ =~= base3 + orig.segments@.subrange(index + 1, j + 1));
                assert forall|k: int| 0 <= k <= out@.len() implies #[trigger] detour_covered(
                    sp,
                    out@,
                    k,
                    orig,
                    q1,
                    q2,
                ) by {
                    if k <= pre.len() {
                        assert(out@.take(k) =~= pre.take(k));
                        assert(detour_covered(sp, pre, k, orig, q1, q2));
                    } else {
                        assert(out@.take(k) =~= out@);
                        assert(walk_from(sp, out@) == point_after(orig, j + 1));
                    }
                }
            }
            j = j + 1;
        }
        proof {
            assert(orig.segments@.take(n as int) =~= orig.segments@);
            assert(out@ =~= orig.segments@.take(index as int).push(detour).push(
                orig.segments@[index as int],
            ).push(detour_back) + orig.segments@.skip(index + 1));
        }
        self.segments = out;
        proof {
            assert forall|k: int| 0 <= k <= self.segments@.len() implies fits_u32(
                #[trigger] point_after(*self, k),
            ) by {
                assert(on_grid(walk_from(sp, self.segments@.take(k)), dimensions));
            }
        }
        self.flatten();
        proof {
            let flat = *self;
            assert forall|k: int| 0 <= k <= flat.segments@.len() implies on_grid(
                #[trigger] point_after(flat, k),
                dimensions,
            ) && ((exists|j: int|
                0 <= j <= orig.segments@.len() && point_after(flat, k) == #[trigger] point_after(
                    orig,
                    j,
                )) || point_after(flat, k) == q1 || point_after(flat, k) == q2) by {
                assert(endpoint_covered(sp, flat.segments@, k, out@, out@.len() as int));
                let j2 = choose|j2: int|
                    0 <= j2 <= out@.len() && walk_from(sp, flat.segments@.take(k)) == walk_from(
                        sp,
                        out@.take(j2),
                    );
                assert(on_grid(walk_from(sp, out@.take(j2)), dimensions));
                assert(detour_covered(sp, out@, j2, orig, q1, q2));
                if exists|j: int|
                    0 <= j <= orig.segments@.len() && walk_from(sp, out@.take(j2))
                        == #[trigger] point_after(orig, j) {
                    let jw = choose|j: int|
                        0 <= j <= orig.segments@.len() && walk_from(sp, out@.take(j2))
                            == #[trigger] point_after(orig, j);
                    assert(point_after(flat, k) == point_after(orig, jw));
                }
            }
        }
    }

    /// Canonicalize the segment run: drop zero-length segments, merge
    /// consecutive same-direction segments, and cancel consecutive
    /// opposite-direction segments (equal lengths delete both, unequal
    /// lengths leave the difference in the longer one's direction). The
    /// result is exactly `spec_flatten` of the input; the walk's overall
    /// displacement is unchanged, and every handover point of the result
    /// is a handover point of the input. By
    /// `lemma_flatten_canonical_fixed`, flattening twice equals
    /// flattening once. The empty run is a valid value of the model (a
    /// coincident pin pair routes to it) and is its own canonical form.
    #[verifier::loop_isolation(false)]
    #[verifier::rlimit(60)]
    pub fn flatten(&mut self)
        requires
            endpoints_fit(*old(self)),
        ensures
            final(self).start == old(self).start,
            final(self).end == old(self).end,
            disp_row(final(self).segments@) == disp_row(old(self).segments@),
            disp_col(final(self).segments@) == disp_col(old(self).segments@),
            total_len(final(self).segments@) <= total_len(old(self).segments@),
            final(self).segments@ == spec_flatten(old(self).segments@),
            lengths_positive(final(self).segments@),
            adjacent_perpendicular(final(self).segments@),
            forall|k: int|
                0 <= k <= final(self).segments@.len() ==> #[trigger] endpoint_covered(
                    pt(old(self).start),
                    final(self).segments@,
                    k,
                    old(self).segments@,
                    old(self).segments@.len() as int,
                ),
    {
        let ghost c0 = *old(self);
        let ghost sp = pt(c0.start);
        let n = self.segments.len();
        let mut out: Vec<Segment> = Vec::new();
        let mut i: usize = 0;
        proof {
            assert(out@.take(0) =~= Seq::<Segment>::empty());
            assert(c0.segments@.take(0) =~= Seq::<Segment>::empty());
            assert(endpoint_covered(sp, out@, 0, c0.segments@, 0));
            assert(out@ =~= spec_flatten(c0.segments@.take(0)));
        }
        while i < n
            invariant
                i <= n,
                *self == c0,
                disp_row(out@) == disp_row(c0.segments@.take(i as int)),
                disp_col(out@) == disp_col(c0.segments@.take(i as int)),
                total_len(out@) <= total_len(c0.segments@.take(i as int)),
                out@ == spec_flatten(c0.segments@.take(i as int)),
                lengths_positive(out@),
                adjacent_perpendicular(out@),
                forall|k: int|
                    0 <= k <= out@.len() ==> #[trigger] endpoint_covered(
                        sp,
                        out@,
                        k,
                        c0.segments@,
                        i as int,
                    ),
            decreases n - i,
        {
            let ghost out_pre = out@;
            let s = self.segments[i];
            proof {
                lemma_disp_take_succ(c0.segments@, i as int);
                lemma_delta_mul(s.length as int, s.direction);
                assert(c0.segments@.take(i + 1).drop_last() =~= c0.segments@.take(i as int));
                assert(c0.segments@.take(i + 1).last() == c0.segments@[i as int]);
                assert(spec_flatten(c0.segments@.take(i + 1)) == flatten_step(out_pre, s));
            }
            if s.length == 0 {
                // A degenerate segment contributes nothing to the walk.
            } else if out.len() == 0 {
                out.push(s);
                proof {
                    lemma_disp_push(out_pre, s);
                    assert(out@ =~= out_pre.push(s));
                }
            } else {
                let k = out.len() - 1;
                let last = out[k];
                proof {
                    lemma_delta_mul(last.length as int, last.direction);
                    lemma_invert_cases(last.direction, s.direction);
                    assert(out_pre.drop_last().push(last) =~= out_pre);
                    lemma_disp_push(out_pre.drop_last(), last);
                }
                if s.direction == last.direction {
                    proof {
                        // The merged run spans two u32-representable
                        // endpoints along one axis, so its length fits u32.
                        assert(endpoint_covered(sp, out@, k as int, c0.segments@, i as int));
                        let ja = choose|j: int|
                            0 <= j <= i && walk_from(sp, out@.take(k as int)) == walk_from(
                                sp,
                                c0.segments@.take(j),
                            );
                        assert(fits_u32(point_after(c0, ja)));
                        assert(fits_u32(point_after(c0, i + 1)));
                        assert(out_pre.take(k as int) =~= out_pre.drop_last());
                        lemma_delta_mul((last.length + s.length) as int, s.direction);
                    }
                    let merged = Segment { length: last.length + s.length, direction: last.direction };
                    out[k] = merged;
                    proof {
                        assert(out@ =~= out_pre.drop_last().push(merged));
                        lemma_disp_push(out_pre.drop_last(), merged);
                    }
                } else if s.direction == invert_direction(last.direction) {
                    if s.length > last.length {
                        let flipped = Segment { length: s.length - last.length, direction: s.direction };
                        out[k] = flipped;
                        proof {
                            assert(out@ =~= out_pre.drop_last().push(flipped));
                            lemma_disp_push(out_pre.drop_last(), flipped);
                            lemma_delta_mul((s.length - last.length) as int, s.direction);
                        }
                    } else if s.length == last.length {
                        out.pop();
                        proof {
                            assert(out@ =~= out_pre.drop_last());
                        }
                    } else {
                        let shortened = Segment { length: last.length - s.length, direction: last.direction };
                        out[k] = shortened;
                        proof {
                            assert(out@ =~= out_pre.drop_last().push(shortened));
                            lemma_disp_push(out_pre.drop_last(), shortened);
                            lemma_delta_mul((last.length - s.length) as int, last.direction);
                        }
                    }
                } else {
                    out.push(s);
                    proof {
                        lemma_disp_push(out_pre, s);
                        assert(out@ =~= out_pre.push(s));
                    }
                }
            }
            proof {
                assert forall|k: int| 0 <= k <= out@.len() implies #[trigger] endpoint_covered(
                    sp,
                    out@,
                    k,
                    c0.segments@,
                    i + 1,
                ) by {
                    if k <= out_pre.len() && out@.take(k) =~= out_pre.take(k) {
                        assert(endpoint_covered(sp, out_pre, k, c0.segments@, i as int));
                        let j = choose|j: int|
                            0 <= j <= i && walk_from(sp, out_pre.take(k)) == walk_from(
                                sp,
                                c0.segments@.take(j),
                            );
                        assert(walk_from(sp, out@.take(k)) == walk_from(
                            sp,
                            c0.segments@.take(j),
                        ));
                    } else {
                        assert(out@.take(k) =~= out@);
                        assert(walk_from(sp, out@.take(k)) == walk_from(
                            sp,
                            c0.segments@.take(i + 1),
                        ));
                    }
                }
            }
            i = i + 1;
        }
        proof {
            assert(c0.segments@.take(n as int) =~= c0.segments@);
        }
        self.segments = out;
    }
}

} // verus!
