//! One full candidate solution: a connection per pin pair plus the scoring
//! of its geometry. Fitness is a weighted sum of collisions, total wire
//! length, and segment count; lower is better.

use vstd::prelude::*;
use crate::connection::{
    Connection, ROLL_ONE, Segment, conn_cells, endpoints_fit, fits_u32, lemma_disp_le_total_len,
    point_after, roll_index, total_len, wf_connection,
};
use crate::geometry::{on_grid, pt};

verus! {

/// Collision weight, in tenths: 100.0 per colliding cell.
pub const WEIGHT_COLLISION_TENTHS: u128 = 1000;

/// Wire-length weight, in tenths: 0.2 per occupied cell of run length.
pub const WEIGHT_LENGTH_TENTHS: u128 = 2;

/// Segment-count weight, in tenths: 0.1 per segment (a turn-count proxy).
pub const WEIGHT_COUNT_TENTHS: u128 = 1;

/// One candidate solution: one connection per pin pair, in the pin-pair
/// order, on a grid of the given dimensions.
#[derive(Debug, PartialEq, Eq)]
#[verifier::ext_equal]
pub struct Individual {
    pub connections: Vec<Connection>,
    pub dimensions: (u32, u32),
}

/// Every connection of the individual is well-formed on its grid.
pub open spec fn ind_wf(ind: Individual) -> bool {
    forall|i: int|
        0 <= i < ind.connections@.len() ==> wf_connection(
            #[trigger] ind.connections@[i],
            ind.dimensions,
        )
}

/// All cells occupied by a run of connections, in walking order.
pub open spec fn cells_of_connections(cs: Seq<Connection>) -> Seq<(int, int)>
    decreases cs.len(),
{
    if cs.len() == 0 {
        Seq::empty()
    } else {
        cells_of_connections(cs.drop_last()) + conn_cells(cs.last())
    }
}

/// All cells the individual's connections occupy, in walking order.
pub open spec fn ind_cells(ind: Individual) -> Seq<(int, int)> {
    cells_of_connections(ind.connections@)
}

/// How many entries of `s` repeat an earlier entry: the geometric overlap
/// count of a cell sequence.
pub open spec fn dup_count(s: Seq<(int, int)>) -> int
    decreases s.len(),
{
    if s.len() == 0 {
        0
    } else {
        dup_count(s.drop_last()) + if s.drop_last().contains(s.last()) {
            1int
        } else {
            0int
        }
    }
}

/// Total wire length of a run of connections.
pub open spec fn conns_total_len(cs: Seq<Connection>) -> int
    decreases cs.len(),
{
    if cs.len() == 0 {
        0
    } else {
        conns_total_len(cs.drop_last()) + total_len(cs.last().segments@)
    }
}

/// Total segment count of a run of connections.
pub open spec fn conns_seg_count(cs: Seq<Connection>) -> int
    decreases cs.len(),
{
    if cs.len() == 0 {
        0
    } else {
        conns_seg_count(cs.drop_last()) + cs.last().segments@.len()
    }
}

/// The fitness formula, in tenths of the weighted score: collisions
/// dominate, then wire length, then segment count.
pub open spec fn fitness_of(collisions: int, length: int, segments: int) -> int {
    (WEIGHT_COLLISION_TENTHS as int) * collisions + (WEIGHT_LENGTH_TENTHS as int) * length + (
    WEIGHT_COUNT_TENTHS as int) * segments
}

/// The fitness of an individual, from its final segment geometry.
pub open spec fn ind_fitness(ind: Individual) -> int {
    fitness_of(
        dup_count(ind_cells(ind)),
        conns_total_len(ind.connections@),
        conns_seg_count(ind.connections@),
    )
}

/// Two connections with the same pins and the same segment run, compared
/// by contents rather than by allocation.
pub open spec fn conn_like(a: Connection, b: Connection) -> bool {
    a.start == b.start && a.end == b.end && a.segments@ == b.segments@
}

/// Two individuals with the same grid and the same connections, compared
/// by contents rather than by allocation.
pub open spec fn ind_like(a: Individual, b: Individual) -> bool {
    &&& a.dimensions == b.dimensions
    &&& a.connections@.len() == b.connections@.len()
    &&& forall|i: int|
        0 <= i < a.connections@.len() ==> conn_like(
            #[trigger] a.connections@[i],
            b.connections@[i],
        )
}

/// The individual's connections line up one-for-one with the pin-pair
/// list: connection `i` joins exactly the two pins of pair `i`.
pub open spec fn matches_pins(ind: Individual, pins: Seq<((u32, u32), (u32, u32))>) -> bool {
    &&& ind.connections@.len() == pins.len()
    &&& forall|i: int|
        0 <= i < pins.len() ==> (#[trigger] ind.connections@[i]).start == pins[i].0
            && ind.connections@[i].end == pins[i].1
}

/// Fitness is non-negative whenever its inputs are, and introducing one
/// more collision without any other change strictly increases it.
pub proof fn lemma_fitness_collision_monotone(collisions: int, length: int, segments: int)
    requires
        collisions >= 0,
        length >= 0,
        segments >= 0,
    ensures
        fitness_of(collisions, length, segments) >= 0,
        fitness_of(collisions + 1, length, segments) > fitness_of(collisions, length, segments),
{
}

/// Every individual's fitness is non-negative: all three of its inputs
/// count things.
pub proof fn lemma_ind_fitness_nonneg(ind: Individual)
    ensures
        ind_fitness(ind) >= 0,
{
    lemma_dup_count_bounds(ind_cells(ind));
    lemma_conns_nonneg(ind.connections@);
    lemma_fitness_collision_monotone(
        dup_count(ind_cells(ind)),
        conns_total_len(ind.connections@),
        conns_seg_count(ind.connections@),
    );
}

/// Duplicate counting never exceeds the sequence length.
pub proof fn lemma_dup_count_bounds(s: Seq<(int, int)>)
    ensures
        0 <= dup_count(s) <= s.len(),
    decreases s.len(),
{
    if s.len() > 0 {
        lemma_dup_count_bounds(s.drop_last());
    }
}

pub proof fn lemma_dup_count_push(s: Seq<(int, int)>, x: (int, int))
    ensures
        dup_count(s.push(x)) == dup_count(s) + if s.contains(x) {
            1int
        } else {
            0int
        },
{
    assert(s.push(x).drop_last() =~= s);
    assert(s.push(x).last() == x);
}

pub proof fn lemma_cells_of_connections_push(cs: Seq<Connection>, c: Connection)
    ensures
        cells_of_connections(cs.push(c)) == cells_of_connections(cs) + conn_cells(c),
        conns_total_len(cs.push(c)) == conns_total_len(cs) + total_len(c.segments@),
        conns_seg_count(cs.push(c)) == conns_seg_count(cs) + c.segments@.len(),
{
    assert(cs.push(c).drop_last() =~= cs);
    assert(cs.push(c).last() == c);
}

/// The number of cells a connection occupies is its total length plus one
/// (the end pin).
pub proof fn lemma_conn_cells_len(c: Connection)
    ensures
        conn_cells(c).len() == total_len(c.segments@) + 1,
{
    lemma_cells_from_len(pt(c.start), c.segments@);
    lemma_disp_le_total_len(c.segments@);
}

pub proof fn lemma_cells_from_len(p: (int, int), segs: Seq<Segment>)
    ensures
        crate::connection::cells_from(p, segs).len() == total_len(segs),
    decreases segs.len(),
{
    lemma_disp_le_total_len(segs);
    if segs.len() > 0 {
        let f = segs.first();
        lemma_cells_from_len(
            crate::geometry::moved(p, f.direction, f.length as int),
            segs.drop_first(),
        );
        lemma_total_len_drop_first(segs);
    }
}

pub proof fn lemma_total_len_drop_first(segs: Seq<Segment>)
    requires
        segs.len() > 0,
    ensures
        total_len(segs) == segs.first().length + total_len(segs.drop_first()),
{
    let f = segs.first();
    let single = seq![f];
    assert(segs =~= single + segs.drop_first());
    crate::connection::lemma_disp_concat(single, segs.drop_first());
    assert(single.drop_last() =~= Seq::<Segment>::empty());
    assert(single.last() == f);
    assert(total_len(Seq::<Segment>::empty()) == 0);
    assert(total_len(single) == f.length);
}

/// Every prefix of a run of connections occupies at most as many cells,
/// wire length, and segments as the whole run.
pub proof fn lemma_conns_prefix_bounds(cs: Seq<Connection>, i: int)
    requires
        0 <= i <= cs.len(),
    ensures
        conns_total_len(cs.take(i)) <= conns_total_len(cs),
        conns_seg_count(cs.take(i)) <= conns_seg_count(cs),
        conns_total_len(cs.take(i)) >= 0,
        conns_seg_count(cs.take(i)) >= 0,
    decreases cs.len() - i,
{
    lemma_conns_nonneg(cs.take(i));
    if i == cs.len() {
        assert(cs.take(i) =~= cs);
        lemma_conns_nonneg(cs);
    } else {
        lemma_conns_prefix_bounds(cs, i + 1);
        assert(cs.take(i + 1) =~= cs.take(i).push(cs[i]));
        lemma_cells_of_connections_push(cs.take(i), cs[i]);
        lemma_disp_le_total_len(cs[i].segments@);
    }
}

pub proof fn lemma_conns_nonneg(cs: Seq<Connection>)
    ensures
        conns_total_len(cs) >= 0,
        conns_seg_count(cs) >= 0,
    decreases cs.len(),
{
    if cs.len() > 0 {
        lemma_conns_nonneg(cs.drop_last());
        lemma_disp_le_total_len(cs.last().segments@);
    }
}

/// A run of non-degenerate segments has no more segments than total length.
pub proof fn lemma_seg_count_le_total_len(segs: Seq<Segment>)
    requires
        crate::connection::lengths_positive(segs),
    ensures
        segs.len() <= total_len(segs),
    decreases segs.len(),
{
    if segs.len() > 0 {
        assert(crate::connection::lengths_positive(segs.drop_last())) by {
            assert(forall|i: int|
                0 <= i < segs.drop_last().len() ==> segs.drop_last()[i] == segs[i]);
        }
        lemma_seg_count_le_total_len(segs.drop_last());
        assert(segs.last() == segs[segs.len() - 1]);
    }
}

/// Every connection's handover points fit the u32 coordinate range.
pub open spec fn ind_endpoints_fit(ind: Individual) -> bool {
    forall|i: int|
        0 <= i < ind.connections@.len() ==> endpoints_fit(#[trigger] ind.connections@[i])
}

/// A well-formed individual's handover points all fit in u32 coordinates.
pub proof fn lemma_ind_wf_fits(ind: Individual)
    requires
        ind_wf(ind),
    ensures
        ind_endpoints_fit(ind),
{
    assert forall|i: int| 0 <= i < ind.connections@.len() implies endpoints_fit(
        #[trigger] ind.connections@[i],
    ) by {
        let c = ind.connections@[i];
        assert forall|k: int| 0 <= k <= c.segments@.len() implies fits_u32(
            #[trigger] point_after(c, k),
        ) by {
            assert(on_grid(point_after(c, k), ind.dimensions));
        }
    }
}

/// A run of connections occupies one cell per unit of wire length plus one
/// end-pin cell per connection.
pub proof fn lemma_conns_cells_len(cs: Seq<Connection>)
    ensures
        cells_of_connections(cs).len() == conns_total_len(cs) + cs.len(),
    decreases cs.len(),
{
    if cs.len() > 0 {
        lemma_conns_cells_len(cs.drop_last());
        lemma_conn_cells_len(cs.last());
    }
}

/// A prefix of a segment run is no longer than the whole run.
pub proof fn lemma_total_len_take_le(segs: Seq<Segment>, j: int)
    requires
        0 <= j <= segs.len(),
    ensures
        0 <= total_len(segs.take(j)) <= total_len(segs),
    decreases segs.len() - j,
{
    lemma_disp_le_total_len(segs.take(j));
    if j == segs.len() {
        assert(segs.take(j) =~= segs);
    } else {
        lemma_total_len_take_le(segs, j + 1);
        crate::connection::lemma_disp_take_succ(segs, j);
    }
}

/// With no degenerate segments, a run of connections has no more segments
/// than total wire length.
pub proof fn lemma_conns_seg_le_total(cs: Seq<Connection>)
    requires
        forall|i: int|
            0 <= i < cs.len() ==> crate::connection::lengths_positive(
                (#[trigger] cs[i]).segments@,
            ),
    ensures
        conns_seg_count(cs) <= conns_total_len(cs),
    decreases cs.len(),
{
    if cs.len() > 0 {
        assert(forall|i: int| 0 <= i < cs.drop_last().len() ==> cs.drop_last()[i] == cs[i]);
        lemma_conns_seg_le_total(cs.drop_last());
        assert(cs.last() == cs[cs.len() - 1]);
        lemma_seg_count_le_total_len(cs.last().segments@);
    }
}

/// Two like connections describe the same geometry: equal cells, length,
/// and well-formedness on any grid.
pub proof fn lemma_conn_like_geometry(a: Connection, b: Connection, dims: (u32, u32))
    requires
        conn_like(a, b),
    ensures
        conn_cells(a) == conn_cells(b),
        total_len(a.segments@) == total_len(b.segments@),
        wf_connection(a, dims) <==> wf_connection(b, dims),
{
    assert forall|i: int|
        #![trigger point_after(a, i)]
        #![trigger point_after(b, i)]
        0 <= i <= a.segments@.len() implies point_after(a, i) == point_after(b, i) by {
        assert(a.segments@.take(i) == b.segments@.take(i));
    }
}

/// Two like runs of connections occupy the same cells and have the same
/// totals.
pub proof fn lemma_conns_like_cells(ca: Seq<Connection>, cb: Seq<Connection>)
    requires
        ca.len() == cb.len(),
        forall|i: int| 0 <= i < ca.len() ==> conn_like(#[trigger] ca[i], cb[i]),
    ensures
        cells_of_connections(ca) == cells_of_connections(cb),
        conns_total_len(ca) == conns_total_len(cb),
        conns_seg_count(ca) == conns_seg_count(cb),
    decreases ca.len(),
{
    if ca.len() > 0 {
        assert(forall|i: int| 0 <= i < ca.drop_last().len() ==> ca.drop_last()[i] == ca[i]);
        assert(forall|i: int| 0 <= i < cb.drop_last().len() ==> cb.drop_last()[i] == cb[i]);
        lemma_conns_like_cells(ca.drop_last(), cb.drop_last());
        assert(conn_like(ca[ca.len() - 1], cb[ca.len() - 1]));
        lemma_conn_like_geometry(ca.last(), cb.last(), (0, 0));
    }
}

/// Like individuals are interchangeable: same well-formedness, same pin
/// alignment, same fitness.
pub proof fn lemma_ind_like_interchangeable(
    a: Individual,
    b: Individual,
    pins: Seq<((u32, u32), (u32, u32))>,
)
    requires
        ind_like(a, b),
    ensures
        ind_wf(a) <==> ind_wf(b),
        matches_pins(a, pins) <==> matches_pins(b, pins),
        ind_fitness(a) == ind_fitness(b),
{
    assert forall|i: int|
        #![trigger a.connections@[i]]
        #![trigger b.connections@[i]]
        0 <= i < a.connections@.len() implies conn_like(a.connections@[i], b.connections@[i])
        && (wf_connection(a.connections@[i], a.dimensions) <==> wf_connection(
        b.connections@[i],
        b.dimensions,
    )) by {
        lemma_conn_like_geometry(a.connections@[i], b.connections@[i], a.dimensions);
    }
    lemma_conns_like_cells(a.connections@, b.connections@);
}

impl Individual {
    /// The empty candidate: no connections, a zero-sized grid.
    pub fn new() -> (r: Individual)
        ensures
            r.connections@.len() == 0,
            r.dimensions == (0u32, 0u32),
    {
        Individual { connections: Vec::new(), dimensions: (0, 0) }
    }

    /// Every cell occupied by every connection, concatenated in order.
    #[verifier::loop_isolation(false)]
    pub fn collect_points(&self) -> (r: Vec<(u32, u32)>)
        requires
            ind_endpoints_fit(*self),
        ensures
            r@.len() == ind_cells(*self).len(),
            forall|k: int| 0 <= k < r@.len() ==> pt(#[trigger] r@[k]) == ind_cells(*self)[k],
    {
        let n = self.connections.len();
        let mut points: Vec<(u32, u32)> = Vec::new();
        let mut i: usize = 0;
        proof {
            assert(self.connections@.take(0) =~= Seq::<Connection>::empty());
        }
        while i < n
            invariant
                i <= n,
                points@.len() == cells_of_connections(self.connections@.take(i as int)).len(),
                forall|k: int|
                    0 <= k < points@.len() ==> pt(#[trigger] points@[k]) == cells_of_connections(
                        self.connections@.take(i as int),
                    )[k],
            decreases n - i,
        {
            let ghost prefix = cells_of_connections(self.connections@.take(i as int));
            let mut cp = self.connections[i].following_points();
            let ghost cpv = cp@;
            points.append(&mut cp);
            proof {
                assert(self.connections@.take(i + 1) =~= self.connections@.take(i as int).push(
                    self.connections@[i as int],
                ));
                lemma_cells_of_connections_push(
                    self.connections@.take(i as int),
                    self.connections@[i as int],
                );
                assert forall|k: int| 0 <= k < points@.len() implies pt(#[trigger] points@[k])
                    == cells_of_connections(self.connections@.take(i + 1))[k] by {
                    if k < prefix.len() {
                        assert(pt(points@[k]) == prefix[k]);
                    } else {
                        assert(points@[k] == cpv[k - prefix.len()]);
                    }
                }
            }
            i = i + 1;
        }
        proof {
            assert(self.connections@.take(n as int) =~= self.connections@);
        }
        points
    }

    /// The number of occupied cells that repeat a cell already occupied:
    /// a true geometric overlap count over final segment state.
    #[verifier::loop_isolation(false)]
    pub fn collisions(&self) -> (r: usize)
        requires
            ind_endpoints_fit(*self),
        ensures
            r == dup_count(ind_cells(*self)),
    {
        let points = self.collect_points();
        let ghost cells = ind_cells(*self);
        let n = points.len();
        let mut count: usize = 0;
        let mut i: usize = 0;
        proof {
            assert(cells.take(0) =~= Seq::<(int, int)>::empty());
        }
        while i < n
            invariant
                i <= n,
                count == dup_count(cells.take(i as int)),
                count <= i,
            decreases n - i,
        {
            let mut found = false;
            let mut j: usize = 0;
            while j < i
                invariant
                    j <= i,
                    found == exists|k: int| 0 <= k < j && cells[k] == cells[i as int],
                decreases i - j,
            {
                if points[j].0 == points[i].0 && points[j].1 == points[i].1 {
                    found = true;
                    proof {
                        assert(cells[j as int] == cells[i as int]);
                    }
                }
                j = j + 1;
            }
            proof {
                assert(cells.take(i + 1) =~= cells.take(i as int).push(cells[i as int]));
                lemma_dup_count_push(cells.take(i as int), cells[i as int]);
                if found {
                    let k = choose|k: int| 0 <= k < i && cells[k] == cells[i as int];
                    assert(cells.take(i as int)[k] == cells[i as int]);
                    assert(cells.take(i as int).contains(cells[i as int]));
                } else {
                    assert forall|k: int| 0 <= k < i implies cells.take(i as int)[k] != cells[
                        i as int
                    ] by {
                        assert(cells.take(i as int)[k] == cells[k]);
                    }
                    assert(!cells.take(i as int).contains(cells[i as int]));
                }
            }
            if found {
                count = count + 1;
            }
            i = i + 1;
        }
        proof {
            assert(cells.take(n as int) =~= cells);
        }
        count
    }

    /// The fitness of this candidate, in tenths of the weighted score:
    /// collisions weigh 100.0, wire length 0.2, segment count 0.1. Lower
    /// is better.
    #[verifier::loop_isolation(false)]
    pub fn evaluate(&self) -> (r: u128)
        requires
            ind_wf(*self),
        ensures
            r == ind_fitness(*self),
    {
        proof {
            lemma_ind_wf_fits(*self);
            lemma_conns_cells_len(self.connections@);
            lemma_conns_seg_le_total(self.connections@);
            lemma_conns_prefix_bounds(self.connections@, 0);
        }
        let points = self.collect_points();
        let total_cells = points.len();
        let ghost max_cells = points@.len() as int;
        let n = self.connections.len();
        let mut connection_length: u128 = 0;
        let mut segment_number: u128 = 0;
        let mut i: usize = 0;
        proof {
            assert(self.connections@.take(0) =~= Seq::<Connection>::empty());
        }
        while i < n
            invariant
                i <= n,
                connection_length == conns_total_len(self.connections@.take(i as int)),
                segment_number == conns_seg_count(self.connections@.take(i as int)),
            decreases n - i,
        {
            proof {
                assert(self.connections@.take(i + 1) =~= self.connections@.take(i as int).push(
                    self.connections@[i as int],
                ));
                lemma_cells_of_connections_push(
                    self.connections@.take(i as int),
                    self.connections@[i as int],
                );
                lemma_conns_prefix_bounds(self.connections@, i + 1);
                assert(conns_total_len(self.connections@.take(i + 1)) <= max_cells);
                assert(conns_seg_count(self.connections@.take(i + 1)) <= max_cells);
            }
            let segs = &self.connections[i].segments;
            let m = segs.len();
            let mut j: usize = 0;
            proof {
                assert(segs@.take(0) =~= Seq::<Segment>::empty());
            }
            while j < m
                invariant
                    j <= m,
                    connection_length == conns_total_len(self.connections@.take(i as int))
                        + total_len(segs@.take(j as int)),
                decreases m - j,
            {
                proof {
                    crate::connection::lemma_disp_take_succ(segs@, j as int);
                    lemma_total_len_take_le(segs@, j + 1);
                }
                connection_length = connection_length + segs[j].length as u128;
                j = j + 1;
            }
            proof {
                assert(segs@.take(m as int) =~= segs@);
            }
            segment_number = segment_number + m as u128;
            i = i + 1;
        }
        proof {
            assert(self.connections@.take(n as int) =~= self.connections@);
        }
        let collisions = self.collisions();
        proof {
            lemma_dup_count_bounds(ind_cells(*self));
            assert(collisions as int <= max_cells);
            assert(connection_length as int <= max_cells);
            assert(segment_number as int <= max_cells);
            assert(max_cells <= usize::MAX as int);
        }
        (WEIGHT_COLLISION_TENTHS * collisions as u128) + (WEIGHT_LENGTH_TENTHS
            * connection_length) + (WEIGHT_COUNT_TENTHS * segment_number)
    }

    /// Overwrite the connection at the index picked by `roll` with a copy
    /// of the other parent's connection at the same index. Pin pairs stay
    /// aligned because connections are positionally aligned for every
    /// individual. With no connections there is nothing to splice.
    pub fn crossover(&mut self, other: &Individual, roll: u32)
        requires
            old(self).connections@.len() == other.connections@.len(),
        ensures
            final(self).dimensions == old(self).dimensions,
            final(self).connections@.len() == old(self).connections@.len(),
            old(self).connections@.len() == 0 ==> final(self).connections@
                == old(self).connections@,
            old(self).connections@.len() >= 1 ==> ({
                let idx = roll_index(roll, old(self).connections@.len() as int);
                &&& forall|k: int|
                    0 <= k < final(self).connections@.len() && k != idx
                        ==> (#[trigger] final(self).connections@[k])
                        == old(self).connections@[k]
                &&& conn_like(final(self).connections@[idx], other.connections@[idx])
            }),
    {
        let n = self.connections.len();
        if n == 0 {
            return ;
        }
        let index = roll_to_index(roll, n);
        let replacement = clone_connection(&other.connections[index]);
        self.connections[index] = replacement;
    }

    /// Independently, with probability `chance_permille / 1000`, apply the
    /// detour mutation to each connection. Empty connections (a pin pair
    /// that coincides) have no segment to jog and are left alone.
    #[verifier::loop_isolation(false)]
    pub fn mutate(&mut self, rng: &mut rand::rngs::StdRng, chance_permille: u32)
        requires
            ind_wf(*old(self)),
        ensures
            final(self).dimensions == old(self).dimensions,
            final(self).connections@.len() == old(self).connections@.len(),
            ind_wf(*final(self)),
            forall|k: int|
                0 <= k < final(self).connections@.len()
                    ==> (#[trigger] final(self).connections@[k]).start
                    == old(self).connections@[k].start
                    && final(self).connections@[k].end == old(self).connections@[k].end,
    {
        let dims = self.dimensions;
        let n = self.connections.len();
        let mut i: usize = 0;
        while i < n
            invariant
                i <= n,
                self.dimensions == old(self).dimensions,
                self.connections@.len() == old(self).connections@.len(),
                ind_wf(*self),
                forall|k: int|
                    0 <= k < self.connections@.len() ==> (#[trigger] self.connections@[k]).start
                        == old(self).connections@[k].start && self.connections@[k].end == old(
                        self,
                    ).connections@[k].end,
            decreases n - i,
        {
            let draw = crate::rng::rng_below(rng, 1000);
            if draw < chance_permille as u128 {
                let r1 = crate::rng::rng_below(rng, ROLL_ONE as u128) as u32;
                let r2 = crate::rng::rng_below(rng, ROLL_ONE as u128) as u32;
                let c = &mut self.connections[i];
                if c.segments.len() >= 1 {
                    c.mutate_segment((r1, r2), dims);
                }
            }
            i = i + 1;
        }
    }
}

/// The segment or connection index that a fixed-point roll picks out of
/// `n` items: the roll, read as a fraction of one, times the item count.
#[verifier::loop_isolation(false)]
pub fn roll_to_index(roll: u32, n: usize) -> (r: usize)
    requires
        n >= 1,
    ensures
        r == roll_index(roll, n as int),
        r < n,
{
    proof {
        assert((roll as int) * (n as int) < (ROLL_ONE as int) * (n as int)) by {
            vstd::arithmetic::mul::lemma_mul_strict_inequality(
                roll as int,
                ROLL_ONE as int,
                n as int,
            );
            vstd::arithmetic::mul::lemma_mul_is_commutative(roll as int, n as int);
            vstd::arithmetic::mul::lemma_mul_is_commutative(ROLL_ONE as int, n as int);
        }
        vstd::arithmetic::div_mod::lemma_multiply_divide_lt(
            roll as int * n as int,
            ROLL_ONE as int,
            n as int,
        );
    }
    ((roll as u128 * n as u128) / (ROLL_ONE as u128)) as usize
}

/// An exact copy of a segment run.
fn clone_segments(v: &Vec<Segment>) -> (r: Vec<Segment>)
    ensures
        r@ == v@,
{
    let mut r: Vec<Segment> = Vec::new();
    let mut i: usize = 0;
    while i < v.len()
        invariant
            i <= v@.len(),
            r@ == v@.take(i as int),
        decreases v@.len() - i,
    {
        r.push(v[i]);
        proof {
            assert(r@ =~= v@.take(i + 1));
        }
        i = i + 1;
    }
    proof {
        assert(v@.take(v@.len() as int) =~= v@);
    }
    r
}

/// An exact copy of a connection.
pub fn clone_connection(c: &Connection) -> (r: Connection)
    ensures
        conn_like(r, *c),
{
    Connection { start: c.start, end: c.end, segments: clone_segments(&c.segments) }
}

/// An exact copy of an individual.
pub fn clone_individual(ind: &Individual) -> (r: Individual)
    ensures
        ind_like(r, *ind),
{
    let mut cs: Vec<Connection> = Vec::new();
    let mut i: usize = 0;
    while i < ind.connections.len()
        invariant
            i <= ind.connections@.len(),
            cs@.len() == i,
            forall|k: int| 0 <= k < i ==> conn_like(#[trigger] cs@[k], ind.connections@[k]),
        decreases ind.connections@.len() - i,
    {
        cs.push(clone_connection(&ind.connections[i]));
        i = i + 1;
    }
    Individual { connections: cs, dimensions: ind.dimensions }
}

} // verus!
