//! The sampling state machine: a seed, then candidates around the most
//! recently accepted point that is still active, until no active point is
//! left.
//!
//! Every transition here is a function of the state and of the raw random
//! words handed in, so a run can be replayed word for word.
use vstd::prelude::*;
use crate::candidate::{candidate, candidate_spec, seed_point, seed_spec};
use crate::domain::{ConfigError, Domain, MAX_CELLS};
use crate::geometry::{
    far_apart, in_domain, lemma_distance_symmetric, toroidal_distance_squared, Point,
};
use crate::grid::{
    lemma_nothing_occupied, lemma_occupied_after_fill, lemma_occupied_bounded, occupied, Grid,
    GridView, BLOCK_CELLS,
};

verus! {

/// Candidates tried around an active point before it is given up, unless the
/// caller chooses another number.
pub const DEFAULT_SAMPLES: u32 = 30;

/// Where a sampler stands.
#[derive(Clone, Copy, Debug, PartialEq, Eq, Structural)]
pub enum Phase {
    /// No point has been placed yet.
    Seeding,
    /// Some accepted point may still have room around it.
    Sampling,
    /// No active point is left; no further point will come.
    Exhausted,
}

/// What a sampler is, mathematically.
pub struct SamplerView {
    pub domain: Domain,
    /// Candidates tried around an active point before it is given up.
    pub samples: u32,
    /// All points accepted so far, in the order of acceptance.
    pub points: Seq<Point>,
    /// Indices into `points` of the points that may still spawn candidates.
    pub active: Seq<usize>,
    pub grid: GridView,
}

impl SamplerView {
    pub open spec fn width(self) -> int {
        self.domain.width as int
    }

    pub open spec fn height(self) -> int {
        self.domain.height as int
    }

    pub open spec fn min_distance(self) -> int {
        self.domain.min_distance as int
    }

    pub open spec fn phase(self) -> Phase {
        if self.points.len() == 0 {
            Phase::Seeding
        } else if self.active.len() > 0 {
            Phase::Sampling
        } else {
            Phase::Exhausted
        }
    }

    /// Every accepted point lies in the domain.
    pub open spec fn contained(self) -> bool {
        forall|i: int|
            0 <= i < self.points.len() ==> in_domain(
                #[trigger] self.points[i],
                self.width(),
                self.height(),
            )
    }

    /// The cell of every accepted point holds that point's index.
    pub open spec fn recorded(self) -> bool {
        forall|i: int|
            0 <= i < self.points.len() ==> self.grid.cells[self.grid.slot_of(
                #[trigger] self.points[i],
            )] == Some(i as usize)
    }

    /// Every occupied cell holds the index of an accepted point that lies in it.
    pub open spec fn grounded(self) -> bool {
        forall|slot: int|
            0 <= slot < self.grid.cells.len() ==> match #[trigger] self.grid.cells[slot] {
                Some(index) => index < self.points.len() && self.grid.slot_of(
                    self.points[index as int],
                ) == slot,
                None => true,
            }
    }

    /// Active entries are indices of accepted points, oldest first.
    pub open spec fn active_sound(self) -> bool {
        &&& forall|j: int| 0 <= j < self.active.len() ==> #[trigger] self.active[j] < self.points.len()
        &&& forall|j: int, k: int|
            0 <= j < k < self.active.len() ==> self.active[j] < self.active[k]
    }

    /// The points at `i` and `j` keep the minimum distance.
    pub open spec fn apart(self, i: int, j: int) -> bool {
        far_apart(self.points[i], self.points[j], self.width(), self.height(), self.min_distance())
    }

    /// The point at `j` lies in a cell of the block around the point at `i`.
    pub open spec fn near(self, i: int, j: int) -> bool {
        self.grid.in_block(self.points[i], self.points[j])
    }

    /// Any two different accepted points of which one lies in the block of
    /// cells around the other keep the minimum distance.
    pub open spec fn locally_separated(self) -> bool {
        forall|i: int, j: int|
            0 <= i < self.points.len() && 0 <= j < self.points.len() && i != j
                && #[trigger] self.near(i, j) ==> self.apart(i, j)
    }

    /// Any two different accepted points keep the minimum distance.
    pub open spec fn separated(self) -> bool {
        forall|i: int, j: int|
            0 <= i < self.points.len() && 0 <= j < self.points.len() && i != j
                ==> #[trigger] self.apart(i, j)
    }

    /// The invariant of the sampler.
    pub open spec fn wf(self) -> bool {
        &&& self.grid.wf()
        &&& self.grid.domain == self.domain
        &&& self.contained()
        &&& self.recorded()
        &&& self.grounded()
        &&& occupied(self.grid.cells) == self.points.len()
        &&& self.active_sound()
        &&& self.active.len() <= self.points.len()
        &&& self.locally_separated()
    }

    /// `c` keeps the minimum distance from the `j`-th point found around it.
    pub open spec fn clears(self, c: Point, j: int) -> bool {
        far_apart(
            c,
            self.points[self.grid.neighbors(c)[j] as int],
            self.width(),
            self.height(),
            self.min_distance(),
        )
    }

    /// The acceptance test: `c` lies in the domain and keeps the minimum
    /// distance from every point found in the block of cells around it.
    pub open spec fn accepts(self, c: Point) -> bool {
        &&& in_domain(c, self.width(), self.height())
        &&& forall|j: int| 0 <= j < self.grid.neighbors(c).len() ==> #[trigger] self.clears(c, j)
    }

    /// The state after `c` was accepted: it is the newest point, active, and
    /// recorded in its cell.
    pub open spec fn with_point(self, c: Point) -> SamplerView {
        SamplerView {
            domain: self.domain,
            samples: self.samples,
            points: self.points.push(c),
            active: self.active.push(self.points.len() as usize),
            grid: self.grid.insert(c, self.points.len() as usize),
        }
    }

    /// The state after the active point chosen last was given up.
    pub open spec fn retired(self) -> SamplerView {
        SamplerView {
            domain: self.domain,
            samples: self.samples,
            points: self.points,
            active: self.active.drop_last(),
            grid: self.grid,
        }
    }

    /// The active point that spawns the next candidate: the one that became
    /// active last.
    pub open spec fn source(self) -> Point {
        self.points[self.active.last() as int]
    }

    /// The point that `seed` places for two raw words, if it places one.
    pub open spec fn seed_outcome(self, raw_x: u64, raw_y: u64) -> Option<Point> {
        if self.points.len() == 0 {
            Some(seed_spec(self.domain, raw_x, raw_y))
        } else {
            None
        }
    }

    /// The point that `offer` accepts for a raw word, if it accepts one.
    pub open spec fn offer_outcome(self, raw: u64) -> Option<Point> {
        if self.active.len() > 0 && self.accepts(candidate_spec(self.domain, self.source(), raw)) {
            Some(candidate_spec(self.domain, self.source(), raw))
        } else {
            None
        }
    }

    /// The state a transition leaves behind, given the point it accepted.
    pub open spec fn after(self, outcome: Option<Point>) -> SamplerView {
        match outcome {
            Some(c) => self.with_point(c),
            None => self,
        }
    }

    /// There are never more points than cells.
    pub proof fn lemma_count_bounded(self)
        requires
            self.wf(),
        ensures
            self.points.len() <= self.grid.columns() * self.grid.rows(),
            self.points.len() <= MAX_CELLS,
            self.active.len() <= self.points.len(),
    {
        lemma_occupied_bounded(self.grid.cells);
        self.grid.lemma_measures();
    }

    /// Where the block reaches all neighbors, any two different accepted
    /// points keep the minimum distance.
    pub proof fn lemma_separated(self)
        requires
            self.wf(),
            self.domain.block_reaches(),
        ensures
            self.separated(),
    {
        assert forall|i: int, j: int|
            0 <= i < self.points.len() && 0 <= j < self.points.len() && i
                != j implies #[trigger] self.apart(i, j) by {
            let p = self.points[i];
            let q = self.points[j];
            assert(in_domain(p, self.width(), self.height()));
            assert(in_domain(q, self.width(), self.height()));
            if !self.apart(i, j) {
                let k = self.grid.lemma_close_point_in_block(p, q);
                assert(self.near(i, j));
            }
        }
    }

    /// Whatever the block search finds is the index of an accepted point.
    pub proof fn lemma_neighbors_are_points(self, c: Point, j: int)
        requires
            self.wf(),
            0 <= j < self.grid.neighbors(c).len(),
        ensures
            self.grid.neighbors(c)[j] < self.points.len(),
    {
        let found = self.grid.neighbors(c);
        let index = found[j];
        assert(found.contains(index));
        self.grid.lemma_neighbors_within(c, BLOCK_CELLS as nat, index);
        let k = choose|k: int|
            0 <= k < BLOCK_CELLS && #[trigger] self.grid.cells[self.grid.block_slot(c, k)] == Some(
                index,
            );
        self.grid.lemma_block_slot_in_range(c, k);
    }

    /// A point recorded in a cell of the block around `c` is found by the
    /// block search.
    pub proof fn lemma_block_point_is_found(self, c: Point, k: int, i: int) -> (j: int)
        requires
            self.wf(),
            0 <= k < BLOCK_CELLS,
            0 <= i < self.points.len(),
            self.grid.block_slot(c, k) == self.grid.slot_of(self.points[i]),
        ensures
            0 <= j < self.grid.neighbors(c).len(),
            self.grid.neighbors(c)[j] == i,
    {
        let found = self.grid.neighbors(c);
        self.lemma_count_bounded();
        assert(self.grid.cells[self.grid.slot_of(self.points[i])] == Some(i as usize));
        assert(self.grid.cells[self.grid.block_slot(c, k)] == Some(i as usize));
        self.grid.lemma_neighbors_within(c, BLOCK_CELLS as nat, i as usize);
        assert(found.contains(i as usize));
        choose|j: int| 0 <= j < found.len() && found[j] == i as usize
    }

    /// The cell of an accepted candidate is empty.
    pub proof fn lemma_accepted_cell_is_empty(self, c: Point)
        requires
            self.wf(),
            self.accepts(c),
        ensures
            0 <= self.grid.slot_of(c) < self.grid.cells.len(),
            self.grid.cells[self.grid.slot_of(c)] is None,
    {
        self.grid.lemma_slot_of_in_range(c);
        let slot = self.grid.slot_of(c);
        if self.grid.cells[slot] is Some {
            let index = self.grid.cells[slot]->0;
            let i = index as int;
            assert(i < self.points.len() && self.grid.slot_of(self.points[i]) == slot);
            self.grid.lemma_block_center(c);
            let j = self.lemma_block_point_is_found(c, 12, i);
            assert(self.clears(c, j));
            assert(in_domain(self.points[i], self.width(), self.height()));
            self.grid.lemma_cell_mates_are_close(c, self.points[i]);
        }
    }

    /// An accepted candidate keeps the minimum distance from every accepted
    /// point in the block of cells around it.
    pub proof fn lemma_accepted_is_apart_in_block(self, c: Point, i: int, k: int)
        requires
            self.wf(),
            self.accepts(c),
            0 <= i < self.points.len(),
            0 <= k < BLOCK_CELLS,
            self.grid.block_slot(c, k) == self.grid.slot_of(self.points[i]),
        ensures
            far_apart(c, self.points[i], self.width(), self.height(), self.min_distance()),
            far_apart(self.points[i], c, self.width(), self.height(), self.min_distance()),
    {
        let q = self.points[i];
        assert(in_domain(q, self.width(), self.height()));
        lemma_distance_symmetric(c, q, self.width(), self.height());
        let j = self.lemma_block_point_is_found(c, k, i);
        assert(self.clears(c, j));
    }

    /// Where the block reaches all neighbors, an accepted candidate keeps the
    /// minimum distance from every accepted point.
    pub proof fn lemma_accepted_is_apart(self, c: Point, i: int)
        requires
            self.wf(),
            self.domain.block_reaches(),
            self.accepts(c),
            0 <= i < self.points.len(),
        ensures
            far_apart(c, self.points[i], self.width(), self.height(), self.min_distance()),
            far_apart(self.points[i], c, self.width(), self.height(), self.min_distance()),
    {
        let q = self.points[i];
        assert(in_domain(q, self.width(), self.height()));
        lemma_distance_symmetric(c, q, self.width(), self.height());
        if !far_apart(c, q, self.width(), self.height(), self.min_distance()) {
            let k = self.grid.lemma_close_point_in_block(c, q);
            self.lemma_accepted_is_apart_in_block(c, i, k);
        }
    }

    /// Accepting a candidate that passes the test keeps the invariant.
    pub proof fn lemma_accept_keeps_wf(self, c: Point)
        requires
            self.wf(),
            self.accepts(c),
        ensures
            self.with_point(c).wf(),
    {
        let next = self.with_point(c);
        let n = self.points.len() as int;
        let slot = self.grid.slot_of(c);
        self.lemma_count_bounded();
        self.lemma_accepted_cell_is_empty(c);
        lemma_occupied_after_fill(self.grid.cells, slot, n as usize);
        assert(next.grid.wf());
        assert(next.contained()) by {
            assert forall|i: int| 0 <= i < next.points.len() implies in_domain(
                #[trigger] next.points[i],
                next.width(),
                next.height(),
            ) by {
                if i < n {
                    assert(next.points[i] == self.points[i]);
                }
            }
        }
        assert(next.recorded()) by {
            assert forall|i: int| 0 <= i < next.points.len() implies next.grid.cells[next.grid.slot_of(
                #[trigger] next.points[i],
            )] == Some(i as usize) by {
                if i < n {
                    assert(next.points[i] == self.points[i]);
                    assert(self.grid.cells[self.grid.slot_of(self.points[i])] == Some(i as usize));
                    self.grid.lemma_slot_of_in_range(self.points[i]);
                    assert(next.grid.slot_of(next.points[i]) == self.grid.slot_of(self.points[i]));
                }
            }
        }
        assert(next.grounded()) by {
            assert forall|s: int| 0 <= s < next.grid.cells.len() implies match #[trigger] next.grid.cells[s] {
                Some(index) => index < next.points.len() && next.grid.slot_of(
                    next.points[index as int],
                ) == s,
                None => true,
            } by {
                if s != slot {
                    assert(next.grid.cells[s] == self.grid.cells[s]);
                    match self.grid.cells[s] {
                        Some(index) => {
                            assert(next.points[index as int] == self.points[index as int]);
                        },
                        None => {},
                    }
                }
            }
        }
        assert(next.active_sound()) by {
            assert forall|j: int| 0 <= j < next.active.len() implies #[trigger] next.active[j]
                < next.points.len() by {
                if j < self.active.len() {
                    assert(next.active[j] == self.active[j]);
                }
            }
            assert forall|j: int, k: int| 0 <= j < k < next.active.len() implies next.active[j]
                < next.active[k] by {
                assert(next.active[j] == self.active[j]);
                if k < self.active.len() {
                    assert(next.active[k] == self.active[k]);
                }
            }
        }
        assert forall|i: int, j: int|
            0 <= i < next.points.len() && 0 <= j < next.points.len() && i != j
                && #[trigger] next.near(i, j) implies next.apart(i, j) by {
            let p = next.points[i];
            let q = next.points[j];
            let k = choose|k: int|
                0 <= k < BLOCK_CELLS && #[trigger] next.grid.block_slot(p, k)
                    == next.grid.slot_of(q);
            assert(next.grid.block_slot(p, k) == self.grid.block_slot(p, k));
            assert(next.grid.slot_of(q) == self.grid.slot_of(q));
            if i < n && j < n {
                assert(self.near(i, j));
                assert(self.apart(i, j));
            } else if i == n {
                self.lemma_accepted_is_apart_in_block(c, j, k);
            } else {
                assert(in_domain(p, self.width(), self.height()));
                self.grid.lemma_block_is_mutual(p, c, k);
                self.lemma_accepted_is_apart_in_block(c, i, 24 - k);
            }
        }
    }

    /// Giving up an active point keeps the invariant.
    pub proof fn lemma_retire_keeps_wf(self)
        requires
            self.wf(),
            self.active.len() > 0,
        ensures
            self.retired().wf(),
    {
        let next = self.retired();
        assert(next.active_sound()) by {
            assert forall|j: int| 0 <= j < next.active.len() implies #[trigger] next.active[j]
                < next.points.len() by {
                assert(next.active[j] == self.active[j]);
            }
            assert forall|j: int, k: int| 0 <= j < k < next.active.len() implies next.active[j]
                < next.active[k] by {
                assert(next.active[j] == self.active[j]);
                assert(next.active[k] == self.active[k]);
            }
        }
        assert forall|i: int, j: int|
            0 <= i < next.points.len() && 0 <= j < next.points.len() && i != j
                && #[trigger] next.near(i, j) implies next.apart(i, j) by {
            assert(self.near(i, j));
            assert(self.apart(i, j));
        }
    }

    /// While no point has been placed, every point of the domain passes the
    /// acceptance test.
    pub proof fn lemma_first_point_accepted(self, c: Point)
        requires
            self.wf(),
            self.points.len() == 0,
            in_domain(c, self.width(), self.height()),
        ensures
            self.accepts(c),
    {
        assert forall|j: int| 0 <= j < self.grid.neighbors(c).len() implies #[trigger] self.clears(
            c,
            j,
        ) by {
            self.lemma_neighbors_are_points(c, j);
        }
    }
}

/// The sampler proper: accepted points, active list and grid, advanced one
/// transition at a time by the raw random words it is given.
pub struct Sampler {
    domain: Domain,
    samples: u32,
    points: Vec<Point>,
    active: Vec<usize>,
    grid: Grid,
}

impl View for Sampler {
    type V = SamplerView;

    closed spec fn view(&self) -> SamplerView {
        SamplerView {
            domain: self.domain,
            samples: self.samples,
            points: self.points@,
            active: self.active@,
            grid: self.grid@,
        }
    }
}

impl Sampler {
    /// The invariant of the sampler holds.
    pub closed spec fn wf(&self) -> bool {
        self.grid.wf() && self@.wf()
    }

    /// A well-formed sampler has a well-formed view.
    pub proof fn lemma_view_wf(&self)
        requires
            self.wf(),
        ensures
            self@.wf(),
    {
    }

    /// A sampler over `domain` that has not placed any point yet and tries
    /// `DEFAULT_SAMPLES` candidates per active point, or the reason why the
    /// domain cannot be sampled.
    pub fn new(domain: Domain) -> (made: Result<Sampler, ConfigError>)
        ensures
            match made {
                Ok(sampler) => {
                    &&& Domain::rejection(domain.width, domain.height, domain.min_distance) is None
                    &&& sampler.wf()
                    &&& sampler@.wf()
                    &&& sampler@.domain == domain
                    &&& sampler@.samples == DEFAULT_SAMPLES
                    &&& sampler@.points.len() == 0
                    &&& sampler@.active.len() == 0
                },
                Err(e) => Domain::rejection(domain.width, domain.height, domain.min_distance)
                    == Some(e),
            },
    {
        match Grid::new(domain) {
            Err(e) => Err(e),
            Ok(grid) => {
                let sampler = Sampler {
                    domain,
                    samples: DEFAULT_SAMPLES,
                    points: Vec::new(),
                    active: Vec::new(),
                    grid,
                };
                proof {
                    lemma_nothing_occupied(grid@.cells);
                }
                Ok(sampler)
            },
        }
    }

    /// The same sampler with another number of candidates per active point.
    pub fn with_samples(self, samples: u32) -> (changed: Sampler)
        requires
            self.wf(),
        ensures
            changed.wf(),
            changed@ == (SamplerView { samples, ..self@ }),
    {
        let mut changed = self;
        changed.samples = samples;
        proof {
            let before = self@;
            let after = changed@;
            assert forall|i: int, j: int|
                0 <= i < after.points.len() && 0 <= j < after.points.len() && i != j
                    && #[trigger] after.near(i, j) implies after.apart(i, j) by {
                assert(before.near(i, j));
                assert(before.apart(i, j));
            }
        }
        changed
    }

    /// The domain being sampled.
    pub fn domain(&self) -> (domain: Domain)
        ensures
            domain == self@.domain,
    {
        self.domain
    }

    /// Candidates tried around an active point before it is given up.
    pub fn samples(&self) -> (samples: u32)
        ensures
            samples == self@.samples,
    {
        self.samples
    }

    /// The points accepted so far, in the order of acceptance.
    pub fn points(&self) -> (points: &Vec<Point>)
        ensures
            points@ == self@.points,
    {
        &self.points
    }

    /// Number of points accepted so far.
    pub fn len(&self) -> (count: usize)
        ensures
            count == self@.points.len(),
    {
        self.points.len()
    }

    /// Number of accepted points that may still spawn candidates.
    pub fn active_len(&self) -> (count: usize)
        ensures
            count == self@.active.len(),
    {
        self.active.len()
    }

    /// Where the sampler stands.
    pub fn phase(&self) -> (phase: Phase)
        ensures
            phase == self@.phase(),
    {
        if self.points.len() == 0 {
            Phase::Seeding
        } else if self.active.len() > 0 {
            Phase::Sampling
        } else {
            Phase::Exhausted
        }
    }

    /// The acceptance test: whether `c` lies in the domain and keeps the
    /// minimum distance, measured across the seams, from every point found
    /// in the block of cells around it.
    pub fn is_valid(&self, c: Point) -> (valid: bool)
        requires
            self.wf(),
        ensures
            valid == self@.accepts(c),
    {
        if c.x >= self.domain.width || c.y >= self.domain.height {
            return false;
        }
        proof {
            self@.grid.lemma_measures();
        }
        let found = self.grid.neighbors(c);
        let r: u64 = self.domain.min_distance as u64;
        assert(r * r <= 0xffff_ffff * 0xffff_ffff) by (nonlinear_arith)
            requires
                0 <= r <= 0xffff_ffff,
        ;
        let limit: u64 = r * r;
        let mut j: usize = 0;
        while j < found.len()
            invariant
                self.wf(),
                j <= found.len(),
                found@ == self@.grid.neighbors(c),
                in_domain(c, self@.width(), self@.height()),
                limit == self@.min_distance() * self@.min_distance(),
                forall|i: int| 0 <= i < j ==> #[trigger] self@.clears(c, i),
            decreases found.len() - j,
        {
            proof {
                self@.lemma_neighbors_are_points(c, j as int);
                self@.grid.lemma_measures();
            }
            let other = self.points[found[j]];
            assert(in_domain(self@.points[found@[j as int] as int], self@.width(), self@.height()));
            let squared = toroidal_distance_squared(
                c,
                other,
                self.domain.width,
                self.domain.height,
            );
            if squared < limit {
                assert(!self@.clears(c, j as int));
                return false;
            }
            assert(self@.clears(c, j as int));
            j = j + 1;
        }
        true
    }

    /// Accepts `c`: appends it to the points, makes it active and records it
    /// in its cell.
    fn accept(&mut self, c: Point)
        requires
            old(self).wf(),
            old(self)@.accepts(c),
        ensures
            final(self).wf(),
            final(self)@ == old(self)@.with_point(c),
    {
        proof {
            self@.lemma_count_bounded();
            self@.lemma_accepted_cell_is_empty(c);
            self@.lemma_accept_keeps_wf(c);
            self@.grid.lemma_measures();
        }
        let index: usize = self.points.len();
        self.grid.insert(c, index);
        self.points.push(c);
        self.active.push(index);
    }

    /// Places the seed if no point has been placed yet: the point that the
    /// two raw words stand for. Otherwise nothing changes.
    pub fn seed(&mut self, raw_x: u64, raw_y: u64) -> (placed: Option<Point>)
        requires
            old(self).wf(),
        ensures
            final(self).wf(),
            placed == old(self)@.seed_outcome(raw_x, raw_y),
            final(self)@ == old(self)@.after(placed),
    {
        if self.points.len() != 0 {
            return None;
        }
        proof {
            self@.grid.lemma_measures();
        }
        let c = seed_point(&self.domain, raw_x, raw_y);
        proof {
            self@.lemma_first_point_accepted(c);
        }
        self.accept(c);
        Some(c)
    }

    /// Tries one candidate around the active point chosen last: the point
    /// that the raw word stands for. If it passes the acceptance test it is
    /// accepted and returned; otherwise, and when no point is active,
    /// nothing changes.
    pub fn offer(&mut self, raw: u64) -> (accepted: Option<Point>)
        requires
            old(self).wf(),
        ensures
            final(self).wf(),
            accepted == old(self)@.offer_outcome(raw),
            final(self)@ == old(self)@.after(accepted),
    {
        if self.active.len() == 0 {
            return None;
        }
        proof {
            self@.grid.lemma_measures();
        }
        let source = self.points[self.active[self.active.len() - 1]];
        let c = candidate(&self.domain, source, raw);
        if self.is_valid(c) {
            self.accept(c);
            Some(c)
        } else {
            None
        }
    }

    /// Gives up the active point chosen last, if there is one, and says
    /// whether there was.
    pub fn retire(&mut self) -> (retired: bool)
        requires
            old(self).wf(),
        ensures
            final(self).wf(),
            retired == (old(self)@.active.len() > 0),
            final(self)@ == if retired {
                old(self)@.retired()
            } else {
                old(self)@
            },
    {
        if self.active.len() == 0 {
            return false;
        }
        proof {
            self@.lemma_retire_keeps_wf();
        }
        self.active.pop();
        true
    }
}

} // verus!
