//! A uniform grid that remembers, cell by cell, which point it holds.
use vstd::prelude::*;
use vstd::arithmetic::div_mod::lemma_fundamental_div_mod_converse;
use crate::domain::{
    cell_count, is_cell_side, leads_to, lemma_axis_neighbor_within_two, lemma_cell_count_bounds,
    lemma_cell_in_range, lemma_cell_encloses, lemma_same_cell_is_close, ConfigError, Domain,
    MAX_CELLS,
};
use crate::geometry::{
    far_apart, in_domain, lemma_delta_is_minimal, toroidal_delta_spec, wrap, wrap_spec, Point,
};

verus! {

/// Number of cells in the block examined around a point: five by five.
pub const BLOCK_CELLS: usize = 25;

/// What a grid is, mathematically: its domain and, row by row, the index of
/// the point each cell holds.
pub struct GridView {
    pub domain: Domain,
    pub cells: Seq<Option<usize>>,
}

/// Number of occupied cells among `cells`.
pub open spec fn occupied(cells: Seq<Option<usize>>) -> nat
    decreases cells.len(),
{
    if cells.len() == 0 {
        0
    } else {
        occupied(cells.drop_last()) + if cells.last() is Some {
            1nat
        } else {
            0nat
        }
    }
}

impl GridView {
    pub open spec fn side(self) -> int {
        self.domain.cell_side_spec()
    }

    pub open spec fn columns(self) -> int {
        self.domain.columns_spec()
    }

    pub open spec fn rows(self) -> int {
        self.domain.rows_spec()
    }

    /// The grid has one entry for each cell of a usable domain.
    pub open spec fn wf(self) -> bool {
        &&& self.domain.usable()
        &&& self.cells.len() == self.columns() * self.rows()
    }

    /// Position of cell (`column`, `row`) in `cells`.
    pub open spec fn slot(self, column: int, row: int) -> int {
        row * self.columns() + column
    }

    /// Position in `cells` of the cell that contains `p`.
    pub open spec fn slot_of(self, p: Point) -> int {
        self.slot(p.x as int / self.side(), p.y as int / self.side())
    }

    /// Position in `cells` of the `k`-th cell of the block around `p`. The
    /// block is walked row by row, from two cells before `p`'s cell to two
    /// cells after it on each axis, wrapping at the edges of the grid.
    pub open spec fn block_slot(self, p: Point, k: int) -> int {
        self.slot(
            wrap_spec(p.x as int / self.side() + k % 5 - 2, self.columns()),
            wrap_spec(p.y as int / self.side() + k / 5 - 2, self.rows()),
        )
    }

    /// `q` lies in a cell of the block around `p`.
    pub open spec fn in_block(self, p: Point, q: Point) -> bool {
        exists|k: int| 0 <= k < BLOCK_CELLS && #[trigger] self.block_slot(p, k) == self.slot_of(q)
    }

    /// The points found in the first `n` cells of the block around `p`.
    pub open spec fn neighbors_within(self, p: Point, n: nat) -> Seq<usize>
        decreases n,
    {
        if n == 0 {
            Seq::empty()
        } else {
            let before = self.neighbors_within(p, (n - 1) as nat);
            match self.cells[self.block_slot(p, n - 1)] {
                Some(index) => before.push(index),
                None => before,
            }
        }
    }

    /// The points found in the block around `p`.
    pub open spec fn neighbors(self, p: Point) -> Seq<usize> {
        self.neighbors_within(p, BLOCK_CELLS as nat)
    }

    /// The grid after `index` was recorded in the cell of `p`.
    pub open spec fn insert(self, p: Point, index: usize) -> GridView {
        GridView { domain: self.domain, cells: self.cells.update(self.slot_of(p), Some(index)) }
    }

    /// The side is the one that goes with the minimum distance, and the grid
    /// has at least one cell.
    pub proof fn lemma_measures(self)
        requires
            self.wf(),
        ensures
            is_cell_side(self.domain.min_distance as int, self.side()),
            1 <= self.columns() <= self.domain.width,
            1 <= self.rows() <= self.domain.height,
            self.columns() * self.rows() <= MAX_CELLS,
    {
        let r = self.domain.min_distance as int;
        // some side goes with every positive distance
        assert(exists|side: int| is_cell_side(r, side)) by {
            crate::domain::lemma_cell_side_exists(r);
        }
        lemma_cell_count_bounds(self.domain.width as int, self.side());
        lemma_cell_count_bounds(self.domain.height as int, self.side());
    }

    /// Every cell of the grid has a position in `cells`.
    pub proof fn lemma_slot_in_range(self, column: int, row: int)
        requires
            self.wf(),
            0 <= column < self.columns(),
            0 <= row < self.rows(),
        ensures
            0 <= self.slot(column, row) < self.cells.len(),
            row * self.columns() < self.cells.len(),
    {
        let columns = self.columns();
        let rows = self.rows();
        assert(0 <= row * columns && row * columns + columns <= columns * rows)
            by (nonlinear_arith)
            requires
                0 <= row < rows,
                columns > 0,
        ;
    }

    /// The cell of a point of the domain has a position in `cells`.
    pub proof fn lemma_slot_of_in_range(self, p: Point)
        requires
            self.wf(),
            in_domain(p, self.domain.width as int, self.domain.height as int),
        ensures
            0 <= p.x as int / self.side() < self.columns(),
            0 <= p.y as int / self.side() < self.rows(),
            0 <= self.slot_of(p) < self.cells.len(),
    {
        self.lemma_measures();
        lemma_cell_in_range(p.x as int, self.domain.width as int, self.side());
        lemma_cell_in_range(p.y as int, self.domain.height as int, self.side());
        self.lemma_slot_in_range(p.x as int / self.side(), p.y as int / self.side());
    }

    /// Every cell of the block has a position in `cells`.
    pub proof fn lemma_block_slot_in_range(self, p: Point, k: int)
        requires
            self.wf(),
            0 <= k < BLOCK_CELLS,
        ensures
            0 <= self.block_slot(p, k) < self.cells.len(),
    {
        self.lemma_measures();
        let column = wrap_spec(p.x as int / self.side() + k % 5 - 2, self.columns());
        let row = wrap_spec(p.y as int / self.side() + k / 5 - 2, self.rows());
        crate::geometry::lemma_wrap_is_congruent(
            p.x as int / self.side() + k % 5 - 2,
            self.columns(),
        );
        crate::geometry::lemma_wrap_is_congruent(p.y as int / self.side() + k / 5 - 2, self.rows());
        self.lemma_slot_in_range(column, row);
    }

    /// Different cells have different positions.
    pub proof fn lemma_slot_injective(self, c1: int, r1: int, c2: int, r2: int)
        requires
            self.columns() > 0,
            0 <= c1 < self.columns(),
            0 <= c2 < self.columns(),
            self.slot(c1, r1) == self.slot(c2, r2),
        ensures
            c1 == c2,
            r1 == r2,
    {
        let columns = self.columns();
        let s = self.slot(c1, r1);
        lemma_fundamental_div_mod_converse(s, columns, r1, c1);
        lemma_fundamental_div_mod_converse(s, columns, r2, c2);
    }

    /// The middle cell of the block around a point is the point's own cell.
    pub proof fn lemma_block_center(self, p: Point)
        requires
            self.wf(),
            in_domain(p, self.domain.width as int, self.domain.height as int),
        ensures
            self.block_slot(p, 12) == self.slot_of(p),
    {
        self.lemma_slot_of_in_range(p);
        crate::geometry::lemma_wrap_is_congruent(p.x as int / self.side(), self.columns());
        crate::geometry::lemma_wrap_is_congruent(p.y as int / self.side(), self.rows());
    }

    /// Two points of one cell are closer than the minimum distance.
    pub proof fn lemma_cell_mates_are_close(self, p: Point, q: Point)
        requires
            self.wf(),
            in_domain(p, self.domain.width as int, self.domain.height as int),
            in_domain(q, self.domain.width as int, self.domain.height as int),
            self.slot_of(p) == self.slot_of(q),
        ensures
            !far_apart(
                p,
                q,
                self.domain.width as int,
                self.domain.height as int,
                self.domain.min_distance as int,
            ),
    {
        let side = self.side();
        let w = self.domain.width as int;
        let h = self.domain.height as int;
        self.lemma_measures();
        self.lemma_slot_of_in_range(p);
        self.lemma_slot_of_in_range(q);
        self.lemma_slot_injective(
            p.x as int / side,
            p.y as int / side,
            q.x as int / side,
            q.y as int / side,
        );
        lemma_cell_encloses(p.x as int, side);
        lemma_cell_encloses(q.x as int, side);
        lemma_cell_encloses(p.y as int, side);
        lemma_cell_encloses(q.y as int, side);
        let px = q.x - p.x;
        let py = q.y - p.y;
        lemma_same_cell_is_close(self.domain.min_distance as int, side, px, py);
        lemma_delta_is_minimal(p.x as int, q.x as int, w, 0);
        lemma_delta_is_minimal(p.y as int, q.y as int, h, 0);
        assert(q.x - p.x + 0 * w == px);
        assert(q.y - p.y + 0 * h == py);
    }

    /// Where the block reaches all neighbors, a point closer than the minimum
    /// distance to `p` lies in a cell of the block around `p`.
    pub proof fn lemma_close_point_in_block(self, p: Point, q: Point) -> (k: int)
        requires
            self.wf(),
            self.domain.block_reaches(),
            in_domain(p, self.domain.width as int, self.domain.height as int),
            in_domain(q, self.domain.width as int, self.domain.height as int),
            !far_apart(
                p,
                q,
                self.domain.width as int,
                self.domain.height as int,
                self.domain.min_distance as int,
            ),
        ensures
            0 <= k < BLOCK_CELLS,
            self.block_slot(p, k) == self.slot_of(q),
    {
        let side = self.side();
        let w = self.domain.width as int;
        let h = self.domain.height as int;
        let r = self.domain.min_distance as int;
        self.lemma_measures();
        let dx = toroidal_delta_spec(p.x as int, q.x as int, w);
        let dy = toroidal_delta_spec(p.y as int, q.y as int, h);
        assert(-r < dx < r && -r < dy < r) by (nonlinear_arith)
            requires
                dx * dx + dy * dy < r * r,
                r > 0,
        {
            assert(dy * dy >= 0);
            assert(dx * dx >= 0);
            if dx >= r {
                assert(dx * dx >= r * r);
            }
            if dx <= -r {
                assert(dx * dx >= r * r);
            }
            if dy >= r {
                assert(dy * dy >= r * r);
            }
            if dy <= -r {
                assert(dy * dy >= r * r);
            }
        }
        let ox = lemma_axis_neighbor_within_two(p.x as int, q.x as int, w, side, r);
        let oy = lemma_axis_neighbor_within_two(p.y as int, q.y as int, h, side, r);
        assert(leads_to(p.x as int / side, q.x as int / side, cell_count(w, side), ox));
        assert(leads_to(p.y as int / side, q.y as int / side, cell_count(h, side), oy));
        let k = oy * 5 + ox;
        assert(k % 5 == ox && k / 5 == oy);
        k
    }

    /// Lying in each other's block is mutual: the cell that the `k`-th step
    /// reaches from `p` reaches `p` back by the opposite step.
    pub proof fn lemma_block_is_mutual(self, p: Point, q: Point, k: int)
        requires
            self.wf(),
            in_domain(p, self.domain.width as int, self.domain.height as int),
            in_domain(q, self.domain.width as int, self.domain.height as int),
            0 <= k < BLOCK_CELLS,
            self.block_slot(p, k) == self.slot_of(q),
        ensures
            self.block_slot(q, 24 - k) == self.slot_of(p),
            self.in_block(q, p),
    {
        let side = self.side();
        let columns = self.columns();
        let rows = self.rows();
        self.lemma_measures();
        self.lemma_slot_of_in_range(p);
        self.lemma_slot_of_in_range(q);
        let across = p.x as int / side + k % 5 - 2;
        let down = p.y as int / side + k / 5 - 2;
        crate::geometry::lemma_wrap_is_congruent(across, columns);
        crate::geometry::lemma_wrap_is_congruent(down, rows);
        self.lemma_slot_injective(
            wrap_spec(across, columns),
            wrap_spec(down, rows),
            q.x as int / side,
            q.y as int / side,
        );
        lemma_step_back(p.x as int / side, q.x as int / side, k % 5 - 2, columns);
        lemma_step_back(p.y as int / side, q.y as int / side, k / 5 - 2, rows);
        assert((24 - k) % 5 - 2 == -(k % 5 - 2));
        assert((24 - k) / 5 - 2 == -(k / 5 - 2));
    }

    /// What the block search finds is exactly what the cells of the block hold.
    pub proof fn lemma_neighbors_within(self, p: Point, n: nat, index: usize)
        ensures
            self.neighbors_within(p, n).contains(index) <==> exists|k: int|
                0 <= k < n && #[trigger] self.cells[self.block_slot(p, k)] == Some(index),
        decreases n,
    {
        if n == 0 {
            assert(!self.neighbors_within(p, n).contains(index));
        } else {
            let before = self.neighbors_within(p, (n - 1) as nat);
            self.lemma_neighbors_within(p, (n - 1) as nat, index);
            let here = self.cells[self.block_slot(p, n - 1)];
            let found = self.neighbors_within(p, n);
            if found.contains(index) {
                let j = choose|j: int| 0 <= j < found.len() && found[j] == index;
                if here is Some && j == before.len() {
                    assert(self.cells[self.block_slot(p, n - 1)] == Some(index));
                } else {
                    assert(before[j] == index);
                    assert(before.contains(index));
                }
            }
            if exists|k: int|
                0 <= k < n && #[trigger] self.cells[self.block_slot(p, k)] == Some(index) {
                let k = choose|k: int|
                    0 <= k < n && #[trigger] self.cells[self.block_slot(p, k)] == Some(index);
                if k == n - 1 {
                    assert(found == before.push(index));
                    assert(found[before.len() as int] == index);
                } else {
                    assert(before.contains(index));
                    let j = choose|j: int| 0 <= j < before.len() && before[j] == index;
                    assert(found[j] == index);
                }
            }
        }
    }

    /// The block search finds at most one point per cell of the block.
    pub proof fn lemma_neighbors_bounded(self, p: Point, n: nat)
        ensures
            self.neighbors_within(p, n).len() <= n,
        decreases n,
    {
        if n > 0 {
            self.lemma_neighbors_bounded(p, (n - 1) as nat);
        }
    }
}

/// On a cyclic axis, the step that leads from one cell to another leads back
/// when reversed.
pub proof fn lemma_step_back(from: int, to: int, step: int, count: int)
    requires
        count > 0,
        0 <= from < count,
        wrap_spec(from + step, count) == to,
    ensures
        wrap_spec(to - step, count) == from,
{
    crate::geometry::lemma_wrap_is_congruent(from + step, count);
    let turns = (from + step) / count;
    assert(to - step == (-turns) * count + from) by (nonlinear_arith)
        requires
            from + step - to == count * turns,
    ;
    lemma_fundamental_div_mod_converse(to - step, count, -turns, from);
}

/// A grid whose cells are all empty has no occupied cell.
pub proof fn lemma_nothing_occupied(cells: Seq<Option<usize>>)
    requires
        forall|slot: int| 0 <= slot < cells.len() ==> cells[slot] is None,
    ensures
        occupied(cells) == 0,
    decreases cells.len(),
{
    if cells.len() > 0 {
        lemma_nothing_occupied(cells.drop_last());
    }
}

/// Filling an empty cell raises the number of occupied cells by one.
pub proof fn lemma_occupied_after_fill(cells: Seq<Option<usize>>, slot: int, index: usize)
    requires
        0 <= slot < cells.len(),
        cells[slot] is None,
    ensures
        occupied(cells.update(slot, Some(index))) == occupied(cells) + 1,
    decreases cells.len(),
{
    let filled = cells.update(slot, Some(index));
    if slot == cells.len() - 1 {
        assert(filled.drop_last() =~= cells.drop_last());
    } else {
        lemma_occupied_after_fill(cells.drop_last(), slot, index);
        assert(filled.drop_last() =~= cells.drop_last().update(slot, Some(index)));
    }
}

/// No more cells are occupied than there are cells.
pub proof fn lemma_occupied_bounded(cells: Seq<Option<usize>>)
    ensures
        occupied(cells) <= cells.len(),
    decreases cells.len(),
{
    if cells.len() > 0 {
        lemma_occupied_bounded(cells.drop_last());
    }
}

/// The acceleration structure of the sampler: maps each cell of the domain
/// to the index of the one point accepted inside it, if any.
pub struct Grid {
    domain: Domain,
    side: u32,
    columns: u32,
    rows: u32,
    cells: Vec<Option<usize>>,
}

impl View for Grid {
    type V = GridView;

    closed spec fn view(&self) -> GridView {
        GridView { domain: self.domain, cells: self.cells@ }
    }
}

impl Grid {
    /// The stored measures agree with the domain, and there is one entry for
    /// each cell.
    pub closed spec fn wf(&self) -> bool {
        &&& self@.wf()
        &&& self.side == self.domain.cell_side_spec()
        &&& self.columns == self.domain.columns_spec()
        &&& self.rows == self.domain.rows_spec()
    }

    /// A well-formed grid has a well-formed view.
    pub proof fn lemma_view_wf(&self)
        requires
            self.wf(),
        ensures
            self@.wf(),
    {
    }

    /// An empty grid over `domain`, or the reason why there is none.
    pub fn new(domain: Domain) -> (made: Result<Grid, ConfigError>)
        ensures
            match made {
                Ok(grid) => {
                    &&& Domain::rejection(domain.width, domain.height, domain.min_distance) is None
                    &&& grid.wf()
                    &&& grid@.wf()
                    &&& grid@.domain == domain
                    &&& forall|slot: int|
                        0 <= slot < grid@.cells.len() ==> grid@.cells[slot] is None
                },
                Err(e) => Domain::rejection(domain.width, domain.height, domain.min_distance)
                    == Some(e),
            },
    {
        let checked = Domain::new(domain.width, domain.height, domain.min_distance);
        match checked {
            Err(e) => Err(e),
            Ok(_) => {
                let side: u32 = domain.cell_side();
                let columns: u32 = domain.columns();
                let rows: u32 = domain.rows();
                assert(columns * rows <= MAX_CELLS);
                let total: usize = columns as usize * rows as usize;
                let mut cells: Vec<Option<usize>> = Vec::new();
                let mut filled: usize = 0;
                while filled < total
                    invariant
                        filled <= total,
                        cells@.len() == filled,
                        forall|slot: int| 0 <= slot < cells@.len() ==> cells@[slot] is None,
                    decreases total - filled,
                {
                    cells.push(None);
                    filled = filled + 1;
                }
                Ok(Grid { domain, side, columns, rows, cells })
            },
        }
    }

    /// The domain this grid lies over.
    pub fn domain(&self) -> (domain: Domain)
        ensures
            domain == self@.domain,
    {
        self.domain
    }

    /// Column and row of the cell that contains `p`.
    pub fn cell_of(&self, p: Point) -> (cell: (u32, u32))
        requires
            self.wf(),
            in_domain(p, self@.domain.width as int, self@.domain.height as int),
        ensures
            cell.0 == p.x as int / self@.side(),
            cell.1 == p.y as int / self@.side(),
            cell.0 < self@.columns(),
            cell.1 < self@.rows(),
    {
        proof {
            self@.lemma_measures();
            self@.lemma_slot_of_in_range(p);
        }
        (p.x / self.side, p.y / self.side)
    }

    /// Position in the cell array of cell (`column`, `row`).
    fn slot_at(&self, column: u32, row: u32) -> (slot: usize)
        requires
            self.wf(),
            column < self@.columns(),
            row < self@.rows(),
        ensures
            slot == self@.slot(column as int, row as int),
            slot < self@.cells.len(),
    {
        proof {
            self@.lemma_measures();
            self@.lemma_slot_in_range(column as int, row as int);
        }
        row as usize * self.columns as usize + column as usize
    }

    /// The point recorded in the cell that contains `p`, if any.
    pub fn occupant(&self, p: Point) -> (found: Option<usize>)
        requires
            self.wf(),
            in_domain(p, self@.domain.width as int, self@.domain.height as int),
        ensures
            found == self@.cells[self@.slot_of(p)],
    {
        let cell = self.cell_of(p);
        let slot: usize = self.slot_at(cell.0, cell.1);
        self.cells[slot]
    }

    /// Records `index` in the cell of `p`, which must be empty.
    pub fn insert(&mut self, p: Point, index: usize)
        requires
            old(self).wf(),
            in_domain(p, old(self)@.domain.width as int, old(self)@.domain.height as int),
            old(self)@.cells[old(self)@.slot_of(p)] is None,
        ensures
            final(self).wf(),
            final(self)@ == old(self)@.insert(p, index),
    {
        let cell = self.cell_of(p);
        let slot: usize = self.slot_at(cell.0, cell.1);
        self.cells.set(slot, Some(index));
        assert(self@.cells =~= old(self)@.insert(p, index).cells);
    }

    /// The points recorded in the 5 x 5 block of cells around `p`, in the
    /// order in which the block is walked.
    pub fn neighbors(&self, p: Point) -> (found: Vec<usize>)
        requires
            self.wf(),
            in_domain(p, self@.domain.width as int, self@.domain.height as int),
        ensures
            found@ == self@.neighbors(p),
            found@.len() <= BLOCK_CELLS,
    {
        let cell = self.cell_of(p);
        let mut found: Vec<usize> = Vec::new();
        let mut k: usize = 0;
        while k < BLOCK_CELLS
            invariant
                self.wf(),
                k <= BLOCK_CELLS,
                cell.0 == p.x as int / self@.side(),
                cell.1 == p.y as int / self@.side(),
                found@ == self@.neighbors_within(p, k as nat),
            decreases BLOCK_CELLS - k,
        {
            proof {
                self@.lemma_measures();
            }
            let across: i64 = cell.0 as i64 + (k % 5) as i64 - 2;
            let down: i64 = cell.1 as i64 + (k / 5) as i64 - 2;
            let column: u32 = wrap(across, self.columns);
            let row: u32 = wrap(down, self.rows);
            let slot: usize = self.slot_at(column, row);
            assert(slot == self@.block_slot(p, k as int));
            match self.cells[slot] {
                Some(index) => {
                    found.push(index);
                },
                None => {},
            }
            k = k + 1;
        }
        proof {
            self@.lemma_neighbors_bounded(p, BLOCK_CELLS as nat);
        }
        found
    }
}

} // verus!
