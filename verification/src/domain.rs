//! The sampling domain and the uniform grid laid over it.
use vstd::prelude::*;
use vstd::arithmetic::div_mod::{lemma_fundamental_div_mod, lemma_fundamental_div_mod_converse};
use crate::geometry::{isqrt, toroidal_delta_spec};

verus! {

/// Upper limit on the number of grid cells a sampler may allocate.
pub const MAX_CELLS: u64 = 16_777_216;

/// Why a configuration was turned down.
#[derive(Clone, Copy, Debug, PartialEq, Eq, Structural)]
pub enum ConfigError {
    /// The width is zero.
    EmptyWidth,
    /// The height is zero.
    EmptyHeight,
    /// The minimum distance is zero.
    NoSeparation,
    /// The grid over the domain would have more than `MAX_CELLS` cells.
    TooManyCells,
}

/// A wrapping rectangle together with the separation demanded of its points.
#[derive(Clone, Copy, Debug, PartialEq, Eq, Structural)]
pub struct Domain {
    pub width: u32,
    pub height: u32,
    pub min_distance: u32,
}

/// `side` is the cell side that goes with `min_distance`: the integer part of
/// `min_distance / sqrt(2)`, but never less than one lattice unit.
pub open spec fn is_cell_side(min_distance: int, side: int) -> bool {
    &&& side >= 1
    &&& side == 1 || 2 * side * side <= min_distance * min_distance
    &&& min_distance * min_distance < 2 * (side + 1) * (side + 1)
}

/// Number of cells of side `side` needed to cover `extent`, the last one
/// possibly narrower than the rest.
pub open spec fn cell_count(extent: int, side: int) -> int {
    (extent - 1) / side + 1
}

/// A block of five consecutive cells, taken cyclically, contains every cell
/// that holds a coordinate less than `min_distance` away from a coordinate of
/// the middle cell.
///
/// This is so when the axis has at most five cells, and otherwise exactly when
/// the last cell, which may be narrower than the rest, is wide enough: the
/// cells but the last two, and the minimum distance less one unit, must fit
/// into the axis.
pub open spec fn axis_reached(extent: int, side: int, min_distance: int) -> bool {
    let count = cell_count(extent, side);
    count <= 5 || (count - 2) * side + min_distance <= extent + 1
}

impl Domain {
    /// All three measures are positive.
    pub open spec fn valid(self) -> bool {
        self.width > 0 && self.height > 0 && self.min_distance > 0
    }

    /// The cell side of the grid over this domain.
    pub open spec fn cell_side_spec(self) -> int {
        choose|side: int| is_cell_side(self.min_distance as int, side)
    }

    pub open spec fn columns_spec(self) -> int {
        cell_count(self.width as int, self.cell_side_spec())
    }

    pub open spec fn rows_spec(self) -> int {
        cell_count(self.height as int, self.cell_side_spec())
    }

    /// The 5 x 5 block of cells around a point reaches every cell that can
    /// hold a point closer than the minimum distance.
    pub open spec fn block_reaches(self) -> bool {
        &&& axis_reached(self.width as int, self.cell_side_spec(), self.min_distance as int)
        &&& axis_reached(self.height as int, self.cell_side_spec(), self.min_distance as int)
    }

    /// The configuration error for these measures, if there is one.
    pub open spec fn rejection(width: u32, height: u32, min_distance: u32) -> Option<ConfigError> {
        let domain = Domain { width, height, min_distance };
        if width == 0 {
            Some(ConfigError::EmptyWidth)
        } else if height == 0 {
            Some(ConfigError::EmptyHeight)
        } else if min_distance == 0 {
            Some(ConfigError::NoSeparation)
        } else if domain.columns_spec() * domain.rows_spec() > MAX_CELLS {
            Some(ConfigError::TooManyCells)
        } else {
            None
        }
    }

    /// Valid, and small enough for its grid to be allocated.
    pub open spec fn usable(self) -> bool {
        Self::rejection(self.width, self.height, self.min_distance) is None
    }

    /// A side that goes with the minimum distance is the cell side.
    pub proof fn lemma_cell_side_is(self, side: int)
        requires
            is_cell_side(self.min_distance as int, side),
        ensures
            self.cell_side_spec() == side,
    {
        lemma_cell_side_unique(self.min_distance as int, side, self.cell_side_spec());
    }

    /// Checks the measures and packs them.
    pub fn new(width: u32, height: u32, min_distance: u32) -> (made: Result<Domain, ConfigError>)
        ensures
            match made {
                Ok(domain) => Self::rejection(width, height, min_distance) is None && domain == (Domain {
                    width,
                    height,
                    min_distance,
                }),
                Err(e) => Self::rejection(width, height, min_distance) == Some(e),
            },
    {
        let domain = Domain { width, height, min_distance };
        if width == 0 {
            return Err(ConfigError::EmptyWidth);
        }
        if height == 0 {
            return Err(ConfigError::EmptyHeight);
        }
        if min_distance == 0 {
            return Err(ConfigError::NoSeparation);
        }
        let columns: u64 = domain.columns() as u64;
        let rows: u64 = domain.rows() as u64;
        assert(columns * rows <= 0xffff_ffff * 0xffff_ffff) by (nonlinear_arith)
            requires
                0 <= columns <= 0xffff_ffff,
                0 <= rows <= 0xffff_ffff,
        ;
        if columns * rows > MAX_CELLS {
            return Err(ConfigError::TooManyCells);
        }
        Ok(domain)
    }

    /// The cell side of the grid over this domain.
    pub fn cell_side(&self) -> (side: u32)
        ensures
            side == self.cell_side_spec(),
            is_cell_side(self.min_distance as int, side as int),
    {
        let r: u64 = self.min_distance as u64;
        assert(r * r <= 0xffff_ffff * 0xffff_ffff) by (nonlinear_arith)
            requires
                0 <= r <= 0xffff_ffff,
        ;
        let half: u64 = (r * r) / 2;
        let root: u64 = isqrt(half);
        let side: u64 = if root == 0 {
            1
        } else {
            root
        };
        proof {
            let rr = (r * r) as int;
            assert(rr < 2 * (root + 1) * (root + 1)) by (nonlinear_arith)
                requires
                    rr / 2 < (root + 1) * (root + 1),
            ;
            assert(2 * root * root <= rr) by (nonlinear_arith)
                requires
                    root * root <= rr / 2,
            ;
            if root == 0 {
                assert(rr < 2 * (1 + 1) * (1 + 1));
            }
            assert(side * side <= 0xffff_ffff * 0xffff_ffff) by (nonlinear_arith)
                requires
                    side == 1 || 2 * side * side <= r * r,
                    r * r <= 0xffff_ffff * 0xffff_ffff,
                    side >= 1,
            ;
            assert(side <= 0xffff_ffff) by (nonlinear_arith)
                requires
                    side * side <= 0xffff_ffff * 0xffff_ffff,
                    side >= 0,
            ;
            assert(is_cell_side(r as int, side as int));
            lemma_cell_side_unique(r as int, side as int, self.cell_side_spec());
        }
        side as u32
    }

    /// Number of grid columns.
    pub fn columns(&self) -> (count: u32)
        ensures
            count == self.columns_spec(),
            self.width > 0 ==> count >= 1,
    {
        count_cells(self.width, self.cell_side())
    }

    /// Number of grid rows.
    pub fn rows(&self) -> (count: u32)
        ensures
            count == self.rows_spec(),
            self.height > 0 ==> count >= 1,
    {
        count_cells(self.height, self.cell_side())
    }

    /// Whether the 5 x 5 block of cells around a point reaches every cell
    /// that can hold a point closer than the minimum distance.
    pub fn reaches_all_neighbors(&self) -> (reached: bool)
        ensures
            reached == self.block_reaches(),
    {
        let side: u32 = self.cell_side();
        let across: bool = axis_is_reached(self.width, side, self.min_distance);
        let down: bool = axis_is_reached(self.height, side, self.min_distance);
        across && down
    }
}

/// Number of cells of side `side` needed to cover `extent`; none for an
/// axis of no extent.
fn count_cells(extent: u32, side: u32) -> (count: u32)
    requires
        side > 0,
    ensures
        count == cell_count(extent as int, side as int),
        extent > 0 ==> count >= 1,
        extent == 0 ==> count == 0,
{
    if extent == 0 {
        proof {
            lemma_fundamental_div_mod_converse(-1, side as int, -1, side as int - 1);
        }
        return 0;
    }
    proof {
        lemma_cell_count_bounds(extent as int, side as int);
    }
    (extent - 1) / side + 1
}

/// Decides `axis_reached` for one axis.
fn axis_is_reached(extent: u32, side: u32, min_distance: u32) -> (reached: bool)
    requires
        side > 0,
    ensures
        reached == axis_reached(extent as int, side as int, min_distance as int),
{
    let count: u64 = count_cells(extent, side) as u64;
    if count <= 5 {
        return true;
    }
    proof {
        lemma_cell_count_bounds(extent as int, side as int);
    }
    let side_wide: u64 = side as u64;
    assert((count - 2) * side_wide < extent) by (nonlinear_arith)
        requires
            (count - 1) * side_wide < extent,
            side_wide > 0,
            count >= 2,
    ;
    (count - 2) * side_wide + min_distance as u64 <= extent as u64 + 1
}

/// Only one cell side goes with a given minimum distance.
pub proof fn lemma_cell_side_unique(min_distance: int, a: int, b: int)
    requires
        min_distance >= 0,
        is_cell_side(min_distance, a),
    ensures
        is_cell_side(min_distance, b) ==> a == b,
{
    if is_cell_side(min_distance, b) && a != b {
        let lo = if a < b { a } else { b };
        let hi = if a < b { b } else { a };
        // the larger side is at least two, so its square bound applies; the
        // smaller side is then too small to satisfy the upper bound
        assert(false) by (nonlinear_arith)
            requires
                1 <= lo < hi,
                2 * hi * hi <= min_distance * min_distance,
                min_distance * min_distance < 2 * (lo + 1) * (lo + 1),
        {
            assert((lo + 1) * (lo + 1) <= hi * hi);
        }
    }
}

/// Some cell side goes with every positive minimum distance.
pub proof fn lemma_cell_side_exists(min_distance: int)
    requires
        min_distance > 0,
    ensures
        exists|side: int| is_cell_side(min_distance, side),
    decreases min_distance,
{
    // walk up from one until the next side would be too long
    lemma_cell_side_search(min_distance, 1);
}

/// Searching upward from a side that is not too long finds the cell side.
proof fn lemma_cell_side_search(min_distance: int, side: int)
    requires
        min_distance > 0,
        side >= 1,
        side == 1 || 2 * side * side <= min_distance * min_distance,
    ensures
        exists|found: int| is_cell_side(min_distance, found),
    decreases min_distance - side,
{
    if min_distance * min_distance < 2 * (side + 1) * (side + 1) {
        assert(is_cell_side(min_distance, side));
    } else {
        assert(side + 1 <= min_distance) by (nonlinear_arith)
            requires
                min_distance * min_distance >= 2 * (side + 1) * (side + 1),
                min_distance > 0,
                side >= 1,
        {
            if side + 1 > min_distance {
                assert((side + 1) * (side + 1) > min_distance * min_distance);
            }
        }
        lemma_cell_side_search(min_distance, side + 1);
    }
}

/// The cells of an axis cover it: all but the last are full, the last is not
/// empty.
pub proof fn lemma_cell_count_bounds(extent: int, side: int)
    requires
        extent > 0,
        side > 0,
    ensures
        cell_count(extent, side) >= 1,
        cell_count(extent, side) <= extent,
        (cell_count(extent, side) - 1) * side < extent <= cell_count(extent, side) * side,
{
    let q = (extent - 1) / side;
    lemma_fundamental_div_mod(extent - 1, side);
    assert(q >= 0 && q <= extent - 1 && (q + 1 - 1) * side < extent && extent <= (q + 1) * side)
        by (nonlinear_arith)
        requires
            extent - 1 == side * q + (extent - 1) % side,
            0 <= (extent - 1) % side < side,
            extent > 0,
            side > 0,
    ;
}

/// The bounds of the cell of a coordinate.
pub proof fn lemma_cell_encloses(x: int, side: int)
    requires
        side > 0,
    ensures
        (x / side) * side <= x < (x / side) * side + side,
        x >= 0 ==> x / side >= 0,
{
    lemma_fundamental_div_mod(x, side);
    assert((x / side) * side == side * (x / side)) by (nonlinear_arith);
    if x >= 0 && x / side < 0 {
        assert((x / side) * side + side <= 0) by (nonlinear_arith)
            requires
                x / side <= -1,
                side > 0,
        ;
    }
}

/// Cell numbers grow with coordinates.
pub proof fn lemma_cell_ordered(x: int, side: int, cell: int)
    requires
        side > 0,
    ensures
        x >= cell * side ==> x / side >= cell,
        x < cell * side ==> x / side < cell,
{
    lemma_cell_encloses(x, side);
    let c = x / side;
    if x >= cell * side && c < cell {
        assert(c * side + side <= cell * side) by (nonlinear_arith)
            requires
                c + 1 <= cell,
                side > 0,
        ;
    }
    if x < cell * side && c >= cell {
        assert(cell * side <= c * side) by (nonlinear_arith)
            requires
                cell <= c,
                side > 0,
        ;
    }
}

/// The cell of every coordinate of the axis has a number below the count.
pub proof fn lemma_cell_in_range(x: int, extent: int, side: int)
    requires
        side > 0,
        0 <= x < extent,
    ensures
        0 <= x / side < cell_count(extent, side),
{
    lemma_cell_count_bounds(extent, side);
    lemma_cell_encloses(x, side);
    lemma_cell_ordered(x, side, cell_count(extent, side));
}

/// A minimum distance never exceeds two cell sides.
pub proof fn lemma_two_sides_span(min_distance: int, side: int)
    requires
        min_distance > 0,
        is_cell_side(min_distance, side),
    ensures
        min_distance <= 2 * side,
{
    assert(min_distance <= 2 * side) by (nonlinear_arith)
        requires
            min_distance > 0,
            side >= 1,
            min_distance * min_distance < 2 * (side + 1) * (side + 1),
    {
        if min_distance >= 2 * side + 1 {
            assert(min_distance * min_distance >= (2 * side + 1) * (2 * side + 1));
            assert((2 * side + 1) * (2 * side + 1) >= 2 * (side + 1) * (side + 1));
        }
    }
}

/// Two coordinates of one cell are less than the minimum distance apart on
/// both axes together.
pub proof fn lemma_same_cell_is_close(min_distance: int, side: int, dx: int, dy: int)
    requires
        min_distance > 0,
        is_cell_side(min_distance, side),
        -side < dx < side,
        -side < dy < side,
    ensures
        dx * dx + dy * dy < min_distance * min_distance,
{
    if side == 1 {
        assert(dx == 0 && dy == 0);
        assert(dx * dx + dy * dy == 0);
        assert(min_distance * min_distance > 0) by (nonlinear_arith)
            requires
                min_distance > 0,
        ;
    } else {
        assert(dx * dx + dy * dy < 2 * side * side) by (nonlinear_arith)
            requires
                -side < dx < side,
                -side < dy < side,
        {
            assert(dx * dx < side * side);
            assert(dy * dy < side * side);
        }
    }
}

/// Cyclic offset, in `0..5` for `-2..=2`, that leads from cell `from` to cell
/// `to` of an axis with `count` cells.
pub open spec fn leads_to(from: int, to: int, count: int, offset: int) -> bool {
    0 <= offset < 5 && (from + offset - 2) % count == to
}

/// On an axis that is reached, a coordinate closer than the minimum distance
/// lies at most two cells away, counted cyclically.
pub proof fn lemma_axis_neighbor_within_two(
    a: int,
    b: int,
    extent: int,
    side: int,
    min_distance: int,
) -> (offset: int)
    requires
        0 <= a < extent,
        0 <= b < extent,
        min_distance > 0,
        is_cell_side(min_distance, side),
        axis_reached(extent, side, min_distance),
        -min_distance < toroidal_delta_spec(a, b, extent) < min_distance,
    ensures
        leads_to(a / side, b / side, cell_count(extent, side), offset),
{
    let count = cell_count(extent, side);
    let ca = a / side;
    let cb = b / side;
    let d = toroidal_delta_spec(a, b, extent);
    lemma_cell_count_bounds(extent, side);
    lemma_cell_in_range(a, extent, side);
    lemma_cell_in_range(b, extent, side);
    lemma_cell_encloses(a, side);
    lemma_cell_encloses(b, side);
    lemma_two_sides_span(min_distance, side);
    if count <= 5 {
        let shifted = cb - ca + 2;
        let offset = shifted % count;
        lemma_fundamental_div_mod(shifted, count);
        let turns = shifted / count;
        assert(ca + offset - 2 == (-turns) * count + cb) by (nonlinear_arith)
            requires
                shifted == count * turns + offset,
                shifted == cb - ca + 2,
        ;
        lemma_fundamental_div_mod_converse(ca + offset - 2, count, -turns, cb);
        offset
    } else if d == b - a {
        assert((ca + 3) * side == ca * side + 3 * side) by (nonlinear_arith);
        assert((ca - 2) * side == ca * side - 2 * side) by (nonlinear_arith);
        lemma_cell_ordered(b, side, ca + 3);
        lemma_cell_ordered(b, side, ca - 2);
        let offset = cb - ca + 2;
        lemma_fundamental_div_mod_converse(cb, count, 0, cb);
        offset
    } else if d == b - a - extent {
        // b lies across the seam to the left of a
        assert((ca + count - 2) * side == ca * side + (count - 2) * side) by (nonlinear_arith);
        lemma_cell_ordered(b, side, ca + count - 2);
        let offset = cb - ca - count + 2;
        assert(ca + offset - 2 == (-1) * count + cb);
        lemma_fundamental_div_mod_converse(ca + offset - 2, count, -1, cb);
        offset
    } else {
        // b lies across the seam to the right of a
        assert((ca - count + 3) * side == ca * side + side - (count - 2) * side)
            by (nonlinear_arith);
        lemma_cell_ordered(b, side, ca - count + 3);
        let offset = cb - ca + count + 2;
        assert(ca + offset - 2 == 1 * count + cb);
        lemma_fundamental_div_mod_converse(ca + offset - 2, count, 1, cb);
        offset
    }
}

/// On an axis that is not reached, the block misses a close coordinate:
/// there are two coordinates less than the minimum distance apart across the
/// seam whose cells no step of the block connects.
pub proof fn lemma_unreached_axis_has_gap(extent: int, side: int, min_distance: int) -> (pair: (
    int,
    int,
))
    requires
        extent > 0,
        min_distance > 0,
        is_cell_side(min_distance, side),
        !axis_reached(extent, side, min_distance),
    ensures
        0 <= pair.0 < extent,
        0 <= pair.1 < extent,
        -min_distance < toroidal_delta_spec(pair.0, pair.1, extent) < min_distance,
        ({
            let from = pair.0 / side;
            let to = pair.1 / side;
            let count = cell_count(extent, side);
            forall|offset: int| !#[trigger] leads_to(from, to, count, offset)
        }),
{
    let count = cell_count(extent, side);
    let b = extent - min_distance + 1;
    lemma_cell_count_bounds(extent, side);
    lemma_two_sides_span(min_distance, side);
    assert((count - 1) * side >= 5 * side && (count - 1) * side == (count - 2) * side + side)
        by (nonlinear_arith)
        requires
            count - 1 >= 5,
            side > 0,
    ;
    lemma_cell_ordered(b, side, 3);
    lemma_cell_ordered(b, side, count - 2);
    lemma_fundamental_div_mod_converse(0, side, 0, 0);
    lemma_fundamental_div_mod_converse(-2, count, -1, count - 2);
    lemma_fundamental_div_mod_converse(-1, count, -1, count - 1);
    lemma_fundamental_div_mod_converse(0, count, 0, 0);
    lemma_fundamental_div_mod_converse(1, count, 0, 1);
    lemma_fundamental_div_mod_converse(2, count, 0, 2);
    (0, b)
}

} // verus!
