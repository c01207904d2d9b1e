//! The capability every grid representation offers.

use vstd::prelude::*;
use crate::cells::{
    is_bounding_box, lemma_bounding_box_within, lemma_read_before_step, less, read_before,
    rotated, rotated_dim, shifted, within,
};
use crate::rotation::Rotation;

verus! {

/// A representation of the N x N grid, which maps coordinates to a boolean.
///
/// Finitely many cells are true, so a bounding box surrounds them. Rotating
/// the grid means rotating only the cells inside a region of a given
/// dimension, such that a corner of the region becomes the new corner (0, 0):
///
/// ```text
/// ^        ^
/// +---+    |
/// |x  |    +------+
/// |   |    |      |
/// |   |    |x     |
/// +---+>   +------+>
/// ```
///
/// The contracts speak of three things only: the set of true cells
/// (`cells`), the region that can currently be addressed (`extent`), and the
/// limits of the representation (`limit`, `shift_limit`).
pub trait Grid: Sized {
    /// The true cells.
    spec fn cells(&self) -> Set<(int, int)>;

    /// Width and height of the region `[0, w) x [0, h)` that can be
    /// addressed without reserving more space.
    spec fn extent(&self) -> (int, int);

    /// The invariant of the representation.
    spec fn wf(&self) -> bool;

    /// The largest width and height a grid of this kind can have.
    spec fn limit() -> int;

    /// The largest distance a single shift can cover.
    spec fn shift_limit() -> int;

    /// The most by which the extent of a grid of this kind may reach beyond
    /// a dimension that is passed to `rotate`, and beyond what
    /// `reserve_space` is asked for.
    spec fn slack() -> int;

    /// What the invariant says in terms of the model: finitely many true
    /// cells, all of them addressable, and an extent within the limit.
    proof fn lemma_wf(&self)
        requires
            self.wf(),
        ensures
            self.cells().finite(),
            within(self.cells(), self.extent().0, self.extent().1),
            0 <= self.extent().0 <= Self::limit(),
            0 <= self.extent().1 <= Self::limit(),
    ;

    /// The limits are the same for every grid of a kind: wide enough for a
    /// shift by one cell, for a new grid of 4 x 4 cells and its slack, and
    /// within a byte-sized dimension.
    proof fn lemma_limits()
        ensures
            1 <= Self::shift_limit(),
            4 <= Self::limit() <= 256,
            4 <= Self::slack() <= Self::limit(),
    ;

    /// The largest width and height a grid of this kind can have: the
    /// coordinates that can be reserved are those below it.
    fn capacity() -> (n: usize)
        ensures
            n == Self::limit(),
    ;

    /// The largest distance a single shift can cover.
    fn reach() -> (n: isize)
        ensures
            n == Self::shift_limit(),
    ;

    /// Create a new grid with all cells false.
    fn new() -> (g: Self)
        ensures
            g.wf(),
            g.cells() == Set::<(int, int)>::empty(),
            4 <= g.extent().0 <= Self::slack(),
            4 <= g.extent().1 <= Self::slack(),
    ;

    /// Reserve space so that all cells in (0, 0) -> (x, y) **inclusive** can
    /// be addressed. The cells stay as they are.
    fn reserve_space(&mut self, x: usize, y: usize)
        requires
            old(self).wf(),
            x < Self::limit(),
            y < Self::limit(),
        ensures
            final(self).wf(),
            final(self).cells() == old(self).cells(),
            final(self).extent().0 > x,
            final(self).extent().1 > y,
            final(self).extent().0 >= old(self).extent().0,
            final(self).extent().1 >= old(self).extent().1,
            final(self).extent().0 == old(self).extent().0 || final(self).extent().0 <= x
                + Self::slack(),
            final(self).extent().1 == old(self).extent().1 || final(self).extent().1 <= y
                + Self::slack(),
    ;

    /// The size of the zone between (0, 0) -> (x, y) **exclusive** that holds
    /// all true cells.
    fn get_bounding_box(&self) -> (bb: (usize, usize))
        requires
            self.wf(),
        ensures
            is_bounding_box(self.cells(), bb.0 as int, bb.1 as int),
    ;

    /// Set the cell at (x, y) to true.
    fn set(&mut self, x: usize, y: usize)
        requires
            old(self).wf(),
            x < old(self).extent().0,
            y < old(self).extent().1,
        ensures
            final(self).wf(),
            final(self).cells() == old(self).cells().insert((x as int, y as int)),
            final(self).extent() == old(self).extent(),
    ;

    /// Set the cell at (x, y) to false.
    fn unset(&mut self, x: usize, y: usize)
        requires
            old(self).wf(),
            x < old(self).extent().0,
            y < old(self).extent().1,
        ensures
            final(self).wf(),
            final(self).cells() == old(self).cells().remove((x as int, y as int)),
            final(self).extent() == old(self).extent(),
    ;

    /// The value of the cell at (x, y).
    fn get(&self, x: usize, y: usize) -> (b: bool)
        requires
            self.wf(),
            x < self.extent().0,
            y < self.extent().1,
        ensures
            b == self.cells().contains((x as int, y as int)),
    ;

    /// The number of true cells.
    fn count(&self) -> (n: u32)
        requires
            self.wf(),
        ensures
            n == self.cells().len(),
    ;

    /// Shift the grid by `n` in the X direction. Cells pushed out of the
    /// extent are lost; the cells that come in are false.
    fn shift_x(&mut self, n: isize)
        requires
            old(self).wf(),
            -Self::shift_limit() <= n <= Self::shift_limit(),
        ensures
            final(self).wf(),
            final(self).extent() == old(self).extent(),
            final(self).cells() == shifted(
                old(self).cells(),
                n as int,
                0,
                old(self).extent().0,
                old(self).extent().1,
            ),
    ;

    /// Shift the grid by `n` in the Y direction. Cells pushed out of the
    /// extent are lost; the cells that come in are false.
    fn shift_y(&mut self, n: isize)
        requires
            old(self).wf(),
            -Self::shift_limit() <= n <= Self::shift_limit(),
        ensures
            final(self).wf(),
            final(self).extent() == old(self).extent(),
            final(self).cells() == shifted(
                old(self).cells(),
                0,
                n as int,
                old(self).extent().0,
                old(self).extent().1,
            ),
    ;

    /// Rotate the portion of the grid of dimension `dim`, which has to fit
    /// the grid. The receiver is left as it is; the rotated dimension fits
    /// the result.
    fn rotate(&self, dim: (u8, u8), r: Rotation) -> (g: Self)
        requires
            self.wf(),
            dim.0 <= self.extent().0 <= dim.0 + Self::slack(),
            dim.1 <= self.extent().1 <= dim.1 + Self::slack(),
        ensures
            g.wf(),
            g.cells() == rotated(self.cells(), dim.0 as int, dim.1 as int, r),
            rotated_dim(dim.0 as int, dim.1 as int, r).0 <= g.extent().0 <= rotated_dim(
                dim.0 as int,
                dim.1 as int,
                r,
            ).0 + Self::slack(),
            rotated_dim(dim.0 as int, dim.1 as int, r).1 <= g.extent().1 <= rotated_dim(
                dim.0 as int,
                dim.1 as int,
                r,
            ).1 + Self::slack(),
    ;

    /// A grid with the same cells and the same extent.
    fn duplicate(&self) -> (g: Self)
        requires
            self.wf(),
        ensures
            g.wf(),
            g.cells() == self.cells(),
            g.extent() == self.extent(),
    ;

    /// Whether both grids hold the same cells.
    fn same_cells(&self, other: &Self) -> (b: bool)
        requires
            self.wf(),
            other.wf(),
        ensures
            b == (self.cells() == other.cells()),
    ;

    /// Whether `self` comes before `other` in the order of the grids.
    fn less_than(&self, other: &Self) -> (b: bool)
        requires
            self.wf(),
            other.wf(),
        ensures
            b == less(self.cells(), other.cells()),
    ;

    /// Add the cells of `other` to `self`.
    fn merge(&mut self, other: &Self)
        requires
            old(self).wf(),
            other.wf(),
        ensures
            final(self).wf(),
            final(self).cells() == old(self).cells().union(other.cells()),
            final(self).extent().0 == larger(old(self).extent().0, other.extent().0),
            final(self).extent().1 == larger(old(self).extent().1, other.extent().1),
    ;
}

/// The larger of two numbers.
pub open spec fn larger(a: int, b: int) -> int {
    if a >= b {
        a
    } else {
        b
    }
}

/// Whether a region of the dimension `dim` fits the grid: the grid can be
/// addressed over the whole region, and reaches beyond it by no more than
/// the slack of its kind.
pub open spec fn fits_dimension<T: Grid>(g: &T, dim: (int, int)) -> bool {
    &&& dim.0 <= g.extent().0 <= dim.0 + T::slack()
    &&& dim.1 <= g.extent().1 <= dim.1 + T::slack()
}

/// Whether a region of the dimension `dim` fits the grid.
pub open spec fn fits<T: Grid>(g: &T, dim: (u8, u8)) -> bool {
    fits_dimension(g, (dim.0 as int, dim.1 as int))
}

/// A grid of another representation with the same cells.
pub fn transfer<T, U>(from: &T) -> (to: U) where T: Grid, U: Grid
    requires
        from.wf(),
        within(from.cells(), U::limit(), U::limit()),
    ensures
        to.wf(),
        to.cells() == from.cells(),
{
    let mut to = U::new();
    let dim = from.get_bounding_box();
    proof {
        from.lemma_wf();
        U::lemma_limits();
        let cells = from.cells();
        lemma_bounding_box_within(
            cells,
            dim.0 as int,
            dim.1 as int,
            from.extent().0,
            from.extent().1,
        );
        lemma_bounding_box_within(cells, dim.0 as int, dim.1 as int, U::limit(), U::limit());
    }
    if dim.0 == 0 || dim.1 == 0 {
        proof {
            assert(from.cells() =~= Set::<(int, int)>::empty()) by {
                assert forall|c: (int, int)| !from.cells().contains(c) by {
                    if from.cells().contains(c) {
                        assert(c.0 < dim.0 && c.1 < dim.1);
                    }
                }
            }
        }
        return to;
    }
    to.reserve_space(dim.0 - 1, dim.1 - 1);
    let mut x: usize = 0;
    while x < dim.0
        invariant
            x <= dim.0,
            from.wf(),
            to.wf(),
            dim.0 <= from.extent().0,
            dim.1 <= from.extent().1,
            dim.0 <= to.extent().0,
            dim.1 <= to.extent().1,
            is_bounding_box(from.cells(), dim.0 as int, dim.1 as int),
            to.cells() == read_before(from.cells(), (x as int, 0)),
        decreases dim.0 - x,
    {
        let mut y: usize = 0;
        while y < dim.1
            invariant
                x < dim.0,
                y <= dim.1,
                from.wf(),
                to.wf(),
                dim.0 <= from.extent().0,
                dim.1 <= from.extent().1,
                dim.0 <= to.extent().0,
                dim.1 <= to.extent().1,
                is_bounding_box(from.cells(), dim.0 as int, dim.1 as int),
                to.cells() == read_before(from.cells(), (x as int, y as int)),
            decreases dim.1 - y,
        {
            proof {
                lemma_read_before_step(from.cells(), x as int, y as int);
            }
            if from.get(x, y) {
                to.set(x, y);
            }
            y += 1;
        }
        proof {
            from.lemma_wf();
            assert(read_before(from.cells(), (x as int, dim.1 as int)) =~= read_before(
                from.cells(),
                (x + 1, 0),
            ));
        }
        x += 1;
    }
    proof {
        from.lemma_wf();
        assert(read_before(from.cells(), (dim.0 as int, 0)) =~= from.cells());
    }
    to
}

/// Whether two grids, of whatever representations, hold the same cells:
/// the bounding boxes are the same, and so is every cell inside them.
pub fn are_equal<T, U>(lhs: &T, rhs: &U) -> (same: bool) where T: Grid, U: Grid
    requires
        lhs.wf(),
        rhs.wf(),
    ensures
        same == (lhs.cells() == rhs.cells()),
{
    let bb_lhs = lhs.get_bounding_box();
    let bb_rhs = rhs.get_bounding_box();
    proof {
        lhs.lemma_wf();
        rhs.lemma_wf();
        lemma_bounding_box_within(
            lhs.cells(),
            bb_lhs.0 as int,
            bb_lhs.1 as int,
            lhs.extent().0,
            lhs.extent().1,
        );
        lemma_bounding_box_within(
            rhs.cells(),
            bb_rhs.0 as int,
            bb_rhs.1 as int,
            rhs.extent().0,
            rhs.extent().1,
        );
    }
    if bb_lhs.0 != bb_rhs.0 || bb_lhs.1 != bb_rhs.1 {
        return false;
    }
    let mut x: usize = 0;
    while x < bb_lhs.0
        invariant
            x <= bb_lhs.0,
            lhs.wf(),
            rhs.wf(),
            bb_lhs == bb_rhs,
            bb_lhs.0 <= lhs.extent().0,
            bb_lhs.1 <= lhs.extent().1,
            bb_lhs.0 <= rhs.extent().0,
            bb_lhs.1 <= rhs.extent().1,
            is_bounding_box(lhs.cells(), bb_lhs.0 as int, bb_lhs.1 as int),
            is_bounding_box(rhs.cells(), bb_lhs.0 as int, bb_lhs.1 as int),
            read_before(lhs.cells(), (x as int, 0)) == read_before(rhs.cells(), (x as int, 0)),
        decreases bb_lhs.0 - x,
    {
        let mut y: usize = 0;
        while y < bb_lhs.1
            invariant
                x < bb_lhs.0,
                y <= bb_lhs.1,
                lhs.wf(),
                rhs.wf(),
                bb_lhs == bb_rhs,
                bb_lhs.0 <= lhs.extent().0,
                bb_lhs.1 <= lhs.extent().1,
                bb_lhs.0 <= rhs.extent().0,
                bb_lhs.1 <= rhs.extent().1,
                is_bounding_box(lhs.cells(), bb_lhs.0 as int, bb_lhs.1 as int),
                is_bounding_box(rhs.cells(), bb_lhs.0 as int, bb_lhs.1 as int),
                read_before(lhs.cells(), (x as int, y as int)) == read_before(
                    rhs.cells(),
                    (x as int, y as int),
                ),
            decreases bb_lhs.1 - y,
        {
            proof {
                lemma_read_before_step(lhs.cells(), x as int, y as int);
                lemma_read_before_step(rhs.cells(), x as int, y as int);
            }
            if lhs.get(x, y) != rhs.get(x, y) {
                return false;
            }
            y += 1;
        }
        proof {
            lhs.lemma_wf();
            rhs.lemma_wf();
            assert(read_before(lhs.cells(), (x as int, bb_lhs.1 as int)) =~= read_before(
                lhs.cells(),
                (x + 1, 0),
            ));
            assert(read_before(rhs.cells(), (x as int, bb_lhs.1 as int)) =~= read_before(
                rhs.cells(),
                (x + 1, 0),
            ));
        }
        x += 1;
    }
    proof {
        lhs.lemma_wf();
        rhs.lemma_wf();
        assert(read_before(lhs.cells(), (bb_lhs.0 as int, 0)) =~= lhs.cells());
        assert(read_before(rhs.cells(), (bb_lhs.0 as int, 0)) =~= rhs.cells());
    }
    true
}

/// Rotate two grids, each in its own representation, and hold the results
/// against each other: whether the rotations of the portion of dimension
/// `dim` hold the same cells. Two grids that hold the same cells always
/// agree: every representation rotates as the model says.
pub fn rotations_agree<T, U>(lhs: &T, rhs: &U, dim: (u8, u8), r: Rotation) -> (same: bool) where
    T: Grid,
    U: Grid,

    requires
        lhs.wf(),
        rhs.wf(),
        fits(lhs, dim),
        fits(rhs, dim),
    ensures
        same == (rotated(lhs.cells(), dim.0 as int, dim.1 as int, r) == rotated(
            rhs.cells(),
            dim.0 as int,
            dim.1 as int,
            r,
        )),
        lhs.cells() == rhs.cells() ==> same,
{
    let turned_lhs = lhs.rotate(dim, r);
    let turned_rhs = rhs.rotate(dim, r);
    are_equal(&turned_lhs, &turned_rhs)
}

} // verus!
