//! The tiled grid: the plane is cut into blocks of 4 x 4 cells, which makes
//! rotations cheap and shifts harder.

use vstd::prelude::*;
use crate::cells::{
    in_box, is_bounding_box, lemma_less_first_difference, lemma_translated_len,
    lemma_within_finite, less, precedes, rotated, rotated_dim, shifted, source_cell, translated,
    within,
};
use crate::rotation::Rotation;
use crate::grid::{larger, Grid};
use crate::grids::block::{lemma_block_equal, lemma_cell16_zero, signum, Block};

verus! {

/// The largest number of blocks along an axis.
pub const MAX_BLOCKS: usize = 64;

/// Position of the block `(x, y)` in a store of columns of `h` blocks.
pub open spec fn flat(x: int, y: int, h: int) -> int {
    x * h + y
}

/// The position of a block lies inside the store, and two blocks share no
/// position.
pub proof fn lemma_flat(x: int, y: int, w: int, h: int)
    requires
        0 <= x < w,
        0 <= y < h,
    ensures
        0 <= flat(x, y, h) < w * h,
        x * h <= flat(x, y, h) < (x + 1) * h,
        flat(x, y, h) / h == x,
        flat(x, y, h) % h == y,
{
    assert(0 <= x * h && x * h + h <= w * h && (x + 1) * h == x * h + h) by (nonlinear_arith)
        requires
            0 <= x < w,
            0 < h,
    ;
    vstd::arithmetic::div_mod::lemma_fundamental_div_mod_converse(x * h + y, h, x, y);
}

/// An implementation of the grid which decomposes it in blocks of 4 x 4
/// cells.
pub struct BlockGrid {
    /// The grid is held as a meta-grid of blocks, arranged by columns. This
    /// makes the extension in the X direction easy but hard in the Y
    /// direction. The block at meta coordinates (x, y) is
    /// `grid[x * dim.1 + y]`. There is always at least one column with one
    /// block.
    grid: Vec<Block>,
    /// The number of blocks in the X and Y direction.
    dim: (usize, usize),
}

impl BlockGrid {
    /// The invariant of the store.
    pub closed spec fn inv(&self) -> bool {
        &&& 1 <= self.dim.0 <= MAX_BLOCKS
        &&& 1 <= self.dim.1 <= MAX_BLOCKS
        &&& self.grid@.len() == self.dim.0 * self.dim.1
    }

    /// The number of blocks in the X and Y direction.
    pub closed spec fn blocks(&self) -> (int, int) {
        (self.dim.0 as int, self.dim.1 as int)
    }

    /// The block at meta coordinates `(x, y)`.
    pub closed spec fn block(&self, x: int, y: int) -> Block {
        self.grid@[flat(x, y, self.dim.1 as int)]
    }

    /// The value of the cell `(x, y)`; no cell outside the blocks is set.
    pub closed spec fn at(&self, x: int, y: int) -> bool {
        in_box((x, y), 4 * self.dim.0, 4 * self.dim.1) && self.block(x / 4, y / 4).at(x % 4, y % 4)
    }

    /// The true cells.
    pub closed spec fn model(&self) -> Set<(int, int)> {
        Set::new(|c: (int, int)| self.at(c.0, c.1))
    }

    proof fn lemma_model(&self)
        requires
            self.inv(),
        ensures
            within(self.model(), 4 * self.blocks().0, 4 * self.blocks().1),
            self.model().finite(),
            1 <= self.blocks().0 <= 64,
            1 <= self.blocks().1 <= 64,
            forall|x: int, y: int| self.model().contains((x, y)) <==> #[trigger] self.at(x, y),
    {
        lemma_within_finite(self.model(), 4 * self.blocks().0, 4 * self.blocks().1);
    }

    fn get_block(&self, x: usize, y: usize) -> (b: &Block)
        requires
            self.inv(),
            x < self.blocks().0,
            y < self.blocks().1,
        ensures
            *b == self.block(x as int, y as int),
    {
        proof {
            lemma_flat(x as int, y as int, self.dim.0 as int, self.dim.1 as int);
            assert(self.dim.0 * self.dim.1 <= 64 * 64) by (nonlinear_arith)
                requires
                    self.dim.0 <= 64,
                    self.dim.1 <= 64,
            ;
        }
        &self.grid[x * self.dim.1 + y]
    }

    fn get_block_mut(&mut self, x: usize, y: usize) -> (b: &mut Block)
        requires
            old(self).inv(),
            x < old(self).blocks().0,
            y < old(self).blocks().1,
        ensures
            *b == old(self).block(x as int, y as int),
            final(self).inv(),
            final(self).blocks() == old(self).blocks(),
            final(self).block(x as int, y as int) == *final(b),
            forall|i: int, j: int|
                0 <= i < old(self).blocks().0 && 0 <= j < old(self).blocks().1 && (i != x || j
                    != y) ==> #[trigger] final(self).block(i, j) == old(self).block(i, j),
    {
        proof {
            lemma_flat(x as int, y as int, self.dim.0 as int, self.dim.1 as int);
            assert(self.dim.0 * self.dim.1 <= 64 * 64) by (nonlinear_arith)
                requires
                    self.dim.0 <= 64,
                    self.dim.1 <= 64,
            ;
            assert forall|i: int, j: int|
                0 <= i < self.dim.0 && 0 <= j < self.dim.1 && (i != x || j != y) implies 0
                <= #[trigger] flat(i, j, self.dim.1 as int) < self.dim.0 * self.dim.1 && flat(
                i,
                j,
                self.dim.1 as int,
            ) != flat(x as int, y as int, self.dim.1 as int) by {
                lemma_flat(i, j, self.dim.0 as int, self.dim.1 as int);
            }
        }
        &mut self.grid[x * self.dim.1 + y]
    }

    /// The empty grid of `columns` by `rows` blocks.
    fn with_blocks(columns: usize, rows: usize) -> (g: Self)
        requires
            1 <= columns <= MAX_BLOCKS,
            1 <= rows <= MAX_BLOCKS,
        ensures
            g.inv(),
            g.blocks() == (columns as int, rows as int),
            forall|i: int, j: int|
                0 <= i < columns && 0 <= j < rows ==> #[trigger] g.block(i, j) == Block(0),
            g.model() == Set::<(int, int)>::empty(),
    {
        assert(columns * rows <= 64 * 64) by (nonlinear_arith)
            requires
                columns <= 64,
                rows <= 64,
        ;
        let g = BlockGrid { grid: vec![Block(0); columns * rows], dim: (columns, rows) };
        proof {
            assert forall|i: int, j: int| 0 <= i < columns && 0 <= j < rows implies #[trigger] g.block(
                i,
                j,
            ) == Block(0) by {
                lemma_flat(i, j, columns as int, rows as int);
            }
            lemma_cell16_zero();
            assert forall|c: (int, int)| !g.model().contains(c) by {
                if in_box(c, 4 * columns, 4 * rows) {
                    assert(g.block(c.0 / 4, c.1 / 4) == Block(0));
                }
            }
            assert(g.model() =~= Set::<(int, int)>::empty());
        }
        g
    }

    /// The value of the cell `(x, y)`.
    fn cell(&self, x: usize, y: usize) -> (b: bool)
        requires
            self.inv(),
            x < 4 * self.blocks().0,
            y < 4 * self.blocks().1,
        ensures
            b == self.at(x as int, y as int),
    {
        let block = self.get_block(x / 4, y / 4);
        block.get(x % 4, y % 4)
    }

    /// Give the cell `(x, y)` the value `v`.
    fn put(&mut self, x: usize, y: usize, v: bool)
        requires
            old(self).inv(),
            x < 4 * old(self).blocks().0,
            y < 4 * old(self).blocks().1,
        ensures
            final(self).inv(),
            final(self).blocks() == old(self).blocks(),
            forall|a: int, b: int| #[trigger]
                final(self).at(a, b) == (if a == x && b == y {
                    v
                } else {
                    old(self).at(a, b)
                }),
    {
        let block = self.get_block_mut(x / 4, y / 4);
        if v {
            *block = block.set(x % 4, y % 4);
        } else {
            *block = block.unset(x % 4, y % 4);
        }
    }

    /// Reserve space so that the cells up to `(x, y)` inclusive can be
    /// addressed.
    fn reserve(&mut self, x: usize, y: usize)
        requires
            old(self).inv(),
            x < 4 * MAX_BLOCKS,
            y < 4 * MAX_BLOCKS,
        ensures
            final(self).inv(),
            forall|a: int, b: int| #[trigger] final(self).at(a, b) == old(self).at(a, b),
            final(self).blocks().0 == larger(old(self).blocks().0, x / 4 + 1),
            final(self).blocks().1 == larger(old(self).blocks().1, y / 4 + 1),
    {
        let columns_wanted = x / 4 + 1;
        let rows_wanted = y / 4 + 1;
        let ghost w = self.dim.0 as int;
        let ghost h = self.dim.1 as int;
        let ghost start = self.grid@;

        // Four cases:
        // - no need to extend
        // - we only need to extend columns
        // - we only need to extend rows
        // - we must extend both rows and columns
        if self.dim.0 >= columns_wanted && self.dim.1 >= rows_wanted {
            // No need to extend
            return ;
        } else if self.dim.0 < columns_wanted && self.dim.1 >= rows_wanted {
            // We only need to add columns: the easy case
            assert(w * h <= columns_wanted * h <= 64 * 64) by (nonlinear_arith)
                requires
                    w < columns_wanted <= 64,
                    1 <= h <= 64,
            ;
            self.grid.resize(columns_wanted * self.dim.1, Block(0));
            self.dim.0 = columns_wanted;
            proof {
                assert forall|i: int, j: int|
                    0 <= i < columns_wanted && 0 <= j < h implies #[trigger] self.block(i, j) == (
                if i < w {
                    old(self).block(i, j)
                } else {
                    Block(0)
                }) by {
                    lemma_flat(i, j, columns_wanted as int, h);
                    if i < w {
                        lemma_flat(i, j, w, h);
                        assert(self.grid@.subrange(0, start.len() as int)[flat(i, j, h)]
                            == self.grid@[flat(i, j, h)]);
                    } else {
                        assert(flat(i, j, h) >= w * h) by (nonlinear_arith)
                            requires
                                i >= w,
                                0 <= j,
                                0 < h,
                                flat(i, j, h) == i * h + j,
                        ;
                    }
                }
            }
        } else {
            // We need to add rows: the hard case. Columns may come too
            let columns = if self.dim.0 >= columns_wanted {
                self.dim.0
            } else {
                columns_wanted
            };
            assert(w * h <= w * rows_wanted <= columns * rows_wanted <= 64 * 64) by (
            nonlinear_arith)
                requires
                    1 <= w <= columns <= 64,
                    1 <= h < rows_wanted <= 64,
            ;
            self.grid.resize(columns * rows_wanted, Block(0));
            let ghost widened = self.grid@;
            spread_columns(&mut self.grid, self.dim.0, self.dim.1, rows_wanted);
            self.dim.0 = columns;
            self.dim.1 = rows_wanted;
            proof {
                assert forall|i: int, j: int|
                    0 <= i < columns && 0 <= j < rows_wanted implies #[trigger] self.block(i, j)
                    == (if i < w && j < h {
                    old(self).block(i, j)
                } else {
                    Block(0)
                }) by {
                    lemma_flat(i, j, columns as int, rows_wanted as int);
                    if i < w {
                        if j < h {
                            lemma_flat(i, j, w, h);
                            assert(widened.subrange(0, start.len() as int)[flat(i, j, h)]
                                == widened[flat(i, j, h)]);
                        }
                    } else {
                        assert(flat(i, j, rows_wanted as int) >= w * rows_wanted) by (
                        nonlinear_arith)
                            requires
                                i >= w,
                                0 <= j,
                                0 < rows_wanted,
                                flat(i, j, rows_wanted as int) == i * rows_wanted + j,
                        ;
                    }
                }
            }
        }
        proof {
            lemma_cell16_zero();
            assert forall|a: int, b: int| #[trigger] self.at(a, b) == old(self).at(a, b) by {
                if in_box((a, b), 4 * self.dim.0, 4 * self.dim.1) {
                    let i = a / 4;
                    let j = b / 4;
                    assert(self.block(i, j) == (if i < w && j < h {
                        old(self).block(i, j)
                    } else {
                        Block(0)
                    }));
                }
            }
        }
    }

    /// Whether the block `(i, j)` holds what a move by `(dx, dy)` brings
    /// there from the grid `from`.
    spec fn settled(&self, from: &Self, i: int, j: int, dx: int, dy: int) -> bool {
        forall|a: int, b: int|
            0 <= a < 4 && 0 <= b < 4 ==> #[trigger] self.block(i, j).at(a, b) == from.at(
                4 * i + a - dx,
                4 * j + b - dy,
            )
    }

    /// The cell that a move by `(dx, dy)` brings to the place `(a, b)` of
    /// the block `(i, j)` comes from that block or from the one before it in
    /// the direction of the move.
    proof fn lemma_block_cell(&self, i: int, j: int, a: int, b: int, dx: int, dy: int)
        requires
            self.inv(),
            0 <= i < self.blocks().0,
            0 <= j < self.blocks().1,
            0 <= a < 4,
            0 <= b < 4,
            -3 <= dx <= 3,
            -3 <= dy <= 3,
            dx == 0 || dy == 0,
        ensures
            self.at(4 * i + a - dx, 4 * j + b - dy) == (self.block(i, j).at(a - dx, b - dy) || ({
                let pi = i - signum(dx);
                let pj = j - signum(dy);
                0 <= pi < self.blocks().0 && 0 <= pj < self.blocks().1 && self.block(
                    pi,
                    pj,
                ).pushed_at(dx, dy, a, b)
            })),
    {
        let x = 4 * i + a - dx;
        let y = 4 * j + b - dy;
        if 0 <= a - dx < 4 && 0 <= b - dy < 4 {
            assert(x / 4 == i && x % 4 == a - dx && y / 4 == j && y % 4 == b - dy);
        } else {
            let pi = i - signum(dx);
            let pj = j - signum(dy);
            assert(x % 4 == a - dx + 4 * signum(dx) && y % 4 == b - dy + 4 * signum(dy));
            if in_box((x, y), 4 * self.blocks().0, 4 * self.blocks().1) {
                assert(x / 4 == pi && y / 4 == pj);
            }
        }
    }

    /// Shift the grid by `n` in the X direction: each row of blocks is
    /// gone through in the direction of the shift, and what one block pushes
    /// out comes into the next.
    fn shift_blocks_x(&mut self, n: isize)
        requires
            old(self).inv(),
            -3 <= n <= 3,
        ensures
            final(self).inv(),
            final(self).blocks() == old(self).blocks(),
            forall|a: int, b: int| #[trigger]
                final(self).at(a, b) == (in_box(
                    (a, b),
                    4 * old(self).blocks().0,
                    4 * old(self).blocks().1,
                ) && old(self).at(a - n, b)),
    {
        if n == 0 {
            return ;
        }
        let ghost w = self.dim.0 as int;
        let ghost h = self.dim.1 as int;
        let mut y: usize = 0;
        while y < self.dim.1
            invariant
                self.inv(),
                self.blocks() == (w, h),
                old(self).blocks() == (w, h),
                old(self).inv(),
                y <= h,
                n != 0,
                -3 <= n <= 3,
                forall|i: int, j: int|
                    0 <= i < w && 0 <= j < h && j >= y ==> #[trigger] self.block(i, j)
                        == old(self).block(i, j),
                forall|i: int, j: int|
                    0 <= i < w && 0 <= j < h && j < y ==> #[trigger] self.settled(
                        old(self),
                        i,
                        j,
                        n as int, 0,
                    ),
            decreases h - y,
        {
            let mut right_column: u16 = 0;
            proof {
                lemma_cell16_zero();
            }
            if n > 0 {
                let mut k: usize = 0;
                while k < self.dim.0
                    invariant
                        self.inv(),
                        self.blocks() == (w, h),
                        old(self).blocks() == (w, h),
                        old(self).inv(),
                        y < h,
                        k <= w,
                        0 < n <= 3,
                        forall|i: int, j: int|
                            0 <= i < w && 0 <= j < h && (j > y || (j == y && i
                                >= k)) ==> #[trigger] self.block(i, j) == old(self).block(i, j),
                        forall|i: int, j: int|
                            0 <= i < w && 0 <= j < h && (j < y || (j == y && i
                                < k)) ==> #[trigger] self.settled(
                                old(self),
                                i,
                                j,
                                n as int, 0,
                            ),
                        forall|a: int, b: int| #[trigger]
                            Block(right_column).at(a, b) == (k > 0
                                && old(self).block(k - 1, y as int).pushed_at(
                                n as int,
                                0,
                                a,
                                b,
                            )),
                    decreases w - k,
                {
                    let ghost mid = *self;
                    let ghost carried = right_column;
                    let block = self.get_block_mut(k, y);
                    let (shifted, pushed) = block.shift_x(n, right_column);
                    *block = shifted;
                    right_column = pushed;
                    proof {
                        assert forall|i: int, j: int|
                            0 <= i < w && 0 <= j < h && (j < y || (j == y && i
                                < k + 1)) implies #[trigger] self.settled(
                                old(self),
                                i,
                                j,
                                n as int, 0,
                            ) by {
                            if i == k && j == y {
                                assert forall|a: int, b: int|
                                    0 <= a < 4 && 0 <= b < 4 implies #[trigger] self.block(
                                    i,
                                    j,
                                ).at(a, b) == old(self).at(4 * i + a - n, 4 * j + b) by {
                                    old(self).lemma_block_cell(i, j, a, b, n as int, 0);
                                    assert(self.block(i, j) == shifted);
                                    assert(mid.block(i, j) == old(self).block(i, j));
                                    assert(shifted.at(a, b) == mid.block(i, j).shifted_at(
                                        n as int, 0,
                                        carried,
                                        a,
                                        b,
                                    ));
                                }
                            } else {
                                assert(self.block(i, j) == mid.block(i, j));
                                assert(mid.settled(old(self), i, j, n as int, 0));
                            }
                        }
                    }
                    k += 1;
                }
            } else {
                let mut k: usize = self.dim.0;
                while k > 0
                    invariant
                        self.inv(),
                        self.blocks() == (w, h),
                        old(self).blocks() == (w, h),
                        old(self).inv(),
                        y < h,
                        k <= w,
                        -3 <= n < 0,
                        forall|i: int, j: int|
                            0 <= i < w && 0 <= j < h && (j > y || (j == y && i
                                < k)) ==> #[trigger] self.block(i, j) == old(self).block(i, j),
                        forall|i: int, j: int|
                            0 <= i < w && 0 <= j < h && (j < y || (j == y && i
                                >= k)) ==> #[trigger] self.settled(
                                old(self),
                                i,
                                j,
                                n as int, 0,
                            ),
                        forall|a: int, b: int| #[trigger]
                            Block(right_column).at(a, b) == (k < w
                                && old(self).block(k as int, y as int).pushed_at(
                                n as int,
                                0,
                                a,
                                b,
                            )),
                    decreases k,
                {
                    k -= 1;
                    let ghost mid = *self;
                    let ghost carried = right_column;
                    let block = self.get_block_mut(k, y);
                    let (shifted, pushed) = block.shift_x(n, right_column);
                    *block = shifted;
                    right_column = pushed;
                    proof {
                        assert forall|i: int, j: int|
                            0 <= i < w && 0 <= j < h && (j < y || (j == y && i
                                >= k)) implies #[trigger] self.settled(
                                old(self),
                                i,
                                j,
                                n as int, 0,
                            ) by {
                            if i == k && j == y {
                                assert forall|a: int, b: int|
                                    0 <= a < 4 && 0 <= b < 4 implies #[trigger] self.block(
                                    i,
                                    j,
                                ).at(a, b) == old(self).at(4 * i + a - n, 4 * j + b) by {
                                    old(self).lemma_block_cell(i, j, a, b, n as int, 0);
                                    assert(self.block(i, j) == shifted);
                                    assert(mid.block(i, j) == old(self).block(i, j));
                                    assert(shifted.at(a, b) == mid.block(i, j).shifted_at(
                                        n as int, 0,
                                        carried,
                                        a,
                                        b,
                                    ));
                                }
                            } else {
                                assert(self.block(i, j) == mid.block(i, j));
                                assert(mid.settled(old(self), i, j, n as int, 0));
                            }
                        }
                    }
                }
            }
            y += 1;
        }
        proof {
            assert forall|a: int, b: int| #[trigger] self.at(a, b) == (in_box(
                (a, b),
                4 * w,
                4 * h,
            ) && old(self).at(a - n, b)) by {
                if in_box((a, b), 4 * w, 4 * h) {
                    let i = a / 4;
                    let j = b / 4;
                    assert(self.settled(old(self), i, j, n as int, 0));
                    assert(self.block(i, j).at(a % 4, b % 4) == old(self).at(
                        4 * i + a % 4 - n,
                        4 * j + b % 4,
                    ));
                }
            }
        }
    }

    /// Shift the grid by `n` in the Y direction: each column of blocks is
    /// gone through in the direction of the shift, and what one block pushes
    /// out comes into the next.
    fn shift_blocks_y(&mut self, n: isize)
        requires
            old(self).inv(),
            -3 <= n <= 3,
        ensures
            final(self).inv(),
            final(self).blocks() == old(self).blocks(),
            forall|a: int, b: int| #[trigger]
                final(self).at(a, b) == (in_box(
                    (a, b),
                    4 * old(self).blocks().0,
                    4 * old(self).blocks().1,
                ) && old(self).at(a, b - n)),
    {
        if n == 0 {
            return ;
        }
        let ghost w = self.dim.0 as int;
        let ghost h = self.dim.1 as int;
        let mut x: usize = 0;
        while x < self.dim.0
            invariant
                self.inv(),
                self.blocks() == (w, h),
                old(self).blocks() == (w, h),
                old(self).inv(),
                x <= w,
                n != 0,
                -3 <= n <= 3,
                forall|i: int, j: int|
                    0 <= i < w && 0 <= j < h && i >= x ==> #[trigger] self.block(i, j)
                        == old(self).block(i, j),
                forall|i: int, j: int|
                    0 <= i < w && 0 <= j < h && i < x ==> #[trigger] self.settled(
                        old(self),
                        i,
                        j,
                        0, n as int,
                    ),
            decreases w - x,
        {
            let mut top_row: u16 = 0;
            proof {
                lemma_cell16_zero();
            }
            if n > 0 {
                let mut k: usize = 0;
                while k < self.dim.1
                    invariant
                        self.inv(),
                        self.blocks() == (w, h),
                        old(self).blocks() == (w, h),
                        old(self).inv(),
                        x < w,
                        k <= h,
                        0 < n <= 3,
                        forall|i: int, j: int|
                            0 <= i < w && 0 <= j < h && (i > x || (i == x && j
                                >= k)) ==> #[trigger] self.block(i, j) == old(self).block(i, j),
                        forall|i: int, j: int|
                            0 <= i < w && 0 <= j < h && (i < x || (i == x && j
                                < k)) ==> #[trigger] self.settled(
                                old(self),
                                i,
                                j,
                                0, n as int,
                            ),
                        forall|a: int, b: int| #[trigger]
                            Block(top_row).at(a, b) == (k > 0
                                && old(self).block(x as int, k - 1).pushed_at(
                                0,
                                n as int,
                                a,
                                b,
                            )),
                    decreases h - k,
                {
                    let ghost mid = *self;
                    let ghost carried = top_row;
                    let block = self.get_block_mut(x, k);
                    let (shifted, pushed) = block.shift_y(n, top_row);
                    *block = shifted;
                    top_row = pushed;
                    proof {
                        assert forall|i: int, j: int|
                            0 <= i < w && 0 <= j < h && (i < x || (i == x && j
                                < k + 1)) implies #[trigger] self.settled(
                                old(self),
                                i,
                                j,
                                0, n as int,
                            ) by {
                            if j == k && i == x {
                                assert forall|a: int, b: int|
                                    0 <= a < 4 && 0 <= b < 4 implies #[trigger] self.block(
                                    i,
                                    j,
                                ).at(a, b) == old(self).at(4 * i + a, 4 * j + b - n) by {
                                    old(self).lemma_block_cell(i, j, a, b, 0, n as int);
                                    assert(self.block(i, j) == shifted);
                                    assert(mid.block(i, j) == old(self).block(i, j));
                                    assert(shifted.at(a, b) == mid.block(i, j).shifted_at(
                                        0, n as int,
                                        carried,
                                        a,
                                        b,
                                    ));
                                }
                            } else {
                                assert(self.block(i, j) == mid.block(i, j));
                                assert(mid.settled(old(self), i, j, 0, n as int));
                            }
                        }
                    }
                    k += 1;
                }
            } else {
                let mut k: usize = self.dim.1;
                while k > 0
                    invariant
                        self.inv(),
                        self.blocks() == (w, h),
                        old(self).blocks() == (w, h),
                        old(self).inv(),
                        x < w,
                        k <= h,
                        -3 <= n < 0,
                        forall|i: int, j: int|
                            0 <= i < w && 0 <= j < h && (i > x || (i == x && j
                                < k)) ==> #[trigger] self.block(i, j) == old(self).block(i, j),
                        forall|i: int, j: int|
                            0 <= i < w && 0 <= j < h && (i < x || (i == x && j
                                >= k)) ==> #[trigger] self.settled(
                                old(self),
                                i,
                                j,
                                0, n as int,
                            ),
                        forall|a: int, b: int| #[trigger]
                            Block(top_row).at(a, b) == (k < h
                                && old(self).block(x as int, k as int).pushed_at(
                                0,
                                n as int,
                                a,
                                b,
                            )),
                    decreases k,
                {
                    k -= 1;
                    let ghost mid = *self;
                    let ghost carried = top_row;
                    let block = self.get_block_mut(x, k);
                    let (shifted, pushed) = block.shift_y(n, top_row);
                    *block = shifted;
                    top_row = pushed;
                    proof {
                        assert forall|i: int, j: int|
                            0 <= i < w && 0 <= j < h && (i < x || (i == x && j
                                >= k)) implies #[trigger] self.settled(
                                old(self),
                                i,
                                j,
                                0, n as int,
                            ) by {
                            if j == k && i == x {
                                assert forall|a: int, b: int|
                                    0 <= a < 4 && 0 <= b < 4 implies #[trigger] self.block(
                                    i,
                                    j,
                                ).at(a, b) == old(self).at(4 * i + a, 4 * j + b - n) by {
                                    old(self).lemma_block_cell(i, j, a, b, 0, n as int);
                                    assert(self.block(i, j) == shifted);
                                    assert(mid.block(i, j) == old(self).block(i, j));
                                    assert(shifted.at(a, b) == mid.block(i, j).shifted_at(
                                        0, n as int,
                                        carried,
                                        a,
                                        b,
                                    ));
                                }
                            } else {
                                assert(self.block(i, j) == mid.block(i, j));
                                assert(mid.settled(old(self), i, j, 0, n as int));
                            }
                        }
                    }
                }
            }
            x += 1;
        }
        proof {
            assert forall|a: int, b: int| #[trigger] self.at(a, b) == (in_box(
                (a, b),
                4 * w,
                4 * h,
            ) && old(self).at(a, b - n)) by {
                if in_box((a, b), 4 * w, 4 * h) {
                    let i = a / 4;
                    let j = b / 4;
                    assert(self.settled(old(self), i, j, 0, n as int));
                    assert(self.block(i, j).at(a % 4, b % 4) == old(self).at(
                        4 * i + a % 4,
                        4 * j + b % 4 - n,
                    ));
                }
            }
        }
    }

    /// Whether the cell `(x, y)` is set and lies in the region of dimension
    /// `(w, h)`.
    spec fn inside(&self, w: int, h: int, x: int, y: int) -> bool {
        x < w && y < h && self.at(x, y)
    }

    /// The blocks that cover the region of dimension `(w, h)`, as a store of
    /// `columns` columns of `rows` blocks; cells outside the region are left
    /// out.
    fn cut_out(&self, w: usize, h: usize, columns: usize, rows: usize) -> (tmp: Vec<Block>)
        requires
            self.inv(),
            1 <= columns <= MAX_BLOCKS,
            1 <= rows <= MAX_BLOCKS,
            w <= 4 * columns,
            h <= 4 * rows,
        ensures
            tmp@.len() == columns * rows,
            forall|i: int, j: int, a: int, b: int|
                0 <= i < columns && 0 <= j < rows && 0 <= a < 4 && 0 <= b < 4 ==> #[trigger] tmp@[flat(
                    i,
                    j,
                    rows as int,
                )].at(a, b) == self.inside(w as int, h as int, 4 * i + a, 4 * j + b),
    {
        let mut tmp: Vec<Block> = Vec::new();
        let mut i: usize = 0;
        while i < columns
            invariant
                self.inv(),
                i <= columns <= MAX_BLOCKS,
                1 <= rows <= MAX_BLOCKS,
                w <= 4 * columns,
                h <= 4 * rows,
                tmp@.len() == i * rows,
                forall|p: int, q: int, a: int, b: int|
                    0 <= p < i && 0 <= q < rows && 0 <= a < 4 && 0 <= b < 4 ==> #[trigger] tmp@[flat(
                        p,
                        q,
                        rows as int,
                    )].at(a, b) == self.inside(w as int, h as int, 4 * p + a, 4 * q + b),
            decreases columns - i,
        {
            let mut j: usize = 0;
            while j < rows
                invariant
                    self.inv(),
                    i < columns <= MAX_BLOCKS,
                    j <= rows,
                    1 <= rows <= MAX_BLOCKS,
                    w <= 4 * columns,
                    h <= 4 * rows,
                    tmp@.len() == i * rows + j,
                    forall|p: int, q: int, a: int, b: int|
                        0 <= p < columns && 0 <= q < rows && (p < i || (p == i && q < j)) && 0
                            <= a < 4 && 0 <= b < 4 ==> #[trigger] tmp@[flat(p, q, rows as int)].at(
                            a,
                            b,
                        ) == self.inside(w as int, h as int, 4 * p + a, 4 * q + b),
                decreases rows - j,
            {
                let block = if i < self.dim.0 && j < self.dim.1 {
                    *self.get_block(i, j)
                } else {
                    Block(0)
                };
                let width = if w >= 4 * i {
                    w - 4 * i
                } else {
                    0
                };
                let height = if h >= 4 * j {
                    h - 4 * j
                } else {
                    0
                };
                let cut = block.crop(width, height);
                let ghost before = tmp@;
                tmp.push(cut);
                proof {
                    lemma_cell16_zero();
                    assert(flat(i as int, j as int, rows as int) == i * rows + j);
                    assert forall|p: int, q: int, a: int, b: int|
                        0 <= p < columns && 0 <= q < rows && (p < i || (p == i && q < j + 1)) && 0
                            <= a < 4 && 0 <= b < 4 implies #[trigger] tmp@[flat(
                        p,
                        q,
                        rows as int,
                    )].at(a, b) == self.inside(w as int, h as int, 4 * p + a, 4 * q + b) by {
                        lemma_flat(p, q, columns as int, rows as int);
                        if p == i && q == j {
                            assert(tmp@[flat(p, q, rows as int)] == cut);
                            assert((4 * p + a) / 4 == p && (4 * p + a) % 4 == a);
                            assert((4 * q + b) / 4 == q && (4 * q + b) % 4 == b);
                        } else {
                            assert(flat(p, q, rows as int) < i * rows + j) by (nonlinear_arith)
                                requires
                                    p < i || (p == i && q < j),
                                    0 <= q < rows,
                                    0 <= p,
                                    flat(p, q, rows as int) == p * rows + q,
                            ;
                            assert(tmp@[flat(p, q, rows as int)] == before[flat(
                                p,
                                q,
                                rows as int,
                            )]);
                        }
                    }
                }
                j += 1;
            }
            proof {
                assert((i + 1) * rows == i * rows + rows) by (nonlinear_arith);
            }
            i += 1;
        }
        tmp
    }

    /// The grid made of the blocks of a store of `columns` by `rows` blocks,
    /// each put at the place that the rotation `r` of the whole gives it.
    fn assemble(tmp: &Vec<Block>, columns: usize, rows: usize, r: Rotation) -> (g: Self)
        requires
            1 <= columns <= MAX_BLOCKS,
            1 <= rows <= MAX_BLOCKS,
            tmp@.len() == columns * rows,
        ensures
            g.inv(),
            g.blocks() == rotated_dim(columns as int, rows as int, r),
            forall|i: int, j: int|
                0 <= i < columns && 0 <= j < rows ==> g.block(
                    placed(i, j, columns as int, rows as int, r).0,
                    placed(i, j, columns as int, rows as int, r).1,
                ) == #[trigger] tmp@[flat(i, j, rows as int)],
    {
        let (new_columns, new_rows) = match r {
            Rotation::R0 | Rotation::R180 => (columns, rows),
            Rotation::R90 | Rotation::R270 => (rows, columns),
        };
        let mut block_grid = BlockGrid::with_blocks(new_columns, new_rows);
        let mut x: usize = 0;
        while x < columns
            invariant
                x <= columns,
                1 <= columns <= MAX_BLOCKS,
                1 <= rows <= MAX_BLOCKS,
                block_grid.inv(),
                block_grid.blocks() == (new_columns as int, new_rows as int),
                (new_columns as int, new_rows as int) == rotated_dim(
                    columns as int,
                    rows as int,
                    r,
                ),
                tmp@.len() == columns * rows,
                forall|i: int, j: int|
                    0 <= i < x && 0 <= j < rows ==> block_grid.block(
                        placed(i, j, columns as int, rows as int, r).0,
                        placed(i, j, columns as int, rows as int, r).1,
                    ) == #[trigger] tmp@[flat(i, j, rows as int)],
            decreases columns - x,
        {
            let mut y: usize = 0;
            while y < rows
                invariant
                    x < columns,
                    y <= rows,
                    1 <= columns <= MAX_BLOCKS,
                    1 <= rows <= MAX_BLOCKS,
                    block_grid.inv(),
                    block_grid.blocks() == (new_columns as int, new_rows as int),
                    (new_columns as int, new_rows as int) == rotated_dim(
                        columns as int,
                        rows as int,
                        r,
                    ),
                    tmp@.len() == columns * rows,
                    forall|i: int, j: int|
                        0 <= i < columns && 0 <= j < rows && (i < x || (i == x && j < y))
                            ==> block_grid.block(
                            placed(i, j, columns as int, rows as int, r).0,
                            placed(i, j, columns as int, rows as int, r).1,
                        ) == #[trigger] tmp@[flat(i, j, rows as int)],
                decreases rows - y,
            {
                proof {
                    lemma_flat(x as int, y as int, columns as int, rows as int);
                    assert(columns * rows <= 64 * 64) by (nonlinear_arith)
                        requires
                            columns <= 64,
                            rows <= 64,
                    ;
                }
                let block = tmp[x * rows + y];
                let (to_x, to_y) = match r {
                    Rotation::R0 => (x, y),
                    Rotation::R90 => (rows - 1 - y, x),
                    Rotation::R180 => (columns - 1 - x, rows - 1 - y),
                    Rotation::R270 => (y, columns - 1 - x),
                };
                let ghost before = block_grid;
                *block_grid.get_block_mut(to_x, to_y) = block;
                proof {
                    assert forall|i: int, j: int|
                        0 <= i < columns && 0 <= j < rows && (i < x || (i == x && j < y + 1))
                        implies block_grid.block(
                        placed(i, j, columns as int, rows as int, r).0,
                        placed(i, j, columns as int, rows as int, r).1,
                    ) == #[trigger] tmp@[flat(i, j, rows as int)] by {
                        let t = placed(i, j, columns as int, rows as int, r);
                        if i == x && j == y {
                        } else {
                            assert(block_grid.block(t.0, t.1) == before.block(t.0, t.1));
                        }
                    }
                }
                y += 1;
            }
            x += 1;
        }
        block_grid
    }

    /// Every cell of the assembled grid is the cell of the portion that the
    /// rotation of the blocks brings there.
    proof fn lemma_assembled(
        &self,
        source: &Self,
        cut: Seq<Block>,
        tmp: Seq<Block>,
        w: int,
        h: int,
        columns: int,
        rows: int,
        r: Rotation,
        a: int,
        b: int,
    )
        requires
            self.inv(),
            1 <= columns,
            1 <= rows,
            self.blocks() == rotated_dim(columns, rows, r),
            cut.len() == columns * rows,
            tmp.len() == columns * rows,
            forall|i: int, j: int|
                0 <= i < columns && 0 <= j < rows ==> self.block(
                    placed(i, j, columns, rows, r).0,
                    placed(i, j, columns, rows, r).1,
                ) == #[trigger] tmp[flat(i, j, rows)],
            forall|k: int|
                0 <= k < cut.len() ==> (#[trigger] tmp[k]).cells() == rotated(
                    cut[k].cells(),
                    4,
                    4,
                    r,
                ),
            forall|i: int, j: int, p: int, q: int|
                0 <= i < columns && 0 <= j < rows && 0 <= p < 4 && 0 <= q < 4 ==> #[trigger] cut[flat(
                    i,
                    j,
                    rows,
                )].at(p, q) == source.inside(w, h, 4 * i + p, 4 * j + q),
        ensures
            self.at(a, b) == (in_box((a, b), 4 * self.blocks().0, 4 * self.blocks().1) && {
                let c = source_cell((a, b), 4 * columns, 4 * rows, r);
                source.inside(w, h, c.0, c.1)
            }),
    {
        if in_box((a, b), 4 * self.blocks().0, 4 * self.blocks().1) {
            let p = a / 4;
            let q = b / 4;
            let from = source_cell((p, q), columns, rows, r);
            let inner = source_cell((a % 4, b % 4), 4, 4, r);
            let k = flat(from.0, from.1, rows);
            lemma_flat(from.0, from.1, columns, rows);
            assert(placed(from.0, from.1, columns, rows, r) == (p, q));
            assert(self.block(p, q) == tmp[k]);
            assert(tmp[k].cells() == rotated(cut[k].cells(), 4, 4, r));
            assert(tmp[k].at(a % 4, b % 4) == tmp[k].cells().contains((a % 4, b % 4)));
            assert(cut[k].at(inner.0, inner.1) == cut[k].cells().contains(inner));
            assert(cut[k].at(inner.0, inner.1) == source.inside(
                w,
                h,
                4 * from.0 + inner.0,
                4 * from.1 + inner.1,
            ));
        }
    }

    /// Shift the assembled blocks back to the origin: they reach up to a
    /// multiple of four, further than the portion may.
    fn settle(&mut self, w: usize, h: usize, columns: usize, rows: usize, r: Rotation)
        requires
            old(self).inv(),
            1 <= columns <= MAX_BLOCKS,
            1 <= rows <= MAX_BLOCKS,
            4 * columns - 3 <= w <= 4 * columns,
            4 * rows - 3 <= h <= 4 * rows,
            old(self).blocks() == rotated_dim(columns as int, rows as int, r),
        ensures
            final(self).inv(),
            final(self).blocks() == old(self).blocks(),
            forall|a: int, b: int| #[trigger]
                final(self).at(a, b) == (in_box(
                    (a, b),
                    4 * old(self).blocks().0,
                    4 * old(self).blocks().1,
                ) && old(self).at(
                    a + overhang(4 * columns - w, 4 * rows - h, r).0,
                    b + overhang(4 * columns - w, 4 * rows - h, r).1,
                )),
    {
        match r {
            Rotation::R0 => {},
            Rotation::R90 => {
                self.shift_blocks_x(h as isize - (rows * 4) as isize);
            },
            Rotation::R180 => {
                self.shift_blocks_x(w as isize - (columns * 4) as isize);
                let ghost half = *self;
                self.shift_blocks_y(h as isize - (rows * 4) as isize);
                proof {
                    assert forall|a: int, b: int| #[trigger]
                        self.at(a, b) == (in_box(
                            (a, b),
                            4 * old(self).blocks().0,
                            4 * old(self).blocks().1,
                        ) && old(self).at(a - (w - 4 * columns), b - (h - 4 * rows))) by {
                        assert(half.at(a, b - (h - 4 * rows)) == (in_box(
                            (a, b - (h - 4 * rows)),
                            4 * old(self).blocks().0,
                            4 * old(self).blocks().1,
                        ) && old(self).at(a - (w - 4 * columns), b - (h - 4 * rows))));
                    }
                }
            },
            Rotation::R270 => {
                self.shift_blocks_y(w as isize - (columns * 4) as isize);
            },
        }
    }

    /// Rotate the portion of the grid of dimension `dim`.
    ///
    /// Every block of the portion is rotated on its own, the blocks are put
    /// together again at the places that the rotation gives them, and a
    /// last shift makes up for the blocks reaching further than the portion.
    fn turn(&self, dim: (u8, u8), r: Rotation) -> (g: Self)
        requires
            self.inv(),
        ensures
            g.inv(),
            g.model() == rotated(self.model(), dim.0 as int, dim.1 as int, r),
            rotated_dim(dim.0 as int, dim.1 as int, r).0 <= 4 * g.blocks().0 <= rotated_dim(
                dim.0 as int,
                dim.1 as int,
                r,
            ).0 + 4,
            rotated_dim(dim.0 as int, dim.1 as int, r).1 <= 4 * g.blocks().1 <= rotated_dim(
                dim.0 as int,
                dim.1 as int,
                r,
            ).1 + 4,
    {
        let w = dim.0 as usize;
        let h = dim.1 as usize;
        let columns = if w == 0 {
            1
        } else {
            (w - 1) / 4 + 1
        };
        let rows = if h == 0 {
            1
        } else {
            (h - 1) / 4 + 1
        };
        if w == 0 || h == 0 {
            let empty = match r {
                Rotation::R0 | Rotation::R180 => BlockGrid::with_blocks(columns, rows),
                Rotation::R90 | Rotation::R270 => BlockGrid::with_blocks(rows, columns),
            };
            proof {
                assert(empty.model() =~= rotated(self.model(), w as int, h as int, r));
            }
            return empty;
        }
        let mut tmp = self.cut_out(w, h, columns, rows);
        let ghost cut = tmp@;
        rotate_all(&mut tmp, r);
        let mut block_grid = BlockGrid::assemble(&tmp, columns, rows, r);
        let ghost assembled = block_grid;
        block_grid.settle(w, h, columns, rows, r);
        proof {
            self.lemma_model();
            block_grid.lemma_model();
            let goal = rotated(self.model(), w as int, h as int, r);
            assert forall|c: (int, int)| block_grid.model().contains(c) == goal.contains(c) by {
                let o = overhang(4 * columns - w, 4 * rows - h, r);
                let d = (c.0 + o.0, c.1 + o.1);
                assembled.lemma_assembled(
                    self,
                    cut,
                    tmp@,
                    w as int,
                    h as int,
                    columns as int,
                    rows as int,
                    r,
                    d.0,
                    d.1,
                );
                let e = source_cell(c, w as int, h as int, r);
                assert(source_cell(d, 4 * columns, 4 * rows, r) == e);
            }
            assert(block_grid.model() =~= goal);
        }
        block_grid
    }

    /// The value of the cell `(x, y)`, false for a cell that cannot be
    /// addressed.
    fn cell_or_false(&self, x: usize, y: usize) -> (b: bool)
        requires
            self.inv(),
        ensures
            b == self.at(x as int, y as int),
    {
        if x / 4 < self.dim.0 && y / 4 < self.dim.1 {
            self.cell(x, y)
        } else {
            false
        }
    }

    /// The block at meta coordinates `(x, y)`, empty where the grid has
    /// none.
    fn block_or_empty(&self, x: usize, y: usize) -> (b: Block)
        requires
            self.inv(),
        ensures
            forall|p: int, q: int|
                0 <= p < 4 && 0 <= q < 4 ==> #[trigger] b.at(p, q) == self.at(4 * x + p, 4 * y + q),
    {
        if x < self.dim.0 && y < self.dim.1 {
            let b = *self.get_block(x, y);
            proof {
                assert forall|p: int, q: int| 0 <= p < 4 && 0 <= q < 4 implies #[trigger] b.at(
                    p,
                    q,
                ) == self.at(4 * x + p, 4 * y + q) by {
                    assert((4 * x + p) / 4 == x && (4 * x + p) % 4 == p);
                    assert((4 * y + q) / 4 == y && (4 * y + q) % 4 == q);
                }
            }
            b
        } else {
            proof {
                lemma_cell16_zero();
                assert forall|p: int, q: int| 0 <= p < 4 && 0 <= q < 4 implies #[trigger] Block(
                    0,
                ).at(p, q) == self.at(4 * x + p, 4 * y + q) by {
                    assert((4 * x + p) / 4 == x);
                    assert((4 * y + q) / 4 == y);
                }
            }
            Block(0)
        }
    }

    /// Whether both grids hold the same cells, whatever space each has
    /// reserved.
    fn equal_cells(&self, other: &Self) -> (b: bool)
        requires
            self.inv(),
            other.inv(),
        ensures
            b == (self.model() == other.model()),
    {
        let columns = if self.dim.0 >= other.dim.0 {
            self.dim.0
        } else {
            other.dim.0
        };
        let rows = if self.dim.1 >= other.dim.1 {
            self.dim.1
        } else {
            other.dim.1
        };
        let mut x: usize = 0;
        while x < columns
            invariant
                self.inv(),
                other.inv(),
                x <= columns <= MAX_BLOCKS,
                rows <= MAX_BLOCKS,
                columns >= self.blocks().0,
                columns >= other.blocks().0,
                rows >= self.blocks().1,
                rows >= other.blocks().1,
                forall|a: int, b: int|
                    0 <= a < 4 * x && 0 <= b ==> self.at(a, b) == other.at(a, b),
            decreases columns - x,
        {
            let mut y: usize = 0;
            while y < rows
                invariant
                    self.inv(),
                    other.inv(),
                    x < columns <= MAX_BLOCKS,
                    y <= rows <= MAX_BLOCKS,
                    columns >= self.blocks().0,
                    columns >= other.blocks().0,
                    rows >= self.blocks().1,
                    rows >= other.blocks().1,
                    forall|a: int, b: int|
                        0 <= a < 4 * x && 0 <= b ==> self.at(a, b) == other.at(a, b),
                    forall|a: int, b: int|
                        4 * x <= a < 4 * x + 4 && 0 <= b < 4 * y ==> self.at(a, b) == other.at(
                            a,
                            b,
                        ),
                decreases rows - y,
            {
                let mine = self.block_or_empty(x, y);
                let theirs = other.block_or_empty(x, y);
                if mine.0 != theirs.0 {
                    proof {
                        if self.model() == other.model() {
                            assert forall|p: int, q: int| 0 <= p < 4 && 0 <= q < 4 implies mine.at(
                                p,
                                q,
                            ) == theirs.at(p, q) by {
                                assert(self.model().contains((4 * x + p, 4 * y + q))
                                    == other.model().contains((4 * x + p, 4 * y + q)));
                            }
                            lemma_block_equal(mine, theirs);
                        }
                    }
                    return false;
                }
                proof {
                    assert forall|a: int, b: int|
                        4 * x <= a < 4 * x + 4 && 0 <= b < 4 * (y + 1) implies self.at(a, b)
                        == other.at(a, b) by {
                        if b >= 4 * y {
                            assert(mine.at(a - 4 * x, b - 4 * y) == self.at(a, b));
                            assert(theirs.at(a - 4 * x, b - 4 * y) == other.at(a, b));
                        }
                    }
                }
                y += 1;
            }
            x += 1;
        }
        proof {
            assert(self.model() =~= other.model());
        }
        true
    }

    /// Whether `self` comes before `other` in the order of the grids: the
    /// cells are compared column by column, and upwards in a column, up to
    /// the first on which the grids differ.
    fn before(&self, other: &Self) -> (b: bool)
        requires
            self.inv(),
            other.inv(),
        ensures
            b == less(self.model(), other.model()),
    {
        let columns = if self.dim.0 >= other.dim.0 {
            self.dim.0
        } else {
            other.dim.0
        };
        let rows = if self.dim.1 >= other.dim.1 {
            self.dim.1
        } else {
            other.dim.1
        };
        let mut x: usize = 0;
        while x < 4 * columns
            invariant
                self.inv(),
                other.inv(),
                x <= 4 * columns,
                columns <= MAX_BLOCKS,
                rows <= MAX_BLOCKS,
                columns >= self.blocks().0,
                columns >= other.blocks().0,
                rows >= self.blocks().1,
                rows >= other.blocks().1,
                forall|a: int, b: int| a < x ==> self.at(a, b) == other.at(a, b),
            decreases 4 * columns - x,
        {
            let mut y: usize = 0;
            while y < 4 * rows
                invariant
                    self.inv(),
                    other.inv(),
                    x < 4 * columns,
                    y <= 4 * rows,
                    columns <= MAX_BLOCKS,
                    rows <= MAX_BLOCKS,
                    columns >= self.blocks().0,
                    columns >= other.blocks().0,
                    rows >= self.blocks().1,
                    rows >= other.blocks().1,
                    forall|a: int, b: int|
                        precedes((a, b), (x as int, y as int)) ==> self.at(a, b) == other.at(a, b),
                decreases 4 * rows - y,
            {
                let mine = self.cell_or_false(x, y);
                let theirs = other.cell_or_false(x, y);
                if mine != theirs {
                    proof {
                        let c = (x as int, y as int);
                        assert forall|p: (int, int)| #[trigger] precedes(p, c) implies (
                        self.model().contains(p) <==> other.model().contains(p)) by {
                            assert(self.at(p.0, p.1) == other.at(p.0, p.1));
                        }
                        lemma_less_first_difference(self.model(), other.model(), c);
                    }
                    return theirs;
                }
                y += 1;
            }
            x += 1;
        }
        proof {
            assert(self.model() =~= other.model());
        }
        false
    }

    /// Add the cells of `other`.
    fn absorb(&mut self, other: &Self)
        requires
            old(self).inv(),
            other.inv(),
        ensures
            final(self).inv(),
            final(self).model() == old(self).model().union(other.model()),
            final(self).blocks().0 == larger(old(self).blocks().0, other.blocks().0),
            final(self).blocks().1 == larger(old(self).blocks().1, other.blocks().1),
    {
        self.reserve(4 * other.dim.0 - 1, 4 * other.dim.1 - 1);
        let ghost start = *self;
        let ghost w = self.dim.0 as int;
        let ghost h = self.dim.1 as int;
        let mut x: usize = 0;
        while x < other.dim.0
            invariant
                self.inv(),
                other.inv(),
                start.inv(),
                x <= other.blocks().0,
                self.blocks() == (w, h),
                start.blocks() == (w, h),
                other.blocks().0 <= w,
                other.blocks().1 <= h,
                forall|i: int, j: int, a: int, b: int|
                    0 <= i < w && 0 <= j < h && 0 <= a < 4 && 0 <= b < 4 ==> #[trigger] self.block(
                        i,
                        j,
                    ).at(a, b) == (start.block(i, j).at(a, b) || (i < x && other.at(
                        4 * i + a,
                        4 * j + b,
                    ))),
            decreases other.blocks().0 - x,
        {
            let mut y: usize = 0;
            while y < other.dim.1
                invariant
                    self.inv(),
                    other.inv(),
                    start.inv(),
                    x < other.blocks().0,
                    y <= other.blocks().1,
                    self.blocks() == (w, h),
                    start.blocks() == (w, h),
                    other.blocks().0 <= w,
                    other.blocks().1 <= h,
                    forall|i: int, j: int, a: int, b: int|
                        0 <= i < w && 0 <= j < h && 0 <= a < 4 && 0 <= b < 4 ==> #[trigger] self.block(
                            i,
                            j,
                        ).at(a, b) == (start.block(i, j).at(a, b) || ((i < x || (i == x && j < y))
                            && other.at(4 * i + a, 4 * j + b))),
                decreases other.blocks().1 - y,
            {
                let theirs = other.block_or_empty(x, y);
                let ghost mid = *self;
                let block = self.get_block_mut(x, y);
                *block = block.union(theirs);
                proof {
                    assert forall|i: int, j: int, a: int, b: int|
                        0 <= i < w && 0 <= j < h && 0 <= a < 4 && 0 <= b < 4 implies #[trigger] self.block(
                        i,
                        j,
                    ).at(a, b) == (start.block(i, j).at(a, b) || ((i < x || (i == x && j < y + 1))
                        && other.at(4 * i + a, 4 * j + b))) by {
                        if i == x && j == y {
                        } else {
                            assert(self.block(i, j) == mid.block(i, j));
                        }
                    }
                }
                y += 1;
            }
            proof {
                assert forall|i: int, j: int, a: int, b: int|
                    0 <= i < w && 0 <= j < h && 0 <= a < 4 && 0 <= b < 4 implies #[trigger] self.block(
                    i,
                    j,
                ).at(a, b) == (start.block(i, j).at(a, b) || (i < x + 1 && other.at(
                    4 * i + a,
                    4 * j + b,
                ))) by {
                    if i == x && j >= other.blocks().1 {
                        assert((4 * j + b) / 4 == j);
                    }
                }
            }
            x += 1;
        }
        proof {
            assert forall|c: (int, int)| #[trigger]
                self.model().contains(c) == (old(self).model().contains(c)
                    || other.model().contains(c)) by {
                if in_box(c, 4 * w, 4 * h) {
                    let i = c.0 / 4;
                    let j = c.1 / 4;
                    assert(self.block(i, j).at(c.0 % 4, c.1 % 4) == (start.block(i, j).at(
                        c.0 % 4,
                        c.1 % 4,
                    ) || (i < other.blocks().0 && other.at(4 * i + c.0 % 4, 4 * j + c.1 % 4))));
                    assert(start.at(c.0, c.1) == old(self).at(c.0, c.1));
                }
            }
            assert(self.model() =~= old(self).model().union(other.model()));
        }
    }

    /// The true cells in the blocks stored before position `k`.
    spec fn stored_before(&self, k: int) -> Set<(int, int)> {
        Set::new(|c: (int, int)| self.at(c.0, c.1) && flat(c.0 / 4, c.1 / 4, self.dim.1 as int) < k)
    }

    /// The block stored at position `k` adds its cells, moved to its place.
    proof fn lemma_stored_step(&self, k: int)
        requires
            self.inv(),
            0 <= k < self.grid@.len(),
            self.stored_before(k).finite(),
        ensures
            self.stored_before(k + 1).finite(),
            self.stored_before(k + 1).len() == self.stored_before(k).len() + self.grid@[k].cells().len(),
    {
        let w = self.dim.0 as int;
        let h = self.dim.1 as int;
        let bx = k / h;
        let by = k % h;
        vstd::arithmetic::div_mod::lemma_fundamental_div_mod(k, h);
        assert(bx < w) by (nonlinear_arith)
            requires
                k < w * h,
                k == h * bx + by,
                0 <= by,
                0 < h,
        ;
        assert(0 <= bx) by (nonlinear_arith)
            requires
                0 <= k,
                k == h * bx + by,
                by < h,
                0 < h,
        ;
        assert(flat(bx, by, h) == k) by (nonlinear_arith)
            requires
                k == h * bx + by,
        ;
        let b = self.grid@[k];
        let here = translated(b.cells(), 4 * bx, 4 * by);
        lemma_within_finite(b.cells(), 4, 4);
        lemma_translated_len(b.cells(), 4 * bx, 4 * by);
        assert forall|c: (int, int)| self.stored_before(k + 1).contains(c) == (self.stored_before(
            k,
        ).contains(c) || here.contains(c)) by {
            if in_box(c, 4 * w, 4 * h) {
                lemma_flat(c.0 / 4, c.1 / 4, w, h);
            }
            if here.contains(c) {
                assert(b.at(c.0 - 4 * bx, c.1 - 4 * by));
                assert(c.0 / 4 == bx && c.1 / 4 == by);
            }
        }
        assert(self.stored_before(k + 1) =~= self.stored_before(k) + here);
        assert(self.stored_before(k).disjoint(here)) by {
            assert forall|c: (int, int)| !(self.stored_before(k).contains(c) && here.contains(
                c,
            )) by {
                if here.contains(c) {
                    assert(b.at(c.0 - 4 * bx, c.1 - 4 * by));
                    assert(c.0 / 4 == bx && c.1 / 4 == by);
                }
            }
        }
        vstd::set_lib::lemma_set_disjoint_lens(self.stored_before(k), here);
    }

    /// The number of true cells.
    fn count_cells(&self) -> (n: u32)
        requires
            self.inv(),
        ensures
            n == self.model().len(),
    {
        let mut n: u32 = 0;
        let len = self.grid.len();
        proof {
            assert(self.dim.0 * self.dim.1 <= 64 * 64) by (nonlinear_arith)
                requires
                    self.dim.0 <= 64,
                    self.dim.1 <= 64,
            ;
            assert forall|c: (int, int)| !self.stored_before(0).contains(c) by {
                if in_box(c, 4 * self.dim.0, 4 * self.dim.1) {
                    lemma_flat(c.0 / 4, c.1 / 4, self.dim.0 as int, self.dim.1 as int);
                }
            }
            assert(self.stored_before(0) =~= Set::<(int, int)>::empty());
        }
        let mut i: usize = 0;
        while i < len
            invariant
                self.inv(),
                i <= len,
                len == self.grid@.len(),
                len <= 4096,
                self.stored_before(i as int).finite(),
                n == self.stored_before(i as int).len(),
                n <= 16 * i,
            decreases len - i,
        {
            // Plain implementation, one block after the other
            let c = self.grid[i].count();
            proof {
                self.lemma_stored_step(i as int);
            }
            n += c;
            i += 1;
        }
        proof {
            assert forall|c: (int, int)| self.model().contains(c) implies self.stored_before(
                len as int,
            ).contains(c) by {
                lemma_flat(c.0 / 4, c.1 / 4, self.dim.0 as int, self.dim.1 as int);
            }
            assert(self.stored_before(len as int) =~= self.model());
        }
        n
    }

    /// The smallest rectangle anchored at the origin that holds the true
    /// cells.
    fn bounding_box(&self) -> (bb: (usize, usize))
        requires
            self.inv(),
        ensures
            is_bounding_box(self.model(), bb.0 as int, bb.1 as int),
    {
        let mut bb_x: usize = 0;
        let mut bb_y: usize = 0;
        let ghost mut top_x: (int, int) = (0, 0);
        let ghost mut top_y: (int, int) = (0, 0);
        let ghost w = self.dim.0 as int;
        let ghost h = self.dim.1 as int;

        let mut x: usize = 0;
        while x < self.dim.0
            invariant
                self.inv(),
                w == self.dim.0,
                h == self.dim.1,
                x <= w,
                bb_x <= 4 * w,
                bb_y <= 4 * h,
                forall|c: (int, int)|
                    self.at(c.0, c.1) && c.0 / 4 < x ==> c.0 < bb_x && c.1 < bb_y,
                bb_x > 0 ==> self.at(top_x.0, top_x.1) && top_x.0 == bb_x - 1,
                bb_y > 0 ==> self.at(top_y.0, top_y.1) && top_y.1 == bb_y - 1,
            decreases w - x,
        {
            let mut y: usize = 0;
            while y < self.dim.1
                invariant
                    self.inv(),
                    w == self.dim.0,
                    h == self.dim.1,
                    x < w,
                    y <= h,
                    bb_x <= 4 * w,
                    bb_y <= 4 * h,
                    forall|c: (int, int)|
                        self.at(c.0, c.1) && (c.0 / 4 < x || (c.0 / 4 == x && c.1 / 4 < y))
                            ==> c.0 < bb_x && c.1 < bb_y,
                    bb_x > 0 ==> self.at(top_x.0, top_x.1) && top_x.0 == bb_x - 1,
                    bb_y > 0 ==> self.at(top_y.0, top_y.1) && top_y.1 == bb_y - 1,
                decreases h - y,
            {
                let b = self.get_block(x, y);
                let block_bb = b.get_bounding_box();
                // If there are no cells in the block, do not apply
                // max(bb, 4 * (x, y)), which would give a wrong result
                if block_bb.0 != 0 || block_bb.1 != 0 {
                    proof {
                        let cx = choose|c: (int, int)| #[trigger]
                            b.cells().contains(c) && c.0 == block_bb.0 - 1;
                        let cy = choose|c: (int, int)| #[trigger]
                            b.cells().contains(c) && c.1 == block_bb.1 - 1;
                        if block_bb.0 > 0 {
                            assert(self.at(4 * x + cx.0, 4 * y + cx.1));
                            assert(b.cells().contains(cx));
                        }
                        if block_bb.1 > 0 {
                            assert(self.at(4 * x + cy.0, 4 * y + cy.1));
                            assert(b.cells().contains(cy));
                        }
                        assert(block_bb.0 > 0 && block_bb.1 > 0);
                        if 4 * x + block_bb.0 > bb_x {
                            top_x = (4 * x + cx.0, 4 * y + cx.1);
                        }
                        if 4 * y + block_bb.1 > bb_y {
                            top_y = (4 * x + cy.0, 4 * y + cy.1);
                        }
                    }
                    if 4 * x + block_bb.0 > bb_x {
                        bb_x = 4 * x + block_bb.0;
                    }
                    if 4 * y + block_bb.1 > bb_y {
                        bb_y = 4 * y + block_bb.1;
                    }
                }
                proof {
                    assert forall|c: (int, int)|
                        self.at(c.0, c.1) && (c.0 / 4 < x || (c.0 / 4 == x && c.1 / 4 < y + 1))
                        implies c.0 < bb_x && c.1 < bb_y by {
                        if c.0 / 4 == x && c.1 / 4 == y {
                            assert(b.cells().contains((c.0 % 4, c.1 % 4)));
                        }
                    }
                }
                y += 1;
            }
            x += 1;
        }
        proof {
            self.lemma_model();
            if bb_x > 0 {
                assert(self.model().contains(top_x));
            }
            if bb_y > 0 {
                assert(self.model().contains(top_y));
            }
        }
        (bb_x, bb_y)
    }
}

impl Clone for BlockGrid {
    fn clone(&self) -> (g: Self)
        ensures
            g.inv() == self.inv(),
            g.blocks() == self.blocks(),
            g.model() == self.model(),
    {
        let grid = self.grid.clone();
        assert(grid@ =~= self.grid@);
        let g = BlockGrid { grid, dim: self.dim };
        assert(g.model() =~= self.model());
        g
    }
}

impl Grid for BlockGrid {
    open spec fn cells(&self) -> Set<(int, int)> {
        self.model()
    }

    open spec fn extent(&self) -> (int, int) {
        (4 * self.blocks().0, 4 * self.blocks().1)
    }

    open spec fn wf(&self) -> bool {
        self.inv()
    }

    open spec fn limit() -> int {
        256
    }

    open spec fn slack() -> int {
        4
    }

    open spec fn shift_limit() -> int {
        3
    }

    proof fn lemma_wf(&self) {
        self.lemma_model();
    }

    proof fn lemma_limits() {
    }

    fn capacity() -> (n: usize) {
        4 * MAX_BLOCKS
    }

    fn reach() -> (n: isize) {
        3
    }

    fn new() -> (g: Self) {
        // By default, a meta grid of 1 x 1, so a grid of 4 x 4
        BlockGrid::with_blocks(1, 1)
    }

    fn reserve_space(&mut self, x: usize, y: usize) {
        self.reserve(x, y);
        proof {
            assert(self.model() =~= old(self).model());
        }
    }

    fn get_bounding_box(&self) -> (bb: (usize, usize)) {
        self.bounding_box()
    }

    fn set(&mut self, x: usize, y: usize) {
        self.put(x, y, true);
        proof {
            assert(self.model() =~= old(self).model().insert((x as int, y as int)));
        }
    }

    fn unset(&mut self, x: usize, y: usize) {
        self.put(x, y, false);
        proof {
            assert(self.model() =~= old(self).model().remove((x as int, y as int)));
        }
    }

    fn get(&self, x: usize, y: usize) -> (b: bool) {
        self.cell(x, y)
    }

    fn count(&self) -> (n: u32) {
        self.count_cells()
    }

    fn shift_x(&mut self, n: isize) {
        self.shift_blocks_x(n);
        proof {
            assert(self.model() =~= shifted(
                old(self).model(),
                n as int,
                0,
                4 * old(self).blocks().0,
                4 * old(self).blocks().1,
            ));
        }
    }

    fn shift_y(&mut self, n: isize) {
        self.shift_blocks_y(n);
        proof {
            assert(self.model() =~= shifted(
                old(self).model(),
                0,
                n as int,
                4 * old(self).blocks().0,
                4 * old(self).blocks().1,
            ));
        }
    }

    fn rotate(&self, dim: (u8, u8), r: Rotation) -> (g: Self) {
        self.turn(dim, r)
    }

    fn duplicate(&self) -> (g: Self) {
        self.clone()
    }

    fn same_cells(&self, other: &Self) -> (b: bool) {
        self.equal_cells(other)
    }

    fn less_than(&self, other: &Self) -> (b: bool) {
        self.before(other)
    }

    fn merge(&mut self, other: &Self) {
        self.absorb(other);
    }
}

/// Bring the columns of a store from `old_rows` to `new_rows` blocks each.
///
/// The store already has its new length, with the old columns at its start
/// and empty blocks behind them. The columns are moved to their new places
/// from the last to the first, so that none is overwritten before it has
/// moved, and the space each one leaves behind is cleared.
fn spread_columns(grid: &mut Vec<Block>, columns: usize, old_rows: usize, new_rows: usize)
    requires
        1 <= columns <= MAX_BLOCKS,
        1 <= old_rows < new_rows <= MAX_BLOCKS,
        old(grid)@.len() >= columns * new_rows,
        forall|i: int| columns * old_rows <= i < old(grid)@.len() ==> old(grid)@[i] == Block(0),
    ensures
        final(grid)@.len() == old(grid)@.len(),
        forall|x: int, y: int|
            0 <= x < columns && 0 <= y < old_rows ==> #[trigger] final(grid)@[flat(
                x,
                y,
                new_rows as int,
            )] == old(grid)@[flat(x, y, old_rows as int)],
        forall|x: int, y: int|
            0 <= x < columns && old_rows <= y < new_rows ==> #[trigger] final(grid)@[flat(
                x,
                y,
                new_rows as int,
            )] == Block(0),
        forall|i: int| columns * new_rows <= i < final(grid)@.len() ==> final(grid)@[i] == Block(0),
{
    let ghost start = grid@;
    let ghost oh = old_rows as int;
    let ghost nh = new_rows as int;
    let mut coln_index: usize = columns - 1;
    proof {
        assert(columns * new_rows <= 64 * 64 && columns * old_rows <= columns * new_rows && (
        columns - 1 + 1) * oh == columns * oh) by (nonlinear_arith)
            requires
                1 <= columns <= 64,
                oh == old_rows,
                1 <= old_rows < new_rows <= 64,
        ;
    }
    // Moving columns to their new place
    while coln_index >= 1
        invariant
            coln_index < columns <= MAX_BLOCKS,
            1 <= old_rows < new_rows <= MAX_BLOCKS,
            oh == old_rows,
            nh == new_rows,
            grid@.len() == start.len(),
            start.len() >= columns * new_rows,
            forall|j: int, y: int|
                coln_index < j < columns && 0 <= y < oh ==> #[trigger] grid@[flat(j, y, nh)]
                    == start[flat(j, y, oh)],
            forall|j: int, y: int|
                coln_index < j < columns && oh <= y < nh ==> #[trigger] grid@[flat(j, y, nh)]
                    == Block(0),
            forall|i: int|
                (coln_index + 1) * oh <= i < (coln_index + 1) * nh ==> grid@[i] == Block(0),
            forall|i: int| 0 <= i < (coln_index + 1) * oh ==> grid@[i] == start[i],
            forall|i: int| columns * nh <= i < grid@.len() ==> grid@[i] == Block(0),
        decreases coln_index,
    {
        let ghost before = grid@;
        let ghost c = coln_index as int;
        proof {
            assert(c * oh + oh == (c + 1) * oh && c * nh + nh == (c + 1) * nh && c * oh + c <= c
                * nh && (c + 1) * nh <= columns * nh && c * nh <= 64 * 64 && 0 <= c * oh) by (
            nonlinear_arith)
                requires
                    1 <= c < columns <= 64,
                    1 <= oh < nh <= 64,
            ;
        }
        let ghost end = columns * nh;
        // old column:
        let coln_start = coln_index * old_rows;
        // new place
        let new_place = coln_index * new_rows;
        let mut y: usize = old_rows;
        while y > 0
            invariant
                y <= old_rows,
                c == coln_index,
                1 <= c < columns <= MAX_BLOCKS,
                1 <= old_rows < new_rows <= MAX_BLOCKS,
                oh == old_rows,
                nh == new_rows,
                coln_start == c * oh,
                new_place == c * nh,
                coln_start + c <= new_place,
                new_place + nh <= end <= grid@.len(),
                new_place <= 4096,
                grid@.len() == start.len() == before.len(),
                forall|i: int|
                    0 <= i < grid@.len() && !(new_place + y <= i < new_place + oh) ==> grid@[i]
                        == before[i],
                forall|i: int|
                    new_place + y <= i < new_place + oh ==> #[trigger] grid@[i] == before[i
                        - new_place + coln_start],
            decreases y,
        {
            y -= 1;
            let b = grid[coln_start + y];
            grid[new_place + y] = b;
        }
        // fill the empty space left behind
        let mut i: usize = coln_start;
        while i < new_place
            invariant
                coln_start <= i <= new_place,
                c == coln_index,
                1 <= c < columns <= MAX_BLOCKS,
                oh == old_rows,
                nh == new_rows,
                1 <= old_rows < new_rows <= MAX_BLOCKS,
                coln_start == c * oh,
                new_place == c * nh,
                new_place + nh <= end <= grid@.len(),
                new_place <= 4096,
                grid@.len() == start.len() == before.len(),
                forall|k: int|
                    0 <= k < grid@.len() && !(coln_start <= k < i) && !(new_place <= k
                        < new_place + oh) ==> grid@[k] == before[k],
                forall|k: int|
                    new_place <= k < new_place + oh ==> #[trigger] grid@[k] == before[k
                        - new_place + coln_start],
                forall|k: int| coln_start <= k < i ==> grid@[k] == Block(0),
            decreases new_place - i,
        {
            grid[i] = Block(0);
            i += 1;
        }
        proof {
            assert forall|j: int, y: int| c - 1 < j < columns && 0 <= y < oh implies #[trigger] grid@[flat(
                j,
                y,
                nh,
            )] == start[flat(j, y, oh)] by {
                lemma_flat(j, y, columns as int, nh);
                lemma_flat(j, y, columns as int, oh);
                if j > c {
                    assert(flat(j, y, nh) >= (c + 1) * nh) by (nonlinear_arith)
                        requires
                            j > c,
                            0 <= y,
                            0 < nh,
                            flat(j, y, nh) == j * nh + y,
                    ;
                    assert(before[flat(j, y, nh)] == start[flat(j, y, oh)]);
                } else {
                    assert(grid@[new_place + y] == before[coln_start + y]);
                }
            }
            assert forall|j: int, y: int| c - 1 < j < columns && oh <= y < nh implies #[trigger] grid@[flat(
                j,
                y,
                nh,
            )] == Block(0) by {
                lemma_flat(j, y, columns as int, nh);
                if j > c {
                    assert(flat(j, y, nh) >= (c + 1) * nh) by (nonlinear_arith)
                        requires
                            j > c,
                            0 <= y,
                            0 < nh,
                            flat(j, y, nh) == j * nh + y,
                    ;
                    assert(before[flat(j, y, nh)] == Block(0));
                } else {
                    assert(before[flat(j, y, nh)] == Block(0));
                }
            }
            assert((c - 1 + 1) * oh == coln_start && (c - 1 + 1) * nh == new_place);
            assert forall|i: int| columns * nh <= i < grid@.len() implies grid@[i] == Block(0) by {
                assert(i >= end);
                assert(grid@[i] == before[i]);
            }
        }
        coln_index -= 1;
    }
    proof {
        assert((0 + 1) * oh == oh && (0 + 1) * nh == nh) by (nonlinear_arith);
        assert forall|x: int, y: int| 0 <= x < columns && 0 <= y < old_rows implies #[trigger] grid@[flat(
            x,
            y,
            new_rows as int,
        )] == start[flat(x, y, old_rows as int)] by {
            if x == 0 {
                assert(flat(0, y, nh) == y && flat(0, y, oh) == y);
            }
        }
        assert forall|x: int, y: int|
            0 <= x < columns && old_rows <= y < new_rows implies #[trigger] grid@[flat(
            x,
            y,
            new_rows as int,
        )] == Block(0) by {
            if x == 0 {
                assert(flat(0, y, nh) == y);
            }
        }
    }
}

/// By how much the rotated blocks of a portion reach beyond the rotated
/// portion on the side of the origin, where the blocks reach `(dw, dh)`
/// beyond the portion before the rotation.
pub open spec fn overhang(dw: int, dh: int, r: Rotation) -> (int, int) {
    match r {
        Rotation::R0 => (0, 0),
        Rotation::R90 => (dh, 0),
        Rotation::R180 => (dw, dh),
        Rotation::R270 => (0, dw),
    }
}

/// Where the block `(i, j)` of a store of `columns` by `rows` blocks goes
/// when the whole is rotated by `r`.
pub open spec fn placed(i: int, j: int, columns: int, rows: int, r: Rotation) -> (int, int) {
    crate::cells::rotate_cell((i, j), columns, rows, r)
}

/// Rotate every block of the store by `r`, two at a time as long as there
/// are two.
fn rotate_all(blocks: &mut Vec<Block>, r: Rotation)
    ensures
        final(blocks)@.len() == old(blocks)@.len(),
        forall|k: int|
            0 <= k < old(blocks)@.len() ==> (#[trigger] final(blocks)@[k]).cells() == rotated(
                old(blocks)@[k].cells(),
                4,
                4,
                r,
            ),
{
    let n = blocks.len();
    let mut i: usize = 0;
    while i < n
        invariant
            i <= n,
            n == blocks@.len(),
            n == old(blocks)@.len(),
            forall|k: int|
                0 <= k < i ==> (#[trigger] blocks@[k]).cells() == rotated(
                    old(blocks)@[k].cells(),
                    4,
                    4,
                    r,
                ),
            forall|k: int| i <= k < n ==> blocks@[k] == old(blocks)@[k],
        decreases n - i,
    {
        if n - i >= 2 {
            let x1 = blocks[i].0;
            let x2 = blocks[i + 1].0;
            let (r1, r2) = match r {
                Rotation::R0 => {
                    proof {
                        crate::grids::block::lemma_turned_cells(x1, x1, Rotation::R0);
                        crate::grids::block::lemma_turned_cells(x2, x2, Rotation::R0);
                    }
                    (x1, x2)
                },
                Rotation::R90 => Block::batch_2_rotate_90(x1, x2),
                Rotation::R180 => Block::batch_2_rotate_180(x1, x2),
                Rotation::R270 => Block::batch_2_rotate_270(x1, x2),
            };
            blocks[i] = Block(r1);
            blocks[i + 1] = Block(r2);
            i += 2;
        } else {
            let b = blocks[i].rotate(r);
            blocks[i] = b;
            i += 1;
        }
    }
}

} // verus!
