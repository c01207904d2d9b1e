//! One tile of the tiled grid: a block of 4 x 4 cells, held in one 16-bit
//! word.

use vstd::prelude::*;
use crate::bits::{bit16, bit32, lemma_bits_equal16, ones16};
use crate::cells::{
    in_box, is_bounding_box, lemma_read_before_box, lemma_read_before_step, read_before, rotated,
    source_cell, within,
};
use crate::rotation::Rotation;

verus! {

/// Whether the cell `(x, y)` of the block held in `v` is set: the columns
/// follow each other in the word, four bits each, lowest row first.
pub open spec fn cell16(v: u16, x: u16, y: u16) -> bool {
    (v >> ((4 * x + y) as u16)) & 1 == 1
}

/// A block of 4 x 4 cells.
#[derive(Clone, Copy, PartialEq, Eq, Structural, Debug)]
pub struct Block(pub u16);

impl Block {
    /// Whether the cell `(x, y)` is set; no cell outside the block is.
    pub open spec fn at(&self, x: int, y: int) -> bool {
        0 <= x < 4 && 0 <= y < 4 && cell16(self.0, x as u16, y as u16)
    }

    /// The set cells.
    pub open spec fn cells(&self) -> Set<(int, int)> {
        Set::new(|c: (int, int)| self.at(c.0, c.1))
    }

    /// The value of the cell `(x, y)`.
    pub fn get(&self, x: usize, y: usize) -> (b: bool)
        requires
            x < 4,
            y < 4,
        ensures
            b == self.at(x as int, y as int),
    {
        // To get the (x, y) bit, we select the right line and the right
        // column with masks and then and them
        let y_mask: u16 = 0x1111 << y;
        let x_mask: u16 = 0x000F << (x * 4);
        let bit = self.0 & x_mask & y_mask;
        proof {
            let v = self.0;
            let a = x as u16;
            let b = y as u16;
            assert((v & (0x000Fu16 << ((a as usize) * 4)) & (0x1111u16 << (b as usize)) != 0)
                == cell16(v, a, b)) by (bit_vector)
                requires
                    a < 4,
                    b < 4,
            ;
        }
        bit != 0
    }

    /// The block with the cell `(x, y)` set.
    pub fn set(&self, x: usize, y: usize) -> (r: Self)
        requires
            x < 4,
            y < 4,
        ensures
            forall|a: int, b: int| #[trigger] r.at(a, b) == (self.at(a, b) || (a == x && b == y)),
            r.cells() == self.cells().insert((x as int, y as int)),
    {
        // We find the right bit by anding a line mask and a column mask
        let y_mask: u16 = 0x1111 << y;
        let x_mask: u16 = 0x000F << (x * 4);
        let bit = x_mask & y_mask;
        let r = Block(self.0 | bit);
        proof {
            let v = self.0;
            let w = r.0;
            let p = x as u16;
            let q = y as u16;
            assert(forall|a: u16, b: u16|
                a < 4 && b < 4 ==> #[trigger] cell16(w, a, b) == (cell16(v, a, b) || (a == p && b
                    == q))) by (bit_vector)
                requires
                    p < 4,
                    q < 4,
                    w == v | ((0x000Fu16 << ((p as usize) * 4)) & (0x1111u16 << (q as usize))),
            ;
            assert forall|a: int, b: int| #[trigger] r.at(a, b) == (self.at(a, b) || (a == x && b
                == y)) by {
                if 0 <= a < 4 && 0 <= b < 4 {
                    assert(cell16(w, a as u16, b as u16) == (cell16(v, a as u16, b as u16) || (
                    a as u16 == p && b as u16 == q)));
                }
            }
            assert(r.cells() =~= self.cells().insert((x as int, y as int)));
        }
        r
    }

    /// The block with the cell `(x, y)` cleared.
    pub fn unset(&self, x: usize, y: usize) -> (r: Self)
        requires
            x < 4,
            y < 4,
        ensures
            forall|a: int, b: int| #[trigger] r.at(a, b) == (self.at(a, b) && !(a == x && b == y)),
            r.cells() == self.cells().remove((x as int, y as int)),
    {
        // We find the right bit by anding a line mask and a column mask.
        // Then we invert the mask to keep only the other bits
        let y_mask: u16 = 0x1111 << y;
        let x_mask: u16 = 0x000F << (x * 4);
        let mask = !(x_mask & y_mask);
        let r = Block(self.0 & mask);
        proof {
            let v = self.0;
            let w = r.0;
            let p = x as u16;
            let q = y as u16;
            assert(forall|a: u16, b: u16|
                a < 4 && b < 4 ==> #[trigger] cell16(w, a, b) == (cell16(v, a, b) && !(a == p && b
                    == q))) by (bit_vector)
                requires
                    p < 4,
                    q < 4,
                    w == v & !((0x000Fu16 << ((p as usize) * 4)) & (0x1111u16 << (q as usize))),
            ;
            assert forall|a: int, b: int| #[trigger] r.at(a, b) == (self.at(a, b) && !(a == x && b
                == y)) by {
                if 0 <= a < 4 && 0 <= b < 4 {
                    assert(cell16(w, a as u16, b as u16) == (cell16(v, a as u16, b as u16) && !(
                    a as u16 == p && b as u16 == q)));
                }
            }
            assert(r.cells() =~= self.cells().remove((x as int, y as int)));
        }
        r
    }

    /// Whether no cell is set.
    pub fn is_empty(&self) -> (b: bool)
        ensures
            b == (self.cells() == Set::<(int, int)>::empty()),
    {
        proof {
            let v = self.0;
            if v == 0 {
                lemma_cell16_zero();
                assert(self.cells() =~= Set::<(int, int)>::empty());
            } else {
                if self.cells() == Set::<(int, int)>::empty() {
                    assert forall|k: u16| k < 16 implies #[trigger] bit16(v, k) == bit16(
                        0,
                        k,
                    ) by {
                        let a = (k / 4) as int;
                        let b = (k % 4) as int;
                        assert(!self.cells().contains((a, b)));
                        assert(!self.at(a, b));
                        assert((4 * (a as u16) + (b as u16)) as u16 == k);
                        assert(!bit16(0, k)) by (bit_vector);
                    }
                    lemma_bits_equal16(v, 0);
                }
            }
        }
        self.0 == 0
    }

    /// The number of set cells.
    pub fn count(&self) -> (n: u32)
        ensures
            n == self.cells().len(),
            n <= 16,
    {
        proof {
            lemma_block_count(self.0, 16);
            assert(cells_below(self.0, 16) =~= self.cells());
        }
        self.0.count_ones()
    }

    /// The smallest rectangle anchored at the origin that holds the set
    /// cells.
    pub fn get_bounding_box(&self) -> (bb: (usize, usize))
        ensures
            is_bounding_box(self.cells(), bb.0 as int, bb.1 as int),
            bb.0 <= 4,
            bb.1 <= 4,
    {
        if self.is_empty() {
            return (0, 0);
        }
        let mut max_x: usize = 0;
        let mut max_y: usize = 0;
        let ghost s = self.cells();
        let ghost mut top_x: (int, int) = (0, 0);
        let ghost mut top_y: (int, int) = (0, 0);
        let ghost mut seen = false;
        proof {
            lemma_read_before_box(s, 4, 4);
        }

        let mut x: usize = 0;
        while x < 4
            invariant
                x <= 4,
                s == self.cells(),
                within(s, 4, 4),
                max_x < 4,
                max_y < 4,
                seen <==> read_before(s, (x as int, 0)) != Set::<(int, int)>::empty(),
                forall|c: (int, int)| #[trigger]
                    read_before(s, (x as int, 0)).contains(c) ==> c.0 <= max_x && c.1 <= max_y,
                seen ==> s.contains(top_x) && top_x.0 == max_x,
                seen ==> s.contains(top_y) && top_y.1 == max_y,
                !seen ==> max_y == 0,
            decreases 4 - x,
        {
            let mut y: usize = 0;
            while y < 4
                invariant
                    x < 4,
                    y <= 4,
                    s == self.cells(),
                    within(s, 4, 4),
                    max_x < 4,
                    max_y < 4,
                    seen <==> read_before(s, (x as int, y as int)) != Set::<(int, int)>::empty(),
                    forall|c: (int, int)| #[trigger]
                        read_before(s, (x as int, y as int)).contains(c) ==> c.0 <= max_x && c.1
                            <= max_y,
                    seen ==> s.contains(top_x) && top_x.0 == max_x,
                    seen ==> s.contains(top_y) && top_y.1 == max_y,
                    !seen ==> max_y == 0,
                decreases 4 - y,
            {
                proof {
                    lemma_read_before_step(s, x as int, y as int);
                }
                if self.get(x, y) {
                    proof {
                        assert(read_before(s, (x as int, y + 1)).contains((x as int, y as int)));
                        seen = true;
                        top_x = (x as int, y as int);
                    }
                    max_x = x;
                    if y >= max_y {
                        max_y = y;
                        proof {
                            top_y = (x as int, y as int);
                        }
                    }
                }
                y += 1;
            }
            proof {
                lemma_read_before_box(s, 4, 4);
                assert(read_before(s, (x as int, 4)) == read_before(s, (x + 1, 0)));
            }
            x += 1;
        }
        proof {
            lemma_read_before_box(s, 4, 4);
        }

        // We return +1 to get the bounding box rather than the max index
        (max_x + 1, max_y + 1)
    }

    /// Whether the cell `(x, y)` is set once the block has moved by
    /// `(dx, dy)` and the cells of `shift_in` have come in.
    pub open spec fn shifted_at(&self, dx: int, dy: int, shift_in: u16, x: int, y: int) -> bool {
        in_box((x, y), 4, 4) && (self.at(x - dx, y - dy) || ((dx != 0 || dy != 0) && Block(
            shift_in,
        ).at(x, y)))
    }

    /// Whether the cell `(x, y)` is set in what a move by `(dx, dy)` pushes
    /// out of the block: the cells that leave, placed where they land in the
    /// block next door.
    pub open spec fn pushed_at(&self, dx: int, dy: int, x: int, y: int) -> bool {
        in_box((x, y), 4, 4) && (dx != 0 || dy != 0) && self.at(
            x - dx + 4 * signum(dx),
            y - dy + 4 * signum(dy),
        )
    }

    /// Shift the block on the X axis, returning the part going outside.
    pub fn shift_x(&self, n: isize, shift_in: u16) -> (res: (Self, u16))
        requires
            -3 <= n <= 3,
        ensures
            forall|a: int, b: int| #[trigger]
                res.0.at(a, b) == self.shifted_at(n as int, 0, shift_in, a, b),
            forall|a: int, b: int| #[trigger]
                Block(res.1).at(a, b) == self.pushed_at(n as int, 0, a, b),
    {
        let v = self.0;
        if n == 0 {
            proof {
                lemma_cell16_zero();
            }
            (Block(v), 0)
        } else if n > 0 {
            let m: u32 = n as u32;
            // Using u32 for less operations on a single block
            let tmp: u32 = ((v as u32) << (4 * m)) | shift_in as u32;
            let block = (tmp & 0xFFFF) as u16;
            let shift_out = (tmp >> 16) as u16;
            proof {
                assert(forall|a: u16, b: u16|
                    a < 4 && b < 4 ==> (#[trigger] cell16(block, a, b) == ((a >= m && cell16(
                        v,
                        (a - m) as u16,
                        b,
                    )) || cell16(shift_in, a, b)))) by (bit_vector)
                    requires
                        1 <= m <= 3,
                        block == ((((v as u32) << (4 * m)) | shift_in as u32) & 0xFFFF) as u16,
                ;
                assert(forall|a: u16, b: u16|
                    a < 4 && b < 4 ==> (#[trigger] cell16(shift_out, a, b) == (a < m && cell16(
                        v,
                        (a + 4 - m) as u16,
                        b,
                    )))) by (bit_vector)
                    requires
                        1 <= m <= 3,
                        shift_out == ((((v as u32) << (4 * m)) | shift_in as u32) >> 16) as u16,
                ;
                assert forall|a: int, b: int| #[trigger]
                    Block(block).at(a, b) == self.shifted_at(n as int, 0, shift_in, a, b) by {
                    if in_box((a, b), 4, 4) {
                        assert(cell16(block, a as u16, b as u16) == ((a as u16 >= m && cell16(
                            v,
                            (a as u16 - m) as u16,
                            b as u16,
                        )) || cell16(shift_in, a as u16, b as u16)));
                    }
                }
                assert forall|a: int, b: int| #[trigger]
                    Block(shift_out).at(a, b) == self.pushed_at(n as int, 0, a, b) by {
                    if in_box((a, b), 4, 4) {
                        assert(cell16(shift_out, a as u16, b as u16) == (m > a as u16 && cell16(
                            v,
                            (a as u16 + 4 - m) as u16,
                            b as u16,
                        )));
                    }
                }
            }
            (Block(block), shift_out)
        } else {
            let m: u32 = (-n) as u32;
            // Using u32 for less operations on a single block
            let tmp: u32 = (((v as u32) << 16) >> (4 * m)) | ((shift_in as u32) << 16);
            let block = (tmp >> 16) as u16;
            let shift_out = (tmp & 0xFFFF) as u16;
            proof {
                assert(forall|a: u16, b: u16|
                    a < 4 && b < 4 ==> (#[trigger] cell16(block, a, b) == ((a + m < 4 && cell16(
                        v,
                        (a + m) as u16,
                        b,
                    )) || cell16(shift_in, a, b)))) by (bit_vector)
                    requires
                        1 <= m <= 3,
                        block == (((((v as u32) << 16) >> (4 * m)) | ((shift_in as u32) << 16))
                            >> 16) as u16,
                ;
                assert(forall|a: u16, b: u16|
                    a < 4 && b < 4 ==> (#[trigger] cell16(shift_out, a, b) == (a + m >= 4
                        && cell16(v, (a + m - 4) as u16, b)))) by (bit_vector)
                    requires
                        1 <= m <= 3,
                        shift_out == (((((v as u32) << 16) >> (4 * m)) | ((shift_in as u32)
                            << 16)) & 0xFFFF) as u16,
                ;
                assert forall|a: int, b: int| #[trigger]
                    Block(block).at(a, b) == self.shifted_at(n as int, 0, shift_in, a, b) by {
                    if in_box((a, b), 4, 4) {
                        assert(cell16(block, a as u16, b as u16) == ((a as u16 + m < 4 && cell16(
                            v,
                            (a as u16 + m) as u16,
                            b as u16,
                        )) || cell16(shift_in, a as u16, b as u16)));
                    }
                }
                assert forall|a: int, b: int| #[trigger]
                    Block(shift_out).at(a, b) == self.pushed_at(n as int, 0, a, b) by {
                    if in_box((a, b), 4, 4) {
                        assert(cell16(shift_out, a as u16, b as u16) == (a as u16 + m >= 4
                            && cell16(v, (a as u16 + m - 4) as u16, b as u16)));
                    }
                }
            }
            (Block(block), shift_out)
        }
    }

    /// Shift the block on the Y axis, returning the part going outside.
    pub fn shift_y(&self, n: isize, shift_in: u16) -> (res: (Self, u16))
        requires
            -3 <= n <= 3,
        ensures
            forall|a: int, b: int| #[trigger]
                res.0.at(a, b) == self.shifted_at(0, n as int, shift_in, a, b),
            forall|a: int, b: int| #[trigger]
                Block(res.1).at(a, b) == self.pushed_at(0, n as int, a, b),
    {
        let v = self.0;
        if n == 0 {
            proof {
                lemma_cell16_zero();
            }
            (Block(v), 0)
        } else if n > 0 {
            let m: u16 = n as u16;
            let top_row_mask = low_rows(m);
            let block_mask = !top_row_mask;
            let new_block = (v << m) & block_mask | shift_in;
            let shift_out = (v >> (4 - m)) & top_row_mask;
            proof {
                assert(forall|a: u16, b: u16|
                    #![trigger cell16(new_block, a, b)]
                    #![trigger cell16(shift_out, a, b)]
                    a < 4 && b < 4 ==> (cell16(new_block, a, b) == ((b >= m && cell16(
                        v,
                        a,
                        (b - m) as u16,
                    )) || cell16(shift_in, a, b))) && (cell16(shift_out, a, b) == (b < m
                        && cell16(v, a, (b + 4 - m) as u16)))) by (bit_vector)
                    requires
                        1 <= m <= 3,
                        new_block == (v << m) & !spec_low_rows(m) | shift_in,
                        shift_out == (v >> ((4 - m) as u16)) & spec_low_rows(m),
                ;
                assert forall|a: int, b: int| #[trigger]
                    Block(new_block).at(a, b) == self.shifted_at(0, n as int, shift_in, a, b) by {
                    if in_box((a, b), 4, 4) {
                        assert(cell16(new_block, a as u16, b as u16) == ((b as u16 >= m && cell16(
                            v,
                            a as u16,
                            (b as u16 - m) as u16,
                        )) || cell16(shift_in, a as u16, b as u16)));
                    }
                }
                assert forall|a: int, b: int| #[trigger]
                    Block(shift_out).at(a, b) == self.pushed_at(0, n as int, a, b) by {
                    if in_box((a, b), 4, 4) {
                        assert(cell16(shift_out, a as u16, b as u16) == (m > b as u16 && cell16(
                            v,
                            a as u16,
                            (b as u16 + 4 - m) as u16,
                        )));
                    }
                }
            }
            (Block(new_block), shift_out)
        } else {
            let m: u16 = (-n) as u16;
            let block_mask = low_rows(4 - m);
            let top_row_mask = !block_mask;
            let new_block = (v >> m) & block_mask | shift_in;
            let shift_out = (v << (4 - m)) & top_row_mask;
            proof {
                assert(forall|a: u16, b: u16|
                    #![trigger cell16(new_block, a, b)]
                    #![trigger cell16(shift_out, a, b)]
                    a < 4 && b < 4 ==> (cell16(new_block, a, b) == ((b + m < 4 && cell16(
                        v,
                        a,
                        (b + m) as u16,
                    )) || cell16(shift_in, a, b))) && (cell16(shift_out, a, b) == (b + m >= 4
                        && cell16(v, a, (b + m - 4) as u16)))) by (bit_vector)
                    requires
                        1 <= m <= 3,
                        new_block == (v >> m) & spec_low_rows((4 - m) as u16) | shift_in,
                        shift_out == (v << ((4 - m) as u16)) & !spec_low_rows((4 - m) as u16),
                ;
                assert forall|a: int, b: int| #[trigger]
                    Block(new_block).at(a, b) == self.shifted_at(0, n as int, shift_in, a, b) by {
                    if in_box((a, b), 4, 4) {
                        assert(cell16(new_block, a as u16, b as u16) == ((b as u16 + m < 4
                            && cell16(v, a as u16, (b as u16 + m) as u16)) || cell16(
                            shift_in,
                            a as u16,
                            b as u16,
                        )));
                    }
                }
                assert forall|a: int, b: int| #[trigger]
                    Block(shift_out).at(a, b) == self.pushed_at(0, n as int, a, b) by {
                    if in_box((a, b), 4, 4) {
                        assert(cell16(shift_out, a as u16, b as u16) == (b as u16 + m >= 4
                            && cell16(v, a as u16, (b as u16 + m - 4) as u16)));
                    }
                }
            }
            (Block(new_block), shift_out)
        }
    }

    /// The block with the cells of both.
    pub fn union(&self, other: Block) -> (r: Self)
        ensures
            forall|a: int, b: int| #[trigger] r.at(a, b) == (self.at(a, b) || other.at(a, b)),
    {
        let v = self.0;
        let w = other.0;
        let r = v | w;
        proof {
            assert(forall|a: u16, b: u16|
                a < 4 && b < 4 ==> #[trigger] cell16(r, a, b) == (cell16(v, a, b) || cell16(
                    w,
                    a,
                    b,
                ))) by (bit_vector)
                requires
                    r == v | w,
            ;
            assert forall|a: int, b: int| #[trigger]
                Block(r).at(a, b) == (self.at(a, b) || other.at(a, b)) by {
                if in_box((a, b), 4, 4) {
                    assert(cell16(r, a as u16, b as u16) == (cell16(v, a as u16, b as u16)
                        || cell16(w, a as u16, b as u16)));
                }
            }
        }
        Block(r)
    }

    /// The block without its cells outside the first `cw` columns and the
    /// first `ch` rows.
    pub fn crop(&self, cw: usize, ch: usize) -> (r: Self)
        ensures
            forall|a: int, b: int| #[trigger] r.at(a, b) == (self.at(a, b) && a < cw && b < ch),
    {
        let v = self.0;
        let column_mask: u16 = if cw >= 4 {
            0xFFFF
        } else {
            let top: u16 = 1u16 << (4 * cw);
            assert(top >= 1) by (bit_vector)
                requires
                    cw < 4,
                    top == 1u16 << (4 * cw),
            ;
            top - 1
        };
        let row_mask: u16 = if ch >= 4 {
            0xFFFF
        } else if ch == 0 {
            0
        } else {
            low_rows(ch as u16)
        };
        let r = v & column_mask & row_mask;
        proof {
            let p: u16 = if cw >= 4 {
                4
            } else {
                cw as u16
            };
            let q: u16 = if ch >= 4 {
                4
            } else {
                ch as u16
            };
            assert(forall|a: u16, b: u16|
                a < 4 && b < 4 ==> #[trigger] cell16(r, a, b) == (cell16(v, a, b) && a < p && b
                    < q)) by (bit_vector)
                requires
                    p <= 4,
                    q <= 4,
                    column_mask == (if p >= 4 {
                        0xFFFFu16
                    } else {
                        ((1u16 << (4 * (p as usize))) - 1) as u16
                    }),
                    row_mask == (if q >= 4 {
                        0xFFFFu16
                    } else if q == 0 {
                        0u16
                    } else {
                        spec_low_rows(q)
                    }),
                    r == v & column_mask & row_mask,
            ;
            assert forall|a: int, b: int| #[trigger]
                Block(r).at(a, b) == (self.at(a, b) && a < cw && b < ch) by {
                if in_box((a, b), 4, 4) {
                    assert(cell16(r, a as u16, b as u16) == (cell16(v, a as u16, b as u16)
                        && (a as u16) < p && (b as u16) < q));
                }
            }
        }
        Block(r)
    }

    /// The rotation by 270 degrees of two blocks at once, each in one half
    /// of a wider word; it gives what `rotate_270` gives for each of them.
    pub fn batch_2_rotate_270(x1: u16, x2: u16) -> (res: (u16, u16))
        ensures
            Block(res.0).cells() == rotated(Block(x1).cells(), 4, 4, Rotation::R270),
            Block(res.1).cells() == rotated(Block(x2).cells(), 4, 4, Rotation::R270),
    {
        let x: u32 = ((x1 as u32) << 16) | x2 as u32;
        let b0: u32 = x & 0x0007_0007;
        let b1: u32 = (x >> 4) & 0x0007_0007;
        let b2: u32 = (x >> 8) & 0x0007_0007;
        let b3: u32 = (x >> 12) & 0x0007_0007;
        assert(b0 <= 0x0007_0007 && b1 <= 0x0007_0007 && b2 <= 0x0007_0007 && b3 <= 0x0007_0007)
            by (bit_vector)
            requires
                b0 == x & 0x0007_0007,
                b1 == (x >> 4) & 0x0007_0007,
                b2 == (x >> 8) & 0x0007_0007,
                b3 == (x >> 12) & 0x0007_0007,
        ;
        let m0: u32 = b0 * 0b1001001;
        let m1: u32 = b1 * 0b1001001;
        let m2: u32 = b2 * 0b1001001;
        let m3: u32 = b3 * 0b1001001;
        let new_blocks: u32 = ((m0 & 0x0111_0111) << 3) | ((x & 0x0008_0008) << 12) | ((m1
            & 0x0111_0111) << 2) | ((x & 0x0080_0080) << 7) | ((m2 & 0x0111_0111) << 1) | ((x
            & 0x0800_0800) << 2) | (m3 & 0x0111_0111) | ((x & 0x8000_8000) >> 3);
        let r1 = (new_blocks >> 16) as u16;
        let r2 = (new_blocks & 0xFFFF) as u16;
        proof {
            assert(forall|a: u16, b: u16|
                #![trigger cell16(r1, a, b)]
                #![trigger cell16(r2, a, b)]
                a < 4 && b < 4 ==> cell16(r1, a, b) == cell16(x1, (3 - b) as u16, a) && cell16(
                    r2,
                    a,
                    b,
                ) == cell16(x2, (3 - b) as u16, a)) by (bit_vector)
                requires
                    x == ((x1 as u32) << 16) | x2 as u32,
                    m0 == (x & 0x0007_0007) * 0b1001001,
                    m1 == ((x >> 4) & 0x0007_0007) * 0b1001001,
                    m2 == ((x >> 8) & 0x0007_0007) * 0b1001001,
                    m3 == ((x >> 12) & 0x0007_0007) * 0b1001001,
                    new_blocks == ((m0 & 0x0111_0111) << 3) | ((x & 0x0008_0008) << 12) | ((m1
                        & 0x0111_0111) << 2) | ((x & 0x0080_0080) << 7) | ((m2 & 0x0111_0111)
                        << 1) | ((x & 0x0800_0800) << 2) | (m3 & 0x0111_0111) | ((x
                        & 0x8000_8000) >> 3),
                    r1 == (new_blocks >> 16) as u16,
                    r2 == (new_blocks & 0xFFFF) as u16,
            ;
            lemma_turned_cells(x1, r1, Rotation::R270);
            lemma_turned_cells(x2, r2, Rotation::R270);
        }
        (r1, r2)
    }

    /// The rotation by 180 degrees of two blocks at once.
    pub fn batch_2_rotate_180(x1: u16, x2: u16) -> (res: (u16, u16))
        ensures
            Block(res.0).cells() == rotated(Block(x1).cells(), 4, 4, Rotation::R180),
            Block(res.1).cells() == rotated(Block(x2).cells(), 4, 4, Rotation::R180),
            turns_into(x1, res.0, Rotation::R180),
            turns_into(x2, res.1, Rotation::R180),
    {
        // Reversing the wide word reverses each half and swaps the halves
        let x: u32 = ((x2 as u32) << 16) | x1 as u32;
        let y: u32 = x.reverse_bits();
        let r1 = #[verifier::truncate] ((y >> 16) as u16);
        let r2 = #[verifier::truncate] ((y & 0xFFFF) as u16);
        proof {
            assert(forall|k: u32|
                #![trigger bit32(y, k)]
                k < 16 ==> bit32(y, k) == bit16(r2, k as u16) && bit32(y, (k + 16) as u32)
                    == bit16(r1, k as u16) && bit32(x, k) == bit16(x1, k as u16) && bit32(
                    x,
                    (k + 16) as u32,
                ) == bit16(x2, k as u16)) by (bit_vector)
                requires
                    x == ((x2 as u32) << 16) | x1 as u32,
                    r1 == (y >> 16) as u16,
                    r2 == (y & 0xFFFF) as u16,
            ;
            assert forall|a: u16, b: u16| a < 4 && b < 4 implies #[trigger] cell16(r1, a, b)
                == cell16(x1, (3 - a) as u16, (3 - b) as u16) by {
                // The high half of the reversed word is the low half of
                // the word, reversed
                let k = (4 * a + b) as u32;
                let m = (15 - k) as u32;
                assert(bit32(y, k) == bit16(r2, k as u16));
                assert(bit32(y, m) == bit16(r2, m as u16));
                assert(bit32(y, (k + 16) as u32) == bit16(r1, k as u16));
                assert(bit32(y, (k + 16) as u32) == bit32(x, m));
                assert(bit32(x, m) == bit16(x1, m as u16));
                assert((4 * ((3 - a) as u16) + ((3 - b) as u16)) as u16 == (15 - k) as u16);
            }
            assert forall|a: u16, b: u16| a < 4 && b < 4 implies #[trigger] cell16(r2, a, b)
                == cell16(x2, (3 - a) as u16, (3 - b) as u16) by {
                let k = (4 * a + b) as u32;
                let m = (15 - k) as u32;
                assert(bit32(y, k) == bit16(r2, k as u16));
                assert(bit32(y, m) == bit16(r2, m as u16));
                assert(bit32(y, k) == bit32(x, (31 - k) as u32));
                assert(bit32(x, (m + 16) as u32) == bit16(x2, m as u16));
                assert((4 * ((3 - a) as u16) + ((3 - b) as u16)) as u16 == (15 - k) as u16);
            }
            lemma_turned_cells(x1, r1, Rotation::R180);
            lemma_turned_cells(x2, r2, Rotation::R180);
        }
        (r1, r2)
    }

    /// The rotation by 90 degrees of two blocks at once.
    pub fn batch_2_rotate_90(x1: u16, x2: u16) -> (res: (u16, u16))
        ensures
            Block(res.0).cells() == rotated(Block(x1).cells(), 4, 4, Rotation::R90),
            Block(res.1).cells() == rotated(Block(x2).cells(), 4, 4, Rotation::R90),
    {
        // Rotating by 90 degrees is the same as rotating by 180 degrees and
        // then by 270 degrees
        let (h1, h2) = Self::batch_2_rotate_180(x1, x2);
        let (r1, r2) = Self::batch_2_rotate_270(h1, h2);
        proof {
            lemma_cells_turn(h1, r1, Rotation::R270);
            lemma_cells_turn(h2, r2, Rotation::R270);
            lemma_turned_cells(x1, r1, Rotation::R90);
            lemma_turned_cells(x2, r2, Rotation::R90);
        }
        (r1, r2)
    }

    /// The rotation by 270 degrees of the block held in `x`.
    pub fn rotate_270(x: u16) -> (r: u16)
        ensures
            turns_into(x, r, Rotation::R270),
            Block(r).cells() == rotated(Block(x).cells(), 4, 4, Rotation::R270),
    {
        // Rotating by 270 degrees maps the bits of index ... to the bits of
        // index ...
        // - [0, 1, 2, 3] -> [3, 7, 11, 15]
        // - [4, 5, 6, 7] -> [2, 6, 10, 14]
        // - [8, 9, 10, 11] -> [1, 5, 9, 13]
        // - [12, 13, 14, 15] -> [0, 4, 8, 12]
        //
        // All variables named bits_xx_xx have these bits of the block in
        // contiguous form in their lowest bits
        let bits_2_0: u16 = x & 0x7;
        let bits_6_4: u16 = (x >> 4) & 0x7;
        let bits_10_8: u16 = (x >> 8) & 0x7;
        let bits_14_12: u16 = (x >> 12) & 0x7;
        assert(bits_2_0 <= 7 && bits_6_4 <= 7 && bits_10_8 <= 7 && bits_14_12 <= 7)
            by (bit_vector)
            requires
                bits_2_0 == x & 0x7,
                bits_6_4 == (x >> 4) & 0x7,
                bits_10_8 == (x >> 8) & 0x7,
                bits_14_12 == (x >> 12) & 0x7,
        ;
        let spread_0: u16 = bits_2_0 * 0b1001001;
        let spread_1: u16 = bits_6_4 * 0b1001001;
        let spread_2: u16 = bits_10_8 * 0b1001001;
        let spread_3: u16 = bits_14_12 * 0b1001001;
        let bit_3_at_bit_15: u16 = (x & 0x0008) << 12;
        let bit_7_at_bit_14: u16 = (x & 0x0080) << 7;
        let bit_11_at_bit_13: u16 = (x & 0x0800) << 2;
        let bit_15_at_bit_12: u16 = (x & 0x8000) >> 3;

        let mut new_block: u16 = 0;
        new_block |= (spread_0 & 0b100010001) << 3;
        new_block |= bit_3_at_bit_15;
        new_block |= (spread_1 & 0b100010001) << 2;
        new_block |= bit_7_at_bit_14;
        new_block |= (spread_2 & 0b100010001) << 1;
        new_block |= bit_11_at_bit_13;
        new_block |= spread_3 & 0b100010001;
        new_block |= bit_15_at_bit_12;
        proof {
            assert(forall|a: u16, b: u16|
                a < 4 && b < 4 ==> #[trigger] cell16(new_block, a, b) == cell16(
                    x,
                    (3 - b) as u16,
                    a,
                )) by (bit_vector)
                requires
                    spread_0 == (x & 0x7) * 0b1001001,
                    spread_1 == ((x >> 4) & 0x7) * 0b1001001,
                    spread_2 == ((x >> 8) & 0x7) * 0b1001001,
                    spread_3 == ((x >> 12) & 0x7) * 0b1001001,
                    new_block == 0u16 | ((spread_0 & 0b100010001) << 3) | ((x & 0x0008) << 12) | ((
                    spread_1 & 0b100010001) << 2) | ((x & 0x0080) << 7) | ((spread_2 & 0b100010001)
                        << 1) | ((x & 0x0800) << 2) | (spread_3 & 0b100010001) | ((x & 0x8000)
                        >> 3),
            ;
            lemma_turned_cells(x, new_block, Rotation::R270);
        }
        new_block
    }

    /// The block rotated by `r`.
    pub fn rotate(&self, r: Rotation) -> (res: Self)
        ensures
            res.cells() == rotated(self.cells(), 4, 4, r),
    {
        match r {
            Rotation::R0 => {
                proof {
                    lemma_turned_cells(self.0, self.0, Rotation::R0);
                }
                Block(self.0)
            },
            Rotation::R90 => {
                // Rotating by 90 degrees is the same as rotating by 180
                // degrees and then by 270 degrees
                let half = self.0.reverse_bits();
                let res = Self::rotate_270(half);
                proof {
                    lemma_reversed_turns(self.0, half);
                    lemma_turned_cells(self.0, res, Rotation::R90);
                }
                Block(res)
            },
            Rotation::R180 => {
                let res = self.0.reverse_bits();
                proof {
                    lemma_reversed_turns(self.0, res);
                    lemma_turned_cells(self.0, res, Rotation::R180);
                }
                Block(res)
            },
            Rotation::R270 => Block(Self::rotate_270(self.0)),
        }
    }
}

/// Whether each cell of the block held in `r` has the value of the cell of
/// the block held in `v` that the rotation `rot` brings there.
pub open spec fn turns_into(v: u16, r: u16, rot: Rotation) -> bool {
    forall|a: u16, b: u16|
        a < 4 && b < 4 ==> #[trigger] cell16(r, a, b) == (match rot {
            Rotation::R0 => cell16(v, a, b),
            Rotation::R90 => cell16(v, b, (3 - a) as u16),
            Rotation::R180 => cell16(v, (3 - a) as u16, (3 - b) as u16),
            Rotation::R270 => cell16(v, (3 - b) as u16, a),
        })
}

/// A block whose cells come from another by a rotation holds the rotated set
/// of cells; and a half turn followed by three quarters is one quarter.
pub proof fn lemma_turned_cells(v: u16, r: u16, rot: Rotation)
    requires
        turns_into(v, r, rot) || (rot == Rotation::R90 && exists|m: u16|
            turns_into(v, m, Rotation::R180) && turns_into(m, r, Rotation::R270)),
    ensures
        turns_into(v, r, rot),
        Block(r).cells() == rotated(Block(v).cells(), 4, 4, rot),
{
    if !turns_into(v, r, rot) {
        let m = choose|m: u16|
            turns_into(v, m, Rotation::R180) && turns_into(m, r, Rotation::R270);
        assert forall|a: u16, b: u16| a < 4 && b < 4 implies #[trigger] cell16(r, a, b) == cell16(
            v,
            b,
            (3 - a) as u16,
        ) by {
            assert(cell16(r, a, b) == cell16(m, (3 - b) as u16, a));
        }
    }
    assert forall|c: (int, int)| Block(r).cells().contains(c) == rotated(
        Block(v).cells(),
        4,
        4,
        rot,
    ).contains(c) by {
        if in_box(c, 4, 4) {
            let a = c.0 as u16;
            let b = c.1 as u16;
            let e = source_cell(c, 4, 4, rot);
            assert(Block(r).at(c.0, c.1) == cell16(r, a, b));
            assert(Block(v).cells().contains(e) == Block(v).at(e.0, e.1));
        }
    }
    assert(Block(r).cells() =~= rotated(Block(v).cells(), 4, 4, rot));
}

/// What holds the rotated set of cells has its cells from the rotation.
pub proof fn lemma_cells_turn(v: u16, r: u16, rot: Rotation)
    requires
        Block(r).cells() == rotated(Block(v).cells(), 4, 4, rot),
    ensures
        turns_into(v, r, rot),
{
    assert forall|a: u16, b: u16| a < 4 && b < 4 implies #[trigger] cell16(r, a, b) == (match rot {
        Rotation::R0 => cell16(v, a, b),
        Rotation::R90 => cell16(v, b, (3 - a) as u16),
        Rotation::R180 => cell16(v, (3 - a) as u16, (3 - b) as u16),
        Rotation::R270 => cell16(v, (3 - b) as u16, a),
    }) by {
        let c = (a as int, b as int);
        let e = source_cell(c, 4, 4, rot);
        assert(Block(r).cells().contains(c) == Block(r).at(c.0, c.1));
        assert(rotated(Block(v).cells(), 4, 4, rot).contains(c) == Block(v).cells().contains(e));
        assert(Block(v).cells().contains(e) == Block(v).at(e.0, e.1));
    }
}

/// A word with its bits in reverse order holds the block turned by 180
/// degrees.
pub proof fn lemma_reversed_turns(v: u16, r: u16)
    requires
        forall|k: u16| k < 16 ==> #[trigger] bit16(r, k) == bit16(v, (15 - k) as u16),
    ensures
        turns_into(v, r, Rotation::R180),
{
    assert forall|a: u16, b: u16| a < 4 && b < 4 implies #[trigger] cell16(r, a, b) == cell16(
        v,
        (3 - a) as u16,
        (3 - b) as u16,
    ) by {
        let k = (4 * a + b) as u16;
        assert(bit16(r, k) == bit16(v, (15 - k) as u16));
        assert((4 * ((3 - a) as u16) + ((3 - b) as u16)) as u16 == (15 - k) as u16);
    }
}

/// The word in which the lowest `n` rows of a block are set, for `n` from 1
/// to 3.
pub open spec fn spec_low_rows(n: u16) -> u16 {
    ((0x1111u16 << n) - 0x1111) as u16
}

/// The block mask of the lowest `n` rows.
fn low_rows(n: u16) -> (r: u16)
    requires
        1 <= n <= 3,
    ensures
        r == spec_low_rows(n),
{
    let top: u16 = 0x1111 << n;
    assert(top >= 0x1111) by (bit_vector)
        requires
            1 <= n <= 3,
            top == 0x1111u16 << n,
    ;
    top - 0x1111
}

/// No cell of the zero block is set.
pub proof fn lemma_cell16_zero()
    by (bit_vector)
    ensures
        forall|a: u16, b: u16| a < 4 && b < 4 ==> !#[trigger] cell16(0, a, b),
{
}

/// The sign of `d`: 1, 0 or -1.
pub open spec fn signum(d: int) -> int {
    if d > 0 {
        1
    } else if d < 0 {
        -1
    } else {
        0
    }
}

/// The set cells of the block held in `v` among the first `n` in the order
/// of the bits.
pub open spec fn cells_below(v: u16, n: int) -> Set<(int, int)> {
    Set::new(|c: (int, int)| Block(v).at(c.0, c.1) && 4 * c.0 + c.1 < n)
}

/// The ones among the lowest `n` bits of a block are its set cells among the
/// first `n`.
pub proof fn lemma_block_count(v: u16, n: nat)
    requires
        n <= 16,
    ensures
        cells_below(v, n as int).finite(),
        cells_below(v, n as int).len() == ones16(v, n),
        ones16(v, n) <= n,
    decreases n,
{
    if n == 0 {
        assert(cells_below(v, 0) =~= Set::<(int, int)>::empty());
    } else {
        lemma_block_count(v, (n - 1) as nat);
        let k = (n - 1) as int;
        let c = (k / 4, k % 4);
        assert(Block(v).at(c.0, c.1) == bit16(v, k as u16)) by {
            assert((4 * (c.0 as u16) + (c.1 as u16)) as u16 == k as u16);
        }
        if bit16(v, k as u16) {
            assert(cells_below(v, n as int) =~= cells_below(v, k).insert(c));
        } else {
            assert(cells_below(v, n as int) =~= cells_below(v, k));
        }
    }
}

/// Two blocks that agree on every cell are the same block.
pub proof fn lemma_block_equal(p: Block, q: Block)
    requires
        forall|a: int, b: int| 0 <= a < 4 && 0 <= b < 4 ==> p.at(a, b) == q.at(a, b),
    ensures
        p == q,
{
    assert forall|k: u16| k < 16 implies #[trigger] bit16(p.0, k) == bit16(q.0, k) by {
        let a = (k / 4) as int;
        let b = (k % 4) as int;
        assert(p.at(a, b) == q.at(a, b));
        assert((4 * (a as u16) + (b as u16)) as u16 == k);
    }
    lemma_bits_equal16(p.0, q.0);
}

} // verus!
