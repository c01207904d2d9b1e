//! The dense grid: one boolean per cell. It is the plainest of the
//! representations and the one the others are held against.

use vstd::prelude::*;
use crate::cells::{
    agree_before, in_box, lemma_less_first_difference, lemma_read_before_box,
    lemma_read_before_step, lemma_within_finite, precedes, read_before, rotated,
    rotated_dim, shifted, source_cell, within,
};
use crate::grid::Grid;
use crate::rotation::Rotation;

verus! {

/// Width and height of the dense grid.
pub const SIZE: usize = 32;

/// A fixed matrix of booleans, stored column by column: the cell `(x, y)` is
/// `rows[x][y]`.
#[derive(Debug)]
pub struct Naive {
    rows: [[bool; 32]; 32],
}

impl Clone for Naive {
    fn clone(&self) -> (g: Self)
        ensures
            g == *self,
    {
        Naive { rows: self.rows }
    }
}

impl Naive {
    /// The value stored for the cell `(x, y)`.
    pub closed spec fn at(&self, x: int, y: int) -> bool {
        self.rows[x][y]
    }

    /// The true cells of the matrix.
    pub closed spec fn model(&self) -> Set<(int, int)> {
        Set::new(|c: (int, int)| in_box(c, 32, 32) && self.at(c.0, c.1))
    }

    /// Store `v` for the cell `(x, y)`.
    fn put(&mut self, x: usize, y: usize, v: bool)
        requires
            x < 32,
            y < 32,
        ensures
            forall|a: int, b: int|
                0 <= a < 32 && 0 <= b < 32 ==> #[trigger] final(self).at(a, b) == (if a == x && b
                    == y {
                    v
                } else {
                    old(self).at(a, b)
                }),
    {
        self.rows[x][y] = v;
        assert(self.rows@ == old(self).rows@.update(x as int, self.rows@[x as int]));
        assert(self.rows@[x as int]@ == old(self).rows@[x as int]@.update(y as int, v));
    }

    proof fn lemma_model(&self)
        ensures
            within(self.model(), 32, 32),
            self.model().finite(),
            self.model().len() <= 1024,
            forall|x: int, y: int|
                0 <= x < 32 && 0 <= y < 32 ==> (self.model().contains((x, y)) <==> #[trigger] self.at(
                    x,
                    y,
                )),
    {
        lemma_within_finite(self.model(), 32, 32);
    }

    /// The grid moved by `(dx, dy)`.
    fn translate(&self, dx: isize, dy: isize) -> (g: Self)
        requires
            -32 <= dx <= 32,
            -32 <= dy <= 32,
        ensures
            g.model() == shifted(self.model(), dx as int, dy as int, 32, 32),
    {
        let mut g = Naive { rows: [[false; 32]; 32] };
        let mut x: usize = 0;
        while x < SIZE
            invariant
                x <= 32,
                -32 <= dx <= 32,
                -32 <= dy <= 32,
                forall|a: int, b: int|
                    0 <= a < 32 && 0 <= b < 32 ==> #[trigger] g.at(a, b) == (a < x && in_box(
                        (a - dx, b - dy),
                        32,
                        32,
                    ) && self.at(a - dx, b - dy)),
            decreases 32 - x,
        {
            let mut y: usize = 0;
            while y < SIZE
                invariant
                    x < 32,
                    y <= 32,
                    -32 <= dx <= 32,
                    -32 <= dy <= 32,
                    forall|a: int, b: int|
                        0 <= a < 32 && 0 <= b < 32 ==> #[trigger] g.at(a, b) == (precedes(
                            (a, b),
                            (x as int, y as int),
                        ) && in_box((a - dx, b - dy), 32, 32) && self.at(a - dx, b - dy)),
                decreases 32 - y,
            {
                let sx: isize = x as isize - dx;
                let sy: isize = y as isize - dy;
                if 0 <= sx && sx < 32 && 0 <= sy && sy < 32 {
                    let v = self.rows[sx as usize][sy as usize];
                    g.put(x, y, v);
                }
                y += 1;
            }
            x += 1;
        }
        proof {
            self.lemma_model();
            g.lemma_model();
            assert(g.model() =~= shifted(self.model(), dx as int, dy as int, 32, 32));
        }
        g
    }
}

impl Grid for Naive {
    open spec fn cells(&self) -> Set<(int, int)> {
        self.model()
    }

    open spec fn extent(&self) -> (int, int) {
        (32, 32)
    }

    open spec fn wf(&self) -> bool {
        true
    }

    open spec fn limit() -> int {
        32
    }

    open spec fn slack() -> int {
        32
    }

    open spec fn shift_limit() -> int {
        32
    }

    proof fn lemma_wf(&self) {
        self.lemma_model();
    }

    proof fn lemma_limits() {
    }

    fn capacity() -> (n: usize) {
        SIZE
    }

    fn reach() -> (n: isize) {
        32
    }

    fn new() -> (g: Self) {
        let g = Naive { rows: [[false; 32]; 32] };
        assert(g.model() =~= Set::<(int, int)>::empty());
        g
    }

    fn reserve_space(&mut self, x: usize, y: usize) {
    }

    fn get_bounding_box(&self) -> (bb: (usize, usize)) {
        let mut dim_x: usize = 0;
        let mut dim_y: usize = 0;
        let ghost mut top_x: (int, int) = (0, 0);
        let ghost mut top_y: (int, int) = (0, 0);
        let ghost s = self.model();
        proof {
            self.lemma_model();
            lemma_read_before_box(s, 32, 32);
        }
        let mut x: usize = 0;
        while x < SIZE
            invariant
                x <= 32,
                s == self.model(),
                within(s, 32, 32),
                dim_x <= 32,
                dim_y <= 32,
                forall|c: (int, int)| #[trigger]
                    read_before(s, (x as int, 0)).contains(c) ==> c.0 < dim_x && c.1 < dim_y,
                dim_x > 0 ==> s.contains(top_x) && top_x.0 == dim_x - 1,
                dim_y > 0 ==> s.contains(top_y) && top_y.1 == dim_y - 1,
            decreases 32 - x,
        {
            let mut y: usize = 0;
            while y < SIZE
                invariant
                    x < 32,
                    y <= 32,
                    s == self.model(),
                    within(s, 32, 32),
                    dim_x <= 32,
                    dim_y <= 32,
                    forall|c: (int, int)| #[trigger]
                        read_before(s, (x as int, y as int)).contains(c) ==> c.0 < dim_x && c.1
                            < dim_y,
                    dim_x > 0 ==> s.contains(top_x) && top_x.0 == dim_x - 1,
                    dim_y > 0 ==> s.contains(top_y) && top_y.1 == dim_y - 1,
                decreases 32 - y,
            {
                proof {
                    self.lemma_model();
                    lemma_read_before_step(s, x as int, y as int);
                }
                if self.rows[x][y] {
                    dim_x = x + 1;
                    proof {
                        top_x = (x as int, y as int);
                    }
                    if y + 1 > dim_y {
                        dim_y = y + 1;
                        proof {
                            top_y = (x as int, y as int);
                        }
                    }
                }
                y += 1;
            }
            proof {
                lemma_read_before_box(s, 32, 32);
                assert(read_before(s, (x as int, 32)) == read_before(s, (x + 1, 0)));
            }
            x += 1;
        }
        proof {
            lemma_read_before_box(s, 32, 32);
        }
        (dim_x, dim_y)
    }

    fn set(&mut self, x: usize, y: usize) {
        self.put(x, y, true);
        proof {
            old(self).lemma_model();
            self.lemma_model();
            assert(self.model() =~= old(self).model().insert((x as int, y as int)));
        }
    }

    fn unset(&mut self, x: usize, y: usize) {
        self.put(x, y, false);
        proof {
            old(self).lemma_model();
            self.lemma_model();
            assert(self.model() =~= old(self).model().remove((x as int, y as int)));
        }
    }

    fn get(&self, x: usize, y: usize) -> (b: bool) {
        proof {
            self.lemma_model();
        }
        self.rows[x][y]
    }

    fn count(&self) -> (n: u32) {
        let mut n: u32 = 0;
        let ghost s = self.model();
        proof {
            self.lemma_model();
            lemma_read_before_box(s, 32, 32);
        }
        let mut x: usize = 0;
        while x < SIZE
            invariant
                x <= 32,
                s == self.model(),
                within(s, 32, 32),
                read_before(s, (x as int, 0)).finite(),
                n == read_before(s, (x as int, 0)).len(),
                n <= 32 * x,
            decreases 32 - x,
        {
            let mut y: usize = 0;
            while y < SIZE
                invariant
                    x < 32,
                    y <= 32,
                    s == self.model(),
                    within(s, 32, 32),
                    read_before(s, (x as int, y as int)).finite(),
                    n == read_before(s, (x as int, y as int)).len(),
                    n <= 32 * x + y,
                decreases 32 - y,
            {
                proof {
                    self.lemma_model();
                    lemma_read_before_step(s, x as int, y as int);
                }
                if self.rows[x][y] {
                    n += 1;
                }
                y += 1;
            }
            proof {
                lemma_read_before_box(s, 32, 32);
                assert(read_before(s, (x as int, 32)) == read_before(s, (x + 1, 0)));
            }
            x += 1;
        }
        proof {
            lemma_read_before_box(s, 32, 32);
        }
        n
    }

    fn shift_x(&mut self, n: isize) {
        let g = self.translate(n, 0);
        *self = g;
    }

    fn shift_y(&mut self, n: isize) {
        let g = self.translate(0, n);
        *self = g;
    }

    fn rotate(&self, dim: (u8, u8), r: Rotation) -> (g: Self) {
        let mut g = Naive { rows: [[false; 32]; 32] };
        let w: usize = dim.0 as usize;
        let h: usize = dim.1 as usize;
        let (rw, rh) = match r {
            Rotation::R0 | Rotation::R180 => (w, h),
            Rotation::R90 | Rotation::R270 => (h, w),
        };
        let mut x: usize = 0;
        while x < rw
            invariant
                x <= rw <= 32,
                rh <= 32,
                w <= 32,
                h <= 32,
                (rw as int, rh as int) == rotated_dim(w as int, h as int, r),
                forall|a: int, b: int|
                    0 <= a < 32 && 0 <= b < 32 ==> #[trigger] g.at(a, b) == (a < x && b < rh && {
                        let c = source_cell((a, b), w as int, h as int, r);
                        self.at(c.0, c.1)
                    }),
            decreases rw - x,
        {
            let mut y: usize = 0;
            while y < rh
                invariant
                    x < rw <= 32,
                    y <= rh <= 32,
                    w <= 32,
                    h <= 32,
                    (rw as int, rh as int) == rotated_dim(w as int, h as int, r),
                    forall|a: int, b: int|
                        0 <= a < 32 && 0 <= b < 32 ==> #[trigger] g.at(a, b) == (precedes(
                            (a, b),
                            (x as int, y as int),
                        ) && b < rh && {
                            let c = source_cell((a, b), w as int, h as int, r);
                            self.at(c.0, c.1)
                        }),
                decreases rh - y,
            {
                let v = match r {
                    Rotation::R0 => self.rows[x][y],
                    // x and y are in the frame of reference of the new
                    // grid, whose dimension is (h, w)
                    Rotation::R90 => self.rows[y][h - 1 - x],
                    Rotation::R180 => self.rows[w - 1 - x][h - 1 - y],
                    Rotation::R270 => self.rows[w - 1 - y][x],
                };
                g.put(x, y, v);
                y += 1;
            }
            x += 1;
        }
        proof {
            self.lemma_model();
            g.lemma_model();
            assert(g.model() =~= rotated(self.model(), w as int, h as int, r));
        }
        g
    }

    fn duplicate(&self) -> (g: Self) {
        let g = Naive { rows: self.rows };
        assert(g.model() =~= self.model());
        g
    }

    fn same_cells(&self, other: &Self) -> (b: bool) {
        proof {
            self.lemma_model();
            other.lemma_model();
        }
        let mut x: usize = 0;
        while x < SIZE
            invariant
                x <= 32,
                forall|a: int, b: int|
                    0 <= a < x && 0 <= b < 32 ==> #[trigger] self.at(a, b) == other.at(a, b),
            decreases 32 - x,
        {
            let mut y: usize = 0;
            while y < SIZE
                invariant
                    x < 32,
                    y <= 32,
                    forall|a: int, b: int|
                        0 <= a < 32 && 0 <= b < 32 && precedes((a, b), (x as int, y as int))
                            ==> #[trigger] self.at(a, b) == other.at(a, b),
                decreases 32 - y,
            {
                if self.rows[x][y] != other.rows[x][y] {
                    proof {
                        self.lemma_model();
                        other.lemma_model();
                        assert(self.model().contains((x as int, y as int))
                            != other.model().contains((x as int, y as int)));
                    }
                    return false;
                }
                y += 1;
            }
            x += 1;
        }
        proof {
            self.lemma_model();
            other.lemma_model();
            assert(self.model() =~= other.model());
        }
        true
    }

    fn less_than(&self, other: &Self) -> (b: bool) {
        proof {
            self.lemma_model();
            other.lemma_model();
        }
        let mut x: usize = 0;
        while x < SIZE
            invariant
                x <= 32,
                forall|a: int, b: int|
                    0 <= a < x && 0 <= b < 32 ==> #[trigger] self.at(a, b) == other.at(a, b),
            decreases 32 - x,
        {
            let mut y: usize = 0;
            while y < SIZE
                invariant
                    x < 32,
                    y <= 32,
                    forall|a: int, b: int|
                        0 <= a < 32 && 0 <= b < 32 && precedes((a, b), (x as int, y as int))
                            ==> #[trigger] self.at(a, b) == other.at(a, b),
                decreases 32 - y,
            {
                if self.rows[x][y] != other.rows[x][y] {
                    proof {
                        self.lemma_model();
                        other.lemma_model();
                        let c = (x as int, y as int);
                        assert forall|p: (int, int)| #[trigger] precedes(p, c) implies (
                        self.model().contains(p) <==> other.model().contains(p)) by {
                            if in_box(p, 32, 32) {
                                assert(self.at(p.0, p.1) == other.at(p.0, p.1));
                            }
                        }
                        assert(agree_before(self.model(), other.model(), c));
                        lemma_less_first_difference(self.model(), other.model(), c);
                    }
                    return other.rows[x][y];
                }
                y += 1;
            }
            x += 1;
        }
        proof {
            self.lemma_model();
            other.lemma_model();
            assert(self.model() =~= other.model());
        }
        false
    }

    fn merge(&mut self, other: &Self) {
        let mut x: usize = 0;
        while x < SIZE
            invariant
                x <= 32,
                forall|a: int, b: int|
                    0 <= a < 32 && 0 <= b < 32 ==> #[trigger] self.at(a, b) == (old(self).at(a, b)
                        || (a < x && other.at(a, b))),
            decreases 32 - x,
        {
            let mut y: usize = 0;
            while y < SIZE
                invariant
                    x < 32,
                    y <= 32,
                    forall|a: int, b: int|
                        0 <= a < 32 && 0 <= b < 32 ==> #[trigger] self.at(a, b) == (old(self).at(
                            a,
                            b,
                        ) || (precedes((a, b), (x as int, y as int)) && other.at(a, b))),
                decreases 32 - y,
            {
                if other.rows[x][y] {
                    self.put(x, y, true);
                }
                y += 1;
            }
            x += 1;
        }
        proof {
            old(self).lemma_model();
            self.lemma_model();
            other.lemma_model();
            assert(self.model() =~= old(self).model().union(other.model()));
        }
    }
}

} // verus!
