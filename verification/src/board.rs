//! The packed grid: one 32-bit word per column, bit `y` of the word for the
//! cell of row `y`.

use vstd::prelude::*;
use crate::bits::{
    bit32, bit64, lemma_and_not32, lemma_bits_equal32, lemma_low32, lemma_or32, lemma_shl32, lemma_shr32,
    lemma_single32, lemma_zero32, ones32,
};
use crate::cells::{
    in_box, lemma_less_first_difference, lemma_read_before_box,
    lemma_within_finite, less, precedes, read_before, rotated, rotated_dim, shifted, source_cell,
    within,
};
use crate::grid::Grid;
use crate::rotation::Rotation;

verus! {

/// Width and height of the packed grid.
pub const SIZE: usize = 32;

/// A grid of 32 x 32 cells, packed into one word per column.
#[derive(Copy, Clone, Debug, PartialEq, Eq, Hash)]
pub struct Board {
    /// Each element represents a column: the square at (x, y) is
    /// `(board[x] >> y) & 1`.
    board: [u32; 32],
}

/// The set bits of `v` below `n`, as cells of the column `x`.
pub open spec fn column_cells(v: u32, x: int, n: int) -> Set<(int, int)> {
    Set::new(|c: (int, int)| c.0 == x && 0 <= c.1 < n && bit32(v, c.1 as u32))
}

/// A column has as many cells as its word has ones.
pub proof fn lemma_column_count(v: u32, x: int, n: nat)
    requires
        n <= 32,
    ensures
        column_cells(v, x, n as int).finite(),
        column_cells(v, x, n as int).len() == ones32(v, n),
        ones32(v, n) <= n,
    decreases n,
{
    if n == 0 {
        assert(column_cells(v, x, 0) =~= Set::<(int, int)>::empty());
    } else {
        lemma_column_count(v, x, (n - 1) as nat);
        if bit32(v, (n - 1) as u32) {
            assert(column_cells(v, x, n as int) =~= column_cells(v, x, n - 1).insert((x, n - 1)));
        } else {
            assert(column_cells(v, x, n as int) =~= column_cells(v, x, n - 1));
        }
    }
}

impl Board {
    /// The value of the cell `(x, y)`; no cell outside the board is set.
    pub closed spec fn at(&self, x: int, y: int) -> bool {
        0 <= x < 32 && 0 <= y < 32 && bit32(self.board[x], y as u32)
    }

    /// The true cells.
    pub closed spec fn model(&self) -> Set<(int, int)> {
        Set::new(|c: (int, int)| self.at(c.0, c.1))
    }

    /// The model lies inside the board, is finite, and holds the cells that
    /// are set.
    pub proof fn lemma_model(&self)
        ensures
            within(self.model(), 32, 32),
            self.model().finite(),
            forall|x: int, y: int| self.model().contains((x, y)) <==> #[trigger] self.at(x, y),
    {
        lemma_within_finite(self.model(), 32, 32);
    }

    /// Replace the column `x` by `v`.
    fn put_column(&mut self, x: usize, v: u32)
        requires
            x < 32,
        ensures
            final(self).board@ == old(self).board@.update(x as int, v),
            final(self).board[x as int] == v,
            forall|a: int| 0 <= a < 32 && a != x ==> final(self).board[a] == old(self).board[a],
            forall|a: int, b: int| #[trigger]
                final(self).at(a, b) == (if a == x {
                    0 <= b < 32 && bit32(v, b as u32)
                } else {
                    old(self).at(a, b)
                }),
            forall|b: int|
                #![trigger final(self).at(x as int, b)]
                old(self).at(x as int, b) == (0 <= b < 32 && bit32(
                    old(self).board[x as int],
                    b as u32,
                )),
    {
        self.board[x] = v;
    }

    /// The empty board.
    pub fn new() -> (g: Self)
        ensures
            g.model() == Set::<(int, int)>::empty(),
    {
        let g = Board { board: [0;32] };
        proof {
            lemma_zero32();
            assert(g.model() =~= Set::<(int, int)>::empty());
        }
        g
    }

    /// Set the cell at (x, y) to true.
    pub fn set(&mut self, x: usize, y: usize)
        requires
            x < 32,
            y < 32,
        ensures
            final(self).model() == old(self).model().insert((x as int, y as int)),
    {
        let k = y as u32;
        let bit: u32 = 1 << k;
        let column = self.board[x] | bit;
        proof {
            lemma_single32(y as u32, bit, (0xFFFF_FFFFu32 - (1u32 << (y as u32))) as u32);
            lemma_or32(self.board[x as int], bit, column);
        }
        self.put_column(x, column);
        proof {
            assert forall|c: (int, int)| self.model().contains(c) == old(self).model().insert(
                (x as int, y as int),
            ).contains(c) by {
                if in_box(c, 32, 32) && c.0 == x {
                    assert(bit32(column, c.1 as u32) == (bit32(old(self).board[x as int], c.1 as u32)
                        || bit32(bit, c.1 as u32)));
                }
            }
            assert(self.model() =~= old(self).model().insert((x as int, y as int)));
        }
    }

    /// Set the cell at (x, y) to false.
    pub fn unset(&mut self, x: usize, y: usize)
        requires
            x < 32,
            y < 32,
        ensures
            final(self).model() == old(self).model().remove((x as int, y as int)),
    {
        let k = y as u32;
        let bit: u32 = 1 << k;
        let keep: u32 = u32::MAX - bit;
        let column = self.board[x] & keep;
        proof {
            lemma_single32(y as u32, bit, keep);
            lemma_and_not32(self.board[x as int], bit, column);
        }
        self.put_column(x, column);
        proof {
            assert forall|c: (int, int)| self.model().contains(c) == old(self).model().remove(
                (x as int, y as int),
            ).contains(c) by {
                if in_box(c, 32, 32) && c.0 == x {
                    assert(bit32(column, c.1 as u32) == (bit32(old(self).board[x as int], c.1 as u32)
                        && !bit32(bit, c.1 as u32)));
                }
            }
            assert(self.model() =~= old(self).model().remove((x as int, y as int)));
        }
    }

    /// The value of the cell at (x, y).
    pub fn get(&self, x: usize, y: usize) -> (b: bool)
        requires
            x < 32,
            y < 32,
        ensures
            b == self.model().contains((x as int, y as int)),
    {
        let k = y as u32;
        ((self.board[x] >> k) & 1) == 1
    }

    /// Take the cells of `other` out of the board.
    pub fn sub(&mut self, other: &Self)
        ensures
            final(self).model() == old(self).model().difference(other.model()),
    {
        let mut x: usize = 0;
        while x < SIZE
            invariant
                x <= 32,
                forall|a: int, b: int|
                    0 <= a < 32 && 0 <= b < 32 ==> #[trigger] self.at(a, b) == (old(self).at(a, b)
                        && !(a < x && other.at(a, b))),
            decreases 32 - x,
        {
            let column = self.board[x] & !other.board[x];
            proof {
                lemma_and_not32(self.board[x as int], other.board[x as int], column);
            }
            self.put_column(x, column);
            x += 1;
        }
        proof {
            assert(self.model() =~= old(self).model().difference(other.model()));
        }
    }

    /// The number of true cells.
    pub fn count(&self) -> (n: u32)
        ensures
            n == self.model().len(),
    {
        let mut n: u32 = 0;
        let ghost s = self.model();
        proof {
            self.lemma_model();
            lemma_read_before_box(s, 32, 32);
        }
        let mut x: usize = 0;
        while x < SIZE
            invariant
                x <= 32,
                s == self.model(),
                within(s, 32, 32),
                read_before(s, (x as int, 0)).finite(),
                n == read_before(s, (x as int, 0)).len(),
                n <= 32 * x,
            decreases 32 - x,
        {
            let ones = self.board[x].count_ones();
            proof {
                let column = column_cells(self.board[x as int], x as int, 32);
                let done = read_before(s, (x as int, 0));
                lemma_column_count(self.board[x as int], x as int, 32);
                assert(read_before(s, (x + 1, 0)) =~= done + column);
                assert(done.disjoint(column));
                vstd::set_lib::lemma_set_disjoint_lens(done, column);
            }
            n += ones;
            x += 1;
        }
        proof {
            lemma_read_before_box(s, 32, 32);
        }
        n
    }

    /// The board without its cells outside the first `w` columns and the
    /// first `h` rows.
    fn crop(&self, w: usize, h: usize) -> (g: Self)
        requires
            w <= 32,
            h <= 32,
        ensures
            forall|a: int, b: int| #[trigger] g.at(a, b) == (self.at(a, b) && a < w && b < h),
    {
        let mut g = Board { board: [0;32] };
        proof {
            lemma_zero32();
        }
        let mut x: usize = 0;
        while x < w
            invariant
                x <= w <= 32,
                h <= 32,
                forall|a: int, b: int| #[trigger]
                    g.at(a, b) == (self.at(a, b) && a < x && b < h),
            decreases w - x,
        {
            let column = if h >= 32 {
                self.board[x]
            } else {
                proof {
                    lemma_low32(
                        self.board[x as int],
                        h as u32,
                        self.board[x as int] & ((1u32 << (h as u32)) - 1) as u32,
                    );
                }
                self.board[x] & ((1u32 << (h as u32)) - 1)
            };
            g.put_column(x, column);
            x += 1;
        }
        g
    }

    /// The rotation of the portion of the board of dimension `dim`.
    pub fn rotate(&self, dim: (u8, u8), r: &Rotation) -> (g: Board)
        requires
            dim.0 <= 32,
            dim.1 <= 32,
        ensures
            g.model() == rotated(self.model(), dim.0 as int, dim.1 as int, *r),
    {
        let w = dim.0 as usize;
        let h = dim.1 as usize;
        let new = match r {
            Rotation::R0 => self.crop(w, h),
            Rotation::R90 => {
                let mut new = Self::new();
                rotate_90_lanes(&self.board, &mut new.board);
                let ghost full = new;
                new.shift_x((dim.1 as i8) - 32);
                let ghost moved = new;
                let cut = new.crop(h, w);
                proof {
                    full.lemma_model();
                    moved.lemma_model();
                    assert forall|a: int, b: int| #[trigger]
                        cut.at(a, b) == (in_box((a, b), h as int, w as int) && self.at(
                            b,
                            h - 1 - a,
                        )) by {
                        assert(moved.at(a, b) == moved.model().contains((a, b)));
                        assert(full.at(a + 32 - h, b) == full.model().contains((a + 32 - h, b)));
                        if in_box((a, b), h as int, w as int) {
                            assert(column_bit(full.board, a + 32 - h, b) == column_bit(
                                self.board,
                                b,
                                31 - (a + 32 - h),
                            ));
                        }
                    }
                }
                cut
            },
            Rotation::R180 => {
                // Simply reverse the array and reverse the bit order of each
                // column
                let mut new = Self::new();
                let mut x: usize = 0;
                while x < SIZE
                    invariant
                        x <= 32,
                        forall|a: int, b: int|
                            0 <= a < x && 0 <= b < 32 ==> #[trigger] new.at(a, b) == self.at(
                                31 - a,
                                31 - b,
                            ),
                    decreases 32 - x,
                {
                    let column = self.board[SIZE - 1 - x].reverse_bits();
                    new.put_column(x, column);
                    x += 1;
                }
                let ghost full = new;
                new.shift_x((dim.0 as i8) - 32);
                let ghost half = new;
                new.shift_y((dim.1 as i8) - 32);
                proof {
                    full.lemma_model();
                    half.lemma_model();
                    new.lemma_model();
                    assert forall|a: int, b: int| #[trigger]
                        new.at(a, b) == (in_box((a, b), w as int, h as int) && self.at(
                            w - 1 - a,
                            h - 1 - b,
                        )) by {
                        assert(new.at(a, b) == new.model().contains((a, b)));
                        assert(half.at(a, b + 32 - h) == half.model().contains((a, b + 32 - h)));
                        assert(full.at(a + 32 - w, b + 32 - h) == full.model().contains(
                            (a + 32 - w, b + 32 - h),
                        ));
                    }
                }
                new
            },
            Rotation::R270 => {
                let mut new = Self::new();
                rotate_270_lanes(&self.board, &mut new.board);
                let ghost full = new;
                new.shift_y((dim.0 as i8) - 32);
                let ghost moved = new;
                let cut = new.crop(h, w);
                proof {
                    full.lemma_model();
                    moved.lemma_model();
                    assert forall|a: int, b: int| #[trigger]
                        cut.at(a, b) == (in_box((a, b), h as int, w as int) && self.at(
                            w - 1 - b,
                            a,
                        )) by {
                        assert(moved.at(a, b) == moved.model().contains((a, b)));
                        assert(full.at(a, b + 32 - w) == full.model().contains((a, b + 32 - w)));
                        if in_box((a, b), h as int, w as int) {
                            assert(column_bit(full.board, a, b + 32 - w) == column_bit(
                                self.board,
                                31 - (b + 32 - w),
                                a,
                            ));
                        }
                    }
                }
                cut
            },
        };
        proof {
            self.lemma_model();
            new.lemma_model();
            assert forall|c: (int, int)| new.model().contains(c) == rotated(
                self.model(),
                w as int,
                h as int,
                *r,
            ).contains(c) by {
                let e = source_cell(c, w as int, h as int, *r);
                assert(new.at(c.0, c.1) == (in_box(
                    c,
                    rotated_dim(w as int, h as int, *r).0,
                    rotated_dim(w as int, h as int, *r).1,
                ) && self.at(e.0, e.1)));
            }
            assert(new.model() =~= rotated(self.model(), w as int, h as int, *r));
        }
        new
    }

    /// Shift the board in the X direction; the columns that come in are
    /// empty.
    pub fn shift_x(&mut self, amount: i8)
        requires
            -32 <= amount <= 32,
        ensures
            final(self).model() == shifted(old(self).model(), amount as int, 0, 32, 32),
    {
        let ghost n = amount as int;
        if amount < 0 {
            let amount: usize = (-amount) as usize;
            // Move the columns down, lowest first
            let mut x: usize = 0;
            while x < SIZE - amount
                invariant
                    n == -amount,
                    0 < amount <= 32,
                    x <= 32 - amount,
                    forall|a: int| 0 <= a < x ==> #[trigger] self.board[a] == old(self).board[a + amount],
                    forall|a: int| x <= a < 32 ==> #[trigger] self.board[a] == old(self).board[a],
                decreases 32 - amount - x,
            {
                let column = self.board[x + amount];
                self.put_column(x, column);
                x += 1;
            }
            while x < SIZE
                invariant
                    n == -amount,
                    0 < amount <= 32,
                    32 - amount <= x <= 32,
                    forall|a: int|
                        0 <= a < 32 - amount ==> #[trigger] self.board[a] == old(self).board[a
                            + amount],
                    forall|a: int| 32 - amount <= a < x ==> #[trigger] self.board[a] == 0,
                decreases 32 - x,
            {
                self.put_column(x, 0);
                x += 1;
            }
        } else if amount > 0 {
            let amount: usize = amount as usize;
            // Move the columns up, highest first
            let mut x: usize = SIZE;
            while x > amount
                invariant
                    n == amount,
                    0 < amount <= 32,
                    amount <= x <= 32,
                    forall|a: int| x <= a < 32 ==> #[trigger] self.board[a] == old(self).board[a - amount],
                    forall|a: int| 0 <= a < x ==> #[trigger] self.board[a] == old(self).board[a],
                decreases x,
            {
                x -= 1;
                let column = self.board[x - amount];
                self.put_column(x, column);
            }
            while x > 0
                invariant
                    n == amount,
                    0 < amount <= 32,
                    x <= amount,
                    forall|a: int|
                        amount <= a < 32 ==> #[trigger] self.board[a] == old(self).board[a - amount],
                    forall|a: int| x <= a < amount ==> #[trigger] self.board[a] == 0,
                decreases x,
            {
                x -= 1;
                self.put_column(x, 0);
            }
        }
        proof {
            lemma_zero32();
            assert forall|c: (int, int)| self.model().contains(c) == shifted(
                old(self).model(),
                n,
                0,
                32,
                32,
            ).contains(c) by {
                if in_box(c, 32, 32) {
                    if 0 <= c.0 - n < 32 {
                        assert(self.board[c.0] == old(self).board[c.0 - n]);
                    } else {
                        assert(self.board[c.0] == 0);
                    }
                }
            }
            assert(self.model() =~= shifted(old(self).model(), n, 0, 32, 32));
        }
    }

    /// Shift the board in the Y direction; the rows that come in are empty.
    pub fn shift_y(&mut self, amount: i8)
        requires
            -32 <= amount <= 32,
        ensures
            final(self).model() == shifted(old(self).model(), 0, amount as int, 32, 32),
    {
        let ghost n = amount as int;
        let mut x: usize = 0;
        while x < SIZE
            invariant
                x <= 32,
                n == amount,
                -32 <= amount <= 32,
                forall|a: int| x <= a < 32 ==> #[trigger] self.board[a] == old(self).board[a],
                forall|a: int, b: int|
                    0 <= a < x && 0 <= b < 32 ==> #[trigger] self.at(a, b) == old(self).at(a, b - n),
            decreases 32 - x,
        {
            let v = self.board[x];
            let column: u32 = if amount == 32 || amount == -32 {
                proof {
                    lemma_zero32();
                }
                0
            } else if amount >= 0 {
                proof {
                    lemma_shl32(v, amount as u32, v << (amount as u32));
                }
                v << (amount as u32)
            } else {
                proof {
                    lemma_shr32(v, (-amount) as u32, v >> ((-amount) as u32));
                }
                v >> ((-amount) as u32)
            };
            self.put_column(x, column);
            proof {
                assert forall|b: int| 0 <= b < 32 implies #[trigger] self.at(x as int, b) == old(
                    self,
                ).at(x as int, b - n) by {
                    let k = b as u32;
                    if -32 < n < 32 {
                        if n >= 0 {
                            let m = n as u32;
                            assert(bit32(column, k) == (k >= m && bit32(v, (k - m) as u32)));
                        } else {
                            let m = (-n) as u32;
                            assert(bit32(column, k) == (k + m < 32 && bit32(v, (k + m) as u32)));
                        }
                    } else {
                        assert(!bit32(column, k));
                    }
                }
            }
            x += 1;
        }
        proof {
            assert(self.model() =~= shifted(old(self).model(), 0, n, 32, 32));
        }
    }

    /// Whether `self` comes before `other` in the order of the grids. The
    /// columns are compared one after the other; in the first that differs,
    /// the lowest row that differs decides.
    pub fn before(&self, other: &Self) -> (b: bool)
        ensures
            b == less(self.model(), other.model()),
    {
        let mut x: usize = 0;
        while x < SIZE
            invariant
                x <= 32,
                forall|a: int| 0 <= a < x ==> #[trigger] self.board[a] == other.board[a],
            decreases 32 - x,
        {
            let mine = self.board[x];
            let theirs = other.board[x];
            if mine != theirs {
                let differ = mine ^ theirs;
                let y = differ.trailing_zeros();
                proof {
                    vstd::std_specs::bits::axiom_u32_trailing_zeros(differ);
                    assert(differ != 0 && (forall|k: u32|
                        k < 32 ==> (#[trigger] ((differ >> k) & 1u32) == 1u32) == (bit32(mine, k)
                            != bit32(theirs, k)))) by (bit_vector)
                        requires
                            differ == mine ^ theirs,
                            mine != theirs,
                    ;
                    let c = (x as int, y as int);
                    assert(((differ >> y) & 1u32) == 1u32);
                    assert(bit32(mine, y) != bit32(theirs, y));
                    assert forall|p: (int, int)| #[trigger] precedes(p, c) implies (
                    self.model().contains(p) <==> other.model().contains(p)) by {
                        if in_box(p, 32, 32) {
                            if p.0 == x {
                                let k = p.1 as u32;
                                assert(((differ >> k) & 1u32) == 0u32);
                                assert(bit32(mine, k) == bit32(theirs, k));
                            } else {
                                assert(self.board[p.0] == other.board[p.0]);
                            }
                        }
                    }
                    lemma_less_first_difference(self.model(), other.model(), c);
                }
                return ((theirs >> y) & 1) == 1;
            }
            x += 1;
        }
        proof {
            assert(self.model() =~= other.model());
        }
        false
    }
}

/// Whether bit `y` of column `c` is set.
pub open spec fn column_bit(columns: [u32; 32], c: int, y: int) -> bool {
    bit32(columns[c], y as u32)
}

/// Rotate the whole board by 90 degrees: column `c` of the result gathers
/// bit `31 - c` of every column, the bit of column `x` in row `x`.
pub fn rotate_90(from: &[u32; 32], to: &mut [u32; 32])
    ensures
        forall|c: int, x: int|
            0 <= c < 32 && 0 <= x < 32 ==> #[trigger] column_bit(*final(to), c, x) == column_bit(
                *from,
                x,
                31 - c,
            ),
{
    let mut c: usize = 0;
    while c < SIZE
        invariant
            c <= 32,
            forall|a: int, x: int|
                0 <= a < c && 0 <= x < 32 ==> #[trigger] column_bit(*to, a, x) == column_bit(
                    *from,
                    x,
                    31 - a,
                ),
        decreases 32 - c,
    {
        let column = gather(from, (SIZE - 1 - c) as u32);
        let ghost before = *to;
        to[c] = column;
        proof {
            assert forall|a: int, x: int| 0 <= a < c + 1 && 0 <= x < 32 implies #[trigger] column_bit(
                *to,
                a,
                x,
            ) == column_bit(*from, x, 31 - a) by {
                if a == c {
                    assert(gathered(*from, (31 - c) as u32, column, x));
                } else {
                    assert(to[a] == before[a]);
                    assert(column_bit(before, a, x) == column_bit(*from, x, 31 - a));
                }
            }
        }
        c += 1;
    }
}

/// Rotate the whole board by 270 degrees: the same as a rotation by 90
/// degrees followed by one by 180 degrees, which comes to gathering the
/// columns in reverse order with their bits in reverse order.
pub fn rotate_270(from: &[u32; 32], to: &mut [u32; 32])
    ensures
        forall|c: int, x: int|
            0 <= c < 32 && 0 <= x < 32 ==> #[trigger] column_bit(*final(to), c, x) == column_bit(
                *from,
                31 - x,
                c,
            ),
{
    let mut c: usize = 0;
    while c < SIZE
        invariant
            c <= 32,
            forall|a: int, x: int|
                0 <= a < c && 0 <= x < 32 ==> #[trigger] column_bit(*to, a, x) == column_bit(
                    *from,
                    31 - x,
                    a,
                ),
        decreases 32 - c,
    {
        let straight = gather(from, c as u32);
        let column = straight.reverse_bits();
        let ghost before = *to;
        to[c] = column;
        proof {
            assert forall|a: int, x: int| 0 <= a < c + 1 && 0 <= x < 32 implies #[trigger] column_bit(
                *to,
                a,
                x,
            ) == column_bit(*from, 31 - x, a) by {
                if a == c {
                    assert(bit32(column, x as u32) == bit32(straight, (31 - x as u32) as u32));
                    assert(gathered(*from, c as u32, straight, 31 - x));
                } else {
                    assert(to[a] == before[a]);
                    assert(column_bit(before, a, x) == column_bit(*from, 31 - x, a));
                }
            }
        }
        c += 1;
    }
}

/// Whether bit `x` of `r` is bit `s` of column `x`.
pub open spec fn gathered(from: [u32; 32], s: u32, r: u32, x: int) -> bool {
    bit32(r, x as u32) == bit32(from[x], s)
}

/// The word whose bit `x` is bit `s` of column `x`.
fn gather(from: &[u32; 32], s: u32) -> (r: u32)
    requires
        s < 32,
    ensures
        forall|x: int| 0 <= x < 32 ==> #[trigger] gathered(*from, s, r, x),
{
    let mut r: u32 = 0;
    let mut x: usize = 0;
    proof {
        lemma_zero32();
    }
    while x < SIZE
        invariant
            x <= 32,
            s < 32,
            forall|a: int| 0 <= a < x ==> #[trigger] gathered(*from, s, r, a),
            forall|k: u32| x <= k < 32 ==> !#[trigger] bit32(r, k),
        decreases 32 - x,
    {
        let v = from[x];
        let bit: u32 = ((v >> s) & 1) << (x as u32);
        let next = r | bit;
        proof {
            let p = x as u32;
            assert(forall|k: u32| k < 32 ==> #[trigger] bit32(bit, k) == (k == p && bit32(v, s)))
                by (bit_vector)
                requires
                    p < 32,
                    s < 32,
                    bit == ((v >> s) & 1) << p,
            ;
            lemma_or32(r, bit, next);
            assert forall|a: int| 0 <= a < x + 1 implies #[trigger] gathered(*from, s, next, a) by {
                assert(bit32(next, a as u32) == (bit32(r, a as u32) || bit32(bit, a as u32)));
                if a < x {
                    assert(gathered(*from, s, r, a));
                }
            }
            assert forall|k: u32| x + 1 <= k < 32 implies !#[trigger] bit32(next, k) by {
                assert(bit32(next, k) == (bit32(r, k) || bit32(bit, k)));
            }
        }
        r = next;
        x += 1;
    }
    r
}

/// Two boards whose columns have the same bits are the same board.
pub proof fn lemma_columns_equal(a: [u32; 32], b: [u32; 32])
    requires
        forall|c: int, x: int|
            0 <= c < 32 && 0 <= x < 32 ==> #[trigger] column_bit(a, c, x) == column_bit(b, c, x),
    ensures
        a == b,
{
    assert forall|c: int| 0 <= c < 32 implies a[c] == b[c] by {
        assert forall|k: u32| k < 32 implies #[trigger] bit32(a[c], k) == bit32(b[c], k) by {
            assert(column_bit(a, c, k as int) == column_bit(b, c, k as int));
        }
        lemma_bits_equal32(a[c], b[c]);
    }
    assert(a =~= b);
}

/// The rotation by 90 degrees by lanes gives the board that the plain one
/// gives: what both say of their results is said of one board only.
pub proof fn lemma_rotate_90_same(from: [u32; 32], plain: [u32; 32], lanes: [u32; 32])
    requires
        forall|c: int, x: int|
            0 <= c < 32 && 0 <= x < 32 ==> #[trigger] column_bit(plain, c, x) == column_bit(
                from,
                x,
                31 - c,
            ),
        forall|c: int, x: int|
            0 <= c < 32 && 0 <= x < 32 ==> #[trigger] column_bit(lanes, c, x) == column_bit(
                from,
                x,
                31 - c,
            ),
    ensures
        plain == lanes,
{
    lemma_columns_equal(plain, lanes);
}

/// The rotation by 270 degrees by lanes gives the board that the plain one
/// gives.
pub proof fn lemma_rotate_270_same(from: [u32; 32], plain: [u32; 32], lanes: [u32; 32])
    requires
        forall|c: int, x: int|
            0 <= c < 32 && 0 <= x < 32 ==> #[trigger] column_bit(plain, c, x) == column_bit(
                from,
                31 - x,
                c,
            ),
        forall|c: int, x: int|
            0 <= c < 32 && 0 <= x < 32 ==> #[trigger] column_bit(lanes, c, x) == column_bit(
                from,
                31 - x,
                c,
            ),
    ensures
        plain == lanes,
{
    lemma_columns_equal(plain, lanes);
}

/// Whether bit `j` of byte `i` of a lane of eight bytes is set.
pub open spec fn lane_bit(lane: u64, i: int, j: int) -> bool {
    bit64(lane, (8 * i + j) as u64)
}

/// One lane of a strip: the bytes at `shift` of the eight columns of the
/// group `g`, side by side, the byte of the first column lowest.
fn strip_lane(from: &[u32; 32], g: usize, shift: u32) -> (lane: u64)
    requires
        g < 4,
        shift == 0 || shift == 8 || shift == 16 || shift == 24,
    ensures
        forall|i: int, j: int|
            0 <= i < 8 && 0 <= j < 8 ==> #[trigger] lane_bit(lane, i, j) == column_bit(
                *from,
                8 * g + i,
                shift + j,
            ),
{
    let mut lane: u64 = 0;
    let mut i: usize = 0;
    proof {
        assert(forall|k: u64| k < 64 ==> !#[trigger] bit64(0, k)) by (bit_vector);
    }
    while i < 8
        invariant
            i <= 8,
            g < 4,
            shift == 0 || shift == 8 || shift == 16 || shift == 24,
            forall|a: int, j: int|
                0 <= a < i && 0 <= j < 8 ==> #[trigger] lane_bit(lane, a, j) == column_bit(
                    *from,
                    8 * g + a,
                    shift + j,
                ),
            forall|k: u64| 8 * i <= k < 64 ==> !#[trigger] bit64(lane, k),
        decreases 8 - i,
    {
        let v = from[8 * g + i];
        let byte: u64 = ((v >> shift) & 0xFF) as u64;
        let place: u32 = (8 * i) as u32;
        let next = lane | (byte << place);
        proof {
            assert(forall|k: u64|
                k < 64 ==> #[trigger] bit64(next, k) == (bit64(lane, k) || (place <= k < place + 8
                    && bit32(v, (shift + (k - place)) as u32)))) by (bit_vector)
                requires
                    shift <= 24,
                    place <= 56,
                    byte == ((v >> shift) & 0xFF) as u64,
                    next == lane | (byte << place),
            ;
            assert forall|a: int, j: int| 0 <= a < i + 1 && 0 <= j < 8 implies #[trigger] lane_bit(
                next,
                a,
                j,
            ) == column_bit(*from, 8 * g + a, shift + j) by {
                let k = (8 * a + j) as u64;
                assert(bit64(next, k) == (bit64(lane, k) || (place <= k < place + 8 && bit32(
                    v,
                    (shift + (k - place)) as u32,
                ))));
                if a < i {
                    assert(lane_bit(lane, a, j) == column_bit(*from, 8 * g + a, shift + j));
                }
            }
            assert forall|k: u64| 8 * (i + 1) <= k < 64 implies !#[trigger] bit64(next, k) by {
                assert(bit64(next, k) == (bit64(lane, k) || (place <= k < place + 8 && bit32(
                    v,
                    (shift + (k - place)) as u32,
                ))));
            }
        }
        lane = next;
        i += 1;
    }
    lane
}

/// Bit `e` of each of the eight bytes of a lane, side by side in one byte:
/// the bits are picked out under a mask and folded together by shifts.
fn movemask(lane: u64, e: u32) -> (byte: u32)
    requires
        e < 8,
    ensures
        byte < 256,
        forall|i: u32| i < 8 ==> #[trigger] bit32(byte, i) == lane_bit(lane, i as int, e as int),
{
    let picked: u64 = (lane >> e) & 0x0101_0101_0101_0101;
    let by_two: u64 = picked | (picked >> 7);
    let by_four: u64 = by_two | (by_two >> 14);
    let by_eight: u64 = by_four | (by_four >> 28);
    let byte = (by_eight & 0xFF) as u32;
    proof {
        assert(byte < 256 && (forall|i: u32|
            i < 8 ==> #[trigger] bit32(byte, i) == bit64(lane, (8 * i + e) as u64))) by (bit_vector)
            requires
                e < 8,
                picked == (lane >> e) & 0x0101_0101_0101_0101,
                by_two == picked | (picked >> 7),
                by_four == by_two | (by_two >> 14),
                by_eight == by_four | (by_four >> 28),
                byte == (by_eight & 0xFF) as u32,
        ;
    }
    byte
}

/// The word whose bit `x` is bit `shift + e` of column `x`, read off the
/// four lanes of a strip.
fn gather_lanes(
    from: Ghost<[u32; 32]>,
    l0: u64,
    l1: u64,
    l2: u64,
    l3: u64,
    shift: Ghost<int>,
    e: u32,
) -> (r: u32)
    requires
        e < 8,
        shift@ == 0 || shift@ == 8 || shift@ == 16 || shift@ == 24,
        forall|i: int, j: int|
            0 <= i < 8 && 0 <= j < 8 ==> #[trigger] lane_bit(l0, i, j) == column_bit(
                from@,
                i,
                shift@ + j,
            ),
        forall|i: int, j: int|
            0 <= i < 8 && 0 <= j < 8 ==> #[trigger] lane_bit(l1, i, j) == column_bit(
                from@,
                8 + i,
                shift@ + j,
            ),
        forall|i: int, j: int|
            0 <= i < 8 && 0 <= j < 8 ==> #[trigger] lane_bit(l2, i, j) == column_bit(
                from@,
                16 + i,
                shift@ + j,
            ),
        forall|i: int, j: int|
            0 <= i < 8 && 0 <= j < 8 ==> #[trigger] lane_bit(l3, i, j) == column_bit(
                from@,
                24 + i,
                shift@ + j,
            ),
    ensures
        forall|x: int| 0 <= x < 32 ==> #[trigger] gathered(from@, (shift@ + e) as u32, r, x),
{
    let b0 = movemask(l0, e);
    let b1 = movemask(l1, e);
    let b2 = movemask(l2, e);
    let b3 = movemask(l3, e);
    let r = b0 | (b1 << 8) | (b2 << 16) | (b3 << 24);
    proof {
        assert(forall|k: u32|
            k < 32 ==> #[trigger] bit32(r, k) == (if k < 8 {
                bit32(b0, k)
            } else if k < 16 {
                bit32(b1, (k - 8) as u32)
            } else if k < 24 {
                bit32(b2, (k - 16) as u32)
            } else {
                bit32(b3, (k - 24) as u32)
            })) by (bit_vector)
            requires
                b0 < 256,
                b1 < 256,
                b2 < 256,
                b3 < 256,
                r == b0 | (b1 << 8) | (b2 << 16) | (b3 << 24),
        ;
        assert forall|x: int| 0 <= x < 32 implies #[trigger] gathered(
            from@,
            (shift@ + e) as u32,
            r,
            x,
        ) by {
            let k = x as u32;
            let i = (x % 8) as u32;
            if x < 8 {
                assert(bit32(b0, i) == lane_bit(l0, i as int, e as int));
            } else if x < 16 {
                assert(bit32(b1, i) == lane_bit(l1, i as int, e as int));
            } else if x < 24 {
                assert(bit32(b2, i) == lane_bit(l2, i as int, e as int));
            } else {
                assert(bit32(b3, i) == lane_bit(l3, i as int, e as int));
            }
        }
    }
    r
}

/// Rotate the whole board by 90 degrees, eight columns at a time.
///
/// The bytes of the columns are first sorted into four strips, one for each
/// place of a byte in its word, so that a strip holds the same eight rows of
/// all columns. In a strip one row is then picked out of every byte at once
/// and gathered into the column that the row becomes. The result is the one
/// of `rotate_90`.
pub fn rotate_90_lanes(from: &[u32; 32], to: &mut [u32; 32])
    ensures
        forall|c: int, x: int|
            0 <= c < 32 && 0 <= x < 32 ==> #[trigger] column_bit(*final(to), c, x) == column_bit(
                *from,
                x,
                31 - c,
            ),
{
    // Each increment in `a` counts for 8 columns of the result: the strip
    // `a` is the byte `3 - a` of the columns
    let mut a: usize = 0;
    while a < 4
        invariant
            a <= 4,
            forall|c: int, x: int|
                0 <= c < 8 * a && 0 <= x < 32 ==> #[trigger] column_bit(*to, c, x) == column_bit(
                    *from,
                    x,
                    31 - c,
                ),
        decreases 4 - a,
    {
        let shift: u32 = (8 * (3 - a)) as u32;
        let l0 = strip_lane(from, 0, shift);
        let l1 = strip_lane(from, 1, shift);
        let l2 = strip_lane(from, 2, shift);
        let l3 = strip_lane(from, 3, shift);
        let mut b: usize = 0;
        while b < 8
            invariant
                a < 4,
                b <= 8,
                shift == 8 * (3 - a),
                forall|i: int, j: int|
                    0 <= i < 8 && 0 <= j < 8 ==> #[trigger] lane_bit(l0, i, j) == column_bit(
                        *from,
                        i,
                        shift + j,
                    ),
                forall|i: int, j: int|
                    0 <= i < 8 && 0 <= j < 8 ==> #[trigger] lane_bit(l1, i, j) == column_bit(
                        *from,
                        8 + i,
                        shift + j,
                    ),
                forall|i: int, j: int|
                    0 <= i < 8 && 0 <= j < 8 ==> #[trigger] lane_bit(l2, i, j) == column_bit(
                        *from,
                        16 + i,
                        shift + j,
                    ),
                forall|i: int, j: int|
                    0 <= i < 8 && 0 <= j < 8 ==> #[trigger] lane_bit(l3, i, j) == column_bit(
                        *from,
                        24 + i,
                        shift + j,
                    ),
                forall|c: int, x: int|
                    0 <= c < 8 * a + b && 0 <= x < 32 ==> #[trigger] column_bit(*to, c, x)
                        == column_bit(*from, x, 31 - c),
            decreases 8 - b,
        {
            let column = gather_lanes(Ghost(*from), l0, l1, l2, l3, Ghost(shift as int), (7 - b) as u32);
            let ghost before = *to;
            let c = a * 8 + b;
            to[c] = column;
            proof {
                assert forall|k: int, x: int| 0 <= k < 8 * a + b + 1 && 0 <= x < 32 implies #[trigger] column_bit(
                    *to,
                    k,
                    x,
                ) == column_bit(*from, x, 31 - k) by {
                    if k == c {
                        let e = (7 - b) as u32;
                        assert(gathered(*from, (shift as int + e) as u32, column, x));
                        assert((shift as int + e) as u32 == (31 - c) as u32);
                    } else {
                        assert(to[k] == before[k]);
                        assert(column_bit(before, k, x) == column_bit(*from, x, 31 - k));
                    }
                }
            }
            b += 1;
        }
        a += 1;
    }
}

/// Rotate the whole board by 270 degrees, eight columns at a time: the
/// same as `rotate_90_lanes`, but for the order in which the columns are
/// stored and the order of their bits. The result is the one of
/// `rotate_270`.
pub fn rotate_270_lanes(from: &[u32; 32], to: &mut [u32; 32])
    ensures
        forall|c: int, x: int|
            0 <= c < 32 && 0 <= x < 32 ==> #[trigger] column_bit(*final(to), c, x) == column_bit(
                *from,
                31 - x,
                c,
            ),
{
    let mut a: usize = 0;
    while a < 4
        invariant
            a <= 4,
            forall|c: int, x: int|
                32 - 8 * a <= c < 32 && 0 <= x < 32 ==> #[trigger] column_bit(*to, c, x)
                    == column_bit(*from, 31 - x, c),
        decreases 4 - a,
    {
        let shift: u32 = (8 * (3 - a)) as u32;
        let l0 = strip_lane(from, 0, shift);
        let l1 = strip_lane(from, 1, shift);
        let l2 = strip_lane(from, 2, shift);
        let l3 = strip_lane(from, 3, shift);
        let mut b: usize = 0;
        while b < 8
            invariant
                a < 4,
                b <= 8,
                shift == 8 * (3 - a),
                forall|i: int, j: int|
                    0 <= i < 8 && 0 <= j < 8 ==> #[trigger] lane_bit(l0, i, j) == column_bit(
                        *from,
                        i,
                        shift + j,
                    ),
                forall|i: int, j: int|
                    0 <= i < 8 && 0 <= j < 8 ==> #[trigger] lane_bit(l1, i, j) == column_bit(
                        *from,
                        8 + i,
                        shift + j,
                    ),
                forall|i: int, j: int|
                    0 <= i < 8 && 0 <= j < 8 ==> #[trigger] lane_bit(l2, i, j) == column_bit(
                        *from,
                        16 + i,
                        shift + j,
                    ),
                forall|i: int, j: int|
                    0 <= i < 8 && 0 <= j < 8 ==> #[trigger] lane_bit(l3, i, j) == column_bit(
                        *from,
                        24 + i,
                        shift + j,
                    ),
                forall|c: int, x: int|
                    32 - (8 * a + b) <= c < 32 && 0 <= x < 32 ==> #[trigger] column_bit(*to, c, x)
                        == column_bit(*from, 31 - x, c),
            decreases 8 - b,
        {
            let straight = gather_lanes(
                Ghost(*from),
                l0,
                l1,
                l2,
                l3,
                Ghost(shift as int),
                (7 - b) as u32,
            );
            let column = straight.reverse_bits();
            let ghost before = *to;
            // The only line that changes against the rotation by 90 degrees
            let c = SIZE - 1 - (a * 8 + b);
            to[c] = column;
            proof {
                assert forall|k: int, x: int|
                    32 - (8 * a + b + 1) <= k < 32 && 0 <= x < 32 implies #[trigger] column_bit(
                    *to,
                    k,
                    x,
                ) == column_bit(*from, 31 - x, k) by {
                    if k == c {
                        let e = (7 - b) as u32;
                        assert(bit32(column, x as u32) == bit32(straight, (31 - x as u32) as u32));
                        assert(gathered(*from, (shift as int + e) as u32, straight, 31 - x));
                        assert((shift as int + e) as u32 == c as u32);
                    } else {
                        assert(to[k] == before[k]);
                        assert(column_bit(before, k, x) == column_bit(*from, 31 - x, k));
                    }
                }
            }
            b += 1;
        }
        a += 1;
    }
}

impl Grid for Board {
    open spec fn cells(&self) -> Set<(int, int)> {
        self.model()
    }

    open spec fn extent(&self) -> (int, int) {
        (32, 32)
    }

    open spec fn wf(&self) -> bool {
        true
    }

    open spec fn limit() -> int {
        32
    }

    open spec fn slack() -> int {
        32
    }

    open spec fn shift_limit() -> int {
        32
    }

    proof fn lemma_wf(&self) {
        self.lemma_model();
    }

    proof fn lemma_limits() {
    }

    fn capacity() -> (n: usize) {
        SIZE
    }

    fn reach() -> (n: isize) {
        32
    }

    fn new() -> (g: Self) {
        Board::new()
    }

    fn reserve_space(&mut self, x: usize, y: usize) {
    }

    fn get_bounding_box(&self) -> (bb: (usize, usize)) {
        let mut dim_x: usize = 0;
        let mut dim_y: usize = 0;
        let ghost mut top_x: (int, int) = (0, 0);
        let ghost mut top_y: (int, int) = (0, 0);
        let mut x: usize = 0;
        while x < SIZE
            invariant
                x <= 32,
                dim_x <= 32,
                dim_y <= 32,
                forall|a: int, b: int| self.at(a, b) && a < x ==> a < dim_x && b < dim_y,
                dim_x > 0 ==> self.at(top_x.0, top_x.1) && top_x.0 == dim_x - 1,
                dim_y > 0 ==> self.at(top_y.0, top_y.1) && top_y.1 == dim_y - 1,
            decreases 32 - x,
        {
            let v = self.board[x];
            if v != 0 {
                let height = (32 - v.leading_zeros()) as usize;
                proof {
                    vstd::std_specs::bits::axiom_u32_leading_zeros(v);
                    let top = (height - 1) as u32;
                    assert(((v >> top) & 1u32 != 0u32) == bit32(v, top)) by (bit_vector);
                    assert(bit32(v, top));
                    assert forall|k: u32| k < 32 && #[trigger] bit32(v, k) implies k < height by {
                        if k >= height {
                            assert((v >> k) & 1u32 == 0u32);
                        }
                    }
                    assert(self.at(x as int, top as int));
                    top_x = (x as int, top as int);
                    if height > dim_y {
                        top_y = (x as int, top as int);
                    }
                }
                dim_x = x + 1;
                if height > dim_y {
                    dim_y = height;
                }
            } else {
                proof {
                    lemma_zero32();
                }
            }
            x += 1;
        }
        proof {
            self.lemma_model();
            if dim_x > 0 {
                assert(self.model().contains(top_x));
            }
            if dim_y > 0 {
                assert(self.model().contains(top_y));
            }
        }
        (dim_x, dim_y)
    }

    fn set(&mut self, x: usize, y: usize) {
        Board::set(self, x, y);
    }

    fn unset(&mut self, x: usize, y: usize) {
        Board::unset(self, x, y);
    }

    fn get(&self, x: usize, y: usize) -> (b: bool) {
        Board::get(self, x, y)
    }

    fn count(&self) -> (n: u32) {
        Board::count(self)
    }

    fn shift_x(&mut self, n: isize) {
        Board::shift_x(self, n as i8);
    }

    fn shift_y(&mut self, n: isize) {
        Board::shift_y(self, n as i8);
    }

    fn rotate(&self, dim: (u8, u8), r: Rotation) -> (g: Self) {
        Board::rotate(self, dim, &r)
    }

    fn duplicate(&self) -> (g: Self) {
        *self
    }

    fn same_cells(&self, other: &Self) -> (b: bool) {
        let mut x: usize = 0;
        while x < SIZE
            invariant
                x <= 32,
                forall|a: int| 0 <= a < x ==> #[trigger] self.board[a] == other.board[a],
            decreases 32 - x,
        {
            if self.board[x] != other.board[x] {
                proof {
                    if self.model() == other.model() {
                        assert forall|k: u32| k < 32 implies #[trigger] bit32(
                            self.board[x as int],
                            k,
                        ) == bit32(other.board[x as int], k) by {
                            assert(self.model().contains((x as int, k as int))
                                == other.model().contains((x as int, k as int)));
                        }
                        lemma_bits_equal32(self.board[x as int], other.board[x as int]);
                    }
                }
                return false;
            }
            x += 1;
        }
        proof {
            assert(self.model() =~= other.model());
        }
        true
    }

    fn less_than(&self, other: &Self) -> (b: bool) {
        self.before(other)
    }

    fn merge(&mut self, other: &Self) {
        let mut x: usize = 0;
        while x < SIZE
            invariant
                x <= 32,
                forall|a: int, b: int|
                    0 <= a < 32 && 0 <= b < 32 ==> #[trigger] self.at(a, b) == (old(self).at(a, b)
                        || (a < x && other.at(a, b))),
            decreases 32 - x,
        {
            let column = self.board[x] | other.board[x];
            proof {
                lemma_or32(self.board[x as int], other.board[x as int], column);
            }
            self.put_column(x, column);
            x += 1;
        }
        proof {
            assert(self.model() =~= old(self).model().union(other.model()));
        }
    }
}

} // verus!
