//! Polyominoes over any grid: how they grow by one square and how they are
//! brought to their canonical rotation.

use vstd::prelude::*;
use crate::cells::{
    lemma_read_before_box, lemma_read_before_step, lemma_rotated_r0, lemma_shifted_is_translated,
    lemma_within_finite, read_before, translated, within,
};
use crate::grid::{are_equal, fits, Grid};
use crate::rotation::Rotation;
use crate::shape::{
    canonical_rotation, children_of, grow, grow_offset, grown, lemma_child_wf,
    lemma_frontier_cell, lemma_grow_wf, lemma_trivial_wf, lemma_turned_r0, lemma_turned_sound,
    lemma_turned_wf, tried,
    trivial_shape, turned, Shape,
};

verus! {

/// A polyomino: its squares in `repr`, and in `mask` the free cells next to
/// them on which the next square may be put. Both grids are laid out over the
/// rectangle `dimension`, which leaves a margin of one cell around the
/// squares.
pub struct Polyomino<T> where T: Grid {
    pub square_count: u8,
    pub dimension: (u8, u8),
    pub repr: T,
    pub mask: T,
}

impl<T> View for Polyomino<T> where T: Grid {
    type V = Shape;

    open spec fn view(&self) -> Shape {
        Shape {
            square_count: self.square_count as int,
            dimension: (self.dimension.0 as int, self.dimension.1 as int),
            repr: self.repr.cells(),
            mask: self.mask.cells(),
        }
    }
}

impl<T> Polyomino<T> where T: Grid {
    /// What holds of any polyomino that is to be registered, grown or not:
    /// both grids are in order, the rectangle is within their limit, the
    /// count is the number of squares, and squares and frontier lie inside
    /// the rectangle.
    pub open spec fn sound(&self) -> bool {
        &&& self.repr.wf()
        &&& self.mask.wf()
        &&& self@.sound()
        &&& self.dimension.0 <= T::limit()
        &&& self.dimension.1 <= T::limit()
    }

    /// Whether the rectangle fits both grids, as it has to where the
    /// polyomino is turned.
    pub open spec fn fitting(&self) -> bool {
        &&& fits(&self.repr, self.dimension)
        &&& fits(&self.mask, self.dimension)
    }

    /// The invariant of a polyomino under growth: it is sound, its
    /// rectangle fits its grids, and what the grids hold is well formed.
    pub open spec fn wf(&self) -> bool {
        &&& self.sound()
        &&& self.fitting()
        &&& self@.wf()
    }

    /// Whether the polyomino is sound and, where `grown` says that it comes
    /// from growth, well formed as well.
    pub open spec fn held(&self, grown: bool) -> bool {
        self.sound() && (grown ==> self.wf())
    }

    /// The polyomino of one square.
    pub fn trivial() -> (p: Self)
        ensures
            p.wf(),
            p@ == trivial_shape(),
    {
        proof {
            T::lemma_limits();
            lemma_trivial_wf();
        }
        let mut repr = T::new();
        repr.reserve_space(3, 3);
        repr.set(1, 1);
        let mut mask = T::new();
        mask.reserve_space(3, 3);
        mask.set(1, 0);
        mask.set(0, 1);
        mask.set(1, 2);
        mask.set(2, 1);
        let p = Polyomino { square_count: 1, dimension: (3, 3), repr, mask };
        assert(p@.repr =~= trivial_shape().repr);
        assert(p@.mask =~= trivial_shape().mask);
        p
    }

    /// The polyomino of the given squares and frontier; the squares are
    /// counted.
    pub fn from(dimension: (u8, u8), repr: T, mask: T) -> (p: Self)
        requires
            repr.wf(),
            repr.cells().len() <= u8::MAX,
        ensures
            p.square_count == repr.cells().len(),
            p.dimension == dimension,
            p.repr == repr,
            p.mask == mask,
    {
        let n = repr.count();
        Polyomino { square_count: n as u8, dimension, repr, mask }
    }

    /// A polyomino with the same squares and the same frontier.
    pub fn duplicate(&self) -> (p: Self)
        requires
            self.wf(),
        ensures
            p.wf(),
            p@ == self@,
    {
        Polyomino {
            square_count: self.square_count,
            dimension: self.dimension,
            repr: self.repr.duplicate(),
            mask: self.mask.duplicate(),
        }
    }

    /// Put a square on the frontier cell `(x, y)`.
    ///
    /// `anti_mask` holds the cells that must not join the frontier, in the
    /// coordinates of the polyomino as it is before the call.
    pub fn add_square(&mut self, x: usize, y: usize, anti_mask: &T)
        requires
            old(self).wf(),
            anti_mask.wf(),
            old(self).mask.cells().contains((x as int, y as int)),
            old(self).square_count < u8::MAX,
            grown(x as int, old(self).dimension.0 as int) < T::limit(),
            grown(y as int, old(self).dimension.1 as int) < T::limit(),
            old(self).dimension.0 < anti_mask.extent().0,
            old(self).dimension.1 < anti_mask.extent().1,
        ensures
            final(self).wf(),
            final(self)@ == grow(old(self)@, (x as int, y as int), anti_mask.cells()),
    {
        let ghost v = old(self)@;
        let ghost c = (x as int, y as int);
        let ghost anti = anti_mask.cells();
        let ghost dx = grow_offset(x as int);
        let ghost dy = grow_offset(y as int);
        proof {
            T::lemma_limits();
            self.repr.lemma_wf();
            self.mask.lemma_wf();
            lemma_grow_wf(v, c, anti);
        }
        let mut x = x;
        let mut y = y;
        self.square_count += 1;
        // The anti-mask is not shifted like the squares and the frontier, so
        // offsets on the coordinates are needed to read it
        let mut x_offset: usize = 0;
        let mut y_offset: usize = 0;

        if x + 1 == self.dimension.0 as usize {
            self.dimension.0 += 1;
        }
        if y + 1 == self.dimension.1 as usize {
            self.dimension.1 += 1;
        }
        if x == 0 {
            x_offset = 1;
            self.dimension.0 += 1;
            x += 1;
        }
        if y == 0 {
            y_offset = 1;
            self.dimension.1 += 1;
            y += 1;
        }
        // There is no need to treat a shift in both x and y at once: no
        // square can be added there, as it would not be connected

        // Prepare the bounding box
        self.repr.reserve_space(self.dimension.0 as usize, self.dimension.1 as usize);
        self.mask.reserve_space(self.dimension.0 as usize, self.dimension.1 as usize);

        // Apply offsets
        if x_offset == 1 {
            proof {
                self.repr.lemma_wf();
                self.mask.lemma_wf();
                lemma_shifted_is_translated(
                    self.repr.cells(),
                    1,
                    0,
                    v.dimension.0,
                    v.dimension.1,
                    self.repr.extent().0,
                    self.repr.extent().1,
                );
                lemma_shifted_is_translated(
                    self.mask.cells(),
                    1,
                    0,
                    v.dimension.0,
                    v.dimension.1,
                    self.mask.extent().0,
                    self.mask.extent().1,
                );
            }
            self.repr.shift_x(1);
            self.mask.shift_x(1);
        }
        assert(self.repr.cells() =~= translated(v.repr, dx, 0));
        assert(self.mask.cells() =~= translated(v.mask, dx, 0));
        if y_offset == 1 {
            proof {
                self.repr.lemma_wf();
                self.mask.lemma_wf();
                lemma_shifted_is_translated(
                    self.repr.cells(),
                    0,
                    1,
                    v.dimension.0 + dx,
                    v.dimension.1,
                    self.repr.extent().0,
                    self.repr.extent().1,
                );
                lemma_shifted_is_translated(
                    self.mask.cells(),
                    0,
                    1,
                    v.dimension.0 + dx,
                    v.dimension.1,
                    self.mask.extent().0,
                    self.mask.extent().1,
                );
            }
            self.repr.shift_y(1);
            self.mask.shift_y(1);
        }
        assert(self.repr.cells() =~= translated(v.repr, dx, dy));
        assert(self.mask.cells() =~= translated(v.mask, dx, dy));

        self.repr.set(x, y);
        self.mask.unset(x, y);

        let ghost goal = grow(v, c, anti);
        self.offer(x + 1, y, anti_mask, x_offset, y_offset);
        self.offer(x - 1, y, anti_mask, x_offset, y_offset);
        self.offer(x, y + 1, anti_mask, x_offset, y_offset);
        self.offer(x, y - 1, anti_mask, x_offset, y_offset);
        proof {
            assert(self.mask.cells() =~= goal.mask);
            assert(self@ == goal);
        }
    }

    /// Let the cell `(nx, ny)`, a neighbour of the new square, join the
    /// frontier if it is free and was not tried before.
    fn offer(&mut self, nx: usize, ny: usize, anti_mask: &T, x_offset: usize, y_offset: usize)
        requires
            old(self).repr.wf(),
            old(self).mask.wf(),
            anti_mask.wf(),
            nx < old(self).repr.extent().0,
            ny < old(self).repr.extent().1,
            nx < old(self).mask.extent().0,
            ny < old(self).mask.extent().1,
            x_offset <= 1,
            y_offset <= 1,
            nx != 0 && ny != 0 ==> nx - x_offset < anti_mask.extent().0 && ny - y_offset
                < anti_mask.extent().1,
        ensures
            final(self).repr == old(self).repr,
            final(self).square_count == old(self).square_count,
            final(self).dimension == old(self).dimension,
            final(self).mask.wf(),
            final(self).mask.extent() == old(self).mask.extent(),
            final(self).mask.cells() == (if !old(self).repr.cells().contains((nx as int, ny as int))
                && !tried(anti_mask.cells(), (nx as int, ny as int), x_offset as int, y_offset as int) {
                old(self).mask.cells().insert((nx as int, ny as int))
            } else {
                old(self).mask.cells()
            }),
    {
        let blocked = if nx == 0 || ny == 0 {
            false
        } else {
            anti_mask.get(nx - x_offset, ny - y_offset)
        };
        if !self.repr.get(nx, ny) && !blocked {
            self.mask.set(nx, ny);
        }
    }
}

/// Put a square on the same frontier cell of two polyominoes, each with
/// grids of its own representation, and hold the results against each
/// other: whether both have grown into the same polyomino. Two polyominoes
/// that are the same but for the representation of their grids always agree:
/// a polyomino grows as the model says, whatever its grids are made of.
pub fn growths_agree<T, U>(
    p: &Polyomino<T>,
    q: &Polyomino<U>,
    x: usize,
    y: usize,
    anti_mask_p: &T,
    anti_mask_q: &U,
) -> (same: bool) where T: Grid, U: Grid
    requires
        p.wf(),
        q.wf(),
        anti_mask_p.wf(),
        anti_mask_q.wf(),
        p.mask.cells().contains((x as int, y as int)),
        q.mask.cells().contains((x as int, y as int)),
        p.square_count < u8::MAX,
        q.square_count < u8::MAX,
        grown(x as int, p.dimension.0 as int) < T::limit(),
        grown(y as int, p.dimension.1 as int) < T::limit(),
        grown(x as int, q.dimension.0 as int) < U::limit(),
        grown(y as int, q.dimension.1 as int) < U::limit(),
        p.dimension.0 < anti_mask_p.extent().0,
        p.dimension.1 < anti_mask_p.extent().1,
        q.dimension.0 < anti_mask_q.extent().0,
        q.dimension.1 < anti_mask_q.extent().1,
    ensures
        same == (grow(p@, (x as int, y as int), anti_mask_p.cells()) == grow(
            q@,
            (x as int, y as int),
            anti_mask_q.cells(),
        )),
        p@ == q@ && anti_mask_p.cells() == anti_mask_q.cells() ==> same,
{
    let mut grown_p = p.duplicate();
    let mut grown_q = q.duplicate();
    grown_p.add_square(x, y, anti_mask_p);
    grown_q.add_square(x, y, anti_mask_q);
    let same_squares = are_equal(&grown_p.repr, &grown_q.repr);
    let same_frontier = are_equal(&grown_p.mask, &grown_q.mask);
    grown_p.square_count == grown_q.square_count && grown_p.dimension.0 == grown_q.dimension.0
        && grown_p.dimension.1 == grown_q.dimension.1 && same_squares && same_frontier
}

/// All polyominoes that can be made by adding a square to this polyomino, one
/// for each cell of its frontier, in reading order of those cells.
pub fn decline<T>(p: &Polyomino<T>) -> (children: Vec<Polyomino<T>>) where T: Grid
    requires
        p.wf(),
        p.square_count < u8::MAX,
        p.dimension.0 + 1 < T::limit(),
        p.dimension.1 + 1 < T::limit(),
    ensures
        children@.len() == p@.mask.len(),
        forall|i: int| 0 <= i < children@.len() ==> (#[trigger] children@[i])@ == children_of(p@)[i],
        forall|i: int|
            0 <= i < children@.len() ==> (#[trigger] children@[i]).wf() && children@[i].square_count
                == p.square_count + 1 && children@[i]@.repr.disjoint(children@[i]@.mask),
{
    let mut polyominoes: Vec<Polyomino<T>> = Vec::new();
    let ghost v = p@;
    let ghost w = p.dimension.0 as int;
    let ghost h = p.dimension.1 as int;

    proof {
        T::lemma_limits();
    }
    let mut mask = p.mask.duplicate();
    let mut anti_mask = T::new();
    anti_mask.reserve_space((p.dimension.0 + 1) as usize, (p.dimension.1 + 1) as usize);
    proof {
        p.mask.lemma_wf();
        lemma_within_finite(v.mask, w, h);
        lemma_read_before_box(v.mask, w, h);
        assert(mask.cells() =~= v.mask.difference(read_before(v.mask, (0, 0))));
    }
    let mut x: usize = 0;
    while x < p.dimension.0 as usize
        invariant
            x <= w,
            p.wf(),
            v == p@,
            w == p.dimension.0,
            h == p.dimension.1,
            p.square_count < u8::MAX,
            w + 1 < T::limit(),
            h + 1 < T::limit(),
            v.mask.finite(),
            within(v.mask, w, h),
            mask.wf(),
            anti_mask.wf(),
            mask.extent() == p.mask.extent(),
            anti_mask.extent().0 > w + 1,
            anti_mask.extent().1 > h + 1,
            anti_mask.cells() == read_before(v.mask, (x as int, 0)),
            mask.cells() == v.mask.difference(read_before(v.mask, (x as int, 0))),
            polyominoes@.len() == read_before(v.mask, (x as int, 0)).len(),
            polyominoes@.len() <= v.mask.len(),
            forall|i: int|
                0 <= i < polyominoes@.len() ==> (#[trigger] polyominoes@[i])@ == children_of(v)[i],
            forall|i: int|
                0 <= i < polyominoes@.len() ==> (#[trigger] polyominoes@[i]).wf()
                    && polyominoes@[i].square_count == p.square_count + 1,
        decreases w - x,
    {
        let mut y: usize = 0;
        while y < p.dimension.1 as usize
            invariant
                x < w,
                y <= h,
                p.wf(),
                v == p@,
                w == p.dimension.0,
                h == p.dimension.1,
                p.square_count < u8::MAX,
                w + 1 < T::limit(),
                h + 1 < T::limit(),
                v.mask.finite(),
                within(v.mask, w, h),
                mask.wf(),
                anti_mask.wf(),
                mask.extent() == p.mask.extent(),
                anti_mask.extent().0 > w + 1,
                anti_mask.extent().1 > h + 1,
                anti_mask.cells() == read_before(v.mask, (x as int, y as int)),
                mask.cells() == v.mask.difference(read_before(v.mask, (x as int, y as int))),
                polyominoes@.len() == read_before(v.mask, (x as int, y as int)).len(),
                polyominoes@.len() <= v.mask.len(),
                forall|i: int|
                    0 <= i < polyominoes@.len() ==> (#[trigger] polyominoes@[i])@ == children_of(
                        v,
                    )[i],
                forall|i: int|
                    0 <= i < polyominoes@.len() ==> (#[trigger] polyominoes@[i]).wf()
                        && polyominoes@[i].square_count == p.square_count + 1,
            decreases h - y,
        {
            let ghost c = (x as int, y as int);
            proof {
                p.mask.lemma_wf();
                lemma_read_before_step(v.mask, x as int, y as int);
                vstd::set_lib::lemma_set_subset_finite(v.mask, read_before(v.mask, c));
            }
            if p.mask.get(x, y) {
                // add a new polyomino
                let mut new_p = Polyomino {
                    square_count: p.square_count,
                    dimension: p.dimension,
                    repr: p.repr.duplicate(),
                    mask: mask.duplicate(),
                };
                proof {
                    crate::shape::lemma_without_wf(v, read_before(v.mask, c));
                    assert(new_p@ == v.without(read_before(v.mask, c)));
                    lemma_child_wf(v, c);
                }
                new_p.add_square(x, y, &anti_mask);
                anti_mask.set(x, y);
                mask.unset(x, y);
                let ghost before = polyominoes@;
                polyominoes.push(new_p);
                proof {
                    let next = (x as int, y + 1);
                    assert(mask.cells() =~= v.mask.difference(read_before(v.mask, next)));
                    lemma_frontier_cell(v.mask, c);
                    assert forall|i: int| 0 <= i < polyominoes@.len() implies (
                    #[trigger] polyominoes@[i])@ == children_of(v)[i] by {
                        if i < before.len() {
                            assert(polyominoes@[i] == before[i]);
                        }
                    }
                }
            } else {
                proof {
                    let next = (x as int, y + 1);
                    assert(mask.cells() =~= v.mask.difference(read_before(v.mask, next)));
                }
            }
            y += 1;
        }
        proof {
            lemma_read_before_box(v.mask, w, h);
            assert(read_before(v.mask, (x as int, h)) == read_before(v.mask, (x + 1, 0)));
        }
        x += 1;
    }
    proof {
        lemma_read_before_box(v.mask, w, h);
    }
    polyominoes
}

/// The canonical form of a polyomino among its rotations, and the rotation
/// that leads to it. A polyomino that is in its canonical form stays as it
/// is.
pub fn smallest_rotation<T>(p: Polyomino<T>) -> (res: (Polyomino<T>, Rotation)) where T: Grid
    requires
        p.sound(),
        p.fitting(),
    ensures
        res.1 == canonical_rotation(p@.repr, p@.dimension.0, p@.dimension.1),
        res.0@ == turned(p@, res.1),
        res.0.sound(),
        res.0.fitting(),
        res.0.dimension.0 <= res.0.dimension.1,
        p.wf() ==> res.0.wf(),
{
    let ghost v = p@;
    proof {
        p.repr.lemma_wf();
        p.mask.lemma_wf();
        lemma_rotated_r0(v.repr, v.dimension.0, v.dimension.1);
        lemma_turned_r0(v);
        lemma_turned_sound(v, Rotation::R0);
        lemma_turned_sound(v, Rotation::R90);
        lemma_turned_sound(v, Rotation::R180);
        lemma_turned_sound(v, Rotation::R270);
        if v.wf() {
            lemma_turned_wf(v, Rotation::R0);
            lemma_turned_wf(v, Rotation::R90);
            lemma_turned_wf(v, Rotation::R180);
            lemma_turned_wf(v, Rotation::R270);
        }
    }
    let Polyomino { square_count, dimension, repr, mask } = p;
    // Take smallest dimension first
    if dimension.0 < dimension.1 {
        // Only compare rotation 0 and rotation 180
        let rotated_board = repr.rotate(dimension, Rotation::R180);
        if rotated_board.less_than(&repr) {
            (
                Polyomino {
                    square_count,
                    dimension,
                    repr: rotated_board,
                    mask: mask.rotate(dimension, Rotation::R180),
                },
                Rotation::R180,
            )
        } else {
            (Polyomino { square_count, dimension, repr, mask }, Rotation::R0)
        }
    } else if dimension.0 > dimension.1 {
        // Compare rotations 90 and 270
        let board_90 = repr.rotate(dimension, Rotation::R90);
        let board_270 = repr.rotate(dimension, Rotation::R270);
        if board_90.less_than(&board_270) {
            (
                Polyomino {
                    square_count,
                    dimension: (dimension.1, dimension.0),
                    repr: board_90,
                    mask: mask.rotate(dimension, Rotation::R90),
                },
                Rotation::R90,
            )
        } else {
            (
                Polyomino {
                    square_count,
                    dimension: (dimension.1, dimension.0),
                    repr: board_270,
                    mask: mask.rotate(dimension, Rotation::R270),
                },
                Rotation::R270,
            )
        }
    } else {
        // Dimensions are equal: compare all rotations
        let board_90 = repr.rotate(dimension, Rotation::R90);
        let board_180 = repr.rotate(dimension, Rotation::R180);
        let board_270 = repr.rotate(dimension, Rotation::R270);

        // Comparison by pairs: (repr, board_180) and (board_90, board_270)
        let upright_turns = board_180.less_than(&repr);
        let sideways_first = board_90.less_than(&board_270);
        let sideways_wins = if upright_turns {
            if sideways_first {
                board_90.less_than(&board_180)
            } else {
                board_270.less_than(&board_180)
            }
        } else {
            if sideways_first {
                board_90.less_than(&repr)
            } else {
                board_270.less_than(&repr)
            }
        };

        // Then take the smallest of each pair, and of these the sideways
        // one only where it comes first
        if sideways_wins {
            if sideways_first {
                let turned_mask = mask.rotate(dimension, Rotation::R90);
                (
                    Polyomino { square_count, dimension, repr: board_90, mask: turned_mask },
                    Rotation::R90,
                )
            } else {
                let turned_mask = mask.rotate(dimension, Rotation::R270);
                (
                    Polyomino { square_count, dimension, repr: board_270, mask: turned_mask },
                    Rotation::R270,
                )
            }
        } else if upright_turns {
            let turned_mask = mask.rotate(dimension, Rotation::R180);
            (
                Polyomino { square_count, dimension, repr: board_180, mask: turned_mask },
                Rotation::R180,
            )
        } else {
            (Polyomino { square_count, dimension, repr, mask }, Rotation::R0)
        }
    }
}

} // verus!
