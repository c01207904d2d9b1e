//! The mathematical model of a polyomino under growth: its squares, the
//! frontier on which the next square may be put, and what growing and turning
//! do to both.

use vstd::prelude::*;
use crate::cells::{
    adjacent, in_box, lemma_less_asymmetric, lemma_less_irreflexive, lemma_less_total,
    lemma_less_transitive, lemma_rotated_len,
    lemma_rotated_r0, lemma_rotated_within, lemma_rotation_compose, lemma_translated_len, less,
    precedes, read_before, rotated, rotated_dim, touches, translated, within,
};
use vstd::set_lib::{lemma_len_subset, lemma_set_subset_finite};
use crate::rotation::Rotation;

verus! {

/// A polyomino as a value of the model.
///
/// The squares lie strictly inside the rectangle given by `dimension`: a
/// margin of one cell runs around them, and the frontier may use it.
pub struct Shape {
    /// The number of squares.
    pub square_count: int,
    /// Width and height of the rectangle that holds squares and frontier.
    pub dimension: (int, int),
    /// The squares.
    pub repr: Set<(int, int)>,
    /// The frontier: free cells next to a square, on which a square may be
    /// put next.
    pub mask: Set<(int, int)>,
}

impl Shape {
    /// The invariant of a polyomino: the count is the number of squares, the
    /// squares keep off the margin, and every frontier cell is free, inside
    /// the rectangle and next to a square.
    pub open spec fn wf(self) -> bool {
        &&& 3 <= self.dimension.0
        &&& 3 <= self.dimension.1
        &&& self.repr.finite()
        &&& self.square_count == self.repr.len()
        &&& forall|c: (int, int)| #[trigger]
            self.repr.contains(c) ==> 1 <= c.0 < self.dimension.0 - 1 && 1 <= c.1
                < self.dimension.1 - 1
        &&& within(self.mask, self.dimension.0, self.dimension.1)
        &&& forall|c: (int, int)| #[trigger] self.mask.contains(c) ==> !self.repr.contains(c)
        &&& forall|c: (int, int)| #[trigger] self.mask.contains(c) ==> touches(self.repr, c)
    }

    /// What holds of any polyomino that is to be turned or registered,
    /// grown or not: the count is the number of squares, and squares and
    /// frontier lie inside the rectangle.
    pub open spec fn sound(self) -> bool {
        &&& self.repr.finite()
        &&& self.square_count == self.repr.len()
        &&& within(self.repr, self.dimension.0, self.dimension.1)
        &&& within(self.mask, self.dimension.0, self.dimension.1)
    }

    /// The same polyomino with `gone` taken off its frontier.
    pub open spec fn without(self, gone: Set<(int, int)>) -> Shape {
        Shape { mask: self.mask.difference(gone), ..self }
    }
}

/// The one-square polyomino: a 3 x 3 rectangle with the square in the middle
/// and its four neighbours as frontier.
pub open spec fn trivial_shape() -> Shape {
    Shape {
        square_count: 1,
        dimension: (3, 3),
        repr: set![(1int, 1int)],
        mask: set![(1int, 0int), (0int, 1int), (1int, 2int), (2int, 1int)],
    }
}

/// By how much the squares move along an axis when a square is put at
/// coordinate `x`: by one where it is put on the lower margin, so that a
/// margin stays below it.
pub open spec fn grow_offset(x: int) -> int {
    if x == 0 {
        1
    } else {
        0
    }
}

/// The size of the rectangle along an axis, `w` before, after a square is put
/// at coordinate `x`: one more where the square is put on a margin.
pub open spec fn grown(x: int, w: int) -> int {
    w + (if x + 1 == w {
        1int
    } else {
        0int
    }) + (if x == 0 {
        1int
    } else {
        0int
    })
}

/// Whether a cell next to the new square is kept off the frontier because a
/// square was already tried on it. The cell `d` is given after the move by
/// `(dx, dy)`, the tried cells `anti` as they were before it; a cell on the
/// lower margin was never tried.
pub open spec fn tried(anti: Set<(int, int)>, d: (int, int), dx: int, dy: int) -> bool {
    d.0 != 0 && d.1 != 0 && anti.contains((d.0 - dx, d.1 - dy))
}

/// The polyomino `v` with one more square on its frontier cell `c`.
///
/// Where `c` lies on a margin the rectangle grows, and where that is the
/// lower margin everything moves up by one. The new square leaves the
/// frontier; its free neighbours join it, but for those in `anti`.
pub open spec fn grow(v: Shape, c: (int, int), anti: Set<(int, int)>) -> Shape {
    let dx = grow_offset(c.0);
    let dy = grow_offset(c.1);
    let n = (c.0 + dx, c.1 + dy);
    let repr = translated(v.repr, dx, dy).insert(n);
    Shape {
        square_count: v.square_count + 1,
        dimension: (grown(c.0, v.dimension.0), grown(c.1, v.dimension.1)),
        repr,
        mask: translated(v.mask, dx, dy).remove(n).union(
            Set::new(|d: (int, int)| adjacent(n, d) && !repr.contains(d) && !tried(anti, d, dx, dy)),
        ),
    }
}

/// The child that growth makes of `v` on its frontier cell `c`: the frontier
/// cells read before `c` have had their turn, so they are off the frontier
/// that the child starts from and are not put on it again.
pub open spec fn child(v: Shape, c: (int, int)) -> Shape {
    grow(v.without(read_before(v.mask, c)), c, read_before(v.mask, c))
}

/// The frontier cell of which `i` others are read before it.
pub open spec fn frontier_cell(mask: Set<(int, int)>, i: int) -> (int, int) {
    choose|c: (int, int)| mask.contains(c) && read_before(mask, c).len() == i
}

/// The children that growth makes of `v`, one for each frontier cell, in
/// reading order of those cells.
pub open spec fn children_of(v: Shape) -> Seq<Shape> {
    Seq::new(v.mask.len(), |i: int| child(v, frontier_cell(v.mask, i)))
}

/// A frontier cell is known by the number of frontier cells that are read
/// before it.
pub proof fn lemma_frontier_cell(mask: Set<(int, int)>, c: (int, int))
    requires
        mask.finite(),
        mask.contains(c),
    ensures
        frontier_cell(mask, read_before(mask, c).len() as int) == c,
        read_before(mask, c).len() < mask.len(),
{
    let i = read_before(mask, c).len() as int;
    let d = frontier_cell(mask, i);
    assert(mask.contains(d) && read_before(mask, d).len() == i);
    lemma_set_subset_finite(mask, read_before(mask, c));
    lemma_set_subset_finite(mask, read_before(mask, d));
    if precedes(c, d) {
        let more = read_before(mask, c).insert(c);
        assert(more.subset_of(read_before(mask, d)));
        lemma_len_subset(more, read_before(mask, d));
    } else if precedes(d, c) {
        let more = read_before(mask, d).insert(d);
        assert(more.subset_of(read_before(mask, c)));
        lemma_len_subset(more, read_before(mask, c));
    }
    let all = read_before(mask, c).insert(c);
    assert(all.subset_of(mask));
    lemma_len_subset(all, mask);
}

/// The polyomino `v` turned by `r`.
pub open spec fn turned(v: Shape, r: Rotation) -> Shape {
    Shape {
        square_count: v.square_count,
        dimension: rotated_dim(v.dimension.0, v.dimension.1, r),
        repr: rotated(v.repr, v.dimension.0, v.dimension.1, r),
        mask: rotated(v.mask, v.dimension.0, v.dimension.1, r),
    }
}

/// The rotation that brings the squares `s` of a `w x h` rectangle to their
/// canonical form.
///
/// A rectangle that is higher than wide keeps its dimension: the choice is
/// between 0 and 180 degrees. One that is wider than high is laid on its
/// side: between 90 and 270 degrees. In a square all four compete, pair by
/// pair. Of two candidates the one that comes first in the order of the
/// grids wins. Where neither does, the form stays as it is: the half turn
/// has to come first to be taken, and so has the sideways form in a square.
pub open spec fn canonical_rotation(s: Set<(int, int)>, w: int, h: int) -> Rotation {
    let upright = if less(rotated(s, w, h, Rotation::R180), s) {
        Rotation::R180
    } else {
        Rotation::R0
    };
    let sideways = if less(rotated(s, w, h, Rotation::R90), rotated(s, w, h, Rotation::R270)) {
        Rotation::R90
    } else {
        Rotation::R270
    };
    if w < h {
        upright
    } else if w > h {
        sideways
    } else if less(rotated(s, w, h, sideways), rotated(s, w, h, upright)) {
        sideways
    } else {
        upright
    }
}

/// The one-square polyomino is well formed.
pub proof fn lemma_trivial_wf()
    ensures
        trivial_shape().wf(),
{
}

/// Growth keeps a polyomino well formed, and adds one square.
pub proof fn lemma_grow_wf(v: Shape, c: (int, int), anti: Set<(int, int)>)
    requires
        v.wf(),
        v.mask.contains(c),
    ensures
        grow(v, c, anti).wf(),
        grow(v, c, anti).square_count == v.square_count + 1,
{
    let dx = grow_offset(c.0);
    let dy = grow_offset(c.1);
    let n = (c.0 + dx, c.1 + dy);
    let g = grow(v, c, anti);
    lemma_translated_len(v.repr, dx, dy);
    assert(!translated(v.repr, dx, dy).contains(n));
    assert forall|d: (int, int)| #[trigger] g.mask.contains(d) implies touches(g.repr, d) by {
        if translated(v.mask, dx, dy).contains(d) {
            let e = (d.0 - dx, d.1 - dy);
            assert(v.mask.contains(e));
            assert(touches(v.repr, e));
            if v.repr.contains((e.0 + 1, e.1)) {
                assert(g.repr.contains((d.0 + 1, d.1)));
            } else if v.repr.contains((e.0 - 1, e.1)) {
                assert(g.repr.contains((d.0 - 1, d.1)));
            } else if v.repr.contains((e.0, e.1 + 1)) {
                assert(g.repr.contains((d.0, d.1 + 1)));
            } else {
                assert(g.repr.contains((d.0, d.1 - 1)));
            }
        } else {
            assert(adjacent(n, d));
            assert(g.repr.contains(n));
        }
    }
}

/// Taking cells off the frontier keeps a polyomino well formed.
pub proof fn lemma_without_wf(v: Shape, gone: Set<(int, int)>)
    requires
        v.wf(),
    ensures
        v.without(gone).wf(),
{
}

/// Every child of a well-formed polyomino is well formed and has one more
/// square than its parent.
pub proof fn lemma_child_wf(v: Shape, c: (int, int))
    requires
        v.wf(),
        v.mask.contains(c),
    ensures
        child(v, c).wf(),
        child(v, c).square_count == v.square_count + 1,
        forall|d: (int, int)| !(child(v, c).repr.contains(d) && child(v, c).mask.contains(d)),
{
    let gone = read_before(v.mask, c);
    lemma_without_wf(v, gone);
    lemma_grow_wf(v.without(gone), c, gone);
}

/// Turning keeps a polyomino well formed.
pub proof fn lemma_turned_wf(v: Shape, r: Rotation)
    requires
        v.wf(),
    ensures
        turned(v, r).wf(),
{
    let w = v.dimension.0;
    let h = v.dimension.1;
    let t = turned(v, r);
    assert(within(v.repr, w, h));
    lemma_rotated_len(v.repr, w, h, r);
    assert forall|d: (int, int)| #[trigger] t.mask.contains(d) implies touches(t.repr, d) by {
        let e = crate::cells::source_cell(d, w, h, r);
        assert(v.mask.contains(e));
        assert(touches(v.repr, e));
        lemma_turned_touches(v.repr, w, h, r, d);
    }
}

/// A cell whose source touches a square touches the turned square.
proof fn lemma_turned_touches(s: Set<(int, int)>, w: int, h: int, r: Rotation, d: (int, int))
    requires
        within(s, w, h),
        touches(s, crate::cells::source_cell(d, w, h, r)),
    ensures
        touches(rotated(s, w, h, r), d),
{
    let e = crate::cells::source_cell(d, w, h, r);
    let t = rotated(s, w, h, r);
    let right = (d.0 + 1, d.1);
    let left = (d.0 - 1, d.1);
    let up = (d.0, d.1 + 1);
    let down = (d.0, d.1 - 1);
    assert(forall|p: (int, int)|
        s.contains(crate::cells::source_cell(p, w, h, r)) ==> in_box(
            crate::cells::source_cell(p, w, h, r),
            w,
            h,
        ));
    assert(s.contains(crate::cells::source_cell(right, w, h, r)) ==> t.contains(right));
    assert(s.contains(crate::cells::source_cell(left, w, h, r)) ==> t.contains(left));
    assert(s.contains(crate::cells::source_cell(up, w, h, r)) ==> t.contains(up));
    assert(s.contains(crate::cells::source_cell(down, w, h, r)) ==> t.contains(down));
}

/// Turning keeps a polyomino sound.
pub proof fn lemma_turned_sound(v: Shape, r: Rotation)
    requires
        v.sound(),
    ensures
        turned(v, r).sound(),
{
    lemma_rotated_len(v.repr, v.dimension.0, v.dimension.1, r);
}

/// Turning by zero degrees changes nothing.
pub proof fn lemma_turned_r0(v: Shape)
    requires
        v.sound(),
    ensures
        turned(v, Rotation::R0) == v,
{
    assert(within(v.repr, v.dimension.0, v.dimension.1));
    lemma_rotated_r0(v.repr, v.dimension.0, v.dimension.1);
    lemma_rotated_r0(v.mask, v.dimension.0, v.dimension.1);
}

/// The canonical form is never wider than high.
pub proof fn lemma_canonical_dimension(s: Set<(int, int)>, w: int, h: int)
    ensures
        rotated_dim(w, h, canonical_rotation(s, w, h)).0 <= rotated_dim(
            w,
            h,
            canonical_rotation(s, w, h),
        ).1,
{
}

/// Whether the rotation `r` of a `w x h` region can be its canonical form:
/// whether the result is not wider than high.
pub open spec fn candidate(w: int, h: int, r: Rotation) -> bool {
    rotated_dim(w, h, r).0 <= rotated_dim(w, h, r).1
}

/// Of two sets of cells, the one that is taken where `less` puts the first
/// before the second, and the second else, has none of the two before it.
proof fn lemma_pair_least(a: Set<(int, int)>, b: Set<(int, int)>)
    ensures
        less(a, b) ==> !less(b, a),
        !less(a, a),
        !less(b, b),
{
    if less(a, b) {
        lemma_less_asymmetric(a, b);
    }
    lemma_less_irreflexive(a);
    lemma_less_irreflexive(b);
}

/// Of two pairs of sets of cells, each with its own first, the first of
/// both pairs has none of the four before it.
proof fn lemma_four_least(
    a: Set<(int, int)>,
    a_other: Set<(int, int)>,
    b: Set<(int, int)>,
    b_other: Set<(int, int)>,
    w: int,
    h: int,
)
    requires
        within(a, w, h),
        within(b, w, h),
        !less(a_other, a),
        !less(b_other, b),
    ensures
        less(a, b) ==> !less(a, a) && !less(a_other, a) && !less(b, a) && !less(b_other, a),
        !less(a, b) ==> !less(a, b) && !less(a_other, b) && !less(b, b) && !less(b_other, b),
{
    lemma_less_irreflexive(a);
    lemma_less_irreflexive(b);
    if less(a, b) {
        lemma_less_asymmetric(a, b);
        if less(b_other, a) {
            lemma_less_transitive(b_other, a, b);
        }
    } else {
        if a != b {
            lemma_less_total(a, b, w, h);
            if less(a_other, b) {
                lemma_less_transitive(a_other, b, a);
            }
        }
    }
}

/// The canonical form is the smallest: no rotation that is not wider than
/// high comes before it in the order of the grids.
pub proof fn lemma_canonical_least(s: Set<(int, int)>, w: int, h: int, r: Rotation)
    requires
        within(s, w, h),
        candidate(w, h, r),
    ensures
        candidate(w, h, canonical_rotation(s, w, h)),
        !less(rotated(s, w, h, r), rotated(s, w, h, canonical_rotation(s, w, h))),
{
    let s90 = rotated(s, w, h, Rotation::R90);
    let s180 = rotated(s, w, h, Rotation::R180);
    let s270 = rotated(s, w, h, Rotation::R270);
    lemma_rotated_r0(s, w, h);
    lemma_rotated_within(s, w, h, Rotation::R90);
    lemma_rotated_within(s, w, h, Rotation::R180);
    lemma_rotated_within(s, w, h, Rotation::R270);
    lemma_pair_least(s180, s);
    lemma_pair_least(s90, s270);
    if w == h {
        let half_first = less(s180, s);
        let quarter_first = less(s90, s270);
        let upright = if half_first {
            s180
        } else {
            s
        };
        let upright_other = if half_first {
            s
        } else {
            s180
        };
        let sideways = if quarter_first {
            s90
        } else {
            s270
        };
        let sideways_other = if quarter_first {
            s270
        } else {
            s90
        };
        lemma_four_least(sideways, sideways_other, upright, upright_other, w, h);
    }
}

/// A canonical form is its own canonical form: bringing a polyomino to
/// its canonical rotation a second time turns it no further.
pub proof fn lemma_canonical_idempotent(s: Set<(int, int)>, w: int, h: int)
    requires
        within(s, w, h),
    ensures
        canonical_rotation(
            rotated(s, w, h, canonical_rotation(s, w, h)),
            rotated_dim(w, h, canonical_rotation(s, w, h)).0,
            rotated_dim(w, h, canonical_rotation(s, w, h)).1,
        ) == Rotation::R0,
{
    let r = canonical_rotation(s, w, h);
    let t = rotated(s, w, h, r);
    let d = rotated_dim(w, h, r);
    assert(d.0 <= d.1) by {
        lemma_canonical_dimension(s, w, h);
    }
    assert(rotated(t, d.0, d.1, Rotation::R0) == t) by {
        lemma_rotated_within(s, w, h, r);
        lemma_rotated_r0(t, d.0, d.1);
    }
    // No rotation of the canonical form comes before it, as each is a
    // rotation of the squares themselves
    assert(!less(rotated(t, d.0, d.1, Rotation::R180), t)) by {
        lemma_rotation_compose(s, w, h, r, Rotation::R180);
        lemma_inverse(r, Rotation::R180, w, h);
        lemma_canonical_least(s, w, h, r.followed_by(Rotation::R180));
    }
    if d.0 == d.1 {
        assert(!less(rotated(t, d.0, d.1, Rotation::R90), t)) by {
            lemma_rotation_compose(s, w, h, r, Rotation::R90);
            lemma_inverse(r, Rotation::R90, w, h);
            lemma_canonical_least(s, w, h, r.followed_by(Rotation::R90));
        }
        assert(!less(rotated(t, d.0, d.1, Rotation::R270), t)) by {
            lemma_rotation_compose(s, w, h, r, Rotation::R270);
            lemma_inverse(r, Rotation::R270, w, h);
            lemma_canonical_least(s, w, h, r.followed_by(Rotation::R270));
        }
    }
}

/// The rotation that undoes `r`.
pub open spec fn inverse(r: Rotation) -> Rotation {
    match r {
        Rotation::R0 => Rotation::R0,
        Rotation::R90 => Rotation::R270,
        Rotation::R180 => Rotation::R180,
        Rotation::R270 => Rotation::R90,
    }
}

/// Turning by `r`, back, and then by `c` is turning by `c`; and turning
/// swaps width and height or leaves them, as the quarter turns say.
proof fn lemma_inverse(r: Rotation, c: Rotation, w: int, h: int)
    ensures
        r.followed_by(inverse(r).followed_by(c)) == c,
        rotated_dim(rotated_dim(w, h, r).0, rotated_dim(w, h, r).1, inverse(r).followed_by(c))
            == rotated_dim(w, h, c),
        rotated_dim(rotated_dim(w, h, r).0, rotated_dim(w, h, r).1, c) == rotated_dim(
            w,
            h,
            r.followed_by(c),
        ),
{
    assert(Rotation::from_quarters(0) == Rotation::R0);
    assert(Rotation::from_quarters(1) == Rotation::R90);
    assert(Rotation::from_quarters(2) == Rotation::R180);
    assert(Rotation::from_quarters(3) == Rotation::R270);
    assert(Rotation::from_quarters(4) == Rotation::R0);
    assert(Rotation::from_quarters(5) == Rotation::R90);
    assert(Rotation::from_quarters(6) == Rotation::R180);
}

/// A polyomino has one canonical form, whichever way it is turned when the
/// form is looked for: the canonical forms of a set of cells and of any of
/// its rotations hold the same cells.
pub proof fn lemma_canonical_unique(s: Set<(int, int)>, w: int, h: int, r: Rotation)
    requires
        within(s, w, h),
    ensures
        rotated(
            rotated(s, w, h, r),
            rotated_dim(w, h, r).0,
            rotated_dim(w, h, r).1,
            canonical_rotation(rotated(s, w, h, r), rotated_dim(w, h, r).0, rotated_dim(w, h, r).1),
        ) == rotated(s, w, h, canonical_rotation(s, w, h)),
{
    let t = rotated(s, w, h, r);
    let d = rotated_dim(w, h, r);
    let of_s = canonical_rotation(s, w, h);
    let of_t = canonical_rotation(t, d.0, d.1);
    let a = rotated(s, w, h, of_s);
    let b = rotated(t, d.0, d.1, of_t);
    let there = r.followed_by(of_t);
    let back = inverse(r).followed_by(of_s);
    let da = rotated_dim(w, h, of_s);
    assert(within(t, d.0, d.1)) by {
        lemma_rotated_within(s, w, h, r);
    }
    // The canonical form of the rotation is a rotation of the set itself
    assert(b == rotated(s, w, h, there)) by {
        lemma_rotation_compose(s, w, h, r, of_t);
    }
    // and the canonical form of the set is a rotation of its rotation
    assert(a == rotated(t, d.0, d.1, back)) by {
        lemma_inverse(r, of_s, w, h);
        lemma_rotation_compose(s, w, h, r, back);
    }
    assert(candidate(w, h, of_s)) by {
        lemma_canonical_dimension(s, w, h);
    }
    assert(candidate(d.0, d.1, of_t)) by {
        lemma_canonical_dimension(t, d.0, d.1);
    }
    assert(candidate(w, h, there) && rotated_dim(w, h, there) == da) by {
        lemma_inverse(r, of_t, w, h);
    }
    assert(candidate(d.0, d.1, back)) by {
        lemma_inverse(r, of_s, w, h);
    }
    assert(!less(b, a)) by {
        lemma_canonical_least(s, w, h, there);
    }
    assert(!less(a, b)) by {
        lemma_canonical_least(t, d.0, d.1, back);
    }
    assert(within(a, da.0, da.1) && within(b, da.0, da.1)) by {
        lemma_rotated_within(s, w, h, of_s);
        lemma_rotated_within(s, w, h, there);
    }
    if a != b {
        lemma_less_total(a, b, da.0, da.1);
    }
}

} // verus!
