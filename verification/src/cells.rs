//! The mathematical model shared by every grid: a set of cells, each cell a
//! pair of integer coordinates `(x, y)`.
//!
//! Everything a grid does is stated here once, over plain sets, so that two
//! grids of different representations that hold the same cells are bound to
//! answer alike.

use vstd::prelude::*;
use vstd::set_lib::{lemma_map_size, lemma_set_subset_finite};
use vstd::relations::injective_on;
use crate::rotation::Rotation;

verus! {

/// Whether the cell lies in the rectangle `[0, w) x [0, h)`.
pub open spec fn in_box(c: (int, int), w: int, h: int) -> bool {
    0 <= c.0 < w && 0 <= c.1 < h
}

/// Whether every cell of `s` lies in the rectangle `[0, w) x [0, h)`.
pub open spec fn within(s: Set<(int, int)>, w: int, h: int) -> bool {
    forall|c: (int, int)| #[trigger] s.contains(c) ==> in_box(c, w, h)
}

/// The cells of `s` that lie in the rectangle `[0, w) x [0, h)`.
pub open spec fn cropped(s: Set<(int, int)>, w: int, h: int) -> Set<(int, int)> {
    Set::new(|c: (int, int)| in_box(c, w, h) && s.contains(c))
}

/// The whole rectangle `[0, w) x [0, h)`.
pub open spec fn full_box(w: int, h: int) -> Set<(int, int)> {
    Set::new(|c: (int, int)| in_box(c, w, h))
}

/// The cells of `s` moved by `(dx, dy)`; what leaves the rectangle
/// `[0, w) x [0, h)` is dropped.
pub open spec fn shifted(s: Set<(int, int)>, dx: int, dy: int, w: int, h: int) -> Set<(int, int)> {
    Set::new(|c: (int, int)| in_box(c, w, h) && s.contains((c.0 - dx, c.1 - dy)))
}

/// The dimension of a `w x h` region after the rotation `r`.
pub open spec fn rotated_dim(w: int, h: int, r: Rotation) -> (int, int) {
    match r {
        Rotation::R0 | Rotation::R180 => (w, h),
        Rotation::R90 | Rotation::R270 => (h, w),
    }
}

/// Where the cell `c` of a `w x h` region lands under the rotation `r`.
pub open spec fn rotate_cell(c: (int, int), w: int, h: int, r: Rotation) -> (int, int) {
    match r {
        Rotation::R0 => c,
        Rotation::R90 => (h - 1 - c.1, c.0),
        Rotation::R180 => (w - 1 - c.0, h - 1 - c.1),
        Rotation::R270 => (c.1, w - 1 - c.0),
    }
}

/// The cell of a `w x h` region that lands on `c` under the rotation `r`.
pub open spec fn source_cell(c: (int, int), w: int, h: int, r: Rotation) -> (int, int) {
    match r {
        Rotation::R0 => c,
        Rotation::R90 => (c.1, h - 1 - c.0),
        Rotation::R180 => (w - 1 - c.0, h - 1 - c.1),
        Rotation::R270 => (w - 1 - c.1, c.0),
    }
}

/// The rotation by `r` of the part of `s` inside `[0, w) x [0, h)`. Cells of
/// `s` outside that region do not appear in the result.
pub open spec fn rotated(s: Set<(int, int)>, w: int, h: int, r: Rotation) -> Set<(int, int)> {
    Set::new(
        |c: (int, int)|
            in_box(c, rotated_dim(w, h, r).0, rotated_dim(w, h, r).1) && s.contains(
                source_cell(c, w, h, r),
            ),
    )
}

/// Whether `(w, h)` is the smallest rectangle anchored at the origin that
/// holds every cell of `s`: `w` is one more than the largest column in use,
/// or zero when there is none, and `h` likewise for the rows.
pub open spec fn is_bounding_box(s: Set<(int, int)>, w: int, h: int) -> bool {
    &&& 0 <= w
    &&& 0 <= h
    &&& forall|c: (int, int)| #[trigger] s.contains(c) ==> c.0 < w && c.1 < h
    &&& w > 0 ==> exists|c: (int, int)| #[trigger] s.contains(c) && c.0 == w - 1
    &&& h > 0 ==> exists|c: (int, int)| #[trigger] s.contains(c) && c.1 == h - 1
}

/// The bounding box of cells inside a rectangle lies inside the rectangle.
pub proof fn lemma_bounding_box_within(s: Set<(int, int)>, w: int, h: int, ew: int, eh: int)
    requires
        is_bounding_box(s, w, h),
        within(s, ew, eh),
        0 <= ew,
        0 <= eh,
    ensures
        w <= ew,
        h <= eh,
{
    if w > 0 {
        let c = choose|c: (int, int)| #[trigger] s.contains(c) && c.0 == w - 1;
        assert(s.contains(c));
    }
    if h > 0 {
        let c = choose|c: (int, int)| #[trigger] s.contains(c) && c.1 == h - 1;
        assert(s.contains(c));
    }
}

/// Reading order of the cells: column by column, and upwards in a column.
pub open spec fn precedes(p: (int, int), q: (int, int)) -> bool {
    p.0 < q.0 || (p.0 == q.0 && p.1 < q.1)
}

/// Whether `a` and `b` hold the same cells among those read before `c`.
pub open spec fn agree_before(a: Set<(int, int)>, b: Set<(int, int)>, c: (int, int)) -> bool {
    forall|p: (int, int)| #[trigger] precedes(p, c) ==> (a.contains(p) <==> b.contains(p))
}

/// Whether `c` is the first cell, in reading order, that only `b` holds
/// while `a` and `b` agree on everything before it.
pub open spec fn decides(a: Set<(int, int)>, b: Set<(int, int)>, c: (int, int)) -> bool {
    !a.contains(c) && b.contains(c) && agree_before(a, b, c)
}

/// The order of the grids: `a` comes before `b` when, at the first cell in
/// reading order on which they differ, `a` is empty and `b` is not.
pub open spec fn less(a: Set<(int, int)>, b: Set<(int, int)>) -> bool {
    exists|c: (int, int)| decides(a, b, c)
}

/// The four cells that share an edge with `c`.
pub open spec fn adjacent(c: (int, int), d: (int, int)) -> bool {
    ||| (d.0 == c.0 + 1 && d.1 == c.1)
    ||| (d.0 == c.0 - 1 && d.1 == c.1)
    ||| (d.0 == c.0 && d.1 == c.1 + 1)
    ||| (d.0 == c.0 && d.1 == c.1 - 1)
}

/// The cells of `s` that are read before `c`.
pub open spec fn read_before(s: Set<(int, int)>, c: (int, int)) -> Set<(int, int)> {
    Set::new(|p: (int, int)| s.contains(p) && precedes(p, c))
}

/// The column `x` of the rectangle of height `h`.
pub open spec fn column_box(x: int, h: int) -> Set<(int, int)> {
    Set::new(|c: (int, int)| c.0 == x && 0 <= c.1 < h)
}

/// A column of a rectangle is finite and has as many cells as it is high.
pub proof fn lemma_column_box(x: int, h: int)
    requires
        0 <= h,
    ensures
        column_box(x, h).finite(),
        column_box(x, h).len() == h,
    decreases h,
{
    if h == 0 {
        assert(column_box(x, h) =~= Set::<(int, int)>::empty());
    } else {
        lemma_column_box(x, h - 1);
        assert(column_box(x, h) =~= column_box(x, h - 1).insert((x, h - 1)));
    }
}

/// A rectangle is finite and has `w * h` cells.
pub proof fn lemma_full_box(w: int, h: int)
    requires
        0 <= w,
        0 <= h,
    ensures
        full_box(w, h).finite(),
        full_box(w, h).len() == w * h,
    decreases w,
{
    if w == 0 {
        assert(full_box(w, h) =~= Set::<(int, int)>::empty());
    } else {
        lemma_full_box(w - 1, h);
        lemma_column_box(w - 1, h);
        let a = full_box(w - 1, h);
        let b = column_box(w - 1, h);
        assert(full_box(w, h) =~= a + b);
        assert(a.disjoint(b));
        vstd::set_lib::lemma_set_disjoint_lens(a, b);
        assert(w * h == (w - 1) * h + h) by (nonlinear_arith);
    }
}

/// A set of cells inside a rectangle is finite and has at most as many cells
/// as the rectangle.
pub proof fn lemma_within_finite(s: Set<(int, int)>, w: int, h: int)
    requires
        within(s, w, h),
        0 <= w,
        0 <= h,
    ensures
        s.finite(),
        s.len() <= w * h,
{
    lemma_full_box(w, h);
    assert(s.subset_of(full_box(w, h)));
    lemma_set_subset_finite(full_box(w, h), s);
    vstd::set_lib::lemma_len_subset(s, full_box(w, h));
}

/// Reading one more cell of a column adds that cell, if it is set.
pub proof fn lemma_read_before_step(s: Set<(int, int)>, x: int, y: int)
    ensures
        s.contains((x, y)) ==> read_before(s, (x, y + 1)) == read_before(s, (x, y)).insert((x, y)),
        !s.contains((x, y)) ==> read_before(s, (x, y + 1)) == read_before(s, (x, y)),
{
    if s.contains((x, y)) {
        assert(read_before(s, (x, y + 1)) =~= read_before(s, (x, y)).insert((x, y)));
    } else {
        assert(read_before(s, (x, y + 1)) =~= read_before(s, (x, y)));
    }
}

/// Where the cells lie inside a rectangle, nothing is read before the origin,
/// a column that has been read to its top continues with the next column,
/// and everything has been read once the last column is done.
pub proof fn lemma_read_before_box(s: Set<(int, int)>, w: int, h: int)
    requires
        within(s, w, h),
    ensures
        read_before(s, (0, 0)) == Set::<(int, int)>::empty(),
        forall|x: int| #[trigger] read_before(s, (x, h)) == read_before(s, (x + 1, 0)),
        read_before(s, (w, 0)) == s,
{
    assert(read_before(s, (0, 0)) =~= Set::<(int, int)>::empty());
    assert forall|x: int| #[trigger] read_before(s, (x, h)) == read_before(s, (x + 1, 0)) by {
        assert(read_before(s, (x, h)) =~= read_before(s, (x + 1, 0)));
    }
    assert(read_before(s, (w, 0)) =~= s);
}

/// The first cell on which two sets differ decides their order.
pub proof fn lemma_less_first_difference(a: Set<(int, int)>, b: Set<(int, int)>, c: (int, int))
    requires
        agree_before(a, b, c),
        a.contains(c) != b.contains(c),
    ensures
        less(a, b) == b.contains(c),
        less(b, a) == a.contains(c),
{
    if b.contains(c) {
        assert(decides(a, b, c));
    } else {
        assert(agree_before(b, a, c)) by {
            assert forall|p: (int, int)| #[trigger] precedes(p, c) implies (b.contains(p)
                <==> a.contains(p)) by {}
        }
        assert(decides(b, a, c));
    }
    assert forall|d: (int, int)| !(decides(a, b, d) && !b.contains(c)) by {
        if decides(a, b, d) && !b.contains(c) {
            if precedes(d, c) {
            } else {
                assert(precedes(c, d));
            }
        }
    }
    assert forall|d: (int, int)| !(decides(b, a, d) && !a.contains(c)) by {
        if decides(b, a, d) && !a.contains(c) {
            if precedes(d, c) {
            } else {
                assert(precedes(c, d));
            }
        }
    }
}

/// No set of cells comes before itself.
pub proof fn lemma_less_irreflexive(a: Set<(int, int)>)
    ensures
        !less(a, a),
{
}

/// The cells of `s` moved by `(dx, dy)`, none of them dropped.
pub open spec fn translated(s: Set<(int, int)>, dx: int, dy: int) -> Set<(int, int)> {
    Set::new(|c: (int, int)| s.contains((c.0 - dx, c.1 - dy)))
}

/// Whether one of the four cells that share an edge with `c` is in `s`.
pub open spec fn touches(s: Set<(int, int)>, c: (int, int)) -> bool {
    ||| s.contains((c.0 + 1, c.1))
    ||| s.contains((c.0 - 1, c.1))
    ||| s.contains((c.0, c.1 + 1))
    ||| s.contains((c.0, c.1 - 1))
}

/// Rotating a region keeps the number of cells inside it.
pub proof fn lemma_rotated_len(s: Set<(int, int)>, w: int, h: int, r: Rotation)
    requires
        s.finite(),
        within(s, w, h),
    ensures
        rotated(s, w, h, r).finite(),
        rotated(s, w, h, r).len() == s.len(),
{
    let f = |c: (int, int)| rotate_cell(c, w, h, r);
    assert(injective_on(f, s));
    assert forall|c: (int, int)| s.map(f).contains(c) implies rotated(s, w, h, r).contains(c) by {
        let a = choose|a: (int, int)| s.contains(a) && f(a) == c;
        assert(source_cell(c, w, h, r) == a);
    }
    assert forall|c: (int, int)| rotated(s, w, h, r).contains(c) implies s.map(f).contains(c) by {
        let a = source_cell(c, w, h, r);
        assert(s.contains(a) && f(a) == c);
    }
    assert(s.map(f) =~= rotated(s, w, h, r));
    lemma_map_size(s, rotated(s, w, h, r), f);
}

/// Moving a set of cells keeps their number.
pub proof fn lemma_translated_len(s: Set<(int, int)>, dx: int, dy: int)
    requires
        s.finite(),
    ensures
        translated(s, dx, dy).finite(),
        translated(s, dx, dy).len() == s.len(),
{
    let f = |c: (int, int)| (c.0 + dx, c.1 + dy);
    assert(injective_on(f, s));
    assert forall|c: (int, int)| translated(s, dx, dy).contains(c) implies s.map(f).contains(
        c,
    ) by {
        let a = (c.0 - dx, c.1 - dy);
        assert(s.contains(a) && f(a) == c);
    }
    assert(s.map(f) =~= translated(s, dx, dy));
    lemma_map_size(s, translated(s, dx, dy), f);
}

/// A shift that pushes nothing out of the rectangle is a plain move.
pub proof fn lemma_shifted_is_translated(
    s: Set<(int, int)>,
    dx: int,
    dy: int,
    w: int,
    h: int,
    ew: int,
    eh: int,
)
    requires
        within(s, w, h),
        0 <= dx,
        0 <= dy,
        w + dx <= ew,
        h + dy <= eh,
    ensures
        shifted(s, dx, dy, ew, eh) == translated(s, dx, dy),
{
    assert(shifted(s, dx, dy, ew, eh) =~= translated(s, dx, dy));
}

/// The rotation by zero degrees leaves a set inside the region as it is.
pub proof fn lemma_rotated_r0(s: Set<(int, int)>, w: int, h: int)
    requires
        within(s, w, h),
    ensures
        rotated(s, w, h, Rotation::R0) == s,
{
    assert(rotated(s, w, h, Rotation::R0) =~= s);
}

/// Rotating by `first` and then by `second` is rotating once by both: the
/// rotations of a region compose as the quarter turns add up.
pub proof fn lemma_rotation_compose(
    s: Set<(int, int)>,
    w: int,
    h: int,
    first: Rotation,
    second: Rotation,
)
    ensures
        rotated(
            rotated(s, w, h, first),
            rotated_dim(w, h, first).0,
            rotated_dim(w, h, first).1,
            second,
        ) == rotated(s, w, h, first.followed_by(second)),
        rotated_dim(rotated_dim(w, h, first).0, rotated_dim(w, h, first).1, second) == rotated_dim(
            w,
            h,
            first.followed_by(second),
        ),
{
    let d = rotated_dim(w, h, first);
    let both = first.followed_by(second);
    assert(rotated(rotated(s, w, h, first), d.0, d.1, second) =~= rotated(s, w, h, both));
}

/// The laws of the quarter turn: two make a half turn, three make three
/// quarters, and four bring back what the region held.
pub proof fn lemma_quarter_turns(s: Set<(int, int)>, w: int, h: int)
    ensures
        rotated(rotated(s, w, h, Rotation::R90), h, w, Rotation::R90) == rotated(
            s,
            w,
            h,
            Rotation::R180,
        ),
        rotated(
            rotated(rotated(s, w, h, Rotation::R90), h, w, Rotation::R90),
            w,
            h,
            Rotation::R90,
        ) == rotated(s, w, h, Rotation::R270),
        rotated(
            rotated(
                rotated(rotated(s, w, h, Rotation::R90), h, w, Rotation::R90),
                w,
                h,
                Rotation::R90,
            ),
            h,
            w,
            Rotation::R90,
        ) == cropped(s, w, h),
        within(s, w, h) ==> rotated(
            rotated(
                rotated(rotated(s, w, h, Rotation::R90), h, w, Rotation::R90),
                w,
                h,
                Rotation::R90,
            ),
            h,
            w,
            Rotation::R90,
        ) == s,
{
    let once = rotated(s, w, h, Rotation::R90);
    let twice = rotated(once, h, w, Rotation::R90);
    let thrice = rotated(twice, w, h, Rotation::R90);
    let full = rotated(thrice, h, w, Rotation::R90);
    assert(Rotation::R90.followed_by(Rotation::R90) == Rotation::R180);
    assert(Rotation::R180.followed_by(Rotation::R90) == Rotation::R270);
    assert(Rotation::R270.followed_by(Rotation::R90) == Rotation::R0);
    assert(twice == rotated(s, w, h, Rotation::R180)) by {
        lemma_rotation_compose(s, w, h, Rotation::R90, Rotation::R90);
    }
    assert(thrice == rotated(s, w, h, Rotation::R270)) by {
        lemma_rotation_compose(s, w, h, Rotation::R180, Rotation::R90);
    }
    assert(full == rotated(s, w, h, Rotation::R0)) by {
        lemma_rotation_compose(s, w, h, Rotation::R270, Rotation::R90);
    }
    assert(rotated(s, w, h, Rotation::R0) =~= cropped(s, w, h));
    if within(s, w, h) {
        assert(cropped(s, w, h) =~= s);
    }
}

/// A rotated region lies inside its rotated dimension.
pub proof fn lemma_rotated_within(s: Set<(int, int)>, w: int, h: int, r: Rotation)
    ensures
        within(rotated(s, w, h, r), rotated_dim(w, h, r).0, rotated_dim(w, h, r).1),
{
}

/// The order of the grids is transitive.
pub proof fn lemma_less_transitive(a: Set<(int, int)>, b: Set<(int, int)>, c: Set<(int, int)>)
    requires
        less(a, b),
        less(b, c),
    ensures
        less(a, c),
{
    let p = choose|p: (int, int)| decides(a, b, p);
    let q = choose|q: (int, int)| decides(b, c, q);
    if precedes(p, q) {
        assert forall|e: (int, int)| #[trigger] precedes(e, p) implies (a.contains(e)
            <==> c.contains(e)) by {
            assert(precedes(e, q));
        }
        assert(decides(a, c, p));
    } else {
        assert(precedes(q, p));
        assert forall|e: (int, int)| #[trigger] precedes(e, q) implies (a.contains(e)
            <==> c.contains(e)) by {
            assert(precedes(e, p));
        }
        assert(decides(a, c, q));
    }
}

/// The order of the grids is asymmetric.
pub proof fn lemma_less_asymmetric(a: Set<(int, int)>, b: Set<(int, int)>)
    requires
        less(a, b),
    ensures
        !less(b, a),
{
    if less(b, a) {
        lemma_less_transitive(a, b, a);
        lemma_less_irreflexive(a);
    }
}

/// Two sets of cells that agree on everything read before `(x, y)` are
/// equal, or one of them comes before the other.
proof fn lemma_first_difference(
    a: Set<(int, int)>,
    b: Set<(int, int)>,
    w: int,
    h: int,
    x: int,
    y: int,
)
    requires
        within(a, w, h),
        within(b, w, h),
        0 <= x,
        0 <= y <= h,
        agree_before(a, b, (x, y)),
    ensures
        a == b || less(a, b) || less(b, a),
    decreases w - x, h - y,
{
    if x >= w {
        assert forall|c: (int, int)| a.contains(c) == b.contains(c) by {
            if a.contains(c) || b.contains(c) {
                assert(precedes(c, (x, y)));
            }
        }
        assert(a =~= b);
    } else if y >= h {
        assert forall|p: (int, int)| #[trigger] precedes(p, (x + 1, 0)) implies (a.contains(p)
            <==> b.contains(p)) by {
            if a.contains(p) || b.contains(p) {
                assert(precedes(p, (x, y)));
            }
        }
        lemma_first_difference(a, b, w, h, x + 1, 0);
    } else if a.contains((x, y)) != b.contains((x, y)) {
        lemma_less_first_difference(a, b, (x, y));
    } else {
        assert forall|p: (int, int)| #[trigger] precedes(p, (x, y + 1)) implies (a.contains(p)
            <==> b.contains(p)) by {
            if p != (x, y) {
                assert(precedes(p, (x, y)));
            }
        }
        lemma_first_difference(a, b, w, h, x, y + 1);
    }
}

/// The order of the grids is total: of two different sets of cells inside
/// a rectangle, one comes before the other.
pub proof fn lemma_less_total(a: Set<(int, int)>, b: Set<(int, int)>, w: int, h: int)
    requires
        within(a, w, h),
        within(b, w, h),
        a != b,
    ensures
        less(a, b) || less(b, a),
{
    if h >= 0 {
        assert forall|p: (int, int)| #[trigger] precedes(p, (0, 0)) implies (a.contains(p)
            <==> b.contains(p)) by {}
        lemma_first_difference(a, b, w, h, 0, 0);
    } else {
        assert(a =~= b);
    }
}

} // verus!
