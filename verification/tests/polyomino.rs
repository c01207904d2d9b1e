use polyominos::board::Board;
use polyominos::grid::{rotations_agree, Grid};
use polyominos::grids::block_grid::BlockGrid;
use polyominos::grids::naive::Naive;
use polyominos::polyomino::{decline, growths_agree, smallest_rotation, Polyomino};
use polyominos::rotation::Rotation;

type Cells = Vec<(usize, usize)>;

fn cells_in<T: Grid>(g: &T, dimension: (u8, u8)) -> Cells {
    let mut cells = vec![];
    for x in 0..dimension.0 as usize {
        for y in 0..dimension.1 as usize {
            if g.get(x, y) {
                cells.push((x, y));
            }
        }
    }
    cells
}

fn shown<T: Grid>(p: &Polyomino<T>) -> (u8, (u8, u8), Cells, Cells) {
    // Nothing lies outside the dimension
    assert_eq!(p.repr.count() as usize, cells_in(&p.repr, p.dimension).len());
    assert_eq!(p.mask.count() as usize, cells_in(&p.mask, p.dimension).len());
    (p.square_count, p.dimension, cells_in(&p.repr, p.dimension), cells_in(&p.mask, p.dimension))
}

fn check_trivial<T: Grid>() {
    let p = Polyomino::<T>::trivial();
    assert_eq!(shown(&p), (1, (3, 3), vec![(1, 1)], vec![(0, 1), (1, 0), (1, 2), (2, 1)]));
}

#[test]
fn trivial_on_every_representation() {
    check_trivial::<Naive>();
    check_trivial::<Board>();
    check_trivial::<BlockGrid>();
}

fn check_add_square<T: Grid>() {
    // On the upper margin: the rectangle grows, nothing moves
    let mut p = Polyomino::<T>::trivial();
    let mut anti = T::new();
    anti.reserve_space(4, 4);
    p.add_square(1, 2, &anti);
    assert_eq!(
        shown(&p),
        (2, (3, 4), vec![(1, 1), (1, 2)], vec![(0, 1), (0, 2), (1, 0), (1, 3), (2, 1), (2, 2)])
    );

    // On the lower margin: the rectangle grows and everything moves up
    let mut p = Polyomino::<T>::trivial();
    p.add_square(0, 1, &anti);
    assert_eq!(
        shown(&p),
        (2, (4, 3), vec![(1, 1), (2, 1)], vec![(0, 1), (1, 0), (1, 2), (2, 0), (2, 2), (3, 1)])
    );
    let mut p = Polyomino::<T>::trivial();
    p.add_square(1, 0, &anti);
    assert_eq!(
        shown(&p),
        (2, (3, 4), vec![(1, 1), (1, 2)], vec![(0, 1), (0, 2), (1, 0), (1, 3), (2, 1), (2, 2)])
    );

    // Cells that were tried before do not join the frontier, but for those
    // on the lower margin
    let mut p = Polyomino::<T>::trivial();
    anti.set(0, 2);
    anti.set(2, 2);
    anti.set(1, 3);
    p.add_square(1, 2, &anti);
    assert_eq!(shown(&p), (2, (3, 4), vec![(1, 1), (1, 2)], vec![(0, 1), (0, 2), (1, 0), (2, 1)]));

    // In the middle of a larger polyomino nothing grows
    let mut p = Polyomino::<T>::trivial();
    let none = T::new();
    let mut none = none;
    none.reserve_space(6, 6);
    p.add_square(2, 1, &none);
    p.add_square(1, 2, &none);
    assert_eq!(p.dimension, (4, 4));
    p.add_square(2, 2, &none);
    assert_eq!(
        shown(&p),
        (
            4,
            (4, 4),
            vec![(1, 1), (1, 2), (2, 1), (2, 2)],
            vec![(0, 1), (0, 2), (1, 0), (1, 3), (2, 0), (2, 3), (3, 1), (3, 2)]
        )
    );
}

#[test]
fn add_square_naive() {
    check_add_square::<Naive>();
}

#[test]
fn add_square_board() {
    check_add_square::<Board>();
}

#[test]
fn add_square_block_grid() {
    check_add_square::<BlockGrid>();
}

fn check_decline_trivial<T: Grid>() {
    let p = Polyomino::<T>::trivial();
    let children = decline(&p);
    let all: Vec<_> = children.iter().map(|c| shown(c)).collect();
    assert_eq!(
        all,
        vec![
            (2, (4, 3), vec![(1, 1), (2, 1)], vec![(0, 1), (1, 0), (1, 2), (2, 0), (2, 2), (3, 1)]),
            (2, (3, 4), vec![(1, 1), (1, 2)], vec![(0, 1), (1, 0), (1, 3), (2, 1), (2, 2)]),
            (2, (3, 4), vec![(1, 1), (1, 2)], vec![(0, 2), (1, 3), (2, 1), (2, 2)]),
            (2, (4, 3), vec![(1, 1), (2, 1)], vec![(2, 0), (2, 2), (3, 1)]),
        ]
    );
    // The parent is left as it was
    assert_eq!(shown(&p), (1, (3, 3), vec![(1, 1)], vec![(0, 1), (1, 0), (1, 2), (2, 1)]));
}

#[test]
fn decline_trivial_naive() {
    check_decline_trivial::<Naive>();
}

#[test]
fn decline_trivial_board() {
    check_decline_trivial::<Board>();
}

#[test]
fn decline_trivial_block_grid() {
    check_decline_trivial::<BlockGrid>();
}

fn check_decline_domino<T: Grid>() {
    let first = decline(&Polyomino::<T>::trivial()).remove(0);
    let (domino, r) = smallest_rotation(first);
    assert_eq!(r, Rotation::R270);
    assert_eq!(
        shown(&domino),
        (2, (3, 4), vec![(1, 1), (1, 2)], vec![(0, 1), (0, 2), (1, 0), (1, 3), (2, 1), (2, 2)])
    );
    let all: Vec<_> = decline(&domino).iter().map(|c| shown(c)).collect();
    assert_eq!(
        all,
        vec![
            (
                3,
                (4, 4),
                vec![(1, 1), (2, 1), (2, 2)],
                vec![(0, 1), (1, 0), (1, 2), (2, 0), (2, 3), (3, 1), (3, 2)]
            ),
            (
                3,
                (4, 4),
                vec![(1, 2), (2, 1), (2, 2)],
                vec![(0, 2), (1, 3), (2, 0), (2, 3), (3, 1), (3, 2)]
            ),
            (
                3,
                (3, 5),
                vec![(1, 1), (1, 2), (1, 3)],
                vec![(0, 1), (1, 0), (1, 4), (2, 1), (2, 2), (2, 3)]
            ),
            (3, (3, 5), vec![(1, 1), (1, 2), (1, 3)], vec![(0, 3), (1, 4), (2, 1), (2, 2), (2, 3)]),
            (3, (4, 4), vec![(1, 1), (1, 2), (2, 1)], vec![(2, 0), (2, 2), (3, 1)]),
            (3, (4, 4), vec![(1, 1), (1, 2), (2, 2)], vec![(2, 3), (3, 2)]),
        ]
    );
}

#[test]
fn decline_domino_naive() {
    check_decline_domino::<Naive>();
}

#[test]
fn decline_domino_board() {
    check_decline_domino::<Board>();
}

#[test]
fn decline_domino_block_grid() {
    check_decline_domino::<BlockGrid>();
}

fn check_children<T: Grid>() {
    // Three generations: every child has one square more than its parent,
    // as many squares as it says, and no square on its frontier
    let mut generation = vec![Polyomino::<T>::trivial()];
    for _ in 0..3 {
        let mut next = vec![];
        for p in &generation {
            let frontier = p.mask.count() as usize;
            let children = decline(p);
            assert_eq!(children.len(), frontier);
            for c in children {
                assert_eq!(c.square_count, p.square_count + 1);
                assert_eq!(c.repr.count(), c.square_count as u32);
                let (_, dimension, repr, mask) = shown(&c);
                for cell in &mask {
                    assert!(!repr.contains(cell));
                    let (x, y) = *cell;
                    assert!(
                        repr.contains(&(x + 1, y))
                            || (x > 0 && repr.contains(&(x - 1, y)))
                            || repr.contains(&(x, y + 1))
                            || (y > 0 && repr.contains(&(x, y - 1)))
                    );
                }
                for &(x, y) in &repr {
                    assert!(1 <= x && x + 1 < dimension.0 as usize);
                    assert!(1 <= y && y + 1 < dimension.1 as usize);
                }
                next.push(c);
            }
        }
        generation = next;
    }
}

#[test]
fn children_naive() {
    check_children::<Naive>();
}

#[test]
fn children_board() {
    check_children::<Board>();
}

#[test]
fn children_block_grid() {
    check_children::<BlockGrid>();
}

fn check_smallest_rotation<T: Grid>() {
    // Where no rotation comes strictly first, the polyomino stays as it is
    let (p, r) = smallest_rotation(Polyomino::<T>::trivial());
    assert_eq!(r, Rotation::R0);
    assert_eq!(shown(&p), (1, (3, 3), vec![(1, 1)], vec![(0, 1), (1, 0), (1, 2), (2, 1)]));

    let domino = smallest_rotation(decline(&Polyomino::<T>::trivial()).remove(0)).0;
    let children = decline(&domino);
    let expected = [
        (
            Rotation::R90,
            (3, (4, 4), vec![(1, 2), (2, 1), (2, 2)], vec![(0, 2), (1, 1), (1, 3), (2, 0), (2, 3), (3, 1), (3, 2)]),
            Rotation::R0,
        ),
        (
            Rotation::R0,
            (3, (4, 4), vec![(1, 2), (2, 1), (2, 2)], vec![(0, 2), (1, 3), (2, 0), (2, 3), (3, 1), (3, 2)]),
            Rotation::R0,
        ),
        (
            Rotation::R0,
            (3, (3, 5), vec![(1, 1), (1, 2), (1, 3)], vec![(0, 1), (1, 0), (1, 4), (2, 1), (2, 2), (2, 3)]),
            Rotation::R0,
        ),
        (
            Rotation::R0,
            (3, (3, 5), vec![(1, 1), (1, 2), (1, 3)], vec![(0, 3), (1, 4), (2, 1), (2, 2), (2, 3)]),
            Rotation::R0,
        ),
        (Rotation::R180, (3, (4, 4), vec![(1, 2), (2, 1), (2, 2)], vec![(0, 2), (1, 1), (1, 3)]), Rotation::R0),
        (Rotation::R270, (3, (4, 4), vec![(1, 2), (2, 1), (2, 2)], vec![(2, 0), (3, 1)]), Rotation::R0),
    ];
    assert_eq!(children.len(), expected.len());
    for (child, (rotation, canonical, again)) in children.into_iter().zip(expected) {
        let (p, r) = smallest_rotation(child);
        assert_eq!(r, rotation);
        assert_eq!(shown(&p), canonical);
        assert!(p.dimension.0 <= p.dimension.1);
        let canonical = shown(&p);
        let (q, r) = smallest_rotation(p);
        assert_eq!(r, again);
        assert_eq!(r, Rotation::R0);
        assert_eq!(shown(&q), canonical);
    }
}

#[test]
fn smallest_rotation_naive() {
    check_smallest_rotation::<Naive>();
}

#[test]
fn smallest_rotation_board() {
    check_smallest_rotation::<Board>();
}

#[test]
fn smallest_rotation_block_grid() {
    check_smallest_rotation::<BlockGrid>();
}

fn check_wide_is_laid_on_its_side<T: Grid>() {
    // A row of three squares, wider than high
    let mut p = Polyomino::<T>::trivial();
    let mut anti = T::new();
    anti.reserve_space(8, 8);
    p.add_square(2, 1, &anti);
    p.add_square(3, 1, &anti);
    assert_eq!(p.dimension, (5, 3));
    let (q, r) = smallest_rotation(p);
    assert_eq!(q.dimension, (3, 5));
    assert_eq!(r, Rotation::R270);
    assert_eq!(cells_in(&q.repr, q.dimension), vec![(1, 1), (1, 2), (1, 3)]);
    assert_eq!(q.square_count, 3);
}

#[test]
fn wide_is_laid_on_its_side() {
    check_wide_is_laid_on_its_side::<Naive>();
    check_wide_is_laid_on_its_side::<Board>();
    check_wide_is_laid_on_its_side::<BlockGrid>();
}

fn check_from<T: Grid>() {
    let mut repr = T::new();
    repr.reserve_space(5, 5);
    repr.set(1, 1);
    repr.set(1, 2);
    repr.set(2, 2);
    let mut mask = T::new();
    mask.reserve_space(5, 5);
    mask.set(0, 1);
    let p = Polyomino::from((4, 4), repr, mask);
    assert_eq!(shown(&p), (3, (4, 4), vec![(1, 1), (1, 2), (2, 2)], vec![(0, 1)]));
}

#[test]
fn from_counts_the_squares() {
    check_from::<Naive>();
    check_from::<Board>();
    check_from::<BlockGrid>();
}

#[test]
fn representations_agree_on_growth() {
    let mut naive = vec![Polyomino::<Naive>::trivial()];
    let mut block = vec![Polyomino::<BlockGrid>::trivial()];
    let mut board = vec![Polyomino::<Board>::trivial()];
    for _ in 0..3 {
        let mut next_naive = vec![];
        let mut next_block = vec![];
        let mut next_board = vec![];
        for ((p, q), b) in naive.iter().zip(block.iter()).zip(board.iter()) {
            let mut anti_p = Naive::new();
            let mut anti_q = BlockGrid::new();
            let mut anti_b = Board::new();
            anti_q.reserve_space(p.dimension.0 as usize + 1, p.dimension.1 as usize + 1);
            for (x, y) in cells_in(&p.mask, p.dimension) {
                assert!(growths_agree(p, q, x, y, &anti_p, &anti_q));
                assert!(growths_agree(q, b, x, y, &anti_q, &anti_b));
                anti_p.set(x, y);
                anti_q.set(x, y);
                Grid::set(&mut anti_b, x, y);
            }
            for r in [Rotation::R0, Rotation::R90, Rotation::R180, Rotation::R270] {
                assert!(rotations_agree(&p.repr, &q.repr, p.dimension, r));
                assert!(rotations_agree(&p.mask, &b.mask, p.dimension, r));
            }
            next_naive.extend(decline(p));
            next_block.extend(decline(q));
            next_board.extend(decline(b));
        }
        assert_eq!(next_naive.len(), next_block.len());
        assert_eq!(next_naive.len(), next_board.len());
        naive = next_naive;
        block = next_block;
        board = next_board;
    }
    for ((p, q), b) in naive.iter().zip(block.iter()).zip(board.iter()) {
        assert_eq!(shown(p), shown(q));
        assert_eq!(shown(p), shown(b));
        let d = p.duplicate();
        assert_eq!(shown(&d), shown(p));
    }
}

fn check_canonical_form_is_unique<T: Grid>() {
    // An asymmetric polyomino of five squares, turned four ways
    let squares = [(1, 1), (1, 2), (1, 3), (2, 3), (3, 3)];
    let extra = [(2, 1)];
    for cells in [&squares[..], &[squares.as_slice(), extra.as_slice()].concat()[..]] {
        let mut forms = vec![];
        for r in [Rotation::R0, Rotation::R90, Rotation::R180, Rotation::R270] {
            let mut repr = T::new();
            repr.reserve_space(5, 5);
            for &(x, y) in cells {
                repr.set(x, y);
            }
            let mut mask = T::new();
            mask.reserve_space(5, 5);
            let start = Polyomino::from((5, 5), repr, mask);
            let turned = Polyomino::from((5, 5), start.repr.rotate((5, 5), r), start.mask.rotate((5, 5), r));
            let (canonical, _) = smallest_rotation(turned);
            let (again, rotation) = smallest_rotation(canonical.duplicate());
            assert_eq!(rotation, Rotation::R0);
            assert_eq!(shown(&again), shown(&canonical));
            forms.push(shown(&canonical));
        }
        assert_eq!(forms[0], forms[1]);
        assert_eq!(forms[0], forms[2]);
        assert_eq!(forms[0], forms[3]);
    }
}

#[test]
fn canonical_form_is_unique() {
    check_canonical_form_is_unique::<Naive>();
    check_canonical_form_is_unique::<Board>();
    check_canonical_form_is_unique::<BlockGrid>();
}

#[test]
fn canonical_form_is_the_smallest() {
    // The bent tromino in its four rotations: the canonical one comes
    // before the three others
    let cells = [(1, 1), (1, 2), (2, 1)];
    let mut repr = Naive::new();
    for &(x, y) in &cells {
        repr.set(x, y);
    }
    let p = Polyomino::from((4, 4), repr, Naive::new());
    let (canonical, _) = smallest_rotation(p.duplicate());
    let mut others = 0;
    for r in [Rotation::R0, Rotation::R90, Rotation::R180, Rotation::R270] {
        let turned = p.repr.rotate((4, 4), r);
        assert!(!turned.less_than(&canonical.repr));
        if canonical.repr.less_than(&turned) {
            others += 1;
        }
    }
    assert_eq!(others, 3);
    assert_eq!(cells_in(&canonical.repr, (4, 4)), vec![(1, 2), (2, 1), (2, 2)]);
}

#[test]
fn agreement_checks_tell_differences() {
    // Two grids that differ inside the portion, and outside of it
    let mut a = Naive::new();
    a.set(1, 1);
    a.set(6, 6);
    let mut b = BlockGrid::new();
    b.reserve_space(7, 7);
    b.set(1, 1);
    assert!(rotations_agree(&a, &b, (4, 4), Rotation::R90));
    assert!(!rotations_agree(&a, &b, (8, 8), Rotation::R90));
    b.set(2, 1);
    assert!(!rotations_agree(&a, &b, (4, 4), Rotation::R180));

    // The same polyomino grown against different records of tried cells
    let p = Polyomino::<Naive>::trivial();
    let q = Polyomino::<Board>::trivial();
    let anti_p = Naive::new();
    let mut anti_q = Board::new();
    assert!(growths_agree(&p, &q, 1, 2, &anti_p, &anti_q));
    Grid::set(&mut anti_q, 2, 2);
    assert!(!growths_agree(&p, &q, 1, 2, &anti_p, &anti_q));
    // and two different polyominoes grown on a cell that both have
    let mut wider = Polyomino::<Board>::trivial();
    wider.add_square(2, 1, &Board::new());
    assert!(!growths_agree(&p, &wider, 1, 2, &anti_p, &Board::new()));
}

fn check_small_shapes<T: Grid>() {
    // One square in the corner of a region of 2 x 1, its frontier beside it
    let mut repr = T::new();
    repr.set(0, 0);
    let mut mask = T::new();
    mask.set(1, 0);
    let (q, r) = smallest_rotation(Polyomino::from((2, 1), repr, mask));
    assert_eq!(r, Rotation::R270);
    assert_eq!(shown(&q), (1, (1, 2), vec![(0, 1)], vec![(0, 0)]));
    let (q, r) = smallest_rotation(q);
    assert_eq!(r, Rotation::R0);
    assert_eq!(shown(&q), (1, (1, 2), vec![(0, 1)], vec![(0, 0)]));

    // and of a region of 2 x 2
    let mut repr = T::new();
    repr.set(0, 0);
    let mut mask = T::new();
    mask.set(1, 0);
    let (q, r) = smallest_rotation(Polyomino::from((2, 2), repr, mask));
    assert_eq!(r, Rotation::R180);
    assert_eq!(shown(&q), (1, (2, 2), vec![(1, 1)], vec![(0, 1)]));
    let (q, r) = smallest_rotation(q);
    assert_eq!(r, Rotation::R0);
    assert_eq!(shown(&q), (1, (2, 2), vec![(1, 1)], vec![(0, 1)]));
}

#[test]
fn small_shapes() {
    check_small_shapes::<Naive>();
    check_small_shapes::<Board>();
    check_small_shapes::<BlockGrid>();
}

fn check_canonical_form_stays<T: Grid>() {
    // Three generations, canonical form after canonical form: the second
    // call turns none of them any further
    let mut generation = vec![Polyomino::<T>::trivial()];
    for _ in 0..3 {
        let mut next = vec![];
        for p in &generation {
            for child in decline(p) {
                let (canonical, _) = smallest_rotation(child);
                let before = shown(&canonical);
                let (again, r) = smallest_rotation(canonical);
                assert_eq!(r, Rotation::R0);
                assert_eq!(shown(&again), before);
                next.push(again);
            }
        }
        generation = next;
    }
}

#[test]
fn canonical_form_stays() {
    check_canonical_form_stays::<Naive>();
    check_canonical_form_stays::<Board>();
    check_canonical_form_stays::<BlockGrid>();
}
