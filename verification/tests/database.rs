use polyominos::board::Board;
use polyominos::database::Database;
use polyominos::enumeration::{can_grow, enumerate as enumerate_all, expand};
use polyominos::grid::Grid;
use polyominos::grids::block_grid::BlockGrid;
use polyominos::grids::naive::Naive;
use polyominos::polyomino::{decline, smallest_rotation, Polyomino};

type Cells = Vec<(usize, usize)>;

fn cells_in<T: Grid>(g: &T, dimension: (u8, u8)) -> Cells {
    let mut cells = vec![];
    for x in 0..dimension.0 as usize {
        for y in 0..dimension.1 as usize {
            if g.get(x, y) {
                cells.push((x, y));
            }
        }
    }
    cells
}

/// A polyomino with the given squares and frontier.
fn shape<T: Grid>(dimension: (u8, u8), squares: &[(usize, usize)], frontier: &[(usize, usize)]) -> Polyomino<T> {
    let mut repr = T::new();
    repr.reserve_space(dimension.0 as usize, dimension.1 as usize);
    for &(x, y) in squares {
        repr.set(x, y);
    }
    let mut mask = T::new();
    mask.reserve_space(dimension.0 as usize, dimension.1 as usize);
    for &(x, y) in frontier {
        mask.set(x, y);
    }
    Polyomino::from(dimension, repr, mask)
}

fn check_new<T: Grid>() {
    let mut db = Database::<T>::new();
    assert_eq!(db.counts(), &[1]);
    assert_eq!(db.stats(), &[1, 0]);
    assert_eq!(db.count(1), Some(&1));
    assert_eq!(db.count(2), None);
    assert_eq!(db.count(7), None);
    assert_eq!(db.pending(), 1);
    let p = db.pop().unwrap();
    assert_eq!(p.square_count, 1);
    assert_eq!(p.dimension, (3, 3));
    assert_eq!(cells_in(&p.repr, p.dimension), vec![(1, 1)]);
    assert_eq!(cells_in(&p.mask, p.dimension), vec![(0, 1), (1, 0), (1, 2), (2, 1)]);
    assert_eq!(db.pending(), 0);
    assert!(db.pop().is_none());
    assert!(db.pop().is_none());
    assert_eq!(db.counts(), &[1]);
    assert_eq!(db.stats(), &[1, 0]);
}

#[test]
fn new_database() {
    check_new::<Naive>();
    check_new::<Board>();
    check_new::<BlockGrid>();
}

fn check_register_twice<T: Grid>() {
    let mut db = Database::<T>::new();
    db.pop();
    db.register(shape((3, 4), &[(1, 1), (1, 2)], &[(0, 1), (1, 0)]));
    assert_eq!(db.stats(), &[1, 1]);
    db.register(shape((3, 4), &[(1, 1), (1, 2)], &[(1, 0), (2, 2), (1, 3)]));
    assert_eq!(db.stats(), &[1, 2]);
    assert_eq!(db.counts(), &[1]);
    assert_eq!(db.pending(), 0);
    db.flush();
    assert_eq!(db.counts(), &[1, 1]);
    assert_eq!(db.stats(), &[1, 2, 0]);
    assert_eq!(db.count(2), Some(&1));
    assert_eq!(db.pending(), 1);
    let p = db.pop().unwrap();
    assert_eq!(p.square_count, 2);
    assert_eq!(p.dimension, (3, 4));
    assert_eq!(cells_in(&p.repr, p.dimension), vec![(1, 1), (1, 2)]);
    assert_eq!(cells_in(&p.mask, p.dimension), vec![(0, 1), (1, 0), (1, 3), (2, 2)]);
    assert!(db.pop().is_none());
    // The cache is empty after the flush
    db.flush();
    assert_eq!(db.counts(), &[1, 1, 0]);
    assert_eq!(db.stats(), &[1, 2, 0, 0]);
}

#[test]
fn register_twice_naive() {
    check_register_twice::<Naive>();
}

#[test]
fn register_twice_board() {
    check_register_twice::<Board>();
}

#[test]
fn register_twice_block_grid() {
    check_register_twice::<BlockGrid>();
}

fn check_flush_order<T: Grid>() {
    let mut db = Database::<T>::new();
    db.pop();
    // The same squares under another dimension are another polyomino
    db.register(shape((4, 4), &[(1, 1), (1, 2), (2, 2)], &[(0, 1)]));
    db.register(shape((3, 5), &[(1, 1), (1, 2), (1, 3)], &[(0, 2)]));
    db.register(shape((4, 4), &[(1, 2), (2, 1), (2, 2)], &[(0, 2)]));
    db.register(shape((4, 5), &[(1, 1), (1, 2), (2, 2)], &[(2, 1)]));
    db.register(shape((4, 4), &[(1, 1), (1, 2), (2, 2)], &[(2, 1)]));
    db.register(shape((3, 4), &[(1, 1), (1, 2)], &[(1, 0)]));
    assert_eq!(db.stats(), &[1, 6]);
    db.flush();
    assert_eq!(db.counts(), &[1, 5]);
    assert_eq!(db.stats(), &[1, 6, 0]);
    let mut queued = vec![];
    while let Some(p) = db.pop() {
        queued.push((p.square_count, p.dimension, cells_in(&p.repr, p.dimension), cells_in(&p.mask, p.dimension)));
    }
    // By dimension, and in the order of arrival within a dimension
    assert_eq!(
        queued,
        vec![
            (2, (3, 4), vec![(1, 1), (1, 2)], vec![(1, 0)]),
            (3, (3, 5), vec![(1, 1), (1, 2), (1, 3)], vec![(0, 2)]),
            (3, (4, 4), vec![(1, 1), (1, 2), (2, 2)], vec![(0, 1), (2, 1)]),
            (3, (4, 4), vec![(1, 2), (2, 1), (2, 2)], vec![(0, 2)]),
            (3, (4, 5), vec![(1, 1), (1, 2), (2, 2)], vec![(2, 1)]),
        ]
    );
}

#[test]
fn flush_order_naive() {
    check_flush_order::<Naive>();
}

#[test]
fn flush_order_board() {
    check_flush_order::<Board>();
}

#[test]
fn flush_order_block_grid() {
    check_flush_order::<BlockGrid>();
}

/// Drive the enumeration until the polyominoes of `sizes` sizes have been
/// counted.
fn enumerate<T: Grid>(sizes: usize) -> (Vec<u128>, Vec<u128>) {
    let mut db = Database::<T>::new();
    loop {
        let p = match db.pop() {
            None => {
                assert_eq!(db.pending(), 0);
                db.flush();
                if db.counts().len() == sizes {
                    break;
                }
                continue;
            }
            Some(p) => p,
        };
        for child in decline(&p) {
            let (smallest, _) = smallest_rotation(child);
            db.register(smallest);
        }
    }
    (db.counts().to_vec(), db.stats().to_vec())
}

#[test]
fn enumeration_naive() {
    let (counts, stats) = enumerate::<Naive>(7);
    assert_eq!(counts, vec![1, 1, 2, 7, 18, 60, 196]);
    assert_eq!(stats, vec![1, 4, 6, 14, 49, 145, 541, 0]);
}

#[test]
fn enumeration_board() {
    let (counts, stats) = enumerate::<Board>(7);
    assert_eq!(counts, vec![1, 1, 2, 7, 18, 60, 196]);
    assert_eq!(stats, vec![1, 4, 6, 14, 49, 145, 541, 0]);
}

#[test]
fn enumeration_block_grid() {
    let (counts, stats) = enumerate::<BlockGrid>(8);
    assert_eq!(counts, vec![1, 1, 2, 7, 18, 60, 196, 704]);
    assert_eq!(stats, vec![1, 4, 6, 14, 49, 145, 541, 1979, 0]);
}

#[test]
fn enumeration_first_sizes() {
    // One domino, then the straight and the bent tromino
    let (counts, stats) = enumerate::<BlockGrid>(3);
    assert_eq!(counts, vec![1, 1, 2]);
    assert_eq!(stats, vec![1, 4, 6, 0]);
}

#[test]
fn enumerate_counts_the_sizes() {
    let (db, complete) = enumerate_all::<BlockGrid>(7);
    assert!(complete);
    assert_eq!(db.counts(), &[1, 1, 2, 7, 18, 60, 196]);
    assert_eq!(db.stats(), &[1, 4, 6, 14, 49, 145, 541, 0]);
    assert_eq!(db.pending(), 196);
    let (db, complete) = enumerate_all::<Naive>(5);
    assert!(complete);
    assert_eq!(db.counts(), &[1, 1, 2, 7, 18]);
    let (db, complete) = enumerate_all::<Board>(1);
    assert!(complete);
    assert_eq!(db.counts(), &[1]);
    assert_eq!(db.stats(), &[1, 0]);
    assert_eq!(db.pending(), 1);
    let (db, complete) = enumerate_all::<Board>(0);
    assert!(complete);
    assert_eq!(db.counts(), &[1]);
}

#[test]
fn expand_registers_the_children() {
    let mut db = Database::<BlockGrid>::new();
    let p = db.pop().unwrap();
    assert!(can_grow(&p));
    expand(&mut db, &p);
    assert_eq!(db.stats(), &[1, 4]);
    assert_eq!(db.counts(), &[1]);
    db.flush();
    assert_eq!(db.counts(), &[1, 1]);
    let domino = db.pop().unwrap();
    assert_eq!(domino.dimension, (3, 4));
    assert_eq!(cells_in(&domino.repr, domino.dimension), vec![(1, 1), (1, 2)]);
    // The frontier of the domino is what its four ways of growth leave of it
    assert_eq!(
        cells_in(&domino.mask, domino.dimension),
        vec![(0, 1), (0, 2), (1, 0), (1, 3), (2, 1), (2, 2)]
    );
}

#[test]
fn enumeration_stops_where_the_grid_ends() {
    // The straight polyomino of 29 squares is as long as the dense grid
    // lets a polyomino be that is to grow
    let mut repr = Naive::new();
    let mut mask = Naive::new();
    for y in 1..30 {
        repr.set(1, y);
        mask.set(0, y);
        mask.set(2, y);
    }
    mask.set(1, 0);
    mask.set(1, 30);
    let long = Polyomino::from((3, 31), repr, mask);
    assert_eq!(long.square_count, 29);
    assert!(!can_grow(&long));
    let mut repr = Naive::new();
    repr.set(1, 1);
    let short = Polyomino::from((3, 30), repr, Naive::new());
    assert!(can_grow(&short));
}

#[test]
fn front_shows_the_next_polyomino() {
    let mut db = Database::<Board>::new();
    {
        let p = db.front().unwrap();
        assert_eq!(p.square_count, 1);
        assert_eq!(p.dimension, (3, 3));
    }
    assert_eq!(db.pending(), 1);
    db.pop();
    assert!(db.front().is_none());
}

fn check_small_shapes_share_a_key<T: Grid>() {
    let mut db = Database::<T>::new();
    db.pop();
    for frontier in [(1, 0), (0, 1)] {
        let mut repr = T::new();
        repr.set(0, 0);
        let mut mask = T::new();
        mask.set(frontier.0, frontier.1);
        db.register(Polyomino::from((2, 2), repr, mask));
    }
    db.flush();
    let s = db.pop().unwrap();
    assert_eq!(s.dimension, (2, 2));
    assert_eq!(s.square_count, 1);
    assert_eq!(cells_in(&s.repr, s.dimension), vec![(0, 0)]);
    assert_eq!(cells_in(&s.mask, s.dimension), vec![(0, 1), (1, 0)]);
    assert!(db.pop().is_none());
    assert_eq!(db.counts(), &[1, 1]);
    assert_eq!(db.stats(), &[1, 2, 0]);
}

#[test]
fn small_shapes_share_a_key() {
    check_small_shapes_share_a_key::<Naive>();
    check_small_shapes_share_a_key::<Board>();
    check_small_shapes_share_a_key::<BlockGrid>();
}
