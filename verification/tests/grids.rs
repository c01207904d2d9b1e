use polyominos::board::Board;
use polyominos::grid::{are_equal, transfer, Grid};
use polyominos::grids::block_grid::BlockGrid;
use polyominos::grids::naive::Naive;
use polyominos::rotation::Rotation;

/// A grid with the given cells, and room for a `w x h` rectangle.
fn grid_of<T: Grid>(cells: &[(usize, usize)], w: usize, h: usize) -> T {
    let mut g = T::new();
    g.reserve_space(w - 1, h - 1);
    for &(x, y) in cells {
        g.set(x, y);
    }
    g
}

/// The cells of a grid, in reading order.
fn cells_of<T: Grid>(g: &T) -> Vec<(usize, usize)> {
    let (w, h) = g.get_bounding_box();
    let mut cells = vec![];
    for x in 0..w {
        for y in 0..h {
            if g.get(x, y) {
                cells.push((x, y));
            }
        }
    }
    cells
}

/// Some cells inside a `w x h` rectangle, different for each seed.
fn some_cells(seed: u64, w: usize, h: usize) -> Vec<(usize, usize)> {
    let mut state = seed.wrapping_mul(6364136223846793005).wrapping_add(1442695040888963407);
    let mut cells = vec![];
    for x in 0..w {
        for y in 0..h {
            state = state.wrapping_mul(6364136223846793005).wrapping_add(1442695040888963407);
            if (state >> 33) % 3 == 0 {
                cells.push((x, y));
            }
        }
    }
    cells
}

fn rotated_cells(cells: &[(usize, usize)], w: usize, h: usize, r: Rotation) -> Vec<(usize, usize)> {
    let mut out: Vec<(usize, usize)> = cells
        .iter()
        .filter(|&&(x, y)| x < w && y < h)
        .map(|&(x, y)| match r {
            Rotation::R0 => (x, y),
            Rotation::R90 => (h - 1 - y, x),
            Rotation::R180 => (w - 1 - x, h - 1 - y),
            Rotation::R270 => (y, w - 1 - x),
        })
        .collect();
    out.sort();
    out
}

fn check_set_get_count<T: Grid>() {
    let mut g = T::new();
    assert_eq!(g.get_bounding_box(), (0, 0));
    assert_eq!(g.count(), 0);
    g.reserve_space(9, 6);
    assert_eq!(g.count(), 0);
    assert!(!g.get(9, 6));
    g.set(9, 6);
    g.set(0, 0);
    g.set(3, 4);
    g.set(3, 4);
    assert!(g.get(9, 6));
    assert!(g.get(0, 0));
    assert!(g.get(3, 4));
    assert!(!g.get(4, 3));
    assert_eq!(g.count(), 3);
    assert_eq!(g.get_bounding_box(), (10, 7));
    g.unset(9, 6);
    g.unset(5, 5);
    assert!(!g.get(9, 6));
    assert_eq!(g.count(), 2);
    assert_eq!(g.get_bounding_box(), (4, 5));
    assert_eq!(cells_of(&g), vec![(0, 0), (3, 4)]);
}

#[test]
fn naive_set_get_count() {
    check_set_get_count::<Naive>();
}

#[test]
fn board_set_get_count() {
    check_set_get_count::<Board>();
}

#[test]
fn block_grid_set_get_count() {
    check_set_get_count::<BlockGrid>();
}

fn check_shift<T: Grid>() {
    // Room for 8 x 8 cells in every representation; the tiled grid has
    // exactly that
    let start = [(0, 0), (2, 1), (7, 7), (3, 4), (4, 3)];
    let mut g: T = grid_of(&start, 8, 8);
    g.shift_x(1);
    assert_eq!(g.get(8 - 1, 7), false);
    let mut shown: Vec<(usize, usize)> =
        cells_of(&g).into_iter().filter(|&(x, y)| x < 8 && y < 8).collect();
    shown.sort();
    assert_eq!(shown, vec![(1, 0), (3, 1), (4, 4), (5, 3)]);

    let mut g: T = grid_of(&start, 8, 8);
    g.shift_x(-3);
    assert_eq!(cells_of(&g), vec![(0, 4), (1, 3), (4, 7)]);

    let mut g: T = grid_of(&start, 8, 8);
    g.shift_y(2);
    let mut shown: Vec<(usize, usize)> =
        cells_of(&g).into_iter().filter(|&(x, y)| x < 8 && y < 8).collect();
    shown.sort();
    assert_eq!(shown, vec![(0, 2), (2, 3), (3, 6), (4, 5)]);

    let mut g: T = grid_of(&start, 8, 8);
    g.shift_y(-1);
    assert_eq!(cells_of(&g), vec![(2, 0), (3, 3), (4, 2), (7, 6)]);

    let mut g: T = grid_of(&start, 8, 8);
    g.shift_x(0);
    g.shift_y(0);
    assert_eq!(cells_of(&g), vec![(0, 0), (2, 1), (3, 4), (4, 3), (7, 7)]);
}

#[test]
fn naive_shift() {
    check_shift::<Naive>();
}

#[test]
fn board_shift() {
    check_shift::<Board>();
}

#[test]
fn block_grid_shift() {
    check_shift::<BlockGrid>();
}

#[test]
fn block_grid_shift_drops_what_leaves_the_blocks() {
    let mut g: BlockGrid = grid_of(&[(7, 2), (6, 2)], 8, 4);
    g.shift_x(1);
    assert_eq!(cells_of(&g), vec![(7, 2)]);
    g.reserve_space(8, 0);
    assert!(!g.get(8, 2));
}

#[test]
fn naive_shift_keeps_what_stays_on_the_board() {
    let mut g: Naive = grid_of(&[(7, 2), (6, 2), (31, 0)], 8, 4);
    g.shift_x(1);
    assert_eq!(cells_of(&g), vec![(7, 2), (8, 2)]);
    g.shift_x(-32);
    assert_eq!(g.count(), 0);
}

#[test]
fn board_shift_by_the_whole_board_empties_it() {
    let mut g: Board = grid_of(&[(7, 2), (6, 2), (31, 31)], 8, 4);
    g.shift_y(32);
    assert_eq!(Grid::count(&g), 0);
    let mut g: Board = grid_of(&[(7, 2), (6, 2), (31, 31)], 8, 4);
    g.shift_y(-31);
    assert_eq!(cells_of(&g), vec![(31, 0)]);
    g.shift_x(-31);
    assert_eq!(cells_of(&g), vec![(0, 0)]);
    g.shift_x(31);
    g.shift_y(31);
    assert_eq!(cells_of(&g), vec![(31, 31)]);
}

fn check_rotate<T: Grid>(limit: usize) {
    let rotations = [Rotation::R0, Rotation::R90, Rotation::R180, Rotation::R270];
    let mut seed = 1;
    for (w, h) in [(1, 1), (3, 3), (4, 4), (3, 5), (5, 3), (8, 8), (7, 13), (13, 7), (16, 1), (limit, limit - 3)] {
        for _ in 0..4 {
            seed += 1;
            let cells = some_cells(seed, w, h);
            let g: T = grid_of(&cells, w, h);
            for r in rotations {
                let turned = g.rotate((w as u8, h as u8), r);
                assert_eq!(
                    cells_of(&turned),
                    rotated_cells(&cells, w, h, r),
                    "rotating {:?} of dimension {:?} by {:?}",
                    cells,
                    (w, h),
                    r
                );
                assert_eq!(cells_of(&g), cells);
            }
        }
    }
}

#[test]
fn naive_rotate() {
    check_rotate::<Naive>(32);
}

#[test]
fn board_rotate() {
    check_rotate::<Board>(32);
}

#[test]
fn block_grid_rotate() {
    check_rotate::<BlockGrid>(40);
}

fn check_rotate_leaves_out_what_is_outside<T: Grid>() {
    // The grid reaches up to four cells beyond the region that is turned
    let cells = [(0, 0), (1, 2), (2, 1), (5, 0), (0, 5), (6, 6), (3, 3), (4, 4), (7, 2)];
    let g: T = grid_of(&cells, 8, 8);
    for r in [Rotation::R0, Rotation::R90, Rotation::R180, Rotation::R270] {
        for dim in [(4, 4), (5, 6), (7, 4), (8, 8)] {
            let turned = g.rotate(dim, r);
            assert_eq!(
                cells_of(&turned),
                rotated_cells(&cells, dim.0 as usize, dim.1 as usize, r)
            );
        }
    }
    let narrow: T = grid_of(&[(3, 1), (0, 7)], 4, 8);
    let nothing = narrow.rotate((0, 6), Rotation::R90);
    assert_eq!(nothing.count(), 0);
    // The exact mapping on one cell: (1, 2) in a region of 3 x 4
    assert_eq!(cells_of(&grid_of::<T>(&[(1, 2)], 4, 4).rotate((3, 4), Rotation::R90)), vec![(1, 1)]);
    assert_eq!(cells_of(&grid_of::<T>(&[(1, 2)], 4, 4).rotate((3, 4), Rotation::R180)), vec![(1, 1)]);
    assert_eq!(cells_of(&grid_of::<T>(&[(1, 2)], 4, 4).rotate((3, 4), Rotation::R270)), vec![(2, 1)]);
    assert_eq!(cells_of(&grid_of::<T>(&[(0, 0)], 4, 4).rotate((3, 4), Rotation::R90)), vec![(3, 0)]);
    assert_eq!(cells_of(&grid_of::<T>(&[(0, 0)], 4, 4).rotate((3, 4), Rotation::R270)), vec![(0, 2)]);
}

fn check_new_grid_is_ready<T: Grid>() {
    // A new grid can be written to over 4 x 4 cells, and turned
    let mut g = T::new();
    g.set(0, 0);
    let o = g.rotate((3, 3), Rotation::R180);
    assert_eq!(o.count(), 1);
    assert!(o.get(2, 2));
    assert_eq!(o.get_bounding_box(), (3, 3));
    assert_eq!(cells_of(&g), vec![(0, 0)]);
    g.set(3, 3);
    assert!(g.get(3, 3));
    assert_eq!(g.count(), 2);
}

#[test]
fn new_grid_is_ready() {
    check_new_grid_is_ready::<Naive>();
    check_new_grid_is_ready::<Board>();
    check_new_grid_is_ready::<BlockGrid>();
}

#[test]
fn naive_rotate_leaves_out_what_is_outside() {
    check_rotate_leaves_out_what_is_outside::<Naive>();
}

#[test]
fn board_rotate_leaves_out_what_is_outside() {
    check_rotate_leaves_out_what_is_outside::<Board>();
}

#[test]
fn block_grid_rotate_leaves_out_what_is_outside() {
    check_rotate_leaves_out_what_is_outside::<BlockGrid>();
}

fn check_rotation_laws<T: Grid>() {
    for seed in 0..8 {
        let (w, h) = (5 + seed as usize, 9);
        let cells = some_cells(100 + seed, w, h);
        let g: T = grid_of(&cells, w, h);
        let d = (w as u8, h as u8);
        let t = (h as u8, w as u8);
        let once = g.rotate(d, Rotation::R90);
        let twice = once.rotate(t, Rotation::R90);
        let thrice = twice.rotate(d, Rotation::R90);
        let full = thrice.rotate(t, Rotation::R90);
        assert!(twice.same_cells(&g.rotate(d, Rotation::R180)));
        assert!(thrice.same_cells(&g.rotate(d, Rotation::R270)));
        assert!(full.same_cells(&g));
        assert_eq!(cells_of(&full), cells);
    }
}

#[test]
fn naive_rotation_laws() {
    check_rotation_laws::<Naive>();
}

#[test]
fn board_rotation_laws() {
    check_rotation_laws::<Board>();
}

#[test]
fn block_grid_rotation_laws() {
    check_rotation_laws::<BlockGrid>();
}

/// The order of the grids, spelled out: cell by cell in reading order.
fn comes_before(a: &[(usize, usize)], b: &[(usize, usize)]) -> bool {
    for x in 0..64 {
        for y in 0..64 {
            let in_a = a.contains(&(x, y));
            let in_b = b.contains(&(x, y));
            if in_a != in_b {
                return in_b;
            }
        }
    }
    false
}

fn check_order<T: Grid>() {
    let mut sets = vec![
        vec![],
        vec![(0, 0)],
        vec![(0, 1)],
        vec![(0, 0), (0, 1)],
        vec![(1, 0)],
        vec![(0, 3), (1, 0)],
        vec![(0, 31)],
        vec![(5, 5), (5, 6)],
        vec![(5, 5), (6, 0)],
        vec![(4, 9), (5, 5)],
    ];
    for seed in 0..6 {
        sets.push(some_cells(seed, 9, 11));
    }
    for a in &sets {
        for b in &sets {
            let ga: T = grid_of(a, 12, 32);
            // The second grid has reserved another amount of space
            let gb: T = grid_of(b, 16, 32);
            assert_eq!(ga.less_than(&gb), comes_before(a, b), "{:?} before {:?}", a, b);
            assert_eq!(ga.same_cells(&gb), a == b, "{:?} same as {:?}", a, b);
            assert!(!(ga.less_than(&gb) && gb.less_than(&ga)));
            assert!(ga.less_than(&gb) || gb.less_than(&ga) || ga.same_cells(&gb));
        }
    }
}

#[test]
fn naive_order() {
    check_order::<Naive>();
}

#[test]
fn board_order() {
    check_order::<Board>();
}

#[test]
fn block_grid_order() {
    check_order::<BlockGrid>();
}

#[test]
fn order_reads_a_column_from_the_bottom() {
    // In column 0 the grids differ first in row 0, which only the second
    // has, although the first has the higher row
    let a: Board = grid_of(&[(0, 5)], 8, 8);
    let b: Board = grid_of(&[(0, 0)], 8, 8);
    assert!(a.less_than(&b));
    assert!(!b.less_than(&a));
    let a: BlockGrid = grid_of(&[(0, 5)], 8, 8);
    let b: BlockGrid = grid_of(&[(0, 0)], 8, 8);
    assert!(a.less_than(&b));
    assert!(!b.less_than(&a));
    let a: Naive = grid_of(&[(0, 5)], 8, 8);
    let b: Naive = grid_of(&[(0, 0)], 8, 8);
    assert!(a.less_than(&b));
    assert!(!b.less_than(&a));
}

fn check_merge_and_duplicate<T: Grid>() {
    let a = [(0, 0), (2, 3), (5, 1)];
    let b = [(2, 3), (9, 9), (1, 0)];
    let mut ga: T = grid_of(&a, 6, 4);
    let gb: T = grid_of(&b, 10, 10);
    let copy = ga.duplicate();
    ga.merge(&gb);
    assert_eq!(cells_of(&ga), vec![(0, 0), (1, 0), (2, 3), (5, 1), (9, 9)]);
    assert_eq!(cells_of(&gb), vec![(1, 0), (2, 3), (9, 9)]);
    assert_eq!(cells_of(&copy), vec![(0, 0), (2, 3), (5, 1)]);
    assert_eq!(ga.count(), 5);
}

#[test]
fn naive_merge_and_duplicate() {
    check_merge_and_duplicate::<Naive>();
}

#[test]
fn board_merge_and_duplicate() {
    check_merge_and_duplicate::<Board>();
}

#[test]
fn block_grid_merge_and_duplicate() {
    check_merge_and_duplicate::<BlockGrid>();
}

#[test]
fn block_grid_reserve_space_keeps_the_cells() {
    let cells = vec![(0, 0), (1, 3), (3, 1), (3, 3)];
    // no growth
    let mut g: BlockGrid = grid_of(&cells, 4, 4);
    g.reserve_space(3, 3);
    assert_eq!(cells_of(&g), cells);
    // columns only
    let mut g: BlockGrid = grid_of(&cells, 4, 4);
    g.reserve_space(11, 3);
    assert_eq!(cells_of(&g), cells);
    g.set(11, 3);
    assert!(g.get(11, 3));
    // rows only, with more than one column to move
    let mut more = cells.clone();
    more.push((6, 2));
    more.push((9, 0));
    let mut g: BlockGrid = grid_of(&more, 12, 4);
    g.reserve_space(3, 12);
    assert_eq!(cells_of(&g), vec![(0, 0), (1, 3), (3, 1), (3, 3), (6, 2), (9, 0)]);
    g.set(11, 12);
    assert_eq!(g.count(), 7);
    assert_eq!(g.get_bounding_box(), (12, 13));
    // both
    let mut g: BlockGrid = grid_of(&more, 12, 4);
    g.reserve_space(20, 9);
    assert_eq!(cells_of(&g), vec![(0, 0), (1, 3), (3, 1), (3, 3), (6, 2), (9, 0)]);
    g.set(20, 9);
    g.set(0, 9);
    g.set(20, 0);
    assert_eq!(g.count(), 9);
}

#[test]
fn transfer_and_are_equal() {
    for seed in 0..6 {
        let cells = some_cells(200 + seed, 11, 9);
        let naive: Naive = grid_of(&cells, 11, 9);
        let block: BlockGrid = transfer(&naive);
        let board: Board = transfer(&block);
        let back: Naive = transfer(&board);
        assert_eq!(cells_of(&block), cells);
        assert_eq!(cells_of(&board), cells);
        assert!(are_equal(&naive, &block));
        assert!(are_equal(&block, &board));
        assert!(are_equal(&board, &back));
        let mut other = transfer::<Naive, BlockGrid>(&naive);
        other.reserve_space(12, 12);
        other.set(12, 3);
        assert!(!are_equal(&naive, &other));
        other.unset(12, 3);
        assert!(are_equal(&naive, &other));
        if let Some(&(x, y)) = cells.first() {
            other.unset(x, y);
            assert!(!are_equal(&naive, &other));
        }
    }
    let empty: BlockGrid = transfer(&Naive::new());
    assert_eq!(empty.count(), 0);
    assert!(are_equal(&empty, &Board::new()));
}

#[test]
fn representations_agree_on_rotations() {
    let rotations = [Rotation::R0, Rotation::R90, Rotation::R180, Rotation::R270];
    for seed in 0..10 {
        let (w, h) = (3 + (seed as usize * 3) % 17, 3 + (seed as usize * 5) % 19);
        let cells = some_cells(300 + seed, w, h);
        let naive: Naive = grid_of(&cells, w, h);
        let block: BlockGrid = grid_of(&cells, w, h);
        let board: Board = grid_of(&cells, w, h);
        for r in rotations {
            let witness = naive.rotate((w as u8, h as u8), r);
            assert!(are_equal(&witness, &block.rotate((w as u8, h as u8), r)));
            assert!(are_equal(&witness, &Grid::rotate(&board, (w as u8, h as u8), r)));
        }
    }
}

#[test]
fn board_sub_takes_cells_out() {
    let mut a: Board = grid_of(&[(0, 0), (2, 3), (5, 1), (31, 31)], 8, 8);
    let b: Board = grid_of(&[(2, 3), (9, 9), (31, 31)], 10, 10);
    a.sub(&b);
    assert_eq!(cells_of(&a), vec![(0, 0), (5, 1)]);
    assert_eq!(Board::count(&a), 2);
}

#[test]
fn board_inherent_functions() {
    let mut b = Board::new();
    assert_eq!(b.count(), 0);
    b.set(3, 30);
    b.set(0, 0);
    assert!(b.get(3, 30));
    assert!(!b.get(30, 3));
    b.shift_x(2);
    b.shift_y(-1);
    assert!(b.get(5, 29));
    assert!(!b.get(2, 0));
    assert_eq!(b.count(), 1);
    let turned = b.rotate((8, 32), &Rotation::R180);
    assert_eq!(cells_of(&turned), vec![(2, 2)]);
    b.unset(5, 29);
    assert_eq!(b.count(), 0);
}

#[test]
fn board_count_counts_every_bit() {
    let mut b = Board::new();
    for x in 0..32 {
        for y in 0..32 {
            if (x + 2 * y) % 3 == 0 {
                b.set(x, y);
            }
        }
    }
    let mut expected = 0;
    for x in 0..32 {
        for y in 0..32 {
            if (x + 2 * y) % 3 == 0 {
                expected += 1;
            }
        }
    }
    assert_eq!(b.count(), expected);
    assert_eq!(Grid::get_bounding_box(&b), (32, 32));
}

#[test]
fn block_grid_count_counts_every_block() {
    let mut g = BlockGrid::new();
    g.reserve_space(39, 22);
    let mut expected = 0;
    for x in 0..40 {
        for y in 0..23 {
            if (3 * x + y) % 5 == 1 {
                g.set(x, y);
                expected += 1;
            }
        }
    }
    assert_eq!(g.count(), expected);
    assert_eq!(g.get_bounding_box(), (40, 23));
}
