use polyominos::grid::Grid;
use polyominos::grids::naive::Naive;

#[test]
fn test_naive_dim() {
    assert_eq!(Naive::new().get_bounding_box(), (0, 0));

    let mut grid = Naive::new();
    grid.set(1, 2);
    assert_eq!(grid.get_bounding_box(), (2, 3));

    grid.set(2, 1);
    assert_eq!(grid.get_bounding_box(), (3, 3));

    grid.unset(1, 2);
    assert_eq!(grid.get_bounding_box(), (3, 2));
}
