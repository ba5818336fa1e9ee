use stardew::grid::Grid;

#[test]
fn new_grid_holds_default_values() {
    let grid: Grid<u32> = Grid::new(2, 3);
    assert_eq!(grid.rows(), 2);
    assert_eq!(grid.cols(), 3);
    for row in 0..2 {
        for col in 0..3 {
            assert_eq!(*grid.get(row, col), 0);
        }
    }
}

#[test]
fn set_then_get_reads_back_row_major() {
    let mut grid: Grid<u32> = Grid::new(2, 3);
    grid.set(1, 2, 7);
    assert_eq!(*grid.get(1, 2), 7);
    assert_eq!(*grid.get_by_index(5), 7);
    assert_eq!(*grid.get(0, 2), 0);
    grid.set_by_index(3, 9);
    assert_eq!(*grid.get(1, 0), 9);
}

#[test]
fn replace_by_index_returns_old_value() {
    let mut grid: Grid<u32> = Grid::new(1, 4);
    grid.set_by_index(2, 5);
    assert_eq!(grid.replace_by_index(2, 6), 5);
    assert_eq!(*grid.get_by_index(2), 6);
}

#[test]
fn get_mut_writes_through() {
    let mut grid: Grid<u32> = Grid::new(3, 2);
    *grid.get_mut(2, 1) = 11;
    *grid.get_mut_by_index(0) = 4;
    assert_eq!(*grid.get(2, 1), 11);
    assert_eq!(*grid.get(0, 0), 4);
}

#[test]
fn enumerate_iter_visits_cells_in_row_major_order() {
    let mut grid: Grid<usize> = Grid::new(2, 3);
    for i in 0..6 {
        grid.set_by_index(i, i * 10);
    }
    let mut it = grid.enumerate_iter();
    let mut seen = Vec::new();
    while let Some(((row, col), value)) = it.next() {
        seen.push((row, col, *value));
    }
    assert_eq!(
        seen,
        vec![(0, 0, 0), (0, 1, 10), (0, 2, 20), (1, 0, 30), (1, 1, 40), (1, 2, 50)]
    );
    assert!(it.next().is_none());
}

#[test]
fn enumerate_iter_on_empty_grids_yields_nothing() {
    let grid: Grid<u8> = Grid::new(0, 4);
    assert!(grid.enumerate_iter().next().is_none());
    let grid: Grid<u8> = Grid::new(3, 0);
    assert!(grid.enumerate_iter().next().is_none());
}

#[test]
fn enumerate_iter_sparse_skips_empty_cells() {
    let mut grid: Grid<Option<char>> = Grid::new(3, 2);
    grid.set(0, 1, Some('a'));
    grid.set(2, 0, Some('b'));
    grid.set(2, 1, Some('c'));
    let mut it = grid.enumerate_iter_sparse();
    assert_eq!(it.next(), Some(((0, 1), &'a')));
    assert_eq!(it.next(), Some(((2, 0), &'b')));
    assert_eq!(it.next(), Some(((2, 1), &'c')));
    assert_eq!(it.next(), None);
    assert_eq!(it.next(), None);
}

#[test]
fn enumerate_iter_sparse_on_empty_grid() {
    let grid: Grid<Option<u8>> = Grid::new(2, 2);
    assert_eq!(grid.enumerate_iter_sparse().next(), None);
}
