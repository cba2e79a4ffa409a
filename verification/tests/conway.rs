use problems::conway::{Cell, GameOfLife, Grid, Neighbours};

fn collect(mut n: Neighbours) -> Vec<(usize, usize)> {
    let mut out = Vec::new();
    while let Some(p) = n.next() {
        out.push(p);
    }
    out
}

#[test]
fn new_grid_holds_defaults() {
    let g: Grid<i32> = Grid::new(2, 3);
    assert_eq!(g.size(), (2, 3));
    assert_eq!(g.get_grid(), vec![0; 6]);
}

#[test]
fn set_and_get_by_row_and_column() {
    let mut g: Grid<i32> = Grid::new(2, 3);
    g.set(5, 1, 2);
    g.set(4, 0, 1);
    assert_eq!(*g.get(1, 2), 5);
    assert_eq!(*g.get(0, 1), 4);
    assert_eq!(g.get_grid(), vec![0, 4, 0, 0, 0, 5]);
}

#[test]
fn from_slice_keeps_row_major_order() {
    let g = Grid::from_slice(&[1, 2, 3, 4, 5, 6], 3, 2);
    assert_eq!(g.size(), (3, 2));
    assert_eq!(*g.get(0, 1), 2);
    assert_eq!(*g.get(2, 0), 5);
    assert_eq!(g.get_grid(), vec![1, 2, 3, 4, 5, 6]);
}

#[test]
fn neighbours_of_corner() {
    let g: Grid<Cell> = Grid::new(3, 3);
    assert_eq!(collect(g.neighbours(0, 0)), vec![(0, 1), (1, 0), (1, 1)]);
    assert_eq!(collect(g.neighbours(2, 2)), vec![(1, 1), (1, 2), (2, 1)]);
    assert_eq!(collect(g.neighbours(0, 2)), vec![(0, 1), (1, 1), (1, 2)]);
    assert_eq!(collect(g.neighbours(2, 0)), vec![(1, 0), (1, 1), (2, 1)]);
}

#[test]
fn neighbours_of_inner_cell() {
    let g: Grid<Cell> = Grid::new(3, 3);
    assert_eq!(
        collect(g.neighbours(1, 1)),
        vec![(0, 0), (0, 1), (0, 2), (1, 0), (1, 2), (2, 0), (2, 1), (2, 2)]
    );
}

#[test]
fn neighbours_on_edges() {
    let g: Grid<Cell> = Grid::new(3, 4);
    assert_eq!(collect(g.neighbours(0, 1)), vec![(0, 0), (0, 2), (1, 0), (1, 1), (1, 2)]);
    assert_eq!(collect(g.neighbours(1, 0)), vec![(0, 0), (0, 1), (1, 1), (2, 0), (2, 1)]);
    assert_eq!(collect(g.neighbours(2, 1)), vec![(1, 0), (1, 1), (1, 2), (2, 0), (2, 2)]);
    assert_eq!(collect(g.neighbours(1, 3)), vec![(0, 2), (0, 3), (1, 2), (2, 2), (2, 3)]);
}

#[test]
fn neighbours_in_tiny_grids() {
    let single: Grid<Cell> = Grid::new(1, 1);
    assert_eq!(collect(single.neighbours(0, 0)), Vec::<(usize, usize)>::new());
    let pair: Grid<Cell> = Grid::new(1, 2);
    assert_eq!(collect(pair.neighbours(0, 0)), vec![(0, 1)]);
    assert_eq!(collect(pair.neighbours(0, 1)), vec![(0, 0)]);
}

#[test]
fn neighbours_run_out() {
    let g: Grid<Cell> = Grid::new(2, 2);
    let mut n = g.neighbours(0, 0);
    assert_eq!(n.next(), Some((0, 1)));
    assert_eq!(n.next(), Some((1, 0)));
    assert_eq!(n.next(), Some((1, 1)));
    assert_eq!(n.next(), None);
    assert_eq!(n.next(), None);
}

#[test]
fn default_cell_is_dead() {
    assert_eq!(Cell::default(), Cell::Dead);
}

fn board(rows: usize, cols: usize, alive: &[(usize, usize)]) -> Grid<Cell> {
    let mut g = Grid::new(rows, cols);
    for &(r, c) in alive {
        g.set(Cell::Alive, r, c);
    }
    g
}

#[test]
fn blinker_oscillates() {
    let mut game = GameOfLife::from_grid(board(3, 3, &[(1, 0), (1, 1), (1, 2)]));
    game.step();
    assert!(*game.get_grid() == board(3, 3, &[(0, 1), (1, 1), (2, 1)]));
    game.step();
    assert!(*game.get_grid() == board(3, 3, &[(1, 0), (1, 1), (1, 2)]));
}

#[test]
fn block_is_still() {
    let start = board(4, 4, &[(1, 1), (1, 2), (2, 1), (2, 2)]);
    let mut game = GameOfLife::from_grid(board(4, 4, &[(1, 1), (1, 2), (2, 1), (2, 2)]));
    game.step();
    assert!(*game.get_grid() == start);
}

#[test]
fn lonely_cell_dies_and_birth_needs_three() {
    let mut game = GameOfLife::from_grid(board(3, 3, &[(0, 0)]));
    game.step();
    assert!(*game.get_grid() == board(3, 3, &[]));

    let mut game = GameOfLife::from_grid(board(3, 3, &[(0, 0), (0, 2), (2, 0)]));
    game.step();
    assert!(*game.get_grid() == board(3, 3, &[(1, 1)]));
}

#[test]
fn crowded_cell_dies() {
    let mut game = GameOfLife::from_grid(board(3, 3, &[(0, 0), (0, 1), (0, 2), (1, 0), (1, 1)]));
    game.step();
    assert_eq!(*game.get_grid().get(1, 1), Cell::Dead);
    assert_eq!(*game.get_grid().get(0, 0), Cell::Alive);
    assert_eq!(*game.get_grid().get(1, 2), Cell::Alive);
}

#[test]
fn neighbours_of_a_cell_outside_the_grid() {
    let g: Grid<Cell> = Grid::new(3, 3);
    assert_eq!(
        collect(g.neighbours(5, 5)),
        vec![(4, 4), (4, 5), (4, 6), (5, 4), (5, 6), (6, 4), (6, 5), (6, 6)]
    );
    assert_eq!(collect(g.neighbours(0, 7)), vec![(0, 6), (0, 8), (1, 6), (1, 7), (1, 8)]);
    assert_eq!(collect(g.neighbours(4, 0)), vec![(3, 0), (3, 1), (4, 1), (5, 0), (5, 1)]);
}

#[test]
fn neighbours_in_a_single_row_of_three() {
    let g: Grid<Cell> = Grid::new(1, 3);
    assert_eq!(collect(g.neighbours(0, 0)), vec![(0, 1)]);
    assert_eq!(collect(g.neighbours(0, 1)), vec![(0, 0), (0, 2)]);
    assert_eq!(collect(g.neighbours(0, 2)), vec![(0, 1)]);
}

#[test]
fn size_matches_cell_count() {
    let g: Grid<u8> = Grid::new(4, 5);
    let (r, c) = g.size();
    assert_eq!(g.get_grid().len(), r * c);
}

#[test]
fn neighbours_in_a_single_column() {
    let g: Grid<Cell> = Grid::new(3, 1);
    assert_eq!(collect(g.neighbours(0, 0)), vec![(1, 0)]);
    assert_eq!(collect(g.neighbours(1, 0)), vec![(0, 0), (2, 0)]);
    assert_eq!(collect(g.neighbours(2, 0)), vec![(1, 0)]);
    let pair: Grid<Cell> = Grid::new(2, 1);
    assert_eq!(collect(pair.neighbours(0, 0)), vec![(1, 0)]);
    assert_eq!(collect(pair.neighbours(1, 0)), vec![(0, 0)]);
}

#[test]
fn single_row_blinker_shrinks() {
    let a = Cell::Alive;
    let d = Cell::Dead;
    let mut game = GameOfLife::from_grid(Grid::from_slice(&[a, a, a], 1, 3));
    game.step();
    assert_eq!(game.get_grid().get_grid(), vec![d, a, d]);
    game.step();
    assert_eq!(game.get_grid().get_grid(), vec![d, d, d]);
}

#[test]
fn single_column_line_shrinks() {
    let a = Cell::Alive;
    let d = Cell::Dead;
    let mut game = GameOfLife::from_grid(Grid::from_slice(&[a, a, a, a], 4, 1));
    game.step();
    assert_eq!(game.get_grid().get_grid(), vec![d, a, a, d]);
}
