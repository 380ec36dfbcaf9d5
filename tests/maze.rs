use gridpath::{CellType, Grid};
use rand::rngs::StdRng;
use rand::SeedableRng;

fn check_maze(grid: &Grid, width: usize, height: usize) -> usize {
    assert_eq!(grid.cells.len(), height);
    assert_eq!(grid.width, width - 1);
    assert_eq!(grid.height, height - 1);
    let mut starts = 0;
    let mut dests = 0;
    let mut blocks = 0;
    for (y, row) in grid.cells.iter().enumerate() {
        assert_eq!(row.len(), width);
        for (x, c) in row.iter().enumerate() {
            let border = x == 0 || y == 0 || x + 1 == width || y + 1 == height;
            if border {
                assert_eq!(*c, CellType::Block);
                continue;
            }
            match c {
                CellType::Start => starts += 1,
                CellType::Destination => dests += 1,
                CellType::Block => blocks += 1,
                CellType::Blank => {}
                CellType::Visited(_) => panic!("a new maze holds no path"),
            }
        }
    }
    let interior = (width - 2) * (height - 2);
    assert_eq!(starts, 1);
    assert_eq!(dests, 1);
    assert!(blocks >= 1);
    assert!(2 * blocks < interior);
    blocks
}

#[test]
fn random_mazes_are_valid() {
    for seed in 0..40u64 {
        let mut rng = StdRng::seed_from_u64(seed);
        for (w, h) in [(4, 4), (6, 4), (10, 10), (3, 6), (25, 13)] {
            let grid = Grid::random_grid(w, h, &mut rng);
            check_maze(&grid, w, h);
        }
    }
}

#[test]
fn random_mazes_vary() {
    let mut counts = std::collections::BTreeSet::new();
    let mut starts = std::collections::BTreeSet::new();
    for seed in 0..40u64 {
        let mut rng = StdRng::seed_from_u64(seed);
        let grid = Grid::random_grid(10, 10, &mut rng);
        counts.insert(check_maze(&grid, 10, 10));
        for (y, row) in grid.cells.iter().enumerate() {
            for (x, c) in row.iter().enumerate() {
                if *c == CellType::Start {
                    starts.insert((x, y));
                }
            }
        }
    }
    assert!(counts.len() > 1);
    assert!(starts.len() > 1);
}

#[test]
fn same_seed_same_maze() {
    let a = Grid::random_grid(12, 9, &mut StdRng::seed_from_u64(7));
    let b = Grid::random_grid(12, 9, &mut StdRng::seed_from_u64(7));
    assert_eq!(a.cells, b.cells);
}

#[test]
fn smallest_maze_has_one_block() {
    // A 4 x 4 maze has four interior cells: a start, a destination, one
    // block and one blank cell.
    for seed in 0..10u64 {
        let grid = Grid::random_grid(4, 4, &mut StdRng::seed_from_u64(seed));
        assert_eq!(check_maze(&grid, 4, 4), 1);
    }
}

#[test]
fn searches_run_on_random_mazes() {
    for seed in 0..30u64 {
        let grid = Grid::random_grid(9, 7, &mut StdRng::seed_from_u64(seed));
        let start = find(&grid, CellType::Start);
        let dest = find(&grid, CellType::Destination);
        let mut g1 = Grid::new(grid.cells.clone());
        let mut g2 = Grid::new(grid.cells.clone());
        let mut g3 = Grid::new(grid.cells.clone());
        let b = g1.bfs(start);
        let d = g2.dfs(start);
        let a = g3.a_star(start, dest);
        assert_eq!(b.is_some(), d.is_some());
        assert_eq!(b.is_some(), a.is_some());
        if let (Some(bp), Some((ap, _))) = (b, a) {
            assert_eq!(bp.len(), ap.len());
        }
    }
}

fn find(grid: &Grid, c: CellType) -> gridpath::Point {
    for (y, row) in grid.cells.iter().enumerate() {
        for (x, cell) in row.iter().enumerate() {
            if *cell == c {
                return gridpath::Point { x, y };
            }
        }
    }
    panic!("missing cell")
}
