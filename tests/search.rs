use gridpath::{CellType, Grid, Point};

use CellType::{Blank, Block, Destination, Start};

fn scenario_cells() -> Vec<Vec<CellType>> {
    vec![
        vec![Start, Blank, Blank, Block],
        vec![Block, Blank, Blank, Block],
        vec![Block, Block, Blank, Blank],
        vec![Block, Block, Destination, Blank],
    ]
}

fn pt(x: usize, y: usize) -> Point {
    Point { x, y }
}

fn visited_count(grid: &Grid) -> usize {
    grid.cells
        .iter()
        .flatten()
        .filter(|c| matches!(c, CellType::Visited(_)))
        .count()
}

fn assert_walk(grid: &Grid, start: Point, path: &[Point], end: Point) {
    let mut all = vec![start];
    all.extend_from_slice(path);
    all.push(end);
    for pair in all.windows(2) {
        let (a, b) = (pair[0], pair[1]);
        let d = a.x.abs_diff(b.x) + a.y.abs_diff(b.y);
        assert_eq!(d, 1, "{:?} and {:?} are not neighbours", a, b);
    }
    for p in path {
        assert!(grid.is_within_bounds(*p));
        assert!(*p != start && *p != end);
    }
}

fn assert_marked(grid: &Grid, path: &[Point]) {
    assert_eq!(visited_count(grid), path.len());
    for (i, p) in path.iter().enumerate() {
        assert_eq!(grid.cells[p.y][p.x], CellType::Visited(i as u32 + 1));
    }
}

#[test]
fn bfs_scenario_shortest_path() {
    let mut grid = Grid::new(scenario_cells());
    let path = grid.bfs(pt(0, 0)).expect("a route exists");
    assert_eq!(path, vec![pt(1, 0), pt(1, 1), pt(2, 1), pt(2, 2)]);
    assert_marked(&grid, &path);
    for (i, p) in path.iter().enumerate() {
        assert_eq!(grid.cells[p.y][p.x], CellType::Visited(i as u32 + 1));
    }
}

#[test]
fn dfs_scenario_finds_route() {
    let mut grid = Grid::new(scenario_cells());
    let path = grid.dfs(pt(0, 0)).expect("a route exists");
    assert_walk(&Grid::new(scenario_cells()), pt(0, 0), &path, pt(2, 3));
    assert_marked(&grid, &path);
    let mut seen = path.clone();
    seen.sort();
    seen.dedup();
    assert_eq!(seen.len(), path.len());
}

#[test]
fn a_star_scenario_matches_bfs() {
    let mut grid = Grid::new(scenario_cells());
    let (path, visited) = grid.a_star(pt(0, 0), pt(2, 3)).expect("a route exists");
    let mut bfs_grid = Grid::new(scenario_cells());
    let bfs_path = bfs_grid.bfs(pt(0, 0)).unwrap();
    assert_eq!(path.len(), bfs_path.len());
    assert_eq!(path.len(), 4);
    assert_walk(&Grid::new(scenario_cells()), pt(0, 0), &path, pt(2, 3));
    assert_marked(&grid, &path);
    for p in &path {
        assert!(visited.contains(p));
    }
    assert!(!visited.contains(&pt(0, 0)));
    assert!(!visited.contains(&pt(2, 3)));
}

#[test]
fn a_star_expands_in_priority_order() {
    // An open 3 x 3 grid: the first expansion after the start is its
    // neighbour with least cost plus distance, ties going to the least point.
    let cells = vec![
        vec![Start, Blank, Blank],
        vec![Blank, Blank, Blank],
        vec![Blank, Blank, Destination],
    ];
    let mut grid = Grid::new(cells);
    let (path, visited) = grid.a_star(pt(0, 0), pt(2, 2)).unwrap();
    assert_eq!(path.len(), 3);
    assert_eq!(visited[0], pt(0, 1));
}

fn enclosed_cells() -> Vec<Vec<CellType>> {
    vec![
        vec![Start, Blank, Blank, Blank],
        vec![Blank, Blank, Block, Blank],
        vec![Blank, Block, Destination, Block],
        vec![Blank, Blank, Block, Blank],
    ]
}

#[test]
fn enclosed_destination_has_no_route() {
    let mut grid = Grid::new(enclosed_cells());
    assert_eq!(grid.dfs(pt(0, 0)), None);
    assert_eq!(grid.cells, enclosed_cells());
    assert_eq!(grid.bfs(pt(0, 0)), None);
    assert_eq!(grid.cells, enclosed_cells());
    assert_eq!(grid.a_star(pt(0, 0), pt(2, 2)), None);
    assert_eq!(grid.cells, enclosed_cells());
    assert_eq!(visited_count(&grid), 0);
}

#[test]
fn start_outside_grid_has_no_route() {
    let mut grid = Grid::new(scenario_cells());
    assert_eq!(grid.bfs(pt(4, 0)), None);
    assert_eq!(grid.dfs(pt(0, 9)), None);
    assert_eq!(grid.a_star(pt(0, 0), pt(7, 7)), None);
    assert_eq!(grid.cells, scenario_cells());
}

#[test]
fn destination_next_to_start_gives_empty_path() {
    let cells = vec![vec![Start, Destination, Blank]];
    let mut grid = Grid::new(cells.clone());
    assert_eq!(grid.bfs(pt(0, 0)), Some(vec![]));
    assert_eq!(grid.dfs(pt(0, 0)), Some(vec![]));
    assert_eq!(grid.a_star(pt(0, 0), pt(1, 0)), Some((vec![], vec![])));
    assert_eq!(grid.cells, cells);
}

#[test]
fn start_on_destination_gives_empty_path() {
    let cells = vec![vec![Destination, Blank]];
    let mut grid = Grid::new(cells);
    assert_eq!(grid.bfs(pt(0, 0)), Some(vec![]));
    assert_eq!(grid.dfs(pt(0, 0)), Some(vec![]));
    assert_eq!(grid.a_star(pt(0, 0), pt(0, 0)), Some((vec![], vec![])));
}

#[test]
fn bfs_takes_shortest_of_two_corridors() {
    // A long way round on the left, a short one on the right.
    let cells = vec![
        vec![Blank, Blank, Start, Blank, Blank],
        vec![Blank, Block, Block, Block, Blank],
        vec![Blank, Block, Block, Block, Destination],
        vec![Blank, Blank, Blank, Blank, Blank],
    ];
    let mut grid = Grid::new(cells.clone());
    let path = grid.bfs(pt(2, 0)).unwrap();
    assert_eq!(path, vec![pt(3, 0), pt(4, 0), pt(4, 1)]);
    let mut astar_grid = Grid::new(cells.clone());
    let (apath, _) = astar_grid.a_star(pt(2, 0), pt(4, 2)).unwrap();
    assert_eq!(apath.len(), 3);
    let mut dfs_grid = Grid::new(cells.clone());
    let dpath = dfs_grid.dfs(pt(2, 0)).unwrap();
    assert_walk(&Grid::new(cells), pt(2, 0), &dpath, pt(4, 2));
}

#[test]
fn dfs_follows_push_order() {
    // Neighbours are pushed up, right, down, left, so left is explored first.
    let cells = vec![vec![Destination, Blank, Start, Blank, Destination]];
    let mut grid = Grid::new(cells);
    let path = grid.dfs(pt(2, 0)).unwrap();
    assert_eq!(path, vec![pt(1, 0)]);
}

#[test]
fn bfs_follows_neighbour_order() {
    // Left is looked at first, so the left destination is found.
    let cells = vec![vec![Destination, Blank, Start, Blank, Destination]];
    let mut grid = Grid::new(cells);
    let path = grid.bfs(pt(2, 0)).unwrap();
    assert_eq!(path, vec![pt(1, 0)]);
}

#[test]
fn grid_new_takes_dimensions() {
    let grid = Grid::new(vec![vec![Blank; 5]; 3]);
    assert_eq!(grid.width, 5);
    assert_eq!(grid.height, 3);
    assert!(grid.is_within_bounds(pt(4, 2)));
    assert!(!grid.is_within_bounds(pt(5, 2)));
    assert!(!grid.is_within_bounds(pt(4, 3)));
}

#[test]
fn swap_dim_exchanges_width_and_height() {
    let mut grid = Grid::new(vec![vec![Blank; 5]; 3]);
    grid.swap_dim();
    assert_eq!(grid.width, 3);
    assert_eq!(grid.height, 5);
    assert_eq!(grid.cells.len(), 3);
}

#[test]
fn neighbours_stay_inside() {
    let grid = Grid::new(vec![vec![Blank; 3]; 2]);
    assert_eq!(grid.neighbor(pt(0, 0), 0), None);
    assert_eq!(grid.neighbor(pt(0, 0), 1), Some(pt(1, 0)));
    assert_eq!(grid.neighbor(pt(0, 0), 2), Some(pt(0, 1)));
    assert_eq!(grid.neighbor(pt(0, 0), 3), None);
    assert_eq!(grid.neighbor(pt(2, 1), 1), None);
    assert_eq!(grid.neighbor(pt(2, 1), 2), None);
}

#[test]
fn point_as_tuple() {
    assert_eq!(pt(3, 7).as_tuple(), (3, 7));
}

#[test]
fn large_open_grid() {
    let n = 120;
    let mut cells = vec![vec![Blank; n]; n];
    cells[0][0] = Start;
    cells[n - 1][n - 1] = Destination;
    let mut g1 = Grid::new(cells.clone());
    let bfs_path = g1.bfs(pt(0, 0)).unwrap();
    assert_eq!(bfs_path.len(), 2 * (n - 1) - 1);
    assert_marked(&g1, &bfs_path);
    let mut g2 = Grid::new(cells.clone());
    let (a_path, visited) = g2.a_star(pt(0, 0), pt(n - 1, n - 1)).unwrap();
    assert_eq!(a_path.len(), bfs_path.len());
    assert!(visited.len() >= a_path.len());
    let mut g3 = Grid::new(cells.clone());
    let d_path = g3.dfs(pt(0, 0)).unwrap();
    assert_walk(&Grid::new(cells), pt(0, 0), &d_path, pt(n - 1, n - 1));
    assert_marked(&g3, &d_path);
}
