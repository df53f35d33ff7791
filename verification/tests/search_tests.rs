use grid_path::cell::{Cell, CellType, Drawing};
use grid_path::dijkstra::dijkstra;
use grid_path::distance::Distance;
use grid_path::grid::Grid;

fn ids(path: &[Cell]) -> Vec<usize> {
    path.iter().map(|cell| cell.id).collect()
}

fn weight(grid: &Grid, start: usize, path: &[Cell]) -> f64 {
    let mut at = start;
    let mut total = 0.0;
    for cell in path {
        total += (grid.dist_squared(&grid.data[at], cell) as f64).sqrt();
        at = cell.id;
    }
    total
}

fn assert_is_walk(grid: &Grid, start: usize, path: &[Cell]) {
    let mut at = start;
    for cell in path {
        let squared = grid.dist_squared(&grid.data[at], cell);
        assert!(squared == 1 || squared == 2);
        assert_ne!(grid.data[cell.id].cell_type, CellType::Obstacle);
        assert_ne!(cell.id, start);
        at = cell.id;
    }
}

#[test]
fn dijkstra_test() {
    let mut grid = Grid::new(10, 10);
    grid.data[98].cell_type = CellType::Goal;
    let res = dijkstra(&mut grid, 0);
    for x in res {
        println!("{:?} - {}", grid.coord_from_id(x.id), x.id);
    }
}

#[test]
fn open_grid_path_is_as_short_as_king_moves_allow() {
    let mut grid = Grid::new(10, 10);
    grid.data[98].cell_type = CellType::Goal;
    let path = dijkstra(&mut grid, 0);
    assert!(!path.is_empty());
    assert_eq!(path.last().unwrap().id, 98);
    assert!(path.iter().all(|cell| cell.id != 0));
    assert_is_walk(&grid, 0, &path);
    // 8 moves to a corner neighbour and 1 to a side neighbour
    assert_eq!(path.len(), 9);
    assert_eq!(grid.data[98].distance, Distance::Finite { straight: 1, diagonal: 8 });
    let length = weight(&grid, 0, &path);
    assert!((length - (1.0 + 8.0 * 2f64.sqrt())).abs() < 1e-9);
    // the straight line would be shorter, but no king walks along it
    assert!(length > 145f64.sqrt());
}

#[test]
fn open_grid_path_to_the_far_corner_is_the_diagonal() {
    let mut grid = Grid::new(10, 10);
    grid.manipulate_cell(99, &Drawing::Goal);
    let path = dijkstra(&mut grid, 0);
    assert_eq!(ids(&path), vec![11, 22, 33, 44, 55, 66, 77, 88, 99]);
    let length = weight(&grid, 0, &path);
    assert!((length - 162f64.sqrt()).abs() < 1e-9);
    for (k, cell) in path.iter().enumerate() {
        assert_eq!(cell.distance, Distance::Finite { straight: 0, diagonal: k + 1 });
        assert_eq!(*cell, grid.data[cell.id]);
    }
}

#[test]
fn search_leaves_every_cell_visited_and_the_layout_alone() {
    let mut grid = Grid::new(6, 4);
    grid.manipulate_cell(23, &Drawing::Goal);
    grid.manipulate_cell(8, &Drawing::Obstacle);
    grid.data[3].visited = true;
    grid.data[5].distance = Distance::Finite { straight: 1, diagonal: 1 };
    let before = grid.data.clone();
    dijkstra(&mut grid, 0);
    assert_eq!(grid.width, 6);
    assert_eq!(grid.height, 4);
    for (cell, old) in grid.data.iter().zip(before.iter()) {
        assert!(cell.visited);
        assert_eq!(cell.id, old.id);
        assert_eq!(cell.cell_type, old.cell_type);
        assert_eq!(cell.total_width, old.total_width);
    }
    assert_eq!(grid.data[0].distance, Distance::Finite { straight: 0, diagonal: 0 });
    assert_eq!(grid.data[1].distance, Distance::Finite { straight: 1, diagonal: 0 });
    assert_eq!(grid.data[7].distance, Distance::Finite { straight: 0, diagonal: 1 });
    assert_eq!(grid.data[8].distance, Distance::Infinite);
    assert_eq!(grid.data[5].distance, Distance::Finite { straight: 5, diagonal: 0 });
}

#[test]
fn search_does_not_depend_on_old_marks() {
    let mut clean = Grid::new(7, 5);
    clean.manipulate_cell(34, &Drawing::Goal);
    clean.manipulate_cell(16, &Drawing::Obstacle);
    clean.manipulate_cell(17, &Drawing::Obstacle);
    let mut marked = Grid::new(7, 5);
    marked.manipulate_cell(34, &Drawing::Goal);
    marked.manipulate_cell(16, &Drawing::Obstacle);
    marked.manipulate_cell(17, &Drawing::Obstacle);
    for cell in marked.data.iter_mut() {
        cell.visited = true;
        cell.distance = Distance::Finite { straight: 1, diagonal: 0 };
    }
    let first = dijkstra(&mut clean, 0);
    let second = dijkstra(&mut marked, 0);
    assert_eq!(first, second);
    assert_eq!(clean.data, marked.data);
}

#[test]
fn enclosed_goal_gives_no_path() {
    let mut grid = Grid::new(10, 10);
    grid.manipulate_cell(55, &Drawing::Goal);
    for id in [44, 45, 46, 54, 56, 64, 65, 66] {
        grid.manipulate_cell(id, &Drawing::Obstacle);
    }
    let path = dijkstra(&mut grid, 0);
    assert!(path.is_empty());
    assert_eq!(grid.data[55].distance, Distance::Infinite);
}

#[test]
fn enclosed_goal_in_a_corner_gives_no_path() {
    let mut grid = Grid::new(10, 10);
    grid.manipulate_cell(99, &Drawing::Goal);
    for id in [88, 89, 98] {
        grid.manipulate_cell(id, &Drawing::Obstacle);
    }
    assert!(dijkstra(&mut grid, 0).is_empty());
}

#[test]
fn start_next_to_an_enclosed_goal_reaches_it() {
    let mut grid = Grid::new(3, 3);
    grid.manipulate_cell(4, &Drawing::Goal);
    for id in [0, 1, 2, 3, 5, 6, 7, 8] {
        grid.manipulate_cell(id, &Drawing::Obstacle);
    }
    let path = dijkstra(&mut grid, 0);
    assert_eq!(ids(&path), vec![4]);
    assert_eq!(path[0].distance, Distance::Finite { straight: 0, diagonal: 1 });
}

#[test]
fn goal_on_the_start_gives_no_path() {
    let mut grid = Grid::new(5, 5);
    grid.manipulate_cell(0, &Drawing::Goal);
    assert!(dijkstra(&mut grid, 0).is_empty());
    let mut grid = Grid::new(5, 5);
    grid.manipulate_cell(12, &Drawing::Goal);
    assert!(dijkstra(&mut grid, 12).is_empty());
}

#[test]
fn wall_is_walked_around() {
    let mut grid = Grid::new(10, 10);
    grid.manipulate_cell(9, &Drawing::Goal);
    for y in 0..9 {
        grid.manipulate_cell(5 + 10 * y, &Drawing::Obstacle);
    }
    let path = dijkstra(&mut grid, 0);
    assert_eq!(path.last().unwrap().id, 9);
    assert_is_walk(&grid, 0, &path);
    for cell in &path {
        assert_ne!(grid.data[cell.id].cell_type, CellType::Obstacle);
        assert_ne!(cell.id % 10 == 5 && cell.id / 10 < 9, true);
    }
    // the only gap is at the bottom of the wall
    assert!(path.iter().any(|cell| cell.id == 95));
    // 5 columns and 9 rows to the gap, then 4 columns and 9 rows back up
    assert_eq!(grid.data[9].distance, Distance::Finite { straight: 9, diagonal: 9 });
}

#[test]
fn unbroken_wall_cuts_the_goal_off() {
    let mut grid = Grid::new(10, 10);
    grid.manipulate_cell(9, &Drawing::Goal);
    for y in 0..10 {
        grid.manipulate_cell(5 + 10 * y, &Drawing::Obstacle);
    }
    assert!(dijkstra(&mut grid, 0).is_empty());
}

#[test]
fn obstacle_on_the_start_does_not_stop_the_search() {
    let mut grid = Grid::new(4, 4);
    grid.manipulate_cell(0, &Drawing::Obstacle);
    grid.manipulate_cell(15, &Drawing::Goal);
    let path = dijkstra(&mut grid, 0);
    assert_eq!(ids(&path), vec![5, 10, 15]);
}

#[test]
fn search_from_another_start() {
    let mut grid = Grid::new(5, 5);
    grid.manipulate_cell(4, &Drawing::Goal);
    let path = dijkstra(&mut grid, 20);
    assert_eq!(ids(&path), vec![16, 12, 8, 4]);
    assert_eq!(grid.data[20].distance, Distance::Finite { straight: 0, diagonal: 0 });
}

#[test]
fn path_in_a_single_row() {
    let mut grid = Grid::new(6, 1);
    grid.manipulate_cell(5, &Drawing::Goal);
    let path = dijkstra(&mut grid, 0);
    assert_eq!(ids(&path), vec![1, 2, 3, 4, 5]);
    grid.manipulate_cell(3, &Drawing::Obstacle);
    assert!(dijkstra(&mut grid, 0).is_empty());
}

#[test]
fn shortest_path_beats_every_other_walk_on_small_grids() {
    // every layout of obstacles on a 3×3 grid with the goal in the far corner
    for layout in 0u32..128 {
        let mut grid = Grid::new(3, 3);
        grid.manipulate_cell(8, &Drawing::Goal);
        for bit in 0..7 {
            if layout & (1 << bit) != 0 {
                grid.manipulate_cell(bit + 1, &Drawing::Obstacle);
            }
        }
        let open: Vec<bool> =
            grid.data.iter().map(|cell| cell.cell_type != CellType::Obstacle).collect();
        // Bellman-Ford over king moves, in floating point
        let mut best = vec![f64::INFINITY; 9];
        best[0] = 0.0;
        for _ in 0..9 {
            for u in 0..9usize {
                for v in 0..9usize {
                    let (ux, uy) = (u % 3, u / 3);
                    let (vx, vy) = (v % 3, v / 3);
                    let dx = ux.abs_diff(vx);
                    let dy = uy.abs_diff(vy);
                    if u != v && dx <= 1 && dy <= 1 && open[v] {
                        let through = best[u] + ((dx * dx + dy * dy) as f64).sqrt();
                        if through < best[v] {
                            best[v] = through;
                        }
                    }
                }
            }
        }
        let path = dijkstra(&mut grid, 0);
        if best[8].is_infinite() {
            assert!(path.is_empty(), "layout {}", layout);
        } else {
            assert_eq!(path.last().unwrap().id, 8);
            assert_is_walk(&grid, 0, &path);
            assert!((weight(&grid, 0, &path) - best[8]).abs() < 1e-9, "layout {}", layout);
        }
    }
}
