use grid_path::cell::{Cell, CellType, Drawing};
use grid_path::distance::Distance;
use grid_path::grid::Grid;

fn ids(cells: &[Cell]) -> Vec<usize> {
    cells.iter().map(|cell| cell.id).collect()
}

#[test]
fn fresh_grid_has_default_cells() {
    let grid = Grid::new(3, 2);
    assert_eq!(grid.width, 3);
    assert_eq!(grid.height, 2);
    assert_eq!(grid.data.len(), 6);
    for (i, cell) in grid.data.iter().enumerate() {
        assert_eq!(*cell, Cell::new(i, 3));
        assert_eq!(cell.cell_type, CellType::Default);
        assert!(!cell.visited);
        assert_eq!(cell.distance, Distance::Infinite);
    }
}

#[test]
fn painting_changes_one_cell() {
    let mut grid = Grid::new(3, 2);
    grid.manipulate_cell(4, &Drawing::Obstacle);
    for (i, cell) in grid.data.iter().enumerate() {
        let expected = if i == 4 { CellType::Obstacle } else { CellType::Default };
        assert_eq!(cell.cell_type, expected);
        assert_eq!(cell.id, i);
    }
    grid.manipulate_cell(4, &Drawing::Goal);
    assert_eq!(grid.data[4].cell_type, CellType::Goal);
    grid.manipulate_cell(4, &Drawing::Default);
    assert_eq!(grid.data[4].cell_type, CellType::Default);
}

#[test]
fn coordinates_are_row_major() {
    let grid = Grid::new(10, 10);
    assert_eq!(grid.coord_from_id(0), (0, 0));
    assert_eq!(grid.coord_from_id(9), (9, 0));
    assert_eq!(grid.coord_from_id(10), (0, 1));
    assert_eq!(grid.coord_from_id(98), (8, 9));
    assert_eq!(grid.id_from_coord(8, 9), 98);
    assert_eq!(grid.id_from_coord(0, 0), 0);
    assert_eq!(grid.id_from_coord(3, 2), 23);
}

#[test]
fn coordinates_beyond_the_last_row_wrap() {
    let grid = Grid::new(4, 3);
    assert_eq!(grid.coord_from_id(12), (0, 0));
    assert_eq!(grid.coord_from_id(17), (1, 1));
}

#[test]
fn index_and_coordinates_round_trip() {
    for (width, height) in [(1, 1), (1, 7), (7, 1), (4, 3), (10, 10), (30, 30)] {
        let grid = Grid::new(width, height);
        for id in 0..width * height {
            let (x, y) = grid.coord_from_id(id);
            assert!(x < width && y < height);
            assert_eq!(grid.id_from_coord(x, y), id);
        }
        for y in 0..height {
            for x in 0..width {
                assert_eq!(grid.coord_from_id(grid.id_from_coord(x, y)), (x, y));
            }
        }
    }
}

#[test]
fn goal_is_absent_on_a_fresh_grid() {
    let grid = Grid::new(5, 5);
    assert!(grid.get_goal().is_none());
}

#[test]
fn painting_a_goal_moves_the_goal() {
    let mut grid = Grid::new(5, 5);
    grid.manipulate_cell(3, &Drawing::Obstacle);
    grid.manipulate_cell(17, &Drawing::Goal);
    assert_eq!(grid.get_goal().map(|cell| cell.id), Some(17));
    grid.manipulate_cell(8, &Drawing::Goal);
    assert_eq!(grid.get_goal().map(|cell| cell.id), Some(8));
    for (i, cell) in grid.data.iter().enumerate() {
        let expected = match i {
            3 => CellType::Obstacle,
            8 => CellType::Goal,
            _ => CellType::Default,
        };
        assert_eq!(cell.cell_type, expected);
    }
    grid.manipulate_cell(20, &Drawing::Goal);
    grid.manipulate_cell(20, &Drawing::Goal);
    let goals: Vec<usize> = grid
        .data
        .iter()
        .filter(|cell| cell.cell_type == CellType::Goal)
        .map(|cell| cell.id)
        .collect();
    assert_eq!(goals, vec![20]);
}

#[test]
fn painting_over_the_goal_leaves_none() {
    let mut grid = Grid::new(5, 5);
    grid.manipulate_cell(17, &Drawing::Goal);
    grid.manipulate_cell(4, &Drawing::Obstacle);
    assert_eq!(grid.get_goal().map(|cell| cell.id), Some(17));
    grid.manipulate_cell(17, &Drawing::Obstacle);
    assert!(grid.get_goal().is_none());
    assert_eq!(grid.data[4].cell_type, CellType::Obstacle);
    assert_eq!(grid.data[17].cell_type, CellType::Obstacle);
}

#[test]
fn painting_a_goal_keeps_marks_and_distances() {
    let mut grid = Grid::new(3, 3);
    grid.manipulate_cell(2, &Drawing::Goal);
    grid.data[2].visited = true;
    grid.data[2].distance = Distance::Finite { straight: 2, diagonal: 0 };
    grid.data[5].cell_type = CellType::Path;
    grid.manipulate_cell(6, &Drawing::Goal);
    assert_eq!(grid.data[2].cell_type, CellType::Default);
    assert!(grid.data[2].visited);
    assert_eq!(grid.data[2].distance, Distance::Finite { straight: 2, diagonal: 0 });
    assert_eq!(grid.data[5].cell_type, CellType::Path);
    assert_eq!(grid.data[6].cell_type, CellType::Goal);
}

#[test]
fn neighbors_in_the_middle_come_column_by_column() {
    let grid = Grid::new(4, 4);
    let around = grid.get_neighbors(&grid.data[5]);
    assert_eq!(ids(&around), vec![0, 4, 8, 1, 9, 2, 6, 10]);
}

#[test]
fn neighbors_stay_on_the_grid() {
    let grid = Grid::new(4, 4);
    assert_eq!(ids(&grid.get_neighbors(&grid.data[0])), vec![4, 1, 5]);
    assert_eq!(ids(&grid.get_neighbors(&grid.data[3])), vec![2, 6, 7]);
    assert_eq!(ids(&grid.get_neighbors(&grid.data[15])), vec![10, 14, 11]);
    assert_eq!(ids(&grid.get_neighbors(&grid.data[4])), vec![0, 8, 1, 5, 9]);
    let single = Grid::new(1, 1);
    assert!(single.get_neighbors(&single.data[0]).is_empty());
    let row = Grid::new(3, 1);
    assert_eq!(ids(&row.get_neighbors(&row.data[1])), vec![0, 2]);
}

#[test]
fn neighbors_leave_out_obstacles_and_visited_cells() {
    let mut grid = Grid::new(3, 3);
    grid.manipulate_cell(0, &Drawing::Obstacle);
    grid.manipulate_cell(8, &Drawing::Goal);
    grid.data[1].visited = true;
    grid.data[4].visited = true;
    let around = grid.get_neighbors(&grid.data[4]);
    assert_eq!(ids(&around), vec![3, 6, 7, 2, 5, 8]);
    for cell in &around {
        assert_eq!(*cell, grid.data[cell.id]);
    }
}

#[test]
fn squared_distance_is_euclidean() {
    let grid = Grid::new(10, 10);
    let cell = |id: usize| grid.data[id];
    assert_eq!(grid.dist_squared(&cell(0), &cell(0)), 0);
    assert_eq!(grid.dist_squared(&cell(0), &cell(1)), 1);
    assert_eq!(grid.dist_squared(&cell(0), &cell(10)), 1);
    assert_eq!(grid.dist_squared(&cell(0), &cell(11)), 2);
    assert_eq!(grid.dist_squared(&cell(11), &cell(0)), 2);
    assert_eq!(grid.dist_squared(&cell(0), &cell(98)), 145);
    assert_eq!(grid.dist_squared(&cell(98), &cell(0)), 145);
    assert_eq!(grid.dist_squared(&cell(35), &cell(62)), 18);
}

#[test]
fn nearest_candidate_is_the_first_of_the_nearest() {
    let mut grid = Grid::new(3, 2);
    assert_eq!(grid.smallest_distance().id, 0);
    grid.data[4].distance = Distance::Finite { straight: 0, diagonal: 2 };
    grid.data[2].distance = Distance::Finite { straight: 3, diagonal: 0 };
    grid.data[5].distance = Distance::Finite { straight: 0, diagonal: 2 };
    assert_eq!(grid.smallest_distance().id, 4);
    grid.data[4].visited = true;
    assert_eq!(grid.smallest_distance().id, 5);
    grid.data[5].visited = true;
    assert_eq!(grid.smallest_distance().id, 2);
    grid.data[2].visited = true;
    assert_eq!(grid.smallest_distance().id, 0);
    grid.data[0].visited = true;
    grid.data[1].visited = true;
    assert_eq!(grid.smallest_distance().id, 3);
}

#[test]
fn rows_are_chunks_of_the_storage() {
    let mut grid = Grid::new(4, 3);
    grid.manipulate_cell(6, &Drawing::Goal);
    let rows = grid.rows();
    assert_eq!(rows.len(), 3);
    for (y, row) in rows.iter().enumerate() {
        assert_eq!(row.len(), 4);
        for (x, cell) in row.iter().enumerate() {
            assert_eq!(cell.id, x + 4 * y);
            assert_eq!(*cell, grid.data[x + 4 * y]);
        }
    }
    assert_eq!(rows[1][2].cell_type, CellType::Goal);
}
