use grid_path::cell::{Cell, CellType, Drawing};
use grid_path::distance::Distance;

#[test]
fn new_cell_is_fresh() {
    let cell = Cell::new(7, 30);
    assert_eq!(cell.id, 7);
    assert_eq!(cell.id(), 7);
    assert_eq!(cell.cell_type, CellType::Default);
    assert!(!cell.visited);
    assert_eq!(cell.distance, Distance::Infinite);
    assert_eq!(cell.total_width, 30);
}

#[test]
fn class_follows_the_kind() {
    let mut cell = Cell::new(0, 10);
    assert_eq!(cell.class_str(), "cell default");
    cell.cell_type = CellType::Obstacle;
    assert_eq!(cell.class_str(), "cell obstacle");
    cell.cell_type = CellType::Goal;
    assert_eq!(cell.class_str(), "cell goal");
    cell.cell_type = CellType::Path;
    assert_eq!(cell.class_str(), "cell path");
}

#[test]
fn manipulate_sets_the_kind_only() {
    let mut cell = Cell::new(3, 10);
    cell.visited = true;
    cell.distance = Distance::Finite { straight: 2, diagonal: 1 };
    cell.manipulate(&Drawing::Obstacle);
    assert_eq!(cell.cell_type, CellType::Obstacle);
    cell.manipulate(&Drawing::Goal);
    assert_eq!(cell.cell_type, CellType::Goal);
    cell.manipulate(&Drawing::Default);
    assert_eq!(cell.cell_type, CellType::Default);
    assert_eq!(cell.id, 3);
    assert!(cell.visited);
    assert_eq!(cell.distance, Distance::Finite { straight: 2, diagonal: 1 });
    assert_eq!(cell.total_width, 10);
}

#[test]
fn side_length_is_an_exact_fraction() {
    assert_eq!(Cell::new(0, 30).side_length(), (70, 30));
    assert_eq!(Cell::new(0, 10).side_length(), (90, 10));
    assert_eq!(Cell::new(0, 100).side_length(), (0, 100));
    assert_eq!(Cell::new(0, 250).side_length(), (-150, 250));
    assert_eq!(Cell::new(0, 0).side_length(), (100, 0));
    let (numerator, denominator) = Cell::new(0, 30).side_length();
    let side = numerator as f64 / denominator as f64;
    assert_eq!(side, (100.0 - 30.0) / 30.0);
}
