use grid_path::cell::{Cell, CellType, Drawing};
use grid_path::model::{Model, Msg, SIDE, START};

fn kinds(model: &Model, kind: CellType) -> Vec<usize> {
    model.grid.data.iter().filter(|cell| cell.cell_type == kind).map(|cell| cell.id).collect()
}

#[test]
fn editor_opens_on_a_fresh_grid() {
    let model = Model::create();
    assert_eq!(SIDE, 30);
    assert_eq!(START, 0);
    assert_eq!(model.grid.width, 30);
    assert_eq!(model.grid.height, 30);
    assert_eq!(model.grid.data.len(), 900);
    for (i, cell) in model.grid.data.iter().enumerate() {
        assert_eq!(*cell, Cell::new(i, 30));
    }
    assert_eq!(model.drawing, Drawing::Obstacle);
    assert!(!model.is_drawing);
}

#[test]
fn button_of_the_current_mode_is_toggled() {
    let mut model = Model::create();
    assert_eq!(model.button_class_str(&Msg::DrawObstacle), "toggled");
    assert_eq!(model.button_class_str(&Msg::DrawDefault), "");
    assert_eq!(model.button_class_str(&Msg::DrawGoal), "");
    assert_eq!(model.button_class_str(&Msg::DrawingStart), "");
    assert_eq!(model.button_class_str(&Msg::ToggleCell(0)), "");
    model.update(Msg::DrawGoal);
    assert_eq!(model.button_class_str(&Msg::DrawGoal), "toggled");
    assert_eq!(model.button_class_str(&Msg::DrawObstacle), "");
    model.update(Msg::DrawDefault);
    assert_eq!(model.button_class_str(&Msg::DrawDefault), "toggled");
    assert_eq!(model.button_class_str(&Msg::DrawGoal), "");
}

#[test]
fn messages_set_the_mode_and_the_pointer() {
    let mut model = Model::create();
    assert!(model.update(Msg::DrawingStart));
    assert!(model.is_drawing);
    assert!(model.update(Msg::DrawingStop));
    assert!(!model.is_drawing);
    assert!(model.update(Msg::DrawGoal));
    assert_eq!(model.drawing, Drawing::Goal);
    assert!(model.update(Msg::DrawDefault));
    assert_eq!(model.drawing, Drawing::Default);
    assert!(model.update(Msg::DrawObstacle));
    assert_eq!(model.drawing, Drawing::Obstacle);
    assert_eq!(kinds(&model, CellType::Default).len(), 900);
}

#[test]
fn strokes_paint_only_while_the_pointer_is_down() {
    let mut model = Model::create();
    assert!(model.update(Msg::ToggleCell(40)));
    assert_eq!(model.grid.data[40].cell_type, CellType::Default);
    model.update(Msg::DrawingStart);
    assert!(model.update(Msg::ToggleCell(40)));
    assert_eq!(model.grid.data[40].cell_type, CellType::Obstacle);
    model.update(Msg::DrawingStop);
    assert!(model.update(Msg::ToggleCell(41)));
    assert_eq!(model.grid.data[41].cell_type, CellType::Default);
}

#[test]
fn stroke_outside_the_grid_is_ignored_while_the_pointer_is_up() {
    let mut model = Model::create();
    assert!(model.update(Msg::ToggleCell(5000)));
    assert_eq!(kinds(&model, CellType::Default).len(), 900);
}

#[test]
fn click_paints_whatever_the_pointer_does() {
    let mut model = Model::create();
    assert!(model.update(Msg::ForceToggle(40)));
    assert_eq!(model.grid.data[40].cell_type, CellType::Obstacle);
    assert_eq!(kinds(&model, CellType::Obstacle), vec![40]);
}

#[test]
fn change_changes_nothing() {
    let mut model = Model::create();
    model.update(Msg::ForceToggle(40));
    let before = model.grid.data.clone();
    assert!(!model.change());
    assert_eq!(model.grid.data, before);
    assert_eq!(model.drawing, Drawing::Obstacle);
    assert!(!model.is_drawing);
}

#[test]
fn edit_without_a_goal_searches_nothing() {
    let mut model = Model::create();
    model.toggle_cell(31);
    model.toggle_cell(62);
    model.drawing = Drawing::Default;
    model.toggle_cell(62);
    for cell in &model.grid.data {
        assert!(!cell.visited);
        assert!(cell.cell_type == CellType::Default || cell.cell_type == CellType::Obstacle);
        assert!(!cell.distance.is_finite());
    }
    assert_eq!(kinds(&model, CellType::Obstacle), vec![31]);
}

#[test]
fn edit_with_a_goal_marks_the_path() {
    let mut model = Model::create();
    model.drawing = Drawing::Goal;
    model.toggle_cell(93);
    // three rows down along the diagonal, the goal included
    assert_eq!(kinds(&model, CellType::Path), vec![31, 62, 93]);
    assert!(kinds(&model, CellType::Goal).is_empty());
    for cell in &model.grid.data {
        assert!(cell.visited);
    }
}

#[test]
fn marked_goal_is_cleared_by_the_next_edit() {
    let mut model = Model::create();
    model.drawing = Drawing::Goal;
    model.toggle_cell(93);
    model.drawing = Drawing::Obstacle;
    model.toggle_cell(500);
    assert!(kinds(&model, CellType::Path).is_empty());
    assert!(kinds(&model, CellType::Goal).is_empty());
    assert_eq!(kinds(&model, CellType::Obstacle), vec![500]);
    for cell in &model.grid.data {
        assert!(!cell.visited);
    }
}

#[test]
fn same_edit_twice_marks_the_same_path() {
    let mut model = Model::create();
    model.toggle_cell(32);
    model.toggle_cell(61);
    model.drawing = Drawing::Goal;
    model.toggle_cell(93);
    let once = model.grid.data.clone();
    let path = kinds(&model, CellType::Path);
    assert_eq!(path.last(), Some(&93));
    assert!(!path.contains(&32) && !path.contains(&61));
    model.toggle_cell(93);
    assert_eq!(kinds(&model, CellType::Path), path);
    assert_eq!(model.grid.data, once);
}

#[test]
fn same_edit_twice_without_a_path_changes_nothing() {
    let mut model = Model::create();
    model.toggle_cell(1);
    model.toggle_cell(30);
    model.toggle_cell(31);
    model.drawing = Drawing::Goal;
    model.toggle_cell(93);
    // the start is walled in, but it is the start: the goal is out of reach
    model.drawing = Drawing::Obstacle;
    model.toggle_cell(0);
    assert!(kinds(&model, CellType::Path).is_empty());
    assert_eq!(kinds(&model, CellType::Goal), vec![93]);
    let once = model.grid.data.clone();
    model.toggle_cell(0);
    assert_eq!(model.grid.data, once);
    assert!(kinds(&model, CellType::Path).is_empty());
}

#[test]
fn edit_elsewhere_twice_loses_the_marked_goal() {
    let mut model = Model::create();
    model.grid.manipulate_cell(93, &Drawing::Goal);
    model.toggle_cell(500);
    // the goal is marked as the last cell of the path
    assert_eq!(kinds(&model, CellType::Path), vec![31, 62, 93]);
    assert!(kinds(&model, CellType::Goal).is_empty());
    model.toggle_cell(500);
    // so the second edit clears it away and has nothing to search for
    assert!(kinds(&model, CellType::Path).is_empty());
    assert!(kinds(&model, CellType::Goal).is_empty());
    assert_eq!(kinds(&model, CellType::Obstacle), vec![500]);
}

#[test]
fn path_avoids_painted_obstacles() {
    let mut model = Model::create();
    for y in 0..29 {
        model.toggle_cell(10 + 30 * y);
    }
    model.drawing = Drawing::Goal;
    model.toggle_cell(20);
    let path = kinds(&model, CellType::Path);
    assert!(path.contains(&20));
    assert!(path.contains(&(10 + 30 * 29)));
    for id in &path {
        assert!(!(id % 30 == 10 && id / 30 < 29));
    }
    assert_eq!(kinds(&model, CellType::Obstacle).len(), 29);
}

#[test]
fn messages_are_accepted_for_cells_on_the_grid() {
    let mut model = Model::create();
    assert!(model.accepts(&Msg::DrawGoal));
    assert!(model.accepts(&Msg::DrawingStart));
    assert!(model.accepts(&Msg::ForceToggle(899)));
    assert!(!model.accepts(&Msg::ForceToggle(900)));
    assert!(model.accepts(&Msg::ToggleCell(900)));
    model.update(Msg::DrawingStart);
    assert!(model.accepts(&Msg::ToggleCell(899)));
    assert!(!model.accepts(&Msg::ToggleCell(900)));
}

#[test]
fn painting_a_goal_elsewhere_moves_it_off_the_start() {
    let mut model = Model::create();
    model.drawing = Drawing::Goal;
    model.toggle_cell(0);
    // the goal is on the start: there is no path to mark
    assert_eq!(kinds(&model, CellType::Goal), vec![0]);
    assert!(kinds(&model, CellType::Path).is_empty());
    model.toggle_cell(93);
    // the goal has moved, and the search has marked the way to it
    assert!(kinds(&model, CellType::Goal).is_empty());
    assert_eq!(kinds(&model, CellType::Path), vec![31, 62, 93]);
    assert_eq!(model.grid.data[0].cell_type, CellType::Default);
}

#[test]
fn painting_a_goal_out_of_reach_leaves_one_goal() {
    let mut model = Model::create();
    for id in [868, 869, 898] {
        model.toggle_cell(id);
    }
    model.drawing = Drawing::Goal;
    model.toggle_cell(0);
    assert_eq!(kinds(&model, CellType::Goal), vec![0]);
    model.toggle_cell(899);
    // the corner is walled in: the goal stays where it was painted
    assert_eq!(kinds(&model, CellType::Goal), vec![899]);
    assert!(kinds(&model, CellType::Path).is_empty());
    assert_eq!(model.grid.data[0].cell_type, CellType::Default);
    model.toggle_cell(0);
    assert_eq!(kinds(&model, CellType::Goal), vec![0]);
    assert_eq!(model.grid.data[899].cell_type, CellType::Default);
    assert_eq!(kinds(&model, CellType::Obstacle), vec![868, 869, 898]);
}

#[test]
fn no_edit_leaves_two_goals() {
    let mut model = Model::create();
    let edits = [
        (Drawing::Goal, 0),
        (Drawing::Obstacle, 450),
        (Drawing::Goal, 899),
        (Drawing::Goal, 17),
        (Drawing::Default, 17),
        (Drawing::Goal, 0),
        (Drawing::Goal, 1),
        (Drawing::Obstacle, 1),
        (Drawing::Goal, 465),
    ];
    for (drawing, cell) in edits {
        model.drawing = drawing;
        model.toggle_cell(cell);
        assert!(kinds(&model, CellType::Goal).len() <= 1);
    }
}
