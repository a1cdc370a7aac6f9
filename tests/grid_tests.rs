use juicebox::error::Error;
use juicebox::grid::{SimGrid, SimGridCellType};

fn grid(rows: u16, cols: u16, h: u16) -> SimGrid {
    match SimGrid::new(rows, cols, h) {
        Ok(g) => g,
        Err(_) => panic!("grid construction failed"),
    }
}

#[test]
fn new_grid_is_blank_air() {
    let g = grid(4, 6, 5);
    assert_eq!(g.dimensions, (4, 6));
    assert_eq!(g.cell_type.len(), 4);
    assert!(g.cell_type.iter().all(|row| row.len() == 6));
    assert!(g.cell_type.iter().flatten().all(|t| *t == SimGridCellType::Air));
    assert_eq!(g.spatial_lookup.len(), 24);
    assert!(g.spatial_lookup.iter().all(|b| b.is_empty()));
}

#[test]
fn zero_dimension_is_a_grid_size_error() {
    assert!(matches!(SimGrid::new(0, 5, 5), Err(Error::GridSizeError(_))));
    assert!(matches!(SimGrid::new(5, 0, 5), Err(Error::GridSizeError(_))));
    assert!(matches!(SimGrid::new(5, 5, 0), Err(Error::GridSizeError(_))));
}

#[test]
fn default_grid_is_fifty_by_fifty() {
    let g = SimGrid::default();
    assert_eq!(g.dimensions, (50, 50));
    assert_eq!(g.cell_size, 5);
    assert_eq!(g.spatial_lookup.len(), 2500);
}

#[test]
fn set_cell_type_out_of_bounds() {
    let mut g = grid(3, 4, 5);
    assert!(matches!(
        g.set_grid_cell_type(3, 0, SimGridCellType::Solid),
        Err(Error::OutOfGridBounds(_))
    ));
    assert!(matches!(
        g.set_grid_cell_type(0, 4, SimGridCellType::Solid),
        Err(Error::OutOfGridBounds(_))
    ));
    assert!(g.cell_type.iter().flatten().all(|t| *t == SimGridCellType::Air));
    assert!(g.set_grid_cell_type(2, 3, SimGridCellType::Solid).is_ok());
    assert_eq!(g.cell_type[2][3], SimGridCellType::Solid);
}

#[test]
fn error_messages_are_kept() {
    let mut g = grid(3, 4, 5);
    match g.set_grid_cell_type(9, 0, SimGridCellType::Solid) {
        Err(e) => assert!(!e.message().is_empty()),
        Ok(()) => panic!("expected an error"),
    }
}

#[test]
fn wall_column_collision_values() {
    // A 20 x 20 grid of cell size 5 whose column 0 is Solid.
    let mut g = grid(20, 20, 5);
    for r in 0..20 {
        assert!(g.set_grid_cell_type(r, 0, SimGridCellType::Solid).is_ok());
    }
    assert_eq!(g.get_cell_type_value(10, 0), 0);
    assert_eq!(g.get_cell_type_value(10, 1), 1);
    assert_eq!(g.get_cell_type_value(20, 1), 0);
    assert_eq!(g.get_cell_type_value(1, 20), 0);
    // The wall's right face is the line x = 5, which a particle at x = 7.5 moving left hits.
    let (left, right, bottom, top) = g.get_cell_bounds(10, 0);
    assert_eq!((left, right), (0, 5));
    assert_eq!((bottom, top), (45, 50));
}

#[test]
fn lookup_index_and_coordinates() {
    let g = grid(4, 6, 5);
    assert_eq!(g.get_lookup_index(0, 0), 0);
    assert_eq!(g.get_lookup_index(2, 3), 15);
    assert!(g.are_coordinates_within_grid(3, 5));
    assert!(!g.are_coordinates_within_grid(4, 0));
    assert!(!g.are_coordinates_within_grid(0, 6));
    assert!(!g.are_coordinates_within_grid(-1, 2));
    assert_eq!(g.clamp_cell_coordinates(-3, 9), (0, 5));
    assert_eq!(g.clamp_cell_coordinates(7, -1), (3, 0));
    assert_eq!(g.clamp_cell_coordinates(2, 4), (2, 4));
}

#[test]
fn face_positions() {
    let g = grid(50, 50, 5);
    // Horizontal-velocity face on the left side of cell (0, 0).
    assert_eq!(g.get_velocity_point_pos(0, 0, true), (0, 248));
    // Vertical-velocity face on the top side of cell (0, 0).
    assert_eq!(g.get_velocity_point_pos(0, 0, false), (2, 250));
    assert_eq!(g.get_velocity_point_pos(49, 50, true), (250, 3));
    assert_eq!(g.get_velocity_point_pos(50, 3, false), (17, 0));
}

#[test]
fn cell_corner_positions_are_clamped() {
    let g = grid(10, 8, 5);
    assert_eq!(g.get_cell_position_from_coordinates(0, 0), (0, 45));
    assert_eq!(g.get_cell_position_from_coordinates(9, 7), (35, 0));
    assert_eq!(g.get_cell_position_from_coordinates(12, -2), (0, 0));
    assert_eq!(g.get_cell_position_from_coordinates(-1, 20), (40, 45));
}

#[test]
fn selection_window_clips_and_keeps_duplicates() {
    let g = grid(10, 10, 5);
    // A 3 x 3 window whose bottom-left cell is (1, -1): the column outside the grid repeats
    // column 0, and the row above row 0 repeats row 0.
    let cells = g.select_grid_cells(1, -1, 3, 3);
    assert_eq!(cells.len(), 9);
    assert_eq!(
        cells,
        vec![(1, 0), (0, 0), (0, 0), (1, 0), (0, 0), (0, 0), (1, 1), (0, 1), (0, 1)]
    );
    let inner = g.select_grid_cells(5, 4, 2, 2);
    assert_eq!(inner, vec![(5, 4), (4, 4), (5, 5), (4, 5)]);
    assert!(g.select_grid_cells(5, 4, 0, 3).is_empty());
}

#[test]
fn force_edge_solids_closes_the_box() {
    let mut g = grid(10, 10, 5);
    assert!(g.set_grid_cell_type(5, 5, SimGridCellType::Fluid).is_ok());
    g.force_edge_solids();
    for r in 0..10 {
        for c in 0..10 {
            let edge = r == 0 || r == 9 || c == 0 || c == 9;
            let expected = if edge {
                SimGridCellType::Solid
            } else if r == 5 && c == 5 {
                SimGridCellType::Fluid
            } else {
                SimGridCellType::Air
            };
            assert_eq!(g.cell_type[r][c], expected);
        }
    }
}

#[test]
fn force_edge_solids_on_a_wide_grid() {
    let mut g = grid(3, 7, 5);
    g.force_edge_solids();
    assert_eq!(g.cell_type[1][6], SimGridCellType::Solid);
    assert_eq!(g.cell_type[2][4], SimGridCellType::Solid);
    assert_eq!(g.cell_type[1][3], SimGridCellType::Air);
}

#[test]
fn resize_and_cell_size() {
    let mut g = grid(3, 3, 5);
    assert!(matches!(g.set_grid_dimensions(0, 4), Err(Error::GridSizeError(_))));
    assert_eq!(g.dimensions, (3, 3));
    assert!(g.set_grid_dimensions(7, 2).is_ok());
    assert_eq!(g.dimensions, (2, 7));
    assert_eq!(g.spatial_lookup.len(), 14);
    assert!(matches!(g.set_grid_cell_size(0), Err(Error::GridSizeError(_))));
    assert_eq!(g.cell_size, 5);
    assert!(g.set_grid_cell_size(8).is_ok());
    assert_eq!(g.cell_size, 8);
}

#[test]
fn cell_solids_mask() {
    let mut g = grid(3, 3, 5);
    assert!(g.set_grid_cell_type(1, 0, SimGridCellType::Solid).is_ok());
    assert_eq!(g.calculate_cell_solids(1, 1), [1, 0, 1, 1, 1]);
    assert_eq!(g.calculate_cell_solids(0, 0), [1, 0, 1, 0, 0]);
    assert_eq!(g.calculate_cell_solids(2, 2), [1, 1, 0, 1, 0]);
}

#[test]
fn transfer_faces() {
    let mut g = grid(3, 3, 5);
    // Boundary faces never receive a transfer.
    assert!(!g.face_receives_transfer(1, 0, true));
    assert!(!g.face_receives_transfer(1, 3, true));
    assert!(!g.face_receives_transfer(0, 1, false));
    assert!(!g.face_receives_transfer(3, 1, false));
    // Between two Air cells: skipped.
    assert!(!g.face_receives_transfer(1, 1, true));
    assert!(g.set_grid_cell_type(1, 1, SimGridCellType::Fluid).is_ok());
    assert!(g.face_receives_transfer(1, 1, true));
    assert!(g.face_receives_transfer(1, 1, false));
    // Between two Solid cells: skipped.
    assert!(g.set_grid_cell_type(0, 0, SimGridCellType::Solid).is_ok());
    assert!(g.set_grid_cell_type(0, 1, SimGridCellType::Solid).is_ok());
    assert!(!g.face_receives_transfer(0, 1, true));
}

#[test]
fn cup_layout() {
    // A U-shaped solid at rows 40..43, columns 32..39.
    let mut g = SimGrid::default();
    for r in 40..44 {
        assert!(g.set_grid_cell_type(r, 32, SimGridCellType::Solid).is_ok());
        assert!(g.set_grid_cell_type(r, 39, SimGridCellType::Solid).is_ok());
    }
    for c in 32..40 {
        assert!(g.set_grid_cell_type(43, c, SimGridCellType::Solid).is_ok());
    }
    assert_eq!(g.get_cell_type_value(42, 35), 1);
    assert_eq!(g.get_cell_type_value(43, 35), 0);
    assert_eq!(g.calculate_cell_solids(42, 33), [1, 0, 1, 1, 0]);
}
