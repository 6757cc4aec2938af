use queens::errors::QueensError;
use queens::model::game_rule_broken::GameRuleBroken;
use queens::model::generator::try_generate_layout;
use queens::model::grid::Grid;
use queens::model::layout::{section, Area, Layout, LayoutType};
use queens::model::state::{GameState, InGameState, State};
use queens::model::tile::Tile;

#[test]
fn fresh_board_has_no_violations_and_is_not_won() {
    let s = InGameState::new(10, LayoutType::Easy);
    let (errors, solved) = s.get_win_status(10).unwrap();
    assert!(errors.is_empty());
    assert!(!solved);
}

#[test]
fn row_bands_non_attacking_marking_wins() {
    // one marker per row, columns spread so no two touch diagonally
    let cols = [0, 2, 4, 6, 8, 1, 3, 5, 7, 9];
    let mut s = InGameState::new(10, LayoutType::Easy);
    for (row, col) in cols.iter().enumerate() {
        s.flip_tile(row * 10 + col).unwrap();
    }
    let (errors, solved) = s.get_win_status(10).unwrap();
    assert!(errors.is_empty());
    assert!(solved);
}

#[test]
fn row_bands_main_diagonal_trips_the_diagonal_rule() {
    // markers on the main diagonal are pairwise diagonally adjacent, so the
    // checker reports one violation per adjacent pair and the game is not won
    let mut s = InGameState::new(10, LayoutType::Easy);
    for i in 0..10 {
        s.flip_tile(i * 10 + i).unwrap();
    }
    let (errors, solved) = s.get_win_status(10).unwrap();
    assert_eq!(errors.len(), 9);
    for e in &errors {
        assert!(matches!(e, GameRuleBroken::Diagonal { .. }));
    }
    assert!(!solved);
}

#[test]
fn two_marks_in_one_row_give_one_row_violation() {
    let mut s = InGameState::new(10, LayoutType::Complex);
    s.flip_tile(10).unwrap();
    s.flip_tile(13).unwrap();
    let (errors, solved) = s.get_win_status(10).unwrap();
    assert_eq!(errors.len(), 1);
    match &errors[0] {
        GameRuleBroken::Row { row } => assert_eq!(*row, 1),
        other => panic!("expected a row violation, got {:?}", other),
    }
    assert!(!solved);
}

#[test]
fn diagonal_neighbours_give_one_diagonal_violation() {
    let mut s = InGameState::new(10, LayoutType::Complex);
    s.flip_tile(0).unwrap();
    s.flip_tile(11).unwrap();
    let (errors, solved) = s.get_win_status(10).unwrap();
    assert_eq!(errors.len(), 1);
    match &errors[0] {
        GameRuleBroken::Diagonal { c1, c2 } => assert_eq!((*c1, *c2), (0, 11)),
        other => panic!("expected a diagonal violation, got {:?}", other),
    }
    assert!(!solved);
}

fn columns_layout() -> Layout {
    let mut areas = Vec::new();
    for i in 0..10 {
        let mut secs = Vec::new();
        for r in 0..10 {
            secs.push(section(r * 10 + i, r * 10 + i + 1));
        }
        areas.push(Area::from_sections(secs, i as u8));
    }
    Layout { areas }
}

fn session_from(layout: Layout) -> InGameState {
    let mut grid = Grid::new(10);
    for area in layout.get_areas() {
        for &c in area.get_sections() {
            grid.set_tile(c, Tile::new(false, area.get_color()));
        }
    }
    InGameState { grid, layout, marked: None }
}

#[test]
fn both_diagonals_of_one_cell_report_twice_plus_the_shared_row() {
    let mut s = session_from(columns_layout());
    s.flip_tile(15).unwrap();
    s.flip_tile(24).unwrap();
    s.flip_tile(26).unwrap();
    let (errors, solved) = s.get_win_status(10).unwrap();
    assert_eq!(errors.len(), 3);
    match &errors[0] {
        GameRuleBroken::Diagonal { c1, c2 } => assert_eq!((*c1, *c2), (15, 26)),
        other => panic!("expected a diagonal violation, got {:?}", other),
    }
    match &errors[1] {
        GameRuleBroken::Diagonal { c1, c2 } => assert_eq!((*c1, *c2), (15, 24)),
        other => panic!("expected a diagonal violation, got {:?}", other),
    }
    match &errors[2] {
        GameRuleBroken::Row { row } => assert_eq!(*row, 2),
        other => panic!("expected a row violation, got {:?}", other),
    }
    assert!(!solved);
}

#[test]
fn duplicate_color_off_the_layout_is_a_fatal_mismatch() {
    // a layout that covers only cell 0 cannot explain a second default-colored
    // marker, so the checker reports the inconsistency instead of a result
    let layout = Layout { areas: vec![Area::from_usize(0, 0)] };
    let grid = Grid::new(10);
    let mut s = InGameState { grid, layout, marked: None };
    s.flip_tile(1).unwrap();
    s.flip_tile(2).unwrap();
    match s.get_win_status(10) {
        Err(QueensError::AreaNotFound { c }) => assert_eq!(c, 2),
        other => panic!("expected an area-not-found error, got {:?}", other),
    }
}

#[test]
fn flip_tile_out_of_bounds_fails() {
    let mut s = InGameState::new(10, LayoutType::Easy);
    match s.flip_tile(100) {
        Err(QueensError::OutOfBounds { c }) => assert_eq!(c, 100),
        other => panic!("expected an out-of-bounds error, got {:?}", other),
    }
}

#[test]
fn flip_twice_restores_the_tile() {
    let mut s = InGameState::new(10, LayoutType::Complex);
    let before = s.get_tile(42).unwrap();
    s.flip_tile(42).unwrap();
    assert!(s.get_tile(42).unwrap().is_set());
    s.flip_tile(42).unwrap();
    let after = s.get_tile(42).unwrap();
    assert_eq!(before.is_set(), after.is_set());
    assert_eq!(before.get_raw_color(), after.get_raw_color());
}

#[test]
fn generated_seed_cells_win_the_game() {
    let mut produced = None;
    for _ in 0..100 {
        if let Some(l) = try_generate_layout() {
            produced = Some(l);
            break;
        }
    }
    let l = produced.expect("no attempt produced a layout");
    let seeds: Vec<usize> = l.get_areas().iter().map(|a| a.get_sections()[0]).collect();
    let mut s = session_from(l);
    for &c in &seeds {
        s.flip_tile(c).unwrap();
    }
    let (errors, solved) = s.get_win_status(10).unwrap();
    assert!(errors.is_empty());
    assert!(solved);
}

#[test]
fn session_state_flow() {
    let mut state = State::default();
    assert_eq!(state.get_n(), 10);
    assert!(matches!(state.get_game_state(), GameState::MainMenu));
    assert_eq!(*state.get_layout_type(), LayoutType::Generated);

    state.set_layout_type(LayoutType::Easy);
    state.set_n(10);
    state.load_in_game();
    assert!(matches!(state.get_game_state(), GameState::InGame(_)));

    assert_eq!(state.get_marked(), None);
    state.set_marked(Some(5));
    assert_eq!(state.get_marked(), Some(5));

    state.flip_tile(7).unwrap();
    assert!(state.get_tile(7).unwrap().is_set());
    assert!(state.get_grid().get_tile(7).unwrap().is_set());
    assert_eq!(state.get_layout().get_areas().len(), 10);

    let (errors, solved) = state.get_win_status().unwrap();
    assert!(errors.is_empty());
    assert!(!solved);

    state.set_tile(7, Tile::new(false, 0));
    assert!(!state.get_tile(7).unwrap().is_set());

    state.set_game_won();
    assert!(matches!(state.get_game_state(), GameState::Won));
}

#[test]
fn in_game_accessors_match() {
    let mut state = State::default();
    state.set_layout_type(LayoutType::Complex);
    state.load_in_game();
    state.in_game_mut().set_marked(Some(3));
    assert_eq!(state.in_game().get_marked(), Some(3));
}

#[test]
fn zero_sized_board_is_vacuously_solved() {
    // with no rows, columns or colors to cover, the win condition holds
    let s = InGameState {
        grid: Grid::new(0),
        layout: Layout { areas: Vec::new() },
        marked: None,
    };
    let (errors, solved) = s.get_win_status(0).unwrap();
    assert!(errors.is_empty());
    assert!(solved);
}

#[test]
fn row_bands_spread_columns_solve_the_board() {
    let mut s = InGameState::new(10, LayoutType::Easy);
    for &c in &[1, 13, 25, 37, 49, 50, 62, 74, 86, 98] {
        s.flip_tile(c).unwrap();
    }
    let (errors, solved) = s.get_win_status(10).unwrap();
    assert!(errors.is_empty());
    assert!(solved);
}

#[test]
fn row_bands_shared_row_also_shares_its_region() {
    // two marks in one row of the row-bands layout share its region too, so
    // the checker reports the row and the area, in traversal order
    let mut s = InGameState::new(10, LayoutType::Easy);
    s.flip_tile(0).unwrap();
    s.flip_tile(5).unwrap();
    let (errors, solved) = s.get_win_status(10).unwrap();
    assert_eq!(errors.len(), 2);
    match &errors[0] {
        GameRuleBroken::Row { row } => assert_eq!(*row, 0),
        other => panic!("expected a row violation, got {:?}", other),
    }
    match &errors[1] {
        GameRuleBroken::Area { area } => assert_eq!(area.get_color(), 0),
        other => panic!("expected an area violation, got {:?}", other),
    }
    assert!(!solved);
}

#[test]
fn row_bands_diagonal_pair_reports_once() {
    let mut s = InGameState::new(10, LayoutType::Easy);
    s.flip_tile(0).unwrap();
    s.flip_tile(11).unwrap();
    let (errors, solved) = s.get_win_status(10).unwrap();
    assert_eq!(errors.len(), 1);
    match &errors[0] {
        GameRuleBroken::Diagonal { c1, c2 } => assert_eq!((*c1, *c2), (0, 11)),
        other => panic!("expected a diagonal violation, got {:?}", other),
    }
    assert!(!solved);
}

#[test]
fn row_bands_double_diagonal_reports_each_pair_once() {
    // cell 5 with both forward diagonal neighbours marked: two diagonal
    // violations from cell 5, then the lower pair's shared row and region
    let mut s = InGameState::new(10, LayoutType::Easy);
    s.flip_tile(5).unwrap();
    s.flip_tile(14).unwrap();
    s.flip_tile(16).unwrap();
    let (errors, solved) = s.get_win_status(10).unwrap();
    assert_eq!(errors.len(), 4);
    match &errors[0] {
        GameRuleBroken::Diagonal { c1, c2 } => assert_eq!((*c1, *c2), (5, 16)),
        other => panic!("expected a diagonal violation, got {:?}", other),
    }
    match &errors[1] {
        GameRuleBroken::Diagonal { c1, c2 } => assert_eq!((*c1, *c2), (5, 14)),
        other => panic!("expected a diagonal violation, got {:?}", other),
    }
    match &errors[2] {
        GameRuleBroken::Row { row } => assert_eq!(*row, 1),
        other => panic!("expected a row violation, got {:?}", other),
    }
    match &errors[3] {
        GameRuleBroken::Area { area } => assert_eq!(area.get_color(), 1),
        other => panic!("expected an area violation, got {:?}", other),
    }
    assert!(!solved);
}
