use queens::model::grid::{CoordinateError, Grid};
use queens::model::tile::Tile;

#[test]
fn new_grid_is_unmarked() {
    let g = Grid::new(10);
    assert_eq!(g.get_n(), 10);
    assert_eq!(g.get_data().len(), 100);
    for t in g.get_data() {
        assert!(!t.is_set());
        assert_eq!(t.get_raw_color(), 0);
    }
}

#[test]
fn get_set_tile() {
    let mut g = Grid::new(10);
    g.set_tile(5, Tile::new(true, 3));
    let t = g.get_tile(5).unwrap();
    assert!(t.is_set());
    assert_eq!(t.get_raw_color(), 3);
    assert!(!g.get_tile(4).unwrap().is_set());
}

#[test]
fn get_tile_out_of_bounds() {
    let g = Grid::new(10);
    match g.get_tile(100) {
        Err(CoordinateError::OutOfBounds { c }) => assert_eq!(c, 100),
        other => panic!("expected an out-of-bounds error, got {:?}", other),
    }
}

#[test]
fn split_and_merge_coordinate() {
    let g = Grid::new(10);
    assert_eq!(g.split_coordinate(37).unwrap(), (7, 3));
    assert_eq!(g.merge_coordinate(7, 3).unwrap(), 37);
    assert!(g.split_coordinate(100).is_err());
    match g.merge_coordinate(10, 0) {
        Err(CoordinateError::Invalid2DCoordinates { column, row, n }) => {
            assert_eq!((column, row, n), (10, 0, 10));
        }
        other => panic!("expected an invalid-pair error, got {:?}", other),
    }
}

#[test]
fn default_grid_is_ten_by_ten() {
    let g = Grid::default();
    assert_eq!(g.get_n(), 10);
    assert_eq!(g.get_data().len(), 100);
}

#[test]
fn tile_toggle_flips_and_restores() {
    let t = Tile::new(false, 4);
    let once = t.on_click();
    assert!(once.is_set());
    assert_eq!(once.get_raw_color(), 4);
    let twice = once.on_click();
    assert!(!twice.is_set());
    assert_eq!(twice, t);
}
