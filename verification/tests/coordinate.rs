use queens::model::coordinate::{ContextCoordinate, Coordinate};

#[test]
fn context_coordinate_getters() {
    let c = ContextCoordinate::new(3, 7, 10);
    assert_eq!(c.get_row(), 3);
    assert_eq!(c.get_col(), 7);
    assert_eq!(c.get_n(), 10);
}

#[test]
fn from_context_builds_linear_index() {
    let c = Coordinate::from_context(2, 3, 10).unwrap();
    assert_eq!(c.get(), 23);
}

#[test]
fn from_context_rejects_out_of_bounds() {
    assert!(Coordinate::from_context(10, 0, 10).is_err());
    assert!(Coordinate::from_context(0, 10, 10).is_err());
    assert!(Coordinate::from_context(9, 9, 10).is_ok());
}

#[test]
fn from_context_signed_rejects_negative() {
    assert!(Coordinate::from_context_signed(-1, 0, 10).is_err());
    assert!(Coordinate::from_context_signed(0, -1, 10).is_err());
    let c = Coordinate::from_context_signed(2, 3, 10).unwrap();
    assert_eq!(c.get(), 23);
}

#[test]
fn coordinate_round_trip() {
    // for every in-bounds pair the conversion there and back is exact
    for col in 0..10 {
        for row in 0..10 {
            let c = Coordinate::from_context(col, row, 10).unwrap();
            let (back_col, back_row) = c.to_coords(10).unwrap();
            assert_eq!((back_col, back_row), (col, row));
        }
    }
}

#[test]
fn to_coords_rejects_out_of_bounds() {
    let c = Coordinate { raw: 100 };
    assert!(c.to_coords(10).is_err());
    let c2 = Coordinate { raw: 99 };
    assert_eq!(c2.to_coords(10).unwrap(), (9, 9));
}

#[test]
fn coordinate_from_raw_index() {
    let c = Coordinate::from(42usize);
    assert_eq!(c.get(), 42);
}
