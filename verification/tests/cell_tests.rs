use sudoku::cell::{Cell, CellVal, Coord, Error, ErrorKind};

#[test]
fn coord_new_accepts_in_bounds() {
    let c = Coord::new(5, 7).unwrap();
    assert_eq!(c.row(), 5);
    assert_eq!(c.col(), 7);
}

#[test]
fn coord_new_rejects_out_of_bounds() {
    assert!(matches!(Coord::new(0, 5), Err(_)));
    assert!(matches!(Coord::new(10, 1), Err(_)));
    assert!(matches!(Coord::new(1, 0), Err(_)));
    assert!(matches!(Coord::new(1, 10), Err(_)));
    let e = Coord::new(0, 0).unwrap_err();
    assert_eq!(e.kind(), ErrorKind::OutOfBounds);
    assert_eq!(e.message(), "Index out of bounds");
}

#[test]
fn coord_grid_numbers_boxes_row_major() {
    assert_eq!(Coord::new(1, 1).unwrap().grid(), 1);
    assert_eq!(Coord::new(1, 4).unwrap().grid(), 2);
    assert_eq!(Coord::new(1, 9).unwrap().grid(), 3);
    assert_eq!(Coord::new(3, 3).unwrap().grid(), 1);
    assert_eq!(Coord::new(4, 1).unwrap().grid(), 4);
    assert_eq!(Coord::new(5, 5).unwrap().grid(), 5);
    assert_eq!(Coord::new(6, 7).unwrap().grid(), 6);
    assert_eq!(Coord::new(7, 2).unwrap().grid(), 7);
    assert_eq!(Coord::new(9, 9).unwrap().grid(), 9);
}

#[test]
fn cellval_new_maps_digits_and_clears_others() {
    for v in 1..=9usize {
        assert_eq!(CellVal::new(v).as_usize(), v);
    }
    assert_eq!(CellVal::new(0), CellVal::Empty);
    assert_eq!(CellVal::new(10), CellVal::Empty);
    assert_eq!(CellVal::new(usize::MAX), CellVal::Empty);
}

#[test]
fn cell_holds_value_position_and_leftovers() {
    let pos = Coord::new(2, 3).unwrap();
    let remaining = vec![CellVal::Four, CellVal::Seven];
    let mut cell = Cell::new(CellVal::One, pos, remaining);
    assert_eq!(cell.val(), CellVal::One);
    assert_eq!(cell.pos().row(), 2);
    assert_eq!(cell.pos().col(), 3);
    assert_eq!(cell.remaining().len(), 2);
    assert_eq!(cell.remaining()[0], CellVal::Four);

    cell.to_empty_cell();
    assert_eq!(cell.val(), CellVal::Empty);
    assert_eq!(cell.pos().row(), 2);
    assert_eq!(cell.remaining().len(), 2);
}

#[test]
fn error_constructors_report_their_kind() {
    let e = Error::overwrite_error();
    assert_eq!(e.kind(), ErrorKind::ClueOverwrite);
    assert_eq!(e.message(), "Cannot overwrite cell given as clue");
}
