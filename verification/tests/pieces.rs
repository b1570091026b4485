use pcf::{BitBoard, ConfigError, Geometry, Piece, PieceSet, PieceState, Placement};

fn square_state() -> PieceState {
    PieceState { piece: Piece::O, width: 2, cells: BitBoard(0b11 | (0b11 << 10)) }
}

#[test]
fn empty_set_contains_nothing() {
    let set = PieceSet::empty();
    for piece in [Piece::I, Piece::O, Piece::T, Piece::L, Piece::J, Piece::S, Piece::Z] {
        assert!(!set.contains(piece));
        assert_eq!(set.number_of(piece), 0);
    }
}

#[test]
fn with_adds_one_piece() {
    let set = PieceSet::empty().with(Piece::T).with(Piece::T).with(Piece::Z);
    assert_eq!(set, PieceSet { i: 0, o: 0, t: 2, l: 0, j: 0, s: 0, z: 1 });
    assert!(set.contains(Piece::T));
    assert!(set.contains(Piece::Z));
    assert!(!set.contains(Piece::I));
}

#[test]
fn without_removes_one_piece_and_leaves_the_set_it_came_from() {
    let set = PieceSet { i: 1, o: 0, t: 2, l: 0, j: 0, s: 0, z: 0 };
    let less = set.without(Piece::T);
    assert_eq!(less, PieceSet { i: 1, o: 0, t: 1, l: 0, j: 0, s: 0, z: 0 });
    assert_eq!(set.number_of(Piece::T), 2);
    assert_eq!(less.without(Piece::T).without(Piece::I), PieceSet::empty());
}

#[test]
fn without_a_missing_piece_changes_nothing() {
    let set = PieceSet { i: 1, o: 0, t: 0, l: 0, j: 0, s: 0, z: 0 };
    assert_eq!(set.without(Piece::O), set);
}

#[test]
fn piece_state_gives_its_parts() {
    let s = square_state();
    assert_eq!(s.piece(), Piece::O);
    assert_eq!(s.width(), 2);
    assert_eq!(s.board(), BitBoard(0b11 | (0b11 << 10)));
}

#[test]
fn piece_state_is_valid_when_it_fits() {
    let s = square_state();
    assert!(s.is_valid(2));
    assert!(s.is_valid(6));
    assert!(!s.is_valid(1));
    assert!(!s.is_valid(0));
}

#[test]
fn piece_state_without_cells_is_not_valid() {
    let s = PieceState { piece: Piece::O, width: 2, cells: BitBoard(0) };
    assert!(!s.is_valid(4));
}

#[test]
fn piece_state_wider_than_it_says_is_not_valid() {
    let s = PieceState { piece: Piece::I, width: 3, cells: BitBoard(0b1111) };
    assert!(!s.is_valid(4));
    let no_width = PieceState { piece: Piece::I, width: 0, cells: BitBoard(0b1) };
    assert!(!no_width.is_valid(4));
    let too_wide = PieceState { piece: Piece::I, width: 11, cells: BitBoard(0b1) };
    assert!(!too_wide.is_valid(4));
}

#[test]
fn piece_state_with_a_cell_past_the_last_row_is_not_valid() {
    let s = PieceState { piece: Piece::I, width: 1, cells: BitBoard(1 << 60) };
    assert!(!s.is_valid(6));
}

#[test]
fn placement_board_moves_the_cells_to_the_right() {
    let p = Placement { kind: square_state(), x: 3 };
    assert_eq!(p.board(), BitBoard((0b11 << 3) | (0b11 << 13)));
    let q = Placement { kind: square_state(), x: 0 };
    assert_eq!(q.board(), square_state().cells);
    let r = Placement { kind: square_state(), x: 8 };
    assert_eq!(r.board(), BitBoard((0b11 << 8) | (0b11 << 18)));
}

#[test]
fn placement_is_valid_inside_the_columns() {
    assert!(Placement { kind: square_state(), x: 0 }.is_valid());
    assert!(Placement { kind: square_state(), x: 8 }.is_valid());
    assert!(!Placement { kind: square_state(), x: 9 }.is_valid());
    assert!(!Placement { kind: square_state(), x: 200 }.is_valid());
    let nothing = PieceState { piece: Piece::O, width: 2, cells: BitBoard(0) };
    assert!(!Placement { kind: nothing, x: 0 }.is_valid());
}

#[test]
fn geometry_keeps_height_and_states() {
    let g = Geometry::new(2, vec![square_state()]).unwrap();
    assert_eq!(g.height(), 2);
    assert_eq!(g.len(), 1);
    assert_eq!(g.state(0), square_state());
}

#[test]
fn geometry_may_be_empty() {
    let g = Geometry::new(0, vec![]).unwrap();
    assert_eq!(g.height(), 0);
    assert_eq!(g.len(), 0);
}

#[test]
fn geometry_refuses_a_height_over_six() {
    assert_eq!(Geometry::new(7, vec![]).err(), Some(ConfigError::HeightTooLarge));
    assert_eq!(Geometry::new(7, vec![square_state()]).err(), Some(ConfigError::HeightTooLarge));
    assert!(Geometry::new(6, vec![square_state()]).is_ok());
}

#[test]
fn geometry_names_the_first_bad_orientation() {
    let tall = PieceState {
        piece: Piece::I,
        width: 1,
        cells: BitBoard(1 | (1 << 10) | (1 << 20) | (1 << 30)),
    };
    let r = Geometry::new(3, vec![square_state(), tall, tall]);
    assert_eq!(r.err(), Some(ConfigError::BadOrientation(1)));
    assert!(Geometry::new(4, vec![square_state(), tall, tall]).is_ok());
}

#[test]
fn every_error_says_what_went_wrong() {
    assert_eq!(
        ConfigError::HeightTooLarge.message(),
        "the height is larger than a board can hold"
    );
    assert_eq!(
        ConfigError::BadOrientation(3).message(),
        "an orientation of the table does not fit the field"
    );
    assert_eq!(
        ConfigError::HeightMismatch.message(),
        "the height is not the height of the geometry"
    );
    assert_eq!(
        ConfigError::BoardOutOfField.message(),
        "the board has a filled cell outside the field"
    );
}
