use pcf::{find_combos, BitBoard, Candidate, Geometry, Piece, PieceSet, PieceState, Placement};

fn gen_square() -> PieceState {
    PieceState { piece: Piece::O, width: 2, cells: BitBoard(0b11 | (0b11 << 10)) }
}

fn gen_bar(row: u64) -> PieceState {
    PieceState { piece: Piece::I, width: 4, cells: BitBoard(0b1111 << (10 * row)) }
}

fn gen_pole() -> PieceState {
    PieceState { piece: Piece::I, width: 1, cells: BitBoard(1 | (1 << 10)) }
}

fn gen_table() -> Geometry {
    Geometry::new(2, vec![gen_square(), gen_bar(0), gen_bar(1)]).unwrap()
}

fn gen_pieces(i: u8, o: u8) -> PieceSet {
    PieceSet { i, o, t: 0, l: 0, j: 0, s: 0, z: 0 }
}

#[test]
fn empty_board_offers_what_covers_the_first_cell() {
    let full = BitBoard::filled(2);
    let found = find_combos(&gen_table(), BitBoard(0), full, gen_pieces(2, 1), 2);
    let square = Placement { kind: gen_square(), x: 0 };
    let bar = Placement { kind: gen_bar(0), x: 0 };
    assert_eq!(
        found,
        vec![
            Candidate {
                placement: square,
                board: BitBoard(0b11 | (0b11 << 10)),
                inverse_placed: BitBoard(0xf_ffff & !(0b11 | (0b11 << 10))),
                piece_set: gen_pieces(2, 0),
            },
            Candidate {
                placement: bar,
                board: BitBoard(0b1111),
                inverse_placed: BitBoard(0xf_ffff & !0b1111),
                piece_set: gen_pieces(1, 1),
            },
        ]
    );
}

#[test]
fn candidates_follow_the_order_of_the_table() {
    let table = Geometry::new(2, vec![gen_bar(1), gen_bar(0), gen_square()]).unwrap();
    let found = find_combos(&table, BitBoard(0), BitBoard::filled(2), gen_pieces(2, 1), 2);
    let kinds: Vec<PieceState> = found.iter().map(|c| c.placement.kind).collect();
    assert_eq!(kinds, vec![gen_bar(0), gen_square()]);
}

#[test]
fn pieces_that_are_used_up_are_not_offered() {
    let found = find_combos(&gen_table(), BitBoard(0), BitBoard::filled(2), gen_pieces(1, 0), 2);
    assert_eq!(found.len(), 1);
    assert_eq!(found[0].placement, Placement { kind: gen_bar(0), x: 0 });
    assert_eq!(found[0].piece_set, gen_pieces(0, 0));
    let none = find_combos(&gen_table(), BitBoard(0), BitBoard::filled(2), gen_pieces(0, 0), 2);
    assert!(none.is_empty());
}

#[test]
fn placement_starts_at_the_leftmost_open_column() {
    // a bar lies in the lower row of columns 0 to 3
    let board = BitBoard(0b1111);
    let inverse = BitBoard::filled(2).remove(board);
    let found = find_combos(&gen_table(), board, inverse, gen_pieces(2, 2), 2);
    assert_eq!(found.len(), 1);
    assert_eq!(found[0].placement, Placement { kind: gen_bar(1), x: 0 });
    assert_eq!(found[0].board, BitBoard(0b1111 | (0b1111 << 10)));
    assert_eq!(found[0].inverse_placed, BitBoard(0xf_ffff & !(0b1111 | (0b1111 << 10))));
}

#[test]
fn pieces_that_reach_past_the_last_column_are_not_offered() {
    // everything but the last two columns is full
    let open = BitBoard((0b11 << 8) | (0b11 << 18));
    let board = BitBoard::filled(2).remove(open);
    let found = find_combos(&gen_table(), board, open, gen_pieces(2, 2), 2);
    assert_eq!(found.len(), 1);
    assert_eq!(found[0].placement, Placement { kind: gen_square(), x: 8 });
    assert_eq!(found[0].board, BitBoard::filled(2));
    assert_eq!(found[0].inverse_placed, BitBoard(0));
}

#[test]
fn pieces_that_touch_a_filled_cell_are_not_offered() {
    // cell (1, 0) is filled: neither the square nor the bar can cover (0, 0)
    let board = BitBoard(0b10);
    let table = Geometry::new(2, vec![gen_square(), gen_bar(0), gen_bar(1), gen_pole()]).unwrap();
    let found = find_combos(&table, board, BitBoard::filled(2), gen_pieces(2, 2), 2);
    assert_eq!(found.len(), 1);
    assert_eq!(found[0].placement, Placement { kind: gen_pole(), x: 0 });
}

#[test]
fn every_candidate_covers_the_target_and_spares_the_board() {
    let table = Geometry::new(2, vec![gen_square(), gen_bar(0), gen_bar(1), gen_pole()]).unwrap();
    let boards = [0u64, 0b1, 0b11, 0b1111, 0b1 | (0b1 << 10), 0x3ff, 0xf_fffe, 0x7_fdff];
    for bits in boards {
        let board = BitBoard(bits);
        let x = board.leftmost_empty_column(2);
        let y = board.lowest_empty_row(x, 2);
        for c in find_combos(&table, board, BitBoard::filled(2), gen_pieces(4, 4), 2) {
            let cells = c.placement.board();
            assert_eq!(c.placement.x as usize, x);
            assert!(cells.cell_filled(x, y));
            assert!(!cells.overlaps(board));
            assert_eq!(c.board, cells.combine(board));
            assert_eq!(c.inverse_placed, BitBoard::filled(2).remove(cells));
        }
    }
}

#[test]
fn full_board_has_no_candidate() {
    let full = BitBoard::filled(2);
    let found = find_combos(&gen_table(), full, BitBoard(0), gen_pieces(2, 2), 2);
    assert!(found.is_empty());
}
