use pcf::{
    find_combinations, find_combinations_mt, find_combinations_spread, find_combos_st, Always,
    BitBoard, Collector, ComboConsumer, ConfigError, FnConsumer, FnRule, Geometry,
    LimitedCollector, Piece, PieceSet, PieceState, Placement, SearchStatus,
};
use std::collections::BTreeSet;

const ROW: u64 = 0x3ff;

/// The cells of the seven pieces in one rotation each.
fn shapes() -> Vec<(Piece, Vec<(i32, i32)>)> {
    vec![
        (Piece::I, vec![(0, 0), (1, 0), (2, 0), (3, 0)]),
        (Piece::O, vec![(0, 0), (1, 0), (0, 1), (1, 1)]),
        (Piece::T, vec![(0, 0), (1, 0), (2, 0), (1, 1)]),
        (Piece::L, vec![(0, 0), (1, 0), (2, 0), (2, 1)]),
        (Piece::J, vec![(0, 0), (1, 0), (2, 0), (0, 1)]),
        (Piece::S, vec![(0, 0), (1, 0), (1, 1), (2, 1)]),
        (Piece::Z, vec![(1, 0), (2, 0), (0, 1), (1, 1)]),
    ]
}

fn normal(cells: &[(i32, i32)]) -> Vec<(i32, i32)> {
    let min_x = cells.iter().map(|c| c.0).min().unwrap();
    let min_y = cells.iter().map(|c| c.1).min().unwrap();
    let mut moved: Vec<(i32, i32)> = cells.iter().map(|c| (c.0 - min_x, c.1 - min_y)).collect();
    moved.sort();
    moved
}

/// Every rotation of every piece at every row where it fits below `height`.
fn all_states(height: usize) -> Vec<PieceState> {
    let mut states = Vec::new();
    for (piece, cells) in shapes() {
        let mut seen: Vec<Vec<(i32, i32)>> = Vec::new();
        let mut turned = cells.clone();
        for _ in 0..4 {
            turned = normal(&turned.iter().map(|c| (c.1, -c.0)).collect::<Vec<_>>());
            if seen.contains(&turned) {
                continue;
            }
            seen.push(turned.clone());
            let width = turned.iter().map(|c| c.0).max().unwrap() + 1;
            let tall = turned.iter().map(|c| c.1).max().unwrap() + 1;
            for up in 0..=(height as i32 - tall) {
                let mask: u64 = turned.iter().map(|c| 1u64 << (c.0 + 10 * (c.1 + up))).sum();
                states.push(PieceState { piece, width: width as u8, cells: BitBoard(mask) });
            }
        }
    }
    states
}

fn inventory(i: u8, o: u8, t: u8, l: u8, j: u8, s: u8, z: u8) -> PieceSet {
    PieceSet { i, o, t, l, j, s, z }
}

fn count_of(set: &PieceSet, piece: Piece) -> u8 {
    set.number_of(piece)
}

/// Every exact cover of the open cells by placements, found by trying to
/// cover the open cell of the lowest bit first.
fn covers(
    states: &[PieceState],
    board: u64,
    full: u64,
    left: PieceSet,
    chosen: &mut Vec<u64>,
    out: &mut BTreeSet<Vec<u64>>,
) {
    if board == full {
        let mut cover = chosen.clone();
        cover.sort();
        out.insert(cover);
        return;
    }
    let target = 1u64 << (full & !board).trailing_zeros();
    for s in states {
        if count_of(&left, s.piece) == 0 {
            continue;
        }
        for x in 0..=(10 - s.width as u64) {
            let cells = s.cells.0 << x;
            if cells & target == 0 || cells & board != 0 || cells & !full != 0 {
                continue;
            }
            chosen.push(cells);
            covers(states, board | cells, full, left.without(s.piece), chosen, out);
            chosen.pop();
        }
    }
}

fn as_cover(tiling: &[Placement]) -> Vec<u64> {
    let mut cover: Vec<u64> = tiling.iter().map(|p| p.board().0).collect();
    cover.sort();
    cover
}

fn search(geometry: &Geometry, pieces: PieceSet, board: BitBoard) -> Vec<Vec<Placement>> {
    let mut found = Collector::new();
    let r = find_combinations(geometry, &Always, pieces, board, geometry.height(), &mut found);
    assert_eq!(r, Ok(SearchStatus::Continue));
    found.into_combos()
}

fn small_table() -> Geometry {
    let square = PieceState { piece: Piece::O, width: 2, cells: BitBoard(0b11 | (0b11 << 10)) };
    let low = PieceState { piece: Piece::I, width: 4, cells: BitBoard(0b1111) };
    let high = PieceState { piece: Piece::I, width: 4, cells: BitBoard(0b1111 << 10) };
    Geometry::new(2, vec![square, low, high]).unwrap()
}

/// A piece may only land when every row that it skips is full.
fn rows_skipped_are_full(p: Placement, supported: BitBoard) -> bool {
    let cells = p.kind.cells.0 << p.x;
    let rows: Vec<u64> = (0..6).filter(|y| cells & (ROW << (10 * y)) != 0).collect();
    let (low, high) = (rows[0], rows[rows.len() - 1]);
    (low..=high).all(|y| {
        let row = ROW << (10 * y);
        cells & row != 0 || supported.0 & row == row
    })
}

fn square_in_rows(low: u64, high: u64) -> PieceState {
    let cells = (0b11 << (10 * low)) | (0b11 << (10 * high));
    PieceState { piece: Piece::O, width: 2, cells: BitBoard(cells) }
}

/// Squares in every pair of rows below 4.
fn squares_table() -> Geometry {
    let mut states = Vec::new();
    for low in 0..4 {
        for high in (low + 1)..4 {
            states.push(square_in_rows(low, high));
        }
    }
    Geometry::new(4, states).unwrap()
}

fn all_but_left_two_columns() -> BitBoard {
    let open: u64 = (0..4).map(|y| 0b11u64 << (10 * y)).sum();
    BitBoard::filled(4).remove(BitBoard(open))
}

#[test]
fn squares_tile_two_rows_in_one_way() {
    let found = search(&small_table(), inventory(0, 5, 0, 0, 0, 0, 0), BitBoard(0));
    let square = small_table().state(0);
    let expected: Vec<Placement> = (0..5).map(|k| Placement { kind: square, x: 2 * k }).collect();
    assert_eq!(found, vec![expected]);
}

#[test]
fn squares_and_bars_tile_two_rows_in_eight_ways() {
    let found = search(&small_table(), inventory(4, 5, 0, 0, 0, 0, 0), BitBoard(0));
    assert_eq!(found.len(), 8);
    // found in the order of the table: squares before bars
    let square = small_table().state(0);
    assert!(found[0].iter().all(|p| p.kind == square));
    assert_eq!(found[7].iter().filter(|p| p.kind == square).count(), 1);
    assert_eq!(found[7][0].kind, small_table().state(1));
    assert_eq!(found[7][1].kind, small_table().state(2));
}

#[test]
fn every_tiling_fills_the_field_with_pieces_of_the_inventory() {
    let geometry = Geometry::new(2, all_states(2)).unwrap();
    let pieces = inventory(2, 2, 0, 2, 2, 1, 1);
    let found = search(&geometry, pieces, BitBoard(0));
    assert!(!found.is_empty());
    for tiling in &found {
        let mut board = BitBoard(0);
        let mut left = pieces;
        for p in tiling {
            assert!(p.is_valid());
            assert!(left.contains(p.kind.piece));
            assert!(!p.board().overlaps(board));
            board = board.combine(p.board());
            left = left.without(p.kind.piece);
        }
        assert_eq!(board, BitBoard::filled(2));
    }
}

#[test]
fn search_finds_every_cover_once_in_two_rows() {
    let states = all_states(2);
    let geometry = Geometry::new(2, states.clone()).unwrap();
    let mut sizes = Vec::new();
    for pieces in [
        inventory(1, 1, 0, 1, 1, 1, 1),
        inventory(2, 2, 0, 2, 2, 0, 0),
        inventory(5, 5, 5, 5, 5, 5, 5),
    ] {
        let found = search(&geometry, pieces, BitBoard(0));
        let mut expected = BTreeSet::new();
        covers(&states, 0, BitBoard::filled(2).0, pieces, &mut Vec::new(), &mut expected);
        let got: BTreeSet<Vec<u64>> = found.iter().map(|t| as_cover(t)).collect();
        assert_eq!(got.len(), found.len());
        assert_eq!(got, expected);
        sizes.push(found.len());
    }
    assert_eq!(sizes[0], 0);
    assert!(sizes[1] > 0);
    assert!(sizes[2] > sizes[1]);
}

#[test]
fn search_finds_every_cover_once_on_a_started_board() {
    let states = all_states(4);
    let geometry = Geometry::new(4, states.clone()).unwrap();
    // columns 4 to 9 are full; the rest is 16 cells
    let open: u64 = (0..4).map(|y| 0b1111u64 << (10 * y)).sum();
    let board = BitBoard::filled(4).remove(BitBoard(open));
    let pieces = inventory(1, 1, 1, 1, 1, 1, 1);
    let found = search(&geometry, pieces, board);
    let mut expected = BTreeSet::new();
    covers(&states, board.0, BitBoard::filled(4).0, pieces, &mut Vec::new(), &mut expected);
    let got: BTreeSet<Vec<u64>> = found.iter().map(|t| as_cover(t)).collect();
    assert!(!expected.is_empty());
    assert_eq!(got.len(), found.len());
    assert_eq!(got, expected);
}

#[test]
fn searching_twice_finds_the_same() {
    let geometry = Geometry::new(2, all_states(2)).unwrap();
    let pieces = inventory(2, 2, 0, 2, 2, 1, 1);
    let first = search(&geometry, pieces, BitBoard(0));
    let second = search(&geometry, pieces, BitBoard(0));
    assert!(!first.is_empty());
    assert_eq!(first, second);
}

#[test]
fn full_board_has_the_empty_tiling() {
    let mut calls = 0;
    let mut lengths = Vec::new();
    let mut consumer = FnConsumer::new(|combo: &[Placement]| {
        calls += 1;
        lengths.push(combo.len());
        SearchStatus::Continue
    });
    let r = find_combinations(
        &small_table(),
        &Always,
        inventory(4, 5, 0, 0, 0, 0, 0),
        BitBoard::filled(2),
        2,
        &mut consumer,
    );
    assert_eq!(r, Ok(SearchStatus::Continue));
    drop(consumer);
    assert_eq!(calls, 1);
    assert_eq!(lengths, vec![0]);
}

#[test]
fn full_board_passes_on_the_answer_of_the_consumer() {
    let mut consumer = LimitedCollector::new(1);
    let r = find_combinations(
        &small_table(),
        &Always,
        PieceSet::empty(),
        BitBoard::filled(2),
        2,
        &mut consumer,
    );
    assert_eq!(r, Ok(SearchStatus::Abort));
    assert_eq!(consumer.into_combos(), vec![Vec::<Placement>::new()]);
}

#[test]
fn field_of_no_rows_is_full() {
    let geometry = Geometry::new(0, vec![]).unwrap();
    assert_eq!(search(&geometry, PieceSet::empty(), BitBoard(0)), vec![Vec::<Placement>::new()]);
}

#[test]
fn no_pieces_no_tiling() {
    assert!(search(&small_table(), PieceSet::empty(), BitBoard(0)).is_empty());
}

#[test]
fn too_few_pieces_no_tiling() {
    assert!(search(&small_table(), inventory(0, 4, 0, 0, 0, 0, 0), BitBoard(0)).is_empty());
    assert!(search(&small_table(), inventory(3, 3, 0, 0, 0, 0, 0), BitBoard(0)).len() == 4);
    let geometry = Geometry::new(4, all_states(4)).unwrap();
    assert!(search(&geometry, inventory(1, 1, 1, 1, 1, 1, 1), BitBoard(0)).is_empty());
}

#[test]
fn a_board_that_no_piece_fits_has_no_tiling() {
    // one cell is left open
    let board = BitBoard::filled(2).remove(BitBoard(1));
    assert!(search(&small_table(), inventory(4, 5, 0, 0, 0, 0, 0), board).is_empty());
}

#[test]
fn abort_stops_the_search() {
    let all = search(&small_table(), inventory(4, 5, 0, 0, 0, 0, 0), BitBoard(0));
    for limit in 1..=8usize {
        let mut consumer = LimitedCollector::new(limit);
        let r = find_combinations(
            &small_table(),
            &Always,
            inventory(4, 5, 0, 0, 0, 0, 0),
            BitBoard(0),
            2,
            &mut consumer,
        );
        assert_eq!(r, Ok(SearchStatus::Abort));
        assert_eq!(consumer.len(), limit);
        assert_eq!(consumer.into_combos(), all[..limit].to_vec());
    }
    let mut consumer = LimitedCollector::new(9);
    let r = find_combinations(
        &small_table(),
        &Always,
        inventory(4, 5, 0, 0, 0, 0, 0),
        BitBoard(0),
        2,
        &mut consumer,
    );
    assert_eq!(r, Ok(SearchStatus::Continue));
    assert_eq!(consumer.into_combos(), all);
}

#[test]
fn limit_of_zero_stops_at_the_first() {
    let mut consumer = LimitedCollector::new(0);
    let r = find_combinations(
        &small_table(),
        &Always,
        inventory(4, 5, 0, 0, 0, 0, 0),
        BitBoard(0),
        2,
        &mut consumer,
    );
    assert_eq!(r, Ok(SearchStatus::Abort));
    assert_eq!(consumer.len(), 1);
}

#[test]
fn closure_consumer_sees_each_tiling_in_order() {
    let all = search(&small_table(), inventory(4, 5, 0, 0, 0, 0, 0), BitBoard(0));
    let mut seen: Vec<Vec<Placement>> = Vec::new();
    let mut consumer = FnConsumer::new(|combo: &[Placement]| {
        seen.push(combo.to_vec());
        if seen.len() == 3 {
            SearchStatus::Abort
        } else {
            SearchStatus::Continue
        }
    });
    let r = find_combinations(
        &small_table(),
        &Always,
        inventory(4, 5, 0, 0, 0, 0, 0),
        BitBoard(0),
        2,
        &mut consumer,
    );
    assert_eq!(r, Ok(SearchStatus::Abort));
    drop(consumer);
    assert_eq!(seen, all[..3].to_vec());
}

#[test]
fn closure_comes_back_from_its_consumer() {
    let mut consumer = FnConsumer::new(|_: &[Placement]| SearchStatus::Abort);
    assert_eq!(consumer.accept(&[]), SearchStatus::Abort);
    let mut back = consumer.into_inner();
    assert_eq!(back(&[]), SearchStatus::Abort);
}

#[test]
fn collector_keeps_what_it_is_handed() {
    let square = small_table().state(0);
    let one = vec![Placement { kind: square, x: 0 }];
    let mut consumer = Collector::new();
    assert_eq!(consumer.len(), 0);
    assert_eq!(consumer.accept(&one), SearchStatus::Continue);
    assert_eq!(consumer.accept(&[]), SearchStatus::Continue);
    assert_eq!(consumer.len(), 2);
    assert_eq!(consumer.into_combos(), vec![one, vec![]]);
}

#[test]
fn height_mismatch_is_refused() {
    let mut found = Collector::new();
    let r = find_combinations(&small_table(), &Always, PieceSet::empty(), BitBoard(0), 3, &mut found);
    assert_eq!(r, Err(ConfigError::HeightMismatch));
    let r = find_combinations(&small_table(), &Always, PieceSet::empty(), BitBoard(0), 7, &mut found);
    assert_eq!(r, Err(ConfigError::HeightMismatch));
    let r = find_combinations_mt(&small_table(), &Always, PieceSet::empty(), BitBoard(0), 1, &mut found);
    assert_eq!(r, Err(ConfigError::HeightMismatch));
    assert_eq!(found.len(), 0);
}

#[test]
fn board_outside_the_field_is_refused() {
    let mut found = Collector::new();
    let high = BitBoard(1 << 20);
    let r = find_combinations(&small_table(), &Always, PieceSet::empty(), high, 2, &mut found);
    assert_eq!(r, Err(ConfigError::BoardOutOfField));
    let r = find_combinations_mt(&small_table(), &Always, PieceSet::empty(), high, 2, &mut found);
    assert_eq!(r, Err(ConfigError::BoardOutOfField));
    let r = find_combinations(&small_table(), &Always, PieceSet::empty(), BitBoard(1 << 63), 2, &mut found);
    assert_eq!(r, Err(ConfigError::BoardOutOfField));
    assert_eq!(found.len(), 0);
}

#[test]
fn height_mismatch_comes_before_the_board() {
    let mut found = Collector::new();
    let r = find_combinations(&small_table(), &Always, PieceSet::empty(), BitBoard(1 << 40), 3, &mut found);
    assert_eq!(r, Err(ConfigError::HeightMismatch));
}

#[test]
fn cyclic_tilings_are_left_out() {
    let board = all_but_left_two_columns();
    let pieces = inventory(0, 2, 0, 0, 0, 0, 0);
    let geometry = squares_table();
    // any rule: three ways to pair the four rows
    let free = search(&geometry, pieces, board);
    let kinds = |found: &Vec<Vec<Placement>>| -> Vec<Vec<PieceState>> {
        found.iter().map(|t| t.iter().map(|p| p.kind).collect()).collect()
    };
    assert_eq!(
        kinds(&free),
        vec![
            vec![square_in_rows(0, 1), square_in_rows(2, 3)],
            vec![square_in_rows(0, 2), square_in_rows(1, 3)],
            vec![square_in_rows(0, 3), square_in_rows(1, 2)],
        ]
    );
    // with skipped rows that have to be full, the interlocked pair is cyclic
    let mut found = Collector::new();
    let rule = FnRule::new(rows_skipped_are_full);
    let r = find_combinations(&geometry, &rule, pieces, board, 4, &mut found);
    assert_eq!(r, Ok(SearchStatus::Continue));
    assert_eq!(
        kinds(&found.into_combos()),
        vec![
            vec![square_in_rows(0, 1), square_in_rows(2, 3)],
            vec![square_in_rows(0, 3), square_in_rows(1, 2)],
        ]
    );
}

#[test]
fn search_below_a_state_finds_what_goes_on_from_its_path() {
    let geometry = small_table();
    let square = Placement { kind: geometry.state(0), x: 0 };
    let mut path = vec![square];
    let board = square.board();
    let inverse = BitBoard::filled(2).remove(board);
    let mut found = Collector::new();
    let status = find_combos_st(
        &geometry,
        &Always,
        &mut path,
        board,
        inverse,
        inventory(4, 4, 0, 0, 0, 0, 0),
        2,
        &mut found,
    );
    assert_eq!(status, SearchStatus::Continue);
    assert_eq!(path, vec![square]);
    let all = search(&geometry, inventory(4, 5, 0, 0, 0, 0, 0), BitBoard(0));
    let expected: Vec<Vec<Placement>> =
        all.into_iter().filter(|t| t[0] == square).collect();
    assert_eq!(expected.len(), 5);
    assert_eq!(found.into_combos(), expected);
}

#[test]
fn search_below_a_full_state_finds_nothing() {
    let geometry = small_table();
    let mut path = Vec::new();
    let mut found = Collector::new();
    let status = find_combos_st(
        &geometry,
        &Always,
        &mut path,
        BitBoard::filled(2),
        BitBoard::filled(2),
        inventory(4, 4, 0, 0, 0, 0, 0),
        2,
        &mut found,
    );
    assert_eq!(status, SearchStatus::Continue);
    assert_eq!(found.len(), 0);
}

#[test]
fn spread_search_finds_what_the_sequential_search_finds() {
    let geometry = Geometry::new(2, all_states(2)).unwrap();
    let pieces = inventory(2, 2, 0, 2, 2, 1, 1);
    let expected = search(&geometry, pieces, BitBoard(0));
    assert!(expected.len() > 8);
    for bound in 0..=3 {
        let mut found = Collector::new();
        let r = find_combinations_spread(&geometry, &Always, pieces, BitBoard(0), 2, bound, &mut found);
        assert_eq!(r, Ok(SearchStatus::Continue));
        let got = found.into_combos();
        assert_eq!(got, expected);
        let as_set: BTreeSet<Vec<u64>> = got.iter().map(|t| as_cover(t)).collect();
        let expected_set: BTreeSet<Vec<u64>> = expected.iter().map(|t| as_cover(t)).collect();
        assert_eq!(as_set, expected_set);
    }
}

#[test]
fn spread_search_goes_on_below_its_bound() {
    let geometry = Geometry::new(4, all_states(4)).unwrap();
    let open: u64 = (0..4).map(|y| 0b1111u64 << (10 * y)).sum();
    let board = BitBoard::filled(4).remove(BitBoard(open));
    let pieces = inventory(1, 1, 1, 1, 1, 1, 1);
    let expected = search(&geometry, pieces, board);
    assert!(!expected.is_empty());
    for bound in [0, 1, 2, 3, 4, 5, 60] {
        let mut found = Collector::new();
        let r = find_combinations_spread(&geometry, &Always, pieces, board, 4, bound, &mut found);
        assert_eq!(r, Ok(SearchStatus::Continue));
        assert_eq!(found.into_combos(), expected);
    }
}

#[test]
fn spread_search_with_the_largest_bound_ends() {
    let pieces = inventory(4, 5, 0, 0, 0, 0, 0);
    let mut found = Collector::new();
    let r = find_combinations_spread(
        &small_table(),
        &Always,
        pieces,
        BitBoard(0),
        2,
        usize::MAX,
        &mut found,
    );
    assert_eq!(r, Ok(SearchStatus::Continue));
    assert_eq!(found.into_combos(), search(&small_table(), pieces, BitBoard(0)));
}

#[test]
fn spread_search_leaves_cyclic_tilings_out() {
    let board = all_but_left_two_columns();
    let pieces = inventory(0, 2, 0, 0, 0, 0, 0);
    let geometry = squares_table();
    let rule = FnRule::new(rows_skipped_are_full);
    let mut expected = Collector::new();
    assert_eq!(
        find_combinations(&geometry, &rule, pieces, board, 4, &mut expected),
        Ok(SearchStatus::Continue)
    );
    let expected = expected.into_combos();
    assert_eq!(expected.len(), 2);
    for bound in 0..=3 {
        let mut found = Collector::new();
        let r = find_combinations_spread(&geometry, &rule, pieces, board, 4, bound, &mut found);
        assert_eq!(r, Ok(SearchStatus::Continue));
        assert_eq!(found.into_combos(), expected);
    }
}

#[test]
fn spread_search_stops_handing_over_at_abort() {
    let pieces = inventory(4, 5, 0, 0, 0, 0, 0);
    let all = search(&small_table(), pieces, BitBoard(0));
    for bound in 0..=3 {
        let mut consumer = LimitedCollector::new(3);
        let r = find_combinations_spread(
            &small_table(),
            &Always,
            pieces,
            BitBoard(0),
            2,
            bound,
            &mut consumer,
        );
        assert_eq!(r, Ok(SearchStatus::Abort));
        assert_eq!(consumer.into_combos(), all[..3].to_vec());
    }
}

#[test]
fn spread_search_of_a_full_board_has_the_empty_tiling() {
    for bound in 0..=3 {
        let mut found = Collector::new();
        let r = find_combinations_spread(
            &small_table(),
            &Always,
            PieceSet::empty(),
            BitBoard::filled(2),
            2,
            bound,
            &mut found,
        );
        assert_eq!(r, Ok(SearchStatus::Continue));
        assert_eq!(found.into_combos(), vec![Vec::<Placement>::new()]);
    }
}

#[test]
fn spread_search_without_pieces_finds_nothing() {
    let mut found = Collector::new();
    let r = find_combinations_mt(&small_table(), &Always, PieceSet::empty(), BitBoard(0), 2, &mut found);
    assert_eq!(r, Ok(SearchStatus::Continue));
    assert_eq!(found.len(), 0);
}

#[test]
fn default_spread_finds_the_same() {
    let geometry = Geometry::new(2, all_states(2)).unwrap();
    let pieces = inventory(2, 2, 0, 2, 2, 1, 1);
    let mut found = Collector::new();
    let r = find_combinations_mt(&geometry, &Always, pieces, BitBoard(0), 2, &mut found);
    assert_eq!(r, Ok(SearchStatus::Continue));
    assert_eq!(found.into_combos(), search(&geometry, pieces, BitBoard(0)));
}
