use pcf::{
    find_combos_mt, Always, BitBoard, Expansion, FnRule, Geometry, Piece, PieceSet, PieceState,
    Placeability, Placement, SearchTask, FANOUT_DEPTH,
};

fn exp_square() -> PieceState {
    PieceState { piece: Piece::O, width: 2, cells: BitBoard(0b11 | (0b11 << 10)) }
}

fn exp_bar(row: u64) -> PieceState {
    PieceState { piece: Piece::I, width: 4, cells: BitBoard(0b1111 << (10 * row)) }
}

fn exp_table() -> Geometry {
    Geometry::new(2, vec![exp_square(), exp_bar(0), exp_bar(1)]).unwrap()
}

fn exp_pieces(i: u8, o: u8) -> PieceSet {
    PieceSet { i, o, t: 0, l: 0, j: 0, s: 0, z: 0 }
}

fn root_task(pieces: PieceSet) -> SearchTask {
    SearchTask {
        placements: Vec::new(),
        board: BitBoard(0),
        inverse_placed: BitBoard::filled(2),
        piece_set: pieces,
    }
}

#[test]
fn default_fanout_is_three_levels() {
    assert_eq!(FANOUT_DEPTH, 3);
}

#[test]
fn task_above_the_bound_is_spread_into_its_children() {
    let task = root_task(exp_pieces(4, 5));
    match find_combos_mt(&exp_table(), &Always, &task, 2, 0, 1) {
        Expansion::Spread(children) => {
            assert_eq!(children.len(), 2);
            let square = Placement { kind: exp_square(), x: 0 };
            let bar = Placement { kind: exp_bar(0), x: 0 };
            assert_eq!(children[0].placements, vec![square]);
            assert_eq!(children[0].board, square.board());
            assert_eq!(children[0].inverse_placed, BitBoard::filled(2).remove(square.board()));
            assert_eq!(children[0].piece_set, exp_pieces(4, 4));
            assert_eq!(children[1].placements, vec![bar]);
            assert_eq!(children[1].board, bar.board());
            assert_eq!(children[1].inverse_placed, BitBoard::filled(2).remove(bar.board()));
            assert_eq!(children[1].piece_set, exp_pieces(3, 5));
        }
        Expansion::Solved(_) => panic!("the task is above the bound"),
    }
}

#[test]
fn task_at_the_bound_is_solved() {
    let task = root_task(exp_pieces(4, 5));
    for (recursions, bound) in [(0, 0), (1, 1), (3, 3), (4, 3), (usize::MAX, 0)] {
        match find_combos_mt(&exp_table(), &Always, &task, 2, recursions, bound) {
            Expansion::Solved(tilings) => assert_eq!(tilings.len(), 8),
            Expansion::Spread(_) => panic!("the task is at or below the bound"),
        }
    }
}

#[test]
fn full_task_is_passed_on_above_the_bound_and_solved_at_it() {
    let square = Placement { kind: exp_square(), x: 8 };
    let task = SearchTask {
        placements: vec![square],
        board: BitBoard::filled(2),
        inverse_placed: BitBoard(0),
        piece_set: exp_pieces(0, 0),
    };
    match find_combos_mt(&exp_table(), &Always, &task, 2, 0, 3) {
        Expansion::Spread(children) => {
            assert_eq!(children.len(), 1);
            assert_eq!(children[0].placements, vec![square]);
            assert_eq!(children[0].board, BitBoard::filled(2));
            assert_eq!(children[0].inverse_placed, BitBoard(0));
            assert_eq!(children[0].piece_set, exp_pieces(0, 0));
        }
        Expansion::Solved(_) => panic!("the task is above the bound"),
    }
    match find_combos_mt(&exp_table(), &Always, &task, 2, 3, 3) {
        Expansion::Solved(tilings) => assert_eq!(tilings, vec![vec![square]]),
        Expansion::Spread(_) => panic!("the task is at the bound"),
    }
}

#[test]
fn cyclic_children_are_dropped() {
    let task = root_task(exp_pieces(4, 5));
    let no_bars = FnRule::new(|p: Placement, _: BitBoard| p.kind.piece != Piece::I);
    match find_combos_mt(&exp_table(), &no_bars, &task, 2, 0, 1) {
        Expansion::Spread(children) => {
            assert_eq!(children.len(), 1);
            assert_eq!(children[0].placements, vec![Placement { kind: exp_square(), x: 0 }]);
        }
        Expansion::Solved(_) => panic!("the task is above the bound"),
    }
}

#[test]
fn task_without_children_is_spread_into_nothing() {
    let task = root_task(exp_pieces(0, 0));
    match find_combos_mt(&exp_table(), &Always, &task, 2, 0, 1) {
        Expansion::Spread(children) => assert!(children.is_empty()),
        Expansion::Solved(_) => panic!("the task is above the bound"),
    }
    match find_combos_mt(&exp_table(), &Always, &task, 2, 1, 1) {
        Expansion::Solved(tilings) => assert!(tilings.is_empty()),
        Expansion::Spread(_) => panic!("the task is at the bound"),
    }
}

#[test]
fn always_lets_every_placement_land() {
    let p = Placement { kind: exp_square(), x: 4 };
    assert!(Always.placeable(p, BitBoard(0)));
    assert!(Always.placeable(p, BitBoard::filled(2)));
}

#[test]
fn function_rule_asks_its_function() {
    let on_the_floor = FnRule::new(|p: Placement, _: BitBoard| p.board().0 & 0x3ff != 0);
    assert!(on_the_floor.placeable(Placement { kind: exp_bar(0), x: 3 }, BitBoard(0)));
    assert!(!on_the_floor.placeable(Placement { kind: exp_bar(1), x: 3 }, BitBoard(0)));
    let needs_support = FnRule::new(|_: Placement, s: BitBoard| s != BitBoard(0));
    assert!(!needs_support.placeable(Placement { kind: exp_bar(0), x: 3 }, BitBoard(0)));
    assert!(needs_support.placeable(Placement { kind: exp_bar(0), x: 3 }, BitBoard(1)));
}
