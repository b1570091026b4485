//! The legal next placements of a search state.
//!
//! The search fills the field in a fixed order: it always aims at the lowest
//! unfilled cell of the leftmost column that still has one. Only placements
//! whose leftmost column is that column, that cover that cell and that touch
//! no filled cell are legal. This keeps the number of branches small and
//! makes the path to each tiling unique.

use crate::board::{bit_set, BitBoard, MAX_HEIGHT, WIDTH};
use crate::geometry::Geometry;
use crate::piece::{lemma_placement_cells, PieceSet, PieceState, Placement};
use vstd::prelude::*;

verus! {

/// A legal next placement, and the state of the search after it.
#[derive(Clone, Copy, Debug, PartialEq, Eq, Structural)]
pub struct Candidate {
    /// The placement.
    pub placement: Placement,
    /// The board with the cells of the placement filled.
    pub board: BitBoard,
    /// The cells that no placement of the path has claimed.
    pub inverse_placed: BitBoard,
    /// The pieces that are left.
    pub piece_set: PieceSet,
}

/// The column that the next placement has to start in: the leftmost one with
/// an unfilled cell below `height`, or 10 when the field is full.
pub open spec fn target_column(board: BitBoard, height: usize) -> int {
    board.spec_leftmost_empty_column(height as int)
}

/// The row of the cell that the next placement has to cover: the lowest
/// unfilled one of the target column.
pub open spec fn target_row(board: BitBoard, height: usize) -> int {
    board.spec_lowest_empty_row(target_column(board, height), height as int)
}

/// The placement of `state` at the target column of `board`.
pub open spec fn placed(state: PieceState, board: BitBoard, height: usize) -> Placement {
    Placement { kind: state, x: target_column(board, height) as u8 }
}

/// `state` may be placed next: a piece of its type is left, it does not reach
/// past the last column, it covers the target cell, and it touches no filled
/// cell.
pub open spec fn eligible(
    state: PieceState,
    board: BitBoard,
    piece_set: PieceSet,
    height: usize,
) -> bool {
    let cells = placed(state, board, height).spec_board();
    &&& piece_set.spec_contains(state.piece)
    &&& target_column(board, height) + state.width <= WIDTH
    &&& cells.cell(target_column(board, height), target_row(board, height))
    &&& !cells.spec_overlaps(board)
}

/// The candidate that places `state` next.
pub open spec fn candidate(
    state: PieceState,
    board: BitBoard,
    inverse_placed: BitBoard,
    piece_set: PieceSet,
    height: usize,
) -> Candidate {
    let placement = placed(state, board, height);
    Candidate {
        placement,
        board: placement.spec_board().spec_combine(board),
        inverse_placed: inverse_placed.spec_remove(placement.spec_board()),
        piece_set: piece_set.spec_without(state.piece),
    }
}

/// The candidates of a state: one for each eligible orientation of the table,
/// in table order.
pub open spec fn candidates(
    states: Seq<PieceState>,
    board: BitBoard,
    inverse_placed: BitBoard,
    piece_set: PieceSet,
    height: usize,
) -> Seq<Candidate> {
    states.filter_map(
        |s: PieceState|
            if eligible(s, board, piece_set, height) {
                Some(candidate(s, board, inverse_placed, piece_set, height))
            } else {
                None
            },
    )
}

/// What holds of a candidate of `board`: it starts at the target column,
/// covers the target cell, touches no filled cell, and leads to the state
/// with its cells filled and its piece taken.
pub open spec fn legal_next(
    c: Candidate,
    board: BitBoard,
    inverse_placed: BitBoard,
    piece_set: PieceSet,
    height: usize,
) -> bool {
    let cells = c.placement.spec_board();
    &&& c.placement.wf()
    &&& c.placement.x == target_column(board, height)
    &&& cells.cell(target_column(board, height), target_row(board, height))
    &&& !cells.spec_overlaps(board)
    &&& !board.cell(target_column(board, height), target_row(board, height))
    &&& piece_set.spec_contains(c.placement.kind.piece)
    &&& c.board == cells.spec_combine(board)
    &&& c.inverse_placed == inverse_placed.spec_remove(cells)
    &&& c.piece_set == piece_set.spec_without(c.placement.kind.piece)
    &&& c.board.0 > board.0
}

/// An eligible orientation gives a legal next placement.
pub proof fn lemma_eligible_is_legal(
    state: PieceState,
    board: BitBoard,
    inverse_placed: BitBoard,
    piece_set: PieceSet,
    height: usize,
)
    requires
        eligible(state, board, piece_set, height),
    ensures
        legal_next(
            candidate(state, board, inverse_placed, piece_set, height),
            board,
            inverse_placed,
            piece_set,
            height,
        ),
{
    let c = candidate(state, board, inverse_placed, piece_set, height);
    let cells = c.placement.spec_board();
    let (x, y) = (target_column(board, height), target_row(board, height));
    assert(0 <= x < 10 && 0 <= y && x + 10 * y < 64);
    let (p, b, i) = (cells.0, board.0, (x + 10 * y) as u64);
    assert(p != 0 && !bit_set(b, i)) by (bit_vector)
        requires
            bit_set(p, i),
            p & b == 0,
    ;
    assert(p | b > b) by (bit_vector)
        requires
            p != 0,
            p & b == 0,
    ;
}

/// Every candidate of a state is a legal next placement.
pub proof fn lemma_candidates_legal(
    states: Seq<PieceState>,
    board: BitBoard,
    inverse_placed: BitBoard,
    piece_set: PieceSet,
    height: usize,
)
    ensures
        forall|k: int|
            0 <= k < candidates(states, board, inverse_placed, piece_set, height).len()
                ==> legal_next(
                #[trigger] candidates(states, board, inverse_placed, piece_set, height)[k],
                board,
                inverse_placed,
                piece_set,
                height,
            ),
    decreases states.len(),
{
    let all = candidates(states, board, inverse_placed, piece_set, height);
    if states.len() > 0 {
        let earlier = candidates(states.drop_last(), board, inverse_placed, piece_set, height);
        lemma_candidates_legal(states.drop_last(), board, inverse_placed, piece_set, height);
        if eligible(states.last(), board, piece_set, height) {
            let c = candidate(states.last(), board, inverse_placed, piece_set, height);
            lemma_eligible_is_legal(states.last(), board, inverse_placed, piece_set, height);
            assert(all == earlier + seq![c]);
        } else {
            assert(all == earlier);
        }
    }
}

/// Every candidate of a state of a well-formed geometry lies inside the field.
pub proof fn lemma_candidates_fit(
    states: Seq<PieceState>,
    board: BitBoard,
    inverse_placed: BitBoard,
    piece_set: PieceSet,
    height: usize,
)
    requires
        height <= MAX_HEIGHT,
        forall|i: int| 0 <= i < states.len() ==> (#[trigger] states[i]).fits(height as int),
    ensures
        forall|k: int|
            0 <= k < candidates(states, board, inverse_placed, piece_set, height).len() ==> (
            #[trigger] candidates(states, board, inverse_placed, piece_set, height)[k]).placement.fits(
                height,
            ),
    decreases states.len(),
{
    if states.len() > 0 {
        lemma_candidates_fit(states.drop_last(), board, inverse_placed, piece_set, height);
        let all = candidates(states, board, inverse_placed, piece_set, height);
        let earlier = candidates(states.drop_last(), board, inverse_placed, piece_set, height);
        let s = states.last();
        if eligible(s, board, piece_set, height) {
            lemma_placement_cells(s, target_column(board, height) as u8, height);
            assert(all == earlier + seq![candidate(s, board, inverse_placed, piece_set, height)]);
        } else {
            assert(all == earlier);
        }
    }
}

/// The legal next placements of a state, in the order of the geometry's
/// table, each with the state that it leads to.
///
/// Each placement starts at the leftmost column with an unfilled cell, covers
/// the lowest unfilled cell of that column and touches no filled cell. A full
/// board has no next placement.
pub fn find_combos(
    geometry: &Geometry,
    board: BitBoard,
    inverse_placed: BitBoard,
    piece_set: PieceSet,
    height: usize,
) -> (r: Vec<Candidate>)
    requires
        height <= MAX_HEIGHT,
    ensures
        r@ == candidates(geometry@, board, inverse_placed, piece_set, height),
        forall|k: int|
            0 <= k < r@.len() ==> legal_next(
                #[trigger] r@[k],
                board,
                inverse_placed,
                piece_set,
                height,
            ),
        height == geometry.spec_height() ==> forall|k: int|
            0 <= k < r@.len() ==> (#[trigger] r@[k]).placement.fits(height),
{
    let x = board.leftmost_empty_column(height);
    let y = board.lowest_empty_row(x, height);
    let ghost choice = |s: PieceState|
        if eligible(s, board, piece_set, height) {
            Some(candidate(s, board, inverse_placed, piece_set, height))
        } else {
            None
        };
    let mut found: Vec<Candidate> = Vec::new();
    let n = geometry.len();
    let mut i: usize = 0;
    while i < n
        invariant
            height <= MAX_HEIGHT,
            n == geometry@.len(),
            i <= n,
            x == target_column(board, height),
            y == target_row(board, height),
            x <= WIDTH,
            choice == |s: PieceState|
                if eligible(s, board, piece_set, height) {
                    Some(candidate(s, board, inverse_placed, piece_set, height))
                } else {
                    None
                },
            found@ == geometry@.take(i as int).filter_map(choice),
        decreases n - i,
    {
        let piece_state = geometry.state(i);
        proof {
            assert(geometry@.take(i + 1).drop_last() =~= geometry@.take(i as int));
            assert(geometry@.take(i + 1).last() == piece_state);
        }
        i += 1;
        if !piece_set.contains(piece_state.piece()) {
            continue ;
        }
        if x + piece_state.width() as usize > WIDTH {
            continue ;
        }
        let placement = Placement { kind: piece_state, x: x as u8 };
        let piece_board = placement.board();
        if !piece_board.cell_filled(x, y) {
            continue ;
        }
        if piece_board.overlaps(board) {
            continue ;
        }
        let new_board = piece_board.combine(board);
        let new_inverse_placed = inverse_placed.remove(piece_board);
        found.push(
            Candidate {
                placement,
                board: new_board,
                inverse_placed: new_inverse_placed,
                piece_set: piece_set.without(piece_state.piece()),
            },
        );
    }
    proof {
        assert(geometry@.take(n as int) =~= geometry@);
        lemma_candidates_legal(geometry@, board, inverse_placed, piece_set, height);
        if height == geometry.spec_height() {
            use_type_invariant(geometry);
            geometry.lemma_wf();
            lemma_candidates_fit(geometry@, board, inverse_placed, piece_set, height);
        }
    }
    found
}

} // verus!
