//! What the search finds, stated without its algorithm.
//!
//! Every sequence that the search hands over fills the field exactly, with
//! pieces of the inventory, and passed the cycle detector. A search on a full
//! board finds the empty tiling and nothing else; a search whose inventory
//! cannot fill the field finds nothing. Two searches of the same state hand
//! over the same tilings in the same order, whether they ran on one thread
//! or spread over many.

use crate::board::{lemma_cell_sets, BitBoard};
use crate::combination::{reported, tilings, tilings_from, tilings_under};
use crate::consumer::{Report, SearchStatus};
use crate::cycle::{all_wf, cyclic};
use crate::realizable::{
    coherent, drop_order, lemma_not_cyclic_means_drop_order, lemma_union_holds_each,
    lemma_union_within, union_of,
};
use crate::generate::{candidates, lemma_candidates_legal};
use crate::piece::{PieceSet, PieceState, Placement};
use crate::placeability::Placeability;
use vstd::prelude::*;

verus! {

/// The placements of `added`, put on `board` one after the other, fill the
/// field of `height` rows: each occupies a cell, is of a piece type that is
/// still left when its turn comes, and touches no cell filled before it; and
/// after the last one the field is full.
pub open spec fn fills(
    board: BitBoard,
    added: Seq<Placement>,
    piece_set: PieceSet,
    height: usize,
) -> bool
    decreases added.len(),
{
    if added.len() == 0 {
        board == BitBoard::spec_filled(height)
    } else {
        let p = added.first();
        &&& p.wf()
        &&& piece_set.spec_contains(p.kind.piece)
        &&& !p.spec_board().spec_overlaps(board)
        &&& fills(
            p.spec_board().spec_combine(board),
            added.drop_first(),
            piece_set.spec_without(p.kind.piece),
            height,
        )
    }
}

/// What is left of `inverse_placed` when the cells of the placements of
/// `added` are taken from it.
pub open spec fn unclaimed(inverse_placed: BitBoard, added: Seq<Placement>) -> BitBoard
    decreases added.len(),
{
    if added.len() == 0 {
        inverse_placed
    } else {
        unclaimed(inverse_placed.spec_remove(added.first().spec_board()), added.drop_first())
    }
}

/// `tiling` goes on from `path` with placements that fill the field from
/// `board`, and is not cyclic.
pub open spec fn completes<P: Placeability>(
    rule: &P,
    path: Seq<Placement>,
    board: BitBoard,
    inverse_placed: BitBoard,
    piece_set: PieceSet,
    height: usize,
    tiling: Seq<Placement>,
) -> bool {
    let added = tiling.skip(path.len() as int);
    &&& tiling.len() > path.len()
    &&& tiling == path + added
    &&& fills(board, added, piece_set, height)
    &&& !cyclic(rule, unclaimed(inverse_placed, added), tiling, height)
}

/// Every sequence found below the first `n` candidates of a state completes
/// the path to the state.
pub proof fn lemma_tilings_under_complete<P: Placeability>(
    states: Seq<PieceState>,
    rule: &P,
    path: Seq<Placement>,
    board: BitBoard,
    inverse_placed: BitBoard,
    piece_set: PieceSet,
    height: usize,
    n: nat,
    k: int,
)
    requires
        0 <= k < tilings_under(states, rule, path, board, inverse_placed, piece_set, height, n).len(),
    ensures
        completes(
            rule,
            path,
            board,
            inverse_placed,
            piece_set,
            height,
            tilings_under(states, rule, path, board, inverse_placed, piece_set, height, n)[k],
        ),
    decreases u64::MAX - board.0, n,
{
    let cands = candidates(states, board, inverse_placed, piece_set, height);
    let found = tilings_under(states, rule, path, board, inverse_placed, piece_set, height, n);
    let earlier = tilings_under(
        states,
        rule,
        path,
        board,
        inverse_placed,
        piece_set,
        height,
        (n - 1) as nat,
    );
    if k < earlier.len() {
        assert(found[k] == earlier[k]);
        lemma_tilings_under_complete(
            states,
            rule,
            path,
            board,
            inverse_placed,
            piece_set,
            height,
            (n - 1) as nat,
            k,
        );
    } else {
        let c = cands[n - 1];
        let p = c.placement;
        let longer = path.push(p);
        let tiling = found[k];
        let added = tiling.skip(path.len() as int);
        lemma_candidates_legal(states, board, inverse_placed, piece_set, height);
        if c.board == BitBoard::spec_filled(height) {
            assert(tiling == longer);
            assert(added =~= seq![p]);
            assert(added.drop_first() =~= Seq::<Placement>::empty());
            assert(fills(c.board, added.drop_first(), c.piece_set, height));
            assert(unclaimed(c.inverse_placed, added.drop_first()) == c.inverse_placed);
            assert(tiling =~= path + added);
        } else {
            let below = tilings_from(
                states,
                rule,
                longer,
                c.board,
                c.inverse_placed,
                c.piece_set,
                height,
            );
            assert(tiling == below[k - earlier.len()]);
            lemma_tilings_under_complete(
                states,
                rule,
                longer,
                c.board,
                c.inverse_placed,
                c.piece_set,
                height,
                candidates(states, c.board, c.inverse_placed, c.piece_set, height).len(),
                k - earlier.len(),
            );
            let rest = tiling.skip(longer.len() as int);
            assert(added.first() == p);
            assert(added.drop_first() =~= rest);
            assert(tiling =~= path + added);
        }
    }
}

/// Every tiling that a search finds fills the field from the start board
/// with pieces of the inventory, and is not cyclic.
pub proof fn lemma_tilings_fill<P: Placeability>(
    states: Seq<PieceState>,
    rule: &P,
    piece_set: PieceSet,
    board: BitBoard,
    height: usize,
    k: int,
)
    requires
        0 <= k < tilings(states, rule, piece_set, board, height).len(),
    ensures
        fills(board, tilings(states, rule, piece_set, board, height)[k], piece_set, height),
        !cyclic(
            rule,
            unclaimed(
                BitBoard::spec_filled(height),
                tilings(states, rule, piece_set, board, height)[k],
            ),
            tilings(states, rule, piece_set, board, height)[k],
            height,
        ),
{
    let none = Seq::<Placement>::empty();
    if board != BitBoard::spec_filled(height) {
        lemma_tilings_under_complete(
            states,
            rule,
            none,
            board,
            BitBoard::spec_filled(height),
            piece_set,
            height,
            candidates(states, board, BitBoard::spec_filled(height), piece_set, height).len(),
            k,
        );
        let tiling = tilings(states, rule, piece_set, board, height)[k];
        assert(tiling.skip(0) =~= tiling);
    }
}

/// What follows from `fills`: the start board lies in the field, every
/// placement is well formed, lies in the field and touches neither the start
/// board nor another placement, and whatever holds the start board and
/// every placement holds the field.
pub proof fn lemma_fills_means(
    board: BitBoard,
    added: Seq<Placement>,
    piece_set: PieceSet,
    height: usize,
)
    requires
        fills(board, added, piece_set, height),
    ensures
        all_wf(added),
        board.within(BitBoard::spec_filled(height)),
        forall|i: int|
            0 <= i < added.len() ==> (#[trigger] added[i]).spec_board().within(
                BitBoard::spec_filled(height),
            ) && !added[i].spec_board().spec_overlaps(board),
        forall|i: int, j: int|
            0 <= i < added.len() && 0 <= j < added.len() && i != j ==> !(
            #[trigger] added[i]).spec_board().spec_overlaps((#[trigger] added[j]).spec_board()),
        forall|holder: BitBoard|
            board.within(holder) && (forall|i: int|
                0 <= i < added.len() ==> (#[trigger] added[i]).spec_board().within(holder))
                ==> #[trigger] BitBoard::spec_filled(height).within(holder),
    decreases added.len(),
{
    let full = BitBoard::spec_filled(height);
    if added.len() == 0 {
        lemma_cell_sets(board, BitBoard(0), BitBoard(0));
        assert forall|holder: BitBoard| board.within(holder) implies #[trigger] full.within(
            holder,
        ) by {}
    } else {
        let p = added.first();
        let rest = added.drop_first();
        let next = p.spec_board().spec_combine(board);
        lemma_fills_means(next, rest, piece_set.spec_without(p.kind.piece), height);
        lemma_cell_sets(p.spec_board(), board, full);
        assert forall|i: int| 0 <= i < added.len() implies (#[trigger] added[i]).spec_board().within(
            full,
        ) && !added[i].spec_board().spec_overlaps(board) by {
            if i > 0 {
                assert(added[i] == rest[i - 1]);
                lemma_cell_sets(rest[i - 1].spec_board(), p.spec_board(), board);
            }
        }
        assert forall|i: int, j: int|
            0 <= i < added.len() && 0 <= j < added.len() && i != j implies !(
        #[trigger] added[i]).spec_board().spec_overlaps((#[trigger] added[j]).spec_board()) by {
            if i > 0 {
                assert(added[i] == rest[i - 1]);
                lemma_cell_sets(rest[i - 1].spec_board(), p.spec_board(), board);
            }
            if j > 0 {
                assert(added[j] == rest[j - 1]);
                lemma_cell_sets(rest[j - 1].spec_board(), p.spec_board(), board);
            }
        }
        assert forall|i: int| 0 <= i < added.len() implies (#[trigger] added[i]).wf() by {
            if i > 0 {
                assert(added[i] == rest[i - 1]);
            }
        }
        assert forall|holder: BitBoard|
            board.within(holder) && (forall|i: int|
                0 <= i < added.len() ==> (#[trigger] added[i]).spec_board().within(holder))
                implies #[trigger] full.within(holder) by {
            assert(added[0].spec_board().within(holder));
            lemma_cell_sets(p.spec_board(), board, holder);
            assert forall|i: int| 0 <= i < rest.len() implies (#[trigger] rest[i]).spec_board().within(
                holder,
            ) by {
                assert(rest[i] == added[i + 1]);
            }
        }
    }
}

/// What is left unclaimed lies in what was there, shares no cell with a
/// placement, and together with whatever holds every placement holds what
/// was there.
pub proof fn lemma_unclaimed_means(
    inverse_placed: BitBoard,
    added: Seq<Placement>,
    holder: BitBoard,
)
    requires
        forall|i: int| 0 <= i < added.len() ==> (#[trigger] added[i]).spec_board().within(holder),
    ensures
        unclaimed(inverse_placed, added).within(inverse_placed),
        forall|i: int|
            0 <= i < added.len() ==> !unclaimed(inverse_placed, added).spec_overlaps(
                (#[trigger] added[i]).spec_board(),
            ),
        inverse_placed.within(unclaimed(inverse_placed, added).spec_combine(holder)),
    decreases added.len(),
{
    let left = unclaimed(inverse_placed, added);
    if added.len() == 0 {
        lemma_cell_sets(inverse_placed, holder, BitBoard(0));
    } else {
        let p = added.first().spec_board();
        let rest = added.drop_first();
        let next = inverse_placed.spec_remove(p);
        assert forall|i: int| 0 <= i < rest.len() implies (#[trigger] rest[i]).spec_board().within(
            holder,
        ) by {
            assert(rest[i] == added[i + 1]);
        }
        lemma_unclaimed_means(next, rest, holder);
        lemma_cell_sets(inverse_placed, p, BitBoard(0));
        lemma_cell_sets(left, next, inverse_placed);
        assert forall|i: int| 0 <= i < added.len() implies !left.spec_overlaps(
            (#[trigger] added[i]).spec_board(),
        ) by {
            if i == 0 {
                lemma_cell_sets(left, next, p);
                lemma_unclaimed_disjoint(left, next, p);
            } else {
                assert(added[i] == rest[i - 1]);
            }
        }
        assert(added[0].spec_board().within(holder));
        lemma_unclaimed_covers(inverse_placed, p, left, holder);
    }
}

/// A part of a board that shares no cell with `p` has a part that shares no
/// cell with `p`.
proof fn lemma_unclaimed_disjoint(left: BitBoard, from: BitBoard, p: BitBoard)
    requires
        left.within(from),
        !from.spec_overlaps(p),
    ensures
        !left.spec_overlaps(p),
{
    let (a, b, c) = (left.0, from.0, p.0);
    assert(a & c == 0) by (bit_vector)
        requires
            a & !b == 0,
            b & c == 0,
    ;
}

/// If what is left of a board without `p` lies in `left` and `holder`, and
/// `p` lies in `holder`, the board lies in `left` and `holder`.
proof fn lemma_unclaimed_covers(all: BitBoard, p: BitBoard, left: BitBoard, holder: BitBoard)
    requires
        all.spec_remove(p).within(left.spec_combine(holder)),
        p.within(holder),
    ensures
        all.within(left.spec_combine(holder)),
{
    let (a, b, c, d) = (all.0, p.0, left.0, holder.0);
    assert(a & !(c | d) == 0) by (bit_vector)
        requires
            (a & !b) & !(c | d) == 0,
            b & !d == 0,
    ;
}

/// The placements of a sequence that fills the field tile what is left
/// unclaimed of the full field.
pub proof fn lemma_fills_is_coherent(
    board: BitBoard,
    added: Seq<Placement>,
    piece_set: PieceSet,
    height: usize,
)
    requires
        fills(board, added, piece_set, height),
    ensures
        coherent(unclaimed(BitBoard::spec_filled(height), added), added, height),
{
    let full = BitBoard::spec_filled(height);
    let left = unclaimed(full, added);
    let all = union_of(added);
    lemma_fills_means(board, added, piece_set, height);
    assert forall|i: int| 0 <= i < added.len() implies (#[trigger] added[i]).spec_board().within(
        all,
    ) by {
        lemma_union_holds_each(added, i);
    }
    lemma_unclaimed_means(full, added, all);
    lemma_union_within(added, full);
    lemma_cell_sets(left, all, full);
    lemma_cell_sets(left.spec_combine(all), full, BitBoard(0));
}

/// Every tiling that a search finds can be built: there is an order in
/// which its placements can be dropped, each landing on the cells of the
/// field that the tiling leaves to the start and on the placements dropped
/// before it.
pub proof fn lemma_tilings_can_be_dropped<P: Placeability>(
    states: Seq<PieceState>,
    rule: &P,
    piece_set: PieceSet,
    board: BitBoard,
    height: usize,
    k: int,
) -> (order: Seq<int>)
    requires
        0 <= k < tilings(states, rule, piece_set, board, height).len(),
    ensures
        drop_order(
            rule,
            unclaimed(
                BitBoard::spec_filled(height),
                tilings(states, rule, piece_set, board, height)[k],
            ),
            tilings(states, rule, piece_set, board, height)[k],
            order,
        ),
{
    let tiling = tilings(states, rule, piece_set, board, height)[k];
    lemma_tilings_fill(states, rule, piece_set, board, height, k);
    lemma_fills_is_coherent(board, tiling, piece_set, height);
    lemma_not_cyclic_means_drop_order(
        rule,
        unclaimed(BitBoard::spec_filled(height), tiling),
        tiling,
        height,
    )
}

/// A full board has one tiling, the empty one.
pub proof fn lemma_full_board_has_the_empty_tiling<P: Placeability>(
    states: Seq<PieceState>,
    rule: &P,
    piece_set: PieceSet,
    height: usize,
)
    ensures
        tilings(states, rule, piece_set, BitBoard::spec_filled(height), height)
            == seq![Seq::<Placement>::empty()],
{
}

/// A search finds nothing when no sequence of placements fills the field
/// with pieces of the inventory.
pub proof fn lemma_insufficient_pieces_no_tiling<P: Placeability>(
    states: Seq<PieceState>,
    rule: &P,
    piece_set: PieceSet,
    board: BitBoard,
    height: usize,
)
    requires
        forall|added: Seq<Placement>| !fills(board, added, piece_set, height),
    ensures
        tilings(states, rule, piece_set, board, height) == Seq::<Seq<Placement>>::empty(),
{
    let found = tilings(states, rule, piece_set, board, height);
    if found.len() > 0 {
        lemma_tilings_fill(states, rule, piece_set, board, height, 0);
        assert(fills(board, found[0], piece_set, height));
    }
}

/// An inventory without pieces fills no field that is not full already.
pub proof fn lemma_no_pieces_fill_nothing(board: BitBoard, piece_set: PieceSet, height: usize)
    requires
        piece_set.total() == 0,
        board != BitBoard::spec_filled(height),
    ensures
        forall|added: Seq<Placement>| !fills(board, added, piece_set, height),
{
}

/// The tilings that a consumer was handed between two points of its
/// history.
pub open spec fn handed(before: Seq<Report>, after: Seq<Report>) -> Seq<Seq<Placement>> {
    Seq::new((after.len() - before.len()) as nat, |i: int| after[before.len() + i].0)
}

/// A search that ran to its end handed over exactly what there was to find.
pub proof fn lemma_handed_all(
    before: Seq<Report>,
    after: Seq<Report>,
    found: Seq<Seq<Placement>>,
)
    requires
        reported(before, after, found, SearchStatus::Continue),
    ensures
        handed(before, after) == found,
{
    assert(handed(before, after) =~= found);
}

/// Two searches of the same state that ran to their ends handed over the
/// same tilings in the same order, and so the same multiset of tilings. This
/// holds of two runs of the sequential search, and of a run of the
/// sequential search and a run of the spread search with any bound, since
/// both hand over `tilings` of their arguments.
pub proof fn lemma_searches_agree<P: Placeability>(
    states: Seq<PieceState>,
    rule: &P,
    piece_set: PieceSet,
    board: BitBoard,
    height: usize,
    before_one: Seq<Report>,
    after_one: Seq<Report>,
    before_other: Seq<Report>,
    after_other: Seq<Report>,
)
    requires
        reported(
            before_one,
            after_one,
            tilings(states, rule, piece_set, board, height),
            SearchStatus::Continue,
        ),
        reported(
            before_other,
            after_other,
            tilings(states, rule, piece_set, board, height),
            SearchStatus::Continue,
        ),
    ensures
        handed(before_one, after_one) == handed(before_other, after_other),
        handed(before_one, after_one).to_multiset() == handed(
            before_other,
            after_other,
        ).to_multiset(),
{
    lemma_handed_all(before_one, after_one, tilings(states, rule, piece_set, board, height));
    lemma_handed_all(before_other, after_other, tilings(states, rule, piece_set, board, height));
}

} // verus!
