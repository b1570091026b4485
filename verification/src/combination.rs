//! The search for the tilings of a field.
//!
//! The search walks the tree of legal next placements depth first. A branch
//! is given up as soon as its placements wait for each other; a branch that
//! fills the field is a tiling and is handed to the consumer.

use crate::board::{BitBoard, MAX_HEIGHT};
use crate::consumer::{ComboConsumer, Report, SearchStatus};
use crate::cycle::{all_wf, cyclic, has_cyclic_dependency};
use crate::generate::{candidates, find_combos, lemma_candidates_legal, legal_next, Candidate};
use crate::geometry::{ConfigError, Geometry};
use crate::piece::{PieceSet, PieceState, Placement};
use crate::placeability::Placeability;
use vstd::prelude::*;

verus! {

/// The tilings that the search finds below the first `n` candidates of a
/// state, in the order in which it finds them. `path` holds the placements
/// that led to the state; each tiling begins with them.
pub open spec fn tilings_under<P: Placeability>(
    states: Seq<PieceState>,
    rule: &P,
    path: Seq<Placement>,
    board: BitBoard,
    inverse_placed: BitBoard,
    piece_set: PieceSet,
    height: usize,
    n: nat,
) -> Seq<Seq<Placement>>
    decreases u64::MAX - board.0, n,
{
    let cands = candidates(states, board, inverse_placed, piece_set, height);
    if n == 0 || n > cands.len() {
        Seq::empty()
    } else {
        let earlier = tilings_under(
            states,
            rule,
            path,
            board,
            inverse_placed,
            piece_set,
            height,
            (n - 1) as nat,
        );
        let c = cands[n - 1];
        let longer = path.push(c.placement);
        if cyclic(rule, c.inverse_placed, longer, height) {
            earlier
        } else if c.board == BitBoard::spec_filled(height) {
            earlier.push(longer)
        } else {
            proof {
                lemma_candidates_legal(states, board, inverse_placed, piece_set, height);
            }
            earlier + tilings_from(
                states,
                rule,
                longer,
                c.board,
                c.inverse_placed,
                c.piece_set,
                height,
            )
        }
    }
}

/// The tilings that the search finds below a state that is not full.
pub open spec fn tilings_from<P: Placeability>(
    states: Seq<PieceState>,
    rule: &P,
    path: Seq<Placement>,
    board: BitBoard,
    inverse_placed: BitBoard,
    piece_set: PieceSet,
    height: usize,
) -> Seq<Seq<Placement>>
    decreases u64::MAX - board.0, candidates(states, board, inverse_placed, piece_set, height).len() + 1,
{
    tilings_under(
        states,
        rule,
        path,
        board,
        inverse_placed,
        piece_set,
        height,
        candidates(states, board, inverse_placed, piece_set, height).len(),
    )
}

/// The tilings of a field of `height` rows that starts as `board`, with the
/// pieces of `piece_set`: the empty sequence alone when the board is full
/// already, and else what the search finds from the empty path.
pub open spec fn tilings<P: Placeability>(
    states: Seq<PieceState>,
    rule: &P,
    piece_set: PieceSet,
    board: BitBoard,
    height: usize,
) -> Seq<Seq<Placement>> {
    if board == BitBoard::spec_filled(height) {
        seq![Seq::<Placement>::empty()]
    } else {
        tilings_from(
            states,
            rule,
            Seq::<Placement>::empty(),
            board,
            BitBoard::spec_filled(height),
            piece_set,
            height,
        )
    }
}

/// The answer that a consumer gave to the tiling at position `i` of `n`, in
/// a search that ended with `status`: `Abort` to the last one of a search
/// that was aborted, `Continue` to every other.
pub open spec fn answer_at(i: int, n: int, status: SearchStatus) -> SearchStatus {
    if i == n - 1 && status == SearchStatus::Abort {
        SearchStatus::Abort
    } else {
        SearchStatus::Continue
    }
}

/// What a search does to the history of its consumer. The search hands over
/// the tilings of `found` in order. It stops after the first to which the
/// consumer answers `Abort`, and then ends with `Abort`; else it hands over
/// all of them and ends with `Continue`.
pub open spec fn reported(
    before: Seq<Report>,
    after: Seq<Report>,
    found: Seq<Seq<Placement>>,
    status: SearchStatus,
) -> bool {
    let n = after.len() - before.len();
    &&& 0 <= n <= found.len()
    &&& after.take(before.len() as int) == before
    &&& forall|j: int|
        before.len() <= j < after.len() ==> #[trigger] after[j] == (
            found[j - before.len()],
            answer_at(j - before.len(), n, status),
        )
    &&& status == SearchStatus::Continue ==> n == found.len()
    &&& status == SearchStatus::Abort ==> n >= 1
}

/// A search that finds nothing leaves the history as it is.
pub proof fn lemma_reported_nothing(history: Seq<Report>)
    ensures
        reported(history, history, Seq::empty(), SearchStatus::Continue),
{
    assert(history.take(history.len() as int) =~= history);
}

/// Handing over one tiling is a search that finds that tiling.
pub proof fn lemma_reported_one(
    before: Seq<Report>,
    combo: Seq<Placement>,
    answer: SearchStatus,
)
    ensures
        reported(before, before.push((combo, answer)), seq![combo], answer),
{
    assert(before.push((combo, answer)).take(before.len() as int) =~= before);
}

/// A search that went through, followed by a second one, is a search for
/// what both find.
pub proof fn lemma_reported_then(
    before: Seq<Report>,
    between: Seq<Report>,
    after: Seq<Report>,
    first: Seq<Seq<Placement>>,
    second: Seq<Seq<Placement>>,
    status: SearchStatus,
)
    requires
        reported(before, between, first, SearchStatus::Continue),
        reported(between, after, second, status),
    ensures
        reported(before, after, first + second, status),
{
    assert(after.take(before.len() as int) =~= after.take(between.len() as int).take(
        before.len() as int,
    ));
    let n = after.len() - before.len();
    assert forall|j: int| before.len() <= j < after.len() implies #[trigger] after[j] == (
        (first + second)[j - before.len()],
        answer_at(j - before.len(), n, status),
    ) by {
        if j < between.len() {
            assert(after[j] == after.take(between.len() as int)[j]);
            assert(between[j] == (
                first[j - before.len()],
                answer_at(j - before.len(), between.len() - before.len(), SearchStatus::Continue),
            ));
        }
    }
}

/// A search that was aborted would have been aborted at the same point had
/// there been more to find after it.
pub proof fn lemma_reported_abort(
    before: Seq<Report>,
    after: Seq<Report>,
    found: Seq<Seq<Placement>>,
    more: Seq<Seq<Placement>>,
)
    requires
        reported(before, after, found, SearchStatus::Abort),
    ensures
        reported(before, after, found + more, SearchStatus::Abort),
{
}

/// What the search finds below the first `n` candidates is the beginning of
/// what it finds below the first `m`, for `n <= m`.
pub proof fn lemma_tilings_under_grows<P: Placeability>(
    states: Seq<PieceState>,
    rule: &P,
    path: Seq<Placement>,
    board: BitBoard,
    inverse_placed: BitBoard,
    piece_set: PieceSet,
    height: usize,
    n: nat,
    m: nat,
) -> (rest: Seq<Seq<Placement>>)
    requires
        n <= m <= candidates(states, board, inverse_placed, piece_set, height).len(),
    ensures
        tilings_under(states, rule, path, board, inverse_placed, piece_set, height, m)
            == tilings_under(states, rule, path, board, inverse_placed, piece_set, height, n)
            + rest,
    decreases m - n,
{
    let upto_n = tilings_under(states, rule, path, board, inverse_placed, piece_set, height, n);
    if n == m {
        assert(upto_n + Seq::empty() =~= upto_n);
        Seq::empty()
    } else {
        let shorter = lemma_tilings_under_grows(
            states,
            rule,
            path,
            board,
            inverse_placed,
            piece_set,
            height,
            n,
            (m - 1) as nat,
        );
        let upto_prev = tilings_under(
            states,
            rule,
            path,
            board,
            inverse_placed,
            piece_set,
            height,
            (m - 1) as nat,
        );
        let upto_m = tilings_under(states, rule, path, board, inverse_placed, piece_set, height, m);
        let last = upto_m.skip(upto_prev.len() as int);
        assert(upto_m =~= upto_prev + last);
        assert(upto_n + (shorter + last) =~= (upto_n + shorter) + last);
        shorter + last
    }
}

/// Searches the states below a state that is not full, depth first, and
/// hands each tiling found to `consumer`.
///
/// `placements` holds the path to the state and is the same afterwards. The
/// search stops when the consumer answers `Abort`.
pub fn find_combos_st<P: Placeability, C: ComboConsumer>(
    geometry: &Geometry,
    rule: &P,
    placements: &mut Vec<Placement>,
    board: BitBoard,
    inverse_placed: BitBoard,
    piece_set: PieceSet,
    height: usize,
    consumer: &mut C,
) -> (status: SearchStatus)
    requires
        height == geometry.spec_height(),
        all_wf(old(placements)@),
        old(consumer).ready(),
    ensures
        final(placements)@ == old(placements)@,
        final(consumer).ready(),
        reported(
            old(consumer).history(),
            final(consumer).history(),
            tilings_from(
                geometry@,
                rule,
                old(placements)@,
                board,
                inverse_placed,
                piece_set,
                height,
            ),
            status,
        ),
    decreases u64::MAX - board.0,
{
    let full = BitBoard::filled(geometry.height());
    let cands = find_combos(geometry, board, inverse_placed, piece_set, height);
    let ghost path = placements@;
    let ghost before = consumer.history();
    proof {
        lemma_reported_nothing(before);
    }
    let mut i: usize = 0;
    while i < cands.len()
        invariant
            height == geometry.spec_height(),
            height <= MAX_HEIGHT,
            full == BitBoard::spec_filled(height),
            cands@ == candidates(geometry@, board, inverse_placed, piece_set, height),
            forall|k: int|
                0 <= k < cands@.len() ==> legal_next(
                    #[trigger] cands@[k],
                    board,
                    inverse_placed,
                    piece_set,
                    height,
                ),
            i <= cands@.len(),
            path == old(placements)@,
            before == old(consumer).history(),
            placements@ == path,
            all_wf(path),
            consumer.ready(),
            reported(
                before,
                consumer.history(),
                tilings_under(
                    geometry@,
                    rule,
                    path,
                    board,
                    inverse_placed,
                    piece_set,
                    height,
                    i as nat,
                ),
                SearchStatus::Continue,
            ),
        decreases cands@.len() - i,
    {
        let c: Candidate = cands[i];
        let ghost so_far = tilings_under(
            geometry@,
            rule,
            path,
            board,
            inverse_placed,
            piece_set,
            height,
            i as nat,
        );
        let ghost between = consumer.history();
        placements.push(c.placement);
        let ghost longer = placements@;
        let result = if has_cyclic_dependency(rule, c.inverse_placed, placements.as_slice(), height) {
            proof {
                lemma_reported_nothing(between);
            }
            SearchStatus::Continue
        } else if c.board == full {
            let answer = consumer.accept(placements.as_slice());
            proof {
                lemma_reported_one(between, longer, answer);
            }
            answer
        } else {
            find_combos_st(
                geometry,
                rule,
                placements,
                c.board,
                c.inverse_placed,
                c.piece_set,
                height,
                consumer,
            )
        };
        placements.pop();
        i += 1;
        proof {
            assert(placements@ =~= path);
            let here = tilings_under(
                geometry@,
                rule,
                path,
                board,
                inverse_placed,
                piece_set,
                height,
                i as nat,
            ).skip(so_far.len() as int);
            assert(tilings_under(
                geometry@,
                rule,
                path,
                board,
                inverse_placed,
                piece_set,
                height,
                i as nat,
            ) =~= so_far + here);
            lemma_reported_then(before, between, consumer.history(), so_far, here, result);
        }
        if result == SearchStatus::Abort {
            proof {
                let rest = lemma_tilings_under_grows(
                    geometry@,
                    rule,
                    path,
                    board,
                    inverse_placed,
                    piece_set,
                    height,
                    i as nat,
                    cands@.len(),
                );
                lemma_reported_abort(before, consumer.history(), so_far + (
                tilings_under(
                    geometry@,
                    rule,
                    path,
                    board,
                    inverse_placed,
                    piece_set,
                    height,
                    i as nat,
                ).skip(so_far.len() as int)), rest);
            }
            return SearchStatus::Abort;
        }
    }
    SearchStatus::Continue
}

/// Why a search of `board` with `height` rows cannot start, if it cannot: the
/// height is not the height of the geometry, or else the board has a cell
/// outside the field.
pub open spec fn refusal(geometry: &Geometry, board: BitBoard, height: usize) -> Option<
    ConfigError,
> {
    if height != geometry.spec_height() {
        Some(ConfigError::HeightMismatch)
    } else if !board.within(BitBoard::spec_filled(height)) {
        Some(ConfigError::BoardOutOfField)
    } else {
        None
    }
}

/// Finds every way to fill the field of `height` rows that starts as `board`
/// with pieces of `piece_set`, and hands each to `consumer`, in the order
/// of [`tilings`], until the consumer answers `Abort`.
///
/// A board that is full already has one tiling, the empty one. Nothing is
/// searched, and the consumer is left alone, when `height` is not the height
/// of the geometry or when the board has a cell outside the field.
pub fn find_combinations<P: Placeability, C: ComboConsumer>(
    geometry: &Geometry,
    rule: &P,
    piece_set: PieceSet,
    board: BitBoard,
    height: usize,
    consumer: &mut C,
) -> (r: Result<SearchStatus, ConfigError>)
    requires
        old(consumer).ready(),
    ensures
        final(consumer).ready(),
        r is Err <==> refusal(geometry, board, height) is Some,
        r matches Err(e) ==> refusal(geometry, board, height) == Some(e),
        r is Err ==> final(consumer).history() == old(consumer).history(),
        r matches Ok(status) ==> reported(
            old(consumer).history(),
            final(consumer).history(),
            tilings(geometry@, rule, piece_set, board, height),
            status,
        ),
{
    if height != geometry.height() {
        return Err(ConfigError::HeightMismatch);
    }
    let full = BitBoard::filled(height);
    if board.remove(full).0 != 0 {
        return Err(ConfigError::BoardOutOfField);
    }
    let mut placements: Vec<Placement> = Vec::new();
    if board == full {
        let answer = consumer.accept(placements.as_slice());
        proof {
            lemma_reported_one(old(consumer).history(), placements@, answer);
            assert(placements@ =~= Seq::<Placement>::empty());
        }
        return Ok(answer);
    }
    assert(placements@ =~= Seq::<Placement>::empty());
    let status = find_combos_st(
        geometry,
        rule,
        &mut placements,
        board,
        full,
        piece_set,
        height,
        consumer,
    );
    Ok(status)
}

} // verus!
