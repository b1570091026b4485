//! Detection of placements that wait for each other.
//!
//! A set of placements may tile the field and still be impossible to build:
//! each placement has to land on something, and two placements may each need
//! the other to be there first. The detector folds in, one at a time, a
//! placement that can land on what is present so far, until none is left that
//! can. If cells are still missing then, the placements are called cyclic.

use crate::board::{BitBoard, MAX_HEIGHT};
use crate::piece::Placement;
use crate::placeability::Placeability;
use vstd::prelude::*;

verus! {

/// Every placement of the sequence is well formed.
pub open spec fn all_wf(placements: Seq<Placement>) -> bool {
    forall|i: int| 0 <= i < placements.len() ==> (#[trigger] placements[i]).wf()
}

/// `p` can be folded in: none of its cells is present yet, and the rule lets
/// it land on what is present.
pub open spec fn ready<P: Placeability>(rule: &P, supported: BitBoard, p: Placement) -> bool {
    !supported.spec_overlaps(p.spec_board()) && rule.allows(p, supported)
}

/// The position of the first placement at or after `from` that can be folded
/// in; the length of the sequence when there is none.
pub open spec fn first_ready<P: Placeability>(
    rule: &P,
    supported: BitBoard,
    placements: Seq<Placement>,
    from: int,
) -> int
    decreases placements.len() - from,
{
    if from < 0 || from >= placements.len() {
        placements.len() as int
    } else if ready(rule, supported, placements[from]) {
        from
    } else {
        first_ready(rule, supported, placements, from + 1)
    }
}

/// The cells that are present when no further placement can be folded in,
/// starting from `supported` and always folding in the first placement of the
/// sequence that can be.
pub open spec fn settle<P: Placeability>(
    rule: &P,
    supported: BitBoard,
    placements: Seq<Placement>,
) -> BitBoard
    decreases u64::MAX - supported.0,
    when all_wf(placements)
{
    let i = first_ready(rule, supported, placements, 0);
    if i < placements.len() {
        proof {
            lemma_first_ready(rule, supported, placements, 0);
            lemma_fold_grows(supported, placements[i]);
        }
        settle(rule, supported.spec_combine(placements[i].spec_board()), placements)
    } else {
        supported
    }
}

/// The placements cannot all be folded in: when no further one can be, cells
/// of the field of `height` rows are still missing.
pub open spec fn cyclic<P: Placeability>(
    rule: &P,
    inverse_placed: BitBoard,
    placements: Seq<Placement>,
    height: usize,
) -> bool {
    settle(rule, inverse_placed, placements) != BitBoard::spec_filled(height)
}

/// `first_ready` returns a position at or after `from`; the placement there
/// is ready, and none between `from` and it is.
pub proof fn lemma_first_ready<P: Placeability>(
    rule: &P,
    supported: BitBoard,
    placements: Seq<Placement>,
    from: int,
)
    requires
        0 <= from <= placements.len(),
    ensures
        from <= first_ready(rule, supported, placements, from) <= placements.len(),
        first_ready(rule, supported, placements, from) < placements.len() ==> ready(
            rule,
            supported,
            placements[first_ready(rule, supported, placements, from)],
        ),
        forall|k: int|
            from <= k < first_ready(rule, supported, placements, from) ==> !ready(
                rule,
                supported,
                #[trigger] placements[k],
            ),
    decreases placements.len() - from,
{
    if from < placements.len() && !ready(rule, supported, placements[from]) {
        lemma_first_ready(rule, supported, placements, from + 1);
    }
}

/// A position whose placement is ready, with none ready between `from` and
/// it, is what `first_ready` returns; so is the length when none is ready.
pub proof fn lemma_first_ready_is<P: Placeability>(
    rule: &P,
    supported: BitBoard,
    placements: Seq<Placement>,
    from: int,
    i: int,
)
    requires
        0 <= from <= i <= placements.len(),
        forall|k: int| from <= k < i ==> !ready(rule, supported, #[trigger] placements[k]),
        i < placements.len() ==> ready(rule, supported, placements[i]),
    ensures
        first_ready(rule, supported, placements, from) == i,
    decreases i - from,
{
    if from < i {
        assert(!ready(rule, supported, placements[from]));
        lemma_first_ready_is(rule, supported, placements, from + 1, i);
    }
}

/// Folding in a well-formed placement that overlaps nothing adds cells.
pub proof fn lemma_fold_grows(supported: BitBoard, p: Placement)
    requires
        p.wf(),
        !supported.spec_overlaps(p.spec_board()),
    ensures
        supported.spec_combine(p.spec_board()).0 > supported.0,
{
    let (s, b) = (supported.0, p.spec_board().0);
    assert(s | b > s) by (bit_vector)
        requires
            b != 0,
            s & b == 0,
    ;
}

/// Whether the placements wait for each other, so that they cannot be dropped
/// in any order.
///
/// `inverse_placed` holds the cells that are taken to be present from the
/// start. The placements are folded in as [`settle`] says; the answer is
/// `true` when the result is not the full field of `height` rows.
pub fn has_cyclic_dependency<P: Placeability>(
    rule: &P,
    inverse_placed: BitBoard,
    placements: &[Placement],
    height: usize,
) -> (r: bool)
    requires
        all_wf(placements@),
        height <= MAX_HEIGHT,
    ensures
        r == cyclic(rule, inverse_placed, placements@, height),
{
    let mut supported = inverse_placed;
    loop
        invariant
            all_wf(placements@),
            settle(rule, supported, placements@) == settle(rule, inverse_placed, placements@),
        ensures
            supported == settle(rule, inverse_placed, placements@),
        decreases u64::MAX - supported.0,
    {
        let mut i: usize = 0;
        let mut found = false;
        while i < placements.len() && !found
            invariant
                all_wf(placements@),
                i <= placements@.len(),
                found ==> i < placements@.len() && ready(rule, supported, placements@[i as int]),
                forall|k: int| 0 <= k < i ==> !ready(rule, supported, #[trigger] placements@[k]),
            decreases placements@.len() - i, (if found { 0int } else { 1int }),
        {
            let p = placements[i];
            let piece_board = p.board();
            if !supported.overlaps(piece_board) && rule.placeable(p, supported) {
                found = true;
            } else {
                i += 1;
            }
        }
        proof {
            lemma_first_ready_is(rule, supported, placements@, 0, i as int);
        }
        if found {
            proof {
                lemma_fold_grows(supported, placements@[i as int]);
            }
            supported = supported.combine(placements[i].board());
        } else {
            break ;
        }
    }
    supported != BitBoard::filled(height)
}

} // verus!
