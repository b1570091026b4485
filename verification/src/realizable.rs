//! What the cycle detector decides, stated without its algorithm.
//!
//! A sequence of placements can be built when its placements can be dropped
//! one after the other, in some order, each landing on the cells that were
//! there from the start and the cells of those dropped before it. For
//! placements that tile what the start leaves open, and a rule that never
//! withdraws its consent when more cells are present, the detector says
//! "cyclic" exactly when there is no such order.

use crate::board::{lemma_cell_sets, BitBoard};
use crate::cycle::{
    all_wf, cyclic, first_ready, lemma_first_ready, lemma_fold_grows, ready, settle,
};
use crate::piece::Placement;
use crate::placeability::{monotone, Placeability};
use vstd::prelude::*;

verus! {

/// The cells of all the placements.
pub open spec fn union_of(placements: Seq<Placement>) -> BitBoard
    decreases placements.len(),
{
    if placements.len() == 0 {
        BitBoard(0)
    } else {
        union_of(placements.drop_last()).spec_combine(placements.last().spec_board())
    }
}

/// The placements tile what `inverse_placed` leaves open of the field: each
/// occupies a cell, no two share a cell, none shares a cell with
/// `inverse_placed`, and together with it they fill the field of `height`
/// rows.
pub open spec fn coherent(
    inverse_placed: BitBoard,
    placements: Seq<Placement>,
    height: usize,
) -> bool {
    &&& all_wf(placements)
    &&& forall|i: int|
        0 <= i < placements.len() ==> !inverse_placed.spec_overlaps(
            (#[trigger] placements[i]).spec_board(),
        )
    &&& forall|i: int, j: int|
        0 <= i < placements.len() && 0 <= j < placements.len() && i != j ==> !(
        #[trigger] placements[i]).spec_board().spec_overlaps((#[trigger] placements[j]).spec_board())
    &&& inverse_placed.spec_combine(union_of(placements)) == BitBoard::spec_filled(height)
}

/// The cells that are present after the placements at the positions of
/// `order` were dropped onto `inverse_placed`.
pub open spec fn support_after(
    inverse_placed: BitBoard,
    placements: Seq<Placement>,
    order: Seq<int>,
) -> BitBoard
    decreases order.len(),
{
    if order.len() == 0 {
        inverse_placed
    } else {
        support_after(inverse_placed, placements, order.drop_last()).spec_combine(
            placements[order.last()].spec_board(),
        )
    }
}

/// `order` lists positions of the sequence, none twice, and the rule lets
/// each placement land on what is present when its turn comes.
pub open spec fn can_drop<P: Placeability>(
    rule: &P,
    inverse_placed: BitBoard,
    placements: Seq<Placement>,
    order: Seq<int>,
) -> bool {
    &&& order.no_duplicates()
    &&& forall|k: int| 0 <= k < order.len() ==> 0 <= #[trigger] order[k] < placements.len()
    &&& forall|k: int|
        0 <= k < order.len() ==> rule.allows(
            placements[#[trigger] order[k]],
            support_after(inverse_placed, placements, order.take(k)),
        )
}

/// `order` is an order in which all the placements can be dropped.
pub open spec fn drop_order<P: Placeability>(
    rule: &P,
    inverse_placed: BitBoard,
    placements: Seq<Placement>,
    order: Seq<int>,
) -> bool {
    &&& can_drop(rule, inverse_placed, placements, order)
    &&& forall|i: int| 0 <= i < placements.len() ==> order.contains(i)
}

/// Each placement is either wholly present in `supported` or wholly absent.
pub open spec fn whole(supported: BitBoard, placements: Seq<Placement>) -> bool {
    forall|i: int|
        0 <= i < placements.len() ==> (#[trigger] placements[i]).spec_board().within(supported)
            || !supported.spec_overlaps(placements[i].spec_board())
}

/// The cells of each placement are among the cells of all of them.
pub proof fn lemma_union_holds_each(placements: Seq<Placement>, i: int)
    requires
        0 <= i < placements.len(),
    ensures
        placements[i].spec_board().within(union_of(placements)),
    decreases placements.len(),
{
    let rest = union_of(placements.drop_last());
    let last = placements.last().spec_board();
    lemma_cell_sets(rest, last, BitBoard(0));
    if i < placements.len() - 1 {
        lemma_union_holds_each(placements.drop_last(), i);
        lemma_cell_sets(rest, placements[i].spec_board(), last);
    }
}

/// A board that holds the cells of each placement holds the cells of all.
pub proof fn lemma_union_within(placements: Seq<Placement>, holder: BitBoard)
    requires
        forall|i: int|
            0 <= i < placements.len() ==> (#[trigger] placements[i]).spec_board().within(holder),
    ensures
        union_of(placements).within(holder),
    decreases placements.len(),
{
    if placements.len() == 0 {
        lemma_cell_sets(holder, BitBoard(0), BitBoard(0));
    } else {
        lemma_union_within(placements.drop_last(), holder);
        assert(placements[placements.len() - 1].spec_board().within(holder));
        lemma_cell_sets(union_of(placements.drop_last()), placements.last().spec_board(), holder);
    }
}

/// What is present after a drop holds what was there from the start, and the
/// cells of every placement that was dropped.
proof fn lemma_support_holds(inverse_placed: BitBoard, placements: Seq<Placement>, order: Seq<int>)
    ensures
        inverse_placed.within(support_after(inverse_placed, placements, order)),
        forall|k: int|
            0 <= k < order.len() ==> placements[#[trigger] order[k]].spec_board().within(
                support_after(inverse_placed, placements, order),
            ),
    decreases order.len(),
{
    let all = support_after(inverse_placed, placements, order);
    if order.len() == 0 {
        lemma_cell_sets(inverse_placed, BitBoard(0), BitBoard(0));
    } else {
        let before = support_after(inverse_placed, placements, order.drop_last());
        let last = placements[order.last()].spec_board();
        lemma_support_holds(inverse_placed, placements, order.drop_last());
        lemma_cell_sets(before, inverse_placed, last);
        lemma_cell_sets(before, last, BitBoard(0));
        assert forall|k: int| 0 <= k < order.len() implies placements[#[trigger] order[k]].spec_board().within(
            all,
        ) by {
            if k < order.len() - 1 {
                assert(order.drop_last()[k] == order[k]);
                lemma_cell_sets(before, placements[order[k]].spec_board(), last);
            }
        }
    }
}

/// When no further placement can be folded in, what is present holds what
/// was there before, keeps each placement whole, and leaves no placement
/// ready.
proof fn lemma_settle<P: Placeability>(
    rule: &P,
    supported: BitBoard,
    placements: Seq<Placement>,
    bound: BitBoard,
)
    requires
        all_wf(placements),
        forall|i: int, j: int|
            0 <= i < placements.len() && 0 <= j < placements.len() && i != j ==> !(
            #[trigger] placements[i]).spec_board().spec_overlaps(
                (#[trigger] placements[j]).spec_board(),
            ),
        forall|i: int|
            0 <= i < placements.len() ==> (#[trigger] placements[i]).spec_board().within(bound),
        whole(supported, placements),
        supported.within(bound),
    ensures
        supported.within(settle(rule, supported, placements)),
        settle(rule, supported, placements).within(bound),
        whole(settle(rule, supported, placements), placements),
        forall|i: int|
            0 <= i < placements.len() ==> !ready(
                rule,
                settle(rule, supported, placements),
                #[trigger] placements[i],
            ),
    decreases u64::MAX - supported.0,
{
    let i = first_ready(rule, supported, placements, 0);
    lemma_first_ready(rule, supported, placements, 0);
    if i < placements.len() {
        let added = placements[i].spec_board();
        let next = supported.spec_combine(added);
        lemma_fold_grows(supported, placements[i]);
        lemma_cell_sets(supported, added, bound);
        assert forall|m: int| 0 <= m < placements.len() implies (
        #[trigger] placements[m]).spec_board().within(next) || !next.spec_overlaps(
            placements[m].spec_board(),
        ) by {
            let other = placements[m].spec_board();
            lemma_cell_sets(supported, other, added);
            lemma_cell_sets(added, other, BitBoard(0));
        }
        lemma_settle(rule, next, placements, bound);
        lemma_cell_sets(supported, next, settle(rule, next, placements));
    } else {
        lemma_cell_sets(supported, BitBoard(0), BitBoard(0));
    }
}

/// Folding in the first ready placement again and again is a way to drop
/// placements: the positions folded in, added to those of `done`, can be
/// dropped in that order, and they are the positions of the placements that
/// are present in the end.
proof fn lemma_greedy_order<P: Placeability>(
    rule: &P,
    inverse_placed: BitBoard,
    placements: Seq<Placement>,
    done: Seq<int>,
) -> (order: Seq<int>)
    requires
        all_wf(placements),
        forall|i: int, j: int|
            0 <= i < placements.len() && 0 <= j < placements.len() && i != j ==> !(
            #[trigger] placements[i]).spec_board().spec_overlaps(
                (#[trigger] placements[j]).spec_board(),
            ),
        can_drop(rule, inverse_placed, placements, done),
        whole(support_after(inverse_placed, placements, done), placements),
        forall|i: int|
            0 <= i < placements.len() ==> (done.contains(i) <==> (
            #[trigger] placements[i]).spec_board().within(
                support_after(inverse_placed, placements, done),
            )),
    ensures
        can_drop(rule, inverse_placed, placements, order),
        support_after(inverse_placed, placements, order) == settle(
            rule,
            support_after(inverse_placed, placements, done),
            placements,
        ),
        forall|i: int|
            0 <= i < placements.len() ==> (order.contains(i) <==> (
            #[trigger] placements[i]).spec_board().within(
                support_after(inverse_placed, placements, order),
            )),
    decreases u64::MAX - support_after(inverse_placed, placements, done).0,
{
    let supported = support_after(inverse_placed, placements, done);
    let i = first_ready(rule, supported, placements, 0);
    lemma_first_ready(rule, supported, placements, 0);
    if i < placements.len() {
        let added = placements[i].spec_board();
        let next = supported.spec_combine(added);
        let longer = done.push(i);
        lemma_fold_grows(supported, placements[i]);
        lemma_cell_sets(supported, added, BitBoard(0));
        assert(!done.contains(i));
        assert(longer.drop_last() =~= done);
        assert(support_after(inverse_placed, placements, longer) == next);
        assert forall|k: int| 0 <= k < longer.len() implies rule.allows(
            placements[#[trigger] longer[k]],
            support_after(inverse_placed, placements, longer.take(k)),
        ) by {
            assert(longer.take(k) =~= done.take(k));
            if k < done.len() {
                assert(done[k] == longer[k]);
            } else {
                assert(done.take(k) =~= done);
            }
        }
        assert forall|m: int| 0 <= m < placements.len() implies (longer.contains(m) <==> (
        #[trigger] placements[m]).spec_board().within(next)) by {
            let other = placements[m].spec_board();
            lemma_cell_sets(supported, other, added);
            lemma_cell_sets(added, other, BitBoard(0));
            if m == i {
                assert(longer[done.len() as int] == i);
            } else if done.contains(m) {
                let k = choose|k: int| 0 <= k < done.len() && done[k] == m;
                assert(longer[k] == m);
            } else if longer.contains(m) {
                let k = choose|k: int| 0 <= k < longer.len() && longer[k] == m;
                assert(done[k] == m);
            }
        }
        assert forall|m: int| 0 <= m < placements.len() implies (
        #[trigger] placements[m]).spec_board().within(next) || !next.spec_overlaps(
            placements[m].spec_board(),
        ) by {
            let other = placements[m].spec_board();
            lemma_cell_sets(supported, other, added);
            lemma_cell_sets(added, other, BitBoard(0));
        }
        lemma_greedy_order(rule, inverse_placed, placements, longer)
    } else {
        done
    }
}

/// A sequence of placements that can be dropped in some order is not cyclic,
/// if the placements tile what the start leaves open and the rule is
/// monotone.
pub proof fn lemma_drop_order_means_not_cyclic<P: Placeability>(
    rule: &P,
    inverse_placed: BitBoard,
    placements: Seq<Placement>,
    height: usize,
    order: Seq<int>,
)
    requires
        coherent(inverse_placed, placements, height),
        monotone(rule),
        drop_order(rule, inverse_placed, placements, order),
    ensures
        !cyclic(rule, inverse_placed, placements, height),
{
    let full = BitBoard::spec_filled(height);
    let end = settle(rule, inverse_placed, placements);
    lemma_cell_sets(inverse_placed, union_of(placements), BitBoard(0));
    assert forall|i: int| 0 <= i < placements.len() implies (
    #[trigger] placements[i]).spec_board().within(full) by {
        lemma_union_holds_each(placements, i);
        lemma_cell_sets(placements[i].spec_board(), union_of(placements), full);
        lemma_cell_sets(inverse_placed, union_of(placements), BitBoard(0));
    }
    assert(whole(inverse_placed, placements)) by {
        assert forall|i: int| 0 <= i < placements.len() implies !inverse_placed.spec_overlaps(
            (#[trigger] placements[i]).spec_board(),
        ) by {}
    }
    lemma_settle(rule, inverse_placed, placements, full);
    lemma_drops_stay_within(rule, inverse_placed, placements, order, order.len() as int, end);
    assert(order.take(order.len() as int) =~= order);
    let reached = support_after(inverse_placed, placements, order);
    lemma_support_holds(inverse_placed, placements, order);
    assert forall|i: int| 0 <= i < placements.len() implies (
    #[trigger] placements[i]).spec_board().within(end) by {
        assert(order.contains(i));
        let k = choose|k: int| 0 <= k < order.len() && order[k] == i;
        lemma_cell_sets(placements[order[k]].spec_board(), reached, end);
    }
    lemma_union_within(placements, end);
    lemma_cell_sets(inverse_placed, union_of(placements), end);
    lemma_cell_sets(end, full, BitBoard(0));
}

/// Whatever is present after the first `k` drops of an order is present when
/// the detector has folded in all it can, if the rule is monotone.
proof fn lemma_drops_stay_within<P: Placeability>(
    rule: &P,
    inverse_placed: BitBoard,
    placements: Seq<Placement>,
    order: Seq<int>,
    k: int,
    end: BitBoard,
)
    requires
        monotone(rule),
        can_drop(rule, inverse_placed, placements, order),
        0 <= k <= order.len(),
        inverse_placed.within(end),
        whole(end, placements),
        forall|i: int| 0 <= i < placements.len() ==> !ready(rule, end, #[trigger] placements[i]),
    ensures
        support_after(inverse_placed, placements, order.take(k)).within(end),
    decreases k,
{
    if k > 0 {
        lemma_drops_stay_within(rule, inverse_placed, placements, order, k - 1, end);
        let before = support_after(inverse_placed, placements, order.take(k - 1));
        let p = placements[order[k - 1]];
        assert(order.take(k).drop_last() =~= order.take(k - 1));
        assert(order.take(k).last() == order[k - 1]);
        assert(rule.allows(p, before));
        if !p.spec_board().within(end) {
            assert(!end.spec_overlaps(p.spec_board()));
            assert(rule.allows(p, end));
            assert(ready(rule, end, p));
        }
        lemma_cell_sets(before, p.spec_board(), end);
    }
}

/// A sequence of placements that is not cyclic can be dropped in some order,
/// if the placements tile what the start leaves open. The order returned is
/// the one in which the detector folds the placements in.
pub proof fn lemma_not_cyclic_means_drop_order<P: Placeability>(
    rule: &P,
    inverse_placed: BitBoard,
    placements: Seq<Placement>,
    height: usize,
) -> (order: Seq<int>)
    requires
        coherent(inverse_placed, placements, height),
        !cyclic(rule, inverse_placed, placements, height),
    ensures
        drop_order(rule, inverse_placed, placements, order),
{
    let full = BitBoard::spec_filled(height);
    let none = Seq::<int>::empty();
    assert forall|i: int| 0 <= i < placements.len() implies (none.contains(i) <==> (
    #[trigger] placements[i]).spec_board().within(inverse_placed)) by {
        lemma_cell_sets(inverse_placed, placements[i].spec_board(), BitBoard(0));
    }
    assert(whole(inverse_placed, placements)) by {
        assert forall|i: int| 0 <= i < placements.len() implies !inverse_placed.spec_overlaps(
            (#[trigger] placements[i]).spec_board(),
        ) by {}
    }
    let order = lemma_greedy_order(rule, inverse_placed, placements, none);
    assert forall|i: int| 0 <= i < placements.len() implies order.contains(i) by {
        lemma_union_holds_each(placements, i);
        lemma_cell_sets(inverse_placed, union_of(placements), BitBoard(0));
        lemma_cell_sets(placements[i].spec_board(), union_of(placements), full);
    }
    order
}

/// The detector says "cyclic" exactly when the placements cannot be dropped
/// in any order, if they tile what the start leaves open and the rule is
/// monotone.
pub proof fn lemma_cyclic_iff_no_drop_order<P: Placeability>(
    rule: &P,
    inverse_placed: BitBoard,
    placements: Seq<Placement>,
    height: usize,
)
    requires
        coherent(inverse_placed, placements, height),
        monotone(rule),
    ensures
        cyclic(rule, inverse_placed, placements, height) <==> !exists|order: Seq<int>|
            drop_order(rule, inverse_placed, placements, order),
{
    if !cyclic(rule, inverse_placed, placements, height) {
        let order = lemma_not_cyclic_means_drop_order(rule, inverse_placed, placements, height);
        assert(drop_order(rule, inverse_placed, placements, order));
    }
    if exists|order: Seq<int>| drop_order(rule, inverse_placed, placements, order) {
        let order = choose|order: Seq<int>| drop_order(rule, inverse_placed, placements, order);
        lemma_drop_order_means_not_cyclic(rule, inverse_placed, placements, height, order);
    }
}

} // verus!
