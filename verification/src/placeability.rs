//! The rule that decides whether a placement can land.
//!
//! The search does not know how a piece moves. It asks a rule whether a
//! placement can come to rest, given the cells that are known to be present
//! when it is dropped.

use crate::board::BitBoard;
use crate::piece::Placement;
use vstd::prelude::*;

verus! {

/// A rule that decides whether a placement can land on a board.
pub trait Placeability {
    /// The rule lets `placement` land when exactly the cells of `supported`
    /// are present.
    spec fn allows(&self, placement: Placement, supported: BitBoard) -> bool;

    /// Whether `placement` can land when the cells of `supported` are present.
    fn placeable(&self, placement: Placement, supported: BitBoard) -> (r: bool)
        requires
            placement.wf(),
        ensures
            r == self.allows(placement, supported),
    ;
}

/// A rule never withdraws its consent when more cells are present, as long as
/// the placement's own cells stay free.
pub open spec fn monotone<P: Placeability>(rule: &P) -> bool {
    forall|p: Placement, s: BitBoard, t: BitBoard|
        #![trigger rule.allows(p, s), rule.allows(p, t)]
        s.within(t) && !t.spec_overlaps(p.spec_board()) && rule.allows(p, s) ==> rule.allows(
            p,
            t,
        )
}

/// The rule that lets every placement land.
#[derive(Clone, Copy, Debug)]
pub struct Always;

impl Placeability for Always {
    open spec fn allows(&self, placement: Placement, supported: BitBoard) -> bool {
        true
    }

    fn placeable(&self, placement: Placement, supported: BitBoard) -> (r: bool) {
        true
    }
}

/// The rule that lets every placement land is monotone.
pub proof fn lemma_always_is_monotone()
    ensures
        monotone(&Always),
{
}

/// `decide` accepts every well-formed placement on every board, and never has
/// two answers to one question.
pub open spec fn is_rule<F: Fn(Placement, BitBoard) -> bool>(decide: F) -> bool {
    &&& forall|p: Placement, s: BitBoard| p.wf() ==> #[trigger] call_requires(decide, (p, s))
    &&& forall|p: Placement, s: BitBoard|
        !(#[trigger] call_ensures(decide, (p, s), true) && call_ensures(decide, (p, s), false))
}

/// A rule given as a function.
pub struct FnRule<F: Fn(Placement, BitBoard) -> bool> {
    decide: F,
}

impl<F: Fn(Placement, BitBoard) -> bool> FnRule<F> {
    /// The function is a rule.
    #[verifier::type_invariant]
    closed spec fn inv(&self) -> bool {
        is_rule(self.decide)
    }

    /// The function that decides.
    pub closed spec fn decider(&self) -> F {
        self.decide
    }

    /// The rule that asks `decide`.
    pub fn new(decide: F) -> (r: Self)
        requires
            is_rule(decide),
        ensures
            r.decider() == decide,
    {
        FnRule { decide }
    }

    /// The rule allows what the function can answer with `true`.
    pub proof fn lemma_allows(&self, placement: Placement, supported: BitBoard)
        ensures
            self.allows(placement, supported) == call_ensures(
                self.decider(),
                (placement, supported),
                true,
            ),
    {
    }
}

impl<F: Fn(Placement, BitBoard) -> bool> Placeability for FnRule<F> {
    closed spec fn allows(&self, placement: Placement, supported: BitBoard) -> bool {
        call_ensures(self.decide, (placement, supported), true)
    }

    fn placeable(&self, placement: Placement, supported: BitBoard) -> (r: bool)
        ensures
            call_ensures(self.decider(), (placement, supported), r),
    {
        proof {
            use_type_invariant(self);
        }
        (self.decide)(placement, supported)
    }
}

} // verus!
