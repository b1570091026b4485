//! Receivers of the tilings that a search finds.

use crate::piece::Placement;
use vstd::prelude::*;

verus! {

/// What a consumer wants after it has been handed a tiling.
#[derive(Clone, Copy, Debug, PartialEq, Eq, Structural)]
pub enum SearchStatus {
    /// Go on with the search.
    Continue,
    /// Stop the search.
    Abort,
}

/// A tiling that was handed to a consumer, and the consumer's answer.
pub type Report = (Seq<Placement>, SearchStatus);

/// A receiver of tilings.
pub trait ComboConsumer {
    /// The consumer is in a state in which it can be handed a tiling.
    spec fn ready(&self) -> bool;

    /// Everything that was handed to the consumer, with its answers, oldest
    /// first.
    spec fn history(&self) -> Seq<Report>;

    /// Takes one tiling and says whether the search should go on.
    fn accept(&mut self, combo: &[Placement]) -> (answer: SearchStatus)
        requires
            old(self).ready(),
        ensures
            final(self).ready(),
            final(self).history() == old(self).history().push((combo@, answer)),
    ;
}

/// A consumer that keeps every tiling it is handed and never stops the
/// search.
pub struct Collector {
    combos: Vec<Vec<Placement>>,
}

impl View for Collector {
    type V = Seq<Seq<Placement>>;

    /// The tilings held, oldest first.
    closed spec fn view(&self) -> Seq<Seq<Placement>> {
        Seq::new(self.combos@.len(), |i: int| self.combos@[i]@)
    }
}

impl Collector {
    /// A collector that holds nothing.
    pub fn new() -> (r: Collector)
        ensures
            r@ == Seq::<Seq<Placement>>::empty(),
            r.history() == Seq::<Report>::empty(),
            r.ready(),
    {
        let r = Collector { combos: Vec::new() };
        assert(r@ =~= Seq::empty());
        assert(r.history() =~= Seq::empty());
        r
    }

    /// What the history is made of: the tilings held, each answered with
    /// `Continue`.
    pub proof fn lemma_history(&self)
        ensures
            self.history().len() == self@.len(),
            forall|i: int|
                0 <= i < self@.len() ==> #[trigger] self.history()[i] == (
                    self@[i],
                    SearchStatus::Continue,
                ),
    {
    }

    /// Number of tilings held.
    pub fn len(&self) -> (r: usize)
        ensures
            r == self@.len(),
    {
        self.combos.len()
    }

    /// The tilings held, oldest first.
    pub fn into_combos(self) -> (r: Vec<Vec<Placement>>)
        ensures
            r@.len() == self@.len(),
            forall|i: int| 0 <= i < r@.len() ==> (#[trigger] r@[i])@ == self@[i],
    {
        self.combos
    }
}

impl ComboConsumer for Collector {
    open spec fn ready(&self) -> bool {
        true
    }

    closed spec fn history(&self) -> Seq<Report> {
        Seq::new(self.combos@.len(), |i: int| (self.combos@[i]@, SearchStatus::Continue))
    }

    fn accept(&mut self, combo: &[Placement]) -> (answer: SearchStatus) {
        let kept = slice_to_vec(combo);
        self.combos.push(kept);
        assert(self.history() =~= old(self).history().push((combo@, SearchStatus::Continue)));
        SearchStatus::Continue
    }
}

/// The answer of a consumer that stops once it holds `limit` tilings, when it
/// holds `held` of them.
pub open spec fn limited_answer(held: int, limit: usize) -> SearchStatus {
    if held >= limit {
        SearchStatus::Abort
    } else {
        SearchStatus::Continue
    }
}

/// A consumer that keeps the tilings it is handed, and stops the search once
/// it holds as many as its limit.
pub struct LimitedCollector {
    combos: Vec<Vec<Placement>>,
    limit: usize,
}

impl View for LimitedCollector {
    type V = Seq<Seq<Placement>>;

    /// The tilings held, oldest first.
    closed spec fn view(&self) -> Seq<Seq<Placement>> {
        Seq::new(self.combos@.len(), |i: int| self.combos@[i]@)
    }
}

impl LimitedCollector {
    /// Number of tilings at which the collector stops the search.
    pub closed spec fn spec_limit(&self) -> usize {
        self.limit
    }

    /// A collector that stops the search once it holds `limit` tilings. With
    /// a limit of 0 it stops at the first, like one with a limit of 1.
    pub fn new(limit: usize) -> (r: LimitedCollector)
        ensures
            r@ == Seq::<Seq<Placement>>::empty(),
            r.spec_limit() == limit,
            r.history() == Seq::<Report>::empty(),
            r.ready(),
    {
        let r = LimitedCollector { combos: Vec::new(), limit };
        assert(r@ =~= Seq::empty());
        assert(r.history() =~= Seq::empty());
        r
    }

    /// What the history is made of: the tilings held, each with the answer
    /// that the limit gives at that point.
    pub proof fn lemma_history(&self)
        ensures
            self.history().len() == self@.len(),
            forall|i: int|
                0 <= i < self@.len() ==> #[trigger] self.history()[i] == (
                    self@[i],
                    limited_answer(i + 1, self.spec_limit()),
                ),
    {
    }

    /// Number of tilings held.
    pub fn len(&self) -> (r: usize)
        ensures
            r == self@.len(),
    {
        self.combos.len()
    }

    /// The tilings held, oldest first.
    pub fn into_combos(self) -> (r: Vec<Vec<Placement>>)
        ensures
            r@.len() == self@.len(),
            forall|i: int| 0 <= i < r@.len() ==> (#[trigger] r@[i])@ == self@[i],
    {
        self.combos
    }
}

impl ComboConsumer for LimitedCollector {
    open spec fn ready(&self) -> bool {
        true
    }

    closed spec fn history(&self) -> Seq<Report> {
        Seq::new(
            self.combos@.len(),
            |i: int| (self.combos@[i]@, limited_answer(i + 1, self.limit)),
        )
    }

    fn accept(&mut self, combo: &[Placement]) -> (answer: SearchStatus) {
        let kept = slice_to_vec(combo);
        self.combos.push(kept);
        let answer = if self.combos.len() >= self.limit {
            SearchStatus::Abort
        } else {
            SearchStatus::Continue
        };
        assert(self.history() =~= old(self).history().push((combo@, answer)));
        answer
    }
}

/// A consumer given as a function.
pub struct FnConsumer<F: FnMut(&[Placement]) -> SearchStatus> {
    consume: F,
    log: Ghost<Seq<Report>>,
}

impl<F: FnMut(&[Placement]) -> SearchStatus> FnConsumer<F> {
    /// The function that is handed the tilings.
    pub closed spec fn function(&self) -> F {
        self.consume
    }

    /// The consumer that hands each tiling to `consume`. The function has to
    /// accept every sequence of placements.
    pub fn new(consume: F) -> (r: Self)
        requires
            forall|combo: &[Placement]| #[trigger] call_requires(consume, (combo,)),
        ensures
            r.ready(),
            r.function() == consume,
            r.history() == Seq::<Report>::empty(),
    {
        FnConsumer { consume, log: Ghost(Seq::empty()) }
    }

    /// The function, back from the consumer.
    pub fn into_inner(self) -> (r: F)
        ensures
            r == self.function(),
    {
        self.consume
    }
}

impl<F: FnMut(&[Placement]) -> SearchStatus> ComboConsumer for FnConsumer<F> {
    closed spec fn ready(&self) -> bool {
        forall|combo: &[Placement]| #[trigger] call_requires(self.consume, (combo,))
    }

    closed spec fn history(&self) -> Seq<Report> {
        self.log@
    }

    fn accept(&mut self, combo: &[Placement]) -> (answer: SearchStatus)
        ensures
            call_ensures(old(self).function(), (combo,), answer),
    {
        let answer = (self.consume)(combo);
        proof {
            self.log@ = self.log@.push((combo@, answer));
        }
        answer
    }
}

/// A copy of the placements of `combo`, in order.
pub fn slice_to_vec(combo: &[Placement]) -> (r: Vec<Placement>)
    ensures
        r@ == combo@,
{
    let mut r: Vec<Placement> = Vec::new();
    let mut i: usize = 0;
    while i < combo.len()
        invariant
            i <= combo@.len(),
            r@ == combo@.take(i as int),
        decreases combo@.len() - i,
    {
        r.push(combo[i]);
        assert(combo@.take(i + 1) =~= combo@.take(i as int).push(combo@[i as int]));
        i += 1;
    }
    assert(combo@.take(combo@.len() as int) =~= combo@);
    r
}

} // verus!
