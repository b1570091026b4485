//! The search with its upper levels spread over worker threads.
//!
//! The first levels of the search tree are expanded level by level; every
//! state of a level is a task of its own, and the tasks of a level run in
//! parallel. Below the last such level each task searches its state in the
//! ordinary way and keeps what it finds. The tilings are then handed to the
//! consumer by the calling thread, in the order of the sequential search.

use crate::board::{BitBoard, MAX_HEIGHT};
use crate::combination::{
    find_combos_st, lemma_reported_abort, lemma_reported_nothing, lemma_reported_one,
    lemma_reported_then, refusal, reported, tilings, tilings_from, tilings_under,
};
use crate::consumer::{slice_to_vec, Collector, ComboConsumer, SearchStatus};
use crate::cycle::{all_wf, cyclic, has_cyclic_dependency};
use crate::generate::{candidates, find_combos, lemma_candidates_legal, legal_next, Candidate};
use crate::geometry::{ConfigError, Geometry};
use crate::piece::{PieceSet, PieceState, Placement};
use crate::placeability::Placeability;
use rayon::iter::{IntoParallelRefIterator, ParallelIterator};
use vstd::prelude::*;

verus! {

/// Number of levels that [`find_combinations_mt`] spreads over tasks.
pub const FANOUT_DEPTH: usize = 3;

/// A state of the search that a worker can take on.
#[derive(Debug)]
pub struct SearchTask {
    /// The path to the state.
    pub placements: Vec<Placement>,
    /// The filled cells.
    pub board: BitBoard,
    /// The cells that no placement of the path has claimed.
    pub inverse_placed: BitBoard,
    /// The pieces that are left.
    pub piece_set: PieceSet,
}

/// What a worker made of a task.
#[derive(Debug)]
pub enum Expansion {
    /// The tilings below the state of the task.
    Solved(Vec<Vec<Placement>>),
    /// The states one level below, as tasks. A task whose board is full is
    /// passed on as it is.
    Spread(Vec<SearchTask>),
}

/// A state of the search, as the specifications see it.
pub ghost struct TaskState {
    /// The path to the state.
    pub path: Seq<Placement>,
    /// The filled cells.
    pub board: BitBoard,
    /// The cells that no placement of the path has claimed.
    pub inverse_placed: BitBoard,
    /// The pieces that are left.
    pub piece_set: PieceSet,
}

impl View for SearchTask {
    type V = TaskState;

    open spec fn view(&self) -> TaskState {
        TaskState {
            path: self.placements@,
            board: self.board,
            inverse_placed: self.inverse_placed,
            piece_set: self.piece_set,
        }
    }
}

/// The states that the tasks stand for.
pub open spec fn views(tasks: Seq<SearchTask>) -> Seq<TaskState> {
    Seq::new(tasks.len(), |i: int| tasks[i]@)
}

/// The path of every state is made of well-formed placements.
pub open spec fn tasks_wf(tasks: Seq<TaskState>) -> bool {
    forall|i: int| 0 <= i < tasks.len() ==> all_wf((#[trigger] tasks[i]).path)
}

/// The sequences that the vectors hold.
pub open spec fn combos_view(combos: Seq<Vec<Placement>>) -> Seq<Seq<Placement>> {
    Seq::new(combos.len(), |i: int| combos[i]@)
}

/// The tilings that the search finds for a state: its path alone when its
/// board is full, and else what the search finds below the state.
pub open spec fn task_tilings<P: Placeability>(
    states: Seq<PieceState>,
    rule: &P,
    task: TaskState,
    height: usize,
) -> Seq<Seq<Placement>> {
    if task.board == BitBoard::spec_filled(height) {
        seq![task.path]
    } else {
        tilings_from(
            states,
            rule,
            task.path,
            task.board,
            task.inverse_placed,
            task.piece_set,
            height,
        )
    }
}

/// The tilings of the states, one state after the other.
pub open spec fn all_tilings<P: Placeability>(
    states: Seq<PieceState>,
    rule: &P,
    tasks: Seq<TaskState>,
    height: usize,
) -> Seq<Seq<Placement>>
    decreases tasks.len(),
{
    if tasks.len() == 0 {
        Seq::empty()
    } else {
        all_tilings(states, rule, tasks.drop_last(), height) + task_tilings(
            states,
            rule,
            tasks.last(),
            height,
        )
    }
}

/// The state that a candidate of `task` leads to.
pub open spec fn child(task: TaskState, c: Candidate) -> TaskState {
    TaskState {
        path: task.path.push(c.placement),
        board: c.board,
        inverse_placed: c.inverse_placed,
        piece_set: c.piece_set,
    }
}

/// The states that the first `n` candidates of `task` lead to, without
/// those whose path is cyclic, in the order of the candidates.
pub open spec fn children_under<P: Placeability>(
    states: Seq<PieceState>,
    rule: &P,
    task: TaskState,
    height: usize,
    n: nat,
) -> Seq<TaskState>
    decreases n,
{
    let cands = candidates(states, task.board, task.inverse_placed, task.piece_set, height);
    if n == 0 || n > cands.len() {
        Seq::empty()
    } else {
        let earlier = children_under(states, rule, task, height, (n - 1) as nat);
        let next = child(task, cands[n - 1]);
        if cyclic(rule, next.inverse_placed, next.path, height) {
            earlier
        } else {
            earlier.push(next)
        }
    }
}

/// The states one level below `task`. A state whose board is full has no
/// state below it and stands for itself.
pub open spec fn children<P: Placeability>(
    states: Seq<PieceState>,
    rule: &P,
    task: TaskState,
    height: usize,
) -> Seq<TaskState> {
    if task.board == BitBoard::spec_filled(height) {
        seq![task]
    } else {
        children_under(
            states,
            rule,
            task,
            height,
            candidates(states, task.board, task.inverse_placed, task.piece_set, height).len(),
        )
    }
}

/// What [`find_combos_mt`] makes of a task at level `recursions`: tasks for
/// the states one level below while the level is less than `bound`, and the
/// tilings of its state once the level has reached `bound`.
pub open spec fn expands<P: Placeability>(
    states: Seq<PieceState>,
    rule: &P,
    task: TaskState,
    height: usize,
    recursions: usize,
    bound: usize,
    expansion: Expansion,
) -> bool {
    match expansion {
        Expansion::Solved(combos) => recursions >= bound && combos_view(combos@) == task_tilings(
            states,
            rule,
            task,
            height,
        ),
        Expansion::Spread(tasks) => recursions < bound && views(tasks@) == children(
            states,
            rule,
            task,
            height,
        ),
    }
}

/// The states of the tasks of the expansions, one expansion after the other.
pub open spec fn spread_tasks(expansions: Seq<Expansion>) -> Seq<TaskState>
    decreases expansions.len(),
{
    if expansions.len() == 0 {
        Seq::empty()
    } else {
        spread_tasks(expansions.drop_last()) + match expansions.last() {
            Expansion::Spread(tasks) => views(tasks@),
            Expansion::Solved(_) => Seq::empty(),
        }
    }
}

/// The tilings of the expansions, one expansion after the other.
pub open spec fn solved_tilings(expansions: Seq<Expansion>) -> Seq<Seq<Placement>>
    decreases expansions.len(),
{
    if expansions.len() == 0 {
        Seq::empty()
    } else {
        solved_tilings(expansions.drop_last()) + match expansions.last() {
            Expansion::Solved(combos) => combos_view(combos@),
            Expansion::Spread(_) => Seq::empty(),
        }
    }
}

/// Every expansion is spread.
pub open spec fn all_spread(expansions: Seq<Expansion>) -> bool {
    forall|i: int| 0 <= i < expansions.len() ==> (#[trigger] expansions[i]) is Spread
}

/// Every expansion is solved.
pub open spec fn all_solved(expansions: Seq<Expansion>) -> bool {
    forall|i: int| 0 <= i < expansions.len() ==> (#[trigger] expansions[i]) is Solved
}

/// Each expansion is what [`find_combos_mt`] makes of the task at its
/// position.
pub open spec fn each_expands<P: Placeability>(
    states: Seq<PieceState>,
    rule: &P,
    tasks: Seq<TaskState>,
    height: usize,
    recursions: usize,
    bound: usize,
    expansions: Seq<Expansion>,
) -> bool {
    &&& expansions.len() == tasks.len()
    &&& forall|i: int|
        0 <= i < tasks.len() ==> expands(
            states,
            rule,
            tasks[i],
            height,
            recursions,
            bound,
            #[trigger] expansions[i],
        )
}

/// The tilings of a single state.
pub proof fn lemma_all_tilings_one<P: Placeability>(
    states: Seq<PieceState>,
    rule: &P,
    tasks: Seq<TaskState>,
    height: usize,
)
    requires
        tasks.len() == 1,
    ensures
        all_tilings(states, rule, tasks, height) == task_tilings(states, rule, tasks[0], height),
{
    assert(all_tilings(states, rule, tasks.drop_last(), height) =~= Seq::empty());
    assert(Seq::<Seq<Placement>>::empty() + task_tilings(states, rule, tasks[0], height)
        =~= task_tilings(states, rule, tasks[0], height));
}

/// The tilings of two runs of states, one after the other, are the tilings
/// of the first run followed by those of the second.
pub proof fn lemma_all_tilings_append<P: Placeability>(
    states: Seq<PieceState>,
    rule: &P,
    a: Seq<TaskState>,
    b: Seq<TaskState>,
    height: usize,
)
    ensures
        all_tilings(states, rule, a + b, height) == all_tilings(states, rule, a, height)
            + all_tilings(states, rule, b, height),
    decreases b.len(),
{
    if b.len() == 0 {
        assert(a + b =~= a);
    } else {
        lemma_all_tilings_append(states, rule, a, b.drop_last(), height);
        assert((a + b).drop_last() =~= a + b.drop_last());
    }
}

/// The states below the first `n` candidates of a state have the tilings
/// that the search finds below those candidates, and their paths are well
/// formed if the path of the state is.
pub proof fn lemma_children_under_keep_tilings<P: Placeability>(
    states: Seq<PieceState>,
    rule: &P,
    task: TaskState,
    height: usize,
    n: nat,
)
    ensures
        all_tilings(states, rule, children_under(states, rule, task, height, n), height)
            == tilings_under(
            states,
            rule,
            task.path,
            task.board,
            task.inverse_placed,
            task.piece_set,
            height,
            n,
        ),
        all_wf(task.path) ==> tasks_wf(children_under(states, rule, task, height, n)),
    decreases n,
{
    let cands = candidates(states, task.board, task.inverse_placed, task.piece_set, height);
    if n != 0 && n <= cands.len() {
        lemma_children_under_keep_tilings(states, rule, task, height, (n - 1) as nat);
        lemma_candidates_legal(states, task.board, task.inverse_placed, task.piece_set, height);
        let earlier = children_under(states, rule, task, height, (n - 1) as nat);
        let next = child(task, cands[n - 1]);
        let found = all_tilings(states, rule, earlier, height);
        assert(legal_next(
            cands[n - 1],
            task.board,
            task.inverse_placed,
            task.piece_set,
            height,
        ));
        if !cyclic(rule, next.inverse_placed, next.path, height) {
            assert(earlier.push(next).drop_last() =~= earlier);
            assert(found.push(next.path) =~= found + seq![next.path]);
        }
    }
}

/// The states one level below a state have the tilings of the state, and
/// their paths are well formed if the path of the state is.
pub proof fn lemma_children_keep_tilings<P: Placeability>(
    states: Seq<PieceState>,
    rule: &P,
    task: TaskState,
    height: usize,
)
    ensures
        all_tilings(states, rule, children(states, rule, task, height), height) == task_tilings(
            states,
            rule,
            task,
            height,
        ),
        all_wf(task.path) ==> tasks_wf(children(states, rule, task, height)),
{
    if task.board == BitBoard::spec_filled(height) {
        lemma_all_tilings_one(states, rule, seq![task], height);
    } else {
        lemma_children_under_keep_tilings(
            states,
            rule,
            task,
            height,
            candidates(states, task.board, task.inverse_placed, task.piece_set, height).len(),
        );
    }
}

/// Expanding every task of a level keeps the tilings: the tasks of a spread
/// level have the tilings of the level above, and the tilings of a solved
/// level are those of its tasks. This holds at every level and for every
/// bound.
pub proof fn lemma_level_keeps_tilings<P: Placeability>(
    states: Seq<PieceState>,
    rule: &P,
    tasks: Seq<TaskState>,
    height: usize,
    recursions: usize,
    bound: usize,
    expansions: Seq<Expansion>,
)
    requires
        each_expands(states, rule, tasks, height, recursions, bound, expansions),
    ensures
        recursions < bound ==> all_spread(expansions) && all_tilings(
            states,
            rule,
            spread_tasks(expansions),
            height,
        ) == all_tilings(states, rule, tasks, height),
        recursions < bound && tasks_wf(tasks) ==> tasks_wf(spread_tasks(expansions)),
        recursions >= bound ==> all_solved(expansions) && solved_tilings(expansions)
            == all_tilings(states, rule, tasks, height),
    decreases tasks.len(),
{
    if tasks.len() > 0 {
        lemma_level_keeps_tilings(
            states,
            rule,
            tasks.drop_last(),
            height,
            recursions,
            bound,
            expansions.drop_last(),
        );
        assert(expands(states, rule, tasks.last(), height, recursions, bound, expansions.last()));
        lemma_children_keep_tilings(states, rule, tasks.last(), height);
        if let Expansion::Spread(below) = expansions.last() {
            lemma_all_tilings_append(
                states,
                rule,
                spread_tasks(expansions.drop_last()),
                views(below@),
                height,
            );
        }
        if recursions < bound && tasks_wf(tasks) {
            assert(all_wf(tasks[tasks.len() - 1].path));
            assert forall|i: int| 0 <= i < tasks.drop_last().len() implies all_wf(
                (#[trigger] tasks.drop_last()[i]).path,
            ) by {
                assert(tasks.drop_last()[i] == tasks[i]);
            }
        }
    }
}

/// The tilings of the first `n` expansions are the beginning of the tilings
/// of all of them.
pub proof fn lemma_solved_tilings_grow(expansions: Seq<Expansion>, n: int) -> (rest: Seq<
    Seq<Placement>,
>)
    requires
        0 <= n <= expansions.len(),
    ensures
        solved_tilings(expansions) == solved_tilings(expansions.take(n)) + rest,
    decreases expansions.len() - n,
{
    let upto_n = solved_tilings(expansions.take(n));
    if n == expansions.len() {
        assert(expansions.take(n) =~= expansions);
        assert(upto_n + Seq::empty() =~= upto_n);
        Seq::empty()
    } else {
        let later = lemma_solved_tilings_grow(expansions, n + 1);
        let upto_next = solved_tilings(expansions.take(n + 1));
        assert(expansions.take(n + 1).drop_last() =~= expansions.take(n));
        let here = upto_next.skip(upto_n.len() as int);
        assert(upto_next =~= upto_n + here);
        assert(upto_n + (here + later) =~= (upto_n + here) + later);
        here + later
    }
}

/// A task for the same state as `task`.
fn copy_task(task: &SearchTask) -> (r: SearchTask)
    ensures
        r@ == task@,
{
    SearchTask {
        placements: slice_to_vec(task.placements.as_slice()),
        board: task.board,
        inverse_placed: task.inverse_placed,
        piece_set: task.piece_set,
    }
}

/// The states one level below a state that is not full, as tasks: one for
/// each candidate whose path is not cyclic, in the order of the candidates.
fn child_tasks<P: Placeability>(
    geometry: &Geometry,
    rule: &P,
    task: &SearchTask,
    height: usize,
) -> (r: Vec<SearchTask>)
    requires
        height == geometry.spec_height(),
        all_wf(task.placements@),
    ensures
        views(r@) == children_under(
            geometry@,
            rule,
            task@,
            height,
            candidates(
                geometry@,
                task.board,
                task.inverse_placed,
                task.piece_set,
                height,
            ).len(),
        ),
{
    let height = geometry.height();
    let cands = find_combos(geometry, task.board, task.inverse_placed, task.piece_set, height);
    let mut path = slice_to_vec(task.placements.as_slice());
    let mut below: Vec<SearchTask> = Vec::new();
    assert(views(below@) =~= Seq::<TaskState>::empty());
    let mut i: usize = 0;
    while i < cands.len()
        invariant
            height == geometry.spec_height(),
            cands@ == candidates(
                geometry@,
                task.board,
                task.inverse_placed,
                task.piece_set,
                height,
            ),
            forall|k: int|
                0 <= k < cands@.len() ==> legal_next(
                    #[trigger] cands@[k],
                    task.board,
                    task.inverse_placed,
                    task.piece_set,
                    height,
                ),
            i <= cands@.len(),
            height <= MAX_HEIGHT,
            path@ == task.placements@,
            all_wf(path@),
            views(below@) == children_under(geometry@, rule, task@, height, i as nat),
        decreases cands@.len() - i,
    {
        let c: Candidate = cands[i];
        path.push(c.placement);
        if !has_cyclic_dependency(rule, c.inverse_placed, path.as_slice(), height) {
            let next = SearchTask {
                placements: slice_to_vec(path.as_slice()),
                board: c.board,
                inverse_placed: c.inverse_placed,
                piece_set: c.piece_set,
            };
            let ghost before = views(below@);
            below.push(next);
            assert(views(below@) =~= before.push(child(task@, c)));
        }
        path.pop();
        assert(path@ =~= task.placements@);
        i += 1;
    }
    below
}

/// What one worker does with a task at level `recursions` of the search.
///
/// While `recursions` is less than `bound`, the task is spread into tasks
/// for the states of the next level; a task whose board is full is passed on
/// as it is. Once `recursions` has reached `bound`, the state of the task is
/// searched, and the tilings found are returned.
pub fn find_combos_mt<P: Placeability>(
    geometry: &Geometry,
    rule: &P,
    task: &SearchTask,
    height: usize,
    recursions: usize,
    bound: usize,
) -> (r: Expansion)
    requires
        height == geometry.spec_height(),
        all_wf(task.placements@),
    ensures
        expands(geometry@, rule, task@, height, recursions, bound, r),
{
    let full = BitBoard::filled(geometry.height());
    if recursions >= bound {
        if task.board == full {
            let mut combos: Vec<Vec<Placement>> = Vec::new();
            combos.push(slice_to_vec(task.placements.as_slice()));
            assert(combos_view(combos@) =~= seq![task.placements@]);
            Expansion::Solved(combos)
        } else {
            let mut path = slice_to_vec(task.placements.as_slice());
            let mut collector = Collector::new();
            let status = find_combos_st(
                geometry,
                rule,
                &mut path,
                task.board,
                task.inverse_placed,
                task.piece_set,
                height,
                &mut collector,
            );
            let ghost held = collector@;
            let ghost found = tilings_from(
                geometry@,
                rule,
                task.placements@,
                task.board,
                task.inverse_placed,
                task.piece_set,
                height,
            );
            proof {
                collector.lemma_history();
                let n = collector.history().len() as int;
                if status == SearchStatus::Abort {
                    assert(collector.history()[n - 1].1 == SearchStatus::Continue);
                }
                assert forall|j: int| 0 <= j < n implies held[j] == found[j] by {
                    assert(collector.history()[j].0 == held[j]);
                }
                assert(held =~= found);
            }
            let combos = collector.into_combos();
            assert(combos_view(combos@) =~= held);
            Expansion::Solved(combos)
        }
    } else {
        if task.board == full {
            let mut tasks: Vec<SearchTask> = Vec::new();
            tasks.push(copy_task(task));
            assert(views(tasks@) =~= seq![task@]);
            Expansion::Spread(tasks)
        } else {
            Expansion::Spread(child_tasks(geometry, rule, task, height))
        }
    }
}

/// Runs [`find_combos_mt`] on every task of a level, on the threads of
/// rayon's pool.
///
/// The body is rayon's `par_iter()` on the vector, `map` with a closure that
/// calls `find_combos_mt`, and `collect` into a vector. Verus does not read
/// it. The contract rests on what rayon documents of these three: `map`
/// applies the closure to every item, and `collect` of an indexed iterator
/// into a `Vec` keeps the order of the items. So the result has one
/// expansion for each task, at the position of the task, and each is what
/// the verified `find_combos_mt` ensures of its result.
#[verifier::external_body]
fn expand_level<P: Placeability + Sync>(
    geometry: &Geometry,
    rule: &P,
    tasks: &Vec<SearchTask>,
    height: usize,
    recursions: usize,
    bound: usize,
) -> (r: Vec<Expansion>)
    requires
        height == geometry.spec_height(),
        tasks_wf(views(tasks@)),
    ensures
        each_expands(geometry@, rule, views(tasks@), height, recursions, bound, r@),
{
    tasks.par_iter().map(|task| find_combos_mt(geometry, rule, task, height, recursions, bound)).collect()
}

/// Whether some task still has cells to fill.
fn has_open(tasks: &Vec<SearchTask>, full: BitBoard) -> (r: bool)
    ensures
        r == exists|i: int| 0 <= i < tasks@.len() && (#[trigger] tasks@[i]).board != full,
{
    let mut i: usize = 0;
    while i < tasks.len()
        invariant
            i <= tasks@.len(),
            forall|k: int| 0 <= k < i ==> (#[trigger] tasks@[k]).board == full,
        decreases tasks@.len() - i,
    {
        if tasks[i].board != full {
            return true;
        }
        i += 1;
    }
    false
}

/// The tasks of a spread level, in order.
fn next_level(expansions: &Vec<Expansion>) -> (r: Vec<SearchTask>)
    ensures
        views(r@) == spread_tasks(expansions@),
{
    let mut tasks: Vec<SearchTask> = Vec::new();
    assert(views(tasks@) =~= Seq::<TaskState>::empty());
    let mut i: usize = 0;
    while i < expansions.len()
        invariant
            i <= expansions@.len(),
            views(tasks@) == spread_tasks(expansions@.take(i as int)),
        decreases expansions@.len() - i,
    {
        let ghost earlier = views(tasks@);
        assert(expansions@.take(i + 1).drop_last() =~= expansions@.take(i as int));
        match &expansions[i] {
            Expansion::Spread(below) => {
                let mut k: usize = 0;
                assert(earlier + views(below@).take(0) =~= earlier);
                while k < below.len()
                    invariant
                        k <= below@.len(),
                        views(tasks@) == earlier + views(below@).take(k as int),
                    decreases below@.len() - k,
                {
                    let ghost before = views(tasks@);
                    tasks.push(copy_task(&below[k]));
                    assert(views(tasks@) =~= before.push(below@[k as int]@));
                    assert(views(below@).take(k + 1) =~= views(below@).take(k as int).push(
                        below@[k as int]@,
                    ));
                    k += 1;
                }
                assert(views(below@).take(below@.len() as int) =~= views(below@));
            },
            Expansion::Solved(_) => {
                assert(earlier + Seq::<TaskState>::empty() =~= earlier);
            },
        }
        i += 1;
    }
    assert(expansions@.take(expansions@.len() as int) =~= expansions@);
    tasks
}

/// Hands the tilings of `combos` to the consumer, in order, until it answers
/// `Abort`.
fn hand_over<C: ComboConsumer>(combos: &Vec<Vec<Placement>>, consumer: &mut C) -> (status:
    SearchStatus)
    requires
        old(consumer).ready(),
    ensures
        final(consumer).ready(),
        reported(
            old(consumer).history(),
            final(consumer).history(),
            combos_view(combos@),
            status,
        ),
{
    let ghost before = consumer.history();
    let ghost all = combos_view(combos@);
    proof {
        lemma_reported_nothing(before);
        assert(all.take(0) =~= Seq::<Seq<Placement>>::empty());
    }
    let mut i: usize = 0;
    while i < combos.len()
        invariant
            i <= combos@.len(),
            before == old(consumer).history(),
            all == combos_view(combos@),
            consumer.ready(),
            reported(before, consumer.history(), all.take(i as int), SearchStatus::Continue),
        decreases combos@.len() - i,
    {
        let ghost between = consumer.history();
        let answer = consumer.accept(combos[i].as_slice());
        proof {
            lemma_reported_one(between, combos@[i as int]@, answer);
            lemma_reported_then(
                before,
                between,
                consumer.history(),
                all.take(i as int),
                seq![combos@[i as int]@],
                answer,
            );
            assert(all.take(i + 1) =~= all.take(i as int) + seq![combos@[i as int]@]);
        }
        i += 1;
        if answer == SearchStatus::Abort {
            proof {
                lemma_reported_abort(
                    before,
                    consumer.history(),
                    all.take(i as int),
                    all.skip(i as int),
                );
                assert(all.take(i as int) + all.skip(i as int) =~= all);
            }
            return SearchStatus::Abort;
        }
    }
    proof {
        assert(all.take(combos@.len() as int) =~= all);
    }
    SearchStatus::Continue
}

/// Hands the tilings of a solved level to the consumer, in order, until it
/// answers `Abort`.
fn hand_over_level<C: ComboConsumer>(expansions: &Vec<Expansion>, consumer: &mut C) -> (status:
    SearchStatus)
    requires
        old(consumer).ready(),
        all_solved(expansions@),
    ensures
        final(consumer).ready(),
        reported(
            old(consumer).history(),
            final(consumer).history(),
            solved_tilings(expansions@),
            status,
        ),
{
    let ghost before = consumer.history();
    proof {
        lemma_reported_nothing(before);
    }
    let mut i: usize = 0;
    while i < expansions.len()
        invariant
            i <= expansions@.len(),
            all_solved(expansions@),
            before == old(consumer).history(),
            consumer.ready(),
            reported(
                before,
                consumer.history(),
                solved_tilings(expansions@.take(i as int)),
                SearchStatus::Continue,
            ),
        decreases expansions@.len() - i,
    {
        let ghost between = consumer.history();
        let ghost earlier = solved_tilings(expansions@.take(i as int));
        proof {
            assert(expansions@.take(i + 1).drop_last() =~= expansions@.take(i as int));
        }
        let status = match &expansions[i] {
            Expansion::Solved(combos) => hand_over(combos, consumer),
            Expansion::Spread(_) => SearchStatus::Continue,
        };
        i += 1;
        proof {
            let here = solved_tilings(expansions@.take(i as int)).skip(earlier.len() as int);
            assert(solved_tilings(expansions@.take(i as int)) =~= earlier + here);
            lemma_reported_then(before, between, consumer.history(), earlier, here, status);
        }
        if status == SearchStatus::Abort {
            proof {
                let rest = lemma_solved_tilings_grow(expansions@, i as int);
                lemma_reported_abort(
                    before,
                    consumer.history(),
                    solved_tilings(expansions@.take(i as int)),
                    rest,
                );
            }
            return SearchStatus::Abort;
        }
    }
    proof {
        assert(expansions@.take(expansions@.len() as int) =~= expansions@);
    }
    SearchStatus::Continue
}

/// Like [`find_combinations_mt`], with the number of levels that are spread
/// over tasks given as `bound`. With a bound of 0 the whole search is one
/// task.
pub fn find_combinations_spread<P: Placeability + Sync, C: ComboConsumer>(
    geometry: &Geometry,
    rule: &P,
    piece_set: PieceSet,
    board: BitBoard,
    height: usize,
    bound: usize,
    consumer: &mut C,
) -> (r: Result<SearchStatus, ConfigError>)
    requires
        old(consumer).ready(),
    ensures
        final(consumer).ready(),
        r is Err <==> refusal(geometry, board, height) is Some,
        r matches Err(e) ==> refusal(geometry, board, height) == Some(e),
        r is Err ==> final(consumer).history() == old(consumer).history(),
        r matches Ok(status) ==> reported(
            old(consumer).history(),
            final(consumer).history(),
            tilings(geometry@, rule, piece_set, board, height),
            status,
        ),
{
    if height != geometry.height() {
        return Err(ConfigError::HeightMismatch);
    }
    let full = BitBoard::filled(height);
    if board.remove(full).0 != 0 {
        return Err(ConfigError::BoardOutOfField);
    }
    let root = SearchTask { placements: Vec::new(), board, inverse_placed: full, piece_set };
    let mut level: Vec<SearchTask> = Vec::new();
    level.push(root);
    proof {
        assert(level@[0].placements@ =~= Seq::<Placement>::empty());
        lemma_all_tilings_one(geometry@, rule, views(level@), height);
    }
    let mut recursions: usize = 0;
    while recursions < bound && has_open(&level, full)
        invariant
            height == geometry.spec_height(),
            recursions <= bound,
            tasks_wf(views(level@)),
            all_tilings(geometry@, rule, views(level@), height) == tilings(
                geometry@,
                rule,
                piece_set,
                board,
                height,
            ),
        decreases bound - recursions,
    {
        let expansions = expand_level(geometry, rule, &level, height, recursions, bound);
        proof {
            lemma_level_keeps_tilings(
                geometry@,
                rule,
                views(level@),
                height,
                recursions,
                bound,
                expansions@,
            );
        }
        level = next_level(&expansions);
        recursions += 1;
    }
    let expansions = expand_level(geometry, rule, &level, height, bound, bound);
    proof {
        lemma_level_keeps_tilings(
            geometry@,
            rule,
            views(level@),
            height,
            bound,
            bound,
            expansions@,
        );
    }
    Ok(hand_over_level(&expansions, consumer))
}

/// Finds what [`find_combinations`](crate::combination::find_combinations)
/// finds, with the first three levels of the search spread over worker
/// threads.
///
/// The workers keep the tilings they find. When all are done, the tilings
/// are handed to `consumer` by the calling thread, in the order of the
/// sequential search, until the consumer answers `Abort`.
pub fn find_combinations_mt<P: Placeability + Sync, C: ComboConsumer>(
    geometry: &Geometry,
    rule: &P,
    piece_set: PieceSet,
    board: BitBoard,
    height: usize,
    consumer: &mut C,
) -> (r: Result<SearchStatus, ConfigError>)
    requires
        old(consumer).ready(),
    ensures
        final(consumer).ready(),
        r is Err <==> refusal(geometry, board, height) is Some,
        r matches Err(e) ==> refusal(geometry, board, height) == Some(e),
        r is Err ==> final(consumer).history() == old(consumer).history(),
        r matches Ok(status) ==> reported(
            old(consumer).history(),
            final(consumer).history(),
            tilings(geometry@, rule, piece_set, board, height),
            status,
        ),
{
    find_combinations_spread(geometry, rule, piece_set, board, height, FANOUT_DEPTH, consumer)
}

} // verus!
