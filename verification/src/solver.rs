//! The search: pairwise exchanges of swappable slots, kept or undone.
//!
//! Every step draws two different swappable slots, exchanges them and scores
//! the result. A result that is no worse than the last one kept is kept. For
//! a worse one the acceptance rule names a chance and a dice is thrown: the
//! result is kept where the dice does not exceed the chance, and undone
//! otherwise.

use vstd::prelude::*;
use crate::objective::{identifiers, owned_identifiers, score_of, Objective};
use crate::schedule::Schedule;
use crate::solver::acceptance::{lucky, worsening, Acceptance, Throw};
use crate::solver::random::{draw_dice, select_swap};
use crate::solver::state::{
    drawn_fairly, lemma_run_rearranges, lemma_step_in_two, rearranges, run, searched, Draw,
    SearchState,
};

pub mod acceptance;
pub mod random;
pub mod state;

verus! {

/// Whether `swappable` lists at least two slots of an assignment of `slots`
/// slots, and none of them twice.
pub open spec fn swappable_ok(swappable: Seq<usize>, slots: nat) -> bool {
    &&& swappable.len() >= 2
    &&& forall|k: int| 0 <= k < swappable.len() ==> #[trigger] swappable[k] < slots
    &&& swappable.no_duplicates()
}

/// A search that rearranges the swappable slots of an assignment.
pub trait Solver {
    /// Whether the solver can be run.
    spec fn ready(&self) -> bool;

    /// Rearranges the swappable slots of `initial`, in search of a low loss.
    fn solve<'a, O: Objective>(
        &mut self,
        objective: &O,
        initial: &'a [String],
        swappable: &[usize],
    ) -> (r: Vec<&'a str>)
        requires
            old(self).ready(),
            objective.admits(initial@.len()),
            swappable_ok(swappable@, initial@.len()),
        ensures
            final(self).ready(),
            rearranges(owned_identifiers(initial@), swappable@, identifiers(r@)),
    ;
}

/// Whether `result` is what a search from `initial` reaches that makes one
/// step for every temperature of a schedule that `scheduler` can hand out,
/// each with two different swappable slots.
pub open spec fn anneals<S: Schedule, F: Fn() -> S>(
    score: spec_fn(Seq<Seq<char>>) -> int,
    scheduler: F,
    initial: Seq<Seq<char>>,
    swappable: Seq<usize>,
    result: Seq<Seq<char>>,
) -> bool {
    exists|schedule: S| #[trigger]
        call_ensures(scheduler, (), schedule) && searched(
            score,
            initial,
            swappable,
            schedule.remaining(),
            result,
        )
}

/// Whether every schedule that `scheduler` can hand out is exhausted from the start.
pub open spec fn never_steps<S: Schedule, F: Fn() -> S>(scheduler: F) -> bool {
    forall|schedule: S| #[trigger]
        call_ensures(scheduler, (), schedule) ==> schedule.remaining() == 0
}

/// Simulated annealing over the temperatures of a schedule, with the
/// acceptance rule giving every regression its chance.
#[verifier::reject_recursive_types(S)]
pub struct AnnealingSolver<S: Schedule, F: Fn() -> S, A: Acceptance> {
    scheduler: F,
    acceptance: A,
}

impl<S: Schedule, F: Fn() -> S, A: Acceptance> AnnealingSolver<S, F, A> {
    /// What makes the schedule of a run.
    pub closed spec fn scheduler(&self) -> F {
        self.scheduler
    }

    /// A solver that takes a fresh schedule from `scheduler` for every run.
    pub fn new(scheduler: F, acceptance: A) -> (r: Self)
        requires
            call_requires(scheduler, ()),
        ensures
            r.scheduler() == scheduler,
            r.ready(),
    {
        Self { scheduler, acceptance }
    }
}

impl<S: Schedule, F: Fn() -> S, A: Acceptance> Solver for AnnealingSolver<S, F, A> {
    open spec fn ready(&self) -> bool {
        call_requires(self.scheduler(), ())
    }

    fn solve<'a, O: Objective>(
        &mut self,
        objective: &O,
        initial: &'a [String],
        swappable: &[usize],
    ) -> (r: Vec<&'a str>)
        ensures
            final(self).scheduler() == old(self).scheduler(),
            anneals(
                score_of(objective),
                old(self).scheduler(),
                owned_identifiers(initial@),
                swappable@,
                identifiers(r@),
            ),
            never_steps(old(self).scheduler()) ==> identifiers(r@) == owned_identifiers(initial@),
    {
        let ghost start_ids = owned_identifiers(initial@);
        let mut state = SearchState::start(initial);
        let mut rng = rand::thread_rng();
        let mut schedule = (self.scheduler)();
        let ghost first = schedule;
        let ghost mut draws: Seq<Draw> = Seq::empty();
        loop
            invariant
                start_ids == owned_identifiers(initial@),
                self.scheduler() == old(self).scheduler(),
                call_ensures(self.scheduler(), (), first),
                objective.admits(initial@.len()),
                swappable_ok(swappable@, initial@.len()),
                state.solution@.len() == initial@.len(),
                draws.len() + schedule.remaining() == first.remaining(),
                drawn_fairly(draws, swappable@),
                (state.ids(), state.last()) == run(score_of(objective), start_ids, None, draws),
            ensures
                schedule.remaining() == 0,
            decreases schedule.remaining(),
        {
            let temperature = match schedule.next() {
                Some(temperature) => temperature,
                None => {
                    break ;
                },
            };
            let (a, b) = select_swap(&mut rng, swappable);
            let ghost before = state.ids();
            let ghost last = state.last();
            let loss = state.propose(objective, a, b);
            let throw = match worsening(state.last_loss, loss) {
                None => None,
                Some(regression) => {
                    let chance = self.acceptance.chance(regression, temperature);
                    Some(Throw { chance, dice: draw_dice(&mut rng) })
                },
            };
            state.conclude(a, b, loss, throw);
            proof {
                lemma_step_in_two(
                    score_of(objective),
                    before,
                    last,
                    Draw { a: a as int, b: b as int, lucky: lucky(throw) },
                );
                let longer = draws.push(Draw { a: a as int, b: b as int, lucky: lucky(throw) });
                assert(longer.drop_last() =~= draws);
                draws = longer;
            }
        }
        proof {
            lemma_run_rearranges(score_of(objective), start_ids, None, swappable@, draws);
        }
        state.solution
    }
}

} // verus!
