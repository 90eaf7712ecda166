//! The whole of a run: from the rows of a schedule to the rearranged rows.

use vstd::prelude::*;
use crate::intake::{
    exclusions_of, free_slots_upto, generals_of, ours_of, problem_of, with_solution,
};
use crate::objective::alignment::{alignment_loss, GeneralAlignmentObjective};
use crate::objective::exclusion::{exclusion_loss, ExclusionObjective};
use crate::objective::spacing::{spacing_loss, SpacingObjective};
use crate::objective::{identifiers, score_of, PairObjective};
use crate::record::{is_with_ours, Record};
use crate::schedule::{SawtoothAnnealingSchedule, Schedule, STEP_LIMIT};
use crate::solver::acceptance::Acceptance;
use crate::solver::state::{
    drawn_fairly, lemma_run_same_score, rearranges, run, searched, Draw,
};
use crate::solver::{AnnealingSolver, Solver};

verus! {

/// Why no search was run.
#[derive(Clone, Copy, Debug, PartialEq, Eq, Structural)]
pub enum Refusal {
    /// The ceiling of the temperature is zero.
    ColdStart,
    /// Fewer than two rows are free to be rearranged.
    TooFewFreeRows,
}

/// The identifiers that the rows forbid, row by row.
pub open spec fn forbidden_of(records: Seq<Record>) -> Seq<Set<Seq<char>>> {
    Seq::new(records.len(), |i: int| exclusions_of(records[i].exclude@).to_set())
}

/// The loss of the identifiers `ids` as ours on the rows `records`: what
/// their alignment with the reference column, the exclusions of the rows and
/// their spacing come to.
pub open spec fn row_loss(records: Seq<Record>, ids: Seq<Seq<char>>) -> int {
    alignment_loss(generals_of(records), ids) + exclusion_loss(forbidden_of(records), ids)
        + spacing_loss(ids)
}

/// Whether `rows` are `records` with the identifiers `ours` as ours, row by row.
pub open spec fn merged(rows: Seq<Record>, records: Seq<Record>, ours: Seq<Seq<char>>) -> bool {
    &&& rows.len() == records.len()
    &&& ours.len() == records.len()
    &&& forall|i: int| 0 <= i < rows.len() ==> is_with_ours(#[trigger] rows[i], records[i], ours[i])
}

/// The slots of `records` that a search may move.
pub open spec fn free_slots(records: Seq<Record>, start_index: usize) -> Seq<usize> {
    free_slots_upto(records, start_index as nat, records.len() as int)
}

/// Rearranges our column of `records` by simulated annealing over the
/// default sawtooth from `max_temp`, scoring alignment with the reference
/// column, the exclusions of each row and the spacing of our identifiers.
/// The first `start_index` rows and the pinned rows stay as they are.
pub fn reschedule<A: Acceptance>(
    records: &[Record],
    start_index: usize,
    max_temp: u64,
    acceptance: A,
) -> (r: Result<Vec<Record>, Refusal>)
    ensures
        r == Err::<Vec<Record>, Refusal>(Refusal::ColdStart) <==> max_temp == 0,
        r == Err::<Vec<Record>, Refusal>(Refusal::TooFewFreeRows) <==> max_temp > 0 && free_slots(
            records@,
            start_index,
        ).len() < 2,
        r matches Ok(rows) ==> merged(rows@, records@, ours_of(rows@)),
        r matches Ok(rows) ==> rearranges(
            ours_of(records@),
            free_slots(records@, start_index),
            ours_of(rows@),
        ),
        r matches Ok(rows) ==> searched(
            |ids: Seq<Seq<char>>| row_loss(records@, ids),
            ours_of(records@),
            free_slots(records@, start_index),
            STEP_LIMIT as nat,
            ours_of(rows@),
        ),
{
    if max_temp == 0 {
        return Err(Refusal::ColdStart);
    }
    let problem = problem_of(records, start_index);
    if problem.swappable.len() < 2 {
        return Err(Refusal::TooFewFreeRows);
    }
    let slots = records.len();
    proof {
        assert(ours_of(records@).len() == slots);
    }
    let alignment = GeneralAlignmentObjective::new(problem.generals);
    let exclusion = ExclusionObjective::new(problem.exclusions);
    assert(exclusion.forbidden() =~= forbidden_of(records@));
    let objective = PairObjective {
        first: PairObjective { first: alignment, second: exclusion },
        second: SpacingObjective::new(),
    };
    let scheduler = || -> (schedule: SawtoothAnnealingSchedule)
        ensures
            schedule.remaining() == STEP_LIMIT,
        {
            SawtoothAnnealingSchedule::new(max_temp)
        };
    let mut solver = AnnealingSolver::new(scheduler, acceptance);
    let solution = solver.solve(
        &objective,
        problem.initial.as_slice(),
        problem.swappable.as_slice(),
    );
    let rows = with_solution(records, solution.as_slice());
    proof {
        let score = |ids: Seq<Seq<char>>| row_loss(records@, ids);
        let free = free_slots(records@, start_index);
        assert(ours_of(rows@) =~= identifiers(solution@));
        let schedule = choose|schedule: SawtoothAnnealingSchedule| #[trigger]
            call_ensures(scheduler, (), schedule) && searched(
                score_of(&objective),
                ours_of(records@),
                free,
                schedule.remaining(),
                identifiers(solution@),
            );
        let draws = choose|draws: Seq<Draw>|
            draws.len() == schedule.remaining() && drawn_fairly(draws, free) && (#[trigger] run(
                score_of(&objective),
                ours_of(records@),
                None,
                draws,
            )).0 == identifiers(solution@);
        lemma_run_same_score(score_of(&objective), score, ours_of(records@), None, draws);
    }
    Ok(rows)
}

} // verus!
