//! The state of a search, and the steps that change it.

use vstd::prelude::*;
use crate::exchange::{exchange, lemma_exchange_keeps, lemma_exchange_twice};
use crate::objective::{identifiers, owned_identifiers, Loss, Objective};
use crate::solver::acceptance::{kept_units, keeps, lucky, settles, worsening, Throw};
use crate::solver::random::drawn_apart;

verus! {

/// Whether `result` holds what `initial` holds, each identifier as often, and
/// agrees with `initial` in every slot that `swappable` does not list.
pub open spec fn rearranges(
    initial: Seq<Seq<char>>,
    swappable: Seq<usize>,
    result: Seq<Seq<char>>,
) -> bool {
    &&& result.len() == initial.len()
    &&& result.to_multiset() == initial.to_multiset()
    &&& forall|i: int|
        0 <= i < initial.len() && !swappable.contains(i as usize) ==> #[trigger] result[i]
            == initial[i]
}

/// The identifiers of an exchanged assignment are the exchanged identifiers.
pub proof fn lemma_exchange_identifiers(solution: Seq<&str>, a: int, b: int)
    requires
        0 <= a < solution.len(),
        0 <= b < solution.len(),
    ensures
        identifiers(exchange(solution, a, b)) == exchange(identifiers(solution), a, b),
{
}

/// Exchanges the slots `a` and `b` of `solution`.
pub fn swap_slots<'a>(solution: &mut Vec<&'a str>, a: usize, b: usize)
    requires
        a < old(solution)@.len(),
        b < old(solution)@.len(),
    ensures
        final(solution)@ == exchange(old(solution)@, a as int, b as int),
{
    let first: &'a str = solution[a];
    let second: &'a str = solution[b];
    solution.set(a, second);
    solution.set(b, first);
}

/// What is left open in one step of a search: the two slots drawn, and
/// whether the dice keeps the result should it be a regression.
pub struct Draw {
    pub a: int,
    pub b: int,
    pub lucky: bool,
}

/// Whether every one of `draws` names two different slots, drawn apart from
/// `swappable`.
pub open spec fn drawn_fairly(draws: Seq<Draw>, swappable: Seq<usize>) -> bool {
    forall|k: int|
        0 <= k < draws.len() ==> (#[trigger] draws[k]).a != draws[k].b && drawn_apart(
            swappable,
            draws[k].a,
            draws[k].b,
        )
}

/// One step of a search, from the identifiers `ids` and the last loss kept:
/// the two slots drawn are exchanged and the result is scored. It is kept,
/// with its loss, where that loss settles it or the dice is lucky; else the
/// step changes nothing.
pub open spec fn step(
    score: spec_fn(Seq<Seq<char>>) -> int,
    ids: Seq<Seq<char>>,
    last: Option<int>,
    draw: Draw,
) -> (Seq<Seq<char>>, Option<int>) {
    let moved = exchange(ids, draw.a, draw.b);
    let loss = score(moved);
    if settles(last, loss) || draw.lucky {
        (moved, Some(loss))
    } else {
        (ids, last)
    }
}

/// The steps of a search, one for each of `draws`, made in order.
pub open spec fn run(
    score: spec_fn(Seq<Seq<char>>) -> int,
    ids: Seq<Seq<char>>,
    last: Option<int>,
    draws: Seq<Draw>,
) -> (Seq<Seq<char>>, Option<int>)
    decreases draws.len(),
{
    if draws.len() == 0 {
        (ids, last)
    } else {
        let (reached, kept) = run(score, ids, last, draws.drop_last());
        step(score, reached, kept, draws.last())
    }
}

/// A step is a proposal and its conclusion: the exchange is made and
/// scored, and then it stays with its loss or is undone.
pub proof fn lemma_step_in_two(
    score: spec_fn(Seq<Seq<char>>) -> int,
    ids: Seq<Seq<char>>,
    last: Option<int>,
    draw: Draw,
)
    requires
        0 <= draw.a < ids.len(),
        0 <= draw.b < ids.len(),
    ensures
        step(score, ids, last, draw) == if settles(last, score(exchange(ids, draw.a, draw.b)))
            || draw.lucky {
            (exchange(ids, draw.a, draw.b), Some(score(exchange(ids, draw.a, draw.b))))
        } else {
            (exchange(exchange(ids, draw.a, draw.b), draw.a, draw.b), last)
        },
{
    lemma_exchange_twice(ids, draw.a, draw.b);
}

/// Whether `result` is what a search from `initial` reaches in `steps`
/// steps, each with two different swappable slots.
pub open spec fn searched(
    score: spec_fn(Seq<Seq<char>>) -> int,
    initial: Seq<Seq<char>>,
    swappable: Seq<usize>,
    steps: nat,
    result: Seq<Seq<char>>,
) -> bool {
    exists|draws: Seq<Draw>|
        draws.len() == steps && drawn_fairly(draws, swappable) && (#[trigger] run(
            score,
            initial,
            None,
            draws,
        )).0 == result
}

/// Whatever is drawn, and however often: a search that starts from
/// `initial` reaches an assignment of the same length that holds every
/// identifier as often and agrees with `initial` in every slot that is not
/// swappable.
pub proof fn lemma_run_rearranges(
    score: spec_fn(Seq<Seq<char>>) -> int,
    initial: Seq<Seq<char>>,
    last: Option<int>,
    swappable: Seq<usize>,
    draws: Seq<Draw>,
)
    requires
        forall|k: int| 0 <= k < swappable.len() ==> #[trigger] swappable[k] < initial.len(),
        drawn_fairly(draws, swappable),
    ensures
        rearranges(initial, swappable, run(score, initial, last, draws).0),
    decreases draws.len(),
{
    if draws.len() > 0 {
        let earlier = draws.drop_last();
        lemma_run_rearranges(score, initial, last, swappable, earlier);
        let before = run(score, initial, last, earlier).0;
        let draw = draws.last();
        lemma_exchange_keeps(before, draw.a, draw.b);
    }
}

/// After every step, the last loss kept is the loss of the assignment reached.
pub proof fn lemma_run_keeps_loss(
    score: spec_fn(Seq<Seq<char>>) -> int,
    initial: Seq<Seq<char>>,
    draws: Seq<Draw>,
)
    ensures
        draws.len() == 0 ==> run(score, initial, None, draws) == (initial, None::<int>),
        draws.len() > 0 ==> run(score, initial, None, draws).1 == Some(
            score(run(score, initial, None, draws).0),
        ),
    decreases draws.len(),
{
    if draws.len() > 0 {
        lemma_run_keeps_loss(score, initial, draws.drop_last());
    }
}

/// A search depends on the objective by its losses alone: two that score
/// every assignment alike lead to the same state.
pub proof fn lemma_run_same_score(
    score: spec_fn(Seq<Seq<char>>) -> int,
    other: spec_fn(Seq<Seq<char>>) -> int,
    ids: Seq<Seq<char>>,
    last: Option<int>,
    draws: Seq<Draw>,
)
    requires
        forall|any: Seq<Seq<char>>| #[trigger] score(any) == other(any),
    ensures
        run(score, ids, last, draws) == run(other, ids, last, draws),
    decreases draws.len(),
{
    if draws.len() > 0 {
        lemma_run_same_score(score, other, ids, last, draws.drop_last());
    }
}

/// The state of a search: the working assignment, and the loss of the last
/// assignment that was kept.
pub struct SearchState<'a> {
    pub solution: Vec<&'a str>,
    pub last_loss: Option<Loss>,
}

impl<'a> SearchState<'a> {
    /// The identifiers of the working assignment.
    pub open spec fn ids(&self) -> Seq<Seq<char>> {
        identifiers(self.solution@)
    }

    /// The last loss kept, in units.
    pub open spec fn last(&self) -> Option<int> {
        kept_units(self.last_loss)
    }

    /// The state before the first step: the initial assignment, and no loss kept.
    pub fn start(initial: &'a [String]) -> (r: Self)
        ensures
            r.solution@.len() == initial@.len(),
            r.ids() == owned_identifiers(initial@),
            r.last_loss is None,
    {
        let mut solution: Vec<&'a str> = Vec::new();
        let mut i: usize = 0;
        while i < initial.len()
            invariant
                i <= initial@.len(),
                solution@.len() == i,
                forall|k: int| 0 <= k < i ==> (#[trigger] solution@[k])@ == initial@[k]@,
            decreases initial@.len() - i,
        {
            solution.push(initial[i].as_str());
            i = i + 1;
        }
        SearchState { solution, last_loss: None }
    }

    /// Exchanges the slots `a` and `b` for the time being, and scores the result.
    pub fn propose<O: Objective>(&mut self, objective: &O, a: usize, b: usize) -> (loss: Loss)
        requires
            a < old(self).solution@.len(),
            b < old(self).solution@.len(),
            objective.admits(old(self).solution@.len()),
        ensures
            final(self).solution@ == exchange(old(self).solution@, a as int, b as int),
            final(self).ids() == exchange(old(self).ids(), a as int, b as int),
            final(self).last_loss == old(self).last_loss,
            loss.units() == objective.loss_of(final(self).ids()),
    {
        proof {
            lemma_exchange_identifiers(self.solution@, a as int, b as int);
        }
        swap_slots(&mut self.solution, a, b);
        objective.loss(self.solution.as_slice())
    }

    /// Ends the step in which the slots `a` and `b` were exchanged and the
    /// result scored `loss`. The result stays, and `loss` becomes the last
    /// loss kept, where `loss` settles it or the throw is lucky; else the
    /// exchange is undone.
    pub fn conclude(&mut self, a: usize, b: usize, loss: Loss, throw: Option<Throw>) -> (kept: bool)
        requires
            a < old(self).solution@.len(),
            b < old(self).solution@.len(),
        ensures
            kept == (settles(old(self).last(), loss.units()) || lucky(throw)),
            kept ==> final(self).solution@ == old(self).solution@,
            kept ==> final(self).last_loss == Some(loss),
            !kept ==> final(self).solution@ == exchange(old(self).solution@, a as int, b as int),
            !kept ==> final(self).ids() == exchange(old(self).ids(), a as int, b as int),
            !kept ==> final(self).last_loss == old(self).last_loss,
    {
        let kept = worsening(self.last_loss, loss).is_none() || match throw {
            Some(thrown) => keeps(thrown.chance, thrown.dice),
            None => false,
        };
        if kept {
            self.last_loss = Some(loss);
        } else {
            proof {
                lemma_exchange_identifiers(self.solution@, a as int, b as int);
            }
            swap_slots(&mut self.solution, a, b);
        }
        kept
    }
}

} // verus!
