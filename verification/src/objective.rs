//! Scoring of assignments.
//!
//! An assignment is modelled as the sequence of its identifiers, each a
//! `Seq<char>`. A loss is a fixed-point number of 128 binary places, so
//! every loss is finite and sums of losses are exact.

use vstd::prelude::*;

pub mod alignment;
pub mod exclusion;
pub mod spacing;

verus! {

/// How many units make a loss of one: two to the power of 128.
pub open spec fn loss_unit() -> int {
    0x1_0000_0000_0000_0000_0000_0000_0000_0000int
}

/// A whole number of losses, in units.
pub open spec fn in_units(whole: int) -> int {
    whole * 0x1_0000_0000_0000_0000_0000_0000_0000_0000int
}

/// The greatest magnitude that sums of losses are kept within, in units.
pub open spec fn loss_limit() -> int {
    in_units(i128::MAX as int)
}

/// Whether a `Loss` can hold this number of units.
pub open spec fn fits_loss(units: int) -> bool {
    in_units(i128::MIN as int) <= units < in_units(i128::MAX as int) + loss_unit()
}

/// The loss `whole + fraction / 2^128`. Lower is better.
#[derive(Clone, Copy, Debug, PartialEq, Eq, PartialOrd, Ord, Structural)]
pub struct Loss {
    pub whole: i128,
    pub fraction: u128,
}

impl Loss {
    /// The loss as a number of units.
    pub open spec fn units(self) -> int {
        in_units(self.whole as int) + self.fraction
    }

    /// The loss of `count` times the whole number `each`.
    pub fn times(each: i128, count: usize) -> (r: Loss)
        requires
            i128::MIN <= each * count <= i128::MAX,
        ensures
            r.units() == in_units(each * count),
    {
        Loss { whole: each * (count as i128), fraction: 0 }
    }

    /// The sum of two losses.
    pub fn plus(self, other: Loss) -> (r: Loss)
        requires
            fits_loss(self.units() + other.units()),
        ensures
            r.units() == self.units() + other.units(),
    {
        let room = u128::MAX - other.fraction;
        if self.fraction > room {
            let whole = if self.whole < 0 {
                (self.whole + 1) + other.whole
            } else {
                self.whole + (other.whole + 1)
            };
            Loss { whole, fraction: self.fraction - room - 1 }
        } else {
            Loss { whole: self.whole + other.whole, fraction: self.fraction + other.fraction }
        }
    }

    /// Whether this loss is no worse than `other`.
    pub fn no_worse_than(self, other: Loss) -> (r: bool)
        ensures
            r == (self.units() <= other.units()),
    {
        self.whole < other.whole || (self.whole == other.whole && self.fraction <= other.fraction)
    }
}

/// The identifiers of an assignment, slot by slot.
pub open spec fn identifiers(solution: Seq<&str>) -> Seq<Seq<char>> {
    solution.map_values(|s: &str| s@)
}

/// The identifiers that a vector of owned strings holds.
pub open spec fn owned_identifiers(names: Seq<String>) -> Seq<Seq<char>> {
    names.map_values(|s: String| s@)
}

/// A scoring rule: a loss for every assignment it admits.
pub trait Objective {
    /// Whether assignments of `slots` slots can be scored.
    spec fn admits(&self, slots: nat) -> bool;

    /// The loss of the assignment with identifiers `ids`, in units.
    spec fn loss_of(&self, ids: Seq<Seq<char>>) -> int;

    /// A magnitude that no loss of an assignment of `slots` slots exceeds.
    spec fn bound(&self, slots: nat) -> nat;

    /// Scores an assignment.
    fn loss(&self, solution: &[&str]) -> (r: Loss)
        requires
            self.admits(solution@.len()),
        ensures
            r.units() == self.loss_of(identifiers(solution@)),
            -self.bound(solution@.len()) <= r.units() <= self.bound(solution@.len()),
    ;
}

/// The sum of two objectives, itself an objective.
pub struct PairObjective<A: Objective, B: Objective> {
    pub first: A,
    pub second: B,
}

impl<A: Objective, B: Objective> Objective for PairObjective<A, B> {
    /// Both admit the assignment, and their bounds, summed, fit a `Loss`.
    open spec fn admits(&self, slots: nat) -> bool {
        &&& self.first.admits(slots)
        &&& self.second.admits(slots)
        &&& self.first.bound(slots) + self.second.bound(slots) <= loss_limit()
    }

    open spec fn loss_of(&self, ids: Seq<Seq<char>>) -> int {
        self.first.loss_of(ids) + self.second.loss_of(ids)
    }

    open spec fn bound(&self, slots: nat) -> nat {
        self.first.bound(slots) + self.second.bound(slots)
    }

    fn loss(&self, solution: &[&str]) -> (r: Loss) {
        self.first.loss(solution).plus(self.second.loss(solution))
    }
}

/// The sum of two objectives does not depend on which of them stands first.
pub proof fn lemma_pair_any_order<A: Objective, B: Objective>(
    pair: PairObjective<A, B>,
    turned: PairObjective<B, A>,
    ids: Seq<Seq<char>>,
)
    requires
        turned.first == pair.second,
        turned.second == pair.first,
    ensures
        turned.loss_of(ids) == pair.loss_of(ids),
{
}

/// The loss that an objective gives, as a function of the identifiers.
pub open spec fn score_of<O: Objective>(objective: &O) -> spec_fn(Seq<Seq<char>>) -> int {
    |ids: Seq<Seq<char>>| objective.loss_of(ids)
}

/// The values of a sequence, summed.
pub open spec fn sum_of(values: Seq<int>) -> int
    decreases values.len(),
{
    if values.len() == 0 {
        0
    } else {
        sum_of(values.drop_last()) + values.last()
    }
}

/// The loss that each of `children` gives the assignment `ids`, child by child.
pub open spec fn child_losses(children: Seq<Box<dyn Objective>>, ids: Seq<Seq<char>>) -> Seq<int> {
    Seq::new(children.len(), |k: int| children[k].loss_of(ids))
}

/// The losses that `children` give the assignment `ids`, summed.
pub open spec fn total_loss(children: Seq<Box<dyn Objective>>, ids: Seq<Seq<char>>) -> int {
    sum_of(child_losses(children, ids))
}

/// The bounds of `children` on assignments of `slots` slots, summed.
pub open spec fn total_bound(children: Seq<Box<dyn Objective>>, slots: nat) -> nat
    decreases children.len(),
{
    if children.len() == 0 {
        0
    } else {
        total_bound(children.drop_last(), slots) + children.last().bound(slots)
    }
}

/// Whether every one of `children` can score assignments of `slots` slots.
pub open spec fn all_admit(children: Seq<Box<dyn Objective>>, slots: nat) -> bool {
    forall|k: int| 0 <= k < children.len() ==> (#[trigger] children[k]).admits(slots)
}

/// The bounds of a prefix of `children` sum to no more than those of all.
pub proof fn lemma_total_bound_prefix(children: Seq<Box<dyn Objective>>, slots: nat, k: int)
    requires
        0 <= k <= children.len(),
    ensures
        total_bound(children.take(k), slots) <= total_bound(children, slots),
    decreases children.len(),
{
    if k == children.len() {
        assert(children.take(k) =~= children);
    } else {
        assert(children.drop_last().take(k) =~= children.take(k));
        lemma_total_bound_prefix(children.drop_last(), slots, k);
    }
}

/// A sum is the sum without the value at `j`, and that value.
pub proof fn lemma_sum_remove(values: Seq<int>, j: int)
    requires
        0 <= j < values.len(),
    ensures
        sum_of(values) == sum_of(values.remove(j)) + values[j],
    decreases values.len(),
{
    if j < values.len() - 1 {
        lemma_sum_remove(values.drop_last(), j);
        assert(values.remove(j).drop_last() =~= values.drop_last().remove(j));
    }
}

/// Whether `order` lists each of the places below `len` once.
pub open spec fn is_reordering(order: Seq<int>, len: nat) -> bool {
    &&& order.len() == len
    &&& forall|k: int| 0 <= k < order.len() ==> 0 <= #[trigger] order[k] < len
    &&& forall|j: int, k: int|
        0 <= j < k < order.len() ==> #[trigger] order[j] != #[trigger] order[k]
}

/// A sum does not depend on the order of its values.
pub proof fn lemma_sum_any_order(values: Seq<int>, reordered: Seq<int>, order: Seq<int>)
    requires
        is_reordering(order, values.len()),
        reordered.len() == values.len(),
        forall|k: int| 0 <= k < reordered.len() ==> reordered[k] == values[order[k]],
    ensures
        sum_of(reordered) == sum_of(values),
    decreases values.len(),
{
    if values.len() > 0 {
        let last = values.len() - 1;
        let taken = order[last];
        let fewer = values.remove(taken);
        let shorter = reordered.drop_last();
        let closed = Seq::new(
            last as nat,
            |k: int|
                if order[k] > taken {
                    order[k] - 1
                } else {
                    order[k]
                },
        );
        lemma_sum_any_order(fewer, shorter, closed);
        lemma_sum_remove(values, taken);
    }
}

/// The loss of a composite is the sum of the losses of its children, and
/// that sum does not depend on the order in which they were registered: a
/// collection that holds the same children in another order sums to the same.
pub proof fn lemma_total_loss_any_order(
    children: Seq<Box<dyn Objective>>,
    reordered: Seq<Box<dyn Objective>>,
    order: Seq<int>,
    ids: Seq<Seq<char>>,
)
    requires
        is_reordering(order, children.len()),
        reordered.len() == children.len(),
        forall|k: int| 0 <= k < reordered.len() ==> reordered[k] == children[order[k]],
    ensures
        total_loss(reordered, ids) == total_loss(children, ids),
{
    lemma_sum_any_order(child_losses(children, ids), child_losses(reordered, ids), order);
}

/// The sum of an ordered collection of objectives, itself an objective.
pub struct VectorObjective(pub Vec<Box<dyn Objective>>);

impl Objective for VectorObjective {
    /// Every child admits the assignment, and the bounds of the children,
    /// summed, fit a `Loss`.
    open spec fn admits(&self, slots: nat) -> bool {
        &&& all_admit(self.0@, slots)
        &&& total_bound(self.0@, slots) <= loss_limit()
    }

    open spec fn loss_of(&self, ids: Seq<Seq<char>>) -> int {
        total_loss(self.0@, ids)
    }

    open spec fn bound(&self, slots: nat) -> nat {
        total_bound(self.0@, slots)
    }

    fn loss(&self, solution: &[&str]) -> (r: Loss) {
        let ghost ids = identifiers(solution@);
        let ghost slots = solution@.len();
        let mut result = Loss { whole: 0, fraction: 0 };
        let mut k: usize = 0;
        while k < self.0.len()
            invariant
                k <= self.0@.len(),
                ids == identifiers(solution@),
                slots == solution@.len(),
                all_admit(self.0@, slots),
                total_bound(self.0@, slots) <= loss_limit(),
                result.units() == total_loss(self.0@.take(k as int), ids),
                -total_bound(self.0@.take(k as int), slots) <= result.units() <= total_bound(
                    self.0@.take(k as int),
                    slots,
                ),
            decreases self.0@.len() - k,
        {
            proof {
                assert(self.0@.take(k as int + 1).drop_last() =~= self.0@.take(k as int));
                assert(child_losses(self.0@.take(k as int + 1), ids).drop_last() =~= child_losses(
                    self.0@.take(k as int),
                    ids,
                ));
                lemma_total_bound_prefix(self.0@, slots, k as int + 1);
            }
            let part = self.0[k].loss(solution);
            result = result.plus(part);
            k = k + 1;
        }
        proof {
            assert(self.0@.take(k as int) =~= self.0@);
        }
        result
    }
}

} // verus!
