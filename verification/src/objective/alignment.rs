//! The alignment objective: agreement with a reference sequence, slot by slot.

use vstd::prelude::*;
use crate::objective::{identifiers, in_units, owned_identifiers, Loss, Objective};

verus! {

/// What one slot that agrees with the reference takes off the loss.
pub const ALIGNMENT_REWARD: i128 = 10;

/// Whether slot `i` holds the identifier that `reference` names for it: 1 if so, else 0.
pub open spec fn agrees(reference: Seq<Seq<char>>, ids: Seq<Seq<char>>, i: int) -> int {
    if reference[i] == ids[i] {
        1
    } else {
        0
    }
}

/// How many of the first `n` slots hold the identifier that `reference` names for them.
pub open spec fn matches_upto(reference: Seq<Seq<char>>, ids: Seq<Seq<char>>, n: int) -> int
    decreases n,
{
    if n <= 0 {
        0
    } else {
        matches_upto(reference, ids, n - 1) + agrees(reference, ids, n - 1)
    }
}

/// The alignment loss: `ALIGNMENT_REWARD` off for every slot that agrees with `reference`.
pub open spec fn alignment_loss(reference: Seq<Seq<char>>, ids: Seq<Seq<char>>) -> int {
    -in_units(ALIGNMENT_REWARD * matches_upto(reference, ids, ids.len() as int))
}

/// Those of the first `n` slots that hold the identifier that `reference`
/// names for them.
pub open spec fn agreeing_slots(
    reference: Seq<Seq<char>>,
    ids: Seq<Seq<char>>,
    n: int,
) -> Set<int> {
    Set::new(|i: int| 0 <= i < n && reference[i] == ids[i])
}

/// The number of agreeing slots is the size of the set of agreeing slots.
pub proof fn lemma_matches_count(reference: Seq<Seq<char>>, ids: Seq<Seq<char>>, n: int)
    requires
        0 <= n,
    ensures
        agreeing_slots(reference, ids, n).finite(),
        agreeing_slots(reference, ids, n).len() == matches_upto(reference, ids, n),
    decreases n,
{
    if n == 0 {
        assert(agreeing_slots(reference, ids, n) =~= Set::<int>::empty());
    } else {
        lemma_matches_count(reference, ids, n - 1);
        let fewer = agreeing_slots(reference, ids, n - 1);
        if reference[n - 1] == ids[n - 1] {
            assert(agreeing_slots(reference, ids, n) =~= fewer.insert(n - 1));
        } else {
            assert(agreeing_slots(reference, ids, n) =~= fewer);
        }
    }
}

/// Putting `id` into slot `i` changes the number of agreeing slots by what
/// slot `i` alone gains or loses.
pub proof fn lemma_matches_update(
    reference: Seq<Seq<char>>,
    ids: Seq<Seq<char>>,
    i: int,
    id: Seq<char>,
    n: int,
)
    requires
        0 <= i < ids.len(),
        0 <= n <= ids.len(),
    ensures
        matches_upto(reference, ids.update(i, id), n) == matches_upto(reference, ids, n)
            + if i < n {
            agrees(reference, ids.update(i, id), i) - agrees(reference, ids, i)
        } else {
            0
        },
    decreases n,
{
    if n > 0 {
        lemma_matches_update(reference, ids, i, id, n - 1);
    }
}

/// Every slot that comes to agree with the reference takes exactly
/// `ALIGNMENT_REWARD` off the loss, whatever the other slots hold.
pub proof fn lemma_alignment_reward(reference: Seq<Seq<char>>, ids: Seq<Seq<char>>, i: int)
    requires
        0 <= i < ids.len(),
        ids[i] != reference[i],
    ensures
        alignment_loss(reference, ids.update(i, reference[i])) == alignment_loss(reference, ids)
            - in_units(ALIGNMENT_REWARD as int),
{
    lemma_matches_update(reference, ids, i, reference[i], ids.len() as int);
}

/// Of two assignments, the one that agrees with the reference wherever the
/// other does has at least as many agreeing slots among the first `n`.
pub proof fn lemma_matches_monotone(
    reference: Seq<Seq<char>>,
    fewer: Seq<Seq<char>>,
    more: Seq<Seq<char>>,
    n: int,
)
    requires
        0 <= n <= fewer.len(),
        fewer.len() == more.len(),
        forall|i: int| 0 <= i < n && fewer[i] == reference[i] ==> more[i] == reference[i],
    ensures
        matches_upto(reference, fewer, n) <= matches_upto(reference, more, n),
    decreases n,
{
    if n > 0 {
        lemma_matches_monotone(reference, fewer, more, n - 1);
    }
}

/// The loss does not rise as more slots are made to agree with the
/// reference: an assignment that agrees wherever another does has no
/// greater loss.
pub proof fn lemma_alignment_monotone(
    reference: Seq<Seq<char>>,
    fewer: Seq<Seq<char>>,
    more: Seq<Seq<char>>,
)
    requires
        fewer.len() == more.len(),
        forall|i: int| 0 <= i < fewer.len() && fewer[i] == reference[i] ==> more[i] == reference[i],
    ensures
        alignment_loss(reference, more) <= alignment_loss(reference, fewer),
{
    lemma_matches_monotone(reference, fewer, more, fewer.len() as int);
}

/// Rewards every slot that holds the identifier a reference sequence names for it.
pub struct GeneralAlignmentObjective {
    generals: Vec<String>,
}

impl GeneralAlignmentObjective {
    /// The reference sequence.
    pub closed spec fn reference(&self) -> Seq<Seq<char>> {
        owned_identifiers(self.generals@)
    }

    /// The objective that rewards agreement with `generals`, slot by slot.
    pub fn new(generals: Vec<String>) -> (r: Self)
        ensures
            r.reference() == owned_identifiers(generals@),
    {
        Self { generals }
    }
}

impl Objective for GeneralAlignmentObjective {
    open spec fn admits(&self, slots: nat) -> bool {
        self.reference().len() == slots
    }

    open spec fn loss_of(&self, ids: Seq<Seq<char>>) -> int {
        alignment_loss(self.reference(), ids)
    }

    open spec fn bound(&self, slots: nat) -> nat {
        in_units(ALIGNMENT_REWARD * slots) as nat
    }

    fn loss(&self, solution: &[&str]) -> (r: Loss) {
        let ghost ids = identifiers(solution@);
        let mut matching: usize = 0;
        let mut i: usize = 0;
        while i < solution.len()
            invariant
                i <= solution@.len(),
                self.reference().len() == solution@.len(),
                ids == identifiers(solution@),
                matching <= i,
                matching == matches_upto(self.reference(), ids, i as int),
            decreases solution@.len() - i,
        {
            let held: String = solution[i].to_owned();
            if self.generals[i] == held {
                matching = matching + 1;
            }
            i = i + 1;
        }
        Loss::times(-ALIGNMENT_REWARD, matching)
    }
}

} // verus!
