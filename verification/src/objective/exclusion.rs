//! The exclusion objective: identifiers that must not stand in a slot.

use vstd::prelude::*;
use crate::objective::{identifiers, in_units, owned_identifiers, Loss, Objective};

verus! {

/// What one slot that holds a forbidden identifier adds to the loss.
pub const EXCLUSION_PENALTY: i128 = 1000;

/// The identifiers that are forbidden in each slot.
pub open spec fn forbidden_sets(exclusions: Seq<Vec<String>>) -> Seq<Set<Seq<char>>> {
    Seq::new(exclusions.len(), |i: int| owned_identifiers(exclusions[i]@).to_set())
}

/// Whether slot `i` holds an identifier that is forbidden there: 1 if so, else 0.
pub open spec fn violates(forbidden: Seq<Set<Seq<char>>>, ids: Seq<Seq<char>>, i: int) -> int {
    if forbidden[i].contains(ids[i]) {
        1
    } else {
        0
    }
}

/// How many of the first `n` slots hold an identifier that is forbidden there.
pub open spec fn violations_upto(forbidden: Seq<Set<Seq<char>>>, ids: Seq<Seq<char>>, n: int) -> int
    decreases n,
{
    if n <= 0 {
        0
    } else {
        violations_upto(forbidden, ids, n - 1) + violates(forbidden, ids, n - 1)
    }
}

/// The exclusion loss: `EXCLUSION_PENALTY` for every slot that holds a forbidden identifier.
pub open spec fn exclusion_loss(forbidden: Seq<Set<Seq<char>>>, ids: Seq<Seq<char>>) -> int {
    in_units(EXCLUSION_PENALTY * violations_upto(forbidden, ids, ids.len() as int))
}

/// Those of the first `n` slots that hold an identifier that is forbidden there.
pub open spec fn violating_slots(
    forbidden: Seq<Set<Seq<char>>>,
    ids: Seq<Seq<char>>,
    n: int,
) -> Set<int> {
    Set::new(|i: int| 0 <= i < n && forbidden[i].contains(ids[i]))
}

/// The number of violations is the size of the set of violating slots.
pub proof fn lemma_violations_count(forbidden: Seq<Set<Seq<char>>>, ids: Seq<Seq<char>>, n: int)
    requires
        0 <= n,
    ensures
        violating_slots(forbidden, ids, n).finite(),
        violating_slots(forbidden, ids, n).len() == violations_upto(forbidden, ids, n),
    decreases n,
{
    if n == 0 {
        assert(violating_slots(forbidden, ids, n) =~= Set::<int>::empty());
    } else {
        lemma_violations_count(forbidden, ids, n - 1);
        let fewer = violating_slots(forbidden, ids, n - 1);
        if forbidden[n - 1].contains(ids[n - 1]) {
            assert(violating_slots(forbidden, ids, n) =~= fewer.insert(n - 1));
        } else {
            assert(violating_slots(forbidden, ids, n) =~= fewer);
        }
    }
}

/// Where no slot holds an identifier that is forbidden there, and so where
/// nothing is forbidden anywhere, the loss is zero.
pub proof fn lemma_exclusion_free(forbidden: Seq<Set<Seq<char>>>, ids: Seq<Seq<char>>, n: int)
    requires
        0 <= n <= ids.len(),
        forall|i: int| 0 <= i < n ==> !forbidden[i].contains(ids[i]),
    ensures
        violations_upto(forbidden, ids, n) == 0,
        n == ids.len() ==> exclusion_loss(forbidden, ids) == 0,
    decreases n,
{
    if n > 0 {
        lemma_exclusion_free(forbidden, ids, n - 1);
    }
}

/// Putting `id` into slot `i` changes the number of violations by what slot
/// `i` alone gains or loses.
pub proof fn lemma_violations_update(
    forbidden: Seq<Set<Seq<char>>>,
    ids: Seq<Seq<char>>,
    i: int,
    id: Seq<char>,
    n: int,
)
    requires
        0 <= i < ids.len(),
        0 <= n <= ids.len(),
    ensures
        violations_upto(forbidden, ids.update(i, id), n) == violations_upto(forbidden, ids, n)
            + if i < n {
            violates(forbidden, ids.update(i, id), i) - violates(forbidden, ids, i)
        } else {
            0
        },
    decreases n,
{
    if n > 0 {
        lemma_violations_update(forbidden, ids, i, id, n - 1);
    }
}

/// With all other slots alike, an assignment that holds a forbidden
/// identifier in slot `i` has a loss of exactly `EXCLUSION_PENALTY` more than
/// one that holds an allowed identifier there.
pub proof fn lemma_exclusion_penalty(
    forbidden: Seq<Set<Seq<char>>>,
    ids: Seq<Seq<char>>,
    i: int,
    banned: Seq<char>,
    allowed: Seq<char>,
)
    requires
        0 <= i < ids.len(),
        forbidden[i].contains(banned),
        !forbidden[i].contains(allowed),
    ensures
        exclusion_loss(forbidden, ids.update(i, banned)) == exclusion_loss(
            forbidden,
            ids.update(i, allowed),
        ) + in_units(EXCLUSION_PENALTY as int),
{
    lemma_violations_update(forbidden, ids, i, banned, ids.len() as int);
    lemma_violations_update(forbidden, ids, i, allowed, ids.len() as int);
}

/// Penalises every slot that holds an identifier forbidden there.
pub struct ExclusionObjective {
    exclusions: Vec<Vec<String>>,
}

impl ExclusionObjective {
    /// The forbidden identifiers, slot by slot.
    pub closed spec fn forbidden(&self) -> Seq<Set<Seq<char>>> {
        forbidden_sets(self.exclusions@)
    }

    /// The objective that forbids in each slot the identifiers that
    /// `exclusions` lists for it.
    pub fn new(exclusions: Vec<Vec<String>>) -> (r: Self)
        ensures
            r.forbidden() == forbidden_sets(exclusions@),
    {
        Self { exclusions }
    }

    /// Whether `listed` holds `id`.
    fn lists(listed: &Vec<String>, id: &str) -> (r: bool)
        ensures
            r == owned_identifiers(listed@).to_set().contains(id@),
    {
        let held: String = id.to_owned();
        let mut j: usize = 0;
        while j < listed.len()
            invariant
                j <= listed@.len(),
                held@ == id@,
                forall|k: int| 0 <= k < j ==> owned_identifiers(listed@)[k] != id@,
            decreases listed@.len() - j,
        {
            if listed[j] == held {
                assert(owned_identifiers(listed@)[j as int] == id@);
                return true;
            }
            j = j + 1;
        }
        false
    }
}

impl Objective for ExclusionObjective {
    open spec fn admits(&self, slots: nat) -> bool {
        self.forbidden().len() == slots
    }

    open spec fn loss_of(&self, ids: Seq<Seq<char>>) -> int {
        exclusion_loss(self.forbidden(), ids)
    }

    open spec fn bound(&self, slots: nat) -> nat {
        in_units(EXCLUSION_PENALTY * slots) as nat
    }

    fn loss(&self, solution: &[&str]) -> (r: Loss) {
        let ghost ids = identifiers(solution@);
        let mut violated: usize = 0;
        let mut i: usize = 0;
        while i < solution.len()
            invariant
                i <= solution@.len(),
                self.forbidden().len() == solution@.len(),
                ids == identifiers(solution@),
                violated <= i,
                violated == violations_upto(self.forbidden(), ids, i as int),
            decreases solution@.len() - i,
        {
            if Self::lists(&self.exclusions[i], solution[i]) {
                violated = violated + 1;
            }
            i = i + 1;
        }
        Loss::times(EXCLUSION_PENALTY, violated)
    }
}

} // verus!
