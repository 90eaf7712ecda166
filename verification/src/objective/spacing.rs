//! The spacing objective: identifiers that return too soon.

use vstd::prelude::*;
use vstd::arithmetic::power2::{
    lemma2_to64, lemma_pow2_adds, lemma_pow2_pos, lemma_pow2_strictly_increases,
    lemma_pow2_unfold, pow2,
};
use vstd::arithmetic::div_mod::lemma_div_denominator;
use vstd::hash_map::StringHashMap;
use crate::objective::{identifiers, in_units, Loss, Objective};

verus! {

/// What a repeated identifier would add at distance zero; each slot of
/// distance halves it.
pub const SPACING_PENALTY: i128 = 100;

/// The largest spacing penalty: that of an identifier that returns in the next slot.
pub const SPACING_LIMIT: i128 = 50;

/// The last of the first `n` slots that holds `id`, or -1 if none of them does.
pub open spec fn last_before(ids: Seq<Seq<char>>, id: Seq<char>, n: int) -> int
    decreases n,
{
    if n <= 0 {
        -1
    } else if ids[n - 1] == id {
        n - 1
    } else {
        last_before(ids, id, n - 1)
    }
}

/// What an identifier adds to the loss when it returns `distance` slots after
/// it was last seen, in units: `SPACING_PENALTY / 2^distance`. Up to a
/// distance of 130 slots that is a whole number of units; beyond, it is
/// rounded down to one.
pub open spec fn spacing_penalty(distance: nat) -> int {
    in_units(SPACING_PENALTY as int) / pow2(distance) as int
}

/// What slot `i` adds to the spacing loss: nothing where its identifier is
/// new, else the penalty for the distance to the slot that last held it.
pub open spec fn spacing_term(ids: Seq<Seq<char>>, i: int) -> int {
    let previous = last_before(ids, ids[i], i);
    if previous >= 0 {
        spacing_penalty((i - previous) as nat)
    } else {
        0
    }
}

/// The spacing terms of the first `n` slots, summed.
pub open spec fn spacing_loss_upto(ids: Seq<Seq<char>>, n: int) -> int
    decreases n,
{
    if n <= 0 {
        0
    } else {
        spacing_loss_upto(ids, n - 1) + spacing_term(ids, n - 1)
    }
}

/// The spacing loss: the spacing terms of all slots, summed.
pub open spec fn spacing_loss(ids: Seq<Seq<char>>) -> int {
    spacing_loss_upto(ids, ids.len() as int)
}

/// The last of the first `n` slots to hold `id` lies among them, holds
/// `id`, and no slot after it does.
pub proof fn lemma_last_before_range(ids: Seq<Seq<char>>, id: Seq<char>, n: int)
    requires
        0 <= n <= ids.len(),
    ensures
        -1 <= last_before(ids, id, n) < n,
        last_before(ids, id, n) >= 0 ==> ids[last_before(ids, id, n)] == id,
        forall|j: int| last_before(ids, id, n) < j < n ==> ids[j] != id,
    decreases n,
{
    if n > 0 && ids[n - 1] != id {
        lemma_last_before_range(ids, id, n - 1);
    }
}

/// Two to the power of 128 is the number of units in a loss of one.
pub proof fn lemma_unit_is_power()
    ensures
        pow2(128) == in_units(1),
        pow2(130) == in_units(4),
{
    lemma2_to64();
    lemma_pow2_adds(64, 64);
    lemma_pow2_adds(128, 2);
}

/// A penalty is never negative, and at distance one or more it is at most `SPACING_LIMIT`.
pub proof fn lemma_spacing_penalty_range(distance: nat)
    ensures
        0 <= spacing_penalty(distance) <= in_units(SPACING_PENALTY as int),
        distance >= 1 ==> spacing_penalty(distance) <= in_units(SPACING_LIMIT as int),
{
    lemma_pow2_pos(distance);
    lemma2_to64();
    let p = pow2(distance) as int;
    let top = in_units(SPACING_PENALTY as int);
    if distance >= 1 {
        if distance > 1 {
            lemma_pow2_strictly_increases(1, distance);
        }
        assert(top / p <= top / 2) by (nonlinear_arith)
            requires
                p >= 2,
                top >= 0,
        ;
    }
    assert(0 <= top / p <= top) by (nonlinear_arith)
        requires
            p >= 1,
            top >= 0,
    ;
}

/// The spacing terms of the first `n` slots sum to at most `SPACING_LIMIT`
/// for each of them, and to no less than nothing.
pub proof fn lemma_spacing_loss_bounded(ids: Seq<Seq<char>>, n: int)
    requires
        0 <= n <= ids.len(),
    ensures
        0 <= spacing_loss_upto(ids, n) <= in_units(SPACING_LIMIT * n),
    decreases n,
{
    if n > 0 {
        lemma_spacing_loss_bounded(ids, n - 1);
        let previous = last_before(ids, ids[n - 1], n - 1);
        lemma_last_before_range(ids, ids[n - 1], n - 1);
        if previous >= 0 {
            lemma_spacing_penalty_range((n - 1 - previous) as nat);
        }
    }
}

/// Whether slot `i` holds an identifier that an earlier slot holds too.
pub open spec fn returns_at(ids: Seq<Seq<char>>, i: int) -> bool {
    last_before(ids, ids[i], i) >= 0
}

/// How many of the first `n` slots hold an identifier that an earlier slot
/// holds too.
pub open spec fn repeats_upto(ids: Seq<Seq<char>>, n: int) -> int
    decreases n,
{
    if n <= 0 {
        0
    } else {
        repeats_upto(ids, n - 1) + if returns_at(ids, n - 1) {
            1int
        } else {
            0int
        }
    }
}

/// The spacing loss is at most `SPACING_LIMIT` for every slot that is not
/// the first to hold its identifier; the first occurrences add nothing.
pub proof fn lemma_spacing_loss_by_repeats(ids: Seq<Seq<char>>, n: int)
    requires
        0 <= n <= ids.len(),
    ensures
        0 <= repeats_upto(ids, n) <= n,
        0 <= spacing_loss_upto(ids, n) <= in_units(SPACING_LIMIT * repeats_upto(ids, n)),
        n == ids.len() ==> spacing_loss(ids) <= in_units(SPACING_LIMIT * repeats_upto(ids, n)),
    decreases n,
{
    if n > 0 {
        lemma_spacing_loss_by_repeats(ids, n - 1);
        let previous = last_before(ids, ids[n - 1], n - 1);
        lemma_last_before_range(ids, ids[n - 1], n - 1);
        if previous >= 0 {
            lemma_spacing_penalty_range((n - 1 - previous) as nat);
        }
    }
}

/// The slots that are not the first to hold their identifier are all but
/// one for every identifier: with the number of different identifiers they
/// make up the number of slots.
pub proof fn lemma_repeats_and_distinct(ids: Seq<Seq<char>>, n: int)
    requires
        0 <= n <= ids.len(),
    ensures
        ids.take(n).to_set().finite(),
        repeats_upto(ids, n) + ids.take(n).to_set().len() == n,
    decreases n,
{
    if n == 0 {
        assert(ids.take(n).to_set() =~= Set::<Seq<char>>::empty());
    } else {
        lemma_repeats_and_distinct(ids, n - 1);
        let held = ids[n - 1];
        let earlier = ids.take(n - 1);
        lemma_last_before_range(ids, held, n - 1);
        assert(ids.take(n) =~= earlier.push(held));
        let all = ids.take(n).to_set();
        let grown = earlier.to_set().insert(held);
        assert(all =~= grown) by {
            assert forall|id: Seq<char>| all.contains(id) <==> grown.contains(id) by {
                if ids.take(n).contains(id) {
                    let k = choose|k: int| 0 <= k < n && ids.take(n)[k] == id;
                    if k < n - 1 {
                        assert(earlier[k] == id);
                    }
                }
                if earlier.contains(id) {
                    let k = choose|k: int| 0 <= k < n - 1 && earlier[k] == id;
                    assert(ids.take(n)[k] == id);
                }
                if id == held {
                    assert(ids.take(n)[n - 1] == id);
                }
            }
        }
        if returns_at(ids, n - 1) {
            assert(earlier[last_before(ids, held, n - 1)] == held);
            assert(earlier.to_set().contains(held));
        } else {
            assert(!earlier.to_set().contains(held)) by {
                if earlier.contains(held) {
                    let k = choose|k: int| 0 <= k < n - 1 && earlier[k] == held;
                    assert(ids[k] == held);
                }
            }
        }
    }
}

/// Up to a distance of 130 slots nothing is rounded: the penalty times
/// `2^distance` is `SPACING_PENALTY`, and the penalty is above zero. At
/// distance one it is `SPACING_LIMIT`.
pub proof fn lemma_spacing_penalty_exact(distance: nat)
    requires
        distance <= 130,
    ensures
        spacing_penalty(distance) * pow2(distance) == in_units(SPACING_PENALTY as int),
        spacing_penalty(distance) > 0,
        distance == 1 ==> spacing_penalty(distance) == in_units(SPACING_LIMIT as int),
{
    lemma_unit_is_power();
    lemma2_to64();
    lemma_pow2_pos(distance);
    lemma_pow2_pos((130 - distance) as nat);
    lemma_pow2_adds(distance, (130 - distance) as nat);
    let p = pow2(distance) as int;
    let q = pow2((130 - distance) as nat) as int;
    assert(in_units(SPACING_PENALTY as int) == 25 * (p * q));
    assert((25 * (p * q)) / p == 25 * q) by (nonlinear_arith)
        requires
            p > 0,
    ;
    assert((25 * q) * p == 25 * (p * q)) by (nonlinear_arith);
    if distance == 1 {
        lemma_pow2_unfold(129);
    }
}

/// Up to a distance of 130 slots the penalty falls with every slot of distance.
pub proof fn lemma_spacing_penalty_falls(nearer: nat, farther: nat)
    requires
        nearer < farther <= 130,
    ensures
        spacing_penalty(farther) < spacing_penalty(nearer),
{
    lemma_spacing_penalty_exact(nearer);
    lemma_spacing_penalty_exact(farther);
    lemma_pow2_pos(nearer);
    lemma_pow2_strictly_increases(nearer, farther);
    let p = pow2(nearer) as int;
    let q = pow2(farther) as int;
    let x = spacing_penalty(nearer);
    let y = spacing_penalty(farther);
    assert(y < x) by (nonlinear_arith)
        requires
            x * p == y * q,
            0 < p < q,
            x > 0,
            y > 0,
    ;
}

/// An assignment of at most 131 slots has a spacing loss above zero where
/// some slot holds an identifier that an earlier slot holds too, and of zero
/// where none does.
pub proof fn lemma_spacing_positive(ids: Seq<Seq<char>>, n: int)
    requires
        0 <= n <= ids.len(),
        n <= 131,
    ensures
        spacing_loss_upto(ids, n) > 0 <==> repeats_upto(ids, n) > 0,
        spacing_loss_upto(ids, n) == 0 <==> repeats_upto(ids, n) == 0,
    decreases n,
{
    lemma_spacing_loss_by_repeats(ids, n);
    if n > 0 {
        lemma_spacing_positive(ids, n - 1);
        lemma_spacing_loss_by_repeats(ids, n - 1);
        let previous = last_before(ids, ids[n - 1], n - 1);
        lemma_last_before_range(ids, ids[n - 1], n - 1);
        if previous >= 0 {
            lemma_spacing_penalty_exact((n - 1 - previous) as nat);
        }
    }
}

/// Where none of the first `n` slots holds `id`, none is the last to hold it.
pub proof fn lemma_last_before_absent(ids: Seq<Seq<char>>, id: Seq<char>, n: int)
    requires
        forall|j: int| 0 <= j < n ==> ids[j] != id,
    ensures
        last_before(ids, id, n) == -1,
    decreases n,
{
    if n > 0 {
        lemma_last_before_absent(ids, id, n - 1);
    }
}

/// Where slot `p` holds `id` and no slot after it and before `n` does, `p`
/// is the last of the first `n` slots to hold it.
pub proof fn lemma_last_before_found(ids: Seq<Seq<char>>, id: Seq<char>, p: int, n: int)
    requires
        0 <= p < n,
        ids[p] == id,
        forall|j: int| p < j < n ==> ids[j] != id,
    ensures
        last_before(ids, id, n) == p,
    decreases n,
{
    if n - 1 > p {
        lemma_last_before_found(ids, id, p, n - 1);
    }
}

/// An assignment in which no identifier occurs twice has no spacing loss.
pub proof fn lemma_spacing_distinct(ids: Seq<Seq<char>>, n: int)
    requires
        0 <= n <= ids.len(),
        forall|i: int, j: int| 0 <= i < j < n ==> ids[i] != ids[j],
    ensures
        spacing_loss_upto(ids, n) == 0,
        n == ids.len() ==> spacing_loss(ids) == 0,
    decreases n,
{
    if n > 0 {
        lemma_spacing_distinct(ids, n - 1);
        lemma_last_before_absent(ids, ids[n - 1], n - 1);
    }
}

/// An assignment in which one identifier occurs twice, in the slots `p` and
/// `q`, and nothing else is repeated, has the spacing loss of that one
/// return: the penalty for the distance from `p` to `q`.
pub proof fn lemma_spacing_pair(ids: Seq<Seq<char>>, p: int, q: int, n: int)
    requires
        0 <= p < q < ids.len(),
        0 <= n <= ids.len(),
        ids[p] == ids[q],
        forall|i: int, j: int| 0 <= i < j < ids.len() && ids[i] == ids[j] ==> i == p && j == q,
    ensures
        spacing_loss_upto(ids, n) == if n > q {
            spacing_penalty((q - p) as nat)
        } else {
            0
        },
        n == ids.len() ==> spacing_loss(ids) == spacing_penalty((q - p) as nat),
    decreases n,
{
    if n > 0 {
        lemma_spacing_pair(ids, p, q, n - 1);
        if n - 1 == q {
            lemma_last_before_found(ids, ids[q], p, q);
        } else {
            lemma_last_before_absent(ids, ids[n - 1], n - 1);
        }
    }
}

/// An assignment in which one identifier occurs twice, at most 130 slots
/// apart, and nothing else is repeated, has a spacing loss of exactly
/// `SPACING_PENALTY / 2^distance`: of `SPACING_LIMIT` where the two slots
/// are next to each other.
pub proof fn lemma_spacing_pair_exact(ids: Seq<Seq<char>>, p: int, q: int)
    requires
        0 <= p < q < ids.len(),
        q - p <= 130,
        ids[p] == ids[q],
        forall|i: int, j: int| 0 <= i < j < ids.len() && ids[i] == ids[j] ==> i == p && j == q,
    ensures
        spacing_loss(ids) * pow2((q - p) as nat) == in_units(SPACING_PENALTY as int),
        q - p == 1 ==> spacing_loss(ids) == in_units(SPACING_LIMIT as int),
{
    lemma_spacing_pair(ids, p, q, ids.len() as int);
    lemma_spacing_penalty_exact((q - p) as nat);
}

/// In the first 131 slots of an assignment nothing is rounded: a slot that
/// holds an identifier for the first time adds nothing, and any other adds
/// exactly `SPACING_PENALTY / 2^distance`, which is above zero.
pub proof fn lemma_spacing_term_exact(ids: Seq<Seq<char>>, i: int)
    requires
        0 <= i < ids.len(),
        i <= 130,
    ensures
        !returns_at(ids, i) ==> spacing_term(ids, i) == 0,
        returns_at(ids, i) ==> spacing_term(ids, i) > 0 && spacing_term(ids, i) * pow2(
            (i - last_before(ids, ids[i], i)) as nat,
        ) == in_units(SPACING_PENALTY as int),
{
    lemma_last_before_range(ids, ids[i], i);
    if returns_at(ids, i) {
        lemma_spacing_penalty_exact((i - last_before(ids, ids[i], i)) as nat);
    }
}

/// Penalises identifiers that return soon after they were last seen.
pub struct SpacingObjective;

impl Default for SpacingObjective {
    fn default() -> (r: Self)
        ensures
            r == SpacingObjective,
    {
        Self
    }
}

impl SpacingObjective {
    /// The spacing objective: it has no parameters.
    pub fn new() -> (r: Self)
        ensures
            r == SpacingObjective,
    {
        Self
    }

    /// The penalty for an identifier that returns after `delta` slots:
    /// `SPACING_PENALTY`, halved once for every slot.
    fn loss_func(&self, delta: usize) -> (r: Loss)
        ensures
            r.units() == spacing_penalty(delta as nat),
    {
        let mut whole: u128 = SPACING_PENALTY as u128;
        let mut fraction: u128 = 0;
        let mut halved: usize = 0;
        proof {
            lemma2_to64();
        }
        while halved < delta && (whole > 0 || fraction > 0)
            invariant
                halved <= delta,
                whole <= SPACING_PENALTY,
                in_units(whole as int) + fraction == spacing_penalty(halved as nat),
            decreases delta - halved,
        {
            proof {
                lemma_pow2_pos(halved as nat);
                lemma_pow2_unfold((halved + 1) as nat);
                lemma_div_denominator(
                    in_units(SPACING_PENALTY as int),
                    pow2(halved as nat) as int,
                    2,
                );
            }
            let carried: u128 = if whole % 2 == 1 {
                0x8000_0000_0000_0000_0000_0000_0000_0000u128
            } else {
                0u128
            };
            fraction = fraction / 2 + carried;
            whole = whole / 2;
            halved = halved + 1;
        }
        proof {
            if halved < delta {
                lemma_pow2_pos(halved as nat);
                lemma_pow2_strictly_increases(halved as nat, delta as nat);
                let top = in_units(SPACING_PENALTY as int);
                let p = pow2(halved as nat) as int;
                let q = pow2(delta as nat) as int;
                assert(top / q == 0) by (nonlinear_arith)
                    requires
                        top / p == 0,
                        0 < p < q,
                        top >= 0,
                ;
            }
        }
        Loss { whole: whole as i128, fraction }
    }
}

impl Objective for SpacingObjective {
    open spec fn admits(&self, slots: nat) -> bool {
        true
    }

    open spec fn loss_of(&self, ids: Seq<Seq<char>>) -> int {
        spacing_loss(ids)
    }

    open spec fn bound(&self, slots: nat) -> nat {
        in_units(SPACING_LIMIT * slots) as nat
    }

    fn loss(&self, solution: &[&str]) -> (r: Loss) {
        let ghost ids = identifiers(solution@);
        let mut result = Loss { whole: 0, fraction: 0 };
        let mut cache = StringHashMap::<usize>::new();
        let mut i: usize = 0;
        while i < solution.len()
            invariant
                i <= solution@.len(),
                ids == identifiers(solution@),
                result.units() == spacing_loss_upto(ids, i as int),
                0 <= result.units() <= in_units(SPACING_LIMIT * i),
                forall|id: Seq<char>| #[trigger]
                    cache@.contains_key(id) <==> last_before(ids, id, i as int) >= 0,
                forall|id: Seq<char>| #[trigger]
                    cache@.contains_key(id) ==> cache@[id] == last_before(ids, id, i as int),
            decreases solution@.len() - i,
        {
            let held: &str = solution[i];
            proof {
                lemma_last_before_range(ids, held@, i as int);
                lemma_spacing_loss_bounded(ids, i as int + 1);
            }
            match cache.get(held) {
                Some(previous) => {
                    proof {
                        lemma_spacing_penalty_range((i - *previous) as nat);
                    }
                    let penalty = self.loss_func(i - *previous);
                    result = result.plus(penalty);
                },
                None => {},
            }
            cache.insert(held.to_owned(), i);
            i = i + 1;
        }
        result
    }
}

} // verus!
