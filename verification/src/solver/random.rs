//! What chance decides: the slots that a step exchanges, and the dice.

use vstd::prelude::*;
use rand::rngs::ThreadRng;
use rand::seq::SliceRandom;
use rand::Rng;

verus! {

/// `rand::rngs::ThreadRng`, the handle to the generator of the current thread.
#[verifier::external_type_specification]
#[verifier::external_body]
pub struct ExThreadRng(ThreadRng);

/// `rand::thread_rng` hands out the generator of the current thread. Nothing
/// is claimed of the handle.
pub assume_specification[ rand::thread_rng ]() -> (rng: ThreadRng);

/// Whether `a` and `b` stand at two different places of `swappable`.
pub open spec fn drawn_apart(swappable: Seq<usize>, a: int, b: int) -> bool {
    exists|i: int, j: int|
        0 <= i < swappable.len() && 0 <= j < swappable.len() && i != j && a
            == #[trigger] swappable[i] && b == #[trigger] swappable[j]
}

/// Whether `picked` holds elements of `slice` taken at places of which no
/// two are the same.
pub open spec fn taken_apart(slice: Seq<usize>, picked: Seq<usize>) -> bool {
    exists|places: Seq<int>| #[trigger]
        places.len() == picked.len() && places.no_duplicates() && forall|k: int|
            0 <= k < places.len() ==> 0 <= #[trigger] places[k] < slice.len() && picked[k]
                == slice[places[k]]
}

/// `rand::seq::SliceRandom::choose_multiple` on a slice: as many elements
/// as asked for, or all where the slice holds fewer, taken at different
/// places of the slice. Which places, and in which order, is left open. A
/// slice of more than `u32::MAX` elements is not asked for in full: the
/// sampler for such lengths expects to leave an element out.
#[verifier::external_body]
fn choose_multiple(rng: &mut ThreadRng, slice: &[usize], amount: usize) -> (picked: Vec<usize>)
    requires
        amount < slice@.len() || slice@.len() <= u32::MAX,
    ensures
        amount <= slice@.len() ==> picked@.len() == amount,
        amount > slice@.len() ==> picked@.len() == slice@.len(),
        taken_apart(slice@, picked@),
{
    slice.choose_multiple(rng, amount).copied().collect()
}

/// Draws two slots from two different places of `swappable`: two different
/// slots, where `swappable` lists none twice.
pub fn select_swap(rng: &mut ThreadRng, swappable: &[usize]) -> (drawn: (usize, usize))
    requires
        swappable@.len() >= 2,
    ensures
        drawn_apart(swappable@, drawn.0 as int, drawn.1 as int),
        swappable@.no_duplicates() ==> drawn.0 != drawn.1,
{
    let picked = choose_multiple(rng, swappable, 2);
    proof {
        let places = choose|places: Seq<int>| #[trigger]
            places.len() == picked@.len() && places.no_duplicates() && forall|k: int|
                0 <= k < places.len() ==> 0 <= #[trigger] places[k] < swappable@.len()
                    && picked@[k] == swappable@[places[k]];
        assert(picked@[0] == swappable@[places[0]]);
        assert(picked@[1] == swappable@[places[1]]);
    }
    (picked[0], picked[1])
}

/// How many faces the dice has: it shows one of `0..DICE_SIDES`.
pub const DICE_SIDES: u32 = 0x100_0000;

/// `rand::Rng::gen_range` on the range `0..sides`: a value of that range.
/// Which one is left open.
#[verifier::external_body]
fn roll(rng: &mut ThreadRng, sides: u32) -> (dice: u32)
    requires
        sides > 0,
    ensures
        dice < sides,
{
    rng.gen_range(0..sides)
}

/// Throws the dice.
pub fn draw_dice(rng: &mut ThreadRng) -> (dice: u32)
    ensures
        dice < DICE_SIDES,
{
    roll(rng, DICE_SIDES)
}

} // verus!
