//! Whether a loss is kept: at once, or by its chance and the dice.

use vstd::prelude::*;
use crate::objective::{in_units, loss_unit, Loss};
use crate::schedule::Temperature;

verus! {

/// The last loss kept, as a number of units.
pub open spec fn kept_units(last: Option<Loss>) -> Option<int> {
    match last {
        None => None,
        Some(kept) => Some(kept.units()),
    }
}

/// Whether `loss` is kept without asking: nothing was kept before, or `loss`
/// is no worse than the last loss kept.
pub open spec fn settles(last: Option<int>, loss: int) -> bool {
    match last {
        None => true,
        Some(kept) => loss <= kept,
    }
}

/// A number without sign: `whole + fraction / 2^128`.
#[derive(Clone, Copy, Debug, PartialEq, Eq, PartialOrd, Ord, Structural)]
pub struct Magnitude {
    pub whole: u128,
    pub fraction: u128,
}

impl Magnitude {
    /// The number in the units of a loss.
    pub open spec fn units(self) -> int {
        in_units(self.whole as int) + self.fraction
    }
}

/// How much worse a loss is than the last one kept: `rise / scale`, an exact
/// ratio.
#[derive(Clone, Copy, Debug, PartialEq, Eq, Structural)]
pub struct Regression {
    /// The new loss less the last one kept.
    pub rise: Magnitude,
    /// The magnitude of the last loss kept, or one where that is less.
    pub scale: Magnitude,
}

/// The magnitude of `x`.
pub open spec fn magnitude(x: int) -> int {
    if x < 0 {
        -x
    } else {
        x
    }
}

/// By how many units `loss` is above `last`.
pub open spec fn rise_of(last: Loss, loss: Loss) -> int {
    loss.units() - last.units()
}

/// The units by which a rise from `last` is measured: the magnitude of
/// `last`, or a loss of one where that is less.
pub open spec fn scale_of(last: Loss) -> int {
    if magnitude(last.units()) >= loss_unit() {
        magnitude(last.units())
    } else {
        loss_unit()
    }
}

/// Whether `regression` is the regression from the loss `last` to the worse
/// loss `loss`.
pub open spec fn measures(regression: Regression, last: Loss, loss: Loss) -> bool {
    &&& regression.rise.units() == rise_of(last, loss)
    &&& regression.scale.units() == scale_of(last)
}

/// The magnitude of a whole number that is not above zero.
fn whole_magnitude(x: i128) -> (r: u128)
    requires
        x <= 0,
    ensures
        r == -x,
{
    if x == i128::MIN {
        0x8000_0000_0000_0000_0000_0000_0000_0000u128
    } else {
        (-x) as u128
    }
}

/// The magnitude of a loss.
fn magnitude_of(x: Loss) -> (r: Magnitude)
    ensures
        r.units() == magnitude(x.units()),
{
    if x.whole >= 0 {
        Magnitude { whole: x.whole as u128, fraction: x.fraction }
    } else if x.fraction == 0 {
        Magnitude { whole: whole_magnitude(x.whole), fraction: 0 }
    } else {
        Magnitude { whole: whole_magnitude(x.whole + 1), fraction: (u128::MAX - x.fraction) + 1 }
    }
}

/// Measures how much worse `loss` is than `last`, relative to the magnitude of `last`.
pub fn regression(last: Loss, loss: Loss) -> (r: Regression)
    requires
        last.units() < loss.units(),
    ensures
        measures(r, last, loss),
        r.rise.units() > 0,
        r.scale.units() >= loss_unit(),
{
    let gap: u128 = if last.whole >= 0 || loss.whole < 0 {
        (loss.whole - last.whole) as u128
    } else {
        loss.whole as u128 + whole_magnitude(last.whole)
    };
    let rise = if loss.fraction >= last.fraction {
        Magnitude { whole: gap, fraction: loss.fraction - last.fraction }
    } else {
        Magnitude { whole: gap - 1, fraction: (u128::MAX - last.fraction) + loss.fraction + 1 }
    };
    let size = magnitude_of(last);
    let scale = if size.whole >= 1 {
        size
    } else {
        Magnitude { whole: 1, fraction: 0 }
    };
    Regression { rise, scale }
}

/// What is to be asked about `loss`: nothing where it is kept anyway, else
/// the regression from the last loss kept.
pub fn worsening(last: Option<Loss>, loss: Loss) -> (r: Option<Regression>)
    ensures
        settles(kept_units(last), loss.units()) <==> r is None,
        r matches Some(regression) ==> measures(regression, last->0, loss),
{
    match last {
        None => None,
        Some(kept) => if loss.no_worse_than(kept) {
            None
        } else {
            Some(regression(kept, loss))
        },
    }
}

/// Whether a regression is kept: the dice does not exceed the chance. A
/// chance of `DICE_SIDES - 1` or more keeps whatever the dice shows.
pub open spec fn kept_by(chance: u32, dice: u32) -> bool {
    dice <= chance
}

/// Whether a regression with this chance is kept by this throw of the dice.
pub fn keeps(chance: u32, dice: u32) -> (r: bool)
    ensures
        r == kept_by(chance, dice),
{
    dice <= chance
}

/// What decides on a regression: the chance that the acceptance rule gave
/// it, and what the dice showed.
#[derive(Clone, Copy, Debug, PartialEq, Eq, Structural)]
pub struct Throw {
    pub chance: u32,
    pub dice: u32,
}

/// Whether a throw keeps a regression; where nothing was thrown, nothing does.
pub open spec fn lucky(throw: Option<Throw>) -> bool {
    match throw {
        Some(thrown) => kept_by(thrown.chance, thrown.dice),
        None => false,
    }
}

/// The rule that gives every regression its chance of being kept. The
/// search asks it once for every regression, and holds for whatever it
/// answers.
pub trait Acceptance {
    /// The chance with which the regression is kept at this temperature, in
    /// units of `1 / DICE_SIDES`: it is kept where the dice shows no more.
    fn chance(&mut self, regression: Regression, temperature: Temperature) -> u32;
}

} // verus!
