//! Reordering of a fixed list of slots by simulated annealing.
//!
//! An assignment is a sequence of identifiers, one per slot. Some slots are
//! swappable; the others are pinned. An objective scores an assignment with a
//! loss, and the solver exchanges swappable slots pair by pair, keeping what
//! lowers the loss and, with a chance that falls with the temperature, some
//! of what raises it.
//!
//! Everything here is whole numbers. A loss is a fixed-point number of 128
//! binary places.
//! A temperature is the triple of its ceiling and the numbers of halvings
//! and decays applied to it. The chance of keeping a worse assignment is a
//! number of faces of a dice, and comes from an [`Acceptance`] that the
//! caller supplies: the search holds for whatever chances it names.
//!
//! - [`objective`]: the scoring rules and their sums.
//! - [`schedule`]: temperatures and the sawtooth schedule.
//! - [`solver`]: the search, its steps and what chance decides in them.
//! - [`intake`] and [`record`]: rows, and what a search needs of them.
//! - [`reschedule`](mod@reschedule): a whole run over rows.

pub mod exchange;
pub mod intake;
pub mod objective;
pub mod record;
pub mod reschedule;
pub mod schedule;
pub mod solver;

pub use intake::{parse_exclusions, problem_of, swappable_positions, with_solution, Problem};
pub use objective::alignment::GeneralAlignmentObjective;
pub use objective::exclusion::ExclusionObjective;
pub use objective::spacing::SpacingObjective;
pub use objective::{Loss, Objective, PairObjective, VectorObjective};
pub use record::Record;
pub use reschedule::{reschedule, Refusal};
pub use schedule::{SawtoothAnnealingSchedule, Schedule, Temperature, TEMPERATURE_UNIT};
pub use solver::acceptance::{
    keeps, regression, worsening, Acceptance, Magnitude, Regression, Throw,
};
pub use solver::random::{draw_dice, select_swap, DICE_SIDES};
pub use solver::state::{swap_slots, SearchState};
pub use solver::{AnnealingSolver, Solver};
