//! One row of a schedule.

use vstd::prelude::*;

verus! {

/// A dated slot: who holds it in the reference schedule, who holds it in
/// ours, and who must not hold it.
#[derive(Debug, Clone)]
pub struct Record {
    pub date: String,
    /// `Some(true)` where the slot must stay as it is.
    pub pinned: Option<bool>,
    pub general: String,
    pub ours: String,
    /// The identifiers excluded from the slot, separated by commas; `-` for none.
    pub exclude: String,
}

/// Whether `row` is `base` with `ours` as our identifier.
pub open spec fn is_with_ours(row: Record, base: Record, ours: Seq<char>) -> bool {
    &&& row.ours@ == ours
    &&& row.date@ == base.date@
    &&& row.pinned == base.pinned
    &&& row.general@ == base.general@
    &&& row.exclude@ == base.exclude@
}

impl Record {
    /// The same row with `value` as our identifier.
    pub fn with_ours(&self, value: &str) -> (r: Self)
        ensures
            is_with_ours(r, *self, value@),
    {
        Record {
            date: self.date.clone(),
            pinned: self.pinned,
            general: self.general.clone(),
            ours: value.to_owned(),
            exclude: self.exclude.clone(),
        }
    }
}

} // verus!
