//! Why a schedule cannot be built.

use vstd::prelude::*;

verus! {

/// The ways in which building a schedule fails.
#[derive(Debug, Clone, Copy, PartialEq, Eq, Structural)]
pub enum ScheduleError {
    /// There is no machine, a duration is negative, or there are fewer tasks
    /// than machines.
    InvalidParameter,
    /// The work of all tasks together is beyond the range of a load.
    LoadOverflow,
}

} // verus!
