//! Hardening on Windows: the crash dialog and its dump are suppressed.

use vstd::prelude::*;

use crate::hardening::{HardenStatus, Measure, MeasureV};

verus! {

/// The status once the error mode is set, which does not fail. There is no lock of
/// all memory, and no portable denial of debuggers.
pub fn harden() -> (r: HardenStatus)
    ensures
        r.core_dump@ == MeasureV::Applied,
        r.mlock@ == MeasureV::Skipped("no process-wide VirtualLock equivalent"@),
        r.debugger_deny@ == MeasureV::Skipped("no portable equivalent"@),
        r.platform@ == "windows"@,
{
    HardenStatus {
        core_dump: Measure::Applied,
        mlock: Measure::Skipped("no process-wide VirtualLock equivalent"),
        debugger_deny: Measure::Skipped("no portable equivalent"),
        platform: "windows",
    }
}

} // verus!
