//! Hardening on Unix: no core dumps, memory locked, no debuggers.

use vstd::prelude::*;

use crate::hardening::{HardenStatus, Measure, MeasureV};
use crate::text;
use crate::text::copy_text;

verus! {

/// What a system call came to: nothing, or the text of its error.
pub type Called = Result<(), String>;

/// The measure that a single system call amounts to.
pub open spec fn measure_of(op: Seq<char>, called: Called) -> MeasureV {
    match called {
        Ok(_) => MeasureV::Applied,
        Err(e) => MeasureV::Failed(op + ": "@ + e@),
    }
}

fn errno_msg(op: &str, err: &str) -> (r: String)
    ensures
        r@ == op@ + ": "@ + err@,
{
    let mut r = copy_text(op);
    r.append(": ");
    r.append(err);
    r
}

fn measure(op: &str, called: &Called) -> (r: Measure)
    ensures
        r@ == measure_of(op@, *called),
{
    match called {
        Ok(_) => Measure::Applied,
        Err(e) => Measure::Failed(errno_msg(op, e.as_str())),
    }
}

/// The measure that setting the core limit to zero amounts to.
pub fn disable_core_dumps(called: &Called) -> (r: Measure)
    ensures
        r@ == measure_of("setrlimit RLIMIT_CORE"@, *called),
{
    measure("setrlimit RLIMIT_CORE", called)
}

/// What locking memory does next.
pub enum LockAction {
    /// Ask for the limit on locked memory.
    Query,
    /// Raise the soft limit to the hard limit.
    Raise { max: u64 },
    /// Lock the pages; those of the future as well, where the limit is unlimited.
    Lock { future: bool },
    /// It is done.
    Done(Measure),
}

/// What came of asking for the limit: the hard limit, and whether it stands for no
/// limit at all.
pub struct MemoryLimit {
    /// The hard limit.
    pub max: u64,
    /// Whether it is unlimited.
    pub unlimited: bool,
}

/// Locking memory, step by step.
pub struct MemoryLock {
    limit: Option<MemoryLimit>,
}

impl MemoryLock {
    /// The limit that was found.
    pub closed spec fn limit(&self) -> Option<MemoryLimit> {
        self.limit
    }
}

/// Starts locking memory: first the limit is asked for.
pub fn lock_memory() -> (r: (MemoryLock, LockAction))
    ensures
        r.0.limit() is None,
        r.1 is Query,
{
    (MemoryLock { limit: None }, LockAction::Query)
}

impl MemoryLock {
    /// After the limit was asked for: it is raised, unless asking failed.
    pub fn queried(&mut self, found: Result<MemoryLimit, String>) -> (r: LockAction)
        ensures
            match found {
                Ok(limit) => final(self).limit() == Some(limit) && (r matches LockAction::Raise {
                    max,
                } && max == limit.max),
                Err(e) => final(self).limit() == old(self).limit() && (r matches LockAction::Done(
                    m,
                ) && m@ == MeasureV::Failed("getrlimit RLIMIT_MEMLOCK"@ + ": "@ + e@)),
            },
    {
        match found {
            Ok(limit) => {
                let max: u64 = limit.max;
                self.limit = Some(limit);
                LockAction::Raise { max }
            },
            Err(e) => LockAction::Done(
                Measure::Failed(errno_msg("getrlimit RLIMIT_MEMLOCK", e.as_str())),
            ),
        }
    }

    /// After the limit was raised: the pages are locked, unless raising failed.
    pub fn raised(&self, called: Called) -> (r: LockAction)
        ensures
            match called {
                Ok(_) => r matches LockAction::Lock { future } && future == (
                self.limit() matches Some(l) && l.unlimited),
                Err(e) => r matches LockAction::Done(m) && m@ == MeasureV::Failed(
                    "setrlimit RLIMIT_MEMLOCK"@ + ": "@ + e@,
                ),
            },
    {
        match called {
            Ok(_) => {
                let future = match &self.limit {
                    Some(l) => l.unlimited,
                    None => false,
                };
                LockAction::Lock { future }
            },
            Err(e) => LockAction::Done(
                Measure::Failed(errno_msg("setrlimit RLIMIT_MEMLOCK", e.as_str())),
            ),
        }
    }

    /// After the pages were locked: that is the measure.
    pub fn locked(&self, called: Called) -> (r: LockAction)
        ensures
            r matches LockAction::Done(m) && m@ == measure_of("mlockall"@, called),
    {
        LockAction::Done(measure("mlockall", &called))
    }
}

/// How a debugger is denied.
pub enum Denial {
    /// Linux: the process was asked to be not dumpable.
    Dumpable(Called),
    /// macOS, in a release build: attaching was denied. The error may say that it
    /// was denied before.
    Attach { called: Called, busy: bool },
    /// macOS, in a debug build: nothing was asked.
    DebugBuild,
    /// Another system: nothing was asked.
    Unsupported,
}

/// The measure that denying debuggers amounts to. That it was denied before is as
/// good.
pub open spec fn denial_of(denial: Denial) -> MeasureV {
    match denial {
        Denial::Dumpable(called) => measure_of("prctl PR_SET_DUMPABLE"@, called),
        Denial::Attach { called, busy } => if called is Err && busy {
            MeasureV::Applied
        } else {
            measure_of("ptrace PT_DENY_ATTACH"@, called)
        },
        Denial::DebugBuild => MeasureV::Skipped("debug_assertions"@),
        Denial::Unsupported => MeasureV::Skipped("unsupported unix target"@),
    }
}

/// Says what denying debuggers amounts to.
pub fn deny_debugger(denial: &Denial) -> (r: Measure)
    ensures
        r@ == denial_of(*denial),
{
    match denial {
        Denial::Dumpable(called) => measure("prctl PR_SET_DUMPABLE", called),
        Denial::Attach { called, busy } => if called.is_err() && *busy {
            Measure::Applied
        } else {
            measure("ptrace PT_DENY_ATTACH", called)
        },
        Denial::DebugBuild => Measure::Skipped("debug_assertions"),
        Denial::Unsupported => Measure::Skipped("unsupported unix target"),
    }
}

/// The system that runs.
#[derive(Debug, Clone, Copy, PartialEq, Eq, Structural)]
pub enum System {
    /// Linux.
    Linux,
    /// macOS.
    MacOs,
    /// Another Unix.
    Other,
}

/// The name of a system.
pub open spec fn system_name(system: System) -> Seq<char> {
    match system {
        System::Linux => "linux"@,
        System::MacOs => "macos"@,
        System::Other => "unix"@,
    }
}

/// Names the system.
pub fn platform_name(system: System) -> (r: &'static str)
    ensures
        r@ == system_name(system),
{
    match system {
        System::Linux => "linux",
        System::MacOs => "macos",
        System::Other => "unix",
    }
}

/// Puts the measures together.
pub fn harden(core_dump: &Called, mlock: Measure, denial: &Denial, system: System) -> (r:
    HardenStatus)
    ensures
        r.core_dump@ == measure_of("setrlimit RLIMIT_CORE"@, *core_dump),
        r.mlock == mlock,
        r.debugger_deny@ == denial_of(*denial),
        r.platform@ == system_name(system),
{
    HardenStatus {
        core_dump: disable_core_dumps(core_dump),
        mlock,
        debugger_deny: deny_debugger(denial),
        platform: platform_name(system),
    }
}

/// A measure is applied exactly if the system call went well, and else it failed; a
/// debugger that was denied before counts as denied, and what was not asked is skipped.
pub proof fn law_measures(op: Seq<char>, called: Called, busy: bool)
    ensures
        measure_of(op, called) == MeasureV::Applied <==> called is Ok,
        called matches Err(e) ==> measure_of(op, called) == MeasureV::Failed(op + ": "@ + e@),
        denial_of(Denial::Dumpable(called)) == MeasureV::Applied <==> called is Ok,
        denial_of(Denial::Dumpable(called)) is Failed <==> called is Err,
        denial_of(Denial::Attach { called, busy }) == MeasureV::Applied <==> called is Ok || busy,
        denial_of(Denial::Attach { called, busy }) is Failed <==> called is Err && !busy,
        denial_of(Denial::DebugBuild) is Skipped,
        denial_of(Denial::Unsupported) is Skipped,
{
}

} // verus!
