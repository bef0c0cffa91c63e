//! Process-wide hardening that keeps decrypted secrets off disk.
//!
//! The measures are applied once at startup by the caller, which makes the system
//! calls; this module says which calls, and what their outcomes amount to. Failures
//! are not fatal by default. In strict mode a failure to suppress core dumps or to
//! deny debuggers is; a failure to lock memory never is, since containers often do
//! not allow it.

use vstd::prelude::*;

use crate::text;
use crate::text::{copy_text, same_text};

use environment::{Environment, Variables};

pub mod environment;
pub mod unix;
pub mod windows;

verus! {

/// The outcome of one measure.
#[derive(Debug, PartialEq, Eq)]
pub enum Measure {
    /// It was applied.
    Applied,
    /// It does not apply here, and why.
    Skipped(&'static str),
    /// It was tried and failed, and why.
    Failed(String),
}

/// What a [`Measure`] says.
#[verifier::ext_equal]
pub enum MeasureV {
    Applied,
    Skipped(Seq<char>),
    Failed(Seq<char>),
}

impl View for Measure {
    type V = MeasureV;

    open spec fn view(&self) -> MeasureV {
        match *self {
            Measure::Applied => MeasureV::Applied,
            Measure::Skipped(reason) => MeasureV::Skipped(reason@),
            Measure::Failed(reason) => MeasureV::Failed(reason@),
        }
    }
}

/// The text that stands for a measure.
pub open spec fn measure_text(m: MeasureV) -> Seq<char> {
    match m {
        MeasureV::Applied => "applied"@,
        MeasureV::Skipped(reason) => "skipped ("@ + reason + ")"@,
        MeasureV::Failed(reason) => "failed ("@ + reason + ")"@,
    }
}

impl Measure {
    /// Whether the measure is in order: applied, or skipped on purpose.
    pub fn is_ok(&self) -> (r: bool)
        ensures
            r == !(self@ is Failed),
    {
        match self {
            Measure::Applied => true,
            Measure::Skipped(_) => true,
            Measure::Failed(_) => false,
        }
    }

    /// The text that stands for the measure.
    pub fn detail(&self) -> (r: String)
        ensures
            r@ == measure_text(self@),
    {
        match self {
            Measure::Applied => copy_text("applied"),
            Measure::Skipped(reason) => {
                let mut r = copy_text("skipped (");
                r.append(reason);
                r.append(")");
                r
            },
            Measure::Failed(reason) => {
                let mut r = copy_text("failed (");
                r.append(reason.as_str());
                r.append(")");
                r
            },
        }
    }
}

/// The hardening of the process.
#[derive(Debug, PartialEq, Eq)]
pub struct HardenStatus {
    /// Suppression of core dumps.
    pub core_dump: Measure,
    /// Locking of memory.
    pub mlock: Measure,
    /// Denial of debuggers.
    pub debugger_deny: Measure,
    /// The platform.
    pub platform: &'static str,
}

impl HardenStatus {
    /// Whether strict mode accepts the status: neither core dumps nor debuggers are
    /// a failure. Memory does not count.
    pub fn satisfies_strict(&self) -> (r: bool)
        ensures
            r == (!(self.core_dump@ is Failed) && !(self.debugger_deny@ is Failed)),
    {
        self.core_dump.is_ok() && self.debugger_deny.is_ok()
    }
}

/// The status of a platform on which nothing is done.
pub fn unsupported() -> (r: HardenStatus)
    ensures
        r.core_dump@ == MeasureV::Skipped("unsupported platform"@),
        r.mlock@ == MeasureV::Skipped("unsupported platform"@),
        r.debugger_deny@ == MeasureV::Skipped("unsupported platform"@),
        r.platform@ == "unknown"@,
{
    HardenStatus {
        core_dump: Measure::Skipped("unsupported platform"),
        mlock: Measure::Skipped("unsupported platform"),
        debugger_deny: Measure::Skipped("unsupported platform"),
        platform: "unknown",
    }
}

/// The status of the process, which is set once.
pub struct Hardening {
    found: Option<HardenStatus>,
}

impl Hardening {
    /// The status that was set.
    pub closed spec fn found(&self) -> Option<HardenStatus> {
        self.found
    }

    /// Nothing is set yet.
    pub fn new() -> (r: Self)
        ensures
            r.found() is None,
    {
        Hardening { found: None }
    }
}

/// Sets the status of the process. A status that is already set stays.
pub fn harden(cell: &mut Hardening, applied: HardenStatus) -> (r: &HardenStatus)
    ensures
        final(cell).found() == Some(
            match old(cell).found() {
                Some(s) => s,
                None => applied,
            },
        ),
        final(cell).found() == Some(*r),
{
    if cell.found.is_none() {
        cell.found = Some(applied);
    }
    match &cell.found {
        Some(s) => s,
        None => vstd::pervasive::unreached(),
    }
}

/// The status that was set, if any.
pub fn status(cell: &Hardening) -> (r: Option<&HardenStatus>)
    ensures
        match cell.found() {
            Some(s) => r matches Some(x) && *x == s,
            None => r is None,
        },
{
    cell.found.as_ref()
}

/// Whether a value of `KS_STRICT_HARDEN` asks for strict mode.
pub open spec fn asks_strict(value: Option<Seq<char>>) -> bool {
    match value {
        Some(v) => v == "1"@ || v == "true"@ || v == "TRUE"@ || v == "yes"@ || v == "YES"@,
        None => false,
    }
}

/// Whether strict mode is asked for, given the value of `KS_STRICT_HARDEN`.
pub fn strict_requested(value: Option<&str>) -> (r: bool)
    ensures
        r == asks_strict(
            match value {
                Some(v) => Some(v@),
                None => None,
            },
        ),
{
    match value {
        Some(v) => same_text(v, "1") || same_text(v, "true") || same_text(v, "TRUE") || same_text(
            v,
            "yes",
        ) || same_text(v, "YES"),
        None => false,
    }
}

/// Why the process does not start, if it does not: in strict mode, where a critical
/// measure failed.
pub fn refusal(strict: bool, status: &HardenStatus) -> (r: Option<String>)
    ensures
        r is Some <==> strict && (status.core_dump@ is Failed || status.debugger_deny@ is Failed),
        r matches Some(m) ==> m@
            == "KS_STRICT_HARDEN=1 but critical process hardening failed (core_dump="@
            + measure_text(status.core_dump@) + ", debugger_deny="@ + measure_text(
            status.debugger_deny@,
        ) + ")"@,
{
    if strict && !status.satisfies_strict() {
        let mut m = copy_text(
            "KS_STRICT_HARDEN=1 but critical process hardening failed (core_dump=",
        );
        let core = status.core_dump.detail();
        m.append(core.as_str());
        m.append(", debugger_deny=");
        let debugger = status.debugger_deny.detail();
        m.append(debugger.as_str());
        m.append(")");
        Some(m)
    } else {
        None
    }
}

/// What taking a variable out of an environment gives: its value, if it is set to a
/// text that is not empty.
pub open spec fn taken(env: Variables, name: Seq<char>) -> Option<Seq<char>> {
    if env.contains_key(name) && env[name] is Some && env[name]->0.len() > 0 {
        env[name]
    } else {
        None
    }
}

/// Takes a variable out of an environment. Whatever its value was, the variable is
/// not set afterwards; all others are as they were.
pub fn take_env(env: &mut Environment, name: &str) -> (r: Option<String>)
    requires
        old(env).wf(),
    ensures
        final(env).wf(),
        final(env)@ == old(env)@.remove(name@),
        match taken(old(env)@, name@) {
            Some(v) => r matches Some(s) && s@ == v,
            None => r is None,
        },
{
    match env.remove(name) {
        Some(Some(v)) => if v.as_str().unicode_len() > 0 {
            Some(v)
        } else {
            None
        },
        _ => None,
    }
}

/// A variable that was taken is gone: taking it a second time gives nothing, and
/// taking it changes what no other name gives.
pub proof fn law_taken_once(env: Variables, name: Seq<char>, other: Seq<char>)
    ensures
        !env.remove(name).contains_key(name),
        taken(env.remove(name), name) is None,
        other != name ==> env.remove(name).contains_key(other) == env.contains_key(other)
            && taken(env.remove(name), other) == taken(env, other),
{
}

/// A variable that is set to a text that is not empty gives that text; one that is empty,
/// that is no text or that is not set gives nothing.
pub proof fn law_taken_value(env: Variables, name: Seq<char>, value: Seq<char>)
    ensures
        value.len() > 0 ==> taken(env.insert(name, Some(value)), name) == Some(value),
        taken(env.insert(name, Some(Seq::empty())), name) is None,
        taken(env.insert(name, None), name) is None,
        !env.contains_key(name) ==> taken(env, name) is None,
{
}

/// Strict mode is asked for by one, true or yes, the words in small letters or capitals,
/// and by nothing else.
pub proof fn law_asks_strict(value: Seq<char>)
    ensures
        asks_strict(Some(value)) <==> value == "1"@ || value == "true"@ || value == "TRUE"@ || value
            == "yes"@ || value == "YES"@,
        !asks_strict(None),
{
}

/// The text of a measure says whether it was applied, skipped or failed, and why.
pub proof fn law_measure_text(reason: Seq<char>)
    ensures
        measure_text(MeasureV::Applied) == "applied"@,
        measure_text(MeasureV::Skipped(reason)) == "skipped ("@ + reason + ")"@,
        measure_text(MeasureV::Failed(reason)) == "failed ("@ + reason + ")"@,
{
}

} // verus!
