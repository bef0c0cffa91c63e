//! The clipboard: putting a value there, and clearing it after a while.
//!
//! A detached helper process clears the clipboard; it gets the value over its
//! standard input. Who sets the value depends on the platform. On Windows the
//! invoking process does, and the helper must not hold the clipboard open while it
//! waits. Elsewhere the contents live only as long as the process that set them, so
//! the helper sets the value and stays.
//!
//! This module decides what is done next; the caller does it.

use vstd::prelude::*;

use crate::envelope;
use crate::envelope::parse_generation;
use crate::text;
use crate::text::same_text;

verus! {

/// The hidden argument that starts the helper.
pub const CLEAR_ARG: &'static str = "__clipclear";

/// How long a value stays where nothing else is said.
pub const CLEAR_SECS: u64 = 45;

/// The number of seconds that an argument says: ASCII digits, with a plus sign
/// before them or not.
pub open spec fn seconds_in(arg: Seq<u8>) -> Option<u64> {
    let digits = if arg.len() > 0 && arg[0] == 43 {
        arg.skip(1)
    } else {
        arg
    };
    match envelope::generation_of(digits) {
        Ok(n) => Some(n),
        Err(_) => None,
    }
}

/// How long the helper waits, given its argument.
pub fn clear_secs(arg: Option<&str>) -> (r: u64)
    ensures
        r == (match arg {
            Some(s) => match seconds_in(vstd::utf8::encode_utf8(s@)) {
                Some(n) => n,
                None => CLEAR_SECS,
            },
            None => CLEAR_SECS,
        }),
{
    match arg {
        None => CLEAR_SECS,
        Some(s) => {
            let bytes = s.as_bytes();
            let digits = if bytes.len() > 0 && bytes[0] == 43 {
                let rest = vstd::slice::slice_subrange(bytes, 1, bytes.len());
                assert(rest@ =~= bytes@.skip(1));
                rest
            } else {
                bytes
            };
            match parse_generation(digits) {
                Ok(n) => n,
                Err(_) => CLEAR_SECS,
            }
        },
    }
}

// ---------------------------------------------------------------------------
// Putting a value there
// ---------------------------------------------------------------------------

/// What copying a value does next.
#[derive(Debug, Clone, Copy, PartialEq, Eq, Structural)]
pub enum CopyAction {
    /// Put the value on the clipboard.
    Place,
    /// Start the helper.
    Spawn,
    /// It is done.
    Done,
    /// The clipboard could not be reached.
    Fail,
}

/// What came of the last action.
#[derive(Debug, Clone, Copy, PartialEq, Eq, Structural)]
pub enum CopyEvent {
    /// Nothing was done yet.
    Start,
    /// The value was to be put there before the helper was tried; whether it was.
    PlacedFirst(bool),
    /// The helper was to be started; whether it was.
    Spawned(bool),
    /// The value was to be put there after the helper failed; whether it was.
    PlacedLast(bool),
}

/// What copying a value does next. On Windows the value is put there first. The
/// helper is started; where that fails, the value is at least put there.
pub open spec fn copy_next(windows: bool, event: CopyEvent) -> CopyAction {
    match event {
        CopyEvent::Start => if windows {
            CopyAction::Place
        } else {
            CopyAction::Spawn
        },
        CopyEvent::PlacedFirst(ok) => if ok {
            CopyAction::Spawn
        } else {
            CopyAction::Fail
        },
        CopyEvent::Spawned(ok) => if ok || windows {
            CopyAction::Done
        } else {
            CopyAction::Place
        },
        CopyEvent::PlacedLast(ok) => if ok {
            CopyAction::Done
        } else {
            CopyAction::Fail
        },
    }
}

/// Decides what copying a value does next.
pub fn copy_with_autoclear(windows: bool, event: CopyEvent) -> (r: CopyAction)
    ensures
        r == copy_next(windows, event),
{
    match event {
        CopyEvent::Start => if windows {
            CopyAction::Place
        } else {
            CopyAction::Spawn
        },
        CopyEvent::PlacedFirst(ok) => if ok {
            CopyAction::Spawn
        } else {
            CopyAction::Fail
        },
        CopyEvent::Spawned(ok) => if ok || windows {
            CopyAction::Done
        } else {
            CopyAction::Place
        },
        CopyEvent::PlacedLast(ok) => if ok {
            CopyAction::Done
        } else {
            CopyAction::Fail
        },
    }
}

// ---------------------------------------------------------------------------
// Clearing it
// ---------------------------------------------------------------------------

/// Where the helper is.
#[derive(Debug, Clone, Copy, PartialEq, Eq, Structural)]
pub enum ClearState {
    /// It reads the value.
    Reading,
    /// It opens the clipboard to set the value.
    Holding,
    /// It sets the value.
    Setting,
    /// It waits.
    Waiting,
    /// It opens the clipboard to clear it.
    Opening,
    /// It looks at what is there.
    Looking,
    /// It clears the clipboard.
    Clearing,
    /// It is done.
    Stopped,
}

/// What came of what the helper did.
pub enum ClearEvent<'a> {
    /// It worked.
    Worked,
    /// It failed.
    Failed,
    /// What was on the clipboard.
    Found(&'a str),
}

/// Whether the helper found the value still there.
pub open spec fn still_there(event: ClearEvent, value: Seq<char>) -> bool {
    match event {
        ClearEvent::Found(s) => s@ == value,
        _ => false,
    }
}

/// Where the helper goes from a state. A failure stops it. On Windows it waits
/// before it opens the clipboard; elsewhere it sets the value and holds it while it
/// waits. It clears the clipboard only if the value is still there.
pub open spec fn clear_next(
    windows: bool,
    state: ClearState,
    event: ClearEvent,
    value: Seq<char>,
) -> ClearState {
    if event is Failed {
        ClearState::Stopped
    } else {
        match state {
            ClearState::Reading => if windows {
                ClearState::Waiting
            } else {
                ClearState::Holding
            },
            ClearState::Holding => ClearState::Setting,
            ClearState::Setting => ClearState::Waiting,
            ClearState::Waiting => if windows {
                ClearState::Opening
            } else {
                ClearState::Looking
            },
            ClearState::Opening => ClearState::Looking,
            ClearState::Looking => if still_there(event, value) {
                ClearState::Clearing
            } else {
                ClearState::Stopped
            },
            ClearState::Clearing => ClearState::Stopped,
            ClearState::Stopped => ClearState::Stopped,
        }
    }
}

/// Decides where the helper goes from a state.
pub fn run_clear_daemon(windows: bool, state: ClearState, event: ClearEvent, value: &str) -> (r:
    ClearState)
    ensures
        r == clear_next(windows, state, event, value@),
{
    let found = match event {
        ClearEvent::Failed => {
            return ClearState::Stopped;
        },
        ClearEvent::Worked => false,
        ClearEvent::Found(s) => same_text(s, value),
    };
    match state {
        ClearState::Reading => if windows {
            ClearState::Waiting
        } else {
            ClearState::Holding
        },
        ClearState::Holding => ClearState::Setting,
        ClearState::Setting => ClearState::Waiting,
        ClearState::Waiting => if windows {
            ClearState::Opening
        } else {
            ClearState::Looking
        },
        ClearState::Opening => ClearState::Looking,
        ClearState::Looking => if found {
            ClearState::Clearing
        } else {
            ClearState::Stopped
        },
        ClearState::Clearing => ClearState::Stopped,
        ClearState::Stopped => ClearState::Stopped,
    }
}

/// The clipboard is cleared only if it was looked at and still held the value.
pub proof fn law_only_own_value_is_cleared(
    windows: bool,
    state: ClearState,
    event: ClearEvent,
    value: Seq<char>,
)
    ensures
        clear_next(windows, state, event, value) == ClearState::Clearing ==> state
            == ClearState::Looking && (event matches ClearEvent::Found(s) && s@ == value),
{
}

/// On Windows the helper never holds the clipboard open while it waits, and never
/// sets the value.
pub proof fn law_windows_helper_waits_first(
    state: ClearState,
    event: ClearEvent,
    value: Seq<char>,
)
    requires
        state != ClearState::Holding,
        state != ClearState::Setting,
    ensures
        clear_next(true, state, event, value) != ClearState::Holding,
        clear_next(true, state, event, value) != ClearState::Setting,
        clear_next(true, state, event, value) == ClearState::Waiting ==> state
            == ClearState::Reading,
{
}

/// A value that is still on the clipboard when the helper looks is cleared: where
/// everything works, the helper comes to look after it has waited, and then clears.
pub proof fn law_own_value_is_cleared(windows: bool, found: ClearEvent, value: Seq<char>)
    requires
        found matches ClearEvent::Found(s) && s@ == value,
    ensures
        clear_next(windows, ClearState::Looking, found, value) == ClearState::Clearing,
        ({
            let one = clear_next(windows, ClearState::Reading, ClearEvent::Worked, value);
            let two = clear_next(windows, one, ClearEvent::Worked, value);
            let three = clear_next(windows, two, ClearEvent::Worked, value);
            let four = clear_next(windows, three, ClearEvent::Worked, value);
            &&& windows ==> one == ClearState::Waiting && two == ClearState::Opening && three
                == ClearState::Looking
            &&& !windows ==> one == ClearState::Holding && two == ClearState::Setting && three
                == ClearState::Waiting && four == ClearState::Looking
        }),
        clear_next(windows, ClearState::Clearing, ClearEvent::Worked, value)
            == ClearState::Stopped,
{
}

/// Another value is left alone, and whatever fails stops the helper.
pub proof fn law_helper_stops(windows: bool, state: ClearState, event: ClearEvent, value: Seq<char>)
    ensures
        clear_next(windows, state, ClearEvent::Failed, value) == ClearState::Stopped,
        !(event matches ClearEvent::Found(s) && s@ == value) ==> clear_next(
            windows,
            ClearState::Looking,
            event,
            value,
        ) == ClearState::Stopped,
        clear_next(windows, ClearState::Stopped, event, value) == ClearState::Stopped,
{
}

/// Copying is done only when a helper was started or the value was put on the clipboard;
/// it fails only when the value could not be put there. On Windows the helper is not
/// started before the value is there.
pub proof fn law_copy_places_the_value(windows: bool, event: CopyEvent)
    ensures
        copy_next(windows, event) == CopyAction::Done ==> event == CopyEvent::Spawned(true)
            || event == CopyEvent::PlacedLast(true) || (windows && event is Spawned),
        copy_next(windows, event) == CopyAction::Fail <==> event == CopyEvent::PlacedFirst(false)
            || event == CopyEvent::PlacedLast(false),
        copy_next(true, CopyEvent::Start) == CopyAction::Place,
        copy_next(false, CopyEvent::Start) == CopyAction::Spawn,
        copy_next(windows, CopyEvent::PlacedFirst(true)) == CopyAction::Spawn,
        copy_next(windows, CopyEvent::Spawned(true)) == CopyAction::Done,
        copy_next(true, CopyEvent::Spawned(false)) == CopyAction::Done,
        copy_next(false, CopyEvent::Spawned(false)) == CopyAction::Place,
        copy_next(windows, CopyEvent::PlacedLast(true)) == CopyAction::Done,
{
}

/// A number of seconds in decimal is read as that number, with a plus sign before it as
/// well.
pub proof fn law_seconds(n: u64)
    ensures
        seconds_in(text::decimal_bytes(n as nat)) == Some(n),
        seconds_in(seq![43u8] + text::decimal_bytes(n as nat)) == Some(n),
{
    let digits = text::decimal_bytes(n as nat);
    text::lemma_decimal_value(n as nat);
    envelope::law_generation_roundtrip(n);
    assert((seq![43u8] + digits).skip(1) =~= digits);
    assert(digits.len() > 0);
}

} // verus!
