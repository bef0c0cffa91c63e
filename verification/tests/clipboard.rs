use ks::clipboard::{
    clear_secs, copy_with_autoclear, run_clear_daemon, ClearEvent, ClearState, CopyAction,
    CopyEvent, CLEAR_ARG,
};

#[test]
fn seconds_of_the_helper() {
    assert_eq!(CLEAR_ARG, "__clipclear");
    assert_eq!(clear_secs(Some("7")), 7);
    assert_eq!(clear_secs(Some("+7")), 7);
    assert_eq!(clear_secs(Some("-7")), 45);
    assert_eq!(clear_secs(Some("x")), 45);
    assert_eq!(clear_secs(Some("")), 45);
    assert_eq!(clear_secs(None), 45);
}

#[test]
fn copying_elsewhere_leaves_the_value_to_the_helper() {
    assert_eq!(copy_with_autoclear(false, CopyEvent::Start), CopyAction::Spawn);
    assert_eq!(copy_with_autoclear(false, CopyEvent::Spawned(true)), CopyAction::Done);
    assert_eq!(copy_with_autoclear(false, CopyEvent::Spawned(false)), CopyAction::Place);
    assert_eq!(copy_with_autoclear(false, CopyEvent::PlacedLast(true)), CopyAction::Done);
    assert_eq!(copy_with_autoclear(false, CopyEvent::PlacedLast(false)), CopyAction::Fail);
}

#[test]
fn copying_on_windows_places_first() {
    assert_eq!(copy_with_autoclear(true, CopyEvent::Start), CopyAction::Place);
    assert_eq!(copy_with_autoclear(true, CopyEvent::PlacedFirst(true)), CopyAction::Spawn);
    assert_eq!(copy_with_autoclear(true, CopyEvent::PlacedFirst(false)), CopyAction::Fail);
    assert_eq!(copy_with_autoclear(true, CopyEvent::Spawned(false)), CopyAction::Done);
}

fn states(windows: bool, found: &str) -> Vec<ClearState> {
    let mut state = ClearState::Reading;
    let mut seen = Vec::new();
    while state != ClearState::Stopped {
        seen.push(state);
        let event = if state == ClearState::Looking {
            ClearEvent::Found(found)
        } else {
            ClearEvent::Worked
        };
        state = run_clear_daemon(windows, state, event, "value");
    }
    seen
}

#[test]
fn the_helper_clears_its_own_value_only() {
    assert_eq!(
        states(false, "value"),
        vec![
            ClearState::Reading,
            ClearState::Holding,
            ClearState::Setting,
            ClearState::Waiting,
            ClearState::Looking,
            ClearState::Clearing
        ]
    );
    assert!(!states(false, "other").contains(&ClearState::Clearing));
}

#[test]
fn the_windows_helper_waits_before_it_opens() {
    assert_eq!(
        states(true, "value"),
        vec![
            ClearState::Reading,
            ClearState::Waiting,
            ClearState::Opening,
            ClearState::Looking,
            ClearState::Clearing
        ]
    );
    assert_eq!(
        run_clear_daemon(true, ClearState::Opening, ClearEvent::Failed, "value"),
        ClearState::Stopped
    );
}
