use ks::hardening::unix::{
    deny_debugger, disable_core_dumps, lock_memory, Denial, LockAction, MemoryLimit, System,
};
use ks::hardening::environment::Environment;
use ks::hardening::{
    harden, refusal, status, strict_requested, take_env, unix, unsupported, windows, HardenStatus,
    Hardening, Measure,
};

#[test]
fn harden_returns_status() {
    let mut cell = Hardening::new();
    assert!(status(&cell).is_none());
    let s = harden(&mut cell, unsupported()).platform;
    assert!(!s.is_empty());
    // Second call is idempotent.
    let s2 = harden(&mut cell, windows::harden()).platform;
    assert_eq!(s, s2);
    assert_eq!(status(&cell).expect("set").platform, "unknown");
}

#[test]
fn measure_detail_formats() {
    assert_eq!(Measure::Applied.detail(), "applied");
    assert_eq!(Measure::Skipped("reason").detail(), "skipped (reason)");
    assert!(Measure::Failed("x".into()).detail().contains("failed"));
    assert_eq!(Measure::Failed("x".into()).detail(), "failed (x)");
}

fn with(core_dump: Measure, mlock: Measure, debugger_deny: Measure) -> HardenStatus {
    HardenStatus { core_dump, mlock, debugger_deny, platform: "linux" }
}

#[test]
fn strict_mode_ignores_memory() {
    let s = with(Measure::Applied, Measure::Failed("m".into()), Measure::Skipped("s"));
    assert!(s.satisfies_strict());
    assert!(refusal(true, &s).is_none());
    let s = with(Measure::Failed("c".into()), Measure::Applied, Measure::Applied);
    assert!(!s.satisfies_strict());
    assert!(refusal(false, &s).is_none());
    assert_eq!(
        refusal(true, &s).expect("refused"),
        "KS_STRICT_HARDEN=1 but critical process hardening failed (core_dump=failed (c), \
         debugger_deny=applied)"
    );
    let s = with(Measure::Applied, Measure::Applied, Measure::Failed("d".into()));
    assert!(!s.satisfies_strict());
    assert!(!s.debugger_deny.is_ok());
}

#[test]
fn strict_values() {
    for v in ["1", "true", "TRUE", "yes", "YES"] {
        assert!(strict_requested(Some(v)));
    }
    for v in ["0", "True", "", "no", " 1"] {
        assert!(!strict_requested(Some(v)));
    }
    assert!(!strict_requested(None));
}

#[test]
fn empty_environment_values_do_not_count() {
    let mut env = Environment::new();
    env.set("EMPTY".to_owned(), Some(String::new()));
    env.set("BYTES".to_owned(), None);
    assert_eq!(take_env(&mut env, "EMPTY"), None);
    assert_eq!(take_env(&mut env, "BYTES"), None);
    assert_eq!(take_env(&mut env, "ABSENT"), None);
    assert!(!env.has("EMPTY") && !env.has("BYTES"));
}

#[test]
fn environment_values_are_taken_once() {
    let mut env = Environment::new();
    env.set("A".to_owned(), Some("old".to_owned()));
    env.set("A".to_owned(), Some("x".to_owned()));
    env.set("B".to_owned(), Some("y".to_owned()));
    assert_eq!(take_env(&mut env, "A"), Some("x".to_owned()));
    assert!(!env.has("A") && env.has("B"));
    assert_eq!(take_env(&mut env, "A"), None);
    assert_eq!(take_env(&mut env, "B"), Some("y".to_owned()));
}

#[test]
fn memory_is_locked_step_by_step() {
    let (mut lock, first) = lock_memory();
    assert!(matches!(first, LockAction::Query));
    let next = lock.queried(Ok(MemoryLimit { max: 8, unlimited: false }));
    assert!(matches!(next, LockAction::Raise { max: 8 }));
    assert!(matches!(lock.raised(Ok(())), LockAction::Lock { future: false }));
    match lock.locked(Err("no".into())) {
        LockAction::Done(m) => assert_eq!(m.detail(), "failed (mlockall: no)"),
        _ => panic!("must be done"),
    }
    let (mut lock, _) = lock_memory();
    let _ = lock.queried(Ok(MemoryLimit { max: u64::MAX, unlimited: true }));
    assert!(matches!(lock.raised(Ok(())), LockAction::Lock { future: true }));
    match lock.raised(Err("no".into())) {
        LockAction::Done(m) => {
            assert_eq!(m.detail(), "failed (setrlimit RLIMIT_MEMLOCK: no)");
        }
        _ => panic!("must be done"),
    }
    let (mut lock, _) = lock_memory();
    match lock.queried(Err("no".into())) {
        LockAction::Done(m) => {
            assert_eq!(m.detail(), "failed (getrlimit RLIMIT_MEMLOCK: no)");
        }
        _ => panic!("must be done"),
    }
}

#[test]
fn unix_measures() {
    assert_eq!(disable_core_dumps(&Ok(())).detail(), "applied");
    assert_eq!(
        disable_core_dumps(&Err("no".into())).detail(),
        "failed (setrlimit RLIMIT_CORE: no)"
    );
    assert_eq!(deny_debugger(&Denial::Dumpable(Ok(()))).detail(), "applied");
    let busy = Denial::Attach { called: Err("busy".into()), busy: true };
    assert_eq!(deny_debugger(&busy).detail(), "applied");
    let other = Denial::Attach { called: Err("no".into()), busy: false };
    assert_eq!(deny_debugger(&other).detail(), "failed (ptrace PT_DENY_ATTACH: no)");
    assert_eq!(deny_debugger(&Denial::DebugBuild).detail(), "skipped (debug_assertions)");
    assert_eq!(
        deny_debugger(&Denial::Unsupported).detail(),
        "skipped (unsupported unix target)"
    );
    let all = unix::harden(
        &Ok(()),
        Measure::Applied,
        &Denial::Dumpable(Err("no".into())),
        System::Linux,
    );
    assert_eq!(all.platform, "linux");
    assert_eq!(all.debugger_deny.detail(), "failed (prctl PR_SET_DUMPABLE: no)");
    assert_eq!(unix::platform_name(System::MacOs), "macos");
    assert_eq!(unix::platform_name(System::Other), "unix");
}

#[test]
fn windows_measures() {
    let s = windows::harden();
    assert_eq!(s.platform, "windows");
    assert_eq!(s.core_dump.detail(), "applied");
    assert_eq!(s.mlock.detail(), "skipped (no process-wide VirtualLock equivalent)");
    assert_eq!(s.debugger_deny.detail(), "skipped (no portable equivalent)");
}
