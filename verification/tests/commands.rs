use ks::commands::doctor::{self, Report, ReportLine, Scene, Unlock};
use ks::commands::edit::{
    default_editor, editor, editor_failed, original_text, save_edited, wipe_len,
};
use ks::commands::identity::{export_form, exported_messages, imported_messages, ExportForm};
use ks::commands::init::{
    created_messages, enable_git_on_existing, existing_messages, passphrase_source,
    PassphraseSource, Purpose,
};
use ks::commands::message::Message;
use ks::commands::run::{collect, env_name, env_value, split_command};
use ks::commands::sync::{advance, begin, step_args, SyncStep};
use ks::crypto::Identity;
use ks::git::Output;
use ks::hardening::{unsupported, windows};
use ks::secrets::to_live_file;
use ks::tree::Tree;
use ks::{Config, Error, Secret, SecretKind, Store};

fn config() -> Config {
    Config { identity_path: "/k/identity.age".to_owned(), store_dir: "/k/store".to_owned() }
}

fn fresh() -> (Store, Identity) {
    let id = Identity::generate();
    let store = Store::create(config(), Tree::new(), &id, &[]).expect("create");
    (store, id)
}

fn output(success: bool, stdout: &str) -> Output {
    Output {
        success,
        code: Some(if success { 0 } else { 1 }),
        stdout: stdout.as_bytes().to_vec(),
        stderr: Vec::new(),
    }
}

fn strings(list: &[&str]) -> Vec<String> {
    list.iter().map(|s| (*s).to_owned()).collect()
}

fn notes(r: &Report) -> Vec<String> {
    r.lines()
        .iter()
        .filter_map(|l| match l {
            ReportLine::Note(s) => Some(s.clone()),
            ReportLine::Check { .. } => None,
        })
        .collect()
}

fn checks(r: &Report) -> Vec<(String, bool, String)> {
    r.lines()
        .iter()
        .filter_map(|l| match l {
            ReportLine::Check { label, ok, detail } => Some((label.clone(), *ok, detail.clone())),
            ReportLine::Note(_) => None,
        })
        .collect()
}

fn said(messages: &[Message]) -> Vec<String> {
    messages
        .iter()
        .map(|m| match m {
            Message::Success(s) => format!("ok {s}"),
            Message::Info(s) => format!("info {s}"),
            Message::Warn(s) => format!("warn {s}"),
        })
        .collect()
}

#[test]
fn run_injects_env() {
    let (mut store, id) = fresh();
    store.set("db/url", &Secret::new("postgres://local\n")).expect("set");
    let mut warnings = Vec::new();
    let vars = collect(&store, &id, &strings(&["db/url=DATABASE_URL"]), &[], &mut warnings)
        .expect("collect");
    assert_eq!(vars.len(), 1);
    assert_eq!(vars[0].name, "DATABASE_URL");
    assert_eq!(vars[0].value.as_bytes(), b"postgres://local");
    assert!(warnings.is_empty());
}

#[test]
fn prefixes_inject_every_secret_below() {
    let (mut store, id) = fresh();
    store.set("db/main-url", &Secret::new("a\nb")).expect("set");
    store.set("db/user", &Secret::new("u")).expect("set");
    store.set("other", &Secret::new("o")).expect("set");
    let mut warnings = Vec::new();
    let vars = collect(&store, &id, &[], &strings(&["db", "none"]), &mut warnings)
        .expect("collect");
    let names: Vec<_> = vars.iter().map(|v| v.name.as_str()).collect();
    assert_eq!(names, vec!["DB_MAIN_URL", "DB_USER"]);
    assert_eq!(vars[0].value.as_bytes(), b"a");
    assert_eq!(warnings, vec!["no secrets under `none`"]);
    assert_eq!(env_name("a/b-c.d"), "A_B_C.D");
}

#[test]
fn bad_injections_are_refused() {
    let (mut store, id) = fresh();
    store.set("bin", &Secret::from_bytes(vec![1], SecretKind::Binary)).expect("set");
    let mut warnings = Vec::new();
    match collect(&store, &id, &strings(&["bin"]), &[], &mut warnings) {
        Err(Error::InvalidArgument(m)) => assert_eq!(m, "expected `<path>=<NAME>`, got `bin`"),
        _ => panic!("must refuse"),
    }
    match collect(&store, &id, &strings(&["bin=X"]), &[], &mut warnings) {
        Err(Error::InvalidArgument(m)) => {
            assert_eq!(m, "bin is binary; cannot inject as an environment variable");
        }
        _ => panic!("must refuse"),
    }
    assert!(matches!(
        collect(&store, &id, &strings(&["gone=X"]), &[], &mut warnings),
        Err(Error::SecretNotFound(_))
    ));
    assert!(env_value("p", &Secret::new("v")).is_ok());
}

#[test]
fn the_command_to_run_is_split() {
    let (program, args) = split_command(&strings(&["sh", "-c", "true"])).expect("split");
    assert_eq!(program, "sh");
    assert_eq!(args, vec!["-c", "true"]);
    match split_command(&[]) {
        Err(Error::InvalidArgument(m)) => assert_eq!(m, "missing command after `--`"),
        _ => panic!("must refuse"),
    }
}

#[test]
fn editing_saves_what_changed() {
    let (mut store, id) = fresh();
    store.set("a", &Secret::new("old\n")).expect("set");
    let original = original_text(&store, "a", &id).expect("text");
    assert_eq!(original.as_bytes(), b"old\n");
    store.take_steps();
    assert!(!save_edited(&mut store, "a", original.as_bytes(), "old\n").expect("same"));
    assert!(store.take_steps().is_empty());
    assert!(save_edited(&mut store, "a", original.as_bytes(), "new\n").expect("changed"));
    assert_eq!(store.get("a", &id).expect("get").password(), "new");
    store.set("b", &Secret::from_bytes(vec![0], SecretKind::Binary)).expect("set");
    assert!(matches!(original_text(&store, "b", &id), Err(Error::InvalidArgument(_))));
    assert!(matches!(original_text(&store, "c", &id), Err(Error::SecretNotFound(_))));
}

#[test]
fn the_editor_is_chosen() {
    assert_eq!(
        editor(Some("code --wait"), Some("vim"), false),
        ("code".to_owned(), strings(&["--wait"]))
    );
    assert_eq!(editor(None, Some("vim"), false), ("vim".to_owned(), Vec::new()));
    assert_eq!(editor(None, None, false), ("vi".to_owned(), Vec::new()));
    assert_eq!(editor(Some("  "), None, true), ("notepad".to_owned(), Vec::new()));
    assert_eq!(default_editor(true), "notepad");
    assert_eq!(editor_failed("vi").message(), "editor `vi` exited without saving");
    assert_eq!(wipe_len(Some(3), 5), 5);
    assert_eq!(wipe_len(Some(9), 5), 9);
    assert_eq!(wipe_len(None, 5), 5);
}

#[test]
fn sync_commits_before_it_pulls_and_pushes() {
    let mut t = Tree::new();
    match begin(&t, "/k/store") {
        Err(Error::InvalidArgument(m)) => assert_eq!(
            m,
            "/k/store is not a git repository; run `ks init --git` or `ks git init`"
        ),
        _ => panic!("must refuse"),
    }
    t.load(".git/HEAD".to_owned(), Vec::new(), false);
    let mut step = begin(&t, "/k/store").expect("begin");
    let mut seen = Vec::new();
    while step != SyncStep::Done {
        seen.push(step_args(step, "msg")[0].clone());
        step = advance(step, "msg", &output(true, "")).expect("advance");
    }
    assert_eq!(seen, vec!["add", "commit", "pull", "push"]);
    assert_eq!(
        advance(SyncStep::Commit, "m", &output(false, "nothing to commit")).expect("clean"),
        SyncStep::Pull
    );
    assert!(advance(SyncStep::Pull, "m", &output(false, "conflict")).is_err());
}

#[test]
fn half_rotated_stores_are_not_pushed() {
    let mut t = Tree::new();
    t.load(".ks-rotate/READY".to_owned(), Vec::new(), false);
    assert!(begin(&t, "/k/store").is_err());
    t.load(".git/HEAD".to_owned(), Vec::new(), false);
    match begin(&t, "/k/store") {
        Err(Error::InvalidArgument(m)) => {
            assert_eq!(m, "interrupted recipient rotation pending; run ks doctor");
        }
        _ => panic!("must refuse"),
    }
    t.remove_tree(".ks-rotate");
    assert_eq!(begin(&t, "/k/store").expect("begin"), SyncStep::AddAll);
}

#[test]
fn doctor_reports_an_index_that_cannot_be_read() {
    let (store, id) = fresh();
    let mut t = store.into_tree();
    t.load(".ks-generations/".to_owned(), Vec::new(), false);
    let mut report = Report::new();
    doctor::check_generations(true, "/k/store", &mut t, &id, false, &mut report);
    assert_eq!(report.failures(), 1);
    assert!(matches!(
        &report.lines()[0],
        ReportLine::Check { label, ok: false, .. } if label == "generations census"
    ));
    let mut report = Report::new();
    doctor::check_generations(true, "/k/store", &mut t, &id, true, &mut report);
    assert_eq!(report.lines().len(), 1);
    assert!(matches!(
        &report.lines()[0],
        ReportLine::Check { label, ok: false, .. } if label == "repair-generations"
    ));
}

#[test]
fn passphrases_come_from_the_environment_or_a_prompt() {
    assert_eq!(
        passphrase_source(true, true, Purpose::Init).expect("set"),
        PassphraseSource::Environment
    );
    assert_eq!(
        passphrase_source(false, false, Purpose::Import).expect("ask"),
        PassphraseSource::Prompt
    );
    match passphrase_source(false, true, Purpose::Import) {
        Err(Error::InvalidArgument(m)) => {
            assert_eq!(m, "KS_PASSPHRASE is required to import an identity in --json mode");
        }
        _ => panic!("must refuse"),
    }
    match passphrase_source(false, true, Purpose::Init) {
        Err(Error::InvalidArgument(m)) => assert_eq!(
            m,
            "KS_PASSPHRASE is required to set the master passphrase in --json mode"
        ),
        _ => panic!("must refuse"),
    }
}

#[test]
fn missing_passphrase_in_json_fails() {
    let err = passphrase_source(false, true, Purpose::Unlock).err().expect("refused");
    assert!(err.message().contains("KS_PASSPHRASE"));
}

#[test]
fn double_init_refuses_overwrite() {
    let t = Tree::new();
    let err = enable_git_on_existing(&config(), false, true, &t).err().expect("refused");
    let msg = err.message().to_lowercase();
    assert!(msg.contains("exist") || msg.contains("already"), "unexpected: {msg}");
}

#[test]
fn git_is_added_to_an_existing_store() {
    let mut t = Tree::new();
    assert!(enable_git_on_existing(&config(), true, true, &t).expect("add"));
    assert!(matches!(
        enable_git_on_existing(&config(), true, false, &t),
        Err(Error::StoreNotFound(_))
    ));
    t.load(".git/".to_owned(), Vec::new(), false);
    assert!(!enable_git_on_existing(&config(), true, true, &t).expect("there"));
    assert_eq!(
        said(&existing_messages("/s", false)),
        vec!["info Store at /s is already a git repository"]
    );
    assert_eq!(
        said(&existing_messages("/s", true))[0],
        "ok Initialised git repository in existing store at /s"
    );
}

#[test]
fn messages_of_identities() {
    assert_eq!(
        said(&created_messages("/i", "/s", "age1x", true)),
        vec![
            "ok Identity written to /i",
            "ok Store created at /s",
            "info Public key (recipient): age1x",
            "ok Initialised git repository in store"
        ]
    );
    assert_eq!(export_form(false, false), ExportForm::Printed);
    assert_eq!(export_form(true, true), ExportForm::ArmoredFile);
    assert_eq!(export_form(true, false), ExportForm::File);
    assert_eq!(said(&exported_messages("/b"))[0], "ok Identity backup written to /b");
    assert_eq!(
        said(&imported_messages("/i", "age1x")),
        vec!["ok Identity restored to /i", "info Public key (recipient): age1x"]
    );
}

#[test]
fn doctor_repair_mixed_store_skips_corrupt() {
    let (mut store, id) = fresh();
    store.set("good", &Secret::new("ok\n")).expect("good");
    store.set("bad", &Secret::new("ok\n")).expect("bad");
    let t = store.into_tree();
    let good_ct = t.read(&to_live_file("good")).expect("read");
    let mut store = Store::open(config(), Some(t)).expect("open");
    store.set("good", &Secret::new("newer\n")).expect("newer");
    let mut t = store.into_tree();
    t.write(&to_live_file("good"), &good_ct);
    t.write(&to_live_file("bad"), b"not-an-age-file");

    let mut report = Report::new();
    doctor::check_generations(true, "/k/store", &mut t, &id, true, &mut report);
    let found = notes(&report);
    assert!(found.iter().any(|n| n.contains("repaired")), "missing repair note: {:?}", found);
    assert!(
        found.iter().any(|n| n.contains("skipped unreadable")),
        "missing skip note: {:?}",
        found
    );
    let store = Store::open(config(), Some(t)).expect("open");
    assert_eq!(store.get("good", &id).expect("show").password(), "ok");
    assert!(store.get("bad", &id).is_err());
}

#[test]
fn doctor_finds_a_healthy_store() {
    let (mut store, id) = fresh();
    store.set("a", &Secret::new("1")).expect("set");
    let key = id.key_text().to_vec();
    let mut t = store.into_tree();
    let status = windows::harden();
    let scene = Scene {
        hardening: Some(&status),
        identity_path: "/k/identity.age",
        identity_found: true,
        store_dir: "/k/store",
        store_found: true,
        template_fault: "",
        recipients_path: "/k/store/.age-recipients",
        issues: &[],
        enforced: true,
    };
    let mut report = Report::new();
    doctor::survey(&scene, &mut t, &mut report);
    let id = Identity::from_text(key).expect("key");
    let opened = doctor::check_identity(Unlock::Tried(Ok(id)), &t, &mut report).expect("opened");
    doctor::check_secrets(true, "/k/store", &mut t, &opened, &mut report);
    assert!(checks(&report).iter().all(|c| c.1), "{:?}", checks(&report));
    let verdict = doctor::finish(&report);
    assert!(verdict.ok);
    assert_eq!(verdict.code, 0);
    assert_eq!(report.failures(), 0);
}

#[test]
fn doctor_counts_failures() {
    let mut report = Report::new();
    report.check("a", true, "fine");
    report.check("b", false, "broken");
    report.note("by the way");
    assert_eq!(report.failures(), 1);
    assert_eq!(
        checks(&report),
        vec![
            ("a".to_owned(), true, "fine".to_owned()),
            ("b".to_owned(), false, "broken".to_owned())
        ]
    );
    assert_eq!(notes(&report), vec!["by the way"]);
    let verdict = doctor::finish(&report);
    assert!(!verdict.ok);
    assert_ne!(verdict.code, 0);
}

#[test]
fn doctor_counts_leftover_files() {
    let mut t = Tree::new();
    t.load("a/x.tmp".to_owned(), Vec::new(), false);
    t.load(".git/y.tmp".to_owned(), Vec::new(), false);
    t.load("b.age".to_owned(), Vec::new(), false);
    assert_eq!(doctor::orphan_temp_count(&t), 1);
    let mut report = Report::new();
    doctor::check_runtime_artifacts(&t, &mut report);
    assert!(!report.lines().is_empty());
    let mut report = Report::new();
    doctor::report_hardening(&mut report, Some(&unsupported()));
    assert!(!report.lines().is_empty());
    assert!(doctor::can_unlock(Some("x"), false));
    assert!(doctor::can_unlock(None, true));
    assert!(!doctor::can_unlock(None, false));
}

#[test]
fn doctor_resolves_committed_journals() {
    let (mut store, id) = fresh();
    store.set("k", &Secret::new("v")).expect("set");
    let mut t = store.into_tree();
    let backup = Identity::generate();
    let list = [id.to_public(), backup.to_public()];
    ks::rotation::stage_rotation(&mut t, &strings(&["k"]), &list, &id).expect("stage");
    let mut report = Report::new();
    doctor::note_pending_journals(&t, &mut report);
    assert!(!report.lines().is_empty());
    let mut report = Report::new();
    doctor::recover_ready_journals(true, "/k/store", &mut t, &id, &mut report);
    assert!(!t.is_present(".ks-rotate"));
    assert_eq!(report.failures(), 0);
    let store = Store::open(config(), Some(t)).expect("open");
    assert_eq!(store.get("k", &backup).expect("get").password(), "v");
}

#[test]
fn doctor_goes_on_where_git_cannot_be_run() {
    let mut report = Report::new();
    let failed = Err(Error::InvalidData("no such program".to_owned()));
    assert_eq!(doctor::report_git(true, &failed, false, &mut report), None);
    assert_eq!(report.failures(), 1);
    assert!(matches!(
        &report.lines()[0],
        ReportLine::Check { label, ok: false, detail }
            if label == "git status" && detail == "no such program"
    ));
    let mut report = Report::new();
    let ran = Ok(output(true, "## main\n M x\n"));
    assert_eq!(
        doctor::report_git(true, &ran, false, &mut report).as_deref(),
        Some("## main\n M x\n")
    );
    assert_eq!(doctor::report_git(true, &ran, true, &mut report), None);
    assert!(matches!(&report.lines()[0], ReportLine::Note(n) if n == "git ## main"));
    assert_eq!(doctor::report_git(false, &failed, true, &mut report), None);
    assert_eq!(report.failures(), 0);
}

#[test]
fn doctor_reports_templates_that_cannot_be_written() {
    let mut t = Tree::new();
    let mut report = Report::new();
    doctor::check_git_templates(false, "no such directory", &mut t, &mut report);
    assert!(matches!(
        &report.lines()[0],
        ReportLine::Check { label, ok: false, detail }
            if label == "git templates" && detail == "no such directory"
    ));
    assert!(t.take_steps().is_empty());
}
