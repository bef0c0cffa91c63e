use ks::crypto::{decrypt, recipients_contain, Identity};
use ks::envelope;
use ks::moves::{MOVE_FROM, MOVE_GEN, MOVE_READY, MOVE_SECRETS, MOVE_TO};
use ks::path::to_file;
use ks::recipients::RECIPIENTS_FILE;
use ks::rotation::{stage_rotation, ROTATE_DIR, ROTATE_READY};
use ks::secrets::{encrypt_secret_to, load_index, load_recipients, to_live_file};
use ks::tree::{Step, Tree};
use ks::{Config, Error, MoveRecovery, RotationRecovery, Secret, Store};

const MOVE_DIR: &str = ".ks-move";

fn config() -> Config {
    Config { identity_path: "/k/identity.age".to_owned(), store_dir: "/k/store".to_owned() }
}

fn fresh() -> (Store, Identity) {
    let id = Identity::generate();
    let store = Store::create(config(), Tree::new(), &id, &[]).expect("create");
    (store, id)
}

fn open(t: Tree) -> Store {
    Store::open(config(), Some(t)).expect("open")
}

#[test]
fn rotation_crash_after_ready_rolls_forward() {
    let (mut store, id) = fresh();
    store.set("k", &Secret::new("v")).expect("set");

    let backup = Identity::generate();
    let target = vec![id.to_public(), backup.to_public()];
    let mut t = store.into_tree();
    stage_rotation(&mut t, &["k".to_owned()], &target, &id).expect("stage");
    assert!(t.is_present(ROTATE_READY));
    let mut recovered = open(t);
    assert!(recovered.get("k", &backup).is_err());
    let t = recovered.into_tree();
    assert!(
        t.is_present(ROTATE_DIR),
        "READY journal must not auto-apply on open without identity"
    );
    recovered = open(t);
    assert_eq!(
        recovered.recover_rotation(&id).expect("authenticated recover"),
        RotationRecovery::Completed
    );
    assert_eq!(recovered.get("k", &id).expect("get").password(), "v");
    assert_eq!(
        recovered.get("k", &backup).expect("backup get").password(),
        "v",
        "the new recipient must be able to decrypt after roll-forward"
    );
    assert_eq!(
        recovered.recover_rotation(&id).expect("idempotent"),
        RotationRecovery::Clean
    );
    let t = recovered.into_tree();
    assert!(!t.is_present(ROTATE_DIR), "staging cleared after recover");
    let recips = load_recipients(&t, RECIPIENTS_FILE).expect("recips");
    assert!(recipients_contain(&recips, &backup.to_public()));
}

#[test]
fn rotation_crash_before_ready_rolls_back() {
    let (mut store, id) = fresh();
    store.set("k", &Secret::new("v")).expect("set");
    let mut t = store.into_tree();
    let live_before = t.read(&to_live_file("k")).expect("read");

    let backup = Identity::generate();
    let target = vec![id.to_public(), backup.to_public()];
    stage_rotation(&mut t, &["k".to_owned()], &target, &id).expect("stage");
    t.remove(ROTATE_READY);

    let recovered = open(t);
    assert_eq!(recovered.get("k", &id).expect("get").password(), "v");
    let t = recovered.into_tree();
    assert!(!t.is_present(ROTATE_DIR), "incomplete staging must be discarded");
    let live_after = t.read(&to_live_file("k")).expect("read");
    assert_eq!(live_before, live_after, "live store must be untouched");
    let recips = load_recipients(&t, RECIPIENTS_FILE).expect("recips");
    assert!(
        !recipients_contain(&recips, &backup.to_public()),
        "a rolled-back rotation must not change recipients"
    );
}

#[test]
fn rename_crash_before_ready_rolls_back() {
    let (mut store, id) = fresh();
    store.set("from", &Secret::new("v")).expect("set");

    // Stage a move without READY.
    let mut t = store.into_tree();
    t.write(MOVE_FROM, b"from");
    t.write(MOVE_TO, b"to");

    let recovered = open(t);
    assert!(recovered.has("from"));
    assert!(!recovered.has("to"));
    assert_eq!(recovered.get("from", &id).expect("get").password(), "v");
    assert!(!recovered.into_tree().is_present(MOVE_DIR));
}

/// Stages a move of `from` to `to`, up to the marker.
fn staged_move(id: &Identity, store: Store, generation: &[u8]) -> Tree {
    let mut t = store.into_tree();
    let next = load_index(&t).expect("index").next("to");
    let plaintext = decrypt(&t.read(&to_live_file("from")).expect("r"), id).expect("d");
    let u = envelope::unwrap("from", plaintext.as_bytes()).expect("u");
    let recips = load_recipients(&t, RECIPIENTS_FILE).expect("recips");
    let ct = encrypt_secret_to("to", u.kind, next, &u.payload, &recips).expect("enc");
    t.write(&to_file(MOVE_SECRETS, "to"), &ct);
    t.write(MOVE_FROM, b"from");
    t.write(MOVE_TO, b"to");
    if generation.is_empty() {
        t.write(MOVE_GEN, next.to_string().as_bytes());
    } else {
        t.write(MOVE_GEN, generation);
    }
    t.write(MOVE_READY, b"");
    t
}

#[test]
fn rename_crash_after_ready_rolls_forward() {
    let (mut store, id) = fresh();
    store.set("from", &Secret::new("v")).expect("set");
    let t = staged_move(&id, store, b"");

    let recovered = open(t);
    let t = recovered.into_tree();
    assert!(t.is_present(MOVE_DIR), "READY rename not applied without identity");
    let mut recovered = open(t);
    assert_eq!(recovered.recover_move(&id).expect("recover"), MoveRecovery::Completed);
    assert!(!recovered.has("from"));
    assert!(recovered.has("to"));
    assert_eq!(recovered.get("to", &id).expect("get").password(), "v");
    assert!(!recovered.into_tree().is_present(MOVE_DIR));
}

#[test]
fn a_committed_move_that_does_not_fit_is_refused() {
    let (mut store, id) = fresh();
    store.set("from", &Secret::new("v")).expect("set");
    let mut t = staged_move(&id, store, b"+1");
    let mut store = open(copy_of(&t));
    assert!(matches!(store.recover_move(&id), Err(Error::InvalidData(_))));
    assert!(store.has("from") && !store.has("to"));

    t.write(MOVE_GEN, b"1");
    let staged = to_file(MOVE_SECRETS, "to");
    let other = t.read(&to_live_file("from")).expect("read");
    t.write(&staged, &other);
    let mut store = open(copy_of(&t));
    assert!(matches!(store.recover_move(&id), Err(Error::Tampered { .. })));

    t.remove(&staged);
    let mut store = open(t);
    match store.recover_move(&id) {
        Err(Error::InvalidData(m)) => {
            assert!(m.contains("no staged or live destination ciphertext"));
        }
        _ => panic!("must refuse"),
    }
    assert_eq!(store.get("from", &id).expect("get").password(), "v");
}

#[test]
fn a_committed_rotation_without_ones_own_key_is_refused() {
    let (mut store, id) = fresh();
    store.set("k", &Secret::new("v")).expect("set");
    let stranger = Identity::generate();
    let mut t = store.into_tree();
    stage_rotation(&mut t, &["k".to_owned()], &[stranger.to_public()], &id).expect("stage");
    let mut store = open(t);
    match store.recover_rotation(&id) {
        Err(Error::InvalidRecipient(m)) => assert!(m.contains("excludes your public key")),
        _ => panic!("must refuse"),
    }
    assert_eq!(store.get("k", &id).expect("get").password(), "v");
}

fn apply(t: &mut Tree, step: &Step) {
    match step {
        Step::Write { file, data } => t.write(file, data),
        Step::Remove { file, .. } => t.remove(file),
        Step::Replace { from, to } => t.replace(from, to),
        Step::RemoveTree { dir } => t.remove_tree(dir),
    }
}

fn copy_of(t: &Tree) -> Tree {
    let mut c = Tree::new();
    for i in 0..t.len() {
        let (name, linked) = t.entry(i);
        c.load(name.to_owned(), t.read(name).expect("read"), linked);
    }
    c
}

fn names(t: &Tree) -> Vec<(String, Vec<u8>)> {
    let mut all: Vec<_> = (0..t.len())
        .map(|i| (t.entry(i).0.to_owned(), t.read(t.entry(i).0).expect("read")))
        .collect();
    all.sort();
    all
}

#[test]
fn a_move_can_be_interrupted_anywhere() {
    let (mut store, id) = fresh();
    store.set("d/from", &Secret::new("v")).expect("set");
    store.set("other", &Secret::new("o")).expect("set");
    store.take_steps();
    let before = store.into_tree();
    let mut store = open(copy_of(&before));
    store.rename("d/from", "e/to", &id).expect("rename");
    let steps = store.take_steps();
    let after = store.into_tree();
    let marker = steps
        .iter()
        .position(|s| matches!(s, Step::Write { file, .. } if file == MOVE_READY))
        .expect("marker");
    for k in 0..=steps.len() {
        let mut t = copy_of(&before);
        for s in &steps[..k] {
            apply(&mut t, s);
        }
        let mut store = open(t);
        store.recover_move(&id).expect("recover");
        assert_eq!(store.recover_move(&id).expect("again"), MoveRecovery::Clean);
        let expected = if k <= marker { &before } else { &after };
        assert_eq!(names(&store.into_tree()), names(expected), "after {} steps", k);
    }
}

#[test]
fn a_rotation_can_be_interrupted_anywhere() {
    let (mut store, id) = fresh();
    store.set("a", &Secret::new("1")).expect("set");
    store.set("b/c", &Secret::new("2")).expect("set");
    store.take_steps();
    let before = store.into_tree();
    let backup = Identity::generate();
    let mut store = open(copy_of(&before));
    let list = vec![id.to_public(), backup.to_public()];
    assert_eq!(store.set_recipients(list, &id).expect("rotate"), 2);
    let steps = store.take_steps();
    let after = store.into_tree();
    let marker = steps
        .iter()
        .position(|s| matches!(s, Step::Write { file, .. } if file == ROTATE_READY))
        .expect("marker");
    for k in 0..=steps.len() {
        let mut t = copy_of(&before);
        for s in &steps[..k] {
            apply(&mut t, s);
        }
        let mut store = open(t);
        store.recover_rotation(&id).expect("recover");
        assert_eq!(store.recover_rotation(&id).expect("again"), RotationRecovery::Clean);
        let expected = if k <= marker { &before } else { &after };
        assert_eq!(names(&store.into_tree()), names(expected), "after {} steps", k);
    }
}

#[test]
fn a_rotation_keeps_generations() {
    let (mut store, id) = fresh();
    store.set("a", &Secret::new("1")).expect("set");
    store.set("a", &Secret::new("2")).expect("set");
    let backup = Identity::generate();
    store.set_recipients(vec![backup.to_public(), id.to_public()], &id).expect("rotate");
    assert!(store.generation_census(&id).expect("census").fully_protected);
    assert_eq!(store.get("a", &backup).expect("get").password(), "2");
    assert_eq!(load_index(&store.into_tree()).expect("index").get("a"), Some(2));
}

#[test]
fn removing_a_secret_names_the_directories_that_are_empty() {
    let (mut store, _id) = fresh();
    store.set("a/b/c", &Secret::new("1")).expect("set");
    store.set("a/d", &Secret::new("2")).expect("set");
    store.take_steps();
    store.delete("a/b/c").expect("del");
    let steps = store.take_steps();
    assert_eq!(steps.len(), 1);
    match &steps[0] {
        Step::Remove { file, emptied } => {
            assert_eq!(file, "a/b/c.age");
            assert_eq!(emptied, &vec!["a/b".to_owned()]);
        }
        _ => panic!("must remove"),
    }
    assert!(store.take_steps().is_empty());
}

/// The files of two devices together, the index with the lines of both.
fn merge(ours: &Tree, theirs: &Tree) -> Tree {
    let mut t = copy_of(ours);
    for i in 0..theirs.len() {
        let (name, linked) = theirs.entry(i);
        let data = theirs.read(name).expect("read");
        if name == ".ks-generations" {
            let mut both = ours.read(name).unwrap_or_default();
            both.extend_from_slice(&data);
            t.load(name.to_owned(), both, linked);
        } else if !ours.has_file(name) {
            t.load(name.to_owned(), data, linked);
        }
    }
    t
}

#[test]
fn writes_of_two_devices_merge() {
    let (mut store, id) = fresh();
    store.set("shared", &Secret::new("s")).expect("set");
    let base = store.into_tree();
    let mut a = open(copy_of(&base));
    let mut b = open(base);
    a.set("a/only", &Secret::new("from-a\n")).expect("set");
    b.set("b/only", &Secret::new("from-b\n")).expect("set");
    let merged = open(merge(&a.into_tree(), &b.into_tree()));
    assert_eq!(merged.get("a/only", &id).expect("a").password(), "from-a");
    assert_eq!(merged.get("b/only", &id).expect("b").password(), "from-b");
    assert!(merged.generation_census(&id).expect("census").fully_protected);
}

#[test]
fn reinserting_after_a_delete_survives_a_merge() {
    let (mut store, id) = fresh();
    for v in ["v1\n", "v2\n", "v3\n"] {
        store.set("svc/token", &Secret::new(v)).expect("set");
    }
    let base = store.into_tree();
    let mut a = open(copy_of(&base));
    a.delete("svc/token").expect("rm");
    a.insert("svc/token", &Secret::new("after-rm\n")).expect("insert");
    let merged = open(merge(&a.into_tree(), &base));
    assert_eq!(merged.get("svc/token", &id).expect("get").password(), "after-rm");
}

#[test]
fn an_interrupted_write_reads_as_the_new_secret() {
    let (mut store, id) = fresh();
    store.set("p", &Secret::new("old")).expect("set");
    store.take_steps();
    let before = store.into_tree();
    let mut store = open(copy_of(&before));
    store.set("p", &Secret::new("new")).expect("set");
    let steps = store.take_steps();
    assert_eq!(steps.len(), 2);
    let mut t = copy_of(&before);
    apply(&mut t, &steps[0]);
    let store = open(t);
    assert_eq!(store.get("p", &id).expect("get").password(), "new");
    assert_eq!(store.generation_census(&id).expect("census").lag_paths, vec!["p"]);
}

#[test]
fn a_move_resolves_an_interrupted_one_first() {
    let (mut store, id) = fresh();
    store.set("from", &Secret::new("v")).expect("set");
    store.set("x", &Secret::new("w")).expect("set");
    let t = staged_move(&id, store, b"");
    let mut store = open(t);
    store.rename("x", "y", &id).expect("rename");
    assert_eq!(store.get("to", &id).expect("get").password(), "v");
    assert_eq!(store.get("y", &id).expect("get").password(), "w");
    assert!(!store.has("from") && !store.has("x"));
}

#[test]
fn journal_that_is_no_text_is_refused() {
    let id = Identity::generate();
    let store = Store::create(config(), Tree::new(), &id, &[]).expect("create");
    let mut t = store.into_tree();
    t.write(MOVE_FROM, &[b'a', 0xff]);
    t.write(MOVE_READY, b"");
    let mut store = Store::open(config(), Some(t)).expect("open");
    assert!(matches!(
        store.recover_move(&id),
        Err(Error::InvalidData(m)) if m == "invalid utf-8 sequence of 1 bytes from index 1"
    ));
}
