use ks::crypto::{Identity, Recipient};
use ks::generations::Generations;
use ks::secrets::{load_index, save_index, to_live_file};
use ks::tree::Tree;
use ks::{Config, Error, Secret, SecretKind, Store};

fn config() -> Config {
    Config { identity_path: "/k/identity.age".to_owned(), store_dir: "/k/store".to_owned() }
}

fn create(id: &Identity) -> Store {
    Store::create(config(), Tree::new(), id, &[]).expect("create")
}

fn fresh() -> (Store, Identity) {
    let id = Identity::generate();
    (create(&id), id)
}

/// The store again, after its files were changed behind its back.
fn tampered(store: Store, change: impl FnOnce(&mut Tree)) -> Store {
    let mut t = store.into_tree();
    change(&mut t);
    Store::open(config(), Some(t)).expect("open")
}

fn file(p: &str) -> String {
    to_live_file(p)
}

#[test]
fn set_needs_no_identity_get_does() {
    let (mut store, id) = fresh();
    store.set("github/token", &Secret::new("ghp_xxx\nuser: alice\n")).expect("set");
    let got = store.get("github/token", &id).expect("get");
    assert_eq!(got.password(), "ghp_xxx");
    assert_eq!(got.get("user"), Some("alice"));
    assert_eq!(store.list(""), vec!["github/token".to_owned()]);
}

#[test]
fn rename_and_copy_rebind_path() {
    let (mut store, id) = fresh();
    store.set("a/b", &Secret::new("v")).expect("set");

    store.copy("a/b", "a/c", &id).expect("copy");
    assert!(store.has("a/b") && store.has("a/c"));
    assert_eq!(store.get("a/c", &id).expect("get").password(), "v");

    store.rename("a/b", "x/y", &id).expect("rename");
    assert!(!store.has("a/b") && store.has("x/y"));
    assert_eq!(store.get("x/y", &id).expect("get").password(), "v");
}

#[test]
fn relocating_ciphertext_is_detected_as_tampering() {
    let (mut store, id) = fresh();
    store.set("a", &Secret::new("secret-a")).expect("a");
    store.set("b", &Secret::new("secret-b")).expect("b");
    let store = tampered(store, |t| {
        t.replace(&file("a"), "swap.tmp");
        t.replace(&file("b"), &file("a"));
        t.replace("swap.tmp", &file("b"));
    });
    assert!(matches!(store.get("a", &id), Err(Error::Tampered { .. })));
}

#[test]
fn path_swap_detected_as_tampered() {
    let (mut store, id) = fresh();
    store.set("x/a", &Secret::new("aaa\n")).expect("a");
    store.set("x/b", &Secret::new("bbb\n")).expect("b");
    let store = tampered(store, |t| {
        t.replace(&file("x/a"), "swap.tmp");
        t.replace(&file("x/b"), &file("x/a"));
        t.replace("swap.tmp", &file("x/b"));
    });
    let msg = store.get("x/a", &id).err().expect("tampered").message();
    assert!(
        msg.contains("integrity")
            || msg.contains("bound path")
            || msg.contains("Tampered")
            || msg.contains("tamper"),
        "unexpected error: {msg}"
    );
}

#[test]
fn older_ciphertext_under_newer_index_is_tampered() {
    let (mut store, id) = fresh();
    store.set("p", &Secret::new("v1")).expect("set1");
    let mut t = store.into_tree();
    let old_ct = t.read(&file("p")).expect("read");
    let mut store = Store::open(config(), Some(t)).expect("open");
    store.set("p", &Secret::new("v2")).expect("set2");
    t = store.into_tree();
    t.write(&file("p"), &old_ct);
    let store = Store::open(config(), Some(t)).expect("open");
    assert!(matches!(store.get("p", &id), Err(Error::Tampered { .. })));
}

/// Writes twice, and puts the first ciphertext back; the store and its identity.
fn stale(p: &str, old: &str, new: &str) -> (Store, Identity) {
    let (mut store, id) = fresh();
    store.set(p, &Secret::new(old)).expect("set1");
    let t = store.into_tree();
    let old_ct = t.read(&file(p)).expect("read");
    let mut store = Store::open(config(), Some(t)).expect("open");
    store.set(p, &Secret::new(new)).expect("set2");
    let store = tampered(store, |t| t.write(&file(p), &old_ct));
    (store, id)
}

#[test]
fn older_ciphertext_under_newer_index_is_rejected() {
    let (mut store, id) = stale("p/key", "old\n", "new\n");
    let msg = store.get("p/key", &id).err().expect("refused").message().to_lowercase();
    assert!(
        msg.contains("integrity") || msg.contains("generation") || msg.contains("older"),
        "unexpected: {msg}"
    );
    store.repair_generations(&id).expect("repair");
    assert_eq!(store.get("p/key", &id).expect("get").password(), "old");
}

#[test]
fn repair_recovers_stale_for_local_get() {
    let (mut store, id) = stale("p", "old", "new");
    assert!(store.get("p", &id).is_err());
    let report = store.repair_generations(&id).expect("repair");
    assert!(report.skipped.is_empty());
    assert_eq!(store.get("p", &id).expect("get").password(), "old");
}

#[test]
fn repair_skips_unreadable_and_fixes_others() {
    let (mut store, id) = fresh();
    store.set("good", &Secret::new("g")).expect("good");
    store.set("bad", &Secret::new("b")).expect("bad");
    let t = store.into_tree();
    let good_ct = t.read(&file("good")).expect("r");
    let mut store = Store::open(config(), Some(t)).expect("open");
    store.set("good", &Secret::new("g2")).expect("bump");
    let mut store = tampered(store, |t| {
        t.write(&file("good"), &good_ct);
        t.write(&file("bad"), b"not-age");
    });

    let report = store.repair_generations(&id).expect("repair");
    assert!(report.skipped.iter().any(|p| p == "bad"));
    // good is stale (envelope < index); repair lowers index to envelope gen.
    assert_eq!(store.get("good", &id).expect("good").password(), "g");
    assert!(store.get("bad", &id).is_err());
}

#[test]
fn set_without_repair_at_high_index_writes_h_plus_one() {
    let (mut store, id) = fresh();
    store.set("p", &Secret::new("a")).expect("1");
    store.set("p", &Secret::new("b")).expect("2");
    store.set("p", &Secret::new("c")).expect("3"); // index H=3
    store.set("p", &Secret::new("temp")).expect("temp");
    let t = store.into_tree();
    assert_eq!(load_index(&t).expect("index").get("p"), Some(4)); // last set was gen 4 from temp
    let mut store = Store::open(config(), Some(t)).expect("open");
    store.set("p", &Secret::new("durable")).expect("set");
    assert_eq!(store.get("p", &id).expect("get").password(), "durable");
    assert_eq!(load_index(&store.into_tree()).expect("index").get("p"), Some(5));
}

#[test]
fn set_at_high_index_without_repair_bumps_generation() {
    let (mut store, id) = fresh();
    for v in ["a\n", "b\n", "c\n"] {
        store.set("g/path", &Secret::new(v)).expect("set");
    }
    let t = store.into_tree();
    let stale_ct = t.read(&file("g/path")).expect("read");
    let mut store = Store::open(config(), Some(t)).expect("open");
    store.set("g/path", &Secret::new("newer\n")).expect("set");
    let mut store = tampered(store, |t| {
        let index = String::from_utf8(t.read(".ks-generations").expect("index")).expect("text");
        assert!(index.contains("g/path"), "index should track path: {index}");
        t.write(&file("g/path"), &stale_ct);
    });
    assert!(store.get("g/path", &id).is_err());
    store.set("g/path", &Secret::new("durable\n")).expect("set");
    assert_eq!(store.get("g/path", &id).expect("get").password(), "durable");
    let index = load_index(&store.into_tree()).expect("index");
    assert!(index.get("g/path").expect("gen line") >= 5);
}

#[test]
fn repair_then_set_after_gap_yields_only_l_plus_one() {
    let (mut store, id) = fresh();
    store.set("p", &Secret::new("L1")).expect("1");
    let t = store.into_tree();
    let l1_ct = t.read(&file("p")).expect("ct");
    let mut store = Store::open(config(), Some(t)).expect("open");
    store.set("p", &Secret::new("L2")).expect("2");
    store.set("p", &Secret::new("L3")).expect("3"); // H=3
    let mut store = tampered(store, |t| t.write(&file("p"), &l1_ct));
    // repair → floor L=1; set → gen 2 only (not H+1).
    store.repair_generations(&id).expect("repair");
    store.set("p", &Secret::new("after")).expect("set");
    assert_eq!(load_index(&store.into_tree()).expect("index").get("p"), Some(2));
}

#[test]
fn delete_tombstone_continues_generation() {
    let (mut store, id) = fresh();
    store.set("p", &Secret::new("a")).expect("a");
    store.set("p", &Secret::new("b")).expect("b"); // gen 2
    store.delete("p").expect("del");
    store.set("p", &Secret::new("c")).expect("c"); // gen 3
    assert_eq!(store.get("p", &id).expect("get").password(), "c");
    assert_eq!(load_index(&store.into_tree()).expect("index").get("p"), Some(3));
}

#[test]
fn delete_tombstone_allows_reinsert() {
    let (mut store, id) = fresh();
    store.insert("t/path", &Secret::new("1\n")).expect("insert");
    store.set("t/path", &Secret::new("2\n")).expect("force");
    store.delete("t/path").expect("rm");
    store.insert("t/path", &Secret::new("3\n")).expect("insert");
    assert_eq!(store.get("t/path", &id).expect("show").password(), "3");
}

#[test]
fn binary_secret_roundtrips_through_store() {
    let (mut store, id) = fresh();
    let raw = vec![0u8, b'\n', 0xff, 0x00, b'x'];
    store
        .set("certs/key", &Secret::from_bytes(raw.clone(), SecretKind::Binary))
        .expect("set binary");
    let got = store.get("certs/key", &id).expect("get");
    assert!(got.is_binary());
    assert_eq!(got.as_bytes(), &raw[..]);
}

#[test]
fn grep_paths_then_values() {
    let (mut store, id) = fresh();
    store.set("github/token", &Secret::new("ghp")).expect("s1");
    store.set("aws/key", &Secret::new("secret\nregion: eu-west-1\n")).expect("s2");

    assert_eq!(store.grep("github", None).matches, vec!["github/token"]);
    assert!(store.grep("eu-west", None).matches.is_empty());
    assert_eq!(store.grep("eu-west", Some(&id)).matches, vec!["aws/key"]);
}

#[test]
fn grep_does_not_regard_case() {
    let (mut store, id) = fresh();
    store.set("Git/Token", &Secret::new("\u{c4}PFEL")).expect("set");
    assert_eq!(store.grep("gIT", None).matches, vec!["Git/Token"]);
    assert_eq!(store.grep("\u{e4}pfel", Some(&id)).matches, vec!["Git/Token"]);
}

#[test]
fn grep_values_reports_unreadable_secrets() {
    let (mut store, id) = fresh();
    store.set("ok", &Secret::new("findme")).expect("ok");
    store.set("broken", &Secret::new("findme")).expect("broken");
    let store = tampered(store, |t| t.write(&file("broken"), b"not age"));

    let res = store.grep("findme", Some(&id));
    assert_eq!(res.matches, vec!["ok"]);
    assert_eq!(res.unreadable, vec!["broken"]);
}

#[test]
fn set_recipients_reencrypts_and_guards_lockout() {
    let (mut store, id) = fresh();
    store.set("k", &Secret::new("v")).expect("set");

    let backup = Identity::generate();
    let n = store
        .set_recipients(vec![id.to_public(), backup.to_public()], &id)
        .expect("reencrypt");
    assert_eq!(n, 1);
    assert_eq!(store.get("k", &id).expect("get").password(), "v");

    let stranger = Identity::generate();
    assert!(matches!(
        store.set_recipients(vec![stranger.to_public()], &id),
        Err(Error::InvalidRecipient(_))
    ));
}

#[test]
fn recipients_add_reencrypts() {
    let (mut store, id) = fresh();
    store.set("k", &Secret::new("v\n")).expect("set");
    let other = Identity::generate();
    let added = store
        .set_recipients(vec![id.to_public(), other.to_public()], &id)
        .expect("add");
    assert_eq!(added, 1);
    // Another device has the store's files, and the other identity.
    let reader = Store::open(config(), Some(store.into_tree())).expect("open");
    assert_eq!(reader.get("k", &other).expect("show").password(), "v");
}

#[test]
fn failed_rotation_leaves_store_unchanged() {
    let (mut store, id) = fresh();
    store.set("a", &Secret::new("va")).expect("a");
    store.set("b", &Secret::new("vb")).expect("b");
    let mut t = store.into_tree();
    t.write(&file("b"), b"garbage");
    let a_before = t.read(&file("a")).expect("read a");
    let mut store = Store::open(config(), Some(t)).expect("open");

    let backup = Identity::generate();
    assert!(store.set_recipients(vec![id.to_public(), backup.to_public()], &id).is_err());

    assert_eq!(store.get("a", &id).expect("get a").password(), "va");
    let t = store.into_tree();
    let a_after = t.read(&file("a")).expect("read a");
    assert_eq!(a_before, a_after, "live store must be untouched on rollback");
    assert!(!t.is_present(".ks-rotate"));
}

#[test]
fn repair_generations_rebuilds_index() {
    let (mut store, id) = fresh();
    store.set("a", &Secret::new("1")).expect("a");
    store.set("b", &Secret::new("2")).expect("b");
    // Wipe index.
    let mut store = tampered(store, |t| t.remove(".ks-generations"));
    let report = store.repair_generations(&id).expect("repair");
    assert!(report.entries >= 2);
    assert!(report.skipped.is_empty());
    assert_eq!(store.get("a", &id).expect("a").password(), "1");
    let census = store.generation_census(&id).expect("census");
    assert!(census.fully_protected);
    assert_eq!(census.sealed_count, 2);
}

#[test]
fn wrong_identity_cannot_decrypt() {
    let (mut store, _id) = fresh();
    store.set("k", &Secret::new("secret")).expect("set");
    let stranger = Identity::generate();
    assert!(store.get("k", &stranger).is_err());
    assert!(matches!(store.get("k", &stranger), Err(Error::Decrypt)));
}

#[test]
fn insert_refuses_overwrite() {
    let (mut store, id) = fresh();
    store.insert("k", &Secret::new("a")).expect("insert");
    assert!(matches!(store.insert("k", &Secret::new("b")), Err(Error::SecretExists(_))));
    store.set("k", &Secret::new("b")).expect("set overwrite");
    assert_eq!(store.get("k", &id).expect("get").password(), "b");
}

#[test]
fn n1_coherent_old_pair_still_reads() {
    // Restoring secret and matching index together succeeds.
    let (mut store, id) = fresh();
    store.set("p", &Secret::new("old")).expect("old");
    let t = store.into_tree();
    let ct = t.read(&file("p")).expect("ct");
    let idx = t.read(".ks-generations").expect("idx");
    let mut store = Store::open(config(), Some(t)).expect("open");
    store.set("p", &Secret::new("new")).expect("new");
    let store = tampered(store, |t| {
        t.write(&file("p"), &ct);
        t.write(".ks-generations", &idx);
    });
    assert_eq!(store.get("p", &id).expect("get").password(), "old");
}

#[test]
fn census_flags_stale_and_lag() {
    let (mut store, id) = fresh();
    store.set("stale", &Secret::new("a")).expect("a");
    let t = store.into_tree();
    let old = t.read(&file("stale")).expect("r");
    let mut store = Store::open(config(), Some(t)).expect("open");
    store.set("stale", &Secret::new("b")).expect("b");
    store.set("lag", &Secret::new("x")).expect("lag");
    let store = tampered(store, |t| {
        t.write(&file("stale"), &old);
        let mut g2 = Generations::default();
        g2.set("stale".into(), 2);
        save_index(t, &g2);
    });

    let census = store.generation_census(&id).expect("census");
    assert!(census.stale_paths.iter().any(|p| p == "stale"));
    assert!(census.missing_index.iter().any(|p| p == "lag"));
    assert!(!census.fully_protected);
}

#[test]
fn list_prefix_and_exists() {
    let (mut store, _id) = fresh();
    store.set("a/b", &Secret::new("1")).expect("1");
    store.set("a/c", &Secret::new("2")).expect("2");
    store.set("z/x", &Secret::new("3")).expect("3");
    assert!(store.has("a/b"));
    assert!(!store.has("missing"));
    let under_a = store.list("a");
    assert_eq!(under_a, vec!["a/b".to_owned(), "a/c".to_owned()]);
}

#[test]
fn rename_refuses_existing_destination() {
    let (mut store, id) = fresh();
    store.set("a", &Secret::new("1")).expect("a");
    store.set("b", &Secret::new("2")).expect("b");
    assert!(matches!(store.rename("a", "b", &id), Err(Error::SecretExists(_))));
}

#[test]
fn invalid_paths_rejected() {
    let (mut store, id) = fresh();
    for bad in ["../escape", "/abs", "a//b", "a/./b", "CON", ""] {
        let r = store.insert(bad, &Secret::new("x\n"));
        assert!(matches!(r, Err(Error::InvalidPath(_))), "path `{bad}` should be rejected");
        assert!(matches!(store.set(bad, &Secret::new("x")), Err(Error::InvalidPath(_))));
        assert!(matches!(store.get(bad, &id), Err(Error::InvalidPath(_))));
        assert!(matches!(store.delete(bad), Err(Error::InvalidPath(_))));
    }
}

#[test]
fn what_is_not_there_is_not_found() {
    let (mut store, id) = fresh();
    assert!(matches!(store.get("x", &id), Err(Error::SecretNotFound(_))));
    assert!(matches!(store.delete("x"), Err(Error::SecretNotFound(_))));
    assert!(matches!(store.rename("x", "y", &id), Err(Error::SecretNotFound(_))));
    assert!(matches!(store.copy("x", "y", &id), Err(Error::SecretNotFound(_))));
}

#[test]
fn opening_and_creating_check_the_directory() {
    let id = Identity::generate();
    match Store::open(config(), None) {
        Err(Error::StoreNotFound(d)) => assert_eq!(d, "/k/store"),
        _ => panic!("must refuse"),
    }
    assert!(matches!(Store::open(config(), Some(Tree::new())), Err(Error::NoRecipients)));
    let store = create(&id);
    assert_eq!(store.root(), "/k/store");
    assert!(store.is_writable());
    let t = store.into_tree();
    match Store::create(config(), t, &id, &[]) {
        Err(Error::StoreExists(d)) => assert_eq!(d, "/k/store"),
        _ => panic!("must refuse"),
    }
    let mut t = Tree::new();
    t.load(".age-recipients".to_owned(), b"nonsense\n".to_vec(), false);
    assert!(matches!(Store::open(config(), Some(t)), Err(Error::InvalidRecipient(_))));
    let mut t = Tree::new();
    t.load(".age-recipients".to_owned(), vec![0xff], false);
    assert!(matches!(Store::open(config(), Some(t)), Err(Error::InvalidData(_))));
}

#[test]
fn a_created_store_opens_with_its_recipients() {
    let id = Identity::generate();
    let other = Identity::generate();
    let extra = [other.to_public(), id.to_public(), other.to_public()];
    let store = Store::create(config(), Tree::new(), &id, &extra).expect("create");
    let texts = |s: &Store| -> Vec<String> {
        s.recipients().iter().map(|r: &Recipient| r.as_str().to_owned()).collect()
    };
    let before = texts(&store);
    assert_eq!(
        before,
        vec![id.to_public().as_str().to_owned(), other.to_public().as_str().to_owned()]
    );
    let store = Store::open(config(), Some(store.into_tree())).expect("open");
    assert_eq!(texts(&store), before);
}

#[test]
fn weak_recipients_make_a_store_read_only() {
    let id = Identity::generate();
    let weak = Recipient::parse("age1qqqqqqqqqqqqqqqqqqqqqqqqqqqqqqqqqqqqqqqqqqqqqqqqqqqq5cu47z");
    let store = Store::create(config(), Tree::new(), &id, &[weak.expect("parse")]).expect("create");
    assert!(!store.is_writable());
}

#[test]
fn a_write_leaves_other_secrets() {
    let (mut store, id) = fresh();
    store.set("a", &Secret::new("1")).expect("a");
    store.set("b", &Secret::new("2")).expect("b");
    store.set("a", &Secret::new("3")).expect("a");
    assert_eq!(store.get("b", &id).expect("b").password(), "2");
    store.delete("a").expect("del");
    assert_eq!(store.get("b", &id).expect("b").password(), "2");
    let t = store.into_tree();
    assert_eq!(load_index(&t).expect("index").get("a"), Some(2));
    assert_eq!(load_index(&t).expect("index").get("b"), Some(1));
}

#[test]
fn a_repair_keeps_tombstones() {
    let (mut store, id) = fresh();
    store.set("gone", &Secret::new("1")).expect("set");
    store.set("gone", &Secret::new("2")).expect("set");
    store.delete("gone").expect("del");
    store.set("kept", &Secret::new("3")).expect("set");
    let report = store.repair_generations(&id).expect("repair");
    assert_eq!(report.entries, 2);
    let census = store.generation_census(&id).expect("census");
    assert_eq!(census.tombstone_count, 1);
    assert_eq!(census.sealed_count, 1);
    assert!(census.fully_protected);
    assert_eq!(load_index(&store.into_tree()).expect("index").get("gone"), Some(2));
}

#[test]
fn a_lagging_index_is_read_and_reported() {
    let (mut store, id) = fresh();
    store.set("p", &Secret::new("1")).expect("set");
    store.set("p", &Secret::new("2")).expect("set");
    let store = tampered(store, |t| {
        let mut g = Generations::default();
        g.set("p".into(), 1);
        save_index(t, &g);
    });
    assert_eq!(store.get("p", &id).expect("get").password(), "2");
    assert_eq!(store.generation_census(&id).expect("census").lag_paths, vec!["p"]);
}

#[test]
fn links_and_hidden_names_are_not_listed() {
    let (mut store, _id) = fresh();
    store.set("a/b", &Secret::new("1")).expect("set");
    let store = tampered(store, |t| {
        t.load("linked.age".to_owned(), b"x".to_vec(), true);
        t.load(".hidden/x.age".to_owned(), b"x".to_vec(), false);
        t.load("note.txt".to_owned(), b"x".to_vec(), false);
    });
    assert_eq!(store.list(""), vec!["a/b"]);
}

#[test]
fn fields_and_values_of_a_secret() {
    let s = Secret::new("value\r\nuser : alice\nurl:https://x:1\nuser: bob");
    assert_eq!(s.password(), "value");
    assert_eq!(s.get("user"), Some("alice"));
    assert_eq!(s.get("url"), Some("https://x:1"));
    assert_eq!(s.get("value"), None);
    assert_eq!(Secret::new("").password(), "");
    let b = Secret::from_bytes(vec![0xff], SecretKind::Binary);
    assert_eq!(b.expose(), "");
}

#[test]
fn files_in_the_way_are_refused() {
    let (mut store, id) = fresh();
    store.set("a", &Secret::new("v")).expect("set");
    assert!(matches!(
        store.set("a.age/b", &Secret::new("w")),
        Err(Error::NotAFile(n)) if n == "a.age/b.age"
    ));
    assert!(matches!(store.insert("a.age/b", &Secret::new("w")), Err(Error::NotAFile(_))));
    assert!(matches!(store.copy("a", "a.age/b", &id), Err(Error::NotAFile(_))));
    store.set("d.age/e", &Secret::new("x")).expect("set");
    assert!(matches!(
        store.set("d", &Secret::new("w")),
        Err(Error::NotAFile(n)) if n == "d.age"
    ));
    assert_eq!(store.list(""), vec!["a".to_owned(), "d.age/e".to_owned()]);
    assert_eq!(store.get("a", &id).expect("get").password(), "v");
}

#[test]
fn moves_stop_where_a_file_is_in_the_way() {
    let (mut store, id) = fresh();
    store.set("a", &Secret::new("v")).expect("a");
    store.set("b", &Secret::new("w")).expect("b");
    assert!(matches!(
        store.rename("a", "b.age/c", &id),
        Err(Error::NotAFile(n)) if n == "b.age/c.age"
    ));
    assert_eq!(store.get("a", &id).expect("get").password(), "v");
    // The move is committed and waits for what is in its way to go.
    assert!(matches!(store.recover_move(&id), Err(Error::NotAFile(_))));
    store.delete("b").expect("delete");
    store.recover_move(&id).expect("recover");
    assert!(!store.has("a"));
    assert_eq!(store.get("b.age/c", &id).expect("get").password(), "v");
}

#[test]
fn journals_need_their_directory() {
    let (mut store, id) = fresh();
    store.set("a", &Secret::new("v")).expect("a");
    let mut store = tampered(store, |t| {
        t.load(".ks-move".to_owned(), Vec::new(), false);
        t.load(".ks-rotate".to_owned(), Vec::new(), false);
    });
    assert!(matches!(store.rename("a", "b", &id), Err(Error::NotAFile(_))));
    assert!(matches!(
        store.set_recipients(vec![id.to_public()], &id),
        Err(Error::NotAFile(_))
    ));
    assert_eq!(store.get("a", &id).expect("get").password(), "v");
}

#[test]
fn index_that_is_a_directory_is_refused() {
    let (mut store, id) = fresh();
    store.set("a", &Secret::new("v")).expect("set");
    let mut store = tampered(store, |t| {
        t.remove(".ks-generations");
        t.load(".ks-generations/".to_owned(), Vec::new(), false);
    });
    let refused = |e: Error| matches!(e, Error::NotAFile(n) if n == ".ks-generations");
    assert!(refused(store.get("a", &id).err().expect("get")));
    assert!(refused(store.set("a", &Secret::new("w")).err().expect("set")));
    assert!(refused(store.insert("b", &Secret::new("w")).err().expect("insert")));
    assert!(refused(store.copy("a", "b", &id).err().expect("copy")));
    assert!(refused(store.rename("a", "b", &id).err().expect("rename")));
    assert!(refused(store.set_recipients(vec![id.to_public()], &id).err().expect("rotate")));
    assert!(refused(store.repair_generations(&id).err().expect("repair")));
    assert!(refused(store.generation_census(&id).err().expect("census")));
    let mut store = tampered(store, |t| t.remove_tree(".ks-generations"));
    assert_eq!(store.get("a", &id).expect("get").password(), "v");
    // A secret that makes a directory of the index's name is written without it.
    assert!(refused(store.set(".ks-generations/x", &Secret::new("w")).err().expect("set")));
    assert!(store.has(".ks-generations/x"));
    assert!(load_index(&store.into_tree()).is_err());
}

#[test]
fn strangers_are_refused() {
    let (mut store, id) = fresh();
    let other = Identity::generate();
    store.set("a", &Secret::new("v")).expect("set");
    assert!(matches!(store.get("a", &other), Err(Error::Decrypt)));
    let both = vec![id.to_public(), other.to_public()];
    assert_eq!(store.set_recipients(both, &id).expect("share"), 1);
    assert_eq!(store.get("a", &other).expect("get").password(), "v");
    assert_eq!(store.set_recipients(vec![id.to_public()], &id).expect("revoke"), 1);
    assert!(matches!(store.get("a", &other), Err(Error::Decrypt)));
    store.copy("a", "b", &id).expect("copy");
    store.rename("a", "c", &id).expect("rename");
    assert!(matches!(store.get("b", &other), Err(Error::Decrypt)));
    assert!(matches!(store.get("c", &other), Err(Error::Decrypt)));
    assert_eq!(store.get("c", &id).expect("get").password(), "v");
}

#[test]
fn stores_without_secrets_take_any_recipient() {
    let (mut store, id) = fresh();
    let weak = "age1qqqqqqqqqqqqqqqqqqqqqqqqqqqqqqqqqqqqqqqqqqqqqqqqqqqq5cu47z";
    let list = vec![id.to_public(), Recipient::parse(weak).expect("parse")];
    assert_eq!(store.set_recipients(list, &id).expect("set"), 0);
    assert!(!store.is_writable());
    assert!(matches!(store.set("/", &Secret::new("v")), Err(Error::InvalidPath(_))));
    assert!(matches!(store.relocate_paths("a", "b"), Err(Error::SecretNotFound(_))));
}

#[test]
fn weak_recipients_do_not_hide_other_errors() {
    let (mut store, id) = fresh();
    store.set("a", &Secret::new("v")).expect("set");
    let weak = "age1qqqqqqqqqqqqqqqqqqqqqqqqqqqqqqqqqqqqqqqqqqqqqqqqqqqq5cu47z";
    let mut store = tampered(store, |t| {
        let list = format!("{}\n{weak}\n", id.to_public().as_str());
        t.write(".age-recipients", list.as_bytes());
    });
    assert!(!store.is_writable());
    let other = Identity::generate();
    assert!(matches!(store.copy("a", "b", &other), Err(Error::Decrypt)));
    assert!(matches!(store.rename("a", "b", &other), Err(Error::Decrypt)));
    let keys = vec![other.to_public(), Recipient::parse(weak).expect("parse")];
    assert!(matches!(store.set_recipients(keys, &other), Err(Error::Decrypt)));
    assert!(matches!(store.check_source("a", &other), Err(Error::Decrypt)));
    assert!(store.check_source("a", &id).is_ok() && store.has_index());
    let mut store = tampered(store, |t| {
        t.remove(".ks-generations");
        t.load(".ks-generations/".to_owned(), Vec::new(), false);
    });
    assert!(!store.has_index());
    assert!(matches!(store.set("a", &Secret::new("w")), Err(Error::NotAFile(_))));
    assert!(matches!(store.insert("b", &Secret::new("w")), Err(Error::NotAFile(_))));
}
