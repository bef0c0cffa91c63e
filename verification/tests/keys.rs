use ks::crypto::{all_usable, decrypt, duplicate_all, encrypt, Identity, Recipient};
use ks::keyfile::{armored_identity, identity_in, load_identity, lock_identity};
use ks::path::{is_valid, validate};
use ks::recipients::{parse_recipients, render_recipients};
use ks::Error;

const KEY: &str = "AGE-SECRET-KEY-1GQ9778VQXMMJVE8SK7J6VT8UJ4HDQAJUVSFCWCM02D8GEWQ72PVQ2Y5J33";
const PUBLIC: &str = "age1t7rxyev2z3rw82stdlrrepyc39nvn86l5078zqkf5uasdy86jp6svpy7pa";

#[test]
fn the_public_key_belongs_to_the_secret_key() {
    let id = Identity::from_text(KEY.as_bytes().to_vec()).expect("key");
    assert_eq!(id.to_public().as_str(), PUBLIC);
    assert_eq!(id.key_text(), KEY.as_bytes());
    assert!(matches!(Identity::from_text(b"nonsense".to_vec()), Err(Error::InvalidIdentity)));
    assert!(matches!(Identity::from_text(vec![0xff]), Err(Error::InvalidIdentity)));
}

#[test]
fn what_is_encrypted_can_be_decrypted_by_every_recipient() {
    let a = Identity::generate();
    let b = Identity::generate();
    let c = Identity::generate();
    let list = [a.to_public(), b.to_public()];
    assert!(all_usable(&list));
    let ct = encrypt(b"plain \x00 text", &list).expect("encrypt");
    assert_ne!(ct, b"plain \x00 text");
    assert_eq!(decrypt(&ct, &a).expect("a").as_bytes(), b"plain \x00 text");
    assert_eq!(decrypt(&ct, &b).expect("b").as_bytes(), b"plain \x00 text");
    assert!(matches!(decrypt(&ct, &c), Err(Error::Decrypt)));
    assert!(matches!(decrypt(b"age?", &a), Err(Error::Decrypt)));
    assert!(matches!(encrypt(b"x", &[]), Err(Error::NoRecipients)));
}

#[test]
fn the_files_are_ordinary_age_files() {
    let id = Identity::from_text(KEY.as_bytes().to_vec()).expect("key");
    let ct = encrypt(b"hello", &[id.to_public()]).expect("encrypt");
    let outside: age::x25519::Identity = KEY.parse().expect("key");
    assert_eq!(age::decrypt(&outside, &ct).expect("decrypt"), b"hello");
    let theirs = age::encrypt(&outside.to_public(), b"there").expect("encrypt");
    assert_eq!(decrypt(&theirs, &id).expect("decrypt").as_bytes(), b"there");
}

#[test]
fn recipients_are_read_in_their_own_form() {
    assert_eq!(Recipient::parse(PUBLIC).expect("parse").as_str(), PUBLIC);
    match Recipient::parse("age1nonsense") {
        Err(Error::InvalidRecipient(_)) => {}
        _ => panic!("must refuse"),
    }
}

#[test]
fn weak_recipients_are_not_usable() {
    for text in [
        "age1qqqqqqqqqqqqqqqqqqqqqqqqqqqqqqqqqqqqqqqqqqqqqqqqqqqq5cu47z",
        "age1qqqqqqqqqqqqqqqqqqqqqqqqqqqqqqqqqqqqqqqqqqqqqqqqqzqqsuwj9m",
        "age1qyqqqqqqqqqqqqqqqqqqqqqqqqqqqqqqqqqqqqqqqqqqqqqqqqqqj7vrya",
        "age1qyqqqqqqqqqqqqqqqqqqqqqqqqqqqqqqqqqqqqqqqqqqqqqqqzqqk67yly",
        "age1ur4h5lpmgxu2u9jku0a0r87ydtdqnr0tnsetrlvxvgz3vh6fhqqqzyt4v9",
        "age1ur4h5lpmgxu2u9jku0a0r87ydtdqnr0tnsetrlvxvgz3vh6fhzqqxqejhu",
        "age1t7wft09r2zxzfvwsk92eeql0tvzyghxytqwgapkcyf8dm5ylz9ts6wm9s8",
        "age1t7wft09r2zxzfvwsk92eeql0tvzyghxytqwgapkcyf8dm5ylz8ts72fzt7",
        "age1anlllllllllllllllllllllllllllllllllllllllllllllllals4n2t7m",
        "age1anllllllllllllllllllllllllllllllllllllllllllllllllls3hcv9z",
        "age1ahlllllllllllllllllllllllllllllllllllllllllllllllalsn46ayy",
        "age1ahlllllllllllllllllllllllllllllllllllllllllllllllllsh3g6la",
        "age1amlllllllllllllllllllllllllllllllllllllllllllllllalselrwrv",
        "age1amlllllllllllllllllllllllllllllllllllllllllllllllllsam3fc4",
    ] {
        let weak = Recipient::parse(text).expect("parse");
        assert_eq!(weak.as_str(), text);
        assert!(!all_usable(&[Identity::generate().to_public(), weak]));
    }
    assert!(all_usable(&[Identity::generate().to_public()]));
}

#[test]
fn recipient_lists_are_read_and_written() {
    let a = Identity::generate().to_public();
    let b = Identity::generate().to_public();
    let body = render_recipients(&[a.duplicate(), b.duplicate()]);
    assert_eq!(body, format!("{}\n{}\n", a.as_str(), b.as_str()).into_bytes());
    let back = parse_recipients(&body).expect("parse");
    assert_eq!(render_recipients(&duplicate_all(&back)), body);
    let text = format!("# mine\n\n  {}  \r\n#\n{}", b.as_str(), a.as_str());
    let back = parse_recipients(text.as_bytes()).expect("parse");
    assert_eq!(back.len(), 2);
    assert_eq!(back[0].as_str(), b.as_str());
    assert!(matches!(parse_recipients(b"# none\n\n"), Err(Error::NoRecipients)));
    assert!(matches!(parse_recipients(b"x\n"), Err(Error::InvalidRecipient(_))));
    assert!(matches!(parse_recipients(&[0xff]), Err(Error::InvalidData(_))));
}

#[test]
fn merged_recipient_lists_keep_all() {
    let a = Identity::generate().to_public();
    let b = Identity::generate().to_public();
    let c = Identity::generate().to_public();
    let merged = format!("{}\n{}\n{}\n{}\n", b.as_str(), a.as_str(), c.as_str(), a.as_str());
    let found = parse_recipients(merged.as_bytes()).expect("parse");
    for r in [&a, &b, &c] {
        assert!(found.iter().any(|f| f.as_str() == r.as_str()));
    }
}

#[test]
fn paths() {
    for good in ["a", "a/b", "github/token", "a.b-c_d", "x/COM10"] {
        assert!(is_valid(good), "{}", good);
        assert!(validate(good).is_ok());
    }
    for bad in ["", "/a", "a/", "a//b", ".", "..", "a/../b", "a/.", "a\\b", "a\nb", "con", "x/NUL",
        "lpt1", "a:b", "a b/\u{0}"]
    {
        assert!(!is_valid(bad), "{}", bad);
        match validate(bad) {
            Err(Error::InvalidPath(p)) => assert_eq!(p, bad),
            _ => panic!("must refuse"),
        }
    }
}

#[test]
fn errors_have_a_message() {
    let e = Error::Tampered { path: "p".to_owned(), reason: "why".to_owned() };
    assert!(e.message().contains("why") && e.message().contains('p'));
    let e = Error::Command { cmd: "git x".to_owned(), status: -1, stderr: "bad".to_owned() };
    assert!(e.message().contains("git x") && e.message().contains("-1"));
    for e in [
        Error::InvalidPath("x".to_owned()),
        Error::SecretNotFound("x".to_owned()),
        Error::SecretExists("x".to_owned()),
        Error::Decrypt,
        Error::InvalidIdentity,
        Error::NoRecipients,
        Error::InvalidRecipient("x".to_owned()),
        Error::StoreExists("x".to_owned()),
        Error::StoreNotFound("x".to_owned()),
        Error::IdentityExists("x".to_owned()),
        Error::Missing("x".to_owned()),
        Error::NotAFile("x".to_owned()),
        Error::InvalidData("x".to_owned()),
        Error::InvalidTotp("x".to_owned()),
        Error::InvalidArgument("x".to_owned()),
    ] {
        assert!(!e.message().is_empty());
    }
}

#[test]
fn identity_files_open_with_their_passphrase() {
    let id = Identity::from_text(KEY.as_bytes().to_vec()).expect("key");
    let file = lock_identity(&id, "pw").expect("lock");
    let back = load_identity(&file, "pw").expect("load");
    assert_eq!(back.to_public().as_str(), PUBLIC);
    let text = armored_identity(&file);
    assert!(text.starts_with("-----BEGIN AGE ENCRYPTED FILE-----"));
    let back = load_identity(text.as_bytes(), "pw").expect("load armored");
    assert_eq!(back.key_text(), KEY.as_bytes());
    assert!(text.lines().all(|l| l.len() <= 64 && l.is_ascii()));
    assert!(matches!(load_identity(text.as_bytes(), "other"), Err(Error::Decrypt)));
    // Text that is in armor already is not opened through a second one.
    let twice = armored_identity(text.as_bytes());
    assert!(matches!(load_identity(twice.as_bytes(), "pw"), Err(Error::Decrypt)));
}

#[test]
fn wrong_passphrase_fails() {
    let id = Identity::generate();
    let file = lock_identity(&id, "right").expect("lock");
    let err = load_identity(&file, "wrong-password-not-the-real-one").err().expect("refused");
    let msg = err.message().to_lowercase();
    assert!(
        msg.contains("passphrase") || msg.contains("incorrect") || msg.contains("decrypt"),
        "unexpected: {msg}"
    );
    assert!(matches!(load_identity(b"nonsense", "pw"), Err(Error::Decrypt)));
}

#[test]
fn keys_in_plaintexts() {
    let spaced = format!("  {KEY}\n");
    let id = identity_in(Some(spaced.into_bytes())).expect("key");
    assert_eq!(id.key_text(), KEY.as_bytes());
    assert!(matches!(identity_in(None), Err(Error::Decrypt)));
    assert!(matches!(identity_in(Some(vec![0xff])), Err(Error::InvalidIdentity)));
    assert!(matches!(identity_in(Some(b"x".to_vec())), Err(Error::InvalidIdentity)));
}
