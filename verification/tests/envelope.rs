use ks::envelope::{parse_generation, unwrap, wrap};
use ks::{Error, SecretKind};

const MAGIC: &[u8] = b"ksenv/2\n";

fn reason(r: Result<ks::envelope::Unwrapped, Error>) -> (String, String) {
    match r {
        Err(Error::Tampered { path, reason }) => (path, reason),
        Err(e) => panic!("{}", e.message()),
        Ok(_) => panic!("must reject"),
    }
}

#[test]
fn text_roundtrip() {
    let wrapped = wrap("github/token", SecretKind::Text, 3, b"ghp_xxx\nuser: alice\n");
    let u = unwrap("github/token", wrapped.as_bytes()).expect("unwrap");
    assert_eq!(u.kind, SecretKind::Text);
    assert_eq!(u.generation, 3);
    assert_eq!(&u.payload, b"ghp_xxx\nuser: alice\n");
}

#[test]
fn binary_roundtrip_with_arbitrary_bytes() {
    let raw = vec![0u8, b'\n', 0xff, b'k', b's', 0x00, 0x0a];
    let wrapped = wrap("certs/key.p12", SecretKind::Binary, 1, &raw);
    let u = unwrap("certs/key.p12", wrapped.as_bytes()).expect("unwrap");
    assert_eq!(u.kind, SecretKind::Binary);
    assert_eq!(u.generation, 1);
    assert_eq!(u.payload, raw);
}

#[test]
fn empty_payload_roundtrip() {
    let wrapped = wrap("a/b", SecretKind::Text, 1, b"");
    let u = unwrap("a/b", wrapped.as_bytes()).expect("unwrap");
    assert_eq!(u.kind, SecretKind::Text);
    assert!(u.payload.is_empty());
}

#[test]
fn wrong_bound_path_is_tampered() {
    let wrapped = wrap("a", SecretKind::Text, 1, b"secret-a");
    let err = unwrap("b", wrapped.as_bytes()).err().expect("must reject");
    assert!(matches!(err, Error::Tampered { .. }));
}

#[test]
fn legacy_or_corrupt_payload_is_tampered() {
    let err = unwrap("a", b"just a raw secret\n").err().expect("must reject");
    assert!(matches!(err, Error::Tampered { .. }));
}

#[test]
fn legacy_v1_header_is_tampered() {
    let mut v1 = Vec::new();
    v1.extend_from_slice(b"ksenv/1\ntext\na\n\npayload");
    let err = unwrap("a", &v1).err().expect("v1 rejected");
    assert!(matches!(err, Error::Tampered { .. }));
}

#[test]
fn payload_may_contain_header_like_lines() {
    let body = b"ksenv/2\ntext\nelsewhere\n9\n\nreal payload";
    let wrapped = wrap("real/path", SecretKind::Binary, 2, body);
    let u = unwrap("real/path", wrapped.as_bytes()).expect("unwrap");
    assert_eq!(u.kind, SecretKind::Binary);
    assert_eq!(&u.payload, body);
}

#[test]
fn reject_bad_generation_tokens() {
    assert!(parse_generation(b"").is_err());
    assert!(parse_generation(b"+1").is_err());
    assert!(parse_generation(b"01x").is_err());
    assert!(parse_generation(b" 1").is_err());
    assert_eq!(parse_generation(b"0").expect("0"), 0);
    assert_eq!(parse_generation(b"42").expect("42"), 42);
}

#[test]
fn malformed_generation_is_tampered() {
    let mut bad = Vec::new();
    bad.extend_from_slice(MAGIC);
    bad.extend_from_slice(b"text\na\n+3\n\npayload");
    let err = unwrap("a", &bad).err().expect("must reject");
    assert!(matches!(err, Error::Tampered { .. }));
}

#[test]
fn soak_random_inputs_do_not_panic() {
    for _ in 0..2_000 {
        let n = usize::from(rand::random::<u8>());
        let mut buf = vec![0u8; n];
        for b in &mut buf {
            *b = rand::random();
        }
        drop(unwrap("fuzz/path", &buf));
    }
    for _ in 0..200 {
        let mut buf = MAGIC.to_vec();
        let n = usize::from(rand::random::<u8>() % 64);
        buf.extend((0..n).map(|_| rand::random::<u8>()));
        drop(unwrap("a", &buf));
    }
}

#[test]
fn layout_is_exact() {
    let wrapped = wrap("a/b", SecretKind::Binary, 7, &[1, 2]);
    assert_eq!(wrapped.as_bytes(), b"ksenv/2\nbinary\na/b\n7\n\n\x01\x02");
}

#[test]
fn generation_bounds() {
    assert_eq!(parse_generation(b"18446744073709551615").expect("max"), u64::MAX);
    assert!(parse_generation(b"18446744073709551616").is_err());
    assert_eq!(parse_generation(b"007").expect("zeros"), 7);
    let wrapped = wrap("p", SecretKind::Text, u64::MAX, b"x");
    assert_eq!(unwrap("p", wrapped.as_bytes()).expect("max").generation, u64::MAX);
}

#[test]
fn each_refusal_names_the_path() {
    for body in [
        &b""[..],
        b"ksenv/2\n",
        b"ksenv/2\nother\na\n1\n\nx",
        b"ksenv/2\ntext\nb\n1\n\nx",
        b"ksenv/2\ntext\na\n\n\nx",
        b"ksenv/2\ntext\na\n1\nx\n",
        b"ksenv/2\ntext\na\n1",
    ] {
        let (path, why) = reason(unwrap("a", body));
        assert_eq!(path, "a");
        assert!(!why.is_empty());
    }
}

#[test]
fn arbitrary_bytes_are_taken() {
    ks::fuzzing::fuzz_envelope_unwrap(&[0xff, 0, 10]);
    ks::fuzzing::fuzz_generations_parse(&[0xff, 0, 10]);
}
