use ks::totp::{code_at, current, current_if_usable, from_value, is_hostless, Digest};
use ks::Error;

#[test]
fn current_from_base32_secret() {
    let code = current("JBSWY3DPEHPK3PXPJBSWY3DPEHPK3PXP").expect("generate");
    assert_eq!(code.value.len(), 6);
    assert!(code.value.chars().all(|c| c.is_ascii_digit()));
    assert!(code.remaining_secs <= 30);
}

#[test]
fn accepts_real_world_short_secret() {
    let code = current("JBSWY3DPEHPK3PXP").expect("80-bit secret must work");
    assert_eq!(code.value.len(), 6);
}

#[test]
fn accepts_short_secret_via_otpauth_url() {
    let code = current("otpauth://totp/Demo:alice?secret=JBSWY3DPEHPK3PXP&issuer=Demo")
        .expect("80-bit url secret must work");
    assert_eq!(code.value.len(), 6);
}

#[test]
fn rejects_garbage() {
    assert!(current("not a secret!@#").is_err());
}

/// The vectors of RFC 6238, appendix B, with the secret in base32.
#[test]
fn codes_follow_the_published_vectors() {
    let url = "otpauth://totp/x?secret=GEZDGNBVGY3TQOJQGEZDGNBVGY3TQOJQ&digits=8";
    let otp = from_value(url).expect("url");
    assert_eq!(otp.digest, Digest::Sha1);
    assert_eq!(otp.digits, 8);
    assert_eq!(otp.step, 30);
    assert_eq!(otp.secret.as_bytes(), b"12345678901234567890");
    for (time, code) in [
        (59, "94287082"),
        (1111111109, "07081804"),
        (1111111111, "14050471"),
        (1234567890, "89005924"),
        (2000000000, "69279037"),
        (20000000000, "65353130"),
    ] {
        let found = code_at(&otp, time, time);
        assert_eq!(found.value, code);
        assert_eq!(found.remaining_secs, 30 - time % 30);
    }
}

#[test]
fn other_digests_and_steps() {
    let url = "otpauth://totp/x?secret=GEZDGNBVGY3TQOJQGEZDGNBVGY3TQOJQGEZDGNBVGY3TQOJQGEZA\
               &algorithm=SHA256&digits=8&period=60";
    let otp = from_value(url).expect("url");
    assert_eq!(otp.digest, Digest::Sha256);
    assert_eq!(otp.step, 60);
    assert_eq!(otp.secret.as_bytes(), b"12345678901234567890123456789012");
    assert_eq!(code_at(&otp, 118, 59).value, "46119246");
    assert_eq!(code_at(&otp, 118, 59).remaining_secs, 1);
    let url = "otpauth://totp/x?secret=GEZDGNBVGY3TQOJQ&algorithm=SHA512";
    assert_eq!(from_value(url).expect("url").digest, Digest::Sha512);
}

#[test]
fn a_code_holds_for_its_step() {
    let otp = from_value("JBSWY3DPEHPK3PXP").expect("secret");
    let first = code_at(&otp, 60, 60);
    assert_eq!(first.remaining_secs, 30);
    assert_eq!(code_at(&otp, 89, 89).value, first.value);
    assert_eq!(code_at(&otp, 89, 89).remaining_secs, 1);
    assert_ne!(code_at(&otp, 90, 90).value, first.value);
}

#[test]
fn white_space_around_the_value_is_dropped() {
    let otp = from_value("  JBSWY3DPEHPK3PXP\n").expect("secret");
    assert_eq!(otp.secret.as_bytes(), &[0x48, 0x65, 0x6c, 0x6c, 0x6f, 0x21, 0xde, 0xad, 0xbe, 0xef]);
    assert_eq!(otp.digits, 6);
    assert_eq!(otp.step, 30);
    assert_eq!(otp.digest, Digest::Sha1);
}

#[test]
fn errors_say_what_is_wrong() {
    match from_value("not a secret!@#") {
        Err(Error::InvalidTotp(m)) => {
            assert_eq!(m, "base32 secret: Could not decode base32 secret.");
        }
        _ => panic!("must refuse"),
    }
    assert!(matches!(from_value("otpauth://hotp/x?secret=GEZA"), Err(Error::InvalidTotp(_))));
    assert!(matches!(
        from_value("otpauth://totp/x?secret=GEZA&digits=six"),
        Err(Error::InvalidTotp(_))
    ));
}

#[test]
fn unusable_values_have_no_code() {
    assert!(current_if_usable("otpauth://totp/x?secret=GEZDGNBV&digits=10").is_none());
    assert!(current_if_usable("otpauth://totp/x?secret=GEZDGNBV&period=0").is_none());
    assert!(current_if_usable("otpauth:///x?secret=GEZDGNBV").is_none());
    assert!(current_if_usable("!").expect("read").is_err());
    assert!(current_if_usable("JBSWY3DPEHPK3PXP").expect("read").is_ok());
}

#[test]
fn urls_without_a_host() {
    for url in ["otpauth://", "otpauth:///totp", "otpauth://?x", "otpauth://#", "otpauth://\t/x",
        "otpauth://:@/x", "otpauth://@", "otpauth:// "]
    {
        assert!(is_hostless(url), "{}", url);
    }
    for url in ["otpauth://totp", "otpauth://totp/x", "otpauth://:@totp/x", "otpauth://@/x",
        "otpauth://:/x", "GEZDGNBV", ""]
    {
        assert!(!is_hostless(url), "{}", url);
        if !url.is_empty() {
            drop(from_value(url));
        }
    }
}
