//! The identity file: the secret key, encrypted with a passphrase.

use vstd::prelude::*;
use vstd::utf8;

use crate::crypto;
use crate::crypto::Identity;
use crate::error;
use crate::error::{Error, Failure};
use crate::text;
use crate::text::{copy_bytes, trim_str, utf8_text};

verus! {

/// The text in which `age::armor::ArmoredWriter` writes bytes, with a bare line feed
/// at the end of each line. Some systems have a carriage return before it.
pub uninterp spec fn age_armor(bytes: Seq<u8>) -> Seq<char>;

/// What `age::decrypt` with an `age::scrypt::Identity` makes of a file, where it does
/// not refuse the file for the work that it takes; none if the passphrase does not
/// open it.
pub uninterp spec fn age_unlocked(file: Seq<u8>, passphrase: Seq<char>) -> Option<Seq<u8>>;

/// Whether bytes begin as armored text does, with a dash.
pub open spec fn begins_armored(bytes: Seq<u8>) -> bool {
    bytes.len() > 0 && bytes[0] == 45
}

/// Whether a text opens to the same as a file, with whatever passphrase.
pub open spec fn opens_alike(s: Seq<char>, file: Seq<u8>) -> bool {
    forall|passphrase: Seq<char>| #[trigger]
        age_unlocked(utf8::encode_utf8(s), passphrase) == age_unlocked(file, passphrase)
}

/// Calls `age::encrypt` with an `age::scrypt::Recipient`. The salt is random, and the
/// work factor is measured on the machine; the same passphrase opens the file to the
/// bytes that were encrypted. The file is a binary one, which begins with the name of
/// the format. Encryption with a passphrase into memory does not fail.
#[verifier::external_body]
fn age_lock(key: &[u8], passphrase: &str) -> (r: Option<Vec<u8>>)
    ensures
        r is Some,
        r matches Some(file) ==> age_unlocked(file@, passphrase@) == Some(key@)
            && !begins_armored(file@),
{
    let secret = age::secrecy::SecretString::from(passphrase.to_owned());
    age::encrypt(&age::scrypt::Recipient::new(secret), key).ok()
}

/// Calls `age::decrypt` with an `age::scrypt::Identity`, which also reads armored
/// text. What a file opens to depends on the file and the passphrase only. That it
/// opens is not stated: a file that takes more work than the machine is good for is
/// refused.
#[verifier::external_body]
fn age_unlock(file: &[u8], passphrase: &str) -> (r: Option<Vec<u8>>)
    ensures
        r matches Some(plaintext) ==> age_unlocked(file@, passphrase@) == Some(plaintext@),
{
    let secret = age::secrecy::SecretString::from(passphrase.to_owned());
    age::decrypt(&age::scrypt::Identity::new(secret), file).ok()
}

/// Writes bytes through an `age::armor::ArmoredWriter`. The text that comes out reads
/// as the bytes do, unless these look like armored text themselves. How its lines end
/// depends on the system; the base64 of the bytes has no carriage return. Writing to
/// memory does not fail.
#[verifier::external_body]
fn to_armor(bytes: &[u8]) -> (r: Option<String>)
    ensures
        r is Some,
        r matches Some(s) ==> s@.filter(|c: char| c != '\r') == age_armor(bytes@) && (
        !begins_armored(bytes@) ==> opens_alike(s@, bytes@)),
{
    let mut out: Vec<u8> = Vec::new();
    let format = age::armor::Format::AsciiArmor;
    let mut writer = age::armor::ArmoredWriter::wrap_output(&mut out, format).ok()?;
    std::io::Write::write_all(&mut writer, bytes).ok()?;
    writer.finish().ok()?;
    String::from_utf8(out).ok()
}

/// The secret key in what a file decrypts to, if it does.
pub open spec fn key_in(plaintext: Option<Seq<u8>>) -> Result<Seq<u8>, Failure> {
    match plaintext {
        None => Err(Failure::Decrypt),
        Some(bytes) => if !utf8::valid_utf8(bytes) {
            Err(Failure::InvalidIdentity)
        } else {
            let key = utf8::encode_utf8(text::trimmed(utf8::decode_utf8(bytes)));
            if crypto::age_public(key) is Some {
                Ok(key)
            } else {
                Err(Failure::InvalidIdentity)
            }
        },
    }
}

/// The identity in what a file decrypts to. White space around the key does not
/// count.
pub fn identity_in(plaintext: Option<Vec<u8>>) -> (r: Result<Identity, Error>)
    ensures
        error::agrees(
            r,
            key_in(
                match plaintext {
                    Some(b) => Some(b@),
                    None => None,
                },
            ),
        ),
{
    match plaintext {
        None => Err(Error::Decrypt),
        Some(bytes) => match utf8_text(bytes.as_slice()) {
            Err(_) => Err(Error::InvalidIdentity),
            Ok(s) => Identity::from_text(copy_bytes(trim_str(s).as_bytes())),
        },
    }
}

/// Opens an identity file. An identity that comes out is the one that the passphrase
/// opens the file to. A file may be refused for the work that it takes.
pub fn load_identity(file: &[u8], passphrase: &str) -> (r: Result<Identity, Error>)
    ensures
        match r {
            Ok(id) => key_in(age_unlocked(file@, passphrase@)) == Ok::<Seq<u8>, Failure>(id@),
            Err(e) => e@ == Failure::Decrypt || (e@ == Failure::InvalidIdentity && key_in(
                age_unlocked(file@, passphrase@),
            ) == Err::<Seq<u8>, Failure>(e@)),
        },
{
    identity_in(age_unlock(file, passphrase))
}

/// A text of printable characters has no white space around it.
proof fn lemma_printable_trimmed(s: Seq<char>)
    requires
        forall|i: int| 0 <= i < s.len() ==> '!' <= #[trigger] s[i] <= '~',
    ensures
        text::trimmed(s) == s,
{
    if s.len() > 0 {
        assert(!text::white(s[0]));
        assert(!text::white(s[s.len() - 1]));
    }
}

/// The bytes of an identity file, which the passphrase opens to the identity. They
/// are different each time.
pub fn lock_identity(identity: &Identity, passphrase: &str) -> (r: Option<Vec<u8>>)
    ensures
        r is Some,
        r matches Some(file) ==> key_in(age_unlocked(file@, passphrase@)) == Ok::<
            Seq<u8>,
            Failure,
        >(identity@) && !begins_armored(file@),
{
    let key = identity.key_text();
    proof {
        lemma_printable_trimmed(utf8::decode_utf8(key@));
        utf8::decode_utf8_encode_utf8(key@);
    }
    age_lock(key, passphrase)
}

/// An identity file as text, which a terminal can show. It stays encrypted, and a
/// passphrase opens it to what it opens the file to.
pub fn armored_identity(file: &[u8]) -> (r: String)
    ensures
        r@.filter(|c: char| c != '\r') == age_armor(file@),
        !begins_armored(file@) ==> opens_alike(r@, file@),
{
    match to_armor(file) {
        Some(s) => s,
        None => vstd::pervasive::unreached(),
    }
}

/// A backup in armor restores the identity: the text of an identity file holds the
/// same key as the file, under the same passphrase.
pub proof fn law_backup_restores(
    s: Seq<char>,
    file: Seq<u8>,
    passphrase: Seq<char>,
    key: Seq<u8>,
)
    requires
        opens_alike(s, file),
        key_in(age_unlocked(file, passphrase)) == Ok::<Seq<u8>, Failure>(key),
    ensures
        key_in(age_unlocked(utf8::encode_utf8(s), passphrase)) == Ok::<Seq<u8>, Failure>(key),
{
}

/// The key of an identity file is the text that it decrypts to, without white space
/// around it, if that is a key; a file that does not decrypt, and one that holds
/// something else, are told apart.
pub proof fn law_key_in_file(before: Seq<char>, key: Seq<char>, after: Seq<char>)
    requires
        forall|i: int| 0 <= i < before.len() ==> text::white(#[trigger] before[i]),
        forall|i: int| 0 <= i < after.len() ==> text::white(#[trigger] after[i]),
        key.len() > 0,
        !text::white(key[0]),
        !text::white(key.last()),
    ensures
        ({
            let r = key_in(Some(utf8::encode_utf8(before + key + after)));
            &&& crypto::age_public(utf8::encode_utf8(key)) is Some ==> r == Ok::<Seq<u8>, Failure>(
                utf8::encode_utf8(key),
            )
            &&& crypto::age_public(utf8::encode_utf8(key)) is None ==> r == Err::<Seq<u8>, Failure>(
                Failure::InvalidIdentity,
            )
        }),
        key_in(None) == Err::<Seq<u8>, Failure>(Failure::Decrypt),
{
    let s = before + key + after;
    utf8::encode_utf8_valid_utf8(s);
    utf8::encode_utf8_decode_utf8(s);
    text::law_trimmed(before, key, after);
}

} // verus!
