//! The library's error type and its mathematical counterpart.

use vstd::prelude::*;

use crate::text;
use crate::text::{copy_text, number_text};

verus! {

/// Why an operation failed.
#[derive(Debug)]
pub enum Error {
    /// A logical secret path is malformed.
    InvalidPath(String),
    /// There is no secret at the path.
    SecretNotFound(String),
    /// There is already a secret at the path.
    SecretExists(String),
    /// A secret does not belong where it was found, or is older than the index.
    Tampered { path: String, reason: String },
    /// A ciphertext could not be decrypted with the given identity.
    Decrypt,
    /// A text is no age identity.
    InvalidIdentity,
    /// The recipient list is missing or empty.
    NoRecipients,
    /// A recipient is malformed, or a recipient list is not acceptable.
    InvalidRecipient(String),
    /// The store directory already holds a store.
    StoreExists(String),
    /// The store directory does not exist.
    StoreNotFound(String),
    /// There is already an identity.
    IdentityExists(String),
    /// A file that was to be read does not exist.
    Missing(String),
    /// A directory stands where a file was to be read, written or removed, or a file
    /// where a directory on the way to it was to be.
    NotAFile(String),
    /// A file does not hold what it should.
    InvalidData(String),
    /// A one-time-password secret is unusable.
    InvalidTotp(String),
    /// An outside program failed.
    Command { cmd: String, status: i32, stderr: String },
    /// The arguments of a command do not make sense together.
    InvalidArgument(String),
}

/// What an [`Error`] says, with texts as character sequences.
#[verifier::ext_equal]
pub enum Failure {
    InvalidPath(Seq<char>),
    SecretNotFound(Seq<char>),
    SecretExists(Seq<char>),
    Tampered { path: Seq<char>, reason: Seq<char> },
    Decrypt,
    InvalidIdentity,
    NoRecipients,
    InvalidRecipient(Seq<char>),
    StoreExists(Seq<char>),
    StoreNotFound(Seq<char>),
    IdentityExists(Seq<char>),
    Missing(Seq<char>),
    NotAFile(Seq<char>),
    InvalidData(Seq<char>),
    InvalidTotp(Seq<char>),
    Command { cmd: Seq<char>, status: i32, stderr: Seq<char> },
    InvalidArgument(Seq<char>),
}

impl View for Error {
    type V = Failure;

    open spec fn view(&self) -> Failure {
        match *self {
            Error::InvalidPath(p) => Failure::InvalidPath(p@),
            Error::SecretNotFound(p) => Failure::SecretNotFound(p@),
            Error::SecretExists(p) => Failure::SecretExists(p@),
            Error::Tampered { path, reason } => Failure::Tampered {
                path: path@,
                reason: reason@,
            },
            Error::Decrypt => Failure::Decrypt,
            Error::InvalidIdentity => Failure::InvalidIdentity,
            Error::NoRecipients => Failure::NoRecipients,
            Error::InvalidRecipient(m) => Failure::InvalidRecipient(m@),
            Error::StoreExists(d) => Failure::StoreExists(d@),
            Error::StoreNotFound(d) => Failure::StoreNotFound(d@),
            Error::IdentityExists(p) => Failure::IdentityExists(p@),
            Error::Missing(f) => Failure::Missing(f@),
            Error::NotAFile(f) => Failure::NotAFile(f@),
            Error::InvalidData(m) => Failure::InvalidData(m@),
            Error::InvalidTotp(m) => Failure::InvalidTotp(m@),
            Error::Command { cmd, status, stderr } => Failure::Command {
                cmd: cmd@,
                status,
                stderr: stderr@,
            },
            Error::InvalidArgument(m) => Failure::InvalidArgument(m@),
        }
    }
}

/// Whether a result is the expected one, success and error taken by their views.
pub open spec fn agrees<T: View>(r: Result<T, Error>, expected: Result<T::V, Failure>) -> bool {
    match (r, expected) {
        (Ok(x), Ok(v)) => x@ == v,
        (Err(e), Err(f)) => e@ == f,
        _ => false,
    }
}

/// A number with its sign, in decimal.
pub open spec fn signed(n: i32) -> Seq<char> {
    if n < 0 {
        "-"@ + text::decimal((-n) as nat)
    } else {
        text::decimal(n as nat)
    }
}

/// What an error is called when it is shown.
pub open spec fn message(f: Failure) -> Seq<char> {
    match f {
        Failure::InvalidPath(p) => "invalid secret path `"@ + p + "`"@,
        Failure::SecretNotFound(p) => "secret not found: "@ + p,
        Failure::SecretExists(p) => "secret already exists: "@ + p,
        Failure::Tampered { path, reason } => "secret `"@ + path + "` failed its integrity check: "@
            + reason,
        Failure::Decrypt => "decryption failed"@,
        Failure::InvalidIdentity => "invalid identity"@,
        Failure::NoRecipients => "no recipients are configured"@,
        Failure::InvalidRecipient(m) => "invalid recipient: "@ + m,
        Failure::StoreExists(d) => "a store already exists at "@ + d,
        Failure::StoreNotFound(d) => "store not found at "@ + d,
        Failure::IdentityExists(p) => "an identity already exists at "@ + p,
        Failure::Missing(n) => "file not found: "@ + n,
        Failure::NotAFile(n) => "not a regular file: "@ + n,
        Failure::InvalidData(m) => m,
        Failure::InvalidTotp(m) => "invalid TOTP secret: "@ + m,
        Failure::Command { cmd, status, stderr } => "`"@ + cmd + "` failed with status "@ + signed(
            status,
        ) + ": "@ + stderr,
        Failure::InvalidArgument(m) => m,
    }
}

fn after(label: &str, rest: &str) -> (r: String)
    ensures
        r@ == label@ + rest@,
{
    let mut r = copy_text(label);
    r.append(rest);
    r
}

fn signed_text(n: i32) -> (r: String)
    ensures
        r@ == signed(n),
{
    if n < 0 {
        let digits = number_text((-(n as i64)) as u64);
        after("-", digits.as_str())
    } else {
        number_text(n as u64)
    }
}

impl Error {
    /// The text of the error.
    pub fn message(&self) -> (r: String)
        ensures
            r@ == message(self@),
    {
        match self {
            Error::InvalidPath(p) => {
                let mut r = after("invalid secret path `", p.as_str());
                r.append("`");
                r
            },
            Error::SecretNotFound(p) => after("secret not found: ", p.as_str()),
            Error::SecretExists(p) => after("secret already exists: ", p.as_str()),
            Error::Tampered { path, reason } => {
                let mut r = after("secret `", path.as_str());
                r.append("` failed its integrity check: ");
                r.append(reason.as_str());
                r
            },
            Error::Decrypt => copy_text("decryption failed"),
            Error::InvalidIdentity => copy_text("invalid identity"),
            Error::NoRecipients => copy_text("no recipients are configured"),
            Error::InvalidRecipient(m) => after("invalid recipient: ", m.as_str()),
            Error::StoreExists(d) => after("a store already exists at ", d.as_str()),
            Error::StoreNotFound(d) => after("store not found at ", d.as_str()),
            Error::IdentityExists(p) => after("an identity already exists at ", p.as_str()),
            Error::Missing(n) => after("file not found: ", n.as_str()),
            Error::NotAFile(n) => after("not a regular file: ", n.as_str()),
            Error::InvalidData(m) => copy_text(m.as_str()),
            Error::InvalidTotp(m) => after("invalid TOTP secret: ", m.as_str()),
            Error::Command { cmd, status, stderr } => {
                let mut r = after("`", cmd.as_str());
                r.append("` failed with status ");
                let n = signed_text(*status);
                r.append(n.as_str());
                r.append(": ");
                r.append(stderr.as_str());
                r
            },
            Error::InvalidArgument(m) => copy_text(m.as_str()),
        }
    }
}

/// A result agrees with what is expected exactly if both are successes with the same
/// value, or both are errors that say the same.
pub proof fn law_agrees<T: View>(x: T, e: Error, expected: Result<T::V, Failure>)
    ensures
        agrees(Ok::<T, Error>(x), expected) <==> expected == Ok::<T::V, Failure>(x@),
        agrees(Err::<T, Error>(e), expected) <==> expected == Err::<T::V, Failure>(e@),
{
}

/// The text of an error names what it is about.
pub proof fn law_messages(a: Seq<char>, b: Seq<char>, n: i32)
    ensures
        message(Failure::InvalidPath(a)) == "invalid secret path `"@ + a + "`"@,
        message(Failure::SecretNotFound(a)) == "secret not found: "@ + a,
        message(Failure::SecretExists(a)) == "secret already exists: "@ + a,
        message(Failure::Tampered { path: a, reason: b }) == "secret `"@ + a
            + "` failed its integrity check: "@ + b,
        message(Failure::Decrypt) == "decryption failed"@,
        message(Failure::InvalidIdentity) == "invalid identity"@,
        message(Failure::NoRecipients) == "no recipients are configured"@,
        message(Failure::InvalidRecipient(a)) == "invalid recipient: "@ + a,
        message(Failure::StoreExists(a)) == "a store already exists at "@ + a,
        message(Failure::StoreNotFound(a)) == "store not found at "@ + a,
        message(Failure::IdentityExists(a)) == "an identity already exists at "@ + a,
        message(Failure::Missing(a)) == "file not found: "@ + a,
        message(Failure::NotAFile(a)) == "not a regular file: "@ + a,
        message(Failure::InvalidData(a)) == a,
        message(Failure::InvalidTotp(a)) == "invalid TOTP secret: "@ + a,
        message(Failure::InvalidArgument(a)) == a,
        n >= 0 ==> message(Failure::Command { cmd: a, status: n, stderr: b }) == "`"@ + a
            + "` failed with status "@ + text::decimal(n as nat) + ": "@ + b,
        n < 0 ==> message(Failure::Command { cmd: a, status: n, stderr: b }) == "`"@ + a
            + "` failed with status "@ + ("-"@ + text::decimal((0 - n) as nat)) + ": "@ + b,
{
}

} // verus!
