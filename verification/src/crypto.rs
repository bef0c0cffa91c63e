//! Keys and encryption, on top of the `age` crate.
//!
//! Keys are held by their texts: `AGE-SECRET-KEY-1…` for an identity, `age1…` for a
//! recipient. Encrypting takes recipients only; decrypting takes an identity.

use vstd::prelude::*;
use vstd::utf8;

use crate::error;
use crate::error::{Error, Failure};
use crate::guard::Guarded;
use crate::text;
use crate::text::{copy_text, same_text};

verus! {

/// The text of the public key that belongs to the text of a secret key, if that is
/// one: `age::x25519::Identity::to_public`.
pub uninterp spec fn age_public(key: Seq<u8>) -> Option<Seq<char>>;

/// The canonical text of a recipient, if a text denotes one: the `FromStr` and
/// `Display` impls of `age::x25519::Recipient`.
pub uninterp spec fn age_recipient(s: Seq<char>) -> Option<Seq<char>>;

/// The ciphertext that `age::Encryptor::with_recipients` makes of a plaintext for a
/// list of recipients, with the bytes that it draws at random.
pub uninterp spec fn age_ciphertext(
    plaintext: Seq<u8>,
    recipients: Seq<Seq<char>>,
    drawn: Seq<u8>,
) -> Seq<u8>;

/// What `age::decrypt` makes of a ciphertext with a secret key.
pub uninterp spec fn age_plaintext(ciphertext: Seq<u8>, key: Seq<u8>) -> Option<Seq<u8>>;

/// The recipients whose public key is a point of small order, in every encoding.
/// Agreeing on a key with such a point gives zero whatever the other key is, and
/// `age` panics on that.
pub open spec fn weak(s: Seq<char>) -> bool {
    ||| s == "age1qqqqqqqqqqqqqqqqqqqqqqqqqqqqqqqqqqqqqqqqqqqqqqqqqqqq5cu47z"@
    ||| s == "age1qqqqqqqqqqqqqqqqqqqqqqqqqqqqqqqqqqqqqqqqqqqqqqqqqzqqsuwj9m"@
    ||| s == "age1qyqqqqqqqqqqqqqqqqqqqqqqqqqqqqqqqqqqqqqqqqqqqqqqqqqqj7vrya"@
    ||| s == "age1qyqqqqqqqqqqqqqqqqqqqqqqqqqqqqqqqqqqqqqqqqqqqqqqqzqqk67yly"@
    ||| s == "age1ur4h5lpmgxu2u9jku0a0r87ydtdqnr0tnsetrlvxvgz3vh6fhqqqzyt4v9"@
    ||| s == "age1ur4h5lpmgxu2u9jku0a0r87ydtdqnr0tnsetrlvxvgz3vh6fhzqqxqejhu"@
    ||| s == "age1t7wft09r2zxzfvwsk92eeql0tvzyghxytqwgapkcyf8dm5ylz9ts6wm9s8"@
    ||| s == "age1t7wft09r2zxzfvwsk92eeql0tvzyghxytqwgapkcyf8dm5ylz8ts72fzt7"@
    ||| s == "age1anlllllllllllllllllllllllllllllllllllllllllllllllals4n2t7m"@
    ||| s == "age1anllllllllllllllllllllllllllllllllllllllllllllllllls3hcv9z"@
    ||| s == "age1ahlllllllllllllllllllllllllllllllllllllllllllllllalsn46ayy"@
    ||| s == "age1ahlllllllllllllllllllllllllllllllllllllllllllllllllsh3g6la"@
    ||| s == "age1amlllllllllllllllllllllllllllllllllllllllllllllllalselrwrv"@
    ||| s == "age1amlllllllllllllllllllllllllllllllllllllllllllllllllsam3fc4"@
}

/// A letter or digit that occurs in the text of a recipient.
pub open spec fn key_char(c: char) -> bool {
    'a' <= c <= 'z' || '0' <= c <= '9'
}

/// Whether a ciphertext was made of a plaintext for just these recipients, whatever
/// was drawn at random.
pub open spec fn made_for(
    ciphertext: Seq<u8>,
    plaintext: Seq<u8>,
    recipients: Seq<Seq<char>>,
) -> bool {
    exists|drawn: Seq<u8>|
        ciphertext == #[trigger] age_ciphertext(plaintext, recipients, drawn)
}

/// Whether every identity with its public key among the recipients decrypts a
/// ciphertext to the plaintext.
pub open spec fn opens_for(
    ciphertext: Seq<u8>,
    plaintext: Seq<u8>,
    recipients: Seq<Seq<char>>,
) -> bool {
    forall|key: Seq<u8>|
        (age_public(key) matches Some(p) && recipients.contains(p)) ==> #[trigger] age_plaintext(
            ciphertext,
            key,
        ) == Some(plaintext)
}

/// A ciphertext that was made of the plaintext for just these recipients, and that
/// each of them decrypts to it.
pub open spec fn encrypts(
    ciphertext: Seq<u8>,
    plaintext: Seq<u8>,
    recipients: Seq<Seq<char>>,
) -> bool {
    made_for(ciphertext, plaintext, recipients) && opens_for(ciphertext, plaintext, recipients)
}

/// Whether a secret key belongs to none of some recipients.
pub open spec fn is_stranger(key: Seq<u8>, list: Seq<Seq<char>>) -> bool {
    age_public(key) matches Some(p) && !list.contains(p)
}

/// That a ciphertext keeps a secret key out, if it has to: where it was made for
/// recipients to whom the key does not belong, the key does not decrypt it. A key
/// that does would have to fit a part of the header that was made for another, and
/// then the code that authenticates the header; the chance of that is negligible.
pub open spec fn keeps_out(ciphertext: Seq<u8>, recipients: Seq<Seq<char>>, key: Seq<u8>) -> bool {
    (exists|plaintext: Seq<u8>| #[trigger] made_for(ciphertext, plaintext, recipients))
        && is_stranger(key, recipients) ==> age_plaintext(ciphertext, key) is None
}

/// Whether bytes are a text of printable ASCII characters, without blanks.
pub open spec fn printable(key: Seq<u8>) -> bool {
    let s = utf8::decode_utf8(key);
    utf8::valid_utf8(key) && forall|i: int| 0 <= i < s.len() ==> '!' <= #[trigger] s[i] <= '~'
}

/// Parses a secret key with `age::x25519::Identity`, and calls `to_public` on it.
/// The text of a secret key is in Bech32, which has printable ASCII characters only.
/// The text of the public key is canonical. The key is never of small order, since
/// no clamped secret key is a multiple of the base point's order.
#[verifier::external_body]
fn age_to_public(key: &[u8]) -> (r: Option<String>)
    ensures
        r is Some <==> age_public(key@) is Some,
        r matches Some(p) ==> age_public(key@) == Some(p@) && age_recipient(p@) == Some(p@)
            && !weak(p@) && printable(key@),
{
    let text = core::str::from_utf8(key).ok()?;
    let identity: age::x25519::Identity = text.parse().ok()?;
    Some(identity.to_public().to_string())
}

/// Parses a recipient with the `FromStr` impl of `age::x25519::Recipient` and writes
/// it with its `Display` impl. The text that is written is in Bech32: lower-case
/// letters and digits, and parsing it gives the same recipient.
#[verifier::external_body]
fn age_parse_recipient(s: &str) -> (r: Option<String>)
    ensures
        r is Some <==> age_recipient(s@) is Some,
        r matches Some(t) ==> age_recipient(s@) == Some(t@) && age_recipient(t@) == Some(t@)
            && t@.len() > 0 && forall|i: int| 0 <= i < t@.len() ==> key_char(#[trigger] t@[i]),
{
    let recipient: age::x25519::Recipient = s.parse().ok()?;
    Some(recipient.to_string())
}

/// Calls `age::x25519::Identity::generate`, which picks a secret key at random. The
/// text of the key is that of an identity.
#[verifier::external_body]
fn age_generate() -> (r: Vec<u8>)
    ensures
        age_public(r@) is Some,
{
    let identity = age::x25519::Identity::generate();
    let text = identity.to_string();
    age::secrecy::ExposeSecret::expose_secret(&text).as_bytes().to_vec()
}

/// Encrypts with `age::Encryptor::with_recipients`. The ciphertext differs from call
/// to call: it depends on the plaintext, on the recipients, and on bytes that are
/// drawn at random. It decrypts to the plaintext with the secret key of any of the
/// recipients; that another recipient's part of the header is taken for one's own
/// has a negligible probability and is taken to be impossible. That other keys do not
/// decrypt it is not stated. Encryption to at least one recipient into memory does
/// not fail.
#[verifier::external_body]
fn age_encrypt(plaintext: &[u8], recipients: &[String]) -> (r: Option<Vec<u8>>)
    requires
        forall|i: int|
            0 <= i < recipients@.len() ==> age_recipient(#[trigger] recipients@[i]@) == Some(
                recipients@[i]@,
            ) && !weak(recipients@[i]@),
    ensures
        r is Some <==> recipients@.len() > 0,
        r matches Some(ct) ==> exists|drawn: Seq<u8>|
            ct@ == #[trigger] age_ciphertext(plaintext@, text::views(recipients@), drawn),
        r matches Some(ct) ==> opens_for(ct@, plaintext@, text::views(recipients@)),
{
    let parsed: Result<Vec<age::x25519::Recipient>, &str> =
        recipients.iter().map(|r| r.parse()).collect();
    let parsed = parsed.ok()?;
    let all = parsed.iter().map(|r| r as &dyn age::Recipient);
    let encryptor = age::Encryptor::with_recipients(all).ok()?;
    let mut out: Vec<u8> = Vec::new();
    let mut writer = encryptor.wrap_output(&mut out).ok()?;
    std::io::Write::write_all(&mut writer, plaintext).ok()?;
    writer.finish().ok()?;
    Some(out)
}

/// Calls `age::decrypt` with a secret key. Which of its errors came is not kept:
/// their texts depend on the locale.
#[verifier::external_body]
fn age_decrypt(ciphertext: &[u8], key: &[u8]) -> (r: Option<Vec<u8>>)
    requires
        age_public(key@) is Some,
    ensures
        match age_plaintext(ciphertext@, key@) {
            Some(plaintext) => r matches Some(p) && p@ == plaintext,
            None => r is None,
        },
{
    let text = core::str::from_utf8(key).ok()?;
    let identity: age::x25519::Identity = text.parse().ok()?;
    age::decrypt(&identity, ciphertext).ok()
}

/// Whether a text is that of a recipient of small order.
fn is_weak(s: &str) -> (r: bool)
    ensures
        r == weak(s@),
{
    same_text(s, "age1qqqqqqqqqqqqqqqqqqqqqqqqqqqqqqqqqqqqqqqqqqqqqqqqqqqq5cu47z")
        || same_text(s, "age1qqqqqqqqqqqqqqqqqqqqqqqqqqqqqqqqqqqqqqqqqqqqqqqqqzqqsuwj9m")
        || same_text(s, "age1qyqqqqqqqqqqqqqqqqqqqqqqqqqqqqqqqqqqqqqqqqqqqqqqqqqqj7vrya")
        || same_text(s, "age1qyqqqqqqqqqqqqqqqqqqqqqqqqqqqqqqqqqqqqqqqqqqqqqqqzqqk67yly")
        || same_text(s, "age1ur4h5lpmgxu2u9jku0a0r87ydtdqnr0tnsetrlvxvgz3vh6fhqqqzyt4v9")
        || same_text(s, "age1ur4h5lpmgxu2u9jku0a0r87ydtdqnr0tnsetrlvxvgz3vh6fhzqqxqejhu")
        || same_text(s, "age1t7wft09r2zxzfvwsk92eeql0tvzyghxytqwgapkcyf8dm5ylz9ts6wm9s8")
        || same_text(s, "age1t7wft09r2zxzfvwsk92eeql0tvzyghxytqwgapkcyf8dm5ylz8ts72fzt7")
        || same_text(s, "age1anlllllllllllllllllllllllllllllllllllllllllllllllals4n2t7m")
        || same_text(s, "age1anllllllllllllllllllllllllllllllllllllllllllllllllls3hcv9z")
        || same_text(s, "age1ahlllllllllllllllllllllllllllllllllllllllllllllllalsn46ayy")
        || same_text(s, "age1ahlllllllllllllllllllllllllllllllllllllllllllllllllsh3g6la")
        || same_text(s, "age1amlllllllllllllllllllllllllllllllllllllllllllllllalselrwrv")
        || same_text(s, "age1amlllllllllllllllllllllllllllllllllllllllllllllllllsam3fc4")
}

// ---------------------------------------------------------------------------
// Recipients
// ---------------------------------------------------------------------------

/// The texts of a list of recipients.
pub open spec fn texts(list: Seq<Recipient>) -> Seq<Seq<char>> {
    Seq::new(list.len(), |i: int| list[i]@)
}

/// Whether secrets can be encrypted to every recipient of a list.
pub open spec fn usable(list: Seq<Seq<char>>) -> bool {
    forall|i: int| 0 <= i < list.len() ==> !weak(#[trigger] list[i])
}

/// A public key that secrets are encrypted to.
pub struct Recipient {
    key: String,
}

impl View for Recipient {
    type V = Seq<char>;

    closed spec fn view(&self) -> Seq<char> {
        self.key@
    }
}

impl Recipient {
    #[verifier::type_invariant]
    spec fn inv(self) -> bool {
        &&& age_recipient(self.key@) == Some(self.key@)
        &&& self.key@.len() > 0
        &&& forall|i: int| 0 <= i < self.key@.len() ==> key_char(#[trigger] self.key@[i])
    }

    /// What the type keeps: the text is a recipient's own, made of lower-case
    /// letters and digits.
    pub open spec fn canonical(s: Seq<char>) -> bool {
        &&& age_recipient(s) == Some(s)
        &&& s.len() > 0
        &&& forall|i: int| 0 <= i < s.len() ==> key_char(#[trigger] s[i])
    }

    /// Reads a recipient.
    pub fn parse(s: &str) -> (r: Result<Recipient, Error>)
        ensures
            error::agrees(r, parsed_recipient(s@)),
    {
        match age_parse_recipient(s) {
            Some(key) => Ok(Recipient { key }),
            None => Err(Error::InvalidRecipient(copy_text(s))),
        }
    }

    /// The text of the recipient.
    pub fn as_str(&self) -> (r: &str)
        ensures
            r@ == self@,
            Recipient::canonical(r@),
    {
        proof {
            use_type_invariant(self);
        }
        self.key.as_str()
    }

    /// The same recipient again.
    pub fn duplicate(&self) -> (r: Recipient)
        ensures
            r@ == self@,
    {
        proof {
            use_type_invariant(self);
        }
        Recipient { key: copy_text(self.key.as_str()) }
    }
}

/// What reading a recipient gives.
pub open spec fn parsed_recipient(s: Seq<char>) -> Result<Seq<char>, Failure> {
    match age_recipient(s) {
        Some(t) => Ok(t),
        None => Err(Failure::InvalidRecipient(s)),
    }
}

/// Copies a list of recipients.
pub fn duplicate_all(list: &[Recipient]) -> (r: Vec<Recipient>)
    ensures
        texts(r@) == texts(list@),
{
    let mut out: Vec<Recipient> = Vec::new();
    for i in 0..list.len()
        invariant
            out@.len() == i,
            forall|j: int| 0 <= j < i ==> #[trigger] out@[j]@ == list@[j]@,
    {
        out.push(list[i].duplicate());
    }
    assert(texts(out@) =~= texts(list@));
    out
}

/// Whether secrets can be encrypted to every recipient of a list.
pub fn all_usable(list: &[Recipient]) -> (r: bool)
    ensures
        r == usable(texts(list@)),
{
    for i in 0..list.len()
        invariant
            forall|j: int| 0 <= j < i ==> !weak(#[trigger] texts(list@)[j]),
    {
        if is_weak(list[i].as_str()) {
            assert(weak(texts(list@)[i as int]));
            return false;
        }
    }
    true
}

/// Whether a list holds a recipient.
pub fn recipients_contain(list: &[Recipient], wanted: &Recipient) -> (r: bool)
    ensures
        r == texts(list@).contains(wanted@),
{
    for i in 0..list.len()
        invariant
            forall|j: int| 0 <= j < i ==> list@[j]@ != wanted@,
    {
        if same_text(list[i].as_str(), wanted.as_str()) {
            assert(texts(list@)[i as int] == wanted@);
            return true;
        }
    }
    false
}

// ---------------------------------------------------------------------------
// Identities
// ---------------------------------------------------------------------------

/// A secret key. Its text is wiped when it is dropped.
pub struct Identity {
    key: Guarded,
    public: Recipient,
}

impl View for Identity {
    type V = Seq<u8>;

    closed spec fn view(&self) -> Seq<u8> {
        self.key@
    }
}

impl Identity {
    #[verifier::type_invariant]
    spec fn inv(self) -> bool {
        age_public(self.key@) == Some(self.public@) && !weak(self.public@) && printable(
            self.key@,
        )
    }

    /// The public key of the identity.
    pub closed spec fn public(self) -> Seq<char> {
        self.public@
    }

    /// Reads the text of a secret key.
    pub fn from_text(key: Vec<u8>) -> (r: Result<Identity, Error>)
        ensures
            match age_public(key@) {
                Some(p) => r matches Ok(id) && id@ == key@ && id.public() == p,
                None => r matches Err(e) && e@ == Failure::InvalidIdentity,
            },
    {
        match age_to_public(key.as_slice()) {
            Some(p) => match Recipient::parse(p.as_str()) {
                Ok(public) => Ok(Identity { key: Guarded::new(key), public }),
                Err(_) => Err(Error::InvalidIdentity),
            },
            None => Err(Error::InvalidIdentity),
        }
    }

    /// Picks a new secret key.
    pub fn generate() -> (r: Identity)
        ensures
            age_public(r@) == Some(r.public()),
            !weak(r.public()),
    {
        let id = Identity::from_text(age_generate()).unwrap();
        proof {
            use_type_invariant(&id);
        }
        id
    }

    /// The public key.
    pub fn to_public(&self) -> (r: Recipient)
        ensures
            r@ == self.public(),
            age_public(self@) == Some(r@),
            !weak(r@),
    {
        proof {
            use_type_invariant(self);
        }
        self.public.duplicate()
    }

    /// The text of the secret key.
    pub fn key_text(&self) -> (r: &[u8])
        ensures
            r@ == self@,
            age_public(r@) is Some,
            printable(r@),
    {
        proof {
            use_type_invariant(self);
        }
        self.key.as_bytes()
    }
}

// ---------------------------------------------------------------------------
// Encryption
// ---------------------------------------------------------------------------

/// Encrypts to a list of recipients.
pub fn encrypt(plaintext: &[u8], recipients: &[Recipient]) -> (r: Result<Vec<u8>, Error>)
    requires
        usable(texts(recipients@)),
    ensures
        r is Ok <==> recipients@.len() > 0,
        r matches Ok(ct) ==> encrypts(ct@, plaintext@, texts(recipients@)),
        r matches Err(e) ==> e@ == Failure::NoRecipients,
{
    let mut keys: Vec<String> = Vec::new();
    for i in 0..recipients.len()
        invariant
            usable(texts(recipients@)),
            keys@.len() == i,
            forall|j: int| 0 <= j < i ==> #[trigger] keys@[j]@ == recipients@[j]@,
            forall|j: int|
                0 <= j < i ==> age_recipient(#[trigger] keys@[j]@) == Some(keys@[j]@) && !weak(
                    keys@[j]@,
                ),
    {
        assert(!weak(texts(recipients@)[i as int]));
        keys.push(copy_text(recipients[i].as_str()));
    }
    assert(text::views(keys@) =~= texts(recipients@));
    match age_encrypt(plaintext, keys.as_slice()) {
        Some(ct) => Ok(ct),
        None => Err(Error::NoRecipients),
    }
}

/// What decrypting gives.
pub open spec fn decrypted(ciphertext: Seq<u8>, key: Seq<u8>) -> Result<Seq<u8>, Failure> {
    match age_plaintext(ciphertext, key) {
        Some(p) => Ok(p),
        None => Err(Failure::Decrypt),
    }
}

/// Decrypts with an identity. The plaintext is wiped once it is dropped.
pub fn decrypt(ciphertext: &[u8], identity: &Identity) -> (r: Result<Guarded, Error>)
    ensures
        error::agrees(r, decrypted(ciphertext@, identity@)),
{
    proof {
        use_type_invariant(identity);
    }
    match age_decrypt(ciphertext, identity.key.as_bytes()) {
        Some(p) => Ok(Guarded::new(p)),
        None => Err(Error::Decrypt),
    }
}

/// A text is read as a recipient exactly if `age` does, and as the one that it gives; a
/// ciphertext decrypts exactly if `age` decrypts it, and to what it gives.
pub proof fn law_reads_as_age_does(s: Seq<char>, ciphertext: Seq<u8>, key: Seq<u8>)
    ensures
        age_recipient(s) matches Some(t) ==> parsed_recipient(s) == Ok::<Seq<char>, Failure>(t),
        age_recipient(s) is None ==> parsed_recipient(s) == Err::<Seq<char>, Failure>(
            Failure::InvalidRecipient(s),
        ),
        age_plaintext(ciphertext, key) matches Some(p) ==> decrypted(ciphertext, key) == Ok::<
            Seq<u8>,
            Failure,
        >(p),
        age_plaintext(ciphertext, key) is None ==> decrypted(ciphertext, key) == Err::<
            Seq<u8>,
            Failure,
        >(Failure::Decrypt),
{
}

/// Secrets can be encrypted to a list exactly if they can be to each of its recipients.
pub proof fn law_usable_each(a: Seq<Seq<char>>, b: Seq<Seq<char>>, key: Seq<char>)
    ensures
        usable(a + b) <==> usable(a) && usable(b),
        usable(seq![key]) <==> !weak(key),
{
    if usable(a + b) {
        assert forall|i: int| 0 <= i < a.len() implies !weak(#[trigger] a[i]) by {
            assert((a + b)[i] == a[i]);
        }
        assert forall|i: int| 0 <= i < b.len() implies !weak(#[trigger] b[i]) by {
            assert((a + b)[a.len() + i] == b[i]);
        }
    }
    if usable(seq![key]) {
        assert(seq![key][0] == key);
    }
}

} // verus!
