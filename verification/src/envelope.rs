//! The envelope around a secret's payload.
//!
//! Before a payload is encrypted it gets a header that records the format, the
//! kind of the payload, the logical path and a generation:
//!
//! ```text
//! ksenv/2
//! text
//! github/token
//! 3
//!
//! <payload bytes…>
//! ```
//!
//! After decryption the header is checked. A ciphertext that was moved to another
//! path is refused, since the path inside does not match. The generation is held
//! against the index by the store (see [`crate::generations`]).

use vstd::prelude::*;
use vstd::utf8;

use crate::error;
use crate::error::{Error, Failure};
use crate::guard::Guarded;
use crate::secret::SecretKind;
use crate::text;
use crate::text::{copy_bytes, copy_text, number_text, push_bytes, same_bytes, to_lossy_text};

verus! {

/// The first line of every envelope, `ksenv/2` and its line break.
pub open spec fn magic() -> Seq<u8> {
    seq![107u8, 115, 101, 110, 118, 47, 50, 10]
}

/// The line that names a kind.
pub open spec fn tag(kind: SecretKind) -> Seq<u8> {
    match kind {
        SecretKind::Text => seq![116u8, 101, 120, 116],
        SecretKind::Binary => seq![98u8, 105, 110, 97, 114, 121],
    }
}

/// The byte between the lines of a header.
pub open spec fn newline() -> Seq<u8> {
    seq![10u8]
}

/// An envelope with the generation written as `digits`.
pub open spec fn layout(
    logical: Seq<char>,
    kind: SecretKind,
    digits: Seq<u8>,
    payload: Seq<u8>,
) -> Seq<u8> {
    magic() + (tag(kind) + newline() + (utf8::encode_utf8(logical) + newline() + (digits
        + newline() + (newline() + payload))))
}

/// The envelope of a payload.
pub open spec fn sealed(
    logical: Seq<char>,
    kind: SecretKind,
    generation: u64,
    payload: Seq<u8>,
) -> Seq<u8> {
    layout(logical, kind, text::decimal_bytes(generation as nat), payload)
}

/// What an envelope holds.
#[verifier::ext_equal]
pub struct Contents {
    pub kind: SecretKind,
    pub generation: u64,
    pub payload: Seq<u8>,
}

/// What was found in an envelope.
pub struct Unwrapped {
    /// How the payload is to be read.
    pub kind: SecretKind,
    /// The generation that was sealed when the secret was written.
    pub generation: u64,
    /// The payload.
    pub payload: Vec<u8>,
}

impl View for Unwrapped {
    type V = Contents;

    open spec fn view(&self) -> Contents {
        Contents { kind: self.kind, generation: self.generation, payload: self.payload@ }
    }
}

/// The bytes before the first line break, and those behind it.
pub open spec fn cut(bytes: Seq<u8>) -> Option<(Seq<u8>, Seq<u8>)> {
    match bytes.index_of_first(10u8) {
        Some(i) => Some((bytes.take(i), bytes.skip(i + 1))),
        None => None,
    }
}

/// The number that a generation line denotes, or why it denotes none: it takes
/// ASCII digits, at least one, and a value that fits.
pub open spec fn generation_of(b: Seq<u8>) -> Result<u64, Seq<char>> {
    if b.len() == 0 {
        Err("empty generation"@)
    } else if !text::all_digits(b) {
        Err("invalid generation `"@ + text::lossy_text(b) + "`"@)
    } else if text::digits_value(b) > u64::MAX {
        Err("generation overflow `"@ + text::lossy_text(b) + "`"@)
    } else {
        Ok(text::digits_value(b) as u64)
    }
}

/// The kind that a tag line names.
pub open spec fn kind_of(line: Seq<u8>) -> Option<SecretKind> {
    if line == tag(SecretKind::Text) {
        Some(SecretKind::Text)
    } else if line == tag(SecretKind::Binary) {
        Some(SecretKind::Binary)
    } else {
        None
    }
}

/// What opening an envelope at the path `expected` gives, or why it is refused.
pub open spec fn opened(expected: Seq<char>, bytes: Seq<u8>) -> Result<Contents, Seq<char>> {
    if !magic().is_prefix_of(bytes) {
        Err("missing or unsupported envelope header (corrupt or legacy secret)"@)
    } else {
        match cut(bytes.skip(magic().len() as int)) {
            None => Err("truncated envelope header"@),
            Some((tag_line, after_tag)) => match kind_of(tag_line) {
                None => Err("unknown secret kind in envelope"@),
                Some(kind) => opened_body(expected, kind, after_tag),
            },
        }
    }
}

/// The part of [`opened`] behind the tag line.
pub open spec fn opened_body(expected: Seq<char>, kind: SecretKind, bytes: Seq<u8>) -> Result<
    Contents,
    Seq<char>,
> {
    match cut(bytes) {
        None => Err("truncated envelope header"@),
        Some((path_line, after_path)) => if path_line != utf8::encode_utf8(expected) {
            Err(
                "bound path `"@ + text::lossy_text(path_line)
                    + "` does not match its location"@,
            )
        } else {
            match cut(after_path) {
                None => Err("truncated envelope header"@),
                Some((generation_line, after_generation)) => match generation_of(generation_line) {
                    Err(reason) => Err(reason),
                    Ok(generation) => if !newline().is_prefix_of(after_generation) {
                        Err("malformed envelope (missing header terminator)"@)
                    } else {
                        Ok(
                            Contents { kind, generation, payload: after_generation.skip(1) },
                        )
                    },
                },
            }
        },
    }
}

/// What unwrapping gives: a refusal names the path at which the envelope stood.
pub open spec fn unwrapped(expected: Seq<char>, bytes: Seq<u8>) -> Result<Contents, Failure> {
    match opened(expected, bytes) {
        Ok(c) => Ok(c),
        Err(reason) => Err(Failure::Tampered { path: expected, reason }),
    }
}

fn magic_bytes() -> (r: Vec<u8>)
    ensures
        r@ == magic(),
{
    let r: Vec<u8> = vec![107u8, 115, 101, 110, 118, 47, 50, 10];
    assert(r@ =~= magic());
    r
}

fn tag_bytes(kind: SecretKind) -> (r: Vec<u8>)
    ensures
        r@ == tag(kind),
{
    let r: Vec<u8> = match kind {
        SecretKind::Text => vec![116u8, 101, 120, 116],
        SecretKind::Binary => vec![98u8, 105, 110, 97, 114, 121],
    };
    assert(r@ =~= tag(kind));
    r
}

/// Wraps a payload in an envelope bound to a path, a kind and a generation. The
/// assembled plaintext is wiped once it is dropped.
pub fn wrap(logical: &str, kind: SecretKind, generation: u64, payload: &[u8]) -> (r: Guarded)
    ensures
        r@ == sealed(logical@, kind, generation, payload@),
{
    let digits = number_text(generation);
    proof {
        text::lemma_decimal_encoding(generation as nat);
    }
    let mut out = magic_bytes();
    push_bytes(&mut out, tag_bytes(kind).as_slice());
    out.push(10u8);
    push_bytes(&mut out, logical.as_bytes());
    out.push(10u8);
    push_bytes(&mut out, digits.as_str().as_bytes());
    out.push(10u8);
    out.push(10u8);
    push_bytes(&mut out, payload);
    assert(out@ =~= sealed(logical@, kind, generation, payload@));
    Guarded::new(out)
}

/// Splits bytes at the first line break.
fn split_line(bytes: &[u8]) -> (r: Option<(&[u8], &[u8])>)
    ensures
        r is Some <==> cut(bytes@) is Some,
        r matches Some(p) ==> cut(bytes@) == Some((p.0@, p.1@)),
{
    for i in 0..bytes.len()
        invariant
            forall|j: int| 0 <= j < i ==> bytes@[j] != 10u8,
    {
        if bytes[i] == 10u8 {
            proof {
                bytes@.index_of_first_ensures(10u8);
            }
            let line = vstd::slice::slice_subrange(bytes, 0, i);
            let rest = vstd::slice::slice_subrange(bytes, i + 1, bytes.len());
            assert(line@ =~= bytes@.take(i as int));
            assert(rest@ =~= bytes@.skip(i + 1));
            return Some((line, rest));
        }
    }
    proof {
        bytes@.index_of_first_ensures(10u8);
    }
    None
}

/// What follows a prefix.
fn strip_prefix<'a>(bytes: &'a [u8], prefix: &[u8]) -> (r: Option<&'a [u8]>)
    ensures
        r is Some <==> prefix@.is_prefix_of(bytes@),
        r matches Some(rest) ==> rest@ == bytes@.skip(prefix@.len() as int),
{
    if bytes.len() < prefix.len() {
        return None;
    }
    let head = vstd::slice::slice_subrange(bytes, 0, prefix.len());
    if same_bytes(head, prefix) {
        let rest = vstd::slice::slice_subrange(bytes, prefix.len(), bytes.len());
        assert(rest@ =~= bytes@.skip(prefix@.len() as int));
        Some(rest)
    } else {
        None
    }
}

/// A text between two others.
fn around(before: &str, middle: &str, after: &str) -> (r: String)
    ensures
        r@ == before@ + middle@ + after@,
{
    let mut r = copy_text(before);
    r.append(middle);
    r.append(after);
    r
}

/// Parses a generation: ASCII digits only, no sign, no white space.
pub fn parse_generation(bytes: &[u8]) -> (r: Result<u64, String>)
    ensures
        match generation_of(bytes@) {
            Ok(n) => r == Ok::<u64, String>(n),
            Err(reason) => r matches Err(s) && s@ == reason,
        },
{
    if bytes.len() == 0 {
        return Err(copy_text("empty generation"));
    }
    let mut value: u64 = 0;
    let mut fits = true;
    assert(bytes@.take(0) =~= Seq::<u8>::empty());
    for i in 0..bytes.len()
        invariant
            forall|j: int| 0 <= j < i ==> 48 <= #[trigger] bytes@[j] <= 57,
            fits ==> value == text::digits_value(bytes@.take(i as int)),
            !fits ==> text::digits_value(bytes@.take(i as int)) > u64::MAX,
            bytes@.len() > 0,
    {
        let b = bytes[i];
        if b < 48 || b > 57 {
            let name = to_lossy_text(bytes);
            assert(!text::all_digits(bytes@));
            return Err(around("invalid generation `", name.as_str(), "`"));
        }
        assert(bytes@.take(i + 1).drop_last() =~= bytes@.take(i as int));
        if fits {
            match value.checked_mul(10) {
                Some(tens) => match tens.checked_add((b - 48) as u64) {
                    Some(v) => {
                        value = v;
                    },
                    None => {
                        fits = false;
                    },
                },
                None => {
                    fits = false;
                },
            }
        }
    }
    assert(bytes@.take(bytes@.len() as int) =~= bytes@);
    if fits {
        Ok(value)
    } else {
        let name = to_lossy_text(bytes);
        Err(around("generation overflow `", name.as_str(), "`"))
    }
}

fn tampered(path: &str, reason: String) -> (r: Error)
    ensures
        r@ == (Failure::Tampered { path: path@, reason: reason@ }),
{
    Error::Tampered { path: copy_text(path), reason }
}

/// Opens an envelope: checks the format and that the path inside is `expected`.
pub fn unwrap(expected: &str, plaintext: &[u8]) -> (r: Result<Unwrapped, Error>)
    ensures
        error::agrees(r, unwrapped(expected@, plaintext@)),
{
    let head = magic_bytes();
    let rest = match strip_prefix(plaintext, head.as_slice()) {
        Some(rest) => rest,
        None => {
            return Err(
                tampered(
                    expected,
                    copy_text(
                        "missing or unsupported envelope header (corrupt or legacy secret)",
                    ),
                ),
            );
        },
    };
    let (tag_line, rest) = match split_line(rest) {
        Some(p) => p,
        None => {
            return Err(tampered(expected, copy_text("truncated envelope header")));
        },
    };
    let kind = if same_bytes(tag_line, tag_bytes(SecretKind::Text).as_slice()) {
        SecretKind::Text
    } else if same_bytes(tag_line, tag_bytes(SecretKind::Binary).as_slice()) {
        SecretKind::Binary
    } else {
        return Err(tampered(expected, copy_text("unknown secret kind in envelope")));
    };
    let (path_line, rest) = match split_line(rest) {
        Some(p) => p,
        None => {
            return Err(tampered(expected, copy_text("truncated envelope header")));
        },
    };
    if !same_bytes(path_line, expected.as_bytes()) {
        let name = to_lossy_text(path_line);
        return Err(
            tampered(
                expected,
                around("bound path `", name.as_str(), "` does not match its location"),
            ),
        );
    }
    let (generation_line, rest) = match split_line(rest) {
        Some(p) => p,
        None => {
            return Err(tampered(expected, copy_text("truncated envelope header")));
        },
    };
    let generation = match parse_generation(generation_line) {
        Ok(n) => n,
        Err(reason) => {
            return Err(tampered(expected, reason));
        },
    };
    let terminator: Vec<u8> = vec![10u8];
    assert(terminator@ =~= newline());
    match strip_prefix(rest, terminator.as_slice()) {
        Some(payload) => Ok(Unwrapped { kind, generation, payload: copy_bytes(payload) }),
        None => Err(
            tampered(expected, copy_text("malformed envelope (missing header terminator)")),
        ),
    }
}

// ---------------------------------------------------------------------------
// Laws
// ---------------------------------------------------------------------------

/// A line and its line break are cut off from what follows.
proof fn lemma_cut(line: Seq<u8>, rest: Seq<u8>)
    requires
        !line.contains(10u8),
    ensures
        cut(line + newline() + rest) == Some((line, rest)),
{
    let s = line + newline() + rest;
    assert(s[line.len() as int] == 10u8);
    s.index_of_first_ensures(10u8);
    let i = s.index_of_first(10u8).unwrap();
    if i < line.len() {
        assert(line[i] == s[i]);
        assert(line.contains(line[i]));
    }
    assert(s.take(i) =~= line);
    assert(s.skip(i + 1) =~= rest);
}

/// What a cut leaves makes up the whole again, and the line holds no line break.
proof fn lemma_cut_inverse(bytes: Seq<u8>)
    ensures
        cut(bytes) matches Some(p) ==> bytes == p.0 + newline() + p.1 && !p.0.contains(10u8),
{
    bytes.index_of_first_ensures(10u8);
    if let Some(p) = cut(bytes) {
        assert(bytes =~= p.0 + newline() + p.1);
        if p.0.contains(10u8) {
            let j = p.0.index_of(10u8);
            assert(bytes[j] == p.0[j]);
        }
    }
}

proof fn lemma_digits_no_newline(b: Seq<u8>)
    requires
        text::all_digits(b),
    ensures
        !b.contains(10u8),
{
    if b.contains(10u8) {
        let i = b.index_of(10u8);
        assert(b[i] == 10u8);
    }
}

proof fn lemma_tags()
    ensures
        !tag(SecretKind::Text).contains(10u8),
        !tag(SecretKind::Binary).contains(10u8),
        kind_of(tag(SecretKind::Text)) == Some(SecretKind::Text),
        kind_of(tag(SecretKind::Binary)) == Some(SecretKind::Binary),
{
    assert(tag(SecretKind::Text).len() == 4);
    assert(tag(SecretKind::Binary).len() == 6);
}

/// Opening a layout compares the path inside with the expected one and gives back
/// the rest.
proof fn lemma_opened_layout(
    expected: Seq<char>,
    logical: Seq<char>,
    kind: SecretKind,
    digits: Seq<u8>,
    payload: Seq<u8>,
)
    requires
        !logical.contains('\n'),
        text::all_digits(digits),
        digits.len() > 0,
        text::digits_value(digits) <= u64::MAX,
    ensures
        expected == logical ==> opened(expected, layout(logical, kind, digits, payload)) == Ok::<
            Contents,
            Seq<char>,
        >(Contents { kind, generation: text::digits_value(digits) as u64, payload }),
        expected != logical ==> opened(expected, layout(logical, kind, digits, payload)) == Err::<
            Contents,
            Seq<char>,
        >(
            "bound path `"@ + text::lossy_text(utf8::encode_utf8(logical))
                + "` does not match its location"@,
        ),
{
    let whole = layout(logical, kind, digits, payload);
    let end = newline() + payload;
    let third = digits + newline() + end;
    let second = utf8::encode_utf8(logical) + newline() + third;
    let first = tag(kind) + newline() + second;
    assert(magic().is_prefix_of(whole)) by {
        assert(whole.subrange(0, magic().len() as int) =~= magic());
    }
    assert(whole.skip(magic().len() as int) =~= first);
    lemma_tags();
    lemma_cut(tag(kind), second);
    text::lemma_encode_newline(logical);
    lemma_cut(utf8::encode_utf8(logical), third);
    lemma_digits_no_newline(digits);
    lemma_cut(digits, end);
    assert(newline().is_prefix_of(end)) by {
        assert(end.subrange(0, 1) =~= newline());
    }
    assert(end.skip(1) =~= payload);
    if expected != logical {
        utf8::encode_utf8_decode_utf8(expected);
        utf8::encode_utf8_decode_utf8(logical);
    }
}

/// Opening what was sealed at the same path gives back kind, generation and
/// payload, whatever the payload holds.
pub proof fn law_envelope_roundtrip(
    logical: Seq<char>,
    kind: SecretKind,
    generation: u64,
    payload: Seq<u8>,
)
    requires
        !logical.contains('\n'),
    ensures
        unwrapped(logical, sealed(logical, kind, generation, payload)) == Ok::<Contents, Failure>(
            Contents { kind, generation, payload },
        ),
{
    text::lemma_decimal_value(generation as nat);
    lemma_opened_layout(
        logical,
        logical,
        kind,
        text::decimal_bytes(generation as nat),
        payload,
    );
}

/// What was sealed at one path is refused at every other path.
pub proof fn law_envelope_binds_path(
    logical: Seq<char>,
    elsewhere: Seq<char>,
    kind: SecretKind,
    generation: u64,
    payload: Seq<u8>,
)
    requires
        !logical.contains('\n'),
        elsewhere != logical,
    ensures
        unwrapped(elsewhere, sealed(logical, kind, generation, payload)) matches Err(
            Failure::Tampered { path, .. },
        ) && path == elsewhere,
{
    text::lemma_decimal_value(generation as nat);
    lemma_opened_layout(
        elsewhere,
        logical,
        kind,
        text::decimal_bytes(generation as nat),
        payload,
    );
}

/// An envelope is accepted at a path exactly if it has the documented layout with
/// that path.
pub proof fn law_envelope_accepts_layout(
    expected: Seq<char>,
    bytes: Seq<u8>,
    contents: Contents,
)
    requires
        !expected.contains('\n'),
    ensures
        unwrapped(expected, bytes) == Ok::<Contents, Failure>(contents) <==> exists|digits: Seq<u8>|
            #![trigger layout(expected, contents.kind, digits, contents.payload)]
            digits.len() > 0 && text::all_digits(digits) && text::digits_value(digits)
                == contents.generation && bytes == layout(
                expected,
                contents.kind,
                digits,
                contents.payload,
            ),
{
    if unwrapped(expected, bytes) == Ok::<Contents, Failure>(contents) {
        let first = bytes.skip(magic().len() as int);
        assert(bytes =~= magic() + first);
        lemma_cut_inverse(first);
        let second = cut(first).unwrap().1;
        lemma_cut_inverse(second);
        let third = cut(second).unwrap().1;
        lemma_cut_inverse(third);
        let digits = cut(third).unwrap().0;
        let end = cut(third).unwrap().1;
        assert(end =~= newline() + contents.payload);
        lemma_tags();
        assert(tag(contents.kind) == cut(first).unwrap().0);
        assert(bytes =~= layout(expected, contents.kind, digits, contents.payload));
    }
    if exists|digits: Seq<u8>|
        #![trigger layout(expected, contents.kind, digits, contents.payload)]
        digits.len() > 0 && text::all_digits(digits) && text::digits_value(digits)
            == contents.generation && bytes == layout(
            expected,
            contents.kind,
            digits,
            contents.payload,
        ) {
        let digits = choose|digits: Seq<u8>|
            #![trigger layout(expected, contents.kind, digits, contents.payload)]
            digits.len() > 0 && text::all_digits(digits) && text::digits_value(digits)
                == contents.generation && bytes == layout(
                expected,
                contents.kind,
                digits,
                contents.payload,
            );
        lemma_opened_layout(expected, expected, contents.kind, digits, contents.payload);
    }
}

/// A generation written in decimal is read back.
pub proof fn law_generation_roundtrip(generation: u64)
    ensures
        generation_of(text::decimal_bytes(generation as nat)) == Ok::<u64, Seq<char>>(generation),
{
    text::lemma_decimal_value(generation as nat);
}

/// A generation line is refused exactly where it is empty, has a byte that is no ASCII
/// digit, or says a number that does not fit.
pub proof fn law_generation_line(b: Seq<u8>)
    ensures
        generation_of(b) is Ok <==> b.len() > 0 && (forall|i: int|
            0 <= i < b.len() ==> 48 <= #[trigger] b[i] <= 57) && text::digits_value(b)
            <= u64::MAX,
        generation_of(b) matches Ok(n) ==> n == text::digits_value(b),
{
    if forall|i: int| 0 <= i < b.len() ==> 48 <= #[trigger] b[i] <= 57 {
        assert(text::all_digits(b));
    }
}

/// An envelope is a header of four lines, with the format, the kind, the path and the
/// generation in decimal, an empty line, and then the payload as it is.
pub proof fn law_envelope_layout(logical: Seq<char>, generation: u64, payload: Seq<u8>)
    ensures
        sealed(logical, SecretKind::Text, generation, payload) == utf8::encode_utf8(
            "ksenv/2\ntext\n"@ + logical + seq!['\n'] + text::decimal(generation as nat) + seq![
                '\n',
                '\n',
            ],
        ) + payload,
        sealed(logical, SecretKind::Binary, generation, payload) == utf8::encode_utf8(
            "ksenv/2\nbinary\n"@ + logical + seq!['\n'] + text::decimal(generation as nat) + seq![
                '\n',
                '\n',
            ],
        ) + payload,
{
    reveal_strlit("ksenv/2\ntext\n");
    reveal_strlit("ksenv/2\nbinary\n");
    lemma_header_bytes("ksenv/2\ntext\n"@, logical, generation);
    lemma_header_bytes("ksenv/2\nbinary\n"@, logical, generation);
    assert(utf8::is_ascii_chars("ksenv/2\ntext\n"@));
    utf8::is_ascii_chars_encode_utf8("ksenv/2\ntext\n"@);
    assert(utf8::encode_utf8("ksenv/2\ntext\n"@) =~= magic() + tag(SecretKind::Text) + newline());
    assert(utf8::is_ascii_chars("ksenv/2\nbinary\n"@));
    utf8::is_ascii_chars_encode_utf8("ksenv/2\nbinary\n"@);
    assert(utf8::encode_utf8("ksenv/2\nbinary\n"@) =~= magic() + tag(SecretKind::Binary)
        + newline());
    let path = utf8::encode_utf8(logical);
    let digits = text::decimal_bytes(generation as nat);
    assert(sealed(logical, SecretKind::Text, generation, payload) =~= (magic() + tag(
        SecretKind::Text,
    ) + newline()) + path + newline() + digits + (newline() + newline()) + payload);
    assert(sealed(logical, SecretKind::Binary, generation, payload) =~= (magic() + tag(
        SecretKind::Binary,
    ) + newline()) + path + newline() + digits + (newline() + newline()) + payload);
}

/// The bytes of a header, line by line.
proof fn lemma_header_bytes(start: Seq<char>, logical: Seq<char>, generation: u64)
    ensures
        utf8::encode_utf8(
            start + logical + seq!['\n'] + text::decimal(generation as nat) + seq!['\n', '\n'],
        ) == utf8::encode_utf8(start) + utf8::encode_utf8(logical) + newline()
            + text::decimal_bytes(generation as nat) + (newline() + newline()),
{
    let digits = text::decimal(generation as nat);
    let one = seq!['\n'];
    let two = seq!['\n', '\n'];
    text::lemma_encode_concat(start + logical + one + digits, two);
    text::lemma_encode_concat(start + logical + one, digits);
    text::lemma_encode_concat(start + logical, one);
    text::lemma_encode_concat(start, logical);
    text::lemma_decimal_encoding(generation as nat);
    assert(utf8::is_ascii_chars(one));
    assert(utf8::is_ascii_chars(two));
    utf8::is_ascii_chars_encode_utf8(one);
    utf8::is_ascii_chars_encode_utf8(two);
    assert(utf8::encode_utf8(one) =~= newline());
    assert(utf8::encode_utf8(two) =~= newline() + newline());
}

} // verus!
