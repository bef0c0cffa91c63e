//! The plaintext of a secret.
//!
//! The payload is text, whose first line is the value and whose further lines may
//! be `key: value` fields, or raw binary.

use vstd::prelude::*;
use vstd::utf8;

use crate::guard::Guarded;
use crate::text;
use crate::text::{copy_bytes, find_char, same_text, trim_str, utf8_text};

verus! {

/// How a payload is to be read.
#[derive(Debug, Clone, Copy, PartialEq, Eq, Structural)]
pub enum SecretKind {
    /// Text: value and fields.
    Text,
    /// Raw bytes.
    Binary,
}

impl View for SecretKind {
    type V = SecretKind;

    open spec fn view(&self) -> SecretKind {
        *self
    }
}

/// A secret in memory. The payload is wiped on drop.
pub struct Secret {
    bytes: Guarded,
    kind: SecretKind,
}

/// What a [`Secret`] holds.
#[verifier::ext_equal]
pub struct Payload {
    pub bytes: Seq<u8>,
    pub kind: SecretKind,
}

impl View for Secret {
    type V = Payload;

    closed spec fn view(&self) -> Payload {
        Payload { bytes: self.bytes@, kind: self.kind }
    }
}

/// The text of a payload: what a text payload encodes, and nothing for a binary
/// payload or one that is not UTF-8.
pub open spec fn exposed(p: Payload) -> Seq<char> {
    if p.kind == SecretKind::Text && utf8::valid_utf8(p.bytes) {
        utf8::decode_utf8(p.bytes)
    } else {
        Seq::empty()
    }
}

/// A line without the carriage return that may end it.
pub open spec fn chomped(line: Seq<char>) -> Seq<char> {
    if line.len() > 0 && line.last() == '\r' {
        line.drop_last()
    } else {
        line
    }
}

/// The value of a payload: the first line of its text.
pub open spec fn first_line(p: Payload) -> Seq<char> {
    chomped(text::pieces(exposed(p), '\n')[0])
}

/// Whether a line is a field named `key`: the text before its first colon,
/// without surrounding white space, is `key`.
pub open spec fn names_field(line: Seq<char>, key: Seq<char>) -> bool {
    line.contains(':') && text::trimmed(line.take(line.index_of_first(':').unwrap())) == key
}

/// What stands behind the first colon of a line, without surrounding white space.
pub open spec fn field_value(line: Seq<char>) -> Seq<char> {
    text::trimmed(line.skip(line.index_of_first(':').unwrap() + 1))
}

/// The value of the first of `lines` that is a field named `key`.
pub open spec fn field_in(lines: Seq<Seq<char>>, key: Seq<char>) -> Option<Seq<char>>
    decreases lines.len(),
{
    if lines.len() == 0 {
        None
    } else if names_field(lines[0], key) {
        Some(field_value(lines[0]))
    } else {
        field_in(lines.drop_first(), key)
    }
}

/// Splits a text at its first line break, if it has one.
fn next_line(s: &str) -> (r: (&str, Option<&str>))
    ensures
        text::pieces(s@, '\n') == (match r.1 {
            Some(rest) => seq![r.0@] + text::pieces(rest@, '\n'),
            None => seq![r.0@],
        }),
        r.1 matches Some(rest) ==> rest@.len() < s@.len(),
{
    match find_char(s, '\n') {
        Some(i) => {
            let total: usize = s.unicode_len();
            let line = s.substring_char(0, i);
            let rest = s.substring_char(i + 1, total);
            proof {
                assert(line@ =~= s@.take(i as int));
                text::lemma_pieces_single(line@, '\n');
                text::lemma_pieces_concat(line@, rest@, '\n');
                assert(line@ + seq!['\n'] + rest@ =~= s@);
            }
            (line, Some(rest))
        },
        None => {
            proof {
                text::lemma_pieces_single(s@, '\n');
            }
            (s, None)
        },
    }
}

/// The value of the first line of a text that is a field named `key`.
fn find_field<'a>(s: &'a str, key: &str) -> (r: Option<&'a str>)
    ensures
        match field_in(text::pieces(s@, '\n'), key@) {
            Some(v) => r matches Some(x) && x@ == v,
            None => r is None,
        },
    decreases s@.len(),
{
    let (line, after) = next_line(s);
    let ghost lines = text::pieces(s@, '\n');
    assert(lines[0] == line@);
    if let Some(at) = find_char(line, ':') {
        proof {
            line@.index_of_first_ensures(':');
            let i = line@.index_of_first(':').unwrap();
            if i < at {
                assert(line@.take(at as int)[i] == ':');
                assert(line@.take(at as int).contains(':'));
            }
            assert(i == at);
        }
        let total: usize = line.unicode_len();
        let name = line.substring_char(0, at);
        assert(name@ =~= line@.take(at as int));
        if same_text(trim_str(name), key) {
            let value = line.substring_char(at + 1, total);
            assert(value@ =~= line@.skip(at + 1));
            return Some(trim_str(value));
        }
    }
    assert(!names_field(line@, key@));
    assert(field_in(lines, key@) == field_in(lines.drop_first(), key@));
    match after {
        Some(rest) => {
            assert(lines.drop_first() =~= text::pieces(rest@, '\n'));
            find_field(rest, key)
        },
        None => {
            assert(lines.drop_first() =~= Seq::<Seq<char>>::empty());
            assert(field_in(Seq::<Seq<char>>::empty(), key@) is None);
            None
        },
    }
}

impl Secret {
    /// A text secret.
    pub fn new(value: &str) -> (r: Self)
        ensures
            r@ == (Payload { bytes: utf8::encode_utf8(value@), kind: SecretKind::Text }),
    {
        Secret { bytes: Guarded::new(copy_bytes(value.as_bytes())), kind: SecretKind::Text }
    }

    /// A secret with the given payload.
    pub fn from_bytes(bytes: Vec<u8>, kind: SecretKind) -> (r: Self)
        ensures
            r@ == (Payload { bytes: bytes@, kind }),
    {
        Secret { bytes: Guarded::new(bytes), kind }
    }

    /// How the payload is to be read.
    pub fn kind(&self) -> (r: SecretKind)
        ensures
            r == self@.kind,
    {
        self.kind
    }

    /// The payload.
    pub fn as_bytes(&self) -> (r: &[u8])
        ensures
            r@ == self@.bytes,
    {
        self.bytes.as_bytes()
    }

    /// Whether the payload is raw bytes.
    pub fn is_binary(&self) -> (r: bool)
        ensures
            r == (self@.kind == SecretKind::Binary),
    {
        match self.kind {
            SecretKind::Text => false,
            SecretKind::Binary => true,
        }
    }

    /// The payload as text; empty for a binary payload.
    pub fn expose(&self) -> (r: &str)
        ensures
            r@ == exposed(self@),
    {
        match self.kind {
            SecretKind::Text => match utf8_text(self.bytes.as_bytes()) {
                Ok(s) => s,
                Err(_) => {
                    proof {
                        reveal_strlit("");
                    }
                    assert(""@ =~= Seq::<char>::empty());
                    ""
                },
            },
            SecretKind::Binary => {
                proof {
                    reveal_strlit("");
                }
                assert(""@ =~= Seq::<char>::empty());
                ""
            },
        }
    }

    /// The value: the first line of the text.
    pub fn password(&self) -> (r: &str)
        ensures
            r@ == first_line(self@),
    {
        let (line, _) = next_line(self.expose());
        let n: usize = line.unicode_len();
        if n > 0 && line.get_char(n - 1) == '\r' {
            let cut = line.substring_char(0, n - 1);
            assert(cut@ =~= line@.drop_last());
            cut
        } else {
            line
        }
    }

    /// The value of the field `key`: of the first line after the value whose text
    /// before the colon is `key`.
    pub fn get(&self, key: &str) -> (r: Option<&str>)
        ensures
            match field_in(text::pieces(exposed(self@), '\n').drop_first(), key@) {
                Some(v) => r matches Some(x) && x@ == v,
                None => r is None,
            },
    {
        let (head, rest) = next_line(self.expose());
        match rest {
            Some(s) => {
                assert((seq![head@] + text::pieces(s@, '\n')).drop_first() =~= text::pieces(
                    s@,
                    '\n',
                ));
                find_field(s, key)
            },
            None => {
                assert(seq![head@].drop_first() =~= Seq::<Seq<char>>::empty());
                None
            },
        }
    }
}

// ---------------------------------------------------------------------------
// Laws
// ---------------------------------------------------------------------------

/// A text secret exposes the text that it was made of, and a binary one nothing.
pub proof fn law_exposed(s: Seq<char>, bytes: Seq<u8>)
    ensures
        exposed(Payload { bytes: utf8::encode_utf8(s), kind: SecretKind::Text }) == s,
        exposed(Payload { bytes, kind: SecretKind::Binary }) == Seq::<char>::empty(),
{
    utf8::encode_utf8_valid_utf8(s);
    utf8::encode_utf8_decode_utf8(s);
}

/// The value of a text is what stands before its first line break, which is a line feed
/// with a carriage return before it or not; a text without a line break is the value
/// itself. Whatever follows the line break does not matter.
pub proof fn law_first_line(p: Payload, line: Seq<char>, rest: Seq<char>)
    requires
        !line.contains('\n'),
    ensures
        exposed(p) == line + seq!['\r', '\n'] + rest ==> first_line(p) == line,
        exposed(p) == line + seq!['\n'] + rest && (line.len() > 0 ==> line.last() != '\r')
            ==> first_line(p) == line,
        exposed(p) == line && (line.len() > 0 ==> line.last() != '\r') ==> first_line(p) == line,
{
    text::lemma_pieces_single(line, '\n');
    text::lemma_pieces_concat(line, rest, '\n');
    let long = line.push('\r');
    assert(!long.contains('\n')) by {
        if long.contains('\n') {
            let i = long.index_of('\n');
            if i < line.len() {
                assert(line[i] == '\n');
            }
        }
    }
    text::lemma_pieces_single(long, '\n');
    text::lemma_pieces_concat(long, rest, '\n');
    assert(long + seq!['\n'] + rest =~= line + seq!['\r', '\n'] + rest);
    assert(long.drop_last() =~= line);
}

/// A field is found on the first line that has its name before the first colon; its
/// value is what stands behind that colon, without surrounding white space.
pub proof fn law_field(
    before: Seq<Seq<char>>,
    name: Seq<char>,
    value: Seq<char>,
    after: Seq<Seq<char>>,
    key: Seq<char>,
)
    requires
        !name.contains(':'),
        text::trimmed(name) == key,
        forall|i: int| 0 <= i < before.len() ==> !names_field(#[trigger] before[i], key),
    ensures
        field_in(before + seq![name + seq![':'] + value] + after, key) == Some(
            text::trimmed(value),
        ),
    decreases before.len(),
{
    let line = name + seq![':'] + value;
    let lines = before + seq![line] + after;
    if before.len() == 0 {
        assert(lines[0] == line);
        assert(line[name.len() as int] == ':');
        line.index_of_first_ensures(':');
        let i = line.index_of_first(':').unwrap();
        if i < name.len() {
            assert(name[i] == ':');
        }
        assert(i == name.len());
        assert(line.take(i) =~= name);
        assert(line.skip(i + 1) =~= value);
    } else {
        assert(lines[0] == before[0]);
        assert(lines.drop_first() =~= before.drop_first() + seq![line] + after);
        assert forall|i: int| 0 <= i < before.drop_first().len() implies !names_field(
            #[trigger] before.drop_first()[i],
            key,
        ) by {
            assert(before.drop_first()[i] == before[i + 1]);
        }
        law_field(before.drop_first(), name, value, after, key);
    }
}

/// A line without a colon is no field, and without a field of the name there is none.
pub proof fn law_no_field(lines: Seq<Seq<char>>, line: Seq<char>, key: Seq<char>)
    ensures
        !line.contains(':') ==> !names_field(line, key),
        (forall|i: int| 0 <= i < lines.len() ==> !names_field(#[trigger] lines[i], key)) ==> field_in(
            lines,
            key,
        ) is None,
    decreases lines.len(),
{
    if lines.len() > 0 && (forall|i: int|
        0 <= i < lines.len() ==> !names_field(#[trigger] lines[i], key)) {
        assert(!names_field(lines[0], key));
        assert forall|i: int| 0 <= i < lines.drop_first().len() implies !names_field(
            #[trigger] lines.drop_first()[i],
            key,
        ) by {
            assert(lines.drop_first()[i] == lines[i + 1]);
        }
        law_no_field(lines.drop_first(), line, key);
    }
}

/// A line is a field of a name exactly if what stands before its first colon is the name,
/// white space around it aside; the value is what stands behind that colon.
pub proof fn law_field_line(name: Seq<char>, value: Seq<char>, key: Seq<char>)
    requires
        !name.contains(':'),
    ensures
        names_field(name + seq![':'] + value, key) <==> text::trimmed(name) == key,
        field_value(name + seq![':'] + value) == text::trimmed(value),
{
    let line = name + seq![':'] + value;
    assert(line[name.len() as int] == ':');
    line.index_of_first_ensures(':');
    let i = line.index_of_first(':').unwrap();
    if i < name.len() {
        assert(name[i] == ':');
    }
    assert(i == name.len());
    assert(line.take(i) =~= name);
    assert(line.skip(i + 1) =~= value);
}

} // verus!
