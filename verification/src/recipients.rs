//! The recipient list, `.age-recipients`.
//!
//! One recipient per line. Blank lines and lines that start with `#` are passed
//! over.

use vstd::prelude::*;
use vstd::utf8;

use crate::crypto;
use crate::crypto::Recipient;
use crate::error;
use crate::error::{Error, Failure};
use crate::text;
use crate::text::{
    copy_bytes, copy_text, from_chars, split_chars, to_chars, trim_chars, utf8_text,
};

verus! {

/// The name of the recipient list at the store's root.
pub const RECIPIENTS_FILE: &'static str = ".age-recipients";

/// The recipients on some lines, or the first line that is none.
pub open spec fn recipients_on(lines: Seq<Seq<char>>) -> Result<Seq<Seq<char>>, Failure>
    decreases lines.len(),
{
    if lines.len() == 0 {
        Ok(Seq::empty())
    } else {
        match recipients_on(lines.drop_last()) {
            Err(e) => Err(e),
            Ok(before) => {
                let t = text::trimmed(lines.last());
                if t.len() == 0 || t[0] == '#' {
                    Ok(before)
                } else {
                    match crypto::parsed_recipient(t) {
                        Ok(r) => Ok(before.push(r)),
                        Err(e) => Err(e),
                    }
                }
            },
        }
    }
}

/// The recipients that a file lists. A file without any is refused.
pub open spec fn recipients_in(bytes: Seq<u8>) -> Result<Seq<Seq<char>>, Failure> {
    if !utf8::valid_utf8(bytes) {
        Err(Failure::InvalidData("recipient list is not valid UTF-8"@))
    } else {
        match recipients_on(text::pieces(utf8::decode_utf8(bytes), '\n')) {
            Ok(list) => if list.len() == 0 {
                Err(Failure::NoRecipients)
            } else {
                Ok(list)
            },
            Err(e) => Err(e),
        }
    }
}

/// Reads a recipient list.
pub fn parse_recipients(bytes: &[u8]) -> (r: Result<Vec<Recipient>, Error>)
    ensures
        match recipients_in(bytes@) {
            Ok(list) => r matches Ok(v) && crypto::texts(v@) == list,
            Err(f) => r matches Err(e) && e@ == f,
        },
{
    let body = match utf8_text(bytes) {
        Ok(s) => s,
        Err(_) => {
            return Err(Error::InvalidData(copy_text("recipient list is not valid UTF-8")));
        },
    };
    let cs = to_chars(body);
    let lines = split_chars(cs.as_slice(), '\n');
    let ghost all = text::pieces(body@, '\n');
    let mut out: Vec<Recipient> = Vec::new();
    assert(all.take(0) =~= Seq::empty());
    assert(crypto::texts(out@) =~= Seq::empty());
    for i in 0..lines.len()
        invariant
            utf8::valid_utf8(bytes@),
            body@ == utf8::decode_utf8(bytes@),
            all == text::pieces(body@, '\n'),
            lines@.len() == all.len(),
            forall|j: int| 0 <= j < lines@.len() ==> #[trigger] lines@[j]@ == all[j],
            recipients_on(all.take(i as int)) == Ok::<Seq<Seq<char>>, Failure>(
                crypto::texts(out@),
            ),
    {
        assert(all.take(i + 1).drop_last() =~= all.take(i as int));
        assert(all.take(i + 1).last() == lines@[i as int]@);
        let t = trim_chars(lines[i].as_slice());
        if t.len() > 0 && t[0] != '#' {
            let s = from_chars(t.as_slice());
            match Recipient::parse(s.as_str()) {
                Ok(r) => {
                    let ghost before = out@;
                    out.push(r);
                    assert(crypto::texts(out@) =~= crypto::texts(before).push(r@));
                },
                Err(e) => {
                    proof {
                        lemma_first_failure(all, i as int);
                    }
                    return Err(e);
                },
            }
        }
    }
    assert(all.take(all.len() as int) =~= all);
    if out.len() == 0 {
        Err(Error::NoRecipients)
    } else {
        Ok(out)
    }
}

/// A failure on some line is the failure of the whole.
proof fn lemma_first_failure(lines: Seq<Seq<char>>, i: int)
    requires
        0 <= i < lines.len(),
        recipients_on(lines.take(i + 1)) is Err,
    ensures
        recipients_on(lines) == recipients_on(lines.take(i + 1)),
    decreases lines.len(),
{
    if i + 1 == lines.len() {
        assert(lines.take(i + 1) =~= lines);
    } else {
        assert(lines.drop_last().take(i + 1) =~= lines.take(i + 1));
        lemma_first_failure(lines.drop_last(), i);
    }
}

/// The text of a recipient list: one line for each.
pub open spec fn recipient_lines(list: Seq<Seq<char>>) -> Seq<char>
    decreases list.len(),
{
    if list.len() == 0 {
        Seq::empty()
    } else {
        recipient_lines(list.drop_last()) + list.last() + seq!['\n']
    }
}

/// The bytes of a recipient list.
pub open spec fn recipients_body(list: Seq<Seq<char>>) -> Seq<u8> {
    utf8::encode_utf8(recipient_lines(list))
}

/// Writes a recipient list.
pub fn render_recipients(list: &[Recipient]) -> (r: Vec<u8>)
    ensures
        r@ == recipients_body(crypto::texts(list@)),
{
    let ghost all = crypto::texts(list@);
    let mut body = String::new();
    assert(all.take(0) =~= Seq::empty());
    for i in 0..list.len()
        invariant
            all == crypto::texts(list@),
            body@ == recipient_lines(all.take(i as int)),
    {
        assert(all.take(i + 1).drop_last() =~= all.take(i as int));
        body.append(list[i].as_str());
        body.push('\n');
        assert(body@ =~= recipient_lines(all.take(i + 1)));
    }
    assert(all.take(all.len() as int) =~= all);
    copy_bytes(body.as_str().as_bytes())
}

// ---------------------------------------------------------------------------
// Laws
// ---------------------------------------------------------------------------

proof fn lemma_key_is_trimmed(t: Seq<char>)
    requires
        Recipient::canonical(t),
    ensures
        text::trimmed(t) == t,
        t[0] != '#',
        !t.contains('\n'),
{
    assert(crypto::key_char(t[0]));
    assert(crypto::key_char(t[t.len() - 1]));
    if t.contains('\n') {
        let i = t.index_of('\n');
        assert(crypto::key_char(t[i]));
    }
}

/// Lines of recipients, and the empty line that ends them, list those recipients.
proof fn lemma_recipient_lines(list: Seq<Seq<char>>)
    requires
        forall|i: int| 0 <= i < list.len() ==> Recipient::canonical(#[trigger] list[i]),
    ensures
        text::pieces(recipient_lines(list), '\n') == list.push(Seq::empty()),
        recipients_on(list) == Ok::<Seq<Seq<char>>, Failure>(list),
    decreases list.len(),
{
    if list.len() == 0 {
        assert(list =~= Seq::empty());
        assert(text::pieces(recipient_lines(list), '\n') =~= list.push(Seq::empty()));
    } else {
        let rest = list.drop_last();
        let t = list.last();
        assert(Recipient::canonical(list[list.len() - 1]));
        assert forall|i: int| 0 <= i < rest.len() implies Recipient::canonical(
            #[trigger] rest[i],
        ) by {
            assert(rest[i] == list[i]);
        }
        lemma_recipient_lines(rest);
        lemma_key_is_trimmed(t);
        let before = recipient_lines(rest);
        text::lemma_pieces_single(t, '\n');
        text::lemma_pieces_append(before, t, '\n');
        text::lemma_pieces_concat(before + t, Seq::empty(), '\n');
        assert(before + t + seq!['\n'] + Seq::<char>::empty() =~= recipient_lines(list));
        assert(text::pieces(Seq::<char>::empty(), '\n') =~= seq![Seq::<char>::empty()]);
        assert(text::pieces(recipient_lines(list), '\n') =~= list.push(Seq::empty()));
        assert(rest.push(t) =~= list);
    }
}

/// A recipient list that is written and read again is the same.
pub proof fn law_recipients_roundtrip(list: Seq<Seq<char>>)
    requires
        list.len() > 0,
        forall|i: int| 0 <= i < list.len() ==> Recipient::canonical(#[trigger] list[i]),
    ensures
        recipients_in(recipients_body(list)) == Ok::<Seq<Seq<char>>, Failure>(list),
{
    let body = recipient_lines(list);
    utf8::encode_utf8_valid_utf8(body);
    utf8::encode_utf8_decode_utf8(body);
    lemma_recipient_lines(list);
    let lines = list.push(Seq::<char>::empty());
    assert(lines.drop_last() =~= list);
    assert(lines.last() == Seq::<char>::empty());
    assert(text::trimmed(Seq::<char>::empty()).len() == 0);
    assert(recipients_on(lines) == recipients_on(list));
}

/// Whether a line is blank, a comment, or a recipient.
pub open spec fn line_reads(line: Seq<char>) -> bool {
    let t = text::trimmed(line);
    t.len() == 0 || t[0] == '#' || crypto::parsed_recipient(t) is Ok
}

/// Whether a line is that of a recipient.
pub open spec fn line_lists(line: Seq<char>, key: Seq<char>) -> bool {
    let t = text::trimmed(line);
    t.len() > 0 && t[0] != '#' && crypto::parsed_recipient(t) == Ok::<Seq<char>, Failure>(key)
}

/// Lines can be read if each of them can, and list what each of them lists.
proof fn lemma_recipients_on(lines: Seq<Seq<char>>)
    ensures
        recipients_on(lines) is Ok <==> forall|i: int|
            0 <= i < lines.len() ==> line_reads(#[trigger] lines[i]),
        recipients_on(lines) matches Ok(list) ==> forall|key: Seq<char>| #[trigger]
            list.contains(key) <==> exists|i: int|
                0 <= i < lines.len() && line_lists(#[trigger] lines[i], key),
    decreases lines.len(),
{
    if lines.len() > 0 {
        let rest = lines.drop_last();
        let last = lines[lines.len() - 1];
        lemma_recipients_on(rest);
        assert(forall|i: int| 0 <= i < rest.len() ==> #[trigger] rest[i] == lines[i]);
        if forall|i: int| 0 <= i < lines.len() ==> line_reads(#[trigger] lines[i]) {
            assert forall|i: int| 0 <= i < rest.len() implies line_reads(#[trigger] rest[i]) by {
                assert(line_reads(lines[i]));
            }
            assert(line_reads(last));
        }
        if let Ok(list) = recipients_on(lines) {
            assert forall|i: int| 0 <= i < lines.len() implies line_reads(
                #[trigger] lines[i],
            ) by {
                if i < rest.len() {
                    assert(line_reads(rest[i]));
                }
            }
            let before = recipients_on(rest)->Ok_0;
            assert forall|key: Seq<char>| #[trigger] list.contains(key) <==> exists|i: int|
                0 <= i < lines.len() && line_lists(#[trigger] lines[i], key) by {
                if list.contains(key) {
                    let j = list.index_of(key);
                    if j < before.len() {
                        assert(before[j] == key);
                        assert(before.contains(key));
                        let i = choose|i: int|
                            0 <= i < rest.len() && line_lists(#[trigger] rest[i], key);
                        assert(line_lists(lines[i], key));
                    } else {
                        assert(line_lists(last, key));
                    }
                }
                if exists|i: int| 0 <= i < lines.len() && line_lists(#[trigger] lines[i], key) {
                    let i = choose|i: int|
                        0 <= i < lines.len() && line_lists(#[trigger] lines[i], key);
                    if i < rest.len() {
                        assert(line_lists(rest[i], key));
                        assert(before.contains(key));
                        let j = before.index_of(key);
                        assert(list[j] == key);
                    } else {
                        assert(list[list.len() - 1] == key);
                    }
                }
            }
        }
    }
}

/// Lines that are those of two lists, in whatever order and as often as they may
/// occur, can be read if both lists can, and list what either list lists: two sides
/// that were merged line by line lose no recipient and gain none.
pub proof fn law_recipients_merge(
    lines: Seq<Seq<char>>,
    ours: Seq<Seq<char>>,
    theirs: Seq<Seq<char>>,
)
    requires
        recipients_on(ours) is Ok,
        recipients_on(theirs) is Ok,
        forall|l: Seq<char>| #[trigger]
            lines.contains(l) <==> ours.contains(l) || theirs.contains(l),
    ensures
        recipients_on(lines) matches Ok(list) && forall|key: Seq<char>| #[trigger]
            list.contains(key) <==> recipients_on(ours)->Ok_0.contains(key) || recipients_on(
                theirs,
            )->Ok_0.contains(key),
{
    lemma_recipients_on(lines);
    lemma_recipients_on(ours);
    lemma_recipients_on(theirs);
    assert forall|i: int| 0 <= i < lines.len() implies line_reads(#[trigger] lines[i]) by {
        assert(lines.contains(lines[i]));
        if ours.contains(lines[i]) {
            let j = ours.index_of(lines[i]);
            assert(line_reads(ours[j]));
        } else {
            let j = theirs.index_of(lines[i]);
            assert(line_reads(theirs[j]));
        }
    }
    let list = recipients_on(lines)->Ok_0;
    assert forall|key: Seq<char>| #[trigger] list.contains(key) <==> recipients_on(
        ours,
    )->Ok_0.contains(key) || recipients_on(theirs)->Ok_0.contains(key) by {
        if list.contains(key) {
            let i = choose|i: int| 0 <= i < lines.len() && line_lists(#[trigger] lines[i], key);
            assert(lines.contains(lines[i]));
            if ours.contains(lines[i]) {
                let j = ours.index_of(lines[i]);
                assert(line_lists(ours[j], key));
            } else {
                let j = theirs.index_of(lines[i]);
                assert(line_lists(theirs[j], key));
            }
        }
        if recipients_on(ours)->Ok_0.contains(key) {
            let j = choose|j: int| 0 <= j < ours.len() && line_lists(#[trigger] ours[j], key);
            assert(ours.contains(ours[j]));
            assert(lines.contains(ours[j]));
            let i = lines.index_of(ours[j]);
            assert(line_lists(lines[i], key));
        }
        if recipients_on(theirs)->Ok_0.contains(key) {
            let j = choose|j: int| 0 <= j < theirs.len() && line_lists(#[trigger] theirs[j], key);
            assert(theirs.contains(theirs[j]));
            assert(lines.contains(theirs[j]));
            let i = lines.index_of(theirs[j]);
            assert(line_lists(lines[i], key));
        }
    }
}

/// A list is read line by line: a blank line and a comment add nothing, a recipient is
/// added behind those before, and the first line that is neither is the failure.
pub proof fn law_recipients_by_line(lines: Seq<Seq<char>>, line: Seq<char>)
    ensures
        recipients_on(Seq::empty()) == Ok::<Seq<Seq<char>>, Failure>(Seq::empty()),
        recipients_on(lines) is Err ==> recipients_on(lines.push(line)) == recipients_on(lines),
        recipients_on(lines) matches Ok(list) ==> {
            let t = text::trimmed(line);
            let r = recipients_on(lines.push(line));
            &&& t.len() == 0 || t[0] == '#' ==> r == Ok::<Seq<Seq<char>>, Failure>(list)
            &&& t.len() > 0 && t[0] != '#' ==> match crypto::age_recipient(t) {
                Some(key) => r == Ok::<Seq<Seq<char>>, Failure>(list.push(key)),
                None => r == Err::<Seq<Seq<char>>, Failure>(Failure::InvalidRecipient(t)),
            }
        },
{
    assert(lines.push(line).drop_last() =~= lines);
    assert(lines.push(line).last() == line);
}

/// A file of text lists the recipients that its lines do, of which there has to be one; a
/// file that is no text is refused.
pub proof fn law_recipients_of_text(s: Seq<char>, bytes: Seq<u8>)
    ensures
        recipients_on(text::pieces(s, '\n')) matches Ok(list) ==> recipients_in(
            utf8::encode_utf8(s),
        ) == (if list.len() > 0 {
            Ok::<Seq<Seq<char>>, Failure>(list)
        } else {
            Err::<Seq<Seq<char>>, Failure>(Failure::NoRecipients)
        }),
        recipients_on(text::pieces(s, '\n')) is Err ==> recipients_in(utf8::encode_utf8(s))
            == recipients_on(text::pieces(s, '\n')),
        !utf8::valid_utf8(bytes) ==> (recipients_in(bytes) matches Err(e) && e is InvalidData),
{
    utf8::encode_utf8_valid_utf8(s);
    utf8::encode_utf8_decode_utf8(s);
}

/// A list is written with a line for each recipient, in order, and nothing else.
pub proof fn law_recipients_text(list: Seq<Seq<char>>, key: Seq<char>)
    ensures
        recipients_body(Seq::empty()) == Seq::<u8>::empty(),
        recipients_body(list.push(key)) == recipients_body(list) + utf8::encode_utf8(
            key + seq!['\n'],
        ),
{
    assert(list.push(key).drop_last() =~= list);
    let before = recipient_lines(list);
    assert(recipient_lines(list.push(key)) =~= before + (key + seq!['\n']));
    text::lemma_encode_concat(before, key + seq!['\n']);
    let none = Seq::<Seq<char>>::empty();
    assert(recipient_lines(none) =~= Seq::<char>::empty());
    assert(utf8::encode_utf8(Seq::<char>::empty()) =~= Seq::<u8>::empty());
}

} // verus!
