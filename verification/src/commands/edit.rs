//! Editing a secret in an editor.

use vstd::prelude::*;
use vstd::utf8;

use crate::crypto::Identity;
use crate::error;
use crate::error::{Error, Failure};
use crate::guard::Guarded;
use crate::path;
use crate::secret;
use crate::secret::{Payload, Secret, SecretKind};
use crate::secrets;
use crate::store::Store;
use crate::text;
use crate::text::{copy_bytes, copy_text, from_chars, is_white, same_bytes, to_chars};
use crate::tree::Files;

verus! {

/// The text that is edited: that of the secret at the path. A binary secret cannot
/// be edited.
pub open spec fn editable(files: Files, p: Seq<char>, key: Seq<u8>) -> Result<Seq<u8>, Failure> {
    match secrets::got(files, p, key) {
        Err(e) => Err(e),
        Ok(payload) => match payload.kind {
            SecretKind::Binary => Err(
                Failure::InvalidArgument(
                    p + " is a binary secret and cannot be edited as text"@,
                ),
            ),
            SecretKind::Text => Ok(utf8::encode_utf8(secret::exposed(payload))),
        },
    }
}

/// Reads the text of a secret that is to be edited.
pub fn original_text(s: &Store, p: &str, identity: &Identity) -> (r: Result<Guarded, Error>)
    requires
        s.wf(),
    ensures
        error::agrees(r, editable(s.files(), p@, identity@)),
{
    let found = match s.get(p, identity) {
        Ok(x) => x,
        Err(e) => {
            return Err(e);
        },
    };
    if found.is_binary() {
        let mut m = copy_text(p);
        m.append(" is a binary secret and cannot be edited as text");
        return Err(Error::InvalidArgument(m));
    }
    Ok(Guarded::new(copy_bytes(found.expose().as_bytes())))
}

/// Writes a text that was edited, unless it is the original one. Says whether it
/// was written.
pub fn save_edited(s: &mut Store, p: &str, original: &[u8], edited: &str) -> (r: Result<
    bool,
    Error,
>)
    requires
        old(s).wf(),
        utf8::encode_utf8(edited@) != original@ && path::valid_path(p@) && secrets::index_at(
            old(s).files(),
        ) is Ok ==> old(s).can_write(),
    ensures
        final(s).wf(),
        final(s).same_setup(old(s)),
        utf8::encode_utf8(edited@) == original@ ==> *final(s) == *old(s) && r == Ok::<bool, Error>(
            false,
        ),
        utf8::encode_utf8(edited@) != original@ && !path::valid_path(p@) ==> *final(s) == *old(s)
            && (r matches Err(e) && e@ == Failure::InvalidPath(p@)),
        utf8::encode_utf8(edited@) != original@ && path::valid_path(p@) ==> (r matches Ok(b) ==> b)
            && secrets::written(
            old(s).tree(),
            final(s).tree(),
            p@,
            (Payload { bytes: utf8::encode_utf8(edited@), kind: SecretKind::Text }),
            old(s).keys(),
            match r {
                Ok(_) => Ok(()),
                Err(e) => Err(e),
            },
        ),
{
    if same_bytes(edited.as_bytes(), original) {
        return Ok(false);
    }
    match s.set(p, &Secret::new(edited)) {
        Ok(_) => Ok(true),
        Err(e) => Err(e),
    }
}

/// The maximal runs of characters that are not white space.
pub open spec fn words(s: Seq<char>) -> Seq<Seq<char>>
    decreases s.len(),
{
    if s.len() == 0 {
        Seq::empty()
    } else if text::white(s.last()) {
        words(s.drop_last())
    } else if s.len() >= 2 && !text::white(s[s.len() - 2]) {
        let before = words(s.drop_last());
        before.update(before.len() - 1, before.last().push(s.last()))
    } else {
        words(s.drop_last()).push(seq![s.last()])
    }
}

fn split_words(s: &str) -> (r: Vec<String>)
    ensures
        text::views(r@) == words(s@),
{
    let cs = to_chars(s);
    let mut out: Vec<String> = Vec::new();
    let mut cur: Vec<char> = Vec::new();
    assert(cs@.take(0) =~= Seq::empty());
    for k in 0..cs.len()
        invariant
            cur@.len() == 0 <==> (k == 0 || text::white(cs@[k - 1])),
            cur@.len() == 0 ==> words(cs@.take(k as int)).len() == out@.len(),
            cur@.len() > 0 ==> words(cs@.take(k as int)).len() == out@.len() + 1,
            cur@.len() > 0 ==> words(cs@.take(k as int)).last() == cur@,
            forall|i: int|
                0 <= i < out@.len() ==> #[trigger] out@[i]@ == words(cs@.take(k as int))[i],
    {
        assert(cs@.take(k + 1).drop_last() =~= cs@.take(k as int));
        assert(cs@.take(k + 1).last() == cs@[k as int]);
        if k > 0 {
            assert(cs@.take(k + 1)[k - 1] == cs@[k - 1]);
        }
        if is_white(cs[k]) {
            if cur.len() > 0 {
                out.push(from_chars(cur.as_slice()));
                cur = Vec::new();
            }
        } else {
            let ghost fresh = cur@.len() == 0;
            cur.push(cs[k]);
            proof {
                if fresh {
                    assert(cur@ =~= seq![cs@[k as int]]);
                }
            }
        }
    }
    assert(cs@.take(cs@.len() as int) =~= cs@);
    if cur.len() > 0 {
        out.push(from_chars(cur.as_slice()));
    }
    assert(text::views(out@) =~= words(s@));
    out
}

/// The editor that is there where none is configured.
pub open spec fn fallback(windows: bool) -> Seq<char> {
    if windows {
        "notepad"@
    } else {
        "vi"@
    }
}

/// The editor that is there where none is configured.
pub fn default_editor(windows: bool) -> (r: &'static str)
    ensures
        r@ == fallback(windows),
{
    if windows {
        "notepad"
    } else {
        "vi"
    }
}

/// The editor's command line: the value of `EDITOR`, else of `VISUAL`, else the
/// default.
pub open spec fn editor_line(
    editor: Option<Seq<char>>,
    visual: Option<Seq<char>>,
    windows: bool,
) -> Seq<char> {
    match editor {
        Some(e) => e,
        None => match visual {
            Some(v) => v,
            None => fallback(windows),
        },
    }
}

/// An optional text's characters.
pub open spec fn maybe(s: Option<&str>) -> Option<Seq<char>> {
    match s {
        Some(x) => Some(x@),
        None => None,
    }
}

/// The editor's program and its first arguments: the words of the command line. A
/// blank one stands for the default.
pub fn editor(editor_var: Option<&str>, visual_var: Option<&str>, windows: bool) -> (r: (
    String,
    Vec<String>,
))
    ensures
        ({
            let line = words(editor_line(maybe(editor_var), maybe(visual_var), windows));
            if line.len() == 0 {
                r.0@ == fallback(windows) && r.1@.len() == 0
            } else {
                r.0@ == line[0] && text::views(r.1@) == line.skip(1)
            }
        }),
{
    let raw = match editor_var {
        Some(e) => e,
        None => match visual_var {
            Some(v) => v,
            None => default_editor(windows),
        },
    };
    let parts = split_words(raw);
    let ghost line = words(raw@);
    assert(text::views(parts@).len() == parts@.len());
    if parts.len() == 0 {
        let none: Vec<String> = Vec::new();
        return (copy_text(default_editor(windows)), none);
    }
    let mut args: Vec<String> = Vec::new();
    for i in 1..parts.len()
        invariant
            1 <= parts@.len(),
            line == text::views(parts@),
            args@.len() == i - 1,
            forall|j: int| 0 <= j < args@.len() ==> #[trigger] args@[j]@ == line[j + 1],
    {
        args.push(copy_text(parts[i].as_str()));
    }
    assert(text::views(args@) =~= line.skip(1));
    assert(line[0] == parts@[0]@);
    (copy_text(parts[0].as_str()), args)
}

/// The error where an editor did not save.
pub fn editor_failed(program: &str) -> (r: Error)
    ensures
        r@ == Failure::InvalidData("editor `"@ + program@ + "` exited without saving"@),
{
    let mut m = copy_text("editor `");
    m.append(program);
    m.append("` exited without saving");
    Error::InvalidData(m)
}

/// How many zeros are written over a scratch file: as many as it has bytes, and at
/// least as many as the text had that was put there.
pub fn wipe_len(len: Option<usize>, approx_len: usize) -> (r: usize)
    ensures
        r >= approx_len,
        len matches Some(n) ==> r >= n,
        r == approx_len || len == Some(r),
{
    match len {
        Some(n) => if n > approx_len {
            n
        } else {
            approx_len
        },
        None => approx_len,
    }
}

// ---------------------------------------------------------------------------
// Laws
// ---------------------------------------------------------------------------

/// A text that is not empty and has no white space is one word; a text that is parted by
/// white space has the words of the one part and then those of the other.
pub proof fn law_words(w: Seq<char>, a: Seq<char>, gap: char, b: Seq<char>)
    requires
        forall|i: int| 0 <= i < w.len() ==> !text::white(#[trigger] w[i]),
        text::white(gap),
    ensures
        w.len() > 0 ==> words(w) == seq![w],
        w.len() == 0 ==> words(w).len() == 0,
        words(a + seq![gap] + b) == words(a) + words(b),
{
    lemma_word(w);
    lemma_words_concat(a, gap, b);
}

proof fn lemma_word(w: Seq<char>)
    requires
        forall|i: int| 0 <= i < w.len() ==> !text::white(#[trigger] w[i]),
    ensures
        w.len() > 0 ==> words(w) == seq![w],
    decreases w.len(),
{
    if w.len() == 1 {
        assert(w.drop_last() =~= Seq::empty());
        assert(words(Seq::<char>::empty()) =~= Seq::empty());
        assert(words(w) =~= seq![w]) by {
            assert(w =~= seq![w.last()]);
        }
    } else if w.len() > 1 {
        lemma_word(w.drop_last());
        assert(!text::white(w[w.len() - 2]));
        assert(!text::white(w[w.len() - 1]));
        assert(w.drop_last().push(w.last()) =~= w);
        assert(words(w) =~= seq![w]);
    }
}

/// Behind white space a text begins with no part of a word.
proof fn lemma_words_concat(a: Seq<char>, gap: char, b: Seq<char>)
    requires
        text::white(gap),
    ensures
        words(a + seq![gap] + b) == words(a) + words(b),
        b.len() > 0 && !text::white(b.last()) ==> words(b).len() > 0,
    decreases b.len(),
{
    let whole = a + seq![gap] + b;
    if b.len() == 0 {
        assert(whole =~= a.push(gap));
        assert(whole.drop_last() =~= a);
        assert(words(a) + words(b) =~= words(a));
    } else {
        let rest = b.drop_last();
        lemma_words_concat(a, gap, rest);
        assert(whole.drop_last() =~= a + seq![gap] + rest);
        assert(whole.last() == b.last());
        let before = words(a + seq![gap] + rest);
        if text::white(b.last()) {
        } else if b.len() >= 2 && !text::white(b[b.len() - 2]) {
            assert(whole[whole.len() - 2] == b[b.len() - 2]);
            assert(rest.last() == b[b.len() - 2]);
            assert(words(rest).len() > 0);
            assert(words(whole) =~= words(a) + words(b));
        } else {
            if b.len() >= 2 {
                assert(whole[whole.len() - 2] == b[b.len() - 2]);
            } else {
                assert(whole[whole.len() - 2] == gap);
            }
            assert(words(whole) =~= words(a) + words(b));
        }
    }
}

/// The editor's command line is the value of `EDITOR` where there is one, else that of
/// `VISUAL`, else the default of the system.
pub proof fn law_editor_line(editor: Seq<char>, visual: Option<Seq<char>>, windows: bool)
    ensures
        editor_line(Some(editor), visual, windows) == editor,
        editor_line(None, Some(editor), windows) == editor,
        editor_line(None, None, true) == "notepad"@,
        editor_line(None, None, false) == "vi"@,
{
}

/// A text secret that can be read is edited as its text, and a binary one is refused.
pub proof fn law_editable(files: Files, p: Seq<char>, key: Seq<u8>, s: Seq<char>, bytes: Seq<u8>)
    ensures
        secrets::got(files, p, key) == Ok::<Payload, Failure>(
            Payload { bytes: utf8::encode_utf8(s), kind: SecretKind::Text },
        ) ==> editable(files, p, key) == Ok::<Seq<u8>, Failure>(utf8::encode_utf8(s)),
        secrets::got(files, p, key) == Ok::<Payload, Failure>(
            Payload { bytes, kind: SecretKind::Binary },
        ) ==> (editable(files, p, key) matches Err(e) && e is InvalidArgument),
        secrets::got(files, p, key) matches Err(e) ==> editable(files, p, key) == Err::<
            Seq<u8>,
            Failure,
        >(e),
{
    secret::law_exposed(s, bytes);
}

} // verus!
