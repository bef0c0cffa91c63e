//! Logical secret paths.
//!
//! A path is a sequence of segments separated by `/`. A segment is made of ASCII
//! letters, digits, `_`, `-` and `.`; it is never `.` or `..`, and never a device
//! name that Windows reserves.

use vstd::prelude::*;

use crate::error;
use crate::error::{Error, Failure};
use crate::text;
use crate::text::{copy_text, split_chars, to_chars};

verus! {

/// The characters that a segment may hold.
pub open spec fn path_char(c: char) -> bool {
    ||| 'a' <= c <= 'z'
    ||| 'A' <= c <= 'Z'
    ||| '0' <= c <= '9'
    ||| c == '_'
    ||| c == '-'
    ||| c == '.'
}

/// An ASCII letter in upper case; any other character as it is.
pub open spec fn upper(c: char) -> char {
    if 'a' <= c <= 'z' {
        ((c as u8) - 32) as u8 as char
    } else {
        c
    }
}

/// The part of a segment before its first dot.
pub open spec fn stem(seg: Seq<char>) -> Seq<char> {
    text::pieces(seg, '.')[0]
}

/// Whether Windows reserves a name, whatever its extension and case.
pub open spec fn reserved(seg: Seq<char>) -> bool {
    let s = stem(seg).map_values(|c: char| upper(c));
    ||| s == seq!['C', 'O', 'N']
    ||| s == seq!['P', 'R', 'N']
    ||| s == seq!['A', 'U', 'X']
    ||| s == seq!['N', 'U', 'L']
    ||| s.len() == 4 && '1' <= s[3] <= '9' && (s.take(3) == seq!['C', 'O', 'M'] || s.take(3) == seq![
        'L',
        'P',
        'T',
    ])
}

/// Whether a text is an acceptable segment.
pub open spec fn valid_segment(seg: Seq<char>) -> bool {
    &&& seg.len() > 0
    &&& forall|i: int| 0 <= i < seg.len() ==> path_char(#[trigger] seg[i])
    &&& seg != seq!['.']
    &&& seg != seq!['.', '.']
    &&& !reserved(seg)
}

/// Whether a text is an acceptable logical path.
pub open spec fn valid_path(p: Seq<char>) -> bool {
    let segs = text::pieces(p, '/');
    forall|i: int| 0 <= i < segs.len() ==> valid_segment(#[trigger] segs[i])
}

fn is_path_char(c: char) -> (r: bool)
    ensures
        r == path_char(c),
{
    (c >= 'a' && c <= 'z') || (c >= 'A' && c <= 'Z') || (c >= '0' && c <= '9') || c == '_' || c
        == '-' || c == '.'
}

/// Upper-cases an ASCII letter.
pub fn to_upper(c: char) -> (r: char)
    ensures
        r == upper(c),
{
    if c >= 'a' && c <= 'z' {
        (c as u8 - 32) as char
    } else {
        c
    }
}

fn is_reserved(seg: &[char]) -> (r: bool)
    ensures
        r == reserved(seg@),
{
    proof {
        text::lemma_pieces_nonempty(seg@, '.');
    }
    let parts = split_chars(seg, '.');
    let st = &parts[0];
    let mut s: Vec<char> = Vec::new();
    for i in 0..st.len()
        invariant
            s@.len() == i,
            forall|j: int| 0 <= j < i ==> #[trigger] s@[j] == upper(st@[j]),
    {
        s.push(to_upper(st[i]));
    }
    assert(s@ =~= stem(seg@).map_values(|c: char| upper(c)));
    if s.len() == 3 {
        let r = (s[0] == 'C' && s[1] == 'O' && s[2] == 'N') || (s[0] == 'P' && s[1] == 'R' && s[2]
            == 'N') || (s[0] == 'A' && s[1] == 'U' && s[2] == 'X') || (s[0] == 'N' && s[1] == 'U'
            && s[2] == 'L');
        assert(s@ =~= seq![s@[0], s@[1], s@[2]]);
        r
    } else if s.len() == 4 {
        let t = s[3] >= '1' && s[3] <= '9';
        let com = s[0] == 'C' && s[1] == 'O' && s[2] == 'M';
        let lpt = s[0] == 'L' && s[1] == 'P' && s[2] == 'T';
        assert(s@.take(3) =~= seq![s@[0], s@[1], s@[2]]);
        t && (com || lpt)
    } else {
        false
    }
}

fn is_valid_segment(seg: &[char]) -> (r: bool)
    ensures
        r == valid_segment(seg@),
{
    if seg.len() == 0 {
        return false;
    }
    for i in 0..seg.len()
        invariant
            forall|j: int| 0 <= j < i ==> path_char(#[trigger] seg@[j]),
    {
        if !is_path_char(seg[i]) {
            return false;
        }
    }
    if seg.len() == 1 && seg[0] == '.' {
        assert(seg@ =~= seq!['.']);
        return false;
    }
    if seg.len() == 2 && seg[0] == '.' && seg[1] == '.' {
        assert(seg@ =~= seq!['.', '.']);
        return false;
    }
    !is_reserved(seg)
}

/// Whether a text is an acceptable logical path.
pub fn is_valid(p: &str) -> (r: bool)
    ensures
        r == valid_path(p@),
{
    let cs = to_chars(p);
    let segs = split_chars(cs.as_slice(), '/');
    for i in 0..segs.len()
        invariant
            cs@ == p@,
            segs@.len() == text::pieces(p@, '/').len(),
            forall|j: int|
                0 <= j < segs@.len() ==> #[trigger] segs@[j]@ == text::pieces(p@, '/')[j],
            forall|j: int|
                0 <= j < i ==> valid_segment(#[trigger] text::pieces(p@, '/')[j]),
    {
        if !is_valid_segment(segs[i].as_slice()) {
            assert(!valid_segment(text::pieces(p@, '/')[i as int]));
            return false;
        }
    }
    true
}

/// What validating a path gives.
pub open spec fn validated(p: Seq<char>) -> Result<(), Failure> {
    if valid_path(p) {
        Ok(())
    } else {
        Err(Failure::InvalidPath(p))
    }
}

/// Accepts a valid logical path and refuses any other.
pub fn validate(p: &str) -> (r: Result<(), Error>)
    ensures
        error::agrees(r, validated(p@)),
{
    if is_valid(p) {
        Ok(())
    } else {
        Err(Error::InvalidPath(copy_text(p)))
    }
}

/// What every path holds: only segment characters and slashes.
pub proof fn lemma_valid_path_chars(p: Seq<char>)
    requires
        valid_path(p),
    ensures
        p.len() > 0,
        forall|i: int| 0 <= i < p.len() ==> path_char(#[trigger] p[i]) || p[i] == '/',
    decreases p.len(),
{
    text::lemma_pieces_cover(p, '/');
    let segs = text::pieces(p, '/');
    assert forall|i: int| 0 <= i < p.len() implies path_char(#[trigger] p[i]) || p[i] == '/' by {
        if p[i] != '/' {
            let (a, b) = choose|a: int, b: int|
                0 <= a < segs.len() && 0 <= b < segs[a].len() && #[trigger] segs[a][b] == p[i];
            assert(valid_segment(segs[a]));
        }
    }
    if p.len() == 0 {
        assert(valid_segment(segs[0]));
    }
}

// ---------------------------------------------------------------------------
// Files
// ---------------------------------------------------------------------------

/// The extension of a secret's file.
pub open spec fn extension() -> Seq<char> {
    seq!['.', 'a', 'g', 'e']
}

/// The file that holds the secret at `logical`, below the directory `root`.
/// `root` is empty or ends in a slash.
pub open spec fn file_of(root: Seq<char>, logical: Seq<char>) -> Seq<char> {
    root + logical + extension()
}

/// The name of a secret's file.
pub fn to_file(root: &str, logical: &str) -> (r: String)
    ensures
        r@ == file_of(root@, logical@),
{
    let mut r = copy_text(root);
    r.append(logical);
    r.push('.');
    r.push('a');
    r.push('g');
    r.push('e');
    assert(r@ =~= file_of(root@, logical@));
    r
}

/// Different logical paths have different files.
pub proof fn lemma_file_injective(root: Seq<char>, a: Seq<char>, b: Seq<char>)
    requires
        file_of(root, a) == file_of(root, b),
    ensures
        a == b,
{
    let n = root.len() as int;
    assert(a =~= file_of(root, a).subrange(n, file_of(root, a).len() - 4));
    assert(b =~= file_of(root, b).subrange(n, file_of(root, b).len() - 4));
}

// ---------------------------------------------------------------------------
// Laws
// ---------------------------------------------------------------------------

/// The file of a secret has the secret's path and the extension `.age`.
pub proof fn law_file_name(root: Seq<char>, logical: Seq<char>)
    ensures
        file_of(root, logical) == root + logical + ".age"@,
{
    reveal_strlit(".age");
    assert(".age"@ =~= extension());
}

/// A path is acceptable exactly if each part of it is, wherever it is parted at a
/// slash.
pub proof fn law_path_by_parts(a: Seq<char>, b: Seq<char>)
    ensures
        valid_path(a + seq!['/'] + b) <==> valid_path(a) && valid_path(b),
{
    text::lemma_pieces_concat(a, b, '/');
    let x = text::pieces(a, '/');
    let y = text::pieces(b, '/');
    if valid_path(a + seq!['/'] + b) {
        assert forall|i: int| 0 <= i < x.len() implies valid_segment(#[trigger] x[i]) by {
            assert((x + y)[i] == x[i]);
        }
        assert forall|i: int| 0 <= i < y.len() implies valid_segment(#[trigger] y[i]) by {
            assert((x + y)[x.len() + i] == y[i]);
        }
    }
}

/// A path without a slash is acceptable exactly if it is not empty, is made of ASCII
/// letters, digits, underscores, dashes and dots, and is neither one or two dots nor a
/// name that Windows reserves.
pub proof fn law_path_of_one_segment(p: Seq<char>)
    requires
        !p.contains('/'),
    ensures
        valid_path(p) <==> {
            &&& p.len() > 0
            &&& forall|i: int|
                0 <= i < p.len() ==> ('a' <= #[trigger] p[i] <= 'z' || 'A' <= p[i] <= 'Z' || '0'
                    <= p[i] <= '9' || p[i] == '_' || p[i] == '-' || p[i] == '.')
            &&& p != seq!['.']
            &&& p != seq!['.', '.']
            &&& !reserved(p)
        },
{
    text::lemma_pieces_single(p, '/');
    assert(text::pieces(p, '/')[0] == p);
    if valid_path(p) {
        assert(valid_segment(text::pieces(p, '/')[0]));
        assert forall|i: int| 0 <= i < p.len() implies ('a' <= #[trigger] p[i] <= 'z' || 'A'
            <= p[i] <= 'Z' || '0' <= p[i] <= '9' || p[i] == '_' || p[i] == '-' || p[i] == '.') by {
            assert(path_char(p[i]));
        }
    }
}

/// Whether a character is a letter, in either case. `c` is upper case.
pub open spec fn is_letter(x: char, c: char) -> bool {
    x as int == c as int || x as int == c as int + 32
}

/// A name is reserved exactly if what stands before its first dot is, in whatever
/// case, one of the names of devices, or one of the two names of ports with a digit
/// from one to nine.
pub proof fn law_reserved_names(stem_part: Seq<char>, rest: Seq<char>)
    requires
        !stem_part.contains('.'),
        rest.len() > 0 ==> rest[0] == '.',
    ensures
        reserved(stem_part + rest) <==> {
            let s = stem_part;
            ||| s.len() == 3 && is_letter(s[0], 'C') && is_letter(s[1], 'O') && is_letter(s[2], 'N')
            ||| s.len() == 3 && is_letter(s[0], 'P') && is_letter(s[1], 'R') && is_letter(s[2], 'N')
            ||| s.len() == 3 && is_letter(s[0], 'A') && is_letter(s[1], 'U') && is_letter(s[2], 'X')
            ||| s.len() == 3 && is_letter(s[0], 'N') && is_letter(s[1], 'U') && is_letter(s[2], 'L')
            ||| s.len() == 4 && '1' <= s[3] <= '9' && is_letter(s[0], 'C') && is_letter(s[1], 'O')
                && is_letter(s[2], 'M')
            ||| s.len() == 4 && '1' <= s[3] <= '9' && is_letter(s[0], 'L') && is_letter(s[1], 'P')
                && is_letter(s[2], 'T')
        },
{
    let seg = stem_part + rest;
    text::lemma_pieces_single(stem_part, '.');
    if rest.len() > 0 {
        assert(seg =~= stem_part + seq!['.'] + rest.drop_first());
        text::lemma_pieces_concat(stem_part, rest.drop_first(), '.');
    } else {
        assert(seg =~= stem_part);
    }
    assert(stem(seg) == stem_part);
    let s = stem_part;
    let u = s.map_values(|c: char| upper(c));
    assert(u.len() == s.len());
    assert forall|i: int| 0 <= i < s.len() implies #[trigger] u[i] == upper(s[i]) by {}
    if s.len() == 3 {
        assert(u =~= seq![upper(s[0]), upper(s[1]), upper(s[2])]);
        lemma_upper(s[0]);
        lemma_upper(s[1]);
        lemma_upper(s[2]);
        assert(u == seq!['C', 'O', 'N'] <==> u[0] == 'C' && u[1] == 'O' && u[2] == 'N') by {
            if u[0] == 'C' && u[1] == 'O' && u[2] == 'N' {
                assert(u =~= seq!['C', 'O', 'N']);
            }
        }
        assert(u == seq!['P', 'R', 'N'] <==> u[0] == 'P' && u[1] == 'R' && u[2] == 'N') by {
            if u[0] == 'P' && u[1] == 'R' && u[2] == 'N' {
                assert(u =~= seq!['P', 'R', 'N']);
            }
        }
        assert(u == seq!['A', 'U', 'X'] <==> u[0] == 'A' && u[1] == 'U' && u[2] == 'X') by {
            if u[0] == 'A' && u[1] == 'U' && u[2] == 'X' {
                assert(u =~= seq!['A', 'U', 'X']);
            }
        }
        assert(u == seq!['N', 'U', 'L'] <==> u[0] == 'N' && u[1] == 'U' && u[2] == 'L') by {
            if u[0] == 'N' && u[1] == 'U' && u[2] == 'L' {
                assert(u =~= seq!['N', 'U', 'L']);
            }
        }
    } else if s.len() == 4 {
        lemma_upper(s[0]);
        lemma_upper(s[1]);
        lemma_upper(s[2]);
        lemma_upper(s[3]);
        let t = u.take(3);
        assert(t[0] == u[0] && t[1] == u[1] && t[2] == u[2]);
        assert(t == seq!['C', 'O', 'M'] <==> t[0] == 'C' && t[1] == 'O' && t[2] == 'M') by {
            if t[0] == 'C' && t[1] == 'O' && t[2] == 'M' {
                assert(t =~= seq!['C', 'O', 'M']);
            }
        }
        assert(t == seq!['L', 'P', 'T'] <==> t[0] == 'L' && t[1] == 'P' && t[2] == 'T') by {
            if t[0] == 'L' && t[1] == 'P' && t[2] == 'T' {
                assert(t =~= seq!['L', 'P', 'T']);
            }
        }
    }
}

/// The upper-case form of a character.
proof fn lemma_upper(c: char)
    ensures
        'a' <= c <= 'z' ==> upper(c) as int == c as int - 32,
        !('a' <= c <= 'z') ==> upper(c) == c,
{
}

} // verus!
