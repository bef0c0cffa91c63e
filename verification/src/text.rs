//! Text and byte helpers with exact contracts.
//!
//! Strings are reasoned about through their views, sequences of `char`. The
//! executable helpers take a string apart into characters, compute on those
//! and put the result together again.

use vstd::prelude::*;
use vstd::utf8;

verus! {

/// `String::push` appends one character.
pub assume_specification[ String::push ](s: &mut String, c: char)
    ensures
        final(s)@ == old(s)@.push(c),
;

/// The text that `String::from_utf8_lossy` makes of bytes: each ill-formed part
/// is replaced by U+FFFD.
pub uninterp spec fn lossy_text(bytes: Seq<u8>) -> Seq<char>;

/// The lowercase form that `str::to_lowercase` gives of a text.
pub uninterp spec fn lowercase(s: Seq<char>) -> Seq<char>;

/// The quoted and escaped form that the `Debug` impl of `str` writes.
pub uninterp spec fn quoted(s: Seq<char>) -> Seq<char>;

/// What the error of `core::str::from_utf8` says of bytes that are not well-formed.
pub uninterp spec fn utf8_error(bytes: Seq<u8>) -> Seq<char>;

/// Calls `core::str::from_utf8`: the text that well-formed UTF-8 encodes, and the
/// text of the error for bytes that are not well-formed.
#[verifier::external_body]
pub(crate) fn utf8_text(bytes: &[u8]) -> (r: Result<&str, String>)
    ensures
        r is Ok <==> utf8::valid_utf8(bytes@),
        r matches Ok(s) ==> s@ == utf8::decode_utf8(bytes@),
        r matches Err(m) ==> m@ == utf8_error(bytes@),
{
    core::str::from_utf8(bytes).map_err(|e| e.to_string())
}

/// Calls `String::from_utf8_lossy`. Well-formed UTF-8 is decoded as it stands.
#[verifier::external_body]
pub(crate) fn to_lossy_text(bytes: &[u8]) -> (r: String)
    ensures
        r@ == lossy_text(bytes@),
        utf8::valid_utf8(bytes@) ==> r@ == utf8::decode_utf8(bytes@),
{
    String::from_utf8_lossy(bytes).into_owned()
}

/// Calls `str::to_lowercase`.
#[verifier::external_body]
pub(crate) fn to_lowercase(s: &str) -> (r: String)
    ensures
        r@ == lowercase(s@),
{
    s.to_lowercase()
}

/// Writes a text with the `Debug` impl of `str`.
#[verifier::external_body]
pub(crate) fn to_quoted(s: &str) -> (r: String)
    ensures
        r@ == quoted(s@),
{
    format!("{s:?}")
}

/// The views of a list of strings.
pub open spec fn views(v: Seq<String>) -> Seq<Seq<char>> {
    Seq::new(v.len(), |i: int| v[i]@)
}

/// The characters of a string.
pub fn to_chars(s: &str) -> (r: Vec<char>)
    ensures
        r@ == s@,
{
    let mut r: Vec<char> = Vec::new();
    for c in it: s.chars()
        invariant
            r@ == it.seq().take(it.index()),
            it.seq() == s@,
    {
        r.push(c);
    }
    r
}

/// The string made of the given characters.
pub fn from_chars(cs: &[char]) -> (r: String)
    ensures
        r@ == cs@,
{
    let mut r = String::new();
    for i in 0..cs.len()
        invariant
            r@ == cs@.take(i as int),
    {
        r.push(cs[i]);
    }
    assert(cs@.take(cs@.len() as int) == cs@);
    r
}

/// A copy of a text.
pub fn copy_text(s: &str) -> (r: String)
    ensures
        r@ == s@,
{
    let mut r = String::new();
    r.append(s);
    assert(r@ =~= s@);
    r
}

/// A copy of a byte slice.
pub fn copy_bytes(b: &[u8]) -> (r: Vec<u8>)
    ensures
        r@ == b@,
{
    let mut r: Vec<u8> = Vec::new();
    push_bytes(&mut r, b);
    r
}

/// Appends a byte slice to a buffer.
pub fn push_bytes(out: &mut Vec<u8>, b: &[u8])
    ensures
        final(out)@ == old(out)@ + b@,
{
    for i in 0..b.len()
        invariant
            out@ == old(out)@ + b@.take(i as int),
    {
        out.push(b[i]);
        assert(b@.take(i + 1) == b@.take(i as int).push(b@[i as int]));
    }
    assert(b@.take(b@.len() as int) == b@);
}

/// Whether two byte slices are equal.
pub fn same_bytes(a: &[u8], b: &[u8]) -> (r: bool)
    ensures
        r == (a@ == b@),
{
    if a.len() != b.len() {
        return false;
    }
    for i in 0..a.len()
        invariant
            a@.len() == b@.len(),
            forall|j: int| 0 <= j < i ==> a@[j] == b@[j],
    {
        if a[i] != b[i] {
            return false;
        }
    }
    assert(a@ =~= b@);
    true
}

/// Whether two character slices are equal.
pub fn same_chars(a: &[char], b: &[char]) -> (r: bool)
    ensures
        r == (a@ == b@),
{
    if a.len() != b.len() {
        return false;
    }
    for i in 0..a.len()
        invariant
            a@.len() == b@.len(),
            forall|j: int| 0 <= j < i ==> a@[j] == b@[j],
    {
        if a[i] != b[i] {
            return false;
        }
    }
    assert(a@ =~= b@);
    true
}

/// Whether two texts are equal.
pub fn same_text(a: &str, b: &str) -> (r: bool)
    ensures
        r == (a@ == b@),
{
    proof {
        utf8::encode_utf8_decode_utf8(a@);
        utf8::encode_utf8_decode_utf8(b@);
    }
    same_bytes(a.as_bytes(), b.as_bytes())
}

/// Whether a list of strings holds a text.
pub fn list_has(list: &[String], s: &str) -> (r: bool)
    ensures
        r == views(list@).contains(s@),
{
    for i in 0..list.len()
        invariant
            forall|j: int| 0 <= j < i ==> list@[j]@ != s@,
    {
        if same_text(list[i].as_str(), s) {
            assert(views(list@)[i as int] == s@);
            return true;
        }
    }
    false
}

// ---------------------------------------------------------------------------
// Splitting and joining
// ---------------------------------------------------------------------------

/// The parts of `s` between occurrences of `sep`. There is always one more part
/// than there are separators, so an empty sequence has one empty part.
pub open spec fn pieces<T>(s: Seq<T>, sep: T) -> Seq<Seq<T>>
    decreases s.len(),
{
    if s.len() == 0 {
        seq![Seq::<T>::empty()]
    } else {
        let before = pieces(s.drop_last(), sep);
        if s.last() == sep {
            before.push(Seq::empty())
        } else {
            before.update(before.len() - 1, before.last().push(s.last()))
        }
    }
}

pub proof fn lemma_pieces_nonempty<T>(s: Seq<T>, sep: T)
    ensures
        pieces(s, sep).len() >= 1,
    decreases s.len(),
{
    if s.len() > 0 {
        lemma_pieces_nonempty(s.drop_last(), sep);
    }
}

/// A sequence without the separator is its own only part.
pub proof fn lemma_pieces_single<T>(s: Seq<T>, sep: T)
    requires
        !s.contains(sep),
    ensures
        pieces(s, sep) == seq![s],
    decreases s.len(),
{
    if s.len() > 0 {
        let t = s.drop_last();
        assert(!t.contains(sep)) by {
            if t.contains(sep) {
                let i = t.index_of(sep);
                assert(s[i] == t[i]);
            }
        }
        lemma_pieces_single(t, sep);
        assert(s.contains(s[s.len() - 1]));
        assert(t.push(s.last()) =~= s);
        assert(pieces(s, sep) =~= seq![s]);
    } else {
        assert(s =~= Seq::<T>::empty());
    }
}

/// Splitting distributes over a separator.
pub proof fn lemma_pieces_concat<T>(a: Seq<T>, b: Seq<T>, sep: T)
    ensures
        pieces(a + seq![sep] + b, sep) == pieces(a, sep) + pieces(b, sep),
    decreases b.len(),
{
    let s = a + seq![sep] + b;
    if b.len() == 0 {
        assert(s.drop_last() =~= a);
        assert(pieces(s, sep) =~= pieces(a, sep) + pieces(b, sep));
    } else {
        let b0 = b.drop_last();
        assert(s.drop_last() =~= a + seq![sep] + b0);
        assert(s.last() == b.last());
        lemma_pieces_concat(a, b0, sep);
        lemma_pieces_nonempty(b0, sep);
        assert(pieces(s, sep) =~= pieces(a, sep) + pieces(b, sep));
    }
}

/// What does not hold the separator goes into the last part.
pub proof fn lemma_pieces_append<T>(s: Seq<T>, t: Seq<T>, sep: T)
    requires
        !t.contains(sep),
    ensures
        pieces(s + t, sep) == pieces(s, sep).update(
            pieces(s, sep).len() - 1,
            pieces(s, sep).last() + t,
        ),
    decreases t.len(),
{
    lemma_pieces_nonempty(s, sep);
    if t.len() == 0 {
        assert(s + t =~= s);
        assert(pieces(s, sep).last() + t =~= pieces(s, sep).last());
        assert(pieces(s + t, sep) =~= pieces(s, sep).update(
            pieces(s, sep).len() - 1,
            pieces(s, sep).last() + t,
        ));
    } else {
        let u = t.drop_last();
        assert(!u.contains(sep)) by {
            if u.contains(sep) {
                let i = u.index_of(sep);
                assert(t[i] == sep);
            }
        }
        lemma_pieces_append(s, u, sep);
        assert((s + t).drop_last() =~= s + u);
        assert((s + t).last() == t.last());
        assert(t.contains(t[t.len() - 1]));
        let p = pieces(s, sep);
        assert((p.last() + u).push(t.last()) =~= p.last() + t);
        assert(pieces(s + t, sep) =~= p.update(p.len() - 1, p.last() + t));
    }
}

/// Every element but the separators occurs in some part.
pub proof fn lemma_pieces_cover<T>(s: Seq<T>, sep: T)
    ensures
        pieces(s, sep).len() >= 1,
        forall|k: int|
            0 <= k < s.len() && s[k] != sep ==> exists|i: int, j: int|
                0 <= i < pieces(s, sep).len() && 0 <= j < pieces(s, sep)[i].len()
                    && #[trigger] pieces(s, sep)[i][j] == #[trigger] s[k],
    decreases s.len(),
{
    if s.len() > 0 {
        let t = s.drop_last();
        lemma_pieces_cover(t, sep);
        let p = pieces(t, sep);
        let q = pieces(s, sep);
        assert forall|k: int| 0 <= k < s.len() && s[k] != sep implies exists|i: int, j: int|
            0 <= i < q.len() && 0 <= j < q[i].len() && #[trigger] q[i][j] == #[trigger] s[k] by {
            if k < t.len() {
                assert(t[k] == s[k]);
                let (i, j) = choose|i: int, j: int|
                    0 <= i < p.len() && 0 <= j < p[i].len() && #[trigger] p[i][j] == t[k];
                assert(q[i][j] == s[k]);
            } else {
                let i = q.len() - 1;
                let j = q[i].len() - 1;
                assert(q[i][j] == s[k]);
            }
        }
    }
}

/// Splits characters at a separator.
pub fn split_chars(s: &[char], sep: char) -> (r: Vec<Vec<char>>)
    ensures
        r@.len() == pieces(s@, sep).len(),
        forall|i: int| 0 <= i < r@.len() ==> #[trigger] r@[i]@ == pieces(s@, sep)[i],
{
    let mut out: Vec<Vec<char>> = Vec::new();
    let mut cur: Vec<char> = Vec::new();
    assert(s@.take(0) =~= Seq::<char>::empty());
    for k in 0..s.len()
        invariant
            pieces(s@.take(k as int), sep).len() == out@.len() + 1,
            forall|i: int|
                0 <= i < out@.len() ==> #[trigger] out@[i]@ == pieces(s@.take(k as int), sep)[i],
            cur@ == pieces(s@.take(k as int), sep).last(),
    {
        assert(s@.take(k + 1).drop_last() =~= s@.take(k as int));
        assert(s@.take(k + 1).last() == s@[k as int]);
        if s[k] == sep {
            out.push(cur);
            cur = Vec::new();
            assert(cur@ =~= Seq::<char>::empty());
        } else {
            cur.push(s[k]);
        }
    }
    assert(s@.take(s@.len() as int) =~= s@);
    out.push(cur);
    out
}

/// Splits bytes at a separator.
pub fn split_bytes(s: &[u8], sep: u8) -> (r: Vec<Vec<u8>>)
    ensures
        r@.len() == pieces(s@, sep).len(),
        forall|i: int| 0 <= i < r@.len() ==> #[trigger] r@[i]@ == pieces(s@, sep)[i],
{
    let mut out: Vec<Vec<u8>> = Vec::new();
    let mut cur: Vec<u8> = Vec::new();
    assert(s@.take(0) =~= Seq::<u8>::empty());
    for k in 0..s.len()
        invariant
            pieces(s@.take(k as int), sep).len() == out@.len() + 1,
            forall|i: int|
                0 <= i < out@.len() ==> #[trigger] out@[i]@ == pieces(s@.take(k as int), sep)[i],
            cur@ == pieces(s@.take(k as int), sep).last(),
    {
        assert(s@.take(k + 1).drop_last() =~= s@.take(k as int));
        assert(s@.take(k + 1).last() == s@[k as int]);
        if s[k] == sep {
            out.push(cur);
            cur = Vec::new();
            assert(cur@ =~= Seq::<u8>::empty());
        } else {
            cur.push(s[k]);
        }
    }
    assert(s@.take(s@.len() as int) =~= s@);
    out.push(cur);
    out
}

/// The texts of `parts` with `sep` between neighbours.
pub open spec fn joined(parts: Seq<Seq<char>>, sep: Seq<char>) -> Seq<char>
    decreases parts.len(),
{
    if parts.len() == 0 {
        Seq::empty()
    } else if parts.len() == 1 {
        parts[0]
    } else {
        joined(parts.drop_last(), sep) + sep + parts.last()
    }
}

/// Joins strings with a separator.
pub fn join(parts: &[String], sep: &str) -> (r: String)
    ensures
        r@ == joined(views(parts@), sep@),
{
    let mut r = String::new();
    assert(views(parts@).take(0) =~= Seq::<Seq<char>>::empty());
    for i in 0..parts.len()
        invariant
            r@ == joined(views(parts@).take(i as int), sep@),
    {
        let ghost all = views(parts@);
        assert(all.take(i + 1).drop_last() =~= all.take(i as int));
        if i > 0 {
            r.append(sep);
        }
        r.append(parts[i].as_str());
        assert(r@ =~= joined(all.take(i + 1), sep@));
    }
    assert(views(parts@).take(parts@.len() as int) =~= views(parts@));
    r
}

// ---------------------------------------------------------------------------
// Prefixes, occurrences, trimming
// ---------------------------------------------------------------------------

/// Whether characters begin with a prefix.
pub fn begins_with(s: &[char], prefix: &[char]) -> (r: bool)
    ensures
        r == prefix@.is_prefix_of(s@),
{
    if s.len() < prefix.len() {
        return false;
    }
    for i in 0..prefix.len()
        invariant
            prefix@.len() <= s@.len(),
            forall|j: int| 0 <= j < i ==> s@[j] == prefix@[j],
    {
        if s[i] != prefix[i] {
            assert(s@.subrange(0, prefix@.len() as int)[i as int] != prefix@[i as int]);
            return false;
        }
    }
    assert(prefix@ =~= s@.subrange(0, prefix@.len() as int));
    true
}

/// Whether `needle` occurs in `hay` as a contiguous run.
pub open spec fn occurs_in(needle: Seq<char>, hay: Seq<char>) -> bool {
    exists|i: int|
        0 <= i && i + needle.len() <= hay.len() && #[trigger] hay.subrange(
            i,
            i + needle.len(),
        ) == needle
}

/// Searches `hay` for `needle`.
pub fn contains_text(hay: &str, needle: &str) -> (r: bool)
    ensures
        r == occurs_in(needle@, hay@),
{
    let h = to_chars(hay);
    let n = to_chars(needle);
    if h.len() < n.len() {
        return false;
    }
    let last: usize = h.len() - n.len();
    let mut i: usize = 0;
    while i <= last
        invariant
            h@ == hay@,
            n@ == needle@,
            last == h@.len() - n@.len(),
            last + n@.len() <= usize::MAX,
            i <= last + 1,
            last < usize::MAX || i <= last,
            forall|j: int|
                0 <= j < i ==> #[trigger] hay@.subrange(j, j + needle@.len()) != needle@,
        decreases last + 1 - i,
    {
        let part = vstd::slice::slice_subrange(h.as_slice(), i, i + n.len());
        if same_chars(part, n.as_slice()) {
            return true;
        }
        if i == last {
            return false;
        }
        i = i + 1;
    }
    false
}

/// The characters with the Unicode property `White_Space`.
pub open spec fn white(c: char) -> bool {
    ||| '\u{9}' <= c <= '\u{d}'
    ||| c == ' '
    ||| c == '\u{85}'
    ||| c == '\u{a0}'
    ||| c == '\u{1680}'
    ||| '\u{2000}' <= c <= '\u{200a}'
    ||| c == '\u{2028}'
    ||| c == '\u{2029}'
    ||| c == '\u{202f}'
    ||| c == '\u{205f}'
    ||| c == '\u{3000}'
}

/// Tests for white space.
pub fn is_white(c: char) -> (r: bool)
    ensures
        r == white(c),
{
    (c >= '\u{9}' && c <= '\u{d}') || c == ' ' || c == '\u{85}' || c == '\u{a0}' || c == '\u{1680}'
        || (c >= '\u{2000}' && c <= '\u{200a}') || c == '\u{2028}' || c == '\u{2029}'
        || c == '\u{202f}' || c == '\u{205f}' || c == '\u{3000}'
}

/// `s` without leading white space.
pub open spec fn trim_start(s: Seq<char>) -> Seq<char>
    decreases s.len(),
{
    if s.len() > 0 && white(s[0]) {
        trim_start(s.drop_first())
    } else {
        s
    }
}

/// `s` without trailing white space.
pub open spec fn trim_end(s: Seq<char>) -> Seq<char>
    decreases s.len(),
{
    if s.len() > 0 && white(s.last()) {
        trim_end(s.drop_last())
    } else {
        s
    }
}

/// `s` without white space at either end.
pub open spec fn trimmed(s: Seq<char>) -> Seq<char> {
    trim_end(trim_start(s))
}

/// Trims characters.
pub fn trim_chars(s: &[char]) -> (r: Vec<char>)
    ensures
        r@ == trimmed(s@),
{
    let mut a: usize = 0;
    assert(s@.skip(0) =~= s@);
    while a < s.len() && is_white(s[a])
        invariant
            a <= s@.len(),
            trim_start(s@.skip(a as int)) == trim_start(s@),
        decreases s@.len() - a,
    {
        assert(s@.skip(a as int).drop_first() =~= s@.skip(a + 1));
        a = a + 1;
    }
    let ghost t = s@.skip(a as int);
    let mut b: usize = s.len();
    assert(s@.subrange(a as int, b as int) =~= t);
    while b > a && is_white(s[b - 1])
        invariant
            a <= b <= s@.len(),
            trim_end(s@.subrange(a as int, b as int)) == trim_end(t),
        decreases b,
    {
        assert(s@.subrange(a as int, b as int).drop_last() =~= s@.subrange(
            a as int,
            b - 1,
        ));
        b = b - 1;
    }
    let mut r: Vec<char> = Vec::new();
    for i in a..b
        invariant
            a <= i <= b <= s@.len(),
            r@ == s@.subrange(a as int, i as int),
    {
        r.push(s[i]);
        assert(s@.subrange(a as int, i + 1) =~= s@.subrange(a as int, i as int).push(
            s@[i as int],
        ));
    }
    r
}

/// Trims a text.
pub fn trim(s: &str) -> (r: String)
    ensures
        r@ == trimmed(s@),
{
    let cs = to_chars(s);
    let t = trim_chars(cs.as_slice());
    from_chars(t.as_slice())
}

/// The position of the first occurrence of a character.
pub fn find_char(s: &str, wanted: char) -> (r: Option<usize>)
    ensures
        r is Some <==> s@.contains(wanted),
        r matches Some(i) ==> i < s@.len() && s@[i as int] == wanted && !s@.take(
            i as int,
        ).contains(wanted),
{
    let total: usize = s.unicode_len();
    let mut i: usize = 0;
    for c in it: s.chars()
        invariant
            it.seq() == s@,
            total == s@.len(),
            i == it.index(),
            forall|j: int| 0 <= j < i ==> s@[j] != wanted,
    {
        if c == wanted {
            assert(s@[i as int] == wanted);
            assert(s@.contains(s@[i as int]));
            return Some(i);
        }
        i = i + 1;
    }
    None
}

/// The part of a text without white space at either end.
pub fn trim_str(s: &str) -> (r: &str)
    ensures
        r@ == trimmed(s@),
{
    let total: usize = s.unicode_len();
    let mut a: usize = 0;
    assert(s@.skip(0) =~= s@);
    while a < total && is_white(s.get_char(a))
        invariant
            a <= total,
            total == s@.len(),
            trim_start(s@.skip(a as int)) == trim_start(s@),
        decreases total - a,
    {
        assert(s@.skip(a as int).drop_first() =~= s@.skip(a + 1));
        a = a + 1;
    }
    let ghost t = s@.skip(a as int);
    let mut b: usize = total;
    assert(s@.subrange(a as int, b as int) =~= t);
    while b > a && is_white(s.get_char(b - 1))
        invariant
            a <= b <= total,
            total == s@.len(),
            trim_end(s@.subrange(a as int, b as int)) == trim_end(t),
        decreases b,
    {
        assert(s@.subrange(a as int, b as int).drop_last() =~= s@.subrange(a as int, b - 1));
        b = b - 1;
    }
    s.substring_char(a, b)
}

// ---------------------------------------------------------------------------
// Order
// ---------------------------------------------------------------------------

/// The order of strings: by the first character in which they differ, a proper
/// prefix coming first.
pub open spec fn text_before(a: Seq<char>, b: Seq<char>) -> bool
    decreases b.len(),
{
    if b.len() == 0 {
        false
    } else if a.len() == 0 {
        true
    } else if a[0] == b[0] {
        text_before(a.drop_first(), b.drop_first())
    } else {
        a[0] < b[0]
    }
}

pub proof fn lemma_text_before_irreflexive(a: Seq<char>)
    ensures
        !text_before(a, a),
    decreases a.len(),
{
    if a.len() > 0 {
        lemma_text_before_irreflexive(a.drop_first());
    }
}

pub proof fn lemma_text_before_transitive(a: Seq<char>, b: Seq<char>, c: Seq<char>)
    requires
        text_before(a, b),
        text_before(b, c),
    ensures
        text_before(a, c),
    decreases b.len(),
{
    if a.len() > 0 && b.len() > 0 && c.len() > 0 && a[0] == b[0] && b[0] == c[0] {
        lemma_text_before_transitive(a.drop_first(), b.drop_first(), c.drop_first());
    }
}

pub proof fn lemma_text_before_total(a: Seq<char>, b: Seq<char>)
    ensures
        a == b || text_before(a, b) || text_before(b, a),
    decreases a.len(),
{
    if a.len() > 0 && b.len() > 0 {
        if a[0] == b[0] {
            lemma_text_before_total(a.drop_first(), b.drop_first());
            if a.drop_first() == b.drop_first() {
                assert(a =~= seq![a[0]] + a.drop_first());
                assert(b =~= seq![b[0]] + b.drop_first());
            }
        }
    } else if a.len() == 0 && b.len() == 0 {
        assert(a =~= b);
    }
}

/// Compares two texts.
pub fn is_before(a: &str, b: &str) -> (r: bool)
    ensures
        r == text_before(a@, b@),
{
    let x = to_chars(a);
    let y = to_chars(b);
    let mut i: usize = 0;
    assert(x@.skip(0) =~= x@);
    assert(y@.skip(0) =~= y@);
    while i < x.len() && i < y.len() && x[i] == y[i]
        invariant
            i <= x@.len(),
            i <= y@.len(),
            text_before(x@.skip(i as int), y@.skip(i as int)) == text_before(x@, y@),
        decreases x@.len() - i,
    {
        assert(x@.skip(i as int).drop_first() =~= x@.skip(i + 1));
        assert(y@.skip(i as int).drop_first() =~= y@.skip(i + 1));
        i = i + 1;
    }
    if i >= y.len() {
        false
    } else if i >= x.len() {
        true
    } else {
        x[i] < y[i]
    }
}

/// Whether texts stand in strictly ascending order.
pub open spec fn ascending(keys: Seq<Seq<char>>) -> bool {
    forall|i: int, j: int|
        0 <= i < j < keys.len() ==> text_before(#[trigger] keys[i], #[trigger] keys[j])
}

pub proof fn lemma_ascending_distinct(keys: Seq<Seq<char>>)
    requires
        ascending(keys),
    ensures
        keys.no_duplicates(),
{
    assert forall|i: int, j: int| 0 <= i < keys.len() && 0 <= j < keys.len() && i != j implies keys[i]
        != keys[j] by {
        lemma_text_before_irreflexive(keys[i]);
        if i < j {
            assert(text_before(keys[i], keys[j]));
        } else {
            assert(text_before(keys[j], keys[i]));
        }
    }
}

/// Two ascending sequences with the same elements are the same.
pub proof fn lemma_ascending_unique(a: Seq<Seq<char>>, b: Seq<Seq<char>>)
    requires
        ascending(a),
        ascending(b),
        forall|k: Seq<char>| a.contains(k) <==> #[trigger] b.contains(k),
    ensures
        a == b,
    decreases a.len(),
{
    if a.len() == 0 {
        if b.len() > 0 {
            assert(b.contains(b[0]));
            assert(a.contains(b[0]));
        }
        assert(a =~= b);
    } else {
        assert(a.contains(a[0]));
        assert(b.contains(a[0]));
        let j = b.index_of(a[0]);
        assert(b[j] == a[0]);
        assert(b.contains(b[0]));
        assert(a.contains(b[0]));
        let i = a.index_of(b[0]);
        assert(a[i] == b[0]);
        if i > 0 && j > 0 {
            assert(text_before(a[0], a[i]));
            assert(text_before(b[0], b[j]));
            lemma_text_before_transitive(a[0], b[0], a[0]);
            lemma_text_before_irreflexive(a[0]);
        }
        assert(a[0] == b[0]);
        let a1 = a.drop_first();
        let b1 = b.drop_first();
        lemma_ascending_distinct(a);
        lemma_ascending_distinct(b);
        assert(ascending(a1)) by {
            assert forall|x: int, y: int| 0 <= x < y < a1.len() implies text_before(
                #[trigger] a1[x],
                #[trigger] a1[y],
            ) by {
                assert(text_before(a[x + 1], a[y + 1]));
            }
        }
        assert(ascending(b1)) by {
            assert forall|x: int, y: int| 0 <= x < y < b1.len() implies text_before(
                #[trigger] b1[x],
                #[trigger] b1[y],
            ) by {
                assert(text_before(b[x + 1], b[y + 1]));
            }
        }
        assert forall|k: Seq<char>| a1.contains(k) <==> #[trigger] b1.contains(k) by {
            if a1.contains(k) {
                let x = a1.index_of(k);
                assert(a[x + 1] == k);
                assert(a.contains(k));
                assert(b.contains(k));
                let y = b.index_of(k);
                assert(b[y] == k);
                assert(y != 0);
                assert(b1[y - 1] == k);
            }
            if b1.contains(k) {
                let x = b1.index_of(k);
                assert(b[x + 1] == k);
                assert(b.contains(k));
                assert(a.contains(k));
                let y = a.index_of(k);
                assert(a[y] == k);
                assert(y != 0);
                assert(a1[y - 1] == k);
            }
        }
        lemma_ascending_unique(a1, b1);
        assert(a =~= seq![a[0]] + a1);
        assert(b =~= seq![b[0]] + b1);
    }
}

/// Where a text belongs in an ascending sequence that does not hold it.
pub proof fn lemma_insertion_point(keys: Seq<Seq<char>>, k: Seq<char>) -> (at: int)
    requires
        ascending(keys),
    ensures
        0 <= at <= keys.len(),
        forall|j: int| 0 <= j < at ==> text_before(#[trigger] keys[j], k),
        forall|j: int|
            at <= j < keys.len() ==> #[trigger] keys[j] == k || text_before(k, keys[j]),
    decreases keys.len(),
{
    if keys.len() == 0 {
        0
    } else {
        let last = keys.last();
        lemma_text_before_total(last, k);
        if text_before(last, k) {
            assert forall|j: int| 0 <= j < keys.len() implies text_before(
                #[trigger] keys[j],
                k,
            ) by {
                if j < keys.len() - 1 {
                    assert(text_before(keys[j], keys[keys.len() - 1]));
                    lemma_text_before_transitive(keys[j], last, k);
                }
            }
            keys.len() as int
        } else {
            let at = lemma_insertion_point(keys.drop_last(), k);
            assert forall|j: int| 0 <= j < at implies text_before(
                #[trigger] keys[j],
                k,
            ) by {
                assert(keys.drop_last()[j] == keys[j]);
            }
            assert forall|j: int| at <= j < keys.len() implies #[trigger] keys[j] == k
                || text_before(k, keys[j]) by {
                if j < keys.len() - 1 {
                    assert(keys.drop_last()[j] == keys[j]);
                }
            }
            at
        }
    }
}

/// Inserting a text where it belongs keeps a sequence ascending.
pub proof fn lemma_ascending_insert(keys: Seq<Seq<char>>, at: int, k: Seq<char>)
    requires
        ascending(keys),
        0 <= at <= keys.len(),
        forall|j: int| 0 <= j < at ==> text_before(#[trigger] keys[j], k),
        forall|j: int| at <= j < keys.len() ==> text_before(k, #[trigger] keys[j]),
    ensures
        ascending(keys.insert(at, k)),
        forall|x: Seq<char>| #[trigger]
            keys.insert(at, k).contains(x) <==> x == k || keys.contains(x),
{
    let now = keys.insert(at, k);
    assert forall|i: int, j: int| 0 <= i < j < now.len() implies text_before(
        #[trigger] now[i],
        #[trigger] now[j],
    ) by {
        let a = if i < at { i } else { i - 1 };
        let b = if j < at { j } else { j - 1 };
        if i != at {
            assert(now[i] == keys[a]);
        }
        if j != at {
            assert(now[j] == keys[b]);
        }
    }
    assert forall|x: Seq<char>| #[trigger] now.contains(x) <==> x == k || keys.contains(x) by {
        if now.contains(x) {
            let i = now.index_of(x);
            assert(now[i] == x);
            if i != at {
                assert(keys[if i < at { i } else { i - 1 }] == x);
            }
        }
        if x == k {
            assert(now[at] == x);
        }
        if keys.contains(x) {
            let i = keys.index_of(x);
            assert(keys[i] == x);
            assert(now[if i < at { i } else { i + 1 }] == x);
        }
    }
}

// ---------------------------------------------------------------------------
// Decimal numbers
// ---------------------------------------------------------------------------

/// The decimal digit for a value below ten, as a byte.
pub open spec fn digit_byte(d: nat) -> u8 {
    (48 + d) as u8
}

/// A number in decimal, as ASCII bytes, without leading zeros.
pub open spec fn decimal_bytes(n: nat) -> Seq<u8>
    decreases n,
{
    if n < 10 {
        seq![digit_byte(n)]
    } else {
        decimal_bytes(n / 10).push(digit_byte(n % 10))
    }
}

/// A number in decimal, as text.
pub open spec fn decimal(n: nat) -> Seq<char>
    decreases n,
{
    if n < 10 {
        seq![digit_byte(n) as char]
    } else {
        decimal(n / 10).push(digit_byte(n % 10) as char)
    }
}

/// Whether every byte is an ASCII digit.
pub open spec fn all_digits(b: Seq<u8>) -> bool {
    forall|i: int| 0 <= i < b.len() ==> 48 <= #[trigger] b[i] <= 57
}

/// The number that ASCII digits denote.
pub open spec fn digits_value(b: Seq<u8>) -> nat
    decreases b.len(),
{
    if b.len() == 0 {
        0
    } else {
        digits_value(b.drop_last()) * 10 + (b.last() - 48) as nat
    }
}

/// Decimal digits denote the number they were written for.
pub proof fn lemma_decimal_value(n: nat)
    ensures
        decimal_bytes(n).len() > 0,
        all_digits(decimal_bytes(n)),
        digits_value(decimal_bytes(n)) == n,
    decreases n,
{
    if n < 10 {
        assert(decimal_bytes(n).drop_last() =~= Seq::<u8>::empty());
        assert(digits_value(Seq::<u8>::empty()) == 0);
    } else {
        lemma_decimal_value(n / 10);
        assert(decimal_bytes(n).drop_last() =~= decimal_bytes(n / 10));
    }
}

/// The text of a number is the ASCII text of its digits.
pub proof fn lemma_decimal_encoding(n: nat)
    ensures
        utf8::encode_utf8(decimal(n)) == decimal_bytes(n),
        utf8::is_ascii_chars(decimal(n)),
    decreases n,
{
    lemma_decimal_chars(n);
    utf8::is_ascii_chars_encode_utf8(decimal(n));
    assert forall|i: int| 0 <= i < decimal(n).len() implies decimal(n)[i] as u8
        == decimal_bytes(n)[i] by {}
    assert(utf8::encode_utf8(decimal(n)) =~= decimal_bytes(n));
}

/// The text of a number is not empty and made of digits.
pub proof fn lemma_decimal_digits(n: nat)
    ensures
        decimal(n).len() > 0,
        forall|i: int| 0 <= i < decimal(n).len() ==> '0' <= #[trigger] decimal(n)[i] <= '9',
{
    lemma_decimal_chars(n);
    lemma_decimal_value(n);
}

proof fn lemma_decimal_chars(n: nat)
    ensures
        decimal(n).len() == decimal_bytes(n).len(),
        forall|i: int|
            0 <= i < decimal(n).len() ==> #[trigger] decimal(n)[i] == decimal_bytes(n)[i] as char
                && 48 <= decimal_bytes(n)[i] <= 57,
    decreases n,
{
    if n >= 10 {
        lemma_decimal_chars(n / 10);
    }
}

/// Writes a number in decimal.
pub fn number_text(n: u64) -> (r: String)
    ensures
        r@ == decimal(n as nat),
    decreases n,
{
    if n < 10 {
        let mut r = String::new();
        r.push((48u8 + n as u8) as char);
        assert(r@ =~= decimal(n as nat));
        r
    } else {
        let mut r = number_text(n / 10);
        r.push((48u8 + (n % 10) as u8) as char);
        r
    }
}

/// Writes a size in decimal.
pub fn size_text(n: usize) -> (r: String)
    ensures
        r@ == decimal(n as nat),
{
    number_text(n as u64)
}

// ---------------------------------------------------------------------------
// UTF-8
// ---------------------------------------------------------------------------

/// UTF-8 encodes a concatenation part by part.
pub proof fn lemma_encode_concat(a: Seq<char>, b: Seq<char>)
    ensures
        utf8::encode_utf8(a + b) == utf8::encode_utf8(a) + utf8::encode_utf8(b),
    decreases a.len(),
{
    if a.len() == 0 {
        assert(a + b =~= b);
        assert(utf8::encode_utf8(a) =~= Seq::<u8>::empty());
        assert(utf8::encode_utf8(a) + utf8::encode_utf8(b) =~= utf8::encode_utf8(b));
    } else {
        assert((a + b).drop_first() =~= a.drop_first() + b);
        lemma_encode_concat(a.drop_first(), b);
        assert(utf8::encode_utf8(a + b) =~= utf8::encode_utf8(a) + utf8::encode_utf8(b));
    }
}

/// A line break in the UTF-8 form comes from a line break in the text.
pub proof fn lemma_encode_newline(s: Seq<char>)
    requires
        !s.contains('\n'),
    ensures
        !utf8::encode_utf8(s).contains(10u8),
    decreases s.len(),
{
    if s.len() > 0 {
        let t = s.drop_first();
        assert forall|x: char| t.contains(x) implies s.contains(x) by {
            let i = t.index_of(x);
            assert(s[i + 1] == x);
        }
        lemma_encode_newline(t);
        assert(s.contains(s[0]));
        lemma_char_newline(s[0]);
        let e = utf8::encode_scalar(s[0] as u32);
        assert forall|i: int| 0 <= i < utf8::encode_utf8(s).len() implies utf8::encode_utf8(s)[i] != 10 by {
            if i < e.len() {
                assert(utf8::encode_utf8(s)[i] == e[i]);
                assert(e.contains(e[i]));
            } else {
                assert(utf8::encode_utf8(s)[i] == utf8::encode_utf8(t)[i - e.len()]);
                assert(utf8::encode_utf8(t).contains(utf8::encode_utf8(t)[i - e.len()]));
            }
        }
    }
}

proof fn lemma_char_newline(ch: char)
    requires
        ch != '\n',
    ensures
        !utf8::encode_scalar(ch as u32).contains(10u8),
{
    let c: u32 = ch as u32;
    assert(c != 10);
    assert(c <= 0x7f ==> (c & 0x7F) as u8 != 10) by (bit_vector)
        requires
            c != 10,
    ;
    assert(0xC0u8 | ((c >> 6) & 0x1F) as u8 != 10) by (bit_vector);
    assert(0xE0u8 | ((c >> 12) & 0x0F) as u8 != 10) by (bit_vector);
    assert(0xF0u8 | ((c >> 18) & 0x7) as u8 != 10) by (bit_vector);
    assert(0x80u8 | (c & 0x3F) as u8 != 10) by (bit_vector);
    assert(0x80u8 | ((c >> 6) & 0x3F) as u8 != 10) by (bit_vector);
    assert(0x80u8 | ((c >> 12) & 0x3F) as u8 != 10) by (bit_vector);
}

// ---------------------------------------------------------------------------
// Laws
// ---------------------------------------------------------------------------

/// Trimming takes the white space off both ends and nothing else: what is left of a
/// text with white space around it is the text, which begins and ends with another
/// character or is empty.
pub proof fn law_trimmed(before: Seq<char>, s: Seq<char>, after: Seq<char>)
    requires
        forall|i: int| 0 <= i < before.len() ==> white(#[trigger] before[i]),
        forall|i: int| 0 <= i < after.len() ==> white(#[trigger] after[i]),
        s.len() > 0 ==> !white(s[0]) && !white(s.last()),
    ensures
        trimmed(before + s + after) == s,
    decreases before.len() + after.len(),
{
    let whole = before + s + after;
    if before.len() > 0 {
        let rest = before.drop_first();
        assert(whole.drop_first() =~= rest + s + after);
        assert(whole[0] == before[0]);
        assert forall|i: int| 0 <= i < rest.len() implies white(#[trigger] rest[i]) by {
            assert(rest[i] == before[i + 1]);
        }
        law_trimmed(rest, s, after);
    } else if s.len() == 0 && after.len() > 0 {
        let rest = after.drop_first();
        assert(whole.drop_first() =~= before + s + rest);
        assert(whole[0] == after[0]);
        assert forall|i: int| 0 <= i < rest.len() implies white(#[trigger] rest[i]) by {
            assert(rest[i] == after[i + 1]);
        }
        law_trimmed(before, s, rest);
    } else {
        assert(whole =~= s + after);
        if s.len() > 0 {
            assert(whole[0] == s[0]);
        }
        assert(trim_start(whole) == whole);
        lemma_trim_end(s, after);
    }
}

proof fn lemma_trim_end(s: Seq<char>, after: Seq<char>)
    requires
        forall|i: int| 0 <= i < after.len() ==> white(#[trigger] after[i]),
        s.len() > 0 ==> !white(s.last()),
    ensures
        trim_end(s + after) == s,
    decreases after.len(),
{
    if after.len() > 0 {
        let rest = after.drop_last();
        assert((s + after).drop_last() =~= s + rest);
        assert((s + after).last() == after[after.len() - 1]);
        assert forall|i: int| 0 <= i < rest.len() implies white(#[trigger] rest[i]) by {
            assert(rest[i] == after[i]);
        }
        lemma_trim_end(s, rest);
    } else {
        assert(s + after =~= s);
    }
}

/// Every text is what trimming leaves of it, with white space around.
pub proof fn law_trimmed_is_inside(s: Seq<char>) -> (ends: (Seq<char>, Seq<char>))
    ensures
        s == ends.0 + trimmed(s) + ends.1,
        forall|i: int| 0 <= i < ends.0.len() ==> white(#[trigger] ends.0[i]),
        forall|i: int| 0 <= i < ends.1.len() ==> white(#[trigger] ends.1[i]),
        trimmed(s).len() > 0 ==> !white(trimmed(s)[0]) && !white(trimmed(s).last()),
    decreases s.len(),
{
    if s.len() > 0 && white(s[0]) {
        let inner = law_trimmed_is_inside(s.drop_first());
        let a = seq![s[0]] + inner.0;
        let rest = s.drop_first();
        assert(trimmed(s) == trimmed(rest));
        assert(rest == inner.0 + trimmed(rest) + inner.1);
        assert(s =~= seq![s[0]] + rest);
        assert(a + trimmed(s) + inner.1 =~= seq![s[0]] + (inner.0 + trimmed(rest) + inner.1));
        (a, inner.1)
    } else {
        let b = lemma_trim_end_inside(s);
        assert(s =~= Seq::<char>::empty() + trimmed(s) + b);
        if trimmed(s).len() > 0 {
            assert(trimmed(s)[0] == s[0]);
        }
        (Seq::empty(), b)
    }
}

proof fn lemma_trim_end_inside(s: Seq<char>) -> (b: Seq<char>)
    ensures
        s == trim_end(s) + b,
        forall|i: int| 0 <= i < b.len() ==> white(#[trigger] b[i]),
        trim_end(s).len() > 0 ==> !white(trim_end(s).last()),
    decreases s.len(),
{
    if s.len() > 0 && white(s.last()) {
        let inner = lemma_trim_end_inside(s.drop_last());
        let b = inner.push(s.last());
        let rest = s.drop_last();
        assert(trim_end(s) == trim_end(rest));
        assert(s =~= rest.push(s.last()));
        assert(trim_end(s) + b =~= (trim_end(rest) + inner).push(s.last()));
        b
    } else {
        assert(s =~= s + Seq::<char>::empty());
        Seq::empty()
    }
}

/// A text occurs in another exactly if that is made of some text, the first one, and
/// some text.
pub proof fn law_occurs_in(needle: Seq<char>, hay: Seq<char>)
    ensures
        occurs_in(needle, hay) <==> exists|a: Seq<char>, b: Seq<char>|
            hay == #[trigger] (a + needle + b),
{
    if occurs_in(needle, hay) {
        let i = choose|i: int|
            0 <= i && i + needle.len() <= hay.len() && #[trigger] hay.subrange(
                i,
                i + needle.len(),
            ) == needle;
        let a = hay.take(i);
        let b = hay.skip(i + needle.len());
        assert(hay =~= a + needle + b);
    }
    if exists|a: Seq<char>, b: Seq<char>| hay == #[trigger] (a + needle + b) {
        let (a, b) = choose|a: Seq<char>, b: Seq<char>| hay == #[trigger] (a + needle + b);
        let i = a.len() as int;
        assert(hay.subrange(i, i + needle.len()) =~= needle);
    }
}

/// One text stands before another exactly if they agree up to some position at which
/// the first one ends or has the smaller character.
pub proof fn law_text_order(a: Seq<char>, b: Seq<char>)
    ensures
        text_before(a, b) <==> exists|k: int|
            0 <= k <= a.len() && k < b.len() && #[trigger] a.take(k) == b.take(k) && (k == a.len()
                || a[k] < b[k]),
    decreases a.len(),
{
    if a.len() > 0 && b.len() > 0 && a[0] == b[0] {
        let x = a.drop_first();
        let y = b.drop_first();
        law_text_order(x, y);
        if text_before(x, y) {
            let k = choose|k: int|
                0 <= k <= x.len() && k < y.len() && #[trigger] x.take(k) == y.take(k) && (k
                    == x.len() || x[k] < y[k]);
            assert(a.take(k + 1) =~= seq![a[0]] + x.take(k));
            assert(b.take(k + 1) =~= seq![b[0]] + y.take(k));
            assert(k + 1 == a.len() || a[k + 1] < b[k + 1]);
        }
        if exists|k: int|
            0 <= k <= a.len() && k < b.len() && #[trigger] a.take(k) == b.take(k) && (k == a.len()
                || a[k] < b[k]) {
            let k = choose|k: int|
                0 <= k <= a.len() && k < b.len() && #[trigger] a.take(k) == b.take(k) && (k
                    == a.len() || a[k] < b[k]);
            assert(k > 0);
            assert(x.take(k - 1) =~= a.take(k).drop_first());
            assert(y.take(k - 1) =~= b.take(k).drop_first());
        }
    } else {
        assert(a.take(0) =~= b.take(0));
        if exists|k: int|
            0 <= k <= a.len() && k < b.len() && #[trigger] a.take(k) == b.take(k) && (k == a.len()
                || a[k] < b[k]) {
            let k = choose|k: int|
                0 <= k <= a.len() && k < b.len() && #[trigger] a.take(k) == b.take(k) && (k
                    == a.len() || a[k] < b[k]);
            if k > 0 {
                assert(a.take(k)[0] == b.take(k)[0]);
            }
        }
    }
}

/// What of an ascending sequence has a property: it is ascending, and holds exactly the
/// elements that have it.
pub proof fn lemma_filter_ascending(s: Seq<Seq<char>>, pred: spec_fn(Seq<char>) -> bool)
    requires
        ascending(s),
    ensures
        ascending(s.filter(pred)),
        forall|x: Seq<char>| #[trigger] s.filter(pred).contains(x) <==> s.contains(x) && pred(x),
    decreases s.len(),
{
    reveal(Seq::filter);
    if s.len() > 0 {
        let t = s.drop_last();
        let last = s.last();
        assert(ascending(t)) by {
            assert forall|i: int, j: int| 0 <= i < j < t.len() implies text_before(
                #[trigger] t[i],
                #[trigger] t[j],
            ) by {
                assert(text_before(s[i], s[j]));
            }
        }
        lemma_filter_ascending(t, pred);
        let f = s.filter(pred);
        let g = t.filter(pred);
        assert forall|x: Seq<char>| #[trigger] s.contains(x) <==> x == last || t.contains(x) by {
            if s.contains(x) {
                let i = s.index_of(x);
                if i < t.len() {
                    assert(t[i] == x);
                }
            }
            if t.contains(x) {
                let i = t.index_of(x);
                assert(s[i] == x);
            }
            if x == last {
                assert(s[s.len() - 1] == x);
            }
        }
        if pred(last) {
            assert(f == g.push(last));
            assert forall|x: Seq<char>| #[trigger] f.contains(x) <==> s.contains(x) && pred(x) by {
                if f.contains(x) {
                    let i = f.index_of(x);
                    if i < g.len() {
                        assert(g[i] == x);
                        assert(g.contains(x));
                    }
                }
                if x == last {
                    assert(f[g.len() as int] == x);
                } else if g.contains(x) {
                    let i = g.index_of(x);
                    assert(f[i] == x);
                }
            }
            assert forall|i: int, j: int| 0 <= i < j < f.len() implies text_before(
                #[trigger] f[i],
                #[trigger] f[j],
            ) by {
                if j < g.len() {
                    assert(text_before(g[i], g[j]));
                } else {
                    assert(g.contains(g[i]));
                    let k = t.index_of(g[i]);
                    assert(text_before(s[k], s[s.len() - 1]));
                }
            }
        } else {
            assert(f == g);
        }
    }
}

/// Texts are joined with the separator between neighbours: one text is itself, and one
/// more text stands behind the others and a separator.
pub proof fn law_joined(parts: Seq<Seq<char>>, last: Seq<char>, sep: Seq<char>)
    ensures
        joined(Seq::empty(), sep) == Seq::<char>::empty(),
        joined(seq![last], sep) == last,
        parts.len() > 0 ==> joined(parts.push(last), sep) == joined(parts, sep) + sep + last,
{
    assert(parts.push(last).drop_last() =~= parts);
    assert(parts.push(last).last() == last);
}

/// Numbers in decimal: one digit for a number below ten, and one digit more for ten times
/// a number and a digit.
pub proof fn law_decimal(n: nat, d: nat)
    requires
        d < 10,
    ensures
        decimal(d) == seq![('0' as int + d) as char],
        n > 0 ==> decimal(10 * n + d) == decimal(n).push(('0' as int + d) as char),
        decimal_bytes(d) == seq![(48 + d) as u8],
        n > 0 ==> decimal_bytes(10 * n + d) == decimal_bytes(n).push((48 + d) as u8),
        digits_value(seq![(48 + d) as u8]) == d,
{
    let m = (10 * n + d) as nat;
    assert(m / 10 == n && m % 10 == d) by (nonlinear_arith)
        requires
            m == 10 * n + d,
            d < 10,
    ;
    let one = seq![(48 + d) as u8];
    assert(one.drop_last() =~= Seq::empty());
    assert(digits_value(one.drop_last()) == 0);
    assert(one.last() == (48 + d) as u8);
}

/// A digit behind others adds its value to ten times theirs.
pub proof fn law_digits_value(b: Seq<u8>, d: u8)
    requires
        48 <= d <= 57,
    ensures
        digits_value(b.push(d)) == 10 * digits_value(b) + (d - 48),
        digits_value(Seq::empty()) == 0,
{
    assert(b.push(d).drop_last() =~= b);
}

/// Pieces of a text: a text without the separator is one piece, and what is parted at a
/// separator has the pieces of the one part and then those of the other.
pub proof fn law_pieces<T>(one: Seq<T>, a: Seq<T>, b: Seq<T>, sep: T)
    requires
        !one.contains(sep),
    ensures
        pieces(one, sep) == seq![one],
        pieces(a + seq![sep] + b, sep) == pieces(a, sep) + pieces(b, sep),
{
    lemma_pieces_single(one, sep);
    lemma_pieces_concat(a, b, sep);
}

/// White space is made of the six ASCII characters of it, two of Latin 1, and those of
/// general punctuation and of the scripts that have one.
pub proof fn law_white_space(c: char)
    ensures
        c as int <= 127 ==> (white(c) <==> c == ' ' || c == '\t' || c == '\n' || c as int == 11
            || c as int == 12 || c == '\r'),
        128 <= c as int <= 255 ==> (white(c) <==> c as int == 133 || c as int == 160),
        256 <= c as int ==> (white(c) <==> c as int == 5760 || 8192 <= c as int <= 8202 || c as int
            == 8232 || c as int == 8233 || c as int == 8239 || c as int == 8287 || c as int
            == 12288),
{
}

} // verus!
