//! The generation index, `.ks-generations`.
//!
//! The index is a plain text file of `path generation` lines. It holds no secret.
//! Together with the generation inside each envelope it lets a reader refuse a
//! ciphertext that is older than the index says.
//!
//! Restoring an older ciphertext together with its index line, or a whole older
//! commit of the store, is not detected.
//!
//! Two devices merge their indexes line by line. When a path then occurs more
//! than once, the greatest generation counts.
//!
//! Deleting a secret keeps its line, so that a later insert at the same path goes
//! on above the old generation.

use vstd::prelude::*;
use vstd::utf8;

use crate::assoc;
use crate::envelope;
use crate::envelope::parse_generation;
use crate::error;
use crate::error::{Error, Failure};
use crate::path;
use crate::path::is_valid;
use crate::text;
use crate::text::{
    copy_text, is_before, number_text, push_bytes, same_text, split_bytes, utf8_text,
};

verus! {

/// The name of the index file at the store's root.
pub const GENERATIONS_FILE: &'static str = ".ks-generations";

/// Path and generation, one pair per line of the index.
pub type Pairs = Seq<(Seq<char>, u64)>;

/// The paths of a list of pairs.
pub open spec fn paths_of(pairs: Pairs) -> Seq<Seq<char>> {
    Seq::new(pairs.len(), |i: int| pairs[i].0)
}

/// The generations of a list of pairs.
pub open spec fn counts_of(pairs: Pairs) -> Seq<u64> {
    Seq::new(pairs.len(), |i: int| pairs[i].1)
}

/// The map that a list of pairs denotes.
pub open spec fn map_of(pairs: Pairs) -> Map<Seq<char>, u64> {
    assoc::assoc(paths_of(pairs), counts_of(pairs))
}

/// Whether pairs are the entries of a map, ordered by path.
pub open spec fn lists(pairs: Pairs, m: Map<Seq<char>, u64>) -> bool {
    text::ascending(paths_of(pairs)) && map_of(pairs) == m
}

/// The entries of a map, ordered by path.
pub open spec fn listing(m: Map<Seq<char>, u64>) -> Pairs {
    choose|pairs: Pairs| #[trigger] lists(pairs, m)
}

/// A map has one ordered list of entries at most.
pub proof fn lemma_lists_unique(p: Pairs, q: Pairs, m: Map<Seq<char>, u64>)
    requires
        lists(p, m),
        lists(q, m),
    ensures
        p == q,
{
    let kp = paths_of(p);
    let kq = paths_of(q);
    text::lemma_ascending_distinct(kp);
    text::lemma_ascending_distinct(kq);
    assert forall|k: Seq<char>| kp.contains(k) <==> #[trigger] kq.contains(k) by {
        assert(m.contains_key(k) <==> kp.contains(k));
    }
    text::lemma_ascending_unique(kp, kq);
    assert forall|i: int| 0 <= i < p.len() implies p[i] == q[i] by {
        assert(kp[i] == kq[i]);
        assoc::lemma_assoc_at(kp, counts_of(p), i);
        assoc::lemma_assoc_at(kq, counts_of(q), i);
    }
    assert(kp.len() == kq.len());
    assert(p =~= q);
}

/// The ordered list of a map's entries is the one that was found.
pub proof fn lemma_listing_is(pairs: Pairs, m: Map<Seq<char>, u64>)
    requires
        lists(pairs, m),
    ensures
        listing(m) == pairs,
{
    lemma_lists_unique(listing(m), pairs, m);
}

/// An ordered list has one pair for each entry.
pub proof fn lemma_listed_count(pairs: Pairs, m: Map<Seq<char>, u64>)
    requires
        lists(pairs, m),
    ensures
        m.dom().len() == pairs.len(),
        m.dom().finite(),
{
    let keys = paths_of(pairs);
    text::lemma_ascending_distinct(keys);
    keys.unique_seq_to_set();
    assert(keys.to_set() =~= m.dom());
}

// ---------------------------------------------------------------------------
// The index in memory
// ---------------------------------------------------------------------------

/// The index in memory: entries in ascending order of their paths, those of
/// deleted secrets included.
#[derive(Debug, PartialEq, Eq)]
pub struct Generations {
    entries: Vec<(String, u64)>,
}

impl View for Generations {
    type V = Map<Seq<char>, u64>;

    closed spec fn view(&self) -> Map<Seq<char>, u64> {
        map_of(self.pairs())
    }
}

impl Generations {
    /// The entries in order.
    pub closed spec fn pairs(&self) -> Pairs {
        Seq::new(self.entries@.len(), |i: int| (self.entries@[i].0@, self.entries@[i].1))
    }

    /// Whether the entries are in ascending order.
    pub open spec fn wf(&self) -> bool {
        lists(self.pairs(), self@)
    }

    /// An index without entries.
    pub fn new() -> (r: Self)
        ensures
            r.wf(),
            r@ == Map::<Seq<char>, u64>::empty(),
    {
        let r = Generations { entries: Vec::new() };
        assert(r@ =~= Map::<Seq<char>, u64>::empty());
        r
    }

    /// The position of the first entry that does not stand before `path`.
    fn position(&self, path: &str) -> (r: usize)
        requires
            self.wf(),
        ensures
            r <= self.entries@.len(),
            forall|j: int| 0 <= j < r ==> text::text_before(#[trigger] self.entries@[j].0@, path@),
            r < self.entries@.len() ==> !text::text_before(self.entries@[r as int].0@, path@),
    {
        let mut i: usize = 0;
        while i < self.entries.len() && is_before(self.entries[i].0.as_str(), path)
            invariant
                i <= self.entries@.len(),
                forall|j: int|
                    0 <= j < i ==> text::text_before(#[trigger] self.entries@[j].0@, path@),
            decreases self.entries@.len() - i,
        {
            i = i + 1;
        }
        i
    }

    /// What the position of a path says of the entries.
    proof fn lemma_position(&self, path: Seq<char>, at: int)
        requires
            self.wf(),
            0 <= at <= self.entries@.len(),
            forall|j: int| 0 <= j < at ==> text::text_before(#[trigger] self.entries@[j].0@, path),
            at < self.entries@.len() ==> !text::text_before(self.entries@[at].0@, path),
        ensures
            at < self.entries@.len() && self.entries@[at].0@ == path ==> self@.contains_key(path)
                && self@[path] == self.entries@[at].1,
            at == self.entries@.len() || self.entries@[at].0@ != path ==> !self@.contains_key(path)
                && forall|j: int|
                at <= j < self.entries@.len() ==> text::text_before(
                    path,
                    #[trigger] self.entries@[j].0@,
                ),
    {
        let keys = paths_of(self.pairs());
        text::lemma_ascending_distinct(keys);
        if at < self.entries@.len() && self.entries@[at].0@ == path {
            assert(keys[at] == path);
            assoc::lemma_assoc_at(keys, counts_of(self.pairs()), at);
        } else {
            assert forall|j: int| at <= j < self.entries@.len() implies text::text_before(
                path,
                #[trigger] self.entries@[j].0@,
            ) by {
                text::lemma_text_before_total(path, keys[at]);
                if j > at {
                    assert(text::text_before(keys[at], keys[j]));
                    text::lemma_text_before_transitive(path, keys[at], keys[j]);
                }
            }
            if keys.contains(path) {
                let j = keys.index_of(path);
                assert(keys[j] == path);
                text::lemma_text_before_irreflexive(path);
                assert(self.entries@[j].0@ == path);
            }
        }
    }

    /// The generation that is recorded for a path.
    pub fn get(&self, path: &str) -> (r: Option<u64>)
        requires
            self.wf(),
        ensures
            r == (if self@.contains_key(path@) {
                Some(self@[path@])
            } else {
                None
            }),
    {
        let at = self.position(path);
        proof {
            self.lemma_position(path@, at as int);
        }
        if at < self.entries.len() && same_text(self.entries[at].0.as_str(), path) {
            Some(self.entries[at].1)
        } else {
            None
        }
    }

    /// Records a generation for a path, in place of an earlier one.
    pub fn set(&mut self, path: String, generation: u64)
        requires
            old(self).wf(),
        ensures
            final(self).wf(),
            final(self)@ == old(self)@.insert(path@, generation),
    {
        let at = self.position(path.as_str());
        let ghost name = path@;
        let ghost before = *self;
        let ghost keys = paths_of(self.pairs());
        let ghost vals = counts_of(self.pairs());
        proof {
            self.lemma_position(path@, at as int);
            text::lemma_ascending_distinct(keys);
        }
        if at < self.entries.len() && same_text(self.entries[at].0.as_str(), path.as_str()) {
            self.entries.set(at, (path, generation));
            proof {
                assoc::lemma_assoc_update(keys, vals, at as int, generation);
                assert(paths_of(self.pairs()) =~= keys);
                assert(counts_of(self.pairs()) =~= vals.update(at as int, generation));
            }
        } else {
            self.entries.insert(at, (path, generation));
            proof {
                if keys.contains(name) {
                    let j = keys.index_of(name);
                    assert(before.entries@[j].0@ == name);
                    text::lemma_text_before_irreflexive(name);
                }
                assoc::lemma_assoc_insert(keys, vals, at as int, name, generation);
                assert(paths_of(self.pairs()) =~= keys.insert(at as int, name));
                assert(counts_of(self.pairs()) =~= vals.insert(at as int, generation));
                let now = paths_of(self.pairs());
                assert forall|i: int, j: int| 0 <= i < j < now.len() implies text::text_before(
                    #[trigger] now[i],
                    #[trigger] now[j],
                ) by {
                    let a = if i < at { i } else { i - 1 };
                    let b = if j < at { j } else { j - 1 };
                    if i != at {
                        assert(now[i] == keys[a]);
                        assert(keys[a] == before.entries@[a].0@);
                    }
                    if j != at {
                        assert(now[j] == keys[b]);
                        assert(keys[b] == before.entries@[b].0@);
                    }
                }
            }
        }
    }

    /// The generation of the next write at a path: one more than the recorded one.
    pub fn next(&self, path: &str) -> (r: u64)
        requires
            self.wf(),
        ensures
            r == next_generation(self@, path@),
    {
        match self.get(path) {
            Some(n) => n.saturating_add(1),
            None => 1,
        }
    }

    /// The number of entries.
    pub fn len(&self) -> (r: usize)
        ensures
            r == self.pairs().len(),
    {
        self.entries.len()
    }

    /// The entry at a position.
    pub fn at(&self, i: usize) -> (r: (&str, u64))
        requires
            i < self.pairs().len(),
        ensures
            (r.0@, r.1) == self.pairs()[i as int],
    {
        let e = &self.entries[i];
        (e.0.as_str(), e.1)
    }
}

impl Default for Generations {
    fn default() -> (r: Self)
        ensures
            r.wf(),
            r@ == Map::<Seq<char>, u64>::empty(),
    {
        Generations::new()
    }
}

/// One more than the recorded generation, without running over the greatest one;
/// a path that is not recorded starts at one.
pub open spec fn next_generation(m: Map<Seq<char>, u64>, path: Seq<char>) -> u64 {
    if !m.contains_key(path) {
        1
    } else if m[path] == u64::MAX {
        u64::MAX
    } else {
        (m[path] + 1) as u64
    }
}

// ---------------------------------------------------------------------------
// Reading the index file
// ---------------------------------------------------------------------------

/// The ASCII white space bytes.
pub open spec fn blank(b: u8) -> bool {
    b == 32 || b == 9 || b == 10 || b == 12 || b == 13
}

fn is_blank(b: u8) -> (r: bool)
    ensures
        r == blank(b),
{
    b == 32 || b == 9 || b == 10 || b == 12 || b == 13
}

/// `s` without leading white space.
pub open spec fn ascii_trim_start(s: Seq<u8>) -> Seq<u8>
    decreases s.len(),
{
    if s.len() > 0 && blank(s[0]) {
        ascii_trim_start(s.drop_first())
    } else {
        s
    }
}

/// `s` without trailing white space.
pub open spec fn ascii_trim_end(s: Seq<u8>) -> Seq<u8>
    decreases s.len(),
{
    if s.len() > 0 && blank(s.last()) {
        ascii_trim_end(s.drop_last())
    } else {
        s
    }
}

/// `s` without white space at either end.
pub open spec fn ascii_trimmed(s: Seq<u8>) -> Seq<u8> {
    ascii_trim_end(ascii_trim_start(s))
}

/// The maximal runs of bytes that are not white space.
pub open spec fn tokens(s: Seq<u8>) -> Seq<Seq<u8>>
    decreases s.len(),
{
    if s.len() == 0 {
        Seq::empty()
    } else if blank(s.last()) {
        tokens(s.drop_last())
    } else if s.len() >= 2 && !blank(s[s.len() - 2]) {
        let before = tokens(s.drop_last());
        before.update(before.len() - 1, before.last().push(s.last()))
    } else {
        tokens(s.drop_last()).push(seq![s.last()])
    }
}

/// The entry that a line of the index holds. Blank lines, comments and lines that
/// are not a valid path and a generation hold none.
pub open spec fn line_entry(line: Seq<u8>) -> Option<(Seq<char>, u64)> {
    let t = ascii_trimmed(line);
    if t.len() == 0 || t[0] == 35 || tokens(t).len() != 2 {
        None
    } else if !utf8::valid_utf8(tokens(t)[0]) || !path::valid_path(
        utf8::decode_utf8(tokens(t)[0]),
    ) {
        None
    } else {
        match envelope::generation_of(tokens(t)[1]) {
            Ok(n) => Some((utf8::decode_utf8(tokens(t)[0]), n)),
            Err(_) => None,
        }
    }
}

/// A map with an entry raised to at least `generation`.
pub open spec fn raised(m: Map<Seq<char>, u64>, path: Seq<char>, generation: u64) -> Map<
    Seq<char>,
    u64,
> {
    if m.contains_key(path) && m[path] >= generation {
        m
    } else {
        m.insert(path, generation)
    }
}

/// The greatest generation that `lines` hold for each path.
pub open spec fn reduced(lines: Seq<Seq<u8>>) -> Map<Seq<char>, u64>
    decreases lines.len(),
{
    if lines.len() == 0 {
        Map::empty()
    } else {
        let before = reduced(lines.drop_last());
        match line_entry(lines.last()) {
            Some((p, n)) => raised(before, p, n),
            None => before,
        }
    }
}

/// The index that a file holds.
pub open spec fn indexed(bytes: Seq<u8>) -> Map<Seq<char>, u64> {
    reduced(text::pieces(bytes, 10u8))
}

/// An index that was read has finitely many entries, all with valid paths.
pub proof fn lemma_reduced_valid(lines: Seq<Seq<u8>>)
    ensures
        reduced(lines).dom().finite(),
        forall|p: Seq<char>| #[trigger] reduced(lines).contains_key(p) ==> path::valid_path(p),
    decreases lines.len(),
{
    if lines.len() > 0 {
        lemma_reduced_valid(lines.drop_last());
    }
}

/// Trims ASCII white space.
fn trim_ascii(s: &[u8]) -> (r: &[u8])
    ensures
        r@ == ascii_trimmed(s@),
{
    let mut a: usize = 0;
    assert(s@.skip(0) =~= s@);
    while a < s.len() && is_blank(s[a])
        invariant
            a <= s@.len(),
            ascii_trim_start(s@.skip(a as int)) == ascii_trim_start(s@),
        decreases s@.len() - a,
    {
        assert(s@.skip(a as int).drop_first() =~= s@.skip(a + 1));
        a = a + 1;
    }
    let ghost t = s@.skip(a as int);
    let mut b: usize = s.len();
    assert(s@.subrange(a as int, b as int) =~= t);
    while b > a && is_blank(s[b - 1])
        invariant
            a <= b <= s@.len(),
            ascii_trim_end(s@.subrange(a as int, b as int)) == ascii_trim_end(t),
        decreases b,
    {
        assert(s@.subrange(a as int, b as int).drop_last() =~= s@.subrange(a as int, b - 1));
        b = b - 1;
    }
    vstd::slice::slice_subrange(s, a, b)
}

/// Splits bytes into tokens.
fn split_tokens(s: &[u8]) -> (r: Vec<Vec<u8>>)
    ensures
        r@.len() == tokens(s@).len(),
        forall|i: int| 0 <= i < r@.len() ==> #[trigger] r@[i]@ == tokens(s@)[i],
{
    let mut out: Vec<Vec<u8>> = Vec::new();
    let mut cur: Vec<u8> = Vec::new();
    assert(s@.take(0) =~= Seq::<u8>::empty());
    for k in 0..s.len()
        invariant
            cur@.len() == 0 <==> (k == 0 || blank(s@[k - 1])),
            cur@.len() == 0 ==> tokens(s@.take(k as int)).len() == out@.len(),
            cur@.len() > 0 ==> tokens(s@.take(k as int)).len() == out@.len() + 1,
            cur@.len() > 0 ==> tokens(s@.take(k as int)).last() == cur@,
            forall|i: int|
                0 <= i < out@.len() ==> #[trigger] out@[i]@ == tokens(s@.take(k as int))[i],
    {
        assert(s@.take(k + 1).drop_last() =~= s@.take(k as int));
        assert(s@.take(k + 1).last() == s@[k as int]);
        if k > 0 {
            assert(s@.take(k + 1)[k - 1] == s@[k - 1]);
        }
        if is_blank(s[k]) {
            if cur.len() > 0 {
                out.push(cur);
                cur = Vec::new();
            }
        } else {
            let ghost fresh = cur@.len() == 0;
            cur.push(s[k]);
            proof {
                if fresh {
                    assert(cur@ =~= seq![s@[k as int]]);
                }
            }
        }
    }
    assert(s@.take(s@.len() as int) =~= s@);
    if cur.len() > 0 {
        out.push(cur);
    }
    out
}

/// The two tokens of a line that has two.
fn split_two_tokens(line: &[u8]) -> (r: Option<(Vec<u8>, Vec<u8>)>)
    ensures
        r is Some <==> tokens(line@).len() == 2,
        r matches Some(p) ==> p.0@ == tokens(line@)[0] && p.1@ == tokens(line@)[1],
{
    let mut parts = split_tokens(line);
    if parts.len() != 2 {
        return None;
    }
    let ghost all = parts@;
    assert(all[0]@ == tokens(line@)[0]);
    assert(all[1]@ == tokens(line@)[1]);
    let second = parts.remove(1);
    let first = parts.remove(0);
    Some((first, second))
}

/// The entry of a line.
fn parse_line(line: &[u8]) -> (r: Option<(String, u64)>)
    ensures
        match line_entry(line@) {
            Some((p, n)) => r matches Some(e) && e.0@ == p && e.1 == n,
            None => r is None,
        },
{
    let line = trim_ascii(line);
    if line.len() == 0 || line[0] == 35 {
        return None;
    }
    let (path_bytes, count_bytes) = match split_two_tokens(line) {
        Some(p) => p,
        None => {
            return None;
        },
    };
    let path = match utf8_text(path_bytes.as_slice()) {
        Ok(s) => s,
        Err(_) => {
            return None;
        },
    };
    if !is_valid(path) {
        return None;
    }
    match parse_generation(count_bytes.as_slice()) {
        Ok(n) => Some((copy_text(path), n)),
        Err(_) => None,
    }
}

/// Reads the index. Lines that hold no entry are passed over; of several entries
/// for one path the greatest counts.
pub fn parse(bytes: &[u8]) -> (r: Generations)
    ensures
        r.wf(),
        r@ == indexed(bytes@),
{
    let mut g = Generations::new();
    let lines = split_bytes(bytes, 10u8);
    let ghost all = text::pieces(bytes@, 10u8);
    assert(all.take(0) =~= Seq::<Seq<u8>>::empty());
    for i in 0..lines.len()
        invariant
            all == text::pieces(bytes@, 10u8),
            lines@.len() == all.len(),
            forall|j: int| 0 <= j < lines@.len() ==> #[trigger] lines@[j]@ == all[j],
            g.wf(),
            g@ == reduced(all.take(i as int)),
    {
        assert(all.take(i + 1).drop_last() =~= all.take(i as int));
        assert(all.take(i + 1).last() == lines@[i as int]@);
        if let Some((path, n)) = parse_line(lines[i].as_slice()) {
            let keep = match g.get(path.as_str()) {
                Some(have) => have >= n,
                None => false,
            };
            if !keep {
                g.set(path, n);
            }
        }
    }
    assert(all.take(all.len() as int) =~= all);
    g
}

// ---------------------------------------------------------------------------
// Writing the index file
// ---------------------------------------------------------------------------

/// The comment that starts the index file.
pub open spec fn header() -> Seq<char> {
    "# ks generations — path generation pairs; written by ks under write lock"@
}

/// The line of one entry.
pub open spec fn entry_line(path: Seq<char>, generation: u64) -> Seq<char> {
    path + seq![' '] + text::decimal(generation as nat) + seq!['\n']
}

/// The lines of some entries.
pub open spec fn entry_lines(pairs: Pairs) -> Seq<char>
    decreases pairs.len(),
{
    if pairs.len() == 0 {
        Seq::empty()
    } else {
        entry_lines(pairs.drop_last()) + entry_line(pairs.last().0, pairs.last().1)
    }
}

/// The text of the index file: a comment, then one line per entry in order.
pub open spec fn index_text(pairs: Pairs) -> Seq<char> {
    header() + seq!['\n'] + entry_lines(pairs)
}

/// The bytes of the index file for a map.
pub open spec fn index_body(m: Map<Seq<char>, u64>) -> Seq<u8> {
    utf8::encode_utf8(index_text(listing(m)))
}

/// Writes the index: entries in order, each path once.
pub fn render(gens: &Generations) -> (r: Vec<u8>)
    requires
        gens.wf(),
    ensures
        r@ == index_body(gens@),
{
    proof {
        lemma_listing_is(gens.pairs(), gens@);
    }
    let mut body = copy_text(
        "# ks generations — path generation pairs; written by ks under write lock",
    );
    body.push('\n');
    let ghost pairs = gens.pairs();
    assert(pairs.take(0) =~= Seq::empty());
    assert(body@ =~= header() + seq!['\n'] + entry_lines(pairs.take(0)));
    let count: usize = gens.len();
    for i in 0..count
        invariant
            pairs == gens.pairs(),
            count == pairs.len(),
            body@ == header() + seq!['\n'] + entry_lines(pairs.take(i as int)),
    {
        let (path, n) = gens.at(i);
        body.append(path);
        body.push(' ');
        let digits = number_text(n);
        body.append(digits.as_str());
        body.push('\n');
        assert(pairs.take(i + 1).drop_last() =~= pairs.take(i as int));
        assert(pairs.take(i + 1).last() == pairs[i as int]);
        assert(body@ =~= header() + seq!['\n'] + entry_lines(pairs.take(i + 1)));
    }
    assert(pairs.take(pairs.len() as int) =~= pairs);
    let mut out: Vec<u8> = Vec::new();
    push_bytes(&mut out, body.as_str().as_bytes());
    out
}

/// Holds an envelope's generation against the index: one that is older than the
/// recorded one is refused. A greater one is a lagging index, and a path that is
/// not recorded is accepted.
pub open spec fn verified(logical: Seq<char>, generation: u64, m: Map<Seq<char>, u64>) -> Result<
    (),
    Failure,
> {
    if m.contains_key(logical) && generation < m[logical] {
        Err(
            Failure::Tampered {
                path: logical,
                reason: "envelope generation "@ + text::decimal(generation as nat)
                    + " is older than index generation "@ + text::decimal(m[logical] as nat),
            },
        )
    } else {
        Ok(())
    }
}

/// Checks an envelope's generation against the index.
pub fn verify(logical: &str, envelope_gen: u64, index: &Generations) -> (r: Result<(), Error>)
    requires
        index.wf(),
    ensures
        error::agrees(r, verified(logical@, envelope_gen, index@)),
{
    match index.get(logical) {
        Some(index_gen) => if envelope_gen < index_gen {
            let mut reason = copy_text("envelope generation ");
            let a = number_text(envelope_gen);
            reason.append(a.as_str());
            reason.append(" is older than index generation ");
            let b = number_text(index_gen);
            reason.append(b.as_str());
            Err(Error::Tampered { path: copy_text(logical), reason })
        } else {
            Ok(())
        },
        None => Ok(()),
    }
}

// ---------------------------------------------------------------------------
// Laws
// ---------------------------------------------------------------------------

/// The next generation at a path is above the recorded one, unless that is the
/// greatest there is, and never zero.
pub proof fn law_next_is_above(m: Map<Seq<char>, u64>, path: Seq<char>)
    ensures
        next_generation(m, path) >= 1,
        m.contains_key(path) ==> next_generation(m, path) >= m[path],
        m.contains_key(path) && m[path] < u64::MAX ==> next_generation(m, path) > m[path],
{
}

/// An older envelope under a newer index is refused; an equal or a newer one, or
/// one whose path is not recorded, is accepted.
pub proof fn law_older_is_refused(logical: Seq<char>, generation: u64, m: Map<Seq<char>, u64>)
    ensures
        verified(logical, generation, m) is Err <==> m.contains_key(logical) && generation
            < m[logical],
        verified(logical, generation, m) matches Err(e) ==> e is Tampered,
{
}

/// Two maps together, with the greater value where both have the key.
pub open spec fn merged(a: Map<Seq<char>, u64>, b: Map<Seq<char>, u64>) -> Map<Seq<char>, u64> {
    Map::new(
        |k: Seq<char>| a.contains_key(k) || b.contains_key(k),
        |k: Seq<char>|
            if a.contains_key(k) && b.contains_key(k) {
                if a[k] >= b[k] {
                    a[k]
                } else {
                    b[k]
                }
            } else if a.contains_key(k) {
                a[k]
            } else {
                b[k]
            },
    )
}

/// The lines of two indexes, one after the other, make the merged index.
proof fn lemma_reduced_concat(a: Seq<Seq<u8>>, b: Seq<Seq<u8>>)
    ensures
        reduced(a + b) == merged(reduced(a), reduced(b)),
    decreases b.len(),
{
    if b.len() == 0 {
        assert(a + b =~= a);
        assert(merged(reduced(a), reduced(b)) =~= reduced(a));
    } else {
        assert((a + b).drop_last() =~= a + b.drop_last());
        lemma_reduced_concat(a, b.drop_last());
        assert((a + b).last() == b.last());
        assert(reduced(a + b) =~= merged(reduced(a), reduced(b)));
    }
}

/// Joining two index files line by line, as a merge of two devices does, gives the
/// greatest generation of either for each path, in whichever order they stand.
pub proof fn law_index_merge(a: Seq<u8>, b: Seq<u8>)
    ensures
        indexed(a + seq![10u8] + b) == merged(indexed(a), indexed(b)),
        indexed(a + seq![10u8] + b) == indexed(b + seq![10u8] + a),
{
    text::lemma_pieces_concat(a, b, 10u8);
    text::lemma_pieces_concat(b, a, 10u8);
    lemma_reduced_concat(text::pieces(a, 10u8), text::pieces(b, 10u8));
    lemma_reduced_concat(text::pieces(b, 10u8), text::pieces(a, 10u8));
    assert(merged(indexed(a), indexed(b)) =~= merged(indexed(b), indexed(a)));
}

/// What lines that were reduced hold: for each path the greatest generation of those
/// that they have for it.
proof fn lemma_reduced_at(lines: Seq<Seq<u8>>)
    ensures
        forall|i: int|
            0 <= i < lines.len() ==> (line_entry(#[trigger] lines[i]) matches Some(e) ==> reduced(
                lines,
            ).contains_key(e.0) && reduced(lines)[e.0] >= e.1),
        forall|p: Seq<char>| #[trigger]
            reduced(lines).contains_key(p) ==> exists|i: int|
                0 <= i < lines.len() && line_entry(#[trigger] lines[i]) == Some(
                    (p, reduced(lines)[p]),
                ),
    decreases lines.len(),
{
    if lines.len() > 0 {
        let rest = lines.drop_last();
        let last = lines[lines.len() - 1];
        lemma_reduced_at(rest);
        assert(forall|i: int| 0 <= i < rest.len() ==> #[trigger] rest[i] == lines[i]);
        assert forall|p: Seq<char>| #[trigger] reduced(lines).contains_key(p) implies exists|
            i: int,
        |
            0 <= i < lines.len() && line_entry(#[trigger] lines[i]) == Some(
                (p, reduced(lines)[p]),
            ) by {
            if line_entry(last) == Some((p, reduced(lines)[p])) {
                assert(line_entry(lines[lines.len() - 1]) == Some((p, reduced(lines)[p])));
            } else {
                assert(reduced(rest).contains_key(p));
                let i = choose|i: int|
                    0 <= i < rest.len() && line_entry(#[trigger] rest[i]) == Some(
                        (p, reduced(rest)[p]),
                    );
                assert(line_entry(lines[i]) == Some((p, reduced(lines)[p])));
            }
        }
        assert forall|i: int| 0 <= i < lines.len() implies (line_entry(
            #[trigger] lines[i],
        ) matches Some(e) ==> reduced(lines).contains_key(e.0) && reduced(lines)[e.0] >= e.1) by {
            if i < rest.len() {
                assert(rest[i] == lines[i]);
            }
        }
    }
}

/// Lines that are those of two indexes, in whatever order and as often as they may
/// occur, give the greatest generation of either for each path.
pub proof fn law_index_union(
    lines: Seq<Seq<u8>>,
    ours: Seq<Seq<u8>>,
    theirs: Seq<Seq<u8>>,
)
    requires
        forall|l: Seq<u8>| #[trigger]
            lines.contains(l) <==> ours.contains(l) || theirs.contains(l),
    ensures
        reduced(lines) == merged(reduced(ours), reduced(theirs)),
{
    lemma_reduced_at(lines);
    lemma_reduced_at(ours);
    lemma_reduced_at(theirs);
    let all = reduced(lines);
    let a = reduced(ours);
    let b = reduced(theirs);
    let m = merged(a, b);
    assert forall|p: Seq<char>| #[trigger] a.contains_key(p) implies all.contains_key(p) && all[p]
        >= a[p] by {
        let i = choose|i: int|
            0 <= i < ours.len() && line_entry(#[trigger] ours[i]) == Some((p, a[p]));
        assert(ours.contains(ours[i]));
        let j = lines.index_of(ours[i]);
        assert(lines.contains(ours[i]));
        assert(line_entry(lines[j]) == Some((p, a[p])));
    }
    assert forall|p: Seq<char>| #[trigger] b.contains_key(p) implies all.contains_key(p) && all[p]
        >= b[p] by {
        let i = choose|i: int|
            0 <= i < theirs.len() && line_entry(#[trigger] theirs[i]) == Some((p, b[p]));
        assert(theirs.contains(theirs[i]));
        let j = lines.index_of(theirs[i]);
        assert(lines.contains(theirs[i]));
        assert(line_entry(lines[j]) == Some((p, b[p])));
    }
    assert forall|p: Seq<char>| #[trigger] all.contains_key(p) implies m.contains_key(p) && all[p]
        == m[p] by {
        let i = choose|i: int|
            0 <= i < lines.len() && line_entry(#[trigger] lines[i]) == Some((p, all[p]));
        assert(lines.contains(lines[i]));
        if ours.contains(lines[i]) {
            let j = ours.index_of(lines[i]);
            assert(line_entry(ours[j]) == Some((p, all[p])));
        } else {
            let j = theirs.index_of(lines[i]);
            assert(line_entry(theirs[j]) == Some((p, all[p])));
        }
    }
    assert(all =~= m);
}

/// A word behind white space, or at the start, is a token of its own.
proof fn lemma_tokens_word(s: Seq<u8>, w: Seq<u8>)
    requires
        s.len() == 0 || blank(s.last()),
        w.len() > 0,
        forall|i: int| 0 <= i < w.len() ==> !blank(#[trigger] w[i]),
    ensures
        tokens(s + w) == tokens(s).push(w),
    decreases w.len(),
{
    let t = s + w;
    assert(t.last() == w.last());
    if w.len() == 1 {
        assert(t.drop_last() =~= s);
        assert(w =~= seq![w.last()]);
        if t.len() >= 2 {
            assert(t[t.len() - 2] == s.last());
        }
    } else {
        assert(t.drop_last() =~= s + w.drop_last());
        lemma_tokens_word(s, w.drop_last());
        assert(t[t.len() - 2] == w[w.len() - 2]);
        assert(w.drop_last().push(w.last()) =~= w);
        assert(tokens(t) =~= tokens(s).push(w));
    }
}

/// The line of an entry holds that entry.
proof fn lemma_entry_line(p: Seq<char>, n: u64)
    requires
        path::valid_path(p),
    ensures
        ({
            let line = utf8::encode_utf8(p + seq![' '] + text::decimal(n as nat));
            line_entry(line) == Some((p, n)) && !line.contains(10u8)
        }),
{
    let digits = text::decimal_bytes(n as nat);
    let name = utf8::encode_utf8(p);
    let line = utf8::encode_utf8(p + seq![' '] + text::decimal(n as nat));
    path::lemma_valid_path_chars(p);
    text::lemma_decimal_value(n as nat);
    text::lemma_decimal_encoding(n as nat);
    text::lemma_encode_concat(p + seq![' '], text::decimal(n as nat));
    text::lemma_encode_concat(p, seq![' ']);
    assert(utf8::is_ascii_chars(p));
    assert(utf8::is_ascii_chars(seq![' ']));
    utf8::is_ascii_chars_encode_utf8(p);
    utf8::is_ascii_chars_encode_utf8(seq![' ']);
    assert(utf8::encode_utf8(seq![' ']) =~= seq![32u8]);
    assert(line =~= name + seq![32u8] + digits);
    assert forall|i: int| 0 <= i < name.len() implies !blank(#[trigger] name[i]) && name[i] != 35 by {
        assert(name[i] == p[i] as u8);
        assert(path::path_char(p[i]) || p[i] == '/');
    }
    assert forall|i: int| 0 <= i < digits.len() implies !blank(#[trigger] digits[i]) by {}
    assert(ascii_trim_start(line) == line) by {
        assert(line[0] == name[0]);
    }
    assert(ascii_trim_end(line) == line) by {
        assert(line.last() == digits.last());
    }
    let s = name + seq![32u8];
    lemma_tokens_word(Seq::empty(), name);
    assert(Seq::<u8>::empty() + name =~= name);
    assert(tokens(Seq::<u8>::empty()) =~= Seq::empty());
    assert(s.drop_last() =~= name);
    assert(s.last() == 32u8);
    lemma_tokens_word(s, digits);
    assert(tokens(line) =~= seq![name, digits]);
    utf8::encode_utf8_valid_utf8(p);
    utf8::encode_utf8_decode_utf8(p);
    assert(!line.contains(10u8)) by {
        if line.contains(10u8) {
            let i = line.index_of(10u8);
            assert(line[i] == 10u8);
            if i < name.len() {
                assert(line[i] == name[i]);
            } else if i > name.len() {
                assert(line[i] == digits[i - name.len() - 1]);
            }
        }
    }
}

/// The lines of entries hold those entries.
proof fn lemma_entry_lines(pairs: Pairs)
    requires
        text::ascending(paths_of(pairs)),
        forall|i: int| 0 <= i < pairs.len() ==> path::valid_path(#[trigger] pairs[i].0),
    ensures
        indexed(utf8::encode_utf8(entry_lines(pairs))) == map_of(pairs),
    decreases pairs.len(),
{
    if pairs.len() == 0 {
        let none = utf8::encode_utf8(entry_lines(pairs));
        assert(none =~= Seq::<u8>::empty());
        let lines = text::pieces(none, 10u8);
        assert(lines =~= seq![Seq::<u8>::empty()]);
        assert(line_entry(Seq::empty()) is None);
        lemma_reduced_none(Seq::empty());
        assert(map_of(pairs) =~= Map::empty());
    } else {
        let rest = pairs.drop_last();
        let (p, n) = pairs.last();
        let keys = paths_of(pairs);
        assert(paths_of(rest) =~= keys.drop_last());
        assert(text::ascending(paths_of(rest)));
        assert(path::valid_path(pairs[pairs.len() - 1].0));
        lemma_entry_lines(rest);
        lemma_entry_line(p, n);
        let line = utf8::encode_utf8(p + seq![' '] + text::decimal(n as nat));
        let before = utf8::encode_utf8(entry_lines(rest));
        let whole = utf8::encode_utf8(entry_lines(pairs));
        text::lemma_encode_concat(entry_lines(rest), entry_line(p, n));
        text::lemma_encode_concat(p + seq![' '] + text::decimal(n as nat), seq!['\n']);
        assert(utf8::is_ascii_chars(seq!['\n']));
        utf8::is_ascii_chars_encode_utf8(seq!['\n']);
        assert(utf8::encode_utf8(seq!['\n']) =~= seq![10u8]);
        assert(whole =~= before + (line + seq![10u8]));
        lemma_lines_end(rest);
        // `before` is empty or ends in a line break, so the new line stands alone.
        text::lemma_pieces_single(line, 10u8);
        text::lemma_pieces_concat(line, Seq::empty(), 10u8);
        let tail = line + seq![10u8];
        assert(line + seq![10u8] + Seq::<u8>::empty() =~= tail);
        let blank_line = text::pieces(Seq::<u8>::empty(), 10u8);
        assert(text::pieces(tail, 10u8) =~= seq![line, Seq::<u8>::empty()]);
        lemma_reduced_two(line);
        if before.len() == 0 {
            assert(whole =~= tail);
            assert(rest.len() == 0) by {
                if rest.len() > 0 {
                    lemma_lines_end(rest);
                }
            }
        } else {
            let head = before.drop_last();
            assert(before =~= head + seq![10u8]);
            assert(whole =~= head + seq![10u8] + tail);
            text::lemma_pieces_concat(head, tail, 10u8);
            text::lemma_pieces_concat(head, Seq::empty(), 10u8);
            assert(head + seq![10u8] + Seq::<u8>::empty() =~= before);
            lemma_reduced_concat(text::pieces(head, 10u8), text::pieces(tail, 10u8));
            lemma_reduced_concat(text::pieces(head, 10u8), blank_line);
            assert(blank_line =~= seq![Seq::<u8>::empty()]);
            assert(line_entry(Seq::empty()) is None);
            lemma_reduced_none(Seq::empty());
            assert(merged(reduced(text::pieces(head, 10u8)), Map::empty()) =~= reduced(
                text::pieces(head, 10u8),
            ));
        }
        text::lemma_ascending_distinct(keys);
        assert(!keys.drop_last().contains(p)) by {
            if keys.drop_last().contains(p) {
                let i = keys.drop_last().index_of(p);
                assert(keys[i] == p && keys[keys.len() - 1] == p);
            }
        }
        text::lemma_ascending_distinct(paths_of(rest));
        assoc::lemma_assoc_insert(
            paths_of(rest),
            counts_of(rest),
            rest.len() as int,
            p,
            n,
        );
        assert(paths_of(rest).insert(rest.len() as int, p) =~= keys);
        assert(counts_of(rest).insert(rest.len() as int, n) =~= counts_of(pairs));
        assert(!map_of(rest).contains_key(p));
        assert(indexed(whole) =~= map_of(rest).insert(p, n));
    }
}

/// A line without an entry adds nothing.
proof fn lemma_reduced_none(line: Seq<u8>)
    requires
        line_entry(line) is None,
    ensures
        reduced(seq![line]) == Map::<Seq<char>, u64>::empty(),
{
    assert(seq![line].drop_last() =~= Seq::empty());
    assert(reduced(Seq::empty()) == Map::<Seq<char>, u64>::empty());
}

/// A line of an entry and the blank after it hold that entry.
proof fn lemma_reduced_two(line: Seq<u8>)
    ensures
        match line_entry(line) {
            Some((p, n)) => reduced(seq![line, Seq::<u8>::empty()]) == Map::<
                Seq<char>,
                u64,
            >::empty().insert(p, n),
            None => reduced(seq![line, Seq::<u8>::empty()]) == Map::<Seq<char>, u64>::empty(),
        },
{
    let two = seq![line, Seq::<u8>::empty()];
    assert(two.drop_last() =~= seq![line]);
    assert(seq![line].drop_last() =~= Seq::empty());
    assert(line_entry(Seq::empty()) is None);
    assert(reduced(Seq::empty()) == Map::<Seq<char>, u64>::empty());
    assert(reduced(seq![line]) == match line_entry(line) {
        Some((p, n)) => Map::<Seq<char>, u64>::empty().insert(p, n),
        None => Map::<Seq<char>, u64>::empty(),
    });
}

/// The lines of some entries end in a line break.
proof fn lemma_lines_end(pairs: Pairs)
    ensures
        pairs.len() > 0 ==> utf8::encode_utf8(entry_lines(pairs)).len() > 0 && utf8::encode_utf8(
            entry_lines(pairs),
        ).last() == 10u8,
        pairs.len() == 0 ==> utf8::encode_utf8(entry_lines(pairs)).len() == 0,
{
    if pairs.len() > 0 {
        let (p, n) = pairs.last();
        let body = entry_lines(pairs.drop_last()) + (p + seq![' '] + text::decimal(n as nat));
        assert(entry_lines(pairs) =~= body + seq!['\n']);
        text::lemma_encode_concat(body, seq!['\n']);
        assert(utf8::is_ascii_chars(seq!['\n']));
        utf8::is_ascii_chars_encode_utf8(seq!['\n']);
        assert(utf8::encode_utf8(seq!['\n']) =~= seq![10u8]);
    }
}

/// The comment at the start of the file holds no entry.
proof fn lemma_header()
    ensures
        line_entry(utf8::encode_utf8(header())) is None,
        !utf8::encode_utf8(header()).contains(10u8),
{
    reveal_strlit("# ks generations — path generation pairs; written by ks under write lock");
    let h = header();
    assert(!h.contains('\n'));
    text::lemma_encode_newline(h);
    assert(h =~= seq!['#'] + h.skip(1));
    text::lemma_encode_concat(seq!['#'], h.skip(1));
    assert(utf8::is_ascii_chars(seq!['#']));
    utf8::is_ascii_chars_encode_utf8(seq!['#']);
    assert(utf8::encode_utf8(seq!['#']) =~= seq![35u8]);
    let b = utf8::encode_utf8(h);
    assert(b[0] == 35u8);
    assert(ascii_trim_start(b) == b);
    lemma_trim_end_keeps_first(b);
}

proof fn lemma_trim_end_keeps_first(b: Seq<u8>)
    requires
        b.len() > 0,
        !blank(b[0]),
    ensures
        ascii_trim_end(b).len() > 0,
        ascii_trim_end(b)[0] == b[0],
    decreases b.len(),
{
    if blank(b.last()) {
        assert(b.len() > 1);
        lemma_trim_end_keeps_first(b.drop_last());
    }
}

/// An index that is written and read again is the same, as long as its paths are
/// valid.
pub proof fn law_index_roundtrip(m: Map<Seq<char>, u64>)
    requires
        m.dom().finite(),
        forall|p: Seq<char>| #[trigger] m.contains_key(p) ==> path::valid_path(p),
    ensures
        indexed(index_body(m)) == m,
{
    lemma_listing_exists(m);
    let pairs = listing(m);
    text::lemma_ascending_distinct(paths_of(pairs));
    assert forall|i: int| 0 <= i < pairs.len() implies path::valid_path(#[trigger] pairs[i].0) by {
        assoc::lemma_assoc_at(paths_of(pairs), counts_of(pairs), i);
        assert(m.contains_key(paths_of(pairs)[i]));
    }
    lemma_entry_lines(pairs);
    lemma_header();
    let h = utf8::encode_utf8(header());
    let body = utf8::encode_utf8(entry_lines(pairs));
    text::lemma_encode_concat(header() + seq!['\n'], entry_lines(pairs));
    text::lemma_encode_concat(header(), seq!['\n']);
    assert(utf8::is_ascii_chars(seq!['\n']));
    utf8::is_ascii_chars_encode_utf8(seq!['\n']);
    assert(utf8::encode_utf8(seq!['\n']) =~= seq![10u8]);
    assert(index_body(m) =~= h + seq![10u8] + body);
    text::lemma_pieces_concat(h, body, 10u8);
    text::lemma_pieces_single(h, 10u8);
    lemma_reduced_concat(seq![h], text::pieces(body, 10u8));
    lemma_reduced_none(h);
    assert(merged(Map::empty(), m) =~= m);
}

/// Every finite map has an ordered list of entries.
pub proof fn lemma_listing_exists(m: Map<Seq<char>, u64>)
    requires
        m.dom().finite(),
    ensures
        lists(listing(m), m),
    decreases m.dom().len(),
{
    if m.dom().len() == 0 {
        let none: Pairs = Seq::empty();
        assert(m =~= Map::empty());
        assert(map_of(none) =~= m);
        assert(lists(none, m));
    } else {
        let k = m.dom().choose();
        assert(m.contains_key(k));
        let rest = m.remove(k);
        lemma_listing_exists(rest);
        let pairs = listing(rest);
        let keys = paths_of(pairs);
        text::lemma_ascending_distinct(keys);
        let at = text::lemma_insertion_point(keys, k);
        assert(!keys.contains(k)) by {
            if keys.contains(k) {
                assert(map_of(pairs).contains_key(k));
            }
        }
        let more = pairs.insert(at, (k, m[k]));
        assoc::lemma_assoc_insert(keys, counts_of(pairs), at, k, m[k]);
        assert(paths_of(more) =~= keys.insert(at, k));
        assert(counts_of(more) =~= counts_of(pairs).insert(at, m[k]));
        assert(rest.insert(k, m[k]) =~= m);
        let now = paths_of(more);
        assert forall|i: int, j: int| 0 <= i < j < now.len() implies text::text_before(
            #[trigger] now[i],
            #[trigger] now[j],
        ) by {
            let a = if i < at { i } else { i - 1 };
            let b = if j < at { j } else { j - 1 };
            if i != at {
                assert(now[i] == keys[a]);
            }
            if j != at {
                assert(now[j] == keys[b]);
                if keys[b] == k {
                    assert(keys.contains(keys[b]));
                }
            }
        }
        assert(lists(more, m));
    }
}

/// The index that a file holds has a path exactly if some line has an entry for it, and
/// then the greatest generation of those.
pub proof fn law_index_takes_the_greatest(bytes: Seq<u8>)
    ensures
        ({
            let lines = text::pieces(bytes, 10u8);
            let m = indexed(bytes);
            &&& forall|i: int|
                0 <= i < lines.len() ==> (line_entry(#[trigger] lines[i]) matches Some(e)
                    ==> m.contains_key(e.0) && m[e.0] >= e.1)
            &&& forall|p: Seq<char>| #[trigger]
                m.contains_key(p) ==> exists|i: int|
                    0 <= i < lines.len() && line_entry(#[trigger] lines[i]) == Some((p, m[p]))
        }),
{
    lemma_reduced_at(text::pieces(bytes, 10u8));
}

/// A line with an acceptable path, white space and a generation holds that entry, with
/// white space around it as well. A line that begins with a hash, white space aside,
/// holds none, and neither does one of white space.
pub proof fn law_index_line(
    before: Seq<u8>,
    p: Seq<char>,
    gap: u8,
    n: u64,
    after: Seq<u8>,
    more: Seq<u8>,
)
    requires
        path::valid_path(p),
        blank(gap),
        forall|i: int| 0 <= i < before.len() ==> blank(#[trigger] before[i]),
        forall|i: int| 0 <= i < after.len() ==> blank(#[trigger] after[i]),
    ensures
        line_entry(
            before + (utf8::encode_utf8(p) + seq![gap] + text::decimal_bytes(n as nat)) + after,
        ) == Some((p, n)),
        line_entry(before + (seq![35u8] + more)) is None,
        line_entry(before) is None,
{
    let digits = text::decimal_bytes(n as nat);
    let name = utf8::encode_utf8(p);
    let line = name + seq![gap] + digits;
    path::lemma_valid_path_chars(p);
    text::lemma_decimal_value(n as nat);
    assert(utf8::is_ascii_chars(p));
    utf8::is_ascii_chars_encode_utf8(p);
    assert forall|i: int| 0 <= i < name.len() implies !blank(#[trigger] name[i]) && name[i] != 35 by {
        assert(name[i] == p[i] as u8);
        assert(path::path_char(p[i]) || p[i] == '/');
    }
    assert forall|i: int| 0 <= i < digits.len() implies !blank(#[trigger] digits[i]) by {}
    assert(line[0] == name[0]);
    assert(line.last() == digits.last());
    lemma_ascii_trimmed(before, line, after);
    let s = name + seq![gap];
    lemma_tokens_word(Seq::empty(), name);
    assert(Seq::<u8>::empty() + name =~= name);
    assert(tokens(Seq::<u8>::empty()) =~= Seq::empty());
    assert(s.drop_last() =~= name);
    assert(s.last() == gap);
    lemma_tokens_word(s, digits);
    assert(tokens(line) =~= seq![name, digits]);
    utf8::encode_utf8_valid_utf8(p);
    utf8::encode_utf8_decode_utf8(p);
    let comment = seq![35u8] + more;
    lemma_ascii_trim_start(before, comment);
    lemma_trim_end_keeps_first(comment);
    lemma_ascii_trim_start(before, Seq::empty());
    assert(before + Seq::<u8>::empty() =~= before);
}

proof fn lemma_ascii_trim_start(before: Seq<u8>, s: Seq<u8>)
    requires
        forall|i: int| 0 <= i < before.len() ==> blank(#[trigger] before[i]),
        s.len() > 0 ==> !blank(s[0]),
    ensures
        ascii_trim_start(before + s) == s,
    decreases before.len(),
{
    if before.len() > 0 {
        let rest = before.drop_first();
        assert((before + s).drop_first() =~= rest + s);
        assert((before + s)[0] == before[0]);
        assert forall|i: int| 0 <= i < rest.len() implies blank(#[trigger] rest[i]) by {
            assert(rest[i] == before[i + 1]);
        }
        lemma_ascii_trim_start(rest, s);
    } else {
        assert(before + s =~= s);
    }
}

proof fn lemma_ascii_trim_end(s: Seq<u8>, after: Seq<u8>)
    requires
        forall|i: int| 0 <= i < after.len() ==> blank(#[trigger] after[i]),
        s.len() > 0 ==> !blank(s.last()),
    ensures
        ascii_trim_end(s + after) == s,
    decreases after.len(),
{
    if after.len() > 0 {
        let rest = after.drop_last();
        assert((s + after).drop_last() =~= s + rest);
        assert((s + after).last() == after[after.len() - 1]);
        assert forall|i: int| 0 <= i < rest.len() implies blank(#[trigger] rest[i]) by {
            assert(rest[i] == after[i]);
        }
        lemma_ascii_trim_end(s, rest);
    } else {
        assert(s + after =~= s);
    }
}

proof fn lemma_ascii_trimmed(before: Seq<u8>, s: Seq<u8>, after: Seq<u8>)
    requires
        forall|i: int| 0 <= i < before.len() ==> blank(#[trigger] before[i]),
        forall|i: int| 0 <= i < after.len() ==> blank(#[trigger] after[i]),
        s.len() > 0,
        !blank(s[0]),
        !blank(s.last()),
    ensures
        ascii_trimmed(before + s + after) == s,
{
    assert(before + s + after =~= before + (s + after));
    assert((s + after)[0] == s[0]);
    lemma_ascii_trim_start(before, s + after);
    lemma_ascii_trim_end(s, after);
}

/// The next generation is one for a path without a record, and else one more than the
/// recorded one, as long as there is a greater one.
pub proof fn law_next_is_one_more(m: Map<Seq<char>, u64>, path: Seq<char>)
    ensures
        !m.contains_key(path) ==> next_generation(m, path) == 1,
        m.contains_key(path) && m[path] < u64::MAX ==> next_generation(m, path) == m[path] + 1,
        m.contains_key(path) && m[path] == u64::MAX ==> next_generation(m, path) == u64::MAX,
{
}

/// The text of an index is a comment and then a line for each entry, of the path, a blank
/// and the generation in decimal, in ascending order of the paths.
pub proof fn law_index_text(m: Map<Seq<char>, u64>, pairs: Pairs, p: Seq<char>, n: u64)
    requires
        m.dom().finite(),
    ensures
        index_body(m) == utf8::encode_utf8(index_text(listing(m))),
        text::ascending(paths_of(listing(m))),
        forall|i: int|
            0 <= i < listing(m).len() ==> m.contains_key((#[trigger] listing(m)[i]).0)
                && m[listing(m)[i].0] == listing(m)[i].1,
        listing(m).len() == m.dom().len(),
        index_text(Seq::empty()).len() > 0 && index_text(Seq::empty())[0] == '#' && index_text(
            Seq::empty(),
        ).last() == '\n',
        index_text(pairs.push((p, n))) == index_text(pairs) + p + seq![' '] + text::decimal(
            n as nat,
        ) + seq!['\n'],
{
    lemma_listing_exists(m);
    let all = listing(m);
    text::lemma_ascending_distinct(paths_of(all));
    assert forall|i: int| 0 <= i < all.len() implies m.contains_key((#[trigger] all[i]).0)
        && m[all[i].0] == all[i].1 by {
        assoc::lemma_assoc_at(paths_of(all), counts_of(all), i);
        assert(paths_of(all)[i] == all[i].0);
    }
    lemma_listed_count(all, m);
    reveal_strlit("# ks generations — path generation pairs; written by ks under write lock");
    assert(pairs.push((p, n)).drop_last() =~= pairs);
    assert(index_text(pairs.push((p, n))) =~= index_text(pairs) + p + seq![' '] + text::decimal(
        n as nat,
    ) + seq!['\n']);
}

/// Bytes without white space, of which there is at least one, are one word; what is parted
/// by white space has the words of the one part and then those of the other.
pub proof fn law_words_of_a_line(w: Seq<u8>, a: Seq<u8>, gap: u8, b: Seq<u8>)
    requires
        w.len() > 0,
        forall|i: int| 0 <= i < w.len() ==> !blank(#[trigger] w[i]),
        blank(gap),
    ensures
        tokens(w) == seq![w],
        tokens(a + seq![gap] + b) == tokens(a) + tokens(b),
{
    lemma_tokens_word(Seq::empty(), w);
    assert(Seq::<u8>::empty() + w =~= w);
    assert(tokens(Seq::<u8>::empty()) =~= Seq::empty());
    assert(tokens(w) =~= seq![w]);
    lemma_tokens_concat(a, gap, b);
}

proof fn lemma_tokens_concat(a: Seq<u8>, gap: u8, b: Seq<u8>)
    requires
        blank(gap),
    ensures
        tokens(a + seq![gap] + b) == tokens(a) + tokens(b),
        b.len() > 0 && !blank(b.last()) ==> tokens(b).len() > 0,
    decreases b.len(),
{
    let whole = a + seq![gap] + b;
    if b.len() == 0 {
        assert(whole =~= a.push(gap));
        assert(whole.drop_last() =~= a);
        assert(tokens(a) + tokens(b) =~= tokens(a));
    } else {
        let rest = b.drop_last();
        lemma_tokens_concat(a, gap, rest);
        assert(whole.drop_last() =~= a + seq![gap] + rest);
        assert(whole.last() == b.last());
        if blank(b.last()) {
        } else if b.len() >= 2 && !blank(b[b.len() - 2]) {
            assert(whole[whole.len() - 2] == b[b.len() - 2]);
            assert(rest.last() == b[b.len() - 2]);
            assert(tokens(rest).len() > 0);
            assert(tokens(whole) =~= tokens(a) + tokens(b));
        } else {
            if b.len() >= 2 {
                assert(whole[whole.len() - 2] == b[b.len() - 2]);
            } else {
                assert(whole[whole.len() - 2] == gap);
            }
            assert(tokens(whole) =~= tokens(a) + tokens(b));
        }
    }
}

/// A line holds an entry only if it has two words, an acceptable path and the digits of
/// the generation, and does not begin with a hash.
pub proof fn law_entry_is_two_words(line: Seq<u8>)
    ensures
        line_entry(line) matches Some(e) ==> {
            let words = tokens(ascii_trimmed(line));
            &&& words.len() == 2
            &&& ascii_trimmed(line)[0] != 35
            &&& path::valid_path(e.0)
            &&& words[0] == utf8::encode_utf8(e.0)
            &&& words[1].len() > 0 && text::all_digits(words[1])
            &&& text::digits_value(words[1]) == e.1
        },
{
    if let Some(e) = line_entry(line) {
        let words = tokens(ascii_trimmed(line));
        utf8::decode_utf8_encode_utf8(words[0]);
    }
}

} // verus!
