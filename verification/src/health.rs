//! The health of a store: how its envelopes and its generation index agree, and
//! how the index is rebuilt.

use vstd::prelude::*;

use crate::assoc;
use crate::crypto::Identity;
use crate::error::Error;
use crate::generations;
use crate::generations::Generations;
use crate::listing;
use crate::listing::walk;
use crate::secrets;
use crate::secrets::{load_index, save_index, unseal};
use crate::text;
use crate::text::{copy_text, list_has};
use crate::tree;
use crate::tree::{Effect, Files, Tree};

verus! {

/// The paths of the store's secrets, in order.
pub open spec fn live(files: Files) -> Seq<Seq<char>> {
    listing::walked(files, secrets::top())
}

/// Whether the envelope at a path opens there with an identity.
pub open spec fn readable(files: Files, p: Seq<char>, key: Seq<u8>) -> bool {
    secrets::unsealed(files, p, key) is Ok
}

/// The generation inside the envelope at a path.
pub open spec fn sealed_generation(files: Files, p: Seq<char>, key: Seq<u8>) -> u64 {
    secrets::unsealed(files, p, key)->Ok_0.generation
}

/// Lists the store's secrets.
pub fn live_paths(t: &Tree) -> (r: Vec<String>)
    requires
        t.wf(),
    ensures
        text::views(r@) == live(t.files()),
        listing::is_walk(text::views(r@), t.files(), secrets::top()),
{
    proof {
        reveal_strlit("");
        assert(""@ =~= secrets::top());
    }
    walk(t, "")
}

/// The generation inside the envelope at a path, if it opens.
fn envelope_generation(t: &Tree, p: &str, identity: &Identity) -> (r: Option<u64>)
    requires
        t.wf(),
    ensures
        r == (if readable(t.files(), p@, identity@) {
            Some(sealed_generation(t.files(), p@, identity@))
        } else {
            None
        }),
{
    match unseal(t, p, identity) {
        Ok(u) => Some(u.generation),
        Err(_) => None,
    }
}

// ---------------------------------------------------------------------------
// Rebuilding the index
// ---------------------------------------------------------------------------

/// What a rebuild of the index did.
#[derive(Debug, PartialEq, Eq)]
pub struct RepairReport {
    /// How many entries the index has now, those of deleted secrets included.
    pub entries: usize,
    /// The secrets that could not be opened, and kept their entry if they had one.
    pub skipped: Vec<String>,
}

/// The rebuilt index: the generation of each envelope that opens; for all other
/// paths, what the index said.
pub open spec fn repaired(files: Files, key: Seq<u8>) -> Map<Seq<char>, u64> {
    let prior = secrets::index_in(files);
    Map::new(
        |p: Seq<char>|
            prior.contains_key(p) || (live(files).contains(p) && readable(files, p, key)),
        |p: Seq<char>|
            if live(files).contains(p) && readable(files, p, key) {
                sealed_generation(files, p, key)
            } else {
                prior[p]
            },
    )
}

/// The secrets that do not open.
pub open spec fn unreadable(files: Files, paths: Seq<Seq<char>>, key: Seq<u8>) -> Seq<Seq<char>> {
    paths.filter(|p: Seq<char>| !readable(files, p, key))
}

/// The index after the first of the live paths were looked at.
spec fn partly(files: Files, key: Seq<u8>, done: Seq<Seq<char>>) -> Map<Seq<char>, u64> {
    repaired(files, key).restrict(Set::new(|p: Seq<char>| done.contains(p)))
}

/// Keeps what the index said of a path.
fn preserve_prior_floor(prior: &Generations, map: &mut Generations, p: &str)
    requires
        prior.wf(),
        old(map).wf(),
    ensures
        final(map).wf(),
        final(map)@ == (if prior@.contains_key(p@) {
            old(map)@.insert(p@, prior@[p@])
        } else {
            old(map)@
        }),
{
    if let Some(n) = prior.get(p) {
        map.set(copy_text(p), n);
    }
}

/// Filtering one more element.
pub proof fn lemma_filter_push(
    s: Seq<Seq<char>>,
    x: Seq<char>,
    pred: spec_fn(Seq<char>) -> bool,
)
    ensures
        s.push(x).filter(pred) == (if pred(x) {
            s.filter(pred).push(x)
        } else {
            s.filter(pred)
        }),
{
    reveal(Seq::filter);
    assert(s.push(x).drop_last() =~= s);
    assert(s.push(x).last() == x);
}

/// Filtering nothing.
pub proof fn lemma_filter_empty(pred: spec_fn(Seq<char>) -> bool)
    ensures
        Seq::<Seq<char>>::empty().filter(pred) == Seq::<Seq<char>>::empty(),
{
    reveal(Seq::filter);
}

/// The changes that a rebuild makes: the index is written, unless it cannot be read.
pub open spec fn repair_effects(files: Files, key: Seq<u8>) -> Seq<Effect> {
    match secrets::index_at(files) {
        Ok(_) => seq![secrets::index_write(repaired(files, key))],
        Err(_) => Seq::empty(),
    }
}

/// What a rebuild of the index reports: how many entries there are, and which secrets
/// could not be opened.
pub open spec fn reported(files: Files, key: Seq<u8>, r: Result<RepairReport, Error>) -> bool {
    match secrets::index_at(files) {
        Ok(_) => r matches Ok(report) && report.entries == repaired(files, key).dom().len()
            && text::views(report.skipped@) == unreadable(files, live(files), key),
        Err(f) => r matches Err(e) && e@ == f,
    }
}

/// Rebuilds the generation index from the envelopes.
pub fn repair_generations(t: &mut Tree, identity: &Identity) -> (r: Result<RepairReport, Error>)
    requires
        old(t).wf(),
    ensures
        tree::advanced(*old(t), *final(t), repair_effects(old(t).files(), identity@)),
        reported(old(t).files(), identity@, r),
{
    let ghost t0 = *t;
    let ghost files = t.files();
    let ghost key = identity@;
    let ghost target = repaired(files, key);
    let ghost pred = |p: Seq<char>| !readable(files, p, key);
    let prior = match load_index(t) {
        Ok(g) => g,
        Err(e) => {
            proof {
                tree::lemma_advanced_none(t0);
            }
            return Err(e);
        },
    };
    let paths = live_paths(t);
    let ghost all = text::views(paths@);
    let mut map = Generations::new();
    let mut skipped: Vec<String> = Vec::new();
    proof {
        lemma_filter_empty(pred);
        assert(all.take(0) =~= Seq::empty());
        assert(text::views(skipped@) =~= Seq::empty());
        assert(map@ =~= partly(files, key, all.take(0)));
    }
    for i in 0..paths.len()
        invariant
            t.wf(),
            *t == t0,
            files == t.files(),
            key == identity@,
            target == repaired(files, key),
            pred == (|p: Seq<char>| !readable(files, p, key)),
            prior.wf(),
            secrets::index_at(files) is Ok,
            prior@ == secrets::index_in(files),
            all == text::views(paths@),
            all == live(files),
            map.wf(),
            map@ == partly(files, key, all.take(i as int)),
            text::views(skipped@) == all.take(i as int).filter(pred),
    {
        let p = paths[i].as_str();
        let ghost done = all.take(i as int);
        let ghost skipped_before = text::views(skipped@);
        assert(all.take(i + 1) =~= done.push(p@));
        assert(all[i as int] == p@);
        assert(all.contains(p@));
        proof {
            lemma_filter_push(done, p@, pred);
            assert forall|q: Seq<char>| #[trigger] done.push(p@).contains(q) <==> q == p@
                || done.contains(q) by {
                if done.contains(q) {
                    let j = done.index_of(q);
                    assert(done.push(p@)[j] == q);
                }
                if q == p@ {
                    assert(done.push(p@)[done.len() as int] == q);
                }
                if done.push(p@).contains(q) {
                    let j = done.push(p@).index_of(q);
                    assert(done.push(p@)[j] == q);
                    if j < done.len() {
                        assert(done[j] == q);
                    }
                }
            }
        }
        match envelope_generation(t, p, identity) {
            Some(n) => {
                map.set(copy_text(p), n);
                assert(map@ =~= partly(files, key, all.take(i + 1)));
            },
            None => {
                skipped.push(copy_text(p));
                assert(text::views(skipped@) =~= skipped_before.push(p@));
                preserve_prior_floor(&prior, &mut map, p);
                assert(map@ =~= partly(files, key, all.take(i + 1)));
            },
        }
    }
    assert(all.take(all.len() as int) =~= all);
    let count: usize = prior.len();
    let ghost rows = prior.pairs();
    let ghost keys = generations::paths_of(rows);
    for i in 0..count
        invariant
            t.wf(),
            *t == t0,
            files == t.files(),
            target == repaired(files, key),
            prior.wf(),
            prior@ == secrets::index_in(files),
            all == text::views(paths@),
            all == live(files),
            rows == prior.pairs(),
            keys == generations::paths_of(rows),
            count == rows.len(),
            map.wf(),
            forall|p: Seq<char>| #[trigger]
                map@.contains_key(p) ==> target.contains_key(p) && map@[p] == target[p],
            forall|p: Seq<char>|
                target.contains_key(p) && all.contains(p) ==> #[trigger] map@.contains_key(p),
            forall|j: int|
                0 <= j < i && !all.contains(keys[j]) ==> map@.contains_key(#[trigger] keys[j]),
    {
        let (p, n) = prior.at(i);
        proof {
            text::lemma_ascending_distinct(keys);
            assoc::lemma_assoc_at(keys, generations::counts_of(rows), i as int);
            assert(keys[i as int] == p@);
        }
        if !list_has(paths.as_slice(), p) {
            map.set(copy_text(p), n);
        }
    }
    proof {
        assert forall|p: Seq<char>| target.contains_key(p) implies #[trigger] map@.contains_key(
            p,
        ) by {
            if !all.contains(p) {
                assert(prior@.contains_key(p));
                assert(keys.contains(p));
                let j = keys.index_of(p);
                assert(keys[j] == p);
            }
        }
        assert(map@ =~= target);
        generations::lemma_listed_count(map.pairs(), map@);
    }
    let entries: usize = map.len();
    save_index(t, &map);
    proof {
        let e = secrets::index_write(target);
        tree::lemma_advanced_none(t0);
        tree::lemma_advanced_push(t0, t0, *t, Seq::empty(), e);
        assert(Seq::empty().push(e) =~= seq![e]);
    }
    Ok(RepairReport { entries, skipped })
}

// ---------------------------------------------------------------------------
// The census
// ---------------------------------------------------------------------------

/// How envelopes and index agree.
#[derive(Debug, PartialEq, Eq)]
pub struct GenerationCensus {
    /// How many envelopes open.
    pub sealed_count: usize,
    /// Secrets whose envelope is newer than the index says.
    pub lag_paths: Vec<String>,
    /// Secrets whose envelope is older than the index says; they cannot be read.
    pub stale_paths: Vec<String>,
    /// Secrets that the index does not know.
    pub missing_index: Vec<String>,
    /// How many entries of the index have no secret.
    pub tombstone_count: usize,
    /// Whether every envelope opens and has the generation that the index says.
    pub fully_protected: bool,
}

/// An envelope that opens, and that the index does not know.
pub open spec fn is_missing(files: Files, p: Seq<char>, key: Seq<u8>) -> bool {
    readable(files, p, key) && !secrets::index_in(files).contains_key(p)
}

/// An envelope that opens, and is older than the index says.
pub open spec fn is_stale(files: Files, p: Seq<char>, key: Seq<u8>) -> bool {
    readable(files, p, key) && secrets::index_in(files).contains_key(p) && sealed_generation(
        files,
        p,
        key,
    ) < secrets::index_in(files)[p]
}

/// An envelope that opens, and is newer than the index says.
pub open spec fn is_lagging(files: Files, p: Seq<char>, key: Seq<u8>) -> bool {
    readable(files, p, key) && secrets::index_in(files).contains_key(p) && sealed_generation(
        files,
        p,
        key,
    ) > secrets::index_in(files)[p]
}

/// An envelope that opens, and is as new as the index says.
pub open spec fn is_protected(files: Files, p: Seq<char>, key: Seq<u8>) -> bool {
    readable(files, p, key) && secrets::index_in(files).contains_key(p) && sealed_generation(
        files,
        p,
        key,
    ) == secrets::index_in(files)[p]
}

/// What a census of some paths says.
pub open spec fn counted(
    files: Files,
    paths: Seq<Seq<char>>,
    key: Seq<u8>,
    census: GenerationCensus,
) -> bool {
    &&& census.sealed_count == paths.filter(|p: Seq<char>| readable(files, p, key)).len()
    &&& text::views(census.lag_paths@) == paths.filter(|p: Seq<char>| is_lagging(files, p, key))
    &&& text::views(census.stale_paths@) == paths.filter(|p: Seq<char>| is_stale(files, p, key))
    &&& text::views(census.missing_index@) == paths.filter(
        |p: Seq<char>| is_missing(files, p, key),
    )
}

/// The entries of the index without a secret.
pub open spec fn tombstones(files: Files) -> Set<Seq<char>> {
    Set::new(|p: Seq<char>| secrets::index_in(files).contains_key(p) && !live(files).contains(p))
}

/// Whether the store is fully protected.
pub open spec fn all_protected(files: Files, key: Seq<u8>) -> bool {
    forall|p: Seq<char>| #[trigger] live(files).contains(p) ==> is_protected(files, p, key)
}

impl GenerationCensus {
    fn new() -> (r: Self)
        ensures
            r.sealed_count == 0,
            r.lag_paths@.len() == 0,
            r.stale_paths@.len() == 0,
            r.missing_index@.len() == 0,
            r.tombstone_count == 0,
            !r.fully_protected,
    {
        GenerationCensus {
            sealed_count: 0,
            lag_paths: Vec::new(),
            stale_paths: Vec::new(),
            missing_index: Vec::new(),
            tombstone_count: 0,
            fully_protected: false,
        }
    }
}

proof fn lemma_views_push(v: Seq<String>, s: String)
    ensures
        text::views(v.push(s)) == text::views(v).push(s@),
{
    assert(text::views(v.push(s)) =~= text::views(v).push(s@));
}

/// Counts one secret. Says whether it is protected.
fn census_one_path(
    t: &Tree,
    p: &str,
    identity: &Identity,
    gens: &Generations,
    census: &mut GenerationCensus,
    Ghost(done): Ghost<Seq<Seq<char>>>,
) -> (r: bool)
    requires
        t.wf(),
        gens.wf(),
        gens@ == secrets::index_in(t.files()),
        counted(t.files(), done, identity@, *old(census)),
        done.len() < usize::MAX,
    ensures
        counted(t.files(), done.push(p@), identity@, *final(census)),
        r == is_protected(t.files(), p@, identity@),
        final(census).tombstone_count == old(census).tombstone_count,
{
    let ghost files = t.files();
    let ghost key = identity@;
    proof {
        lemma_filter_push(done, p@, |p: Seq<char>| readable(files, p, key));
        lemma_filter_push(done, p@, |p: Seq<char>| is_lagging(files, p, key));
        lemma_filter_push(done, p@, |p: Seq<char>| is_stale(files, p, key));
        lemma_filter_push(done, p@, |p: Seq<char>| is_missing(files, p, key));
        lemma_filter_len(done, |p: Seq<char>| readable(files, p, key));
    }
    let generation = match envelope_generation(t, p, identity) {
        Some(n) => n,
        None => {
            return false;
        },
    };
    census.sealed_count = census.sealed_count.saturating_add(1);
    match gens.get(p) {
        None => {
            let name = copy_text(p);
            proof {
                lemma_views_push(census.missing_index@, name);
            }
            census.missing_index.push(name);
            false
        },
        Some(index_gen) => if generation < index_gen {
            let name = copy_text(p);
            proof {
                lemma_views_push(census.stale_paths@, name);
            }
            census.stale_paths.push(name);
            false
        } else if generation > index_gen {
            let name = copy_text(p);
            proof {
                lemma_views_push(census.lag_paths@, name);
            }
            census.lag_paths.push(name);
            false
        } else {
            true
        },
    }
}

/// A filtered sequence is not longer.
proof fn lemma_filter_len(s: Seq<Seq<char>>, pred: spec_fn(Seq<char>) -> bool)
    ensures
        s.filter(pred).len() <= s.len(),
    decreases s.len(),
{
    reveal(Seq::filter);
    if s.len() > 0 {
        lemma_filter_len(s.drop_last(), pred);
    }
}

/// Counts the entries of the index that have no secret.
fn count_tombstones(gens: &Generations, paths: &[String]) -> (r: usize)
    requires
        gens.wf(),
    ensures
        r == Set::new(
            |p: Seq<char>| gens@.contains_key(p) && !text::views(paths@).contains(p),
        ).len(),
{
    let ghost all = text::views(paths@);
    let ghost rows = gens.pairs();
    let ghost keys = generations::paths_of(rows);
    let ghost pred = |p: Seq<char>| !all.contains(p);
    let count: usize = gens.len();
    let mut n: usize = 0;
    proof {
        lemma_filter_empty(pred);
        assert(keys.take(0) =~= Seq::empty());
    }
    for i in 0..count
        invariant
            gens.wf(),
            all == text::views(paths@),
            rows == gens.pairs(),
            keys == generations::paths_of(rows),
            pred == (|p: Seq<char>| !all.contains(p)),
            count == rows.len(),
            n == keys.take(i as int).filter(pred).len(),
            n <= i,
    {
        let (p, _) = gens.at(i);
        assert(keys.take(i + 1) =~= keys.take(i as int).push(p@));
        proof {
            lemma_filter_push(keys.take(i as int), p@, pred);
        }
        if !list_has(paths, p) {
            n = n + 1;
        }
    }
    proof {
        assert(keys.take(count as int) =~= keys);
        text::lemma_ascending_distinct(keys);
        lemma_filter_set(keys, pred);
        let dead = Set::new(|p: Seq<char>| gens@.contains_key(p) && !all.contains(p));
        assert(keys.filter(pred).to_set() =~= dead);
        keys.filter(pred).unique_seq_to_set();
    }
    n
}

/// What a filtered sequence holds.
proof fn lemma_filter_set(s: Seq<Seq<char>>, pred: spec_fn(Seq<char>) -> bool)
    requires
        s.no_duplicates(),
    ensures
        s.filter(pred).no_duplicates(),
        forall|x: Seq<char>| #[trigger] s.filter(pred).contains(x) <==> s.contains(x) && pred(x),
    decreases s.len(),
{
    reveal(Seq::filter);
    if s.len() > 0 {
        let t = s.drop_last();
        assert(t.no_duplicates());
        lemma_filter_set(t, pred);
        let f = s.filter(pred);
        let g = t.filter(pred);
        assert forall|x: Seq<char>| s.contains(x) <==> x == s.last() || #[trigger] t.contains(x) by {
            if s.contains(x) {
                let i = s.index_of(x);
                assert(s[i] == x);
                if i < t.len() {
                    assert(t[i] == x);
                }
            }
            if t.contains(x) {
                let i = t.index_of(x);
                assert(s[i] == x);
            }
            if x == s.last() {
                assert(s[s.len() - 1] == x);
            }
        }
        assert(!t.contains(s.last())) by {
            if t.contains(s.last()) {
                let i = t.index_of(s.last());
                assert(s[i] == s[s.len() - 1]);
            }
        }
        if pred(s.last()) {
            assert(f == g.push(s.last()));
            assert forall|x: Seq<char>| #[trigger] f.contains(x) <==> s.contains(x) && pred(x) by {
                if f.contains(x) {
                    let i = f.index_of(x);
                    assert(f[i] == x);
                    if i < g.len() {
                        assert(g[i] == x);
                        assert(g.contains(x));
                    }
                }
                if s.contains(x) && pred(x) {
                    if x == s.last() {
                        assert(f[g.len() as int] == x);
                    } else {
                        assert(t.contains(x));
                        assert(g.contains(x));
                        let i = g.index_of(x);
                        assert(f[i] == x);
                    }
                }
            }
            assert(!g.contains(s.last()));
            assert forall|i: int, j: int| 0 <= i < f.len() && 0 <= j < f.len() && i != j implies f[i]
                != f[j] by {
                if i < g.len() && j < g.len() {
                    assert(f[i] == g[i] && f[j] == g[j]);
                } else if i < g.len() {
                    assert(g.contains(g[i]));
                } else {
                    assert(g.contains(g[j]));
                }
            }
        } else {
            assert(f == g);
        }
    }
}

/// What a census of all secrets says. Where the index cannot be read, there is none.
pub open spec fn surveyed(files: Files, key: Seq<u8>, r: Result<GenerationCensus, Error>) -> bool {
    match secrets::index_at(files) {
        Ok(_) => r matches Ok(census) && counted(files, live(files), key, census)
            && census.tombstone_count == tombstones(files).len() && census.fully_protected
            == all_protected(files, key),
        Err(f) => r matches Err(e) && e@ == f,
    }
}

/// Compares all envelopes with the generation index.
pub fn generation_census(t: &Tree, identity: &Identity) -> (r: Result<GenerationCensus, Error>)
    requires
        t.wf(),
    ensures
        surveyed(t.files(), identity@, r),
{
    let ghost files = t.files();
    let ghost key = identity@;
    let gens = match load_index(t) {
        Ok(g) => g,
        Err(e) => {
            return Err(e);
        },
    };
    let paths = live_paths(t);
    let ghost all = text::views(paths@);
    let mut census = GenerationCensus::new();
    let mut protected = true;
    proof {
        lemma_filter_empty(|p: Seq<char>| readable(files, p, key));
        lemma_filter_empty(|p: Seq<char>| is_lagging(files, p, key));
        lemma_filter_empty(|p: Seq<char>| is_stale(files, p, key));
        lemma_filter_empty(|p: Seq<char>| is_missing(files, p, key));
        assert(all.take(0) =~= Seq::empty());
        assert(text::views(census.lag_paths@) =~= Seq::empty());
        assert(text::views(census.stale_paths@) =~= Seq::empty());
        assert(text::views(census.missing_index@) =~= Seq::empty());
    }
    for i in 0..paths.len()
        invariant
            t.wf(),
            files == t.files(),
            key == identity@,
            gens.wf(),
            gens@ == secrets::index_in(files),
            all == text::views(paths@),
            counted(files, all.take(i as int), key, census),
            protected == (forall|j: int| 0 <= j < i ==> is_protected(files, #[trigger] all[j], key)),
            census.tombstone_count == 0,
    {
        let ghost done = all.take(i as int);
        let p = paths[i].as_str();
        assert(all[i as int] == p@);
        assert(all.take(i + 1) =~= done.push(p@));
        let ok = census_one_path(t, p, identity, &gens, &mut census, Ghost(done));
        if !ok {
            protected = false;
        }
    }
    proof {
        assert(all.take(all.len() as int) =~= all);
        assert(all_protected(files, key) == (forall|j: int|
            0 <= j < all.len() ==> is_protected(files, #[trigger] all[j], key))) by {
            if all_protected(files, key) {
                assert forall|j: int| 0 <= j < all.len() implies is_protected(
                    files,
                    #[trigger] all[j],
                    key,
                ) by {
                    assert(all.contains(all[j]));
                }
            }
            if forall|j: int| 0 <= j < all.len() ==> is_protected(files, #[trigger] all[j], key) {
                assert forall|p: Seq<char>| #[trigger] all.contains(p) implies is_protected(
                    files,
                    p,
                    key,
                ) by {
                    let j = all.index_of(p);
                    assert(all[j] == p);
                }
            }
        }
        if protected {
            lemma_filter_none(all, |p: Seq<char>| is_lagging(files, p, key));
            lemma_filter_none(all, |p: Seq<char>| is_stale(files, p, key));
            lemma_filter_none(all, |p: Seq<char>| is_missing(files, p, key));
        }
    }
    census.tombstone_count = count_tombstones(&gens, paths.as_slice());
    census.fully_protected = protected && census.missing_index.len() == 0
        && census.lag_paths.len() == 0 && census.stale_paths.len() == 0;
    proof {
        assert(tombstones(files) =~= Set::new(
            |p: Seq<char>| gens@.contains_key(p) && !all.contains(p),
        ));
        assert(text::views(census.missing_index@).len() == census.missing_index@.len());
        assert(text::views(census.lag_paths@).len() == census.lag_paths@.len());
        assert(text::views(census.stale_paths@).len() == census.stale_paths@.len());
    }
    Ok(census)
}

/// Filtering for what no element is leaves nothing.
pub proof fn lemma_filter_none(s: Seq<Seq<char>>, pred: spec_fn(Seq<char>) -> bool)
    requires
        forall|i: int| 0 <= i < s.len() ==> !pred(#[trigger] s[i]),
    ensures
        s.filter(pred).len() == 0,
    decreases s.len(),
{
    reveal(Seq::filter);
    if s.len() > 0 {
        assert(!pred(s[s.len() - 1]));
        assert forall|i: int| 0 <= i < s.drop_last().len() implies !pred(
            #[trigger] s.drop_last()[i],
        ) by {
            assert(s.drop_last()[i] == s[i]);
        }
        lemma_filter_none(s.drop_last(), pred);
    }
}

} // verus!
