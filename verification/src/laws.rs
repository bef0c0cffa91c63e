//! What holds of the store across operations.
//!
//! The laws speak of the trees before and after an operation, in the terms in which
//! the operations state what they do.

use vstd::prelude::*;

use crate::crypto;
use crate::envelope;
use crate::envelope::Contents;
use crate::error;
use crate::error::{Error, Failure};
use crate::generations;
use crate::generations::GENERATIONS_FILE;
use crate::health;
use crate::listing;
use crate::path;
use crate::secret::{Payload, SecretKind};
use crate::secrets;
use crate::text;
use crate::tree;
use crate::tree::{Files, Tree};

verus! {

/// Whether a secret key belongs to one of some recipients.
pub open spec fn belongs(key: Seq<u8>, list: Seq<Seq<char>>) -> bool {
    crypto::age_public(key) matches Some(p) && list.contains(p)
}

// ---------------------------------------------------------------------------
// The index under writes
// ---------------------------------------------------------------------------

/// The index that was written is the index that is read.
pub proof fn lemma_index_after_write(files: Files, m: Map<Seq<char>, u64>)
    requires
        m.dom().finite(),
        forall|p: Seq<char>| #[trigger] m.contains_key(p) ==> path::valid_path(p),
    ensures
        secrets::index_in(tree::applied(files, secrets::index_write(m))) == m,
{
    generations::law_index_roundtrip(m);
}

/// The index of a tree is finite and has valid paths only.
pub proof fn lemma_index_valid(files: Files)
    ensures
        secrets::index_in(files).dom().finite(),
        forall|p: Seq<char>| #[trigger]
            secrets::index_in(files).contains_key(p) ==> path::valid_path(p),
{
    if files.contains_key(GENERATIONS_FILE@) {
        generations::lemma_reduced_valid(
            text::pieces(files[GENERATIONS_FILE@].bytes, 10u8),
        );
    }
}

/// A write of a secret, change by change.
pub proof fn lemma_write_effects(files: Files, logical: Seq<char>, ct: Seq<u8>)
    requires
        path::valid_path(logical),
    ensures
        ({
            let m = secrets::index_in(files);
            let more = m.insert(logical, generations::next_generation(m, logical));
            let after = tree::replayed(files, secrets::write_effects(files, logical, ct));
            &&& after == files.insert(secrets::live_file(logical), tree::plain(ct)).insert(
                GENERATIONS_FILE@,
                tree::plain(generations::index_body(more)),
            )
            &&& secrets::index_in(after) == more
            &&& after.contains_key(secrets::live_file(logical))
            &&& after[secrets::live_file(logical)] == tree::plain(ct)
        }),
{
    let effects = secrets::write_effects(files, logical, ct);
    let m = secrets::index_in(files);
    let more = m.insert(logical, generations::next_generation(m, logical));
    assert(effects =~= Seq::empty().push(effects[0]).push(effects[1]));
    tree::lemma_replayed_push(files, Seq::empty(), effects[0]);
    tree::lemma_replayed_push(files, Seq::empty().push(effects[0]), effects[1]);
    lemma_index_valid(files);
    lemma_index_after_write(tree::applied(files, effects[0]), more);
    secrets::lemma_live_file_name(logical);
}

/// A valid path has no line break.
pub proof fn lemma_path_one_line(p: Seq<char>)
    requires
        path::valid_path(p),
    ensures
        !p.contains('\n'),
{
    path::lemma_valid_path_chars(p);
    if p.contains('\n') {
        let i = p.index_of('\n');
        assert(path::path_char(p[i]) || p[i] == '/');
    }
}

/// What is in an envelope that was encrypted to a key's recipient.
pub proof fn lemma_unsealed(
    files: Files,
    root: Seq<char>,
    logical: Seq<char>,
    c: Contents,
    list: Seq<Seq<char>>,
    key: Seq<u8>,
)
    requires
        path::valid_path(logical),
        files.contains_key(path::file_of(root, logical)),
        crypto::encrypts(
            files[path::file_of(root, logical)].bytes,
            envelope::sealed(logical, c.kind, c.generation, c.payload),
            list,
        ),
        belongs(key, list),
    ensures
        secrets::unsealed_at(files, root, logical, key) == Ok::<Contents, Failure>(c),
{
    lemma_path_one_line(logical);
    let ct = files[path::file_of(root, logical)].bytes;
    assert(crypto::age_plaintext(ct, key) == Some(
        envelope::sealed(logical, c.kind, c.generation, c.payload),
    ));
    envelope::law_envelope_roundtrip(logical, c.kind, c.generation, c.payload);
}

/// A key that belongs to no recipient, and is kept out, opens no envelope.
pub proof fn lemma_shut(
    files: Files,
    root: Seq<char>,
    logical: Seq<char>,
    plaintext: Seq<u8>,
    list: Seq<Seq<char>>,
    key: Seq<u8>,
)
    requires
        files.contains_key(path::file_of(root, logical)),
        crypto::encrypts(files[path::file_of(root, logical)].bytes, plaintext, list),
        crypto::is_stranger(key, list),
        crypto::keeps_out(files[path::file_of(root, logical)].bytes, list, key),
    ensures
        secrets::unsealed_at(files, root, logical, key) == Err::<Contents, Failure>(
            Failure::Decrypt,
        ),
{
    let ct = files[path::file_of(root, logical)].bytes;
    assert(crypto::made_for(ct, plaintext, list));
}

// ---------------------------------------------------------------------------
// Reading what was written
// ---------------------------------------------------------------------------

/// Reading after a write gives back what was written, with the key of any of the
/// recipients that it was written for.
pub proof fn law_get_after_set(
    before: Tree,
    after: Tree,
    logical: Seq<char>,
    payload: Payload,
    list: Seq<Seq<char>>,
    key: Seq<u8>,
)
    requires
        path::valid_path(logical),
        secrets::wrote(before, after, logical, payload, list),
        belongs(key, list),
    ensures
        secrets::got(after.files(), logical, key) == Ok::<Payload, Failure>(payload),
        secrets::holds(after.files(), logical),
{
    let files = before.files();
    let ct = secrets::lemma_wrote(before, after, logical, payload, list);
    lemma_write_effects(files, logical, ct);
    let n = generations::next_generation(secrets::index_in(files), logical);
    let c = Contents { kind: payload.kind, generation: n, payload: payload.bytes };
    lemma_unsealed(after.files(), secrets::top(), logical, c, list, key);
}

/// Nobody else reads what was written: it is made for the recipients alone, and a key
/// that belongs to none of them is refused, if what was made for others keeps it out.
pub proof fn law_stranger_reads_nothing(
    before: Tree,
    after: Tree,
    logical: Seq<char>,
    payload: Payload,
    list: Seq<Seq<char>>,
    key: Seq<u8>,
)
    requires
        path::valid_path(logical),
        secrets::wrote(before, after, logical, payload, list),
        crypto::is_stranger(key, list),
        crypto::keeps_out(after.files()[secrets::live_file(logical)].bytes, list, key),
    ensures
        secrets::got(after.files(), logical, key) == Err::<Payload, Failure>(Failure::Decrypt),
{
    let files = before.files();
    let ct = secrets::lemma_wrote(before, after, logical, payload, list);
    lemma_write_effects(files, logical, ct);
    let n = generations::next_generation(secrets::index_in(files), logical);
    let plaintext = envelope::sealed(logical, payload.kind, n, payload.bytes);
    lemma_shut(after.files(), secrets::top(), logical, plaintext, list, key);
}

/// A write leaves every other secret as it was.
pub proof fn law_set_keeps_others(
    before: Tree,
    after: Tree,
    logical: Seq<char>,
    payload: Payload,
    list: Seq<Seq<char>>,
    other: Seq<char>,
    key: Seq<u8>,
)
    requires
        path::valid_path(logical),
        secrets::wrote(before, after, logical, payload, list),
        other != logical,
        secrets::holds(before.files(), other),
    ensures
        secrets::holds(after.files(), other),
        secrets::got(after.files(), other, key) == secrets::got(before.files(), other, key),
{
    let files = before.files();
    let ct = secrets::lemma_wrote(before, after, logical, payload, list);
    lemma_write_effects(files, logical, ct);
    secrets::lemma_live_file_name(other);
    if secrets::live_file(other) == secrets::live_file(logical) {
        path::lemma_file_injective(secrets::top(), other, logical);
    }
}

/// A write raises the generation of its path, as long as it can be raised, and
/// leaves the index otherwise as it was.
pub proof fn law_set_raises_generation(
    before: Tree,
    after: Tree,
    logical: Seq<char>,
    payload: Payload,
    list: Seq<Seq<char>>,
)
    requires
        path::valid_path(logical),
        secrets::wrote(before, after, logical, payload, list),
    ensures
        ({
            let m = secrets::index_in(before.files());
            let n = secrets::index_in(after.files());
            &&& n == m.insert(logical, generations::next_generation(m, logical))
            &&& m.contains_key(logical) && m[logical] < u64::MAX ==> n[logical] > m[logical]
            &&& n[logical] >= 1
        }),
{
    let files = before.files();
    let ct = secrets::lemma_wrote(before, after, logical, payload, list);
    lemma_write_effects(files, logical, ct);
}

/// A write that is interrupted between the file and the index reads as the new
/// secret: an index that lags behind is no reason to refuse.
pub proof fn law_interrupted_set_is_read(
    files: Files,
    logical: Seq<char>,
    payload: Payload,
    list: Seq<Seq<char>>,
    ct: Seq<u8>,
    key: Seq<u8>,
)
    requires
        path::valid_path(logical),
        secrets::can_write_at(files, logical),
        secrets::seals_next(files, logical, payload, list, ct),
        belongs(key, list),
    ensures
        ({
            let interrupted = tree::replayed(
                files,
                secrets::write_effects(files, logical, ct).take(1),
            );
            secrets::got(interrupted, logical, key) == Ok::<Payload, Failure>(payload)
                && secrets::index_in(interrupted) == secrets::index_in(files)
        }),
{
    let first = secrets::write_effects(files, logical, ct).take(1);
    let interrupted = tree::replayed(files, first);
    assert(first =~= Seq::empty().push(first[0]));
    tree::lemma_replayed_push(files, Seq::empty(), first[0]);
    secrets::lemma_live_file_name(logical);
    secrets::lemma_same_index(interrupted, files);
    let n = generations::next_generation(secrets::index_in(files), logical);
    let c = Contents { kind: payload.kind, generation: n, payload: payload.bytes };
    lemma_unsealed(interrupted, secrets::top(), logical, c, list, key);
}

/// Two devices that start from the same store and write different secrets can be
/// merged: with the file of each, and an index with the greatest generations of
/// both, both secrets read as they were written.
pub proof fn law_disjoint_writes_merge(
    before: Tree,
    ours: Tree,
    theirs: Tree,
    merged: Files,
    mine: Seq<char>,
    other: Seq<char>,
    my_payload: Payload,
    other_payload: Payload,
    list: Seq<Seq<char>>,
    key: Seq<u8>,
)
    requires
        path::valid_path(mine),
        path::valid_path(other),
        mine != other,
        secrets::wrote(before, ours, mine, my_payload, list),
        secrets::wrote(before, theirs, other, other_payload, list),
        merged.contains_key(secrets::live_file(mine)),
        merged[secrets::live_file(mine)] == ours.files()[secrets::live_file(mine)],
        merged.contains_key(secrets::live_file(other)),
        merged[secrets::live_file(other)] == theirs.files()[secrets::live_file(other)],
        secrets::index_at(merged) == Ok::<Map<Seq<char>, u64>, Failure>(
            generations::merged(
                secrets::index_in(ours.files()),
                secrets::index_in(theirs.files()),
            ),
        ),
        belongs(key, list),
    ensures
        secrets::got(merged, mine, key) == Ok::<Payload, Failure>(my_payload),
        secrets::got(merged, other, key) == Ok::<Payload, Failure>(other_payload),
{
    law_get_after_set(before, ours, mine, my_payload, list, key);
    law_get_after_set(before, theirs, other, other_payload, list, key);
    law_set_raises_generation(before, ours, mine, my_payload, list);
    law_set_raises_generation(before, theirs, other, other_payload, list);
    let m = secrets::index_in(merged);
    let a = secrets::index_in(ours.files());
    let b = secrets::index_in(theirs.files());
    assert(m[mine] == a[mine]);
    assert(m[other] == b[other]);
    assert(secrets::unsealed(merged, mine, key) == secrets::unsealed(ours.files(), mine, key));
    assert(secrets::unsealed(merged, other, key) == secrets::unsealed(
        theirs.files(),
        other,
        key,
    ));
}

/// Deleting removes the secret and leaves the index as it was, so that the next
/// write at the path goes on above the old generation. Other secrets stay, and read
/// as before if the index can be read.
pub proof fn law_delete_keeps_generation(
    before: Tree,
    after: Tree,
    logical: Seq<char>,
    other: Seq<char>,
    key: Seq<u8>,
)
    requires
        secrets::deletion(before.files(), logical).result is Ok,
        tree::advanced(
            before,
            after,
            secrets::deletion(before.files(), logical).effects,
        ),
    ensures
        !secrets::holds(after.files(), logical),
        secrets::got(after.files(), logical, key) is Err,
        secrets::index_in(after.files()) == secrets::index_in(before.files()),
        generations::next_generation(secrets::index_in(after.files()), logical)
            == generations::next_generation(secrets::index_in(before.files()), logical),
        other != logical && secrets::holds(before.files(), other) ==> secrets::holds(
            after.files(),
            other,
        ),
        secrets::index_at(before.files()) is Ok && other != logical && secrets::holds(
            before.files(),
            other,
        ) ==> secrets::got(after.files(), other, key) == secrets::got(before.files(), other, key),
{
    let e = secrets::deletion(before.files(), logical).effects[0];
    tree::lemma_replayed_push(before.files(), Seq::empty(), e);
    assert(Seq::empty().push(e) =~= secrets::deletion(before.files(), logical).effects);
    secrets::lemma_live_file_name(logical);
    secrets::lemma_live_file_name(other);
    if secrets::live_file(other) == secrets::live_file(logical) {
        path::lemma_file_injective(secrets::top(), other, logical);
    }
}

// ---------------------------------------------------------------------------
// What a reader refuses
// ---------------------------------------------------------------------------

/// A ciphertext that was sealed for one path is refused at every other path.
pub proof fn law_relocated_is_refused(
    files: Files,
    sealed_at: Seq<char>,
    found_at: Seq<char>,
    kind: SecretKind,
    generation: u64,
    payload: Seq<u8>,
    key: Seq<u8>,
)
    requires
        path::valid_path(sealed_at),
        path::valid_path(found_at),
        sealed_at != found_at,
        files.contains_key(secrets::live_file(found_at)),
        crypto::age_plaintext(files[secrets::live_file(found_at)].bytes, key) == Some(
            envelope::sealed(sealed_at, kind, generation, payload),
        ),
    ensures
        secrets::got(files, found_at, key) matches Err(Failure::Tampered { path, .. }) && path
            == found_at,
{
    lemma_path_one_line(sealed_at);
    envelope::law_envelope_binds_path(sealed_at, found_at, kind, generation, payload);
}

/// An envelope that is older than the index says is refused; one that is as new or
/// newer, or whose path the index does not know, is read.
pub proof fn law_rollback_is_refused(
    files: Files,
    logical: Seq<char>,
    kind: SecretKind,
    generation: u64,
    payload: Seq<u8>,
    key: Seq<u8>,
)
    requires
        path::valid_path(logical),
        secrets::index_at(files) is Ok,
        files.contains_key(secrets::live_file(logical)),
        crypto::age_plaintext(files[secrets::live_file(logical)].bytes, key) == Some(
            envelope::sealed(logical, kind, generation, payload),
        ),
    ensures
        ({
            let m = secrets::index_in(files);
            let old = m.contains_key(logical) && generation < m[logical];
            &&& old ==> (secrets::got(files, logical, key) matches Err(
                Failure::Tampered { path, .. },
            ) && path == logical)
            &&& !old ==> secrets::got(files, logical, key) == Ok::<Payload, Failure>(
                Payload { bytes: payload, kind },
            )
        }),
{
    lemma_path_one_line(logical);
    envelope::law_envelope_roundtrip(logical, kind, generation, payload);
}

/// A secret whose file and index line both go back to an older state is read as it
/// was then: restoring the two together is not detected.
pub proof fn law_coherent_rollback_is_read(
    older: Files,
    files: Files,
    logical: Seq<char>,
    key: Seq<u8>,
)
    requires
        secrets::holds(older, logical),
        secrets::index_at(older) is Ok,
        secrets::index_at(files) is Ok,
        files.contains_key(secrets::live_file(logical)),
        files[secrets::live_file(logical)].bytes == older[secrets::live_file(logical)].bytes,
        secrets::index_in(files).contains_key(logical) == secrets::index_in(
            older,
        ).contains_key(logical),
        secrets::index_in(files)[logical] == secrets::index_in(older)[logical],
    ensures
        secrets::got(files, logical, key) == secrets::got(older, logical, key),
{
}

// ---------------------------------------------------------------------------
// Repair and census
// ---------------------------------------------------------------------------

/// After a repair of an index that can be read, every secret whose envelope opens can
/// be read, and every entry of the index that has no secret, or one that does not
/// open, is as it was.
pub proof fn law_repair(
    before: Tree,
    after: Tree,
    key: Seq<u8>,
    p: Seq<char>,
)
    requires
        tree::advanced(before, after, health::repair_effects(before.files(), key)),
        secrets::index_at(before.files()) is Ok,
        before.wf(),
        forall|q: Seq<char>| #[trigger]
            health::live(before.files()).contains(q) ==> path::valid_path(q),
    ensures
        health::live(before.files()).contains(p) && health::readable(before.files(), p, key)
            ==> secrets::got(after.files(), p, key) is Ok,
        secrets::index_in(before.files()).contains_key(p) && !(health::live(
            before.files(),
        ).contains(p) && health::readable(before.files(), p, key)) ==> secrets::index_in(
            after.files(),
        ).contains_key(p) && secrets::index_in(after.files())[p] == secrets::index_in(
            before.files(),
        )[p],
{
    let files = before.files();
    let target = health::repaired(files, key);
    before.lemma_finite();
    listing::lemma_walk_exists(files, secrets::top());
    let e = secrets::index_write(target);
    tree::lemma_replayed_push(files, Seq::empty(), e);
    assert(Seq::empty().push(e) =~= seq![e]);
    lemma_index_valid(files);
    assert(target.dom().finite()) by {
        let l = health::live(files).to_set();
        let i = secrets::index_in(files).dom();
        vstd::seq_lib::seq_to_set_is_finite(health::live(files));
        assert(target.dom().subset_of(l.union(i))) by {
            assert forall|q: Seq<char>| target.dom().contains(q) implies l.union(i).contains(
                q,
            ) by {}
        }
        vstd::set_lib::lemma_len_subset(target.dom(), l.union(i));
    }
    lemma_index_after_write(files, target);
    secrets::lemma_live_file_name(p);
}

/// In a store that a census calls fully protected, every secret with a valid path
/// can be read.
pub proof fn law_protected_is_readable(files: Files, key: Seq<u8>, p: Seq<char>)
    requires
        files.dom().finite(),
        health::all_protected(files, key),
        health::live(files).contains(p),
        path::valid_path(p),
    ensures
        secrets::got(files, p, key) is Ok,
{
    listing::lemma_walk_exists(files, secrets::top());
    assert(health::is_protected(files, p, key));
}

/// A repair changes the index alone, and leaves what can be opened as it is.
proof fn lemma_repair_changes(before: Tree, after: Tree, key: Seq<u8>)
    requires
        tree::advanced(before, after, health::repair_effects(before.files(), key)),
        secrets::index_at(before.files()) is Ok,
        before.wf(),
        forall|q: Seq<char>|
            listing::listed(before.files(), secrets::top(), q) && (#[trigger] secrets::unsealed(
                before.files(),
                q,
                key,
            )) is Ok ==> path::valid_path(q),
    ensures
        after.files() == before.files().insert(
            GENERATIONS_FILE@,
            tree::plain(generations::index_body(health::repaired(before.files(), key))),
        ),
        secrets::index_at(after.files()) is Ok,
        secrets::index_in(after.files()) == health::repaired(before.files(), key),
        health::live(after.files()) == health::live(before.files()),
        listing::is_walk(health::live(before.files()), before.files(), secrets::top()),
        listing::is_walk(health::live(after.files()), after.files(), secrets::top()),
        forall|p: Seq<char>| #[trigger]
            secrets::unsealed(after.files(), p, key) == secrets::unsealed(before.files(), p, key),
{
    before.lemma_finite();
    lemma_repaired_files(before.files(), key);
}

/// What the files are after a repair.
pub proof fn lemma_repaired_files(files: Files, key: Seq<u8>)
    requires
        files.dom().finite(),
        secrets::index_at(files) is Ok,
        forall|q: Seq<char>|
            listing::listed(files, secrets::top(), q) && (#[trigger] secrets::unsealed(
                files,
                q,
                key,
            )) is Ok ==> path::valid_path(q),
    ensures
        ({
            let now = tree::replayed(files, health::repair_effects(files, key));
            &&& now == files.insert(
                GENERATIONS_FILE@,
                tree::plain(generations::index_body(health::repaired(files, key))),
            )
            &&& secrets::index_at(now) is Ok
            &&& secrets::index_in(now) == health::repaired(files, key)
            &&& health::live(now) == health::live(files)
            &&& listing::is_walk(health::live(files), files, secrets::top())
            &&& listing::is_walk(health::live(now), now, secrets::top())
            &&& forall|p: Seq<char>| #[trigger]
                secrets::unsealed(now, p, key) == secrets::unsealed(files, p, key)
        }),
{
    let target = health::repaired(files, key);
    listing::lemma_walk_exists(files, secrets::top());
    let e = secrets::index_write(target);
    tree::lemma_replayed_push(files, Seq::empty(), e);
    assert(Seq::empty().push(e) =~= seq![e]);
    lemma_index_valid(files);
    assert(target.dom().finite()) by {
        let l = health::live(files).to_set();
        let i = secrets::index_in(files).dom();
        vstd::seq_lib::seq_to_set_is_finite(health::live(files));
        assert(target.dom().subset_of(l.union(i))) by {
            assert forall|q: Seq<char>| target.dom().contains(q) implies l.union(i).contains(
                q,
            ) by {}
        }
        vstd::set_lib::lemma_len_subset(target.dom(), l.union(i));
    }
    assert forall|q: Seq<char>| #[trigger] target.contains_key(q) implies path::valid_path(q) by {
        if !secrets::index_in(files).contains_key(q) {
            assert(health::live(files).contains(q));
            assert(secrets::unsealed(files, q, key) is Ok);
        }
    }
    lemma_index_after_write(files, target);
    let now = tree::replayed(files, health::repair_effects(files, key));
    assert forall|p: Seq<char>| #[trigger] secrets::unsealed(now, p, key) == secrets::unsealed(
        files,
        p,
        key,
    ) by {
        let f = secrets::live_file(p);
        secrets::lemma_live_file_name(p);
        reveal_strlit(".ks-generations");
        tree::lemma_not_inside(f, GENERATIONS_FILE@);
        assert forall|n: Seq<char>| tree::inside(f, n) implies (#[trigger] now.contains_key(n)
            <==> files.contains_key(n)) by {}
        tree::lemma_same_dir(now, files, f);
    }
    assert forall|p: Seq<char>| #[trigger] health::live(files).contains(p) <==> listing::listed(
        now,
        secrets::top(),
        p,
    ) by {
        secrets::lemma_live_file_name(p);
        assert(listing::listed(now, secrets::top(), p) == listing::listed(
            files,
            secrets::top(),
            p,
        ));
    }
    assert(listing::is_walk(health::live(files), now, secrets::top()));
    listing::lemma_walked_is(health::live(files), now, secrets::top());
}

/// After a repair of an index that can be read, the index that is read back has for each
/// listed path whose envelope opens exactly the generation inside the envelope. For
/// every other path it says what it said. No file but the index changes, and the
/// report counts the entries and names, in the order of the listing, the paths whose
/// envelope does not open.
pub proof fn law_repair_restores_generations(
    before: Tree,
    after: Tree,
    key: Seq<u8>,
    report: health::RepairReport,
)
    requires
        tree::advanced(before, after, health::repair_effects(before.files(), key)),
        health::reported(before.files(), key, Ok(report)),
        secrets::index_at(before.files()) is Ok,
        before.wf(),
        forall|q: Seq<char>|
            listing::listed(before.files(), secrets::top(), q) && (#[trigger] secrets::unsealed(
                before.files(),
                q,
                key,
            )) is Ok ==> path::valid_path(q),
    ensures
        ({
            let files = before.files();
            let was = secrets::index_in(files);
            let is = secrets::index_in(after.files());
            &&& forall|p: Seq<char>|
                listing::listed(files, secrets::top(), p) ==> ((#[trigger] secrets::unsealed(
                    files,
                    p,
                    key,
                )) matches Ok(c) ==> is.contains_key(p) && is[p] == c.generation)
            &&& forall|p: Seq<char>|
                !(listing::listed(files, secrets::top(), p) && secrets::unsealed(
                    files,
                    p,
                    key,
                ) is Ok) ==> (#[trigger] is.contains_key(p) == was.contains_key(p)) && (
                was.contains_key(p) ==> is[p] == was[p])
            &&& forall|n: Seq<char>|
                n != ".ks-generations"@ ==> (#[trigger] after.files().contains_key(n)
                    == files.contains_key(n)) && after.files()[n] == files[n]
            &&& report.entries == is.dom().len()
            &&& text::ascending(text::views(report.skipped@))
            &&& forall|p: Seq<char>| #[trigger]
                text::views(report.skipped@).contains(p) <==> listing::listed(
                    files,
                    secrets::top(),
                    p,
                ) && secrets::unsealed(files, p, key) is Err
        }),
{
    let files = before.files();
    lemma_repair_changes(before, after, key);
    let is = secrets::index_in(after.files());
    assert forall|p: Seq<char>| listing::listed(files, secrets::top(), p) implies ((
    #[trigger] secrets::unsealed(files, p, key)) matches Ok(c) ==> is.contains_key(p) && is[p]
        == c.generation) by {
        assert(health::live(files).contains(p));
    }
    assert forall|p: Seq<char>|
        !(listing::listed(files, secrets::top(), p) && secrets::unsealed(
            files,
            p,
            key,
        ) is Ok) implies (#[trigger] is.contains_key(p) == secrets::index_in(files).contains_key(
        p,
    )) && (secrets::index_in(files).contains_key(p) ==> is[p] == secrets::index_in(files)[p]) by {
        assert(health::live(files).contains(p) <==> listing::listed(files, secrets::top(), p));
    }
    text::lemma_filter_ascending(
        health::live(files),
        |p: Seq<char>| !health::readable(files, p, key),
    );
}

/// After a repair of an index that can be read, a census finds no path whose index
/// lags, none that is stale and none that is missing; and the store is fully protected
/// exactly if every listed envelope opens.
pub proof fn law_census_after_repair(
    before: Tree,
    after: Tree,
    key: Seq<u8>,
    census: health::GenerationCensus,
)
    requires
        tree::advanced(before, after, health::repair_effects(before.files(), key)),
        health::surveyed(after.files(), key, Ok(census)),
        secrets::index_at(before.files()) is Ok,
        before.wf(),
        forall|q: Seq<char>|
            listing::listed(before.files(), secrets::top(), q) && (#[trigger] secrets::unsealed(
                before.files(),
                q,
                key,
            )) is Ok ==> path::valid_path(q),
    ensures
        census.lag_paths@.len() == 0,
        census.stale_paths@.len() == 0,
        census.missing_index@.len() == 0,
        census.fully_protected <==> forall|p: Seq<char>|
            listing::listed(before.files(), secrets::top(), p) ==> (#[trigger] secrets::unsealed(
                before.files(),
                p,
                key,
            )) is Ok,
{
    let files = before.files();
    let now = after.files();
    lemma_repair_changes(before, after, key);
    let all = health::live(now);
    assert forall|i: int| 0 <= i < all.len() implies !health::is_lagging(
        now,
        #[trigger] all[i],
        key,
    ) && !health::is_stale(now, all[i], key) && !health::is_missing(now, all[i], key) by {
        let p = all[i];
        assert(all.contains(p));
        assert(secrets::unsealed(now, p, key) == secrets::unsealed(files, p, key));
    }
    health::lemma_filter_none(all, |p: Seq<char>| health::is_lagging(now, p, key));
    health::lemma_filter_none(all, |p: Seq<char>| health::is_stale(now, p, key));
    health::lemma_filter_none(all, |p: Seq<char>| health::is_missing(now, p, key));
    assert(text::views(census.lag_paths@).len() == census.lag_paths@.len());
    assert(text::views(census.stale_paths@).len() == census.stale_paths@.len());
    assert(text::views(census.missing_index@).len() == census.missing_index@.len());
    if health::all_protected(now, key) {
        assert forall|p: Seq<char>| listing::listed(files, secrets::top(), p) implies (
        #[trigger] secrets::unsealed(files, p, key)) is Ok by {
            assert(all.contains(p));
            assert(health::is_protected(now, p, key));
            assert(secrets::unsealed(now, p, key) == secrets::unsealed(files, p, key));
        }
    }
    if forall|p: Seq<char>|
        listing::listed(files, secrets::top(), p) ==> (#[trigger] secrets::unsealed(
            files,
            p,
            key,
        )) is Ok {
        assert forall|p: Seq<char>| #[trigger] all.contains(p) implies health::is_protected(
            now,
            p,
            key,
        ) by {
            assert(secrets::unsealed(now, p, key) == secrets::unsealed(files, p, key));
            assert(secrets::unsealed(files, p, key) is Ok);
        }
    }
}

/// A census tells apart the listed paths whose envelope opens: those that the index does
/// not know, those whose envelope is older than the index says, and those whose
/// envelope is newer, each in the order of the listing. It counts those that open, and
/// the entries without a listed path. The store is fully protected exactly if every
/// listed envelope opens and has the generation that the index says.
pub proof fn law_census(files: Files, key: Seq<u8>, census: health::GenerationCensus)
    requires
        files.dom().finite(),
        secrets::index_at(files) is Ok,
        health::surveyed(files, key, Ok(census)),
    ensures
        ({
            let m = secrets::index_in(files);
            let top = secrets::top();
            &&& text::ascending(text::views(census.missing_index@))
            &&& text::ascending(text::views(census.stale_paths@))
            &&& text::ascending(text::views(census.lag_paths@))
            &&& forall|p: Seq<char>| #[trigger]
                text::views(census.missing_index@).contains(p) <==> listing::listed(files, top, p)
                    && secrets::unsealed(files, p, key) is Ok && !m.contains_key(p)
            &&& forall|p: Seq<char>| #[trigger]
                text::views(census.stale_paths@).contains(p) <==> listing::listed(files, top, p) && (
                secrets::unsealed(files, p, key) matches Ok(c) && m.contains_key(p) && c.generation
                    < m[p])
            &&& forall|p: Seq<char>| #[trigger]
                text::views(census.lag_paths@).contains(p) <==> listing::listed(files, top, p) && (
                secrets::unsealed(files, p, key) matches Ok(c) && m.contains_key(p) && c.generation
                    > m[p])
            &&& census.sealed_count == Set::new(
                |p: Seq<char>|
                    listing::listed(files, top, p) && secrets::unsealed(files, p, key) is Ok,
            ).len()
            &&& census.tombstone_count == Set::new(
                |p: Seq<char>| m.contains_key(p) && !listing::listed(files, top, p),
            ).len()
            &&& census.fully_protected <==> forall|p: Seq<char>|
                listing::listed(files, top, p) ==> ((#[trigger] secrets::unsealed(
                    files,
                    p,
                    key,
                )) matches Ok(c) && m.contains_key(p) && m[p] == c.generation)
        }),
{
    let m = secrets::index_in(files);
    let top = secrets::top();
    let all = health::live(files);
    listing::lemma_walk_exists(files, top);
    text::lemma_filter_ascending(all, |p: Seq<char>| health::is_lagging(files, p, key));
    text::lemma_filter_ascending(all, |p: Seq<char>| health::is_stale(files, p, key));
    text::lemma_filter_ascending(all, |p: Seq<char>| health::is_missing(files, p, key));
    text::lemma_filter_ascending(all, |p: Seq<char>| health::readable(files, p, key));
    let open = all.filter(|p: Seq<char>| health::readable(files, p, key));
    text::lemma_ascending_distinct(open);
    open.unique_seq_to_set();
    assert(open.to_set() =~= Set::new(
        |p: Seq<char>| listing::listed(files, top, p) && secrets::unsealed(files, p, key) is Ok,
    ));
    assert(health::tombstones(files) =~= Set::new(
        |p: Seq<char>| m.contains_key(p) && !listing::listed(files, top, p),
    ));
    if health::all_protected(files, key) {
        assert forall|p: Seq<char>| listing::listed(files, top, p) implies ((
        #[trigger] secrets::unsealed(files, p, key)) matches Ok(c) && m.contains_key(p) && m[p]
            == c.generation) by {
            assert(all.contains(p));
            assert(health::is_protected(files, p, key));
        }
    }
    if forall|p: Seq<char>|
        listing::listed(files, top, p) ==> ((#[trigger] secrets::unsealed(
            files,
            p,
            key,
        )) matches Ok(c) && m.contains_key(p) && m[p] == c.generation) {
        assert forall|p: Seq<char>| #[trigger] all.contains(p) implies health::is_protected(
            files,
            p,
            key,
        ) by {
            assert(secrets::unsealed(files, p, key) is Ok);
        }
    }
}

/// A repair refuses nothing but an index that cannot be read, and then changes nothing;
/// so does a census.
pub proof fn law_repair_refuses(
    before: Tree,
    after: Tree,
    key: Seq<u8>,
    r: Result<health::RepairReport, Error>,
    census: Result<health::GenerationCensus, Error>,
)
    requires
        tree::advanced(before, after, health::repair_effects(before.files(), key)),
        health::reported(before.files(), key, r),
        health::surveyed(before.files(), key, census),
    ensures
        r is Ok <==> secrets::index_at(before.files()) is Ok,
        census is Ok <==> secrets::index_at(before.files()) is Ok,
        r is Err ==> after.files() == before.files(),
{
    if secrets::index_at(before.files()) is Err {
        assert(health::repair_effects(before.files(), key) =~= Seq::empty());
    }
}

// ---------------------------------------------------------------------------
// When a write succeeds
// ---------------------------------------------------------------------------

/// A write at an acceptable path succeeds if the index can be read, no file is in the
/// way, and the file is not inside a directory of the index's name; the path then
/// reads as what was written, and its generation is one above the recorded one, or one
/// if there was none. The envelope has the generation that the index records.
pub proof fn law_set(
    before: Tree,
    after: Tree,
    logical: Seq<char>,
    payload: Payload,
    list: Seq<Seq<char>>,
    r: Result<(), Error>,
    key: Seq<u8>,
)
    requires
        path::valid_path(logical),
        secrets::written(before, after, logical, payload, list, r),
        before.files().contains_key(".ks-generations"@) || forall|n: Seq<char>| #[trigger]
            before.files().contains_key(n) ==> !tree::inside(".ks-generations"@, n),
        forall|n: Seq<char>| #[trigger]
            before.files().contains_key(n) ==> !tree::inside(logical + ".age"@, n) && !tree::inside(
                n,
                logical + ".age"@,
            ),
        !tree::inside(".ks-generations"@, logical + ".age"@),
        belongs(key, list),
    ensures
        r is Ok,
        secrets::got(after.files(), logical, key) == Ok::<Payload, Failure>(payload),
        ({
            let was = secrets::index_in(before.files());
            let is = secrets::index_in(after.files());
            &&& is.contains_key(logical)
            &&& !was.contains_key(logical) ==> is[logical] == 1
            &&& was.contains_key(logical) && was[logical] < u64::MAX ==> is[logical]
                == was[logical] + 1
            &&& was.contains_key(logical) && was[logical] == u64::MAX ==> is[logical] == u64::MAX
            &&& forall|p: Seq<char>|
                p != logical ==> (#[trigger] is.contains_key(p) == was.contains_key(p)) && is[p]
                    == was[p]
            &&& secrets::unsealed(after.files(), logical, key) == Ok::<Contents, Failure>(
                Contents { kind: payload.kind, generation: is[logical], payload: payload.bytes },
            )
        }),
        forall|n: Seq<char>|
            n != logical + ".age"@ && n != ".ks-generations"@ ==> (
            #[trigger] after.files().contains_key(n) == before.files().contains_key(n))
                && after.files()[n] == before.files()[n],
{
    let files = before.files();
    secrets::law_index_is_read(files);
    secrets::law_way_is_free(files, logical);
    secrets::law_holds(files, logical);
    assert(r is Ok);
    assert(r == Ok::<(), Error>(()));
    law_get_after_set(before, after, logical, payload, list, key);
    let ct = secrets::lemma_wrote(before, after, logical, payload, list);
    lemma_write_effects(files, logical, ct);
    let n = generations::next_generation(secrets::index_in(files), logical);
    let c = Contents { kind: payload.kind, generation: n, payload: payload.bytes };
    lemma_unsealed(after.files(), secrets::top(), logical, c, list, key);
}

/// A write that fails changes nothing, as long as the file is not inside a directory of
/// the index's name.
pub proof fn law_failed_set_changes_nothing(
    before: Tree,
    after: Tree,
    logical: Seq<char>,
    payload: Payload,
    list: Seq<Seq<char>>,
    e: Error,
)
    requires
        secrets::written(before, after, logical, payload, list, Err(e)),
        !tree::inside(".ks-generations"@, logical + ".age"@),
    ensures
        after.files() == before.files(),
{
    secrets::law_holds(before.files(), logical);
    let ct = choose|ct: Seq<u8>|
        #![trigger secrets::write_outcome(before.files(), logical, ct)]
        tree::advanced(before, after, secrets::write_outcome(before.files(), logical, ct).effects)
            && error::agrees(
            Err::<(), Error>(e),
            secrets::write_outcome(before.files(), logical, ct).result,
        );
    assert(secrets::write_outcome(before.files(), logical, ct).effects =~= Seq::empty());
}

/// After a secret was deleted, the same path can be written again, whatever the index
/// says of it.
pub proof fn law_set_after_delete(before: Tree, after: Tree, logical: Seq<char>)
    requires
        before.wf(),
        path::valid_path(logical),
        before.files().contains_key(logical + ".age"@),
        secrets::can_write_at(before.files(), logical),
        tree::advanced(before, after, secrets::deletion(before.files(), logical).effects),
    ensures
        !secrets::holds(after.files(), logical),
        secrets::can_write_at(after.files(), logical),
        secrets::index_in(after.files()) == secrets::index_in(before.files()),
{
    let files = before.files();
    let now = after.files();
    secrets::law_delete(before, after, logical);
    secrets::law_way_is_free(files, logical);
    secrets::law_way_is_free(now, logical);
    secrets::law_holds(now, logical);
    secrets::lemma_live_file_name(logical);
    assert forall|n: Seq<char>| tree::inside(GENERATIONS_FILE@, n) implies (
    #[trigger] now.contains_key(n) <==> files.contains_key(n)) by {}
    secrets::lemma_same_index(now, files);
}

/// A secret whose file is inside a directory of the index's name cannot be recorded: its
/// file is written, and then the write fails.
pub proof fn law_set_inside_index_fails(
    before: Tree,
    after: Tree,
    logical: Seq<char>,
    payload: Payload,
    list: Seq<Seq<char>>,
    r: Result<(), Error>,
)
    requires
        secrets::written(before, after, logical, payload, list, r),
        secrets::index_at(before.files()) is Ok,
        tree::inside(".ks-generations"@, logical + ".age"@),
        forall|n: Seq<char>| #[trigger]
            before.files().contains_key(n) ==> !tree::inside(logical + ".age"@, n) && !tree::inside(
                n,
                logical + ".age"@,
            ),
    ensures
        r is Err,
        after.files().contains_key(logical + ".age"@),
        forall|n: Seq<char>|
            n != logical + ".age"@ ==> (#[trigger] after.files().contains_key(n)
                == before.files().contains_key(n)) && after.files()[n] == before.files()[n],
{
    let files = before.files();
    secrets::law_holds(files, logical);
    let ct = choose|ct: Seq<u8>|
        #![trigger secrets::write_outcome(before.files(), logical, ct)]
        tree::advanced(before, after, secrets::write_outcome(before.files(), logical, ct).effects)
            && error::agrees(r, secrets::write_outcome(before.files(), logical, ct).result);
    let e = tree::Effect::Write { file: secrets::live_file(logical), bytes: ct };
    assert(!tree::blocked(files, secrets::live_file(logical)));
    tree::lemma_replayed_push(files, Seq::empty(), e);
    assert(Seq::empty().push(e) =~= seq![e]);
}

} // verus!
