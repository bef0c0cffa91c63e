//! What holds of stores that are created, opened, and given new recipients.

use vstd::prelude::*;

use crate::commands::sync;
use crate::crypto;
use crate::crypto::Recipient;
use crate::error::{Error, Failure};
use crate::generations::GENERATIONS_FILE;
use crate::git;
use crate::git::{ATTRIBUTES_FILE, IGNORE_FILE};
use crate::health;
use crate::laws;
use crate::move_laws;
use crate::moves;
use crate::moves::{MOVE_DIR, MOVE_READY};
use crate::recipients;
use crate::recipients::RECIPIENTS_FILE;
use crate::rotation;
use crate::rotation::{ROTATE_DIR, ROTATE_READY};
use crate::rotation_laws;
use crate::secret::Payload;
use crate::secrets;
use crate::store;
use crate::store::Store;
use crate::tree;
use crate::tree::{Effect, Files, Tree};

verus! {

// ---------------------------------------------------------------------------
// Opening
// ---------------------------------------------------------------------------

/// Dropping an uncommitted journal leaves all files that are not inside it, and
/// changes nothing if the journal is committed.
proof fn lemma_discarded(files: Files, dir: Seq<char>, ready: Seq<char>)
    ensures
        ({
            let after = tree::replayed(files, moves::discarded(files, dir, ready));
            &&& forall|n: Seq<char>|
                !tree::inside(dir, n) ==> (#[trigger] after.contains_key(n) <==> files.contains_key(
                    n,
                ))
            &&& forall|n: Seq<char>| #[trigger] after.contains_key(n) ==> after[n] == files[n]
            &&& tree::present(files, ready) ==> after == files
            &&& !tree::present(files, ready) && !files.contains_key(dir) ==> !tree::present(
                after,
                dir,
            )
        }),
{
    let e = Effect::RemoveTree { dir };
    let after = tree::replayed(files, moves::discarded(files, dir, ready));
    tree::lemma_replayed_push(files, Seq::empty(), e);
    assert(Seq::empty().push(e) =~= seq![e]);
    if tree::has_dir(after, dir) {
        let n = choose|n: Seq<char>| #[trigger] after.contains_key(n) && tree::inside(dir, n);
        assert(after.contains_key(n));
    }
}

/// The two journals, the index and the recipient list are apart.
proof fn lemma_journal_names(n: Seq<char>)
    ensures
        tree::inside(ROTATE_DIR@, n) ==> !tree::inside(MOVE_DIR@, n),
        tree::inside(ROTATE_READY@, n) ==> tree::inside(ROTATE_DIR@, n),
        tree::inside(MOVE_READY@, n) ==> tree::inside(MOVE_DIR@, n),
        tree::inside(MOVE_DIR@, MOVE_READY@),
        !tree::inside(ROTATE_DIR@, MOVE_DIR@),
        !tree::inside(ROTATE_DIR@, GENERATIONS_FILE@),
        !tree::inside(ROTATE_DIR@, RECIPIENTS_FILE@),
        !tree::inside(MOVE_DIR@, GENERATIONS_FILE@),
        !tree::inside(MOVE_DIR@, RECIPIENTS_FILE@),
{
    reveal_strlit(".ks-rotate");
    reveal_strlit(".ks-rotate/READY");
    reveal_strlit(".ks-move");
    reveal_strlit(".ks-move/READY");
    reveal_strlit(".ks-generations");
    reveal_strlit(".age-recipients");
    let r = ROTATE_DIR@ + seq!['/'];
    let m = MOVE_DIR@ + seq!['/'];
    assert(r[4] == 'r' && m[4] == 'm');
    move_laws::lemma_prefix_index(r, n, 4);
    move_laws::lemma_prefix_index(m, n, 4);
    move_laws::lemma_prefix_index(r, MOVE_DIR@, 4);
    move_laws::lemma_prefix_index(r, GENERATIONS_FILE@, 4);
    move_laws::lemma_prefix_index(r, RECIPIENTS_FILE@, 4);
    move_laws::lemma_prefix_index(m, GENERATIONS_FILE@, 4);
    move_laws::lemma_prefix_index(m, RECIPIENTS_FILE@, 4);
    assert(MOVE_READY@.subrange(0, 9) =~= m);
    let rr = ROTATE_READY@ + seq!['/'];
    if rr.is_prefix_of(n) {
        assert(n.subrange(0, 11) =~= r) by {
            assert(rr =~= n.subrange(0, rr.len() as int));
            assert forall|i: int| 0 <= i < 11 implies n[i] == r[i] by {
                assert(rr[i] == n[i]);
            }
        }
    }
    let mr = MOVE_READY@ + seq!['/'];
    if mr.is_prefix_of(n) {
        assert(n.subrange(0, 9) =~= m) by {
            assert(mr =~= n.subrange(0, mr.len() as int));
            assert forall|i: int| 0 <= i < 9 implies n[i] == m[i] by {
                assert(mr[i] == n[i]);
            }
        }
    }
}

/// The files after the first of the two journals was looked at.
proof fn lemma_open_steps(files: Files)
    ensures
        ({
            let f1 = tree::replayed(files, moves::discarded(files, ROTATE_DIR@, ROTATE_READY@));
            &&& tree::replayed(files, store::open_effects(files)) == tree::replayed(
                f1,
                moves::discarded(f1, MOVE_DIR@, MOVE_READY@),
            )
            &&& tree::present(f1, MOVE_READY@) == tree::present(files, MOVE_READY@)
            &&& f1.contains_key(MOVE_DIR@) == files.contains_key(MOVE_DIR@)
        }),
{
    let first = moves::discarded(files, ROTATE_DIR@, ROTATE_READY@);
    let f1 = tree::replayed(files, first);
    tree::lemma_replayed_concat(files, first, moves::discarded(f1, MOVE_DIR@, MOVE_READY@));
    lemma_discarded(files, ROTATE_DIR@, ROTATE_READY@);
    lemma_journal_names(MOVE_READY@);
    assert(f1.contains_key(MOVE_READY@) <==> files.contains_key(MOVE_READY@));
    assert(f1.contains_key(MOVE_DIR@) <==> files.contains_key(MOVE_DIR@));
    if tree::has_dir(files, MOVE_READY@) {
        let n = choose|n: Seq<char>| #[trigger]
            files.contains_key(n) && tree::inside(MOVE_READY@, n);
        lemma_journal_names(n);
        assert(f1.contains_key(n));
    }
    if tree::has_dir(f1, MOVE_READY@) {
        let n = choose|n: Seq<char>| #[trigger]
            f1.contains_key(n) && tree::inside(MOVE_READY@, n);
        lemma_journal_names(n);
        assert(files.contains_key(n));
    }
}

/// Opening a store leaves every secret outside the journals, the index and the
/// recipient list as they are.
pub proof fn law_open_keeps_secrets(files: Files, p: Seq<char>, key: Seq<u8>)
    requires
        secrets::holds(files, p),
        !tree::inside(ROTATE_DIR@, secrets::live_file(p)),
        !tree::inside(MOVE_DIR@, secrets::live_file(p)),
    ensures
        ({
            let after = tree::replayed(files, store::open_effects(files));
            &&& secrets::holds(after, p)
            &&& secrets::got(after, p, key) == secrets::got(files, p, key)
            &&& secrets::index_in(after) == secrets::index_in(files)
            &&& files.contains_key(RECIPIENTS_FILE@) ==> secrets::recipients_at(
                after,
                RECIPIENTS_FILE@,
            ) == secrets::recipients_at(files, RECIPIENTS_FILE@)
        }),
{
    let f1 = tree::replayed(files, moves::discarded(files, ROTATE_DIR@, ROTATE_READY@));
    let after = tree::replayed(files, store::open_effects(files));
    lemma_open_steps(files);
    lemma_discarded(files, ROTATE_DIR@, ROTATE_READY@);
    lemma_discarded(f1, MOVE_DIR@, MOVE_READY@);
    lemma_journal_names(RECIPIENTS_FILE@);
    let live = secrets::live_file(p);
    assert(f1.contains_key(live) && after.contains_key(live));
    assert(f1.contains_key(GENERATIONS_FILE@) <==> files.contains_key(GENERATIONS_FILE@));
    assert(after.contains_key(GENERATIONS_FILE@) <==> f1.contains_key(GENERATIONS_FILE@));
    assert(f1.contains_key(RECIPIENTS_FILE@) <==> files.contains_key(RECIPIENTS_FILE@));
    assert(after.contains_key(RECIPIENTS_FILE@) <==> f1.contains_key(RECIPIENTS_FILE@));
    assert forall|n: Seq<char>| tree::inside(GENERATIONS_FILE@, n) implies (
    #[trigger] after.contains_key(n) <==> files.contains_key(n)) by {
        reveal_strlit(".ks-rotate");
        reveal_strlit(".ks-move");
        reveal_strlit(".ks-generations");
        move_laws::lemma_prefix_index(GENERATIONS_FILE@ + seq!['/'], n, 4);
        move_laws::lemma_prefix_index(ROTATE_DIR@ + seq!['/'], n, 4);
        move_laws::lemma_prefix_index(MOVE_DIR@ + seq!['/'], n, 4);
        assert(f1.contains_key(n) <==> files.contains_key(n));
    }
    secrets::lemma_same_index(after, files);
}

/// Opening a store leaves a committed journal whole, and nothing of one that was not
/// committed.
pub proof fn law_open_settles_journals(files: Files, n: Seq<char>)
    requires
        !files.contains_key(ROTATE_DIR@),
        !files.contains_key(MOVE_DIR@),
    ensures
        ({
            let after = tree::replayed(files, store::open_effects(files));
            &&& tree::present(files, ROTATE_READY@) && files.contains_key(n) && tree::inside(
                ROTATE_DIR@,
                n,
            ) ==> after.contains_key(n) && after[n] == files[n]
            &&& tree::present(files, MOVE_READY@) && files.contains_key(n) && tree::inside(
                MOVE_DIR@,
                n,
            ) ==> after.contains_key(n) && after[n] == files[n]
            &&& !tree::present(files, ROTATE_READY@) ==> !tree::present(after, ROTATE_DIR@)
            &&& !tree::present(files, MOVE_READY@) ==> !tree::present(after, MOVE_DIR@)
        }),
{
    let f1 = tree::replayed(files, moves::discarded(files, ROTATE_DIR@, ROTATE_READY@));
    let after = tree::replayed(files, store::open_effects(files));
    lemma_open_steps(files);
    lemma_discarded(files, ROTATE_DIR@, ROTATE_READY@);
    lemma_discarded(f1, MOVE_DIR@, MOVE_READY@);
    lemma_journal_names(n);
    if files.contains_key(n) && tree::inside(MOVE_DIR@, n) {
        assert(f1.contains_key(n) <==> files.contains_key(n));
    }
    if tree::present(files, ROTATE_READY@) && files.contains_key(n) && tree::inside(
        ROTATE_DIR@,
        n,
    ) {
        assert(after.contains_key(n) <==> f1.contains_key(n));
    }
    if !tree::present(files, ROTATE_READY@) && tree::present(after, ROTATE_DIR@) {
        if tree::has_dir(after, ROTATE_DIR@) {
            let m = choose|m: Seq<char>| #[trigger]
                after.contains_key(m) && tree::inside(ROTATE_DIR@, m);
            lemma_journal_names(m);
            assert(f1.contains_key(m));
            assert(tree::has_dir(f1, ROTATE_DIR@));
        } else {
            reveal_strlit(".ks-rotate");
            reveal_strlit(".ks-move");
            move_laws::lemma_prefix_index(MOVE_DIR@ + seq!['/'], ROTATE_DIR@, 4);
            assert(after.contains_key(ROTATE_DIR@));
            assert(f1.contains_key(ROTATE_DIR@));
        }
    }
}

/// A store that was opened in the middle of a rotation is not synchronised: opening
/// leaves the commit marker, and with it there is no first command.
pub proof fn law_sync_waits_for_rotation(files: Files, dir: Seq<char>)
    requires
        tree::present(files, ROTATE_READY@),
    ensures
        sync::first_step(tree::replayed(files, store::open_effects(files)), dir) is Err,
{
    let f1 = tree::replayed(files, moves::discarded(files, ROTATE_DIR@, ROTATE_READY@));
    let after = tree::replayed(files, store::open_effects(files));
    lemma_open_steps(files);
    lemma_discarded(files, ROTATE_DIR@, ROTATE_READY@);
    lemma_discarded(f1, MOVE_DIR@, MOVE_READY@);
    if files.contains_key(ROTATE_READY@) {
        reveal_strlit(".ks-rotate/READY");
        reveal_strlit(".ks-move");
        move_laws::lemma_prefix_index(MOVE_DIR@ + seq!['/'], ROTATE_READY@, 4);
        assert(after.contains_key(ROTATE_READY@));
    } else {
        let n = choose|n: Seq<char>| #[trigger]
            files.contains_key(n) && tree::inside(ROTATE_READY@, n);
        lemma_journal_names(n);
        assert(after.contains_key(n));
    }
    sync::law_half_rotated_is_not_pushed(after, dir);
}

// ---------------------------------------------------------------------------
// Creating
// ---------------------------------------------------------------------------

/// The git files leave the recipient list alone.
proof fn lemma_templates_apart(files: Files)
    requires
        files.contains_key(RECIPIENTS_FILE@),
    ensures
        ({
            let after = tree::replayed(files, git::template_effects(files));
            after.contains_key(RECIPIENTS_FILE@) && after[RECIPIENTS_FILE@]
                == files[RECIPIENTS_FILE@]
        }),
{
    reveal_strlit(".age-recipients");
    reveal_strlit(".gitattributes");
    reveal_strlit(".gitignore");
    assert(RECIPIENTS_FILE@[1] != ATTRIBUTES_FILE@[1]);
    assert(RECIPIENTS_FILE@[1] != IGNORE_FILE@[1]);
    let effects = git::template_effects(files);
    assert forall|i: int| 0 <= i < effects.len() implies (#[trigger] effects[i]) is Write
        && effects[i]->Write_file != RECIPIENTS_FILE@ by {}
    rotation::lemma_writes_keep(files, effects, RECIPIENTS_FILE@);
}

/// A store that was created has the recipients that it was created with: opening it
/// finds the same.
pub proof fn law_open_after_create(files: Files, list: Seq<Seq<char>>)
    requires
        list.len() > 0,
        forall|i: int| 0 <= i < list.len() ==> Recipient::canonical(#[trigger] list[i]),
    ensures
        secrets::recipients_at(
            tree::replayed(files, store::create_effects(files, list)),
            RECIPIENTS_FILE@,
        ) == Ok::<Seq<Seq<char>>, Failure>(list),
{
    let write = Effect::Write {
        file: RECIPIENTS_FILE@,
        bytes: recipients::recipients_body(list),
    };
    let f1 = tree::applied(files, write);
    tree::lemma_replayed_push(files, Seq::empty(), write);
    assert(Seq::empty().push(write) =~= seq![write]);
    tree::lemma_replayed_concat(files, seq![write], git::template_effects(f1));
    lemma_templates_apart(f1);
    recipients::law_recipients_roundtrip(list);
}

// ---------------------------------------------------------------------------
// New recipients
// ---------------------------------------------------------------------------

/// When new recipients were set, every secret reads as before, with the key of each
/// new recipient; the index is the same, and the store's recipients, in memory and
/// on disk, are the new ones. As many secrets are counted as there are. What was
/// interrupted before is resolved first.
pub proof fn law_get_after_set_recipients(
    before: Store,
    after: Store,
    list: Seq<Seq<char>>,
    key: Seq<u8>,
    count: usize,
    p: Seq<char>,
    reader: Seq<u8>,
)
    requires
        store::rotated(before, after, list, rotation::own(key), key, Ok(count)),
        rotation_laws::can_rotate(rotation::resolved(before.files(), key), list, key),
        health::live(rotation::resolved(before.files(), key)).contains(p),
        laws::belongs(reader, list),
    ensures
        ({
            let files = rotation::resolved(before.files(), key);
            &&& secrets::got(after.files(), p, reader) == secrets::got(files, p, key)
            &&& secrets::got(after.files(), p, reader) is Ok
            &&& secrets::index_in(after.files()) == secrets::index_in(files)
            &&& secrets::recipients_at(after.files(), RECIPIENTS_FILE@) == Ok::<
                Seq<Seq<char>>,
                Failure,
            >(list)
            &&& after.keys() == list
            &&& count == health::live(files).len()
        }),
{
    let files = rotation::resolved(before.files(), key);
    let prelude = rotation::rotation_prelude(before.files(), key);
    let mid = choose|mid: Tree|
        #[trigger] tree::advanced(before.tree(), mid, prelude.effects) && rotation::reencrypted(
            mid,
            after.tree(),
            list,
            key,
            Ok::<usize, Error>(count),
        );
    assert(mid.files() == files);
    let cts = choose|cts: Seq<Seq<u8>>|
        #![trigger rotation::rotation_work(mid.files(), list, key, cts)]
        rotation::reencrypts(mid.files(), list, key, cts) && tree::advanced(
            mid,
            after.tree(),
            rotation::rotation_work(mid.files(), list, key, cts).effects,
        ) && (rotation::rotation_work(mid.files(), list, key, cts).result matches Ok(m) && count
            == m);
    rotation_laws::law_rotation_keeps_secrets(files, list, key, cts, p, reader);
}

/// When new recipients were set, nobody but them reads: every secret is made for them
/// alone, and a key that belongs to none of them is refused, if what was made for
/// others keeps it out; also if it could read before.
pub proof fn law_set_recipients_revokes(
    before: Store,
    after: Store,
    list: Seq<Seq<char>>,
    key: Seq<u8>,
    count: usize,
    p: Seq<char>,
    reader: Seq<u8>,
)
    requires
        store::rotated(before, after, list, rotation::own(key), key, Ok(count)),
        rotation_laws::can_rotate(rotation::resolved(before.files(), key), list, key),
        health::live(rotation::resolved(before.files(), key)).contains(p),
        crypto::is_stranger(reader, list),
        crypto::keeps_out(after.files()[secrets::live_file(p)].bytes, list, reader),
    ensures
        secrets::got(after.files(), p, reader) == Err::<Payload, Failure>(Failure::Decrypt),
{
    let files = rotation::resolved(before.files(), key);
    let prelude = rotation::rotation_prelude(before.files(), key);
    let mid = choose|mid: Tree|
        #[trigger] tree::advanced(before.tree(), mid, prelude.effects) && rotation::reencrypted(
            mid,
            after.tree(),
            list,
            key,
            Ok::<usize, Error>(count),
        );
    assert(mid.files() == files);
    let cts = choose|cts: Seq<Seq<u8>>|
        #![trigger rotation::rotation_work(mid.files(), list, key, cts)]
        rotation::reencrypts(mid.files(), list, key, cts) && tree::advanced(
            mid,
            after.tree(),
            rotation::rotation_work(mid.files(), list, key, cts).effects,
        ) && (rotation::rotation_work(mid.files(), list, key, cts).result matches Ok(m) && count
            == m);
    rotation_laws::law_rotation_revokes(files, list, key, cts, p, reader);
}

/// When new recipients are refused because the index or a secret cannot be read,
/// nothing has changed, but that what was interrupted before may have been resolved.
pub proof fn law_refused_recipients_change_nothing(
    before: Store,
    after: Store,
    list: Seq<Seq<char>>,
    key: Seq<u8>,
    e: Error,
)
    requires
        store::rotated(before, after, list, rotation::own(key), key, Err(e)),
        rotation_laws::can_rotate(rotation::resolved(before.files(), key), list, key),
    ensures
        after.files() == rotation::resolved(before.files(), key),
{
    let files = rotation::resolved(before.files(), key);
    let prelude = rotation::rotation_prelude(before.files(), key);
    if prelude.result is Ok {
        let mid = choose|mid: Tree|
            #[trigger] tree::advanced(before.tree(), mid, prelude.effects)
                && rotation::reencrypted(
                mid,
                after.tree(),
                list,
                key,
                Err::<usize, Error>(e),
            );
        assert(mid.files() == files);
        let cts = choose|cts: Seq<Seq<u8>>|
            #![trigger rotation::rotation_work(mid.files(), list, key, cts)]
            rotation::reencrypts(mid.files(), list, key, cts) && tree::advanced(
                mid,
                after.tree(),
                rotation::rotation_work(mid.files(), list, key, cts).effects,
            ) && (rotation::rotation_work(mid.files(), list, key, cts).result matches Err(f) && e@
                == f);
        if rotation::rotation_fault(files, health::live(files), key, cts.len() as int) is Some {
            rotation_laws::law_failed_rotation_changes_nothing(files, list, key, cts);
        } else {
            rotation_laws::lemma_rotation_shape(files, list, key, cts);
        }
    }
}

/// New recipients are set wherever nothing is staged, the list on disk and the index can
/// be read, one's own key is among the new ones, and every listed secret can be read:
/// then as many secrets are counted as are listed.
pub proof fn law_set_recipients_succeeds(
    before: Store,
    after: Store,
    list: Seq<Seq<char>>,
    key: Seq<u8>,
    result: Result<usize, Error>,
)
    requires
        store::rotated(before, after, list, rotation::own(key), key, result),
        rotation_laws::can_rotate(before.files(), list, key),
        forall|n: Seq<char>| #[trigger]
            before.files().contains_key(n) ==> n != ".ks-move"@ && !tree::inside(".ks-move"@, n),
        secrets::recipients_at(before.files(), ".age-recipients"@) is Ok,
        secrets::index_at(before.files()) is Ok,
        forall|p: Seq<char>| #[trigger]
            health::live(before.files()).contains(p) ==> secrets::got(before.files(), p, key) is Ok,
    ensures
        result matches Ok(n) && n == health::live(before.files()).len(),
        after.keys() == list,
        secrets::recipients_at(after.files(), ".age-recipients"@) == Ok::<Seq<Seq<char>>, Failure>(
            list,
        ),
        forall|n: Seq<char>|
            n != ".age-recipients"@ ==> (#[trigger] after.files().contains_key(n)
                == before.files().contains_key(n)),
{
    let files = before.files();
    move_laws::law_nothing_staged(files, key);
    let none = Seq::<Effect>::empty();
    assert(rotation::rotation_recovery(files, key).effects == none);
    assert(none + none =~= none);
    assert(rotation::resolved(files, key) == files);
    let prelude = rotation::rotation_prelude(files, key);
    assert(prelude.result is Ok);
    let mid = choose|mid: Tree|
        #[trigger] tree::advanced(before.tree(), mid, prelude.effects) && rotation::reencrypted(
            mid,
            after.tree(),
            list,
            key,
            result,
        ) && after.keys() == (if result is Ok {
            list
        } else {
            prelude.result->Ok_0
        });
    assert(mid.files() == files);
    let cts = choose|cts: Seq<Seq<u8>>|
        #![trigger rotation::rotation_work(mid.files(), list, key, cts)]
        rotation::reencrypts(mid.files(), list, key, cts) && tree::advanced(
            mid,
            after.tree(),
            rotation::rotation_work(mid.files(), list, key, cts).effects,
        ) && match (result, rotation::rotation_work(mid.files(), list, key, cts).result) {
            (Ok(n), Ok(m)) => n == m,
            (Err(e), Err(f)) => e@ == f,
            _ => false,
        };
    let paths = health::live(files);
    if cts.len() < paths.len() {
        let p = paths[cts.len() as int];
        assert(paths.contains(p));
        assert(secrets::got(files, p, key) is Ok);
        assert(secrets::checked(files, p, key) is Ok);
        assert(false);
    }
    rotation_laws::lemma_rotation_shape(files, list, key, cts);
    assert(list.len() > 0);
    recipients::law_recipients_roundtrip(list);
}

/// New recipients without one's own key are refused, and nothing changes.
pub proof fn law_own_key_is_needed(
    before: Store,
    after: Store,
    list: Seq<Seq<char>>,
    key: Seq<u8>,
    result: Result<usize, Error>,
)
    requires
        store::rotated(before, after, list, rotation::own(key), key, result),
        !list.contains(rotation::own(key)),
    ensures
        after == before,
        result matches Err(e) && e@ is InvalidRecipient,
{
}

/// A store directory is opened exactly if it is there and its recipient list can be
/// read; then its recipients are those.
pub proof fn law_opening(found: bool, dir: Seq<char>, files: Files)
    ensures
        store::opening(found, dir, files) is Ok <==> found && secrets::recipients_at(
            files,
            ".age-recipients"@,
        ) is Ok,
        !found ==> store::opening(found, dir, files) == Err::<Seq<Seq<char>>, Failure>(
            Failure::StoreNotFound(dir),
        ),
        found ==> store::opening(found, dir, files) == secrets::recipients_at(
            files,
            ".age-recipients"@,
        ),
{
}

/// A store that was created has git files that hold every line that they have to, where
/// these can be read; and no other file was touched.
pub proof fn law_created_files(files: Files, list: Seq<Seq<char>>, n: Seq<char>)
    ensures
        ({
            let after = tree::replayed(files, store::create_effects(files, list));
            let with_list = files.insert(
                ".age-recipients"@,
                tree::plain(recipients::recipients_body(list)),
            );
            &&& n != ".age-recipients"@ && n != ".gitattributes"@ && n != ".gitignore"@
                ==> after.contains_key(n) == files.contains_key(n) && after[n] == files[n]
            &&& git::template_result(with_list) is Ok ==> (git::template_result(after) matches Ok(
                missing,
            ) && missing.0.len() == 0 && missing.1.len() == 0)
        }),
{
    let write = Effect::Write {
        file: RECIPIENTS_FILE@,
        bytes: recipients::recipients_body(list),
    };
    let f1 = tree::applied(files, write);
    tree::lemma_replayed_push(files, Seq::empty(), write);
    assert(Seq::empty().push(write) =~= seq![write]);
    tree::lemma_replayed_concat(files, seq![write], git::template_effects(f1));
    if n != ".gitattributes"@ && n != ".gitignore"@ {
        git::law_templates_leave_others(f1, n);
    }
    if git::template_result(f1) is Ok {
        git::law_templates_ensured(f1);
    }
}

/// Before new recipients are set, an interrupted rotation is resolved, and then an
/// interrupted move; the recipients that then count are those on disk.
pub proof fn law_interruptions_are_resolved_first(files: Files, key: Seq<u8>)
    ensures
        ({
            let r = rotation::rotation_recovery(files, key);
            let f1 = tree::replayed(files, r.effects);
            let prelude = rotation::rotation_prelude(files, key);
            &&& r.result is Err ==> prelude.result is Err && rotation::resolved(files, key) == f1
            &&& r.result is Ok ==> rotation::resolved(files, key) == moves::settled(f1, key)
            &&& r.result is Ok && moves::move_recovery(f1, key).result is Err
                ==> prelude.result is Err
            &&& r.result is Ok && moves::move_recovery(f1, key).result is Ok ==> prelude.result
                == secrets::recipients_at(moves::settled(f1, key), ".age-recipients"@)
        }),
{
    let r = rotation::rotation_recovery(files, key);
    let f1 = tree::replayed(files, r.effects);
    tree::lemma_replayed_concat(files, r.effects, moves::move_recovery(f1, key).effects);
}

} // verus!
