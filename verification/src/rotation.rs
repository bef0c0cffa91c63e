//! Changing the recipients of a store.
//!
//! Every secret is encrypted again, to the new recipients, with its generation
//! kept. The new ciphertexts and the new recipient list are staged in `.ks-rotate/`,
//! and last a file `READY`. From then on the rotation is committed. If it is
//! interrupted before that, the staged files are dropped; if after, it is completed.

use vstd::prelude::*;

use crate::crypto;
use crate::crypto::{recipients_contain, Identity, Recipient};
use crate::envelope;
use crate::envelope::Unwrapped;
use crate::error;
use crate::error::{Error, Failure};
use crate::generations::GENERATIONS_FILE;
use crate::guard::Guarded;
use crate::listing;
use crate::listing::walk;
use crate::moves;
use crate::moves::{remove_staging, rollforward_or_back_move};
use crate::path;
use crate::path::{to_file, validate};
use crate::recipients;
use crate::recipients::{render_recipients, RECIPIENTS_FILE};
use crate::secrets;
use crate::secrets::{
    check, encrypt_secret_to, load_index, load_recipients, to_live_file, unseal_at,
};
use crate::text;
use crate::text::copy_text;
use crate::tree;
use crate::tree::{Effect, Files, Outcome, Tree};

verus! {

/// The directory in which a rotation is staged.
pub const ROTATE_DIR: &'static str = ".ks-rotate";

/// What stands before the paths of the staged ciphertexts.
pub const ROTATE_SECRETS: &'static str = ".ks-rotate/secrets/";

/// The staged recipient list.
pub const ROTATE_RECIPIENTS: &'static str = ".ks-rotate/RECIPIENTS";

/// The file that commits a staged rotation.
pub const ROTATE_READY: &'static str = ".ks-rotate/READY";

/// What was found when an interrupted rotation was looked for.
#[derive(Debug, Clone, Copy, PartialEq, Eq, Structural)]
pub enum RotationRecovery {
    /// There was none.
    Clean,
    /// One that was not committed; it was dropped.
    RolledBack,
    /// One that was committed; it was completed.
    Completed,
}

impl View for RotationRecovery {
    type V = RotationRecovery;

    open spec fn view(&self) -> RotationRecovery {
        *self
    }
}

/// The public key that belongs to a secret key.
pub open spec fn own(key: Seq<u8>) -> Seq<char> {
    crypto::age_public(key).unwrap()
}

/// The staged ciphertext for a path.
pub open spec fn staged_file(p: Seq<char>) -> Seq<char> {
    path::file_of(ROTATE_SECRETS@, p)
}

// ---------------------------------------------------------------------------
// Validity of a committed rotation
// ---------------------------------------------------------------------------

/// Whether each staged ciphertext has a valid path and opens there with the
/// identity; else what is wrong with the first that does not.
pub open spec fn staged_validity(files: Files, paths: Seq<Seq<char>>, key: Seq<u8>) -> Result<
    (),
    Failure,
>
    decreases paths.len(),
{
    if paths.len() == 0 {
        Ok(())
    } else {
        match staged_validity(files, paths.drop_last(), key) {
            Err(e) => Err(e),
            Ok(_) => if !path::valid_path(paths.last()) {
                Err(Failure::InvalidPath(paths.last()))
            } else {
                match secrets::unsealed_at(files, ROTATE_SECRETS@, paths.last(), key) {
                    Err(e) => Err(e),
                    Ok(_) => Ok(()),
                }
            },
        }
    }
}

/// Whether a committed rotation may be completed: the staged list holds the
/// identity's own key, and every staged ciphertext opens with the identity.
pub open spec fn rotation_validity(files: Files, key: Seq<u8>) -> Result<(), Failure> {
    match secrets::recipients_at(files, ROTATE_RECIPIENTS@) {
        Err(e) => Err(e),
        Ok(list) => if !list.contains(own(key)) {
            Err(
                Failure::InvalidRecipient(
                    "staged rotation excludes your public key; refusing unauthenticated recover"@,
                ),
            )
        } else {
            staged_validity(files, listing::walked(files, ROTATE_SECRETS@), key)
        },
    }
}

/// Checks that a committed rotation may be completed.
fn validate_ready_rotation(t: &Tree, identity: &Identity) -> (r: Result<(), Error>)
    requires
        t.wf(),
    ensures
        error::agrees(r, rotation_validity(t.files(), identity@)),
{
    let target = match load_recipients(t, ROTATE_RECIPIENTS) {
        Ok(l) => l,
        Err(e) => {
            return Err(e);
        },
    };
    let public = identity.to_public();
    if !recipients_contain(target.as_slice(), &public) {
        return Err(
            Error::InvalidRecipient(
                copy_text(
                    "staged rotation excludes your public key; refusing unauthenticated recover",
                ),
            ),
        );
    }
    let paths = walk(t, ROTATE_SECRETS);
    let ghost all = text::views(paths@);
    let ghost key = identity@;
    assert(all.take(0) =~= Seq::empty());
    for i in 0..paths.len()
        invariant
            t.wf(),
            key == identity@,
            all == text::views(paths@),
            all == listing::walked(t.files(), ROTATE_SECRETS@),
            rotation_validity(t.files(), key) == staged_validity(t.files(), all, key),
            staged_validity(t.files(), all.take(i as int), key) is Ok,
    {
        assert(all.take(i + 1).drop_last() =~= all.take(i as int));
        assert(all.take(i + 1).last() == paths@[i as int]@);
        let p = paths[i].as_str();
        match validate(p) {
            Ok(_) => {},
            Err(e) => {
                proof {
                    lemma_staged_failure(t.files(), all, key, i as int);
                }
                return Err(e);
            },
        }
        match unseal_at(t, ROTATE_SECRETS, p, identity) {
            Ok(_) => {},
            Err(e) => {
                proof {
                    lemma_staged_failure(t.files(), all, key, i as int);
                }
                return Err(e);
            },
        }
    }
    assert(all.take(all.len() as int) =~= all);
    Ok(())
}

/// What is wrong with the first paths is wrong with all.
proof fn lemma_staged_failure(files: Files, paths: Seq<Seq<char>>, key: Seq<u8>, i: int)
    requires
        0 <= i < paths.len(),
        staged_validity(files, paths.take(i + 1), key) is Err,
    ensures
        staged_validity(files, paths, key) == staged_validity(files, paths.take(i + 1), key),
    decreases paths.len(),
{
    if i + 1 == paths.len() {
        assert(paths.take(i + 1) =~= paths);
    } else {
        assert(paths.drop_last().take(i + 1) =~= paths.take(i + 1));
        lemma_staged_failure(files, paths.drop_last(), key, i);
    }
}

// ---------------------------------------------------------------------------
// Committing a staged rotation
// ---------------------------------------------------------------------------

/// Putting staged ciphertexts in place, up to the first path that is malformed or
/// that something stands in the way of.
pub open spec fn installation(files: Files, paths: Seq<Seq<char>>) -> Outcome<()>
    decreases paths.len(),
{
    if paths.len() == 0 {
        Outcome { effects: Seq::empty(), result: Ok(()) }
    } else {
        let before = installation(files, paths.drop_last());
        let live = secrets::live_file(paths.last());
        match before.result {
            Err(e) => tree::failed(before.effects, e),
            Ok(_) => if !path::valid_path(paths.last()) {
                tree::failed(before.effects, Failure::InvalidPath(paths.last()))
            } else if tree::blocked(tree::replayed(files, before.effects), live) {
                tree::failed(before.effects, Failure::NotAFile(live))
            } else {
                Outcome {
                    effects: before.effects.push(
                        Effect::Replace { from: staged_file(paths.last()), to: live },
                    ),
                    result: Ok(()),
                }
            },
        }
    }
}

/// The changes that end a rotation: the staged recipient list becomes the store's,
/// and the staged files go.
pub open spec fn adoption(files: Files) -> Outcome<()> {
    match secrets::recipients_at(files, ROTATE_RECIPIENTS@) {
        Err(e) => tree::failed(Seq::empty(), e),
        Ok(list) => if tree::blocked(files, RECIPIENTS_FILE@) {
            tree::failed(Seq::empty(), Failure::NotAFile(RECIPIENTS_FILE@))
        } else {
            let write = Effect::Write {
                file: RECIPIENTS_FILE@,
                bytes: recipients::recipients_body(list),
            };
            Outcome {
                effects: seq![write] + moves::dropped(tree::applied(files, write), ROTATE_DIR@),
                result: Ok(()),
            }
        },
    }
}

/// What completing a staged rotation does.
pub open spec fn rotation_commit(files: Files) -> Outcome<()> {
    let install = installation(files, listing::walked(files, ROTATE_SECRETS@));
    match install.result {
        Err(e) => tree::failed(install.effects, e),
        Ok(_) => {
            let adopt = adoption(tree::replayed(files, install.effects));
            Outcome { effects: install.effects + adopt.effects, result: adopt.result }
        },
    }
}

proof fn lemma_installation_failure(files: Files, paths: Seq<Seq<char>>, i: int)
    requires
        0 <= i < paths.len(),
        installation(files, paths.take(i + 1)).result is Err,
    ensures
        installation(files, paths) == installation(files, paths.take(i + 1)),
    decreases paths.len(),
{
    if i + 1 == paths.len() {
        assert(paths.take(i + 1) =~= paths);
    } else {
        assert(paths.drop_last().take(i + 1) =~= paths.take(i + 1));
        lemma_installation_failure(files, paths.drop_last(), i);
        assert(installation(files, paths) == installation(files, paths.drop_last()));
    }
}

/// Puts the staged ciphertexts in place.
fn install_staged(t: &mut Tree, paths: &[String]) -> (r: Result<(), Error>)
    requires
        old(t).wf(),
        text::views(paths@).no_duplicates(),
        forall|i: int|
            0 <= i < paths@.len() ==> old(t).files().contains_key(
                staged_file(#[trigger] text::views(paths@)[i]),
            ),
    ensures
        tree::advanced(*old(t), *final(t), installation(old(t).files(), text::views(paths@)).effects),
        error::agrees(r, installation(old(t).files(), text::views(paths@)).result),
{
    let ghost t0 = *t;
    let ghost all = text::views(paths@);
    proof {
        tree::lemma_advanced_none(t0);
        assert(all.take(0) =~= Seq::empty());
    }
    for i in 0..paths.len()
        invariant
            all == text::views(paths@),
            all.no_duplicates(),
            t0 == *old(t),
            tree::advanced(t0, *t, installation(t0.files(), all.take(i as int)).effects),
            installation(t0.files(), all.take(i as int)).result is Ok,
            forall|j: int|
                i <= j < all.len() ==> t.files().contains_key(staged_file(#[trigger] all[j])),
    {
        assert(all.take(i + 1).drop_last() =~= all.take(i as int));
        assert(all.take(i + 1).last() == all[i as int]);
        assert(all[i as int] == paths@[i as int]@);
        let p = paths[i].as_str();
        match validate(p) {
            Ok(_) => {},
            Err(e) => {
                proof {
                    lemma_installation_failure(t0.files(), all, i as int);
                }
                return Err(e);
            },
        }
        let staged = to_file(ROTATE_SECRETS, p);
        let live = to_live_file(p);
        if t.is_blocked(live.as_str()) {
            proof {
                lemma_installation_failure(t0.files(), all, i as int);
            }
            return Err(Error::NotAFile(live));
        }
        let ghost before = *t;
        t.replace(staged.as_str(), live.as_str());
        proof {
            tree::lemma_advanced_push(
                t0,
                before,
                *t,
                installation(t0.files(), all.take(i as int)).effects,
                Effect::Replace { from: staged@, to: live@ },
            );
            assert forall|j: int| i + 1 <= j < all.len() implies t.files().contains_key(
                staged_file(#[trigger] all[j]),
            ) by {
                if staged_file(all[j]) == staged_file(all[i as int]) {
                    path::lemma_file_injective(ROTATE_SECRETS@, all[j], all[i as int]);
                }
            }
        }
    }
    assert(all.take(all.len() as int) =~= all);
    Ok(())
}

/// Completes a staged rotation.
fn commit_staged(t: &mut Tree) -> (r: Result<(), Error>)
    requires
        old(t).wf(),
    ensures
        tree::advanced(*old(t), *final(t), rotation_commit(old(t).files()).effects),
        error::agrees(r, rotation_commit(old(t).files()).result),
{
    let ghost t0 = *t;
    let paths = walk(t, ROTATE_SECRETS);
    let ghost all = text::views(paths@);
    proof {
        text::lemma_ascending_distinct(all);
        assert forall|i: int| 0 <= i < all.len() implies t.files().contains_key(
            staged_file(#[trigger] all[i]),
        ) by {
            assert(all.contains(all[i]));
        }
    }
    match install_staged(t, paths.as_slice()) {
        Ok(_) => {},
        Err(e) => {
            return Err(e);
        },
    }
    let ghost t1 = *t;
    let ghost install = installation(t0.files(), all).effects;
    let target = match load_recipients(t, ROTATE_RECIPIENTS) {
        Ok(l) => l,
        Err(e) => {
            assert(install + Seq::<Effect>::empty() =~= install);
            return Err(e);
        },
    };
    if t.is_blocked(RECIPIENTS_FILE) {
        assert(install + Seq::<Effect>::empty() =~= install);
        return Err(Error::NotAFile(copy_text(RECIPIENTS_FILE)));
    }
    let body = render_recipients(target.as_slice());
    t.write(RECIPIENTS_FILE, body.as_slice());
    let ghost t2 = *t;
    remove_staging(t, ROTATE_DIR);
    proof {
        let write = Effect::Write { file: RECIPIENTS_FILE@, bytes: body@ };
        tree::lemma_advanced_none(t1);
        tree::lemma_advanced_push(t1, t1, t2, Seq::empty(), write);
        assert(Seq::empty().push(write) =~= seq![write]);
        tree::lemma_advanced_concat(
            t1,
            t2,
            *t,
            seq![write],
            moves::dropped(t2.files(), ROTATE_DIR@),
        );
        tree::lemma_advanced_concat(t0, t1, *t, install, adoption(t1.files()).effects);
    }
    Ok(())
}

// ---------------------------------------------------------------------------
// Recovery
// ---------------------------------------------------------------------------

/// What resolving an interrupted rotation does: nothing if there is none; drop one
/// that was not committed; complete one that was, if it is valid.
pub open spec fn rotation_recovery(files: Files, key: Seq<u8>) -> Outcome<RotationRecovery> {
    if !tree::present(files, ROTATE_DIR@) {
        Outcome { effects: Seq::empty(), result: Ok(RotationRecovery::Clean) }
    } else if !tree::present(files, ROTATE_READY@) {
        Outcome {
            effects: seq![Effect::RemoveTree { dir: ROTATE_DIR@ }],
            result: Ok(RotationRecovery::RolledBack),
        }
    } else {
        match rotation_validity(files, key) {
            Err(e) => tree::failed(Seq::empty(), e),
            Ok(_) => Outcome {
                effects: rotation_commit(files).effects,
                result: match rotation_commit(files).result {
                    Ok(_) => Ok(RotationRecovery::Completed),
                    Err(e) => Err(e),
                },
            },
        }
    }
}

/// Resolves an interrupted rotation.
pub fn rollforward_or_back(t: &mut Tree, identity: &Identity) -> (r: Result<
    RotationRecovery,
    Error,
>)
    requires
        old(t).wf(),
    ensures
        tree::advanced(*old(t), *final(t), rotation_recovery(old(t).files(), identity@).effects),
        error::agrees(r, rotation_recovery(old(t).files(), identity@).result),
{
    proof {
        tree::lemma_advanced_none(*t);
    }
    if !t.is_present(ROTATE_DIR) {
        return Ok(RotationRecovery::Clean);
    }
    if t.is_present(ROTATE_READY) {
        match validate_ready_rotation(t, identity) {
            Ok(_) => {},
            Err(e) => {
                return Err(e);
            },
        }
        match commit_staged(t) {
            Ok(_) => Ok(RotationRecovery::Completed),
            Err(e) => Err(e),
        }
    } else {
        remove_staging(t, ROTATE_DIR);
        Ok(RotationRecovery::RolledBack)
    }
}

// ---------------------------------------------------------------------------
// Staging
// ---------------------------------------------------------------------------

/// Whether a ciphertext is that of the secret at a path, with its generation kept,
/// for some recipients.
pub open spec fn rotates(
    files: Files,
    p: Seq<char>,
    key: Seq<u8>,
    list: Seq<Seq<char>>,
    ciphertext: Seq<u8>,
) -> bool {
    match secrets::checked(files, p, key) {
        Ok(c) => crypto::encrypts(
            ciphertext,
            envelope::sealed(p, c.kind, c.generation, c.payload),
            list,
        ),
        Err(_) => false,
    }
}

/// Whether ciphertexts are those of the first secrets, for some recipients.
pub open spec fn rotates_first(
    files: Files,
    paths: Seq<Seq<char>>,
    key: Seq<u8>,
    list: Seq<Seq<char>>,
    cts: Seq<Seq<u8>>,
) -> bool {
    &&& cts.len() <= paths.len()
    &&& forall|i: int| 0 <= i < cts.len() ==> rotates(files, paths[i], key, list, #[trigger] cts[i])
}

/// Whether staging comes to encrypting a secret: the index can be read, and the first
/// secret as well.
pub open spec fn encrypts_any(files: Files, paths: Seq<Seq<char>>, key: Seq<u8>) -> bool {
    secrets::index_at(files) is Ok && paths.len() > 0 && secrets::checked(
        files,
        paths[0],
        key,
    ) is Ok
}

/// Why the secret at a path cannot be staged, if it cannot: it cannot be read, or a
/// file has the name of the staging directory.
pub open spec fn staging_fault(files: Files, p: Seq<char>, key: Seq<u8>) -> Option<Failure> {
    match secrets::checked(files, p, key) {
        Err(e) => Some(e),
        Ok(_) => if files.contains_key(ROTATE_DIR@) {
            Some(Failure::NotAFile(staged_file(p)))
        } else {
            None
        },
    }
}

/// Why a rotation cannot be staged, given how many ciphertexts were made: the index
/// cannot be read, the next secret cannot be staged, or the marker cannot.
pub open spec fn rotation_fault(
    files: Files,
    paths: Seq<Seq<char>>,
    key: Seq<u8>,
    count: int,
) -> Option<Failure> {
    match secrets::index_at(files) {
        Err(e) => Some(e),
        Ok(_) => if count < paths.len() {
            staging_fault(files, paths[count], key)
        } else if files.contains_key(ROTATE_DIR@) {
            Some(Failure::NotAFile(ROTATE_RECIPIENTS@))
        } else {
            None
        },
    }
}

/// The writes of staged ciphertexts.
pub open spec fn staged_writes(paths: Seq<Seq<char>>, cts: Seq<Seq<u8>>) -> Seq<Effect> {
    Seq::new(
        cts.len(),
        |i: int| Effect::Write { file: staged_file(paths[i]), bytes: cts[i] },
    )
}

/// Writes leave alone the files that they do not name.
pub proof fn lemma_writes_keep(files: Files, effects: Seq<Effect>, name: Seq<char>)
    requires
        forall|i: int|
            0 <= i < effects.len() ==> (#[trigger] effects[i]) is Write && effects[i]->Write_file
                != name,
    ensures
        tree::replayed(files, effects).contains_key(name) == files.contains_key(name),
        files.contains_key(name) ==> tree::replayed(files, effects)[name] == files[name],
    decreases effects.len(),
{
    if effects.len() > 0 {
        assert(effects.last() == effects[effects.len() - 1]);
        assert forall|i: int| 0 <= i < effects.drop_last().len() implies (
        #[trigger] effects.drop_last()[i]) is Write && effects.drop_last()[i]->Write_file
            != name by {
            assert(effects.drop_last()[i] == effects[i]);
        }
        lemma_writes_keep(files, effects.drop_last(), name);
    }
}

/// A listed secret is not inside a hidden directory.
pub proof fn lemma_visible_not_hidden(dir: Seq<char>, p: Seq<char>)
    requires
        listing::visible(p),
        dir.len() > 0,
        dir[0] == '.',
        !dir.contains('/'),
    ensures
        !tree::inside(dir, secrets::live_file(p)),
{
    let name = secrets::live_file(p);
    let pre = dir + seq!['/'];
    if pre.is_prefix_of(name) {
        let n = dir.len() as int;
        assert(pre =~= name.subrange(0, pre.len() as int));
        assert(name[n] == pre[n]);
        assert(name[n] == '/');
        assert(name =~= p + path::extension());
        if n >= p.len() {
            assert(name[n] == path::extension()[n - p.len()]);
        }
        let rest = p.skip(n + 1);
        assert forall|i: int| 0 <= i < n implies p[i] == dir[i] by {
            assert(name[i] == pre[i]);
        }
        assert(p =~= dir + seq!['/'] + rest);
        text::lemma_pieces_concat(dir, rest, '/');
        text::lemma_pieces_single(dir, '/');
        text::lemma_pieces_nonempty(rest, '/');
        assert(text::pieces(p, '/')[0] == dir);
    }
}

/// Staged ciphertexts do not change what the store's secrets are.
proof fn lemma_staging_keeps(
    files: Files,
    paths: Seq<Seq<char>>,
    cts: Seq<Seq<u8>>,
    p: Seq<char>,
    key: Seq<u8>,
)
    requires
        cts.len() <= paths.len(),
        listing::visible(p),
        files.contains_key(secrets::live_file(p)),
    ensures
        secrets::checked(tree::replayed(files, staged_writes(paths, cts)), p, key)
            == secrets::checked(files, p, key),
        tree::replayed(files, staged_writes(paths, cts)).contains_key(ROTATE_DIR@)
            == files.contains_key(ROTATE_DIR@),
{
    let effects = staged_writes(paths, cts);
    reveal_strlit(".ks-rotate");
    reveal_strlit(".ks-rotate/secrets/");
    reveal_strlit(".ks-generations");
    let dir = ROTATE_DIR@;
    assert(!dir.contains('/'));
    lemma_visible_not_hidden(dir, p);
    let after = tree::replayed(files, effects);
    assert forall|i: int| 0 <= i < effects.len() implies (#[trigger] effects[i]) is Write
        && effects[i]->Write_file != secrets::live_file(p) && effects[i]->Write_file
        != GENERATIONS_FILE@ && effects[i]->Write_file != dir && effects[i]->Write_file[4]
        == 'r' by {
        let f = staged_file(paths[i]);
        assert(tree::inside(dir, f)) by {
            assert(f.subrange(0, dir.len() as int + 1) =~= dir + seq!['/']);
        }
        assert(f[10] == '/');
        assert(GENERATIONS_FILE@[10] != '/');
        assert(f.len() > dir.len());
    }
    lemma_writes_keep(files, effects, secrets::live_file(p));
    lemma_writes_keep(files, effects, GENERATIONS_FILE@);
    lemma_writes_keep(files, effects, dir);
    assert forall|n: Seq<char>| tree::inside(GENERATIONS_FILE@, n) implies (
    #[trigger] after.contains_key(n) <==> files.contains_key(n)) by {
        let pre = GENERATIONS_FILE@ + seq!['/'];
        assert(pre =~= n.subrange(0, pre.len() as int));
        assert(n[4] == pre[4]);
        lemma_writes_keep(files, effects, n);
    }
    secrets::lemma_same_index(after, files);
}

/// Encrypts the secrets at some paths to new recipients and stages them, up to the
/// first that cannot be read.
fn stage_secrets(
    t: &mut Tree,
    paths: &[String],
    new_recipients: &[Recipient],
    identity: &Identity,
) -> (r: Result<(), Error>)
    requires
        old(t).wf(),
        new_recipients@.len() > 0,
        encrypts_any(old(t).files(), text::views(paths@), identity@) ==> crypto::usable(
            crypto::texts(new_recipients@),
        ),
        forall|i: int|
            0 <= i < paths@.len() ==> listing::listed(
                old(t).files(),
                secrets::top(),
                #[trigger] text::views(paths@)[i],
            ),
    ensures
        exists|cts: Seq<Seq<u8>>|
            #![trigger staged_writes(text::views(paths@), cts)]
            rotates_first(
                old(t).files(),
                text::views(paths@),
                identity@,
                crypto::texts(new_recipients@),
                cts,
            ) && tree::advanced(
                *old(t),
                *final(t),
                staged_writes(text::views(paths@), cts),
            ) && match r {
                Ok(_) => cts.len() == paths@.len() && (paths@.len() > 0 ==> !old(
                    t,
                ).files().contains_key(ROTATE_DIR@)),
                Err(e) => cts.len() < paths@.len() && staging_fault(
                    old(t).files(),
                    text::views(paths@)[cts.len() as int],
                    identity@,
                ) == Some(e@),
            },
{
    let ghost t0 = *t;
    let ghost all = text::views(paths@);
    let ghost list = crypto::texts(new_recipients@);
    let ghost key = identity@;
    let ghost mut cts: Seq<Seq<u8>> = Seq::empty();
    proof {
        tree::lemma_advanced_none(t0);
        assert(staged_writes(all, cts) =~= Seq::empty());
    }
    for i in 0..paths.len()
        invariant
            t0 == *old(t),
            all == text::views(paths@),
            list == crypto::texts(new_recipients@),
            key == identity@,
            new_recipients@.len() > 0,
            encrypts_any(t0.files(), all, key) ==> crypto::usable(list),
            forall|j: int|
                0 <= j < all.len() ==> listing::listed(
                    t0.files(),
                    secrets::top(),
                    #[trigger] all[j],
                ),
            cts.len() == i,
            rotates_first(t0.files(), all, key, list, cts),
            i > 0 ==> !t0.files().contains_key(ROTATE_DIR@),
            tree::advanced(t0, *t, staged_writes(all, cts)),
    {
        assert(all[i as int] == paths@[i as int]@);
        let p = paths[i].as_str();
        proof {
            lemma_staging_keeps(t0.files(), all, cts, p@, key);
        }
        let Unwrapped { kind, generation, payload } = match check(t, p, identity) {
            Ok(u) => u,
            Err(e) => {
                return Err(e);
            },
        };
        assert(encrypts_any(t0.files(), all, key)) by {
            if i > 0 {
                assert(rotates(t0.files(), all[0], key, list, cts[0]));
            }
        }
        let payload = Guarded::new(payload);
        let ciphertext = encrypt_secret_to(
            p,
            kind,
            generation,
            payload.as_bytes(),
            new_recipients,
        ).unwrap();
        let staged = to_file(ROTATE_SECRETS, p);
        if t.has_file(ROTATE_DIR) {
            return Err(Error::NotAFile(staged));
        }
        let ghost before = *t;
        t.write(staged.as_str(), ciphertext.as_slice());
        proof {
            let e = Effect::Write { file: staged@, bytes: ciphertext@ };
            tree::lemma_advanced_push(t0, before, *t, staged_writes(all, cts), e);
            let more = cts.push(ciphertext@);
            assert(staged_writes(all, more) =~= staged_writes(all, cts).push(e));
            assert forall|j: int| 0 <= j < more.len() implies rotates(
                t0.files(),
                all[j],
                key,
                list,
                #[trigger] more[j],
            ) by {
                if j < cts.len() {
                    assert(more[j] == cts[j]);
                }
            }
            cts = more;
        }
    }
    Ok(())
}

/// The writes that end staging: the recipient list and the commit marker.
pub open spec fn marker_writes(list: Seq<Seq<char>>) -> Seq<Effect> {
    seq![
        Effect::Write { file: ROTATE_RECIPIENTS@, bytes: recipients::recipients_body(list) },
        Effect::Write { file: ROTATE_READY@, bytes: Seq::empty() },
    ]
}

/// What a rotation finds first: interrupted rotations and moves are resolved, and
/// the recipient list is read anew.
pub open spec fn rotation_prelude(files: Files, key: Seq<u8>) -> Outcome<Seq<Seq<char>>> {
    let first = rotation_recovery(files, key);
    match first.result {
        Err(e) => tree::failed(first.effects, e),
        Ok(_) => {
            let f1 = tree::replayed(files, first.effects);
            let second = moves::move_recovery(f1, key);
            match second.result {
                Err(e) => tree::failed(first.effects + second.effects, e),
                Ok(_) => Outcome {
                    effects: first.effects + second.effects,
                    result: secrets::recipients_at(
                        tree::replayed(f1, second.effects),
                        RECIPIENTS_FILE@,
                    ),
                },
            }
        },
    }
}

/// The files once interrupted rotations and moves are resolved.
pub open spec fn resolved(files: Files, key: Seq<u8>) -> Files {
    tree::replayed(files, rotation_prelude(files, key).effects)
}

/// Whether re-encrypting all secrets comes to encrypting one.
pub open spec fn reencryption_encrypts(files: Files, key: Seq<u8>) -> bool {
    encrypts_any(
        tree::replayed(files, moves::dropped(files, ROTATE_DIR@)),
        listing::walked(files, secrets::top()),
        key,
    )
}

/// What re-encrypting all secrets does, given the ciphertexts that were made: fewer
/// than there are secrets means that the next one could not be staged, and then the
/// staged files are dropped.
pub open spec fn rotation_work(
    files: Files,
    list: Seq<Seq<char>>,
    key: Seq<u8>,
    cts: Seq<Seq<u8>>,
) -> Outcome<nat> {
    let paths = listing::walked(files, secrets::top());
    let drop = moves::dropped(files, ROTATE_DIR@);
    let f1 = tree::replayed(files, drop);
    let writes = staged_writes(paths, cts);
    let f2 = tree::replayed(f1, writes);
    let fault = rotation_fault(f1, paths, key, cts.len() as int);
    if fault is Some {
        Outcome {
            effects: drop + writes + moves::dropped(f2, ROTATE_DIR@),
            result: Err(fault->0),
        }
    } else {
        let f3 = tree::replayed(f2, marker_writes(list));
        let commit = rotation_commit(f3);
        Outcome {
            effects: drop + writes + marker_writes(list) + commit.effects,
            result: match commit.result {
                Err(e) => Err(e),
                Ok(_) => Ok(paths.len()),
            },
        }
    }
}

/// Whether a tree came from another by re-encrypting all secrets.
pub open spec fn reencrypted(
    before: Tree,
    after: Tree,
    list: Seq<Seq<char>>,
    key: Seq<u8>,
    result: Result<usize, Error>,
) -> bool {
    exists|cts: Seq<Seq<u8>>|
        #![trigger rotation_work(before.files(), list, key, cts)]
        reencrypts(before.files(), list, key, cts) && tree::advanced(
            before,
            after,
            rotation_work(before.files(), list, key, cts).effects,
        ) && match (result, rotation_work(before.files(), list, key, cts).result) {
            (Ok(n), Ok(m)) => n == m,
            (Err(e), Err(f)) => e@ == f,
            _ => false,
        }
}

/// Whether ciphertexts are those that a rotation makes: one for each secret, up to
/// the first that cannot be staged.
pub open spec fn reencrypts(
    files: Files,
    list: Seq<Seq<char>>,
    key: Seq<u8>,
    cts: Seq<Seq<u8>>,
) -> bool {
    let paths = listing::walked(files, secrets::top());
    let f1 = tree::replayed(files, moves::dropped(files, ROTATE_DIR@));
    &&& rotates_first(f1, paths, key, list, cts)
    &&& cts.len() < paths.len() ==> rotation_fault(f1, paths, key, cts.len() as int) is Some
}

/// Dropping a staging directory leaves the listed secrets.
proof fn lemma_dropping_keeps_listed(files: Files, p: Seq<char>)
    requires
        listing::listed(files, secrets::top(), p),
    ensures
        listing::listed(
            tree::replayed(files, moves::dropped(files, ROTATE_DIR@)),
            secrets::top(),
            p,
        ),
{
    reveal_strlit(".ks-rotate");
    assert(!ROTATE_DIR@.contains('/'));
    lemma_visible_not_hidden(ROTATE_DIR@, p);
    let e = Effect::RemoveTree { dir: ROTATE_DIR@ };
    tree::lemma_replayed_push(files, Seq::empty(), e);
    assert(Seq::empty().push(e) =~= seq![e]);
}

/// Stages a rotation: encrypts the secrets at some paths to new recipients, and
/// commits. If a secret cannot be staged, it stops there.
pub fn stage_rotation(
    t: &mut Tree,
    paths: &[String],
    new_recipients: &[Recipient],
    identity: &Identity,
) -> (r: Result<(), Error>)
    requires
        old(t).wf(),
        new_recipients@.len() > 0,
        encrypts_any(old(t).files(), text::views(paths@), identity@) ==> crypto::usable(
            crypto::texts(new_recipients@),
        ),
        forall|i: int|
            0 <= i < paths@.len() ==> listing::listed(
                old(t).files(),
                secrets::top(),
                #[trigger] text::views(paths@)[i],
            ),
    ensures
        exists|cts: Seq<Seq<u8>>|
            #![trigger staged_writes(text::views(paths@), cts)]
            staged_rotation(
                *old(t),
                *final(t),
                text::views(paths@),
                crypto::texts(new_recipients@),
                identity@,
                cts,
                r,
            ),
{
    let ghost t0 = *t;
    let ghost all = text::views(paths@);
    let ghost list = crypto::texts(new_recipients@);
    let ghost none = Seq::<Seq<u8>>::empty();
    proof {
        tree::lemma_advanced_none(t0);
        assert(staged_writes(all, none) =~= Seq::empty());
    }
    match load_index(t) {
        Ok(_) => {},
        Err(e) => {
            assert(staged_rotation(t0, *t, all, list, identity@, none, Err(e)));
            return Err(e);
        },
    }
    let staged = stage_secrets(t, paths, new_recipients, identity);
    let ghost t1 = *t;
    let ghost cts = choose|cts: Seq<Seq<u8>>|
        #![trigger staged_writes(all, cts)]
        rotates_first(t0.files(), all, identity@, list, cts) && tree::advanced(
            t0,
            t1,
            staged_writes(all, cts),
        ) && match staged {
            Ok(_) => cts.len() == paths@.len() && (paths@.len() > 0
                ==> !t0.files().contains_key(ROTATE_DIR@)),
            Err(e) => cts.len() < paths@.len() && staging_fault(
                t0.files(),
                all[cts.len() as int],
                identity@,
            ) == Some(e@),
        };
    match staged {
        Ok(_) => {},
        Err(e) => {
            assert(staged_rotation(t0, *t, all, list, identity@, cts, Err(e)));
            return Err(e);
        },
    }
    proof {
        if paths@.len() == 0 {
            assert(staged_writes(all, cts) =~= Seq::empty());
        }
    }
    if paths.len() == 0 && t.has_file(ROTATE_DIR) {
        let name = copy_text(ROTATE_RECIPIENTS);
        assert(staged_rotation(
            t0,
            *t,
            all,
            list,
            identity@,
            cts,
            Err(Error::NotAFile(name)),
        ));
        return Err(Error::NotAFile(name));
    }
    let body = render_recipients(new_recipients);
    t.write(ROTATE_RECIPIENTS, body.as_slice());
    let ghost t2 = *t;
    let empty: Vec<u8> = Vec::new();
    t.write(ROTATE_READY, empty.as_slice());
    proof {
        let marks = marker_writes(list);
        assert(empty@ =~= Seq::<u8>::empty());
        tree::lemma_advanced_none(t1);
        tree::lemma_advanced_push(t1, t1, t2, Seq::empty(), marks[0]);
        tree::lemma_advanced_push(t1, t2, *t, Seq::empty().push(marks[0]), marks[1]);
        assert(Seq::empty().push(marks[0]).push(marks[1]) =~= marks);
        tree::lemma_advanced_concat(t0, t1, *t, staged_writes(all, cts), marks);
        assert(staged_rotation(t0, *t, all, list, identity@, cts, Ok(())));
    }
    Ok(())
}

/// Whether a tree came from another by staging a rotation, with the ciphertexts that
/// were made: all of them and the markers, or those up to where it stopped.
pub open spec fn staged_rotation(
    before: Tree,
    after: Tree,
    paths: Seq<Seq<char>>,
    list: Seq<Seq<char>>,
    key: Seq<u8>,
    cts: Seq<Seq<u8>>,
    result: Result<(), Error>,
) -> bool {
    let fault = rotation_fault(before.files(), paths, key, cts.len() as int);
    &&& rotates_first(before.files(), paths, key, list, cts)
    &&& match result {
        Ok(_) => fault is None && cts.len() == paths.len() && tree::advanced(
            before,
            after,
            staged_writes(paths, cts) + marker_writes(list),
        ),
        Err(e) => fault == Some(e@) && tree::advanced(before, after, staged_writes(paths, cts)),
    }
}

/// Re-encrypts every secret to new recipients: stages the rotation and completes it,
/// or drops what was staged where a secret cannot be read.
pub fn reencrypt(t: &mut Tree, new_recipients: &[Recipient], identity: &Identity) -> (r: Result<
    usize,
    Error,
>)
    requires
        old(t).wf(),
        new_recipients@.len() > 0,
        reencryption_encrypts(old(t).files(), identity@) ==> crypto::usable(
            crypto::texts(new_recipients@),
        ),
    ensures
        reencrypted(*old(t), *final(t), crypto::texts(new_recipients@), identity@, r),
{
    let ghost t0 = *t;
    let ghost list = crypto::texts(new_recipients@);
    let ghost key = identity@;
    proof {
        reveal_strlit("");
        assert(""@ =~= secrets::top());
    }
    let paths = walk(t, "");
    let ghost all = text::views(paths@);
    remove_staging(t, ROTATE_DIR);
    let ghost t1 = *t;
    let ghost drop = moves::dropped(t0.files(), ROTATE_DIR@);
    proof {
        assert forall|i: int| 0 <= i < all.len() implies listing::listed(
            t1.files(),
            secrets::top(),
            #[trigger] all[i],
        ) by {
            assert(all.contains(all[i]));
            lemma_dropping_keeps_listed(t0.files(), all[i]);
        }
    }
    let staged = stage_rotation(t, paths.as_slice(), new_recipients, identity);
    let ghost t2 = *t;
    let ghost marks = marker_writes(list);
    let ghost cts = choose|cts: Seq<Seq<u8>>|
        #![trigger staged_writes(all, cts)]
        staged_rotation(t1, t2, all, list, key, cts, staged);
    let ghost writes = staged_writes(all, cts);
    assert(reencrypts(t0.files(), list, key, cts));
    match staged {
        Ok(_) => {},
        Err(e) => {
            remove_staging(t, ROTATE_DIR);
            proof {
                tree::lemma_advanced_concat(t0, t1, t2, drop, writes);
                tree::lemma_advanced_concat(
                    t0,
                    t2,
                    *t,
                    drop + writes,
                    moves::dropped(t2.files(), ROTATE_DIR@),
                );
                assert(rotation_work(t0.files(), list, key, cts).effects == drop + writes
                    + moves::dropped(t2.files(), ROTATE_DIR@));
            }
            return Err(e);
        },
    }
    let done = commit_staged(t);
    proof {
        tree::lemma_replayed_concat(t1.files(), writes, marks);
        tree::lemma_advanced_concat(t0, t1, t2, drop, writes + marks);
        assert(drop + (writes + marks) =~= drop + writes + marks);
        tree::lemma_advanced_concat(
            t0,
            t2,
            *t,
            drop + writes + marks,
            rotation_commit(t2.files()).effects,
        );
        assert(rotation_work(t0.files(), list, key, cts).effects == drop + writes + marks
            + rotation_commit(t2.files()).effects);
    }
    match done {
        Ok(_) => Ok(paths.len()),
        Err(e) => Err(e),
    }
}

/// Resolves what was interrupted, and reads the recipient list anew.
pub fn prepare_rotation(t: &mut Tree, identity: &Identity) -> (r: Result<Vec<Recipient>, Error>)
    requires
        old(t).wf(),
    ensures
        tree::advanced(*old(t), *final(t), rotation_prelude(old(t).files(), identity@).effects),
        match rotation_prelude(old(t).files(), identity@).result {
            Ok(list) => r matches Ok(v) && crypto::texts(v@) == list,
            Err(f) => r matches Err(e) && e@ == f,
        },
{
    let ghost t0 = *t;
    match rollforward_or_back(t, identity) {
        Ok(_) => {},
        Err(e) => {
            return Err(e);
        },
    }
    let ghost t1 = *t;
    let second = rollforward_or_back_move(t, identity);
    proof {
        tree::lemma_advanced_concat(
            t0,
            t1,
            *t,
            rotation_recovery(t0.files(), identity@).effects,
            moves::move_recovery(t1.files(), identity@).effects,
        );
    }
    match second {
        Ok(_) => {},
        Err(e) => {
            return Err(e);
        },
    }
    load_recipients(t, RECIPIENTS_FILE)
}

/// A rotation stages the new ciphertext of each listed secret under its path, and then the
/// recipient list and the commit marker, the marker last.
pub proof fn law_marker_is_last(paths: Seq<Seq<char>>, cts: Seq<Seq<u8>>, list: Seq<Seq<char>>)
    ensures
        staged_writes(paths, cts).len() == cts.len(),
        forall|i: int|
            0 <= i < cts.len() ==> (#[trigger] staged_writes(paths, cts)[i]) == (Effect::Write {
                file: ".ks-rotate/secrets/"@ + paths[i] + ".age"@,
                bytes: cts[i],
            }),
        marker_writes(list).len() == 2,
        marker_writes(list)[0] == (Effect::Write {
            file: ".ks-rotate/RECIPIENTS"@,
            bytes: recipients::recipients_body(list),
        }),
        marker_writes(list)[1] is Write && marker_writes(list)[1]->Write_file
            == ".ks-rotate/READY"@,
{
    assert forall|i: int| 0 <= i < cts.len() implies (#[trigger] staged_writes(paths, cts)[i]) == (
    Effect::Write { file: ".ks-rotate/secrets/"@ + paths[i] + ".age"@, bytes: cts[i] }) by {
        path::law_file_name(".ks-rotate/secrets/"@, paths[i]);
    }
}

} // verus!
