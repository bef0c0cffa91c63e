//! Moving and copying secrets.
//!
//! A secret is bound to its path, so both decrypt it and encrypt it again for the
//! new path. A move is staged in `.ks-move/`: the new ciphertext, the two paths and
//! the generation, and last a file `READY`. From then on the move is committed. If
//! it is interrupted before that, the staged files are dropped; if after, it is
//! completed.

use vstd::prelude::*;
use vstd::utf8;

use crate::crypto;
use crate::crypto::{Identity, Recipient};
use crate::envelope;
use crate::envelope::{parse_generation, Unwrapped};
use crate::error;
use crate::error::{Error, Failure};
use crate::generations;
use crate::guard::Guarded;
use crate::path;
use crate::path::{to_file, validate};
use crate::secret::Payload;
use crate::secrets;
use crate::secrets::{
    check, encrypt_secret_to, load_index, relocate_paths, save_index, to_live_file, unseal_at,
    write_secret,
};
use crate::text;
use crate::text::{copy_text, number_text, trim, utf8_text};
use crate::tree;
use crate::tree::{Effect, Files, Outcome, Tree};

verus! {

/// The directory in which a move is staged.
pub const MOVE_DIR: &'static str = ".ks-move";

/// What stands before the staged ciphertext's path.
pub const MOVE_SECRETS: &'static str = ".ks-move/secrets/";

/// The file that commits a staged move.
pub const MOVE_READY: &'static str = ".ks-move/READY";

/// The file with the path that a move leaves.
pub const MOVE_FROM: &'static str = ".ks-move/FROM";

/// The file with the path that a move goes to.
pub const MOVE_TO: &'static str = ".ks-move/TO";

/// The file with the generation of the moved secret.
pub const MOVE_GEN: &'static str = ".ks-move/GEN";

/// What was found when an interrupted move was looked for.
#[derive(Debug, Clone, Copy, PartialEq, Eq, Structural)]
pub enum MoveRecovery {
    /// There was none.
    Clean,
    /// One that was not committed; it was dropped.
    RolledBack,
    /// One that was committed; it was completed.
    Completed,
}

impl View for MoveRecovery {
    type V = MoveRecovery;

    open spec fn view(&self) -> MoveRecovery {
        *self
    }
}

// ---------------------------------------------------------------------------
// Small files
// ---------------------------------------------------------------------------

/// The text of a file, without white space around it.
pub open spec fn text_at(files: Files, file: Seq<char>) -> Result<Seq<char>, Failure> {
    match tree::contents(files, file) {
        Err(e) => Err(e),
        Ok(bytes) => if utf8::valid_utf8(bytes) {
            Ok(text::trimmed(utf8::decode_utf8(bytes)))
        } else {
            Err(Failure::InvalidData(text::utf8_error(bytes)))
        },
    }
}

/// The generation that a file holds.
pub open spec fn generation_at(files: Files, file: Seq<char>) -> Result<u64, Failure> {
    match text_at(files, file) {
        Err(e) => Err(e),
        Ok(s) => match envelope::generation_of(utf8::encode_utf8(s)) {
            Ok(n) => Ok(n),
            Err(reason) => Err(Failure::InvalidData(reason)),
        },
    }
}

/// Reads the text of a file.
fn read_text_file(t: &Tree, file: &str) -> (r: Result<String, Error>)
    requires
        t.wf(),
    ensures
        error::agrees(r, text_at(t.files(), file@)),
{
    match t.read(file) {
        Err(e) => Err(e),
        Ok(bytes) => match utf8_text(bytes.as_slice()) {
            Ok(s) => Ok(trim(s)),
            Err(reason) => Err(Error::InvalidData(reason)),
        },
    }
}

/// Reads the generation that a file holds.
fn read_gen_file(t: &Tree, file: &str) -> (r: Result<u64, Error>)
    requires
        t.wf(),
    ensures
        error::agrees(r, generation_at(t.files(), file@)),
{
    match read_text_file(t, file) {
        Err(e) => Err(e),
        Ok(s) => match parse_generation(s.as_str().as_bytes()) {
            Ok(n) => Ok(n),
            Err(reason) => Err(Error::InvalidData(reason)),
        },
    }
}

/// The change that drops a staging directory, if there is one.
pub open spec fn dropped(files: Files, dir: Seq<char>) -> Seq<Effect> {
    if tree::present(files, dir) {
        seq![Effect::RemoveTree { dir }]
    } else {
        Seq::empty()
    }
}

/// Drops a staging directory, if there is one.
pub fn remove_staging(t: &mut Tree, dir: &str)
    requires
        old(t).wf(),
    ensures
        tree::advanced(*old(t), *final(t), dropped(old(t).files(), dir@)),
{
    let ghost t0 = *t;
    proof {
        tree::lemma_advanced_none(t0);
    }
    if t.is_present(dir) {
        t.remove_tree(dir);
        proof {
            let e = Effect::RemoveTree { dir: dir@ };
            tree::lemma_advanced_push(t0, t0, *t, Seq::empty(), e);
            assert(Seq::empty().push(e) =~= seq![e]);
        }
    }
}

/// The change that drops a staging directory without its commit marker.
pub open spec fn discarded(files: Files, dir: Seq<char>, ready: Seq<char>) -> Seq<Effect> {
    if tree::present(files, dir) && !tree::present(files, ready) {
        seq![Effect::RemoveTree { dir }]
    } else {
        Seq::empty()
    }
}

/// Drops a staging directory that was not committed.
pub fn discard_if_incomplete(t: &mut Tree, dir: &str, ready: &str)
    requires
        old(t).wf(),
    ensures
        tree::advanced(*old(t), *final(t), discarded(old(t).files(), dir@, ready@)),
{
    let ghost t0 = *t;
    proof {
        tree::lemma_advanced_none(t0);
    }
    if t.is_present(dir) && !t.is_present(ready) {
        remove_staging(t, dir);
    }
}

// ---------------------------------------------------------------------------
// Committing a staged move
// ---------------------------------------------------------------------------

/// What a staged move says.
#[verifier::ext_equal]
pub struct MoveNote {
    pub from: Seq<char>,
    pub to: Seq<char>,
    pub generation: u64,
}

/// The move that is staged in a tree.
pub open spec fn noted_move(files: Files) -> Result<MoveNote, Failure> {
    match text_at(files, MOVE_FROM@) {
        Err(e) => Err(e),
        Ok(from) => match text_at(files, MOVE_TO@) {
            Err(e) => Err(e),
            Ok(to) => if !path::valid_path(from) {
                Err(Failure::InvalidPath(from))
            } else if !path::valid_path(to) {
                Err(Failure::InvalidPath(to))
            } else {
                match generation_at(files, MOVE_GEN@) {
                    Err(e) => Err(e),
                    Ok(generation) => Ok(MoveNote { from, to, generation }),
                }
            },
        },
    }
}

struct Note {
    from: String,
    to: String,
    generation: u64,
}

impl View for Note {
    type V = MoveNote;

    closed spec fn view(&self) -> MoveNote {
        MoveNote { from: self.from@, to: self.to@, generation: self.generation }
    }
}

/// Reads the move that is staged.
fn read_note(t: &Tree) -> (r: Result<Note, Error>)
    requires
        t.wf(),
    ensures
        error::agrees(r, noted_move(t.files())),
{
    let from = match read_text_file(t, MOVE_FROM) {
        Ok(s) => s,
        Err(e) => {
            return Err(e);
        },
    };
    let to = match read_text_file(t, MOVE_TO) {
        Ok(s) => s,
        Err(e) => {
            return Err(e);
        },
    };
    match validate(from.as_str()) {
        Ok(_) => {},
        Err(e) => {
            return Err(e);
        },
    }
    match validate(to.as_str()) {
        Ok(_) => {},
        Err(e) => {
            return Err(e);
        },
    }
    match read_gen_file(t, MOVE_GEN) {
        Ok(generation) => Ok(Note { from, to, generation }),
        Err(e) => Err(e),
    }
}

/// The staged ciphertext for a path.
pub open spec fn staged_file(to: Seq<char>) -> Seq<char> {
    path::file_of(MOVE_SECRETS@, to)
}

/// Whether a committed move may be completed: its files are in order, and the
/// staged ciphertext opens at the new path with the identity. Where there is none
/// staged any more, the destination has to be in place.
pub open spec fn move_validity(files: Files, key: Seq<u8>) -> Result<(), Failure> {
    match noted_move(files) {
        Err(e) => Err(e),
        Ok(note) => if tree::present(files, staged_file(note.to)) {
            match secrets::unsealed_at(files, MOVE_SECRETS@, note.to, key) {
                Err(e) => Err(e),
                Ok(_) => Ok(()),
            }
        } else if !tree::present(files, secrets::live_file(note.to)) {
            Err(
                Failure::InvalidData(
                    "READY rename journal has no staged or live destination ciphertext"@,
                ),
            )
        } else {
            Ok(())
        },
    }
}

/// Checks that a committed move may be completed.
fn validate_ready_move(t: &Tree, identity: &Identity) -> (r: Result<(), Error>)
    requires
        t.wf(),
    ensures
        error::agrees(r, move_validity(t.files(), identity@)),
{
    let note = match read_note(t) {
        Ok(n) => n,
        Err(e) => {
            return Err(e);
        },
    };
    let staged = to_file(MOVE_SECRETS, note.to.as_str());
    let live = to_live_file(note.to.as_str());
    if t.is_present(staged.as_str()) {
        match unseal_at(t, MOVE_SECRETS, note.to.as_str(), identity) {
            Ok(_) => Ok(()),
            Err(e) => Err(e),
        }
    } else if !t.is_present(live.as_str()) {
        Err(
            Error::InvalidData(
                copy_text("READY rename journal has no staged or live destination ciphertext"),
            ),
        )
    } else {
        Ok(())
    }
}

/// The change that puts the staged ciphertext in place, if it is still staged.
pub open spec fn install_effects(files: Files, to: Seq<char>) -> Seq<Effect> {
    if files.contains_key(staged_file(to)) {
        seq![Effect::Replace { from: staged_file(to), to: secrets::live_file(to) }]
    } else {
        Seq::empty()
    }
}

/// The change that removes the source, if it is still there.
pub open spec fn source_effects(files: Files, from: Seq<char>) -> Seq<Effect> {
    let src = secrets::live_file(from);
    if files.contains_key(src) {
        seq![Effect::Remove { file: src, emptied: tree::emptied(files, src) }]
    } else {
        Seq::empty()
    }
}

/// The changes that end a move: the index gets the new path, and keeps the old
/// one; then the staged files go.
pub open spec fn finish_effects(files: Files, to: Seq<char>, generation: u64) -> Seq<Effect> {
    let write = secrets::index_write(secrets::index_in(files).insert(to, generation));
    seq![write] + dropped(tree::applied(files, write), MOVE_DIR@)
}

/// What completing a staged move does. The source is removed only when the
/// destination is in place, and the index is written last.
pub open spec fn move_commit(files: Files) -> Outcome<()> {
    match noted_move(files) {
        Err(e) => tree::failed(Seq::empty(), e),
        Ok(note) => {
            let install = install_effects(files, note.to);
            let f1 = tree::replayed(files, install);
            let src = secrets::live_file(note.from);
            let dst = secrets::live_file(note.to);
            if files.contains_key(staged_file(note.to)) && tree::blocked(files, dst) {
                tree::failed(Seq::empty(), Failure::NotAFile(dst))
            } else if !tree::present(f1, dst) {
                tree::failed(
                    install,
                    Failure::InvalidData(
                        "refusing to delete rename source without destination ciphertext"@,
                    ),
                )
            } else if tree::present(f1, src) && !f1.contains_key(src) {
                tree::failed(install, Failure::NotAFile(src))
            } else {
                let removal = source_effects(f1, note.from);
                let f2 = tree::replayed(f1, removal);
                match secrets::index_at(f2) {
                    Err(e) => tree::failed(install + removal, e),
                    Ok(_) => Outcome {
                        effects: install + removal + finish_effects(f2, note.to, note.generation),
                        result: Ok(()),
                    },
                }
            }
        },
    }
}

/// Completes a staged move.
fn commit_move(t: &mut Tree) -> (r: Result<(), Error>)
    requires
        old(t).wf(),
    ensures
        tree::advanced(*old(t), *final(t), move_commit(old(t).files()).effects),
        error::agrees(r, move_commit(old(t).files()).result),
{
    let ghost t0 = *t;
    proof {
        tree::lemma_advanced_none(t0);
    }
    let note = match read_note(t) {
        Ok(n) => n,
        Err(e) => {
            return Err(e);
        },
    };
    let staged = to_file(MOVE_SECRETS, note.to.as_str());
    let live = to_live_file(note.to.as_str());
    let ghost install = install_effects(t0.files(), note.to@);
    if t.has_file(staged.as_str()) {
        if t.is_blocked(live.as_str()) {
            return Err(Error::NotAFile(live));
        }
        t.replace(staged.as_str(), live.as_str());
        proof {
            let e = Effect::Replace { from: staged@, to: live@ };
            tree::lemma_advanced_push(t0, t0, *t, Seq::empty(), e);
            assert(Seq::empty().push(e) =~= install);
        }
    }
    assert(tree::advanced(t0, *t, install));
    let ghost t1 = *t;
    proof {
        tree::lemma_advanced_none(t1);
    }
    if !t.is_present(live.as_str()) {
        return Err(
            Error::InvalidData(
                copy_text("refusing to delete rename source without destination ciphertext"),
            ),
        );
    }
    let src = to_live_file(note.from.as_str());
    let ghost removal = source_effects(t1.files(), note.from@);
    if t.is_present(src.as_str()) {
        if !t.has_file(src.as_str()) {
            return Err(Error::NotAFile(src));
        }
        t.remove(src.as_str());
        proof {
            let e = Effect::Remove { file: src@, emptied: tree::emptied(t1.files(), src@) };
            tree::lemma_advanced_push(t1, t1, *t, Seq::empty(), e);
            assert(Seq::empty().push(e) =~= removal);
        }
    }
    assert(tree::advanced(t1, *t, removal));
    let ghost t2 = *t;
    proof {
        tree::lemma_advanced_concat(t0, t1, t2, install, removal);
    }
    let mut gens = match load_index(t) {
        Ok(g) => g,
        Err(e) => {
            return Err(e);
        },
    };
    let to = copy_text(note.to.as_str());
    gens.set(to, note.generation);
    save_index(t, &gens);
    let ghost t3 = *t;
    remove_staging(t, MOVE_DIR);
    proof {
        let write = secrets::index_write(
            secrets::index_in(t2.files()).insert(note.to@, note.generation),
        );
        tree::lemma_advanced_none(t2);
        tree::lemma_advanced_push(t2, t2, t3, Seq::empty(), write);
        assert(Seq::empty().push(write) =~= seq![write]);
        tree::lemma_advanced_concat(
            t2,
            t3,
            *t,
            seq![write],
            dropped(t3.files(), MOVE_DIR@),
        );
        tree::lemma_advanced_concat(
            t0,
            t2,
            *t,
            install + removal,
            finish_effects(t2.files(), note.to@, note.generation),
        );
    }
    Ok(())
}

// ---------------------------------------------------------------------------
// Recovery
// ---------------------------------------------------------------------------

/// What resolving an interrupted move does: nothing if there is none; drop one that
/// was not committed; complete one that was, if it is valid.
pub open spec fn move_recovery(files: Files, key: Seq<u8>) -> Outcome<MoveRecovery> {
    if !tree::present(files, MOVE_DIR@) {
        Outcome { effects: Seq::empty(), result: Ok(MoveRecovery::Clean) }
    } else if !tree::present(files, MOVE_READY@) {
        Outcome {
            effects: seq![Effect::RemoveTree { dir: MOVE_DIR@ }],
            result: Ok(MoveRecovery::RolledBack),
        }
    } else {
        match move_validity(files, key) {
            Err(e) => tree::failed(Seq::empty(), e),
            Ok(_) => Outcome {
                effects: move_commit(files).effects,
                result: match move_commit(files).result {
                    Ok(_) => Ok(MoveRecovery::Completed),
                    Err(e) => Err(e),
                },
            },
        }
    }
}

/// Resolves an interrupted move.
pub fn rollforward_or_back_move(t: &mut Tree, identity: &Identity) -> (r: Result<
    MoveRecovery,
    Error,
>)
    requires
        old(t).wf(),
    ensures
        tree::advanced(*old(t), *final(t), move_recovery(old(t).files(), identity@).effects),
        error::agrees(r, move_recovery(old(t).files(), identity@).result),
{
    proof {
        tree::lemma_advanced_none(*t);
    }
    if !t.is_present(MOVE_DIR) {
        return Ok(MoveRecovery::Clean);
    }
    if t.is_present(MOVE_READY) {
        match validate_ready_move(t, identity) {
            Ok(_) => {},
            Err(e) => {
                return Err(e);
            },
        }
        match commit_move(t) {
            Ok(_) => Ok(MoveRecovery::Completed),
            Err(e) => Err(e),
        }
    } else {
        remove_staging(t, MOVE_DIR);
        Ok(MoveRecovery::RolledBack)
    }
}

// ---------------------------------------------------------------------------
// Moving and copying
// ---------------------------------------------------------------------------

/// The changes that stage a move, the commit marker last.
pub open spec fn staging_effects(
    from: Seq<char>,
    to: Seq<char>,
    generation: u64,
    ciphertext: Seq<u8>,
) -> Seq<Effect> {
    seq![
        Effect::Write { file: staged_file(to), bytes: ciphertext },
        Effect::Write { file: MOVE_FROM@, bytes: utf8::encode_utf8(from) },
        Effect::Write { file: MOVE_TO@, bytes: utf8::encode_utf8(to) },
        Effect::Write { file: MOVE_GEN@, bytes: text::decimal_bytes(generation as nat) },
        Effect::Write { file: MOVE_READY@, bytes: Seq::empty() },
    ]
}

/// Whether a ciphertext is that of the secret at `from`, if it can be read, for the
/// next write at `to`.
pub open spec fn reseals(
    files: Files,
    from: Seq<char>,
    to: Seq<char>,
    key: Seq<u8>,
    recipients: Seq<Seq<char>>,
    ciphertext: Seq<u8>,
) -> bool {
    secrets::checked(files, from, key) matches Ok(c) ==> secrets::seals_next(
        files,
        to,
        Payload { bytes: c.payload, kind: c.kind },
        recipients,
        ciphertext,
    )
}

/// The files that a move finds, once an interrupted one is out of the way.
pub open spec fn settled(files: Files, key: Seq<u8>) -> Files {
    tree::replayed(files, move_recovery(files, key).effects)
}

/// Whether a ciphertext is the one that a move needs, if it comes to needing one.
pub open spec fn move_reseals(
    files: Files,
    from: Seq<char>,
    to: Seq<char>,
    key: Seq<u8>,
    recipients: Seq<Seq<char>>,
    ciphertext: Seq<u8>,
) -> bool {
    secrets::relocation(files, from, to) is Ok && move_recovery(files, key).result is Ok
        ==> reseals(settled(files, key), from, to, key, recipients, ciphertext)
}

/// What reading a secret to move or copy it gives. The index is read first.
pub open spec fn relocatable(files: Files, from: Seq<char>, key: Seq<u8>) -> Result<
    envelope::Contents,
    Failure,
> {
    match secrets::index_at(files) {
        Err(e) => Err(e),
        Ok(_) => secrets::checked(files, from, key),
    }
}

/// Whether a move comes to encrypting the secret for its new path.
pub open spec fn move_encrypts(
    files: Files,
    from: Seq<char>,
    to: Seq<char>,
    key: Seq<u8>,
) -> bool {
    &&& secrets::relocation(files, from, to) is Ok
    &&& move_recovery(files, key).result is Ok
    &&& relocatable(settled(files, key), from, key) is Ok
}

/// Whether a copy comes to encrypting the secret for its new path.
pub open spec fn copy_encrypts(
    files: Files,
    from: Seq<char>,
    to: Seq<char>,
    key: Seq<u8>,
) -> bool {
    secrets::relocation(files, from, to) is Ok && relocatable(files, from, key) is Ok
}

/// Reads a secret that is to be moved or copied.
pub fn check_source(t: &Tree, from: &str, identity: &Identity) -> (r: Result<Unwrapped, Error>)
    requires
        t.wf(),
    ensures
        error::agrees(r, relocatable(t.files(), from@, identity@)),
{
    match load_index(t) {
        Ok(_) => check(t, from, identity),
        Err(e) => Err(e),
    }
}

/// What moving a secret does, given the ciphertext for the new path: an interrupted
/// move is resolved first; then the move is staged and completed. Nothing can be
/// staged where a file has the name of the staging directory.
pub open spec fn move_outcome(
    files: Files,
    from: Seq<char>,
    to: Seq<char>,
    key: Seq<u8>,
    ciphertext: Seq<u8>,
) -> Outcome<()> {
    match secrets::relocation(files, from, to) {
        Err(e) => tree::failed(Seq::empty(), e),
        Ok(_) => {
            let recovery = move_recovery(files, key);
            match recovery.result {
                Err(e) => tree::failed(recovery.effects, e),
                Ok(_) => {
                    let f1 = settled(files, key);
                    match relocatable(f1, from, key) {
                        Err(e) => tree::failed(recovery.effects, e),
                        Ok(_) => if f1.contains_key(MOVE_DIR@) {
                            tree::failed(
                                recovery.effects + dropped(f1, MOVE_DIR@),
                                Failure::NotAFile(staged_file(to)),
                            )
                        } else {
                            let stage = dropped(f1, MOVE_DIR@) + staging_effects(
                                from,
                                to,
                                generations::next_generation(secrets::index_in(f1), to),
                                ciphertext,
                            );
                            let commit = move_commit(tree::replayed(f1, stage));
                            Outcome {
                                effects: recovery.effects + stage + commit.effects,
                                result: commit.result,
                            }
                        },
                    }
                },
            }
        },
    }
}

/// Stages a move.
fn stage_move(t: &mut Tree, from: &str, to: &str, generation: u64, ciphertext: &[u8])
    requires
        old(t).wf(),
    ensures
        tree::advanced(
            *old(t),
            *final(t),
            staging_effects(from@, to@, generation, ciphertext@),
        ),
{
    let ghost t0 = *t;
    let ghost all = staging_effects(from@, to@, generation, ciphertext@);
    let staged = to_file(MOVE_SECRETS, to);
    t.write(staged.as_str(), ciphertext);
    let ghost t1 = *t;
    t.write(MOVE_FROM, from.as_bytes());
    let ghost t2 = *t;
    t.write(MOVE_TO, to.as_bytes());
    let ghost t3 = *t;
    let digits = number_text(generation);
    t.write(MOVE_GEN, digits.as_str().as_bytes());
    let ghost t4 = *t;
    let none: Vec<u8> = Vec::new();
    t.write(MOVE_READY, none.as_slice());
    proof {
        text::lemma_decimal_encoding(generation as nat);
        assert(none@ =~= Seq::<u8>::empty());
        tree::lemma_advanced_none(t0);
        tree::lemma_advanced_push(t0, t0, t1, Seq::empty(), all[0]);
        tree::lemma_advanced_push(t0, t1, t2, Seq::empty().push(all[0]), all[1]);
        tree::lemma_advanced_push(t0, t2, t3, Seq::empty().push(all[0]).push(all[1]), all[2]);
        tree::lemma_advanced_push(
            t0,
            t3,
            t4,
            Seq::empty().push(all[0]).push(all[1]).push(all[2]),
            all[3],
        );
        tree::lemma_advanced_push(
            t0,
            t4,
            *t,
            Seq::empty().push(all[0]).push(all[1]).push(all[2]).push(all[3]),
            all[4],
        );
        assert(Seq::empty().push(all[0]).push(all[1]).push(all[2]).push(all[3]).push(all[4])
            =~= all);
    }
}

/// Whether a tree came from another by a move.
pub open spec fn moved(
    before: Tree,
    after: Tree,
    from: Seq<char>,
    to: Seq<char>,
    key: Seq<u8>,
    recipients: Seq<Seq<char>>,
    result: Result<(), Error>,
) -> bool {
    exists|ct: Seq<u8>|
        #![trigger move_outcome(before.files(), from, to, key, ct)]
        move_reseals(before.files(), from, to, key, recipients, ct) && tree::advanced(
            before,
            after,
            move_outcome(before.files(), from, to, key, ct).effects,
        ) && error::agrees(result, move_outcome(before.files(), from, to, key, ct).result)
}

/// Moves a secret.
pub fn rename_secret(
    t: &mut Tree,
    from: &str,
    to: &str,
    identity: &Identity,
    recipients: &[Recipient],
) -> (r: Result<(), Error>)
    requires
        old(t).wf(),
        recipients@.len() > 0,
        move_encrypts(old(t).files(), from@, to@, identity@) ==> crypto::usable(
            crypto::texts(recipients@),
        ),
    ensures
        moved(
            *old(t),
            *final(t),
            from@,
            to@,
            identity@,
            crypto::texts(recipients@),
            r,
        ),
{
    let ghost t0 = *t;
    let ghost key = identity@;
    let ghost list = crypto::texts(recipients@);
    let ghost f1 = settled(t0.files(), key);
    proof {
        tree::lemma_advanced_none(t0);
    }
    match relocate_paths(t, from, to) {
        Ok(_) => {},
        Err(e) => {
            proof {
                let ct = Seq::<u8>::empty();
                assert(move_reseals(t0.files(), from@, to@, key, list, ct));
                assert(move_outcome(t0.files(), from@, to@, key, ct).effects
                    == Seq::<Effect>::empty());
            }
            return Err(e);
        },
    }
    match rollforward_or_back_move(t, identity) {
        Ok(_) => {},
        Err(e) => {
            proof {
                let ct = Seq::<u8>::empty();
                assert(move_reseals(t0.files(), from@, to@, key, list, ct));
                assert(move_outcome(t0.files(), from@, to@, key, ct).effects == move_recovery(
                    t0.files(),
                    key,
                ).effects);
            }
            return Err(e);
        },
    }
    let ghost t1 = *t;
    let gens = match load_index(t) {
        Ok(g) => g,
        Err(e) => {
            proof {
                let ct = Seq::<u8>::empty();
                assert(reseals(f1, from@, to@, key, list, ct));
                assert(move_outcome(t0.files(), from@, to@, key, ct).effects == move_recovery(
                    t0.files(),
                    key,
                ).effects);
            }
            return Err(e);
        },
    };
    let next = gens.next(to);
    let Unwrapped { kind, payload, .. } = match check(t, from, identity) {
        Ok(u) => u,
        Err(e) => {
            proof {
                let ct = Seq::<u8>::empty();
                assert(reseals(f1, from@, to@, key, list, ct));
                assert(move_outcome(t0.files(), from@, to@, key, ct).effects == move_recovery(
                    t0.files(),
                    key,
                ).effects);
            }
            return Err(e);
        },
    };
    let payload = Guarded::new(payload);
    let ciphertext = encrypt_secret_to(to, kind, next, payload.as_bytes(), recipients).unwrap();
    let ghost ct = ciphertext@;
    let occupied = t.has_file(MOVE_DIR);
    remove_staging(t, MOVE_DIR);
    let ghost t2 = *t;
    if occupied {
        proof {
            let recovery = move_recovery(t0.files(), key).effects;
            tree::lemma_advanced_concat(t0, t1, t2, recovery, dropped(t1.files(), MOVE_DIR@));
            assert(reseals(f1, from@, to@, key, list, ct));
            assert(move_outcome(t0.files(), from@, to@, key, ct).effects == recovery + dropped(
                t1.files(),
                MOVE_DIR@,
            ));
        }
        return Err(Error::NotAFile(to_file(MOVE_SECRETS, to)));
    }
    stage_move(t, from, to, next, ciphertext.as_slice());
    let ghost t3 = *t;
    let done = commit_move(t);
    proof {
        let recovery = move_recovery(t0.files(), key).effects;
        let drop = dropped(t1.files(), MOVE_DIR@);
        let staging = staging_effects(from@, to@, next, ct);
        tree::lemma_advanced_concat(t1, t2, t3, drop, staging);
        tree::lemma_advanced_concat(t0, t1, t3, recovery, drop + staging);
        tree::lemma_advanced_concat(
            t0,
            t3,
            *t,
            recovery + (drop + staging),
            move_commit(t3.files()).effects,
        );
        assert(reseals(f1, from@, to@, key, list, ct));
        assert(move_outcome(t0.files(), from@, to@, key, ct).effects == recovery + (drop + staging)
            + move_commit(t3.files()).effects);
    }
    done
}

/// What copying a secret does, given the ciphertext for the new path.
pub open spec fn copy_outcome(
    files: Files,
    from: Seq<char>,
    to: Seq<char>,
    key: Seq<u8>,
    ciphertext: Seq<u8>,
) -> Outcome<()> {
    match secrets::relocation(files, from, to) {
        Err(e) => tree::failed(Seq::empty(), e),
        Ok(_) => match relocatable(files, from, key) {
            Err(e) => tree::failed(Seq::empty(), e),
            Ok(_) => secrets::write_outcome(files, to, ciphertext),
        },
    }
}

/// Whether a tree came from another by a copy.
pub open spec fn copied(
    before: Tree,
    after: Tree,
    from: Seq<char>,
    to: Seq<char>,
    key: Seq<u8>,
    recipients: Seq<Seq<char>>,
    result: Result<(), Error>,
) -> bool {
    exists|ct: Seq<u8>|
        #![trigger copy_outcome(before.files(), from, to, key, ct)]
        (secrets::relocation(before.files(), from, to) is Ok ==> reseals(
            before.files(),
            from,
            to,
            key,
            recipients,
            ct,
        )) && tree::advanced(
            before,
            after,
            copy_outcome(before.files(), from, to, key, ct).effects,
        ) && error::agrees(result, copy_outcome(before.files(), from, to, key, ct).result)
}

/// Copies a secret.
pub fn copy_secret(
    t: &mut Tree,
    from: &str,
    to: &str,
    identity: &Identity,
    recipients: &[Recipient],
) -> (r: Result<(), Error>)
    requires
        old(t).wf(),
        recipients@.len() > 0,
        copy_encrypts(old(t).files(), from@, to@, identity@) ==> crypto::usable(
            crypto::texts(recipients@),
        ),
    ensures
        copied(
            *old(t),
            *final(t),
            from@,
            to@,
            identity@,
            crypto::texts(recipients@),
            r,
        ),
{
    let ghost t0 = *t;
    let ghost key = identity@;
    let ghost list = crypto::texts(recipients@);
    proof {
        tree::lemma_advanced_none(t0);
    }
    match relocate_paths(t, from, to) {
        Ok(_) => {},
        Err(e) => {
            proof {
                let ct = Seq::<u8>::empty();
                assert(copy_outcome(t0.files(), from@, to@, key, ct).effects
                    == Seq::<Effect>::empty());
            }
            return Err(e);
        },
    }
    let Unwrapped { kind, payload, .. } = match check_source(t, from, identity) {
        Ok(u) => u,
        Err(e) => {
            proof {
                let ct = Seq::<u8>::empty();
                assert(reseals(t0.files(), from@, to@, key, list, ct));
                assert(copy_outcome(t0.files(), from@, to@, key, ct).effects
                    == Seq::<Effect>::empty());
            }
            return Err(e);
        },
    };
    let payload = Guarded::new(payload);
    let done = write_secret(t, to, kind, payload.as_bytes(), recipients);
    proof {
        let p = Payload { bytes: payload@, kind };
        let ct = choose|ct: Seq<u8>|
            #![trigger secrets::write_outcome(t0.files(), to@, ct)]
            secrets::seals_next(t0.files(), to@, p, list, ct) && tree::advanced(
                t0,
                *t,
                secrets::write_outcome(t0.files(), to@, ct).effects,
            ) && error::agrees(done, secrets::write_outcome(t0.files(), to@, ct).result);
        assert(reseals(t0.files(), from@, to@, key, list, ct));
        assert(copy_outcome(t0.files(), from@, to@, key, ct) == secrets::write_outcome(
            t0.files(),
            to@,
            ct,
        ));
    }
    done
}

/// A move that removes its source removes with it the directories that hold nothing else;
/// a source that is gone already is left.
pub proof fn law_source_is_pruned(files: Files, from: Seq<char>)
    ensures
        files.contains_key(from + ".age"@) ==> source_effects(files, from) == seq![
            Effect::Remove {
                file: from + ".age"@,
                emptied: tree::emptied(files, from + ".age"@),
            },
        ],
        !files.contains_key(from + ".age"@) ==> source_effects(files, from).len() == 0,
{
    secrets::law_holds(files, from);
}

} // verus!
