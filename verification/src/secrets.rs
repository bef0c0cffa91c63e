//! Single secrets in a tree: reading, writing, and the generation index.

use vstd::prelude::*;

use crate::crypto;
use crate::crypto::{decrypt, encrypt, Identity, Recipient};
use crate::envelope;
use crate::envelope::{unwrap, wrap, Contents, Unwrapped};
use crate::error;
use crate::error::{Error, Failure};
use crate::generations;
use crate::generations::{Generations, GENERATIONS_FILE};
use crate::path;
use crate::path::{is_valid, to_file, validate};
use crate::recipients;
use crate::recipients::parse_recipients;
use crate::secret::{Payload, Secret, SecretKind};
use crate::text;
use crate::text::copy_text;
use crate::tree;
use crate::tree::{Effect, Files, Outcome, Tree};

verus! {

/// The store's root.
pub open spec fn top() -> Seq<char> {
    Seq::empty()
}

/// The file of the secret at a path.
pub open spec fn live_file(logical: Seq<char>) -> Seq<char> {
    path::file_of(top(), logical)
}

/// The name of the file of the secret at a path.
pub fn to_live_file(logical: &str) -> (r: String)
    ensures
        r@ == live_file(logical@),
{
    proof {
        reveal_strlit("");
        assert(""@ =~= top());
    }
    to_file("", logical)
}

/// A secret's file is never the index or the recipient list.
pub proof fn lemma_live_file_name(logical: Seq<char>)
    ensures
        live_file(logical) != GENERATIONS_FILE@,
        live_file(logical) != recipients::RECIPIENTS_FILE@,
        live_file(logical).last() == 'e',
{
    reveal_strlit(".ks-generations");
    reveal_strlit(".age-recipients");
    assert(GENERATIONS_FILE@.last() == 's');
    assert(recipients::RECIPIENTS_FILE@.last() == 's');
    assert(live_file(logical).last() == 'e');
}

// ---------------------------------------------------------------------------
// The index and the recipient list
// ---------------------------------------------------------------------------

/// What reading the generation index of a tree gives. Without a file it is empty; a
/// directory in its place cannot be read.
pub open spec fn index_at(files: Files) -> Result<Map<Seq<char>, u64>, Failure> {
    if files.contains_key(GENERATIONS_FILE@) {
        Ok(generations::indexed(files[GENERATIONS_FILE@].bytes))
    } else if tree::has_dir(files, GENERATIONS_FILE@) {
        Err(Failure::NotAFile(GENERATIONS_FILE@))
    } else {
        Ok(Map::empty())
    }
}

/// The generation index of a tree, if it can be read; else one without entries.
pub open spec fn index_in(files: Files) -> Map<Seq<char>, u64> {
    match index_at(files) {
        Ok(m) => m,
        Err(_) => Map::empty(),
    }
}

/// Reads the generation index.
pub fn load_index(t: &Tree) -> (r: Result<Generations, Error>)
    requires
        t.wf(),
    ensures
        error::agrees(r, index_at(t.files())),
        r matches Ok(gens) ==> gens.wf(),
{
    match t.read(GENERATIONS_FILE) {
        Ok(bytes) => Ok(generations::parse(bytes.as_slice())),
        Err(Error::Missing(_)) => Ok(Generations::new()),
        Err(e) => Err(e),
    }
}

/// The index is the same in two trees that agree on its name.
pub proof fn lemma_same_index(a: Files, b: Files)
    requires
        a.contains_key(GENERATIONS_FILE@) == b.contains_key(GENERATIONS_FILE@),
        a.contains_key(GENERATIONS_FILE@) ==> a[GENERATIONS_FILE@].bytes
            == b[GENERATIONS_FILE@].bytes,
        forall|n: Seq<char>|
            tree::inside(GENERATIONS_FILE@, n) ==> (#[trigger] a.contains_key(n)
                <==> b.contains_key(n)),
    ensures
        index_at(a) == index_at(b),
        index_in(a) == index_in(b),
{
    tree::lemma_same_dir(a, b, GENERATIONS_FILE@);
}

/// The write of an index.
pub open spec fn index_write(m: Map<Seq<char>, u64>) -> Effect {
    Effect::Write { file: GENERATIONS_FILE@, bytes: generations::index_body(m) }
}

/// Writes the generation index.
pub fn save_index(t: &mut Tree, gens: &Generations)
    requires
        old(t).wf(),
        gens.wf(),
    ensures
        final(t).wf(),
        final(t).effects() == old(t).effects().push(index_write(gens@)),
        final(t).files() == tree::applied(old(t).files(), index_write(gens@)),
{
    let body = generations::render(gens);
    t.write(GENERATIONS_FILE, body.as_slice());
}

/// The recipients that a file of the tree lists. A file that does not exist lists
/// none, which is refused.
pub open spec fn recipients_at(files: Files, file: Seq<char>) -> Result<Seq<Seq<char>>, Failure> {
    match tree::contents(files, file) {
        Ok(bytes) => recipients::recipients_in(bytes),
        Err(Failure::Missing(_)) => Err(Failure::NoRecipients),
        Err(e) => Err(e),
    }
}

/// Reads a recipient list.
pub fn load_recipients(t: &Tree, file: &str) -> (r: Result<Vec<Recipient>, Error>)
    requires
        t.wf(),
    ensures
        match recipients_at(t.files(), file@) {
            Ok(list) => r matches Ok(v) && crypto::texts(v@) == list,
            Err(f) => r matches Err(e) && e@ == f,
        },
{
    match t.read(file) {
        Ok(bytes) => parse_recipients(bytes.as_slice()),
        Err(Error::Missing(_)) => Err(Error::NoRecipients),
        Err(e) => Err(e),
    }
}

// ---------------------------------------------------------------------------
// Reading
// ---------------------------------------------------------------------------

/// What is in the envelope of the secret at a path below `root`.
pub open spec fn unsealed_at(
    files: Files,
    root: Seq<char>,
    logical: Seq<char>,
    key: Seq<u8>,
) -> Result<Contents, Failure> {
    match tree::contents(files, path::file_of(root, logical)) {
        Err(e) => Err(e),
        Ok(ciphertext) => match crypto::decrypted(ciphertext, key) {
            Err(e) => Err(e),
            Ok(plaintext) => envelope::unwrapped(logical, plaintext),
        },
    }
}

/// What is in the envelope of the secret at a path.
pub open spec fn unsealed(files: Files, logical: Seq<char>, key: Seq<u8>) -> Result<
    Contents,
    Failure,
> {
    unsealed_at(files, top(), logical, key)
}

/// What is in the envelope of the secret at a path, if the index can be read and does
/// not say that it is out of date.
pub open spec fn checked(files: Files, logical: Seq<char>, key: Seq<u8>) -> Result<
    Contents,
    Failure,
> {
    match unsealed(files, logical, key) {
        Err(e) => Err(e),
        Ok(c) => match index_at(files) {
            Err(e) => Err(e),
            Ok(m) => match generations::verified(logical, c.generation, m) {
                Err(e) => Err(e),
                Ok(_) => Ok(c),
            },
        },
    }
}

/// What reading the secret at a path gives.
pub open spec fn got(files: Files, logical: Seq<char>, key: Seq<u8>) -> Result<Payload, Failure> {
    if !path::valid_path(logical) {
        Err(Failure::InvalidPath(logical))
    } else if !tree::present(files, live_file(logical)) {
        Err(Failure::SecretNotFound(logical))
    } else {
        match checked(files, logical, key) {
            Err(e) => Err(e),
            Ok(c) => Ok(Payload { bytes: c.payload, kind: c.kind }),
        }
    }
}

/// Decrypts and opens the secret at a path below `root`.
pub fn unseal_at(t: &Tree, root: &str, logical: &str, identity: &Identity) -> (r: Result<
    Unwrapped,
    Error,
>)
    requires
        t.wf(),
    ensures
        error::agrees(r, unsealed_at(t.files(), root@, logical@, identity@)),
{
    let file = to_file(root, logical);
    let ciphertext = match t.read(file.as_str()) {
        Ok(b) => b,
        Err(e) => {
            return Err(e);
        },
    };
    match decrypt(ciphertext.as_slice(), identity) {
        Ok(plaintext) => unwrap(logical, plaintext.as_bytes()),
        Err(e) => Err(e),
    }
}

/// Decrypts and opens the secret at a path.
pub fn unseal(t: &Tree, logical: &str, identity: &Identity) -> (r: Result<Unwrapped, Error>)
    requires
        t.wf(),
    ensures
        error::agrees(r, unsealed(t.files(), logical@, identity@)),
{
    proof {
        reveal_strlit("");
        assert(""@ =~= top());
    }
    unseal_at(t, "", logical, identity)
}

/// Decrypts and opens the secret at a path, and holds it against the index.
pub fn check(t: &Tree, logical: &str, identity: &Identity) -> (r: Result<Unwrapped, Error>)
    requires
        t.wf(),
    ensures
        error::agrees(r, checked(t.files(), logical@, identity@)),
{
    let unwrapped = match unseal(t, logical, identity) {
        Ok(u) => u,
        Err(e) => {
            return Err(e);
        },
    };
    let gens = match load_index(t) {
        Ok(g) => g,
        Err(e) => {
            return Err(e);
        },
    };
    match generations::verify(logical, unwrapped.generation, &gens) {
        Ok(_) => Ok(unwrapped),
        Err(e) => Err(e),
    }
}

/// Reads the secret at a path.
pub fn read_secret(t: &Tree, logical: &str, identity: &Identity) -> (r: Result<Secret, Error>)
    requires
        t.wf(),
    ensures
        error::agrees(r, got(t.files(), logical@, identity@)),
{
    match validate(logical) {
        Ok(_) => {},
        Err(e) => {
            return Err(e);
        },
    }
    let file = to_live_file(logical);
    if !t.is_present(file.as_str()) {
        return Err(Error::SecretNotFound(copy_text(logical)));
    }
    match check(t, logical, identity) {
        Ok(u) => Ok(Secret::from_bytes(u.payload, u.kind)),
        Err(e) => Err(e),
    }
}

// ---------------------------------------------------------------------------
// Writing
// ---------------------------------------------------------------------------

/// Seals a payload and encrypts it to a list of recipients.
pub fn encrypt_secret_to(
    logical: &str,
    kind: SecretKind,
    generation: u64,
    payload: &[u8],
    recipients: &[Recipient],
) -> (r: Result<Vec<u8>, Error>)
    requires
        crypto::usable(crypto::texts(recipients@)),
    ensures
        r is Ok <==> recipients@.len() > 0,
        r matches Ok(ct) ==> crypto::encrypts(
            ct@,
            envelope::sealed(logical@, kind, generation, payload@),
            crypto::texts(recipients@),
        ),
        r matches Err(e) ==> e@ == Failure::NoRecipients,
{
    let wrapped = wrap(logical, kind, generation, payload);
    encrypt(wrapped.as_bytes(), recipients)
}

/// The changes that a write of a secret makes: its file, then the index.
pub open spec fn write_effects(files: Files, logical: Seq<char>, ciphertext: Seq<u8>) -> Seq<
    Effect,
> {
    let m = index_in(files);
    seq![
        Effect::Write { file: live_file(logical), bytes: ciphertext },
        index_write(m.insert(logical, generations::next_generation(m, logical))),
    ]
}

/// Whether a ciphertext is that of a secret for its next write at a path.
pub open spec fn seals_next(
    files: Files,
    logical: Seq<char>,
    payload: Payload,
    recipients: Seq<Seq<char>>,
    ciphertext: Seq<u8>,
) -> bool {
    crypto::encrypts(
        ciphertext,
        envelope::sealed(
            logical,
            payload.kind,
            generations::next_generation(index_in(files), logical),
            payload.bytes,
        ),
        recipients,
    )
}

/// What a write of a secret does, given its ciphertext. Nothing changes where the
/// index cannot be read, or something stands in the way of the secret's file. Where
/// that file makes a directory of the index's name, the index cannot be written.
pub open spec fn write_outcome(files: Files, logical: Seq<char>, ciphertext: Seq<u8>) -> Outcome<
    (),
> {
    let file = live_file(logical);
    match index_at(files) {
        Err(e) => tree::failed(Seq::empty(), e),
        Ok(_) => if tree::blocked(files, file) {
            tree::failed(Seq::empty(), Failure::NotAFile(file))
        } else if tree::inside(GENERATIONS_FILE@, file) {
            tree::failed(
                seq![Effect::Write { file, bytes: ciphertext }],
                Failure::NotAFile(GENERATIONS_FILE@),
            )
        } else {
            Outcome { effects: write_effects(files, logical, ciphertext), result: Ok(()) }
        },
    }
}

/// Whether a write of a secret succeeds.
pub open spec fn can_write_at(files: Files, logical: Seq<char>) -> bool {
    &&& index_at(files) is Ok
    &&& !tree::blocked(files, live_file(logical))
    &&& !tree::inside(GENERATIONS_FILE@, live_file(logical))
}

/// Whether a tree came from another by a write of a secret, with a result.
pub open spec fn written(
    before: Tree,
    after: Tree,
    logical: Seq<char>,
    payload: Payload,
    recipients: Seq<Seq<char>>,
    result: Result<(), Error>,
) -> bool {
    exists|ct: Seq<u8>|
        #![trigger write_outcome(before.files(), logical, ct)]
        (index_at(before.files()) is Ok ==> seals_next(
            before.files(),
            logical,
            payload,
            recipients,
            ct,
        )) && tree::advanced(before, after, write_outcome(before.files(), logical, ct).effects)
            && error::agrees(result, write_outcome(before.files(), logical, ct).result)
}

/// Whether a tree came from another by a write of a secret that succeeded.
pub open spec fn wrote(
    before: Tree,
    after: Tree,
    logical: Seq<char>,
    payload: Payload,
    recipients: Seq<Seq<char>>,
) -> bool {
    written(before, after, logical, payload, recipients, Ok(()))
}

/// The ciphertext of a write that succeeded.
pub proof fn lemma_wrote(
    before: Tree,
    after: Tree,
    logical: Seq<char>,
    payload: Payload,
    recipients: Seq<Seq<char>>,
) -> (ct: Seq<u8>)
    requires
        wrote(before, after, logical, payload, recipients),
    ensures
        can_write_at(before.files(), logical),
        seals_next(before.files(), logical, payload, recipients, ct),
        tree::advanced(before, after, write_effects(before.files(), logical, ct)),
{
    choose|ct: Seq<u8>|
        #![trigger write_outcome(before.files(), logical, ct)]
        (index_at(before.files()) is Ok ==> seals_next(
            before.files(),
            logical,
            payload,
            recipients,
            ct,
        )) && tree::advanced(before, after, write_outcome(before.files(), logical, ct).effects)
            && error::agrees(
            Ok::<(), Error>(()),
            write_outcome(before.files(), logical, ct).result,
        )
}

/// Encrypts a payload with the next generation of its path, writes it, and records
/// the generation.
pub fn write_secret(
    t: &mut Tree,
    logical: &str,
    kind: SecretKind,
    payload: &[u8],
    recipients: &[Recipient],
) -> (r: Result<(), Error>)
    requires
        old(t).wf(),
        index_at(old(t).files()) is Ok ==> crypto::usable(crypto::texts(recipients@)),
    ensures
        final(t).wf(),
        recipients@.len() > 0 ==> written(
            *old(t),
            *final(t),
            logical@,
            (Payload { bytes: payload@, kind }),
            crypto::texts(recipients@),
            r,
        ),
        recipients@.len() == 0 ==> *final(t) == *old(t) && (r matches Err(e) && e@ == (
        match index_at(old(t).files()) {
            Err(f) => f,
            Ok(_) => Failure::NoRecipients,
        })),
{
    let ghost t0 = *t;
    proof {
        tree::lemma_advanced_none(t0);
    }
    let mut gens = match load_index(t) {
        Ok(g) => g,
        Err(e) => {
            assert(write_outcome(t0.files(), logical@, Seq::empty()).effects
                == Seq::<Effect>::empty());
            return Err(e);
        },
    };
    let next = gens.next(logical);
    let ciphertext = match encrypt_secret_to(logical, kind, next, payload, recipients) {
        Ok(ct) => ct,
        Err(e) => {
            return Err(e);
        },
    };
    let ghost p = Payload { bytes: payload@, kind };
    assert(seals_next(t0.files(), logical@, p, crypto::texts(recipients@), ciphertext@));
    let ghost outcome = write_outcome(t0.files(), logical@, ciphertext@);
    let file = to_live_file(logical);
    if t.is_blocked(file.as_str()) {
        assert(outcome.effects == Seq::<Effect>::empty());
        return Err(Error::NotAFile(file));
    }
    t.write(file.as_str(), ciphertext.as_slice());
    let ghost t1 = *t;
    let ghost e1 = Effect::Write { file: live_file(logical@), bytes: ciphertext@ };
    proof {
        tree::lemma_advanced_push(t0, t0, t1, Seq::empty(), e1);
        lemma_index_in_the_way(t0.files(), logical@, ciphertext@);
    }
    if !t.has_file(GENERATIONS_FILE) && t.has_dir(GENERATIONS_FILE) {
        assert(Seq::empty().push(e1) =~= outcome.effects);
        return Err(Error::NotAFile(copy_text(GENERATIONS_FILE)));
    }
    gens.set(copy_text(logical), next);
    save_index(t, &gens);
    proof {
        let e2 = index_write(gens@);
        tree::lemma_advanced_push(t0, t1, *t, Seq::empty().push(e1), e2);
        assert(Seq::empty().push(e1).push(e2) =~= outcome.effects);
    }
    Ok(())
}

/// Once a secret's file was written where nothing stood in its way, the index cannot
/// be written only if that file is inside a directory of its name.
proof fn lemma_index_in_the_way(files: Files, logical: Seq<char>, ct: Seq<u8>)
    requires
        index_at(files) is Ok,
        !tree::blocked(files, live_file(logical)),
    ensures
        ({
            let after = tree::applied(
                files,
                Effect::Write { file: live_file(logical), bytes: ct },
            );
            !after.contains_key(GENERATIONS_FILE@) && tree::has_dir(after, GENERATIONS_FILE@)
                <==> tree::inside(GENERATIONS_FILE@, live_file(logical))
        }),
{
    let file = live_file(logical);
    let after = tree::applied(files, Effect::Write { file, bytes: ct });
    lemma_live_file_name(logical);
    if tree::inside(GENERATIONS_FILE@, file) {
        assert(after.contains_key(file));
    }
    if !after.contains_key(GENERATIONS_FILE@) && tree::has_dir(after, GENERATIONS_FILE@) {
        let n = choose|n: Seq<char>| #[trigger]
            after.contains_key(n) && tree::inside(GENERATIONS_FILE@, n);
        if n != file {
            assert(files.contains_key(n));
        }
    }
}

/// What deleting the secret at a path does. The index keeps its line.
pub open spec fn deletion(files: Files, logical: Seq<char>) -> tree::Outcome<()> {
    let file = live_file(logical);
    if !path::valid_path(logical) {
        tree::failed(Seq::empty(), Failure::InvalidPath(logical))
    } else if !tree::present(files, file) {
        tree::failed(Seq::empty(), Failure::SecretNotFound(logical))
    } else if !files.contains_key(file) {
        tree::failed(Seq::empty(), Failure::NotAFile(file))
    } else {
        tree::Outcome {
            effects: seq![Effect::Remove { file, emptied: tree::emptied(files, file) }],
            result: Ok(()),
        }
    }
}

/// Deletes the secret at a path.
pub fn delete_secret(t: &mut Tree, logical: &str) -> (r: Result<(), Error>)
    requires
        old(t).wf(),
    ensures
        tree::advanced(*old(t), *final(t), deletion(old(t).files(), logical@).effects),
        error::agrees(r, deletion(old(t).files(), logical@).result),
{
    proof {
        tree::lemma_advanced_none(*t);
    }
    match validate(logical) {
        Ok(_) => {},
        Err(e) => {
            return Err(e);
        },
    }
    let file = to_live_file(logical);
    if !t.is_present(file.as_str()) {
        return Err(Error::SecretNotFound(copy_text(logical)));
    }
    if !t.has_file(file.as_str()) {
        return Err(Error::NotAFile(file));
    }
    let ghost t0 = *t;
    t.remove(file.as_str());
    proof {
        let e = Effect::Remove { file: file@, emptied: tree::emptied(t0.files(), file@) };
        tree::lemma_advanced_push(t0, t0, *t, Seq::empty(), e);
        assert(Seq::empty().push(e) =~= seq![e]);
    }
    Ok(())
}

/// Whether there is a secret at a path.
pub open spec fn holds(files: Files, logical: Seq<char>) -> bool {
    path::valid_path(logical) && files.contains_key(live_file(logical))
}

/// Whether there is a secret at a path.
pub fn has_secret(t: &Tree, logical: &str) -> (r: bool)
    requires
        t.wf(),
    ensures
        r == holds(t.files(), logical@),
{
    if !is_valid(logical) {
        return false;
    }
    let file = to_live_file(logical);
    t.has_file(file.as_str())
}

/// Why a secret cannot be moved or copied from one path to another, if it cannot:
/// a path is malformed, there is nothing at the source, or something at the
/// destination.
pub open spec fn relocation(files: Files, from: Seq<char>, to: Seq<char>) -> Result<(), Failure> {
    if !path::valid_path(from) {
        Err(Failure::InvalidPath(from))
    } else if !path::valid_path(to) {
        Err(Failure::InvalidPath(to))
    } else if !tree::present(files, live_file(from)) {
        Err(Failure::SecretNotFound(from))
    } else if files.contains_key(live_file(to)) {
        Err(Failure::SecretExists(to))
    } else {
        Ok(())
    }
}

/// Checks that a secret can be moved or copied.
pub fn relocate_paths(t: &Tree, from: &str, to: &str) -> (r: Result<(), Error>)
    requires
        t.wf(),
    ensures
        error::agrees(r, relocation(t.files(), from@, to@)),
{
    match validate(from) {
        Ok(_) => {},
        Err(e) => {
            return Err(e);
        },
    }
    match validate(to) {
        Ok(_) => {},
        Err(e) => {
            return Err(e);
        },
    }
    let src = to_live_file(from);
    if !t.is_present(src.as_str()) {
        return Err(Error::SecretNotFound(copy_text(from)));
    }
    if has_secret(t, to) {
        return Err(Error::SecretExists(copy_text(to)));
    }
    Ok(())
}

// ---------------------------------------------------------------------------
// Laws
// ---------------------------------------------------------------------------

/// There is a secret at a path exactly if the path is acceptable and a file has the
/// path's name with the extension `.age`, whatever the index says.
pub proof fn law_holds(files: Files, p: Seq<char>)
    ensures
        live_file(p) == p + ".age"@,
        holds(files, p) <==> path::valid_path(p) && files.contains_key(p + ".age"@),
{
    path::law_file_name(top(), p);
    assert(top() + p =~= p);
}

/// The index can be read unless its name is that of a directory; without a file it
/// has no entries.
pub proof fn law_index_is_read(files: Files)
    ensures
        index_at(files) is Ok <==> files.contains_key(".ks-generations"@) || forall|n: Seq<char>|
            #[trigger] files.contains_key(n) ==> !tree::inside(".ks-generations"@, n),
        files.contains_key(".ks-generations"@) ==> index_in(files) == generations::indexed(
            files[".ks-generations"@].bytes,
        ),
        !files.contains_key(".ks-generations"@) ==> index_in(files).dom() == Set::<
            Seq<char>,
        >::empty(),
        index_at(files) matches Ok(m) ==> m == index_in(files),
{
    assert(Map::<Seq<char>, u64>::empty().dom() =~= Set::<Seq<char>>::empty());
}

/// A secret can be written exactly if the index can be read, no file is inside a
/// directory of the secret's file name, none is in the place of a directory on the way
/// to it, and the file is not inside a directory of the index's name.
pub proof fn law_way_is_free(files: Files, p: Seq<char>)
    ensures
        can_write_at(files, p) <==> {
            &&& index_at(files) is Ok
            &&& forall|n: Seq<char>| #[trigger]
                files.contains_key(n) ==> !tree::inside(p + ".age"@, n) && !tree::inside(
                    n,
                    p + ".age"@,
                )
            &&& !tree::inside(".ks-generations"@, p + ".age"@)
        },
{
    law_holds(files, p);
    let f = live_file(p);
    if forall|n: Seq<char>| #[trigger]
        files.contains_key(n) ==> !tree::inside(f, n) && !tree::inside(n, f) {
        assert(!tree::has_dir(files, f));
    }
    if !tree::blocked(files, f) {
        assert forall|n: Seq<char>| #[trigger] files.contains_key(n) implies !tree::inside(f, n)
            && !tree::inside(n, f) by {
            if tree::inside(f, n) {
                assert(tree::has_dir(files, f));
            }
        }
    }
}

/// A move or a copy is refused for its paths exactly where one of them is not
/// acceptable, nothing is at the source, or there is a file of a secret at the
/// destination. What the index says of the destination does not matter.
pub proof fn law_paths_of_a_move(files: Files, from: Seq<char>, to: Seq<char>)
    ensures
        ({
            let r = relocation(files, from, to);
            let source = files.contains_key(from + ".age"@) || exists|n: Seq<char>| #[trigger]
                files.contains_key(n) && tree::inside(from + ".age"@, n);
            &&& r is Ok <==> path::valid_path(from) && path::valid_path(to) && source
                && !files.contains_key(to + ".age"@)
            &&& !path::valid_path(from) ==> r == Err::<(), Failure>(Failure::InvalidPath(from))
            &&& path::valid_path(from) && !path::valid_path(to) ==> r == Err::<(), Failure>(
                Failure::InvalidPath(to),
            )
            &&& path::valid_path(from) && path::valid_path(to) && !source ==> r == Err::<
                (),
                Failure,
            >(Failure::SecretNotFound(from))
            &&& path::valid_path(from) && path::valid_path(to) && source && files.contains_key(
                to + ".age"@,
            ) ==> r == Err::<(), Failure>(Failure::SecretExists(to))
        }),
{
    law_holds(files, from);
    law_holds(files, to);
}

/// Deleting an acceptable path with a file succeeds and takes that file away, and
/// nothing else; every other deletion changes nothing, and says what was wrong.
pub proof fn law_delete(before: Tree, after: Tree, p: Seq<char>)
    requires
        before.wf(),
        tree::advanced(before, after, deletion(before.files(), p).effects),
    ensures
        ({
            let files = before.files();
            let r = deletion(files, p).result;
            let file = p + ".age"@;
            &&& r is Ok <==> path::valid_path(p) && files.contains_key(file)
            &&& r is Ok ==> after.files() == files.remove(file)
            &&& r is Err ==> after.files() == files && after.effects() == before.effects()
            &&& !path::valid_path(p) ==> r == Err::<(), Failure>(Failure::InvalidPath(p))
            &&& path::valid_path(p) && !files.contains_key(file) && (forall|n: Seq<char>|
                #[trigger] files.contains_key(n) ==> !tree::inside(file, n)) ==> r == Err::<
                (),
                Failure,
            >(Failure::SecretNotFound(p))
        }),
{
    let files = before.files();
    law_holds(files, p);
    let effects = deletion(files, p).effects;
    if effects.len() > 0 {
        tree::lemma_replayed_push(files, Seq::empty(), effects[0]);
        assert(Seq::empty().push(effects[0]) =~= effects);
    } else {
        assert(effects =~= Seq::empty());
        assert(before.effects() + effects =~= before.effects());
    }
}

/// What reading gives where there is nothing to decrypt: a refusal of the path, or
/// that there is no such secret. A secret that is there and cannot be decrypted gives
/// the failure to decrypt.
pub proof fn law_get_refuses(files: Files, p: Seq<char>, key: Seq<u8>)
    ensures
        ({
            let file = p + ".age"@;
            &&& !path::valid_path(p) ==> got(files, p, key) == Err::<Payload, Failure>(
                Failure::InvalidPath(p),
            )
            &&& path::valid_path(p) && !files.contains_key(file) && (forall|n: Seq<char>|
                #[trigger] files.contains_key(n) ==> !tree::inside(file, n)) ==> got(files, p, key)
                == Err::<Payload, Failure>(Failure::SecretNotFound(p))
            &&& path::valid_path(p) && files.contains_key(file) && crypto::age_plaintext(
                files[file].bytes,
                key,
            ) is None ==> got(files, p, key) == Err::<Payload, Failure>(Failure::Decrypt)
            &&& got(files, p, key) is Ok ==> path::valid_path(p) && files.contains_key(file)
                && crypto::age_plaintext(files[file].bytes, key) is Some
        }),
{
    law_holds(files, p);
}

/// The recipients of a store are those that the file lists; without a file there are
/// none, which is an error.
pub proof fn law_recipients_are_read(files: Files, file: Seq<char>)
    ensures
        files.contains_key(file) ==> recipients_at(files, file) == recipients::recipients_in(
            files[file].bytes,
        ),
        !files.contains_key(file) && (forall|n: Seq<char>| #[trigger]
            files.contains_key(n) ==> !tree::inside(file, n)) ==> recipients_at(files, file)
            == Err::<Seq<Seq<char>>, Failure>(Failure::NoRecipients),
        recipients_at(files, file) is Ok ==> files.contains_key(file),
{
}

/// What is inside the envelope at a path is what the file there decrypts to, opened at
/// that path; the index does not matter. Reading gives the payload and the kind of it,
/// unless the index can be read and records a greater generation, or cannot be read.
pub proof fn law_envelope_is_read(
    files: Files,
    p: Seq<char>,
    key: Seq<u8>,
    plaintext: Seq<u8>,
    c: Contents,
)
    requires
        path::valid_path(p),
        files.contains_key(p + ".age"@),
        crypto::age_plaintext(files[p + ".age"@].bytes, key) == Some(plaintext),
        envelope::unwrapped(p, plaintext) == Ok::<Contents, Failure>(c),
    ensures
        unsealed(files, p, key) == Ok::<Contents, Failure>(c),
        got(files, p, key) is Ok <==> index_at(files) is Ok && !(index_in(files).contains_key(p)
            && c.generation < index_in(files)[p]),
        got(files, p, key) matches Ok(payload) ==> payload.bytes == c.payload && payload.kind
            == c.kind,
{
    law_holds(files, p);
}

/// Deleting a secret notes one change, the removal of its file, and with it the
/// directories that hold nothing else.
pub proof fn law_delete_prunes(before: Tree, after: Tree, p: Seq<char>)
    requires
        path::valid_path(p),
        before.files().contains_key(p + ".age"@),
        tree::advanced(before, after, deletion(before.files(), p).effects),
    ensures
        after.effects() == before.effects().push(
            Effect::Remove {
                file: p + ".age"@,
                emptied: tree::emptied(before.files(), p + ".age"@),
            },
        ),
{
    law_holds(before.files(), p);
}

} // verus!
