//! The encrypted secret store.
//!
//! A store is a directory in which each secret is a file of its own, encrypted to
//! the recipients that `.age-recipients` lists. The index `.ks-generations` has a
//! generation for each path.
//!
//! Writing ([`Store::set`], [`Store::insert`], [`Store::delete`]) and listing need
//! public keys only. Reading ([`Store::get`], [`Store::grep`] of contents), moving
//! ([`Store::rename`], [`Store::copy`]) and changing the recipients
//! ([`Store::set_recipients`]) need an identity.
//!
//! The store works on the files of its directory in memory. The changes that an
//! operation makes are noted in order; [`Store::take_steps`] hands them out, for the
//! caller to make them on disk while it holds the store's lock.

use vstd::prelude::*;

use crate::crypto;
use crate::crypto::{all_usable, recipients_contain, Identity, Recipient};
use crate::error;
use crate::error::{Error, Failure};
use crate::git;
use crate::git::ensure_git_templates;
use crate::health;
use crate::health::{live_paths, GenerationCensus, RepairReport};
use crate::listing;
use crate::moves;
use crate::moves::{
    copy_secret, discard_if_incomplete, rename_secret, rollforward_or_back_move, MoveRecovery,
    MOVE_DIR, MOVE_READY,
};
use crate::path;
use crate::path::validate;
use crate::recipients;
use crate::recipients::{render_recipients, RECIPIENTS_FILE};
use crate::rotation;
use crate::rotation::{
    prepare_rotation, reencrypt, rollforward_or_back, RotationRecovery, ROTATE_DIR,
    ROTATE_READY,
};
use crate::secret::Secret;
use crate::secrets;
use crate::secrets::{
    delete_secret, has_secret, load_index, load_recipients, read_secret, write_secret,
};
use crate::text;
use crate::text::{
    begins_with, contains_text, copy_text, same_text, to_chars, to_lowercase,
};
use crate::tree;
use crate::tree::{Effect, Files, Step, Tree};

verus! {

/// Where the store and the identity are.
pub struct Config {
    /// The file with the encrypted identity.
    pub identity_path: String,
    /// The store's directory.
    pub store_dir: String,
}

impl Config {
    /// The same configuration again.
    pub fn duplicate(&self) -> (r: Config)
        ensures
            r.identity_path@ == self.identity_path@,
            r.store_dir@ == self.store_dir@,
    {
        Config {
            identity_path: copy_text(self.identity_path.as_str()),
            store_dir: copy_text(self.store_dir.as_str()),
        }
    }
}

/// An encrypted store, with its recipients and its files.
pub struct Store {
    config: Config,
    recipients: Vec<Recipient>,
    tree: Tree,
}

/// What a search found.
#[derive(Debug, PartialEq, Eq)]
pub struct GrepResults {
    /// Paths that match by name or, where contents were searched, by content.
    pub matches: Vec<String>,
    /// Paths whose content was to be searched and could not be read.
    pub unreadable: Vec<String>,
}

/// The changes that opening a store makes: journals that were not committed go,
/// those that were committed stay.
pub open spec fn open_effects(files: Files) -> Seq<Effect> {
    let first = moves::discarded(files, ROTATE_DIR@, ROTATE_READY@);
    first + moves::discarded(tree::replayed(files, first), MOVE_DIR@, MOVE_READY@)
}

/// A list with those of some others behind it that it does not hold yet.
pub open spec fn joined_keys(list: Seq<Seq<char>>, more: Seq<Seq<char>>) -> Seq<Seq<char>>
    decreases more.len(),
{
    if more.len() == 0 {
        list
    } else {
        let before = joined_keys(list, more.drop_last());
        if before.contains(more.last()) {
            before
        } else {
            before.push(more.last())
        }
    }
}

/// The changes that creating a store makes: the recipient list, then the git files.
pub open spec fn create_effects(files: Files, list: Seq<Seq<char>>) -> Seq<Effect> {
    let write = Effect::Write {
        file: RECIPIENTS_FILE@,
        bytes: recipients::recipients_body(list),
    };
    seq![write] + git::template_effects(tree::applied(files, write))
}

/// Whether a path is a prefix, or below it.
pub open spec fn is_under(p: Seq<char>, prefix: Seq<char>) -> bool {
    p == prefix || (prefix + seq!['/']).is_prefix_of(p)
}

/// The listed paths under a prefix: the prefix itself and what is below it. An
/// empty prefix stands for all.
pub open spec fn under(paths: Seq<Seq<char>>, prefix: Seq<char>) -> Seq<Seq<char>> {
    if prefix.len() == 0 {
        paths
    } else {
        paths.filter(|p: Seq<char>| is_under(p, prefix))
    }
}

/// Whether the name of a path matches a query.
pub open spec fn name_matches(p: Seq<char>, query: Seq<char>) -> bool {
    text::occurs_in(text::lowercase(query), text::lowercase(p))
}

/// Whether the content at a path can be read and matches a query.
pub open spec fn content_matches(
    files: Files,
    p: Seq<char>,
    key: Seq<u8>,
    query: Seq<char>,
) -> bool {
    match secrets::got(files, p, key) {
        Ok(payload) => text::occurs_in(
            text::lowercase(query),
            text::lowercase(crate::secret::exposed(payload)),
        ),
        Err(_) => false,
    }
}

/// The paths that a search finds: by name, or by content where there is a key.
pub open spec fn found(
    files: Files,
    paths: Seq<Seq<char>>,
    key: Option<Seq<u8>>,
    query: Seq<char>,
) -> Seq<Seq<char>> {
    paths.filter(
        |p: Seq<char>|
            name_matches(p, query) || (key is Some && content_matches(files, p, key->0, query)),
    )
}

/// The paths whose content a search could not read.
pub open spec fn not_read(
    files: Files,
    paths: Seq<Seq<char>>,
    key: Option<Seq<u8>>,
    query: Seq<char>,
) -> Seq<Seq<char>> {
    paths.filter(
        |p: Seq<char>|
            !name_matches(p, query) && key is Some && secrets::got(files, p, key->0) is Err,
    )
}

/// What opening a store directory gives: its recipients.
pub open spec fn opening(found: bool, dir: Seq<char>, files: Files) -> Result<
    Seq<Seq<char>>,
    Failure,
> {
    if !found {
        Err(Failure::StoreNotFound(dir))
    } else {
        secrets::recipients_at(files, RECIPIENTS_FILE@)
    }
}

/// Opens a store directory, if it was found: reads the recipients, and drops
/// journals that were not committed.
pub fn open_dir(found: bool, dir: &str, t: &mut Tree) -> (r: Result<Vec<Recipient>, Error>)
    requires
        old(t).wf(),
    ensures
        match opening(found, dir@, old(t).files()) {
            Err(f) => *final(t) == *old(t) && (r matches Err(e) && e@ == f),
            Ok(list) => r matches Ok(v) && crypto::texts(v@) == list && list.len() > 0
                && tree::advanced(*old(t), *final(t), open_effects(old(t).files())),
        },
{
    if !found {
        return Err(Error::StoreNotFound(copy_text(dir)));
    }
    let recipients = match load_recipients(t, RECIPIENTS_FILE) {
        Ok(l) => l,
        Err(e) => {
            return Err(e);
        },
    };
    let ghost t0 = *t;
    discard_if_incomplete(t, ROTATE_DIR, ROTATE_READY);
    let ghost t1 = *t;
    discard_if_incomplete(t, MOVE_DIR, MOVE_READY);
    proof {
        tree::lemma_advanced_concat(
            t0,
            t1,
            *t,
            moves::discarded(t0.files(), ROTATE_DIR@, ROTATE_READY@),
            moves::discarded(t1.files(), MOVE_DIR@, MOVE_READY@),
        );
    }
    Ok(recipients)
}

impl Store {
    /// The files and the changes that were noted.
    pub closed spec fn tree(&self) -> Tree {
        self.tree
    }

    /// The files.
    pub open spec fn files(&self) -> Files {
        self.tree().files()
    }

    /// The recipients that secrets are encrypted to.
    pub closed spec fn keys(&self) -> Seq<Seq<char>> {
        crypto::texts(self.recipients@)
    }

    /// The store's directory.
    pub closed spec fn dir(&self) -> Seq<char> {
        self.config.store_dir@
    }

    /// Whether the store has a recipient, and its files have one name each.
    pub closed spec fn wf(&self) -> bool {
        self.recipients@.len() > 0 && self.tree.wf()
    }

    /// Whether the store can encrypt: none of its recipients has a weak key.
    pub open spec fn can_write(&self) -> bool {
        crypto::usable(self.keys())
    }

    /// What is the same of two stores when only files change.
    pub open spec fn same_setup(&self, other: &Store) -> bool {
        self.keys() == other.keys() && self.dir() == other.dir()
    }

    /// Opens an existing store. `dir` holds the files of the store directory, if it
    /// exists.
    ///
    /// Journals of moves and rotations that were not committed are dropped. Those
    /// that were committed stay: completing them takes an identity.
    pub fn open(config: Config, dir: Option<Tree>) -> (r: Result<Store, Error>)
        requires
            dir matches Some(t) ==> t.wf(),
        ensures
            match dir {
                None => r matches Err(e) && e@ == Failure::StoreNotFound(config.store_dir@),
                Some(t) => match secrets::recipients_at(t.files(), RECIPIENTS_FILE@) {
                    Err(f) => r matches Err(e) && e@ == f,
                    Ok(list) => r matches Ok(s) && s.wf() && s.keys() == list && s.dir()
                        == config.store_dir@ && tree::advanced(
                        t,
                        s.tree(),
                        open_effects(t.files()),
                    ),
                },
            },
    {
        let t = match dir {
            Some(t) => t,
            None => {
                return Err(Error::StoreNotFound(config.store_dir));
            },
        };
        let mut tree = t;
        let recipients = match open_dir(true, config.store_dir.as_str(), &mut tree) {
            Ok(l) => l,
            Err(e) => {
                return Err(e);
            },
        };
        assert(crypto::texts(recipients@).len() > 0);
        Ok(Store { config, recipients, tree })
    }

    /// Creates a store in a directory that holds none: writes the recipient list,
    /// with the owner's public key first, and the git files.
    pub fn create(config: Config, dir: Tree, owner: &Identity, extra: &[Recipient]) -> (r: Result<
        Store,
        Error,
    >)
        requires
            dir.wf(),
        ensures
            tree::present(dir.files(), RECIPIENTS_FILE@) ==> (r matches Err(e) && e@
                == Failure::StoreExists(config.store_dir@)),
            !tree::present(dir.files(), RECIPIENTS_FILE@) ==> (r matches Ok(s) && s.wf() && s.dir()
                == config.store_dir@ && s.keys() == joined_keys(
                seq![owner.public()],
                crypto::texts(extra@),
            ) && (crypto::usable(crypto::texts(extra@)) ==> s.can_write()) && tree::advanced(
                dir,
                s.tree(),
                create_effects(dir.files(), s.keys()),
            )),
    {
        if dir.is_present(RECIPIENTS_FILE) {
            return Err(Error::StoreExists(config.store_dir));
        }
        let mut list: Vec<Recipient> = Vec::new();
        list.push(owner.to_public());
        let ghost first = seq![owner.public()];
        let ghost more = crypto::texts(extra@);
        assert(crypto::texts(list@) =~= first);
        assert(more.take(0) =~= Seq::empty());
        for i in 0..extra.len()
            invariant
                more == crypto::texts(extra@),
                crypto::texts(list@) == joined_keys(first, more.take(i as int)),
                list@.len() > 0,
                crypto::usable(more) ==> crypto::usable(crypto::texts(list@)),
        {
            assert(more.take(i + 1).drop_last() =~= more.take(i as int));
            assert(more.take(i + 1).last() == more[i as int]);
            if !recipients_contain(list.as_slice(), &extra[i]) {
                let ghost before = crypto::texts(list@);
                list.push(extra[i].duplicate());
                assert(crypto::texts(list@) =~= before.push(more[i as int]));
                assert(crypto::usable(more) ==> crypto::usable(crypto::texts(list@))) by {
                    if crypto::usable(more) {
                        assert forall|j: int| 0 <= j < crypto::texts(list@).len() implies !crypto::weak(
                            #[trigger] crypto::texts(list@)[j],
                        ) by {
                            if j < before.len() {
                                assert(crypto::texts(list@)[j] == before[j]);
                            }
                        }
                    }
                }
            }
        }
        assert(more.take(more.len() as int) =~= more);
        let mut tree = dir;
        let ghost t0 = tree;
        let body = render_recipients(list.as_slice());
        tree.write(RECIPIENTS_FILE, body.as_slice());
        let ghost t1 = tree;
        let _ = ensure_git_templates(&mut tree);
        proof {
            let write = Effect::Write { file: RECIPIENTS_FILE@, bytes: body@ };
            tree::lemma_advanced_none(t0);
            tree::lemma_advanced_push(t0, t0, t1, Seq::empty(), write);
            assert(Seq::empty().push(write) =~= seq![write]);
            tree::lemma_advanced_concat(
                t0,
                t1,
                tree,
                seq![write],
                git::template_effects(t1.files()),
            );
        }
        Ok(Store { config, recipients: list, tree })
    }

    /// The store's directory.
    pub fn root(&self) -> (r: &str)
        ensures
            r@ == self.dir(),
    {
        self.config.store_dir.as_str()
    }

    /// The recipients.
    pub fn recipients(&self) -> (r: &[Recipient])
        ensures
            crypto::texts(r@) == self.keys(),
    {
        self.recipients.as_slice()
    }

    /// Whether secrets can be encrypted to all recipients.
    pub fn is_writable(&self) -> (r: bool)
        ensures
            r == self.can_write(),
    {
        all_usable(self.recipients.as_slice())
    }

    /// Takes the changes that were noted, in order.
    pub fn take_steps(&mut self) -> (r: Vec<Step>)
        requires
            old(self).wf(),
        ensures
            final(self).wf(),
            final(self).same_setup(old(self)),
            final(self).files() == old(self).files(),
            final(self).tree().effects() == Seq::<Effect>::empty(),
            r@.len() == old(self).tree().effects().len(),
            forall|i: int|
                0 <= i < r@.len() ==> #[trigger] r@[i]@ == old(self).tree().effects()[i],
    {
        self.tree.take_steps()
    }

    /// The files, with the changes that were noted.
    pub fn into_tree(self) -> (r: Tree)
        requires
            self.wf(),
        ensures
            r == self.tree(),
            r.wf(),
    {
        self.tree
    }

    /// Whether there is a secret at a path.
    pub fn has(&self, logical: &str) -> (r: bool)
        requires
            self.wf(),
        ensures
            r == secrets::holds(self.files(), logical@),
    {
        has_secret(&self.tree, logical)
    }

    /// Writes a secret, in place of what is at the path.
    pub fn set(&mut self, logical: &str, secret: &Secret) -> (r: Result<(), Error>)
        requires
            old(self).wf(),
            path::valid_path(logical@) && secrets::index_at(old(self).files()) is Ok ==> old(
                self,
            ).can_write(),
        ensures
            final(self).wf(),
            final(self).same_setup(old(self)),
            path::valid_path(logical@) ==> secrets::written(
                old(self).tree(),
                final(self).tree(),
                logical@,
                secret@,
                old(self).keys(),
                r,
            ),
            !path::valid_path(logical@) ==> *final(self) == *old(self) && (r matches Err(e) && e@
                == Failure::InvalidPath(logical@)),
    {
        match validate(logical) {
            Ok(_) => {},
            Err(e) => {
                return Err(e);
            },
        }
        write_secret(
            &mut self.tree,
            logical,
            secret.kind(),
            secret.as_bytes(),
            self.recipients.as_slice(),
        )
    }

    /// Writes a secret at a path where there is none.
    pub fn insert(&mut self, logical: &str, secret: &Secret) -> (r: Result<(), Error>)
        requires
            old(self).wf(),
            path::valid_path(logical@) && !secrets::holds(old(self).files(), logical@)
                && secrets::index_at(old(self).files()) is Ok ==> old(self).can_write(),
        ensures
            final(self).wf(),
            final(self).same_setup(old(self)),
            !path::valid_path(logical@) ==> *final(self) == *old(self) && (r matches Err(e) && e@
                == Failure::InvalidPath(logical@)),
            secrets::holds(old(self).files(), logical@) ==> *final(self) == *old(self) && (
            r matches Err(e) && e@ == Failure::SecretExists(logical@)),
            path::valid_path(logical@) && !secrets::holds(old(self).files(), logical@)
                ==> secrets::written(
                old(self).tree(),
                final(self).tree(),
                logical@,
                secret@,
                old(self).keys(),
                r,
            ),
    {
        match validate(logical) {
            Ok(_) => {},
            Err(e) => {
                return Err(e);
            },
        }
        if self.has(logical) {
            return Err(Error::SecretExists(copy_text(logical)));
        }
        write_secret(
            &mut self.tree,
            logical,
            secret.kind(),
            secret.as_bytes(),
            self.recipients.as_slice(),
        )
    }

    /// Reads a secret: decrypts it, opens its envelope at the path, and holds its
    /// generation against the index.
    pub fn get(&self, logical: &str, identity: &Identity) -> (r: Result<Secret, Error>)
        requires
            self.wf(),
        ensures
            error::agrees(r, secrets::got(self.files(), logical@, identity@)),
    {
        read_secret(&self.tree, logical, identity)
    }

    /// Deletes a secret. The index keeps its generation.
    pub fn delete(&mut self, logical: &str) -> (r: Result<(), Error>)
        requires
            old(self).wf(),
        ensures
            final(self).wf(),
            final(self).same_setup(old(self)),
            tree::advanced(
                old(self).tree(),
                final(self).tree(),
                secrets::deletion(old(self).files(), logical@).effects,
            ),
            error::agrees(r, secrets::deletion(old(self).files(), logical@).result),
    {
        delete_secret(&mut self.tree, logical)
    }

    /// Checks that a secret can be moved or copied from one path to another.
    pub fn relocate_paths(&self, from: &str, to: &str) -> (r: Result<(), Error>)
        requires
            self.wf(),
        ensures
            error::agrees(r, secrets::relocation(self.files(), from@, to@)),
    {
        secrets::relocate_paths(&self.tree, from, to)
    }

    /// Checks that a secret can be read to move or copy it. The index is read first.
    pub fn check_source(&self, from: &str, identity: &Identity) -> (r: Result<(), Error>)
        requires
            self.wf(),
        ensures
            match moves::relocatable(self.files(), from@, identity@) {
                Ok(_) => r is Ok,
                Err(f) => r matches Err(e) && e@ == f,
            },
    {
        match moves::check_source(&self.tree, from, identity) {
            Ok(_) => Ok(()),
            Err(e) => Err(e),
        }
    }

    /// Whether the generation index can be read.
    pub fn has_index(&self) -> (r: bool)
        requires
            self.wf(),
        ensures
            r == (secrets::index_at(self.files()) is Ok),
    {
        load_index(&self.tree).is_ok()
    }

    /// Moves a secret: decrypts it, and encrypts it for the new path with a new
    /// generation.
    pub fn rename(&mut self, from: &str, to: &str, identity: &Identity) -> (r: Result<(), Error>)
        requires
            old(self).wf(),
            moves::move_encrypts(old(self).files(), from@, to@, identity@) ==> old(
                self,
            ).can_write(),
        ensures
            final(self).wf(),
            final(self).same_setup(old(self)),
            moves::moved(
                old(self).tree(),
                final(self).tree(),
                from@,
                to@,
                identity@,
                old(self).keys(),
                r,
            ),
    {
        rename_secret(&mut self.tree, from, to, identity, self.recipients.as_slice())
    }

    /// Copies a secret: decrypts it, and encrypts it for the new path with a new
    /// generation.
    pub fn copy(&mut self, from: &str, to: &str, identity: &Identity) -> (r: Result<(), Error>)
        requires
            old(self).wf(),
            moves::copy_encrypts(old(self).files(), from@, to@, identity@) ==> old(
                self,
            ).can_write(),
        ensures
            final(self).wf(),
            final(self).same_setup(old(self)),
            moves::copied(
                old(self).tree(),
                final(self).tree(),
                from@,
                to@,
                identity@,
                old(self).keys(),
                r,
            ),
    {
        copy_secret(&mut self.tree, from, to, identity, self.recipients.as_slice())
    }

    /// Lists the paths under a prefix, in ascending order. An empty prefix stands
    /// for all.
    pub fn list(&self, prefix: &str) -> (r: Vec<String>)
        requires
            self.wf(),
        ensures
            text::views(r@) == under(health::live(self.files()), prefix@),
            listing::is_walk(health::live(self.files()), self.files(), secrets::top()),
    {
        let all = live_paths(&self.tree);
        let wanted = to_chars(prefix);
        if wanted.len() == 0 {
            return all;
        }
        let mut scope = to_chars(prefix);
        scope.push('/');
        let ghost paths = text::views(all@);
        let ghost pred = |p: Seq<char>| is_under(p, prefix@);
        assert(scope@ =~= prefix@ + seq!['/']);
        let mut out: Vec<String> = Vec::new();
        proof {
            health::lemma_filter_empty(pred);
            assert(paths.take(0) =~= Seq::empty());
            assert(text::views(out@) =~= Seq::empty());
        }
        for i in 0..all.len()
            invariant
                paths == text::views(all@),
                pred == (|p: Seq<char>| is_under(p, prefix@)),
                scope@ == prefix@ + seq!['/'],
                text::views(out@) == paths.take(i as int).filter(pred),
        {
            let p = all[i].as_str();
            assert(paths.take(i + 1) =~= paths.take(i as int).push(p@));
            proof {
                health::lemma_filter_push(paths.take(i as int), p@, pred);
            }
            let cs = to_chars(p);
            if same_text(p, prefix) || begins_with(cs.as_slice(), scope.as_slice()) {
                let ghost before = text::views(out@);
                out.push(copy_text(p));
                assert(text::views(out@) =~= before.push(p@));
            }
        }
        assert(paths.take(paths.len() as int) =~= paths);
        out
    }

    /// Searches paths, and contents where there is an identity, for a text, without
    /// regard to case.
    pub fn grep(&self, query: &str, identity: Option<&Identity>) -> (r: GrepResults)
        requires
            self.wf(),
        ensures
            text::views(r.matches@) == found(
                self.files(),
                health::live(self.files()),
                key_of(identity),
                query@,
            ),
            text::views(r.unreadable@) == not_read(
                self.files(),
                health::live(self.files()),
                key_of(identity),
                query@,
            ),
            identity is None ==> r.unreadable@.len() == 0,
            text::ascending(text::views(r.matches@)),
            identity is None ==> forall|p: Seq<char>| #[trigger]
                text::views(r.matches@).contains(p) <==> health::live(self.files()).contains(p)
                    && exists|a: Seq<char>, b: Seq<char>|
                    text::lowercase(p) == #[trigger] (a + text::lowercase(query@) + b),
    {
        proof {
            self.tree.lemma_finite();
            law_grep_names(self.files(), query@);
            if let Some(id) = identity {
                law_grep_contents(self.files(), id@, query@);
            }
        }
        let needle = to_lowercase(query);
        let all = live_paths(&self.tree);
        let ghost paths = text::views(all@);
        let ghost files = self.files();
        let ghost key = key_of(identity);
        let ghost hit = |p: Seq<char>|
            name_matches(p, query@) || (key is Some && content_matches(files, p, key->0, query@));
        let ghost miss = |p: Seq<char>|
            !name_matches(p, query@) && key is Some && secrets::got(files, p, key->0) is Err;
        let mut matches: Vec<String> = Vec::new();
        let mut unreadable: Vec<String> = Vec::new();
        proof {
            health::lemma_filter_empty(hit);
            health::lemma_filter_empty(miss);
            assert(paths.take(0) =~= Seq::empty());
            assert(text::views(matches@) =~= Seq::empty());
            assert(text::views(unreadable@) =~= Seq::empty());
        }
        for i in 0..all.len()
            invariant
                self.wf(),
                needle@ == text::lowercase(query@),
                paths == text::views(all@),
                files == self.files(),
                key == key_of(identity),
                hit == (|p: Seq<char>|
                    name_matches(p, query@) || (key is Some && content_matches(
                        files,
                        p,
                        key->0,
                        query@,
                    ))),
                miss == (|p: Seq<char>|
                    !name_matches(p, query@) && key is Some && secrets::got(
                        files,
                        p,
                        key->0,
                    ) is Err),
                text::views(matches@) == paths.take(i as int).filter(hit),
                text::views(unreadable@) == paths.take(i as int).filter(miss),
        {
            let p = all[i].as_str();
            assert(paths.take(i + 1) =~= paths.take(i as int).push(p@));
            let ghost m0 = text::views(matches@);
            let ghost u0 = text::views(unreadable@);
            proof {
                health::lemma_filter_push(paths.take(i as int), p@, hit);
                health::lemma_filter_push(paths.take(i as int), p@, miss);
            }
            let name = to_lowercase(p);
            if contains_text(name.as_str(), needle.as_str()) {
                matches.push(copy_text(p));
                assert(text::views(matches@) =~= m0.push(p@));
            } else if let Some(id) = identity {
                match self.get(p, id) {
                    Ok(secret) => {
                        let content = to_lowercase(secret.expose());
                        if contains_text(content.as_str(), needle.as_str()) {
                            matches.push(copy_text(p));
                            assert(text::views(matches@) =~= m0.push(p@));
                        }
                    },
                    Err(_) => {
                        unreadable.push(copy_text(p));
                        assert(text::views(unreadable@) =~= u0.push(p@));
                    },
                }
            }
        }
        assert(paths.take(paths.len() as int) =~= paths);
        proof {
            if identity is None {
                health::lemma_filter_none(paths, miss);
                assert(text::views(unreadable@).len() == 0);
            }
        }
        GrepResults { matches, unreadable }
    }

    /// Replaces the recipients, and encrypts every secret again, to the new ones.
    /// Generations stay. If a secret cannot be read, nothing changes.
    pub fn set_recipients(
        &mut self,
        new_recipients: Vec<Recipient>,
        identity: &Identity,
    ) -> (r: Result<usize, Error>)
        requires
            old(self).wf(),
            rotation_encrypts(
                old(self).files(),
                crypto::texts(new_recipients@),
                identity.public(),
                identity@,
            ) ==> crypto::usable(crypto::texts(new_recipients@)),
        ensures
            final(self).wf(),
            final(self).dir() == old(self).dir(),
            rotated(
                *old(self),
                *final(self),
                crypto::texts(new_recipients@),
                identity.public(),
                identity@,
                r,
            ),
    {
        let ghost list = crypto::texts(new_recipients@);
        let public = identity.to_public();
        if !recipients_contain(new_recipients.as_slice(), &public) {
            return Err(
                Error::InvalidRecipient(
                    copy_text("recipient list must include your own public key"),
                ),
            );
        }
        assert(list.contains(public@));
        assert(new_recipients@.len() > 0);
        let ghost t0 = self.tree;
        let current = match prepare_rotation(&mut self.tree, identity) {
            Ok(l) => l,
            Err(e) => {
                return Err(e);
            },
        };
        assert(crypto::texts(current@).len() > 0);
        self.recipients = current;
        let ghost t1 = self.tree;
        let done = reencrypt(&mut self.tree, new_recipients.as_slice(), identity);
        proof {
            let mid = t1;
            assert(tree::advanced(
                t0,
                mid,
                rotation::rotation_prelude(t0.files(), identity@).effects,
            ) && rotation::reencrypted(mid, self.tree, list, identity@, done));
        }
        match done {
            Ok(n) => {
                self.recipients = new_recipients;
                Ok(n)
            },
            Err(e) => Err(e),
        }
    }

    /// Resolves a change of recipients that was interrupted.
    pub fn recover_rotation(&mut self, identity: &Identity) -> (r: Result<RotationRecovery, Error>)
        requires
            old(self).wf(),
        ensures
            final(self).wf(),
            final(self).same_setup(old(self)),
            tree::advanced(
                old(self).tree(),
                final(self).tree(),
                rotation::rotation_recovery(old(self).files(), identity@).effects,
            ),
            error::agrees(
                r,
                rotation::rotation_recovery(old(self).files(), identity@).result,
            ),
    {
        rollforward_or_back(&mut self.tree, identity)
    }

    /// Resolves a move that was interrupted.
    pub fn recover_move(&mut self, identity: &Identity) -> (r: Result<MoveRecovery, Error>)
        requires
            old(self).wf(),
        ensures
            final(self).wf(),
            final(self).same_setup(old(self)),
            tree::advanced(
                old(self).tree(),
                final(self).tree(),
                moves::move_recovery(old(self).files(), identity@).effects,
            ),
            error::agrees(r, moves::move_recovery(old(self).files(), identity@).result),
    {
        rollforward_or_back_move(&mut self.tree, identity)
    }

    /// Rebuilds the generation index from the envelopes.
    pub fn repair_generations(&mut self, identity: &Identity) -> (r: Result<RepairReport, Error>)
        requires
            old(self).wf(),
        ensures
            final(self).wf(),
            final(self).same_setup(old(self)),
            tree::advanced(
                old(self).tree(),
                final(self).tree(),
                health::repair_effects(old(self).files(), identity@),
            ),
            health::reported(old(self).files(), identity@, r),
    {
        health::repair_generations(&mut self.tree, identity)
    }

    /// Compares the envelopes with the generation index.
    pub fn generation_census(&self, identity: &Identity) -> (r: Result<GenerationCensus, Error>)
        requires
            self.wf(),
        ensures
            health::surveyed(self.files(), identity@, r),
    {
        health::generation_census(&self.tree, identity)
    }
}

/// The key of an identity, where there is one.
pub open spec fn key_of(identity: Option<&Identity>) -> Option<Seq<u8>> {
    match identity {
        Some(id) => Some(id@),
        None => None,
    }
}

/// Whether a change of recipients comes to encrypting a secret: one's own key is among
/// the new ones, what was interrupted is resolved, and the first secret can be read.
pub open spec fn rotation_encrypts(
    files: Files,
    list: Seq<Seq<char>>,
    own: Seq<char>,
    key: Seq<u8>,
) -> bool {
    &&& list.contains(own)
    &&& rotation::rotation_prelude(files, key).result is Ok
    &&& rotation::reencryption_encrypts(rotation::resolved(files, key), key)
}

/// What a change of recipients does to a store: it is refused where one's own key
/// is not among the new ones; interrupted work is resolved first, and then the list
/// on disk counts; the new list counts once all secrets are encrypted to it.
pub open spec fn rotated(
    before: Store,
    after: Store,
    list: Seq<Seq<char>>,
    own: Seq<char>,
    key: Seq<u8>,
    result: Result<usize, Error>,
) -> bool {
    if !list.contains(own) {
        after == before && (result matches Err(e) && e@ == Failure::InvalidRecipient(
            "recipient list must include your own public key"@,
        ))
    } else {
        let prelude = rotation::rotation_prelude(before.files(), key);
        match prelude.result {
            Err(f) => after.keys() == before.keys() && tree::advanced(
                before.tree(),
                after.tree(),
                prelude.effects,
            ) && (result matches Err(e) && e@ == f),
            Ok(current) => exists|mid: Tree|
                #[trigger] tree::advanced(before.tree(), mid, prelude.effects)
                    && rotation::reencrypted(mid, after.tree(), list, key, result) && after.keys()
                    == (if result is Ok {
                    list
                } else {
                    current
                }),
        }
    }
}

// ---------------------------------------------------------------------------
// Laws
// ---------------------------------------------------------------------------

/// The listing is in ascending order, and has a path exactly if a file has its name
/// with the extension `.age`, is no link, and is to be shown.
pub proof fn law_listing(files: Files)
    requires
        files.dom().finite(),
    ensures
        text::ascending(health::live(files)),
        forall|p: Seq<char>| #[trigger]
            health::live(files).contains(p) <==> files.contains_key(p + ".age"@) && !files[p
                + ".age"@].linked && listing::visible(p),
{
    listing::lemma_walk_exists(files, secrets::top());
    assert forall|p: Seq<char>| #[trigger] health::live(files).contains(p) <==> files.contains_key(
        p + ".age"@,
    ) && !files[p + ".age"@].linked && listing::visible(p) by {
        secrets::law_holds(files, p);
    }
}

/// What is listed under a prefix: every listed path for the empty one; else the listed
/// paths that are the prefix, or the prefix, a slash and more. The order is that of
/// the listing.
pub proof fn law_list_under(files: Files, prefix: Seq<char>)
    requires
        files.dom().finite(),
    ensures
        text::ascending(under(health::live(files), prefix)),
        forall|p: Seq<char>| #[trigger]
            under(health::live(files), prefix).contains(p) <==> health::live(files).contains(p) && (
            prefix.len() == 0 || p == prefix || exists|rest: Seq<char>|
                p == #[trigger] (prefix + seq!['/'] + rest)),
{
    law_listing(files);
    let paths = health::live(files);
    text::lemma_filter_ascending(paths, |p: Seq<char>| is_under(p, prefix));
    assert forall|p: Seq<char>| #[trigger] under(paths, prefix).contains(p) <==> paths.contains(p)
        && (prefix.len() == 0 || p == prefix || exists|rest: Seq<char>|
        p == #[trigger] (prefix + seq!['/'] + rest)) by {
        tree::law_inside(prefix, p);
    }
}

/// A search without a key finds exactly the listed paths that, in lower case, are some
/// text, the query in lower case, and some text, in the order of the listing.
pub proof fn law_grep_names(files: Files, query: Seq<char>)
    requires
        files.dom().finite(),
    ensures
        text::ascending(found(files, health::live(files), None, query)),
        forall|p: Seq<char>| #[trigger]
            found(files, health::live(files), None, query).contains(p) <==> health::live(
                files,
            ).contains(p) && exists|a: Seq<char>, b: Seq<char>|
                text::lowercase(p) == #[trigger] (a + text::lowercase(query) + b),
        not_read(files, health::live(files), None, query).len() == 0,
{
    law_listing(files);
    let paths = health::live(files);
    let key = None::<Seq<u8>>;
    text::lemma_filter_ascending(
        paths,
        |p: Seq<char>|
            name_matches(p, query) || (key is Some && content_matches(files, p, key->0, query)),
    );
    assert forall|p: Seq<char>| #[trigger] found(files, paths, key, query).contains(p)
        <==> paths.contains(p) && exists|a: Seq<char>, b: Seq<char>|
        text::lowercase(p) == #[trigger] (a + text::lowercase(query) + b) by {
        text::law_occurs_in(text::lowercase(query), text::lowercase(p));
    }
    health::lemma_filter_none(
        paths,
        |p: Seq<char>|
            !name_matches(p, query) && key is Some && secrets::got(files, p, key->0) is Err,
    );
}

/// A search with a key finds exactly the listed paths that match by name, and those
/// whose text can be read and, in lower case, has the query in lower case in it. The
/// paths that do not match by name and cannot be read are told apart. Both are in the
/// order of the listing.
pub proof fn law_grep_contents(files: Files, key: Seq<u8>, query: Seq<char>)
    requires
        files.dom().finite(),
    ensures
        ({
            let paths = health::live(files);
            let needle = text::lowercase(query);
            &&& text::ascending(found(files, paths, Some(key), query))
            &&& text::ascending(not_read(files, paths, Some(key), query))
            &&& forall|p: Seq<char>| #[trigger]
                found(files, paths, Some(key), query).contains(p) <==> paths.contains(p) && ((
                exists|a: Seq<char>, b: Seq<char>|
                    text::lowercase(p) == #[trigger] (a + needle + b)) || (secrets::got(
                    files,
                    p,
                    key,
                ) matches Ok(payload) && exists|a: Seq<char>, b: Seq<char>|
                    text::lowercase(crate::secret::exposed(payload)) == #[trigger] (a + needle
                        + b)))
            &&& forall|p: Seq<char>| #[trigger]
                not_read(files, paths, Some(key), query).contains(p) <==> paths.contains(p)
                    && secrets::got(files, p, key) is Err && !(exists|a: Seq<char>, b: Seq<char>|
                    text::lowercase(p) == #[trigger] (a + needle + b))
        }),
{
    law_listing(files);
    let paths = health::live(files);
    let needle = text::lowercase(query);
    let k = Some(key);
    text::lemma_filter_ascending(
        paths,
        |p: Seq<char>|
            name_matches(p, query) || (k is Some && content_matches(files, p, k->0, query)),
    );
    text::lemma_filter_ascending(
        paths,
        |p: Seq<char>|
            !name_matches(p, query) && k is Some && secrets::got(files, p, k->0) is Err,
    );
    assert forall|p: Seq<char>| #[trigger] found(files, paths, k, query).contains(p)
        <==> paths.contains(p) && ((exists|a: Seq<char>, b: Seq<char>|
        text::lowercase(p) == #[trigger] (a + needle + b)) || (secrets::got(
        files,
        p,
        key,
    ) matches Ok(payload) && exists|a: Seq<char>, b: Seq<char>|
        text::lowercase(crate::secret::exposed(payload)) == #[trigger] (a + needle + b))) by {
        text::law_occurs_in(needle, text::lowercase(p));
        if let Ok(payload) = secrets::got(files, p, key) {
            text::law_occurs_in(needle, text::lowercase(crate::secret::exposed(payload)));
        }
    }
    assert forall|p: Seq<char>| #[trigger] not_read(files, paths, k, query).contains(p)
        <==> paths.contains(p) && secrets::got(files, p, key) is Err && !(exists|
        a: Seq<char>,
        b: Seq<char>,
    | text::lowercase(p) == #[trigger] (a + needle + b)) by {
        text::law_occurs_in(needle, text::lowercase(p));
    }
}

/// A new store is for its owner first, and then for the others that it was created
/// with, each of them once.
pub proof fn law_created_for(owner: Seq<char>, extra: Seq<Seq<char>>)
    ensures
        ({
            let list = joined_keys(seq![owner], extra);
            &&& list.len() > 0 && list[0] == owner
            &&& list.no_duplicates()
            &&& forall|k: Seq<char>| #[trigger]
                list.contains(k) <==> k == owner || extra.contains(k)
        }),
    decreases extra.len(),
{
    let first = seq![owner];
    if extra.len() == 0 {
        assert(first[0] == owner);
    } else {
        let rest = extra.drop_last();
        let last = extra.last();
        law_created_for(owner, rest);
        let before = joined_keys(first, rest);
        let list = joined_keys(first, extra);
        assert forall|k: Seq<char>| #[trigger] extra.contains(k) <==> k == last || rest.contains(
            k,
        ) by {
            if extra.contains(k) {
                let i = extra.index_of(k);
                if i < rest.len() {
                    assert(rest[i] == k);
                }
            }
            if rest.contains(k) {
                let i = rest.index_of(k);
                assert(extra[i] == k);
            }
            if k == last {
                assert(extra[extra.len() - 1] == k);
            }
        }
        if !before.contains(last) {
            assert(list == before.push(last));
            assert forall|k: Seq<char>| #[trigger] list.contains(k) <==> k == last
                || before.contains(k) by {
                if list.contains(k) {
                    let i = list.index_of(k);
                    if i < before.len() {
                        assert(before[i] == k);
                    }
                }
                if before.contains(k) {
                    let i = before.index_of(k);
                    assert(list[i] == k);
                }
                if k == last {
                    assert(list[before.len() as int] == k);
                }
            }
            assert forall|i: int, j: int| 0 <= i < list.len() && 0 <= j < list.len() && i != j implies
                list[i] != list[j] by {
                if i < before.len() {
                    assert(before.contains(before[i]));
                }
                if j < before.len() {
                    assert(before.contains(before[j]));
                }
            }
        }
    }
}

} // verus!
