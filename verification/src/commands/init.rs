//! Setting up an identity and a store, and where passphrases come from.

use vstd::prelude::*;

use crate::commands::message;
use crate::commands::message::{concat, Message, MessageV};
use crate::error;
use crate::error::{Error, Failure};
use crate::git;
use crate::store::Config;
use crate::text::copy_text;
use crate::tree;
use crate::tree::Tree;

verus! {

/// Where a passphrase comes from.
#[derive(Debug, Clone, Copy, PartialEq, Eq, Structural)]
pub enum PassphraseSource {
    /// The environment.
    Environment,
    /// A prompt.
    Prompt,
}

impl View for PassphraseSource {
    type V = PassphraseSource;

    open spec fn view(&self) -> PassphraseSource {
        *self
    }
}

/// What a passphrase is for.
#[derive(Debug, Clone, Copy, PartialEq, Eq, Structural)]
pub enum Purpose {
    /// Setting up a new identity.
    Init,
    /// Restoring an identity from a backup.
    Import,
    /// Unlocking the identity.
    Unlock,
}

/// What is said where a passphrase would have to be asked for and cannot be.
pub open spec fn missing_passphrase(purpose: Purpose) -> Seq<char> {
    match purpose {
        Purpose::Init =>
            "KS_PASSPHRASE is required to set the master passphrase in --json mode"@,
        Purpose::Import => "KS_PASSPHRASE is required to import an identity in --json mode"@,
        Purpose::Unlock => "KS_PASSPHRASE is required to unlock the identity in --json mode"@,
    }
}

/// Where the passphrase comes from: the environment, if it is set there; else a
/// prompt, except where output is for programs.
pub open spec fn source(set: bool, json: bool, purpose: Purpose) -> Result<
    PassphraseSource,
    Failure,
> {
    if set {
        Ok(PassphraseSource::Environment)
    } else if json {
        Err(Failure::InvalidArgument(missing_passphrase(purpose)))
    } else {
        Ok(PassphraseSource::Prompt)
    }
}

/// Decides where the passphrase comes from.
pub fn passphrase_source(set: bool, json: bool, purpose: Purpose) -> (r: Result<
    PassphraseSource,
    Error,
>)
    ensures
        error::agrees(r, source(set, json, purpose)),
{
    if set {
        Ok(PassphraseSource::Environment)
    } else if json {
        Err(
            Error::InvalidArgument(
                match purpose {
                    Purpose::Init => copy_text(
                        "KS_PASSPHRASE is required to set the master passphrase in --json mode",
                    ),
                    Purpose::Import => copy_text(
                        "KS_PASSPHRASE is required to import an identity in --json mode",
                    ),
                    Purpose::Unlock => copy_text(
                        "KS_PASSPHRASE is required to unlock the identity in --json mode",
                    ),
                },
            ),
        )
    } else {
        Ok(PassphraseSource::Prompt)
    }
}

/// What is done where there is an identity already: it is never touched. With git
/// asked for, the store becomes a repository if it is none. The result says whether
/// that is still to be done.
pub open spec fn existing(
    identity_path: Seq<char>,
    store_dir: Seq<char>,
    init_git: bool,
    store_found: bool,
    repo: bool,
) -> Result<bool, Failure> {
    if !init_git {
        Err(Failure::IdentityExists(identity_path))
    } else if !store_found {
        Err(Failure::StoreNotFound(store_dir))
    } else {
        Ok(!repo)
    }
}

/// Decides what is done where there is an identity already.
pub fn enable_git_on_existing(
    config: &Config,
    init_git: bool,
    store_found: bool,
    t: &Tree,
) -> (r: Result<bool, Error>)
    requires
        t.wf(),
    ensures
        error::agrees(
            r,
            existing(
                config.identity_path@,
                config.store_dir@,
                init_git,
                store_found,
                tree::present(t.files(), ".git"@),
            ),
        ),
{
    if !init_git {
        return Err(Error::IdentityExists(copy_text(config.identity_path.as_str())));
    }
    if !store_found {
        return Err(Error::StoreNotFound(copy_text(config.store_dir.as_str())));
    }
    Ok(!git::is_repo(t))
}

/// What is said where there was an identity already.
pub open spec fn existing_text(store_dir: Seq<char>, added: bool) -> Seq<MessageV> {
    if added {
        seq![
            MessageV::Success(
                "Initialised git repository in existing store at "@ + store_dir,
            ),
            MessageV::Info(
                "Connect a remote with `ks git remote add origin <url>`, then `ks sync`"@,
            ),
        ]
    } else {
        seq![MessageV::Info("Store at "@ + store_dir + " is already a git repository"@)]
    }
}

/// Says what was done where there was an identity already.
pub fn existing_messages(store_dir: &str, added: bool) -> (r: Vec<Message>)
    ensures
        message::said(r@) == existing_text(store_dir@, added),
{
    let r: Vec<Message> = if added {
        vec![
            Message::Success(
                concat("Initialised git repository in existing store at ", store_dir),
            ),
            Message::Info(
                copy_text("Connect a remote with `ks git remote add origin <url>`, then `ks sync`"),
            ),
        ]
    } else {
        let mut m = concat("Store at ", store_dir);
        m.append(" is already a git repository");
        vec![Message::Info(m)]
    };
    assert(message::said(r@) =~= existing_text(store_dir@, added));
    r
}

/// What is said of a new identity and store.
pub open spec fn created_text(
    identity_path: Seq<char>,
    store_dir: Seq<char>,
    public: Seq<char>,
    init_git: bool,
) -> Seq<MessageV> {
    let first = seq![
        MessageV::Success("Identity written to "@ + identity_path),
        MessageV::Success("Store created at "@ + store_dir),
        MessageV::Info("Public key (recipient): "@ + public),
    ];
    if init_git {
        first.push(MessageV::Success("Initialised git repository in store"@))
    } else {
        first
    }
}

/// Says what was created.
pub fn created_messages(
    identity_path: &str,
    store_dir: &str,
    public: &str,
    init_git: bool,
) -> (r: Vec<Message>)
    ensures
        message::said(r@) == created_text(identity_path@, store_dir@, public@, init_git),
{
    let mut r: Vec<Message> = vec![
        Message::Success(concat("Identity written to ", identity_path)),
        Message::Success(concat("Store created at ", store_dir)),
        Message::Info(concat("Public key (recipient): ", public)),
    ];
    if init_git {
        r.push(Message::Success(copy_text("Initialised git repository in store")));
    }
    assert(message::said(r@) =~= created_text(identity_path@, store_dir@, public@, init_git));
    r
}

/// A passphrase that is set is used, whatever the output is for; one that is not is asked
/// for, unless the output is for programs, which is an error.
pub proof fn law_passphrase(purpose: Purpose, json: bool)
    ensures
        source(true, json, purpose) == Ok::<PassphraseSource, Failure>(
            PassphraseSource::Environment,
        ),
        source(false, false, purpose) == Ok::<PassphraseSource, Failure>(PassphraseSource::Prompt),
        source(false, true, purpose) matches Err(e) && e is InvalidArgument,
{
}

/// An identity that is there is never set up again: without git there is an error. With
/// it, the store has to be there, and becomes a repository exactly if it is none.
pub proof fn law_existing_identity(
    identity_path: Seq<char>,
    store_dir: Seq<char>,
    store_found: bool,
    repo: bool,
)
    ensures
        existing(identity_path, store_dir, false, store_found, repo) == Err::<bool, Failure>(
            Failure::IdentityExists(identity_path),
        ),
        existing(identity_path, store_dir, true, false, repo) == Err::<bool, Failure>(
            Failure::StoreNotFound(store_dir),
        ),
        existing(identity_path, store_dir, true, true, true) == Ok::<bool, Failure>(false),
        existing(identity_path, store_dir, true, true, false) == Ok::<bool, Failure>(true),
{
}

} // verus!
