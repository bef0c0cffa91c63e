//! Synchronising a store: commit, pull and push in one step.

use vstd::prelude::*;

use crate::error;
use crate::error::{Error, Failure};
use crate::git;
use crate::git::Output;
use crate::rotation::ROTATE_READY;
use crate::text;
use crate::text::copy_text;
use crate::tree;
use crate::tree::{Files, Tree};

verus! {

/// Which command is to be run next.
#[derive(Debug, Clone, Copy, PartialEq, Eq, Structural)]
pub enum SyncStep {
    /// `git add -A`.
    AddAll,
    /// `git commit`.
    Commit,
    /// `git pull --rebase --autostash`.
    Pull,
    /// `git push`.
    Push,
    /// None: it is done.
    Done,
}

impl View for SyncStep {
    type V = SyncStep;

    open spec fn view(&self) -> SyncStep {
        *self
    }
}

/// The first command, or why there is none: the store is no repository, or a
/// rotation was committed and not completed, so that some secrets may be encrypted to
/// the new recipients and others to the old ones.
pub open spec fn first_step(files: Files, dir: Seq<char>) -> Result<SyncStep, Failure> {
    if !tree::present(files, ".git"@) {
        Err(
            Failure::InvalidArgument(
                dir + " is not a git repository; run `ks init --git` or `ks git init`"@,
            ),
        )
    } else if tree::present(files, ROTATE_READY@) {
        Err(
            Failure::InvalidArgument(
                "interrupted recipient rotation pending; run ks doctor"@,
            ),
        )
    } else {
        Ok(SyncStep::AddAll)
    }
}

/// The first command, if the store is a repository and no rotation is half done.
pub fn begin(t: &Tree, dir: &str) -> (r: Result<SyncStep, Error>)
    requires
        t.wf(),
    ensures
        error::agrees(r, first_step(t.files(), dir@)),
{
    if !git::is_repo(t) {
        let mut m = copy_text(dir);
        m.append(" is not a git repository; run `ks init --git` or `ks git init`");
        return Err(Error::InvalidArgument(m));
    }
    if t.is_present(ROTATE_READY) {
        return Err(
            Error::InvalidArgument(
                copy_text("interrupted recipient rotation pending; run ks doctor"),
            ),
        );
    }
    Ok(SyncStep::AddAll)
}

/// The arguments of a command.
pub open spec fn step_command(step: SyncStep, message: Seq<char>) -> Seq<Seq<char>> {
    match step {
        SyncStep::AddAll => git::add_all_command(),
        SyncStep::Commit => git::commit_command(message),
        SyncStep::Pull => git::pull_rebase_command(),
        SyncStep::Push => git::push_command(),
        SyncStep::Done => Seq::empty(),
    }
}

/// The arguments of `git` for a step.
pub fn step_args(step: SyncStep, message: &str) -> (r: Vec<String>)
    ensures
        text::views(r@) == step_command(step, message@),
{
    match step {
        SyncStep::AddAll => git::add_all_args(),
        SyncStep::Commit => git::commit_args(message),
        SyncStep::Pull => git::pull_rebase_args(),
        SyncStep::Push => git::push_args(),
        SyncStep::Done => {
            let none: Vec<String> = Vec::new();
            assert(text::views(none@) =~= Seq::empty());
            none
        },
    }
}

/// What follows a command: the next one, or the failure of this one.
pub open spec fn next_step(step: SyncStep, message: Seq<char>, output: Output) -> Result<
    SyncStep,
    Failure,
> {
    match step {
        SyncStep::AddAll => match git::done(git::add_all_command(), output) {
            Ok(_) => Ok(SyncStep::Commit),
            Err(e) => Err(e),
        },
        SyncStep::Commit => match git::committed(message, output) {
            Ok(_) => Ok(SyncStep::Pull),
            Err(e) => Err(e),
        },
        SyncStep::Pull => match git::done(git::pull_rebase_command(), output) {
            Ok(_) => Ok(SyncStep::Push),
            Err(e) => Err(e),
        },
        SyncStep::Push => match git::done(git::push_command(), output) {
            Ok(_) => Ok(SyncStep::Done),
            Err(e) => Err(e),
        },
        SyncStep::Done => Ok(SyncStep::Done),
    }
}

/// Says what follows a command.
pub fn advance(step: SyncStep, message: &str, output: &Output) -> (r: Result<SyncStep, Error>)
    ensures
        error::agrees(r, next_step(step, message@, *output)),
{
    match step {
        SyncStep::AddAll => match git::add_all(output) {
            Ok(_) => Ok(SyncStep::Commit),
            Err(e) => Err(e),
        },
        SyncStep::Commit => match git::commit(message, output) {
            Ok(_) => Ok(SyncStep::Pull),
            Err(e) => Err(e),
        },
        SyncStep::Pull => match git::pull_rebase(output) {
            Ok(_) => Ok(SyncStep::Push),
            Err(e) => Err(e),
        },
        SyncStep::Push => match git::push(output) {
            Ok(_) => Ok(SyncStep::Done),
            Err(e) => Err(e),
        },
        SyncStep::Done => Ok(SyncStep::Done),
    }
}

/// Nothing is pushed before it is committed and rebased: a push comes after a pull
/// that went well, and a pull after a commit that went well or had nothing to do.
pub proof fn law_push_comes_last(step: SyncStep, message: Seq<char>, output: Output)
    ensures
        next_step(step, message, output) == Ok::<SyncStep, Failure>(SyncStep::Push) ==> step
            == SyncStep::Pull && output.success,
        next_step(step, message, output) == Ok::<SyncStep, Failure>(SyncStep::Pull) ==> step
            == SyncStep::Commit && git::committed(message, output) is Ok,
        next_step(step, message, output) == Ok::<SyncStep, Failure>(SyncStep::Commit) ==> step
            == SyncStep::AddAll && output.success,
{
}

/// A store is never pushed in the middle of a rotation: while a committed rotation
/// is not completed, there is no first command, and so no push.
pub proof fn law_half_rotated_is_not_pushed(files: Files, dir: Seq<char>)
    requires
        tree::present(files, ROTATE_READY@),
    ensures
        first_step(files, dir) is Err,
{
}

/// Each command that goes well is followed by the next one, up to the end: adding,
/// committing, pulling, pushing. One that fails stops it with what git reported; a
/// commit that git says has nothing to do goes well.
pub proof fn law_sync_goes_on(message: Seq<char>, output: Output, before: Seq<char>, after: Seq<char>)
    ensures
        output.success ==> {
            &&& next_step(SyncStep::AddAll, message, output) == Ok::<SyncStep, Failure>(
                SyncStep::Commit,
            )
            &&& next_step(SyncStep::Commit, message, output) == Ok::<SyncStep, Failure>(
                SyncStep::Pull,
            )
            &&& next_step(SyncStep::Pull, message, output) == Ok::<SyncStep, Failure>(
                SyncStep::Push,
            )
            &&& next_step(SyncStep::Push, message, output) == Ok::<SyncStep, Failure>(
                SyncStep::Done,
            )
        },
        !output.success ==> {
            &&& next_step(SyncStep::AddAll, message, output) is Err
            &&& next_step(SyncStep::Pull, message, output) is Err
            &&& next_step(SyncStep::Push, message, output) is Err
        },
        ({
            let said = text::lossy_text(output.stdout@) + text::lossy_text(output.stderr@);
            &&& said == before + "nothing to commit"@ + after || said == before
                + "no changes added"@ + after ==> next_step(SyncStep::Commit, message, output)
                == Ok::<SyncStep, Failure>(SyncStep::Pull)
            &&& !output.success && (forall|a: Seq<char>, b: Seq<char>|
                said != #[trigger] (a + "nothing to commit"@ + b)) && (forall|
                a: Seq<char>,
                b: Seq<char>,
            | said != #[trigger] (a + "no changes added"@ + b)) ==> next_step(
                SyncStep::Commit,
                message,
                output,
            ) is Err
        }),
{
    let said = text::lossy_text(output.stdout@) + text::lossy_text(output.stderr@);
    text::law_occurs_in("nothing to commit"@, said);
    text::law_occurs_in("no changes added"@, said);
}

/// A repository in which no rotation is half done is synchronised; any other store is
/// not.
pub proof fn law_sync_begins(files: Files, dir: Seq<char>)
    ensures
        first_step(files, dir) == Ok::<SyncStep, Failure>(SyncStep::AddAll) <==> tree::present(
            files,
            ".git"@,
        ) && !tree::present(files, ROTATE_READY@),
        first_step(files, dir) is Ok ==> first_step(files, dir)->Ok_0 == SyncStep::AddAll,
{
}

} // verus!
