//! The store as a git repository.
//!
//! The `git` binary is run by the caller. This module says with which arguments,
//! what its output means, and which lines the store's git files have to hold.

use vstd::prelude::*;
use vstd::utf8;

use crate::error;
use crate::error::{Error, Failure};
use crate::text;
use crate::text::{
    contains_text, copy_text, from_chars, join, list_has, size_text, split_chars, to_chars,
    to_lossy_text, to_quoted, trim_chars, utf8_text,
};
use crate::tree;
use crate::tree::{Effect, Files, Tree};

verus! {

/// The file with git's attributes.
pub const ATTRIBUTES_FILE: &'static str = ".gitattributes";

/// The file with the names that git ignores.
pub const IGNORE_FILE: &'static str = ".gitignore";

/// The lines that `.gitattributes` has to hold.
pub open spec fn required_attributes() -> Seq<Seq<char>> {
    seq![
        "*.age binary -diff -merge"@,
        ".age-recipients text eol=lf merge=union"@,
        ".ks-generations text eol=lf merge=union"@,
    ]
}

/// The lines that `.gitignore` has to hold.
pub open spec fn required_ignore() -> Seq<Seq<char>> {
    seq![".ks.lock"@, ".ks-rotate/"@, ".ks-move/"@, "*.tmp"@]
}

fn attribute_lines() -> (r: Vec<String>)
    ensures
        text::views(r@) == required_attributes(),
{
    let r: Vec<String> = vec![
        copy_text("*.age binary -diff -merge"),
        copy_text(".age-recipients text eol=lf merge=union"),
        copy_text(".ks-generations text eol=lf merge=union"),
    ];
    assert(text::views(r@) =~= required_attributes());
    r
}

fn ignore_lines() -> (r: Vec<String>)
    ensures
        text::views(r@) == required_ignore(),
{
    let r: Vec<String> = vec![
        copy_text(".ks.lock"),
        copy_text(".ks-rotate/"),
        copy_text(".ks-move/"),
        copy_text("*.tmp"),
    ];
    assert(text::views(r@) =~= required_ignore());
    r
}

/// The lines of a text, without the white space around them.
pub open spec fn trimmed_lines(body: Seq<char>) -> Seq<Seq<char>> {
    text::pieces(body, '\n').map_values(|l: Seq<char>| text::trimmed(l))
}

/// Whether a text holds a line. Empty lines do not count.
pub open spec fn has_line(body: Seq<char>, line: Seq<char>) -> bool {
    line.len() > 0 && trimmed_lines(body).contains(line)
}

/// Those of the required lines that a text does not hold.
pub open spec fn missing_of(body: Seq<char>, required: Seq<Seq<char>>) -> Seq<Seq<char>>
    decreases required.len(),
{
    if required.len() == 0 {
        Seq::empty()
    } else {
        let before = missing_of(body, required.drop_last());
        if has_line(body, required.last()) {
            before
        } else {
            before.push(required.last())
        }
    }
}

/// Lines, each with its line break.
pub open spec fn as_lines(lines: Seq<Seq<char>>) -> Seq<char>
    decreases lines.len(),
{
    if lines.len() == 0 {
        Seq::empty()
    } else {
        as_lines(lines.drop_last()) + lines.last() + seq!['\n']
    }
}

/// A text with lines put behind it, on lines of their own.
pub open spec fn appended(body: Seq<char>, lines: Seq<Seq<char>>) -> Seq<char> {
    if body.len() == 0 || body.last() == '\n' {
        body + as_lines(lines)
    } else {
        body + seq!['\n'] + as_lines(lines)
    }
}

/// What the text of a file is, or why it has none. A file that does not exist is
/// empty.
pub open spec fn text_in(files: Files, file: Seq<char>) -> Result<Seq<char>, Failure> {
    if !tree::present(files, file) {
        Ok(Seq::empty())
    } else {
        match tree::contents(files, file) {
            Err(e) => Err(e),
            Ok(bytes) => if utf8::valid_utf8(bytes) {
                Ok(utf8::decode_utf8(bytes))
            } else {
                Err(Failure::InvalidData("stream did not contain valid UTF-8"@))
            },
        }
    }
}

/// The changes that make a file hold the required lines: none if it does, else one
/// write that appends those that are missing.
pub open spec fn line_effects(
    file: Seq<char>,
    body: Seq<char>,
    required: Seq<Seq<char>>,
) -> Seq<Effect> {
    let missing = missing_of(body, required);
    if missing.len() == 0 {
        Seq::empty()
    } else {
        seq![Effect::Write { file, bytes: utf8::encode_utf8(appended(body, missing)) }]
    }
}

fn read_text(t: &Tree, file: &str) -> (r: Result<String, Error>)
    requires
        t.wf(),
    ensures
        error::agrees(r, text_in(t.files(), file@)),
{
    if !t.is_present(file) {
        let r = String::new();
        return Ok(r);
    }
    match t.read(file) {
        Err(e) => Err(e),
        Ok(bytes) => match utf8_text(bytes.as_slice()) {
            Ok(s) => Ok(copy_text(s)),
            Err(_) => Err(Error::InvalidData(copy_text("stream did not contain valid UTF-8"))),
        },
    }
}

fn lines_trimmed(body: &str) -> (r: Vec<String>)
    ensures
        text::views(r@) == trimmed_lines(body@),
{
    let cs = to_chars(body);
    let lines = split_chars(cs.as_slice(), '\n');
    let mut out: Vec<String> = Vec::new();
    for i in 0..lines.len()
        invariant
            lines@.len() == text::pieces(body@, '\n').len(),
            forall|j: int|
                0 <= j < lines@.len() ==> #[trigger] lines@[j]@ == text::pieces(body@, '\n')[j],
            out@.len() == i,
            forall|j: int| 0 <= j < i ==> #[trigger] out@[j]@ == trimmed_lines(body@)[j],
    {
        let t = trim_chars(lines[i].as_slice());
        out.push(from_chars(t.as_slice()));
    }
    assert(text::views(out@) =~= trimmed_lines(body@));
    out
}

/// Makes a file hold each of the required lines: creates it, or appends those that
/// are missing, and says which those were. Lines that are there stay as they are.
pub fn ensure_lines(t: &mut Tree, file: &str, required: &[String]) -> (r: Result<
    Vec<String>,
    Error,
>)
    requires
        old(t).wf(),
    ensures
        final(t).wf(),
        match text_in(old(t).files(), file@) {
            Ok(body) => r matches Ok(added) && text::views(added@) == missing_of(
                body,
                text::views(required@),
            ) && final(t).effects() == old(t).effects() + line_effects(
                file@,
                body,
                text::views(required@),
            ) && final(t).files() == tree::replayed(
                old(t).files(),
                line_effects(file@, body, text::views(required@)),
            ),
            Err(f) => r matches Err(e) && e@ == f && final(t).files() == old(t).files()
                && final(t).effects() == old(t).effects(),
        },
{
    let body = match read_text(t, file) {
        Ok(b) => b,
        Err(e) => {
            return Err(e);
        },
    };
    let have = lines_trimmed(body.as_str());
    let ghost all = text::views(required@);
    let mut added: Vec<String> = Vec::new();
    let mut append = String::new();
    assert(all.take(0) =~= Seq::empty());
    assert(text::views(added@) =~= Seq::empty());
    for i in 0..required.len()
        invariant
            all == text::views(required@),
            text::views(have@) == trimmed_lines(body@),
            text::views(added@) == missing_of(body@, all.take(i as int)),
            append@ == as_lines(text::views(added@)),
    {
        assert(all.take(i + 1).drop_last() =~= all.take(i as int));
        assert(all.take(i + 1).last() == required@[i as int]@);
        let line = required[i].as_str();
        if line.unicode_len() == 0 || !list_has(have.as_slice(), line) {
            let ghost before = text::views(added@);
            append.append(line);
            append.push('\n');
            added.push(copy_text(line));
            assert(text::views(added@) =~= before.push(line@));
            assert(before.push(line@).drop_last() =~= before);
            assert(append@ =~= as_lines(text::views(added@)));
        }
    }
    assert(all.take(all.len() as int) =~= all);
    if added.len() == 0 {
        assert(text::views(added@).len() == 0);
        assert(t.effects() + Seq::<Effect>::empty() =~= t.effects());
        return Ok(added);
    }
    assert(text::views(added@).len() > 0);
    let cs = to_chars(body.as_str());
    let mut out = body;
    if cs.len() > 0 && cs[cs.len() - 1] != '\n' {
        out.push('\n');
        assert(out@ =~= cs@ + seq!['\n']);
    }
    out.append(append.as_str());
    let ghost effect = Effect::Write { file: file@, bytes: utf8::encode_utf8(out@) };
    assert(out@ =~= appended(cs@, text::views(added@)));
    t.write(file, out.as_str().as_bytes());
    proof {
        assert(seq![effect].drop_last() =~= Seq::empty());
        tree::lemma_replayed_push(old(t).files(), Seq::empty(), effect);
        assert(Seq::<Effect>::empty().push(effect) =~= seq![effect]);
        assert(old(t).effects() + seq![effect] =~= old(t).effects().push(effect));
    }
    Ok(added)
}

/// Which lines [`ensure_git_templates`] appended.
#[derive(Debug, PartialEq, Eq)]
pub struct TemplateDelta {
    /// The lines that were appended to `.gitattributes`.
    pub attributes_added: Vec<String>,
    /// The lines that were appended to `.gitignore`.
    pub ignore_added: Vec<String>,
}

impl TemplateDelta {
    /// A delta without lines.
    pub fn new() -> (r: Self)
        ensures
            r.attributes_added@.len() == 0,
            r.ignore_added@.len() == 0,
    {
        TemplateDelta { attributes_added: Vec::new(), ignore_added: Vec::new() }
    }
}

/// What ensuring the templates does: first the attributes, then the ignored names.
/// A file that cannot be read stops it.
pub open spec fn template_effects(files: Files) -> Seq<Effect> {
    match text_in(files, ATTRIBUTES_FILE@) {
        Err(_) => Seq::empty(),
        Ok(attributes) => {
            let first = line_effects(ATTRIBUTES_FILE@, attributes, required_attributes());
            match text_in(tree::replayed(files, first), IGNORE_FILE@) {
                Err(_) => first,
                Ok(ignore) => first + line_effects(IGNORE_FILE@, ignore, required_ignore()),
            }
        },
    }
}

/// What ensuring the templates returns: the lines that were missing in each file.
pub open spec fn template_result(files: Files) -> Result<
    (Seq<Seq<char>>, Seq<Seq<char>>),
    Failure,
> {
    match text_in(files, ATTRIBUTES_FILE@) {
        Err(e) => Err(e),
        Ok(attributes) => match text_in(
            tree::replayed(files, line_effects(ATTRIBUTES_FILE@, attributes, required_attributes())),
            IGNORE_FILE@,
        ) {
            Err(e) => Err(e),
            Ok(ignore) => Ok(
                (
                    missing_of(attributes, required_attributes()),
                    missing_of(ignore, required_ignore()),
                ),
            ),
        },
    }
}

/// Makes the store's git files hold all lines that they have to hold.
pub fn ensure_git_templates(t: &mut Tree) -> (r: Result<TemplateDelta, Error>)
    requires
        old(t).wf(),
    ensures
        final(t).wf(),
        final(t).effects() == old(t).effects() + template_effects(old(t).files()),
        final(t).files() == tree::replayed(old(t).files(), template_effects(old(t).files())),
        match template_result(old(t).files()) {
            Ok(lines) => r matches Ok(delta) && text::views(delta.attributes_added@) == lines.0
                && text::views(delta.ignore_added@) == lines.1,
            Err(f) => r matches Err(e) && e@ == f,
        },
{
    let ghost start = t.files();
    let ghost noted = t.effects();
    assert(noted + Seq::<Effect>::empty() =~= noted);
    let first = ensure_lines(t, ATTRIBUTES_FILE, attribute_lines().as_slice());
    let attributes_added = match first {
        Ok(a) => a,
        Err(e) => {
            return Err(e);
        },
    };
    let ghost e1 = line_effects(
        ATTRIBUTES_FILE@,
        text_in(start, ATTRIBUTES_FILE@)->Ok_0,
        required_attributes(),
    );
    let second = ensure_lines(t, IGNORE_FILE, ignore_lines().as_slice());
    match second {
        Ok(ignore_added) => {
            proof {
                let e2 = line_effects(
                    IGNORE_FILE@,
                    text_in(tree::replayed(start, e1), IGNORE_FILE@)->Ok_0,
                    required_ignore(),
                );
                assert((noted + e1) + e2 =~= noted + (e1 + e2));
                tree::lemma_replayed_concat(start, e1, e2);
            }
            Ok(TemplateDelta { attributes_added, ignore_added })
        },
        Err(e) => Err(e),
    }
}

/// Whether the store directory is a repository: whether it holds `.git`, as a
/// directory or as a file.
pub fn is_repo(t: &Tree) -> (r: bool)
    requires
        t.wf(),
    ensures
        r == tree::present(t.files(), ".git"@),
{
    t.is_present(".git")
}

// ---------------------------------------------------------------------------
// Running git
// ---------------------------------------------------------------------------

/// What a run of `git` left behind.
pub struct Output {
    /// Whether it reported success.
    pub success: bool,
    /// Its exit code, unless a signal ended it.
    pub code: Option<i32>,
    /// What it wrote to its standard output.
    pub stdout: Vec<u8>,
    /// What it wrote to its standard error.
    pub stderr: Vec<u8>,
}

/// The exit code that is reported; minus one where there is none.
pub open spec fn reported_code(output: Output) -> i32 {
    match output.code {
        Some(c) => c,
        None => -1i32,
    }
}

/// What a run of `git` with some arguments gives: its standard output, or an error
/// with the command, the exit code and the standard error.
pub open spec fn ran(args: Seq<Seq<char>>, output: Output) -> Result<Seq<char>, Failure> {
    if output.success {
        Ok(text::lossy_text(output.stdout@))
    } else {
        Err(
            Failure::Command {
                cmd: "git "@ + text::joined(args, " "@),
                status: reported_code(output),
                stderr: text::lossy_text(output.stderr@),
            },
        )
    }
}

/// Like [`ran`], for a command whose output does not matter.
pub open spec fn done(args: Seq<Seq<char>>, output: Output) -> Result<(), Failure> {
    match ran(args, output) {
        Ok(_) => Ok(()),
        Err(e) => Err(e),
    }
}

fn code_of(output: &Output) -> (r: i32)
    ensures
        r == reported_code(*output),
{
    match output.code {
        Some(c) => c,
        None => -1,
    }
}

/// Says what a run of `git` with some arguments gives.
pub fn run(args: &[String], output: &Output) -> (r: Result<String, Error>)
    ensures
        error::agrees(r, ran(text::views(args@), *output)),
{
    if output.success {
        Ok(to_lossy_text(output.stdout.as_slice()))
    } else {
        let mut cmd = copy_text("git ");
        let joined = join(args, " ");
        cmd.append(joined.as_str());
        Err(
            Error::Command {
                cmd,
                status: code_of(output),
                stderr: to_lossy_text(output.stderr.as_slice()),
            },
        )
    }
}

fn run_quiet(args: &[String], output: &Output) -> (r: Result<(), Error>)
    ensures
        error::agrees(r, done(text::views(args@), *output)),
{
    match run(args, output) {
        Ok(_) => Ok(()),
        Err(e) => Err(e),
    }
}

/// `git init` on a branch `main`.
pub open spec fn init_command() -> Seq<Seq<char>> {
    seq!["init"@, "--initial-branch=main"@]
}

/// The arguments of `git init`.
pub fn init_args() -> (r: Vec<String>)
    ensures
        text::views(r@) == init_command(),
{
    let r: Vec<String> = vec![copy_text("init"), copy_text("--initial-branch=main")];
    assert(text::views(r@) =~= init_command());
    r
}

/// After `git init`: makes the store's git files hold what they have to.
pub fn init(t: &mut Tree, output: &Output) -> (r: Result<(), Error>)
    requires
        old(t).wf(),
    ensures
        final(t).wf(),
        match done(init_command(), *output) {
            Ok(_) => final(t).effects() == old(t).effects() + template_effects(old(t).files())
                && final(t).files() == tree::replayed(
                old(t).files(),
                template_effects(old(t).files()),
            ) && match template_result(old(t).files()) {
                Ok(_) => r is Ok,
                Err(f) => r matches Err(e) && e@ == f,
            },
            Err(f) => r matches Err(e) && e@ == f && final(t).files() == old(t).files()
                && final(t).effects() == old(t).effects(),
        },
{
    match run_quiet(init_args().as_slice(), output) {
        Err(e) => Err(e),
        Ok(_) => match ensure_git_templates(t) {
            Ok(_) => Ok(()),
            Err(e) => Err(e),
        },
    }
}

/// `git add -A`.
pub open spec fn add_all_command() -> Seq<Seq<char>> {
    seq!["add"@, "-A"@]
}

/// The arguments of `git add -A`.
pub fn add_all_args() -> (r: Vec<String>)
    ensures
        text::views(r@) == add_all_command(),
{
    let r: Vec<String> = vec![copy_text("add"), copy_text("-A")];
    assert(text::views(r@) =~= add_all_command());
    r
}

/// What a run of `git add -A` gives.
pub fn add_all(output: &Output) -> (r: Result<(), Error>)
    ensures
        error::agrees(r, done(add_all_command(), *output)),
{
    run_quiet(add_all_args().as_slice(), output)
}

/// `git commit -m` with a message.
pub open spec fn commit_command(message: Seq<char>) -> Seq<Seq<char>> {
    seq!["commit"@, "-m"@, message]
}

/// The arguments of `git commit -m` with a message.
pub fn commit_args(message: &str) -> (r: Vec<String>)
    ensures
        text::views(r@) == commit_command(message@),
{
    let r: Vec<String> = vec![copy_text("commit"), copy_text("-m"), copy_text(message)];
    assert(text::views(r@) =~= commit_command(message@));
    r
}

/// What a run of `git commit` gives: a failure, unless git says that there was
/// nothing to commit. The error quotes the message, and holds all that git wrote.
pub open spec fn committed(message: Seq<char>, output: Output) -> Result<(), Failure> {
    let combined = text::lossy_text(output.stdout@) + text::lossy_text(output.stderr@);
    if output.success || text::occurs_in("nothing to commit"@, combined) || text::occurs_in(
        "no changes added"@,
        combined,
    ) {
        Ok(())
    } else {
        Err(
            Failure::Command {
                cmd: "git commit -m "@ + text::quoted(message),
                status: reported_code(output),
                stderr: combined,
            },
        )
    }
}

/// What a run of `git commit -m` with a message gives.
pub fn commit(message: &str, output: &Output) -> (r: Result<(), Error>)
    ensures
        error::agrees(r, committed(message@, *output)),
{
    if output.success {
        return Ok(());
    }
    let mut combined = to_lossy_text(output.stdout.as_slice());
    let err = to_lossy_text(output.stderr.as_slice());
    combined.append(err.as_str());
    if contains_text(combined.as_str(), "nothing to commit") || contains_text(
        combined.as_str(),
        "no changes added",
    ) {
        return Ok(());
    }
    let mut cmd = copy_text("git commit -m ");
    let quoted = to_quoted(message);
    cmd.append(quoted.as_str());
    Err(Error::Command { cmd, status: code_of(output), stderr: combined })
}

/// `git pull` that rebases and stashes.
pub open spec fn pull_rebase_command() -> Seq<Seq<char>> {
    seq!["pull"@, "--rebase"@, "--autostash"@]
}

/// The arguments of `git pull --rebase --autostash`.
pub fn pull_rebase_args() -> (r: Vec<String>)
    ensures
        text::views(r@) == pull_rebase_command(),
{
    let r: Vec<String> = vec![
        copy_text("pull"),
        copy_text("--rebase"),
        copy_text("--autostash"),
    ];
    assert(text::views(r@) =~= pull_rebase_command());
    r
}

/// What a run of `git pull --rebase --autostash` gives.
pub fn pull_rebase(output: &Output) -> (r: Result<(), Error>)
    ensures
        error::agrees(r, done(pull_rebase_command(), *output)),
{
    run_quiet(pull_rebase_args().as_slice(), output)
}

/// `git push`.
pub open spec fn push_command() -> Seq<Seq<char>> {
    seq!["push"@]
}

/// The arguments of `git push`.
pub fn push_args() -> (r: Vec<String>)
    ensures
        text::views(r@) == push_command(),
{
    let r: Vec<String> = vec![copy_text("push")];
    assert(text::views(r@) =~= push_command());
    r
}

/// What a run of `git push` gives.
pub fn push(output: &Output) -> (r: Result<(), Error>)
    ensures
        error::agrees(r, done(push_command(), *output)),
{
    run_quiet(push_args().as_slice(), output)
}

/// `git status`, short, with the branch.
pub open spec fn status_command() -> Seq<Seq<char>> {
    seq!["status"@, "-sb"@]
}

/// The arguments of `git status -sb`.
pub fn status_args() -> (r: Vec<String>)
    ensures
        text::views(r@) == status_command(),
{
    let r: Vec<String> = vec![copy_text("status"), copy_text("-sb")];
    assert(text::views(r@) =~= status_command());
    r
}

/// What a run of `git status -sb` gives.
pub fn status(output: &Output) -> (r: Result<String, Error>)
    ensures
        error::agrees(r, ran(status_command(), *output)),
{
    run(status_args().as_slice(), output)
}

/// `git log` of the last `n` commits, one line each.
pub open spec fn log_command(n: nat) -> Seq<Seq<char>> {
    seq!["log"@, "--oneline"@, "-n"@ + text::decimal(n)]
}

/// The arguments of `git log --oneline` for the last `n` commits.
pub fn log_args(n: usize) -> (r: Vec<String>)
    ensures
        text::views(r@) == log_command(n as nat),
{
    let mut limit = copy_text("-n");
    let digits = size_text(n);
    limit.append(digits.as_str());
    let r: Vec<String> = vec![copy_text("log"), copy_text("--oneline"), limit];
    assert(text::views(r@) =~= log_command(n as nat));
    r
}

/// What a run of `git log --oneline` for the last `n` commits gives.
pub fn log(n: usize, output: &Output) -> (r: Result<String, Error>)
    ensures
        error::agrees(r, ran(log_command(n as nat), *output)),
{
    run(log_args(n).as_slice(), output)
}

// ---------------------------------------------------------------------------
// Laws
// ---------------------------------------------------------------------------

/// A line as the templates have them: not empty, without white space around it and
/// without a line break.
pub open spec fn template_line(line: Seq<char>) -> bool {
    line.len() > 0 && text::trimmed(line) == line && !line.contains('\n')
}

/// Appending keeps what was there.
pub proof fn law_templates_keep_text(body: Seq<char>, lines: Seq<Seq<char>>)
    ensures
        body.is_prefix_of(appended(body, lines)),
{
    assert(appended(body, lines).subrange(0, body.len() as int) =~= body);
}

/// The lines of a text stay lines when more are appended, and those that are
/// appended are lines as well.
proof fn lemma_appended_lines(body: Seq<char>, lines: Seq<Seq<char>>)
    requires
        forall|i: int| 0 <= i < lines.len() ==> template_line(#[trigger] lines[i]),
    ensures
        forall|l: Seq<char>|
            trimmed_lines(body).contains(l) && l.len() > 0 ==> #[trigger] trimmed_lines(
                appended(body, lines),
            ).contains(l),
        forall|i: int|
            0 <= i < lines.len() ==> trimmed_lines(appended(body, lines)).contains(
                #[trigger] lines[i],
            ),
{
    let tail = as_lines(lines);
    lemma_as_lines(lines);
    let head = if body.len() > 0 && body.last() == '\n' {
        body.drop_last()
    } else {
        body
    };
    let whole = appended(body, lines);
    if body.len() == 0 {
        assert(whole =~= tail);
        let none = text::pieces(body, '\n');
        assert(none =~= seq![Seq::<char>::empty()]);
        assert forall|l: Seq<char>|
            trimmed_lines(body).contains(l) && l.len() > 0 implies #[trigger] trimmed_lines(
            whole,
        ).contains(l) by {
            let i = trimmed_lines(body).index_of(l);
            assert(trimmed_lines(body)[i] == text::trimmed(none[i]));
        }
        lemma_find_lines(text::pieces(tail, '\n'), lines, 0);
    } else {
        assert(whole =~= head + seq!['\n'] + tail);
        text::lemma_pieces_concat(head, tail, '\n');
        let a = text::pieces(head, '\n');
        let b = text::pieces(tail, '\n');
        if body.last() == '\n' {
            text::lemma_pieces_concat(head, Seq::empty(), '\n');
            assert(head + seq!['\n'] + Seq::<char>::empty() =~= body);
            assert(text::pieces(Seq::<char>::empty(), '\n') =~= seq![Seq::<char>::empty()]);
            assert(text::pieces(body, '\n') =~= a.push(Seq::<char>::empty()));
        }
        assert forall|l: Seq<char>|
            trimmed_lines(body).contains(l) && l.len() > 0 implies #[trigger] trimmed_lines(
            whole,
        ).contains(l) by {
            let i = trimmed_lines(body).index_of(l);
            assert(trimmed_lines(body)[i] == text::trimmed(text::pieces(body, '\n')[i]));
            if i < a.len() {
                assert(text::pieces(body, '\n')[i] == a[i]);
                assert((a + b)[i] == a[i]);
                assert(trimmed_lines(whole)[i] == l);
            } else {
                assert(text::trimmed(Seq::<char>::empty()).len() == 0);
            }
        }
        assert(text::pieces(whole, '\n') == a + b);
        assert forall|i: int| 0 <= i < lines.len() implies trimmed_lines(whole).contains(
            #[trigger] lines[i],
        ) by {
            assert((a + b)[a.len() + i] == lines[i]);
            assert(trimmed_lines(whole)[a.len() + i] == text::trimmed(lines[i]));
        }
    }
}

/// Lines at the start of a split text are found among its lines.
proof fn lemma_find_lines(parts: Seq<Seq<char>>, lines: Seq<Seq<char>>, at: int)
    requires
        0 <= at,
        at + lines.len() <= parts.len(),
        forall|i: int| 0 <= i < lines.len() ==> template_line(#[trigger] lines[i]),
        forall|i: int| 0 <= i < lines.len() ==> parts[at + i] == #[trigger] lines[i],
    ensures
        forall|i: int|
            0 <= i < lines.len() ==> parts.map_values(
                |l: Seq<char>| text::trimmed(l),
            ).contains(#[trigger] lines[i]),
{
    let m = parts.map_values(|l: Seq<char>| text::trimmed(l));
    assert forall|i: int| 0 <= i < lines.len() implies m.contains(#[trigger] lines[i]) by {
        assert(m[at + i] == text::trimmed(parts[at + i]));
    }
}

/// Splitting lines that were put together gives them back, and an empty rest.
proof fn lemma_as_lines(lines: Seq<Seq<char>>)
    requires
        forall|i: int| 0 <= i < lines.len() ==> template_line(#[trigger] lines[i]),
    ensures
        text::pieces(as_lines(lines), '\n') == lines.push(Seq::<char>::empty()),
    decreases lines.len(),
{
    if lines.len() == 0 {
        assert(lines =~= Seq::empty());
        assert(text::pieces(as_lines(lines), '\n') =~= lines.push(Seq::<char>::empty()));
    } else {
        let rest = lines.drop_last();
        let l = lines.last();
        assert(template_line(lines[lines.len() - 1]));
        assert forall|i: int| 0 <= i < rest.len() implies template_line(#[trigger] rest[i]) by {
            assert(rest[i] == lines[i]);
        }
        lemma_as_lines(rest);
        let before = as_lines(rest);
        text::lemma_pieces_append(before, l, '\n');
        text::lemma_pieces_concat(before + l, Seq::empty(), '\n');
        assert(before + l + seq!['\n'] + Seq::<char>::empty() =~= as_lines(lines));
        assert(text::pieces(Seq::<char>::empty(), '\n') =~= seq![Seq::<char>::empty()]);
        assert(text::pieces(as_lines(lines), '\n') =~= lines.push(Seq::<char>::empty()));
    }
}

/// What is missing is exactly what is required and not there.
proof fn lemma_missing(body: Seq<char>, required: Seq<Seq<char>>)
    ensures
        forall|i: int|
            0 <= i < missing_of(body, required).len() ==> required.contains(
                #[trigger] missing_of(body, required)[i],
            ),
        forall|i: int|
            0 <= i < required.len() ==> has_line(body, #[trigger] required[i]) || missing_of(
                body,
                required,
            ).contains(required[i]),
        (forall|i: int| 0 <= i < required.len() ==> has_line(body, #[trigger] required[i]))
            ==> missing_of(body, required).len() == 0,
    decreases required.len(),
{
    if required.len() > 0 {
        let rest = required.drop_last();
        lemma_missing(body, rest);
        let m = missing_of(body, required);
        let before = missing_of(body, rest);
        assert forall|i: int| 0 <= i < m.len() implies required.contains(#[trigger] m[i]) by {
            if i < before.len() {
                assert(m[i] == before[i]);
                let j = rest.index_of(before[i]);
                assert(rest.contains(before[i]));
                assert(required[j] == before[i]);
            } else {
                assert(m[i] == required[required.len() - 1]);
            }
        }
        assert forall|i: int| 0 <= i < required.len() implies has_line(
            body,
            #[trigger] required[i],
        ) || m.contains(required[i]) by {
            if i < rest.len() {
                assert(rest[i] == required[i]);
                if before.contains(rest[i]) {
                    let j = before.index_of(rest[i]);
                    assert(m[j] == rest[i]);
                }
            } else if !has_line(body, required.last()) {
                assert(m[m.len() - 1] == required.last());
            }
        }
        if forall|i: int| 0 <= i < required.len() ==> has_line(body, #[trigger] required[i]) {
            assert forall|i: int| 0 <= i < rest.len() implies has_line(
                body,
                #[trigger] rest[i],
            ) by {
                assert(rest[i] == required[i]);
            }
            assert(has_line(body, required[required.len() - 1]));
        }
    }
}

/// Once the missing lines were appended none is missing, so that ensuring the lines
/// a second time changes nothing.
pub proof fn law_templates_idempotent(body: Seq<char>, required: Seq<Seq<char>>)
    requires
        forall|i: int| 0 <= i < required.len() ==> template_line(#[trigger] required[i]),
    ensures
        missing_of(appended(body, missing_of(body, required)), required).len() == 0,
{
    let missing = missing_of(body, required);
    let whole = appended(body, missing);
    lemma_missing(body, required);
    assert forall|i: int| 0 <= i < missing.len() implies template_line(#[trigger] missing[i]) by {
        let j = required.index_of(missing[i]);
        assert(required.contains(missing[i]));
        assert(required[j] == missing[i]);
    }
    lemma_appended_lines(body, missing);
    assert forall|i: int| 0 <= i < required.len() implies has_line(
        whole,
        #[trigger] required[i],
    ) by {
        assert(template_line(required[i]));
        if missing.contains(required[i]) {
            let j = missing.index_of(required[i]);
            assert(missing[j] == required[i]);
        }
    }
    lemma_missing(whole, required);
}

/// Every line of the templates is one.
proof fn lemma_required_lines()
    ensures
        forall|i: int|
            0 <= i < required_attributes().len() ==> template_line(
                #[trigger] required_attributes()[i],
            ),
        forall|i: int|
            0 <= i < required_ignore().len() ==> template_line(#[trigger] required_ignore()[i]),
        ATTRIBUTES_FILE@ != IGNORE_FILE@,
{
    reveal_strlit("*.age binary -diff -merge");
    reveal_strlit(".age-recipients text eol=lf merge=union");
    reveal_strlit(".ks-generations text eol=lf merge=union");
    reveal_strlit(".ks.lock");
    reveal_strlit(".ks-rotate/");
    reveal_strlit(".ks-move/");
    reveal_strlit("*.tmp");
    reveal_strlit(".gitattributes");
    reveal_strlit(".gitignore");
    assert(ATTRIBUTES_FILE@.len() != IGNORE_FILE@.len());
}

/// A file that was made to hold some lines holds them.
proof fn lemma_lines_ensured(files: Files, file: Seq<char>, required: Seq<Seq<char>>)
    requires
        text_in(files, file) is Ok,
        forall|i: int| 0 <= i < required.len() ==> template_line(#[trigger] required[i]),
    ensures
        ({
            let body = text_in(files, file)->Ok_0;
            let after = tree::replayed(files, line_effects(file, body, required));
            text_in(after, file) matches Ok(text) && missing_of(text, required).len() == 0
        }),
{
    let body = text_in(files, file)->Ok_0;
    let missing = missing_of(body, required);
    if missing.len() > 0 {
        let whole = appended(body, missing);
        let e = Effect::Write { file, bytes: utf8::encode_utf8(whole) };
        tree::lemma_replayed_push(files, Seq::empty(), e);
        assert(Seq::<Effect>::empty().push(e) =~= seq![e]);
        utf8::encode_utf8_valid_utf8(whole);
        utf8::encode_utf8_decode_utf8(whole);
        law_templates_idempotent(body, required);
    }
}

/// Once the templates were ensured, no line is missing, and ensuring them again
/// changes nothing.
pub proof fn law_templates_ensured(files: Files)
    requires
        template_result(files) is Ok,
    ensures
        ({
            let after = tree::replayed(files, template_effects(files));
            &&& template_result(after) matches Ok(missing) && missing.0.len() == 0
                && missing.1.len() == 0
            &&& template_effects(after).len() == 0
        }),
{
    lemma_required_lines();
    let attributes = text_in(files, ATTRIBUTES_FILE@)->Ok_0;
    let first = line_effects(ATTRIBUTES_FILE@, attributes, required_attributes());
    let f1 = tree::replayed(files, first);
    let ignore = text_in(f1, IGNORE_FILE@)->Ok_0;
    let second = line_effects(IGNORE_FILE@, ignore, required_ignore());
    let f2 = tree::replayed(f1, second);
    tree::lemma_replayed_concat(files, first, second);
    lemma_lines_ensured(files, ATTRIBUTES_FILE@, required_attributes());
    lemma_lines_ensured(f1, IGNORE_FILE@, required_ignore());
    assert(text_in(f2, ATTRIBUTES_FILE@) == text_in(f1, ATTRIBUTES_FILE@)) by {
        if second.len() > 0 {
            tree::lemma_replayed_push(f1, Seq::empty(), second[0]);
            assert(Seq::<Effect>::empty().push(second[0]) =~= second);
            reveal_strlit(".gitattributes");
            reveal_strlit(".gitignore");
            assert forall|n: Seq<char>| tree::inside(ATTRIBUTES_FILE@, n) implies n
                != IGNORE_FILE@ by {
                if n == IGNORE_FILE@ {
                    assert((ATTRIBUTES_FILE@ + seq!['/']).len() <= n.len());
                }
            }
            assert(tree::has_dir(f2, ATTRIBUTES_FILE@) == tree::has_dir(f1, ATTRIBUTES_FILE@)) by {
                if tree::has_dir(f1, ATTRIBUTES_FILE@) {
                    let n = choose|n: Seq<char>| #[trigger]
                        f1.contains_key(n) && tree::inside(ATTRIBUTES_FILE@, n);
                    assert(f2.contains_key(n));
                }
                if tree::has_dir(f2, ATTRIBUTES_FILE@) {
                    let n = choose|n: Seq<char>| #[trigger]
                        f2.contains_key(n) && tree::inside(ATTRIBUTES_FILE@, n);
                    assert(f1.contains_key(n));
                }
            }
        }
    }
    assert(tree::replayed(f2, Seq::<Effect>::empty()) == f2);
}

/// A text without a line break holds a line exactly if it is that line, white space
/// around it aside, and the line is not empty; a text that is parted at a line break
/// holds what either part holds.
pub proof fn law_has_line(one: Seq<char>, a: Seq<char>, b: Seq<char>, line: Seq<char>)
    requires
        !one.contains('\n'),
    ensures
        has_line(one, line) <==> line.len() > 0 && text::trimmed(one) == line,
        has_line(a + seq!['\n'] + b, line) <==> has_line(a, line) || has_line(b, line),
{
    text::lemma_pieces_single(one, '\n');
    let o = trimmed_lines(one);
    assert(o.len() == 1 && o[0] == text::trimmed(one));
    if o.contains(line) {
        let i = o.index_of(line);
        assert(o[i] == line);
    }
    text::lemma_pieces_concat(a, b, '\n');
    let x = trimmed_lines(a);
    let y = trimmed_lines(b);
    let z = trimmed_lines(a + seq!['\n'] + b);
    assert(z =~= x + y);
    if z.contains(line) {
        let i = z.index_of(line);
        if i < x.len() {
            assert(x[i] == line);
        } else {
            assert(y[i - x.len()] == line);
        }
    }
    if x.contains(line) {
        let i = x.index_of(line);
        assert(z[i] == line);
    }
    if y.contains(line) {
        let i = y.index_of(line);
        assert(z[x.len() + i] == line);
    }
}

/// The missing lines are exactly the required ones that a text does not hold.
pub proof fn law_missing_lines(body: Seq<char>, required: Seq<Seq<char>>)
    ensures
        forall|l: Seq<char>| #[trigger]
            missing_of(body, required).contains(l) <==> required.contains(l) && !has_line(body, l),
    decreases required.len(),
{
    if required.len() > 0 {
        let rest = required.drop_last();
        let last = required.last();
        law_missing_lines(body, rest);
        let m = missing_of(body, required);
        let before = missing_of(body, rest);
        assert forall|l: Seq<char>| #[trigger] m.contains(l) <==> required.contains(l) && !has_line(
            body,
            l,
        ) by {
            assert(required.contains(l) <==> l == last || rest.contains(l)) by {
                if required.contains(l) {
                    let i = required.index_of(l);
                    if i < rest.len() {
                        assert(rest[i] == l);
                    }
                }
                if rest.contains(l) {
                    let i = rest.index_of(l);
                    assert(required[i] == l);
                }
                if l == last {
                    assert(required[required.len() - 1] == l);
                }
            }
            if !has_line(body, last) {
                assert(m == before.push(last));
                assert(m.contains(l) <==> l == last || before.contains(l)) by {
                    if m.contains(l) {
                        let i = m.index_of(l);
                        if i < before.len() {
                            assert(before[i] == l);
                        }
                    }
                    if before.contains(l) {
                        let i = before.index_of(l);
                        assert(m[i] == l);
                    }
                    if l == last {
                        assert(m[before.len() as int] == l);
                    }
                }
            }
        }
    }
}

/// Ensuring the templates changes no file but the two, and where those can be read it
/// succeeds.
pub proof fn law_templates_leave_others(files: Files, n: Seq<char>)
    requires
        n != ".gitattributes"@,
        n != ".gitignore"@,
    ensures
        ({
            let after = tree::replayed(files, template_effects(files));
            after.contains_key(n) == files.contains_key(n) && after[n] == files[n]
        }),
{
    if let Ok(attributes) = text_in(files, ATTRIBUTES_FILE@) {
        let first = line_effects(ATTRIBUTES_FILE@, attributes, required_attributes());
        let f1 = tree::replayed(files, first);
        if first.len() > 0 {
            tree::lemma_replayed_push(files, Seq::empty(), first[0]);
            assert(Seq::<Effect>::empty().push(first[0]) =~= first);
        }
        assert(f1.contains_key(n) == files.contains_key(n) && f1[n] == files[n]);
        if let Ok(ignore) = text_in(f1, IGNORE_FILE@) {
            let second = line_effects(IGNORE_FILE@, ignore, required_ignore());
            tree::lemma_replayed_concat(files, first, second);
            if second.len() > 0 {
                tree::lemma_replayed_push(f1, Seq::empty(), second[0]);
                assert(Seq::<Effect>::empty().push(second[0]) =~= second);
            }
        }
    }
}

/// A run of git succeeds exactly if git reports success; its failure has the command
/// line, the exit code and what git wrote to its standard error.
pub proof fn law_run_reports(args: Seq<Seq<char>>, output: Output)
    ensures
        ran(args, output) is Ok <==> output.success,
        done(args, output) is Ok <==> output.success,
        output.success ==> ran(args, output)->Ok_0 == text::lossy_text(output.stdout@),
        !output.success ==> (ran(args, output) matches Err(
            Failure::Command { cmd, status, stderr },
        ) && cmd == "git "@ + text::joined(args, " "@) && stderr == text::lossy_text(
            output.stderr@,
        ) && (output.code matches Some(c) ==> status == c) && (output.code is None ==> status
            == -1)),
{
}

/// A file that does not exist counts as empty, and one of text as that text; any other is
/// refused. The templates are ensured exactly if both files can be read.
pub proof fn law_template_texts(files: Files, file: Seq<char>, s: Seq<char>)
    ensures
        (forall|n: Seq<char>| #[trigger]
            files.contains_key(n) ==> n != file && !tree::inside(file, n)) ==> text_in(files, file)
            == Ok::<Seq<char>, Failure>(Seq::empty()),
        files.contains_key(file) && files[file].bytes == utf8::encode_utf8(s) ==> text_in(
            files,
            file,
        ) == Ok::<Seq<char>, Failure>(s),
        files.contains_key(file) && !utf8::valid_utf8(files[file].bytes) ==> text_in(
            files,
            file,
        ) is Err,
{
    utf8::encode_utf8_valid_utf8(s);
    utf8::encode_utf8_decode_utf8(s);
}

/// Ensuring the templates keeps the text that the two files have: it goes on behind it.
pub proof fn law_templates_keep_files(files: Files)
    requires
        template_result(files) is Ok,
    ensures
        ({
            let after = tree::replayed(files, template_effects(files));
            &&& text_in(files, ".gitattributes"@) matches Ok(was) && (text_in(
                after,
                ".gitattributes"@,
            ) matches Ok(is) && was.is_prefix_of(is))
            &&& text_in(files, ".gitignore"@) matches Ok(was) && (text_in(
                after,
                ".gitignore"@,
            ) matches Ok(is) && was.is_prefix_of(is))
        }),
{
    lemma_required_lines();
    reveal_strlit(".gitattributes");
    reveal_strlit(".gitignore");
    let attributes = text_in(files, ATTRIBUTES_FILE@)->Ok_0;
    let first = line_effects(ATTRIBUTES_FILE@, attributes, required_attributes());
    let f1 = tree::replayed(files, first);
    let ignore = text_in(f1, IGNORE_FILE@)->Ok_0;
    let second = line_effects(IGNORE_FILE@, ignore, required_ignore());
    tree::lemma_replayed_concat(files, first, second);
    tree::lemma_not_inside(IGNORE_FILE@, ATTRIBUTES_FILE@);
    tree::lemma_not_inside(ATTRIBUTES_FILE@, IGNORE_FILE@);
    lemma_written_text(files, ATTRIBUTES_FILE@, required_attributes(), IGNORE_FILE@);
    lemma_written_text(f1, IGNORE_FILE@, required_ignore(), ATTRIBUTES_FILE@);
}

/// A file that was made to hold some lines begins with what it had, and another file has
/// the text that it had.
proof fn lemma_written_text(
    files: Files,
    file: Seq<char>,
    required: Seq<Seq<char>>,
    other: Seq<char>,
)
    requires
        text_in(files, file) is Ok,
        other != file,
        !tree::inside(other, file),
    ensures
        ({
            let body = text_in(files, file)->Ok_0;
            let after = tree::replayed(files, line_effects(file, body, required));
            &&& text_in(after, file) matches Ok(is) && body.is_prefix_of(is)
            &&& text_in(after, other) == text_in(files, other)
        }),
{
    let body = text_in(files, file)->Ok_0;
    let missing = missing_of(body, required);
    let after = tree::replayed(files, line_effects(file, body, required));
    if missing.len() > 0 {
        let whole = appended(body, missing);
        let e = Effect::Write { file, bytes: utf8::encode_utf8(whole) };
        tree::lemma_replayed_push(files, Seq::empty(), e);
        assert(Seq::<Effect>::empty().push(e) =~= seq![e]);
        utf8::encode_utf8_valid_utf8(whole);
        utf8::encode_utf8_decode_utf8(whole);
        law_templates_keep_text(body, missing);
        assert forall|n: Seq<char>| tree::inside(other, n) implies (#[trigger] after.contains_key(n)
            <==> files.contains_key(n)) by {}
        tree::lemma_same_dir(after, files, other);
    } else {
        assert(body.subrange(0, body.len() as int) =~= body);
    }
}

} // verus!
