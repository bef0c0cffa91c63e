//! Running a program with secrets in its environment.

use vstd::prelude::*;
use vstd::utf8;

use crate::crypto::Identity;
use crate::error;
use crate::error::{Error, Failure};
use crate::guard::Guarded;
use crate::health;
use crate::path;
use crate::path::to_upper;
use crate::secret;
use crate::secret::{Payload, Secret, SecretKind};
use crate::secrets;
use crate::store;
use crate::store::Store;
use crate::text;
use crate::text::{copy_bytes, copy_text, find_char, from_chars, to_chars};
use crate::tree::Files;

verus! {

/// A variable of the environment: its name and its value.
pub struct Variable {
    /// The name.
    pub name: String,
    /// The value, which is wiped when it is dropped.
    pub value: Guarded,
}

/// What a [`Variable`] holds.
pub type Pair = (Seq<char>, Seq<u8>);

/// The pairs of some variables.
pub open spec fn pairs(vars: Seq<Variable>) -> Seq<Pair> {
    Seq::new(vars.len(), |i: int| (vars[i].name@, vars[i].value@))
}

/// The value that a secret puts into the environment. A binary secret has none.
pub open spec fn env_text(p: Seq<char>, payload: Payload) -> Result<Seq<u8>, Failure> {
    match payload.kind {
        SecretKind::Binary => Err(
            Failure::InvalidArgument(
                p + " is binary; cannot inject as an environment variable"@,
            ),
        ),
        SecretKind::Text => Ok(utf8::encode_utf8(secret::first_line(payload))),
    }
}

/// The value that the secret at a path puts into the environment.
pub open spec fn fetched(files: Files, p: Seq<char>, key: Seq<u8>) -> Result<Seq<u8>, Failure> {
    match secrets::got(files, p, key) {
        Err(e) => Err(e),
        Ok(payload) => env_text(p, payload),
    }
}

/// The value of a secret for the environment.
pub fn env_value(p: &str, secret: &Secret) -> (r: Result<Guarded, Error>)
    ensures
        error::agrees(r, env_text(p@, secret@)),
{
    if secret.is_binary() {
        let mut m = copy_text(p);
        m.append(" is binary; cannot inject as an environment variable");
        return Err(Error::InvalidArgument(m));
    }
    Ok(Guarded::new(copy_bytes(secret.password().as_bytes())))
}

/// Reads the secret at a path for the environment.
fn fetch(s: &Store, p: &str, identity: &Identity) -> (r: Result<Guarded, Error>)
    requires
        s.wf(),
    ensures
        error::agrees(r, fetched(s.files(), p@, identity@)),
{
    match s.get(p, identity) {
        Ok(found) => env_value(p, &found),
        Err(e) => Err(e),
    }
}

/// The variable that `<path>=<NAME>` asks for.
pub open spec fn named(files: Files, key: Seq<u8>, raw: Seq<char>) -> Result<Pair, Failure> {
    match raw.index_of_first('=') {
        None => Err(
            Failure::InvalidArgument("expected `<path>=<NAME>`, got `"@ + raw + "`"@),
        ),
        Some(i) => match fetched(files, raw.take(i), key) {
            Err(e) => Err(e),
            Ok(value) => Ok((raw.skip(i + 1), value)),
        },
    }
}

/// The variables that some requests ask for, or what is wrong with the first that
/// cannot be had.
pub open spec fn all_named(files: Files, key: Seq<u8>, raws: Seq<Seq<char>>) -> Result<
    Seq<Pair>,
    Failure,
>
    decreases raws.len(),
{
    if raws.len() == 0 {
        Ok(Seq::empty())
    } else {
        match all_named(files, key, raws.drop_last()) {
            Err(e) => Err(e),
            Ok(before) => match named(files, key, raws.last()) {
                Err(e) => Err(e),
                Ok(pair) => Ok(before.push(pair)),
            },
        }
    }
}

/// The name of the variable for a path: slashes and dashes become underscores, and
/// letters upper case.
pub open spec fn variable_name(p: Seq<char>) -> Seq<char> {
    p.map_values(
        |c: char|
            if c == '/' || c == '-' {
                '_'
            } else {
                path::upper(c)
            },
    )
}

/// The variables for some paths.
pub open spec fn all_paths(files: Files, key: Seq<u8>, paths: Seq<Seq<char>>) -> Result<
    Seq<Pair>,
    Failure,
>
    decreases paths.len(),
{
    if paths.len() == 0 {
        Ok(Seq::empty())
    } else {
        match all_paths(files, key, paths.drop_last()) {
            Err(e) => Err(e),
            Ok(before) => match fetched(files, paths.last(), key) {
                Err(e) => Err(e),
                Ok(value) => Ok(before.push((variable_name(paths.last()), value))),
            },
        }
    }
}

/// What was collected: variables or a failure, and the warnings so far.
#[verifier::ext_equal]
pub struct Collected {
    pub warnings: Seq<Seq<char>>,
    pub result: Result<Seq<Pair>, Failure>,
}

/// The variables for all secrets under some prefixes. A prefix without secrets is
/// warned of.
pub open spec fn all_prefixes(files: Files, key: Seq<u8>, prefixes: Seq<Seq<char>>) -> Collected
    decreases prefixes.len(),
{
    if prefixes.len() == 0 {
        Collected { warnings: Seq::empty(), result: Ok(Seq::empty()) }
    } else {
        let before = all_prefixes(files, key, prefixes.drop_last());
        match before.result {
            Err(_) => before,
            Ok(vars) => {
                let paths = store::under(health::live(files), prefixes.last());
                Collected {
                    warnings: if paths.len() == 0 {
                        before.warnings.push("no secrets under `"@ + prefixes.last() + "`"@)
                    } else {
                        before.warnings
                    },
                    result: match all_paths(files, key, paths) {
                        Err(e) => Err(e),
                        Ok(more) => Ok(vars + more),
                    },
                }
            },
        }
    }
}

/// All variables: those that are asked for by name first.
pub open spec fn injection(
    files: Files,
    key: Seq<u8>,
    env: Seq<Seq<char>>,
    prefixes: Seq<Seq<char>>,
) -> Collected {
    match all_named(files, key, env) {
        Err(e) => Collected { warnings: Seq::empty(), result: Err(e) },
        Ok(first) => {
            let rest = all_prefixes(files, key, prefixes);
            Collected {
                warnings: rest.warnings,
                result: match rest.result {
                    Err(e) => Err(e),
                    Ok(more) => Ok(first + more),
                },
            }
        },
    }
}

/// The name of the variable for a path.
pub fn env_name(p: &str) -> (r: String)
    ensures
        r@ == variable_name(p@),
{
    let cs = to_chars(p);
    let mut out: Vec<char> = Vec::new();
    for i in 0..cs.len()
        invariant
            cs@ == p@,
            out@ == variable_name(p@).take(i as int),
    {
        let c = cs[i];
        let up = if c == '/' || c == '-' {
            '_'
        } else {
            to_upper(c)
        };
        out.push(up);
        assert(variable_name(p@).take(i + 1) =~= variable_name(p@).take(i as int).push(up));
    }
    assert(variable_name(p@).take(p@.len() as int) =~= variable_name(p@));
    from_chars(out.as_slice())
}

fn push_var(vars: &mut Vec<Variable>, name: String, value: Guarded)
    ensures
        pairs(final(vars)@) == pairs(old(vars)@).push((name@, value@)),
{
    let ghost before = pairs(vars@);
    vars.push(Variable { name, value });
    assert(pairs(vars@) =~= before.push((name@, value@)));
}

/// A failure on the first requests is the failure of all.
proof fn lemma_named_failure(files: Files, key: Seq<u8>, raws: Seq<Seq<char>>, i: int)
    requires
        0 <= i < raws.len(),
        all_named(files, key, raws.take(i + 1)) is Err,
    ensures
        all_named(files, key, raws) == all_named(files, key, raws.take(i + 1)),
    decreases raws.len(),
{
    if i + 1 == raws.len() {
        assert(raws.take(i + 1) =~= raws);
    } else {
        assert(raws.drop_last().take(i + 1) =~= raws.take(i + 1));
        lemma_named_failure(files, key, raws.drop_last(), i);
    }
}

/// A failure on the first paths is the failure of all.
proof fn lemma_paths_failure(files: Files, key: Seq<u8>, paths: Seq<Seq<char>>, i: int)
    requires
        0 <= i < paths.len(),
        all_paths(files, key, paths.take(i + 1)) is Err,
    ensures
        all_paths(files, key, paths) == all_paths(files, key, paths.take(i + 1)),
    decreases paths.len(),
{
    if i + 1 == paths.len() {
        assert(paths.take(i + 1) =~= paths);
    } else {
        assert(paths.drop_last().take(i + 1) =~= paths.take(i + 1));
        lemma_paths_failure(files, key, paths.drop_last(), i);
    }
}

/// A failure on the first prefixes is the failure of all.
proof fn lemma_prefixes_failure(files: Files, key: Seq<u8>, prefixes: Seq<Seq<char>>, i: int)
    requires
        0 <= i < prefixes.len(),
        all_prefixes(files, key, prefixes.take(i + 1)).result is Err,
    ensures
        all_prefixes(files, key, prefixes) == all_prefixes(files, key, prefixes.take(i + 1)),
    decreases prefixes.len(),
{
    if i + 1 == prefixes.len() {
        assert(prefixes.take(i + 1) =~= prefixes);
    } else {
        assert(prefixes.drop_last().take(i + 1) =~= prefixes.take(i + 1));
        lemma_prefixes_failure(files, key, prefixes.drop_last(), i);
    }
}

/// Whether collected variables are the expected ones.
pub open spec fn collects(
    r: Result<Vec<Variable>, Error>,
    expected: Result<Seq<Pair>, Failure>,
) -> bool {
    match (r, expected) {
        (Ok(vars), Ok(list)) => pairs(vars@) == list,
        (Err(e), Err(f)) => e@ == f,
        _ => false,
    }
}

fn collect_named(s: &Store, identity: &Identity, env: &[String]) -> (r: Result<
    Vec<Variable>,
    Error,
>)
    requires
        s.wf(),
    ensures
        collects(r, all_named(s.files(), identity@, text::views(env@))),
{
    let ghost all = text::views(env@);
    let ghost files = s.files();
    let ghost key = identity@;
    let mut vars: Vec<Variable> = Vec::new();
    assert(all.take(0) =~= Seq::empty());
    assert(pairs(vars@) =~= Seq::empty());
    for i in 0..env.len()
        invariant
            s.wf(),
            files == s.files(),
            key == identity@,
            all == text::views(env@),
            all_named(files, key, all.take(i as int)) == Ok::<Seq<Pair>, Failure>(pairs(vars@)),
    {
        let raw = env[i].as_str();
        assert(all.take(i + 1).drop_last() =~= all.take(i as int));
        assert(all.take(i + 1).last() == raw@);
        proof {
            raw@.index_of_first_ensures('=');
        }
        match find_char(raw, '=') {
            None => {
                let mut m = copy_text("expected `<path>=<NAME>`, got `");
                m.append(raw);
                m.append("`");
                proof {
                    lemma_named_failure(files, key, all, i as int);
                }
                return Err(Error::InvalidArgument(m));
            },
            Some(at) => {
                let total: usize = raw.unicode_len();
                let p = raw.substring_char(0, at);
                let name = raw.substring_char(at + 1, total);
                proof {
                    assert(raw@.contains('='));
                    let j = raw@.index_of_first('=').unwrap();
                    if j < at {
                        assert(raw@.take(at as int)[j] == '=');
                        assert(raw@.take(at as int).contains('='));
                    }
                    assert(j == at);
                    assert(p@ =~= raw@.take(at as int));
                    assert(name@ =~= raw@.skip(at + 1));
                }
                match fetch(s, p, identity) {
                    Ok(value) => {
                        push_var(&mut vars, copy_text(name), value);
                    },
                    Err(e) => {
                        proof {
                            lemma_named_failure(files, key, all, i as int);
                        }
                        return Err(e);
                    },
                }
            },
        }
    }
    assert(all.take(all.len() as int) =~= all);
    Ok(vars)
}

fn collect_paths(s: &Store, identity: &Identity, paths: &[String]) -> (r: Result<
    Vec<Variable>,
    Error,
>)
    requires
        s.wf(),
    ensures
        collects(r, all_paths(s.files(), identity@, text::views(paths@))),
{
    let ghost all = text::views(paths@);
    let ghost files = s.files();
    let ghost key = identity@;
    let mut vars: Vec<Variable> = Vec::new();
    assert(all.take(0) =~= Seq::empty());
    assert(pairs(vars@) =~= Seq::empty());
    for i in 0..paths.len()
        invariant
            s.wf(),
            files == s.files(),
            key == identity@,
            all == text::views(paths@),
            all_paths(files, key, all.take(i as int)) == Ok::<Seq<Pair>, Failure>(pairs(vars@)),
    {
        let p = paths[i].as_str();
        assert(all.take(i + 1).drop_last() =~= all.take(i as int));
        assert(all.take(i + 1).last() == p@);
        match fetch(s, p, identity) {
            Ok(value) => {
                push_var(&mut vars, env_name(p), value);
            },
            Err(e) => {
                proof {
                    lemma_paths_failure(files, key, all, i as int);
                }
                return Err(e);
            },
        }
    }
    assert(all.take(all.len() as int) =~= all);
    Ok(vars)
}

fn append_vars(vars: &mut Vec<Variable>, more: &mut Vec<Variable>)
    ensures
        pairs(final(vars)@) == pairs(old(vars)@) + pairs(old(more)@),
{
    let ghost before = vars@;
    let ghost extra = more@;
    vars.append(more);
    assert(pairs(vars@) =~= pairs(before) + pairs(extra));
}

/// Collects the variables that a program gets: those that are asked for by name,
/// and those of all secrets under some prefixes. Warnings are added to `warnings`,
/// also where it fails later on.
pub fn collect(
    s: &Store,
    identity: &Identity,
    env: &[String],
    prefixes: &[String],
    warnings: &mut Vec<String>,
) -> (r: Result<Vec<Variable>, Error>)
    requires
        s.wf(),
    ensures
        collects(
            r,
            injection(
                s.files(),
                identity@,
                text::views(env@),
                text::views(prefixes@),
            ).result,
        ),
        text::views(final(warnings)@) == text::views(old(warnings)@) + injection(
            s.files(),
            identity@,
            text::views(env@),
            text::views(prefixes@),
        ).warnings,
{
    let ghost files = s.files();
    let ghost key = identity@;
    let ghost all = text::views(prefixes@);
    let ghost w0 = text::views(warnings@);
    assert(w0 + Seq::<Seq<char>>::empty() =~= w0);
    let mut vars = match collect_named(s, identity, env) {
        Ok(v) => v,
        Err(e) => {
            return Err(e);
        },
    };
    let ghost first = pairs(vars@);
    assert(first + Seq::<Pair>::empty() =~= first);
    assert(all.take(0) =~= Seq::empty());
    for i in 0..prefixes.len()
        invariant
            s.wf(),
            files == s.files(),
            key == identity@,
            all == text::views(prefixes@),
            w0 == text::views(old(warnings)@),
            all_named(files, key, text::views(env@)) == Ok::<Seq<Pair>, Failure>(first),
            all_prefixes(files, key, all.take(i as int)).result is Ok,
            pairs(vars@) == first + all_prefixes(files, key, all.take(i as int)).result->Ok_0,
            text::views(warnings@) == w0 + all_prefixes(files, key, all.take(i as int)).warnings,
    {
        let prefix = prefixes[i].as_str();
        assert(all.take(i + 1).drop_last() =~= all.take(i as int));
        assert(all.take(i + 1).last() == prefix@);
        let ghost before = all_prefixes(files, key, all.take(i as int));
        let paths = s.list(prefix);
        assert(text::views(paths@).len() == paths@.len());
        if paths.len() == 0 {
            let mut m = copy_text("no secrets under `");
            m.append(prefix);
            m.append("`");
            let ghost w = text::views(warnings@);
            warnings.push(m);
            assert(text::views(warnings@) =~= w.push(m@));
            assert(text::views(warnings@) =~= w0 + before.warnings.push(m@));
        }
        match collect_paths(s, identity, paths.as_slice()) {
            Ok(more) => {
                let mut more = more;
                let ghost got = pairs(more@);
                let ghost had = pairs(vars@);
                append_vars(&mut vars, &mut more);
                assert(had + got =~= first + (before.result->Ok_0 + got));
            },
            Err(e) => {
                proof {
                    lemma_prefixes_failure(files, key, all, i as int);
                }
                return Err(e);
            },
        }
    }
    assert(all.take(all.len() as int) =~= all);
    Ok(vars)
}

/// The program and the arguments of a command line.
pub fn split_command(cmd: &[String]) -> (r: Result<(String, Vec<String>), Error>)
    ensures
        cmd@.len() == 0 ==> (r matches Err(e) && e@ == Failure::InvalidArgument(
            "missing command after `--`"@,
        )),
        cmd@.len() > 0 ==> (r matches Ok(p) && p.0@ == cmd@[0]@ && text::views(p.1@)
            == text::views(cmd@).skip(1)),
{
    if cmd.len() == 0 {
        return Err(Error::InvalidArgument(copy_text("missing command after `--`")));
    }
    let mut args: Vec<String> = Vec::new();
    for i in 1..cmd.len()
        invariant
            1 <= cmd@.len(),
            args@.len() == i - 1,
            forall|j: int| 0 <= j < args@.len() ==> #[trigger] args@[j]@ == cmd@[j + 1]@,
    {
        args.push(copy_text(cmd[i].as_str()));
    }
    assert(text::views(args@) =~= text::views(cmd@).skip(1));
    Ok((copy_text(cmd[0].as_str()), args))
}

// ---------------------------------------------------------------------------
// Laws
// ---------------------------------------------------------------------------

/// The name of a variable has a character for each of the path: an underscore for a slash
/// or a dash, the capital for a small ASCII letter, and each other one itself.
pub proof fn law_variable_name(p: Seq<char>)
    ensures
        variable_name(p).len() == p.len(),
        forall|i: int|
            0 <= i < p.len() ==> {
                &&& p[i] == '/' || p[i] == '-' ==> #[trigger] variable_name(p)[i] == '_'
                &&& 'a' <= p[i] <= 'z' ==> variable_name(p)[i] as int == p[i] as int - 32
                &&& p[i] != '/' && p[i] != '-' && !('a' <= p[i] <= 'z') ==> variable_name(p)[i]
                    == p[i]
            },
{
}

/// For paths of secrets that can all be read and are text there are as many variables as
/// paths: the variable of each path has the path's name, and as value the first line of
/// the text that reading that path gives. Else there are none, and the failure is that
/// of the first path that cannot be had.
pub proof fn law_variable_of_each_path(
    files: Files,
    key: Seq<u8>,
    paths: Seq<Seq<char>>,
    r: Result<Vec<Variable>, Error>,
)
    requires
        collects(r, all_paths(files, key, paths)),
    ensures
        r is Ok <==> forall|i: int|
            0 <= i < paths.len() ==> (secrets::got(files, #[trigger] paths[i], key) matches Ok(
                payload,
            ) && payload.kind == SecretKind::Text),
        r matches Ok(vars) ==> vars@.len() == paths.len() && forall|i: int|
            0 <= i < paths.len() ==> (#[trigger] vars@[i]).name@ == variable_name(paths[i])
                && vars@[i].value@ == utf8::encode_utf8(
                secret::first_line(secrets::got(files, paths[i], key)->Ok_0),
            ),
        r matches Err(e) ==> exists|i: int|
            0 <= i < paths.len() && (forall|j: int|
                0 <= j < i ==> (secrets::got(files, #[trigger] paths[j], key) matches Ok(payload)
                    && payload.kind == SecretKind::Text)) && #[trigger] fails_with(
                files,
                key,
                paths[i],
                e@,
            ),
{
    lemma_paths(files, key, paths);
    if let Ok(vars) = r {
        let list = all_paths(files, key, paths)->Ok_0;
        assert(pairs(vars@) == list);
        assert forall|i: int| 0 <= i < paths.len() implies (#[trigger] vars@[i]).name@
            == variable_name(paths[i]) && vars@[i].value@ == utf8::encode_utf8(
            secret::first_line(secrets::got(files, paths[i], key)->Ok_0),
        ) by {
            assert(pairs(vars@)[i] == list[i]);
        }
    }
}

/// Whether a secret cannot be put into the environment: it cannot be read, or it is
/// binary, which is said of its path.
pub open spec fn fails_with(files: Files, key: Seq<u8>, p: Seq<char>, e: Failure) -> bool {
    match secrets::got(files, p, key) {
        Err(f) => e == f,
        Ok(payload) => payload.kind == SecretKind::Binary && e == Failure::InvalidArgument(
            p + " is binary; cannot inject as an environment variable"@,
        ),
    }
}

proof fn lemma_paths(files: Files, key: Seq<u8>, paths: Seq<Seq<char>>)
    ensures
        all_paths(files, key, paths) is Ok <==> forall|i: int|
            0 <= i < paths.len() ==> (secrets::got(files, #[trigger] paths[i], key) matches Ok(
                payload,
            ) && payload.kind == SecretKind::Text),
        all_paths(files, key, paths) matches Ok(list) ==> list.len() == paths.len() && forall|i: int|
            0 <= i < paths.len() ==> #[trigger] list[i] == (
                variable_name(paths[i]),
                utf8::encode_utf8(
                    secret::first_line(secrets::got(files, paths[i], key)->Ok_0),
                ),
            ),
        all_paths(files, key, paths) matches Err(e) ==> exists|i: int|
            0 <= i < paths.len() && (forall|j: int|
                0 <= j < i ==> (secrets::got(files, #[trigger] paths[j], key) matches Ok(payload)
                    && payload.kind == SecretKind::Text)) && #[trigger] fails_with(
                files,
                key,
                paths[i],
                e,
            ),
    decreases paths.len(),
{
    if paths.len() > 0 {
        let rest = paths.drop_last();
        let last = paths[paths.len() - 1];
        lemma_paths(files, key, rest);
        assert(forall|i: int| 0 <= i < rest.len() ==> #[trigger] rest[i] == paths[i]);
        let before = all_paths(files, key, rest);
        if before is Ok {
            assert forall|i: int| 0 <= i < rest.len() implies (secrets::got(
                files,
                #[trigger] paths[i],
                key,
            ) matches Ok(payload) && payload.kind == SecretKind::Text) by {
                assert(rest[i] == paths[i]);
            }
            if fetched(files, last, key) is Err {
                let k = paths.len() - 1;
                assert(fails_with(files, key, paths[k], fetched(files, last, key)->Err_0));
            }
        } else {
            let e = before->Err_0;
            let i = choose|i: int|
                0 <= i < rest.len() && (forall|j: int|
                    0 <= j < i ==> (secrets::got(files, #[trigger] rest[j], key) matches Ok(payload)
                        && payload.kind == SecretKind::Text)) && #[trigger] fails_with(
                    files,
                    key,
                    rest[i],
                    e,
                );
            assert(fails_with(files, key, paths[i], e));
            assert forall|j: int| 0 <= j < i implies (secrets::got(
                files,
                #[trigger] paths[j],
                key,
            ) matches Ok(payload) && payload.kind == SecretKind::Text) by {
                assert(rest[j] == paths[j]);
            }
        }
    }
}

/// `<path>=<NAME>` asks for a variable of that name with the value of that path, where
/// the path is what stands before the first equals sign. Without one nothing is asked
/// for.
pub proof fn law_named_variable(
    files: Files,
    key: Seq<u8>,
    p: Seq<char>,
    name: Seq<char>,
    payload: Payload,
)
    requires
        !p.contains('='),
    ensures
        secrets::got(files, p, key) == Ok::<Payload, Failure>(payload) && payload.kind
            == SecretKind::Text ==> named(files, key, p + seq!['='] + name) == Ok::<Pair, Failure>(
            (name, utf8::encode_utf8(secret::first_line(payload))),
        ),
        named(files, key, p + seq!['='] + name) matches Err(e) ==> fails_with(files, key, p, e),
        named(files, key, p) == Err::<Pair, Failure>(
            Failure::InvalidArgument("expected `<path>=<NAME>`, got `"@ + p + "`"@),
        ),
{
    let raw = p + seq!['='] + name;
    assert(raw[p.len() as int] == '=');
    raw.index_of_first_ensures('=');
    p.index_of_first_ensures('=');
    let i = raw.index_of_first('=').unwrap();
    if i < p.len() {
        assert(p[i] == '=');
    }
    assert(i == p.len());
    assert(raw.take(i) =~= p);
    assert(raw.skip(i + 1) =~= name);
}

/// There is a variable for each request, in the order of the requests; else the failure
/// is that of the first request that cannot be met.
pub proof fn law_variable_of_each_request(files: Files, key: Seq<u8>, raws: Seq<Seq<char>>)
    ensures
        all_named(files, key, raws) is Ok <==> forall|i: int|
            0 <= i < raws.len() ==> named(files, key, #[trigger] raws[i]) is Ok,
        all_named(files, key, raws) matches Ok(list) ==> list.len() == raws.len() && forall|i: int|
            0 <= i < raws.len() ==> named(files, key, raws[i]) == Ok::<Pair, Failure>(
                #[trigger] list[i],
            ),
        all_named(files, key, raws) matches Err(e) ==> exists|i: int|
            0 <= i < raws.len() && (forall|j: int|
                0 <= j < i ==> named(files, key, #[trigger] raws[j]) is Ok) && named(
                files,
                key,
                #[trigger] raws[i],
            ) == Err::<Pair, Failure>(e),
    decreases raws.len(),
{
    if raws.len() > 0 {
        let rest = raws.drop_last();
        law_variable_of_each_request(files, key, rest);
        assert(forall|i: int| 0 <= i < rest.len() ==> #[trigger] rest[i] == raws[i]);
        let before = all_named(files, key, rest);
        if before is Ok {
            assert forall|i: int| 0 <= i < rest.len() implies named(
                files,
                key,
                #[trigger] raws[i],
            ) is Ok by {
                assert(rest[i] == raws[i]);
            }
            let k = raws.len() - 1;
            assert(raws[k] == raws.last());
        } else {
            let e = before->Err_0;
            let i = choose|i: int|
                0 <= i < rest.len() && (forall|j: int|
                    0 <= j < i ==> named(files, key, #[trigger] rest[j]) is Ok) && named(
                    files,
                    key,
                    #[trigger] rest[i],
                ) == Err::<Pair, Failure>(e);
            assert(raws[i] == rest[i]);
            assert forall|j: int| 0 <= j < i implies named(files, key, #[trigger] raws[j]) is Ok by {
                assert(rest[j] == raws[j]);
            }
        }
    }
}

/// The variables that are asked for by name come first. Each prefix adds, behind what
/// was there, the variables of the paths that are listed under it, in the order of the
/// listing; one without a listed path adds a warning, and no other does. A failure of
/// what comes before is the failure of all.
pub proof fn law_each_prefix_adds(
    files: Files,
    key: Seq<u8>,
    env: Seq<Seq<char>>,
    prefixes: Seq<Seq<char>>,
    prefix: Seq<char>,
)
    ensures
        injection(files, key, env, Seq::empty()).result == all_named(files, key, env),
        injection(files, key, env, Seq::empty()).warnings.len() == 0,
        ({
            let was = injection(files, key, env, prefixes);
            let is = injection(files, key, env, prefixes.push(prefix));
            let paths = store::under(health::live(files), prefix);
            match was.result {
                Err(e) => is == was,
                Ok(vars) => {
                    &&& is.warnings == (if paths.len() == 0 {
                        was.warnings.push("no secrets under `"@ + prefix + "`"@)
                    } else {
                        was.warnings
                    })
                    &&& match all_paths(files, key, paths) {
                        Err(e) => is.result == Err::<Seq<Pair>, Failure>(e),
                        Ok(more) => is.result == Ok::<Seq<Pair>, Failure>(vars + more),
                    }
                },
            }
        }),
{
    assert(prefixes.push(prefix).drop_last() =~= prefixes);
    if let Ok(first) = all_named(files, key, env) {
        assert(first + Seq::<Pair>::empty() =~= first);
        if let Ok(vars) = all_prefixes(files, key, prefixes).result {
            let paths = store::under(health::live(files), prefix);
            if let Ok(more) = all_paths(files, key, paths) {
                assert(first + (vars + more) =~= (first + vars) + more);
            }
        }
    }
}

} // verus!
