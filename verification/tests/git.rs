use ks::git::{self, ensure_git_templates, is_repo, Output};
use ks::tree::Tree;
use ks::Error;

fn tree(files: &[(&str, &str)]) -> Tree {
    let mut t = Tree::new();
    for (name, body) in files {
        t.load((*name).to_owned(), body.as_bytes().to_vec(), false);
    }
    t
}

fn output(success: bool, code: Option<i32>, stdout: &str, stderr: &str) -> Output {
    Output {
        success,
        code,
        stdout: stdout.as_bytes().to_vec(),
        stderr: stderr.as_bytes().to_vec(),
    }
}

#[test]
fn ensure_templates_appends_missing_lines() {
    let mut t = tree(&[
        (
            ".gitattributes",
            "*.age binary -diff -merge\n.age-recipients text eol=lf merge=union\n",
        ),
        (".gitignore", ".ks.lock\n.ks-rotate/\n*.tmp\n"),
    ]);
    let delta = ensure_git_templates(&mut t).expect("ensure");
    assert!(delta.attributes_added.iter().any(|l| l.contains(".ks-generations")));
    assert!(delta.ignore_added.iter().any(|l| l.contains(".ks-move")));

    let again = ensure_git_templates(&mut t).expect("idempotent");
    assert!(again.attributes_added.is_empty());
    assert!(again.ignore_added.is_empty());
}

#[test]
fn templates_keep_what_is_there() {
    let mut t = tree(&[(".gitignore", "mine\n  .ks.lock  ")]);
    let delta = ensure_git_templates(&mut t).expect("ensure");
    assert_eq!(delta.ignore_added, vec![".ks-rotate/", ".ks-move/", "*.tmp"]);
    assert_eq!(
        t.read(".gitignore").expect("read"),
        b"mine\n  .ks.lock  \n.ks-rotate/\n.ks-move/\n*.tmp\n"
    );
    assert_eq!(
        t.read(".gitattributes").expect("read"),
        b"*.age binary -diff -merge\n.age-recipients text eol=lf merge=union\n\
          .ks-generations text eol=lf merge=union\n"
    );
}

#[test]
fn templates_that_are_no_text_are_refused() {
    let mut t = Tree::new();
    t.load(".gitattributes".to_owned(), vec![0xff], false);
    assert!(matches!(
        ensure_git_templates(&mut t),
        Err(Error::InvalidData(m)) if m == "stream did not contain valid UTF-8"
    ));
    let mut t = tree(&[(".gitignore/x", "")]);
    assert!(matches!(ensure_git_templates(&mut t), Err(Error::NotAFile(_))));
}

#[test]
fn a_repository_has_a_git_directory() {
    assert!(is_repo(&tree(&[(".git/HEAD", "x")])));
    assert!(!is_repo(&tree(&[(".gitignore", "x")])));
}

#[test]
fn arguments_of_the_commands() {
    assert_eq!(git::add_all_args(), vec!["add", "-A"]);
    assert_eq!(git::commit_args("msg")[0], "commit");
    assert!(git::commit_args("msg").contains(&"msg".to_owned()));
    assert_eq!(git::pull_rebase_args(), vec!["pull", "--rebase", "--autostash"]);
    assert_eq!(git::push_args(), vec!["push"]);
    assert_eq!(git::status_args(), vec!["status", "-sb"]);
    assert_eq!(git::log_args(5), vec!["log", "--oneline", "-n5"]);
}

#[test]
fn a_failed_command_is_an_error() {
    match git::push(&output(false, Some(128), "", "no remote\n")) {
        Err(Error::Command { cmd, status, stderr }) => {
            assert_eq!(cmd, "git push");
            assert_eq!(status, 128);
            assert_eq!(stderr, "no remote\n");
        }
        _ => panic!("must fail"),
    }
    match git::log(3, &output(false, None, "", "")) {
        Err(Error::Command { status, .. }) => assert_eq!(status, -1),
        _ => panic!("must fail"),
    }
    assert!(git::add_all(&output(false, Some(1), "", "x")).is_err());
    assert!(git::pull_rebase(&output(false, Some(1), "", "x")).is_err());
    assert!(git::add_all(&output(true, Some(0), "", "")).is_ok());
    assert!(git::pull_rebase(&output(true, Some(0), "", "")).is_ok());
    assert!(git::push(&output(true, Some(0), "", "")).is_ok());
}

#[test]
fn output_is_read_as_text() {
    let out = Output {
        success: true,
        code: Some(0),
        stdout: vec![b'a', 0xff, b'\n'],
        stderr: Vec::new(),
    };
    let s = git::status(&out).expect("status");
    assert!(s.starts_with("a\u{fffd}"));
}

#[test]
fn nothing_to_commit_is_no_error() {
    assert!(git::commit("m", &output(true, Some(0), "done", "")).is_ok());
    assert!(git::commit("m", &output(false, Some(1), "nothing to commit, clean", "")).is_ok());
    assert!(git::commit("m", &output(false, Some(1), "no changes added", "")).is_ok());
    match git::commit("a \"b\"\n", &output(false, Some(1), "out ", "hook failed")) {
        Err(Error::Command { cmd, status, stderr }) => {
            assert_eq!(cmd, "git commit -m \"a \\\"b\\\"\\n\"");
            assert_eq!(status, 1);
            assert_eq!(stderr, "out hook failed");
        }
        _ => panic!("must fail"),
    }
}

#[test]
fn init_writes_the_templates() {
    let mut t = Tree::new();
    git::init(&mut t, &output(true, Some(0), "", "")).expect("init");
    assert!(t.has_file(".gitattributes") && t.has_file(".gitignore"));
    let mut t = Tree::new();
    assert!(git::init(&mut t, &output(false, Some(1), "", "x")).is_err());
    assert!(!t.has_file(".gitignore"));
}

#[test]
fn empty_lines_are_never_there() {
    let mut t = tree(&[("f", "a\n\n  \n")]);
    let required = vec!["a".to_owned(), String::new()];
    let added = git::ensure_lines(&mut t, "f", &required).expect("ensure");
    assert_eq!(added, vec![String::new()]);
    assert_eq!(t.read("f").expect("read"), b"a\n\n  \n\n");
}
