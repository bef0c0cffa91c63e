use ks::generations::{parse, render, verify, Generations};
use ks::Error;

fn pairs(g: &Generations) -> Vec<(String, u64)> {
    (0..g.len()).map(|i| (g.at(i).0.to_owned(), g.at(i).1)).collect()
}

#[test]
fn parse_max_reduce_duplicates() {
    let g = parse(b"a/b 1\na/b 5\nc 2\n# comment\n");
    assert_eq!(g.get("a/b"), Some(5));
    assert_eq!(g.get("c"), Some(2));
    assert_eq!(g.next("a/b"), 6);
    assert_eq!(g.next("new"), 1);
}

#[test]
fn verify_p1_and_lag() {
    let mut g = Generations::default();
    g.set("p".into(), 3);
    assert!(verify("p", 3, &g).is_ok());
    assert!(verify("p", 4, &g).is_ok()); // lag
    assert!(verify("p", 2, &g).is_err());
    assert!(verify("missing", 1, &g).is_ok());
}

#[test]
fn gen_zero_under_positive_index_is_tampered() {
    let mut g = Generations::default();
    g.set("p".into(), 1);
    assert!(verify("p", 0, &g).is_err());
}

#[test]
fn roundtrip_save_load() {
    let mut g = Generations::default();
    g.set("github/token".into(), 3);
    g.set("aws/key".into(), 1);
    let loaded = parse(&render(&g));
    assert_eq!(loaded, g);
    assert_eq!(pairs(&loaded), vec![("aws/key".to_owned(), 1), ("github/token".to_owned(), 3)]);
}

#[test]
fn soak_random_parse_does_not_panic() {
    for _ in 0..2_000 {
        let n = usize::from(rand::random::<u8>());
        let mut buf = vec![0u8; n];
        for b in &mut buf {
            *b = rand::random();
        }
        drop(parse(&buf));
    }
    for _ in 0..200 {
        let line = format!(
            "a/b {}\ninvalid line\n# comment\nc {}\n",
            rand::random::<u32>(),
            rand::random::<u64>()
        );
        drop(parse(line.as_bytes()));
    }
}

#[test]
fn merged_lines_keep_the_highest() {
    let ours = b"a 3\nb 1\n";
    let theirs = b"a 2\nc 9\n";
    let both = parse(&[&ours[..], &theirs[..]].concat());
    assert_eq!(both.get("a"), Some(3));
    assert_eq!(both.get("b"), Some(1));
    assert_eq!(both.get("c"), Some(9));
    let other_way = parse(&[&theirs[..], &ours[..]].concat());
    assert_eq!(pairs(&both), pairs(&other_way));
}

#[test]
fn malformed_lines_are_passed_over() {
    let g = parse(b"../x 1\na\na b c\na +1\nok 2\r\n\xff 3\n  spaced \t 4  \n");
    assert_eq!(pairs(&g), vec![("ok".to_owned(), 2), ("spaced".to_owned(), 4)]);
}

#[test]
fn next_does_not_wrap() {
    let mut g = Generations::new();
    g.set("p".into(), u64::MAX);
    assert_eq!(g.next("p"), u64::MAX);
}

#[test]
fn older_is_refused_with_both_numbers() {
    let mut g = Generations::new();
    g.set("p".into(), 5);
    match verify("p", 4, &g) {
        Err(Error::Tampered { path, reason }) => {
            assert_eq!(path, "p");
            assert!(reason.contains('4') && reason.contains('5'));
        }
        _ => panic!("must refuse"),
    }
}
