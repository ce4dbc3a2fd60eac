use moq_origin::path::{Path, PathPrefixes, Rank};

#[test]
fn slashes_are_normalized() {
    for (given, written, parts) in [
        ("", "", 0),
        ("/", "", 0),
        ("///", "", 0),
        ("foo", "foo", 1),
        ("/foo/bar/", "foo/bar", 2),
        ("foo//bar", "foo/bar", 2),
        ("//a///b//c/", "a/b/c", 3),
        ("\u{fc}ber/x", "\u{fc}ber/x", 2),
    ] {
        let path = Path::new(given);
        assert_eq!(path.as_str(), written);
        assert_eq!(path.part_count(), parts);
        assert_eq!(path.is_empty(), parts == 0);
        // Reading what is written gives the path back.
        assert!(Path::new(&path.as_str()).same(&path));
    }
}

#[test]
fn prefixes_match_whole_parts() {
    let path = Path::new("foo/bar/baz");
    assert!(path.has_prefix(&Path::new("")));
    assert!(path.has_prefix(&Path::new("foo")));
    assert!(path.has_prefix(&Path::new("foo/bar")));
    assert!(path.has_prefix(&path));
    assert!(!path.has_prefix(&Path::new("fo")));
    assert!(!path.has_prefix(&Path::new("foo/ba")));
    assert!(!Path::new("foobar").has_prefix(&Path::new("foo")));
    assert!(!Path::new("foo").has_prefix(&path));
    assert_eq!(path.strip_prefix(&Path::new("foo")).unwrap().as_str(), "bar/baz");
    assert_eq!(path.strip_prefix(&path).unwrap().as_str(), "");
    assert!(path.strip_prefix(&Path::new("bar")).is_none());
}

#[test]
fn joining_and_splitting() {
    let path = Path::new("foo").join(&Path::new("bar/baz"));
    assert_eq!(path.as_str(), "foo/bar/baz");
    assert_eq!(Path::empty().join(&path).as_str(), "foo/bar/baz");
    assert_eq!(path.join(&Path::empty()).as_str(), "foo/bar/baz");
    let (part, rest) = path.next_part().unwrap();
    assert_eq!(part, "foo");
    assert_eq!(rest.as_str(), "bar/baz");
    assert!(Path::empty().next_part().is_none());
    assert_eq!(path.skip(2).as_str(), "baz");
    assert_eq!(path.part(1), "bar");
    assert_eq!(path.child(&"x".to_string()).as_str(), "foo/bar/baz/x");
}

#[test]
fn order_is_that_of_the_text() {
    let mut written = vec!["", "a", "a-b", "a/b", "a/b/c", "a0", "b", "z", "\u{e9}", "\u{1f600}"];
    for i in 0..written.len() {
        for j in 0..written.len() {
            let rank = Path::new(written[i]).rank(&Path::new(written[j]));
            let expected = if written[i] < written[j] {
                Rank::Before
            } else if written[i] > written[j] {
                Rank::After
            } else {
                Rank::Same
            };
            assert!(rank == expected, "{} {}", written[i], written[j]);
        }
    }
    written.sort();
    assert_eq!(written[2], "a-b");
}

fn canonical(given: &[&str]) -> Vec<String> {
    let paths: Vec<Path> = given.iter().map(|p| Path::new(p)).collect();
    let prefixes = PathPrefixes::new(&paths);
    (0..prefixes.len()).map(|i| prefixes.get(i).as_str()).collect()
}

#[test]
fn canonical_prefixes() {
    assert_eq!(canonical(&[]), Vec::<String>::new());
    assert_eq!(canonical(&["demo", "demo"]), vec!["demo"]);
    assert_eq!(canonical(&["demo", "demo/foo"]), vec!["demo"]);
    assert_eq!(canonical(&["demo/foo", "demo"]), vec!["demo"]);
    assert_eq!(canonical(&["demo", "", "x"]), vec![""]);
    assert_eq!(canonical(&["foo", "bar"]), vec!["bar", "foo"]);
    assert_eq!(canonical(&["worm-node", "foobar", "zz"]), vec!["zz", "foobar", "worm-node"]);
    assert_eq!(canonical(&["a/b", "a/c", "ab"]), vec!["ab", "a/b", "a/c"]);
}
