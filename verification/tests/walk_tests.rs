use std::path::PathBuf;
use toporepo::importance::is_important;
use toporepo::walk::{file_name, rel};

#[test]
fn rel_strips_root() {
    assert_eq!(rel("/repo/src/main.rs", "/repo"), "src/main.rs");
    assert_eq!(rel("repo/src/lib.rs", "repo"), "src/lib.rs");
    assert_eq!(rel("./repo/a.py", "./repo"), "a.py");
}

#[test]
fn rel_keeps_inner_separators_as_written() {
    assert_eq!(rel("/repo//src/./x.go", "/repo/"), "src/./x.go");
    assert_eq!(rel("r/s//a", "r"), "s//a");
    assert_eq!(rel("/r/src/./a.rs", "/r"), "src/./a.rs");
}

#[test]
fn rel_drops_leading_and_trailing_separators_and_dots() {
    assert_eq!(rel("/r//./src/a/./", "/r"), "src/a");
    assert_eq!(rel("./a/b", "."), "a/b");
    assert_eq!(rel("/r/x", "/"), "r/x");
}

#[test]
fn rel_against_empty_root_keeps_the_path() {
    assert_eq!(rel("./a/b/", ""), "./a/b");
    assert_eq!(rel("/a//b", ""), "/a//b");
}

#[test]
fn rel_matches_path_strip_prefix() {
    use_std_strip_prefix_cases();
}

fn use_std_strip_prefix_cases() {
    let cases = [
        ("/r/s//a", "/r"),
        ("r/s//a/", "r"),
        ("./r/./s", "./r"),
        ("/r//x/.//y", "/r/"),
        ("/r", "/r"),
        ("a/b", "c"),
        ("/a/b", ""),
        ("a/./b/.", "a"),
    ];
    for (p, root) in cases {
        let std_rest = std::path::Path::new(p)
            .strip_prefix(root)
            .map(|r| r.to_string_lossy().into_owned())
            .unwrap_or_else(|_| p.to_string());
        let expected = if std_rest.is_empty() {
            std::path::Path::new(p).file_name().map(|n| n.to_string_lossy().into_owned()).unwrap_or(p.to_string())
        } else {
            std_rest
        };
        assert_eq!(rel(p, root), expected, "rel({p:?}, {root:?})");
    }
}

#[test]
fn rel_outside_root_keeps_path() {
    assert_eq!(rel("/other/a.rs", "/repo"), "/other/a.rs");
}

#[test]
fn rel_of_root_itself_is_file_name() {
    assert_eq!(rel("/repo/main.rs", "/repo/main.rs"), "main.rs");
}

#[test]
fn rel_turns_backslashes_into_slashes() {
    assert_eq!(rel("/repo/a\\b.rs", "/repo"), "a/b.rs");
}

#[test]
fn file_name_of_paths() {
    assert_eq!(file_name("/a/b/c.rs"), Some("c.rs".to_string()));
    assert_eq!(file_name("c.rs"), Some("c.rs".to_string()));
    assert_eq!(file_name("/a/b/"), Some("b".to_string()));
    assert_eq!(file_name("/"), None);
    assert_eq!(file_name("a/.."), None);
    assert_eq!(file_name(""), None);
}

#[test]
fn important_files_by_name() {
    assert!(is_important("README.md"));
    assert!(is_important("src/main.rs"));
    assert!(is_important("a\\b\\Cargo.toml"));
    assert!(is_important("pkg/__init__.py"));
    assert!(!is_important("src/graph.rs"));
    assert!(!is_important("readme.MD"));
    assert!(!is_important("src/"));
}

#[test]
fn importance_depends_on_last_segment_only() {
    for name in ["go.mod", "lib.rs", "notes.txt"] {
        assert_eq!(is_important(name), is_important(&format!("deep/dir/{name}")));
    }
}

#[test]
fn source_files_are_supported_and_in_path_order() {
    let given: Vec<String> = ["r/b.rs", "r/a/z.py", "r/README.md", "r/a.rs", "r/a-b.go", "r/B.rs", "r/a/x/y.c"]
        .iter()
        .map(|s| s.to_string())
        .collect();
    let got = toporepo::walk::source_files_of(&given);
    let mut expected: Vec<PathBuf> = given
        .iter()
        .filter(|p| toporepo::lang::language_of(p).is_some())
        .map(PathBuf::from)
        .collect();
    expected.sort();
    let expected: Vec<String> = expected.iter().map(|p| p.to_string_lossy().into_owned()).collect();
    assert_eq!(got, expected);
    assert_eq!(got, vec!["r/B.rs", "r/a/x/y.c", "r/a/z.py", "r/a-b.go", "r/a.rs", "r/b.rs"]);
}

#[test]
fn source_files_keep_a_single_supported_file() {
    assert_eq!(toporepo::walk::source_files_of(&vec!["main.rs".to_string()]), vec!["main.rs"]);
    assert!(toporepo::walk::source_files_of(&vec!["notes.txt".to_string()]).is_empty());
}
