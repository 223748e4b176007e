use std::path::Path;

use exhume::path::{file_name, same_path};

/// Paths with each kind of oddity: roots, dots, and slashes to spare.
const PATHS: [&str; 30] = [
    "", ".", "..", "/", "//", "///", "/.", "/./", "/..", "./", "./.", "././.", "./a", "a", "a/",
    "a//", "a/.", "a/./", "a/..", "/a", "//a", "/./a", "a/b", "a//b/", "a/./b", "./a/b", "a/../b",
    ".a", "a.", "\u{e9}t\u{e9}/caf\u{e9}",
];

#[test]
fn paths_are_compared_by_component() {
    for a in PATHS {
        for b in PATHS {
            assert_eq!(same_path(a, b), Path::new(a) == Path::new(b), "{a} and {b}");
        }
    }
    assert!(same_path("a/./b//", "a/b"));
    assert!(!same_path("./a", "a"));
    assert!(!same_path("/a", "a"));
}

#[test]
fn the_file_name_is_the_last_name() {
    for path in PATHS {
        let expect = Path::new(path)
            .file_name()
            .map(|name| name.to_str().unwrap().to_string());
        assert_eq!(file_name(path), expect, "{path}");
    }
    assert_eq!(file_name("/dev/sdb/"), Some("sdb".to_string()));
    assert_eq!(file_name("/dev/.."), None);
}
