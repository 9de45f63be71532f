use flounder::filename::{path_extension, same_bytes};
use std::path::Path;

fn extension(path: &str) -> Option<&str> {
    path_extension(path.as_bytes()).map(|e| std::str::from_utf8(e).unwrap())
}

#[test]
fn path_extension_follows_the_last_dot_of_the_name() {
    assert_eq!(extension("index.gmi"), Some("gmi"));
    assert_eq!(extension("a.tar.gz"), Some("gz"));
    assert_eq!(extension("dir/a.txt"), Some("txt"));
    assert_eq!(extension("a."), Some(""));
    assert_eq!(extension("..gmi"), Some("gmi"));
}

#[test]
fn path_extension_is_none_without_a_name_or_a_dot_inside_it() {
    assert_eq!(extension(""), None);
    assert_eq!(extension("gmi"), None);
    assert_eq!(extension(".gmi"), None);
    assert_eq!(extension("dir/.gmi"), None);
    assert_eq!(extension("a.b/c"), None);
    assert_eq!(extension("."), None);
    assert_eq!(extension(".."), None);
    assert_eq!(extension("a.gmi/.."), None);
    assert_eq!(extension("/"), None);
}

#[test]
fn path_extension_passes_slashes_and_dots_at_the_end() {
    assert_eq!(extension("a.gmi/"), Some("gmi"));
    assert_eq!(extension("a.gmi/."), Some("gmi"));
    assert_eq!(extension("a.gmi//./"), Some("gmi"));
}

#[test]
fn path_extension_is_that_of_std_paths() {
    let parts = ["", "a", ".", "..", "/", "a.b", ".a", "a.", "x.gmi", "//", "./", "/.", "b.c.d"];
    for first in parts {
        for second in parts {
            for third in parts {
                let path = format!("{}{}{}", first, second, third);
                let expected = Path::new(&path).extension().and_then(|e| e.to_str());
                assert_eq!(extension(&path), expected, "for {:?}", path);
            }
        }
    }
}

#[test]
fn same_bytes_is_equality() {
    assert!(same_bytes(b"gmi", b"gmi"));
    assert!(same_bytes(b"", b""));
    assert!(!same_bytes(b"gmi", b"gm"));
    assert!(!same_bytes(b"gmi", b"gmx"));
}
