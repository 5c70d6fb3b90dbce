use blockdev::path_parts::{parent_lookup, ParentLookup, PathIdentity};
use std::path::Path;

/// What `std::path` gives for the parent and leaf of `input` relative to `/`.
fn std_split(input: &str) -> (Vec<u8>, Vec<u8>) {
    let path = Path::new(input);
    let relpath = path.strip_prefix("/").unwrap_or(path);
    let leaf = relpath
        .file_name()
        .map(|f| f.as_encoded_bytes().to_vec())
        .unwrap_or_default();
    let parent = relpath
        .parent()
        .unwrap_or_else(|| Path::new(""))
        .as_os_str()
        .as_encoded_bytes()
        .to_vec();
    (parent, leaf)
}

fn expected(input: &str) -> ParentLookup {
    let (parent, leaf) = std_split(input);
    if parent.is_empty() {
        ParentLookup::Root { leaf }
    } else {
        ParentLookup::Open { parent, leaf }
    }
}

#[test]
fn split_agrees_with_std_path() {
    let cases = [
        "/var/lib/plain/file", "/root/.ssh", "/var/lib/portables/myimage", "/home/testuser",
        "/nonexistent/deep/path", "/leaf-is-a-symlink", "/root-link/foo/bar", "/a/x",
        "/var/dangling/sub/leaf", "/alias/missing/leaf", "/chain0/leaf/subpath", "/", "",
        "//", "/.", "/./", "/./a", "//a//b//", "/a/./b/.", "/a/..", "/..", "/../x", "a",
        "a/b", "./a", ".", "./", "./.", "./a/b", "../a", "..", "a/.", "a//", "/a/b/", "/.a",
        ".a/b", "/a/.b", "/a/b/..", "/a/./", "x/./y/./", "/.//./a/./b//./",
    ];
    for c in cases {
        assert_eq!(parent_lookup(c.as_bytes()), expected(c), "input {c:?}");
    }
}

#[test]
fn split_examples() {
    assert_eq!(
        parent_lookup(b"/root/.ssh"),
        ParentLookup::Open {
            parent: b"root".to_vec(),
            leaf: b".ssh".to_vec()
        }
    );
    assert_eq!(
        parent_lookup(b"/leaf-is-a-symlink"),
        ParentLookup::Root {
            leaf: b"leaf-is-a-symlink".to_vec()
        }
    );
    assert_eq!(parent_lookup(b"/"), ParentLookup::Root { leaf: vec![] });
}

#[test]
fn identity_fields() {
    let id = PathIdentity::new(1, 2, b"x".to_vec());
    assert_eq!(id.parent_dev, 1);
    assert_eq!(id.parent_ino, 2);
    assert_eq!(id.leaf, b"x".to_vec());
    assert!(PathIdentity::new(1, 2, vec![]) < id);
}
