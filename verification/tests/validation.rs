use cache_archive::error::CacheError;
use cache_archive::linkname::canonicalize_linkname;
use cache_archive::paths::{AbsoluteSystemPathBuf, AnchoredSystemPathBuf, AnchoredUnixPathBuf,
    RelativeUnixPathBuf};
use cache_archive::validate::{canonicalize_name, check_name};

fn flags(name: &str) -> (bool, bool) {
    let v = check_name(&name.as_bytes().to_vec());
    (v.well_formed, v.windows_safe)
}

#[test]
fn test_add_trailing_slash() {
    let mut path = AnchoredSystemPathBuf::from_path_buf(b"foo/bar".to_vec()).unwrap();
    assert_eq!(path.to_str().unwrap(), "foo/bar");
    path.push(&Vec::new());
    assert_eq!(path.to_str().unwrap(), "foo/bar/");

    // Confirm that this is idempotent
    path.push(&Vec::new());
    assert_eq!(path.to_str().unwrap(), "foo/bar/");
}

#[test]
fn test_check_name_empty() {
    assert_eq!(flags(""), (false, false));
}

#[test]
fn test_check_name_malformed() {
    let malformed = [
        ".", "..", "/", "./", "../", "/a", "./a", "../a", "/.", "/..", "a/.", "a/..", "//",
        "/./", "/../", "a//", "a/./", "a/../", "//a", "/./a", "/../a", "a//a", "a/./a", "a/../a",
    ];
    for name in malformed {
        assert_eq!(flags(name), (false, true), "name: {:?}", name);
    }
}

#[test]
fn test_check_name_dot_runs_are_well_formed() {
    let fine = ["...", ".../a", "a/...", "a/.../a", ".../..."];
    for name in fine {
        assert_eq!(flags(name), (true, true), "name: {:?}", name);
    }
}

#[test]
fn test_check_name_backslash_is_windows_unsafe() {
    assert_eq!(flags("back\\slash\\file"), (true, false));
    assert_eq!(flags("a\\b"), (true, false));
    assert_eq!(flags("plain"), (true, true));
}

#[test]
fn test_canonicalize_name_cases() {
    let ok = canonicalize_name(&b"test.txt".to_vec()).unwrap();
    assert_eq!(ok.to_str().unwrap(), "test.txt");

    let dir = canonicalize_name(&b"something/".to_vec()).unwrap();
    assert_eq!(dir.to_str().unwrap(), "something");

    let err = canonicalize_name(&b"//".to_vec()).unwrap_err();
    assert_eq!(err.message(), "file name is malformed: //");
}

#[test]
fn test_canonicalize_name_idempotent() {
    for name in ["a", "a/", "one/two/", "...", "a/.../b/"] {
        let once = canonicalize_name(&name.as_bytes().to_vec()).unwrap();
        let twice = canonicalize_name(once.as_path()).unwrap();
        assert_eq!(once.as_path(), twice.as_path(), "name: {:?}", name);
    }
}

#[test]
fn test_canonicalize_linkname_cases() {
    let anchor = AbsoluteSystemPathBuf::new(b"/path/to/anchor".to_vec()).unwrap();

    let source = AnchoredSystemPathBuf::from_path_buf(b"source".to_vec()).unwrap();
    let got = canonicalize_linkname(&anchor, &source, &b"target".to_vec());
    assert_eq!(got.to_str().unwrap(), "/path/to/anchor/target");

    let nested = AnchoredSystemPathBuf::from_path_buf(b"child/source".to_vec()).unwrap();
    let got = canonicalize_linkname(&anchor, &nested, &b"../sibling/target".to_vec());
    assert_eq!(got.to_str().unwrap(), "/path/to/anchor/sibling/target");

    // On this host a backslash is an ordinary name byte, not a separator.
    let got = canonicalize_linkname(&anchor, &nested, &b"..\\sibling\\target".to_vec());
    assert_eq!(got.to_str().unwrap(), "/path/to/anchor/child/..\\sibling\\target");

    // An absolute target stands as it is.
    let got = canonicalize_linkname(&anchor, &source, &b"/etc/hosts".to_vec());
    assert_eq!(got.to_str().unwrap(), "/etc/hosts");

    // A target climbing past the anchor resolves to the parent.
    let escape = AnchoredSystemPathBuf::from_path_buf(b"escape".to_vec()).unwrap();
    let got = canonicalize_linkname(&anchor, &escape, &b"../".to_vec());
    assert_eq!(got.to_str().unwrap(), "/path/to");
}

#[test]
fn test_path_constructors_reject_wrong_kind() {
    let err = AnchoredSystemPathBuf::from_path_buf(b"/absolute".to_vec()).unwrap_err();
    assert_eq!(err.message(), "path is not relative: /absolute");

    let err = AbsoluteSystemPathBuf::new(b"relative".to_vec()).unwrap_err();
    assert_eq!(err.message(), "path is not absolute: relative");

    let err = RelativeUnixPathBuf::new(b"/absolute".to_vec()).unwrap_err();
    assert!(matches!(err, CacheError::NotRelative(_)));
}

#[test]
fn test_anchored_path_new_strips_root() {
    let root = AbsoluteSystemPathBuf::new(b"/a/b".to_vec()).unwrap();
    let inside = AbsoluteSystemPathBuf::new(b"/a/b/c/d".to_vec()).unwrap();
    let rel = AnchoredSystemPathBuf::new(&root, &inside).unwrap();
    assert_eq!(rel.to_str().unwrap(), "c/d");

    let same = AnchoredSystemPathBuf::new(&root, &root).unwrap();
    assert_eq!(same.to_str().unwrap(), "");

    let outside = AbsoluteSystemPathBuf::new(b"/a/bb/c".to_vec()).unwrap();
    let err = AnchoredSystemPathBuf::new(&root, &outside).unwrap_err();
    assert_eq!(err.message(), "path /a/bb/c is not under /a/b");
}

#[test]
fn test_resolve_path_against_anchor() {
    let anchor = AbsoluteSystemPathBuf::new(b"/anchor".to_vec()).unwrap();
    let rel = AnchoredSystemPathBuf::from_path_buf(b"one/two".to_vec()).unwrap();
    assert_eq!(anchor.resolve(&rel).to_str().unwrap(), "/anchor/one/two");
}

#[test]
fn test_unix_path_round_trip_and_tar_marker() {
    let p = AnchoredSystemPathBuf::from_path_buf(b"one/two".to_vec()).unwrap();
    let unix = p.to_unix().unwrap();
    let mut stored = AnchoredUnixPathBuf::from_relative(unix);
    stored.make_canonical_for_tar(true);
    assert_eq!(stored.as_str().unwrap(), "one/two/");
    stored.make_canonical_for_tar(true);
    assert_eq!(stored.as_str().unwrap(), "one/two/");
    let bytes = stored.into_inner();
    assert_eq!(bytes, b"one/two/".to_vec());
}

#[test]
fn test_invalid_unicode_is_rejected() {
    let p = AnchoredSystemPathBuf::from_path_buf(vec![b'a', 0xFF, 0xFE]).unwrap();
    let err = p.to_str().unwrap_err();
    assert!(matches!(err, CacheError::InvalidUnicode(_)));
}

#[test]
fn test_error_messages_are_stable() {
    assert_eq!(
        CacheError::Io("Is a directory (os error 21)".to_string()).message(),
        "IO error: Is a directory (os error 21)"
    );
    assert_eq!(
        CacheError::MalformedName(b"../escape".to_vec()).message(),
        "file name is malformed: ../escape"
    );
    assert_eq!(
        CacheError::WindowsUnsafeName(b"a\\b".to_vec()).message(),
        "file name is not Windows-safe"
    );
    assert_eq!(
        CacheError::UnsupportedFileType(cache_archive::entry::KIND_FIFO).message(),
        "attempted to restore unsupported file type: Fifo"
    );
    assert_eq!(
        CacheError::LinkOutsideOfDirectory(b"../".to_vec()).message(),
        "tar attempts to write outside of directory: ../"
    );
    assert_eq!(CacheError::CycleDetected.message(), "links in the cache are cyclic");
}
