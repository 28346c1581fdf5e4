//! Canonicalization and trimming, checked against expected strings and
//! differentially against the path utilities of `axfs_vfs`.

use axfs_root::path::{canonicalize, trim_path, trim_slashes};

fn canon_str(s: &str) -> String {
    String::from_utf8(canonicalize(s.as_bytes())).unwrap()
}

#[test]
fn canonicalize_expected_values() {
    assert_eq!(canon_str(""), "");
    assert_eq!(canon_str("///"), "/");
    assert_eq!(canon_str("//a//.//b///c//"), "/a/b/c");
    assert_eq!(canon_str("/a/../"), "/");
    assert_eq!(canon_str("/a/../..///"), "/");
    assert_eq!(canon_str("a/../"), "");
    assert_eq!(canon_str("a/..//.."), "");
    assert_eq!(canon_str("././a"), "a");
    assert_eq!(canon_str(".././a"), "a");
    assert_eq!(canon_str("/././a"), "/a");
    assert_eq!(canon_str("/abc/../abc"), "/abc");
    assert_eq!(canon_str("/test"), "/test");
    assert_eq!(canon_str("/test/"), "/test");
    assert_eq!(canon_str("test/"), "test");
    assert_eq!(canon_str("test"), "test");
    assert_eq!(canon_str("/test//"), "/test");
    assert_eq!(canon_str("/test/foo"), "/test/foo");
    assert_eq!(canon_str("/test/foo/"), "/test/foo");
    assert_eq!(canon_str("/test/foo/bar"), "/test/foo/bar");
    assert_eq!(canon_str("/test/foo/bar//"), "/test/foo/bar");
    assert_eq!(canon_str("/test//foo/bar//"), "/test/foo/bar");
    assert_eq!(canon_str("/test//./foo/bar//"), "/test/foo/bar");
    assert_eq!(canon_str("/test//./.foo/bar//"), "/test/.foo/bar");
    assert_eq!(canon_str("/test//./..foo/bar//"), "/test/..foo/bar");
    assert_eq!(canon_str("/test//./../foo/bar//"), "/foo/bar");
    assert_eq!(canon_str("/test/../foo"), "/foo");
    assert_eq!(canon_str("/test/bar/../foo"), "/test/foo");
    assert_eq!(canon_str("../foo"), "foo");
    assert_eq!(canon_str("../foo/"), "foo");
    assert_eq!(canon_str("/../foo"), "/foo");
    assert_eq!(canon_str("/../foo/"), "/foo");
    assert_eq!(canon_str("/../../foo"), "/foo");
    assert_eq!(canon_str("/bleh/../../foo"), "/foo");
    assert_eq!(canon_str("/bleh/bar/../../foo"), "/foo");
    assert_eq!(canon_str("/bleh/bar/../../foo/.."), "/");
    assert_eq!(canon_str("/bleh/bar/../../foo/../meh"), "/meh");
}

#[test]
fn canonicalize_matches_outside_crate() {
    let samples = [
        "", "/", "///", "//a//.//b///c//", "/a/../", "a/../", "a/..//..", "././a", ".././a",
        "/././a", "/abc/../abc", "/test/", "test/", "/test//./../foo/bar//", "../foo",
        "/bleh/bar/../../foo/../meh", "/dev/pts/0", "tmp/./x/../y",
    ];
    for s in samples {
        assert_eq!(canon_str(s), axfs_vfs::path::canonicalize(s), "input {:?}", s);
    }
}

#[test]
fn canonicalize_idempotent_samples() {
    let samples = ["", "/", "//a//.//b///c//", "a/../b/./c//", "/../x/./../y", "./..//z/"];
    for s in samples {
        let once = canonicalize(s.as_bytes());
        let twice = canonicalize(&once);
        assert_eq!(once, twice, "input {:?}", s);
    }
}

#[test]
fn trimming() {
    assert_eq!(trim_path(b"//dev//"), b"dev");
    assert_eq!(trim_path(b"./dev"), b"dev");
    assert_eq!(trim_path(b".//a/"), b"a");
    assert_eq!(trim_path(b"./"), b".");
    assert_eq!(trim_path(b"a/./b"), b"a/./b");
    assert_eq!(trim_slashes(b"/a/b/"), b"a/b");
    assert_eq!(trim_slashes(b"///"), b"");
    assert_eq!(trim_slashes(b"a/."), b"a/.");
}
