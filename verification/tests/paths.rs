use std::path::Path;

use diskwatch::paths::FilePath;
use diskwatch::text::{clip, decimal_text};

#[test]
fn paths_are_the_same_where_their_names_are() {
    let all = [
        "/", "//", "/.", "/a", "/a/", "/a//", "/a/.", "/./a", "a", "a/", "./a", ".", "./", "..", "/..", "/a/..", "", "/a/b",
        "/a//b", "/a/./b/", "a/b", "/b/a", ".a", "/.a", "a/.", "./.", "././a", ".//a", "/ab", "/a /b", "/é",
    ];
    for a in all {
        for b in all {
            let (x, y) = (FilePath::new(a), FilePath::new(b));
            assert_eq!(x.same(&y), Path::new(a) == Path::new(b), "{a:?} {b:?}");
            if x.same(&y) {
                assert_eq!(x.mark(), y.mark(), "{a:?} {b:?}");
            }
        }
    }
}

#[test]
fn marks_tell_most_paths_apart() {
    assert_eq!(FilePath::new("").mark(), 0);
    assert_eq!(FilePath::new("/").mark(), 0);
    assert_eq!(FilePath::new("/a").mark(), 98 * 257);
    assert_ne!(FilePath::new("/a/b").mark(), FilePath::new("/ab").mark());
    assert_ne!(FilePath::new("/a/b").mark(), FilePath::new("/b/a").mark());
}

#[test]
fn text_is_told_from_other_bytes() {
    for raw in [&b"/home"[..], "/été/日本".as_bytes(), b"", b"\xff", b"/a\xc3", b"\xed\xa0\x80", b"\xf0\x9f\x98\x80", b"\xc0\xaf"] {
        let path = FilePath::from_bytes(raw.to_vec());
        assert_eq!(path.is_text(), std::str::from_utf8(raw).is_ok(), "{raw:?}");
        assert_eq!(path.display(), String::from_utf8_lossy(raw), "{raw:?}");
        assert_eq!(path.clone().bytes, raw.to_vec());
    }
}

#[test]
fn prefixes_and_suffixes_are_compared_byte_by_byte() {
    let path = FilePath::new("/proc/1 (deleted)");
    assert!(path.begins("") && path.begins("/proc/") && !path.begins("/sys/"));
    assert!(path.ends("") && path.ends(" (deleted)") && !path.ends("deleted"));
    assert!(!FilePath::new("/p").begins("/proc/"));
    assert!(!FilePath::new("d)").ends(" (deleted)"));
}

#[test]
fn numbers_and_clipped_text() {
    for n in [0, 9, 10, 99, 100, 1_234_567_890, u64::MAX] {
        assert_eq!(decimal_text(n), n.to_string());
    }
    assert_eq!(clip("été", 2), "ét");
    assert_eq!(clip("été", 3), "été");
    assert_eq!(clip("été", 0), "");
}
