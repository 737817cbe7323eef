use resizer::path::{
    extension, file_name, file_stem, join, key_of, lies_in, parent, same_path, sorted_set, Os,
};
use std::path::{Path, PathBuf};

const SAMPLES: &[&str] = &[
    "", "/", "//", ".", "..", "./", "../", "a", "a/", "a//", "/a", "//a", "a/b", "a//b", "a/./b",
    "./a", "././a", "a/.", "a/..", "a/../b", "/a/b.c", "b.c", ".hidden", ".hidden.mp4", "x.",
    "x..", "a.b.c", "/.", "/..", "/./a", "dir.d/file", "dir/.x/y.PNG", "niña/año.jpg", "...",
    "a b/c d.tar.gz", "~", "a\\b.c", "C:/x", "b", "a.b",
];

#[test]
fn parts_agree_with_std() {
    for s in SAMPLES {
        let p = Path::new(s);
        let text = |o: Option<&std::path::Path>| o.map(|x| x.to_str().unwrap().to_string());
        assert_eq!(file_name(Os::Other, s), p.file_name().map(|x| x.to_str().unwrap().to_string()), "{s}");
        assert_eq!(extension(Os::Other, s), p.extension().map(|x| x.to_str().unwrap().to_string()), "{s}");
        assert_eq!(file_stem(Os::Other, s), p.file_stem().map(|x| x.to_str().unwrap().to_string()), "{s}");
        assert_eq!(parent(Os::Other, s), text(p.parent()), "{s}");
    }
}

#[test]
fn joins_agree_with_std() {
    for a in SAMPLES {
        for b in SAMPLES {
            let want = Path::new(a).join(b);
            assert_eq!(join(Os::Other, a, b), want.to_str().unwrap(), "{a} {b}");
        }
    }
}

#[test]
fn order_agrees_with_std() {
    for a in SAMPLES {
        for b in SAMPLES {
            let (p, q) = (PathBuf::from(a), PathBuf::from(b));
            assert_eq!(same_path(Os::Other, a, b), p == q, "{a} {b}");
            assert_eq!(key_of(Os::Other, a) < key_of(Os::Other, b), p < q, "{a} {b}");
        }
    }
    let texts: Vec<String> = SAMPLES.iter().rev().map(|s| s.to_string()).collect();
    let mut want: Vec<PathBuf> = texts.iter().map(PathBuf::from).collect();
    want.sort();
    want.dedup();
    let got: Vec<PathBuf> = sorted_set(Os::Other, &texts).iter().map(PathBuf::from).collect();
    assert_eq!(got, want);
}

#[test]
fn windows_paths_know_drives_and_backslashes() {
    let w = Os::Windows;
    assert_eq!(file_name(w, "C:\\a\\b.mp4"), Some("b.mp4".to_string()));
    assert_eq!(file_name(w, "C:/a/b.mp4"), Some("b.mp4".to_string()));
    assert_eq!(file_name(w, "C:\\"), None);
    assert_eq!(file_name(w, "C:"), None);
    assert_eq!(parent(w, "C:\\a\\b"), Some("C:\\a".to_string()));
    assert_eq!(parent(w, "C:\\a"), Some("C:\\".to_string()));
    assert_eq!(parent(w, "C:\\"), None);
    assert_eq!(parent(w, "C:a"), Some("C:".to_string()));
    assert_eq!(join(w, "C:\\a", "b"), "C:\\a\\b");
    assert_eq!(join(w, "C:\\a\\", "b"), "C:\\a\\b");
    assert_eq!(join(w, "C:", "b"), "C:b");
    assert_eq!(join(w, "C:\\a", "D:\\b"), "D:\\b");
    assert_eq!(join(w, "C:\\a", "\\b"), "C:\\b");
    assert_eq!(join(w, "", "b"), "b");
    assert!(same_path(w, "c:\\a\\.\\b", "C:/a//b"));
    assert!(!same_path(w, "C:\\A", "C:\\a"));
    assert!(!same_path(Os::Other, "a\\b", "a/b"));
}

#[test]
fn windows_paths_know_shares_and_other_prefixes() {
    let w = Os::Windows;
    let some = |s: &str| Some(s.to_string());
    for bare in [
        "\\\\server\\clip.mp4",
        "//server/clip.mp4",
        "\\\\server\\clip.mp4\\",
        "\\\\?\\clip.mp4",
        "\\\\?\\C:",
        "\\\\?\\UNC\\server\\clip.mp4",
        "\\\\?\\UNC\\server",
        "\\\\.\\clip.mp4",
    ] {
        assert_eq!(file_name(w, bare), None, "{bare}");
        assert_eq!(extension(w, bare), None, "{bare}");
        assert_eq!(parent(w, bare), None, "{bare}");
    }
    assert_eq!(file_name(w, "\\\\server"), some("server"));
    assert_eq!(file_name(w, "\\\\\\server\\a"), some("a"));
    assert_eq!(file_name(w, "\\\\server\\share\\a.mp4"), some("a.mp4"));
    assert_eq!(parent(w, "\\\\server\\share\\a.mp4"), some("\\\\server\\share\\"));
    assert_eq!(file_name(w, "\\\\?\\C:\\a.mp4"), some("a.mp4"));
    assert_eq!(file_name(w, "\\\\?\\C:\\a/b"), some("a/b"));
    assert_eq!(file_name(w, "\\\\?\\UNC\\server\\share\\b"), some("b"));
    assert_eq!(join(w, "\\\\server\\share", "b"), "\\\\server\\share\\b");
    assert_eq!(join(w, "\\\\server\\share\\a", "\\b"), "\\\\server\\share\\b");
    assert_eq!(join(w, "C:\\a", "\\\\server\\share"), "\\\\server\\share");
    assert_eq!(join(w, "\\\\?\\C:", "b"), "\\\\?\\C:\\b");
    assert_eq!(join(w, "\\\\?\\C:\\a/", "b"), "\\\\?\\C:\\a/\\b");
    // Behind a prefix that is taken word for word, paths are spelled anew.
    for (dir, name, path) in [
        ("\\\\?\\C:\\a\\\\b", "c", "\\\\?\\C:\\a\\b\\c"),
        ("\\\\?\\C:\\a\\", "c", "\\\\?\\C:\\a\\c"),
        ("\\\\?\\C:/a", "c", "\\\\?\\C:\\a\\c"),
        ("\\\\?\\C:\\a", "./b//../c", "\\\\?\\C:\\a\\c"),
        ("\\\\?\\C:\\a", "..\\..\\c", "\\\\?\\C:\\c"),
        ("\\\\?\\C:\\a\\b", "/c", "\\\\?\\C:\\c"),
        ("\\\\?\\C:\\a", "", "\\\\?\\C:\\a\\"),
        ("\\\\?\\x", "c", "\\\\?\\x\\c"),
        ("\\\\?\\UNC\\s\\x", "c", "\\\\?\\UNC\\s\\x\\c"),
        ("\\\\?\\C:\\a\\.", "c", "\\\\?\\C:\\a\\.\\c"),
    ] {
        assert_eq!(join(w, dir, name), path, "{dir} {name}");
    }
    assert!(same_path(w, "\\\\server\\share", "//server/share/"));
    assert!(!same_path(w, "\\\\server\\share", "\\\\server\\share2"));
    assert!(same_path(w, "\\\\?\\c:\\a", "\\\\?\\C:\\a"));
    assert!(!same_path(w, "\\\\?\\C:\\a", "C:\\a"));
    assert!(!same_path(w, "\\\\?\\C:\\.\\a", "\\\\?\\C:\\a"));
    // Prefixes come word for word, then devices, shares and drives.
    let order = ["\\\\?\\x", "\\\\?\\UNC\\s\\x", "\\\\?\\C:", "\\\\.\\x", "\\\\s\\x", "C:", "\\a"];
    for i in 1..order.len() {
        assert!(key_of(w, order[i - 1]) < key_of(w, order[i]), "{}", order[i]);
    }
    // Elsewhere all of that is names.
    assert_eq!(file_name(Os::Other, "//server/clip.mp4"), some("clip.mp4"));
}

#[test]
fn what_lies_in_a_directory_is_told_by_parts() {
    for (path, dir, lies) in [
        ("/a/b", "/a", true),
        ("/a", "/a", true),
        ("/a/", "/a//.", true),
        ("/ab", "/a", false),
        ("/a", "/a/b", false),
        ("a/b", "/a", false),
        ("/a", "/", true),
        ("/a", "", false),
    ] {
        assert_eq!(lies_in(Os::Other, path, dir), lies, "{path} {dir}");
        if !dir.is_empty() {
            assert_eq!(Path::new(path).starts_with(dir), lies, "{path} {dir}");
        }
    }
    assert!(lies_in(Os::Windows, "c:\\a\\b", "C:/a"));
    assert!(!lies_in(Os::Windows, "D:\\a\\b", "C:/a"));
    assert!(lies_in(Os::Windows, "\\\\s\\x\\b", "//s/x"));
}
