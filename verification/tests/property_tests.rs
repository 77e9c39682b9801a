use joat_path::absolute_path;
use joat_path::clean_unix;
use joat_path::clean_windows;
use joat_path::PathError;

#[test]
fn test_idempotence_on_samples() {
    let samples = vec![
        "",
        ".",
        "..",
        "/",
        "//..",
        "a//b///c",
        "./a/./b/.",
        "a/b/../c",
        "../x/..",
        "/../x",
        "test/path/../../../..",
    ];
    for p in samples {
        let once = clean_unix(p);
        assert_eq!(clean_unix(&once), once);
        let once_w = clean_windows(p);
        assert_eq!(clean_windows(&once_w), once_w);
    }
}

#[test]
fn test_clean_never_empty() {
    let samples = vec!["", "/", ".", "..", "a/..", "././/./", "x"];
    for p in samples {
        assert!(!clean_unix(p).is_empty());
        assert!(!clean_windows(p).is_empty());
    }
    assert_eq!(clean_unix(""), ".");
}

#[test]
fn test_root_absorption() {
    assert_eq!(clean_unix("/.."), "/");
    assert_eq!(clean_unix("/../x"), "/x");
}

#[test]
fn test_relative_preservation() {
    assert_eq!(clean_unix("../x"), "../x");
    assert_eq!(clean_unix("../x/.."), "..");
}

#[test]
fn test_separator_collapse() {
    assert_eq!(clean_unix("a//b///c"), "a/b/c");
}

#[test]
fn test_dot_elimination() {
    assert_eq!(clean_unix("./a/./b/."), "a/b");
}

#[test]
fn test_cancellation() {
    assert_eq!(clean_unix("a/b/../c"), "a/c");
}

#[test]
fn test_windows_mixed_separators() {
    assert_eq!(clean_windows("/a\\b/c"), "\\a\\b\\c");
}

#[test]
fn test_make_absolute_rejects_relative_base() {
    assert_eq!(absolute_path("aa/bb", "x"), Err(PathError::InvalidInput));
    assert_eq!(absolute_path("", "x"), Err(PathError::InvalidInput));
    assert_eq!(absolute_path(".", "/x"), Err(PathError::InvalidInput));
}

#[test]
fn test_make_absolute_empty_and_relative_targets() {
    assert_eq!(absolute_path("/a/b", "").unwrap(), "/a/b");
    assert_eq!(absolute_path("/a/../b", "c/../d").unwrap(), "/b/d");
}

#[test]
fn test_make_absolute_absolute_target_overrides_base() {
    assert_eq!(absolute_path("/a/b", "/c").unwrap(), "/c");
}
