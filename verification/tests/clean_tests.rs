use std::path::PathBuf;

use joat_path::clean_unix;
use joat_path::clean_windows;
use joat_path::PathClean;

fn to_windows(p: &str) -> String {
    p.replace('/', "\\")
}

#[test]
fn test_empty_path_is_current_dir() {
    assert_eq!(clean_unix(""), ".");
    assert_eq!(clean_windows(&to_windows("")), to_windows("."));
}

#[test]
fn test_clean_paths_dont_change() {
    let tests = vec![(".", "."), ("..", ".."), ("/", "/")];

    for test in tests {
        assert_eq!(clean_unix(test.0), test.1);
        assert_eq!(clean_windows(&to_windows(test.0)), to_windows(test.1));
    }
}

#[test]
fn test_replace_multiple_slashes() {
    let tests = vec![
        ("/", "/"),
        ("//", "/"),
        ("///", "/"),
        (".//", "."),
        ("//..", "/"),
        ("..//", ".."),
        ("/..//", "/"),
        ("/.//./", "/"),
        ("././/./", "."),
        ("path//to///thing", "path/to/thing"),
        ("/path//to///thing", "/path/to/thing"),
    ];

    for test in tests {
        assert_eq!(clean_unix(test.0), test.1);
        assert_eq!(clean_windows(&to_windows(test.0)), to_windows(test.1));
    }
}

#[test]
fn test_eliminate_current_dir() {
    let tests = vec![
        ("./", "."),
        ("/./", "/"),
        ("./test", "test"),
        ("./test/./path", "test/path"),
        ("/test/./path/", "/test/path"),
        ("test/path/.", "test/path"),
    ];

    for test in tests {
        assert_eq!(clean_unix(test.0), test.1);
        assert_eq!(clean_windows(&to_windows(test.0)), to_windows(test.1));
    }
}

#[test]
fn test_eliminate_parent_dir() {
    let tests = vec![
        ("/..", "/"),
        ("/../test", "/test"),
        ("test/..", "."),
        ("test/path/..", "test"),
        ("test/../path", "path"),
        ("/test/../path", "/path"),
        ("test/path/../../", "."),
        ("test/path/../../..", ".."),
        ("/test/path/../../..", "/"),
        ("/test/path/../../../..", "/"),
        ("test/path/../../../..", "../.."),
        ("test/path/../../another/path", "another/path"),
        ("test/path/../../another/path/..", "another"),
        ("../test", "../test"),
        ("../test/", "../test"),
        ("../test/path", "../test/path"),
        ("../test/..", ".."),
    ];

    for test in tests {
        assert_eq!(clean_unix(test.0), test.1);
        assert_eq!(clean_windows(&to_windows(test.0)), to_windows(test.1));
    }
}

#[test]
fn test_pathbuf_trait() {
    assert_eq!(
        PathBuf::from("/test/../path/").clean(),
        PathBuf::from("/path")
    );
}
