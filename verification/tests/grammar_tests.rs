use joat_path::path_clean::is_root;
use joat_path::path_clean::join_path_segments;
use joat_path::path_clean::make_absolute;
use joat_path::path_clean::special_path;
use joat_path::path_clean::split_path_segments;
use joat_path::path_clean::trim_end_path;
use joat_path::path_clean::UnixPath;
use joat_path::path_clean::WindowsPath;

#[test]
fn test_special_path_unix() {
    assert_eq!(Some(String::from(".")), special_path::<UnixPath>(""));
    assert_eq!(Some(String::from(".")), special_path::<UnixPath>("."));
    assert_eq!(Some(String::from("..")), special_path::<UnixPath>(".."));
    assert_eq!(Some(String::from("/")), special_path::<UnixPath>("/"));
    assert_eq!(None, special_path::<UnixPath>("\\"));
    assert_eq!(None, special_path::<UnixPath>("aaa"));
}

#[test]
fn test_special_path_windows() {
    assert_eq!(Some(String::from(".")), special_path::<WindowsPath>(""));
    assert_eq!(Some(String::from(".")), special_path::<WindowsPath>("."));
    assert_eq!(Some(String::from("..")), special_path::<WindowsPath>(".."));
    assert_eq!(Some(String::from("\\")), special_path::<WindowsPath>("/"));
    assert_eq!(Some(String::from("\\")), special_path::<WindowsPath>("\\"));
    assert_eq!(None, special_path::<WindowsPath>("aaa"));
}

#[test]
fn test_is_root_unix() {
    assert!(is_root::<UnixPath>("/a"));
    assert!(!is_root::<UnixPath>("\\a"));
    assert!(!is_root::<UnixPath>("a"));
}

#[test]
fn test_is_root_windows() {
    assert!(is_root::<WindowsPath>("/a"));
    assert!(is_root::<WindowsPath>("\\a"));
    assert!(!is_root::<WindowsPath>("a"));
}

#[test]
fn test_trim_end_path_unix() {
    assert_eq!("aaa", trim_end_path::<UnixPath>("aaa"));
    assert_eq!("aaa", trim_end_path::<UnixPath>("aaa/"));
    assert_eq!("aaa", trim_end_path::<UnixPath>("aaa/////"));
}

#[test]
fn test_trim_end_path_windows() {
    assert_eq!("aaa", trim_end_path::<WindowsPath>("aaa"));
    assert_eq!("aaa", trim_end_path::<WindowsPath>("aaa/"));
    assert_eq!("aaa", trim_end_path::<WindowsPath>("aaa\\"));
    assert_eq!("aaa", trim_end_path::<WindowsPath>("aaa/////"));
    assert_eq!("aaa", trim_end_path::<WindowsPath>("aaa\\\\\\\\\\"));
    assert_eq!("aaa", trim_end_path::<WindowsPath>("aaa/\\/\\/"));
}

#[test]
fn test_split_path_segments_first_empty_unix() {
    let segments = split_path_segments::<UnixPath>("/a/b/c");
    assert_eq!(4, segments.len());
    assert_eq!("", segments[0]);
    assert_eq!("a", segments[1]);
    assert_eq!("b", segments[2]);
    assert_eq!("c", segments[3]);
}

#[test]
fn test_split_path_segments_last_empty_unix() {
    let segments = split_path_segments::<UnixPath>("/a/b/c/");
    assert_eq!(5, segments.len());
    assert_eq!("", segments[0]);
    assert_eq!("a", segments[1]);
    assert_eq!("b", segments[2]);
    assert_eq!("c", segments[3]);
    assert_eq!("", segments[4]);
}

#[test]
fn test_split_path_segments_empty_unix() {
    let segments = split_path_segments::<UnixPath>("");
    assert_eq!(1, segments.len());
    assert_eq!("", segments[0]);
}

#[test]
fn test_split_path_segments_multiple_empty_unix() {
    let segments = split_path_segments::<UnixPath>("//");
    assert_eq!(3, segments.len());
    assert_eq!("", segments[0]);
    assert_eq!("", segments[1]);
    assert_eq!("", segments[2]);
}

#[test]
fn test_split_path_segments_first_empty_unix_backslashes() {
    let segments = split_path_segments::<UnixPath>("/a\\b\\c");
    assert_eq!(2, segments.len());
    assert_eq!("", segments[0]);
    assert_eq!("a\\b\\c", segments[1]);
}

#[test]
fn test_split_path_segments_first_empty_windows_backslashes() {
    let segments = split_path_segments::<WindowsPath>("\\a\\b\\c");
    assert_eq!(4, segments.len());
    assert_eq!("", segments[0]);
    assert_eq!("a", segments[1]);
    assert_eq!("b", segments[2]);
    assert_eq!("c", segments[3]);
}

#[test]
fn test_split_path_segments_first_empty_windows_mixture() {
    let segments = split_path_segments::<WindowsPath>("/a\\b/c");
    assert_eq!(4, segments.len());
    assert_eq!("", segments[0]);
    assert_eq!("a", segments[1]);
    assert_eq!("b", segments[2]);
    assert_eq!("c", segments[3]);
}

#[test]
fn test_join_path_segments_unix() {
    let no_segments: Vec<String> = vec![];
    assert_eq!("", join_path_segments::<UnixPath>(&no_segments));
    let segments: Vec<String> = vec![String::from("a"), String::from("b"), String::from("c")];
    assert_eq!("a/b/c", join_path_segments::<UnixPath>(&segments));
}

#[test]
fn test_join_path_segments_windows() {
    let no_segments: Vec<String> = vec![];
    assert_eq!("", join_path_segments::<WindowsPath>(&no_segments));
    let segments: Vec<String> = vec![String::from("a"), String::from("b"), String::from("c")];
    assert_eq!("a\\b\\c", join_path_segments::<WindowsPath>(&segments));
}

#[test]
fn test_make_absolute_unix() {
    assert_eq!("/aaa", make_absolute::<UnixPath>("aaa"));
    assert_eq!("//aaa", make_absolute::<UnixPath>("/aaa"));
    assert_eq!("/\\aaa", make_absolute::<UnixPath>("\\aaa"));
}

#[test]
fn test_make_absolute_windows() {
    assert_eq!("\\aaa", make_absolute::<WindowsPath>("aaa"));
    assert_eq!("\\/aaa", make_absolute::<WindowsPath>("/aaa"));
    assert_eq!("\\\\aaa", make_absolute::<WindowsPath>("\\aaa"));
}
