use joat_path::absolute_path;

/// The number of normal components of an absolute, cleaned path: `None` when
/// the path is not absolute or still holds an empty, `.` or `..` component.
fn path_component_count(path: &str) -> Option<usize> {
    let rest = path.strip_prefix('/')?;
    if rest.is_empty() {
        return Some(0);
    }
    let mut n = 0;
    for part in rest.split('/') {
        if part.is_empty() || part == "." || part == ".." {
            return None;
        }
        n += 1;
    }
    Some(n)
}

fn check_absolute_path(
    base_dir: &str,
    path: &str,
    expected_path_str: &str,
    expected_component_count: usize,
) {
    let p = absolute_path(base_dir, path).unwrap();
    assert!(p.starts_with('/'));
    assert_eq!(p, expected_path_str);
    assert_eq!(path_component_count(&p).unwrap(), expected_component_count);
    assert!(!p.contains('\\'));
}

fn check_absolute_path_fails(base_dir: &str, path: &str) {
    assert!(absolute_path(base_dir, path).is_err());
}

#[test]
fn fails_if_base_dir_not_absolute() {
    check_absolute_path_fails("aa/bb/cc", "");
}

#[test]
fn path_empty() {
    check_absolute_path("/aa/bb/cc", "", "/aa/bb/cc", 3);
}

#[test]
fn base_dir_unnormalized_path_empty() {
    check_absolute_path("/aa/../bb/cc", "", "/bb/cc", 2);
}

#[test]
fn path_single_component_relative() {
    check_absolute_path("/aa/bb/cc", "dd", "/aa/bb/cc/dd", 4);
}

#[test]
fn path_single_component_absolute() {
    check_absolute_path("/aa/bb/cc", "/dd", "/dd", 1);
}

#[test]
fn path_multiple_components_relative() {
    check_absolute_path("/aa/bb/cc", "dd/ee", "/aa/bb/cc/dd/ee", 5);
}

#[test]
fn path_multiple_components_absolute() {
    check_absolute_path("/aa/bb/cc", "/dd/ee", "/dd/ee", 2);
}

#[test]
fn path_multiple_components_unnormalized() {
    check_absolute_path("/aa/bb/cc", "dd/../ee", "/aa/bb/cc/ee", 4);
}

#[test]
fn both_unnormalized() {
    check_absolute_path("/aa/bb/../cc", "dd/../ee", "/aa/cc/ee", 3);
}
