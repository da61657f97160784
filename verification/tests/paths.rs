use mccabre::paths::normalize_path;

#[test]
fn test_normalize_path_no_root() {
    let path = "/absolute/path/to/file.rs";
    let normalized = normalize_path(path, None);
    assert_eq!(normalized, path);
}

#[test]
fn test_normalize_path_with_root() {
    let path = "/repo/src/lib.rs";
    let root = "/repo";
    let normalized = normalize_path(path, Some(root));
    assert_eq!(normalized, "src/lib.rs");
}

#[test]
fn test_normalize_path_no_match() {
    let path = "/other/path/file.rs";
    let root = "/repo";
    let normalized = normalize_path(path, Some(root));
    assert_eq!(normalized, path);
}

#[test]
fn test_normalize_path_relative() {
    let path = "src/lib.rs";
    let normalized = normalize_path(path, None);
    assert_eq!(normalized, path);
}

#[test]
fn test_normalize_path_exact_match() {
    let path = "/repo/src/lib.rs";
    let root = "/repo/src/lib.rs";
    let normalized = normalize_path(path, Some(root));
    assert_eq!(normalized, ".");
}

#[test]
fn test_normalize_path_root_with_trailing_separator() {
    let normalized = normalize_path("/repo/src/lib.rs", Some("/repo/"));
    assert_eq!(normalized, "src/lib.rs");

    let exact = normalize_path("/repo", Some("/repo/"));
    assert_eq!(exact, ".");
}

#[test]
fn test_normalize_path_empty_root() {
    let normalized = normalize_path("src/lib.rs", Some(""));
    assert_eq!(normalized, "src/lib.rs");
}
