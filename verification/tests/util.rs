use complesh::util::{expand_user, parent_of, path_string, resolve_root, search_root, strip_root};

#[test]
fn test_expand_user_resolves_with_home() {
    let home = "/home/someone".to_string();
    assert_eq!(expand_user("~/x", Some(&home)), "/home/someone/x");
    let slashed = "/home/someone/".to_string();
    assert_eq!(expand_user("~/x", Some(&slashed)), "/home/someone/x");
}

#[test]
fn test_expand_user_without_home_or_tilde() {
    assert_eq!(expand_user("~/x", None), "~/x");
    assert_eq!(expand_user("plain/path", Some(&"/h".to_string())), "plain/path");
    assert_eq!(expand_user("~", Some(&"/h".to_string())), "~");
}

#[test]
fn test_search_root_uses_home_for_tilde_paths() {
    // with the current directory standing in as home, the missing file
    // under it falls back to its parent: home itself
    let home = ".".to_string();
    let root = search_root("~/surely-not-a-real-entry", Some(&home));
    assert_eq!(root, ".");
}

#[test]
fn test_search_root_falls_back_to_parent_then_dot() {
    // the file does not exist, its parent does
    assert_eq!(search_root("./missing-file", None), ".");
    // neither the file nor anything above it is a directory
    assert_eq!(search_root("missing-file", None), ".");
}

#[test]
fn test_resolve_root_decision_table() {
    assert_eq!(resolve_root("/a/b".to_string(), true, true), "/a/b");
    assert_eq!(resolve_root("/a/b".to_string(), false, true), "/a");
    assert_eq!(resolve_root("/a/b".to_string(), false, false), ".");
}

#[test]
fn test_parent_of_path_strings() {
    assert_eq!(parent_of("/a/b"), Some("/a".to_string()));
    assert_eq!(parent_of("/a/b/"), Some("/a".to_string()));
    assert_eq!(parent_of("a/b"), Some("a".to_string()));
    assert_eq!(parent_of("a"), Some("".to_string()));
    assert_eq!(parent_of("/a"), Some("/".to_string()));
    assert_eq!(parent_of("/"), None);
    assert_eq!(parent_of(""), None);
    assert_eq!(parent_of("./missing-file"), Some(".".to_string()));
}

#[test]
fn test_strip_root_relativizes() {
    assert_eq!(strip_root("/repo/", "/repo/src/main.rs"), "src/main.rs");
    assert_eq!(strip_root("/repo", "/repo/src/main.rs"), "src/main.rs");
    assert_eq!(strip_root("/repo", "/repo"), "");
    assert_eq!(strip_root("/other", "/repo/x"), "/repo/x");
    assert_eq!(strip_root("", "keep/me"), "keep/me");
}

#[test]
fn test_path_string_is_the_text() {
    assert_eq!(path_string("a/b"), "a/b".to_string());
}
