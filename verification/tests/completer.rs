use complesh::completer::list::ListCompleter;
use complesh::completer::mixed::{Mode, MixedCompleter};
use complesh::completer::replace_dot_slash;
use complesh::readkeys::Printable;

#[test]
fn test_ranked_results_prefer_better_matches() {
    let choices = vec!["foo.rs".to_string(), "bar.rs".to_string(), "food.rs".to_string()];
    let completer = ListCompleter::new(choices);
    let mut ring = completer.complete("fo");
    // the non-match is gone; the shorter, equally prefixed match ranks first
    assert_eq!(ring.len(), 2);
    let first = ring.clone_current().unwrap().without_escape_codes();
    assert_eq!(first, "foo.rs");
    ring.forward();
    let second = ring.clone_current().unwrap().without_escape_codes();
    assert_eq!(second, "food.rs");
}

#[test]
fn test_list_completer_empty_query_keeps_everything() {
    let choices = vec!["aa".to_string(), "bb".to_string()];
    let completer = ListCompleter::new(choices);
    let ring = completer.complete("");
    assert_eq!(ring.len(), 2);
}

#[test]
fn test_list_completer_label() {
    let completer = ListCompleter::new(vec![]);
    assert_eq!(completer.label(), "list");
}

#[test]
fn test_toggle_mode_cycles() {
    let mut mixed = MixedCompleter::default();
    assert_eq!(mixed.label(true), "auto [git]");
    assert_eq!(mixed.label(false), "auto [rec]");
    mixed.toggle_mode();
    assert_eq!(mixed.label(false), "recursive");
    mixed.toggle_mode();
    assert_eq!(mixed.label(false), "git");
    mixed.toggle_mode();
    assert_eq!(mixed.label(false), "auto [rec]");
    mixed.mode(Mode::Git);
    assert_eq!(mixed.label(true), "git");
}

#[test]
fn test_git_mode_without_repository_yields_nothing() {
    let mut mixed = MixedCompleter::default();
    mixed.mode(Mode::Git);
    let ring = mixed.complete("whatever", 10, None, None);
    assert_eq!(ring.len(), 0);
}

#[test]
fn test_replace_dot_slash_removes_every_occurrence() {
    assert_eq!(replace_dot_slash("./a/./b"), "a/b");
    assert_eq!(replace_dot_slash("plain"), "plain");
    assert_eq!(replace_dot_slash("././"), "");
}
