use complesh::dropdown::{clamp_height, clamp_origin, origin_row, parse_cursor_report, MIN_HEIGHT};
use complesh::prompt::{DropdownPrompt, PromptAction};
use complesh::readkeys::{Key, ReadEvent, Readkeys};
use complesh::ring_buffer::RingBuffer;

fn prompt_with(values: Vec<&str>, buffer: &str) -> DropdownPrompt {
    let mut p = DropdownPrompt::new("p: ".to_string(), Readkeys::new(buffer.to_string()));
    p.values = RingBuffer::from_vec(values.into_iter().map(|s| s.to_string()).collect());
    p
}

#[test]
fn test_single_candidate_accepted_immediately() {
    let p = prompt_with(vec!["foo.rs"], "fo");
    assert_eq!(p.initial_accept(false), Some("foo.rs ".to_string()));
}

#[test]
fn test_no_immediate_accept_with_many_or_directory() {
    let several = prompt_with(vec!["a", "b"], "x");
    assert_eq!(several.initial_accept(false), None);
    let lone_dir = prompt_with(vec!["src/"], "s");
    assert_eq!(lone_dir.initial_accept(true), None);
    let none = prompt_with(vec![], "x");
    assert_eq!(none.initial_accept(false), None);
}

#[test]
fn test_submit_accepts_selection_with_trailing_space() {
    let mut p = prompt_with(vec!["pick-me", "other"], "pi");
    match p.step(ReadEvent::Submit, false) {
        PromptAction::Accept(s) => assert_eq!(s, "pick-me "),
        _ => panic!("submit must accept"),
    }
}

#[test]
fn test_submit_with_no_candidates_accepts_buffer() {
    let mut p = prompt_with(vec![], "typed");
    match p.step(ReadEvent::Submit, false) {
        PromptAction::Accept(s) => assert_eq!(s, "typed "),
        _ => panic!("submit must accept"),
    }
}

#[test]
fn test_alternate_submit_bypasses_selection() {
    let mut p = prompt_with(vec!["candidate"], "raw");
    match p.step(ReadEvent::Key(Key::Ctrl('j')), false) {
        PromptAction::Accept(s) => assert_eq!(s, "raw "),
        _ => panic!("the alternate submit must accept the raw buffer"),
    }
}

#[test]
fn test_exit_cancels() {
    let mut p = prompt_with(vec!["a"], "x");
    assert!(matches!(p.step(ReadEvent::Exit, false), PromptAction::Cancel));
}

#[test]
fn test_selection_keys_move_without_recompute() {
    let mut p = prompt_with(vec!["one", "two", "three"], "t");
    assert!(matches!(p.step(ReadEvent::Key(Key::Down), false), PromptAction::Moved));
    assert_eq!(p.current(), "two");
    assert!(matches!(p.step(ReadEvent::Key(Key::Ctrl('n')), false), PromptAction::Moved));
    assert_eq!(p.current(), "three");
    assert!(matches!(p.step(ReadEvent::Key(Key::Up), false), PromptAction::Moved));
    assert_eq!(p.current(), "two");
    assert!(matches!(p.step(ReadEvent::Key(Key::Ctrl('p')), false), PromptAction::Moved));
    assert_eq!(p.current(), "one");
}

#[test]
fn test_mode_toggle_key_asks_for_toggle() {
    let mut p = prompt_with(vec![], "x");
    assert!(matches!(p.step(ReadEvent::Key(Key::Null), false), PromptAction::ToggleMode));
}

#[test]
fn test_tab_with_single_file_accepts() {
    let mut p = prompt_with(vec!["lone.txt"], "lo");
    match p.step(ReadEvent::Tab, false) {
        PromptAction::Accept(s) => assert_eq!(s, "lone.txt "),
        _ => panic!("tab on a sole file must accept"),
    }
}

#[test]
fn test_tab_descends_into_directory_instead_of_accepting() {
    let mut p = prompt_with(vec!["src/", "tests/"], "s");
    match p.step(ReadEvent::Tab, true) {
        PromptAction::Recompute => {}
        _ => panic!("tab on a directory must recompute"),
    }
    assert_eq!(p.readkeys.value, "src/");
    assert_eq!(p.readkeys.cursor, 4);
}

#[test]
fn test_other_keys_recompute() {
    let mut p = prompt_with(vec!["a"], "x");
    assert!(matches!(p.step(ReadEvent::Yank, false), PromptAction::Recompute));
    assert!(matches!(
        p.step(ReadEvent::Key(Key::Char('z')), false),
        PromptAction::Recompute
    ));
}

#[test]
fn test_prompt_line_and_rows() {
    let mut p = prompt_with(vec!["one", "two"], "t");
    p.update_prompt("list");
    assert_eq!(p.prompt_line(), format!("\u{1b}[2K\u{1b}[38;5;4mlist: \u{1b}[39m{}", "t"));
    let rows = p.dropdown_rows(4);
    assert_eq!(rows.len(), 4);
    assert_eq!(rows[0], "-> one");
    assert_eq!(rows[1], "   two");
    assert_eq!(rows[2], "");
    assert_eq!(rows[3], "");
}

#[test]
fn test_rows_start_at_the_selection_and_wrap() {
    let mut p = prompt_with(vec!["one", "two", "three"], "t");
    p.step(ReadEvent::Key(Key::Down), false);
    let rows = p.dropdown_rows(3);
    assert_eq!(rows[0], "-> two");
    assert_eq!(rows[1], "   three");
    assert_eq!(rows[2], "   one");
}

#[test]
fn test_rows_mark_overflow_with_ellipsis() {
    let p = prompt_with(vec!["one", "two", "three", "four"], "x");
    let rows = p.dropdown_rows(3);
    assert_eq!(rows[0], "-> one");
    assert_eq!(rows[1], "   two");
    assert_eq!(rows[2], "   ...");
}

#[test]
fn test_parse_cursor_report_roundtrip() {
    let reply: Vec<u8> = b"\x1b[24;80R".to_vec();
    assert_eq!(parse_cursor_report(&reply), Some((80, 24)));
    let noisy: Vec<u8> = b"junk\x1b[3;7R".to_vec();
    assert_eq!(parse_cursor_report(&noisy), Some((7, 3)));
}

#[test]
fn test_parse_cursor_report_rejects_malformed_replies() {
    assert_eq!(parse_cursor_report(&Vec::new()), None);
    assert_eq!(parse_cursor_report(&b"\x1b[12R".to_vec()), None);
    assert_eq!(parse_cursor_report(&b"12;34R".to_vec()), None);
    assert_eq!(parse_cursor_report(&b"\x1b[;34R".to_vec()), None);
    assert_eq!(parse_cursor_report(&b"\x1b[99999;1R".to_vec()), None);
}

#[test]
fn test_height_clamps_between_minimum_and_window() {
    assert_eq!(clamp_height(32, 10, 50), 32);
    assert_eq!(clamp_height(32, 30, 50), 20);
    assert_eq!(clamp_height(32, 48, 50), MIN_HEIGHT);
    assert_eq!(clamp_height(3, 0, 50), MIN_HEIGHT);
}

#[test]
fn test_origin_row_and_clamp() {
    assert_eq!(origin_row(1, 10), 10);
    assert_eq!(origin_row(5, 10), 11);
    assert_eq!(clamp_origin(40, 50, 5), 40);
    assert_eq!(clamp_origin(48, 50, 5), 45);
}
