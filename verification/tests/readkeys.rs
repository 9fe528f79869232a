use complesh::readkeys::{Goto, Key, Printable, ReadEvent, Readkeys};
use termion::color;

#[test]
fn readkeys_test_printable_string_strip_escape_characters() {
    let actual = format!("{}123", color::Fg(color::Blue)).without_escape_codes();
    let expected = "123".to_string();
    assert_eq!(actual, expected)
}

#[test]
fn readkeys_test_printable_string_width() {
    let actual = format!("{}123", color::Fg(color::Blue)).width();
    assert_eq!(actual, 3)
}

#[test]
fn readline_test_printable_string_strip_escape_characters() {
    let actual = format!("{}123", color::Fg(color::Blue)).without_escape_codes();
    let expected = "123".to_string();
    assert_eq!(actual, expected)
}

#[test]
fn readline_test_printable_string_width() {
    let actual = format!("{}123", color::Fg(color::Blue)).width();
    assert_eq!(actual, 3)
}

#[test]
fn test_kill_before_cursor_moves_span_to_kill_ring() {
    let mut rk = Readkeys::new("hello world".to_string());
    rk.cursor = 6;
    rk.kill_before_cursor();
    assert_eq!(rk.value, "world");
    assert_eq!(rk.cursor, 0);
    assert_eq!(rk.kill_ring.clone_current(), Some("hello ".to_string()));
}

#[test]
fn test_kill_after_cursor_keeps_cursor_at_boundary() {
    let mut rk = Readkeys::new("hello world".to_string());
    rk.cursor = 5;
    rk.kill_after_cursor();
    assert_eq!(rk.value, "hello");
    assert_eq!(rk.cursor, 5);
    assert_eq!(rk.kill_ring.clone_current(), Some(" world".to_string()));
}

#[test]
fn test_yank_then_yank_next_does_not_compound() {
    let mut rk = Readkeys::new("one".to_string());
    rk.kill_before_cursor();
    rk.set_value("two".to_string());
    rk.kill_before_cursor();
    assert_eq!(rk.value, "");
    rk.yank();
    assert_eq!(rk.value, "two");
    rk.yank_next();
    // the first yank was undone before the next entry came in
    assert_eq!(rk.value, "one");
    rk.yank_next();
    assert_eq!(rk.value, "two");
}

#[test]
fn test_write_inserts_at_cursor() {
    let mut rk = Readkeys::new("ad".to_string());
    rk.cursor = 1;
    rk.write("bc");
    assert_eq!(rk.value, "abcd");
    assert_eq!(rk.cursor, 3);
}

#[test]
fn test_backspace_removes_before_cursor_and_stops_at_start() {
    let mut rk = Readkeys::new("ab".to_string());
    rk.backspace();
    assert_eq!(rk.value, "a");
    assert_eq!(rk.cursor, 1);
    rk.backspace();
    rk.backspace();
    assert_eq!(rk.value, "");
    assert_eq!(rk.cursor, 0);
}

#[test]
fn test_backspace_word_kills_to_token_start() {
    let mut rk = Readkeys::new("cargo build ".to_string());
    rk.backspace_word();
    assert_eq!(rk.value, "cargo ");
    assert_eq!(rk.cursor, 6);
    assert_eq!(rk.kill_ring.clone_current(), Some("build ".to_string()));
}

#[test]
fn test_pop_state_undoes_and_exhausts_to_empty() {
    let mut rk = Readkeys::new("abc".to_string());
    rk.backspace();
    assert_eq!(rk.value, "ab");
    rk.pop_state();
    assert_eq!(rk.value, "abc");
    assert_eq!(rk.cursor, 3);
    rk.pop_state();
    assert_eq!(rk.value, "");
    assert_eq!(rk.cursor, 0);
}

#[test]
fn test_move_cursor_word_and_character() {
    let mut rk = Readkeys::new("one two".to_string());
    rk.move_cursor(Goto::BeginningOfLine);
    assert_eq!(rk.cursor, 0);
    rk.move_cursor(Goto::ForwardsWord);
    assert_eq!(rk.cursor, 3);
    rk.move_cursor(Goto::ForwardsWord);
    assert_eq!(rk.cursor, 7);
    rk.move_cursor(Goto::BackwardsWord);
    assert_eq!(rk.cursor, 4);
    rk.move_cursor(Goto::BackwardsCharacter);
    assert_eq!(rk.cursor, 3);
    rk.move_cursor(Goto::EndOfLine);
    assert_eq!(rk.cursor, 7);
    rk.move_cursor(Goto::ForwardsCharacter);
    assert_eq!(rk.cursor, 7);
}

#[test]
fn test_handle_key_dispatch() {
    let mut rk = Readkeys::new("".to_string());
    assert_eq!(rk.handle_key(Key::Char('a')), ReadEvent::Key(Key::Char('a')));
    assert_eq!(rk.value, "a");
    assert_eq!(rk.handle_key(Key::Char('\n')), ReadEvent::Submit);
    assert_eq!(rk.handle_key(Key::Char('\t')), ReadEvent::Tab);
    assert_eq!(rk.handle_key(Key::Ctrl('c')), ReadEvent::Exit);
    // end-of-input cancels only on an empty buffer
    assert_eq!(rk.handle_key(Key::Ctrl('d')), ReadEvent::Key(Key::Ctrl('d')));
    assert_eq!(rk.handle_key(Key::Backspace), ReadEvent::Key(Key::Backspace));
    assert_eq!(rk.value, "");
    assert_eq!(rk.handle_key(Key::Ctrl('d')), ReadEvent::Exit);
}

#[test]
fn test_typing_is_undoable_per_character() {
    let mut rk = Readkeys::new("".to_string());
    rk.handle_key(Key::Char('a'));
    rk.handle_key(Key::Char('b'));
    assert_eq!(rk.value, "ab");
    rk.handle_key(Key::Ctrl('7'));
    assert_eq!(rk.value, "a");
    rk.handle_key(Key::Ctrl('7'));
    assert_eq!(rk.value, "");
}

#[test]
fn test_handle_key_yank_reports_yank_event() {
    let mut rk = Readkeys::new("word".to_string());
    rk.kill_before_cursor();
    assert_eq!(rk.handle_key(Key::Ctrl('y')), ReadEvent::Yank);
    assert_eq!(rk.value, "word");
}
