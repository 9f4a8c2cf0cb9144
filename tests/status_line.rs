use jv::ascii_line::AsciiLine;
use jv::status_line::{StatusLine, StatusLineMode};

#[test]
fn activate_shows_the_prompt() {
    let mut sl = StatusLine::new(20, 80);
    assert!(sl.is_empty());
    sl.activate(StatusLineMode::Query);
    assert_eq!(sl.text(), "");
    assert!(!sl.is_empty());
    assert!(matches!(sl.mode(), StatusLineMode::Query));
    sl.insert('a');
    sl.insert('b');
    assert_eq!(sl.text(), "ab");
}

#[test]
fn typing_and_deleting() {
    let mut sl = StatusLine::new(20, 80);
    sl.activate(StatusLineMode::Command);
    sl.insert('1');
    sl.insert('2');
    sl.left();
    sl.insert('x');
    assert_eq!(sl.text(), "1x2");
    sl.remove();
    assert_eq!(sl.text(), "12");
    sl.insert('é');
    assert_eq!(sl.text(), "12");
    sl.left();
    sl.left();
    sl.left();
    sl.remove();
    assert_eq!(sl.text(), "2");
    sl.clear();
    sl.activate(StatusLineMode::Command);
    sl.remove();
    assert!(sl.is_empty());
}

#[test]
fn history_walks_back_and_forth() {
    let mut sl = StatusLine::new(20, 80);
    sl.activate(StatusLineMode::Command);
    sl.insert('1');
    sl.save_history();
    sl.activate(StatusLineMode::Command);
    sl.insert('2');
    sl.save_history();
    sl.activate(StatusLineMode::Command);
    sl.history_up();
    assert_eq!(sl.text(), "2");
    sl.history_up();
    assert_eq!(sl.text(), "1");
    sl.history_up();
    assert_eq!(sl.text(), "1");
    sl.history_down();
    assert_eq!(sl.text(), "2");
    sl.history_down();
    assert_eq!(sl.text(), "");
    sl.history_down();
    assert_eq!(sl.text(), "");
}

#[test]
fn histories_are_kept_per_mode() {
    let mut sl = StatusLine::new(20, 80);
    sl.activate(StatusLineMode::Query);
    sl.insert('q');
    sl.save_history();
    sl.activate(StatusLineMode::Command);
    sl.history_up();
    assert_eq!(sl.text(), "");
    sl.activate(StatusLineMode::Query);
    sl.history_up();
    assert_eq!(sl.text(), "q");
}

#[test]
fn errors_come_and_go() {
    let mut sl = StatusLine::new(20, 80);
    sl.activate(StatusLineMode::Command);
    sl.set_error(AsciiLine::new("bad".to_string()).unwrap());
    sl.no_error();
    sl.insert('3');
    assert_eq!(sl.text(), "3");
    sl.clear();
    assert!(sl.is_empty());
    assert!(matches!(sl.mode(), StatusLineMode::Command));
}
