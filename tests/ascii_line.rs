use jv::ascii_line::AsciiLine;
use jv::line::Line;

fn line(s: &str) -> AsciiLine {
    AsciiLine::new(s.to_string()).unwrap()
}

#[test]
fn test_returns_error_for_non_ascii_string() {
    assert_eq!(
        AsciiLine::new("la vita è bella".to_string()),
        Err("la vita è bella".to_string())
    );
    assert_eq!(
        AsciiLine::new("❤️ pugs ❤️".to_string()),
        Err("❤️ pugs ❤️".to_string())
    );
}

#[test]
fn test_renders_correctly() {
    let line = line("42 is the answer to life, the universe and everything");

    assert_eq!(line.chars_count(), 53);

    for c in 0..line.chars_count() {
        assert_eq!(line.char_width(c), 1, "character at #{} is not 1 unit wide", c);
    }

    assert_eq!(line.render(0, 53), line.line());

    assert_eq!(line.render(0, 80), line.line());
    assert_eq!(line.render(0, 10), "42 is the ");

    assert_eq!(line.render(100, 80), "");

    assert_eq!(line.render(10, 80), "answer to life, the universe and everything");
    assert_eq!(line.render(10, 14), "answer to life");
}

#[test]
fn test_renders_tabs_correctly() {
    let mut line = line("\tA\tBB\tCCC\tDDDD\tEEEEE\tFFFFFF\tGGGGGGG\tH");

    assert_eq!(line.chars_count(), 37);

    for c in 0..line.chars_count() {
        let w = match c {
            0 => 8,
            2 => 7,
            5 => 6,
            9 => 5,
            14 => 4,
            20 => 3,
            27 => 2,
            35 => 1,
            _ => 1,
        };

        assert_eq!(line.char_width(c), w, "character at #{} is not {} unit wide", c, w);
    }

    assert_eq!(line.render(0, 66), line.line());

    assert_eq!(line.render(0, 80), line.line());
    assert_eq!(line.render(0, 10), "\tA");

    assert_eq!(line.render(100, 80), "");

    assert_eq!(line.render(1, 10), "A\tBB");
    assert_eq!(line.render(5, 7), "\tC");

    assert_eq!(line.render(2, 3), "");

    line.indent(3);
    for c in 0..line.chars_count() {
        let w = match c {
            0 => 5,
            2 => 7,
            5 => 6,
            9 => 5,
            14 => 4,
            20 => 3,
            27 => 2,
            35 => 1,
            _ => 1,
        };

        assert_eq!(line.char_width(c), w, "character at #{} is not {} unit wide", c, w);
    }
}

#[test]
fn test_insert() {
    let mut line = line("");

    line.insert(0, 'h');
    line.insert(1, 'i');
    line.insert(2, 'g');
    line.insert(3, 'r');
    line.insert(4, 'u');
    line.insert(5, 'n');
    line.insert(6, 'd');

    assert_eq!(line.render(0, 80), "higrund");

    line.insert(2, ',');
    line.insert(3, ' ');
    line.insert(6, 'o');
    line.insert(10, '!');

    assert_eq!(line.render(0, 80), "hi, ground!");
}

#[test]
fn test_remove() {
    let mut line = line("hi, ground!");

    line.remove(2);
    line.remove(2);
    line.remove(4);
    line.remove(7);

    assert_eq!(line.render(0, 80), "higrund");
}

#[test]
fn test_edit() {
    let mut line = line("");

    line.insert(0, '/');
    line.remove(0);

    assert_eq!(line.render(0, 80), "");

    line.insert(0, 'm');
    line.insert(0, 'a');
    line.insert(0, 'y');

    assert_eq!(line.render(0, 80), "yam");

    line.remove(1);
    line.insert(1, 'u');

    assert_eq!(line.render(0, 80), "yum");

    line.remove(2);
    line.remove(1);
    line.remove(0);

    assert_eq!(line.render(0, 80), "");
}

#[test]
fn test_edit_tabs() {
    let mut line = line("");

    line.insert(0, '0');
    line.insert(1, '\t');
    line.insert(2, '$');

    assert_eq!(line.char_width(1), 7);

    line.insert(1, '1');
    assert_eq!(line.char_width(2), 6);

    line.insert(2, '2');
    assert_eq!(line.char_width(3), 5);

    line.remove(1);
    assert_eq!(line.char_width(2), 6);

    assert_eq!(line.render(0, 80), "02\t$");
    assert_eq!(line.render(0, 3), "02");
}

#[test]
fn tab_reaches_the_next_tab_stop() {
    let line = line("\tA\tBB");
    assert_eq!(line.char_width(0), 8);
    assert_eq!(line.char_width(1), 1);
    assert_eq!(line.char_width(2), 7);
    assert_eq!(line.char_width(3), 1);
}

#[test]
fn tab_widths_follow_the_first_column() {
    let mut line = line("ab\tc");
    assert_eq!(line.char_width(2), 6);
    line.indent(5);
    assert_eq!(line.char_width(2), 1);
    line.indent(6);
    assert_eq!(line.char_width(2), 8);
}

#[test]
fn non_ascii_line_is_handed_back_unchanged() {
    assert_eq!(AsciiLine::new("café".to_string()), Err("café".to_string()));
}

#[test]
fn empty_line_counts() {
    let line = line("");
    assert!(line.is_empty());
    assert_eq!(line.len(), 0);
    assert_eq!(line.chars_count(), 0);
    assert_eq!(line.render(0, 10), "");
}

#[test]
fn render_stops_before_a_tab_that_does_not_fit() {
    let line = line("ab\tcd");
    assert_eq!(line.render(0, 7), "ab");
    assert_eq!(line.render(0, 8), "ab\t");
    assert_eq!(line.render(0, 0), "");
}

#[test]
fn clear_empties_the_line() {
    let mut line = line("a\tb");
    line.clear();
    assert!(line.is_empty());
    assert_eq!(line.render(0, 80), "");
    line.insert(0, 'x');
    assert_eq!(line.line(), "x");
}

#[test]
fn duplicate_keeps_text_and_widths() {
    let line = line("\tz");
    let copy = line.duplicate();
    assert_eq!(copy, line);
    assert_eq!(copy.char_width(0), 8);
}
