use jv::ascii_line::AsciiLine;
use jv::line::Line;
use jv::view::View;

fn line(s: &str) -> AsciiLine {
    AsciiLine::new(s.to_string()).unwrap()
}

#[test]
fn test_basic_movement() {
    let mut lines = vec![line("hello world!"), line(""), line("and universe!")];

    let mut view = View::new((80, 23), lines.clone());

    for l in &mut lines {
        l.indent(4);
    }

    assert_eq!(view.col(), 0);
    assert_eq!(view.current_line(), Some(&lines[0]));

    view.move_left();
    assert_eq!(view.col(), 0);
    assert_eq!(view.current_line(), Some(&lines[0]));

    view.move_up();
    assert_eq!(view.col(), 0);
    assert_eq!(view.current_line(), Some(&lines[0]));

    view.move_right();
    assert_eq!(view.col(), 1);
    assert_eq!(view.current_line(), Some(&lines[0]));

    view.move_left();
    assert_eq!(view.col(), 0);
    assert_eq!(view.current_line(), Some(&lines[0]));

    view.move_down();
    assert_eq!(view.col(), 0);
    assert_eq!(view.current_line(), Some(&lines[1]));

    view.move_right();
    assert_eq!(view.col(), 0);
    assert_eq!(view.current_line(), Some(&lines[1]));

    view.move_down();
    view.move_right();
    assert_eq!(view.col(), 1);
    assert_eq!(view.current_line(), Some(&lines[2]));

    view.move_down();
    assert_eq!(view.col(), 1);
    assert_eq!(view.current_line(), Some(&lines[2]));
}

#[test]
fn test_basic_horizontal_framing() {
    let mut lines = vec![line("hello world!")];

    let mut view = View::new((9, 3), lines.clone());

    for l in &mut lines {
        l.indent(4);
    }

    view.move_right();
    view.move_right();
    view.move_right();
    view.move_right();

    assert_eq!(view.col(), 4);
    assert_eq!(view.frame_start_char_ix(), 0);

    view.move_right();
    assert_eq!(view.col(), 5);
    assert_eq!(view.frame_start_char_ix(), 1);

    view.move_right();
    assert_eq!(view.col(), 6);
    assert_eq!(view.frame_start_char_ix(), 2);

    view.move_left();
    assert_eq!(view.col(), 5);
    assert_eq!(view.frame_start_char_ix(), 2);

    view.move_left();
    assert_eq!(view.col(), 4);
    assert_eq!(view.frame_start_char_ix(), 2);

    view.move_left();
    assert_eq!(view.col(), 3);
    assert_eq!(view.frame_start_char_ix(), 2);

    view.move_left();
    assert_eq!(view.col(), 2);
    assert_eq!(view.frame_start_char_ix(), 2);

    view.move_left();
    assert_eq!(view.col(), 1);
    assert_eq!(view.frame_start_char_ix(), 1);

    view.move_left();
    assert_eq!(view.col(), 0);
    assert_eq!(view.frame_start_char_ix(), 0);
}

#[test]
fn test_basic_vertical_framing() {
    let mut lines = vec![line("hello world!"), line("hello!"), line("ciao!"), line("hi!")];

    let mut view = View::new((80, 2), lines.clone());

    for l in &mut lines {
        l.indent(4);
    }

    assert_eq!(view.current_line().unwrap(), &lines[0]);
    assert_eq!(view.frame_start_row(), 0);

    view.move_down();
    assert_eq!(view.current_line().unwrap(), &lines[1]);
    assert_eq!(view.frame_start_row(), 0);

    view.move_down();
    assert_eq!(view.current_line().unwrap(), &lines[2]);
    assert_eq!(view.frame_start_row(), 1);

    view.move_down();
    assert_eq!(view.current_line().unwrap(), &lines[3]);
    assert_eq!(view.frame_start_row(), 2);

    view.move_up();
    assert_eq!(view.current_line().unwrap(), &lines[2]);
    assert_eq!(view.frame_start_row(), 2);

    view.move_up();
    assert_eq!(view.current_line().unwrap(), &lines[1]);
    assert_eq!(view.frame_start_row(), 1);

    view.move_up();
    assert_eq!(view.current_line().unwrap(), &lines[0]);
    assert_eq!(view.frame_start_row(), 0);
}

#[test]
fn test_sol() {
    let mut lines = vec![line("hello world!")];
    let mut view = View::new((80, 23), lines.clone());

    for l in &mut lines {
        l.indent(4);
    }

    view.move_right();
    view.move_right();

    assert_eq!(view.current_line().unwrap(), &lines[0]);
    assert_eq!(view.col(), 2);

    view.move_to_sol();

    assert_eq!(view.current_line().unwrap(), &lines[0]);
    assert_eq!(view.col(), 0);
}

#[test]
fn test_eol() {
    let mut lines = vec![line("hello world!")];
    let mut view = View::new((80, 23), lines.clone());

    for l in &mut lines {
        l.indent(4);
    }

    view.move_right();
    view.move_right();

    assert_eq!(view.current_line().unwrap(), &lines[0]);
    assert_eq!(view.col(), 2);

    view.move_to_eol();

    assert_eq!(view.current_line().unwrap(), &lines[0]);
    assert_eq!(view.col(), lines[0].chars_count() - 1);
}

#[test]
fn test_paging() {
    let mut lines = vec![
        line("line 1"),
        line("line 2"),
        line("line 3"),
        line("line 4"),
        line("line 5"),
        line("line 6"),
    ];
    let mut view = View::new((80, 3), lines.clone());

    for l in &mut lines {
        l.indent(4);
    }

    assert_eq!(view.current_line().unwrap(), &lines[0]);
    assert_eq!(view.frame_start_row(), 0);

    view.page_down();
    assert_eq!(view.current_line().unwrap(), &lines[3]);
    assert_eq!(view.frame_start_row(), 3);

    view.page_up();
    assert_eq!(view.current_line().unwrap(), &lines[0]);
    assert_eq!(view.frame_start_row(), 0);

    view.move_down();
    view.page_up();
    assert_eq!(view.current_line().unwrap(), &lines[0]);
    assert_eq!(view.frame_start_row(), 0);

    view.move_down();
    view.page_down();
    assert_eq!(view.current_line().unwrap(), &lines[4]);
    assert_eq!(view.frame_start_row(), 3);

    view.page_down();
    assert_eq!(view.current_line().unwrap(), &lines[5]);
    assert_eq!(view.frame_start_row(), 5);
}

fn goto_lines() -> Vec<AsciiLine> {
    vec![
        line("a very long line"),
        line(""),
        line("line 3"),
        line("line 4"),
        line("line 5"),
        line("-------------------------------------------------------"),
        line(""),
    ]
}

#[test]
fn test_goto() {
    let mut lines = goto_lines();
    let mut view = View::new((20, 4), lines.clone());

    for l in &mut lines {
        l.indent(4);
    }

    view.goto(0, 0);
    assert_eq!(view.col(), 0);
    assert_eq!(view.current_line().unwrap(), &lines[0]);
    assert_eq!(view.frame_start_char_ix(), 0);
    assert_eq!(view.frame_start_row(), 0);

    view.goto(0, 5);
    assert_eq!(view.col(), 5);
    assert_eq!(view.current_line().unwrap(), &lines[0]);
    assert_eq!(view.frame_start_char_ix(), 0);
    assert_eq!(view.frame_start_row(), 0);

    view.goto(1, 0);
    assert_eq!(view.col(), 0);
    assert_eq!(view.current_line().unwrap(), &lines[1]);
    assert_eq!(view.frame_start_char_ix(), 0);
    assert_eq!(view.frame_start_row(), 0);

    // row 4 is below a 4-row window starting at 0: the window moves to
    // 4 - 4 / 2
    view.goto(4, 2);
    assert_eq!(view.col(), 2);
    assert_eq!(view.current_line().unwrap(), &lines[4]);
    assert_eq!(view.frame_start_char_ix(), 0);
    assert_eq!(view.frame_start_row(), 2);

    view.goto(0, 0);
    assert_eq!(view.col(), 0);
    assert_eq!(view.current_line().unwrap(), &lines[0]);
    assert_eq!(view.frame_start_char_ix(), 0);
    assert_eq!(view.frame_start_row(), 0);

    view.goto(5, 40);
    assert_eq!(view.col(), 40);
    assert_eq!(view.current_line().unwrap(), &lines[5]);
    assert_eq!(view.frame_start_char_ix(), 25);
    assert_eq!(view.frame_start_row(), 3);

    view.goto(5, 4);
    assert_eq!(view.col(), 4);
    assert_eq!(view.current_line().unwrap(), &lines[5]);
    assert_eq!(view.frame_start_char_ix(), 4);
    assert_eq!(view.frame_start_row(), 3);
}

#[test]
fn test_remembers_max_col() {
    let mut lines = goto_lines();
    let mut view = View::new((20, 4), lines.clone());

    for l in &mut lines {
        l.indent(4);
    }

    view.goto(0, 5);
    assert_eq!(view.col(), 5);
    assert_eq!(view.current_line().unwrap(), &lines[0]);

    view.move_down();
    assert_eq!(view.col(), 0);
    assert_eq!(view.current_line().unwrap(), &lines[1]);

    view.move_down();
    assert_eq!(view.col(), 5);
    assert_eq!(view.current_line().unwrap(), &lines[2]);

    view.move_left();
    view.move_down();
    assert_eq!(view.col(), 4);
    assert_eq!(view.current_line().unwrap(), &lines[3]);

    view.goto(5, 30);
    assert_eq!(view.col(), 30);
    assert_eq!(view.current_line().unwrap(), &lines[5]);

    view.move_down();
    assert_eq!(view.col(), 0);
    assert_eq!(view.current_line().unwrap(), &lines[6]);

    view.move_up();
    assert_eq!(view.col(), 30);
    assert_eq!(view.current_line().unwrap(), &lines[5]);

    // the window starts at row 3 (5 - 4 / 2), the cursor on its third row
    view.page_up();
    assert_eq!(view.col(), 5);
    assert_eq!(view.current_line().unwrap(), &lines[2]);

    view.move_up();
    assert_eq!(view.col(), 0);
    assert_eq!(view.current_line().unwrap(), &lines[1]);
}

#[test]
fn test_tab_movement() {
    let mut lines = vec![line("line\tfuffa"), line("line 3"), line("line 4")];
    let mut view = View::new((80, 23), lines.clone());

    for l in &mut lines {
        l.indent(4);
    }

    assert_eq!(view.col(), 0);
    assert_eq!(view.current_line().unwrap(), &lines[0]);

    view.move_right();
    view.move_right();
    view.move_right();
    view.move_right();

    assert_eq!(view.col(), 4);
    assert_eq!(view.cursor_col(), 11);
    assert_eq!(view.current_line().unwrap(), &lines[0]);

    view.move_left();
    assert_eq!(view.col(), 3);
    assert_eq!(view.cursor_col(), 3);
    assert_eq!(view.current_line().unwrap(), &lines[0]);

    view.move_right();
    view.move_down();
    assert_eq!(view.col(), 4);
    assert_eq!(view.cursor_col(), 4);
    assert_eq!(view.current_line().unwrap(), &lines[1]);

    view.move_up();
    assert_eq!(view.col(), 4);
    assert_eq!(view.cursor_col(), 11);
    assert_eq!(view.current_line().unwrap(), &lines[0]);
}

#[test]
fn goto_clamps_row_and_column() {
    let mut view = View::new((20, 4), goto_lines());
    view.goto(100, 100);
    assert_eq!(view.current_row(), 6);
    assert_eq!(view.col(), 0);
    view.goto(2, 100);
    assert_eq!(view.current_row(), 2);
    assert_eq!(view.col(), 5);
    view.goto(0, 3);
    assert_eq!(view.current_row(), 0);
    assert_eq!(view.col(), 3);
}

#[test]
fn sticky_column_returns_after_empty_line() {
    let lines = vec![line("a very long line"), line(""), line("line 3")];
    let mut view = View::new((80, 23), lines);
    view.goto(0, 5);
    assert_eq!(view.col(), 5);
    view.move_down();
    assert_eq!(view.current_row(), 1);
    assert_eq!(view.col(), 0);
    view.move_down();
    assert_eq!(view.current_row(), 2);
    assert_eq!(view.col(), 5);
}

#[test]
fn centering_twice_keeps_the_frame() {
    let mut view = View::new((9, 3), vec![line("hello world!")]);
    view.goto(0, 9);
    let first = view.frame_start_char_ix();
    view.center_horizontally();
    assert_eq!(view.frame_start_char_ix(), first);
    view.center_horizontally();
    assert_eq!(view.frame_start_char_ix(), first);
    assert_eq!(first, 5);
}

#[test]
fn empty_document_ignores_navigation() {
    let mut view: View<AsciiLine> = View::new((80, 23), vec![]);
    view.move_down();
    view.move_right();
    view.page_down();
    view.goto(3, 3);
    assert_eq!(view.current_line(), None);
    assert_eq!(view.col(), 0);
    assert_eq!(view.frame_start_row(), 0);
    assert_eq!(view.render_row(0), None);
}

#[test]
fn rows_render_from_the_frame() {
    let mut view = View::new((9, 2), vec![line("hello world!"), line("hi")]);
    assert_eq!(view.render_row(0), Some("hello".to_string()));
    assert_eq!(view.render_row(1), Some("hi".to_string()));
    assert_eq!(view.render_row(2), None);
    view.move_to_eol();
    assert_eq!(view.col(), 11);
    assert_eq!(view.frame_start_char_ix(), 7);
    assert_eq!(view.render_row(0), Some("orld!".to_string()));
    assert_eq!(view.num_column_width(), 4);
}

#[test]
fn move_down_scrolls_at_the_bottom_edge() {
    let mut view = View::new((80, 2), vec![line("a"), line("b"), line("c")]);
    view.move_down();
    assert_eq!(view.cursor_row(), 1);
    view.move_down();
    assert_eq!(view.cursor_row(), 1);
    assert_eq!(view.frame_start_row(), 1);
    view.move_down();
    assert_eq!(view.current_row(), 2);
}

#[test]
fn window_rows_hold_the_document_lines() {
    let mut view = View::new((10, 2), vec![line("one"), line("two"), line("three")]);
    assert_eq!(view.text_width(), 6);
    assert_eq!(view.line_at(0).unwrap().line(), "one");
    assert_eq!(view.line_at(1).unwrap().line(), "two");
    assert!(view.line_at(3).is_none());
    view.page_down();
    assert_eq!(view.line_at(0).unwrap().line(), "three");
    assert!(view.line_at(1).is_none());
}

#[test]
fn goto_command_keeps_the_side_left_out() {
    let mut view = View::new((20, 4), goto_lines());
    view.goto(0, 5);
    view.goto_command(Some(2), None);
    assert_eq!(view.current_row(), 2);
    assert_eq!(view.col(), 5);
    view.goto_command(None, Some(1));
    assert_eq!(view.current_row(), 2);
    assert_eq!(view.col(), 1);
    view.goto_command(None, None);
    assert_eq!(view.current_row(), 2);
    assert_eq!(view.col(), 1);
}
