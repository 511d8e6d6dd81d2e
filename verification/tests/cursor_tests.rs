use multicaret::cursor::{Cursor, Key, KeyEvent, Motion, Pos};
use ropey::Rope;

fn key(k: Key) -> KeyEvent {
    KeyEvent { key: k, shift: false, alt: false }
}

fn shift_key(k: Key) -> KeyEvent {
    KeyEvent { key: k, shift: true, alt: false }
}

#[test]
fn pos_direction_movement() {
    let mut pos = Pos::new(100, 0);
    let text = "hello world\nhi";
    let rope = Rope::from_str(text);

    assert_eq!(pos.col(&rope), text.lines().nth(0).unwrap().len());
    pos.down(&rope);
    assert_eq!(pos.col(&rope), text.lines().nth(1).unwrap().len());
    pos.up(&rope);
    assert_eq!(pos.col(&rope), text.lines().nth(0).unwrap().len());
    pos.left(&rope);
    assert_eq!(pos.col(&rope), text.lines().nth(0).unwrap().len() - 1);
    pos.right(&rope);
    assert_eq!(pos.col(&rope), text.lines().nth(0).unwrap().len());
}

#[test]
fn pos_col_movement() {
    let mut pos = Pos::new(100, 0);
    let text = "hello world\nhi";
    let rope = Rope::from_str(text);

    // move inside a row
    pos.move_col(-5, &rope);
    assert_eq!(pos.col(&rope), text.lines().nth(0).unwrap().len() - 5);
    pos.move_col(5, &rope);
    assert_eq!(pos.col(&rope), text.lines().nth(0).unwrap().len());

    // move between rows
    pos.move_col(3, &rope);
    assert_eq!(pos.col(&rope), 2);
    pos.move_col(-3, &rope);
    assert_eq!(pos.col(&rope), text.lines().nth(0).unwrap().len());

    // don't panic if moving out of range
    pos.move_col(-100, &rope);
    pos.move_col(1000, &rope);
}

#[test]
fn cursor_row_movement() {
    let mut pos = Pos::new(100, 0);
    let text = "hello world\nhi";
    let rope = Rope::from_str(text);

    pos.move_row(1, &rope);
    assert_eq!(pos.row(), 1);
    pos.move_row(-1, &rope);
    assert_eq!(pos.row(), 0);

    // don't panic if moving out of range
    pos.move_row(-100, &rope);
    pos.move_row(1000, &rope);
}

#[test]
fn cursor_input() {
    let mut cursor = Cursor::from_start(Pos::new(0, 0));
    let text = "hello world\nhi";
    let mut rope = Rope::from_str(text);

    for _ in 0..5 {
        cursor.handle_input(&key(Key::Right), &mut rope);
    }
    for _ in 0..5 {
        cursor.handle_input(&key(Key::Backspace), &mut rope);
    }

    assert_eq!(rope.to_string(), " world\nhi");

    for c in ['h', 'e', 'l', 'l', 'o'] {
        cursor.handle_input(&key(Key::Char(c)), &mut rope);
    }

    assert_eq!(rope.to_string(), "hello world\nhi");
}

#[test]
fn realized_column_clamps() {
    let rope = Rope::from_str("hi\nlonger line");
    // a column far past the line end realizes to the line length
    let p = Pos::new(usize::MAX, 0);
    assert_eq!(p.col(&rope), 2);
    assert_eq!(p.idx(&rope), 2);
    // a column inside the line stays put
    let q = Pos::new(1, 1);
    assert_eq!(q.col(&rope), 1);
    assert_eq!(q.idx(&rope), 4);
}

#[test]
fn movement_stays_in_bounds() {
    let rope = Rope::from_str("ab\ncd\nef");
    let mut p = Pos::new(0, 0);
    for step in [5i128, -3, 100, -100, 7, -1] {
        p.move_col(step, &rope);
        assert!(p.row() < rope.len_lines());
        assert!(p.idx(&rope) <= rope.len_chars());
        p.move_row(step, &rope);
        assert!(p.row() < rope.len_lines());
        assert!(p.idx(&rope) <= rope.len_chars());
    }
}

#[test]
fn column_wraps_across_lines() {
    let rope = Rope::from_str("ab\ncd");
    let mut p = Pos::new(0, 1);
    // left from the start of a line lands at the end of the one above
    p.left(&rope);
    assert_eq!(p.row(), 0);
    assert_eq!(p.col(&rope), 2);
    // right from the end of a line lands at the start of the one below
    p.right(&rope);
    assert_eq!(p.row(), 1);
    assert_eq!(p.col(&rope), 0);
}

#[test]
fn backspace_at_buffer_start_is_ignored() {
    let mut cursor = Cursor::from_start(Pos::new(0, 0));
    let mut rope = Rope::from_str("abc");
    let d = cursor.handle_input(&key(Key::Backspace), &mut rope);
    assert_eq!(rope.to_string(), "abc");
    assert_eq!(d, (0, 0));
}

#[test]
fn backspace_joins_lines() {
    let mut cursor = Cursor::from_start(Pos::new(0, 1));
    let mut rope = Rope::from_str("ab\ncd");
    let d = cursor.handle_input(&key(Key::Backspace), &mut rope);
    assert_eq!(rope.to_string(), "abcd");
    assert_eq!(d, (0, -1));
    assert_eq!(cursor.start, Pos::new(2, 0));
}

#[test]
fn enter_splits_line() {
    let mut cursor = Cursor::from_start(Pos::new(2, 0));
    let mut rope = Rope::from_str("abcd");
    let d = cursor.handle_input(&key(Key::Enter), &mut rope);
    assert_eq!(rope.to_string(), "ab\ncd");
    assert_eq!(cursor.start, Pos::new(0, 1));
    assert_eq!(d, (-2, 1));
}

#[test]
fn enter_removes_selection_first() {
    // selection covers "bc"; Enter deletes it, then breaks the line
    let mut cursor = Cursor::new(Pos::new(1, 0), Pos::new(3, 0));
    let mut rope = Rope::from_str("abcd");
    cursor.handle_input(&key(Key::Enter), &mut rope);
    assert_eq!(rope.to_string(), "a\nd");
    assert_eq!(cursor.start, Pos::new(0, 1));
    assert_eq!(cursor.end, None);
}

#[test]
fn tab_inserts_tab_character() {
    let mut cursor = Cursor::from_start(Pos::new(1, 0));
    let mut rope = Rope::from_str("ab");
    let d = cursor.handle_input(&key(Key::Tab), &mut rope);
    assert_eq!(rope.to_string(), "a\tb");
    assert_eq!(cursor.start, Pos::new(2, 0));
    assert_eq!(d, (1, 0));
}

#[test]
fn backspace_removes_selection() {
    let mut cursor = Cursor::new(Pos::new(1, 0), Pos::new(4, 0));
    let mut rope = Rope::from_str("abcde");
    let d = cursor.handle_input(&key(Key::Backspace), &mut rope);
    assert_eq!(rope.to_string(), "ae");
    assert_eq!(cursor.start, Pos::new(1, 0));
    assert_eq!(cursor.end, None);
    assert_eq!(d, (-3, 0));
}

#[test]
fn selection_spanning_lines_collapses_rows() {
    // from (row 0, col 1) to (row 1, col 2) of "abc\ndef"
    let mut cursor = Cursor::new(Pos::new(1, 0), Pos::new(2, 1));
    let mut rope = Rope::from_str("abc\ndef");
    let d = cursor.handle_input(&key(Key::Backspace), &mut rope);
    assert_eq!(rope.to_string(), "af");
    assert_eq!(d, (-2, -1));
}

#[test]
fn plain_arrow_drops_selection() {
    let mut cursor = Cursor::new(Pos::new(1, 0), Pos::new(3, 0));
    let mut rope = Rope::from_str("abcd");
    cursor.handle_input(&key(Key::Right), &mut rope);
    assert_eq!(cursor.end, None);
    assert_eq!(rope.to_string(), "abcd");
}

#[test]
fn shifted_arrow_grows_selection() {
    let mut cursor = Cursor::from_start(Pos::new(1, 0));
    let mut rope = Rope::from_str("abcd");
    cursor.handle_input(&shift_key(Key::Right), &mut rope);
    assert_eq!(cursor.start, Pos::new(1, 0));
    assert_eq!(cursor.end, Some(Pos::new(2, 0)));
    cursor.handle_input(&shift_key(Key::Right), &mut rope);
    assert_eq!(cursor.end, Some(Pos::new(3, 0)));
}

#[test]
fn home_and_end_set_column() {
    let rope = Rope::from_str("hello\nhi");
    let mut cursor = Cursor::from_start(Pos::new(3, 0));
    let mut rw = rope.clone();
    cursor.handle_input(&key(Key::End), &mut rw);
    assert_eq!(cursor.start, Pos::new(5, 0));
    cursor.handle_input(&key(Key::Home), &mut rw);
    assert_eq!(cursor.start, Pos::new(0, 0));
}

#[test]
fn shifted_end_selects_to_line_end() {
    let mut rope = Rope::from_str("hello");
    let mut cursor = Cursor::from_start(Pos::new(1, 0));
    cursor.handle_input(&shift_key(Key::End), &mut rope);
    assert_eq!(cursor.start, Pos::new(1, 0));
    assert_eq!(cursor.end, Some(Pos::new(5, 0)));
    cursor.handle_input(&key(Key::Backspace), &mut rope);
    assert_eq!(rope.to_string(), "h");
    assert_eq!(cursor.start, Pos::new(1, 0));
    assert_eq!(cursor.end, None);
}

#[test]
fn with_end_starts_from_caret() {
    let rope = Rope::from_str("abcd");
    let mut cursor = Cursor::from_start(Pos::new(1, 0));
    cursor.with_end(Motion::Right, &rope);
    assert_eq!(cursor.start, Pos::new(1, 0));
    assert_eq!(cursor.end, Some(Pos::new(2, 0)));
}

#[test]
fn round_trip_restores_buffer_and_caret() {
    let text = "hello\nworld";
    let mut rope = Rope::from_str(text);
    let mut cursor = Cursor::from_start(Pos::new(3, 1));
    for c in ['x', 'y', 'z'] {
        cursor.handle_input(&key(Key::Char(c)), &mut rope);
    }
    assert_eq!(rope.to_string(), "hello\nworxyzld");
    for _ in 0..3 {
        cursor.handle_input(&key(Key::Backspace), &mut rope);
    }
    assert_eq!(rope.to_string(), text);
    assert_eq!(cursor.start, Pos::new(3, 1));
}

#[test]
fn round_trip_through_a_line_break() {
    let text = "ab";
    let mut rope = Rope::from_str(text);
    let mut cursor = Cursor::from_start(Pos::new(1, 0));
    cursor.handle_input(&key(Key::Enter), &mut rope);
    assert_eq!(rope.to_string(), "a\nb");
    cursor.handle_input(&key(Key::Backspace), &mut rope);
    assert_eq!(rope.to_string(), text);
    assert_eq!(cursor.start, Pos::new(1, 0));
}

#[test]
fn empty_buffer_edits_are_safe() {
    let mut rope = Rope::from_str("");
    let mut cursor = Cursor::from_start(Pos::new(0, 0));
    cursor.handle_input(&key(Key::Backspace), &mut rope);
    cursor.handle_input(&key(Key::Left), &mut rope);
    cursor.handle_input(&key(Key::Up), &mut rope);
    assert_eq!(rope.to_string(), "");
    cursor.handle_input(&key(Key::Char('a')), &mut rope);
    assert_eq!(rope.to_string(), "a");
    assert_eq!(cursor.start, Pos::new(1, 0));
}

#[test]
fn other_keys_do_nothing() {
    let mut rope = Rope::from_str("ab");
    let mut cursor = Cursor::from_start(Pos::new(1, 0));
    let d = cursor.handle_input(&key(Key::Other), &mut rope);
    assert_eq!(rope.to_string(), "ab");
    assert_eq!(cursor, Cursor::from_start(Pos::new(1, 0)));
    assert_eq!(d, (0, 0));
}
