use multicaret::cursor::{Cursor, Key, KeyEvent, Pos};
use multicaret::cursors::{Cursors, SelectionMarkerType};
use ropey::Rope;

fn key(k: Key) -> KeyEvent {
    KeyEvent { key: k, shift: false, alt: false }
}

fn alt_key(k: Key) -> KeyEvent {
    KeyEvent { key: k, shift: false, alt: true }
}

#[test]
fn remove_overlaping_cursors() {
    let mut cursors = Cursors(vec![
        Cursor::new(Pos::new(0, 0), Pos::new(0, 1)),
        Cursor::from_start(Pos::new(1, 0)),
    ]);

    cursors.remove_overlaping();

    assert_eq!(
        cursors,
        Cursors(vec![Cursor::new(Pos::new(0, 0), Pos::new(0, 1))])
    );

    let mut cursors = Cursors(vec![
        Cursor::new(Pos::new(0, 1), Pos::new(0, 0)),
        Cursor::from_start(Pos::new(1, 0)),
    ]);

    cursors.remove_overlaping();

    assert_eq!(
        cursors,
        Cursors(vec![Cursor::new(Pos::new(0, 1), Pos::new(0, 0))])
    );

    let mut cursors = Cursors(vec![
        Cursor::new(Pos::new(0, 0), Pos::new(0, 1)),
        Cursor::new(Pos::new(1, 0), Pos::new(0, 2)),
    ]);

    cursors.remove_overlaping();

    assert_eq!(
        cursors,
        Cursors(vec![Cursor::new(Pos::new(0, 0), Pos::new(0, 2)),])
    );

    let mut cursors = Cursors(vec![
        Cursor::from_start(Pos::new(0, 0)),
        Cursor::from_start(Pos::new(0, 0)),
    ]);

    cursors.remove_overlaping();

    assert_eq!(cursors, Cursors(vec![Cursor::from_start(Pos::new(0, 0))]));

    let mut cursors = Cursors(vec![
        Cursor::new(Pos::new(0, 0), Pos::new(0, 1)),
        Cursor::new(Pos::new(1, 1), Pos::new(0, 2)),
    ]);

    cursors.remove_overlaping();

    assert_eq!(
        cursors,
        Cursors(vec![
            Cursor::new(Pos::new(0, 0), Pos::new(0, 1)),
            Cursor::new(Pos::new(1, 1), Pos::new(0, 2)),
        ])
    );
}

#[test]
fn multicursor_input() {
    let mut cursors = Cursors(vec![
        Cursor::from_start(Pos::new(1, 0)),
        Cursor::from_start(Pos::new(3, 0)),
    ]);
    // h|el|lo world
    let mut rope = Rope::from_str("hello world");

    cursors.process_input(&key(Key::Char('o')), &mut rope);

    assert_eq!(rope.to_string(), "hoelolo world");
    assert_eq!(
        cursors,
        Cursors(vec![
            Cursor::from_start(Pos::new(2, 0)),
            Cursor::from_start(Pos::new(5, 0))
        ])
    );

    let mut cursors = Cursors(vec![
        Cursor::from_start(Pos::new(1, 0)),
        Cursor::from_start(Pos::new(3, 0)),
    ]);
    // h|el|lo world
    let mut rope = Rope::from_str("hello world");

    cursors.process_input(&key(Key::Backspace), &mut rope);

    assert_eq!(rope.to_string(), "elo world");
    assert_eq!(
        cursors,
        Cursors(vec![
            Cursor::from_start(Pos::new(0, 0)),
            Cursor::from_start(Pos::new(1, 0))
        ])
    );

    let mut cursors = Cursors(vec![
        Cursor::from_start(Pos::new(1, 0)),
        Cursor::from_start(Pos::new(3, 0)),
    ]);
    // h|el|lo world
    let mut rope = Rope::from_str("hello world");

    cursors.process_input(&key(Key::Enter), &mut rope);

    assert_eq!(rope.to_string(), "h\nel\nlo world");
    assert_eq!(
        cursors,
        Cursors(vec![
            Cursor::from_start(Pos::new(0, 1)),
            Cursor::from_start(Pos::new(0, 2))
        ])
    );

    let mut cursors = Cursors(vec![
        Cursor::from_start(Pos::new(5, 0)),
        Cursor::from_start(Pos::new(5, 1)),
    ]);
    // hello|
    // world|
    let mut rope = Rope::from_str("hello\nworld");

    cursors.process_input(&key(Key::Char('o')), &mut rope);

    assert_eq!(rope.to_string(), "helloo\nworldo");
    assert_eq!(
        cursors,
        Cursors(vec![
            Cursor::from_start(Pos::new(6, 0)),
            Cursor::from_start(Pos::new(6, 1))
        ])
    );

    let mut cursors = Cursors(vec![
        Cursor::from_start(Pos::new(5, 0)),
        Cursor::from_start(Pos::new(5, 1)),
    ]);
    // hello|
    // world|
    let mut rope = Rope::from_str("hello\nworld");

    cursors.process_input(&key(Key::Backspace), &mut rope);

    assert_eq!(rope.to_string(), "hell\nworl");
    assert_eq!(
        cursors,
        Cursors(vec![
            Cursor::from_start(Pos::new(4, 0)),
            Cursor::from_start(Pos::new(4, 1))
        ])
    );

    let mut cursors = Cursors(vec![
        Cursor::from_start(Pos::new(0, 0)),
        Cursor::from_start(Pos::new(0, 1)),
    ]);
    // |hello
    // |world
    let mut rope = Rope::from_str("hello\nworld");

    cursors.process_input(&key(Key::Backspace), &mut rope);

    assert_eq!(rope.to_string(), "helloworld");
    assert_eq!(
        cursors,
        Cursors(vec![
            Cursor::from_start(Pos::new(0, 0)),
            Cursor::from_start(Pos::new(5, 0))
        ])
    );
}

#[test]
fn caret_at_selection_boundary_merges() {
    // a selection of [0, 1) and a bare caret at offset 1: one cursor is left
    let mut cursors = Cursors(vec![
        Cursor::new(Pos::new(0, 0), Pos::new(1, 0)),
        Cursor::from_start(Pos::new(1, 0)),
    ]);

    cursors.remove_overlaping();

    assert_eq!(
        cursors,
        Cursors(vec![Cursor::new(Pos::new(0, 0), Pos::new(1, 0))])
    );
}

#[test]
fn cursors_on_distinct_rows_survive() {
    // a selection on row 0 and a degenerate selection on row 1 stay apart
    let mut cursors = Cursors(vec![
        Cursor::new(Pos::new(0, 0), Pos::new(1, 0)),
        Cursor::new(Pos::new(1, 1), Pos::new(1, 1)),
    ]);

    cursors.remove_overlaping();

    assert_eq!(cursors.0.len(), 2);
    assert_eq!(cursors.0[0], Cursor::new(Pos::new(0, 0), Pos::new(1, 0)));
    assert_eq!(cursors.0[1], Cursor::from_start(Pos::new(1, 1)));
}

#[test]
fn merge_is_idempotent() {
    let mut cursors = Cursors(vec![
        Cursor::new(Pos::new(3, 0), Pos::new(1, 0)),
        Cursor::from_start(Pos::new(2, 0)),
        Cursor::new(Pos::new(0, 1), Pos::new(4, 1)),
        Cursor::from_start(Pos::new(2, 2)),
    ]);

    cursors.remove_overlaping();
    let once = cursors.clone();
    cursors.remove_overlaping();

    assert_eq!(cursors, once);
}

#[test]
fn sorted_markers_walk_endpoints_in_order() {
    let cursors = Cursors(vec![
        Cursor::new(Pos::new(2, 0), Pos::new(4, 0)),
        Cursor::from_start(Pos::new(1, 0)),
    ]);
    let markers = cursors.sorted();
    assert_eq!(markers.len(), 4);
    // the caret's two markers first (its end before its start at the shared
    // position), then the selection's start and end
    assert_eq!(markers[0].pos, Pos::new(1, 0));
    assert_eq!(markers[0].marker_type, SelectionMarkerType::End);
    assert_eq!(markers[1].pos, Pos::new(1, 0));
    assert_eq!(markers[1].marker_type, SelectionMarkerType::Start);
    assert_eq!(markers[2].pos, Pos::new(2, 0));
    assert_eq!(markers[2].marker_type, SelectionMarkerType::Start);
    assert_eq!(markers[3].pos, Pos::new(4, 0));
    assert_eq!(markers[3].marker_type, SelectionMarkerType::End);
    assert_eq!(markers[2].id, markers[3].id);
    assert!(markers[2].is_matching(&markers[3]));
    assert!(!markers[0].is_matching(&markers[2]));
}

#[test]
fn alt_arrow_spawns_shifted_cursors() {
    let mut cursors = Cursors(vec![Cursor::from_start(Pos::new(1, 0))]);
    let mut rope = Rope::from_str("hello\nworld");

    cursors.process_input(&alt_key(Key::Down), &mut rope);

    assert_eq!(rope.to_string(), "hello\nworld");
    assert_eq!(
        cursors,
        Cursors(vec![
            Cursor::from_start(Pos::new(1, 0)),
            Cursor::from_start(Pos::new(1, 1))
        ])
    );
}

#[test]
fn alt_with_non_arrow_does_nothing() {
    // not even the merge pass runs: the duplicate carets survive untouched
    let mut cursors = Cursors(vec![
        Cursor::from_start(Pos::new(0, 0)),
        Cursor::from_start(Pos::new(0, 0)),
    ]);
    let mut rope = Rope::from_str("hello");

    cursors.process_input(&alt_key(Key::Backspace), &mut rope);

    assert_eq!(rope.to_string(), "hello");
    assert_eq!(
        cursors,
        Cursors(vec![
            Cursor::from_start(Pos::new(0, 0)),
            Cursor::from_start(Pos::new(0, 0))
        ])
    );
}

#[test]
fn default_set_is_one_caret_at_origin() {
    let cursors = Cursors::default();
    assert_eq!(cursors, Cursors(vec![Cursor::from_start(Pos::new(0, 0))]));
    assert_eq!(Cursor::default(), Cursor::from_start(Pos::new(0, 0)));
}
