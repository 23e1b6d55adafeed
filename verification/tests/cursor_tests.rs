use pepper_core::cursor::{Cursor, CursorCollection};
use pepper_core::position::BufferPosition;

#[test]
fn merge_cursor() {
    let mut cursors = CursorCollection::new();
    assert_eq!(1, cursors.len());
    let main_cursor = cursors.main_cursor();
    let mut guard = cursors.mut_guard();
    guard.add(main_cursor);
    cursors.apply_mut_guard(guard);
    assert_eq!(1, cursors.len());
    let cursor = cursors.get(0);
    assert_eq!(BufferPosition::zero(), cursor.position);
    assert_eq!(BufferPosition::zero(), cursor.anchor);

    let mut cursors = CursorCollection::new();
    let mut cursors_mut = cursors.mut_guard();
    let mut c = cursors_mut.get(0);
    c.anchor = BufferPosition::line_col(2, 3);
    c.position = c.anchor;
    cursors_mut.set(0, c);
    cursors.apply_mut_guard(cursors_mut);
    assert_eq!(1, cursors.len());
    let mut guard = cursors.mut_guard();
    guard.add(Cursor {
        anchor: BufferPosition::line_col(2, 2),
        position: BufferPosition::line_col(2, 4),
    });
    cursors.apply_mut_guard(guard);
    assert_eq!(1, cursors.len());
    let cursor = cursors.get(0);
    assert_eq!(BufferPosition::line_col(2, 2), cursor.anchor);
    assert_eq!(BufferPosition::line_col(2, 4), cursor.position);

    let mut cursors = CursorCollection::new();
    let mut cursors_mut = cursors.mut_guard();
    let mut c = cursors_mut.get(0);
    c.anchor = BufferPosition::line_col(2, 2);
    c.position = BufferPosition::line_col(2, 4);
    cursors_mut.set(0, c);
    cursors.apply_mut_guard(cursors_mut);
    let mut guard = cursors.mut_guard();
    guard.add(Cursor {
        anchor: BufferPosition::line_col(2, 2),
        position: BufferPosition::line_col(2, 2),
    });
    cursors.apply_mut_guard(guard);
    assert_eq!(1, cursors.len());
    let cursor = cursors.get(0);
    assert_eq!(BufferPosition::line_col(2, 2), cursor.anchor);
    assert_eq!(BufferPosition::line_col(2, 4), cursor.position);

    let mut cursors = CursorCollection::new();
    let mut cursors_mut = cursors.mut_guard();
    let mut c = cursors_mut.get(0);
    c.anchor = BufferPosition::line_col(2, 2);
    c.position = BufferPosition::line_col(2, 3);
    cursors_mut.set(0, c);
    cursors.apply_mut_guard(cursors_mut);
    let mut guard = cursors.mut_guard();
    guard.add(Cursor {
        anchor: BufferPosition::line_col(2, 4),
        position: BufferPosition::line_col(2, 3),
    });
    cursors.apply_mut_guard(guard);
    assert_eq!(1, cursors.len());
    let cursor = cursors.get(0);
    assert_eq!(BufferPosition::line_col(2, 2), cursor.anchor);
    assert_eq!(BufferPosition::line_col(2, 4), cursor.position);

    let mut cursors = CursorCollection::new();
    let mut cursors_mut = cursors.mut_guard();
    let mut c = cursors_mut.get(0);
    c.anchor = BufferPosition::line_col(2, 4);
    c.position = BufferPosition::line_col(2, 3);
    cursors_mut.set(0, c);
    cursors.apply_mut_guard(cursors_mut);
    let mut guard = cursors.mut_guard();
    guard.add(Cursor {
        anchor: BufferPosition::line_col(2, 3),
        position: BufferPosition::line_col(2, 2),
    });
    cursors.apply_mut_guard(guard);
    assert_eq!(1, cursors.len());
    let cursor = cursors.get(0);
    assert_eq!(BufferPosition::line_col(2, 4), cursor.anchor);
    assert_eq!(BufferPosition::line_col(2, 2), cursor.position);
}

#[test]
fn no_merge_cursor() {
    let mut cursors = CursorCollection::new();
    let mut cursors_mut = cursors.mut_guard();
    let mut c = cursors_mut.get(0);
    c.anchor = BufferPosition::line_col(1, 0);
    c.position = BufferPosition::line_col(1, 0);
    cursors_mut.set(0, c);
    cursors.apply_mut_guard(cursors_mut);
    let mut guard = cursors.mut_guard();
    guard.add(Cursor {
        anchor: BufferPosition::line_col(2, 0),
        position: BufferPosition::line_col(2, 0),
    });
    cursors.apply_mut_guard(guard);
    assert_eq!(2, cursors.len());
    let cursor = cursors.get(0);
    assert_eq!(BufferPosition::line_col(1, 0), cursor.anchor);
    assert_eq!(BufferPosition::line_col(1, 0), cursor.position);
    let cursor = cursors.get(1);
    assert_eq!(BufferPosition::line_col(2, 0), cursor.anchor);
    assert_eq!(BufferPosition::line_col(2, 0), cursor.position);

    let mut cursors = CursorCollection::new();
    let mut cursors_mut = cursors.mut_guard();
    let mut c = cursors_mut.get(0);
    c.anchor = BufferPosition::line_col(3, 2);
    c.position = BufferPosition::line_col(3, 2);
    cursors_mut.set(0, c);
    cursors.apply_mut_guard(cursors_mut);
    let mut guard = cursors.mut_guard();
    guard.add(Cursor {
        anchor: BufferPosition::line_col(2, 2),
        position: BufferPosition::line_col(2, 2),
    });
    cursors.apply_mut_guard(guard);
    assert_eq!(2, cursors.len());
    let cursor = cursors.get(0);
    assert_eq!(BufferPosition::line_col(2, 2), cursor.anchor);
    assert_eq!(BufferPosition::line_col(2, 2), cursor.position);
    let cursor = cursors.get(1);
    assert_eq!(BufferPosition::line_col(3, 2), cursor.anchor);
    assert_eq!(BufferPosition::line_col(3, 2), cursor.position);
}

#[test]
fn move_and_merge_cursors() {
    let mut cursors = CursorCollection::new();
    let mut cursors_mut = cursors.mut_guard();
    let mut c = cursors_mut.get(0);
    c.anchor = BufferPosition::line_col(0, 0);
    c.position = BufferPosition::line_col(0, 0);
    cursors_mut.set(0, c);
    cursors.apply_mut_guard(cursors_mut);
    let mut guard = cursors.mut_guard();
    guard.add(Cursor {
        anchor: BufferPosition::line_col(1, 0),
        position: BufferPosition::line_col(1, 0),
    });
    cursors.apply_mut_guard(guard);
    let mut guard = cursors.mut_guard();
    guard.add(Cursor {
        anchor: BufferPosition::line_col(2, 0),
        position: BufferPosition::line_col(2, 0),
    });
    cursors.apply_mut_guard(guard);
    assert_eq!(3, cursors.len());
    let mut cursors_mut = cursors.mut_guard();
    for i in 0..cursors_mut.len() {
        let mut c = cursors_mut.get(i);
        if c.position.line_index > 0 {
            c.position.line_index -= 1;
        }
        c.anchor = c.position;
        cursors_mut.set(i, c);
    }
    cursors.apply_mut_guard(cursors_mut);
    let cursor = cursors.main_cursor();
    assert_eq!(BufferPosition::line_col(1, 0), cursor.anchor);
    assert_eq!(BufferPosition::line_col(1, 0), cursor.position);
    assert_eq!(2, cursors.len());
    let cursor = cursors.get(0);
    assert_eq!(BufferPosition::line_col(0, 0), cursor.anchor);
    assert_eq!(BufferPosition::line_col(0, 0), cursor.position);
    let cursor = cursors.get(1);
    assert_eq!(BufferPosition::line_col(1, 0), cursor.anchor);
    assert_eq!(BufferPosition::line_col(1, 0), cursor.position);
}

#[test]
fn position_shift_round_trip() {
    // a position not inside the edited range returns to itself
    let range = pepper_core::position::BufferRange::between(
        BufferPosition::line_col(1, 2),
        BufferPosition::line_col(3, 4),
    );
    for (line, col) in [(0u32, 0u32), (0, 7), (1, 1), (1, 2), (3, 4), (3, 9), (5, 0)] {
        let p = BufferPosition::line_col(line, col);
        assert_eq!(p, p.insert(range).delete(range));
    }
}
