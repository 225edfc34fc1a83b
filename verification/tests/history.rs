use code_editor::buffer::Edit;
use code_editor::history::{History, HistoryEntry};
use code_editor::position::{Position, Range};
use code_editor::selection::Selection;
use code_editor::text::Text;

fn pos(line: usize, offset: usize) -> Position {
    Position::new(line, offset)
}

fn edit(a: (usize, usize), b: (usize, usize), text: &str) -> Edit {
    Edit::new(Range::new(pos(a.0, a.1), pos(b.0, b.1)), Text::from_str(text))
}

fn cursor(line: usize, offset: usize) -> Vec<Selection> {
    vec![Selection::cursor(pos(line, offset))]
}

fn parts(e: &HistoryEntry) -> (Edit, Edit, Vec<Selection>, Vec<Selection>, Option<u64>) {
    (e.forward.clone(), e.inverse.clone(), e.before.clone(), e.after.clone(), e.group)
}

#[test]
fn record_pushes_and_clears_redo() {
    let mut h = History::new();
    assert_eq!((h.undo_len(), h.redo_len()), (0, 0));
    h.record(edit((0, 0), (0, 0), "a"), edit((0, 0), (0, 1), ""), cursor(0, 0), cursor(0, 1), None);
    h.record(edit((0, 1), (0, 1), "b"), edit((0, 1), (0, 2), ""), cursor(0, 1), cursor(0, 2), None);
    assert_eq!((h.undo_len(), h.redo_len()), (2, 0));
    let top = h.undo().unwrap();
    assert_eq!(
        parts(&top),
        (edit((0, 1), (0, 1), "b"), edit((0, 1), (0, 2), ""), cursor(0, 1), cursor(0, 2), None)
    );
    assert_eq!((h.undo_len(), h.redo_len()), (1, 1));
    h.record(edit((0, 1), (0, 1), "c"), edit((0, 1), (0, 2), ""), cursor(0, 1), cursor(0, 2), None);
    assert_eq!((h.undo_len(), h.redo_len()), (2, 0));
    assert!(h.redo().is_none());
}

#[test]
fn undo_and_redo_on_empty_stacks_do_nothing() {
    let mut h = History::new();
    assert!(h.undo().is_none());
    assert!(h.redo().is_none());
    assert!(h.peek_undo().is_none());
    assert!(h.peek_redo().is_none());
    assert_eq!((h.undo_len(), h.redo_len()), (0, 0));
}

#[test]
fn undo_then_redo_moves_the_entry_back() {
    let mut h = History::new();
    h.record(edit((0, 0), (0, 2), "x"), edit((0, 0), (0, 1), "ab"), cursor(0, 2), cursor(0, 1), Some(1));
    let undone = h.undo().unwrap();
    assert_eq!(parts(h.peek_redo().unwrap()), parts(&undone));
    let redone = h.redo().unwrap();
    assert_eq!(parts(&redone), parts(&undone));
    assert_eq!(parts(h.peek_undo().unwrap()), parts(&undone));
    assert_eq!((h.undo_len(), h.redo_len()), (1, 0));
}

#[test]
fn insertions_of_one_gesture_join() {
    let mut h = History::new();
    h.record(edit((0, 0), (0, 0), "a"), edit((0, 0), (0, 1), ""), cursor(0, 0), cursor(0, 1), Some(7));
    h.record(edit((0, 1), (0, 1), "b\n"), edit((0, 1), (1, 0), ""), cursor(0, 1), cursor(1, 0), Some(7));
    h.record(edit((1, 0), (1, 0), "c"), edit((1, 0), (1, 1), ""), cursor(1, 0), cursor(1, 1), Some(7));
    assert_eq!(h.undo_len(), 1);
    assert_eq!(
        parts(h.peek_undo().unwrap()),
        (edit((0, 0), (0, 0), "ab\nc"), edit((0, 0), (1, 1), ""), cursor(0, 0), cursor(1, 1), Some(7))
    );
}

#[test]
fn edits_that_do_not_join() {
    let mut h = History::new();
    h.record(edit((0, 0), (0, 0), "a"), edit((0, 0), (0, 1), ""), cursor(0, 0), cursor(0, 1), Some(7));
    h.record(edit((0, 1), (0, 1), "b"), edit((0, 1), (0, 2), ""), cursor(0, 1), cursor(0, 2), Some(8));
    assert_eq!(h.undo_len(), 2);
    h.record(edit((0, 2), (0, 2), "c"), edit((0, 2), (0, 3), ""), cursor(0, 2), cursor(0, 3), None);
    assert_eq!(h.undo_len(), 3);
    h.record(edit((0, 3), (0, 3), "d"), edit((0, 3), (0, 4), ""), cursor(0, 3), cursor(0, 4), None);
    assert_eq!(h.undo_len(), 4);
    h.record(edit((0, 9), (0, 9), "e"), edit((0, 9), (0, 10), ""), cursor(0, 9), cursor(0, 10), Some(8));
    assert_eq!(h.undo_len(), 5);
    h.record(edit((0, 9), (0, 10), "f"), edit((0, 9), (0, 10), "e"), cursor(0, 10), cursor(0, 10), Some(8));
    assert_eq!(h.undo_len(), 6);
    h.record(edit((0, 10), (0, 10), "g"), edit((0, 10), (0, 11), ""), cursor(0, 10), cursor(0, 11), Some(8));
    assert_eq!(h.undo_len(), 6);
    assert_eq!(
        parts(h.peek_undo().unwrap()),
        (edit((0, 9), (0, 10), "fg"), edit((0, 9), (0, 11), "e"), cursor(0, 10), cursor(0, 11), Some(8))
    );
}

#[test]
fn history_follows_an_edit_of_another_session() {
    let mut h = History::new();
    h.record(edit((1, 2), (1, 4), "x"), edit((1, 2), (1, 3), "ab"), cursor(1, 4), cursor(1, 3), None);
    h.record(edit((0, 0), (0, 0), "y"), edit((0, 0), (0, 1), ""), cursor(0, 0), cursor(0, 1), None);
    h.undo();
    h.remap_across_edit(Range::new(pos(0, 5), pos(0, 5)), pos(2, 1));
    assert_eq!(
        parts(h.peek_undo().unwrap()),
        (edit((3, 2), (3, 4), "x"), edit((3, 2), (3, 3), "ab"), cursor(3, 4), cursor(3, 3), None)
    );
    assert_eq!(
        parts(h.peek_redo().unwrap()),
        (edit((0, 0), (0, 0), "y"), edit((0, 0), (0, 1), ""), cursor(0, 0), cursor(0, 1), None)
    );
}

#[test]
fn history_that_cannot_follow_is_forgotten() {
    let mut h = History::new();
    h.record(
        edit((0, 0), (0, usize::MAX), "x"),
        edit((0, 0), (0, 1), ""),
        cursor(0, 0),
        cursor(0, 1),
        None,
    );
    h.remap_across_edit(Range::new(pos(0, 0), pos(0, 0)), pos(0, 1));
    assert_eq!((h.undo_len(), h.redo_len()), (0, 0));
}
