use code_editor::buffer::EditError;
use code_editor::editor::Editor;
use code_editor::inlay::{InlayContent, InlayKind};
use code_editor::layout::spans_of_row;
use code_editor::moves::Motion;
use code_editor::position::{Position, Range};
use code_editor::selection::Selection;
use code_editor::text::Text;
use code_editor::token::{Token, TokenKind};
use code_editor::tokenizer::{Language, Tokenizer};
use code_editor::wrap::{wrap_line, RowKind, WrapRow};

fn pos(line: usize, offset: usize) -> Position {
    Position::new(line, offset)
}

fn range(a: (usize, usize), b: (usize, usize)) -> Range {
    Range::new(pos(a.0, a.1), pos(b.0, b.1))
}

fn sel(a: (usize, usize), h: (usize, usize)) -> Selection {
    Selection::new(pos(a.0, a.1), pos(h.0, h.1))
}

fn content(editor: &Editor, d: usize) -> String {
    let buffer = editor.document(d).unwrap().buffer();
    let text = buffer.read(Range::new(pos(0, 0), buffer.end())).unwrap();
    text.to_chars().into_iter().collect()
}

fn open(text: &str, width: usize) -> (Editor, usize, usize) {
    let mut editor = Editor::new();
    let d = editor.open_document(Text::from_str(text), Language::Code);
    let s = editor.open_session(d, width).unwrap();
    (editor, d, s)
}

fn submit(editor: &mut Editor, s: usize, r: Range, text: &str, group: Option<u64>) -> Result<(), EditError> {
    editor.submit_edit(s, r, Text::from_str(text), group)
}

fn assert_in_order(editor: &Editor) {
    for s in 0..editor.session_count() {
        let session = editor.session(s).unwrap();
        let doc = editor.document(session.document()).unwrap();
        let sels = session.selection_list();
        for x in &sels {
            assert!(doc.buffer().contains_position(x.anchor));
            assert!(doc.buffer().contains_position(x.head));
        }
        for pair in sels.windows(2) {
            assert!(pair[0].last().is_before(&pair[1].first()));
        }
        let fresh = Tokenizer::new(doc.lang(), doc.buffer());
        for line in 0..doc.line_count() {
            assert_eq!(doc.line_tokens(line), fresh.tokens(line));
            let rows = wrap_line(
                doc.line(line).len(),
                doc.line_tokens(line),
                &doc.line_insets(line),
                session.wrap_width(),
            );
            assert_eq!(session.line_rows(line), &rows);
        }
    }
}

#[test]
fn delete_newline_through_the_editor() {
    let (mut editor, d, s) = open("foo\nbar", 80);
    assert_eq!(submit(&mut editor, s, range((0, 3), (1, 0)), "", None), Ok(()));
    assert_eq!(content(&editor, d), "foobar");
    assert_eq!(editor.document(d).unwrap().line_count(), 1);
    assert_eq!(editor.undo(s), Ok(true));
    assert_eq!(content(&editor, d), "foo\nbar");
    assert_in_order(&editor);
}

#[test]
fn inserting_at_the_cursor_moves_it() {
    let (mut editor, _, s) = open("", 80);
    assert_eq!(editor.selections(s), Some(vec![sel((0, 0), (0, 0))]));
    assert_eq!(submit(&mut editor, s, range((0, 0), (0, 0)), "abc", None), Ok(()));
    assert_eq!(editor.selections(s), Some(vec![sel((0, 3), (0, 3))]));
}

#[test]
fn undo_restores_text_and_selections_and_redo_brings_them_back() {
    let (mut editor, d, s) = open("alpha\nbeta\ngamma", 80);
    editor.clear_to(s, sel((0, 1), (0, 3))).unwrap();
    editor.add_selection(s, sel((1, 2), (1, 2))).unwrap();
    editor.add_selection(s, sel((2, 4), (2, 0))).unwrap();
    let before = editor.selections(s).unwrap();
    assert_eq!(submit(&mut editor, s, range((0, 2), (2, 1)), "X\nY", None), Ok(()));
    let text_after = content(&editor, d);
    let after = editor.selections(s).unwrap();
    assert_eq!(text_after, "alX\nYamma");
    assert_eq!(after, vec![sel((1, 4), (0, 1))]);
    assert_eq!(editor.undo(s), Ok(true));
    assert_eq!(content(&editor, d), "alpha\nbeta\ngamma");
    assert_eq!(editor.selections(s).unwrap(), before);
    assert_eq!(editor.redo(s), Ok(true));
    assert_eq!(content(&editor, d), text_after);
    assert_eq!(editor.selections(s).unwrap(), after);
    assert_eq!(editor.undo(s), Ok(true));
    assert_eq!(content(&editor, d), "alpha\nbeta\ngamma");
    assert_eq!(editor.selections(s).unwrap(), before);
    assert_in_order(&editor);
}

#[test]
fn undo_and_redo_with_nothing_to_do() {
    let (mut editor, d, s) = open("abc", 80);
    assert_eq!(editor.undo(s), Ok(false));
    assert_eq!(editor.redo(s), Ok(false));
    assert_eq!(content(&editor, d), "abc");
    submit(&mut editor, s, range((0, 0), (0, 1)), "", None).unwrap();
    assert_eq!(editor.redo(s), Ok(false));
    assert_eq!(editor.undo(s), Ok(true));
    assert_eq!(editor.undo(s), Ok(false));
    assert_eq!(content(&editor, d), "abc");
    assert_eq!(editor.undo(9), Err(EditError::OutOfBounds));
    assert_eq!(editor.redo(9), Err(EditError::OutOfBounds));
}

#[test]
fn a_new_edit_clears_what_could_be_redone() {
    let (mut editor, d, s) = open("abc", 80);
    submit(&mut editor, s, range((0, 3), (0, 3)), "d", None).unwrap();
    assert_eq!(editor.undo(s), Ok(true));
    submit(&mut editor, s, range((0, 0), (0, 0)), "x", None).unwrap();
    assert_eq!(editor.redo(s), Ok(false));
    assert_eq!(content(&editor, d), "xabc");
}

#[test]
fn typing_in_one_gesture_is_undone_at_once() {
    let (mut editor, d, s) = open("", 80);
    for (i, c) in ["h", "e", "y", "\n", "x"].iter().enumerate() {
        let at = editor.selections(s).unwrap()[0].head;
        submit(&mut editor, s, Range::at(at), c, Some(1)).unwrap();
        assert_eq!(editor.session(s).unwrap().undo_len(), 1, "after {}", i);
    }
    assert_eq!(content(&editor, d), "hey\nx");
    assert_eq!(editor.selections(s), Some(vec![sel((1, 1), (1, 1))]));
    assert_eq!(editor.undo(s), Ok(true));
    assert_eq!(content(&editor, d), "");
    assert_eq!(editor.selections(s), Some(vec![sel((0, 0), (0, 0))]));
    assert_eq!(editor.redo(s), Ok(true));
    assert_eq!(content(&editor, d), "hey\nx");
    assert_eq!(editor.selections(s), Some(vec![sel((1, 1), (1, 1))]));
}

#[test]
fn edits_outside_the_text_are_refused() {
    let (mut editor, d, s) = open("abc\ndef", 80);
    editor.clear_to(s, sel((1, 1), (1, 2))).unwrap();
    assert_eq!(submit(&mut editor, s, range((0, 4), (1, 0)), "x", None), Err(EditError::OutOfBounds));
    assert_eq!(submit(&mut editor, s, range((1, 0), (0, 0)), "x", None), Err(EditError::OutOfBounds));
    assert_eq!(submit(&mut editor, s, range((2, 0), (2, 0)), "x", None), Err(EditError::OutOfBounds));
    assert_eq!(submit(&mut editor, 5, range((0, 0), (0, 0)), "x", None), Err(EditError::OutOfBounds));
    assert_eq!(content(&editor, d), "abc\ndef");
    assert_eq!(editor.selections(s), Some(vec![sel((1, 1), (1, 2))]));
    assert_eq!(editor.undo(s), Ok(false));
    assert_eq!(editor.add_selection(s, sel((0, 0), (0, 4))), Err(EditError::OutOfBounds));
    assert_eq!(editor.clear_to(s, sel((2, 0), (0, 0))), Err(EditError::OutOfBounds));
    assert_eq!(editor.add_selection(7, sel((0, 0), (0, 0))), Err(EditError::OutOfBounds));
    assert_eq!(editor.clear_to(7, sel((0, 0), (0, 0))), Err(EditError::OutOfBounds));
    assert_eq!(editor.move_all(7, Motion::Left, false), Err(EditError::OutOfBounds));
    assert_eq!(editor.set_wrap_width(7, 3), Err(EditError::OutOfBounds));
    assert_eq!(editor.selections(7), None);
    assert_eq!(editor.selections(s), Some(vec![sel((1, 1), (1, 2))]));
}

#[test]
fn every_session_of_a_document_follows_an_edit() {
    let mut editor = Editor::new();
    let d = editor.open_document(Text::from_str("one two\nthree"), Language::Code);
    let other = editor.open_document(Text::from_str("else"), Language::Plain);
    let a = editor.open_session(d, 80).unwrap();
    let b = editor.open_session(d, 5).unwrap();
    let c = editor.open_session(other, 80).unwrap();
    assert_eq!(editor.open_session(9, 80), None);
    assert_eq!((editor.document_count(), editor.session_count()), (2, 3));
    editor.clear_to(b, sel((0, 5), (1, 2))).unwrap();
    editor.add_selection(b, sel((0, 1), (0, 1))).unwrap();
    editor.clear_to(c, sel((0, 2), (0, 4))).unwrap();
    submit(&mut editor, a, range((0, 0), (0, 3)), "1\n2", None).unwrap();
    assert_eq!(content(&editor, d), "1\n2 two\nthree");
    assert_eq!(content(&editor, other), "else");
    assert_eq!(editor.selections(a), Some(vec![sel((0, 0), (0, 0))]));
    assert_eq!(editor.selections(b), Some(vec![sel((1, 1), (1, 1)), sel((1, 3), (2, 2))]));
    assert_eq!(editor.selections(c), Some(vec![sel((0, 2), (0, 4))]));
    assert_eq!(editor.undo(b), Ok(false));
    assert_eq!(editor.undo(c), Ok(false));
    assert_in_order(&editor);
    assert_eq!(editor.undo(a), Ok(true));
    assert_eq!(content(&editor, d), "one two\nthree");
    assert_eq!(editor.selections(b), Some(vec![sel((0, 3), (0, 3)), sel((0, 5), (1, 2))]));
    assert_in_order(&editor);
}

#[test]
fn history_of_another_session_follows_an_edit() {
    let mut editor = Editor::new();
    let d = editor.open_document(Text::from_str("abc\ndef"), Language::Code);
    let a = editor.open_session(d, 80).unwrap();
    let b = editor.open_session(d, 80).unwrap();
    submit(&mut editor, a, range((1, 1), (1, 2)), "E", None).unwrap();
    submit(&mut editor, b, range((0, 0), (0, 0)), "x\ny", None).unwrap();
    assert_eq!(content(&editor, d), "x\nyabc\ndEf");
    assert_eq!(editor.undo(a), Ok(true));
    assert_eq!(content(&editor, d), "x\nyabc\ndef");
    assert_eq!(editor.undo(b), Ok(true));
    assert_eq!(content(&editor, d), "abc\ndef");
    assert_eq!(editor.redo(a), Ok(true));
    assert_eq!(content(&editor, d), "abc\ndEf");
    assert_in_order(&editor);
}

#[test]
fn selections_stay_in_the_text_over_many_edits() {
    let (mut editor, _, s) = open("fn main() {\n    let x = \"a\";\n    /* c */\n}\n", 12);
    let mut other = Vec::new();
    for _ in 0..3 {
        other.push(editor.open_session(0, 7).unwrap());
    }
    editor.clear_to(other[0], sel((1, 4), (1, 7))).unwrap();
    editor.add_selection(other[0], sel((3, 1), (2, 2))).unwrap();
    editor.clear_to(other[1], sel((4, 0), (0, 0))).unwrap();
    editor.clear_to(other[2], sel((2, 11), (2, 11))).unwrap();
    let edits: Vec<(Range, &str)> = vec![
        (range((1, 4), (1, 7)), "const"),
        (range((0, 0), (0, 0)), "/* open\n"),
        (range((0, 3), (1, 2)), " */\n\n"),
        (range((2, 0), (4, 3)), ""),
        (range((0, 0), (0, 6)), "\"un\ntermin"),
        (range((1, 0), (3, 0)), "ated\" x\ny\n\nz"),
        (range((0, 1), (5, 0)), ""),
    ];
    for (i, (r, text)) in edits.iter().enumerate() {
        assert_eq!(submit(&mut editor, s, *r, text, Some((i / 2) as u64)), Ok(()), "edit {}", i);
        assert_in_order(&editor);
    }
    while editor.undo(s) == Ok(true) {
        assert_in_order(&editor);
    }
    let doc = editor.document(0).unwrap();
    let text = doc.buffer().read(Range::new(pos(0, 0), doc.buffer().end())).unwrap();
    assert_eq!(
        text.to_chars().into_iter().collect::<String>(),
        "fn main() {\n    let x = \"a\";\n    /* c */\n}\n"
    );
    while editor.redo(s) == Ok(true) {
        assert_in_order(&editor);
    }
}

#[test]
fn move_all_moves_and_merges() {
    let (mut editor, _, s) = open("ab\ncd", 80);
    editor.clear_to(s, sel((0, 0), (0, 0))).unwrap();
    editor.add_selection(s, sel((0, 1), (0, 1))).unwrap();
    editor.add_selection(s, sel((1, 2), (1, 2))).unwrap();
    editor.move_all(s, Motion::Left, false).unwrap();
    assert_eq!(editor.selections(s), Some(vec![sel((0, 0), (0, 0)), sel((1, 1), (1, 1))]));
    editor.move_all(s, Motion::Right, true).unwrap();
    assert_eq!(editor.selections(s), Some(vec![sel((0, 0), (0, 1)), sel((1, 1), (1, 2))]));
    editor.move_all(s, Motion::DocEnd, true).unwrap();
    assert_eq!(editor.selections(s), Some(vec![sel((0, 0), (1, 2))]));
    editor.move_all(s, Motion::Up, false).unwrap();
    assert_eq!(
        editor.selections(s),
        Some(vec![Selection { anchor: pos(0, 2), head: pos(0, 2), column: Some(2) }])
    );
    assert_in_order(&editor);
}

#[test]
fn inlays_follow_edits_and_change_the_rows() {
    let (mut editor, d, s) = open("alpha beta\ngamma", 80);
    assert_eq!(editor.insert_inlay(d, pos(0, 6), InlayContent::Diagnostic, InlayKind::Block, 0), Ok(Some(0)));
    assert_eq!(editor.insert_inlay(d, pos(1, 2), InlayContent::Widget(1), InlayKind::Inline, 4), Ok(Some(1)));
    assert_eq!(
        editor.insert_inlay(d, pos(1, 6), InlayContent::Diagnostic, InlayKind::Inline, 1),
        Err(EditError::OutOfBounds)
    );
    assert_eq!(
        editor.insert_inlay(3, pos(0, 0), InlayContent::Diagnostic, InlayKind::Inline, 1),
        Err(EditError::OutOfBounds)
    );
    assert_eq!(
        editor.session(s).unwrap().line_rows(0),
        &vec![
            WrapRow { start: 0, end: 6, kind: RowKind::Text },
            WrapRow { start: 6, end: 6, kind: RowKind::Block(0) },
            WrapRow { start: 6, end: 10, kind: RowKind::Text },
        ]
    );
    assert_in_order(&editor);
    submit(&mut editor, s, range((0, 0), (0, 0)), "x\n", None).unwrap();
    let doc = editor.document(d).unwrap();
    assert_eq!(doc.query_inlays(0), vec![]);
    assert_eq!(doc.query_inlays(1)[0].anchor, pos(1, 6));
    assert_eq!(doc.query_inlays(2)[0].anchor, pos(2, 2));
    assert_in_order(&editor);
    submit(&mut editor, s, range((1, 2), (2, 1)), "", None).unwrap();
    let doc = editor.document(d).unwrap();
    assert_eq!(doc.query_inlays(1).len(), 1);
    assert_eq!(doc.query_inlays(1)[0].id, 1);
    assert_eq!(doc.query_inlays(1)[0].anchor, pos(1, 3));
    assert_in_order(&editor);
    assert_eq!(editor.remove_inlay(d, 1), Ok(true));
    assert_eq!(editor.remove_inlay(d, 1), Ok(false));
    assert_eq!(editor.remove_inlay(4, 1), Err(EditError::OutOfBounds));
    assert_eq!(editor.document(d).unwrap().query_inlays(1), vec![]);
    assert_in_order(&editor);
}

#[test]
fn wrap_width_of_a_session_can_change() {
    let (mut editor, _, s) = open("alpha beta gamma", 80);
    assert_eq!(editor.session(s).unwrap().line_rows(0).len(), 1);
    editor.set_wrap_width(s, 10).unwrap();
    assert_eq!(editor.session(s).unwrap().wrap_width(), 10);
    assert_eq!(editor.session(s).unwrap().line_rows(0).len(), 3);
    assert_in_order(&editor);
}

#[test]
fn visible_rows_and_their_token_spans() {
    let (editor, d, s) = open("let alpha = beta;\n\nx", 10);
    let session = editor.session(s).unwrap();
    let rows = session.visible_rows(0, 9);
    let shape: Vec<(usize, usize, usize)> = rows.iter().map(|r| (r.line, r.row.start, r.row.end)).collect();
    assert_eq!(shape, vec![(0, 0, 4), (0, 4, 12), (0, 12, 17), (1, 0, 0), (2, 0, 1)]);
    assert_eq!(session.visible_rows(1, 2).len(), 1);
    assert_eq!(session.visible_rows(2, 1).len(), 0);
    assert_eq!(session.visible_rows(5, 9).len(), 0);
    let doc = editor.document(d).unwrap();
    let spans = spans_of_row(doc.line_tokens(0), rows[1].row);
    assert_eq!(
        spans,
        vec![
            Token { kind: TokenKind::Identifier, start: 4, end: 9 },
            Token { kind: TokenKind::Whitespace, start: 9, end: 10 },
            Token { kind: TokenKind::Punctuation, start: 10, end: 11 },
            Token { kind: TokenKind::Whitespace, start: 11, end: 12 },
        ]
    );
    let cut = spans_of_row(doc.line_tokens(0), WrapRow { start: 6, end: 8, kind: RowKind::Text });
    assert_eq!(cut, vec![Token { kind: TokenKind::Identifier, start: 6, end: 8 }]);
}
