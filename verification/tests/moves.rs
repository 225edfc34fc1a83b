use code_editor::buffer::EditError;
use code_editor::document::Document;
use code_editor::inlay::{InlayContent, InlayKind};
use code_editor::layout::WrapLayout;
use code_editor::moves::{
    column_in_row, doc_end, doc_start, line_end, line_start, move_down, move_left, move_position,
    move_right, move_selection, move_up, page_down, page_up, para_down, para_up, word_left,
    word_right, Motion,
};
use code_editor::position::Position;
use code_editor::selection::Selection;
use code_editor::text::Text;
use code_editor::tokenizer::Language;

fn pos(line: usize, offset: usize) -> Position {
    Position::new(line, offset)
}

fn doc(text: &str) -> Document {
    Document::new(Text::from_str(text), Language::Code)
}

#[test]
fn left_and_right_by_character() {
    let d = doc("ab\n\ncd");
    assert_eq!(move_left(pos(0, 2), &d), Ok(pos(0, 1)));
    assert_eq!(move_left(pos(1, 0), &d), Ok(pos(0, 2)));
    assert_eq!(move_left(pos(2, 0), &d), Ok(pos(1, 0)));
    assert_eq!(move_right(pos(0, 1), &d), Ok(pos(0, 2)));
    assert_eq!(move_right(pos(0, 2), &d), Ok(pos(1, 0)));
    assert_eq!(move_right(pos(1, 0), &d), Ok(pos(2, 0)));
}

#[test]
fn moves_at_the_ends_of_the_text_stay() {
    let d = doc("ab\ncd");
    let layout = WrapLayout::new(80, &d);
    assert_eq!(move_left(pos(0, 0), &d), Ok(pos(0, 0)));
    assert_eq!(word_left(pos(0, 0), &d), Ok(pos(0, 0)));
    assert_eq!(move_up(pos(0, 1), 1, &d, &layout), Ok(pos(0, 1)));
    assert_eq!(para_up(pos(0, 0), &d), Ok(pos(0, 0)));
    assert_eq!(doc_start(pos(0, 0), &d), Ok(pos(0, 0)));
    assert_eq!(move_right(pos(1, 2), &d), Ok(pos(1, 2)));
    assert_eq!(word_right(pos(1, 2), &d), Ok(pos(1, 2)));
    assert_eq!(move_down(pos(1, 1), 1, &d, &layout), Ok(pos(1, 1)));
    assert_eq!(para_down(pos(1, 2), &d), Ok(pos(1, 2)));
    assert_eq!(doc_end(pos(1, 2), &d), Ok(pos(1, 2)));
}

#[test]
fn moves_refuse_a_position_outside_the_text() {
    let d = doc("ab\ncd");
    let layout = WrapLayout::new(80, &d);
    for p in [pos(0, 3), pos(2, 0), pos(9, 9)] {
        assert_eq!(move_left(p, &d), Err(EditError::OutOfBounds));
        assert_eq!(move_right(p, &d), Err(EditError::OutOfBounds));
        assert_eq!(word_left(p, &d), Err(EditError::OutOfBounds));
        assert_eq!(word_right(p, &d), Err(EditError::OutOfBounds));
        assert_eq!(line_start(p, &d), Err(EditError::OutOfBounds));
        assert_eq!(line_end(p, &d), Err(EditError::OutOfBounds));
        assert_eq!(para_up(p, &d), Err(EditError::OutOfBounds));
        assert_eq!(para_down(p, &d), Err(EditError::OutOfBounds));
        assert_eq!(doc_start(p, &d), Err(EditError::OutOfBounds));
        assert_eq!(doc_end(p, &d), Err(EditError::OutOfBounds));
        assert_eq!(move_up(p, 0, &d, &layout), Err(EditError::OutOfBounds));
        assert_eq!(move_down(p, 0, &d, &layout), Err(EditError::OutOfBounds));
        assert_eq!(column_in_row(p, &d, &layout), Err(EditError::OutOfBounds));
    }
}

#[test]
fn word_moves_skip_white_space() {
    let d = doc("let   abc = x1;");
    assert_eq!(word_right(pos(0, 0), &d), Ok(pos(0, 3)));
    assert_eq!(word_right(pos(0, 1), &d), Ok(pos(0, 3)));
    assert_eq!(word_right(pos(0, 3), &d), Ok(pos(0, 9)));
    assert_eq!(word_right(pos(0, 4), &d), Ok(pos(0, 9)));
    assert_eq!(word_right(pos(0, 9), &d), Ok(pos(0, 11)));
    assert_eq!(word_right(pos(0, 12), &d), Ok(pos(0, 14)));
    assert_eq!(word_right(pos(0, 14), &d), Ok(pos(0, 15)));
    assert_eq!(word_left(pos(0, 15), &d), Ok(pos(0, 14)));
    assert_eq!(word_left(pos(0, 14), &d), Ok(pos(0, 12)));
    assert_eq!(word_left(pos(0, 12), &d), Ok(pos(0, 10)));
    assert_eq!(word_left(pos(0, 9), &d), Ok(pos(0, 6)));
    assert_eq!(word_left(pos(0, 6), &d), Ok(pos(0, 0)));
    assert_eq!(word_left(pos(0, 4), &d), Ok(pos(0, 0)));
    assert_eq!(word_left(pos(0, 2), &d), Ok(pos(0, 0)));
}

#[test]
fn word_moves_cross_lines_at_their_ends() {
    let d = doc("ab \n cd");
    assert_eq!(word_right(pos(0, 2), &d), Ok(pos(0, 3)));
    assert_eq!(word_right(pos(0, 3), &d), Ok(pos(1, 0)));
    assert_eq!(word_right(pos(1, 0), &d), Ok(pos(1, 3)));
    assert_eq!(word_left(pos(1, 0), &d), Ok(pos(0, 3)));
    assert_eq!(word_left(pos(1, 1), &d), Ok(pos(1, 0)));
    assert_eq!(word_left(pos(0, 3), &d), Ok(pos(0, 0)));
}

#[test]
fn line_and_document_ends() {
    let d = doc("alpha\nbe\ngamma!");
    assert_eq!(line_start(pos(1, 1), &d), Ok(pos(1, 0)));
    assert_eq!(line_end(pos(1, 1), &d), Ok(pos(1, 2)));
    assert_eq!(line_end(pos(0, 0), &d), Ok(pos(0, 5)));
    assert_eq!(doc_start(pos(2, 3), &d), Ok(pos(0, 0)));
    assert_eq!(doc_end(pos(0, 3), &d), Ok(pos(2, 6)));
}

#[test]
fn paragraph_moves_go_to_empty_lines() {
    let d = doc("a\nb\n\nc\nd\n\n\ne");
    assert_eq!(para_down(pos(0, 1), &d), Ok(pos(2, 0)));
    assert_eq!(para_down(pos(2, 0), &d), Ok(pos(5, 0)));
    assert_eq!(para_down(pos(5, 0), &d), Ok(pos(6, 0)));
    assert_eq!(para_down(pos(6, 0), &d), Ok(pos(7, 1)));
    assert_eq!(para_up(pos(7, 1), &d), Ok(pos(6, 0)));
    assert_eq!(para_up(pos(6, 0), &d), Ok(pos(5, 0)));
    assert_eq!(para_up(pos(4, 1), &d), Ok(pos(2, 0)));
    assert_eq!(para_up(pos(2, 0), &d), Ok(pos(0, 0)));
    assert_eq!(para_up(pos(1, 1), &d), Ok(pos(0, 0)));
}

#[test]
fn up_and_down_go_by_rows() {
    let d = doc("alpha beta gamma\nxy\nlonger line here");
    let layout = WrapLayout::new(10, &d);
    assert_eq!(layout.line_rows(0).len(), 3);
    assert_eq!(column_in_row(pos(0, 8), &d, &layout), Ok(2));
    assert_eq!(move_down(pos(0, 2), 2, &d, &layout), Ok(pos(0, 8)));
    assert_eq!(move_down(pos(0, 8), 2, &d, &layout), Ok(pos(0, 13)));
    assert_eq!(move_down(pos(0, 13), 2, &d, &layout), Ok(pos(1, 2)));
    assert_eq!(move_down(pos(1, 2), 2, &d, &layout), Ok(pos(2, 2)));
    assert_eq!(move_up(pos(2, 2), 2, &d, &layout), Ok(pos(1, 2)));
    assert_eq!(move_up(pos(1, 2), 2, &d, &layout), Ok(pos(0, 13)));
    assert_eq!(move_up(pos(0, 13), 2, &d, &layout), Ok(pos(0, 8)));
    assert_eq!(move_up(pos(0, 8), 2, &d, &layout), Ok(pos(0, 2)));
    assert_eq!(move_up(pos(0, 2), 2, &d, &layout), Ok(pos(0, 2)));
}

#[test]
fn target_column_is_clamped_to_shorter_rows() {
    let d = doc("alpha beta gamma\nxy\nlonger line here");
    let layout = WrapLayout::new(10, &d);
    assert_eq!(move_down(pos(0, 15), 4, &d, &layout), Ok(pos(1, 2)));
    assert_eq!(move_down(pos(1, 2), 4, &d, &layout), Ok(pos(2, 4)));
    assert_eq!(move_up(pos(0, 7), 9, &d, &layout), Ok(pos(0, 5)));
    assert_eq!(move_down(pos(0, 1), 9, &d, &layout), Ok(pos(0, 10)));
    assert_eq!(move_down(pos(0, 7), 9, &d, &layout), Ok(pos(0, 16)));
    assert_eq!(move_up(pos(1, 0), usize::MAX, &d, &layout), Ok(pos(0, 16)));
}

#[test]
fn up_and_down_skip_rows_of_block_inlays() {
    let mut d = doc("abcdef");
    d.insert_inlay(pos(0, 3), InlayContent::Diagnostic, InlayKind::Block, 0).unwrap();
    let layout = WrapLayout::new(80, &d);
    assert_eq!(layout.line_rows(0).len(), 3);
    assert_eq!(move_down(pos(0, 1), 1, &d, &layout), Ok(pos(0, 4)));
    assert_eq!(move_up(pos(0, 4), 1, &d, &layout), Ok(pos(0, 1)));
    assert_eq!(move_up(pos(0, 3), 0, &d, &layout), Ok(pos(0, 0)));
    assert_eq!(column_in_row(pos(0, 3), &d, &layout), Ok(0));
    assert_eq!(column_in_row(pos(0, 2), &d, &layout), Ok(2));
}

#[test]
fn move_position_goes_by_the_motion() {
    let d = doc("ab cd\n\nef");
    let layout = WrapLayout::new(80, &d);
    let p = pos(0, 3);
    assert_eq!(move_position(p, 3, Motion::Left, &d, &layout), Ok(pos(0, 2)));
    assert_eq!(move_position(p, 3, Motion::Right, &d, &layout), Ok(pos(0, 4)));
    assert_eq!(move_position(p, 3, Motion::Up, &d, &layout), Ok(pos(0, 3)));
    assert_eq!(move_position(p, 3, Motion::Down, &d, &layout), Ok(pos(1, 0)));
    assert_eq!(move_position(p, 3, Motion::WordLeft, &d, &layout), Ok(pos(0, 0)));
    assert_eq!(move_position(p, 3, Motion::WordRight, &d, &layout), Ok(pos(0, 5)));
    assert_eq!(move_position(p, 3, Motion::LineStart, &d, &layout), Ok(pos(0, 0)));
    assert_eq!(move_position(p, 3, Motion::LineEnd, &d, &layout), Ok(pos(0, 5)));
    assert_eq!(move_position(p, 3, Motion::ParaUp, &d, &layout), Ok(pos(0, 0)));
    assert_eq!(move_position(p, 3, Motion::ParaDown, &d, &layout), Ok(pos(1, 0)));
    assert_eq!(move_position(p, 3, Motion::DocStart, &d, &layout), Ok(pos(0, 0)));
    assert_eq!(move_position(p, 3, Motion::DocEnd, &d, &layout), Ok(pos(2, 2)));
    assert!(Motion::Up.is_vertical() && Motion::Down.is_vertical());
    assert!(!Motion::Left.is_vertical() && !Motion::DocEnd.is_vertical());
}

#[test]
fn move_selection_keeps_the_column_over_short_lines() {
    let d = doc("abcdef\nab\nabcdef");
    let layout = WrapLayout::new(80, &d);
    let s = Selection::cursor(pos(0, 5));
    let s = move_selection(s, Motion::Down, false, &d, &layout).unwrap();
    assert_eq!(s, Selection { anchor: pos(1, 2), head: pos(1, 2), column: Some(5) });
    let s = move_selection(s, Motion::Down, false, &d, &layout).unwrap();
    assert_eq!(s, Selection { anchor: pos(2, 5), head: pos(2, 5), column: Some(5) });
    let s = move_selection(s, Motion::Left, false, &d, &layout).unwrap();
    assert_eq!(s, Selection { anchor: pos(2, 4), head: pos(2, 4), column: None });
    let s = move_selection(s, Motion::Up, true, &d, &layout).unwrap();
    assert_eq!(s, Selection { anchor: pos(2, 4), head: pos(1, 2), column: Some(4) });
    let s = move_selection(s, Motion::Up, true, &d, &layout).unwrap();
    assert_eq!(s, Selection { anchor: pos(2, 4), head: pos(0, 4), column: Some(4) });
    let bad = Selection::cursor(pos(5, 0));
    assert_eq!(move_selection(bad, Motion::Left, false, &d, &layout), Err(EditError::OutOfBounds));
}

#[test]
fn page_moves_go_by_many_rows() {
    let d = doc("alpha beta gamma\nxy\nlonger line here\nlast");
    let layout = WrapLayout::new(10, &d);
    assert_eq!(page_down(pos(0, 2), 2, 0, &d, &layout), Ok(pos(0, 2)));
    assert_eq!(page_down(pos(0, 2), 2, 1, &d, &layout), Ok(pos(0, 8)));
    assert_eq!(page_down(pos(0, 2), 2, 3, &d, &layout), Ok(pos(1, 2)));
    assert_eq!(page_down(pos(0, 2), 2, 4, &d, &layout), Ok(pos(2, 2)));
    assert_eq!(page_down(pos(0, 2), 2, 100, &d, &layout), Ok(pos(3, 2)));
    assert_eq!(page_up(pos(3, 2), 2, 3, &d, &layout), Ok(pos(1, 2)));
    assert_eq!(page_up(pos(3, 2), 2, 4, &d, &layout), Ok(pos(0, 13)));
    assert_eq!(page_up(pos(3, 2), 2, 100, &d, &layout), Ok(pos(0, 2)));
    assert_eq!(page_up(pos(9, 2), 2, 1, &d, &layout), Err(EditError::OutOfBounds));
    assert_eq!(page_down(pos(9, 2), 2, 1, &d, &layout), Err(EditError::OutOfBounds));
    assert_eq!(move_position(pos(0, 2), 2, Motion::PageDown(3), &d, &layout), Ok(pos(1, 2)));
    assert_eq!(move_position(pos(3, 2), 2, Motion::PageUp(3), &d, &layout), Ok(pos(1, 2)));
    assert!(Motion::PageUp(1).is_vertical() && Motion::PageDown(1).is_vertical());
}
