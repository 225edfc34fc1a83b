use code_editor::buffer::{Edit, EditError, TextBuffer};
use code_editor::position::{Position, Range};
use code_editor::text::Text;

fn pos(line: usize, offset: usize) -> Position {
    Position::new(line, offset)
}

fn range(a: (usize, usize), b: (usize, usize)) -> Range {
    Range::new(pos(a.0, a.1), pos(b.0, b.1))
}

fn content(buffer: &TextBuffer) -> String {
    let end = buffer.end();
    let text = buffer.read(Range::new(pos(0, 0), end)).unwrap();
    text.to_chars().into_iter().collect()
}

fn shown(text: &Text) -> String {
    text.to_chars().into_iter().collect()
}

#[test]
fn delete_newline_joins_lines_and_inverse_restores() {
    let mut buffer = TextBuffer::from_str("foo\nbar");
    assert_eq!(buffer.line_count(), 2);
    let inverse = buffer.replace(range((0, 3), (1, 0)), &Text::from_str("")).unwrap();
    assert_eq!(buffer.line_count(), 1);
    assert_eq!(content(&buffer), "foobar");
    assert_eq!(inverse.range, range((0, 3), (0, 3)));
    assert_eq!(inverse.text, Text::from_str("\n"));
    let again: Edit = buffer.apply(&inverse).unwrap();
    assert_eq!(content(&buffer), "foo\nbar");
    assert_eq!(again.range, range((0, 3), (1, 0)));
    assert_eq!(again.text, Text::from_str(""));
}

#[test]
fn replace_out_of_bounds_is_refused_and_changes_nothing() {
    let mut buffer = TextBuffer::from_str("foo\nbar");
    let res = buffer.replace(range((0, 4), (1, 0)), &Text::from_str("x"));
    assert_eq!(res, Err(EditError::OutOfBounds));
    let res = buffer.replace(range((1, 0), (2, 0)), &Text::from_str("x"));
    assert_eq!(res, Err(EditError::OutOfBounds));
    let res = buffer.replace(range((1, 0), (0, 0)), &Text::from_str("x"));
    assert_eq!(res, Err(EditError::OutOfBounds));
    assert_eq!(content(&buffer), "foo\nbar");
}

#[test]
fn empty_buffer_is_one_empty_line() {
    let buffer = TextBuffer::new();
    assert_eq!(buffer.line_count(), 1);
    assert_eq!(buffer.line_length(0), Ok(0));
    assert_eq!(buffer.line_length(1), Err(EditError::OutOfBounds));
    assert_eq!(buffer.end(), pos(0, 0));
    assert_eq!(content(&buffer), "");
}

#[test]
fn line_count_and_line_length() {
    let buffer = TextBuffer::from_str("one\n\nthree!");
    assert_eq!(buffer.line_count(), 3);
    assert_eq!(buffer.line_length(0), Ok(3));
    assert_eq!(buffer.line_length(1), Ok(0));
    assert_eq!(buffer.line_length(2), Ok(6));
    assert_eq!(buffer.line_length(3), Err(EditError::OutOfBounds));
    assert_eq!(buffer.end(), pos(2, 6));
}

#[test]
fn read_gives_the_text_of_a_range() {
    let buffer = TextBuffer::from_str("alpha\nbeta\ngamma");
    assert_eq!(shown(&buffer.read(range((0, 1), (0, 4))).unwrap()), "lph");
    assert_eq!(shown(&buffer.read(range((0, 3), (2, 2))).unwrap()), "ha\nbeta\nga");
    assert_eq!(shown(&buffer.read(range((1, 4), (2, 0))).unwrap()), "\n");
    assert_eq!(shown(&buffer.read(range((1, 2), (1, 2))).unwrap()), "");
    assert!(buffer.read(range((1, 5), (1, 5))).is_err());
    assert!(buffer.read(range((1, 2), (1, 1))).is_err());
    assert!(buffer.read(range((0, 0), (3, 0))).is_err());
}

#[test]
fn insert_text_with_newlines_splits_lines() {
    let mut buffer = TextBuffer::from_str("headtail");
    let inverse = buffer.replace(range((0, 4), (0, 4)), &Text::from_str("-a\nb\nc-")).unwrap();
    assert_eq!(content(&buffer), "head-a\nb\nc-tail");
    assert_eq!(buffer.line_count(), 3);
    assert_eq!(inverse.range, range((0, 4), (2, 2)));
    assert_eq!(shown(&inverse.text), "");
}

#[test]
fn replace_across_lines_gives_displaced_text() {
    let mut buffer = TextBuffer::from_str("alpha\nbeta\ngamma\ndelta");
    let inverse = buffer.replace(range((0, 2), (2, 3)), &Text::from_str("X")).unwrap();
    assert_eq!(content(&buffer), "alXma\ndelta");
    assert_eq!(inverse.range, range((0, 2), (0, 3)));
    assert_eq!(shown(&inverse.text), "pha\nbeta\ngam");
    buffer.apply(&inverse).unwrap();
    assert_eq!(content(&buffer), "alpha\nbeta\ngamma\ndelta");
}

#[test]
fn replace_then_inverse_restores_every_time() {
    let source = "fn main() {\n    let x = 1;\n\n    call(x);\n}";
    let texts = ["", "x", "\n", "ab\ncd", "\n\n", "tail\n"];
    let probe = TextBuffer::from_str(source);
    let mut places = Vec::new();
    for line in 0..probe.line_count() {
        for offset in 0..=probe.line_length(line).unwrap() {
            places.push(pos(line, offset));
        }
    }
    for (i, start) in places.iter().enumerate() {
        for end in places[i..].iter().step_by(3) {
            for text in texts.iter() {
                let mut buffer = TextBuffer::from_str(source);
                let inverse = buffer.replace(Range::new(*start, *end), &Text::from_str(text)).unwrap();
                assert!(buffer.contains_range(inverse.range));
                assert_eq!(shown(&buffer.read(inverse.range).unwrap()), *text);
                buffer.apply(&inverse).unwrap();
                assert_eq!(content(&buffer), source);
            }
        }
    }
}

#[test]
fn contains_position_accepts_the_end_of_a_line() {
    let buffer = TextBuffer::from_str("ab\nc");
    assert!(buffer.contains_position(pos(0, 2)));
    assert!(!buffer.contains_position(pos(0, 3)));
    assert!(buffer.contains_position(pos(1, 1)));
    assert!(!buffer.contains_position(pos(2, 0)));
}
