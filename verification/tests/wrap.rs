use code_editor::inlay::{InlayKind, Inset};
use code_editor::text::chars_of;
use code_editor::token::{Token, TokenKind};
use code_editor::tokenizer::{tokenize_line, Language, LexState};
use code_editor::wrap::{wrap_line, RowKind, WrapRow};

fn rows_of(text: &str, inlays: &Vec<Inset>, width: usize) -> Vec<WrapRow> {
    let line = chars_of(text);
    let (tokens, _) = tokenize_line(&line, LexState::Normal, Language::Plain);
    wrap_line(line.len(), &tokens, inlays, width)
}

fn shown(text: &str, rows: &Vec<WrapRow>) -> Vec<String> {
    let line: Vec<char> = text.chars().collect();
    rows.iter()
        .map(|row| line[row.start..row.end].iter().collect())
        .collect()
}

#[test]
fn wraps_at_whitespace_boundaries() {
    let text = "alpha beta gamma";
    let rows = rows_of(text, &Vec::new(), 10);
    assert_eq!(shown(text, &rows), vec!["alpha ", "beta ", "gamma"]);
    assert!(rows.iter().all(|row| row.kind == RowKind::Text));
}

#[test]
fn rows_reconstruct_the_line() {
    let text = "let answer = compute(alpha, beta) + 42; // done";
    for width in 0..60 {
        let rows = rows_of(text, &Vec::new(), width);
        assert!(!rows.is_empty());
        assert_eq!(shown(text, &rows).concat(), text);
        assert_eq!(rows[0].start, 0);
        assert_eq!(rows[rows.len() - 1].end, text.chars().count());
        for pair in rows.windows(2) {
            assert_eq!(pair[0].end, pair[1].start);
        }
    }
}

#[test]
fn rows_are_narrower_than_the_width() {
    let text = "one two three four five six seven eight nine ten";
    let rows = rows_of(text, &Vec::new(), 12);
    for row in &rows {
        assert!(row.end - row.start < 12);
    }
    assert_eq!(
        shown(text, &rows),
        vec!["one two ", "three four ", "five six ", "seven ", "eight nine ", "ten"]
    );
}

#[test]
fn hard_break_where_no_boundary_is_in_reach() {
    let text = "abcdefghijklmnopqrstuvwxyz";
    let rows = rows_of(text, &Vec::new(), 10);
    assert_eq!(shown(text, &rows), vec!["abcdefghi", "jklmnopqr", "stuvwxyz"]);
}

#[test]
fn a_row_holds_one_character_at_least() {
    let text = "abc";
    let rows = rows_of(text, &Vec::new(), 0);
    assert_eq!(shown(text, &rows), vec!["a", "b", "c"]);
    let rows = rows_of(text, &Vec::new(), 1);
    assert_eq!(shown(text, &rows), vec!["a", "b", "c"]);
}

#[test]
fn empty_line_has_one_empty_row() {
    let rows = rows_of("", &Vec::new(), 10);
    assert_eq!(rows, vec![WrapRow { start: 0, end: 0, kind: RowKind::Text }]);
}

#[test]
fn block_inlay_breaks_the_row_before_and_after() {
    let text = "alpha beta";
    let block = Inset { id: 7, offset: 6, kind: InlayKind::Block, width: 3 };
    let rows = rows_of(text, &vec![block], 40);
    assert_eq!(
        rows,
        vec![
            WrapRow { start: 0, end: 6, kind: RowKind::Text },
            WrapRow { start: 6, end: 6, kind: RowKind::Block(7) },
            WrapRow { start: 6, end: 10, kind: RowKind::Text },
        ]
    );
}

#[test]
fn block_inlay_at_the_ends_of_a_line() {
    let text = "abc";
    let first = Inset { id: 1, offset: 0, kind: InlayKind::Block, width: 0 };
    let last = Inset { id: 2, offset: 3, kind: InlayKind::Block, width: 0 };
    let rows = rows_of(text, &vec![first, last], 40);
    assert_eq!(
        rows,
        vec![
            WrapRow { start: 0, end: 0, kind: RowKind::Block(1) },
            WrapRow { start: 0, end: 3, kind: RowKind::Text },
            WrapRow { start: 3, end: 3, kind: RowKind::Block(2) },
            WrapRow { start: 3, end: 3, kind: RowKind::Text },
        ]
    );
}

#[test]
fn inline_inlay_is_measured_in_its_row() {
    let text = "alpha beta gamma";
    let inline = Inset { id: 1, offset: 11, kind: InlayKind::Inline, width: 5 };
    let rows = rows_of(text, &Vec::new(), 12);
    assert_eq!(shown(text, &rows), vec!["alpha beta ", "gamma"]);
    let rows = rows_of(text, &vec![inline], 12);
    assert_eq!(shown(text, &rows), vec!["alpha beta ", "gamma"]);
    let rows = rows_of(text, &vec![inline], 10);
    assert_eq!(shown(text, &rows), vec!["alpha ", "beta ", "gamm", "a"]);
}

#[test]
fn never_breaks_inside_a_word_that_fits() {
    let text = "alpha beta gamma";
    let line = chars_of(text);
    let (tokens, _) = tokenize_line(&line, LexState::Normal, Language::Plain);
    assert_eq!(
        tokens,
        vec![
            Token { kind: TokenKind::Identifier, start: 0, end: 5 },
            Token { kind: TokenKind::Whitespace, start: 5, end: 6 },
            Token { kind: TokenKind::Identifier, start: 6, end: 10 },
            Token { kind: TokenKind::Whitespace, start: 10, end: 11 },
            Token { kind: TokenKind::Identifier, start: 11, end: 16 },
        ]
    );
    for width in 7..20 {
        let rows = wrap_line(line.len(), &tokens, &Vec::new(), width);
        for row in &rows {
            assert!(tokens.iter().any(|t| t.start == row.start));
        }
    }
}
