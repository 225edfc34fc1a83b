use code_editor::buffer::TextBuffer;
use code_editor::position::{Position, Range};
use code_editor::text::{chars_of, Text};
use code_editor::token::{Token, TokenKind};
use code_editor::tokenizer::{
    find_comment_close, find_string_close, is_keyword_at, scan_run, scan_token, spells,
    tokenize_line, CharClass, Language, LexState, Tokenizer,
};

fn kinds(text: &str, state: LexState, lang: Language) -> (Vec<(TokenKind, String)>, LexState) {
    let line = chars_of(text);
    let (tokens, after) = tokenize_line(&line, state, lang);
    let out = tokens
        .iter()
        .map(|t| (t.kind, line[t.start..t.end].iter().collect::<String>()))
        .collect();
    (out, after)
}

fn assert_partition(tokens: &Vec<Token>, len: usize) {
    let mut at = 0;
    for t in tokens {
        assert_eq!(t.start, at);
        assert!(t.start < t.end);
        at = t.end;
    }
    assert_eq!(at, len);
}

fn t(kind: TokenKind, s: &str) -> (TokenKind, String) {
    (kind, s.to_string())
}

#[test]
fn code_line_has_every_kind() {
    let (tokens, after) = kinds("let x1 = 42; // done", LexState::Normal, Language::Code);
    assert_eq!(
        tokens,
        vec![
            t(TokenKind::Keyword, "let"),
            t(TokenKind::Whitespace, " "),
            t(TokenKind::Identifier, "x1"),
            t(TokenKind::Whitespace, " "),
            t(TokenKind::Punctuation, "="),
            t(TokenKind::Whitespace, " "),
            t(TokenKind::Number, "42"),
            t(TokenKind::Punctuation, ";"),
            t(TokenKind::Whitespace, " "),
            t(TokenKind::Comment, "// done"),
        ]
    );
    assert_eq!(after, LexState::Normal);
}

#[test]
fn plain_language_knows_no_keywords_comments_or_strings() {
    let (tokens, after) = kinds("let \"a\" /* b", LexState::Normal, Language::Plain);
    assert_eq!(
        tokens,
        vec![
            t(TokenKind::Identifier, "let"),
            t(TokenKind::Whitespace, " "),
            t(TokenKind::Punctuation, "\""),
            t(TokenKind::Identifier, "a"),
            t(TokenKind::Punctuation, "\""),
            t(TokenKind::Whitespace, " "),
            t(TokenKind::Punctuation, "/"),
            t(TokenKind::Punctuation, "*"),
            t(TokenKind::Whitespace, " "),
            t(TokenKind::Identifier, "b"),
        ]
    );
    assert_eq!(after, LexState::Normal);
}

#[test]
fn block_comment_runs_over_lines() {
    let (tokens, after) = kinds("a /* b", LexState::Normal, Language::Code);
    assert_eq!(
        tokens,
        vec![t(TokenKind::Identifier, "a"), t(TokenKind::Whitespace, " "), t(TokenKind::Comment, "/* b")]
    );
    assert_eq!(after, LexState::InBlockComment);
    let (tokens, after) = kinds("still", LexState::InBlockComment, Language::Code);
    assert_eq!(tokens, vec![t(TokenKind::Comment, "still")]);
    assert_eq!(after, LexState::InBlockComment);
    let (tokens, after) = kinds("", LexState::InBlockComment, Language::Code);
    assert_eq!(tokens, vec![]);
    assert_eq!(after, LexState::InBlockComment);
    let (tokens, after) = kinds("c */ d", LexState::InBlockComment, Language::Code);
    assert_eq!(
        tokens,
        vec![t(TokenKind::Comment, "c */"), t(TokenKind::Whitespace, " "), t(TokenKind::Identifier, "d")]
    );
    assert_eq!(after, LexState::Normal);
    let (tokens, after) = kinds("/**/x", LexState::Normal, Language::Code);
    assert_eq!(tokens, vec![t(TokenKind::Comment, "/**/"), t(TokenKind::Identifier, "x")]);
    assert_eq!(after, LexState::Normal);
    let (_, after) = kinds("/*/", LexState::Normal, Language::Code);
    assert_eq!(after, LexState::InBlockComment);
}

#[test]
fn string_with_escapes_and_over_lines() {
    let (tokens, after) = kinds("s = \"a\\\"b\" c", LexState::Normal, Language::Code);
    assert_eq!(
        tokens,
        vec![
            t(TokenKind::Identifier, "s"),
            t(TokenKind::Whitespace, " "),
            t(TokenKind::Punctuation, "="),
            t(TokenKind::Whitespace, " "),
            t(TokenKind::String, "\"a\\\"b\""),
            t(TokenKind::Whitespace, " "),
            t(TokenKind::Identifier, "c"),
        ]
    );
    assert_eq!(after, LexState::Normal);
    let (tokens, after) = kinds("\"open", LexState::Normal, Language::Code);
    assert_eq!(tokens, vec![t(TokenKind::String, "\"open")]);
    assert_eq!(after, LexState::InString);
    let (tokens, after) = kinds("end\" x", LexState::InString, Language::Code);
    assert_eq!(
        tokens,
        vec![t(TokenKind::String, "end\""), t(TokenKind::Whitespace, " "), t(TokenKind::Identifier, "x")]
    );
    assert_eq!(after, LexState::Normal);
    let (_, after) = kinds("\"a\\", LexState::Normal, Language::Code);
    assert_eq!(after, LexState::InString);
}

#[test]
fn unknown_characters_get_a_token_of_their_own() {
    let (tokens, _) = kinds("a\u{1}\u{2}b", LexState::Normal, Language::Code);
    assert_eq!(
        tokens,
        vec![
            t(TokenKind::Identifier, "a"),
            t(TokenKind::Unknown, "\u{1}"),
            t(TokenKind::Unknown, "\u{2}"),
            t(TokenKind::Identifier, "b"),
        ]
    );
}

#[test]
fn words_numbers_and_letters_beyond_ascii() {
    let (tokens, _) = kinds("größe_2 0x1F 1.5", LexState::Normal, Language::Code);
    assert_eq!(
        tokens,
        vec![
            t(TokenKind::Identifier, "größe_2"),
            t(TokenKind::Whitespace, " "),
            t(TokenKind::Number, "0x1F"),
            t(TokenKind::Whitespace, " "),
            t(TokenKind::Number, "1"),
            t(TokenKind::Punctuation, "."),
            t(TokenKind::Number, "5"),
        ]
    );
}

#[test]
fn every_keyword_is_a_keyword() {
    for word in [
        "break", "const", "continue", "else", "enum", "false", "fn", "for", "if", "impl", "let",
        "loop", "match", "mod", "mut", "pub", "return", "struct", "trait", "true", "type", "use",
        "where", "while",
    ] {
        let (tokens, _) = kinds(word, LexState::Normal, Language::Code);
        assert_eq!(tokens, vec![t(TokenKind::Keyword, word)]);
        let longer = format!("{}s", word);
        let (tokens, _) = kinds(&longer, LexState::Normal, Language::Code);
        assert_eq!(tokens, vec![t(TokenKind::Identifier, &longer)]);
    }
    let line = chars_of("xlet ");
    assert!(is_keyword_at(&line, 1, 4));
    assert!(!is_keyword_at(&line, 0, 4));
    assert!(spells(&line, 1, 4, "let"));
    assert!(!spells(&line, 1, 4, "le"));
    assert!(!spells(&line, 1, 4, "lot"));
}

#[test]
fn tokens_cover_every_line() {
    let lines = [
        "",
        " ",
        "fn main() { /* a */ let s = \"x\\n\"; }",
        "\t\u{7f}\u{0}éé--",
        "/* open",
        "\"open \\",
        "a*/b",
    ];
    for lang in [Language::Plain, Language::Code] {
        for state in [LexState::Normal, LexState::InBlockComment, LexState::InString] {
            for text in lines {
                let line = chars_of(text);
                let (tokens, _) = tokenize_line(&line, state, lang);
                assert_partition(&tokens, line.len());
            }
        }
    }
}

#[test]
fn tokenizing_twice_gives_the_same() {
    let line = chars_of("let s = \"a /* b\"; /* c");
    for state in [LexState::Normal, LexState::InBlockComment, LexState::InString] {
        let first = tokenize_line(&line, state, Language::Code);
        let second = tokenize_line(&line, state, Language::Code);
        assert_eq!(first, second);
    }
}

#[test]
fn scanners_find_ends() {
    let line = chars_of("ab  cd*/e\"f");
    assert_eq!(scan_run(&line, 0, CharClass::Word), 2);
    assert_eq!(scan_run(&line, 2, CharClass::Space), 4);
    assert_eq!(scan_run(&line, 2, CharClass::Word), 2);
    assert_eq!(scan_run(&line, 12, CharClass::Word), 12);
    assert_eq!(find_comment_close(&line, 0), Some(8));
    assert_eq!(find_comment_close(&line, 7), None);
    assert_eq!(find_string_close(&line, 0), Some(10));
    assert_eq!(find_string_close(&line, 10), None);
    assert_eq!(
        scan_token(&line, 4, LexState::Normal, Language::Code),
        (TokenKind::Identifier, 6, LexState::Normal)
    );
    assert_eq!(
        scan_token(&line, 4, LexState::InBlockComment, Language::Code),
        (TokenKind::Comment, 8, LexState::Normal)
    );
}

fn cache_of(t: &Tokenizer) -> Vec<(Vec<Token>, LexState)> {
    (0..t.line_count())
        .map(|i| (t.tokens(i).clone(), t.state_after(i)))
        .collect()
}

fn edit_and_update(
    source: &str,
    range: Range,
    text: &str,
) -> (Vec<(Vec<Token>, LexState)>, Vec<(Vec<Token>, LexState)>, usize) {
    let mut buffer = TextBuffer::from_str(source);
    let mut tokenizer = Tokenizer::new(Language::Code, &buffer);
    let inverse = buffer.replace(range, &Text::from_str(text)).unwrap();
    let end = tokenizer.update(&buffer, range.start.line, range.end.line, inverse.range.end.line);
    let fresh = Tokenizer::new(Language::Code, &buffer);
    (cache_of(&tokenizer), cache_of(&fresh), end)
}

fn r(a: (usize, usize), b: (usize, usize)) -> Range {
    Range::new(Position::new(a.0, a.1), Position::new(b.0, b.1))
}

#[test]
fn update_stops_where_the_state_is_as_before() {
    let source = "let a = 1;\nlet b = 2;\nlet c = 3;\nlet d = 4;";
    let (cache, fresh, end) = edit_and_update(source, r((1, 4), (1, 5)), "bb");
    assert_eq!(cache, fresh);
    assert_eq!(end, 2);
}

#[test]
fn update_goes_on_while_the_state_differs() {
    let source = "let a = 1;\nlet b = 2;\nlet c = 3; */ x\nlet d = 4;";
    let (cache, fresh, end) = edit_and_update(source, r((0, 0), (0, 0)), "/* ");
    assert_eq!(cache, fresh);
    assert_eq!(end, 3);
    assert_eq!(cache[1].1, LexState::InBlockComment);
    assert_eq!(cache[2].1, LexState::Normal);
    let source = "a\nb\nc";
    let (cache, fresh, end) = edit_and_update(source, r((0, 1), (0, 1)), " /*");
    assert_eq!(cache, fresh);
    assert_eq!(end, 3);
    assert_eq!(cache[2].1, LexState::InBlockComment);
}

#[test]
fn update_follows_lines_that_come_and_go() {
    let source = "one\ntwo /* x\nthree */\nfour\nfive";
    let (cache, fresh, end) = edit_and_update(source, r((0, 1), (3, 2)), "A\nB");
    assert_eq!(cache, fresh);
    assert_eq!(end, 2);
    let (cache, fresh, end) = edit_and_update(source, r((1, 0), (1, 0)), "a\nb\nc\n");
    assert_eq!(cache, fresh);
    assert_eq!(end, 5);
    let (cache, fresh, _) = edit_and_update(source, r((1, 4), (1, 6)), "");
    assert_eq!(cache, fresh);
    assert_eq!(cache[2].1, LexState::Normal);
    let (cache, fresh, _) = edit_and_update(source, r((0, 0), (4, 4)), "");
    assert_eq!(cache, fresh);
    assert_eq!(cache.len(), 1);
}

#[test]
fn tokenizer_holds_every_line() {
    let buffer = TextBuffer::from_str("/* a\nb */ c\n\"d");
    let tokenizer = Tokenizer::new(Language::Code, &buffer);
    assert_eq!(tokenizer.lang(), Language::Code);
    assert_eq!(tokenizer.line_count(), 3);
    assert_eq!(tokenizer.state_after(0), LexState::InBlockComment);
    assert_eq!(tokenizer.state_after(1), LexState::Normal);
    assert_eq!(tokenizer.state_after(2), LexState::InString);
    assert_eq!(
        tokenizer.tokens(1),
        &vec![
            Token { kind: TokenKind::Comment, start: 0, end: 4 },
            Token { kind: TokenKind::Whitespace, start: 4, end: 5 },
            Token { kind: TokenKind::Identifier, start: 5, end: 6 },
        ]
    );
}
