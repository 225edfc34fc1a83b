//! The tokenizer: splits one line into tokens, given the state that the
//! lines before it left, and says which state this line leaves.

use vstd::prelude::*;
use vstd::string::StrSliceExecFns;
use crate::token::{Token, TokenKind, partitions, joined, token_rows, copy_tokens};
use crate::buffer::TextBuffer;

verus! {

/// The grammar by which a document is tokenized.
#[derive(Clone, Copy, Debug, PartialEq, Eq, Structural, Hash)]
pub enum Language {
    /// Words, numbers, white space and punctuation.
    Plain,
    /// Source code: also keywords, line comments, block comments and
    /// strings, of which the last two may run over several lines.
    Code,
}

/// What a line leaves open for the next one.
#[derive(Clone, Copy, Debug, PartialEq, Eq, Structural, Hash)]
pub enum LexState {
    Normal,
    InBlockComment,
    InString,
}

/// A class of characters that a token is a run of.
#[derive(Clone, Copy, Debug, PartialEq, Eq, Structural)]
pub enum CharClass {
    Space,
    Word,
}

pub open spec fn is_space(c: char) -> bool {
    c == ' ' || c == '\t' || c == '\r' || c == '\u{b}' || c == '\u{c}'
}

pub open spec fn is_digit(c: char) -> bool {
    '0' <= c <= '9'
}

pub open spec fn is_word_start(c: char) -> bool {
    ('a' <= c <= 'z') || ('A' <= c <= 'Z') || c == '_' || c > '\u{7f}'
}

pub open spec fn is_word(c: char) -> bool {
    is_word_start(c) || is_digit(c)
}

pub open spec fn is_punct(c: char) -> bool {
    !is_word(c) && (('!' <= c <= '/') || (':' <= c <= '@') || ('[' <= c <= '`') || ('{' <= c
        <= '~'))
}

pub open spec fn in_class(c: char, class: CharClass) -> bool {
    match class {
        CharClass::Space => is_space(c),
        CharClass::Word => is_word(c),
    }
}

/// Where the run of characters of `class` that begins at `from` ends.
pub open spec fn run_end(line: Seq<char>, from: int, class: CharClass) -> int
    decreases line.len() - from,
{
    if 0 <= from < line.len() && in_class(line[from], class) {
        run_end(line, from + 1, class)
    } else {
        from
    }
}

/// The place behind the first `*/` at or after `from`, or -1 if there is
/// none.
pub open spec fn comment_close(line: Seq<char>, from: int) -> int
    decreases line.len() - from,
{
    if from < 0 || from + 1 >= line.len() {
        -1
    } else if line[from] == '*' && line[from + 1] == '/' {
        from + 2
    } else {
        comment_close(line, from + 1)
    }
}

/// The place behind the first double quote at or after `from` that no
/// backslash escapes, or -1 if there is none.
pub open spec fn string_close(line: Seq<char>, from: int) -> int
    decreases line.len() - from,
{
    if from < 0 || from >= line.len() {
        -1
    } else if line[from] == '"' {
        from + 1
    } else if line[from] == '\\' {
        if from + 1 >= line.len() {
            -1
        } else {
            string_close(line, from + 2)
        }
    } else {
        string_close(line, from + 1)
    }
}

pub open spec fn is_keyword(word: Seq<char>) -> bool {
    ||| word == "break"@
    ||| word == "const"@
    ||| word == "continue"@
    ||| word == "else"@
    ||| word == "enum"@
    ||| word == "false"@
    ||| word == "fn"@
    ||| word == "for"@
    ||| word == "if"@
    ||| word == "impl"@
    ||| word == "let"@
    ||| word == "loop"@
    ||| word == "match"@
    ||| word == "mod"@
    ||| word == "mut"@
    ||| word == "pub"@
    ||| word == "return"@
    ||| word == "struct"@
    ||| word == "trait"@
    ||| word == "true"@
    ||| word == "type"@
    ||| word == "use"@
    ||| word == "where"@
    ||| word == "while"@
}

/// A token, by its kind and its end, and the state behind it.
pub struct Scan {
    pub kind: TokenKind,
    pub end: int,
    pub state: LexState,
}

/// The rest of a block comment that is open at `from`.
pub open spec fn comment_tail(line: Seq<char>, from: int) -> Scan {
    let close = comment_close(line, from);
    if close < 0 {
        Scan { kind: TokenKind::Comment, end: line.len() as int, state: LexState::InBlockComment }
    } else {
        Scan { kind: TokenKind::Comment, end: close, state: LexState::Normal }
    }
}

/// The rest of a string that is open at `from`.
pub open spec fn string_tail(line: Seq<char>, from: int) -> Scan {
    let close = string_close(line, from);
    if close < 0 {
        Scan { kind: TokenKind::String, end: line.len() as int, state: LexState::InString }
    } else {
        Scan { kind: TokenKind::String, end: close, state: LexState::Normal }
    }
}

/// The token that begins at `pos` where nothing is open.
pub open spec fn scan_normal(line: Seq<char>, pos: int, lang: Language) -> Scan {
    let c = line[pos];
    let code = lang == Language::Code;
    if is_space(c) {
        Scan {
            kind: TokenKind::Whitespace,
            end: run_end(line, pos + 1, CharClass::Space),
            state: LexState::Normal,
        }
    } else if is_word_start(c) {
        let end = run_end(line, pos + 1, CharClass::Word);
        Scan {
            kind: if code && is_keyword(line.subrange(pos, end)) {
                TokenKind::Keyword
            } else {
                TokenKind::Identifier
            },
            end,
            state: LexState::Normal,
        }
    } else if is_digit(c) {
        Scan {
            kind: TokenKind::Number,
            end: run_end(line, pos + 1, CharClass::Word),
            state: LexState::Normal,
        }
    } else if code && c == '/' && pos + 1 < line.len() && line[pos + 1] == '/' {
        Scan { kind: TokenKind::Comment, end: line.len() as int, state: LexState::Normal }
    } else if code && c == '/' && pos + 1 < line.len() && line[pos + 1] == '*' {
        comment_tail(line, pos + 2)
    } else if code && c == '"' {
        string_tail(line, pos + 1)
    } else if is_punct(c) {
        Scan { kind: TokenKind::Punctuation, end: pos + 1, state: LexState::Normal }
    } else {
        Scan { kind: TokenKind::Unknown, end: pos + 1, state: LexState::Normal }
    }
}

/// The token that begins at `pos` in the given state.
#[verifier::opaque]
pub open spec fn scan(line: Seq<char>, pos: int, state: LexState, lang: Language) -> Scan {
    if lang == Language::Code && state == LexState::InBlockComment {
        comment_tail(line, pos)
    } else if lang == Language::Code && state == LexState::InString {
        string_tail(line, pos)
    } else {
        scan_normal(line, pos, lang)
    }
}

/// The tokens of a line from `pos` on, and the state that the line leaves.
pub open spec fn lex_from(line: Seq<char>, pos: int, state: LexState, lang: Language) -> (
    Seq<Token>,
    LexState,
)
    decreases line.len() - pos,
{
    if pos < 0 || pos >= line.len() {
        (Seq::<Token>::empty(), state)
    } else {
        let next = scan(line, pos, state, lang);
        if pos < next.end <= line.len() {
            let rest = lex_from(line, next.end, next.state, lang);
            (
                seq![Token { kind: next.kind, start: pos as usize, end: next.end as usize }]
                    + rest.0,
                rest.1,
            )
        } else {
            (Seq::<Token>::empty(), state)
        }
    }
}

/// The tokens of a line, and the state that it leaves, given the state
/// that the lines before it left.
pub open spec fn lex_line(line: Seq<char>, state: LexState, lang: Language) -> (
    Seq<Token>,
    LexState,
) {
    lex_from(line, 0, state, lang)
}

/// Tokenizing is a function of the line's characters, the state before
/// it and the language: the same of each gives the same tokens and the
/// same state.
pub proof fn lemma_lex_deterministic(
    a: Seq<char>,
    b: Seq<char>,
    before_a: LexState,
    before_b: LexState,
    lang: Language,
)
    requires
        a.len() == b.len(),
        forall|i: int| 0 <= i < a.len() ==> a[i] == b[i],
        before_a == before_b,
    ensures
        lex_line(a, before_a, lang).0 == lex_line(b, before_b, lang).0,
        lex_line(a, before_a, lang).1 == lex_line(b, before_b, lang).1,
{
    assert(a =~= b);
}

pub proof fn lemma_run_end_bounds(line: Seq<char>, from: int, class: CharClass)
    requires
        0 <= from <= line.len(),
    ensures
        from <= run_end(line, from, class) <= line.len(),
    decreases line.len() - from,
{
    if from < line.len() && in_class(line[from], class) {
        lemma_run_end_bounds(line, from + 1, class);
    }
}

pub proof fn lemma_comment_close_bounds(line: Seq<char>, from: int)
    requires
        0 <= from,
    ensures
        comment_close(line, from) == -1 || from + 2 <= comment_close(line, from) <= line.len(),
    decreases line.len() - from,
{
    if from + 1 < line.len() && !(line[from] == '*' && line[from + 1] == '/') {
        lemma_comment_close_bounds(line, from + 1);
    }
}

pub proof fn lemma_string_close_bounds(line: Seq<char>, from: int)
    requires
        0 <= from,
    ensures
        string_close(line, from) == -1 || from + 1 <= string_close(line, from) <= line.len(),
    decreases line.len() - from,
{
    if from < line.len() && line[from] != '"' {
        if line[from] == '\\' {
            if from + 1 < line.len() {
                lemma_string_close_bounds(line, from + 2);
            }
        } else {
            lemma_string_close_bounds(line, from + 1);
        }
    }
}

/// Every token holds at least one character and ends in its line.
pub proof fn lemma_scan_bounds(line: Seq<char>, pos: int, state: LexState, lang: Language)
    requires
        0 <= pos < line.len(),
    ensures
        pos < scan(line, pos, state, lang).end <= line.len(),
{
    reveal(scan);
    lemma_run_end_bounds(line, pos + 1, CharClass::Space);
    lemma_run_end_bounds(line, pos + 1, CharClass::Word);
    lemma_comment_close_bounds(line, pos);
    lemma_comment_close_bounds(line, pos + 2);
    lemma_string_close_bounds(line, pos);
    lemma_string_close_bounds(line, pos + 1);
}

/// The tokens from `pos` on cover the rest of the line exactly.
pub proof fn lemma_lex_partitions(line: Seq<char>, pos: int, state: LexState, lang: Language)
    requires
        0 <= pos <= line.len(),
        line.len() <= usize::MAX,
    ensures
        partitions(lex_from(line, pos, state, lang).0, pos, line.len() as int),
    decreases line.len() - pos,
{
    if pos < line.len() {
        lemma_scan_bounds(line, pos, state, lang);
        let next = scan(line, pos, state, lang);
        lemma_lex_partitions(line, next.end, next.state, lang);
        let rest = lex_from(line, next.end, next.state, lang).0;
        let first = Token { kind: next.kind, start: pos as usize, end: next.end as usize };
        let all = lex_from(line, pos, state, lang).0;
        assert(all == seq![first] + rest);
        assert(all[0] == first);
        assert forall|i: int| 0 <= i < all.len() implies (#[trigger] all[i]).start < all[i].end by {
            if i > 0 {
                assert(all[i] == rest[i - 1]);
            }
        }
        assert forall|i: int| 0 <= i < all.len() - 1 implies #[trigger] joined(all, i) by {
            assert(all[i + 1] == rest[i]);
            if i > 0 {
                assert(all[i] == rest[i - 1]);
                assert(joined(rest, i - 1));
            }
        }
        if rest.len() > 0 {
            assert(all.last() == rest.last());
        }
    }
}

pub fn is_space_char(c: char) -> (b: bool)
    ensures
        b == is_space(c),
{
    c == ' ' || c == '\t' || c == '\r' || c == '\u{b}' || c == '\u{c}'
}

pub fn is_digit_char(c: char) -> (b: bool)
    ensures
        b == is_digit(c),
{
    '0' <= c && c <= '9'
}

pub fn is_word_start_char(c: char) -> (b: bool)
    ensures
        b == is_word_start(c),
{
    ('a' <= c && c <= 'z') || ('A' <= c && c <= 'Z') || c == '_' || c > '\u{7f}'
}

pub fn is_word_char(c: char) -> (b: bool)
    ensures
        b == is_word(c),
{
    is_word_start_char(c) || is_digit_char(c)
}

pub fn is_punct_char(c: char) -> (b: bool)
    ensures
        b == is_punct(c),
{
    !is_word_char(c) && (('!' <= c && c <= '/') || (':' <= c && c <= '@') || ('[' <= c && c <= '`')
        || ('{' <= c && c <= '~'))
}

pub fn is_in_class(c: char, class: CharClass) -> (b: bool)
    ensures
        b == in_class(c, class),
{
    match class {
        CharClass::Space => is_space_char(c),
        CharClass::Word => is_word_char(c),
    }
}

/// Where the run of characters of `class` that begins at `from` ends.
pub fn scan_run(line: &Vec<char>, from: usize, class: CharClass) -> (end: usize)
    requires
        from <= line@.len(),
    ensures
        end == run_end(line@, from as int, class),
        from <= end <= line@.len(),
{
    let mut i: usize = from;
    while i < line.len() && is_in_class(line[i], class)
        invariant
            from <= i <= line@.len(),
            run_end(line@, i as int, class) == run_end(line@, from as int, class),
        decreases line@.len() - i,
    {
        i += 1;
    }
    i
}

/// The place behind the first `*/` at or after `from`.
pub fn find_comment_close(line: &Vec<char>, from: usize) -> (res: Option<usize>)
    requires
        from <= line@.len(),
    ensures
        res is None <==> comment_close(line@, from as int) == -1,
        res is Some ==> res->0 == comment_close(line@, from as int),
        res is Some ==> from + 2 <= res->0 <= line@.len(),
{
    let mut i: usize = from;
    proof {
        lemma_comment_close_bounds(line@, from as int);
    }
    while i < line.len() && i + 1 < line.len()
        invariant
            from <= i <= line@.len(),
            comment_close(line@, i as int) == comment_close(line@, from as int),
        decreases line@.len() - i,
    {
        if line[i] == '*' && line[i + 1] == '/' {
            return Some(i + 2);
        }
        i += 1;
    }
    None
}

/// The place behind the first double quote at or after `from` that no
/// backslash escapes.
pub fn find_string_close(line: &Vec<char>, from: usize) -> (res: Option<usize>)
    requires
        from <= line@.len(),
    ensures
        res is None <==> string_close(line@, from as int) == -1,
        res is Some ==> res->0 == string_close(line@, from as int),
        res is Some ==> from + 1 <= res->0 <= line@.len(),
{
    let mut i: usize = from;
    proof {
        lemma_string_close_bounds(line@, from as int);
    }
    while i < line.len()
        invariant
            from <= i,
            string_close(line@, i as int) == string_close(line@, from as int),
        decreases line@.len() - i,
    {
        if line[i] == '"' {
            return Some(i + 1);
        }
        if line[i] == '\\' {
            if i + 1 >= line.len() {
                return None;
            }
            i += 2;
        } else {
            i += 1;
        }
    }
    None
}

/// Whether the characters of `line` from `start` up to `end` spell `word`.
pub fn spells(line: &Vec<char>, start: usize, end: usize, word: &str) -> (b: bool)
    requires
        start <= end <= line@.len(),
    ensures
        b == (line@.subrange(start as int, end as int) == word@),
{
    let n = word.unicode_len();
    if end - start != n {
        return false;
    }
    let mut i: usize = 0;
    while i < n
        invariant
            i <= n,
            n == word@.len(),
            end - start == n,
            start <= end <= line@.len(),
            forall|k: int| 0 <= k < i ==> line@[start + k] == word@[k],
        decreases n - i,
    {
        if line[start + i] != word.get_char(i) {
            assert(line@.subrange(start as int, end as int)[i as int] != word@[i as int]);
            return false;
        }
        i += 1;
    }
    assert(line@.subrange(start as int, end as int) =~= word@);
    true
}

/// Whether the characters of `line` from `start` up to `end` spell a
/// keyword.
pub fn is_keyword_at(line: &Vec<char>, start: usize, end: usize) -> (b: bool)
    requires
        start <= end <= line@.len(),
    ensures
        b == is_keyword(line@.subrange(start as int, end as int)),
{
    spells(line, start, end, "break") || spells(line, start, end, "const") || spells(
        line,
        start,
        end,
        "continue",
    ) || spells(line, start, end, "else") || spells(line, start, end, "enum") || spells(
        line,
        start,
        end,
        "false",
    ) || spells(line, start, end, "fn") || spells(line, start, end, "for") || spells(
        line,
        start,
        end,
        "if",
    ) || spells(line, start, end, "impl") || spells(line, start, end, "let") || spells(
        line,
        start,
        end,
        "loop",
    ) || spells(line, start, end, "match") || spells(line, start, end, "mod") || spells(
        line,
        start,
        end,
        "mut",
    ) || spells(line, start, end, "pub") || spells(line, start, end, "return") || spells(
        line,
        start,
        end,
        "struct",
    ) || spells(line, start, end, "trait") || spells(line, start, end, "true") || spells(
        line,
        start,
        end,
        "type",
    ) || spells(line, start, end, "use") || spells(line, start, end, "where") || spells(
        line,
        start,
        end,
        "while",
    )
}

/// The rest of a block comment that is open at `from`: its end, and the
/// state behind it.
pub fn scan_comment_tail(line: &Vec<char>, from: usize) -> (res: (TokenKind, usize, LexState))
    requires
        from <= line@.len(),
    ensures
        res.0 == comment_tail(line@, from as int).kind,
        res.1 == comment_tail(line@, from as int).end,
        res.2 == comment_tail(line@, from as int).state,
{
    match find_comment_close(line, from) {
        Some(end) => (TokenKind::Comment, end, LexState::Normal),
        None => (TokenKind::Comment, line.len(), LexState::InBlockComment),
    }
}

/// The rest of a string that is open at `from`: its end, and the state
/// behind it.
pub fn scan_string_tail(line: &Vec<char>, from: usize) -> (res: (TokenKind, usize, LexState))
    requires
        from <= line@.len(),
    ensures
        res.0 == string_tail(line@, from as int).kind,
        res.1 == string_tail(line@, from as int).end,
        res.2 == string_tail(line@, from as int).state,
{
    match find_string_close(line, from) {
        Some(end) => (TokenKind::String, end, LexState::Normal),
        None => (TokenKind::String, line.len(), LexState::InString),
    }
}

/// The token that begins at `pos` in the given state: its kind, its end,
/// and the state behind it.
pub fn scan_token(line: &Vec<char>, pos: usize, state: LexState, lang: Language) -> (res: (
    TokenKind,
    usize,
    LexState,
))
    requires
        pos < line@.len(),
    ensures
        res.0 == scan(line@, pos as int, state, lang).kind,
        res.1 == scan(line@, pos as int, state, lang).end,
        res.2 == scan(line@, pos as int, state, lang).state,
        pos < res.1 <= line@.len(),
{
    proof {
        reveal(scan);
        lemma_scan_bounds(line@, pos as int, state, lang);
    }
    let code = lang == Language::Code;
    assert(pos < line.len());
    if code && state == LexState::InBlockComment {
        return scan_comment_tail(line, pos);
    }
    if code && state == LexState::InString {
        return scan_string_tail(line, pos);
    }
    let c = line[pos];
    if is_space_char(c) {
        (TokenKind::Whitespace, scan_run(line, pos + 1, CharClass::Space), LexState::Normal)
    } else if is_word_start_char(c) {
        let end = scan_run(line, pos + 1, CharClass::Word);
        let kind = if code && is_keyword_at(line, pos, end) {
            TokenKind::Keyword
        } else {
            TokenKind::Identifier
        };
        (kind, end, LexState::Normal)
    } else if is_digit_char(c) {
        (TokenKind::Number, scan_run(line, pos + 1, CharClass::Word), LexState::Normal)
    } else if code && c == '/' && pos + 1 < line.len() && line[pos + 1] == '/' {
        (TokenKind::Comment, line.len(), LexState::Normal)
    } else if code && c == '/' && pos + 1 < line.len() && line[pos + 1] == '*' {
        scan_comment_tail(line, pos + 2)
    } else if code && c == '"' {
        scan_string_tail(line, pos + 1)
    } else if is_punct_char(c) {
        (TokenKind::Punctuation, pos + 1, LexState::Normal)
    } else {
        (TokenKind::Unknown, pos + 1, LexState::Normal)
    }
}

/// Splits a line into tokens, given the state that the lines before it
/// left. The tokens cover every character of the line, and the result
/// depends on nothing but the line, the state and the language.
pub fn tokenize_line(line: &Vec<char>, state: LexState, lang: Language) -> (res: (
    Vec<Token>,
    LexState,
))
    ensures
        res.0@ == lex_line(line@, state, lang).0,
        res.1 == lex_line(line@, state, lang).1,
        partitions(res.0@, 0, line@.len() as int),
{
    let mut tokens: Vec<Token> = Vec::new();
    let mut pos: usize = 0;
    let mut cur = state;
    let ghost all = lex_line(line@, state, lang);
    while pos < line.len()
        invariant
            pos <= line@.len(),
            all == lex_line(line@, state, lang),
            tokens@ + lex_from(line@, pos as int, cur, lang).0 == all.0,
            lex_from(line@, pos as int, cur, lang).1 == all.1,
        decreases line@.len() - pos,
    {
        let (kind, end, next) = scan_token(line, pos, cur, lang);
        proof {
            let rest = lex_from(line@, end as int, next, lang).0;
            let first = Token { kind, start: pos, end };
            assert(lex_from(line@, pos as int, cur, lang).0 == seq![first] + rest);
            assert(tokens@.push(first) + rest =~= tokens@ + (seq![first] + rest));
        }
        tokens.push(Token { kind, start: pos, end });
        pos = end;
        cur = next;
    }
    proof {
        assert(tokens@ + Seq::<Token>::empty() =~= tokens@);
        lemma_lex_partitions(line@, 0, state, lang);
    }
    (tokens, cur)
}

/// The state in which line `i` is tokenized: the state that the line
/// before it left, and for the first line the state in which nothing is
/// open.
pub open spec fn state_before(states: Seq<LexState>, i: int) -> LexState {
    if i <= 0 {
        LexState::Normal
    } else {
        states[i - 1]
    }
}

/// Entry `i` of the cache holds what tokenizing `line` gives in the state
/// that entry `i - 1` holds.
pub open spec fn entry_ok(
    tokens: Seq<Seq<Token>>,
    states: Seq<LexState>,
    lang: Language,
    i: int,
    line: Seq<char>,
) -> bool {
    &&& tokens[i] == lex_line(line, state_before(states, i), lang).0
    &&& states[i] == lex_line(line, state_before(states, i), lang).1
}

/// The cache holds, for every line, what tokenizing it gives in the state
/// that the line before it left.
pub open spec fn cache_ok(
    tokens: Seq<Seq<Token>>,
    states: Seq<LexState>,
    lang: Language,
    lines: Seq<Seq<char>>,
) -> bool {
    &&& tokens.len() == lines.len()
    &&& states.len() == lines.len()
    &&& forall|i: int| 0 <= i < lines.len() ==> #[trigger] entry_ok(tokens, states, lang, i, lines[i])
}

/// The state that the lines up to and without line `i` leave, tokenized
/// from the first.
pub open spec fn state_from_start(lines: Seq<Seq<char>>, i: int, lang: Language) -> LexState
    decreases i,
{
    if i <= 0 {
        LexState::Normal
    } else {
        lex_line(lines[i - 1], state_from_start(lines, i - 1, lang), lang).1
    }
}

/// A consistent cache holds for every line what tokenizing the whole text
/// from its first line gives.
pub proof fn lemma_cache_from_start(
    tokens: Seq<Seq<Token>>,
    states: Seq<LexState>,
    lang: Language,
    lines: Seq<Seq<char>>,
    i: int,
)
    requires
        cache_ok(tokens, states, lang, lines),
        0 <= i < lines.len(),
    ensures
        state_before(states, i) == state_from_start(lines, i, lang),
        tokens[i] == lex_line(lines[i], state_from_start(lines, i, lang), lang).0,
        states[i] == state_from_start(lines, i + 1, lang),
    decreases i,
{
    assert(entry_ok(tokens, states, lang, i, lines[i]));
    if i > 0 {
        lemma_cache_from_start(tokens, states, lang, lines, i - 1);
    }
}

/// The tokens of every line of a document and the state that each line
/// leaves, kept up to date line by line.
#[derive(Debug)]
pub struct Tokenizer {
    language: Language,
    tokens: Vec<Vec<Token>>,
    states: Vec<LexState>,
}

impl Tokenizer {
    pub closed spec fn language(&self) -> Language {
        self.language
    }

    /// The cached tokens, line by line.
    pub closed spec fn line_tokens(&self) -> Seq<Seq<Token>> {
        token_rows(self.tokens@)
    }

    /// The cached states: entry `i` is the state that line `i` leaves.
    pub closed spec fn line_states(&self) -> Seq<LexState> {
        self.states@
    }

    /// Whether the cache is right for `lines`.
    pub open spec fn consistent(&self, lines: Seq<Seq<char>>) -> bool {
        cache_ok(self.line_tokens(), self.line_states(), self.language(), lines)
    }

    /// Tokenizes a whole buffer.
    pub fn new(language: Language, buffer: &TextBuffer) -> (t: Tokenizer)
        ensures
            t.language() == language,
            t.consistent(buffer@),
    {
        let mut tokens: Vec<Vec<Token>> = Vec::new();
        let mut states: Vec<LexState> = Vec::new();
        let mut prev = LexState::Normal;
        let mut i: usize = 0;
        while i < buffer.line_count()
            invariant
                i <= buffer@.len(),
                tokens@.len() == i,
                states@.len() == i,
                prev == state_before(states@, i as int),
                forall|k: int|
                    0 <= k < i ==> #[trigger] entry_ok(
                        token_rows(tokens@),
                        states@,
                        language,
                        k,
                        buffer@[k],
                    ),
            decreases buffer@.len() - i,
        {
            let (toks, st) = tokenize_line(buffer.line(i), prev, language);
            let ghost was_tokens = token_rows(tokens@);
            let ghost was_states = states@;
            tokens.push(toks);
            states.push(st);
            proof {
                assert forall|k: int| 0 <= k < i + 1 implies #[trigger] entry_ok(
                    token_rows(tokens@),
                    states@,
                    language,
                    k,
                    buffer@[k],
                ) by {
                    if k < i {
                        assert(entry_ok(was_tokens, was_states, language, k, buffer@[k]));
                        assert(token_rows(tokens@)[k] == was_tokens[k]);
                    }
                }
            }
            prev = st;
            i += 1;
        }
        Tokenizer { language, tokens, states }
    }

    pub fn lang(&self) -> (l: Language)
        ensures
            l == self.language(),
    {
        self.language
    }

    pub fn line_count(&self) -> (n: usize)
        ensures
            n == self.line_tokens().len(),
    {
        self.tokens.len()
    }

    /// The tokens of line `i`.
    pub fn tokens(&self, i: usize) -> (t: &Vec<Token>)
        requires
            i < self.line_tokens().len(),
        ensures
            t@ == self.line_tokens()[i as int],
    {
        &self.tokens[i]
    }

    /// The state that line `i` leaves.
    pub fn state_after(&self, i: usize) -> (s: LexState)
        requires
            i < self.line_states().len(),
        ensures
            s == self.line_states()[i as int],
    {
        self.states[i]
    }

    /// Brings the cache up to date after an edit that replaced the lines
    /// from `first` to `old_last` by the lines from `first` to `new_last`
    /// of `buffer`. Tokenizes the new lines, then goes on line by line for
    /// as long as the state that a line leaves differs from the state that
    /// the cache held at that place, and keeps the entries behind that.
    /// Gives the index behind the last line that was tokenized.
    pub fn update(&mut self, buffer: &TextBuffer, first: usize, old_last: usize, new_last: usize) -> (dirty_end: usize)
        requires
            old(self).line_states().len() == old(self).line_tokens().len(),
            first <= old_last < old(self).line_tokens().len(),
            first <= new_last < buffer@.len(),
            buffer@.len() - new_last == old(self).line_tokens().len() - old_last,
            forall|i: int|
                0 <= i < first ==> #[trigger] entry_ok(
                    old(self).line_tokens(),
                    old(self).line_states(),
                    old(self).language(),
                    i,
                    buffer@[i],
                ),
            forall|j: int|
                old_last < j < old(self).line_tokens().len() ==> #[trigger] entry_ok(
                    old(self).line_tokens(),
                    old(self).line_states(),
                    old(self).language(),
                    j,
                    buffer@[j - old_last + new_last],
                ),
        ensures
            final(self).language() == old(self).language(),
            final(self).consistent(buffer@),
            new_last < dirty_end <= buffer@.len(),
            forall|i: int|
                0 <= i < first ==> final(self).line_tokens()[i] == old(self).line_tokens()[i],
            forall|i: int|
                dirty_end <= i < buffer@.len() ==> final(self).line_tokens()[i] == old(
                    self,
                ).line_tokens()[i - new_last + old_last],
            forall|k: int|
                new_last <= k < dirty_end - 1 ==> #[trigger] final(self).line_states()[k] != old(
                    self,
                ).line_states()[k - new_last + old_last],
            dirty_end < buffer@.len() ==> final(self).line_states()[dirty_end - 1] == old(
                self,
            ).line_states()[dirty_end - 1 - new_last + old_last],
    {
        let ghost old_tokens = self.line_tokens();
        let ghost old_states = self.line_states();
        let ghost lines = buffer@;
        let lang = self.language;
        let old_len = self.tokens.len();
        let total = buffer.line_count();
        let mut expected = self.states[old_last];
        let mut tail_tokens = self.tokens.split_off(old_last + 1);
        let mut tail_states = self.states.split_off(old_last + 1);
        self.tokens.truncate(first);
        self.states.truncate(first);
        let mut prev = if first == 0 {
            LexState::Normal
        } else {
            self.states[first - 1]
        };
        let mut i: usize = first;
        proof {
            assert forall|k: int| 0 <= k < first implies #[trigger] entry_ok(
                token_rows(self.tokens@),
                self.states@,
                lang,
                k,
                lines[k],
            ) by {
                assert(entry_ok(old_tokens, old_states, lang, k, lines[k]));
                assert(token_rows(self.tokens@)[k] == old_tokens[k]);
            }
        }
        while i <= new_last
            invariant
                first <= i <= new_last + 1,
                first <= old_tokens.len(),
                first <= old_states.len(),
                new_last < total,
                total == lines.len(),
                lines == buffer@,
                self.language == lang,
                self.tokens@.len() == i,
                self.states@.len() == i,
                prev == state_before(self.states@, i as int),
                forall|k: int|
                    0 <= k < first ==> token_rows(self.tokens@)[k] == old_tokens[k]
                        && self.states@[k] == old_states[k],
                forall|k: int|
                    0 <= k < i ==> #[trigger] entry_ok(
                        token_rows(self.tokens@),
                        self.states@,
                        lang,
                        k,
                        lines[k],
                    ),
            decreases new_last + 1 - i,
        {
            let (toks, st) = tokenize_line(buffer.line(i), prev, lang);
            let ghost was_tokens = token_rows(self.tokens@);
            let ghost was_states = self.states@;
            self.tokens.push(toks);
            self.states.push(st);
            proof {
                assert forall|k: int| 0 <= k < i + 1 implies #[trigger] entry_ok(
                    token_rows(self.tokens@),
                    self.states@,
                    lang,
                    k,
                    lines[k],
                ) by {
                    if k < i {
                        assert(entry_ok(was_tokens, was_states, lang, k, lines[k]));
                        assert(token_rows(self.tokens@)[k] == was_tokens[k]);
                    }
                }
            }
            prev = st;
            i += 1;
        }
        let mut t: usize = 0;
        while t < tail_states.len() && prev != expected
            invariant
                i == new_last + 1 + t,
                t <= tail_states@.len(),
                tail_states@.len() == total - new_last - 1,
                tail_states@ == old_states.subrange(old_last + 1, old_len as int),
                old_states.len() == old_len,
                old_tokens.len() == old_len,
                first <= old_last < old_len,
                first <= new_last,
                new_last < total,
                total == lines.len(),
                lines == buffer@,
                self.language == lang,
                self.tokens@.len() == i,
                self.states@.len() == i,
                prev == state_before(self.states@, i as int),
                expected == old_states[old_last + t],
                forall|k: int|
                    0 <= k < first ==> token_rows(self.tokens@)[k] == old_tokens[k]
                        && self.states@[k] == old_states[k],
                forall|k: int|
                    0 <= k < i ==> #[trigger] entry_ok(
                        token_rows(self.tokens@),
                        self.states@,
                        lang,
                        k,
                        lines[k],
                    ),
                forall|k: int|
                    new_last <= k < new_last + t ==> #[trigger] self.states@[k] != old_states[k
                        - new_last + old_last],
            decreases tail_states@.len() - t,
        {
            let (toks, st) = tokenize_line(buffer.line(i), prev, lang);
            let ghost was_tokens = token_rows(self.tokens@);
            let ghost was_states = self.states@;
            expected = tail_states[t];
            self.tokens.push(toks);
            self.states.push(st);
            proof {
                assert forall|k: int| 0 <= k < i + 1 implies #[trigger] entry_ok(
                    token_rows(self.tokens@),
                    self.states@,
                    lang,
                    k,
                    lines[k],
                ) by {
                    if k < i {
                        assert(entry_ok(was_tokens, was_states, lang, k, lines[k]));
                        assert(token_rows(self.tokens@)[k] == was_tokens[k]);
                    }
                }
                assert forall|k: int| new_last <= k < new_last + t + 1 implies #[trigger] self.states@[k]
                    != old_states[k - new_last + old_last] by {
                    if k < new_last + t {
                        assert(self.states@[k] == was_states[k]);
                    }
                }
            }
            prev = st;
            t += 1;
            i += 1;
        }
        let ghost done_tokens = token_rows(self.tokens@);
        let ghost done_states = self.states@;
        let ghost tail_tokens_all = token_rows(tail_tokens@);
        let ghost tail_states_all = tail_states@;
        assert(tail_tokens_all =~= old_tokens.subrange(old_last + 1, old_len as int));
        let mut rest_tokens = tail_tokens.split_off(t);
        let mut rest_states = tail_states.split_off(t);
        self.tokens.append(&mut rest_tokens);
        self.states.append(&mut rest_states);
        proof {
            let fin_tokens = token_rows(self.tokens@);
            let fin_states = self.states@;
            assert(fin_tokens.len() == total);
            assert forall|k: int| 0 <= k < total implies #[trigger] entry_ok(
                fin_tokens,
                fin_states,
                lang,
                k,
                lines[k],
            ) by {
                if k < i {
                    assert(entry_ok(done_tokens, done_states, lang, k, lines[k]));
                    assert(fin_tokens[k] == done_tokens[k]);
                    assert(fin_states[k] == done_states[k]);
                } else {
                    let j = k - new_last + old_last;
                    assert(lines[j - old_last + new_last] == lines[k]);
                    assert(entry_ok(
                        old(self).line_tokens(),
                        old(self).line_states(),
                        old(self).language(),
                        j,
                        buffer@[j - old_last + new_last],
                    ));
                    assert(fin_tokens[k] == old_tokens[j]);
                    assert(fin_states[k] == old_states[j]);
                    if k > i {
                        assert(fin_states[k - 1] == old_states[j - 1]);
                    } else {
                        assert(fin_states[k - 1] == prev);
                        assert(prev == expected);
                    }
                }
            }
            assert forall|k: int| i <= k < total implies fin_tokens[k] == old_tokens[k - new_last
                + old_last] by {}
            assert forall|k: int| 0 <= k < first implies fin_tokens[k] == old_tokens[k] by {
                assert(fin_tokens[k] == done_tokens[k]);
            }
            assert forall|k: int| new_last <= k < i - 1 implies #[trigger] fin_states[k]
                != old_states[k - new_last + old_last] by {
                assert(fin_states[k] == done_states[k]);
            }
        }
        i
    }
}

} // verus!
