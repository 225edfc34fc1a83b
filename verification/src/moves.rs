//! Cursor movement: where a position goes by character, by word, by row,
//! by line, by paragraph and to the ends of the document.

use vstd::prelude::*;
use crate::position::Position;
use crate::buffer::EditError;
use crate::token::{Token, TokenKind, partitions, lemma_partition_ordered};
use crate::tokenizer::{lex_line, state_before, entry_ok, lemma_lex_partitions};
use crate::wrap::{WrapRow, RowKind, chain, lemma_line_rows_chain, lemma_chain_bounds};
use crate::layout::{WrapLayout, rows_ok};
use crate::document::Document;
use crate::selection::Selection;

verus! {

/// One step to the left: to the end of the line before where the position
/// is at the start of its line, and nowhere at the start of the text.
pub open spec fn left_of(p: Position, lines: Seq<Seq<char>>) -> Position {
    if p.offset > 0 {
        Position { line: p.line, offset: (p.offset - 1) as usize }
    } else if p.line > 0 {
        Position { line: (p.line - 1) as usize, offset: lines[p.line - 1].len() as usize }
    } else {
        p
    }
}

/// One step to the right: to the start of the next line where the
/// position is at the end of its line, and nowhere at the end of the text.
pub open spec fn right_of(p: Position, lines: Seq<Seq<char>>) -> Position {
    if p.offset < lines[p.line as int].len() {
        Position { line: p.line, offset: (p.offset + 1) as usize }
    } else if p.line + 1 < lines.len() {
        Position { line: (p.line + 1) as usize, offset: 0 }
    } else {
        p
    }
}

/// The index of the last token that begins at or before `o`, or -1.
pub open spec fn token_index(tokens: Seq<Token>, o: int) -> int
    decreases tokens.len(),
{
    if tokens.len() == 0 {
        -1
    } else if tokens.last().start <= o {
        tokens.len() - 1
    } else {
        token_index(tokens.drop_last(), o)
    }
}

/// Where the word ends that holds or follows the character at `o`: the
/// end of the token that holds the character, and where that is white
/// space with a token behind it, the end of that token.
pub open spec fn word_end(tokens: Seq<Token>, o: int, len: int) -> int {
    let t = token_index(tokens, o);
    if t < 0 {
        len
    } else if tokens[t].kind == TokenKind::Whitespace && t + 1 < tokens.len() {
        tokens[t + 1].end as int
    } else {
        tokens[t].end as int
    }
}

/// Where the word begins that holds or precedes the character before
/// `o`: the start of the token that holds that character, and where that
/// is white space with a token before it, the start of that token.
pub open spec fn word_start(tokens: Seq<Token>, o: int) -> int {
    let t = token_index(tokens, o - 1);
    if t < 0 {
        0
    } else if tokens[t].kind == TokenKind::Whitespace && t > 0 {
        tokens[t - 1].start as int
    } else {
        tokens[t].start as int
    }
}

/// One word to the right; at the end of a line as one step to the right.
pub open spec fn word_right_of(p: Position, lines: Seq<Seq<char>>, tokens: Seq<Seq<Token>>) -> Position {
    if p.offset < lines[p.line as int].len() {
        Position {
            line: p.line,
            offset: word_end(
                tokens[p.line as int],
                p.offset as int,
                lines[p.line as int].len() as int,
            ) as usize,
        }
    } else {
        right_of(p, lines)
    }
}

/// One word to the left; at the start of a line as one step to the left.
pub open spec fn word_left_of(p: Position, lines: Seq<Seq<char>>, tokens: Seq<Seq<Token>>) -> Position {
    if p.offset > 0 {
        Position { line: p.line, offset: word_start(tokens[p.line as int], p.offset as int) as usize }
    } else {
        left_of(p, lines)
    }
}

/// The last empty line before line `n`, or -1.
pub open spec fn blank_before(lines: Seq<Seq<char>>, n: int) -> int
    decreases n,
{
    if n <= 0 {
        -1
    } else if lines[n - 1].len() == 0 {
        n - 1
    } else {
        blank_before(lines, n - 1)
    }
}

/// The first empty line at or behind line `n`, or the number of lines.
pub open spec fn blank_from(lines: Seq<Seq<char>>, n: int) -> int
    decreases lines.len() - n,
{
    if n < 0 || n >= lines.len() {
        lines.len() as int
    } else if lines[n].len() == 0 {
        n
    } else {
        blank_from(lines, n + 1)
    }
}

/// To the last empty line above, or to the start of the text.
pub open spec fn para_up_of(p: Position, lines: Seq<Seq<char>>) -> Position {
    let b = blank_before(lines, p.line as int);
    if b < 0 {
        Position { line: 0, offset: 0 }
    } else {
        Position { line: b as usize, offset: 0 }
    }
}

/// To the first empty line below, or to the end of the text.
pub open spec fn para_down_of(p: Position, lines: Seq<Seq<char>>) -> Position {
    let b = blank_from(lines, p.line + 1);
    if b >= lines.len() {
        Position { line: (lines.len() - 1) as usize, offset: lines.last().len() as usize }
    } else {
        Position { line: b as usize, offset: 0 }
    }
}

/// The last row of text before row `n`, or -1.
pub open spec fn text_row_before(rows: Seq<WrapRow>, n: int) -> int
    decreases n,
{
    if n <= 0 || n > rows.len() {
        -1
    } else if rows[n - 1].kind == RowKind::Text {
        n - 1
    } else {
        text_row_before(rows, n - 1)
    }
}

/// The first row of text at or behind row `n`, or the number of rows.
pub open spec fn text_row_from(rows: Seq<WrapRow>, n: int) -> int
    decreases rows.len() - n,
{
    if n < 0 || n >= rows.len() {
        rows.len() as int
    } else if rows[n].kind == RowKind::Text {
        n
    } else {
        text_row_from(rows, n + 1)
    }
}

/// The last of the first `n` rows that is a row of text and begins at or
/// before offset `o`, or -1.
pub open spec fn row_at(rows: Seq<WrapRow>, n: int, o: int) -> int
    decreases n,
{
    if n <= 0 || n > rows.len() {
        -1
    } else if rows[n - 1].kind == RowKind::Text && rows[n - 1].start <= o {
        n - 1
    } else {
        row_at(rows, n - 1, o)
    }
}

/// The row in which the caret is shown at offset `o`: the last row of
/// text that begins at or before it.
pub open spec fn row_of(rows: Seq<WrapRow>, o: int) -> int {
    row_at(rows, rows.len() as int, o)
}

/// The column of offset `o` in its row.
pub open spec fn column_of(rows: Seq<WrapRow>, o: int) -> int {
    let i = row_of(rows, o);
    if i < 0 {
        o
    } else {
        o - rows[i].start
    }
}

/// The last offset at which the caret is shown in row `j`: the row's end
/// in the last row of text, and one before it in every other.
pub open spec fn last_offset(rows: Seq<WrapRow>, j: int) -> int {
    if text_row_from(rows, j + 1) >= rows.len() {
        rows[j].end as int
    } else if rows[j].end > rows[j].start {
        rows[j].end - 1
    } else {
        rows[j].start as int
    }
}

/// The offset in row `j` that is nearest to column `col`.
pub open spec fn offset_in_row(rows: Seq<WrapRow>, j: int, col: int) -> int {
    if rows[j].start + col < last_offset(rows, j) {
        rows[j].start + col
    } else {
        last_offset(rows, j)
    }
}

/// One row up, aiming for column `col`: into the row of text above in
/// the same line, else into the last row of text of the line above, and
/// nowhere in the first row of the text.
pub open spec fn up_of(p: Position, col: int, rows: Seq<Seq<WrapRow>>) -> Position {
    let here = rows[p.line as int];
    let j = text_row_before(here, row_of(here, p.offset as int));
    if j >= 0 {
        Position { line: p.line, offset: offset_in_row(here, j, col) as usize }
    } else if p.line > 0 {
        let above = rows[p.line - 1];
        let k = text_row_before(above, above.len() as int);
        if k >= 0 {
            Position { line: (p.line - 1) as usize, offset: offset_in_row(above, k, col) as usize }
        } else {
            p
        }
    } else {
        p
    }
}

/// One row down, aiming for column `col`: into the row of text below in
/// the same line, else into the first row of text of the line below, and
/// nowhere in the last row of the text.
pub open spec fn down_of(p: Position, col: int, rows: Seq<Seq<WrapRow>>) -> Position {
    let here = rows[p.line as int];
    let j = text_row_from(here, row_of(here, p.offset as int) + 1);
    if j < here.len() {
        Position { line: p.line, offset: offset_in_row(here, j, col) as usize }
    } else if p.line + 1 < rows.len() {
        let below = rows[p.line + 1];
        let k = text_row_from(below, 0);
        if k < below.len() {
            Position { line: (p.line + 1) as usize, offset: offset_in_row(below, k, col) as usize }
        } else {
            p
        }
    } else {
        p
    }
}

/// `n` rows up, aiming for column `col`.
pub open spec fn up_by(p: Position, col: int, rows: Seq<Seq<WrapRow>>, n: nat) -> Position
    decreases n,
{
    if n == 0 {
        p
    } else {
        up_by(up_of(p, col, rows), col, rows, (n - 1) as nat)
    }
}

/// `n` rows down, aiming for column `col`.
pub open spec fn down_by(p: Position, col: int, rows: Seq<Seq<WrapRow>>, n: nat) -> Position
    decreases n,
{
    if n == 0 {
        p
    } else {
        down_by(down_of(p, col, rows), col, rows, (n - 1) as nat)
    }
}

pub proof fn lemma_token_index(tokens: Seq<Token>, o: int)
    ensures
        -1 <= token_index(tokens, o) < tokens.len(),
        token_index(tokens, o) >= 0 ==> tokens[token_index(tokens, o)].start <= o,
        forall|k: int| token_index(tokens, o) < k < tokens.len() ==> (#[trigger] tokens[k]).start > o,
    decreases tokens.len(),
{
    if tokens.len() > 0 && tokens.last().start > o {
        lemma_token_index(tokens.drop_last(), o);
        assert forall|k: int| token_index(tokens, o) < k < tokens.len() implies (#[trigger] tokens[k]).start
            > o by {
            if k < tokens.len() - 1 {
                assert(tokens.drop_last()[k] == tokens[k]);
            }
        }
    }
}

/// In a line's tokens, the token found for an offset in the line holds
/// the character at that offset.
pub proof fn lemma_token_holds(tokens: Seq<Token>, o: int, len: int)
    requires
        partitions(tokens, 0, len),
        0 <= o < len,
    ensures
        0 <= token_index(tokens, o) < tokens.len(),
        tokens[token_index(tokens, o)].start <= o < tokens[token_index(tokens, o)].end,
{
    lemma_token_index(tokens, o);
    let t = token_index(tokens, o);
    if t < 0 {
        assert(tokens[0].start > o);
    } else if t < tokens.len() - 1 {
        assert(crate::token::joined(tokens, t));
        assert(tokens[t + 1].start > o);
    }
}

pub proof fn lemma_text_row_before(rows: Seq<WrapRow>, n: int)
    ensures
        -1 <= text_row_before(rows, n),
        text_row_before(rows, n) < n || text_row_before(rows, n) == -1,
        text_row_before(rows, n) < rows.len(),
        text_row_before(rows, n) >= 0 ==> rows[text_row_before(rows, n)].kind == RowKind::Text,
    decreases n,
{
    if 0 < n <= rows.len() && rows[n - 1].kind != RowKind::Text {
        lemma_text_row_before(rows, n - 1);
    }
}

pub proof fn lemma_text_row_from(rows: Seq<WrapRow>, n: int)
    ensures
        text_row_from(rows, n) <= rows.len(),
        0 <= n ==> n <= text_row_from(rows, n) || text_row_from(rows, n) == rows.len(),
        0 <= n && text_row_from(rows, n) < rows.len() ==> rows[text_row_from(rows, n)].kind
            == RowKind::Text,
        text_row_from(rows, n) >= 0,
    decreases rows.len() - n,
{
    if 0 <= n < rows.len() && rows[n].kind != RowKind::Text {
        lemma_text_row_from(rows, n + 1);
    }
}

pub proof fn lemma_row_at(rows: Seq<WrapRow>, n: int, o: int)
    ensures
        -1 <= row_at(rows, n, o) < rows.len(),
        row_at(rows, n, o) >= 0 ==> rows[row_at(rows, n, o)].kind == RowKind::Text && rows[row_at(
            rows,
            n,
            o,
        )].start <= o,
    decreases n,
{
    if 0 < n <= rows.len() && !(rows[n - 1].kind == RowKind::Text && rows[n - 1].start <= o) {
        lemma_row_at(rows, n - 1, o);
    }
}

/// The tokens of a document's line cover the line.
pub proof fn lemma_doc_tokens_partition(doc: &Document, line: int)
    requires
        doc.wf(),
        0 <= line < doc.lines().len(),
        doc.lines()[line].len() <= usize::MAX,
    ensures
        partitions(doc.tokens()[line], 0, doc.lines()[line].len() as int),
{
    assert(entry_ok(doc.tokens(), doc.states(), doc.language(), line, doc.lines()[line]));
    lemma_lex_partitions(
        doc.lines()[line],
        0,
        state_before(doc.states(), line),
        doc.language(),
    );
}

/// The rows of a line in a layout of a document lead from the line's
/// start to its end.
pub proof fn lemma_layout_chain(layout: &WrapLayout, doc: &Document, line: int)
    requires
        layout.consistent(doc),
        0 <= line < doc.lines().len(),
        doc.lines()[line].len() <= usize::MAX,
    ensures
        chain(layout.rows()[line], 0, doc.lines()[line].len() as int),
{
    assert(rows_ok(
        layout.rows(),
        layout.width(),
        doc.lines(),
        doc.tokens(),
        doc.inlays(),
        line,
    ));
    lemma_line_rows_chain(
        doc.tokens()[line],
        crate::inlay::insets_on_line(doc.inlays(), line),
        doc.lines()[line].len() as int,
        layout.width() as int,
    );
}

/// The offset chosen in a row lies in the row.
pub proof fn lemma_offset_in_row(rows: Seq<WrapRow>, j: int, col: int, len: int)
    requires
        chain(rows, 0, len),
        0 <= j < rows.len(),
        0 <= col,
    ensures
        rows[j].start <= offset_in_row(rows, j, col) <= rows[j].end,
        0 <= offset_in_row(rows, j, col) <= len,
{
    lemma_chain_bounds(rows, 0, len, j);
}

/// One step to the left.
pub fn move_left(p: Position, doc: &Document) -> (res: Result<Position, EditError>)
    requires
        doc.wf(),
    ensures
        res is Ok <==> p.valid_in(doc.lines()),
        res is Ok ==> res->Ok_0 == left_of(p, doc.lines()) && res->Ok_0.valid_in(doc.lines()),
{
    if !doc.buffer().contains_position(p) {
        return Err(EditError::OutOfBounds);
    }
    if p.offset > 0 {
        Ok(Position { line: p.line, offset: p.offset - 1 })
    } else if p.line > 0 {
        Ok(Position { line: p.line - 1, offset: doc.line(p.line - 1).len() })
    } else {
        Ok(p)
    }
}

/// One step to the right.
pub fn move_right(p: Position, doc: &Document) -> (res: Result<Position, EditError>)
    requires
        doc.wf(),
    ensures
        res is Ok <==> p.valid_in(doc.lines()),
        res is Ok ==> res->Ok_0 == right_of(p, doc.lines()) && res->Ok_0.valid_in(doc.lines()),
{
    if !doc.buffer().contains_position(p) {
        return Err(EditError::OutOfBounds);
    }
    let count = doc.line_count();
    if p.offset < doc.line(p.line).len() {
        Ok(Position { line: p.line, offset: p.offset + 1 })
    } else if p.line + 1 < count {
        Ok(Position { line: p.line + 1, offset: 0 })
    } else {
        Ok(p)
    }
}

/// To the start of the line.
pub fn line_start(p: Position, doc: &Document) -> (res: Result<Position, EditError>)
    requires
        doc.wf(),
    ensures
        res is Ok <==> p.valid_in(doc.lines()),
        res is Ok ==> res->Ok_0 == (Position { line: p.line, offset: 0 }) && res->Ok_0.valid_in(
            doc.lines(),
        ),
{
    if !doc.buffer().contains_position(p) {
        return Err(EditError::OutOfBounds);
    }
    Ok(Position { line: p.line, offset: 0 })
}

/// To the end of the line.
pub fn line_end(p: Position, doc: &Document) -> (res: Result<Position, EditError>)
    requires
        doc.wf(),
    ensures
        res is Ok <==> p.valid_in(doc.lines()),
        res is Ok ==> res->Ok_0 == (Position {
            line: p.line,
            offset: doc.lines()[p.line as int].len() as usize,
        }) && res->Ok_0.valid_in(doc.lines()),
{
    if !doc.buffer().contains_position(p) {
        return Err(EditError::OutOfBounds);
    }
    Ok(Position { line: p.line, offset: doc.line(p.line).len() })
}

/// To the start of the text.
pub fn doc_start(p: Position, doc: &Document) -> (res: Result<Position, EditError>)
    requires
        doc.wf(),
    ensures
        res is Ok <==> p.valid_in(doc.lines()),
        res is Ok ==> res->Ok_0 == (Position { line: 0, offset: 0 }) && res->Ok_0.valid_in(
            doc.lines(),
        ),
{
    if !doc.buffer().contains_position(p) {
        return Err(EditError::OutOfBounds);
    }
    Ok(Position { line: 0, offset: 0 })
}

/// To the end of the text.
pub fn doc_end(p: Position, doc: &Document) -> (res: Result<Position, EditError>)
    requires
        doc.wf(),
    ensures
        res is Ok <==> p.valid_in(doc.lines()),
        res is Ok ==> res->Ok_0 == (Position {
            line: (doc.lines().len() - 1) as usize,
            offset: doc.lines().last().len() as usize,
        }) && res->Ok_0.valid_in(doc.lines()),
{
    if !doc.buffer().contains_position(p) {
        return Err(EditError::OutOfBounds);
    }
    Ok(doc.buffer().end())
}

/// The index of the last token that begins at or before `o`.
pub fn find_token(tokens: &Vec<Token>, o: usize) -> (t: Option<usize>)
    ensures
        t is None <==> token_index(tokens@, o as int) < 0,
        t is Some ==> t->0 == token_index(tokens@, o as int),
{
    let mut n: usize = tokens.len();
    assert(tokens@.subrange(0, n as int) =~= tokens@);
    while n > 0
        invariant
            n <= tokens@.len(),
            token_index(tokens@.subrange(0, n as int), o as int) == token_index(tokens@, o as int),
        decreases n,
    {
        proof {
            let now = tokens@.subrange(0, n as int);
            assert(now.last() == tokens@[n - 1]);
            assert(now.drop_last() =~= tokens@.subrange(0, n - 1));
        }
        if tokens[n - 1].start <= o {
            return Some(n - 1);
        }
        n -= 1;
    }
    None
}

/// One word to the right.
pub fn word_right(p: Position, doc: &Document) -> (res: Result<Position, EditError>)
    requires
        doc.wf(),
    ensures
        res is Ok <==> p.valid_in(doc.lines()),
        res is Ok ==> res->Ok_0 == word_right_of(p, doc.lines(), doc.tokens())
            && res->Ok_0.valid_in(doc.lines()),
{
    if !doc.buffer().contains_position(p) {
        return Err(EditError::OutOfBounds);
    }
    let len = doc.line(p.line).len();
    if p.offset >= len {
        return move_right(p, doc);
    }
    let tokens = doc.line_tokens(p.line);
    proof {
        lemma_doc_tokens_partition(doc, p.line as int);
        lemma_token_holds(tokens@, p.offset as int, len as int);
        let t = token_index(tokens@, p.offset as int);
        lemma_partition_ordered(tokens@, 0, len as int, t, t);
        if t + 1 < tokens@.len() {
            lemma_partition_ordered(tokens@, 0, len as int, t + 1, t + 1);
        }
    }
    let count = tokens.len();
    match find_token(tokens, p.offset) {
        None => Ok(Position { line: p.line, offset: len }),
        Some(t) => {
            let end = if tokens[t].kind == TokenKind::Whitespace && t + 1 < count {
                tokens[t + 1].end
            } else {
                tokens[t].end
            };
            Ok(Position { line: p.line, offset: end })
        },
    }
}

/// One word to the left.
pub fn word_left(p: Position, doc: &Document) -> (res: Result<Position, EditError>)
    requires
        doc.wf(),
    ensures
        res is Ok <==> p.valid_in(doc.lines()),
        res is Ok ==> res->Ok_0 == word_left_of(p, doc.lines(), doc.tokens())
            && res->Ok_0.valid_in(doc.lines()),
{
    if !doc.buffer().contains_position(p) {
        return Err(EditError::OutOfBounds);
    }
    if p.offset == 0 {
        return move_left(p, doc);
    }
    let len = doc.line(p.line).len();
    let tokens = doc.line_tokens(p.line);
    proof {
        lemma_doc_tokens_partition(doc, p.line as int);
        lemma_token_holds(tokens@, p.offset - 1, len as int);
        let t = token_index(tokens@, p.offset - 1);
        lemma_partition_ordered(tokens@, 0, len as int, t, t);
        if t > 0 {
            lemma_partition_ordered(tokens@, 0, len as int, t - 1, t);
        }
    }
    match find_token(tokens, p.offset - 1) {
        None => Ok(Position { line: p.line, offset: 0 }),
        Some(t) => {
            let start = if tokens[t].kind == TokenKind::Whitespace && t > 0 {
                tokens[t - 1].start
            } else {
                tokens[t].start
            };
            Ok(Position { line: p.line, offset: start })
        },
    }
}

/// To the last empty line above, or to the start of the text.
pub fn para_up(p: Position, doc: &Document) -> (res: Result<Position, EditError>)
    requires
        doc.wf(),
    ensures
        res is Ok <==> p.valid_in(doc.lines()),
        res is Ok ==> res->Ok_0 == para_up_of(p, doc.lines()) && res->Ok_0.valid_in(doc.lines()),
{
    if !doc.buffer().contains_position(p) {
        return Err(EditError::OutOfBounds);
    }
    let mut n: usize = p.line;
    while n > 0
        invariant
            n <= p.line < doc.lines().len(),
            p.valid_in(doc.lines()),
            blank_before(doc.lines(), n as int) == blank_before(doc.lines(), p.line as int),
        decreases n,
    {
        if doc.line(n - 1).len() == 0 {
            return Ok(Position { line: n - 1, offset: 0 });
        }
        n -= 1;
    }
    Ok(Position { line: 0, offset: 0 })
}

/// To the first empty line below, or to the end of the text.
pub fn para_down(p: Position, doc: &Document) -> (res: Result<Position, EditError>)
    requires
        doc.wf(),
    ensures
        res is Ok <==> p.valid_in(doc.lines()),
        res is Ok ==> res->Ok_0 == para_down_of(p, doc.lines()) && res->Ok_0.valid_in(doc.lines()),
{
    if !doc.buffer().contains_position(p) {
        return Err(EditError::OutOfBounds);
    }
    let count = doc.line_count();
    let mut n: usize = p.line + 1;
    while n < count
        invariant
            p.line < n <= count,
            count == doc.lines().len(),
            p.valid_in(doc.lines()),
            blank_from(doc.lines(), n as int) == blank_from(doc.lines(), p.line + 1),
        decreases count - n,
    {
        if doc.line(n).len() == 0 {
            return Ok(Position { line: n, offset: 0 });
        }
        n += 1;
    }
    Ok(doc.buffer().end())
}

/// The last row of text before row `n`.
pub fn find_text_row_before(rows: &Vec<WrapRow>, n: usize) -> (j: Option<usize>)
    requires
        n <= rows@.len(),
    ensures
        j is None <==> text_row_before(rows@, n as int) < 0,
        j is Some ==> j->0 == text_row_before(rows@, n as int) && j->0 < n,
{
    let mut k: usize = n;
    while k > 0
        invariant
            k <= n <= rows@.len(),
            text_row_before(rows@, k as int) == text_row_before(rows@, n as int),
        decreases k,
    {
        if rows[k - 1].kind == RowKind::Text {
            return Some(k - 1);
        }
        k -= 1;
    }
    None
}

/// The first row of text at or behind row `n`.
pub fn find_text_row_from(rows: &Vec<WrapRow>, n: usize) -> (j: Option<usize>)
    ensures
        j is None <==> text_row_from(rows@, n as int) >= rows@.len(),
        j is Some ==> j->0 == text_row_from(rows@, n as int) && n <= j->0 < rows@.len(),
{
    let mut k: usize = n;
    while k < rows.len()
        invariant
            n <= k,
            text_row_from(rows@, k as int) == text_row_from(rows@, n as int),
        decreases rows@.len() - k,
    {
        if rows[k].kind == RowKind::Text {
            return Some(k);
        }
        k += 1;
    }
    None
}

/// The row in which the caret is shown at offset `o`.
pub fn find_row(rows: &Vec<WrapRow>, o: usize) -> (i: Option<usize>)
    ensures
        i is None <==> row_of(rows@, o as int) < 0,
        i is Some ==> i->0 == row_of(rows@, o as int) && i->0 < rows@.len(),
{
    let mut k: usize = rows.len();
    while k > 0
        invariant
            k <= rows@.len(),
            row_at(rows@, k as int, o as int) == row_of(rows@, o as int),
        decreases k,
    {
        if rows[k - 1].kind == RowKind::Text && rows[k - 1].start <= o {
            return Some(k - 1);
        }
        k -= 1;
    }
    None
}

/// The offset in row `j` that is nearest to column `col`.
pub fn choose_offset(rows: &Vec<WrapRow>, j: usize, col: usize) -> (o: usize)
    requires
        j < rows@.len(),
        rows@[j as int].start <= rows@[j as int].end,
    ensures
        o == offset_in_row(rows@, j as int, col as int),
{
    let row = rows[j];
    assert(j < rows.len());
    let last = if find_text_row_from(rows, j + 1).is_none() {
        row.end
    } else if row.end > row.start {
        row.end - 1
    } else {
        row.start
    };
    if col < last - row.start {
        row.start + col
    } else {
        last
    }
}

/// The column of `p` in its row.
pub fn column_in_row(p: Position, doc: &Document, layout: &WrapLayout) -> (res: Result<usize, EditError>)
    requires
        doc.wf(),
        layout.consistent(doc),
    ensures
        res is Ok <==> p.valid_in(doc.lines()),
        res is Ok ==> res->Ok_0 == column_of(layout.rows()[p.line as int], p.offset as int),
{
    if !doc.buffer().contains_position(p) {
        return Err(EditError::OutOfBounds);
    }
    let rows = layout.line_rows(p.line);
    proof {
        lemma_row_at(rows@, rows@.len() as int, p.offset as int);
    }
    match find_row(rows, p.offset) {
        None => Ok(p.offset),
        Some(i) => Ok(p.offset - rows[i].start),
    }
}

/// One row up, aiming for column `col`.
pub fn move_up(p: Position, col: usize, doc: &Document, layout: &WrapLayout) -> (res: Result<
    Position,
    EditError,
>)
    requires
        doc.wf(),
        layout.consistent(doc),
    ensures
        res is Ok <==> p.valid_in(doc.lines()),
        res is Ok ==> res->Ok_0 == up_of(p, col as int, layout.rows()) && res->Ok_0.valid_in(
            doc.lines(),
        ),
{
    if !doc.buffer().contains_position(p) {
        return Err(EditError::OutOfBounds);
    }
    let here = layout.line_rows(p.line);
    proof {
        doc.lemma_fits();
        lemma_layout_chain(layout, doc, p.line as int);
        lemma_row_at(here@, here@.len() as int, p.offset as int);
    }
    let n = match find_row(here, p.offset) {
        None => 0,
        Some(i) => i,
    };
    proof {
        lemma_text_row_before(here@, n as int);
    }
    match find_text_row_before(here, n) {
        Some(j) => {
            proof {
                lemma_offset_in_row(here@, j as int, col as int, doc.lines()[p.line as int].len() as int);
            }
            Ok(Position { line: p.line, offset: choose_offset(here, j, col) })
        },
        None => {
            if p.line > 0 {
                let above = layout.line_rows(p.line - 1);
                proof {
                    lemma_layout_chain(layout, doc, p.line - 1);
                    lemma_text_row_before(above@, above@.len() as int);
                }
                match find_text_row_before(above, above.len()) {
                    Some(k) => {
                        proof {
                            lemma_offset_in_row(
                                above@,
                                k as int,
                                col as int,
                                doc.lines()[p.line - 1].len() as int,
                            );
                        }
                        Ok(Position { line: p.line - 1, offset: choose_offset(above, k, col) })
                    },
                    None => Ok(p),
                }
            } else {
                Ok(p)
            }
        },
    }
}

/// One row down, aiming for column `col`.
pub fn move_down(p: Position, col: usize, doc: &Document, layout: &WrapLayout) -> (res: Result<
    Position,
    EditError,
>)
    requires
        doc.wf(),
        layout.consistent(doc),
    ensures
        res is Ok <==> p.valid_in(doc.lines()),
        res is Ok ==> res->Ok_0 == down_of(p, col as int, layout.rows()) && res->Ok_0.valid_in(
            doc.lines(),
        ),
{
    if !doc.buffer().contains_position(p) {
        return Err(EditError::OutOfBounds);
    }
    let here = layout.line_rows(p.line);
    proof {
        doc.lemma_fits();
        lemma_layout_chain(layout, doc, p.line as int);
        lemma_row_at(here@, here@.len() as int, p.offset as int);
    }
    let n = match find_row(here, p.offset) {
        None => 0,
        Some(i) => {
            assert(i < here.len());
            i + 1
        },
    };
    proof {
        lemma_text_row_from(here@, n as int);
    }
    match find_text_row_from(here, n) {
        Some(j) => {
            proof {
                lemma_offset_in_row(here@, j as int, col as int, doc.lines()[p.line as int].len() as int);
            }
            Ok(Position { line: p.line, offset: choose_offset(here, j, col) })
        },
        None => {
            let lines = doc.line_count();
            if p.line + 1 < lines {
                let below = layout.line_rows(p.line + 1);
                proof {
                    lemma_layout_chain(layout, doc, p.line + 1);
                    lemma_text_row_from(below@, 0);
                }
                match find_text_row_from(below, 0) {
                    Some(k) => {
                        proof {
                            lemma_offset_in_row(
                                below@,
                                k as int,
                                col as int,
                                doc.lines()[p.line + 1].len() as int,
                            );
                        }
                        Ok(Position { line: p.line + 1, offset: choose_offset(below, k, col) })
                    },
                    None => Ok(p),
                }
            } else {
                Ok(p)
            }
        },
    }
}

/// One page up: as many rows up as a page has.
pub fn page_up(p: Position, col: usize, page: usize, doc: &Document, layout: &WrapLayout) -> (res:
    Result<Position, EditError>)
    requires
        doc.wf(),
        layout.consistent(doc),
    ensures
        res is Ok <==> p.valid_in(doc.lines()),
        res is Ok ==> res->Ok_0 == up_by(p, col as int, layout.rows(), page as nat)
            && res->Ok_0.valid_in(doc.lines()),
{
    if !doc.buffer().contains_position(p) {
        return Err(EditError::OutOfBounds);
    }
    let mut at = p;
    let mut left: usize = page;
    while left > 0
        invariant
            doc.wf(),
            layout.consistent(doc),
            at.valid_in(doc.lines()),
            p.valid_in(doc.lines()),
            up_by(at, col as int, layout.rows(), left as nat) == up_by(
                p,
                col as int,
                layout.rows(),
                page as nat,
            ),
        decreases left,
    {
        match move_up(at, col, doc, layout) {
            Ok(next) => {
                at = next;
            },
            Err(_) => {},
        }
        left -= 1;
    }
    Ok(at)
}

/// One page down: as many rows down as a page has.
pub fn page_down(p: Position, col: usize, page: usize, doc: &Document, layout: &WrapLayout) -> (res:
    Result<Position, EditError>)
    requires
        doc.wf(),
        layout.consistent(doc),
    ensures
        res is Ok <==> p.valid_in(doc.lines()),
        res is Ok ==> res->Ok_0 == down_by(p, col as int, layout.rows(), page as nat)
            && res->Ok_0.valid_in(doc.lines()),
{
    if !doc.buffer().contains_position(p) {
        return Err(EditError::OutOfBounds);
    }
    let mut at = p;
    let mut left: usize = page;
    while left > 0
        invariant
            doc.wf(),
            layout.consistent(doc),
            at.valid_in(doc.lines()),
            p.valid_in(doc.lines()),
            down_by(at, col as int, layout.rows(), left as nat) == down_by(
                p,
                col as int,
                layout.rows(),
                page as nat,
            ),
        decreases left,
    {
        match move_down(at, col, doc, layout) {
            Ok(next) => {
                at = next;
            },
            Err(_) => {},
        }
        left -= 1;
    }
    Ok(at)
}

/// A way to move.
#[derive(Clone, Copy, Debug, PartialEq, Eq, Structural, Hash)]
pub enum Motion {
    Left,
    Right,
    Up,
    Down,
    /// Up by a page of so many rows.
    PageUp(usize),
    /// Down by a page of so many rows.
    PageDown(usize),
    WordLeft,
    WordRight,
    LineStart,
    LineEnd,
    ParaUp,
    ParaDown,
    DocStart,
    DocEnd,
}

impl Motion {
    /// Whether the motion goes by rows and aims for a column.
    pub open spec fn vertical(self) -> bool {
        self == Motion::Up || self == Motion::Down || self is PageUp || self is PageDown
    }

    pub fn is_vertical(&self) -> (b: bool)
        ensures
            b == self.vertical(),
    {
        match self {
            Motion::Up => true,
            Motion::Down => true,
            Motion::PageUp(_) => true,
            Motion::PageDown(_) => true,
            _ => false,
        }
    }
}

/// Where `p` goes by the motion, aiming for column `col` where the motion
/// goes by rows.
pub open spec fn moved(
    p: Position,
    col: int,
    motion: Motion,
    lines: Seq<Seq<char>>,
    tokens: Seq<Seq<Token>>,
    rows: Seq<Seq<WrapRow>>,
) -> Position {
    match motion {
        Motion::Left => left_of(p, lines),
        Motion::Right => right_of(p, lines),
        Motion::Up => up_of(p, col, rows),
        Motion::Down => down_of(p, col, rows),
        Motion::PageUp(n) => up_by(p, col, rows, n as nat),
        Motion::PageDown(n) => down_by(p, col, rows, n as nat),
        Motion::WordLeft => word_left_of(p, lines, tokens),
        Motion::WordRight => word_right_of(p, lines, tokens),
        Motion::LineStart => Position { line: p.line, offset: 0 },
        Motion::LineEnd => Position { line: p.line, offset: lines[p.line as int].len() as usize },
        Motion::ParaUp => para_up_of(p, lines),
        Motion::ParaDown => para_down_of(p, lines),
        Motion::DocStart => Position { line: 0, offset: 0 },
        Motion::DocEnd => Position {
            line: (lines.len() - 1) as usize,
            offset: lines.last().len() as usize,
        },
    }
}

/// The column that a selection aims for: the one it remembers, else the
/// column of its head.
pub open spec fn aimed_column(sel: Selection, rows: Seq<Seq<WrapRow>>) -> int {
    match sel.column {
        Some(c) => c as int,
        None => column_of(rows[sel.head.line as int], sel.head.offset as int),
    }
}

/// The selection with its head moved. The anchor goes with the head
/// unless the selection is being extended. The selection remembers the
/// column it aimed for where the motion goes by rows, and none else.
pub open spec fn moved_selection(
    sel: Selection,
    motion: Motion,
    extend: bool,
    lines: Seq<Seq<char>>,
    tokens: Seq<Seq<Token>>,
    rows: Seq<Seq<WrapRow>>,
) -> Selection {
    let col = aimed_column(sel, rows);
    let head = moved(sel.head, col, motion, lines, tokens, rows);
    Selection {
        anchor: if extend {
            sel.anchor
        } else {
            head
        },
        head,
        column: if motion.vertical() {
            Some(col as usize)
        } else {
            None
        },
    }
}

/// Moves a position by a motion.
pub fn move_position(
    p: Position,
    col: usize,
    motion: Motion,
    doc: &Document,
    layout: &WrapLayout,
) -> (res: Result<Position, EditError>)
    requires
        doc.wf(),
        layout.consistent(doc),
    ensures
        res is Ok <==> p.valid_in(doc.lines()),
        res is Ok ==> res->Ok_0 == moved(
            p,
            col as int,
            motion,
            doc.lines(),
            doc.tokens(),
            layout.rows(),
        ) && res->Ok_0.valid_in(doc.lines()),
{
    match motion {
        Motion::Left => move_left(p, doc),
        Motion::Right => move_right(p, doc),
        Motion::Up => move_up(p, col, doc, layout),
        Motion::Down => move_down(p, col, doc, layout),
        Motion::PageUp(n) => page_up(p, col, n, doc, layout),
        Motion::PageDown(n) => page_down(p, col, n, doc, layout),
        Motion::WordLeft => word_left(p, doc),
        Motion::WordRight => word_right(p, doc),
        Motion::LineStart => line_start(p, doc),
        Motion::LineEnd => line_end(p, doc),
        Motion::ParaUp => para_up(p, doc),
        Motion::ParaDown => para_down(p, doc),
        Motion::DocStart => doc_start(p, doc),
        Motion::DocEnd => doc_end(p, doc),
    }
}

/// Moves the head of a selection by a motion.
pub fn move_selection(
    sel: Selection,
    motion: Motion,
    extend: bool,
    doc: &Document,
    layout: &WrapLayout,
) -> (res: Result<Selection, EditError>)
    requires
        doc.wf(),
        layout.consistent(doc),
    ensures
        res is Ok <==> sel.head.valid_in(doc.lines()),
        res is Ok ==> res->Ok_0 == moved_selection(
            sel,
            motion,
            extend,
            doc.lines(),
            doc.tokens(),
            layout.rows(),
        ) && res->Ok_0.head.valid_in(doc.lines()),
{
    let col = match sel.column {
        Some(c) => c,
        None => match column_in_row(sel.head, doc, layout) {
            Ok(c) => c,
            Err(e) => {
                return Err(e);
            },
        },
    };
    match move_position(sel.head, col, motion, doc, layout) {
        Err(e) => Err(e),
        Ok(head) => {
            let anchor = if extend {
                sel.anchor
            } else {
                head
            };
            let column = if motion.is_vertical() {
                Some(col)
            } else {
                None
            };
            Ok(Selection { anchor, head, column })
        },
    }
}

} // verus!
