//! The rows of every line of a document, as one view of it wraps them.

use vstd::prelude::*;
use crate::position::{Position, Range};
use crate::token::{Token, partitions};
use crate::inlay::{Inlay, insets_on_line, across_edit, anchors_fit, lemma_insets_outside};
use crate::wrap::{WrapRow, line_rows, wrap_line, chain, lemma_line_rows_chain};
use crate::document::Document;

verus! {

/// The rows held by a vector of row vectors.
pub open spec fn row_lists(v: Seq<Vec<WrapRow>>) -> Seq<Seq<WrapRow>> {
    Seq::new(v.len(), |i: int| v[i]@)
}

/// The rows of line `i` are those that wrapping the line gives.
pub open spec fn rows_ok(
    rows: Seq<Seq<WrapRow>>,
    width: usize,
    lines: Seq<Seq<char>>,
    tokens: Seq<Seq<Token>>,
    inlays: Seq<Inlay>,
    i: int,
) -> bool {
    rows[i] == line_rows(tokens[i], insets_on_line(inlays, i), lines[i].len() as int, width as int)
}

/// For every line the rows are those that wrapping the line gives.
pub open spec fn layout_ok(
    rows: Seq<Seq<WrapRow>>,
    width: usize,
    lines: Seq<Seq<char>>,
    tokens: Seq<Seq<Token>>,
    inlays: Seq<Inlay>,
) -> bool {
    &&& rows.len() == lines.len()
    &&& forall|i: int|
        0 <= i < lines.len() ==> #[trigger] rows_ok(rows, width, lines, tokens, inlays, i)
}

/// A row of a line, with the number of the line.
#[derive(Clone, Copy, Debug, PartialEq, Eq, Structural)]
pub struct PlacedRow {
    pub line: usize,
    pub row: WrapRow,
}

/// The rows of one line, each with the number of the line.
pub open spec fn placed(line: int, rows: Seq<WrapRow>) -> Seq<PlacedRow> {
    Seq::new(rows.len(), |i: int| PlacedRow { line: line as usize, row: rows[i] })
}

/// The rows of the lines from `from` up to `to`, in order.
pub open spec fn rows_between(rows: Seq<Seq<WrapRow>>, from: int, to: int) -> Seq<PlacedRow>
    decreases to - from,
{
    if to <= from {
        Seq::<PlacedRow>::empty()
    } else {
        rows_between(rows, from, to - 1) + placed(to - 1, rows[to - 1])
    }
}

/// The part of a token that a row shows.
pub open spec fn clipped(t: Token, row: WrapRow) -> Token {
    Token {
        kind: t.kind,
        start: if t.start < row.start {
            row.start
        } else {
            t.start
        },
        end: if t.end > row.end {
            row.end
        } else {
            t.end
        },
    }
}

/// The tokens that a row shows, each cut to what the row shows of it.
pub open spec fn row_spans(tokens: Seq<Token>, row: WrapRow) -> Seq<Token>
    decreases tokens.len(),
{
    if tokens.len() == 0 {
        tokens
    } else if tokens.last().start < row.end && row.start < tokens.last().end {
        row_spans(tokens.drop_last(), row).push(clipped(tokens.last(), row))
    } else {
        row_spans(tokens.drop_last(), row)
    }
}

/// The tokens that a row shows, each cut to what the row shows of it.
pub fn spans_of_row(tokens: &Vec<Token>, row: WrapRow) -> (spans: Vec<Token>)
    ensures
        spans@ == row_spans(tokens@, row),
{
    let mut spans: Vec<Token> = Vec::new();
    let mut i: usize = 0;
    assert(tokens@.subrange(0, 0) =~= Seq::<Token>::empty());
    while i < tokens.len()
        invariant
            i <= tokens@.len(),
            spans@ == row_spans(tokens@.subrange(0, i as int), row),
        decreases tokens@.len() - i,
    {
        let t = tokens[i];
        proof {
            let now = tokens@.subrange(0, i + 1);
            assert(now.drop_last() =~= tokens@.subrange(0, i as int));
            assert(now.last() == t);
        }
        if t.start < row.end && row.start < t.end {
            let start = if t.start < row.start {
                row.start
            } else {
                t.start
            };
            let end = if t.end > row.end {
                row.end
            } else {
                t.end
            };
            spans.push(Token { kind: t.kind, start, end });
        }
        i += 1;
    }
    assert(tokens@.subrange(0, i as int) =~= tokens@);
    spans
}

/// The rows of every line of a document for one wrap width.
#[derive(Debug)]
pub struct WrapLayout {
    width: usize,
    rows: Vec<Vec<WrapRow>>,
}

impl WrapLayout {
    /// The wrap width, in columns.
    pub closed spec fn width(&self) -> usize {
        self.width
    }

    /// The rows, line by line.
    pub closed spec fn rows(&self) -> Seq<Seq<WrapRow>> {
        row_lists(self.rows@)
    }

    /// Whether the rows are those of the document.
    pub open spec fn consistent(&self, doc: &Document) -> bool {
        layout_ok(self.rows(), self.width(), doc.lines(), doc.tokens(), doc.inlays())
    }

    /// Lays out a whole document.
    pub fn new(width: usize, doc: &Document) -> (l: WrapLayout)
        requires
            doc.wf(),
        ensures
            l.width() == width,
            l.consistent(doc),
    {
        let mut rows: Vec<Vec<WrapRow>> = Vec::new();
        let mut i: usize = 0;
        while i < doc.line_count()
            invariant
                doc.wf(),
                i <= doc.lines().len(),
                rows@.len() == i,
                forall|k: int|
                    0 <= k < i ==> #[trigger] rows_ok(
                        row_lists(rows@),
                        width,
                        doc.lines(),
                        doc.tokens(),
                        doc.inlays(),
                        k,
                    ),
            decreases doc.lines().len() - i,
        {
            let insets = doc.line_insets(i);
            let fresh = wrap_line(doc.line(i).len(), doc.line_tokens(i), &insets, width);
            let ghost was = row_lists(rows@);
            rows.push(fresh);
            proof {
                assert forall|k: int| 0 <= k < i + 1 implies #[trigger] rows_ok(
                    row_lists(rows@),
                    width,
                    doc.lines(),
                    doc.tokens(),
                    doc.inlays(),
                    k,
                ) by {
                    if k < i {
                        assert(rows_ok(was, width, doc.lines(), doc.tokens(), doc.inlays(), k));
                        assert(row_lists(rows@)[k] == was[k]);
                    }
                }
            }
            i += 1;
        }
        WrapLayout { width, rows }
    }

    pub fn wrap_width(&self) -> (w: usize)
        ensures
            w == self.width(),
    {
        self.width
    }

    pub fn line_count(&self) -> (n: usize)
        ensures
            n == self.rows().len(),
    {
        self.rows.len()
    }

    /// The rows of line `i`.
    pub fn line_rows(&self, i: usize) -> (rows: &Vec<WrapRow>)
        requires
            i < self.rows().len(),
        ensures
            rows@ == self.rows()[i as int],
    {
        &self.rows[i]
    }

    /// The rows of the lines from `from` up to `to`, in order, each with
    /// the number of its line. Lines that there are not have no rows.
    pub fn visible_rows(&self, from: usize, to: usize) -> (found: Vec<PlacedRow>)
        ensures
            found@ == rows_between(
                self.rows(),
                from as int,
                if to <= self.rows().len() {
                    to as int
                } else {
                    self.rows().len() as int
                },
            ),
    {
        let stop = if to <= self.rows.len() {
            to
        } else {
            self.rows.len()
        };
        let mut found: Vec<PlacedRow> = Vec::new();
        let mut line: usize = from;
        while line < stop
            invariant
                stop <= self.rows@.len(),
                from <= line <= stop || stop <= from == line,
                found@ == rows_between(self.rows(), from as int, line as int),
            decreases stop - line,
        {
            let rows = &self.rows[line];
            let ghost base = found@;
            let mut k: usize = 0;
            while k < rows.len()
                invariant
                    k <= rows@.len(),
                    found@ == base + placed(line as int, rows@).subrange(0, k as int),
                decreases rows@.len() - k,
            {
                found.push(PlacedRow { line, row: rows[k] });
                assert(found@ =~= base + placed(line as int, rows@).subrange(0, k + 1));
                k += 1;
            }
            assert(placed(line as int, rows@).subrange(0, k as int) =~= placed(line as int, rows@));
            line += 1;
        }
        found
    }

    /// Brings the rows up to date after the lines from `first` up to
    /// `old_end` gave way to the lines from `first` up to `new_end` of the
    /// document: lays those out, and keeps the rows of all other lines.
    pub fn update(&mut self, doc: &Document, first: usize, old_end: usize, new_end: usize)
        requires
            doc.wf(),
            first <= old_end <= old(self).rows().len(),
            first <= new_end <= doc.lines().len(),
            doc.lines().len() - new_end == old(self).rows().len() - old_end,
        ensures
            final(self).width() == old(self).width(),
            final(self).rows().len() == doc.lines().len(),
            forall|i: int| 0 <= i < first ==> final(self).rows()[i] == old(self).rows()[i],
            forall|i: int|
                first <= i < new_end ==> #[trigger] rows_ok(
                    final(self).rows(),
                    final(self).width(),
                    doc.lines(),
                    doc.tokens(),
                    doc.inlays(),
                    i,
                ),
            forall|i: int|
                new_end <= i < doc.lines().len() ==> final(self).rows()[i] == old(self).rows()[i
                    - new_end + old_end],
    {
        let ghost before = self.rows();
        let width = self.width;
        let mut tail = self.rows.split_off(old_end);
        self.rows.truncate(first);
        let mut i: usize = first;
        while i < new_end
            invariant
                doc.wf(),
                first <= i <= new_end <= doc.lines().len(),
                first <= before.len(),
                self.width == width,
                self.rows@.len() == i,
                forall|k: int| 0 <= k < first ==> row_lists(self.rows@)[k] == before[k],
                forall|k: int|
                    first <= k < i ==> #[trigger] rows_ok(
                        row_lists(self.rows@),
                        width,
                        doc.lines(),
                        doc.tokens(),
                        doc.inlays(),
                        k,
                    ),
            decreases new_end - i,
        {
            let insets = doc.line_insets(i);
            let fresh = wrap_line(doc.line(i).len(), doc.line_tokens(i), &insets, width);
            let ghost was = row_lists(self.rows@);
            self.rows.push(fresh);
            proof {
                assert forall|k: int| first <= k < i + 1 implies #[trigger] rows_ok(
                    row_lists(self.rows@),
                    width,
                    doc.lines(),
                    doc.tokens(),
                    doc.inlays(),
                    k,
                ) by {
                    if k < i {
                        assert(rows_ok(was, width, doc.lines(), doc.tokens(), doc.inlays(), k));
                        assert(row_lists(self.rows@)[k] == was[k]);
                    }
                }
            }
            i += 1;
        }
        let ghost done = row_lists(self.rows@);
        self.rows.append(&mut tail);
        proof {
            let now = row_lists(self.rows@);
            assert forall|k: int| first <= k < new_end implies #[trigger] rows_ok(
                now,
                width,
                doc.lines(),
                doc.tokens(),
                doc.inlays(),
                k,
            ) by {
                assert(rows_ok(done, width, doc.lines(), doc.tokens(), doc.inlays(), k));
                assert(now[k] == done[k]);
            }
            assert forall|k: int| 0 <= k < first implies now[k] == before[k] by {
                assert(now[k] == done[k]);
            }
        }
    }

    /// Lays the whole document out anew for another wrap width.
    pub fn set_width(&mut self, width: usize, doc: &Document)
        requires
            doc.wf(),
        ensures
            final(self).width() == width,
            final(self).consistent(doc),
    {
        let fresh = WrapLayout::new(width, doc);
        self.width = fresh.width;
        self.rows = fresh.rows;
    }
}

/// Rows that were right before an edit and were brought up to date for
/// the lines that the edit changed are right after it.
pub proof fn lemma_layout_follows(
    old_rows: Seq<Seq<WrapRow>>,
    new_rows: Seq<Seq<WrapRow>>,
    width: usize,
    old_lines: Seq<Seq<char>>,
    new_lines: Seq<Seq<char>>,
    old_tokens: Seq<Seq<Token>>,
    new_tokens: Seq<Seq<Token>>,
    old_inlays: Seq<Inlay>,
    range: Range,
    end: Position,
    first: int,
    old_end: int,
    new_end: int,
)
    requires
        layout_ok(old_rows, width, old_lines, old_tokens, old_inlays),
        range.ordered(),
        range.start.spec_le(end),
        anchors_fit(old_inlays, range, end),
        first == range.start.line,
        first <= old_end <= old_lines.len(),
        end.line < new_end <= new_lines.len(),
        new_end - old_end == end.line - range.end.line,
        new_lines.len() - new_end == old_lines.len() - old_end,
        new_rows.len() == new_lines.len(),
        forall|i: int| 0 <= i < first ==> new_lines[i] == old_lines[i],
        forall|i: int| new_end <= i < new_lines.len() ==> new_lines[i] == old_lines[i - new_end + old_end],
        forall|i: int| 0 <= i < first ==> new_tokens[i] == old_tokens[i],
        forall|i: int|
            new_end <= i < new_lines.len() ==> new_tokens[i] == old_tokens[i - new_end + old_end],
        forall|i: int| 0 <= i < first ==> new_rows[i] == old_rows[i],
        forall|i: int|
            first <= i < new_end ==> #[trigger] rows_ok(
                new_rows,
                width,
                new_lines,
                new_tokens,
                across_edit(old_inlays, range, end),
                i,
            ),
        forall|i: int| new_end <= i < new_lines.len() ==> new_rows[i] == old_rows[i - new_end + old_end],
    ensures
        layout_ok(new_rows, width, new_lines, new_tokens, across_edit(old_inlays, range, end)),
{
    let new_inlays = across_edit(old_inlays, range, end);
    assert forall|i: int| 0 <= i < new_lines.len() implies #[trigger] rows_ok(
        new_rows,
        width,
        new_lines,
        new_tokens,
        new_inlays,
        i,
    ) by {
        lemma_insets_outside(old_inlays, range, end, i);
        if i < first {
            assert(rows_ok(old_rows, width, old_lines, old_tokens, old_inlays, i));
        } else if i >= new_end {
            let j = i - new_end + old_end;
            assert(rows_ok(old_rows, width, old_lines, old_tokens, old_inlays, j));
        }
    }
}

} // verus!
