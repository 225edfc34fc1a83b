//! Soft wrapping: how one logical line is laid out as visual rows that
//! are narrower than the wrap width.

use vstd::prelude::*;
use crate::token::{Token, TokenKind, partitions, joined, lemma_partition_ordered};
use crate::inlay::{Inset, InlayKind};

verus! {

/// What a row shows.
#[derive(Clone, Copy, Debug, PartialEq, Eq, Structural, Hash)]
pub enum RowKind {
    /// Characters of the line, with the inline inlays anchored among them.
    Text,
    /// The block inlay with the given number.
    Block(u64),
}

/// One visual row: the half-open range of the line's characters that it
/// shows. The row of a block inlay shows none.
#[derive(Clone, Copy, Debug, PartialEq, Eq, Structural, Hash)]
pub struct WrapRow {
    pub start: usize,
    pub end: usize,
    pub kind: RowKind,
}

/// The row at index `i` ends where the next one begins.
pub open spec fn linked(rows: Seq<WrapRow>, i: int) -> bool {
    rows[i].end == rows[i + 1].start
}

/// The rows lead from `from` to `to` without a gap or an overlap: there is
/// at least one, the first begins at `from`, each begins where the one
/// before it ends, and the last ends at `to`.
pub open spec fn chain(rows: Seq<WrapRow>, from: int, to: int) -> bool {
    &&& rows.len() >= 1
    &&& rows[0].start == from
    &&& rows.last().end == to
    &&& forall|i: int| 0 <= i < rows.len() ==> (#[trigger] rows[i]).start <= rows[i].end
    &&& forall|i: int| 0 <= i < rows.len() - 1 ==> #[trigger] linked(rows, i)
}

/// The characters that the rows show, one row after the other.
pub open spec fn rows_text(line: Seq<char>, rows: Seq<WrapRow>) -> Seq<char>
    decreases rows.len(),
{
    if rows.len() == 0 {
        Seq::<char>::empty()
    } else {
        rows_text(line, rows.drop_last()) + line.subrange(
            rows.last().start as int,
            rows.last().end as int,
        )
    }
}

/// Whether a break is preferred behind a token of this kind.
pub open spec fn is_soft(kind: TokenKind) -> bool {
    kind == TokenKind::Whitespace || kind == TokenKind::Punctuation
}

/// Whether the token at index `i` begins at `p` and follows a token of
/// white space or punctuation.
pub open spec fn soft_at(tokens: Seq<Token>, i: int, p: int) -> bool {
    0 < i < tokens.len() && tokens[i].start == p && is_soft(tokens[i - 1].kind)
}

/// Whether a break is preferred at `p`: a token of white space or
/// punctuation ends there and another token begins.
pub open spec fn soft_boundary(tokens: Seq<Token>, p: int) -> bool {
    exists|i: int| #[trigger] soft_at(tokens, i, p)
}

/// The columns that the inline inlays anchored at offset `k` take.
pub open spec fn inline_width_at(inlays: Seq<Inset>, k: int) -> int
    decreases inlays.len(),
{
    if inlays.len() == 0 {
        0
    } else {
        inline_width_at(inlays.drop_last(), k) + (if inlays.last().kind == InlayKind::Inline
            && inlays.last().offset == k {
            inlays.last().width as int
        } else {
            0
        })
    }
}

/// The columns that the characters from `s` up to `e` take, each with the
/// inline inlays anchored at it.
pub open spec fn span_width(inlays: Seq<Inset>, s: int, e: int) -> int
    decreases e - s,
{
    if e <= s {
        0
    } else {
        span_width(inlays, s, e - 1) + 1 + inline_width_at(inlays, e - 1)
    }
}

/// The columns that a row from `s` up to `e` takes in a line of `len`
/// characters. The inline inlays anchored at the line's end count for the
/// row that ends there.
pub open spec fn row_width(inlays: Seq<Inset>, len: int, s: int, e: int) -> int {
    span_width(inlays, s, e) + (if e == len {
        inline_width_at(inlays, len)
    } else {
        0
    })
}

/// How far a row that begins at `s` and reaches `e` can go on towards `b`
/// and stay narrower than `w`.
pub open spec fn reach_up(inlays: Seq<Inset>, len: int, s: int, e: int, b: int, w: int) -> int
    decreases b - e,
{
    if e < b && row_width(inlays, len, s, e + 1) < w {
        reach_up(inlays, len, s, e + 1, b, w)
    } else {
        e
    }
}

/// The last preferred break behind `s` and not behind `p`, or `s` if
/// there is none.
pub open spec fn soft_break(tokens: Seq<Token>, s: int, p: int) -> int
    decreases p - s,
{
    if p <= s {
        s
    } else if soft_boundary(tokens, p) {
        p
    } else {
        soft_break(tokens, s, p - 1)
    }
}

/// Every row shows characters of the line, and at least one.
pub open spec fn all_text(rows: Seq<WrapRow>) -> bool {
    forall|i: int|
        0 <= i < rows.len() ==> (#[trigger] rows[i]).kind == RowKind::Text && rows[i].start
            < rows[i].end
}

/// Where the row ends that begins at `s`, in a stretch of the line that
/// ends at `b`. The row goes as far as it can and stay narrower than `w`,
/// and holds one character at least. If that is not the whole stretch, it
/// ends at the last preferred break that it reaches, and where it reaches
/// none, it ends where it must.
#[verifier::opaque]
pub open spec fn row_end(
    tokens: Seq<Token>,
    inlays: Seq<Inset>,
    len: int,
    s: int,
    b: int,
    w: int,
) -> int {
    let r = reach_up(inlays, len, s, s + 1, b, w);
    if r >= b {
        b
    } else {
        let p = soft_break(tokens, s, r);
        if p > s {
            p
        } else {
            r
        }
    }
}

/// The rows of the stretch from `s` up to `b`, which holds a character.
pub open spec fn wrap_span(
    tokens: Seq<Token>,
    inlays: Seq<Inset>,
    len: int,
    s: int,
    b: int,
    w: int,
) -> Seq<WrapRow>
    decreases b - s,
{
    if s >= b {
        Seq::<WrapRow>::empty()
    } else {
        let e = row_end(tokens, inlays, len, s, b, w);
        if s < e <= b {
            seq![WrapRow { start: s as usize, end: e as usize, kind: RowKind::Text }] + wrap_span(
                tokens,
                inlays,
                len,
                e,
                b,
                w,
            )
        } else {
            Seq::<WrapRow>::empty()
        }
    }
}

/// The rows of the stretch from `a` up to `b`: one empty row where it
/// holds no character.
pub open spec fn stretch_rows(
    tokens: Seq<Token>,
    inlays: Seq<Inset>,
    len: int,
    a: int,
    b: int,
    w: int,
) -> Seq<WrapRow> {
    if a >= b {
        seq![WrapRow { start: a as usize, end: a as usize, kind: RowKind::Text }]
    } else {
        wrap_span(tokens, inlays, len, a, b, w)
    }
}

/// Whether the inlay at index `idx` breaks the line behind offset `a`.
pub open spec fn breaks_at(inlays: Seq<Inset>, idx: int, a: int, len: int) -> bool {
    inlays[idx].kind == InlayKind::Block && a <= inlays[idx].offset <= len
}

/// The rows of the line from offset `a` on, with the inlays from index
/// `idx` on: the rows of the text up to each block inlay, if there is any,
/// the block inlay's own row, and in the end the rows of the text behind
/// the last block inlay, of which there is always one.
pub open spec fn rows_from(
    tokens: Seq<Token>,
    inlays: Seq<Inset>,
    len: int,
    idx: int,
    a: int,
    w: int,
) -> Seq<WrapRow>
    decreases inlays.len() - idx,
{
    if idx < 0 || idx >= inlays.len() {
        stretch_rows(tokens, inlays, len, a, len, w)
    } else if breaks_at(inlays, idx, a, len) {
        let off = inlays[idx].offset;
        wrap_span(tokens, inlays, len, a, off as int, w) + seq![
            WrapRow { start: off, end: off, kind: RowKind::Block(inlays[idx].id) },
        ] + rows_from(tokens, inlays, len, idx + 1, off as int, w)
    } else {
        rows_from(tokens, inlays, len, idx + 1, a, w)
    }
}

/// The rows of a line of `len` characters with the given tokens and
/// inlays, for the wrap width `w`.
pub open spec fn line_rows(tokens: Seq<Token>, inlays: Seq<Inset>, len: int, w: int) -> Seq<
    WrapRow,
> {
    rows_from(tokens, inlays, len, 0, 0, w)
}

pub proof fn lemma_inline_width_nonneg(inlays: Seq<Inset>, k: int)
    ensures
        inline_width_at(inlays, k) >= 0,
    decreases inlays.len(),
{
    if inlays.len() > 0 {
        lemma_inline_width_nonneg(inlays.drop_last(), k);
    }
}

pub proof fn lemma_span_width_grows(inlays: Seq<Inset>, s: int, e: int, f: int)
    requires
        s <= e <= f,
    ensures
        0 <= e - s <= span_width(inlays, s, e) <= span_width(inlays, s, f),
    decreases f - s,
{
    if s < f {
        lemma_inline_width_nonneg(inlays, f - 1);
        if e < f {
            lemma_span_width_grows(inlays, s, e, f - 1);
        } else {
            lemma_span_width_grows(inlays, s, e - 1, f - 1);
        }
    }
}

pub proof fn lemma_reach_up(inlays: Seq<Inset>, len: int, s: int, e: int, b: int, w: int)
    requires
        s < e <= b,
    ensures
        e <= reach_up(inlays, len, s, e, b, w) <= b,
        reach_up(inlays, len, s, e, b, w) > e ==> row_width(
            inlays,
            len,
            s,
            reach_up(inlays, len, s, e, b, w),
        ) < w,
        reach_up(inlays, len, s, e, b, w) < b ==> row_width(
            inlays,
            len,
            s,
            reach_up(inlays, len, s, e, b, w) + 1,
        ) >= w,
    decreases b - e,
{
    if e < b && row_width(inlays, len, s, e + 1) < w {
        lemma_reach_up(inlays, len, s, e + 1, b, w);
    }
}

pub proof fn lemma_soft_break(tokens: Seq<Token>, s: int, p: int)
    requires
        s <= p,
    ensures
        s <= soft_break(tokens, s, p) <= p,
        soft_break(tokens, s, p) > s ==> soft_boundary(tokens, soft_break(tokens, s, p)),
        forall|q: int| soft_break(tokens, s, p) < q <= p ==> !soft_boundary(tokens, q),
    decreases p - s,
{
    if p > s && !soft_boundary(tokens, p) {
        lemma_soft_break(tokens, s, p - 1);
    }
}

/// A row holds a character at least and ends in its stretch. A row of
/// more than one character is narrower than the wrap width. A row that
/// ends before its stretch does ends at a preferred break, or no such
/// break lies within its reach and one character more would be too wide.
pub proof fn lemma_row_end(
    tokens: Seq<Token>,
    inlays: Seq<Inset>,
    len: int,
    s: int,
    b: int,
    w: int,
)
    requires
        0 <= s < b <= len,
    ensures
        s < row_end(tokens, inlays, len, s, b, w) <= b,
        row_end(tokens, inlays, len, s, b, w) > s + 1 ==> row_width(
            inlays,
            len,
            s,
            row_end(tokens, inlays, len, s, b, w),
        ) < w,
        row_end(tokens, inlays, len, s, b, w) < b ==> soft_boundary(
            tokens,
            row_end(tokens, inlays, len, s, b, w),
        ) || row_width(inlays, len, s, row_end(tokens, inlays, len, s, b, w) + 1) >= w,
{
    reveal(row_end);
    let r = reach_up(inlays, len, s, s + 1, b, w);
    lemma_reach_up(inlays, len, s, s + 1, b, w);
    lemma_soft_break(tokens, s, r);
    let p = soft_break(tokens, s, r);
    if r < b && p > s {
        lemma_span_width_grows(inlays, s, p, r);
    }
}

/// The rows of a stretch lead from its start to its end.
pub proof fn lemma_wrap_span_chain(
    tokens: Seq<Token>,
    inlays: Seq<Inset>,
    len: int,
    s: int,
    b: int,
    w: int,
)
    requires
        0 <= s < b <= len,
        len <= usize::MAX,
    ensures
        chain(wrap_span(tokens, inlays, len, s, b, w), s, b),
        all_text(wrap_span(tokens, inlays, len, s, b, w)),
    decreases b - s,
{
    lemma_row_end(tokens, inlays, len, s, b, w);
    let e = row_end(tokens, inlays, len, s, b, w);
    let first = WrapRow { start: s as usize, end: e as usize, kind: RowKind::Text };
    let rest = wrap_span(tokens, inlays, len, e, b, w);
    let all = wrap_span(tokens, inlays, len, s, b, w);
    assert(all == seq![first] + rest);
    assert(all[0] == first);
    if e < b {
        lemma_wrap_span_chain(tokens, inlays, len, e, b, w);
        assert(all.last() == rest.last());
        assert forall|i: int| 0 <= i < all.len() - 1 implies #[trigger] linked(all, i) by {
            assert(all[i + 1] == rest[i]);
            if i > 0 {
                assert(all[i] == rest[i - 1]);
                assert(linked(rest, i - 1));
            }
        }
    }
    assert forall|i: int| 0 <= i < all.len() implies (#[trigger] all[i]).kind == RowKind::Text
        && all[i].start < all[i].end by {
        if i > 0 {
            assert(all[i] == rest[i - 1]);
        }
    }
}

/// Two chains of which the second begins where the first ends make one.
pub proof fn lemma_chain_concat(a: Seq<WrapRow>, b: Seq<WrapRow>, from: int, mid: int, to: int)
    requires
        chain(a, from, mid),
        chain(b, mid, to),
    ensures
        chain(a + b, from, to),
{
    let all = a + b;
    assert(all[0] == a[0]);
    assert(all.last() == b.last());
    assert forall|i: int| 0 <= i < all.len() implies (#[trigger] all[i]).start <= all[i].end by {
        if i < a.len() {
            assert(all[i] == a[i]);
        } else {
            assert(all[i] == b[i - a.len()]);
        }
    }
    assert forall|i: int| 0 <= i < all.len() - 1 implies #[trigger] linked(all, i) by {
        if i < a.len() - 1 {
            assert(all[i] == a[i] && all[i + 1] == a[i + 1]);
            assert(linked(a, i));
        } else if i == a.len() - 1 {
            assert(all[i] == a.last() && all[i + 1] == b[0]);
        } else {
            assert(all[i] == b[i - a.len()] && all[i + 1] == b[i - a.len() + 1]);
            assert(linked(b, i - a.len()));
        }
    }
}

pub proof fn lemma_stretch_chain(
    tokens: Seq<Token>,
    inlays: Seq<Inset>,
    len: int,
    a: int,
    b: int,
    w: int,
)
    requires
        0 <= a <= b <= len,
        len <= usize::MAX,
    ensures
        chain(stretch_rows(tokens, inlays, len, a, b, w), a, b),
{
    if a < b {
        lemma_wrap_span_chain(tokens, inlays, len, a, b, w);
    }
}

pub proof fn lemma_rows_from_chain(
    tokens: Seq<Token>,
    inlays: Seq<Inset>,
    len: int,
    idx: int,
    a: int,
    w: int,
)
    requires
        0 <= a <= len,
        0 <= idx,
        len <= usize::MAX,
    ensures
        chain(rows_from(tokens, inlays, len, idx, a, w), a, len),
    decreases inlays.len() - idx,
{
    if idx >= inlays.len() {
        lemma_stretch_chain(tokens, inlays, len, a, len, w);
    } else if breaks_at(inlays, idx, a, len) {
        let off = inlays[idx].offset as int;
        lemma_rows_from_chain(tokens, inlays, len, idx + 1, off, w);
        let block = seq![
            WrapRow {
                start: off as usize,
                end: off as usize,
                kind: RowKind::Block(inlays[idx].id),
            },
        ];
        let text = wrap_span(tokens, inlays, len, a, off, w);
        assert(chain(block, off, off));
        if a < off {
            lemma_wrap_span_chain(tokens, inlays, len, a, off, w);
            lemma_chain_concat(text, block, a, off, off);
        } else {
            assert(text + block =~= block);
        }
        lemma_chain_concat(
            text + block,
            rows_from(tokens, inlays, len, idx + 1, off, w),
            a,
            off,
            len,
        );
    } else {
        lemma_rows_from_chain(tokens, inlays, len, idx + 1, a, w);
    }
}

/// Every row of text that holds more than one character is narrower
/// than the wrap width.
pub open spec fn narrow(rows: Seq<WrapRow>, inlays: Seq<Inset>, len: int, w: int) -> bool {
    forall|i: int|
        0 <= i < rows.len() && (#[trigger] rows[i]).kind == RowKind::Text && rows[i].end
            > rows[i].start + 1 ==> row_width(inlays, len, rows[i].start as int, rows[i].end as int)
            < w
}

pub proof fn lemma_narrow_concat(
    a: Seq<WrapRow>,
    b: Seq<WrapRow>,
    inlays: Seq<Inset>,
    len: int,
    w: int,
)
    requires
        narrow(a, inlays, len, w),
        narrow(b, inlays, len, w),
    ensures
        narrow(a + b, inlays, len, w),
{
    let all = a + b;
    assert forall|i: int|
        0 <= i < all.len() && (#[trigger] all[i]).kind == RowKind::Text && all[i].end > all[i].start
            + 1 implies row_width(inlays, len, all[i].start as int, all[i].end as int) < w by {
        if i < a.len() {
            assert(all[i] == a[i]);
        } else {
            assert(all[i] == b[i - a.len()]);
        }
    }
}

pub proof fn lemma_wrap_span_narrow(
    tokens: Seq<Token>,
    inlays: Seq<Inset>,
    len: int,
    s: int,
    b: int,
    w: int,
)
    requires
        0 <= s <= b <= len,
        len <= usize::MAX,
    ensures
        narrow(wrap_span(tokens, inlays, len, s, b, w), inlays, len, w),
    decreases b - s,
{
    if s < b {
        lemma_row_end(tokens, inlays, len, s, b, w);
        let e = row_end(tokens, inlays, len, s, b, w);
        let first = seq![WrapRow { start: s as usize, end: e as usize, kind: RowKind::Text }];
        lemma_wrap_span_narrow(tokens, inlays, len, e, b, w);
        assert(narrow(first, inlays, len, w));
        lemma_narrow_concat(first, wrap_span(tokens, inlays, len, e, b, w), inlays, len, w);
    }
}

pub proof fn lemma_rows_from_narrow(
    tokens: Seq<Token>,
    inlays: Seq<Inset>,
    len: int,
    idx: int,
    a: int,
    w: int,
)
    requires
        0 <= a <= len,
        0 <= idx,
        len <= usize::MAX,
    ensures
        narrow(rows_from(tokens, inlays, len, idx, a, w), inlays, len, w),
    decreases inlays.len() - idx,
{
    if idx >= inlays.len() {
        lemma_wrap_span_narrow(tokens, inlays, len, a, len, w);
    } else if breaks_at(inlays, idx, a, len) {
        let off = inlays[idx].offset as int;
        let block = seq![
            WrapRow {
                start: off as usize,
                end: off as usize,
                kind: RowKind::Block(inlays[idx].id),
            },
        ];
        lemma_wrap_span_narrow(tokens, inlays, len, a, off, w);
        lemma_rows_from_narrow(tokens, inlays, len, idx + 1, off, w);
        assert(narrow(block, inlays, len, w));
        lemma_narrow_concat(wrap_span(tokens, inlays, len, a, off, w), block, inlays, len, w);
        lemma_narrow_concat(
            wrap_span(tokens, inlays, len, a, off, w) + block,
            rows_from(tokens, inlays, len, idx + 1, off, w),
            inlays,
            len,
            w,
        );
    } else {
        lemma_rows_from_narrow(tokens, inlays, len, idx + 1, a, w);
    }
}

/// No row of a line that holds more than one character is as wide as
/// the wrap width: with the caret behind it, the row fits.
pub proof fn lemma_line_rows_narrow(tokens: Seq<Token>, inlays: Seq<Inset>, len: int, w: int)
    requires
        0 <= len <= usize::MAX,
    ensures
        narrow(line_rows(tokens, inlays, len, w), inlays, len, w),
{
    lemma_rows_from_narrow(tokens, inlays, len, 0, 0, w);
}

/// The rows of a chain, one after the other, show the characters between
/// the chain's ends.
pub proof fn lemma_chain_text(line: Seq<char>, rows: Seq<WrapRow>, from: int, to: int)
    requires
        chain(rows, from, to),
        0 <= from <= to <= line.len(),
    ensures
        rows_text(line, rows) == line.subrange(from, to),
    decreases rows.len(),
{
    if rows.len() == 1 {
        assert(rows.drop_last() =~= Seq::<WrapRow>::empty());
        assert(rows_text(line, rows.drop_last()) =~= Seq::<char>::empty());
        assert(rows_text(line, rows) =~= line.subrange(from, to));
    } else {
        let front = rows.drop_last();
        let mid = rows.last().start as int;
        assert(linked(rows, rows.len() - 2));
        assert(front.last() == rows[rows.len() - 2]);
        assert(chain(front, from, mid)) by {
            assert(front[0] == rows[0]);
            assert forall|i: int| 0 <= i < front.len() implies (#[trigger] front[i]).start
                <= front[i].end by {
                assert(front[i] == rows[i]);
            }
            assert forall|i: int| 0 <= i < front.len() - 1 implies #[trigger] linked(front, i) by {
                assert(linked(rows, i));
                assert(front[i] == rows[i] && front[i + 1] == rows[i + 1]);
            }
        }
        lemma_chain_bounds(front, from, mid, front.len() - 1);
        assert(rows[rows.len() - 1].start <= rows[rows.len() - 1].end);
        lemma_chain_text(line, front, from, mid);
        assert(line.subrange(from, mid) + line.subrange(mid, to) =~= line.subrange(from, to));
    }
}

/// Every row of a chain lies between the chain's ends.
pub proof fn lemma_chain_bounds(rows: Seq<WrapRow>, from: int, to: int, i: int)
    requires
        chain(rows, from, to),
        0 <= i < rows.len(),
    ensures
        from <= rows[i].start <= rows[i].end <= to,
{
    lemma_chain_start(rows, from, to, i);
    lemma_chain_end(rows, from, to, i);
}

pub proof fn lemma_chain_start(rows: Seq<WrapRow>, from: int, to: int, i: int)
    requires
        chain(rows, from, to),
        0 <= i < rows.len(),
    ensures
        from <= rows[i].start,
    decreases i,
{
    if i > 0 {
        lemma_chain_start(rows, from, to, i - 1);
        assert(linked(rows, i - 1));
        assert(rows[i - 1].start <= rows[i - 1].end);
    }
}

pub proof fn lemma_chain_end(rows: Seq<WrapRow>, from: int, to: int, i: int)
    requires
        chain(rows, from, to),
        0 <= i < rows.len(),
    ensures
        rows[i].end <= to,
    decreases rows.len() - i,
{
    if i < rows.len() - 1 {
        lemma_chain_end(rows, from, to, i + 1);
        assert(linked(rows, i));
        assert(rows[i + 1].start <= rows[i + 1].end);
    }
}

/// The rows of a line, one after the other, show the line's characters:
/// all of them, each once.
pub proof fn lemma_line_rows_cover(line: Seq<char>, tokens: Seq<Token>, inlays: Seq<Inset>, w: int)
    requires
        line.len() <= usize::MAX,
    ensures
        chain(line_rows(tokens, inlays, line.len() as int, w), 0, line.len() as int),
        rows_text(line, line_rows(tokens, inlays, line.len() as int, w)) == line,
{
    lemma_rows_from_chain(tokens, inlays, line.len() as int, 0, 0, w);
    lemma_chain_text(line, line_rows(tokens, inlays, line.len() as int, w), 0, line.len() as int);
    assert(line.subrange(0, line.len() as int) =~= line);
}

/// A width, or the largest number that can be represented where the
/// width is larger.
pub open spec fn capped(x: int) -> int {
    if x > usize::MAX {
        usize::MAX as int
    } else {
        x
    }
}

/// Whether one of the first `n` tokens makes `p` a preferred break.
pub open spec fn soft_boundary_among(tokens: Seq<Token>, n: int, p: int) -> bool {
    exists|i: int| i < n && #[trigger] soft_at(tokens, i, p)
}

pub fn is_soft_kind(kind: TokenKind) -> (b: bool)
    ensures
        b == is_soft(kind),
{
    kind == TokenKind::Whitespace || kind == TokenKind::Punctuation
}

/// What wrapping needs to know of one line: for every character the
/// columns that the inline inlays anchored at it take, the same for the
/// line's end, and for every offset whether a break is preferred there.
pub struct Measure {
    extras: Vec<usize>,
    end_extra: usize,
    marks: Vec<bool>,
    tokens: Ghost<Seq<Token>>,
    inlays: Ghost<Seq<Inset>>,
}

impl Measure {
    /// The number of characters of the line.
    pub closed spec fn len(&self) -> int {
        self.extras@.len() as int
    }

    /// The tokens of the line.
    pub closed spec fn tokens(&self) -> Seq<Token> {
        self.tokens@
    }

    /// The inlays of the line.
    pub closed spec fn inlays(&self) -> Seq<Inset> {
        self.inlays@
    }

    /// Whether what is held is right for the line's tokens and inlays.
    pub closed spec fn wf(&self) -> bool {
        &&& self.marks@.len() == self.extras@.len()
        &&& forall|k: int|
            0 <= k < self.extras@.len() ==> (#[trigger] self.extras@[k]) == capped(
                inline_width_at(self.inlays@, k),
            )
        &&& self.end_extra == capped(inline_width_at(self.inlays@, self.extras@.len() as int))
        &&& forall|p: int|
            0 <= p < self.marks@.len() ==> (#[trigger] self.marks@[p]) == soft_boundary(
                self.tokens@,
                p,
            )
    }

    /// Measures a line of `len` characters.
    pub fn new(len: usize, tokens: &Vec<Token>, inlays: &Vec<Inset>) -> (m: Measure)
        ensures
            m.wf(),
            m.len() == len,
            m.tokens() == tokens@,
            m.inlays() == inlays@,
    {
        let mut extras: Vec<usize> = Vec::new();
        let mut marks: Vec<bool> = Vec::new();
        let mut k: usize = 0;
        while k < len
            invariant
                k <= len,
                extras@.len() == k,
                marks@.len() == k,
                forall|j: int| 0 <= j < k ==> (#[trigger] extras@[j]) == 0,
                forall|j: int| 0 <= j < k ==> !(#[trigger] marks@[j]),
            decreases len - k,
        {
            extras.push(0);
            marks.push(false);
            k += 1;
        }
        let mut end_extra: usize = 0;
        let mut i: usize = 0;
        assert(inlays@.subrange(0, 0) =~= Seq::<Inset>::empty());
        while i < inlays.len()
            invariant
                i <= inlays@.len(),
                extras@.len() == len,
                forall|j: int|
                    0 <= j < len ==> (#[trigger] extras@[j]) == capped(
                        inline_width_at(inlays@.subrange(0, i as int), j),
                    ),
                end_extra == capped(inline_width_at(inlays@.subrange(0, i as int), len as int)),
            decreases inlays@.len() - i,
        {
            let x = inlays[i];
            let ghost before = inlays@.subrange(0, i as int);
            let ghost now = inlays@.subrange(0, i + 1);
            let ghost was = extras@;
            proof {
                assert(now.drop_last() =~= before);
                assert(now.last() == x);
                assert forall|j: int| 0 <= j <= len implies inline_width_at(before, j) >= 0 by {
                    lemma_inline_width_nonneg(before, j);
                }
            }
            if x.kind == InlayKind::Inline {
                let off = x.offset;
                if off < len {
                    let sum = extras[off].saturating_add(x.width);
                    extras.set(off, sum);
                } else if off == len {
                    end_extra = end_extra.saturating_add(x.width);
                }
            }
            proof {
                assert forall|j: int| 0 <= j < len implies (#[trigger] extras@[j]) == capped(
                    inline_width_at(now, j),
                ) by {
                    assert(was[j] == capped(inline_width_at(before, j)));
                }
            }
            i += 1;
        }
        assert(inlays@.subrange(0, i as int) =~= inlays@);
        let mut t: usize = 1;
        while t < tokens.len()
            invariant
                1 <= t,
                marks@.len() == len,
                forall|p: int|
                    0 <= p < len ==> (#[trigger] marks@[p]) == soft_boundary_among(
                        tokens@,
                        t as int,
                        p,
                    ),
            decreases tokens@.len() - t,
        {
            let at = tokens[t].start;
            let soft = is_soft_kind(tokens[t - 1].kind);
            let ghost was = marks@;
            if at < len && soft {
                marks.set(at, true);
            }
            proof {
                assert forall|p: int| 0 <= p < len implies (#[trigger] marks@[p])
                    == soft_boundary_among(tokens@, t + 1, p) by {
                    assert(was[p] == soft_boundary_among(tokens@, t as int, p));
                    if was[p] {
                        let i = choose|i: int| i < t && #[trigger] soft_at(tokens@, i, p);
                        assert(i < t + 1 && soft_at(tokens@, i, p));
                    } else if p == at && soft {
                        assert(soft_at(tokens@, t as int, p));
                    } else if soft_boundary_among(tokens@, t + 1, p) {
                        let i = choose|i: int| i < t + 1 && #[trigger] soft_at(tokens@, i, p);
                        if i < t {
                            assert(soft_boundary_among(tokens@, t as int, p));
                        }
                    }
                }
            }
            t += 1;
        }
        proof {
            assert forall|p: int| 0 <= p < len implies (#[trigger] marks@[p]) == soft_boundary(
                tokens@,
                p,
            ) by {
                assert(marks@[p] == soft_boundary_among(tokens@, t as int, p));
                if soft_boundary(tokens@, p) {
                    let i = choose|i: int| #[trigger] soft_at(tokens@, i, p);
                    assert(i < t && soft_at(tokens@, i, p));
                }
                if soft_boundary_among(tokens@, t as int, p) {
                    let i = choose|i: int| i < t && #[trigger] soft_at(tokens@, i, p);
                    assert(soft_at(tokens@, i, p));
                }
            }
        }
        Measure { extras, end_extra, marks, tokens: Ghost(tokens@), inlays: Ghost(inlays@) }
    }

    /// The columns that the characters from `s` up to and with `e` take,
    /// given those that the characters from `s` up to `e` take; the
    /// largest number that can be represented stands for any larger one.
    fn widen(&self, s: usize, upto: usize, e: usize) -> (wide: usize)
        requires
            self.wf(),
            s <= e < self.len(),
            upto == capped(span_width(self.inlays(), s as int, e as int)),
        ensures
            wide == capped(span_width(self.inlays(), s as int, e + 1)),
    {
        proof {
            lemma_inline_width_nonneg(self.inlays@, e as int);
            lemma_span_width_grows(self.inlays@, s as int, e as int, e as int);
        }
        upto.saturating_add(1).saturating_add(self.extras[e])
    }

    /// How far a row that begins at `s` can go towards `b` and stay
    /// narrower than `w`; one character at least.
    fn reach(&self, s: usize, b: usize, w: usize) -> (r: usize)
        requires
            self.wf(),
            s < b <= self.len(),
        ensures
            r == reach_up(self.inlays(), self.len(), s as int, s + 1, b as int, w as int),
            s < r <= b,
    {
        let ghost len = self.len();
        let ghost inl = self.inlays@;
        let n = self.extras.len();
        proof {
            lemma_inline_width_nonneg(inl, len);
            assert(span_width(inl, s as int, s as int) == 0);
        }
        let mut e: usize = s + 1;
        let mut acc: usize = self.widen(s, 0, s);
        let mut open = true;
        while open && e < b
            invariant
                self.wf(),
                len == self.len(),
                inl == self.inlays(),
                n == len,
                s < e <= b <= len,
                acc == capped(span_width(inl, s as int, e as int)),
                inline_width_at(inl, len) >= 0,
                reach_up(inl, len, s as int, e as int, b as int, w as int) == reach_up(
                    inl,
                    len,
                    s as int,
                    s + 1,
                    b as int,
                    w as int,
                ),
                !open ==> reach_up(inl, len, s as int, e as int, b as int, w as int) == e,
            decreases b - e + (if open { 1int } else { 0int }),
        {
            let next = self.widen(s, acc, e);
            let wide = if e + 1 == n {
                next.saturating_add(self.end_extra)
            } else {
                next
            };
            proof {
                lemma_span_width_grows(inl, s as int, e + 1, e + 1);
                assert(wide == capped(row_width(inl, len, s as int, e + 1)));
            }
            if wide < w {
                e += 1;
                acc = next;
            } else {
                open = false;
            }
        }
        e
    }

    /// The last preferred break behind `s` and not behind `r`, or `s` if
    /// there is none.
    fn last_soft(&self, s: usize, r: usize) -> (p: usize)
        requires
            self.wf(),
            s <= r < self.len(),
        ensures
            p == soft_break(self.tokens(), s as int, r as int),
            s <= p <= r,
    {
        let mut p: usize = r;
        while p > s && !self.marks[p]
            invariant
                self.wf(),
                s <= p <= r,
                r < self.len(),
                soft_break(self.tokens(), s as int, p as int) == soft_break(
                    self.tokens(),
                    s as int,
                    r as int,
                ),
            decreases p,
        {
            p -= 1;
        }
        p
    }

    /// Where the row ends that begins at `s`, in a stretch of the line
    /// that ends at `b`, for the wrap width `w`.
    pub fn row_end(&self, s: usize, b: usize, w: usize) -> (e: usize)
        requires
            self.wf(),
            s < b <= self.len(),
        ensures
            e == row_end(self.tokens(), self.inlays(), self.len(), s as int, b as int, w as int),
            s < e <= b,
    {
        proof {
            reveal(row_end);
        }
        let r = self.reach(s, b, w);
        if r >= b {
            return b;
        }
        let p = self.last_soft(s, r);
        if p > s {
            p
        } else {
            r
        }
    }
}

/// Appends the rows of the text from `a` up to `b` to `rows`: none where
/// there is no text.
pub fn push_span(rows: &mut Vec<WrapRow>, measure: &Measure, a: usize, b: usize, w: usize)
    requires
        measure.wf(),
        a <= b <= measure.len(),
    ensures
        final(rows)@ == old(rows)@ + wrap_span(
            measure.tokens(),
            measure.inlays(),
            measure.len(),
            a as int,
            b as int,
            w as int,
        ),
{
    let ghost all = wrap_span(
        measure.tokens(),
        measure.inlays(),
        measure.len(),
        a as int,
        b as int,
        w as int,
    );
    let mut s: usize = a;
    assert(old(rows)@ + all =~= rows@ + all);
    while s < b
        invariant
            measure.wf(),
            a <= s <= b <= measure.len(),
            rows@ + wrap_span(
                measure.tokens(),
                measure.inlays(),
                measure.len(),
                s as int,
                b as int,
                w as int,
            ) == old(rows)@ + all,
        decreases b - s,
    {
        let e = measure.row_end(s, b, w);
        let row = WrapRow { start: s, end: e, kind: RowKind::Text };
        proof {
            let rest = wrap_span(
                measure.tokens(),
                measure.inlays(),
                measure.len(),
                e as int,
                b as int,
                w as int,
            );
            assert(wrap_span(
                measure.tokens(),
                measure.inlays(),
                measure.len(),
                s as int,
                b as int,
                w as int,
            ) == seq![row] + rest);
            assert(rows@.push(row) + rest =~= rows@ + (seq![row] + rest));
        }
        rows.push(row);
        s = e;
    }
    assert(rows@ + Seq::<WrapRow>::empty() =~= rows@);
}

/// Appends the rows of the stretch from `a` up to `b` to `rows`: one
/// empty row where it holds no character.
pub fn push_stretch(rows: &mut Vec<WrapRow>, measure: &Measure, a: usize, b: usize, w: usize)
    requires
        measure.wf(),
        a <= b <= measure.len(),
    ensures
        final(rows)@ == old(rows)@ + stretch_rows(
            measure.tokens(),
            measure.inlays(),
            measure.len(),
            a as int,
            b as int,
            w as int,
        ),
{
    if a >= b {
        rows.push(WrapRow { start: a, end: a, kind: RowKind::Text });
        assert(rows@ =~= old(rows)@ + seq![
            WrapRow { start: a, end: a, kind: RowKind::Text },
        ]);
    } else {
        push_span(rows, measure, a, b, w);
    }
}

/// Lays out one line of `len` characters as rows for the wrap width `w`.
/// The rows show every character of the line once, in order; the row of
/// a block inlay stands between the rows of the text before and behind
/// its anchor.
pub fn wrap_line(len: usize, tokens: &Vec<Token>, inlays: &Vec<Inset>, w: usize) -> (rows: Vec<
    WrapRow,
>)
    ensures
        rows@ == line_rows(tokens@, inlays@, len as int, w as int),
        chain(rows@, 0, len as int),
{
    let measure = Measure::new(len, tokens, inlays);
    let mut rows: Vec<WrapRow> = Vec::new();
    let mut a: usize = 0;
    let mut idx: usize = 0;
    let ghost all = line_rows(tokens@, inlays@, len as int, w as int);
    assert(rows@ + all =~= all);
    while idx < inlays.len()
        invariant
            measure.wf(),
            measure.len() == len,
            measure.tokens() == tokens@,
            measure.inlays() == inlays@,
            idx <= inlays@.len(),
            a <= len,
            rows@ + rows_from(tokens@, inlays@, len as int, idx as int, a as int, w as int) == all,
        decreases inlays@.len() - idx,
    {
        let x = inlays[idx];
        if x.kind == InlayKind::Block && a <= x.offset && x.offset <= len {
            let off = x.offset;
            let ghost was = rows@;
            let ghost text = wrap_span(tokens@, inlays@, len as int, a as int, off as int, w as int);
            let ghost rest = rows_from(tokens@, inlays@, len as int, idx + 1, off as int, w as int);
            let block = WrapRow { start: off, end: off, kind: RowKind::Block(x.id) };
            push_span(&mut rows, &measure, a, off, w);
            rows.push(block);
            assert(rows@ + rest =~= was + (text + seq![block] + rest));
            a = off;
        }
        idx += 1;
    }
    push_stretch(&mut rows, &measure, a, len, w);
    proof {
        lemma_line_rows_chain(tokens@, inlays@, len as int, w as int);
    }
    rows
}

/// The rows of a line lead from its first character to its end.
pub proof fn lemma_line_rows_chain(tokens: Seq<Token>, inlays: Seq<Inset>, len: int, w: int)
    requires
        0 <= len <= usize::MAX,
    ensures
        chain(line_rows(tokens, inlays, len, w), 0, len),
{
    lemma_rows_from_chain(tokens, inlays, len, 0, 0, w);
}

} // verus!
