//! How a position moves when the text around it is edited.

use vstd::prelude::*;
use crate::position::{Position, Range};
use crate::text::{well_formed, splice, insert_end, lemma_splice_well_formed};

verus! {

/// Where `p` lies after `range` was replaced by a text that now ends at
/// `end`, as a line and an offset.
///
/// A position at or behind the end of the replaced range keeps its distance
/// from that end. A position before the range, or at the start of a range
/// that is not empty, stays. A position inside the replaced range moves to
/// the end of the new text.
pub open spec fn remap_coords(p: Position, range: Range, end: Position) -> (int, int) {
    if range.end.spec_le(p) {
        if p.line == range.end.line {
            (end.line as int, end.offset + (p.offset - range.end.offset))
        } else {
            (end.line + (p.line - range.end.line), p.offset as int)
        }
    } else if p.spec_le(range.start) {
        (p.line as int, p.offset as int)
    } else {
        (end.line as int, end.offset as int)
    }
}

/// Whether the remapped position can be represented.
pub open spec fn remap_fits(p: Position, range: Range, end: Position) -> bool {
    remap_coords(p, range, end).0 <= usize::MAX && remap_coords(p, range, end).1 <= usize::MAX
}

/// Where `p` lies after the edit, as a position.
pub open spec fn remap(p: Position, range: Range, end: Position) -> Position {
    Position {
        line: remap_coords(p, range, end).0 as usize,
        offset: remap_coords(p, range, end).1 as usize,
    }
}

/// The end of the text of an edit, as a position.
pub open spec fn end_position(start: Position, text: Seq<Seq<char>>) -> Position {
    Position {
        line: insert_end(start, text).0 as usize,
        offset: insert_end(start, text).1 as usize,
    }
}

/// Moves a position across an edit. Gives `None` where the new position
/// cannot be represented.
pub fn remap_position(p: Position, range: Range, end: Position) -> (res: Option<Position>)
    requires
        range.ordered(),
    ensures
        res is Some <==> remap_fits(p, range, end),
        res is Some ==> res->0 == remap(p, range, end),
{
    if range.end.is_at_or_before(&p) {
        if p.line == range.end.line {
            match end.offset.checked_add(p.offset - range.end.offset) {
                Some(offset) => Some(Position { line: end.line, offset }),
                None => None,
            }
        } else {
            match end.line.checked_add(p.line - range.end.line) {
                Some(line) => Some(Position { line, offset: p.offset }),
                None => None,
            }
        }
    } else if p.is_at_or_before(&range.start) {
        Some(p)
    } else {
        Some(end)
    }
}

/// Remapping keeps the order of positions.
pub proof fn lemma_remap_monotone(p: Position, q: Position, range: Range, end: Position)
    requires
        range.ordered(),
        range.start.spec_le(end),
        p.spec_le(q),
        remap_fits(p, range, end),
        remap_fits(q, range, end),
    ensures
        remap(p, range, end).spec_le(remap(q, range, end)),
{
}

/// A position that is valid before an edit is, remapped, valid after it.
pub proof fn lemma_remap_valid(lines: Seq<Seq<char>>, range: Range, text: Seq<Seq<char>>, p: Position)
    requires
        well_formed(lines),
        well_formed(text),
        range.valid_in(lines),
        p.valid_in(lines),
        splice(lines, range, text).len() <= usize::MAX,
        forall|i: int|
            0 <= i < splice(lines, range, text).len() ==> (#[trigger] splice(
                lines,
                range,
                text,
            )[i]).len() <= usize::MAX,
    ensures
        remap_fits(p, range, end_position(range.start, text)),
        remap(p, range, end_position(range.start, text)).valid_in(splice(lines, range, text)),
        range.start.spec_le(end_position(range.start, text)),
        end_position(range.start, text).valid_in(splice(lines, range, text)),
{
    let after = splice(lines, range, text);
    let end = end_position(range.start, text);
    lemma_splice_well_formed(lines, range, text);
    let s = range.start;
    let e = range.end;
    let head = lines[s.line as int].subrange(0, s.offset as int);
    let tail = lines[e.line as int].subrange(e.offset as int, lines[e.line as int].len() as int);
    let mid = crate::text::graft(head, text, tail);
    assert(after[s.line as int] == mid[0]);
    assert(after[s.line + text.len() - 1] == mid[text.len() - 1]);
    assert(after[end.line as int].len() <= usize::MAX);
    if e.spec_le(p) {
        if p.line == e.line {
        } else {
            let k = p.line - e.line + end.line;
            assert(after[k] == lines[p.line as int]);
        }
    } else if p.spec_le(s) {
        if p.line < s.line {
            assert(after[p.line as int] == lines[p.line as int]);
        }
    }
}

} // verus!
