//! A session: what one view of a document keeps for itself, its
//! selections, its undo history and the rows it wraps the lines into.

use vstd::prelude::*;
use crate::position::{Position, Range};
use crate::text::{lemma_splice_outside};
use crate::buffer::{Edit, EditError};
use crate::selection::{
    Selection, SelectionSet, separated, all_valid_in, merge_pass, place, normalize, remap_all,
    all_remap_fit, sort_by_start, sorted_by_start, lemma_merge_pass_valid, lemma_sort_sorted,
    lemma_merge_pass_separated, lemma_place_sorted, lemma_separated_sorted,
};
use crate::history::{History, HistoryEntry, EntryView, all_entries_wf, all_entries_fit, remap_entries};
use crate::wrap::WrapRow;
use crate::layout::{WrapLayout, layout_ok, lemma_layout_follows};
use crate::document::{Document, Change, edited};
use crate::moves::{Motion, moved_selection, move_selection};
use crate::remap::{lemma_remap_valid, remap_fits};
use crate::inlay::strictly_inside;

verus! {

/// Each selection moved by a motion.
pub open spec fn move_each(
    s: Seq<Selection>,
    motion: Motion,
    extend: bool,
    doc: Document,
    rows: Seq<Seq<WrapRow>>,
) -> Seq<Selection> {
    Seq::new(
        s.len(),
        |i: int| moved_selection(s[i], motion, extend, doc.lines(), doc.tokens(), rows),
    )
}

/// Sorting and merging selections that lie in a text gives selections
/// that lie in it.
pub proof fn lemma_normalize_valid(s: Seq<Selection>, lines: Seq<Seq<char>>)
    requires
        all_valid_in(s, lines),
    ensures
        all_valid_in(normalize(s), lines),
        separated(normalize(s)),
{
    lemma_sort_sorted(s);
    let sorted = sort_by_start(s);
    assert forall|i: int| 0 <= i < sorted.len() implies (#[trigger] sorted[i]).valid_in(lines) by {
        assert(s.contains(sorted[i]));
        let k = choose|k: int| 0 <= k < s.len() && s[k] == sorted[i];
        assert(s[k].valid_in(lines));
    }
    lemma_merge_pass_valid(sorted, lines);
    lemma_merge_pass_separated(sorted);
}

/// Whether each of the selections lies in the document's text.
pub fn all_inside(sels: &Vec<Selection>, doc: &Document) -> (b: bool)
    ensures
        b == all_valid_in(sels@, doc.lines()),
{
    let mut i: usize = 0;
    while i < sels.len()
        invariant
            i <= sels@.len(),
            forall|k: int| 0 <= k < i ==> (#[trigger] sels@[k]).valid_in(doc.lines()),
        decreases sels@.len() - i,
    {
        let x = sels[i];
        if !doc.buffer().contains_position(x.anchor) || !doc.buffer().contains_position(x.head) {
            assert(!sels@[i as int].valid_in(doc.lines()));
            return false;
        }
        i += 1;
    }
    true
}

/// A session.
#[derive(Debug)]
pub struct Session {
    document: usize,
    selections: SelectionSet,
    history: History,
    layout: WrapLayout,
}

impl Session {
    /// The handle of the document that the session views.
    pub closed spec fn document_id(&self) -> usize {
        self.document
    }

    pub closed spec fn selections(&self) -> Seq<Selection> {
        self.selections@
    }

    pub closed spec fn undo_stack(&self) -> Seq<EntryView> {
        self.history.undo_stack()
    }

    pub closed spec fn redo_stack(&self) -> Seq<EntryView> {
        self.history.redo_stack()
    }

    /// The rows of every line.
    pub closed spec fn rows(&self) -> Seq<Seq<WrapRow>> {
        self.layout.rows()
    }

    /// The wrap width.
    pub closed spec fn width(&self) -> usize {
        self.layout.width()
    }

    /// The selections are sorted, no two of them overlap or touch, and
    /// each lies in the document's text; the rows are those of the
    /// document's lines; the history is well-formed.
    pub open spec fn wf_for(&self, doc: Document) -> bool {
        &&& separated(self.selections())
        &&& all_valid_in(self.selections(), doc.lines())
        &&& all_entries_wf(self.undo_stack())
        &&& all_entries_wf(self.redo_stack())
        &&& layout_ok(self.rows(), self.width(), doc.lines(), doc.tokens(), doc.inlays())
    }

    /// A session on the document with the handle `document`: one cursor
    /// at the start of the text, and nothing to undo.
    pub fn new(document: usize, doc: &Document, width: usize) -> (s: Session)
        requires
            doc.wf(),
        ensures
            s.wf_for(*doc),
            s.document_id() == document,
            s.width() == width,
            s.selections() == seq![
                Selection {
                    anchor: Position { line: 0, offset: 0 },
                    head: Position { line: 0, offset: 0 },
                    column: None,
                },
            ],
            s.undo_stack() == Seq::<EntryView>::empty(),
            s.redo_stack() == Seq::<EntryView>::empty(),
    {
        Session {
            document,
            selections: SelectionSet::new(),
            history: History::new(),
            layout: WrapLayout::new(width, doc),
        }
    }

    pub fn document(&self) -> (d: usize)
        ensures
            d == self.document_id(),
    {
        self.document
    }

    pub fn wrap_width(&self) -> (w: usize)
        ensures
            w == self.width(),
    {
        self.layout.wrap_width()
    }

    /// The selections, in order.
    pub fn selection_list(&self) -> (v: Vec<Selection>)
        ensures
            v@ == self.selections(),
    {
        self.selections.to_vec()
    }

    /// The rows of the lines from `from` up to `to`, in order, each with
    /// the number of its line.
    pub fn visible_rows(&self, from: usize, to: usize) -> (found: Vec<crate::layout::PlacedRow>)
        ensures
            found@ == crate::layout::rows_between(
                self.rows(),
                from as int,
                if to <= self.rows().len() {
                    to as int
                } else {
                    self.rows().len() as int
                },
            ),
    {
        self.layout.visible_rows(from, to)
    }

    /// The rows of line `line`.
    pub fn line_rows(&self, line: usize) -> (rows: &Vec<WrapRow>)
        requires
            line < self.rows().len(),
        ensures
            rows@ == self.rows()[line as int],
    {
        self.layout.line_rows(line)
    }

    pub fn undo_len(&self) -> (n: usize)
        ensures
            n == self.undo_stack().len(),
    {
        self.history.undo_len()
    }

    pub fn redo_len(&self) -> (n: usize)
        ensures
            n == self.redo_stack().len(),
    {
        self.history.redo_len()
    }

    /// The entry that would be undone next.
    pub fn peek_undo(&self) -> (e: Option<&HistoryEntry>)
        ensures
            e is Some <==> self.undo_stack().len() > 0,
            e is Some ==> e->0@ == self.undo_stack().last(),
    {
        self.history.peek_undo()
    }

    /// The entry that would be redone next.
    pub fn peek_redo(&self) -> (e: Option<&HistoryEntry>)
        ensures
            e is Some <==> self.redo_stack().len() > 0,
            e is Some ==> e->0@ == self.redo_stack().last(),
    {
        self.history.peek_redo()
    }

    /// Follows an edit of the document: the selections are moved across
    /// it and merged, and the rows of the lines that changed are laid out
    /// anew.
    pub fn follow_edit(
        &mut self,
        doc: &Document,
        prev: Ghost<Document>,
        range: Range,
        text: Ghost<Seq<Seq<char>>>,
        change: &Change,
    )
        requires
            old(self).wf_for(prev@),
            edited(prev@, *doc, range, text@, *change),
        ensures
            final(self).wf_for(*doc),
            final(self).selections() == merge_pass(
                remap_all(old(self).selections(), range, change.inverse.range.end),
            ),
            final(self).document_id() == old(self).document_id(),
            final(self).width() == old(self).width(),
            final(self).undo_stack() == old(self).undo_stack(),
            final(self).redo_stack() == old(self).redo_stack(),
    {
        let end = change.inverse.range.end;
        let ghost sels = self.selections@;
        let ghost old_rows = self.layout.rows();
        proof {
            doc.lemma_fits();
            lemma_remap_valid(prev@.lines(), range, text@, range.start);
            assert forall|i: int| 0 <= i < sels.len() implies (#[trigger] sels[i]).remap_fits(
                range,
                end,
            ) by {
                lemma_remap_valid(prev@.lines(), range, text@, sels[i].anchor);
                lemma_remap_valid(prev@.lines(), range, text@, sels[i].head);
            }
        }
        let _ = self.selections.remap_across_edit(range, end);
        self.layout.update(doc, change.first, change.old_end, change.new_end);
        proof {
            let mapped = remap_all(sels, range, end);
            assert forall|i: int| 0 <= i < mapped.len() implies (#[trigger] mapped[i]).valid_in(
                doc.lines(),
            ) by {
                lemma_remap_valid(prev@.lines(), range, text@, sels[i].anchor);
                lemma_remap_valid(prev@.lines(), range, text@, sels[i].head);
            }
            lemma_merge_pass_valid(mapped, doc.lines());
            lemma_splice_outside(prev@.lines(), range, text@);
            let old_inlays = prev@.inlays();
            assert forall|i: int|
                0 <= i < old_inlays.len() && !strictly_inside(
                    (#[trigger] old_inlays[i]).anchor,
                    range,
                ) implies remap_fits(old_inlays[i].anchor, range, end) by {
                lemma_remap_valid(prev@.lines(), range, text@, old_inlays[i].anchor);
            }
            assert forall|i: int| change.new_end <= i < doc.lines().len() implies doc.lines()[i]
                == prev@.lines()[i - change.new_end + change.old_end] by {
                let j = i - change.new_end + change.old_end;
                assert(doc.lines()[j - range.end.line + end.line] == prev@.lines()[j]);
            }
            lemma_layout_follows(
                old_rows,
                self.layout.rows(),
                self.layout.width(),
                prev@.lines(),
                doc.lines(),
                prev@.tokens(),
                doc.tokens(),
                old_inlays,
                range,
                end,
                change.first as int,
                change.old_end as int,
                change.new_end as int,
            );
        }
    }

    /// Follows a change of the inlays of the document: every line is laid
    /// out anew.
    pub fn relayout(&mut self, doc: &Document, prev: Ghost<Document>)
        requires
            old(self).wf_for(prev@),
            doc.wf(),
            doc.lines() == prev@.lines(),
        ensures
            final(self).wf_for(*doc),
            final(self).selections() == old(self).selections(),
            final(self).document_id() == old(self).document_id(),
            final(self).width() == old(self).width(),
            final(self).undo_stack() == old(self).undo_stack(),
            final(self).redo_stack() == old(self).redo_stack(),
    {
        let width = self.layout.wrap_width();
        self.layout.set_width(width, doc);
    }

    /// Carries the history across an edit that another session made.
    pub fn remap_history(&mut self, range: Range, end: Position)
        requires
            all_entries_wf(old(self).undo_stack()),
            all_entries_wf(old(self).redo_stack()),
            range.ordered(),
            range.start.spec_le(end),
        ensures
            all_entries_wf(final(self).undo_stack()),
            all_entries_wf(final(self).redo_stack()),
            final(self).selections() == old(self).selections(),
            final(self).document_id() == old(self).document_id(),
            final(self).width() == old(self).width(),
            final(self).rows() == old(self).rows(),
            all_entries_fit(old(self).undo_stack(), range, end) && all_entries_fit(
                old(self).redo_stack(),
                range,
                end,
            ) ==> final(self).undo_stack() == remap_entries(old(self).undo_stack(), range, end)
                && final(self).redo_stack() == remap_entries(old(self).redo_stack(), range, end),
            !(all_entries_fit(old(self).undo_stack(), range, end) && all_entries_fit(
                old(self).redo_stack(),
                range,
                end,
            )) ==> final(self).undo_stack() == Seq::<EntryView>::empty() && final(self).redo_stack() == Seq::<EntryView>::empty(),
    {
        self.history.remap_across_edit(range, end);
    }

    /// Records an edit that this session made, with the selections
    /// before it; the selections after it are those of now.
    pub fn record(&mut self, forward: Edit, inverse: Edit, before: Vec<Selection>, group: Option<u64>)
        requires
            all_entries_wf(old(self).undo_stack()),
            all_entries_wf(old(self).redo_stack()),
            forward.wf(),
            inverse.wf(),
            inverse.range.start == forward.range.start,
        ensures
            all_entries_wf(final(self).undo_stack()),
            final(self).selections() == old(self).selections(),
            final(self).document_id() == old(self).document_id(),
            final(self).width() == old(self).width(),
            final(self).rows() == old(self).rows(),
            final(self).redo_stack() == Seq::<EntryView>::empty(),
            final(self).undo_stack() == (if old(self).undo_stack().len() > 0 && old(
                self,
            ).undo_stack().last().takes(forward@, group) {
                old(self).undo_stack().drop_last().push(
                    old(self).undo_stack().last().joined_with(
                        forward@,
                        inverse@,
                        old(self).selections(),
                    ),
                )
            } else {
                old(self).undo_stack().push(
                    (EntryView {
                        forward: forward@,
                        inverse: inverse@,
                        before: before@,
                        after: old(self).selections(),
                        group,
                    }),
                )
            }),
    {
        let after = self.selections.to_vec();
        self.history.record(forward, inverse, before, after, group);
    }

    /// Moves the top entry of the undo stack to the redo stack.
    pub fn commit_undo(&mut self)
        requires
            all_entries_wf(old(self).undo_stack()),
            all_entries_wf(old(self).redo_stack()),
            old(self).undo_stack().len() > 0,
        ensures
            all_entries_wf(final(self).undo_stack()),
            all_entries_wf(final(self).redo_stack()),
            final(self).selections() == old(self).selections(),
            final(self).document_id() == old(self).document_id(),
            final(self).width() == old(self).width(),
            final(self).rows() == old(self).rows(),
            final(self).undo_stack() == old(self).undo_stack().drop_last(),
            final(self).redo_stack() == old(self).redo_stack().push(old(self).undo_stack().last()),
    {
        let _ = self.history.undo();
    }

    /// Moves the top entry of the redo stack to the undo stack.
    pub fn commit_redo(&mut self)
        requires
            all_entries_wf(old(self).undo_stack()),
            all_entries_wf(old(self).redo_stack()),
            old(self).redo_stack().len() > 0,
        ensures
            all_entries_wf(final(self).undo_stack()),
            all_entries_wf(final(self).redo_stack()),
            final(self).selections() == old(self).selections(),
            final(self).document_id() == old(self).document_id(),
            final(self).width() == old(self).width(),
            final(self).rows() == old(self).rows(),
            final(self).redo_stack() == old(self).redo_stack().drop_last(),
            final(self).undo_stack() == old(self).undo_stack().push(old(self).redo_stack().last()),
    {
        let _ = self.history.redo();
    }

    /// Puts the given selections, sorted and merged, in the place of the
    /// session's own, if each of them lies in the document's text. Says
    /// whether it did.
    pub fn restore_selections(&mut self, snapshot: &Vec<Selection>, doc: &Document) -> (done: bool)
        requires
            old(self).wf_for(*doc),
        ensures
            final(self).wf_for(*doc),
            done == all_valid_in(snapshot@, doc.lines()),
            done ==> final(self).selections() == normalize(snapshot@),
            !done ==> final(self).selections() == old(self).selections(),
            final(self).document_id() == old(self).document_id(),
            final(self).width() == old(self).width(),
            final(self).rows() == old(self).rows(),
            final(self).undo_stack() == old(self).undo_stack(),
            final(self).redo_stack() == old(self).redo_stack(),
    {
        if !all_inside(snapshot, doc) {
            return false;
        }
        proof {
            lemma_normalize_valid(snapshot@, doc.lines());
        }
        self.selections.set_all(snapshot);
        true
    }

    /// Adds a selection. It is joined with every selection that it
    /// overlaps or touches. A selection outside the text is refused.
    pub fn add_selection(&mut self, x: Selection, doc: &Document) -> (res: Result<(), EditError>)
        requires
            old(self).wf_for(*doc),
        ensures
            final(self).wf_for(*doc),
            res is Ok <==> x.valid_in(doc.lines()),
            res is Ok ==> final(self).selections() == merge_pass(place(old(self).selections(), x)),
            res is Err ==> final(self).selections() == old(self).selections(),
            final(self).document_id() == old(self).document_id(),
            final(self).width() == old(self).width(),
            final(self).rows() == old(self).rows(),
            final(self).undo_stack() == old(self).undo_stack(),
            final(self).redo_stack() == old(self).redo_stack(),
    {
        if !doc.buffer().contains_position(x.anchor) || !doc.buffer().contains_position(x.head) {
            return Err(EditError::OutOfBounds);
        }
        proof {
            let was = self.selections@;
            lemma_separated_sorted(was);
            lemma_place_sorted(was, x);
            let placed = place(was, x);
            assert forall|i: int| 0 <= i < placed.len() implies (#[trigger] placed[i]).valid_in(
                doc.lines(),
            ) by {
                if placed[i] != x {
                    let k = choose|k: int| 0 <= k < was.len() && was[k] == placed[i];
                    assert(was[k].valid_in(doc.lines()));
                }
            }
            lemma_merge_pass_valid(placed, doc.lines());
        }
        self.selections.add(x);
        Ok(())
    }

    /// Replaces all selections by one. A selection outside the text is
    /// refused.
    pub fn clear_to(&mut self, x: Selection, doc: &Document) -> (res: Result<(), EditError>)
        requires
            old(self).wf_for(*doc),
        ensures
            final(self).wf_for(*doc),
            res is Ok <==> x.valid_in(doc.lines()),
            res is Ok ==> final(self).selections() == seq![x],
            res is Err ==> final(self).selections() == old(self).selections(),
            final(self).document_id() == old(self).document_id(),
            final(self).width() == old(self).width(),
            final(self).rows() == old(self).rows(),
            final(self).undo_stack() == old(self).undo_stack(),
            final(self).redo_stack() == old(self).redo_stack(),
    {
        if !doc.buffer().contains_position(x.anchor) || !doc.buffer().contains_position(x.head) {
            return Err(EditError::OutOfBounds);
        }
        self.selections.clear_to(x);
        Ok(())
    }

    /// Moves the head of every selection by a motion, and the anchor with
    /// it unless the selections are being extended; then sorts and merges
    /// the selections.
    pub fn move_all(&mut self, motion: Motion, extend: bool, doc: &Document)
        requires
            old(self).wf_for(*doc),
            doc.wf(),
        ensures
            final(self).wf_for(*doc),
            final(self).selections() == normalize(
                move_each(old(self).selections(), motion, extend, *doc, old(self).rows()),
            ),
            final(self).document_id() == old(self).document_id(),
            final(self).width() == old(self).width(),
            final(self).rows() == old(self).rows(),
            final(self).undo_stack() == old(self).undo_stack(),
            final(self).redo_stack() == old(self).redo_stack(),
    {
        let current = self.selections.to_vec();
        let ghost target = move_each(current@, motion, extend, *doc, self.layout.rows());
        let mut moved: Vec<Selection> = Vec::new();
        let mut i: usize = 0;
        while i < current.len()
            invariant
                i <= current@.len(),
                doc.wf(),
                self.layout.consistent(doc),
                all_valid_in(current@, doc.lines()),
                target == move_each(current@, motion, extend, *doc, self.layout.rows()),
                moved@.len() == i,
                forall|k: int| 0 <= k < i ==> (#[trigger] moved@[k]) == target[k],
                forall|k: int| 0 <= k < i ==> (#[trigger] moved@[k]).valid_in(doc.lines()),
            decreases current@.len() - i,
        {
            let x = current[i];
            assert(current@[i as int].valid_in(doc.lines()));
            match move_selection(x, motion, extend, doc, &self.layout) {
                Ok(y) => {
                    moved.push(y);
                },
                Err(_) => {
                    moved.push(x);
                },
            }
            i += 1;
        }
        proof {
            assert(moved@ =~= target);
            lemma_normalize_valid(moved@, doc.lines());
        }
        self.selections.set_all(&moved);
    }

    /// Lays the document out anew for another wrap width.
    pub fn set_wrap_width(&mut self, width: usize, doc: &Document)
        requires
            old(self).wf_for(*doc),
            doc.wf(),
        ensures
            final(self).wf_for(*doc),
            final(self).width() == width,
            final(self).selections() == old(self).selections(),
            final(self).document_id() == old(self).document_id(),
            final(self).undo_stack() == old(self).undo_stack(),
            final(self).redo_stack() == old(self).redo_stack(),
    {
        self.layout.set_width(width, doc);
    }
}

} // verus!
