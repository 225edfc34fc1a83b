//! The undo history of a session: two stacks of edits, each with its
//! inverse and with the selections before and after it.

use vstd::prelude::*;
use crate::position::{Position, Range};
use crate::buffer::{Edit, EditView};
use crate::text::concat_text;
use crate::selection::{Selection, remap_all, all_remap_fit, copy_selections};
use crate::remap::{remap, remap_fits, remap_position, lemma_remap_monotone};

verus! {

/// One step that can be undone and redone: the edit, the edit that undoes
/// it, the selections before and after, and the gesture that it belongs
/// to, if any.
#[derive(Debug)]
pub struct HistoryEntry {
    pub forward: Edit,
    pub inverse: Edit,
    pub before: Vec<Selection>,
    pub after: Vec<Selection>,
    pub group: Option<u64>,
}

/// A history entry as a value.
pub struct EntryView {
    pub forward: EditView,
    pub inverse: EditView,
    pub before: Seq<Selection>,
    pub after: Seq<Selection>,
    pub group: Option<u64>,
}

impl View for HistoryEntry {
    type V = EntryView;

    open spec fn view(&self) -> EntryView {
        EntryView {
            forward: self.forward@,
            inverse: self.inverse@,
            before: self.before@,
            after: self.after@,
            group: self.group,
        }
    }
}

impl Clone for HistoryEntry {
    fn clone(&self) -> (e: HistoryEntry)
        ensures
            e@ == self@,
    {
        HistoryEntry {
            forward: self.forward.clone(),
            inverse: self.inverse.clone(),
            before: copy_selections(&self.before),
            after: copy_selections(&self.after),
            group: self.group,
        }
    }
}

impl HistoryEntry {
    pub open spec fn wf(&self) -> bool {
        self.forward.wf() && self.inverse.wf()
    }
}

impl EntryView {
    pub open spec fn wf(self) -> bool {
        &&& crate::text::well_formed(self.forward.text)
        &&& crate::text::well_formed(self.inverse.text)
        &&& self.forward.range.ordered()
        &&& self.inverse.range.ordered()
    }

    /// Whether a new edit goes into this entry instead of into one of its
    /// own: both belong to one gesture, and the new edit inserts text
    /// where the text of this entry ends.
    pub open spec fn takes(self, forward: EditView, group: Option<u64>) -> bool {
        &&& group is Some
        &&& self.group == group
        &&& forward.range.start == forward.range.end
        &&& forward.range.start == self.inverse.range.end
    }

    /// This entry with a new edit taken in: it replaces what this entry
    /// replaced, by this entry's text and the new text behind it.
    pub open spec fn joined_with(
        self,
        forward: EditView,
        inverse: EditView,
        after: Seq<Selection>,
    ) -> EntryView {
        EntryView {
            forward: EditView {
                range: self.forward.range,
                text: concat_text(self.forward.text, forward.text),
            },
            inverse: EditView {
                range: Range { start: self.inverse.range.start, end: inverse.range.end },
                text: self.inverse.text,
            },
            before: self.before,
            after,
            group: self.group,
        }
    }

    pub open spec fn remap_fits(self, range: Range, end: Position) -> bool {
        &&& remap_fits(self.forward.range.start, range, end)
        &&& remap_fits(self.forward.range.end, range, end)
        &&& remap_fits(self.inverse.range.start, range, end)
        &&& remap_fits(self.inverse.range.end, range, end)
        &&& all_remap_fit(self.before, range, end)
        &&& all_remap_fit(self.after, range, end)
    }

    /// The entry with every position in it moved across an edit.
    pub open spec fn remapped(self, range: Range, end: Position) -> EntryView {
        EntryView {
            forward: EditView {
                range: Range {
                    start: remap(self.forward.range.start, range, end),
                    end: remap(self.forward.range.end, range, end),
                },
                text: self.forward.text,
            },
            inverse: EditView {
                range: Range {
                    start: remap(self.inverse.range.start, range, end),
                    end: remap(self.inverse.range.end, range, end),
                },
                text: self.inverse.text,
            },
            before: remap_all(self.before, range, end),
            after: remap_all(self.after, range, end),
            group: self.group,
        }
    }
}

/// The entries as values.
pub open spec fn entry_views(v: Seq<HistoryEntry>) -> Seq<EntryView> {
    Seq::new(v.len(), |i: int| v[i]@)
}

pub open spec fn all_entries_wf(s: Seq<EntryView>) -> bool {
    forall|i: int| 0 <= i < s.len() ==> (#[trigger] s[i]).wf()
}

pub open spec fn all_entries_fit(s: Seq<EntryView>, range: Range, end: Position) -> bool {
    forall|i: int| 0 <= i < s.len() ==> (#[trigger] s[i]).remap_fits(range, end)
}

pub open spec fn remap_entries(s: Seq<EntryView>, range: Range, end: Position) -> Seq<EntryView> {
    Seq::new(s.len(), |i: int| s[i].remapped(range, end))
}

/// Whether every selection can be moved across the edit.
pub fn selections_fit(sels: &Vec<Selection>, range: Range, end: Position) -> (b: bool)
    requires
        range.ordered(),
    ensures
        b == all_remap_fit(sels@, range, end),
{
    let mut i: usize = 0;
    while i < sels.len()
        invariant
            i <= sels@.len(),
            range.ordered(),
            forall|k: int| 0 <= k < i ==> (#[trigger] sels@[k]).remap_fits(range, end),
        decreases sels@.len() - i,
    {
        if remap_position(sels[i].anchor, range, end).is_none() || remap_position(
            sels[i].head,
            range,
            end,
        ).is_none() {
            assert(!sels@[i as int].remap_fits(range, end));
            return false;
        }
        i += 1;
    }
    true
}

/// Moves every selection across the edit.
pub fn remap_selections(sels: &mut Vec<Selection>, range: Range, end: Position)
    requires
        range.ordered(),
        all_remap_fit(old(sels)@, range, end),
    ensures
        final(sels)@ == remap_all(old(sels)@, range, end),
{
    let mut i: usize = 0;
    while i < sels.len()
        invariant
            i <= sels@.len(),
            range.ordered(),
            sels@.len() == old(sels)@.len(),
            all_remap_fit(old(sels)@, range, end),
            forall|k: int| 0 <= k < i ==> (#[trigger] sels@[k]) == old(sels)@[k].remapped(range, end),
            forall|k: int| i <= k < sels@.len() ==> (#[trigger] sels@[k]) == old(sels)@[k],
        decreases sels@.len() - i,
    {
        let x = sels[i];
        assert(old(sels)@[i as int].remap_fits(range, end));
        let anchor = remap_position(x.anchor, range, end).unwrap();
        let head = remap_position(x.head, range, end).unwrap();
        sels.set(i, Selection { anchor, head, column: None });
        i += 1;
    }
    assert(sels@ =~= remap_all(old(sels)@, range, end));
}

/// Whether every position of every entry can be moved across the edit.
pub fn entries_fit(entries: &Vec<HistoryEntry>, range: Range, end: Position) -> (b: bool)
    requires
        range.ordered(),
    ensures
        b == all_entries_fit(entry_views(entries@), range, end),
{
    let mut i: usize = 0;
    while i < entries.len()
        invariant
            i <= entries@.len(),
            range.ordered(),
            forall|k: int|
                0 <= k < i ==> (#[trigger] entry_views(entries@)[k]).remap_fits(range, end),
        decreases entries@.len() - i,
    {
        let e = &entries[i];
        let fits = remap_position(e.forward.range.start, range, end).is_some() && remap_position(
            e.forward.range.end,
            range,
            end,
        ).is_some() && remap_position(e.inverse.range.start, range, end).is_some()
            && remap_position(e.inverse.range.end, range, end).is_some() && selections_fit(
            &e.before,
            range,
            end,
        ) && selections_fit(&e.after, range, end);
        if !fits {
            assert(!entry_views(entries@)[i as int].remap_fits(range, end));
            return false;
        }
        i += 1;
    }
    true
}

/// Moves every position of every entry across the edit.
pub fn remap_stack(entries: &mut Vec<HistoryEntry>, range: Range, end: Position)
    requires
        range.ordered(),
        all_entries_fit(entry_views(old(entries)@), range, end),
    ensures
        entry_views(final(entries)@) == remap_entries(entry_views(old(entries)@), range, end),
{
    let ghost before = entry_views(entries@);
    let mut i: usize = 0;
    while i < entries.len()
        invariant
            i <= entries@.len(),
            range.ordered(),
            entries@.len() == before.len(),
            all_entries_fit(before, range, end),
            forall|k: int| 0 <= k < i ==> (#[trigger] entries@[k])@ == before[k].remapped(range, end),
            forall|k: int| i <= k < entries@.len() ==> (#[trigger] entries@[k])@ == before[k],
        decreases entries@.len() - i,
    {
        assert(before[i as int].remap_fits(range, end));
        let fs = remap_position(entries[i].forward.range.start, range, end).unwrap();
        let fe = remap_position(entries[i].forward.range.end, range, end).unwrap();
        let is = remap_position(entries[i].inverse.range.start, range, end).unwrap();
        let ie = remap_position(entries[i].inverse.range.end, range, end).unwrap();
        entries[i].forward.range = Range { start: fs, end: fe };
        entries[i].inverse.range = Range { start: is, end: ie };
        remap_selections(&mut entries[i].before, range, end);
        remap_selections(&mut entries[i].after, range, end);
        i += 1;
    }
    assert(entry_views(entries@) =~= remap_entries(before, range, end));
}

/// The undo history of one session.
#[derive(Debug)]
pub struct History {
    undo: Vec<HistoryEntry>,
    redo: Vec<HistoryEntry>,
}

impl History {
    /// The entries that can be undone; the last is undone first.
    pub closed spec fn undo_stack(&self) -> Seq<EntryView> {
        entry_views(self.undo@)
    }

    /// The entries that can be redone; the last is redone first.
    pub closed spec fn redo_stack(&self) -> Seq<EntryView> {
        entry_views(self.redo@)
    }

    pub open spec fn wf(&self) -> bool {
        all_entries_wf(self.undo_stack()) && all_entries_wf(self.redo_stack())
    }

    pub fn new() -> (h: History)
        ensures
            h.undo_stack() == Seq::<EntryView>::empty(),
            h.redo_stack() == Seq::<EntryView>::empty(),
            h.wf(),
    {
        let h = History { undo: Vec::new(), redo: Vec::new() };
        assert(h.undo_stack() =~= Seq::<EntryView>::empty());
        assert(h.redo_stack() =~= Seq::<EntryView>::empty());
        h
    }

    pub fn undo_len(&self) -> (n: usize)
        ensures
            n == self.undo_stack().len(),
    {
        self.undo.len()
    }

    pub fn redo_len(&self) -> (n: usize)
        ensures
            n == self.redo_stack().len(),
    {
        self.redo.len()
    }

    /// Records an edit that was made. Nothing can be redone after it. The
    /// edit joins the entry on top of the undo stack where both belong to
    /// one gesture and the edit inserts text where that entry's text
    /// ends; else it becomes an entry of its own. The inverse edit begins
    /// where the edit begins.
    pub fn record(
        &mut self,
        forward: Edit,
        inverse: Edit,
        before: Vec<Selection>,
        after: Vec<Selection>,
        group: Option<u64>,
    )
        requires
            old(self).wf(),
            forward.wf(),
            inverse.wf(),
            inverse.range.start == forward.range.start,
        ensures
            final(self).wf(),
            final(self).redo_stack() == Seq::<EntryView>::empty(),
            final(self).undo_stack() == (if old(self).undo_stack().len() > 0 && old(self).undo_stack().last().takes(forward@, group) {
                old(self).undo_stack().drop_last().push(
                    old(self).undo_stack().last().joined_with(forward@, inverse@, after@),
                )
            } else {
                old(self).undo_stack().push(
                    (EntryView {
                        forward: forward@,
                        inverse: inverse@,
                        before: before@,
                        after: after@,
                        group,
                    }),
                )
            }),
    {
        let ghost was = self.undo_stack();
        self.redo = Vec::new();
        assert(self.redo_stack() =~= Seq::<EntryView>::empty());
        let n = self.undo.len();
        let joins = n > 0 && match (group, self.undo[n - 1].group) {
            (Some(g), Some(h)) => g == h,
            _ => false,
        } && forward.range.start == forward.range.end && forward.range.start
            == self.undo[n - 1].inverse.range.end;
        if joins {
            let mut top = self.undo.pop().unwrap();
            assert(top@ == was.last());
            assert(top@.wf());
            top.forward.text.append(&forward.text);
            top.inverse.range = Range { start: top.inverse.range.start, end: inverse.range.end };
            top.after = after;
            assert(top@ == was.last().joined_with(forward@, inverse@, after@));
            self.undo.push(top);
            proof {
                let now = self.undo_stack();
                assert(now =~= was.drop_last().push(
                    was.last().joined_with(forward@, inverse@, after@),
                ));
                assert forall|i: int| 0 <= i < now.len() implies (#[trigger] now[i]).wf() by {
                    if i < now.len() - 1 {
                        assert(now[i] == was[i]);
                    } else {
                        assert(was[was.len() - 1].wf());
                    }
                }
            }
        } else {
            let entry = HistoryEntry { forward, inverse, before, after, group };
            self.undo.push(entry);
            proof {
                let now = self.undo_stack();
                assert(now =~= was.push(entry@));
                assert forall|i: int| 0 <= i < now.len() implies (#[trigger] now[i]).wf() by {
                    if i < now.len() - 1 {
                        assert(now[i] == was[i]);
                    }
                }
            }
        }
    }

    /// The entry that would be undone next.
    pub fn peek_undo(&self) -> (e: Option<&HistoryEntry>)
        ensures
            e is Some <==> self.undo_stack().len() > 0,
            e is Some ==> e->0@ == self.undo_stack().last(),
    {
        let n = self.undo.len();
        if n == 0 {
            None
        } else {
            Some(&self.undo[n - 1])
        }
    }

    /// The entry that would be redone next.
    pub fn peek_redo(&self) -> (e: Option<&HistoryEntry>)
        ensures
            e is Some <==> self.redo_stack().len() > 0,
            e is Some ==> e->0@ == self.redo_stack().last(),
    {
        let n = self.redo.len();
        if n == 0 {
            None
        } else {
            Some(&self.redo[n - 1])
        }
    }

    /// Takes the top entry from the undo stack, puts it on the redo stack
    /// and hands out a copy of it. With nothing to undo, nothing changes.
    pub fn undo(&mut self) -> (e: Option<HistoryEntry>)
        requires
            old(self).wf(),
        ensures
            final(self).wf(),
            e is Some <==> old(self).undo_stack().len() > 0,
            e is Some ==> e->0@ == old(self).undo_stack().last() && final(self).undo_stack() == old(self).undo_stack().drop_last() && final(self).redo_stack() == old(self).redo_stack().push(
                e->0@,
            ),
            e is None ==> final(self).undo_stack() == old(self).undo_stack() && final(self).redo_stack() == old(self).redo_stack(),
    {
        let ghost was_undo = self.undo_stack();
        let ghost was_redo = self.redo_stack();
        match self.undo.pop() {
            None => None,
            Some(entry) => {
                let copy = entry.clone();
                self.redo.push(entry);
                proof {
                    assert(self.undo_stack() =~= was_undo.drop_last());
                    assert(self.redo_stack() =~= was_redo.push(entry@));
                    lemma_stack_moves(was_undo, was_redo);
                }
                Some(copy)
            },
        }
    }

    /// Takes the top entry from the redo stack, puts it on the undo stack
    /// and hands out a copy of it. With nothing to redo, nothing changes.
    pub fn redo(&mut self) -> (e: Option<HistoryEntry>)
        requires
            old(self).wf(),
        ensures
            final(self).wf(),
            e is Some <==> old(self).redo_stack().len() > 0,
            e is Some ==> e->0@ == old(self).redo_stack().last() && final(self).redo_stack() == old(self).redo_stack().drop_last() && final(self).undo_stack() == old(self).undo_stack().push(
                e->0@,
            ),
            e is None ==> final(self).undo_stack() == old(self).undo_stack() && final(self).redo_stack() == old(self).redo_stack(),
    {
        let ghost was_undo = self.undo_stack();
        let ghost was_redo = self.redo_stack();
        match self.redo.pop() {
            None => None,
            Some(entry) => {
                let copy = entry.clone();
                self.undo.push(entry);
                proof {
                    assert(self.redo_stack() =~= was_redo.drop_last());
                    assert(self.undo_stack() =~= was_undo.push(entry@));
                    lemma_stack_moves(was_redo, was_undo);
                }
                Some(copy)
            },
        }
    }

    /// Carries the history across an edit that another session made:
    /// every position in every entry is moved. Where one of them cannot
    /// be represented, the history is forgotten.
    pub fn remap_across_edit(&mut self, range: Range, end: Position)
        requires
            old(self).wf(),
            range.ordered(),
            range.start.spec_le(end),
        ensures
            final(self).wf(),
            all_entries_fit(old(self).undo_stack(), range, end) && all_entries_fit(
                old(self).redo_stack(),
                range,
                end,
            ) ==> final(self).undo_stack() == remap_entries(old(self).undo_stack(), range, end)
                && final(self).redo_stack() == remap_entries(old(self).redo_stack(), range, end),
            !(all_entries_fit(old(self).undo_stack(), range, end) && all_entries_fit(
                old(self).redo_stack(),
                range,
                end,
            )) ==> final(self).undo_stack() == Seq::<EntryView>::empty() && final(self).redo_stack() == Seq::<EntryView>::empty(),
    {
        if entries_fit(&self.undo, range, end) && entries_fit(&self.redo, range, end) {
            proof {
                lemma_remap_entries_wf(self.undo_stack(), range, end);
                lemma_remap_entries_wf(self.redo_stack(), range, end);
            }
            remap_stack(&mut self.undo, range, end);
            remap_stack(&mut self.redo, range, end);
        } else {
            self.undo = Vec::new();
            self.redo = Vec::new();
            assert(self.undo_stack() =~= Seq::<EntryView>::empty());
            assert(self.redo_stack() =~= Seq::<EntryView>::empty());
        }
    }
}

/// Entries moved across an edit are well-formed where they were before.
pub proof fn lemma_remap_entries_wf(s: Seq<EntryView>, range: Range, end: Position)
    requires
        all_entries_wf(s),
        all_entries_fit(s, range, end),
        range.ordered(),
        range.start.spec_le(end),
    ensures
        all_entries_wf(remap_entries(s, range, end)),
{
    let out = remap_entries(s, range, end);
    assert forall|i: int| 0 <= i < out.len() implies (#[trigger] out[i]).wf() by {
        assert(s[i].wf());
        assert(s[i].remap_fits(range, end));
        lemma_remap_monotone(s[i].forward.range.start, s[i].forward.range.end, range, end);
        lemma_remap_monotone(s[i].inverse.range.start, s[i].inverse.range.end, range, end);
    }
}

/// Moving the top entry of one stack onto another keeps all entries
/// well-formed.
pub proof fn lemma_stack_moves(from: Seq<EntryView>, to: Seq<EntryView>)
    requires
        all_entries_wf(from),
        all_entries_wf(to),
        from.len() > 0,
    ensures
        all_entries_wf(from.drop_last()),
        all_entries_wf(to.push(from.last())),
{
    assert forall|i: int| 0 <= i < from.len() - 1 implies (#[trigger] from.drop_last()[i]).wf() by {
        assert(from.drop_last()[i] == from[i]);
    }
    let next = to.push(from.last());
    assert forall|i: int| 0 <= i < next.len() implies (#[trigger] next[i]).wf() by {
        if i < to.len() {
            assert(next[i] == to[i]);
        } else {
            assert(from[from.len() - 1].wf());
        }
    }
}

} // verus!
