//! The editor: the documents and the sessions that view them. Every
//! change to a document goes through here, and is followed at once by
//! every session that views the document.

use vstd::prelude::*;
use crate::position::{Position, Range};
use crate::text::{
    Text, well_formed, splice, extract, insert_end, concat_text, lemma_replace_round_trip,
    lemma_splice_well_formed, lemma_splice_then_insert, lemma_concat_well_formed,
};
use crate::buffer::{Edit, EditView, EditError};
use crate::selection::{
    Selection, separated, all_valid_in, merge_pass, normalize, remap_all, all_remap_fit,
    lemma_normalize_separated_same, lemma_merge_pass_separated, lemma_merge_pass_valid,
    lemma_remap_all_sorted, lemma_separated_sorted,
};
use crate::history::{EntryView, HistoryEntry, all_entries_wf, all_entries_fit, remap_entries};
use crate::tokenizer::Language;
use crate::inlay::{Inlay, InlayKind, InlayContent, across_edit, place_inlay, without_id, has_id};
use crate::session::move_each;
use crate::selection::place;
use crate::document::{Document, Change, edited};
use crate::session::Session;
use crate::moves::Motion;
use crate::remap::{end_position, lemma_remap_valid};

verus! {

/// What one session sees and keeps of its document: the text, its
/// selections, and its history.
pub struct ViewState {
    pub lines: Seq<Seq<char>>,
    pub selections: Seq<Selection>,
    pub undo: Seq<EntryView>,
    pub redo: Seq<EntryView>,
}

/// What a session sees and keeps of a document.
pub open spec fn view_state(doc: Document, session: Session) -> ViewState {
    ViewState {
        lines: doc.lines(),
        selections: session.selections(),
        undo: session.undo_stack(),
        redo: session.redo_stack(),
    }
}

/// The edit that undoes the replacement of `range` by `text` in `lines`.
pub open spec fn inverse_of(lines: Seq<Seq<char>>, range: Range, text: Seq<Seq<char>>) -> EditView {
    EditView {
        range: Range { start: range.start, end: end_position(range.start, text) },
        text: extract(lines, range),
    }
}

/// What the session that submits an edit sees and keeps after it: the
/// text with the range replaced, its selections moved across the edit
/// and merged, and the edit on its undo stack, in an entry of its own or
/// in the entry on top that takes it. Nothing is left to redo.
pub open spec fn after_submit(
    v: ViewState,
    range: Range,
    text: Seq<Seq<char>>,
    group: Option<u64>,
) -> ViewState {
    let forward = EditView { range, text };
    let inverse = inverse_of(v.lines, range, text);
    let selections = merge_pass(remap_all(v.selections, range, inverse.range.end));
    ViewState {
        lines: splice(v.lines, range, text),
        selections,
        undo: if v.undo.len() > 0 && v.undo.last().takes(forward, group) {
            v.undo.drop_last().push(v.undo.last().joined_with(forward, inverse, selections))
        } else {
            v.undo.push(
                EntryView { forward, inverse, before: v.selections, after: selections, group },
            )
        },
        redo: Seq::<EntryView>::empty(),
    }
}

/// What a session sees and keeps after it replayed an edit of its
/// history: the text with the edit applied, and as selections the
/// snapshot that goes with the edit, sorted and merged; where the
/// snapshot does not lie in the text, its own selections moved across
/// the edit.
pub open spec fn after_replay(v: ViewState, edit: EditView, snapshot: Seq<Selection>) -> (
    Seq<Seq<char>>,
    Seq<Selection>,
) {
    let lines = splice(v.lines, edit.range, edit.text);
    (
        lines,
        if all_valid_in(snapshot, lines) {
            normalize(snapshot)
        } else {
            merge_pass(
                remap_all(v.selections, edit.range, end_position(edit.range.start, edit.text)),
            )
        },
    )
}

/// Whether the session has something to undo that can be applied to the
/// text.
pub open spec fn can_undo(v: ViewState) -> bool {
    v.undo.len() > 0 && v.undo.last().inverse.range.valid_in(v.lines)
}

/// Whether the session has something to redo that can be applied to the
/// text.
pub open spec fn can_redo(v: ViewState) -> bool {
    v.redo.len() > 0 && v.redo.last().forward.range.valid_in(v.lines)
}

/// What a session sees and keeps after an undo: the inverse edit of the
/// top entry of the undo stack is applied, the selections are those
/// from before the entry's edit, and the entry has gone to the redo
/// stack. With nothing to undo, nothing changes.
pub open spec fn after_undo(v: ViewState) -> ViewState {
    if can_undo(v) {
        let e = v.undo.last();
        let now = after_replay(v, e.inverse, e.before);
        ViewState { lines: now.0, selections: now.1, undo: v.undo.drop_last(), redo: v.redo.push(e) }
    } else {
        v
    }
}

/// What a session sees and keeps after a redo: the edit of the top
/// entry of the redo stack is applied again, the selections are those
/// from after the entry's edit, and the entry has gone back to the undo
/// stack. With nothing to redo, nothing changes.
pub open spec fn after_redo(v: ViewState) -> ViewState {
    if can_redo(v) {
        let e = v.redo.last();
        let now = after_replay(v, e.forward, e.after);
        ViewState { lines: now.0, selections: now.1, undo: v.undo.push(e), redo: v.redo.drop_last() }
    } else {
        v
    }
}

/// An undo right after an edit that got an entry of its own gives back
/// the text and the selections from before the edit, and a redo right
/// after that undo gives back those from after the edit.
pub proof fn lemma_undo_redo_restore(
    v: ViewState,
    range: Range,
    text: Seq<Seq<char>>,
    group: Option<u64>,
)
    requires
        well_formed(v.lines),
        separated(v.selections),
        all_valid_in(v.selections, v.lines),
        well_formed(text),
        range.valid_in(v.lines),
        !(v.undo.len() > 0 && v.undo.last().takes(EditView { range, text }, group)),
        splice(v.lines, range, text).len() <= usize::MAX,
        forall|i: int|
            0 <= i < splice(v.lines, range, text).len() ==> (#[trigger] splice(
                v.lines,
                range,
                text,
            )[i]).len() <= usize::MAX,
    ensures
        after_undo(after_submit(v, range, text, group)).lines == v.lines,
        after_undo(after_submit(v, range, text, group)).selections == v.selections,
        after_undo(after_submit(v, range, text, group)).undo == v.undo,
        after_redo(after_undo(after_submit(v, range, text, group))).lines == after_submit(
            v,
            range,
            text,
            group,
        ).lines,
        after_redo(after_undo(after_submit(v, range, text, group))).selections == after_submit(
            v,
            range,
            text,
            group,
        ).selections,
        after_redo(after_undo(after_submit(v, range, text, group))).undo == after_submit(
            v,
            range,
            text,
            group,
        ).undo,
{
    let done = after_submit(v, range, text, group);
    let end = end_position(range.start, text);
    let inverse = inverse_of(v.lines, range, text);
    lemma_splice_well_formed(v.lines, range, text);
    lemma_remap_valid(v.lines, range, text, range.start);
    lemma_replace_round_trip(v.lines, range, text);
    let entry = EntryView {
        forward: EditView { range, text },
        inverse,
        before: v.selections,
        after: done.selections,
        group,
    };
    assert(done.undo.last() == entry);
    assert(done.undo.drop_last() =~= v.undo);
    assert(can_undo(done));
    lemma_normalize_separated_same(v.selections);
    let back = after_undo(done);
    assert(back.lines == v.lines);
    assert(back.selections == v.selections);
    assert(back.redo.last() == entry);
    assert(can_redo(back));
    let mapped = remap_all(v.selections, range, end);
    assert forall|i: int| 0 <= i < v.selections.len() implies (#[trigger] v.selections[i]).remap_fits(
        range,
        end,
    ) by {
        lemma_remap_valid(v.lines, range, text, v.selections[i].anchor);
        lemma_remap_valid(v.lines, range, text, v.selections[i].head);
    }
    assert forall|i: int| 0 <= i < mapped.len() implies (#[trigger] mapped[i]).valid_in(
        done.lines,
    ) by {
        lemma_remap_valid(v.lines, range, text, v.selections[i].anchor);
        lemma_remap_valid(v.lines, range, text, v.selections[i].head);
    }
    lemma_merge_pass_valid(mapped, done.lines);
    lemma_separated_sorted(v.selections);
    lemma_remap_all_sorted(v.selections, range, end);
    lemma_merge_pass_separated(mapped);
    lemma_normalize_separated_same(done.selections);
    assert(back.undo.push(entry) =~= done.undo);
}

/// Two edits of one gesture, of which the second inserts where the text
/// of the first ends, are undone together: an undo right after them gives
/// back the text and the selections from before the first.
pub proof fn lemma_joined_undo_restores(
    v: ViewState,
    range: Range,
    first: Seq<Seq<char>>,
    second: Seq<Seq<char>>,
    group: Option<u64>,
)
    requires
        well_formed(v.lines),
        separated(v.selections),
        all_valid_in(v.selections, v.lines),
        well_formed(first),
        well_formed(second),
        range.valid_in(v.lines),
        group is Some,
        !(v.undo.len() > 0 && v.undo.last().takes(EditView { range, text: first }, group)),
        splice(v.lines, range, first).len() <= usize::MAX,
        forall|i: int|
            0 <= i < splice(v.lines, range, first).len() ==> (#[trigger] splice(
                v.lines,
                range,
                first,
            )[i]).len() <= usize::MAX,
        splice(v.lines, range, concat_text(first, second)).len() <= usize::MAX,
        forall|i: int|
            0 <= i < splice(v.lines, range, concat_text(first, second)).len() ==> (#[trigger] splice(
                v.lines,
                range,
                concat_text(first, second),
            )[i]).len() <= usize::MAX,
    ensures
        ({
            let at = end_position(range.start, first);
            let once = after_submit(v, range, first, group);
            let twice = after_submit(once, Range { start: at, end: at }, second, group);
            &&& twice.lines == splice(v.lines, range, concat_text(first, second))
            &&& twice.undo.len() == v.undo.len() + 1
            &&& after_undo(twice).lines == v.lines
            &&& after_undo(twice).selections == v.selections
            &&& after_undo(twice).undo == v.undo
        }),
{
    let at = end_position(range.start, first);
    let both = concat_text(first, second);
    let once = after_submit(v, range, first, group);
    let twice = after_submit(once, Range { start: at, end: at }, second, group);
    lemma_splice_well_formed(v.lines, range, first);
    lemma_remap_valid(v.lines, range, first, range.start);
    lemma_concat_well_formed(first, second);
    lemma_splice_then_insert(v.lines, range, first, second);
    lemma_splice_well_formed(v.lines, range, both);
    lemma_remap_valid(v.lines, range, both, range.start);
    lemma_replace_round_trip(v.lines, range, both);
    let entry = EntryView {
        forward: EditView { range, text: first },
        inverse: inverse_of(v.lines, range, first),
        before: v.selections,
        after: once.selections,
        group,
    };
    assert(once.undo.last() == entry);
    assert(once.undo.drop_last() =~= v.undo);
    let insert = EditView { range: Range { start: at, end: at }, text: second };
    assert(entry.takes(insert, group));
    let joined = entry.joined_with(
        insert,
        inverse_of(once.lines, Range { start: at, end: at }, second),
        twice.selections,
    );
    assert(twice.undo.last() == joined);
    assert(twice.undo.drop_last() =~= v.undo);
    assert(joined.inverse.range.end == end_position(range.start, both));
    assert(can_undo(twice));
    lemma_normalize_separated_same(v.selections);
}

/// The session views a document that there is, and is in order for it.
pub open spec fn session_ok(docs: Seq<Document>, s: Session) -> bool {
    s.document_id() < docs.len() && s.wf_for(docs[s.document_id() as int])
}

/// What holds of a session after it followed an edit of its document.
/// Its selections have been moved across the edit and merged. The
/// history of the session that made the edit is as it was; that of
/// every other session has been moved across the edit, or forgotten
/// where that could not be done.
pub open spec fn followed(
    before: Session,
    after: Session,
    range: Range,
    end: Position,
    origin: bool,
) -> bool {
    &&& after.document_id() == before.document_id()
    &&& after.width() == before.width()
    &&& after.selections() == merge_pass(remap_all(before.selections(), range, end))
    &&& origin ==> after.undo_stack() == before.undo_stack() && after.redo_stack()
        == before.redo_stack()
    &&& !origin ==> (if all_entries_fit(before.undo_stack(), range, end) && all_entries_fit(
        before.redo_stack(),
        range,
        end,
    ) {
        after.undo_stack() == remap_entries(before.undo_stack(), range, end) && after.redo_stack()
            == remap_entries(before.redo_stack(), range, end)
    } else {
        after.undo_stack() == Seq::<EntryView>::empty() && after.redo_stack() == Seq::<
            EntryView,
        >::empty()
    })
}

/// What holds of the documents and the sessions after an edit of the
/// document `d` by the session `origin` went through. The document's
/// text has the range replaced, and its inlays have been carried across
/// the edit. Every other session that views the document has followed
/// the edit. Nothing else has changed.
pub open spec fn edit_spread(
    old_docs: Seq<Document>,
    old_sessions: Seq<Session>,
    new_docs: Seq<Document>,
    new_sessions: Seq<Session>,
    d: int,
    origin: int,
    range: Range,
    text: Seq<Seq<char>>,
) -> bool {
    &&& new_docs.len() == old_docs.len()
    &&& new_sessions.len() == old_sessions.len()
    &&& forall|e: int| 0 <= e < old_docs.len() && e != d ==> (#[trigger] new_docs[e]) == old_docs[e]
    &&& new_docs[d].lines() == splice(old_docs[d].lines(), range, text)
    &&& new_docs[d].inlays() == across_edit(
        old_docs[d].inlays(),
        range,
        end_position(range.start, text),
    )
    &&& new_docs[d].language() == old_docs[d].language()
    &&& new_sessions[origin].document_id() == old_sessions[origin].document_id()
    &&& new_sessions[origin].width() == old_sessions[origin].width()
    &&& forall|t: int|
        0 <= t < old_sessions.len() && old_sessions[t].document_id() != d
            ==> (#[trigger] new_sessions[t]) == old_sessions[t]
    &&& forall|t: int|
        0 <= t < old_sessions.len() && t != origin && old_sessions[t].document_id() == d
            ==> followed(
            old_sessions[t],
            #[trigger] new_sessions[t],
            range,
            end_position(range.start, text),
            false,
        )
}

/// The documents and the sessions that view them. A document and a
/// session are known by a handle, the index at which they are kept.
#[derive(Debug)]
pub struct Editor {
    documents: Vec<Document>,
    sessions: Vec<Session>,
}

impl Editor {
    pub closed spec fn documents(&self) -> Seq<Document> {
        self.documents@
    }

    pub closed spec fn sessions(&self) -> Seq<Session> {
        self.sessions@
    }

    /// Every document is in order, and every session views a document
    /// that there is and is in order for it: its selections are sorted,
    /// no two of them overlap or touch, and each lies in the text.
    pub open spec fn wf(&self) -> bool {
        &&& forall|d: int| 0 <= d < self.documents().len() ==> (#[trigger] self.documents()[d]).wf()
        &&& forall|s: int|
            0 <= s < self.sessions().len() ==> session_ok(
                self.documents(),
                #[trigger] self.sessions()[s],
            )
    }

    /// An editor without documents.
    pub fn new() -> (e: Editor)
        ensures
            e.wf(),
            e.documents().len() == 0,
            e.sessions().len() == 0,
    {
        Editor { documents: Vec::new(), sessions: Vec::new() }
    }

    pub fn document_count(&self) -> (n: usize)
        ensures
            n == self.documents().len(),
    {
        self.documents.len()
    }

    pub fn session_count(&self) -> (n: usize)
        ensures
            n == self.sessions().len(),
    {
        self.sessions.len()
    }

    /// The document with the handle `d`.
    pub fn document(&self, d: usize) -> (doc: Option<&Document>)
        ensures
            doc is Some <==> d < self.documents().len(),
            doc is Some ==> *doc->0 == self.documents()[d as int],
    {
        if d < self.documents.len() {
            Some(&self.documents[d])
        } else {
            None
        }
    }

    /// The session with the handle `s`.
    pub fn session(&self, s: usize) -> (session: Option<&Session>)
        ensures
            session is Some <==> s < self.sessions().len(),
            session is Some ==> *session->0 == self.sessions()[s as int],
    {
        if s < self.sessions.len() {
            Some(&self.sessions[s])
        } else {
            None
        }
    }

    /// Takes in a document with the given text and gives its handle.
    pub fn open_document(&mut self, text: Text, language: Language) -> (d: usize)
        requires
            old(self).wf(),
            text.wf(),
        ensures
            final(self).wf(),
            d == old(self).documents().len(),
            final(self).documents().len() == d + 1,
            final(self).documents().subrange(0, d as int) == old(self).documents(),
            final(self).documents()[d as int].lines() == text@,
            final(self).documents()[d as int].language() == language,
            final(self).documents()[d as int].inlays() == Seq::<Inlay>::empty(),
            final(self).sessions() == old(self).sessions(),
    {
        let d = self.documents.len();
        let doc = Document::new(text, language);
        self.documents.push(doc);
        assert(self.documents@.subrange(0, d as int) =~= old(self).documents@);
        proof {
            assert forall|s: int| 0 <= s < self.sessions().len() implies session_ok(
                self.documents(),
                #[trigger] self.sessions()[s],
            ) by {
                assert(session_ok(old(self).documents(), old(self).sessions()[s]));
            }
        }
        d
    }

    /// Opens a session on the document with the handle `document`, with
    /// one cursor at the start of the text, and gives its handle; none
    /// where there is no such document.
    pub fn open_session(&mut self, document: usize, width: usize) -> (s: Option<usize>)
        requires
            old(self).wf(),
        ensures
            final(self).wf(),
            final(self).documents() == old(self).documents(),
            s is Some <==> document < old(self).documents().len(),
            s is None ==> final(self).sessions() == old(self).sessions(),
            s is Some ==> {
                &&& s->0 == old(self).sessions().len()
                &&& final(self).sessions().len() == s->0 + 1
                &&& final(self).sessions().subrange(0, s->0 as int) == old(self).sessions()
                &&& final(self).sessions()[s->0 as int].document_id() == document
                &&& final(self).sessions()[s->0 as int].width() == width
                &&& final(self).sessions()[s->0 as int].selections() == seq![
                    Selection {
                        anchor: Position { line: 0, offset: 0 },
                        head: Position { line: 0, offset: 0 },
                        column: None,
                    },
                ]
                &&& final(self).sessions()[s->0 as int].undo_stack() == Seq::<EntryView>::empty()
                &&& final(self).sessions()[s->0 as int].redo_stack() == Seq::<EntryView>::empty()
            },
    {
        if document >= self.documents.len() {
            return None;
        }
        let s = self.sessions.len();
        let session = Session::new(document, &self.documents[document], width);
        self.sessions.push(session);
        assert(self.sessions@.subrange(0, s as int) =~= old(self).sessions@);
        proof {
            assert forall|t: int| 0 <= t < self.sessions().len() implies session_ok(
                self.documents(),
                #[trigger] self.sessions()[t],
            ) by {
                if t < s {
                    assert(session_ok(old(self).documents(), old(self).sessions()[t]));
                }
            }
        }
        Some(s)
    }

    /// Has every session that views the document `d` follow an edit of
    /// it that went through.
    fn broadcast(
        &mut self,
        d: usize,
        origin: usize,
        prev: Ghost<Document>,
        range: Range,
        text: Ghost<Seq<Seq<char>>>,
        change: &Change,
    )
        requires
            d < old(self).documents().len(),
            edited(prev@, old(self).documents()[d as int], range, text@, *change),
            forall|e: int|
                0 <= e < old(self).documents().len() ==> (#[trigger] old(self).documents()[e]).wf(),
            forall|s: int|
                0 <= s < old(self).sessions().len() ==> (#[trigger] old(self).sessions()[s]).document_id() < old(self).documents().len(),
            forall|s: int|
                0 <= s < old(self).sessions().len() ==> (#[trigger] old(self).sessions()[s]).wf_for(
                    if old(self).sessions()[s].document_id() == d {
                        prev@
                    } else {
                        old(self).documents()[old(self).sessions()[s].document_id() as int]
                    },
                ),
        ensures
            final(self).wf(),
            final(self).documents() == old(self).documents(),
            final(self).sessions().len() == old(self).sessions().len(),
            forall|s: int|
                0 <= s < old(self).sessions().len() && old(self).sessions()[s].document_id() != d
                    ==> (#[trigger] final(self).sessions()[s]) == old(self).sessions()[s],
            forall|s: int|
                0 <= s < old(self).sessions().len() && old(self).sessions()[s].document_id() == d
                    ==> followed(
                    old(self).sessions()[s],
                    #[trigger] final(self).sessions()[s],
                    range,
                    change.inverse.range.end,
                    s == origin,
                ),
    {
        let end = change.inverse.range.end;
        let n = self.sessions.len();
        let mut i: usize = 0;
        proof {
            self.documents()[d as int].lemma_fits();
            lemma_remap_valid(prev@.lines(), range, text@, range.start);
        }
        while i < n
            invariant
                i <= n,
                n == self.sessions().len(),
                n == self.sessions@.len(),
                n == old(self).sessions@.len(),
                d < self.documents().len(),
                self.documents() == old(self).documents@,
                end == change.inverse.range.end,
                range.ordered(),
                range.start.spec_le(end),
                edited(prev@, self.documents()[d as int], range, text@, *change),
                forall|e: int| 0 <= e < self.documents().len() ==> (#[trigger] self.documents()[e]).wf(),
                forall|s: int|
                    i <= s < n ==> (#[trigger] self.sessions()[s]) == old(self).sessions@[s],
                forall|s: int|
                    0 <= s < n ==> (#[trigger] old(self).sessions@[s]).document_id()
                        < self.documents().len(),
                forall|s: int|
                    0 <= s < n ==> (#[trigger] old(self).sessions@[s]).wf_for(
                        if old(self).sessions@[s].document_id() == d {
                            prev@
                        } else {
                            self.documents()[old(self).sessions@[s].document_id() as int]
                        },
                    ),
                forall|s: int|
                    0 <= s < i ==> session_ok(self.documents(), #[trigger] self.sessions()[s]),
                forall|s: int|
                    0 <= s < i && old(self).sessions@[s].document_id() != d
                        ==> (#[trigger] self.sessions()[s]) == old(self).sessions@[s],
                forall|s: int|
                    0 <= s < i && old(self).sessions@[s].document_id() == d ==> followed(
                        old(self).sessions@[s],
                        #[trigger] self.sessions()[s],
                        range,
                        end,
                        s == origin,
                    ),
            decreases n - i,
        {
            let ghost before = self.sessions()[i as int];
            assert(before == old(self).sessions@[i as int]);
            assert(before.document_id() < self.documents().len());
            assert(before.wf_for(
                if before.document_id() == d {
                    prev@
                } else {
                    self.documents()[before.document_id() as int]
                },
            ));
            if self.sessions[i].document() == d {
                self.sessions[i].follow_edit(&self.documents[d], prev, range, text, change);
                if i != origin {
                    self.sessions[i].remap_history(range, end);
                }
            }
            i += 1;
        }
    }

    /// Applies an edit of the session's history to its document, has
    /// every session that views the document follow, and gives the
    /// session the selections of the snapshot where they lie in the text.
    fn replay(&mut self, session: usize, edit: &Edit, snapshot: &Vec<Selection>) -> (res: Result<
        (),
        EditError,
    >)
        requires
            old(self).wf(),
            session < old(self).sessions().len(),
            edit.text.wf(),
        ensures
            final(self).wf(),
            res is Ok <==> edit.range.valid_in(
                old(self).documents()[old(self).sessions()[session as int].document_id() as int].lines(),
            ),
            res is Err ==> final(self).documents() == old(self).documents() && final(self).sessions() == old(self).sessions(),
            res is Ok ==> {
                let d = old(self).sessions()[session as int].document_id() as int;
                let v = view_state(old(self).documents()[d], old(self).sessions()[session as int]);
                &&& edit_spread(
                    old(self).documents(),
                    old(self).sessions(),
                    final(self).documents(),
                    final(self).sessions(),
                    d,
                    session as int,
                    edit.range,
                    edit.text@,
                )
                &&& final(self).sessions()[session as int].selections() == after_replay(
                    v,
                    edit@,
                    snapshot@,
                ).1
                &&& final(self).sessions()[session as int].undo_stack() == v.undo
                &&& final(self).sessions()[session as int].redo_stack() == v.redo
            },
    {
        let d = self.sessions[session].document();
        let ghost prev = self.documents()[d as int];
        assert(session_ok(self.documents(), self.sessions()[session as int]));
        assert(prev.wf());
        match self.documents[d].apply_edit(edit) {
            Err(e) => {
                assert(self.documents() =~= old(self).documents());
                Err(e)
            },
            Ok(change) => {
                proof {
                    assert forall|s: int| 0 <= s < self.sessions().len() implies (#[trigger] self.sessions()[s]).wf_for(
                        if self.sessions()[s].document_id() == d {
                            prev
                        } else {
                            self.documents()[self.sessions()[s].document_id() as int]
                        },
                    ) && self.sessions()[s].document_id() < self.documents().len() by {
                        assert(session_ok(old(self).documents(), old(self).sessions()[s]));
                    }
                    assert forall|e: int| 0 <= e < self.documents().len() implies (#[trigger] self.documents()[e]).wf() by {
                        if e != d {
                            assert(old(self).documents()[e].wf());
                        }
                    }
                }
                self.broadcast(d, session, Ghost(prev), edit.range, Ghost(edit.text@), &change);
                let ghost mid = self.sessions()[session as int];
                assert(session_ok(self.documents(), mid));
                let _ = self.sessions[session].restore_selections(snapshot, &self.documents[d]);
                proof {
                    assert forall|s: int| 0 <= s < self.sessions().len() implies session_ok(
                        self.documents(),
                        #[trigger] self.sessions()[s],
                    ) by {}
                }
                Ok(())
            },
        }
    }

    /// Has the session `session` replace `range` by `text` in its
    /// document. Every session that views the document follows: its
    /// selections are moved across the edit. The session that made the
    /// edit can undo it; edits that belong to one gesture, of which each
    /// inserts where the one before ended, are undone together. An
    /// unknown session or a range outside the text is refused, and
    /// nothing changes.
    pub fn submit_edit(&mut self, session: usize, range: Range, text: Text, group: Option<u64>) -> (res:
        Result<(), EditError>)
        requires
            old(self).wf(),
            text.wf(),
        ensures
            final(self).wf(),
            res is Ok <==> session < old(self).sessions().len() && range.valid_in(
                old(self).documents()[old(self).sessions()[session as int].document_id() as int].lines(),
            ),
            res is Err ==> final(self).documents() == old(self).documents() && final(self).sessions() == old(self).sessions(),
            res is Ok ==> {
                let d = old(self).sessions()[session as int].document_id() as int;
                &&& edit_spread(
                    old(self).documents(),
                    old(self).sessions(),
                    final(self).documents(),
                    final(self).sessions(),
                    d,
                    session as int,
                    range,
                    text@,
                )
                &&& view_state(final(self).documents()[d], final(self).sessions()[session as int])
                    == after_submit(
                    view_state(old(self).documents()[d], old(self).sessions()[session as int]),
                    range,
                    text@,
                    group,
                )
            },
    {
        if session >= self.sessions.len() {
            return Err(EditError::OutOfBounds);
        }
        let d = self.sessions[session].document();
        let ghost prev = self.documents()[d as int];
        let ghost origin = self.sessions()[session as int];
        assert(session_ok(self.documents(), origin));
        assert(prev.wf());
        let edit = Edit::new(range, text);
        match self.documents[d].apply_edit(&edit) {
            Err(e) => {
                assert(self.documents() =~= old(self).documents());
                Err(e)
            },
            Ok(change) => {
                proof {
                    assert forall|s: int| 0 <= s < self.sessions().len() implies (#[trigger] self.sessions()[s]).wf_for(
                        if self.sessions()[s].document_id() == d {
                            prev
                        } else {
                            self.documents()[self.sessions()[s].document_id() as int]
                        },
                    ) && self.sessions()[s].document_id() < self.documents().len() by {
                        assert(session_ok(old(self).documents(), old(self).sessions()[s]));
                    }
                    assert forall|e: int| 0 <= e < self.documents().len() implies (#[trigger] self.documents()[e]).wf() by {
                        if e != d {
                            assert(old(self).documents()[e].wf());
                        }
                    }
                }
                let before = self.sessions[session].selection_list();
                self.broadcast(d, session, Ghost(prev), range, Ghost(edit.text@), &change);
                let ghost mid = self.sessions()[session as int];
                assert(session_ok(self.documents(), mid));
                assert(followed(origin, mid, range, change.inverse.range.end, true));
                let inverse = change.inverse;
                self.sessions[session].record(edit, inverse, before, group);
                proof {
                    let now = self.sessions()[session as int];
                    assert(now.wf_for(self.documents()[d as int]));
                    assert forall|s: int| 0 <= s < self.sessions().len() implies session_ok(
                        self.documents(),
                        #[trigger] self.sessions()[s],
                    ) by {}
                    let v = view_state(prev, origin);
                    let w = after_submit(v, range, edit.text@, group);
                    assert(now.undo_stack() =~= w.undo);
                    assert(now.redo_stack() =~= w.redo);
                }
                Ok(())
            },
        }
    }

    /// Undoes the last entry of the session's history: applies its
    /// inverse edit to the document, gives the session the selections
    /// from before the entry's edit, and moves the entry to the redo
    /// stack. Every other session that views the document follows the
    /// inverse edit. With nothing to undo, nothing happens. An unknown
    /// session is refused, and so is an entry whose inverse edit does not
    /// lie in the text; nothing changes then.
    pub fn undo(&mut self, session: usize) -> (res: Result<bool, EditError>)
        requires
            old(self).wf(),
        ensures
            final(self).wf(),
            session >= old(self).sessions().len() ==> res is Err,
            session < old(self).sessions().len() ==> {
                let d = old(self).sessions()[session as int].document_id() as int;
                let v = view_state(old(self).documents()[d], old(self).sessions()[session as int]);
                &&& v.undo.len() == 0 ==> res == Ok::<bool, EditError>(false)
                &&& v.undo.len() > 0 && !can_undo(v) ==> res is Err
                &&& can_undo(v) ==> res == Ok::<bool, EditError>(true) && view_state(
                    final(self).documents()[d],
                    final(self).sessions()[session as int],
                ) == after_undo(v) && edit_spread(
                    old(self).documents(),
                    old(self).sessions(),
                    final(self).documents(),
                    final(self).sessions(),
                    d,
                    session as int,
                    v.undo.last().inverse.range,
                    v.undo.last().inverse.text,
                )
            },
            !(res == Ok::<bool, EditError>(true)) ==> final(self).documents() == old(self).documents() && final(self).sessions() == old(self).sessions(),
    {
        if session >= self.sessions.len() {
            return Err(EditError::OutOfBounds);
        }
        assert(session_ok(self.documents(), self.sessions()[session as int]));
        let entry = match self.sessions[session].peek_undo() {
            None => {
                return Ok(false);
            },
            Some(e) => e.clone(),
        };
        assert(entry@.wf());
        match self.replay(session, &entry.inverse, &entry.before) {
            Err(e) => Err(e),
            Ok(()) => {
                assert(session_ok(self.documents(), self.sessions()[session as int]));
                self.sessions[session].commit_undo();
                proof {
                    assert forall|s: int| 0 <= s < self.sessions().len() implies session_ok(
                        self.documents(),
                        #[trigger] self.sessions()[s],
                    ) by {}
                }
                Ok(true)
            },
        }
    }

    /// Redoes the entry that was undone last: applies its edit to the
    /// document again, gives the session the selections from after the
    /// entry's edit, and moves the entry back to the undo stack. Every
    /// other session that views the document follows the edit. With
    /// nothing to redo, nothing happens. An unknown session is refused,
    /// and so is an entry whose edit does not lie in the text; nothing
    /// changes then.
    pub fn redo(&mut self, session: usize) -> (res: Result<bool, EditError>)
        requires
            old(self).wf(),
        ensures
            final(self).wf(),
            session >= old(self).sessions().len() ==> res is Err,
            session < old(self).sessions().len() ==> {
                let d = old(self).sessions()[session as int].document_id() as int;
                let v = view_state(old(self).documents()[d], old(self).sessions()[session as int]);
                &&& v.redo.len() == 0 ==> res == Ok::<bool, EditError>(false)
                &&& v.redo.len() > 0 && !can_redo(v) ==> res is Err
                &&& can_redo(v) ==> res == Ok::<bool, EditError>(true) && view_state(
                    final(self).documents()[d],
                    final(self).sessions()[session as int],
                ) == after_redo(v) && edit_spread(
                    old(self).documents(),
                    old(self).sessions(),
                    final(self).documents(),
                    final(self).sessions(),
                    d,
                    session as int,
                    v.redo.last().forward.range,
                    v.redo.last().forward.text,
                )
            },
            !(res == Ok::<bool, EditError>(true)) ==> final(self).documents() == old(self).documents() && final(self).sessions() == old(self).sessions(),
    {
        if session >= self.sessions.len() {
            return Err(EditError::OutOfBounds);
        }
        assert(session_ok(self.documents(), self.sessions()[session as int]));
        let entry = match self.sessions[session].peek_redo() {
            None => {
                return Ok(false);
            },
            Some(e) => e.clone(),
        };
        assert(entry@.wf());
        match self.replay(session, &entry.forward, &entry.after) {
            Err(e) => Err(e),
            Ok(()) => {
                assert(session_ok(self.documents(), self.sessions()[session as int]));
                self.sessions[session].commit_redo();
                proof {
                    assert forall|s: int| 0 <= s < self.sessions().len() implies session_ok(
                        self.documents(),
                        #[trigger] self.sessions()[s],
                    ) by {}
                }
                Ok(true)
            },
        }
    }

    /// What holds of the sessions after one of them changed something of
    /// its own.
    pub open spec fn only_session_changed(&self, before: &Editor, session: int) -> bool {
        &&& self.documents() == before.documents()
        &&& self.sessions().len() == before.sessions().len()
        &&& forall|t: int|
            0 <= t < before.sessions().len() && t != session ==> (#[trigger] self.sessions()[t])
                == before.sessions()[t]
        &&& self.sessions()[session].document_id() == before.sessions()[session].document_id()
        &&& self.sessions()[session].undo_stack() == before.sessions()[session].undo_stack()
        &&& self.sessions()[session].redo_stack() == before.sessions()[session].redo_stack()
    }

    /// The selections of the session, in order; none for an unknown
    /// session.
    pub fn selections(&self, session: usize) -> (found: Option<Vec<Selection>>)
        ensures
            found is Some <==> session < self.sessions().len(),
            found is Some ==> found->0@ == self.sessions()[session as int].selections(),
    {
        if session < self.sessions.len() {
            Some(self.sessions[session].selection_list())
        } else {
            None
        }
    }

    /// Moves the head of every selection of the session by a motion, and
    /// the anchor with it unless the selections are being extended; then
    /// sorts and merges the selections. An unknown session is refused.
    pub fn move_all(&mut self, session: usize, motion: Motion, extend: bool) -> (res: Result<
        (),
        EditError,
    >)
        requires
            old(self).wf(),
        ensures
            final(self).wf(),
            res is Ok <==> session < old(self).sessions().len(),
            res is Err ==> final(self).documents() == old(self).documents() && final(self).sessions() == old(self).sessions(),
            res is Ok ==> final(self).only_session_changed(old(self), session as int) && final(self).sessions()[session as int].width() == old(self).sessions()[session as int].width()
                && final(self).sessions()[session as int].selections() == normalize(
                move_each(
                    old(self).sessions()[session as int].selections(),
                    motion,
                    extend,
                    old(self).documents()[old(self).sessions()[session as int].document_id() as int],
                    old(self).sessions()[session as int].rows(),
                ),
            ),
    {
        if session >= self.sessions.len() {
            return Err(EditError::OutOfBounds);
        }
        assert(session_ok(self.documents(), self.sessions()[session as int]));
        let d = self.sessions[session].document();
        self.sessions[session].move_all(motion, extend, &self.documents[d]);
        proof {
            assert forall|s: int| 0 <= s < self.sessions().len() implies session_ok(
                self.documents(),
                #[trigger] self.sessions()[s],
            ) by {
                if s != session {
                    assert(session_ok(old(self).documents(), old(self).sessions()[s]));
                }
            }
        }
        Ok(())
    }

    /// Adds a selection to those of the session. It is joined with every
    /// selection that it overlaps or touches. An unknown session or a
    /// selection outside the text is refused, and nothing changes.
    pub fn add_selection(&mut self, session: usize, x: Selection) -> (res: Result<(), EditError>)
        requires
            old(self).wf(),
        ensures
            final(self).wf(),
            res is Ok <==> session < old(self).sessions().len() && x.valid_in(
                old(self).documents()[old(self).sessions()[session as int].document_id() as int].lines(),
            ),
            res is Err ==> final(self).documents() == old(self).documents() && final(self).sessions() == old(self).sessions(),
            res is Ok ==> final(self).only_session_changed(old(self), session as int) && final(self).sessions()[session as int].width() == old(self).sessions()[session as int].width()
                && final(self).sessions()[session as int].selections() == merge_pass(
                place(old(self).sessions()[session as int].selections(), x),
            ),
    {
        if session >= self.sessions.len() {
            return Err(EditError::OutOfBounds);
        }
        assert(session_ok(self.documents(), self.sessions()[session as int]));
        let d = self.sessions[session].document();
        let doc = &self.documents[d];
        if !doc.buffer().contains_position(x.anchor) || !doc.buffer().contains_position(x.head) {
            return Err(EditError::OutOfBounds);
        }
        let _ = self.sessions[session].add_selection(x, &self.documents[d]);
        proof {
            assert forall|s: int| 0 <= s < self.sessions().len() implies session_ok(
                self.documents(),
                #[trigger] self.sessions()[s],
            ) by {
                if s != session {
                    assert(session_ok(old(self).documents(), old(self).sessions()[s]));
                }
            }
        }
        Ok(())
    }

    /// Replaces all selections of the session by one. An unknown session
    /// or a selection outside the text is refused, and nothing changes.
    pub fn clear_to(&mut self, session: usize, x: Selection) -> (res: Result<(), EditError>)
        requires
            old(self).wf(),
        ensures
            final(self).wf(),
            res is Ok <==> session < old(self).sessions().len() && x.valid_in(
                old(self).documents()[old(self).sessions()[session as int].document_id() as int].lines(),
            ),
            res is Err ==> final(self).documents() == old(self).documents() && final(self).sessions() == old(self).sessions(),
            res is Ok ==> final(self).only_session_changed(old(self), session as int) && final(self).sessions()[session as int].width() == old(self).sessions()[session as int].width()
                && final(self).sessions()[session as int].selections() == seq![x],
    {
        if session >= self.sessions.len() {
            return Err(EditError::OutOfBounds);
        }
        assert(session_ok(self.documents(), self.sessions()[session as int]));
        let d = self.sessions[session].document();
        let doc = &self.documents[d];
        if !doc.buffer().contains_position(x.anchor) || !doc.buffer().contains_position(x.head) {
            return Err(EditError::OutOfBounds);
        }
        let _ = self.sessions[session].clear_to(x, &self.documents[d]);
        proof {
            assert forall|s: int| 0 <= s < self.sessions().len() implies session_ok(
                self.documents(),
                #[trigger] self.sessions()[s],
            ) by {
                if s != session {
                    assert(session_ok(old(self).documents(), old(self).sessions()[s]));
                }
            }
        }
        Ok(())
    }

    /// Gives the session another wrap width and lays its document out
    /// anew. An unknown session is refused.
    pub fn set_wrap_width(&mut self, session: usize, width: usize) -> (res: Result<(), EditError>)
        requires
            old(self).wf(),
        ensures
            final(self).wf(),
            res is Ok <==> session < old(self).sessions().len(),
            res is Err ==> final(self).documents() == old(self).documents() && final(self).sessions() == old(self).sessions(),
            res is Ok ==> final(self).only_session_changed(old(self), session as int) && final(self).sessions()[session as int].width() == width && final(self).sessions()[session as int].selections() == old(self).sessions()[session as int].selections(),
    {
        if session >= self.sessions.len() {
            return Err(EditError::OutOfBounds);
        }
        assert(session_ok(self.documents(), self.sessions()[session as int]));
        let d = self.sessions[session].document();
        self.sessions[session].set_wrap_width(width, &self.documents[d]);
        proof {
            assert forall|s: int| 0 <= s < self.sessions().len() implies session_ok(
                self.documents(),
                #[trigger] self.sessions()[s],
            ) by {
                if s != session {
                    assert(session_ok(old(self).documents(), old(self).sessions()[s]));
                }
            }
        }
        Ok(())
    }

    /// Has every session that views the document `d` lay it out anew
    /// after its inlays changed.
    fn refresh(&mut self, d: usize, prev: Ghost<Document>)
        requires
            d < old(self).documents().len(),
            prev@.lines() == old(self).documents()[d as int].lines(),
            forall|e: int|
                0 <= e < old(self).documents().len() ==> (#[trigger] old(self).documents()[e]).wf(),
            forall|s: int|
                0 <= s < old(self).sessions().len() ==> (#[trigger] old(self).sessions()[s]).document_id() < old(self).documents().len(),
            forall|s: int|
                0 <= s < old(self).sessions().len() ==> (#[trigger] old(self).sessions()[s]).wf_for(
                    if old(self).sessions()[s].document_id() == d {
                        prev@
                    } else {
                        old(self).documents()[old(self).sessions()[s].document_id() as int]
                    },
                ),
        ensures
            final(self).wf(),
            final(self).documents() == old(self).documents(),
            final(self).sessions().len() == old(self).sessions().len(),
            forall|s: int|
                0 <= s < old(self).sessions().len() ==> same_but_rows(
                    old(self).sessions()[s],
                    #[trigger] final(self).sessions()[s],
                ),
            forall|s: int|
                0 <= s < old(self).sessions().len() && old(self).sessions()[s].document_id() != d
                    ==> (#[trigger] final(self).sessions()[s]) == old(self).sessions()[s],
    {
        let n = self.sessions.len();
        let mut i: usize = 0;
        while i < n
            invariant
                i <= n,
                n == self.sessions().len(),
                n == self.sessions@.len(),
                n == old(self).sessions().len(),
                d < self.documents().len(),
                self.documents() == old(self).documents(),
                prev@.lines() == self.documents()[d as int].lines(),
                forall|e: int|
                    0 <= e < self.documents().len() ==> (#[trigger] self.documents()[e]).wf(),
                forall|s: int|
                    i <= s < n ==> (#[trigger] self.sessions()[s]) == old(self).sessions()[s],
                forall|s: int|
                    0 <= s < n ==> (#[trigger] old(self).sessions()[s]).document_id()
                        < self.documents().len(),
                forall|s: int|
                    0 <= s < n ==> (#[trigger] old(self).sessions()[s]).wf_for(
                        if old(self).sessions()[s].document_id() == d {
                            prev@
                        } else {
                            self.documents()[old(self).sessions()[s].document_id() as int]
                        },
                    ),
                forall|s: int|
                    0 <= s < i ==> session_ok(self.documents(), #[trigger] self.sessions()[s]),
                forall|s: int|
                    0 <= s < i ==> same_but_rows(
                        old(self).sessions()[s],
                        #[trigger] self.sessions()[s],
                    ),
                forall|s: int|
                    0 <= s < i && old(self).sessions()[s].document_id() != d
                        ==> (#[trigger] self.sessions()[s]) == old(self).sessions()[s],
            decreases n - i,
        {
            let ghost before = self.sessions()[i as int];
            assert(before == old(self).sessions()[i as int]);
            assert(before.document_id() < self.documents().len());
            assert(before.wf_for(
                if before.document_id() == d {
                    prev@
                } else {
                    self.documents()[before.document_id() as int]
                },
            ));
            if self.sessions[i].document() == d {
                self.sessions[i].relayout(&self.documents[d], prev);
            }
            i += 1;
        }
    }

    /// Anchors new content at `anchor` in the document `document`. Gives
    /// the number by which it can be removed, or none where the numbers
    /// have run out. Every session that views the document lays it out
    /// anew. An unknown document or an anchor outside the text is
    /// refused, and nothing changes.
    pub fn insert_inlay(
        &mut self,
        document: usize,
        anchor: Position,
        content: InlayContent,
        kind: InlayKind,
        width: usize,
    ) -> (res: Result<Option<u64>, EditError>)
        requires
            old(self).wf(),
        ensures
            final(self).wf(),
            res is Ok <==> document < old(self).documents().len() && anchor.valid_in(
                old(self).documents()[document as int].lines(),
            ),
            res is Err ==> final(self).documents() == old(self).documents() && final(self).sessions() == old(self).sessions(),
            res is Ok ==> {
                let before = old(self).documents()[document as int];
                let after = final(self).documents()[document as int];
                &&& final(self).inlays_changed(old(self), document as int)
                &&& res->Ok_0 is Some <==> before.next_inlay_id() < u64::MAX
                &&& res->Ok_0 is Some ==> res->Ok_0->0 == before.next_inlay_id() && after.inlays()
                    == place_inlay(
                    before.inlays(),
                    Inlay { id: res->Ok_0->0, anchor, kind, content, width },
                )
                &&& res->Ok_0 is None ==> after.inlays() == before.inlays()
            },
    {
        if document >= self.documents.len() {
            return Err(EditError::OutOfBounds);
        }
        let ghost prev = self.documents()[document as int];
        assert(prev.wf());
        match self.documents[document].insert_inlay(anchor, content, kind, width) {
            Err(e) => {
                assert(self.documents() =~= old(self).documents());
                Err(e)
            },
            Ok(id) => {
                proof {
                    assert forall|s: int| 0 <= s < self.sessions().len() implies (#[trigger] self.sessions()[s]).wf_for(
                        if self.sessions()[s].document_id() == document {
                            prev
                        } else {
                            self.documents()[self.sessions()[s].document_id() as int]
                        },
                    ) && self.sessions()[s].document_id() < self.documents().len() by {
                        assert(session_ok(old(self).documents(), old(self).sessions()[s]));
                    }
                    assert forall|e: int| 0 <= e < self.documents().len() implies (#[trigger] self.documents()[e]).wf() by {
                        if e != document {
                            assert(old(self).documents()[e].wf());
                        }
                    }
                }
                self.refresh(document, Ghost(prev));
                Ok(id)
            },
        }
    }

    /// Removes the inlay with the number `id` from the document
    /// `document`. Says whether there was one. Every session that views
    /// the document lays it out anew. An unknown document is refused.
    pub fn remove_inlay(&mut self, document: usize, id: u64) -> (res: Result<bool, EditError>)
        requires
            old(self).wf(),
        ensures
            final(self).wf(),
            res is Ok <==> document < old(self).documents().len(),
            res is Err ==> final(self).documents() == old(self).documents() && final(self).sessions() == old(self).sessions(),
            res is Ok ==> {
                let before = old(self).documents()[document as int];
                let after = final(self).documents()[document as int];
                &&& final(self).inlays_changed(old(self), document as int)
                &&& res->Ok_0 == has_id(before.inlays(), id)
                &&& after.inlays() == without_id(before.inlays(), id)
            },
    {
        if document >= self.documents.len() {
            return Err(EditError::OutOfBounds);
        }
        let ghost prev = self.documents()[document as int];
        assert(prev.wf());
        let found = self.documents[document].remove_inlay(id);
        proof {
            assert forall|s: int| 0 <= s < self.sessions().len() implies (#[trigger] self.sessions()[s]).wf_for(
                if self.sessions()[s].document_id() == document {
                    prev
                } else {
                    self.documents()[self.sessions()[s].document_id() as int]
                },
            ) && self.sessions()[s].document_id() < self.documents().len() by {
                assert(session_ok(old(self).documents(), old(self).sessions()[s]));
            }
            assert forall|e: int| 0 <= e < self.documents().len() implies (#[trigger] self.documents()[e]).wf() by {
                if e != document {
                    assert(old(self).documents()[e].wf());
                }
            }
        }
        self.refresh(document, Ghost(prev));
        Ok(found)
    }

    /// What holds after the inlays of the document `d` changed: its
    /// text and tokens are as they were, every other document is as it
    /// was, and every session has the selections and the history that
    /// it had.
    pub open spec fn inlays_changed(&self, before: &Editor, d: int) -> bool {
        &&& self.documents().len() == before.documents().len()
        &&& self.sessions().len() == before.sessions().len()
        &&& forall|e: int|
            0 <= e < before.documents().len() && e != d ==> (#[trigger] self.documents()[e])
                == before.documents()[e]
        &&& self.documents()[d].lines() == before.documents()[d].lines()
        &&& self.documents()[d].tokens() == before.documents()[d].tokens()
        &&& self.documents()[d].language() == before.documents()[d].language()
        &&& forall|s: int|
            0 <= s < before.sessions().len() ==> same_but_rows(
                before.sessions()[s],
                #[trigger] self.sessions()[s],
            )
    }
}

/// Two states of a session that differ in its rows at most.
pub open spec fn same_but_rows(before: Session, after: Session) -> bool {
    &&& after.document_id() == before.document_id()
    &&& after.width() == before.width()
    &&& after.selections() == before.selections()
    &&& after.undo_stack() == before.undo_stack()
    &&& after.redo_stack() == before.redo_stack()
}

} // verus!
