//! The document: the text buffer with what is derived from it and
//! anchored in it, the tokens of every line and the inlays. Several
//! sessions can view one document.

use vstd::prelude::*;
use crate::position::{Position, Range};
use crate::text::{Text, well_formed, splice, extract, insert_end, lemma_splice_outside, lemma_splice_well_formed};
use crate::buffer::{TextBuffer, Edit, EditError};
use crate::token::Token;
use crate::tokenizer::{Tokenizer, Language, LexState, entry_ok, cache_ok};
use crate::inlay::{
    Inlay, InlaySet, InlayKind, InlayContent, Inset, across_edit, anchors_fit, anchors_valid_in,
    strictly_inside, place_inlay, without_id, has_id, on_line, insets_on_line, sorted_by_anchor,
    ids_below, lemma_across_edit_props, lemma_place_inlay_shape,
};
use crate::remap::{end_position, lemma_remap_valid};

verus! {

/// What an edit changed, for those who keep something for every line: the
/// lines from `first` up to `old_end` gave way to the lines from `first`
/// up to `new_end`. The lines before have neither moved nor changed; the
/// lines behind have only moved.
#[derive(Debug)]
pub struct Change {
    /// The edit that undoes the one that was made.
    pub inverse: Edit,
    pub first: usize,
    pub old_end: usize,
    pub new_end: usize,
}

/// What holds of a document after an edit of it went through: the text is
/// the text before with the range replaced, `change` holds the edit that
/// undoes this one and tells the lines that changed, the inlays have been
/// carried across the edit, and the tokens of the lines that did not
/// change are those from before. Behind the lines of the edit, tokenizing
/// went on for as long as a line left another state than before, and no
/// further.
pub open spec fn edited(
    prev: Document,
    next: Document,
    range: Range,
    text: Seq<Seq<char>>,
    change: Change,
) -> bool {
    &&& prev.wf()
    &&& next.wf()
    &&& well_formed(text)
    &&& next.language() == prev.language()
    &&& next.next_inlay_id() == prev.next_inlay_id()
    &&& range.valid_in(prev.lines())
    &&& next.lines() == splice(prev.lines(), range, text)
    &&& change.inverse.range.start == range.start
    &&& change.inverse.range.end == end_position(range.start, text)
    &&& change.inverse.text@ == extract(prev.lines(), range)
    &&& change.inverse.valid_in(next.lines())
    &&& next.inlays() == across_edit(prev.inlays(), range, change.inverse.range.end)
    &&& change.first == range.start.line
    &&& change.inverse.range.end.line < change.new_end <= next.lines().len()
    &&& range.end.line < change.old_end <= prev.lines().len()
    &&& next.lines().len() - change.new_end == prev.lines().len() - change.old_end
    &&& change.new_end - change.old_end == change.inverse.range.end.line - range.end.line
    &&& forall|i: int| 0 <= i < change.first ==> next.tokens()[i] == prev.tokens()[i]
    &&& forall|i: int|
        change.new_end <= i < next.lines().len() ==> next.tokens()[i] == prev.tokens()[i
            - change.new_end + change.old_end]
    &&& forall|k: int|
        change.inverse.range.end.line <= k < change.new_end - 1 ==> #[trigger] next.states()[k]
            != prev.states()[k - change.new_end + change.old_end]
    &&& change.new_end < next.lines().len() ==> next.states()[change.new_end - 1]
        == prev.states()[change.old_end - 1]
}

/// A document.
#[derive(Debug)]
pub struct Document {
    buffer: TextBuffer,
    tokenizer: Tokenizer,
    inlays: InlaySet,
}

impl Document {
    /// The lines of the text.
    pub closed spec fn lines(&self) -> Seq<Seq<char>> {
        self.buffer@
    }

    /// The tokens of every line.
    pub closed spec fn tokens(&self) -> Seq<Seq<Token>> {
        self.tokenizer.line_tokens()
    }

    /// The state that every line leaves to the tokenizer.
    pub closed spec fn states(&self) -> Seq<LexState> {
        self.tokenizer.line_states()
    }

    /// The inlays, in the order of their anchors.
    pub closed spec fn inlays(&self) -> Seq<Inlay> {
        self.inlays@
    }

    pub closed spec fn next_inlay_id(&self) -> u64 {
        self.inlays.next_id()
    }

    pub closed spec fn language(&self) -> Language {
        self.tokenizer.language()
    }

    /// The text is well-formed, the tokens are those of the text, and
    /// every inlay is anchored in the text.
    pub open spec fn wf(&self) -> bool {
        &&& well_formed(self.lines())
        &&& cache_ok(self.tokens(), self.states(), self.language(), self.lines())
        &&& sorted_by_anchor(self.inlays())
        &&& ids_below(self.inlays(), self.next_inlay_id())
        &&& anchors_valid_in(self.inlays(), self.lines())
    }

    /// The number of lines and the length of every line can be
    /// represented.
    pub proof fn lemma_fits(&self)
        ensures
            self.lines().len() <= usize::MAX,
            forall|i: int|
                0 <= i < self.lines().len() ==> (#[trigger] self.lines()[i]).len() <= usize::MAX,
    {
        self.buffer.lemma_fits();
    }

    /// The document of the given text, without inlays.
    pub fn new(text: Text, language: Language) -> (d: Document)
        requires
            text.wf(),
        ensures
            d.wf(),
            d.lines() == text@,
            d.language() == language,
            d.inlays() == Seq::<Inlay>::empty(),
    {
        let buffer = TextBuffer::from_text(text);
        let tokenizer = Tokenizer::new(language, &buffer);
        Document { buffer, tokenizer, inlays: InlaySet::new() }
    }

    pub fn buffer(&self) -> (b: &TextBuffer)
        ensures
            b@ == self.lines(),
    {
        &self.buffer
    }

    pub fn line_count(&self) -> (n: usize)
        ensures
            n == self.lines().len(),
    {
        self.buffer.line_count()
    }

    /// The grammar by which the document is tokenized.
    pub fn lang(&self) -> (l: Language)
        ensures
            l == self.language(),
    {
        self.tokenizer.lang()
    }

    /// The characters of line `i`.
    pub fn line(&self, i: usize) -> (line: &Vec<char>)
        requires
            i < self.lines().len(),
        ensures
            line@ == self.lines()[i as int],
    {
        self.buffer.line(i)
    }

    /// The tokens of line `i`.
    pub fn line_tokens(&self, i: usize) -> (t: &Vec<Token>)
        requires
            self.wf(),
            i < self.lines().len(),
        ensures
            t@ == self.tokens()[i as int],
    {
        self.tokenizer.tokens(i)
    }

    /// The inlays anchored in line `line`, in the order of their anchors.
    pub fn query_inlays(&self, line: usize) -> (found: Vec<Inlay>)
        ensures
            found@ == on_line(self.inlays(), line),
    {
        self.inlays.query(line)
    }

    /// The inlays anchored in line `line` as the layout of that line sees
    /// them.
    pub fn line_insets(&self, line: usize) -> (found: Vec<Inset>)
        ensures
            found@ == insets_on_line(self.inlays(), line as int),
    {
        self.inlays.insets(line)
    }

    /// Replaces the edit's range by its text, brings the tokens up to
    /// date and carries the inlays across the edit. A range that is not
    /// valid for the text is refused, and nothing changes.
    pub fn apply_edit(&mut self, edit: &Edit) -> (res: Result<Change, EditError>)
        requires
            old(self).wf(),
            edit.text.wf(),
        ensures
            final(self).wf(),
            final(self).language() == old(self).language(),
            final(self).next_inlay_id() == old(self).next_inlay_id(),
            match res {
                Ok(change) => edited(*old(self), *final(self), edit.range, edit.text@, change),
                Err(e) => !edit.range.valid_in(old(self).lines()) && *final(self) == *old(self),
            },
    {
        let ghost before = self.buffer@;
        let ghost old_inlays = self.inlays@;
        let ghost old_tokens = self.tokenizer.line_tokens();
        let ghost old_states = self.tokenizer.line_states();
        let ghost lang = self.tokenizer.language();
        let ghost old_count = self.buffer@.len();
        proof {
            self.buffer.lemma_fits();
        }
        match self.buffer.replace(edit.range, &edit.text) {
            Err(e) => Err(e),
            Ok(inverse) => {
                let first = edit.range.start.line;
                let old_last = edit.range.end.line;
                let new_last = inverse.range.end.line;
                let end = inverse.range.end;
                proof {
                    lemma_splice_outside(before, edit.range, edit.text@);
                    lemma_splice_well_formed(before, edit.range, edit.text@);
                    self.buffer.lemma_fits();
                    let after = self.buffer@;
                    assert forall|i: int| 0 <= i < first implies #[trigger] entry_ok(
                        old_tokens,
                        old_states,
                        lang,
                        i,
                        after[i],
                    ) by {
                        assert(entry_ok(old_tokens, old_states, lang, i, before[i]));
                    }
                    assert forall|j: int| old_last < j < old_tokens.len() implies #[trigger] entry_ok(
                        old_tokens,
                        old_states,
                        lang,
                        j,
                        after[j - old_last + new_last],
                    ) by {
                        assert(entry_ok(old_tokens, old_states, lang, j, before[j]));
                        assert(after[j - old_last + new_last] == before[j]);
                    }
                    assert forall|i: int|
                        0 <= i < old_inlays.len() && !strictly_inside(
                            (#[trigger] old_inlays[i]).anchor,
                            edit.range,
                        ) implies crate::remap::remap_fits(old_inlays[i].anchor, edit.range, end) by {
                        lemma_remap_valid(before, edit.range, edit.text@, old_inlays[i].anchor);
                    }
                    lemma_remap_valid(before, edit.range, edit.text@, edit.range.start);
                }
                let new_end = self.tokenizer.update(&self.buffer, first, old_last, new_last);
                let _ = self.inlays.remap_across_edit(edit.range, end);
                proof {
                    lemma_across_edit_props(old_inlays, edit.range, end, self.inlays.next_id());
                    let now = self.inlays@;
                    assert forall|i: int| 0 <= i < now.len() implies (#[trigger] now[i]).anchor.valid_in(
                        self.buffer@,
                    ) by {
                        let k = choose|k: int|
                            0 <= k < old_inlays.len() && !strictly_inside(
                                old_inlays[k].anchor,
                                edit.range,
                            ) && now[i] == old_inlays[k].remapped(edit.range, end);
                        lemma_remap_valid(before, edit.range, edit.text@, old_inlays[k].anchor);
                    }
                }
                assert(new_end - new_last + old_last <= old_count);
                let old_end = new_end - new_last + old_last;
                Ok(Change { inverse, first, old_end, new_end })
            },
        }
    }

    /// Anchors new content at `anchor`. Gives the number by which it can
    /// be removed, or none where the numbers have run out. An anchor
    /// outside the text is refused. Nothing but the inlays changes.
    pub fn insert_inlay(
        &mut self,
        anchor: Position,
        content: InlayContent,
        kind: InlayKind,
        width: usize,
    ) -> (res: Result<Option<u64>, EditError>)
        requires
            old(self).wf(),
        ensures
            final(self).wf(),
            final(self).lines() == old(self).lines(),
            final(self).tokens() == old(self).tokens(),
            final(self).states() == old(self).states(),
            final(self).language() == old(self).language(),
            res is Err <==> !anchor.valid_in(old(self).lines()),
            res is Err ==> *final(self) == *old(self),
            res is Ok ==> (res->Ok_0 is Some <==> old(self).next_inlay_id() < u64::MAX),
            res is Ok && res->Ok_0 is Some ==> res->Ok_0->0 == old(self).next_inlay_id() && final(self).inlays() == place_inlay(
                old(self).inlays(),
                Inlay { id: res->Ok_0->0, anchor, kind, content, width },
            ),
            res is Ok && res->Ok_0 is None ==> final(self).inlays() == old(self).inlays(),
    {
        if !self.buffer.contains_position(anchor) {
            return Err(EditError::OutOfBounds);
        }
        let ghost was = self.inlays@;
        let id = self.inlays.insert(anchor, content, kind, width);
        proof {
            if id is Some {
                let x = Inlay { id: id->0, anchor, kind, content, width };
                lemma_place_keeps(was, x);
                let now = self.inlays@;
                assert forall|i: int| 0 <= i < now.len() implies (#[trigger] now[i]).anchor.valid_in(
                    self.buffer@,
                ) by {
                    if now[i] != x {
                        let k = choose|k: int| 0 <= k < was.len() && was[k] == now[i];
                        assert(was[k].anchor.valid_in(self.buffer@));
                    }
                }
            }
        }
        Ok(id)
    }

    /// Removes the inlay with the number `id`. Says whether there was
    /// one. Nothing but the inlays changes.
    pub fn remove_inlay(&mut self, id: u64) -> (found: bool)
        requires
            old(self).wf(),
        ensures
            final(self).wf(),
            final(self).lines() == old(self).lines(),
            final(self).tokens() == old(self).tokens(),
            final(self).states() == old(self).states(),
            final(self).language() == old(self).language(),
            final(self).inlays() == without_id(old(self).inlays(), id),
            found == has_id(old(self).inlays(), id),
    {
        let ghost was = self.inlays@;
        let found = self.inlays.remove(id);
        proof {
            lemma_without_keeps(was, id);
            let now = self.inlays@;
            assert forall|i: int| 0 <= i < now.len() implies (#[trigger] now[i]).anchor.valid_in(
                self.buffer@,
            ) by {
                let k = choose|k: int| 0 <= k < was.len() && was[k] == now[i];
                assert(was[k].anchor.valid_in(self.buffer@));
            }
        }
        found
    }
}

/// Every inlay after one was placed is that one or was there before.
pub proof fn lemma_place_keeps(s: Seq<Inlay>, x: Inlay)
    ensures
        forall|i: int|
            0 <= i < place_inlay(s, x).len() ==> (#[trigger] place_inlay(s, x)[i]) == x || exists|
                k: int,
            |
                0 <= k < s.len() && s[k] == place_inlay(s, x)[i],
    decreases s.len(),
{
    let out = place_inlay(s, x);
    if s.len() == 0 || s.last().anchor.spec_le(x.anchor) {
        assert forall|i: int| 0 <= i < out.len() implies (#[trigger] out[i]) == x || exists|k: int|
            0 <= k < s.len() && s[k] == out[i] by {
            if i < s.len() {
                assert(s[i] == out[i]);
            }
        }
    } else {
        let front = s.drop_last();
        lemma_place_keeps(front, x);
        let inner = place_inlay(front, x);
        assert forall|i: int| 0 <= i < out.len() implies (#[trigger] out[i]) == x || exists|k: int|
            0 <= k < s.len() && s[k] == out[i] by {
            if i < inner.len() {
                assert(out[i] == inner[i]);
                if inner[i] != x {
                    let k = choose|k: int| 0 <= k < front.len() && front[k] == inner[i];
                    assert(s[k] == out[i]);
                }
            } else {
                assert(s[s.len() - 1] == out[i]);
            }
        }
    }
}

/// Every inlay after some were removed was there before.
pub proof fn lemma_without_keeps(s: Seq<Inlay>, id: u64)
    ensures
        forall|i: int|
            0 <= i < without_id(s, id).len() ==> exists|k: int|
                0 <= k < s.len() && s[k] == #[trigger] without_id(s, id)[i],
    decreases s.len(),
{
    let out = without_id(s, id);
    if s.len() > 0 {
        let front = s.drop_last();
        lemma_without_keeps(front, id);
        let inner = without_id(front, id);
        assert forall|i: int| 0 <= i < out.len() implies exists|k: int|
            0 <= k < s.len() && s[k] == #[trigger] out[i] by {
            if i < inner.len() {
                assert(out[i] == inner[i]);
                let k = choose|k: int| 0 <= k < front.len() && front[k] == inner[i];
                assert(s[k] == out[i]);
            } else {
                assert(s[s.len() - 1] == out[i]);
            }
        }
    }
}

} // verus!
