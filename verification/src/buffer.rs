//! The text buffer: the lines of a document, changed only by replacing a
//! range with a text, which hands back the edit that undoes the change.

use vstd::prelude::*;
use crate::position::{Position, Range};
use crate::text::{
    Text, lines_view, well_formed, no_newline, extract, graft, splice, insert_end, append_range,
    copy_range, lemma_lines_view_push, lemma_splice_well_formed, lemma_extract_well_formed,
    lemma_replace_round_trip,
};

verus! {

/// Why an operation on a buffer was refused.
#[derive(Clone, Copy, Debug, PartialEq, Eq, Structural)]
pub enum EditError {
    /// A position or range lies outside the buffer's text.
    OutOfBounds,
}

/// One change to a buffer: the range to replace, and the text to put there.
#[derive(Debug, PartialEq, Eq)]
pub struct Edit {
    pub range: Range,
    pub text: Text,
}

/// An edit as a value: its range and the lines of its text.
pub struct EditView {
    pub range: Range,
    pub text: Seq<Seq<char>>,
}

impl View for Edit {
    type V = EditView;

    open spec fn view(&self) -> EditView {
        EditView { range: self.range, text: self.text@ }
    }
}

impl Clone for Edit {
    fn clone(&self) -> (e: Edit)
        ensures
            e.range == self.range,
            e.text@ == self.text@,
    {
        Edit { range: self.range, text: self.text.clone() }
    }
}

impl Edit {
    /// Whether the edit's text is well-formed and its range is ordered.
    pub open spec fn wf(&self) -> bool {
        self.text.wf() && self.range.ordered()
    }

    /// Whether the edit can be applied to `lines`.
    pub open spec fn valid_in(&self, lines: Seq<Seq<char>>) -> bool {
        self.text.wf() && self.range.valid_in(lines)
    }

    pub fn new(range: Range, text: Text) -> (e: Edit)
        ensures
            e.range == range,
            e.text == text,
    {
        Edit { range, text }
    }
}

/// The lines of a document.
#[derive(Debug, PartialEq, Eq)]
pub struct TextBuffer {
    lines: Vec<Vec<char>>,
}

impl View for TextBuffer {
    type V = Seq<Seq<char>>;

    closed spec fn view(&self) -> Seq<Seq<char>> {
        lines_view(self.lines@)
    }
}

impl TextBuffer {
    /// Whether the buffer has a line and no line holds a line break.
    pub open spec fn wf(&self) -> bool {
        well_formed(self@)
    }

    /// The number of lines and the length of every line can be
    /// represented.
    pub proof fn lemma_fits(&self)
        ensures
            self@.len() <= usize::MAX,
            forall|i: int| 0 <= i < self@.len() ==> (#[trigger] self@[i]).len() <= usize::MAX,
    {
        assert(self.lines.len() == self.lines@.len());
        assert forall|i: int| 0 <= i < self@.len() implies (#[trigger] self@[i]).len()
            <= usize::MAX by {
            assert(self.lines@[i].len() == self.lines@[i]@.len());
        }
    }

    /// The buffer of an empty document: one empty line.
    pub fn new() -> (b: TextBuffer)
        ensures
            b@ == seq![Seq::<char>::empty()],
            b.wf(),
    {
        TextBuffer::from_text(Text::new())
    }

    /// The buffer that holds the given text.
    pub fn from_text(text: Text) -> (b: TextBuffer)
        ensures
            b@ == text@,
    {
        TextBuffer { lines: text.into_lines() }
    }

    /// The buffer that holds the lines of a string.
    pub fn from_str(s: &str) -> (b: TextBuffer)
        ensures
            b@ == crate::text::split_lines(s@),
            b.wf(),
    {
        TextBuffer::from_text(Text::from_str(s))
    }

    pub fn line_count(&self) -> (n: usize)
        ensures
            n == self@.len(),
    {
        self.lines.len()
    }

    /// The number of characters of line `line`.
    pub fn line_length(&self, line: usize) -> (res: Result<usize, EditError>)
        ensures
            line < self@.len() ==> res == Ok::<usize, EditError>(self@[line as int].len() as usize),
            line >= self@.len() ==> res == Err::<usize, EditError>(EditError::OutOfBounds),
    {
        if line < self.lines.len() {
            Ok(self.lines[line].len())
        } else {
            Err(EditError::OutOfBounds)
        }
    }

    /// The characters of line `i`.
    pub fn line(&self, i: usize) -> (line: &Vec<char>)
        requires
            i < self@.len(),
        ensures
            line@ == self@[i as int],
    {
        &self.lines[i]
    }

    /// Whether `p` addresses a place in the buffer.
    pub fn contains_position(&self, p: Position) -> (b: bool)
        ensures
            b == p.valid_in(self@),
    {
        p.line < self.lines.len() && p.offset <= self.lines[p.line].len()
    }

    /// Whether `range` is ordered and lies in the buffer.
    pub fn contains_range(&self, range: Range) -> (b: bool)
        ensures
            b == range.valid_in(self@),
    {
        range.is_ordered() && self.contains_position(range.start) && self.contains_position(
            range.end,
        )
    }

    /// The position after the last character of the buffer.
    pub fn end(&self) -> (p: Position)
        requires
            self.wf(),
        ensures
            p.line == self@.len() - 1,
            p.offset == self@.last().len(),
            p.valid_in(self@),
    {
        let line = self.lines.len() - 1;
        Position { line, offset: self.lines[line].len() }
    }

    /// The text that `range` covers.
    pub fn read(&self, range: Range) -> (res: Result<Text, EditError>)
        requires
            self.wf(),
        ensures
            match res {
                Ok(text) => range.valid_in(self@) && text@ == extract(self@, range) && text.wf(),
                Err(e) => !range.valid_in(self@),
            },
    {
        if !self.contains_range(range) {
            return Err(EditError::OutOfBounds);
        }
        let s = range.start;
        let e = range.end;
        let mut out: Vec<Vec<char>> = Vec::new();
        if s.line == e.line {
            let only = copy_range(&self.lines[s.line], s.offset, e.offset);
            out.push(only);
            assert(lines_view(out@) =~~= extract(self@, range));
        } else {
            let first = copy_range(&self.lines[s.line], s.offset, self.lines[s.line].len());
            out.push(first);
            let mut i: usize = s.line + 1;
            assert(lines_view(out@) =~~= seq![
                self@[s.line as int].subrange(s.offset as int, self@[s.line as int].len() as int),
            ] + self@.subrange(s.line + 1, i as int));
            while i < e.line
                invariant
                    s.line < i <= e.line < self.lines@.len(),
                    lines_view(out@) == seq![
                        self@[s.line as int].subrange(
                            s.offset as int,
                            self@[s.line as int].len() as int,
                        ),
                    ] + self@.subrange(s.line + 1, i as int),
                decreases e.line - i,
            {
                let line = copy_range(&self.lines[i], 0, self.lines[i].len());
                proof {
                    lemma_lines_view_push(out@, line);
                    assert(line@ =~= self@[i as int]);
                    assert(lines_view(out@).push(line@) =~= seq![
                        self@[s.line as int].subrange(
                            s.offset as int,
                            self@[s.line as int].len() as int,
                        ),
                    ] + self@.subrange(s.line + 1, i + 1));
                }
                out.push(line);
                i += 1;
            }
            let last = copy_range(&self.lines[e.line], 0, e.offset);
            proof {
                lemma_lines_view_push(out@, last);
                assert(lines_view(out@).push(last@) =~= extract(self@, range));
            }
            out.push(last);
        }
        proof {
            lemma_extract_well_formed(self@, range);
        }
        Ok(Text::assemble(out))
    }

    /// Replaces `range` by `text`. Hands back the inverse edit: the range
    /// that `text` now occupies, with the text that it displaced. A range
    /// that is not valid for the buffer is refused and nothing changes.
    pub fn replace(&mut self, range: Range, text: &Text) -> (res: Result<Edit, EditError>)
        requires
            old(self).wf(),
            text.wf(),
        ensures
            final(self).wf(),
            match res {
                Ok(inverse) => {
                    &&& range.valid_in(old(self)@)
                    &&& final(self)@ == splice(old(self)@, range, text@)
                    &&& inverse.range.start == range.start
                    &&& inverse.range.end.line == insert_end(range.start, text@).0
                    &&& inverse.range.end.offset == insert_end(range.start, text@).1
                    &&& inverse.text@ == extract(old(self)@, range)
                    &&& inverse.valid_in(final(self)@)
                },
                Err(e) => !range.valid_in(old(self)@) && *final(self) == *old(self),
            },
    {
        if !self.contains_range(range) {
            return Err(EditError::OutOfBounds);
        }
        let s = range.start;
        let e = range.end;
        let ghost before = self@;
        let ghost raw = self.lines@;
        let ghost head = before[s.line as int].subrange(0, s.offset as int);
        let ghost tail = before[e.line as int].subrange(
            e.offset as int,
            before[e.line as int].len() as int,
        );
        let ghost gone = extract(before, range);
        proof {
            lemma_splice_well_formed(before, range, text@);
            lemma_extract_well_formed(before, range);
        }
        assert(e.line < self.lines.len());
        let mut rest = self.lines.split_off(e.line + 1);
        let mut removed = self.lines.split_off(s.line);
        assert(removed@ =~= raw.subrange(s.line as int, e.line + 1));
        assert(self.lines@ =~= raw.subrange(0, s.line as int));
        let mut last = removed.pop().unwrap();
        assert(last@ == before[e.line as int]);
        let mut suffix = last.split_off(e.offset);
        assert(suffix@ =~= tail);
        let mut displaced: Vec<Vec<char>> = Vec::new();
        let mut cur: Vec<char>;
        if removed.len() == 0 {
            let d = last.split_off(s.offset);
            cur = last;
            displaced.push(d);
            assert(lines_view(displaced@) =~~= gone);
            assert(cur@ =~= head);
        } else {
            let mut first = removed.remove(0);
            assert(first@ == before[s.line as int]);
            let d = first.split_off(s.offset);
            cur = first;
            assert(cur@ =~= head);
            displaced.push(d);
            displaced.append(&mut removed);
            displaced.push(last);
            assert(lines_view(displaced@) =~~= gone) by {
                assert(displaced@.len() == gone.len());
                assert forall|k: int| 0 <= k < gone.len() implies #[trigger] lines_view(
                    displaced@,
                )[k] =~= gone[k] by {
                    if 0 < k < gone.len() - 1 {
                        assert(displaced@[k] == raw[s.line + k]);
                    }
                }
            }
        }
        let n = text.line_count();
        let mut k: usize = 0;
        while k + 1 < n
            invariant
                n == text@.len(),
                n >= 1,
                k < n,
                s.line < before.len(),
                lines_view(self.lines@) == before.subrange(0, s.line as int) + (if k == 0 {
                    Seq::<Seq<char>>::empty()
                } else {
                    seq![head + text@[0]] + text@.subrange(1, k as int)
                }),
                cur@ == (if k == 0 {
                    head
                } else {
                    Seq::<char>::empty()
                }),
            decreases n - k,
        {
            let line = text.line(k);
            let ghost was = cur@;
            append_range(&mut cur, line, 0, line.len());
            proof {
                assert(line@.subrange(0, line@.len() as int) =~= line@);
                lemma_lines_view_push(self.lines@, cur);
                if k == 0 {
                    assert(before.subrange(0, s.line as int).push(head + text@[0])
                        =~= before.subrange(0, s.line as int) + (seq![head + text@[0]]
                        + text@.subrange(1, 1)));
                } else {
                    assert(cur@ =~= text@[k as int]);
                    assert((before.subrange(0, s.line as int) + (seq![head + text@[0]]
                        + text@.subrange(1, k as int))).push(text@[k as int]) =~= before.subrange(
                        0,
                        s.line as int,
                    ) + (seq![head + text@[0]] + text@.subrange(1, k + 1)));
                }
            }
            self.lines.push(cur);
            cur = Vec::new();
            k += 1;
        }
        let line = text.line(n - 1);
        append_range(&mut cur, line, 0, line.len());
        assert(line@.subrange(0, line@.len() as int) =~= line@);
        let end = Position { line: self.lines.len(), offset: cur.len() };
        cur.append(&mut suffix);
        proof {
            lemma_lines_view_push(self.lines@, cur);
            if n == 1 {
                assert(cur@ =~= head + text@[0] + tail);
                assert(lines_view(self.lines@).push(cur@) =~= before.subrange(0, s.line as int)
                    + graft(head, text@, tail));
            } else {
                assert(cur@ =~= text@.last() + tail);
                assert(lines_view(self.lines@).push(cur@) =~= before.subrange(0, s.line as int)
                    + graft(head, text@, tail));
            }
        }
        self.lines.push(cur);
        proof {
            crate::text::lemma_lines_view_concat(self.lines@, rest@);
            assert(lines_view(rest@) =~= before.subrange(e.line + 1, before.len() as int));
        }
        self.lines.append(&mut rest);
        proof {
            lemma_replace_round_trip(before, range, text@);
        }
        Ok(Edit { range: Range { start: s, end }, text: Text::assemble(displaced) })
    }

    /// Applies an edit: replaces its range by its text.
    pub fn apply(&mut self, edit: &Edit) -> (res: Result<Edit, EditError>)
        requires
            old(self).wf(),
            edit.text.wf(),
        ensures
            final(self).wf(),
            match res {
                Ok(inverse) => {
                    &&& edit.range.valid_in(old(self)@)
                    &&& final(self)@ == splice(old(self)@, edit.range, edit.text@)
                    &&& inverse.range.start == edit.range.start
                    &&& inverse.range.end.line == insert_end(edit.range.start, edit.text@).0
                    &&& inverse.range.end.offset == insert_end(edit.range.start, edit.text@).1
                    &&& inverse.text@ == extract(old(self)@, edit.range)
                    &&& inverse.valid_in(final(self)@)
                },
                Err(e) => !edit.range.valid_in(old(self)@) && *final(self) == *old(self),
            },
    {
        self.replace(edit.range, &edit.text)
    }
}

} // verus!
