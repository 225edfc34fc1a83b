//! Text as a sequence of lines, the buffer that holds a document's text,
//! and the one way to change it: replacing a range by a text.

use vstd::prelude::*;
use crate::position::{Position, Range};

verus! {

/// The lines held by a vector of character vectors.
pub open spec fn lines_view(v: Seq<Vec<char>>) -> Seq<Seq<char>> {
    Seq::new(v.len(), |i: int| v[i]@)
}

/// A line holds no line break.
pub open spec fn no_newline(line: Seq<char>) -> bool {
    forall|i: int| 0 <= i < line.len() ==> line[i] != '\n'
}

/// A text has at least one line, and no line holds a line break.
pub open spec fn well_formed(lines: Seq<Seq<char>>) -> bool {
    &&& lines.len() >= 1
    &&& forall|i: int| 0 <= i < lines.len() ==> no_newline(#[trigger] lines[i])
}

/// The lines of a character sequence: a line break ends one line and
/// begins the next.
pub open spec fn split_lines(s: Seq<char>) -> Seq<Seq<char>>
    decreases s.len(),
{
    if s.len() == 0 {
        seq![Seq::<char>::empty()]
    } else {
        let before = split_lines(s.drop_last());
        if s.last() == '\n' {
            before.push(Seq::<char>::empty())
        } else {
            before.drop_last().push(before.last().push(s.last()))
        }
    }
}

/// The lines as one character sequence, with a line break between each
/// two neighbours.
pub open spec fn join_lines(lines: Seq<Seq<char>>) -> Seq<char>
    decreases lines.len(),
{
    if lines.len() == 0 {
        Seq::<char>::empty()
    } else if lines.len() == 1 {
        lines[0]
    } else {
        join_lines(lines.drop_last()).push('\n') + lines.last()
    }
}

/// The text that `range` covers in `lines`.
pub open spec fn extract(lines: Seq<Seq<char>>, range: Range) -> Seq<Seq<char>> {
    let s = range.start;
    let e = range.end;
    if s.line == e.line {
        seq![lines[s.line as int].subrange(s.offset as int, e.offset as int)]
    } else {
        seq![lines[s.line as int].subrange(s.offset as int, lines[s.line as int].len() as int)]
            + lines.subrange(s.line + 1, e.line as int) + seq![
            lines[e.line as int].subrange(0, e.offset as int),
        ]
    }
}

/// The lines that result when `text` is set between the head of one line
/// and the tail of another.
pub open spec fn graft(head: Seq<char>, text: Seq<Seq<char>>, tail: Seq<char>) -> Seq<Seq<char>> {
    if text.len() == 1 {
        seq![head + text[0] + tail]
    } else {
        seq![head + text[0]] + text.subrange(1, text.len() - 1) + seq![text.last() + tail]
    }
}

/// The lines after `range` has been replaced by `text`.
pub open spec fn splice(lines: Seq<Seq<char>>, range: Range, text: Seq<Seq<char>>) -> Seq<
    Seq<char>,
> {
    let s = range.start;
    let e = range.end;
    lines.subrange(0, s.line as int) + graft(
        lines[s.line as int].subrange(0, s.offset as int),
        text,
        lines[e.line as int].subrange(e.offset as int, lines[e.line as int].len() as int),
    ) + lines.subrange(e.line + 1, lines.len() as int)
}

/// Where a text ends that was inserted at `start`.
pub open spec fn insert_end(start: Position, text: Seq<Seq<char>>) -> (int, int) {
    if text.len() == 1 {
        (start.line as int, start.offset + text[0].len())
    } else {
        (start.line + text.len() - 1, text.last().len() as int)
    }
}

pub proof fn lemma_lines_view_push(v: Seq<Vec<char>>, x: Vec<char>)
    ensures
        lines_view(v.push(x)) == lines_view(v).push(x@),
{
    assert(lines_view(v.push(x)) =~= lines_view(v).push(x@));
}

pub proof fn lemma_lines_view_concat(a: Seq<Vec<char>>, b: Seq<Vec<char>>)
    ensures
        lines_view(a + b) == lines_view(a) + lines_view(b),
{
    assert(lines_view(a + b) =~= lines_view(a) + lines_view(b));
}

/// Splitting gives a well-formed text.
pub proof fn lemma_split_well_formed(s: Seq<char>)
    ensures
        well_formed(split_lines(s)),
    decreases s.len(),
{
    if s.len() > 0 {
        lemma_split_well_formed(s.drop_last());
        let before = split_lines(s.drop_last());
        let now = split_lines(s);
        assert forall|i: int| 0 <= i < now.len() implies no_newline(#[trigger] now[i]) by {
            if i < now.len() - 1 {
                assert(now[i] == before[i]);
            } else if s.last() != '\n' {
                assert(no_newline(before[before.len() - 1]));
            }
        }
    }
}

/// Joining the lines of a character sequence gives the sequence back.
pub proof fn lemma_join_split(s: Seq<char>)
    ensures
        join_lines(split_lines(s)) == s,
    decreases s.len(),
{
    if s.len() == 0 {
        assert(join_lines(split_lines(s)) =~= s);
    } else {
        let front = s.drop_last();
        lemma_join_split(front);
        lemma_split_well_formed(front);
        let before = split_lines(front);
        let now = split_lines(s);
        if s.last() == '\n' {
            assert(now.drop_last() =~= before);
            assert(join_lines(now) =~= front.push('\n'));
            assert(front.push('\n') =~= s);
        } else if before.len() == 1 {
            assert(now =~= seq![before[0].push(s.last())]);
            assert(before[0] == front);
            assert(front.push(s.last()) =~= s);
        } else {
            assert(now.drop_last() =~= before.drop_last());
            assert(join_lines(now) == join_lines(before.drop_last()).push('\n') + before.last().push(
                s.last(),
            ));
            assert(join_lines(before) == join_lines(before.drop_last()).push('\n') + before.last());
            assert(join_lines(now) =~= join_lines(before).push(s.last()));
            assert(front.push(s.last()) =~= s);
        }
    }
}

/// Appending characters without a line break to a sequence lengthens the
/// last of its lines.
pub proof fn lemma_split_append_line(s: Seq<char>, line: Seq<char>)
    requires
        no_newline(line),
    ensures
        split_lines(s + line) == split_lines(s).drop_last().push(split_lines(s).last() + line),
        split_lines(s).len() >= 1,
    decreases line.len(),
{
    lemma_split_well_formed(s);
    if line.len() == 0 {
        assert(s + line =~= s);
        assert(split_lines(s).last() + line =~= split_lines(s).last());
        assert(split_lines(s).drop_last().push(split_lines(s).last()) =~= split_lines(s));
    } else {
        let shorter = line.drop_last();
        assert(no_newline(shorter));
        lemma_split_append_line(s, shorter);
        assert((s + line).drop_last() =~= s + shorter);
        assert((s + line).last() == line.last());
        let before = split_lines(s + shorter);
        assert(before.last() == split_lines(s).last() + shorter);
        assert(before.last().push(line.last()) =~= split_lines(s).last() + line);
        assert(before.drop_last() =~= split_lines(s).drop_last());
    }
}

/// Splitting the joined lines of a well-formed text gives the text back.
pub proof fn lemma_split_join(lines: Seq<Seq<char>>)
    requires
        well_formed(lines),
    ensures
        split_lines(join_lines(lines)) == lines,
    decreases lines.len(),
{
    if lines.len() == 1 {
        let empty = Seq::<char>::empty();
        lemma_split_append_line(empty, lines[0]);
        assert(empty + lines[0] =~= lines[0]);
        assert(split_lines(empty) =~= seq![empty]);
        assert(split_lines(lines[0]) =~= seq![lines[0]]);
        assert(seq![lines[0]] =~= lines);
    } else {
        let front = lines.drop_last();
        assert(well_formed(front)) by {
            assert forall|i: int| 0 <= i < front.len() implies no_newline(#[trigger] front[i]) by {
                assert(front[i] == lines[i]);
            }
        }
        lemma_split_join(front);
        let joined = join_lines(front).push('\n');
        assert(joined.drop_last() =~= join_lines(front));
        assert(split_lines(joined) == front.push(Seq::<char>::empty()));
        lemma_split_append_line(joined, lines.last());
        assert(Seq::<char>::empty() + lines.last() =~= lines.last());
        assert(front.push(Seq::<char>::empty()).drop_last() =~= front);
        assert(front.push(lines.last()) =~= lines);
    }
}

/// Replacing a valid range of a well-formed text by a well-formed text
/// gives a well-formed text, in which the inserted text's range is valid.
pub proof fn lemma_splice_well_formed(lines: Seq<Seq<char>>, range: Range, text: Seq<Seq<char>>)
    requires
        well_formed(lines),
        well_formed(text),
        range.valid_in(lines),
    ensures
        well_formed(splice(lines, range, text)),
        splice(lines, range, text).len() == lines.len() - (range.end.line - range.start.line)
            + text.len() - 1,
        insert_end(range.start, text).0 < splice(lines, range, text).len(),
        insert_end(range.start, text).1 <= splice(lines, range, text)[insert_end(
            range.start,
            text,
        ).0].len(),
        range.start.valid_in(splice(lines, range, text)),
{
    let out = splice(lines, range, text);
    let s = range.start;
    let e = range.end;
    let head = lines[s.line as int].subrange(0, s.offset as int);
    let tail = lines[e.line as int].subrange(e.offset as int, lines[e.line as int].len() as int);
    let mid = graft(head, text, tail);
    assert(no_newline(lines[s.line as int]));
    assert(no_newline(lines[e.line as int]));
    assert(no_newline(text[0]));
    assert(no_newline(text.last()));
    assert forall|i: int| 0 <= i < out.len() implies no_newline(#[trigger] out[i]) by {
        if i < s.line {
            assert(out[i] == lines[i]);
        } else if i < s.line + mid.len() {
            let k = i - s.line;
            assert(out[i] == mid[k]);
            if text.len() > 1 && 0 < k < text.len() - 1 {
                assert(mid[k] == text[k]);
            }
        } else {
            assert(out[i] == lines[i - s.line - mid.len() + e.line + 1]);
        }
    }
    assert(out[s.line as int] == mid[0]);
    assert(out[s.line + text.len() - 1] == mid[text.len() - 1]);
}

/// Replacing a range leaves the lines before it as they were, and those
/// behind it too, which only move.
pub proof fn lemma_splice_outside(lines: Seq<Seq<char>>, range: Range, text: Seq<Seq<char>>)
    requires
        well_formed(lines),
        well_formed(text),
        range.valid_in(lines),
    ensures
        forall|i: int|
            0 <= i < range.start.line ==> (#[trigger] splice(lines, range, text)[i]) == lines[i],
        forall|j: int|
            range.end.line < j < lines.len() ==> splice(lines, range, text)[j - range.end.line
                + insert_end(range.start, text).0] == #[trigger] lines[j],
        splice(lines, range, text).len() - insert_end(range.start, text).0 == lines.len()
            - range.end.line,
        insert_end(range.start, text).0 == range.start.line + text.len() - 1,
{
    lemma_splice_well_formed(lines, range, text);
}

/// Replacing a range and then replacing the inserted text's range by the
/// displaced text gives back the text as it was.
pub proof fn lemma_replace_round_trip(lines: Seq<Seq<char>>, range: Range, text: Seq<Seq<char>>)
    requires
        well_formed(lines),
        well_formed(text),
        range.valid_in(lines),
        insert_end(range.start, text).0 <= usize::MAX,
        insert_end(range.start, text).1 <= usize::MAX,
    ensures
        ({
            let after = splice(lines, range, text);
            let end = insert_end(range.start, text);
            let back = Range {
                start: range.start,
                end: Position { line: end.0 as usize, offset: end.1 as usize },
            };
            &&& back.valid_in(after)
            &&& extract(after, back) == text
            &&& splice(after, back, extract(lines, range)) == lines
            &&& well_formed(extract(lines, range))
        }),
{
    let after = splice(lines, range, text);
    let end = insert_end(range.start, text);
    let back = Range {
        start: range.start,
        end: Position { line: end.0 as usize, offset: end.1 as usize },
    };
    let s = range.start;
    let e = range.end;
    let head = lines[s.line as int].subrange(0, s.offset as int);
    let tail = lines[e.line as int].subrange(e.offset as int, lines[e.line as int].len() as int);
    let mid = graft(head, text, tail);
    let gone = extract(lines, range);
    lemma_splice_well_formed(lines, range, text);
    lemma_extract_well_formed(lines, range);
    assert(after[s.line as int] == mid[0]);
    assert(after[back.end.line as int] == mid[text.len() - 1]);
    assert(extract(after, back) =~~= text) by {
        if text.len() > 1 {
            assert forall|k: int| 0 < k < text.len() - 1 implies #[trigger] extract(after, back)[k]
                == text[k] by {
                assert(after[s.line + k] == mid[k]);
            }
        }
    }
    let head2 = after[s.line as int].subrange(0, s.offset as int);
    let tail2 = after[back.end.line as int].subrange(
        back.end.offset as int,
        after[back.end.line as int].len() as int,
    );
    assert(head2 =~= head);
    assert(tail2 =~= tail);
    let mid2 = graft(head, gone, tail);
    assert(mid2 =~~= lines.subrange(s.line as int, e.line + 1)) by {
        if s.line != e.line {
            assert(mid2[0] =~= lines[s.line as int]);
            assert(mid2[mid2.len() - 1] =~= lines[e.line as int]);
            assert forall|k: int| 0 < k < mid2.len() - 1 implies #[trigger] mid2[k] == lines[s.line
                + k] by {
                assert(gone[k] == lines[s.line + k]);
            }
        } else {
            assert(mid2[0] =~= lines[s.line as int]);
        }
    }
    assert(after.subrange(0, s.line as int) =~= lines.subrange(0, s.line as int));
    assert(after.subrange(back.end.line + 1, after.len() as int) =~= lines.subrange(
        e.line + 1,
        lines.len() as int,
    ));
    assert(splice(after, back, gone) =~= lines);
}

/// The text that a valid range covers is well-formed.
pub proof fn lemma_extract_well_formed(lines: Seq<Seq<char>>, range: Range)
    requires
        well_formed(lines),
        range.valid_in(lines),
    ensures
        well_formed(extract(lines, range)),
        extract(lines, range).len() == range.end.line - range.start.line + 1,
{
    let gone = extract(lines, range);
    let s = range.start;
    let e = range.end;
    assert(no_newline(lines[s.line as int]));
    assert(no_newline(lines[e.line as int]));
    assert forall|i: int| 0 <= i < gone.len() implies no_newline(#[trigger] gone[i]) by {
        if 0 < i < gone.len() - 1 {
            assert(gone[i] == lines[s.line + i]);
        }
    }
}

/// One text behind another: the last line of the first and the first
/// line of the second become one line.
pub open spec fn concat_text(a: Seq<Seq<char>>, b: Seq<Seq<char>>) -> Seq<Seq<char>> {
    a.drop_last() + seq![a.last() + b[0]] + b.subrange(1, b.len() as int)
}

pub proof fn lemma_concat_well_formed(a: Seq<Seq<char>>, b: Seq<Seq<char>>)
    requires
        well_formed(a),
        well_formed(b),
    ensures
        well_formed(concat_text(a, b)),
        concat_text(a, b).len() == a.len() + b.len() - 1,
{
    let c = concat_text(a, b);
    assert(no_newline(a.last()));
    assert(no_newline(b[0]));
    assert forall|i: int| 0 <= i < c.len() implies no_newline(#[trigger] c[i]) by {
        if i < a.len() - 1 {
            assert(c[i] == a[i]);
        } else if i == a.len() - 1 {
            assert(c[i] == a.last() + b[0]);
        } else {
            assert(c[i] == b[i - a.len() + 1]);
        }
    }
}

/// Replacing a range by one text and then inserting another at the end
/// of the first is replacing the range by the two texts, one behind the
/// other.
pub proof fn lemma_splice_then_insert(
    lines: Seq<Seq<char>>,
    range: Range,
    first: Seq<Seq<char>>,
    second: Seq<Seq<char>>,
)
    requires
        well_formed(lines),
        well_formed(first),
        well_formed(second),
        range.valid_in(lines),
        insert_end(range.start, first).0 <= usize::MAX,
        insert_end(range.start, first).1 <= usize::MAX,
    ensures
        ({
            let end = insert_end(range.start, first);
            let at = Position { line: end.0 as usize, offset: end.1 as usize };
            let both = concat_text(first, second);
            &&& splice(splice(lines, range, first), Range { start: at, end: at }, second) == splice(
                lines,
                range,
                both,
            )
            &&& insert_end(at, second) == insert_end(range.start, both)
        }),
{
    let end = insert_end(range.start, first);
    let at = Position { line: end.0 as usize, offset: end.1 as usize };
    let both = concat_text(first, second);
    let once = splice(lines, range, first);
    let twice = splice(once, Range { start: at, end: at }, second);
    let direct = splice(lines, range, both);
    let s = range.start;
    let e = range.end;
    let head = lines[s.line as int].subrange(0, s.offset as int);
    let tail = lines[e.line as int].subrange(e.offset as int, lines[e.line as int].len() as int);
    let mid1 = graft(head, first, tail);
    lemma_splice_well_formed(lines, range, first);
    lemma_concat_well_formed(first, second);
    assert(once[at.line as int] == mid1[first.len() - 1]);
    let head2 = once[at.line as int].subrange(0, at.offset as int);
    let tail2 = once[at.line as int].subrange(at.offset as int, once[at.line as int].len() as int);
    assert(tail2 =~= tail);
    if first.len() == 1 {
        assert(head2 =~= head + first[0]);
    } else {
        assert(head2 =~= first.last());
    }
    let mid2 = graft(head2, second, tail2);
    let mid = graft(head, both, tail);
    assert(twice.len() == direct.len());
    assert forall|i: int| 0 <= i < direct.len() implies twice[i] =~= direct[i] by {
        if i < s.line {
            assert(once[i] == lines[i]);
        } else if i < at.line {
            let k = i - s.line;
            assert(once[i] == mid1[k]);
            assert(direct[i] == mid[k]);
            if k == 0 {
                assert(both[0] == first[0]);
            } else {
                assert(both[k] == first[k]);
            }
        } else if i < at.line + second.len() {
            let k = i - at.line;
            assert(twice[i] == mid2[k]);
            assert(direct[i] == mid[i - s.line]);
            if k == 0 {
                assert(both[first.len() - 1] == first.last() + second[0]);
            } else {
                assert(both[first.len() - 1 + k] == second[k]);
            }
        } else {
            assert(twice[i] == once[i - second.len() + 1]);
            assert(once[i - second.len() + 1] == lines[i - second.len() + 1 - first.len() + 1
                + (e.line - s.line)]);
        }
    }
    assert(twice =~= direct);
}

/// Copies the characters of a string into a vector.
pub fn chars_of(s: &str) -> (v: Vec<char>)
    ensures
        v@ == s@,
{
    broadcast use vstd::string::axiom_spec_iter;

    let mut v: Vec<char> = Vec::new();
    for c in it: s.chars()
        invariant
            it.seq() == s@,
            v@ == it.seq().take(it.index() as int),
    {
        v.push(c);
        assert(v@ =~= it.seq().take(it.index() + 1));
    }
    assert(v@ =~= s@);
    v
}

/// Appends the characters of `src` from `from` up to `to` to `dst`.
pub fn append_range(dst: &mut Vec<char>, src: &Vec<char>, from: usize, to: usize)
    requires
        from <= to <= src@.len(),
    ensures
        final(dst)@ == old(dst)@ + src@.subrange(from as int, to as int),
{
    let mut i: usize = from;
    while i < to
        invariant
            from <= i <= to <= src@.len(),
            dst@ == old(dst)@ + src@.subrange(from as int, i as int),
        decreases to - i,
    {
        dst.push(src[i]);
        i += 1;
        assert(dst@ =~= old(dst)@ + src@.subrange(from as int, i as int));
    }
}

/// A copy of the characters of `src` from `from` up to `to`.
pub fn copy_range(src: &Vec<char>, from: usize, to: usize) -> (v: Vec<char>)
    requires
        from <= to <= src@.len(),
    ensures
        v@ == src@.subrange(from as int, to as int),
{
    let mut v: Vec<char> = Vec::new();
    append_range(&mut v, src, from, to);
    assert(v@ =~= src@.subrange(from as int, to as int));
    v
}

/// A text: one or more lines of characters, none of which holds a line
/// break.
#[derive(Debug, PartialEq, Eq)]
pub struct Text {
    lines: Vec<Vec<char>>,
}

impl View for Text {
    type V = Seq<Seq<char>>;

    closed spec fn view(&self) -> Seq<Seq<char>> {
        lines_view(self.lines@)
    }
}

impl Clone for Text {
    fn clone(&self) -> (t: Text)
        ensures
            t@ == self@,
    {
        let mut lines: Vec<Vec<char>> = Vec::new();
        let mut i: usize = 0;
        while i < self.lines.len()
            invariant
                i <= self.lines@.len(),
                lines_view(lines@) == lines_view(self.lines@).subrange(0, i as int),
            decreases self.lines@.len() - i,
        {
            let line = copy_range(&self.lines[i], 0, self.lines[i].len());
            proof {
                lemma_lines_view_push(lines@, line);
                assert(line@ =~= self.lines@[i as int]@);
                assert(lines_view(lines@).push(line@) =~= lines_view(self.lines@).subrange(
                    0,
                    i + 1,
                ));
            }
            lines.push(line);
            i += 1;
        }
        assert(lines_view(lines@) =~= lines_view(self.lines@));
        Text { lines }
    }
}

impl Text {
    /// Whether the text has a line and no line holds a line break.
    pub open spec fn wf(&self) -> bool {
        well_formed(self@)
    }

    /// The text of one empty line.
    pub fn new() -> (t: Text)
        ensures
            t@ == seq![Seq::<char>::empty()],
            t.wf(),
    {
        let mut lines: Vec<Vec<char>> = Vec::new();
        let line: Vec<char> = Vec::new();
        lines.push(line);
        assert(lines_view(lines@) =~~= seq![Seq::<char>::empty()]);
        Text { lines }
    }

    /// The text whose lines are the given ones, if it is well-formed.
    pub fn from_lines(lines: Vec<Vec<char>>) -> (t: Option<Text>)
        ensures
            t is Some <==> well_formed(lines_view(lines@)),
            t is Some ==> t->0@ == lines_view(lines@),
    {
        if lines.len() == 0 {
            return None;
        }
        let mut i: usize = 0;
        while i < lines.len()
            invariant
                i <= lines@.len(),
                forall|k: int| 0 <= k < i ==> no_newline(#[trigger] lines_view(lines@)[k]),
            decreases lines@.len() - i,
        {
            let mut j: usize = 0;
            while j < lines[i].len()
                invariant
                    i < lines@.len(),
                    j <= lines@[i as int]@.len(),
                    forall|k: int| 0 <= k < j ==> lines@[i as int]@[k] != '\n',
                decreases lines@[i as int]@.len() - j,
            {
                if lines[i][j] == '\n' {
                    assert(!no_newline(lines_view(lines@)[i as int]));
                    return None;
                }
                j += 1;
            }
            assert(no_newline(lines_view(lines@)[i as int]));
            i += 1;
        }
        Some(Text { lines })
    }

    /// The text whose lines are the given ones.
    pub(crate) fn assemble(lines: Vec<Vec<char>>) -> (t: Text)
        requires
            well_formed(lines_view(lines@)),
        ensures
            t@ == lines_view(lines@),
            t.wf(),
    {
        Text { lines }
    }

    /// The lines of a character sequence.
    pub fn from_chars(chars: &Vec<char>) -> (t: Text)
        ensures
            t@ == split_lines(chars@),
            join_lines(t@) == chars@,
            t.wf(),
    {
        let mut lines: Vec<Vec<char>> = Vec::new();
        let mut line: Vec<char> = Vec::new();
        let mut i: usize = 0;
        assert(chars@.subrange(0, 0) =~= Seq::<char>::empty());
        assert(lines_view(lines@).push(line@) =~~= seq![Seq::<char>::empty()]);
        while i < chars.len()
            invariant
                i <= chars@.len(),
                lines_view(lines@).push(line@) == split_lines(chars@.subrange(0, i as int)),
            decreases chars@.len() - i,
        {
            let c = chars[i];
            proof {
                let now = chars@.subrange(0, i + 1);
                assert(now.drop_last() =~= chars@.subrange(0, i as int));
                assert(now.last() == c);
                assert(lines_view(lines@).push(line@).drop_last() =~= lines_view(lines@));
                lemma_lines_view_push(lines@, line);
            }
            if c == '\n' {
                lines.push(line);
                line = Vec::new();
            } else {
                line.push(c);
            }
            i += 1;
        }
        proof {
            assert(chars@.subrange(0, i as int) =~= chars@);
            lemma_lines_view_push(lines@, line);
            lemma_split_well_formed(chars@);
            lemma_join_split(chars@);
        }
        lines.push(line);
        Text { lines }
    }

    /// The lines of a string.
    pub fn from_str(s: &str) -> (t: Text)
        ensures
            t@ == split_lines(s@),
            join_lines(t@) == s@,
            t.wf(),
    {
        let chars = chars_of(s);
        Text::from_chars(&chars)
    }

    /// The text as one character sequence, with a line break between each
    /// two neighbouring lines.
    pub fn to_chars(&self) -> (chars: Vec<char>)
        requires
            self.wf(),
        ensures
            chars@ == join_lines(self@),
            split_lines(chars@) == self@,
    {
        proof {
            lemma_split_join(self@);
        }
        let mut out: Vec<char> = copy_range(&self.lines[0], 0, self.lines[0].len());
        let mut i: usize = 1;
        proof {
            assert(self@.subrange(0, 1) =~= seq![self@[0]]);
            assert(out@ =~= self@[0]);
        }
        while i < self.lines.len()
            invariant
                1 <= i <= self.lines@.len(),
                out@ == join_lines(self@.subrange(0, i as int)),
            decreases self.lines@.len() - i,
        {
            proof {
                let now = self@.subrange(0, i + 1);
                assert(now.drop_last() =~= self@.subrange(0, i as int));
                assert(now.last() == self.lines@[i as int]@);
            }
            out.push('\n');
            let n = self.lines[i].len();
            append_range(&mut out, &self.lines[i], 0, n);
            assert(self.lines@[i as int]@.subrange(0, n as int) =~= self.lines@[i as int]@);
            i += 1;
        }
        assert(self@.subrange(0, i as int) =~= self@);
        out
    }

    pub fn line_count(&self) -> (n: usize)
        ensures
            n == self@.len(),
    {
        self.lines.len()
    }

    /// The characters of line `i`.
    pub fn line(&self, i: usize) -> (line: &Vec<char>)
        requires
            i < self@.len(),
        ensures
            line@ == self@[i as int],
    {
        &self.lines[i]
    }

    /// Puts `other` behind this text: its first line goes on this text's
    /// last line.
    pub fn append(&mut self, other: &Text)
        requires
            old(self).wf(),
            other.wf(),
        ensures
            final(self)@ == concat_text(old(self)@, other@),
            final(self).wf(),
    {
        let ghost before = self@;
        let mut last = self.lines.pop().unwrap();
        assert(last@ == before.last());
        let first = other.line(0);
        append_range(&mut last, first, 0, first.len());
        assert(first@.subrange(0, first@.len() as int) =~= first@);
        proof {
            lemma_lines_view_push(self.lines@, last);
            assert(lines_view(self.lines@) =~= before.drop_last());
        }
        self.lines.push(last);
        let mut k: usize = 1;
        assert(other@.subrange(1, 1) =~= Seq::<Seq<char>>::empty());
        assert(lines_view(self.lines@) =~= before.drop_last() + seq![before.last() + other@[0]]
            + other@.subrange(1, 1));
        while k < other.line_count()
            invariant
                1 <= k <= other@.len(),
                before.len() >= 1,
                lines_view(self.lines@) == before.drop_last() + seq![before.last() + other@[0]]
                    + other@.subrange(1, k as int),
            decreases other@.len() - k,
        {
            let src = other.line(k);
            let line = copy_range(src, 0, src.len());
            proof {
                assert(src@.subrange(0, src@.len() as int) =~= src@);
                lemma_lines_view_push(self.lines@, line);
                assert((before.drop_last() + seq![before.last() + other@[0]] + other@.subrange(
                    1,
                    k as int,
                )).push(line@) =~= before.drop_last() + seq![before.last() + other@[0]]
                    + other@.subrange(1, k + 1));
            }
            self.lines.push(line);
            k += 1;
        }
        proof {
            lemma_concat_well_formed(before, other@);
        }
    }

    /// The lines, given up by the text.
    pub fn into_lines(self) -> (lines: Vec<Vec<char>>)
        ensures
            lines_view(lines@) == self@,
    {
        self.lines
    }
}

} // verus!
