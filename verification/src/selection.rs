//! Selections, and the ordered set of them that a session keeps: sorted by
//! start, with any two that overlap or touch merged into one.

use vstd::prelude::*;
use crate::position::{Position, Range, spec_min, spec_max};
use crate::buffer::EditError;
use crate::remap::{remap, remap_fits, remap_position, lemma_remap_monotone};

verus! {

/// A selection: the anchor, where it was begun, and the head, where the
/// caret is. With both at one place it is a plain cursor. It remembers
/// the column that moves up and down aim for, from the first such move
/// until another change.
#[derive(Clone, Copy, Debug, PartialEq, Eq, Structural, Hash)]
pub struct Selection {
    pub anchor: Position,
    pub head: Position,
    pub column: Option<usize>,
}

impl Selection {
    /// The earlier of anchor and head.
    pub open spec fn start(self) -> Position {
        spec_min(self.anchor, self.head)
    }

    /// The later of anchor and head.
    pub open spec fn end(self) -> Position {
        spec_max(self.anchor, self.head)
    }

    /// Whether the head is not before the anchor.
    pub open spec fn forward(self) -> bool {
        self.anchor.spec_le(self.head)
    }

    pub open spec fn valid_in(self, lines: Seq<Seq<char>>) -> bool {
        self.anchor.valid_in(lines) && self.head.valid_in(lines)
    }

    /// Whether `later`, which does not start before `self`, overlaps or
    /// touches it.
    pub open spec fn meets(self, later: Selection) -> bool {
        later.start().spec_le(self.end())
    }

    /// The union of two selections, directed as the second one is.
    pub open spec fn union_with(self, later: Selection) -> Selection {
        let start = spec_min(self.start(), later.start());
        let end = spec_max(self.end(), later.end());
        if later.forward() {
            Selection { anchor: start, head: end, column: later.column }
        } else {
            Selection { anchor: end, head: start, column: later.column }
        }
    }

    /// The selection with both ends moved across an edit. It aims for no
    /// column any more.
    pub open spec fn remapped(self, range: Range, end: Position) -> Selection {
        Selection {
            anchor: remap(self.anchor, range, end),
            head: remap(self.head, range, end),
            column: None,
        }
    }

    pub open spec fn remap_fits(self, range: Range, end: Position) -> bool {
        remap_fits(self.anchor, range, end) && remap_fits(self.head, range, end)
    }

    pub fn new(anchor: Position, head: Position) -> (s: Selection)
        ensures
            s == (Selection { anchor, head, column: None }),
    {
        Selection { anchor, head, column: None }
    }

    /// The plain cursor at `p`.
    pub fn cursor(p: Position) -> (s: Selection)
        ensures
            s == (Selection { anchor: p, head: p, column: None }),
    {
        Selection { anchor: p, head: p, column: None }
    }

    pub fn is_cursor(&self) -> (b: bool)
        ensures
            b == (self.anchor == self.head),
    {
        self.anchor == self.head
    }

    pub fn first(&self) -> (p: Position)
        ensures
            p == self.start(),
    {
        self.anchor.earlier(self.head)
    }

    pub fn last(&self) -> (p: Position)
        ensures
            p == self.end(),
    {
        self.anchor.later(self.head)
    }

    /// The range that the selection covers.
    pub fn range(&self) -> (r: Range)
        ensures
            r.start == self.start(),
            r.end == self.end(),
            r.ordered(),
    {
        Range { start: self.first(), end: self.last() }
    }

    pub fn is_forward(&self) -> (b: bool)
        ensures
            b == self.forward(),
    {
        self.anchor.is_at_or_before(&self.head)
    }

    /// The union of this selection and `later`, directed as `later` is.
    pub fn merge(&self, later: &Selection) -> (m: Selection)
        ensures
            m == self.union_with(*later),
    {
        let start = self.first().earlier(later.first());
        let end = self.last().later(later.last());
        if later.is_forward() {
            Selection { anchor: start, head: end, column: later.column }
        } else {
            Selection { anchor: end, head: start, column: later.column }
        }
    }
}

/// Every selection ends before the next one starts.
pub open spec fn separated(s: Seq<Selection>) -> bool {
    forall|i: int, j: int| 0 <= i < j < s.len() ==> (#[trigger] s[i]).end().spec_lt((#[trigger] s[j]).start())
}

/// No selection starts before one that precedes it.
pub open spec fn sorted_by_start(s: Seq<Selection>) -> bool {
    forall|i: int, j: int|
        0 <= i < j < s.len() ==> (#[trigger] s[i]).start().spec_le((#[trigger] s[j]).start())
}

pub open spec fn all_valid_in(s: Seq<Selection>, lines: Seq<Seq<char>>) -> bool {
    forall|i: int| 0 <= i < s.len() ==> (#[trigger] s[i]).valid_in(lines)
}

/// The merged selections with one more taken in: it is joined to the last
/// one if it meets it, and follows it otherwise.
pub open spec fn absorb(merged: Seq<Selection>, x: Selection) -> Seq<Selection> {
    if merged.len() > 0 && merged.last().meets(x) {
        merged.drop_last().push(merged.last().union_with(x))
    } else {
        merged.push(x)
    }
}

/// One pass over selections sorted by start that joins each to its
/// predecessor where the two overlap or touch.
pub open spec fn merge_pass(s: Seq<Selection>) -> Seq<Selection>
    decreases s.len(),
{
    if s.len() == 0 {
        s
    } else {
        absorb(merge_pass(s.drop_last()), s.last())
    }
}

/// The sorted selections with `x` put behind the last one that does not
/// start after it.
pub open spec fn place(s: Seq<Selection>, x: Selection) -> Seq<Selection>
    decreases s.len(),
{
    if s.len() == 0 || s.last().start().spec_le(x.start()) {
        s.push(x)
    } else {
        place(s.drop_last(), x).push(s.last())
    }
}

/// The selections sorted by start; of two with one start, the one that
/// came first stays first.
pub open spec fn sort_by_start(s: Seq<Selection>) -> Seq<Selection>
    decreases s.len(),
{
    if s.len() == 0 {
        s
    } else {
        place(sort_by_start(s.drop_last()), s.last())
    }
}

/// The selections sorted by start and merged.
pub open spec fn normalize(s: Seq<Selection>) -> Seq<Selection> {
    merge_pass(sort_by_start(s))
}

/// Each selection moved across an edit.
pub open spec fn remap_all(s: Seq<Selection>, range: Range, end: Position) -> Seq<Selection> {
    Seq::new(s.len(), |i: int| s[i].remapped(range, end))
}

pub open spec fn all_remap_fit(s: Seq<Selection>, range: Range, end: Position) -> bool {
    forall|i: int| 0 <= i < s.len() ==> (#[trigger] s[i]).remap_fits(range, end)
}

pub proof fn lemma_place_shape(s: Seq<Selection>, x: Selection, k: int)
    requires
        0 <= k <= s.len(),
        k == 0 || s[k - 1].start().spec_le(x.start()),
        forall|i: int| k <= i < s.len() ==> !(#[trigger] s[i]).start().spec_le(x.start()),
    ensures
        place(s, x) == s.subrange(0, k).push(x) + s.subrange(k, s.len() as int),
        place(s, x) == s.insert(k, x),
    decreases s.len() - k,
{
    if k == s.len() {
        assert(s.subrange(0, k).push(x) + s.subrange(k, s.len() as int) =~= s.push(x));
    } else {
        let front = s.drop_last();
        assert(!s[s.len() - 1].start().spec_le(x.start()));
        lemma_place_shape(front, x, k);
        assert(front.subrange(0, k) =~= s.subrange(0, k));
        assert((front.subrange(0, k).push(x) + front.subrange(k, front.len() as int)).push(
            s.last(),
        ) =~= s.subrange(0, k).push(x) + s.subrange(k, s.len() as int));
    }
    assert(s.insert(k, x) =~= s.subrange(0, k).push(x) + s.subrange(k, s.len() as int));
}

/// Placing a selection among sorted ones keeps them sorted, and loses and
/// adds nothing else.
pub proof fn lemma_place_sorted(s: Seq<Selection>, x: Selection)
    requires
        sorted_by_start(s),
    ensures
        sorted_by_start(place(s, x)),
        place(s, x).len() == s.len() + 1,
        forall|i: int|
            0 <= i < place(s, x).len() ==> (#[trigger] place(s, x)[i]) == x || s.contains(
                place(s, x)[i],
            ),
    decreases s.len(),
{
    if s.len() == 0 || s.last().start().spec_le(x.start()) {
        let out = s.push(x);
        assert forall|i: int| 0 <= i < out.len() implies (#[trigger] out[i]) == x || s.contains(
            out[i],
        ) by {
            if i < s.len() {
                assert(s[i] == out[i]);
            }
        }
        assert forall|i: int, j: int| 0 <= i < j < out.len() implies (#[trigger] out[i]).start().spec_le(
            (#[trigger] out[j]).start(),
        ) by {
            if j == s.len() {
                assert(s[i].start().spec_le(s.last().start()) || i == s.len() - 1);
            }
        }
    } else {
        let front = s.drop_last();
        assert(sorted_by_start(front)) by {
            assert forall|i: int, j: int| 0 <= i < j < front.len() implies (#[trigger] front[i]).start().spec_le(
                (#[trigger] front[j]).start(),
            ) by {
                assert(front[i] == s[i] && front[j] == s[j]);
            }
        }
        lemma_place_sorted(front, x);
        let inner = place(front, x);
        let out = inner.push(s.last());
        assert forall|i: int| 0 <= i < out.len() implies (#[trigger] out[i]) == x || s.contains(
            out[i],
        ) by {
            if i < inner.len() {
                assert(out[i] == inner[i]);
                if inner[i] != x {
                    assert(front.contains(inner[i]));
                    let k = choose|k: int| 0 <= k < front.len() && front[k] == inner[i];
                    assert(s[k] == inner[i]);
                }
            } else {
                assert(s[s.len() - 1] == out[i]);
            }
        }
        assert forall|i: int, j: int| 0 <= i < j < out.len() implies (#[trigger] out[i]).start().spec_le(
            (#[trigger] out[j]).start(),
        ) by {
            if j == inner.len() {
                assert(out[i] == inner[i]);
                if inner[i] != x {
                    assert(front.contains(inner[i]));
                    let k = choose|k: int| 0 <= k < front.len() && front[k] == inner[i];
                    assert(s[k].start().spec_le(s[s.len() - 1].start()));
                }
            } else {
                assert(out[i] == inner[i] && out[j] == inner[j]);
            }
        }
    }
}

/// Sorting gives a sorted sequence of the same length.
pub proof fn lemma_sort_sorted(s: Seq<Selection>)
    ensures
        sorted_by_start(sort_by_start(s)),
        sort_by_start(s).len() == s.len(),
        forall|i: int|
            0 <= i < s.len() ==> s.contains(#[trigger] sort_by_start(s)[i]),
    decreases s.len(),
{
    if s.len() > 0 {
        let front = s.drop_last();
        lemma_sort_sorted(front);
        lemma_place_sorted(sort_by_start(front), s.last());
        let out = sort_by_start(s);
        assert forall|i: int| 0 <= i < s.len() implies s.contains(#[trigger] out[i]) by {
            if out[i] == s.last() {
                assert(s[s.len() - 1] == out[i]);
            } else {
                assert(sort_by_start(front).contains(out[i]));
                let k = choose|k: int|
                    0 <= k < front.len() && sort_by_start(front)[k] == out[i];
                assert(front.contains(sort_by_start(front)[k]));
                let m = choose|m: int| 0 <= m < front.len() && front[m] == out[i];
                assert(s[m] == out[i]);
            }
        }
    }
}

/// Selections that are separated are sorted by start.
pub proof fn lemma_separated_sorted(s: Seq<Selection>)
    requires
        separated(s),
    ensures
        sorted_by_start(s),
{
    assert forall|i: int, j: int| 0 <= i < j < s.len() implies (#[trigger] s[i]).start().spec_le(
        (#[trigger] s[j]).start(),
    ) by {
        assert(s[i].end().spec_lt(s[j].start()));
    }
}

/// The merge pass over sorted selections gives separated ones: sorted, and
/// no two of them overlap or touch.
pub proof fn lemma_merge_pass_separated(s: Seq<Selection>)
    requires
        sorted_by_start(s),
    ensures
        separated(merge_pass(s)),
        merge_pass(s).len() <= s.len(),
        s.len() > 0 ==> merge_pass(s).len() > 0 && merge_pass(s).last().start().spec_le(
            s.last().start(),
        ),
    decreases s.len(),
{
    if s.len() > 0 {
        let front = s.drop_last();
        let x = s.last();
        assert(sorted_by_start(front)) by {
            assert forall|i: int, j: int| 0 <= i < j < front.len() implies (#[trigger] front[i]).start().spec_le(
                (#[trigger] front[j]).start(),
            ) by {
                assert(front[i] == s[i] && front[j] == s[j]);
            }
        }
        lemma_merge_pass_separated(front);
        let acc = merge_pass(front);
        let out = absorb(acc, x);
        if acc.len() > 0 {
            assert(front[front.len() - 1] == s[s.len() - 2]);
            assert(s[s.len() - 2].start().spec_le(s[s.len() - 1].start()));
            assert(acc.last().start().spec_le(x.start()));
        }
        assert forall|i: int, j: int| 0 <= i < j < out.len() implies (#[trigger] out[i]).end().spec_lt(
            (#[trigger] out[j]).start(),
        ) by {
            if j < out.len() - 1 {
                assert(out[i] == acc[i] && out[j] == acc[j]);
            } else if acc.len() > 0 && acc.last().meets(x) {
                assert(out[i] == acc[i]);
                assert(acc[i].end().spec_lt(acc[acc.len() - 1].start()));
            } else {
                assert(out[i] == acc[i]);
                if i < acc.len() - 1 {
                    assert(acc[i].end().spec_lt(acc[acc.len() - 1].start()));
                }
            }
        }
    }
}

/// A merge pass over separated selections changes nothing.
pub proof fn lemma_merge_pass_separated_same(s: Seq<Selection>)
    requires
        separated(s),
    ensures
        merge_pass(s) == s,
    decreases s.len(),
{
    if s.len() > 0 {
        let front = s.drop_last();
        assert(separated(front)) by {
            assert forall|i: int, j: int| 0 <= i < j < front.len() implies (#[trigger] front[i]).end().spec_lt(
                (#[trigger] front[j]).start(),
            ) by {
                assert(front[i] == s[i] && front[j] == s[j]);
            }
        }
        lemma_merge_pass_separated_same(front);
        if front.len() > 0 {
            assert(front.last() == s[s.len() - 2]);
            assert(s[s.len() - 2].end().spec_lt(s[s.len() - 1].start()));
        }
        assert(front.push(s.last()) =~= s);
    }
}

/// Sorting sorted selections changes nothing.
pub proof fn lemma_sort_sorted_same(s: Seq<Selection>)
    requires
        sorted_by_start(s),
    ensures
        sort_by_start(s) == s,
    decreases s.len(),
{
    if s.len() > 0 {
        let front = s.drop_last();
        assert(sorted_by_start(front)) by {
            assert forall|i: int, j: int| 0 <= i < j < front.len() implies (#[trigger] front[i]).start().spec_le(
                (#[trigger] front[j]).start(),
            ) by {
                assert(front[i] == s[i] && front[j] == s[j]);
            }
        }
        lemma_sort_sorted_same(front);
        if front.len() > 0 {
            assert(front.last() == s[s.len() - 2]);
            assert(s[s.len() - 2].start().spec_le(s[s.len() - 1].start()));
        }
        assert(front.push(s.last()) =~= s);
    }
}

/// Sorting and merging selections of which no two overlap or touch
/// changes nothing.
pub proof fn lemma_normalize_separated_same(s: Seq<Selection>)
    requires
        separated(s),
    ensures
        normalize(s) == s,
{
    lemma_separated_sorted(s);
    lemma_sort_sorted_same(s);
    lemma_merge_pass_separated_same(s);
}

/// The merge pass keeps every end of a selection at an end that some
/// selection had before it.
pub proof fn lemma_merge_pass_valid(s: Seq<Selection>, lines: Seq<Seq<char>>)
    requires
        all_valid_in(s, lines),
    ensures
        all_valid_in(merge_pass(s), lines),
    decreases s.len(),
{
    if s.len() > 0 {
        let front = s.drop_last();
        assert(all_valid_in(front, lines)) by {
            assert forall|i: int| 0 <= i < front.len() implies (#[trigger] front[i]).valid_in(
                lines,
            ) by {
                assert(front[i] == s[i]);
            }
        }
        lemma_merge_pass_valid(front, lines);
        let acc = merge_pass(front);
        let out = absorb(acc, s.last());
        assert(s[s.len() - 1].valid_in(lines));
        assert forall|i: int| 0 <= i < out.len() implies (#[trigger] out[i]).valid_in(lines) by {
            if i < out.len() - 1 {
                assert(out[i] == acc[i]);
            } else if acc.len() > 0 && acc.last().meets(s.last()) {
                assert(acc[acc.len() - 1].valid_in(lines));
            }
        }
    }
}

/// Remapping sorted selections across an edit keeps them sorted.
pub proof fn lemma_remap_all_sorted(s: Seq<Selection>, range: Range, end: Position)
    requires
        sorted_by_start(s),
        range.ordered(),
        range.start.spec_le(end),
        all_remap_fit(s, range, end),
    ensures
        sorted_by_start(remap_all(s, range, end)),
{
    let out = remap_all(s, range, end);
    assert forall|i: int, j: int| 0 <= i < j < out.len() implies (#[trigger] out[i]).start().spec_le(
        (#[trigger] out[j]).start(),
    ) by {
        assert(s[i].start().spec_le(s[j].start()));
        assert(s[i].remap_fits(range, end) && s[j].remap_fits(range, end));
        lemma_remap_start(s[i], range, end);
        lemma_remap_start(s[j], range, end);
        lemma_remap_monotone(s[i].start(), s[j].start(), range, end);
    }
}

/// The start of a remapped selection is its remapped start, and likewise
/// its end.
pub proof fn lemma_remap_start(x: Selection, range: Range, end: Position)
    requires
        range.ordered(),
        range.start.spec_le(end),
        x.remap_fits(range, end),
    ensures
        x.remapped(range, end).start() == remap(x.start(), range, end),
        x.remapped(range, end).end() == remap(x.end(), range, end),
        remap_fits(x.start(), range, end),
        remap_fits(x.end(), range, end),
{
    lemma_remap_monotone(x.start(), x.end(), range, end);
}

/// Joins each of the given selections to its predecessor where the two
/// overlap or touch.
pub fn merge_sorted(input: &Vec<Selection>) -> (out: Vec<Selection>)
    ensures
        out@ == merge_pass(input@),
{
    let mut out: Vec<Selection> = Vec::new();
    let mut i: usize = 0;
    assert(input@.subrange(0, 0) =~= Seq::<Selection>::empty());
    while i < input.len()
        invariant
            i <= input@.len(),
            out@ == merge_pass(input@.subrange(0, i as int)),
        decreases input@.len() - i,
    {
        let x = input[i];
        proof {
            let now = input@.subrange(0, i + 1);
            assert(now.drop_last() =~= input@.subrange(0, i as int));
            assert(now.last() == x);
        }
        let n = out.len();
        if n > 0 && x.first().is_at_or_before(&out[n - 1].last()) {
            let joined = out[n - 1].merge(&x);
            let ghost was = out@;
            out.pop();
            out.push(joined);
            assert(out@ =~= was.drop_last().push(was.last().union_with(x)));
        } else {
            out.push(x);
        }
        i += 1;
    }
    assert(input@.subrange(0, i as int) =~= input@);
    out
}

/// Puts `x` among selections sorted by start, behind the last one that
/// does not start after it.
pub fn place_sorted(sels: &mut Vec<Selection>, x: Selection)
    ensures
        final(sels)@ == place(old(sels)@, x),
{
    let mut k: usize = sels.len();
    while k > 0 && !sels[k - 1].first().is_at_or_before(&x.first())
        invariant
            k <= sels@.len(),
            sels@ == old(sels)@,
            forall|i: int| k <= i < sels@.len() ==> !(#[trigger] sels@[i]).start().spec_le(x.start()),
        decreases k,
    {
        k -= 1;
    }
    proof {
        lemma_place_shape(sels@, x, k as int);
    }
    sels.insert(k, x);
}

/// The selections of one view of a document: sorted by start, and no two
/// of them overlap or touch.
#[derive(Debug, PartialEq, Eq)]
pub struct SelectionSet {
    sels: Vec<Selection>,
}

impl View for SelectionSet {
    type V = Seq<Selection>;

    closed spec fn view(&self) -> Seq<Selection> {
        self.sels@
    }
}

impl Clone for SelectionSet {
    fn clone(&self) -> (c: SelectionSet)
        ensures
            c@ == self@,
    {
        SelectionSet { sels: copy_selections(&self.sels) }
    }
}

/// A copy of a vector of selections.
pub fn copy_selections(v: &Vec<Selection>) -> (out: Vec<Selection>)
    ensures
        out@ == v@,
{
    let mut out: Vec<Selection> = Vec::new();
    let mut i: usize = 0;
    while i < v.len()
        invariant
            i <= v@.len(),
            out@ == v@.subrange(0, i as int),
        decreases v@.len() - i,
    {
        out.push(v[i]);
        i += 1;
        assert(out@ =~= v@.subrange(0, i as int));
    }
    assert(out@ =~= v@);
    out
}

impl SelectionSet {
    /// Whether the selections are sorted and no two overlap or touch.
    pub open spec fn wf(&self) -> bool {
        separated(self@)
    }

    /// Whether every selection lies in `lines`.
    pub open spec fn valid_in(&self, lines: Seq<Seq<char>>) -> bool {
        all_valid_in(self@, lines)
    }

    /// The set of one cursor at the start of the text.
    pub fn new() -> (s: SelectionSet)
        ensures
            s@ == seq![
                Selection {
                    anchor: Position { line: 0, offset: 0 },
                    head: Position { line: 0, offset: 0 },
                    column: None,
                },
            ],
            s.wf(),
    {
        let mut sels: Vec<Selection> = Vec::new();
        sels.push(Selection::cursor(Position::zero()));
        SelectionSet { sels }
    }

    /// The set of the given selections, sorted and merged.
    pub fn from_selections(input: &Vec<Selection>) -> (s: SelectionSet)
        ensures
            s@ == normalize(input@),
            s.wf(),
    {
        let mut sorted: Vec<Selection> = Vec::new();
        let mut i: usize = 0;
        assert(input@.subrange(0, 0) =~= Seq::<Selection>::empty());
        while i < input.len()
            invariant
                i <= input@.len(),
                sorted@ == sort_by_start(input@.subrange(0, i as int)),
            decreases input@.len() - i,
        {
            proof {
                let now = input@.subrange(0, i + 1);
                assert(now.drop_last() =~= input@.subrange(0, i as int));
                assert(now.last() == input@[i as int]);
            }
            place_sorted(&mut sorted, input[i]);
            i += 1;
        }
        proof {
            assert(input@.subrange(0, i as int) =~= input@);
            lemma_sort_sorted(input@);
            lemma_merge_pass_separated(sorted@);
        }
        SelectionSet { sels: merge_sorted(&sorted) }
    }

    pub fn len(&self) -> (n: usize)
        ensures
            n == self@.len(),
    {
        self.sels.len()
    }

    /// The selection at index `i`, if there is one.
    pub fn get(&self, i: usize) -> (s: Option<Selection>)
        ensures
            i < self@.len() ==> s == Some(self@[i as int]),
            i >= self@.len() ==> s is None,
    {
        if i < self.sels.len() {
            Some(self.sels[i])
        } else {
            None
        }
    }

    /// The selections, in order.
    pub fn to_vec(&self) -> (v: Vec<Selection>)
        ensures
            v@ == self@,
    {
        copy_selections(&self.sels)
    }

    /// Adds a selection. It is joined with every selection that it
    /// overlaps or touches.
    pub fn add(&mut self, x: Selection)
        requires
            old(self).wf(),
        ensures
            final(self)@ == merge_pass(place(old(self)@, x)),
            final(self).wf(),
    {
        proof {
            lemma_separated_sorted(self@);
            lemma_place_sorted(self@, x);
            lemma_merge_pass_separated(place(self@, x));
        }
        place_sorted(&mut self.sels, x);
        self.sels = merge_sorted(&self.sels);
    }

    /// Replaces all selections by one.
    pub fn clear_to(&mut self, x: Selection)
        ensures
            final(self)@ == seq![x],
            final(self).wf(),
    {
        let mut sels: Vec<Selection> = Vec::new();
        sels.push(x);
        self.sels = sels;
    }

    /// Replaces all selections by the given ones, sorted and merged.
    pub fn set_all(&mut self, input: &Vec<Selection>)
        ensures
            final(self)@ == normalize(input@),
            final(self).wf(),
    {
        let fresh = SelectionSet::from_selections(input);
        self.sels = fresh.sels;
    }

    /// Moves every selection across an edit that replaced `range` by a
    /// text that now ends at `end`, then merges those that have come to
    /// overlap or touch. Where a moved position cannot be represented,
    /// nothing changes.
    pub fn remap_across_edit(&mut self, range: Range, end: Position) -> (res: Result<
        (),
        EditError,
    >)
        requires
            old(self).wf(),
            range.ordered(),
            range.start.spec_le(end),
        ensures
            final(self).wf(),
            res is Ok <==> all_remap_fit(old(self)@, range, end),
            res is Ok ==> final(self)@ == merge_pass(remap_all(old(self)@, range, end)),
            res is Err ==> final(self)@ == old(self)@,
    {
        let mut moved: Vec<Selection> = Vec::new();
        let mut i: usize = 0;
        while i < self.sels.len()
            invariant
                i <= self.sels@.len(),
                self.sels@ == old(self).sels@,
                self.wf(),
                range.ordered(),
                moved@.len() == i,
                forall|k: int| 0 <= k < i ==> (#[trigger] self.sels@[k]).remap_fits(range, end),
                forall|k: int|
                    0 <= k < i ==> (#[trigger] moved@[k]) == self.sels@[k].remapped(range, end),
            decreases self.sels@.len() - i,
        {
            let x = self.sels[i];
            let anchor = remap_position(x.anchor, range, end);
            let head = remap_position(x.head, range, end);
            match (anchor, head) {
                (Some(anchor), Some(head)) => {
                    moved.push(Selection { anchor, head, column: None });
                },
                _ => {
                    assert(!self.sels@[i as int].remap_fits(range, end));
                    return Err(EditError::OutOfBounds);
                },
            }
            i += 1;
        }
        proof {
            assert(moved@ =~= remap_all(self@, range, end));
            lemma_separated_sorted(self@);
            lemma_remap_all_sorted(self@, range, end);
            lemma_merge_pass_separated(moved@);
        }
        self.sels = merge_sorted(&moved);
        Ok(())
    }
}

} // verus!
