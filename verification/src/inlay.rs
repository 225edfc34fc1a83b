//! Inlays: content that is shown in the text without being part of it,
//! each anchored at a position.

use vstd::prelude::*;
use crate::position::{Position, Range};
use crate::buffer::EditError;
use crate::remap::{remap, remap_fits, remap_position, lemma_remap_monotone};

verus! {

/// How an inlay is laid out.
#[derive(Clone, Copy, Debug, PartialEq, Eq, Structural, Hash)]
pub enum InlayKind {
    /// The inlay has rows of its own: the row breaks before and after it.
    Block,
    /// The inlay sits in the row, where its anchor is.
    Inline,
}

/// What an inlay shows.
#[derive(Clone, Copy, Debug, PartialEq, Eq, Structural, Hash)]
pub enum InlayContent {
    /// Stands for a folded region.
    FoldPlaceholder,
    /// A message about the text at the anchor.
    Diagnostic,
    /// A widget, by the number under which its owner keeps it.
    Widget(u64),
}

/// An inlay: where it is anchored, what it shows, how many columns it
/// takes, and how it is laid out.
#[derive(Clone, Copy, Debug, PartialEq, Eq, Structural, Hash)]
pub struct Inlay {
    pub id: u64,
    pub anchor: Position,
    pub kind: InlayKind,
    pub content: InlayContent,
    pub width: usize,
}

impl Inlay {
    /// The inlay with its anchor moved across an edit.
    pub open spec fn remapped(self, range: Range, end: Position) -> Inlay {
        Inlay { anchor: remap(self.anchor, range, end), ..self }
    }
}

/// An inlay as the layout of its line sees it: by the offset of its anchor
/// in the line.
#[derive(Clone, Copy, Debug, PartialEq, Eq, Structural, Hash)]
pub struct Inset {
    pub offset: usize,
    pub width: usize,
    pub kind: InlayKind,
    pub id: u64,
}

impl Inlay {
    pub open spec fn inset(self) -> Inset {
        Inset { offset: self.anchor.offset, width: self.width, kind: self.kind, id: self.id }
    }

    /// The inlay as the layout of its line sees it.
    pub fn to_inset(&self) -> (x: Inset)
        ensures
            x == self.inset(),
    {
        Inset { offset: self.anchor.offset, width: self.width, kind: self.kind, id: self.id }
    }
}

/// The inlays anchored in line `line`, as the layout of that line sees
/// them, in their order.
pub open spec fn insets_on_line(s: Seq<Inlay>, line: int) -> Seq<Inset>
    decreases s.len(),
{
    if s.len() == 0 {
        Seq::<Inset>::empty()
    } else if s.last().anchor.line == line {
        insets_on_line(s.drop_last(), line).push(s.last().inset())
    } else {
        insets_on_line(s.drop_last(), line)
    }
}

/// Whether `p` lies strictly inside `range`.
pub open spec fn strictly_inside(p: Position, range: Range) -> bool {
    range.start.spec_lt(p) && p.spec_lt(range.end)
}

/// No inlay is anchored before one that precedes it.
pub open spec fn sorted_by_anchor(s: Seq<Inlay>) -> bool {
    forall|i: int, j: int|
        0 <= i < j < s.len() ==> (#[trigger] s[i]).anchor.spec_le((#[trigger] s[j]).anchor)
}

/// Every inlay's number is below `next`.
pub open spec fn ids_below(s: Seq<Inlay>, next: u64) -> bool {
    forall|i: int| 0 <= i < s.len() ==> (#[trigger] s[i]).id < next
}

pub open spec fn anchors_valid_in(s: Seq<Inlay>, lines: Seq<Seq<char>>) -> bool {
    forall|i: int| 0 <= i < s.len() ==> (#[trigger] s[i]).anchor.valid_in(lines)
}

/// The inlays that are anchored in line `line`, in their order.
pub open spec fn on_line(s: Seq<Inlay>, line: usize) -> Seq<Inlay>
    decreases s.len(),
{
    if s.len() == 0 {
        s
    } else if s.last().anchor.line == line {
        on_line(s.drop_last(), line).push(s.last())
    } else {
        on_line(s.drop_last(), line)
    }
}

/// The inlays but those with the number `id`, in their order.
pub open spec fn without_id(s: Seq<Inlay>, id: u64) -> Seq<Inlay>
    decreases s.len(),
{
    if s.len() == 0 {
        s
    } else if s.last().id == id {
        without_id(s.drop_last(), id)
    } else {
        without_id(s.drop_last(), id).push(s.last())
    }
}

pub open spec fn has_id(s: Seq<Inlay>, id: u64) -> bool {
    exists|i: int| 0 <= i < s.len() && (#[trigger] s[i]).id == id
}

/// The inlays after an edit: those anchored strictly inside the replaced
/// range are gone, the others have their anchors moved.
pub open spec fn across_edit(s: Seq<Inlay>, range: Range, end: Position) -> Seq<Inlay>
    decreases s.len(),
{
    if s.len() == 0 {
        s
    } else if strictly_inside(s.last().anchor, range) {
        across_edit(s.drop_last(), range, end)
    } else {
        across_edit(s.drop_last(), range, end).push(s.last().remapped(range, end))
    }
}

/// Whether the anchor of every inlay that stays can be represented after
/// the edit.
pub open spec fn anchors_fit(s: Seq<Inlay>, range: Range, end: Position) -> bool {
    forall|i: int|
        0 <= i < s.len() && !strictly_inside((#[trigger] s[i]).anchor, range) ==> remap_fits(
            s[i].anchor,
            range,
            end,
        )
}

/// The sorted inlays with `x` put behind the last one that is not
/// anchored after it.
pub open spec fn place_inlay(s: Seq<Inlay>, x: Inlay) -> Seq<Inlay>
    decreases s.len(),
{
    if s.len() == 0 || s.last().anchor.spec_le(x.anchor) {
        s.push(x)
    } else {
        place_inlay(s.drop_last(), x).push(s.last())
    }
}

pub proof fn lemma_place_inlay_shape(s: Seq<Inlay>, x: Inlay, k: int)
    requires
        0 <= k <= s.len(),
        k == 0 || s[k - 1].anchor.spec_le(x.anchor),
        forall|i: int| k <= i < s.len() ==> !(#[trigger] s[i]).anchor.spec_le(x.anchor),
    ensures
        place_inlay(s, x) == s.insert(k, x),
    decreases s.len() - k,
{
    if k == s.len() {
        assert(s.insert(k, x) =~= s.push(x));
    } else {
        let front = s.drop_last();
        assert(!s[s.len() - 1].anchor.spec_le(x.anchor));
        lemma_place_inlay_shape(front, x, k);
        assert(front.insert(k, x).push(s.last()) =~= s.insert(k, x));
    }
}

/// Every inlay that a pass over sorted inlays keeps was among them, in
/// the same order.
pub proof fn lemma_across_edit_props(s: Seq<Inlay>, range: Range, end: Position, next: u64)
    requires
        sorted_by_anchor(s),
        ids_below(s, next),
        range.ordered(),
        range.start.spec_le(end),
        anchors_fit(s, range, end),
    ensures
        sorted_by_anchor(across_edit(s, range, end)),
        ids_below(across_edit(s, range, end), next),
        across_edit(s, range, end).len() <= s.len(),
        forall|i: int|
            0 <= i < across_edit(s, range, end).len() ==> exists|k: int|
                0 <= k < s.len() && !strictly_inside(s[k].anchor, range) && (#[trigger] across_edit(
                    s,
                    range,
                    end,
                )[i]) == s[k].remapped(range, end),
    decreases s.len(),
{
    if s.len() > 0 {
        let front = s.drop_last();
        assert(sorted_by_anchor(front) && ids_below(front, next) && anchors_fit(front, range, end))
            by {
            assert forall|i: int, j: int| 0 <= i < j < front.len() implies (#[trigger] front[i]).anchor.spec_le(
                (#[trigger] front[j]).anchor,
            ) by {
                assert(front[i] == s[i] && front[j] == s[j]);
            }
            assert forall|i: int| 0 <= i < front.len() implies (#[trigger] front[i]).id < next by {
                assert(front[i] == s[i]);
            }
            assert forall|i: int|
                0 <= i < front.len() && !strictly_inside(
                    (#[trigger] front[i]).anchor,
                    range,
                ) implies remap_fits(front[i].anchor, range, end) by {
                assert(front[i] == s[i]);
            }
        }
        lemma_across_edit_props(front, range, end, next);
        let inner = across_edit(front, range, end);
        let out = across_edit(s, range, end);
        let x = s.last();
        assert(s[s.len() - 1] == x);
        assert forall|i: int| 0 <= i < out.len() implies exists|k: int|
            0 <= k < s.len() && !strictly_inside(s[k].anchor, range) && (#[trigger] out[i])
                == s[k].remapped(range, end) by {
            if i < inner.len() {
                assert(out[i] == inner[i]);
                let k = choose|k: int|
                    0 <= k < front.len() && !strictly_inside(front[k].anchor, range) && inner[i]
                        == front[k].remapped(range, end);
                assert(s[k] == front[k]);
            } else {
                assert(out[i] == s[s.len() - 1].remapped(range, end));
            }
        }
        if !strictly_inside(x.anchor, range) {
            assert forall|i: int, j: int| 0 <= i < j < out.len() implies (#[trigger] out[i]).anchor.spec_le(
                (#[trigger] out[j]).anchor,
            ) by {
                if j < inner.len() {
                    assert(out[i] == inner[i] && out[j] == inner[j]);
                } else {
                    assert(out[i] == inner[i]);
                    let k = choose|k: int|
                        0 <= k < front.len() && !strictly_inside(front[k].anchor, range)
                            && inner[i] == front[k].remapped(range, end);
                    assert(s[k] == front[k]);
                    assert(s[k].anchor.spec_le(s[s.len() - 1].anchor));
                    lemma_remap_monotone(s[k].anchor, x.anchor, range, end);
                }
            }
            assert forall|i: int| 0 <= i < out.len() implies (#[trigger] out[i]).id < next by {
                if i < inner.len() {
                    assert(out[i] == inner[i]);
                }
            }
        }
    }
}

/// The inlays of a line that an edit did not touch are after the edit
/// what they were before it, seen from their line: of a line before the
/// edit those of the same line, of a line behind it those of the line
/// that has moved there.
pub proof fn lemma_insets_outside(s: Seq<Inlay>, range: Range, end: Position, i: int)
    requires
        range.ordered(),
        range.start.spec_le(end),
        anchors_fit(s, range, end),
    ensures
        0 <= i < range.start.line ==> insets_on_line(across_edit(s, range, end), i)
            == insets_on_line(s, i),
        i > end.line ==> insets_on_line(across_edit(s, range, end), i) == insets_on_line(
            s,
            i - end.line + range.end.line,
        ),
    decreases s.len(),
{
    if s.len() > 0 {
        let front = s.drop_last();
        let x = s.last();
        assert(anchors_fit(front, range, end)) by {
            assert forall|k: int|
                0 <= k < front.len() && !strictly_inside(
                    (#[trigger] front[k]).anchor,
                    range,
                ) implies remap_fits(front[k].anchor, range, end) by {
                assert(front[k] == s[k]);
            }
        }
        lemma_insets_outside(front, range, end, i);
        assert(s[s.len() - 1] == x);
        if !strictly_inside(x.anchor, range) {
            assert(remap_fits(x.anchor, range, end));
            let moved = x.remapped(range, end);
            assert(across_edit(s, range, end).last() == moved);
            assert(across_edit(s, range, end).drop_last() =~= across_edit(front, range, end));
        }
    }
}

/// The inlays of a document, in the order of their anchors.
#[derive(Debug)]
pub struct InlaySet {
    items: Vec<Inlay>,
    next_id: u64,
}

impl View for InlaySet {
    type V = Seq<Inlay>;

    closed spec fn view(&self) -> Seq<Inlay> {
        self.items@
    }
}

impl InlaySet {
    /// The number that the next inlay gets.
    pub closed spec fn next_id(&self) -> u64 {
        self.next_id
    }

    /// Whether the inlays are in the order of their anchors and each has
    /// a number that was given out.
    pub open spec fn wf(&self) -> bool {
        sorted_by_anchor(self@) && ids_below(self@, self.next_id())
    }

    pub open spec fn valid_in(&self, lines: Seq<Seq<char>>) -> bool {
        anchors_valid_in(self@, lines)
    }

    pub fn new() -> (s: InlaySet)
        ensures
            s@ == Seq::<Inlay>::empty(),
            s.next_id() == 0,
            s.wf(),
    {
        InlaySet { items: Vec::new(), next_id: 0 }
    }

    pub fn len(&self) -> (n: usize)
        ensures
            n == self@.len(),
    {
        self.items.len()
    }

    /// Anchors new content at `anchor` and gives the number by which it
    /// can be removed. Gives `None`, and changes nothing, where the
    /// numbers have run out.
    pub fn insert(
        &mut self,
        anchor: Position,
        content: InlayContent,
        kind: InlayKind,
        width: usize,
    ) -> (id: Option<u64>)
        requires
            old(self).wf(),
        ensures
            final(self).wf(),
            id is Some <==> old(self).next_id() < u64::MAX,
            id is Some ==> id->0 == old(self).next_id() && final(self).next_id() == id->0 + 1
                && final(self)@ == place_inlay(
                old(self)@,
                Inlay { id: id->0, anchor, kind, content, width },
            ),
            id is None ==> final(self)@ == old(self)@ && final(self).next_id() == old(
                self,
            ).next_id(),
    {
        if self.next_id == u64::MAX {
            return None;
        }
        let id = self.next_id;
        let x = Inlay { id, anchor, kind, content, width };
        let mut k: usize = self.items.len();
        while k > 0 && !self.items[k - 1].anchor.is_at_or_before(&anchor)
            invariant
                k <= self.items@.len(),
                self.items@ == old(self).items@,
                self.next_id == old(self).next_id,
                forall|i: int|
                    k <= i < self.items@.len() ==> !(#[trigger] self.items@[i]).anchor.spec_le(
                        anchor,
                    ),
            decreases k,
        {
            k -= 1;
        }
        proof {
            lemma_place_inlay_shape(self.items@, x, k as int);
        }
        let ghost was = self.items@;
        self.items.insert(k, x);
        self.next_id = id + 1;
        proof {
            let now = self.items@;
            assert forall|i: int, j: int| 0 <= i < j < now.len() implies (#[trigger] now[i]).anchor.spec_le(
                (#[trigger] now[j]).anchor,
            ) by {
                if i < k && j > k {
                    assert(now[i] == was[i] && now[j] == was[j - 1]);
                } else if i < k && j < k {
                    assert(now[i] == was[i] && now[j] == was[j]);
                } else if i > k {
                    assert(now[i] == was[i - 1] && now[j] == was[j - 1]);
                } else if i == k {
                    assert(now[j] == was[j - 1]);
                } else {
                    assert(now[i] == was[i]);
                    assert(was[i].anchor.spec_le(was[k - 1].anchor) || i == k - 1);
                }
            }
            assert forall|i: int| 0 <= i < now.len() implies (#[trigger] now[i]).id < id + 1 by {
                if i < k {
                    assert(now[i] == was[i]);
                } else if i > k {
                    assert(now[i] == was[i - 1]);
                }
            }
        }
        Some(id)
    }

    /// Removes the inlay with the number `id`. Says whether there was one.
    pub fn remove(&mut self, id: u64) -> (found: bool)
        requires
            old(self).wf(),
        ensures
            final(self).wf(),
            final(self)@ == without_id(old(self)@, id),
            final(self).next_id() == old(self).next_id(),
            found == has_id(old(self)@, id),
    {
        let mut kept: Vec<Inlay> = Vec::new();
        let mut found = false;
        let mut i: usize = 0;
        assert(self.items@.subrange(0, 0) =~= Seq::<Inlay>::empty());
        while i < self.items.len()
            invariant
                i <= self.items@.len(),
                self.items@ == old(self).items@,
                self.next_id == old(self).next_id,
                self.wf(),
                kept@ == without_id(self.items@.subrange(0, i as int), id),
                found == has_id(self.items@.subrange(0, i as int), id),
                forall|k: int|
                    0 <= k < kept@.len() ==> exists|m: int|
                        0 <= m < i && self.items@[m] == #[trigger] kept@[k],
                forall|k: int, l: int|
                    0 <= k < l < kept@.len() ==> (#[trigger] kept@[k]).anchor.spec_le(
                        (#[trigger] kept@[l]).anchor,
                    ),
            decreases self.items@.len() - i,
        {
            let x = self.items[i];
            let ghost was = kept@;
            proof {
                let before = self.items@.subrange(0, i as int);
                let now = self.items@.subrange(0, i + 1);
                assert(now.drop_last() =~= before);
                assert(now.last() == x);
                if has_id(before, id) {
                    let m = choose|m: int| 0 <= m < before.len() && (#[trigger] before[m]).id == id;
                    assert(now[m].id == id);
                }
                if x.id == id {
                    assert(now[i as int].id == id);
                }
                if has_id(now, id) && x.id != id {
                    let m = choose|m: int| 0 <= m < now.len() && (#[trigger] now[m]).id == id;
                    assert(before[m].id == id);
                }
            }
            if x.id == id {
                found = true;
            } else {
                kept.push(x);
                proof {
                    assert forall|k: int| 0 <= k < kept@.len() implies exists|m: int|
                        0 <= m < i + 1 && self.items@[m] == #[trigger] kept@[k] by {
                        if k < was.len() {
                            let m = choose|m: int| 0 <= m < i && self.items@[m] == was[k];
                            assert(self.items@[m] == kept@[k]);
                        } else {
                            assert(self.items@[i as int] == kept@[k]);
                        }
                    }
                    assert forall|k: int, l: int| 0 <= k < l < kept@.len() implies (#[trigger] kept@[k]).anchor.spec_le(
                        (#[trigger] kept@[l]).anchor,
                    ) by {
                        if l == was.len() {
                            let m = choose|m: int| 0 <= m < i && self.items@[m] == was[k];
                            assert(self.items@[m].anchor.spec_le(self.items@[i as int].anchor));
                        } else {
                            assert(kept@[k] == was[k] && kept@[l] == was[l]);
                        }
                    }
                }
            }
            i += 1;
        }
        proof {
            assert(self.items@.subrange(0, i as int) =~= self.items@);
            assert forall|k: int| 0 <= k < kept@.len() implies (#[trigger] kept@[k]).id
                < self.next_id by {
                let m = choose|m: int| 0 <= m < i && self.items@[m] == kept@[k];
                assert(self.items@[m].id < self.next_id);
            }
        }
        self.items = kept;
        found
    }

    /// The inlays anchored in line `line`, in the order of their anchors.
    pub fn query(&self, line: usize) -> (found: Vec<Inlay>)
        ensures
            found@ == on_line(self@, line),
    {
        let mut found: Vec<Inlay> = Vec::new();
        let mut i: usize = 0;
        assert(self.items@.subrange(0, 0) =~= Seq::<Inlay>::empty());
        while i < self.items.len()
            invariant
                i <= self.items@.len(),
                found@ == on_line(self.items@.subrange(0, i as int), line),
            decreases self.items@.len() - i,
        {
            let x = self.items[i];
            proof {
                let now = self.items@.subrange(0, i + 1);
                assert(now.drop_last() =~= self.items@.subrange(0, i as int));
                assert(now.last() == x);
            }
            if x.anchor.line == line {
                found.push(x);
            }
            i += 1;
        }
        assert(self.items@.subrange(0, i as int) =~= self.items@);
        found
    }

    /// The inlays anchored in line `line`, as the layout of that line sees
    /// them, in the order of their anchors.
    pub fn insets(&self, line: usize) -> (found: Vec<Inset>)
        ensures
            found@ == insets_on_line(self@, line as int),
    {
        let mut found: Vec<Inset> = Vec::new();
        let mut i: usize = 0;
        assert(self.items@.subrange(0, 0) =~= Seq::<Inlay>::empty());
        while i < self.items.len()
            invariant
                i <= self.items@.len(),
                found@ == insets_on_line(self.items@.subrange(0, i as int), line as int),
            decreases self.items@.len() - i,
        {
            let x = self.items[i];
            proof {
                let now = self.items@.subrange(0, i + 1);
                assert(now.drop_last() =~= self.items@.subrange(0, i as int));
                assert(now.last() == x);
            }
            if x.anchor.line == line {
                found.push(x.to_inset());
            }
            i += 1;
        }
        assert(self.items@.subrange(0, i as int) =~= self.items@);
        found
    }

    /// Carries the inlays across an edit that replaced `range` by a text
    /// that now ends at `end`: an inlay anchored strictly inside the
    /// replaced range is removed, every other one has its anchor moved.
    /// Where a moved anchor cannot be represented, nothing changes.
    pub fn remap_across_edit(&mut self, range: Range, end: Position) -> (res: Result<
        (),
        EditError,
    >)
        requires
            old(self).wf(),
            range.ordered(),
            range.start.spec_le(end),
        ensures
            final(self).wf(),
            final(self).next_id() == old(self).next_id(),
            res is Ok <==> anchors_fit(old(self)@, range, end),
            res is Ok ==> final(self)@ == across_edit(old(self)@, range, end),
            res is Err ==> final(self)@ == old(self)@,
    {
        let mut moved: Vec<Inlay> = Vec::new();
        let mut i: usize = 0;
        assert(self.items@.subrange(0, 0) =~= Seq::<Inlay>::empty());
        while i < self.items.len()
            invariant
                i <= self.items@.len(),
                self.items@ == old(self).items@,
                self.next_id == old(self).next_id,
                self.wf(),
                range.ordered(),
                moved@ == across_edit(self.items@.subrange(0, i as int), range, end),
                anchors_fit(self.items@.subrange(0, i as int), range, end),
            decreases self.items@.len() - i,
        {
            let x = self.items[i];
            proof {
                let now = self.items@.subrange(0, i + 1);
                assert(now.drop_last() =~= self.items@.subrange(0, i as int));
                assert(now.last() == x);
            }
            let inside = range.start.is_before(&x.anchor) && x.anchor.is_before(&range.end);
            if !inside {
                match remap_position(x.anchor, range, end) {
                    Some(anchor) => {
                        moved.push(
                            Inlay {
                                id: x.id,
                                anchor,
                                kind: x.kind,
                                content: x.content,
                                width: x.width,
                            },
                        );
                    },
                    None => {
                        assert(!strictly_inside(self.items@[i as int].anchor, range));
                        return Err(EditError::OutOfBounds);
                    },
                }
            }
            proof {
                let before = self.items@.subrange(0, i as int);
                let now = self.items@.subrange(0, i + 1);
                assert forall|k: int|
                    0 <= k < now.len() && !strictly_inside(
                        (#[trigger] now[k]).anchor,
                        range,
                    ) implies remap_fits(now[k].anchor, range, end) by {
                    if k < i {
                        assert(before[k] == now[k]);
                    }
                }
            }
            i += 1;
        }
        proof {
            assert(self.items@.subrange(0, i as int) =~= self.items@);
            lemma_across_edit_props(self.items@, range, end, self.next_id);
        }
        self.items = moved;
        Ok(())
    }
}

} // verus!
