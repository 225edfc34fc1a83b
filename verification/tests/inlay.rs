use code_editor::buffer::EditError;
use code_editor::inlay::{Inlay, InlayContent, InlayKind, InlaySet, Inset};
use code_editor::position::{Position, Range};

fn pos(line: usize, offset: usize) -> Position {
    Position::new(line, offset)
}

fn anchors(set: &InlaySet) -> Vec<(u64, Position)> {
    let mut all = Vec::new();
    for line in 0..10 {
        for x in set.query(line) {
            all.push((x.id, x.anchor));
        }
    }
    all
}

fn filled() -> InlaySet {
    let mut set = InlaySet::new();
    assert_eq!(set.insert(pos(2, 1), InlayContent::Diagnostic, InlayKind::Block, 0), Some(0));
    assert_eq!(set.insert(pos(0, 4), InlayContent::FoldPlaceholder, InlayKind::Inline, 3), Some(1));
    assert_eq!(set.insert(pos(2, 0), InlayContent::Widget(9), InlayKind::Inline, 2), Some(2));
    assert_eq!(set.insert(pos(2, 1), InlayContent::Widget(8), InlayKind::Inline, 1), Some(3));
    assert_eq!(set.insert(pos(1, 3), InlayContent::Diagnostic, InlayKind::Inline, 1), Some(4));
    set
}

#[test]
fn insert_keeps_the_order_of_anchors() {
    let set = filled();
    assert_eq!(set.len(), 5);
    assert_eq!(
        anchors(&set),
        vec![(1, pos(0, 4)), (4, pos(1, 3)), (2, pos(2, 0)), (0, pos(2, 1)), (3, pos(2, 1))]
    );
}

#[test]
fn query_gives_the_inlays_of_a_line() {
    let set = filled();
    assert_eq!(
        set.query(2),
        vec![
            Inlay { id: 2, anchor: pos(2, 0), kind: InlayKind::Inline, content: InlayContent::Widget(9), width: 2 },
            Inlay { id: 0, anchor: pos(2, 1), kind: InlayKind::Block, content: InlayContent::Diagnostic, width: 0 },
            Inlay { id: 3, anchor: pos(2, 1), kind: InlayKind::Inline, content: InlayContent::Widget(8), width: 1 },
        ]
    );
    assert_eq!(set.query(3), vec![]);
    assert_eq!(
        set.insets(0),
        vec![Inset { offset: 4, width: 3, kind: InlayKind::Inline, id: 1 }]
    );
    assert_eq!(set.query(0)[0].to_inset(), set.insets(0)[0]);
}

#[test]
fn remove_takes_the_inlay_with_the_number() {
    let mut set = filled();
    assert!(set.remove(0));
    assert!(!set.remove(0));
    assert!(!set.remove(77));
    assert_eq!(anchors(&set), vec![(1, pos(0, 4)), (4, pos(1, 3)), (2, pos(2, 0)), (3, pos(2, 1))]);
    assert_eq!(set.insert(pos(0, 0), InlayContent::Diagnostic, InlayKind::Inline, 1), Some(5));
}

#[test]
fn edit_moves_inlays_and_removes_those_inside() {
    let mut set = filled();
    let res = set.remap_across_edit(Range::new(pos(0, 5), pos(2, 1)), pos(0, 7));
    assert_eq!(res, Ok(()));
    assert_eq!(anchors(&set), vec![(1, pos(0, 4)), (0, pos(0, 7)), (3, pos(0, 7))]);
}

#[test]
fn insertion_before_an_anchor_moves_it() {
    let mut set = filled();
    let res = set.remap_across_edit(Range::new(pos(0, 0), pos(0, 0)), pos(1, 2));
    assert_eq!(res, Ok(()));
    assert_eq!(
        anchors(&set),
        vec![(1, pos(1, 6)), (4, pos(2, 3)), (2, pos(3, 0)), (0, pos(3, 1)), (3, pos(3, 1))]
    );
}

#[test]
fn anchor_at_the_ends_of_a_deleted_range_stays() {
    let mut set = InlaySet::new();
    set.insert(pos(0, 2), InlayContent::Diagnostic, InlayKind::Inline, 1);
    set.insert(pos(0, 3), InlayContent::Diagnostic, InlayKind::Inline, 1);
    set.insert(pos(0, 5), InlayContent::Diagnostic, InlayKind::Inline, 1);
    let res = set.remap_across_edit(Range::new(pos(0, 2), pos(0, 5)), pos(0, 2));
    assert_eq!(res, Ok(()));
    assert_eq!(anchors(&set), vec![(0, pos(0, 2)), (2, pos(0, 2))]);
}

#[test]
fn anchor_that_cannot_be_represented() {
    let mut set = InlaySet::new();
    set.insert(pos(0, usize::MAX), InlayContent::Diagnostic, InlayKind::Inline, 1);
    let res = set.remap_across_edit(Range::new(pos(0, 0), pos(0, 0)), pos(0, 1));
    assert_eq!(res, Err(EditError::OutOfBounds));
    assert_eq!(anchors(&set), vec![(0, pos(0, usize::MAX))]);
}
