use code_editor::buffer::EditError;
use code_editor::position::{Position, Range};
use code_editor::remap::remap_position;
use code_editor::selection::{merge_sorted, Selection, SelectionSet};

fn pos(line: usize, offset: usize) -> Position {
    Position::new(line, offset)
}

fn sel(a: (usize, usize), h: (usize, usize)) -> Selection {
    Selection::new(pos(a.0, a.1), pos(h.0, h.1))
}

fn range(a: (usize, usize), b: (usize, usize)) -> Range {
    Range::new(pos(a.0, a.1), pos(b.0, b.1))
}

fn assert_separated(set: &SelectionSet) {
    let v = set.to_vec();
    for pair in v.windows(2) {
        assert!(pair[0].last().is_before(&pair[1].first()));
    }
}

#[test]
fn touching_selections_merge_into_one() {
    let set = SelectionSet::from_selections(&vec![sel((0, 0), (0, 2)), sel((0, 2), (0, 4))]);
    assert_eq!(set.to_vec(), vec![sel((0, 0), (0, 4))]);
    assert_eq!(merge_sorted(&vec![sel((0, 0), (0, 2)), sel((0, 2), (0, 4))]), vec![sel((0, 0), (0, 4))]);
}

#[test]
fn insertion_at_cursor_moves_the_cursor_behind_it() {
    let mut set = SelectionSet::new();
    assert_eq!(set.to_vec(), vec![sel((0, 0), (0, 0))]);
    let res = set.remap_across_edit(range((0, 0), (0, 0)), pos(0, 3));
    assert_eq!(res, Ok(()));
    assert_eq!(set.to_vec(), vec![sel((0, 3), (0, 3))]);
}

#[test]
fn merge_takes_direction_of_the_later_selection() {
    let set = SelectionSet::from_selections(&vec![sel((0, 0), (0, 3)), sel((0, 5), (0, 2))]);
    assert_eq!(set.to_vec(), vec![sel((0, 5), (0, 0))]);
    let set = SelectionSet::from_selections(&vec![sel((0, 3), (0, 0)), sel((0, 2), (0, 5))]);
    assert_eq!(set.to_vec(), vec![sel((0, 0), (0, 5))]);
}

#[test]
fn separate_selections_stay_separate_and_sorted() {
    let set = SelectionSet::from_selections(&vec![
        sel((2, 0), (2, 1)),
        sel((0, 0), (0, 1)),
        sel((1, 4), (1, 2)),
    ]);
    assert_eq!(set.to_vec(), vec![sel((0, 0), (0, 1)), sel((1, 4), (1, 2)), sel((2, 0), (2, 1))]);
    assert_eq!(set.len(), 3);
    assert_eq!(set.get(1), Some(sel((1, 4), (1, 2))));
    assert_eq!(set.get(3), None);
    assert_separated(&set);
}

#[test]
fn add_joins_everything_it_meets() {
    let mut set = SelectionSet::from_selections(&vec![
        sel((0, 0), (0, 2)),
        sel((0, 4), (0, 6)),
        sel((0, 8), (0, 9)),
        sel((1, 0), (1, 1)),
    ]);
    set.add(sel((0, 1), (0, 8)));
    assert_eq!(set.to_vec(), vec![sel((0, 0), (0, 9)), sel((1, 0), (1, 1))]);
    set.add(sel((0, 10), (0, 11)));
    assert_eq!(
        set.to_vec(),
        vec![sel((0, 0), (0, 9)), sel((0, 10), (0, 11)), sel((1, 0), (1, 1))]
    );
    assert_separated(&set);
}

#[test]
fn two_cursors_at_one_place_are_one() {
    let mut set = SelectionSet::new();
    set.add(sel((0, 0), (0, 0)));
    assert_eq!(set.len(), 1);
    set.add(sel((0, 1), (0, 1)));
    assert_eq!(set.len(), 2);
}

#[test]
fn clear_to_leaves_one_selection() {
    let mut set = SelectionSet::from_selections(&vec![sel((0, 0), (0, 1)), sel((3, 0), (3, 1))]);
    set.clear_to(sel((7, 1), (5, 0)));
    assert_eq!(set.to_vec(), vec![sel((7, 1), (5, 0))]);
}

#[test]
fn set_all_sorts_and_merges() {
    let mut set = SelectionSet::new();
    set.set_all(&vec![sel((1, 0), (1, 3)), sel((0, 0), (0, 1)), sel((1, 2), (1, 5))]);
    assert_eq!(set.to_vec(), vec![sel((0, 0), (0, 1)), sel((1, 0), (1, 5))]);
    set.set_all(&Vec::new());
    assert_eq!(set.len(), 0);
}

#[test]
fn remap_position_before_inside_and_behind() {
    let r = range((1, 2), (2, 3));
    let end = pos(1, 5);
    assert_eq!(remap_position(pos(0, 9), r, end), Some(pos(0, 9)));
    assert_eq!(remap_position(pos(1, 2), r, end), Some(pos(1, 2)));
    assert_eq!(remap_position(pos(1, 3), r, end), Some(pos(1, 5)));
    assert_eq!(remap_position(pos(2, 2), r, end), Some(pos(1, 5)));
    assert_eq!(remap_position(pos(2, 3), r, end), Some(pos(1, 5)));
    assert_eq!(remap_position(pos(2, 7), r, end), Some(pos(1, 9)));
    assert_eq!(remap_position(pos(3, 7), r, end), Some(pos(2, 7)));
    let r = range((0, 1), (0, 1));
    let end = pos(2, 4);
    assert_eq!(remap_position(pos(0, 0), r, end), Some(pos(0, 0)));
    assert_eq!(remap_position(pos(0, 1), r, end), Some(pos(2, 4)));
    assert_eq!(remap_position(pos(0, 3), r, end), Some(pos(2, 6)));
    assert_eq!(remap_position(pos(1, 3), r, end), Some(pos(3, 3)));
}

#[test]
fn remap_position_that_cannot_be_represented() {
    let r = range((0, 0), (0, 0));
    assert_eq!(remap_position(pos(0, usize::MAX), r, pos(0, 1)), None);
    assert_eq!(remap_position(pos(usize::MAX, 0), r, pos(1, 0)), None);
    let mut set = SelectionSet::from_selections(&vec![sel((0, 1), (0, usize::MAX))]);
    assert_eq!(set.remap_across_edit(r, pos(0, 1)), Err(EditError::OutOfBounds));
    assert_eq!(set.to_vec(), vec![sel((0, 1), (0, usize::MAX))]);
}

#[test]
fn remap_merges_selections_that_collapse() {
    let mut set = SelectionSet::from_selections(&vec![
        sel((0, 0), (0, 1)),
        sel((0, 3), (0, 4)),
        sel((0, 6), (0, 7)),
        sel((0, 9), (1, 2)),
    ]);
    let res = set.remap_across_edit(range((0, 2), (0, 8)), pos(0, 2));
    assert_eq!(res, Ok(()));
    assert_eq!(set.to_vec(), vec![sel((0, 0), (0, 1)), sel((0, 2), (0, 2)), sel((0, 3), (1, 2))]);
    assert_separated(&set);
}

#[test]
fn selection_parts() {
    let s = sel((2, 5), (1, 3));
    assert!(!s.is_forward());
    assert!(!s.is_cursor());
    assert_eq!(s.first(), pos(1, 3));
    assert_eq!(s.last(), pos(2, 5));
    assert_eq!(s.range(), range((1, 3), (2, 5)));
    assert_eq!(s.column, None);
    let c = Selection::cursor(pos(4, 4));
    assert!(c.is_cursor() && c.is_forward());
    assert_eq!(sel((0, 0), (0, 1)).merge(&s), sel((2, 5), (0, 0)));
}

#[test]
fn positions_are_ordered_by_line_then_offset() {
    assert!(pos(0, 9).is_before(&pos(1, 0)));
    assert!(pos(1, 0).is_before(&pos(1, 1)));
    assert!(!pos(1, 1).is_before(&pos(1, 1)));
    assert!(pos(1, 1).is_at_or_before(&pos(1, 1)));
    assert_eq!(pos(1, 1).earlier(pos(0, 5)), pos(0, 5));
    assert_eq!(pos(1, 1).later(pos(0, 5)), pos(1, 1));
    assert_eq!(Position::zero(), pos(0, 0));
    assert_eq!(Range::spanning(pos(3, 0), pos(1, 2)), range((1, 2), (3, 0)));
    assert_eq!(Range::at(pos(1, 1)), range((1, 1), (1, 1)));
    assert!(range((1, 1), (1, 1)).is_ordered());
    assert!(!range((1, 2), (1, 1)).is_ordered());
}
