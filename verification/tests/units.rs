use singlenum::abox::ABox;
use singlenum::column::Column;
use singlenum::enums::Container;
use singlenum::helpers::{compare, intersections, inverse_vec, multi_intersections, remove_element};
use singlenum::line::Line;
use singlenum::square::Square;

fn blank_square(id: usize) -> Square {
    Square {
        id,
        value: 0,
        potentials: Vec::new(),
        line_potentials: Vec::new(),
        column_potentials: Vec::new(),
        box_potentials: Vec::new(),
        abox_id: 0,
        line_id: 0,
        column_id: 0,
        history: Vec::new(),
    }
}

#[test]
fn inverse_vec_of_empty_is_all_digits() {
    let taken: Vec<usize> = Vec::new();
    assert_eq!(inverse_vec(&taken), vec![1, 2, 3, 4, 5, 6, 7, 8, 9]);
}

#[test]
fn inverse_vec_filters_taken_digits() {
    let taken: Vec<usize> = vec![2, 9, 4];
    assert_eq!(inverse_vec(&taken), vec![1, 3, 5, 6, 7, 8]);
}

#[test]
fn multi_intersections_keeps_first_list_order() {
    let lists = vec![vec![5, 1, 3, 2], vec![2, 3, 4, 5], vec![3, 2, 5, 9]];
    assert_eq!(multi_intersections(lists), vec![5, 3, 2]);
}

#[test]
fn multi_intersections_of_disjoint_lists_is_empty() {
    let lists = vec![vec![1, 2], vec![3, 4], vec![5, 6]];
    assert_eq!(multi_intersections(lists), Vec::<usize>::new());
}

#[test]
fn multi_intersections_never_repeats_an_element() {
    let lists = vec![vec![2, 2], vec![2, 9], vec![2, 7]];
    assert_eq!(multi_intersections(lists), vec![2]);
}

#[test]
fn multi_intersections_ignores_lists_beyond_the_third() {
    let lists = vec![vec![1, 2, 3], vec![1, 2, 3], vec![2, 3], vec![9]];
    assert_eq!(multi_intersections(lists), vec![2, 3]);
}

#[test]
fn intersections_of_nothing_is_empty() {
    let sets: Vec<Vec<usize>> = Vec::new();
    assert_eq!(intersections(&sets), Vec::<usize>::new());
}

#[test]
fn intersections_of_one_set_is_that_set() {
    let sets = vec![vec![7, 3, 1]];
    assert_eq!(intersections(&sets), vec![7, 3, 1]);
}

#[test]
fn remove_element_removes_first_occurrence() {
    let mut v = vec![4, 7, 4, 2];
    assert!(remove_element(4, &mut v));
    assert_eq!(v, vec![7, 4, 2]);
}

#[test]
fn remove_element_of_absent_value_changes_nothing() {
    let mut v = vec![4, 7, 2];
    assert!(!remove_element(9, &mut v));
    assert_eq!(v, vec![4, 7, 2]);
}

#[test]
fn compare_ranks_longer_lists_first() {
    let a = (1_usize, vec![1, 2, 3]);
    let b = (2_usize, vec![4, 5]);
    assert_eq!(compare(&a, &b), std::cmp::Ordering::Less);
    assert_eq!(compare(&b, &a), std::cmp::Ordering::Greater);
    assert_eq!(compare(&a, &a), std::cmp::Ordering::Equal);
}

#[test]
fn set_value_clears_candidates() {
    let mut sq = blank_square(11);
    sq.potentials = vec![3, 4];
    sq.line_potentials = vec![3, 4, 5];
    sq.set_value(4);
    assert_eq!(sq.value, 4);
    assert!(sq.potentials.is_empty());
    assert!(sq.line_potentials.is_empty());
    assert!(sq.history.is_empty());
}

#[test]
fn set_value_guess_records_history() {
    let mut sq = blank_square(11);
    sq.potentials = vec![3, 4];
    sq.set_value_guess(3);
    assert_eq!(sq.value, 3);
    assert!(sq.potentials.is_empty());
    assert_eq!(sq.history, vec![3]);
}

#[test]
fn update_sets_the_tagged_axis_list() {
    let mut sq = blank_square(0);
    sq.update(Container::LINE, vec![1, 2]);
    sq.update(Container::COLUMN, vec![3]);
    sq.update(Container::ABOX, vec![4, 5]);
    assert_eq!(sq.line_potentials, vec![1, 2]);
    assert_eq!(sq.column_potentials, vec![3]);
    assert_eq!(sq.box_potentials, vec![4, 5]);
}

#[test]
fn get_potentials_is_none_while_empty() {
    let mut sq = blank_square(0);
    assert!(sq.get_potentials().is_none());
    sq.set_potentials(vec![8]);
    assert_eq!(sq.get_potentials(), Some(&vec![8_usize]));
}

#[test]
fn line_tracks_taken_and_remaining() {
    let mut line = Line::new(0, vec![0, 1, 2, 3, 4, 5, 6, 7, 8]);
    assert_eq!(line.get_square_ids(), vec![0, 1, 2, 3, 4, 5, 6, 7, 8]);
    line._remaining = vec![1, 2, 3];
    line.set_taken(2);
    assert_eq!(line._taken, vec![2]);
    assert_eq!(line._remaining, vec![1, 3]);
}

#[test]
fn column_tracks_taken_and_remaining() {
    let mut column = Column::new(3, vec![3, 12, 21, 30, 39, 48, 57, 66, 75]);
    assert_eq!(column.get_square_ids(), vec![3, 12, 21, 30, 39, 48, 57, 66, 75]);
    column._remaining = vec![5, 6];
    column.set_taken(6);
    assert_eq!(column._taken, vec![6]);
    assert_eq!(column._remaining, vec![5]);
}

#[test]
fn abox_tracks_taken_and_remaining() {
    let mut abox = ABox::new(0, vec![0, 1, 2, 9, 10, 11, 18, 19, 20]);
    assert_eq!(abox.get_square_ids(), vec![0, 1, 2, 9, 10, 11, 18, 19, 20]);
    abox._remaining = vec![7, 8, 9];
    abox.set_taken(9);
    assert_eq!(abox._taken, vec![9]);
    assert_eq!(abox._remaining, vec![7, 8]);
}
