//! Unit tests of the cell type, the completion counters and the display
//! characters.

use sudoku::chars::num_char;
use sudoku::coord::Coord;
use sudoku::finished::Finished;
use sudoku::node::Node;

fn c(x: usize, y: usize) -> Coord {
    Coord { x, y }
}

#[test]
fn fresh_cell_offers_every_candidate() {
    let node = Node::new(4);
    assert!(!node.is_found());
    assert_eq!(node.num_possibilities(), Some(4));
    assert!(node.has_possibilities());
    assert!(!node.has_conflicts());
    assert!(!node.has_problems());
    assert_eq!(node.solution(), None);
    assert_eq!(node.possibilities().unwrap(), &vec![true, true, true, true]);
}

#[test]
fn setting_a_cell_records_value_and_level() {
    let mut node = Node::new(4);
    node.set(2, 5);
    assert!(node.is_found());
    assert_eq!(node.solution(), Some(2));
    assert_eq!(node.get_num(), Some(2));
    assert_eq!(node.get_guess_id(), None);
    assert_eq!(node.conflicts().unwrap().len(), 0);
    node.set_guess_id(7);
    assert_eq!(node.get_guess_id(), Some(7));
    assert!(node.guess_reset(4));
    assert!(!node.guess_reset(5));
    node.reset(4);
    assert!(!node.is_found());
    assert_eq!(node.count(), Some(4));
}

#[test]
fn conflicts_are_added_and_removed_one_record_at_a_time() {
    let mut node = Node::new(4);
    node.set(1, 0);
    node.add_conflict(c(1, 2));
    node.add_conflict(c(3, 0));
    assert!(node.has_conflicts());
    assert!(node.has_problems());
    assert_eq!(node.conflicts().unwrap(), &vec![c(1, 2), c(3, 0)]);
    node.remove_conflict(c(1, 2));
    assert_eq!(node.conflicts().unwrap(), &vec![c(3, 0)]);
    node.remove_conflict(c(1, 2));
    assert_eq!(node.conflicts().unwrap(), &vec![c(3, 0)]);
    node.remove_conflict(c(3, 0));
    assert!(!node.has_conflicts());
    assert!(!node.has_problems());
}

#[test]
fn try_solve_assigns_exactly_the_last_candidate() {
    let mut node = Node::Possible(vec![false, false, true, false]);
    assert_eq!(node.try_solve(3), Some(2));
    assert!(node.is_found());
    assert_eq!(node.solution(), Some(2));

    let mut two = Node::Possible(vec![true, false, true, false]);
    assert_eq!(two.try_solve(0), None);
    assert!(!two.is_found());

    let mut none = Node::Possible(vec![false, false, false, false]);
    assert_eq!(none.try_solve(0), None);
    assert!(!none.is_found());
    assert!(!none.has_possibilities());
    assert!(none.has_problems());
}

#[test]
fn reset_possible_restores_all_candidates_on_open_cells() {
    let mut node = Node::Possible(vec![false, true, false, true]);
    node.reset_possible();
    assert_eq!(node.possibilities().unwrap(), &vec![true, true, true, true]);
    let mut found = Node::new(4);
    found.set(0, 0);
    found.reset_possible();
    assert!(found.is_found());
}

#[test]
fn counters_follow_assignments_per_row_column_and_block() {
    let mut f = Finished::new(4, Coord { x: 2, y: 2 });
    assert_eq!(f.get_current(), 0);
    assert_eq!(f.get_total(), 16);
    assert!(!f.done());
    f.inc(c(0, 0));
    f.inc(c(3, 2));
    assert_eq!(f.get_current(), 2);
    f.dec(c(3, 2));
    assert_eq!(f.get_current(), 1);
    assert!(!f.done());
}

#[test]
fn values_display_as_digits_then_letters() {
    assert_eq!(num_char(0), '1');
    assert_eq!(num_char(8), '9');
    assert_eq!(num_char(9), 'A');
    assert_eq!(num_char(24), 'P');
    assert_eq!(num_char(30), 'V');
    assert_eq!(num_char(31), '?');
    assert_eq!(num_char(100), '?');
}
