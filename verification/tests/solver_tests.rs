//! Behavioural tests of the solver: the original exercises plus scenarios
//! for assignment, conflicts, hidden singles, the full search and the
//! feasibility probe.

use sudoku::coord::Coord;
use sudoku::node::Node;
use sudoku::regions::region_pos;
use sudoku::state::{CommandError, State};

fn c(x: usize, y: usize) -> Coord {
    Coord { x, y }
}

/// Candidate flags of an open cell, or `None` for a determined one.
fn poss_of(state: &State, p: Coord) -> Option<Vec<bool>> {
    match state.node_at(p) {
        Node::Possible(list) => Some(list.clone()),
        Node::Found(_) => None,
    }
}

/// Conflict records of a determined cell.
fn conflicts_of(state: &State, p: Coord) -> Vec<Coord> {
    match state.node_at(p) {
        Node::Found(d) => d.conflicts.clone(),
        Node::Possible(_) => panic!("cell is open"),
    }
}

#[test]
fn test1() {
    let mut state = State::new(Coord { x: 2, y: 2 });

    state.set(Coord { x: 0, y: 0 }, 1).unwrap();
    state.solve_basic();

    let size = state.size();
    for y in 0..size {
        for x in 0..size {
            println!("{:?}: {:?}", c(x, y), state.node_at(c(x, y)));
        }
    }
}

#[test]
fn test2() {
    let state = State::new(Coord { x: 2, y: 2 });

    let size = state.size();
    for r in 0..3 * size {
        println!("iter #{}:", r);
        for k in 0..size {
            println!("{:?}", region_pos(size, Coord { x: 2, y: 2 }, r, k));
        }
    }
}

#[test]
fn test3() {
    let mut state = State::new(Coord { x: 2, y: 2 });

    state.set(Coord { x: 0, y: 0 }, 1).unwrap();
    state.set(Coord { x: 3, y: 0 }, 1).unwrap();
    state.set(Coord { x: 0, y: 3 }, 1).unwrap();

    println!("step one:");
    let size = state.size();
    for y in 0..size {
        for x in 0..size {
            println!("{:?}: {:?}", c(x, y), state.node_at(c(x, y)));
        }
    }

    state.clear(Coord { x: 3, y: 0 }).unwrap();
    state.clear(Coord { x: 0, y: 3 }).unwrap();

    println!("step two:");
    for y in 0..size {
        for x in 0..size {
            println!("{:?}: {:?}", c(x, y), state.node_at(c(x, y)));
        }
    }
}

#[test]
fn test4() {
    let mut state = State::new(Coord { x: 2, y: 2 });
    let pos = Coord { x: 0, y: 0 };

    state.inc_guess();
    state.set(pos, 1).unwrap();

    println!("guess: {}, Node: {:?}", state.guess(), state.node_at(pos));

    state.dec_guess();

    println!("guess: {}, Node: {:?}", state.guess(), state.node_at(pos));
}

#[test]
fn test5() {
    let mut state = State::new(Coord { x: 3, y: 3 });

    state.set(Coord { x: 0, y: 0 }, 6).unwrap();

    state.set(Coord { x: 1, y: 1 }, 2).unwrap();
    state.set(Coord { x: 2, y: 1 }, 3).unwrap();
    state.set(Coord { x: 3, y: 1 }, 5).unwrap();
    state.set(Coord { x: 8, y: 1 }, 0).unwrap();

    state.set(Coord { x: 4, y: 2 }, 7).unwrap();
    state.set(Coord { x: 7, y: 2 }, 1).unwrap();

    state.set(Coord { x: 1, y: 3 }, 8).unwrap();

    state.set(Coord { x: 1, y: 4 }, 0).unwrap();
    state.set(Coord { x: 2, y: 4 }, 4).unwrap();
    state.set(Coord { x: 3, y: 4 }, 2).unwrap();
    state.set(Coord { x: 8, y: 4 }, 3).unwrap();

    state.set(Coord { x: 5, y: 5 }, 5).unwrap();
    state.set(Coord { x: 6, y: 5 }, 2).unwrap();

    state.set(Coord { x: 0, y: 6 }, 5).unwrap();
    state.set(Coord { x: 8, y: 6 }, 6).unwrap();

    state.set(Coord { x: 1, y: 7 }, 4).unwrap();
    state.set(Coord { x: 2, y: 7 }, 6).unwrap();
    state.set(Coord { x: 5, y: 7 }, 1).unwrap();
    state.set(Coord { x: 7, y: 7 }, 0).unwrap();

    state.set(Coord { x: 0, y: 8 }, 8).unwrap();
    state.set(Coord { x: 3, y: 8 }, 4).unwrap();

    state.full_solve();
}

#[test]
fn test6() {
    let mut state = State::new(Coord { x: 2, y: 2 });
    state.full_solve();
}

#[test]
fn assigning_removes_candidate_from_row_column_and_block() {
    let mut state = State::new(Coord { x: 2, y: 2 });
    state.set(c(0, 0), 1).unwrap();

    assert_eq!(state.finished(), 1);
    // Row 0, column 0 and the top-left block lose candidate 1.
    for x in 1..4 {
        assert!(!poss_of(&state, c(x, 0)).unwrap()[1]);
    }
    for y in 1..4 {
        assert!(!poss_of(&state, c(0, y)).unwrap()[1]);
    }
    assert!(!poss_of(&state, c(1, 1)).unwrap()[1]);
    // A cell sharing nothing with (0,0) keeps candidate 1.
    assert!(poss_of(&state, c(2, 2)).unwrap()[1]);
}

#[test]
fn equal_values_in_one_row_conflict_symmetrically() {
    let mut state = State::new(Coord { x: 2, y: 2 });
    state.set(c(0, 0), 3).unwrap();
    state.set(c(1, 0), 3).unwrap();

    assert_eq!(conflicts_of(&state, c(0, 0)), vec![c(1, 0)]);
    assert_eq!(conflicts_of(&state, c(1, 0)), vec![c(0, 0)]);
    assert!(!state.full_solve_no_guessing());
}

#[test]
fn hidden_single_is_assigned_and_pass_stabilizes() {
    let mut state = State::new(Coord { x: 2, y: 2 });
    // Candidate 2 survives in row 0 only at (3,0): (0,1) rules it out of
    // column 0 and the top-left block, (2,2) rules it out of column 2.
    state.set(c(0, 1), 2).unwrap();
    state.set(c(2, 2), 2).unwrap();

    let offers_2 = |state: &State, p: Coord| poss_of(state, p).map(|l| l[2]).unwrap_or(false);
    assert!(!offers_2(&state, c(0, 0)));
    assert!(!offers_2(&state, c(1, 0)));
    assert!(!offers_2(&state, c(2, 0)));
    assert!(offers_2(&state, c(3, 0)));

    assert!(state.solve_exclusive());
    match state.node_at(c(3, 0)) {
        Node::Found(d) => assert_eq!(d.num, 2),
        Node::Possible(_) => panic!("hidden single was not assigned"),
    }
    while state.solve_exclusive() {}
    assert!(!state.solve_exclusive());
}

#[test]
fn full_search_completes_a_valid_nine_by_nine() {
    let mut state = State::new(Coord { x: 3, y: 3 });
    // A row-, column- and block-consistent filling, with a few cells left
    // open.
    let left_open = [(0, 0), (4, 4), (8, 8), (3, 7), (6, 2)];
    for y in 0..9 {
        for x in 0..9 {
            if left_open.contains(&(x, y)) {
                continue;
            }
            let v = (x + 3 * y + y / 3) % 9;
            state.set(c(x, y), v).unwrap();
        }
    }
    assert!(state.full_solve());
    assert_eq!(state.finished(), state.total());
    for y in 0..9 {
        for x in 0..9 {
            assert!(!state.node_at(c(x, y)).has_conflicts());
            match state.node_at(c(x, y)) {
                Node::Found(d) => assert_eq!(d.num, (x + 3 * y + y / 3) % 9),
                Node::Possible(_) => panic!("cell left open"),
            }
        }
    }
}

#[test]
fn infeasible_grid_probe_reports_false_and_restores_everything() {
    let mut state = State::new(Coord { x: 2, y: 2 });
    // Two equal values in one block: a contradiction no search can mend.
    state.set(c(0, 0), 0).unwrap();
    state.set(c(1, 1), 0).unwrap();

    let det_before = state.finished();
    let level_before = state.guess_level();
    let mut variants_before = Vec::new();
    for y in 0..4 {
        for x in 0..4 {
            variants_before.push(state.node_at(c(x, y)).solution());
        }
    }

    assert!(!state.check_if_possible());

    assert_eq!(state.finished(), det_before);
    assert_eq!(state.guess_level(), level_before);
    let mut variants_after = Vec::new();
    for y in 0..4 {
        for x in 0..4 {
            variants_after.push(state.node_at(c(x, y)).solution());
        }
    }
    assert_eq!(variants_before, variants_after);
}

#[test]
fn assign_then_clear_restores_candidates_and_conflicts() {
    let mut state = State::new(Coord { x: 2, y: 2 });
    let mut before = Vec::new();
    for y in 0..4 {
        for x in 0..4 {
            before.push(poss_of(&state, c(x, y)).unwrap());
        }
    }
    state.set(c(2, 1), 3).unwrap();
    state.clear(c(2, 1)).unwrap();
    let mut after = Vec::new();
    for y in 0..4 {
        for x in 0..4 {
            assert!(!state.node_at(c(x, y)).is_found());
            after.push(poss_of(&state, c(x, y)).unwrap());
        }
    }
    assert_eq!(before, after);
    assert_eq!(state.finished(), 0);
}

#[test]
fn rollback_clears_only_cells_above_the_new_level() {
    let mut state = State::new(Coord { x: 2, y: 2 });
    state.set(c(0, 0), 0).unwrap();
    state.inc_guess();
    state.set(c(3, 3), 1).unwrap();
    assert_eq!(state.finished(), 2);

    state.dec_guess();

    assert_eq!(state.guess_level(), 0);
    assert!(state.node_at(c(0, 0)).is_found());
    assert_eq!(state.node_at(c(0, 0)).solution(), Some(0));
    assert!(!state.node_at(c(3, 3)).is_found());
    assert_eq!(state.finished(), 1);
}

#[test]
fn determined_count_is_monotonic_under_assign_and_solve() {
    let mut state = State::new(Coord { x: 2, y: 2 });
    let mut last = state.finished();
    state.set(c(0, 0), 1).unwrap();
    assert!(state.finished() >= last);
    last = state.finished();
    state.solve_basic();
    assert!(state.finished() >= last);
    last = state.finished();
    state.solve_exclusive();
    assert!(state.finished() >= last);
    last = state.finished();
    state.full_solve_no_guessing();
    assert!(state.finished() >= last);
}

#[test]
fn out_of_grid_positions_and_values_are_rejected() {
    let mut state = State::new(Coord { x: 2, y: 2 });
    assert_eq!(state.set(c(4, 0), 1), Err(CommandError::OutOfBounds));
    assert_eq!(state.set(c(0, 4), 1), Err(CommandError::OutOfBounds));
    assert_eq!(state.set(c(0, 0), 4), Err(CommandError::InvalidValue));
    assert_eq!(state.clear(c(9, 9)), Err(CommandError::OutOfBounds));
    assert_eq!(state.finished(), 0);
    assert_eq!(state.set(c(0, 0), 3), Ok(()));
    assert_eq!(state.finished(), 1);
}

#[test]
fn forced_single_is_assigned_by_the_basic_pass() {
    let mut state = State::new(Coord { x: 2, y: 2 });
    // Leave (3,3) with candidate 3 only.
    state.set(c(0, 3), 0).unwrap();
    state.set(c(1, 3), 1).unwrap();
    state.set(c(2, 3), 2).unwrap();
    assert_eq!(state.node_at(c(3, 3)).num_possibilities(), Some(1));
    assert!(state.solve_basic());
    assert_eq!(state.node_at(c(3, 3)).solution(), Some(3));
    assert!(!state.solve_basic());
}

#[test]
fn repeated_propagation_reproduces_the_same_candidates() {
    let mut state = State::new(Coord { x: 2, y: 2 });
    state.set(c(0, 0), 1).unwrap();
    state.set(c(2, 1), 0).unwrap();

    let mut before = Vec::new();
    for y in 0..4 {
        for x in 0..4 {
            before.push(poss_of(&state, c(x, y)));
        }
    }
    // A rollback from a level with nothing determined above it clears no
    // cell, yet ends with a fresh global propagation pass.
    state.inc_guess();
    state.dec_guess();
    let mut after = Vec::new();
    for y in 0..4 {
        for x in 0..4 {
            after.push(poss_of(&state, c(x, y)));
        }
    }
    assert_eq!(before, after);
}

#[test]
fn guess_takes_the_tightest_cell_at_its_lowest_candidate() {
    let mut state = State::new(Coord { x: 2, y: 2 });
    // (3,0) is left with the single candidate 3; every other open cell
    // keeps at least two.
    state.set(c(0, 0), 0).unwrap();
    state.set(c(1, 0), 1).unwrap();
    state.set(c(2, 0), 2).unwrap();

    assert!(state.guess());
    assert_eq!(state.guess_level(), 1);
    match state.node_at(c(3, 0)) {
        Node::Found(d) => {
            assert_eq!(d.num, 3);
            assert_eq!(d.guess_level, 1);
            assert_eq!(d.guess_id, Some(0));
        }
        Node::Possible(_) => panic!("the forced cell was not guessed"),
    }
}
