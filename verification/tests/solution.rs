use nonogram::solution::{
    common_row_indexes, enumerate_row_states, filter_invalid_row_states, CellState,
};
use nonogram::state_row::StateRow;

#[test]
fn solution_enumerate_row_states1() {
    let states = enumerate_row_states(5, &[1, 1, 1]);

    assert_eq!(states.len(), 1);
}

#[test]
fn solution_enumerate_row_states2() {
    let states = enumerate_row_states(5, &[3, 1]);

    assert_eq!(states.len(), 1);
}

#[test]
fn solution_enumerate_row_states3() {
    let states = enumerate_row_states(5, &[1, 2]);

    assert_eq!(states.len(), 3);
}

#[test]
fn solution_enumerate_row_states4() {
    let states = enumerate_row_states(5, &[1, 1]);

    assert_eq!(states.len(), 6);
}

#[test]
fn solution_enumerate_row_states5() {
    let states = enumerate_row_states(5, &[1]);

    assert_eq!(states.len(), 5);
}

#[test]
fn solution_filter_invalid_row_states1() {
    let known = StateRow(vec![
        CellState::Filled,
        CellState::Empty,
        CellState::Unknown,
        CellState::Empty,
        CellState::Unknown,
    ]);
    let enumerated_states = enumerate_row_states(5, &[1, 1]);
    let filtered_states = filter_invalid_row_states(&known, &enumerated_states);

    assert_eq!(filtered_states.len(), 2);
}

#[test]
fn solution_filter_invalid_row_states2() {
    let known = StateRow(vec![
        CellState::Empty,
        CellState::Unknown,
        CellState::Filled,
        CellState::Unknown,
        CellState::Empty,
    ]);
    let enumerated_states = enumerate_row_states(5, &[2]);
    let filtered_states = filter_invalid_row_states(&known, &enumerated_states);

    assert_eq!(filtered_states.len(), 2);
}

#[test]
fn solution_filter_invalid_row_states3() {
    let known = StateRow(vec![
        CellState::Filled,
        CellState::Unknown,
        CellState::Filled,
        CellState::Unknown,
        CellState::Empty,
    ]);
    let enumerated_states = enumerate_row_states(5, &[3]);
    let filtered_states = filter_invalid_row_states(&known, &enumerated_states);

    assert_eq!(filtered_states.len(), 1);
}

#[test]
fn solution_common_row_indexes1() {
    let enumerated_row_states = enumerate_row_states(5, &[3]);
    let common_cells = common_row_indexes(&enumerated_row_states);

    assert_eq!(common_cells.len(), 1);
    assert_eq!(common_cells[0].0, 2);
    assert_eq!(common_cells[0].1, CellState::Filled);
}

#[test]
fn solution_common_row_indexes2() {
    let enumerated_row_states = enumerate_row_states(5, &[2, 1]);
    let common_cells = common_row_indexes(&enumerated_row_states);

    assert_eq!(common_cells.len(), 1);
    assert_eq!(common_cells[0].0, 1);
    assert_eq!(common_cells[0].1, CellState::Filled);
}

#[test]
fn solution_common_row_indexes3() {
    let enumerated_row_states = enumerate_row_states(5, &[1, 3]);
    let common_cells = common_row_indexes(&enumerated_row_states);

    assert_eq!(common_cells.len(), 5);
    assert_eq!(common_cells[0].0, 0);
    assert_eq!(common_cells[0].1, CellState::Filled);
    assert_eq!(common_cells[1].0, 1);
    assert_eq!(common_cells[1].1, CellState::Empty);
    assert_eq!(common_cells[2].0, 2);
    assert_eq!(common_cells[2].1, CellState::Filled);
    assert_eq!(common_cells[3].0, 3);
    assert_eq!(common_cells[3].1, CellState::Filled);
    assert_eq!(common_cells[4].0, 4);
    assert_eq!(common_cells[4].1, CellState::Filled);
}

#[test]
fn pruning_is_idempotent() {
    let known = StateRow(vec![
        CellState::Filled,
        CellState::Empty,
        CellState::Unknown,
        CellState::Empty,
        CellState::Unknown,
    ]);
    let enumerated_states = enumerate_row_states(5, &[1, 1]);
    let once = filter_invalid_row_states(&known, &enumerated_states);
    let twice = filter_invalid_row_states(&known, &once);

    assert_eq!(once.len(), twice.len());
    for (a, b) in once.iter().zip(twice.iter()) {
        assert!(a == b);
    }
}

#[test]
fn enumerated_candidates_have_requested_length() {
    let states = enumerate_row_states(7, &[2, 3]);

    assert_eq!(states.len(), 3);
    for state in &states {
        assert_eq!(state.0.len(), 7);
        assert!(state.0.iter().all(|c| *c != CellState::Unknown));
    }
}

#[test]
fn enumerate_empty_clue_yields_single_empty_line() {
    let states = enumerate_row_states(4, &[]);

    assert_eq!(states.len(), 1);
    assert!(states[0].0.iter().all(|c| *c == CellState::Empty));
}

#[test]
fn enumerate_full_clue_yields_single_filled_line() {
    let states = enumerate_row_states(4, &[4]);

    assert_eq!(states.len(), 1);
    assert!(states[0].0.iter().all(|c| *c == CellState::Filled));
}
