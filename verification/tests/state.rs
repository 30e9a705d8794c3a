use nonogram::state::{
    common_row_indexes, enumerate_row_states, filter_invalid_row_states,
    space_width_to_row_segments, total_possible_rows, CellState, StateRow,
};

#[test]
fn mod_enumerate_row_states1() {
    let states = enumerate_row_states(5, &[1, 1, 1]);

    assert_eq!(states.len(), 1);
}

#[test]
fn mod_enumerate_row_states2() {
    let states = enumerate_row_states(5, &[3, 1]);

    assert_eq!(states.len(), 1);
}

#[test]
fn mod_enumerate_row_states3() {
    let states = enumerate_row_states(5, &[1, 2]);

    assert_eq!(states.len(), 3);
}

#[test]
fn mod_enumerate_row_states4() {
    let states = enumerate_row_states(5, &[1, 1]);

    assert_eq!(states.len(), 6);
}

#[test]
fn mod_enumerate_row_states5() {
    let states = enumerate_row_states(5, &[1]);

    assert_eq!(states.len(), 5);
}

#[test]
fn enumerate_spans_are_ordered_and_sized() {
    let states = enumerate_row_states(5, &[1, 2]);

    for spans in &states {
        assert_eq!(spans.len(), 2);
        assert_eq!(spans[0].1 - spans[0].0, 1);
        assert_eq!(spans[1].1 - spans[1].0, 2);
        assert!(spans[1].0 > spans[0].1);
        assert!(spans[1].1 <= 5);
    }
}

#[test]
fn total_possible_rows_counts_gap_splits() {
    // one gap: a single way to spend it; two gaps over two cells: three ways
    assert_eq!(total_possible_rows(4, 1), 5);
    assert_eq!(total_possible_rows(2, 2), 6);
    assert_eq!(total_possible_rows(0, 3), 1);
}

#[test]
fn space_width_to_row_segments_lays_out_spans() {
    let spans = space_width_to_row_segments(&[1, 2], &[0, 1]);

    assert_eq!(spans.len(), 2);
    assert_eq!(spans[0], (0, 1));
    assert_eq!(spans[1], (2, 4));
}

#[test]
fn mod_filter_invalid_row_states1() {
    let known = StateRow(vec![
        CellState::Filled,
        CellState::Empty,
        CellState::Unknown,
        CellState::Empty,
        CellState::Unknown,
    ]);
    let enumerated_states = enumerate_row_states(5, &[1, 1]);
    let filtered_states = filter_invalid_row_states(&known, &enumerated_states);

    assert_eq!(filtered_states.len(), 2);
}

#[test]
fn mod_filter_invalid_row_states2() {
    let known = StateRow(vec![
        CellState::Empty,
        CellState::Unknown,
        CellState::Filled,
        CellState::Unknown,
        CellState::Empty,
    ]);
    let enumerated_states = enumerate_row_states(5, &[2]);
    let filtered_states = filter_invalid_row_states(&known, &enumerated_states);

    assert_eq!(filtered_states.len(), 2);
}

#[test]
fn mod_filter_invalid_row_states3() {
    let known = StateRow(vec![
        CellState::Filled,
        CellState::Unknown,
        CellState::Filled,
        CellState::Unknown,
        CellState::Empty,
    ]);
    let enumerated_states = enumerate_row_states(5, &[3]);
    let filtered_states = filter_invalid_row_states(&known, &enumerated_states);

    assert_eq!(filtered_states.len(), 1);
}

#[test]
fn mod_common_row_indexes1() {
    let enumerated_row_states = enumerate_row_states(5, &[3]);
    let common_cells = common_row_indexes(&enumerated_row_states, 5);

    assert_eq!(common_cells.len(), 1);
    assert_eq!(common_cells[0].0, 2);
    assert_eq!(common_cells[0].1, CellState::Filled);
}

#[test]
fn mod_common_row_indexes2() {
    let enumerated_row_states = enumerate_row_states(5, &[2, 1]);
    let common_cells = common_row_indexes(&enumerated_row_states, 5);

    assert_eq!(common_cells.len(), 1);
    assert_eq!(common_cells[0].0, 1);
    assert_eq!(common_cells[0].1, CellState::Filled);
}

#[test]
fn mod_common_row_indexes3() {
    let enumerated_row_states = enumerate_row_states(5, &[1, 3]);
    let common_cells = common_row_indexes(&enumerated_row_states, 5);

    assert_eq!(common_cells.len(), 5);
    assert_eq!(common_cells[0].0, 0);
    assert_eq!(common_cells[0].1, CellState::Filled);
    assert_eq!(common_cells[1].0, 1);
    assert_eq!(common_cells[1].1, CellState::Empty);
    assert_eq!(common_cells[2].0, 2);
    assert_eq!(common_cells[2].1, CellState::Filled);
    assert_eq!(common_cells[3].0, 3);
    assert_eq!(common_cells[3].1, CellState::Filled);
    assert_eq!(common_cells[4].0, 4);
    assert_eq!(common_cells[4].1, CellState::Filled);
}
