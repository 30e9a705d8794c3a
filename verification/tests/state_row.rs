use nonogram::solution::CellState;
use nonogram::state_row::StateRow;

#[test]
fn row_is_known_false1() {
    let row = StateRow(vec![CellState::Unknown; 5]);

    assert!(!row.is_known());
}

#[test]
fn row_is_known_false2() {
    let row = StateRow(vec![
        CellState::Unknown,
        CellState::Filled,
        CellState::Unknown,
        CellState::Empty,
        CellState::Unknown,
    ]);

    assert!(!row.is_known());
}

#[test]
fn row_is_known_true() {
    let row = StateRow(vec![
        CellState::Filled,
        CellState::Filled,
        CellState::Filled,
        CellState::Empty,
        CellState::Filled,
    ]);

    assert!(row.is_known());
}

#[test]
fn new_w_appended_seg_no_trailing_unknown() {
    let row = StateRow(vec![
        CellState::Filled,
        CellState::Filled,
        CellState::Filled,
        CellState::Empty,
        CellState::Unknown,
    ]);

    let expected = StateRow(vec![
        CellState::Filled,
        CellState::Filled,
        CellState::Filled,
        CellState::Empty,
        CellState::Filled,
    ]);

    assert_eq!(row.new_w_appended_seg(&[3, 1]).unwrap(), expected);
}

#[test]
fn new_w_appended_seg_with_trailing_unknown() {
    let row = StateRow(vec![
        CellState::Filled,
        CellState::Filled,
        CellState::Filled,
        CellState::Unknown,
        CellState::Unknown,
    ]);

    let expected = StateRow(vec![
        CellState::Filled,
        CellState::Filled,
        CellState::Filled,
        CellState::Empty,
        CellState::Filled,
    ]);

    assert_eq!(row.new_w_appended_seg(&[3, 1]).unwrap(), expected);
}

#[test]
fn new_w_appended_seg_segments_exhausted() {
    let row = StateRow(vec![
        CellState::Filled,
        CellState::Empty,
        CellState::Filled,
        CellState::Unknown,
        CellState::Unknown,
    ]);

    assert!(row.new_w_appended_seg(&[1, 1]).is_none());
}

#[test]
fn new_w_appended_zero_usable_space_remaining() {
    let row = StateRow(vec![
        CellState::Filled,
        CellState::Unknown,
        CellState::Unknown,
        CellState::Unknown,
        CellState::Unknown,
    ]);

    let expected = StateRow(vec![
        CellState::Filled,
        CellState::Empty,
        CellState::Unknown,
        CellState::Unknown,
        CellState::Unknown,
    ]);

    assert_eq!(row.new_w_appended_zero(&[1, 1]).unwrap(), expected);
}

#[test]
fn new_w_appended_zero_no_usable_space() {
    let row = StateRow(vec![
        CellState::Filled,
        CellState::Unknown,
        CellState::Unknown,
        CellState::Unknown,
        CellState::Unknown,
    ]);

    assert!(row.new_w_appended_zero(&[1, 3]).is_none());
}

#[test]
fn state_at_index_in_bounds() {
    let row = StateRow(vec![
        CellState::Filled,
        CellState::Filled,
        CellState::Empty,
        CellState::Filled,
        CellState::Unknown,
    ]);

    assert_eq!(row.state_at_index(2).unwrap(), CellState::Empty);
    assert_eq!(row.state_at_index(3).unwrap(), CellState::Filled);
    assert_eq!(row.state_at_index(4).unwrap(), CellState::Unknown);
}

#[test]
fn state_at_index_out_of_bounds() {
    let row = StateRow(vec![
        CellState::Filled,
        CellState::Filled,
        CellState::Empty,
        CellState::Filled,
        CellState::Unknown,
    ]);

    assert!(row.state_at_index(5).is_none());
}
