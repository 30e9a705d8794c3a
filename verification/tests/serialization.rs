use nonogram::Nonogram;

fn sample_puzzle() -> Nonogram {
    Nonogram {
        row_segments: vec![vec![], vec![1, 1], vec![], vec![1, 1], vec![]],
        column_segments: vec![vec![], vec![1, 1], vec![], vec![1, 1], vec![]],
        completed_grid: vec![
            vec![0, 0, 0, 0, 0],
            vec![0, 1, 0, 1, 0],
            vec![0, 0, 0, 0, 0],
            vec![0, 1, 0, 1, 0],
            vec![0, 0, 0, 0, 0],
        ],
    }
}

#[test]
fn serialize_canonical_document() {
    let puzzle = sample_puzzle();

    let serialized = "{\"checksum\":\"3087051523477295210\",\"height\":5,\"width\":5,\"row_segments\":[[],[1,1],[],[1,1],[]],\"column_segments\":[[],[1,1],[],[1,1],[]],\"completed_grid\":[[0,0,0,0,0],[0,1,0,1,0],[0,0,0,0,0],[0,1,0,1,0],[0,0,0,0,0]]}";

    assert_eq!(puzzle.as_json(), serialized);
}

#[test]
fn round_trip_reproduces_every_field() {
    let puzzle = sample_puzzle();

    let decoded = Nonogram::from_json(&puzzle.as_json()).unwrap();

    assert_eq!(decoded.row_segments, puzzle.row_segments);
    assert_eq!(decoded.column_segments, puzzle.column_segments);
    assert_eq!(decoded.completed_grid, puzzle.completed_grid);
    assert_eq!(decoded.height(), puzzle.height());
    assert_eq!(decoded.width(), puzzle.width());
}

#[test]
fn round_trip_of_generated_puzzle() {
    let puzzle = Nonogram::generate(6, 4);

    let decoded = Nonogram::from_json(&puzzle.as_json()).unwrap();

    assert_eq!(decoded.row_segments, puzzle.row_segments);
    assert_eq!(decoded.column_segments, puzzle.column_segments);
    assert_eq!(decoded.completed_grid, puzzle.completed_grid);
}

#[test]
fn reject_malformed_document() {
    let serialized = "{\"checksum\"\"3087051523477295210\",\"height\":5}";

    let err = Nonogram::from_json(serialized).unwrap_err();

    assert_eq!(err, "the document is not the canonical nonogram JSON object");
}

#[test]
fn reject_mismatched_grid_dimensions() {
    let serialized = "{\"checksum\":\"1\",\"height\":2,\"width\":3,\"row_segments\":[[],[]],\"column_segments\":[[],[],[]],\"completed_grid\":[[0,0,0],[0,0]]}";

    let err = Nonogram::from_json(serialized).unwrap_err();

    assert_eq!(err, "completed_grid does not form a height by width matrix");
}

#[test]
fn reject_wrong_row_count() {
    let serialized = "{\"checksum\":\"1\",\"height\":3,\"width\":2,\"row_segments\":[[],[],[]],\"column_segments\":[[],[]],\"completed_grid\":[[0,0],[0,0]]}";

    let err = Nonogram::from_json(serialized).unwrap_err();

    assert_eq!(err, "completed_grid does not form a height by width matrix");
}
