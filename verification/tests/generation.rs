use nonogram::Nonogram;

#[test]
fn generation_random_generation_works() {
    let puzzle1 = Nonogram::generate(15, 15);
    let puzzle2 = Nonogram::generate(15, 15);
    let puzzle3 = Nonogram::generate(15, 15);

    assert_ne!(puzzle1.generate_checksum(), puzzle2.generate_checksum());
    assert_ne!(puzzle2.generate_checksum(), puzzle3.generate_checksum());
    assert_ne!(puzzle1.generate_checksum(), puzzle3.generate_checksum());
}

#[test]
fn mismatched_dimensions_work() {
    let puzzle1 = Nonogram::generate(5, 10).solvable();
    let puzzle2 = Nonogram::generate(15, 5).solvable();
    let puzzle3 = Nonogram::generate(10, 20).solvable();

    assert!(puzzle1 || !puzzle1);
    assert!(puzzle2 || !puzzle2);
    assert!(puzzle3 || !puzzle3);
}

#[test]
fn generation_detects_not_solvable() {
    let puzzle = Nonogram {
        row_segments: vec![vec![], vec![1], vec![], vec![1], vec![]],
        column_segments: vec![vec![], vec![1], vec![], vec![1], vec![]],
        completed_grid: vec![
            vec![0, 0, 0, 0, 0],
            vec![0, 1, 0, 0, 0],
            vec![0, 0, 0, 0, 0],
            vec![0, 0, 0, 1, 0],
            vec![0, 0, 0, 0, 0],
        ],
    };

    assert!(!puzzle.solvable())
}

#[test]
fn generation_detects_solvable() {
    let puzzle = Nonogram {
        row_segments: vec![vec![], vec![1, 1], vec![], vec![1, 1], vec![]],
        column_segments: vec![vec![], vec![1, 1], vec![], vec![1, 1], vec![]],
        completed_grid: vec![
            vec![0, 0, 0, 0, 0],
            vec![0, 1, 0, 1, 0],
            vec![0, 0, 0, 0, 0],
            vec![0, 1, 0, 1, 0],
            vec![0, 0, 0, 0, 0],
        ],
    };

    assert!(puzzle.solvable())
}

#[test]
fn generated_puzzles_have_requested_shape() {
    let puzzle = Nonogram::generate(7, 4);

    assert_eq!(puzzle.height(), 4);
    assert_eq!(puzzle.width(), 7);
    assert_eq!(puzzle.row_segments.len(), 4);
    assert_eq!(puzzle.column_segments.len(), 7);
    for row in &puzzle.completed_grid {
        assert_eq!(row.len(), 7);
        assert!(row.iter().all(|c| *c == 0 || *c == 1));
    }
}

#[test]
fn checksum_matches_known_value() {
    let puzzle = Nonogram {
        row_segments: vec![vec![], vec![1, 1], vec![], vec![1, 1], vec![]],
        column_segments: vec![vec![], vec![1, 1], vec![], vec![1, 1], vec![]],
        completed_grid: vec![
            vec![0, 0, 0, 0, 0],
            vec![0, 1, 0, 1, 0],
            vec![0, 0, 0, 0, 0],
            vec![0, 1, 0, 1, 0],
            vec![0, 0, 0, 0, 0],
        ],
    };

    assert_eq!(puzzle.generate_checksum(), 3087051523477295210);
}

#[test]
fn equality_goes_by_dimensions_and_checksum() {
    let a = Nonogram {
        row_segments: vec![vec![1]],
        column_segments: vec![vec![], vec![1]],
        completed_grid: vec![vec![0, 1]],
    };
    let b = Nonogram {
        row_segments: vec![vec![1]],
        column_segments: vec![vec![], vec![1]],
        completed_grid: vec![vec![0, 1]],
    };
    let c = Nonogram {
        row_segments: vec![vec![1]],
        column_segments: vec![vec![1], vec![]],
        completed_grid: vec![vec![1, 0]],
    };

    assert!(a == b);
    assert!(a != c);
}
