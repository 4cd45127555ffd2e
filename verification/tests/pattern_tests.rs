use productive_packer::pattern::{Pattern, PatternError};

#[test]
fn round_trip_reproduces_matrix() {
    let rows = vec![
        vec![true, false, true],
        vec![false, false, true],
        vec![true, true, false],
        vec![false, true, true],
    ];
    let p = Pattern::from_grid(&rows).unwrap();
    assert_eq!(p.width(), 3);
    assert_eq!(p.height(), 4);
    for y in 0..4u32 {
        for x in 0..3u32 {
            assert_eq!(p.get(x, y), rows[y as usize][x as usize]);
        }
    }
}

#[test]
fn ragged_rows_are_malformed() {
    let rows = vec![vec![true, true], vec![true], vec![true, true]];
    match Pattern::from_grid(&rows) {
        Ok(_) => panic!("ragged rows must not build a pattern"),
        Err(e) => assert_eq!(e, PatternError::MalformedPattern),
    }
}

#[test]
fn empty_matrix_builds() {
    let rows: Vec<Vec<bool>> = Vec::new();
    let p = Pattern::from_grid(&rows).unwrap();
    assert_eq!(p.width(), 0);
    assert_eq!(p.height(), 0);
}

#[test]
fn single_cell_pattern() {
    let p = Pattern::from_grid(&vec![vec![false]]).unwrap();
    assert_eq!(p.width(), 1);
    assert_eq!(p.height(), 1);
    assert!(!p.get(0, 0));
}
