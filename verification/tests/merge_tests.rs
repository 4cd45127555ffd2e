use productive_packer::grid::{Grid, GridRegistry, GridRole, Occupant};
use productive_packer::merge::MergeError;
use productive_packer::pattern::Pattern;
use productive_packer::picking::PickableTilemap;

fn all_true(w: usize, h: usize) -> Pattern {
    Pattern::from_grid(&vec![vec![true; w]; h]).unwrap()
}

/// A 2x2 piece (id 1) holding occupants 100..104, and a 5x5 package (id 2)
/// with an all-true pattern and empty storage.
fn piece_and_package() -> GridRegistry {
    let mut reg = GridRegistry::new();
    let mut piece = Grid::new(
        1,
        2,
        2,
        GridRole::Piece,
        Some(all_true(2, 2)),
        PickableTilemap::new(true, 0),
        None,
    );
    piece.fill_all(100);
    reg.add(piece);
    let package = Grid::new(
        2,
        5,
        5,
        GridRole::Package,
        Some(all_true(5, 5)),
        PickableTilemap::new(false, -1),
        None,
    );
    reg.add(package);
    reg
}

fn occupant_cells(g: &Grid) -> Vec<(u32, u32, u64)> {
    let mut out = Vec::new();
    for y in 0..g.height() {
        for x in 0..g.width() {
            if let Some(e) = g.get_occupant(x, y) {
                out.push((x, y, e));
            }
        }
    }
    out
}

#[test]
fn scenario_zero_offset_commits_all_four() {
    let mut reg = piece_and_package();
    let moves = reg.drop_merge(1, 2, Some((0, 0)), Some((0, 0))).unwrap();
    assert_eq!(moves.len(), 4);
    let src = reg.grid(reg.find(1).unwrap());
    let dst = reg.grid(reg.find(2).unwrap());
    assert!(occupant_cells(src).is_empty());
    let cells = occupant_cells(dst);
    assert_eq!(cells.len(), 4);
    assert_eq!(dst.get_occupant(0, 0), Some(100));
    assert_eq!(dst.get_occupant(1, 0), Some(101));
    assert_eq!(dst.get_occupant(0, 1), Some(102));
    assert_eq!(dst.get_occupant(1, 1), Some(103));
}

#[test]
fn scenario_overlap_on_wanted_cell_rejects_unchanged() {
    // Same piece as scenario A, with an occupant already at (3, 3) of the
    // package and the pattern true there.
    let mut reg = GridRegistry::new();
    let mut piece = Grid::new(
        1,
        2,
        2,
        GridRole::Piece,
        Some(all_true(2, 2)),
        PickableTilemap::new(true, 0),
        None,
    );
    piece.fill_all(100);
    reg.add(piece);
    let mut package = Grid::new(
        2,
        5,
        5,
        GridRole::Package,
        Some(all_true(5, 5)),
        PickableTilemap::new(false, -1),
        None,
    );
    package.set_occupant(3, 3, 999);
    reg.add(package);

    let err = reg
        .drop_merge(1, 2, Some((0, 0)), Some((3, 3)))
        .unwrap_err();
    assert_eq!(err, MergeError::OverlapRejected);
    let src = reg.grid(reg.find(1).unwrap());
    let dst = reg.grid(reg.find(2).unwrap());
    assert_eq!(occupant_cells(src).len(), 4);
    assert_eq!(src.get_occupant(0, 0), Some(100));
    assert_eq!(occupant_cells(dst), vec![(3, 3, 999)]);
}

#[test]
fn scenario_out_of_bounds_rejects_unchanged() {
    let mut reg = piece_and_package();
    // delta (4, 0): source column 1 maps to x = 5 >= destination width.
    let err = reg
        .drop_merge(1, 2, Some((0, 0)), Some((4, 0)))
        .unwrap_err();
    assert_eq!(err, MergeError::OutOfBoundsMerge);
    let src = reg.grid(reg.find(1).unwrap());
    let dst = reg.grid(reg.find(2).unwrap());
    assert_eq!(occupant_cells(src).len(), 4);
    assert!(occupant_cells(dst).is_empty());
}

#[test]
fn overlap_on_unwanted_cell_commits_and_overwrites() {
    // The rejection rule couples source-occupied, destination-occupied and
    // pattern-true: where the pattern does not want the cell, the merge
    // commits and the translated occupant replaces the old one.
    let mut reg = GridRegistry::new();
    let mut piece = Grid::new(
        1,
        2,
        2,
        GridRole::Piece,
        Some(all_true(2, 2)),
        PickableTilemap::new(true, 0),
        None,
    );
    piece.fill_all(100);
    reg.add(piece);
    let mut rows = vec![vec![true; 5]; 5];
    rows[3][3] = false;
    let mut package = Grid::new(
        2,
        5,
        5,
        GridRole::Package,
        Some(Pattern::from_grid(&rows).unwrap()),
        PickableTilemap::new(false, -1),
        None,
    );
    package.set_occupant(3, 3, 999);
    reg.add(package);

    let moves = reg.drop_merge(1, 2, Some((0, 0)), Some((3, 3))).unwrap();
    assert_eq!(moves.len(), 4);
    let dst = reg.grid(reg.find(2).unwrap());
    assert_eq!(dst.get_occupant(3, 3), Some(100));
    assert_eq!(occupant_cells(dst).len(), 4);
}

#[test]
fn moves_report_each_relocation_in_row_major_order() {
    let mut reg = piece_and_package();
    let moves = reg.drop_merge(1, 2, Some((0, 0)), Some((2, 1))).unwrap();
    let expected = [
        (100u64, (0u32, 0u32), (2u32, 1u32)),
        (101, (1, 0), (3, 1)),
        (102, (0, 1), (2, 2)),
        (103, (1, 1), (3, 2)),
    ];
    assert_eq!(moves.len(), expected.len());
    for (m, e) in moves.iter().zip(expected.iter()) {
        assert_eq!(m.occupant, e.0);
        assert_eq!(m.source, e.1);
        assert_eq!(m.dest, e.2);
    }
}

#[test]
fn same_identifier_fails_resolution() {
    let mut reg = piece_and_package();
    let err = reg.drop_merge(1, 1, Some((0, 0)), Some((0, 0))).unwrap_err();
    assert_eq!(err, MergeError::IdentityResolutionFailure);
}

#[test]
fn unknown_identifier_fails_resolution() {
    let mut reg = piece_and_package();
    let err = reg.drop_merge(1, 9, Some((0, 0)), Some((0, 0))).unwrap_err();
    assert_eq!(err, MergeError::IdentityResolutionFailure);
}

#[test]
fn dropping_onto_a_piece_fails_resolution() {
    let mut reg = piece_and_package();
    let mut other = Grid::new(
        3,
        2,
        2,
        GridRole::Piece,
        Some(all_true(2, 2)),
        PickableTilemap::new(true, 0),
        None,
    );
    other.fill_all(200);
    reg.add(other);
    let err = reg.drop_merge(1, 3, Some((0, 0)), Some((0, 0))).unwrap_err();
    assert_eq!(err, MergeError::IdentityResolutionFailure);
}

#[test]
fn missing_tile_is_unresolvable() {
    let mut reg = piece_and_package();
    let err = reg.drop_merge(1, 2, None, Some((0, 0))).unwrap_err();
    assert_eq!(err, MergeError::UnresolvableDropPoint);
    let err = reg.drop_merge(1, 2, Some((0, 0)), None).unwrap_err();
    assert_eq!(err, MergeError::UnresolvableDropPoint);
}

#[test]
fn tile_outside_extent_is_unresolvable() {
    let mut reg = piece_and_package();
    let err = reg.drop_merge(1, 2, Some((2, 0)), Some((0, 0))).unwrap_err();
    assert_eq!(err, MergeError::UnresolvableDropPoint);
    let err = reg.drop_merge(1, 2, Some((0, 0)), Some((0, 5))).unwrap_err();
    assert_eq!(err, MergeError::UnresolvableDropPoint);
}

#[test]
fn fill_all_numbers_cells_row_major() {
    let mut g = Grid::new(
        5,
        3,
        2,
        GridRole::Plain,
        None,
        PickableTilemap::new(false, 0),
        None,
    );
    g.fill_all(50);
    assert_eq!(g.get_occupant(0, 0), Some(50));
    assert_eq!(g.get_occupant(2, 0), Some(52));
    assert_eq!(g.get_occupant(0, 1), Some(53));
    assert_eq!(g.get_occupant(2, 1), Some(55));
}

#[test]
fn remove_occupant_empties_the_cell() {
    let mut g = Grid::new(
        5,
        2,
        2,
        GridRole::Plain,
        None,
        PickableTilemap::new(false, 0),
        None,
    );
    g.set_occupant(1, 0, 8);
    assert_eq!(g.get_occupant(1, 0), Some(8));
    g.remove_occupant(1, 0);
    assert_eq!(g.get_occupant(1, 0), None);
}

#[test]
fn reassign_updates_all_three_fields() {
    let mut occ = Occupant {
        owning_grid: 1,
        position: (0, 0),
        previous_position: (0, 0),
    };
    occ.reassign(2, (3, 4));
    assert_eq!(occ.owning_grid, 2);
    assert_eq!(occ.position, (3, 4));
    assert_eq!(occ.previous_position, (3, 4));
}

#[test]
fn set_priority_changes_only_priority() {
    let mut g = Grid::new(
        5,
        2,
        2,
        GridRole::Piece,
        None,
        PickableTilemap::new(true, 0),
        None,
    );
    g.set_priority(i32::MIN);
    assert_eq!(g.pick().priority, i32::MIN);
    assert!(g.pick().occupied_only);
    g.set_priority(0);
    assert_eq!(g.pick().priority, 0);
}
