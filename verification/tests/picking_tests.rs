use productive_packer::grid::{Grid, GridRegistry, GridRole};
use productive_packer::picking::{compute_hits, update_hits, PickableTilemap, RayProbes};

fn registry_of_two(priority_a: i32, priority_b: i32) -> GridRegistry {
    let mut reg = GridRegistry::new();
    reg.add(Grid::new(
        10,
        4,
        4,
        GridRole::Plain,
        None,
        PickableTilemap::new(false, priority_a),
        None,
    ));
    reg.add(Grid::new(
        11,
        4,
        4,
        GridRole::Plain,
        None,
        PickableTilemap::new(false, priority_b),
        None,
    ));
    reg
}

#[test]
fn pickable_tilemap_new_keeps_settings() {
    let p = PickableTilemap::new(true, -7);
    assert!(p.occupied_only);
    assert_eq!(p.priority, -7);
}

#[test]
fn grazing_ray_yields_no_hit_but_other_grid_still_hits() {
    // The first grid's probe is absent (ray parallel to its plane); the
    // second, non-grazing grid still produces its hit in the same batch.
    let reg = registry_of_two(0, 0);
    let probes = vec![None, Some((2u32, 2u32))];
    let hits = compute_hits(&reg, &probes);
    assert_eq!(hits.len(), 1);
    assert_eq!(hits[0].grid, 11);
    assert_eq!(hits[0].tile, (2, 2));
}

#[test]
fn larger_priority_comes_first() {
    let reg = registry_of_two(-1, 5);
    let probes = vec![Some((1u32, 1u32)), Some((1u32, 1u32))];
    let hits = compute_hits(&reg, &probes);
    assert_eq!(hits.len(), 2);
    assert_eq!(hits[0].grid, 11);
    assert_eq!(hits[0].depth, -5);
    assert_eq!(hits[1].grid, 10);
    assert_eq!(hits[1].depth, 1);
}

#[test]
fn equal_priorities_keep_registry_order() {
    let reg = registry_of_two(3, 3);
    let probes = vec![Some((0u32, 0u32)), Some((3u32, 3u32))];
    let hits = compute_hits(&reg, &probes);
    assert_eq!(hits.len(), 2);
    assert_eq!(hits[0].grid, 10);
    assert_eq!(hits[1].grid, 11);
}

#[test]
fn extreme_priority_boost_orders_last() {
    // A dragged piece dropped to the extreme minimum priority sorts after
    // everything else, letting the ray reach the package beneath it.
    let reg = registry_of_two(i32::MIN, 0);
    let probes = vec![Some((1u32, 0u32)), Some((1u32, 0u32))];
    let hits = compute_hits(&reg, &probes);
    assert_eq!(hits.len(), 2);
    assert_eq!(hits[0].grid, 11);
    assert_eq!(hits[1].grid, 10);
    assert_eq!(hits[1].depth, -(i32::MIN as i64));
}

#[test]
fn occupied_only_filters_empty_cells() {
    let mut reg = GridRegistry::new();
    let mut g = Grid::new(
        7,
        2,
        2,
        GridRole::Piece,
        None,
        PickableTilemap::new(true, 0),
        None,
    );
    g.set_occupant(1, 1, 42);
    reg.add(g);
    let empty_cell = vec![Some((0u32, 0u32))];
    assert_eq!(compute_hits(&reg, &empty_cell).len(), 0);
    let full_cell = vec![Some((1u32, 1u32))];
    let hits = compute_hits(&reg, &full_cell);
    assert_eq!(hits.len(), 1);
    assert_eq!(hits[0].grid, 7);
}

#[test]
fn ray_falls_through_empty_upper_cell_to_grid_beneath() {
    // An occupancy-filtered piece hovers over a package: where the piece's
    // cell is empty the ray reaches the package alone; where it is occupied
    // the piece wins by its larger priority.
    let mut reg = GridRegistry::new();
    let mut piece = Grid::new(
        1,
        2,
        2,
        GridRole::Piece,
        None,
        PickableTilemap::new(true, 5),
        None,
    );
    piece.set_occupant(0, 0, 42);
    reg.add(piece);
    reg.add(Grid::new(
        2,
        5,
        5,
        GridRole::Package,
        None,
        PickableTilemap::new(false, -1),
        None,
    ));
    let over_empty = vec![Some((1u32, 1u32)), Some((2u32, 2u32))];
    let hits = compute_hits(&reg, &over_empty);
    assert_eq!(hits.len(), 1);
    assert_eq!(hits[0].grid, 2);
    let over_occupied = vec![Some((0u32, 0u32)), Some((2u32, 2u32))];
    let hits = compute_hits(&reg, &over_occupied);
    assert_eq!(hits.len(), 2);
    assert_eq!(hits[0].grid, 1);
    assert_eq!(hits[1].grid, 2);
}

#[test]
fn out_of_extent_probe_yields_no_hit() {
    let reg = registry_of_two(0, 0);
    let probes = vec![Some((9u32, 0u32)), None];
    assert_eq!(compute_hits(&reg, &probes).len(), 0);
}

#[test]
fn picking_is_deterministic_across_invocations() {
    let reg = registry_of_two(2, 8);
    let probes = vec![Some((1u32, 2u32)), Some((3u32, 0u32))];
    let first = compute_hits(&reg, &probes);
    let second = compute_hits(&reg, &probes);
    assert_eq!(first, second);
}

#[test]
fn update_hits_drops_empty_batches() {
    let reg = registry_of_two(1, 2);
    let rays = vec![
        RayProbes {
            camera: 1,
            pointer: 1,
            probes: vec![None, None],
        },
        RayProbes {
            camera: 1,
            pointer: 2,
            probes: vec![Some((0u32, 0u32)), None],
        },
    ];
    let batches = update_hits(&reg, &rays);
    assert_eq!(batches.len(), 1);
    assert_eq!(batches[0].camera, 1);
    assert_eq!(batches[0].pointer, 2);
    assert_eq!(batches[0].hits.len(), 1);
    assert_eq!(batches[0].hits[0].grid, 10);
}
