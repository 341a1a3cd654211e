use game_core::tile::{FlowDir, Tile};
use game_core::water::erosion::{pass_erosion_with_seed, water_depth_above};
use game_core::water::source::pass_source;
use game_core::water::spread::{pass_spread, pick_target};
use game_core::world::World;

// --- sources ---

#[test]
fn source_replenishes_when_empty() {
    let mut world = World::new(4, 4, 4);
    let sources = vec![(1, 1, 2)];
    // Source position is Air (water moved away)
    pass_source(&mut world, &sources);
    assert!(world.get(1, 1, 2).is_water());
    if let Tile::Water { is_source, .. } = world.get(1, 1, 2) {
        assert!(is_source);
    }
}

#[test]
fn source_does_not_overwrite_solid() {
    let mut world = World::new(4, 4, 4);
    world.set(1, 1, 2, Tile::Stone);
    let sources = vec![(1, 1, 2)];
    pass_source(&mut world, &sources);
    assert_eq!(world.get(1, 1, 2), Tile::Stone); // not overwritten
}

#[test]
fn source_does_not_overwrite_existing_water() {
    let mut world = World::new(4, 4, 4);
    world.set(1, 1, 2, Tile::water_default());
    let sources = vec![(1, 1, 2)];
    pass_source(&mut world, &sources);
    // Should mark as source
    if let Tile::Water { is_source, .. } = world.get(1, 1, 2) {
        assert!(is_source);
    }
}

#[test]
fn source_keeps_water_state() {
    let mut world = World::new(2, 2, 2);
    world.set(0, 1, 1, Tile::Water { is_source: false, sediment: 4, velocity: 2, direction: FlowDir::North });
    pass_source(&mut world, &[(0, 1, 1), (1, 1, 1)]);
    assert_eq!(
        world.get(0, 1, 1),
        Tile::Water { is_source: true, sediment: 4, velocity: 2, direction: FlowDir::North }
    );
    assert_eq!(world.get(1, 1, 1), Tile::water_source());
}

// --- spread ---

#[test]
fn single_water_block_stays_put() {
    // A single water block without pressure should not spread
    let mut world = World::new(4, 4, 4);
    world.set(1, 1, 0, Tile::Stone);
    world.set(1, 1, 1, Tile::water_default());
    pass_spread(&mut world);
    assert!(world.get(1, 1, 1).is_water());
}

#[test]
fn pressured_water_spreads() {
    // 2+ stacked water blocks: bottom one spreads due to pressure
    let mut world = World::new(4, 4, 4);
    world.set(1, 1, 0, Tile::Stone);
    world.set(1, 1, 1, Tile::water_default()); // bottom
    world.set(1, 1, 2, Tile::water_default()); // top (pressure)
    pass_spread(&mut world);
    // Bottom water should have spread to a neighbor
    let has_neighbor_water = world.get(0, 1, 1).is_water()
        || world.get(2, 1, 1).is_water()
        || world.get(1, 0, 1).is_water()
        || world.get(1, 2, 1).is_water();
    assert!(has_neighbor_water);
}

#[test]
fn source_water_emits_to_neighbor() {
    // Source always emits regardless of pressure
    let mut world = World::new(4, 4, 4);
    world.set(1, 1, 0, Tile::Stone);
    world.set(1, 1, 1, Tile::water_source());
    pass_spread(&mut world);
    assert!(world.get(1, 1, 1).is_water());
    if let Tile::Water { is_source, .. } = world.get(1, 1, 1) {
        assert!(is_source);
    }
    let has_neighbor_water = world.get(0, 1, 1).is_water()
        || world.get(2, 1, 1).is_water()
        || world.get(1, 0, 1).is_water()
        || world.get(1, 2, 1).is_water();
    assert!(has_neighbor_water);
}

#[test]
fn pick_target_prefers_drops_and_momentum() {
    let mut world = World::new(3, 3, 2);
    for x in 0..3 {
        for y in 0..3 {
            world.set(x, y, 0, Tile::Stone);
        }
    }
    // only the east neighbor has a drop below it
    world.set(2, 1, 0, Tile::Air);
    assert_eq!(pick_target(&world, 1, 1, 1, FlowDir::Down), Some((FlowDir::East, 2, 1)));
    assert_eq!(pick_target(&world, 1, 1, 1, FlowDir::Still), Some((FlowDir::East, 2, 1)));
    // moving west: straight ahead wins over the drop
    assert_eq!(pick_target(&world, 1, 1, 1, FlowDir::West), Some((FlowDir::West, 0, 1)));
    // no drop: landing water takes the first neighbor (north); stagnant water stays
    world.set(2, 1, 0, Tile::Stone);
    assert_eq!(pick_target(&world, 1, 1, 1, FlowDir::Down), Some((FlowDir::North, 1, 0)));
    assert_eq!(pick_target(&world, 1, 1, 1, FlowDir::Still), None);
    assert_eq!(pick_target(&world, 0, 0, 1, FlowDir::North), None);
}

#[test]
fn unpressured_water_becomes_stagnant() {
    let mut world = World::new(3, 1, 2);
    world.set(1, 0, 0, Tile::Stone);
    world.set(1, 0, 1, Tile::Water { is_source: false, sediment: 1, velocity: 4, direction: FlowDir::East });
    pass_spread(&mut world);
    assert_eq!(
        world.get(1, 0, 1),
        Tile::Water { is_source: false, sediment: 1, velocity: 0, direction: FlowDir::Still }
    );
}

// --- tile erosion ---

#[test]
fn no_pressure_no_erosion() {
    let mut world = World::new(4, 4, 4);
    world.set(1, 1, 0, Tile::Dirt);
    world.set(1, 1, 1, Tile::water_default());
    // Single water block, no water above → no pressure
    for seed in 0..100u64 {
        let mut w = World::new(4, 4, 4);
        w.set(1, 1, 0, Tile::Dirt);
        w.set(1, 1, 1, Tile::water_default());
        pass_erosion_with_seed(&mut w, seed);
        assert_eq!(w.get(1, 1, 0), Tile::Dirt);
    }
}

#[test]
fn pressure_causes_erosion() {
    // Stack water 3 high for pressure=2 on the bottom cell → 20% chance
    let mut eroded = false;
    for seed in 0..100u64 {
        let mut w = World::new(4, 4, 6);
        w.set(1, 1, 0, Tile::Dirt);
        w.set(1, 1, 1, Tile::water_default());
        w.set(1, 1, 2, Tile::water_default());
        w.set(1, 1, 3, Tile::water_default());
        pass_erosion_with_seed(&mut w, seed);
        if w.get(1, 1, 0).is_air() {
            eroded = true;
            break;
        }
    }
    assert!(eroded, "Should erode at least once in 100 attempts with pressure=2");
}

#[test]
fn stone_never_erodes() {
    let mut world = World::new(4, 4, 6);
    for seed in 0..100u64 {
        let mut w = World::new(4, 4, 6);
        w.set(1, 1, 0, Tile::Stone);
        w.set(1, 1, 1, Tile::water_default());
        w.set(1, 1, 2, Tile::water_default());
        w.set(1, 1, 3, Tile::water_default());
        pass_erosion_with_seed(&mut w, seed);
        assert_eq!(w.get(1, 1, 0), Tile::Stone);
    }
    world.set(0, 0, 0, Tile::Stone);
}

#[test]
fn sediment_deposits_below() {
    let mut world = World::new(4, 4, 4);
    world.set(
        1,
        1,
        1,
        Tile::Water {
            is_source: false,
            sediment: 3,
            velocity: 0,
            direction: FlowDir::Still,
        },
    );
    // Air below at z=0 and no pressure → should deposit
    pass_erosion_with_seed(&mut world, 0);
    assert_eq!(world.get(1, 1, 0), Tile::Sand);
    if let Tile::Water { sediment, .. } = world.get(1, 1, 1) {
        assert_eq!(sediment, 2);
    }
}

#[test]
fn water_depth_counts_column_above() {
    let mut w = World::new(1, 1, 6);
    w.set(0, 0, 1, Tile::water_default());
    w.set(0, 0, 2, Tile::water_default());
    w.set(0, 0, 4, Tile::water_default());
    assert_eq!(water_depth_above(&w, 0, 0, 0), 2);
    assert_eq!(water_depth_above(&w, 0, 0, 2), 0);
    assert_eq!(water_depth_above(&w, 0, 0, 3), 1);
    assert_eq!(water_depth_above(&w, 0, 0, 5), 0);
}

#[test]
fn source_pass_twice_changes_nothing() {
    let mut w = World::new(3, 3, 3);
    w.set(1, 1, 0, Tile::Stone);
    w.set(2, 1, 1, Tile::water_default());
    let sources = vec![(0, 0, 1), (1, 1, 0), (2, 1, 1), (0, 0, 1)];
    pass_source(&mut w, &sources);
    let once: Vec<Tile> = w.tiles().to_vec();
    pass_source(&mut w, &sources);
    assert_eq!(w.tiles().to_vec(), once);
    assert_eq!(w.get(0, 0, 1), Tile::water_source());
    assert_eq!(w.get(1, 1, 0), Tile::Stone);
}

#[test]
fn tile_erosion_keeps_water_tiles() {
    for seed in 0..50u64 {
        let mut w = World::new(3, 3, 5);
        for x in 0..3 {
            for y in 0..3 {
                w.set(x, y, 0, Tile::Dirt);
                w.set(x, y, 1, Tile::Grass);
            }
        }
        for z in 2..5 {
            w.set(1, 1, z, Tile::water_default());
        }
        w.set(0, 1, 2, Tile::water_default());
        let before: Vec<bool> = w.tiles().iter().map(|t| matches!(t, Tile::Water { .. })).collect();
        pass_erosion_with_seed(&mut w, seed);
        let after: Vec<bool> = w.tiles().iter().map(|t| matches!(t, Tile::Water { .. })).collect();
        assert_eq!(before, after);
        // the lone water cell at (0, 1, 2) has nothing above it: the Grass under it stays
        assert_eq!(w.get(0, 1, 1), Tile::Grass);
    }
}
