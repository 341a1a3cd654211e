use game_core::tile::{FlowDir, Tile};
use game_core::world::World;

// --- the first world layout: tiles, export cache and sources ---

#[test]
fn world_world_new_creates_air_grid() {
    let world = World::new(4, 4, 8);
    assert_eq!(world.width(), 4);
    assert_eq!(world.depth(), 4);
    assert_eq!(world.height(), 8);
    assert_eq!(world.get(0, 0, 0), Tile::Air);
}

#[test]
fn world_world_set_and_get() {
    let mut world = World::new(4, 4, 8);
    world.set(1, 2, 3, Tile::Stone);
    assert_eq!(world.get(1, 2, 3), Tile::Stone);
    assert_eq!(world.get(0, 0, 0), Tile::Air);
}

#[test]
fn world_world_sync_cache_packs_correctly() {
    let mut world = World::new(4, 4, 8);
    world.set(0, 0, 0, Tile::Grass);
    world.set(
        1,
        0,
        0,
        Tile::Water {
            is_source: true,
            sediment: 0,
            velocity: 0,
            direction: FlowDir::East,
        },
    );
    world.sync_tiles_cache();
    assert_eq!(world.tiles_cache()[0], Tile::Grass.pack());
    assert_eq!(world.tiles_cache()[1] & 0x07, 5); // Water type
    assert_eq!((world.tiles_cache()[1] >> 6) & 1, 1); // is_source
}

#[test]
fn world_world_tiles_cache_ptr_and_len() {
    let world = World::new(4, 4, 8);
    assert_eq!(world.tiles_cache_len(), 4 * 4 * 8);
    assert!(!world.tiles_cache().as_ptr().is_null());
}

#[test]
fn world_world_tiles_mut_allows_modification() {
    let mut world = World::new(4, 4, 8);
    world.tiles_mut()[0] = Tile::Stone;
    assert_eq!(world.get(0, 0, 0), Tile::Stone);
}

// --- the world with its water, moisture and atmosphere layers ---

#[test]
fn mod_world_new_creates_air_grid() {
    let world = World::new(4, 4, 8);
    assert_eq!(world.width(), 4);
    assert_eq!(world.depth(), 4);
    assert_eq!(world.height(), 8);
    assert_eq!(world.get(0, 0, 0), Tile::Air);
}

#[test]
fn mod_world_set_and_get() {
    let mut world = World::new(4, 4, 8);
    world.set(1, 2, 3, Tile::Stone);
    assert_eq!(world.get(1, 2, 3), Tile::Stone);
    assert_eq!(world.get(0, 0, 0), Tile::Air);
}

#[test]
fn mod_world_sync_cache_packs_correctly() {
    let mut world = World::new(4, 4, 8);
    world.set(0, 0, 0, Tile::Grass);
    world.set(1, 0, 0, Tile::Stone);
    world.sync_tiles_cache();
    assert_eq!(world.tiles_cache()[0], Tile::Grass.pack());
    assert_eq!(world.tiles_cache()[1], Tile::Stone.pack());
}

#[test]
fn mod_world_tiles_cache_ptr_and_len() {
    let world = World::new(4, 4, 8);
    assert_eq!(world.tiles_cache_len(), 4 * 4 * 8);
    assert!(!world.tiles_cache().as_ptr().is_null());
}

#[test]
fn mod_world_tiles_mut_allows_modification() {
    let mut world = World::new(4, 4, 8);
    world.tiles_mut()[0] = Tile::Stone;
    assert_eq!(world.get(0, 0, 0), Tile::Stone);
}

#[test]
fn water_mass_set_and_get() {
    let mut w = World::new(4, 4, 4);
    w.set_water_mass(1, 1, 1, 100);
    assert_eq!(w.water_mass(1, 1, 1), 100);
    assert_eq!(w.water_mass(0, 0, 0), 0);
}

#[test]
fn record_flow_updates_deltas() {
    let mut w = World::new(4, 4, 4);
    w.set_water_mass(0, 0, 0, 200);
    let from = w.index(0, 0, 0);
    let to = w.index(1, 0, 0);
    w.record_flow(from, to, 50, 0);
    assert_eq!(w.mass_delta_ref()[from], -50);
    assert_eq!(w.mass_delta_ref()[to], 50);
}

#[test]
fn apply_deltas_clamps_and_resets() {
    let mut w = World::new(4, 4, 4);
    w.set_water_mass(0, 0, 0, 200);
    let idx = w.index(0, 0, 0);
    w.set_mass_delta_at(idx, 100); // would exceed 255
    w.apply_water_deltas();
    assert_eq!(w.water_mass(0, 0, 0), 255); // clamped
    assert_eq!(w.mass_delta_ref()[idx], 0); // reset
}

#[test]
fn soil_moisture_set_and_get() {
    let mut w = World::new(4, 4, 4);
    w.set(1, 1, 1, Tile::Dirt);
    w.set_soil_moisture(1, 1, 1, 50);
    assert_eq!(w.soil_moisture(1, 1, 1), 50);
    assert_eq!(w.soil_moisture(0, 0, 0), 0);
}

#[test]
fn apply_moisture_deltas_clamps_to_capacity() {
    let mut w = World::new(4, 4, 4);
    w.set(0, 0, 0, Tile::Sand); // capacity = 48
    w.set_moisture_at(0, 40);
    w.set_moisture_delta_at(0, 100); // would exceed 48
    w.apply_moisture_deltas();
    assert_eq!(w.soil_moisture(0, 0, 0), 48); // clamped
    assert_eq!(w.moisture_delta_at(0), 0); // reset
}

#[test]
fn apply_moisture_deltas_clamps_to_zero() {
    let mut w = World::new(4, 4, 4);
    w.set(0, 0, 0, Tile::Dirt);
    w.set_moisture_at(0, 10);
    w.set_moisture_delta_at(0, -50);
    w.apply_moisture_deltas();
    assert_eq!(w.soil_moisture(0, 0, 0), 0);
}

#[test]
fn world_new_has_empty_weather_state() {
    let w = World::new(4, 4, 4);
    assert_eq!(w.atmospheric_moisture(), 0);
}

// --- further checks ---

#[test]
fn index_layout_is_x_then_y_then_z() {
    let w = World::new(4, 3, 2);
    assert_eq!(w.index(0, 0, 0), 0);
    assert_eq!(w.index(3, 0, 0), 3);
    assert_eq!(w.index(0, 1, 0), 4);
    assert_eq!(w.index(1, 2, 1), 1 + 2 * 4 + 12);
    assert!(w.in_bounds(3, 2, 1));
    assert!(!w.in_bounds(4, 0, 0));
    assert!(!w.in_bounds(0, 3, 0));
    assert!(!w.in_bounds(0, 0, 2));
}

#[test]
fn record_flow_with_sediment_and_outflow() {
    let mut w = World::new(4, 4, 4);
    let from = w.index(1, 1, 1);
    let to = w.index(1, 1, 0);
    w.record_flow(from, to, 30, 2);
    w.record_flow(from, to, 20, 0);
    assert_eq!(w.mass_delta_at(from), -50);
    assert_eq!(w.mass_delta_at(to), 50);
    assert_eq!(w.water_outflow(from), 50);
    assert_eq!(w.water_outflow(to), 0);
    assert_eq!(w.sediment_delta_at(from), -2);
    assert_eq!(w.sediment_delta_at(to), 2);
    w.clear_outflow();
    assert_eq!(w.water_outflow(from), 0);
}

#[test]
fn apply_deltas_clamps_to_zero_and_applies_sediment() {
    let mut w = World::new(2, 2, 2);
    w.set_water_mass(0, 0, 0, 10);
    w.set_mass_delta_at(0, -40);
    w.set_water_sediment(1, 0, 0, 3);
    w.record_flow(2, 1, 0, 4);
    w.apply_water_deltas();
    assert_eq!(w.water_mass(0, 0, 0), 0);
    assert_eq!(w.water_sediment(1, 0, 0), 7);
    assert_eq!(w.sediment_at(2), 0);
    assert_eq!(w.sediment_delta_at(1), 0);
}

#[test]
fn sources_add_and_clear() {
    let mut w = World::new(2, 2, 2);
    w.add_source(1, 1, 1);
    w.add_source(0, 1, 0);
    assert_eq!(w.sources(), &[(1, 1, 1), (0, 1, 0)]);
    assert_eq!(w.sources_vec(), vec![(1, 1, 1), (0, 1, 0)]);
    w.clear_sources();
    assert!(w.sources().is_empty());
}

#[test]
fn layer_lengths_and_atmosphere() {
    let mut w = World::new(3, 2, 5);
    assert_eq!(w.water_mass_len(), 30);
    assert_eq!(w.soil_moisture_len(), 30);
    assert_eq!(w.tiles().len(), 30);
    w.set_atmospheric_moisture(1234);
    assert_eq!(w.atmospheric_moisture(), 1234);
}
