use game_core::tile::Tile;
use game_core::water::weather::{
    cloud_water_after, find_top_exposed_z, rain_drop, rain_drops, take_cloud_water, CLOUD_THRESHOLD,
    CLOUD_WATER, DROPS_PER_TICK, MAX_CLOUDS, RAIN_MASS_PER_DROP,
};
use game_core::water::{replenish_sources, tick, tick_mass};
use game_core::world::World;

#[test]
fn cloud_spawn_requires_threshold() {
    let mut w = World::new(8, 8, 4);
    w.set_atmospheric_moisture(CLOUD_THRESHOLD - 1);
    let formed = take_cloud_water(&mut w, 0);
    assert!(!formed, "Should not spawn below threshold");
    assert_eq!(w.atmospheric_moisture(), CLOUD_THRESHOLD - 1);
}

#[test]
fn cloud_spawn_at_threshold() {
    let mut w = World::new(8, 8, 4);
    w.set_atmospheric_moisture(CLOUD_THRESHOLD);
    let formed = take_cloud_water(&mut w, 0);
    assert!(formed, "Should spawn one cloud");
    assert_eq!(
        w.atmospheric_moisture(),
        CLOUD_THRESHOLD - CLOUD_WATER,
        "Should deduct CLOUD_WATER"
    );
}

#[test]
fn cloud_spawn_respects_max() {
    let mut w = World::new(8, 8, 4);
    w.set_atmospheric_moisture(CLOUD_THRESHOLD * 10);
    let mut clouds: usize = 0;
    for _ in 0..MAX_CLOUDS + 2 {
        if take_cloud_water(&mut w, clouds) {
            clouds += 1;
        }
    }
    assert_eq!(clouds, MAX_CLOUDS, "Should not exceed MAX_CLOUDS");
    assert_eq!(
        w.atmospheric_moisture(),
        CLOUD_THRESHOLD * 10 - CLOUD_WATER * MAX_CLOUDS as u32
    );
}

#[test]
fn rain_drops_caps_at_drops_per_tick() {
    assert_eq!(rain_drops(8000), DROPS_PER_TICK);
    assert_eq!(rain_drops(4), 2);
    assert_eq!(rain_drops(5), 2);
    assert_eq!(rain_drops(1), 0);
    assert_eq!(cloud_water_after(4, rain_drops(4)), 0);
    assert_eq!(cloud_water_after(8000, 3), 8000 - 3 * RAIN_MASS_PER_DROP as u32);
    assert_eq!(cloud_water_after(5, 3), 0);
}

#[test]
fn rain_lands_on_top_exposed_cell() {
    let mut w = World::new(4, 4, 5);
    w.set(1, 1, 0, Tile::Stone);
    w.set(1, 1, 1, Tile::Dirt);
    assert_eq!(find_top_exposed_z(&w, 1, 1), 2);
    assert_eq!(find_top_exposed_z(&w, 0, 0), 0);
    w.set(2, 2, 4, Tile::Stone);
    assert_eq!(find_top_exposed_z(&w, 2, 2), 4);
    assert!(rain_drop(&mut w, 1, 1));
    assert_eq!(w.water_mass(1, 1, 2), RAIN_MASS_PER_DROP);
    assert!(!rain_drop(&mut w, -1, 1));
    assert!(!rain_drop(&mut w, 1, 4));
}

#[test]
fn rain_saturates_at_full_cell() {
    let mut w = World::new(2, 2, 3);
    w.set(0, 0, 0, Tile::Stone);
    w.set_water_mass(0, 0, 1, 254);
    assert_eq!(find_top_exposed_z(&w, 0, 0), 2);
    w.set_water_mass(0, 0, 2, 254);
    // the top layer has water: rain lands in it
    assert_eq!(find_top_exposed_z(&w, 0, 0), 2);
    rain_drop(&mut w, 0, 0);
    assert_eq!(w.water_mass(0, 0, 2), 255);
}

#[test]
fn tick_mass_source_produces_flowing_water() {
    let mut world = World::new(8, 8, 8);
    for x in 0..8 {
        for y in 0..8 {
            world.set(x, y, 0, Tile::Stone);
        }
    }
    world.add_source(4, 4, 1);
    world.set_water_mass(4, 4, 1, 255);

    for seed in 0..100u64 {
        tick_mass(&mut world, seed, seed, seed);
    }

    let mut total: u32 = 0;
    for x in 0..8 {
        for y in 0..8 {
            for z in 0..8 {
                total += world.water_mass(x, y, z) as u32;
            }
        }
    }
    assert!(total > 500, "Total water should be significant: {}", total);

    let distant_water = world.water_mass(0, 4, 1) as u16 + world.water_mass(4, 0, 1) as u16;
    assert!(distant_water > 0, "Water should reach distant cells");
}

#[test]
fn tick_moves_water_down() {
    let mut world = World::new(4, 4, 8);
    world.set(0, 0, 0, Tile::Stone);
    for z in 0..8 {
        for x in 0..4 {
            for y in 0..4 {
                if x == 0 && y == 0 {
                    continue;
                }
                world.set(x, y, z, Tile::Stone);
            }
        }
    }
    world.set(0, 0, 4, Tile::water_default());
    world.set(0, 0, 5, Tile::water_default());
    world.set(0, 0, 6, Tile::water_default());
    tick(&mut world, 0, 0);
    assert!(world.get(0, 0, 1).is_water());
    assert!(world.get(0, 0, 2).is_water());
}

#[test]
fn replenish_sources_adds_saturating() {
    let mut world = World::new(3, 3, 3);
    world.set_water_mass(1, 1, 1, 230);
    let sources = vec![(1, 1, 1), (0, 0, 0)];
    replenish_sources(&mut world, &sources, 50);
    assert_eq!(world.water_mass(1, 1, 1), 255);
    assert_eq!(world.water_mass(0, 0, 0), 50);
}

#[test]
fn tick_mass_syncs_tile_cache() {
    let mut world = World::new(3, 3, 3);
    world.set(1, 1, 0, Tile::Stone);
    tick_mass(&mut world, 0, 0, 0);
    let idx = world.index(1, 1, 0);
    assert_eq!(world.tiles_cache()[idx], Tile::Stone.pack());
}

#[test]
fn tick_mass_seeds_each_pass_with_its_own_seed() {
    let build = || {
        let mut world = World::new(4, 4, 4);
        for x in 0..4 {
            for y in 0..4 {
                world.set(x, y, 0, Tile::Dirt);
            }
        }
        world.set_water_mass(1, 1, 2, 200);
        world.set_water_mass(2, 1, 1, 90);
        let idx = world.index(1, 1, 2);
        world.set_sediment_at(idx, 5);
        world.add_source(3, 3, 1);
        world
    };
    let mut ticked = build();
    tick_mass(&mut ticked, 7, 11, 13);
    let mut by_hand = build();
    game_core::world::gravity::pass_gravity(&mut by_hand);
    game_core::water::flow::pass_flow_with_seed(&mut by_hand, 7);
    let sources = by_hand.sources_vec();
    replenish_sources(&mut by_hand, &sources, 50);
    game_core::water::mass_erosion::pass_erosion_with_seed(&mut by_hand, 11);
    game_core::water::mass_evaporation::pass_evaporation_with_seed(&mut by_hand, &sources, 13);
    by_hand.sync_tiles_cache();
    assert_eq!(ticked.tiles().to_vec(), by_hand.tiles().to_vec());
    assert_eq!(ticked.water_mass_layer().to_vec(), by_hand.water_mass_layer().to_vec());
    assert_eq!(ticked.atmospheric_moisture(), by_hand.atmospheric_moisture());
}
