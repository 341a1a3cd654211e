use game_core::tile::Tile;
use game_core::water::mass_evaporation::{is_source_exec, pass_evaporation_with_seed};
use game_core::world::World;

fn evaporate(w: &mut World, seed: u64) {
    let sources = w.sources_vec();
    pass_evaporation_with_seed(w, &sources, seed);
}

#[test]
fn evaporation_reduces_mass_over_time() {
    let mut w = World::new(4, 4, 4);
    w.set(1, 1, 0, Tile::Stone);
    w.set_water_mass(1, 1, 1, 100);
    for seed in 0..100u64 {
        evaporate(&mut w, seed);
    }
    assert!(w.water_mass(1, 1, 1) < 100, "Some water should have evaporated");
}

#[test]
fn evaporation_leaves_sand_when_dry_with_sediment() {
    let mut w = World::new(4, 4, 4);
    w.set(1, 1, 0, Tile::Stone);
    w.set_water_mass(1, 1, 1, 1);
    let idx = w.index(1, 1, 1);
    w.set_sediment_at(idx, 2);
    for seed in 0..1000u64 {
        evaporate(&mut w, seed);
        if w.water_mass(1, 1, 1) == 0 {
            break;
        }
    }
    if w.water_mass(1, 1, 1) == 0 {
        assert_eq!(w.get(1, 1, 1), Tile::Sand);
        assert_eq!(w.sediment_at(idx), 0);
    }
}

#[test]
fn evaporation_feeds_atmospheric_moisture() {
    let mut w = World::new(4, 4, 4);
    w.set(1, 1, 0, Tile::Stone);
    w.set_water_mass(1, 1, 1, 100);
    let initial_moisture = w.atmospheric_moisture();
    for seed in 0..200u64 {
        evaporate(&mut w, seed);
    }
    assert!(
        w.atmospheric_moisture() > initial_moisture,
        "Atmospheric moisture should increase from evaporation"
    );
}

#[test]
fn deep_water_evaporates_slower() {
    let mut shallow = World::new(4, 4, 8);
    shallow.set(1, 1, 0, Tile::Stone);
    shallow.set_water_mass(1, 1, 1, 255);

    let mut deep = World::new(4, 4, 8);
    deep.set(1, 1, 0, Tile::Stone);
    for z in 1..=5 {
        deep.set_water_mass(1, 1, z, 255);
    }

    for i in 0..200u64 {
        evaporate(&mut shallow, 2 * i);
        evaporate(&mut deep, 2 * i + 1);
    }

    let shallow_lost = 255 - shallow.water_mass(1, 1, 1);
    let deep_top_lost = 255 - deep.water_mass(1, 1, 5);
    assert!(
        deep_top_lost < shallow_lost,
        "Deep water surface ({}) should evaporate less than shallow ({})",
        deep_top_lost,
        shallow_lost
    );
}

// --- conservation and sources ---

#[test]
fn evaporation_conserves_water_and_atmosphere() {
    let mut w = World::new(3, 3, 4);
    w.set_water_mass(0, 0, 0, 40);
    w.set_water_mass(1, 1, 0, 200);
    w.set_water_mass(1, 1, 1, 30);
    w.set_water_mass(2, 0, 2, 7);
    w.set_atmospheric_moisture(5);
    let total = |w: &World| -> u32 {
        let mut t = w.atmospheric_moisture();
        for x in 0..3 {
            for y in 0..3 {
                for z in 0..4 {
                    t += w.water_mass(x, y, z) as u32;
                }
            }
        }
        t
    };
    let before = total(&w);
    for seed in 0..300u64 {
        evaporate(&mut w, seed);
        assert_eq!(total(&w), before);
    }
    assert!(w.atmospheric_moisture() > 5);
}

#[test]
fn source_cells_do_not_evaporate() {
    let mut w = World::new(3, 3, 3);
    w.set(1, 1, 0, Tile::Stone);
    w.add_source(1, 1, 1);
    w.set_water_mass(1, 1, 1, 100);
    for seed in 0..300u64 {
        evaporate(&mut w, seed);
    }
    assert_eq!(w.water_mass(1, 1, 1), 100);
    assert_eq!(w.atmospheric_moisture(), 0);
}

#[test]
fn is_source_exec_finds_listed_positions() {
    let sources = vec![(1, 2, 3), (4, 5, 6)];
    assert!(is_source_exec(&sources, 4, 5, 6));
    assert!(!is_source_exec(&sources, 1, 2, 4));
    assert!(!is_source_exec(&[], 0, 0, 0));
}

#[test]
fn evaporation_changes_each_cell_by_little() {
    for seed in 0..60u64 {
        let mut w = World::new(3, 2, 4);
        w.set(0, 0, 0, Tile::Stone);
        w.set_water_mass(0, 0, 1, 200);
        w.set_water_mass(0, 0, 2, 7);
        w.set_water_mass(1, 0, 1, 3);
        w.set_water_mass(2, 1, 0, 120);
        let idx = w.index(1, 0, 1);
        w.set_sediment_at(idx, 4);
        let before: Vec<u8> = w.water_mass_layer().to_vec();
        evaporate(&mut w, seed);
        let after: Vec<u8> = w.water_mass_layer().to_vec();
        for i in 0..before.len() {
            assert!(after[i] <= before[i]);
            assert!(after[i] as i32 >= before[i] as i32 - 10);
        }
        // covered by water above: keeps its mass
        assert_eq!(w.water_mass(0, 0, 1), 200);
        if w.water_mass(1, 0, 1) == 0 {
            assert_eq!(w.get(1, 0, 1), Tile::Sand);
            assert_eq!(w.sediment_at(idx), 0);
        }
    }
}
