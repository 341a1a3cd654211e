use game_core::tile::Tile;
use game_core::water::mass_erosion::{count_water_above, erosion_multiplier, pass_erosion_with_seed};
use game_core::world::World;

#[test]
fn erosion_erodes_erodible_below_water() {
    let mut w = World::new(4, 4, 4);
    w.set(1, 1, 0, Tile::Dirt);
    w.set_water_mass(1, 1, 1, 200);
    let idx = w.index(1, 1, 1);
    w.set_outflow_at(idx, 1000);
    pass_erosion_with_seed(&mut w, 0);
    let idx = w.index(1, 1, 1);
    if w.get(1, 1, 0) == Tile::Air {
        assert!(w.sediment_at(idx) > 0);
    }
}

#[test]
fn erosion_does_not_erode_stone() {
    let mut w = World::new(4, 4, 4);
    w.set(1, 1, 0, Tile::Stone);
    w.set_water_mass(1, 1, 1, 200);
    let idx = w.index(1, 1, 1);
    w.set_outflow_at(idx, 1000);
    pass_erosion_with_seed(&mut w, 0);
    assert_eq!(w.get(1, 1, 0), Tile::Stone);
}

#[test]
fn deposition_places_sand_and_displaces_water_up() {
    for seed in 0..30u64 {
        let mut w = World::new(4, 4, 4);
        w.set(1, 1, 0, Tile::Stone);
        w.set_water_mass(1, 1, 1, 100);
        let idx = w.index(1, 1, 1);
        w.set_sediment_at(idx, 7);
        w.set_outflow_at(idx, 0);
        pass_erosion_with_seed(&mut w, seed);
        if w.get(1, 1, 1) == Tile::Sand {
            assert_eq!(w.water_mass(1, 1, 1), 0, "water should be cleared from sand cell");
            assert!(w.water_mass(1, 1, 2) > 0, "water should move to z+1");
            assert_eq!(w.sediment_at(idx), 0, "sediment cleared from sand cell");
            return;
        }
    }
    panic!("Deposition should occur within 30 tries at 60% chance per try");
}

#[test]
fn damp_soil_resists_erosion() {
    let mut eroded_dry = 0u32;
    let mut eroded_wet = 0u32;
    for i in 0..100u64 {
        let mut w = World::new(4, 4, 4);
        w.set(1, 1, 0, Tile::Dirt);
        w.set_water_mass(1, 1, 1, 200);
        let idx = w.index(1, 1, 1);
        w.set_outflow_at(idx, 500);
        pass_erosion_with_seed(&mut w, 2 * i);
        if w.get(1, 1, 0) == Tile::Air {
            eroded_dry += 1;
        }

        let mut w2 = World::new(4, 4, 4);
        w2.set(1, 1, 0, Tile::Dirt);
        w2.set_soil_moisture(1, 1, 0, 64);
        w2.set_water_mass(1, 1, 1, 200);
        let idx2 = w2.index(1, 1, 1);
        w2.set_outflow_at(idx2, 500);
        pass_erosion_with_seed(&mut w2, 2 * i + 1);
        if w2.get(1, 1, 0) == Tile::Air {
            eroded_wet += 1;
        }
    }
    assert!(
        eroded_wet < eroded_dry,
        "Damp soil ({}) should erode less than dry ({})",
        eroded_wet,
        eroded_dry
    );
}

#[test]
fn saturated_soil_erodes_faster() {
    // The multiplier is a percentage: 100 means unchanged.
    let mult_dry = erosion_multiplier(0, 128) as f64 / 100.0;
    let mult_damp = erosion_multiplier(64, 128) as f64 / 100.0;
    let mult_sat = erosion_multiplier(120, 128) as f64 / 100.0;
    assert!((mult_dry - 1.0).abs() < 0.01);
    assert!(mult_damp < 1.0);
    assert!(mult_sat > 1.0);
}

#[test]
fn deposition_skips_when_above_is_solid() {
    let mut w = World::new(4, 4, 4);
    w.set(1, 1, 0, Tile::Stone);
    w.set(1, 1, 2, Tile::Stone);
    w.set_water_mass(1, 1, 1, 100);
    let idx = w.index(1, 1, 1);
    w.set_sediment_at(idx, 3);
    w.set_outflow_at(idx, 0);
    pass_erosion_with_seed(&mut w, 0);
    assert!(w.get(1, 1, 1).is_air(), "should remain Air, not Sand");
    assert_eq!(w.water_mass(1, 1, 1), 100, "water should be untouched");
    assert_eq!(w.sediment_at(idx), 3, "sediment should be untouched");
}

#[test]
fn deposition_bounce_up_conserves_water() {
    for seed in 0..30u64 {
        let mut w = World::new(4, 4, 8);
        w.set(1, 1, 0, Tile::Stone);
        w.set_water_mass(1, 1, 1, 100);
        w.set_water_mass(1, 1, 2, 255);
        let idx = w.index(1, 1, 1);
        w.set_sediment_at(idx, 7);
        w.set_outflow_at(idx, 0);

        let mut total_before: u16 = 0;
        for z in 0..8 {
            total_before += w.water_mass(1, 1, z) as u16 + w.soil_moisture(1, 1, z) as u16;
        }

        pass_erosion_with_seed(&mut w, seed);

        let mut total_after: u16 = 0;
        for z in 0..8 {
            total_after += w.water_mass(1, 1, z) as u16 + w.soil_moisture(1, 1, z) as u16;
        }

        if w.get(1, 1, 1) == Tile::Sand {
            assert_eq!(
                total_before, total_after,
                "Water+moisture must be conserved: before={} after={}",
                total_before, total_after
            );
            assert!(w.water_mass(1, 1, 3) > 0, "Overflow should reach z=3");
            return;
        }
    }
    panic!("Deposition should occur within 30 tries");
}

#[test]
fn deposition_cancels_when_column_full() {
    let mut w = World::new(4, 4, 4);
    w.set(1, 1, 0, Tile::Stone);
    w.set_water_mass(1, 1, 1, 100);
    w.set_water_mass(1, 1, 2, 255);
    w.set_water_mass(1, 1, 3, 255);
    let idx = w.index(1, 1, 1);
    w.set_sediment_at(idx, 7);
    w.set_outflow_at(idx, 0);
    pass_erosion_with_seed(&mut w, 0);
    assert!(w.get(1, 1, 1).is_air(), "should remain Air");
    assert_eq!(w.water_mass(1, 1, 1), 100, "water untouched");
}

#[test]
fn deposition_consumes_one_sediment() {
    for seed in 0..30u64 {
        let mut w = World::new(4, 4, 8);
        w.set(1, 1, 0, Tile::Stone);
        w.set_water_mass(1, 1, 1, 100);
        let idx = w.index(1, 1, 1);
        w.set_sediment_at(idx, 5);
        w.set_outflow_at(idx, 0);

        let mut total_before: u32 = 0;
        for z in 0..8 {
            total_before += w.water_sediment(1, 1, z) as u32;
        }

        pass_erosion_with_seed(&mut w, seed);

        if w.get(1, 1, 1) == Tile::Sand {
            let mut total_after: u32 = 0;
            for z in 0..8 {
                total_after += w.water_sediment(1, 1, z) as u32;
            }
            assert_eq!(
                total_before - total_after,
                1,
                "Deposition should consume exactly 1 sediment: before={} after={}",
                total_before,
                total_after
            );
            return;
        }
    }
    panic!("Deposition should occur within 30 tries");
}

#[test]
fn deposition_sets_soil_moisture() {
    for seed in 0..30u64 {
        let mut w = World::new(4, 4, 4);
        w.set(1, 1, 0, Tile::Stone);
        w.set_water_mass(1, 1, 1, 100);
        let idx = w.index(1, 1, 1);
        w.set_sediment_at(idx, 7);
        w.set_outflow_at(idx, 0);
        pass_erosion_with_seed(&mut w, seed);
        if w.get(1, 1, 1) == Tile::Sand {
            assert_eq!(
                w.soil_moisture(1, 1, 1),
                Tile::Sand.moisture_capacity(),
                "Deposited sand should be saturated"
            );
            return;
        }
    }
    panic!("Deposition should occur within 30 tries");
}

// --- helpers with exact values ---

#[test]
fn erosion_multiplier_exact_percentages() {
    assert_eq!(erosion_multiplier(0, 128), 100);
    assert_eq!(erosion_multiplier(10, 0), 100);
    assert_eq!(erosion_multiplier(64, 128), 40);
    // 102 / 128 < 0.8, 103 / 128 >= 0.8
    assert_eq!(erosion_multiplier(102, 128), 40);
    assert_eq!(erosion_multiplier(103, 128), 180);
    assert_eq!(erosion_multiplier(128, 128), 180);
}

#[test]
fn count_water_above_stops_at_first_dry_cell() {
    let mut w = World::new(2, 2, 6);
    w.set_water_mass(0, 0, 1, 10);
    w.set_water_mass(0, 0, 2, 10);
    w.set_water_mass(0, 0, 4, 10);
    assert_eq!(count_water_above(&w, 0, 0, 0), 2);
    assert_eq!(count_water_above(&w, 0, 0, 2), 0);
    assert_eq!(count_water_above(&w, 0, 0, 3), 1);
    assert_eq!(count_water_above(&w, 0, 0, 5), 0);
}

#[test]
fn erosion_without_flow_or_pressure_leaves_soil() {
    let mut w = World::new(3, 3, 3);
    w.set(1, 1, 0, Tile::Dirt);
    w.set_water_mass(1, 1, 1, 200);
    for seed in 0..50u64 {
        pass_erosion_with_seed(&mut w, seed);
        assert_eq!(w.get(1, 1, 0), Tile::Dirt);
    }
}

#[test]
fn mass_erosion_turns_tiles_only_into_air_or_sand() {
    for seed in 0..40u64 {
        let mut w = World::new(3, 3, 5);
        for x in 0..3 {
            for y in 0..3 {
                w.set(x, y, 0, Tile::Stone);
                w.set(x, y, 1, if (x + y) % 2 == 0 { Tile::Dirt } else { Tile::Grass });
            }
        }
        w.set(2, 2, 1, Tile::Stone);
        for x in 0..3 {
            for y in 0..3 {
                w.set_water_mass(x, y, 2, 200);
                w.set_water_mass(x, y, 3, 150);
                let idx = w.index(x, y, 2);
                w.set_outflow_at(idx, 400);
            }
        }
        let before: Vec<Tile> = w.tiles().to_vec();
        let masses: Vec<u8> = w.water_mass_layer().to_vec();
        pass_erosion_with_seed(&mut w, seed);
        let layer = 9;
        for (i, t) in w.tiles().iter().enumerate() {
            let old = before[i];
            assert!(*t == old || *t == Tile::Air || *t == Tile::Sand);
            if *t == Tile::Air && old != Tile::Air {
                assert!(matches!(old, Tile::Grass | Tile::Dirt | Tile::Sand));
                assert!(i + layer < masses.len() && masses[i + layer] > 0);
            }
        }
        assert_eq!(w.get(2, 2, 1), Tile::Stone);
    }
}
