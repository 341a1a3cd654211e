use game_core::tile::Tile;
use game_core::water::groundwater::pass_groundwater;
use game_core::world::World;

#[test]
fn absorption_moves_surface_water_to_soil() {
    let mut w = World::new(4, 4, 4);
    w.set(1, 1, 0, Tile::Dirt);
    w.set_water_mass(1, 1, 1, 100);
    pass_groundwater(&mut w);
    assert!(w.soil_moisture(1, 1, 0) > 0, "Dirt should absorb water");
    assert!(w.water_mass(1, 1, 1) < 100, "Surface water should decrease");
}

#[test]
fn absorption_rate_varies_by_tile() {
    let mut w = World::new(4, 4, 4);
    w.set(0, 0, 0, Tile::Sand);
    w.set(1, 0, 0, Tile::Dirt);
    w.set_water_mass(0, 0, 1, 100);
    w.set_water_mass(1, 0, 1, 100);
    pass_groundwater(&mut w);
    let sand_absorbed = w.soil_moisture(0, 0, 0);
    let dirt_absorbed = w.soil_moisture(1, 0, 0);
    assert!(
        sand_absorbed > dirt_absorbed,
        "Sand ({}) should absorb faster than Dirt ({})",
        sand_absorbed,
        dirt_absorbed
    );
}

#[test]
fn stone_does_not_absorb() {
    let mut w = World::new(4, 4, 4);
    w.set(1, 1, 0, Tile::Stone);
    w.set_water_mass(1, 1, 1, 100);
    pass_groundwater(&mut w);
    assert_eq!(w.soil_moisture(1, 1, 0), 0);
    assert_eq!(w.water_mass(1, 1, 1), 100);
}

#[test]
fn absorption_respects_capacity() {
    let mut w = World::new(4, 4, 4);
    w.set(1, 1, 0, Tile::Sand);
    w.set_soil_moisture(1, 1, 0, 45);
    w.set_water_mass(1, 1, 1, 100);
    pass_groundwater(&mut w);
    assert!(
        w.soil_moisture(1, 1, 0) <= 48,
        "Should not exceed capacity: {}",
        w.soil_moisture(1, 1, 0)
    );
}

#[test]
fn gravity_moves_moisture_down() {
    let mut w = World::new(4, 4, 4);
    w.set(1, 1, 2, Tile::Dirt);
    w.set(1, 1, 1, Tile::Dirt);
    w.set_soil_moisture(1, 1, 2, 50);
    pass_groundwater(&mut w);
    assert!(w.soil_moisture(1, 1, 1) > 0, "Moisture should flow down");
}

#[test]
fn stone_blocks_underground_flow() {
    let mut w = World::new(4, 4, 4);
    w.set(1, 1, 2, Tile::Dirt);
    w.set(1, 1, 1, Tile::Stone);
    w.set(1, 1, 0, Tile::Dirt);
    w.set_soil_moisture(1, 1, 2, 50);
    pass_groundwater(&mut w);
    assert_eq!(w.soil_moisture(1, 1, 0), 0, "Stone should block flow");
}

#[test]
fn seepage_creates_surface_water() {
    let mut w = World::new(5, 5, 4);
    for x in 0..5 {
        for y in 0..5 {
            w.set(x, y, 0, Tile::Stone);
        }
    }
    w.set(2, 2, 1, Tile::Dirt);
    w.set_soil_moisture(2, 2, 1, 100);
    pass_groundwater(&mut w);
    let has_seepage = w.water_mass(1, 2, 1) > 0
        || w.water_mass(3, 2, 1) > 0
        || w.water_mass(2, 1, 1) > 0
        || w.water_mass(2, 3, 1) > 0
        || w.water_mass(2, 2, 2) > 0;
    assert!(has_seepage, "Moisture above threshold adjacent to Air should seep");
}

#[test]
fn seepage_requires_threshold() {
    let mut w = World::new(5, 5, 4);
    for x in 0..5 {
        for y in 0..5 {
            w.set(x, y, 0, Tile::Stone);
        }
    }
    w.set(2, 2, 1, Tile::Dirt);
    w.set_soil_moisture(2, 2, 1, 30);
    pass_groundwater(&mut w);
    let mut total_water: u16 = 0;
    for x in 0..5 {
        for y in 0..5 {
            for z in 0..4 {
                total_water += w.water_mass(x, y, z) as u16;
            }
        }
    }
    assert_eq!(total_water, 0, "Below threshold should not seep");
}

#[test]
fn horizontal_equalization_spreads_moisture() {
    let mut w = World::new(5, 5, 4);
    for x in 0..5 {
        for y in 0..5 {
            w.set(x, y, 0, Tile::Stone);
            w.set(x, y, 1, Tile::Dirt);
        }
    }
    w.set_soil_moisture(2, 2, 1, 100);
    pass_groundwater(&mut w);
    let mut total_neighbor: u16 = 0;
    for &(x, y) in [(1, 2), (3, 2), (2, 1), (2, 3)].iter() {
        total_neighbor += w.soil_moisture(x, y, 1) as u16;
    }
    assert!(total_neighbor > 0, "Moisture should spread horizontally");
}

// --- exact values ---

#[test]
fn absorption_moves_exactly_the_absorb_rate() {
    // Dirt absorbs 2 per pass, Sand 8, Grass 5 (walled so nothing else moves)
    for &(tile, rate) in [(Tile::Dirt, 2u8), (Tile::Sand, 8u8), (Tile::Grass, 5u8)].iter() {
        let mut w = World::new(1, 1, 3);
        w.set(0, 0, 0, tile);
        w.set_water_mass(0, 0, 1, 100);
        pass_groundwater(&mut w);
        assert_eq!(w.water_mass(0, 0, 1) as u16 + w.soil_moisture(0, 0, 0) as u16, 100);
        assert_eq!(w.water_mass(0, 0, 1), 100 - rate);
    }
}

#[test]
fn absorption_limited_by_surface_water() {
    let mut w = World::new(1, 1, 3);
    w.set(0, 0, 0, Tile::Sand);
    w.set_water_mass(0, 0, 1, 3);
    pass_groundwater(&mut w);
    assert_eq!(w.water_mass(0, 0, 1), 0);
    assert_eq!(w.soil_moisture(0, 0, 0), 3);
}

#[test]
fn groundwater_conserves_water_and_moisture() {
    let mut w = World::new(4, 4, 4);
    for x in 0..4 {
        for y in 0..4 {
            w.set(x, y, 0, Tile::Stone);
            w.set(x, y, 1, Tile::Dirt);
        }
    }
    w.set(1, 1, 1, Tile::Sand);
    w.set_soil_moisture(1, 1, 1, 40);
    w.set_soil_moisture(2, 2, 1, 90);
    w.set_water_mass(0, 0, 2, 60);
    w.set_water_mass(3, 2, 2, 200);
    let total = |w: &World| -> u32 {
        let mut t: u32 = 0;
        for x in 0..4 {
            for y in 0..4 {
                for z in 0..4 {
                    t += w.water_mass(x, y, z) as u32 + w.soil_moisture(x, y, z) as u32;
                }
            }
        }
        t
    };
    let before = total(&w);
    pass_groundwater(&mut w);
    assert_eq!(total(&w), before);
}

#[test]
fn soil_moisture_stays_within_capacity() {
    let mut w = World::new(4, 4, 4);
    for x in 0..4 {
        for y in 0..4 {
            w.set(x, y, 0, Tile::Stone);
            w.set(x, y, 1, if (x + y) % 2 == 0 { Tile::Sand } else { Tile::Dirt });
        }
    }
    w.set_soil_moisture(0, 0, 1, 48);
    w.set_soil_moisture(1, 0, 1, 128);
    for x in 0..4 {
        for y in 0..4 {
            w.set_water_mass(x, y, 2, 200);
        }
    }
    for _ in 0..30 {
        pass_groundwater(&mut w);
        for x in 0..4 {
            for y in 0..4 {
                for z in 0..4 {
                    let t = w.get(x, y, z);
                    assert!(w.soil_moisture(x, y, z) <= t.moisture_capacity());
                }
            }
        }
    }
}

#[test]
fn groundwater_keeps_tiles_sediment_and_dry_rock() {
    let mut w = World::new(3, 3, 3);
    for x in 0..3 {
        for y in 0..3 {
            w.set(x, y, 0, if x == 1 { Tile::Stone } else { Tile::Dirt });
        }
    }
    w.set_soil_moisture(0, 0, 0, 128);
    w.set_water_mass(1, 1, 1, 90);
    w.set_water_mass(0, 1, 1, 60);
    w.set_water_sediment(0, 1, 1, 3);
    let tiles: Vec<Tile> = w.tiles().to_vec();
    pass_groundwater(&mut w);
    assert_eq!(w.tiles().to_vec(), tiles);
    assert_eq!(w.water_sediment(0, 1, 1), 3);
    for y in 0..3 {
        assert_eq!(w.soil_moisture(1, y, 0), 0);
        assert!(w.soil_moisture(0, y, 0) <= 128);
    }
    for i in 0..w.water_mass_len() {
        assert_eq!(w.moisture_delta_at(i), 0);
    }
}

#[test]
fn groundwater_creates_no_water() {
    let mut w = World::new(4, 3, 4);
    for x in 0..4 {
        for y in 0..3 {
            w.set(x, y, 0, Tile::Stone);
            w.set(x, y, 1, if x % 2 == 0 { Tile::Grass } else { Tile::Sand });
        }
    }
    w.set(1, 1, 2, Tile::Dirt);
    w.set_soil_moisture(0, 0, 1, 160);
    w.set_soil_moisture(1, 0, 1, 48);
    w.set_soil_moisture(2, 1, 1, 100);
    w.set_water_mass(0, 1, 2, 200);
    w.set_water_mass(3, 2, 2, 90);
    w.set_water_mass(2, 2, 3, 40);
    let total = |w: &World| -> u32 {
        let mut t: u32 = 0;
        for i in 0..w.water_mass_len() {
            t += w.mass_at(i) as u32 + w.moisture_at(i) as u32;
        }
        t
    };
    let mut before = total(&w);
    for _ in 0..10 {
        pass_groundwater(&mut w);
        let after = total(&w);
        assert!(after <= before);
        before = after;
    }
}
