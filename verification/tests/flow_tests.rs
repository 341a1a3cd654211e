use game_core::tile::Tile;
use game_core::water::flow::{calc_sediment_transfer, pass_flow_with_seed};
use game_core::world::World;

fn wall_all_but_column(w: &mut World) {
    for z in 0..4 {
        for x in 0..4 {
            for y in 0..4 {
                if x == 0 && y == 0 {
                    continue;
                }
                w.set(x, y, z, Tile::Stone);
            }
        }
    }
}

#[test]
fn gravity_water_falls_into_air() {
    let mut w = World::new(4, 4, 4);
    w.set(0, 0, 0, Tile::Stone);
    w.set_water_mass(0, 0, 2, 100);
    pass_flow_with_seed(&mut w, 0);
    assert_eq!(w.water_mass(0, 0, 1), 100);
    assert_eq!(w.water_mass(0, 0, 2), 0);
}

#[test]
fn gravity_fills_below_to_capacity() {
    let mut w = World::new(4, 4, 4);
    wall_all_but_column(&mut w);
    w.set(0, 0, 0, Tile::Stone);
    w.set_water_mass(0, 0, 1, 200);
    w.set_water_mass(0, 0, 2, 100);
    pass_flow_with_seed(&mut w, 0);
    assert_eq!(w.water_mass(0, 0, 1), 255);
    assert_eq!(w.water_mass(0, 0, 2), 45);
}

#[test]
fn gravity_stops_on_solid() {
    let mut w = World::new(4, 4, 4);
    wall_all_but_column(&mut w);
    w.set(0, 0, 0, Tile::Stone);
    w.set_water_mass(0, 0, 1, 100);
    pass_flow_with_seed(&mut w, 0);
    assert_eq!(w.water_mass(0, 0, 1), 100);
}

#[test]
fn horizontal_spread_equalizes() {
    let mut w = World::new(4, 4, 4);
    for x in 0..4 {
        for y in 0..4 {
            w.set(x, y, 0, Tile::Stone);
        }
    }
    w.set_water_mass(2, 2, 1, 200);
    pass_flow_with_seed(&mut w, 0);
    let center = w.water_mass(2, 2, 1);
    let mut total: u16 = 0;
    for x in 0..4 {
        for y in 0..4 {
            total += w.water_mass(x, y, 1) as u16;
        }
    }
    assert_eq!(total, 200);
    assert!(center < 200);
}

#[test]
fn spread_no_uphill_flow() {
    let mut w = World::new(5, 5, 3);
    for x in 0..5 {
        for y in 0..5 {
            for z in 0..3 {
                w.set(x, y, z, Tile::Stone);
            }
        }
    }
    w.set(1, 2, 1, Tile::Air);
    w.set(2, 2, 1, Tile::Air);
    w.set(3, 2, 1, Tile::Air);
    w.set_water_mass(1, 2, 1, 0);
    w.set_water_mass(2, 2, 1, 100);
    w.set_water_mass(3, 2, 1, 50);
    pass_flow_with_seed(&mut w, 0);
    let west = w.water_mass(1, 2, 1);
    let center = w.water_mass(2, 2, 1);
    let east = w.water_mass(3, 2, 1);
    assert!(
        east <= center,
        "East ({}) should not exceed center ({}) - uphill flow bug!",
        east,
        center
    );
    assert_eq!(
        west as u16 + center as u16 + east as u16,
        150,
        "Mass not conserved: west={} center={} east={}",
        west,
        center,
        east
    );
}

#[test]
fn pressure_pushes_up() {
    let mut w = World::new(4, 4, 4);
    for x in 0..4 {
        for y in 0..4 {
            for z in 0..4 {
                w.set(x, y, z, Tile::Stone);
            }
        }
    }
    w.set(1, 1, 1, Tile::Air);
    w.set(1, 1, 2, Tile::Air);
    w.set_water_mass(1, 1, 1, 200);
    let idx = w.index(1, 1, 1);
    w.set_mass_delta_at(idx, 100);
    pass_flow_with_seed(&mut w, 0);
    assert!(w.water_mass(1, 1, 2) > 0);
    assert!(w.water_mass(1, 1, 1) <= 255);
}

#[test]
fn source_fills_continuously() {
    let mut w = World::new(4, 4, 8);
    for x in 0..4 {
        for y in 0..4 {
            w.set(x, y, 0, Tile::Stone);
        }
    }
    w.add_source(2, 2, 1);
    for tick in 0..50u64 {
        pass_flow_with_seed(&mut w, tick);
        for &(sx, sy, sz) in w.sources().to_vec().iter() {
            let idx = w.index(sx, sy, sz);
            let m = w.mass_at(idx);
            w.set_mass_at(idx, m.saturating_add(50));
        }
    }
    let mut total: u32 = 0;
    for x in 0..4 {
        for y in 0..4 {
            for z in 0..8 {
                total += w.water_mass(x, y, z) as u32;
            }
        }
    }
    assert!(total > 255, "Should have significant water: {}", total);
}

#[test]
fn sediment_moves_with_water() {
    let mut w = World::new(4, 4, 4);
    w.set(0, 0, 0, Tile::Stone);
    w.set_water_mass(0, 0, 2, 200);
    w.set_water_sediment(0, 0, 2, 4);
    pass_flow_with_seed(&mut w, 0);
    assert!(w.water_sediment(0, 0, 1) > 0);
}

// --- sediment transfer arithmetic ---

#[test]
fn sediment_transfer_is_zero_without_sediment_or_mass() {
    assert_eq!(calc_sediment_transfer(0, 100, 200, 3, 7), 0);
    assert_eq!(calc_sediment_transfer(5, 100, 0, 3, 7), 0);
}

#[test]
fn sediment_transfer_exact_division_has_no_rounding() {
    // 4 * 100 / 200 = 2 exactly, whatever the roll
    for seed in 0..20u64 {
        assert_eq!(calc_sediment_transfer(4, 100, 200, 5, seed), 2);
    }
}

#[test]
fn sediment_transfer_rounds_between_floor_and_ceiling() {
    // 3 * 100 / 200 = 1.5: either 1 or 2 depending on the roll
    let mut seen_low = false;
    let mut seen_high = false;
    for seed in 0..200u64 {
        let r = calc_sediment_transfer(3, 100, 200, 9, seed);
        assert!(r == 1 || r == 2);
        if r == 1 {
            seen_low = true;
        } else {
            seen_high = true;
        }
    }
    assert!(seen_low && seen_high);
}

#[test]
fn flow_conserves_mass_in_closed_basin() {
    let mut w = World::new(4, 4, 4);
    for x in 0..4 {
        for y in 0..4 {
            w.set(x, y, 0, Tile::Stone);
        }
    }
    w.set_water_mass(1, 1, 2, 120);
    w.set_water_mass(2, 1, 1, 30);
    w.set_water_mass(3, 3, 1, 90);
    for seed in 0..10u64 {
        pass_flow_with_seed(&mut w, seed);
    }
    let mut total: u32 = 0;
    for x in 0..4 {
        for y in 0..4 {
            for z in 0..4 {
                total += w.water_mass(x, y, z) as u32;
            }
        }
    }
    assert_eq!(total, 240);
}

#[test]
fn flow_resets_outflow_of_dry_cell() {
    let mut w = World::new(1, 1, 1);
    w.set_outflow_at(0, 5);
    pass_flow_with_seed(&mut w, 0);
    assert_eq!(w.water_outflow(0), 0);
}

#[test]
fn flow_outflow_counts_this_tick_only() {
    let mut w = World::new(4, 4, 4);
    w.set(0, 0, 0, Tile::Stone);
    w.set_water_mass(0, 0, 2, 100);
    let src = w.index(0, 0, 2);
    w.set_outflow_at(src, 40000);
    pass_flow_with_seed(&mut w, 0);
    assert_eq!(w.water_outflow(src), 100);
    pass_flow_with_seed(&mut w, 1);
    assert_eq!(w.water_outflow(src), 0);
}

#[test]
fn flow_never_fills_a_solid_cell() {
    let mut w = World::new(3, 1, 2);
    w.set(0, 0, 0, Tile::Stone);
    w.set_water_mass(0, 0, 0, 50);
    pass_flow_with_seed(&mut w, 0);
    assert_eq!(w.water_mass(0, 0, 0), 25);
    assert_eq!(w.water_mass(1, 0, 0), 25);
    assert_eq!(w.water_mass(2, 0, 0), 0);
}

#[test]
fn flow_conserves_large_totals() {
    let mut w = World::new(4, 4, 4);
    for x in 0..4 {
        for y in 0..4 {
            w.set(x, y, 0, Tile::Stone);
        }
    }
    w.set_water_mass(1, 1, 1, 250);
    w.set_water_mass(1, 1, 2, 240);
    w.set_water_mass(2, 2, 3, 200);
    w.set_water_mass(3, 0, 1, 180);
    for seed in 0..8u64 {
        pass_flow_with_seed(&mut w, seed);
        let mut total: u32 = 0;
        for x in 0..4 {
            for y in 0..4 {
                for z in 0..4 {
                    total += w.water_mass(x, y, z) as u32;
                }
            }
        }
        assert_eq!(total, 870);
    }
}

#[test]
fn flow_outflow_stays_small() {
    let mut w = World::new(3, 3, 4);
    for x in 0..3 {
        for y in 0..3 {
            w.set(x, y, 0, Tile::Stone);
        }
    }
    w.set_water_mass(1, 1, 1, 255);
    w.set_water_mass(1, 1, 2, 255);
    w.set_water_mass(1, 1, 3, 255);
    w.set_water_mass(0, 0, 3, 200);
    for seed in 0..6u64 {
        pass_flow_with_seed(&mut w, seed);
        for i in 0..w.water_mass_len() {
            assert!(w.water_outflow(i) <= 510);
        }
    }
}
