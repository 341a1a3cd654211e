use game_core::render::{TileType, WaterCell};
use game_core::water::cellular::{CellularWaterSimulator, TerrainCell, WaterState};

fn make_terrain(w: usize, d: usize, h: usize) -> Vec<TerrainCell> {
    vec![TerrainCell::new(TileType::Air); w * d * h]
}

fn set_terrain(terrain: &mut [TerrainCell], w: usize, d: usize, x: usize, y: usize, z: usize, tile: TileType) {
    terrain[x + y * w + z * w * d] = TerrainCell::new(tile);
}

#[test]
fn water_falls_down() {
    let (w, d, h) = (4, 4, 4);
    let mut state = WaterState::new(w, d, h);
    let mut terrain = make_terrain(w, d, h);
    let mut sim = CellularWaterSimulator::new();

    state.set(1, 1, 3, WaterCell { level: 8, is_source: false, sediment: 0 });
    sim.tick(&mut state, &mut terrain);

    assert_eq!(state.get(1, 1, 3).level, 0, "원래 위치는 비어야 함");
    assert_eq!(state.get(1, 1, 2).level, 8, "아래로 이동해야 함");
}

#[test]
fn cellular_water_stops_on_solid() {
    let (w, d, h) = (4, 4, 4);
    let mut state = WaterState::new(w, d, h);
    let mut terrain = make_terrain(w, d, h);
    let mut sim = CellularWaterSimulator::new();

    set_terrain(&mut terrain, w, d, 1, 1, 0, TileType::Stone);
    state.set(1, 1, 1, WaterCell { level: 8, is_source: false, sediment: 0 });
    sim.tick(&mut state, &mut terrain);

    assert_eq!(state.get(1, 1, 0).level, 0, "고체 블록에는 물이 없어야 함");
    assert!(state.get(1, 1, 1).level > 0, "고체 위에 물이 남아야 함");
}

#[test]
fn water_spreads_horizontally() {
    let (w, d, h) = (4, 4, 4);
    let mut state = WaterState::new(w, d, h);
    let mut terrain = make_terrain(w, d, h);
    let mut sim = CellularWaterSimulator::new();

    for y in 0..d {
        for x in 0..w {
            set_terrain(&mut terrain, w, d, x, y, 0, TileType::Stone);
        }
    }
    state.set(2, 2, 1, WaterCell { level: 8, is_source: false, sediment: 0 });

    sim.tick(&mut state, &mut terrain);

    let center = state.get(2, 2, 1).level;
    let mut neighbors_total: u8 = 0;
    for &(nx, ny) in [(1, 2), (3, 2), (2, 1), (2, 3)].iter() {
        neighbors_total += state.get(nx, ny, 1).level;
    }
    assert!(center < 8, "중앙은 분배 후 줄어야 함");
    assert!(neighbors_total > 0, "이웃에 물이 분배되어야 함");
}

#[test]
fn source_replenishes_level() {
    let (w, d, h) = (4, 4, 4);
    let mut state = WaterState::new(w, d, h);
    let mut terrain = make_terrain(w, d, h);
    let mut sim = CellularWaterSimulator::new();

    for y in 0..d {
        for x in 0..w {
            set_terrain(&mut terrain, w, d, x, y, 0, TileType::Stone);
        }
    }
    state.set(2, 2, 1, WaterCell { level: 8, is_source: true, sediment: 0 });

    sim.tick(&mut state, &mut terrain);

    assert_eq!(state.get(2, 2, 1).level, 8, "수원은 level 유지");
    assert!(state.get(2, 2, 1).is_source, "수원 플래그 유지");
}

#[test]
fn water_prefers_lower_terrain() {
    let (w, d, h) = (5, 1, 5);
    let mut state = WaterState::new(w, d, h);
    let mut terrain = make_terrain(w, d, h);

    for x in 0..w {
        let floor_z = if x <= 2 { 3 - x } else { 0 };
        for z in 0..=floor_z {
            set_terrain(&mut terrain, w, d, x, 0, z, TileType::Stone);
        }
    }

    state.set(0, 0, 4, WaterCell { level: 8, is_source: false, sediment: 0 });

    let mut sim = CellularWaterSimulator::new();
    for _ in 0..10 {
        sim.tick(&mut state, &mut terrain);
    }

    let mut low_water: u8 = 0;
    for x in 3..5 {
        for z in 0..h {
            low_water += state.get(x, 0, z).level;
        }
    }
    let mut high_water: u8 = 0;
    for x in 0..2 {
        for z in 0..h {
            high_water += state.get(x, 0, z).level;
        }
    }
    assert!(
        low_water > high_water,
        "water should pool at lower terrain: low={}, high={}",
        low_water,
        high_water
    );
}

#[test]
fn erosion_reduces_erodible_tile_level() {
    let (w, d, h) = (3, 3, 4);
    let mut state = WaterState::new(w, d, h);
    let mut terrain = make_terrain(w, d, h);

    for y in 0..d {
        for x in 0..w {
            set_terrain(&mut terrain, w, d, x, y, 0, TileType::Dirt);
        }
    }
    state.set(1, 1, 1, WaterCell { level: 8, is_source: false, sediment: 0 });

    let mut sim = CellularWaterSimulator::new();
    sim.tick(&mut state, &mut terrain);

    let dirt_tile = terrain[1 + 1 * w];
    assert!(dirt_tile.level < 8, "erosion should reduce level: {}", dirt_tile.level);
}

#[test]
fn stone_is_not_eroded() {
    let (w, d, h) = (3, 3, 3);
    let mut state = WaterState::new(w, d, h);
    let mut terrain = make_terrain(w, d, h);

    set_terrain(&mut terrain, w, d, 1, 1, 0, TileType::Stone);
    state.set(1, 1, 1, WaterCell { level: 8, is_source: false, sediment: 0 });

    let mut sim = CellularWaterSimulator::new();
    sim.tick(&mut state, &mut terrain);

    assert_eq!(terrain[1 + 1 * w].tile_type, TileType::Stone);
    assert_eq!(terrain[1 + 1 * w].level, 8, "Stone must not erode");
}

// --- exact values ---

#[test]
fn gravity_moves_one_layer_per_tick() {
    let (w, d, h) = (1, 1, 4);
    let mut state = WaterState::new(w, d, h);
    let mut terrain = make_terrain(w, d, h);
    let mut sim = CellularWaterSimulator::new();
    state.set(0, 0, 3, WaterCell { level: 5, is_source: false, sediment: 0 });
    sim.tick(&mut state, &mut terrain);
    assert_eq!(state.get(0, 0, 3).level, 0);
    assert_eq!(state.get(0, 0, 2).level, 5);
    assert_eq!(state.get(0, 0, 1).level, 0);
}

#[test]
fn gravity_fills_only_what_fits_below() {
    let (w, d, h) = (1, 1, 3);
    let mut state = WaterState::new(w, d, h);
    let mut terrain = make_terrain(w, d, h);
    let mut sim = CellularWaterSimulator::new();
    set_terrain(&mut terrain, w, d, 0, 0, 0, TileType::Stone);
    state.set(0, 0, 1, WaterCell { level: 6, is_source: false, sediment: 0 });
    state.set(0, 0, 2, WaterCell { level: 5, is_source: false, sediment: 0 });
    sim.tick(&mut state, &mut terrain);
    assert_eq!(state.get(0, 0, 1).level, 8);
    assert_eq!(state.get(0, 0, 2).level, 3);
}

#[test]
fn available_depth_counts_room_down_to_solid() {
    let (w, d, h) = (2, 1, 4);
    let mut state = WaterState::new(w, d, h);
    let mut terrain = make_terrain(w, d, h);
    set_terrain(&mut terrain, w, d, 0, 0, 0, TileType::Stone);
    state.set(0, 0, 1, WaterCell { level: 3, is_source: false, sediment: 0 });
    let cells = state.snapshot_cells();
    // layers 2 and 1 of column 0: 8 + 5, stopped by the stone at layer 0
    assert_eq!(CellularWaterSimulator::available_depth(&terrain, &cells, w, d, 0, 0, 2), 13);
    // column 1 has no floor: 3 * 8
    assert_eq!(CellularWaterSimulator::available_depth(&terrain, &cells, w, d, 1, 0, 2), 24);
    assert!(CellularWaterSimulator::is_solid(&terrain, 0));
    assert!(!CellularWaterSimulator::is_solid(&terrain, 1));
}

#[test]
fn place_and_remove_water() {
    let mut state = WaterState::new(2, 2, 2);
    let mut sim = CellularWaterSimulator::new();
    sim.place_water(&mut state, 1, 0, 1, 6);
    assert_eq!(state.get(1, 0, 1), WaterCell { level: 6, is_source: false, sediment: 0 });
    sim.remove_water(&mut state, 1, 0, 1);
    assert_eq!(state.get(1, 0, 1), WaterCell::empty());
}

#[test]
fn levels_stay_within_eight_and_sources_stay_full() {
    let (w, d, h) = (4, 3, 4);
    let mut state = WaterState::new(w, d, h);
    let mut terrain = make_terrain(w, d, h);
    for y in 0..d {
        for x in 0..w {
            set_terrain(&mut terrain, w, d, x, y, 0, TileType::Dirt);
        }
    }
    set_terrain(&mut terrain, w, d, 3, 2, 1, TileType::Stone);
    state.set(0, 0, 3, WaterCell { level: 8, is_source: true, sediment: 0 });
    state.set(2, 1, 2, WaterCell { level: 7, is_source: false, sediment: 3 });
    let mut sim = CellularWaterSimulator::new();
    for _ in 0..20 {
        sim.tick(&mut state, &mut terrain);
        for z in 0..h {
            for y in 0..d {
                for x in 0..w {
                    assert!(state.get(x, y, z).level <= 8);
                }
            }
        }
        assert_eq!(state.get(0, 0, 3), WaterCell { level: 8, is_source: true, sediment: state.get(0, 0, 3).sediment });
        assert_eq!(terrain[3 + 2 * w + 1 * w * d].tile_type, TileType::Stone);
    }
}

#[test]
fn available_depth_reads_only_the_column() {
    let (w, d, h) = (2, 2, 3);
    let mut state = WaterState::new(w, d, h);
    let mut terrain = make_terrain(w, d, h);
    set_terrain(&mut terrain, w, d, 0, 1, 0, TileType::Stone);
    state.set(0, 1, 1, WaterCell { level: 2, is_source: false, sediment: 0 });
    let cells = state.snapshot_cells();
    // (0, 1) has room 8 at layer 2 and 6 at layer 1, down to the stone
    assert_eq!(CellularWaterSimulator::available_depth(&terrain, &cells, w, d, 0, 1, 2), 14);
    // an x past the width addresses the next row: the same column
    assert_eq!(CellularWaterSimulator::available_depth(&terrain, &cells, w, d, 2, 0, 2), 14);
}

#[test]
fn placed_water_can_be_ticked() {
    let (w, d, h) = (2, 2, 3);
    let mut state = WaterState::new(w, d, h);
    let mut terrain = make_terrain(w, d, h);
    for y in 0..d {
        for x in 0..w {
            set_terrain(&mut terrain, w, d, x, y, 0, TileType::Stone);
        }
    }
    let mut sim = CellularWaterSimulator::new();
    sim.place_water(&mut state, 0, 0, 2, 8);
    sim.tick(&mut state, &mut terrain);
    for z in 0..h {
        for y in 0..d {
            for x in 0..w {
                assert!(state.get(x, y, z).level <= 8);
            }
        }
    }
}
