use game_core::terrain::{build_terrain, WATER_LEVEL};
use game_core::tile::Tile;
use game_core::world::World;

#[test]
fn build_terrain_fills_land_and_sea_columns() {
    // 2 x 1 columns: one sea floor at 20, one hill at 40
    let mut world = World::new(2, 1, 48);
    build_terrain(&mut world, &[20, 40], 0);

    // hill column
    assert_eq!(world.get(1, 0, 41), Tile::Air);
    assert_eq!(world.get(1, 0, 40), Tile::Grass);
    for z in 38..40 {
        assert_eq!(world.get(1, 0, z), Tile::Dirt);
    }
    assert_eq!(world.get(1, 0, 37), Tile::Stone);
    assert_eq!(world.get(1, 0, 0), Tile::Stone);

    // sea column: sand floor, water up to sea level
    assert_eq!(world.get(0, 0, 20), Tile::Sand);
    assert_eq!(world.get(0, 0, 19), Tile::Dirt);
    assert_eq!(world.get(0, 0, 17), Tile::Stone);
    assert_eq!(world.water_mass(0, 0, 20), 0);
    for z in 21..=WATER_LEVEL {
        assert_eq!(world.water_mass(0, 0, z), 255);
        assert_eq!(world.get(0, 0, z), Tile::Air);
    }
    assert_eq!(world.water_mass(0, 0, WATER_LEVEL + 1), 0);

    // the only land column gets the single source, one above its surface
    assert_eq!(world.sources(), &[(1, 0, 41)]);
    assert_eq!(world.water_mass(1, 0, 41), 255);
}

#[test]
fn beach_surface_is_sand() {
    let mut world = World::new(2, 1, 48);
    build_terrain(&mut world, &[34, 36], 0);
    assert_eq!(world.get(0, 0, 34), Tile::Sand); // 34 <= 32 + 3
    assert_eq!(world.get(1, 0, 36), Tile::Grass);
}

#[test]
fn low_terrain_is_boosted_above_sea_level() {
    let mut world = World::new(2, 2, 48);
    build_terrain(&mut world, &[10, 10, 10, 10], 0);
    // max 10 <= 32: every surface raised by 32 + 5 - 10
    for x in 0..2 {
        for y in 0..2 {
            assert_eq!(world.get(x, y, 37), Tile::Grass);
            assert_eq!(world.get(x, y, 38), Tile::Air);
        }
    }
    // four candidates, three picks with stride 1 from the seed
    assert_eq!(world.sources(), &[(0, 0, 38), (1, 0, 38), (0, 1, 38)]);
}

#[test]
fn seed_shifts_source_picks() {
    let mut world = World::new(2, 2, 48);
    build_terrain(&mut world, &[10, 10, 10, 10], 1);
    assert_eq!(world.sources(), &[(1, 0, 38), (0, 1, 38), (1, 1, 38)]);
}

#[test]
fn sources_go_to_the_highest_land() {
    let mut world = World::new(4, 1, 64);
    build_terrain(&mut world, &[40, 50, 45, 60], 0);
    // sorted by height: 60, 50, 45, 40; three picks, stride 1
    assert_eq!(world.sources(), &[(3, 0, 61), (1, 0, 51), (2, 0, 46)]);
    for &(x, y, z) in world.sources() {
        assert_eq!(world.water_mass(x, y, z), 255);
    }
}

#[test]
fn build_terrain_is_deterministic() {
    let heights = [12, 33, 40, 41, 25, 60, 34, 35, 36];
    let mut w1 = World::new(3, 3, 64);
    let mut w2 = World::new(3, 3, 64);
    build_terrain(&mut w1, &heights, 99);
    build_terrain(&mut w2, &heights, 99);
    for i in 0..(3 * 3 * 64) {
        assert_eq!(w1.tiles()[i], w2.tiles()[i]);
    }
    assert_eq!(w1.sources(), w2.sources());
}
