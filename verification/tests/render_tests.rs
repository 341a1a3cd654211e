use game_core::render::{format_cell, AsciiRenderer, TileType, WaterCell, WorldRenderer};
use game_core::tile::Tile;
use game_core::world::World;

#[test]
fn format_cell_air() {
    assert_eq!(format_cell(TileType::Air as u8, WaterCell::empty()), " . ");
}

#[test]
fn format_cell_stone() {
    assert_eq!(format_cell(TileType::Stone as u8, WaterCell::empty()), " # ");
}

#[test]
fn format_cell_grass() {
    assert_eq!(format_cell(TileType::Grass as u8, WaterCell::empty()), " G ");
}

#[test]
fn format_cell_water_level() {
    let cell = WaterCell {
        level: 4,
        is_source: false,
        sediment: 0,
    };
    assert_eq!(format_cell(TileType::Air as u8, cell), "~4 ");
}

#[test]
fn format_cell_water_source() {
    let cell = WaterCell {
        level: 8,
        is_source: true,
        sediment: 0,
    };
    assert_eq!(format_cell(TileType::Air as u8, cell), "*8 ");
}

#[test]
fn format_cell_water_on_solid_shows_water() {
    let cell = WaterCell {
        level: 3,
        is_source: false,
        sediment: 0,
    };
    assert_eq!(format_cell(TileType::Stone as u8, cell), "~3 ");
}

#[test]
fn render_top_down_empty_world() {
    let world = World::new(3, 3, 2);
    let renderer = AsciiRenderer::top_down(0);
    let output = renderer.render(&world);
    let expected = "z=0 (3x3):\n .  .  . \n .  .  . \n .  .  . \n";
    assert_eq!(output, expected);
}

#[test]
fn render_top_down_with_tiles_and_water() {
    let mut world = World::new(3, 3, 2);
    world.set(0, 0, 0, Tile::Stone);
    world.set(1, 0, 0, Tile::Grass);
    world.set_water_mass(2, 0, 0, 5);
    let renderer = AsciiRenderer::top_down(0);
    let output = renderer.render(&world);
    let expected = "z=0 (3x3):\n #  G ~5 \n .  .  . \n .  .  . \n";
    assert_eq!(output, expected);
}

#[test]
fn render_side_view_empty_world() {
    let world = World::new(3, 3, 2);
    let renderer = AsciiRenderer::side_view(0);
    let output = renderer.render(&world);
    let expected = "y=0 (x->, z^, 3x2):\n .  .  . \n .  .  . \n";
    assert_eq!(output, expected);
}

#[test]
fn render_side_view_with_tiles_and_water() {
    let mut world = World::new(3, 3, 2);
    world.set(0, 0, 0, Tile::Stone);
    world.set(1, 0, 0, Tile::Stone);
    world.set_water_mass(2, 0, 1, 6);
    let renderer = AsciiRenderer::side_view(0);
    let output = renderer.render(&world);
    // z=1 first (top), z=0 second (bottom)
    let expected = "y=0 (x->, z^, 3x2):\n .  . ~6 \n #  #  . \n";
    assert_eq!(output, expected);
}

#[test]
fn format_cell_other_tiles_and_big_levels() {
    assert_eq!(format_cell(TileType::Dirt as u8, WaterCell::empty()), " D ");
    assert_eq!(format_cell(TileType::Sand as u8, WaterCell::empty()), " S ");
    assert_eq!(format_cell(TileType::Water as u8, WaterCell::empty()), " . ");
    assert_eq!(format_cell(9, WaterCell::empty()), " . ");
    let cell = WaterCell { level: 255, is_source: true, sediment: 0 };
    assert_eq!(format_cell(TileType::Stone as u8, cell), "*255 ");
    let cell = WaterCell { level: 10, is_source: false, sediment: 3 };
    assert_eq!(format_cell(TileType::Air as u8, cell), "~10 ");
    assert_eq!(TileType::Sand.code(), TileType::Sand as u8);
}

#[test]
fn render_marks_sources_and_big_worlds() {
    let mut world = World::new(12, 1, 1);
    world.set_water_mass(0, 0, 0, 200);
    world.add_source(0, 0, 0);
    world.set_water_mass(11, 0, 0, 7);
    let out = AsciiRenderer::top_down(0).render(&world);
    assert_eq!(out, "z=0 (12x1):\n*200  .  .  .  .  .  .  .  .  .  . ~7 \n");
}

#[test]
fn greet_returns_message() {
    assert_eq!(game_core::greet(), "Hello from game_core!");
}
