use game_core::tile::{FlowDir, Tile};
use game_core::water::gravity::pass_gravity as fall_one_cell;
use game_core::world::gravity::pass_gravity;
use game_core::world::World;

// --- instant fall ---

#[test]
fn water_falls_to_ground() {
    let mut world = World::new(4, 4, 8);
    world.set(0, 0, 0, Tile::Stone);
    world.set(0, 0, 5, Tile::water_default());
    pass_gravity(&mut world);
    // Falls instantly to z=1 (above Stone)
    assert!(world.get(0, 0, 1).is_water());
    assert!(world.get(0, 0, 5).is_air());
}

#[test]
fn gravity_water_stops_on_solid() {
    let mut world = World::new(4, 4, 8);
    world.set(0, 0, 0, Tile::Stone);
    world.set(0, 0, 1, Tile::water_default());
    pass_gravity(&mut world);
    assert!(world.get(0, 0, 1).is_water());
}

#[test]
fn water_stops_on_water() {
    let mut world = World::new(4, 4, 8);
    world.set(0, 0, 0, Tile::Stone);
    world.set(0, 0, 1, Tile::water_default());
    world.set(0, 0, 5, Tile::water_default());
    pass_gravity(&mut world);
    // z=5 water falls to z=2 (above existing water at z=1)
    assert!(world.get(0, 0, 2).is_water());
    assert!(world.get(0, 0, 1).is_water());
    assert!(world.get(0, 0, 5).is_air());
}

#[test]
fn source_stays_and_water_falls() {
    let mut world = World::new(4, 4, 8);
    world.set(0, 0, 0, Tile::Stone);
    world.set(0, 0, 5, Tile::water_source());
    pass_gravity(&mut world);
    // Source stays, emitted water falls to z=1
    assert!(world.get(0, 0, 5).is_water());
    assert!(world.get(0, 0, 1).is_water());
    if let Tile::Water { is_source, .. } = world.get(0, 0, 5) {
        assert!(is_source);
    }
}

#[test]
fn water_falls_to_z0_if_no_ground() {
    let mut world = World::new(4, 4, 8);
    world.set(0, 0, 6, Tile::water_default());
    pass_gravity(&mut world);
    assert!(world.get(0, 0, 0).is_water());
    assert!(world.get(0, 0, 6).is_air());
}

#[test]
fn instant_fall_keeps_sediment_and_moves_down() {
    let mut world = World::new(2, 2, 6);
    world.set(1, 1, 0, Tile::Stone);
    world.set(1, 1, 4, Tile::Water { is_source: false, sediment: 3, velocity: 5, direction: FlowDir::East });
    world.set(0, 0, 3, Tile::Sand);
    pass_gravity(&mut world);
    assert_eq!(
        world.get(1, 1, 1),
        Tile::Water { is_source: false, sediment: 3, velocity: 0, direction: FlowDir::Down }
    );
    assert_eq!(world.get(0, 0, 3), Tile::Sand); // solids never move
}

// --- one cell per pass ---

#[test]
fn water_falls_one_cell() {
    let mut world = World::new(4, 4, 8);
    world.set(0, 0, 3, Tile::water_default());
    fall_one_cell(&mut world);
    assert!(world.get(0, 0, 2).is_water());
    assert!(world.get(0, 0, 3).is_air());
}

#[test]
fn water_gravity_water_stops_on_solid() {
    let mut world = World::new(4, 4, 8);
    world.set(0, 0, 0, Tile::Stone);
    world.set(0, 0, 1, Tile::water_default());
    fall_one_cell(&mut world);
    assert!(world.get(0, 0, 1).is_water()); // stays
}

#[test]
fn falling_water_accelerates() {
    let mut world = World::new(4, 4, 8);
    world.set(
        0,
        0,
        4,
        Tile::Water {
            is_source: false,
            sediment: 0,
            velocity: 2,
            direction: FlowDir::Down,
        },
    );
    fall_one_cell(&mut world);
    match world.get(0, 0, 3) {
        Tile::Water {
            velocity,
            direction,
            ..
        } => {
            assert_eq!(velocity, 3); // vel + 1
            assert_eq!(direction, FlowDir::Down);
        }
        _ => panic!("expected Water"),
    }
}

#[test]
fn falling_water_max_velocity() {
    let mut world = World::new(4, 4, 8);
    world.set(
        0,
        0,
        2,
        Tile::Water {
            is_source: false,
            sediment: 0,
            velocity: 7,
            direction: FlowDir::Down,
        },
    );
    fall_one_cell(&mut world);
    match world.get(0, 0, 1) {
        Tile::Water { velocity, .. } => assert_eq!(velocity, 7), // capped
        _ => panic!("expected Water"),
    }
}

#[test]
fn water_does_not_fall_through_water() {
    let mut world = World::new(4, 4, 8);
    world.set(0, 0, 0, Tile::Stone); // ground
    world.set(0, 0, 1, Tile::water_default());
    world.set(0, 0, 2, Tile::water_default());
    fall_one_cell(&mut world);
    assert!(world.get(0, 0, 1).is_water());
    assert!(world.get(0, 0, 2).is_water()); // blocked by water below
}

#[test]
fn one_cell_fall_source_emits() {
    let mut world = World::new(1, 1, 4);
    world.set(0, 0, 3, Tile::Water { is_source: true, sediment: 2, velocity: 0, direction: FlowDir::Still });
    fall_one_cell(&mut world);
    assert_eq!(world.get(0, 0, 3), Tile::water_source());
    assert_eq!(
        world.get(0, 0, 2),
        Tile::Water { is_source: false, sediment: 2, velocity: 1, direction: FlowDir::Down }
    );
}
