use game_core::tile::{FlowDir, Tile};

#[test]
fn tile_is_solid() {
    assert!(!Tile::Air.is_solid());
    assert!(Tile::Grass.is_solid());
    assert!(Tile::Dirt.is_solid());
    assert!(Tile::Stone.is_solid());
    assert!(Tile::Sand.is_solid());
    assert!(!Tile::Water {
        is_source: false,
        sediment: 0,
        velocity: 0,
        direction: FlowDir::Still
    }
    .is_solid());
}

#[test]
fn tile_is_erodible() {
    assert!(!Tile::Air.is_erodible());
    assert!(Tile::Grass.is_erodible());
    assert!(Tile::Dirt.is_erodible());
    assert!(!Tile::Stone.is_erodible());
    assert!(Tile::Sand.is_erodible());
}

#[test]
fn tile_pack_roundtrip_solid() {
    assert_eq!(Tile::Air.pack(), 0);
    assert_eq!(Tile::unpack(Tile::Grass.pack()), Tile::Grass);
    assert_eq!(Tile::unpack(Tile::Stone.pack()), Tile::Stone);
}

#[test]
fn tile_pack_roundtrip_water() {
    let w = Tile::Water {
        is_source: true,
        sediment: 5,
        velocity: 3,
        direction: FlowDir::East,
    };
    let packed = w.pack();
    let unpacked = Tile::unpack(packed);
    match unpacked {
        Tile::Water {
            is_source,
            direction,
            ..
        } => {
            assert!(is_source);
            assert_eq!(direction, FlowDir::East);
        }
        _ => panic!("expected Water"),
    }
}

#[test]
fn tile_opacity() {
    assert_eq!(Tile::Air.opacity(), 0);
    assert_eq!(Tile::Grass.opacity(), 10);
    assert_eq!(
        Tile::Water {
            is_source: false,
            sediment: 0,
            velocity: 0,
            direction: FlowDir::Still
        }
        .opacity(),
        3
    );
}

#[test]
fn flow_dir_all_variants() {
    assert_eq!(FlowDir::from_u8(0), FlowDir::Still);
    assert_eq!(FlowDir::from_u8(1), FlowDir::Down);
    assert_eq!(FlowDir::from_u8(5), FlowDir::West);
    assert_eq!(FlowDir::from_u8(6), FlowDir::Still); // out of range
}

#[test]
fn tile_pack_exact_bytes() {
    assert_eq!(Tile::Grass.pack(), 1);
    assert_eq!(Tile::Sand.pack(), 4);
    let w = Tile::Water { is_source: true, sediment: 0, velocity: 0, direction: FlowDir::East };
    // type 5, direction 4 << 3, source bit 6
    assert_eq!(w.pack(), 5 + 32 + 64);
    assert_eq!(Tile::unpack(0xFF & 0x7F), Tile::Air); // type code 7 is not a tile
}

#[test]
fn unpack_drops_sediment_and_velocity() {
    for dir in 0..6u8 {
        for src in [false, true] {
            let t = Tile::Water { is_source: src, sediment: 7, velocity: 7, direction: FlowDir::from_u8(dir) };
            assert_eq!(
                Tile::unpack(t.pack()),
                Tile::Water { is_source: src, sediment: 0, velocity: 0, direction: FlowDir::from_u8(dir) }
            );
            assert!(t.pack() < 128);
        }
    }
    for t in [Tile::Air, Tile::Grass, Tile::Dirt, Tile::Stone, Tile::Sand] {
        assert_eq!(Tile::unpack(t.pack()), t);
    }
}

#[test]
fn flow_dir_roundtrip() {
    for d in [FlowDir::Still, FlowDir::Down, FlowDir::North, FlowDir::South, FlowDir::East, FlowDir::West] {
        assert_eq!(FlowDir::from_u8(d.to_u8()), d);
    }
}

#[test]
fn tile_soil_properties() {
    assert_eq!(Tile::Sand.moisture_capacity(), 48);
    assert_eq!(Tile::Grass.moisture_capacity(), 160);
    assert_eq!(Tile::Dirt.moisture_capacity(), 128);
    assert_eq!(Tile::Stone.moisture_capacity(), 0);
    assert_eq!(Tile::Air.moisture_capacity(), 0);
    assert_eq!(Tile::Sand.absorb_rate(), 8);
    assert_eq!(Tile::Grass.absorb_rate(), 5);
    assert_eq!(Tile::Dirt.absorb_rate(), 2);
    assert_eq!(Tile::Stone.absorb_rate(), 0);
    assert_eq!(Tile::Sand.permeability(), 6);
    assert_eq!(Tile::Grass.permeability(), 3);
    assert_eq!(Tile::Dirt.permeability(), 1);
    assert_eq!(Tile::Stone.permeability(), 0);
}

#[test]
fn tile_falls_and_kinds() {
    assert!(Tile::Sand.falls());
    assert!(!Tile::Stone.falls());
    assert!(!Tile::Air.falls());
    assert!(Tile::water_default().falls());
    assert!(Tile::water_source().is_water());
    assert!(Tile::Air.is_air());
    assert!(!Tile::Sand.is_water());
}
