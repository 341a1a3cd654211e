use vstd::prelude::*;

verus! {

/// Direction in which a water tile last moved.
#[derive(Clone, Copy, PartialEq, Eq, Debug, Structural)]
pub enum FlowDir {
    Still,
    Down,
    North,
    South,
    East,
    West,
}

/// The numeric code of each direction, as stored in packed tiles.
pub open spec fn flow_dir_code(d: FlowDir) -> u8 {
    match d {
        FlowDir::Still => 0,
        FlowDir::Down => 1,
        FlowDir::North => 2,
        FlowDir::South => 3,
        FlowDir::East => 4,
        FlowDir::West => 5,
    }
}

/// The direction a code stands for; codes above 5 mean no direction.
pub open spec fn flow_dir_of_code(v: u8) -> FlowDir {
    if v == 1 {
        FlowDir::Down
    } else if v == 2 {
        FlowDir::North
    } else if v == 3 {
        FlowDir::South
    } else if v == 4 {
        FlowDir::East
    } else if v == 5 {
        FlowDir::West
    } else {
        FlowDir::Still
    }
}

impl FlowDir {
    pub fn from_u8(v: u8) -> (d: FlowDir)
        ensures
            d == flow_dir_of_code(v),
    {
        match v {
            0 => FlowDir::Still,
            1 => FlowDir::Down,
            2 => FlowDir::North,
            3 => FlowDir::South,
            4 => FlowDir::East,
            5 => FlowDir::West,
            _ => FlowDir::Still,
        }
    }

    pub fn to_u8(self) -> (v: u8)
        ensures
            v == flow_dir_code(self),
    {
        match self {
            FlowDir::Still => 0,
            FlowDir::Down => 1,
            FlowDir::North => 2,
            FlowDir::South => 3,
            FlowDir::East => 4,
            FlowDir::West => 5,
        }
    }
}


/// One cell of the world grid.
#[derive(Clone, Copy, PartialEq, Eq, Debug, Structural)]
pub enum Tile {
    Air,
    Grass,
    Dirt,
    Stone,
    Sand,
    Water { is_source: bool, sediment: u8, velocity: u8, direction: FlowDir },
}

/// The three-bit type code of a tile.
pub open spec fn type_code(t: Tile) -> u8 {
    match t {
        Tile::Air => 0,
        Tile::Grass => 1,
        Tile::Dirt => 2,
        Tile::Stone => 3,
        Tile::Sand => 4,
        Tile::Water { .. } => 5,
    }
}

/// The packed byte of a tile: bits 0-2 hold the type code; for water, bits 3-5
/// hold the direction code and bit 6 the source flag.
pub open spec fn packed(t: Tile) -> u8 {
    match t {
        Tile::Water { is_source, direction, .. } => (5 + 8 * flow_dir_code(direction) + (if is_source {
            64int
        } else {
            0int
        })) as u8,
        _ => type_code(t),
    }
}

/// The tile a packed byte stands for. Water comes back with no sediment and no velocity.
pub open spec fn unpacked(b: u8) -> Tile {
    let code = b % 8;
    if code == 0 {
        Tile::Air
    } else if code == 1 {
        Tile::Grass
    } else if code == 2 {
        Tile::Dirt
    } else if code == 3 {
        Tile::Stone
    } else if code == 4 {
        Tile::Sand
    } else if code == 5 {
        Tile::Water {
            is_source: (b / 64) % 2 == 1,
            sediment: 0,
            velocity: 0,
            direction: flow_dir_of_code(((b / 8) % 8) as u8),
        }
    } else {
        Tile::Air
    }
}

pub open spec fn is_solid_spec(t: Tile) -> bool {
    t is Grass || t is Dirt || t is Stone || t is Sand
}

pub open spec fn is_erodible_spec(t: Tile) -> bool {
    t is Grass || t is Dirt || t is Sand
}

/// How much soil moisture a tile can hold.
pub open spec fn capacity_of(t: Tile) -> u8 {
    match t {
        Tile::Sand => 48,
        Tile::Grass => 160,
        Tile::Dirt => 128,
        _ => 0,
    }
}

/// How much surface water a tile takes in per tick.
pub open spec fn absorb_rate_of(t: Tile) -> u8 {
    match t {
        Tile::Sand => 8,
        Tile::Grass => 5,
        Tile::Dirt => 2,
        _ => 0,
    }
}

/// How fast moisture passes through a tile underground.
pub open spec fn permeability_of(t: Tile) -> u8 {
    match t {
        Tile::Sand => 6,
        Tile::Grass => 3,
        Tile::Dirt => 1,
        _ => 0,
    }
}

pub open spec fn opacity_of(t: Tile) -> u8 {
    match t {
        Tile::Air => 0,
        Tile::Water { .. } => 3,
        _ => 10,
    }
}

impl Tile {
    pub fn water_default() -> (t: Tile)
        ensures
            t == (Tile::Water { is_source: false, sediment: 0, velocity: 0, direction: FlowDir::Still }),
    {
        Tile::Water { is_source: false, sediment: 0, velocity: 0, direction: FlowDir::Still }
    }

    pub fn water_source() -> (t: Tile)
        ensures
            t == (Tile::Water { is_source: true, sediment: 0, velocity: 0, direction: FlowDir::Still }),
    {
        Tile::Water { is_source: true, sediment: 0, velocity: 0, direction: FlowDir::Still }
    }

    pub fn is_solid(&self) -> (b: bool)
        ensures
            b == is_solid_spec(*self),
    {
        match self {
            Tile::Grass | Tile::Dirt | Tile::Stone | Tile::Sand => true,
            _ => false,
        }
    }

    pub fn is_erodible(&self) -> (b: bool)
        ensures
            b == is_erodible_spec(*self),
    {
        match self {
            Tile::Grass | Tile::Dirt | Tile::Sand => true,
            _ => false,
        }
    }

    pub fn is_water(&self) -> (b: bool)
        ensures
            b == (*self is Water),
    {
        match self {
            Tile::Water { .. } => true,
            _ => false,
        }
    }

    pub fn is_air(&self) -> (b: bool)
        ensures
            b == (*self is Air),
    {
        match self {
            Tile::Air => true,
            _ => false,
        }
    }

    /// Whether gravity moves this tile.
    pub fn falls(&self) -> (b: bool)
        ensures
            b == (*self is Grass || *self is Dirt || *self is Sand || *self is Water),
    {
        match self {
            Tile::Grass | Tile::Dirt | Tile::Sand | Tile::Water { .. } => true,
            _ => false,
        }
    }

    /// Opacity for visibility scoring: 10 is fully opaque, 0 transparent.
    pub fn opacity(&self) -> (o: u8)
        ensures
            o == opacity_of(*self),
    {
        match self {
            Tile::Air => 0,
            Tile::Water { .. } => 3,
            _ => 10,
        }
    }

    pub fn moisture_capacity(&self) -> (c: u8)
        ensures
            c == capacity_of(*self),
    {
        match self {
            Tile::Sand => 48,
            Tile::Grass => 160,
            Tile::Dirt => 128,
            _ => 0,
        }
    }

    pub fn absorb_rate(&self) -> (r: u8)
        ensures
            r == absorb_rate_of(*self),
    {
        match self {
            Tile::Sand => 8,
            Tile::Grass => 5,
            Tile::Dirt => 2,
            _ => 0,
        }
    }

    pub fn permeability(&self) -> (p: u8)
        ensures
            p == permeability_of(*self),
    {
        match self {
            Tile::Sand => 6,
            Tile::Grass => 3,
            Tile::Dirt => 1,
            _ => 0,
        }
    }

    fn type_id(&self) -> (id: u8)
        ensures
            id == type_code(*self),
    {
        match self {
            Tile::Air => 0,
            Tile::Grass => 1,
            Tile::Dirt => 2,
            Tile::Stone => 3,
            Tile::Sand => 4,
            Tile::Water { .. } => 5,
        }
    }

    /// Packs the tile into one byte for export.
    pub fn pack(&self) -> (b: u8)
        ensures
            b == packed(*self),
    {
        let id = self.type_id();
        let type_bits = id & 0x07;
        assert(type_bits == id) by (bit_vector)
            requires
                id <= 5,
                type_bits == id & 0x07,
        ;
        match self {
            Tile::Water { is_source, direction, .. } => {
                let d = direction.to_u8();
                let dir_bits = (d & 0x07) << 3;
                let src_bit: u8 = if *is_source { 64 } else { 0 };
                let r = type_bits | dir_bits | src_bit;
                assert(r == 5 + 8 * d + src_bit) by (bit_vector)
                    requires
                        d <= 5,
                        type_bits == 5,
                        dir_bits == (d & 0x07) << 3,
                        src_bit == 0 || src_bit == 64,
                        r == type_bits | dir_bits | src_bit,
                ;
                r
            },
            _ => type_bits,
        }
    }

    /// Reads a packed byte back into a tile. Water gets no sediment and no velocity.
    pub fn unpack(packed_byte: u8) -> (t: Tile)
        ensures
            t == unpacked(packed_byte),
    {
        let type_id = packed_byte & 0x07;
        assert(type_id == packed_byte % 8) by (bit_vector)
            requires
                type_id == packed_byte & 0x07,
        ;
        match type_id {
            0 => Tile::Air,
            1 => Tile::Grass,
            2 => Tile::Dirt,
            3 => Tile::Stone,
            4 => Tile::Sand,
            5 => {
                let code = (packed_byte >> 3) & 0x07;
                assert(code == (packed_byte / 8) % 8) by (bit_vector)
                    requires
                        code == (packed_byte >> 3) & 0x07,
                ;
                let dir = FlowDir::from_u8(code);
                let src = packed_byte & 64u8;
                let is_source = src != 0;
                assert((src != 0) == ((packed_byte / 64) % 2 == 1)) by (bit_vector)
                    requires
                        src == packed_byte & 64u8,
                ;
                Tile::Water { is_source, sediment: 0, velocity: 0, direction: dir }
            },
            _ => Tile::Air,
        }
    }
}

/// Unpacking the packed byte of a tile that is not water gives the same tile back.
pub proof fn lemma_unpack_pack_solid_or_air(t: Tile)
    requires
        !(t is Water),
    ensures
        unpacked(packed(t)) == t,
{
}

/// Unpacking the packed byte of a water tile keeps its source flag and direction and
/// drops its sediment and velocity.
pub proof fn lemma_unpack_pack_water(is_source: bool, sediment: u8, velocity: u8, direction: FlowDir)
    ensures
        unpacked(packed(Tile::Water { is_source, sediment, velocity, direction })) == (Tile::Water {
            is_source,
            sediment: 0,
            velocity: 0,
            direction,
        }),
{
}

/// The low three bits of a packed byte are the tile's type code.
pub proof fn lemma_packed_type_bits(t: Tile)
    ensures
        packed(t) & 0x07 == type_code(t),
{
    let p = packed(t);
    match t {
        Tile::Water { is_source, direction, .. } => {
            let dc = flow_dir_code(direction);
            let sb: u8 = if is_source { 64 } else { 0 };
            assert(p == 5 + 8 * dc + sb);
            assert(p & 0x07 == 5) by (bit_vector)
                requires
                    p == 5 + 8 * dc + sb,
                    dc <= 5,
                    sb == 0 || sb == 64,
            ;
        },
        _ => {
            let c = type_code(t);
            assert(c & 0x07 == c) by (bit_vector)
                requires
                    c <= 4,
            ;
        },
    }
}

/// Every packed byte leaves bit 7 clear.
pub proof fn lemma_packed_below_128(t: Tile)
    ensures
        packed(t) < 128,
{
}

/// The direction code round-trips.
pub proof fn lemma_flow_dir_roundtrip(d: FlowDir)
    ensures
        flow_dir_of_code(flow_dir_code(d)) == d,
        flow_dir_code(d) <= 5,
{
}

} // verus!
