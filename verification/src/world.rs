use vstd::prelude::*;
use crate::tile::{Tile, packed, capacity_of};

pub mod gravity;

verus! {

/// The mathematical model of a world: its size and each of its layers, one entry per
/// cell, cells laid out x-fastest, then y, then z.
pub struct WorldView {
    pub width: nat,
    pub depth: nat,
    pub height: nat,
    pub tiles: Seq<Tile>,
    pub tiles_cache: Seq<u8>,
    pub water_mass: Seq<u8>,
    pub water_sediment: Seq<u8>,
    pub mass_delta: Seq<i16>,
    pub sediment_delta: Seq<i16>,
    pub water_outflow: Seq<u16>,
    pub soil_moisture: Seq<u8>,
    pub moisture_delta: Seq<i16>,
    pub sources: Seq<(usize, usize, usize)>,
    pub atmospheric_moisture: u32,
}

pub open spec fn clamp_int(v: int, lo: int, hi: int) -> int {
    if v < lo {
        lo
    } else if v > hi {
        hi
    } else {
        v
    }
}

pub open spec fn min_int(a: int, b: int) -> int {
    if a <= b {
        a
    } else {
        b
    }
}

pub open spec fn max_int(a: int, b: int) -> int {
    if a >= b {
        a
    } else {
        b
    }
}

/// The sum of `a` and `b` as an `i16` that wraps around on overflow.
pub open spec fn wadd16(a: i16, b: i16) -> i16 {
    vstd::wrapping::i16_specs::wrapping_add(a, b)
}

/// The difference of `a` and `b` as an `i16` that wraps around on overflow.
pub open spec fn wsub16(a: i16, b: i16) -> i16 {
    vstd::wrapping::i16_specs::wrapping_sub(a, b)
}

/// The sum of `a` and `b` as a `u16` that wraps around on overflow.
pub open spec fn waddu16(a: u16, b: u16) -> u16 {
    vstd::wrapping::u16_specs::wrapping_add(a, b)
}

/// The sum of `a` and `b` as a `u32` that wraps around on overflow.
pub open spec fn waddu32(a: u32, b: u32) -> u32 {
    vstd::wrapping::u32_specs::wrapping_add(a, b)
}

impl WorldView {
    pub open spec fn size(self) -> nat {
        self.width * self.depth * self.height
    }

    /// Every layer has one entry per cell, and the cell count fits in `usize`.
    pub open spec fn wf(self) -> bool {
        &&& self.width <= usize::MAX && self.depth <= usize::MAX && self.height <= usize::MAX
        &&& self.width * self.depth <= usize::MAX
        &&& self.size() <= usize::MAX
        &&& self.tiles.len() == self.size()
        &&& self.tiles_cache.len() == self.size()
        &&& self.water_mass.len() == self.size()
        &&& self.water_sediment.len() == self.size()
        &&& self.mass_delta.len() == self.size()
        &&& self.sediment_delta.len() == self.size()
        &&& self.water_outflow.len() == self.size()
        &&& self.soil_moisture.len() == self.size()
        &&& self.moisture_delta.len() == self.size()
    }

    /// The position of cell (x, y, z) in every layer.
    pub open spec fn idx(self, x: int, y: int, z: int) -> int {
        x + y * self.width + z * (self.width * self.depth)
    }

    pub open spec fn in_bounds(self, x: int, y: int, z: int) -> bool {
        0 <= x < self.width && 0 <= y < self.depth && 0 <= z < self.height
    }

    /// Coordinates whose index can be computed without overflow and names a cell.
    pub open spec fn addressable(self, x: int, y: int, z: int) -> bool {
        &&& 0 <= x && 0 <= y && 0 <= z
        &&& z * self.width <= usize::MAX
        &&& self.idx(x, y, z) < self.size()
    }

    pub open spec fn tile(self, x: int, y: int, z: int) -> Tile {
        self.tiles[self.idx(x, y, z)]
    }

    pub open spec fn mass(self, x: int, y: int, z: int) -> u8 {
        self.water_mass[self.idx(x, y, z)]
    }

    pub open spec fn set_tile(self, x: int, y: int, z: int, t: Tile) -> WorldView {
        WorldView { tiles: self.tiles.update(self.idx(x, y, z), t), ..self }
    }

    pub open spec fn set_tile_at(self, i: int, t: Tile) -> WorldView {
        WorldView { tiles: self.tiles.update(i, t), ..self }
    }

    pub open spec fn set_mass_at(self, i: int, v: u8) -> WorldView {
        WorldView { water_mass: self.water_mass.update(i, v), ..self }
    }

    pub open spec fn set_sediment_at(self, i: int, v: u8) -> WorldView {
        WorldView { water_sediment: self.water_sediment.update(i, v), ..self }
    }

    pub open spec fn set_mass_delta_at(self, i: int, v: i16) -> WorldView {
        WorldView { mass_delta: self.mass_delta.update(i, v), ..self }
    }

    pub open spec fn set_sediment_delta_at(self, i: int, v: i16) -> WorldView {
        WorldView { sediment_delta: self.sediment_delta.update(i, v), ..self }
    }

    pub open spec fn set_outflow_at(self, i: int, v: u16) -> WorldView {
        WorldView { water_outflow: self.water_outflow.update(i, v), ..self }
    }

    pub open spec fn set_moisture_at(self, i: int, v: u8) -> WorldView {
        WorldView { soil_moisture: self.soil_moisture.update(i, v), ..self }
    }

    pub open spec fn set_moisture_delta_at(self, i: int, v: i16) -> WorldView {
        WorldView { moisture_delta: self.moisture_delta.update(i, v), ..self }
    }

    pub open spec fn set_atmospheric(self, v: u32) -> WorldView {
        WorldView { atmospheric_moisture: v, ..self }
    }

    /// What recording a flow of `amount` (with `sed` sediment) from cell `from` to cell
    /// `to` does: the deltas move, and the outflow of `from` grows. The counters wrap
    /// around on overflow.
    pub open spec fn record_flow(self, from: int, to: int, amount: u16, sed: i16) -> WorldView {
        let a = amount as i16;
        let md1 = self.mass_delta.update(from, wsub16(self.mass_delta[from], a));
        let md2 = md1.update(to, wadd16(md1[to], a));
        let of = self.water_outflow.update(from, waddu16(self.water_outflow[from], amount));
        let sd1 = self.sediment_delta.update(from, wsub16(self.sediment_delta[from], sed));
        let sd2 = sd1.update(to, wadd16(sd1[to], sed));
        WorldView {
            mass_delta: md2,
            water_outflow: of,
            sediment_delta: if sed != 0 {
                sd2
            } else {
                self.sediment_delta
            },
            ..self
        }
    }
}

/// The water mass a cell holds after its pending delta is applied: the sum clamped to
/// 0..=255 (the sum itself is taken as an `i16`, wrapping on overflow).
pub open spec fn applied_u8(v: u8, delta: i16) -> u8 {
    if delta != 0 {
        clamp_int(wadd16(v as i16, delta) as int, 0, 255) as u8
    } else {
        v
    }
}

/// The soil moisture a cell holds after its pending delta is applied: the sum clamped
/// to 0..=cap.
pub open spec fn applied_moisture(v: u8, delta: i16, cap: u8) -> u8 {
    if delta != 0 {
        clamp_int(wadd16(v as i16, delta) as int, 0, cap as int) as u8
    } else {
        v
    }
}

/// A cell that lies within the world always has an index in range.
pub broadcast proof fn lemma_in_bounds_addressable(v: WorldView, x: int, y: int, z: int)
    requires
        v.wf(),
        v.in_bounds(x, y, z),
    ensures
        #![trigger v.addressable(x, y, z)]
        #![trigger v.idx(x, y, z)]
        v.addressable(x, y, z),
        0 <= v.idx(x, y, z) < v.size(),
{
    let w = v.width as int;
    let d = v.depth as int;
    let h = v.height as int;
    assert(0 <= x + y * w + z * (w * d) < w * d * h) by (nonlinear_arith)
        requires
            0 <= x < w,
            0 <= y < d,
            0 <= z < h,
    ;
    assert(z * w <= w * d * h) by (nonlinear_arith)
        requires
            0 <= x < w,
            0 <= y < d,
            0 <= z < h,
    ;
}

/// Distinct cells within the world have distinct indices.
pub proof fn lemma_idx_injective(v: WorldView, x1: int, y1: int, z1: int, x2: int, y2: int, z2: int)
    requires
        v.in_bounds(x1, y1, z1),
        v.in_bounds(x2, y2, z2),
        v.idx(x1, y1, z1) == v.idx(x2, y2, z2),
    ensures
        x1 == x2 && y1 == y2 && z1 == z2,
{
    let w = v.width as int;
    let d = v.depth as int;
    let a1 = x1 + y1 * w;
    let a2 = x2 + y2 * w;
    assert(0 <= a1 < w * d && 0 <= a2 < w * d) by (nonlinear_arith)
        requires
            0 <= x1 < w,
            0 <= y1 < d,
            0 <= x2 < w,
            0 <= y2 < d,
            a1 == x1 + y1 * w,
            a2 == x2 + y2 * w,
    ;
    assert(z1 == z2) by (nonlinear_arith)
        requires
            a1 + z1 * (w * d) == a2 + z2 * (w * d),
            0 <= a1 < w * d,
            0 <= a2 < w * d,
            0 <= z1,
            0 <= z2,
    ;
    assert(y1 == y2) by (nonlinear_arith)
        requires
            x1 + y1 * w == x2 + y2 * w,
            0 <= x1 < w,
            0 <= x2 < w,
            0 <= y1,
            0 <= y2,
    ;
}

/// The world: a grid of tiles with water, sediment and soil-moisture layers, the
/// buffers that one tick of the water simulation fills, the list of water sources
/// and the moisture held in the atmosphere.
pub struct World {
    width: usize,
    depth: usize,
    height: usize,
    tiles: Vec<Tile>,
    tiles_cache: Vec<u8>,
    water_mass: Vec<u8>,
    water_sediment: Vec<u8>,
    mass_delta: Vec<i16>,
    sediment_delta: Vec<i16>,
    water_outflow: Vec<u16>,
    soil_moisture: Vec<u8>,
    moisture_delta: Vec<i16>,
    sources: Vec<(usize, usize, usize)>,
    atmospheric_moisture: u32,
}

impl View for World {
    type V = WorldView;

    closed spec fn view(&self) -> WorldView {
        WorldView {
            width: self.width as nat,
            depth: self.depth as nat,
            height: self.height as nat,
            tiles: self.tiles@,
            tiles_cache: self.tiles_cache@,
            water_mass: self.water_mass@,
            water_sediment: self.water_sediment@,
            mass_delta: self.mass_delta@,
            sediment_delta: self.sediment_delta@,
            water_outflow: self.water_outflow@,
            soil_moisture: self.soil_moisture@,
            moisture_delta: self.moisture_delta@,
            sources: self.sources@,
            atmospheric_moisture: self.atmospheric_moisture,
        }
    }
}

pub(crate) fn filled<T: Copy>(v: T, n: usize) -> (r: Vec<T>)
    ensures
        r@ == Seq::new(n as nat, |i: int| v),
{
    let mut r: Vec<T> = Vec::new();
    let mut i: usize = 0;
    while i < n
        invariant
            i <= n,
            r@ == Seq::new(i as nat, |k: int| v),
        decreases n - i,
    {
        r.push(v);
        i += 1;
    }
    r
}

impl World {
    pub open spec fn wf(&self) -> bool {
        self@.wf()
    }

    /// A world of the given size: every tile Air, every layer zero, no sources.
    pub fn new(width: usize, depth: usize, height: usize) -> (w: World)
        requires
            width * depth <= usize::MAX,
            width * depth * height <= usize::MAX,
        ensures
            w.wf(),
            w@.width == width,
            w@.depth == depth,
            w@.height == height,
            w@.tiles == Seq::new(w@.size(), |i: int| Tile::Air),
            w@.tiles_cache == Seq::new(w@.size(), |i: int| 0u8),
            w@.water_mass == Seq::new(w@.size(), |i: int| 0u8),
            w@.water_sediment == Seq::new(w@.size(), |i: int| 0u8),
            w@.mass_delta == Seq::new(w@.size(), |i: int| 0i16),
            w@.sediment_delta == Seq::new(w@.size(), |i: int| 0i16),
            w@.water_outflow == Seq::new(w@.size(), |i: int| 0u16),
            w@.soil_moisture == Seq::new(w@.size(), |i: int| 0u8),
            w@.moisture_delta == Seq::new(w@.size(), |i: int| 0i16),
            w@.sources == Seq::<(usize, usize, usize)>::empty(),
            w@.atmospheric_moisture == 0,
    {
        let size = width * depth * height;
        World {
            width,
            depth,
            height,
            tiles: filled(Tile::Air, size),
            tiles_cache: filled(0u8, size),
            water_mass: filled(0u8, size),
            water_sediment: filled(0u8, size),
            mass_delta: filled(0i16, size),
            sediment_delta: filled(0i16, size),
            water_outflow: filled(0u16, size),
            soil_moisture: filled(0u8, size),
            moisture_delta: filled(0i16, size),
            sources: Vec::new(),
            atmospheric_moisture: 0,
        }
    }

    pub fn width(&self) -> (r: usize)
        ensures
            r == self@.width,
    {
        self.width
    }

    pub fn depth(&self) -> (r: usize)
        ensures
            r == self@.depth,
    {
        self.depth
    }

    pub fn height(&self) -> (r: usize)
        ensures
            r == self@.height,
    {
        self.height
    }

    /// The position of cell (x, y, z) in every layer.
    pub fn index(&self, x: usize, y: usize, z: usize) -> (i: usize)
        requires
            z * self@.width <= usize::MAX,
            self@.idx(x as int, y as int, z as int) <= usize::MAX,
        ensures
            i == self@.idx(x as int, y as int, z as int),
    {
        let w = self.width;
        let d = self.depth;
        proof {
            assert(0 <= y * w <= x + y * w + z * w * d) by (nonlinear_arith)
                requires
                    0 <= x,
                    0 <= y,
                    0 <= z,
                    0 <= w,
                    0 <= d,
            ;
            assert(z * w * d == z * (w * d)) by (nonlinear_arith);
            assert(0 <= z * w * d) by (nonlinear_arith)
                requires
                    0 <= z,
                    0 <= w,
                    0 <= d,
            ;
        }
        x + y * w + z * w * d
    }

    pub fn in_bounds(&self, x: usize, y: usize, z: usize) -> (b: bool)
        ensures
            b == self@.in_bounds(x as int, y as int, z as int),
    {
        x < self.width && y < self.depth && z < self.height
    }

    pub fn get(&self, x: usize, y: usize, z: usize) -> (t: Tile)
        requires
            self.wf(),
            self@.addressable(x as int, y as int, z as int),
        ensures
            t == self@.tile(x as int, y as int, z as int),
    {
        let i = self.index(x, y, z);
        self.tiles[i]
    }

    pub fn set(&mut self, x: usize, y: usize, z: usize, tile: Tile)
        requires
            old(self).wf(),
            old(self)@.addressable(x as int, y as int, z as int),
        ensures
            final(self).wf(),
            final(self)@ == old(self)@.set_tile(x as int, y as int, z as int, tile),
    {
        let i = self.index(x, y, z);
        self.tiles.set(i, tile);
    }

    /// The tile at layer index `i`.
    pub fn tile_at(&self, i: usize) -> (t: Tile)
        requires
            self.wf(),
            i < self@.size(),
        ensures
            t == self@.tiles[i as int],
    {
        self.tiles[i]
    }

    /// Replaces the tile at layer index `i`.
    pub fn set_tile_at(&mut self, i: usize, tile: Tile)
        requires
            old(self).wf(),
            i < old(self)@.size(),
        ensures
            final(self).wf(),
            final(self)@ == old(self)@.set_tile_at(i as int, tile),
    {
        self.tiles.set(i, tile);
    }

    pub fn tiles(&self) -> (s: &[Tile])
        ensures
            s@ == self@.tiles,
    {
        self.tiles.as_slice()
    }

    /// The tiles, for direct modification: afterwards the world holds the tiles as
    /// written through the slice, and everything else as it was. The contract does not
    /// state that the slice keeps its length, so a caller does not learn from it that
    /// the world stays well-formed.
    pub fn tiles_mut(&mut self) -> (s: &mut [Tile])
        requires
            old(self).wf(),
        ensures
            s@ == old(self)@.tiles,
            final(self)@ == (WorldView { tiles: final(s)@, ..old(self)@ }),
    {
        self.tiles.as_mut_slice()
    }

    /// Stores the packed byte of every tile in the export cache.
    pub fn sync_tiles_cache(&mut self)
        requires
            old(self).wf(),
        ensures
            final(self).wf(),
            final(self)@ == (WorldView {
                tiles_cache: Seq::new(old(self)@.size(), |i: int| packed(old(self)@.tiles[i])),
                ..old(self)@
            }),
    {
        let n = self.tiles.len();
        let mut i: usize = 0;
        while i < n
            invariant
                self.wf(),
                n == self@.size(),
                0 <= i <= n,
                self@ == (WorldView {
                    tiles_cache: self@.tiles_cache,
                    ..old(self)@
                }),
                forall|k: int| 0 <= k < i ==> self@.tiles_cache[k] == packed(self@.tiles[k]),
            decreases n - i,
        {
            let p = self.tiles[i].pack();
            self.tiles_cache.set(i, p);
            i += 1;
        }
        assert(self@.tiles_cache =~= Seq::new(old(self)@.size(), |i: int| packed(old(self)@.tiles[i])));
    }

    pub fn tiles_cache(&self) -> (s: &[u8])
        ensures
            s@ == self@.tiles_cache,
    {
        self.tiles_cache.as_slice()
    }

    pub fn tiles_cache_len(&self) -> (n: usize)
        ensures
            n == self@.tiles_cache.len(),
    {
        self.tiles_cache.len()
    }

    pub fn sources(&self) -> (s: &[(usize, usize, usize)])
        ensures
            s@ == self@.sources,
    {
        self.sources.as_slice()
    }

    /// A copy of the list of sources.
    pub fn sources_vec(&self) -> (v: Vec<(usize, usize, usize)>)
        ensures
            v@ == self@.sources,
    {
        let mut v: Vec<(usize, usize, usize)> = Vec::new();
        let mut i: usize = 0;
        while i < self.sources.len()
            invariant
                i <= self.sources@.len(),
                v@ == self.sources@.subrange(0, i as int),
            decreases self.sources.len() - i,
        {
            v.push(self.sources[i]);
            i += 1;
            assert(v@ =~= self.sources@.subrange(0, i as int));
        }
        assert(v@ =~= self.sources@);
        v
    }

    pub fn add_source(&mut self, x: usize, y: usize, z: usize)
        requires
            old(self).wf(),
        ensures
            final(self).wf(),
            final(self)@ == (WorldView { sources: old(self)@.sources.push((x, y, z)), ..old(self)@ }),
    {
        self.sources.push((x, y, z));
    }

    pub fn clear_sources(&mut self)
        requires
            old(self).wf(),
        ensures
            final(self).wf(),
            final(self)@ == (WorldView { sources: Seq::empty(), ..old(self)@ }),
    {
        self.sources.clear();
    }

    // --- water layer ---

    pub fn water_mass(&self, x: usize, y: usize, z: usize) -> (m: u8)
        requires
            self.wf(),
            self@.addressable(x as int, y as int, z as int),
        ensures
            m == self@.mass(x as int, y as int, z as int),
    {
        let i = self.index(x, y, z);
        self.water_mass[i]
    }

    pub fn set_water_mass(&mut self, x: usize, y: usize, z: usize, mass: u8)
        requires
            old(self).wf(),
            old(self)@.addressable(x as int, y as int, z as int),
        ensures
            final(self).wf(),
            final(self)@ == old(self)@.set_mass_at(old(self)@.idx(x as int, y as int, z as int), mass),
    {
        let i = self.index(x, y, z);
        self.water_mass.set(i, mass);
    }

    pub fn water_mass_len(&self) -> (n: usize)
        ensures
            n == self@.water_mass.len(),
    {
        self.water_mass.len()
    }

    /// The whole water-mass layer, as exported.
    pub fn water_mass_layer(&self) -> (s: &[u8])
        ensures
            s@ == self@.water_mass,
    {
        self.water_mass.as_slice()
    }

    pub fn mass_at(&self, i: usize) -> (m: u8)
        requires
            self.wf(),
            i < self@.size(),
        ensures
            m == self@.water_mass[i as int],
    {
        self.water_mass[i]
    }

    pub fn set_mass_at(&mut self, i: usize, mass: u8)
        requires
            old(self).wf(),
            i < old(self)@.size(),
        ensures
            final(self).wf(),
            final(self)@ == old(self)@.set_mass_at(i as int, mass),
    {
        self.water_mass.set(i, mass);
    }

    pub fn water_sediment(&self, x: usize, y: usize, z: usize) -> (s: u8)
        requires
            self.wf(),
            self@.addressable(x as int, y as int, z as int),
        ensures
            s == self@.water_sediment[self@.idx(x as int, y as int, z as int)],
    {
        let i = self.index(x, y, z);
        self.water_sediment[i]
    }

    pub fn set_water_sediment(&mut self, x: usize, y: usize, z: usize, sed: u8)
        requires
            old(self).wf(),
            old(self)@.addressable(x as int, y as int, z as int),
        ensures
            final(self).wf(),
            final(self)@ == old(self)@.set_sediment_at(old(self)@.idx(x as int, y as int, z as int), sed),
    {
        let i = self.index(x, y, z);
        self.water_sediment.set(i, sed);
    }

    pub fn sediment_at(&self, i: usize) -> (s: u8)
        requires
            self.wf(),
            i < self@.size(),
        ensures
            s == self@.water_sediment[i as int],
    {
        self.water_sediment[i]
    }

    pub fn set_sediment_at(&mut self, i: usize, sed: u8)
        requires
            old(self).wf(),
            i < old(self)@.size(),
        ensures
            final(self).wf(),
            final(self)@ == old(self)@.set_sediment_at(i as int, sed),
    {
        self.water_sediment.set(i, sed);
    }

    // --- soil moisture ---

    pub fn soil_moisture(&self, x: usize, y: usize, z: usize) -> (m: u8)
        requires
            self.wf(),
            self@.addressable(x as int, y as int, z as int),
        ensures
            m == self@.soil_moisture[self@.idx(x as int, y as int, z as int)],
    {
        let i = self.index(x, y, z);
        self.soil_moisture[i]
    }

    pub fn set_soil_moisture(&mut self, x: usize, y: usize, z: usize, moisture: u8)
        requires
            old(self).wf(),
            old(self)@.addressable(x as int, y as int, z as int),
        ensures
            final(self).wf(),
            final(self)@ == old(self)@.set_moisture_at(old(self)@.idx(x as int, y as int, z as int), moisture),
    {
        let i = self.index(x, y, z);
        self.soil_moisture.set(i, moisture);
    }

    pub fn soil_moisture_len(&self) -> (n: usize)
        ensures
            n == self@.soil_moisture.len(),
    {
        self.soil_moisture.len()
    }

    /// The whole soil-moisture layer, as exported.
    pub fn soil_moisture_layer(&self) -> (s: &[u8])
        ensures
            s@ == self@.soil_moisture,
    {
        self.soil_moisture.as_slice()
    }

    pub fn moisture_at(&self, i: usize) -> (m: u8)
        requires
            self.wf(),
            i < self@.size(),
        ensures
            m == self@.soil_moisture[i as int],
    {
        self.soil_moisture[i]
    }

    pub fn set_moisture_at(&mut self, i: usize, moisture: u8)
        requires
            old(self).wf(),
            i < old(self)@.size(),
        ensures
            final(self).wf(),
            final(self)@ == old(self)@.set_moisture_at(i as int, moisture),
    {
        self.soil_moisture.set(i, moisture);
    }

    pub fn moisture_delta_at(&self, i: usize) -> (d: i16)
        requires
            self.wf(),
            i < self@.size(),
        ensures
            d == self@.moisture_delta[i as int],
    {
        self.moisture_delta[i]
    }

    pub fn set_moisture_delta_at(&mut self, i: usize, delta: i16)
        requires
            old(self).wf(),
            i < old(self)@.size(),
        ensures
            final(self).wf(),
            final(self)@ == old(self)@.set_moisture_delta_at(i as int, delta),
    {
        self.moisture_delta.set(i, delta);
    }

    /// Applies every pending moisture delta: each cell with a nonzero delta gets its
    /// moisture plus the delta, clamped to 0..=the capacity of its tile, and the delta
    /// is cleared.
    pub fn apply_moisture_deltas(&mut self)
        requires
            old(self).wf(),
        ensures
            final(self).wf(),
            final(self)@ == (WorldView {
                soil_moisture: Seq::new(
                    old(self)@.size(),
                    |i: int|
                        applied_moisture(
                            old(self)@.soil_moisture[i],
                            old(self)@.moisture_delta[i],
                            capacity_of(old(self)@.tiles[i]),
                        ),
                ),
                moisture_delta: Seq::new(old(self)@.size(), |i: int| 0i16),
                ..old(self)@
            }),
    {
        let n = self.soil_moisture.len();
        let mut i: usize = 0;
        while i < n
            invariant
                self.wf(),
                n == self@.size(),
                0 <= i <= n,
                self@ == (WorldView {
                    soil_moisture: self@.soil_moisture,
                    moisture_delta: self@.moisture_delta,
                    ..old(self)@
                }),
                forall|k: int|
                    0 <= k < i ==> self@.soil_moisture[k] == applied_moisture(
                        old(self)@.soil_moisture[k],
                        old(self)@.moisture_delta[k],
                        capacity_of(old(self)@.tiles[k]),
                    ) && self@.moisture_delta[k] == 0,
                forall|k: int|
                    i <= k < n ==> self@.soil_moisture[k] == old(self)@.soil_moisture[k]
                        && self@.moisture_delta[k] == old(self)@.moisture_delta[k],
            decreases n - i,
        {
            let delta = self.moisture_delta[i];
            if delta != 0 {
                let cap = self.tiles[i].moisture_capacity() as i16;
                let sum = (self.soil_moisture[i] as i16).wrapping_add(delta);
                let new_val = if sum < 0 {
                    0
                } else if sum > cap {
                    cap
                } else {
                    sum
                };
                self.soil_moisture.set(i, new_val as u8);
                self.moisture_delta.set(i, 0);
            }
            i += 1;
        }
        assert(self@.soil_moisture =~= Seq::new(
            old(self)@.size(),
            |i: int|
                applied_moisture(
                    old(self)@.soil_moisture[i],
                    old(self)@.moisture_delta[i],
                    capacity_of(old(self)@.tiles[i]),
                ),
        ));
        assert(self@.moisture_delta =~= Seq::new(old(self)@.size(), |i: int| 0i16));
    }

    // --- deltas and outflow ---

    pub fn mass_delta_ref(&self) -> (s: &[i16])
        ensures
            s@ == self@.mass_delta,
    {
        self.mass_delta.as_slice()
    }

    pub fn mass_delta_at(&self, i: usize) -> (d: i16)
        requires
            self.wf(),
            i < self@.size(),
        ensures
            d == self@.mass_delta[i as int],
    {
        self.mass_delta[i]
    }

    pub fn set_mass_delta_at(&mut self, i: usize, delta: i16)
        requires
            old(self).wf(),
            i < old(self)@.size(),
        ensures
            final(self).wf(),
            final(self)@ == old(self)@.set_mass_delta_at(i as int, delta),
    {
        self.mass_delta.set(i, delta);
    }

    pub fn sediment_delta_at(&self, i: usize) -> (d: i16)
        requires
            self.wf(),
            i < self@.size(),
        ensures
            d == self@.sediment_delta[i as int],
    {
        self.sediment_delta[i]
    }

    /// Records a flow of `amount` water (carrying `sed_amount` sediment) from cell
    /// `from` to cell `to`.
    pub fn record_flow(&mut self, from: usize, to: usize, amount: u16, sed_amount: i16)
        requires
            old(self).wf(),
            from < old(self)@.size(),
            to < old(self)@.size(),
        ensures
            final(self).wf(),
            final(self)@ == old(self)@.record_flow(from as int, to as int, amount, sed_amount),
    {
        let a = amount as i16;
        let v = self.mass_delta[from].wrapping_sub(a);
        self.mass_delta.set(from, v);
        let v = self.mass_delta[to].wrapping_add(a);
        self.mass_delta.set(to, v);
        let o = self.water_outflow[from].wrapping_add(amount);
        self.water_outflow.set(from, o);
        if sed_amount != 0 {
            let v = self.sediment_delta[from].wrapping_sub(sed_amount);
            self.sediment_delta.set(from, v);
            let v = self.sediment_delta[to].wrapping_add(sed_amount);
            self.sediment_delta.set(to, v);
        }
    }

    /// Applies every pending water delta: mass and sediment each get their delta added
    /// and clamped to 0..=255, and the deltas are cleared.
    pub fn apply_water_deltas(&mut self)
        requires
            old(self).wf(),
        ensures
            final(self).wf(),
            final(self)@ == (WorldView {
                water_mass: Seq::new(
                    old(self)@.size(),
                    |i: int| applied_u8(old(self)@.water_mass[i], old(self)@.mass_delta[i]),
                ),
                mass_delta: Seq::new(old(self)@.size(), |i: int| 0i16),
                water_sediment: Seq::new(
                    old(self)@.size(),
                    |i: int| applied_u8(old(self)@.water_sediment[i], old(self)@.sediment_delta[i]),
                ),
                sediment_delta: Seq::new(old(self)@.size(), |i: int| 0i16),
                ..old(self)@
            }),
    {
        let n = self.water_mass.len();
        let mut i: usize = 0;
        while i < n
            invariant
                self.wf(),
                n == self@.size(),
                0 <= i <= n,
                self@ == (WorldView {
                    water_mass: self@.water_mass,
                    mass_delta: self@.mass_delta,
                    water_sediment: self@.water_sediment,
                    sediment_delta: self@.sediment_delta,
                    ..old(self)@
                }),
                forall|k: int|
                    0 <= k < i ==> self@.water_mass[k] == applied_u8(
                        old(self)@.water_mass[k],
                        old(self)@.mass_delta[k],
                    ) && self@.mass_delta[k] == 0 && self@.water_sediment[k] == applied_u8(
                        old(self)@.water_sediment[k],
                        old(self)@.sediment_delta[k],
                    ) && self@.sediment_delta[k] == 0,
                forall|k: int|
                    i <= k < n ==> self@.water_mass[k] == old(self)@.water_mass[k]
                        && self@.mass_delta[k] == old(self)@.mass_delta[k]
                        && self@.water_sediment[k] == old(self)@.water_sediment[k]
                        && self@.sediment_delta[k] == old(self)@.sediment_delta[k],
            decreases n - i,
        {
            let delta = self.mass_delta[i];
            if delta != 0 {
                let sum = (self.water_mass[i] as i16).wrapping_add(delta);
                let new_mass = if sum < 0 {
                    0
                } else if sum > 255 {
                    255
                } else {
                    sum
                };
                self.water_mass.set(i, new_mass as u8);
                self.mass_delta.set(i, 0);
            }
            let sdelta = self.sediment_delta[i];
            if sdelta != 0 {
                let sum = (self.water_sediment[i] as i16).wrapping_add(sdelta);
                let new_sed = if sum < 0 {
                    0
                } else if sum > 255 {
                    255
                } else {
                    sum
                };
                self.water_sediment.set(i, new_sed as u8);
                self.sediment_delta.set(i, 0);
            }
            i += 1;
        }
        assert(self@.water_mass =~= Seq::new(
            old(self)@.size(),
            |i: int| applied_u8(old(self)@.water_mass[i], old(self)@.mass_delta[i]),
        ));
        assert(self@.mass_delta =~= Seq::new(old(self)@.size(), |i: int| 0i16));
        assert(self@.water_sediment =~= Seq::new(
            old(self)@.size(),
            |i: int| applied_u8(old(self)@.water_sediment[i], old(self)@.sediment_delta[i]),
        ));
        assert(self@.sediment_delta =~= Seq::new(old(self)@.size(), |i: int| 0i16));
    }

    /// Resets the outflow of every cell to zero.
    pub fn clear_outflow(&mut self)
        requires
            old(self).wf(),
        ensures
            final(self).wf(),
            final(self)@ == (WorldView {
                water_outflow: Seq::new(old(self)@.size(), |i: int| 0u16),
                ..old(self)@
            }),
    {
        let n = self.water_outflow.len();
        let mut i: usize = 0;
        while i < n
            invariant
                self.wf(),
                n == self@.size(),
                0 <= i <= n,
                self@ == (WorldView { water_outflow: self@.water_outflow, ..old(self)@ }),
                forall|k: int| 0 <= k < i ==> self@.water_outflow[k] == 0,
            decreases n - i,
        {
            self.water_outflow.set(i, 0);
            i += 1;
        }
        assert(self@.water_outflow =~= Seq::new(old(self)@.size(), |i: int| 0u16));
    }

    pub fn water_outflow(&self, idx: usize) -> (f: u16)
        requires
            self.wf(),
            idx < self@.size(),
        ensures
            f == self@.water_outflow[idx as int],
    {
        self.water_outflow[idx]
    }

    pub fn set_outflow_at(&mut self, idx: usize, flow: u16)
        requires
            old(self).wf(),
            idx < old(self)@.size(),
        ensures
            final(self).wf(),
            final(self)@ == old(self)@.set_outflow_at(idx as int, flow),
    {
        self.water_outflow.set(idx, flow);
    }

    // --- atmosphere ---

    pub fn atmospheric_moisture(&self) -> (m: u32)
        ensures
            m == self@.atmospheric_moisture,
    {
        self.atmospheric_moisture
    }

    pub fn set_atmospheric_moisture(&mut self, moisture: u32)
        ensures
            final(self)@ == old(self)@.set_atmospheric(moisture),
    {
        self.atmospheric_moisture = moisture;
    }
}

/// Setting a tile and reading it back gives that tile; other cells keep theirs.
pub proof fn lemma_set_then_get(
    v: WorldView,
    x: int,
    y: int,
    z: int,
    t: Tile,
    x2: int,
    y2: int,
    z2: int,
)
    requires
        v.wf(),
        v.in_bounds(x, y, z),
        v.in_bounds(x2, y2, z2),
    ensures
        v.set_tile(x, y, z, t).tile(x, y, z) == t,
        (x2, y2, z2) != (x, y, z) ==> v.set_tile(x, y, z, t).tile(x2, y2, z2) == v.tile(x2, y2, z2),
{
    lemma_in_bounds_addressable(v, x, y, z);
    lemma_in_bounds_addressable(v, x2, y2, z2);
    if (x2, y2, z2) != (x, y, z) {
        if v.idx(x, y, z) == v.idx(x2, y2, z2) {
            lemma_idx_injective(v, x, y, z, x2, y2, z2);
        }
    }
}

/// `s` is a well-formed world of the same size as `init` in which every cell that held
/// Stone in `init` still holds Stone.
pub open spec fn stone_kept(init: WorldView, s: WorldView) -> bool {
    &&& s.wf()
    &&& s.width == init.width && s.depth == init.depth && s.height == init.height
    &&& forall|x: int, y: int, z: int|
        #![trigger s.tile(x, y, z)]
        init.in_bounds(x, y, z) && init.tile(x, y, z) is Stone ==> s.tile(x, y, z) is Stone
}

/// Replacing the tile of a cell that does not hold Stone keeps every Stone.
pub proof fn lemma_set_non_stone_keeps_stone(init: WorldView, t: WorldView, i: int, tile: Tile)
    requires
        stone_kept(init, t),
        0 <= i < t.size(),
        !(t.tiles[i] is Stone),
    ensures
        stone_kept(init, t.set_tile_at(i, tile)),
{
    let t2 = t.set_tile_at(i, tile);
    assert forall|x: int, y: int, z: int|
        #![trigger t2.tile(x, y, z)]
        init.in_bounds(x, y, z) && init.tile(x, y, z) is Stone implies t2.tile(x, y, z) is Stone by {
        assert(t.tile(x, y, z) is Stone);
        lemma_in_bounds_addressable(t, x, y, z);
    }
}

/// Recording a flow moves mass between two deltas and leaves their sum unchanged,
/// as long as neither delta wraps around.
pub proof fn lemma_record_flow_conserves(v: WorldView, from: int, to: int, amount: u16, sed: i16)
    requires
        v.wf(),
        0 <= from < v.size(),
        0 <= to < v.size(),
        from != to,
        amount <= 255,
        -30000 <= v.mass_delta[from] <= 30000,
        -30000 <= v.mass_delta[to] <= 30000,
    ensures
        v.record_flow(from, to, amount, sed).mass_delta[from] + v.record_flow(
            from,
            to,
            amount,
            sed,
        ).mass_delta[to] == v.mass_delta[from] + v.mass_delta[to],
        v.record_flow(from, to, amount, sed).mass_delta[from] == v.mass_delta[from] - amount,
{
}

} // verus!
