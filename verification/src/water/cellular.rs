use vstd::prelude::*;
use crate::render::{TileType, WaterCell};
use crate::world::{filled, min_int, max_int, clamp_int, wadd16, wsub16};
use crate::sweep::{sweep_row, sweep_layer, sweep_up, sweep_down, lemma_up_keeps, lemma_up_prog};
use crate::water::conservation::{sum_i16, lemma_sum_i16_update, lemma_sum_i16_zero, opposite};

verus! {

// The level-based water model: every cell holds a water level from 0 (dry) to 8 (full)
// beside a terrain cell whose level (0..=8) erodes away.

/// A terrain cell of the level-based model.
#[derive(Clone, Copy, PartialEq, Eq, Debug, Structural)]
pub struct TerrainCell {
    pub tile_type: TileType,
    /// How much of the tile is left, 0..=8; erosion lowers it.
    pub level: u8,
    pub moisture: u8,
    pub variant: u8,
}

/// Air and Water are not solid; every other tile type is.
pub open spec fn solid_type(t: TileType) -> bool {
    !(t is Air) && !(t is Water)
}

/// Grass, Dirt and Sand erode.
pub open spec fn erodible_type(t: TileType) -> bool {
    t is Grass || t is Dirt || t is Sand
}

impl TerrainCell {
    /// A full tile of the given type.
    pub fn new(tile_type: TileType) -> (t: TerrainCell)
        ensures
            t == (TerrainCell { tile_type, level: 8, moisture: 0, variant: 0 }),
    {
        TerrainCell { tile_type, level: 8, moisture: 0, variant: 0 }
    }

    pub fn is_solid(&self) -> (b: bool)
        ensures
            b == solid_type(self.tile_type),
    {
        match self.tile_type {
            TileType::Air | TileType::Water => false,
            _ => true,
        }
    }

    pub fn is_erodible(&self) -> (b: bool)
        ensures
            b == erodible_type(self.tile_type),
    {
        match self.tile_type {
            TileType::Grass | TileType::Dirt | TileType::Sand => true,
            _ => false,
        }
    }
}

/// The position of cell (x, y, z) in a grid of width `w` and depth `d`, cells laid out
/// x-fastest, then y, then z.
pub open spec fn cidx(w: nat, d: nat, x: int, y: int, z: int) -> int {
    x + y * w + z * (w * d)
}

/// A grid whose cell count, and 32 times its height, fit in `usize`.
pub open spec fn grid_fits(w: nat, d: nat, h: nat) -> bool {
    &&& w * d <= usize::MAX
    &&& w * d * h <= usize::MAX
    &&& 32 * h <= usize::MAX
}

pub open spec fn in_grid(w: nat, d: nat, h: nat, x: int, y: int, z: int) -> bool {
    0 <= x < w && 0 <= y < d && 0 <= z < h
}

/// Every cell of the grid has its own index below the cell count.
pub broadcast proof fn lemma_cidx_bounds(w: nat, d: nat, h: nat, x: int, y: int, z: int)
    requires
        #[trigger] in_grid(w, d, h, x, y, z),
    ensures
        0 <= cidx(w, d, x, y, z) < w * d * h,
        0 <= x + y * w < w * d,
        0 <= z * (w * d) <= cidx(w, d, x, y, z),
{
    let wi = w as int;
    let di = d as int;
    let hi = h as int;
    assert(0 <= x + y * wi < wi * di) by (nonlinear_arith)
        requires
            0 <= x < wi,
            0 <= y < di,
    ;
    assert(0 <= z * (wi * di) && (x + y * wi) + z * (wi * di) < wi * di * hi) by (nonlinear_arith)
        requires
            0 <= x + y * wi < wi * di,
            0 <= z < hi,
    ;
}

/// Computes `cidx` for a cell of a grid that fits.
fn cell_index(w: usize, d: usize, x: usize, y: usize, z: usize, Ghost(h): Ghost<nat>) -> (i: usize)
    requires
        grid_fits(w as nat, d as nat, h),
        in_grid(w as nat, d as nat, h, x as int, y as int, z as int),
    ensures
        i == cidx(w as nat, d as nat, x as int, y as int, z as int),
        i < w * d * h,
{
    proof {
        lemma_cidx_bounds(w as nat, d as nat, h, x as int, y as int, z as int);
        assert(0 <= y * w <= x + y * w) by (nonlinear_arith)
            requires
                0 <= x,
                0 <= y,
                0 <= w,
        ;
    }
    x + y * w + z * (w * d)
}

/// The water a column can still take from layer `z` down to the first solid cell
/// (exclusive): the sum of `8 - level` over those cells.
pub open spec fn avail(terrain: Seq<TerrainCell>, cells: Seq<WaterCell>, w: nat, d: nat, x: int, y: int, z: int) -> int
    decreases z + 1,
{
    if z < 0 {
        0
    } else if solid_type(terrain[cidx(w, d, x, y, z)].tile_type) {
        0
    } else {
        (8 - cells[cidx(w, d, x, y, z)].level) + avail(terrain, cells, w, d, x, y, z - 1)
    }
}

/// Every water level of the grid is at most 8.
pub open spec fn levels_valid(cells: Seq<WaterCell>) -> bool {
    forall|i: int| 0 <= i < cells.len() ==> #[trigger] cells[i].level <= 8
}

/// Layers at or below `z` of a column lie at or before its index at `z`.
proof fn lemma_cidx_lower(w: nat, d: nat, x: int, y: int, z1: int, z2: int)
    requires
        0 <= x,
        0 <= y,
        0 <= z1 <= z2,
    ensures
        0 <= cidx(w, d, x, y, z1) <= cidx(w, d, x, y, z2),
        0 <= y * w,
{
    let wd = (w * d) as int;
    assert(0 <= z1 * wd <= z2 * wd) by (nonlinear_arith)
        requires
            0 <= z1 <= z2,
            0 <= wd,
    ;
    assert(0 <= y * w) by (nonlinear_arith)
        requires
            0 <= y,
    ;
}

/// The column (x, y) from layer `z` down to layer 0 lies within the terrain and the
/// water cells, and every water level there is at most 8.
pub open spec fn column_valid(terrain: Seq<TerrainCell>, cells: Seq<WaterCell>, w: nat, d: nat, x: int, y: int, z: int) -> bool {
    &&& cidx(w, d, x, y, z) < terrain.len()
    &&& cidx(w, d, x, y, z) < cells.len()
    &&& forall|k: int| 0 <= k <= z ==> #[trigger] cells[cidx(w, d, x, y, k)].level <= 8
}

/// In a grid whose levels are all valid, every column that fits is valid.
proof fn lemma_column_valid(terrain: Seq<TerrainCell>, cells: Seq<WaterCell>, w: nat, d: nat, x: int, y: int, z: int)
    requires
        levels_valid(cells),
        0 <= x,
        0 <= y,
        0 <= z,
        cidx(w, d, x, y, z) < terrain.len(),
        cidx(w, d, x, y, z) < cells.len(),
    ensures
        column_valid(terrain, cells, w, d, x, y, z),
{
    assert forall|k: int| 0 <= k <= z implies #[trigger] cells[cidx(w, d, x, y, k)].level <= 8 by {
        lemma_cidx_lower(w, d, x, y, k, z);
    }
}

proof fn lemma_avail_bounds(terrain: Seq<TerrainCell>, cells: Seq<WaterCell>, w: nat, d: nat, x: int, y: int, z: int)
    requires
        0 <= x,
        0 <= y,
        -1 <= z,
        z >= 0 ==> cidx(w, d, x, y, z) < cells.len(),
        forall|k: int| 0 <= k <= z ==> #[trigger] cells[cidx(w, d, x, y, k)].level <= 8,
    ensures
        0 <= avail(terrain, cells, w, d, x, y, z) <= 8 * (z + 1),
    decreases z + 1,
{
    if z >= 0 {
        lemma_cidx_lower(w, d, x, y, 0, z);
        if z >= 1 {
            lemma_cidx_lower(w, d, x, y, z - 1, z);
        }
        lemma_avail_bounds(terrain, cells, w, d, x, y, z - 1);
        let i = cidx(w, d, x, y, z);
        assert(cells[cidx(w, d, x, y, z)].level <= 8);
    }
}

/// Computes `cidx` for a cell of a column whose index fits in `usize` (the layer offset
/// is computed as `z * w * d`).
fn column_index(w: usize, d: usize, x: usize, y: usize, z: usize) -> (i: usize)
    requires
        z * w <= usize::MAX,
        cidx(w as nat, d as nat, x as int, y as int, z as int) <= usize::MAX,
    ensures
        i == cidx(w as nat, d as nat, x as int, y as int, z as int),
{
    proof {
        lemma_cidx_lower(w as nat, d as nat, x as int, y as int, 0, z as int);
        assert((z * w) * d == z * (w * d)) by (nonlinear_arith);
        assert(0 <= z * (w * d)) by (nonlinear_arith);
    }
    x + y * w + z * w * d
}

/// The cell one layer below (x, y, z) lies `w * d` positions earlier.
proof fn lemma_below(w: nat, d: nat, h: nat, x: int, y: int, z: int)
    requires
        in_grid(w, d, h, x, y, z),
        z >= 1,
    ensures
        in_grid(w, d, h, x, y, z - 1),
        cidx(w, d, x, y, z - 1) == cidx(w, d, x, y, z) - w * d,
        w * d > 0,
{
    let wi = w as int;
    let di = d as int;
    assert(z * (wi * di) - (z - 1) * (wi * di) == wi * di) by (nonlinear_arith);
    assert(wi * di > 0) by (nonlinear_arith)
        requires
            0 <= x < wi,
            0 <= y < di,
    ;
}

/// A cell with a new water level.
pub open spec fn with_level(c: WaterCell, level: int) -> WaterCell {
    WaterCell { level: level as u8, ..c }
}

/// The gravity step at (x, y, z): the water that cell held at the start of the tick
/// (`orig`) falls into the cell below, unless that cell is solid or already full, as
/// much as fits; the cell keeps what did not fall (never below zero).
pub open spec fn fall_step(
    orig: Seq<WaterCell>,
    terrain: Seq<TerrainCell>,
    w: nat,
    d: nat,
    cells: Seq<WaterCell>,
    x: int,
    y: int,
    z: int,
) -> Seq<WaterCell> {
    let i = cidx(w, d, x, y, z);
    let b = cidx(w, d, x, y, z - 1);
    let src = orig[i].level;
    if src == 0 || solid_type(terrain[b].tile_type) || cells[b].level >= 8 {
        cells
    } else {
        let t = min_int(src as int, 8 - cells[b].level);
        let c1 = cells.update(b, with_level(cells[b], cells[b].level + t));
        c1.update(i, with_level(c1[i], if c1[i].level >= t {
            c1[i].level - t
        } else {
            0
        }))
    }
}

pub open spec fn fall_fn(orig: Seq<WaterCell>, terrain: Seq<TerrainCell>, w: nat, d: nat) -> spec_fn(
    Seq<WaterCell>,
    int,
    int,
    int,
) -> Seq<WaterCell> {
    |c: Seq<WaterCell>, x: int, y: int, z: int| fall_step(orig, terrain, w, d, c, x, y, z)
}

/// The gravity pass: `fall_step` on every cell, layers from the top down to layer 1.
pub open spec fn fall_pass(orig: Seq<WaterCell>, terrain: Seq<TerrainCell>, w: nat, d: nat, h: nat) -> Seq<WaterCell> {
    sweep_down(orig, fall_fn(orig, terrain, w, d), w, d, h as int, (if h >= 1 {
        h - 1
    } else {
        0
    }) as nat)
}

fn fall_cell(
    orig: &Vec<WaterCell>,
    terrain: &Vec<TerrainCell>,
    cells: &mut Vec<WaterCell>,
    w: usize,
    d: usize,
    x: usize,
    y: usize,
    z: usize,
    Ghost(h): Ghost<nat>,
)
    requires
        grid_fits(w as nat, d as nat, h),
        in_grid(w as nat, d as nat, h, x as int, y as int, z as int),
        z >= 1,
        orig@.len() == w * d * h,
        terrain@.len() == w * d * h,
        old(cells)@.len() == w * d * h,
    ensures
        final(cells)@.len() == old(cells)@.len(),
        final(cells)@ == fall_step(orig@, terrain@, w as nat, d as nat, old(cells)@, x as int, y as int, z as int),
{
    proof {
        lemma_below(w as nat, d as nat, h, x as int, y as int, z as int);
    }
    let idx = cell_index(w, d, x, y, z, Ghost(h));
    let below = cell_index(w, d, x, y, z - 1, Ghost(h));
    let src = orig[idx].level;
    if src == 0 {
        return;
    }
    if terrain[below].is_solid() {
        return;
    }
    let bl = cells[below].level;
    if bl >= 8 {
        return;
    }
    let space = 8 - bl;
    let transfer = if src < space {
        src
    } else {
        space
    };
    let mut bc = cells[below];
    bc.level = bl + transfer;
    cells.set(below, bc);
    let mut c = cells[idx];
    c.level = c.level.saturating_sub(transfer);
    cells.set(idx, c);
}

fn fall_pass_exec(orig: &Vec<WaterCell>, terrain: &Vec<TerrainCell>, w: usize, d: usize, h: usize) -> (cells: Vec<WaterCell>)
    requires
        grid_fits(w as nat, d as nat, h as nat),
        orig@.len() == w * d * h,
        terrain@.len() == w * d * h,
    ensures
        cells@ == fall_pass(orig@, terrain@, w as nat, d as nat, h as nat),
        cells@.len() == w * d * h,
{
    let mut cells = orig.clone();
    let ghost f = fall_fn(orig@, terrain@, w as nat, d as nat);
    let mut z = h;
    while z > 1
        invariant
            grid_fits(w as nat, d as nat, h as nat),
            orig@.len() == w * d * h,
            terrain@.len() == w * d * h,
            cells@.len() == w * d * h,
            f == fall_fn(orig@, terrain@, w as nat, d as nat),
            z <= h,
            h >= 1 ==> z >= 1,
            h == 0 ==> z == 0,
            cells@ == sweep_down(orig@, f, w as nat, d as nat, h as int, (h - z) as nat),
        decreases z,
    {
        z -= 1;
        let ghost sz = cells@;
        let mut y: usize = 0;
        while y < d
            invariant
                grid_fits(w as nat, d as nat, h as nat),
                orig@.len() == w * d * h,
                terrain@.len() == w * d * h,
                cells@.len() == w * d * h,
                f == fall_fn(orig@, terrain@, w as nat, d as nat),
                1 <= z < h,
                y <= d,
                cells@ == sweep_layer(sz, f, z as int, w as nat, y as nat),
            decreases d - y,
        {
            let ghost sy = cells@;
            let mut x: usize = 0;
            while x < w
                invariant
                    grid_fits(w as nat, d as nat, h as nat),
                    orig@.len() == w * d * h,
                    terrain@.len() == w * d * h,
                    cells@.len() == w * d * h,
                    f == fall_fn(orig@, terrain@, w as nat, d as nat),
                    1 <= z < h,
                    y < d,
                    x <= w,
                    cells@ == sweep_row(sy, f, y as int, z as int, x as nat),
                decreases w - x,
            {
                fall_cell(orig, terrain, &mut cells, w, d, x, y, z, Ghost(h as nat));
                x += 1;
            }
            y += 1;
        }
    }
    cells
}


/// The offset of neighbor `k` in the spread order: west, east, north, south.
pub open spec fn spread_offset(k: int) -> (int, int) {
    if k == 0 {
        (-1, 0)
    } else if k == 1 {
        (1, 0)
    } else if k == 2 {
        (0, -1)
    } else {
        (0, 1)
    }
}

/// Neighbor `k` of (x, y, z) as a lower neighbor: its index, its weight capped at 255
/// and its weight (the water its column can still take), when it lies in the grid, is
/// not solid, and holds less water than `my`.
pub open spec fn lower_at(
    ag: Seq<WaterCell>,
    terrain: Seq<TerrainCell>,
    w: nat,
    d: nat,
    x: int,
    y: int,
    z: int,
    my: u8,
    k: int,
) -> Option<(int, u8, int)> {
    let nx = x + spread_offset(k).0;
    let ny = y + spread_offset(k).1;
    if nx < 0 || nx >= w || ny < 0 || ny >= d {
        None
    } else {
        let ni = cidx(w, d, nx, ny, z);
        if solid_type(terrain[ni].tile_type) || ag[ni].level >= my {
            None
        } else {
            let wt = avail(terrain, ag, w, d, nx, ny, z);
            Some((ni, min_int(wt, 255) as u8, wt))
        }
    }
}

/// The lower neighbors among the first `k` neighbors, in spread order.
pub open spec fn lowers(
    ag: Seq<WaterCell>,
    terrain: Seq<TerrainCell>,
    w: nat,
    d: nat,
    x: int,
    y: int,
    z: int,
    my: u8,
    k: nat,
) -> Seq<(int, u8, int)>
    decreases k,
{
    if k == 0 {
        Seq::empty()
    } else {
        let prev = lowers(ag, terrain, w, d, x, y, z, my, (k - 1) as nat);
        match lower_at(ag, terrain, w, d, x, y, z, my, k - 1) {
            Some(l) => prev.push(l),
            None => prev,
        }
    }
}

pub open spec fn weight_sum(ls: Seq<(int, u8, int)>, n: nat) -> int
    decreases n,
{
    if n == 0 {
        0
    } else {
        weight_sum(ls, (n - 1) as nat) + ls[n - 1].2
    }
}

/// The sum of the level differences between `my` and the first `n` lower neighbors.
pub open spec fn diff_sum(ag: Seq<WaterCell>, ls: Seq<(int, u8, int)>, my: u8, n: nat) -> int
    decreases n,
{
    if n == 0 {
        0
    } else {
        diff_sum(ag, ls, my, (n - 1) as nat) + (my - ag[ls[n - 1].0].level)
    }
}

/// Hands out `give` among the first `n` lower neighbors in proportion to their capped
/// weights (out of the total weight `tw`), each share at most 255 and never more than
/// is left; returns the deltas and the amount handed out.
pub open spec fn shares(ds: Seq<i16>, ls: Seq<(int, u8, int)>, give: int, tw: int, n: nat) -> (Seq<i16>, int)
    decreases n,
{
    if n == 0 {
        (ds, 0)
    } else {
        let prev = shares(ds, ls, give, tw, (n - 1) as nat);
        let raw = if tw > 0 {
            min_int((give * ls[n - 1].1) / tw, 255)
        } else {
            0
        };
        let share = min_int(raw, give - prev.1);
        let ni = ls[n - 1].0;
        (prev.0.update(ni, wadd16(prev.0[ni], share as i16)), prev.1 + share)
    }
}

/// The spread step at (x, y, z), reading the levels after gravity (`ag`): a cell with
/// more than 1 of water whose water cannot fall gives away a part of its level
/// difference to its lower neighbors (the sum of the differences over one more than
/// their number, at most its level less 1), split in proportion to their weights; what
/// rounding leaves over goes to the first lower neighbor. The deltas are `i16` sums
/// that wrap around on overflow.
pub open spec fn spread_step(
    ag: Seq<WaterCell>,
    terrain: Seq<TerrainCell>,
    w: nat,
    d: nat,
    ds: Seq<i16>,
    x: int,
    y: int,
    z: int,
) -> Seq<i16> {
    let i = cidx(w, d, x, y, z);
    let my = ag[i].level;
    let b = cidx(w, d, x, y, z - 1);
    if my <= 1 {
        ds
    } else if z > 0 && !solid_type(terrain[b].tile_type) && ag[b].level < 8 {
        ds
    } else {
        let ls = lowers(ag, terrain, w, d, x, y, z, my, 4);
        let give = min_int(diff_sum(ag, ls, my, ls.len()) / ((ls.len() + 1) as int), my - 1);
        if ls.len() == 0 || give == 0 {
            ds
        } else {
            let d1 = ds.update(i, wsub16(ds[i], give as i16));
            let r = shares(d1, ls, give, weight_sum(ls, ls.len()), ls.len());
            if r.1 < give {
                r.0.update(ls[0].0, wadd16(r.0[ls[0].0], (give - r.1) as i16))
            } else {
                r.0
            }
        }
    }
}

pub open spec fn spread_fn(ag: Seq<WaterCell>, terrain: Seq<TerrainCell>, w: nat, d: nat) -> spec_fn(
    Seq<i16>,
    int,
    int,
    int,
) -> Seq<i16> {
    |ds: Seq<i16>, x: int, y: int, z: int| spread_step(ag, terrain, w, d, ds, x, y, z)
}

/// The spread pass: from all-zero deltas, `spread_step` on every cell, layers from the
/// bottom up.
pub open spec fn spread_pass(ag: Seq<WaterCell>, terrain: Seq<TerrainCell>, w: nat, d: nat, h: nat) -> Seq<i16> {
    sweep_up(Seq::new(w * d * h, |i: int| 0i16), spread_fn(ag, terrain, w, d), w, d, 0, h)
}

fn lower_neighbor(
    ag: &Vec<WaterCell>,
    terrain: &Vec<TerrainCell>,
    w: usize,
    d: usize,
    x: usize,
    y: usize,
    z: usize,
    my: u8,
    k: usize,
    Ghost(h): Ghost<nat>,
) -> (r: Option<(usize, u8, usize)>)
    requires
        grid_fits(w as nat, d as nat, h),
        in_grid(w as nat, d as nat, h, x as int, y as int, z as int),
        ag@.len() == w * d * h,
        terrain@.len() == w * d * h,
        levels_valid(ag@),
        k < 4,
    ensures
        match r {
            Some(t) => lower_at(ag@, terrain@, w as nat, d as nat, x as int, y as int, z as int, my, k as int)
                == Some((t.0 as int, t.1, t.2 as int)) && t.0 < w * d * h && t.2 <= 8 * (z + 1),
            None => lower_at(ag@, terrain@, w as nat, d as nat, x as int, y as int, z as int, my, k as int)
                is None,
        },
{
    let (nx, ny) = if k == 0 {
        if x == 0 {
            return None;
        }
        (x - 1, y)
    } else if k == 1 {
        if x + 1 >= w {
            return None;
        }
        (x + 1, y)
    } else if k == 2 {
        if y == 0 {
            return None;
        }
        (x, y - 1)
    } else {
        if y + 1 >= d {
            return None;
        }
        (x, y + 1)
    };
    let ni = cell_index(w, d, nx, ny, z, Ghost(h));
    if terrain[ni].is_solid() || ag[ni].level >= my {
        return None;
    }
    proof {
        lemma_cidx_bounds(w as nat, d as nat, h, nx as int, ny as int, z as int);
        lemma_column_valid(terrain@, ag@, w as nat, d as nat, nx as int, ny as int, z as int);
        assert(z * w <= w * d * h) by (nonlinear_arith)
            requires
                z < h,
                ny < d,
        ;
    }
    let wt = CellularWaterSimulator::available_depth(terrain.as_slice(), ag.as_slice(), w, d, nx, ny, z);
    let wu8: u8 = if wt > 255 {
        255
    } else {
        wt as u8
    };
    Some((ni, wu8, wt))
}

fn spread_cell(
    ag: &Vec<WaterCell>,
    terrain: &Vec<TerrainCell>,
    deltas: &mut Vec<i16>,
    w: usize,
    d: usize,
    x: usize,
    y: usize,
    z: usize,
    Ghost(h): Ghost<nat>,
)
    requires
        grid_fits(w as nat, d as nat, h),
        in_grid(w as nat, d as nat, h, x as int, y as int, z as int),
        ag@.len() == w * d * h,
        terrain@.len() == w * d * h,
        old(deltas)@.len() == w * d * h,
        levels_valid(ag@),
    ensures
        final(deltas)@.len() == old(deltas)@.len(),
        final(deltas)@ == spread_step(ag@, terrain@, w as nat, d as nat, old(deltas)@, x as int, y as int, z as int),
{
    let ghost wn = w as nat;
    let ghost dn = d as nat;
    let ghost (xi, yi, zi) = (x as int, y as int, z as int);
    let idx = cell_index(w, d, x, y, z, Ghost(h));
    let my = ag[idx].level;
    if my <= 1 {
        return;
    }
    if z > 0 {
        proof {
            lemma_below(wn, dn, h, xi, yi, zi);
        }
        let b = cell_index(w, d, x, y, z - 1, Ghost(h));
        if !terrain[b].is_solid() && ag[b].level < 8 {
            return;
        }
    }
    assert(my <= 8) by {
        assert(ag@[idx as int].level <= 8);
    }
    let mut lows: Vec<(usize, u8)> = Vec::new();
    let mut total_weight: usize = 0;
    let ghost mut gl: Seq<(int, u8, int)> = Seq::empty();
    let mut k: usize = 0;
    while k < 4
        invariant
            grid_fits(wn, dn, h),
            in_grid(wn, dn, h, xi, yi, zi),
            wn == w && dn == d && xi == x && yi == y && zi == z,
            ag@.len() == w * d * h,
            terrain@.len() == w * d * h,
            levels_valid(ag@),
            my <= 8,
            k <= 4,
            gl == lowers(ag@, terrain@, wn, dn, xi, yi, zi, my, k as nat),
            lows@.len() == gl.len(),
            gl.len() <= k,
            forall|j: int| 0 <= j < gl.len() ==> (#[trigger] lows@[j]).0 == gl[j].0 && lows@[j].1 == gl[j].1,
            forall|j: int| 0 <= j < gl.len() ==> 0 <= (#[trigger] gl[j]).0 < w * d * h,
            total_weight == weight_sum(gl, gl.len()),
            total_weight <= 8 * (z + 1) * k,
        decreases 4 - k,
    {
        let r = lower_neighbor(ag, terrain, w, d, x, y, z, my, k, Ghost(h));
        match r {
            Some(t) => {
                proof {
                    lemma_weight_sum_push(gl, (t.0 as int, t.1, t.2 as int), gl.len());
                    assert(8 * (z + 1) * k + 8 * (z + 1) == 8 * (z + 1) * (k + 1)) by (nonlinear_arith);
                    assert(8 * (z + 1) * (k + 1) <= 32 * h) by (nonlinear_arith)
                        requires
                            k < 4,
                            z < h,
                    ;
                }
                lows.push((t.0, t.1));
                total_weight = total_weight + t.2;
                proof {
                    gl = gl.push((t.0 as int, t.1, t.2 as int));
                }
            },
            None => {
                proof {
                    assert(8 * (z + 1) * k <= 8 * (z + 1) * (k + 1)) by (nonlinear_arith);
                }
            },
        }
        k += 1;
    }
    let n = lows.len();
    if n == 0 {
        return;
    }
    // every lower neighbor holds less water than this cell
    assert forall|j: int| 0 <= j < gl.len() implies ag@[(#[trigger] gl[j]).0].level < my by {
        lemma_lowers_lower(ag@, terrain@, wn, dn, xi, yi, zi, my, 4, j);
    }
    let mut total_diff: u16 = 0;
    let mut j: usize = 0;
    while j < n
        invariant
            n == lows@.len(),
            lows@.len() == gl.len(),
            ag@.len() == w * d * h,
            forall|j: int| 0 <= j < gl.len() ==> (#[trigger] lows@[j]).0 == gl[j].0 && lows@[j].1 == gl[j].1,
            forall|j: int| 0 <= j < gl.len() ==> 0 <= (#[trigger] gl[j]).0 < w * d * h,
            forall|j: int| 0 <= j < gl.len() ==> ag@[(#[trigger] gl[j]).0].level < my,
            my <= 8,
            n <= 4,
            j <= n,
            total_diff == diff_sum(ag@, gl, my, j as nat),
            total_diff <= 8 * j,
        decreases n - j,
    {
        let ni = lows[j].0;
        assert(ni == gl[j as int].0);
        total_diff = total_diff + (my - ag[ni].level) as u16;
        j += 1;
    }
    let q = total_diff / (n as u16 + 1);
    let give: u8 = if (q as u8) < my - 1 {
        q as u8
    } else {
        my - 1
    };
    assert(give == min_int(diff_sum(ag@, gl, my, gl.len()) / ((gl.len() + 1) as int), my - 1));
    if give == 0 {
        return;
    }
    let cur = deltas[idx];
    deltas.set(idx, cur.wrapping_sub(give as i16));
    let ghost d1 = deltas@;
    let mut distributed: u8 = 0;
    let mut j: usize = 0;
    while j < n
        invariant
            n == lows@.len(),
            lows@.len() == gl.len(),
            deltas@.len() == w * d * h,
            forall|j: int| 0 <= j < gl.len() ==> (#[trigger] lows@[j]).0 == gl[j].0 && lows@[j].1 == gl[j].1,
            forall|j: int| 0 <= j < gl.len() ==> 0 <= (#[trigger] gl[j]).0 < w * d * h,
            total_weight == weight_sum(gl, gl.len()),
            j <= n,
            (deltas@, distributed as int) == shares(d1, gl, give as int, total_weight as int, j as nat),
            distributed <= give,
        decreases n - j,
    {
        let (ni, wu8) = lows[j];
        let raw: usize = if total_weight > 0 {
            let a = give as usize;
            let b = wu8 as usize;
            assert(a * b <= 255 * 255) by (nonlinear_arith)
                requires
                    a <= 255,
                    b <= 255,
            ;
            let s = (a * b) / total_weight;
            if s > 255 {
                255
            } else {
                s
            }
        } else {
            0
        };
        let left = give - distributed;
        let share: u8 = if raw < left as usize {
            raw as u8
        } else {
            left
        };
        let dv = deltas[ni];
        deltas.set(ni, dv.wrapping_add(share as i16));
        distributed = distributed + share;
        j += 1;
    }
    if distributed < give {
        let first = lows[0].0;
        let dv = deltas[first];
        deltas.set(first, dv.wrapping_add((give - distributed) as i16));
    }
}

proof fn lemma_weight_sum_push(s: Seq<(int, u8, int)>, e: (int, u8, int), n: nat)
    requires
        n == s.len(),
    ensures
        weight_sum(s.push(e), s.len() + 1) == weight_sum(s, s.len()) + e.2,
{
    lemma_weight_sum_prefix(s, e, s.len());
    assert(s.push(e)[s.len() as int] == e);
}

proof fn lemma_weight_sum_prefix(s: Seq<(int, u8, int)>, e: (int, u8, int), n: nat)
    requires
        n <= s.len(),
    ensures
        weight_sum(s.push(e), n) == weight_sum(s, n),
    decreases n,
{
    if n > 0 {
        lemma_weight_sum_prefix(s, e, (n - 1) as nat);
        assert(s.push(e)[n - 1] == s[n - 1]);
    }
}

proof fn lemma_lowers_lower(
    ag: Seq<WaterCell>,
    terrain: Seq<TerrainCell>,
    w: nat,
    d: nat,
    x: int,
    y: int,
    z: int,
    my: u8,
    k: nat,
    j: int,
)
    requires
        0 <= j < lowers(ag, terrain, w, d, x, y, z, my, k).len(),
    ensures
        ag[lowers(ag, terrain, w, d, x, y, z, my, k)[j].0].level < my,
    decreases k,
{
    if k > 0 {
        let prev = lowers(ag, terrain, w, d, x, y, z, my, (k - 1) as nat);
        if j < prev.len() {
            lemma_lowers_lower(ag, terrain, w, d, x, y, z, my, (k - 1) as nat, j);
        }
    }
}

fn spread_pass_exec(ag: &Vec<WaterCell>, terrain: &Vec<TerrainCell>, w: usize, d: usize, h: usize) -> (deltas: Vec<i16>)
    requires
        grid_fits(w as nat, d as nat, h as nat),
        ag@.len() == w * d * h,
        terrain@.len() == w * d * h,
        levels_valid(ag@),
    ensures
        deltas@ == spread_pass(ag@, terrain@, w as nat, d as nat, h as nat),
        deltas@.len() == w * d * h,
{
    let mut deltas = filled(0i16, w * d * h);
    let ghost init = deltas@;
    let ghost f = spread_fn(ag@, terrain@, w as nat, d as nat);
    let mut z: usize = 0;
    while z < h
        invariant
            grid_fits(w as nat, d as nat, h as nat),
            ag@.len() == w * d * h,
            terrain@.len() == w * d * h,
            levels_valid(ag@),
            deltas@.len() == w * d * h,
            f == spread_fn(ag@, terrain@, w as nat, d as nat),
            init == Seq::new((w * d * h) as nat, |i: int| 0i16),
            z <= h,
            deltas@ == sweep_up(init, f, w as nat, d as nat, 0, z as nat),
        decreases h - z,
    {
        let ghost sz = deltas@;
        let mut y: usize = 0;
        while y < d
            invariant
                grid_fits(w as nat, d as nat, h as nat),
                ag@.len() == w * d * h,
                terrain@.len() == w * d * h,
                levels_valid(ag@),
                deltas@.len() == w * d * h,
                f == spread_fn(ag@, terrain@, w as nat, d as nat),
                z < h,
                y <= d,
                deltas@ == sweep_layer(sz, f, z as int, w as nat, y as nat),
            decreases d - y,
        {
            let ghost sy = deltas@;
            let mut x: usize = 0;
            while x < w
                invariant
                    grid_fits(w as nat, d as nat, h as nat),
                    ag@.len() == w * d * h,
                    terrain@.len() == w * d * h,
                    levels_valid(ag@),
                    deltas@.len() == w * d * h,
                    f == spread_fn(ag@, terrain@, w as nat, d as nat),
                    z < h,
                    y < d,
                    x <= w,
                    deltas@ == sweep_row(sy, f, y as int, z as int, x as nat),
                decreases w - x,
            {
                spread_cell(ag, terrain, &mut deltas, w, d, x, y, z, Ghost(h as nat));
                x += 1;
            }
            y += 1;
        }
        z += 1;
    }
    deltas
}


/// The levels after gravity with the spread deltas applied, clamped to 0..=8.
pub open spec fn applied(g: Seq<WaterCell>, ds: Seq<i16>) -> Seq<WaterCell> {
    Seq::new(g.len(), |i: int| with_level(g[i], clamp_int(g[i].level + ds[i], 0, 8)))
}

fn apply_deltas(cells: &mut Vec<WaterCell>, deltas: &Vec<i16>)
    requires
        deltas@.len() == old(cells)@.len(),
    ensures
        final(cells)@ == applied(old(cells)@, deltas@),
        levels_valid(final(cells)@),
{
    let ghost g = cells@;
    let n = cells.len();
    let mut i: usize = 0;
    while i < n
        invariant
            n == g.len(),
            deltas@.len() == n,
            cells@.len() == n,
            i <= n,
            forall|k: int| i <= k < n ==> cells@[k] == g[k],
            forall|k: int| 0 <= k < i ==> cells@[k] == (#[trigger] applied(g, deltas@)[k]),
        decreases n - i,
    {
        let c = cells[i];
        let v: i32 = c.level as i32 + deltas[i] as i32;
        let nl: u8 = if v < 0 {
            0
        } else if v > 8 {
            8
        } else {
            v as u8
        };
        let mut c2 = c;
        c2.level = nl;
        cells.set(i, c2);
        i += 1;
    }
    assert(cells@ =~= applied(g, deltas@));
}

pub open spec fn sat_add_u8(a: u8, b: int) -> u8 {
    if a + b > 255 {
        255
    } else {
        (a + b) as u8
    }
}

/// The erosion step at (x, y, z): water over an erodible tile with some level left
/// wears it down by a quarter of the water level (at least 1, at most what is left),
/// carries that much more sediment (saturating at 255), and marks the tile as eroded
/// this tick; a tile worn down to nothing becomes Air.
pub open spec fn erode_step(
    s: (Seq<WaterCell>, Seq<TerrainCell>, Seq<bool>),
    w: nat,
    d: nat,
    x: int,
    y: int,
    z: int,
) -> (Seq<WaterCell>, Seq<TerrainCell>, Seq<bool>) {
    let cells = s.0;
    let terrain = s.1;
    let i = cidx(w, d, x, y, z);
    let b = cidx(w, d, x, y, z - 1);
    let lvl = cells[i].level;
    if lvl == 0 || z <= 0 || !erodible_type(terrain[b].tile_type) || terrain[b].level == 0 {
        s
    } else {
        let t = terrain[b];
        let amount = min_int(max_int((lvl / 4) as int, 1), t.level as int);
        let nl = (t.level - amount) as u8;
        let nt = TerrainCell {
            level: nl,
            tile_type: if nl == 0 {
                TileType::Air
            } else {
                t.tile_type
            },
            ..t
        };
        (
            cells.update(i, WaterCell { sediment: sat_add_u8(cells[i].sediment, amount), ..cells[i] }),
            terrain.update(b, nt),
            s.2.update(b, true),
        )
    }
}

pub open spec fn erode_fn(w: nat, d: nat) -> spec_fn(
    (Seq<WaterCell>, Seq<TerrainCell>, Seq<bool>),
    int,
    int,
    int,
) -> (Seq<WaterCell>, Seq<TerrainCell>, Seq<bool>) {
    |s: (Seq<WaterCell>, Seq<TerrainCell>, Seq<bool>), x: int, y: int, z: int| erode_step(s, w, d, x, y, z)
}

/// The deposition step at (x, y, z): water carrying sediment in a column that can take
/// at most 8 more drops up to 2 of it; into the cell below it becomes a Sand tile of
/// that level when the cell is not solid, or adds to the solid tile there (up to 8)
/// unless that tile was eroded this tick.
pub open spec fn deposit_step(
    s: (Seq<WaterCell>, Seq<TerrainCell>, Seq<bool>),
    w: nat,
    d: nat,
    x: int,
    y: int,
    z: int,
) -> (Seq<WaterCell>, Seq<TerrainCell>, Seq<bool>) {
    let cells = s.0;
    let terrain = s.1;
    let i = cidx(w, d, x, y, z);
    let b = cidx(w, d, x, y, z - 1);
    let sed = cells[i].sediment;
    if sed == 0 || avail(terrain, cells, w, d, x, y, z) > 8 {
        s
    } else {
        let dep = min_int(sed as int, 2);
        let c1 = cells.update(i, WaterCell { sediment: (sed - dep) as u8, ..cells[i] });
        if z <= 0 {
            (c1, terrain, s.2)
        } else if !solid_type(terrain[b].tile_type) {
            (c1, terrain.update(b, TerrainCell { tile_type: TileType::Sand, level: dep as u8, moisture: 0, variant: 0 }), s.2)
        } else if !s.2[b] {
            (c1, terrain.update(b, TerrainCell { level: min_int(terrain[b].level + dep, 8) as u8, ..terrain[b] }), s.2)
        } else {
            (c1, terrain, s.2)
        }
    }
}

pub open spec fn deposit_fn(w: nat, d: nat) -> spec_fn(
    (Seq<WaterCell>, Seq<TerrainCell>, Seq<bool>),
    int,
    int,
    int,
) -> (Seq<WaterCell>, Seq<TerrainCell>, Seq<bool>) {
    |s: (Seq<WaterCell>, Seq<TerrainCell>, Seq<bool>), x: int, y: int, z: int| deposit_step(s, w, d, x, y, z)
}

/// The three layers a step of erosion or deposition works on keep their lengths and
/// the water levels of `a`.
pub open spec fn keeps_levels(s: (Seq<WaterCell>, Seq<TerrainCell>, Seq<bool>), a: Seq<WaterCell>) -> bool {
    &&& s.0.len() == a.len()
    &&& s.1.len() == a.len()
    &&& s.2.len() == a.len()
    &&& forall|i: int| 0 <= i < a.len() ==> #[trigger] s.0[i].level == a[i].level
}

fn erode_cell(
    cells: &mut Vec<WaterCell>,
    terrain: &mut Vec<TerrainCell>,
    eroded: &mut Vec<bool>,
    w: usize,
    d: usize,
    x: usize,
    y: usize,
    z: usize,
    Ghost(h): Ghost<nat>,
)
    requires
        grid_fits(w as nat, d as nat, h),
        in_grid(w as nat, d as nat, h, x as int, y as int, z as int),
        old(cells)@.len() == w * d * h,
        old(terrain)@.len() == w * d * h,
        old(eroded)@.len() == w * d * h,
    ensures
        (final(cells)@, final(terrain)@, final(eroded)@) == erode_step(
            (old(cells)@, old(terrain)@, old(eroded)@),
            w as nat,
            d as nat,
            x as int,
            y as int,
            z as int,
        ),
        final(cells)@.len() == old(cells)@.len(),
        final(terrain)@.len() == old(terrain)@.len(),
        final(eroded)@.len() == old(eroded)@.len(),
        forall|k: int| 0 <= k < old(cells)@.len() ==> #[trigger] final(cells)@[k].level == old(cells)@[k].level,
{
    let idx = cell_index(w, d, x, y, z, Ghost(h));
    let lvl = cells[idx].level;
    if lvl == 0 || z == 0 {
        return;
    }
    proof {
        lemma_below(w as nat, d as nat, h, x as int, y as int, z as int);
    }
    let b = cell_index(w, d, x, y, z - 1, Ghost(h));
    let t = terrain[b];
    if !t.is_erodible() || t.level == 0 {
        return;
    }
    let q = lvl / 4;
    let m = if q > 1 {
        q
    } else {
        1
    };
    let amount = if m < t.level {
        m
    } else {
        t.level
    };
    let nl = t.level - amount;
    let nt = TerrainCell {
        level: nl,
        tile_type: if nl == 0 {
            TileType::Air
        } else {
            t.tile_type
        },
        ..t
    };
    terrain.set(b, nt);
    let c = cells[idx];
    cells.set(idx, WaterCell { sediment: c.sediment.saturating_add(amount), ..c });
    eroded.set(b, true);
}

fn deposit_cell(
    cells: &mut Vec<WaterCell>,
    terrain: &mut Vec<TerrainCell>,
    eroded: &mut Vec<bool>,
    w: usize,
    d: usize,
    x: usize,
    y: usize,
    z: usize,
    Ghost(h): Ghost<nat>,
)
    requires
        grid_fits(w as nat, d as nat, h),
        in_grid(w as nat, d as nat, h, x as int, y as int, z as int),
        old(cells)@.len() == w * d * h,
        old(terrain)@.len() == w * d * h,
        old(eroded)@.len() == w * d * h,
        levels_valid(old(cells)@),
    ensures
        (final(cells)@, final(terrain)@, final(eroded)@) == deposit_step(
            (old(cells)@, old(terrain)@, old(eroded)@),
            w as nat,
            d as nat,
            x as int,
            y as int,
            z as int,
        ),
        final(cells)@.len() == old(cells)@.len(),
        final(terrain)@.len() == old(terrain)@.len(),
        final(eroded)@.len() == old(eroded)@.len(),
        forall|k: int| 0 <= k < old(cells)@.len() ==> #[trigger] final(cells)@[k].level == old(cells)@[k].level,
{
    let idx = cell_index(w, d, x, y, z, Ghost(h));
    let sed = cells[idx].sediment;
    if sed == 0 {
        return;
    }
    proof {
        lemma_cidx_bounds(w as nat, d as nat, h, x as int, y as int, z as int);
        lemma_column_valid(terrain@, cells@, w as nat, d as nat, x as int, y as int, z as int);
        assert(z * w <= w * d * h) by (nonlinear_arith)
            requires
                z < h,
                y < d,
        ;
    }
    let depth = CellularWaterSimulator::available_depth(terrain.as_slice(), cells.as_slice(), w, d, x, y, z);
    if depth > 8 {
        return;
    }
    let dep = if sed < 2 {
        sed
    } else {
        2
    };
    let c = cells[idx];
    cells.set(idx, WaterCell { sediment: sed - dep, ..c });
    if z == 0 {
        return;
    }
    proof {
        lemma_below(w as nat, d as nat, h, x as int, y as int, z as int);
    }
    let b = cell_index(w, d, x, y, z - 1, Ghost(h));
    let t = terrain[b];
    if !t.is_solid() {
        terrain.set(b, TerrainCell { tile_type: TileType::Sand, level: dep, moisture: 0, variant: 0 });
    } else if !eroded[b] {
        let sum = t.level as u16 + dep as u16;
        let nl: u8 = if sum > 8 {
            8
        } else {
            sum as u8
        };
        terrain.set(b, TerrainCell { level: nl, ..t });
    }
}


/// Runs erosion (`deposit == false`) or deposition (`deposit == true`) on every cell,
/// layers from the bottom up.
fn terrain_pass(
    cells: &mut Vec<WaterCell>,
    terrain: &mut Vec<TerrainCell>,
    eroded: &mut Vec<bool>,
    w: usize,
    d: usize,
    h: usize,
    deposit: bool,
)
    requires
        grid_fits(w as nat, d as nat, h as nat),
        old(cells)@.len() == w * d * h,
        old(terrain)@.len() == w * d * h,
        old(eroded)@.len() == w * d * h,
        levels_valid(old(cells)@),
    ensures
        (final(cells)@, final(terrain)@, final(eroded)@) == sweep_up(
            (old(cells)@, old(terrain)@, old(eroded)@),
            if deposit {
                deposit_fn(w as nat, d as nat)
            } else {
                erode_fn(w as nat, d as nat)
            },
            w as nat,
            d as nat,
            0,
            h as nat,
        ),
        keeps_levels((final(cells)@, final(terrain)@, final(eroded)@), old(cells)@),
{
    let ghost a = cells@;
    let ghost init = (cells@, terrain@, eroded@);
    let ghost f = if deposit {
        deposit_fn(w as nat, d as nat)
    } else {
        erode_fn(w as nat, d as nat)
    };
    let mut z: usize = 0;
    while z < h
        invariant
            grid_fits(w as nat, d as nat, h as nat),
            f == (if deposit {
                deposit_fn(w as nat, d as nat)
            } else {
                erode_fn(w as nat, d as nat)
            }),
            a.len() == w * d * h,
            levels_valid(a),
            keeps_levels((cells@, terrain@, eroded@), a),
            z <= h,
            (cells@, terrain@, eroded@) == sweep_up(init, f, w as nat, d as nat, 0, z as nat),
        decreases h - z,
    {
        let ghost sz = (cells@, terrain@, eroded@);
        let mut y: usize = 0;
        while y < d
            invariant
                grid_fits(w as nat, d as nat, h as nat),
                f == (if deposit {
                    deposit_fn(w as nat, d as nat)
                } else {
                    erode_fn(w as nat, d as nat)
                }),
                a.len() == w * d * h,
                levels_valid(a),
                keeps_levels((cells@, terrain@, eroded@), a),
                z < h,
                y <= d,
                (cells@, terrain@, eroded@) == sweep_layer(sz, f, z as int, w as nat, y as nat),
            decreases d - y,
        {
            let ghost sy = (cells@, terrain@, eroded@);
            let mut x: usize = 0;
            while x < w
                invariant
                    grid_fits(w as nat, d as nat, h as nat),
                    f == (if deposit {
                        deposit_fn(w as nat, d as nat)
                    } else {
                        erode_fn(w as nat, d as nat)
                    }),
                    a.len() == w * d * h,
                    levels_valid(a),
                    keeps_levels((cells@, terrain@, eroded@), a),
                    z < h,
                    y < d,
                    x <= w,
                    (cells@, terrain@, eroded@) == sweep_row(sy, f, y as int, z as int, x as nat),
                decreases w - x,
            {
                assert(levels_valid(cells@)) by {
                    assert forall|i: int| 0 <= i < cells@.len() implies #[trigger] cells@[i].level <= 8 by {
                        assert(cells@[i].level == a[i].level);
                    }
                }
                if deposit {
                    deposit_cell(cells, terrain, eroded, w, d, x, y, z, Ghost(h as nat));
                } else {
                    erode_cell(cells, terrain, eroded, w, d, x, y, z, Ghost(h as nat));
                }
                x += 1;
            }
            y += 1;
        }
        z += 1;
    }
}

/// The cells after the tick's last step: every cell that was a source at the start of
/// the tick is a full source again (keeping its sediment).
pub open spec fn refilled(orig: Seq<WaterCell>, c: Seq<WaterCell>) -> Seq<WaterCell> {
    Seq::new(c.len(), |i: int| if orig[i].is_source {
        WaterCell { level: 8, is_source: true, sediment: c[i].sediment }
    } else {
        c[i]
    })
}

/// One tick of the level-based model on the cells `orig` and the terrain: gravity (from
/// the top down, each cell's water falling at most one layer), spreading toward lower
/// neighbors (deltas from the levels after gravity, applied and clamped to 0..=8),
/// erosion, then deposition (layers from the bottom up), and sources refilled. Returns
/// the new cells and the new terrain.
pub open spec fn cellular_tick(orig: Seq<WaterCell>, terrain: Seq<TerrainCell>, w: nat, d: nat, h: nat) -> (
    Seq<WaterCell>,
    Seq<TerrainCell>,
) {
    let g = fall_pass(orig, terrain, w, d, h);
    let a = applied(g, spread_pass(g, terrain, w, d, h));
    let e = sweep_up((a, terrain, Seq::new(w * d * h, |i: int| false)), erode_fn(w, d), w, d, 0, h);
    let p = sweep_up(e, deposit_fn(w, d), w, d, 0, h);
    (refilled(orig, p.0), p.1)
}

/// Gravity keeps every level within 0..=8.
proof fn lemma_fall_keeps_levels(orig: Seq<WaterCell>, terrain: Seq<TerrainCell>, w: nat, d: nat, h: nat)
    requires
        grid_fits(w, d, h),
        orig.len() == w * d * h,
        terrain.len() == w * d * h,
        levels_valid(orig),
    ensures
        levels_valid(fall_pass(orig, terrain, w, d, h)),
        fall_pass(orig, terrain, w, d, h).len() == w * d * h,
{
    let n = w * d * h;
    let p = |c: Seq<WaterCell>| c.len() == n && levels_valid(c);
    let k = (if h >= 1 { h - 1 } else { 0 }) as nat;
    assert forall|c: Seq<WaterCell>, x: int, y: int, z: int|
        0 <= x < w && 0 <= y < d && h - k <= z < h && p(c) implies p(
        #[trigger] fall_fn(orig, terrain, w, d)(c, x, y, z),
    ) by {
        assert(in_grid(w, d, h, x, y, z));
        lemma_below(w, d, h, x, y, z);
        lemma_cidx_bounds(w, d, h, x, y, z);
        lemma_cidx_bounds(w, d, h, x, y, z - 1);
        let r = fall_step(orig, terrain, w, d, c, x, y, z);
        assert(fall_fn(orig, terrain, w, d)(c, x, y, z) == r);
        assert forall|i: int| 0 <= i < r.len() implies #[trigger] r[i].level <= 8 by {
            assert(c[i].level <= 8);
        }
    }
    crate::sweep::lemma_down_keeps(orig, fall_fn(orig, terrain, w, d), p, w, d, h as int, k);
}

/// The terrain and the water state of the level-based model.
pub struct WaterState {
    width: usize,
    depth: usize,
    height: usize,
    cells: Vec<WaterCell>,
}

pub struct WaterStateView {
    pub width: nat,
    pub depth: nat,
    pub height: nat,
    pub cells: Seq<WaterCell>,
}

impl View for WaterState {
    type V = WaterStateView;

    closed spec fn view(&self) -> WaterStateView {
        WaterStateView {
            width: self.width as nat,
            depth: self.depth as nat,
            height: self.height as nat,
            cells: self.cells@,
        }
    }
}

impl WaterStateView {
    pub open spec fn size(self) -> nat {
        self.width * self.depth * self.height
    }

    /// One cell per grid position, on a grid that fits.
    pub open spec fn wf(self) -> bool {
        &&& grid_fits(self.width, self.depth, self.height)
        &&& self.cells.len() == self.size()
    }

    pub open spec fn cell(self, x: int, y: int, z: int) -> WaterCell {
        self.cells[cidx(self.width, self.depth, x, y, z)]
    }
}

impl WaterState {
    /// A state of the given size with every cell dry.
    pub fn new(width: usize, depth: usize, height: usize) -> (s: WaterState)
        requires
            grid_fits(width as nat, depth as nat, height as nat),
        ensures
            s@.wf(),
            s@.width == width,
            s@.depth == depth,
            s@.height == height,
            s@.cells == Seq::new(s@.size(), |i: int| WaterCell { level: 0, is_source: false, sediment: 0 }),
            levels_valid(s@.cells),
    {
        let n = width * depth * height;
        WaterState { width, depth, height, cells: filled(WaterCell::empty(), n) }
    }

    pub fn width(&self) -> (r: usize)
        ensures
            r == self@.width,
    {
        self.width
    }

    pub fn depth(&self) -> (r: usize)
        ensures
            r == self@.depth,
    {
        self.depth
    }

    pub fn height(&self) -> (r: usize)
        ensures
            r == self@.height,
    {
        self.height
    }

    /// The water of cell (x, y, z).
    pub fn get(&self, x: usize, y: usize, z: usize) -> (c: WaterCell)
        requires
            self@.wf(),
            in_grid(self@.width, self@.depth, self@.height, x as int, y as int, z as int),
        ensures
            c == self@.cell(x as int, y as int, z as int),
    {
        let i = cell_index(self.width, self.depth, x, y, z, Ghost(self.height as nat));
        self.cells[i]
    }

    /// Replaces the water of cell (x, y, z).
    pub fn set(&mut self, x: usize, y: usize, z: usize, cell: WaterCell)
        requires
            old(self)@.wf(),
            in_grid(old(self)@.width, old(self)@.depth, old(self)@.height, x as int, y as int, z as int),
        ensures
            final(self)@ == (WaterStateView {
                cells: old(self)@.cells.update(cidx(old(self)@.width, old(self)@.depth, x as int, y as int, z as int), cell),
                ..old(self)@
            }),
            final(self)@.wf(),
            levels_valid(old(self)@.cells) && cell.level <= 8 ==> levels_valid(final(self)@.cells),
    {
        let i = cell_index(self.width, self.depth, x, y, z, Ghost(self.height as nat));
        self.cells.set(i, cell);
    }

    /// A copy of every cell.
    pub fn snapshot_cells(&self) -> (v: Vec<WaterCell>)
        ensures
            v@ == self@.cells,
    {
        self.cells.clone()
    }

    /// Replaces every cell.
    pub fn apply_cells(&mut self, cells: Vec<WaterCell>)
        requires
            cells@.len() == old(self)@.cells.len(),
        ensures
            final(self)@ == (WaterStateView { cells: cells@, ..old(self)@ }),
    {
        self.cells = cells;
    }
}

/// The level-based water simulator: gravity, spreading toward lower levels, erosion
/// and deposition of terrain, and sources that stay full.
pub struct CellularWaterSimulator;

impl CellularWaterSimulator {
    pub fn new() -> (s: CellularWaterSimulator)
        ensures
            s == CellularWaterSimulator,
    {
        CellularWaterSimulator
    }

    /// Runs one tick (see `cellular_tick`) on the state and the terrain.
    pub fn tick(&mut self, state: &mut WaterState, terrain: &mut Vec<TerrainCell>)
        requires
            old(state)@.wf(),
            old(terrain)@.len() == old(state)@.size(),
            levels_valid(old(state)@.cells),
        ensures
            final(state)@ == (WaterStateView {
                cells: cellular_tick(
                    old(state)@.cells,
                    old(terrain)@,
                    old(state)@.width,
                    old(state)@.depth,
                    old(state)@.height,
                ).0,
                ..old(state)@
            }),
            final(terrain)@ == cellular_tick(
                old(state)@.cells,
                old(terrain)@,
                old(state)@.width,
                old(state)@.depth,
                old(state)@.height,
            ).1,
            final(state)@.wf(),
            final(terrain)@.len() == final(state)@.size(),
            levels_valid(final(state)@.cells),
    {
        let w = state.width();
        let d = state.depth();
        let h = state.height();
        let start_cells = state.snapshot_cells();
        let ghost t0 = terrain@;
        proof {
            lemma_fall_keeps_levels(start_cells@, terrain@, w as nat, d as nat, h as nat);
        }
        let mut cells = fall_pass_exec(&start_cells, terrain, w, d, h);
        let deltas = spread_pass_exec(&cells, terrain, w, d, h);
        apply_deltas(&mut cells, &deltas);
        let ghost a = cells@;
        let mut eroded = filled(false, w * d * h);
        terrain_pass(&mut cells, terrain, &mut eroded, w, d, h, false);
        terrain_pass(&mut cells, terrain, &mut eroded, w, d, h, true);
        let ghost p = cells@;
        let n = cells.len();
        let mut i: usize = 0;
        while i < n
            invariant
                n == p.len(),
                start_cells@.len() == n,
                cells@.len() == n,
                i <= n,
                forall|k: int| i <= k < n ==> cells@[k] == p[k],
                forall|k: int| 0 <= k < i ==> cells@[k] == (#[trigger] refilled(start_cells@, p)[k]),
            decreases n - i,
        {
            if start_cells[i].is_source {
                let c = cells[i];
                cells.set(i, WaterCell { level: 8, is_source: true, sediment: c.sediment });
            }
            i += 1;
        }
        proof {
            assert(cells@ =~= refilled(start_cells@, p));
            assert forall|k: int| 0 <= k < cells@.len() implies #[trigger] cells@[k].level <= 8 by {
                assert(p[k].level == a[k].level);
            }
        }
        state.apply_cells(cells);
    }

    /// Puts water of the given level (not a source, no sediment) into cell (x, y, z).
    pub fn place_water(&mut self, state: &mut WaterState, x: usize, y: usize, z: usize, level: u8)
        requires
            old(state)@.wf(),
            in_grid(old(state)@.width, old(state)@.depth, old(state)@.height, x as int, y as int, z as int),
        ensures
            final(state)@ == (WaterStateView {
                cells: old(state)@.cells.update(
                    cidx(old(state)@.width, old(state)@.depth, x as int, y as int, z as int),
                    WaterCell { level, is_source: false, sediment: 0 },
                ),
                ..old(state)@
            }),
            final(state)@.wf(),
            levels_valid(old(state)@.cells) && level <= 8 ==> levels_valid(final(state)@.cells),
    {
        state.set(x, y, z, WaterCell { level, is_source: false, sediment: 0 });
    }

    /// Empties cell (x, y, z).
    pub fn remove_water(&mut self, state: &mut WaterState, x: usize, y: usize, z: usize)
        requires
            old(state)@.wf(),
            in_grid(old(state)@.width, old(state)@.depth, old(state)@.height, x as int, y as int, z as int),
        ensures
            final(state)@ == (WaterStateView {
                cells: old(state)@.cells.update(
                    cidx(old(state)@.width, old(state)@.depth, x as int, y as int, z as int),
                    WaterCell { level: 0, is_source: false, sediment: 0 },
                ),
                ..old(state)@
            }),
            final(state)@.wf(),
            levels_valid(old(state)@.cells) ==> levels_valid(final(state)@.cells),
    {
        state.set(x, y, z, WaterCell::empty());
    }

    /// Whether the terrain cell at index `idx` is solid.
    pub fn is_solid(terrain: &[TerrainCell], idx: usize) -> (b: bool)
        requires
            idx < terrain@.len(),
        ensures
            b == solid_type(terrain@[idx as int].tile_type),
    {
        terrain[idx].is_solid()
    }

    /// The water column (nx, ny) can still take from layer `z` down to its first solid
    /// cell (see `avail`).
    pub fn available_depth(
        terrain: &[TerrainCell],
        cells: &[WaterCell],
        w: usize,
        d: usize,
        nx: usize,
        ny: usize,
        z: usize,
    ) -> (r: usize)
        requires
            z * w <= usize::MAX,
            column_valid(terrain@, cells@, w as nat, d as nat, nx as int, ny as int, z as int),
            8 * (z + 1) <= usize::MAX,
        ensures
            r == avail(terrain@, cells@, w as nat, d as nat, nx as int, ny as int, z as int),
            r <= 8 * (z + 1),
    {
        let ghost full = avail(terrain@, cells@, w as nat, d as nat, nx as int, ny as int, z as int);
        proof {
            lemma_avail_bounds(terrain@, cells@, w as nat, d as nat, nx as int, ny as int, z as int);
        }
        let len = terrain.len();
        let mut capacity: usize = 0;
        let mut dz: usize = 0;
        let mut stop = false;
        while dz <= z && !stop
            invariant
                z * w <= usize::MAX,
                column_valid(terrain@, cells@, w as nat, d as nat, nx as int, ny as int, z as int),
                len == terrain@.len(),
                8 * (z + 1) <= usize::MAX,
                full == avail(terrain@, cells@, w as nat, d as nat, nx as int, ny as int, z as int),
                dz <= z + 1,
                capacity + (if stop {
                    0
                } else {
                    avail(terrain@, cells@, w as nat, d as nat, nx as int, ny as int, z - dz)
                }) == full,
                0 <= full <= 8 * (z + 1),
                0 <= avail(terrain@, cells@, w as nat, d as nat, nx as int, ny as int, z - dz),
            decreases z + 1 - dz, (if stop { 0int } else { 1int }),
        {
            let check_z = z - dz;
            proof {
                lemma_cidx_lower(w as nat, d as nat, nx as int, ny as int, check_z as int, z as int);
            }
            proof {
                assert(check_z * w <= z * w) by (nonlinear_arith)
                    requires
                        check_z <= z,
                ;
            }
            let idx = column_index(w, d, nx, ny, check_z);
            if terrain[idx].is_solid() {
                stop = true;
            } else {
                proof {
                    assert(cells@[cidx(w as nat, d as nat, nx as int, ny as int, check_z as int)].level <= 8);
                    if check_z >= 1 {
                        lemma_cidx_lower(w as nat, d as nat, nx as int, ny as int, check_z - 1, z as int);
                    }
                    lemma_avail_bounds(terrain@, cells@, w as nat, d as nat, nx as int, ny as int, z - dz - 1);
                }
                capacity += (8 - cells[idx].level) as usize;
                dz += 1;
            }
        }
        capacity
    }
}

/// Every Stone of `t0` is still Stone in `t`, at a level no lower than its old level
/// (or 8, if it was higher).
pub open spec fn stone_held(t0: Seq<TerrainCell>, t: Seq<TerrainCell>) -> bool {
    &&& t.len() == t0.len()
    &&& forall|i: int|
        0 <= i < t0.len() && (#[trigger] t0[i]).tile_type is Stone ==> t[i].tile_type is Stone && t[i].level
            >= min_int(t0[i].level as int, 8)
}

proof fn lemma_terrain_step_laws(
    s: (Seq<WaterCell>, Seq<TerrainCell>, Seq<bool>),
    a: Seq<WaterCell>,
    t0: Seq<TerrainCell>,
    w: nat,
    d: nat,
    h: nat,
    x: int,
    y: int,
    z: int,
)
    requires
        grid_fits(w, d, h),
        in_grid(w, d, h, x, y, z),
        a.len() == w * d * h,
        keeps_levels(s, a),
        stone_held(t0, s.1),
    ensures
        keeps_levels(erode_step(s, w, d, x, y, z), a),
        stone_held(t0, erode_step(s, w, d, x, y, z).1),
        keeps_levels(deposit_step(s, w, d, x, y, z), a),
        stone_held(t0, deposit_step(s, w, d, x, y, z).1),
{
    lemma_cidx_bounds(w, d, h, x, y, z);
    let i = cidx(w, d, x, y, z);
    let b = cidx(w, d, x, y, z - 1);
    if z >= 1 {
        lemma_below(w, d, h, x, y, z);
        lemma_cidx_bounds(w, d, h, x, y, z - 1);
    }
    let e = erode_step(s, w, d, x, y, z);
    assert(keeps_levels(e, a)) by {
        assert forall|k: int| 0 <= k < a.len() implies #[trigger] e.0[k].level == a[k].level by {
            assert(s.0[k].level == a[k].level);
        }
    }
    assert(stone_held(t0, e.1)) by {
        assert forall|k: int| 0 <= k < t0.len() && (#[trigger] t0[k]).tile_type is Stone implies e.1[k].tile_type is Stone
            && e.1[k].level >= min_int(t0[k].level as int, 8) by {
            assert(s.1[k].tile_type is Stone);
        }
    }
    let q = deposit_step(s, w, d, x, y, z);
    assert(keeps_levels(q, a)) by {
        assert forall|k: int| 0 <= k < a.len() implies #[trigger] q.0[k].level == a[k].level by {
            assert(s.0[k].level == a[k].level);
        }
    }
    assert(stone_held(t0, q.1)) by {
        assert forall|k: int| 0 <= k < t0.len() && (#[trigger] t0[k]).tile_type is Stone implies q.1[k].tile_type is Stone
            && q.1[k].level >= min_int(t0[k].level as int, 8) by {
            assert(s.1[k].tile_type is Stone);
        }
    }
}

/// What the erosion and deposition sweeps keep: the water levels and the Stone.
proof fn lemma_terrain_sweeps(
    s: (Seq<WaterCell>, Seq<TerrainCell>, Seq<bool>),
    a: Seq<WaterCell>,
    t0: Seq<TerrainCell>,
    w: nat,
    d: nat,
    h: nat,
)
    requires
        grid_fits(w, d, h),
        a.len() == w * d * h,
        keeps_levels(s, a),
        stone_held(t0, s.1),
    ensures
        keeps_levels(sweep_up(s, erode_fn(w, d), w, d, 0, h), a),
        stone_held(t0, sweep_up(s, erode_fn(w, d), w, d, 0, h).1),
        keeps_levels(sweep_up(s, deposit_fn(w, d), w, d, 0, h), a),
        stone_held(t0, sweep_up(s, deposit_fn(w, d), w, d, 0, h).1),
{
    let p = |u: (Seq<WaterCell>, Seq<TerrainCell>, Seq<bool>)| keeps_levels(u, a) && stone_held(t0, u.1);
    assert forall|u: (Seq<WaterCell>, Seq<TerrainCell>, Seq<bool>), x: int, y: int, z: int|
        0 <= x < w && 0 <= y < d && 0 <= z < 0 + h && p(u) implies p(#[trigger] erode_fn(w, d)(u, x, y, z)) by {
        assert(in_grid(w, d, h, x, y, z));
        lemma_terrain_step_laws(u, a, t0, w, d, h, x, y, z);
    }
    lemma_up_keeps(s, erode_fn(w, d), p, w, d, 0, h);
    assert forall|u: (Seq<WaterCell>, Seq<TerrainCell>, Seq<bool>), x: int, y: int, z: int|
        0 <= x < w && 0 <= y < d && 0 <= z < 0 + h && p(u) implies p(#[trigger] deposit_fn(w, d)(u, x, y, z)) by {
        assert(in_grid(w, d, h, x, y, z));
        lemma_terrain_step_laws(u, a, t0, w, d, h, x, y, z);
    }
    lemma_up_keeps(s, deposit_fn(w, d), p, w, d, 0, h);
}

/// The laws of one tick of the level-based model: every water level stays within
/// 0..=8; every cell that was a source at the start of the tick is a full source at
/// its end; and Stone never erodes (it stays Stone, at no lower a level than before,
/// or 8).
pub proof fn lemma_cellular_tick_laws(orig: Seq<WaterCell>, terrain: Seq<TerrainCell>, w: nat, d: nat, h: nat)
    requires
        grid_fits(w, d, h),
        orig.len() == w * d * h,
        terrain.len() == w * d * h,
        levels_valid(orig),
    ensures
        cellular_tick(orig, terrain, w, d, h).0.len() == w * d * h,
        levels_valid(cellular_tick(orig, terrain, w, d, h).0),
        forall|i: int|
            0 <= i < orig.len() && (#[trigger] orig[i]).is_source ==> cellular_tick(orig, terrain, w, d, h).0[i].level
                == 8 && cellular_tick(orig, terrain, w, d, h).0[i].is_source,
        stone_held(terrain, cellular_tick(orig, terrain, w, d, h).1),
{
    let n = w * d * h;
    lemma_fall_keeps_levels(orig, terrain, w, d, h);
    let g = fall_pass(orig, terrain, w, d, h);
    let a = applied(g, spread_pass(g, terrain, w, d, h));
    let s0 = (a, terrain, Seq::new(n, |i: int| false));
    assert(keeps_levels(s0, a));
    assert(stone_held(terrain, terrain));
    lemma_terrain_sweeps(s0, a, terrain, w, d, h);
    let e = sweep_up(s0, erode_fn(w, d), w, d, 0, h);
    lemma_terrain_sweeps(e, a, terrain, w, d, h);
    let p = sweep_up(e, deposit_fn(w, d), w, d, 0, h);
    let r = refilled(orig, p.0);
    assert(r == cellular_tick(orig, terrain, w, d, h).0);
    assert forall|i: int| 0 <= i < r.len() implies #[trigger] r[i].level <= 8 by {
        assert(p.0[i].level == a[i].level);
    }
}

// ---------------------------------------------------------------------------
// The spread pass moves water and makes or loses none
// ---------------------------------------------------------------------------

proof fn lemma_cidx_injective(w: nat, d: nat, h: nat, x1: int, y1: int, z1: int, x2: int, y2: int, z2: int)
    requires
        in_grid(w, d, h, x1, y1, z1),
        in_grid(w, d, h, x2, y2, z2),
        cidx(w, d, x1, y1, z1) == cidx(w, d, x2, y2, z2),
    ensures
        x1 == x2 && y1 == y2 && z1 == z2,
{
    let wi = w as int;
    let di = d as int;
    let a1 = x1 + y1 * wi;
    let a2 = x2 + y2 * wi;
    assert(0 <= a1 < wi * di && 0 <= a2 < wi * di) by (nonlinear_arith)
        requires
            0 <= x1 < wi,
            0 <= y1 < di,
            0 <= x2 < wi,
            0 <= y2 < di,
            a1 == x1 + y1 * wi,
            a2 == x2 + y2 * wi,
    ;
    assert(z1 == z2) by (nonlinear_arith)
        requires
            a1 + z1 * (wi * di) == a2 + z2 * (wi * di),
            0 <= a1 < wi * di,
            0 <= a2 < wi * di,
            0 <= z1,
            0 <= z2,
    ;
    assert(y1 == y2) by (nonlinear_arith)
        requires
            x1 + y1 * wi == x2 + y2 * wi,
            0 <= x1 < wi,
            0 <= x2 < wi,
            0 <= y1,
            0 <= y2,
    ;
}

/// Neighbor `j` of column (x, y) in spread order, as a cell of layer z, when it lies in
/// the grid.
pub open spec fn side_cell(w: nat, d: nat, x: int, y: int, z: int, j: int) -> Option<int> {
    let nx = x + spread_offset(j).0;
    let ny = y + spread_offset(j).1;
    if 0 <= nx < w && 0 <= ny < d {
        Some(cidx(w, d, nx, ny, z))
    } else {
        None
    }
}

/// 7 when side neighbor `j` of (x, y, z) lies in the grid before position `k` of the
/// sweep, else 0.
pub open spec fn cell_seen_one(w: nat, d: nat, x: int, y: int, z: int, j: int, k: int) -> int {
    match side_cell(w, d, x, y, z, j) {
        Some(n) => if n < k {
            7int
        } else {
            0int
        },
        None => 0int,
    }
}

pub open spec fn cell_seen(w: nat, d: nat, x: int, y: int, z: int, k: int) -> int {
    cell_seen_one(w, d, x, y, z, 0, k) + cell_seen_one(w, d, x, y, z, 1, k) + cell_seen_one(w, d, x, y, z, 2, k)
        + cell_seen_one(w, d, x, y, z, 3, k)
}

/// The entries of `lowers` are side neighbors of (x, y, z) within the grid, other than
/// the cell itself.
proof fn lemma_lowers_cells(
    ag: Seq<WaterCell>,
    terrain: Seq<TerrainCell>,
    w: nat,
    d: nat,
    h: nat,
    x: int,
    y: int,
    z: int,
    my: u8,
    k: nat,
)
    requires
        in_grid(w, d, h, x, y, z),
        k <= 4,
    ensures
        lowers(ag, terrain, w, d, x, y, z, my, k).len() <= k,
        forall|a: int|
            0 <= a < lowers(ag, terrain, w, d, x, y, z, my, k).len() ==> {
                let e = #[trigger] lowers(ag, terrain, w, d, x, y, z, my, k)[a];
                &&& 0 <= e.0 < w * d * h
                &&& e.0 != cidx(w, d, x, y, z)
                &&& exists|j: int| 0 <= j < 4 && #[trigger] side_cell(w, d, x, y, z, j) == Some(e.0)
            },
    decreases k,
{
    if k > 0 {
        lemma_lowers_cells(ag, terrain, w, d, h, x, y, z, my, (k - 1) as nat);
        let prev = lowers(ag, terrain, w, d, x, y, z, my, (k - 1) as nat);
        let cur = lowers(ag, terrain, w, d, x, y, z, my, k);
        let nx = x + spread_offset(k - 1).0;
        let ny = y + spread_offset(k - 1).1;
        if 0 <= nx < w && 0 <= ny < d {
            lemma_cidx_bounds(w, d, h, nx, ny, z);
            if cidx(w, d, nx, ny, z) == cidx(w, d, x, y, z) {
                lemma_cidx_injective(w, d, h, nx, ny, z, x, y, z);
            }
        }
        assert forall|a: int| 0 <= a < cur.len() implies {
            let e = #[trigger] cur[a];
            &&& 0 <= e.0 < w * d * h
            &&& e.0 != cidx(w, d, x, y, z)
            &&& exists|j: int| 0 <= j < 4 && #[trigger] side_cell(w, d, x, y, z, j) == Some(e.0)
        } by {
            if a < prev.len() {
                assert(cur[a] == prev[a]);
            } else {
                assert(side_cell(w, d, x, y, z, k - 1) == Some(cur[a].0));
            }
        }
    }
}

/// Handing out shares adds, to every cell, at least nothing and at most what is handed
/// out in all, only to listed cells, and adds exactly that much to the sum.
proof fn lemma_shares_effect(ds: Seq<i16>, ls: Seq<(int, u8, int)>, give: int, tw: int, n: nat)
    requires
        n <= ls.len(),
        0 <= give <= 7,
        forall|j: int| 0 <= j < n ==> 0 <= (#[trigger] ls[j]).0 < ds.len(),
        forall|i: int| 0 <= i < ds.len() ==> -30000 <= #[trigger] ds[i] <= 30000,
    ensures
        ({
            let r = shares(ds, ls, give, tw, n);
            &&& r.0.len() == ds.len()
            &&& 0 <= r.1 <= give
            &&& sum_i16(r.0) == sum_i16(ds) + r.1
            &&& forall|i: int| 0 <= i < ds.len() ==> ds[i] <= #[trigger] r.0[i] <= ds[i] + r.1
            &&& forall|i: int|
                0 <= i < ds.len() && #[trigger] r.0[i] != ds[i] ==> exists|j: int| 0 <= j < n && (#[trigger] ls[j]).0 == i
        }),
    decreases n,
{
    if n > 0 {
        lemma_shares_effect(ds, ls, give, tw, (n - 1) as nat);
        let prev = shares(ds, ls, give, tw, (n - 1) as nat);
        let raw = if tw > 0 {
            min_int((give * ls[n - 1].1) / tw, 255)
        } else {
            0
        };
        assert(raw >= 0) by {
            if tw > 0 {
                assert(give * ls[n - 1].1 >= 0) by (nonlinear_arith)
                    requires
                        give >= 0,
                        ls[n - 1].1 >= 0,
                ;
                assert((give * ls[n - 1].1) / tw >= 0) by (nonlinear_arith)
                    requires
                        give * ls[n - 1].1 >= 0,
                        tw > 0,
                ;
            }
        }
        let share = min_int(raw, give - prev.1);
        let ni = ls[n - 1].0;
        assert(0 <= ni < ds.len());
        assert(ds[ni] <= prev.0[ni] <= ds[ni] + prev.1);
        assert(wadd16(prev.0[ni], share as i16) == prev.0[ni] + share);
        lemma_sum_i16_update(prev.0, ni, wadd16(prev.0[ni], share as i16));
        let r = shares(ds, ls, give, tw, n);
        assert forall|i: int| 0 <= i < ds.len() && #[trigger] r.0[i] != ds[i] implies exists|j: int|
            0 <= j < n && (#[trigger] ls[j]).0 == i by {
            if i != ni {
                assert(r.0[i] == prev.0[i]);
                let j = choose|j: int| 0 <= j < n - 1 && (#[trigger] ls[j]).0 == i;
                assert(0 <= j < n && ls[j].0 == i);
            } else {
                assert(ls[n - 1].0 == i);
            }
        }
        assert forall|i: int| 0 <= i < ds.len() implies ds[i] <= #[trigger] r.0[i] <= ds[i] + r.1 by {
            assert(ds[i] <= prev.0[i] <= ds[i] + prev.1);
        }
    }
}

/// One spread step takes `give` (at most 7) from its cell and hands exactly that much
/// to side neighbors in the grid, at most 7 to any of them.
proof fn lemma_spread_step_effect(
    ag: Seq<WaterCell>,
    terrain: Seq<TerrainCell>,
    w: nat,
    d: nat,
    h: nat,
    ds: Seq<i16>,
    x: int,
    y: int,
    z: int,
)
    requires
        grid_fits(w, d, h),
        in_grid(w, d, h, x, y, z),
        ag.len() == w * d * h,
        terrain.len() == w * d * h,
        ds.len() == w * d * h,
        levels_valid(ag),
        forall|i: int| 0 <= i < ds.len() ==> -29000 <= #[trigger] ds[i] <= 29000,
    ensures
        ({
            let r = spread_step(ag, terrain, w, d, ds, x, y, z);
            let c = cidx(w, d, x, y, z);
            &&& r.len() == ds.len()
            &&& sum_i16(r) == sum_i16(ds)
            &&& ds[c] - 7 <= r[c] <= ds[c]
            &&& forall|i: int| 0 <= i < ds.len() && i != c ==> ds[i] <= #[trigger] r[i] <= ds[i] + 7
            &&& forall|i: int|
                0 <= i < ds.len() && i != c && #[trigger] r[i] != ds[i] ==> exists|j: int|
                    0 <= j < 4 && #[trigger] side_cell(w, d, x, y, z, j) == Some(i)
        }),
{
    let r = spread_step(ag, terrain, w, d, ds, x, y, z);
    let c = cidx(w, d, x, y, z);
    lemma_cidx_bounds(w, d, h, x, y, z);
    let my = ag[c].level;
    if r != ds {
        let ls = lowers(ag, terrain, w, d, x, y, z, my, 4);
        lemma_lowers_cells(ag, terrain, w, d, h, x, y, z, my, 4);
        let dsum = diff_sum(ag, ls, my, ls.len());
        lemma_diff_sum_nonneg(ag, terrain, w, d, x, y, z, my, ls.len());
        assert(ls.len() <= 4);
        let give = min_int(dsum / ((ls.len() + 1) as int), my - 1);
        assert(my <= 8);
        assert(dsum / ((ls.len() + 1) as int) >= 0) by (nonlinear_arith)
            requires
                dsum >= 0,
                ls.len() + 1 > 0,
        ;
        assert(0 <= give <= 7);
        let d1 = ds.update(c, wsub16(ds[c], give as i16));
        assert(wsub16(ds[c], give as i16) == ds[c] - give);
        lemma_sum_i16_update(ds, c, wsub16(ds[c], give as i16));
        let tw = weight_sum(ls, ls.len());
        assert forall|j: int| 0 <= j < ls.len() implies 0 <= (#[trigger] ls[j]).0 < d1.len() by {}
        lemma_shares_effect(d1, ls, give, tw, ls.len());
        let sr = shares(d1, ls, give, tw, ls.len());
        assert(sr.0[c] == d1[c]) by {
            if sr.0[c] != d1[c] {
                let j = choose|j: int| 0 <= j < ls.len() && (#[trigger] ls[j]).0 == c;
                assert(ls[j].0 != c);
            }
        }
        if sr.1 < give {
            let f = ls[0].0;
            assert(f != c);
            assert(d1[f] <= sr.0[f] <= d1[f] + sr.1);
            assert(wadd16(sr.0[f], (give - sr.1) as i16) == sr.0[f] + (give - sr.1));
            lemma_sum_i16_update(sr.0, f, wadd16(sr.0[f], (give - sr.1) as i16));
        }
        assert forall|i: int| 0 <= i < ds.len() && i != c implies ds[i] <= #[trigger] r[i] <= ds[i] + 7 by {
            assert(d1[i] == ds[i]);
            assert(d1[i] <= sr.0[i] <= d1[i] + sr.1);
        }
        assert forall|i: int| 0 <= i < ds.len() && i != c && #[trigger] r[i] != ds[i] implies exists|j: int|
            0 <= j < 4 && #[trigger] side_cell(w, d, x, y, z, j) == Some(i) by {
            assert(d1[i] == ds[i]);
            let a: int = if sr.0[i] != d1[i] {
                choose|j: int| 0 <= j < ls.len() && (#[trigger] ls[j]).0 == i
            } else {
                0
            };
            assert(ls[a].0 == i);
        }
    }
}


proof fn lemma_diff_sum_nonneg(
    ag: Seq<WaterCell>,
    terrain: Seq<TerrainCell>,
    w: nat,
    d: nat,
    x: int,
    y: int,
    z: int,
    my: u8,
    n: nat,
)
    requires
        n <= lowers(ag, terrain, w, d, x, y, z, my, 4).len(),
    ensures
        diff_sum(ag, lowers(ag, terrain, w, d, x, y, z, my, 4), my, n) >= 0,
    decreases n,
{
    if n > 0 {
        lemma_diff_sum_nonneg(ag, terrain, w, d, x, y, z, my, (n - 1) as nat);
        lemma_lowers_lower(ag, terrain, w, d, x, y, z, my, 4, n - 1);
    }
}

proof fn lemma_cell_seen_grows(w: nat, d: nat, x: int, y: int, z: int, k: int)
    ensures
        cell_seen(w, d, x, y, z, k) <= cell_seen(w, d, x, y, z, k + 1),
        0 <= cell_seen(w, d, x, y, z, k) <= 28,
{
}

/// A receiver of the cell at position k (a side neighbor of it) sees one more visited
/// side neighbor once k is visited.
proof fn lemma_cell_seen_receiver(w: nat, d: nat, h: nat, x: int, y: int, z: int, j: int, a: int, b: int)
    requires
        in_grid(w, d, h, x, y, z),
        in_grid(w, d, h, a, b, z),
        0 <= j < 4,
        side_cell(w, d, x, y, z, j) == Some(cidx(w, d, a, b, z)),
    ensures
        cell_seen(w, d, a, b, z, cidx(w, d, x, y, z)) + 7 <= cell_seen(w, d, a, b, z, cidx(w, d, x, y, z) + 1),
{
    let k = cidx(w, d, x, y, z);
    let nx = x + spread_offset(j).0;
    let ny = y + spread_offset(j).1;
    lemma_cidx_injective(w, d, h, nx, ny, z, a, b, z);
    assert(side_cell(w, d, a, b, z, opposite(j)) == Some(k));
    lemma_cell_seen_grows(w, d, a, b, z, k);
}

/// Where the spread pass stands after the cells before position `k`: the deltas sum to
/// 0, a visited cell has given at most 7, and a cell has received at most 7 from each
/// visited side neighbor.
pub open spec fn cell_spread_progress(w: nat, d: nat, h: nat, t: Seq<i16>, k: int) -> bool {
    &&& t.len() == w * d * h
    &&& sum_i16(t) == 0
    &&& forall|i: int| 0 <= i < t.len() ==> -7 <= #[trigger] t[i] <= 28
    &&& forall|x: int, y: int, z: int|
        #![trigger t[cidx(w, d, x, y, z)]]
        in_grid(w, d, h, x, y, z) ==> {
            &&& (if cidx(w, d, x, y, z) < k {
                -7int
            } else {
                0int
            }) <= t[cidx(w, d, x, y, z)]
            &&& t[cidx(w, d, x, y, z)] <= cell_seen(w, d, x, y, z, k)
        }
}

proof fn lemma_cell_spread_progress_step(
    ag: Seq<WaterCell>,
    terrain: Seq<TerrainCell>,
    w: nat,
    d: nat,
    h: nat,
    t: Seq<i16>,
    x: int,
    y: int,
    z: int,
)
    requires
        grid_fits(w, d, h),
        in_grid(w, d, h, x, y, z),
        ag.len() == w * d * h,
        terrain.len() == w * d * h,
        levels_valid(ag),
        cell_spread_progress(w, d, h, t, cidx(w, d, x, y, z)),
    ensures
        cell_spread_progress(w, d, h, spread_step(ag, terrain, w, d, t, x, y, z), cidx(w, d, x, y, z) + 1),
{
    let k = cidx(w, d, x, y, z);
    let r = spread_step(ag, terrain, w, d, t, x, y, z);
    lemma_cidx_bounds(w, d, h, x, y, z);
    lemma_spread_step_effect(ag, terrain, w, d, h, t, x, y, z);
    assert(t[cidx(w, d, x, y, z)] >= 0);
    assert forall|a: int, b: int, c: int|
        #![trigger r[cidx(w, d, a, b, c)]]
        in_grid(w, d, h, a, b, c) implies {
        &&& (if cidx(w, d, a, b, c) < k + 1 {
            -7int
        } else {
            0int
        }) <= r[cidx(w, d, a, b, c)]
        &&& r[cidx(w, d, a, b, c)] <= cell_seen(w, d, a, b, c, k + 1)
    } by {
        lemma_cidx_bounds(w, d, h, a, b, c);
        let i = cidx(w, d, a, b, c);
        lemma_cell_seen_grows(w, d, a, b, c, k);
        assert(t[cidx(w, d, a, b, c)] <= cell_seen(w, d, a, b, c, k));
        if i == k {
            lemma_cidx_injective(w, d, h, a, b, c, x, y, z);
        } else if r[i] != t[i] {
            let j = choose|j: int| 0 <= j < 4 && #[trigger] side_cell(w, d, x, y, z, j) == Some(i);
            let nx = x + spread_offset(j).0;
            let ny = y + spread_offset(j).1;
            lemma_cidx_bounds(w, d, h, nx, ny, z);
            lemma_cidx_injective(w, d, h, nx, ny, z, a, b, c);
            lemma_cell_seen_receiver(w, d, h, x, y, z, j, a, b);
        }
    }
    assert forall|i: int| 0 <= i < r.len() implies -7 <= #[trigger] r[i] <= 28 by {
        assert(-7 <= t[i] <= 28);
        if i != k && r[i] != t[i] {
            let j = choose|j: int| 0 <= j < 4 && #[trigger] side_cell(w, d, x, y, z, j) == Some(i);
            let nx = x + spread_offset(j).0;
            let ny = y + spread_offset(j).1;
            lemma_cidx_bounds(w, d, h, nx, ny, z);
            lemma_cell_seen_grows(w, d, nx, ny, z, k);
            lemma_cell_seen_receiver(w, d, h, x, y, z, j, nx, ny);
            lemma_cell_seen_grows(w, d, nx, ny, z, k + 1);
            assert(t[cidx(w, d, nx, ny, z)] <= cell_seen(w, d, nx, ny, z, k));
        }
    }
}

/// The spread pass of the level-based model moves water and makes or loses none: the
/// amounts taken from cells and handed to their lower neighbors balance, so the spread
/// deltas sum to 0 (each cell gives at most 7 and gets at most 28).
pub proof fn lemma_spread_pass_balances(ag: Seq<WaterCell>, terrain: Seq<TerrainCell>, w: nat, d: nat, h: nat)
    requires
        grid_fits(w, d, h),
        ag.len() == w * d * h,
        terrain.len() == w * d * h,
        levels_valid(ag),
    ensures
        spread_pass(ag, terrain, w, d, h).len() == w * d * h,
        sum_i16(spread_pass(ag, terrain, w, d, h)) == 0,
        forall|i: int| 0 <= i < w * d * h ==> -7 <= #[trigger] spread_pass(ag, terrain, w, d, h)[i] <= 28,
{
    let init = Seq::new(w * d * h, |i: int| 0i16);
    let p = |t: Seq<i16>, k: int| cell_spread_progress(w, d, h, t, k);
    assert(p(init, 0)) by {
        lemma_sum_i16_zero(init);
        assert forall|x: int, y: int, z: int|
            #![trigger init[cidx(w, d, x, y, z)]]
            in_grid(w, d, h, x, y, z) implies init[cidx(w, d, x, y, z)] == 0 && 0 <= cell_seen(w, d, x, y, z, 0) by {
            lemma_cidx_bounds(w, d, h, x, y, z);
            lemma_cell_seen_grows(w, d, x, y, z, 0);
        }
    }
    assert forall|t: Seq<i16>, x: int, y: int, z: int|
        0 <= x < w && 0 <= y < d && 0 <= z < 0 + h && p(t, (z - 0) * (w * d) + y * w + x) implies p(
        #[trigger] spread_fn(ag, terrain, w, d)(t, x, y, z),
        (z - 0) * (w * d) + y * w + x + 1,
    ) by {
        assert((z - 0) * (w * d) + y * w + x == cidx(w, d, x, y, z));
        lemma_cell_spread_progress_step(ag, terrain, w, d, h, t, x, y, z);
    }
    lemma_up_prog(init, spread_fn(ag, terrain, w, d), p, w, d, 0, h);
}

/// The total water level of the cells.
pub open spec fn level_sum(s: Seq<WaterCell>) -> int
    decreases s.len(),
{
    if s.len() == 0 {
        0
    } else {
        level_sum(s.drop_last()) + s.last().level
    }
}

proof fn lemma_applied_levels(g: Seq<WaterCell>, ds: Seq<i16>, n: nat)
    requires
        n <= g.len(),
        ds.len() == g.len(),
        forall|i: int| 0 <= i < g.len() ==> 0 <= g[i].level + #[trigger] ds[i] <= 8,
    ensures
        level_sum(applied(g, ds).take(n as int)) == level_sum(g.take(n as int)) + sum_i16(ds.take(n as int)),
    decreases n,
{
    if n > 0 {
        lemma_applied_levels(g, ds, (n - 1) as nat);
        let k = n - 1;
        assert(applied(g, ds).take(n as int).drop_last() =~= applied(g, ds).take(k));
        assert(g.take(n as int).drop_last() =~= g.take(k));
        assert(ds.take(n as int).drop_last() =~= ds.take(k));
        assert(0 <= g[k].level + ds[k] <= 8);
    } else {
        assert(applied(g, ds).take(0) =~= Seq::<WaterCell>::empty());
        assert(g.take(0) =~= Seq::<WaterCell>::empty());
        assert(ds.take(0) =~= Seq::<i16>::empty());
    }
}

/// Spreading keeps the total water level when nothing is clamped: if every level after
/// gravity plus its spread delta lies within 0..=8, the levels after the spread add up
/// to the levels before it.
pub proof fn lemma_spread_keeps_levels(g: Seq<WaterCell>, terrain: Seq<TerrainCell>, w: nat, d: nat, h: nat)
    requires
        grid_fits(w, d, h),
        g.len() == w * d * h,
        terrain.len() == w * d * h,
        levels_valid(g),
        forall|i: int| 0 <= i < g.len() ==> 0 <= g[i].level + #[trigger] spread_pass(g, terrain, w, d, h)[i] <= 8,
    ensures
        level_sum(applied(g, spread_pass(g, terrain, w, d, h))) == level_sum(g),
{
    let ds = spread_pass(g, terrain, w, d, h);
    lemma_spread_pass_balances(g, terrain, w, d, h);
    lemma_applied_levels(g, ds, g.len());
    assert(applied(g, ds).take(g.len() as int) =~= applied(g, ds));
    assert(g.take(g.len() as int) =~= g);
    assert(ds.take(g.len() as int) =~= ds);
}

} // verus!
