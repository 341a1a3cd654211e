use vstd::prelude::*;
use crate::tile::Tile;
use crate::world::{World, WorldView, lemma_in_bounds_addressable, lemma_idx_injective, waddu32, min_int};
use crate::sweep::{sweep_row, sweep_layer, sweep_up, lemma_up_keeps, lemma_up_prog};
use crate::water::hash::{hash3, hash3_spec};

verus! {

broadcast use lemma_in_bounds_addressable;

/// The number of consecutive cells of column (x, y) holding water, from layer `cz`
/// downward.
pub open spec fn mass_run_down(v: WorldView, x: int, y: int, cz: int) -> nat
    decreases cz + 1,
{
    if 0 <= cz < v.height && v.mass(x, y, cz) > 0 {
        1 + mass_run_down(v, x, y, cz - 1)
    } else {
        0
    }
}

/// Whether (x, y, z) is one of the listed source positions.
pub open spec fn is_source_pos(sources: Seq<(usize, usize, usize)>, x: int, y: int, z: int) -> bool {
    exists|k: int| 0 <= k < sources.len() && #[trigger] sources[k] == (x as usize, y as usize, z as usize)
}

/// The chance (percent) and the largest amount of evaporation for a surface cell with
/// `depth` cells of water below it: deep water (4 or more) 1% and 2, moderate depth (2
/// or more) 3% and 5, shallow water 5% and 10.
pub open spec fn evap_params(depth: nat) -> (u64, u8) {
    if depth >= 4 {
        (1, 2)
    } else if depth >= 2 {
        (3, 5)
    } else {
        (5, 10)
    }
}

/// The evaporation step at (x, y, z): a cell with water, no water above it, that is not
/// a source, loses some of its mass to the atmosphere with a chance that falls with
/// the depth of the water below it; a cell that dries up while carrying sediment
/// leaves Sand. The atmospheric total wraps around on overflow.
pub open spec fn evap_step(
    v: WorldView,
    x: int,
    y: int,
    z: int,
    sources: Seq<(usize, usize, usize)>,
    seed: u64,
) -> WorldView {
    let idx = v.idx(x, y, z);
    let mass = v.water_mass[idx];
    let covered = z + 1 < v.height && v.mass(x, y, z + 1) > 0;
    let (chance, max) = evap_params(mass_run_down(v, x, y, z - 1));
    let roll = hash3_spec(x as u64, y as u64, z as u64, seed) % 100;
    if mass == 0 || covered || is_source_pos(sources, x, y, z) || roll >= chance {
        v
    } else {
        let evap = min_int(mass as int, max as int) as u8;
        let left = (mass - evap) as u8;
        let v1 = v.set_mass_at(idx, left).set_atmospheric(waddu32(v.atmospheric_moisture, evap as u32));
        if left == 0 && v.water_sediment[idx] > 0 {
            v1.set_tile(x, y, z, Tile::Sand).set_sediment_at(idx, 0)
        } else {
            v1
        }
    }
}

pub open spec fn evap_fn(sources: Seq<(usize, usize, usize)>, seed: u64) -> spec_fn(
    WorldView,
    int,
    int,
    int,
) -> WorldView {
    |v: WorldView, x: int, y: int, z: int| evap_step(v, x, y, z, sources, seed)
}

/// The evaporation pass: `evap_step` on every cell, layers from the bottom up.
pub open spec fn evaporation_pass(v: WorldView, sources: Seq<(usize, usize, usize)>, seed: u64) -> WorldView {
    sweep_up(v, evap_fn(sources, seed), v.width, v.depth, 0, v.height)
}

pub fn is_source_exec(sources: &[(usize, usize, usize)], x: usize, y: usize, z: usize) -> (b: bool)
    ensures
        b == is_source_pos(sources@, x as int, y as int, z as int),
{
    let mut k: usize = 0;
    while k < sources.len()
        invariant
            k <= sources@.len(),
            forall|j: int| 0 <= j < k ==> sources@[j] != (x, y, z),
        decreases sources.len() - k,
    {
        let s = sources[k];
        if s.0 == x && s.1 == y && s.2 == z {
            assert(sources@[k as int] == (x, y, z));
            return true;
        }
        k += 1;
    }
    false
}

fn evap_cell(
    world: &mut World,
    x: usize,
    y: usize,
    z: usize,
    sources: &[(usize, usize, usize)],
    seed: u64,
)
    requires
        old(world).wf(),
        old(world)@.in_bounds(x as int, y as int, z as int),
    ensures
        final(world).wf(),
        final(world)@ == evap_step(old(world)@, x as int, y as int, z as int, sources@, seed),
{
    let ghost v = world@;
    let h = world.height();
    let idx = world.index(x, y, z);
    let mass = world.mass_at(idx);
    if mass == 0 {
        return;
    }
    if z + 1 < h && world.water_mass(x, y, z + 1) > 0 {
        return;
    }
    if is_source_exec(sources, x, y, z) {
        return;
    }
    let mut water_depth: usize = 0;
    let mut dz: usize = 1;
    while dz <= z && world.water_mass(x, y, z - dz) > 0
        invariant
            world@ == v,
            world.wf(),
            v.in_bounds(x as int, y as int, z as int),
            1 <= dz <= z + 1,
            water_depth == dz - 1,
            water_depth + mass_run_down(v, x as int, y as int, z - dz) == mass_run_down(
                v,
                x as int,
                y as int,
                z - 1,
            ),
        decreases z + 1 - dz,
    {
        water_depth += 1;
        dz += 1;
    }
    let (evap_chance, evap_max): (u64, u8) = if water_depth >= 4 {
        (1, 2)
    } else if water_depth >= 2 {
        (3, 5)
    } else {
        (5, 10)
    };
    let roll = hash3(x, y, z, seed) % 100;
    if roll < evap_chance {
        let evap = if mass < evap_max {
            mass
        } else {
            evap_max
        };
        world.set_mass_at(idx, mass - evap);
        let a = world.atmospheric_moisture().wrapping_add(evap as u32);
        world.set_atmospheric_moisture(a);
        if mass - evap == 0 && world.sediment_at(idx) > 0 {
            world.set(x, y, z, Tile::Sand);
            world.set_sediment_at(idx, 0);
        }
    }
}

/// Evaporation with the given seed for the rolls: surface water that is not a source
/// slowly evaporates into the atmosphere, deep water more slowly than puddles; a cell
/// that dries up while carrying sediment leaves Sand behind.
pub fn pass_evaporation_with_seed(world: &mut World, sources: &[(usize, usize, usize)], seed: u64)
    requires
        old(world).wf(),
    ensures
        final(world).wf(),
        final(world)@.sources == old(world)@.sources,
        final(world)@.width == old(world)@.width,
        final(world)@.depth == old(world)@.depth,
        final(world)@.height == old(world)@.height,
        final(world)@ == evaporation_pass(old(world)@, sources@, seed),
{
    let w = world.width();
    let d = world.depth();
    let h = world.height();
    let ghost init = world@;
    let mut z: usize = 0;
    while z < h
        invariant
            world.wf(),
            world@.width == w,
            world@.depth == d,
            world@.height == h,
            world@.sources == init.sources,
            init.width == w,
            init.depth == d,
            init.height == h,
            z <= h,
            world@ == sweep_up(init, evap_fn(sources@, seed), w as nat, d as nat, 0, z as nat),
        decreases h - z,
    {
        let ghost sz = world@;
        let mut y: usize = 0;
        while y < d
            invariant
                world.wf(),
                world@.width == w,
                world@.depth == d,
                world@.height == h,
                world@.sources == init.sources,
                z < h,
                y <= d,
                world@ == sweep_layer(sz, evap_fn(sources@, seed), z as int, w as nat, y as nat),
            decreases d - y,
        {
            let ghost sy = world@;
            let mut x: usize = 0;
            while x < w
                invariant
                    world.wf(),
                    world@.width == w,
                    world@.depth == d,
                    world@.height == h,
                    world@.sources == init.sources,
                    z < h,
                    y < d,
                    x <= w,
                    world@ == sweep_row(sy, evap_fn(sources@, seed), y as int, z as int, x as nat),
                decreases w - x,
            {
                evap_cell(world, x, y, z, sources, seed);
                x += 1;
            }
            y += 1;
        }
        z += 1;
    }
}

/// The sum of a sequence of bytes.
pub open spec fn sum_u8(s: Seq<u8>) -> int
    decreases s.len(),
{
    if s.len() == 0 {
        0
    } else {
        sum_u8(s.drop_last()) + s.last()
    }
}

pub proof fn lemma_sum_u8_update(s: Seq<u8>, i: int, a: u8)
    requires
        0 <= i < s.len(),
    ensures
        sum_u8(s.update(i, a)) == sum_u8(s) - s[i] + a,
        sum_u8(s) >= 0,
        s[i] <= sum_u8(s),
    decreases s.len(),
{
    let t = s.update(i, a);
    lemma_sum_u8_nonneg(s);
    if i == s.len() - 1 {
        assert(t.drop_last() =~= s.drop_last());
        lemma_sum_u8_nonneg(s.drop_last());
    } else {
        assert(t.drop_last() =~= s.drop_last().update(i, a));
        lemma_sum_u8_update(s.drop_last(), i, a);
    }
}

pub proof fn lemma_sum_u8_nonneg(s: Seq<u8>)
    ensures
        sum_u8(s) >= 0,
    decreases s.len(),
{
    if s.len() > 0 {
        lemma_sum_u8_nonneg(s.drop_last());
    }
}

pub open spec fn water_cycle_total(v: WorldView) -> int {
    sum_u8(v.water_mass) + v.atmospheric_moisture
}

/// Evaporation moves water into the atmosphere and nowhere else: the total water mass of
/// the world plus the atmospheric moisture is the same before and after the pass (when
/// that total fits in the atmospheric counter).
pub proof fn lemma_evaporation_conserves_water(
    v: WorldView,
    sources: Seq<(usize, usize, usize)>,
    seed: u64,
)
    requires
        v.wf(),
        water_cycle_total(v) <= u32::MAX,
    ensures
        water_cycle_total(evaporation_pass(v, sources, seed)) == water_cycle_total(v),
        evaporation_pass(v, sources, seed).wf(),
{
    let c = water_cycle_total(v);
    let p = |s: WorldView|
        s.wf() && s.width == v.width && s.depth == v.depth && s.height == v.height
            && water_cycle_total(s) == c;
    assert forall|t: WorldView, x: int, y: int, z: int|
        0 <= x < v.width && 0 <= y < v.depth && 0 <= z < 0 + v.height && p(t) implies p(
        #[trigger] evap_fn(sources, seed)(t, x, y, z),
    ) by {
        let t2 = evap_step(t, x, y, z, sources, seed);
        assert(evap_fn(sources, seed)(t, x, y, z) == t2);
        lemma_in_bounds_addressable(t, x, y, z);
        let idx = t.idx(x, y, z);
        let mass = t.water_mass[idx];
        let (chance, max) = evap_params(mass_run_down(t, x, y, z - 1));
        let evap = min_int(mass as int, max as int) as u8;
        let left = (mass - evap) as u8;
        lemma_sum_u8_update(t.water_mass, idx, left);
        lemma_sum_u8_nonneg(t.water_mass.update(idx, left));
    }
    lemma_up_keeps(v, evap_fn(sources, seed), p, v.width, v.depth, 0, v.height);
}

/// What evaporation may do to cell (x, y, z) of `v`, seen in `a`: it loses at most 10
/// mass and gains none; it keeps its mass when the cell above holds water; and when it
/// dries up in the pass while carrying sediment, it becomes Sand without sediment.
pub open spec fn evap_cell_ok(v: WorldView, a: WorldView, x: int, y: int, z: int) -> bool {
    let i = v.idx(x, y, z);
    &&& v.water_mass[i] - 10 <= a.water_mass[i] <= v.water_mass[i]
    &&& (z + 1 < v.height && v.mass(x, y, z + 1) > 0 ==> a.water_mass[i] == v.water_mass[i])
    &&& (a.water_mass[i] == 0 && v.water_mass[i] > 0 && v.water_sediment[i] > 0 ==> a.tiles[i]
        == Tile::Sand && a.water_sediment[i] == 0)
}

/// The state of the evaporation sweep of `v` after `k` cells.
pub open spec fn evap_progress(v: WorldView, t: WorldView, k: int) -> bool {
    &&& t.wf()
    &&& t.width == v.width && t.depth == v.depth && t.height == v.height
    &&& forall|i: int|
        k <= i < v.size() ==> #[trigger] t.water_mass[i] == v.water_mass[i] && t.water_sediment[i]
            == v.water_sediment[i] && t.tiles[i] == v.tiles[i]
    &&& forall|x: int, y: int, z: int|
        v.in_bounds(x, y, z) && v.idx(x, y, z) < k ==> #[trigger] evap_cell_ok(v, t, x, y, z)
}

proof fn lemma_evap_progress_step(
    v: WorldView,
    t: WorldView,
    x: int,
    y: int,
    z: int,
    sources: Seq<(usize, usize, usize)>,
    seed: u64,
)
    requires
        v.wf(),
        v.in_bounds(x, y, z),
        evap_progress(v, t, v.idx(x, y, z)),
    ensures
        evap_progress(v, evap_step(t, x, y, z, sources, seed), v.idx(x, y, z) + 1),
{
    let pos = v.idx(x, y, z);
    let t2 = evap_step(t, x, y, z, sources, seed);
    lemma_in_bounds_addressable(v, x, y, z);
    let wd = (v.width * v.depth) as int;
    if z + 1 < v.height {
        lemma_in_bounds_addressable(v, x, y, z + 1);
        assert(v.idx(x, y, z + 1) == pos + wd) by (nonlinear_arith)
            requires
                pos == x + y * v.width + z * wd,
                v.idx(x, y, z + 1) == x + y * v.width + (z + 1) * wd,
        ;
    }
    assert(t2.wf());
    assert forall|a: int, b: int, c: int| v.in_bounds(a, b, c) && v.idx(a, b, c) < pos + 1 implies #[trigger] evap_cell_ok(
        v,
        t2,
        a,
        b,
        c,
    ) by {
        lemma_in_bounds_addressable(v, a, b, c);
        if v.idx(a, b, c) == pos {
            lemma_idx_injective(v, a, b, c, x, y, z);
        } else {
            assert(evap_cell_ok(v, t, a, b, c));
        }
    }
}

/// Evaporation changes each cell by little: no cell gains mass or loses more than 10; a
/// cell whose upper neighbor holds water keeps its mass; and a cell that dries up in the
/// pass while carrying sediment becomes Sand without sediment.
pub proof fn lemma_evaporation_cell_bounds(v: WorldView, sources: Seq<(usize, usize, usize)>, seed: u64)
    requires
        v.wf(),
    ensures
        forall|x: int, y: int, z: int|
            v.in_bounds(x, y, z) ==> #[trigger] evap_cell_ok(v, evaporation_pass(v, sources, seed), x, y, z),
{
    let p = |t: WorldView, k: int| evap_progress(v, t, k);
    assert forall|t: WorldView, x: int, y: int, z: int|
        0 <= x < v.width && 0 <= y < v.depth && 0 <= z < 0 + v.height && p(t, (z - 0) * (v.width * v.depth) + y
            * v.width + x) implies p(
        #[trigger] evap_fn(sources, seed)(t, x, y, z),
        (z - 0) * (v.width * v.depth) + y * v.width + x + 1,
    ) by {
        assert((z - 0) * (v.width * v.depth) + y * v.width + x == v.idx(x, y, z));
        lemma_evap_progress_step(v, t, x, y, z, sources, seed);
    }
    lemma_up_prog(v, evap_fn(sources, seed), p, v.width, v.depth, 0, v.height);
    assert(v.height * (v.width * v.depth) == v.size()) by (nonlinear_arith);
    assert forall|x: int, y: int, z: int| v.in_bounds(x, y, z) implies #[trigger] evap_cell_ok(
        v,
        evaporation_pass(v, sources, seed),
        x,
        y,
        z,
    ) by {
        lemma_in_bounds_addressable(v, x, y, z);
    }
}

/// The evaporation pass keeps the layout of the world.
pub proof fn lemma_evaporation_frame(v: WorldView, sources: Seq<(usize, usize, usize)>, seed: u64)
    requires
        v.wf(),
    ensures
        evaporation_pass(v, sources, seed).wf(),
        evaporation_pass(v, sources, seed).width == v.width,
        evaporation_pass(v, sources, seed).depth == v.depth,
        evaporation_pass(v, sources, seed).height == v.height,
{
    let p = |s: WorldView| s.wf() && s.width == v.width && s.depth == v.depth && s.height == v.height;
    assert forall|t: WorldView, x: int, y: int, z: int|
        0 <= x < v.width && 0 <= y < v.depth && 0 <= z < 0 + v.height && p(t) implies p(
        #[trigger] evap_fn(sources, seed)(t, x, y, z),
    ) by {
        lemma_in_bounds_addressable(t, x, y, z);
    }
    lemma_up_keeps(v, evap_fn(sources, seed), p, v.width, v.depth, 0, v.height);
}

} // verus!
