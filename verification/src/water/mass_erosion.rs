use vstd::prelude::*;
use crate::tile::{Tile, is_erodible_spec, is_solid_spec, capacity_of};
use crate::world::{World, WorldView, lemma_in_bounds_addressable, min_int, stone_kept, lemma_set_non_stone_keeps_stone};
use crate::sweep::{sweep_row, sweep_layer, sweep_down, lemma_down_keeps};
use crate::water::hash::{hash3, hash3_spec};
use crate::water::mass_evaporation::{sum_u8, lemma_sum_u8_update};
use crate::water::groundwater::surface_and_soil_water;

verus! {

broadcast use lemma_in_bounds_addressable;

/// The erosion multiplier for soil holding `moisture` out of `capacity`, in percent:
/// dry soil (or soil that holds nothing) 100, damp soil (below 80% of capacity) 40,
/// saturated soil 180.
pub open spec fn multiplier_spec(moisture: u8, capacity: u8) -> u8 {
    if capacity == 0 || moisture == 0 {
        100
    } else if 5 * moisture < 4 * capacity {
        40
    } else {
        180
    }
}

/// Three-stage erosion multiplier from soil moisture, in percent (see
/// `multiplier_spec`).
pub fn erosion_multiplier(moisture: u8, capacity: u8) -> (m: u8)
    ensures
        m == multiplier_spec(moisture, capacity),
{
    if capacity == 0 || moisture == 0 {
        return 100;
    }
    if 5 * (moisture as u16) < 4 * (capacity as u16) {
        40
    } else {
        180
    }
}

/// The number of consecutive cells of column (x, y) holding water, from layer `cz` up.
pub open spec fn mass_run(v: WorldView, x: int, y: int, cz: int) -> nat
    decreases v.height - cz,
{
    if 0 <= cz < v.height && v.mass(x, y, cz) > 0 {
        1 + mass_run(v, x, y, cz + 1)
    } else {
        0
    }
}

/// Counts the consecutive cells holding water directly above (x, y, z).
pub fn count_water_above(world: &World, x: usize, y: usize, z: usize) -> (count: usize)
    requires
        world.wf(),
        world@.in_bounds(x as int, y as int, z as int),
    ensures
        count == mass_run(world@, x as int, y as int, z + 1),
{
    let h = world.height();
    let mut count: usize = 0;
    let mut cz = z + 1;
    while cz < h && world.water_mass(x, y, cz) > 0
        invariant
            world.wf(),
            world@.in_bounds(x as int, y as int, z as int),
            h == world@.height,
            z + 1 <= cz,
            cz <= h || cz == z + 1,
            count == cz - (z + 1),
            count + mass_run(world@, x as int, y as int, cz as int) == mass_run(
                world@,
                x as int,
                y as int,
                z + 1,
            ),
        decreases h - cz,
    {
        count += 1;
        cz += 1;
    }
    count
}

/// The base chance (percent) of erosion under a pressure of `pressure` cells with
/// `flow` water flowing out: 5 per unit of pressure plus a fifth of the flow, at most 80.
pub open spec fn base_chance(pressure: nat, flow: u16) -> int {
    min_int(pressure * 5 + flow / 5, 80)
}

/// The chance (percent) of erosion after the soil-moisture multiplier, at most 95.
pub open spec fn erosion_chance_spec(base: int, mult: u8) -> int {
    min_int(base * mult / 100, 95)
}

/// Sediment after picking up one particle: one more (saturating at 255), at most 7.
pub open spec fn one_more_sediment(s: u8) -> u8 {
    if s >= 7 {
        7
    } else {
        (s + 1) as u8
    }
}

/// The erosion step at (x, y, z): water above an erodible tile erodes it to Air with a
/// chance that grows with the pressure above and the outflow of the cell, scaled by
/// the moisture of the soil; the water picks up one sediment (at most 7).
pub open spec fn mass_erode_step(v: WorldView, x: int, y: int, z: int, seed: u64) -> WorldView {
    let idx = v.idx(x, y, z);
    let below = v.idx(x, y, z - 1);
    let base = base_chance(mass_run(v, x, y, z + 1), v.water_outflow[idx]);
    let mult = multiplier_spec(v.soil_moisture[below], capacity_of(v.tile(x, y, z - 1)));
    let chance = erosion_chance_spec(base, mult);
    let roll = hash3_spec(x as u64, y as u64, z as u64, seed) % 100;
    if v.water_mass[idx] == 0 || !is_erodible_spec(v.tile(x, y, z - 1)) || base == 0 || roll >= chance {
        v
    } else {
        v.set_tile(x, y, z - 1, Tile::Air).set_sediment_at(idx, one_more_sediment(v.water_sediment[idx]))
    }
}

/// Pushing `remaining` displaced water up column (x, y) from layer `cz`: each non-solid
/// cell is filled up to 255 in turn, stopping at the top of the world or at a solid
/// cell. Gives the new world and what could not be placed.
pub open spec fn bounce_up(v: WorldView, x: int, y: int, cz: int, remaining: u16) -> (WorldView, u16)
    decreases v.height - cz,
{
    if remaining == 0 || cz >= v.height || cz < 0 || is_solid_spec(v.tile(x, y, cz)) {
        (v, remaining)
    } else {
        let cidx = v.idx(x, y, cz);
        let cap = (255 - v.water_mass[cidx]) as u16;
        let fill: u16 = if remaining < cap {
            remaining
        } else {
            cap
        };
        let v1 = if fill > 0 {
            v.set_mass_at(cidx, (v.water_mass[cidx] + fill) as u8)
        } else {
            v
        };
        let rem = (remaining - fill) as u16;
        if rem > 0 {
            bounce_up(v1, x, y, cz + 1, rem)
        } else {
            (v1, 0)
        }
    }
}

/// The chance (percent) that water carrying `sed` sediment deposits: 10 per particle,
/// at most 60.
pub open spec fn deposit_chance(sed: u8) -> int {
    min_int(sed * 10, 60)
}

/// The deposition step at (x, y, z): slow water (outflow at most 60) carrying at least 3
/// sediment in a non-solid cell on solid ground, with a non-solid cell above, turns its
/// cell into Sand with a chance of `deposit_chance` percent. The Sand keeps up to 48 of
/// the water as soil moisture; the rest is pushed up the column (if it does not all
/// fit, the deposit is called off, though the part pushed up stays). The sediment left
/// (one less) moves to the cell above, and the cell's water and sediment are cleared.
#[verifier::opaque]
pub open spec fn mass_deposit_step(v: WorldView, x: int, y: int, z: int, seed: u64) -> WorldView {
    let idx = v.idx(x, y, z);
    let above = v.idx(x, y, z + 1);
    let sed = v.water_sediment[idx];
    let mass = v.water_mass[idx];
    let roll = hash3_spec(x as u64, y as u64, z as u64, seed) % 100;
    if sed < 3 || mass == 0 || v.water_outflow[idx] > 60 || !is_solid_spec(v.tile(x, y, z - 1))
        || is_solid_spec(v.tile(x, y, z)) || is_solid_spec(v.tile(x, y, z + 1)) || roll >= deposit_chance(
        sed,
    ) {
        v
    } else {
        let absorbed: u16 = if (mass as u16) < 48 {
            mass as u16
        } else {
            48
        };
        let (v1, left) = bounce_up(v, x, y, z + 1, (mass - absorbed) as u16);
        if left > 0 {
            v1
        } else {
            let v2 = v1.set_tile(x, y, z, Tile::Sand).set_moisture_at(idx, absorbed as u8);
            let carried = if sed >= 1 {
                (sed - 1) as u8
            } else {
                0u8
            };
            let above_sed = v2.water_sediment[above];
            let v3 = v2.set_sediment_at(
                above,
                if above_sed + carried > 255 {
                    255u8
                } else {
                    (above_sed + carried) as u8
                },
            );
            v3.set_mass_at(idx, 0).set_sediment_at(idx, 0)
        }
    }
}

pub open spec fn mass_erode_fn(seed: u64) -> spec_fn(WorldView, int, int, int) -> WorldView {
    |v: WorldView, x: int, y: int, z: int| mass_erode_step(v, x, y, z, seed)
}

pub open spec fn mass_deposit_fn(seed: u64) -> spec_fn(WorldView, int, int, int) -> WorldView {
    |v: WorldView, x: int, y: int, z: int| mass_deposit_step(v, x, y, z, seed)
}

/// The erosion pass of the mass model: erosion on layers from the top down to 1, then
/// deposition on layers from the one below the top down to 1.
pub open spec fn mass_erosion_pass(v: WorldView, seed: u64) -> WorldView {
    let n1 = (if v.height >= 1 {
        v.height - 1
    } else {
        0
    }) as nat;
    let n2 = (if v.height >= 2 {
        v.height - 2
    } else {
        0
    }) as nat;
    let eroded = sweep_down(v, mass_erode_fn(seed), v.width, v.depth, v.height as int, n1);
    let top = (if v.height >= 1 {
        v.height - 1
    } else {
        0
    }) as int;
    sweep_down(eroded, mass_deposit_fn(seed), v.width, v.depth, top, n2)
}

fn mass_erode_cell(world: &mut World, x: usize, y: usize, z: usize, seed: u64)
    requires
        old(world).wf(),
        old(world)@.in_bounds(x as int, y as int, z as int),
        z >= 1,
    ensures
        final(world).wf(),
        final(world)@ == mass_erode_step(old(world)@, x as int, y as int, z as int, seed),
{
    let idx = world.index(x, y, z);
    let mass = world.mass_at(idx);
    if mass == 0 {
        return;
    }
    proof {
        lemma_in_bounds_addressable(world@, x as int, y as int, z - 1);
    }
    if !world.get(x, y, z - 1).is_erodible() {
        return;
    }
    let flow = world.water_outflow(idx);
    let pressure = count_water_above(world, x, y, z);
    let flow_part = (flow / 5) as u64;
    let base: u64 = if pressure >= 16 {
        80
    } else {
        let b = (pressure as u64) * 5 + flow_part;
        if b < 80 {
            b
        } else {
            80
        }
    };
    if base == 0 {
        return;
    }
    let below_idx = world.index(x, y, z - 1);
    let below_moisture = world.moisture_at(below_idx);
    let below_cap = world.get(x, y, z - 1).moisture_capacity();
    let mult = erosion_multiplier(below_moisture, below_cap);
    let scaled = base * (mult as u64) / 100;
    let chance: u64 = if scaled < 95 {
        scaled
    } else {
        95
    };
    let roll = hash3(x, y, z, seed) % 100;
    if roll < chance {
        world.set(x, y, z - 1, Tile::Air);
        let sed = world.sediment_at(idx);
        let more = sed.saturating_add(1);
        let capped = if more < 7 {
            more
        } else {
            7
        };
        world.set_sediment_at(idx, capped);
    }
}

fn bounce_up_exec(world: &mut World, x: usize, y: usize, z0: usize, remaining0: u16) -> (left: u16)
    requires
        old(world).wf(),
        x < old(world)@.width,
        y < old(world)@.depth,
        z0 <= old(world)@.height,
    ensures
        final(world).wf(),
        (final(world)@, left) == bounce_up(old(world)@, x as int, y as int, z0 as int, remaining0),
        final(world)@.sources == old(world)@.sources,
        final(world)@.width == old(world)@.width,
        final(world)@.depth == old(world)@.depth,
        final(world)@.height == old(world)@.height,
{
    let h = world.height();
    let mut remaining = remaining0;
    let mut cz = z0;
    let ghost v0 = world@;
    while remaining > 0 && cz < h && !world.get(x, y, cz).is_solid()
        invariant
            world.wf(),
            world@.width == v0.width,
            world@.depth == v0.depth,
            world@.height == h,
            world@.sources == v0.sources,
            x < v0.width,
            y < v0.depth,
            cz <= h,
            bounce_up(world@, x as int, y as int, cz as int, remaining) == bounce_up(
                v0,
                x as int,
                y as int,
                z0 as int,
                remaining0,
            ),
        decreases h - cz, remaining,
    {
        let cidx = world.index(x, y, cz);
        let m = world.mass_at(cidx);
        let cap: u16 = 255 - m as u16;
        let fill: u16 = if remaining < cap {
            remaining
        } else {
            cap
        };
        if fill > 0 {
            world.set_mass_at(cidx, m + fill as u8);
            remaining = remaining - fill;
        }
        if remaining > 0 {
            cz += 1;
        }
    }
    remaining
}

fn mass_deposit_cell(world: &mut World, x: usize, y: usize, z: usize, seed: u64)
    requires
        old(world).wf(),
        old(world)@.in_bounds(x as int, y as int, z as int),
        z >= 1,
        z + 1 < old(world)@.height,
    ensures
        final(world).wf(),
        final(world)@ == mass_deposit_step(old(world)@, x as int, y as int, z as int, seed),
        final(world)@.sources == old(world)@.sources,
        final(world)@.width == old(world)@.width,
        final(world)@.depth == old(world)@.depth,
        final(world)@.height == old(world)@.height,
{
    reveal(mass_deposit_step);
    let idx = world.index(x, y, z);
    let sed = world.sediment_at(idx);
    if sed < 3 || world.mass_at(idx) == 0 {
        return;
    }
    let flow = world.water_outflow(idx);
    if flow > 60 {
        return;
    }
    proof {
        lemma_in_bounds_addressable(world@, x as int, y as int, z - 1);
        lemma_in_bounds_addressable(world@, x as int, y as int, z + 1);
    }
    if !world.get(x, y, z - 1).is_solid() || world.get(x, y, z).is_solid() {
        return;
    }
    let above_idx = world.index(x, y, z + 1);
    if world.get(x, y, z + 1).is_solid() {
        return;
    }
    let chance: u64 = if sed >= 6 {
        60
    } else {
        (sed as u64) * 10
    };
    let roll = hash3(x, y, z, seed) % 100;
    if roll >= chance {
        return;
    }
    let displaced = world.mass_at(idx);
    let displaced_sed = sed;
    let absorbed: u16 = if (displaced as u16) < 48 {
        displaced as u16
    } else {
        48
    };
    let remaining = displaced as u16 - absorbed;
    let left = bounce_up_exec(world, x, y, z + 1, remaining);
    if left > 0 {
        return;
    }
    world.set(x, y, z, Tile::Sand);
    world.set_moisture_at(idx, absorbed as u8);
    let remaining_sed = displaced_sed.saturating_sub(1);
    let above_sed = world.sediment_at(above_idx);
    world.set_sediment_at(above_idx, above_sed.saturating_add(remaining_sed));
    world.set_mass_at(idx, 0);
    world.set_sediment_at(idx, 0);
}

/// Erosion and deposition of the mass model with the given seed for the rolls. Flowing
/// or pressured water erodes erodible ground below it (damp soil resists, saturated
/// soil gives way); slow water heavy with sediment deposits Sand in its own cell and
/// is pushed upward.
pub fn pass_erosion_with_seed(world: &mut World, seed: u64)
    requires
        old(world).wf(),
    ensures
        final(world).wf(),
        final(world)@.sources == old(world)@.sources,
        final(world)@.width == old(world)@.width,
        final(world)@.depth == old(world)@.depth,
        final(world)@.height == old(world)@.height,
        final(world)@ == mass_erosion_pass(old(world)@, seed),
{
    let w = world.width();
    let d = world.depth();
    let h = world.height();
    let ghost init = world@;
    let mut z = h;
    while z > 1
        invariant
            world.wf(),
            world@.width == w,
            world@.depth == d,
            world@.height == h,
            world@.sources == init.sources,
            init.width == w,
            init.depth == d,
            init.height == h,
            z <= h,
            h >= 1 ==> z >= 1,
            h == 0 ==> z == 0,
            world@ == sweep_down(init, mass_erode_fn(seed), w as nat, d as nat, h as int, (h - z) as nat),
        decreases z,
    {
        z -= 1;
        let ghost sz = world@;
        let mut y: usize = 0;
        while y < d
            invariant
                world.wf(),
                world@.width == w,
                world@.depth == d,
                world@.height == h,
                world@.sources == init.sources,
                1 <= z < h,
                y <= d,
                world@ == sweep_layer(sz, mass_erode_fn(seed), z as int, w as nat, y as nat),
            decreases d - y,
        {
            let ghost sy = world@;
            let mut x: usize = 0;
            while x < w
                invariant
                    world.wf(),
                    world@.width == w,
                    world@.depth == d,
                    world@.height == h,
                    world@.sources == init.sources,
                    1 <= z < h,
                    y < d,
                    x <= w,
                    world@ == sweep_row(sy, mass_erode_fn(seed), y as int, z as int, x as nat),
                decreases w - x,
            {
                mass_erode_cell(world, x, y, z, seed);
                x += 1;
            }
            y += 1;
        }
    }
    let ghost eroded = world@;
    let top = if h >= 1 {
        h - 1
    } else {
        0
    };
    let mut z = top;
    while z > 1
        invariant
            world.wf(),
            world@.width == w,
            world@.depth == d,
            world@.height == h,
            world@.sources == init.sources,
            eroded.width == w,
            eroded.depth == d,
            eroded.height == h,
            top == (if h >= 1 {
                h - 1
            } else {
                0
            }),
            z <= top,
            top >= 1 ==> z >= 1,
            top == 0 ==> z == 0,
            world@ == sweep_down(
                eroded,
                mass_deposit_fn(seed),
                w as nat,
                d as nat,
                top as int,
                (top - z) as nat,
            ),
        decreases z,
    {
        z -= 1;
        let ghost sz = world@;
        let mut y: usize = 0;
        while y < d
            invariant
                world.wf(),
                world@.width == w,
                world@.depth == d,
                world@.height == h,
                world@.sources == init.sources,
                1 <= z,
                z + 1 < h,
                y <= d,
                world@ == sweep_layer(sz, mass_deposit_fn(seed), z as int, w as nat, y as nat),
            decreases d - y,
        {
            let ghost sy = world@;
            let mut x: usize = 0;
            while x < w
                invariant
                    world.wf(),
                    world@.width == w,
                    world@.depth == d,
                    world@.height == h,
                    world@.sources == init.sources,
                    1 <= z,
                    z + 1 < h,
                    y < d,
                    x <= w,
                    world@ == sweep_row(sy, mass_deposit_fn(seed), y as int, z as int, x as nat),
                decreases w - x,
            {
                mass_deposit_cell(world, x, y, z, seed);
                x += 1;
            }
            y += 1;
        }
    }
}

/// Pushing water up a column changes only water masses.
proof fn lemma_bounce_up_frame(v: WorldView, x: int, y: int, cz: int, remaining: u16)
    requires
        v.wf(),
        0 <= x < v.width,
        0 <= y < v.depth,
    ensures
        bounce_up(v, x, y, cz, remaining).0 == (WorldView {
            water_mass: bounce_up(v, x, y, cz, remaining).0.water_mass,
            ..v
        }),
        bounce_up(v, x, y, cz, remaining).0.water_mass.len() == v.water_mass.len(),
    decreases v.height - cz,
{
    if !(remaining == 0 || cz >= v.height || cz < 0 || is_solid_spec(v.tile(x, y, cz))) {
        let cidx = v.idx(x, y, cz);
        lemma_in_bounds_addressable(v, x, y, cz);
        let cap = (255 - v.water_mass[cidx]) as u16;
        let fill: u16 = if remaining < cap {
            remaining
        } else {
            cap
        };
        let v1 = if fill > 0 {
            v.set_mass_at(cidx, (v.water_mass[cidx] + fill) as u8)
        } else {
            v
        };
        let rem = (remaining - fill) as u16;
        if rem > 0 {
            lemma_bounce_up_frame(v1, x, y, cz + 1, rem);
        }
    }
}

proof fn lemma_erode_keeps_stone(init: WorldView, t: WorldView, x: int, y: int, z: int, seed: u64)
    requires
        stone_kept(init, t),
        t.in_bounds(x, y, z),
        z >= 1,
    ensures
        stone_kept(init, mass_erode_step(t, x, y, z, seed)),
{
    let r = mass_erode_step(t, x, y, z, seed);
    if r != t {
        lemma_in_bounds_addressable(t, x, y, z);
        lemma_in_bounds_addressable(t, x, y, z - 1);
        let ib = t.idx(x, y, z - 1);
        assert(t.set_tile(x, y, z - 1, Tile::Air) == t.set_tile_at(ib, Tile::Air));
        lemma_set_non_stone_keeps_stone(init, t, ib, Tile::Air);
        let t1 = t.set_tile_at(ib, Tile::Air);
        let idx = t.idx(x, y, z);
        let r2 = t1.set_sediment_at(idx, one_more_sediment(t.water_sediment[idx]));
        assert(r == r2);
        assert forall|a: int, b: int, c: int|
            #![trigger r2.tile(a, b, c)]
            init.in_bounds(a, b, c) && init.tile(a, b, c) is Stone implies r2.tile(a, b, c) is Stone by {
            assert(t1.tile(a, b, c) is Stone);
        }
    }
}

proof fn lemma_deposit_keeps_stone(init: WorldView, t: WorldView, x: int, y: int, z: int, seed: u64)
    requires
        stone_kept(init, t),
        t.in_bounds(x, y, z),
        z >= 1,
        z + 1 < t.height,
    ensures
        stone_kept(init, mass_deposit_step(t, x, y, z, seed)),
{
    reveal(mass_deposit_step);
    let r = mass_deposit_step(t, x, y, z, seed);
    lemma_in_bounds_addressable(t, x, y, z);
    lemma_in_bounds_addressable(t, x, y, z + 1);
    let idx = t.idx(x, y, z);
    let above = t.idx(x, y, z + 1);
    let sed = t.water_sediment[idx];
    let mass = t.water_mass[idx];
    let absorbed: u16 = if (mass as u16) < 48 {
        mass as u16
    } else {
        48
    };
    if r != t {
        lemma_bounce_up_frame(t, x, y, z + 1, (mass - absorbed) as u16);
        let (v1, left) = bounce_up(t, x, y, z + 1, (mass - absorbed) as u16);
        assert(stone_kept(init, v1)) by {
            assert forall|a: int, b: int, c: int|
                #![trigger v1.tile(a, b, c)]
                init.in_bounds(a, b, c) && init.tile(a, b, c) is Stone implies v1.tile(a, b, c) is Stone by {
                assert(t.tile(a, b, c) is Stone);
            }
        }
        if left == 0 {
            assert(v1.set_tile(x, y, z, Tile::Sand) == v1.set_tile_at(idx, Tile::Sand));
            lemma_set_non_stone_keeps_stone(init, v1, idx, Tile::Sand);
            let v2a = v1.set_tile_at(idx, Tile::Sand);
            let v2 = v2a.set_moisture_at(idx, absorbed as u8);
            let carried = if sed >= 1 {
                (sed - 1) as u8
            } else {
                0u8
            };
            let above_sed = v2.water_sediment[above];
            let v3 = v2.set_sediment_at(
                above,
                if above_sed + carried > 255 {
                    255u8
                } else {
                    (above_sed + carried) as u8
                },
            );
            let r2 = v3.set_mass_at(idx, 0).set_sediment_at(idx, 0);
            assert(r == r2);
            assert forall|a: int, b: int, c: int|
                #![trigger r2.tile(a, b, c)]
                init.in_bounds(a, b, c) && init.tile(a, b, c) is Stone implies r2.tile(a, b, c) is Stone by {
                assert(v2a.tile(a, b, c) is Stone);
            }
        }
    }
}

/// Stone never erodes: every cell that holds Stone before the erosion pass of the mass
/// model still holds Stone after it.
pub proof fn lemma_mass_erosion_keeps_stone(v: WorldView, seed: u64)
    requires
        v.wf(),
    ensures
        stone_kept(v, mass_erosion_pass(v, seed)),
{
    let p = |s: WorldView| stone_kept(v, s);
    let n1 = (if v.height >= 1 {
        v.height - 1
    } else {
        0
    }) as nat;
    let n2 = (if v.height >= 2 {
        v.height - 2
    } else {
        0
    }) as nat;
    let top = (if v.height >= 1 {
        v.height - 1
    } else {
        0
    }) as int;
    assert forall|t: WorldView, x: int, y: int, z: int|
        0 <= x < v.width && 0 <= y < v.depth && v.height - n1 <= z < v.height && p(t) implies p(
        #[trigger] mass_erode_fn(seed)(t, x, y, z),
    ) by {
        lemma_erode_keeps_stone(v, t, x, y, z, seed);
    }
    lemma_down_keeps(v, mass_erode_fn(seed), p, v.width, v.depth, v.height as int, n1);
    let eroded = sweep_down(v, mass_erode_fn(seed), v.width, v.depth, v.height as int, n1);
    assert forall|t: WorldView, x: int, y: int, z: int|
        0 <= x < v.width && 0 <= y < v.depth && top - n2 <= z < top && p(t) implies p(
        #[trigger] mass_deposit_fn(seed)(t, x, y, z),
    ) by {
        lemma_deposit_keeps_stone(v, t, x, y, z, seed);
    }
    lemma_down_keeps(eroded, mass_deposit_fn(seed), p, v.width, v.depth, top, n2);
}

/// Pushing water up a column adds exactly what was placed to the total water mass.
proof fn lemma_bounce_up_total(v: WorldView, x: int, y: int, cz: int, remaining: u16)
    requires
        v.wf(),
        0 <= x < v.width,
        0 <= y < v.depth,
    ensures
        bounce_up(v, x, y, cz, remaining).1 <= remaining,
        sum_u8(bounce_up(v, x, y, cz, remaining).0.water_mass) == sum_u8(v.water_mass) + remaining
            - bounce_up(v, x, y, cz, remaining).1,
    decreases v.height - cz,
{
    if !(remaining == 0 || cz >= v.height || cz < 0 || is_solid_spec(v.tile(x, y, cz))) {
        let cidx = v.idx(x, y, cz);
        lemma_in_bounds_addressable(v, x, y, cz);
        let cap = (255 - v.water_mass[cidx]) as u16;
        let fill: u16 = if remaining < cap {
            remaining
        } else {
            cap
        };
        let v1 = if fill > 0 {
            v.set_mass_at(cidx, (v.water_mass[cidx] + fill) as u8)
        } else {
            v
        };
        if fill > 0 {
            lemma_sum_u8_update(v.water_mass, cidx, (v.water_mass[cidx] + fill) as u8);
        }
        let rem = (remaining - fill) as u16;
        if rem > 0 {
            lemma_bounce_up_total(v1, x, y, cz + 1, rem);
        }
    }
}

/// The water the Sand of a deposit keeps as soil moisture: up to 48.
pub open spec fn soaked(mass: u8) -> u16 {
    if (mass as u16) < 48 {
        mass as u16
    } else {
        48
    }
}

/// The last part of a completed deposit at (x, y, z) of `v`, once the water has been
/// pushed up (giving `v1`): the cell becomes Sand holding the soaked water as soil
/// moisture, the sediment left moves up, and the cell's water and sediment are cleared.
pub open spec fn finish_deposit(v: WorldView, v1: WorldView, x: int, y: int, z: int) -> WorldView {
    let idx = v.idx(x, y, z);
    let above = v.idx(x, y, z + 1);
    let sed = v.water_sediment[idx];
    let v2 = v1.set_tile(x, y, z, Tile::Sand).set_moisture_at(idx, soaked(v.water_mass[idx]) as u8);
    let carried = if sed >= 1 {
        (sed - 1) as u8
    } else {
        0u8
    };
    let above_sed = v2.water_sediment[above];
    let v3 = v2.set_sediment_at(
        above,
        if above_sed + carried > 255 {
            255u8
        } else {
            (above_sed + carried) as u8
        },
    );
    v3.set_mass_at(idx, 0).set_sediment_at(idx, 0)
}

proof fn lemma_deposit_done(v: WorldView, x: int, y: int, z: int, seed: u64)
    requires
        v.wf(),
        v.in_bounds(x, y, z),
        z + 1 < v.height,
        !(v.tile(x, y, z) is Sand),
        mass_deposit_step(v, x, y, z, seed).tile(x, y, z) is Sand,
    ensures
        v.water_sediment[v.idx(x, y, z)] >= 3,
        bounce_up(v, x, y, z + 1, (v.water_mass[v.idx(x, y, z)] - soaked(v.water_mass[v.idx(x, y, z)])) as u16).1 == 0,
        mass_deposit_step(v, x, y, z, seed) == finish_deposit(
            v,
            bounce_up(v, x, y, z + 1, (v.water_mass[v.idx(x, y, z)] - soaked(v.water_mass[v.idx(x, y, z)])) as u16).0,
            x,
            y,
            z,
        ),
{
    reveal(mass_deposit_step);
    let idx = v.idx(x, y, z);
    let mass = v.water_mass[idx];
    lemma_bounce_up_frame(v, x, y, z + 1, (mass - soaked(mass)) as u16);
}

/// A deposit turns a cell's water into Sand without creating or losing water: when the
/// deposition step at (x, y, z) lays Sand in a cell whose soil held no moisture, the
/// total water mass plus the total soil moisture is unchanged (the Sand soaks up part
/// of the water, the rest is pushed up the column); and the deposit uses up exactly one
/// sediment, when the sediment moved to the cell above does not saturate there.
pub proof fn lemma_deposit_conserves(v: WorldView, x: int, y: int, z: int, seed: u64)
    requires
        v.wf(),
        v.in_bounds(x, y, z),
        z >= 1,
        z + 1 < v.height,
        !(v.tile(x, y, z) is Sand),
        mass_deposit_step(v, x, y, z, seed).tile(x, y, z) is Sand,
        v.soil_moisture[v.idx(x, y, z)] == 0,
        v.water_sediment[v.idx(x, y, z + 1)] + v.water_sediment[v.idx(x, y, z)] <= 256,
    ensures
        surface_and_soil_water(mass_deposit_step(v, x, y, z, seed)) == surface_and_soil_water(v),
        sum_u8(mass_deposit_step(v, x, y, z, seed).water_sediment) == sum_u8(v.water_sediment) - 1,
{
    lemma_in_bounds_addressable(v, x, y, z);
    lemma_in_bounds_addressable(v, x, y, z + 1);
    let idx = v.idx(x, y, z);
    let above = v.idx(x, y, z + 1);
    let mass = v.water_mass[idx];
    let rem = (mass - soaked(mass)) as u16;
    lemma_deposit_done(v, x, y, z, seed);
    lemma_bounce_up_frame(v, x, y, z + 1, rem);
    lemma_bounce_up_total(v, x, y, z + 1, rem);
    lemma_bounce_up_keeps_below(v, x, y, z + 1, rem, z);
    let v1 = bounce_up(v, x, y, z + 1, rem).0;
    lemma_finish_deposit_sums(v, v1, x, y, z);
}

proof fn lemma_finish_deposit_sums(v: WorldView, v1: WorldView, x: int, y: int, z: int)
    requires
        v.wf(),
        v.in_bounds(x, y, z),
        z + 1 < v.height,
        v1 == (WorldView { water_mass: v1.water_mass, ..v }),
        v1.water_mass.len() == v.water_mass.len(),
        v1.water_mass[v.idx(x, y, z)] == v.water_mass[v.idx(x, y, z)],
        sum_u8(v1.water_mass) == sum_u8(v.water_mass) + (v.water_mass[v.idx(x, y, z)] - soaked(
            v.water_mass[v.idx(x, y, z)],
        )),
        v.soil_moisture[v.idx(x, y, z)] == 0,
        v.water_sediment[v.idx(x, y, z)] >= 1,
        v.water_sediment[v.idx(x, y, z + 1)] + v.water_sediment[v.idx(x, y, z)] <= 256,
    ensures
        surface_and_soil_water(finish_deposit(v, v1, x, y, z)) == surface_and_soil_water(v),
        sum_u8(finish_deposit(v, v1, x, y, z).water_sediment) == sum_u8(v.water_sediment) - 1,
{
    lemma_in_bounds_addressable(v, x, y, z);
    lemma_in_bounds_addressable(v, x, y, z + 1);
    let idx = v.idx(x, y, z);
    let above = v.idx(x, y, z + 1);
    if idx == above {
        crate::world::lemma_idx_injective(v, x, y, z, x, y, z + 1);
    }
    let mass = v.water_mass[idx];
    let sed = v.water_sediment[idx];
    let v2 = v1.set_tile(x, y, z, Tile::Sand).set_moisture_at(idx, soaked(mass) as u8);
    let nsed = (v.water_sediment[above] + sed - 1) as u8;
    let v3 = v2.set_sediment_at(above, nsed);
    let r = v3.set_mass_at(idx, 0).set_sediment_at(idx, 0);
    assert(r == finish_deposit(v, v1, x, y, z));
    lemma_sum_u8_update(v1.water_mass, idx, 0);
    lemma_sum_u8_update(v.soil_moisture, idx, soaked(mass) as u8);
    lemma_sum_u8_update(v.water_sediment, above, nsed);
    lemma_sum_u8_update(v.water_sediment.update(above, nsed), idx, 0);
}

/// Pushing water up from layer `cz` leaves the layers below it alone.
proof fn lemma_bounce_up_keeps_below(v: WorldView, x: int, y: int, cz: int, remaining: u16, zb: int)
    requires
        v.wf(),
        0 <= x < v.width,
        0 <= y < v.depth,
        0 <= zb < cz,
        zb < v.height,
    ensures
        bounce_up(v, x, y, cz, remaining).0.water_mass[v.idx(x, y, zb)] == v.water_mass[v.idx(x, y, zb)],
    decreases v.height - cz,
{
    if !(remaining == 0 || cz >= v.height || cz < 0 || is_solid_spec(v.tile(x, y, cz))) {
        let cidx = v.idx(x, y, cz);
        lemma_in_bounds_addressable(v, x, y, cz);
        lemma_in_bounds_addressable(v, x, y, zb);
        if cidx == v.idx(x, y, zb) {
            crate::world::lemma_idx_injective(v, x, y, cz, x, y, zb);
        }
        let cap = (255 - v.water_mass[cidx]) as u16;
        let fill: u16 = if remaining < cap {
            remaining
        } else {
            cap
        };
        let v1 = if fill > 0 {
            v.set_mass_at(cidx, (v.water_mass[cidx] + fill) as u8)
        } else {
            v
        };
        let rem = (remaining - fill) as u16;
        if rem > 0 {
            lemma_bounce_up_keeps_below(v1, x, y, cz + 1, rem, zb);
        }
    }
}

/// What the erosion pass of the mass model may make of cell (x, y, z) of `v`, seen in
/// `a`: its tile is unchanged, or Sand, or Air where it was erodible and the cell above
/// held water.
pub open spec fn tile_outcome_ok(v: WorldView, a: WorldView, x: int, y: int, z: int) -> bool {
    let i = v.idx(x, y, z);
    ||| a.tiles[i] == v.tiles[i]
    ||| a.tiles[i] == Tile::Sand
    ||| (a.tiles[i] == Tile::Air && is_erodible_spec(v.tiles[i]) && z + 1 < v.height && v.mass(x, y, z + 1) > 0)
}

/// During the erosion phase: the masses are those of `v`, and every tile is unchanged
/// or eroded to Air from an erodible tile under water.
pub open spec fn erosion_phase_ok(v: WorldView, t: WorldView) -> bool {
    &&& t.wf()
    &&& t.width == v.width && t.depth == v.depth && t.height == v.height
    &&& t.water_mass == v.water_mass
    &&& forall|x: int, y: int, z: int|
        v.in_bounds(x, y, z) ==> {
            let i = v.idx(x, y, z);
            ||| #[trigger] t.tiles[v.idx(x, y, z)] == v.tiles[i]
            ||| (t.tiles[i] == Tile::Air && is_erodible_spec(v.tiles[i]) && z + 1 < v.height && v.mass(x, y, z + 1)
                > 0)
        }
}

/// During the deposition phase: every tile is that of `e` or Sand.
pub open spec fn deposit_phase_ok(e: WorldView, t: WorldView) -> bool {
    &&& t.wf()
    &&& t.width == e.width && t.depth == e.depth && t.height == e.height
    &&& forall|i: int| 0 <= i < e.size() ==> #[trigger] t.tiles[i] == e.tiles[i] || t.tiles[i] == Tile::Sand
}

proof fn lemma_erode_step_outcome(v: WorldView, t: WorldView, x: int, y: int, z: int, seed: u64)
    requires
        v.wf(),
        erosion_phase_ok(v, t),
        v.in_bounds(x, y, z),
        z >= 1,
    ensures
        erosion_phase_ok(v, mass_erode_step(t, x, y, z, seed)),
{
    let r = mass_erode_step(t, x, y, z, seed);
    if r != t {
        lemma_in_bounds_addressable(v, x, y, z);
        lemma_in_bounds_addressable(v, x, y, z - 1);
        let b = v.idx(x, y, z - 1);
        assert(v.idx(x, y, z) == t.idx(x, y, z));
        assert forall|a: int, bb: int, c: int| v.in_bounds(a, bb, c) implies {
            let i = v.idx(a, bb, c);
            ||| #[trigger] r.tiles[v.idx(a, bb, c)] == v.tiles[i]
            ||| (r.tiles[i] == Tile::Air && is_erodible_spec(v.tiles[i]) && c + 1 < v.height && v.mass(a, bb, c + 1)
                > 0)
        } by {
            lemma_in_bounds_addressable(v, a, bb, c);
            if v.idx(a, bb, c) == b {
                crate::world::lemma_idx_injective(v, a, bb, c, x, y, z - 1);
            }
        }
    }
}

proof fn lemma_deposit_step_outcome(e: WorldView, t: WorldView, x: int, y: int, z: int, seed: u64)
    requires
        deposit_phase_ok(e, t),
        t.in_bounds(x, y, z),
        z >= 1,
        z + 1 < t.height,
    ensures
        deposit_phase_ok(e, mass_deposit_step(t, x, y, z, seed)),
{
    reveal(mass_deposit_step);
    let r = mass_deposit_step(t, x, y, z, seed);
    lemma_in_bounds_addressable(t, x, y, z);
    lemma_in_bounds_addressable(t, x, y, z + 1);
    let idx = t.idx(x, y, z);
    let mass = t.water_mass[idx];
    let absorbed: u16 = if (mass as u16) < 48 {
        mass as u16
    } else {
        48
    };
    if r != t {
        lemma_bounce_up_frame(t, x, y, z + 1, (mass - absorbed) as u16);
    }
}

/// The erosion pass of the mass model turns tiles only into Air or Sand: afterwards
/// every cell holds its old tile, or Sand, or Air, and Air only where the old tile was
/// erodible (Grass, Dirt or Sand) and the cell above held water.
pub proof fn lemma_mass_erosion_tile_outcomes(v: WorldView, seed: u64)
    requires
        v.wf(),
    ensures
        forall|x: int, y: int, z: int|
            v.in_bounds(x, y, z) ==> #[trigger] tile_outcome_ok(v, mass_erosion_pass(v, seed), x, y, z),
{
    let n1 = (if v.height >= 1 {
        v.height - 1
    } else {
        0
    }) as nat;
    let n2 = (if v.height >= 2 {
        v.height - 2
    } else {
        0
    }) as nat;
    let top = (if v.height >= 1 {
        v.height - 1
    } else {
        0
    }) as int;
    let p1 = |s: WorldView| erosion_phase_ok(v, s);
    assert forall|t: WorldView, x: int, y: int, z: int|
        0 <= x < v.width && 0 <= y < v.depth && v.height - n1 <= z < v.height && p1(t) implies p1(
        #[trigger] mass_erode_fn(seed)(t, x, y, z),
    ) by {
        lemma_erode_step_outcome(v, t, x, y, z, seed);
    }
    lemma_down_keeps(v, mass_erode_fn(seed), p1, v.width, v.depth, v.height as int, n1);
    let e = sweep_down(v, mass_erode_fn(seed), v.width, v.depth, v.height as int, n1);
    let p2 = |s: WorldView| deposit_phase_ok(e, s);
    assert forall|t: WorldView, x: int, y: int, z: int|
        0 <= x < v.width && 0 <= y < v.depth && top - n2 <= z < top && p2(t) implies p2(
        #[trigger] mass_deposit_fn(seed)(t, x, y, z),
    ) by {
        lemma_deposit_step_outcome(e, t, x, y, z, seed);
    }
    lemma_down_keeps(e, mass_deposit_fn(seed), p2, v.width, v.depth, top, n2);
    let r = mass_erosion_pass(v, seed);
    assert forall|x: int, y: int, z: int| v.in_bounds(x, y, z) implies #[trigger] tile_outcome_ok(v, r, x, y, z) by {
        lemma_in_bounds_addressable(v, x, y, z);
        let i = v.idx(x, y, z);
        assert(r.tiles[i] == e.tiles[i] || r.tiles[i] == Tile::Sand);
        assert(e.tiles[v.idx(x, y, z)] == v.tiles[i] || (e.tiles[i] == Tile::Air && is_erodible_spec(v.tiles[i]) && z + 1
            < v.height && v.mass(x, y, z + 1) > 0));
    }
}

} // verus!
