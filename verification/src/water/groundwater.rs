use vstd::prelude::*;
use crate::tile::{is_solid_spec, capacity_of, absorb_rate_of, permeability_of};
use crate::world::{World, WorldView, lemma_in_bounds_addressable, wadd16, wsub16, min_int, applied_moisture};
use crate::sweep::{sweep_row, sweep_layer, sweep_up, sweep_down, lemma_up_keeps, lemma_down_keeps, lemma_down_prog, lemma_up_prog};
use crate::water::mass_evaporation::{sum_u8, lemma_sum_u8_update};
use crate::water::conservation::{sum_i16, lemma_sum_i16_update, lemma_sum_i16_zero, down_pos, seen, side_index, lemma_seen_grows, lemma_seen_receiver};

verus! {

broadcast use lemma_in_bounds_addressable;

// ---------------------------------------------------------------------------
// Phase A: absorption
// ---------------------------------------------------------------------------

/// Absorption at (x, y, z): surface water in a non-solid cell soaks into the solid tile
/// below, at most the tile's absorption rate and at most what the tile can still hold.
pub open spec fn absorb_step(v: WorldView, x: int, y: int, z: int) -> WorldView {
    let idx = v.idx(x, y, z);
    let below = v.idx(x, y, z - 1);
    let water = v.water_mass[idx];
    let bt = v.tile(x, y, z - 1);
    let cap = capacity_of(bt);
    let current = v.soil_moisture[below];
    let room = if cap > current {
        cap - current
    } else {
        0
    };
    let transfer = min_int(min_int(absorb_rate_of(bt) as int, room), water as int);
    if water == 0 || is_solid_spec(v.tile(x, y, z)) || !is_solid_spec(bt) || cap == 0 || room == 0
        || transfer == 0 {
        v
    } else {
        v.set_mass_at(idx, (water - transfer) as u8).set_moisture_at(below, (current + transfer) as u8)
    }
}

pub open spec fn absorb_fn() -> spec_fn(WorldView, int, int, int) -> WorldView {
    |v: WorldView, x: int, y: int, z: int| absorb_step(v, x, y, z)
}

fn absorb_cell(world: &mut World, x: usize, y: usize, z: usize)
    requires
        old(world).wf(),
        old(world)@.in_bounds(x as int, y as int, z as int),
        z >= 1,
    ensures
        final(world).wf(),
        final(world)@ == absorb_step(old(world)@, x as int, y as int, z as int),
{
    let idx = world.index(x, y, z);
    let water = world.mass_at(idx);
    if water == 0 {
        return;
    }
    if world.get(x, y, z).is_solid() {
        return;
    }
    proof {
        lemma_in_bounds_addressable(world@, x as int, y as int, z - 1);
    }
    let below_idx = world.index(x, y, z - 1);
    let below_tile = world.get(x, y, z - 1);
    if !below_tile.is_solid() {
        return;
    }
    let cap = below_tile.moisture_capacity();
    if cap == 0 {
        return;
    }
    let current = world.moisture_at(below_idx);
    let remaining_cap = cap.saturating_sub(current);
    if remaining_cap == 0 {
        return;
    }
    let rate = below_tile.absorb_rate();
    let t1 = if rate < remaining_cap {
        rate
    } else {
        remaining_cap
    };
    let transfer = if t1 < water {
        t1
    } else {
        water
    };
    if transfer == 0 {
        return;
    }
    world.set_mass_at(idx, water - transfer);
    world.set_moisture_at(below_idx, current + transfer);
}

// ---------------------------------------------------------------------------
// Phase B: underground gravity
// ---------------------------------------------------------------------------

/// The moisture a cell is expected to hold once its pending delta is applied, with
/// negatives counted as 0 and the value truncated to a byte.
pub open spec fn expected_moisture(v: WorldView, i: int) -> u8 {
    let e = wadd16(v.soil_moisture[i] as i16, v.moisture_delta[i]) as int;
    (if e < 0 {
        0
    } else {
        e
    }) as u8
}

/// Underground gravity at (x, y, z): moisture in soil seeps into the soil below, at
/// most the smaller permeability of the two tiles and at most the room expected below.
/// Only the pending deltas change.
pub open spec fn seep_down_step(v: WorldView, x: int, y: int, z: int) -> WorldView {
    let idx = v.idx(x, y, z);
    let below = v.idx(x, y, z - 1);
    let t = v.tile(x, y, z);
    let bt = v.tile(x, y, z - 1);
    let moisture = v.soil_moisture[idx];
    let below_cap = capacity_of(bt);
    let below_current = expected_moisture(v, below);
    let below_room = if below_cap > below_current {
        below_cap - below_current
    } else {
        0
    };
    let perm = min_int(permeability_of(t) as int, permeability_of(bt) as int);
    let transfer = min_int(min_int(perm, below_room), moisture as int);
    if capacity_of(t) == 0 || moisture == 0 || below_cap == 0 || below_room == 0 || transfer == 0 {
        v
    } else {
        let tr = transfer as i16;
        let v1 = v.set_moisture_delta_at(idx, wsub16(v.moisture_delta[idx], tr));
        v1.set_moisture_delta_at(below, wadd16(v1.moisture_delta[below], tr))
    }
}

pub open spec fn seep_down_fn() -> spec_fn(WorldView, int, int, int) -> WorldView {
    |v: WorldView, x: int, y: int, z: int| seep_down_step(v, x, y, z)
}

fn seep_down_cell(world: &mut World, x: usize, y: usize, z: usize)
    requires
        old(world).wf(),
        old(world)@.in_bounds(x as int, y as int, z as int),
        z >= 1,
    ensures
        final(world).wf(),
        final(world)@ == seep_down_step(old(world)@, x as int, y as int, z as int),
{
    let idx = world.index(x, y, z);
    let tile = world.get(x, y, z);
    if tile.moisture_capacity() == 0 {
        return;
    }
    let moisture = world.moisture_at(idx);
    if moisture == 0 {
        return;
    }
    proof {
        lemma_in_bounds_addressable(world@, x as int, y as int, z - 1);
    }
    let below_idx = world.index(x, y, z - 1);
    let below_tile = world.get(x, y, z - 1);
    let below_cap = below_tile.moisture_capacity();
    if below_cap == 0 {
        return;
    }
    let be = (world.moisture_at(below_idx) as i16).wrapping_add(world.moisture_delta_at(below_idx));
    let below_current: u8 = if be < 0 {
        0
    } else {
        be as u8
    };
    let below_remaining = below_cap.saturating_sub(below_current);
    if below_remaining == 0 {
        return;
    }
    let p1 = tile.permeability();
    let p2 = below_tile.permeability();
    let perm = if p1 < p2 {
        p1
    } else {
        p2
    };
    let t1 = if perm < below_remaining {
        perm
    } else {
        below_remaining
    };
    let transfer = if t1 < moisture {
        t1
    } else {
        moisture
    };
    if transfer == 0 {
        return;
    }
    let a = world.moisture_delta_at(idx).wrapping_sub(transfer as i16);
    world.set_moisture_delta_at(idx, a);
    let b = world.moisture_delta_at(below_idx).wrapping_add(transfer as i16);
    world.set_moisture_delta_at(below_idx, b);
}

// ---------------------------------------------------------------------------
// Phase C: horizontal equalization
// ---------------------------------------------------------------------------

/// The horizontal neighbor offsets, in order: west, east, north, south.
pub open spec fn offset(x: int, y: int, k: int) -> (int, int) {
    if k == 0 {
        (x - 1, y)
    } else if k == 1 {
        (x + 1, y)
    } else if k == 2 {
        (x, y - 1)
    } else {
        (x, y + 1)
    }
}

/// The moisture difference toward neighbor `k` of (x, y, z), with that neighbor's
/// index: positive only for a neighbor within the world that holds moisture and is
/// expected drier than `moisture`.
pub open spec fn diff_toward(v: WorldView, x: int, y: int, z: int, moisture: u8, k: int) -> (int, u8) {
    let (nx, ny) = offset(x, y, k);
    if 0 <= nx < v.width && 0 <= ny < v.depth && capacity_of(v.tile(nx, ny, z)) != 0 {
        let n_idx = v.idx(nx, ny, z);
        let nm = expected_moisture(v, n_idx);
        if nm < moisture {
            (n_idx, (moisture - nm) as u8)
        } else {
            (0, 0)
        }
    } else {
        (0, 0)
    }
}

pub open spec fn total_diff(v: WorldView, x: int, y: int, z: int, moisture: u8) -> int {
    diff_toward(v, x, y, z, moisture, 0).1 + diff_toward(v, x, y, z, moisture, 1).1 + diff_toward(
        v,
        x,
        y,
        z,
        moisture,
        2,
    ).1 + diff_toward(v, x, y, z, moisture, 3).1
}

/// Moves to the first `n` neighbors their shares of `budget`, in proportion to the
/// differences computed on `base` (the state before this cell's moves).
pub open spec fn share_out(
    v: WorldView,
    base: WorldView,
    idx: int,
    x: int,
    y: int,
    z: int,
    moisture: u8,
    budget: int,
    total: int,
    n: nat,
) -> WorldView
    decreases n,
{
    if n == 0 {
        v
    } else {
        let prev = share_out(v, base, idx, x, y, z, moisture, budget, total, (n - 1) as nat);
        let (n_idx, diff) = diff_toward(base, x, y, z, moisture, n - 1);
        let transfer = (budget * diff / total) as i16;
        if diff == 0 || transfer == 0 {
            prev
        } else {
            let p1 = prev.set_moisture_delta_at(idx, wsub16(prev.moisture_delta[idx], transfer));
            p1.set_moisture_delta_at(n_idx, wadd16(p1.moisture_delta[n_idx], transfer))
        }
    }
}

/// Horizontal equalization at (x, y, z): soil with moisture shares an eighth of it with
/// drier soil neighbors, in proportion to how much drier each is.
pub open spec fn equalize_step(v: WorldView, x: int, y: int, z: int) -> WorldView {
    let idx = v.idx(x, y, z);
    let moisture = expected_moisture(v, idx);
    let budget = moisture / 8;
    let total = total_diff(v, x, y, z, moisture);
    if capacity_of(v.tile(x, y, z)) == 0 || moisture == 0 || budget == 0 || total == 0 {
        v
    } else {
        share_out(v, v, idx, x, y, z, moisture, budget as int, total, 4)
    }
}

pub open spec fn equalize_fn() -> spec_fn(WorldView, int, int, int) -> WorldView {
    |v: WorldView, x: int, y: int, z: int| equalize_step(v, x, y, z)
}

fn diff_toward_exec(world: &World, x: usize, y: usize, z: usize, moisture: u8, k: usize) -> (r: (
    usize,
    u8,
))
    requires
        world.wf(),
        world@.in_bounds(x as int, y as int, z as int),
        k < 4,
    ensures
        r.0 as int == diff_toward(world@, x as int, y as int, z as int, moisture, k as int).0,
        r.1 == diff_toward(world@, x as int, y as int, z as int, moisture, k as int).1,
        r.1 != 0 ==> r.0 < world@.size() && r.0 != world@.idx(x as int, y as int, z as int),
{
    let w = world.width();
    let d = world.depth();
    let (ok, nx, ny) = if k == 0 {
        (x > 0, if x > 0 { x - 1 } else { 0 }, y)
    } else if k == 1 {
        (x + 1 < w, x + 1, y)
    } else if k == 2 {
        (y > 0, x, if y > 0 { y - 1 } else { 0 })
    } else {
        (y + 1 < d, x, y + 1)
    };
    proof {
        let (sx, sy) = offset(x as int, y as int, k as int);
        assert(ok == (0 <= sx < world@.width && 0 <= sy < world@.depth));
        assert(ok ==> sx == nx && sy == ny);
    }
    if !ok {
        return (0, 0);
    }
    let n_tile = world.get(nx, ny, z);
    if n_tile.moisture_capacity() == 0 {
        return (0, 0);
    }
    let n_idx = world.index(nx, ny, z);
    let ne = (world.moisture_at(n_idx) as i16).wrapping_add(world.moisture_delta_at(n_idx));
    let nm: u8 = if ne < 0 {
        0
    } else {
        ne as u8
    };
    if nm >= moisture {
        return (0, 0);
    }
    proof {
        if n_idx == world@.idx(x as int, y as int, z as int) {
            crate::world::lemma_idx_injective(world@, nx as int, ny as int, z as int, x as int, y as int, z as int);
        }
    }
    (n_idx, moisture - nm)
}

fn equalize_cell(world: &mut World, x: usize, y: usize, z: usize)
    requires
        old(world).wf(),
        old(world)@.in_bounds(x as int, y as int, z as int),
    ensures
        final(world).wf(),
        final(world)@ == equalize_step(old(world)@, x as int, y as int, z as int),
        final(world)@.sources == old(world)@.sources,
        final(world)@.width == old(world)@.width,
        final(world)@.depth == old(world)@.depth,
        final(world)@.height == old(world)@.height,
{
    let ghost v = world@;
    let idx = world.index(x, y, z);
    let tile = world.get(x, y, z);
    let cap = tile.moisture_capacity();
    if cap == 0 {
        return;
    }
    let e = (world.moisture_at(idx) as i16).wrapping_add(world.moisture_delta_at(idx));
    let moisture: u8 = if e < 0 {
        0
    } else {
        e as u8
    };
    if moisture == 0 {
        return;
    }
    let budget: u16 = (moisture as u16) / 8;
    if budget == 0 {
        return;
    }
    let t0 = diff_toward_exec(world, x, y, z, moisture, 0);
    let t1 = diff_toward_exec(world, x, y, z, moisture, 1);
    let t2 = diff_toward_exec(world, x, y, z, moisture, 2);
    let t3 = diff_toward_exec(world, x, y, z, moisture, 3);
    let total: u16 = t0.1 as u16 + t1.1 as u16 + t2.1 as u16 + t3.1 as u16;
    if total == 0 {
        return;
    }
    let targets = [t0, t1, t2, t3];
    let mut i: usize = 0;
    while i < 4
        invariant
            world.wf(),
            world@.width == v.width,
            world@.depth == v.depth,
            world@.height == v.height,
            world@.sources == v.sources,
            v.wf(),
            v.in_bounds(x as int, y as int, z as int),
            idx == v.idx(x as int, y as int, z as int),
            idx < v.size(),
            moisture == expected_moisture(v, idx as int),
            budget == moisture / 8,
            total == total_diff(v, x as int, y as int, z as int, moisture),
            total > 0,
            i <= 4,
            targets@ == seq![t0, t1, t2, t3],
            forall|k: int|
                0 <= k < 4 ==> (#[trigger] targets@[k]).0 as int == diff_toward(
                    v,
                    x as int,
                    y as int,
                    z as int,
                    moisture,
                    k,
                ).0 && targets@[k].1 == diff_toward(v, x as int, y as int, z as int, moisture, k).1
                    && (targets@[k].1 != 0 ==> targets@[k].0 < v.size()),
            world@ == share_out(
                v,
                v,
                idx as int,
                x as int,
                y as int,
                z as int,
                moisture,
                budget as int,
                total as int,
                i as nat,
            ),
        decreases 4 - i,
    {
        let (n_idx, diff) = targets[i];
        if diff != 0 {
            proof {
                assert((budget as u32) * (diff as u32) <= 31 * 255) by (nonlinear_arith)
                    requires
                        budget <= 31,
                        diff <= 255,
                ;
            }
            let transfer = ((budget as u32) * (diff as u32) / (total as u32)) as i16;
            if transfer != 0 {
                let a = world.moisture_delta_at(idx).wrapping_sub(transfer);
                world.set_moisture_delta_at(idx, a);
                let b = world.moisture_delta_at(n_idx).wrapping_add(transfer);
                world.set_moisture_delta_at(n_idx, b);
            }
        }
        i += 1;
    }
}

// ---------------------------------------------------------------------------
// Phase D: seepage
// ---------------------------------------------------------------------------

/// The cell that soil at (x, y, z) seeps into: the first horizontal neighbor (west,
/// east, north, south) within the world that is Air, else the cell above if it is Air.
pub open spec fn seep_target(v: WorldView, x: int, y: int, z: int) -> Option<int> {
    let ok = |k: int|
        {
            let (nx, ny) = offset(x, y, k);
            0 <= nx < v.width && 0 <= ny < v.depth && v.tile(nx, ny, z) is Air
        };
    if ok(0) {
        Some(v.idx(x - 1, y, z))
    } else if ok(1) {
        Some(v.idx(x + 1, y, z))
    } else if ok(2) {
        Some(v.idx(x, y - 1, z))
    } else if ok(3) {
        Some(v.idx(x, y + 1, z))
    } else if z + 1 < v.height && v.tile(x, y, z + 1) is Air {
        Some(v.idx(x, y, z + 1))
    } else {
        None
    }
}

/// Seepage at (x, y, z): soil expected to hold more than half its capacity seeps up to
/// 2 of the excess into an adjacent Air cell as surface water (as much as that cell
/// can still hold).
pub open spec fn seepage_step(v: WorldView, x: int, y: int, z: int) -> WorldView {
    let idx = v.idx(x, y, z);
    let cap = capacity_of(v.tile(x, y, z));
    let moisture = expected_moisture(v, idx);
    let threshold = cap / 2;
    if cap == 0 || moisture <= threshold {
        v
    } else {
        match seep_target(v, x, y, z) {
            Some(target) => {
                let available = moisture - threshold;
                let room = 255 - v.water_mass[target];
                let seep = min_int(min_int(available, 2), room);
                if seep > 0 {
                    v.set_moisture_delta_at(idx, wsub16(v.moisture_delta[idx], seep as i16)).set_mass_at(
                        target,
                        (v.water_mass[target] + seep) as u8,
                    )
                } else {
                    v
                }
            },
            None => v,
        }
    }
}

pub open spec fn seepage_fn() -> spec_fn(WorldView, int, int, int) -> WorldView {
    |v: WorldView, x: int, y: int, z: int| seepage_step(v, x, y, z)
}

fn seepage_cell(world: &mut World, x: usize, y: usize, z: usize)
    requires
        old(world).wf(),
        old(world)@.in_bounds(x as int, y as int, z as int),
    ensures
        final(world).wf(),
        final(world)@ == seepage_step(old(world)@, x as int, y as int, z as int),
{
    let w = world.width();
    let d = world.depth();
    let h = world.height();
    let idx = world.index(x, y, z);
    let tile = world.get(x, y, z);
    let cap = tile.moisture_capacity();
    if cap == 0 {
        return;
    }
    let e = (world.moisture_at(idx) as i16).wrapping_add(world.moisture_delta_at(idx));
    let moisture: u8 = if e < 0 {
        0
    } else {
        e as u8
    };
    let threshold = cap / 2;
    if moisture <= threshold {
        return;
    }
    let seep_idx: Option<usize> = if x > 0 && world.get(x - 1, y, z).is_air() {
        Some(world.index(x - 1, y, z))
    } else if x + 1 < w && world.get(x + 1, y, z).is_air() {
        Some(world.index(x + 1, y, z))
    } else if y > 0 && world.get(x, y - 1, z).is_air() {
        Some(world.index(x, y - 1, z))
    } else if y + 1 < d && world.get(x, y + 1, z).is_air() {
        Some(world.index(x, y + 1, z))
    } else if z + 1 < h && world.get(x, y, z + 1).is_air() {
        Some(world.index(x, y, z + 1))
    } else {
        None
    };
    proof {
        assert(seep_idx == match seep_target(world@, x as int, y as int, z as int) {
            Some(t) => Some(t as usize),
            None => None::<usize>,
        });
    }
    if let Some(target) = seep_idx {
        let available = moisture - threshold;
        let capacity = 255u8.saturating_sub(world.mass_at(target));
        let s1 = if available < 2 {
            available
        } else {
            2
        };
        let seep = if s1 < capacity {
            s1
        } else {
            capacity
        };
        if seep > 0 {
            let a = world.moisture_delta_at(idx).wrapping_sub(seep as i16);
            world.set_moisture_delta_at(idx, a);
            let m = world.mass_at(target);
            world.set_mass_at(target, m + seep);
        }
    }
}

// ---------------------------------------------------------------------------
// The pass
// ---------------------------------------------------------------------------

/// One tick of groundwater: absorption (layers 1 and up), underground gravity (layers
/// from the top down to 1), horizontal equalization and seepage (all layers, bottom
/// up), then the pending moisture deltas are applied.
pub open spec fn groundwater_pass(v: WorldView) -> WorldView {
    let upper = (if v.height >= 1 {
        v.height - 1
    } else {
        0
    }) as nat;
    let a = sweep_up(v, absorb_fn(), v.width, v.depth, 1, upper);
    let b = sweep_down(a, seep_down_fn(), v.width, v.depth, v.height as int, upper);
    let c = sweep_up(b, equalize_fn(), v.width, v.depth, 0, v.height);
    let d = sweep_up(c, seepage_fn(), v.width, v.depth, 0, v.height);
    WorldView {
        soil_moisture: Seq::new(
            d.size(),
            |i: int| applied_moisture(d.soil_moisture[i], d.moisture_delta[i], capacity_of(d.tiles[i])),
        ),
        moisture_delta: Seq::new(d.size(), |i: int| 0i16),
        ..d
    }
}

/// Phase A over layers 1 and up.
fn absorb_phase(world: &mut World)
    requires
        old(world).wf(),
    ensures
        final(world).wf(),
        final(world)@ == sweep_up(old(world)@, absorb_fn(), old(world)@.width, old(world)@.depth, 1, (if old(world)@.height >= 1 {
            old(world)@.height - 1
        } else {
            0
        }) as nat),
        final(world)@.width == old(world)@.width,
        final(world)@.depth == old(world)@.depth,
        final(world)@.height == old(world)@.height,
        final(world)@.sources == old(world)@.sources,
        final(world)@.width == old(world)@.width,
        final(world)@.depth == old(world)@.depth,
        final(world)@.height == old(world)@.height,
{
    let w = world.width();
    let d = world.depth();
    let h = world.height();
    let ghost init = world@;
    let mut z: usize = 1;
    while z < h
        invariant
            world.wf(),
            world@.width == w,
            world@.depth == d,
            world@.height == h,
            world@.sources == init.sources,
            init.width == w,
            init.depth == d,
            init.height == h,
            1 <= z,
            h >= 1 ==> z <= h,
            h == 0 ==> z == 1,
            world@ == sweep_up(init, absorb_fn(), w as nat, d as nat, 1, (z - 1) as nat),
        decreases h - z,
    {
        let ghost sz = world@;
        let mut y: usize = 0;
        while y < d
            invariant
                world.wf(),
                world@.width == w,
                world@.depth == d,
                world@.height == h,
                world@.sources == init.sources,
                1 <= z < h,
                y <= d,
                world@ == sweep_layer(sz, absorb_fn(), z as int, w as nat, y as nat),
            decreases d - y,
        {
            let ghost sy = world@;
            let mut x: usize = 0;
            while x < w
                invariant
                    world.wf(),
                    world@.width == w,
                    world@.depth == d,
                    world@.height == h,
                    world@.sources == init.sources,
                    1 <= z < h,
                    y < d,
                    x <= w,
                    world@ == sweep_row(sy, absorb_fn(), y as int, z as int, x as nat),
                decreases w - x,
            {
                absorb_cell(world, x, y, z);
                x += 1;
            }
            y += 1;
        }
        z += 1;
    }
}

/// Phase B over layers from the top down to 1.
fn seep_down_phase(world: &mut World)
    requires
        old(world).wf(),
    ensures
        final(world).wf(),
        final(world)@ == sweep_down(old(world)@, seep_down_fn(), old(world)@.width, old(world)@.depth, old(world)@.height as int, (if old(world)@.height >= 1 {
            old(world)@.height - 1
        } else {
            0
        }) as nat),
        final(world)@.width == old(world)@.width,
        final(world)@.depth == old(world)@.depth,
        final(world)@.height == old(world)@.height,
        final(world)@.sources == old(world)@.sources,
        final(world)@.width == old(world)@.width,
        final(world)@.depth == old(world)@.depth,
        final(world)@.height == old(world)@.height,
{
    let w = world.width();
    let d = world.depth();
    let h = world.height();
    let ghost init = world@;
    let mut z = h;
    while z > 1
        invariant
            world.wf(),
            world@.width == w,
            world@.depth == d,
            world@.height == h,
            world@.sources == init.sources,
            init.width == w,
            init.depth == d,
            init.height == h,
            z <= h,
            h >= 1 ==> z >= 1,
            h == 0 ==> z == 0,
            world@ == sweep_down(init, seep_down_fn(), w as nat, d as nat, h as int, (h - z) as nat),
        decreases z,
    {
        z -= 1;
        let ghost sz = world@;
        let mut y: usize = 0;
        while y < d
            invariant
                world.wf(),
                world@.width == w,
                world@.depth == d,
                world@.height == h,
                world@.sources == init.sources,
                1 <= z < h,
                y <= d,
                world@ == sweep_layer(sz, seep_down_fn(), z as int, w as nat, y as nat),
            decreases d - y,
        {
            let ghost sy = world@;
            let mut x: usize = 0;
            while x < w
                invariant
                    world.wf(),
                    world@.width == w,
                    world@.depth == d,
                    world@.height == h,
                    world@.sources == init.sources,
                    1 <= z < h,
                    y < d,
                    x <= w,
                    world@ == sweep_row(sy, seep_down_fn(), y as int, z as int, x as nat),
                decreases w - x,
            {
                seep_down_cell(world, x, y, z);
                x += 1;
            }
            y += 1;
        }
    }
}

/// Phase C over all layers, bottom up.
fn equalize_phase(world: &mut World)
    requires
        old(world).wf(),
    ensures
        final(world).wf(),
        final(world)@ == sweep_up(old(world)@, equalize_fn(), old(world)@.width, old(world)@.depth, 0, old(world)@.height),
        final(world)@.width == old(world)@.width,
        final(world)@.depth == old(world)@.depth,
        final(world)@.height == old(world)@.height,
        final(world)@.sources == old(world)@.sources,
        final(world)@.width == old(world)@.width,
        final(world)@.depth == old(world)@.depth,
        final(world)@.height == old(world)@.height,
{
    let w = world.width();
    let d = world.depth();
    let h = world.height();
    let ghost init = world@;
    let mut z: usize = 0;
    while z < h
        invariant
            world.wf(),
            world@.width == w,
            world@.depth == d,
            world@.height == h,
            world@.sources == init.sources,
            init.width == w,
            init.depth == d,
            init.height == h,
            z <= h,
            world@ == sweep_up(init, equalize_fn(), w as nat, d as nat, 0, z as nat),
        decreases h - z,
    {
        let ghost sz = world@;
        let mut y: usize = 0;
        while y < d
            invariant
                world.wf(),
                world@.width == w,
                world@.depth == d,
                world@.height == h,
                world@.sources == init.sources,
                z < h,
                y <= d,
                world@ == sweep_layer(sz, equalize_fn(), z as int, w as nat, y as nat),
            decreases d - y,
        {
            let ghost sy = world@;
            let mut x: usize = 0;
            while x < w
                invariant
                    world.wf(),
                    world@.width == w,
                    world@.depth == d,
                    world@.height == h,
                    world@.sources == init.sources,
                    z < h,
                    y < d,
                    x <= w,
                    world@ == sweep_row(sy, equalize_fn(), y as int, z as int, x as nat),
                decreases w - x,
            {
                equalize_cell(world, x, y, z);
                x += 1;
            }
            y += 1;
        }
        z += 1;
    }
}

/// Phase D over all layers, bottom up.
fn seepage_phase(world: &mut World)
    requires
        old(world).wf(),
    ensures
        final(world).wf(),
        final(world)@ == sweep_up(old(world)@, seepage_fn(), old(world)@.width, old(world)@.depth, 0, old(world)@.height),
        final(world)@.width == old(world)@.width,
        final(world)@.depth == old(world)@.depth,
        final(world)@.height == old(world)@.height,
        final(world)@.sources == old(world)@.sources,
        final(world)@.width == old(world)@.width,
        final(world)@.depth == old(world)@.depth,
        final(world)@.height == old(world)@.height,
{
    let w = world.width();
    let d = world.depth();
    let h = world.height();
    let ghost init = world@;
    let mut z: usize = 0;
    while z < h
        invariant
            world.wf(),
            world@.width == w,
            world@.depth == d,
            world@.height == h,
            world@.sources == init.sources,
            init.width == w,
            init.depth == d,
            init.height == h,
            z <= h,
            world@ == sweep_up(init, seepage_fn(), w as nat, d as nat, 0, z as nat),
        decreases h - z,
    {
        let ghost sz = world@;
        let mut y: usize = 0;
        while y < d
            invariant
                world.wf(),
                world@.width == w,
                world@.depth == d,
                world@.height == h,
                world@.sources == init.sources,
                z < h,
                y <= d,
                world@ == sweep_layer(sz, seepage_fn(), z as int, w as nat, y as nat),
            decreases d - y,
        {
            let ghost sy = world@;
            let mut x: usize = 0;
            while x < w
                invariant
                    world.wf(),
                    world@.width == w,
                    world@.depth == d,
                    world@.height == h,
                    world@.sources == init.sources,
                    z < h,
                    y < d,
                    x <= w,
                    world@ == sweep_row(sy, seepage_fn(), y as int, z as int, x as nat),
                decreases w - x,
            {
                seepage_cell(world, x, y, z);
                x += 1;
            }
            y += 1;
        }
        z += 1;
    }
}

/// One tick of groundwater: surface water soaks into the soil below it, soil moisture
/// sinks through permeable soil, spreads sideways toward drier soil, and soil more
/// than half full seeps out into adjacent open cells as springs.
pub fn pass_groundwater(world: &mut World)
    requires
        old(world).wf(),
    ensures
        final(world).wf(),
        final(world)@.sources == old(world)@.sources,
        final(world)@.width == old(world)@.width,
        final(world)@.depth == old(world)@.depth,
        final(world)@.height == old(world)@.height,
        final(world)@ == groundwater_pass(old(world)@),
{
    absorb_phase(world);
    seep_down_phase(world);
    equalize_phase(world);
    seepage_phase(world);
    world.apply_moisture_deltas();
}

/// The water of a world that lies on the surface or in the soil.
pub open spec fn surface_and_soil_water(v: WorldView) -> int {
    sum_u8(v.water_mass) + sum_u8(v.soil_moisture)
}

/// Absorption moves surface water into the soil and nowhere else: the total water mass
/// plus the total soil moisture is the same before and after the absorption phase of
/// the groundwater pass.
pub proof fn lemma_absorption_conserves_water(v: WorldView)
    requires
        v.wf(),
    ensures
        surface_and_soil_water(sweep_up(v, absorb_fn(), v.width, v.depth, 1, (if v.height >= 1 {
            v.height - 1
        } else {
            0
        }) as nat)) == surface_and_soil_water(v),
{
    let c = surface_and_soil_water(v);
    let upper = (if v.height >= 1 {
        v.height - 1
    } else {
        0
    }) as nat;
    let p = |s: WorldView|
        s.wf() && s.width == v.width && s.depth == v.depth && s.height == v.height
            && surface_and_soil_water(s) == c;
    assert forall|t: WorldView, x: int, y: int, z: int|
        0 <= x < v.width && 0 <= y < v.depth && 1 <= z < 1 + upper && p(t) implies p(
        #[trigger] absorb_fn()(t, x, y, z),
    ) by {
        let t2 = absorb_step(t, x, y, z);
        assert(absorb_fn()(t, x, y, z) == t2);
        lemma_in_bounds_addressable(t, x, y, z);
        lemma_in_bounds_addressable(t, x, y, z - 1);
        let idx = t.idx(x, y, z);
        let below = t.idx(x, y, z - 1);
        let water = t.water_mass[idx];
        let bt = t.tile(x, y, z - 1);
        let cap = capacity_of(bt);
        let current = t.soil_moisture[below];
        let room = if cap > current {
            cap - current
        } else {
            0
        };
        let transfer = min_int(min_int(absorb_rate_of(bt) as int, room), water as int);
        if t2 != t {
            lemma_sum_u8_update(t.water_mass, idx, (water - transfer) as u8);
            lemma_sum_u8_update(t.soil_moisture, below, (current + transfer) as u8);
        }
    }
    lemma_up_keeps(v, absorb_fn(), p, v.width, v.depth, 1, upper);
}

/// Every cell of `s` holds at most the soil moisture its tile can.
pub open spec fn within_capacity(s: WorldView) -> bool {
    forall|i: int| 0 <= i < s.size() ==> #[trigger] s.soil_moisture[i] <= capacity_of(s.tiles[i])
}

/// `s` is a well-formed world of the layout of `a`, with its tiles, its soil moisture,
/// its sediment and its sources.
pub open spec fn same_ground(a: WorldView, s: WorldView) -> bool {
    &&& s.wf()
    &&& s.width == a.width && s.depth == a.depth && s.height == a.height
    &&& s.tiles == a.tiles
    &&& s.soil_moisture == a.soil_moisture
    &&& s.water_sediment == a.water_sediment
    &&& s.sources == a.sources
}

proof fn lemma_share_out_ground(
    v: WorldView,
    base: WorldView,
    idx: int,
    x: int,
    y: int,
    z: int,
    moisture: u8,
    budget: int,
    total: int,
    n: nat,
)
    requires
        v.wf(),
        base.width == v.width && base.depth == v.depth && base.height == v.height,
        base.wf(),
        0 <= idx < v.size(),
        0 <= z < v.height,
    ensures
        same_ground(v, share_out(v, base, idx, x, y, z, moisture, budget, total, n)),
    decreases n,
{
    if n > 0 {
        lemma_share_out_ground(v, base, idx, x, y, z, moisture, budget, total, (n - 1) as nat);
        let (nx, ny) = offset(x, y, n - 1);
        if 0 <= nx < v.width && 0 <= ny < v.depth {
            lemma_in_bounds_addressable(base, nx, ny, z);
        }
    }
}

proof fn lemma_underground_steps_keep_ground(a: WorldView, t: WorldView, x: int, y: int, z: int)
    requires
        same_ground(a, t),
        t.in_bounds(x, y, z),
    ensures
        z >= 1 ==> same_ground(a, seep_down_step(t, x, y, z)),
        same_ground(a, equalize_step(t, x, y, z)),
        same_ground(a, seepage_step(t, x, y, z)),
{
    lemma_in_bounds_addressable(t, x, y, z);
    if z >= 1 {
        lemma_in_bounds_addressable(t, x, y, z - 1);
    }
    if z + 1 < t.height {
        lemma_in_bounds_addressable(t, x, y, z + 1);
    }
    let idx = t.idx(x, y, z);
    let moisture = expected_moisture(t, idx);
    lemma_share_out_ground(t, t, idx, x, y, z, moisture, (moisture / 8) as int, total_diff(t, x, y, z, moisture), 4);
    if x >= 1 {
        lemma_in_bounds_addressable(t, x - 1, y, z);
    }
    if x + 1 < t.width {
        lemma_in_bounds_addressable(t, x + 1, y, z);
    }
    if y >= 1 {
        lemma_in_bounds_addressable(t, x, y - 1, z);
    }
    if y + 1 < t.depth {
        lemma_in_bounds_addressable(t, x, y + 1, z);
    }
}

/// Soil never holds more than its tile can, and groundwater moves only water: if every
/// cell's soil moisture is at most its tile's capacity before the groundwater pass,
/// the same holds after it (so a cell whose tile holds no moisture keeps none); the
/// tiles, the sediment and the sources are unchanged, and no moisture move is left
/// pending.
pub proof fn lemma_groundwater_respects_capacity(v: WorldView)
    requires
        v.wf(),
        within_capacity(v),
    ensures
        groundwater_pass(v).tiles == v.tiles,
        groundwater_pass(v).water_sediment == v.water_sediment,
        groundwater_pass(v).sources == v.sources,
        within_capacity(groundwater_pass(v)),
        forall|i: int| 0 <= i < v.size() ==> #[trigger] groundwater_pass(v).moisture_delta[i] == 0,
        forall|i: int| 0 <= i < v.size() && capacity_of(v.tiles[i]) == 0 ==> #[trigger] groundwater_pass(v).soil_moisture[i] == 0,
{
    let upper = (if v.height >= 1 {
        v.height - 1
    } else {
        0
    }) as nat;
    // absorption keeps the moisture within capacity
    let pa = |s: WorldView|
        s.wf() && s.width == v.width && s.depth == v.depth && s.height == v.height && s.tiles == v.tiles
            && s.water_sediment == v.water_sediment && s.sources == v.sources && within_capacity(s);
    assert forall|t: WorldView, x: int, y: int, z: int|
        0 <= x < v.width && 0 <= y < v.depth && 1 <= z < 1 + upper && pa(t) implies pa(
        #[trigger] absorb_fn()(t, x, y, z),
    ) by {
        let t2 = absorb_step(t, x, y, z);
        assert(absorb_fn()(t, x, y, z) == t2);
        lemma_in_bounds_addressable(t, x, y, z);
        lemma_in_bounds_addressable(t, x, y, z - 1);
        assert forall|i: int| 0 <= i < t2.size() implies #[trigger] t2.soil_moisture[i] <= capacity_of(t2.tiles[i]) by {
            assert(t.soil_moisture[i] <= capacity_of(t.tiles[i]));
        }
    }
    lemma_up_keeps(v, absorb_fn(), pa, v.width, v.depth, 1, upper);
    let a = sweep_up(v, absorb_fn(), v.width, v.depth, 1, upper);
    // the other phases change only pending deltas and surface water
    let pg = |s: WorldView| same_ground(a, s);
    assert forall|t: WorldView, x: int, y: int, z: int|
        0 <= x < v.width && 0 <= y < v.depth && v.height - upper <= z < v.height && pg(t) implies pg(
        #[trigger] seep_down_fn()(t, x, y, z),
    ) by {
        lemma_underground_steps_keep_ground(a, t, x, y, z);
    }
    lemma_down_keeps(a, seep_down_fn(), pg, v.width, v.depth, v.height as int, upper);
    let b = sweep_down(a, seep_down_fn(), v.width, v.depth, v.height as int, upper);
    assert forall|t: WorldView, x: int, y: int, z: int|
        0 <= x < v.width && 0 <= y < v.depth && 0 <= z < 0 + v.height && pg(t) implies pg(
        #[trigger] equalize_fn()(t, x, y, z),
    ) by {
        lemma_underground_steps_keep_ground(a, t, x, y, z);
    }
    lemma_up_keeps(b, equalize_fn(), pg, v.width, v.depth, 0, v.height);
    let c = sweep_up(b, equalize_fn(), v.width, v.depth, 0, v.height);
    assert forall|t: WorldView, x: int, y: int, z: int|
        0 <= x < v.width && 0 <= y < v.depth && 0 <= z < 0 + v.height && pg(t) implies pg(
        #[trigger] seepage_fn()(t, x, y, z),
    ) by {
        lemma_underground_steps_keep_ground(a, t, x, y, z);
    }
    lemma_up_keeps(c, seepage_fn(), pg, v.width, v.depth, 0, v.height);
    let d = sweep_up(c, seepage_fn(), v.width, v.depth, 0, v.height);
    let r = groundwater_pass(v);
    assert forall|i: int| 0 <= i < r.size() implies #[trigger] r.soil_moisture[i] <= capacity_of(r.tiles[i]) by {
        assert(a.soil_moisture[i] <= capacity_of(a.tiles[i]));
    }
    assert forall|i: int| 0 <= i < v.size() && capacity_of(v.tiles[i]) == 0 implies #[trigger] r.soil_moisture[i] == 0 by {
        assert(r.soil_moisture[i] <= capacity_of(r.tiles[i]));
    }
}

/// The water of a world on the surface and in the soil, counting the moisture moves
/// recorded but not yet applied.
pub open spec fn ground_total(v: WorldView) -> int {
    sum_u8(v.water_mass) + sum_u8(v.soil_moisture) + sum_i16(v.moisture_delta)
}

/// Every pending moisture delta lies within -b..=b.
pub open spec fn moisture_deltas_within(v: WorldView, b: int) -> bool {
    forall|i: int| 0 <= i < v.moisture_delta.len() ==> -b <= #[trigger] v.moisture_delta[i] <= b
}

/// Underground gravity moves moisture between pending deltas and creates or loses none,
/// when every pending moisture delta lies within -32000..=32000.
pub proof fn lemma_seep_down_conserves(v: WorldView, x: int, y: int, z: int)
    requires
        v.wf(),
        v.in_bounds(x, y, z),
        z >= 1,
        moisture_deltas_within(v, 32000),
    ensures
        ground_total(seep_down_step(v, x, y, z)) == ground_total(v),
{
    lemma_in_bounds_addressable(v, x, y, z);
    lemma_in_bounds_addressable(v, x, y, z - 1);
    let idx = v.idx(x, y, z);
    let below = v.idx(x, y, z - 1);
    if idx == below {
        crate::world::lemma_idx_injective(v, x, y, z, x, y, z - 1);
    }
    let r = seep_down_step(v, x, y, z);
    if r != v {
        let t = v.tiles[idx];
        let bt = v.tiles[below];
        let moisture = v.soil_moisture[idx];
        let below_cap = capacity_of(bt);
        let below_current = expected_moisture(v, below);
        let below_room = if below_cap > below_current {
            below_cap - below_current
        } else {
            0
        };
        let perm = min_int(permeability_of(t) as int, permeability_of(bt) as int);
        let transfer = min_int(min_int(perm, below_room), moisture as int);
        let tr = transfer as i16;
        assert(-32000 <= v.moisture_delta[idx] <= 32000);
        assert(-32000 <= v.moisture_delta[below] <= 32000);
        let md1 = v.moisture_delta.update(idx, wsub16(v.moisture_delta[idx], tr));
        assert(wsub16(v.moisture_delta[idx], tr) == v.moisture_delta[idx] - tr);
        assert(md1[below] == v.moisture_delta[below]);
        assert(wadd16(md1[below], tr) == v.moisture_delta[below] + tr);
        lemma_sum_i16_update(v.moisture_delta, idx, wsub16(v.moisture_delta[idx], tr));
        lemma_sum_i16_update(md1, below, wadd16(md1[below], tr));
    }
}

proof fn lemma_share_out_conserves(
    v: WorldView,
    base: WorldView,
    idx: int,
    x: int,
    y: int,
    z: int,
    moisture: u8,
    budget: int,
    total: int,
    n: nat,
)
    requires
        v.wf(),
        base.wf(),
        base.width == v.width && base.depth == v.depth && base.height == v.height,
        0 <= idx < v.size(),
        idx == v.idx(x, y, z),
        v.in_bounds(x, y, z),
        0 <= budget <= 31,
        total > 0,
        n <= 4,
        forall|k: int| 0 <= k < 4 ==> 0 <= (#[trigger] diff_toward(base, x, y, z, moisture, k)).1 <= total,
        moisture_deltas_within(v, 32000),
    ensures
        ground_total(share_out(v, base, idx, x, y, z, moisture, budget, total, n)) == ground_total(v),
        moisture_deltas_within(share_out(v, base, idx, x, y, z, moisture, budget, total, n), 32000 + 31 * n as int),
        share_out(v, base, idx, x, y, z, moisture, budget, total, n).soil_moisture == v.soil_moisture,
        share_out(v, base, idx, x, y, z, moisture, budget, total, n).water_mass == v.water_mass,
        share_out(v, base, idx, x, y, z, moisture, budget, total, n).moisture_delta.len() == v.moisture_delta.len(),
    decreases n,
{
    if n > 0 {
        lemma_share_out_conserves(v, base, idx, x, y, z, moisture, budget, total, (n - 1) as nat);
        let prev = share_out(v, base, idx, x, y, z, moisture, budget, total, (n - 1) as nat);
        let (n_idx, diff) = diff_toward(base, x, y, z, moisture, n - 1);
        let transfer = (budget * diff / total) as i16;
        assert(0 <= budget * diff / total <= budget) by (nonlinear_arith)
            requires
                0 <= budget,
                0 <= diff <= total,
                total > 0,
        ;
        if !(diff == 0 || transfer == 0) {
            let (nx, ny) = offset(x, y, n - 1);
            lemma_in_bounds_addressable(base, nx, ny, z);
            if n_idx == idx {
                crate::world::lemma_idx_injective(base, nx, ny, z, x, y, z);
            }
            assert(-(32000 + 31 * (n - 1)) <= prev.moisture_delta[idx] <= 32000 + 31 * (n - 1));
            assert(-(32000 + 31 * (n - 1)) <= prev.moisture_delta[n_idx] <= 32000 + 31 * (n - 1));
            let p1 = prev.set_moisture_delta_at(idx, wsub16(prev.moisture_delta[idx], transfer));
            assert(wsub16(prev.moisture_delta[idx], transfer) == prev.moisture_delta[idx] - transfer);
            assert(p1.moisture_delta[n_idx] == prev.moisture_delta[n_idx]);
            assert(wadd16(p1.moisture_delta[n_idx], transfer) == prev.moisture_delta[n_idx] + transfer);
            lemma_sum_i16_update(prev.moisture_delta, idx, wsub16(prev.moisture_delta[idx], transfer));
            lemma_sum_i16_update(p1.moisture_delta, n_idx, wadd16(p1.moisture_delta[n_idx], transfer));
            let r = p1.set_moisture_delta_at(n_idx, wadd16(p1.moisture_delta[n_idx], transfer));
            assert forall|i: int| 0 <= i < r.moisture_delta.len() implies -(32000 + 31 * n) <= #[trigger] r.moisture_delta[i]
                <= 32000 + 31 * n by {
                assert(-(32000 + 31 * (n - 1)) <= prev.moisture_delta[i] <= 32000 + 31 * (n - 1));
            }
        } else {
            assert forall|i: int| 0 <= i < prev.moisture_delta.len() implies -(32000 + 31 * n) <= #[trigger] prev.moisture_delta[i]
                <= 32000 + 31 * n by {
                assert(-(32000 + 31 * (n - 1)) <= prev.moisture_delta[i] <= 32000 + 31 * (n - 1));
            }
        }
    }
}

/// Horizontal equalization moves moisture between pending deltas and creates or loses
/// none, when every pending moisture delta lies within -32000..=32000.
pub proof fn lemma_equalize_conserves(v: WorldView, x: int, y: int, z: int)
    requires
        v.wf(),
        v.in_bounds(x, y, z),
        moisture_deltas_within(v, 32000),
    ensures
        ground_total(equalize_step(v, x, y, z)) == ground_total(v),
{
    lemma_in_bounds_addressable(v, x, y, z);
    let idx = v.idx(x, y, z);
    let moisture = expected_moisture(v, idx);
    let budget = moisture / 8;
    let total = total_diff(v, x, y, z, moisture);
    if !(capacity_of(v.tile(x, y, z)) == 0 || moisture == 0 || budget == 0 || total == 0) {
        assert forall|k: int| 0 <= k < 4 implies 0 <= (#[trigger] diff_toward(v, x, y, z, moisture, k)).1 <= total by {
            assert(diff_toward(v, x, y, z, moisture, 0).1 >= 0);
            assert(diff_toward(v, x, y, z, moisture, 1).1 >= 0);
            assert(diff_toward(v, x, y, z, moisture, 2).1 >= 0);
            assert(diff_toward(v, x, y, z, moisture, 3).1 >= 0);
        }
        lemma_share_out_conserves(v, v, idx, x, y, z, moisture, budget as int, total, 4);
    }
}

/// Seepage turns pending soil moisture into surface water and creates or loses none,
/// when every pending moisture delta lies within -32000..=32000.
pub proof fn lemma_seepage_conserves(v: WorldView, x: int, y: int, z: int)
    requires
        v.wf(),
        v.in_bounds(x, y, z),
        moisture_deltas_within(v, 32000),
    ensures
        ground_total(seepage_step(v, x, y, z)) == ground_total(v),
{
    lemma_in_bounds_addressable(v, x, y, z);
    let idx = v.idx(x, y, z);
    let r = seepage_step(v, x, y, z);
    if r != v {
        let cap = capacity_of(v.tile(x, y, z));
        let moisture = expected_moisture(v, idx);
        let threshold = cap / 2;
        let target = seep_target(v, x, y, z).unwrap();
        if x >= 1 {
            lemma_in_bounds_addressable(v, x - 1, y, z);
        }
        if x + 1 < v.width {
            lemma_in_bounds_addressable(v, x + 1, y, z);
        }
        if y >= 1 {
            lemma_in_bounds_addressable(v, x, y - 1, z);
        }
        if y + 1 < v.depth {
            lemma_in_bounds_addressable(v, x, y + 1, z);
        }
        if z + 1 < v.height {
            lemma_in_bounds_addressable(v, x, y, z + 1);
        }
        assert(0 <= target < v.size());
        let available = moisture - threshold;
        let room = 255 - v.water_mass[target];
        let seep = min_int(min_int(available, 2), room);
        assert(-32000 <= v.moisture_delta[idx] <= 32000);
        assert(wsub16(v.moisture_delta[idx], seep as i16) == v.moisture_delta[idx] - seep);
        lemma_sum_i16_update(v.moisture_delta, idx, wsub16(v.moisture_delta[idx], seep as i16));
        lemma_sum_u8_update(v.water_mass, target, (v.water_mass[target] + seep) as u8);
    }
}

proof fn lemma_applied_moisture_prefix(m: Seq<u8>, dl: Seq<i16>, caps: Seq<u8>, n: nat)
    requires
        n <= m.len(),
        dl.len() == m.len(),
        caps.len() == m.len(),
        forall|i: int| 0 <= i < m.len() ==> -32000 <= #[trigger] dl[i] <= 32000,
        forall|i: int| 0 <= i < m.len() ==> 0 <= m[i] + #[trigger] dl[i] <= caps[i],
    ensures
        sum_u8(Seq::new(n, |i: int| applied_moisture(m[i], dl[i], caps[i]))) == sum_u8(m.take(n as int)) + sum_i16(
            dl.take(n as int),
        ),
    decreases n,
{
    if n == 0 {
        assert(Seq::new(0, |i: int| applied_moisture(m[i], dl[i], caps[i])) =~= Seq::<u8>::empty());
        assert(m.take(0) =~= Seq::<u8>::empty());
        assert(dl.take(0) =~= Seq::<i16>::empty());
    } else {
        lemma_applied_moisture_prefix(m, dl, caps, (n - 1) as nat);
        let k = n - 1;
        let f = Seq::new(n, |i: int| applied_moisture(m[i], dl[i], caps[i]));
        assert(f.drop_last() =~= Seq::new((n - 1) as nat, |i: int| applied_moisture(m[i], dl[i], caps[i])));
        assert(m.take(n as int).drop_last() =~= m.take(k));
        assert(dl.take(n as int).drop_last() =~= dl.take(k));
        assert(-32000 <= dl[k] <= 32000);
        assert(0 <= m[k] + dl[k] <= caps[k]);
        assert(wadd16(m[k] as i16, dl[k]) == m[k] + dl[k]);
    }
}

/// Applying the pending moisture deltas turns them into soil moisture without loss, when
/// every cell's expected moisture lies within 0 and its tile's capacity and every delta
/// within -32000..=32000: the total water afterwards is the pending total before.
pub proof fn lemma_apply_moisture_conserves(v: WorldView)
    requires
        v.wf(),
        moisture_deltas_within(v, 32000),
        forall|i: int| 0 <= i < v.size() ==> 0 <= v.soil_moisture[i] + #[trigger] v.moisture_delta[i] <= capacity_of(v.tiles[i]),
    ensures
        sum_u8(v.water_mass) + sum_u8(
            Seq::new(v.size(), |i: int| applied_moisture(v.soil_moisture[i], v.moisture_delta[i], capacity_of(v.tiles[i]))),
        ) == ground_total(v),
{
    let caps = Seq::new(v.size(), |i: int| capacity_of(v.tiles[i]));
    lemma_applied_moisture_prefix(v.soil_moisture, v.moisture_delta, caps, v.size());
    assert(Seq::new(v.size(), |i: int| applied_moisture(v.soil_moisture[i], v.moisture_delta[i], caps[i])) =~= Seq::new(
        v.size(),
        |i: int| applied_moisture(v.soil_moisture[i], v.moisture_delta[i], capacity_of(v.tiles[i])),
    ));
    assert(v.soil_moisture.take(v.size() as int) =~= v.soil_moisture);
    assert(v.moisture_delta.take(v.size() as int) =~= v.moisture_delta);
}

// ---------------------------------------------------------------------------
// The water balance of the pass: nothing is created
// ---------------------------------------------------------------------------

/// Every cell of `t` expects (its moisture plus its pending delta) at least 0.
pub open spec fn moisture_nonneg(t: WorldView) -> bool {
    forall|i: int| 0 <= i < t.size() ==> 0 <= t.soil_moisture[i] + #[trigger] t.moisture_delta[i]
}

/// Where underground gravity stands after `k` cells of its top-down sweep of `a` (a
/// world with no pending moisture deltas): the ground and the surface water are those of
/// `a`, the total is kept, every cell expects between 0 and its capacity, and a cell's
/// delta has moved down only if it was visited and up only if the cell above it was.
pub open spec fn seep_progress(a: WorldView, t: WorldView, k: int) -> bool {
    &&& same_ground(a, t)
    &&& t.water_mass == a.water_mass
    &&& ground_total(t) == ground_total(a)
    &&& forall|i: int|
        0 <= i < a.size() ==> 0 <= t.soil_moisture[i] + #[trigger] t.moisture_delta[i] <= capacity_of(t.tiles[i])
    &&& forall|x: int, y: int, z: int|
        #![trigger t.moisture_delta[a.idx(x, y, z)]]
        a.in_bounds(x, y, z) ==> {
            let dl = t.moisture_delta[a.idx(x, y, z)];
            &&& (if z >= 1 && down_pos(a, x, y, z) < k {
                -255int
            } else {
                0int
            }) <= dl
            &&& dl <= (if z + 1 < a.height && down_pos(a, x, y, z + 1) < k {
                255int
            } else {
                0int
            })
        }
}

proof fn lemma_seep_progress_deltas(a: WorldView, t: WorldView, k: int)
    requires
        a.wf(),
        seep_progress(a, t, k),
    ensures
        moisture_deltas_within(t, 255),
{
    assert forall|i: int| 0 <= i < t.moisture_delta.len() implies -255 <= #[trigger] t.moisture_delta[i] <= 255 by {
        assert(0 <= t.soil_moisture[i] + t.moisture_delta[i] <= capacity_of(t.tiles[i]));
    }
}

proof fn lemma_seep_progress_step(a: WorldView, t: WorldView, x: int, y: int, z: int)
    requires
        a.wf(),
        moisture_deltas_within(a, 0),
        a.in_bounds(x, y, z),
        z >= 1,
        seep_progress(a, t, down_pos(a, x, y, z)),
    ensures
        seep_progress(a, seep_down_step(t, x, y, z), down_pos(a, x, y, z) + 1),
{
    let k = down_pos(a, x, y, z);
    let r = seep_down_step(t, x, y, z);
    lemma_in_bounds_addressable(a, x, y, z);
    lemma_in_bounds_addressable(a, x, y, z - 1);
    let idx = a.idx(x, y, z);
    let below = a.idx(x, y, z - 1);
    let wd = a.width * a.depth;
    assert(wd > 0) by (nonlinear_arith)
        requires
            0 <= x < a.width,
            0 <= y < a.depth,
            wd == a.width * a.depth,
    ;
    assert(down_pos(a, x, y, z - 1) == k + wd) by (nonlinear_arith)
        requires
            k == (a.height - 1 - z) * (a.width * a.depth) + y * a.width + x,
            down_pos(a, x, y, z - 1) == (a.height - 1 - (z - 1)) * (a.width * a.depth) + y * a.width + x,
            wd == a.width * a.depth,
    ;
    lemma_seep_progress_deltas(a, t, k);
    lemma_underground_steps_keep_ground(a, t, x, y, z);
    lemma_seep_down_conserves(t, x, y, z);
    if idx == below {
        crate::world::lemma_idx_injective(a, x, y, z, x, y, z - 1);
    }
    if r == t {
        assert forall|a1: int, b1: int, c1: int|
            #![trigger r.moisture_delta[a.idx(a1, b1, c1)]]
            a.in_bounds(a1, b1, c1) implies {
            let dl = r.moisture_delta[a.idx(a1, b1, c1)];
            &&& (if c1 >= 1 && down_pos(a, a1, b1, c1) < k + 1 {
                -255int
            } else {
                0int
            }) <= dl
            &&& dl <= (if c1 + 1 < a.height && down_pos(a, a1, b1, c1 + 1) < k + 1 {
                255int
            } else {
                0int
            })
        } by {
            assert(t.moisture_delta[a.idx(a1, b1, c1)] == r.moisture_delta[a.idx(a1, b1, c1)]);
        }
    } else {
        let moisture = t.soil_moisture[idx];
        let bt = t.tiles[below];
        let below_cap = capacity_of(bt);
        let below_current = expected_moisture(t, below);
        let below_room = if below_cap > below_current {
            below_cap - below_current
        } else {
            0
        };
        let perm = min_int(permeability_of(t.tiles[idx]) as int, permeability_of(bt) as int);
        let transfer = min_int(min_int(perm, below_room), moisture as int);
        let tr = transfer as i16;
        // the giver had only received, and the receiver had not changed yet
        assert(t.moisture_delta[a.idx(x, y, z)] >= 0);
        assert(t.moisture_delta[a.idx(x, y, z - 1)] == 0);
        assert(0 <= t.soil_moisture[below] + t.moisture_delta[below] <= capacity_of(t.tiles[below]));
        assert(below_current == t.soil_moisture[below]);
        let md1 = t.moisture_delta.update(idx, wsub16(t.moisture_delta[idx], tr));
        assert(r.moisture_delta == md1.update(below, wadd16(md1[below], tr)));
        assert(r.moisture_delta[idx] == t.moisture_delta[idx] - transfer);
        assert(r.moisture_delta[below] == transfer);
        assert forall|i: int| 0 <= i < a.size() implies 0 <= r.soil_moisture[i] + #[trigger] r.moisture_delta[i]
            <= capacity_of(r.tiles[i]) by {
            assert(0 <= t.soil_moisture[i] + t.moisture_delta[i] <= capacity_of(t.tiles[i]));
        }
        assert forall|a1: int, b1: int, c1: int|
            #![trigger r.moisture_delta[a.idx(a1, b1, c1)]]
            a.in_bounds(a1, b1, c1) implies {
            let dl = r.moisture_delta[a.idx(a1, b1, c1)];
            &&& (if c1 >= 1 && down_pos(a, a1, b1, c1) < k + 1 {
                -255int
            } else {
                0int
            }) <= dl
            &&& dl <= (if c1 + 1 < a.height && down_pos(a, a1, b1, c1 + 1) < k + 1 {
                255int
            } else {
                0int
            })
        } by {
            lemma_in_bounds_addressable(a, a1, b1, c1);
            let i = a.idx(a1, b1, c1);
            if i == idx {
                crate::world::lemma_idx_injective(a, a1, b1, c1, x, y, z);
            } else if i == below {
                crate::world::lemma_idx_injective(a, a1, b1, c1, x, y, z - 1);
            } else {
                assert(r.moisture_delta[i] == t.moisture_delta[i]);
                assert(t.moisture_delta[a.idx(a1, b1, c1)] == t.moisture_delta[i]);
            }
        }
    }
}

/// Underground gravity, from a world within capacity with no pending moisture deltas,
/// leaves every cell expecting between 0 and its capacity and keeps the total.
proof fn lemma_seep_phase(a: WorldView, n: nat)
    requires
        a.wf(),
        moisture_deltas_within(a, 0),
        within_capacity(a),
        n == (if a.height >= 1 {
            a.height - 1
        } else {
            0
        }),
    ensures
        ({
            let b = sweep_down(a, seep_down_fn(), a.width, a.depth, a.height as int, n);
            &&& same_ground(a, b)
            &&& b.water_mass == a.water_mass
            &&& ground_total(b) == ground_total(a)
            &&& forall|i: int|
                0 <= i < a.size() ==> 0 <= b.soil_moisture[i] + #[trigger] b.moisture_delta[i] <= capacity_of(b.tiles[i])
        }),
{
    let p = |t: WorldView, k: int| seep_progress(a, t, k);
    assert(p(a, 0)) by {
        assert forall|i: int| 0 <= i < a.size() implies 0 <= a.soil_moisture[i] + #[trigger] a.moisture_delta[i]
            <= capacity_of(a.tiles[i]) by {
            assert(a.soil_moisture[i] <= capacity_of(a.tiles[i]));
            assert(a.moisture_delta[i] == 0);
        }
        assert forall|x: int, y: int, z: int|
            #![trigger a.moisture_delta[a.idx(x, y, z)]]
            a.in_bounds(x, y, z) implies a.moisture_delta[a.idx(x, y, z)] == 0 by {
            lemma_in_bounds_addressable(a, x, y, z);
        }
    }
    assert forall|t: WorldView, x: int, y: int, z: int|
        0 <= x < a.width && 0 <= y < a.depth && a.height - n <= z < a.height && p(
            t,
            (a.height - 1 - z) * (a.width * a.depth) + y * a.width + x,
        ) implies p(
        #[trigger] seep_down_fn()(t, x, y, z),
        (a.height - 1 - z) * (a.width * a.depth) + y * a.width + x + 1,
    ) by {
        lemma_seep_progress_step(a, t, x, y, z);
    }
    lemma_down_prog(a, seep_down_fn(), p, a.width, a.depth, a.height as int, n);
}

/// What the first `n` neighbors get from a share-out: each its share
/// `budget * diff / total` of the budget (rounded down).
pub open spec fn share_given(base: WorldView, x: int, y: int, z: int, moisture: u8, budget: int, total: int, n: nat) -> int
    decreases n,
{
    if n == 0 {
        0
    } else {
        let diff = diff_toward(base, x, y, z, moisture, n - 1).1;
        share_given(base, x, y, z, moisture, budget, total, (n - 1) as nat) + (if diff == 0 {
            0
        } else {
            budget * diff / total
        })
    }
}

/// What a share-out from cell `idx` does to the pending deltas: the giver loses what
/// the neighbors get, each neighbor gets at most 31 per share, and only side neighbors
/// get any.
proof fn lemma_share_out_effect(
    v: WorldView,
    base: WorldView,
    idx: int,
    x: int,
    y: int,
    z: int,
    moisture: u8,
    budget: int,
    total: int,
    n: nat,
)
    requires
        v.wf(),
        base.wf(),
        base.width == v.width && base.depth == v.depth && base.height == v.height,
        0 <= idx < v.size(),
        idx == v.idx(x, y, z),
        v.in_bounds(x, y, z),
        0 <= budget <= 31,
        total > 0,
        n <= 4,
        forall|k: int| 0 <= k < 4 ==> 0 <= (#[trigger] diff_toward(base, x, y, z, moisture, k)).1 <= total,
        moisture_deltas_within(v, 2000),
    ensures
        ({
            let r = share_out(v, base, idx, x, y, z, moisture, budget, total, n);
            &&& r.moisture_delta.len() == v.moisture_delta.len()
            &&& r.moisture_delta[idx] == v.moisture_delta[idx] - share_given(base, x, y, z, moisture, budget, total, n)
            &&& 0 <= share_given(base, x, y, z, moisture, budget, total, n) <= 31 * n
            &&& forall|i: int|
                0 <= i < v.size() && i != idx ==> v.moisture_delta[i] <= #[trigger] r.moisture_delta[i]
                    <= v.moisture_delta[i] + 31 * n
            &&& forall|i: int|
                0 <= i < v.size() && i != idx && #[trigger] r.moisture_delta[i] != v.moisture_delta[i] ==> exists|j: int|
                    0 <= j < 4 && #[trigger] side_index(base, x, y, z, j) == Some(i)
        }),
    decreases n,
{
    if n > 0 {
        lemma_share_out_effect(v, base, idx, x, y, z, moisture, budget, total, (n - 1) as nat);
        let prev = share_out(v, base, idx, x, y, z, moisture, budget, total, (n - 1) as nat);
        let (n_idx, diff) = diff_toward(base, x, y, z, moisture, n - 1);
        let q = budget * diff / total;
        assert(0 <= budget * diff / total <= budget) by (nonlinear_arith)
            requires
                0 <= budget,
                0 <= diff <= total,
                total > 0,
        ;
        let transfer = q as i16;
        let r = share_out(v, base, idx, x, y, z, moisture, budget, total, n);
        if !(diff == 0 || transfer == 0) {
            let (nx, ny) = offset(x, y, n - 1);
            lemma_in_bounds_addressable(base, nx, ny, z);
            if n_idx == idx {
                crate::world::lemma_idx_injective(base, nx, ny, z, x, y, z);
            }
            assert(side_index(base, x, y, z, n - 1) == Some(n_idx));
            assert(-(2000 + 31 * (n - 1)) <= prev.moisture_delta[idx] <= 2000 + 31 * (n - 1));
            assert(-(2000 + 31 * (n - 1)) <= prev.moisture_delta[n_idx] <= 2000 + 31 * (n - 1)) by {
                assert(v.moisture_delta[n_idx] <= prev.moisture_delta[n_idx] <= v.moisture_delta[n_idx] + 31 * (n - 1));
                assert(-2000 <= v.moisture_delta[n_idx] <= 2000);
            }
            let p1 = prev.set_moisture_delta_at(idx, wsub16(prev.moisture_delta[idx], transfer));
            assert(wsub16(prev.moisture_delta[idx], transfer) == prev.moisture_delta[idx] - transfer);
            assert(p1.moisture_delta[n_idx] == prev.moisture_delta[n_idx]);
            assert(wadd16(p1.moisture_delta[n_idx], transfer) == prev.moisture_delta[n_idx] + transfer);
            assert forall|i: int|
                0 <= i < v.size() && i != idx && #[trigger] r.moisture_delta[i] != v.moisture_delta[i] implies exists|j: int|
                    0 <= j < 4 && #[trigger] side_index(base, x, y, z, j) == Some(i) by {
                if i != n_idx {
                    assert(r.moisture_delta[i] == prev.moisture_delta[i]);
                }
            }
            assert forall|i: int| 0 <= i < v.size() && i != idx implies v.moisture_delta[i] <= #[trigger] r.moisture_delta[i]
                <= v.moisture_delta[i] + 31 * n by {
                assert(v.moisture_delta[i] <= prev.moisture_delta[i] <= v.moisture_delta[i] + 31 * (n - 1));
            }
        } else {
            assert(q == 0 || diff == 0);
            assert forall|i: int| 0 <= i < v.size() && i != idx implies v.moisture_delta[i] <= #[trigger] r.moisture_delta[i]
                <= v.moisture_delta[i] + 31 * n by {
                assert(v.moisture_delta[i] <= prev.moisture_delta[i] <= v.moisture_delta[i] + 31 * (n - 1));
            }
        }
    }
}

/// The shares add up to at most the budget.
proof fn lemma_share_given_le_budget(base: WorldView, x: int, y: int, z: int, moisture: u8, budget: int)
    requires
        0 <= budget,
        total_diff(base, x, y, z, moisture) > 0,
        forall|k: int| 0 <= k < 4 ==> 0 <= (#[trigger] diff_toward(base, x, y, z, moisture, k)).1,
    ensures
        share_given(base, x, y, z, moisture, budget, total_diff(base, x, y, z, moisture), 4) <= budget,
{
    let t = total_diff(base, x, y, z, moisture);
    let d0 = diff_toward(base, x, y, z, moisture, 0).1 as int;
    let d1 = diff_toward(base, x, y, z, moisture, 1).1 as int;
    let d2 = diff_toward(base, x, y, z, moisture, 2).1 as int;
    let d3 = diff_toward(base, x, y, z, moisture, 3).1 as int;
    assert(d0 >= 0 && d1 >= 0 && d2 >= 0 && d3 >= 0);
    let q0 = budget * d0 / t;
    let q1 = budget * d1 / t;
    let q2 = budget * d2 / t;
    let q3 = budget * d3 / t;
    assert(t * q0 <= budget * d0 && t * q1 <= budget * d1 && t * q2 <= budget * d2 && t * q3 <= budget * d3) by {
        vstd::arithmetic::div_mod::lemma_fundamental_div_mod(budget * d0, t);
        vstd::arithmetic::div_mod::lemma_fundamental_div_mod(budget * d1, t);
        vstd::arithmetic::div_mod::lemma_fundamental_div_mod(budget * d2, t);
        vstd::arithmetic::div_mod::lemma_fundamental_div_mod(budget * d3, t);
        vstd::arithmetic::div_mod::lemma_mod_bound(budget * d0, t);
        vstd::arithmetic::div_mod::lemma_mod_bound(budget * d1, t);
        vstd::arithmetic::div_mod::lemma_mod_bound(budget * d2, t);
        vstd::arithmetic::div_mod::lemma_mod_bound(budget * d3, t);
    }
    assert(q0 + q1 + q2 + q3 <= budget) by (nonlinear_arith)
        requires
            t > 0,
            t == d0 + d1 + d2 + d3,
            t * q0 <= budget * d0,
            t * q1 <= budget * d1,
            t * q2 <= budget * d2,
            t * q3 <= budget * d3,
    ;
    assert(share_given(base, x, y, z, moisture, budget, t, 4) == q0 + q1 + q2 + q3) by {
        reveal_with_fuel(share_given, 5);
        assert(d0 == 0 ==> q0 == 0);
        assert(d1 == 0 ==> q1 == 0);
        assert(d2 == 0 ==> q2 == 0);
        assert(d3 == 0 ==> q3 == 0);
    }
}

/// Where horizontal equalization stands after the cells before index `k` of its sweep
/// of `b`: the ground and the surface water are those of `b`, the total is kept, no
/// cell expects less than 0, a visited cell has given at most 31, and a cell has
/// received at most 255 from each visited side neighbor.
pub open spec fn equalize_progress(b: WorldView, t: WorldView, k: int) -> bool {
    &&& same_ground(b, t)
    &&& t.water_mass == b.water_mass
    &&& ground_total(t) == ground_total(b)
    &&& moisture_nonneg(t)
    &&& forall|i: int| 0 <= i < b.size() ==> -31 <= #[trigger] t.moisture_delta[i] - b.moisture_delta[i] <= 1020
    &&& forall|x: int, y: int, z: int|
        #![trigger t.moisture_delta[b.idx(x, y, z)]]
        b.in_bounds(x, y, z) ==> {
            let dl = t.moisture_delta[b.idx(x, y, z)] - b.moisture_delta[b.idx(x, y, z)];
            &&& (if b.idx(x, y, z) < k {
                -31int
            } else {
                0int
            }) <= dl
            &&& dl <= seen(b, x, y, z, k)
        }
}

#[verifier::rlimit(40)]
proof fn lemma_equalize_progress_step(b: WorldView, t: WorldView, x: int, y: int, z: int)
    requires
        b.wf(),
        moisture_deltas_within(b, 255),
        b.in_bounds(x, y, z),
        equalize_progress(b, t, b.idx(x, y, z)),
    ensures
        equalize_progress(b, equalize_step(t, x, y, z), b.idx(x, y, z) + 1),
{
    let k = b.idx(x, y, z);
    let r = equalize_step(t, x, y, z);
    lemma_in_bounds_addressable(b, x, y, z);
    assert(moisture_deltas_within(t, 1306)) by {
        assert forall|i: int| 0 <= i < t.moisture_delta.len() implies -1306 <= #[trigger] t.moisture_delta[i] <= 1306 by {
            assert(-31 <= t.moisture_delta[i] - b.moisture_delta[i] <= 1020);
            assert(-255 <= b.moisture_delta[i] <= 255);
        }
    }
    lemma_underground_steps_keep_ground(b, t, x, y, z);
    lemma_equalize_conserves(t, x, y, z);
    if r == t {
        assert forall|a1: int, b1: int, c1: int|
            #![trigger r.moisture_delta[b.idx(a1, b1, c1)]]
            b.in_bounds(a1, b1, c1) implies {
            let dl = r.moisture_delta[b.idx(a1, b1, c1)] - b.moisture_delta[b.idx(a1, b1, c1)];
            &&& (if b.idx(a1, b1, c1) < k + 1 {
                -31int
            } else {
                0int
            }) <= dl
            &&& dl <= seen(b, a1, b1, c1, k + 1)
        } by {
            assert(t.moisture_delta[b.idx(a1, b1, c1)] == r.moisture_delta[b.idx(a1, b1, c1)]);
            lemma_seen_grows(b, a1, b1, c1, k);
        }
    } else {
        let idx = k;
        let e = t.soil_moisture[idx] + t.moisture_delta[idx];
        assert(e >= 0);
        let moisture = expected_moisture(t, idx);
        assert(wadd16(t.soil_moisture[idx] as i16, t.moisture_delta[idx]) == e);
        assert(e <= 255 ==> moisture == e);
        let budget = moisture / 8;
        let total = total_diff(t, x, y, z, moisture);
        assert forall|kk: int| 0 <= kk < 4 implies 0 <= (#[trigger] diff_toward(t, x, y, z, moisture, kk)).1 <= total by {
            assert(diff_toward(t, x, y, z, moisture, 0).1 >= 0);
            assert(diff_toward(t, x, y, z, moisture, 1).1 >= 0);
            assert(diff_toward(t, x, y, z, moisture, 2).1 >= 0);
            assert(diff_toward(t, x, y, z, moisture, 3).1 >= 0);
        }
        assert(r == share_out(t, t, idx, x, y, z, moisture, budget as int, total, 4));
        lemma_share_out_effect(t, t, idx, x, y, z, moisture, budget as int, total, 4);
        lemma_share_out_conserves(t, t, idx, x, y, z, moisture, budget as int, total, 4);
        lemma_share_given_le_budget(t, x, y, z, moisture, budget as int);
        let given = share_given(t, x, y, z, moisture, budget as int, total, 4);
        assert(r.moisture_delta[idx] == t.moisture_delta[idx] - given);
        assert(given <= budget);
        // the giver keeps at least 0
        assert(r.soil_moisture[idx] + r.moisture_delta[idx] >= 0);
        assert(t.moisture_delta[b.idx(x, y, z)] - b.moisture_delta[idx] >= 0);
        assert forall|i: int| 0 <= i < r.size() implies 0 <= r.soil_moisture[i] + #[trigger] r.moisture_delta[i] by {
            assert(0 <= t.soil_moisture[i] + t.moisture_delta[i]);
        }
        assert forall|a1: int, b1: int, c1: int|
            #![trigger r.moisture_delta[b.idx(a1, b1, c1)]]
            b.in_bounds(a1, b1, c1) implies {
            let dl = r.moisture_delta[b.idx(a1, b1, c1)] - b.moisture_delta[b.idx(a1, b1, c1)];
            &&& (if b.idx(a1, b1, c1) < k + 1 {
                -31int
            } else {
                0int
            }) <= dl
            &&& dl <= seen(b, a1, b1, c1, k + 1)
        } by {
            lemma_in_bounds_addressable(b, a1, b1, c1);
            let i = b.idx(a1, b1, c1);
            lemma_seen_grows(b, a1, b1, c1, k);
            assert(t.moisture_delta[b.idx(a1, b1, c1)] == t.moisture_delta[i]);
            if i == idx {
                crate::world::lemma_idx_injective(b, a1, b1, c1, x, y, z);
            } else if r.moisture_delta[i] != t.moisture_delta[i] {
                let j = choose|j: int| 0 <= j < 4 && #[trigger] side_index(t, x, y, z, j) == Some(i);
                assert(side_index(b, x, y, z, j) == Some(i));
                let (nx, ny) = crate::water::flow::neighbor_at(b, x, y, j);
                lemma_in_bounds_addressable(b, nx, ny, z);
                crate::world::lemma_idx_injective(b, nx, ny, z, a1, b1, c1);
                lemma_seen_receiver(b, x, y, z, j, a1, b1);
            }
        }
        assert forall|i: int| 0 <= i < b.size() implies -31 <= #[trigger] r.moisture_delta[i] - b.moisture_delta[i] <= 1020 by {
            assert(-31 <= t.moisture_delta[i] - b.moisture_delta[i] <= 1020);
            if i != idx && r.moisture_delta[i] != t.moisture_delta[i] {
                let j = choose|j: int| 0 <= j < 4 && #[trigger] side_index(t, x, y, z, j) == Some(i);
                assert(side_index(b, x, y, z, j) == Some(i));
                let (nx, ny) = crate::water::flow::neighbor_at(b, x, y, j);
                lemma_in_bounds_addressable(b, nx, ny, z);
                lemma_seen_grows(b, nx, ny, z, k);
                lemma_seen_receiver(b, x, y, z, j, nx, ny);
                lemma_seen_grows(b, nx, ny, z, k + 1);
                assert(t.moisture_delta[b.idx(nx, ny, z)] - b.moisture_delta[b.idx(nx, ny, z)] <= seen(b, nx, ny, z, k));
            }
        }
    }
}

/// During seepage: the ground is that of `c`, the total is kept, no cell expects less
/// than 0, and no pending delta exceeds 1306.
pub open spec fn seepage_ok(c: WorldView, t: WorldView) -> bool {
    &&& same_ground(c, t)
    &&& ground_total(t) == ground_total(c)
    &&& moisture_nonneg(t)
    &&& forall|i: int| 0 <= i < c.size() ==> #[trigger] t.moisture_delta[i] <= 1306
}

proof fn lemma_seepage_ok_step(c: WorldView, t: WorldView, x: int, y: int, z: int)
    requires
        seepage_ok(c, t),
        c.in_bounds(x, y, z),
    ensures
        seepage_ok(c, seepage_step(t, x, y, z)),
{
    let r = seepage_step(t, x, y, z);
    lemma_in_bounds_addressable(t, x, y, z);
    assert(moisture_deltas_within(t, 1306)) by {
        assert forall|i: int| 0 <= i < t.moisture_delta.len() implies -1306 <= #[trigger] t.moisture_delta[i] <= 1306 by {
            assert(0 <= t.soil_moisture[i] + t.moisture_delta[i]);
        }
    }
    lemma_underground_steps_keep_ground(c, t, x, y, z);
    lemma_seepage_conserves(t, x, y, z);
    if r != t {
        let idx = t.idx(x, y, z);
        let e = t.soil_moisture[idx] + t.moisture_delta[idx];
        assert(e >= 0);
        let moisture = expected_moisture(t, idx);
        assert(wadd16(t.soil_moisture[idx] as i16, t.moisture_delta[idx]) == e);
        assert(e <= 255 ==> moisture == e);
        let cap = capacity_of(t.tiles[idx]);
        let threshold = cap / 2;
        let target = seep_target(t, x, y, z).unwrap();
        if x >= 1 {
            lemma_in_bounds_addressable(t, x - 1, y, z);
        }
        if x + 1 < t.width {
            lemma_in_bounds_addressable(t, x + 1, y, z);
        }
        if y >= 1 {
            lemma_in_bounds_addressable(t, x, y - 1, z);
        }
        if y + 1 < t.depth {
            lemma_in_bounds_addressable(t, x, y + 1, z);
        }
        if z + 1 < t.height {
            lemma_in_bounds_addressable(t, x, y, z + 1);
        }
        let available = moisture - threshold;
        let room = 255 - t.water_mass[target];
        let seep = min_int(min_int(available, 2), room);
        assert(r.moisture_delta[idx] == t.moisture_delta[idx] - seep);
        assert forall|i: int| 0 <= i < r.size() implies 0 <= r.soil_moisture[i] + #[trigger] r.moisture_delta[i] by {
            assert(0 <= t.soil_moisture[i] + t.moisture_delta[i]);
        }
        assert forall|i: int| 0 <= i < c.size() implies #[trigger] r.moisture_delta[i] <= 1306 by {
            assert(t.moisture_delta[i] <= 1306);
        }
    }
}

proof fn lemma_applied_moisture_prefix_le(m: Seq<u8>, dl: Seq<i16>, caps: Seq<u8>, n: nat)
    requires
        n <= m.len(),
        dl.len() == m.len(),
        caps.len() == m.len(),
        forall|i: int| 0 <= i < m.len() ==> -32000 <= #[trigger] dl[i] <= 32000,
        forall|i: int| 0 <= i < m.len() ==> 0 <= m[i] + #[trigger] dl[i],
    ensures
        sum_u8(Seq::new(n, |i: int| applied_moisture(m[i], dl[i], caps[i]))) <= sum_u8(m.take(n as int)) + sum_i16(
            dl.take(n as int),
        ),
    decreases n,
{
    if n == 0 {
        assert(Seq::new(0, |i: int| applied_moisture(m[i], dl[i], caps[i])) =~= Seq::<u8>::empty());
        assert(m.take(0) =~= Seq::<u8>::empty());
        assert(dl.take(0) =~= Seq::<i16>::empty());
    } else {
        lemma_applied_moisture_prefix_le(m, dl, caps, (n - 1) as nat);
        let k = n - 1;
        let f = Seq::new(n, |i: int| applied_moisture(m[i], dl[i], caps[i]));
        assert(f.drop_last() =~= Seq::new((n - 1) as nat, |i: int| applied_moisture(m[i], dl[i], caps[i])));
        assert(m.take(n as int).drop_last() =~= m.take(k));
        assert(dl.take(n as int).drop_last() =~= dl.take(k));
        assert(-32000 <= dl[k] <= 32000);
        assert(0 <= m[k] + dl[k]);
        assert(wadd16(m[k] as i16, dl[k]) == m[k] + dl[k]);
        assert(applied_moisture(m[k], dl[k], caps[k]) <= m[k] + dl[k]);
    }
}

/// The groundwater pass creates no water: for a world whose soil holds no more than its
/// tiles can and that has no pending moisture moves, the surface water plus the soil
/// moisture after the pass is at most what it was before. Water is only moved; what
/// soil is pushed over its capacity is cut back when the moves are applied.
pub proof fn lemma_groundwater_creates_no_water(v: WorldView)
    requires
        v.wf(),
        within_capacity(v),
        moisture_deltas_within(v, 0),
    ensures
        surface_and_soil_water(groundwater_pass(v)) <= surface_and_soil_water(v),
{
    let upper = (if v.height >= 1 {
        v.height - 1
    } else {
        0
    }) as nat;
    // absorption: keeps the total, the capacity bound and the (empty) pending deltas
    lemma_absorption_conserves_water(v);
    let pa = |s: WorldView|
        s.wf() && s.width == v.width && s.depth == v.depth && s.height == v.height && s.tiles == v.tiles
            && s.moisture_delta == v.moisture_delta && within_capacity(s);
    assert forall|t: WorldView, x: int, y: int, z: int|
        0 <= x < v.width && 0 <= y < v.depth && 1 <= z < 1 + upper && pa(t) implies pa(
        #[trigger] absorb_fn()(t, x, y, z),
    ) by {
        let t2 = absorb_step(t, x, y, z);
        assert(absorb_fn()(t, x, y, z) == t2);
        lemma_in_bounds_addressable(t, x, y, z);
        lemma_in_bounds_addressable(t, x, y, z - 1);
        assert forall|i: int| 0 <= i < t2.size() implies #[trigger] t2.soil_moisture[i] <= capacity_of(t2.tiles[i]) by {
            assert(t.soil_moisture[i] <= capacity_of(t.tiles[i]));
        }
    }
    lemma_up_keeps(v, absorb_fn(), pa, v.width, v.depth, 1, upper);
    let a = sweep_up(v, absorb_fn(), v.width, v.depth, 1, upper);
    lemma_sum_i16_zero(a.moisture_delta);
    assert(ground_total(a) == surface_and_soil_water(v));
    // underground gravity
    lemma_seep_phase(a, upper);
    let b = sweep_down(a, seep_down_fn(), a.width, a.depth, a.height as int, upper);
    assert(moisture_deltas_within(b, 255)) by {
        assert forall|i: int| 0 <= i < b.moisture_delta.len() implies -255 <= #[trigger] b.moisture_delta[i] <= 255 by {
            assert(0 <= b.soil_moisture[i] + b.moisture_delta[i] <= capacity_of(b.tiles[i]));
        }
    }
    // horizontal equalization
    let pc = |t: WorldView, k: int| equalize_progress(b, t, k);
    assert(pc(b, 0)) by {
        assert forall|x: int, y: int, z: int|
            #![trigger b.moisture_delta[b.idx(x, y, z)]]
            b.in_bounds(x, y, z) implies {
            let dl = b.moisture_delta[b.idx(x, y, z)] - b.moisture_delta[b.idx(x, y, z)];
            &&& (if b.idx(x, y, z) < 0 {
                -31int
            } else {
                0int
            }) <= dl
            &&& dl <= seen(b, x, y, z, 0)
        } by {
            lemma_seen_grows(b, x, y, z, 0);
        }
        assert forall|i: int| 0 <= i < b.size() implies 0 <= b.soil_moisture[i] + #[trigger] b.moisture_delta[i] by {
            assert(0 <= b.soil_moisture[i] + b.moisture_delta[i] <= capacity_of(b.tiles[i]));
        }
    }
    assert forall|t: WorldView, x: int, y: int, z: int|
        0 <= x < v.width && 0 <= y < v.depth && 0 <= z < 0 + v.height && pc(t, (z - 0) * (v.width * v.depth) + y * v.width + x)
            implies pc(
        #[trigger] equalize_fn()(t, x, y, z),
        (z - 0) * (v.width * v.depth) + y * v.width + x + 1,
    ) by {
        assert((z - 0) * (v.width * v.depth) + y * v.width + x == b.idx(x, y, z));
        lemma_equalize_progress_step(b, t, x, y, z);
    }
    lemma_up_prog(b, equalize_fn(), pc, v.width, v.depth, 0, v.height);
    let c = sweep_up(b, equalize_fn(), v.width, v.depth, 0, v.height);
    // seepage
    let pd = |t: WorldView| seepage_ok(c, t);
    assert(pd(c)) by {
        assert forall|i: int| 0 <= i < c.size() implies #[trigger] c.moisture_delta[i] <= 1306 by {
            assert(-31 <= c.moisture_delta[i] - b.moisture_delta[i] <= 1020);
            assert(-255 <= b.moisture_delta[i] <= 255);
        }
    }
    assert forall|t: WorldView, x: int, y: int, z: int|
        0 <= x < v.width && 0 <= y < v.depth && 0 <= z < 0 + v.height && pd(t) implies pd(
        #[trigger] seepage_fn()(t, x, y, z),
    ) by {
        lemma_seepage_ok_step(c, t, x, y, z);
    }
    lemma_up_keeps(c, seepage_fn(), pd, v.width, v.depth, 0, v.height);
    let d = sweep_up(c, seepage_fn(), v.width, v.depth, 0, v.height);
    // applying the moves cuts back, never adds
    let caps = Seq::new(d.size(), |i: int| capacity_of(d.tiles[i]));
    assert forall|i: int| 0 <= i < d.soil_moisture.len() implies -32000 <= #[trigger] d.moisture_delta[i] <= 32000 by {
        assert(0 <= d.soil_moisture[i] + d.moisture_delta[i]);
        assert(d.moisture_delta[i] <= 1306);
    }
    assert forall|i: int| 0 <= i < d.soil_moisture.len() implies 0 <= d.soil_moisture[i] + #[trigger] d.moisture_delta[i] by {}
    lemma_applied_moisture_prefix_le(d.soil_moisture, d.moisture_delta, caps, d.size());
    assert(Seq::new(d.size(), |i: int| applied_moisture(d.soil_moisture[i], d.moisture_delta[i], caps[i])) =~= Seq::new(
        d.size(),
        |i: int| applied_moisture(d.soil_moisture[i], d.moisture_delta[i], capacity_of(d.tiles[i])),
    ));
    assert(d.soil_moisture.take(d.size() as int) =~= d.soil_moisture);
    assert(d.moisture_delta.take(d.size() as int) =~= d.moisture_delta);
}

} // verus!
