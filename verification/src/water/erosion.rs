use vstd::prelude::*;
use crate::tile::{Tile, is_erodible_spec};
use crate::world::{World, WorldView, lemma_in_bounds_addressable, min_int, stone_kept, lemma_set_non_stone_keeps_stone};
use crate::sweep::{sweep_row, sweep_layer, sweep_up, lemma_up_keeps};
use crate::water::hash::{hash3, hash3_spec};

verus! {

broadcast use lemma_in_bounds_addressable;

/// The number of consecutive water tiles in column (x, y) from layer `cz` upward.
pub open spec fn water_run(v: WorldView, x: int, y: int, cz: int) -> nat
    decreases v.height - cz,
{
    if 0 <= cz < v.height && v.tile(x, y, cz) is Water {
        1 + water_run(v, x, y, cz + 1)
    } else {
        0
    }
}

/// The pressure on a cell: the number of consecutive water tiles directly above it.
pub open spec fn depth_above(v: WorldView, x: int, y: int, z: int) -> nat {
    water_run(v, x, y, z + 1)
}

proof fn lemma_water_run_bound(v: WorldView, x: int, y: int, cz: int)
    requires
        0 <= cz,
    ensures
        water_run(v, x, y, cz) <= if cz <= v.height {
            v.height - cz
        } else {
            0
        },
    decreases v.height - cz,
{
    if 0 <= cz < v.height && v.tile(x, y, cz) is Water {
        lemma_water_run_bound(v, x, y, cz + 1);
    }
}

/// Counts the consecutive water tiles directly above (x, y, z): the water pressure.
pub fn water_depth_above(world: &World, x: usize, y: usize, z: usize) -> (depth: usize)
    requires
        world.wf(),
        world@.in_bounds(x as int, y as int, z as int),
    ensures
        depth == depth_above(world@, x as int, y as int, z as int),
{
    let h = world.height();
    let mut depth: usize = 0;
    let mut cz = z + 1;
    while cz < h && world.get(x, y, cz).is_water()
        invariant
            world.wf(),
            world@.in_bounds(x as int, y as int, z as int),
            h == world@.height,
            z + 1 <= cz,
            cz <= h || cz == z + 1,
            depth == cz - (z + 1),
            cz <= usize::MAX,
            depth + water_run(world@, x as int, y as int, cz as int) == depth_above(
                world@,
                x as int,
                y as int,
                z as int,
            ),
        decreases h - cz,
    {
        depth += 1;
        cz += 1;
    }
    depth
}

/// The chance (in percent) that water under a pressure of `p` erodes the tile below:
/// 10 per unit of pressure, at most 50.
pub open spec fn erosion_chance(p: nat) -> int {
    min_int((10 * p) as int, 50)
}

/// Sediment after picking up one more particle: one more, at most 7 (the increment wraps
/// around at 255, as `u8` arithmetic does in a release build).
pub open spec fn sediment_plus_one(s: u8) -> u8 {
    let inc = vstd::wrapping::u8_specs::wrapping_add(s, 1);
    if inc < 7 {
        inc
    } else {
        7
    }
}

/// The erosion step at (x, y, z): water above an erodible tile, under pressure, erodes
/// it to Air with a chance of `erosion_chance(pressure)` percent (the roll is the cell's
/// hash under `seed`), picking up one sediment.
pub open spec fn erode_step(v: WorldView, x: int, y: int, z: int, seed: u64) -> WorldView {
    match v.tile(x, y, z) {
        Tile::Water { is_source, sediment, velocity, direction } => {
            let chance = erosion_chance(depth_above(v, x, y, z));
            let roll = hash3_spec(x as u64, y as u64, z as u64, seed) % 100;
            if is_erodible_spec(v.tile(x, y, z - 1)) && chance != 0 && roll < chance {
                v.set_tile(x, y, z - 1, Tile::Air).set_tile(
                    x,
                    y,
                    z,
                    Tile::Water { is_source, sediment: sediment_plus_one(sediment), velocity, direction },
                )
            } else {
                v
            }
        },
        _ => v,
    }
}

/// The deposition step at (x, y, z): water carrying sediment with no water above it and
/// Air below it drops one sediment there as Sand.
pub open spec fn deposit_step(v: WorldView, x: int, y: int, z: int) -> WorldView {
    match v.tile(x, y, z) {
        Tile::Water { is_source, sediment, velocity, direction } => {
            if sediment != 0 && depth_above(v, x, y, z) == 0 && v.tile(x, y, z - 1) is Air {
                v.set_tile(x, y, z - 1, Tile::Sand).set_tile(
                    x,
                    y,
                    z,
                    Tile::Water { is_source, sediment: (sediment - 1) as u8, velocity, direction },
                )
            } else {
                v
            }
        },
        _ => v,
    }
}

pub open spec fn erode_fn(seed: u64) -> spec_fn(WorldView, int, int, int) -> WorldView {
    |v: WorldView, x: int, y: int, z: int| erode_step(v, x, y, z, seed)
}

pub open spec fn deposit_fn() -> spec_fn(WorldView, int, int, int) -> WorldView {
    |v: WorldView, x: int, y: int, z: int| deposit_step(v, x, y, z)
}

pub open spec fn upper_layers(v: WorldView) -> nat {
    (if v.height >= 1 {
        v.height - 1
    } else {
        0
    }) as nat
}

/// The erosion pass: erosion over layers 1 and up, then deposition over layers 1 and
/// up, each row by row.
pub open spec fn erosion_pass(v: WorldView, seed: u64) -> WorldView {
    let eroded = sweep_up(v, erode_fn(seed), v.width, v.depth, 1, upper_layers(v));
    sweep_up(eroded, deposit_fn(), v.width, v.depth, 1, upper_layers(v))
}

fn erode_cell(world: &mut World, x: usize, y: usize, z: usize, seed: u64)
    requires
        old(world).wf(),
        old(world)@.in_bounds(x as int, y as int, z as int),
        z >= 1,
    ensures
        final(world).wf(),
        final(world)@ == erode_step(old(world)@, x as int, y as int, z as int, seed),
{
    let tile = world.get(x, y, z);
    if let Tile::Water { is_source, sediment, velocity, direction } = tile {
        let below = world.get(x, y, z - 1);
        if !below.is_erodible() {
            return;
        }
        let pressure = water_depth_above(world, x, y, z);
        let chance: u64 = if pressure >= 5 {
            50
        } else {
            (pressure as u64) * 10
        };
        if chance == 0 {
            return;
        }
        let roll = hash3(x, y, z, seed) % 100;
        if roll < chance {
            world.set(x, y, z - 1, Tile::Air);
            let inc = sediment.wrapping_add(1);
            let new_sed = if inc < 7 {
                inc
            } else {
                7
            };
            world.set(x, y, z, Tile::Water { is_source, sediment: new_sed, velocity, direction });
        }
    }
}

fn deposit_cell(world: &mut World, x: usize, y: usize, z: usize)
    requires
        old(world).wf(),
        old(world)@.in_bounds(x as int, y as int, z as int),
        z >= 1,
    ensures
        final(world).wf(),
        final(world)@ == deposit_step(old(world)@, x as int, y as int, z as int),
{
    let tile = world.get(x, y, z);
    if let Tile::Water { is_source, sediment, velocity, direction } = tile {
        if sediment == 0 {
            return;
        }
        let pressure = water_depth_above(world, x, y, z);
        if pressure > 0 {
            return;
        }
        if world.get(x, y, z - 1).is_air() {
            world.set(x, y, z - 1, Tile::Sand);
            world.set(
                x,
                y,
                z,
                Tile::Water { is_source, sediment: sediment - 1, velocity, direction },
            );
        }
    }
}

/// Runs erosion then deposition with the given seed for the erosion rolls: water under
/// pressure may erode the erodible tile below it and carry the sediment; still water
/// with sediment and Air below deposits it as Sand.
pub fn pass_erosion_with_seed(world: &mut World, seed: u64)
    requires
        old(world).wf(),
    ensures
        final(world).wf(),
        final(world)@.sources == old(world)@.sources,
        final(world)@.width == old(world)@.width,
        final(world)@.depth == old(world)@.depth,
        final(world)@.height == old(world)@.height,
        final(world)@ == erosion_pass(old(world)@, seed),
{
    let w = world.width();
    let d = world.depth();
    let h = world.height();
    let ghost init = world@;
    let mut z: usize = 1;
    while z < h
        invariant
            world.wf(),
            world@.width == w,
            world@.depth == d,
            world@.height == h,
            world@.sources == init.sources,
            init.width == w,
            init.depth == d,
            init.height == h,
            1 <= z,
            h >= 1 ==> z <= h,
            h == 0 ==> z == 1,
            world@ == sweep_up(init, erode_fn(seed), w as nat, d as nat, 1, (z - 1) as nat),
        decreases h - z,
    {
        let ghost sz = world@;
        let mut y: usize = 0;
        while y < d
            invariant
                world.wf(),
                world@.width == w,
                world@.depth == d,
                world@.height == h,
                world@.sources == init.sources,
                1 <= z < h,
                y <= d,
                world@ == sweep_layer(sz, erode_fn(seed), z as int, w as nat, y as nat),
            decreases d - y,
        {
            let ghost sy = world@;
            let mut x: usize = 0;
            while x < w
                invariant
                    world.wf(),
                    world@.width == w,
                    world@.depth == d,
                    world@.height == h,
                    world@.sources == init.sources,
                    1 <= z < h,
                    y < d,
                    x <= w,
                    world@ == sweep_row(sy, erode_fn(seed), y as int, z as int, x as nat),
                decreases w - x,
            {
                erode_cell(world, x, y, z, seed);
                x += 1;
            }
            y += 1;
        }
        z += 1;
    }
    let ghost eroded = world@;
    let mut z: usize = 1;
    while z < h
        invariant
            world.wf(),
            world@.width == w,
            world@.depth == d,
            world@.height == h,
            world@.sources == init.sources,
            eroded.width == w,
            eroded.depth == d,
            eroded.height == h,
            1 <= z,
            h >= 1 ==> z <= h,
            h == 0 ==> z == 1,
            world@ == sweep_up(eroded, deposit_fn(), w as nat, d as nat, 1, (z - 1) as nat),
        decreases h - z,
    {
        let ghost sz = world@;
        let mut y: usize = 0;
        while y < d
            invariant
                world.wf(),
                world@.width == w,
                world@.depth == d,
                world@.height == h,
                world@.sources == init.sources,
                1 <= z < h,
                y <= d,
                world@ == sweep_layer(sz, deposit_fn(), z as int, w as nat, y as nat),
            decreases d - y,
        {
            let ghost sy = world@;
            let mut x: usize = 0;
            while x < w
                invariant
                    world.wf(),
                    world@.width == w,
                    world@.depth == d,
                    world@.height == h,
                    world@.sources == init.sources,
                    1 <= z < h,
                    y < d,
                    x <= w,
                    world@ == sweep_row(sy, deposit_fn(), y as int, z as int, x as nat),
                decreases w - x,
            {
                deposit_cell(world, x, y, z);
                x += 1;
            }
            y += 1;
        }
        z += 1;
    }
}

proof fn lemma_tile_erode_keeps_stone(init: WorldView, t: WorldView, x: int, y: int, z: int, seed: u64)
    requires
        stone_kept(init, t),
        t.in_bounds(x, y, z),
        z >= 1,
    ensures
        stone_kept(init, erode_step(t, x, y, z, seed)),
        stone_kept(init, deposit_step(t, x, y, z)),
{
    lemma_in_bounds_addressable(t, x, y, z);
    lemma_in_bounds_addressable(t, x, y, z - 1);
    let i = t.idx(x, y, z);
    let ib = t.idx(x, y, z - 1);
    if let Tile::Water { is_source, sediment, velocity, direction } = t.tile(x, y, z) {
        let r = erode_step(t, x, y, z, seed);
        if r != t {
            lemma_set_non_stone_keeps_stone(init, t, ib, Tile::Air);
            let t1 = t.set_tile_at(ib, Tile::Air);
            let nw = Tile::Water { is_source, sediment: sediment_plus_one(sediment), velocity, direction };
            assert(t1.tiles[i] is Water || t1.tiles[i] is Air);
            lemma_set_non_stone_keeps_stone(init, t1, i, nw);
            assert(r == t1.set_tile_at(i, nw));
        }
        let q = deposit_step(t, x, y, z);
        if q != t {
            lemma_set_non_stone_keeps_stone(init, t, ib, Tile::Sand);
            let t1 = t.set_tile_at(ib, Tile::Sand);
            let nw = Tile::Water { is_source, sediment: (sediment - 1) as u8, velocity, direction };
            assert(t1.tiles[i] is Water || t1.tiles[i] is Sand);
            lemma_set_non_stone_keeps_stone(init, t1, i, nw);
            assert(q == t1.set_tile_at(i, nw));
        }
    }
}

/// Stone never erodes: every cell that holds Stone before the erosion pass of the tile
/// model still holds Stone after it.
pub proof fn lemma_erosion_keeps_stone(v: WorldView, seed: u64)
    requires
        v.wf(),
    ensures
        stone_kept(v, erosion_pass(v, seed)),
{
    let p = |s: WorldView| stone_kept(v, s);
    let n = upper_layers(v);
    assert forall|t: WorldView, x: int, y: int, z: int|
        0 <= x < v.width && 0 <= y < v.depth && 1 <= z < 1 + n && p(t) implies p(
        #[trigger] erode_fn(seed)(t, x, y, z),
    ) by {
        lemma_tile_erode_keeps_stone(v, t, x, y, z, seed);
    }
    lemma_up_keeps(v, erode_fn(seed), p, v.width, v.depth, 1, n);
    let eroded = sweep_up(v, erode_fn(seed), v.width, v.depth, 1, n);
    assert forall|t: WorldView, x: int, y: int, z: int|
        0 <= x < v.width && 0 <= y < v.depth && 1 <= z < 1 + n && p(t) implies p(
        #[trigger] deposit_fn()(t, x, y, z),
    ) by {
        lemma_tile_erode_keeps_stone(v, t, x, y, z, 0);
    }
    lemma_up_keeps(eroded, deposit_fn(), p, v.width, v.depth, 1, n);
}

/// The number of water tiles in `s`.
pub open spec fn water_tile_count(s: Seq<Tile>) -> nat
    decreases s.len(),
{
    if s.len() == 0 {
        0
    } else {
        water_tile_count(s.drop_last()) + (if s.last() is Water {
            1nat
        } else {
            0nat
        })
    }
}

proof fn lemma_water_tile_count_same(a: Seq<Tile>, b: Seq<Tile>)
    requires
        a.len() == b.len(),
        forall|i: int| 0 <= i < a.len() ==> (#[trigger] a[i] is Water) == (b[i] is Water),
    ensures
        water_tile_count(a) == water_tile_count(b),
    decreases a.len(),
{
    if a.len() > 0 {
        let (a1, b1) = (a.drop_last(), b.drop_last());
        assert forall|i: int| 0 <= i < a1.len() implies (#[trigger] a1[i] is Water) == (b1[i] is Water) by {
            assert(a1[i] == a[i] && b1[i] == b[i]);
        }
        lemma_water_tile_count_same(a1, b1);
        assert(a[a.len() - 1] is Water == b[b.len() - 1] is Water);
    }
}

/// `t` has the layout of `v` and water exactly where `v` has it.
pub open spec fn same_water(v: WorldView, t: WorldView) -> bool {
    &&& t.wf()
    &&& t.width == v.width && t.depth == v.depth && t.height == v.height
    &&& forall|i: int| 0 <= i < v.size() ==> (#[trigger] t.tiles[i] is Water) == (v.tiles[i] is Water)
}

proof fn lemma_water_run_same(v: WorldView, t: WorldView, x: int, y: int, cz: int)
    requires
        v.wf(),
        same_water(v, t),
        0 <= x < v.width,
        0 <= y < v.depth,
        0 <= cz,
    ensures
        water_run(t, x, y, cz) == water_run(v, x, y, cz),
    decreases v.height - cz,
{
    if cz < v.height {
        lemma_in_bounds_addressable(v, x, y, cz);
        lemma_water_run_same(v, t, x, y, cz + 1);
    }
}

/// During the erosion phase: water where `v` has it, and a tile turned to Air only with
/// water pressing on the cell above it.
pub open spec fn tile_erosion_phase_ok(v: WorldView, t: WorldView) -> bool {
    &&& same_water(v, t)
    &&& forall|x: int, y: int, z: int|
        v.in_bounds(x, y, z) && #[trigger] t.tiles[v.idx(x, y, z)] is Air && !(v.tiles[v.idx(x, y, z)] is Air)
            ==> depth_above(v, x, y, z + 1) > 0
}

/// During the deposition phase: water where `v` has it, and Air only where `e` has Air.
pub open spec fn tile_deposit_phase_ok(v: WorldView, e: WorldView, t: WorldView) -> bool {
    &&& same_water(v, t)
    &&& forall|i: int| 0 <= i < v.size() && #[trigger] t.tiles[i] is Air ==> e.tiles[i] is Air
}

proof fn lemma_tile_erode_outcome(v: WorldView, t: WorldView, x: int, y: int, z: int, seed: u64)
    requires
        v.wf(),
        tile_erosion_phase_ok(v, t),
        v.in_bounds(x, y, z),
        z >= 1,
    ensures
        tile_erosion_phase_ok(v, erode_step(t, x, y, z, seed)),
{
    lemma_in_bounds_addressable(v, x, y, z);
    lemma_in_bounds_addressable(v, x, y, z - 1);
    let i = v.idx(x, y, z);
    let ib = v.idx(x, y, z - 1);
    let r = erode_step(t, x, y, z, seed);
    if r != t {
        lemma_water_run_same(v, t, x, y, z + 1);
        assert(i != ib) by {
            if i == ib {
                crate::world::lemma_idx_injective(v, x, y, z, x, y, z - 1);
            }
        }
        assert(t.tiles[i] is Water);
        assert forall|j: int| 0 <= j < v.size() implies (#[trigger] r.tiles[j] is Water) == (v.tiles[j] is Water) by {
            assert(t.tiles[j] is Water == v.tiles[j] is Water);
        }
        assert forall|a: int, b: int, c: int|
            v.in_bounds(a, b, c) && #[trigger] r.tiles[v.idx(a, b, c)] is Air && !(v.tiles[v.idx(a, b, c)] is Air)
                implies depth_above(v, a, b, c + 1) > 0 by {
            lemma_in_bounds_addressable(v, a, b, c);
            if v.idx(a, b, c) == ib {
                crate::world::lemma_idx_injective(v, a, b, c, x, y, z - 1);
            } else {
                assert(t.tiles[v.idx(a, b, c)] is Air);
            }
        }
    }
}

proof fn lemma_tile_deposit_outcome(v: WorldView, e: WorldView, t: WorldView, x: int, y: int, z: int)
    requires
        v.wf(),
        tile_deposit_phase_ok(v, e, t),
        v.in_bounds(x, y, z),
        z >= 1,
    ensures
        tile_deposit_phase_ok(v, e, deposit_step(t, x, y, z)),
{
    lemma_in_bounds_addressable(v, x, y, z);
    lemma_in_bounds_addressable(v, x, y, z - 1);
    let i = v.idx(x, y, z);
    let ib = v.idx(x, y, z - 1);
    let r = deposit_step(t, x, y, z);
    if r != t {
        assert(i != ib) by {
            if i == ib {
                crate::world::lemma_idx_injective(v, x, y, z, x, y, z - 1);
            }
        }
        assert forall|j: int| 0 <= j < v.size() implies (#[trigger] r.tiles[j] is Water) == (v.tiles[j] is Water) by {
            assert(t.tiles[j] is Water == v.tiles[j] is Water);
        }
        assert forall|j: int| 0 <= j < v.size() && #[trigger] r.tiles[j] is Air implies e.tiles[j] is Air by {
            assert(t.tiles[j] is Air);
        }
    }
}

/// The erosion pass of the tile model moves no water tile: afterwards a cell holds water
/// exactly when it did before, so the number of water tiles is unchanged. And there is
/// no erosion without pressure: a tile turns into Air only when the water in the cell
/// above it has more water directly above it.
pub proof fn lemma_erosion_keeps_water(v: WorldView, seed: u64)
    requires
        v.wf(),
    ensures
        forall|i: int|
            0 <= i < v.size() ==> (#[trigger] erosion_pass(v, seed).tiles[i] is Water) == (v.tiles[i] is Water),
        water_tile_count(erosion_pass(v, seed).tiles) == water_tile_count(v.tiles),
        forall|x: int, y: int, z: int|
            v.in_bounds(x, y, z) && #[trigger] erosion_pass(v, seed).tiles[v.idx(x, y, z)] is Air && !(v.tiles[v.idx(
                x,
                y,
                z,
            )] is Air) ==> depth_above(v, x, y, z + 1) > 0,
{
    let n = upper_layers(v);
    let p1 = |s: WorldView| tile_erosion_phase_ok(v, s);
    assert forall|t: WorldView, x: int, y: int, z: int|
        0 <= x < v.width && 0 <= y < v.depth && 1 <= z < 1 + n && p1(t) implies p1(
        #[trigger] erode_fn(seed)(t, x, y, z),
    ) by {
        lemma_tile_erode_outcome(v, t, x, y, z, seed);
    }
    lemma_up_keeps(v, erode_fn(seed), p1, v.width, v.depth, 1, n);
    let e = sweep_up(v, erode_fn(seed), v.width, v.depth, 1, n);
    let p2 = |s: WorldView| tile_deposit_phase_ok(v, e, s);
    assert forall|t: WorldView, x: int, y: int, z: int|
        0 <= x < v.width && 0 <= y < v.depth && 1 <= z < 1 + n && p2(t) implies p2(
        #[trigger] deposit_fn()(t, x, y, z),
    ) by {
        lemma_tile_deposit_outcome(v, e, t, x, y, z);
    }
    lemma_up_keeps(e, deposit_fn(), p2, v.width, v.depth, 1, n);
    let r = erosion_pass(v, seed);
    lemma_water_tile_count_same(r.tiles, v.tiles);
    assert forall|x: int, y: int, z: int|
        v.in_bounds(x, y, z) && #[trigger] r.tiles[v.idx(x, y, z)] is Air && !(v.tiles[v.idx(x, y, z)] is Air)
            implies depth_above(v, x, y, z + 1) > 0 by {
        lemma_in_bounds_addressable(v, x, y, z);
        assert(e.tiles[v.idx(x, y, z)] is Air);
    }
}

/// The water tile `t` with one more sediment (as the erosion step gives it).
pub open spec fn bumped(t: Tile) -> Tile {
    match t {
        Tile::Water { is_source, sediment, velocity, direction } => Tile::Water {
            is_source,
            sediment: sediment_plus_one(sediment),
            velocity,
            direction,
        },
        _ => t,
    }
}

/// Water at (x, y, z) of `v` over an erodible tile.
pub open spec fn over_erodible(v: WorldView, x: int, y: int, z: int) -> bool {
    v.in_bounds(x, y, z) && z >= 1 && v.tile(x, y, z) is Water && is_erodible_spec(v.tile(x, y, z - 1))
}

/// At (x, y, z) of `t`: the water there and the tile below are untouched, or the tile
/// below has been eroded to Air and the water carries it, under pressure.
pub open spec fn erosion_pair_ok(v: WorldView, t: WorldView, x: int, y: int, z: int) -> bool {
    ||| (t.tile(x, y, z - 1) == v.tile(x, y, z - 1) && t.tile(x, y, z) == v.tile(x, y, z))
    ||| (t.tile(x, y, z - 1) is Air && t.tile(x, y, z) == bumped(v.tile(x, y, z)) && depth_above(v, x, y, z) > 0)
}

pub open spec fn sediment_phase_ok(v: WorldView, t: WorldView) -> bool {
    &&& tile_erosion_phase_ok(v, t)
    &&& forall|x: int, y: int, z: int| #[trigger] over_erodible(v, x, y, z) ==> erosion_pair_ok(v, t, x, y, z)
}

proof fn lemma_sediment_erode_step(v: WorldView, t: WorldView, a: int, b: int, c: int, seed: u64)
    requires
        v.wf(),
        sediment_phase_ok(v, t),
        v.in_bounds(a, b, c),
        c >= 1,
    ensures
        sediment_phase_ok(v, erode_step(t, a, b, c, seed)),
{
    let r = erode_step(t, a, b, c, seed);
    lemma_tile_erode_outcome(v, t, a, b, c, seed);
    if r != t {
        lemma_in_bounds_addressable(v, a, b, c);
        lemma_in_bounds_addressable(v, a, b, c - 1);
        let i = v.idx(a, b, c);
        let ib = v.idx(a, b, c - 1);
        lemma_water_run_same(v, t, a, b, c + 1);
        assert(i != ib) by {
            if i == ib {
                crate::world::lemma_idx_injective(v, a, b, c, a, b, c - 1);
            }
        }
        assert forall|x: int, y: int, z: int| #[trigger] over_erodible(v, x, y, z) implies erosion_pair_ok(v, r, x, y, z) by {
            lemma_in_bounds_addressable(v, x, y, z);
            lemma_in_bounds_addressable(v, x, y, z - 1);
            let j = v.idx(x, y, z);
            let jb = v.idx(x, y, z - 1);
            assert(erosion_pair_ok(v, t, x, y, z));
            assert(t.tiles[j] is Water == v.tiles[j] is Water);
            if j == i {
                crate::world::lemma_idx_injective(v, x, y, z, a, b, c);
            } else if j == ib {
                crate::world::lemma_idx_injective(v, x, y, z, a, b, c - 1);
            } else if jb == i {
                crate::world::lemma_idx_injective(v, x, y, z - 1, a, b, c);
            } else if jb == ib {
                crate::world::lemma_idx_injective(v, x, y, z - 1, a, b, c - 1);
            } else {
                assert(r.tiles[j] == t.tiles[j]);
                assert(r.tiles[jb] == t.tiles[jb]);
            }
        }
    }
}

pub open spec fn sediment_deposit_ok(v: WorldView, e: WorldView, t: WorldView) -> bool {
    &&& tile_deposit_phase_ok(v, e, t)
    &&& forall|x: int, y: int, z: int|
        #[trigger] over_erodible(v, x, y, z) && e.tile(x, y, z - 1) is Air && depth_above(v, x, y, z) > 0 ==> t.tile(
            x,
            y,
            z,
        ) == e.tile(x, y, z)
}

proof fn lemma_sediment_deposit_step(v: WorldView, e: WorldView, t: WorldView, a: int, b: int, c: int)
    requires
        v.wf(),
        sediment_deposit_ok(v, e, t),
        v.in_bounds(a, b, c),
        c >= 1,
    ensures
        sediment_deposit_ok(v, e, deposit_step(t, a, b, c)),
{
    let r = deposit_step(t, a, b, c);
    lemma_tile_deposit_outcome(v, e, t, a, b, c);
    if r != t {
        lemma_in_bounds_addressable(v, a, b, c);
        lemma_in_bounds_addressable(v, a, b, c - 1);
        let i = v.idx(a, b, c);
        let ib = v.idx(a, b, c - 1);
        lemma_water_run_same(v, t, a, b, c + 1);
        assert forall|x: int, y: int, z: int|
            #[trigger] over_erodible(v, x, y, z) && e.tile(x, y, z - 1) is Air && depth_above(v, x, y, z) > 0 implies r.tile(
            x,
            y,
            z,
        ) == e.tile(x, y, z) by {
            lemma_in_bounds_addressable(v, x, y, z);
            let j = v.idx(x, y, z);
            assert(t.tiles[j] is Water == v.tiles[j] is Water);
            if j == i {
                crate::world::lemma_idx_injective(v, x, y, z, a, b, c);
            } else if j == ib {
                crate::world::lemma_idx_injective(v, x, y, z, a, b, c - 1);
            } else {
                assert(r.tiles[j] == t.tiles[j]);
            }
        }
    }
}

/// `after` is the water tile `before` carrying one more particle of sediment (at most 7),
/// with everything else as it was (for sediment below 255).
pub open spec fn carries_one_more(before: Tile, after: Tile) -> bool {
    match before {
        Tile::Water { is_source, sediment, velocity, direction } => sediment < 255 ==> after == Tile::Water {
            is_source,
            sediment: (if sediment < 7 {
                sediment + 1
            } else {
                7
            }) as u8,
            velocity,
            direction,
        },
        _ => true,
    }
}

/// Eroded soil is carried, not lost: when the erosion pass turns the erodible tile below
/// a water tile into Air, that water comes out of the pass with one more sediment (at
/// most 7) and otherwise unchanged. (Sediment 255 wraps around to 0 when increased.)
pub proof fn lemma_erosion_carries_sediment(v: WorldView, seed: u64)
    requires
        v.wf(),
    ensures
        forall|x: int, y: int, z: int|
            #![trigger erosion_pass(v, seed).tile(x, y, z)]
            v.in_bounds(x, y, z) && z >= 1 && is_erodible_spec(v.tile(x, y, z - 1)) && erosion_pass(v, seed).tile(
                x,
                y,
                z - 1,
            ) is Air ==> carries_one_more(v.tile(x, y, z), erosion_pass(v, seed).tile(x, y, z)),
{
    let n = upper_layers(v);
    let p1 = |s: WorldView| sediment_phase_ok(v, s);
    assert(p1(v)) by {
        assert(same_water(v, v));
    }
    assert forall|t: WorldView, x: int, y: int, z: int|
        0 <= x < v.width && 0 <= y < v.depth && 1 <= z < 1 + n && p1(t) implies p1(
        #[trigger] erode_fn(seed)(t, x, y, z),
    ) by {
        lemma_sediment_erode_step(v, t, x, y, z, seed);
    }
    lemma_up_keeps(v, erode_fn(seed), p1, v.width, v.depth, 1, n);
    let e = sweep_up(v, erode_fn(seed), v.width, v.depth, 1, n);
    let p2 = |s: WorldView| sediment_deposit_ok(v, e, s);
    assert forall|t: WorldView, x: int, y: int, z: int|
        0 <= x < v.width && 0 <= y < v.depth && 1 <= z < 1 + n && p2(t) implies p2(
        #[trigger] deposit_fn()(t, x, y, z),
    ) by {
        lemma_sediment_deposit_step(v, e, t, x, y, z);
    }
    lemma_up_keeps(e, deposit_fn(), p2, v.width, v.depth, 1, n);
    let r = erosion_pass(v, seed);
    assert forall|x: int, y: int, z: int|
        #![trigger erosion_pass(v, seed).tile(x, y, z)]
        v.in_bounds(x, y, z) && z >= 1 && is_erodible_spec(v.tile(x, y, z - 1)) && r.tile(x, y, z - 1) is Air implies
        carries_one_more(v.tile(x, y, z), r.tile(x, y, z)) by {
        if let Tile::Water { is_source, sediment, velocity, direction } = v.tile(x, y, z) {
            lemma_in_bounds_addressable(v, x, y, z - 1);
            assert(over_erodible(v, x, y, z));
            assert(erosion_pair_ok(v, e, x, y, z));
            let jb = v.idx(x, y, z - 1);
            assert(r.tiles[jb] is Air);
            assert(e.tiles[jb] is Air);
            assert(!(v.tile(x, y, z - 1) is Air));
            if sediment < 255 {
                assert(vstd::wrapping::u8_specs::wrapping_add(sediment, 1) == sediment + 1);
            }
        }
    }
}

} // verus!
