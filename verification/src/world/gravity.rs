use vstd::prelude::*;
use crate::tile::{FlowDir, Tile};
use crate::world::{World, WorldView, lemma_in_bounds_addressable};
use crate::sweep::{sweep_row, sweep_layer, sweep_up, lemma_up_keeps};
use crate::world::lemma_idx_injective;
use crate::tile::is_solid_spec;

verus! {

broadcast use lemma_in_bounds_addressable;

/// The lowest cell of column (x, y) that water dropping through air from layer `tz`
/// reaches: going down from `tz` while the cell below is Air.
pub open spec fn landing_z(v: WorldView, x: int, y: int, tz: nat) -> nat
    decreases tz,
{
    if tz > 0 && v.tile(x, y, tz - 1) is Air {
        landing_z(v, x, y, (tz - 1) as nat)
    } else {
        tz
    }
}

/// What the instant-fall gravity step does at cell (x, y, z): water with Air below it
/// falls at once to the lowest Air cell of its run, keeping its sediment, with no
/// velocity and moving Down; a source stays a (fresh) source, other water leaves Air.
pub open spec fn drop_step(v: WorldView, x: int, y: int, z: int) -> WorldView {
    match v.tile(x, y, z) {
        Tile::Water { is_source, sediment, .. } => {
            if !(v.tile(x, y, z - 1) is Air) {
                v
            } else {
                let tz = landing_z(v, x, y, (z - 1) as nat);
                let v1 = v.set_tile(
                    x,
                    y,
                    tz as int,
                    Tile::Water { is_source: false, sediment, velocity: 0, direction: FlowDir::Down },
                );
                v1.set_tile(
                    x,
                    y,
                    z,
                    if is_source {
                        Tile::Water {
                            is_source: true,
                            sediment: 0,
                            velocity: 0,
                            direction: FlowDir::Still,
                        }
                    } else {
                        Tile::Air
                    },
                )
            }
        },
        _ => v,
    }
}

pub open spec fn drop_fn() -> spec_fn(WorldView, int, int, int) -> WorldView {
    |v: WorldView, x: int, y: int, z: int| drop_step(v, x, y, z)
}

/// The instant-fall gravity pass: `drop_step` on every cell, layers from layer 1 up
/// to the top, each layer row by row, so that a stack of water settles in one pass.
pub open spec fn drop_pass(v: WorldView) -> WorldView {
    sweep_up(v, drop_fn(), v.width, v.depth, 1, (if v.height >= 1 {
        v.height - 1
    } else {
        0
    }) as nat)
}

fn drop_cell(world: &mut World, x: usize, y: usize, z: usize)
    requires
        old(world).wf(),
        old(world)@.in_bounds(x as int, y as int, z as int),
        z >= 1,
    ensures
        final(world).wf(),
        final(world)@ == drop_step(old(world)@, x as int, y as int, z as int),
{
    let ghost v = world@;
    let tile = world.get(x, y, z);
    if let Tile::Water { is_source, sediment, .. } = tile {
        if !world.get(x, y, z - 1).is_air() {
            return;
        }
        let mut target_z = z - 1;
        while target_z > 0 && world.get(x, y, target_z - 1).is_air()
            invariant
                world@ == v,
                world.wf(),
                v.in_bounds(x as int, y as int, z as int),
                target_z < z,
                landing_z(v, x as int, y as int, target_z as nat) == landing_z(
                    v,
                    x as int,
                    y as int,
                    (z - 1) as nat,
                ),
            decreases target_z,
        {
            target_z -= 1;
        }
        world.set(
            x,
            y,
            target_z,
            Tile::Water { is_source: false, sediment, velocity: 0, direction: FlowDir::Down },
        );
        if is_source {
            world.set(x, y, z, Tile::water_source());
        } else {
            world.set(x, y, z, Tile::Air);
        }
    }
}

/// Lets water fall: every water tile with Air directly below it drops at once to the
/// lowest Air cell under it; sources stay in place and keep emitting.
pub fn pass_gravity(world: &mut World)
    requires
        old(world).wf(),
    ensures
        final(world).wf(),
        final(world)@.sources == old(world)@.sources,
        final(world)@.width == old(world)@.width,
        final(world)@.depth == old(world)@.depth,
        final(world)@.height == old(world)@.height,
        final(world)@ == drop_pass(old(world)@),
{
    let w = world.width();
    let d = world.depth();
    let h = world.height();
    let ghost init = world@;
    let mut z: usize = 1;
    while z < h
        invariant
            world.wf(),
            world@.width == w,
            world@.depth == d,
            world@.height == h,
            world@.sources == init.sources,
            init.width == w,
            init.depth == d,
            init.height == h,
            z >= 1,
            h >= 1 ==> z <= h,
            h == 0 ==> z == 1,
            world@ == sweep_up(init, drop_fn(), w as nat, d as nat, 1, (z - 1) as nat),
        decreases h - z,
    {
        let ghost sz = world@;
        let mut y: usize = 0;
        while y < d
            invariant
                world.wf(),
                world@.width == w,
                world@.depth == d,
                world@.height == h,
                world@.sources == init.sources,
                1 <= z < h,
                y <= d,
                world@ == sweep_layer(sz, drop_fn(), z as int, w as nat, y as nat),
            decreases d - y,
        {
            let ghost sy = world@;
            let mut x: usize = 0;
            while x < w
                invariant
                    world.wf(),
                    world@.width == w,
                    world@.depth == d,
                    world@.height == h,
                    world@.sources == init.sources,
                    1 <= z < h,
                    y < d,
                    x <= w,
                    world@ == sweep_row(sy, drop_fn(), y as int, z as int, x as nat),
                decreases w - x,
            {
                drop_cell(world, x, y, z);
                x += 1;
            }
            y += 1;
        }
        z += 1;
    }
}


/// Starting from an Air cell, the landing cell is Air too, at or below the start.
pub proof fn lemma_landing_is_air(v: WorldView, x: int, y: int, tz: nat)
    requires
        v.tile(x, y, tz as int) is Air,
    ensures
        landing_z(v, x, y, tz) <= tz,
        v.tile(x, y, landing_z(v, x, y, tz) as int) is Air,
        landing_z(v, x, y, tz) == 0 || !(v.tile(x, y, landing_z(v, x, y, tz) - 1) is Air),
    decreases tz,
{
    if tz > 0 && v.tile(x, y, tz - 1) is Air {
        lemma_landing_is_air(v, x, y, (tz - 1) as nat);
    }
}

/// The tiles that the instant-fall step writes were Air or the falling water itself,
/// so every tile that was neither keeps its value.
proof fn lemma_drop_step_frame(v: WorldView, x: int, y: int, z: int, x2: int, y2: int, z2: int)
    requires
        v.wf(),
        v.in_bounds(x, y, z),
        z >= 1,
        v.in_bounds(x2, y2, z2),
        !(v.tile(x2, y2, z2) is Air),
        (x2, y2, z2) != (x, y, z),
    ensures
        drop_step(v, x, y, z).tile(x2, y2, z2) == v.tile(x2, y2, z2),
{
    if v.tile(x, y, z) is Water && v.tile(x, y, z - 1) is Air {
        lemma_landing_is_air(v, x, y, (z - 1) as nat);
        let tz = landing_z(v, x, y, (z - 1) as nat) as int;
        assert(v.in_bounds(x, y, tz));
        lemma_in_bounds_addressable(v, x, y, tz);
        lemma_in_bounds_addressable(v, x, y, z);
        lemma_in_bounds_addressable(v, x2, y2, z2);
        if v.idx(x, y, tz) == v.idx(x2, y2, z2) {
            lemma_idx_injective(v, x, y, tz, x2, y2, z2);
        }
        if v.idx(x, y, z) == v.idx(x2, y2, z2) {
            lemma_idx_injective(v, x, y, z, x2, y2, z2);
        }
    }
}

pub open spec fn solids_and_sources_kept(init: WorldView, s: WorldView) -> bool {
    &&& s.wf()
    &&& s.width == init.width && s.depth == init.depth && s.height == init.height
    &&& forall|x: int, y: int, z: int|
        #![trigger s.tile(x, y, z)]
        init.in_bounds(x, y, z) && is_solid_spec(init.tile(x, y, z)) ==> s.tile(x, y, z) == init.tile(
            x,
            y,
            z,
        )
    &&& forall|x: int, y: int, z: int|
        #![trigger s.tile(x, y, z)]
        init.in_bounds(x, y, z) && (init.tile(x, y, z) matches Tile::Water { is_source, .. }
            && is_source) ==> (s.tile(x, y, z) matches Tile::Water { is_source, .. } && is_source)
}

/// Gravity moves only water: every solid tile stays as it was, and every water source
/// is still a water source afterwards.
pub proof fn lemma_gravity_keeps_solids_and_sources(v: WorldView)
    requires
        v.wf(),
    ensures
        solids_and_sources_kept(v, drop_pass(v)),
{
    let p = |s: WorldView| solids_and_sources_kept(v, s);
    let n = (if v.height >= 1 { v.height - 1 } else { 0 }) as nat;
    assert forall|t: WorldView, x: int, y: int, z: int|
        0 <= x < v.width && 0 <= y < v.depth && 1 <= z < 1 + n && p(t) implies p(
        #[trigger] drop_fn()(t, x, y, z),
    ) by {
        let t2 = drop_step(t, x, y, z);
        assert(t.in_bounds(x, y, z));
        lemma_in_bounds_addressable(t, x, y, z);
        assert(drop_fn()(t, x, y, z) == t2);
        assert(solids_and_sources_kept(v, t));
        if t.tile(x, y, z) is Water && t.tile(x, y, z - 1) is Air {
            lemma_landing_is_air(t, x, y, (z - 1) as nat);
            let tz = landing_z(t, x, y, (z - 1) as nat) as int;
            assert(t.in_bounds(x, y, tz));
            lemma_in_bounds_addressable(t, x, y, tz);
        }
        assert(t2.wf());
        assert forall|x2: int, y2: int, z2: int|
            #![trigger t2.tile(x2, y2, z2)]
            v.in_bounds(x2, y2, z2) && is_solid_spec(v.tile(x2, y2, z2)) implies t2.tile(x2, y2, z2)
            == v.tile(x2, y2, z2) by {
            assert(t.tile(x2, y2, z2) == v.tile(x2, y2, z2));
            if (x2, y2, z2) == (x, y, z) {
            } else {
                lemma_drop_step_frame(t, x, y, z, x2, y2, z2);
            }
        }
        assert forall|x2: int, y2: int, z2: int|
            #![trigger t2.tile(x2, y2, z2)]
            v.in_bounds(x2, y2, z2) && (v.tile(x2, y2, z2) matches Tile::Water { is_source, .. }
                && is_source) implies (t2.tile(x2, y2, z2) matches Tile::Water { is_source, .. }
            && is_source) by {
            assert(t.tile(x2, y2, z2) matches Tile::Water { is_source, .. } && is_source);
            if (x2, y2, z2) == (x, y, z) {
                if t.tile(x, y, z - 1) is Air {
                    lemma_landing_is_air(t, x, y, (z - 1) as nat);
                    let tz = landing_z(t, x, y, (z - 1) as nat) as int;
                    assert(t.in_bounds(x, y, tz));
                    lemma_in_bounds_addressable(t, x, y, tz);
                    if t.idx(x, y, tz) == t.idx(x, y, z) {
                        lemma_idx_injective(t, x, y, tz, x, y, z);
                    }
                }
            } else {
                lemma_drop_step_frame(t, x, y, z, x2, y2, z2);
            }
        }
        assert(solids_and_sources_kept(v, t2));
    }
    lemma_up_keeps(v, drop_fn(), p, v.width, v.depth, 1, n);
}

} // verus!
