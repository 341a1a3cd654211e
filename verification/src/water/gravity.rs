use vstd::prelude::*;
use crate::tile::{FlowDir, Tile};
use crate::world::{World, WorldView, lemma_in_bounds_addressable};
use crate::sweep::{sweep_row, sweep_layer, sweep_up};

verus! {

broadcast use lemma_in_bounds_addressable;

/// The velocity of water after one more cell of free fall: one more, at most 7 (the
/// increment wraps around at 255, as `u8` arithmetic does in a release build).
pub open spec fn fall_velocity(v: u8) -> u8 {
    let inc = vstd::wrapping::u8_specs::wrapping_add(v, 1);
    if inc < 7 {
        inc
    } else {
        7
    }
}

/// What the one-cell gravity step does at cell (x, y, z): water with Air directly below
/// moves down one cell, moving Down with one more velocity (at most 7) and its
/// sediment; a source stays a fresh source, other water leaves Air.
pub open spec fn fall_step(v: WorldView, x: int, y: int, z: int) -> WorldView {
    match v.tile(x, y, z) {
        Tile::Water { is_source, sediment, velocity, .. } => {
            if v.tile(x, y, z - 1) is Air {
                let v1 = v.set_tile(
                    x,
                    y,
                    z - 1,
                    Tile::Water {
                        is_source: false,
                        sediment,
                        velocity: fall_velocity(velocity),
                        direction: FlowDir::Down,
                    },
                );
                v1.set_tile(
                    x,
                    y,
                    z,
                    if is_source {
                        Tile::Water {
                            is_source: true,
                            sediment: 0,
                            velocity: 0,
                            direction: FlowDir::Still,
                        }
                    } else {
                        Tile::Air
                    },
                )
            } else {
                v
            }
        },
        _ => v,
    }
}

pub open spec fn fall_fn() -> spec_fn(WorldView, int, int, int) -> WorldView {
    |v: WorldView, x: int, y: int, z: int| fall_step(v, x, y, z)
}

/// The one-cell gravity pass: `fall_step` on every cell, layers from 1 up to the top,
/// each layer row by row.
pub open spec fn fall_pass(v: WorldView) -> WorldView {
    sweep_up(v, fall_fn(), v.width, v.depth, 1, (if v.height >= 1 {
        v.height - 1
    } else {
        0
    }) as nat)
}

fn fall_cell(world: &mut World, x: usize, y: usize, z: usize)
    requires
        old(world).wf(),
        old(world)@.in_bounds(x as int, y as int, z as int),
        z >= 1,
    ensures
        final(world).wf(),
        final(world)@ == fall_step(old(world)@, x as int, y as int, z as int),
{
    let tile = world.get(x, y, z);
    if let Tile::Water { is_source, sediment, velocity, .. } = tile {
        let below = world.get(x, y, z - 1);
        if below.is_air() {
            let inc = velocity.wrapping_add(1);
            let new_vel = if inc < 7 {
                inc
            } else {
                7
            };
            world.set(
                x,
                y,
                z - 1,
                Tile::Water { is_source: false, sediment, velocity: new_vel, direction: FlowDir::Down },
            );
            if is_source {
                world.set(x, y, z, Tile::water_source());
            } else {
                world.set(x, y, z, Tile::Air);
            }
        }
    }
}

/// Moves every falling water tile down by one cell, bottom layers first so that water
/// moves at most one cell per pass; falling water speeds up.
pub fn pass_gravity(world: &mut World)
    requires
        old(world).wf(),
    ensures
        final(world).wf(),
        final(world)@.sources == old(world)@.sources,
        final(world)@.width == old(world)@.width,
        final(world)@.depth == old(world)@.depth,
        final(world)@.height == old(world)@.height,
        final(world)@ == fall_pass(old(world)@),
{
    let w = world.width();
    let d = world.depth();
    let h = world.height();
    let ghost init = world@;
    let mut z: usize = 1;
    while z < h
        invariant
            world.wf(),
            world@.width == w,
            world@.depth == d,
            world@.height == h,
            world@.sources == init.sources,
            init.width == w,
            init.depth == d,
            init.height == h,
            1 <= z,
            h >= 1 ==> z <= h,
            h == 0 ==> z == 1,
            world@ == sweep_up(init, fall_fn(), w as nat, d as nat, 1, (z - 1) as nat),
        decreases h - z,
    {
        let ghost sz = world@;
        let mut y: usize = 0;
        while y < d
            invariant
                world.wf(),
                world@.width == w,
                world@.depth == d,
                world@.height == h,
                world@.sources == init.sources,
                1 <= z < h,
                y <= d,
                world@ == sweep_layer(sz, fall_fn(), z as int, w as nat, y as nat),
            decreases d - y,
        {
            let ghost sy = world@;
            let mut x: usize = 0;
            while x < w
                invariant
                    world.wf(),
                    world@.width == w,
                    world@.depth == d,
                    world@.height == h,
                    world@.sources == init.sources,
                    1 <= z < h,
                    y < d,
                    x <= w,
                    world@ == sweep_row(sy, fall_fn(), y as int, z as int, x as nat),
                decreases w - x,
            {
                fall_cell(world, x, y, z);
                x += 1;
            }
            y += 1;
        }
        z += 1;
    }
}

} // verus!
