pub mod hash;
pub mod gravity;
pub mod source;
pub mod spread;
pub mod erosion;
pub mod flow;
pub mod mass_erosion;
pub mod mass_evaporation;
pub mod groundwater;
pub mod weather;
pub mod cellular;
pub mod conservation;

use vstd::prelude::*;
use crate::world::{World, WorldView};
use crate::tile::{packed, Tile, is_solid_spec};
use crate::world::gravity::{pass_gravity as pass_drop, drop_pass, lemma_gravity_keeps_solids_and_sources};
use crate::water::source::{pass_source, sources_applied, sources_addressable, source_index, lemma_sources_present};
use crate::water::spread::{pass_spread, spread_pass, lemma_spread_keeps_water};
use crate::water::erosion::{pass_erosion_with_seed, erosion_pass, lemma_erosion_keeps_stone};
use crate::water::flow::{pass_flow_with_seed, flow_pass};
use crate::water::mass_erosion::mass_erosion_pass;
use crate::water::mass_evaporation::{pass_evaporation_with_seed, evaporation_pass, lemma_evaporation_frame};

verus! {

/// The world with its export cache brought up to date.
pub open spec fn synced(v: WorldView) -> WorldView {
    WorldView { tiles_cache: Seq::new(v.size(), |i: int| packed(v.tiles[i])), ..v }
}

/// One tick of the tile-based water model: gravity, sideways spread, erosion and
/// deposition (its rolls seeded by `erosion_seed`), evaporation (seeded by
/// `evap_seed`), then every source is refilled, and the export cache is synced.
pub open spec fn tick_spec(v: WorldView, erosion_seed: u64, evap_seed: u64) -> WorldView {
    let a = drop_pass(v);
    let b = spread_pass(a);
    let c = erosion_pass(b, erosion_seed);
    let d = evaporation_pass(c, v.sources, evap_seed);
    let e = sources_applied(d, v.sources, v.sources.len());
    synced(e)
}

/// Runs one tick of the tile-based water model (see `tick_spec`).
pub fn tick(world: &mut World, erosion_seed: u64, evap_seed: u64)
    requires
        old(world).wf(),
        sources_addressable(old(world)@, old(world)@.sources),
    ensures
        final(world).wf(),
        final(world)@ == tick_spec(old(world)@, erosion_seed, evap_seed),
{
    let ghost v = world@;
    pass_drop(world);
    pass_spread(world);
    pass_erosion_with_seed(world, erosion_seed);
    let sources = world.sources_vec();
    pass_evaporation_with_seed(world, &sources, evap_seed);
    assert(sources_addressable(world@, sources@));
    pass_source(world, &sources);
    world.sync_tiles_cache();
}

/// Every listed source cell gets `amount` more water mass, saturating at 255, in order.
pub open spec fn replenished(v: WorldView, sources: Seq<(usize, usize, usize)>, amount: u8, n: nat) -> WorldView
    decreases n,
{
    if n == 0 {
        v
    } else {
        let prev = replenished(v, sources, amount, (n - 1) as nat);
        let i = source_index(prev, sources[n - 1]);
        let m = prev.water_mass[i];
        prev.set_mass_at(i, if m + amount > 255 {
            255
        } else {
            (m + amount) as u8
        })
    }
}

/// Adds `amount` of water mass at every source position (saturating at 255).
pub fn replenish_sources(world: &mut World, sources: &[(usize, usize, usize)], amount: u8)
    requires
        old(world).wf(),
        sources_addressable(old(world)@, sources@),
    ensures
        final(world).wf(),
        final(world)@ == replenished(old(world)@, sources@, amount, sources@.len()),
{
    let ghost init = world@;
    let mut k: usize = 0;
    while k < sources.len()
        invariant
            world.wf(),
            k <= sources@.len(),
            world@ == replenished(init, sources@, amount, k as nat),
            world@.width == init.width,
            world@.depth == init.depth,
            world@.height == init.height,
            sources_addressable(init, sources@),
        decreases sources.len() - k,
    {
        let (sx, sy, sz) = sources[k];
        assert(init.addressable(sources@[k as int].0 as int, sources@[k as int].1 as int, sources@[k as int].2 as int));
        let idx = world.index(sx, sy, sz);
        let m = world.mass_at(idx);
        world.set_mass_at(idx, m.saturating_add(amount));
        k += 1;
    }
}

/// One tick of the mass-based water model: gravity on water tiles, mass flow (its
/// sediment rolls seeded by `flow_seed`), every source gains 50 mass, erosion and
/// deposition (seeded by `erosion_seed`), evaporation (seeded by `evap_seed`; sources
/// do not evaporate), and the export cache is synced. Each pass has its own seed, so
/// that a pass run on its own and within a tick draws from one sequence of rolls.
pub open spec fn tick_mass_spec(v: WorldView, flow_seed: u64, erosion_seed: u64, evap_seed: u64) -> WorldView {
    let a = drop_pass(v);
    let b = flow_pass(a, flow_seed);
    let c = replenished(b, v.sources, 50, v.sources.len());
    let d = mass_erosion_pass(c, erosion_seed);
    let e = evaporation_pass(d, v.sources, evap_seed);
    synced(e)
}

/// Runs one tick of the mass-based water model (see `tick_mass_spec`).
pub fn tick_mass(world: &mut World, flow_seed: u64, erosion_seed: u64, evap_seed: u64)
    requires
        old(world).wf(),
        sources_addressable(old(world)@, old(world)@.sources),
    ensures
        final(world).wf(),
        final(world)@ == tick_mass_spec(old(world)@, flow_seed, erosion_seed, evap_seed),
{
    pass_drop(world);
    pass_flow_with_seed(world, flow_seed);
    let sources = world.sources_vec();
    replenish_sources(world, &sources, 50);
    crate::water::mass_erosion::pass_erosion_with_seed(world, erosion_seed);
    pass_evaporation_with_seed(world, &sources, evap_seed);
    world.sync_tiles_cache();
}

/// Every tick refills the sources: afterwards each listed source position holds source
/// water, unless a solid tile stands there.
pub proof fn lemma_tick_refills_sources(v: WorldView, erosion_seed: u64, evap_seed: u64)
    requires
        v.wf(),
        sources_addressable(v, v.sources),
    ensures
        forall|k: int|
            #![trigger v.sources[k]]
            0 <= k < v.sources.len() ==> {
                let t = tick_spec(v, erosion_seed, evap_seed).tiles[source_index(v, v.sources[k])];
                is_solid_spec(t) || (t matches Tile::Water { is_source, .. } && is_source)
            },
{
    let a = drop_pass(v);
    lemma_gravity_keeps_solids_and_sources(v);
    let b = spread_pass(a);
    lemma_spread_keeps_water(a);
    let c = erosion_pass(b, erosion_seed);
    lemma_erosion_keeps_stone(b, erosion_seed);
    let d = evaporation_pass(c, v.sources, evap_seed);
    lemma_evaporation_frame(c, v.sources, evap_seed);
    assert forall|k: int| 0 <= k < v.sources.len() implies #[trigger] d.addressable(
        v.sources[k].0 as int,
        v.sources[k].1 as int,
        v.sources[k].2 as int,
    ) by {
        assert(v.addressable(v.sources[k].0 as int, v.sources[k].1 as int, v.sources[k].2 as int));
    }
    assert(sources_addressable(d, v.sources));
    lemma_sources_present(d, v.sources);
    assert forall|k: int|
        #![trigger v.sources[k]]
        0 <= k < v.sources.len() implies {
            let t = tick_spec(v, erosion_seed, evap_seed).tiles[source_index(v, v.sources[k])];
            is_solid_spec(t) || (t matches Tile::Water { is_source, .. } && is_source)
        } by {
        assert(source_index(d, v.sources[k]) == source_index(v, v.sources[k]));
        assert(v.addressable(v.sources[k].0 as int, v.sources[k].1 as int, v.sources[k].2 as int));
    }
}

} // verus!
