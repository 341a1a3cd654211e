use vstd::prelude::*;
use crate::tile::{Tile, FlowDir, is_solid_spec};
use crate::world::{World, WorldView};

verus! {

/// What a source does to its cell: Air becomes a fresh source; water becomes a source
/// that keeps its sediment, velocity and direction; anything else stays.
pub open spec fn source_tile(t: Tile) -> Tile {
    match t {
        Tile::Air => Tile::Water {
            is_source: true,
            sediment: 0,
            velocity: 0,
            direction: FlowDir::Still,
        },
        Tile::Water { sediment, velocity, direction, .. } => Tile::Water {
            is_source: true,
            sediment,
            velocity,
            direction,
        },
        _ => t,
    }
}

pub open spec fn source_index(v: WorldView, s: (usize, usize, usize)) -> int {
    v.idx(s.0 as int, s.1 as int, s.2 as int)
}

/// The world after the first `n` sources of `sources` have been applied, in order.
pub open spec fn sources_applied(v: WorldView, sources: Seq<(usize, usize, usize)>, n: nat) -> WorldView
    decreases n,
{
    if n == 0 {
        v
    } else {
        let prev = sources_applied(v, sources, (n - 1) as nat);
        let i = source_index(prev, sources[n - 1]);
        prev.set_tile_at(i, source_tile(prev.tiles[i]))
    }
}

/// Every source position can be addressed.
pub open spec fn sources_addressable(v: WorldView, sources: Seq<(usize, usize, usize)>) -> bool {
    forall|k: int|
        0 <= k < sources.len() ==> v.addressable(
            #[trigger] sources[k].0 as int,
            sources[k].1 as int,
            sources[k].2 as int,
        )
}

/// Re-creates water at every source position: Air there becomes a fresh source, water
/// there is marked as a source, and solid tiles are left alone.
pub fn pass_source(world: &mut World, sources: &[(usize, usize, usize)])
    requires
        old(world).wf(),
        sources_addressable(old(world)@, sources@),
    ensures
        final(world).wf(),
        final(world)@ == sources_applied(old(world)@, sources@, sources@.len()),
{
    let ghost init = world@;
    let n = sources.len();
    let mut k: usize = 0;
    while k < n
        invariant
            world.wf(),
            n == sources@.len(),
            k <= n,
            world@ == sources_applied(init, sources@, k as nat),
            world@.width == init.width,
            world@.depth == init.depth,
            world@.height == init.height,
            sources_addressable(init, sources@),
        decreases n - k,
    {
        let (x, y, z) = sources[k];
        assert(init.addressable(sources@[k as int].0 as int, sources@[k as int].1 as int, sources@[k as int].2 as int));
        let tile = world.get(x, y, z);
        match tile {
            Tile::Air => {
                world.set(x, y, z, Tile::water_source());
            },
            Tile::Water { sediment, velocity, direction, .. } => {
                world.set(x, y, z, Tile::Water { is_source: true, sediment, velocity, direction });
            },
            _ => {},
        }
        proof {
            let prev = sources_applied(init, sources@, k as nat);
            let i = source_index(prev, sources@[k as int]);
            assert(world@.tiles =~= prev.set_tile_at(i, source_tile(prev.tiles[i])).tiles);
        }
        k += 1;
    }
}

/// Applying sources never changes the size of the world or anything but its tiles.
proof fn lemma_sources_frame(v: WorldView, sources: Seq<(usize, usize, usize)>, n: nat)
    requires
        v.wf(),
        sources_addressable(v, sources),
        n <= sources.len(),
    ensures
        sources_applied(v, sources, n) == (WorldView { tiles: sources_applied(v, sources, n).tiles, ..v }),
        sources_applied(v, sources, n).wf(),
    decreases n,
{
    if n > 0 {
        lemma_sources_frame(v, sources, (n - 1) as nat);
        let k = n - 1;
        assert(v.addressable(sources[k].0 as int, sources[k].1 as int, sources[k].2 as int));
    }
}

/// After the source pass, each listed source cell holds a water source, unless it held
/// a solid tile, which stays as it was.
pub proof fn lemma_sources_present(v: WorldView, sources: Seq<(usize, usize, usize)>)
    requires
        v.wf(),
        sources_addressable(v, sources),
    ensures
        forall|k: int|
            #![trigger sources[k]]
            0 <= k < sources.len() ==> {
                let i = source_index(v, sources[k]);
                let after = sources_applied(v, sources, sources.len()).tiles[i];
                if is_solid_spec(v.tiles[i]) {
                    after == v.tiles[i]
                } else {
                    after matches Tile::Water { is_source, .. } && is_source
                }
            },
{
    lemma_sources_present_upto(v, sources, sources.len());
}

proof fn lemma_sources_present_upto(v: WorldView, sources: Seq<(usize, usize, usize)>, n: nat)
    requires
        v.wf(),
        sources_addressable(v, sources),
        n <= sources.len(),
    ensures
        forall|k: int|
            #![trigger sources[k]]
            0 <= k < n ==> {
                let i = source_index(v, sources[k]);
                let after = sources_applied(v, sources, n).tiles[i];
                if is_solid_spec(v.tiles[i]) {
                    after == v.tiles[i]
                } else {
                    after matches Tile::Water { is_source, .. } && is_source
                }
            },
        forall|i: int|
            0 <= i < v.size() ==> (is_solid_spec(v.tiles[i]) <==> is_solid_spec(
                #[trigger] sources_applied(v, sources, n).tiles[i],
            )),
        forall|i: int|
            0 <= i < v.size() && is_solid_spec(v.tiles[i]) ==> #[trigger] sources_applied(
                v,
                sources,
                n,
            ).tiles[i] == v.tiles[i],
    decreases n,
{
    if n > 0 {
        lemma_sources_present_upto(v, sources, (n - 1) as nat);
        lemma_sources_frame(v, sources, (n - 1) as nat);
        let prev = sources_applied(v, sources, (n - 1) as nat);
        let j = source_index(prev, sources[n - 1]);
        assert(v.addressable(sources[n - 1].0 as int, sources[n - 1].1 as int, sources[n - 1].2 as int));
        assert forall|k: int|
            #![trigger sources[k]]
            0 <= k < n implies {
                let i = source_index(v, sources[k]);
                let after = sources_applied(v, sources, n).tiles[i];
                if is_solid_spec(v.tiles[i]) {
                    after == v.tiles[i]
                } else {
                    after matches Tile::Water { is_source, .. } && is_source
                }
            } by {
            assert(v.addressable(sources[k].0 as int, sources[k].1 as int, sources[k].2 as int));
        }
    }
}

/// After the sources have been applied, the tile at every listed source is one that
/// applying its source again leaves as it is.
proof fn lemma_sources_fixed(v: WorldView, sources: Seq<(usize, usize, usize)>, n: nat)
    requires
        v.wf(),
        sources_addressable(v, sources),
        n <= sources.len(),
    ensures
        forall|k: int|
            #![trigger sources[k]]
            0 <= k < n ==> {
                let a = sources_applied(v, sources, n);
                let i = source_index(v, sources[k]);
                source_tile(a.tiles[i]) == a.tiles[i]
            },
    decreases n,
{
    if n > 0 {
        lemma_sources_fixed(v, sources, (n - 1) as nat);
        lemma_sources_frame(v, sources, (n - 1) as nat);
        assert(v.addressable(sources[n - 1].0 as int, sources[n - 1].1 as int, sources[n - 1].2 as int));
        assert forall|k: int|
            #![trigger sources[k]]
            0 <= k < n implies {
                let a = sources_applied(v, sources, n);
                let i = source_index(v, sources[k]);
                source_tile(a.tiles[i]) == a.tiles[i]
            } by {
            assert(v.addressable(sources[k].0 as int, sources[k].1 as int, sources[k].2 as int));
        }
    }
}

/// Applying the sources to a world where each of them is already a fixed point changes
/// nothing.
proof fn lemma_sources_settled(a: WorldView, sources: Seq<(usize, usize, usize)>, n: nat)
    requires
        a.wf(),
        sources_addressable(a, sources),
        n <= sources.len(),
        forall|k: int|
            #![trigger sources[k]]
            0 <= k < sources.len() ==> source_tile(a.tiles[source_index(a, sources[k])]) == a.tiles[source_index(
                a,
                sources[k],
            )],
    ensures
        sources_applied(a, sources, n) == a,
    decreases n,
{
    if n > 0 {
        lemma_sources_settled(a, sources, (n - 1) as nat);
        let i = source_index(a, sources[n - 1]);
        assert(a.addressable(sources[n - 1].0 as int, sources[n - 1].1 as int, sources[n - 1].2 as int));
        assert(a.tiles.update(i, source_tile(a.tiles[i])) =~= a.tiles);
    }
}

/// The source pass is idempotent: running it a second time with the same sources
/// changes nothing.
pub proof fn lemma_pass_source_idempotent(v: WorldView, sources: Seq<(usize, usize, usize)>)
    requires
        v.wf(),
        sources_addressable(v, sources),
    ensures
        sources_applied(sources_applied(v, sources, sources.len()), sources, sources.len())
            == sources_applied(v, sources, sources.len()),
{
    let a = sources_applied(v, sources, sources.len());
    lemma_sources_frame(v, sources, sources.len());
    lemma_sources_fixed(v, sources, sources.len());
    assert forall|k: int| 0 <= k < sources.len() implies #[trigger] a.addressable(
        sources[k].0 as int,
        sources[k].1 as int,
        sources[k].2 as int,
    ) by {
        assert(v.addressable(sources[k].0 as int, sources[k].1 as int, sources[k].2 as int));
    }
    assert(sources_addressable(a, sources));
    lemma_sources_settled(a, sources, sources.len());
}

} // verus!
