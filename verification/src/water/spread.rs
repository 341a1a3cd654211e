use vstd::prelude::*;
use crate::tile::{FlowDir, Tile};
use crate::world::{World, WorldView, lemma_in_bounds_addressable};
use crate::sweep::{sweep_row, sweep_layer, sweep_down, lemma_down_keeps};

verus! {

broadcast use lemma_in_bounds_addressable;

/// A horizontal neighbor that water could spread into.
#[derive(Clone, Copy)]
pub struct Candidate {
    pub dir: FlowDir,
    pub nx: usize,
    pub ny: usize,
    /// The neighbor has Air below it, so water moved there would fall.
    pub drop: bool,
}

/// Whether water at layer z may spread to column (nx, ny): the cell there is Air.
pub open spec fn can_spread_to_spec(v: WorldView, nx: int, ny: int, z: int) -> bool {
    v.tile(nx, ny, z) is Air
}

/// Whether column (nx, ny) has Air below layer z.
pub open spec fn has_drop_spec(v: WorldView, nx: int, ny: int, z: int) -> bool {
    z > 0 && v.tile(nx, ny, z - 1) is Air
}

/// The neighbor in direction `dir` of column (x, y), if it lies within the world.
pub open spec fn neighbor(v: WorldView, x: int, y: int, dir: FlowDir) -> Option<(usize, usize)> {
    match dir {
        FlowDir::North => if y > 0 {
            Some((x as usize, (y - 1) as usize))
        } else {
            None
        },
        FlowDir::South => if y + 1 < v.depth {
            Some((x as usize, (y + 1) as usize))
        } else {
            None
        },
        FlowDir::East => if x + 1 < v.width {
            Some(((x + 1) as usize, y as usize))
        } else {
            None
        },
        FlowDir::West => if x > 0 {
            Some(((x - 1) as usize, y as usize))
        } else {
            None
        },
        _ => None,
    }
}

/// The directions in the order in which neighbors are considered.
pub open spec fn spread_order() -> Seq<FlowDir> {
    seq![FlowDir::North, FlowDir::South, FlowDir::East, FlowDir::West]
}

/// The candidates among the first `n` directions of `spread_order()`: neighbors within
/// the world whose cell at layer z is Air, in that order.
pub open spec fn candidates_upto(v: WorldView, x: int, y: int, z: int, n: nat) -> Seq<Candidate>
    decreases n,
{
    if n == 0 {
        Seq::empty()
    } else {
        let prev = candidates_upto(v, x, y, z, (n - 1) as nat);
        let dir = spread_order()[n - 1];
        match neighbor(v, x, y, dir) {
            Some((nx, ny)) => if can_spread_to_spec(v, nx as int, ny as int, z) {
                prev.push(
                    Candidate { dir, nx, ny, drop: has_drop_spec(v, nx as int, ny as int, z) },
                )
            } else {
                prev
            },
            None => prev,
        }
    }
}

pub open spec fn candidates(v: WorldView, x: int, y: int, z: int) -> Seq<Candidate> {
    candidates_upto(v, x, y, z, 4)
}

/// The position of the first candidate that satisfies `p`, if there is one.
pub open spec fn first_where(cs: Seq<Candidate>, p: spec_fn(Candidate) -> bool) -> Option<int>
    decreases cs.len(),
{
    if cs.len() == 0 {
        None
    } else if p(cs[0]) {
        Some(0)
    } else {
        match first_where(cs.drop_first(), p) {
            Some(i) => Some(i + 1),
            None => None,
        }
    }
}

pub open spec fn as_target(cs: Seq<Candidate>, i: Option<int>) -> Option<(FlowDir, usize, usize)> {
    match i {
        Some(k) => Some((cs[k].dir, cs[k].nx, cs[k].ny)),
        None => None,
    }
}

/// The neighbor water at (x, y, z) moving in `current` spreads to:
/// - just landed (`Down`): the first candidate with a drop, else the first candidate;
/// - stagnant (`Still`): the first candidate with a drop, else none;
/// - moving horizontally: the candidate straight ahead, else the first candidate with
///   a drop, else none.
pub open spec fn pick_target_spec(v: WorldView, x: int, y: int, z: int, current: FlowDir) -> Option<
    (FlowDir, usize, usize),
> {
    let cs = candidates(v, x, y, z);
    let with_drop = first_where(cs, |c: Candidate| c.drop);
    if cs.len() == 0 {
        None
    } else {
        match current {
            FlowDir::Down => if with_drop is Some {
                as_target(cs, with_drop)
            } else {
                as_target(cs, Some(0))
            },
            FlowDir::Still => as_target(cs, with_drop),
            _ => {
                let ahead = first_where(cs, |c: Candidate| c.dir == current);
                if ahead is Some {
                    as_target(cs, ahead)
                } else {
                    as_target(cs, with_drop)
                }
            },
        }
    }
}

proof fn lemma_first_where_bounds(cs: Seq<Candidate>, p: spec_fn(Candidate) -> bool)
    ensures
        first_where(cs, p) matches Some(i) ==> 0 <= i < cs.len() && p(cs[i]),
        first_where(cs, p) is None ==> forall|k: int| 0 <= k < cs.len() ==> !p(#[trigger] cs[k]),
    decreases cs.len(),
{
    if cs.len() > 0 && !p(cs[0]) {
        lemma_first_where_bounds(cs.drop_first(), p);
        if first_where(cs, p) is None {
            assert forall|k: int| 0 <= k < cs.len() implies !p(#[trigger] cs[k]) by {
                if k > 0 {
                    assert(cs[k] == cs.drop_first()[k - 1]);
                }
            }
        }
    }
}

/// If no candidate before position `i` satisfies `p`, the first one that does is at
/// `i` (when `cs[i]` does) or beyond.
proof fn lemma_first_where_scan(cs: Seq<Candidate>, p: spec_fn(Candidate) -> bool, i: int)
    requires
        0 <= i <= cs.len(),
        forall|k: int| 0 <= k < i ==> !p(#[trigger] cs[k]),
    ensures
        i < cs.len() && p(cs[i]) ==> first_where(cs, p) == Some(i),
        i == cs.len() ==> first_where(cs, p) is None,
    decreases i,
{
    if i > 0 {
        let rest = cs.drop_first();
        assert forall|k: int| 0 <= k < i - 1 implies !p(#[trigger] rest[k]) by {
            assert(rest[k] == cs[k + 1]);
        }
        lemma_first_where_scan(rest, p, i - 1);
        assert(!p(cs[0]));
        if i < cs.len() {
            assert(rest[i - 1] == cs[i]);
        }
    }
}

/// The first position in `cs` whose candidate has a drop (when `want_drop`) or goes in
/// direction `want_dir` (otherwise), found by a scan.
fn find_first(cs: &Vec<Candidate>, want_drop: bool, want_dir: FlowDir) -> (r: Option<usize>)
    ensures
        want_drop ==> r == (match first_where(cs@, |c: Candidate| c.drop) {
            Some(i) => Some(i as usize),
            None => None::<usize>,
        }),
        !want_drop ==> r == (match first_where(cs@, |c: Candidate| c.dir == want_dir) {
            Some(i) => Some(i as usize),
            None => None::<usize>,
        }),
{
    let ghost p: spec_fn(Candidate) -> bool = if want_drop {
        |c: Candidate| c.drop
    } else {
        |c: Candidate| c.dir == want_dir
    };
    let mut i: usize = 0;
    while i < cs.len()
        invariant
            i <= cs@.len(),
            forall|k: int| 0 <= k < i ==> !p(#[trigger] cs@[k]),
            p == (if want_drop {
                |c: Candidate| c.drop
            } else {
                |c: Candidate| c.dir == want_dir
            }),
        decreases cs.len() - i,
    {
        let c = cs[i];
        let hit = if want_drop {
            c.drop
        } else {
            c.dir == want_dir
        };
        assert(hit == p(c));
        if hit {
            proof {
                lemma_first_where_scan(cs@, p, i as int);
            }
            return Some(i);
        }
        i += 1;
    }
    proof {
        lemma_first_where_scan(cs@, p, i as int);
    }
    None
}

fn push_candidate(
    world: &World,
    cs: &mut Vec<Candidate>,
    dir: FlowDir,
    nx: usize,
    ny: usize,
    z: usize,
)
    requires
        world.wf(),
        world@.in_bounds(nx as int, ny as int, z as int),
    ensures
        final(cs)@ == if can_spread_to_spec(world@, nx as int, ny as int, z as int) {
            old(cs)@.push(
                Candidate { dir, nx, ny, drop: has_drop_spec(world@, nx as int, ny as int, z as int) },
            )
        } else {
            old(cs)@
        },
{
    if world.get(nx, ny, z).is_air() {
        let drop = z > 0 && world.get(nx, ny, z - 1).is_air();
        cs.push(Candidate { dir, nx, ny, drop });
    }
}

/// Picks the horizontal neighbor of (x, y, z) that water moving in `current_dir`
/// spreads to (see `pick_target_spec`).
pub fn pick_target(world: &World, x: usize, y: usize, z: usize, current_dir: FlowDir) -> (r: Option<
    (FlowDir, usize, usize),
>)
    requires
        world.wf(),
        world@.in_bounds(x as int, y as int, z as int),
    ensures
        r == pick_target_spec(world@, x as int, y as int, z as int, current_dir),
{
    let w = world.width();
    let d = world.depth();
    let ghost v = world@;
    let mut cs: Vec<Candidate> = Vec::new();
    assert(cs@ == candidates_upto(v, x as int, y as int, z as int, 0));
    if y > 0 {
        push_candidate(world, &mut cs, FlowDir::North, x, y - 1, z);
    }
    assert(cs@ == candidates_upto(v, x as int, y as int, z as int, 1));
    if y + 1 < d {
        push_candidate(world, &mut cs, FlowDir::South, x, y + 1, z);
    }
    assert(cs@ == candidates_upto(v, x as int, y as int, z as int, 2));
    if x + 1 < w {
        push_candidate(world, &mut cs, FlowDir::East, x + 1, y, z);
    }
    assert(cs@ == candidates_upto(v, x as int, y as int, z as int, 3));
    if x > 0 {
        push_candidate(world, &mut cs, FlowDir::West, x - 1, y, z);
    }
    assert(cs@ == candidates(v, x as int, y as int, z as int));
    if cs.len() == 0 {
        return None;
    }
    let with_drop = find_first(&cs, true, FlowDir::Still);
    proof {
        lemma_first_where_bounds(cs@, |c: Candidate| c.drop);
        lemma_first_where_bounds(cs@, |c: Candidate| c.dir == current_dir);
    }
    let chosen = match current_dir {
        FlowDir::Down => {
            match with_drop {
                Some(i) => Some(i),
                None => Some(0),
            }
        },
        FlowDir::Still => with_drop,
        _ => {
            let ahead = find_first(&cs, false, current_dir);
            match ahead {
                Some(i) => Some(i),
                None => with_drop,
            }
        },
    };
    match chosen {
        Some(i) => {
            let c = cs[i];
            Some((c.dir, c.nx, c.ny))
        },
        None => None,
    }
}

/// A move of water collected during the spread pass.
#[derive(Clone, Copy)]
pub struct SpreadMove {
    pub ox: usize,
    pub oy: usize,
    pub oz: usize,
    pub nx: usize,
    pub ny: usize,
    pub nz: usize,
    pub new_water: Tile,
}

/// Water that has stopped: no velocity, no direction.
pub open spec fn stagnant(sediment: u8) -> Tile {
    Tile::Water { is_source: false, sediment, velocity: 0, direction: FlowDir::Still }
}

/// Marks water with the given state stagnant, unless it already is.
pub open spec fn make_stagnant(v: WorldView, x: int, y: int, z: int, sediment: u8, velocity: u8, direction: FlowDir) -> WorldView {
    if velocity > 0 || direction != FlowDir::Still {
        v.set_tile(x, y, z, stagnant(sediment))
    } else {
        v
    }
}

/// What the collecting step of the spread pass does at (x, y, z). Water that can still
/// fall is left to gravity. Non-source water with no water above it (no pressure)
/// becomes stagnant. Source or pressured water picks a target as if it had just
/// landed and, if it finds one, queues a move there with one less velocity (at least
/// 1); if it finds none, non-source water becomes stagnant.
pub open spec fn collect_step(s: (WorldView, Seq<SpreadMove>), x: int, y: int, z: int) -> (
    WorldView,
    Seq<SpreadMove>,
) {
    let v = s.0;
    let ms = s.1;
    match v.tile(x, y, z) {
        Tile::Water { is_source, sediment, velocity, direction } => {
            if z > 0 && v.tile(x, y, z - 1) is Air {
                s
            } else {
                let pressured = z + 1 < v.height && v.tile(x, y, z + 1) is Water;
                if !is_source && !pressured {
                    (make_stagnant(v, x, y, z, sediment, velocity, direction), ms)
                } else {
                    match pick_target_spec(v, x, y, z, FlowDir::Down) {
                        Some((new_dir, nx, ny)) => {
                            let new_vel: u8 = if velocity > 1 {
                                (velocity - 1) as u8
                            } else {
                                1
                            };
                            (
                                v,
                                ms.push(
                                    SpreadMove {
                                        ox: x as usize,
                                        oy: y as usize,
                                        oz: z as usize,
                                        nx,
                                        ny,
                                        nz: z as usize,
                                        new_water: Tile::Water {
                                            is_source: false,
                                            sediment,
                                            velocity: new_vel,
                                            direction: new_dir,
                                        },
                                    },
                                ),
                            )
                        },
                        None => if !is_source {
                            (make_stagnant(v, x, y, z, sediment, velocity, direction), ms)
                        } else {
                            s
                        },
                    }
                }
            }
        },
        _ => s,
    }
}

pub open spec fn collect_fn() -> spec_fn((WorldView, Seq<SpreadMove>), int, int, int) -> (
    WorldView,
    Seq<SpreadMove>,
) {
    |s: (WorldView, Seq<SpreadMove>), x: int, y: int, z: int| collect_step(s, x, y, z)
}

/// Carries out one queued move: if its target is still Air and its origin still water,
/// the target gets the moved water and the origin becomes a fresh source (if it was a
/// source) or Air.
pub open spec fn apply_move(v: WorldView, m: SpreadMove) -> WorldView {
    if v.tile(m.nx as int, m.ny as int, m.nz as int) is Air && v.tile(
        m.ox as int,
        m.oy as int,
        m.oz as int,
    ) is Water {
        match v.tile(m.ox as int, m.oy as int, m.oz as int) {
            Tile::Water { is_source, .. } => {
                let v1 = v.set_tile(m.nx as int, m.ny as int, m.nz as int, m.new_water);
                v1.set_tile(
                    m.ox as int,
                    m.oy as int,
                    m.oz as int,
                    if is_source {
                        Tile::Water {
                            is_source: true,
                            sediment: 0,
                            velocity: 0,
                            direction: FlowDir::Still,
                        }
                    } else {
                        Tile::Air
                    },
                )
            },
            _ => v,
        }
    } else {
        v
    }
}

/// The world after the first `n` queued moves are carried out, in order.
pub open spec fn moves_applied(v: WorldView, ms: Seq<SpreadMove>, n: nat) -> WorldView
    decreases n,
{
    if n == 0 {
        v
    } else {
        apply_move(moves_applied(v, ms, (n - 1) as nat), ms[n - 1])
    }
}

/// The spread pass: collect moves over every cell (layers from the top down, each row
/// by row), then carry the moves out in the order they were collected.
pub open spec fn spread_pass(v: WorldView) -> WorldView {
    let collected = sweep_down(
        (v, Seq::<SpreadMove>::empty()),
        collect_fn(),
        v.width,
        v.depth,
        v.height as int,
        v.height,
    );
    moves_applied(collected.0, collected.1, collected.1.len())
}

/// Every queued move has both ends within the world.
pub open spec fn moves_in_bounds(v: WorldView, ms: Seq<SpreadMove>) -> bool {
    forall|k: int|
        0 <= k < ms.len() ==> {
            let m = #[trigger] ms[k];
            &&& m.ox < v.width && m.oy < v.depth && m.oz < v.height
            &&& m.nx < v.width && m.ny < v.depth && m.nz < v.height
        }
}

fn collect_cell(world: &mut World, moves: &mut Vec<SpreadMove>, x: usize, y: usize, z: usize)
    requires
        old(world).wf(),
        old(world)@.in_bounds(x as int, y as int, z as int),
        moves_in_bounds(old(world)@, old(moves)@),
    ensures
        final(world).wf(),
        (final(world)@, final(moves)@) == collect_step(
            (old(world)@, old(moves)@),
            x as int,
            y as int,
            z as int,
        ),
        moves_in_bounds(final(world)@, final(moves)@),
{
    let h = world.height();
    let tile = world.get(x, y, z);
    if let Tile::Water { is_source, sediment, velocity, direction } = tile {
        if z > 0 && world.get(x, y, z - 1).is_air() {
            return;
        }
        let has_water_above = z + 1 < h && world.get(x, y, z + 1).is_water();
        if !is_source && !has_water_above {
            if velocity > 0 || direction != FlowDir::Still {
                world.set(
                    x,
                    y,
                    z,
                    Tile::Water { is_source: false, sediment, velocity: 0, direction: FlowDir::Still },
                );
            }
            return;
        }
        let target = pick_target(world, x, y, z, FlowDir::Down);
        match target {
            Some((new_dir, nx, ny)) => {
                let new_vel: u8 = if velocity > 1 {
                    velocity - 1
                } else {
                    1
                };
                proof {
                    let cs = candidates(world@, x as int, y as int, z as int);
                    lemma_first_where_bounds(cs, |c: Candidate| c.drop);
                    lemma_candidates_in_bounds(world@, x as int, y as int, z as int, 4);
                    let wd = first_where(cs, |c: Candidate| c.drop);
                    let k: int = match wd {
                        Some(i) => i,
                        None => 0,
                    };
                    assert(cs[k].nx == nx && cs[k].ny == ny);
                    assert(world@.in_bounds(nx as int, ny as int, z as int));
                }
                moves.push(
                    SpreadMove {
                        ox: x,
                        oy: y,
                        oz: z,
                        nx,
                        ny,
                        nz: z,
                        new_water: Tile::Water {
                            is_source: false,
                            sediment,
                            velocity: new_vel,
                            direction: new_dir,
                        },
                    },
                );
            },
            None => {
                if !is_source {
                    if velocity > 0 || direction != FlowDir::Still {
                        world.set(
                            x,
                            y,
                            z,
                            Tile::Water {
                                is_source: false,
                                sediment,
                                velocity: 0,
                                direction: FlowDir::Still,
                            },
                        );
                    }
                }
            },
        }
    }
}

/// Every candidate lies within the world, at the layer of the water.
proof fn lemma_candidates_in_bounds(v: WorldView, x: int, y: int, z: int, n: nat)
    requires
        v.in_bounds(x, y, z),
        n <= 4,
    ensures
        forall|k: int|
            0 <= k < candidates_upto(v, x, y, z, n).len() ==> v.in_bounds(
                #[trigger] candidates_upto(v, x, y, z, n)[k].nx as int,
                candidates_upto(v, x, y, z, n)[k].ny as int,
                z,
            ),
    decreases n,
{
    if n > 0 {
        lemma_candidates_in_bounds(v, x, y, z, (n - 1) as nat);
    }
}

fn apply_one_move(world: &mut World, m: SpreadMove)
    requires
        old(world).wf(),
        old(world)@.in_bounds(m.ox as int, m.oy as int, m.oz as int),
        old(world)@.in_bounds(m.nx as int, m.ny as int, m.nz as int),
    ensures
        final(world).wf(),
        final(world)@ == apply_move(old(world)@, m),
{
    if world.get(m.nx, m.ny, m.nz).is_air() && world.get(m.ox, m.oy, m.oz).is_water() {
        let src = world.get(m.ox, m.oy, m.oz);
        if let Tile::Water { is_source, .. } = src {
            world.set(m.nx, m.ny, m.nz, m.new_water);
            if is_source {
                world.set(m.ox, m.oy, m.oz, Tile::water_source());
            } else {
                world.set(m.ox, m.oy, m.oz, Tile::Air);
            }
        }
    }
}

/// Spreads water sideways: source water and water under pressure (with water above it)
/// moves into a neighboring Air cell, preferring one where it can fall further; water
/// without pressure settles and stops.
pub fn pass_spread(world: &mut World)
    requires
        old(world).wf(),
    ensures
        final(world).wf(),
        final(world)@.sources == old(world)@.sources,
        final(world)@.width == old(world)@.width,
        final(world)@.depth == old(world)@.depth,
        final(world)@.height == old(world)@.height,
        final(world)@ == spread_pass(old(world)@),
{
    let w = world.width();
    let d = world.depth();
    let h = world.height();
    let ghost init = world@;
    let mut moves: Vec<SpreadMove> = Vec::new();
    let mut z = h;
    while z > 0
        invariant
            world.wf(),
            world@.width == w,
            world@.depth == d,
            world@.height == h,
            world@.sources == init.sources,
            init.width == w,
            init.depth == d,
            init.height == h,
            z <= h,
            (world@, moves@) == sweep_down(
                (init, Seq::<SpreadMove>::empty()),
                collect_fn(),
                w as nat,
                d as nat,
                h as int,
                (h - z) as nat,
            ),
            moves_in_bounds(world@, moves@),
        decreases z,
    {
        z -= 1;
        let ghost sz = (world@, moves@);
        let mut y: usize = 0;
        while y < d
            invariant
                world.wf(),
                world@.width == w,
                world@.depth == d,
                world@.height == h,
                world@.sources == init.sources,
                z < h,
                y <= d,
                (world@, moves@) == sweep_layer(sz, collect_fn(), z as int, w as nat, y as nat),
                moves_in_bounds(world@, moves@),
            decreases d - y,
        {
            let ghost sy = (world@, moves@);
            let mut x: usize = 0;
            while x < w
                invariant
                    world.wf(),
                    world@.width == w,
                    world@.depth == d,
                    world@.height == h,
                    world@.sources == init.sources,
                    z < h,
                    y < d,
                    x <= w,
                    (world@, moves@) == sweep_row(sy, collect_fn(), y as int, z as int, x as nat),
                    moves_in_bounds(world@, moves@),
                decreases w - x,
            {
                collect_cell(world, &mut moves, x, y, z);
                x += 1;
            }
            y += 1;
        }
    }
    let ghost collected = world@;
    assert(z == 0);
    assert((collected, moves@) == sweep_down(
        (init, Seq::<SpreadMove>::empty()),
        collect_fn(),
        init.width,
        init.depth,
        init.height as int,
        init.height,
    ));
    let n = moves.len();
    let mut k: usize = 0;
    while k < n
        invariant
            world.wf(),
            n == moves@.len(),
            k <= n,
            world@ == moves_applied(collected, moves@, k as nat),
            world@.width == w,
            world@.depth == d,
            world@.height == h,
            world@.sources == init.sources,
            collected.width == w,
            collected.depth == d,
            collected.height == h,
            moves_in_bounds(collected, moves@),
        decreases n - k,
    {
        let m = moves[k];
        apply_one_move(world, m);
        k += 1;
    }
    assert(world@ == moves_applied(collected, moves@, moves@.len()));
    assert(spread_pass(init) == moves_applied(collected, moves@, moves@.len()));
}

// ---------------------------------------------------------------------------
// What the spread pass does to the number of water tiles
// ---------------------------------------------------------------------------

/// Whether a tile is water.
pub open spec fn is_water_tile(t: Tile) -> bool {
    t is Water
}

/// Whether a tile is source water.
pub open spec fn is_source_tile(t: Tile) -> bool {
    t matches Tile::Water { is_source, .. } && is_source
}

/// The number of tiles of `s` that satisfy `p`.
pub open spec fn count_tiles(s: Seq<Tile>, p: spec_fn(Tile) -> bool) -> nat
    decreases s.len(),
{
    if s.len() == 0 {
        0
    } else {
        count_tiles(s.drop_last(), p) + (if p(s.last()) {
            1nat
        } else {
            0nat
        })
    }
}

pub proof fn lemma_count_tiles_update(s: Seq<Tile>, i: int, t: Tile, p: spec_fn(Tile) -> bool)
    requires
        0 <= i < s.len(),
    ensures
        count_tiles(s.update(i, t), p) + (if p(s[i]) {
            1int
        } else {
            0int
        }) == count_tiles(s, p) + (if p(t) {
            1int
        } else {
            0int
        }),
    decreases s.len(),
{
    let u = s.update(i, t);
    if i == s.len() - 1 {
        assert(u.drop_last() =~= s.drop_last());
    } else {
        assert(u.drop_last() =~= s.drop_last().update(i, t));
        lemma_count_tiles_update(s.drop_last(), i, t, p);
    }
}

/// The counts of water tiles and of source tiles after replacing tile `i`.
proof fn lemma_counts_after_set(s: Seq<Tile>, i: int, t: Tile)
    requires
        0 <= i < s.len(),
    ensures
        count_tiles(s.update(i, t), |u: Tile| is_water_tile(u)) + (if is_water_tile(s[i]) {
            1int
        } else {
            0int
        }) == count_tiles(s, |u: Tile| is_water_tile(u)) + (if is_water_tile(t) {
            1int
        } else {
            0int
        }),
        count_tiles(s.update(i, t), |u: Tile| is_source_tile(u)) + (if is_source_tile(s[i]) {
            1int
        } else {
            0int
        }) == count_tiles(s, |u: Tile| is_source_tile(u)) + (if is_source_tile(t) {
            1int
        } else {
            0int
        }),
{
    lemma_count_tiles_update(s, i, t, |u: Tile| is_water_tile(u));
    lemma_count_tiles_update(s, i, t, |u: Tile| is_source_tile(u));
}

/// During the collecting phase of the spread pass over `v`: the layout of `v`, the
/// water and source tile counts of `v`, and queued moves within the world that carry
/// non-source water.
pub open spec fn collect_ok(v: WorldView, s: (WorldView, Seq<SpreadMove>)) -> bool {
    &&& s.0.wf()
    &&& s.0.width == v.width && s.0.depth == v.depth && s.0.height == v.height
    &&& moves_in_bounds(v, s.1)
    &&& count_tiles(s.0.tiles, |u: Tile| is_water_tile(u)) == count_tiles(v.tiles, |u: Tile| is_water_tile(u))
    &&& count_tiles(s.0.tiles, |u: Tile| is_source_tile(u)) == count_tiles(v.tiles, |u: Tile| is_source_tile(u))
    &&& forall|k: int| 0 <= k < s.1.len() ==> is_water_tile(#[trigger] s.1[k].new_water) && !is_source_tile(s.1[k].new_water)
}

proof fn lemma_collect_ok_step(v: WorldView, s: (WorldView, Seq<SpreadMove>), x: int, y: int, z: int)
    requires
        collect_ok(v, s),
        v.in_bounds(x, y, z),
    ensures
        collect_ok(v, collect_step(s, x, y, z)),
{
    let t = s.0;
    let r = collect_step(s, x, y, z);
    lemma_in_bounds_addressable(t, x, y, z);
    let i = t.idx(x, y, z);
    if let Tile::Water { is_source, sediment, velocity, direction } = t.tile(x, y, z) {
        if !is_source {
            lemma_counts_after_set(t.tiles, i, stagnant(sediment));
        }
        let cs = candidates(t, x, y, z);
        lemma_first_where_bounds(cs, |c: Candidate| c.drop);
        lemma_candidates_in_bounds(t, x, y, z, 4);
        assert forall|k: int| 0 <= k < r.1.len() implies is_water_tile(#[trigger] r.1[k].new_water) && !is_source_tile(
            r.1[k].new_water,
        ) by {
            if k < s.1.len() {
                assert(r.1[k] == s.1[k]);
            }
        }
        assert forall|k: int| 0 <= k < r.1.len() implies {
            let m = #[trigger] r.1[k];
            &&& m.ox < v.width && m.oy < v.depth && m.oz < v.height
            &&& m.nx < v.width && m.ny < v.depth && m.nz < v.height
        } by {
            if k < s.1.len() {
                assert(r.1[k] == s.1[k]);
            } else {
                let wd = first_where(cs, |c: Candidate| c.drop);
                let j: int = match wd {
                    Some(a) => a,
                    None => 0,
                };
                assert(t.in_bounds(cs[j].nx as int, cs[j].ny as int, z));
            }
        }
    }
}

/// Carrying out the first `n` moves keeps the layout and the number of source tiles,
/// never lowers the number of water tiles, and keeps it when there is no source water.
proof fn lemma_moves_applied_counts(c: WorldView, ms: Seq<SpreadMove>, n: nat)
    requires
        c.wf(),
        moves_in_bounds(c, ms),
        n <= ms.len(),
        forall|k: int| 0 <= k < ms.len() ==> is_water_tile(#[trigger] ms[k].new_water) && !is_source_tile(ms[k].new_water),
    ensures
        ({
            let r = moves_applied(c, ms, n);
            &&& r.wf()
            &&& r.width == c.width && r.depth == c.depth && r.height == c.height
            &&& count_tiles(r.tiles, |u: Tile| is_source_tile(u)) == count_tiles(c.tiles, |u: Tile| is_source_tile(u))
            &&& count_tiles(r.tiles, |u: Tile| is_water_tile(u)) >= count_tiles(c.tiles, |u: Tile| is_water_tile(u))
            &&& count_tiles(c.tiles, |u: Tile| is_source_tile(u)) == 0 ==> count_tiles(r.tiles, |u: Tile| is_water_tile(u))
                == count_tiles(c.tiles, |u: Tile| is_water_tile(u))
        }),
    decreases n,
{
    if n > 0 {
        lemma_moves_applied_counts(c, ms, (n - 1) as nat);
        let t = moves_applied(c, ms, (n - 1) as nat);
        let m = ms[n - 1];
        assert(c.in_bounds(m.ox as int, m.oy as int, m.oz as int));
        assert(c.in_bounds(m.nx as int, m.ny as int, m.nz as int));
        lemma_in_bounds_addressable(t, m.ox as int, m.oy as int, m.oz as int);
        lemma_in_bounds_addressable(t, m.nx as int, m.ny as int, m.nz as int);
        if t.tile(m.nx as int, m.ny as int, m.nz as int) is Air && t.tile(m.ox as int, m.oy as int, m.oz as int) is Water {
            let o = t.idx(m.ox as int, m.oy as int, m.oz as int);
            let d = t.idx(m.nx as int, m.ny as int, m.nz as int);
            assert(o != d);
            let v1 = t.set_tile(m.nx as int, m.ny as int, m.nz as int, m.new_water);
            lemma_counts_after_set(t.tiles, d, m.new_water);
            assert(v1.tiles[o] == t.tiles[o]);
            if let Tile::Water { is_source, .. } = t.tile(m.ox as int, m.oy as int, m.oz as int) {
                let nt = if is_source {
                    Tile::Water { is_source: true, sediment: 0, velocity: 0, direction: FlowDir::Still }
                } else {
                    Tile::Air
                };
                lemma_counts_after_set(v1.tiles, o, nt);
                if is_source {
                    assert(count_tiles(t.tiles, |u: Tile| is_source_tile(u)) >= 1) by {
                        lemma_count_tiles_update(t.tiles, o, Tile::Air, |u: Tile| is_source_tile(u));
                    }
                }
            }
        }
    }
}

/// Spreading moves water and never makes or loses it, sources aside: the pass keeps the
/// number of source water tiles, never lowers the number of water tiles, and, in a
/// world without source water, keeps the number of water tiles (each move turns one
/// Air cell into water and its origin into Air; only a source stays where it is).
pub proof fn lemma_spread_keeps_water(v: WorldView)
    requires
        v.wf(),
    ensures
        spread_pass(v).wf(),
        spread_pass(v).width == v.width && spread_pass(v).depth == v.depth && spread_pass(v).height == v.height,
        count_tiles(spread_pass(v).tiles, |u: Tile| is_source_tile(u)) == count_tiles(v.tiles, |u: Tile| is_source_tile(u)),
        count_tiles(spread_pass(v).tiles, |u: Tile| is_water_tile(u)) >= count_tiles(v.tiles, |u: Tile| is_water_tile(u)),
        count_tiles(v.tiles, |u: Tile| is_source_tile(u)) == 0 ==> count_tiles(spread_pass(v).tiles, |u: Tile| is_water_tile(u))
            == count_tiles(v.tiles, |u: Tile| is_water_tile(u)),
{
    let p = |s: (WorldView, Seq<SpreadMove>)| collect_ok(v, s);
    assert(p((v, Seq::<SpreadMove>::empty())));
    assert forall|s: (WorldView, Seq<SpreadMove>), x: int, y: int, z: int|
        0 <= x < v.width && 0 <= y < v.depth && v.height - v.height <= z < v.height && p(s) implies p(
        #[trigger] collect_fn()(s, x, y, z),
    ) by {
        lemma_collect_ok_step(v, s, x, y, z);
    }
    lemma_down_keeps((v, Seq::<SpreadMove>::empty()), collect_fn(), p, v.width, v.depth, v.height as int, v.height);
    let c = sweep_down((v, Seq::<SpreadMove>::empty()), collect_fn(), v.width, v.depth, v.height as int, v.height);
    lemma_moves_applied_counts(c.0, c.1, c.1.len());
}

} // verus!
