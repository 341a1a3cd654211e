use vstd::prelude::*;
use crate::tile::Tile;
use crate::world::{World, WorldView, lemma_in_bounds_addressable};

verus! {

broadcast use lemma_in_bounds_addressable;

/// The sea level: columns whose surface lies below it are flooded up to it.
pub const WATER_LEVEL: usize = 32;

/// Surfaces at most this far above sea level are beach (Sand).
pub const BEACH_DEPTH: usize = 3;

/// How many water sources the terrain gets.
pub const RIVER_SOURCE_COUNT: usize = 3;

/// How many layers of Dirt lie under the surface.
pub const DIRT_LAYERS: usize = 3;

/// The largest of the first `n` surface heights (0 for none).
pub open spec fn max_height(hs: Seq<usize>, n: nat) -> nat
    decreases n,
{
    if n == 0 {
        0
    } else {
        let m = max_height(hs, (n - 1) as nat);
        if hs[n - 1] > m {
            hs[n - 1] as nat
        } else {
            m
        }
    }
}

/// The surface heights after the safety boost: when no surface rises above sea level,
/// every surface is raised so that the highest stands 5 above it, capped at h - 2.
pub open spec fn boosted(hs: Seq<usize>, h: nat) -> Seq<usize> {
    let m = max_height(hs, hs.len());
    if m <= WATER_LEVEL {
        Seq::new(
            hs.len(),
            |i: int|
                {
                    let raised = hs[i] + (WATER_LEVEL + 5 - m);
                    (if raised < h - 2 {
                        raised
                    } else {
                        h - 2
                    }) as usize
                },
        )
    } else {
        hs
    }
}

/// The tile at layer z of a column whose surface is at `s`: Air above the surface;
/// at the surface Sand (on a beach) or Grass; Dirt for the `DIRT_LAYERS` layers below;
/// Stone further down.
pub open spec fn column_tile(s: nat, z: nat) -> Tile {
    if z > s {
        Tile::Air
    } else if z == s {
        if s <= WATER_LEVEL + BEACH_DEPTH {
            Tile::Sand
        } else {
            Tile::Grass
        }
    } else if z > (if s >= DIRT_LAYERS {
        s - DIRT_LAYERS
    } else {
        0
    }) {
        Tile::Dirt
    } else {
        Tile::Stone
    }
}

/// Whether layer z of a column with surface `s` is flooded by the sea.
pub open spec fn is_ocean(s: nat, z: nat) -> bool {
    s < WATER_LEVEL && s < z <= WATER_LEVEL
}

/// The candidate source positions among the first `n` columns (in column order): one
/// cell above every surface that lies above sea level.
pub open spec fn candidates(hs: Seq<usize>, w: nat, n: nat) -> Seq<(usize, usize, usize)>
    decreases n,
{
    if n == 0 {
        Seq::empty()
    } else {
        let prev = candidates(hs, w, (n - 1) as nat);
        let c = n - 1;
        if hs[c] > WATER_LEVEL {
            prev.push(((c % w as int) as usize, (c / w as int) as usize, (hs[c] + 1) as usize))
        } else {
            prev
        }
    }
}

/// Inserts `e` into a list sorted by descending height, after every entry at least as high.
pub open spec fn insert_desc(s: Seq<(usize, usize, usize)>, e: (usize, usize, usize)) -> Seq<
    (usize, usize, usize),
>
    decreases s.len(),
{
    if s.len() == 0 {
        seq![e]
    } else if s[0].2 >= e.2 {
        seq![s[0]] + insert_desc(s.drop_first(), e)
    } else {
        seq![e] + s
    }
}

/// The first `n` entries of `s` sorted by descending height, entries of equal height in
/// the order given.
pub open spec fn sort_desc(s: Seq<(usize, usize, usize)>, n: nat) -> Seq<(usize, usize, usize)>
    decreases n,
{
    if n == 0 {
        Seq::empty()
    } else {
        insert_desc(sort_desc(s, (n - 1) as nat), s[n - 1])
    }
}

/// How many sources to place among `len` candidates, and the stride between picks.
pub open spec fn pick_count(len: nat) -> nat {
    if len < RIVER_SOURCE_COUNT {
        len
    } else {
        RIVER_SOURCE_COUNT as nat
    }
}

pub open spec fn pick_step(len: nat) -> nat {
    if len > pick_count(len) {
        len / pick_count(len)
    } else {
        1
    }
}

/// The position (in the sorted candidates) of the i-th pick: `i * step + seed`, wrapping
/// in `usize`, modulo the number of candidates.
pub open spec fn pick_index(i: nat, len: nat, seed: u32) -> int {
    (vstd::wrapping::usize_specs::wrapping_add((i * pick_step(len)) as usize, seed as usize) as int)
        % (len as int)
}

/// The world after the first `n` picks: each picked candidate that lies within the
/// world gets full water and becomes a source.
pub open spec fn picks_placed(v: WorldView, sorted: Seq<(usize, usize, usize)>, seed: u32, n: nat) -> WorldView
    decreases n,
{
    if n == 0 {
        v
    } else {
        let prev = picks_placed(v, sorted, seed, (n - 1) as nat);
        let c = sorted[pick_index((n - 1) as nat, sorted.len(), seed)];
        if (c.2 as int) < v.height {
            let idx = prev.idx(c.0 as int, c.1 as int, c.2 as int);
            WorldView { sources: prev.sources.push(c), ..prev.set_mass_at(idx, 255) }
        } else {
            prev
        }
    }
}

/// The terrain built from surface heights: every column filled from its (boosted)
/// surface, the sea filled in, and the sources placed.
pub open spec fn terrain_spec(v: WorldView, hs: Seq<usize>, seed: u32) -> WorldView {
    let hs2 = boosted(hs, v.height);
    let wd = v.width * v.depth;
    let filled = WorldView {
        tiles: Seq::new(v.size(), |i: int| column_tile(hs2[i % wd as int] as nat, (i / wd as int) as nat)),
        water_mass: Seq::new(
            v.size(),
            |i: int|
                if is_ocean(hs2[i % wd as int] as nat, (i / wd as int) as nat) {
                    255u8
                } else {
                    v.water_mass[i]
                },
        ),
        ..v
    };
    let cands = candidates(hs2, v.width, wd);
    let sorted = sort_desc(cands, cands.len());
    picks_placed(filled, sorted, seed, pick_count(sorted.len()))
}

/// What the terrain builder needs of the height map: one height per column, no
/// height at the top of `usize`, and room for the boost when it applies.
pub open spec fn heights_fit(v: WorldView, hs: Seq<usize>) -> bool {
    &&& hs.len() == v.width * v.depth
    &&& forall|i: int| 0 <= i < hs.len() ==> hs[i] < usize::MAX
    &&& max_height(hs, hs.len()) <= WATER_LEVEL ==> v.height >= 2
}

proof fn lemma_max_height(hs: Seq<usize>, n: nat)
    requires
        n <= hs.len(),
    ensures
        forall|i: int| 0 <= i < n ==> hs[i] <= max_height(hs, n),
    decreases n,
{
    if n > 0 {
        lemma_max_height(hs, (n - 1) as nat);
    }
}

fn max_of(hs: &[usize]) -> (m: usize)
    ensures
        m == max_height(hs@, hs@.len()),
{
    let mut m: usize = 0;
    let mut i: usize = 0;
    while i < hs.len()
        invariant
            i <= hs@.len(),
            m == max_height(hs@, i as nat),
        decreases hs.len() - i,
    {
        if hs[i] > m {
            m = hs[i];
        }
        i += 1;
    }
    m
}

fn boost_heights(hs: &[usize], h: usize) -> (r: Vec<usize>)
    requires
        max_height(hs@, hs@.len()) <= WATER_LEVEL ==> h >= 2,
    ensures
        r@ == boosted(hs@, h as nat),
{
    let m = max_of(hs);
    let mut r: Vec<usize> = Vec::new();
    let mut i: usize = 0;
    proof {
        lemma_max_height(hs@, hs@.len());
    }
    while i < hs.len()
        invariant
            i <= hs@.len(),
            m == max_height(hs@, hs@.len()),
            forall|k: int| 0 <= k < hs@.len() ==> hs@[k] <= m,
            m <= WATER_LEVEL ==> h >= 2,
            r@.len() == i,
            forall|k: int| 0 <= k < i ==> r@[k] == boosted(hs@, h as nat)[k],
        decreases hs.len() - i,
    {
        if m <= WATER_LEVEL {
            let boost = WATER_LEVEL + 5 - m;
            let raised = hs[i] + boost;
            let v = if raised < h - 2 {
                raised
            } else {
                h - 2
            };
            r.push(v);
        } else {
            r.push(hs[i]);
        }
        i += 1;
    }
    assert(r@ =~= boosted(hs@, h as nat));
    r
}

fn collect_candidates(hs: &Vec<usize>, w: usize) -> (r: Vec<(usize, usize, usize)>)
    requires
        w > 0,
        forall|i: int| 0 <= i < hs@.len() ==> hs@[i] < usize::MAX,
    ensures
        r@ == candidates(hs@, w as nat, hs@.len()),
{
    let mut r: Vec<(usize, usize, usize)> = Vec::new();
    let mut c: usize = 0;
    while c < hs.len()
        invariant
            w > 0,
            c <= hs@.len(),
            forall|i: int| 0 <= i < hs@.len() ==> hs@[i] < usize::MAX,
            r@ == candidates(hs@, w as nat, c as nat),
        decreases hs.len() - c,
    {
        let s = hs[c];
        if s > WATER_LEVEL {
            r.push((c % w, c / w, s + 1));
        }
        c += 1;
    }
    r
}

fn sort_candidates(list: &Vec<(usize, usize, usize)>) -> (r: Vec<(usize, usize, usize)>)
    ensures
        r@ == sort_desc(list@, list@.len()),
{
    let mut sorted: Vec<(usize, usize, usize)> = Vec::new();
    let mut i: usize = 0;
    while i < list.len()
        invariant
            i <= list@.len(),
            sorted@ == sort_desc(list@, i as nat),
        decreases list.len() - i,
    {
        let e = list[i];
        let ghost before = sorted@;
        proof {
            assert(before.subrange(0, 0) =~= Seq::<(usize, usize, usize)>::empty());
            assert(before.subrange(0, before.len() as int) =~= before);
        }
        let mut j: usize = 0;
        while j < sorted.len() && sorted[j].2 >= e.2
            invariant
                sorted@ == before,
                j <= before.len(),
                insert_desc(before, e) == before.subrange(0, j as int) + insert_desc(
                    before.subrange(j as int, before.len() as int),
                    e,
                ),
            decreases sorted.len() - j,
        {
            proof {
                let rest = before.subrange(j as int, before.len() as int);
                assert(rest[0] == before[j as int]);
                assert(rest.drop_first() =~= before.subrange(j + 1, before.len() as int));
                assert(before.subrange(0, j + 1) =~= before.subrange(0, j as int) + seq![before[j as int]]);
                assert(before.subrange(0, j as int) + insert_desc(rest, e) =~= before.subrange(
                    0,
                    j + 1,
                ) + insert_desc(before.subrange(j + 1, before.len() as int), e));
            }
            j += 1;
        }
        proof {
            let rest = before.subrange(j as int, before.len() as int);
            assert(insert_desc(rest, e) =~= seq![e] + rest);
        }
        sorted.insert(j, e);
        proof {
            let rest = before.subrange(j as int, before.len() as int);
            assert(sorted@ =~= before.subrange(0, j as int) + (seq![e] + rest));
        }
        i += 1;
    }
    sorted
}

proof fn lemma_insert_desc_facts(s: Seq<(usize, usize, usize)>, e: (usize, usize, usize))
    ensures
        insert_desc(s, e).len() == s.len() + 1,
        forall|k: int|
            0 <= k < insert_desc(s, e).len() ==> (#[trigger] insert_desc(s, e)[k] == e || s.contains(
                insert_desc(s, e)[k],
            )),
    decreases s.len(),
{
    if s.len() > 0 && s[0].2 >= e.2 {
        lemma_insert_desc_facts(s.drop_first(), e);
        let r = insert_desc(s, e);
        assert forall|k: int| 0 <= k < r.len() implies (#[trigger] r[k] == e || s.contains(r[k])) by {
            if k == 0 {
                assert(s[0] == r[0]);
            } else {
                let t = insert_desc(s.drop_first(), e);
                assert(r[k] == t[k - 1]);
                if t[k - 1] != e {
                    let j = choose|j: int| 0 <= j < s.drop_first().len() && s.drop_first()[j] == t[k - 1];
                    assert(s[j + 1] == t[k - 1]);
                }
            }
        }
    } else if s.len() > 0 {
        let r = insert_desc(s, e);
        assert forall|k: int| 0 <= k < r.len() implies (#[trigger] r[k] == e || s.contains(r[k])) by {
            if k > 0 {
                assert(r[k] == s[k - 1]);
            }
        }
    }
}

/// Sorting keeps the length and takes its entries from the list.
proof fn lemma_sort_desc_facts(s: Seq<(usize, usize, usize)>, n: nat)
    requires
        n <= s.len(),
    ensures
        sort_desc(s, n).len() == n,
        forall|k: int| 0 <= k < n ==> s.contains(#[trigger] sort_desc(s, n)[k]),
    decreases n,
{
    if n > 0 {
        lemma_sort_desc_facts(s, (n - 1) as nat);
        let prev = sort_desc(s, (n - 1) as nat);
        lemma_insert_desc_facts(prev, s[n - 1]);
        assert forall|k: int| 0 <= k < n implies s.contains(#[trigger] sort_desc(s, n)[k]) by {
            let r = sort_desc(s, n);
            if r[k] != s[n - 1] {
                let j = choose|j: int| 0 <= j < prev.len() && prev[j] == r[k];
                assert(s.contains(prev[j]));
            }
        }
    }
}

proof fn lemma_cell_split(i: int, wd: int, h: int)
    requires
        0 <= i < wd * h,
        0 <= wd,
        0 <= h,
    ensures
        wd > 0,
        0 <= i % wd < wd,
        0 <= i / wd < h,
{
    assert(wd > 0) by (nonlinear_arith)
        requires
            0 <= i < wd * h,
            0 <= wd,
            0 <= h,
    ;
    assert(0 <= i % wd < wd && 0 <= i / wd < h) by (nonlinear_arith)
        requires
            0 <= i < wd * h,
            0 < wd,
            0 <= h,
    ;
}

/// Every candidate lies on a column of the world.
proof fn lemma_candidates_in_world(hs: Seq<usize>, w: nat, d: nat, n: nat)
    requires
        w > 0,
        n <= hs.len(),
        hs.len() == w * d,
    ensures
        forall|k: int|
            0 <= k < candidates(hs, w, n).len() ==> (#[trigger] candidates(hs, w, n)[k]).0 < w
                && candidates(hs, w, n)[k].1 < d,
    decreases n,
{
    if n > 0 {
        lemma_candidates_in_world(hs, w, d, (n - 1) as nat);
        let c = n - 1;
        assert(0 <= c % (w as int) < w && 0 <= c / (w as int) < d) by (nonlinear_arith)
            requires
                0 <= c < w * d,
                w > 0,
        ;
        let prev = candidates(hs, w, (n - 1) as nat);
        let cur = candidates(hs, w, n);
        assert forall|k: int| 0 <= k < cur.len() implies (#[trigger] cur[k]).0 < w && cur[k].1 < d by {
            if k < prev.len() {
                assert(cur[k] == prev[k]);
            }
        }
    }
}

/// Builds the terrain from a height map (one surface height per column, in column
/// order): boosts the map when no surface rises above sea level, fills every column
/// (Air above the surface, Sand or Grass at it, Dirt below, Stone deeper), floods the
/// sea, and places up to three water sources on the highest land, picked by the seed.
pub fn build_terrain(world: &mut World, surface_heights: &[usize], seed: u32)
    requires
        old(world).wf(),
        heights_fit(old(world)@, surface_heights@),
    ensures
        final(world).wf(),
        final(world)@ == terrain_spec(old(world)@, surface_heights@, seed),
{
    let w = world.width();
    let d = world.depth();
    let h = world.height();
    let ghost v = world@;
    let hs = boost_heights(surface_heights, h);
    let ghost hs2 = hs@;
    proof {
        lemma_max_height(surface_heights@, surface_heights@.len());
        assert forall|i: int| 0 <= i < hs2.len() implies hs2[i] < usize::MAX by {}
    }
    let wd = w * d;
    let size = wd * h;
    assert(size == v.size());
    // fill the columns
    let mut i: usize = 0;
    while i < size
        invariant
            world.wf(),
            world@ == (WorldView { tiles: world@.tiles, ..v }),
            size == v.size(),
            size == wd * h,
            h == v.height,
            v.wf(),
            wd == v.width * v.depth,
            hs@ == hs2,
            hs2.len() == wd,
            i <= size,
            forall|k: int|
                0 <= k < i ==> world@.tiles[k] == column_tile(hs2[k % wd as int] as nat, (k / wd as int) as nat),
        decreases size - i,
    {
        proof {
            lemma_cell_split(i as int, wd as int, h as int);
        }
        let s = hs[i % wd];
        let z = i / wd;
        let tile = if z > s {
            Tile::Air
        } else if z == s {
            if s <= WATER_LEVEL + BEACH_DEPTH {
                Tile::Sand
            } else {
                Tile::Grass
            }
        } else if z > s.saturating_sub(DIRT_LAYERS) {
            Tile::Dirt
        } else {
            Tile::Stone
        };
        world.set_tile_at(i, tile);
        i += 1;
    }
    let ghost after_fill = world@;
    // flood the sea
    let mut i: usize = 0;
    while i < size
        invariant
            world.wf(),
            world@ == (WorldView { water_mass: world@.water_mass, ..after_fill }),
            after_fill == (WorldView { tiles: after_fill.tiles, ..v }),
            size == v.size(),
            size == wd * h,
            h == v.height,
            v.wf(),
            wd == v.width * v.depth,
            hs@ == hs2,
            hs2.len() == wd,
            i <= size,
            forall|k: int|
                0 <= k < i ==> world@.water_mass[k] == if is_ocean(
                    hs2[k % wd as int] as nat,
                    (k / wd as int) as nat,
                ) {
                    255u8
                } else {
                    v.water_mass[k]
                },
            forall|k: int| i <= k < size ==> world@.water_mass[k] == v.water_mass[k],
        decreases size - i,
    {
        proof {
            lemma_cell_split(i as int, wd as int, h as int);
        }
        let s = hs[i % wd];
        let z = i / wd;
        if s < WATER_LEVEL && s < z && z <= WATER_LEVEL {
            world.set_mass_at(i, 255);
        }
        i += 1;
    }
    let ghost filled = world@;
    proof {
        let hs2b = boosted(surface_heights@, v.height);
        assert(hs2 == hs2b);
        assert(filled.tiles =~= Seq::new(v.size(), |k: int| column_tile(hs2[k % wd as int] as nat, (k / wd as int) as nat)));
        assert(filled.water_mass =~= Seq::new(
            v.size(),
            |k: int|
                if is_ocean(hs2[k % wd as int] as nat, (k / wd as int) as nat) {
                    255u8
                } else {
                    v.water_mass[k]
                },
        ));
    }
    if w == 0 {
        proof {
            assert(candidates(hs2, 0, 0) == Seq::<(usize, usize, usize)>::empty());
        }
        return;
    }
    // place the sources
    let cands = collect_candidates(&hs, w);
    let sorted = sort_candidates(&cands);
    proof {
        lemma_candidates_in_world(hs2, v.width, v.depth, hs2.len());
        lemma_sort_desc_facts(cands@, cands@.len());
    }
    let len = sorted.len();
    let count = if len < RIVER_SOURCE_COUNT {
        len
    } else {
        RIVER_SOURCE_COUNT
    };
    let step = if len > count {
        len / count
    } else {
        1
    };
    proof {
        if len >= 3 {
            assert(step * count <= len) by (nonlinear_arith)
                requires
                    count == 3,
                    step == len / 3,
            ;
        }
    }
    let mut k: usize = 0;
    while k < count
        invariant
            world.wf(),
            world@.width == v.width,
            world@.depth == v.depth,
            world@.height == v.height,
            h == v.height,
            filled.height == v.height,
            len == sorted@.len(),
            count == pick_count(len as nat),
            step == pick_step(len as nat),
            k <= count,
            count <= 3,
            step * count <= len || len == 0,
            k * step <= len,
            forall|q: int| 0 <= q < sorted@.len() ==> cands@.contains(#[trigger] sorted@[q]),
            forall|q: int| 0 <= q < cands@.len() ==> (#[trigger] cands@[q]).0 < v.width && cands@[q].1 < v.depth,
            world@ == picks_placed(filled, sorted@, seed, k as nat),
        decreases count - k,
    {
        proof {
            assert((k + 1) * step <= len) by (nonlinear_arith)
                requires
                    k < count,
                    step * count <= len,
                    0 <= step,
            ;
        }
        let idx = (k * step).wrapping_add(seed as usize) % len;
        let (sx, sy, sz) = sorted[idx];
        proof {
            assert(sorted@.contains(sorted@[idx as int]));
            assert(cands@.contains(sorted@[idx as int]));
            let j = choose|j: int| 0 <= j < cands@.len() && cands@[j] == sorted@[idx as int];
            assert(cands@[j].0 < v.width && cands@[j].1 < v.depth);
            assert(sx < v.width && sy < v.depth);
        }
        let ghost prev = world@;
        proof {
            assert(pick_index(k as nat, len as nat, seed) == idx as int);
            assert(prev == picks_placed(filled, sorted@, seed, k as nat));
        }
        if sz < h {
            world.set_water_mass(sx, sy, sz, 255);
            world.add_source(sx, sy, sz);
        }
        proof {
            assert(sorted@[pick_index(k as nat, sorted@.len(), seed)] == (sx, sy, sz));
            let c = sorted@[pick_index(k as nat, sorted@.len(), seed)];
            if (sz as int) < filled.height {
                let i2 = prev.idx(c.0 as int, c.1 as int, c.2 as int);
                let expect = WorldView { sources: prev.sources.push(c), ..prev.set_mass_at(i2, 255) };
                assert(world@.water_mass == expect.water_mass);
                assert(world@.sources == expect.sources);
                assert(world@ == expect);
            } else {
                assert(world@ == prev);
            }
            assert(world@ == picks_placed(filled, sorted@, seed, (k + 1) as nat));
        }
        k += 1;
    }
}

/// Placing sources sets water masses and adds sources, and leaves every tile alone.
proof fn lemma_picks_keep_tiles(v: WorldView, sorted: Seq<(usize, usize, usize)>, seed: u32, n: nat)
    ensures
        picks_placed(v, sorted, seed, n).tiles == v.tiles,
        picks_placed(v, sorted, seed, n).width == v.width,
        picks_placed(v, sorted, seed, n).depth == v.depth,
        picks_placed(v, sorted, seed, n).height == v.height,
    decreases n,
{
    if n > 0 {
        lemma_picks_keep_tiles(v, sorted, seed, (n - 1) as nat);
    }
}

/// The built terrain is layered column by column: every cell holds the tile that
/// `column_tile` gives for its layer and its column's surface (after the boost of low
/// terrain): Air above the surface, Sand or Grass at it, Dirt just below, Stone deeper.
pub proof fn lemma_terrain_columns(v: WorldView, hs: Seq<usize>, seed: u32, x: int, y: int, z: int)
    requires
        v.wf(),
        heights_fit(v, hs),
        v.in_bounds(x, y, z),
    ensures
        terrain_spec(v, hs, seed).tile(x, y, z) == column_tile(
            boosted(hs, v.height)[x + y * v.width] as nat,
            z as nat,
        ),
{
    let hs2 = boosted(hs, v.height);
    let wd = v.width * v.depth;
    let filled = WorldView {
        tiles: Seq::new(v.size(), |i: int| column_tile(hs2[i % wd as int] as nat, (i / wd as int) as nat)),
        water_mass: Seq::new(
            v.size(),
            |i: int|
                if is_ocean(hs2[i % wd as int] as nat, (i / wd as int) as nat) {
                    255u8
                } else {
                    v.water_mass[i]
                },
        ),
        ..v
    };
    let cands = candidates(hs2, v.width, wd);
    let sorted = sort_desc(cands, cands.len());
    lemma_picks_keep_tiles(filled, sorted, seed, pick_count(sorted.len()));
    lemma_in_bounds_addressable(v, x, y, z);
    let a = x + y * v.width;
    assert(0 <= a < wd) by (nonlinear_arith)
        requires
            0 <= x < v.width,
            0 <= y < v.depth,
            a == x + y * v.width,
            wd == v.width * v.depth,
    ;
    let i = v.idx(x, y, z);
    vstd::arithmetic::div_mod::lemma_fundamental_div_mod_converse(i, wd as int, z, a);
    assert(z * wd == z * (v.width * v.depth));
}

} // verus!
