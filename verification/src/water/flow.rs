use vstd::prelude::*;
use crate::tile::is_solid_spec;
use crate::world::{World, WorldView, lemma_in_bounds_addressable, wadd16, wsub16, applied_u8};
use crate::sweep::{sweep_row, sweep_layer, sweep_up, sweep_down};
use crate::water::hash::{hash2, hash2_spec};

verus! {

broadcast use lemma_in_bounds_addressable;

/// Whether sediment moved with `transfer` out of `mass` rounds up: the remainder of
/// `sediment * transfer / mass` exceeds the pseudo-random fraction `roll / 1000`.
///
/// The comparison is made exactly, on integers (`roll * mass < 1000 * remainder`).
/// Computing the two fractions in floating point instead can decide a tie the other
/// way: with `sediment * transfer == 13`, `mass == 10` and `roll == 300`, the exact
/// fractions are equal (0.3), so the share is not rounded up and 1 moves, while the
/// rounded `f64` values of 13 / 10 - 1 and 300 / 1000 compare the other way and give 2.
pub open spec fn rounds_up(sediment: u8, transfer: u16, mass: u8, roll: u64) -> bool {
    roll * mass < 1000 * ((sediment as int * transfer as int) % mass as int)
}

/// How much sediment moves along with `transfer` of the `mass` of a cell holding
/// `sediment`: the proportional share `sediment * transfer / mass`, rounded down, plus
/// one with a probability equal to the discarded fraction (decided by the hash of the
/// cell index under the seed). The share is capped at `i16::MAX` before the rounding.
pub open spec fn sediment_transfer_spec(sediment: u8, transfer: u16, mass: u8, idx: int, seed: u64) -> i16 {
    if sediment == 0 || mass == 0 {
        0
    } else {
        let share = (sediment as int * transfer as int) / mass as int;
        let base: i16 = if share > 32767 {
            32767
        } else {
            share as i16
        };
        let roll = hash2_spec(seed, idx as u64) % 1000;
        if rounds_up(sediment, transfer, mass, roll) {
            wadd16(base, 1)
        } else {
            base
        }
    }
}

/// Sediment carried along when `transfer` of the `mass` of cell `idx` flows away (see
/// `sediment_transfer_spec`).
pub fn calc_sediment_transfer(sediment: u8, transfer: u16, mass: u8, idx: usize, seed: u64) -> (r: i16)
    ensures
        r == sediment_transfer_spec(sediment, transfer, mass, idx as int, seed),
{
    if sediment == 0 || mass == 0 {
        return 0;
    }
    let num: u32 = mul_u8_u16(sediment, transfer);
    let share = num / (mass as u32);
    let rem = num % (mass as u32);
    let base: i16 = if share > 32767 {
        32767
    } else {
        share as i16
    };
    let roll = hash2(seed, idx as u64) % 1000;
    let lhs: u64 = mul_small(roll, mass);
    let rhs: u64 = 1000 * (rem as u64);
    proof {
        assert(rem < mass) by (nonlinear_arith)
            requires
                rem == num % (mass as u32),
                mass > 0,
        ;
    }
    if lhs < rhs {
        base.wrapping_add(1)
    } else {
        base
    }
}

fn mul_u8_u16(a: u8, b: u16) -> (r: u32)
    ensures
        r == a as int * b as int,
{
    assert(a as int * b as int <= 255 * 65535) by (nonlinear_arith)
        requires
            a <= 255,
            b <= 65535,
    ;
    (a as u32) * (b as u32)
}

fn mul_small(a: u64, b: u8) -> (r: u64)
    requires
        a < 1000,
    ensures
        r == a as int * b as int,
{
    assert(a as int * b as int <= 1000 * 255) by (nonlinear_arith)
        requires
            a < 1000,
            b <= 255,
    ;
    a * (b as u64)
}

// ---------------------------------------------------------------------------
// Phase 1: gravity
// ---------------------------------------------------------------------------

/// Gravity in the mass model at (x, y, z): water above a non-solid cell flows down as
/// much as the cell below can take (up to 255), carrying its share of sediment.
pub open spec fn gravity_flow_step(v: WorldView, x: int, y: int, z: int, seed: u64) -> WorldView {
    let idx = v.idx(x, y, z);
    let below = v.idx(x, y, z - 1);
    let mass = v.water_mass[idx];
    let below_mass = v.water_mass[below];
    if mass == 0 || is_solid_spec(v.tile(x, y, z - 1)) || below_mass >= 255 {
        v
    } else {
        let capacity = (255 - below_mass) as u16;
        let transfer: u16 = if (mass as u16) < capacity {
            mass as u16
        } else {
            capacity
        };
        let sed = sediment_transfer_spec(v.water_sediment[idx], transfer, mass, idx, seed);
        v.record_flow(idx, below, transfer, sed)
    }
}

pub open spec fn gravity_flow_fn(seed: u64) -> spec_fn(WorldView, int, int, int) -> WorldView {
    |v: WorldView, x: int, y: int, z: int| gravity_flow_step(v, x, y, z, seed)
}

fn gravity_flow_cell(world: &mut World, x: usize, y: usize, z: usize, seed: u64)
    requires
        old(world).wf(),
        old(world)@.in_bounds(x as int, y as int, z as int),
        z >= 1,
    ensures
        final(world).wf(),
        final(world)@ == gravity_flow_step(old(world)@, x as int, y as int, z as int, seed),
{
    let idx = world.index(x, y, z);
    let mass = world.mass_at(idx);
    if mass == 0 {
        return;
    }
    proof {
        lemma_in_bounds_addressable(world@, x as int, y as int, z - 1);
    }
    let below_idx = world.index(x, y, z - 1);
    if world.get(x, y, z - 1).is_solid() {
        return;
    }
    let below_mass = world.mass_at(below_idx);
    if below_mass >= 255 {
        return;
    }
    let capacity: u16 = 255 - below_mass as u16;
    let transfer: u16 = if (mass as u16) < capacity {
        mass as u16
    } else {
        capacity
    };
    let sed = world.sediment_at(idx);
    let sed_transfer = calc_sediment_transfer(sed, transfer, mass, idx, seed);
    world.record_flow(idx, below_idx, transfer, sed_transfer);
}

// ---------------------------------------------------------------------------
// Phase 2: horizontal spread
// ---------------------------------------------------------------------------

/// The mass a cell is expected to hold once its pending delta is applied, as an `i16`.
pub open spec fn expected(v: WorldView, i: int) -> i16 {
    wadd16(v.water_mass[i] as i16, v.mass_delta[i])
}

/// The expected mass of a cell seen as a byte: negative counts as 0, and the value is
/// then truncated to 8 bits.
pub open spec fn expected_byte(v: WorldView, i: int) -> u8 {
    let e = expected(v, i) as int;
    (if e < 0 {
        0
    } else {
        e
    }) as u8
}

/// The expected mass of a cell clamped to 0..=255.
pub open spec fn expected_clamped(v: WorldView, i: int) -> u8 {
    let e = expected(v, i) as int;
    (if e < 0 {
        0
    } else if e > 255 {
        255
    } else {
        e
    }) as u8
}

/// The neighbor offsets, in the order they are examined: west, east, north, south.
pub open spec fn neighbor_at(v: WorldView, x: int, y: int, k: int) -> (int, int) {
    if k == 0 {
        (x - 1, y)
    } else if k == 1 {
        (x + 1, y)
    } else if k == 2 {
        (x, y - 1)
    } else {
        (x, y + 1)
    }
}

/// The neighbors (index, expected mass) among the first `n` offsets that lie within
/// the world, are not solid, and expect less mass than `remaining`, in order.
pub open spec fn lower_neighbors(v: WorldView, x: int, y: int, z: int, remaining: u8, n: nat) -> Seq<
    (usize, u8),
>
    decreases n,
{
    if n == 0 {
        Seq::empty()
    } else {
        let prev = lower_neighbors(v, x, y, z, remaining, (n - 1) as nat);
        let (nx, ny) = neighbor_at(v, x, y, n - 1);
        if 0 <= nx < v.width && 0 <= ny < v.depth && !is_solid_spec(v.tile(nx, ny, z)) {
            let n_idx = v.idx(nx, ny, z);
            let n_mass = expected_byte(v, n_idx);
            if n_mass < remaining {
                prev.push((n_idx as usize, n_mass))
            } else {
                prev
            }
        } else {
            prev
        }
    }
}

/// Inserts `e` into a list sorted by mass, after every entry of no greater mass.
pub open spec fn insert_by_mass(s: Seq<(usize, u8)>, e: (usize, u8)) -> Seq<(usize, u8)>
    decreases s.len(),
{
    if s.len() == 0 {
        seq![e]
    } else if s[0].1 <= e.1 {
        seq![s[0]] + insert_by_mass(s.drop_first(), e)
    } else {
        seq![e] + s
    }
}

/// The first `n` entries of `s`, sorted by mass, entries of equal mass in
/// the order given.
pub open spec fn sort_by_mass(s: Seq<(usize, u8)>, n: nat) -> Seq<(usize, u8)>
    decreases n,
{
    if n == 0 {
        Seq::empty()
    } else {
        insert_by_mass(sort_by_mass(s, (n - 1) as nat), s[n - 1])
    }
}

/// The receivers chosen from the first `n` sorted neighbors, together with the total
/// mass of the pool: a neighbor joins while its mass is below the average of the pool
/// so far (the giving cell's remaining mass plus the receivers' masses).
pub open spec fn pool(sorted: Seq<(usize, u8)>, remaining: u8, n: nat) -> (u16, Seq<(usize, u8)>)
    decreases n,
{
    if n == 0 {
        (remaining as u16, Seq::empty())
    } else {
        let (total, rs) = pool(sorted, remaining, (n - 1) as nat);
        let e = sorted[n - 1];
        let avg = total / (rs.len() + 1) as u16;
        if (e.1 as u16) < avg {
            ((total + e.1) as u16, rs.push(e))
        } else {
            (total, rs)
        }
    }
}

/// Records the flows from cell `idx` to the first `n` receivers: each gets what it
/// lacks to reach the final average, with its share of sediment.
pub open spec fn give(
    v: WorldView,
    idx: int,
    rs: Seq<(usize, u8)>,
    avg: u16,
    remaining: u8,
    seed: u64,
    n: nat,
) -> WorldView
    decreases n,
{
    if n == 0 {
        v
    } else {
        let prev = give(v, idx, rs, avg, remaining, seed, (n - 1) as nat);
        let (n_idx, n_mass) = rs[n - 1];
        let transfer: u16 = if avg > n_mass as u16 {
            (avg - n_mass) as u16
        } else {
            0
        };
        if transfer == 0 {
            prev
        } else {
            let sed = sediment_transfer_spec(prev.water_sediment[idx], transfer, remaining, idx, seed);
            prev.record_flow(idx, n_idx as int, transfer, sed)
        }
    }
}

/// Horizontal spread at (x, y, z): water that can no longer fall (its cell below is
/// solid or expected full) shares its remaining mass with lower, non-solid neighbors,
/// pooling the shallowest first, so that they all reach the pool's average.
#[verifier::opaque]
pub open spec fn spread_flow_step(v: WorldView, x: int, y: int, z: int, seed: u64) -> WorldView {
    let idx = v.idx(x, y, z);
    let mass = v.water_mass[idx];
    let remaining = expected_byte(v, idx);
    let below = v.idx(x, y, z - 1);
    let can_fall = z > 0 && !is_solid_spec(v.tile(x, y, z - 1)) && expected_clamped(v, below) < 255;
    if mass == 0 || remaining == 0 || can_fall {
        v
    } else {
        let lower = lower_neighbors(v, x, y, z, remaining, 4);
        let sorted = sort_by_mass(lower, lower.len());
        let (total, rs) = pool(sorted, remaining, sorted.len());
        if rs.len() == 0 {
            v
        } else {
            let avg = total / (rs.len() + 1) as u16;
            give(v, idx, rs, avg, remaining, seed, rs.len())
        }
    }
}

pub open spec fn spread_flow_fn(seed: u64) -> spec_fn(WorldView, int, int, int) -> WorldView {
    |v: WorldView, x: int, y: int, z: int| spread_flow_step(v, x, y, z, seed)
}

proof fn lemma_lower_neighbors_facts(v: WorldView, x: int, y: int, z: int, remaining: u8, n: nat)
    requires
        v.wf(),
        v.in_bounds(x, y, z),
        n <= 4,
    ensures
        lower_neighbors(v, x, y, z, remaining, n).len() <= n,
        forall|k: int|
            0 <= k < lower_neighbors(v, x, y, z, remaining, n).len() ==> (#[trigger] lower_neighbors(
                v,
                x,
                y,
                z,
                remaining,
                n,
            )[k]).0 < v.size(),
    decreases n,
{
    if n > 0 {
        lemma_lower_neighbors_facts(v, x, y, z, remaining, (n - 1) as nat);
        let (nx, ny) = neighbor_at(v, x, y, n - 1);
        if 0 <= nx < v.width && 0 <= ny < v.depth {
            lemma_in_bounds_addressable(v, nx, ny, z);
        }
    }
}

proof fn lemma_insert_by_mass_facts(s: Seq<(usize, u8)>, e: (usize, u8))
    ensures
        insert_by_mass(s, e).len() == s.len() + 1,
        forall|k: int|
            0 <= k < insert_by_mass(s, e).len() ==> (#[trigger] insert_by_mass(s, e)[k] == e
                || s.contains(insert_by_mass(s, e)[k])),
    decreases s.len(),
{
    if s.len() > 0 && s[0].1 <= e.1 {
        lemma_insert_by_mass_facts(s.drop_first(), e);
        let r = insert_by_mass(s, e);
        assert forall|k: int| 0 <= k < r.len() implies (#[trigger] r[k] == e || s.contains(r[k])) by {
            if k == 0 {
                assert(s[0] == r[0]);
            } else {
                let t = insert_by_mass(s.drop_first(), e);
                assert(r[k] == t[k - 1]);
                if t[k - 1] != e {
                    let j = choose|j: int| 0 <= j < s.drop_first().len() && s.drop_first()[j] == t[k - 1];
                    assert(s[j + 1] == t[k - 1]);
                }
            }
        }
    } else if s.len() > 0 {
        let r = insert_by_mass(s, e);
        assert forall|k: int| 0 <= k < r.len() implies (#[trigger] r[k] == e || s.contains(r[k])) by {
            if k > 0 {
                assert(r[k] == s[k - 1]);
            }
        }
    }
}

/// Sorting keeps the length and takes its entries from the list.
proof fn lemma_sort_by_mass_facts(s: Seq<(usize, u8)>, n: nat)
    requires
        n <= s.len(),
    ensures
        sort_by_mass(s, n).len() == n,
        forall|k: int| 0 <= k < n ==> s.contains(#[trigger] sort_by_mass(s, n)[k]),
    decreases n,
{
    if n > 0 {
        lemma_sort_by_mass_facts(s, (n - 1) as nat);
        let prev = sort_by_mass(s, (n - 1) as nat);
        lemma_insert_by_mass_facts(prev, s[n - 1]);
        assert forall|k: int| 0 <= k < n implies s.contains(#[trigger] sort_by_mass(s, n)[k]) by {
            let r = sort_by_mass(s, n);
            if r[k] != s[n - 1] {
                let j = choose|j: int| 0 <= j < prev.len() && prev[j] == r[k];
                assert(s.contains(prev[j]));
            }
        }
    }
}

/// The pool's receivers come from the sorted list, its total stays below
/// `256 * (receivers + 1)`.
proof fn lemma_pool_facts(sorted: Seq<(usize, u8)>, remaining: u8, n: nat)
    requires
        n <= sorted.len(),
    ensures
        pool(sorted, remaining, n).1.len() <= n,
        pool(sorted, remaining, n).0 <= 255 * (pool(sorted, remaining, n).1.len() + 1),
        forall|k: int|
            0 <= k < pool(sorted, remaining, n).1.len() ==> sorted.contains(
                #[trigger] pool(sorted, remaining, n).1[k],
            ),
    decreases n,
{
    if n > 0 {
        lemma_pool_facts(sorted, remaining, (n - 1) as nat);
        let (total, rs) = pool(sorted, remaining, (n - 1) as nat);
        let e = sorted[n - 1];
        assert(sorted.contains(e));
        let r = pool(sorted, remaining, n).1;
        assert forall|k: int| 0 <= k < r.len() implies sorted.contains(#[trigger] r[k]) by {
            if k < rs.len() {
                assert(r[k] == rs[k]);
            }
        }
    }
}

/// Sorts a short list by mass, keeping entries of equal mass in their order.
fn sort_neighbors(list: &Vec<(usize, u8)>) -> (r: Vec<(usize, u8)>)
    ensures
        r@ == sort_by_mass(list@, list@.len()),
{
    let mut sorted: Vec<(usize, u8)> = Vec::new();
    let mut i: usize = 0;
    while i < list.len()
        invariant
            i <= list@.len(),
            sorted@ == sort_by_mass(list@, i as nat),
        decreases list.len() - i,
    {
        let e = list[i];
        let ghost before = sorted@;
        proof {
            assert(before.subrange(0, 0) =~= Seq::<(usize, u8)>::empty());
            assert(before.subrange(0, before.len() as int) =~= before);
        }
        // insert e after every entry of no greater mass
        let mut j: usize = 0;
        while j < sorted.len() && sorted[j].1 <= e.1
            invariant
                sorted@ == before,
                j <= before.len(),
                insert_by_mass(before, e) == before.subrange(0, j as int) + insert_by_mass(
                    before.subrange(j as int, before.len() as int),
                    e,
                ),
            decreases sorted.len() - j,
        {
            proof {
                let rest = before.subrange(j as int, before.len() as int);
                assert(rest[0] == before[j as int]);
                assert(rest.drop_first() =~= before.subrange(j + 1, before.len() as int));
                assert(before.subrange(0, j + 1) =~= before.subrange(0, j as int) + seq![before[j as int]]);
                assert(before.subrange(0, j as int) + insert_by_mass(rest, e) =~= before.subrange(
                    0,
                    j + 1,
                ) + insert_by_mass(before.subrange(j + 1, before.len() as int), e));
            }
            j += 1;
        }
        proof {
            let rest = before.subrange(j as int, before.len() as int);
            assert(insert_by_mass(rest, e) =~= seq![e] + rest);
            assert(before =~= before.subrange(0, j as int) + rest);
        }
        sorted.insert(j, e);
        proof {
            let rest = before.subrange(j as int, before.len() as int);
            assert(sorted@ =~= before.subrange(0, j as int) + (seq![e] + rest));
            assert(before.subrange(0, 0) =~= Seq::<(usize, u8)>::empty());
            assert(before.subrange(0, before.len() as int) =~= before);
        }
        i += 1;
    }
    sorted
}

fn spread_flow_cell(world: &mut World, x: usize, y: usize, z: usize, seed: u64)
    requires
        old(world).wf(),
        old(world)@.in_bounds(x as int, y as int, z as int),
    ensures
        final(world).wf(),
        final(world)@ == spread_flow_step(old(world)@, x as int, y as int, z as int, seed),
        final(world)@.sources == old(world)@.sources,
        final(world)@.width == old(world)@.width,
        final(world)@.depth == old(world)@.depth,
        final(world)@.height == old(world)@.height,
{
    reveal(spread_flow_step);
    let ghost v = world@;
    let w = world.width();
    let d = world.depth();
    let idx = world.index(x, y, z);
    let mass = world.mass_at(idx);
    if mass == 0 {
        return;
    }
    let e = (mass as i16).wrapping_add(world.mass_delta_at(idx));
    let remaining: u8 = if e < 0 {
        0
    } else {
        e as u8
    };
    if remaining == 0 {
        return;
    }
    if z > 0 {
        proof {
            lemma_in_bounds_addressable(world@, x as int, y as int, z - 1);
        }
        let below_idx = world.index(x, y, z - 1);
        let be = (world.mass_at(below_idx) as i16).wrapping_add(world.mass_delta_at(below_idx));
        let below_expected: u8 = if be < 0 {
            0
        } else if be > 255 {
            255
        } else {
            be as u8
        };
        if !world.get(x, y, z - 1).is_solid() && below_expected < 255 {
            return;
        }
    }
    // neighbors: west, east, north, south
    let mut lower: Vec<(usize, u8)> = Vec::new();
    let mut k: usize = 0;
    while k < 4
        invariant
            world@ == v,
            world.wf(),
            v.in_bounds(x as int, y as int, z as int),
            w == v.width,
            d == v.depth,
            idx == v.idx(x as int, y as int, z as int),
            remaining == expected_byte(v, idx as int),
            k <= 4,
            lower@ == lower_neighbors(v, x as int, y as int, z as int, remaining, k as nat),
        decreases 4 - k,
    {
        let (ok, nx, ny) = if k == 0 {
            (x > 0, if x > 0 { x - 1 } else { 0 }, y)
        } else if k == 1 {
            (x + 1 < w, x + 1, y)
        } else if k == 2 {
            (y > 0, x, if y > 0 { y - 1 } else { 0 })
        } else {
            (y + 1 < d, x, y + 1)
        };
        proof {
            let (sx, sy) = neighbor_at(v, x as int, y as int, k as int);
            assert(ok == (0 <= sx < v.width && 0 <= sy < v.depth));
            assert(ok ==> sx == nx && sy == ny);
        }
        if ok && !world.get(nx, ny, z).is_solid() {
            let n_idx = world.index(nx, ny, z);
            let ne = (world.mass_at(n_idx) as i16).wrapping_add(world.mass_delta_at(n_idx));
            let n_mass: u8 = if ne < 0 {
                0
            } else {
                ne as u8
            };
            if n_mass < remaining {
                lower.push((n_idx, n_mass));
            }
        }
        k += 1;
    }
    if lower.len() == 0 {
        proof {
            assert(sort_by_mass(lower@, 0) == Seq::<(usize, u8)>::empty());
        }
        return;
    }
    let sorted = sort_neighbors(&lower);
    proof {
        lemma_lower_neighbors_facts(v, x as int, y as int, z as int, remaining, 4);
        lemma_sort_by_mass_facts(lower@, lower@.len());
    }
    let mut total: u16 = remaining as u16;
    let mut receivers: Vec<(usize, u8)> = Vec::new();
    let mut i: usize = 0;
    while i < sorted.len()
        invariant
            i <= sorted@.len(),
            sorted@.len() <= 4,
            (total, receivers@) == pool(sorted@, remaining, i as nat),
        decreases sorted.len() - i,
    {
        proof {
            lemma_pool_facts(sorted@, remaining, i as nat);
        }
        let (n_idx, n_mass) = sorted[i];
        let avg = total / (receivers.len() as u16 + 1);
        if (n_mass as u16) < avg {
            total = total + n_mass as u16;
            receivers.push((n_idx, n_mass));
        }
        i += 1;
    }
    if receivers.len() == 0 {
        return;
    }
    proof {
        lemma_pool_facts(sorted@, remaining, sorted@.len());
    }
    let final_avg = total / (receivers.len() as u16 + 1);
    let mut r: usize = 0;
    while r < receivers.len()
        invariant
            world.wf(),
            world@.width == v.width,
            world@.depth == v.depth,
            world@.height == v.height,
            world@.sources == v.sources,
            world@.size() == v.size(),
            idx < v.size(),
            r <= receivers@.len(),
            forall|q: int| 0 <= q < receivers@.len() ==> sorted@.contains(#[trigger] receivers@[q]),
            forall|q: int| 0 <= q < sorted@.len() ==> lower@.contains(#[trigger] sorted@[q]),
            forall|q: int| 0 <= q < lower@.len() ==> (#[trigger] lower@[q]).0 < v.size(),
            world@ == give(v, idx as int, receivers@, final_avg, remaining, seed, r as nat),
        decreases receivers.len() - r,
    {
        let (n_idx, n_mass) = receivers[r];
        proof {
            assert(sorted@.contains(receivers@[r as int]));
            let q1 = choose|q: int| 0 <= q < sorted@.len() && sorted@[q] == receivers@[r as int];
            assert(lower@.contains(sorted@[q1]));
            let q2 = choose|q: int| 0 <= q < lower@.len() && lower@[q] == sorted@[q1];
            assert(lower@[q2].0 < v.size());
        }
        let transfer: u16 = if final_avg > n_mass as u16 {
            final_avg - n_mass as u16
        } else {
            0
        };
        if transfer != 0 {
            let sed = world.sediment_at(idx);
            let sed_transfer = calc_sediment_transfer(sed, transfer, remaining, idx, seed);
            world.record_flow(idx, n_idx, transfer, sed_transfer);
        }
        r += 1;
    }
}

// ---------------------------------------------------------------------------
// Phase 3: pressure
// ---------------------------------------------------------------------------

/// Pressure at (x, y, z): a cell expected to hold more than 255 pushes the excess into
/// the cell above, unless that cell is solid.
pub open spec fn pressure_step(v: WorldView, x: int, y: int, z: int) -> WorldView {
    let idx = v.idx(x, y, z);
    let above = v.idx(x, y, z + 1);
    let e = expected(v, idx);
    if e <= 255 || is_solid_spec(v.tile(x, y, z + 1)) {
        v
    } else {
        let excess = (e - 255) as i16;
        let md1 = v.mass_delta.update(idx, wsub16(v.mass_delta[idx], excess));
        let md2 = md1.update(above, wadd16(md1[above], excess));
        WorldView { mass_delta: md2, ..v }
    }
}

pub open spec fn pressure_fn() -> spec_fn(WorldView, int, int, int) -> WorldView {
    |v: WorldView, x: int, y: int, z: int| pressure_step(v, x, y, z)
}

fn pressure_cell(world: &mut World, x: usize, y: usize, z: usize)
    requires
        old(world).wf(),
        old(world)@.in_bounds(x as int, y as int, z as int),
        z + 1 < old(world)@.height,
    ensures
        final(world).wf(),
        final(world)@ == pressure_step(old(world)@, x as int, y as int, z as int),
{
    let idx = world.index(x, y, z);
    let expected = (world.mass_at(idx) as i16).wrapping_add(world.mass_delta_at(idx));
    if expected <= 255 {
        return;
    }
    let excess = (expected - 255) as u16;
    proof {
        lemma_in_bounds_addressable(world@, x as int, y as int, z + 1);
    }
    let above_idx = world.index(x, y, z + 1);
    if world.get(x, y, z + 1).is_solid() {
        return;
    }
    let ex = excess as i16;
    let a = world.mass_delta_at(idx).wrapping_sub(ex);
    world.set_mass_delta_at(idx, a);
    let b = world.mass_delta_at(above_idx).wrapping_add(ex);
    world.set_mass_delta_at(above_idx, b);
    proof {
        assert(world@.mass_delta =~= pressure_step(old(world)@, x as int, y as int, z as int).mass_delta);
    }
}

// ---------------------------------------------------------------------------
// The pass
// ---------------------------------------------------------------------------

/// The world with the outflow of every cell reset to zero.
pub open spec fn outflow_cleared(v: WorldView) -> WorldView {
    WorldView { water_outflow: Seq::new(v.size(), |i: int| 0u16), ..v }
}

/// One tick of mass-based flow: the outflow counters start again from zero, then
/// gravity (layers from the top down to 1), horizontal spread (layers from the bottom
/// up), pressure (layers from the bottom up to the one below the top), and every
/// pending delta is applied. The outflow of a cell afterwards is what left it during
/// this pass.
pub open spec fn flow_pass(v: WorldView, seed: u64) -> WorldView {
    let upper = (if v.height >= 1 {
        v.height - 1
    } else {
        0
    }) as nat;
    let p1 = sweep_down(outflow_cleared(v), gravity_flow_fn(seed), v.width, v.depth, v.height as int, upper);
    let p2 = sweep_up(p1, spread_flow_fn(seed), v.width, v.depth, 0, v.height);
    let p3 = sweep_up(p2, pressure_fn(), v.width, v.depth, 0, upper);
    WorldView {
        water_mass: Seq::new(p3.size(), |i: int| applied_u8(p3.water_mass[i], p3.mass_delta[i])),
        mass_delta: Seq::new(p3.size(), |i: int| 0i16),
        water_sediment: Seq::new(
            p3.size(),
            |i: int| applied_u8(p3.water_sediment[i], p3.sediment_delta[i]),
        ),
        sediment_delta: Seq::new(p3.size(), |i: int| 0i16),
        ..p3
    }
}

/// The flow pass does not depend on the outflow left from earlier ticks: two worlds
/// that differ only in their outflow counters come out of the pass the same.
pub proof fn lemma_flow_pass_ignores_outflow(v: WorldView, outflow: Seq<u16>, seed: u64)
    ensures
        flow_pass(WorldView { water_outflow: outflow, ..v }, seed) == flow_pass(v, seed),
{
    assert(outflow_cleared(WorldView { water_outflow: outflow, ..v }) == outflow_cleared(v));
}

/// One tick of mass-based water flow with the given seed for sediment rounding: water
/// falls as far as the cell below can take it, spreads sideways toward an equal level,
/// pushes its excess upward, and the accumulated deltas are applied.
pub fn pass_flow_with_seed(world: &mut World, seed: u64)
    requires
        old(world).wf(),
    ensures
        final(world).wf(),
        final(world)@.sources == old(world)@.sources,
        final(world)@.width == old(world)@.width,
        final(world)@.depth == old(world)@.depth,
        final(world)@.height == old(world)@.height,
        final(world)@ == flow_pass(old(world)@, seed),
{
    let w = world.width();
    let d = world.depth();
    let h = world.height();
    world.clear_outflow();
    let ghost init = world@;
    assert(init == outflow_cleared(old(world)@));
    // Phase 1: gravity, top down
    let mut z = h;
    while z > 1
        invariant
            world.wf(),
            world@.width == w,
            world@.depth == d,
            world@.height == h,
            world@.sources == init.sources,
            init.width == w,
            init.depth == d,
            init.height == h,
            z <= h,
            h >= 1 ==> z >= 1,
            h == 0 ==> z == 0,
            world@ == sweep_down(init, gravity_flow_fn(seed), w as nat, d as nat, h as int, (h - z) as nat),
        decreases z,
    {
        z -= 1;
        let ghost sz = world@;
        let mut y: usize = 0;
        while y < d
            invariant
                world.wf(),
                world@.width == w,
                world@.depth == d,
                world@.height == h,
                world@.sources == init.sources,
                1 <= z < h,
                y <= d,
                world@ == sweep_layer(sz, gravity_flow_fn(seed), z as int, w as nat, y as nat),
            decreases d - y,
        {
            let ghost sy = world@;
            let mut x: usize = 0;
            while x < w
                invariant
                    world.wf(),
                    world@.width == w,
                    world@.depth == d,
                    world@.height == h,
                    world@.sources == init.sources,
                    1 <= z < h,
                    y < d,
                    x <= w,
                    world@ == sweep_row(sy, gravity_flow_fn(seed), y as int, z as int, x as nat),
                decreases w - x,
            {
                gravity_flow_cell(world, x, y, z, seed);
                x += 1;
            }
            y += 1;
        }
    }
    let ghost p1 = world@;
    // Phase 2: horizontal spread, bottom up
    let mut z: usize = 0;
    while z < h
        invariant
            world.wf(),
            world@.width == w,
            world@.depth == d,
            world@.height == h,
            world@.sources == init.sources,
            p1.width == w,
            p1.depth == d,
            p1.height == h,
            z <= h,
            world@ == sweep_up(p1, spread_flow_fn(seed), w as nat, d as nat, 0, z as nat),
        decreases h - z,
    {
        let ghost sz = world@;
        let mut y: usize = 0;
        while y < d
            invariant
                world.wf(),
                world@.width == w,
                world@.depth == d,
                world@.height == h,
                world@.sources == init.sources,
                z < h,
                y <= d,
                world@ == sweep_layer(sz, spread_flow_fn(seed), z as int, w as nat, y as nat),
            decreases d - y,
        {
            let ghost sy = world@;
            let mut x: usize = 0;
            while x < w
                invariant
                    world.wf(),
                    world@.width == w,
                    world@.depth == d,
                    world@.height == h,
                    world@.sources == init.sources,
                    z < h,
                    y < d,
                    x <= w,
                    world@ == sweep_row(sy, spread_flow_fn(seed), y as int, z as int, x as nat),
                decreases w - x,
            {
                spread_flow_cell(world, x, y, z, seed);
                x += 1;
            }
            y += 1;
        }
        z += 1;
    }
    let ghost p2 = world@;
    // Phase 3: pressure, bottom up
    let top = if h >= 1 {
        h - 1
    } else {
        0
    };
    let mut z: usize = 0;
    while z < top
        invariant
            world.wf(),
            world@.width == w,
            world@.depth == d,
            world@.height == h,
            world@.sources == init.sources,
            p2.width == w,
            p2.depth == d,
            p2.height == h,
            top == (if h >= 1 {
                h - 1
            } else {
                0
            }),
            z <= top,
            world@ == sweep_up(p2, pressure_fn(), w as nat, d as nat, 0, z as nat),
        decreases top - z,
    {
        let ghost sz = world@;
        let mut y: usize = 0;
        while y < d
            invariant
                world.wf(),
                world@.width == w,
                world@.depth == d,
                world@.height == h,
                world@.sources == init.sources,
                z + 1 < h,
                y <= d,
                world@ == sweep_layer(sz, pressure_fn(), z as int, w as nat, y as nat),
            decreases d - y,
        {
            let ghost sy = world@;
            let mut x: usize = 0;
            while x < w
                invariant
                    world.wf(),
                    world@.width == w,
                    world@.depth == d,
                    world@.height == h,
                    world@.sources == init.sources,
                    z + 1 < h,
                    y < d,
                    x <= w,
                    world@ == sweep_row(sy, pressure_fn(), y as int, z as int, x as nat),
                decreases w - x,
            {
                pressure_cell(world, x, y, z);
                x += 1;
            }
            y += 1;
        }
        z += 1;
    }
    // Phase 4: apply
    world.apply_water_deltas();
}

} // verus!
