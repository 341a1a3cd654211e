use vstd::prelude::*;
use crate::tile::is_solid_spec;
use crate::world::{WorldView, lemma_in_bounds_addressable, lemma_idx_injective, wadd16, wsub16, applied_u8};
use crate::water::flow::{outflow_cleared, 
    flow_pass, gravity_flow_step, gravity_flow_fn, spread_flow_fn, pressure_fn, spread_flow_step, pressure_step, expected, expected_byte,
    lower_neighbors, neighbor_at, sort_by_mass, insert_by_mass, pool, give,
};
use crate::water::mass_evaporation::{sum_u8, lemma_sum_u8_update};
use crate::sweep::{sweep_down, sweep_up, lemma_down_prog, lemma_up_prog, lemma_up_keeps, lemma_down_keeps};

verus! {

// The mass model records every flow as a pair of pending deltas before it applies
// them. The laws here say that the steps and phases of the flow pass move water and
// never create or destroy it (as long as the pending deltas stay far from the ends of
// `i16`), that the whole pass conserves water when nothing ends over-full, and that
// water never flows uphill.

/// The sum of a sequence of `i16` values.
pub open spec fn sum_i16(s: Seq<i16>) -> int
    decreases s.len(),
{
    if s.len() == 0 {
        0
    } else {
        sum_i16(s.drop_last()) + s.last()
    }
}

pub proof fn lemma_sum_i16_update(s: Seq<i16>, i: int, a: i16)
    requires
        0 <= i < s.len(),
    ensures
        sum_i16(s.update(i, a)) == sum_i16(s) - s[i] + a,
    decreases s.len(),
{
    let t = s.update(i, a);
    if i == s.len() - 1 {
        assert(t.drop_last() =~= s.drop_last());
    } else {
        assert(t.drop_last() =~= s.drop_last().update(i, a));
        lemma_sum_i16_update(s.drop_last(), i, a);
    }
}

/// The water of a world, counting the flows recorded but not yet applied.
pub open spec fn pending_total(v: WorldView) -> int {
    sum_u8(v.water_mass) + sum_i16(v.mass_delta)
}

/// Every pending mass delta lies within -b..=b.
pub open spec fn deltas_within(v: WorldView, b: int) -> bool {
    forall|i: int| 0 <= i < v.mass_delta.len() ==> -b <= #[trigger] v.mass_delta[i] <= b
}

/// `s` has the layout of `v`, the same water masses, and pending deltas that differ
/// from those of `v` by at most `k` each.
pub open spec fn moved_at_most(v: WorldView, s: WorldView, k: int) -> bool {
    &&& s.wf()
    &&& s.width == v.width && s.depth == v.depth && s.height == v.height
    &&& s.tiles == v.tiles
    &&& s.water_mass == v.water_mass
    &&& forall|i: int| 0 <= i < v.mass_delta.len() ==> -k <= #[trigger] s.mass_delta[i] - v.mass_delta[i] <= k
}

proof fn lemma_moved_within(v: WorldView, s: WorldView, b: int, k: int)
    requires
        v.wf(),
        deltas_within(v, b),
        moved_at_most(v, s, k),
    ensures
        deltas_within(s, b + k),
{
    assert forall|i: int| 0 <= i < s.mass_delta.len() implies -(b + k) <= #[trigger] s.mass_delta[i] <= b + k by {
        assert(-b <= v.mass_delta[i] <= b);
    }
}

proof fn lemma_moved_weaken(v: WorldView, s: WorldView, k1: int, k2: int)
    requires
        moved_at_most(v, s, k1),
        k1 <= k2,
    ensures
        moved_at_most(v, s, k2),
{
}

proof fn lemma_moved_trans(v: WorldView, s: WorldView, t: WorldView, k1: int, k2: int)
    requires
        v.wf(),
        moved_at_most(v, s, k1),
        moved_at_most(s, t, k2),
    ensures
        moved_at_most(v, t, k1 + k2),
{
    assert forall|i: int| 0 <= i < v.mass_delta.len() implies -(k1 + k2) <= #[trigger] t.mass_delta[i] - v.mass_delta[i]
        <= k1 + k2 by {
        assert(-k1 <= s.mass_delta[i] - v.mass_delta[i] <= k1);
        assert(-k2 <= t.mass_delta[i] - s.mass_delta[i] <= k2);
    }
}

/// One recorded flow moves `amount` from one pending delta to another.
proof fn lemma_flow_moves(v: WorldView, from: int, to: int, amount: u16, sed: i16, b: int)
    requires
        v.wf(),
        0 <= from < v.size(),
        0 <= to < v.size(),
        from != to,
        amount <= 255,
        deltas_within(v, b),
        b + 255 <= 32767,
    ensures
        pending_total(v.record_flow(from, to, amount, sed)) == pending_total(v),
        moved_at_most(v, v.record_flow(from, to, amount, sed), amount as int),
{
    let r = v.record_flow(from, to, amount, sed);
    let a = amount as i16;
    assert(-b <= v.mass_delta[from] <= b);
    assert(-b <= v.mass_delta[to] <= b);
    let md1 = v.mass_delta.update(from, wsub16(v.mass_delta[from], a));
    assert(wsub16(v.mass_delta[from], a) == v.mass_delta[from] - a);
    assert(md1[to] == v.mass_delta[to]);
    assert(wadd16(md1[to], a) == v.mass_delta[to] + a);
    lemma_sum_i16_update(v.mass_delta, from, wsub16(v.mass_delta[from], a));
    lemma_sum_i16_update(md1, to, wadd16(md1[to], a));
}

/// The gravity step of the flow pass moves water between pending deltas and creates or
/// loses none, when every pending delta lies within -32512..=32512.
pub proof fn lemma_gravity_flow_conserves(v: WorldView, x: int, y: int, z: int, seed: u64)
    requires
        v.wf(),
        v.in_bounds(x, y, z),
        z >= 1,
        deltas_within(v, 32512),
    ensures
        pending_total(gravity_flow_step(v, x, y, z, seed)) == pending_total(v),
        moved_at_most(v, gravity_flow_step(v, x, y, z, seed), 255),
{
    let r = gravity_flow_step(v, x, y, z, seed);
    lemma_in_bounds_addressable(v, x, y, z);
    lemma_in_bounds_addressable(v, x, y, z - 1);
    let idx = v.idx(x, y, z);
    let below = v.idx(x, y, z - 1);
    if idx == below {
        lemma_idx_injective(v, x, y, z, x, y, z - 1);
    }
    let mass = v.water_mass[idx];
    let below_mass = v.water_mass[below];
    if !(mass == 0 || is_solid_spec(v.tile(x, y, z - 1)) || below_mass >= 255) {
        let capacity = (255 - below_mass) as u16;
        let transfer: u16 = if (mass as u16) < capacity {
            mass as u16
        } else {
            capacity
        };
        let sed = crate::water::flow::sediment_transfer_spec(v.water_sediment[idx], transfer, mass, idx, seed);
        lemma_flow_moves(v, idx, below, transfer, sed, 32512);
    }
}

/// Everything sorting by mass returns was in the list sorted.
proof fn lemma_insert_members(s: Seq<(usize, u8)>, e: (usize, u8), p: spec_fn((usize, u8)) -> bool)
    requires
        forall|j: int| 0 <= j < s.len() ==> #[trigger] p(s[j]),
        p(e),
    ensures
        forall|j: int| 0 <= j < insert_by_mass(s, e).len() ==> #[trigger] p(insert_by_mass(s, e)[j]),
        insert_by_mass(s, e).len() == s.len() + 1,
    decreases s.len(),
{
    if s.len() > 0 && s[0].1 <= e.1 {
        let rest = s.drop_first();
        assert forall|j: int| 0 <= j < rest.len() implies #[trigger] p(rest[j]) by {
            assert(rest[j] == s[j + 1]);
        }
        lemma_insert_members(rest, e, p);
        let r = insert_by_mass(s, e);
        assert forall|j: int| 0 <= j < r.len() implies #[trigger] p(r[j]) by {
            if j > 0 {
                assert(r[j] == insert_by_mass(rest, e)[j - 1]);
            }
        }
    } else if s.len() > 0 {
        let r = insert_by_mass(s, e);
        assert forall|j: int| 0 <= j < r.len() implies #[trigger] p(r[j]) by {
            if j > 0 {
                assert(r[j] == s[j - 1]);
            }
        }
    }
}

proof fn lemma_sort_members(s: Seq<(usize, u8)>, n: nat, p: spec_fn((usize, u8)) -> bool)
    requires
        n <= s.len(),
        forall|j: int| 0 <= j < s.len() ==> #[trigger] p(s[j]),
    ensures
        forall|j: int| 0 <= j < sort_by_mass(s, n).len() ==> #[trigger] p(sort_by_mass(s, n)[j]),
        sort_by_mass(s, n).len() == n,
    decreases n,
{
    if n > 0 {
        lemma_sort_members(s, (n - 1) as nat, p);
        lemma_insert_members(sort_by_mass(s, (n - 1) as nat), s[n - 1], p);
    }
}

/// The receivers of a pool come from the sorted list, there are no more of them than
/// entries looked at, and the pool holds at most 255 per member (the giver included).
proof fn lemma_pool_members(sorted: Seq<(usize, u8)>, remaining: u8, n: nat, p: spec_fn((usize, u8)) -> bool)
    requires
        n <= sorted.len(),
        forall|j: int| 0 <= j < sorted.len() ==> #[trigger] p(sorted[j]),
    ensures
        forall|j: int| 0 <= j < pool(sorted, remaining, n).1.len() ==> #[trigger] p(pool(sorted, remaining, n).1[j]),
        pool(sorted, remaining, n).1.len() <= n,
        pool(sorted, remaining, n).0 <= 255 * (pool(sorted, remaining, n).1.len() + 1),
    decreases n,
{
    if n > 0 {
        lemma_pool_members(sorted, remaining, (n - 1) as nat, p);
        let (total, rs) = pool(sorted, remaining, (n - 1) as nat);
        let e = sorted[n - 1];
        let r = pool(sorted, remaining, n);
        assert forall|j: int| 0 <= j < r.1.len() implies #[trigger] p(r.1[j]) by {
            if j < rs.len() {
                assert(r.1[j] == rs[j]) by {
                    if r.1 != rs {
                        assert(r.1 == rs.push(e));
                    }
                }
            }
        }
    }
}

/// Giving to the first `n` receivers moves at most 255 per receiver and keeps the total.
proof fn lemma_give_moves(
    v: WorldView,
    idx: int,
    rs: Seq<(usize, u8)>,
    avg: u16,
    remaining: u8,
    seed: u64,
    n: nat,
)
    requires
        v.wf(),
        0 <= idx < v.size(),
        n <= rs.len(),
        rs.len() <= 4,
        avg <= 255,
        forall|j: int| 0 <= j < rs.len() ==> (#[trigger] rs[j]).0 < v.size() && rs[j].0 != idx,
        deltas_within(v, 31747),
    ensures
        pending_total(give(v, idx, rs, avg, remaining, seed, n)) == pending_total(v),
        moved_at_most(v, give(v, idx, rs, avg, remaining, seed, n), 255 * n as int),
    decreases n,
{
    if n == 0 {
        assert(moved_at_most(v, v, 0));
    } else {
        assert(rs[n - 1].0 < v.size() && rs[n - 1].0 != idx);
        lemma_give_moves(v, idx, rs, avg, remaining, seed, (n - 1) as nat);
        let prev = give(v, idx, rs, avg, remaining, seed, (n - 1) as nat);
        let (n_idx, n_mass) = rs[n - 1];
        let transfer: u16 = if avg > n_mass as u16 {
            (avg - n_mass) as u16
        } else {
            0
        };
        if transfer != 0 {
            lemma_moved_within(v, prev, 31747, 255 * (n - 1));
            let sed = crate::water::flow::sediment_transfer_spec(prev.water_sediment[idx], transfer, remaining, idx, seed);
            assert(rs[n - 1].0 < v.size());
            lemma_flow_moves(prev, idx, n_idx as int, transfer, sed, 31747 + 255 * (n - 1));
            lemma_moved_trans(v, prev, prev.record_flow(idx, n_idx as int, transfer, sed), 255 * (n - 1), transfer as int);
        } else {
            lemma_moved_weaken(v, prev, 255 * (n - 1), 255 * n as int);
        }
    }
}

/// The lower neighbors of a cell are other cells of the world.
proof fn lemma_lower_neighbors_cells(v: WorldView, x: int, y: int, z: int, remaining: u8, n: nat)
    requires
        v.wf(),
        v.in_bounds(x, y, z),
        n <= 4,
    ensures
        lower_neighbors(v, x, y, z, remaining, n).len() <= n,
        forall|j: int|
            0 <= j < lower_neighbors(v, x, y, z, remaining, n).len() ==> (#[trigger] lower_neighbors(
                v,
                x,
                y,
                z,
                remaining,
                n,
            )[j]).0 < v.size() && lower_neighbors(v, x, y, z, remaining, n)[j].0 != v.idx(x, y, z),
    decreases n,
{
    if n > 0 {
        lemma_lower_neighbors_cells(v, x, y, z, remaining, (n - 1) as nat);
        let (nx, ny) = neighbor_at(v, x, y, n - 1);
        if 0 <= nx < v.width && 0 <= ny < v.depth {
            lemma_in_bounds_addressable(v, nx, ny, z);
            lemma_in_bounds_addressable(v, x, y, z);
            if v.idx(nx, ny, z) == v.idx(x, y, z) {
                lemma_idx_injective(v, nx, ny, z, x, y, z);
            }
        }
    }
}

/// The spread step of the flow pass moves water between pending deltas and creates or
/// loses none, when every pending delta lies within -31747..=31747.
pub proof fn lemma_spread_flow_conserves(v: WorldView, x: int, y: int, z: int, seed: u64)
    requires
        v.wf(),
        v.in_bounds(x, y, z),
        deltas_within(v, 31747),
    ensures
        pending_total(spread_flow_step(v, x, y, z, seed)) == pending_total(v),
        moved_at_most(v, spread_flow_step(v, x, y, z, seed), 1020),
{
    reveal(spread_flow_step);
    lemma_in_bounds_addressable(v, x, y, z);
    let idx = v.idx(x, y, z);
    let remaining = expected_byte(v, idx);
    let r = spread_flow_step(v, x, y, z, seed);
    if r == v {
        assert(moved_at_most(v, v, 0));
        lemma_moved_weaken(v, v, 0, 1020);
    } else {
        let lower = lower_neighbors(v, x, y, z, remaining, 4);
        let p = |e: (usize, u8)| e.0 < v.size() && e.0 != idx;
        lemma_lower_neighbors_cells(v, x, y, z, remaining, 4);
        assert forall|j: int| 0 <= j < lower.len() implies #[trigger] p(lower[j]) by {}
        let sorted = sort_by_mass(lower, lower.len());
        lemma_sort_members(lower, lower.len(), p);
        let (total, rs) = pool(sorted, remaining, sorted.len());
        lemma_pool_members(sorted, remaining, sorted.len(), p);
        let avg = total / (rs.len() + 1) as u16;
        assert(avg <= 255) by (nonlinear_arith)
            requires
                total <= 255 * (rs.len() + 1),
                avg == total / (rs.len() + 1) as u16,
                rs.len() <= 4,
        ;
        assert forall|j: int| 0 <= j < rs.len() implies (#[trigger] rs[j]).0 < v.size() && rs[j].0 != idx by {
            assert(p(rs[j]));
        }
        lemma_give_moves(v, idx, rs, avg, remaining, seed, rs.len());
        lemma_moved_weaken(v, r, 255 * rs.len() as int, 1020);
    }
}

/// The pressure step of the flow pass moves the excess of an overfull cell into the
/// pending delta of the cell above and creates or loses no water, when every pending
/// delta lies within -16000..=16000.
pub proof fn lemma_pressure_conserves(v: WorldView, x: int, y: int, z: int)
    requires
        v.wf(),
        v.in_bounds(x, y, z),
        z + 1 < v.height,
        deltas_within(v, 16000),
    ensures
        pending_total(pressure_step(v, x, y, z)) == pending_total(v),
        pressure_step(v, x, y, z).water_mass == v.water_mass,
{
    lemma_in_bounds_addressable(v, x, y, z);
    lemma_in_bounds_addressable(v, x, y, z + 1);
    let idx = v.idx(x, y, z);
    let above = v.idx(x, y, z + 1);
    if idx == above {
        lemma_idx_injective(v, x, y, z, x, y, z + 1);
    }
    let e = expected(v, idx);
    assert(-16000 <= v.mass_delta[idx] <= 16000);
    assert(-16000 <= v.mass_delta[above] <= 16000);
    if !(e <= 255 || is_solid_spec(v.tile(x, y, z + 1))) {
        assert(e == v.water_mass[idx] + v.mass_delta[idx]);
        let excess = (e - 255) as i16;
        let md1 = v.mass_delta.update(idx, wsub16(v.mass_delta[idx], excess));
        assert(wsub16(v.mass_delta[idx], excess) == v.mass_delta[idx] - excess);
        assert(md1[above] == v.mass_delta[above]);
        assert(wadd16(md1[above], excess) == v.mass_delta[above] + excess);
        lemma_sum_i16_update(v.mass_delta, idx, wsub16(v.mass_delta[idx], excess));
        lemma_sum_i16_update(md1, above, wadd16(md1[above], excess));
    }
}

proof fn lemma_applied_prefix(m: Seq<u8>, dl: Seq<i16>, n: nat)
    requires
        n <= m.len(),
        dl.len() == m.len(),
        forall|i: int| 0 <= i < m.len() ==> -32000 <= #[trigger] dl[i] <= 32000,
        forall|i: int| 0 <= i < m.len() ==> 0 <= m[i] + #[trigger] dl[i] <= 255,
    ensures
        sum_u8(Seq::new(n, |i: int| applied_u8(m[i], dl[i]))) == sum_u8(m.take(n as int)) + sum_i16(
            dl.take(n as int),
        ),
    decreases n,
{
    if n == 0 {
        assert(Seq::new(0, |i: int| applied_u8(m[i], dl[i])) =~= Seq::<u8>::empty());
        assert(m.take(0) =~= Seq::<u8>::empty());
        assert(dl.take(0) =~= Seq::<i16>::empty());
    } else {
        lemma_applied_prefix(m, dl, (n - 1) as nat);
        let k = n - 1;
        let f = Seq::new(n, |i: int| applied_u8(m[i], dl[i]));
        assert(f.drop_last() =~= Seq::new((n - 1) as nat, |i: int| applied_u8(m[i], dl[i])));
        assert(m.take(n as int).drop_last() =~= m.take(k));
        assert(dl.take(n as int).drop_last() =~= dl.take(k));
        assert(-32000 <= dl[k] <= 32000);
        assert(0 <= m[k] + dl[k] <= 255);
        assert(wadd16(m[k] as i16, dl[k]) == m[k] + dl[k]);
    }
}

/// Applying the pending deltas turns them into water mass without loss, when every
/// cell's expected mass (its mass plus its delta) lies within 0..=255 and every delta
/// within -32000..=32000: the total mass afterwards is the pending total before.
pub proof fn lemma_apply_conserves(v: WorldView)
    requires
        v.wf(),
        deltas_within(v, 32000),
        forall|i: int| 0 <= i < v.size() ==> 0 <= v.water_mass[i] + #[trigger] v.mass_delta[i] <= 255,
    ensures
        sum_u8(Seq::new(v.size(), |i: int| applied_u8(v.water_mass[i], v.mass_delta[i]))) == pending_total(v),
{
    lemma_applied_prefix(v.water_mass, v.mass_delta, v.size());
    assert(v.water_mass.take(v.size() as int) =~= v.water_mass);
    assert(v.mass_delta.take(v.size() as int) =~= v.mass_delta);
}

/// The position of cell (x, y, z) in the top-down sweep of the gravity phase.
pub open spec fn down_pos(v: WorldView, x: int, y: int, z: int) -> int {
    (v.height - 1 - z) * (v.width * v.depth) + y * v.width + x
}

/// Where the gravity phase stands after visiting `k` cells: only pending deltas have
/// changed, the pending total has not, and a cell's delta has moved by at most 255 —
/// down only if the cell was visited (it gave), up only if the cell above it was
/// visited (it received).
pub open spec fn gravity_progress(v: WorldView, t: WorldView, k: int) -> bool {
    &&& moved_at_most(v, t, 255)
    &&& pending_total(t) == pending_total(v)
    &&& forall|x: int, y: int, z: int|
        #![trigger t.mass_delta[v.idx(x, y, z)]]
        v.in_bounds(x, y, z) ==> {
            let dl = t.mass_delta[v.idx(x, y, z)] - v.mass_delta[v.idx(x, y, z)];
            &&& (if z >= 1 && down_pos(v, x, y, z) < k {
                -255int
            } else {
                0int
            }) <= dl
            &&& dl <= (if z + 1 < v.height && down_pos(v, x, y, z + 1) < k {
                255int
            } else {
                0int
            })
        }
}

proof fn lemma_gravity_progress_step(v: WorldView, t: WorldView, x: int, y: int, z: int, seed: u64)
    requires
        v.wf(),
        deltas_within(v, 32000),
        v.in_bounds(x, y, z),
        z >= 1,
        gravity_progress(v, t, down_pos(v, x, y, z)),
    ensures
        gravity_progress(v, gravity_flow_step(t, x, y, z, seed), down_pos(v, x, y, z) + 1),
{
    let k = down_pos(v, x, y, z);
    let r = gravity_flow_step(t, x, y, z, seed);
    lemma_in_bounds_addressable(v, x, y, z);
    lemma_in_bounds_addressable(v, x, y, z - 1);
    let idx = v.idx(x, y, z);
    let below = v.idx(x, y, z - 1);
    let wd = v.width * v.depth;
    assert(wd > 0) by (nonlinear_arith)
        requires
            0 <= x < v.width,
            0 <= y < v.depth,
            wd == v.width * v.depth,
    ;
    assert(down_pos(v, x, y, z - 1) == k + wd) by (nonlinear_arith)
        requires
            k == (v.height - 1 - z) * (v.width * v.depth) + y * v.width + x,
            down_pos(v, x, y, z - 1) == (v.height - 1 - (z - 1)) * (v.width * v.depth) + y * v.width + x,
            wd == v.width * v.depth,
    ;
    lemma_moved_within(v, t, 32000, 255);
    if r == t {
        assert(gravity_progress(v, r, k + 1)) by {
            assert forall|a: int, b: int, c: int|
                #![trigger r.mass_delta[v.idx(a, b, c)]]
                v.in_bounds(a, b, c) implies {
                let dl = r.mass_delta[v.idx(a, b, c)] - v.mass_delta[v.idx(a, b, c)];
                &&& (if c >= 1 && down_pos(v, a, b, c) < k + 1 {
                    -255int
                } else {
                    0int
                }) <= dl
                &&& dl <= (if c + 1 < v.height && down_pos(v, a, b, c + 1) < k + 1 {
                    255int
                } else {
                    0int
                })
            } by {
                assert(t.mass_delta[v.idx(a, b, c)] == r.mass_delta[v.idx(a, b, c)]);
            }
        }
    } else {
        let mass = t.water_mass[idx];
        let below_mass = t.water_mass[below];
        let capacity = (255 - below_mass) as u16;
        let transfer: u16 = if (mass as u16) < capacity {
            mass as u16
        } else {
            capacity
        };
        let sed = crate::water::flow::sediment_transfer_spec(t.water_sediment[idx], transfer, mass, idx, seed);
        assert(r == t.record_flow(idx, below, transfer, sed));
        if idx == below {
            lemma_idx_injective(v, x, y, z, x, y, z - 1);
        }
        lemma_flow_moves(t, idx, below, transfer, sed, 32255);
        lemma_moved_trans(v, t, r, 255, transfer as int);
        // the giver had received at most, and the receiver had not changed yet
        assert(t.mass_delta[v.idx(x, y, z)] - v.mass_delta[idx] >= 0);
        assert(t.mass_delta[v.idx(x, y, z - 1)] - v.mass_delta[below] == 0);
        assert(r.mass_delta[idx] == t.mass_delta[idx] - transfer);
        assert(r.mass_delta[below] == t.mass_delta[below] + transfer);
        assert forall|a: int, b: int, c: int|
            #![trigger r.mass_delta[v.idx(a, b, c)]]
            v.in_bounds(a, b, c) implies {
            let dl = r.mass_delta[v.idx(a, b, c)] - v.mass_delta[v.idx(a, b, c)];
            &&& (if c >= 1 && down_pos(v, a, b, c) < k + 1 {
                -255int
            } else {
                0int
            }) <= dl
            &&& dl <= (if c + 1 < v.height && down_pos(v, a, b, c + 1) < k + 1 {
                255int
            } else {
                0int
            })
        } by {
            lemma_in_bounds_addressable(v, a, b, c);
            let i = v.idx(a, b, c);
            if i == idx {
                lemma_idx_injective(v, a, b, c, x, y, z);
            } else if i == below {
                lemma_idx_injective(v, a, b, c, x, y, z - 1);
            } else {
                assert(r.mass_delta[i] == t.mass_delta[i]);
                assert(t.mass_delta[v.idx(a, b, c)] == t.mass_delta[i]);
            }
        }
        assert(moved_at_most(v, r, 255)) by {
            assert forall|i: int| 0 <= i < v.mass_delta.len() implies -255 <= #[trigger] r.mass_delta[i] - v.mass_delta[i]
                <= 255 by {
                if i != idx && i != below {
                    assert(r.mass_delta[i] == t.mass_delta[i]);
                }
            }
        }
    }
}

/// The gravity phase of the flow pass moves water between pending deltas and creates or
/// loses none: it keeps the water masses and the pending total, and moves no delta by
/// more than 255 (when the deltas start within -32000..=32000).
pub proof fn lemma_gravity_phase_conserves(v: WorldView, seed: u64)
    requires
        v.wf(),
        deltas_within(v, 32000),
    ensures
        pending_total(sweep_down(v, gravity_flow_fn(seed), v.width, v.depth, v.height as int, (if v.height >= 1 {
            v.height - 1
        } else {
            0
        }) as nat)) == pending_total(v),
        moved_at_most(v, sweep_down(v, gravity_flow_fn(seed), v.width, v.depth, v.height as int, (if v.height >= 1 {
            v.height - 1
        } else {
            0
        }) as nat), 255),
{
    let n = (if v.height >= 1 {
        v.height - 1
    } else {
        0
    }) as nat;
    let p = |t: WorldView, k: int| gravity_progress(v, t, k);
    assert(moved_at_most(v, v, 0));
    assert(p(v, 0));
    assert forall|t: WorldView, x: int, y: int, z: int|
        0 <= x < v.width && 0 <= y < v.depth && v.height - n <= z < v.height && p(
            t,
            (v.height - 1 - z) * (v.width * v.depth) + y * v.width + x,
        ) implies p(
        #[trigger] gravity_flow_fn(seed)(t, x, y, z),
        (v.height - 1 - z) * (v.width * v.depth) + y * v.width + x + 1,
    ) by {
        lemma_gravity_progress_step(v, t, x, y, z, seed);
    }
    lemma_down_prog(v, gravity_flow_fn(seed), p, v.width, v.depth, v.height as int, n);
}

/// What receiver `j` gets from a give toward the average `avg`.
pub open spec fn gift(rs: Seq<(usize, u8)>, avg: u16, j: int) -> int {
    if avg > rs[j].1 as u16 {
        avg - rs[j].1
    } else {
        0
    }
}

/// What the first `n` receivers get in all.
pub open spec fn given_sum(rs: Seq<(usize, u8)>, avg: u16, n: nat) -> int
    decreases n,
{
    if n == 0 {
        0
    } else {
        given_sum(rs, avg, (n - 1) as nat) + gift(rs, avg, n - 1)
    }
}

/// What cell `i` gets from the first `n` receivers' gifts.
pub open spec fn received(rs: Seq<(usize, u8)>, avg: u16, i: int, n: nat) -> int
    decreases n,
{
    if n == 0 {
        0
    } else {
        received(rs, avg, i, (n - 1) as nat) + (if rs[n - 1].0 == i {
            gift(rs, avg, n - 1)
        } else {
            0
        })
    }
}

/// The receivers name distinct cells.
pub open spec fn distinct_cells(rs: Seq<(usize, u8)>) -> bool {
    forall|a: int, b: int| 0 <= a < b < rs.len() ==> (#[trigger] rs[a]).0 != (#[trigger] rs[b]).0
}

proof fn lemma_gift_sums(rs: Seq<(usize, u8)>, avg: u16, i: int, n: nat)
    requires
        n <= rs.len(),
        avg <= 255,
        distinct_cells(rs),
    ensures
        0 <= given_sum(rs, avg, n) <= 255 * n,
        0 <= received(rs, avg, i, n) <= 255,
        (forall|j: int| 0 <= j < n ==> (#[trigger] rs[j]).0 != i) ==> received(rs, avg, i, n) == 0,
        received(rs, avg, i, n) != 0 ==> exists|j: int| 0 <= j < n && (#[trigger] rs[j]).0 == i,
    decreases n,
{
    if n > 0 {
        lemma_gift_sums(rs, avg, i, (n - 1) as nat);
        if rs[n - 1].0 == i {
            assert forall|j: int| 0 <= j < n - 1 implies (#[trigger] rs[j]).0 != i by {
                assert(rs[j].0 != rs[n - 1].0);
            }
        }
        if received(rs, avg, i, n) != 0 && received(rs, avg, i, (n - 1) as nat) != 0 {
            let j = choose|j: int| 0 <= j < n - 1 && (#[trigger] rs[j]).0 == i;
            assert(0 <= j < n && rs[j].0 == i);
        }
        if received(rs, avg, i, n) != 0 && received(rs, avg, i, (n - 1) as nat) == 0 {
            assert(rs[n - 1].0 == i);
        }
    }
}

/// Exactly what giving to the first `n` receivers does to the pending deltas: the giver
/// loses what the receivers get, and each receiver gets its gift.
proof fn lemma_give_effect(
    v: WorldView,
    idx: int,
    rs: Seq<(usize, u8)>,
    avg: u16,
    remaining: u8,
    seed: u64,
    n: nat,
)
    requires
        v.wf(),
        0 <= idx < v.size(),
        n <= rs.len(),
        rs.len() <= 4,
        avg <= 255,
        forall|j: int| 0 <= j < rs.len() ==> (#[trigger] rs[j]).0 < v.size() && rs[j].0 != idx,
        deltas_within(v, 31747),
    ensures
        forall|i: int|
            0 <= i < v.size() ==> #[trigger] give(v, idx, rs, avg, remaining, seed, n).mass_delta[i] == v.mass_delta[i]
                + (if i == idx {
                -given_sum(rs, avg, n)
            } else {
                received(rs, avg, i, n)
            }),
    decreases n,
{
    lemma_give_moves(v, idx, rs, avg, remaining, seed, n);
    if n > 0 {
        lemma_give_effect(v, idx, rs, avg, remaining, seed, (n - 1) as nat);
        lemma_give_moves(v, idx, rs, avg, remaining, seed, (n - 1) as nat);
        let prev = give(v, idx, rs, avg, remaining, seed, (n - 1) as nat);
        let (n_idx, n_mass) = rs[n - 1];
        let transfer: u16 = if avg > n_mass as u16 {
            (avg - n_mass) as u16
        } else {
            0
        };
        assert(rs[n - 1].0 < v.size() && rs[n - 1].0 != idx);
        if transfer != 0 {
            lemma_moved_within(v, prev, 31747, 255 * (n - 1));
            let sed = crate::water::flow::sediment_transfer_spec(prev.water_sediment[idx], transfer, remaining, idx, seed);
            let r = prev.record_flow(idx, n_idx as int, transfer, sed);
            assert(-(31747 + 255 * (n - 1)) <= prev.mass_delta[idx] <= 31747 + 255 * (n - 1));
            assert(-(31747 + 255 * (n - 1)) <= prev.mass_delta[n_idx as int] <= 31747 + 255 * (n - 1));
            assert forall|i: int| 0 <= i < v.size() implies #[trigger] r.mass_delta[i] == v.mass_delta[i] + (if i == idx {
                -given_sum(rs, avg, n)
            } else {
                received(rs, avg, i, n)
            }) by {
                assert(prev.mass_delta[i] == v.mass_delta[i] + (if i == idx {
                    -given_sum(rs, avg, (n - 1) as nat)
                } else {
                    received(rs, avg, i, (n - 1) as nat)
                }));
            }
        } else {
            assert forall|i: int| 0 <= i < v.size() implies #[trigger] prev.mass_delta[i] == v.mass_delta[i] + (if i == idx {
                -given_sum(rs, avg, n)
            } else {
                received(rs, avg, i, n)
            }) by {
                assert(prev.mass_delta[i] == v.mass_delta[i] + (if i == idx {
                    -given_sum(rs, avg, (n - 1) as nat)
                } else {
                    received(rs, avg, i, (n - 1) as nat)
                }));
            }
        }
    }
}

/// Cell `i` is one of the side neighbors of (x, y, z) within the world.
pub open spec fn is_side_neighbor(v: WorldView, x: int, y: int, z: int, i: int) -> bool {
    ||| (x >= 1 && i == v.idx(x - 1, y, z))
    ||| (x + 1 < v.width && i == v.idx(x + 1, y, z))
    ||| (y >= 1 && i == v.idx(x, y - 1, z))
    ||| (y + 1 < v.depth && i == v.idx(x, y + 1, z))
}

/// The index of side neighbor `j` of (x, y, z), when it lies within the world.
pub open spec fn side_index(v: WorldView, x: int, y: int, z: int, j: int) -> Option<int> {
    let (nx, ny) = neighbor_at(v, x, y, j);
    if 0 <= nx < v.width && 0 <= ny < v.depth {
        Some(v.idx(nx, ny, z))
    } else {
        None
    }
}

proof fn lemma_lower_neighbors_distinct(v: WorldView, x: int, y: int, z: int, remaining: u8, n: nat)
    requires
        v.wf(),
        v.in_bounds(x, y, z),
        n <= 4,
    ensures
        distinct_cells(lower_neighbors(v, x, y, z, remaining, n)),
        forall|a: int|
            #![trigger lower_neighbors(v, x, y, z, remaining, n)[a]]
            0 <= a < lower_neighbors(v, x, y, z, remaining, n).len() ==> exists|j: int|
                0 <= j < n && #[trigger] side_index(v, x, y, z, j) == Some(
                    (lower_neighbors(v, x, y, z, remaining, n)[a]).0 as int,
                ),
    decreases n,
{
    if n > 0 {
        lemma_lower_neighbors_distinct(v, x, y, z, remaining, (n - 1) as nat);
        let prev = lower_neighbors(v, x, y, z, remaining, (n - 1) as nat);
        let cur = lower_neighbors(v, x, y, z, remaining, n);
        let (nx, ny) = neighbor_at(v, x, y, n - 1);
        if cur != prev {
            assert(0 <= nx < v.width && 0 <= ny < v.depth);
            lemma_in_bounds_addressable(v, nx, ny, z);
            let e = cur[cur.len() - 1];
            assert(e.0 as int == v.idx(nx, ny, z));
            assert(side_index(v, x, y, z, n - 1) == Some(e.0 as int));
            assert forall|a: int, b: int| 0 <= a < b < cur.len() implies (#[trigger] cur[a]).0 != (#[trigger] cur[b]).0 by {
                if b == cur.len() - 1 {
                    assert(cur[a] == prev[a]);
                    let j = choose|j: int| 0 <= j < n - 1 && #[trigger] side_index(v, x, y, z, j) == Some(prev[a].0 as int);
                    let (mx, my) = neighbor_at(v, x, y, j);
                    lemma_in_bounds_addressable(v, mx, my, z);
                    if v.idx(mx, my, z) == v.idx(nx, ny, z) {
                        lemma_idx_injective(v, mx, my, z, nx, ny, z);
                    }
                } else {
                    assert(cur[a] == prev[a] && cur[b] == prev[b]);
                }
            }
            assert forall|a: int| #![trigger cur[a]] 0 <= a < cur.len() implies exists|j: int|
                0 <= j < n && #[trigger] side_index(v, x, y, z, j) == Some(cur[a].0 as int) by {
                if a < prev.len() {
                    assert(cur[a] == prev[a]);
                    let j = choose|j: int| 0 <= j < n - 1 && #[trigger] side_index(v, x, y, z, j) == Some(prev[a].0 as int);
                    assert(side_index(v, x, y, z, j) == Some(cur[a].0 as int));
                }
            }
        }
    }
}

proof fn lemma_insert_distinct(s: Seq<(usize, u8)>, e: (usize, u8))
    requires
        distinct_cells(s),
        forall|j: int| 0 <= j < s.len() ==> (#[trigger] s[j]).0 != e.0,
    ensures
        distinct_cells(insert_by_mass(s, e)),
    decreases s.len(),
{
    let r = insert_by_mass(s, e);
    if s.len() > 0 && s[0].1 <= e.1 {
        let rest = s.drop_first();
        assert forall|a: int, b: int| 0 <= a < b < rest.len() implies (#[trigger] rest[a]).0 != (#[trigger] rest[b]).0 by {
            assert(rest[a] == s[a + 1] && rest[b] == s[b + 1]);
        }
        assert forall|j: int| 0 <= j < rest.len() implies (#[trigger] rest[j]).0 != e.0 by {
            assert(rest[j] == s[j + 1]);
        }
        lemma_insert_distinct(rest, e);
        let q = |t: (usize, u8)| t.0 != s[0].0;
        assert forall|j: int| 0 <= j < rest.len() implies #[trigger] q(rest[j]) by {
            assert(rest[j] == s[j + 1]);
        }
        lemma_insert_members(rest, e, q);
        let ir = insert_by_mass(rest, e);
        assert forall|a: int, b: int| 0 <= a < b < r.len() implies (#[trigger] r[a]).0 != (#[trigger] r[b]).0 by {
            assert(r[b] == ir[b - 1]);
            if a == 0 {
                assert(q(ir[b - 1]));
            } else {
                assert(r[a] == ir[a - 1]);
            }
        }
    } else if s.len() > 0 {
        assert forall|a: int, b: int| 0 <= a < b < r.len() implies (#[trigger] r[a]).0 != (#[trigger] r[b]).0 by {
            assert(r[b] == s[b - 1]);
            if a > 0 {
                assert(r[a] == s[a - 1]);
            }
        }
    }
}

proof fn lemma_sort_distinct(s: Seq<(usize, u8)>, n: nat)
    requires
        n <= s.len(),
        distinct_cells(s),
    ensures
        distinct_cells(sort_by_mass(s, n)),
    decreases n,
{
    if n > 0 {
        lemma_sort_distinct(s, (n - 1) as nat);
        let prev = sort_by_mass(s, (n - 1) as nat);
        let q = |t: (usize, u8)| t.0 != s[n - 1].0;
        let sp = s.take(n - 1);
        assert forall|j: int| 0 <= j < sp.len() implies #[trigger] q(sp[j]) by {
            assert(sp[j] == s[j]);
        }
        lemma_sort_members(sp, (n - 1) as nat, q);
        assert(sort_by_mass(sp, (n - 1) as nat) == prev) by {
            lemma_sort_prefix(s, (n - 1) as nat, (n - 1) as nat);
        }
        assert forall|j: int| 0 <= j < prev.len() implies (#[trigger] prev[j]).0 != s[n - 1].0 by {
            assert(q(prev[j]));
        }
        lemma_insert_distinct(prev, s[n - 1]);
    }
}

/// Sorting the first `n` entries looks only at those entries.
proof fn lemma_sort_prefix(s: Seq<(usize, u8)>, m: nat, n: nat)
    requires
        n <= m <= s.len(),
    ensures
        sort_by_mass(s.take(m as int), n) == sort_by_mass(s, n),
    decreases n,
{
    if n > 0 {
        lemma_sort_prefix(s, m, (n - 1) as nat);
        assert(s.take(m as int)[n - 1] == s[n - 1]);
    }
}

proof fn lemma_pool_distinct(sorted: Seq<(usize, u8)>, remaining: u8, n: nat)
    requires
        n <= sorted.len(),
        distinct_cells(sorted),
    ensures
        distinct_cells(pool(sorted, remaining, n).1),
    decreases n,
{
    if n > 0 {
        lemma_pool_distinct(sorted, remaining, (n - 1) as nat);
        let rs = pool(sorted, remaining, (n - 1) as nat).1;
        let r = pool(sorted, remaining, n).1;
        if r != rs {
            let e = sorted[n - 1];
            assert(r == rs.push(e));
            let q = |t: (usize, u8)| t.0 != e.0;
            let sp = sorted.take(n - 1);
            assert forall|j: int| 0 <= j < sp.len() implies #[trigger] q(sp[j]) by {
                assert(sp[j] == sorted[j]);
            }
            lemma_pool_members(sp, remaining, (n - 1) as nat, q);
            assert(pool(sp, remaining, (n - 1) as nat) == pool(sorted, remaining, (n - 1) as nat)) by {
                lemma_pool_prefix(sorted, remaining, (n - 1) as nat, (n - 1) as nat);
            }
            assert forall|a: int, b: int| 0 <= a < b < r.len() implies (#[trigger] r[a]).0 != (#[trigger] r[b]).0 by {
                if b == r.len() - 1 {
                    assert(r[a] == rs[a]);
                    assert(q(rs[a]));
                } else {
                    assert(r[a] == rs[a] && r[b] == rs[b]);
                }
            }
        }
    }
}

proof fn lemma_pool_prefix(sorted: Seq<(usize, u8)>, remaining: u8, m: nat, n: nat)
    requires
        n <= m <= sorted.len(),
    ensures
        pool(sorted.take(m as int), remaining, n) == pool(sorted, remaining, n),
    decreases n,
{
    if n > 0 {
        lemma_pool_prefix(sorted, remaining, m, (n - 1) as nat);
        assert(sorted.take(m as int)[n - 1] == sorted[n - 1]);
    }
}

/// 255 when side neighbor `j` of (x, y, z) lies within the world and comes before
/// position `k` of the sweep (it may have given to this cell), else 0.
pub open spec fn seen_one(v: WorldView, x: int, y: int, z: int, j: int, k: int) -> int {
    match side_index(v, x, y, z, j) {
        Some(n) => if n < k {
            255int
        } else {
            0int
        },
        None => 0int,
    }
}

pub open spec fn seen(v: WorldView, x: int, y: int, z: int, k: int) -> int {
    seen_one(v, x, y, z, 0, k) + seen_one(v, x, y, z, 1, k) + seen_one(v, x, y, z, 2, k) + seen_one(v, x, y, z, 3, k)
}

/// Where the spread phase stands after visiting the cells before index `k` (it visits
/// cells in index order): only pending deltas have changed, the pending total has not,
/// a visited cell may have given up to 1020, and a cell may have received up to 255
/// from each visited side neighbor.
pub open spec fn spread_progress(v: WorldView, t: WorldView, k: int) -> bool {
    &&& moved_at_most(v, t, 1020)
    &&& pending_total(t) == pending_total(v)
    &&& forall|x: int, y: int, z: int|
        #![trigger t.mass_delta[v.idx(x, y, z)]]
        v.in_bounds(x, y, z) ==> {
            let dl = t.mass_delta[v.idx(x, y, z)] - v.mass_delta[v.idx(x, y, z)];
            &&& (if v.idx(x, y, z) < k {
                -1020int
            } else {
                0int
            }) <= dl
            &&& dl <= seen(v, x, y, z, k)
        }
}

/// The side neighbor in the opposite direction.
pub open spec fn opposite(j: int) -> int {
    if j == 0 {
        1
    } else if j == 1 {
        0
    } else if j == 2 {
        3
    } else {
        2
    }
}

/// The count of visited side neighbors only grows as the sweep goes on, and stays
/// within four neighbors' worth.
pub proof fn lemma_seen_grows(v: WorldView, x: int, y: int, z: int, k: int)
    ensures
        seen(v, x, y, z, k) <= seen(v, x, y, z, k + 1),
        0 <= seen(v, x, y, z, k) <= 1020,
{
}

/// A receiver of the cell at index k (a side neighbor of it) sees one more visited side
/// neighbor once k is visited.
pub proof fn lemma_seen_receiver(v: WorldView, x: int, y: int, z: int, j: int, a: int, b: int)
    requires
        v.wf(),
        v.in_bounds(x, y, z),
        0 <= j < 4,
        side_index(v, x, y, z, j) == Some(v.idx(a, b, z)),
        v.in_bounds(a, b, z),
    ensures
        seen(v, a, b, z, v.idx(x, y, z)) + 255 <= seen(v, a, b, z, v.idx(x, y, z) + 1),
{
    let k = v.idx(x, y, z);
    let (nx, ny) = neighbor_at(v, x, y, j);
    lemma_in_bounds_addressable(v, nx, ny, z);
    lemma_in_bounds_addressable(v, a, b, z);
    lemma_idx_injective(v, nx, ny, z, a, b, z);
    assert(neighbor_at(v, a, b, opposite(j)) == (x, y));
    assert(side_index(v, a, b, z, opposite(j)) == Some(k));
    lemma_seen_grows(v, a, b, z, k);
}

#[verifier::rlimit(40)]
proof fn lemma_spread_progress_step(v: WorldView, t: WorldView, x: int, y: int, z: int, seed: u64)
    requires
        v.wf(),
        deltas_within(v, 30000),
        v.in_bounds(x, y, z),
        spread_progress(v, t, v.idx(x, y, z)),
    ensures
        spread_progress(v, spread_flow_step(t, x, y, z, seed), v.idx(x, y, z) + 1),
{
    let k = v.idx(x, y, z);
    let r = spread_flow_step(t, x, y, z, seed);
    lemma_in_bounds_addressable(v, x, y, z);
    lemma_moved_within(v, t, 30000, 1020);
    lemma_spread_flow_conserves(t, x, y, z, seed);
    if r == t {
        assert forall|a: int, b: int, c: int|
            #![trigger r.mass_delta[v.idx(a, b, c)]]
            v.in_bounds(a, b, c) implies {
            let dl = r.mass_delta[v.idx(a, b, c)] - v.mass_delta[v.idx(a, b, c)];
            &&& (if v.idx(a, b, c) < k + 1 {
                -1020int
            } else {
                0int
            }) <= dl
            &&& dl <= seen(v, a, b, c, k + 1)
        } by {
            assert(t.mass_delta[v.idx(a, b, c)] == r.mass_delta[v.idx(a, b, c)]);
            lemma_seen_grows(v, a, b, c, k);
        }
        lemma_moved_trans(v, t, r, 1020, 0);
    } else {
        reveal(spread_flow_step);
        let idx = k;
        let remaining = expected_byte(t, idx);
        let lower = lower_neighbors(t, x, y, z, remaining, 4);
        let sorted = sort_by_mass(lower, lower.len());
        let (total, rs) = pool(sorted, remaining, sorted.len());
        let avg = total / (rs.len() + 1) as u16;
        assert(r == give(t, idx, rs, avg, remaining, seed, rs.len()));
        // the receivers: distinct side neighbors of the giving cell
        lemma_lower_neighbors_cells(t, x, y, z, remaining, 4);
        lemma_lower_neighbors_distinct(t, x, y, z, remaining, 4);
        lemma_sort_distinct(lower, lower.len());
        lemma_pool_distinct(sorted, remaining, sorted.len());
        let p = |e: (usize, u8)|
            e.0 < t.size() && e.0 != idx && exists|j: int| 0 <= j < 4 && #[trigger] side_index(t, x, y, z, j) == Some(e.0 as int);
        assert forall|a: int| 0 <= a < lower.len() implies #[trigger] p(lower[a]) by {}
        lemma_sort_members(lower, lower.len(), p);
        lemma_pool_members(sorted, remaining, sorted.len(), p);
        assert(avg <= 255) by (nonlinear_arith)
            requires
                total <= 255 * (rs.len() + 1),
                avg == total / (rs.len() + 1) as u16,
                rs.len() <= 4,
        ;
        assert forall|j: int| 0 <= j < rs.len() implies (#[trigger] rs[j]).0 < t.size() && rs[j].0 != idx by {
            assert(p(rs[j]));
        }
        lemma_give_effect(t, idx, rs, avg, remaining, seed, rs.len());
        lemma_gift_sums(rs, avg, idx, rs.len());
        assert forall|a: int, b: int, c: int|
            #![trigger r.mass_delta[v.idx(a, b, c)]]
            v.in_bounds(a, b, c) implies {
            let dl = r.mass_delta[v.idx(a, b, c)] - v.mass_delta[v.idx(a, b, c)];
            &&& (if v.idx(a, b, c) < k + 1 {
                -1020int
            } else {
                0int
            }) <= dl
            &&& dl <= seen(v, a, b, c, k + 1)
        } by {
            lemma_in_bounds_addressable(v, a, b, c);
            let i = v.idx(a, b, c);
            lemma_seen_grows(v, a, b, c, k);
            lemma_gift_sums(rs, avg, i, rs.len());
            assert(t.mass_delta[v.idx(a, b, c)] == t.mass_delta[i]);
            if i == idx {
                lemma_idx_injective(v, a, b, c, x, y, z);
            } else if received(rs, avg, i, rs.len()) != 0 {
                let m = choose|m: int| 0 <= m < rs.len() && (#[trigger] rs[m]).0 == i;
                assert(p(rs[m]));
                let j = choose|j: int| 0 <= j < 4 && #[trigger] side_index(t, x, y, z, j) == Some(rs[m].0 as int);
                let (nx, ny) = neighbor_at(t, x, y, j);
                lemma_in_bounds_addressable(v, nx, ny, z);
                lemma_idx_injective(v, nx, ny, z, a, b, c);
                lemma_seen_receiver(v, x, y, z, j, a, b);
            }
        }
        assert(moved_at_most(v, r, 1020)) by {
            assert forall|i: int| 0 <= i < v.mass_delta.len() implies -1020 <= #[trigger] r.mass_delta[i] - v.mass_delta[i]
                <= 1020 by {
                lemma_gift_sums(rs, avg, i, rs.len());
                if i != idx && received(rs, avg, i, rs.len()) != 0 {
                    let m = choose|m: int| 0 <= m < rs.len() && (#[trigger] rs[m]).0 == i;
                    assert(p(rs[m]));
                    let j = choose|j: int| 0 <= j < 4 && #[trigger] side_index(t, x, y, z, j) == Some(rs[m].0 as int);
                    let (nx, ny) = neighbor_at(t, x, y, j);
                    lemma_in_bounds_addressable(v, nx, ny, z);
                    lemma_seen_grows(v, nx, ny, z, k);
                    lemma_seen_receiver(v, x, y, z, j, nx, ny);
                    lemma_seen_grows(v, nx, ny, z, k + 1);
                } else if i == idx {
                    assert(t.mass_delta[v.idx(x, y, z)] - v.mass_delta[idx] >= 0);
                }
            }
        }
    }
}

/// The gravity and spread phases of the flow pass move water between pending deltas
/// and create or lose none: together they keep the water masses and the pending total,
/// and move no delta by more than 1275 (when the deltas start within -29000..=29000;
/// a world whose deltas were just applied starts at 0).
pub proof fn lemma_flow_moving_phases_conserve(v: WorldView, seed: u64)
    requires
        v.wf(),
        deltas_within(v, 29000),
    ensures
        ({
            let n = (if v.height >= 1 {
                v.height - 1
            } else {
                0
            }) as nat;
            let p1 = sweep_down(v, gravity_flow_fn(seed), v.width, v.depth, v.height as int, n);
            let p2 = sweep_up(p1, spread_flow_fn(seed), v.width, v.depth, 0, v.height);
            &&& pending_total(p2) == pending_total(v)
            &&& moved_at_most(v, p2, 1275)
        }),
{
    let n = (if v.height >= 1 {
        v.height - 1
    } else {
        0
    }) as nat;
    lemma_gravity_phase_conserves(v, seed);
    let p1 = sweep_down(v, gravity_flow_fn(seed), v.width, v.depth, v.height as int, n);
    lemma_moved_within(v, p1, 29000, 255);
    let p = |t: WorldView, k: int| spread_progress(p1, t, k);
    assert(moved_at_most(p1, p1, 0));
    assert(p(p1, 0)) by {
        lemma_moved_weaken(p1, p1, 0, 1020);
        assert forall|a: int, b: int, c: int|
            #![trigger p1.mass_delta[p1.idx(a, b, c)]]
            p1.in_bounds(a, b, c) implies {
            let dl = p1.mass_delta[p1.idx(a, b, c)] - p1.mass_delta[p1.idx(a, b, c)];
            &&& (if p1.idx(a, b, c) < 0 {
                -1020int
            } else {
                0int
            }) <= dl
            &&& dl <= seen(p1, a, b, c, 0)
        } by {
            lemma_seen_grows(p1, a, b, c, 0);
        }
    }
    assert forall|t: WorldView, x: int, y: int, z: int|
        0 <= x < v.width && 0 <= y < v.depth && 0 <= z < 0 + v.height && p(t, (z - 0) * (v.width * v.depth) + y * v.width + x)
            implies p(
        #[trigger] spread_flow_fn(seed)(t, x, y, z),
        (z - 0) * (v.width * v.depth) + y * v.width + x + 1,
    ) by {
        assert((z - 0) * (v.width * v.depth) + y * v.width + x == p1.idx(x, y, z));
        lemma_spread_progress_step(p1, t, x, y, z, seed);
    }
    lemma_up_prog(p1, spread_flow_fn(seed), p, v.width, v.depth, 0, v.height);
    let p2 = sweep_up(p1, spread_flow_fn(seed), v.width, v.depth, 0, v.height);
    lemma_moved_trans(v, p1, p2, 255, 1020);
}

/// The world after the gravity and spread phases of the flow pass.
pub open spec fn after_moving(v: WorldView, seed: u64) -> WorldView {
    let n = (if v.height >= 1 {
        v.height - 1
    } else {
        0
    }) as nat;
    let p1 = sweep_down(outflow_cleared(v), gravity_flow_fn(seed), v.width, v.depth, v.height as int, n);
    sweep_up(p1, spread_flow_fn(seed), v.width, v.depth, 0, v.height)
}

/// Every cell expects (its mass plus its pending delta) between 0 and 255.
pub open spec fn settled(v: WorldView) -> bool {
    forall|i: int| 0 <= i < v.size() ==> 0 <= v.water_mass[i] + #[trigger] v.mass_delta[i] <= 255
}

/// A sequence of zeros sums to zero.
pub proof fn lemma_sum_i16_zero(s: Seq<i16>)
    requires
        forall|i: int| 0 <= i < s.len() ==> #[trigger] s[i] == 0,
    ensures
        sum_i16(s) == 0,
    decreases s.len(),
{
    if s.len() > 0 {
        lemma_sum_i16_zero(s.drop_last());
    }
}

/// The flow pass conserves water: starting with no pending deltas, the total water mass
/// after the pass equals the total before, and no solid cell gains water. (The moving
/// phases leave every cell expecting between 0 and 255, so nothing needs pushing up
/// and nothing is clamped when the deltas are applied.)
pub proof fn lemma_flow_pass_conserves(v: WorldView, seed: u64)
    requires
        v.wf(),
        deltas_within(v, 0),
    ensures
        sum_u8(flow_pass(v, seed).water_mass) == sum_u8(v.water_mass),
        flow_pass(v, seed).tiles == v.tiles,
        forall|i: int|
            0 <= i < v.size() && is_solid_spec(v.tiles[i]) ==> #[trigger] flow_pass(v, seed).water_mass[i]
                <= v.water_mass[i],
{
    let v0 = outflow_cleared(v);
    lemma_moving_phases_settle(v, seed);
    lemma_flow_moving_phases_conserve(v0, seed);
    let p2 = after_moving(v, seed);
    lemma_moved_within(v0, p2, 0, 1275);
    let upper = (if v.height >= 1 {
        v.height - 1
    } else {
        0
    }) as nat;
    // nothing to push up: the pressure phase changes nothing
    let q = |t: WorldView| t == p2;
    assert forall|t: WorldView, x: int, y: int, z: int|
        0 <= x < v.width && 0 <= y < v.depth && 0 <= z < 0 + upper && q(t) implies q(#[trigger] pressure_fn()(t, x, y, z)) by {
        lemma_in_bounds_addressable(p2, x, y, z);
        let i = p2.idx(x, y, z);
        assert(-1275 <= p2.mass_delta[i] <= 1275);
        assert(0 <= p2.water_mass[i] + p2.mass_delta[i] <= 255);
        assert(expected(p2, i) == p2.water_mass[i] + p2.mass_delta[i]);
    }
    lemma_up_keeps(p2, pressure_fn(), q, v.width, v.depth, 0, upper);
    lemma_apply_conserves(p2);
    lemma_sum_i16_zero(v.mass_delta);
    let r = flow_pass(v, seed);
    assert forall|i: int| 0 <= i < v.size() && is_solid_spec(v.tiles[i]) implies #[trigger] r.water_mass[i]
        <= v.water_mass[i] by {
        assert(p2.mass_delta[i] <= 0);
        assert(0 <= p2.water_mass[i] + p2.mass_delta[i] <= 255);
        assert(r.water_mass[i] == applied_u8(p2.water_mass[i], p2.mass_delta[i]));
    }
}

/// The entries are in order of mass, lowest first.
pub open spec fn ascending(s: Seq<(usize, u8)>) -> bool {
    forall|a: int, b: int| 0 <= a <= b < s.len() ==> (#[trigger] s[a]).1 <= (#[trigger] s[b]).1
}

proof fn lemma_insert_ascending(s: Seq<(usize, u8)>, e: (usize, u8))
    requires
        ascending(s),
    ensures
        ascending(insert_by_mass(s, e)),
    decreases s.len(),
{
    let r = insert_by_mass(s, e);
    if s.len() > 0 && s[0].1 <= e.1 {
        let rest = s.drop_first();
        assert forall|a: int, b: int| 0 <= a <= b < rest.len() implies (#[trigger] rest[a]).1 <= (#[trigger] rest[b]).1 by {
            assert(rest[a] == s[a + 1] && rest[b] == s[b + 1]);
        }
        lemma_insert_ascending(rest, e);
        let q = |t: (usize, u8)| t.1 >= s[0].1;
        assert forall|j: int| 0 <= j < rest.len() implies #[trigger] q(rest[j]) by {
            assert(rest[j] == s[j + 1]);
        }
        lemma_insert_members(rest, e, q);
        let ir = insert_by_mass(rest, e);
        assert forall|a: int, b: int| 0 <= a <= b < r.len() implies (#[trigger] r[a]).1 <= (#[trigger] r[b]).1 by {
            if a == 0 {
                if b > 0 {
                    assert(r[b] == ir[b - 1]);
                    assert(q(ir[b - 1]));
                }
            } else {
                assert(r[a] == ir[a - 1] && r[b] == ir[b - 1]);
            }
        }
    } else if s.len() > 0 {
        assert forall|a: int, b: int| 0 <= a <= b < r.len() implies (#[trigger] r[a]).1 <= (#[trigger] r[b]).1 by {
            if b > 0 {
                assert(r[b] == s[b - 1]);
                assert(s[0].1 <= s[b - 1].1);
            }
            if a > 0 {
                assert(r[a] == s[a - 1]);
            }
        }
    }
}

proof fn lemma_sort_ascending(s: Seq<(usize, u8)>, n: nat)
    requires
        n <= s.len(),
    ensures
        ascending(sort_by_mass(s, n)),
    decreases n,
{
    if n > 0 {
        lemma_sort_ascending(s, (n - 1) as nat);
        lemma_insert_ascending(sort_by_mass(s, (n - 1) as nat), s[n - 1]);
    }
}

/// The sum of the masses of the first `n` entries.
pub open spec fn mass_sum(rs: Seq<(usize, u8)>, n: nat) -> int
    decreases n,
{
    if n == 0 {
        0
    } else {
        mass_sum(rs, (n - 1) as nat) + rs[n - 1].1
    }
}

proof fn lemma_mass_sum_prefix(rs: Seq<(usize, u8)>, e: (usize, u8), n: nat)
    requires
        n <= rs.len(),
    ensures
        mass_sum(rs.push(e), n) == mass_sum(rs, n),
    decreases n,
{
    if n > 0 {
        lemma_mass_sum_prefix(rs, e, (n - 1) as nat);
        assert(rs.push(e)[n - 1] == rs[n - 1]);
    }
}

/// An entry below the floor average of a pool stays at most the floor average once it
/// joins.
proof fn lemma_join_below_average(t: int, e: int, k: int)
    requires
        0 <= k,
        0 <= e,
        0 <= t,
        e < t / (k + 1),
    ensures
        e <= (t + e) / (k + 2),
{
    vstd::arithmetic::div_mod::lemma_fundamental_div_mod(t, k + 1);
    vstd::arithmetic::div_mod::lemma_mod_bound(t, k + 1);
    let q = t / (k + 1);
    assert((k + 1) * q >= (k + 1) * (e + 1)) by (nonlinear_arith)
        requires
            q >= e + 1,
            k + 1 > 0,
    ;
    assert(t + e >= (k + 2) * e) by (nonlinear_arith)
        requires
            t >= (k + 1) * (e + 1),
            e >= 0,
            k >= 0,
    ;
    vstd::arithmetic::div_mod::lemma_div_is_ordered((k + 2) * e, t + e, k + 2);
    vstd::arithmetic::div_mod::lemma_div_multiples_vanish(e, k + 2);
}

/// What a pool holds: the giver's mass plus its receivers' masses, every receiver at
/// most the floor average, and no receiver above an entry not yet looked at.
proof fn lemma_pool_facts(sorted: Seq<(usize, u8)>, remaining: u8, n: nat)
    requires
        n <= sorted.len(),
        sorted.len() <= 4,
        ascending(sorted),
    ensures
        ({
            let (total, rs) = pool(sorted, remaining, n);
            &&& total == remaining + mass_sum(rs, rs.len())
            &&& total <= 255 * (rs.len() + 1)
            &&& rs.len() <= n
            &&& forall|j: int| 0 <= j < rs.len() ==> (#[trigger] rs[j]).1 <= (total as int) / ((rs.len() + 1) as int)
            &&& forall|j: int, b: int| 0 <= j < rs.len() && n <= b < sorted.len() ==> (#[trigger] rs[j]).1 <= (
            #[trigger] sorted[b]).1
        }),
    decreases n,
{
    if n > 0 {
        lemma_pool_facts(sorted, remaining, (n - 1) as nat);
        let (total, rs) = pool(sorted, remaining, (n - 1) as nat);
        let e = sorted[n - 1];
        let avg = total / (rs.len() + 1) as u16;
        let (t2, rs2) = pool(sorted, remaining, n);
        if (e.1 as u16) < avg {
            assert(t2 == total + e.1);
            assert(rs2 == rs.push(e));
            lemma_mass_sum_prefix(rs, e, rs.len());
            assert(rs.push(e)[rs.len() as int] == e);
            lemma_join_below_average(total as int, e.1 as int, rs.len() as int);
            assert forall|j: int| 0 <= j < rs2.len() implies (#[trigger] rs2[j]).1 <= (t2 as int) / ((rs2.len() + 1) as int) by {
                if j < rs.len() {
                    assert(rs2[j] == rs[j]);
                    assert(rs[j].1 <= sorted[n - 1].1);
                }
            }
            assert forall|j: int, b: int| 0 <= j < rs2.len() && n <= b < sorted.len() implies (#[trigger] rs2[j]).1 <= (
            #[trigger] sorted[b]).1 by {
                if j < rs.len() {
                    assert(rs2[j] == rs[j]);
                } else {
                    assert(rs2[j] == sorted[n - 1]);
                }
            }
        }
    }
}

/// When every receiver holds at most `avg`, the gifts add up to the average times the
/// number of receivers less their masses.
proof fn lemma_given_sum_exact(rs: Seq<(usize, u8)>, avg: u16, n: nat)
    requires
        n <= rs.len(),
        forall|j: int| 0 <= j < n ==> (#[trigger] rs[j]).1 <= avg,
    ensures
        given_sum(rs, avg, n) == n * avg - mass_sum(rs, n),
    decreases n,
{
    if n > 0 {
        lemma_given_sum_exact(rs, avg, (n - 1) as nat);
        assert(rs[n - 1].1 <= avg);
        assert(n * avg == (n - 1) * avg + avg) by (nonlinear_arith);
    } else {
        assert(n * avg == 0) by (nonlinear_arith)
            requires
                n == 0,
        ;
    }
}

proof fn lemma_received_exact(rs: Seq<(usize, u8)>, avg: u16, i: int, n: nat, m: int)
    requires
        distinct_cells(rs),
        n <= rs.len(),
        0 <= m < n,
        rs[m].0 == i,
        avg <= 255,
    ensures
        received(rs, avg, i, n) == gift(rs, avg, m),
    decreases n,
{
    if m == n - 1 {
        assert forall|j: int| 0 <= j < n - 1 implies (#[trigger] rs[j]).0 != i by {
            assert(rs[j].0 != rs[m].0);
        }
        lemma_gift_sums(rs, avg, i, (n - 1) as nat);
    } else {
        lemma_received_exact(rs, avg, i, (n - 1) as nat, m);
        assert(rs[n - 1].0 != rs[m].0);
    }
}

proof fn lemma_lower_neighbors_masses(v: WorldView, x: int, y: int, z: int, remaining: u8, n: nat)
    requires
        v.wf(),
        v.in_bounds(x, y, z),
    ensures
        forall|a: int|
            0 <= a < lower_neighbors(v, x, y, z, remaining, n).len() ==> (#[trigger] lower_neighbors(
                v,
                x,
                y,
                z,
                remaining,
                n,
            )[a]).1 == expected_byte(v, lower_neighbors(v, x, y, z, remaining, n)[a].0 as int),
    decreases n,
{
    if n > 0 {
        lemma_lower_neighbors_masses(v, x, y, z, remaining, (n - 1) as nat);
        let prev = lower_neighbors(v, x, y, z, remaining, (n - 1) as nat);
        let cur = lower_neighbors(v, x, y, z, remaining, n);
        let (nx, ny) = neighbor_at(v, x, y, n - 1);
        if 0 <= nx < v.width && 0 <= ny < v.depth {
            lemma_in_bounds_addressable(v, nx, ny, z);
        }
        assert forall|a: int| 0 <= a < cur.len() implies (#[trigger] cur[a]).1 == expected_byte(v, cur[a].0 as int) by {
            if a < prev.len() {
                assert(cur[a] == prev[a]);
            }
        }
    }
}

/// No uphill flow: when the spread step at (x, y, z) gives water to side neighbors,
/// every neighbor that receives some ends up expecting (its mass plus its pending
/// delta) no more than the giving cell — the receivers reach the pool's average and
/// the giver keeps at least that — provided the giver and its side neighbors expected
/// between 0 and 255 before, and the pending deltas lie within -31747..=31747.
#[verifier::rlimit(40)]
pub proof fn lemma_spread_no_uphill(t: WorldView, x: int, y: int, z: int, seed: u64)
    requires
        t.wf(),
        t.in_bounds(x, y, z),
        deltas_within(t, 31747),
        0 <= t.water_mass[t.idx(x, y, z)] + t.mass_delta[t.idx(x, y, z)] <= 255,
        forall|i: int|
            is_side_neighbor(t, x, y, z, i) ==> 0 <= t.water_mass[i] + #[trigger] t.mass_delta[i] <= 255,
    ensures
        forall|i: int|
            is_side_neighbor(t, x, y, z, i) && #[trigger] spread_flow_step(t, x, y, z, seed).mass_delta[i]
                != t.mass_delta[i] ==> t.water_mass[i] + spread_flow_step(t, x, y, z, seed).mass_delta[i]
                <= t.water_mass[t.idx(x, y, z)] + spread_flow_step(t, x, y, z, seed).mass_delta[t.idx(x, y, z)],
{
    let r = spread_flow_step(t, x, y, z, seed);
    lemma_in_bounds_addressable(t, x, y, z);
    let idx = t.idx(x, y, z);
    if r != t {
        reveal(spread_flow_step);
        assert(-31747 <= t.mass_delta[idx] <= 31747);
        let remaining = expected_byte(t, idx);
        assert(remaining == t.water_mass[idx] + t.mass_delta[idx]);
        let lower = lower_neighbors(t, x, y, z, remaining, 4);
        let sorted = sort_by_mass(lower, lower.len());
        let (total, rs) = pool(sorted, remaining, sorted.len());
        let avg = total / (rs.len() + 1) as u16;
        assert(r == give(t, idx, rs, avg, remaining, seed, rs.len()));
        lemma_lower_neighbors_cells(t, x, y, z, remaining, 4);
        lemma_lower_neighbors_distinct(t, x, y, z, remaining, 4);
        lemma_lower_neighbors_masses(t, x, y, z, remaining, 4);
        lemma_sort_distinct(lower, lower.len());
        lemma_sort_ascending(lower, lower.len());
        lemma_pool_distinct(sorted, remaining, sorted.len());
        let p = |e: (usize, u8)| e.0 < t.size() && e.0 != idx && e.1 == expected_byte(t, e.0 as int);
        assert forall|a: int| 0 <= a < lower.len() implies #[trigger] p(lower[a]) by {}
        lemma_sort_members(lower, lower.len(), p);
        lemma_pool_members(sorted, remaining, sorted.len(), p);
        lemma_pool_facts(sorted, remaining, sorted.len());
        let k = rs.len() as int;
        assert(avg as int == (total as int) / (k + 1));
        vstd::arithmetic::div_mod::lemma_fundamental_div_mod(total as int, k + 1);
        vstd::arithmetic::div_mod::lemma_mod_bound(total as int, k + 1);
        assert((k + 1) * avg <= total) by (nonlinear_arith)
            requires
                total == (k + 1) * avg + (total as int) % (k + 1),
                (total as int) % (k + 1) >= 0,
        ;
        assert(avg <= 255) by (nonlinear_arith)
            requires
                total <= 255 * (k + 1),
                (k + 1) * avg <= total,
                k >= 0,
        ;
        assert forall|j: int| 0 <= j < rs.len() implies (#[trigger] rs[j]).0 < t.size() && rs[j].0 != idx by {
            assert(p(rs[j]));
        }
        assert forall|j: int| 0 <= j < rs.len() implies (#[trigger] rs[j]).1 <= avg by {}
        lemma_give_effect(t, idx, rs, avg, remaining, seed, rs.len());
        lemma_given_sum_exact(rs, avg, rs.len());
        // the giver keeps at least the average
        assert(r.mass_delta[idx] == t.mass_delta[idx] - given_sum(rs, avg, rs.len()));
        assert(k * avg + avg == (k + 1) * avg) by (nonlinear_arith);
        assert(t.water_mass[idx] + r.mass_delta[idx] >= avg);
        assert forall|i: int|
            is_side_neighbor(t, x, y, z, i) && #[trigger] r.mass_delta[i] != t.mass_delta[i] implies t.water_mass[i]
                + r.mass_delta[i] <= t.water_mass[idx] + r.mass_delta[idx] by {
            let ghost (a, b) = if x >= 1 && i == t.idx(x - 1, y, z) {
                (x - 1, y)
            } else if x + 1 < t.width && i == t.idx(x + 1, y, z) {
                (x + 1, y)
            } else if y >= 1 && i == t.idx(x, y - 1, z) {
                (x, y - 1)
            } else {
                (x, y + 1)
            };
            lemma_in_bounds_addressable(t, a, b, z);
            if i == idx {
                lemma_idx_injective(t, a, b, z, x, y, z);
            }
            lemma_gift_sums(rs, avg, i, rs.len());
            assert(received(rs, avg, i, rs.len()) != 0);
            let m = choose|m: int| 0 <= m < rs.len() && (#[trigger] rs[m]).0 == i;
            lemma_received_exact(rs, avg, i, rs.len(), m);
            assert(p(rs[m]));
            assert(-31747 <= t.mass_delta[i] <= 31747);
            assert(rs[m].1 == t.water_mass[i] + t.mass_delta[i]);
        }
    }
}

// ---------------------------------------------------------------------------
// Outflow: what left a cell during this pass
// ---------------------------------------------------------------------------

/// `t` has the layout and the water masses of `v`, and every cell that held no water
/// in `v` has outflow 0 in `t`.
pub open spec fn dry_cells_silent(v: WorldView, t: WorldView) -> bool {
    &&& t.wf()
    &&& t.width == v.width && t.depth == v.depth && t.height == v.height
    &&& t.water_mass == v.water_mass
    &&& forall|i: int| 0 <= i < t.size() && v.water_mass[i] == 0 ==> #[trigger] t.water_outflow[i] == 0
}

/// Giving from cell `idx` changes the outflow of no other cell and keeps the masses.
proof fn lemma_give_outflow(
    v: WorldView,
    idx: int,
    rs: Seq<(usize, u8)>,
    avg: u16,
    remaining: u8,
    seed: u64,
    n: nat,
)
    requires
        v.wf(),
        0 <= idx < v.size(),
        n <= rs.len(),
        forall|j: int| 0 <= j < rs.len() ==> (#[trigger] rs[j]).0 < v.size(),
    ensures
        ({
            let r = give(v, idx, rs, avg, remaining, seed, n);
            &&& r.wf()
            &&& r.width == v.width && r.depth == v.depth && r.height == v.height
            &&& r.water_mass == v.water_mass
            &&& forall|i: int| 0 <= i < v.size() && i != idx ==> #[trigger] r.water_outflow[i] == v.water_outflow[i]
        }),
    decreases n,
{
    if n > 0 {
        lemma_give_outflow(v, idx, rs, avg, remaining, seed, (n - 1) as nat);
        assert(rs[n - 1].0 < v.size());
    }
}

/// Giving from cell `idx` adds to its outflow exactly what the receivers get.
proof fn lemma_give_outflow_total(
    v: WorldView,
    idx: int,
    rs: Seq<(usize, u8)>,
    avg: u16,
    remaining: u8,
    seed: u64,
    n: nat,
)
    requires
        v.wf(),
        0 <= idx < v.size(),
        n <= rs.len(),
        rs.len() <= 4,
        avg <= 255,
        v.water_outflow[idx] <= 255,
        forall|j: int| 0 <= j < rs.len() ==> (#[trigger] rs[j]).0 < v.size(),
    ensures
        give(v, idx, rs, avg, remaining, seed, n).water_outflow[idx] == v.water_outflow[idx] + given_sum(rs, avg, n),
        given_sum(rs, avg, n) <= 255 * n,
    decreases n,
{
    if n > 0 {
        lemma_give_outflow_total(v, idx, rs, avg, remaining, seed, (n - 1) as nat);
        lemma_give_outflow(v, idx, rs, avg, remaining, seed, (n - 1) as nat);
        assert(rs[n - 1].0 < v.size());
    }
}

/// A gravity or spread step keeps `dry_cells_silent`.
proof fn lemma_moving_steps_silent(v: WorldView, t: WorldView, x: int, y: int, z: int, seed: u64)
    requires
        dry_cells_silent(v, t),
        v.in_bounds(x, y, z),
    ensures
        z >= 1 ==> dry_cells_silent(v, gravity_flow_step(t, x, y, z, seed)),
        dry_cells_silent(v, spread_flow_step(t, x, y, z, seed)),
{
    lemma_in_bounds_addressable(t, x, y, z);
    let idx = t.idx(x, y, z);
    if z >= 1 {
        lemma_in_bounds_addressable(t, x, y, z - 1);
    }
    reveal(spread_flow_step);
    let remaining = expected_byte(t, idx);
    let r = spread_flow_step(t, x, y, z, seed);
    if r != t {
        let lower = lower_neighbors(t, x, y, z, remaining, 4);
        let p = |e: (usize, u8)| e.0 < t.size() && e.0 != idx;
        lemma_lower_neighbors_cells(t, x, y, z, remaining, 4);
        assert forall|j: int| 0 <= j < lower.len() implies #[trigger] p(lower[j]) by {}
        let sorted = sort_by_mass(lower, lower.len());
        lemma_sort_members(lower, lower.len(), p);
        let (total, rs) = pool(sorted, remaining, sorted.len());
        lemma_pool_members(sorted, remaining, sorted.len(), p);
        let avg = total / (rs.len() + 1) as u16;
        assert forall|j: int| 0 <= j < rs.len() implies (#[trigger] rs[j]).0 < t.size() by {
            assert(p(rs[j]));
        }
        lemma_give_outflow(t, idx, rs, avg, remaining, seed, rs.len());
    }
}

/// The flow pass counts in the outflow of a cell only what left it during the pass: a
/// cell that held no water when the pass began has outflow 0 afterwards, whatever its
/// outflow was before.
pub proof fn lemma_flow_pass_outflow_fresh(v: WorldView, seed: u64)
    requires
        v.wf(),
    ensures
        forall|i: int|
            0 <= i < v.size() && v.water_mass[i] == 0 ==> #[trigger] flow_pass(v, seed).water_outflow[i] == 0,
{
    let v0 = outflow_cleared(v);
    let upper = (if v.height >= 1 {
        v.height - 1
    } else {
        0
    }) as nat;
    let q = |t: WorldView| dry_cells_silent(v, t);
    assert(q(v0));
    assert forall|t: WorldView, x: int, y: int, z: int|
        0 <= x < v.width && 0 <= y < v.depth && v.height - upper <= z < v.height && q(t) implies q(
        #[trigger] gravity_flow_fn(seed)(t, x, y, z),
    ) by {
        lemma_moving_steps_silent(v, t, x, y, z, seed);
    }
    lemma_down_keeps(v0, gravity_flow_fn(seed), q, v.width, v.depth, v.height as int, upper);
    let p1 = sweep_down(v0, gravity_flow_fn(seed), v.width, v.depth, v.height as int, upper);
    assert forall|t: WorldView, x: int, y: int, z: int|
        0 <= x < v.width && 0 <= y < v.depth && 0 <= z < 0 + v.height && q(t) implies q(
        #[trigger] spread_flow_fn(seed)(t, x, y, z),
    ) by {
        lemma_moving_steps_silent(v, t, x, y, z, seed);
    }
    lemma_up_keeps(p1, spread_flow_fn(seed), q, v.width, v.depth, 0, v.height);
    let p2 = sweep_up(p1, spread_flow_fn(seed), v.width, v.depth, 0, v.height);
    assert forall|t: WorldView, x: int, y: int, z: int|
        0 <= x < v.width && 0 <= y < v.depth && 0 <= z < 0 + upper && q(t) implies q(
        #[trigger] pressure_fn()(t, x, y, z),
    ) by {
        lemma_in_bounds_addressable(t, x, y, z);
        lemma_in_bounds_addressable(t, x, y, z + 1);
    }
    lemma_up_keeps(p2, pressure_fn(), q, v.width, v.depth, 0, upper);
}

// ---------------------------------------------------------------------------
// Settling: the moving phases keep every cell within 0..=255
// ---------------------------------------------------------------------------

/// No cell that is solid in `v` expects more than it holds in `t`.
pub open spec fn solid_not_filled(v: WorldView, t: WorldView) -> bool {
    forall|i: int| 0 <= i < v.size() && is_solid_spec(v.tiles[i]) ==> #[trigger] t.mass_delta[i] <= 0
}

proof fn lemma_settled_deltas(t: WorldView)
    requires
        t.wf(),
        settled(t),
    ensures
        deltas_within(t, 255),
{
    assert forall|i: int| 0 <= i < t.mass_delta.len() implies -255 <= #[trigger] t.mass_delta[i] <= 255 by {
        assert(0 <= t.water_mass[i] + t.mass_delta[i] <= 255);
    }
}

proof fn lemma_lower_neighbors_open(v: WorldView, x: int, y: int, z: int, remaining: u8, n: nat)
    requires
        v.wf(),
        v.in_bounds(x, y, z),
    ensures
        forall|a: int|
            0 <= a < lower_neighbors(v, x, y, z, remaining, n).len() ==> !is_solid_spec(
                v.tiles[(#[trigger] lower_neighbors(v, x, y, z, remaining, n)[a]).0 as int],
            ),
    decreases n,
{
    if n > 0 {
        lemma_lower_neighbors_open(v, x, y, z, remaining, (n - 1) as nat);
        let prev = lower_neighbors(v, x, y, z, remaining, (n - 1) as nat);
        let cur = lower_neighbors(v, x, y, z, remaining, n);
        let (nx, ny) = neighbor_at(v, x, y, n - 1);
        if 0 <= nx < v.width && 0 <= ny < v.depth {
            lemma_in_bounds_addressable(v, nx, ny, z);
        }
        assert forall|a: int| 0 <= a < cur.len() implies !is_solid_spec(v.tiles[(#[trigger] cur[a]).0 as int]) by {
            if a < prev.len() {
                assert(cur[a] == prev[a]);
            }
        }
    }
}

/// A spread step from a world where every cell expects between 0 and 255 keeps it so:
/// the receivers reach the pool's average and the giver keeps at least that. Only
/// non-solid cells receive.
#[verifier::rlimit(40)]
proof fn lemma_spread_settles(t: WorldView, x: int, y: int, z: int, seed: u64)
    requires
        t.wf(),
        t.in_bounds(x, y, z),
        settled(t),
    ensures
        settled(spread_flow_step(t, x, y, z, seed)),
        forall|i: int|
            0 <= i < t.size() && #[trigger] spread_flow_step(t, x, y, z, seed).mass_delta[i] > t.mass_delta[i]
                ==> !is_solid_spec(t.tiles[i]),
        t.water_outflow[t.idx(x, y, z)] <= 255 ==> spread_flow_step(t, x, y, z, seed).water_outflow[t.idx(x, y, z)]
            <= t.water_outflow[t.idx(x, y, z)] + 255,
        forall|i: int|
            0 <= i < t.size() && i != t.idx(x, y, z) ==> #[trigger] spread_flow_step(t, x, y, z, seed).water_outflow[i]
                == t.water_outflow[i],
{
    let r = spread_flow_step(t, x, y, z, seed);
    lemma_settled_deltas(t);
    lemma_spread_flow_conserves(t, x, y, z, seed);
    lemma_in_bounds_addressable(t, x, y, z);
    let idx = t.idx(x, y, z);
    if r != t {
        reveal(spread_flow_step);
        let remaining = expected_byte(t, idx);
        assert(remaining == t.water_mass[idx] + t.mass_delta[idx]);
        let lower = lower_neighbors(t, x, y, z, remaining, 4);
        let sorted = sort_by_mass(lower, lower.len());
        let (total, rs) = pool(sorted, remaining, sorted.len());
        let avg = total / (rs.len() + 1) as u16;
        assert(r == give(t, idx, rs, avg, remaining, seed, rs.len()));
        lemma_lower_neighbors_cells(t, x, y, z, remaining, 4);
        lemma_lower_neighbors_distinct(t, x, y, z, remaining, 4);
        lemma_lower_neighbors_masses(t, x, y, z, remaining, 4);
        lemma_lower_neighbors_open(t, x, y, z, remaining, 4);
        lemma_sort_distinct(lower, lower.len());
        lemma_sort_ascending(lower, lower.len());
        lemma_pool_distinct(sorted, remaining, sorted.len());
        let p = |e: (usize, u8)|
            e.0 < t.size() && e.0 != idx && e.1 == expected_byte(t, e.0 as int) && !is_solid_spec(t.tiles[e.0 as int]);
        assert forall|a: int| 0 <= a < lower.len() implies #[trigger] p(lower[a]) by {}
        lemma_sort_members(lower, lower.len(), p);
        lemma_pool_members(sorted, remaining, sorted.len(), p);
        lemma_pool_facts(sorted, remaining, sorted.len());
        let k = rs.len() as int;
        assert(avg as int == (total as int) / (k + 1));
        vstd::arithmetic::div_mod::lemma_fundamental_div_mod(total as int, k + 1);
        vstd::arithmetic::div_mod::lemma_mod_bound(total as int, k + 1);
        assert((k + 1) * avg <= total) by (nonlinear_arith)
            requires
                total == (k + 1) * avg + (total as int) % (k + 1),
                (total as int) % (k + 1) >= 0,
        ;
        assert(avg <= 255) by (nonlinear_arith)
            requires
                total <= 255 * (k + 1),
                (k + 1) * avg <= total,
                k >= 0,
        ;
        assert forall|j: int| 0 <= j < rs.len() implies (#[trigger] rs[j]).0 < t.size() && rs[j].0 != idx by {
            assert(p(rs[j]));
        }
        assert forall|j: int| 0 <= j < rs.len() implies (#[trigger] rs[j]).1 <= avg by {}
        lemma_give_effect(t, idx, rs, avg, remaining, seed, rs.len());
        lemma_given_sum_exact(rs, avg, rs.len());
        lemma_gift_sums(rs, avg, idx, rs.len());
        assert(r.mass_delta[idx] == t.mass_delta[idx] - given_sum(rs, avg, rs.len()));
        assert(k * avg + avg == (k + 1) * avg) by (nonlinear_arith);
        assert(t.water_mass[idx] + r.mass_delta[idx] >= avg);
        assert forall|j: int| 0 <= j < rs.len() implies (#[trigger] rs[j]).0 < t.size() by {
            assert(p(rs[j]));
        }
        lemma_give_outflow(t, idx, rs, avg, remaining, seed, rs.len());
        if t.water_outflow[idx] <= 255 {
            lemma_give_outflow_total(t, idx, rs, avg, remaining, seed, rs.len());
        }
        assert forall|i: int| 0 <= i < r.size() implies 0 <= r.water_mass[i] + #[trigger] r.mass_delta[i] <= 255 by {
            assert(0 <= t.water_mass[i] + t.mass_delta[i] <= 255);
            if i != idx {
                lemma_gift_sums(rs, avg, i, rs.len());
                if received(rs, avg, i, rs.len()) != 0 {
                    let m = choose|m: int| 0 <= m < rs.len() && (#[trigger] rs[m]).0 == i;
                    lemma_received_exact(rs, avg, i, rs.len(), m);
                    assert(p(rs[m]));
                    assert(rs[m].1 == t.water_mass[i] + t.mass_delta[i]);
                }
            }
        }
        assert forall|i: int| 0 <= i < t.size() && #[trigger] r.mass_delta[i] > t.mass_delta[i] implies !is_solid_spec(
            t.tiles[i],
        ) by {
            if i != idx {
                lemma_gift_sums(rs, avg, i, rs.len());
                let m = choose|m: int| 0 <= m < rs.len() && (#[trigger] rs[m]).0 == i;
                assert(p(rs[m]));
            }
        }
    }
}

/// Where the gravity phase stands after `k` cells, for a world with no pending deltas:
/// as in `gravity_progress`, and besides every cell expects between 0 and 255 and no
/// solid cell has received.
pub open spec fn gravity_settle_progress(v: WorldView, t: WorldView, k: int) -> bool {
    &&& gravity_progress(v, t, k)
    &&& settled(t)
    &&& solid_not_filled(v, t)
}

proof fn lemma_gravity_settle_step(v: WorldView, t: WorldView, x: int, y: int, z: int, seed: u64)
    requires
        v.wf(),
        deltas_within(v, 0),
        v.in_bounds(x, y, z),
        z >= 1,
        gravity_settle_progress(v, t, down_pos(v, x, y, z)),
    ensures
        gravity_settle_progress(v, gravity_flow_step(t, x, y, z, seed), down_pos(v, x, y, z) + 1),
{
    lemma_gravity_progress_step(v, t, x, y, z, seed);
    let k = down_pos(v, x, y, z);
    let r = gravity_flow_step(t, x, y, z, seed);
    if r != t {
        lemma_in_bounds_addressable(v, x, y, z);
        lemma_in_bounds_addressable(v, x, y, z - 1);
        let idx = v.idx(x, y, z);
        let below = v.idx(x, y, z - 1);
        let wd = v.width * v.depth;
        assert(down_pos(v, x, y, z - 1) == k + wd) by (nonlinear_arith)
            requires
                k == (v.height - 1 - z) * (v.width * v.depth) + y * v.width + x,
                down_pos(v, x, y, z - 1) == (v.height - 1 - (z - 1)) * (v.width * v.depth) + y * v.width + x,
                wd == v.width * v.depth,
        ;
        assert(wd > 0) by (nonlinear_arith)
            requires
                0 <= x < v.width,
                0 <= y < v.depth,
                wd == v.width * v.depth,
        ;
        if idx == below {
            lemma_idx_injective(v, x, y, z, x, y, z - 1);
        }
        lemma_moved_within(v, t, 0, 255);
        let mass = t.water_mass[idx];
        let below_mass = t.water_mass[below];
        let capacity = (255 - below_mass) as u16;
        let transfer: u16 = if (mass as u16) < capacity {
            mass as u16
        } else {
            capacity
        };
        let sed = crate::water::flow::sediment_transfer_spec(t.water_sediment[idx], transfer, mass, idx, seed);
        assert(r == t.record_flow(idx, below, transfer, sed));
        assert(t.mass_delta[v.idx(x, y, z)] - v.mass_delta[idx] >= 0);
        assert(t.mass_delta[v.idx(x, y, z - 1)] - v.mass_delta[below] == 0);
        assert(v.mass_delta[idx] == 0 && v.mass_delta[below] == 0);
        assert(r.mass_delta[idx] == t.mass_delta[idx] - transfer);
        assert(r.mass_delta[below] == t.mass_delta[below] + transfer);
        assert(!is_solid_spec(v.tiles[below]));
        assert forall|i: int| 0 <= i < r.size() implies 0 <= r.water_mass[i] + #[trigger] r.mass_delta[i] <= 255 by {
            assert(0 <= t.water_mass[i] + t.mass_delta[i] <= 255);
        }
        assert forall|i: int| 0 <= i < v.size() && is_solid_spec(v.tiles[i]) implies #[trigger] r.mass_delta[i] <= 0 by {
            assert(t.mass_delta[i] <= 0);
        }
    }
}

/// From a world with no pending deltas, the gravity and spread phases of the flow pass
/// leave every cell expecting between 0 and 255, with no solid cell having received.
pub proof fn lemma_moving_phases_settle(v: WorldView, seed: u64)
    requires
        v.wf(),
        deltas_within(v, 0),
    ensures
        settled(after_moving(v, seed)),
        solid_not_filled(v, after_moving(v, seed)),
        after_moving(v, seed).water_mass == v.water_mass,
        after_moving(v, seed).tiles == v.tiles,
{
    let v0 = outflow_cleared(v);
    let n = (if v.height >= 1 {
        v.height - 1
    } else {
        0
    }) as nat;
    let p = |t: WorldView, k: int| gravity_settle_progress(v0, t, k);
    assert(moved_at_most(v0, v0, 0));
    assert(settled(v0)) by {
        assert forall|i: int| 0 <= i < v0.size() implies 0 <= v0.water_mass[i] + #[trigger] v0.mass_delta[i] <= 255 by {
            assert(v.mass_delta[i] == 0);
        }
    }
    assert(p(v0, 0));
    assert forall|t: WorldView, x: int, y: int, z: int|
        0 <= x < v.width && 0 <= y < v.depth && v.height - n <= z < v.height && p(
            t,
            (v.height - 1 - z) * (v.width * v.depth) + y * v.width + x,
        ) implies p(
        #[trigger] gravity_flow_fn(seed)(t, x, y, z),
        (v.height - 1 - z) * (v.width * v.depth) + y * v.width + x + 1,
    ) by {
        lemma_gravity_settle_step(v0, t, x, y, z, seed);
    }
    lemma_down_prog(v0, gravity_flow_fn(seed), p, v.width, v.depth, v.height as int, n);
    let p1 = sweep_down(v0, gravity_flow_fn(seed), v.width, v.depth, v.height as int, n);
    let q = |t: WorldView|
        t.wf() && t.width == v.width && t.depth == v.depth && t.height == v.height && t.tiles == v.tiles
            && t.water_mass == v.water_mass && settled(t) && solid_not_filled(v, t);
    assert(q(p1));
    assert forall|t: WorldView, x: int, y: int, z: int|
        0 <= x < v.width && 0 <= y < v.depth && 0 <= z < 0 + v.height && q(t) implies q(
        #[trigger] spread_flow_fn(seed)(t, x, y, z),
    ) by {
        lemma_spread_settles(t, x, y, z, seed);
        lemma_settled_deltas(t);
        lemma_spread_flow_conserves(t, x, y, z, seed);
        let r = spread_flow_step(t, x, y, z, seed);
        assert forall|i: int| 0 <= i < v.size() && is_solid_spec(v.tiles[i]) implies #[trigger] r.mass_delta[i] <= 0 by {
            assert(t.mass_delta[i] <= 0);
        }
    }
    lemma_up_keeps(p1, spread_flow_fn(seed), q, v.width, v.depth, 0, v.height);
}

/// Where the gravity phase stands on the outflow after `k` cells of its top-down sweep
/// of `v` (which starts with every outflow 0): a cell not yet visited has outflow 0,
/// and a visited one at most 255.
pub open spec fn gravity_outflow_progress(v: WorldView, t: WorldView, k: int) -> bool {
    &&& t.wf()
    &&& t.width == v.width && t.depth == v.depth && t.height == v.height
    &&& t.tiles == v.tiles && t.water_mass == v.water_mass
    &&& forall|i: int| 0 <= i < v.size() ==> #[trigger] t.water_outflow[i] <= 255
    &&& forall|x: int, y: int, z: int|
        #![trigger t.water_outflow[v.idx(x, y, z)]]
        v.in_bounds(x, y, z) ==> t.water_outflow[v.idx(x, y, z)] <= (if z >= 1 && down_pos(v, x, y, z) < k {
            255int
        } else {
            0int
        })
}

proof fn lemma_gravity_outflow_step(v: WorldView, t: WorldView, x: int, y: int, z: int, seed: u64)
    requires
        v.wf(),
        v.in_bounds(x, y, z),
        z >= 1,
        gravity_outflow_progress(v, t, down_pos(v, x, y, z)),
    ensures
        gravity_outflow_progress(v, gravity_flow_step(t, x, y, z, seed), down_pos(v, x, y, z) + 1),
{
    let k = down_pos(v, x, y, z);
    let r = gravity_flow_step(t, x, y, z, seed);
    lemma_in_bounds_addressable(v, x, y, z);
    lemma_in_bounds_addressable(v, x, y, z - 1);
    let idx = v.idx(x, y, z);
    let below = v.idx(x, y, z - 1);
    assert(t.water_mass == v.water_mass);
    assert(t.tiles == v.tiles);
    if r != t {
        if idx == below {
            lemma_idx_injective(v, x, y, z, x, y, z - 1);
        }
        let mass = t.water_mass[idx];
        let below_mass = t.water_mass[below];
        let capacity = (255 - below_mass) as u16;
        let transfer: u16 = if (mass as u16) < capacity {
            mass as u16
        } else {
            capacity
        };
        let sed = crate::water::flow::sediment_transfer_spec(t.water_sediment[idx], transfer, mass, idx, seed);
        assert(r == t.record_flow(idx, below, transfer, sed));
        assert(t.water_outflow[v.idx(x, y, z)] == 0);
        assert(r.water_outflow == t.water_outflow.update(idx, crate::world::waddu16(t.water_outflow[idx], transfer)));
        assert(r.water_outflow[idx] <= 255);
        assert forall|i: int| 0 <= i < v.size() implies #[trigger] r.water_outflow[i] <= 255 by {
            assert(t.water_outflow[i] <= 255);
        }
        assert forall|a: int, b: int, c: int|
            #![trigger r.water_outflow[v.idx(a, b, c)]]
            v.in_bounds(a, b, c) implies r.water_outflow[v.idx(a, b, c)] <= (if c >= 1 && down_pos(v, a, b, c) < k + 1 {
                255int
            } else {
                0int
            }) by {
            lemma_in_bounds_addressable(v, a, b, c);
            if v.idx(a, b, c) == idx {
                lemma_idx_injective(v, a, b, c, x, y, z);
            } else {
                assert(r.water_outflow[v.idx(a, b, c)] == t.water_outflow[v.idx(a, b, c)]);
            }
        }
    } else {
        assert forall|a: int, b: int, c: int|
            #![trigger r.water_outflow[v.idx(a, b, c)]]
            v.in_bounds(a, b, c) implies r.water_outflow[v.idx(a, b, c)] <= (if c >= 1 && down_pos(v, a, b, c) < k + 1 {
                255int
            } else {
                0int
            }) by {
            assert(r.water_outflow[v.idx(a, b, c)] == t.water_outflow[v.idx(a, b, c)]);
        }
    }
}

/// Where the spread phase stands on the outflow after the cells before index `k`: every
/// cell expects between 0 and 255, and a cell's outflow is at most 255 before it is
/// visited and at most 510 after.
pub open spec fn spread_outflow_progress(v: WorldView, t: WorldView, k: int) -> bool {
    &&& t.wf()
    &&& t.width == v.width && t.depth == v.depth && t.height == v.height
    &&& t.tiles == v.tiles && t.water_mass == v.water_mass
    &&& settled(t)
    &&& forall|i: int| 0 <= i < v.size() ==> #[trigger] t.water_outflow[i] <= 510
    &&& forall|x: int, y: int, z: int|
        #![trigger t.water_outflow[v.idx(x, y, z)]]
        v.in_bounds(x, y, z) ==> t.water_outflow[v.idx(x, y, z)] <= (if v.idx(x, y, z) < k {
            510int
        } else {
            255int
        })
}

proof fn lemma_spread_outflow_step(v: WorldView, t: WorldView, x: int, y: int, z: int, seed: u64)
    requires
        v.wf(),
        v.in_bounds(x, y, z),
        spread_outflow_progress(v, t, v.idx(x, y, z)),
    ensures
        spread_outflow_progress(v, spread_flow_step(t, x, y, z, seed), v.idx(x, y, z) + 1),
{
    let k = v.idx(x, y, z);
    let r = spread_flow_step(t, x, y, z, seed);
    lemma_in_bounds_addressable(v, x, y, z);
    lemma_spread_settles(t, x, y, z, seed);
    lemma_settled_deltas(t);
    lemma_spread_flow_conserves(t, x, y, z, seed);
    assert(t.water_outflow[v.idx(x, y, z)] <= 255);
    assert forall|a: int, b: int, c: int|
        #![trigger r.water_outflow[v.idx(a, b, c)]]
        v.in_bounds(a, b, c) implies r.water_outflow[v.idx(a, b, c)] <= (if v.idx(a, b, c) < k + 1 {
            510int
        } else {
            255int
        }) by {
        lemma_in_bounds_addressable(v, a, b, c);
        if v.idx(a, b, c) != k {
            assert(r.water_outflow[v.idx(a, b, c)] == t.water_outflow[v.idx(a, b, c)]);
        }
    }
    assert forall|i: int| 0 <= i < v.size() implies #[trigger] r.water_outflow[i] <= 510 by {
        if i != k {
            assert(t.water_outflow[i] <= 510);
        }
    }
}

/// The outflow the flow pass leaves is small: starting with no pending deltas, what
/// left any cell during the pass is at most 510 (at most 255 falling and at most 255
/// spreading), so the counter never wraps around.
pub proof fn lemma_flow_pass_outflow_bounded(v: WorldView, seed: u64)
    requires
        v.wf(),
        deltas_within(v, 0),
    ensures
        forall|i: int| 0 <= i < v.size() ==> #[trigger] flow_pass(v, seed).water_outflow[i] <= 510,
{
    let v0 = outflow_cleared(v);
    let n = (if v.height >= 1 {
        v.height - 1
    } else {
        0
    }) as nat;
    let pg = |t: WorldView, k: int| gravity_outflow_progress(v0, t, k);
    assert(pg(v0, 0)) by {
        assert forall|x: int, y: int, z: int|
            #![trigger v0.water_outflow[v0.idx(x, y, z)]]
            v0.in_bounds(x, y, z) implies v0.water_outflow[v0.idx(x, y, z)] <= 0 by {
            lemma_in_bounds_addressable(v0, x, y, z);
        }
    }
    assert forall|t: WorldView, x: int, y: int, z: int|
        0 <= x < v.width && 0 <= y < v.depth && v.height - n <= z < v.height && pg(
            t,
            (v.height - 1 - z) * (v.width * v.depth) + y * v.width + x,
        ) implies pg(
        #[trigger] gravity_flow_fn(seed)(t, x, y, z),
        (v.height - 1 - z) * (v.width * v.depth) + y * v.width + x + 1,
    ) by {
        lemma_gravity_outflow_step(v0, t, x, y, z, seed);
    }
    lemma_down_prog(v0, gravity_flow_fn(seed), pg, v.width, v.depth, v.height as int, n);
    let p1 = sweep_down(v0, gravity_flow_fn(seed), v.width, v.depth, v.height as int, n);
    // the gravity phase leaves every cell expecting between 0 and 255
    let ps = |t: WorldView, k: int| gravity_settle_progress(v0, t, k);
    assert(settled(v0)) by {
        assert forall|i: int| 0 <= i < v0.size() implies 0 <= v0.water_mass[i] + #[trigger] v0.mass_delta[i] <= 255 by {
            assert(v.mass_delta[i] == 0);
        }
    }
    assert(moved_at_most(v0, v0, 0));
    assert(ps(v0, 0));
    assert forall|t: WorldView, x: int, y: int, z: int|
        0 <= x < v.width && 0 <= y < v.depth && v.height - n <= z < v.height && ps(
            t,
            (v.height - 1 - z) * (v.width * v.depth) + y * v.width + x,
        ) implies ps(
        #[trigger] gravity_flow_fn(seed)(t, x, y, z),
        (v.height - 1 - z) * (v.width * v.depth) + y * v.width + x + 1,
    ) by {
        lemma_gravity_settle_step(v0, t, x, y, z, seed);
    }
    lemma_down_prog(v0, gravity_flow_fn(seed), ps, v.width, v.depth, v.height as int, n);
    let pp = |t: WorldView, k: int| spread_outflow_progress(v0, t, k);
    assert(pp(p1, 0)) by {
        assert forall|x: int, y: int, z: int|
            #![trigger p1.water_outflow[v0.idx(x, y, z)]]
            v0.in_bounds(x, y, z) implies p1.water_outflow[v0.idx(x, y, z)] <= 255 by {
            lemma_in_bounds_addressable(v0, x, y, z);
        }
    }
    assert forall|t: WorldView, x: int, y: int, z: int|
        0 <= x < v.width && 0 <= y < v.depth && 0 <= z < 0 + v.height && pp(t, (z - 0) * (v.width * v.depth) + y * v.width + x)
            implies pp(
        #[trigger] spread_flow_fn(seed)(t, x, y, z),
        (z - 0) * (v.width * v.depth) + y * v.width + x + 1,
    ) by {
        assert((z - 0) * (v.width * v.depth) + y * v.width + x == v0.idx(x, y, z));
        lemma_spread_outflow_step(v0, t, x, y, z, seed);
    }
    lemma_up_prog(p1, spread_flow_fn(seed), pp, v.width, v.depth, 0, v.height);
    let p2 = sweep_up(p1, spread_flow_fn(seed), v.width, v.depth, 0, v.height);
    let upper = n;
    let q = |t: WorldView| t.wf() && t.width == v.width && t.depth == v.depth && t.height == v.height && t.water_outflow
        == p2.water_outflow;
    assert forall|t: WorldView, x: int, y: int, z: int|
        0 <= x < v.width && 0 <= y < v.depth && 0 <= z < 0 + upper && q(t) implies q(#[trigger] pressure_fn()(t, x, y, z)) by {
        lemma_in_bounds_addressable(t, x, y, z);
        lemma_in_bounds_addressable(t, x, y, z + 1);
    }
    lemma_up_keeps(p2, pressure_fn(), q, v.width, v.depth, 0, upper);
    assert forall|i: int| 0 <= i < v.size() implies #[trigger] flow_pass(v, seed).water_outflow[i] <= 510 by {
        assert(p2.water_outflow[i] <= 510);
    }
}

} // verus!
