use vstd::prelude::*;
use crate::tile::is_solid_spec;
use crate::world::{World, WorldView, lemma_in_bounds_addressable};

verus! {

broadcast use lemma_in_bounds_addressable;

/// Atmospheric moisture needed before a cloud forms.
pub const CLOUD_THRESHOLD: u32 = 10000;

/// Moisture a new cloud takes from the atmosphere and carries.
pub const CLOUD_WATER: u32 = 8000;

/// Raindrops a cloud drops per tick.
pub const DROPS_PER_TICK: u32 = 3;

/// Water mass of one raindrop.
pub const RAIN_MASS_PER_DROP: u8 = 2;

/// Most clouds that exist at once.
pub const MAX_CLOUDS: usize = 3;

/// Whether a new cloud forms, given the atmospheric moisture and the number of clouds:
/// the moisture has reached the threshold and there is room for another cloud.
pub open spec fn cloud_forms(moisture: u32, clouds: nat) -> bool {
    moisture >= CLOUD_THRESHOLD && clouds < MAX_CLOUDS
}

/// Decides whether a cloud forms now (see `cloud_forms`) and, if it does, takes the
/// cloud's water out of the atmosphere. Where it appears and how it moves is up to the
/// caller.
pub fn take_cloud_water(world: &mut World, cloud_count: usize) -> (formed: bool)
    ensures
        formed == cloud_forms(old(world)@.atmospheric_moisture, cloud_count as nat),
        final(world)@ == if formed {
            old(world)@.set_atmospheric((old(world)@.atmospheric_moisture - CLOUD_WATER) as u32)
        } else {
            old(world)@
        },
{
    let m = world.atmospheric_moisture();
    if m < CLOUD_THRESHOLD {
        return false;
    }
    if cloud_count >= MAX_CLOUDS {
        return false;
    }
    world.set_atmospheric_moisture(m - CLOUD_WATER);
    true
}

/// Scanning the layers n - 1, n - 2, ..., 0 of column (x, y) from the top for the first
/// solid or wet cell: the cell above it (or the cell itself at the top of the world);
/// 0 when there is none.
pub open spec fn top_scan(v: WorldView, x: int, y: int, n: nat) -> int
    decreases n,
{
    if n == 0 {
        0
    } else {
        let z = n - 1;
        if is_solid_spec(v.tile(x, y, z)) || v.mass(x, y, z) > 0 {
            if z + 1 < v.height {
                z + 1
            } else {
                z
            }
        } else {
            top_scan(v, x, y, (n - 1) as nat)
        }
    }
}

/// The topmost exposed cell of column (x, y): where rain lands (see `top_scan`).
pub open spec fn top_exposed(v: WorldView, x: int, y: int) -> int {
    top_scan(v, x, y, v.height)
}

proof fn lemma_top_scan_bound(v: WorldView, x: int, y: int, n: nat)
    requires
        n <= v.height,
    ensures
        0 <= top_scan(v, x, y, n),
        v.height > 0 ==> top_scan(v, x, y, n) < v.height,
    decreases n,
{
    if n > 0 {
        lemma_top_scan_bound(v, x, y, (n - 1) as nat);
    }
}

/// Finds the topmost exposed cell of column (x, y) (see `top_exposed`).
pub fn find_top_exposed_z(world: &World, x: usize, y: usize) -> (z: usize)
    requires
        world.wf(),
        x < world@.width,
        y < world@.depth,
    ensures
        z == top_exposed(world@, x as int, y as int),
        world@.height > 0 ==> z < world@.height,
{
    let h = world.height();
    let mut n = h;
    proof {
        lemma_top_scan_bound(world@, x as int, y as int, h as nat);
    }
    while n > 0
        invariant
            world.wf(),
            x < world@.width,
            y < world@.depth,
            h == world@.height,
            n <= h,
            top_scan(world@, x as int, y as int, n as nat) == top_exposed(world@, x as int, y as int),
        decreases n,
    {
        let z = n - 1;
        if world.get(x, y, z).is_solid() || world.water_mass(x, y, z) > 0 {
            return if z + 1 < h {
                z + 1
            } else {
                z
            };
        }
        n -= 1;
    }
    0
}

/// Raindrops a cloud holding `water` drops this tick: `DROPS_PER_TICK`, or fewer when it
/// holds less than that many drops' worth.
pub open spec fn drops_spec(water: u32) -> u32 {
    let can = water / (RAIN_MASS_PER_DROP as u32);
    if can < DROPS_PER_TICK {
        can
    } else {
        DROPS_PER_TICK
    }
}

pub fn rain_drops(water: u32) -> (n: u32)
    ensures
        n == drops_spec(water),
        n <= DROPS_PER_TICK,
{
    let can = water / (RAIN_MASS_PER_DROP as u32);
    if can < DROPS_PER_TICK {
        can
    } else {
        DROPS_PER_TICK
    }
}

/// The water a cloud keeps after dropping `drops` raindrops (never below zero).
pub fn cloud_water_after(water: u32, drops: u32) -> (left: u32)
    requires
        drops <= DROPS_PER_TICK,
    ensures
        left == if water >= drops * RAIN_MASS_PER_DROP {
            water - drops * RAIN_MASS_PER_DROP
        } else {
            0
        },
{
    water.saturating_sub(drops * (RAIN_MASS_PER_DROP as u32))
}

/// Rain landing on column (tx, ty): the topmost exposed cell gains one raindrop of
/// water (saturating at 255). A drop outside the world is lost.
pub open spec fn rain_spec(v: WorldView, tx: int, ty: int) -> WorldView {
    if 0 <= tx < v.width && 0 <= ty < v.depth {
        let tz = top_exposed(v, tx, ty);
        let idx = v.idx(tx, ty, tz);
        let m = v.water_mass[idx];
        v.set_mass_at(idx, if m + RAIN_MASS_PER_DROP > 255 {
            255
        } else {
            (m + RAIN_MASS_PER_DROP) as u8
        })
    } else {
        v
    }
}

/// Drops one raindrop on column (tx, ty) (see `rain_spec`); returns whether it landed
/// within the world.
pub fn rain_drop(world: &mut World, tx: isize, ty: isize) -> (landed: bool)
    requires
        old(world).wf(),
        (0 <= tx < old(world)@.width && 0 <= ty < old(world)@.depth) ==> old(world)@.height > 0,
    ensures
        final(world).wf(),
        landed == (0 <= tx < old(world)@.width && 0 <= ty < old(world)@.depth),
        final(world)@ == rain_spec(old(world)@, tx as int, ty as int),
{
    let w = world.width();
    let d = world.depth();
    if tx < 0 || ty < 0 {
        return false;
    }
    let ux = tx as usize;
    let uy = ty as usize;
    if ux >= w || uy >= d {
        return false;
    }
    let tz = find_top_exposed_z(world, ux, uy);
    proof {
        lemma_in_bounds_addressable(world@, ux as int, uy as int, tz as int);
    }
    let idx = world.index(ux, uy, tz);
    let m = world.mass_at(idx);
    world.set_mass_at(idx, m.saturating_add(RAIN_MASS_PER_DROP));
    true
}

} // verus!
