use vstd::prelude::*;

verus! {

/// Applies `f` to the cells (0, y, z), (1, y, z), ..., (n - 1, y, z) of a state, in
/// that order.
pub open spec fn sweep_row<S>(s: S, f: spec_fn(S, int, int, int) -> S, y: int, z: int, n: nat) -> S
    decreases n,
{
    if n == 0 {
        s
    } else {
        f(sweep_row(s, f, y, z, (n - 1) as nat), n - 1, y, z)
    }
}

/// Applies `f` row by row to the rows y = 0, 1, ..., n - 1 of layer z, each row of
/// width `w`.
pub open spec fn sweep_layer<S>(s: S, f: spec_fn(S, int, int, int) -> S, z: int, w: nat, n: nat) -> S
    decreases n,
{
    if n == 0 {
        s
    } else {
        sweep_row(sweep_layer(s, f, z, w, (n - 1) as nat), f, n - 1, z, w)
    }
}

/// Applies `f` layer by layer to the layers z = lo, lo + 1, ..., lo + n - 1.
pub open spec fn sweep_up<S>(
    s: S,
    f: spec_fn(S, int, int, int) -> S,
    w: nat,
    d: nat,
    lo: int,
    n: nat,
) -> S
    decreases n,
{
    if n == 0 {
        s
    } else {
        sweep_layer(sweep_up(s, f, w, d, lo, (n - 1) as nat), f, lo + n - 1, w, d)
    }
}

/// Applies `f` layer by layer to the layers z = hi - 1, hi - 2, ..., hi - n.
pub open spec fn sweep_down<S>(
    s: S,
    f: spec_fn(S, int, int, int) -> S,
    w: nat,
    d: nat,
    hi: int,
    n: nat,
) -> S
    decreases n,
{
    if n == 0 {
        s
    } else {
        sweep_layer(sweep_down(s, f, w, d, hi, (n - 1) as nat), f, hi - n, w, d)
    }
}

/// A property that every step keeps (on the cells x < w, y < d, lo <= z < hi) holds
/// after any sweep of a row.
pub proof fn lemma_row_keeps<S>(
    s: S,
    f: spec_fn(S, int, int, int) -> S,
    p: spec_fn(S) -> bool,
    y: int,
    z: int,
    n: nat,
)
    requires
        p(s),
        forall|t: S, x: int| 0 <= x < n && p(t) ==> p(#[trigger] f(t, x, y, z)),
    ensures
        p(sweep_row(s, f, y, z, n)),
    decreases n,
{
    if n > 0 {
        lemma_row_keeps(s, f, p, y, z, (n - 1) as nat);
        let t = sweep_row(s, f, y, z, (n - 1) as nat);
        assert(p(t));
    }
}

pub proof fn lemma_layer_keeps<S>(
    s: S,
    f: spec_fn(S, int, int, int) -> S,
    p: spec_fn(S) -> bool,
    z: int,
    w: nat,
    n: nat,
)
    requires
        p(s),
        forall|t: S, x: int, y: int| 0 <= x < w && 0 <= y < n && p(t) ==> p(#[trigger] f(t, x, y, z)),
    ensures
        p(sweep_layer(s, f, z, w, n)),
    decreases n,
{
    if n > 0 {
        lemma_layer_keeps(s, f, p, z, w, (n - 1) as nat);
        let t = sweep_layer(s, f, z, w, (n - 1) as nat);
        assert forall|u: S, x: int| 0 <= x < w && p(u) implies p(#[trigger] f(u, x, n - 1, z)) by {}
        lemma_row_keeps(t, f, p, n - 1, z, w);
    }
}

/// A property that every step keeps on the cells x < w, y < d, lo <= z < lo + n holds
/// after an upward sweep.
pub proof fn lemma_up_keeps<S>(
    s: S,
    f: spec_fn(S, int, int, int) -> S,
    p: spec_fn(S) -> bool,
    w: nat,
    d: nat,
    lo: int,
    n: nat,
)
    requires
        p(s),
        forall|t: S, x: int, y: int, z: int|
            0 <= x < w && 0 <= y < d && lo <= z < lo + n && p(t) ==> p(#[trigger] f(t, x, y, z)),
    ensures
        p(sweep_up(s, f, w, d, lo, n)),
    decreases n,
{
    if n > 0 {
        lemma_up_keeps(s, f, p, w, d, lo, (n - 1) as nat);
        let t = sweep_up(s, f, w, d, lo, (n - 1) as nat);
        let zz = lo + n - 1;
        assert forall|u: S, x: int, y: int| 0 <= x < w && 0 <= y < d && p(u) implies p(#[trigger] f(u, x, y, zz)) by {}
        lemma_layer_keeps(t, f, p, zz, w, d);
    }
}

/// A property that every step keeps on the cells x < w, y < d, hi - n <= z < hi holds
/// after a downward sweep.
pub proof fn lemma_down_keeps<S>(
    s: S,
    f: spec_fn(S, int, int, int) -> S,
    p: spec_fn(S) -> bool,
    w: nat,
    d: nat,
    hi: int,
    n: nat,
)
    requires
        p(s),
        forall|t: S, x: int, y: int, z: int|
            0 <= x < w && 0 <= y < d && hi - n <= z < hi && p(t) ==> p(#[trigger] f(t, x, y, z)),
    ensures
        p(sweep_down(s, f, w, d, hi, n)),
    decreases n,
{
    if n > 0 {
        lemma_down_keeps(s, f, p, w, d, hi, (n - 1) as nat);
        let t = sweep_down(s, f, w, d, hi, (n - 1) as nat);
        let zz = hi - n;
        assert forall|u: S, x: int, y: int| 0 <= x < w && 0 <= y < d && p(u) implies p(#[trigger] f(u, x, y, zz)) by {}
        lemma_layer_keeps(t, f, p, zz, w, d);
    }
}

/// A property of a state and of how many cells have been visited, which every step of a
/// row sweep carries from one count to the next, holds at the end of the row.
pub proof fn lemma_row_prog<S>(
    s: S,
    f: spec_fn(S, int, int, int) -> S,
    p: spec_fn(S, int) -> bool,
    y: int,
    z: int,
    n: nat,
    base: int,
)
    requires
        p(s, base),
        forall|t: S, x: int| 0 <= x < n && p(t, base + x) ==> p(#[trigger] f(t, x, y, z), base + x + 1),
    ensures
        p(sweep_row(s, f, y, z, n), base + n),
    decreases n,
{
    if n > 0 {
        lemma_row_prog(s, f, p, y, z, (n - 1) as nat, base);
        let t = sweep_row(s, f, y, z, (n - 1) as nat);
        assert(p(t, base + (n - 1)));
    }
}

pub proof fn lemma_layer_prog<S>(
    s: S,
    f: spec_fn(S, int, int, int) -> S,
    p: spec_fn(S, int) -> bool,
    z: int,
    w: nat,
    n: nat,
    base: int,
)
    requires
        p(s, base),
        forall|t: S, x: int, y: int|
            0 <= x < w && 0 <= y < n && p(t, base + y * w + x) ==> p(#[trigger] f(t, x, y, z), base + y * w + x + 1),
    ensures
        p(sweep_layer(s, f, z, w, n), base + n * w),
    decreases n,
{
    if n > 0 {
        lemma_layer_prog(s, f, p, z, w, (n - 1) as nat, base);
        let t = sweep_layer(s, f, z, w, (n - 1) as nat);
        let b2 = base + (n - 1) * w;
        assert(b2 + w == base + n * w) by (nonlinear_arith)
            requires
                b2 == base + (n - 1) * w,
        ;
        assert forall|u: S, x: int| 0 <= x < w && p(u, b2 + x) implies p(#[trigger] f(u, x, n - 1, z), b2 + x + 1) by {
            let yy = n - 1;
            assert(base + yy * w + x == b2 + x);
        }
        lemma_row_prog(t, f, p, n - 1, z, w, b2);
    } else {
        assert(n * w == 0) by (nonlinear_arith)
            requires
                n == 0,
        ;
    }
}

/// A property of a state and of how many cells a downward sweep has visited (layer by
/// layer from `hi - 1`, each row by row), carried by every step, holds at the end.
pub proof fn lemma_down_prog<S>(
    s: S,
    f: spec_fn(S, int, int, int) -> S,
    p: spec_fn(S, int) -> bool,
    w: nat,
    d: nat,
    hi: int,
    n: nat,
)
    requires
        p(s, 0),
        forall|t: S, x: int, y: int, z: int|
            0 <= x < w && 0 <= y < d && hi - n <= z < hi && p(t, (hi - 1 - z) * (w * d) + y * w + x) ==> p(
                #[trigger] f(t, x, y, z),
                (hi - 1 - z) * (w * d) + y * w + x + 1,
            ),
    ensures
        p(sweep_down(s, f, w, d, hi, n), (n * (w * d)) as int),
    decreases n,
{
    if n > 0 {
        lemma_down_prog(s, f, p, w, d, hi, (n - 1) as nat);
        let t = sweep_down(s, f, w, d, hi, (n - 1) as nat);
        let zz = hi - n;
        let b2 = (n - 1) * (w * d);
        assert(b2 + d * w == n * (w * d)) by (nonlinear_arith)
            requires
                b2 == (n - 1) * (w * d),
        ;
        assert forall|u: S, x: int, y: int|
            0 <= x < w && 0 <= y < d && p(u, b2 + y * w + x) implies p(#[trigger] f(u, x, y, zz), b2 + y * w + x + 1) by {
            assert(hi - 1 - zz == n - 1);
        }
        lemma_layer_prog(t, f, p, zz, w, d, b2);
    } else {
        assert(n * (w * d) == 0) by (nonlinear_arith)
            requires
                n == 0,
        ;
    }
}

/// The same for an upward sweep (layer by layer from `lo`).
pub proof fn lemma_up_prog<S>(
    s: S,
    f: spec_fn(S, int, int, int) -> S,
    p: spec_fn(S, int) -> bool,
    w: nat,
    d: nat,
    lo: int,
    n: nat,
)
    requires
        p(s, 0),
        forall|t: S, x: int, y: int, z: int|
            0 <= x < w && 0 <= y < d && lo <= z < lo + n && p(t, (z - lo) * (w * d) + y * w + x) ==> p(
                #[trigger] f(t, x, y, z),
                (z - lo) * (w * d) + y * w + x + 1,
            ),
    ensures
        p(sweep_up(s, f, w, d, lo, n), (n * (w * d)) as int),
    decreases n,
{
    if n > 0 {
        lemma_up_prog(s, f, p, w, d, lo, (n - 1) as nat);
        let t = sweep_up(s, f, w, d, lo, (n - 1) as nat);
        let zz = lo + n - 1;
        let b2 = (n - 1) * (w * d);
        assert(b2 + d * w == n * (w * d)) by (nonlinear_arith)
            requires
                b2 == (n - 1) * (w * d),
        ;
        assert forall|u: S, x: int, y: int|
            0 <= x < w && 0 <= y < d && p(u, b2 + y * w + x) implies p(#[trigger] f(u, x, y, zz), b2 + y * w + x + 1) by {
            assert(zz - lo == n - 1);
        }
        lemma_layer_prog(t, f, p, zz, w, d, b2);
    } else {
        assert(n * (w * d) == 0) by (nonlinear_arith)
            requires
                n == 0,
        ;
    }
}

} // verus!
