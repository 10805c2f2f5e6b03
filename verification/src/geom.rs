use vstd::prelude::*;

verus! {

/// Largest coordinate magnitude a point may carry.  Keeping every coordinate
/// within this bound keeps all squared-distance arithmetic inside `i64`.
pub const COORD_LIMIT: i64 = 1_000_000;

/// Largest dimensionality a point may have.
pub const DIM_LIMIT: usize = 1024;

/// Every coordinate of `p` lies within `[-COORD_LIMIT, COORD_LIMIT]`.
pub open spec fn bounded(p: Seq<i64>) -> bool {
    forall|i: int| 0 <= i < p.len() ==> -COORD_LIMIT <= #[trigger] p[i] <= COORD_LIMIT
}

/// A well-formed point of a `dim`-dimensional configuration space.
pub open spec fn valid_point(p: Seq<i64>, dim: nat) -> bool {
    &&& p.len() == dim
    &&& dim <= DIM_LIMIT as nat
    &&& bounded(p)
}

/// Squared Euclidean distance between two coordinate sequences of equal
/// length.  All threshold comparisons in this library compare squared
/// distances against squared lengths, which is exact on integers.
pub open spec fn sq_dist(a: Seq<i64>, b: Seq<i64>) -> int
    decreases a.len(),
{
    if a.len() == 0 {
        0
    } else {
        sq_dist(a.drop_last(), b.drop_last()) + (a.last() - b.last()) * (a.last() - b.last())
    }
}

pub proof fn lemma_sq_dist_nonneg(a: Seq<i64>, b: Seq<i64>)
    ensures
        sq_dist(a, b) >= 0,
    decreases a.len(),
{
    if a.len() > 0 {
        lemma_sq_dist_nonneg(a.drop_last(), b.drop_last());
        let d = a.last() - b.last();
        assert(d * d >= 0) by (nonlinear_arith);
    }
}

pub proof fn lemma_sq_dist_sym(a: Seq<i64>, b: Seq<i64>)
    requires
        a.len() == b.len(),
    ensures
        sq_dist(a, b) == sq_dist(b, a),
    decreases a.len(),
{
    if a.len() > 0 {
        lemma_sq_dist_sym(a.drop_last(), b.drop_last());
        let x = a.last() - b.last();
        let y = b.last() - a.last();
        assert(x * x == y * y) by (nonlinear_arith)
            requires
                x == -y,
        ;
    }
}

/// On bounded coordinates each squared difference is at most
/// `(2 * COORD_LIMIT)^2`, so the sum is bounded by the dimension times that.
pub proof fn lemma_sq_dist_bound(a: Seq<i64>, b: Seq<i64>)
    requires
        a.len() == b.len(),
        bounded(a),
        bounded(b),
    ensures
        0 <= sq_dist(a, b) <= a.len() * 4_000_000_000_000,
    decreases a.len(),
{
    if a.len() == 0 {
    } else {
        lemma_sq_dist_bound(a.drop_last(), b.drop_last());
        let d = a.last() - b.last();
        assert(-2_000_000 <= d <= 2_000_000);
        assert(d * d <= 4_000_000_000_000) by (nonlinear_arith)
            requires
                -2_000_000 <= d <= 2_000_000,
        ;
        assert(d * d >= 0) by (nonlinear_arith);
        assert((a.len() - 1) * 4_000_000_000_000 + 4_000_000_000_000 == a.len()
            * 4_000_000_000_000) by (nonlinear_arith);
    }
}

/// Equal sequences are at squared distance zero.
pub proof fn lemma_sq_dist_self(a: Seq<i64>)
    ensures
        sq_dist(a, a) == 0,
    decreases a.len(),
{
    if a.len() > 0 {
        lemma_sq_dist_self(a.drop_last());
    }
}

/// Exact executable squared Euclidean distance.
pub fn squared_euclidean(a: &Vec<i64>, b: &Vec<i64>) -> (r: i64)
    requires
        a@.len() == b@.len(),
        a@.len() <= DIM_LIMIT,
        bounded(a@),
        bounded(b@),
    ensures
        r == sq_dist(a@, b@),
        0 <= r <= a@.len() * 4_000_000_000_000,
{
    proof {
        lemma_sq_dist_bound(a@, b@);
    }
    let n = a.len();
    let mut acc: i64 = 0;
    let mut i: usize = 0;
    while i < n
        invariant
            0 <= i <= n,
            n == a@.len() == b@.len(),
            n <= DIM_LIMIT,
            bounded(a@),
            bounded(b@),
            acc == sq_dist(a@.take(i as int), b@.take(i as int)),
            0 <= acc <= i * 4_000_000_000_000,
        decreases n - i,
    {
        let d = a[i] - b[i];
        assert(d * d <= 4_000_000_000_000 && d * d >= 0) by (nonlinear_arith)
            requires
                -2_000_000 <= d <= 2_000_000,
        ;
        assert(i * 4_000_000_000_000 + 4_000_000_000_000 <= DIM_LIMIT
            * 4_000_000_000_000) by (nonlinear_arith)
            requires
                0 <= i < DIM_LIMIT as int,
        ;
        let sq = d * d;
        acc = acc + sq;
        proof {
            let ai = a@.take(i + 1);
            let bi = b@.take(i + 1);
            assert(ai.drop_last() =~= a@.take(i as int));
            assert(bi.drop_last() =~= b@.take(i as int));
            assert((i + 1) * 4_000_000_000_000 == i * 4_000_000_000_000
                + 4_000_000_000_000) by (nonlinear_arith);
        }
        i = i + 1;
    }
    proof {
        assert(a@.take(n as int) =~= a@);
        assert(b@.take(n as int) =~= b@);
    }
    acc
}

/// Floor of the square root of a non-negative integer.
pub open spec fn sqrt_floor(n: int) -> int {
    choose|r: int| #![trigger r * r] 0 <= r && r * r <= n && (r + 1) * (r + 1) > n
}

/// The floor square root is unique, so any witness pins it down.
pub proof fn lemma_sqrt_floor_is(n: int, r: int)
    requires
        0 <= r,
        r * r <= n,
        (r + 1) * (r + 1) > n,
    ensures
        sqrt_floor(n) == r,
{
    let r2 = sqrt_floor(n);
    assert(0 <= r2 && r2 * r2 <= n && (r2 + 1) * (r2 + 1) > n);
    assert(r2 == r) by (nonlinear_arith)
        requires
            0 <= r && r * r <= n && (r + 1) * (r + 1) > n,
            0 <= r2 && r2 * r2 <= n && (r2 + 1) * (r2 + 1) > n,
    ;
}

/// Integer division truncated toward zero, for a positive divisor.
pub open spec fn div_toward_zero(a: int, b: int) -> int {
    if a >= 0 {
        a / b
    } else {
        -((-a) / b)
    }
}

/// The exact value of one steering step: the target itself once it is within
/// the step length, otherwise each coordinate moves by
/// `(target_i - near_i) * ell / s` truncated toward zero, where `s` is the
/// floor of the Euclidean distance from `near` to `target`.
pub open spec fn steer_spec(near: Seq<i64>, target: Seq<i64>, ell: int) -> Seq<i64> {
    if sq_dist(near, target) < ell * ell {
        target
    } else {
        Seq::new(
            near.len(),
            |i: int|
                (near[i] + div_toward_zero(
                    (target[i] - near[i]) * ell,
                    sqrt_floor(sq_dist(near, target)),
                )) as i64,
        )
    }
}

/// Exact coordinate-wise equality of two points.
pub fn points_equal(a: &Vec<i64>, b: &Vec<i64>) -> (r: bool)
    ensures
        r <==> a@ == b@,
{
    if a.len() != b.len() {
        return false;
    }
    let n = a.len();
    let mut i: usize = 0;
    while i < n
        invariant
            0 <= i <= n,
            n == a@.len() == b@.len(),
            forall|j: int| 0 <= j < i ==> a@[j] == b@[j],
        decreases n - i,
    {
        if a[i] != b[i] {
            return false;
        }
        i = i + 1;
    }
    proof {
        assert(a@ =~= b@);
    }
    true
}

/// A fresh owned copy of a point.
pub fn copy_point(q: &Vec<i64>) -> (r: Vec<i64>)
    ensures
        r@ == q@,
{
    let n = q.len();
    let mut r: Vec<i64> = Vec::new();
    let mut i: usize = 0;
    while i < n
        invariant
            0 <= i <= n,
            n == q@.len(),
            r@ == q@.take(i as int),
        decreases n - i,
    {
        r.push(q[i]);
        proof {
            assert(q@.take(i + 1) =~= q@.take(i as int).push(q@[i as int]));
        }
        i = i + 1;
    }
    proof {
        assert(q@.take(n as int) =~= q@);
    }
    r
}

/// Floor of the square root, by bisection.
pub fn isqrt(n: i64) -> (r: i64)
    requires
        0 <= n <= 4_611_686_018_427_387_903,
    ensures
        0 <= r,
        r * r <= n,
        (r + 1) * (r + 1) > n,
{
    let mut lo: i64 = 0;
    let mut hi: i64 = 2_147_483_647;
    proof {
        assert(2_147_483_648i64 * 2_147_483_648i64 > 4_611_686_018_427_387_903) by (nonlinear_arith);
    }
    while lo < hi
        invariant
            0 <= lo <= hi <= 2_147_483_647,
            lo * lo <= n,
            (hi + 1) * (hi + 1) > n,
        decreases hi - lo,
    {
        let mid = lo + (hi - lo + 1) / 2;
        assert(lo < mid <= hi);
        assert(mid * mid <= 2_147_483_647i64 * 2_147_483_647i64) by (nonlinear_arith)
            requires
                0 <= mid <= 2_147_483_647,
        ;
        assert(mid * mid >= 0) by (nonlinear_arith);
        if mid * mid <= n {
            lo = mid;
        } else {
            hi = mid - 1;
        }
    }
    lo
}

/// One steering step: starting at `near`, move toward `target` by `ell`,
/// rounded to the grid.  Each coordinate moves by `(target_i - near_i) * ell / s`
/// (truncated toward zero), where `s` is the floor of the Euclidean distance
/// from `near` to `target`; the result therefore lands within `ell + 1` of
/// `near` and never farther from `target` than `near` was.
pub fn steer(near: &Vec<i64>, target: &Vec<i64>, ell: i64) -> (r: Vec<i64>)
    requires
        near@.len() == target@.len(),
        near@.len() <= DIM_LIMIT,
        bounded(near@),
        bounded(target@),
        1 <= ell <= COORD_LIMIT,
        sq_dist(near@, target@) >= ell * ell,
    ensures
        r@.len() == near@.len(),
        bounded(r@),
        r@ == steer_spec(near@, target@, ell as int),
        sq_dist(near@, r@) <= (ell + 1) * (ell + 1),
        sq_dist(r@, target@) <= sq_dist(near@, target@),
        r@ != near@ ==> sq_dist(r@, target@) < sq_dist(near@, target@),
{
    proof {
        assert(near@.len() * 4_000_000_000_000 <= 1024 * 4_000_000_000_000) by (nonlinear_arith)
            requires
                near@.len() <= 1024,
        ;
    }
    let sq = squared_euclidean(near, target);
    let s = isqrt(sq);
    proof {
        assert(s >= ell) by (nonlinear_arith)
            requires
                (s + 1) * (s + 1) > sq,
                sq >= ell * ell,
                s >= 0,
                ell >= 1,
        ;
        assert(s <= 64_000_000) by (nonlinear_arith)
            requires
                s * s <= sq,
                sq <= 4_096_000_000_000_000i64,
                s >= 0,
        ;
    }
    proof {
        lemma_sqrt_floor_is(sq as int, s as int);
    }
    let n = near.len();
    let mut r: Vec<i64> = Vec::new();
    let mut i: usize = 0;
    while i < n
        invariant
            0 <= i <= n,
            n == near@.len() == target@.len(),
            n <= DIM_LIMIT,
            bounded(near@),
            bounded(target@),
            1 <= ell <= COORD_LIMIT,
            ell <= s <= 64_000_000,
            s * s <= sq,
            sq < (s + 1) * (s + 1),
            sq == sq_dist(near@, target@),
            s == sqrt_floor(sq as int),
            r@.len() == i,
            bounded(r@),
            forall|j: int|
                0 <= j < i ==> (#[trigger] r@[j]) as int == near@[j] + div_toward_zero(
                    (target@[j] - near@[j]) * ell,
                    s as int,
                ),
            s * s * sq_dist(near@.take(i as int), r@) <= ell * ell * sq_dist(
                near@.take(i as int),
                target@.take(i as int),
            ),
            sq_dist(r@, target@.take(i as int)) <= sq_dist(
                near@.take(i as int),
                target@.take(i as int),
            ),
            r@ == near@.take(i as int) || sq_dist(r@, target@.take(i as int)) < sq_dist(
                near@.take(i as int),
                target@.take(i as int),
            ),
        decreases n - i,
    {
        let ghost ai = near@.take(i as int);
        let ghost ti = target@.take(i as int);
        let ghost ri = r@;
        let d = target[i] - near[i];
        let magu: u64 = if d < 0 {
            (-d) as u64
        } else {
            d as u64
        };
        let su: u64 = s as u64;
        let ellu: u64 = ell as u64;
        assert(magu * ellu <= 2_000_000_000_000) by (nonlinear_arith)
            requires
                0 <= magu <= 2_000_000,
                0 <= ellu <= 1_000_000,
        ;
        let stepu: u64 = (magu * ellu) / su;
        proof {
            vstd::arithmetic::div_mod::lemma_fundamental_div_mod(
                (magu * ellu) as int,
                su as int,
            );
            vstd::arithmetic::div_mod::lemma_mod_division_less_than_divisor(
                (magu * ellu) as int,
                su as int,
            );
            assert(su * stepu <= magu * ellu);
            assert(stepu <= magu) by (nonlinear_arith)
                requires
                    su * stepu <= magu * ellu,
                    ellu <= su,
                    0 <= stepu,
                    0 <= magu,
                    su >= 1,
            ;
        }
        let step: i64 = if d < 0 {
            -(stepu as i64)
        } else {
            stepu as i64
        };
        let newc = near[i] + step;
        r.push(newc);
        proof {
            let md = magu as int;
            let st = stepu as int;
            let dd = d as int;
            let nc = newc as int;
            let ni = near@[i as int] as int;
            let tc = target@[i as int] as int;
            assert(step as int == div_toward_zero(dd * ell, s as int)) by {
                if dd >= 0 {
                    assert(dd * ell >= 0) by (nonlinear_arith)
                        requires
                            dd >= 0,
                            ell >= 1,
                    ;
                    assert(magu * ellu == dd * ell);
                    assert(stepu as int == (dd * ell) / (s as int));
                } else {
                    assert(dd * ell < 0) by (nonlinear_arith)
                        requires
                            dd <= -1,
                            ell >= 1,
                    ;
                    assert((-dd) * ell == -(dd * ell)) by (nonlinear_arith);
                    assert(magu * ellu == (-dd) * ell) by (nonlinear_arith)
                        requires
                            magu == -dd,
                            ellu == ell,
                    ;
                    assert(stepu as int == (-(dd * ell)) / (s as int));
                }
            }
            assert(near@.take(i + 1).drop_last() =~= ai);
            assert(target@.take(i + 1).drop_last() =~= ti);
            assert(r@.drop_last() =~= ri);
            assert(near@.take(i + 1).last() == ni);
            assert(target@.take(i + 1).last() == tc);
            assert(r@.last() == nc);
            // the step keeps the coordinate between the two endpoints
            assert(-1_000_000 <= nc <= 1_000_000);
            assert(bounded(r@));
            // squared increments of the three invariant sums
            assert((ni - nc) * (ni - nc) == st * st) by (nonlinear_arith)
                requires
                    nc == ni + (if dd < 0 { -st } else { st }),
                    st >= 0,
            ;
            assert((nc - tc) * (nc - tc) == (md - st) * (md - st)) by (nonlinear_arith)
                requires
                    nc == ni + (if dd < 0 { -st } else { st }),
                    dd == tc - ni,
                    md == (if dd < 0 { -dd } else { dd }),
                    st >= 0,
            ;
            assert((ni - tc) * (ni - tc) == md * md) by (nonlinear_arith)
                requires
                    dd == tc - ni,
                    md == (if dd < 0 { -dd } else { dd }),
            ;
            assert((su * stepu) * (su * stepu) <= (magu * ellu) * (magu * ellu)) by (nonlinear_arith)
                requires
                    0 <= su * stepu,
                    su * stepu <= magu * ellu,
            ;
            assert(s * s * (st * st) <= ell * ell * (md * md)) by (nonlinear_arith)
                requires
                    (s * st) * (s * st) <= (md * ell) * (md * ell),
                    s == su,
                    ell == ellu,
                    st == stepu,
                    md == magu,
                    s >= 1,
                    ell >= 1,
                    st >= 0,
                    md >= 0,
            ;
            assert(s * s * sq_dist(near@.take(i + 1), r@) <= ell * ell * sq_dist(
                near@.take(i + 1),
                target@.take(i + 1),
            )) by (nonlinear_arith)
                requires
                    sq_dist(near@.take(i + 1), r@) == sq_dist(ai, ri) + (ni - nc) * (ni - nc),
                    sq_dist(near@.take(i + 1), target@.take(i + 1)) == sq_dist(ai, ti) + (ni - tc)
                        * (ni - tc),
                    s * s * sq_dist(ai, ri) <= ell * ell * sq_dist(ai, ti),
                    s * s * ((ni - nc) * (ni - nc)) <= ell * ell * ((ni - tc) * (ni - tc)),
            ;
            if st == 0 {
                assert(nc == ni);
                if ri == ai {
                    assert(r@ =~= near@.take(i + 1));
                }
            } else {
                assert((md - st) * (md - st) < md * md) by (nonlinear_arith)
                    requires
                        1 <= st <= md,
                ;
                assert(sq_dist(r@, target@.take(i + 1)) < sq_dist(
                    near@.take(i + 1),
                    target@.take(i + 1),
                ));
            }
        }
        i = i + 1;
    }
    proof {
        assert(near@.take(n as int) =~= near@);
        assert(target@.take(n as int) =~= target@);
        let sp = steer_spec(near@, target@, ell as int);
        assert forall|j: int| 0 <= j < n implies r@[j] == sp[j] by {
            let v = near@[j] + div_toward_zero((target@[j] - near@[j]) * ell, s as int);
            assert(r@[j] as int == v);
            assert(-1_000_000 <= v <= 1_000_000);
            assert(sp[j] == v as i64);
        }
        assert(r@ =~= sp);
        let x = sq_dist(near@, r@);
        lemma_sq_dist_nonneg(near@, r@);
        assert(ell * (s + 1) <= (ell + 1) * s) by (nonlinear_arith)
            requires
                1 <= ell <= s,
        ;
        assert((ell * (s + 1)) * (ell * (s + 1)) <= ((ell + 1) * s) * ((ell + 1) * s))
            by (nonlinear_arith)
            requires
                0 <= ell * (s + 1),
                ell * (s + 1) <= (ell + 1) * s,
        ;
        assert(ell * ell * sq < (ell + 1) * (ell + 1) * (s * s)) by (nonlinear_arith)
            requires
                sq < (s + 1) * (s + 1),
                (ell * (s + 1)) * (ell * (s + 1)) <= ((ell + 1) * s) * ((ell + 1) * s),
                ell >= 1,
                s >= 1,
        ;
        assert(x <= (ell + 1) * (ell + 1)) by (nonlinear_arith)
            requires
                s * s * x <= ell * ell * sq,
                ell * ell * sq < (ell + 1) * (ell + 1) * (s * s),
                s >= 1,
                x >= 0,
        ;
    }
    r
}

} // verus!
