use vstd::prelude::*;
use vstd::arithmetic::div_mod::{lemma_div_by_multiple, lemma_div_is_ordered};
use crate::arith::{clamp, clamp_i128, is_isqrt, isqrt_wide, lemma_sum_sq_nonneg, sum_sq, tdiv, trunc_div};
use crate::config::{Config, ACC_LIMIT, COORD_LIMIT, MASS_LIMIT, MAX_DIMS, VEL_LIMIT, WIDE_LIMIT};

verus! {

/// A point mass. A mass of zero marks a probe, which exerts no force.
pub struct Body {
    pub pos_vec: Vec<i64>,
    pub vel_vec: Vec<i64>,
    pub mass: i64,
}

/// The entries of `v` as mathematical integers.
pub open spec fn ints(v: Seq<i64>) -> Seq<int> {
    v.map_values(|x: i64| x as int)
}

/// Every entry of `v` lies in `[-lim, lim]`.
pub open spec fn bounded(v: Seq<i64>, lim: int) -> bool {
    forall|i: int| 0 <= i < v.len() ==> -lim <= #[trigger] v[i] <= lim
}

/// The vector from `a` to `b`.
pub open spec fn rel(a: Seq<i64>, b: Seq<i64>) -> Seq<int> {
    Seq::new(a.len(), |i: int| b[i] - a[i])
}

/// The zero vector of length `n`.
pub open spec fn zero_vec(n: nat) -> Seq<int> {
    Seq::new(n, |i: int| 0)
}

/// The integer square root of `n`.
pub open spec fn root(n: int) -> int {
    choose|r: int| is_isqrt(n, r)
}

/// A pair exerts no force: the source is a probe, or it is no farther than
/// `min_dist` from the target.
pub open spec fn inert(m: int, r: Seq<int>, min_dist: int) -> bool {
    m == 0 || sum_sq(r) <= min_dist * min_dist
}

/// Fixed-point scale of a distance: `2^20`.
pub const ROOT_SCALE: i64 = 1048576;

/// The distance whose square is `d2`, in units of `1 / ROOT_SCALE`, rounded
/// down: the integer square root of `d2 * ROOT_SCALE^2`.
pub open spec fn fine_root(d2: int) -> int {
    root(d2 * ROOT_SCALE * ROOT_SCALE)
}

/// Acceleration exerted on a target by a source of mass `m` that lies at
/// offset `r` from it: `g * m / d^2` along `r / d`, where `d` is the length of
/// `r` taken to `1 / ROOT_SCALE` (`fine_root`), each component rounded toward
/// zero.
pub open spec fn accel(g: int, m: int, r: Seq<int>, min_dist: int) -> Seq<int> {
    let d2 = sum_sq(r);
    if inert(m, r, min_dist) {
        zero_vec(r.len())
    } else {
        Seq::new(r.len(), |i: int| tdiv(g * m * r[i] * ROOT_SCALE, d2 * fine_root(d2)))
    }
}

/// Potential contribution of a source of mass `m` at offset `r`: `g * m / d`
/// along `r / d`, each component rounded toward zero.
pub open spec fn potential(g: int, m: int, r: Seq<int>, min_dist: int) -> Seq<int> {
    let d2 = sum_sq(r);
    if inert(m, r, min_dist) {
        zero_vec(r.len())
    } else {
        Seq::new(r.len(), |i: int| tdiv(g * m * r[i], d2))
    }
}

/// Entrywise sum, held within the acceleration limit.
pub open spec fn add_clamped(a: Seq<int>, b: Seq<int>) -> Seq<int> {
    Seq::new(a.len(), |i: int| clamp(a[i] + b[i], ACC_LIMIT as int))
}

/// The opening-angle criterion `2 h / d <= tn / td` for a region of half
/// extent `h` whose center lies at squared distance `d2`, stated without a
/// square root.
pub open spec fn far(h: int, d2: int, tn: int, td: int) -> bool {
    (2 * h * td) * (2 * h * td) <= tn * tn * d2
}

impl Body {
    /// Dimensions match and every quantity lies within the lattice limits.
    pub open spec fn fits(&self, dims: int) -> bool {
        &&& self.pos_vec@.len() == dims
        &&& self.vel_vec@.len() == dims
        &&& bounded(self.pos_vec@, COORD_LIMIT as int)
        &&& bounded(self.vel_vec@, VEL_LIMIT as int)
        &&& 0 <= self.mass <= MASS_LIMIT
    }

    /// As `fits`, with positions anywhere within the wider limit of a body
    /// that has just moved.
    pub open spec fn loose(&self, dims: int) -> bool {
        &&& self.pos_vec@.len() == dims
        &&& self.vel_vec@.len() == dims
        &&& bounded(self.pos_vec@, WIDE_LIMIT as int)
        &&& bounded(self.vel_vec@, VEL_LIMIT as int)
        &&& 0 <= self.mass <= MASS_LIMIT
    }
}

pub proof fn lemma_entry_sq_le_sum_sq(v: Seq<int>, i: int)
    requires
        0 <= i < v.len(),
    ensures
        v[i] * v[i] <= sum_sq(v),
    decreases v.len(),
{
    lemma_sum_sq_nonneg(v.drop_last());
    if i < v.len() - 1 {
        lemma_entry_sq_le_sum_sq(v.drop_last(), i);
    }
    assert(v.last() * v.last() >= 0) by (nonlinear_arith);
}

pub proof fn lemma_isqrt_unique(n: int, a: int, b: int)
    requires
        is_isqrt(n, a),
        is_isqrt(n, b),
    ensures
        a == b,
{
    if a < b {
        assert((a + 1) * (a + 1) <= b * b) by (nonlinear_arith)
            requires 0 <= a, a + 1 <= b;
    }
    if b < a {
        assert((b + 1) * (b + 1) <= a * a) by (nonlinear_arith)
            requires 0 <= b, b + 1 <= a;
    }
}

pub proof fn lemma_root_is(n: int, r: int)
    requires
        is_isqrt(n, r),
    ensures
        root(n) == r,
{
    let c = root(n);
    assert(is_isqrt(n, c));
    lemma_isqrt_unique(n, c, r);
}

/// An entry of a vector, scaled by `ROOT_SCALE`, is no longer than the fine
/// root of its squared length.
proof fn lemma_entry_le_root(v: Seq<int>, i: int, rt: int)
    requires
        0 <= i < v.len(),
        is_isqrt(sum_sq(v) * ROOT_SCALE * ROOT_SCALE, rt),
    ensures
        -rt <= v[i] * ROOT_SCALE <= rt,
{
    lemma_entry_sq_le_sum_sq(v, i);
    let x = v[i] * ROOT_SCALE;
    let d2 = sum_sq(v) * ROOT_SCALE * ROOT_SCALE;
    assert(x * x <= d2) by (nonlinear_arith)
        requires x == v[i] * 1048576, v[i] * v[i] <= sum_sq(v), d2 == sum_sq(v) * 1048576 * 1048576;
    if x > rt {
        assert((rt + 1) * (rt + 1) <= x * x) by (nonlinear_arith)
            requires 0 <= rt, rt + 1 <= x;
    }
    if x < -rt {
        assert((rt + 1) * (rt + 1) <= x * x) by (nonlinear_arith)
            requires 0 <= rt, x <= -rt - 1;
    }
}

/// `|a| / den` stays below `k` where `|a| <= k * den`.
pub proof fn lemma_tdiv_bound(a: int, den: int, k: int)
    requires
        den > 0,
        k >= 0,
        -(k * den) <= a <= k * den,
    ensures
        -k <= tdiv(a, den) <= k,
{
    lemma_div_by_multiple(k, den);
    if a >= 0 {
        lemma_div_is_ordered(a, k * den, den);
        assert(a / den >= 0) by (nonlinear_arith)
            requires a >= 0, den > 0;
    } else {
        lemma_div_is_ordered(-a, k * den, den);
        assert((-a) / den >= 0) by (nonlinear_arith)
            requires -a >= 0, den > 0;
    }
}

/// The zero vector of length `n`.
pub fn zeros(n: usize) -> (r: Vec<i64>)
    ensures
        ints(r@) == zero_vec(n as nat),
        r@.len() == n,
        forall|j: int| 0 <= j < n ==> #[trigger] r@[j] == 0,
{
    let mut v: Vec<i64> = Vec::new();
    let mut i: usize = 0;
    while i < n
        invariant
            i <= n,
            v@.len() == i,
            forall|j: int| 0 <= j < i ==> v@[j] == 0,
        decreases n - i,
    {
        v.push(0);
        i += 1;
    }
    assert(ints(v@) =~= zero_vec(n as nat));
    v
}

/// Entrywise sum of two vectors, held within the acceleration limit.
pub fn add_vec(a: &Vec<i64>, b: &Vec<i64>) -> (r: Vec<i64>)
    requires
        a@.len() == b@.len(),
        bounded(a@, ACC_LIMIT as int),
        bounded(b@, ACC_LIMIT as int),
    ensures
        ints(r@) == add_clamped(ints(a@), ints(b@)),
        bounded(r@, ACC_LIMIT as int),
        r@.len() == a@.len(),
{
    let n = a.len();
    let mut out: Vec<i64> = Vec::new();
    let mut i: usize = 0;
    while i < n
        invariant
            n == a@.len() == b@.len(),
            bounded(a@, ACC_LIMIT as int),
            bounded(b@, ACC_LIMIT as int),
            i <= n,
            out@.len() == i,
            forall|j: int| 0 <= j < i ==> out@[j] == clamp(a@[j] + b@[j], ACC_LIMIT as int),
        decreases n - i,
    {
        let c = clamp_i128(a[i] as i128 + b[i] as i128, ACC_LIMIT as i128);
        out.push(c as i64);
        i += 1;
    }
    assert(ints(out@) =~= add_clamped(ints(a@), ints(b@)));
    out
}

/// Squared distance between two coordinate vectors of equal length.
pub fn sq_dist(a: &Vec<i64>, b: &Vec<i64>) -> (r: i64)
    requires
        a@.len() == b@.len() <= MAX_DIMS,
        bounded(a@, COORD_LIMIT as int),
        bounded(b@, COORD_LIMIT as int),
    ensures
        r == sum_sq(rel(a@, b@)),
        0 <= r <= 8 * 288230376151711744,
{
    let ghost v = rel(a@, b@);
    let n = a.len();
    let mut acc: i64 = 0;
    let mut i: usize = 0;
    while i < n
        invariant
            n == a@.len() == b@.len() <= MAX_DIMS,
            v == rel(a@, b@),
            bounded(a@, COORD_LIMIT as int),
            bounded(b@, COORD_LIMIT as int),
            i <= n,
            acc == sum_sq(v.subrange(0, i as int)),
            0 <= acc <= i * 288230376151711744,
        decreases n - i,
    {
        let d: i64 = b[i] - a[i];
        assert(0 <= d * d <= 288230376151711744) by (nonlinear_arith)
            requires -536870912 <= d <= 536870912;
        assert(v.subrange(0, i + 1).drop_last() =~= v.subrange(0, i as int));
        acc = acc + d * d;
        i += 1;
    }
    assert(v.subrange(0, n as int) =~= v);
    acc
}

/// Sum of squares of the entries of a vector.
pub fn sum_squares(v: &Vec<i64>) -> (r: i64)
    requires
        v@.len() <= MAX_DIMS,
        bounded(v@, 2 * COORD_LIMIT as int),
    ensures
        r == sum_sq(ints(v@)),
        0 <= r <= 8 * 288230376151711744,
{
    let ghost w = ints(v@);
    let n = v.len();
    let mut acc: i64 = 0;
    let mut i: usize = 0;
    while i < n
        invariant
            n == v@.len() <= MAX_DIMS,
            w == ints(v@),
            bounded(v@, 2 * COORD_LIMIT as int),
            i <= n,
            acc == sum_sq(w.subrange(0, i as int)),
            0 <= acc <= i * 288230376151711744,
        decreases n - i,
    {
        let d: i64 = v[i];
        assert(0 <= d * d <= 288230376151711744) by (nonlinear_arith)
            requires -536870912 <= d <= 536870912;
        assert(w.subrange(0, i + 1).drop_last() =~= w.subrange(0, i as int));
        acc = acc + d * d;
        i += 1;
    }
    assert(w.subrange(0, n as int) =~= w);
    acc
}

impl Body {
    /// Squared distance between this body and `mass`.
    pub fn squared_dist_to(&self, mass: &Body) -> (r: i64)
        requires
            self.pos_vec@.len() == mass.pos_vec@.len() <= MAX_DIMS,
            bounded(self.pos_vec@, COORD_LIMIT as int),
            bounded(mass.pos_vec@, COORD_LIMIT as int),
        ensures
            r == sum_sq(rel(self.pos_vec@, mass.pos_vec@)),
    {
        sq_dist(&self.pos_vec, &mass.pos_vec)
    }

    /// The vector from this body to `mass`.
    pub fn vec_rel(&self, mass: &Body) -> (r: Vec<i64>)
        requires
            self.pos_vec@.len() == mass.pos_vec@.len(),
            bounded(self.pos_vec@, COORD_LIMIT as int),
            bounded(mass.pos_vec@, COORD_LIMIT as int),
        ensures
            ints(r@) == rel(self.pos_vec@, mass.pos_vec@),
            bounded(r@, 2 * COORD_LIMIT as int),
    {
        let n = self.pos_vec.len();
        let mut out: Vec<i64> = Vec::new();
        let mut i: usize = 0;
        while i < n
            invariant
                n == self.pos_vec@.len() == mass.pos_vec@.len(),
                bounded(self.pos_vec@, COORD_LIMIT as int),
                bounded(mass.pos_vec@, COORD_LIMIT as int),
                i <= n,
                out@.len() == i,
                forall|j: int| 0 <= j < i ==> out@[j] == mass.pos_vec@[j] - self.pos_vec@[j],
            decreases n - i,
        {
            out.push(mass.pos_vec[i] - self.pos_vec[i]);
            i += 1;
        }
        assert(ints(out@) =~= rel(self.pos_vec@, mass.pos_vec@));
        out
    }

    /// Squared length of `vec`.
    pub fn sq_magnitude(&self, vec: &Vec<i64>) -> (r: i64)
        requires
            vec@.len() <= MAX_DIMS,
            bounded(vec@, 2 * COORD_LIMIT as int),
        ensures
            r == sum_sq(ints(vec@)),
    {
        sum_squares(vec)
    }

    /// Acceleration that `mass` exerts on this body.
    pub fn get_classical_accel(&self, mass: &Body, cfg: &Config) -> (r: Vec<i64>)
        requires
            cfg.wf(),
            self.pos_vec@.len() == cfg.dims,
            bounded(self.pos_vec@, COORD_LIMIT as int),
            mass.fits(cfg.dims as int),
        ensures
            ints(r@) == accel(cfg.g as int, mass.mass as int, rel(self.pos_vec@, mass.pos_vec@), cfg.min_dist as int),
            bounded(r@, ACC_LIMIT as int),
    {
        let ghost v = rel(self.pos_vec@, mass.pos_vec@);
        let n = self.pos_vec.len();
        if mass.mass == 0 {
            return zeros(n);
        }
        let d2 = sq_dist(&self.pos_vec, &mass.pos_vec);
        assert(0 <= cfg.min_dist * cfg.min_dist <= 268435456 * 268435456) by (nonlinear_arith)
            requires 0 <= cfg.min_dist <= 268435456;
        if (d2 as i128) <= (cfg.min_dist as i128) * (cfg.min_dist as i128) {
            return zeros(n);
        }
        let wide: u128 = (d2 as u128) * 1099511627776;
        assert(wide < 0x1000000000000000000000000000000);
        let rt = isqrt_wide(wide) as i128;
        proof {
            lemma_root_is(wide as int, rt as int);
            assert(d2 * 1048576 * 1048576 == wide);
            assert(fine_root(d2 as int) == rt);
            assert(1048576 <= rt) by (nonlinear_arith)
                requires wide < (rt + 1) * (rt + 1), wide >= 1099511627776, rt >= 0;
        }
        assert(0 <= d2 * rt <= 8 * 288230376151711744 * 1152921504606846976) by (nonlinear_arith)
            requires 0 <= d2 <= 8 * 288230376151711744, 0 <= rt <= 1152921504606846976;
        assert(0 <= cfg.g * mass.mass <= 1048576 * 1099511627776) by (nonlinear_arith)
            requires 0 <= cfg.g <= 1048576, 0 <= mass.mass <= 1099511627776;
        let den: i128 = (d2 as i128) * rt;
        let gm: i128 = (cfg.g as i128) * (mass.mass as i128);
        proof {
            assert(rt <= den) by (nonlinear_arith)
                requires d2 >= 1, rt >= 1, den == d2 * rt;
        }
        let mut out: Vec<i64> = Vec::new();
        let mut i: usize = 0;
        while i < n
            invariant
                n == self.pos_vec@.len() == mass.pos_vec@.len() == cfg.dims,
                v == rel(self.pos_vec@, mass.pos_vec@),
                bounded(self.pos_vec@, COORD_LIMIT as int),
                bounded(mass.pos_vec@, COORD_LIMIT as int),
                d2 == sum_sq(v),
                is_isqrt(d2 * ROOT_SCALE * ROOT_SCALE, rt as int),
                fine_root(d2 as int) == rt,
                1 <= rt <= den,
                rt < 1152921504606846976,
                den == d2 * rt,
                gm == cfg.g * mass.mass,
                0 <= gm <= 1048576 * 1099511627776,
                i <= n,
                out@.len() == i,
                forall|j: int| 0 <= j < i ==> out@[j] == tdiv(gm * (v[j] * ROOT_SCALE), den as int),
            decreases n - i,
        {
            let ri: i128 = ((mass.pos_vec[i] as i128) - (self.pos_vec[i] as i128)) * 1048576;
            proof {
                lemma_entry_le_root(v, i as int, rt as int);
                assert(-(gm * rt) <= gm * ri <= gm * rt) by (nonlinear_arith)
                    requires -rt <= ri <= rt, gm >= 0;
                assert(gm * rt <= gm * den) by (nonlinear_arith)
                    requires rt <= den, gm >= 0;
                assert(gm * ri >= -(1048576 * 1099511627776 * 1152921504606846976)) by (nonlinear_arith)
                    requires -rt <= ri <= rt, 0 <= gm <= 1048576 * 1099511627776, rt <= 1152921504606846976;
                assert(gm * ri <= 1048576 * 1099511627776 * 1152921504606846976) by (nonlinear_arith)
                    requires -rt <= ri <= rt, 0 <= gm <= 1048576 * 1099511627776, rt <= 1152921504606846976;
                lemma_tdiv_bound(gm * ri, den as int, gm as int);
            }
            let num: i128 = gm * ri;
            let c = trunc_div(num, den);
            out.push(c as i64);
            i += 1;
        }
        proof {
            let a = accel(cfg.g as int, mass.mass as int, v, cfg.min_dist as int);
            assert forall|j: int| 0 <= j < n implies ints(out@)[j] == a[j] by {
                assert(cfg.g * mass.mass * v[j] * ROOT_SCALE == gm * (v[j] * ROOT_SCALE)) by (nonlinear_arith)
                    requires gm == cfg.g * mass.mass;
            }
            assert(ints(out@) =~= a);
            assert forall|j: int| 0 <= j < n implies -ACC_LIMIT <= #[trigger] out@[j] <= ACC_LIMIT by {
                lemma_entry_le_root(v, j, rt as int);
                let x = v[j] * ROOT_SCALE;
                assert(-(gm * rt) <= gm * x <= gm * rt) by (nonlinear_arith)
                    requires -rt <= x <= rt, gm >= 0;
                assert(gm * rt <= gm * den) by (nonlinear_arith)
                    requires rt <= den, gm >= 0;
                lemma_tdiv_bound(gm * x, den as int, gm as int);
            }
        }
        out
    }
}


impl Body {
    /// Potential contribution of `mass` at this body.
    pub fn get_classical_potential(&self, mass: &Body, cfg: &Config) -> (r: Vec<i64>)
        requires
            cfg.wf(),
            self.pos_vec@.len() == cfg.dims,
            bounded(self.pos_vec@, COORD_LIMIT as int),
            mass.fits(cfg.dims as int),
        ensures
            ints(r@) == potential(cfg.g as int, mass.mass as int, rel(self.pos_vec@, mass.pos_vec@), cfg.min_dist as int),
    {
        let ghost v = rel(self.pos_vec@, mass.pos_vec@);
        let n = self.pos_vec.len();
        if mass.mass == 0 {
            return zeros(n);
        }
        let d2 = sq_dist(&self.pos_vec, &mass.pos_vec);
        assert(0 <= cfg.min_dist * cfg.min_dist <= 268435456 * 268435456) by (nonlinear_arith)
            requires 0 <= cfg.min_dist <= 268435456;
        if (d2 as i128) <= (cfg.min_dist as i128) * (cfg.min_dist as i128) {
            return zeros(n);
        }
        assert(0 <= cfg.g * mass.mass <= 1048576 * 1099511627776) by (nonlinear_arith)
            requires 0 <= cfg.g <= 1048576, 0 <= mass.mass <= 1099511627776;
        let gm: i128 = (cfg.g as i128) * (mass.mass as i128);
        let den: i128 = d2 as i128;
        let mut out: Vec<i64> = Vec::new();
        let mut i: usize = 0;
        while i < n
            invariant
                n == self.pos_vec@.len() == mass.pos_vec@.len() == cfg.dims,
                v == rel(self.pos_vec@, mass.pos_vec@),
                bounded(self.pos_vec@, COORD_LIMIT as int),
                bounded(mass.pos_vec@, COORD_LIMIT as int),
                den == d2 == sum_sq(v),
                den >= 1,
                gm == cfg.g * mass.mass,
                0 <= gm <= 1048576 * 1099511627776,
                i <= n,
                out@.len() == i,
                forall|j: int| 0 <= j < i ==> out@[j] == tdiv(gm * v[j], den as int),
            decreases n - i,
        {
            let ri: i128 = (mass.pos_vec[i] as i128) - (self.pos_vec[i] as i128);
            proof {
                lemma_entry_sq_le_sum_sq(v, i as int);
                assert(-den <= ri <= den) by (nonlinear_arith)
                    requires ri * ri <= den, den >= 1;
                assert(-(gm * den) <= gm * ri <= gm * den) by (nonlinear_arith)
                    requires -den <= ri <= den, gm >= 0;
                assert(-536870912 <= ri <= 536870912);
                assert(gm * ri >= -(1048576 * 1099511627776 * 536870912)) by (nonlinear_arith)
                    requires -536870912 <= ri <= 536870912, 0 <= gm <= 1048576 * 1099511627776;
                assert(gm * ri <= 1048576 * 1099511627776 * 536870912) by (nonlinear_arith)
                    requires -536870912 <= ri <= 536870912, 0 <= gm <= 1048576 * 1099511627776;
                lemma_tdiv_bound(gm * ri, den as int, gm as int);
            }
            let c = trunc_div(gm * ri, den);
            out.push(c as i64);
            i += 1;
        }
        proof {
            let a = potential(cfg.g as int, mass.mass as int, v, cfg.min_dist as int);
            assert forall|j: int| 0 <= j < n implies ints(out@)[j] == a[j] by {
                assert(cfg.g * mass.mass * v[j] == gm * v[j]);
            }
            assert(ints(out@) =~= a);
        }
        out
    }

    /// `acc` plus the acceleration that `mass` exerts on this body, each
    /// component held within the acceleration limit.
    pub fn update_accel(&self, acc: Vec<i64>, mass: &Body, cfg: &Config) -> (r: Vec<i64>)
        requires
            cfg.wf(),
            self.pos_vec@.len() == cfg.dims,
            bounded(self.pos_vec@, COORD_LIMIT as int),
            mass.fits(cfg.dims as int),
            acc@.len() == cfg.dims,
            bounded(acc@, ACC_LIMIT as int),
        ensures
            ints(r@) == add_clamped(
                ints(acc@),
                accel(cfg.g as int, mass.mass as int, rel(self.pos_vec@, mass.pos_vec@), cfg.min_dist as int),
            ),
            bounded(r@, ACC_LIMIT as int),
            r@.len() == acc@.len(),
    {
        let a = self.get_classical_accel(mass, cfg);
        proof {
            assert(a@.len() == ints(a@).len());
        }
        add_vec(&acc, &a)
    }
}

proof fn lemma_sum_sq_neg(v: Seq<int>, w: Seq<int>)
    requires
        v.len() == w.len(),
        forall|i: int| 0 <= i < v.len() ==> #[trigger] w[i] == -v[i],
    ensures
        sum_sq(v) == sum_sq(w),
    decreases v.len(),
{
    if v.len() > 0 {
        lemma_sum_sq_neg(v.drop_last(), w.drop_last());
        assert(w.last() * w.last() == v.last() * v.last()) by (nonlinear_arith)
            requires w.last() == -v.last();
    }
}

/// The squared distance between two points does not depend on their order.
pub proof fn lemma_sq_dist_symmetric(a: Seq<i64>, b: Seq<i64>)
    requires
        a.len() == b.len(),
    ensures
        sum_sq(rel(a, b)) == sum_sq(rel(b, a)),
        sum_sq(rel(a, b)) >= 0,
{
    lemma_sum_sq_neg(rel(a, b), rel(b, a));
    lemma_sum_sq_nonneg(rel(a, b));
}

/// A probe, or a source no farther than `min_dist`, exerts no acceleration.
/// Otherwise each component of the acceleration points from the target toward
/// the source, and is `g * m / d2` times the unit offset `r[i] / d`, rounded
/// toward zero, where `d2` is the squared distance and `d = fd / ROOT_SCALE`
/// its square root to `1 / ROOT_SCALE`: `fd * fd <= d2 * ROOT_SCALE^2 < (fd + 1)^2`.
pub proof fn lemma_accel_direction_and_magnitude(g: int, m: int, r: Seq<int>, min_dist: int)
    requires
        g >= 0,
        m >= 0,
        min_dist >= 0,
    ensures
        inert(m, r, min_dist) ==> accel(g, m, r, min_dist) == zero_vec(r.len()),
        !inert(m, r, min_dist) ==> {
            let d2 = sum_sq(r);
            let fd = fine_root(d2);
            let a = accel(g, m, r, min_dist);
            &&& is_isqrt(d2 * ROOT_SCALE * ROOT_SCALE, fd)
            &&& fd >= ROOT_SCALE
            &&& a.len() == r.len()
            &&& forall|i: int| 0 <= i < r.len() ==> {
                &&& (r[i] > 0 ==> #[trigger] a[i] >= 0)
                &&& (r[i] < 0 ==> a[i] <= 0)
                &&& (r[i] == 0 ==> a[i] == 0)
                &&& (r[i] >= 0 ==> a[i] * (d2 * fd) <= g * m * r[i] * ROOT_SCALE < (a[i] + 1) * (d2 * fd))
                &&& (r[i] <= 0 ==> (-a[i]) * (d2 * fd) <= g * m * (-r[i]) * ROOT_SCALE < (-a[i] + 1) * (d2
                    * fd))
            }
        },
{
    if !inert(m, r, min_dist) {
        let d2 = sum_sq(r);
        lemma_sum_sq_nonneg(r);
        assert(d2 >= 1) by (nonlinear_arith)
            requires d2 > min_dist * min_dist, min_dist >= 0;
        lemma_fine_root_pos(d2);
        let d = fine_root(d2);
        let den = d2 * d;
        assert(den >= 1) by (nonlinear_arith)
            requires d2 >= 1, d >= 1, den == d2 * d;
        let a = accel(g, m, r, min_dist);
        assert forall|i: int| 0 <= i < r.len() implies {
            &&& (r[i] > 0 ==> #[trigger] a[i] >= 0)
            &&& (r[i] < 0 ==> a[i] <= 0)
            &&& (r[i] == 0 ==> a[i] == 0)
            &&& (r[i] >= 0 ==> a[i] * den <= g * m * r[i] * ROOT_SCALE < (a[i] + 1) * den)
            &&& (r[i] <= 0 ==> (-a[i]) * den <= g * m * (-r[i]) * ROOT_SCALE < (-a[i] + 1) * den)
        } by {
            let x = g * m * r[i] * ROOT_SCALE;
            assert(a[i] == tdiv(x, den));
            if r[i] >= 0 {
                assert(x >= 0) by (nonlinear_arith)
                    requires g >= 0, m >= 0, r[i] >= 0, x == g * m * r[i] * 1048576;
                lemma_floor_div_bounds(x, den);
            } else {
                assert(-x == g * m * (-r[i]) * ROOT_SCALE) by (nonlinear_arith)
                    requires x == g * m * r[i] * 1048576;
                assert(-x >= 0) by (nonlinear_arith)
                    requires g >= 0, m >= 0, r[i] < 0, -x == g * m * (-r[i]) * 1048576;
                lemma_floor_div_bounds(-x, den);
            }
            if r[i] == 0 {
                assert(x == 0) by (nonlinear_arith)
                    requires r[i] == 0, x == g * m * r[i] * 1048576;
            }
        }
    } else {
        assert(accel(g, m, r, min_dist) =~= zero_vec(r.len()));
    }
}

/// A witness for the integer square root of a nonnegative integer.
proof fn isqrt_witness(n: int) -> (r: int)
    requires
        n >= 0,
    ensures
        is_isqrt(n, r),
    decreases n,
{
    if n == 0 {
        assert(is_isqrt(0, 0)) by (nonlinear_arith);
        0
    } else {
        let p = isqrt_witness(n - 1);
        if (p + 1) * (p + 1) <= n {
            assert(is_isqrt(n, p + 1)) by (nonlinear_arith)
                requires n - 1 < (p + 1) * (p + 1), p >= 0, (p + 1) * (p + 1) <= n;
            p + 1
        } else {
            assert(is_isqrt(n, p)) by (nonlinear_arith)
                requires p * p <= n - 1, p >= 0, (p + 1) * (p + 1) > n;
            p
        }
    }
}

/// The fine root of a positive squared distance is at least `ROOT_SCALE`.
pub proof fn lemma_fine_root_pos(d2: int)
    requires
        d2 >= 1,
    ensures
        is_isqrt(d2 * ROOT_SCALE * ROOT_SCALE, fine_root(d2)),
        fine_root(d2) >= ROOT_SCALE,
{
    let n = d2 * ROOT_SCALE * ROOT_SCALE;
    assert(n >= 1099511627776) by (nonlinear_arith)
        requires d2 >= 1, n == d2 * 1048576 * 1048576;
    lemma_root_pos(n);
    let x = root(n);
    assert(x >= 1048576) by (nonlinear_arith)
        requires n < (x + 1) * (x + 1), n >= 1099511627776, x >= 0;
}

/// The integer square root of a positive integer is positive.
pub proof fn lemma_root_pos(n: int)
    requires
        n >= 1,
    ensures
        is_isqrt(n, root(n)),
        root(n) >= 1,
{
    let x = isqrt_witness(n);
    lemma_root_is(n, x);
    assert(x >= 1) by (nonlinear_arith)
        requires n < (x + 1) * (x + 1), n >= 1, x >= 0;
}

pub proof fn lemma_floor_div_bounds(x: int, den: int)
    requires
        x >= 0,
        den >= 1,
    ensures
        (x / den) * den <= x < (x / den + 1) * den,
        x / den >= 0,
{
    vstd::arithmetic::div_mod::lemma_fundamental_div_mod(x, den);
    assert(x / den >= 0) by (nonlinear_arith)
        requires x >= 0, den >= 1;
    assert((x / den) * den == den * (x / den)) by (nonlinear_arith);
    assert((x / den + 1) * den == den * (x / den) + den) by (nonlinear_arith);
}

/// Two bodies of equal mass pull on each other with accelerations equal in
/// size and opposite in direction.
pub proof fn lemma_accel_antisymmetric(g: int, m: int, a: Seq<i64>, b: Seq<i64>, min_dist: int)
    requires
        a.len() == b.len(),
    ensures
        accel(g, m, rel(a, b), min_dist) =~= Seq::new(
            a.len(),
            |i: int| -accel(g, m, rel(b, a), min_dist)[i],
        ),
{
    let r = rel(a, b);
    let s = rel(b, a);
    lemma_sum_sq_neg(r, s);
    let d2 = sum_sq(r);
    if !inert(m, r, min_dist) {
        lemma_sum_sq_nonneg(r);
        assert(d2 >= 1) by (nonlinear_arith)
            requires d2 > min_dist * min_dist, d2 >= 0;
        lemma_fine_root_pos(d2);
        assert(d2 * fine_root(d2) >= 1) by (nonlinear_arith)
            requires d2 >= 1, fine_root(d2) >= 1;
        assert forall|i: int| 0 <= i < a.len() implies #[trigger] accel(g, m, r, min_dist)[i] == -accel(
            g,
            m,
            s,
            min_dist,
        )[i] by {
            assert(g * m * s[i] * ROOT_SCALE == -(g * m * r[i] * ROOT_SCALE)) by (nonlinear_arith)
                requires s[i] == -r[i];
            let den = d2 * fine_root(d2);
            let x = g * m * r[i] * ROOT_SCALE;
            assert(accel(g, m, r, min_dist)[i] == tdiv(x, den));
            assert(accel(g, m, s, min_dist)[i] == tdiv(-x, den));
            if x == 0 {
                assert(0int / den == 0);
            }
        }
    }
}

} // verus!
