use vstd::prelude::*;
use crate::arith::{tdiv, trunc_div};
use crate::body::{bounded, lemma_floor_div_bounds, zeros, Body};
use crate::config::{COORD_LIMIT, MASS_LIMIT, MAX_DIMS, VEL_LIMIT};
use crate::region::{lemma_queue_mass_prefix, pow2, inside, box_fits, queue_mass, agg_mass, lemma_pow2_small, Region};

verus! {

/// A rounded weighted average of values in `[lo, hi]` stays in `[lo, hi]`.
pub proof fn lemma_tdiv_between(num: int, den: int, lo: int, hi: int)
    requires
        den >= 1,
        lo * den <= num <= hi * den,
    ensures
        lo <= tdiv(num, den) <= hi,
{
    if num >= 0 {
        lemma_floor_div_bounds(num, den);
        let q = num / den;
        assert(q <= hi) by (nonlinear_arith)
            requires q * den <= num, num <= hi * den, den >= 1;
        assert(lo <= q) by (nonlinear_arith)
            requires num < (q + 1) * den, lo * den <= num, den >= 1, q >= 0;
    } else {
        lemma_floor_div_bounds(-num, den);
        let q = (-num) / den;
        assert((-lo) * den == -(lo * den)) by (nonlinear_arith);
        assert((-hi) * den == -(hi * den)) by (nonlinear_arith);
        assert(q <= -lo) by (nonlinear_arith)
            requires q * den <= -num, -num <= -lo * den, den >= 1;
        assert(-hi <= q) by (nonlinear_arith)
            requires -num < (q + 1) * den, -hi * den <= -num, den >= 1, q >= 0;
    }
}

/// Mass-weighted sum of coordinate `i` of the positions (or, with `vel`, of
/// the velocities) of a sequence of bodies.
pub open spec fn qnum(q: Seq<Body>, i: int, vel: bool) -> int
    decreases q.len(),
{
    if q.len() == 0 {
        0
    } else {
        qnum(q.drop_last(), i, vel) + q.last().mass * if vel {
            q.last().vel_vec@[i] as int
        } else {
            q.last().pos_vec@[i] as int
        }
    }
}

/// Coordinate `i` of the mass-weighted average of the positions (or
/// velocities) of `q`; with no mass at all, that of the first body.
pub open spec fn qavg(q: Seq<Body>, i: int, vel: bool) -> int {
    if queue_mass(q) == 0 {
        if vel {
            q[0].vel_vec@[i] as int
        } else {
            q[0].pos_vec@[i] as int
        }
    } else {
        tdiv(qnum(q, i, vel), queue_mass(q))
    }
}

/// The single body that a crowded leaf keeps: total mass, mass-weighted
/// average position and velocity.
pub open spec fn collapsed(b: Body, q: Seq<Body>) -> bool {
    &&& b.mass == queue_mass(q)
    &&& b.pos_vec@.len() == q[0].pos_vec@.len()
    &&& b.vel_vec@.len() == q[0].vel_vec@.len()
    &&& forall|i: int| 0 <= i < b.pos_vec@.len() ==> #[trigger] b.pos_vec@[i] == qavg(q, i, false)
    &&& forall|i: int| 0 <= i < b.vel_vec@.len() ==> #[trigger] b.vel_vec@[i] == qavg(q, i, true)
}


/// Mass-weighted average, along axis `i`, of the positions (or velocities)
/// of the bodies of `q`, all of which lie in `[lo, hi]` there.
fn weighted_avg(q: &Vec<Body>, i: usize, vel: bool, dims: usize, lo: i64, hi: i64) -> (r: i64)
    requires
        q@.len() >= 1,
        i < dims <= MAX_DIMS,
        -COORD_LIMIT <= lo <= hi <= COORD_LIMIT,
        forall|t: int| 0 <= t < q@.len() ==> (#[trigger] q@[t]).fits(dims as int),
        forall|t: int|
            0 <= t < q@.len() ==> lo <= (if vel {
                (#[trigger] q@[t]).vel_vec@[i as int]
            } else {
                q@[t].pos_vec@[i as int]
            }) <= hi,
        queue_mass(q@) <= MASS_LIMIT,
    ensures
        r == qavg(q@, i as int, vel),
        lo <= r <= hi,
{
    let ghost qs = q@;
    let mut num: i128 = 0;
    let mut den: i128 = 0;
    let mut j: usize = 0;
    while j < q.len()
        invariant
            qs == q@,
            q@.len() >= 1,
            i < dims <= MAX_DIMS,
            -COORD_LIMIT <= lo <= hi <= COORD_LIMIT,
            forall|t: int| 0 <= t < q@.len() ==> (#[trigger] q@[t]).fits(dims as int),
            forall|t: int|
                0 <= t < q@.len() ==> lo <= (if vel {
                    (#[trigger] q@[t]).vel_vec@[i as int]
                } else {
                    q@[t].pos_vec@[i as int]
                }) <= hi,
            queue_mass(q@) <= MASS_LIMIT,
            j <= q@.len(),
            den == queue_mass(qs.subrange(0, j as int)),
            num == qnum(qs.subrange(0, j as int), i as int, vel),
            lo * den <= num <= hi * den,
            0 <= den <= MASS_LIMIT,
        decreases q@.len() - j,
    {
        let b = &q[j];
        let x: i64 = if vel { b.vel_vec[i] } else { b.pos_vec[i] };
        proof {
            assert(qs.subrange(0, j + 1).drop_last() =~= qs.subrange(0, j as int));
            lemma_queue_mass_prefix(qs, j + 1);
            assert(lo * b.mass <= b.mass * x <= hi * b.mass) by (nonlinear_arith)
                requires lo <= x <= hi, b.mass >= 0;
            assert(lo * (den + b.mass) == lo * den + lo * b.mass) by (nonlinear_arith);
            assert(hi * (den + b.mass) == hi * den + hi * b.mass) by (nonlinear_arith);
            assert(-268435456 * 1099511627776 <= b.mass * x <= 268435456 * 1099511627776) by (nonlinear_arith)
                requires -268435456 <= x <= 268435456, 0 <= b.mass <= 1099511627776;
            assert(-268435456 * 1099511627776 <= lo * den) by (nonlinear_arith)
                requires -268435456 <= lo, 0 <= den <= 1099511627776;
            assert(hi * den <= 268435456 * 1099511627776) by (nonlinear_arith)
                requires hi <= 268435456, 0 <= den <= 1099511627776;
        }
        num = num + (b.mass as i128) * (x as i128);
        den = den + b.mass as i128;
        j += 1;
    }
    proof {
        assert(qs.subrange(0, qs.len() as int) =~= qs);
    }
    if den == 0 {
        if vel { q[0].vel_vec[i] } else { q[0].pos_vec[i] }
    } else {
        proof {
            lemma_tdiv_between(num as int, den as int, lo as int, hi as int);
            assert(-268435456 * 1099511627776 <= lo * den) by (nonlinear_arith)
                requires -268435456 <= lo, 0 <= den <= 1099511627776;
        }
        trunc_div(num, den) as i64
    }
}

/// The aggregate body that stands for the bodies of `q`.
pub fn collapse(q: &Vec<Body>, dims: usize, center: &Vec<i64>, half: i64) -> (r: Body)
    requires
        q@.len() >= 1,
        1 <= dims <= MAX_DIMS,
        center@.len() == dims,
        half >= 1,
        box_fits(center@, half as int),
        forall|t: int| 0 <= t < q@.len() ==> {
            &&& (#[trigger] q@[t]).fits(dims as int)
            &&& inside(center@, half as int, q@[t].pos_vec@)
        },
        queue_mass(q@) <= MASS_LIMIT,
    ensures
        collapsed(r, q@),
        r.fits(dims as int),
        inside(center@, half as int, r.pos_vec@),
{
    let mut pos: Vec<i64> = Vec::new();
    let mut vel: Vec<i64> = Vec::new();
    let mut i: usize = 0;
    while i < dims
        invariant
            q@.len() >= 1,
            1 <= dims <= MAX_DIMS,
            center@.len() == dims,
            half >= 1,
            box_fits(center@, half as int),
            forall|t: int| 0 <= t < q@.len() ==> {
                &&& (#[trigger] q@[t]).fits(dims as int)
                &&& inside(center@, half as int, q@[t].pos_vec@)
            },
            queue_mass(q@) <= MASS_LIMIT,
            i <= dims,
            pos@.len() == i,
            vel@.len() == i,
            forall|a: int| 0 <= a < i ==> #[trigger] pos@[a] == qavg(q@, a, false),
            forall|a: int| 0 <= a < i ==> #[trigger] vel@[a] == qavg(q@, a, true),
            forall|a: int| 0 <= a < i ==> -half <= #[trigger] center@[a] - pos@[a] <= half,
            bounded(vel@, VEL_LIMIT as int),
            bounded(pos@, COORD_LIMIT as int),
        decreases dims - i,
    {
        let lo = center[i] - half;
        let hi = center[i] + half;
        proof {
            assert forall|t: int| 0 <= t < q@.len() implies lo <= (#[trigger] q@[t]).pos_vec@[i as int] <= hi by {
                assert(inside(center@, half as int, q@[t].pos_vec@));
            }
        }
        let p = weighted_avg(q, i, false, dims, lo, hi);
        proof {
            assert forall|t: int| 0 <= t < q@.len() implies -VEL_LIMIT <= (#[trigger] q@[t]).vel_vec@[i as int] <= VEL_LIMIT by {
                assert(q@[t].fits(dims as int));
            }
        }
        let v = weighted_avg(q, i, true, dims, -VEL_LIMIT, VEL_LIMIT);
        pos.push(p);
        vel.push(v);
        i += 1;
    }
    let mut m: i64 = 0;
    let mut j: usize = 0;
    while j < q.len()
        invariant
            forall|t: int| 0 <= t < q@.len() ==> (#[trigger] q@[t]).fits(dims as int),
            queue_mass(q@) <= MASS_LIMIT,
            j <= q@.len(),
            m == queue_mass(q@.subrange(0, j as int)),
            0 <= m <= MASS_LIMIT,
        decreases q@.len() - j,
    {
        proof {
            assert(q@.subrange(0, j + 1).drop_last() =~= q@.subrange(0, j as int));
            lemma_queue_mass_prefix(q@, j + 1);
        }
        m = m + q[j].mass;
        j += 1;
    }
    proof {
        assert(q@.subrange(0, q@.len() as int) =~= q@);
        assert(q@[0].fits(dims as int));
    }
    Body { pos_vec: pos, vel_vec: vel, mass: m }
}

/// An invariant of the tree that a request would break.
#[derive(PartialEq, Eq, Structural, Debug, Clone, Copy)]
pub enum TreeError {
    /// The summed mass would pass the mass limit.
    MassLimit,
}

/// Position coordinate `i` of the summary of a region, or zero without one.
pub open spec fn agg_coord(r: Region, i: int) -> int {
    match r.com {
        Some(b) => b.pos_vec@[i] as int,
        None => 0,
    }
}

/// Total summary mass of the first `k` regions of `v`.
pub open spec fn kids_den(v: Seq<Region>, k: int) -> int
    decreases k,
{
    if k <= 0 || k > v.len() {
        0
    } else {
        kids_den(v, k - 1) + agg_mass(v[k - 1])
    }
}

/// Mass-weighted sum of coordinate `i` of the summaries of the first `k`
/// regions of `v`.
pub open spec fn kids_num(v: Seq<Region>, k: int, i: int) -> int
    decreases k,
{
    if k <= 0 || k > v.len() {
        0
    } else {
        kids_num(v, k - 1, i) + agg_mass(v[k - 1]) * agg_coord(v[k - 1], i)
    }
}

/// `b` summarises the children `v` of a region centered at `c`: their total
/// mass at their mass-weighted centroid, at rest; with no mass, at `c`.
pub open spec fn summarises(b: Body, v: Seq<Region>, c: Seq<i64>) -> bool {
    let den = kids_den(v, v.len() as int);
    &&& b.mass == den
    &&& b.pos_vec@.len() == c.len()
    &&& b.vel_vec@.len() == c.len()
    &&& forall|i: int|
        0 <= i < c.len() ==> #[trigger] b.pos_vec@[i] == if den == 0 {
            c[i] as int
        } else {
            tdiv(kids_num(v, v.len() as int, i), den)
        }
    &&& forall|i: int| 0 <= i < c.len() ==> #[trigger] b.vel_vec@[i] == 0
}

/// `new` is `old` with its summary recomputed: a leaf is unchanged, and an
/// internal node carries the summary of its children.
pub open spec fn com_refreshed(old: Region, new: Region) -> bool {
    &&& old.add_queue@.len() == 0
    &&& match old.reg_vec {
        None => new == old,
        Some(v) => {
            &&& new.reg_vec == old.reg_vec
            &&& new.coord_vec == old.coord_vec
            &&& new.half_length == old.half_length
            &&& new.add_queue == old.add_queue
            &&& new.com is Some
            &&& summarises(new.com->0, v@, old.coord_vec@)
        },
    }
}

/// Recomputing a summary a second time gives the same summary.
pub proof fn lemma_update_com_idempotent(r0: Region, r1: Region, r2: Region)
    requires
        com_refreshed(r0, r1),
        com_refreshed(r1, r2),
    ensures
        r2.reg_vec == r1.reg_vec,
        r2.com is Some <==> r1.com is Some,
        r1.com matches Some(b1) ==> {
            let b2 = r2.com->0;
            &&& b2.pos_vec@ == b1.pos_vec@
            &&& b2.vel_vec@ == b1.vel_vec@
            &&& b2.mass == b1.mass
        },
{
    if r0.reg_vec is Some {
        let v = r1.reg_vec->0@;
        let b1 = r1.com->0;
        let b2 = r2.com->0;
        assert(b2.pos_vec@ =~= b1.pos_vec@);
        assert(b2.vel_vec@ =~= b1.vel_vec@);
    }
}

impl Region {
    /// Recomputes the summary of an internal node from its children. A leaf
    /// is left as it is. A node with bodies still queued has no summary to
    /// give, so the queue must be empty.
    pub fn update_com(&mut self, dims: usize) -> (r: Result<(), TreeError>)
        requires
            old(self).wf(dims as nat),
            old(self).add_queue@.len() == 0,
            1 <= dims <= MAX_DIMS,
        ensures
            (r == Err::<(), TreeError>(TreeError::MassLimit)) <==> (old(self).reg_vec is Some && kids_den(
                old(self).reg_vec->0@,
                old(self).reg_vec->0@.len() as int,
            ) > MASS_LIMIT),
            r is Err ==> *final(self) == *old(self),
            r is Ok ==> com_refreshed(*old(self), *final(self)),
            final(self).wf(dims as nat),
    {
        let kids = match &self.reg_vec {
            None => {
                return Ok(());
            },
            Some(v) => v,
        };
        let ghost v = kids@;
        let n = kids.len();
        proof {
            lemma_pow2_small(dims as nat);
            assert(v.len() == pow2(dims as nat));
        }
        let mut den: i128 = 0;
        let mut k: usize = 0;
        while k < n
            invariant
                n == v.len(),
                v == kids@,
                n <= 256,
                forall|t: int| 0 <= t < n ==> (#[trigger] v[t]).wf(dims as nat),
                k <= n,
                den == kids_den(v, k as int),
                0 <= den <= k * MASS_LIMIT,
            decreases n - k,
        {
            proof {
                assert(v[k as int].wf(dims as nat));
            }
            let m: i64 = match &kids[k].com {
                Some(b) => b.mass,
                None => 0,
            };
            den = den + m as i128;
            k += 1;
        }
        if den > MASS_LIMIT as i128 {
            return Err(TreeError::MassLimit);
        }
        let mut pos: Vec<i64> = Vec::new();
        let mut i: usize = 0;
        while i < dims
            invariant
                n == v.len(),
                v == kids@,
                n <= 256,
                forall|t: int| 0 <= t < n ==> (#[trigger] v[t]).wf(dims as nat),
                den == kids_den(v, n as int),
                0 <= den <= MASS_LIMIT,
                self.coord_vec@.len() == dims,
                box_fits(self.coord_vec@, self.half_length as int),
                self.half_length >= 1,
                i <= dims,
                pos@.len() == i,
                forall|a: int|
                    0 <= a < i ==> #[trigger] pos@[a] == if den == 0 {
                        self.coord_vec@[a] as int
                    } else {
                        tdiv(kids_num(v, n as int, a), den as int)
                    },
                bounded(pos@, COORD_LIMIT as int),
            decreases dims - i,
        {
            let mut num: i128 = 0;
            let mut k2: usize = 0;
            let mut part: i128 = 0;
            while k2 < n
                invariant
                    n == v.len(),
                    v == kids@,
                    i < dims,
                    forall|t: int| 0 <= t < n ==> (#[trigger] v[t]).wf(dims as nat),
                    den == kids_den(v, n as int),
                    0 <= den <= MASS_LIMIT,
                    k2 <= n,
                    part == kids_den(v, k2 as int),
                    0 <= part <= den,
                    num == kids_num(v, k2 as int, i as int),
                    -COORD_LIMIT * part <= num <= COORD_LIMIT * part,
                decreases n - k2,
            {
                proof {
                    assert(v[k2 as int].wf(dims as nat));
                    lemma_kids_den_mono(v, k2 as int + 1, n as int);
                }
                match &kids[k2].com {
                    Some(b) => {
                        let x = b.pos_vec[i];
                        proof {
                            assert(b.fits(dims as int));
                            assert(agg_mass(v[k2 as int]) == b.mass);
                            assert(agg_coord(v[k2 as int], i as int) == x);
                            assert(kids_num(v, k2 + 1, i as int) == num + b.mass * x);
                            assert(kids_den(v, k2 + 1) == part + b.mass);
                            assert(-268435456 * b.mass <= b.mass * x <= 268435456 * b.mass) by (nonlinear_arith)
                                requires -268435456 <= x <= 268435456, b.mass >= 0;
                            assert(part + b.mass <= 1099511627776);
                            assert(-268435456 * part <= num <= 268435456 * part);
                            assert(num + b.mass * x <= 268435456 * (part + b.mass)) by (nonlinear_arith)
                                requires num <= 268435456 * part, b.mass * x <= 268435456 * b.mass;
                            assert(num + b.mass * x >= -268435456 * (part + b.mass)) by (nonlinear_arith)
                                requires num >= -268435456 * part, b.mass * x >= -268435456 * b.mass;
                            assert(268435456 * (part + b.mass) <= 268435456 * 1099511627776) by (nonlinear_arith)
                                requires part + b.mass <= 1099511627776;
                        }
                        num = num + (b.mass as i128) * (x as i128);
                        part = part + b.mass as i128;
                    },
                    None => {
                        proof {
                            assert(agg_mass(v[k2 as int]) == 0);
                            assert(kids_num(v, k2 + 1, i as int) == num);
                            assert(kids_den(v, k2 + 1) == part);
                        }
                    },
                }
                k2 += 1;
            }
            if den == 0 {
                pos.push(self.coord_vec[i]);
                proof {
                    assert(self.coord_vec@[i as int] == self.coord_vec@[i as int]);
                }
            } else {
                proof {
                    assert(-COORD_LIMIT * den == (-COORD_LIMIT) * den);
                    lemma_tdiv_between(num as int, den as int, -COORD_LIMIT as int, COORD_LIMIT as int);
                }
                pos.push(trunc_div(num, den) as i64);
            }
            i += 1;
        }
        let vel = zeros(dims);
        let b = Body { pos_vec: pos, vel_vec: vel, mass: den as i64 };
        proof {
            assert(b.fits(dims as int));
            assert(summarises(b, v, self.coord_vec@));
        }
        self.com = Some(b);
        proof {
            assert(self.node_wf(dims as nat));
        }
        Ok(())
    }
}

pub proof fn lemma_kids_den_mono(v: Seq<Region>, a: int, b: int)
    requires
        0 <= a <= b <= v.len(),
        forall|t: int| 0 <= t < v.len() ==> agg_mass(#[trigger] v[t]) >= 0,
    ensures
        0 <= kids_den(v, a) <= kids_den(v, b),
    decreases b,
{
    if b > a {
        lemma_kids_den_mono(v, a, b - 1);
    } else if a > 0 {
        lemma_kids_den_mono(v, a - 1, a - 1);
    }
}


/// Children whose summaries agree in mass and position give the same
/// weighted sums.
pub proof fn lemma_kids_sums_same(v: Seq<Region>, w: Seq<Region>, n: int)
    requires
        0 <= n <= v.len(),
        n <= w.len(),
        forall|k: int| 0 <= k < n ==> agg_mass(#[trigger] w[k]) == agg_mass(v[k]),
        forall|k: int| 0 <= k < n ==> ((#[trigger] w[k]).com is Some <==> v[k].com is Some),
        forall|k: int| 0 <= k < n && (#[trigger] w[k]).com is Some ==> w[k].com->0.pos_vec@ == v[k].com->0.pos_vec@,
    ensures
        kids_den(w, n) == kids_den(v, n),
        forall|i: int| kids_num(w, n, i) == #[trigger] kids_num(v, n, i),
    decreases n,
{
    if n > 0 {
        lemma_kids_sums_same(v, w, n - 1);
        assert forall|i: int| kids_num(w, n, i) == #[trigger] kids_num(v, n, i) by {
            assert(kids_num(w, n - 1, i) == kids_num(v, n - 1, i));
            assert(agg_coord(w[n - 1], i) == agg_coord(v[n - 1], i));
        }
    }
}
} // verus!
