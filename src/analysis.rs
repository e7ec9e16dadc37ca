use vstd::prelude::*;
use crate::arith::{isqrt_wide, sum_sq, tdiv, trunc_div};
use crate::body::{fine_root, ints, inert, lemma_root_is, rel, sq_dist, Body, ROOT_SCALE};
use crate::config::{Config, MASS_LIMIT};
use crate::region::{lemma_queue_mass_prefix, queue_mass};

verus! {

/// Squared distance of each body from the origin.
pub open spec fn radii(q: Seq<Body>) -> Seq<int> {
    Seq::new(q.len(), |j: int| sum_sq(ints(q[j].pos_vec@)))
}

/// Sum of `m * |v|^2` over the bodies.
pub open spec fn twice_kinetic(q: Seq<Body>) -> int
    decreases q.len(),
{
    if q.len() == 0 {
        0
    } else {
        twice_kinetic(q.drop_last()) + q.last().mass * sum_sq(ints(q.last().vel_vec@))
    }
}

/// Potential energy between bodies `i` and `j`: `-g m_i m_j / d`, where `d`
/// is their distance to `1 / ROOT_SCALE`, rounded toward zero; zero where the
/// pair exerts no force.
pub open spec fn pair_energy(q: Seq<Body>, i: int, j: int, cfg: Config) -> int {
    let r = rel(q[i].pos_vec@, q[j].pos_vec@);
    if inert(q[j].mass as int, r, cfg.min_dist as int) {
        0
    } else {
        -tdiv(cfg.g * q[i].mass * q[j].mass * ROOT_SCALE, fine_root(sum_sq(r)))
    }
}

/// Sum of `pair_energy(q, i, j)` over `i < j < k`.
pub open spec fn row_energy(q: Seq<Body>, i: int, k: int, cfg: Config) -> int
    decreases k - i,
{
    if k <= i + 1 {
        0
    } else {
        row_energy(q, i, k - 1, cfg) + pair_energy(q, i, k - 1, cfg)
    }
}

/// Sum of the pair energies of all pairs whose first index is below `k`.
pub open spec fn total_energy(q: Seq<Body>, k: int, cfg: Config) -> int
    decreases k,
{
    if k <= 0 {
        0
    } else {
        total_energy(q, k - 1, cfg) + row_energy(q, k - 1, q.len() as int, cfg)
    }
}

/// Every body fits the lattice in `dims` dimensions, and their total mass is
/// within the mass limit.
pub open spec fn listing_ok(q: Seq<Body>, dims: int) -> bool {
    &&& forall|j: int| 0 <= j < q.len() ==> (#[trigger] q[j]).fits(dims)
    &&& queue_mass(q) <= MASS_LIMIT
    &&& 1 <= dims <= 8
}

/// Squared distance of each body from the origin.
pub fn radial_distribution(masses: &Vec<Body>, dims: usize) -> (r: Vec<i64>)
    requires
        listing_ok(masses@, dims as int),
    ensures
        ints(r@) == radii(masses@),
{
    let n = masses.len();
    let mut out: Vec<i64> = Vec::new();
    let mut j: usize = 0;
    while j < n
        invariant
            n == masses@.len(),
            listing_ok(masses@, dims as int),
            j <= n,
            out@.len() == j,
            forall|t: int| 0 <= t < j ==> out@[t] == sum_sq(ints(masses@[t].pos_vec@)),
        decreases n - j,
    {
        let b = &masses[j];
        proof {
            assert(masses@[j as int].fits(dims as int));
        }
        let origin = crate::body::zeros(dims);
        let d = sq_dist(&origin, &b.pos_vec);
        proof {
            assert(rel(origin@, b.pos_vec@) =~= ints(b.pos_vec@));
        }
        out.push(d);
        j += 1;
    }
    assert(ints(out@) =~= radii(masses@));
    out
}


/// A prefix of fitted bodies carries no more mass than the whole.
proof fn lemma_prefix_mass(q: Seq<Body>, j: int, dims: int)
    requires
        0 <= j <= q.len(),
        forall|t: int| 0 <= t < q.len() ==> (#[trigger] q[t]).fits(dims),
    ensures
        0 <= queue_mass(q.subrange(0, j)) <= queue_mass(q),
{
    assert forall|t: int| 0 <= t < q.len() implies (#[trigger] q[t]).mass >= 0 by {
        assert(q[t].fits(dims));
    }
    lemma_queue_mass_prefix(q, j);
}

/// Total kinetic energy `sum(m * |v|^2) / 2`, rounded down.
pub fn kinetic_energy(masses: &Vec<Body>, dims: usize) -> (r: i128)
    requires
        listing_ok(masses@, dims as int),
    ensures
        r == twice_kinetic(masses@) / 2,
{
    let ghost q = masses@;
    let n = masses.len();
    let mut acc: i128 = 0;
    let mut j: usize = 0;
    while j < n
        invariant
            n == q.len(),
            q == masses@,
            listing_ok(q, dims as int),
            j <= n,
            acc == twice_kinetic(q.subrange(0, j as int)),
            0 <= acc <= queue_mass(q.subrange(0, j as int)) * (8 * 288230376151711744),
        decreases n - j,
    {
        let b = &masses[j];
        proof {
            assert(q[j as int].fits(dims as int));
            assert(q.subrange(0, j + 1).drop_last() =~= q.subrange(0, j as int));
            lemma_prefix_mass(q, j + 1, dims as int);
        }
        let s = crate::body::sum_squares(&b.vel_vec);
        proof {
            assert(0 <= b.mass * s <= b.mass * (8 * 288230376151711744)) by (nonlinear_arith)
                requires 0 <= s <= 8 * 288230376151711744, b.mass >= 0;
            assert(queue_mass(q.subrange(0, j + 1)) == queue_mass(q.subrange(0, j as int)) + b.mass);
            assert((queue_mass(q.subrange(0, j as int)) + b.mass) * (8 * 288230376151711744) == queue_mass(
                q.subrange(0, j as int),
            ) * (8 * 288230376151711744) + b.mass * (8 * 288230376151711744)) by (nonlinear_arith);
            assert(queue_mass(q.subrange(0, j + 1)) * (8 * 288230376151711744) <= 1099511627776 * (8
                * 288230376151711744)) by (nonlinear_arith)
                requires queue_mass(q.subrange(0, j + 1)) <= 1099511627776;
        }
        acc = acc + (b.mass as i128) * (s as i128);
        j += 1;
    }
    proof {
        assert(q.subrange(0, n as int) =~= q);
    }
    acc / 2
}


/// `|pair_energy| <= g * m_i * m_j`.
proof fn lemma_pair_bound(q: Seq<Body>, i: int, j: int, cfg: Config)
    requires
        0 <= i < q.len(),
        0 <= j < q.len(),
        cfg.wf(),
        q[i].mass >= 0,
        q[j].mass >= 0,
        q[i].pos_vec@.len() == q[j].pos_vec@.len(),
    ensures
        -(cfg.g * q[i].mass * q[j].mass) <= pair_energy(q, i, j, cfg) <= 0,
{
    let r = rel(q[i].pos_vec@, q[j].pos_vec@);
    let x = cfg.g * q[i].mass * q[j].mass;
    assert(x >= 0) by (nonlinear_arith)
        requires cfg.g >= 0, q[i].mass >= 0, q[j].mass >= 0, x == cfg.g * q[i].mass * q[j].mass;
    if !inert(q[j].mass as int, r, cfg.min_dist as int) {
        let d2 = sum_sq(r);
        crate::arith::lemma_sum_sq_nonneg(r);
        assert(d2 >= 1) by (nonlinear_arith)
            requires d2 > cfg.min_dist * cfg.min_dist, d2 >= 0;
        crate::body::lemma_fine_root_pos(d2);
        let fd = fine_root(d2);
        let y = x * ROOT_SCALE;
        assert(0 <= y <= x * fd) by (nonlinear_arith)
            requires x >= 0, fd >= 1048576, y == x * 1048576;
        crate::body::lemma_tdiv_bound(y, fd, x);
        assert(y / fd >= 0) by (nonlinear_arith)
            requires y >= 0, fd >= 1;
    }
}

/// Total gravitational potential energy over all pairs of bodies.
pub fn potential_energy(masses: &Vec<Body>, cfg: &Config) -> (r: i128)
    requires
        cfg.wf(),
        listing_ok(masses@, cfg.dims as int),
    ensures
        r == total_energy(masses@, masses@.len() as int, *cfg),
{
    let ghost q = masses@;
    let ghost big = queue_mass(q);
    let n = masses.len();
    let mut acc: i128 = 0;
    let mut i: usize = 0;
    proof {
        lemma_prefix_mass(q, n as int, cfg.dims as int);
        assert(q.subrange(0, n as int) =~= q);
    }
    while i < n
        invariant
            n == q.len(),
            q == masses@,
            cfg.wf(),
            listing_ok(q, cfg.dims as int),
            big == queue_mass(q),
            0 <= big <= MASS_LIMIT,
            i <= n,
            acc == total_energy(q, i as int, *cfg),
            -(cfg.g * big * queue_mass(q.subrange(0, i as int))) <= acc <= 0,
        decreases n - i,
    {
        let bi = &masses[i];
        proof {
            assert(q[i as int].fits(cfg.dims as int));
            lemma_prefix_mass(q, i as int, cfg.dims as int);
            lemma_prefix_mass(q, i + 1, cfg.dims as int);
        }
        let mut row: i128 = 0;
        let mut k: usize = i + 1;
        proof {
            lemma_prefix_mass(q, k as int, cfg.dims as int);
        }
        while k < n
            invariant
                n == q.len(),
                q == masses@,
                cfg.wf(),
                listing_ok(q, cfg.dims as int),
                big == queue_mass(q),
                0 <= big <= MASS_LIMIT,
                i < n,
                bi == q[i as int],
                i + 1 <= k <= n,
                row == row_energy(q, i as int, k as int, *cfg),
                -(cfg.g * bi.mass * (queue_mass(q.subrange(0, k as int)) - queue_mass(q.subrange(0, i + 1))))
                    <= row <= 0,
                queue_mass(q.subrange(0, i + 1)) <= queue_mass(q.subrange(0, k as int)) <= big,
            decreases n - k,
        {
            let bk = &masses[k];
            proof {
                assert(q[k as int].fits(cfg.dims as int));
                assert(q.subrange(0, k + 1).drop_last() =~= q.subrange(0, k as int));
                lemma_prefix_mass(q, k + 1, cfg.dims as int);
                lemma_pair_bound(q, i as int, k as int, *cfg);
            }
            let mut e: i128 = 0;
            if bk.mass != 0 {
                let d2 = sq_dist(&bi.pos_vec, &bk.pos_vec);
                assert(0 <= cfg.min_dist * cfg.min_dist <= 268435456 * 268435456) by (nonlinear_arith)
                    requires 0 <= cfg.min_dist <= 268435456;
                if (d2 as i128) > (cfg.min_dist as i128) * (cfg.min_dist as i128) {
                    let wide: u128 = (d2 as u128) * 1099511627776;
                    let rt = isqrt_wide(wide) as i128;
                    proof {
                        lemma_root_is(wide as int, rt as int);
                        assert(d2 * 1048576 * 1048576 == wide);
                        assert(1 <= rt) by (nonlinear_arith)
                            requires wide < (rt + 1) * (rt + 1), wide >= 1, rt >= 0;
                    }
                    assert(0 <= cfg.g * bi.mass <= 1048576 * 1099511627776) by (nonlinear_arith)
                        requires 0 <= cfg.g <= 1048576, 0 <= bi.mass <= 1099511627776;
                    let gm: i128 = (cfg.g as i128) * (bi.mass as i128);
                    assert(0 <= gm * bk.mass <= 1048576 * 1099511627776 * 1099511627776) by (nonlinear_arith)
                        requires 0 <= gm <= 1048576 * 1099511627776, 0 <= bk.mass <= 1099511627776;
                    let x: i128 = gm * (bk.mass as i128);
                    assert(0 <= x * 1048576 <= 1048576 * 1099511627776 * 1099511627776 * 1048576) by (nonlinear_arith)
                        requires 0 <= x <= 1048576 * 1099511627776 * 1099511627776;
                    e = -trunc_div(x * 1048576, rt);
                    proof {
                        assert(cfg.g * bi.mass * bk.mass * ROOT_SCALE == x * 1048576) by (nonlinear_arith)
                            requires x == gm * bk.mass, gm == cfg.g * bi.mass;
                    }
                }
            }
            proof {
                assert(e == pair_energy(q, i as int, k as int, *cfg));
                let pm = queue_mass(q.subrange(0, k as int));
                let lo = queue_mass(q.subrange(0, i + 1));
                assert(queue_mass(q.subrange(0, k + 1)) == pm + bk.mass);
                lemma_prefix_mass(q, i + 1, cfg.dims as int);
                assert(0 <= lo);
                assert(pm + bk.mass <= big);
                assert(0 <= pm + bk.mass - lo <= 1099511627776);
                assert(cfg.g * bi.mass * (pm + bk.mass - lo) == cfg.g * bi.mass * (pm - lo) + cfg.g * bi.mass
                    * bk.mass) by (nonlinear_arith);
                assert(cfg.g * bi.mass * (pm + bk.mass - lo) <= 1048576 * 1099511627776 * 1099511627776)
                    by (nonlinear_arith)
                    requires 0 <= cfg.g <= 1048576, 0 <= bi.mass <= 1099511627776, 0 <= pm + bk.mass - lo
                        <= 1099511627776;
            }
            row = row + e;
            k += 1;
        }
        proof {
            let lo = queue_mass(q.subrange(0, i + 1));
            let prev = queue_mass(q.subrange(0, i as int));
            assert(q.subrange(0, i + 1).drop_last() =~= q.subrange(0, i as int));
            assert(lo == prev + bi.mass);
            assert(q.subrange(0, n as int) =~= q);
            assert(cfg.g * bi.mass * (big - lo) <= cfg.g * big * bi.mass) by (nonlinear_arith)
                requires cfg.g >= 0, bi.mass >= 0, 0 <= big - lo <= big;
            assert(cfg.g * big * prev + cfg.g * big * bi.mass == cfg.g * big * lo) by (nonlinear_arith)
                requires lo == prev + bi.mass;
            assert(cfg.g * big * lo <= 1048576 * 1099511627776 * 1099511627776) by (nonlinear_arith)
                requires 0 <= cfg.g <= 1048576, 0 <= big <= 1099511627776, 0 <= lo <= 1099511627776;
        }
        acc = acc + row;
        i += 1;
    }
    acc
}

} // verus!
