use vstd::prelude::*;
use crate::arith::sum_sq;
use crate::body::{
    accel, add_clamped, add_vec, bounded, far, ints, rel, sq_dist, zero_vec, zeros, Body,
};
use crate::config::{Config, ACC_LIMIT, COORD_LIMIT, MAX_DIMS};
use crate::region::{box_fits, lemma_pow2_small, Region};

verus! {

/// Acceleration that the subtree `r` exerts on a body at `p`: a leaf acts
/// through its body; an internal node whose box passes the opening-angle test
/// acts through its summary, and otherwise through each of its children in
/// turn. Sums are held within the acceleration limit.
pub open spec fn total_acc(p: Seq<i64>, r: Region, cfg: Config) -> Seq<int>
    decreases r, 1int, 0int,
{
    let n = cfg.dims as nat;
    match r.reg_vec {
        None => match r.com {
            None => zero_vec(n),
            Some(b) => add_clamped(
                zero_vec(n),
                accel(cfg.g as int, b.mass as int, rel(p, b.pos_vec@), cfg.min_dist as int),
            ),
        },
        Some(v) => if r.com is Some && far(
            r.half_length as int,
            sum_sq(rel(p, r.coord_vec@)),
            cfg.theta_num as int,
            cfg.theta_den as int,
        ) {
            add_clamped(
                zero_vec(n),
                accel(cfg.g as int, r.com->0.mass as int, rel(p, r.com->0.pos_vec@), cfg.min_dist as int),
            )
        } else {
            kids_acc(p, r, v@.len() as int, cfg)
        },
    }
}

/// Acceleration from the first `k` children of `r`, summed in order.
pub open spec fn kids_acc(p: Seq<i64>, r: Region, k: int, cfg: Config) -> Seq<int>
    decreases r, 0int, k,
{
    match r.reg_vec {
        None => zero_vec(cfg.dims as nat),
        Some(v) => if k <= 0 || k > v@.len() {
            zero_vec(cfg.dims as nat)
        } else {
            add_clamped(kids_acc(p, r, k - 1, cfg), total_acc(p, v@[k - 1], cfg))
        },
    }
}

/// Widening the box of a region can only turn a pass of the opening-angle
/// test into a failure, never the reverse.
pub proof fn lemma_far_monotone(h1: int, h2: int, d2: int, tn: int, td: int)
    requires
        0 <= h1 <= h2,
        td >= 0,
        far(h2, d2, tn, td),
    ensures
        far(h1, d2, tn, td),
{
    assert(0 <= 2 * h1 * td <= 2 * h2 * td) by (nonlinear_arith)
        requires 0 <= h1 <= h2, td >= 0;
    assert((2 * h1 * td) * (2 * h1 * td) <= (2 * h2 * td) * (2 * h2 * td)) by (nonlinear_arith)
        requires 0 <= 2 * h1 * td <= 2 * h2 * td;
}

impl Body {
    /// Squared distance from this body to the center of `node`.
    pub fn node_sq_dist_to(&self, node: &Region) -> (r: i64)
        requires
            self.pos_vec@.len() == node.coord_vec@.len() <= MAX_DIMS,
            bounded(self.pos_vec@, COORD_LIMIT as int),
            node.half_length >= 0,
            box_fits(node.coord_vec@, node.half_length as int),
        ensures
            r == sum_sq(rel(self.pos_vec@, node.coord_vec@)),
            0 <= r <= 8 * 288230376151711744,
    {
        sq_dist(&self.pos_vec, &node.coord_vec)
    }

    /// The opening-angle test: `node` is far enough from this body to act
    /// through its summary.
    pub fn is_far(&self, node: &Region, cfg: &Config) -> (r: bool)
        requires
            cfg.wf(),
            self.pos_vec@.len() == node.coord_vec@.len() <= MAX_DIMS,
            bounded(self.pos_vec@, COORD_LIMIT as int),
            0 <= node.half_length <= COORD_LIMIT,
            box_fits(node.coord_vec@, node.half_length as int),
        ensures
            r == far(
                node.half_length as int,
                sum_sq(rel(self.pos_vec@, node.coord_vec@)),
                cfg.theta_num as int,
                cfg.theta_den as int,
            ),
    {
        let d2 = self.node_sq_dist_to(node);
        let h: i128 = node.half_length as i128;
        let td: i128 = cfg.theta_den as i128;
        assert(0 <= h * td <= 268435456 * 1048576) by (nonlinear_arith)
            requires 0 <= h <= 268435456, 1 <= td <= 1048576;
        let ht: i128 = h * td;
        let w: i128 = 2 * ht;
        assert(w == 2 * node.half_length * cfg.theta_den) by (nonlinear_arith)
            requires w == 2 * ht, ht == h * td, h == node.half_length, td == cfg.theta_den;
        assert(0 <= cfg.theta_num * cfg.theta_num <= 1048576 * 1048576) by (nonlinear_arith)
            requires 0 <= cfg.theta_num <= 1048576;
        let t: i128 = (cfg.theta_num as i128) * (cfg.theta_num as i128);
        assert(0 <= t * d2 <= 1048576 * 1048576 * (8 * 288230376151711744)) by (nonlinear_arith)
            requires 0 <= t <= 1048576 * 1048576, 0 <= d2 <= 8 * 288230376151711744;
        assert(0 <= w <= 562949953421312);
        assert(0 <= w * w <= 316912650057057350374175801344) by (nonlinear_arith)
            requires 0 <= w <= 562949953421312;
        let lhs: i128 = w * w;
        let d: i128 = d2 as i128;
        assert(0 <= t * d <= 1048576 * 1048576 * (8 * 288230376151711744)) by (nonlinear_arith)
            requires 0 <= t <= 1048576 * 1048576, 0 <= d <= 8 * 288230376151711744;
        let rhs: i128 = t * d;
        lhs <= rhs
    }

    /// Acceleration that the subtree `node` exerts on this body.
    pub fn get_total_acc(&self, node: &Region, cfg: &Config) -> (r: Vec<i64>)
        requires
            cfg.wf(),
            node.wf(cfg.dims as nat),
            self.pos_vec@.len() == cfg.dims,
            bounded(self.pos_vec@, COORD_LIMIT as int),
        ensures
            ints(r@) == total_acc(self.pos_vec@, *node, *cfg),
            bounded(r@, ACC_LIMIT as int),
            r@.len() == cfg.dims,
        decreases node,
    {
        let n = cfg.dims;
        let z = zeros(n);
        proof {
            assert(bounded(z@, ACC_LIMIT as int));
        }
        match &node.reg_vec {
            None => match &node.com {
                None => z,
                Some(b) => self.update_accel(z, b, cfg),
            },
            Some(kids) => {
                proof {
                    assert(-COORD_LIMIT + node.half_length <= node.coord_vec@[0]);
                }
                let use_summary = match &node.com {
                    Some(_) => self.is_far(node, cfg),
                    None => false,
                };
                if use_summary {
                    match &node.com {
                        Some(b) => self.update_accel(z, b, cfg),
                        None => z,
                    }
                } else {
                    let mut acc = z;
                    let mut k: usize = 0;
                    proof {
                        lemma_pow2_small(n as nat);
                    }
                    while k < kids.len()
                        invariant
                            cfg.wf(),
                            n == cfg.dims,
                            node.wf(cfg.dims as nat),
                            node.reg_vec == Some(*kids),
                            self.pos_vec@.len() == cfg.dims,
                            bounded(self.pos_vec@, COORD_LIMIT as int),
                            k <= kids@.len(),
                            acc@.len() == n,
                            bounded(acc@, ACC_LIMIT as int),
                            ints(acc@) == kids_acc(self.pos_vec@, *node, k as int, *cfg),
                        decreases kids@.len() - k,
                    {
                        proof {
                            assert(kids@[k as int].wf(cfg.dims as nat));
                            assert(decreases_to!(*node => kids@[k as int]));
                        }
                        let part = self.get_total_acc(&kids[k], cfg);
                        acc = add_vec(&acc, &part);
                        k += 1;
                    }
                    acc
                }
            },
        }
    }
}

} // verus!
