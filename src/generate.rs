use vstd::prelude::*;
use rand::Rng;
use crate::body::Body;
use crate::config::MASS_LIMIT;
use crate::region::{inside, lemma_queue_mass_prefix, queue_mass};
use crate::tree::TreeWrapper;

verus! {

/// Mass of each of the two heavy bodies of the two-body scenario.
pub const STAR_MASS: i64 = 100000;

/// Distance of each heavy body from the origin in the two-body scenario.
pub const STAR_OFFSET: i64 = 100;

/// Speed of each heavy body in the two-body scenario.
pub const STAR_SPEED: i64 = 2000;

/// Half extent of the scattering scene; projectiles start near its left edge.
pub const SCENE_LEN: i64 = 1000;

/// Relies on rand::Rng::gen_range (rand 0.4) on the thread-local generator:
/// a value drawn from `[low, high)`. It panics unless `low < high`.
#[verifier::external_body]
fn uniform(low: i64, high: i64) -> (r: i64)
    requires
        low < high,
    ensures
        low <= r < high,
{
    rand::thread_rng().gen_range(low, high)
}

/// `b` has exactly the given position, velocity and mass.
pub open spec fn is_body(b: Body, pos: Seq<i64>, vel: Seq<i64>, mass: int) -> bool {
    b.pos_vec@ == pos && b.vel_vec@ == vel && b.mass == mass
}

/// A body built from its parts.
fn body2(x: i64, y: i64, vx: i64, vy: i64, mass: i64) -> (r: Body)
    ensures
        is_body(r, seq![x, y], seq![vx, vy], mass as int),
{
    let mut p: Vec<i64> = Vec::new();
    p.push(x);
    p.push(y);
    let mut v: Vec<i64> = Vec::new();
    v.push(vx);
    v.push(vy);
    assert(p@ =~= seq![x, y]);
    assert(v@ =~= seq![vx, vy]);
    Body { pos_vec: p, vel_vec: v, mass }
}

/// A projectile of the scattering scenario: it starts `x` to the right of the
/// scene's left edge at height `b` and moves right at speed `v`.
pub open spec fn is_projectile(q: Body) -> bool {
    &&& q.pos_vec@.len() == 2
    &&& q.vel_vec@.len() == 2
    &&& -SCENE_LEN + 50 <= q.pos_vec@[0] < -SCENE_LEN + 150
    &&& -400 <= q.pos_vec@[1] < 400
    &&& 750 <= q.vel_vec@[0] < 10000
    &&& q.vel_vec@[1] == 0
    &&& q.mass == 1
}

/// Every projectile start lies in the root's box.
pub open spec fn holds_band(t: TreeWrapper) -> bool {
    let c = t.tree.coord_vec@;
    let h = t.tree.half_length as int;
    &&& c.len() == 2
    &&& c[0] - h <= -SCENE_LEN + 50
    &&& -SCENE_LEN + 149 <= c[0] + h
    &&& c[1] - h <= -400
    &&& 399 <= c[1] + h
}

/// The root holds both heavy bodies of the two-body scenario and the mass
/// limit leaves room for them.
pub open spec fn pair_fits(t: TreeWrapper) -> bool {
    &&& inside(t.tree.coord_vec@, t.tree.half_length as int, seq![(-STAR_OFFSET) as i64, 0i64])
    &&& inside(t.tree.coord_vec@, t.tree.half_length as int, seq![STAR_OFFSET, 0i64])
    &&& t.mass + 2 * STAR_MASS <= MASS_LIMIT
}

/// Queues the two equal heavy bodies of the two-body scenario, at
/// `(-STAR_OFFSET, 0)` and `(STAR_OFFSET, 0)`, moving in opposite directions.
/// Where the root's box holds both and the mass limit leaves room, both are
/// queued, in that order.
pub fn gt_two_body(t: &mut TreeWrapper)
    requires
        old(t).wf(),
        old(t).config.dims == 2,
    ensures
        final(t).wf(),
        final(t).config == old(t).config,
        final(t).tree.coord_vec == old(t).tree.coord_vec,
        final(t).tree.half_length == old(t).tree.half_length,
        final(t).tree.add_queue@.len() <= old(t).tree.add_queue@.len() + 2,
        final(t).tree.add_queue@.len() >= old(t).tree.add_queue@.len(),
        final(t).tree.add_queue@.subrange(0, old(t).tree.add_queue@.len() as int) == old(t).tree.add_queue@,
        final(t).mass <= old(t).mass + 2 * STAR_MASS,
        (pair_fits(*old(t)) ==> final(t).mass == old(t).mass + 2 * STAR_MASS),
        pair_fits(*old(t)) ==> {
            let q = final(t).tree.add_queue@;
            let n = old(t).tree.add_queue@.len();
            &&& q.len() == n + 2
            &&& q.subrange(0, n as int) == old(t).tree.add_queue@
            &&& is_body(q[n as int], seq![(-STAR_OFFSET) as i64, 0i64], seq![0i64, STAR_SPEED], STAR_MASS as int)
            &&& is_body(q[(n + 1) as int], seq![STAR_OFFSET, 0i64], seq![0i64, (-STAR_SPEED) as i64], STAR_MASS as int)
        },
{
    let ghost q0 = t.tree.add_queue@;
    let a = body2(-STAR_OFFSET, 0, 0, STAR_SPEED, STAR_MASS);
    proof {
        assert(a.loose(2));
    }
    let ok_a = t.push_body_global(a);
    let b = body2(STAR_OFFSET, 0, 0, -STAR_SPEED, STAR_MASS);
    proof {
        assert(b.loose(2));
    }
    let ghost qa = t.tree.add_queue@;
    let ok_b = t.push_body_global(b);
    proof {
        assert(qa.subrange(0, q0.len() as int) =~= q0);
        assert(t.tree.add_queue@.subrange(0, q0.len() as int) =~= q0);
    }
}

/// Queues `num_bodies` projectiles of the scattering scenario at random
/// heights, offsets and speeds. Where the root's box holds every possible
/// start and the mass limit leaves room, all of them are queued.
pub fn gt_scattering(t: &mut TreeWrapper, num_bodies: usize)
    requires
        old(t).wf(),
        old(t).config.dims == 2,
    ensures
        final(t).wf(),
        final(t).config == old(t).config,
        final(t).tree.add_queue@.len() <= old(t).tree.add_queue@.len() + num_bodies,
        final(t).tree.add_queue@.len() >= old(t).tree.add_queue@.len(),
        final(t).tree.add_queue@.subrange(0, old(t).tree.add_queue@.len() as int) == old(t).tree.add_queue@,
        forall|j: int|
            old(t).tree.add_queue@.len() <= j < final(t).tree.add_queue@.len() ==> is_projectile(
                #[trigger] final(t).tree.add_queue@[j],
            ),
        holds_band(*old(t)) && old(t).mass + num_bodies <= MASS_LIMIT ==> final(t).tree.add_queue@.len()
            == old(t).tree.add_queue@.len() + num_bodies,
{
    let ghost q0 = t.tree.add_queue@;
    let ghost full = holds_band(*t) && t.mass + num_bodies <= MASS_LIMIT;
    let ghost m0 = t.mass as int;
    let mut i: usize = 0;
    while i < num_bodies
        invariant
            t.wf(),
            t.config.dims == 2,
            t.tree.coord_vec == old(t).tree.coord_vec,
            t.tree.half_length == old(t).tree.half_length,
            t.config == old(t).config,
            q0 == old(t).tree.add_queue@,
            i <= num_bodies,
            t.tree.add_queue@.len() <= q0.len() + i,
            t.tree.add_queue@.len() >= q0.len(),
            t.tree.add_queue@.subrange(0, q0.len() as int) == q0,
            forall|j: int| q0.len() <= j < t.tree.add_queue@.len() ==> is_projectile(#[trigger] t.tree.add_queue@[j]),
            full == (holds_band(*old(t)) && m0 + num_bodies <= MASS_LIMIT),
            full ==> t.tree.add_queue@.len() == q0.len() + i && t.mass == m0 + i,
        decreases num_bodies - i,
    {
        let b = uniform(-400, 400);
        let v = uniform(750, 10000);
        let x = uniform(50, 150);
        let q = body2(-SCENE_LEN + x, b, v, 0, 1);
        proof {
            assert(q.loose(2));
        }
        let ghost before = t.tree.add_queue@;
        let ok = t.push_body_global(q);
        proof {
            if ok {
                assert(t.tree.add_queue@ == before.push(q));
                assert(t.tree.add_queue@.subrange(0, q0.len() as int) =~= before.subrange(0, q0.len() as int));
            }
            if full {
                let c = t.tree.coord_vec@;
                let h = t.tree.half_length as int;
                assert(inside(c, h, q.pos_vec@)) by {
                    assert forall|k: int| 0 <= k < c.len() implies -h <= #[trigger] c[k] - q.pos_vec@[k] <= h by {
                        assert(k == 0 || k == 1);
                    }
                }
            }
        }
        i += 1;
    }
}

/// The scattering scenario aimed at a single heavy body at rest at the origin.
pub fn gt_rutherford_scattering(t: &mut TreeWrapper, num_bodies: usize)
    requires
        old(t).wf(),
        old(t).config.dims == 2,
    ensures
        final(t).wf(),
        final(t).config == old(t).config,
        final(t).tree.add_queue@.len() <= old(t).tree.add_queue@.len() + 1 + num_bodies,
        final(t).tree.add_queue@.len() >= old(t).tree.add_queue@.len(),
        final(t).tree.add_queue@.subrange(0, old(t).tree.add_queue@.len() as int) == old(t).tree.add_queue@,
        (inside(old(t).tree.coord_vec@, old(t).tree.half_length as int, seq![0i64, 0i64])
            && old(t).mass + STAR_MASS <= MASS_LIMIT) ==> is_body(
            final(t).tree.add_queue@[old(t).tree.add_queue@.len() as int],
            seq![0i64, 0i64],
            seq![0i64, 0i64],
            STAR_MASS as int,
        ),
        forall|j: int|
            old(t).tree.add_queue@.len() + 1 <= j < final(t).tree.add_queue@.len() ==> is_projectile(
                #[trigger] final(t).tree.add_queue@[j],
            ),
        (inside(old(t).tree.coord_vec@, old(t).tree.half_length as int, seq![0i64, 0i64]) && holds_band(*old(t))
            && old(t).mass + STAR_MASS + num_bodies <= MASS_LIMIT) ==> final(t).tree.add_queue@.len()
            == old(t).tree.add_queue@.len() + 1 + num_bodies,
{
    let ghost q0 = t.tree.add_queue@;
    let center = body2(0, 0, 0, 0, STAR_MASS);
    proof {
        assert(center.loose(2));
    }
    let ok = t.push_body_global(center);
    let ghost q1 = t.tree.add_queue@;
    gt_scattering(t, num_bodies);
    proof {
        if ok {
            assert(q1 == q0.push(center));
            let s = t.tree.add_queue@.subrange(0, q1.len() as int);
            assert(s == q1);
            assert(s[q0.len() as int] == t.tree.add_queue@[q0.len() as int]);
        } else {
            assert(q1 == q0);
        }
        assert(q1.subrange(0, q0.len() as int) =~= q0);
        assert(t.tree.add_queue@.subrange(0, q0.len() as int) =~= q1.subrange(0, q0.len() as int));
    }
}

/// The scattering scenario aimed at the two-body pair.
pub fn gt_binary_scattering(t: &mut TreeWrapper, num_bodies: usize)
    requires
        old(t).wf(),
        old(t).config.dims == 2,
    ensures
        final(t).wf(),
        final(t).config == old(t).config,
        final(t).tree.add_queue@.len() <= old(t).tree.add_queue@.len() + 2 + num_bodies,
        final(t).tree.add_queue@.len() >= old(t).tree.add_queue@.len(),
        final(t).tree.add_queue@.subrange(0, old(t).tree.add_queue@.len() as int) == old(t).tree.add_queue@,
        pair_fits(*old(t)) && holds_band(*old(t)) && old(t).mass + 2 * STAR_MASS + num_bodies <= MASS_LIMIT ==> {
            let q = final(t).tree.add_queue@;
            let n = old(t).tree.add_queue@.len();
            &&& q.len() == n + 2 + num_bodies
            &&& is_body(q[n as int], seq![(-STAR_OFFSET) as i64, 0i64], seq![0i64, STAR_SPEED], STAR_MASS as int)
            &&& is_body(q[(n + 1) as int], seq![STAR_OFFSET, 0i64], seq![0i64, (-STAR_SPEED) as i64], STAR_MASS as int)
            &&& forall|j: int| n + 2 <= j < q.len() ==> is_projectile(#[trigger] q[j])
        },
{
    let ghost n = t.tree.add_queue@.len();
    gt_two_body(t);
    let ghost q1 = t.tree.add_queue@;
    gt_scattering(t, num_bodies);
    proof {
        assert(t.tree.add_queue@.subrange(0, n as int) =~= q1.subrange(0, n as int));
        if pair_fits(*old(t)) && holds_band(*old(t)) && old(t).mass + 2 * STAR_MASS + num_bodies <= MASS_LIMIT {
            let q = t.tree.add_queue@;
            assert(q.subrange(0, q1.len() as int) == q1);
            assert(q[n as int] == q1[n as int]);
            assert(q[(n + 1) as int] == q1[(n + 1) as int]);
        }
    }
}

/// The two-body pair with lighter companions around it; the companions are
/// queued after the pair, in order, each where the root holds it and the
/// mass limit leaves room.
pub fn gt_binary_system(t: &mut TreeWrapper, companions: Vec<Body>)
    requires
        old(t).wf(),
        old(t).config.dims == 2,
        forall|j: int| 0 <= j < companions@.len() ==> (#[trigger] companions@[j]).loose(2),
    ensures
        final(t).wf(),
        final(t).config == old(t).config,
        final(t).tree.add_queue@.len() <= old(t).tree.add_queue@.len() + 2 + companions@.len(),
        final(t).tree.add_queue@.len() >= old(t).tree.add_queue@.len(),
        final(t).tree.add_queue@.subrange(0, old(t).tree.add_queue@.len() as int) == old(t).tree.add_queue@,
        pair_fits(*old(t)) && all_fit(*old(t), companions@) ==> {
            let q = final(t).tree.add_queue@;
            let n = old(t).tree.add_queue@.len();
            &&& q.len() == n + 2 + companions@.len()
            &&& is_body(q[n as int], seq![(-STAR_OFFSET) as i64, 0i64], seq![0i64, STAR_SPEED], STAR_MASS as int)
            &&& is_body(q[(n + 1) as int], seq![STAR_OFFSET, 0i64], seq![0i64, (-STAR_SPEED) as i64], STAR_MASS as int)
            &&& q.subrange((n + 2) as int, q.len() as int) == companions@
        },
{
    let ghost n = t.tree.add_queue@.len();
    let ghost full = pair_fits(*t) && all_fit(*t, companions@);
    let ghost comp = companions@;
    gt_two_body(t);
    let ghost q1 = t.tree.add_queue@;
    let ghost m1 = t.mass as int;
    let count = companions.len();
    let mut rest = companions;
    let ghost total = rest@.len();
    let mut j: usize = 0;
    while rest.len() > 0
        invariant
            t.wf(),
            t.config.dims == 2,
            t.config == old(t).config,
            t.tree.coord_vec == old(t).tree.coord_vec,
            t.tree.half_length == old(t).tree.half_length,
            forall|i: int| 0 <= i < comp.len() ==> (#[trigger] comp[i]).loose(2),
            total == comp.len(),
            total == count,
            j + rest@.len() == total,
            rest@ == comp.subrange(j as int, total as int),
            q1.len() <= old(t).tree.add_queue@.len() + 2,
            t.tree.add_queue@.len() <= q1.len() + j,
            full == (pair_fits(*old(t)) && all_fit(*old(t), comp)),
            full ==> q1.len() == n + 2 && m1 == old(t).mass + 2 * STAR_MASS,
            full ==> t.tree.add_queue@ == q1 + comp.subrange(0, j as int),
            full ==> t.mass == m1 + queue_mass(comp.subrange(0, j as int)),
            t.tree.add_queue@.len() >= n,
            t.tree.add_queue@.subrange(0, n as int) == old(t).tree.add_queue@,
        decreases rest@.len(),
    {
        let b = rest.remove(0);
        proof {
            assert(b == comp[j as int]);
            assert(b.loose(2));
            assert(comp.subrange(0, j + 1).drop_last() =~= comp.subrange(0, j as int));
        }
        let ghost before = t.tree.add_queue@;
        let ok = t.push_body_global(b);
        proof {
            assert(t.tree.add_queue@.subrange(0, n as int) =~= before.subrange(0, n as int));
            assert(rest@ =~= comp.subrange(j + 1, total as int));
            if full {
                lemma_queue_mass_prefix(comp, j + 1);
                assert(inside(t.tree.coord_vec@, t.tree.half_length as int, b.pos_vec@));
                assert(ok);
                assert(t.tree.add_queue@ =~= q1 + comp.subrange(0, j + 1));
            }
        }
        j = j + 1;
    }
    proof {
        if full {
            let q = t.tree.add_queue@;
            assert(comp.subrange(0, total as int) =~= comp);
            assert(q.subrange((n + 2) as int, q.len() as int) =~= comp);
        }
    }
}

/// The root holds every companion and the mass limit leaves room for the pair
/// and all of them.
pub open spec fn all_fit(t: TreeWrapper, comp: Seq<Body>) -> bool {
    &&& forall|i: int|
        0 <= i < comp.len() ==> inside(t.tree.coord_vec@, t.tree.half_length as int, (#[trigger] comp[i]).pos_vec@)
    &&& forall|i: int| 0 <= i < comp.len() ==> (#[trigger] comp[i]).mass >= 0
    &&& t.mass + 2 * STAR_MASS + queue_mass(comp) <= MASS_LIMIT
}


} // verus!
