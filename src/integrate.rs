use vstd::prelude::*;
use crate::arith::{clamp, clamp_i128, tdiv, trunc_div};
use crate::body::{bounded, ints, Body};
use crate::config::{Config, ACC_LIMIT, COORD_LIMIT, MASS_LIMIT, VEL_LIMIT, WIDE_LIMIT};
use crate::force::total_acc;
use crate::ingest::{lemma_child_le, lemma_children_pointwise, lemma_tree_nonneg};
use crate::region::{
    inside_at, lemma_inside_at, agg_mass, children_count, children_mass, count_of, lemma_pow2_small, lemma_queue_mass_push,
    mass_of, pow2, queue_mass, Region,
};
use crate::summary::{kids_den, lemma_kids_sums_same, summarises, TreeError};

verus! {

/// Velocity after one step under acceleration `acc`: `v + acc * dt`, each
/// increment rounded toward zero, held within the velocity limit.
pub open spec fn kick(v: Seq<i64>, acc: Seq<int>, cfg: Config) -> Seq<int> {
    Seq::new(
        v.len(),
        |i: int| clamp(v[i] + tdiv(acc[i] * cfg.dt_num, cfg.dt_den as int), VEL_LIMIT as int),
    )
}

/// Position after one step at velocity `v`: `p + v * dt`, each increment
/// rounded toward zero.
pub open spec fn drift(p: Seq<i64>, v: Seq<i64>, cfg: Config) -> Seq<int> {
    Seq::new(p.len(), |i: int| p[i] + tdiv(v[i] * cfg.dt_num, cfg.dt_den as int))
}

/// Two bodies agree in every quantity.
pub open spec fn same_body(a: Body, b: Body) -> bool {
    a.pos_vec@ == b.pos_vec@ && a.vel_vec@ == b.vel_vec@ && a.mass == b.mass
}

/// `new` is `old` after the velocity phase: every leaf body has been given the
/// acceleration that `root` exerts on it; nothing else has changed.
pub open spec fn kicked(old: Region, new: Region, root: Region, cfg: Config) -> bool
    decreases old,
{
    &&& new.coord_vec@ == old.coord_vec@
    &&& new.half_length == old.half_length
    &&& new.add_queue@.len() == 0
    &&& match old.reg_vec {
        None => {
            &&& new.reg_vec is None
            &&& (new.com is Some <==> old.com is Some)
            &&& old.com matches Some(b) ==> {
                let nb = new.com->0;
                &&& nb.pos_vec@ == b.pos_vec@
                &&& nb.mass == b.mass
                &&& ints(nb.vel_vec@) == kick(b.vel_vec@, total_acc(b.pos_vec@, root, cfg), cfg)
            }
        },
        Some(v) => {
            &&& new.reg_vec is Some
            &&& new.reg_vec->0@.len() == v@.len()
            &&& (new.com is Some <==> old.com is Some)
            &&& old.com matches Some(b) ==> same_body(new.com->0, b)
            &&& forall|k: int|
                0 <= k < v@.len() ==> kicked(#[trigger] v@[k], new.reg_vec->0@[k], root, cfg)
        },
    }
}

/// A copy of a vector.
pub fn copy_vec(v: &Vec<i64>) -> (r: Vec<i64>)
    ensures
        r@ == v@,
{
    let mut out: Vec<i64> = Vec::new();
    let mut i: usize = 0;
    while i < v.len()
        invariant
            i <= v@.len(),
            out@ == v@.subrange(0, i as int),
        decreases v@.len() - i,
    {
        out.push(v[i]);
        i += 1;
        assert(out@ =~= v@.subrange(0, i as int));
    }
    assert(v@.subrange(0, v@.len() as int) =~= v@);
    out
}

impl Body {
    /// A copy of this body.
    pub fn copy(&self) -> (r: Body)
        ensures
            same_body(r, *self),
    {
        Body { pos_vec: copy_vec(&self.pos_vec), vel_vec: copy_vec(&self.vel_vec), mass: self.mass }
    }

    /// Forward-Euler velocity update under `acc`.
    fn kicked_vel(&self, acc: &Vec<i64>, cfg: &Config) -> (r: Vec<i64>)
        requires
            cfg.wf(),
            acc@.len() == self.vel_vec@.len(),
            bounded(acc@, ACC_LIMIT as int),
            bounded(self.vel_vec@, VEL_LIMIT as int),
        ensures
            ints(r@) == kick(self.vel_vec@, ints(acc@), *cfg),
            bounded(r@, VEL_LIMIT as int),
    {
        let n = self.vel_vec.len();
        let mut out: Vec<i64> = Vec::new();
        let mut i: usize = 0;
        while i < n
            invariant
                cfg.wf(),
                n == self.vel_vec@.len() == acc@.len(),
                bounded(acc@, ACC_LIMIT as int),
                bounded(self.vel_vec@, VEL_LIMIT as int),
                i <= n,
                out@.len() == i,
                forall|j: int|
                    0 <= j < i ==> out@[j] == clamp(
                        self.vel_vec@[j] + tdiv(acc@[j] * cfg.dt_num, cfg.dt_den as int),
                        VEL_LIMIT as int,
                    ),
            decreases n - i,
        {
            let a = acc[i] as i128;
            assert(-1152921504606846976 * 1048576 <= a * cfg.dt_num <= 1152921504606846976 * 1048576)
                by (nonlinear_arith)
                requires -1152921504606846976 <= a <= 1152921504606846976, 0 <= cfg.dt_num <= 1048576;
            let x = a * (cfg.dt_num as i128);
            let dv = trunc_div(x, cfg.dt_den as i128);
            let c = clamp_i128(self.vel_vec[i] as i128 + dv, VEL_LIMIT as i128);
            proof {
                let xi = x as int;
                let di = cfg.dt_den as int;
                if xi >= 0 {
                    assert(0 <= xi / di <= xi) by (nonlinear_arith)
                        requires xi >= 0, di >= 1;
                } else {
                    assert(0 <= (-xi) / di <= -xi) by (nonlinear_arith)
                        requires -xi >= 0, di >= 1;
                }
            }
            out.push(c as i64);
            i += 1;
        }
        assert(ints(out@) =~= kick(self.vel_vec@, ints(acc@), *cfg));
        out
    }
}

impl Region {
    /// The subtree after the velocity phase, with accelerations taken from
    /// `root`. Requires a settled subtree.
    fn kicked_tree(&self, root: &Region, cfg: &Config) -> (r: Region)
        requires
            cfg.wf(),
            self.wf(cfg.dims as nat),
            self.settled(),
            root.wf(cfg.dims as nat),
        ensures
            kicked(*self, r, *root, *cfg),
            r.wf(cfg.dims as nat),
            r.settled(),
            mass_of(r) == mass_of(*self),
            count_of(r) == count_of(*self),
        decreases self,
    {
        let coord = copy_vec(&self.coord_vec);
        match &self.reg_vec {
            None => {
                let com = match &self.com {
                    None => None,
                    Some(b) => {
                        proof {
                            assert(b.fits(cfg.dims as int));
                        }
                        let acc = b.get_total_acc(root, cfg);
                        let vel = b.kicked_vel(&acc, cfg);
                        let nb = Body { pos_vec: copy_vec(&b.pos_vec), vel_vec: vel, mass: b.mass };
                        proof {
                            assert(ints(vel@).len() == vel@.len());
                            assert(nb.fits(cfg.dims as int));
                        }
                        Some(nb)
                    },
                };
                let r = Region {
                    reg_vec: None,
                    coord_vec: coord,
                    half_length: self.half_length,
                    add_queue: Vec::new(),
                    com,
                };
                proof {
                    assert(queue_mass(r.add_queue@) == 0);
                    assert(queue_mass(self.add_queue@) == 0);
                    assert(r.node_wf(cfg.dims as nat));
                }
                r
            },
            Some(kids) => {
                let mut out: Vec<Region> = Vec::new();
                let mut k: usize = 0;
                let ghost n = kids@.len() as int;
                proof {
                    lemma_pow2_small(cfg.dims as nat);
                }
                while k < kids.len()
                    invariant
                        cfg.wf(),
                        self.wf(cfg.dims as nat),
                        self.settled(),
                        root.wf(cfg.dims as nat),
                        self.reg_vec == Some(*kids),
                        n == kids@.len(),
                        k <= n,
                        out@.len() == k,
                        forall|t: int| 0 <= t < k ==> {
                            &&& kicked(kids@[t], #[trigger] out@[t], *root, *cfg)
                            &&& out@[t].wf(cfg.dims as nat)
                            &&& out@[t].settled()
                            &&& mass_of(out@[t]) == mass_of(kids@[t])
                            &&& count_of(out@[t]) == count_of(kids@[t])
                        },
                    decreases n - k,
                {
                    proof {
                        assert(kids@[k as int].wf(cfg.dims as nat));
                        assert(kids@[k as int].settled());
                        assert(decreases_to!(*self => kids@[k as int]));
                    }
                    let c = kids[k].kicked_tree(root, cfg);
                    out.push(c);
                    k += 1;
                }
                let com = match &self.com {
                    None => None,
                    Some(b) => Some(b.copy()),
                };
                let r = Region {
                    reg_vec: Some(out),
                    coord_vec: coord,
                    half_length: self.half_length,
                    add_queue: Vec::new(),
                    com,
                };
                proof {
                    lemma_children_same(kids@, out@, n);
                    assert forall|k: int| 0 <= k < n implies {
                        &&& agg_mass(#[trigger] out@[k]) == agg_mass(kids@[k])
                        &&& (out@[k].com is Some <==> kids@[k].com is Some)
                        &&& (out@[k].com is Some ==> out@[k].com->0.pos_vec@ == kids@[k].com->0.pos_vec@)
                    } by {
                        assert(kicked(kids@[k], out@[k], *root, *cfg));
                    }
                    lemma_kids_sums_same(kids@, out@, n);
                    let b0 = self.com->0;
                    let b1 = r.com->0;
                    assert(summarises(b0, kids@, self.coord_vec@));
                    assert(summarises(b1, out@, r.coord_vec@));
                    assert(queue_mass(r.add_queue@) == 0);
                    assert(queue_mass(self.add_queue@) == 0);
                    assert forall|t: int| 0 <= t < n implies r.child_ok(#[trigger] out@[t], t, cfg.dims as nat) by {
                        assert(self.child_ok(kids@[t], t, cfg.dims as nat));
                        assert(kicked(kids@[t], out@[t], *root, *cfg));
                    }
                    assert(r.wf(cfg.dims as nat));
                }
                r
            },
        }
    }

    /// Velocity phase: every leaf body takes the acceleration that the whole
    /// tree, as it stood before the phase, exerts on it.
    pub fn deep_update_vel(&mut self, cfg: &Config)
        requires
            cfg.wf(),
            old(self).wf(cfg.dims as nat),
            old(self).settled(),
        ensures
            kicked(*old(self), *final(self), *old(self), *cfg),
            final(self).wf(cfg.dims as nat),
            final(self).settled(),
            mass_of(*final(self)) == mass_of(*old(self)),
            count_of(*final(self)) == count_of(*old(self)),
    {
        let r = self.kicked_tree(self, cfg);
        *self = r;
    }
}

/// Children that agree in mass and count sum to the same.
pub proof fn lemma_children_same(v: Seq<Region>, w: Seq<Region>, n: int)
    requires
        0 <= n <= v.len(),
        n <= w.len(),
        forall|k: int| 0 <= k < n ==> mass_of(#[trigger] w[k]) == mass_of(v[k]),
        forall|k: int| 0 <= k < n ==> count_of(#[trigger] w[k]) == count_of(v[k]),
    ensures
        children_mass(w, n) == children_mass(v, n),
        children_count(w, n) == children_count(v, n),
    decreases n,
{
    if n > 0 {
        lemma_children_same(v, w, n - 1);
    }
}



/// `new` is `old` after the position phase: every leaf body has moved by its
/// velocity over one step, a body that left its leaf's box is gone, and every
/// internal node carries the summary of its children as they now stand.
pub open spec fn drifted(old: Region, new: Region, cfg: Config) -> bool
    decreases old,
{
    &&& new.coord_vec == old.coord_vec
    &&& new.half_length == old.half_length
    &&& new.add_queue == old.add_queue
    &&& match old.reg_vec {
        None => {
            &&& new.reg_vec is None
            &&& old.com matches Some(b) ==> {
                let p = drift(b.pos_vec@, b.vel_vec@, cfg);
                if inside_at(ints(old.coord_vec@), old.half_length as int, p) {
                    &&& new.com is Some
                    &&& ints(new.com->0.pos_vec@) == p
                    &&& new.com->0.vel_vec@ == b.vel_vec@
                    &&& new.com->0.mass == b.mass
                } else {
                    new.com is None
                }
            }
            &&& old.com is None ==> new.com is None
        },
        Some(v) => {
            &&& new.reg_vec is Some
            &&& new.reg_vec->0@.len() == v@.len()
            &&& new.com is Some
            &&& summarises(new.com->0, new.reg_vec->0@, old.coord_vec@)
            &&& forall|k: int|
                0 <= k < v@.len() ==> drifted(#[trigger] v@[k], new.reg_vec->0@[k], cfg)
        },
    }
}

/// The leaf bodies of `r` that leave their leaf's box when they move by one
/// step, as they were before the move, in child order.
pub open spec fn escapes(r: Region, cfg: Config) -> Seq<Body>
    decreases r, 1int, 0int,
{
    match r.reg_vec {
        None => match r.com {
            Some(b) => if inside_at(ints(r.coord_vec@), r.half_length as int, drift(b.pos_vec@, b.vel_vec@, cfg)) {
                Seq::empty()
            } else {
                seq![b]
            },
            None => Seq::empty(),
        },
        Some(v) => kids_escapes(r, v@.len() as int, cfg),
    }
}

/// The escaping bodies of the first `k` children of `r`, in child order.
pub open spec fn kids_escapes(r: Region, k: int, cfg: Config) -> Seq<Body>
    decreases r, 0int, k,
{
    match r.reg_vec {
        None => Seq::empty(),
        Some(v) => if k <= 0 || k > v@.len() {
            Seq::empty()
        } else {
            kids_escapes(r, k - 1, cfg) + escapes(v@[k - 1], cfg)
        },
    }
}

/// `e` holds the bodies of `olds`, in order, each moved by one step.
pub open spec fn moved(e: Seq<Body>, olds: Seq<Body>, cfg: Config) -> bool {
    &&& e.len() == olds.len()
    &&& forall|j: int|
        0 <= j < e.len() ==> {
            &&& ints((#[trigger] e[j]).pos_vec@) == drift(olds[j].pos_vec@, olds[j].vel_vec@, cfg)
            &&& e[j].vel_vec@ == olds[j].vel_vec@
            &&& e[j].mass == olds[j].mass
        }
}

proof fn lemma_moved_concat(e1: Seq<Body>, o1: Seq<Body>, e2: Seq<Body>, o2: Seq<Body>, cfg: Config)
    requires
        moved(e1, o1, cfg),
        moved(e2, o2, cfg),
    ensures
        moved(e1 + e2, o1 + o2, cfg),
{
    assert forall|j: int| 0 <= j < (e1 + e2).len() implies {
        &&& ints((#[trigger] (e1 + e2)[j]).pos_vec@) == drift((o1 + o2)[j].pos_vec@, (o1 + o2)[j].vel_vec@, cfg)
        &&& (e1 + e2)[j].vel_vec@ == (o1 + o2)[j].vel_vec@
        &&& (e1 + e2)[j].mass == (o1 + o2)[j].mass
    } by {
        if j < e1.len() {
            assert((e1 + e2)[j] == e1[j]);
            assert((o1 + o2)[j] == o1[j]);
        } else {
            assert((e1 + e2)[j] == e2[j - e1.len()]);
            assert((o1 + o2)[j] == o2[j - o1.len()]);
        }
    }
}

impl Body {
    /// Position after one step at this body's velocity.
    fn drifted_pos(&self, cfg: &Config) -> (r: Vec<i64>)
        requires
            cfg.wf(),
            self.fits(cfg.dims as int),
        ensures
            ints(r@) == drift(self.pos_vec@, self.vel_vec@, *cfg),
            bounded(r@, WIDE_LIMIT as int),
            r@.len() == cfg.dims,
    {
        let n = self.pos_vec.len();
        let mut out: Vec<i64> = Vec::new();
        let mut i: usize = 0;
        while i < n
            invariant
                cfg.wf(),
                self.fits(cfg.dims as int),
                n == cfg.dims,
                i <= n,
                out@.len() == i,
                forall|j: int|
                    0 <= j < i ==> out@[j] == self.pos_vec@[j] + tdiv(
                        self.vel_vec@[j] * cfg.dt_num,
                        cfg.dt_den as int,
                    ),
                bounded(out@, WIDE_LIMIT as int),
            decreases n - i,
        {
            let v = self.vel_vec[i] as i128;
            assert(-268435456 * 1048576 <= v * cfg.dt_num <= 268435456 * 1048576) by (nonlinear_arith)
                requires -268435456 <= v <= 268435456, 0 <= cfg.dt_num <= 1048576;
            let x = v * (cfg.dt_num as i128);
            let dp = trunc_div(x, cfg.dt_den as i128);
            proof {
                let xi = x as int;
                let di = cfg.dt_den as int;
                if xi >= 0 {
                    assert(0 <= xi / di <= xi) by (nonlinear_arith)
                        requires xi >= 0, di >= 1;
                } else {
                    assert(0 <= (-xi) / di <= -xi) by (nonlinear_arith)
                        requires -xi >= 0, di >= 1;
                }
            }
            out.push((self.pos_vec[i] as i128 + dp) as i64);
            i += 1;
        }
        assert(ints(out@) =~= drift(self.pos_vec@, self.vel_vec@, *cfg));
        out
    }
}

impl Region {
    /// The subtree after the position phase. Bodies that left their leaf are
    /// appended to `escaped`.
    fn drifted_tree(r: Region, cfg: &Config, escaped: &mut Vec<Body>) -> (res: Region)
        requires
            cfg.wf(),
            r.wf(cfg.dims as nat),
            r.settled(),
            mass_of(r) <= MASS_LIMIT,
            forall|j: int| 0 <= j < old(escaped)@.len() ==> (#[trigger] old(escaped)@[j]).loose(cfg.dims as int),
        ensures
            drifted(r, res, *cfg),
            res.wf(cfg.dims as nat),
            res.add_queue@.len() == 0,
            agg_mass(res) == mass_of(res),
            queue_mass(final(escaped)@) >= queue_mass(old(escaped)@),
            final(escaped)@.len() >= old(escaped)@.len(),
            final(escaped)@.subrange(0, old(escaped)@.len() as int) == old(escaped)@,
            moved(
                final(escaped)@.subrange(old(escaped)@.len() as int, final(escaped)@.len() as int),
                escapes(r, *cfg),
                *cfg,
            ),
            mass_of(res) + queue_mass(final(escaped)@) == mass_of(r) + queue_mass(old(escaped)@),
            count_of(res) + final(escaped)@.len() == count_of(r) + old(escaped)@.len(),
            forall|j: int| 0 <= j < final(escaped)@.len() ==> (#[trigger] final(escaped)@[j]).loose(cfg.dims as int),
        decreases r.half_length,
    {
        let mut this = r;
        if this.reg_vec.is_none() {
            let mut slot: Option<Body> = None;
            std::mem::swap(&mut this.com, &mut slot);
            let ghost e0 = escaped@;
            match slot {
                None => {
                    proof {
                        assert(escaped@.subrange(0, e0.len() as int) =~= e0);
                        assert(escaped@.subrange(e0.len() as int, e0.len() as int) =~= Seq::<Body>::empty());
                    }
                    return this;
                },
                Some(b) => {
                    proof {
                        assert(b.fits(cfg.dims as int));
                        assert(escaped@.subrange(0, e0.len() as int) =~= e0);
                        assert(escaped@.subrange(e0.len() as int, e0.len() as int) =~= Seq::<Body>::empty());
                    }
                    let p = b.drifted_pos(cfg);
                    let nb = Body { pos_vec: p, vel_vec: b.vel_vec, mass: b.mass };
                    if this.contains(&nb) {
                        proof {
                            assert forall|i: int| 0 <= i < nb.pos_vec@.len() implies -COORD_LIMIT <= #[trigger] nb.pos_vec@[i] <= COORD_LIMIT by {
                                assert(-this.half_length <= this.coord_vec@[i] - nb.pos_vec@[i] <= this.half_length);
                            }
                            assert(inside_at(ints(this.coord_vec@), this.half_length as int, ints(nb.pos_vec@)));
                        }
                        this.com = Some(nb);
                        proof {
                            assert(this.node_wf(cfg.dims as nat));
                        }
                        return this;
                    } else {
                        proof {
                            lemma_inside_at(r.coord_vec@, r.half_length as int, nb.pos_vec@);
                            assert(!inside_at(ints(r.coord_vec@), r.half_length as int, ints(nb.pos_vec@)));
                            lemma_queue_mass_push(escaped@, nb);
                        }
                        escaped.push(nb);
                        proof {
                            assert(escaped@.subrange(0, e0.len() as int) =~= e0);
                            assert(escaped@.subrange(e0.len() as int, escaped@.len() as int) =~= seq![nb]);
                            assert(escapes(r, *cfg) == seq![b]);
                        }
                        return this;
                    }
                },
            }
        }
        let mut slot: Option<Vec<Region>> = None;
        std::mem::swap(&mut this.reg_vec, &mut slot);
        let mut kids = slot.unwrap();
        let ghost orig = kids@;
        let ghost n = orig.len() as int;
        let ghost esc0 = escaped@;
        proof {
            assert(r.reg_vec is Some);
            assert(r.half_length >= 2);
            lemma_pow2_small(cfg.dims as nat);
            assert forall|t: int| 0 <= t < n implies mass_of(#[trigger] orig[t]) >= 0 by {
                lemma_tree_nonneg(orig[t], cfg.dims as nat);
            }
            assert(queue_mass(r.add_queue@) == 0);
            assert(escaped@.subrange(0, esc0.len() as int) =~= esc0);
            assert(escaped@.subrange(esc0.len() as int, escaped@.len() as int) =~= Seq::<Body>::empty());
            assert(kids_escapes(r, 0, *cfg) =~= Seq::<Body>::empty());
        }
        let mut out: Vec<Region> = Vec::new();
        while kids.len() > 0
            invariant
                cfg.wf(),
                n == orig.len() == pow2(cfg.dims as nat),
                r.wf(cfg.dims as nat),
                r.reg_vec is Some,
                r.reg_vec->0@ == orig,
                r.half_length >= 2,
                out@.len() + kids@.len() == n,
                kids@ == orig.subrange(out@.len() as int, n),
                forall|t: int| 0 <= t < out@.len() ==> {
                    &&& drifted(orig[t], #[trigger] out@[t], *cfg)
                    &&& out@[t].wf(cfg.dims as nat)
                },
                children_mass(out@, out@.len() as int) + queue_mass(escaped@) == children_mass(orig, out@.len() as int)
                    + queue_mass(esc0),
                children_count(out@, out@.len() as int) + escaped@.len() == children_count(orig, out@.len() as int)
                    + esc0.len(),
                forall|j: int| 0 <= j < escaped@.len() ==> (#[trigger] escaped@[j]).loose(cfg.dims as int),
                r.settled(),
                mass_of(r) <= MASS_LIMIT,
                mass_of(r) == children_mass(orig, n),
                forall|t: int| 0 <= t < n ==> mass_of(#[trigger] orig[t]) >= 0,
                forall|t: int| 0 <= t < out@.len() ==> {
                    &&& (#[trigger] out@[t]).add_queue@.len() == 0
                    &&& agg_mass(out@[t]) == mass_of(out@[t])
                },
                queue_mass(escaped@) >= queue_mass(esc0),
                escaped@.len() >= esc0.len(),
                escaped@.subrange(0, esc0.len() as int) == esc0,
                moved(
                    escaped@.subrange(esc0.len() as int, escaped@.len() as int),
                    kids_escapes(r, out@.len() as int, *cfg),
                    *cfg,
                ),
            decreases kids@.len(),
        {
            let ghost j = out@.len() as int;
            let c = kids.remove(0);
            proof {
                assert(c == orig[j]);
                assert(orig[j].wf(cfg.dims as nat));
                assert(orig[j].settled());
                lemma_child_le(orig, j, n);
                assert(c.half_length < r.half_length);
            }
            let ghost prev = out@;
            let ghost eb = escaped@;
            let c2 = Region::drifted_tree(c, cfg, escaped);
            out.push(c2);
            proof {
                assert(kids@ =~= orig.subrange(out@.len() as int, n));
                assert(forall|t: int| 0 <= t < j ==> #[trigger] out@[t] == prev[t]);
                lemma_children_prefix_eq(prev, out@, j);
                let l0 = esc0.len() as int;
                let lb = eb.len() as int;
                let la = escaped@.len() as int;
                assert(escaped@.subrange(0, lb) == eb);
                assert(escaped@.subrange(0, l0) =~= eb.subrange(0, l0));
                assert(escaped@.subrange(l0, lb) =~= eb.subrange(l0, lb));
                assert(escaped@.subrange(l0, la) =~= escaped@.subrange(l0, lb) + escaped@.subrange(lb, la));
                lemma_moved_concat(
                    eb.subrange(l0, lb),
                    kids_escapes(r, j, *cfg),
                    escaped@.subrange(lb, la),
                    escapes(orig[j], *cfg),
                    *cfg,
                );
                assert(kids_escapes(r, j + 1, *cfg) == kids_escapes(r, j, *cfg) + escapes(orig[j], *cfg));
            }
        }
        this.reg_vec = Some(out);
        proof {
            assert forall|t: int| 0 <= t < n implies r.child_ok(#[trigger] out@[t], t, cfg.dims as nat) by {
                assert(r.child_ok(orig[t], t, cfg.dims as nat));
                assert(drifted(orig[t], out@[t], *cfg));
            }
            assert(this.node_wf(cfg.dims as nat));
            assert(this.wf(cfg.dims as nat));
            lemma_children_pointwise(out@, out@, n);
            assert(kids_den(out@, n) <= MASS_LIMIT);
        }
        let res = this.update_com(cfg.dims);
        proof {
            if let Err(e) = res {
                match e {
                    TreeError::MassLimit => {},
                }
            }
            assert(res is Ok);
            assert(queue_mass(this.add_queue@) == 0);
            assert(kids_escapes(r, n, *cfg) == escapes(r, *cfg));
        }
        this
    }

    /// Position phase: every leaf body moves by its velocity over one step;
    /// those that leave their leaf's box are taken out and returned.
    pub fn deep_update_pos(&mut self, cfg: &Config) -> (escaped: Vec<Body>)
        requires
            cfg.wf(),
            old(self).wf(cfg.dims as nat),
            old(self).settled(),
            mass_of(*old(self)) <= MASS_LIMIT,
        ensures
            drifted(*old(self), *final(self), *cfg),
            moved(escaped@, escapes(*old(self), *cfg), *cfg),
            final(self).wf(cfg.dims as nat),
            mass_of(*final(self)) + queue_mass(escaped@) == mass_of(*old(self)),
            count_of(*final(self)) + escaped@.len() == count_of(*old(self)),
            forall|j: int| 0 <= j < escaped@.len() ==> (#[trigger] escaped@[j]).loose(cfg.dims as int),
    {
        let mut taken = Region { reg_vec: None, coord_vec: Vec::new(), half_length: 1, add_queue: Vec::new(), com: None };
        std::mem::swap(self, &mut taken);
        let mut escaped: Vec<Body> = Vec::new();
        let r = Region::drifted_tree(taken, cfg, &mut escaped);
        *self = r;
        proof {
            assert(escaped@.subrange(0, escaped@.len() as int) =~= escaped@);
        }
        escaped
    }
}


/// Extending a sequence of children by one adds that child's mass and count.
proof fn lemma_children_prefix_eq(prev: Seq<Region>, cur: Seq<Region>, j: int)
    requires
        0 <= j,
        prev.len() == j,
        cur.len() == j + 1,
        forall|t: int| 0 <= t < j ==> #[trigger] cur[t] == prev[t],
    ensures
        children_mass(cur, j + 1) == children_mass(prev, j) + mass_of(cur[j]),
        children_count(cur, j + 1) == children_count(prev, j) + count_of(cur[j]),
{
    lemma_children_prefix_same(prev, cur, j);
}

proof fn lemma_children_prefix_same(a: Seq<Region>, b: Seq<Region>, k: int)
    requires
        0 <= k <= a.len(),
        k <= b.len(),
        forall|t: int| 0 <= t < k ==> #[trigger] b[t] == a[t],
    ensures
        children_mass(a, k) == children_mass(b, k),
        children_count(a, k) == children_count(b, k),
    decreases k,
{
    if k > 0 {
        lemma_children_prefix_same(a, b, k - 1);
    }
}


/// With a zero time step neither velocities nor positions change.
pub proof fn lemma_zero_step_still(p: Seq<i64>, v: Seq<i64>, acc: Seq<int>, cfg: Config)
    requires
        cfg.dt_num == 0,
        cfg.dt_den >= 1,
        v.len() == p.len(),
        bounded(v, VEL_LIMIT as int),
    ensures
        kick(v, acc, cfg) == ints(v),
        drift(p, v, cfg) == ints(p),
{
    assert forall|i: int| 0 <= i < v.len() implies #[trigger] kick(v, acc, cfg)[i] == ints(v)[i] by {
        assert(acc[i] * cfg.dt_num == 0);
        assert(0int / (cfg.dt_den as int) == 0);
    }
    assert forall|i: int| 0 <= i < p.len() implies #[trigger] drift(p, v, cfg)[i] == ints(p)[i] by {
        assert(v[i] * cfg.dt_num == 0);
        assert(0int / (cfg.dt_den as int) == 0);
    }
    assert(kick(v, acc, cfg) =~= ints(v));
    assert(drift(p, v, cfg) =~= ints(p));
}


impl Body {
    /// Forward-Euler velocity update under the acceleration that `root`
    /// exerts on this body.
    pub fn update_vel(&mut self, root: &Region, cfg: &Config)
        requires
            cfg.wf(),
            old(self).fits(cfg.dims as int),
            root.wf(cfg.dims as nat),
        ensures
            final(self).pos_vec == old(self).pos_vec,
            final(self).mass == old(self).mass,
            ints(final(self).vel_vec@) == kick(
                old(self).vel_vec@,
                total_acc(old(self).pos_vec@, *root, *cfg),
                *cfg,
            ),
            final(self).fits(cfg.dims as int),
    {
        let acc = self.get_total_acc(root, cfg);
        let v = self.kicked_vel(&acc, cfg);
        proof {
            assert(ints(v@).len() == v@.len());
        }
        self.vel_vec = v;
    }

    /// Forward-Euler position update at this body's velocity.
    pub fn update_pos(&mut self, cfg: &Config)
        requires
            cfg.wf(),
            old(self).fits(cfg.dims as int),
        ensures
            final(self).vel_vec == old(self).vel_vec,
            final(self).mass == old(self).mass,
            ints(final(self).pos_vec@) == drift(old(self).pos_vec@, old(self).vel_vec@, *cfg),
            final(self).loose(cfg.dims as int),
    {
        let p = self.drifted_pos(cfg);
        self.pos_vec = p;
    }
}


/// The velocity phase keeps the shape of the tree.
pub proof fn lemma_kicked_coarse(old: Region, new: Region, root: Region, cfg: Config, m: int)
    requires
        kicked(old, new, root, cfg),
        old.coarse(m),
    ensures
        new.coarse(m),
    decreases old,
{
    if let Some(v) = old.reg_vec {
        assert forall|k: int| 0 <= k < new.reg_vec->0@.len() implies (#[trigger] new.reg_vec->0@[k]).coarse(m) by {
            assert(decreases_to!(old => v@[k]));
            lemma_kicked_coarse(v@[k], new.reg_vec->0@[k], root, cfg, m);
        }
    }
}

/// The position phase keeps the shape of the tree.
pub proof fn lemma_drifted_coarse(old: Region, new: Region, cfg: Config, m: int)
    requires
        drifted(old, new, cfg),
        old.coarse(m),
    ensures
        new.coarse(m),
    decreases old,
{
    if let Some(v) = old.reg_vec {
        assert forall|k: int| 0 <= k < new.reg_vec->0@.len() implies (#[trigger] new.reg_vec->0@[k]).coarse(m) by {
            assert(decreases_to!(old => v@[k]));
            lemma_drifted_coarse(v@[k], new.reg_vec->0@[k], cfg, m);
        }
    }
}
} // verus!
