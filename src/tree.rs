use vstd::prelude::*;
use crate::body::Body;
use crate::config::{Config, COORD_LIMIT, MASS_LIMIT};
use crate::integrate::{drifted, escapes, kicked, lemma_drifted_coarse, lemma_kicked_coarse, moved, same_body};
use crate::ingest::lemma_tree_nonneg;
use crate::region::{
    box_fits, lemma_queue_mass_prefix, children_content, children_count, children_mass, content, count_of, spread, inside, lemma_queue_mass_push, mass_of, queue_mass,
    Region,
};

verus! {

/// The bodies held in the leaves of a subtree, in child order.
pub open spec fn leaves(r: Region) -> Seq<Body>
    decreases r, 1int, 0int,
{
    match r.reg_vec {
        None => match r.com {
            Some(b) => seq![b],
            None => Seq::empty(),
        },
        Some(v) => kids_leaves(r, v@.len() as int),
    }
}

/// The leaf bodies of the first `k` children of `r`.
pub open spec fn kids_leaves(r: Region, k: int) -> Seq<Body>
    decreases r, 0int, k,
{
    match r.reg_vec {
        None => Seq::empty(),
        Some(v) => if k <= 0 || k > v@.len() {
            Seq::empty()
        } else {
            kids_leaves(r, k - 1) + leaves(v@[k - 1])
        },
    }
}

/// Each entry of `a` agrees with the matching entry of `b`.
pub open spec fn same_bodies(a: Seq<Body>, b: Seq<Body>) -> bool {
    &&& a.len() == b.len()
    &&& forall|j: int| 0 <= j < a.len() ==> same_body(#[trigger] a[j], b[j])
}

impl Region {
    /// Appends copies of the leaf bodies of this subtree to `out`.
    fn collect_leaves(&self, out: &mut Vec<Body>)
        ensures
            same_bodies(final(out)@, old(out)@ + leaves(*self)),
        decreases self,
    {
        match &self.reg_vec {
            None => match &self.com {
                Some(b) => {
                    let ghost before = out@;
                    out.push(b.copy());
                    proof {
                        assert(same_bodies(out@, before + leaves(*self))) by {
                            assert((before + leaves(*self)).len() == before.len() + 1);
                            assert forall|j: int| 0 <= j < out@.len() implies same_body(#[trigger] out@[j], (before + leaves(*self))[j]) by {
                                if j < before.len() {
                                    assert(out@[j] == old(out)@[j]);
                                }
                            }
                        }
                    }
                },
                None => {
                    assert(old(out)@ + leaves(*self) =~= old(out)@);
                    assert(same_bodies(out@, old(out)@ + leaves(*self))) by {
                        assert forall|j: int| 0 <= j < out@.len() implies same_body(#[trigger] out@[j], (old(out)@ + leaves(*self))[j]) by {
                            assert(out@[j] == (old(out)@ + leaves(*self))[j]);
                        }
                    }
                },
            },
            Some(kids) => {
                let ghost start = out@;
                let mut k: usize = 0;
                proof {
                    assert(kids_leaves(*self, 0) =~= Seq::<Body>::empty());
                    assert(start + kids_leaves(*self, 0) =~= start);
                    assert forall|j: int| 0 <= j < out@.len() implies same_body(#[trigger] out@[j], (start + kids_leaves(*self, 0))[j]) by {
                        assert(out@[j] == (start + kids_leaves(*self, 0))[j]);
                    }
                }
                while k < kids.len()
                    invariant
                        self.reg_vec == Some(*kids),
                        k <= kids@.len(),
                        same_bodies(out@, start + kids_leaves(*self, k as int)),
                    decreases kids@.len() - k,
                {
                    proof {
                        assert(decreases_to!(*self => kids@[k as int]));
                    }
                    let ghost mid = out@;
                    kids[k].collect_leaves(out);
                    proof {
                        let want = start + kids_leaves(*self, k + 1);
                        assert(kids_leaves(*self, k + 1) == kids_leaves(*self, k as int) + leaves(kids@[k as int]));
                        assert(want =~= (start + kids_leaves(*self, k as int)) + leaves(kids@[k as int]));
                        assert forall|j: int| 0 <= j < out@.len() implies same_body(#[trigger] out@[j], want[j]) by {
                            let m = (start + kids_leaves(*self, k as int)).len();
                            if j < m {
                                assert(same_body(out@[j], (mid + leaves(kids@[k as int]))[j]));
                                assert((mid + leaves(kids@[k as int]))[j] == mid[j]);
                                assert(same_body(mid[j], (start + kids_leaves(*self, k as int))[j]));
                            } else {
                                assert(same_body(out@[j], (mid + leaves(kids@[k as int]))[j]));
                            }
                        }
                    }
                    k += 1;
                }
            },
        }
    }

    /// Copies of the bodies held in the leaves, in child order.
    pub fn list_masses(&self) -> (r: Vec<Body>)
        ensures
            same_bodies(r@, leaves(*self)),
    {
        let mut out: Vec<Body> = Vec::new();
        self.collect_leaves(&mut out);
        proof {
            assert(Seq::<Body>::empty() + leaves(*self) =~= leaves(*self));
        }
        out
    }
}

/// One time step from `start`: an ingestion pass gives `settled`; its bodies
/// take the acceleration that `settled` exerts on them, which gives
/// `kicked_tree`; then they drift, and those that left their leaves are taken
/// out, which gives `placed`.
pub open spec fn stepped(start: Region, settled: Region, kicked_tree: Region, placed: Region, cfg: Config) -> bool {
    &&& settled.settled()
    &&& settled.wf(cfg.dims as nat)
    &&& settled.coord_vec == start.coord_vec
    &&& settled.half_length == start.half_length
    &&& mass_of(settled) == mass_of(start)
    &&& count_of(settled) <= count_of(start)
    &&& (spread(content(start), 2 * cfg.min_len) ==> content(settled) == content(start))
    &&& kicked(settled, kicked_tree, settled, cfg)
    &&& drifted(kicked_tree, placed, cfg)
}

/// The bodies of `e` that lie in the box of half extent `h` around `c`, in
/// order.
pub open spec fn kept(e: Seq<Body>, c: Seq<i64>, h: int) -> Seq<Body>
    decreases e.len(),
{
    if e.len() == 0 {
        Seq::empty()
    } else {
        kept(e.drop_last(), c, h) + if inside(c, h, e.last().pos_vec@) {
            seq![e.last()]
        } else {
            Seq::empty()
        }
    }
}

/// The tree of a simulation run, with its parameters and its total mass.
pub struct TreeWrapper {
    pub tree: Region,
    pub config: Config,
    pub mass: i64,
}

impl TreeWrapper {
    /// The parameters are in range, the tree is well formed for them, no
    /// node at or below the minimum size has children, and `mass` is the
    /// tree's total mass, within the mass limit.
    pub open spec fn wf(&self) -> bool {
        &&& self.config.wf()
        &&& self.tree.wf(self.config.dims as nat)
        &&& self.tree.coarse(self.config.min_len as int)
        &&& self.mass == mass_of(self.tree)
        &&& self.mass <= MASS_LIMIT
    }

    /// An empty tree whose root is the box of half extent `half_length`
    /// around `center`; `None` where the parameters or the box are out of
    /// range.
    pub fn new(config: Config, center: Vec<i64>, half_length: i64) -> (r: Option<TreeWrapper>)
        ensures
            r is Some <==> (config.wf() && center@.len() == config.dims && 1 <= half_length
                && box_fits(center@, half_length as int)),
            r matches Some(t) ==> {
                &&& t.wf()
                &&& t.config == config
                &&& t.tree.coord_vec@ == center@
                &&& t.tree.half_length == half_length
                &&& t.tree.reg_vec is None
                &&& t.tree.com is None
                &&& t.tree.add_queue@.len() == 0
            },
    {
        if !config.valid() {
            return None;
        }
        if center.len() != config.dims || half_length < 1 || half_length > COORD_LIMIT {
            proof {
                if center@.len() == config.dims && 1 <= half_length {
                    assert(-COORD_LIMIT + half_length <= center@[0] <= COORD_LIMIT - half_length ==> half_length <= COORD_LIMIT);
                }
            }
            return None;
        }
        let mut i: usize = 0;
        while i < center.len()
            invariant
                i <= center@.len(),
                1 <= half_length <= COORD_LIMIT,
                forall|j: int| 0 <= j < i ==> -COORD_LIMIT + half_length <= #[trigger] center@[j] <= COORD_LIMIT - half_length,
            decreases center@.len() - i,
        {
            if center[i] < -COORD_LIMIT + half_length || center[i] > COORD_LIMIT - half_length {
                proof {
                    assert(!box_fits(center@, half_length as int));
                }
                return None;
            }
            i += 1;
        }
        let tree = Region { reg_vec: None, coord_vec: center, half_length, add_queue: Vec::new(), com: None };
        proof {
            assert(queue_mass(tree.add_queue@) == 0);
        }
        Some(TreeWrapper { tree, config, mass: 0 })
    }

    /// Queues `body` at the root for the next ingestion pass. A body outside
    /// the root's box, or one whose mass would take the tree past the mass
    /// limit, is dropped. Returns whether the body was queued.
    pub fn push_body_global(&mut self, body: Body) -> (accepted: bool)
        requires
            old(self).wf(),
            body.loose(old(self).config.dims as int),
        ensures
            final(self).wf(),
            accepted == (inside(old(self).tree.coord_vec@, old(self).tree.half_length as int, body.pos_vec@)
                && old(self).mass + body.mass <= MASS_LIMIT),
            accepted ==> final(self).tree.add_queue@ == old(self).tree.add_queue@.push(body),
            !accepted ==> final(self).tree.add_queue == old(self).tree.add_queue,
            final(self).tree.reg_vec == old(self).tree.reg_vec,
            final(self).tree.com == old(self).tree.com,
            final(self).tree.coord_vec == old(self).tree.coord_vec,
            final(self).tree.half_length == old(self).tree.half_length,
            final(self).config == old(self).config,
            final(self).mass == old(self).mass + if accepted { body.mass as int } else { 0 },
            count_of(final(self).tree) == count_of(old(self).tree) + if accepted { 1int } else { 0 },
    {
        if !self.tree.contains(&body) {
            return false;
        }
        if self.mass > MASS_LIMIT - body.mass {
            return false;
        }
        proof {
            let t = self.tree;
            assert forall|i: int| 0 <= i < body.pos_vec@.len() implies -COORD_LIMIT <= #[trigger] body.pos_vec@[i] <= COORD_LIMIT by {
                assert(-t.half_length <= t.coord_vec@[i] - body.pos_vec@[i] <= t.half_length);
            }
            assert(body.fits(self.config.dims as int));
            lemma_queue_mass_push(self.tree.add_queue@, body);
        }
        self.mass = self.mass + body.mass;
        self.tree.add_queue.push(body);
        proof {
            assert(self.tree.node_wf(self.config.dims as nat));
        }
        true
    }

    /// The ingestion pass over the whole tree.
    pub fn update(&mut self) -> (live: bool)
        requires
            old(self).wf(),
        ensures
            final(self).wf(),
            final(self).tree.settled(),
            final(self).config == old(self).config,
            final(self).mass == old(self).mass,
            count_of(final(self).tree) <= count_of(old(self).tree),
            live == (count_of(final(self).tree) > 0),
            spread(content(old(self).tree), 2 * old(self).config.min_len) ==> content(final(self).tree) == content(
                old(self).tree,
            ),
    {
        let cfg = Config { ..self.config };
        let live = self.tree.update(&cfg);
        live
    }

    /// One time step: ingestion, velocity phase, position phase, then every
    /// body that left its leaf is queued again at the root, in order, where
    /// the root's box holds it. Returns how many bodies left the root's box
    /// and were dropped.
    pub fn step(&mut self) -> (dropped: usize)
        requires
            old(self).wf(),
        ensures
            final(self).wf(),
            final(self).config == old(self).config,
            final(self).mass <= old(self).mass,
            count_of(final(self).tree) + dropped <= count_of(old(self).tree),
            exists|settled: Region, kicked_tree: Region, placed: Region, out: Seq<Body>|
                #![trigger stepped(old(self).tree, settled, kicked_tree, placed, old(self).config), moved(out, escapes(kicked_tree, old(self).config), old(self).config)]
                {
                    &&& stepped(old(self).tree, settled, kicked_tree, placed, old(self).config)
                    &&& moved(out, escapes(kicked_tree, old(self).config), old(self).config)
                    &&& final(self).tree.reg_vec == placed.reg_vec
                    &&& final(self).tree.com == placed.com
                    &&& final(self).tree.coord_vec == placed.coord_vec
                    &&& final(self).tree.half_length == placed.half_length
                    &&& final(self).tree.add_queue@ == kept(
                        out,
                        old(self).tree.coord_vec@,
                        old(self).tree.half_length as int,
                    )
                    &&& dropped == out.len() - kept(
                        out,
                        old(self).tree.coord_vec@,
                        old(self).tree.half_length as int,
                    ).len()
                },
    {
        let cfg = Config { ..self.config };
        let ghost c0 = count_of(self.tree);
        let ghost m0 = self.mass as int;
        let ghost t0 = self.tree;
        self.tree.update(&cfg);
        let ghost t1 = self.tree;
        self.tree.deep_update_vel(&cfg);
        let ghost t2 = self.tree;
        let escaped = self.tree.deep_update_pos(&cfg);
        let ghost t3 = self.tree;
        let ghost es = escaped@;
        let ghost c = t0.coord_vec@;
        let ghost h = t0.half_length as int;
        proof {
            lemma_kicked_coarse(t1, t2, t1, cfg, cfg.min_len as int);
            lemma_drifted_coarse(t2, t3, cfg, cfg.min_len as int);
            assert(stepped(t0, t1, t2, t3, cfg));
            lemma_tree_nonneg(self.tree, cfg.dims as nat);
            lemma_escaped_mass_nonneg(escaped@, cfg.dims as int);
        }
        self.mass = self.mass - queue_mass_exec(&escaped, cfg.dims);
        proof {
            assert(es.subrange(0, 0) =~= Seq::<Body>::empty());
            assert(self.tree.add_queue@ =~= kept(es.subrange(0, 0), c, h));
        }
        let total = escaped.len();
        let mut rest = escaped;
        let mut dropped: usize = 0;
        let mut j: usize = 0;
        while rest.len() > 0
            invariant
                self.wf(),
                self.config == cfg,
                cfg.wf(),
                total == es.len(),
                j <= es.len(),
                rest@ == es.subrange(j as int, es.len() as int),
                forall|t: int| 0 <= t < es.len() ==> (#[trigger] es[t]).loose(cfg.dims as int),
                count_of(self.tree) + dropped + (es.len() - j) <= c0,
                self.tree.reg_vec == t3.reg_vec,
                self.tree.com == t3.com,
                self.tree.coord_vec == t3.coord_vec,
                self.tree.half_length == t3.half_length,
                t3.coord_vec@ == c,
                t3.half_length == h,
                self.mass + queue_mass(es) - queue_mass(es.subrange(0, j as int)) <= m0,
                m0 <= MASS_LIMIT,
                self.tree.add_queue@ == kept(es.subrange(0, j as int), c, h),
                dropped == j - kept(es.subrange(0, j as int), c, h).len(),
            decreases rest@.len(),
        {
            let b = rest.remove(0);
            proof {
                assert(b == es[j as int]);
                assert(es[j as int].loose(cfg.dims as int));
                assert(es.subrange(0, j + 1).drop_last() =~= es.subrange(0, j as int));
                assert(es.subrange(0, j + 1).last() == b);
                assert forall|t: int| 0 <= t < es.len() implies (#[trigger] es[t]).mass >= 0 by {
                    assert(es[t].loose(cfg.dims as int));
                }
                lemma_queue_mass_prefix(es, j + 1);
                assert(rest@ =~= es.subrange(j + 1, es.len() as int));
            }
            let ok = self.push_body_global(b);
            if !ok {
                dropped = dropped + 1;
            }
            j += 1;
        }
        proof {
            assert(es.subrange(0, es.len() as int) =~= es);
            assert(stepped(t0, t1, t2, t3, cfg));
            assert(moved(es, escapes(t2, cfg), cfg));
        }
        dropped
    }
}

proof fn lemma_escaped_mass_nonneg(q: Seq<Body>, dims: int)
    requires
        forall|t: int| 0 <= t < q.len() ==> (#[trigger] q[t]).loose(dims),
    ensures
        queue_mass(q) >= 0,
    decreases q.len(),
{
    if q.len() > 0 {
        lemma_escaped_mass_nonneg(q.drop_last(), dims);
        assert(q[q.len() - 1].loose(dims));
    }
}

/// Total mass of a sequence of bodies whose total is within the mass limit.
fn queue_mass_exec(q: &Vec<Body>, dims: usize) -> (r: i64)
    requires
        forall|t: int| 0 <= t < q@.len() ==> (#[trigger] q@[t]).loose(dims as int),
        queue_mass(q@) <= MASS_LIMIT,
    ensures
        r == queue_mass(q@),
{
    let mut m: i64 = 0;
    let mut j: usize = 0;
    while j < q.len()
        invariant
            forall|t: int| 0 <= t < q@.len() ==> (#[trigger] q@[t]).loose(dims as int),
            queue_mass(q@) <= MASS_LIMIT,
            j <= q@.len(),
            m == queue_mass(q@.subrange(0, j as int)),
        decreases q@.len() - j,
    {
        proof {
            assert(q@.subrange(0, j + 1).drop_last() =~= q@.subrange(0, j as int));
            assert forall|t: int| 0 <= t < q@.len() implies (#[trigger] q@[t]).mass >= 0 by {
                assert(q@[t].loose(dims as int));
            }
            lemma_queue_mass_prefix(q@, j + 1);
        }
        m = m + q[j].mass;
        j += 1;
    }
    assert(q@.subrange(0, q@.len() as int) =~= q@);
    m
}



proof fn lemma_queue_mass_concat(a: Seq<Body>, b: Seq<Body>)
    ensures
        queue_mass(a + b) == queue_mass(a) + queue_mass(b),
    decreases b.len(),
{
    if b.len() == 0 {
        assert(a + b =~= a);
    } else {
        lemma_queue_mass_concat(a, b.drop_last());
        assert((a + b).drop_last() =~= a + b.drop_last());
    }
}

/// In a settled tree every counted body sits in a leaf: the leaf bodies are
/// as many as the bodies counted, and together carry the whole mass.
pub proof fn lemma_settled_leaves(r: Region)
    requires
        r.settled(),
    ensures
        leaves(r).len() == count_of(r),
        queue_mass(leaves(r)) == mass_of(r),
    decreases r, 1int, 0int,
{
    match r.reg_vec {
        None => {
            assert(r.add_queue@.len() == 0);
            assert(queue_mass(r.add_queue@) == 0);
            match r.com {
                Some(b) => {
                    assert(seq![b].drop_last() =~= Seq::<Body>::empty());
                    assert(queue_mass(Seq::<Body>::empty()) == 0);
                    assert(leaves(r) == seq![b]);
                    assert(queue_mass(seq![b]) == b.mass);
                },
                None => {
                    assert(leaves(r) == Seq::<Body>::empty());
                    assert(queue_mass(Seq::<Body>::empty()) == 0);
                },
            }
        },
        Some(v) => {
            lemma_settled_kids_leaves(r, v@.len() as int);
            assert(queue_mass(r.add_queue@) == 0);
        },
    }
}

proof fn lemma_settled_kids_leaves(r: Region, k: int)
    requires
        r.settled(),
        r.reg_vec is Some,
        0 <= k <= r.reg_vec->0@.len(),
    ensures
        kids_leaves(r, k).len() == children_count(r.reg_vec->0@, k),
        queue_mass(kids_leaves(r, k)) == children_mass(r.reg_vec->0@, k),
    decreases r, 0int, k,
{
    let v = r.reg_vec->0@;
    if k > 0 {
        assert(decreases_to!(r => v[k - 1]));
        assert(v[k - 1].settled());
        lemma_settled_leaves(v[k - 1]);
        lemma_settled_kids_leaves(r, k - 1);
        lemma_queue_mass_concat(kids_leaves(r, k - 1), leaves(v[k - 1]));
    }
}


/// In a settled tree the leaf bodies are exactly the bodies of the tree.
pub proof fn lemma_settled_leaves_content(r: Region)
    requires
        r.settled(),
    ensures
        leaves(r).to_multiset() == content(r),
    decreases r, 1int, 0int,
{
    r.add_queue@.to_multiset_ensures();
    match r.reg_vec {
        None => {
            assert(r.add_queue@.len() == 0);
            match r.com {
                Some(b) => {
                    let e = Seq::<Body>::empty();
                    e.to_multiset_ensures();
                    assert(leaves(r) =~= e.push(b));
                    assert(leaves(r).to_multiset() =~= content(r));
                },
                None => {
                    let e = Seq::<Body>::empty();
                    e.to_multiset_ensures();
                    assert(leaves(r) =~= e);
                    assert(leaves(r).to_multiset() =~= content(r));
                },
            }
        },
        Some(v) => {
            lemma_settled_kids_content(r, v@.len() as int);
            assert(leaves(r).to_multiset() =~= content(r));
        },
    }
}

proof fn lemma_settled_kids_content(r: Region, k: int)
    requires
        r.settled(),
        r.reg_vec is Some,
        0 <= k <= r.reg_vec->0@.len(),
    ensures
        kids_leaves(r, k).to_multiset() == children_content(r.reg_vec->0@, k),
    decreases r, 0int, k,
{
    let v = r.reg_vec->0@;
    if k > 0 {
        assert(decreases_to!(r => v[k - 1]));
        assert(v[k - 1].settled());
        lemma_settled_leaves_content(v[k - 1]);
        lemma_settled_kids_content(r, k - 1);
        vstd::seq_lib::lemma_multiset_commutative(kids_leaves(r, k - 1), leaves(v[k - 1]));
    } else {
        let e = Seq::<Body>::empty();
        e.to_multiset_ensures();
        assert(kids_leaves(r, 0) =~= e);
        assert(kids_leaves(r, 0).to_multiset() =~= children_content(v, 0));
    }
}

/// Round trip of insertion and ingestion. Where bodies are queued at an empty
/// root and an ingestion pass follows (`update` ensures what this law
/// requires of `after`), the leaves list every queued body exactly once and
/// unchanged, provided no two of them lie within twice the minimum region
/// size of each other along every axis; closer bodies may share a leaf of
/// minimum size, which keeps a single aggregate.
pub proof fn lemma_round_trip(before: TreeWrapper, after: TreeWrapper)
    requires
        before.wf(),
        before.tree.reg_vec is None,
        before.tree.com is None,
        after.tree.settled(),
        spread(content(before.tree), 2 * before.config.min_len) ==> content(after.tree) == content(before.tree),
        spread(before.tree.add_queue@.to_multiset(), 2 * before.config.min_len),
    ensures
        leaves(after.tree).to_multiset() == before.tree.add_queue@.to_multiset(),
        leaves(after.tree).len() == before.tree.add_queue@.len(),
{
    before.tree.add_queue@.to_multiset_ensures();
    assert(content(before.tree) =~= before.tree.add_queue@.to_multiset());
    lemma_settled_leaves_content(after.tree);
    leaves(after.tree).to_multiset_ensures();
}

/// An ingestion pass keeps the mass of the tree: the leaves of the settled
/// tree are the bodies it counts, and they carry all of its mass.
pub proof fn lemma_ingest_keeps_mass(before: TreeWrapper, after: TreeWrapper)
    requires
        before.wf(),
        after.wf(),
        after.tree.settled(),
        after.mass == before.mass,
        count_of(after.tree) <= count_of(before.tree),
    ensures
        queue_mass(leaves(after.tree)) == before.mass,
        leaves(after.tree).len() == count_of(after.tree),
        leaves(after.tree).len() <= count_of(before.tree),
{
    lemma_settled_leaves(after.tree);
}


} // verus!
