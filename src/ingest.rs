use vstd::prelude::*;
use vstd::multiset::Multiset;
use crate::body::Body;
use crate::config::{Config, MASS_LIMIT};
use crate::region::{lemma_queue_mass_prefix, pow2, inside, queue_mass, agg_mass, mass_of, children_mass, count_of, children_count, content, children_content, apart, spread, lemma_spread_sub, lemma_child_content_sub, lemma_children_content_same, lemma_count_is_content_len, lemma_queue_mass_push, lemma_pow2_small, Region};
use crate::summary::{collapse, collapsed, kids_den, kids_num, qnum, summarises, TreeError};

verus! {

/// The first two bodies of `q` are two bodies of its multiset.
proof fn lemma_front_pair(q: Seq<Body>)
    requires
        q.len() >= 2,
    ensures
        q.to_multiset().count(q[0]) > 0,
        q.to_multiset().count(q[1]) > 0,
        q[0] == q[1] ==> q.to_multiset().count(q[0]) >= 2,
{
    q.to_multiset_ensures();
    let rest = q.remove(0);
    rest.to_multiset_ensures();
    assert(rest[0] == q[1]);
    assert(rest.contains(q[1]));
    assert(q.contains(q[0]));
    assert(q.contains(q[1]));
    assert(rest.to_multiset().count(q[1]) > 0);
    assert(rest.to_multiset() =~= q.to_multiset().remove(q[0]));
    if q[0] == q[1] {
        assert(q.to_multiset().remove(q[0]).count(q[0]) > 0);
        assert(q.to_multiset().remove(q[0]).count(q[0]) == q.to_multiset().count(q[0]) - 1);
    }
}

/// A leaf's bodies are its queue followed by its body.
proof fn lemma_leaf_content(r: Region)
    requires
        r.reg_vec is None,
    ensures
        content(r) =~= merged(r.add_queue@, r.com).to_multiset(),
{
    r.add_queue@.to_multiset_ensures();
}

/// Children without bodies hold nothing together.
proof fn lemma_children_content_empty(v: Seq<Region>, n: int)
    requires
        0 <= n <= v.len(),
        forall|t: int| 0 <= t < v.len() ==> content(#[trigger] v[t]) =~= Multiset::<Body>::empty(),
    ensures
        children_content(v, n) =~= Multiset::<Body>::empty(),
    decreases n,
{
    if n > 0 {
        lemma_children_content_empty(v, n - 1);
    }
}

impl Region {
    /// Settled throughout the subtree: no queue holds a body, every summary
    /// carries the mass below it, every internal node carries the summary of
    /// its children, and no internal node is empty.
    pub open spec fn settled(&self) -> bool
        decreases self,
    {
        &&& self.add_queue@.len() == 0
        &&& agg_mass(*self) == mass_of(*self)
        &&& match self.reg_vec {
            None => true,
            Some(v) => {
                &&& count_of(*self) > 0
                &&& self.com is Some
                &&& summarises(self.com->0, v@, self.coord_vec@)
                &&& forall|k: int| 0 <= k < v@.len() ==> (#[trigger] v@[k]).settled()
            },
        }
    }
}

/// Mass and count of a well-formed subtree are nonnegative, and a subtree
/// without bodies has no mass.
pub proof fn lemma_tree_nonneg(r: Region, dims: nat)
    requires
        r.wf(dims),
    ensures
        mass_of(r) >= 0,
        count_of(r) >= 0,
        count_of(r) == 0 ==> mass_of(r) == 0,
    decreases r, 1int, 0int,
{
    let q = r.add_queue@;
    assert forall|t: int| 0 <= t < q.len() implies (#[trigger] q[t]).mass >= 0 by {
        assert(q[t].fits(dims as int));
    }
    lemma_queue_mass_prefix(q, q.len() as int);
    assert(q.subrange(0, q.len() as int) =~= q);
    if q.len() == 0 {
        assert(queue_mass(q) == 0);
    }
    match r.reg_vec {
        None => {},
        Some(v) => {
            lemma_children_tree_nonneg(r, v@, v@.len() as int, dims);
        },
    }
}

proof fn lemma_children_tree_nonneg(r: Region, v: Seq<Region>, n: int, dims: nat)
    requires
        r.reg_vec is Some,
        v == r.reg_vec->0@,
        0 <= n <= v.len(),
        forall|k: int| 0 <= k < v.len() ==> (#[trigger] v[k]).wf(dims),
    ensures
        children_mass(v, n) >= 0,
        children_count(v, n) >= 0,
        children_count(v, n) == 0 ==> children_mass(v, n) == 0,
    decreases r, 0int, n,
{
    if n > 0 {
        assert(decreases_to!(r => v[n - 1]));
        lemma_tree_nonneg(v[n - 1], dims);
        lemma_children_tree_nonneg(r, v, n - 1, dims);
    }
}

/// Sums over children that agree pointwise agree.
pub proof fn lemma_children_pointwise(v: Seq<Region>, w: Seq<Region>, n: int)
    requires
        0 <= n <= v.len(),
        n <= w.len(),
        forall|k: int| 0 <= k < n ==> mass_of(#[trigger] w[k]) == mass_of(v[k]),
        forall|k: int| 0 <= k < n ==> count_of(#[trigger] w[k]) <= count_of(v[k]),
        forall|k: int| 0 <= k < n ==> agg_mass(#[trigger] w[k]) == mass_of(w[k]),
    ensures
        children_mass(w, n) == children_mass(v, n),
        children_count(w, n) <= children_count(v, n),
        kids_den(w, n) == children_mass(w, n),
    decreases n,
{
    if n > 0 {
        lemma_children_pointwise(v, w, n - 1);
    }
}

/// A child's mass is part of the sum over the children.
pub proof fn lemma_child_le(v: Seq<Region>, k: int, n: int)
    requires
        0 <= k < n <= v.len(),
        forall|t: int| 0 <= t < v.len() ==> mass_of(#[trigger] v[t]) >= 0,
    ensures
        mass_of(v[k]) <= children_mass(v, n),
    decreases n,
{
    lemma_children_nonneg_mass(v, n - 1);
    if k < n - 1 {
        lemma_child_le(v, k, n - 1);
    }
}

proof fn lemma_children_nonneg_mass(v: Seq<Region>, n: int)
    requires
        forall|t: int| 0 <= t < v.len() ==> mass_of(#[trigger] v[t]) >= 0,
    ensures
        children_mass(v, n) >= 0,
    decreases n,
{
    if n > 0 && n <= v.len() {
        lemma_children_nonneg_mass(v, n - 1);
    }
}

/// The children's count is zero exactly where each child's count is.
proof fn lemma_children_count_zero(v: Seq<Region>, n: int)
    requires
        0 <= n <= v.len(),
        forall|t: int| 0 <= t < v.len() ==> count_of(#[trigger] v[t]) >= 0,
    ensures
        children_count(v, n) >= 0,
        (children_count(v, n) == 0) <==> (forall|t: int| 0 <= t < n ==> count_of(#[trigger] v[t]) == 0),
    decreases n,
{
    if n > 0 {
        lemma_children_count_zero(v, n - 1);
        if children_count(v, n) == 0 {
            assert forall|t: int| 0 <= t < n implies count_of(#[trigger] v[t]) == 0 by {
                if t < n - 1 {
                    assert(count_of(v[t]) >= 0);
                }
            }
        }
    }
}

/// Children that hold nothing sum to nothing.
proof fn lemma_children_empty(v: Seq<Region>, n: int)
    requires
        0 <= n <= v.len(),
        forall|t: int| 0 <= t < v.len() ==> mass_of(#[trigger] v[t]) == 0 && count_of(v[t]) == 0,
    ensures
        children_mass(v, n) == 0,
        children_count(v, n) == 0,
    decreases n,
{
    if n > 0 {
        lemma_children_empty(v, n - 1);
    }
}

impl Region {
    /// The ingestion pass of `update`, on an owned subtree.
    fn ingest(r0: Region, cfg: &Config) -> (res: (Region, bool))
        requires
            cfg.wf(),
            r0.wf(cfg.dims as nat),
            mass_of(r0) <= MASS_LIMIT,
        ensures
            res.0.wf(cfg.dims as nat),
            res.0.settled(),
            res.0.coord_vec == r0.coord_vec,
            res.0.half_length == r0.half_length,
            mass_of(res.0) == mass_of(r0),
            count_of(res.0) <= count_of(r0),
            (count_of(res.0) == 0) <==> (count_of(r0) == 0),
            res.1 == (count_of(res.0) > 0),
            count_of(r0) == 0 ==> res.0.reg_vec is None && res.0.com is None,
            r0.reg_vec is None && r0.half_length <= cfg.min_len ==> res.0.reg_vec is None,
            r0.reg_vec is None && merged(r0.add_queue@, r0.com).len() <= 1 ==> res.0.reg_vec is None,
            r0.coarse(cfg.min_len as int) ==> res.0.coarse(cfg.min_len as int),
            r0.reg_vec is None && merged(r0.add_queue@, r0.com).len() == 1 ==> res.0.com == Some(
                merged(r0.add_queue@, r0.com)[0],
            ),
            r0.reg_vec is None && r0.half_length <= cfg.min_len && merged(r0.add_queue@, r0.com).len() >= 2
                ==> res.0.com is Some && collapsed(res.0.com->0, merged(r0.add_queue@, r0.com)),
            spread(content(r0), 2 * cfg.min_len) ==> content(res.0) == content(r0),
            r0.reg_vec is None && r0.add_queue@.len() == 0 ==> res.0 == r0,
        decreases r0.half_length,
    {
        let dims = cfg.dims;
        let mut this = r0;
        let ghost old_self = this;
        proof {
            lemma_tree_nonneg(this, dims as nat);
        }
        if this.reg_vec.is_none() {
            if this.add_queue.len() == 0 {
                let l = this.com.is_some();
                return (this, l);
            }
            let mut slot: Option<Body> = None;
            std::mem::swap(&mut this.com, &mut slot);
            match slot {
                Some(b) => {
                    proof {
                        lemma_queue_mass_push(this.add_queue@, b);
                    }
                    this.add_queue.push(b);
                },
                None => {},
            }
            proof {
                assert(this.node_wf(dims as nat));
                assert(mass_of(this) == mass_of(old_self));
                assert(count_of(this) == count_of(old_self));
                assert(this.add_queue@ =~= merged(old_self.add_queue@, old_self.com));
                lemma_leaf_content(old_self);
                lemma_leaf_content(this);
                assert(merged(this.add_queue@, this.com) == this.add_queue@);
                assert(content(this) =~= content(old_self));
            }
            if this.add_queue.len() == 1 {
                let ghost q = this.add_queue@;
                this.com = this.add_queue.pop();
                proof {
                    assert(q.drop_last() =~= this.add_queue@);
                    assert(this.add_queue@.len() == 0);
                    assert(this.node_wf(dims as nat));
                    lemma_leaf_content(this);
                    assert(merged(this.add_queue@, this.com) =~= q);
                }
                return (this, true);
            }
            if this.half_length <= cfg.min_len {
                proof {
                    lemma_tree_nonneg(this, dims as nat);
                    let q = this.add_queue@;
                    let d = 2 * cfg.min_len;
                    lemma_front_pair(q);
                    assert(content(old_self) == q.to_multiset());
                    assert(!apart(q[0], q[1], d)) by {
                        assert(inside(this.coord_vec@, this.half_length as int, q[0].pos_vec@));
                        assert(inside(this.coord_vec@, this.half_length as int, q[1].pos_vec@));
                        assert forall|i: int| 0 <= i < q[0].pos_vec@.len() implies !(q[0].pos_vec@[i] - q[1].pos_vec@[i] > d
                            || q[1].pos_vec@[i] - q[0].pos_vec@[i] > d) by {
                            assert(q[0].fits(dims as int));
                            assert(-this.half_length <= this.coord_vec@[i] - q[0].pos_vec@[i] <= this.half_length);
                            assert(-this.half_length <= this.coord_vec@[i] - q[1].pos_vec@[i] <= this.half_length);
                        }
                    }
                    let m = content(old_self);
                    assert(!spread(m, d)) by {
                        if spread(m, d) {
                            assert(m.count(q[0]) > 0 && m.count(q[1]) > 0);
                        }
                    }
                }
                let b = collapse(&this.add_queue, dims, &this.coord_vec, this.half_length);
                this.add_queue = Vec::new();
                this.com = Some(b);
                proof {
                    assert(this.node_wf(dims as nat));
                }
                return (this, true);
            }
            this.split(dims);
            proof {
                let v = this.reg_vec->0@;
                assert forall|t: int| 0 <= t < v.len() implies mass_of(#[trigger] v[t]) == 0 && count_of(v[t]) == 0 by {
                    assert(v[t].add_queue@.len() == 0);
                    assert(queue_mass(v[t].add_queue@) == 0);
                }
                lemma_children_empty(v, v.len() as int);
                assert(mass_of(this) == mass_of(old_self));
                assert forall|t: int| 0 <= t < v.len() implies content(#[trigger] v[t]) =~= Multiset::<Body>::empty() by {
                    v[t].add_queue@.to_multiset_ensures();
                    assert(v[t].add_queue@.len() == 0);
                }
                lemma_children_content_empty(v, v.len() as int);
                assert(content(this) =~= content(old_self));
            }
        }
        let ghost before_push = this;
        let ghost shaped = before_push.coarse(cfg.min_len as int);
        proof {
            if r0.reg_vec is None {
                assert forall|k: int| 0 <= k < before_push.reg_vec->0@.len() implies (#[trigger] before_push.reg_vec->0@[k]).coarse(cfg.min_len as int) by {
                    assert(before_push.reg_vec->0@[k].reg_vec is None);
                }
                assert(shaped);
            } else {
                assert(before_push == r0);
            }
        }
        this.push_masses_to_children(dims);
        let ghost pushed = this;
        let mut slot: Option<Vec<Region>> = None;
        std::mem::swap(&mut this.reg_vec, &mut slot);
        let mut kids = slot.unwrap();
        let ghost orig = kids@;
        let ghost n = orig.len() as int;
        proof {
            lemma_pow2_small(dims as nat);
            assert(queue_mass(pushed.add_queue@) == 0);
            assert(mass_of(pushed) == children_mass(orig, n));
            assert forall|t: int| 0 <= t < n implies mass_of(#[trigger] orig[t]) >= 0 && count_of(orig[t]) >= 0 by {
                lemma_tree_nonneg(orig[t], dims as nat);
            }
            pushed.add_queue@.to_multiset_ensures();
            assert(content(pushed) =~= children_content(orig, n));
            if shaped {
                assert forall|t: int| 0 <= t < n implies (#[trigger] orig[t]).coarse(cfg.min_len as int) by {
                    assert(before_push.reg_vec->0@[t].coarse(cfg.min_len as int));
                    assert(orig[t].reg_vec == before_push.reg_vec->0@[t].reg_vec);
                    assert(orig[t].half_length == before_push.reg_vec->0@[t].half_length);
                }
            }
        }
        let mut out: Vec<Region> = Vec::new();
        let mut any = false;
        while kids.len() > 0
            invariant
                cfg.wf(),
                dims == cfg.dims,
                n == orig.len() == pow2(dims as nat),
                pushed.half_length >= 2,
                pushed.half_length == old_self.half_length,
                old_self == r0,
                r0.coarse(cfg.min_len as int) ==> shaped,
                shaped ==> pushed.half_length > cfg.min_len,
                shaped ==> forall|t: int| 0 <= t < n ==> (#[trigger] orig[t]).coarse(cfg.min_len as int),
                forall|t: int|
                    0 <= t < out@.len() && orig[t].coarse(cfg.min_len as int) ==> (#[trigger] out@[t]).coarse(
                        cfg.min_len as int,
                    ),
                this.coord_vec == pushed.coord_vec,
                this.half_length == pushed.half_length,
                this.add_queue@.len() == 0,
                this.node_core_wf(dims as nat),
                forall|t: int| 0 <= t < n ==> {
                    &&& pushed.child_ok(#[trigger] orig[t], t, dims as nat)
                    &&& orig[t].wf(dims as nat)
                    &&& mass_of(orig[t]) >= 0
                    &&& count_of(orig[t]) >= 0
                },
                children_mass(orig, n) <= MASS_LIMIT,
                out@.len() + kids@.len() == n,
                kids@ == orig.subrange(out@.len() as int, n),
                forall|t: int| 0 <= t < out@.len() ==> {
                    &&& pushed.child_ok(#[trigger] out@[t], t, dims as nat)
                    &&& out@[t].wf(dims as nat)
                    &&& out@[t].settled()
                    &&& mass_of(out@[t]) == mass_of(orig[t])
                    &&& count_of(out@[t]) <= count_of(orig[t])
                    &&& (count_of(out@[t]) == 0) == (count_of(orig[t]) == 0)
                    &&& count_of(out@[t]) >= 0
                },
                any == (exists|t: int| 0 <= t < out@.len() && count_of(#[trigger] out@[t]) > 0),
                content(pushed) == children_content(orig, n),
                spread(content(r0), 2 * cfg.min_len) ==> content(pushed) == content(r0),
                spread(content(r0), 2 * cfg.min_len) ==> forall|t: int|
                    0 <= t < out@.len() ==> content(#[trigger] out@[t]) == content(orig[t]),
            decreases kids@.len(),
        {
            let ghost j = out@.len() as int;
            let c = kids.remove(0);
            proof {
                assert(c == orig[j]);
                lemma_child_le(orig, j, n);
                assert(c.half_length < pushed.half_length);
                assert(c.half_length >= 1);
                if spread(content(r0), 2 * cfg.min_len) {
                    lemma_child_content_sub(orig, j, n);
                    lemma_spread_sub(content(c), content(r0), 2 * cfg.min_len);
                }
            }
            let (c2, l) = Region::ingest(c, cfg);
            let c = c2;
            proof {
                lemma_tree_nonneg(c, dims as nat);
            }
            let ghost prev = out@;
            let ghost any0 = any;
            any = any || l;
            out.push(c);
            proof {
                assert(kids@ =~= orig.subrange(out@.len() as int, n));
                assert(out@ == prev.push(c));
                assert(forall|t: int| 0 <= t < j ==> #[trigger] out@[t] == prev[t]);
                if l {
                    assert(count_of(out@[j]) > 0);
                } else if !any0 {
                    assert forall|t: int| 0 <= t < out@.len() implies count_of(#[trigger] out@[t]) <= 0 by {
                        if t < j {
                            assert(out@[t] == prev[t]);
                            assert(!(0 <= t < prev.len() && count_of(prev[t]) > 0));
                        }
                    }
                } else {
                    let t0 = choose|t: int| 0 <= t < prev.len() && count_of(#[trigger] prev[t]) > 0;
                    assert(out@[t0] == prev[t0]);
                }
            }
        }
        proof {
            assert forall|t: int| 0 <= t < n implies agg_mass(#[trigger] out@[t]) == mass_of(out@[t]) by {
                assert(out@[t].settled());
            }
            lemma_children_pointwise(orig, out@, n);
            assert forall|t: int| 0 <= t < n implies count_of(#[trigger] out@[t]) >= 0 by {}
            lemma_children_count_zero(out@, n);
            lemma_children_count_zero(orig, n);
        }
        if !any {
            this.com = None;
            proof {
                if spread(content(r0), 2 * cfg.min_len) {
                    assert forall|t: int| 0 <= t < n implies content(#[trigger] orig[t]) =~= Multiset::<Body>::empty() by {
                        assert(count_of(out@[t]) == 0);
                        lemma_count_is_content_len(out@[t]);
                        vstd::multiset::lemma_multiset_empty_len(content(out@[t]));
                    }
                    lemma_children_content_empty(orig, n);
                }
                this.add_queue@.to_multiset_ensures();
                assert(content(this) =~= Multiset::<Body>::empty());
                assert forall|t: int| 0 <= t < n implies count_of(#[trigger] orig[t]) == 0 by {
                    assert(count_of(out@[t]) == 0);
                }
                assert(children_count(orig, n) == 0);
                lemma_children_tree_nonneg(pushed, orig, n, dims as nat);
                assert(this.node_wf(dims as nat));
                assert(queue_mass(this.add_queue@) == 0);
            }
            return (this, false);
        }
        this.reg_vec = Some(out);
        proof {
            assert(this.wf(dims as nat));
        }
        proof {
            assert(kids_den(out@, n) == children_mass(out@, n));
        }
        proof {
            if spread(content(r0), 2 * cfg.min_len) {
                lemma_children_content_same(orig, out@, n);
            }
            this.add_queue@.to_multiset_ensures();
            assert(content(this) =~= children_content(out@, n));
        }
        let r = this.update_com(dims);
        proof {
            if let Err(e) = r {
                match e {
                    TreeError::MassLimit => {},
                }
            }
            assert(r is Ok);
            assert(queue_mass(this.add_queue@) == 0);
            let t = choose|t: int| 0 <= t < n && count_of(#[trigger] out@[t]) > 0;
            assert(children_count(this.reg_vec->0@, n) > 0);
        }
        (this, true)
    }

    /// One ingestion pass over the subtree: every queued body is placed in
    /// the leaf whose box holds it, a leaf with more than one body is split,
    /// or, at or below the minimum size, collapsed into one aggregate body;
    /// summaries are recomputed bottom-up, and a subtree left without bodies
    /// reverts to an empty leaf. Returns whether the subtree holds a body.
    pub fn update(&mut self, cfg: &Config) -> (live: bool)
        requires
            cfg.wf(),
            old(self).wf(cfg.dims as nat),
            mass_of(*old(self)) <= MASS_LIMIT,
        ensures
            final(self).wf(cfg.dims as nat),
            final(self).settled(),
            final(self).coord_vec == old(self).coord_vec,
            final(self).half_length == old(self).half_length,
            mass_of(*final(self)) == mass_of(*old(self)),
            count_of(*final(self)) <= count_of(*old(self)),
            (count_of(*final(self)) == 0) <==> (count_of(*old(self)) == 0),
            live == (count_of(*final(self)) > 0),
            count_of(*old(self)) == 0 ==> final(self).reg_vec is None && final(self).com is None,
            old(self).reg_vec is None && old(self).half_length <= cfg.min_len ==> final(self).reg_vec is None,
            old(self).reg_vec is None && merged(old(self).add_queue@, old(self).com).len() <= 1
                ==> final(self).reg_vec is None,
            old(self).coarse(cfg.min_len as int) ==> final(self).coarse(cfg.min_len as int),
            old(self).reg_vec is None && merged(old(self).add_queue@, old(self).com).len() == 1 ==> final(self).com
                == Some(merged(old(self).add_queue@, old(self).com)[0]),
            old(self).reg_vec is None && old(self).half_length <= cfg.min_len && merged(
                old(self).add_queue@,
                old(self).com,
            ).len() >= 2 ==> final(self).com is Some && collapsed(
                final(self).com->0,
                merged(old(self).add_queue@, old(self).com),
            ),
            old(self).reg_vec is None && old(self).add_queue@.len() == 0 ==> *final(self) == *old(self),
            spread(content(*old(self)), 2 * cfg.min_len) ==> content(*final(self)) == content(*old(self)),
    {
        let mut taken = Region::empty_leaf();
        std::mem::swap(self, &mut taken);
        let (r, live) = Region::ingest(taken, cfg);
        *self = r;
        live
    }

    /// A leaf with no geometry and no bodies, used as a placeholder.
    fn empty_leaf() -> (r: Region)
        ensures
            r.reg_vec is None,
            r.add_queue@.len() == 0,
            r.com is None,
    {
        Region { reg_vec: None, coord_vec: Vec::new(), half_length: 1, add_queue: Vec::new(), com: None }
    }
}

/// The bodies of `q` followed by the one in `com`, if any.
pub open spec fn merged(q: Seq<Body>, com: Option<Body>) -> Seq<Body> {
    match com {
        Some(b) => q.push(b),
        None => q,
    }
}

proof fn lemma_qnum_shared(q: Seq<Body>, i: int, x: int)
    requires
        forall|t: int| 0 <= t < q.len() ==> (#[trigger] q[t]).pos_vec@[i] == x,
    ensures
        qnum(q, i, false) == x * queue_mass(q),
    decreases q.len(),
{
    if q.len() > 0 {
        lemma_qnum_shared(q.drop_last(), i, x);
        let m = q.last().mass as int;
        assert(x * queue_mass(q.drop_last()) + m * x == x * (queue_mass(q.drop_last()) + m)) by (nonlinear_arith);
    }
}

/// Bodies that share one position collapse into one body at that position
/// that carries their total mass.
pub proof fn lemma_coincident_collapse(q: Seq<Body>, b: Body, p: Seq<i64>)
    requires
        q.len() >= 1,
        collapsed(b, q),
        q[0].pos_vec@.len() == p.len(),
        forall|t: int| 0 <= t < q.len() ==> (#[trigger] q[t]).pos_vec@ == p,
        forall|t: int| 0 <= t < q.len() ==> (#[trigger] q[t]).mass >= 0,
    ensures
        b.pos_vec@ == p,
        b.mass == queue_mass(q),
{
    assert forall|i: int| 0 <= i < p.len() implies #[trigger] b.pos_vec@[i] == p[i] by {
        let m = queue_mass(q);
        assert forall|t: int| 0 <= t < q.len() implies (#[trigger] q[t]).pos_vec@[i] == p[i] as int by {
            assert(q[t].pos_vec@ == p);
        }
        lemma_qnum_shared(q, i, p[i] as int);
        lemma_queue_mass_nonneg_any(q);
        if m != 0 {
            let x = p[i] as int;
            assert(x * m == m * x) by (nonlinear_arith);
            if x >= 0 {
                vstd::arithmetic::div_mod::lemma_div_by_multiple(x, m);
                assert(x * m >= 0) by (nonlinear_arith)
                    requires x >= 0, m > 0;
            } else {
                vstd::arithmetic::div_mod::lemma_div_by_multiple(-x, m);
                assert(-(x * m) == (-x) * m) by (nonlinear_arith);
                assert(x * m < 0) by (nonlinear_arith)
                    requires x < 0, m > 0;
            }
        } else {
            assert(q[0].pos_vec@ == p);
        }
    }
    assert(b.pos_vec@ =~= p);
}

/// Total mass of bodies of nonnegative mass is nonnegative.
proof fn lemma_queue_mass_nonneg_any(q: Seq<Body>)
    ensures
        (forall|t: int| 0 <= t < q.len() ==> (#[trigger] q[t]).mass >= 0) ==> queue_mass(q) >= 0,
    decreases q.len(),
{
    if q.len() > 0 {
        lemma_queue_mass_nonneg_any(q.drop_last());
        if forall|t: int| 0 <= t < q.len() ==> (#[trigger] q[t]).mass >= 0 {
            assert forall|t: int| 0 <= t < q.drop_last().len() implies (#[trigger] q.drop_last()[t]).mass >= 0 by {
                assert(q.drop_last()[t] == q[t]);
            }
            assert(q[q.len() - 1].mass >= 0);
        }
    }
}

proof fn lemma_kids_sums_prefix(v: Seq<Region>, w: Seq<Region>, m: int, i: int)
    requires
        0 <= m <= v.len(),
        m <= w.len(),
        forall|t: int| 0 <= t < m ==> #[trigger] w[t] == v[t],
    ensures
        kids_den(w, m) == kids_den(v, m),
        kids_num(w, m, i) == kids_num(v, m, i),
    decreases m,
{
    if m > 0 {
        lemma_kids_sums_prefix(v, w, m - 1, i);
    }
}

/// A child that holds no summary, such as a pruned subtree, is left out of
/// its parent's weighted sums: they are the sums over the other children.
pub proof fn lemma_empty_child_excluded(v: Seq<Region>, k: int, n: int, i: int)
    requires
        0 <= k < n <= v.len(),
        v[k].com is None,
    ensures
        kids_den(v, n) == kids_den(v.remove(k), n - 1),
        kids_num(v, n, i) == kids_num(v.remove(k), n - 1, i),
    decreases n,
{
    let w = v.remove(k);
    if n == k + 1 {
        lemma_kids_sums_prefix(v, w, k, i);
    } else {
        lemma_empty_child_excluded(v, k, n - 1, i);
        assert(w[n - 2] == v[n - 1]);
    }
}

} // verus!
