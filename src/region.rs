use vstd::prelude::*;
use vstd::arithmetic::div_mod::lemma_div_denominator;
use vstd::multiset::Multiset;
use crate::body::{ints, Body};
use crate::config::{COORD_LIMIT, MAX_DIMS};

verus! {

/// A node of the spatial tree: an axis-aligned box of half extent
/// `half_length` around `coord_vec`. A leaf holds at most one body in `com`;
/// an internal node holds `2^dims` children in `reg_vec`, and `com` then
/// summarises them. `add_queue` holds bodies waiting to be placed.
pub struct Region {
    pub reg_vec: Option<Vec<Region>>,
    pub coord_vec: Vec<i64>,
    pub half_length: i64,
    pub add_queue: Vec<Body>,
    pub com: Option<Body>,
}

/// `2^n`.
pub open spec fn pow2(n: nat) -> int
    decreases n,
{
    if n == 0 {
        1
    } else {
        2 * pow2((n - 1) as nat)
    }
}

/// The sign along axis `i` of the `k`-th child: bit `i` of `k` set gives `+1`.
pub open spec fn sign(k: int, i: int) -> int {
    if (k / pow2(i as nat)) % 2 == 1 {
        1
    } else {
        -1
    }
}

/// Center of the `k`-th child of a region centered at `c` with half extent `h`.
pub open spec fn child_center(c: Seq<i64>, h: int, k: int) -> Seq<int> {
    Seq::new(c.len(), |i: int| c[i] + sign(k, i) * (h / 2))
}

/// Half extent of the children of a region of half extent `h`.
pub open spec fn child_half(h: int) -> int {
    h - h / 2
}

/// The point `p` lies in the closed box of half extent `h` around `c`.
pub open spec fn inside(c: Seq<i64>, h: int, p: Seq<i64>) -> bool {
    forall|i: int| 0 <= i < c.len() ==> -h <= #[trigger] c[i] - p[i] <= h
}

/// The box of half extent `h` around `c` lies within the lattice limits.
pub open spec fn box_fits(c: Seq<i64>, h: int) -> bool {
    forall|i: int|
        0 <= i < c.len() ==> -COORD_LIMIT + h <= #[trigger] c[i] <= COORD_LIMIT - h
}

/// Total mass of a sequence of bodies.
pub open spec fn queue_mass(q: Seq<Body>) -> int
    decreases q.len(),
{
    if q.len() == 0 {
        0
    } else {
        queue_mass(q.drop_last()) + q.last().mass
    }
}

/// A prefix of bodies of nonnegative mass carries no more than the whole.
pub proof fn lemma_queue_mass_prefix(q: Seq<Body>, j: int)
    requires
        0 <= j <= q.len(),
        forall|t: int| 0 <= t < q.len() ==> (#[trigger] q[t]).mass >= 0,
    ensures
        0 <= queue_mass(q.subrange(0, j)) <= queue_mass(q),
    decreases q.len(),
{
    if q.len() > 0 {
        if j == q.len() {
            assert(q.subrange(0, j) =~= q);
            lemma_queue_mass_prefix(q.drop_last(), j - 1);
            assert(q.drop_last().subrange(0, j - 1) =~= q.drop_last());
        } else {
            lemma_queue_mass_prefix(q.drop_last(), j);
            assert(q.drop_last().subrange(0, j) =~= q.subrange(0, j));
            lemma_queue_mass_prefix(q.drop_last(), q.len() - 1);
            assert(q.drop_last().subrange(0, q.len() - 1) =~= q.drop_last());
        }
    } else {
        assert(q.subrange(0, j) =~= q);
    }
}

/// Mass that a node holds directly in `com`, or zero.
pub open spec fn agg_mass(r: Region) -> int {
    match r.com {
        Some(b) => b.mass as int,
        None => 0,
    }
}

/// Total mass of the bodies in a subtree: its queue, and either the body of a
/// leaf or what its children hold.
pub open spec fn mass_of(r: Region) -> int
    decreases r, 0int,
{
    queue_mass(r.add_queue@) + match r.reg_vec {
        None => agg_mass(r),
        Some(v) => children_mass(v@, v@.len() as int),
    }
}

/// Total mass held by the first `k` regions of `v`.
pub open spec fn children_mass(v: Seq<Region>, k: int) -> int
    decreases v, k,
{
    if k <= 0 || k > v.len() {
        0
    } else {
        children_mass(v, k - 1) + mass_of(v[k - 1])
    }
}

/// Number of bodies in a subtree.
pub open spec fn count_of(r: Region) -> int
    decreases r, 0int,
{
    r.add_queue@.len() + match r.reg_vec {
        None => if r.com is Some { 1int } else { 0int },
        Some(v) => children_count(v@, v@.len() as int),
    }
}

/// Number of bodies held by the first `k` regions of `v`.
pub open spec fn children_count(v: Seq<Region>, k: int) -> int
    decreases v, k,
{
    if k <= 0 || k > v.len() {
        0
    } else {
        children_count(v, k - 1) + count_of(v[k - 1])
    }
}

/// The bodies of a subtree, counted with multiplicity: its queue, and either
/// the body of a leaf or what its children hold.
pub open spec fn content(r: Region) -> Multiset<Body>
    decreases r, 0int,
{
    r.add_queue@.to_multiset().add(
        match r.reg_vec {
            None => match r.com {
                Some(b) => Multiset::singleton(b),
                None => Multiset::empty(),
            },
            Some(v) => children_content(v@, v@.len() as int),
        },
    )
}

/// The bodies held by the first `k` regions of `v`.
pub open spec fn children_content(v: Seq<Region>, k: int) -> Multiset<Body>
    decreases v, k,
{
    if k <= 0 || k > v.len() {
        Multiset::empty()
    } else {
        children_content(v, k - 1).add(content(v[k - 1]))
    }
}

/// Two bodies lie more than `d` apart along some axis.
pub open spec fn apart(a: Body, b: Body, d: int) -> bool {
    exists|i: int|
        0 <= i < a.pos_vec@.len() && (a.pos_vec@[i] - b.pos_vec@[i] > d || b.pos_vec@[i] - a.pos_vec@[i] > d)
}

/// Any two bodies of `m`, counted with multiplicity, lie more than `d` apart
/// along some axis.
pub open spec fn spread(m: Multiset<Body>, d: int) -> bool {
    forall|a: Body, b: Body|
        #![trigger m.count(a), m.count(b)]
        m.count(a) > 0 && m.count(b) > 0 && (a != b || m.count(a) >= 2) ==> apart(a, b, d)
}

pub proof fn lemma_spread_sub(m1: Multiset<Body>, m2: Multiset<Body>, d: int)
    requires
        m1.subset_of(m2),
        spread(m2, d),
    ensures
        spread(m1, d),
{
    assert forall|a: Body, b: Body|
        #![trigger m1.count(a), m1.count(b)]
        m1.count(a) > 0 && m1.count(b) > 0 && (a != b || m1.count(a) >= 2) implies apart(a, b, d) by {
        assert(m1.count(a) <= m2.count(a));
        assert(m1.count(b) <= m2.count(b));
    }
}

pub proof fn lemma_children_content_update(v: Seq<Region>, k: int, c: Region, n: int)
    requires
        0 <= k < v.len(),
        0 <= n <= v.len(),
    ensures
        k < n ==> children_content(v.update(k, c), n).add(content(v[k])) =~= children_content(v, n).add(
            content(c),
        ),
        k >= n ==> children_content(v.update(k, c), n) =~= children_content(v, n),
    decreases n,
{
    if n > 0 {
        lemma_children_content_update(v, k, c, n - 1);
        let w = v.update(k, c);
        assert(w[n - 1] == if k == n - 1 { c } else { v[n - 1] });
        if k < n {
            assert forall|x: Body| #[trigger] children_content(w, n).add(content(v[k])).count(x) == children_content(v, n).add(content(c)).count(x) by {
                if k < n - 1 {
                    assert(children_content(w, n - 1).add(content(v[k])).count(x) == children_content(v, n - 1).add(content(c)).count(x));
                } else {
                    assert(children_content(w, n - 1).count(x) == children_content(v, n - 1).count(x));
                }
            }
        }
    }
}

/// A child's bodies are among its parent's children's bodies.
pub proof fn lemma_child_content_sub(v: Seq<Region>, k: int, n: int)
    requires
        0 <= k < n <= v.len(),
    ensures
        content(v[k]).subset_of(children_content(v, n)),
    decreases n,
{
    if k < n - 1 {
        lemma_child_content_sub(v, k, n - 1);
    }
}

/// Children with the same bodies hold the same bodies together.
pub proof fn lemma_children_content_same(v: Seq<Region>, w: Seq<Region>, n: int)
    requires
        0 <= n <= v.len(),
        n <= w.len(),
        forall|k: int| 0 <= k < n ==> content(#[trigger] w[k]) == content(v[k]),
    ensures
        children_content(w, n) == children_content(v, n),
    decreases n,
{
    if n > 0 {
        lemma_children_content_same(v, w, n - 1);
    }
}

/// The number of bodies counted is the size of the content.
pub proof fn lemma_count_is_content_len(r: Region)
    ensures
        count_of(r) == content(r).len(),
    decreases r, 1int, 0int,
{
    r.add_queue@.to_multiset_ensures();
    match r.reg_vec {
        None => {},
        Some(v) => {
            lemma_children_count_is_len(r, v@.len() as int);
        },
    }
}

proof fn lemma_children_count_is_len(r: Region, n: int)
    requires
        r.reg_vec is Some,
        0 <= n <= r.reg_vec->0@.len(),
    ensures
        children_count(r.reg_vec->0@, n) == children_content(r.reg_vec->0@, n).len(),
    decreases r, 0int, n,
{
    let v = r.reg_vec->0@;
    if n > 0 {
        assert(decreases_to!(r => v[n - 1]));
        lemma_count_is_content_len(v[n - 1]);
        lemma_children_count_is_len(r, n - 1);
    }
}

/// Index of the child that receives a point: along axis `i` the upper child
/// is taken only where the point lies outside the lower one. Child boxes are
/// tested in counting order, so this is the first child whose box holds it.
pub open spec fn child_index(c: Seq<i64>, h: int, p: Seq<i64>, i: int) -> int
    decreases c.len() - i,
{
    if i >= c.len() || i < 0 {
        0
    } else {
        upper(c[i] as int, h, p[i] as int) + 2 * child_index(c, h, p, i + 1)
    }
}

/// The bodies of `q[l..]` that go to child `k` of a region centered at `c`
/// with half extent `h`, in the order they leave the back of the queue.
pub open spec fn routed(q: Seq<Body>, c: Seq<i64>, h: int, k: int, l: int) -> Seq<Body>
    decreases q.len() - l,
{
    if l < 0 || l >= q.len() {
        Seq::empty()
    } else {
        routed(q, c, h, k, l + 1) + if child_index(c, h, q[l].pos_vec@, 0) == k {
            seq![q[l]]
        } else {
            Seq::empty()
        }
    }
}

/// `1` where coordinate `x` lies beyond the lower child's box around `c`.
pub open spec fn upper(c: int, h: int, x: int) -> int {
    if x > c - h / 2 + child_half(h) {
        1
    } else {
        0
    }
}

pub proof fn lemma_queue_mass_push(q: Seq<Body>, b: Body)
    ensures
        queue_mass(q.push(b)) == queue_mass(q) + b.mass,
{
    assert(q.push(b).drop_last() =~= q);
}

pub proof fn lemma_children_update(v: Seq<Region>, k: int, c: Region, n: int)
    requires
        0 <= k < v.len(),
        0 <= n <= v.len(),
    ensures
        children_mass(v.update(k, c), n) == children_mass(v, n) + if k < n {
            mass_of(c) - mass_of(v[k])
        } else {
            0
        },
        children_count(v.update(k, c), n) == children_count(v, n) + if k < n {
            count_of(c) - count_of(v[k])
        } else {
            0
        },
    decreases n,
{
    if n > 0 {
        lemma_children_update(v, k, c, n - 1);
    }
}

/// Bit `j` of the child index, for `j >= i`, is the choice made along axis `j`.
pub proof fn lemma_child_index_bits(c: Seq<i64>, h: int, p: Seq<i64>, i: int, j: int)
    requires
        0 <= i <= j < c.len(),
    ensures
        (child_index(c, h, p, i) / pow2((j - i) as nat)) % 2 == upper(c[j] as int, h, p[j] as int),
        child_index(c, h, p, i) >= 0,
    decreases j - i,
{
    lemma_child_index_nonneg(c, h, p, i);
    let x = child_index(c, h, p, i);
    let rest = child_index(c, h, p, i + 1);
    let u = upper(c[i] as int, h, p[i] as int);
    assert(x == u + 2 * rest);
    if j == i {
        assert(pow2(0) == 1);
        assert((u + 2 * rest) % 2 == u) by (nonlinear_arith)
            requires 0 <= u <= 1, rest >= 0;
    } else {
        lemma_child_index_bits(c, h, p, i + 1, j);
        lemma_child_index_nonneg(c, h, p, i + 1);
        lemma_pow2_pos((j - i - 1) as nat);
        assert(pow2((j - i) as nat) == 2 * pow2((j - i - 1) as nat));
        lemma_div_denominator(x, 2, pow2((j - i - 1) as nat));
        assert(x / 2 == rest) by (nonlinear_arith)
            requires x == u + 2 * rest, 0 <= u <= 1;
    }
}

pub proof fn lemma_child_index_nonneg(c: Seq<i64>, h: int, p: Seq<i64>, i: int)
    ensures
        0 <= child_index(c, h, p, i),
        i >= 0 ==> child_index(c, h, p, i) < pow2((c.len() - i) as nat) || i > c.len(),
    decreases c.len() - i,
{
    if i >= 0 && i < c.len() {
        lemma_child_index_nonneg(c, h, p, i + 1);
        assert(pow2((c.len() - i) as nat) == 2 * pow2((c.len() - (i + 1)) as nat));
    } else if i == c.len() {
        assert(pow2(0) == 1);
    }
}

/// A point in a region's box lies in the box of the child that `child_index`
/// names.
pub proof fn lemma_child_covers(c: Seq<i64>, h: int, p: Seq<i64>)
    requires
        h >= 2,
        p.len() == c.len(),
        inside(c, h, p),
    ensures
        0 <= child_index(c, h, p, 0) < pow2(c.len()),
        inside_at(child_center(c, h, child_index(c, h, p, 0)), child_half(h), ints(p)),
{
    lemma_child_index_nonneg(c, h, p, 0);
    let k = child_index(c, h, p, 0);
    let cc = child_center(c, h, k);
    assert forall|i: int| 0 <= i < c.len() implies -child_half(h) <= #[trigger] cc[i] - p[i] <= child_half(h) by {
        lemma_child_index_bits(c, h, p, 0, i);
        assert(pow2((i - 0) as nat) == pow2(i as nat));
        assert(-h <= c[i] - p[i] <= h);
    }
}

/// Where `a < b`, some bit is set in `b` and clear in `a`.
proof fn lemma_lower_bit(a: int, b: int) -> (j: nat)
    requires
        0 <= a < b,
    ensures
        (b / pow2(j)) % 2 == 1,
        (a / pow2(j)) % 2 == 0,
        b >= pow2(j),
    decreases b,
{
    assert(pow2(0) == 1);
    if a / 2 == b / 2 {
        assert(a % 2 == 0 && b % 2 == 1) by (nonlinear_arith)
            requires a / 2 == b / 2, 0 <= a < b;
        assert(a / 1 == a && b / 1 == b);
        0
    } else {
        assert(a / 2 < b / 2) by (nonlinear_arith)
            requires a / 2 != b / 2, 0 <= a < b;
        assert(b / 2 < b) by (nonlinear_arith)
            requires b >= 1;
        let j1 = lemma_lower_bit(a / 2, b / 2);
        lemma_pow2_pos(j1);
        assert(pow2(j1 + 1) == 2 * pow2(j1));
        lemma_div_denominator(a, 2, pow2(j1));
        lemma_div_denominator(b, 2, pow2(j1));
        assert(2 * pow2(j1) == pow2(j1) * 2);
        assert(b >= 2 * (b / 2)) by (nonlinear_arith)
            requires b >= 0;
        j1 + 1
    }
}

/// The child that receives a point is the first, in counting order, whose
/// box holds it: no earlier child's box does.
pub proof fn lemma_child_index_first(c: Seq<i64>, h: int, p: Seq<i64>, k: int)
    requires
        h >= 2,
        p.len() == c.len(),
        inside(c, h, p),
        0 <= k < child_index(c, h, p, 0),
    ensures
        !inside_at(child_center(c, h, k), child_half(h), ints(p)),
{
    let kk = child_index(c, h, p, 0);
    lemma_child_index_nonneg(c, h, p, 0);
    let j = lemma_lower_bit(k, kk);
    if j >= c.len() {
        lemma_pow2_add(c.len(), (j - c.len()) as nat);
        lemma_pow2_pos((j - c.len()) as nat);
        assert(pow2(c.len()) <= pow2(j)) by (nonlinear_arith)
            requires pow2(j) == pow2(c.len()) * pow2((j - c.len()) as nat), pow2((j - c.len()) as nat) >= 1,
                pow2(c.len()) >= 1;
        assert(false);
    }
    lemma_child_index_bits(c, h, p, 0, j as int);
    assert(pow2((j - 0) as nat) == pow2(j));
    assert(sign(k, j as int) == -1);
    let cc = child_center(c, h, k);
    assert(cc[j as int] == c[j as int] - h / 2);
    assert(ints(p)[j as int] == p[j as int]);
}

/// Membership in a box reads the same over machine and mathematical integers.
pub proof fn lemma_inside_at(c: Seq<i64>, h: int, p: Seq<i64>)
    requires
        c.len() <= p.len(),
    ensures
        inside_at(ints(c), h, ints(p)) == inside(c, h, p),
{
    if inside(c, h, p) {
        assert forall|i: int| 0 <= i < ints(c).len() implies -h <= #[trigger] ints(c)[i] - ints(p)[i] <= h by {
            assert(-h <= c[i] - p[i] <= h);
        }
    }
    if inside_at(ints(c), h, ints(p)) {
        assert forall|i: int| 0 <= i < c.len() implies -h <= #[trigger] c[i] - p[i] <= h by {
            assert(-h <= ints(c)[i] - ints(p)[i] <= h);
        }
    }
}

/// The point `p` lies in the closed box of half extent `h` around `c`, all
/// as mathematical integers.
pub open spec fn inside_at(c: Seq<int>, h: int, p: Seq<int>) -> bool {
    forall|i: int| 0 <= i < c.len() ==> -h <= #[trigger] c[i] - p[i] <= h
}

impl Region {
    /// The node's own geometry and bodies are well formed.
    pub open spec fn node_wf(&self, dims: nat) -> bool {
        &&& self.node_core_wf(dims)
        &&& (self.reg_vec is None && self.com is Some) ==> inside(
            self.coord_vec@,
            self.half_length as int,
            self.com->0.pos_vec@,
        )
    }

    /// Geometry, queued bodies and summary are well formed.
    pub open spec fn node_core_wf(&self, dims: nat) -> bool {
        &&& self.coord_vec@.len() == dims
        &&& self.half_length >= 1
        &&& box_fits(self.coord_vec@, self.half_length as int)
        &&& forall|j: int| 0 <= j < self.add_queue@.len() ==> {
            &&& (#[trigger] self.add_queue@[j]).fits(dims as int)
            &&& inside(self.coord_vec@, self.half_length as int, self.add_queue@[j].pos_vec@)
        }
        &&& self.com matches Some(b) ==> b.fits(dims as int)
    }

    /// `c` is the well-formed `k`-th child of this node.
    pub open spec fn child_ok(&self, c: Region, k: int, dims: nat) -> bool {
        &&& ints(c.coord_vec@) == child_center(self.coord_vec@, self.half_length as int, k)
        &&& c.half_length == child_half(self.half_length as int)
    }

    /// Well formed throughout the subtree.
    pub open spec fn wf(&self, dims: nat) -> bool
        decreases self,
    {
        &&& self.node_wf(dims)
        &&& match self.reg_vec {
            None => true,
            Some(v) => {
                &&& self.half_length >= 2
                &&& v@.len() == pow2(dims)
                &&& forall|k: int|
                    0 <= k < v@.len() ==> {
                        &&& self.child_ok(#[trigger] v@[k], k, dims)
                        &&& v@[k].wf(dims)
                    }
            },
        }
    }
}

impl Region {
    /// No node of the subtree at or below half extent `min_len` has children.
    pub open spec fn coarse(&self, min_len: int) -> bool
        decreases self,
    {
        match self.reg_vec {
            None => true,
            Some(v) => {
                &&& self.half_length > min_len
                &&& forall|k: int| 0 <= k < v@.len() ==> (#[trigger] v@[k]).coarse(min_len)
            },
        }
    }
}

pub proof fn lemma_pow2_add(a: nat, b: nat)
    ensures
        pow2(a + b) == pow2(a) * pow2(b),
    decreases a,
{
    if a > 0 {
        lemma_pow2_add((a - 1) as nat, b);
        assert(pow2(a + b) == 2 * pow2((a - 1 + b) as nat));
        assert(2 * (pow2((a - 1) as nat) * pow2(b)) == (2 * pow2((a - 1) as nat)) * pow2(b)) by (nonlinear_arith);
    }
}

pub proof fn lemma_pow2_pos(n: nat)
    ensures
        pow2(n) >= 1,
    decreases n,
{
    if n > 0 {
        lemma_pow2_pos((n - 1) as nat);
    }
}

/// At most eight dimensions give at most 256 children.
pub proof fn lemma_pow2_small(n: nat)
    requires
        n <= 8,
    ensures
        1 <= pow2(n) <= 256,
{
    lemma_pow2_add(n, (8 - n) as nat);
    lemma_pow2_pos(n);
    lemma_pow2_pos((8 - n) as nat);
    reveal_with_fuel(pow2, 9);
    assert(pow2(8) == 256);
    assert(pow2(n) <= pow2(n) * pow2((8 - n) as nat)) by (nonlinear_arith)
        requires pow2((8 - n) as nat) >= 1, pow2(n) >= 1;
}

/// The sign patterns of the `2^n` children, in binary counting order: entry
/// `i` of pattern `k` is `+1` where bit `i` of `k` is set, else `-1`.
pub fn populate_mult(n: usize) -> (r: Vec<Vec<i64>>)
    requires
        n <= MAX_DIMS,
    ensures
        r@.len() == pow2(n as nat),
        forall|k: int| 0 <= k < r@.len() ==> (#[trigger] r@[k])@.len() == n,
        forall|k: int, i: int| 0 <= k < r@.len() && 0 <= i < n ==> (#[trigger] r@[k]@[i]) == sign(k, i),
{
    let mut total: usize = 1;
    let mut j: usize = 0;
    proof {
        lemma_pow2_small(n as nat);
    }
    while j < n
        invariant
            j <= n <= MAX_DIMS,
            total == pow2(j as nat),
            pow2(n as nat) <= 256,
        decreases n - j,
    {
        proof {
            lemma_pow2_small((j + 1) as nat);
        }
        total = total * 2;
        j += 1;
    }
    let mut out: Vec<Vec<i64>> = Vec::new();
    let mut k: usize = 0;
    while k < total
        invariant
            total == pow2(n as nat) <= 256,
            n <= MAX_DIMS,
            k <= total,
            out@.len() == k,
            forall|a: int| 0 <= a < k ==> (#[trigger] out@[a])@.len() == n,
            forall|a: int, i: int| 0 <= a < k && 0 <= i < n ==> (#[trigger] out@[a]@[i]) == sign(a, i),
        decreases total - k,
    {
        let mut pat: Vec<i64> = Vec::new();
        let mut rest: usize = k;
        let mut i: usize = 0;
        while i < n
            invariant
                k < total <= 256,
                i <= n <= MAX_DIMS,
                pat@.len() == i,
                rest == k as int / pow2(i as nat),
                forall|b: int| 0 <= b < i ==> (#[trigger] pat@[b]) == sign(k as int, b),
            decreases n - i,
        {
            proof {
                lemma_pow2_pos(i as nat);
                lemma_div_denominator(k as int, pow2(i as nat), 2);
                assert(pow2((i + 1) as nat) == pow2(i as nat) * 2);
            }
            if rest % 2 == 1 {
                pat.push(1);
            } else {
                pat.push(-1);
            }
            rest = rest / 2;
            i += 1;
        }
        out.push(pat);
        k += 1;
    }
    out
}

impl Region {
    /// The body lies in this region's closed box.
    pub fn contains(&self, body: &Body) -> (r: bool)
        requires
            body.pos_vec@.len() == self.coord_vec@.len(),
        ensures
            r == inside(self.coord_vec@, self.half_length as int, body.pos_vec@),
    {
        let n = self.coord_vec.len();
        let h = self.half_length as i128;
        let mut i: usize = 0;
        while i < n
            invariant
                n == self.coord_vec@.len() == body.pos_vec@.len(),
                h == self.half_length,
                i <= n,
                forall|j: int| 0 <= j < i ==> -h <= #[trigger] self.coord_vec@[j] - body.pos_vec@[j] <= h,
            decreases n - i,
        {
            let d = self.coord_vec[i] as i128 - body.pos_vec[i] as i128;
            if d > h || d < -h {
                return false;
            }
            i += 1;
        }
        true
    }

    /// Subdivides a leaf into `2^dims` empty children, ordered as the sign
    /// patterns of `populate_mult`; the region's summary is cleared.
    pub fn split(&mut self, dims: usize)
        requires
            old(self).reg_vec is None,
            old(self).node_wf(dims as nat),
            old(self).half_length >= 2,
            dims <= MAX_DIMS,
        ensures
            final(self).coord_vec == old(self).coord_vec,
            final(self).half_length == old(self).half_length,
            final(self).add_queue == old(self).add_queue,
            final(self).com is None,
            final(self).reg_vec is Some,
            final(self).reg_vec->0@.len() == pow2(dims as nat),
            forall|k: int| 0 <= k < pow2(dims as nat) ==> {
                let c = #[trigger] final(self).reg_vec->0@[k];
                &&& old(self).child_ok(c, k, dims as nat)
                &&& c.reg_vec is None
                &&& c.add_queue@.len() == 0
                &&& c.com is None
                &&& c.node_wf(dims as nat)
            },
            final(self).wf(dims as nat),
    {
        let mult = populate_mult(dims);
        let h = self.half_length;
        let a = h / 2;
        let ch = h - a;
        let mut kids: Vec<Region> = Vec::new();
        let mut k: usize = 0;
        while k < mult.len()
            invariant
                mult@.len() == pow2(dims as nat),
                forall|b: int| 0 <= b < mult@.len() ==> (#[trigger] mult@[b])@.len() == dims,
                forall|b: int, i: int| 0 <= b < mult@.len() && 0 <= i < dims ==> (#[trigger] mult@[b]@[i]) == sign(b, i),
                self.node_wf(dims as nat),
                self.coord_vec@.len() == dims,
                h == self.half_length,
                h >= 2,
                a == h / 2,
                ch == h - a,
                k <= mult@.len(),
                kids@.len() == k,
                forall|b: int| 0 <= b < k ==> {
                    let c = #[trigger] kids@[b];
                    &&& self.child_ok(c, b, dims as nat)
                    &&& c.reg_vec is None
                    &&& c.add_queue@.len() == 0
                    &&& c.com is None
                    &&& c.node_wf(dims as nat)
                    &&& c.wf(dims as nat)
                },
            decreases mult@.len() - k,
        {
            let mut center: Vec<i64> = Vec::new();
            let mut i: usize = 0;
            while i < dims
                invariant
                    k < mult@.len(),
                    mult@[k as int]@.len() == dims,
                    forall|i2: int| 0 <= i2 < dims ==> (#[trigger] mult@[k as int]@[i2]) == sign(k as int, i2),
                    self.coord_vec@.len() == dims,
                    box_fits(self.coord_vec@, h as int),
                    h >= 2,
                    a == h / 2,
                    ch == h - a,
                    i <= dims,
                    center@.len() == i,
                    forall|b: int| 0 <= b < i ==> (#[trigger] center@[b]) == self.coord_vec@[b] + sign(k as int, b) * a,
                    box_fits(center@, ch as int),
                decreases dims - i,
            {
                let c = self.coord_vec[i];
                let s = mult[k][i];
                let v = if s == 1 { c + a } else { c - a };
                proof {
                    assert(s == sign(k as int, i as int));
                    assert(s == 1 || s == -1);
                    assert(v == c + sign(k as int, i as int) * a);
                }
                center.push(v);
                i += 1;
            }
            let child = Region {
                reg_vec: None,
                coord_vec: center,
                half_length: ch,
                add_queue: Vec::new(),
                com: None,
            };
            proof {
                assert(ints(child.coord_vec@) =~= child_center(self.coord_vec@, h as int, k as int));
                assert(child.wf(dims as nat));
            }
            kids.push(child);
            k += 1;
        }
        self.reg_vec = Some(kids);
        self.com = None;
    }
}

impl Region {
    /// Index of the child that receives `body`.
    fn child_index_of(&self, body: &Body) -> (r: usize)
        requires
            self.coord_vec@.len() == body.pos_vec@.len() <= MAX_DIMS,
            self.half_length >= 2,
            box_fits(self.coord_vec@, self.half_length as int),
            inside(self.coord_vec@, self.half_length as int, body.pos_vec@),
        ensures
            r == child_index(self.coord_vec@, self.half_length as int, body.pos_vec@, 0),
            r < pow2(self.coord_vec@.len()),
    {
        let ghost c = self.coord_vec@;
        let ghost p = body.pos_vec@;
        let h = self.half_length;
        let n = self.coord_vec.len();
        let mut k: usize = 0;
        let mut i: usize = n;
        proof {
            lemma_pow2_small(n as nat);
        }
        while i > 0
            invariant
                n == c.len() == p.len() <= MAX_DIMS,
                c == self.coord_vec@,
                p == body.pos_vec@,
                h == self.half_length >= 2,
                box_fits(c, h as int),
                inside(c, h as int, p),
                i <= n,
                k == child_index(c, h as int, p, i as int),
            decreases i,
        {
            i -= 1;
            proof {
                lemma_child_index_nonneg(c, h as int, p, i as int + 1);
                lemma_pow2_small((n - (i + 1)) as nat);
            }
            let x = self.coord_vec[i];
            let threshold = x - h / 2 + (h - h / 2);
            let u: usize = if body.pos_vec[i] > threshold { 1 } else { 0 };
            k = u + 2 * k;
        }
        proof {
            lemma_child_index_nonneg(c, h as int, p, 0);
        }
        k
    }

    /// Moves every queued body, from the back of the queue, to the end of the
    /// queue of the child `child_index` names: the first child in counting
    /// order whose box holds it (`lemma_child_index_first`, and
    /// `lemma_child_covers` shows that one always does). The parent's queue
    /// is left empty and no body is lost.
    pub fn push_masses_to_children(&mut self, dims: usize)
        requires
            old(self).wf(dims as nat),
            old(self).reg_vec is Some,
            dims <= MAX_DIMS,
        ensures
            final(self).wf(dims as nat),
            final(self).reg_vec is Some,
            final(self).reg_vec->0@.len() == old(self).reg_vec->0@.len(),
            final(self).add_queue@.len() == 0,
            final(self).coord_vec == old(self).coord_vec,
            final(self).half_length == old(self).half_length,
            final(self).com == old(self).com,
            mass_of(*final(self)) == mass_of(*old(self)),
            count_of(*final(self)) == count_of(*old(self)),
            content(*final(self)) == content(*old(self)),
            forall|k: int| 0 <= k < final(self).reg_vec->0@.len() ==> {
                let c = #[trigger] final(self).reg_vec->0@[k];
                let c0 = old(self).reg_vec->0@[k];
                &&& c.reg_vec == c0.reg_vec
                &&& c.com == c0.com
                &&& c.coord_vec == c0.coord_vec
                &&& c.half_length == c0.half_length
                &&& c.add_queue@ == c0.add_queue@ + routed(
                    old(self).add_queue@,
                    old(self).coord_vec@,
                    old(self).half_length as int,
                    k,
                    0,
                )
            },
    {
        let ghost old_self = *self;
        let ghost q0 = self.add_queue@;
        let ghost kids0 = self.reg_vec->0@;
        let mut slot: Option<Vec<Region>> = None;
        std::mem::swap(&mut self.reg_vec, &mut slot);
        let mut kids = slot.unwrap();
        let ghost n = kids@.len() as int;
        proof {
            lemma_pow2_small(dims as nat);
            assert(q0.subrange(0, q0.len() as int) =~= q0);
            assert forall|k: int| 0 <= k < n implies (#[trigger] kids@[k]).add_queue@ == kids0[k].add_queue@ + routed(
                q0,
                self.coord_vec@,
                self.half_length as int,
                k,
                q0.len() as int,
            ) by {
                assert(kids@[k].add_queue@ =~= kids0[k].add_queue@ + Seq::<Body>::empty());
            }
        }
        while self.add_queue.len() > 0
            invariant
                self.node_core_wf(dims as nat),
                self.coord_vec == old_self.coord_vec,
                self.half_length == old_self.half_length,
                self.com == old_self.com,
                self.half_length >= 2,
                dims <= MAX_DIMS,
                n == kids@.len() == pow2(dims as nat),
                forall|k: int| 0 <= k < n ==> {
                    &&& self.child_ok(#[trigger] kids@[k], k, dims as nat)
                    &&& kids@[k].wf(dims as nat)
                    &&& kids@[k].reg_vec == kids0[k].reg_vec
                    &&& kids@[k].com == kids0[k].com
                    &&& kids@[k].coord_vec == kids0[k].coord_vec
                    &&& kids@[k].half_length == kids0[k].half_length
                },
                queue_mass(self.add_queue@) + children_mass(kids@, n) == mass_of(old_self),
                self.add_queue@.len() + children_count(kids@, n) == count_of(old_self),
                self.add_queue@.to_multiset().add(children_content(kids@, n)) == content(old_self),
                q0 == old_self.add_queue@,
                self.add_queue@.len() <= q0.len(),
                self.add_queue@ == q0.subrange(0, self.add_queue@.len() as int),
                forall|k: int|
                    0 <= k < n ==> (#[trigger] kids@[k]).add_queue@ == kids0[k].add_queue@ + routed(
                        q0,
                        self.coord_vec@,
                        self.half_length as int,
                        k,
                        self.add_queue@.len() as int,
                    ),
            decreases self.add_queue@.len(),
        {
            let ghost q = self.add_queue@;
            let b = self.add_queue.pop().unwrap();
            proof {
                assert(q.drop_last() =~= self.add_queue@);
                assert(q =~= self.add_queue@.push(b));
                self.add_queue@.to_multiset_ensures();
                assert(q.to_multiset() =~= self.add_queue@.to_multiset().insert(b));
                assert(b == q[q.len() - 1]);
                assert(b.fits(dims as int));
                lemma_child_covers(self.coord_vec@, self.half_length as int, b.pos_vec@);
            }
            let k = self.child_index_of(&b);
            let ghost before = kids@;
            let mut c = kids.remove(k);
            proof {
                assert(c == before[k as int]);
                let cc = child_center(self.coord_vec@, self.half_length as int, k as int);
                assert(ints(c.coord_vec@) == cc);
                assert forall|i: int| 0 <= i < c.coord_vec@.len() implies -c.half_length <= #[trigger] c.coord_vec@[i]
                    - b.pos_vec@[i] <= c.half_length by {
                    assert(ints(c.coord_vec@)[i] == cc[i]);
                }
                lemma_queue_mass_push(c.add_queue@, b);
            }
            let ghost c_before = c;
            c.add_queue.push(b);
            proof {
                assert(c.node_wf(dims as nat));
                assert(c.wf(dims as nat));
                lemma_children_update(before, k as int, c, n);
                c_before.add_queue@.to_multiset_ensures();
                assert(c.add_queue@ =~= c_before.add_queue@.push(b));
                assert(c.add_queue@.to_multiset() =~= c_before.add_queue@.to_multiset().insert(b));
                assert(content(c) =~= content(c_before).insert(b));
                lemma_children_content_update(before, k as int, c, n);
                assert(c_before == before[k as int]);
                assert forall|x: Body| #[trigger] children_content(before.update(k as int, c), n).count(x)
                    == children_content(before, n).insert(b).count(x) by {
                    assert(children_content(before.update(k as int, c), n).add(content(c_before)).count(x)
                        == children_content(before, n).add(content(c)).count(x));
                }
                assert(children_content(before.update(k as int, c), n) =~= children_content(before, n).insert(b));
            }
            kids.insert(k, c);
            proof {
                assert(kids@ =~= before.update(k as int, c));
                let l = self.add_queue@.len() as int;
                assert(q == q0.subrange(0, l + 1));
                assert(self.add_queue@ == q.drop_last());
                assert(self.add_queue@ =~= q0.subrange(0, l));
                assert(b == q[l]);
                assert(b == q0[l]);
                assert forall|k2: int| 0 <= k2 < n implies (#[trigger] kids@[k2]).add_queue@ == kids0[k2].add_queue@
                    + routed(q0, self.coord_vec@, self.half_length as int, k2, l) by {
                    let rest = routed(q0, self.coord_vec@, self.half_length as int, k2, l + 1);
                    if k2 == k as int {
                        assert(routed(q0, self.coord_vec@, self.half_length as int, k2, l) == rest + seq![b]);
                        assert(kids@[k2].add_queue@ =~= kids0[k2].add_queue@ + (rest + seq![b]));
                    } else {
                        assert(routed(q0, self.coord_vec@, self.half_length as int, k2, l) =~= rest);
                    }
                }
            }
        }
        self.reg_vec = Some(kids);
        proof {
            assert(self.add_queue@.len() == 0);
            assert(queue_mass(self.add_queue@) == 0);
            self.add_queue@.to_multiset_ensures();
            assert(self.add_queue@.to_multiset() =~= Multiset::empty());
            assert(content(*self) =~= children_content(kids@, n));
        }
    }
}

} // verus!
