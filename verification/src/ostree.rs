//! Order-statistics tree over non-negative integer weights.
//!
//! The tree is stored as one array holding a complete binary tree: the
//! leaves occupy the upper half of the array and carry the weights, every
//! inner slot carries the sum of its two children, and slot 1 (the root)
//! therefore carries the total weight.  Point update, prefix sums and the
//! rank query (mapping a cumulative-weight offset back to a leaf index)
//! all take logarithmically many steps.

use vstd::prelude::*;

verus! {

/// True when `n` is a power of two.
pub open spec fn is_pow2(n: int) -> bool
    decreases n,
{
    if n <= 0 {
        false
    } else if n == 1 {
        true
    } else {
        n % 2 == 0 && is_pow2(n / 2)
    }
}

/// True when `j` lies on the halving path `l, l/2, l/4, ..., 1`.
spec fn on_path(l: int, j: int) -> bool
    decreases l,
{
    if l < 1 {
        false
    } else if j == l {
        true
    } else if l == 1 {
        false
    } else {
        on_path(l / 2, j)
    }
}

/// Two distinct powers of two differ by at least a factor of two.
pub proof fn lemma_pow2_double(a: int, b: int)
    requires
        is_pow2(a),
        is_pow2(b),
        a < b,
    ensures
        2 * a <= b,
    decreases a,
{
    if a > 1 {
        lemma_pow2_double(a / 2, b / 2);
    }
}

/// The least power of two at or above `n` is unique.
pub proof fn lemma_pow2_ceil_unique(a: int, b: int, n: int)
    requires
        is_pow2(a),
        is_pow2(b),
        a >= n,
        b >= n,
        a == 1 || a / 2 < n,
        b == 1 || b / 2 < n,
    ensures
        a == b,
{
    if a < b {
        lemma_pow2_double(a, b);
    }
    if b < a {
        lemma_pow2_double(b, a);
    }
}

pub struct OSTree {
    arr: Vec<i64>,
}

impl OSTree {
    /// Number of leaf slots; always a power of two.
    pub closed spec fn cap(&self) -> int {
        (self.arr@.len() / 2) as int
    }

    /// Value held in slot `p` of the backing array.
    spec fn node(&self, p: int) -> int {
        self.arr@[p] as int
    }

    /// Weight held at leaf `i`.
    pub closed spec fn leaf(&self, i: int) -> int {
        self.node(self.cap() + i)
    }

    /// Sum of the weights of leaves `0 .. i`.
    pub open spec fn prefix(&self, i: int) -> int
        decreases i,
    {
        if i <= 0 {
            0
        } else {
            self.prefix(i - 1) + self.leaf(i - 1)
        }
    }

    /// Total weight: the sum over every leaf.
    pub open spec fn total(&self) -> int {
        self.prefix(self.cap())
    }

    /// The structural invariant: the array holds twice the (power-of-two)
    /// leaf count, every inner slot is the sum of its children, and all
    /// weights are non-negative.
    pub closed spec fn wf(&self) -> bool {
        &&& self.arr@.len() == 2 * self.cap()
        &&& 2 <= self.arr@.len() <= 0x4000_0000
        &&& is_pow2(self.cap())
        &&& self.node(0) == 0
        &&& forall|p: int|
            1 <= p < self.cap() ==> #[trigger] self.node(p) == self.node(2 * p) + self.node(
                2 * p + 1,
            )
        &&& forall|i: int| 0 <= i < self.cap() ==> #[trigger] self.leaf(i) >= 0
    }

    /// Restates one step of `prefix` for callers outside this module.
    pub proof fn lemma_prefix_unfold(&self, i: int)
        requires
            0 <= i,
        ensures
            self.prefix(0) == 0,
            self.prefix(i + 1) == self.prefix(i) + self.leaf(i),
    {
    }

    /// Prefix sums grow monotonically while the weights are non-negative.
    pub proof fn lemma_prefix_mono(&self, i: int, j: int)
        requires
            self.wf(),
            0 <= i <= j <= self.cap(),
        ensures
            self.prefix(i) <= self.prefix(j),
        decreases j - i,
    {
        if i < j {
            self.lemma_prefix_mono(i, j - 1);
            assert(self.leaf(j - 1) >= 0);
        }
    }

    /// A node `q` whose subtree spans `k` leaves holds the sum of the
    /// leaves `q*k - cap .. (q+1)*k - cap`.
    proof fn lemma_node_interval(&self, q: int, k: int)
        requires
            self.wf(),
            1 <= q,
            is_pow2(k),
            q * k >= self.cap(),
            (q + 1) * k <= 2 * self.cap(),
        ensures
            0 <= q * k - self.cap(),
            (q + 1) * k - self.cap() <= self.cap(),
            (q + 1) * k == q * k + k,
            self.node(q) == self.prefix((q + 1) * k - self.cap()) - self.prefix(
                q * k - self.cap(),
            ),
        decreases k,
    {
        assert(k >= 1);
        assert((q + 1) * k == q * k + k) by (nonlinear_arith);
        if k == 1 {
            assert(q * 1 == q && (q + 1) * 1 == q + 1) by (nonlinear_arith);
            let i = q - self.cap();
            assert(self.prefix(i + 1) == self.prefix(i) + self.leaf(i));
            assert(self.node(q) == self.leaf(i));
        } else {
            let h = k / 2;
            assert(k % 2 == 0 && is_pow2(h));
            let cap = self.cap();
            assert(q < cap) by (nonlinear_arith)
                requires
                    q * k >= cap,
                    (q + 1) * k == q * k + k,
                    (q + 1) * k <= 2 * cap,
                    k >= 2,
                    q >= 1,
                    cap >= 1,
            ;
            assert((2 * q) * h == q * k && (2 * q + 1) * h == q * k + h && (2 * q + 2) * h == q * k
                + k) by (nonlinear_arith)
                requires
                    k == 2 * h,
            ;
            self.lemma_node_interval(2 * q, h);
            self.lemma_node_interval(2 * q + 1, h);
            assert(self.node(q) == self.node(2 * q) + self.node(2 * q + 1));
        }
    }

    /// The root slot holds the total weight.
    proof fn lemma_root_total(&self)
        requires
            self.wf(),
        ensures
            self.node(1) == self.total(),
    {
        assert(1 * self.cap() == self.cap() && 2 * self.cap() == self.cap() + self.cap())
            by (nonlinear_arith);
        self.lemma_node_interval(1, self.cap());
    }

    /// Every node has a well-defined span width.
    proof fn lemma_node_width(&self, q: int) -> (k: int)
        requires
            self.wf(),
            1 <= q < 2 * self.cap(),
        ensures
            is_pow2(k),
            1 <= k,
            q * k >= self.cap(),
            (q + 1) * k <= 2 * self.cap(),
        decreases q,
    {
        let cap = self.cap();
        if q == 1 {
            assert(1 * cap == cap && 2 * cap == cap + cap) by (nonlinear_arith);
            cap
        } else {
            let p = q / 2;
            let kp = self.lemma_node_width(p);
            if kp == 1 {
                assert(p * 1 == p) by (nonlinear_arith);
                assert(false);
            }
            assert(kp % 2 == 0 && is_pow2(kp / 2));
            let h = kp / 2;
            assert(q == 2 * p || q == 2 * p + 1);
            assert((2 * p) * h == p * kp && (2 * p + 1) * h == p * kp + h && (2 * p + 2) * h == p
                * kp + kp && (p + 1) * kp == p * kp + kp) by (nonlinear_arith)
                requires
                    kp == 2 * h,
            ;
            h
        }
    }

    /// Every node value lies between zero and the total weight.
    proof fn lemma_node_bounds(&self, q: int)
        requires
            self.wf(),
            1 <= q < 2 * self.cap(),
        ensures
            0 <= self.node(q) <= self.total(),
    {
        let k = self.lemma_node_width(q);
        self.lemma_node_interval(q, k);
        let a = q * k - self.cap();
        let b = (q + 1) * k - self.cap();
        self.lemma_prefix_mono(0, a);
        self.lemma_prefix_mono(a, b);
        self.lemma_prefix_mono(b, self.cap());
    }

    /// Path membership forces `1 <= j <= l`.
    proof fn lemma_path_le(l: int, j: int)
        requires
            on_path(l, j),
        ensures
            1 <= j <= l,
        decreases l,
    {
        if l >= 1 && j != l && l != 1 {
            Self::lemma_path_le(l / 2, j);
        }
    }

    /// A strict path member sits on the path of the half as well.
    proof fn lemma_path_step(l: int, j: int)
        requires
            on_path(l, j),
            j < l,
        ensures
            j <= l / 2,
            on_path(l / 2, j),
        decreases l,
    {
        Self::lemma_path_le(l / 2, j);
    }

    /// The parent of a path member at least 2 is on the path as well.
    proof fn lemma_path_parent(l: int, j: int)
        requires
            on_path(l, j),
            j >= 2,
        ensures
            on_path(l, j / 2),
        decreases l,
    {
        if j == l {
            assert(on_path(l / 2, l / 2));
        } else {
            Self::lemma_path_le(l, j);
            Self::lemma_path_step(l, j);
            Self::lemma_path_parent(l / 2, j);
            Self::lemma_path_le(l / 2, j / 2);
        }
    }

    /// An inner path member passes the path on to one of its children.
    proof fn lemma_path_child(l: int, p: int)
        requires
            on_path(l, p),
            p < l,
        ensures
            on_path(l, 2 * p) || on_path(l, 2 * p + 1),
        decreases l,
    {
        Self::lemma_path_step(l, p);
        if l / 2 == p {
            assert(l == 2 * p || l == 2 * p + 1);
        } else {
            Self::lemma_path_child(l / 2, p);
            if on_path(l / 2, 2 * p) {
                Self::lemma_path_le(l / 2, 2 * p);
            } else {
                Self::lemma_path_le(l / 2, 2 * p + 1);
            }
        }
    }

    /// At most one of the two children of `p` lies on a path.
    proof fn lemma_path_not_both(l: int, p: int)
        requires
            p >= 1,
        ensures
            !(on_path(l, 2 * p) && on_path(l, 2 * p + 1)),
        decreases l,
    {
        if l >= 1 && on_path(l, 2 * p) && on_path(l, 2 * p + 1) {
            if l == 2 * p {
                Self::lemma_path_le(l, 2 * p + 1);
            } else if l == 2 * p + 1 {
                Self::lemma_path_step(l, 2 * p);
                Self::lemma_path_le(l / 2, 2 * p);
            } else {
                Self::lemma_path_le(l, 2 * p);
                Self::lemma_path_le(l, 2 * p + 1);
                Self::lemma_path_step(l, 2 * p);
                Self::lemma_path_step(l, 2 * p + 1);
                Self::lemma_path_not_both(l / 2, p);
            }
        }
    }

    /// Walking up a path only grows the node values.
    proof fn lemma_path_ge(&self, l: int, j: int)
        requires
            self.wf(),
            on_path(l, j),
            1 <= l < 2 * self.cap(),
        ensures
            self.node(j) >= self.node(l),
        decreases l,
    {
        if j != l {
            Self::lemma_path_le(l, j);
            Self::lemma_path_step(l, j);
            let p = l / 2;
            assert(l == 2 * p || l == 2 * p + 1);
            assert(self.node(p) == self.node(2 * p) + self.node(2 * p + 1));
            if l == 2 * p {
                self.lemma_node_bounds(2 * p + 1);
            } else {
                self.lemma_node_bounds(2 * p);
            }
            self.lemma_path_ge(p, j);
        }
    }

    /// Prefixes of two trees that differ by `d` in one leaf only.
    pub proof fn lemma_prefix_shift(t0: &OSTree, t1: &OSTree, idx: int, d: int, i: int)
        requires
            t0.cap() == t1.cap(),
            0 <= idx < t0.cap(),
            t1.leaf(idx) == t0.leaf(idx) + d,
            forall|m: int| 0 <= m < t0.cap() && m != idx ==> t1.leaf(m) == t0.leaf(m),
            0 <= i <= t0.cap(),
        ensures
            t1.prefix(i) == t0.prefix(i) + if i > idx {
                d
            } else {
                0
            },
        decreases i,
    {
        if i > 0 {
            Self::lemma_prefix_shift(t0, t1, idx, d, i - 1);
        }
    }

    /// A fresh tree of at least `n` zero weights.
    pub fn new(n: usize) -> (t: OSTree)
        requires
            n <= 0x1000_0000,
        ensures
            t.wf(),
            is_pow2(t.cap()),
            t.cap() >= n,
            t.cap() == 1 || t.cap() / 2 < n,
            t.cap() <= 0x2000_0000,
            forall|i: int| 0 <= i < t.cap() ==> t.leaf(i) == 0,
            t.total() == 0,
    {
        let mut c: usize = 1;
        while c < n
            invariant
                1 <= c <= 0x2000_0000,
                is_pow2(c as int),
                n <= 0x1000_0000,
                c == 1 || c / 2 < n,
            decreases 2 * n - c,
        {
            c = c * 2;
        }
        let m: usize = c * 2;
        let mut arr: Vec<i64> = Vec::new();
        let mut j: usize = 0;
        while j < m
            invariant
                arr@.len() == j,
                j <= m,
                forall|i: int| 0 <= i < j ==> arr@[i] == 0,
            decreases m - j,
        {
            arr.push(0);
            j = j + 1;
        }
        let t = OSTree { arr };
        proof {
            assert(t.cap() == c);
            assert forall|i: int| 0 <= i <= t.cap() implies t.prefix(i) == 0 by {
                t.lemma_prefix_zero(i);
            }
        }
        t
    }

    /// All-zero weights give a zero total.
    pub proof fn lemma_total_of_zero_leaves(&self)
        requires
            self.wf(),
            forall|i: int| 0 <= i < self.cap() ==> #[trigger] self.leaf(i) == 0,
        ensures
            self.total() == 0,
    {
        self.lemma_prefix_zero(self.cap());
    }

    /// All-zero leaves give zero prefixes.
    proof fn lemma_prefix_zero(&self, i: int)
        requires
            0 <= i <= self.cap(),
            forall|m: int| 0 <= m < self.cap() ==> self.leaf(m) == 0,
        ensures
            self.prefix(i) == 0,
        decreases i,
    {
        if i > 0 {
            self.lemma_prefix_zero(i - 1);
        }
    }

    /// The total weight, read in one step from the root.
    pub fn sum(&self) -> (r: i64)
        requires
            self.wf(),
        ensures
            r == self.total(),
    {
        proof {
            self.lemma_root_total();
        }
        self.arr[1]
    }

    /// The weight of leaf `at`.
    pub fn value_at(&self, at: usize) -> (r: i64)
        requires
            self.wf(),
            at < self.cap(),
        ensures
            r == self.leaf(at as int),
    {
        self.arr[at + self.arr.len() / 2]
    }

    /// Adds `delta` to leaf `idx` and to every slot above it.
    fn add(&mut self, idx: usize, delta: i64)
        requires
            old(self).wf(),
            idx < old(self).cap(),
            0 <= old(self).leaf(idx as int) + delta,
            old(self).total() + delta <= i64::MAX,
        ensures
            final(self).wf(),
            final(self).cap() == old(self).cap(),
            final(self).leaf(idx as int) == old(self).leaf(idx as int) + delta,
            forall|i: int|
                0 <= i < old(self).cap() && i != idx ==> final(self).leaf(i) == old(self).leaf(i),
            final(self).total() == old(self).total() + delta,
    {
        let ghost t0 = *self;
        let ghost l0 = idx + t0.cap();
        let half: usize = self.arr.len() / 2;
        let mut j: usize = idx + half;
        proof {
            assert(on_path(l0, l0));
        }
        while j > 0
            invariant
                t0.wf(),
                self.arr@.len() == t0.arr@.len(),
                l0 == idx + t0.cap(),
                idx < t0.cap(),
                0 <= t0.leaf(idx as int) + delta,
                t0.total() + delta <= i64::MAX,
                j <= l0,
                j > 0 ==> on_path(l0, j as int),
                forall|m: int|
                    0 <= m < t0.arr@.len() ==> #[trigger] self.arr@[m] == if on_path(l0, m) && !(j
                        > 0 && on_path(j as int, m)) {
                        t0.arr@[m] + delta
                    } else {
                        t0.arr@[m] as int
                    },
            decreases j,
        {
            proof {
                assert(on_path(j as int, j as int));
                assert(self.arr@[j as int] == t0.arr@[j as int]);
                OSTree::lemma_path_le(l0, j as int);
                if j as int == l0 {
                    assert(t0.node(l0) == t0.leaf(idx as int));
                } else {
                    t0.lemma_path_ge(l0, j as int);
                    assert(t0.node(l0) == t0.leaf(idx as int));
                }
                t0.lemma_node_bounds(j as int);
                t0.lemma_root_total();
                assert(t0.node(j as int) <= t0.total()) by {
                    t0.lemma_node_bounds(j as int);
                }
            }
            let v = self.arr[j];
            self.arr.set(j, v + delta);
            let ghost jold = j as int;
            j = j / 2;
            proof {
                if j > 0 {
                    OSTree::lemma_path_parent(l0, jold);
                }
                assert forall|m: int| 0 <= m < t0.arr@.len() implies #[trigger] self.arr@[m]
                    == if on_path(l0, m) && !(j > 0 && on_path(j as int, m)) {
                    t0.arr@[m] + delta
                } else {
                    t0.arr@[m] as int
                } by {
                    if m == jold {
                        if j > 0 && on_path(j as int, m) {
                            OSTree::lemma_path_le(j as int, m);
                        }
                    } else if j > 0 && (on_path(jold, m) != on_path(j as int, m)) {
                        assert(on_path(jold, m) == (m == jold || on_path(jold / 2, m)));
                    }
                }
            }
        }
        proof {
            let t1 = *self;
            assert(t1.cap() == t0.cap());
            assert forall|i: int| 0 <= i < t0.cap() && i != idx implies t1.leaf(i) == t0.leaf(i) by {
                if on_path(l0, t0.cap() + i) {
                    if t0.cap() + i != l0 {
                        OSTree::lemma_path_le(l0, t0.cap() + i);
                        OSTree::lemma_path_step(l0, t0.cap() + i);
                    }
                }
            };
            assert(t1.leaf(idx as int) == t0.leaf(idx as int) + delta);
            // well-formedness of the updated tree
            assert forall|p: int|
                1 <= p < t1.cap() implies #[trigger] t1.node(p) == t1.node(2 * p) + t1.node(
                2 * p + 1,
            ) by {
                assert(t0.node(p) == t0.node(2 * p) + t0.node(2 * p + 1));
                if on_path(l0, p) {
                    OSTree::lemma_path_le(l0, p);
                    if p == l0 {
                        assert(l0 < t0.cap());
                        assert(false);
                    }
                    Self::lemma_path_child(l0, p);
                    Self::lemma_path_not_both(l0, p);
                } else {
                    if on_path(l0, 2 * p) {
                        Self::lemma_path_parent(l0, 2 * p);
                    }
                    if on_path(l0, 2 * p + 1) {
                        Self::lemma_path_parent(l0, 2 * p + 1);
                    }
                }
            };
            assert forall|i: int| 0 <= i < t1.cap() implies #[trigger] t1.leaf(i) >= 0 by {
                if i != idx {
                    assert(t0.leaf(i) >= 0);
                }
            };
            assert(!on_path(l0, 0)) by {
                if on_path(l0, 0) {
                    Self::lemma_path_le(l0, 0);
                }
            };
            assert(t1.wf());
            Self::lemma_prefix_shift(&t0, &t1, idx as int, delta as int, t0.cap());
        }
    }

    /// Replaces the weight at `idx` by `val`.
    pub fn assign(&mut self, idx: usize, val: i64)
        requires
            old(self).wf(),
            idx < old(self).cap(),
            val >= 0,
            old(self).total() - old(self).leaf(idx as int) + val <= i64::MAX,
        ensures
            final(self).wf(),
            final(self).cap() == old(self).cap(),
            final(self).leaf(idx as int) == val,
            forall|i: int|
                0 <= i < old(self).cap() && i != idx ==> final(self).leaf(i) == old(self).leaf(i),
            final(self).total() == old(self).total() - old(self).leaf(idx as int) + val,
    {
        proof {
            old(self).lemma_prefix_mono(0, idx as int);
            old(self).lemma_prefix_mono(idx + 1, old(self).cap());
            old(self).lemma_prefix_unfold(idx as int);
        }
        let v = self.value_at(idx);
        self.add(idx, val - v);
    }

    /// Walks down from the root to the leaf whose cumulative-weight
    /// interval contains `val`.
    pub fn rank(&self, val: i64) -> (r: usize)
        requires
            self.wf(),
            0 <= val < self.total(),
        ensures
            r < self.cap(),
            self.leaf(r as int) > 0,
            self.prefix(r as int) <= val < self.prefix(r as int) + self.leaf(r as int),
    {
        let c: usize = self.arr.len();
        let mut p: usize = 2;
        let mut v: i64 = val;
        let ghost orig = val as int;
        let ghost mut k: int = self.cap();
        proof {
            self.lemma_root_total();
            assert(1 * k == k && 2 * k == k + k) by (nonlinear_arith);
        }
        while p < c
            invariant
                self.wf(),
                c == 2 * self.cap(),
                is_pow2(k),
                1 <= k <= self.cap(),
                p % 2 == 0,
                2 <= p <= 2 * c,
                (p as int / 2) * k >= self.cap(),
                (p as int / 2 + 1) * k <= 2 * self.cap(),
                0 <= v,
                (v as int) < self.node(p as int / 2),
                self.prefix((p as int / 2) * k - self.cap()) == orig - v,
            decreases k,
        {
            let ghost q = p as int / 2;
            let ghost h = k / 2;
            proof {
                self.lemma_node_interval(q, k);
                // q is internal, so k >= 2 and the children cover halves
                if k == 1 {
                    assert(q * 1 == q && (q + 1) * 1 == q + 1) by (nonlinear_arith);
                    assert(p >= c);
                    assert(false);
                }
                assert(k % 2 == 0 && is_pow2(h));
                assert((2 * q) * h == q * k && (2 * q + 1) * h == q * k + h && (2 * q + 2) * h == q
                    * k + k) by (nonlinear_arith)
                    requires
                        k == 2 * h,
                ;
                self.lemma_node_interval(2 * q, h);
                self.lemma_node_interval(2 * q + 1, h);
                assert(self.node(q) == self.node(2 * q) + self.node(2 * q + 1));
                assert(self.arr@[p as int] == self.node(2 * q));
            }
            if self.arr[p] <= v {
                v = v - self.arr[p];
                p = p + 1;
                proof {
                    assert(p as int == 2 * q + 1);
                }
            }
            proof {
                assert(p as int == 2 * q || p as int == 2 * q + 1);
            }
            p = p * 2;
            proof {
                k = h;
                assert(p as int / 2 == 2 * q || p as int / 2 == 2 * q + 1);
            }
        }
        proof {
            let q = p as int / 2;
            if k != 1 {
                assert(q < self.cap()) by (nonlinear_arith)
                    requires
                        q * k >= self.cap(),
                        (q + 1) * k <= 2 * self.cap(),
                        k >= 2,
                        q >= 1,
                        self.cap() >= 1,
                ;
                assert(false);
            }
            assert(q * 1 == q && (q + 1) * 1 == q + 1) by (nonlinear_arith);
            assert(self.cap() <= q < 2 * self.cap());
            assert(self.node(q) == self.leaf(q - self.cap()));
            assert(self.prefix(q - self.cap()) == orig - v);
        }
        (p - c) / 2
    }

    /// Scales every weight by the non-negative factor `coef`.
    pub fn multiply(&mut self, coef: i64)
        requires
            old(self).wf(),
            coef >= 0,
            old(self).total() * coef <= i64::MAX,
        ensures
            final(self).wf(),
            final(self).cap() == old(self).cap(),
            forall|i: int|
                0 <= i < old(self).cap() ==> final(self).leaf(i) == old(self).leaf(i) * coef,
            final(self).total() == old(self).total() * coef,
    {
        let ghost t0 = *self;
        let n = self.arr.len();
        let mut j: usize = 0;
        proof {
            t0.lemma_root_total();
        }
        while j < n
            invariant
                t0.wf(),
                coef >= 0,
                t0.total() * coef <= i64::MAX,
                t0.node(1) == t0.total(),
                n == t0.arr@.len(),
                j <= n,
                self.arr@.len() == n,
                forall|m: int| 0 <= m < j ==> self.arr@[m] == t0.arr@[m] * coef,
                forall|m: int| j <= m < n ==> self.arr@[m] == t0.arr@[m],
            decreases n - j,
        {
            proof {
                if j >= 1 {
                    t0.lemma_node_bounds(j as int);
                    assert(0 <= t0.node(j as int) * coef <= t0.total() * coef) by (nonlinear_arith)
                        requires
                            0 <= t0.node(j as int) <= t0.total(),
                            coef >= 0,
                    ;
                }
            }
            let v = self.arr[j];
            self.arr.set(j, v * coef);
            j = j + 1;
        }
        proof {
            let t1 = *self;
            assert(t1.cap() == t0.cap());
            assert forall|p: int|
                1 <= p < t1.cap() implies #[trigger] t1.node(p) == t1.node(2 * p) + t1.node(
                2 * p + 1,
            ) by {
                assert(t0.node(p) == t0.node(2 * p) + t0.node(2 * p + 1));
                assert((t0.node(2 * p) + t0.node(2 * p + 1)) * coef == t0.node(2 * p) * coef
                    + t0.node(2 * p + 1) * coef) by (nonlinear_arith);
            };
            assert forall|i: int| 0 <= i < t1.cap() implies #[trigger] t1.leaf(i) >= 0 by {
                assert(t0.leaf(i) >= 0);
                assert(t0.leaf(i) * coef >= 0) by (nonlinear_arith)
                    requires
                        t0.leaf(i) >= 0,
                        coef >= 0,
                ;
            };
            assert(t1.wf());
            Self::lemma_prefix_scale(&t0, &t1, coef as int, t0.cap());
        }
    }

    /// Prefixes scale with the leaves.
    proof fn lemma_prefix_scale(t0: &OSTree, t1: &OSTree, c: int, i: int)
        requires
            t0.cap() == t1.cap(),
            forall|m: int| 0 <= m < t0.cap() ==> t1.leaf(m) == t0.leaf(m) * c,
            0 <= i <= t0.cap(),
        ensures
            t1.prefix(i) == t0.prefix(i) * c,
        decreases i,
    {
        if i > 0 {
            Self::lemma_prefix_scale(t0, t1, c, i - 1);
            assert((t0.prefix(i - 1) + t0.leaf(i - 1)) * c == t0.prefix(i - 1) * c + t0.leaf(i - 1)
                * c) by (nonlinear_arith);
        }
    }

    /// The leaf capacity of a well-formed tree is bounded.
    pub proof fn lemma_cap_bound(&self)
        requires
            self.wf(),
        ensures
            1 <= self.cap() <= 0x2000_0000,
    {
    }

    /// The total weight always fits the root slot.
    pub proof fn lemma_total_bound(&self)
        requires
            self.wf(),
        ensures
            0 <= self.total() <= i64::MAX,
    {
        self.lemma_root_total();
        self.lemma_prefix_mono(0, self.cap());
    }

    /// A single weight never exceeds the total.
    pub proof fn lemma_leaf_le_total(&self, i: int)
        requires
            self.wf(),
            0 <= i < self.cap(),
        ensures
            0 <= self.leaf(i) <= self.total(),
    {
        self.lemma_prefix_mono(0, i);
        self.lemma_prefix_mono(i + 1, self.cap());
    }

    /// A zero prefix sum forces every weight below it to zero.
    pub proof fn lemma_zero_prefix_zero_leaves(&self, k: int)
        requires
            self.wf(),
            0 <= k <= self.cap(),
            self.prefix(k) == 0,
        ensures
            forall|i: int| 0 <= i < k ==> #[trigger] self.leaf(i) == 0,
    {
        assert forall|i: int| 0 <= i < k implies #[trigger] self.leaf(i) == 0 by {
            self.lemma_prefix_mono(0, i);
            self.lemma_prefix_mono(i + 1, k);
            self.lemma_prefix_unfold(i);
        };
    }

    /// A zero total forces every weight to zero.
    pub proof fn lemma_total_zero(&self, i: int)
        requires
            self.wf(),
            self.total() == 0,
            0 <= i < self.cap(),
        ensures
            self.leaf(i) == 0,
    {
        self.lemma_leaf_le_total(i);
    }

    /// Bounded weights give a bounded total.
    pub proof fn lemma_prefix_bound(&self, i: int, b: int)
        requires
            self.wf(),
            0 <= i <= self.cap(),
            b >= 0,
            forall|m: int| 0 <= m < i ==> #[trigger] self.leaf(m) <= b,
        ensures
            self.prefix(i) <= i * b,
        decreases i,
    {
        if i > 0 {
            self.lemma_prefix_bound(i - 1, b);
            assert((i - 1) * b + b == i * b) by (nonlinear_arith);
        }
    }

    /// Pointwise dominance of the weights carries over to the prefix
    /// sums, with a reserved gap of `d` at one index.
    pub proof fn lemma_prefix_le_gap(t1: &OSTree, t2: &OSTree, idx: int, d: int, i: int)
        requires
            t1.cap() == t2.cap(),
            0 <= idx < t1.cap(),
            d >= 0,
            forall|m: int| 0 <= m < i ==> #[trigger] t1.leaf(m) <= t2.leaf(m),
            idx < i ==> t1.leaf(idx) + d <= t2.leaf(idx),
            0 <= i <= t1.cap(),
        ensures
            t1.prefix(i) + if i > idx {
                d
            } else {
                0
            } <= t2.prefix(i),
        decreases i,
    {
        if i > 0 {
            Self::lemma_prefix_le_gap(t1, t2, idx, d, i - 1);
        }
    }

    /// Law: a weight found by `rank` is unique — the half-open
    /// cumulative-weight intervals of the leaves never overlap, so they
    /// partition `0 .. total()` exactly.
    pub proof fn lemma_interval_unique(&self, t: int, i: int, j: int)
        requires
            self.wf(),
            0 <= i < self.cap(),
            0 <= j < self.cap(),
            self.prefix(i) <= t < self.prefix(i) + self.leaf(i),
            self.prefix(j) <= t < self.prefix(j) + self.leaf(j),
        ensures
            i == j,
    {
        if i < j {
            self.lemma_prefix_mono(i + 1, j);
        }
        if j < i {
            self.lemma_prefix_mono(j + 1, i);
        }
    }

    /// Law: the cumulative-weight intervals leave no gaps — every offset
    /// below the total lies in the interval of some leaf of positive
    /// weight at or after `j`.
    pub proof fn lemma_interval_exists(&self, t: int, j: int) -> (i: int)
        requires
            self.wf(),
            0 <= j <= self.cap(),
            self.prefix(j) <= t < self.total(),
        ensures
            j <= i < self.cap(),
            self.leaf(i) > 0,
            self.prefix(i) <= t < self.prefix(i) + self.leaf(i),
        decreases self.cap() - j,
    {
        if j == self.cap() {
            assert(false);
            0
        } else if self.prefix(j) + self.leaf(j) > t {
            j
        } else {
            self.lemma_interval_exists(t, j + 1)
        }
    }
}

} // verus!
