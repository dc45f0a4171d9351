//! Entries, scores and the progress table.
//!
//! Each drill item is tracked by a [`ProgressEntry`] holding an integer
//! "distrust" score between 0 (fully trusted) and [`UNIT`] (never seen)
//! and a `pass` flag that buckets the item as currently known or in need
//! of review.  The [`ProgressTable`] owns one entry per catalog index and
//! two order-statistics trees, one per bucket, that always mirror the
//! entries: the tree of the entry's bucket carries its distrust, the
//! other tree carries zero.  That dual-tree invariant is what makes
//! weighted sampling of either bucket possible in logarithmic time.
//!
//! The time-decayed "unit" score — the distrust assigned to an unseen
//! item at the table's current age — follows an exponential curve over
//! real numbers.  This module keeps the curve's integer inputs and
//! outputs (ages, score arguments, the current unit) and leaves the
//! curve's evaluation to the driver, which hands every freshly computed
//! unit score in as a plain integer.

use crate::ostree::OSTree;
use crate::selector::Selector;
use vstd::prelude::*;

verus! {

/// The largest distrust score: total distrust of a never-seen item.
pub const UNIT: i64 = 10000;

/// An inverse-confidence score; meaningful values lie in `0 ..= UNIT`.
#[derive(Clone, Copy, Debug, PartialEq, Eq, Structural)]
pub struct Score(pub i64);

/// Static parameters of the exponential decay curve.  The degrade
/// factor is kept in millionths, so `800_000` stands for `0.8`.
#[derive(Clone, Copy, Debug, PartialEq, Eq, Structural)]
pub struct ScoreArgs {
    pub degrade_factor_micro: i64,
    pub origin: Score,
    pub target: Score,
}

/// A score that lies in the meaningful range.
pub open spec fn valid_score(s: int) -> bool {
    0 <= s <= UNIT
}

/// One drill item: a prompt and its expected answer.
#[derive(Clone, Debug, Hash, PartialEq, Eq)]
pub struct TableEntry {
    pub lhs: String,
    pub rhs: String,
}

/// Content equality of two drill items.
pub open spec fn same_pair(a: TableEntry, b: TableEntry) -> bool {
    a.lhs@ == b.lhs@ && a.rhs@ == b.rhs@
}

impl TableEntry {
    /// True exactly when the given answer matches the expected one.
    pub fn assess(&self, user_input: String) -> (r: bool)
        ensures
            r == (user_input@ == self.rhs@),
    {
        user_input == self.rhs
    }

    /// An equal copy.
    pub fn duplicate(&self) -> (r: TableEntry)
        ensures
            r == *self,
    {
        TableEntry { lhs: self.lhs.clone(), rhs: self.rhs.clone() }
    }

    /// Content equality, decided.
    pub fn same_as(&self, other: &TableEntry) -> (r: bool)
        ensures
            r == same_pair(*self, *other),
    {
        self.lhs == other.lhs && self.rhs == other.rhs
    }
}

/// Progress of one drill item.
#[derive(Clone, Copy, Debug, PartialEq, Eq, Structural)]
pub struct ProgressEntry {
    /// Distrust between 0 and `UNIT`.
    pub distrust: Score,
    pub pass: bool,
}

/// An entry whose distrust lies in the meaningful range.
pub open spec fn valid_entry(e: ProgressEntry) -> bool {
    valid_score(e.distrust.0 as int)
}

/// The weight an entry contributes to the passed pool.
pub open spec fn pass_weight(e: ProgressEntry) -> int {
    if e.pass {
        e.distrust.0 as int
    } else {
        0
    }
}

/// The weight an entry contributes to the failed pool.
pub open spec fn fail_weight(e: ProgressEntry) -> int {
    if e.pass {
        0
    } else {
        e.distrust.0 as int
    }
}

/// How many entries are currently bucketed as failed.
pub open spec fn count_failed(s: Seq<ProgressEntry>) -> int
    decreases s.len(),
{
    if s.len() == 0 {
        0
    } else {
        count_failed(s.drop_last()) + if s.last().pass {
            0int
        } else {
            1int
        }
    }
}

proof fn lemma_count_failed_le(s: Seq<ProgressEntry>)
    ensures
        0 <= count_failed(s) <= s.len(),
    decreases s.len(),
{
    if s.len() > 0 {
        lemma_count_failed_le(s.drop_last());
    }
}

proof fn lemma_count_failed_push(s: Seq<ProgressEntry>, e: ProgressEntry)
    ensures
        count_failed(s.push(e)) == count_failed(s) + if e.pass {
            0int
        } else {
            1int
        },
{
    assert(s.push(e).drop_last() =~= s);
    assert(s.push(e).last() == e);
}

proof fn lemma_count_failed_update(s: Seq<ProgressEntry>, i: int, e: ProgressEntry)
    requires
        0 <= i < s.len(),
    ensures
        count_failed(s.update(i, e)) == count_failed(s) - (if s[i].pass {
            0int
        } else {
            1int
        }) + (if e.pass {
            0int
        } else {
            1int
        }),
    decreases s.len(),
{
    let t = s.update(i, e);
    if i == s.len() - 1 {
        assert(t.drop_last() =~= s.drop_last());
        assert(t.last() == e);
    } else {
        assert(t.drop_last() =~= s.drop_last().update(i, e));
        assert(t.last() == s.last());
        lemma_count_failed_update(s.drop_last(), i, e);
    }
}

proof fn lemma_count_failed_at(s: Seq<ProgressEntry>, i: int)
    requires
        0 <= i < s.len(),
        !s[i].pass,
    ensures
        count_failed(s) >= 1,
    decreases s.len(),
{
    if i < s.len() - 1 {
        lemma_count_failed_at(s.drop_last(), i);
        lemma_count_failed_le(s.drop_last());
    } else {
        lemma_count_failed_le(s.drop_last());
    }
}

/// `r` is the floor of the square root of `x`.
pub open spec fn is_isqrt(r: int, x: int) -> bool {
    0 <= r && r * r <= x && x < (r + 1) * (r + 1)
}

/// The floor of a square root is unique.
pub proof fn lemma_isqrt_unique(r1: int, r2: int, x: int)
    requires
        is_isqrt(r1, x),
        is_isqrt(r2, x),
    ensures
        r1 == r2,
{
    if r1 < r2 {
        assert((r1 + 1) * (r1 + 1) <= r2 * r2) by (nonlinear_arith)
            requires
                0 <= r1 < r2,
        ;
    }
    if r2 < r1 {
        assert((r2 + 1) * (r2 + 1) <= r1 * r1) by (nonlinear_arith)
            requires
                0 <= r2 < r1,
        ;
    }
}

/// Floor of the square root of a score product, by bisection.
fn isqrt(x: i64) -> (r: i64)
    requires
        0 <= x <= UNIT * UNIT,
    ensures
        is_isqrt(r as int, x as int),
{
    let mut lo: i64 = 0;
    let mut hi: i64 = UNIT + 1;
    proof {
        assert((UNIT + 1) * (UNIT + 1) > UNIT * UNIT) by (nonlinear_arith);
    }
    while lo + 1 < hi
        invariant
            0 <= lo < hi <= UNIT + 1,
            lo * lo <= x,
            x < hi * hi,
        decreases hi - lo,
    {
        let mid = lo + (hi - lo) / 2;
        proof {
            assert(mid * mid <= 10001 * 10001) by (nonlinear_arith)
                requires
                    0 <= mid <= 10001,
            ;
        }
        if mid * mid <= x {
            lo = mid;
        } else {
            hi = mid;
        }
    }
    lo
}

/// What recording an outcome does to the entries: the entry at `idx`
/// takes the new bucket and the blended distrust — halved (rounded up)
/// on a pass, regressed to the square-root blend with the unit score on
/// a fail — and every other entry stays as it was.
pub open spec fn set_post(
    pre: Seq<ProgressEntry>,
    post: Seq<ProgressEntry>,
    idx: int,
    pass: bool,
    unit: int,
) -> bool {
    &&& post.len() == pre.len()
    &&& forall|i: int| 0 <= i < pre.len() && i != idx ==> post[i] == pre[i]
    &&& post[idx].pass == pass
    &&& (pass ==> post[idx].distrust.0 == (pre[idx].distrust.0 + 1) / 2)
    &&& (!pass ==> is_isqrt(post[idx].distrust.0 as int, pre[idx].distrust.0 * unit))
}

/// A pool tree whose weights are scores has a safely bounded total.
proof fn lemma_tree_total_bounded(t: &OSTree)
    requires
        t.wf(),
        t.cap() <= 0x2000_0000,
        forall|i: int| 0 <= i < t.cap() ==> #[trigger] t.leaf(i) <= UNIT,
    ensures
        0 <= t.total() <= 0x2000_0000 * 10000,
{
    t.lemma_cap_bound();
    t.lemma_prefix_unfold(0);
    t.lemma_prefix_bound(t.cap(), UNIT as int);
    t.lemma_prefix_mono(0, t.cap());
    assert(t.cap() * 10000 <= 0x2000_0000 * 10000) by (nonlinear_arith)
        requires
            0 <= t.cap() <= 0x2000_0000,
    ;
}

/// Two table states that agree on every entry, every pool weight and
/// all bookkeeping: what sampling leaves behind.
pub open spec fn table_preserved(pre: ProgressTable, post: ProgressTable) -> bool {
    &&& post@ == pre@
    &&& post.spec_capacity() == pre.spec_capacity()
    &&& post.spec_age() == pre.spec_age()
    &&& post.spec_args() == pre.spec_args()
    &&& post.spec_unit() == pre.spec_unit()
    &&& post.pool_cap() == pre.pool_cap()
    &&& forall|b: bool, i: int|
        0 <= i < pre.pool_cap() ==> #[trigger] post.pool_weight(b, i) == pre.pool_weight(b, i)
    &&& forall|b: bool| #[trigger] post.pool_total(b) == pre.pool_total(b)
}

/// True when some drawn pair records the leaf index `i`.
spec fn id_in(s: Seq<(usize, i64)>, i: int) -> bool {
    exists|j: int| 0 <= j < s.len() && s[j].0 as int == i
}

/// Weighted sampling without replacement from one pool tree: draw a
/// target below the remaining total, map it to a leaf, remember and
/// zero that leaf, and at the end restore every zeroed weight.
fn select_from_tree<S: Selector>(tree: &mut OSTree, n: usize, sel: &mut S) -> (r: Vec<usize>)
    requires
        old(tree).wf(),
    ensures
        final(tree).wf(),
        final(tree).cap() == old(tree).cap(),
        forall|i: int|
            0 <= i < old(tree).cap() ==> #[trigger] final(tree).leaf(i) == old(tree).leaf(i),
        final(tree).total() == old(tree).total(),
        r@.len() <= n,
        forall|j1: int, j2: int| 0 <= j1 < j2 < r@.len() ==> r@[j1] != r@[j2],
        forall|j: int|
            0 <= j < r@.len() ==> (#[trigger] r@[j] as int) < old(tree).cap() && old(tree).leaf(
                r@[j] as int,
            ) > 0,
        r@.len() < n ==> forall|i: int|
            0 <= i < old(tree).cap() && old(tree).leaf(i) > 0 ==> exists|j: int|
                0 <= j < r@.len() && r@[j] as int == i,
        n > 0 && old(tree).total() > 0 ==> r@.len() > 0,
        old(sel).spec_is_zero() ==> forall|j1: int, j2: int|
            0 <= j1 < j2 < r@.len() ==> r@[j1] < r@[j2],
        old(sel).spec_is_zero() ==> forall|j: int, i: int|
            0 <= j < r@.len() && 0 <= i < #[trigger] r@[j] && #[trigger] old(tree).leaf(i) > 0
                ==> exists|j2: int| 0 <= j2 < j && r@[j2] as int == i,
{
    let ghost t0 = *tree;
    let ghost zsel = sel.spec_is_zero();
    let mut drawn: Vec<(usize, i64)> = Vec::new();
    let mut picked: Vec<usize> = Vec::new();
    let mut exhausted = false;
    let mut count: usize = 0;
    while count < n && !exhausted
        invariant
            t0.wf(),
            tree.wf(),
            tree.cap() == t0.cap(),
            count == drawn@.len(),
            picked@.len() == count,
            count <= n,
            forall|j: int| 0 <= j < count ==> #[trigger] picked@[j] == drawn@[j].0,
            forall|j1: int, j2: int| 0 <= j1 < j2 < count ==> drawn@[j1].0 != drawn@[j2].0,
            forall|j: int|
                0 <= j < count ==> (#[trigger] drawn@[j]).0 < t0.cap() && drawn@[j].1 == t0.leaf(
                    drawn@[j].0 as int,
                ) && drawn@[j].1 > 0 && tree.leaf(drawn@[j].0 as int) == 0,
            forall|i: int|
                0 <= i < t0.cap() ==> #[trigger] tree.leaf(i) == t0.leaf(i) || tree.leaf(i) == 0,
            forall|i: int|
                0 <= i < t0.cap() && !id_in(drawn@, i) ==> #[trigger] tree.leaf(i) == t0.leaf(i),
            exhausted ==> tree.total() == 0,
            exhausted && count == 0 ==> t0.total() == 0,
            zsel ==> sel.spec_is_zero(),
            zsel ==> forall|j1: int, j2: int|
                0 <= j1 < j2 < count ==> drawn@[j1].0 < drawn@[j2].0,
            zsel && count > 0 ==> forall|i: int|
                0 <= i < drawn@[count - 1].0 && t0.leaf(i) > 0 ==> id_in(drawn@, i),
        decreases n - count, (if exhausted { 0int } else { 1int }),
    {
        let s = tree.sum();
        proof {
            tree.lemma_total_bound();
        }
        if s == 0 {
            exhausted = true;
            proof {
                if count == 0 {
                    t0.lemma_cap_bound();
                    OSTree::lemma_prefix_shift(tree, &t0, 0, 0, t0.cap());
                }
            }
        } else {
            let target = sel.pick(s);
            let idx = tree.rank(target);
            let v = tree.value_at(idx);
            proof {
                if zsel {
                    // a zero draw lands on the lowest-indexed positive
                    // weight: everything below it is already zeroed,
                    // which for the zero selector means already drawn
                    tree.lemma_prefix_unfold(0);
                    tree.lemma_prefix_mono(0, idx as int);
                    tree.lemma_zero_prefix_zero_leaves(idx as int);
                    assert forall|i: int|
                        0 <= i < idx && t0.leaf(i) > 0 implies id_in(drawn@, i) by {
                        assert(tree.leaf(i) == 0);
                    };
                    if count > 0 && idx < drawn@[count as int - 1].0 {
                        assert(tree.leaf(idx as int) == t0.leaf(idx as int)) by {
                            if id_in(drawn@, idx as int) {
                                let j = choose|j: int|
                                    0 <= j < drawn@.len() && drawn@[j].0 as int == idx as int;
                                assert(tree.leaf(drawn@[j].0 as int) == 0);
                            }
                        };
                        assert(id_in(drawn@, idx as int));
                        assert(false);
                    }
                }
                if id_in(drawn@, idx as int) {
                    let j = choose|j: int|
                        0 <= j < drawn@.len() && drawn@[j].0 as int == idx as int;
                    assert(tree.leaf(drawn@[j].0 as int) == 0);
                    assert(false);
                }
                tree.lemma_total_bound();
            }
            let ghost d_old = drawn@;
            drawn.push((idx, v));
            picked.push(idx);
            tree.assign(idx, 0);
            count = count + 1;
            proof {
                assert forall|i: int|
                    0 <= i < t0.cap() && !id_in(drawn@, i) implies #[trigger] tree.leaf(i)
                    == t0.leaf(i) by {
                    assert(drawn@[drawn@.len() - 1].0 as int == idx as int);
                    if i != idx {
                        if id_in(d_old, i) {
                            let j = choose|j: int| 0 <= j < d_old.len() && d_old[j].0 as int == i;
                            assert(drawn@[j].0 as int == i);
                        }
                    }
                };
                if zsel {
                    assert forall|i: int|
                        0 <= i < drawn@[count as int - 1].0 && t0.leaf(i) > 0 implies id_in(
                        drawn@,
                        i,
                    ) by {
                        if id_in(d_old, i) {
                            let j = choose|j: int| 0 <= j < d_old.len() && d_old[j].0 as int == i;
                            assert(drawn@[j].0 as int == i);
                        }
                    };
                }
            }
        }
    }
    proof {
        if count < n {
            assert forall|i: int|
                0 <= i < t0.cap() && t0.leaf(i) > 0 implies id_in(drawn@, i) by {
                if !id_in(drawn@, i) {
                    tree.lemma_total_zero(i);
                }
            };
        }
    }
    let m = drawn.len();
    let mut j: usize = 0;
    while j < m
        invariant
            t0.wf(),
            tree.wf(),
            tree.cap() == t0.cap(),
            j <= m,
            m == drawn@.len(),
            picked@.len() == m,
            forall|jj: int| 0 <= jj < m ==> #[trigger] picked@[jj] == drawn@[jj].0,
            forall|j1: int, j2: int| 0 <= j1 < j2 < m ==> drawn@[j1].0 != drawn@[j2].0,
            forall|jj: int|
                0 <= jj < m ==> (#[trigger] drawn@[jj]).0 < t0.cap() && drawn@[jj].1 == t0.leaf(
                    drawn@[jj].0 as int,
                ) && drawn@[jj].1 > 0,
            forall|jj: int| j <= jj < m ==> #[trigger] tree.leaf(drawn@[jj].0 as int) == 0,
            forall|jj: int|
                0 <= jj < j ==> #[trigger] tree.leaf(drawn@[jj].0 as int) == t0.leaf(
                    drawn@[jj].0 as int,
                ),
            forall|i: int|
                0 <= i < t0.cap() ==> #[trigger] tree.leaf(i) == t0.leaf(i) || tree.leaf(i) == 0,
            forall|i: int|
                0 <= i < t0.cap() && !id_in(drawn@, i) ==> #[trigger] tree.leaf(i) == t0.leaf(i),
        decreases m - j,
    {
        let pair = drawn[j];
        let idx = pair.0;
        let v = pair.1;
        proof {
            assert forall|mm: int| 0 <= mm < t0.cap() implies #[trigger] tree.leaf(mm) <= t0.leaf(
                mm,
            ) by {};
            OSTree::lemma_prefix_le_gap(tree, &t0, idx as int, v as int, t0.cap());
            t0.lemma_total_bound();
        }
        tree.assign(idx, v);
        j = j + 1;
    }
    proof {
        assert forall|i: int| 0 <= i < t0.cap() implies #[trigger] tree.leaf(i) == t0.leaf(i) by {
            if id_in(drawn@, i) {
                let jj = choose|jj: int| 0 <= jj < drawn@.len() && drawn@[jj].0 as int == i;
                assert(tree.leaf(drawn@[jj].0 as int) == t0.leaf(drawn@[jj].0 as int));
            }
        };
        t0.lemma_cap_bound();
        OSTree::lemma_prefix_shift(tree, &t0, 0, 0, t0.cap());
        assert forall|j1: int, j2: int| 0 <= j1 < j2 < picked@.len() implies picked@[j1]
            != picked@[j2] by {};
        assert forall|jj: int|
            0 <= jj < picked@.len() implies (#[trigger] picked@[jj] as int) < t0.cap()
            && t0.leaf(picked@[jj] as int) > 0 by {};
        if picked@.len() < n {
            assert forall|i: int|
                0 <= i < t0.cap() && t0.leaf(i) > 0 implies exists|j2: int|
                0 <= j2 < picked@.len() && picked@[j2] as int == i by {
                assert(id_in(drawn@, i));
                let j2 = choose|j2: int| 0 <= j2 < drawn@.len() && drawn@[j2].0 as int == i;
                assert(picked@[j2] == drawn@[j2].0);
            };
        }
        if zsel {
            assert forall|j: int, i: int|
                0 <= j < picked@.len() && 0 <= i < #[trigger] picked@[j] && #[trigger] t0.leaf(i)
                    > 0 implies exists|j2: int| 0 <= j2 < j && picked@[j2] as int == i by {
                assert(picked@[j] == drawn@[j].0);
                if j < drawn@.len() - 1 {
                    assert(drawn@[j].0 < drawn@[drawn@.len() - 1].0);
                }
                assert(id_in(drawn@, i));
                let j2 = choose|j2: int| 0 <= j2 < drawn@.len() && drawn@[j2].0 as int == i;
                if j2 > j {
                    assert(drawn@[j].0 < drawn@[j2].0);
                }
                assert(j2 < j);
                assert(picked@[j2] == drawn@[j2].0);
            };
        }
    }
    picked
}

/// Raised when supplying entries beyond the table's capacity.
pub struct OutOfRangeError;

/// Marker type kept alongside the score constants.
pub struct UnitConstants {}

/// The progress table: one entry per catalog index plus the two pool
/// trees, the decay bookkeeping and the current unit score.
pub struct ProgressTable {
    entries: Vec<ProgressEntry>,
    capacity: usize,
    cnt_failed: usize,
    tree_passed: OSTree,
    tree_failed: OSTree,
    age: i32,
    score_args: ScoreArgs,
    unit: Score,
}

impl View for ProgressTable {
    type V = Seq<ProgressEntry>;

    closed spec fn view(&self) -> Seq<ProgressEntry> {
        self.entries@
    }
}

impl ProgressTable {
    /// Declared capacity: how many entries the table may ever hold.
    pub closed spec fn spec_capacity(&self) -> int {
        self.capacity as int
    }

    /// Current decay age.
    pub closed spec fn spec_age(&self) -> int {
        self.age as int
    }

    /// The decay-curve parameters.
    pub closed spec fn spec_args(&self) -> ScoreArgs {
        self.score_args
    }

    /// The current unit score.
    pub closed spec fn spec_unit(&self) -> Score {
        self.unit
    }

    /// Leaf capacity of the two pool trees.
    pub closed spec fn pool_cap(&self) -> int {
        self.tree_passed.cap()
    }

    /// The weight of index `i` in the chosen pool.
    pub closed spec fn pool_weight(&self, pass: bool, i: int) -> int {
        if pass {
            self.tree_passed.leaf(i)
        } else {
            self.tree_failed.leaf(i)
        }
    }

    /// The total weight of the chosen pool.
    pub closed spec fn pool_total(&self, pass: bool) -> int {
        if pass {
            self.tree_passed.total()
        } else {
            self.tree_failed.total()
        }
    }

    /// The table invariant.  Besides machine bounds it states the
    /// dual-tree property: each entry's distrust is mirrored in exactly
    /// the tree of its bucket, and the failed-entry counter is exact.
    pub closed spec fn wf(&self) -> bool {
        &&& self.tree_passed.wf()
        &&& self.tree_failed.wf()
        &&& self.tree_failed.cap() == self.tree_passed.cap()
        &&& self.entries@.len() <= self.capacity <= self.tree_passed.cap()
        &&& self.capacity <= 0x1000_0000
        &&& self.tree_passed.cap() <= 0x2000_0000
        &&& valid_score(self.unit.0 as int)
        &&& self.cnt_failed == count_failed(self.entries@)
        &&& forall|i: int| 0 <= i < self.entries@.len() ==> valid_entry(#[trigger] self.entries@[i])
        &&& forall|i: int|
            0 <= i < self.entries@.len() ==> #[trigger] self.tree_passed.leaf(i) == pass_weight(
                self.entries@[i],
            )
        &&& forall|i: int|
            0 <= i < self.entries@.len() ==> #[trigger] self.tree_failed.leaf(i) == fail_weight(
                self.entries@[i],
            )
        &&& forall|i: int|
            self.entries@.len() <= i < self.tree_passed.cap() ==> #[trigger] self.tree_passed.leaf(
                i,
            ) == 0
        &&& forall|i: int|
            self.entries@.len() <= i < self.tree_failed.cap() ==> #[trigger] self.tree_failed.leaf(
                i,
            ) == 0
    }

    /// Law: scores never escape their range — whatever sequence of
    /// outcomes was recorded, every tracked entry's distrust lies
    /// between 0 and `UNIT`.
    pub proof fn lemma_scores_in_range(&self, i: int)
        requires
            self.wf(),
            0 <= i < self@.len(),
        ensures
            valid_entry(self@[i]),
    {
    }

    /// Pool totals never go negative.
    pub proof fn lemma_pool_total_nonneg(&self, b: bool)
        requires
            self.wf(),
        ensures
            self.pool_total(b) >= 0,
    {
        if b {
            self.tree_passed.lemma_total_bound();
        } else {
            self.tree_failed.lemma_total_bound();
        }
    }

    /// Law: the dual-tree invariant, stated publicly — each entry's
    /// weight in the passed pool is its distrust if it passed and zero
    /// otherwise, and symmetrically for the failed pool; slots beyond
    /// the tracked entries carry no weight in either pool.
    pub proof fn lemma_pool_sync(&self, i: int)
        requires
            self.wf(),
            0 <= i < self.pool_cap(),
        ensures
            i < self@.len() ==> self.pool_weight(true, i) == pass_weight(self@[i])
                && self.pool_weight(false, i) == fail_weight(self@[i]),
            i >= self@.len() ==> self.pool_weight(true, i) == 0 && self.pool_weight(false, i)
                == 0,
    {
    }

    /// The tracked entries always fit below the declared capacity and
    /// the pool trees' leaf count.
    pub proof fn lemma_len_le_pool_cap(&self)
        requires
            self.wf(),
        ensures
            self@.len() <= self.spec_capacity() <= self.pool_cap(),
    {
    }

    /// A single pool weight never exceeds its pool's total, so one
    /// positive weight makes the whole pool's total positive.
    pub proof fn lemma_pool_weight_le_total(&self, b: bool, i: int)
        requires
            self.wf(),
            0 <= i < self.pool_cap(),
        ensures
            0 <= self.pool_weight(b, i) <= self.pool_total(b),
    {
        if b {
            self.tree_passed.lemma_leaf_le_total(i);
        } else {
            self.tree_failed.lemma_leaf_le_total(i);
        }
    }

    /// A pool whose weights are all zero has a zero total.
    pub proof fn lemma_pool_total_zero(&self, b: bool)
        requires
            self.wf(),
            forall|i: int| 0 <= i < self.pool_cap() ==> #[trigger] self.pool_weight(b, i) == 0,
        ensures
            self.pool_total(b) == 0,
    {
        if b {
            assert forall|i: int|
                0 <= i < self.tree_passed.cap() implies #[trigger] self.tree_passed.leaf(i)
                == 0 by {
                assert(self.pool_weight(true, i) == 0);
            };
            self.tree_passed.lemma_total_of_zero_leaves();
        } else {
            assert forall|i: int|
                0 <= i < self.tree_failed.cap() implies #[trigger] self.tree_failed.leaf(i)
                == 0 by {
                assert(self.pool_weight(false, i) == 0);
            };
            self.tree_failed.lemma_total_of_zero_leaves();
        }
    }

    /// Number of tracked entries.
    pub fn len(&self) -> (r: usize)
        ensures
            r == self@.len(),
    {
        self.entries.len()
    }

    /// True when no entry is tracked yet.
    pub fn is_empty(&self) -> (r: bool)
        ensures
            r == (self@.len() == 0),
    {
        self.entries.is_empty()
    }

    /// True while fewer entries are tracked than the capacity allows.
    pub fn is_partial(&self) -> (r: bool)
        ensures
            r == (self@.len() < self.spec_capacity()),
    {
        self.entries.len() < self.capacity
    }

    /// How many entries are currently bucketed as failed.
    pub fn get_unpassed_entries_count(&self) -> (r: usize)
        requires
            self.wf(),
        ensures
            r == count_failed(self@),
    {
        self.cnt_failed
    }

    /// The current decay age.
    pub fn get_age(&self) -> (r: i32)
        ensures
            r == self.spec_age(),
    {
        self.age
    }

    /// The decay-curve parameters.
    pub fn get_score_args(&self) -> (r: ScoreArgs)
        ensures
            r == self.spec_args(),
    {
        self.score_args
    }

    /// The unit score at the table's current age: the distrust a fresh,
    /// unseen entry receives.
    pub fn unit_score(&self) -> (r: Score)
        ensures
            r == self.spec_unit(),
    {
        self.unit
    }

    /// The entry at `idx`.
    pub fn entry_at(&self, idx: usize) -> (r: ProgressEntry)
        requires
            idx < self@.len(),
        ensures
            r == self@[idx as int],
    {
        self.entries[idx]
    }

    /// The weight of `idx` in the chosen pool.
    pub fn pool_value(&self, pass: bool, idx: usize) -> (r: i64)
        requires
            self.wf(),
            idx < self.pool_cap(),
        ensures
            r == self.pool_weight(pass, idx as int),
    {
        if pass {
            self.tree_passed.value_at(idx)
        } else {
            self.tree_failed.value_at(idx)
        }
    }

    /// The total weight of the chosen pool.
    pub fn pool_sum(&self, pass: bool) -> (r: i64)
        requires
            self.wf(),
        ensures
            r == self.pool_total(pass),
    {
        if pass {
            self.tree_passed.sum()
        } else {
            self.tree_failed.sum()
        }
    }

    /// A table with no entries yet.
    pub fn new_empty(capacity: usize, age: i32, score_args: ScoreArgs, unit: Score) -> (t:
        ProgressTable)
        requires
            capacity <= 0x1000_0000,
            valid_score(unit.0 as int),
        ensures
            t.wf(),
            t@.len() == 0,
            t.spec_capacity() == capacity,
            t.spec_age() == age,
            t.spec_args() == score_args,
            t.spec_unit() == unit,
            t.pool_cap() >= capacity,
            forall|b: bool, i: int|
                0 <= i < t.pool_cap() ==> #[trigger] t.pool_weight(b, i) == 0,
            forall|b: bool| #[trigger] t.pool_total(b) == 0,
    {
        let tree_passed = OSTree::new(capacity);
        let tree_failed = OSTree::new(capacity);
        proof {
            crate::ostree::lemma_pow2_ceil_unique(
                tree_passed.cap(),
                tree_failed.cap(),
                capacity as int,
            );
        }
        let t = ProgressTable {
            entries: Vec::new(),
            capacity,
            cnt_failed: 0,
            tree_passed,
            tree_failed,
            age,
            score_args,
            unit,
        };
        t
    }

    /// A table over `catalog.len()` unseen entries, each starting at
    /// the unit score for the given age, within a larger capacity.
    pub fn new_partial(
        catalog: &Vec<TableEntry>,
        capacity: usize,
        age: i32,
        score_args: ScoreArgs,
        unit: Score,
    ) -> (t: ProgressTable)
        requires
            catalog@.len() <= capacity <= 0x1000_0000,
            valid_score(unit.0 as int),
        ensures
            t.wf(),
            t@.len() == catalog@.len(),
            forall|i: int|
                0 <= i < catalog@.len() ==> t@[i] == (ProgressEntry {
                    distrust: unit,
                    pass: false,
                }),
            t.spec_capacity() == capacity,
            t.spec_age() == age,
            t.spec_args() == score_args,
            t.spec_unit() == unit,
            t.pool_cap() >= capacity,
            forall|i: int|
                0 <= i < catalog@.len() ==> #[trigger] t.pool_weight(false, i) == unit.0
                    && t.pool_weight(true, i) == 0,
            forall|b: bool, i: int|
                catalog@.len() <= i < t.pool_cap() ==> #[trigger] t.pool_weight(b, i) == 0,
            t.pool_total(true) == 0,
    {
        let n = catalog.len();
        let mut entries: Vec<ProgressEntry> = Vec::new();
        let mut i: usize = 0;
        while i < n
            invariant
                i <= n,
                entries@.len() == i,
                forall|m: int|
                    0 <= m < i ==> entries@[m] == (ProgressEntry { distrust: unit, pass: false }),
                count_failed(entries@) == i,
            decreases n - i,
        {
            proof {
                lemma_count_failed_push(entries@, ProgressEntry { distrust: unit, pass: false });
            }
            entries.push(ProgressEntry { distrust: unit, pass: false });
            i = i + 1;
        }
        let tree_passed = OSTree::new(capacity);
        let mut tree_failed = OSTree::new(capacity);
        proof {
            crate::ostree::lemma_pow2_ceil_unique(
                tree_passed.cap(),
                tree_failed.cap(),
                capacity as int,
            );
        }
        let mut i: usize = 0;
        while i < n
            invariant
                i <= n <= capacity <= 0x1000_0000,
                valid_score(unit.0 as int),
                tree_failed.wf(),
                capacity <= tree_failed.cap() <= 0x2000_0000,
                tree_failed.cap() == tree_passed.cap(),
                forall|m: int| 0 <= m < i ==> #[trigger] tree_failed.leaf(m) == unit.0 as int,
                forall|m: int| i <= m < tree_failed.cap() ==> #[trigger] tree_failed.leaf(m) == 0,
            decreases n - i,
        {
            proof {
                assert(forall|m: int|
                    0 <= m < tree_failed.cap() ==> #[trigger] tree_failed.leaf(m)
                        <= unit.0 as int);
                tree_failed.lemma_prefix_bound(tree_failed.cap(), unit.0 as int);
                assert(tree_failed.cap() * (unit.0 as int) <= 0x2000_0000 * 10000)
                    by (nonlinear_arith)
                    requires
                        0 <= unit.0 <= 10000,
                        0 <= tree_failed.cap() <= 0x2000_0000,
                ;
            }
            tree_failed.assign(i, unit.0);
            i = i + 1;
        }
        let t = ProgressTable {
            entries,
            capacity,
            cnt_failed: n,
            tree_passed,
            tree_failed,
            age,
            score_args,
            unit,
        };
        t
    }

    /// A fresh table at age zero: the unit score is the curve's origin.
    pub fn new(catalog: &Vec<TableEntry>, score_args: ScoreArgs) -> (t: ProgressTable)
        requires
            catalog@.len() <= 0x1000_0000,
            valid_score(score_args.origin.0 as int),
        ensures
            t.wf(),
            t@.len() == catalog@.len(),
            forall|i: int|
                0 <= i < catalog@.len() ==> t@[i] == (ProgressEntry {
                    distrust: score_args.origin,
                    pass: false,
                }),
            t.spec_capacity() == catalog@.len(),
            t.spec_age() == 0,
            t.spec_args() == score_args,
            t.spec_unit() == score_args.origin,
            t.pool_cap() >= catalog@.len(),
            forall|i: int|
                0 <= i < catalog@.len() ==> #[trigger] t.pool_weight(false, i)
                    == score_args.origin.0 && t.pool_weight(true, i) == 0,
            t.pool_total(true) == 0,
    {
        let n = catalog.len();
        Self::new_partial(catalog, n, 0, score_args, score_args.origin)
    }

    /// Advances the decay age by one tick.  The driver recomputes the
    /// unit score for the new age and hands it back via `refresh_unit`.
    pub fn step(&mut self)
        requires
            old(self).wf(),
            old(self).spec_age() < i32::MAX,
        ensures
            final(self).wf(),
            final(self)@ == old(self)@,
            final(self).spec_age() == old(self).spec_age() + 1,
            final(self).spec_capacity() == old(self).spec_capacity(),
            final(self).spec_args() == old(self).spec_args(),
            final(self).spec_unit() == old(self).spec_unit(),
            forall|b: bool, i: int|
                0 <= i < old(self).pool_cap() ==> #[trigger] final(self).pool_weight(b, i) == old(
                    self,
                ).pool_weight(b, i),
            final(self).pool_cap() == old(self).pool_cap(),
    {
        self.age = self.age + 1;
    }

    /// Records the outcome of one assessment: on a pass the distrust
    /// halves (biased toward zero), on a fail it regresses toward the
    /// current unit score through a square-root blend, and both pool
    /// trees are re-synchronised with the new entry.
    pub fn set(&mut self, idx: usize, pass: bool)
        requires
            old(self).wf(),
            idx < old(self)@.len(),
        ensures
            final(self).wf(),
            set_post(old(self)@, final(self)@, idx as int, pass, old(self).spec_unit().0 as int),
            final(self).spec_capacity() == old(self).spec_capacity(),
            final(self).spec_age() == old(self).spec_age(),
            final(self).spec_args() == old(self).spec_args(),
            final(self).spec_unit() == old(self).spec_unit(),
            final(self).pool_cap() == old(self).pool_cap(),
            forall|b: bool, i: int|
                0 <= i < old(self).pool_cap() && i != idx ==> #[trigger] final(self).pool_weight(
                    b,
                    i,
                ) == old(self).pool_weight(b, i),
            final(self).pool_weight(true, idx as int) == pass_weight(final(self)@[idx as int]),
            final(self).pool_weight(false, idx as int) == fail_weight(final(self)@[idx as int]),
    {
        let us = self.unit.0;
        let e = self.entries[idx];
        let d0 = e.distrust.0;
        proof {
            lemma_count_failed_le(self.entries@);
        }
        if e.pass {
            self.cnt_failed = self.cnt_failed + 1;
        }
        if pass {
            proof {
                if !e.pass {
                    lemma_count_failed_at(self.entries@, idx as int);
                }
            }
            self.cnt_failed = self.cnt_failed - 1;
        }
        let nd: i64 = if pass {
            (d0 + 1) / 2
        } else {
            proof {
                assert(d0 * us <= 10000 * 10000 && d0 * us >= 0) by (nonlinear_arith)
                    requires
                        0 <= d0 <= 10000,
                        0 <= us <= 10000,
                ;
            }
            isqrt(d0 * us)
        };
        proof {
            if !pass {
                assert(nd <= UNIT) by (nonlinear_arith)
                    requires
                        0 <= nd,
                        nd * nd <= 10000 * 10000,
                ;
            }
            lemma_count_failed_update(
                self.entries@,
                idx as int,
                ProgressEntry { distrust: Score(nd), pass },
            );
        }
        self.entries.set(idx, ProgressEntry { distrust: Score(nd), pass });
        proof {
            assert forall|j: int|
                0 <= j < self.tree_passed.cap() implies #[trigger] self.tree_passed.leaf(j)
                <= UNIT by {
                if j < old(self)@.len() {
                    assert(self.tree_passed.leaf(j) == pass_weight(old(self)@[j]));
                    assert(valid_entry(old(self)@[j]));
                }
            };
            assert forall|j: int|
                0 <= j < self.tree_failed.cap() implies #[trigger] self.tree_failed.leaf(j)
                <= UNIT by {
                if j < old(self)@.len() {
                    assert(self.tree_failed.leaf(j) == fail_weight(old(self)@[j]));
                    assert(valid_entry(old(self)@[j]));
                }
            };
            lemma_tree_total_bounded(&self.tree_passed);
            lemma_tree_total_bounded(&self.tree_failed);
        }
        self.tree_passed.assign(
            idx,
            if pass {
                nd
            } else {
                0
            },
        );
        self.tree_failed.assign(
            idx,
            if !pass {
                nd
            } else {
                0
            },
        );
    }

    /// Appends newly revealed entries behind the ones already tracked.
    /// Fails, leaving the table unchanged, when the appended chunk would
    /// exceed the declared capacity.
    pub fn supply(&mut self, chunk: &Vec<ProgressEntry>) -> (r: Result<(), OutOfRangeError>)
        requires
            old(self).wf(),
            forall|i: int| 0 <= i < chunk@.len() ==> valid_entry(#[trigger] chunk@[i]),
        ensures
            final(self).wf(),
            final(self).spec_capacity() == old(self).spec_capacity(),
            final(self).spec_age() == old(self).spec_age(),
            final(self).spec_args() == old(self).spec_args(),
            final(self).spec_unit() == old(self).spec_unit(),
            final(self).pool_cap() == old(self).pool_cap(),
            r is Ok <==> old(self)@.len() + chunk@.len() <= old(self).spec_capacity(),
            r is Err ==> *final(self) == *old(self),
            r is Ok ==> final(self)@ == old(self)@ + chunk@,
            r is Ok ==> forall|b: bool, i: int|
                0 <= i < old(self)@.len() ==> #[trigger] final(self).pool_weight(b, i) == old(
                    self,
                ).pool_weight(b, i),
            r is Ok ==> forall|j: int|
                0 <= j < chunk@.len() ==> #[trigger] final(self).pool_weight(
                    true,
                    old(self)@.len() + j,
                ) == pass_weight(chunk@[j]) && final(self).pool_weight(
                    false,
                    old(self)@.len() + j,
                ) == fail_weight(chunk@[j]),
    {
        let m = chunk.len();
        let n = self.entries.len();
        if m > self.capacity - n {
            Err(OutOfRangeError)
        } else {
            let ghost t0 = *self;
            let mut i: usize = 0;
            while i < m
                invariant
                    t0.wf(),
                    i <= m,
                    m <= t0.capacity - n,
                    n == t0.entries@.len(),
                    m == chunk@.len(),
                    forall|jj: int| 0 <= jj < chunk@.len() ==> valid_entry(#[trigger] chunk@[jj]),
                    self.entries@ == t0.entries@ + chunk@.subrange(0, i as int),
                    self.capacity == t0.capacity,
                    self.age == t0.age,
                    self.score_args == t0.score_args,
                    self.unit == t0.unit,
                    self.cnt_failed == count_failed(self.entries@),
                    self.tree_passed.wf(),
                    self.tree_failed.wf(),
                    self.tree_passed.cap() == t0.tree_passed.cap(),
                    self.tree_failed.cap() == t0.tree_failed.cap(),
                    forall|j: int|
                        0 <= j < n + i ==> #[trigger] self.tree_passed.leaf(j) == pass_weight(
                            self.entries@[j],
                        ),
                    forall|j: int|
                        0 <= j < n + i ==> #[trigger] self.tree_failed.leaf(j) == fail_weight(
                            self.entries@[j],
                        ),
                    forall|j: int|
                        n + i <= j < self.tree_passed.cap() ==> #[trigger] self.tree_passed.leaf(j)
                            == 0,
                    forall|j: int|
                        n + i <= j < self.tree_failed.cap() ==> #[trigger] self.tree_failed.leaf(j)
                            == 0,
                decreases m - i,
            {
                let e = chunk[i];
                proof {
                    lemma_count_failed_le(self.entries@);
                    lemma_count_failed_push(self.entries@, e);
                    assert forall|j: int|
                        0 <= j < self.tree_passed.cap() implies #[trigger] self.tree_passed.leaf(j)
                        <= UNIT by {
                        if j < n + i {
                            assert(self.tree_passed.leaf(j) == pass_weight(self.entries@[j]));
                            assert(valid_entry(self.entries@[j]));
                        }
                    };
                    assert forall|j: int|
                        0 <= j < self.tree_failed.cap() implies #[trigger] self.tree_failed.leaf(j)
                        <= UNIT by {
                        if j < n + i {
                            assert(self.tree_failed.leaf(j) == fail_weight(self.entries@[j]));
                            assert(valid_entry(self.entries@[j]));
                        }
                    };
                    lemma_tree_total_bounded(&self.tree_passed);
                    lemma_tree_total_bounded(&self.tree_failed);
                    assert(chunk@.subrange(0, i + 1) =~= chunk@.subrange(0, i as int).push(e));
                }
                self.entries.push(e);
                if e.pass {
                    self.tree_passed.assign(n + i, e.distrust.0);
                } else {
                    self.tree_failed.assign(n + i, e.distrust.0);
                    self.cnt_failed = self.cnt_failed + 1;
                }
                i = i + 1;
            }
            proof {
                assert(chunk@.subrange(0, m as int) =~= chunk@);
            }
            Ok(())
        }
    }

    /// Draws up to `n` distinct entries from the chosen pool, weighted
    /// by their distrust, without replacement within the batch: each
    /// draw temporarily zeroes the drawn weight so it cannot recur, and
    /// every weight is restored before returning.  Returns fewer than
    /// `n` indices only when the pool ran out of positive weights.
    pub fn select_random_entries<S: Selector>(
        &mut self,
        n: usize,
        pass: bool,
        selector: &mut S,
    ) -> (r: Vec<usize>)
        requires
            old(self).wf(),
        ensures
            final(self).wf(),
            final(self)@ == old(self)@,
            final(self).spec_capacity() == old(self).spec_capacity(),
            final(self).spec_age() == old(self).spec_age(),
            final(self).spec_args() == old(self).spec_args(),
            final(self).spec_unit() == old(self).spec_unit(),
            final(self).pool_cap() == old(self).pool_cap(),
            forall|b: bool, i: int|
                0 <= i < old(self).pool_cap() ==> #[trigger] final(self).pool_weight(b, i) == old(
                    self,
                ).pool_weight(b, i),
            forall|b: bool| #[trigger] final(self).pool_total(b) == old(self).pool_total(b),
            r@.len() <= n,
            forall|j1: int, j2: int| 0 <= j1 < j2 < r@.len() ==> r@[j1] != r@[j2],
            forall|j: int|
                0 <= j < r@.len() ==> (#[trigger] r@[j]) < old(self)@.len() && old(
                    self,
                ).pool_weight(pass, r@[j] as int) > 0,
            r@.len() < n ==> forall|i: int|
                0 <= i < old(self)@.len() && old(self).pool_weight(pass, i) > 0
                    ==> exists|j: int| 0 <= j < r@.len() && r@[j] as int == i,
            n > 0 && old(self).pool_total(pass) > 0 ==> r@.len() > 0,
            old(selector).spec_is_zero() ==> forall|j1: int, j2: int|
                0 <= j1 < j2 < r@.len() ==> r@[j1] < r@[j2],
            old(selector).spec_is_zero() ==> forall|j: int, i: int|
                0 <= j < r@.len() && 0 <= i < #[trigger] r@[j] && #[trigger] old(
                    self,
                ).pool_weight(pass, i) > 0 ==> exists|j2: int| 0 <= j2 < j && r@[j2] as int == i,
    {
        let r = if pass {
            select_from_tree(&mut self.tree_passed, n, selector)
        } else {
            select_from_tree(&mut self.tree_failed, n, selector)
        };
        proof {
            assert forall|j: int|
                0 <= j < r@.len() implies (#[trigger] r@[j]) < old(self)@.len() by {
                if r@[j] >= old(self)@.len() {
                    assert(old(self).pool_weight(pass, r@[j] as int) == 0);
                }
            };
        }
        r
    }

    /// Installs the unit score that the driver computed for the current
    /// age from the decay curve.
    pub fn refresh_unit(&mut self, unit: Score)
        requires
            old(self).wf(),
            valid_score(unit.0 as int),
        ensures
            final(self).wf(),
            final(self)@ == old(self)@,
            final(self).spec_age() == old(self).spec_age(),
            final(self).spec_capacity() == old(self).spec_capacity(),
            final(self).spec_args() == old(self).spec_args(),
            final(self).spec_unit() == unit,
            forall|b: bool, i: int|
                0 <= i < old(self).pool_cap() ==> #[trigger] final(self).pool_weight(b, i) == old(
                    self,
                ).pool_weight(b, i),
            final(self).pool_cap() == old(self).pool_cap(),
    {
        self.unit = unit;
    }
}

/// The serialisable face of a progress table: each tracked entry paired
/// with the catalog item it belongs to, plus the decay bookkeeping.
/// The driver turns this into bytes and back; matching on content makes
/// the snapshot survive reorderings of the catalog.
pub struct ProgressTableView {
    pub entries: Vec<(ProgressEntry, TableEntry)>,
    pub age: i32,
    pub score_args: ScoreArgs,
}

/// The index of the last snapshot pair whose item content equals `p`.
pub open spec fn last_match(s: Seq<(ProgressEntry, TableEntry)>, p: TableEntry) -> Option<int>
    decreases s.len(),
{
    if s.len() == 0 {
        None
    } else if same_pair(s.last().1, p) {
        Some((s.len() - 1) as int)
    } else {
        last_match(s.drop_last(), p)
    }
}

/// The progress a catalog item receives from a snapshot: its last
/// matching pair's entry, or a fresh unseen entry at the unit score.
pub open spec fn reconcile_entry(
    s: Seq<(ProgressEntry, TableEntry)>,
    p: TableEntry,
    unit: Score,
) -> ProgressEntry {
    match last_match(s, p) {
        Some(j) => s[j].0,
        None => ProgressEntry { distrust: unit, pass: false },
    }
}

proof fn lemma_last_match_found(s: Seq<(ProgressEntry, TableEntry)>, p: TableEntry, j: int)
    requires
        0 <= j < s.len(),
        same_pair(s[j].1, p),
        forall|m: int| j < m < s.len() ==> !same_pair((#[trigger] s[m]).1, p),
    ensures
        last_match(s, p) == Some(j),
    decreases s.len(),
{
    if j < s.len() - 1 {
        lemma_last_match_found(s.drop_last(), p, j);
    }
}

proof fn lemma_last_match_none(s: Seq<(ProgressEntry, TableEntry)>, p: TableEntry)
    requires
        forall|m: int| 0 <= m < s.len() ==> !same_pair((#[trigger] s[m]).1, p),
    ensures
        last_match(s, p) is None,
    decreases s.len(),
{
    if s.len() > 0 {
        lemma_last_match_none(s.drop_last(), p);
    }
}

/// Law: the persistence round trip is the identity on progress.  A
/// snapshot that pairs each entry with its own catalog item, read back
/// against the same catalog, gives every item its old entry — provided
/// no two catalog items share the same content (with duplicates, all
/// copies inherit the last one's entry).
pub proof fn lemma_persistence_round_trip(
    pre: Seq<ProgressEntry>,
    catalog: Seq<TableEntry>,
    view_entries: Seq<(ProgressEntry, TableEntry)>,
    unit: Score,
    i: int,
)
    requires
        view_entries.len() == catalog.len(),
        pre.len() == catalog.len(),
        forall|j: int|
            0 <= j < catalog.len() ==> (#[trigger] view_entries[j]).0 == pre[j] && same_pair(
                view_entries[j].1,
                catalog[j],
            ),
        forall|j1: int, j2: int|
            0 <= j1 < j2 < catalog.len() ==> !same_pair(catalog[j1], catalog[j2]),
        0 <= i < catalog.len(),
    ensures
        last_match(view_entries, catalog[i]) == Some(i),
        reconcile_entry(view_entries, catalog[i], unit) == pre[i],
{
    assert forall|m: int|
        i < m < view_entries.len() implies !same_pair((#[trigger] view_entries[m]).1, catalog[i]) by {
        if same_pair(view_entries[m].1, catalog[i]) {
            assert(same_pair(catalog[i], catalog[m]));
        }
    };
    lemma_last_match_found(view_entries, catalog[i], i);
}

impl ProgressTableView {
    /// Snapshots a table against its catalog, pairing each entry with
    /// the item it tracks.
    pub fn new(table: &ProgressTable, te: &Vec<TableEntry>) -> (v: ProgressTableView)
        requires
            te@.len() >= table@.len(),
        ensures
            v.entries@.len() == table@.len(),
            forall|i: int|
                0 <= i < table@.len() ==> (#[trigger] v.entries@[i]).0 == table@[i]
                    && v.entries@[i].1 == te@[i],
            v.age as int == table.spec_age(),
            v.score_args == table.spec_args(),
    {
        let n = table.len();
        let mut entries: Vec<(ProgressEntry, TableEntry)> = Vec::new();
        let mut i: usize = 0;
        while i < n
            invariant
                i <= n,
                n == table@.len(),
                te@.len() >= n,
                entries@.len() == i,
                forall|m: int|
                    0 <= m < i ==> (#[trigger] entries@[m]).0 == table@[m] && entries@[m].1
                        == te@[m],
            decreases n - i,
        {
            entries.push((table.entry_at(i), te[i].duplicate()));
            i = i + 1;
        }
        ProgressTableView { entries, age: table.get_age(), score_args: table.get_score_args() }
    }
}

impl ProgressTable {
    /// Rebuilds a table from a snapshot, reconciled against the current
    /// catalog: items found in the snapshot by content keep their saved
    /// progress, new items start unseen at the given unit score.
    pub fn new_from_view(
        catalog: &Vec<TableEntry>,
        view: &ProgressTableView,
        default_unit: Score,
    ) -> (t: ProgressTable)
        requires
            catalog@.len() <= 0x1000_0000,
            valid_score(default_unit.0 as int),
            forall|j: int| 0 <= j < view.entries@.len() ==> valid_entry((#[trigger] view.entries@[j]).0),
        ensures
            t.wf(),
            t@.len() == catalog@.len(),
            forall|i: int|
                0 <= i < catalog@.len() ==> t@[i] == reconcile_entry(
                    view.entries@,
                    catalog@[i],
                    default_unit,
                ),
            t.spec_capacity() == catalog@.len(),
            t.spec_age() == view.age as int,
            t.spec_args() == view.score_args,
            t.spec_unit() == default_unit,
            t.pool_cap() >= catalog@.len(),
            forall|i: int|
                0 <= i < catalog@.len() ==> #[trigger] t.pool_weight(true, i) == pass_weight(
                    t@[i],
                ) && t.pool_weight(false, i) == fail_weight(t@[i]),
    {
        let n = catalog.len();
        let m = view.entries.len();
        let mut pev: Vec<ProgressEntry> = Vec::new();
        let mut i: usize = 0;
        while i < n
            invariant
                i <= n,
                n == catalog@.len(),
                m == view.entries@.len(),
                forall|j: int|
                    0 <= j < view.entries@.len() ==> valid_entry((#[trigger] view.entries@[j]).0),
                valid_score(default_unit.0 as int),
                pev@.len() == i,
                forall|k: int|
                    0 <= k < i ==> #[trigger] pev@[k] == reconcile_entry(
                        view.entries@,
                        catalog@[k],
                        default_unit,
                    ),
                forall|k: int| 0 <= k < i ==> valid_entry(#[trigger] pev@[k]),
            decreases n - i,
        {
            let mut j: usize = m;
            let mut res = ProgressEntry { distrust: default_unit, pass: false };
            let mut found = false;
            let ghost mut mj: int = 0;
            while j > 0 && !found
                invariant
                    j <= m,
                    m == view.entries@.len(),
                    i < n == catalog@.len(),
                    forall|jj: int|
                        0 <= jj < view.entries@.len() ==> valid_entry(
                            (#[trigger] view.entries@[jj]).0,
                        ),
                    !found ==> forall|jj: int|
                        j <= jj < m ==> !same_pair((#[trigger] view.entries@[jj]).1, catalog@[i as int]),
                    found ==> {
                        &&& j as int == mj
                        &&& 0 <= mj < m
                        &&& same_pair(view.entries@[mj].1, catalog@[i as int])
                        &&& forall|jj: int|
                            mj < jj < m ==> !same_pair(
                                (#[trigger] view.entries@[jj]).1,
                                catalog@[i as int],
                            )
                        &&& res == view.entries@[mj].0
                    },
                    !found ==> res == (ProgressEntry { distrust: default_unit, pass: false }),
                decreases j,
            {
                j = j - 1;
                if view.entries[j].1.same_as(&catalog[i]) {
                    found = true;
                    res = view.entries[j].0;
                    proof {
                        mj = j as int;
                    }
                }
            }
            proof {
                if found {
                    lemma_last_match_found(view.entries@, catalog@[i as int], mj);
                } else {
                    lemma_last_match_none(view.entries@, catalog@[i as int]);
                }
            }
            pev.push(res);
            i = i + 1;
        }
        Self::from_entries(pev, n, view.age, view.score_args, default_unit)
    }

    /// Builds the dual trees for a given list of valid entries.
    fn from_entries(
        entries: Vec<ProgressEntry>,
        capacity: usize,
        age: i32,
        score_args: ScoreArgs,
        unit: Score,
    ) -> (t: ProgressTable)
        requires
            entries@.len() <= capacity <= 0x1000_0000,
            valid_score(unit.0 as int),
            forall|i: int| 0 <= i < entries@.len() ==> valid_entry(#[trigger] entries@[i]),
        ensures
            t.wf(),
            t@ == entries@,
            t.spec_capacity() == capacity,
            t.spec_age() == age,
            t.spec_args() == score_args,
            t.spec_unit() == unit,
    {
        let n = entries.len();
        let mut tree_passed = OSTree::new(capacity);
        let mut tree_failed = OSTree::new(capacity);
        proof {
            crate::ostree::lemma_pow2_ceil_unique(
                tree_passed.cap(),
                tree_failed.cap(),
                capacity as int,
            );
        }
        let mut cnt_failed: usize = 0;
        let mut i: usize = 0;
        while i < n
            invariant
                i <= n,
                n == entries@.len(),
                n <= capacity <= 0x1000_0000,
                forall|k: int| 0 <= k < n ==> valid_entry(#[trigger] entries@[k]),
                tree_passed.wf(),
                tree_failed.wf(),
                tree_passed.cap() == tree_failed.cap(),
                capacity <= tree_passed.cap() <= 0x2000_0000,
                cnt_failed == count_failed(entries@.subrange(0, i as int)),
                forall|k: int|
                    0 <= k < i ==> #[trigger] tree_passed.leaf(k) == pass_weight(entries@[k]),
                forall|k: int|
                    0 <= k < i ==> #[trigger] tree_failed.leaf(k) == fail_weight(entries@[k]),
                forall|k: int|
                    i <= k < tree_passed.cap() ==> #[trigger] tree_passed.leaf(k) == 0,
                forall|k: int|
                    i <= k < tree_failed.cap() ==> #[trigger] tree_failed.leaf(k) == 0,
            decreases n - i,
        {
            let e = entries[i];
            proof {
                lemma_count_failed_le(entries@.subrange(0, i as int));
                assert(entries@.subrange(0, i + 1).drop_last() =~= entries@.subrange(0, i as int));
                assert(entries@.subrange(0, i + 1).last() == entries@[i as int]);
                assert forall|k: int|
                    0 <= k < tree_passed.cap() implies #[trigger] tree_passed.leaf(k) <= UNIT by {
                    if k < i {
                        assert(tree_passed.leaf(k) == pass_weight(entries@[k]));
                        assert(valid_entry(entries@[k]));
                    }
                };
                assert forall|k: int|
                    0 <= k < tree_failed.cap() implies #[trigger] tree_failed.leaf(k) <= UNIT by {
                    if k < i {
                        assert(tree_failed.leaf(k) == fail_weight(entries@[k]));
                        assert(valid_entry(entries@[k]));
                    }
                };
                lemma_tree_total_bounded(&tree_passed);
                lemma_tree_total_bounded(&tree_failed);
            }
            if e.pass {
                tree_passed.assign(i, e.distrust.0);
            } else {
                tree_failed.assign(i, e.distrust.0);
                cnt_failed = cnt_failed + 1;
            }
            i = i + 1;
        }
        proof {
            assert(entries@.subrange(0, n as int) =~= entries@);
        }
        ProgressTable {
            entries,
            capacity,
            cnt_failed,
            tree_passed,
            tree_failed,
            age,
            score_args,
            unit,
        }
    }
}

} // verus!
