//! Sources of draw targets for weighted sampling.
//!
//! A selector turns the positive total weight of a pool into an offset
//! into `0 .. bound`; the order-statistics tree then maps that offset to
//! a concrete entry.  The session uses a random source for assessments
//! and rehearsals and the deterministic zero source for learning, which
//! always lands on the lowest-indexed entry still carrying weight.

use rand::Rng;
use vstd::prelude::*;

verus! {

/// Yields a draw target below the given positive bound.
pub trait Selector {
    /// True of a source known to pick offset zero, always.
    spec fn spec_is_zero(&self) -> bool;

    fn pick(&mut self, bound: i64) -> (r: i64)
        requires
            bound >= 1,
        ensures
            0 <= r < bound,
            old(self).spec_is_zero() ==> r == 0 && final(self).spec_is_zero(),
    ;
}

/// Always picks offset zero.
pub struct ZeroSelector;

impl Selector for ZeroSelector {
    open spec fn spec_is_zero(&self) -> bool {
        true
    }

    fn pick(&mut self, bound: i64) -> (r: i64)
        ensures
            r == 0,
    {
        0
    }
}

/// Replays a fixed list of offsets, reducing each into range by the
/// remainder; after the list is exhausted it starts over.  Exists so
/// that drivers and tests can drive the session deterministically.
pub struct CycleSelector {
    vals: Vec<i64>,
    pos: usize,
}

impl CycleSelector {
    /// The replayed offsets.
    pub closed spec fn spec_vals(&self) -> Seq<i64> {
        self.vals@
    }

    /// The position of the next offset to replay.
    pub closed spec fn spec_pos(&self) -> int {
        self.pos as int
    }

    pub fn new(vals: Vec<i64>) -> (s: CycleSelector)
        ensures
            s.spec_vals() == vals@,
            s.spec_pos() == 0,
    {
        CycleSelector { vals, pos: 0 }
    }
}

impl Selector for CycleSelector {
    open spec fn spec_is_zero(&self) -> bool {
        false
    }

    fn pick(&mut self, bound: i64) -> (r: i64)
        ensures
            final(self).spec_vals() == old(self).spec_vals(),
            old(self).spec_vals().len() == 0 ==> r == 0 && final(self).spec_pos() == old(
                self,
            ).spec_pos(),
            old(self).spec_vals().len() > 0 ==> {
                let i = if old(self).spec_pos() < old(self).spec_vals().len() {
                    old(self).spec_pos()
                } else {
                    0int
                };
                &&& final(self).spec_pos() == i + 1
                &&& r as int == (if old(self).spec_vals()[i] >= 0 {
                    (old(self).spec_vals()[i] % bound) as int
                } else {
                    0int
                })
            },
    {
        if self.vals.len() == 0 {
            return 0;
        }
        let i = if self.pos < self.vals.len() {
            self.pos
        } else {
            0
        };
        self.pos = i + 1;
        let v = self.vals[i];
        if v >= 0 {
            v % bound
        } else {
            0
        }
    }
}

/// Draws offsets from the process-wide random generator.
pub struct RandomSelector;

/// Relies on rand's `Rng::gen_range` over `0..bound`: it returns a value
/// of that range and panics only when the range is empty, which
/// `bound >= 1` rules out.
#[verifier::external_body]
fn draw_below(bound: i64) -> (r: i64)
    requires
        bound >= 1,
    ensures
        0 <= r < bound,
{
    rand::thread_rng().gen_range(0..bound)
}

impl Selector for RandomSelector {
    open spec fn spec_is_zero(&self) -> bool {
        false
    }

    fn pick(&mut self, bound: i64) -> (r: i64) {
        draw_below(bound)
    }
}

} // verus!
