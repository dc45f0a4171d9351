//! The session state machine.
//!
//! A session alternates two phases for as long as the driver keeps
//! calling [`Simulation::next`]: an assessment phase that quizzes a
//! weighted random batch from the passed pool, and a learning phase
//! that works through the failed pool's lowest-indexed weighted items
//! one by one, each shown once and then recalled together with a
//! rehearsal sample drawn from the passed pool.  The machine is pull-based: every
//! call hands in the answer to the previous `Assess` message (and
//! nothing otherwise) and receives the next message to put before the
//! user.
//!
//! Internal phase changes are not visible to the driver, so the machine
//! advances through them within a single call, bounded by an explicit
//! depth budget; a session that can make no progress at all (both pools
//! empty of weight) reports that as a fault instead of spinning.

use crate::ent::ProgressTable;
use crate::ent::TableEntry;
use crate::ent::set_post;
use crate::ent::table_preserved;
use crate::selector::Selector;
use crate::selector::ZeroSelector;
use vstd::prelude::*;

verus! {

/// How many internal advances one `next` call may take.
pub const MAXDEPTH: u16 = 30;

/// Batch size of an assessment phase.
const ASSESS_SESSIONS: usize = 10;

/// Batch size of a learning phase.
const LEARN_SESSIONS: usize = 10;

/// Session options.
pub struct SimArgs {
    /// Classic mode: a just-learned item is not queued for recall
    /// before its rehearsal check.
    pub classic: bool,
}

/// A message to the driver, carrying the index of the item concerned.
#[derive(Clone, Copy, Debug)]
pub enum TMessage<T> {
    Assess(T),
    Display(T),
    NotifyAssessment,
}

pub type UiMessage = TMessage<usize>;

/// Why a `next` call yielded no message.
#[derive(Clone, Copy, Debug)]
pub enum SimFault {
    /// The answer was present exactly when none was expected.
    BadMessage,
    /// The machine found no message within its depth budget; this
    /// happens only when both pools have no weight left.
    DepthExceeded,
}

/// What an answered assessment did to the entry it concerned.
pub struct Change {
    pub idx: usize,
    pub pass: bool,
    pub distrust: i64,
}

/// Either of two sub-states.
#[derive(Debug)]
pub enum Bivariant<T, U> {
    V1(T),
    V2(U),
}

/// The message stays inside the table.
pub open spec fn msg_in_range(m: UiMessage, len: int) -> bool {
    match m {
        TMessage::Assess(i) => (i as int) < len,
        TMessage::Display(i) => (i as int) < len,
        TMessage::NotifyAssessment => true,
    }
}

/// Whether the driver's answer text matches the item's expected one.
pub open spec fn answer_matches(post: Option<String>, expected: TableEntry) -> bool {
    match post {
        Some(s) => s@ == expected.rhs@,
        None => false,
    }
}

/// The assessment phase: announce the batch once, then quiz it.
#[derive(Debug)]
pub struct Assessment {
    began: bool,
    ents: Vec<usize>,
}

impl Assessment {
    pub closed spec fn spec_began(&self) -> bool {
        self.began
    }

    pub closed spec fn spec_ents(&self) -> Seq<usize> {
        self.ents@
    }

    /// Every queued index stays inside a table of `len` entries.
    pub closed spec fn wf(&self, len: int) -> bool {
        forall|j: int| 0 <= j < self.ents@.len() ==> (#[trigger] self.ents@[j]) < len
    }

    /// Draws the assessment batch from the passed pool.
    pub fn new<S: Selector>(pt: &mut ProgressTable, sel: &mut S) -> (a: Assessment)
        requires
            old(pt).wf(),
        ensures
            final(pt).wf(),
            table_preserved(*old(pt), *final(pt)),
            a.wf(old(pt)@.len() as int),
            !a.spec_began(),
            old(pt).pool_total(true) > 0 ==> a.spec_ents().len() > 0,
            old(pt).pool_total(true) == 0 ==> a.spec_ents().len() == 0,
    {
        let ents = pt.select_random_entries(ASSESS_SESSIONS, true, sel);
        proof {
            if old(pt).pool_total(true) == 0 && ents@.len() > 0 {
                old(pt).lemma_len_le_pool_cap();
                old(pt).lemma_pool_weight_le_total(true, ents@[0] as int);
            }
        }
        Assessment { ents, began: false }
    }

    /// Emits the batch announcement once, then one `Assess` per queued
    /// index; yields nothing when the batch is exhausted.
    pub fn next(&mut self, _pass: bool) -> (r: Option<UiMessage>)
        ensures
            final(self).spec_began(),
            !old(self).spec_began() ==> final(self).spec_ents() == old(self).spec_ents() && (match r {
                Some(m) => m == TMessage::<usize>::NotifyAssessment && old(
                    self,
                ).spec_ents().len() > 0,
                None => old(self).spec_ents().len() == 0,
            }),
            old(self).spec_began() ==> (match r {
                Some(TMessage::Assess(i)) => old(self).spec_ents().len() > 0 && i == old(
                    self,
                ).spec_ents().last() && final(self).spec_ents() == old(self).spec_ents().drop_last(),
                None => old(self).spec_ents().len() == 0 && final(self).spec_ents() == old(
                    self,
                ).spec_ents(),
                _ => false,
            }),
    {
        if self.began {
            match self.ents.pop() {
                Some(i) => Some(TMessage::Assess(i)),
                None => None,
            }
        } else {
            self.began = true;
            if self.ents.len() == 0 {
                None
            } else {
                Some(TMessage::NotifyAssessment)
            }
        }
    }
}

/// How showing an item extends its recall queue: the shown item is
/// re-queued unless classic mode is on, and at most one rehearsal draw
/// from the passed pool is queued on top — exactly one when that pool
/// has weight, none when it is empty.
pub open spec fn stack_after_show(
    old_stack: Seq<usize>,
    h: usize,
    classic: bool,
    new_stack: Seq<usize>,
    pt: ProgressTable,
) -> bool {
    let base = if classic {
        old_stack
    } else {
        old_stack.push(h)
    };
    &&& new_stack.len() == base.len() || new_stack.len() == base.len() + 1
    &&& forall|j: int| 0 <= j < base.len() ==> #[trigger] new_stack[j] == base[j]
    &&& (new_stack.len() == base.len() + 1 ==> pt.pool_weight(true, new_stack.last() as int) > 0
        && (new_stack.last() as int) < pt@.len())
    &&& (new_stack.len() == base.len() ==> pt.pool_total(true) == 0)
}

/// One item being learned: shown once, then recalled (itself and a
/// rehearsal draw) until the recalls succeed.
#[derive(Debug)]
pub struct LearnSingle {
    began: bool,
    head: Option<usize>,
    stack: Vec<usize>,
}

impl LearnSingle {
    pub closed spec fn spec_head(&self) -> Option<usize> {
        self.head
    }

    pub closed spec fn spec_stack(&self) -> Seq<usize> {
        self.stack@
    }

    /// Every held index stays inside a table of `len` entries.
    pub closed spec fn wf(&self, len: int) -> bool {
        &&& (match self.head {
            Some(h) => h < len,
            None => true,
        })
        &&& forall|j: int| 0 <= j < self.stack@.len() ==> (#[trigger] self.stack@[j]) < len
    }

    pub fn new(head: usize) -> (ls: LearnSingle)
        ensures
            ls.spec_head() == Some(head),
            ls.spec_stack().len() == 0,
            !ls.began_spec(),
    {
        LearnSingle { began: false, stack: Vec::new(), head: Some(head) }
    }

    pub closed spec fn began_spec(&self) -> bool {
        self.began
    }

    /// Shows the head item (queueing it and a rehearsal draw for
    /// recall), or quizzes the next queued index; a failed recall makes
    /// the failed item the new head, so it is shown and queued again.
    pub fn next<S: Selector>(
        &mut self,
        pt: &mut ProgressTable,
        classic: bool,
        sel: &mut S,
        pass: bool,
    ) -> (r: Option<UiMessage>)
        requires
            old(pt).wf(),
            old(self).wf(old(pt)@.len() as int),
        ensures
            final(pt).wf(),
            table_preserved(*old(pt), *final(pt)),
            final(self).wf(old(pt)@.len() as int),
            match r {
                Some(m) => msg_in_range(m, old(pt)@.len() as int),
                None => true,
            },
            (match old(self).spec_head() {
                Some(h) => (!pass || !old(self).began_spec()) ==> {
                    &&& r == Some(TMessage::<usize>::Display(h))
                    &&& final(self).began_spec()
                    &&& final(self).spec_head() is None
                    &&& stack_after_show(
                        old(self).spec_stack(),
                        h,
                        classic,
                        final(self).spec_stack(),
                        *old(pt),
                    )
                },
                None => true,
            }),
            (old(self).spec_head() is None || (pass && old(self).began_spec())) ==> {
                &&& (old(self).spec_stack().len() > 0 ==> {
                    &&& r == Some(TMessage::<usize>::Assess(old(self).spec_stack().last()))
                    &&& final(self).spec_head() == Some(old(self).spec_stack().last())
                    &&& final(self).spec_stack() == old(self).spec_stack().drop_last()
                    &&& final(self).began_spec() == old(self).began_spec()
                })
                &&& (old(self).spec_stack().len() == 0 ==> {
                    &&& r is None
                    &&& final(self).spec_head() == old(self).spec_head()
                    &&& final(self).spec_stack() == old(self).spec_stack()
                    &&& final(self).began_spec() == old(self).began_spec()
                })
            },
    {
        let show = self.head.is_some() && (!pass || !self.began);
        if show {
            let vhead = self.head.unwrap();
            self.began = true;
            self.head = None;
            if !classic {
                self.stack.push(vhead);
            }
            let picked = pt.select_random_entries(1, true, sel);
            proof {
                pt.lemma_pool_total_nonneg(true);
            }
            if picked.len() > 0 {
                let x = picked[0];
                self.stack.push(x);
            }
            Some(TMessage::Display(vhead))
        } else {
            match self.stack.pop() {
                Some(tail) => {
                    self.head = Some(tail);
                    Some(TMessage::Assess(tail))
                },
                None => None,
            }
        }
    }
}

/// The learning phase: the failed pool's lowest-indexed weighted
/// items, worked through one `LearnSingle` at a time.
#[derive(Debug)]
pub struct Learning {
    ents: Vec<usize>,
    inner: Option<LearnSingle>,
}

impl Learning {
    pub closed spec fn spec_ents(&self) -> Seq<usize> {
        self.ents@
    }

    /// A sub-state is active.
    pub closed spec fn has_inner(&self) -> bool {
        self.inner is Some
    }

    /// The active sub-state still owes its first message.
    pub closed spec fn inner_ready(&self) -> bool {
        match self.inner {
            Some(ls) => ls.spec_head() is Some && !ls.began_spec(),
            None => false,
        }
    }

    /// The head item of the active sub-state.
    pub closed spec fn inner_head(&self) -> Option<usize> {
        match self.inner {
            Some(ls) => ls.spec_head(),
            None => None,
        }
    }

    /// Every queued index and the active sub-state stay inside a table
    /// of `len` entries.
    pub closed spec fn wf(&self, len: int) -> bool {
        &&& forall|j: int| 0 <= j < self.ents@.len() ==> (#[trigger] self.ents@[j]) < len
        &&& (match self.inner {
            Some(ls) => ls.wf(len),
            None => true,
        })
    }

    /// Draws the learning batch with the zero selector, which always
    /// lands on the lowest-indexed entry still carrying weight: the
    /// batch holds the first failed-pool entries in index order, stored
    /// reversed so that they pop lowest-first.
    pub fn new(pt: &mut ProgressTable) -> (l: Learning)
        requires
            old(pt).wf(),
        ensures
            final(pt).wf(),
            table_preserved(*old(pt), *final(pt)),
            l.wf(old(pt)@.len() as int),
            !l.has_inner(),
            old(pt).pool_total(false) > 0 ==> l.spec_ents().len() > 0,
            forall|j: int|
                0 <= j < l.spec_ents().len() ==> old(pt).pool_weight(
                    false,
                    #[trigger] l.spec_ents()[j] as int,
                ) > 0,
            forall|j1: int, j2: int|
                0 <= j1 < j2 < l.spec_ents().len() ==> l.spec_ents()[j1] > l.spec_ents()[j2],
            forall|j: int, i: int|
                0 <= j < l.spec_ents().len() && 0 <= i < #[trigger] l.spec_ents()[j]
                    && #[trigger] old(pt).pool_weight(false, i) > 0 ==> exists|j2: int|
                    j < j2 < l.spec_ents().len() && l.spec_ents()[j2] as int == i,
    {
        let mut zs = ZeroSelector;
        let ents = pt.select_random_entries(LEARN_SESSIONS, false, &mut zs);
        let mut rev: Vec<usize> = Vec::new();
        let mut k = ents.len();
        while k > 0
            invariant
                k <= ents@.len(),
                rev@.len() == ents@.len() - k,
                forall|j: int|
                    0 <= j < rev@.len() ==> #[trigger] rev@[j] == ents@[ents@.len() - 1 - j],
            decreases k,
        {
            k = k - 1;
            rev.push(ents[k]);
        }
        proof {
            let m = ents@.len();
            assert forall|j: int|
                0 <= j < rev@.len() implies (#[trigger] rev@[j] as int) < old(pt)@.len() by {
                assert((ents@[m - 1 - j] as int) < old(pt)@.len());
            };
            assert forall|j: int|
                0 <= j < rev@.len() implies old(pt).pool_weight(
                false,
                #[trigger] rev@[j] as int,
            ) > 0 by {
                assert(rev@[j] == ents@[m - 1 - j]);
            };
            assert forall|j1: int, j2: int|
                0 <= j1 < j2 < rev@.len() implies rev@[j1] > rev@[j2] by {
                assert(rev@[j1] == ents@[m - 1 - j1]);
                assert(rev@[j2] == ents@[m - 1 - j2]);
                assert(ents@[m - 1 - j2] < ents@[m - 1 - j1]);
            };
            assert forall|j: int, i: int|
                0 <= j < rev@.len() && 0 <= i < #[trigger] rev@[j] && #[trigger] old(
                pt,
            ).pool_weight(false, i) > 0 implies exists|j2: int|
                j < j2 < rev@.len() && rev@[j2] as int == i by {
                assert(rev@[j] == ents@[m - 1 - j]);
                let j2e = choose|j2e: int| 0 <= j2e < m - 1 - j && ents@[j2e] as int == i;
                assert(rev@[m - 1 - j2e] == ents@[j2e]);
                assert(j < m - 1 - j2e < m);
            };
        }
        Learning { ents: rev, inner: None }
    }

    /// Starts the next `LearnSingle`, or advances the active one;
    /// yields nothing once the batch is exhausted.
    pub fn next<S: Selector>(
        &mut self,
        pt: &mut ProgressTable,
        classic: bool,
        sel: &mut S,
        pass: bool,
        depth: u16,
    ) -> (r: Option<UiMessage>)
        requires
            depth <= MAXDEPTH,
            old(pt).wf(),
            old(self).wf(old(pt)@.len() as int),
        ensures
            final(pt).wf(),
            table_preserved(*old(pt), *final(pt)),
            final(self).wf(old(pt)@.len() as int),
            match r {
                Some(m) => msg_in_range(m, old(pt)@.len() as int),
                None => true,
            },
            old(self).inner_ready() && depth < MAXDEPTH ==> (match old(self).inner_head() {
                Some(h) => r == Some(TMessage::<usize>::Display(h)) && final(self).spec_ents()
                    == old(self).spec_ents() && final(self).has_inner(),
                None => false,
            }),
            !old(self).has_inner() && old(self).spec_ents().len() == 0 ==> {
                &&& r is None
                &&& final(self).spec_ents() == old(self).spec_ents()
                &&& !final(self).has_inner()
            },
            !old(self).has_inner() && old(self).spec_ents().len() > 0 && depth + 2 <= MAXDEPTH
                ==> {
                &&& r == Some(TMessage::<usize>::Display(old(self).spec_ents().last()))
                &&& final(self).spec_ents() == old(self).spec_ents().drop_last()
                &&& final(self).has_inner()
            },
            old(self).has_inner() && old(self).spec_ents().len() > 0 && depth + 3 <= MAXDEPTH
                ==> r is Some,
        decreases MAXDEPTH - depth,
    {
        if depth >= MAXDEPTH {
            return None;
        }
        let has_inner = self.inner.is_some();
        if !has_inner {
            match self.ents.pop() {
                Some(tail) => {
                    self.inner = Some(LearnSingle::new(tail));
                    self.next(pt, classic, sel, pass, depth + 1)
                },
                None => None,
            }
        } else {
            let r0 = match &mut self.inner {
                Some(ls) => ls.next(pt, classic, sel, pass),
                None => None,
            };
            match r0 {
                Some(m) => Some(m),
                None => {
                    self.inner = None;
                    self.next(pt, classic, sel, pass, depth + 1)
                },
            }
        }
    }
}

/// The top-level state: assessment and learning in alternation,
/// forever.
#[derive(Debug)]
pub struct Main {
    inner: Option<Bivariant<Assessment, Learning>>,
}

impl Main {
    /// The assessment phase, when it is the active one.
    pub closed spec fn v1_state(&self) -> Option<Assessment> {
        match self.inner {
            Some(Bivariant::V1(a)) => Some(a),
            _ => None,
        }
    }

    /// The learning phase, when it is the active one.
    pub closed spec fn v2_state(&self) -> Option<Learning> {
        match self.inner {
            Some(Bivariant::V2(l)) => Some(l),
            _ => None,
        }
    }

    /// The active phase stays inside a table of `len` entries.
    pub closed spec fn wf(&self, len: int) -> bool {
        match self.inner {
            None => true,
            Some(Bivariant::V1(a)) => a.wf(len),
            Some(Bivariant::V2(l)) => l.wf(len),
        }
    }

    pub closed spec fn is_fresh(&self) -> bool {
        self.inner is None
    }

    pub fn new() -> (m: Main)
        ensures
            m.is_fresh(),
            forall|len: int| m.wf(len),
    {
        Main { inner: None }
    }

    /// Advances phases until one yields a message; yields nothing only
    /// when the depth budget runs out, which requires both pools to be
    /// out of weight.
    pub fn next<S: Selector>(
        &mut self,
        pt: &mut ProgressTable,
        classic: bool,
        sel: &mut S,
        pass: bool,
        depth: u16,
    ) -> (r: Option<UiMessage>)
        requires
            depth <= MAXDEPTH,
            old(pt).wf(),
            old(self).wf(old(pt)@.len() as int),
        ensures
            final(pt).wf(),
            table_preserved(*old(pt), *final(pt)),
            final(self).wf(old(pt)@.len() as int),
            match r {
                Some(m) => msg_in_range(m, old(pt)@.len() as int),
                None => true,
            },
            (match old(self).v1_state() {
                Some(a) => !a.spec_began() && a.spec_ents().len() > 0,
                None => false,
            }) && depth < MAXDEPTH ==> r == Some(TMessage::<usize>::NotifyAssessment) && (match (
                old(self).v1_state(),
                final(self).v1_state(),
            ) {
                (Some(a), Some(a2)) => a2.spec_began() && a2.spec_ents() == a.spec_ents(),
                _ => false,
            }),
            (match old(self).v1_state() {
                Some(a) => a.spec_began() && a.spec_ents().len() > 0,
                None => false,
            }) && depth < MAXDEPTH ==> (match (old(self).v1_state(), final(self).v1_state()) {
                (Some(a), Some(a2)) => r == Some(
                    TMessage::<usize>::Assess(a.spec_ents().last()),
                ) && a2.spec_began() && a2.spec_ents() == a.spec_ents().drop_last(),
                _ => false,
            }),
            (match old(self).v1_state() {
                Some(a) => a.spec_ents().len() == 0,
                None => false,
            }) && old(pt).pool_total(false) > 0 && depth + 4 <= MAXDEPTH ==> (r matches Some(
                TMessage::Display(_),
            )),
            (match old(self).v2_state() {
                Some(l) => !l.has_inner() && l.spec_ents().len() == 0,
                None => false,
            }) && old(pt).pool_total(true) > 0 && depth + 2 <= MAXDEPTH ==> r == Some(
                TMessage::<usize>::NotifyAssessment,
            ),
            old(self).v1_state() is Some && old(pt).pool_total(false) > 0 && depth + 4 <= MAXDEPTH
                ==> r is Some,
            old(self).v1_state() is Some && old(pt).pool_total(true) > 0 && depth + 6 <= MAXDEPTH
                ==> r is Some,
            (match old(self).v2_state() {
                Some(l) => !l.has_inner() && l.spec_ents().len() > 0,
                None => false,
            }) && depth + 3 <= MAXDEPTH ==> (match old(self).v2_state() {
                Some(l) => r == Some(TMessage::<usize>::Display(l.spec_ents().last())),
                None => false,
            }),
            old(self).v2_state() is Some && (old(pt).pool_total(true) > 0 || old(pt).pool_total(
                false,
            ) > 0) && depth + 5 <= MAXDEPTH ==> r is Some,
            old(self).is_fresh() && old(pt).pool_total(true) > 0 && depth + 2 <= MAXDEPTH
                ==> r == Some(TMessage::<usize>::NotifyAssessment),
            old(self).is_fresh() && old(pt).pool_total(true) == 0 && old(pt).pool_total(false)
                > 0 && depth + 5 <= MAXDEPTH ==> (r matches Some(TMessage::Display(_))),
            (old(pt).pool_total(true) > 0 || old(pt).pool_total(false) > 0) && depth + 7
                <= MAXDEPTH ==> r is Some,
        decreases MAXDEPTH - depth,
    {
        if depth >= MAXDEPTH {
            return None;
        }
        let variant: u8 = match &self.inner {
            None => 0,
            Some(Bivariant::V1(_)) => 1,
            Some(Bivariant::V2(_)) => 2,
        };
        if variant == 0 {
            self.inner = Some(Bivariant::V1(Assessment::new(pt, sel)));
            self.next(pt, classic, sel, pass, depth + 1)
        } else if variant == 1 {
            let r0 = match &mut self.inner {
                Some(Bivariant::V1(a)) => a.next(pass),
                _ => None,
            };
            match r0 {
                None => {
                    self.inner = Some(Bivariant::V2(Learning::new(pt)));
                    self.next(pt, classic, sel, pass, depth + 1)
                },
                Some(b) => Some(b),
            }
        } else {
            let r0 = match &mut self.inner {
                Some(Bivariant::V2(l)) => l.next(pt, classic, sel, pass, depth + 1),
                _ => None,
            };
            match r0 {
                None => {
                    self.inner = Some(Bivariant::V1(Assessment::new(pt, sel)));
                    self.next(pt, classic, sel, pass, depth + 1)
                },
                Some(b) => Some(b),
            }
        }
    }
}

/// A drill session: the progress table, the options, the top-level
/// state and the last message handed out.
pub struct Simulation {
    pub pt: ProgressTable,
    pub args: SimArgs,
    last_msg: Option<UiMessage>,
    state: Main,
}

impl Simulation {
    /// The progress table as a spec value.
    pub closed spec fn spec_pt(&self) -> ProgressTable {
        self.pt
    }

    /// The session options as a spec value.
    pub closed spec fn spec_args(&self) -> SimArgs {
        self.args
    }

    /// The state machine as a spec value.
    pub closed spec fn spec_state(&self) -> Main {
        self.state
    }

    /// The last message handed to the driver.
    pub closed spec fn spec_last(&self) -> Option<UiMessage> {
        self.last_msg
    }

    /// True when the previous message was an `Assess`, so the next
    /// call owes an answer.
    pub open spec fn expects_answer(&self) -> bool {
        match self.spec_last() {
            Some(TMessage::Assess(_)) => true,
            _ => false,
        }
    }

    /// The index quizzed by the previous message, if it was an
    /// `Assess`.
    pub open spec fn spec_last_assess(&self) -> Option<int> {
        match self.spec_last() {
            Some(TMessage::Assess(i)) => Some(i as int),
            _ => None,
        }
    }

    /// The session invariant: a well-formed table, a state machine
    /// whose indices fit it, and a last message that fits it too.
    pub closed spec fn wf(&self) -> bool {
        &&& self.pt.wf()
        &&& self.state.wf(self.pt@.len() as int)
        &&& (match self.last_msg {
            Some(m) => msg_in_range(m, self.pt@.len() as int),
            None => true,
        })
    }

    pub fn new(pt: ProgressTable, args: SimArgs) -> (s: Simulation)
        requires
            pt.wf(),
        ensures
            s.wf(),
            s.spec_pt() == pt,
            s.spec_args() == args,
            s.spec_last() is None,
            !s.expects_answer(),
            s.spec_state().is_fresh(),
    {
        Simulation { pt, args, last_msg: None, state: Main::new() }
    }

    /// Forgets the phase position and the pending message; the table
    /// is untouched.
    pub fn flush_state(&mut self)
        requires
            old(self).wf(),
        ensures
            final(self).wf(),
            final(self).spec_pt() == old(self).spec_pt(),
            final(self).spec_args() == old(self).spec_args(),
            final(self).spec_last() is None,
            !final(self).expects_answer(),
            final(self).spec_state().is_fresh(),
    {
        self.state = Main::new();
        self.last_msg = None;
    }

    /// One protocol step.  The driver supplies the answer text exactly
    /// when the previous message was an `Assess`; anything else is a
    /// protocol violation that leaves the session untouched.  An
    /// answered assessment is recorded in the table before the machine
    /// advances to the next message.
    pub fn next<S: Selector>(
        &mut self,
        topic: &Vec<TableEntry>,
        post: Option<String>,
        sel: &mut S,
    ) -> (r: Result<(UiMessage, Option<Change>), SimFault>)
        requires
            old(self).wf(),
            topic@.len() == old(self).spec_pt()@.len(),
        ensures
            final(self).wf(),
            final(self).spec_pt()@.len() == old(self).spec_pt()@.len(),
            ((post is Some) != old(self).expects_answer()) ==> (r matches Err(
                SimFault::BadMessage,
            )) && *final(self) == *old(self),
            ((post is Some) == old(self).expects_answer()) ==> {
                &&& (match old(self).spec_last_assess() {
                    Some(e) => set_post(
                        old(self).spec_pt()@,
                        final(self).spec_pt()@,
                        e,
                        answer_matches(post, topic@[e]),
                        old(self).spec_pt().spec_unit().0 as int,
                    ),
                    None => final(self).spec_pt()@ == old(self).spec_pt()@,
                })
                &&& (match r {
                    Ok((msg, change)) => {
                        &&& final(self).spec_last() == Some(msg)
                        &&& msg_in_range(msg, old(self).spec_pt()@.len() as int)
                        &&& (match old(self).spec_last_assess() {
                            Some(e) => (match change {
                                Some(c) => c.idx as int == e && c.pass == answer_matches(
                                    post,
                                    topic@[e],
                                ) && c.distrust == final(self).spec_pt()@[e].distrust.0,
                                None => false,
                            }),
                            None => change is None,
                        })
                    },
                    Err(f) => f matches SimFault::DepthExceeded,
                })
            },
            (r matches Err(SimFault::DepthExceeded)) ==> final(self).spec_pt().pool_total(true)
                == 0 && final(self).spec_pt().pool_total(false) == 0,
            ((post is Some) == old(self).expects_answer()) && (match old(
                self,
            ).spec_state().v1_state() {
                Some(a) => !a.spec_began() && a.spec_ents().len() > 0,
                None => false,
            }) ==> (match r {
                Ok((msg, _)) => msg == TMessage::<usize>::NotifyAssessment,
                Err(_) => false,
            }),
            ((post is Some) == old(self).expects_answer()) && (match old(
                self,
            ).spec_state().v1_state() {
                Some(a) => a.spec_began() && a.spec_ents().len() > 0,
                None => false,
            }) ==> (match (r, old(self).spec_state().v1_state()) {
                (Ok((msg, _)), Some(a)) => msg == TMessage::<usize>::Assess(
                    a.spec_ents().last(),
                ),
                _ => false,
            }),
            ((post is Some) == old(self).expects_answer()) && (match old(
                self,
            ).spec_state().v1_state() {
                Some(a) => a.spec_ents().len() == 0,
                None => false,
            }) && final(self).spec_pt().pool_total(false) > 0 ==> (match r {
                Ok((msg, _)) => msg matches TMessage::Display(_),
                Err(_) => false,
            }),
            ((post is Some) == old(self).expects_answer()) && (match old(
                self,
            ).spec_state().v2_state() {
                Some(l) => !l.has_inner() && l.spec_ents().len() == 0,
                None => false,
            }) && final(self).spec_pt().pool_total(true) > 0 ==> (match r {
                Ok((msg, _)) => msg == TMessage::<usize>::NotifyAssessment,
                Err(_) => false,
            }),
            ((post is Some) == old(self).expects_answer()) && (match old(
                self,
            ).spec_state().v2_state() {
                Some(l) => !l.has_inner() && l.spec_ents().len() > 0,
                None => false,
            }) ==> (match (r, old(self).spec_state().v2_state()) {
                (Ok((msg, _)), Some(l)) => msg == TMessage::<usize>::Display(
                    l.spec_ents().last(),
                ),
                _ => false,
            }),
            ((post is Some) == old(self).expects_answer()) && old(self).spec_state().is_fresh()
                && final(self).spec_pt().pool_total(true) > 0 ==> (match r {
                Ok((msg, _)) => msg == TMessage::<usize>::NotifyAssessment,
                Err(_) => false,
            }),
            ((post is Some) == old(self).expects_answer()) && old(self).spec_state().is_fresh()
                && final(self).spec_pt().pool_total(true) == 0 && final(self).spec_pt().pool_total(
                false,
            ) > 0 ==> (match r {
                Ok((msg, _)) => msg matches TMessage::Display(_),
                Err(_) => false,
            }),
            final(self).spec_args() == old(self).spec_args(),
            final(self).spec_pt().spec_capacity() == old(self).spec_pt().spec_capacity(),
            final(self).spec_pt().spec_age() == old(self).spec_pt().spec_age(),
            final(self).spec_pt().spec_args() == old(self).spec_pt().spec_args(),
            final(self).spec_pt().spec_unit() == old(self).spec_pt().spec_unit(),
            final(self).spec_pt().pool_cap() == old(self).spec_pt().pool_cap(),
            forall|b: bool, i: int|
                0 <= i < old(self).spec_pt().pool_cap() && Some(i) != old(self).spec_last_assess()
                    ==> #[trigger] final(self).spec_pt().pool_weight(b, i) == old(
                    self,
                ).spec_pt().pool_weight(b, i),
            old(self).spec_last_assess() is None ==> (forall|b: bool|
                #[trigger] final(self).spec_pt().pool_total(b) == old(self).spec_pt().pool_total(
                    b,
                )),
    {
        let expects = matches!(self.last_msg, Some(TMessage::Assess(_)));
        if expects != post.is_some() {
            return Err(SimFault::BadMessage);
        }
        let mut change: Option<Change> = None;
        let mut pass = false;
        if let Some(TMessage::Assess(ent)) = self.last_msg {
            let ans = post.unwrap();
            let b = topic[ent].assess(ans);
            self.pt.set(ent, b);
            let de = self.pt.entry_at(ent);
            change = Some(Change { idx: ent, pass: b, distrust: de.distrust.0 });
            pass = b;
        }
        let classic = self.args.classic;
        let r = self.state.next(&mut self.pt, classic, sel, pass, 1);
        match r {
            Some(m) => {
                self.last_msg = Some(m);
                Ok((m, change))
            },
            None => {
                proof {
                    self.pt.lemma_pool_total_nonneg(true);
                    self.pt.lemma_pool_total_nonneg(false);
                }
                Err(SimFault::DepthExceeded)
            },
        }
    }
}

} // verus!
