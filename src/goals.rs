//! Per-goal bookkeeping and the rank-ordered goal queues that back the
//! preference list.

use vstd::prelude::*;
use crate::discretes::{Goal, goal_id};

verus! {

/// Progress record of one goal.
#[derive(PartialEq, Eq, Structural, Clone, Copy, Debug)]
pub enum GoalData {
    /// A goal that either occurs at random times or only once.
    Satisfaction {
        /// The goal to be satisfied
        goal: Goal,
        /// Amount of acceptable units needed to satisfy this goal
        units_required: i32,
        /// Current units diverted to this goal
        units: i32,
        /// Unique id
        id: i32,
    },
    /// A regularly recurring goal.
    RegularSatisfaction {
        /// The goal to be satisfied
        goal: Goal,
        /// Time required for this goal to reoccur
        time_required: i32,
        /// Time since this goal was dismissed
        time: i32,
        /// Amount of acceptable units needed to satisfy this goal
        units_required: i32,
        /// Current units diverted to this goal
        units: i32,
        /// Unique id
        id: i32,
    },
}

impl GoalData {
    /// The goal this record tracks.
    pub open spec fn goal_of(self) -> Goal {
        match self {
            GoalData::Satisfaction { goal, .. } => goal,
            GoalData::RegularSatisfaction { goal, .. } => goal,
        }
    }

    /// Units used on this goal so far.
    pub open spec fn units_of(self) -> i32 {
        match self {
            GoalData::Satisfaction { units, .. } => units,
            GoalData::RegularSatisfaction { units, .. } => units,
        }
    }

    /// Units needed before the goal is satisfied.
    pub open spec fn units_required_of(self) -> i32 {
        match self {
            GoalData::Satisfaction { units_required, .. } => units_required,
            GoalData::RegularSatisfaction { units_required, .. } => units_required,
        }
    }

    /// The record with its unit counter set to `units`.
    pub open spec fn with_units(self, units: i32) -> GoalData {
        match self {
            GoalData::Satisfaction { goal, units_required, id, .. } => GoalData::Satisfaction {
                goal,
                units_required,
                units,
                id,
            },
            GoalData::RegularSatisfaction { goal, time_required, time, units_required, id, .. } =>
                GoalData::RegularSatisfaction { goal, time_required, time, units_required, units, id },
        }
    }

    /// The record with its recurrence timer set to `time` (one-shot records
    /// have no timer and stay as they are).
    pub open spec fn with_time(self, time: i32) -> GoalData {
        match self {
            GoalData::Satisfaction { .. } => self,
            GoalData::RegularSatisfaction { goal, time_required, units_required, units, id, .. } =>
                GoalData::RegularSatisfaction { goal, time_required, time, units_required, units, id },
        }
    }

    /// Get the goal this metadata might satisfy
    pub fn get_goal(&self) -> (r: Goal)
        ensures
            r == self.goal_of(),
    {
        match self {
            GoalData::Satisfaction { goal, .. } => *goal,
            GoalData::RegularSatisfaction { goal, .. } => *goal,
        }
    }

    /// Check if this goal should be in the recurrance list
    pub fn is_recurring(&self) -> (r: bool)
        ensures
            r == (self is RegularSatisfaction),
    {
        match self {
            GoalData::Satisfaction { .. } => false,
            _ => true,
        }
    }

    /// The record after one more unit is used on the goal (the counter
    /// saturates at its largest value).
    pub open spec fn used_once(self) -> GoalData {
        self.with_units(
            if self.units_of() < i32::MAX {
                (self.units_of() + 1) as i32
            } else {
                i32::MAX
            },
        )
    }

    /// Enough units have been used on the goal.
    pub open spec fn satisfied(self) -> bool {
        self.units_of() >= self.units_required_of()
    }

    /// The record after a tick; a goal out of active pursuit whose timer ran
    /// out is re-armed with a cleared unit counter.
    pub open spec fn rearmed(self, active: bool) -> GoalData {
        if self.expires() && !active {
            self.ticked().with_units(0)
        } else {
            self.ticked()
        }
    }

    /// A recurring record's timer runs out on this tick.
    pub open spec fn expires(self) -> bool {
        match self {
            GoalData::Satisfaction { .. } => false,
            GoalData::RegularSatisfaction { time, time_required, .. } => (if time < i32::MAX {
                time + 1
            } else {
                time as int
            }) >= time_required,
        }
    }

    /// The record after one tick: a recurring timer advances by one
    /// (saturating), or restarts from zero when it runs out.
    pub open spec fn ticked(self) -> GoalData {
        match self {
            GoalData::Satisfaction { .. } => self,
            GoalData::RegularSatisfaction { time, .. } => if self.expires() {
                self.with_time(0)
            } else {
                self.with_time(if time < i32::MAX { (time + 1) as i32 } else { time })
            },
        }
    }

    /// Advances the recurrence timer by one tick and tells whether it ran
    /// out (then it restarts from zero).
    pub fn tick_timer(&mut self) -> (expired: bool)
        ensures
            *final(self) == old(self).ticked(),
            expired == old(self).expires(),
    {
        match self {
            GoalData::Satisfaction { .. } => false,
            GoalData::RegularSatisfaction { time, time_required, .. } => {
                if *time < i32::MAX {
                    *time = *time + 1;
                }
                if *time >= *time_required {
                    *time = 0;
                    true
                } else {
                    false
                }
            },
        }
    }

    /// Clears the unit counter.
    pub fn reset_units(&mut self)
        ensures
            *final(self) == old(self).with_units(0),
    {
        match self {
            GoalData::Satisfaction { units, .. } => {
                *units = 0;
            },
            GoalData::RegularSatisfaction { units, .. } => {
                *units = 0;
            },
        }
    }

    /// Restarts the recurrence timer of a recurring record.
    pub fn reset_time(&mut self)
        ensures
            *final(self) == old(self).with_time(0),
    {
        match self {
            GoalData::Satisfaction { .. } => {},
            GoalData::RegularSatisfaction { time, .. } => {
                *time = 0;
            },
        }
    }

    /// Records one more unit used on the goal (saturating at the largest
    /// counter value) and tells whether the goal is now satisfied.
    pub fn record_unit(&mut self) -> (done: bool)
        ensures
            *final(self) == old(self).used_once(),
            done == final(self).satisfied(),
    {
        match self {
            GoalData::Satisfaction { units_required, units, .. } => {
                if *units < i32::MAX {
                    *units = *units + 1;
                }
                *units >= *units_required
            },
            GoalData::RegularSatisfaction { units_required, units, .. } => {
                if *units < i32::MAX {
                    *units = *units + 1;
                }
                *units >= *units_required
            },
        }
    }
}

/// A goal decorated with its rank, as stored in the rank-ordered queues.
/// A lower rank is a more valued goal; equal ranks fall back to the goal's
/// identifier so that the order is strict between different goals.
#[derive(PartialEq, Eq, Structural, Clone, Copy, Debug)]
pub struct GoalWrapper {
    /// The goal
    pub goal: Goal,
    /// Its rank in the goal hierarchy when it was queued
    pub rank: usize,
}

/// `a` comes strictly before `b` in a queue.
pub open spec fn precedes(a: GoalWrapper, b: GoalWrapper) -> bool {
    a.rank < b.rank || (a.rank == b.rank && goal_id(a.goal) < goal_id(b.goal))
}

/// The queue is strictly ordered, most valued goal first.
pub open spec fn queue_sorted(q: Seq<GoalWrapper>) -> bool {
    forall|i: int, j: int| 0 <= i < j < q.len() ==> precedes(#[trigger] q[i], #[trigger] q[j])
}

/// Some entry of the queue is for goal `g`.
pub open spec fn queue_has(q: Seq<GoalWrapper>, g: Goal) -> bool {
    exists|i: int| 0 <= i < q.len() && (#[trigger] q[i]).goal == g
}

impl GoalWrapper {
    /// Whether this entry is served before `other`.
    pub fn outranks(&self, other: &GoalWrapper) -> (r: bool)
        ensures
            r == precedes(*self, *other),
    {
        self.rank < other.rank || (self.rank == other.rank && self.goal.id() < other.goal.id())
    }
}

/// Inserts `w` at its ordered place.
pub fn queue_insert(q: &mut Vec<GoalWrapper>, w: GoalWrapper)
    requires
        queue_sorted(old(q)@),
        !queue_has(old(q)@, w.goal),
    ensures
        queue_sorted(final(q)@),
        final(q)@.len() == old(q)@.len() + 1,
        forall|x: GoalWrapper| #[trigger] final(q)@.contains(x) <==> (old(q)@.contains(x) || x == w),
{
    let mut i: usize = 0;
    while i < q.len() && q[i].outranks(&w)
        invariant
            i <= q@.len(),
            forall|k: int| 0 <= k < i ==> precedes(#[trigger] q@[k], w),
        decreases q@.len() - i,
    {
        i = i + 1;
    }
    proof {
        if i < q@.len() {
            assert(q@[i as int].goal != w.goal);
            assert(precedes(w, q@[i as int]));
        }
    }
    let ghost old_q = q@;
    q.insert(i, w);
    proof {
        assert(q@ == old_q.insert(i as int, w));
        assert forall|a: int, b: int| 0 <= a < b < q@.len() implies precedes(
            #[trigger] q@[a],
            #[trigger] q@[b],
        ) by {
            if b < i {
            } else if b == i {
            } else if a < i {
                assert(precedes(q@[a], w));
                assert(precedes(w, old_q[b - 1])) by {
                    if b - 1 > i {
                        assert(precedes(old_q[i as int], old_q[b - 1]));
                    }
                }
            } else if a == i {
                if b - 1 > i {
                    assert(precedes(old_q[i as int], old_q[b - 1]));
                }
            } else {
                assert(precedes(old_q[a - 1], old_q[b - 1]));
            }
        }
        assert forall|x: GoalWrapper| #[trigger] q@.contains(x) <==> (old_q.contains(x) || x == w) by {
            if q@.contains(x) {
                let k = choose|k: int| 0 <= k < q@.len() && q@[k] == x;
                if k < i {
                    assert(old_q[k] == x);
                } else if k > i {
                    assert(old_q[k - 1] == x);
                }
            }
            if old_q.contains(x) {
                let k = choose|k: int| 0 <= k < old_q.len() && old_q[k] == x;
                if k < i {
                    assert(q@[k] == x);
                } else {
                    assert(q@[k + 1] == x);
                }
            }
            if x == w {
                assert(q@[i as int] == x);
            }
        }
    }
}

/// The queue without any entry for goal `g`, order kept.
pub fn queue_without(q: &Vec<GoalWrapper>, g: Goal) -> (r: Vec<GoalWrapper>)
    requires
        queue_sorted(q@),
    ensures
        queue_sorted(r@),
        forall|x: GoalWrapper| #[trigger] r@.contains(x) <==> (q@.contains(x) && x.goal != g),
{
    let mut r: Vec<GoalWrapper> = Vec::new();
    let mut i: usize = 0;
    while i < q.len()
        invariant
            i <= q@.len(),
            queue_sorted(q@),
            queue_sorted(r@),
            forall|j: int| 0 <= j < r@.len() ==> exists|k: int| 0 <= k < i && q@[k] == #[trigger] r@[j],
            forall|k: int| 0 <= k < i && q@[k].goal != g ==> r@.contains(#[trigger] q@[k]),
            forall|x: GoalWrapper| #[trigger] r@.contains(x) ==> x.goal != g,
        decreases q@.len() - i,
    {
        let w = q[i];
        if w.goal != g {
            let ghost old_r = r@;
            r.push(w);
            proof {
                assert forall|a: int, b: int| 0 <= a < b < r@.len() implies precedes(
                    #[trigger] r@[a],
                    #[trigger] r@[b],
                ) by {
                    if b == r@.len() - 1 {
                        let k = choose|k: int| 0 <= k < i && q@[k] == #[trigger] old_r[a];
                        assert(precedes(q@[k], q@[i as int]));
                    } else {
                        assert(precedes(old_r[a], old_r[b]));
                    }
                }
                assert forall|j: int| 0 <= j < r@.len() implies exists|k: int|
                    0 <= k < i + 1 && q@[k] == #[trigger] r@[j] by {
                    if j < old_r.len() {
                        assert(old_r[j] == r@[j]);
                        let k = choose|k: int| 0 <= k < i && q@[k] == #[trigger] old_r[j];
                        assert(q@[k] == r@[j]);
                    } else {
                        assert(q@[i as int] == r@[j]);
                    }
                }
                assert forall|k: int| 0 <= k < i + 1 && q@[k].goal != g implies r@.contains(
                    #[trigger] q@[k],
                ) by {
                    if k < i {
                        assert(old_r.contains(q@[k]));
                        let j = choose|j: int| 0 <= j < old_r.len() && old_r[j] == q@[k];
                        assert(r@[j] == q@[k]);
                    } else {
                        assert(r@[r@.len() - 1] == q@[k]);
                    }
                }
                assert forall|x: GoalWrapper| #[trigger] r@.contains(x) implies x.goal != g by {
                    let j = choose|j: int| 0 <= j < r@.len() && r@[j] == x;
                    if j < old_r.len() {
                        assert(old_r[j] == x);
                        assert(old_r.contains(x));
                    } else {
                        assert(r@[j] == w);
                    }
                }
            }
        }
        i = i + 1;
    }
    proof {
        assert forall|x: GoalWrapper| #[trigger] r@.contains(x) <==> (q@.contains(x) && x.goal != g) by {
            if r@.contains(x) {
                let j = choose|j: int| 0 <= j < r@.len() && r@[j] == x;
                let k = choose|k: int| 0 <= k < i && q@[k] == #[trigger] r@[j];
                assert(q@[k] == x);
            }
        }
    }
    r
}

/// Whether the queue holds an entry for `g`.
pub fn queue_has_goal(q: &Vec<GoalWrapper>, g: Goal) -> (r: bool)
    ensures
        r == queue_has(q@, g),
{
    let mut i: usize = 0;
    while i < q.len()
        invariant
            i <= q@.len(),
            forall|k: int| 0 <= k < i ==> (#[trigger] q@[k]).goal != g,
        decreases q@.len() - i,
    {
        if q[i].goal == g {
            return true;
        }
        i = i + 1;
    }
    false
}

} // verus!
