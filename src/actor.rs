//! The actor: goal hierarchy, goal registry, preference list and inventory,
//! with the operations that keep them consistent.

use vstd::prelude::*;
use core::cmp::Ordering;
use crate::discretes::{
    Goal, Item, GOAL_COUNT, ITEM_COUNT, goal_id, item_id, lemma_goal_ids, lemma_item_ids,
};
use crate::goals::{
    GoalData, GoalWrapper, precedes, queue_sorted, queue_has, queue_insert, queue_without,
    queue_has_goal,
};

verus! {

/// Where an actor stands in the bargaining protocol.
#[derive(PartialEq, Eq, Structural, Clone, Copy, Debug)]
pub enum ActorState {
    /// Needs a goal (previous goals satisfied)
    SearchingForGoal,
    /// Needs an item and scans actors from index `next` on for a partner
    WillingToTrade { next: usize },
    /// Found an actor to bid with; bidding begins on the next tick
    FoundTradePartner { partner: usize },
    /// Bidding with `partner`: `offer` is the position in the own inventory
    /// of the next item offered, `ask` the position in the partner's list of
    /// matching items of the next item asked for
    Bidding { partner: usize, offer: usize, ask: usize },
    /// Waiting on the other side of a bid started by `initiator`, holding the
    /// item last offered to it and the item last asked of it
    BidRecipient { initiator: usize, offered: Option<Item>, requested: Option<Item> },
}

/// How an item's worth compares: an item that serves no active goal is worth
/// least; otherwise the lower the rank of its best goal, the more it is worth.
/// `Greater` means that the first item is worth more.
pub open spec fn worth_cmp(a: Option<usize>, b: Option<usize>) -> Ordering {
    match (a, b) {
        (None, None) => Ordering::Equal,
        (None, Some(_)) => Ordering::Less,
        (Some(_), None) => Ordering::Greater,
        (Some(x), Some(y)) => if x > y {
            Ordering::Less
        } else if x < y {
            Ordering::Greater
        } else {
            Ordering::Equal
        },
    }
}

/// `a` is worth no more than `b`.
pub open spec fn worth_le(a: Option<usize>, b: Option<usize>) -> bool {
    worth_cmp(a, b) != Ordering::Greater
}

/// Worth comparison is transitive.
pub proof fn lemma_worth_le_trans(a: Option<usize>, b: Option<usize>, c: Option<usize>)
    requires
        worth_le(a, b),
        worth_le(b, c),
    ensures
        worth_le(a, c),
{
}

/// Any two worths are comparable.
pub proof fn lemma_worth_le_total(a: Option<usize>, b: Option<usize>)
    ensures
        worth_le(a, b) || worth_le(b, a),
{
}

/// An economic actor.
pub struct Actor {
    /// Name for printouts
    name: String,
    /// Record of every registered goal, by goal identifier
    goal_registry: Vec<Option<GoalData>>,
    /// Rank given to each registered goal, by goal identifier
    assigned_ranks: Vec<usize>,
    /// Rank of each goal in active pursuit, by goal identifier
    goal_hierarchy: Vec<Option<usize>>,
    /// Every goal in active pursuit, most valued first
    current_goals: Vec<GoalWrapper>,
    /// For each item (by identifier), the active goals it can satisfy,
    /// most valued first
    preference_list: Vec<Vec<GoalWrapper>>,
    /// For each goal (by identifier), the items that can satisfy it
    satisfactions: Vec<Vec<Item>>,
    /// Items held, from least to most worth
    inventory: Vec<Item>,
    /// Bargaining state
    state: ActorState,
}

impl Actor {
    /// Rank of `g` in the goal hierarchy, if it is in active pursuit.
    pub closed spec fn rank(self, g: Goal) -> Option<usize> {
        self.goal_hierarchy@[goal_id(g) as int]
    }

    /// `g` is in active pursuit.
    pub open spec fn active(self, g: Goal) -> bool {
        self.rank(g) is Some
    }

    /// The registered record of `g`.
    pub closed spec fn record(self, g: Goal) -> Option<GoalData> {
        self.goal_registry@[goal_id(g) as int]
    }

    /// The rank `g` was registered with; it is pursued at this rank.
    pub closed spec fn assigned_rank(self, g: Goal) -> usize {
        self.assigned_ranks@[goal_id(g) as int]
    }

    /// The items that can satisfy `g`.
    pub closed spec fn satisfiers(self, g: Goal) -> Seq<Item> {
        self.satisfactions@[goal_id(g) as int]@
    }

    /// `item` can currently be used for `g`.
    pub open spec fn serves(self, item: Item, g: Goal) -> bool {
        self.active(g) && self.satisfiers(g).contains(item)
    }

    /// The queue entry of a registered goal.
    pub open spec fn entry(self, g: Goal) -> GoalWrapper {
        GoalWrapper { goal: g, rank: self.assigned_rank(g) }
    }

    /// `g` is valued above `h`: lower rank, or equal rank and lower identifier.
    pub open spec fn valued_above(self, g: Goal, h: Goal) -> bool {
        precedes(self.entry(g), self.entry(h))
    }

    /// The preference queue of `item`.
    pub closed spec fn queue(self, item: Item) -> Seq<GoalWrapper> {
        self.preference_list@[item_id(item) as int]@
    }

    /// The goals in active pursuit, most valued first.
    pub closed spec fn goals_in_play(self) -> Seq<GoalWrapper> {
        self.current_goals@
    }

    /// The most valued active goal that `item` can satisfy.
    pub closed spec fn best_goal(self, item: Item) -> Option<Goal> {
        if self.queue(item).len() > 0 {
            Some(self.queue(item)[0].goal)
        } else {
            None
        }
    }

    /// The worth of `item`: the rank of its best goal.
    pub closed spec fn worth(self, item: Item) -> Option<usize> {
        if self.queue(item).len() > 0 {
            Some(self.queue(item)[0].rank)
        } else {
            None
        }
    }

    /// How `a` compares in worth with `b`.
    pub open spec fn item_order(self, a: Item, b: Item) -> Ordering {
        worth_cmp(self.worth(a), self.worth(b))
    }

    /// Items held, from least to most worth.
    pub closed spec fn inventory_view(self) -> Seq<Item> {
        self.inventory@
    }

    /// Bargaining state.
    pub closed spec fn state_view(self) -> ActorState {
        self.state
    }

    /// The actor's name.
    pub closed spec fn name_view(self) -> Seq<char> {
        self.name@
    }

    /// The inventory is ordered by worth, least first.
    pub open spec fn inventory_sorted(self) -> bool {
        forall|i: int, j: int|
            0 <= i < j < self.inventory_view().len() ==> worth_le(
                self.worth(#[trigger] self.inventory_view()[i]),
                self.worth(#[trigger] self.inventory_view()[j]),
            )
    }

    /// Shapes of the per-goal and per-item tables.
    closed spec fn tables_ok(self) -> bool {
        &&& self.goal_registry@.len() == GOAL_COUNT
        &&& self.assigned_ranks@.len() == GOAL_COUNT
        &&& self.goal_hierarchy@.len() == GOAL_COUNT
        &&& self.satisfactions@.len() == GOAL_COUNT
        &&& self.preference_list@.len() == ITEM_COUNT
    }

    /// Records are filed under their own goal; active goals are registered
    /// and ranked at their assigned rank.
    closed spec fn records_ok(self) -> bool {
        &&& forall|g: Goal| #[trigger] self.record(g) is Some ==> self.record(g)->0.goal_of() == g
        &&& forall|g: Goal|
            #[trigger] self.active(g) ==> self.record(g) is Some && self.rank(g) == Some(
                self.assigned_rank(g),
            )
    }

    /// The queue of goals in play holds exactly the active goals, in order.
    closed spec fn in_play_ok(self) -> bool {
        &&& queue_sorted(self.current_goals@)
        &&& forall|w: GoalWrapper| #[trigger]
            self.current_goals@.contains(w) <==> (self.active(w.goal) && w == self.entry(w.goal))
    }

    /// Each item's queue holds exactly the active goals the item serves, in order.
    closed spec fn queues_ok(self) -> bool {
        &&& forall|item: Item| queue_sorted(#[trigger] self.queue(item))
        &&& forall|item: Item, w: GoalWrapper| #[trigger]
            self.queue(item).contains(w) <==> (self.serves(item, w.goal) && w == self.entry(w.goal))
    }

    /// Well-formedness of everything but the inventory's order.
    pub closed spec fn wf_goals(self) -> bool {
        &&& self.tables_ok()
        &&& self.records_ok()
        &&& self.in_play_ok()
        &&& self.queues_ok()
    }

    /// Well-formedness of the actor.
    pub open spec fn wf(self) -> bool {
        self.wf_goals() && self.inventory_sorted()
    }

    /// `self` differs from `other` in the inventory at most.
    pub closed spec fn same_but_inventory(self, other: Actor) -> bool {
        self.same_goals(other) && self.state == other.state
    }

    /// `self` agrees with `other` on everything but the inventory and the
    /// bargaining state.
    pub closed spec fn same_goals(self, other: Actor) -> bool {
        &&& self.name == other.name
        &&& self.goal_registry == other.goal_registry
        &&& self.assigned_ranks == other.assigned_ranks
        &&& self.goal_hierarchy == other.goal_hierarchy
        &&& self.current_goals == other.current_goals
        &&& self.preference_list == other.preference_list
        &&& self.satisfactions == other.satisfactions
    }

    /// Facts that follow from `same_goals`.
    pub proof fn lemma_same_goals(self, other: Actor)
        requires
            self.same_goals(other),
        ensures
            forall|g: Goal| #[trigger] self.rank(g) == other.rank(g),
            forall|g: Goal| #[trigger] self.record(g) == other.record(g),
            forall|g: Goal| #[trigger] self.assigned_rank(g) == other.assigned_rank(g),
            forall|g: Goal| #[trigger] self.satisfiers(g) == other.satisfiers(g),
            forall|item: Item| #[trigger] self.queue(item) == other.queue(item),
            forall|item: Item| #[trigger] self.worth(item) == other.worth(item),
            forall|item: Item| #[trigger] self.best_goal(item) == other.best_goal(item),
            self.goals_in_play() == other.goals_in_play(),
            self.top_goal() == other.top_goal(),
            self.name_view() == other.name_view(),
            self.wf_goals() ==> other.wf_goals(),
            other.wf_goals() ==> self.wf_goals(),
    {
        assert forall|item: Item|
            #![trigger self.queue(item)]
            #![trigger other.queue(item)]
            self.queue(item) == other.queue(item) by {}
        assert forall|g: Goal|
            #![trigger self.record(g)]
            #![trigger other.record(g)]
            self.record(g) == other.record(g) by {}
        assert forall|g: Goal|
            #![trigger self.active(g)]
            #![trigger other.active(g)]
            self.active(g) == other.active(g) && self.rank(g) == other.rank(g) by {}
        assert forall|g: Goal|
            #![trigger self.entry(g)]
            #![trigger other.entry(g)]
            self.entry(g) == other.entry(g) by {}
        assert forall|item: Item, g: Goal|
            #![trigger self.serves(item, g)]
            #![trigger other.serves(item, g)]
            self.serves(item, g) == other.serves(item, g) by {}
        assert(self.tables_ok() == other.tables_ok());
        assert(self.records_ok() == other.records_ok());
        assert(self.in_play_ok() == other.in_play_ok());
        assert(self.queues_ok() == other.queues_ok());
    }

    /// Facts that follow from `same_but_inventory`.
    pub proof fn lemma_same_but_inventory(self, other: Actor)
        requires
            self.same_but_inventory(other),
        ensures
            forall|g: Goal| #[trigger] self.rank(g) == other.rank(g),
            forall|g: Goal| #[trigger] self.record(g) == other.record(g),
            forall|g: Goal| #[trigger] self.assigned_rank(g) == other.assigned_rank(g),
            forall|g: Goal| #[trigger] self.satisfiers(g) == other.satisfiers(g),
            forall|item: Item| #[trigger] self.queue(item) == other.queue(item),
            forall|item: Item| #[trigger] self.worth(item) == other.worth(item),
            forall|item: Item| #[trigger] self.best_goal(item) == other.best_goal(item),
            self.goals_in_play() == other.goals_in_play(),
            self.top_goal() == other.top_goal(),
            self.state_view() == other.state_view(),
            self.name_view() == other.name_view(),
            self.wf_goals() ==> other.wf_goals(),
            other.wf_goals() ==> self.wf_goals(),
    {
        self.lemma_same_goals(other);
    }

    /// An active goal is registered and ranked at its assigned rank.
    pub proof fn lemma_active_ranked(self, g: Goal)
        requires
            self.wf_goals(),
            self.active(g),
        ensures
            self.record(g) is Some,
            self.record(g)->0.goal_of() == g,
            self.rank(g) == Some(self.assigned_rank(g)),
    {
    }

    /// The best goal of an item is its most valued active goal, and the
    /// item's worth is that goal's rank.
    pub proof fn lemma_best_goal(self, item: Item)
        requires
            self.wf_goals(),
        ensures
            self.best_goal(item) is None <==> forall|g: Goal| !#[trigger] self.serves(item, g),
            self.best_goal(item) is Some ==> {
                let g = self.best_goal(item)->0;
                &&& self.serves(item, g)
                &&& self.worth(item) == self.rank(g)
                &&& forall|h: Goal| #[trigger] self.serves(item, h) && h != g ==> self.valued_above(g, h)
            },
            self.best_goal(item) is None ==> self.worth(item) is None,
    {
        let q = self.queue(item);
        if q.len() > 0 {
            assert(q.contains(q[0]));
            let g = q[0].goal;
            assert forall|h: Goal| #[trigger] self.serves(item, h) && h != g implies self.valued_above(g, h) by {
                assert(q.contains(self.entry(h)));
                let k = choose|k: int| 0 <= k < q.len() && q[k] == self.entry(h);
                assert(k != 0);
                assert(precedes(q[0], q[k]));
            }
        } else {
            assert forall|g: Goal| !#[trigger] self.serves(item, g) by {
                if self.serves(item, g) {
                    assert(q.contains(self.entry(g)));
                }
            }
        }
    }

    /// Get the highest-valued goal which can be satisfied with this item
    pub fn get_best_goal(&self, item: Item) -> (r: Option<Goal>)
        requires
            self.wf_goals(),
        ensures
            r == self.best_goal(item),
            r is None <==> forall|g: Goal| !#[trigger] self.serves(item, g),
            r is Some ==> self.serves(item, r->0) && forall|h: Goal| #[trigger]
                self.serves(item, h) && h != r->0 ==> self.valued_above(r->0, h),
    {
        proof {
            self.lemma_best_goal(item);
        }
        let q = &self.preference_list[item.id()];
        if q.len() > 0 {
            Some(q[0].goal)
        } else {
            None
        }
    }

    /// Worth of `item` as the rank of its best goal.
    fn worth_of(&self, item: Item) -> (r: Option<usize>)
        requires
            self.wf_goals(),
        ensures
            r == self.worth(item),
    {
        let q = &self.preference_list[item.id()];
        if q.len() > 0 {
            Some(q[0].rank)
        } else {
            None
        }
    }

    /// Compare two items to see which is more valuable based on the goals it can satisfy
    pub fn compare_item_values(&self, a: Item, b: Item) -> (r: Ordering)
        requires
            self.wf_goals(),
        ensures
            r == self.item_order(a, b),
    {
        let a_val = self.worth_of(a);
        let b_val = self.worth_of(b);
        match (a_val, b_val) {
            (None, None) => Ordering::Equal,
            (None, Some(_)) => Ordering::Less,
            (Some(_), None) => Ordering::Greater,
            (Some(x), Some(y)) => if x > y {
                Ordering::Less
            } else if x < y {
                Ordering::Greater
            } else {
                Ordering::Equal
            },
        }
    }

    /// Adds item to inventory in a sorted manner: after every held item of
    /// no more worth and before every held item of more worth.
    pub fn add_item(&mut self, item: Item)
        requires
            old(self).wf(),
        ensures
            final(self).wf(),
            final(self).inventory_sorted(),
            final(self).same_but_inventory(*old(self)),
            exists|p: int|
                0 <= p <= old(self).inventory_view().len() && final(self).inventory_view()
                    == old(self).inventory_view().insert(p, item) && (forall|k: int|
                    0 <= k < p ==> worth_le(
                        old(self).worth(#[trigger] old(self).inventory_view()[k]),
                        old(self).worth(item),
                    )) && (forall|k: int|
                    p <= k < old(self).inventory_view().len() ==> !worth_le(
                        old(self).worth(#[trigger] old(self).inventory_view()[k]),
                        old(self).worth(item),
                    )),
            final(self).inventory_view().to_multiset() == old(self).inventory_view().to_multiset().insert(
                item,
            ),
    {
        let ghost inv = self.inventory@;
        let mut i: usize = 0;
        while i < self.inventory.len()
            invariant
                self.wf(),
                self.inventory@ == inv,
                i <= inv.len(),
                forall|k: int| 0 <= k < i ==> worth_le(self.worth(#[trigger] inv[k]), self.worth(item)),
            ensures
                i < inv.len() ==> !worth_le(self.worth(inv[i as int]), self.worth(item)),
            decreases inv.len() - i,
        {
            if matches!(self.compare_item_values(self.inventory[i], item), Ordering::Greater) {
                break;
            }
            i = i + 1;
        }
        let ghost before = *self;
        self.inventory.insert(i, item);
        proof {
            let p = i as int;
            inv.insert_ensures(p, item);
            assert(self.inventory@ == inv.insert(p, item));
            assert(self.same_but_inventory(before));
            before.lemma_same_but_inventory(*self);
            assert forall|k: int| p <= k < inv.len() implies !worth_le(
                self.worth(#[trigger] inv[k]),
                self.worth(item),
            ) by {
                if k > p {
                    assert(worth_le(self.worth(inv[p]), self.worth(inv[k])));
                    if worth_le(self.worth(inv[k]), self.worth(item)) {
                        lemma_worth_le_trans(self.worth(inv[p]), self.worth(inv[k]), self.worth(item));
                    }
                }
            }
            assert forall|a: int, b: int| 0 <= a < b < self.inventory_view().len() implies worth_le(
                self.worth(#[trigger] self.inventory_view()[a]),
                self.worth(#[trigger] self.inventory_view()[b]),
            ) by {
                if b < p {
                    assert(worth_le(self.worth(inv[a]), self.worth(inv[b])));
                } else if b == p {
                } else if a < p {
                    assert(!worth_le(self.worth(inv[b - 1]), self.worth(item)));
                    lemma_worth_le_total(self.worth(inv[b - 1]), self.worth(item));
                    lemma_worth_le_trans(self.worth(inv[a]), self.worth(item), self.worth(inv[b - 1]));
                } else if a == p {
                    lemma_worth_le_total(self.worth(inv[b - 1]), self.worth(item));
                } else {
                    assert(worth_le(self.worth(inv[a - 1]), self.worth(inv[b - 1])));
                }
            }
            assert(self.inventory@.remove(p) =~= inv);
            inv.insert(p, item).to_multiset_ensures();
            assert(inv.insert(p, item).to_multiset() =~= inv.to_multiset().insert(item));
        }
    }
}


impl Actor {
    /// `self` agrees with `other` on everything but the inventory and the
    /// rank, assigned rank and record of `g`.
    pub closed spec fn same_but_goal(self, other: Actor, g: Goal) -> bool {
        &&& forall|h: Goal| h != g ==> #[trigger] self.rank(h) == other.rank(h)
        &&& forall|h: Goal| h != g ==> #[trigger] self.record(h) == other.record(h)
        &&& forall|h: Goal| h != g ==> #[trigger] self.assigned_rank(h) == other.assigned_rank(h)
        &&& forall|h: Goal| #[trigger] self.satisfiers(h) == other.satisfiers(h)
        &&& self.name == other.name
        &&& self.state == other.state
    }

    /// Facts that follow from `same_but_goal`.
    pub proof fn lemma_same_but_goal(self, other: Actor, g: Goal)
        requires
            self.same_but_goal(other, g),
        ensures
            forall|h: Goal| h != g ==> #[trigger] self.rank(h) == other.rank(h),
            forall|h: Goal| h != g ==> #[trigger] self.record(h) == other.record(h),
            forall|h: Goal| h != g ==> #[trigger] self.assigned_rank(h) == other.assigned_rank(h),
            forall|h: Goal| #[trigger] self.satisfiers(h) == other.satisfiers(h),
            self.name_view() == other.name_view(),
            self.state_view() == other.state_view(),
    {
    }

    /// Rewrites the records and assigned ranks of goals outside active
    /// pursuit (and the records of active goals, keeping them registered):
    /// well-formedness and every item's worth carry over.
    proof fn lemma_records_changed(self, other: Actor)
        requires
            other.wf_goals(),
            self.goal_registry@.len() == GOAL_COUNT,
            self.assigned_ranks@.len() == GOAL_COUNT,
            self.goal_hierarchy == other.goal_hierarchy,
            self.current_goals == other.current_goals,
            self.preference_list == other.preference_list,
            self.satisfactions == other.satisfactions,
            forall|h: Goal| #[trigger] self.record(h) is Some ==> self.record(h)->0.goal_of() == h,
            forall|h: Goal|
                #[trigger] other.active(h) ==> self.record(h) is Some && self.assigned_rank(h)
                    == other.assigned_rank(h),
        ensures
            self.wf_goals(),
            forall|item: Item| #[trigger] self.worth(item) == other.worth(item),
    {
        assert forall|h: Goal| #[trigger] self.active(h) implies self.record(h) is Some
            && self.rank(h) == Some(self.assigned_rank(h)) by {
            assert(other.active(h));
        }
        assert forall|item: Item| queue_sorted(#[trigger] self.queue(item)) by {
            assert(self.queue(item) == other.queue(item));
        }
        assert forall|x: GoalWrapper| #[trigger]
            self.current_goals@.contains(x) <==> (self.active(x.goal) && x == self.entry(x.goal)) by {
            assert(other.current_goals@.contains(x) <==> (other.active(x.goal) && x == other.entry(x.goal)));
            if other.active(x.goal) {
                assert(self.entry(x.goal) == other.entry(x.goal));
            }
        }
        assert forall|item: Item, x: GoalWrapper| #[trigger]
            self.queue(item).contains(x) <==> (self.serves(item, x.goal) && x == self.entry(x.goal)) by {
            assert(other.queue(item).contains(x) <==> (other.serves(item, x.goal) && x == other.entry(x.goal)));
            assert(self.queue(item) == other.queue(item));
            assert(self.satisfiers(x.goal) == other.satisfiers(x.goal));
            assert(self.rank(x.goal) == other.rank(x.goal));
            if other.active(x.goal) {
                assert(self.entry(x.goal) == other.entry(x.goal));
            }
        }
        assert forall|item: Item| #[trigger] self.worth(item) == other.worth(item) by {
            assert(self.queue(item) == other.queue(item));
        }
        assert(self.tables_ok());
        assert(self.records_ok());
        assert(self.in_play_ok());
        assert(self.queues_ok());
    }

    /// Reorders the inventory by worth.
    fn sort_inventory(&mut self)
        requires
            old(self).wf_goals(),
        ensures
            final(self).wf(),
            final(self).same_but_inventory(*old(self)),
            final(self).inventory_view().to_multiset() == old(self).inventory_view().to_multiset(),
    {
        let ghost orig = *self;
        let mut items: Vec<Item> = Vec::new();
        std::mem::swap(&mut items, &mut self.inventory);
        proof {
            self.lemma_same_but_inventory(orig);
            assert(self.inventory@ =~= items@.subrange(0, 0));
        }
        let mut i: usize = 0;
        while i < items.len()
            invariant
                self.wf(),
                self.same_but_inventory(orig),
                items@ == orig.inventory@,
                i <= items@.len(),
                self.inventory@.to_multiset() == items@.subrange(0, i as int).to_multiset(),
            decreases items@.len() - i,
        {
            let ghost prev = self.inventory@;
            self.add_item(items[i]);
            proof {
                assert(items@.subrange(0, i + 1) =~= items@.subrange(0, i as int).push(items@[i as int]));
                items@.subrange(0, i as int).to_multiset_ensures();
            }
            i = i + 1;
        }
        proof {
            assert(items@.subrange(0, i as int) =~= items@);
        }
    }

    /// Takes `g` out of every queue and out of the hierarchy; its record stays.
    fn deactivate(&mut self, g: Goal)
        requires
            old(self).wf_goals(),
            old(self).active(g),
        ensures
            final(self).wf_goals(),
            final(self).rank(g) is None,
            forall|h: Goal| h != g ==> #[trigger] final(self).rank(h) == old(self).rank(h),
            final(self).goal_registry == old(self).goal_registry,
            final(self).assigned_ranks == old(self).assigned_ranks,
            final(self).satisfactions == old(self).satisfactions,
            final(self).name == old(self).name,
            final(self).state == old(self).state,
            final(self).inventory == old(self).inventory,
    {
        let ghost orig = *self;
        let gid = g.id();
        let n = self.satisfactions[gid].len();
        let mut k: usize = 0;
        while k < n
            invariant
                orig.wf_goals(),
                orig.active(g),
                gid == goal_id(g),
                n == orig.satisfiers(g).len(),
                k <= n,
                self.goal_registry == orig.goal_registry,
                self.assigned_ranks == orig.assigned_ranks,
                self.goal_hierarchy == orig.goal_hierarchy,
                self.current_goals == orig.current_goals,
                self.satisfactions == orig.satisfactions,
                self.name == orig.name,
                self.state == orig.state,
                self.inventory == orig.inventory,
                self.preference_list@.len() == ITEM_COUNT,
                forall|item: Item| queue_sorted(#[trigger] self.queue(item)),
                forall|item: Item, w: GoalWrapper| #[trigger]
                    self.queue(item).contains(w) <==> (orig.queue(item).contains(w) && (w.goal != g
                        || !orig.satisfiers(g).subrange(0, k as int).contains(item))),
            decreases n - k,
        {
            let item = self.satisfactions[gid][k];
            let iid = item.id();
            assert(queue_sorted(self.queue(item)));
            let q = queue_without(&self.preference_list[iid], g);
            let ghost before = *self;
            self.preference_list[iid] = q;
            proof {
                lemma_item_ids();
                let pre = orig.satisfiers(g).subrange(0, k as int);
                let post = orig.satisfiers(g).subrange(0, k + 1);
                assert(post =~= pre.push(item));
                assert forall|it: Item| queue_sorted(#[trigger] self.queue(it)) by {
                    if it != item {
                        assert(self.queue(it) == before.queue(it));
                    }
                }
                assert forall|it: Item, w: GoalWrapper| #[trigger]
                    self.queue(it).contains(w) <==> (orig.queue(it).contains(w) && (w.goal != g
                        || !post.contains(it))) by {
                    if it != item {
                        assert(self.queue(it) == before.queue(it));
                        if post.contains(it) {
                            let j = choose|j: int| 0 <= j < post.len() && post[j] == it;
                            assert(pre[j] == it);
                        }
                        assert(post.contains(it) == pre.contains(it));
                    } else {
                        assert(post[k as int] == item);
                    }
                }
            }
            k = k + 1;
        }
        let ghost mid = *self;
        let cg = queue_without(&self.current_goals, g);
        self.current_goals = cg;
        self.goal_hierarchy[gid] = None;
        proof {
            lemma_goal_ids();
            assert(orig.satisfiers(g).subrange(0, n as int) =~= orig.satisfiers(g));
            assert forall|h: Goal| h != g implies #[trigger] self.rank(h) == orig.rank(h) by {
                assert(goal_id(h) != goal_id(g));
            }
            assert forall|item: Item| queue_sorted(#[trigger] self.queue(item)) by {
                assert(self.queue(item) == mid.queue(item));
            }
            assert forall|h: Goal| #[trigger] self.record(h) is Some implies self.record(h)->0.goal_of() == h by {
                assert(self.record(h) == orig.record(h));
            }
            assert forall|h: Goal| #[trigger] self.active(h) implies self.record(h) is Some
                && self.rank(h) == Some(self.assigned_rank(h)) by {
                assert(orig.active(h));
                assert(self.record(h) == orig.record(h));
                assert(self.assigned_rank(h) == orig.assigned_rank(h));
            }
            assert forall|w: GoalWrapper| #[trigger]
                self.current_goals@.contains(w) <==> (self.active(w.goal) && w == self.entry(w.goal)) by {
                assert(orig.current_goals@.contains(w) <==> (orig.active(w.goal) && w == orig.entry(w.goal)));
            }
            assert forall|item: Item, w: GoalWrapper| #[trigger]
                self.queue(item).contains(w) <==> (self.serves(item, w.goal) && w == self.entry(w.goal)) by {
                assert(orig.queue(item).contains(w) <==> (orig.serves(item, w.goal) && w == orig.entry(w.goal)));
                assert(self.queue(item) == mid.queue(item));
                assert(self.entry(w.goal) == orig.entry(w.goal));
                assert(self.satisfiers(w.goal) == orig.satisfiers(w.goal));
                assert(mid.queue(item).contains(w) <==> (orig.queue(item).contains(w) && (w.goal != g
                    || !orig.satisfiers(g).subrange(0, n as int).contains(item))));
                if w.goal != g {
                    assert(self.rank(w.goal) == orig.rank(w.goal));
                }
            }
            assert(self.tables_ok());
            assert(self.records_ok());
            assert(self.in_play_ok());
            assert(self.queues_ok());
        }
    }
}

impl Actor {
    /// Puts the registered, inactive goal `g` in every queue it belongs to
    /// and in the hierarchy, at its assigned rank.
    fn activate(&mut self, g: Goal)
        requires
            old(self).wf_goals(),
            old(self).record(g) is Some,
            !old(self).active(g),
        ensures
            final(self).wf_goals(),
            final(self).rank(g) == Some(old(self).assigned_rank(g)),
            forall|h: Goal| h != g ==> #[trigger] final(self).rank(h) == old(self).rank(h),
            final(self).goal_registry == old(self).goal_registry,
            final(self).assigned_ranks == old(self).assigned_ranks,
            final(self).satisfactions == old(self).satisfactions,
            final(self).name == old(self).name,
            final(self).state == old(self).state,
            final(self).inventory == old(self).inventory,
    {
        let ghost orig = *self;
        let gid = g.id();
        let w = GoalWrapper { goal: g, rank: self.assigned_ranks[gid] };
        let n = self.satisfactions[gid].len();
        let mut k: usize = 0;
        proof {
            assert forall|item: Item, x: GoalWrapper| #[trigger] self.queue(item).contains(x)
                implies x.goal != g by {
                assert(orig.queue(item).contains(x) <==> (orig.serves(item, x.goal) && x == orig.entry(x.goal)));
            }
        }
        while k < n
            invariant
                orig.wf_goals(),
                orig.record(g) is Some,
                !orig.active(g),
                gid == goal_id(g),
                w == orig.entry(g),
                n == orig.satisfiers(g).len(),
                k <= n,
                self.goal_registry == orig.goal_registry,
                self.assigned_ranks == orig.assigned_ranks,
                self.goal_hierarchy == orig.goal_hierarchy,
                self.current_goals == orig.current_goals,
                self.satisfactions == orig.satisfactions,
                self.name == orig.name,
                self.state == orig.state,
                self.inventory == orig.inventory,
                self.preference_list@.len() == ITEM_COUNT,
                forall|item: Item| queue_sorted(#[trigger] self.queue(item)),
                forall|item: Item, x: GoalWrapper| #[trigger]
                    self.queue(item).contains(x) <==> (orig.queue(item).contains(x) || (x == w
                        && orig.satisfiers(g).subrange(0, k as int).contains(item))),
                forall|item: Item, x: GoalWrapper| #[trigger]
                    self.queue(item).contains(x) && x.goal == g ==> x == w,
            decreases n - k,
        {
            let item = self.satisfactions[gid][k];
            let iid = item.id();
            let ghost before = *self;
            proof {
                lemma_item_ids();
            }
            if !queue_has_goal(&self.preference_list[iid], g) {
                assert(queue_sorted(self.queue(item)));
                queue_insert(&mut self.preference_list[iid], w);
            } else {
                proof {
                    let j = choose|j: int|
                        0 <= j < self.queue(item).len() && (#[trigger] self.queue(item)[j]).goal == g;
                    assert(self.queue(item).contains(self.queue(item)[j]));
                }
            }
            proof {
                let pre = orig.satisfiers(g).subrange(0, k as int);
                let post = orig.satisfiers(g).subrange(0, k + 1);
                assert(post =~= pre.push(item));
                assert forall|it: Item| queue_sorted(#[trigger] self.queue(it)) by {
                    if it != item {
                        assert(self.queue(it) == before.queue(it));
                    }
                }
                assert forall|it: Item, x: GoalWrapper| #[trigger]
                    self.queue(it).contains(x) <==> (orig.queue(it).contains(x) || (x == w
                        && post.contains(it))) by {
                    if it != item {
                        assert(self.queue(it) == before.queue(it));
                        if post.contains(it) {
                            let j = choose|j: int| 0 <= j < post.len() && post[j] == it;
                            assert(pre[j] == it);
                        }
                        assert(post.contains(it) == pre.contains(it));
                    } else {
                        assert(post[k as int] == item);
                    }
                }
                assert forall|it: Item, x: GoalWrapper| #[trigger]
                    self.queue(it).contains(x) && x.goal == g implies x == w by {
                    if it != item {
                        assert(self.queue(it) == before.queue(it));
                    }
                }
            }
            k = k + 1;
        }
        let ghost mid = *self;
        proof {
            assert forall|x: GoalWrapper| #[trigger] self.current_goals@.contains(x) implies x.goal != g by {
                assert(orig.current_goals@.contains(x) <==> (orig.active(x.goal) && x == orig.entry(x.goal)));
            }
            if queue_has(self.current_goals@, g) {
                let j = choose|j: int|
                    0 <= j < self.current_goals@.len() && (#[trigger] self.current_goals@[j]).goal == g;
                assert(self.current_goals@.contains(self.current_goals@[j]));
            }
        }
        queue_insert(&mut self.current_goals, w);
        self.goal_hierarchy[gid] = Some(w.rank);
        proof {
            lemma_goal_ids();
            assert(orig.satisfiers(g).subrange(0, n as int) =~= orig.satisfiers(g));
            assert forall|h: Goal| h != g implies #[trigger] self.rank(h) == orig.rank(h) by {
                assert(goal_id(h) != goal_id(g));
            }
            assert forall|item: Item| queue_sorted(#[trigger] self.queue(item)) by {
                assert(self.queue(item) == mid.queue(item));
            }
            assert forall|h: Goal| #[trigger] self.record(h) is Some implies self.record(h)->0.goal_of() == h by {
                assert(self.record(h) == orig.record(h));
            }
            assert forall|h: Goal| #[trigger] self.active(h) implies self.record(h) is Some
                && self.rank(h) == Some(self.assigned_rank(h)) by {
                assert(self.record(h) == orig.record(h));
                assert(self.assigned_rank(h) == orig.assigned_rank(h));
                if h != g {
                    assert(orig.active(h));
                }
            }
            assert forall|x: GoalWrapper| #[trigger]
                self.current_goals@.contains(x) <==> (self.active(x.goal) && x == self.entry(x.goal)) by {
                assert(orig.current_goals@.contains(x) <==> (orig.active(x.goal) && x == orig.entry(x.goal)));
                assert(self.entry(x.goal) == orig.entry(x.goal));
                if x.goal != g {
                    assert(self.rank(x.goal) == orig.rank(x.goal));
                }
            }
            assert forall|item: Item, x: GoalWrapper| #[trigger]
                self.queue(item).contains(x) <==> (self.serves(item, x.goal) && x == self.entry(x.goal)) by {
                assert(orig.queue(item).contains(x) <==> (orig.serves(item, x.goal) && x == orig.entry(x.goal)));
                assert(self.queue(item) == mid.queue(item));
                assert(mid.queue(item).contains(x) <==> (orig.queue(item).contains(x) || (x == w
                    && orig.satisfiers(g).subrange(0, n as int).contains(item))));
                assert(self.entry(x.goal) == orig.entry(x.goal));
                assert(self.satisfiers(x.goal) == orig.satisfiers(x.goal));
                if x.goal != g {
                    assert(self.rank(x.goal) == orig.rank(x.goal));
                }
            }
            assert(self.tables_ok());
            assert(self.records_ok());
            assert(self.in_play_ok());
            assert(self.queues_ok());
        }
    }
}

impl Actor {
    /// Takes `actual_goal` out of active pursuit: out of every preference
    /// queue, the goals in play and the hierarchy. A one-shot goal leaves the
    /// registry; a recurring one stays registered with its timer restarted, to
    /// return once the timer runs out. A goal not in active pursuit is left
    /// alone.
    pub fn remove_goal(&mut self, actual_goal: Goal)
        requires
            old(self).wf(),
        ensures
            final(self).wf(),
            final(self).rank(actual_goal) is None,
            !old(self).active(actual_goal) ==> *final(self) == *old(self),
            old(self).active(actual_goal) ==> {
                &&& final(self).same_but_goal(*old(self), actual_goal)
                &&& final(self).inventory_view().to_multiset() == old(self).inventory_view().to_multiset()
                &&& final(self).assigned_rank(actual_goal) == old(self).assigned_rank(actual_goal)
                &&& final(self).record(actual_goal) == if old(self).record(
                    actual_goal,
                )->0 is RegularSatisfaction {
                    Some(old(self).record(actual_goal)->0.with_time(0))
                } else {
                    None::<GoalData>
                }
            },
    {
        let gid = actual_goal.id();
        if self.goal_hierarchy[gid].is_none() {
            return;
        }
        let ghost orig = *self;
        self.deactivate(actual_goal);
        let ghost dea = *self;
        let entry = self.goal_registry[gid];
        match entry {
            Some(mut data) => {
                if data.is_recurring() {
                    data.reset_time();
                    self.goal_registry[gid] = Some(data);
                } else {
                    self.goal_registry[gid] = None;
                }
            },
            None => {},
        }
        proof {
            lemma_goal_ids();
            assert forall|h: Goal| h != actual_goal implies #[trigger] self.record(h) == orig.record(h) by {
                assert(goal_id(h) != goal_id(actual_goal));
            }
            assert forall|h: Goal| #[trigger] self.record(h) is Some implies self.record(h)->0.goal_of() == h by {
                if h != actual_goal {
                    assert(self.record(h) == orig.record(h));
                }
            }
            assert forall|h: Goal| #[trigger] dea.active(h) implies self.record(h) is Some
                && self.assigned_rank(h) == dea.assigned_rank(h) by {
                assert(h != actual_goal);
                assert(dea.record(h) == orig.record(h));
            }
            self.lemma_records_changed(dea);
        }
        let ghost reg = *self;
        self.sort_inventory();
        proof {
            reg.lemma_same_but_inventory(*self);
            self.lemma_same_but_inventory(reg);
            assert forall|h: Goal| h != actual_goal implies #[trigger] self.rank(h) == orig.rank(h) by {
                assert(dea.rank(h) == orig.rank(h));
            }
            assert forall|h: Goal| h != actual_goal implies #[trigger] self.record(h) == orig.record(h) by {
                assert(reg.record(h) == orig.record(h));
            }
            assert forall|h: Goal| #[trigger] self.assigned_rank(h) == orig.assigned_rank(h) by {
                assert(reg.assigned_rank(h) == orig.assigned_rank(h));
            }
            assert forall|h: Goal| #[trigger] self.satisfiers(h) == orig.satisfiers(h) by {
                assert(reg.satisfiers(h) == orig.satisfiers(h));
            }
            assert(self.record(actual_goal) == reg.record(actual_goal));
            assert(self.rank(actual_goal) == dea.rank(actual_goal));
        }
    }

    /// Brings the registered goal `goal` back into active pursuit at the rank
    /// it was registered with. A goal that is unregistered or already in
    /// active pursuit is left alone.
    pub fn add_goal(&mut self, goal: Goal)
        requires
            old(self).wf(),
        ensures
            final(self).wf(),
            old(self).record(goal) is None || old(self).active(goal) ==> *final(self) == *old(self),
            old(self).record(goal) is Some && !old(self).active(goal) ==> {
                &&& final(self).same_but_goal(*old(self), goal)
                &&& final(self).inventory_view().to_multiset() == old(self).inventory_view().to_multiset()
                &&& final(self).rank(goal) == Some(old(self).assigned_rank(goal))
                &&& final(self).assigned_rank(goal) == old(self).assigned_rank(goal)
                &&& final(self).record(goal) == old(self).record(goal)
            },
    {
        let gid = goal.id();
        if self.goal_registry[gid].is_none() || self.goal_hierarchy[gid].is_some() {
            return;
        }
        let ghost orig = *self;
        self.activate(goal);
        let ghost act = *self;
        self.sort_inventory();
        proof {
            act.lemma_same_but_inventory(*self);
            self.lemma_same_but_inventory(act);
            assert forall|h: Goal| h != goal implies #[trigger] self.rank(h) == orig.rank(h) by {
                assert(act.rank(h) == orig.rank(h));
            }
            assert forall|h: Goal| #[trigger] self.record(h) == orig.record(h) by {
                assert(act.record(h) == orig.record(h));
            }
            assert forall|h: Goal| #[trigger] self.assigned_rank(h) == orig.assigned_rank(h) by {
                assert(act.assigned_rank(h) == orig.assigned_rank(h));
            }
            assert forall|h: Goal| #[trigger] self.satisfiers(h) == orig.satisfiers(h) by {
                assert(act.satisfiers(h) == orig.satisfiers(h));
            }
            assert(self.rank(goal) == act.rank(goal));
        }
    }

    /// Registers `goal` with rank `location` and puts it in active pursuit,
    /// replacing any earlier record and rank of the same goal.
    pub fn add_new_goal(&mut self, goal: GoalData, location: usize)
        requires
            old(self).wf(),
        ensures
            final(self).wf(),
            final(self).same_but_goal(*old(self), goal.goal_of()),
            final(self).inventory_view().to_multiset() == old(self).inventory_view().to_multiset(),
            final(self).rank(goal.goal_of()) == Some(location),
            final(self).assigned_rank(goal.goal_of()) == location,
            final(self).record(goal.goal_of()) == Some(goal),
    {
        let g = goal.get_goal();
        let gid = g.id();
        let ghost orig = *self;
        if self.goal_hierarchy[gid].is_some() {
            self.deactivate(g);
        }
        let ghost mid = *self;
        self.goal_registry[gid] = Some(goal);
        self.assigned_ranks[gid] = location;
        proof {
            lemma_goal_ids();
            assert forall|h: Goal| h != g implies #[trigger] self.record(h) == mid.record(h)
                && self.assigned_rank(h) == mid.assigned_rank(h) by {
                assert(goal_id(h) != goal_id(g));
            }
            assert forall|h: Goal| #[trigger] self.record(h) is Some implies self.record(h)->0.goal_of() == h by {
                if h != g {
                    assert(self.record(h) == mid.record(h));
                }
            }
            assert forall|h: Goal| #[trigger] mid.active(h) implies self.record(h) is Some
                && self.assigned_rank(h) == mid.assigned_rank(h) by {
                assert(h != g);
            }
            self.lemma_records_changed(mid);
        }
        let ghost reg = *self;
        self.activate(g);
        let ghost act = *self;
        self.sort_inventory();
        proof {
            act.lemma_same_but_inventory(*self);
            self.lemma_same_but_inventory(act);
            assert forall|h: Goal| h != g implies #[trigger] self.rank(h) == orig.rank(h) by {
                assert(act.rank(h) == reg.rank(h));
                assert(reg.rank(h) == mid.rank(h));
                assert(mid.rank(h) == orig.rank(h));
            }
            assert forall|h: Goal| h != g implies #[trigger] self.record(h) == orig.record(h) by {
                assert(act.record(h) == reg.record(h));
                assert(mid.record(h) == orig.record(h));
            }
            assert forall|h: Goal| h != g implies #[trigger] self.assigned_rank(h) == orig.assigned_rank(h) by {
                assert(act.assigned_rank(h) == reg.assigned_rank(h));
                assert(mid.assigned_rank(h) == orig.assigned_rank(h));
            }
            assert forall|h: Goal| #[trigger] self.satisfiers(h) == orig.satisfiers(h) by {
                assert(act.satisfiers(h) == orig.satisfiers(h));
            }
            assert(self.rank(g) == act.rank(g));
            assert(self.record(g) == reg.record(g));
            assert(self.assigned_rank(g) == reg.assigned_rank(g));
        }
    }
}

/// The (inventory position, item) pairs of `inv[..n]` whose item is listed in
/// `wanted`, in inventory order.
pub open spec fn matching_upto(inv: Seq<Item>, wanted: Seq<Item>, n: int) -> Seq<(usize, Item)>
    decreases n,
{
    if n <= 0 {
        Seq::empty()
    } else {
        let prev = matching_upto(inv, wanted, n - 1);
        if wanted.contains(inv[n - 1]) {
            prev.push(((n - 1) as usize, inv[n - 1]))
        } else {
            prev
        }
    }
}

/// The (inventory position, item) pairs of `inv` whose item is listed in
/// `wanted`, in inventory order.
pub open spec fn matching(inv: Seq<Item>, wanted: Seq<Item>) -> Seq<(usize, Item)> {
    matching_upto(inv, wanted, inv.len() as int)
}

/// Each matching pair names a position of the inventory that holds its item,
/// and the positions increase.
pub proof fn lemma_matching(inv: Seq<Item>, wanted: Seq<Item>, n: int)
    requires
        0 <= n <= inv.len(),
        n <= usize::MAX,
    ensures
        forall|j: int|
            0 <= j < matching_upto(inv, wanted, n).len() ==> {
                let m = #[trigger] matching_upto(inv, wanted, n)[j];
                &&& m.0 < n
                &&& inv[m.0 as int] == m.1
                &&& wanted.contains(m.1)
            },
        forall|a: int, b: int|
            0 <= a < b < matching_upto(inv, wanted, n).len() ==> (#[trigger] matching_upto(
                inv,
                wanted,
                n,
            )[a]).0 < (#[trigger] matching_upto(inv, wanted, n)[b]).0,
    decreases n,
{
    if n > 0 {
        lemma_matching(inv, wanted, n - 1);
        let prev = matching_upto(inv, wanted, n - 1);
        let cur = matching_upto(inv, wanted, n);
        assert forall|j: int| 0 <= j < cur.len() implies {
            let m = #[trigger] cur[j];
            &&& m.0 < n
            &&& inv[m.0 as int] == m.1
            &&& wanted.contains(m.1)
        } by {
            if j < prev.len() {
                assert(cur[j] == prev[j]);
            } else {
                assert(cur[j] == ((n - 1) as usize, inv[n - 1]));
            }
        }
        assert forall|a: int, b: int| 0 <= a < b < cur.len() implies (#[trigger] cur[a]).0 < (
        #[trigger] cur[b]).0 by {
            assert(cur[a] == prev[a]);
            if b < prev.len() {
                assert(cur[b] == prev[b]);
            } else {
                assert(cur[b] == ((n - 1) as usize, inv[n - 1]));
            }
        }
    }
}

/// Whether `x` is listed in `items`.
fn lists(items: &Vec<Item>, x: Item) -> (r: bool)
    ensures
        r == items@.contains(x),
{
    let mut i: usize = 0;
    while i < items.len()
        invariant
            i <= items@.len(),
            forall|k: int| 0 <= k < i ==> items@[k] != x,
        decreases items@.len() - i,
    {
        if items[i] == x {
            return true;
        }
        i = i + 1;
    }
    false
}

impl Actor {
    /// The most valued goal in active pursuit.
    pub closed spec fn top_goal(self) -> Option<Goal> {
        if self.current_goals@.len() > 0 {
            Some(self.current_goals@[0].goal)
        } else {
            None
        }
    }

    /// `item` is the best use of `goal`: it serves it and its best goal is it.
    pub open spec fn exact_use(self, goal: Goal, item: Item) -> bool {
        self.satisfiers(goal).contains(item) && self.best_goal(item) == Some(goal)
    }

    /// Position `i` of the inventory holds the item to spend on `goal`: the
    /// first item whose best use is `goal`, or, when there is none, the first
    /// (least worth) item that can satisfy `goal`.
    pub open spec fn is_pick(self, goal: Goal, i: int) -> bool {
        let inv = self.inventory_view();
        &&& 0 <= i < inv.len()
        &&& self.satisfiers(goal).contains(inv[i])
        &&& forall|j: int| 0 <= j < i ==> !self.exact_use(goal, #[trigger] inv[j])
        &&& !self.exact_use(goal, inv[i]) ==> {
            &&& forall|j: int| 0 <= j < inv.len() ==> !self.exact_use(goal, #[trigger] inv[j])
            &&& forall|j: int| 0 <= j < i ==> !self.satisfiers(goal).contains(#[trigger] inv[j])
        }
    }

    /// Some held item can satisfy `goal`.
    pub open spec fn can_satisfy(self, goal: Goal) -> bool {
        exists|i: int| 0 <= i < self.inventory_view().len() && self.satisfiers(goal).contains(
            #[trigger] self.inventory_view()[i],
        )
    }

    /// The goals in play queue is led by the most valued active goal.
    pub proof fn lemma_top_goal(self)
        requires
            self.wf_goals(),
        ensures
            self.top_goal() is None <==> forall|g: Goal| !#[trigger] self.active(g),
            self.top_goal() is Some ==> self.active(self.top_goal()->0) && forall|h: Goal| #[trigger]
                self.active(h) && h != self.top_goal()->0 ==> self.valued_above(self.top_goal()->0, h),
    {
        let q = self.current_goals@;
        if q.len() > 0 {
            assert(q.contains(q[0]));
            let g = q[0].goal;
            assert forall|h: Goal| #[trigger] self.active(h) && h != g implies self.valued_above(g, h) by {
                assert(q.contains(self.entry(h)));
                let k = choose|k: int| 0 <= k < q.len() && q[k] == self.entry(h);
                assert(precedes(q[0], q[k]));
            }
        } else {
            assert forall|g: Goal| !#[trigger] self.active(g) by {
                if self.active(g) {
                    assert(q.contains(self.entry(g)));
                }
            }
        }
    }

    /// The most valued goal in active pursuit, if any.
    pub fn current_goal(&self) -> (r: Option<Goal>)
        requires
            self.wf_goals(),
        ensures
            r == self.top_goal(),
            r is None <==> forall|g: Goal| !#[trigger] self.active(g),
            r is Some ==> self.active(r->0) && forall|h: Goal| #[trigger] self.active(h) && h
                != r->0 ==> self.valued_above(r->0, h),
    {
        proof {
            self.lemma_top_goal();
        }
        if self.current_goals.len() > 0 {
            Some(self.current_goals[0].goal)
        } else {
            None
        }
    }

    /// The held items listed in `items`, with their inventory positions, in
    /// inventory order.
    pub fn has_item_of(&self, items: &Vec<Item>) -> (r: Vec<(usize, Item)>)
        ensures
            r@ == matching(self.inventory_view(), items@),
    {
        let mut r: Vec<(usize, Item)> = Vec::new();
        let mut i: usize = 0;
        while i < self.inventory.len()
            invariant
                i <= self.inventory@.len(),
                r@ == matching_upto(self.inventory@, items@, i as int),
            decreases self.inventory@.len() - i,
        {
            let x = self.inventory[i];
            if lists(items, x) {
                r.push((i, x));
            }
            i = i + 1;
        }
        r
    }

    /// Finds the held item to spend on `goal`, as an inventory position: the
    /// first item whose best use is `goal`, else the least worth item that
    /// can satisfy it.
    pub(crate) fn find_item_for_goal(&self, goal: Goal) -> (r: Option<usize>)
        requires
            self.wf_goals(),
        ensures
            r is None <==> !self.can_satisfy(goal),
            r is Some ==> self.is_pick(goal, r->0 as int),
    {
        let opts = &self.satisfactions[goal.id()];
        let mut fallback: Option<usize> = None;
        let mut i: usize = 0;
        while i < self.inventory.len()
            invariant
                self.wf_goals(),
                opts@ == self.satisfiers(goal),
                i <= self.inventory@.len(),
                forall|j: int| 0 <= j < i ==> !self.exact_use(goal, #[trigger] self.inventory@[j]),
                fallback is None ==> forall|j: int|
                    0 <= j < i ==> !opts@.contains(#[trigger] self.inventory@[j]),
                fallback is Some ==> {
                    let f = fallback->0 as int;
                    &&& f < i
                    &&& opts@.contains(self.inventory@[f])
                    &&& forall|j: int| 0 <= j < f ==> !opts@.contains(#[trigger] self.inventory@[j])
                },
            decreases self.inventory@.len() - i,
        {
            let item = self.inventory[i];
            if lists(opts, item) {
                let best = self.get_best_goal(item);
                if best == Some(goal) {
                    proof {
                        assert(self.satisfiers(goal).contains(self.inventory_view()[i as int]));
                    }
                    return Some(i);
                }
                if fallback.is_none() {
                    fallback = Some(i);
                }
            }
            i = i + 1;
        }
        proof {
            if fallback is Some {
                let f = fallback->0 as int;
                assert(self.inventory_view()[f] == self.inventory@[f]);
            }
        }
        fallback
    }
}

impl Actor {
    /// Replaces the record of the registered goal `g` by `d`.
    fn put_record(&mut self, g: Goal, d: GoalData)
        requires
            old(self).wf(),
            old(self).record(g) is Some,
            d.goal_of() == g,
        ensures
            final(self).wf(),
            final(self).record(g) == Some(d),
            forall|h: Goal| h != g ==> #[trigger] final(self).record(h) == old(self).record(h),
            final(self).goal_hierarchy == old(self).goal_hierarchy,
            final(self).assigned_ranks == old(self).assigned_ranks,
            final(self).current_goals == old(self).current_goals,
            final(self).preference_list == old(self).preference_list,
            final(self).satisfactions == old(self).satisfactions,
            final(self).name == old(self).name,
            final(self).state == old(self).state,
            final(self).inventory == old(self).inventory,
    {
        let ghost orig = *self;
        self.goal_registry[g.id()] = Some(d);
        proof {
            lemma_goal_ids();
            assert forall|h: Goal| h != g implies #[trigger] self.record(h) == orig.record(h) by {
                assert(goal_id(h) != goal_id(g));
            }
            assert forall|h: Goal| #[trigger] self.record(h) is Some implies self.record(h)->0.goal_of() == h by {
                if h != g {
                    assert(self.record(h) == orig.record(h));
                }
            }
            assert forall|h: Goal| #[trigger] orig.active(h) implies self.record(h) is Some
                && self.assigned_rank(h) == orig.assigned_rank(h) by {
                if h != g {
                    assert(self.record(h) == orig.record(h));
                }
            }
            self.lemma_records_changed(orig);
            assert forall|i: int, j: int|
                0 <= i < j < self.inventory_view().len() implies worth_le(
                self.worth(#[trigger] self.inventory_view()[i]),
                self.worth(#[trigger] self.inventory_view()[j]),
            ) by {
                assert(worth_le(orig.worth(orig.inventory_view()[i]), orig.worth(orig.inventory_view()[j])));
            }
        }
    }

    /// Takes the item at position `i` out of the inventory.
    pub(crate) fn remove_item_at(&mut self, i: usize) -> (r: Item)
        requires
            old(self).wf(),
            i < old(self).inventory_view().len(),
        ensures
            final(self).wf(),
            final(self).same_but_inventory(*old(self)),
            r == old(self).inventory_view()[i as int],
            final(self).inventory_view() == old(self).inventory_view().remove(i as int),
    {
        let ghost orig = *self;
        let r = self.inventory.remove(i);
        proof {
            orig.inventory@.remove_ensures(i as int);
            assert(self.same_but_inventory(orig));
            orig.lemma_same_but_inventory(*self);
            self.lemma_same_but_inventory(orig);
            let inv = orig.inventory@;
            assert forall|a: int, b: int|
                0 <= a < b < self.inventory_view().len() implies worth_le(
                self.worth(#[trigger] self.inventory_view()[a]),
                self.worth(#[trigger] self.inventory_view()[b]),
            ) by {
                let a2 = if a < i { a } else { a + 1 };
                let b2 = if b < i { b } else { b + 1 };
                assert(self.inventory_view()[a] == inv[a2]);
                assert(self.inventory_view()[b] == inv[b2]);
                assert(worth_le(orig.worth(inv[a2]), orig.worth(inv[b2])));
            }
        }
        r
    }

    /// `after` is `before` once the first held `item` was used on the active
    /// goal `goal`: the item left the inventory and one unit was recorded on
    /// the goal, which retired if that satisfied it.
    pub open spec fn spent(before: Actor, after: Actor, item: Item, goal: Goal) -> bool {
        let i = before.inventory_view().index_of_first(item)->0;
        let rec = before.record(goal)->0.used_once();
        &&& after.same_but_goal(before, goal)
        &&& after.assigned_rank(goal) == before.assigned_rank(goal)
        &&& after.inventory_view().to_multiset() == before.inventory_view().remove(i).to_multiset()
        &&& rec.satisfied() ==> {
            &&& after.rank(goal) is None
            &&& after.record(goal) == if rec is RegularSatisfaction {
                Some(rec.with_time(0))
            } else {
                None::<GoalData>
            }
        }
        &&& !rec.satisfied() ==> {
            &&& after.rank(goal) == before.rank(goal)
            &&& after.record(goal) == Some(rec)
            &&& after.inventory_view() == before.inventory_view().remove(i)
        }
    }

    /// Uses an item to satisfy the goal selected: when `goal` is in active
    /// pursuit and `item` is held, the first such item leaves the inventory
    /// and one unit is recorded on the goal, which retires once satisfied.
    /// Tells whether the item was used; otherwise nothing changes.
    pub fn use_item_for_goal(&mut self, item: Item, goal: Goal) -> (used: bool)
        requires
            old(self).wf(),
        ensures
            final(self).wf(),
            used == (old(self).active(goal) && old(self).inventory_view().contains(item)),
            !used ==> *final(self) == *old(self),
            used ==> Actor::spent(*old(self), *final(self), item, goal),
    {
        let ghost orig = *self;
        let gid = goal.id();
        if self.goal_hierarchy[gid].is_none() {
            return false;
        }
        let mut i: usize = 0;
        while i < self.inventory.len()
            invariant
                i <= self.inventory@.len(),
                forall|k: int| 0 <= k < i ==> self.inventory@[k] != item,
            ensures
                i < self.inventory@.len() ==> self.inventory@[i as int] == item,
                i == self.inventory@.len() ==> forall|k: int| 0 <= k < i ==> self.inventory@[k] != item,
            decreases self.inventory@.len() - i,
        {
            if self.inventory[i] == item {
                break;
            }
            i = i + 1;
        }
        if i == self.inventory.len() {
            proof {
                assert(!self.inventory_view().contains(item));
            }
            return false;
        }
        proof {
            orig.inventory_view().index_of_first_ensures(item);
            assert(orig.inventory_view().contains(item));
            assert(orig.inventory_view().index_of_first(item) == Some(i as int));
        }
        self.remove_item_at(i);
        let ghost taken = *self;
        proof {
            orig.lemma_same_but_inventory(taken);
            taken.lemma_same_but_inventory(orig);
        }
        let entry = self.goal_registry[gid];
        match entry {
            Some(mut data) => {
                let done = data.record_unit();
                self.put_record(goal, data);
                let ghost recorded = *self;
                if done {
                    self.remove_goal(goal);
                    proof {
                        assert forall|h: Goal| h != goal implies #[trigger] self.record(h) == orig.record(h)
                            && self.rank(h) == orig.rank(h) by {
                            assert(recorded.record(h) == taken.record(h));
                        }
                    }
                }
                proof {
                    assert forall|h: Goal| #[trigger] self.satisfiers(h) == orig.satisfiers(h) by {
                        assert(recorded.satisfiers(h) == taken.satisfiers(h));
                    }
                    assert forall|h: Goal| #[trigger] self.assigned_rank(h) == orig.assigned_rank(h) by {
                        assert(recorded.assigned_rank(h) == taken.assigned_rank(h));
                    }
                    assert forall|h: Goal| h != goal implies #[trigger] self.record(h) == orig.record(h) by {
                        assert(recorded.record(h) == taken.record(h));
                    }
                    assert forall|h: Goal| h != goal implies #[trigger] self.rank(h) == orig.rank(h) by {
                        assert(recorded.rank(h) == taken.rank(h));
                    }
                    assert(recorded.rank(goal) == taken.rank(goal));
                }
            },
            None => {
                proof {
                    assert(orig.active(goal));
                }
            },
        }
        true
    }
}

impl Actor {
    /// `after` is `before` once every recurring goal's timer advanced by one
    /// tick, with the goals whose timer ran out brought back into pursuit.
    pub open spec fn timers_advanced(before: Actor, after: Actor) -> bool {
        &&& forall|g: Goal| #[trigger]
            after.record(g) == match before.record(g) {
                None => None,
                Some(d) => Some(d.rearmed(before.active(g))),
            }
        &&& forall|g: Goal| #[trigger]
            after.rank(g) == if before.record(g) is Some && before.record(g)->0.expires() {
                Some(before.assigned_rank(g))
            } else {
                before.rank(g)
            }
        &&& forall|g: Goal| #[trigger] after.assigned_rank(g) == before.assigned_rank(g)
        &&& forall|g: Goal| #[trigger] after.satisfiers(g) == before.satisfiers(g)
        &&& after.name_view() == before.name_view()
        &&& after.state_view() == before.state_view()
        &&& after.inventory_view().to_multiset() == before.inventory_view().to_multiset()
        &&& (forall|g: Goal| !#[trigger] before.brings_back(g)) ==> after.inventory_view()
            == before.inventory_view()
    }

    /// `g` is out of active pursuit and its timer runs out on this tick, so
    /// that it comes back.
    pub open spec fn brings_back(self, g: Goal) -> bool {
        &&& self.record(g) is Some
        &&& self.record(g)->0.expires()
        &&& !self.active(g)
    }

    /// Advances every recurring goal's timer by one tick. A goal whose timer
    /// runs out has it restarted; if it was out of active pursuit, it is
    /// re-armed (unit counter cleared) and brought back at its assigned rank.
    pub fn advance_timers(&mut self)
        requires
            old(self).wf(),
        ensures
            final(self).wf(),
            Actor::timers_advanced(*old(self), *final(self)),
    {
        let ghost orig = *self;
        let mut k: usize = 0;
        while k < GOAL_COUNT
            invariant
                orig.wf(),
                self.wf(),
                k <= GOAL_COUNT,
                forall|g: Goal| #[trigger]
                    self.record(g) == if goal_id(g) < k {
                        match orig.record(g) {
                            None => None,
                            Some(d) => Some(d.rearmed(orig.active(g))),
                        }
                    } else {
                        orig.record(g)
                    },
                forall|g: Goal| #[trigger]
                    self.rank(g) == if goal_id(g) < k && orig.record(g) is Some && orig.record(
                        g,
                    )->0.expires() {
                        Some(orig.assigned_rank(g))
                    } else {
                        orig.rank(g)
                    },
                forall|g: Goal| #[trigger] self.assigned_rank(g) == orig.assigned_rank(g),
                forall|g: Goal| #[trigger] self.satisfiers(g) == orig.satisfiers(g),
                self.name == orig.name,
                self.state == orig.state,
                self.inventory_view().to_multiset() == orig.inventory_view().to_multiset(),
                (forall|g: Goal| goal_id(g) < k ==> !#[trigger] orig.brings_back(g))
                    ==> self.inventory_view() == orig.inventory_view(),
            decreases GOAL_COUNT - k,
        {
            let g = Goal::with_id(k);
            let ghost before = *self;
            proof {
                lemma_goal_ids();
            }
            let entry = self.goal_registry[k];
            match entry {
                Some(mut d) => {
                    let expired = d.tick_timer();
                    let was_active = self.goal_hierarchy[k].is_some();
                    if expired && !was_active {
                        d.reset_units();
                    }
                    proof {
                        assert(before.record(g) == orig.record(g));
                        assert(before.rank(g) == orig.rank(g));
                        assert(d.goal_of() == g);
                    }
                    self.put_record(g, d);
                    let ghost put = *self;
                    if expired && !was_active {
                        self.add_goal(g);
                        proof {
                            assert(put.record(g) is Some);
                        }
                    }
                    proof {
                        assert forall|h: Goal| h != g implies #[trigger] self.record(h) == before.record(h) by {
                            assert(put.record(h) == before.record(h));
                        }
                        assert forall|h: Goal| h != g implies #[trigger] self.rank(h) == before.rank(h) by {
                            assert(put.rank(h) == before.rank(h));
                        }
                        assert forall|h: Goal| #[trigger] self.assigned_rank(h) == orig.assigned_rank(h) by {
                            assert(put.assigned_rank(h) == before.assigned_rank(h));
                        }
                        assert forall|h: Goal| #[trigger] self.satisfiers(h) == orig.satisfiers(h) by {
                            assert(put.satisfiers(h) == before.satisfiers(h));
                        }
                        assert(put.rank(g) == before.rank(g));
                        assert(orig.active(g) ==> orig.rank(g) == Some(orig.assigned_rank(g)));
                        if expired && !was_active {
                            assert(self.rank(g) == Some(put.assigned_rank(g)));
                            assert(orig.brings_back(g));
                        } else {
                            assert(self.rank(g) == put.rank(g));
                            assert(self.inventory_view() == before.inventory_view());
                        }

                    }
                },
                None => {},
            }
            k = k + 1;
        }
    }

    /// Sets the bargaining state.
    pub(crate) fn set_state(&mut self, state: ActorState)
        requires
            old(self).wf(),
        ensures
            final(self).wf(),
            final(self).state_view() == state,
            final(self).same_but_state(*old(self)),
    {
        let ghost orig = *self;
        self.state = state;
        proof {
            assert(self.same_but_state(orig));
            self.lemma_same_but_state(orig);
        }
    }

    /// `self` differs from `other` in the bargaining state at most.
    pub closed spec fn same_but_state(self, other: Actor) -> bool {
        self.same_goals(other) && self.inventory == other.inventory
    }

    /// Facts that follow from `same_but_state`.
    pub proof fn lemma_same_but_state(self, other: Actor)
        requires
            self.same_but_state(other),
        ensures
            forall|g: Goal| #[trigger] self.rank(g) == other.rank(g),
            forall|g: Goal| #[trigger] self.record(g) == other.record(g),
            forall|g: Goal| #[trigger] self.assigned_rank(g) == other.assigned_rank(g),
            forall|g: Goal| #[trigger] self.satisfiers(g) == other.satisfiers(g),
            forall|item: Item| #[trigger] self.queue(item) == other.queue(item),
            forall|item: Item| #[trigger] self.worth(item) == other.worth(item),
            forall|item: Item| #[trigger] self.best_goal(item) == other.best_goal(item),
            self.goals_in_play() == other.goals_in_play(),
            self.top_goal() == other.top_goal(),
            self.inventory_view() == other.inventory_view(),
            self.name_view() == other.name_view(),
            self.wf() ==> other.wf(),
            other.wf() ==> self.wf(),
    {
        self.lemma_same_goals(other);
        assert(self.inventory_sorted() == other.inventory_sorted());
    }
}

/// The items listed for `g` by the last entry for `g` in `s`; none if `g`
/// has no entry.
pub open spec fn listed_satisfiers(s: Seq<(Goal, Vec<Item>)>, g: Goal) -> Seq<Item>
    decreases s.len(),
{
    if s.len() == 0 {
        Seq::empty()
    } else if s.last().0 == g {
        s.last().1@
    } else {
        listed_satisfiers(s.drop_last(), g)
    }
}

/// Position of the last record for `g` in `s`.
pub open spec fn last_listed(s: Seq<GoalData>, g: Goal) -> Option<int>
    decreases s.len(),
{
    if s.len() == 0 {
        None
    } else if s.last().goal_of() == g {
        Some(s.len() - 1)
    } else {
        last_listed(s.drop_last(), g)
    }
}

impl Actor {
    /// Construct a new actor: `hierarchy` lists its goals, most valued first,
    /// and each goal is ranked by its position (a goal listed twice keeps
    /// its last record and position); `satisfactions` lists the items that
    /// satisfy each goal (the last entry for a goal counts).
    pub fn new(name: String, hierarchy: Vec<GoalData>, satisfactions: Vec<(Goal, Vec<Item>)>) -> (r: Actor)
        ensures
            r.wf(),
            r.name_view() == name@,
            r.inventory_view() == Seq::<Item>::empty(),
            r.state_view() == ActorState::SearchingForGoal,
            forall|g: Goal| #[trigger] r.satisfiers(g) == listed_satisfiers(satisfactions@, g),
            forall|g: Goal| #[trigger]
                r.record(g) == match last_listed(hierarchy@, g) {
                    Some(i) => Some(hierarchy@[i]),
                    None => None,
                },
            forall|g: Goal| #[trigger]
                r.rank(g) == match last_listed(hierarchy@, g) {
                    Some(i) => Some(i as usize),
                    None => None,
                },
    {
        let mut sat: Vec<Vec<Item>> = vec![Vec::new(), Vec::new(), Vec::new(), Vec::new()];
        let mut i: usize = 0;
        while i < satisfactions.len()
            invariant
                sat@.len() == GOAL_COUNT,
                i <= satisfactions@.len(),
                forall|g: Goal| #[trigger]
                    sat@[goal_id(g) as int]@ == listed_satisfiers(satisfactions@.subrange(0, i as int), g),
            decreases satisfactions@.len() - i,
        {
            let g = satisfactions[i].0;
            let items = satisfactions[i].1.clone();
            proof {
                assert(items@ =~= satisfactions@[i as int].1@);
            }
            let ghost before = sat@;
            sat[g.id()] = items;
            proof {
                lemma_goal_ids();
                let pre = satisfactions@.subrange(0, i as int);
                let post = satisfactions@.subrange(0, i + 1);
                assert(post.drop_last() =~= pre);
                assert forall|h: Goal| #[trigger]
                    sat@[goal_id(h) as int]@ == listed_satisfiers(post, h) by {
                    if h != g {
                        assert(goal_id(h) != goal_id(g));
                        assert(sat@[goal_id(h) as int] == before[goal_id(h) as int]);
                    }
                }
            }
            i = i + 1;
        }
        proof {
            assert(satisfactions@.subrange(0, satisfactions@.len() as int) =~= satisfactions@);
        }
        let mut this = Actor {
            name,
            goal_registry: vec![None, None, None, None],
            assigned_ranks: vec![0, 0, 0, 0],
            goal_hierarchy: vec![None, None, None, None],
            current_goals: Vec::new(),
            preference_list: vec![Vec::new(), Vec::new(), Vec::new(), Vec::new()],
            satisfactions: sat,
            inventory: Vec::new(),
            state: ActorState::SearchingForGoal,
        };
        proof {
            lemma_goal_ids();
            lemma_item_ids();
            assert forall|item: Item, w: GoalWrapper| #[trigger]
                this.queue(item).contains(w) <==> (this.serves(item, w.goal) && w == this.entry(w.goal)) by {
                assert(this.queue(item) =~= Seq::<GoalWrapper>::empty());
                assert(this.rank(w.goal) is None);
            }
            assert forall|w: GoalWrapper| #[trigger]
                this.current_goals@.contains(w) <==> (this.active(w.goal) && w == this.entry(w.goal)) by {
                assert(this.rank(w.goal) is None);
            }
            assert forall|item: Item| queue_sorted(#[trigger] this.queue(item)) by {
                assert(this.queue(item) =~= Seq::<GoalWrapper>::empty());
            }
            assert(this.tables_ok());
            assert(this.records_ok());
            assert(this.in_play_ok());
            assert(this.queues_ok());
        }
        let ghost sat_view = this.satisfactions;
        let mut k: usize = 0;
        while k < hierarchy.len()
            invariant
                this.wf(),
                k <= hierarchy@.len(),
                this.name@ == name@,
                this.inventory@ == Seq::<Item>::empty(),
                this.state == ActorState::SearchingForGoal,
                forall|g: Goal| #[trigger] this.satisfiers(g) == listed_satisfiers(satisfactions@, g),
                forall|g: Goal| #[trigger]
                    this.record(g) == match last_listed(hierarchy@.subrange(0, k as int), g) {
                        Some(i) => Some(hierarchy@[i]),
                        None => None,
                    },
                forall|g: Goal| #[trigger]
                    this.rank(g) == match last_listed(hierarchy@.subrange(0, k as int), g) {
                        Some(i) => Some(i as usize),
                        None => None,
                    },
            decreases hierarchy@.len() - k,
        {
            let ghost before = this;
            let d = hierarchy[k];
            this.add_new_goal(d, k);
            proof {
                let pre = hierarchy@.subrange(0, k as int);
                let post = hierarchy@.subrange(0, k + 1);
                assert(post.drop_last() =~= pre);
                assert(this.inventory_view().to_multiset() == before.inventory_view().to_multiset());
                before.inventory_view().to_multiset_ensures();
                this.inventory_view().to_multiset_ensures();
                assert(this.inventory@ =~= Seq::<Item>::empty());
                assert forall|g: Goal| #[trigger]
                    this.record(g) == match last_listed(post, g) {
                        Some(i) => Some(hierarchy@[i]),
                        None => None,
                    } by {
                    if g != d.goal_of() {
                        assert(this.record(g) == before.record(g));
                    } else {
                        assert(post.last() == d);
                    }
                }
                assert forall|g: Goal| #[trigger]
                    this.rank(g) == match last_listed(post, g) {
                        Some(i) => Some(i as usize),
                        None => None,
                    } by {
                    if g != d.goal_of() {
                        assert(this.rank(g) == before.rank(g));
                    }
                }
            }
            k = k + 1;
        }
        proof {
            assert(hierarchy@.subrange(0, hierarchy@.len() as int) =~= hierarchy@);
        }
        this
    }

    /// The actor's name.
    pub fn name(&self) -> (r: &String)
        ensures
            r@ == self.name_view(),
    {
        &self.name
    }

    /// Items held, from least to most worth.
    pub fn inventory(&self) -> (r: &Vec<Item>)
        ensures
            r@ == self.inventory_view(),
    {
        &self.inventory
    }

    /// The bargaining state.
    pub fn state(&self) -> (r: ActorState)
        ensures
            r == self.state_view(),
    {
        self.state
    }

    /// The rank of `goal` in the goal hierarchy, if it is in active pursuit.
    pub fn goal_rank(&self, goal: Goal) -> (r: Option<usize>)
        requires
            self.wf_goals(),
        ensures
            r == self.rank(goal),
    {
        self.goal_hierarchy[goal.id()]
    }

    /// The registered record of `goal`.
    pub fn goal_record(&self, goal: Goal) -> (r: Option<GoalData>)
        requires
            self.wf_goals(),
        ensures
            r == self.record(goal),
    {
        self.goal_registry[goal.id()]
    }

    /// The items that can satisfy `goal`.
    pub fn satisfactions_for(&self, goal: Goal) -> (r: &Vec<Item>)
        requires
            self.wf_goals(),
        ensures
            r@ == self.satisfiers(goal),
    {
        &self.satisfactions[goal.id()]
    }

    /// The ranked queue of active goals that `item` can satisfy, most valued
    /// first.
    pub fn preferences(&self, item: Item) -> (r: &Vec<GoalWrapper>)
        requires
            self.wf_goals(),
        ensures
            r@ == self.queue(item),
    {
        &self.preference_list[item.id()]
    }

    /// The goals in active pursuit, most valued first.
    pub fn current_goals(&self) -> (r: &Vec<GoalWrapper>)
        ensures
            r@ == self.goals_in_play(),
    {
        &self.current_goals
    }
}

/// Whatever goals were added and removed, the best goal of an item is the
/// lowest-ranked goal of the hierarchy whose satisfying items include it, and
/// an item that no such goal lists has none. (`Actor::new` establishes
/// well-formedness and every operation keeps it.)
pub proof fn law_best_goal_is_min_rank(a: Actor, item: Item)
    requires
        a.wf_goals(),
    ensures
        a.best_goal(item) is None <==> forall|g: Goal|
            !(a.rank(g) is Some && #[trigger] a.satisfiers(g).contains(item)),
        a.best_goal(item) is Some ==> {
            let g = a.best_goal(item)->0;
            &&& a.rank(g) is Some
            &&& a.satisfiers(g).contains(item)
            &&& forall|h: Goal|
                a.rank(h) is Some && #[trigger] a.satisfiers(h).contains(item) ==> a.rank(g)->0
                    <= a.rank(h)->0
        },
{
    a.lemma_best_goal(item);
    if a.best_goal(item) is Some {
        let g = a.best_goal(item)->0;
        assert forall|h: Goal| a.rank(h) is Some && #[trigger] a.satisfiers(h).contains(item) implies a.rank(
            g,
        )->0 <= a.rank(h)->0 by {
            assert(a.serves(item, h));
            assert(a.active(g) ==> a.rank(g) == Some(a.assigned_rank(g)));
            assert(a.active(h) ==> a.rank(h) == Some(a.assigned_rank(h)));
        }
    } else {
        assert forall|g: Goal| !(a.rank(g) is Some && #[trigger] a.satisfiers(g).contains(item)) by {
            assert(!a.serves(item, g));
        }
    }
}

/// The most valued goal in play is the lowest-ranked goal of the hierarchy;
/// there is none exactly when the hierarchy is empty.
pub proof fn law_top_goal_is_min_rank(a: Actor)
    requires
        a.wf_goals(),
    ensures
        a.top_goal() is None <==> forall|g: Goal| #[trigger] a.rank(g) is None,
        a.top_goal() is Some ==> {
            let g = a.top_goal()->0;
            &&& a.rank(g) is Some
            &&& forall|h: Goal| #[trigger] a.rank(h) is Some ==> a.rank(g)->0 <= a.rank(h)->0
        },
{
    a.lemma_top_goal();
    if a.top_goal() is Some {
        let g = a.top_goal()->0;
        assert forall|h: Goal| #[trigger] a.rank(h) is Some implies a.rank(g)->0 <= a.rank(h)->0 by {
            a.lemma_active_ranked(g);
            assert(a.active(h));
            if h != g {
                a.lemma_active_ranked(h);
                assert(a.valued_above(g, h));
            }
        }
    } else {
        assert forall|g: Goal| #[trigger] a.rank(g) is None by {
            assert(!a.active(g));
        }
    }
}

/// A goal that is out of the hierarchy, as every goal is once
/// `remove_goal` has been called on it, is the best goal of no item.
pub proof fn law_removed_goal_is_never_best(a: Actor, g: Goal, item: Item)
    requires
        a.wf_goals(),
        a.rank(g) is None,
    ensures
        a.best_goal(item) != Some(g),
{
    a.lemma_best_goal(item);
}

/// Comparing item values is comparing the ranks of the items' best goals
/// (lower rank, more worth); an item with a best goal is worth more than one
/// without, two without are worth the same; and the comparison is
/// antisymmetric.
pub proof fn law_item_order(a: Actor, x: Item, y: Item)
    requires
        a.wf_goals(),
    ensures
        a.best_goal(x) is Some && a.best_goal(y) is Some ==> {
            let rx = a.rank(a.best_goal(x)->0)->0;
            let ry = a.rank(a.best_goal(y)->0)->0;
            &&& a.rank(a.best_goal(x)->0) is Some
            &&& a.rank(a.best_goal(y)->0) is Some
            &&& (a.item_order(x, y) == Ordering::Greater <==> rx < ry)
            &&& (a.item_order(x, y) == Ordering::Less <==> rx > ry)
            &&& (a.item_order(x, y) == Ordering::Equal <==> rx == ry)
        },
        a.best_goal(x) is Some && a.best_goal(y) is None ==> a.item_order(x, y) == Ordering::Greater,
        a.best_goal(x) is None && a.best_goal(y) is Some ==> a.item_order(x, y) == Ordering::Less,
        a.best_goal(x) is None && a.best_goal(y) is None ==> a.item_order(x, y) == Ordering::Equal,
        a.item_order(x, y) == Ordering::Less <==> a.item_order(y, x) == Ordering::Greater,
        a.item_order(x, y) == Ordering::Equal <==> a.item_order(y, x) == Ordering::Equal,
{
    a.lemma_best_goal(x);
    a.lemma_best_goal(y);
}

impl Actor {
    /// Completes a trade: gives away the item at position `give_at`, takes
    /// `get` in at its ordered place, and returns to `SearchingForGoal`.
    pub(crate) fn exchange(&mut self, give_at: usize, get: Item)
        requires
            old(self).wf(),
            give_at < old(self).inventory_view().len(),
        ensures
            final(self).wf(),
            final(self).inventory_sorted(),
            final(self).same_goals(*old(self)),
            final(self).state_view() == ActorState::SearchingForGoal,
            final(self).inventory_view().to_multiset() == old(self).inventory_view().remove(
                give_at as int,
            ).to_multiset().insert(get),
    {
        self.remove_item_at(give_at);
        self.add_item(get);
        self.set_state(ActorState::SearchingForGoal);
    }
}
} // verus!
