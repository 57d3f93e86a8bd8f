//! The per-tick decision step and the bilateral bargaining protocol between
//! actors held side by side, each referring to its partner by position.

use vstd::prelude::*;
use core::cmp::Ordering;
use crate::discretes::{Goal, Item};
use crate::actor::{Actor, ActorState, matching};

verus! {

/// Every actor is well formed.
pub open spec fn all_wf(actors: Seq<Actor>) -> bool {
    forall|i: int| 0 <= i < actors.len() ==> #[trigger] actors[i].wf()
}

/// Only actors `i` and `j` may differ between `before` and `after`.
pub open spec fn others_kept(before: Seq<Actor>, after: Seq<Actor>, i: int, j: int) -> bool {
    &&& after.len() == before.len()
    &&& forall|k: int| 0 <= k < before.len() && k != i && k != j ==> #[trigger] after[k] == before[k]
}

/// Actor `i` is unchanged but for its bargaining state, now `s`.
pub open spec fn restated(before: Seq<Actor>, after: Seq<Actor>, i: int, s: ActorState) -> bool {
    after[i].same_but_state(before[i]) && after[i].state_view() == s
}

/// `me` uses an item on `goal` if it holds one that can satisfy it (the one
/// `is_pick` designates); otherwise it becomes willing to trade, unless it
/// holds nothing.
pub open spec fn pursued(b: Seq<Actor>, a: Seq<Actor>, me: int, goal: Goal) -> bool {
    let s = b[me];
    &&& others_kept(b, a, me, me)
    &&& if s.can_satisfy(goal) {
        exists|i: int| s.is_pick(goal, i) && Actor::spent(s, a[me], s.inventory_view()[i], goal)
    } else if s.inventory_view().len() > 0 {
        restated(b, a, me, ActorState::WillingToTrade { next: 0 })
    } else {
        a[me] == s
    }
}

impl Actor {
    /// The decision step when no negotiation is going on.
    fn pursue(actors: &mut Vec<Actor>, me: usize, goal: Goal)
        requires
            me < old(actors)@.len(),
            all_wf(old(actors)@),
            old(actors)@[me as int].top_goal() == Some(goal),
        ensures
            all_wf(final(actors)@),
            final(actors)@.len() == old(actors)@.len(),
            pursued(old(actors)@, final(actors)@, me as int, goal),
    {
        let ghost b = actors@;
        proof {
            assert(b[me as int].wf());
            b[me as int].lemma_top_goal();
        }
        match actors[me].find_item_for_goal(goal) {
            Some(i) => {
                let item = actors[me].inventory()[i];
                proof {
                    assert(b[me as int].inventory_view().contains(item));
                }
                actors[me].use_item_for_goal(item, goal);
            },
            None => {
                if actors[me].inventory().len() > 0 {
                    actors[me].set_state(ActorState::WillingToTrade { next: 0 });
                }
            },
        }
        proof {
            assert forall|k: int| 0 <= k < actors@.len() implies #[trigger] actors@[k].wf() by {
                if k != me {
                    assert(actors@[k] == b[k]);
                }
            }
        }
    }
}


/// Actor `p` may be approached by `me` for an item listed in `wanted`: it is
/// another actor, takes part in no negotiation, and holds such an item.
pub open spec fn trade_candidate(actors: Seq<Actor>, me: int, wanted: Seq<Item>, p: int) -> bool {
    &&& 0 <= p < actors.len()
    &&& p != me
    &&& !(actors[p].state_view() is Bidding)
    &&& !(actors[p].state_view() is BidRecipient)
    &&& matching(actors[p].inventory_view(), wanted).len() > 0
}

/// `p` is the first candidate from position `start` on.
pub open spec fn first_candidate(actors: Seq<Actor>, me: int, wanted: Seq<Item>, start: int, p: int) -> bool {
    &&& start <= p
    &&& trade_candidate(actors, me, wanted, p)
    &&& forall|q: int| start <= q < p ==> !trade_candidate(actors, me, wanted, q)
}

/// `me`, willing to trade from position `next` on, approaches the first
/// candidate, which starts waiting on its bid; with no candidate it stays
/// willing to trade and starts over from the first actor next time.
pub open spec fn sought(b: Seq<Actor>, a: Seq<Actor>, me: int, goal: Goal, next: usize) -> bool {
    let wanted = b[me].satisfiers(goal);
    &&& forall|p: int| #[trigger] first_candidate(b, me, wanted, next as int, p) ==> {
        &&& others_kept(b, a, me, p)
        &&& restated(b, a, me, ActorState::FoundTradePartner { partner: p as usize })
        &&& restated(
            b,
            a,
            p,
            ActorState::BidRecipient { initiator: me as usize, offered: None, requested: None },
        )
    }
    &&& (forall|q: int| next <= q < b.len() ==> !#[trigger] trade_candidate(b, me, wanted, q)) ==> {
        &&& others_kept(b, a, me, me)
        &&& restated(b, a, me, ActorState::WillingToTrade { next: 0 })
    }
}

/// Actor `p` is waiting on a bid from `me`.
pub open spec fn engaged_with(actors: Seq<Actor>, me: int, p: int) -> bool {
    &&& 0 <= p < actors.len()
    &&& p != me
    &&& actors[p].state_view() is BidRecipient
    &&& actors[p].state_view()->initiator == me
}

/// `me` gives up on partner `p`, which is released if it was waiting on
/// `me`, and goes on searching after `p`.
pub open spec fn withdrawn(b: Seq<Actor>, a: Seq<Actor>, me: int, p: usize) -> bool {
    if engaged_with(b, me, p as int) {
        &&& others_kept(b, a, me, p as int)
        &&& restated(b, a, me, ActorState::WillingToTrade { next: (p + 1) as usize })
        &&& restated(b, a, p as int, ActorState::SearchingForGoal)
    } else {
        &&& others_kept(b, a, me, me)
        &&& restated(
            b,
            a,
            me,
            ActorState::WillingToTrade { next: if p < b.len() { (p + 1) as usize } else { 0 } },
        )
    }
}

/// The first tentative proposal to `p`: `me`'s least worth item against
/// `p`'s least worth item that can satisfy `goal`. Bidding starts if `me`
/// values the latter strictly more; otherwise `me` withdraws.
pub open spec fn opened(b: Seq<Actor>, a: Seq<Actor>, me: int, goal: Goal, p: usize) -> bool {
    let s = b[me];
    let theirs = matching(b[p as int].inventory_view(), s.satisfiers(goal));
    if engaged_with(b, me, p as int) && theirs.len() > 0 && s.inventory_view().len() > 0 && s.item_order(
        s.inventory_view()[0],
        theirs[0].1,
    ) == Ordering::Less {
        &&& others_kept(b, a, me, p as int)
        &&& restated(b, a, me, ActorState::Bidding { partner: p, offer: 0, ask: 0 })
        &&& restated(
            b,
            a,
            p as int,
            ActorState::BidRecipient {
                initiator: me as usize,
                offered: Some(s.inventory_view()[0]),
                requested: Some(theirs[0].1),
            },
        )
    } else {
        withdrawn(b, a, me, p)
    }
}

/// One round of bidding: `me` offers its item at position `offer` for the
/// `ask`-th of `p`'s items that can satisfy `goal`. `me` accepts if what it
/// gets is worth no less to it than what it gives; `p` accepts if what it
/// gets is worth no less to it than what it gives. On agreement the items
/// change hands and both return to `SearchingForGoal`; otherwise both ladders
/// move up one step. An exhausted ladder ends the negotiation.
pub open spec fn bid_made(
    b: Seq<Actor>,
    a: Seq<Actor>,
    me: int,
    goal: Goal,
    p: usize,
    offer: usize,
    ask: usize,
) -> bool {
    let s = b[me];
    let t = b[p as int];
    let theirs = matching(t.inventory_view(), s.satisfiers(goal));
    if !engaged_with(b, me, p as int) || ask >= theirs.len() || offer >= s.inventory_view().len() {
        withdrawn(b, a, me, p)
    } else {
        let give = s.inventory_view()[offer as int];
        let at = theirs[ask as int].0;
        let get = theirs[ask as int].1;
        if t.item_order(give, get) != Ordering::Less && s.item_order(give, get) != Ordering::Greater {
            &&& others_kept(b, a, me, p as int)
            &&& a[me].same_goals(s)
            &&& a[me].state_view() == ActorState::SearchingForGoal
            &&& a[me].inventory_view().to_multiset() == s.inventory_view().remove(
                offer as int,
            ).to_multiset().insert(get)
            &&& a[p as int].same_goals(t)
            &&& a[p as int].state_view() == ActorState::SearchingForGoal
            &&& a[p as int].inventory_view().to_multiset() == t.inventory_view().remove(
                at as int,
            ).to_multiset().insert(give)
        } else {
            &&& others_kept(b, a, me, p as int)
            &&& restated(
                b,
                a,
                me,
                ActorState::Bidding { partner: p, offer: (offer + 1) as usize, ask: (ask + 1) as usize },
            )
            &&& restated(
                b,
                a,
                p as int,
                ActorState::BidRecipient {
                    initiator: me as usize,
                    offered: Some(give),
                    requested: Some(get),
                },
            )
        }
    }
}

impl Actor {
    /// Scans the actors from position `start` on for the first one that `me`
    /// may approach for an item listed in `wanted`.
    fn find_next_actor_for_trade(actors: &Vec<Actor>, me: usize, wanted: &Vec<Item>, start: usize) -> (r:
        Option<usize>)
        ensures
            r is Some ==> first_candidate(actors@, me as int, wanted@, start as int, r->0 as int),
            r is None ==> forall|q: int|
                start <= q < actors@.len() ==> !#[trigger] trade_candidate(actors@, me as int, wanted@, q),
    {
        let mut q: usize = start;
        while q < actors.len()
            invariant
                start <= q,
                forall|k: int| start <= k < q ==> !#[trigger] trade_candidate(actors@, me as int, wanted@, k),
            decreases actors@.len() - q,
        {
            if q != me {
                let st = actors[q].state();
                if !matches!(st, ActorState::Bidding { .. }) && !matches!(st, ActorState::BidRecipient { .. }) {
                    let theirs = actors[q].has_item_of(wanted);
                    if theirs.len() > 0 {
                        return Some(q);
                    }
                }
            }
            q = q + 1;
        }
        None
    }

    /// Looks for a trade partner.
    fn seek_partner(actors: &mut Vec<Actor>, me: usize, goal: Goal, next: usize)
        requires
            me < old(actors)@.len(),
            all_wf(old(actors)@),
        ensures
            all_wf(final(actors)@),
            final(actors)@.len() == old(actors)@.len(),
            sought(old(actors)@, final(actors)@, me as int, goal, next),
    {
        let ghost b = actors@;
        proof {
            assert(b[me as int].wf());
        }
        let wanted = actors[me].satisfactions_for(goal).clone();
        proof {
            assert(wanted@ =~= b[me as int].satisfiers(goal));
        }
        match Actor::find_next_actor_for_trade(actors, me, &wanted, next) {
            Some(p) => {
                proof {
                    assert(b[p as int].wf());
                }
                actors[me].set_state(ActorState::FoundTradePartner { partner: p });
                actors[p].set_state(
                    ActorState::BidRecipient { initiator: me, offered: None, requested: None },
                );
                proof {
                    assert forall|q: int| #[trigger] first_candidate(b, me as int, wanted@, next as int, q)
                        implies q == p by {
                        if q < p {
                            assert(!trade_candidate(b, me as int, wanted@, q));
                        } else if q > p {
                            assert(!trade_candidate(b, me as int, wanted@, p as int));
                        }
                    }
                }
            },
            None => {
                actors[me].set_state(ActorState::WillingToTrade { next: 0 });
            },
        }
        proof {
            assert forall|k: int| 0 <= k < actors@.len() implies #[trigger] actors@[k].wf() by {
                assert(b[k].wf());
            }
        }
    }

    /// Gives up on partner `p`.
    fn withdraw(actors: &mut Vec<Actor>, me: usize, p: usize)
        requires
            me < old(actors)@.len(),
            all_wf(old(actors)@),
        ensures
            all_wf(final(actors)@),
            final(actors)@.len() == old(actors)@.len(),
            withdrawn(old(actors)@, final(actors)@, me as int, p),
    {
        let ghost b = actors@;
        proof {
            assert(b[me as int].wf());
        }
        if p < actors.len() {
            proof {
                assert(b[p as int].wf());
            }
            let engaged = p != me && match actors[p].state() {
                ActorState::BidRecipient { initiator, .. } => initiator == me,
                _ => false,
            };
            if engaged {
                actors[p].set_state(ActorState::SearchingForGoal);
            }
            actors[me].set_state(ActorState::WillingToTrade { next: p + 1 });
        } else {
            actors[me].set_state(ActorState::WillingToTrade { next: 0 });
        }
        proof {
            assert forall|k: int| 0 <= k < actors@.len() implies #[trigger] actors@[k].wf() by {
                assert(b[k].wf());
            }
        }
    }
}

/// What `me` does on a tick at which it pursues `goal` (after its timers
/// advanced), by bargaining state. With no goal, or while waiting on a bid,
/// nothing changes.
pub open spec fn decided(b: Seq<Actor>, a: Seq<Actor>, me: int) -> bool {
    match b[me].top_goal() {
        None => a == b,
        Some(goal) => match b[me].state_view() {
            ActorState::SearchingForGoal => pursued(b, a, me, goal),
            ActorState::WillingToTrade { next } => sought(b, a, me, goal, next),
            ActorState::FoundTradePartner { partner } => opened(b, a, me, goal, partner),
            ActorState::Bidding { partner, offer, ask } => bid_made(b, a, me, goal, partner, offer, ask),
            ActorState::BidRecipient { .. } => a == b,
        },
    }
}

impl Actor {
    /// Makes the first tentative proposal to partner `p`.
    fn open_bid(actors: &mut Vec<Actor>, me: usize, goal: Goal, p: usize)
        requires
            me < old(actors)@.len(),
            all_wf(old(actors)@),
        ensures
            all_wf(final(actors)@),
            final(actors)@.len() == old(actors)@.len(),
            opened(old(actors)@, final(actors)@, me as int, goal, p),
    {
        let ghost b = actors@;
        proof {
            assert(b[me as int].wf());
        }
        let engaged = p < actors.len() && p != me && match actors[p].state() {
            ActorState::BidRecipient { initiator, .. } => initiator == me,
            _ => false,
        };
        if !engaged {
            Actor::withdraw(actors, me, p);
            return;
        }
        proof {
            assert(b[p as int].wf());
        }
        let wanted = actors[me].satisfactions_for(goal).clone();
        proof {
            assert(wanted@ =~= b[me as int].satisfiers(goal));
        }
        let theirs = actors[p].has_item_of(&wanted);
        if theirs.len() == 0 || actors[me].inventory().len() == 0 {
            Actor::withdraw(actors, me, p);
            return;
        }
        let mine = actors[me].inventory()[0];
        let want = theirs[0].1;
        if !matches!(actors[me].compare_item_values(mine, want), Ordering::Less) {
            Actor::withdraw(actors, me, p);
            return;
        }
        actors[me].set_state(ActorState::Bidding { partner: p, offer: 0, ask: 0 });
        actors[p].set_state(
            ActorState::BidRecipient { initiator: me, offered: Some(mine), requested: Some(want) },
        );
        proof {
            assert forall|k: int| 0 <= k < actors@.len() implies #[trigger] actors@[k].wf() by {
                assert(b[k].wf());
            }
        }
    }

    /// Makes the next bid of the concession ladder to partner `p`.
    fn bid(actors: &mut Vec<Actor>, me: usize, goal: Goal, p: usize, offer: usize, ask: usize)
        requires
            me < old(actors)@.len(),
            all_wf(old(actors)@),
        ensures
            all_wf(final(actors)@),
            final(actors)@.len() == old(actors)@.len(),
            bid_made(old(actors)@, final(actors)@, me as int, goal, p, offer, ask),
    {
        let ghost b = actors@;
        proof {
            assert(b[me as int].wf());
        }
        let engaged = p < actors.len() && p != me && match actors[p].state() {
            ActorState::BidRecipient { initiator, .. } => initiator == me,
            _ => false,
        };
        if !engaged {
            Actor::withdraw(actors, me, p);
            return;
        }
        proof {
            assert(b[p as int].wf());
        }
        let wanted = actors[me].satisfactions_for(goal).clone();
        proof {
            assert(wanted@ =~= b[me as int].satisfiers(goal));
        }
        let theirs = actors[p].has_item_of(&wanted);
        if ask >= theirs.len() || offer >= actors[me].inventory().len() {
            Actor::withdraw(actors, me, p);
            return;
        }
        let give = actors[me].inventory()[offer];
        let (at, get) = theirs[ask];
        let partner_agrees = !matches!(actors[p].compare_item_values(give, get), Ordering::Less);
        let me_agrees = !matches!(actors[me].compare_item_values(give, get), Ordering::Greater);
        if partner_agrees && me_agrees {
            let held = actors[p].inventory().len();
            proof {
                crate::actor::lemma_matching(b[p as int].inventory_view(), wanted@, held as int);
                assert(theirs@[ask as int] == (at, get));
            }
            actors[me].exchange(offer, get);
            actors[p].exchange(at, give);
        } else {
            actors[me].set_state(ActorState::Bidding { partner: p, offer: offer + 1, ask: ask + 1 });
            actors[p].set_state(
                ActorState::BidRecipient { initiator: me, offered: Some(give), requested: Some(get) },
            );
        }
        proof {
            assert forall|k: int| 0 <= k < actors@.len() implies #[trigger] actors@[k].wf() by {
                assert(b[k].wf());
            }
        }
    }

    /// The decision step of actor `me` once its timers have advanced.
    fn decide(actors: &mut Vec<Actor>, me: usize)
        requires
            me < old(actors)@.len(),
            all_wf(old(actors)@),
        ensures
            all_wf(final(actors)@),
            final(actors)@.len() == old(actors)@.len(),
            decided(old(actors)@, final(actors)@, me as int),
    {
        proof {
            assert(actors@[me as int].wf());
        }
        let goal = actors[me].current_goal();
        match goal {
            None => {},
            Some(goal) => {
                match actors[me].state() {
                    ActorState::SearchingForGoal => Actor::pursue(actors, me, goal),
                    ActorState::WillingToTrade { next } => Actor::seek_partner(actors, me, goal, next),
                    ActorState::FoundTradePartner { partner } => Actor::open_bid(actors, me, goal, partner),
                    ActorState::Bidding { partner, offer, ask } => Actor::bid(
                        actors,
                        me,
                        goal,
                        partner,
                        offer,
                        ask,
                    ),
                    ActorState::BidRecipient { .. } => {},
                }
            },
        }
    }

    /// Runs one tick of actor `me` among `actors`: its recurring goals' timers
    /// advance (bringing expired goals back), then it takes the decision step
    /// of its bargaining state for its most valued goal, which may change one
    /// partner as well.
    pub fn tick(actors: &mut Vec<Actor>, me: usize)
        requires
            me < old(actors)@.len(),
            all_wf(old(actors)@),
        ensures
            all_wf(final(actors)@),
            final(actors)@.len() == old(actors)@.len(),
            exists|timed: Actor|
                timed.wf() && Actor::timers_advanced(old(actors)@[me as int], timed) && #[trigger] decided(
                    old(actors)@.update(me as int, timed),
                    final(actors)@,
                    me as int,
                ),
    {
        let ghost b = actors@;
        proof {
            assert(b[me as int].wf());
        }
        actors[me].advance_timers();
        let ghost timed = actors@[me as int];
        proof {
            assert(actors@ =~= b.update(me as int, timed));
            assert forall|k: int| 0 <= k < actors@.len() implies #[trigger] actors@[k].wf() by {
                assert(b[k].wf());
            }
        }
        Actor::decide(actors, me);
        proof {
            assert(Actor::timers_advanced(b[me as int], timed));
            assert(timed.wf());
        }
    }
}
} // verus!
