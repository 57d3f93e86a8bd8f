use microeconomics::actor::{Actor, ActorState};
use microeconomics::goals::GoalData;
use microeconomics::{Goal, Item};
use std::cmp::Ordering;

fn once(goal: Goal, units_required: i32, id: i32) -> GoalData {
    GoalData::Satisfaction { goal, units_required, units: 0, id }
}

fn recurring(goal: Goal, time_required: i32, units_required: i32, id: i32) -> GoalData {
    GoalData::RegularSatisfaction { goal, time_required, time: 0, units_required, units: 0, id }
}

fn standard_satisfactions() -> Vec<(Goal, Vec<Item>)> {
    vec![
        (Goal::Eat, vec![Item::FoodUnit]),
        (Goal::Shelter, vec![Item::HouseUnit]),
        (Goal::Leisure, vec![Item::FoodUnit, Item::HouseUnit, Item::LeisureUnit1]),
    ]
}

#[test]
fn new_actor_ranks_goals_by_position() {
    let a = Actor::new(
        "Actor#0".to_string(),
        vec![once(Goal::Eat, 1, 0), once(Goal::Shelter, 1, 1), once(Goal::Leisure, 1, 2)],
        standard_satisfactions(),
    );
    assert_eq!(a.name(), "Actor#0");
    assert_eq!(a.goal_rank(Goal::Eat), Some(0));
    assert_eq!(a.goal_rank(Goal::Shelter), Some(1));
    assert_eq!(a.goal_rank(Goal::Leisure), Some(2));
    assert_eq!(a.goal_rank(Goal::Rest), None);
    assert_eq!(a.goal_record(Goal::Shelter), Some(once(Goal::Shelter, 1, 1)));
    assert_eq!(a.goal_record(Goal::Rest), None);
    assert_eq!(a.state(), ActorState::SearchingForGoal);
    assert!(a.inventory().is_empty());
    assert_eq!(a.current_goal(), Some(Goal::Eat));
    assert_eq!(a.satisfactions_for(Goal::Leisure), &vec![Item::FoodUnit, Item::HouseUnit, Item::LeisureUnit1]);
    assert!(a.satisfactions_for(Goal::Rest).is_empty());
}

#[test]
fn new_actor_keeps_last_entry_of_repeated_goal() {
    let a = Actor::new(
        "x".to_string(),
        vec![once(Goal::Eat, 1, 0), once(Goal::Shelter, 1, 1), once(Goal::Eat, 5, 2)],
        vec![(Goal::Eat, vec![Item::HouseUnit]), (Goal::Eat, vec![Item::FoodUnit])],
    );
    assert_eq!(a.goal_rank(Goal::Eat), Some(2));
    assert_eq!(a.goal_record(Goal::Eat), Some(once(Goal::Eat, 5, 2)));
    assert_eq!(a.current_goal(), Some(Goal::Shelter));
    assert_eq!(a.satisfactions_for(Goal::Eat), &vec![Item::FoodUnit]);
}

#[test]
fn best_goal_is_lowest_rank_goal_served() {
    let a = Actor::new(
        "x".to_string(),
        vec![once(Goal::Shelter, 1, 0), once(Goal::Leisure, 1, 1), once(Goal::Eat, 1, 2)],
        standard_satisfactions(),
    );
    assert_eq!(a.get_best_goal(Item::FoodUnit), Some(Goal::Leisure));
    assert_eq!(a.get_best_goal(Item::HouseUnit), Some(Goal::Shelter));
    assert_eq!(a.get_best_goal(Item::LeisureUnit1), Some(Goal::Leisure));
    assert_eq!(a.get_best_goal(Item::LeisureUnit2), None);
    let food: Vec<Goal> = a.preferences(Item::FoodUnit).iter().map(|w| w.goal).collect();
    assert_eq!(food, vec![Goal::Leisure, Goal::Eat]);
}

#[test]
fn best_goal_follows_add_and_remove() {
    let mut a = Actor::new(
        "x".to_string(),
        vec![once(Goal::Leisure, 1, 0), recurring(Goal::Eat, 4, 1, 1)],
        standard_satisfactions(),
    );
    assert_eq!(a.get_best_goal(Item::FoodUnit), Some(Goal::Leisure));
    a.remove_goal(Goal::Leisure);
    assert_eq!(a.get_best_goal(Item::FoodUnit), Some(Goal::Eat));
    assert_eq!(a.get_best_goal(Item::LeisureUnit1), None);
    a.remove_goal(Goal::Eat);
    assert_eq!(a.get_best_goal(Item::FoodUnit), None);
    a.add_goal(Goal::Eat);
    assert_eq!(a.get_best_goal(Item::FoodUnit), Some(Goal::Eat));
    assert_eq!(a.goal_rank(Goal::Eat), Some(1));
    // a retired one-shot goal is no longer registered, so it does not come back
    a.add_goal(Goal::Leisure);
    assert_eq!(a.goal_rank(Goal::Leisure), None);
    assert_eq!(a.get_best_goal(Item::LeisureUnit1), None);
}

#[test]
fn removed_goal_is_never_best() {
    let mut a = Actor::new(
        "x".to_string(),
        vec![once(Goal::Eat, 1, 0), once(Goal::Shelter, 1, 1), once(Goal::Leisure, 1, 2)],
        standard_satisfactions(),
    );
    a.remove_goal(Goal::Leisure);
    for item in [Item::FoodUnit, Item::HouseUnit, Item::LeisureUnit1, Item::LeisureUnit2] {
        assert_ne!(a.get_best_goal(item), Some(Goal::Leisure));
    }
    assert_eq!(a.get_best_goal(Item::LeisureUnit1), None);
}

#[test]
fn remove_absent_goal_changes_nothing() {
    let mut a = Actor::new(
        "x".to_string(),
        vec![once(Goal::Eat, 1, 0), recurring(Goal::Rest, 3, 1, 1)],
        standard_satisfactions(),
    );
    a.add_item(Item::FoodUnit);
    a.remove_goal(Goal::Rest);
    let record = a.goal_record(Goal::Rest);
    assert_eq!(record, Some(recurring(Goal::Rest, 3, 1, 1)));
    a.remove_goal(Goal::Rest);
    a.remove_goal(Goal::Shelter);
    assert_eq!(a.goal_record(Goal::Rest), record);
    assert_eq!(a.goal_rank(Goal::Rest), None);
    assert_eq!(a.goal_rank(Goal::Eat), Some(0));
    assert_eq!(a.inventory(), &vec![Item::FoodUnit]);
    assert_eq!(a.get_best_goal(Item::FoodUnit), Some(Goal::Eat));
}

#[test]
fn removing_recurring_goal_restarts_its_timer() {
    let mut a = Actor::new(
        "x".to_string(),
        vec![GoalData::RegularSatisfaction { goal: Goal::Eat, time_required: 5, time: 2, units_required: 1, units: 0, id: 0 }],
        standard_satisfactions(),
    );
    a.remove_goal(Goal::Eat);
    assert_eq!(
        a.goal_record(Goal::Eat),
        Some(GoalData::RegularSatisfaction { goal: Goal::Eat, time_required: 5, time: 0, units_required: 1, units: 0, id: 0 })
    );
}

#[test]
fn add_new_goal_replaces_rank() {
    let mut a = Actor::new(
        "x".to_string(),
        vec![once(Goal::Eat, 1, 0), once(Goal::Shelter, 1, 1)],
        standard_satisfactions(),
    );
    a.add_new_goal(once(Goal::Eat, 3, 7), 5);
    assert_eq!(a.goal_rank(Goal::Eat), Some(5));
    assert_eq!(a.goal_record(Goal::Eat), Some(once(Goal::Eat, 3, 7)));
    assert_eq!(a.current_goal(), Some(Goal::Shelter));
    a.add_new_goal(once(Goal::Leisure, 1, 8), 0);
    assert_eq!(a.current_goal(), Some(Goal::Leisure));
    assert_eq!(a.get_best_goal(Item::FoodUnit), Some(Goal::Leisure));
}

#[test]
fn equal_ranks_fall_back_to_goal_order() {
    let mut a = Actor::new("x".to_string(), vec![], standard_satisfactions());
    a.add_new_goal(once(Goal::Leisure, 1, 0), 3);
    a.add_new_goal(once(Goal::Eat, 1, 1), 3);
    assert_eq!(a.get_best_goal(Item::FoodUnit), Some(Goal::Eat));
    assert_eq!(a.current_goal(), Some(Goal::Eat));
    assert_eq!(a.compare_item_values(Item::FoodUnit, Item::LeisureUnit1), Ordering::Equal);
}

#[test]
fn compare_item_values_by_best_goal_rank() {
    let a = Actor::new(
        "x".to_string(),
        vec![once(Goal::Eat, 1, 0), once(Goal::Shelter, 1, 1), once(Goal::Leisure, 1, 2)],
        standard_satisfactions(),
    );
    assert_eq!(a.compare_item_values(Item::FoodUnit, Item::HouseUnit), Ordering::Greater);
    assert_eq!(a.compare_item_values(Item::HouseUnit, Item::FoodUnit), Ordering::Less);
    assert_eq!(a.compare_item_values(Item::LeisureUnit1, Item::HouseUnit), Ordering::Less);
    assert_eq!(a.compare_item_values(Item::FoodUnit, Item::FoodUnit), Ordering::Equal);
    // an item that serves no goal is worth less than any that does
    assert_eq!(a.compare_item_values(Item::LeisureUnit2, Item::LeisureUnit1), Ordering::Less);
    assert_eq!(a.compare_item_values(Item::LeisureUnit1, Item::LeisureUnit2), Ordering::Greater);
    assert_eq!(a.compare_item_values(Item::LeisureUnit2, Item::LeisureUnit2), Ordering::Equal);
}

#[test]
fn compare_item_values_is_antisymmetric() {
    let a = Actor::new(
        "x".to_string(),
        vec![once(Goal::Leisure, 1, 0), once(Goal::Shelter, 1, 1), once(Goal::Eat, 1, 2)],
        standard_satisfactions(),
    );
    let items = [Item::FoodUnit, Item::HouseUnit, Item::LeisureUnit1, Item::LeisureUnit2];
    for x in items {
        for y in items {
            assert_eq!(a.compare_item_values(x, y), a.compare_item_values(y, x).reverse());
        }
    }
}

#[test]
fn add_item_keeps_inventory_sorted() {
    let mut a = Actor::new(
        "x".to_string(),
        vec![once(Goal::Eat, 1, 0), once(Goal::Shelter, 1, 1)],
        standard_satisfactions(),
    );
    a.add_item(Item::FoodUnit);
    a.add_item(Item::LeisureUnit2);
    a.add_item(Item::HouseUnit);
    a.add_item(Item::FoodUnit);
    a.add_item(Item::LeisureUnit1);
    assert_eq!(
        a.inventory(),
        &vec![Item::LeisureUnit2, Item::LeisureUnit1, Item::HouseUnit, Item::FoodUnit, Item::FoodUnit]
    );
    let inv = a.inventory().clone();
    for w in inv.windows(2) {
        assert_ne!(a.compare_item_values(w[0], w[1]), Ordering::Greater);
    }
}

#[test]
fn inventory_is_reordered_when_goals_change() {
    let mut a = Actor::new(
        "x".to_string(),
        vec![once(Goal::Eat, 1, 0), once(Goal::Shelter, 1, 1)],
        standard_satisfactions(),
    );
    a.add_item(Item::FoodUnit);
    a.add_item(Item::HouseUnit);
    assert_eq!(a.inventory(), &vec![Item::HouseUnit, Item::FoodUnit]);
    a.remove_goal(Goal::Eat);
    assert_eq!(a.inventory(), &vec![Item::FoodUnit, Item::HouseUnit]);
}

#[test]
fn has_item_of_lists_positions() {
    let mut a = Actor::new(
        "x".to_string(),
        vec![once(Goal::Eat, 1, 0), once(Goal::Shelter, 1, 1)],
        standard_satisfactions(),
    );
    a.add_item(Item::FoodUnit);
    a.add_item(Item::HouseUnit);
    a.add_item(Item::LeisureUnit1);
    assert_eq!(
        a.has_item_of(&vec![Item::FoodUnit, Item::LeisureUnit1]),
        vec![(0, Item::LeisureUnit1), (2, Item::FoodUnit)]
    );
    assert!(a.has_item_of(&vec![Item::LeisureUnit2]).is_empty());
}

#[test]
fn use_item_for_goal_records_progress() {
    let mut a = Actor::new(
        "x".to_string(),
        vec![once(Goal::Shelter, 2, 0)],
        standard_satisfactions(),
    );
    a.add_item(Item::HouseUnit);
    a.add_item(Item::HouseUnit);
    assert!(a.use_item_for_goal(Item::HouseUnit, Goal::Shelter));
    assert_eq!(a.goal_record(Goal::Shelter), Some(GoalData::Satisfaction { goal: Goal::Shelter, units_required: 2, units: 1, id: 0 }));
    assert_eq!(a.goal_rank(Goal::Shelter), Some(0));
    assert_eq!(a.inventory(), &vec![Item::HouseUnit]);
    assert!(a.use_item_for_goal(Item::HouseUnit, Goal::Shelter));
    assert_eq!(a.goal_record(Goal::Shelter), None);
    assert_eq!(a.goal_rank(Goal::Shelter), None);
    assert!(a.inventory().is_empty());
}

#[test]
fn use_item_for_goal_without_item_or_goal_is_a_no_op() {
    let mut a = Actor::new(
        "x".to_string(),
        vec![once(Goal::Shelter, 2, 0)],
        standard_satisfactions(),
    );
    a.add_item(Item::FoodUnit);
    assert!(!a.use_item_for_goal(Item::HouseUnit, Goal::Shelter));
    assert!(!a.use_item_for_goal(Item::FoodUnit, Goal::Eat));
    assert_eq!(a.inventory(), &vec![Item::FoodUnit]);
    assert_eq!(a.goal_record(Goal::Shelter), Some(once(Goal::Shelter, 2, 0)));
}

#[test]
fn tick_consumes_item_and_retires_goal() {
    let mut actors = vec![Actor::new(
        "Actor#0".to_string(),
        vec![once(Goal::Eat, 1, 0), once(Goal::Shelter, 1, 1)],
        vec![(Goal::Eat, vec![Item::FoodUnit]), (Goal::Shelter, vec![Item::HouseUnit])],
    )];
    actors[0].add_item(Item::FoodUnit);
    Actor::tick(&mut actors, 0);
    assert!(actors[0].inventory().is_empty());
    assert_eq!(actors[0].goal_rank(Goal::Eat), None);
    assert_eq!(actors[0].goal_record(Goal::Eat), None);
    assert_eq!(actors[0].goal_rank(Goal::Shelter), Some(1));
    assert_eq!(actors[0].state(), ActorState::SearchingForGoal);
}

#[test]
fn tick_increments_progress() {
    let mut actors = vec![Actor::new(
        "Actor#0".to_string(),
        vec![once(Goal::Eat, 2, 0), once(Goal::Shelter, 1, 1)],
        vec![(Goal::Eat, vec![Item::FoodUnit]), (Goal::Shelter, vec![Item::HouseUnit])],
    )];
    actors[0].add_item(Item::FoodUnit);
    Actor::tick(&mut actors, 0);
    assert_eq!(actors[0].goal_record(Goal::Eat), Some(GoalData::Satisfaction { goal: Goal::Eat, units_required: 2, units: 1, id: 0 }));
    assert_eq!(actors[0].goal_rank(Goal::Eat), Some(0));
}

#[test]
fn tick_prefers_exact_match_then_least_worth_item() {
    let mut actors = vec![Actor::new(
        "Actor#0".to_string(),
        vec![once(Goal::Eat, 5, 0), once(Goal::Leisure, 5, 1)],
        standard_satisfactions(),
    )];
    // Once Eat drops below Leisure, both held items are best used on Leisure.
    actors[0].add_item(Item::FoodUnit);
    actors[0].add_item(Item::LeisureUnit1);
    actors[0].add_new_goal(once(Goal::Eat, 5, 0), 2);
    // now Leisure (rank 1) leads; both items can serve it
    assert_eq!(actors[0].current_goal(), Some(Goal::Leisure));
    Actor::tick(&mut actors, 0);
    assert_eq!(actors[0].inventory(), &vec![Item::FoodUnit]);
    Actor::tick(&mut actors, 0);
    // FoodUnit serves Leisure best as well, so it is spent next
    assert!(actors[0].inventory().is_empty());
}

#[test]
fn tick_with_empty_inventory_keeps_searching() {
    let mut actors = vec![Actor::new(
        "Actor#0".to_string(),
        vec![once(Goal::Eat, 1, 0)],
        standard_satisfactions(),
    )];
    Actor::tick(&mut actors, 0);
    assert_eq!(actors[0].state(), ActorState::SearchingForGoal);
    assert_eq!(actors[0].goal_rank(Goal::Eat), Some(0));
}

#[test]
fn tick_without_goal_does_nothing() {
    let mut actors = vec![Actor::new("Actor#0".to_string(), vec![], standard_satisfactions())];
    actors[0].add_item(Item::FoodUnit);
    Actor::tick(&mut actors, 0);
    assert_eq!(actors[0].state(), ActorState::SearchingForGoal);
    assert_eq!(actors[0].inventory(), &vec![Item::FoodUnit]);
}

fn trading_pair() -> Vec<Actor> {
    let sat = vec![(Goal::Eat, vec![Item::FoodUnit]), (Goal::Shelter, vec![Item::HouseUnit])];
    let mut a = Actor::new("Actor#0".to_string(), vec![once(Goal::Shelter, 1, 0)], sat.clone());
    let mut b = Actor::new("Actor#1".to_string(), vec![once(Goal::Eat, 1, 0)], sat);
    a.add_item(Item::FoodUnit);
    b.add_item(Item::HouseUnit);
    vec![a, b]
}

#[test]
fn bilateral_trade_completes() {
    let mut actors = trading_pair();
    Actor::tick(&mut actors, 0);
    assert_eq!(actors[0].state(), ActorState::WillingToTrade { next: 0 });
    Actor::tick(&mut actors, 0);
    assert_eq!(actors[0].state(), ActorState::FoundTradePartner { partner: 1 });
    assert_eq!(actors[1].state(), ActorState::BidRecipient { initiator: 0, offered: None, requested: None });
    Actor::tick(&mut actors, 0);
    assert_eq!(actors[0].state(), ActorState::Bidding { partner: 1, offer: 0, ask: 0 });
    assert_eq!(
        actors[1].state(),
        ActorState::BidRecipient { initiator: 0, offered: Some(Item::FoodUnit), requested: Some(Item::HouseUnit) }
    );
    Actor::tick(&mut actors, 0);
    assert_eq!(actors[0].inventory(), &vec![Item::HouseUnit]);
    assert_eq!(actors[1].inventory(), &vec![Item::FoodUnit]);
    assert_eq!(actors[0].state(), ActorState::SearchingForGoal);
    assert_eq!(actors[1].state(), ActorState::SearchingForGoal);
}

#[test]
fn waiting_partner_does_nothing_on_its_tick() {
    let mut actors = trading_pair();
    Actor::tick(&mut actors, 0);
    Actor::tick(&mut actors, 0);
    Actor::tick(&mut actors, 1);
    assert_eq!(actors[1].state(), ActorState::BidRecipient { initiator: 0, offered: None, requested: None });
    assert_eq!(actors[1].inventory(), &vec![Item::HouseUnit]);
}

#[test]
fn trade_that_never_works_is_abandoned() {
    let sat = vec![(Goal::Eat, vec![Item::FoodUnit]), (Goal::Shelter, vec![Item::HouseUnit])];
    // the initiator values its own food above the partner's house
    let mut a = Actor::new("Actor#0".to_string(), vec![once(Goal::Shelter, 1, 1)], sat.clone());
    a.add_new_goal(recurring(Goal::Eat, 100, 1, 0), 0);
    a.remove_goal(Goal::Eat);
    let mut b = Actor::new("Actor#1".to_string(), vec![once(Goal::Eat, 1, 0)], sat);
    a.add_item(Item::FoodUnit);
    b.add_item(Item::HouseUnit);
    let mut actors = vec![a, b];
    Actor::tick(&mut actors, 0);
    Actor::tick(&mut actors, 0);
    assert_eq!(actors[0].state(), ActorState::FoundTradePartner { partner: 1 });
    // Eat is back for the initiator: food is now worth more to it than the house
    actors[0].add_goal(Goal::Eat);
    Actor::tick(&mut actors, 0);
    assert_eq!(actors[0].state(), ActorState::WillingToTrade { next: 2 });
    assert_eq!(actors[1].state(), ActorState::SearchingForGoal);
}

#[test]
fn rejected_bid_moves_up_the_ladder_and_ends_when_exhausted() {
    let sat = vec![(Goal::Eat, vec![Item::FoodUnit]), (Goal::Shelter, vec![Item::HouseUnit])];
    let mut a = Actor::new("Actor#0".to_string(), vec![once(Goal::Shelter, 1, 0)], sat.clone());
    // the partner values its house above the food it would get
    let mut b = Actor::new("Actor#1".to_string(), vec![once(Goal::Shelter, 1, 0)], sat);
    a.add_item(Item::FoodUnit);
    b.add_item(Item::HouseUnit);
    let mut actors = vec![a, b];
    Actor::tick(&mut actors, 0);
    Actor::tick(&mut actors, 0);
    Actor::tick(&mut actors, 0);
    assert_eq!(actors[0].state(), ActorState::Bidding { partner: 1, offer: 0, ask: 0 });
    Actor::tick(&mut actors, 0);
    assert_eq!(actors[0].state(), ActorState::Bidding { partner: 1, offer: 1, ask: 1 });
    assert_eq!(
        actors[1].state(),
        ActorState::BidRecipient { initiator: 0, offered: Some(Item::FoodUnit), requested: Some(Item::HouseUnit) }
    );
    Actor::tick(&mut actors, 0);
    assert_eq!(actors[0].state(), ActorState::WillingToTrade { next: 2 });
    assert_eq!(actors[1].state(), ActorState::SearchingForGoal);
    assert_eq!(actors[0].inventory(), &vec![Item::FoodUnit]);
    assert_eq!(actors[1].inventory(), &vec![Item::HouseUnit]);
}

#[test]
fn recurring_goal_returns_after_its_time() {
    let mut actors = vec![Actor::new(
        "Actor#0".to_string(),
        vec![recurring(Goal::Eat, 3, 1, 0)],
        standard_satisfactions(),
    )];
    actors[0].add_item(Item::FoodUnit);
    Actor::tick(&mut actors, 0);
    assert!(actors[0].inventory().is_empty());
    assert_eq!(actors[0].goal_rank(Goal::Eat), None);
    assert_eq!(actors[0].get_best_goal(Item::FoodUnit), None);
    Actor::tick(&mut actors, 0);
    assert_eq!(actors[0].goal_rank(Goal::Eat), None);
    Actor::tick(&mut actors, 0);
    assert_eq!(actors[0].goal_rank(Goal::Eat), None);
    Actor::tick(&mut actors, 0);
    assert_eq!(actors[0].goal_rank(Goal::Eat), Some(0));
    assert_eq!(actors[0].get_best_goal(Item::FoodUnit), Some(Goal::Eat));
    assert_eq!(actors[0].goal_record(Goal::Eat), Some(recurring(Goal::Eat, 3, 1, 0)));
}

#[test]
fn busy_partners_are_skipped() {
    let sat = vec![(Goal::Eat, vec![Item::FoodUnit]), (Goal::Shelter, vec![Item::HouseUnit])];
    let mut actors = trading_pair();
    let mut c = Actor::new("Actor#2".to_string(), vec![once(Goal::Shelter, 1, 0)], sat);
    c.add_item(Item::FoodUnit);
    actors.push(c);
    Actor::tick(&mut actors, 0);
    Actor::tick(&mut actors, 0);
    Actor::tick(&mut actors, 0);
    assert_eq!(actors[0].state(), ActorState::Bidding { partner: 1, offer: 0, ask: 0 });
    Actor::tick(&mut actors, 2);
    assert_eq!(actors[2].state(), ActorState::WillingToTrade { next: 0 });
    Actor::tick(&mut actors, 2);
    assert_eq!(actors[2].state(), ActorState::WillingToTrade { next: 0 });
    assert_eq!(actors[2].inventory(), &vec![Item::FoodUnit]);
    assert_eq!(actors[0].state(), ActorState::Bidding { partner: 1, offer: 0, ask: 0 });
    assert_eq!(
        actors[1].state(),
        ActorState::BidRecipient { initiator: 0, offered: Some(Item::FoodUnit), requested: Some(Item::HouseUnit) }
    );
    assert_eq!(actors[0].inventory(), &vec![Item::FoodUnit]);
    assert_eq!(actors[1].inventory(), &vec![Item::HouseUnit]);
}

#[test]
fn goal_data_accessors() {
    assert_eq!(once(Goal::Rest, 1, 0).get_goal(), Goal::Rest);
    assert!(!once(Goal::Rest, 1, 0).is_recurring());
    assert!(recurring(Goal::Eat, 2, 1, 0).is_recurring());
    assert_eq!(recurring(Goal::Eat, 2, 1, 0).get_goal(), Goal::Eat);
}
