//! The closed vocabularies of ends (goals) and of the resources (items)
//! that can satisfy them.

use vstd::prelude::*;

verus! {

/// Number of distinct goals.
pub const GOAL_COUNT: usize = 4;

/// Number of distinct items.
pub const ITEM_COUNT: usize = 4;

/// A discrete, consumable and tradeable resource.
#[derive(PartialEq, Eq, Structural, Hash, Copy, Clone, Debug)]
pub enum Item {
    FoodUnit,
    HouseUnit,
    LeisureUnit1,
    LeisureUnit2,
}

/// An end that an actor pursues.
#[derive(PartialEq, Eq, Structural, Hash, PartialOrd, Ord, Copy, Clone, Debug)]
pub enum Goal {
    Eat,
    Shelter,
    Rest,
    Leisure,
}

/// Stable identifier of a goal, used to index per-goal tables.
pub open spec fn goal_id(g: Goal) -> nat {
    match g {
        Goal::Eat => 0,
        Goal::Shelter => 1,
        Goal::Rest => 2,
        Goal::Leisure => 3,
    }
}

/// The goal with a given identifier.
pub open spec fn goal_with_id(i: nat) -> Goal
    recommends
        i < GOAL_COUNT,
{
    if i == 0 {
        Goal::Eat
    } else if i == 1 {
        Goal::Shelter
    } else if i == 2 {
        Goal::Rest
    } else {
        Goal::Leisure
    }
}

/// Stable identifier of an item, used to index per-item tables.
pub open spec fn item_id(i: Item) -> nat {
    match i {
        Item::FoodUnit => 0,
        Item::HouseUnit => 1,
        Item::LeisureUnit1 => 2,
        Item::LeisureUnit2 => 3,
    }
}

/// The item with a given identifier.
pub open spec fn item_with_id(i: nat) -> Item
    recommends
        i < ITEM_COUNT,
{
    if i == 0 {
        Item::FoodUnit
    } else if i == 1 {
        Item::HouseUnit
    } else if i == 2 {
        Item::LeisureUnit1
    } else {
        Item::LeisureUnit2
    }
}

/// Identifiers are a bijection between goals and `0..GOAL_COUNT`.
pub proof fn lemma_goal_ids()
    ensures
        forall|g: Goal| #[trigger] goal_id(g) < GOAL_COUNT && goal_with_id(goal_id(g)) == g,
        forall|i: nat| i < GOAL_COUNT ==> goal_id(#[trigger] goal_with_id(i)) == i,
{
}

/// Identifiers are a bijection between items and `0..ITEM_COUNT`.
pub proof fn lemma_item_ids()
    ensures
        forall|it: Item| #[trigger] item_id(it) < ITEM_COUNT && item_with_id(item_id(it)) == it,
        forall|i: nat| i < ITEM_COUNT ==> item_id(#[trigger] item_with_id(i)) == i,
{
}

impl Goal {
    /// Index of this goal in per-goal tables.
    pub fn id(self) -> (r: usize)
        ensures
            r == goal_id(self),
            r < GOAL_COUNT,
    {
        match self {
            Goal::Eat => 0,
            Goal::Shelter => 1,
            Goal::Rest => 2,
            Goal::Leisure => 3,
        }
    }

    /// The goal stored at index `i` of a per-goal table.
    pub fn with_id(i: usize) -> (r: Goal)
        requires
            i < GOAL_COUNT,
        ensures
            goal_id(r) == i,
            r == goal_with_id(i as nat),
    {
        if i == 0 {
            Goal::Eat
        } else if i == 1 {
            Goal::Shelter
        } else if i == 2 {
            Goal::Rest
        } else {
            Goal::Leisure
        }
    }
}

impl Item {
    /// Index of this item in per-item tables.
    pub fn id(self) -> (r: usize)
        ensures
            r == item_id(self),
            r < ITEM_COUNT,
    {
        match self {
            Item::FoodUnit => 0,
            Item::HouseUnit => 1,
            Item::LeisureUnit1 => 2,
            Item::LeisureUnit2 => 3,
        }
    }
}

} // verus!
