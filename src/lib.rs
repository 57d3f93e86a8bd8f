//! Ordinal-valuation economic actors: goal rankings, per-item preference
//! queues, a per-tick decision step and a bilateral bargaining protocol.

pub mod discretes;
pub mod goals;
pub mod actor;
pub mod bargaining;

pub use actor::{Actor, ActorState};
pub use discretes::{Goal, Item};
pub use goals::{GoalData, GoalWrapper};
