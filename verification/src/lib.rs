//! A rules engine for games: it applies a chain of game rules to a game state and hands game
//! events to the rule that waits for them.

pub mod engine;
pub mod rule;
pub mod shape;
pub mod v2;

pub use crate::engine::{EngineStatus, RulesEngine};
pub use crate::rule::{
    CompositeRule, GameEvent, GameState, Rule, RuleId, RuleIdentity, RuleList, RuleNode,
    RuleResult, RuleSlice,
};
