//! A grid-walking agent driven by a small rule language: a map of walls, rules
//! that pick a move from the agent's state and its four neighbours, runs of the
//! agent, and a tester that checks a rule set covers a map from every start.
use vstd::prelude::*;

pub mod geometry;
pub mod grid;
pub mod rules;
pub mod game;
pub mod format;

pub use geometry::{Dir, Location, Nearby};
pub use grid::BoolMap;
pub use rules::{Rule, SpaceCondition};
pub use game::{Game, GameError, MapState, RuleSetTester, TestFailure};

verus! {

} // verus!
