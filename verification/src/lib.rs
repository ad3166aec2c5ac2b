//! Backward responsibility for safety violations in non-probabilistic
//! transition systems.
//!
//! Given a transition system, a distinguished bad label and a counterexample
//! path from the initial state into a bad state, the crate attributes to
//! each decision point along and around that path a share of the blame for
//! the violation. The attribution reduces the counterexample to a
//! two-and-a-half-player reachability game ([`game`]), enumerates or samples
//! the winning coalitions of that game ([`solver`], [`sampler`]), and
//! aggregates pivotal-coalition counts into responsibility values with
//! cooperative-game weights — Shapley, Banzhaf or plain counts
//! ([`responsibility`], [`calculator`]). All counts and values are exact
//! arbitrary-precision rationals ([`rational`]).
//!
//! Players are either individual significant states or label groups of
//! states ([`groups`]); at most 64 player groups are supported, one bit of a
//! coalition mask each. The input side lives in [`transition_systems`],
//! [`transition_system_parser`] and [`prism`]; run configuration in
//! [`cli`].

pub mod calculator;
pub mod cli;
pub mod game;
pub mod groups;
pub mod prism;
pub mod rational;
pub mod responsibility;
pub mod sampler;
pub mod solver;
pub mod transition_system_parser;
pub mod transition_systems;
