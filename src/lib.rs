//! Stable matching between two equal-sized groups by deferred acceptance
//! (Gale–Shapley).
//!
//! `model` states what a stable and a proposer-optimal matching are;
//! `tables`, `round` and `engine_state` state and prove the rounds on dense
//! indices that `engine` runs; `keyed` encodes keyed preferences for the
//! engine and decodes its result.
pub mod model;
pub mod tables;
pub mod round;
pub mod engine_state;
pub mod engine;
pub mod keyed;

pub use engine::{
    accept_or_reject_proposals, break_engagement, create_proposals,
    gale_shapley_internal, get_best_man_from_men_interested_in_a_woman,
    get_currently_engaged_man, get_rank, get_unengaged_men, make_engagement, play_round,
};
pub use keyed::{gale_shapley, get_reference_from_usize, MatchError};
