//! Rating and event-simulation bookkeeping for a team robotics competition.
//!
//! The crate holds the rules of the rating pipeline that are decided on whole
//! numbers and text, each with a proved contract:
//!
//! - `models`: events and matches, their stored rows, and what a match says
//!   of its alliances and its result;
//! - `schedule`, `sorting`: which events and matches are replayed, and in
//!   which order;
//! - `season`, `replay`: where a year turns, an event begins and a rating
//!   period closes in a replay;
//! - `elo`, `glicko`: the score spreads, match weights, active teams, checked
//!   predictions and rating periods of the two rating engines, whose
//!   arithmetic on ratings is left to the caller;
//! - `tba`, `standings`, `tally`: the ranking of a team at an event, the
//!   standings of a simulated run, and the sums over many runs;
//! - `text`: the comparisons and searches on text that the others rest on.

pub mod elo;
pub mod glicko;
pub mod models;
pub mod replay;
pub mod schedule;
pub mod season;
pub mod sorting;
pub mod standings;
pub mod tally;
pub mod tba;
pub mod text;
