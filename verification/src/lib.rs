//! Scheduling rules for tabletop sessions: clock parsing, weekly planning
//! windows in Europe/Rome, full-overlap search and the texts that the bot shows.
use vstd::prelude::*;

pub mod commands;
pub mod config;
pub mod db;
pub mod error;
pub mod ids;
pub mod models;
pub mod overlap;
pub mod permissions;
pub mod text;
pub mod time;
pub mod zone;

verus! {

} // verus!
