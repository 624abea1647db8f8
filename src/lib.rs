//! Poll-diff-notify core of a chat bot that watches a tournament calendar
//! and a player ranking: snapshot models, the two diff engines, the generic
//! watcher step, the notification formatters and the message chunker; beside
//! it, the logic of the bot's commands: the penalty ranking and list, and the
//! board game cafe's free tables.

use vstd::prelude::*;

pub mod chombos;
pub mod chunker;
pub mod commands;
pub mod messages;
pub mod numbers;
pub mod players;
pub mod ranking;
pub mod table_models;
pub mod table_ranking;
pub mod tournaments;
pub mod watcher;

verus! {

} // verus!
