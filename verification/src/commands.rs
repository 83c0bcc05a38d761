//! The commands of the bot.

pub mod assignments;
pub mod base;
pub mod dispatch;
pub mod done;
pub mod done_laws;
pub mod export_laws;
pub mod exports;
pub mod feeds;
pub mod groups;
pub mod hand_laws;
pub mod handle;
pub mod help;
pub mod import;
pub mod import_laws;
pub mod laws;
pub mod line;
pub mod link;
pub mod link_laws;
pub mod load;
pub mod load_laws;
pub mod mark_laws;
pub mod marks;
pub mod members;
pub mod outlook;
pub mod overview;
pub mod people;
pub mod plan_laws;
pub mod rhythms;
pub mod rooms;
pub mod setup;
pub mod stats;
pub mod swaps;
pub mod takeover;
pub mod tasks;
pub mod view_laws;
