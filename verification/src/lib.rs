//! A bot that hands out cleaning turns in a shared house: who cleans what, when it is due, who
//! swaps with whom, and how all of it is shown.

pub mod analytics;
pub mod calendar;
pub mod calendar_laws;
pub mod commands;
pub mod config;
pub mod course;
pub mod domain;
pub mod draw_laws;
pub mod entry_laws;
pub mod event_laws;
pub mod greeting_laws;
pub mod greetings;
pub mod ical;
pub mod ical_laws;
pub mod ids;
pub mod inspect;
pub mod inspect_laws;
pub mod invariants;
pub mod journal;
pub mod lists;
pub mod member_laws;
pub mod message_laws;
pub mod names;
pub mod pdf;
pub mod pdf_laws;
pub mod plain;
pub mod planning;
pub mod ranking_laws;
pub mod reaction_laws;
pub mod reactions;
pub mod reminder_laws;
pub mod replay;
pub mod report;
pub mod resolver;
pub mod rhythm;
pub mod roster;
pub mod rotation;
pub mod schedule;
pub mod schedule_laws;
pub mod scheduler;
pub mod sorting;
pub mod state;
pub mod stats_laws;
pub mod text;
