//! What is set for a house: when reminders are sent, where calendars are served, who is an admin.

use vstd::prelude::*;

use crate::text::contains_text;

verus! {

/// How turns that nobody holds are filled.
#[derive(Clone, Copy, Debug, PartialEq, Eq, Structural)]
pub enum FillStrategy {
    RoundRobin,
    LeastLoadedFirst,
}

impl Default for FillStrategy {
    fn default() -> (r: Self)
        ensures
            r == FillStrategy::RoundRobin,
    {
        FillStrategy::RoundRobin
    }
}

/// Who may do what.
#[derive(Clone, Debug)]
pub struct SecurityConfig {
    /// Matrix user IDs allowed to invite the bot.
    pub allowed_inviters: Vec<String>,
    /// Matrix user IDs that can run admin commands.
    pub admin_users: Vec<String>,
}

/// When and where plans and reminders are posted.
#[derive(Clone, Debug)]
pub struct ScheduleConfig {
    /// Matrix room ID where reminders and replies are posted.
    pub room_id: String,
    /// Cleaning interval in weeks.
    pub interval_weeks: u32,
    /// Weekday to send the initial reminder (0 = Mon … 6 = Sun).
    pub reminder_weekday: u8,
    /// Weekday to send the final "not done yet" reminder.
    pub final_reminder_weekday: u8,
    /// Local time (HH:MM) at or after which reminders are allowed to fire.
    pub reminder_time: String,
    /// IANA timezone used for weekday calculations.
    pub timezone: String,
    /// Assignment fill strategy.
    pub fill_strategy: FillStrategy,
    /// How many due weeks ahead assignments are planned.
    pub materialize_weeks: u32,
}

/// Where calendar feeds are served.
#[derive(Clone, Debug)]
pub struct ICalServerConfig {
    /// Address to bind the HTTP server to.
    pub bind_addr: String,
    /// Public base URL shown to users, without a trailing slash.
    pub public_url: String,
}

/// Every week.
pub fn default_interval_weeks() -> (r: u32)
    ensures
        r == 1,
{
    1
}

/// About half a year.
pub fn default_materialize_weeks() -> (r: u32)
    ensures
        r == 26,
{
    26
}

/// Monday.
pub fn default_reminder_weekday() -> (r: u8)
    ensures
        r == 0,
{
    0
}

/// Sunday.
pub fn default_final_reminder_weekday() -> (r: u8)
    ensures
        r == 6,
{
    6
}

/// Nine in the morning.
pub fn default_reminder_time() -> (r: String)
    ensures
        r@ == "09:00"@,
{
    "09:00".to_owned()
}

/// UTC.
pub fn default_timezone() -> (r: String)
    ensures
        r@ == "UTC"@,
{
    "UTC".to_owned()
}

impl ScheduleConfig {
    /// What is set for a room when nothing else is said.
    pub fn new(room_id: &str) -> (r: Self)
        ensures
            r.room_id@ == room_id@,
            r.interval_weeks == 1,
            r.reminder_weekday == 0,
            r.final_reminder_weekday == 6,
            r.reminder_time@ == "09:00"@,
            r.timezone@ == "UTC"@,
            r.fill_strategy == FillStrategy::RoundRobin,
            r.materialize_weeks == 26,
    {
        ScheduleConfig {
            room_id: room_id.to_owned(),
            interval_weeks: default_interval_weeks(),
            reminder_weekday: default_reminder_weekday(),
            final_reminder_weekday: default_final_reminder_weekday(),
            reminder_time: default_reminder_time(),
            timezone: default_timezone(),
            fill_strategy: FillStrategy::RoundRobin,
            materialize_weeks: default_materialize_weeks(),
        }
    }
}

impl SecurityConfig {
    /// Whether somebody may run admin commands.
    pub fn is_admin(&self, user: &str) -> (r: bool)
        ensures
            r == crate::text::says(self.admin_users@, user@),
    {
        contains_text(&self.admin_users, user)
    }
}

} // verus!
