//! When a group is cleaned: its **rhythm** and the **turns** it produces.
//!
//! Every group has a `Rhythm`: it is due every `every_weeks` weeks (aligned to the tracking
//! start), and each due week is split into one or more consecutive **shifts** — one for the whole
//! week, or Mon–Wed + Thu–Sun for "twice a week". One shift of one due week is a `Turn`: the unit
//! everything else works with.

use vstd::prelude::*;

use crate::calendar::{
    Date, date_range, is_day, is_year, lemma_week_start, range_text, week_monday, week_start,
};
use crate::text::{decimal, join, join_texts, lemma_views_push, lowered, same_text, show, to_lower, views};

verus! {

/// How often a group is cleaned.
#[derive(Debug, PartialEq)]
pub struct Rhythm {
    /// Due every N weeks. `None`, which is as good as every week, is found only in data from
    /// before groups had rhythms of their own; `fill_intervals` replaces it.
    pub every_weeks: Option<u32>,
    /// Weekday (0 = Monday) on which each shift starts; the first is always Monday and each shift
    /// runs until the day before the next one starts (the last until Sunday). Empty = one shift
    /// for the whole week.
    pub shift_starts: Vec<u8>,
}

/// One shift of a week: weekdays `start..=end` (0 = Monday).
#[derive(Clone, Copy, Debug, PartialEq, Eq, Structural)]
pub struct Shift {
    pub start: u8,
    pub end: u8,
}

/// One period of responsibility: shift `shift` of ISO week `(year, week)`.
#[derive(Clone, Copy, Debug, PartialEq, Eq, PartialOrd, Ord, Hash, Structural)]
pub struct Turn {
    pub year: i32,
    pub week: u32,
    pub shift: u8,
}

// ── What shifts are ──────────────────────────────────────────────────────────

/// Whether a shift starts on weekday `d`.
pub open spec fn is_start(starts: Seq<u8>, d: int) -> bool {
    d == 0 || (0 < d < 7 && starts.contains(d as u8))
}

/// The first weekday from `d` on at which a shift starts, 7 when there is none.
pub open spec fn next_start(starts: Seq<u8>, d: int) -> int
    decreases 7 - d,
{
    if d >= 7 {
        7
    } else if is_start(starts, d) {
        d
    } else {
        next_start(starts, d + 1)
    }
}

/// The shifts of a week that start on weekday `d` or later.
pub open spec fn shifts_from(starts: Seq<u8>, d: int) -> Seq<Shift>
    decreases 7 - d,
{
    if d >= 7 {
        Seq::empty()
    } else if is_start(starts, d) {
        seq![Shift { start: d as u8, end: (next_start(starts, d + 1) - 1) as u8 }] + shifts_from(
            starts,
            d + 1,
        )
    } else {
        shifts_from(starts, d + 1)
    }
}

/// Whether shifts follow one another without gap or overlap from weekday `first` to Sunday.
pub open spec fn tiles(shifts: Seq<Shift>, first: int) -> bool {
    &&& shifts.len() > 0
    &&& shifts[0].start == first
    &&& shifts.last().end == 6
    &&& forall|i: int| 0 <= i < shifts.len() ==> (#[trigger] shifts[i]).start <= shifts[i].end
    &&& forall|i: int, j: int|
        0 <= i && j == i + 1 && j < shifts.len() ==> (#[trigger] shifts[j]).start == (
        #[trigger] shifts[i]).end + 1
}

/// "Mon", "Tue", …
pub open spec fn day_name(d: int) -> Seq<char> {
    if d == 0 {
        "Mon"@
    } else if d == 1 {
        "Tue"@
    } else if d == 2 {
        "Wed"@
    } else if d == 3 {
        "Thu"@
    } else if d == 4 {
        "Fri"@
    } else if d == 5 {
        "Sat"@
    } else {
        "Sun"@
    }
}

/// The short name of a weekday, 0 for Monday.
pub fn weekday_name(d: u8) -> (r: String)
    requires
        d < 7,
    ensures
        r@ == day_name(d as int),
{
    match d {
        0 => "Mon".to_owned(),
        1 => "Tue".to_owned(),
        2 => "Wed".to_owned(),
        3 => "Thu".to_owned(),
        4 => "Fri".to_owned(),
        5 => "Sat".to_owned(),
        _ => "Sun".to_owned(),
    }
}

/// The next start lies at or after where the search began, and none lies between.
proof fn lemma_next_start(starts: Seq<u8>, d: int)
    requires
        0 <= d <= 7,
    ensures
        d <= next_start(starts, d) <= 7,
        next_start(starts, d) < 7 ==> is_start(starts, next_start(starts, d)),
        forall|k: int| d <= k < next_start(starts, d) ==> !#[trigger] is_start(starts, k),
        next_start(starts, next_start(starts, d)) == next_start(starts, d),
    decreases 7 - d,
{
    if d < 7 && !is_start(starts, d) {
        lemma_next_start(starts, d + 1);
    }
}

/// The shifts from a weekday on are those from the next start on.
proof fn lemma_shifts_skip(starts: Seq<u8>, d: int)
    requires
        0 <= d <= 7,
    ensures
        shifts_from(starts, d) == shifts_from(starts, next_start(starts, d)),
    decreases 7 - d,
{
    if d < 7 && !is_start(starts, d) {
        lemma_shifts_skip(starts, d + 1);
    }
}

/// The shifts from a start on fill the rest of the week.
proof fn lemma_tiles(starts: Seq<u8>, d: int)
    requires
        0 <= d < 7,
        is_start(starts, d),
    ensures
        tiles(shifts_from(starts, d), d),
        shifts_from(starts, d).len() <= 7 - d,
    decreases 7 - d,
{
    let n = next_start(starts, d + 1);
    lemma_next_start(starts, d + 1);
    lemma_shifts_skip(starts, d + 1);
    let rest = shifts_from(starts, d + 1);
    let all = shifts_from(starts, d);
    let head = Shift { start: d as u8, end: (n - 1) as u8 };
    assert(all =~= seq![head] + rest);
    if n < 7 {
        lemma_tiles(starts, n);
        assert forall|i: int| 0 <= i < all.len() implies (#[trigger] all[i]).start <= all[i].end by {
            if i > 0 {
                assert(all[i] == rest[i - 1]);
            }
        }
        assert forall|i: int, j: int|
            0 <= i && j == i + 1 && j < all.len() implies (#[trigger] all[j]).start == (
        #[trigger] all[i]).end + 1 by {
            assert(all[j] == rest[j - 1]);
            if i > 0 {
                assert(all[i] == rest[i - 1]);
            }
        }
    }
}

impl Shift {
    /// "Mon–Wed", or "Thu" for a one-day shift.
    pub open spec fn text(self) -> Seq<char> {
        if self.start == self.end {
            day_name(self.start as int)
        } else {
            day_name(self.start as int) + "–"@ + day_name(self.end as int)
        }
    }

    /// "Mon–Wed", or "Thu" for a one-day shift.
    pub fn label(&self) -> (r: String)
        requires
            self.start < 7,
            self.end < 7,
        ensures
            r@ == self.text(),
    {
        if self.start == self.end {
            weekday_name(self.start)
        } else {
            weekday_name(self.start).concat("–").concat(weekday_name(self.end).as_str())
        }
    }
}

impl Clone for Rhythm {
    fn clone(&self) -> (r: Self)
        ensures
            r.same_as(*self),
    {
        let starts = self.shift_starts.clone();
        assert(starts@ =~= self.shift_starts@);
        Rhythm { every_weeks: self.every_weeks, shift_starts: starts }
    }
}

impl Default for Rhythm {
    /// Every week, in one shift.
    fn default() -> (r: Self)
        ensures
            r.every_weeks is None,
            r.shift_starts@ == Seq::<u8>::empty(),
    {
        Rhythm { every_weeks: None, shift_starts: Vec::new() }
    }
}

/// The number of weeks from one due week to the next, at least 1.
pub open spec fn interval_of(every: Option<u32>) -> int {
    match every {
        Some(n) => if n >= 1 {
            n as int
        } else {
            1
        },
        None => 1,
    }
}

impl Rhythm {
    /// The number of weeks from one due week to the next.
    pub open spec fn interval(self) -> int {
        interval_of(self.every_weeks)
    }

    /// The week's shifts in order.
    pub open spec fn week_shifts(self) -> Seq<Shift> {
        shifts_from(self.shift_starts@, 0)
    }

    /// Whether two rhythms are the same.
    pub open spec fn same_as(self, other: Rhythm) -> bool {
        self.every_weeks == other.every_weeks && self.shift_starts@ == other.shift_starts@
    }

    /// Every week, in one shift.
    pub fn weekly() -> (r: Self)
        ensures
            r.every_weeks == Some(1u32),
            r.shift_starts@ == Seq::<u8>::empty(),
    {
        Rhythm { every_weeks: Some(1), shift_starts: Vec::new() }
    }

    /// The number of weeks from one due week to the next, at least 1.
    pub fn every_weeks(&self) -> (r: u32)
        ensures
            r == self.interval(),
            r >= 1,
    {
        match self.every_weeks {
            Some(n) => if n >= 1 {
                n
            } else {
                1
            },
            None => 1,
        }
    }

    /// The week's shifts in order (at least one): they fill the week from Monday to Sunday.
    pub fn shifts(&self) -> (r: Vec<Shift>)
        ensures
            r@ == self.week_shifts(),
            tiles(r@, 0),
            1 <= r.len() <= 7,
    {
        let ghost starts = self.shift_starts@;
        let mut out: Vec<Shift> = Vec::new();
        // From Sunday back, so that each start knows where the one after it lies.
        let mut d: u8 = 7;
        let mut next: u8 = 7;
        while d > 0
            invariant
                0 <= d <= 7,
                starts == self.shift_starts@,
                next == next_start(starts, d as int),
                out@.reverse() == shifts_from(starts, d as int),
            decreases d,
        {
            let day: u8 = d - 1;
            if day == 0 || holds(&self.shift_starts, day) {
                proof {
                    lemma_next_start(starts, d as int);
                    assert(is_start(starts, day as int));
                }
                let shift = Shift { start: day, end: next - 1 };
                proof {
                    assert(out@.push(shift).reverse() =~= seq![shift] + out@.reverse());
                }
                out.push(shift);
                next = day;
            }
            d = day;
        }
        let mut r: Vec<Shift> = Vec::new();
        let n = out.len();
        let mut i: usize = 0;
        while i < n
            invariant
                i <= n,
                n == out.len(),
                r@ == out@.reverse().take(i as int),
            decreases n - i,
        {
            assert(out@.reverse().take(i + 1) =~= out@.reverse().take(i as int).push(out@[n - 1 - i]));
            r.push(out[n - 1 - i]);
            i += 1;
        }
        proof {
            assert(out@.reverse().take(n as int) =~= out@.reverse());
            lemma_tiles(starts, 0);
        }
        r
    }

    /// How many shifts a week has.
    pub fn shift_count(&self) -> (r: usize)
        ensures
            r == self.week_shifts().len(),
            1 <= r <= 7,
    {
        self.shifts().len()
    }

    /// Whether a week has more than one shift.
    pub fn is_split(&self) -> (r: bool)
        ensures
            r == (self.week_shifts().len() > 1),
    {
        self.shift_count() > 1
    }

    /// The shift of this index, when there is one.
    pub open spec fn shift_at(self, index: int) -> Option<Shift> {
        if 0 <= index < self.week_shifts().len() {
            Some(self.week_shifts()[index])
        } else {
            None
        }
    }

    /// The shift of this index, when there is one.
    pub fn shift(&self, index: u8) -> (r: Option<Shift>)
        ensures
            r == self.shift_at(index as int),
            r is Some ==> r->0.start <= r->0.end < 7,
    {
        let all = self.shifts();
        let i: usize = index as usize;
        if i < all.len() {
            proof {
                lemma_shift_days(all@, i as int);
            }
            Some(all[i])
        } else {
            None
        }
    }

    /// Index of the shift containing `weekday` (0 = Monday): the last that has started by then.
    pub fn shift_for_weekday(&self, weekday: u8) -> (r: u8)
        ensures
            0 <= r < self.week_shifts().len(),
            self.week_shifts()[r as int].start <= weekday,
            forall|k: int|
                r < k < self.week_shifts().len() ==> (#[trigger] self.week_shifts()[k]).start
                    > weekday,
            weekday < 7 ==> weekday <= self.week_shifts()[r as int].end,
    {
        let all = self.shifts();
        let mut i: usize = all.len() - 1;
        while i > 0 && all[i].start > weekday
            invariant
                i < all.len() <= 7,
                all@ == self.week_shifts(),
                forall|k: int| i < k < all.len() ==> (#[trigger] all@[k]).start > weekday,
            decreases i,
        {
            i -= 1;
        }
        proof {
            assert(tiles(all@, 0));
            if i + 1 < all.len() {
                assert(all@[i + 1].start == all@[i as int].end + 1);
            }
        }
        i as u8
    }

    /// `n` shifts per week, as evenly sized as whole days allow
    /// (2 → Mon–Wed / Thu–Sun, 3 → Mon–Tue / Wed–Thu / Fri–Sun, 7 → daily).
    pub fn times_per_week(n: u8) -> (r: Vec<u8>)
        ensures
            r.len() == times(n as int),
            forall|i: int| 0 <= i < r.len() ==> #[trigger] r@[i] == i * 7 / times(n as int),
    {
        let count: u32 = if n < 1 {
            1
        } else if n > 7 {
            7
        } else {
            n as u32
        };
        let mut out: Vec<u8> = Vec::new();
        let mut i: u32 = 0;
        while i < count
            invariant
                i <= count,
                count == times(n as int),
                1 <= count <= 7,
                out.len() == i,
                forall|k: int| 0 <= k < i ==> #[trigger] out@[k] == k * 7 / times(n as int),
            decreases count - i,
        {
            assert(0 <= (i * 7) as int / (count as int) <= 42) by (nonlinear_arith)
                requires
                    i < count,
                    1 <= count <= 7,
            ;
            out.push((i * 7 / count) as u8);
            i += 1;
        }
        out
    }

    /// "weekly", "every 2 weeks", "2× per week (Mon–Wed, Thu–Sun)", …
    pub open spec fn description(self) -> Seq<char> {
        let labels = join(self.week_shifts().map_values(|s: Shift| s.text()), ", "@);
        let count = decimal(self.week_shifts().len());
        let every = "every "@ + decimal(self.interval() as nat) + " weeks"@;
        if self.week_shifts().len() == 1 {
            if self.interval() == 1 {
                "weekly"@
            } else {
                every
            }
        } else if self.interval() == 1 {
            count + "× per week ("@ + labels + ")"@
        } else {
            count + "× per due week, "@ + every + " ("@ + labels + ")"@
        }
    }

    /// "weekly", "every 2 weeks", "2× per week (Mon–Wed, Thu–Sun)", …
    pub fn describe(&self) -> (r: String)
        ensures
            r@ == self.description(),
    {
        let n = self.every_weeks();
        let every = "every ".to_owned().concat(show(n as u64).as_str()).concat(" weeks");
        let shifts = self.shifts();
        if shifts.len() == 1 {
            return if n == 1 {
                "weekly".to_owned()
            } else {
                every
            };
        }
        let mut labels: Vec<String> = Vec::new();
        let ghost texts = self.week_shifts().map_values(|s: Shift| s.text());
        let mut i: usize = 0;
        while i < shifts.len()
            invariant
                i <= shifts.len(),
                shifts@ == self.week_shifts(),
                tiles(shifts@, 0),
                texts == self.week_shifts().map_values(|s: Shift| s.text()),
                views(labels@) == texts.take(i as int),
            decreases shifts.len() - i,
        {
            proof {
                lemma_shift_days(shifts@, i as int);
            }
            let label = shifts[i].label();
            proof {
                lemma_views_push(labels@, label);
                assert(texts.take(i + 1) =~= texts.take(i as int).push(texts[i as int]));
            }
            labels.push(label);
            i += 1;
        }
        assert(texts.take(texts.len() as int) =~= texts);
        let list = join_texts(&labels, ", ");
        let count = show(shifts.len() as u64);
        if n == 1 {
            count.concat("× per week (").concat(list.as_str()).concat(")")
        } else {
            count.concat("× per due week, ").concat(every.as_str()).concat(" (").concat(
                list.as_str(),
            ).concat(")")
        }
    }
}

/// A week has one to seven shifts.
pub proof fn lemma_shift_count(rhythm: Rhythm)
    ensures
        1 <= rhythm.week_shifts().len() <= 7,
{
    lemma_tiles(rhythm.shift_starts@, 0);
}

/// A number of shifts per week, brought into the range from 1 to 7.
pub open spec fn times(n: int) -> int {
    if n < 1 {
        1
    } else if n > 7 {
        7
    } else {
        n
    }
}

/// The shifts of a week lie within Monday to Sunday.
proof fn lemma_shift_days(shifts: Seq<Shift>, i: int)
    requires
        tiles(shifts, 0),
        0 <= i < shifts.len(),
    ensures
        shifts[i].start <= shifts[i].end <= 6,
    decreases shifts.len() - i,
{
    if i + 1 < shifts.len() {
        lemma_shift_days(shifts, i + 1);
        assert(shifts[i + 1].start == shifts[i].end + 1);
    }
}

/// Whether a list holds a number.
fn holds(list: &Vec<u8>, n: u8) -> (r: bool)
    ensures
        r == list@.contains(n),
{
    let mut i: usize = 0;
    while i < list.len()
        invariant
            i <= list.len(),
            forall|k: int| 0 <= k < i ==> list@[k] != n,
        decreases list.len() - i,
    {
        if list[i] == n {
            assert(list@[i as int] == n);
            return true;
        }
        i += 1;
    }
    false
}

/// Every weekday belongs to exactly one shift of a rhythm.
pub proof fn law_each_weekday_in_one_shift(rhythm: Rhythm, weekday: int)
    requires
        0 <= weekday < 7,
    ensures
        exists|i: int|
            0 <= i < rhythm.week_shifts().len() && (#[trigger] rhythm.week_shifts()[i]).start
                <= weekday <= rhythm.week_shifts()[i].end,
        forall|i: int, j: int|
            #![trigger rhythm.week_shifts()[i], rhythm.week_shifts()[j]]
            0 <= i < rhythm.week_shifts().len() && 0 <= j < rhythm.week_shifts().len()
                && rhythm.week_shifts()[i].start <= weekday <= rhythm.week_shifts()[i].end
                && rhythm.week_shifts()[j].start <= weekday <= rhythm.week_shifts()[j].end ==> i
                == j,
{
    lemma_tiles(rhythm.shift_starts@, 0);
    let s = rhythm.week_shifts();
    lemma_covering(s, s.len() - 1, weekday);
    assert forall|i: int, j: int|
        #![trigger s[i], s[j]]
        0 <= i < s.len() && 0 <= j < s.len() && s[i].start <= weekday <= s[i].end && s[j].start
            <= weekday <= s[j].end implies i == j by {
        if i < j {
            lemma_apart(s, i, j);
        } else if j < i {
            lemma_apart(s, j, i);
        }
    }
}

/// Some shift up to index `i` holds a weekday that is not past shift `i`.
proof fn lemma_covering(s: Seq<Shift>, i: int, weekday: int)
    requires
        tiles(s, 0),
        0 <= i < s.len(),
        0 <= weekday <= s[i].end,
    ensures
        exists|k: int| 0 <= k < s.len() && (#[trigger] s[k]).start <= weekday <= s[k].end,
    decreases i,
{
    if s[i].start > weekday {
        if i > 0 {
            assert(s[i].start == s[i - 1].end + 1);
            lemma_covering(s, i - 1, weekday);
        }
    }
}

/// A later shift starts after an earlier one has ended.
proof fn lemma_apart(s: Seq<Shift>, i: int, j: int)
    requires
        tiles(s, 0),
        0 <= i < j < s.len(),
    ensures
        s[i].end < s[j].start,
    decreases j - i,
{
    if i + 1 < j {
        lemma_apart(s, i, j - 1);
        assert(s[j - 1].start <= s[j - 1].end);
        assert(s[j].start == s[j - 1].end + 1);
    } else {
        assert(s[j].start == s[i].end + 1);
    }
}

impl Turn {
    /// The turn of a shift of a week.
    pub fn new(year: i32, week: u32, shift: u8) -> (r: Self)
        ensures
            r == (Turn { year, week, shift }),
    {
        Turn { year, week, shift }
    }

    /// The ISO week of the turn.
    pub fn week(&self) -> (r: (i32, u32))
        ensures
            r == (self.year, self.week),
    {
        (self.year, self.week)
    }

    /// Whether the days of the turn's week can be represented.
    pub open spec fn wf(self) -> bool {
        is_year(self.year as int) && is_day(week_start(self.year as int, self.week as int) + 6)
    }

    /// The shift of the turn under a rhythm; the whole week when the rhythm has no such shift.
    pub open spec fn days(self, rhythm: Rhythm) -> Shift {
        match rhythm.shift_at(self.shift as int) {
            Some(s) => s,
            None => Shift { start: 0, end: 6 },
        }
    }

    /// The first day of this turn under `rhythm`.
    pub open spec fn first_day(self, rhythm: Rhythm) -> int {
        week_start(self.year as int, self.week as int) + self.days(rhythm).start
    }

    /// The last day of this turn under `rhythm`.
    pub open spec fn last_day(self, rhythm: Rhythm) -> int {
        week_start(self.year as int, self.week as int) + self.days(rhythm).end
    }

    /// First and last day of this turn under `rhythm`.
    pub fn dates(&self, rhythm: &Rhythm) -> (r: (Date, Date))
        requires
            self.wf(),
        ensures
            r.0.day == self.first_day(*rhythm),
            r.1.day == self.last_day(*rhythm),
            r.0.wf(),
            r.1.wf(),
    {
        proof {
            lemma_week_start(self.year as int, self.week as int);
        }
        let monday = week_monday(self.year, self.week);
        let shift = match rhythm.shift(self.shift) {
            Some(s) => s,
            None => Shift { start: 0, end: 6 },
        };
        (
            Date { day: monday.day + shift.start as i32 },
            Date { day: monday.day + shift.end as i32 },
        )
    }

    /// Weekday label within the week ("Mon–Wed"), or `None` for a whole-week rhythm where the
    /// week alone says everything.
    pub open spec fn shift_text(self, rhythm: Rhythm) -> Option<Seq<char>> {
        if rhythm.week_shifts().len() > 1 {
            match rhythm.shift_at(self.shift as int) {
                Some(s) => Some(s.text()),
                None => None,
            }
        } else {
            None
        }
    }

    /// Weekday label within the week ("Mon–Wed"), or `None` for a whole-week rhythm where the
    /// week alone says everything.
    pub fn shift_label(&self, rhythm: &Rhythm) -> (r: Option<String>)
        ensures
            (r is Some) == (self.shift_text(*rhythm) is Some),
            r is Some ==> r->0@ == self.shift_text(*rhythm)->0,
    {
        if rhythm.is_split() {
            match rhythm.shift(self.shift) {
                Some(s) => Some(s.label()),
                None => None,
            }
        } else {
            None
        }
    }

    /// "22 – 28 Sep" for a whole week, "Thu–Sun 25 – 28 Sep" for a shift.
    pub open spec fn period_text(self, rhythm: Rhythm) -> Seq<char> {
        let dates = range_text(self.first_day(rhythm), self.last_day(rhythm));
        match self.shift_text(rhythm) {
            Some(label) => label + " "@ + dates,
            None => dates,
        }
    }

    /// "22 – 28 Sep" for a whole week, "Thu–Sun 25 – 28 Sep" for a shift.
    pub fn period_label(&self, rhythm: &Rhythm) -> (r: String)
        requires
            self.wf(),
        ensures
            r@ == self.period_text(*rhythm),
    {
        let (start, end) = self.dates(rhythm);
        let dates = date_range(start, end);
        match self.shift_label(rhythm) {
            Some(label) => label.concat(" ").concat(dates.as_str()),
            None => dates,
        }
    }
}

/// Whether a text is one of four.
pub open spec fn one_of(t: Seq<char>, a: Seq<char>, b: Seq<char>, c: Seq<char>, d: Seq<char>) -> bool {
    t == a || t == b || t == c || t == d
}

/// Weekday named by a text: `mon`…`sun` (English) or `mo`…`so` (German), also spelled out, in any
/// case of letters.
pub open spec fn weekday_named(t: Seq<char>) -> Option<u8> {
    let s = lowered(t);
    if one_of(s, "mon"@, "monday"@, "mo"@, "montag"@) {
        Some(0u8)
    } else if one_of(s, "tue"@, "tuesday"@, "di"@, "dienstag"@) {
        Some(1u8)
    } else if one_of(s, "wed"@, "wednesday"@, "mi"@, "mittwoch"@) {
        Some(2u8)
    } else if one_of(s, "thu"@, "thursday"@, "do"@, "donnerstag"@) {
        Some(3u8)
    } else if one_of(s, "fri"@, "friday"@, "fr"@, "freitag"@) {
        Some(4u8)
    } else if one_of(s, "sat"@, "saturday"@, "sa"@, "samstag"@) {
        Some(5u8)
    } else if one_of(s, "sun"@, "sunday"@, "so"@, "sonntag"@) {
        Some(6u8)
    } else {
        None
    }
}

/// Whether a string is one of four.
fn is_one_of(t: &str, a: &str, b: &str, c: &str, d: &str) -> (r: bool)
    ensures
        r == one_of(t@, a@, b@, c@, d@),
{
    same_text(t, a) || same_text(t, b) || same_text(t, c) || same_text(t, d)
}

/// Weekday from a command argument: `mon`…`sun` (English) or `mo`…`so` (German), also spelled
/// out.
pub fn parse_weekday(s: &str) -> (r: Option<u8>)
    ensures
        r == weekday_named(s@),
{
    let lower = to_lower(s);
    let t = lower.as_str();
    if is_one_of(t, "mon", "monday", "mo", "montag") {
        Some(0)
    } else if is_one_of(t, "tue", "tuesday", "di", "dienstag") {
        Some(1)
    } else if is_one_of(t, "wed", "wednesday", "mi", "mittwoch") {
        Some(2)
    } else if is_one_of(t, "thu", "thursday", "do", "donnerstag") {
        Some(3)
    } else if is_one_of(t, "fri", "friday", "fr", "freitag") {
        Some(4)
    } else if is_one_of(t, "sat", "saturday", "sa", "samstag") {
        Some(5)
    } else if is_one_of(t, "sun", "sunday", "so", "sonntag") {
        Some(6)
    } else {
        None
    }
}

} // verus!
