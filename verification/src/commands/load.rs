//! What `!stats load` shows: how much people and groups have to do.

use vstd::prelude::*;

use crate::analytics::PersonShare;
use crate::commands::groups::{factor_texts, show_factors, RoomFactor};
use crate::domain::{CleaningGroup, CleaningSlot};
use crate::sorting::{lemma_sorted, ordered, sort, sort_texts, sorted, Ranked};
use crate::state::State;
use crate::text::{decimal, join, join_texts, put_text, put_texts, same_text, show, views};

verus! {

// ── People ───────────────────────────────────────────────────────────────────

/// What the load of a person comes to.
#[derive(Clone, Debug)]
pub struct LoadFigure {
    /// How much is expected of them in a year, on some scale.
    pub expected: u64,
    /// How much they did in a year, on some scale.
    pub done: u64,
    /// What is expected of them over what is expected on average, "1.25".
    pub ratio: String,
    /// By how much what they did differs from what is expected, "+3.0%".
    pub delta: String,
    /// A sign for that.
    pub icon: String,
}

/// A person in an order of loads.
#[derive(Clone, Copy, Debug)]
pub struct LoadRank {
    pub load: u64,
    pub place: usize,
}

impl Ranked for LoadRank {
    /// The largest load first.
    open spec fn before(self, other: Self) -> bool {
        self.load > other.load
    }

    proof fn ranks(a: Self, b: Self, c: Self) {
    }

    fn is_before(&self, other: &Self) -> (r: bool) {
        self.load > other.load
    }
}

/// How many weeks must be over before what was done is compared with what is expected.
pub const KNOWN_WEEKS: u64 = 4;

/// People with what is expected of them.
pub open spec fn expected_ranks(figures: Seq<LoadFigure>) -> Seq<LoadRank> {
    Seq::new(figures.len(), |i: int| LoadRank { load: figures[i].expected, place: i as usize })
}

/// The same people with what they did.
pub open spec fn done_ranks(figures: Seq<LoadFigure>, order: Seq<LoadRank>) -> Seq<LoadRank> {
    order.map_values(
        |r: LoadRank| LoadRank { load: figures[r.place as int].done, place: r.place },
    )
}

/// The headline.
pub open spec fn load_head(weeks: u64, years: Seq<char>) -> Seq<char> {
    if weeks >= KNOWN_WEEKS {
        "🏋️ **Load** · "@ + decimal(weeks as nat) + " wks · "@ + years + " yr"@
    } else {
        "🏋️ **Expected load** (structural · "@ + decimal(weeks as nat) + " wks tracked)"@
    }
}

/// The line about a person.
pub open spec fn load_line(p: PersonShare, f: LoadFigure, weeks: u64) -> Seq<char> {
    let groups = join(views(p.group_names@), ", "@);
    if weeks >= KNOWN_WEEKS {
        f.icon@ + " **"@ + p.display_name@ + "**  "@ + f.delta@ + " · "@ + f.ratio@ + "× · "@
            + groups
    } else {
        "**"@ + p.display_name@ + "**  "@ + f.ratio@ + "× · "@ + groups
    }
}

/// The lines about all people, whoever has most to do first.
pub open spec fn load_lines(people: Seq<PersonShare>, figures: Seq<LoadFigure>, weeks: u64) -> Seq<
    Seq<char>,
> {
    sorted(expected_ranks(figures)).map_values(
        |r: LoadRank| load_line(people[r.place as int], figures[r.place as int], weeks),
    )
}

/// Who did most and who did least, once that is known and they are not the same.
pub open spec fn extremes(people: Seq<PersonShare>, figures: Seq<LoadFigure>, weeks: u64) -> Seq<
    Seq<char>,
> {
    let order = sorted(done_ranks(figures, sorted(expected_ranks(figures))));
    let most = people[order[0].place as int].display_name@;
    let least = people[order.last().place as int].display_name@;
    if weeks >= KNOWN_WEEKS && most != least {
        seq!["⬆ "@ + most + " · ⬇ "@ + least]
    } else {
        Seq::empty()
    }
}

/// How much everybody has to do and has done.
pub open spec fn workload(
    weeks: u64,
    years: Seq<char>,
    people: Seq<PersonShare>,
    figures: Seq<LoadFigure>,
) -> Seq<char> {
    if people.len() == 0 {
        "No members assigned to any group yet."@
    } else {
        join(
            seq![load_head(weeks, years)] + load_lines(people, figures, weeks) + extremes(
                people,
                figures,
                weeks,
            ),
            "\n"@,
        )
    }
}

/// Whether ranks are of people in a list.
pub open spec fn ranks_within(ranks: Seq<LoadRank>, n: nat) -> bool {
    forall|i: int| 0 <= i < ranks.len() ==> (#[trigger] ranks[i]).place < n
}

/// Sorting keeps people.
proof fn lemma_ranks_within(ranks: Seq<LoadRank>, n: nat)
    requires
        ranks_within(ranks, n),
    ensures
        ranks_within(sorted(ranks), n),
        sorted(ranks).len() == ranks.len(),
{
    lemma_sorted(ranks);
    let r = sorted(ranks);
    assert forall|k: int| 0 <= k < r.len() implies (#[trigger] r[k]).place < n by {
        vstd::seq_lib::to_multiset_contains(r, r[k]);
        vstd::seq_lib::to_multiset_contains(ranks, r[k]);
    }
    vstd::seq_lib::to_multiset_len(r);
    vstd::seq_lib::to_multiset_len(ranks);
}

/// Puts people in the order of what is expected of them.
fn rank_expected(figures: &Vec<LoadFigure>) -> (r: Vec<LoadRank>)
    ensures
        r@ == sorted(expected_ranks(figures@)),
        ranks_within(r@, figures@.len()),
        r@.len() == figures@.len(),
{
    let ghost all = expected_ranks(figures@);
    let mut list: Vec<LoadRank> = Vec::new();
    let mut i: usize = 0;
    while i < figures.len()
        invariant
            i <= figures.len(),
            all == expected_ranks(figures@),
            list@ == all.take(i as int),
        decreases figures.len() - i,
    {
        list.push(LoadRank { load: figures[i].expected, place: i });
        assert(list@ =~= all.take(i + 1));
        i += 1;
    }
    proof {
        assert(all.take(i as int) =~= all);
        lemma_ranks_within(all, figures@.len());
    }
    sort(list)
}

/// Puts people in the order of what they did.
fn rank_done(figures: &Vec<LoadFigure>, order: &Vec<LoadRank>) -> (r: Vec<LoadRank>)
    requires
        ranks_within(order@, figures@.len()),
    ensures
        r@ == sorted(done_ranks(figures@, order@)),
        ranks_within(r@, figures@.len()),
        r@.len() == order@.len(),
{
    let ghost all = done_ranks(figures@, order@);
    let mut list: Vec<LoadRank> = Vec::new();
    let mut i: usize = 0;
    while i < order.len()
        invariant
            i <= order.len(),
            ranks_within(order@, figures@.len()),
            all == done_ranks(figures@, order@),
            list@ == all.take(i as int),
        decreases order.len() - i,
    {
        let place = order[i].place;
        list.push(LoadRank { load: figures[place].done, place });
        assert(list@ =~= all.take(i + 1));
        i += 1;
    }
    proof {
        assert(all.take(i as int) =~= all);
        lemma_ranks_within(all, figures@.len());
    }
    sort(list)
}

/// Writes the line about a person.
fn show_load(p: &PersonShare, f: &LoadFigure, weeks: u64) -> (r: String)
    ensures
        r@ == load_line(*p, *f, weeks),
{
    let groups = join_texts(&p.group_names, ", ");
    if weeks >= KNOWN_WEEKS {
        f.icon.clone().concat(" **").concat(p.display_name.as_str()).concat("**  ").concat(
            f.delta.as_str(),
        ).concat(" · ").concat(f.ratio.as_str()).concat("× · ").concat(groups.as_str())
    } else {
        "**".to_owned().concat(p.display_name.as_str()).concat("**  ").concat(
            f.ratio.as_str(),
        ).concat("× · ").concat(groups.as_str())
    }
}

/// Writes how much everybody has to do and has done: `figures` are those of `people`, `weeks` how
/// many weeks are over since tracking started, and `years` the same in years.
pub fn workload_text(
    weeks: u64,
    years: &str,
    people: &Vec<PersonShare>,
    figures: &Vec<LoadFigure>,
) -> (r: String)
    requires
        people@.len() == figures@.len(),
    ensures
        r@ == workload(weeks, years@, people@, figures@),
{
    if people.len() == 0 {
        return "No members assigned to any group yet.".to_owned();
    }
    let head = if weeks >= KNOWN_WEEKS {
        "🏋️ **Load** · ".to_owned().concat(show(weeks).as_str()).concat(" wks · ").concat(
            years,
        ).concat(" yr")
    } else {
        "🏋️ **Expected load** (structural · ".to_owned().concat(show(weeks).as_str()).concat(
            " wks tracked)",
        )
    };
    let mut lines: Vec<String> = Vec::new();
    assert(views(lines@) =~= Seq::<Seq<char>>::empty());
    put_text(&mut lines, head);
    let ghost start = seq![load_head(weeks, years@)];
    let ghost all = load_lines(people@, figures@, weeks);
    let order = rank_expected(figures);
    let mut i: usize = 0;
    assert(views(lines@) =~= start + all.take(0));
    while i < order.len()
        invariant
            i <= order.len(),
            people@.len() == figures@.len(),
            order@ == sorted(expected_ranks(figures@)),
            ranks_within(order@, figures@.len()),
            all == load_lines(people@, figures@, weeks),
            views(lines@) == start + all.take(i as int),
        decreases order.len() - i,
    {
        let place = order[i].place;
        let line = show_load(&people[place], &figures[place], weeks);
        assert(start + all.take(i + 1) =~= (start + all.take(i as int)).push(line@));
        put_text(&mut lines, line);
        i += 1;
    }
    assert(all.take(i as int) =~= all);
    let ranks = rank_done(figures, &order);
    let most = people[ranks[0].place].display_name.as_str();
    let least = people[ranks[ranks.len() - 1].place].display_name.as_str();
    if weeks >= KNOWN_WEEKS && !same_text(most, least) {
        put_text(&mut lines, "⬆ ".to_owned().concat(most).concat(" · ⬇ ").concat(least));
    }
    assert(views(lines@) =~= start + all + extremes(people@, figures@, weeks));
    join_texts(&lines, "\n")
}

// ── Groups ───────────────────────────────────────────────────────────────────

/// What the load of a slot comes to.
#[derive(Clone, Debug)]
pub struct SlotLoad {
    /// The effort of its rooms, "3".
    pub rooms: String,
    /// Its factor where it is not neutral, "1.5".
    pub factor: Option<String>,
}

/// What the load of a group comes to.
#[derive(Clone, Debug)]
pub struct GroupLoad {
    /// What it asks of a member in a year over what groups ask on average, "1.25".
    pub ratio: String,
    /// The effort of the rooms of one assignment, "3".
    pub rooms: String,
    /// Its factor where it is not neutral, "1.5".
    pub factor: Option<String>,
    /// Of its slots, in their order.
    pub slots: Vec<SlotLoad>,
    /// The factors of its own rooms.
    pub room_factors: Vec<RoomFactor>,
}

/// A factor behind a sign, if there is one.
pub open spec fn factor_note(sign: Seq<char>, factor: Option<String>) -> Seq<char> {
    match factor {
        Some(w) => sign + w@,
        None => ""@,
    }
}

/// Among how many members a group shares its turns; one when it has none.
pub open spec fn sharers(group: CleaningGroup) -> nat {
    if group.member_ids@.len() == 0 {
        1
    } else {
        group.member_ids@.len()
    }
}

/// The line about a slot.
pub open spec fn slot_load_line(slot: CleaningSlot, load: SlotLoad) -> Seq<char> {
    "  └ "@ + slot.name@ + "  "@ + load.rooms@ + "r"@ + factor_note(" ×"@, load.factor)
}

/// The lines about a group.
pub open spec fn group_load_lines(group: CleaningGroup, load: GroupLoad) -> Seq<Seq<char>> {
    seq![
        "**"@ + group.name@ + "**  "@ + load.ratio@ + "× · "@ + decimal(sharers(group)) + "p · "@
            + group.rhythm.description() + " · "@ + load.rooms@ + "r"@ + factor_note(
            " · ×"@,
            load.factor,
        ),
    ] + Seq::new(
        group.slots@.len(),
        |i: int| slot_load_line(group.slots@[i], load.slots@[i]),
    ) + (if group.slots@.len() == 0 && load.room_factors@.len() > 0 {
        seq!["  weights: "@ + join(ordered(factor_texts(load.room_factors@)), ", "@)]
    } else {
        Seq::empty()
    })
}

/// The lines about the first groups, as far as they are active.
pub open spec fn groups_load_lines(groups: Seq<CleaningGroup>, loads: Seq<GroupLoad>, n: nat) -> Seq<
    Seq<char>,
>
    decreases n,
{
    if n == 0 {
        Seq::empty()
    } else {
        groups_load_lines(groups, loads, (n - 1) as nat) + (if groups[n - 1].is_active {
            group_load_lines(groups[n - 1], loads[n - 1])
        } else {
            Seq::empty()
        })
    }
}

/// How much the active groups ask of their members.
pub open spec fn groups_load(groups: Seq<CleaningGroup>, loads: Seq<GroupLoad>) -> Seq<char> {
    if forall|i: int| 0 <= i < groups.len() ==> !(#[trigger] groups[i]).is_active {
        "No active cleaning groups configured."@
    } else {
        join(
            seq!["📊 **Groups**  (1.0× = avg load/person/yr)"@] + groups_load_lines(
                groups,
                loads,
                groups.len(),
            ),
            "\n"@,
        )
    }
}

/// Whether loads are given for all groups and their slots.
pub open spec fn loads_fit(groups: Seq<CleaningGroup>, loads: Seq<GroupLoad>) -> bool {
    &&& groups.len() == loads.len()
    &&& forall|i: int|
        0 <= i < groups.len() ==> (#[trigger] groups[i]).slots@.len() == loads[i].slots@.len()
}

/// Writes a factor behind a sign.
fn show_factor_note(sign: &str, factor: &Option<String>) -> (r: String)
    ensures
        r@ == factor_note(sign@, *factor),
{
    match factor {
        Some(w) => sign.to_owned().concat(w.as_str()),
        None => "".to_owned(),
    }
}

/// Writes the lines about a group.
fn list_group_load(group: &CleaningGroup, load: &GroupLoad) -> (r: Vec<String>)
    requires
        group.slots@.len() == load.slots@.len(),
    ensures
        views(r@) == group_load_lines(*group, *load),
{
    let members = if group.member_ids.len() == 0 {
        1
    } else {
        group.member_ids.len()
    };
    let head = "**".to_owned().concat(group.name.as_str()).concat("**  ").concat(
        load.ratio.as_str(),
    ).concat("× · ").concat(show(members as u64).as_str()).concat("p · ").concat(
        group.rhythm.describe().as_str(),
    ).concat(" · ").concat(load.rooms.as_str()).concat("r").concat(
        show_factor_note(" · ×", &load.factor).as_str(),
    );
    let ghost start = seq![head@];
    let ghost all = Seq::new(
        group.slots@.len(),
        |i: int| slot_load_line(group.slots@[i], load.slots@[i]),
    );
    let mut r: Vec<String> = Vec::new();
    assert(views(r@) =~= Seq::<Seq<char>>::empty());
    put_text(&mut r, head);
    let mut i: usize = 0;
    assert(views(r@) =~= start + all.take(0));
    while i < group.slots.len()
        invariant
            i <= group.slots.len(),
            group.slots@.len() == load.slots@.len(),
            all == Seq::new(
                group.slots@.len(),
                |i: int| slot_load_line(group.slots@[i], load.slots@[i]),
            ),
            views(r@) == start + all.take(i as int),
        decreases group.slots.len() - i,
    {
        let l = &load.slots[i];
        let line = "  └ ".to_owned().concat(group.slots[i].name.as_str()).concat("  ").concat(
            l.rooms.as_str(),
        ).concat("r").concat(show_factor_note(" ×", &l.factor).as_str());
        assert(start + all.take(i + 1) =~= (start + all.take(i as int)).push(line@));
        put_text(&mut r, line);
        i += 1;
    }
    assert(all.take(i as int) =~= all);
    if group.slots.len() == 0 && load.room_factors.len() > 0 {
        let rooms = sort_texts(show_factors(&load.room_factors));
        put_text(&mut r, "  weights: ".to_owned().concat(join_texts(&rooms, ", ").as_str()));
    }
    assert(views(r@) =~= group_load_lines(*group, *load));
    r
}

/// Writes how much the active groups ask of their members; `loads` are those of all groups.
pub fn group_load_text(state: &State, loads: &Vec<GroupLoad>) -> (r: String)
    requires
        loads_fit(state.cleaning_groups@, loads@),
    ensures
        r@ == groups_load(state.cleaning_groups@, loads@),
{
    let groups = &state.cleaning_groups;
    let ghost start = seq!["📊 **Groups**  (1.0× = avg load/person/yr)"@];
    let mut lines: Vec<String> = Vec::new();
    assert(views(lines@) =~= Seq::<Seq<char>>::empty());
    put_text(&mut lines, "📊 **Groups**  (1.0× = avg load/person/yr)".to_owned());
    let mut found = false;
    let mut i: usize = 0;
    assert(views(lines@) =~= start + groups_load_lines(groups@, loads@, 0));
    while i < groups.len()
        invariant
            i <= groups.len(),
            groups == &state.cleaning_groups,
            loads_fit(groups@, loads@),
            found == exists|k: int| 0 <= k < i && (#[trigger] groups@[k]).is_active,
            views(lines@) == start + groups_load_lines(groups@, loads@, i as nat),
        decreases groups.len() - i,
    {
        if groups[i].is_active {
            put_texts(&mut lines, &list_group_load(&groups[i], &loads[i]));
            found = true;
        }
        assert(views(lines@) =~= start + groups_load_lines(groups@, loads@, (i + 1) as nat));
        i += 1;
    }
    if !found {
        return "No active cleaning groups configured.".to_owned();
    }
    join_texts(&lines, "\n")
}

} // verus!
