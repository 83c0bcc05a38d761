//! What the overview of loads shows.

use vstd::prelude::*;

use crate::analytics::PersonShare;
use crate::commands::load::{
    done_ranks, expected_ranks, extremes, load_head, load_line, load_lines, workload, LoadFigure,
    LoadRank, KNOWN_WEEKS,
};
use crate::pdf_laws::{holds, holds_at, lemma_holds_between};
use crate::sorting::{lemma_sorted, sorted};
use crate::text::{join, views};

verus! {

/// Whether an order goes through all places of a list, and falls.
pub open spec fn is_falling(order: Seq<int>, figures: Seq<LoadFigure>) -> bool {
    &&& order.len() == figures.len()
    &&& forall|i: int| 0 <= i < figures.len() ==> #[trigger] order.contains(i)
    &&& forall|i: int| 0 <= i < order.len() ==> 0 <= #[trigger] order[i] < figures.len()
    &&& forall|i: int, j: int|
        0 <= i < j < order.len() ==> figures[#[trigger] order[i]].expected >= figures[
            #[trigger] order[j]].expected
}

/// Whether nobody did more than one person and nobody less than another.
pub open spec fn are_extremes(most: int, least: int, figures: Seq<LoadFigure>) -> bool {
    &&& 0 <= most < figures.len()
    &&& 0 <= least < figures.len()
    &&& forall|i: int|
        0 <= i < figures.len() ==> figures[least].done <= (#[trigger] figures[i]).done
            <= figures[most].done
}

/// The line about who did most and who did least.
pub open spec fn names_extremes(line: Seq<char>, people: Seq<PersonShare>, most: int, least: int) -> bool {
    line == "⬆ "@ + people[most].display_name@ + " · ⬇ "@ + people[least].display_name@
}

/// Whether the lines behind a headline are about the people in an order, with their groups.
pub open spec fn follows_order(lines: Seq<Seq<char>>, people: Seq<PersonShare>, order: Seq<int>) -> bool {
    &&& lines.len() > order.len()
    &&& forall|i: int|
        0 <= i < order.len() ==> is_about(#[trigger] lines[i + 1], people[order[i]])
}

/// Whether a line names somebody and their groups.
pub open spec fn is_about(line: Seq<char>, p: PersonShare) -> bool {
    holds(line, "**"@ + p.display_name@ + "**"@) && holds(line, join(views(p.group_names@), ", "@))
}

/// The line about somebody names them and their groups.
proof fn lemma_about(p: PersonShare, f: LoadFigure, weeks: u64)
    ensures
        is_about(load_line(p, f, weeks), p),
{
    let line = load_line(p, f, weeks);
    let groups = join(views(p.group_names@), ", "@);
    let name = "**"@ + p.display_name@ + "**"@;
    lemma_stars();
    if weeks >= KNOWN_WEEKS {
        let rest = "  "@ + f.delta@ + " · "@ + f.ratio@ + "× · "@;
        lemma_holds_between(f.icon@ + " "@, name, rest + groups);
        assert(line =~= f.icon@ + " "@ + name + (rest + groups));
        assert(holds_at(line, name, (f.icon@ + " "@).len() as int));
        let front = f.icon@ + " "@ + name + rest;
        lemma_holds_between(front, groups, Seq::empty());
        assert(line =~= front + groups + Seq::<char>::empty());
        assert(holds_at(line, groups, front.len() as int));
    } else {
        let rest = "  "@ + f.ratio@ + "× · "@;
        lemma_holds_between(Seq::empty(), name, rest + groups);
        assert(line =~= Seq::<char>::empty() + name + (rest + groups));
        assert(holds_at(line, name, 0));
        let front = name + rest;
        lemma_holds_between(front, groups, Seq::empty());
        assert(line =~= front + groups + Seq::<char>::empty());
        assert(holds_at(line, groups, front.len() as int));
    }
}

/// Stars with blanks around them.
proof fn lemma_stars()
    ensures
        " **"@ == " "@ + "**"@,
        "**  "@ == "**"@ + "  "@,
{
    reveal_strlit(" **");
    reveal_strlit(" ");
    reveal_strlit("**");
    reveal_strlit("  ");
    reveal_strlit("**  ");
    assert(" **"@ =~= " "@ + "**"@);
    assert("**  "@ =~= "**"@ + "  "@);
}

/// The order by what is expected.
proof fn lemma_falling(figures: Seq<LoadFigure>)
    requires
        figures.len() <= usize::MAX,
    ensures
        is_falling(
            sorted(expected_ranks(figures)).map_values(|r: LoadRank| r.place as int),
            figures,
        ),
        forall|i: int|
            0 <= i < figures.len() ==> (#[trigger] sorted(expected_ranks(figures))[i]).load
                == figures[sorted(expected_ranks(figures))[i].place as int].expected,
{
    let all = expected_ranks(figures);
    let s = sorted(all);
    lemma_sorted(all);
    let order = s.map_values(|r: LoadRank| r.place as int);
    assert forall|i: int| 0 <= i < s.len() implies (#[trigger] s[i]).place < figures.len() && s[i].load
        == figures[s[i].place as int].expected by {
        vstd::seq_lib::to_multiset_contains(s, s[i]);
        vstd::seq_lib::to_multiset_contains(all, s[i]);
        assert(s.contains(s[i]));
        let k = choose|k: int| 0 <= k < all.len() && all[k] == s[i];
        assert(all[k].place as int == k);
    }
    assert forall|i: int| 0 <= i < figures.len() implies #[trigger] order.contains(i) by {
        vstd::seq_lib::to_multiset_contains(s, all[i]);
        vstd::seq_lib::to_multiset_contains(all, all[i]);
        assert(all.contains(all[i]));
        let k = choose|k: int| 0 <= k < s.len() && s[k] == all[i];
        assert(order[k] == i);
    }
    assert forall|i: int, j: int| 0 <= i < j < order.len() implies figures[
    #[trigger] order[i]].expected >= figures[#[trigger] order[j]].expected by {
        assert(s[i].load == figures[s[i].place as int].expected);
        assert(s[j].load == figures[s[j].place as int].expected);
    }
}

/// Who did most and who did least.
proof fn lemma_extremes(figures: Seq<LoadFigure>)
    requires
        0 < figures.len() <= usize::MAX,
    ensures
        ({
            let order = sorted(done_ranks(figures, sorted(expected_ranks(figures))));
            order.len() == figures.len() && are_extremes(
                order[0].place as int,
                order.last().place as int,
                figures,
            )
        }),
{
    let expected = sorted(expected_ranks(figures));
    let all = done_ranks(figures, expected);
    let s = sorted(all);
    lemma_sorted(expected_ranks(figures));
    lemma_sorted(all);
    lemma_falling(figures);
    let order = expected.map_values(|r: LoadRank| r.place as int);
    assert forall|i: int| 0 <= i < s.len() implies (#[trigger] s[i]).place < figures.len() && s[i].load
        == figures[s[i].place as int].done by {
        vstd::seq_lib::to_multiset_contains(s, s[i]);
        vstd::seq_lib::to_multiset_contains(all, s[i]);
        assert(s.contains(s[i]));
        let k = choose|k: int| 0 <= k < all.len() && all[k] == s[i];
        assert(order[k] == all[k].place as int);
    }
    let most = s[0].place as int;
    let least = s.last().place as int;
    assert forall|i: int| 0 <= i < figures.len() implies figures[least].done <= (
    #[trigger] figures[i]).done <= figures[most].done by {
        assert(order.contains(i));
        let k = choose|k: int| 0 <= k < order.len() && order[k] == i;
        let x = all[k];
        assert(x.place as int == i && x.load == figures[i].done);
        vstd::seq_lib::to_multiset_contains(all, x);
        vstd::seq_lib::to_multiset_contains(s, x);
        assert(all.contains(x));
        let m = choose|m: int| 0 <= m < s.len() && s[m] == x;
        assert(s[m] == x);
        assert(s[0].load == figures[most].done);
        assert(s[s.len() - 1].load == figures[least].done);
        if m > 0 {
            assert(s[m].load <= s[0].load);
        }
        if m < s.len() - 1 {
            assert(s[s.len() - 1].load <= s[m].load);
        }
    }
}

/// The overview has a line for everybody, whoever has most to do first, and at the end, once enough
/// weeks are over, names whoever did most and whoever did least.
pub proof fn law_loads_are_shown_from_the_largest_on(
    weeks: u64,
    years: Seq<char>,
    people: Seq<PersonShare>,
    figures: Seq<LoadFigure>,
)
    requires
        people.len() == figures.len(),
        0 < people.len() <= usize::MAX,
    ensures
        exists|lines: Seq<Seq<char>>, order: Seq<int>, most: int, least: int|
            #![trigger follows_order(lines, people, order), are_extremes(most, least, figures)]
            {
                &&& workload(weeks, years, people, figures) == join(lines, "\n"@)
                &&& is_falling(order, figures)
                &&& follows_order(lines, people, order)
                &&& are_extremes(most, least, figures)
                &&& if weeks >= KNOWN_WEEKS && people[most].display_name@
                    != people[least].display_name@ {
                    lines.len() == people.len() + 2 && names_extremes(
                        lines.last(),
                        people,
                        most,
                        least,
                    )
                } else {
                    lines.len() == people.len() + 1
                }
            },
{
    let ranks = sorted(expected_ranks(figures));
    let order = ranks.map_values(|r: LoadRank| r.place as int);
    lemma_sorted(expected_ranks(figures));
    lemma_falling(figures);
    lemma_extremes(figures);
    let ends = sorted(done_ranks(figures, ranks));
    let most = ends[0].place as int;
    let least = ends.last().place as int;
    let body = load_lines(people, figures, weeks);
    let lines = seq![load_head(weeks, years)] + body + extremes(people, figures, weeks);
    assert forall|i: int| 0 <= i < order.len() implies is_about(
        #[trigger] lines[i + 1],
        people[order[i]],
    ) by {
        let p = ranks[i].place as int;
        assert(body[i] == load_line(people[p], figures[p], weeks));
        assert(lines[i + 1] == body[i]);
        lemma_about(people[p], figures[p], weeks);
    }
    assert(follows_order(lines, people, order));
    assert(are_extremes(most, least, figures));
}

} // verus!
