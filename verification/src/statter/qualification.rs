use vstd::prelude::*;
use vstd::arithmetic::div_mod::lemma_fundamental_div_mod;
use crate::ordering::order_of;
use crate::statter::fixture::Fixture;
use crate::statter::groups::{ahead_in, decided, deciders_of, eliminated_of, eliminations, entered};
use crate::statter::groups::{group_stage, groups_played, has_standing, is_standing_of};
use crate::statter::groups::{lemma_decided, lemma_ranking, lemma_ranking_fault};
use crate::statter::groups::{lemma_standing_exists, unknown_decider, Verdict};
use crate::statter::groups::{members_of, qualified, ranking, selected, standing_of};
use crate::statter::groups::{standings_distinct, GroupTeam, Selection};
use crate::statter::placements::{entry_of, has_entry, is_entry_of, placed, updated};
use crate::statter::placements::{lemma_entry_kept, lemma_placed_shape, lemma_updated_shape};
use crate::statter::playoffs::rank_of;
use crate::statter::team::{TeamName, TeamPlacementView};
use crate::statter::tournament::{GroupID, Tournament};

verus! {

/// Whether `team` is the best team of group `g` behind the `per_group` teams
/// that go through by their rank in the group.
pub open spec fn is_next_best(
    standings: Seq<GroupTeam>,
    g: GroupID,
    per_group: int,
    team: GroupTeam,
) -> bool {
    &&& ranking(members_of(standings, g)) is Ok
    &&& 0 <= per_group < ranking(members_of(standings, g))->Ok_0.len()
    &&& ranking(members_of(standings, g))->Ok_0[per_group] == team
}

/// Every group sends the same number of teams through by rank, and has at
/// most one candidate for a wildcard.
pub proof fn lemma_selected_count(standings: Seq<GroupTeam>, groups: Seq<GroupID>, per_group: int)
    requires
        per_group >= 0,
        selected(standings, groups, per_group) is Ok,
    ensures
        selected(standings, groups, per_group)->Ok_0.qualifiers.len() == groups.len() * per_group,
        selected(standings, groups, per_group)->Ok_0.candidates.len() <= groups.len(),
    decreases groups.len(),
{
    if groups.len() > 0 {
        let rest = groups.drop_last();
        lemma_selected_count(standings, rest, per_group);
        assert((rest.len() + 1) * per_group == rest.len() * per_group + per_group)
            by (nonlinear_arith);
    } else {
        assert(0 * per_group == 0);
    }
}

/// The teams that go through by rank are, group after group in the order
/// of the groups, the `per_group` best of each group from the best on.
pub proof fn lemma_selected_shares(
    standings: Seq<GroupTeam>,
    groups: Seq<GroupID>,
    per_group: int,
    j: int,
    k: int,
)
    requires
        selected(standings, groups, per_group) is Ok,
        0 <= j < groups.len(),
        0 <= k < per_group,
    ensures
        ranking(members_of(standings, groups[j])) is Ok,
        per_group <= ranking(members_of(standings, groups[j]))->Ok_0.len(),
        0 <= j * per_group + k < selected(standings, groups, per_group)->Ok_0.qualifiers.len(),
        selected(standings, groups, per_group)->Ok_0.qualifiers[j * per_group + k] == ranking(
            members_of(standings, groups[j]),
        )->Ok_0[k],
    decreases groups.len(),
{
    let rest = groups.drop_last();
    lemma_selected_count(standings, groups, per_group);
    lemma_selected_count(standings, rest, per_group);
    assert((rest.len() + 1) * per_group == rest.len() * per_group + per_group)
        by (nonlinear_arith);
    if j < rest.len() {
        lemma_selected_shares(standings, rest, per_group, j, k);
        assert(rest[j] == groups[j]);
    } else {
        assert(groups[j] == groups.last());
        assert(j * per_group == rest.len() * per_group);
    }
}

/// Every candidate for a wildcard is the best team of a group behind those
/// that go through by rank.
pub proof fn lemma_selected_candidates(
    standings: Seq<GroupTeam>,
    groups: Seq<GroupID>,
    per_group: int,
    c: int,
)
    requires
        per_group >= 0,
        selected(standings, groups, per_group) is Ok,
        0 <= c < selected(standings, groups, per_group)->Ok_0.candidates.len(),
    ensures
        exists|j: int|
            0 <= j < groups.len() && is_next_best(
                standings,
                #[trigger] groups[j],
                per_group,
                selected(standings, groups, per_group)->Ok_0.candidates[c],
            ),
    decreases groups.len(),
{
    let rest = groups.drop_last();
    let before = selected(standings, rest, per_group)->Ok_0;
    if c < before.candidates.len() {
        lemma_selected_candidates(standings, rest, per_group, c);
        let j = choose|j: int|
            0 <= j < rest.len() && is_next_best(
                standings,
                #[trigger] rest[j],
                per_group,
                before.candidates[c],
            );
        assert(groups[j] == rest[j]);
    } else {
        assert(groups[groups.len() - 1] == groups.last());
    }
}

/// Who reaches the playoffs: as many teams as there are places; first, of
/// each group, its share of the places by rank; then, for the places left
/// over, the best of the candidates.
pub proof fn lemma_qualified(standings: Seq<GroupTeam>, groups: Seq<GroupID>, playoff_teams: u8)
    requires
        qualified(standings, groups, playoff_teams) is Ok,
    ensures
        groups.len() > 0,
        qualified(standings, groups, playoff_teams)->Ok_0.len() == playoff_teams,
        ({
            let per_group = playoff_teams as int / groups.len() as int;
            let wildcards = playoff_teams as int % groups.len() as int;
            let sel = selected(standings, groups, per_group)->Ok_0;
            let q = qualified(standings, groups, playoff_teams)->Ok_0;
            &&& selected(standings, groups, per_group) is Ok
            &&& ranking(sel.candidates) is Ok
            &&& sel.qualifiers.len() == groups.len() * per_group
            &&& q.take(groups.len() * per_group) == sel.qualifiers
            &&& q.skip(groups.len() * per_group) == ranking(sel.candidates)->Ok_0.take(wildcards)
        }),
{
    let n = groups.len() as int;
    let per_group = playoff_teams as int / n;
    let wildcards = playoff_teams as int % n;
    let sel = selected(standings, groups, per_group)->Ok_0;
    let q = qualified(standings, groups, playoff_teams)->Ok_0;
    lemma_fundamental_div_mod(playoff_teams as int, n);
    assert(per_group >= 0) by (nonlinear_arith)
        requires
            per_group == playoff_teams as int / n,
            n > 0,
            playoff_teams >= 0,
    ;
    lemma_selected_count(standings, groups, per_group);
    lemma_ranking(sel.candidates);
    assert(n * per_group == groups.len() * per_group);
    assert(q.take(groups.len() * per_group) =~= sel.qualifiers);
    assert(q.skip(groups.len() * per_group) =~= ranking(sel.candidates)->Ok_0.take(wildcards));
}

/// Whether each of the teams has an entry in the table.
pub open spec fn all_entered(table: Seq<TeamPlacementView>, teams: Seq<GroupTeam>) -> bool {
    forall|i: int| 0 <= i < teams.len() ==> has_entry(table, (#[trigger] teams[i]).team)
}

/// Whether each of `part` is one of `list`.
pub open spec fn all_among(part: Seq<GroupTeam>, list: Seq<GroupTeam>) -> bool {
    forall|i: int| 0 <= i < part.len() ==> list.contains(#[trigger] part[i])
}

/// The standings of the group stage with the decider values filled in.
pub open spec fn final_standings(t: Tournament) -> Seq<GroupTeam> {
    decided(
        groups_played(t.brackets.groups->Some_0@, t.tournament_name@)->Ok_0.standings,
        deciders_of(t),
    )->Ok_0
}

/// The teams that the group stage eliminates, from the best to the worst.
pub open spec fn ranked_out(t: Tournament) -> Seq<GroupTeam> {
    ranking(eliminated_of(final_standings(t), group_stage(t)->Ok_0.qualifiers))->Ok_0
}

/// Setting the rank of a team sets it for that team, if it has an entry,
/// and leaves the rank of every other team and the entries as they were.
pub proof fn lemma_placed_rank(
    table: Seq<TeamPlacementView>,
    team: TeamName,
    placement: u8,
    name: TeamName,
)
    ensures
        has_entry(placed(table, team, placement), name) == has_entry(table, name),
        rank_of(placed(table, team, placement), name) == if name == team && has_entry(table, team) {
            Some(placement)
        } else {
            rank_of(table, name)
        },
{
    let after = placed(table, team, placement);
    if has_entry(table, team) {
        lemma_placed_shape(table, team, placement);
        assert(is_entry_of(table, team, entry_of(table, team)));
        if has_entry(table, name) {
            assert(is_entry_of(table, name, entry_of(table, name)));
        } else if has_entry(after, name) {
            assert forall|k: int| 0 <= k < after.len() implies (#[trigger] table[k]).team.name
                == after[k].team.name by {
                assert(after[k].team == table[k].team);
            }
            lemma_entry_kept(after, table, name);
        }
    }
}

/// Placing teams from the last rank upwards changes no entry's team.
pub proof fn lemma_eliminations_entries(
    table: Seq<TeamPlacementView>,
    ranked: Seq<GroupTeam>,
    count: int,
    name: TeamName,
)
    ensures
        has_entry(eliminations(table, ranked, count), name) == has_entry(table, name),
    decreases ranked.len(),
{
    if ranked.len() > 0 {
        lemma_placed_rank(table, ranked.last().team, count as u8, name);
        lemma_eliminations_entries(
            placed(table, ranked.last().team, count as u8),
            ranked.drop_last(),
            count - 1,
            name,
        );
    }
}

/// Placing teams from the last rank upwards leaves the rank of every team
/// that is not among them.
pub proof fn lemma_eliminations_keep(
    table: Seq<TeamPlacementView>,
    ranked: Seq<GroupTeam>,
    count: int,
    name: TeamName,
)
    requires
        forall|i: int| 0 <= i < ranked.len() ==> (#[trigger] ranked[i]).team != name,
    ensures
        rank_of(eliminations(table, ranked, count), name) == rank_of(table, name),
    decreases ranked.len(),
{
    if ranked.len() > 0 {
        let rest = ranked.drop_last();
        assert(ranked[ranked.len() - 1].team != name);
        lemma_placed_rank(table, ranked.last().team, count as u8, name);
        assert forall|i: int| 0 <= i < rest.len() implies (#[trigger] rest[i]).team != name by {
            assert(rest[i] == ranked[i]);
        }
        lemma_eliminations_keep(
            placed(table, ranked.last().team, count as u8),
            rest,
            count - 1,
            name,
        );
    }
}

/// Of teams placed from the last rank upwards, the last holds the rank
/// `count`, the one before it one less, and so on.
pub proof fn lemma_eliminations_rank(
    table: Seq<TeamPlacementView>,
    ranked: Seq<GroupTeam>,
    count: int,
    j: int,
)
    requires
        standings_distinct(ranked),
        all_entered(table, ranked),
        0 <= j < ranked.len(),
    ensures
        rank_of(eliminations(table, ranked, count), ranked[j].team) == Some(
            (count - (ranked.len() - 1 - j)) as u8,
        ),
    decreases ranked.len(),
{
    let last = ranked.last();
    let rest = ranked.drop_last();
    let first = placed(table, last.team, count as u8);
    assert(ranked[ranked.len() - 1] == last);
    assert forall|i: int| 0 <= i < rest.len() implies (#[trigger] rest[i]).team != last.team by {
        assert(rest[i] == ranked[i]);
    }
    if j == ranked.len() - 1 {
        lemma_placed_rank(table, last.team, count as u8, last.team);
        lemma_eliminations_keep(first, rest, count - 1, last.team);
    } else {
        assert forall|i: int| 0 <= i < rest.len() implies has_entry(
            first,
            (#[trigger] rest[i]).team,
        ) by {
            assert(rest[i] == ranked[i]);
            lemma_placed_rank(table, last.team, count as u8, rest[i].team);
        }
        assert forall|a: int, b: int| 0 <= a < b < rest.len() implies (#[trigger] rest[a]).team != (
        #[trigger] rest[b]).team by {
            assert(rest[a] == ranked[a]);
            assert(rest[b] == ranked[b]);
        }
        assert(rest[j] == ranked[j]);
        lemma_eliminations_rank(first, rest, count - 1, j);
    }
}

/// Counting a result keeps the standings that were there at their places,
/// keeps the teams apart, and adds at most a standing of the team.
pub proof fn lemma_entered(
    list: Seq<GroupTeam>,
    group: GroupID,
    team: TeamName,
    goals_for: u8,
    goals_against: u8,
)
    requires
        standings_distinct(list),
    ensures
        standings_distinct(entered(list, group, team, goals_for, goals_against)),
        entered(list, group, team, goals_for, goals_against).len() >= list.len(),
        forall|k: int|
            0 <= k < list.len() ==> (#[trigger] entered(
                list,
                group,
                team,
                goals_for,
                goals_against,
            )[k]).team == list[k].team,
        forall|k: int|
            list.len() <= k < entered(list, group, team, goals_for, goals_against).len() ==> (
            #[trigger] entered(list, group, team, goals_for, goals_against)[k]).team == team,
{
    let after = entered(list, group, team, goals_for, goals_against);
    if has_standing(list, team) {
        let i = standing_of(list, team);
        assert(is_standing_of(list, team, i));
        assert forall|k: int| 0 <= k < list.len() implies (#[trigger] after[k]).team
            == list[k].team by {}
        assert forall|a: int, b: int| 0 <= a < b < after.len() implies (#[trigger] after[a]).team != (
        #[trigger] after[b]).team by {
            assert(after[a].team == list[a].team);
            assert(after[b].team == list[b].team);
        }
    } else {
        let n = list.len() as int;
        assert forall|k: int| 0 <= k < n implies (#[trigger] after[k]).team == list[k].team by {
            assert(after[k] == list[k]);
        }
        assert forall|a: int, b: int| 0 <= a < b < after.len() implies (#[trigger] after[a]).team != (
        #[trigger] after[b]).team by {
            assert(after[a] == list[a]);
            if b < n {
                assert(after[b] == list[b]);
            } else if list[a].team == team {
                lemma_standing_exists(list, team, a);
            }
        }
    }
}

/// The group fixtures leave one standing for a team, and an entry in the
/// table for each team with a standing.
pub proof fn lemma_groups_tally(fixtures: Seq<Fixture>, tournament_name: Seq<char>)
    requires
        groups_played(fixtures, tournament_name) is Ok,
    ensures
        standings_distinct(groups_played(fixtures, tournament_name)->Ok_0.standings),
        all_entered(
            groups_played(fixtures, tournament_name)->Ok_0.table,
            groups_played(fixtures, tournament_name)->Ok_0.standings,
        ),
    decreases fixtures.len(),
{
    if fixtures.len() > 0 {
        lemma_groups_tally(fixtures.drop_last(), tournament_name);
        let before = groups_played(fixtures.drop_last(), tournament_name)->Ok_0;
        let after = groups_played(fixtures, tournament_name)->Ok_0;
        let f = fixtures.last();
        let g = f.group->Some_0;
        let half = entered(before.standings, g, f.team1, f.score1, f.score2);
        lemma_entered(before.standings, g, f.team1, f.score1, f.score2);
        lemma_entered(half, g, f.team2, f.score2, f.score1);
        lemma_updated_shape(before.table, f, tournament_name);
        assert(after.table == updated(before.table, f, tournament_name));
        assert forall|i: int| 0 <= i < after.standings.len() implies has_entry(
            after.table,
            (#[trigger] after.standings[i]).team,
        ) by {
            if i < before.standings.len() {
                assert(half[i].team == before.standings[i].team);
                assert(after.standings[i].team == half[i].team);
                assert(has_entry(before.table, before.standings[i].team));
                lemma_entry_kept(before.table, after.table, before.standings[i].team);
            } else if i < half.len() {
                assert(half[i].team == f.team1);
                assert(after.standings[i].team == half[i].team);
            } else {
                assert(after.standings[i].team == f.team2);
            }
        }
    }
}

/// The standings that are left out are standings, each of another team.
pub proof fn lemma_eliminated(standings: Seq<GroupTeam>, qualifiers: Seq<GroupTeam>)
    requires
        standings_distinct(standings),
    ensures
        standings_distinct(eliminated_of(standings, qualifiers)),
        all_among(eliminated_of(standings, qualifiers), standings),
    decreases standings.len(),
{
    if standings.len() > 0 {
        let rest = standings.drop_last();
        let last = standings.last();
        lemma_eliminated(rest, qualifiers);
        let before = eliminated_of(rest, qualifiers);
        let after = eliminated_of(standings, qualifiers);
        assert forall|i: int| 0 <= i < before.len() implies standings.contains(
            #[trigger] before[i],
        ) && before[i].team != last.team by {
            assert(rest.contains(before[i]));
            let k = choose|k: int| 0 <= k < rest.len() && rest[k] == before[i];
            assert(standings[k] == rest[k]);
            assert(standings[standings.len() - 1] == last);
        }
        assert(standings[standings.len() - 1] == last);
        assert forall|i: int| 0 <= i < after.len() implies standings.contains(
            #[trigger] after[i],
        ) by {
            if i < before.len() {
                assert(after[i] == before[i]);
            }
        }
        assert forall|a: int, b: int| 0 <= a < b < after.len() implies (#[trigger] after[a]).team != (
        #[trigger] after[b]).team by {
            assert(after[a] == before[a]);
            if b < before.len() {
                assert(after[b] == before[b]);
            }
        }
    }
}

/// A ranking of teams that differ holds teams that differ, each of them
/// one of the teams ranked.
pub proof fn lemma_ranking_teams(teams: Seq<GroupTeam>)
    requires
        ranking(teams) is Ok,
        standings_distinct(teams),
    ensures
        standings_distinct(ranking(teams)->Ok_0),
        all_among(ranking(teams)->Ok_0, teams),
{
    lemma_ranking(teams);
    let order = order_of(teams.len(), ahead_in(teams));
    let ranked = ranking(teams)->Ok_0;
    assert forall|a: int, b: int| 0 <= a < b < ranked.len() implies (#[trigger] ranked[a]).team != (
    #[trigger] ranked[b]).team by {
        assert(ranked[a] == teams[order[a]]);
        assert(ranked[b] == teams[order[b]]);
        assert(order[a] != order[b]);
        if order[a] < order[b] {
            assert(teams[order[a]].team != teams[order[b]].team);
        } else {
            assert(teams[order[b]].team != teams[order[a]].team);
        }
    }
    assert forall|i: int| 0 <= i < ranked.len() implies teams.contains(#[trigger] ranked[i]) by {
        assert(ranked[i] == teams[order[i]]);
    }
}

/// How many of `list` are among `chosen`.
pub open spec fn count_among(list: Seq<GroupTeam>, chosen: Seq<GroupTeam>) -> int
    decreases list.len(),
{
    if list.len() == 0 {
        0
    } else {
        count_among(list.drop_last(), chosen) + if chosen.contains(list.last()) {
            1int
        } else {
            0int
        }
    }
}

/// The standings that are left out are those that are not chosen.
pub proof fn lemma_eliminated_count(standings: Seq<GroupTeam>, chosen: Seq<GroupTeam>)
    ensures
        eliminated_of(standings, chosen).len() + count_among(standings, chosen) == standings.len(),
    decreases standings.len(),
{
    if standings.len() > 0 {
        lemma_eliminated_count(standings.drop_last(), chosen);
    }
}

/// One more chosen team, new among the chosen, counts once if it is in the
/// list and not at all if it is not.
pub proof fn lemma_count_one_more(list: Seq<GroupTeam>, chosen: Seq<GroupTeam>, x: GroupTeam)
    requires
        standings_distinct(list),
        !chosen.contains(x),
    ensures
        count_among(list, chosen.push(x)) == count_among(list, chosen) + if list.contains(x) {
            1int
        } else {
            0int
        },
    decreases list.len(),
{
    let more = chosen.push(x);
    if list.len() > 0 {
        let rest = list.drop_last();
        let last = list.last();
        assert forall|a: int, b: int| 0 <= a < b < rest.len() implies (#[trigger] rest[a]).team != (
        #[trigger] rest[b]).team by {
            assert(rest[a] == list[a]);
            assert(rest[b] == list[b]);
        }
        lemma_count_one_more(rest, chosen, x);
        assert(list[list.len() - 1] == last);
        assert(more[chosen.len() as int] == x);
        if chosen.contains(last) {
            let k = choose|k: int| 0 <= k < chosen.len() && chosen[k] == last;
            assert(more[k] == last);
        }
        if more.contains(last) {
            let k = choose|k: int| 0 <= k < more.len() && more[k] == last;
            if k < chosen.len() {
                assert(chosen[k] == last);
            }
        }
        if rest.contains(x) {
            let k = choose|k: int| 0 <= k < rest.len() && rest[k] == x;
            assert(list[k] == x);
            assert(list[k].team != list[list.len() - 1].team);
        }
        if list.contains(x) && last != x {
            let k = choose|k: int| 0 <= k < list.len() && list[k] == x;
            assert(rest[k] == x);
        }
    } else {
        assert(!list.contains(x));
    }
}

/// Of a list of standings of different teams, as many are among the chosen
/// as there are chosen, where the chosen are of different teams and each
/// of them is in the list.
pub proof fn lemma_count_chosen(list: Seq<GroupTeam>, chosen: Seq<GroupTeam>)
    requires
        standings_distinct(list),
        standings_distinct(chosen),
        all_among(chosen, list),
    ensures
        count_among(list, chosen) == chosen.len(),
    decreases chosen.len(),
{
    if chosen.len() == 0 {
        lemma_count_none(list, chosen);
    } else {
        let rest = chosen.drop_last();
        let x = chosen.last();
        assert(chosen =~= rest.push(x));
        assert(chosen[chosen.len() - 1] == x);
        assert forall|a: int, b: int| 0 <= a < b < rest.len() implies (#[trigger] rest[a]).team != (
        #[trigger] rest[b]).team by {
            assert(rest[a] == chosen[a]);
            assert(rest[b] == chosen[b]);
        }
        assert forall|i: int| 0 <= i < rest.len() implies list.contains(#[trigger] rest[i]) by {
            assert(rest[i] == chosen[i]);
        }
        if rest.contains(x) {
            let k = choose|k: int| 0 <= k < rest.len() && rest[k] == x;
            assert(chosen[k] == rest[k]);
            assert(chosen[k].team != chosen[chosen.len() - 1].team);
        }
        lemma_count_chosen(list, rest);
        lemma_count_one_more(list, rest, x);
    }
}

/// None of a list is among no teams.
pub proof fn lemma_count_none(list: Seq<GroupTeam>, chosen: Seq<GroupTeam>)
    requires
        chosen.len() == 0,
    ensures
        count_among(list, chosen) == 0,
    decreases list.len(),
{
    if list.len() > 0 {
        lemma_count_none(list.drop_last(), chosen);
    }
}

/// Whether no group is listed twice.
pub open spec fn groups_differ(groups: Seq<GroupID>) -> bool {
    forall|a: int, b: int| 0 <= a < b < groups.len() ==> groups[a] != groups[b]
}

/// Whether a selection is made of standings of `standings` in groups of
/// `groups`, no team twice among the teams that go through and the
/// candidates.
pub open spec fn selection_sound(
    standings: Seq<GroupTeam>,
    groups: Seq<GroupID>,
    sel: Selection,
) -> bool {
    &&& standings_distinct(sel.qualifiers)
    &&& standings_distinct(sel.candidates)
    &&& forall|i: int, j: int|
        0 <= i < sel.qualifiers.len() && 0 <= j < sel.candidates.len() ==> (
        #[trigger] sel.qualifiers[i]).team != (#[trigger] sel.candidates[j]).team
    &&& forall|i: int|
        0 <= i < sel.qualifiers.len() ==> standings.contains(#[trigger] sel.qualifiers[i])
            && groups.contains(sel.qualifiers[i].group)
    &&& forall|j: int|
        0 <= j < sel.candidates.len() ==> standings.contains(#[trigger] sel.candidates[j])
            && groups.contains(sel.candidates[j].group)
}

/// Two standings of one team in a list with one standing for a team are
/// the same standing.
pub proof fn lemma_same_team(standings: Seq<GroupTeam>, x: GroupTeam, y: GroupTeam)
    requires
        standings_distinct(standings),
        standings.contains(x),
        standings.contains(y),
        x.team == y.team,
    ensures
        x == y,
{
    let a = choose|a: int| 0 <= a < standings.len() && standings[a] == x;
    let b = choose|b: int| 0 <= b < standings.len() && standings[b] == y;
    if a < b {
        assert(standings[a].team != standings[b].team);
    }
    if b < a {
        assert(standings[b].team != standings[a].team);
    }
}

/// The members of a group are standings of that group, of different teams
/// where the standings are.
pub proof fn lemma_members(standings: Seq<GroupTeam>, g: GroupID)
    ensures
        forall|i: int|
            0 <= i < members_of(standings, g).len() ==> (#[trigger] members_of(
                standings,
                g,
            )[i]).group == g && standings.contains(members_of(standings, g)[i]),
        standings_distinct(standings) ==> standings_distinct(members_of(standings, g)),
    decreases standings.len(),
{
    if standings.len() > 0 {
        let rest = standings.drop_last();
        let last = standings.last();
        lemma_members(rest, g);
        let before = members_of(rest, g);
        let after = members_of(standings, g);
        assert(standings[standings.len() - 1] == last);
        assert forall|i: int| 0 <= i < before.len() implies standings.contains(
            #[trigger] before[i],
        ) && (standings_distinct(standings) ==> before[i].team != last.team) by {
            assert(rest.contains(before[i]));
            let k = choose|k: int| 0 <= k < rest.len() && rest[k] == before[i];
            assert(standings[k] == rest[k]);
        }
        assert forall|i: int| 0 <= i < after.len() implies (#[trigger] after[i]).group == g
            && standings.contains(after[i]) by {
            if i < before.len() {
                assert(after[i] == before[i]);
            }
        }
        if standings_distinct(standings) {
            assert forall|a: int, b: int| 0 <= a < b < rest.len() implies (
            #[trigger] rest[a]).team != (#[trigger] rest[b]).team by {
                assert(rest[a] == standings[a]);
                assert(rest[b] == standings[b]);
            }
            assert forall|a: int, b: int| 0 <= a < b < after.len() implies (
            #[trigger] after[a]).team != (#[trigger] after[b]).team by {
                assert(after[a] == before[a]);
                if b < before.len() {
                    assert(after[b] == before[b]);
                }
            }
        }
    }
}

/// The group fixtures list no group twice.
pub proof fn lemma_groups_differ(fixtures: Seq<Fixture>, tournament_name: Seq<char>)
    requires
        groups_played(fixtures, tournament_name) is Ok,
    ensures
        groups_differ(groups_played(fixtures, tournament_name)->Ok_0.groups),
    decreases fixtures.len(),
{
    if fixtures.len() > 0 {
        lemma_groups_differ(fixtures.drop_last(), tournament_name);
        let before = groups_played(fixtures.drop_last(), tournament_name)->Ok_0.groups;
        let after = groups_played(fixtures, tournament_name)->Ok_0.groups;
        let g = fixtures.last().group->Some_0;
        if !before.contains(g) {
            assert forall|a: int, b: int| 0 <= a < b < after.len() implies after[a] != after[b] by {
                assert(after[a] == before[a]);
                if b < before.len() {
                    assert(after[b] == before[b]);
                }
            }
        }
    }
}

/// What is selected from groups that differ, out of standings of different
/// teams, is sound.
pub proof fn lemma_selected_sound(standings: Seq<GroupTeam>, groups: Seq<GroupID>, per_group: int)
    requires
        standings_distinct(standings),
        groups_differ(groups),
        per_group >= 0,
        selected(standings, groups, per_group) is Ok,
    ensures
        selection_sound(standings, groups, selected(standings, groups, per_group)->Ok_0),
    decreases groups.len(),
{
    if groups.len() > 0 {
        let rest = groups.drop_last();
        let g = groups.last();
        assert(groups[groups.len() - 1] == g);
        assert forall|a: int, b: int| 0 <= a < b < rest.len() implies rest[a] != rest[b] by {
            assert(rest[a] == groups[a]);
            assert(rest[b] == groups[b]);
        }
        lemma_selected_sound(standings, rest, per_group);
        let before = selected(standings, rest, per_group)->Ok_0;
        let after = selected(standings, groups, per_group)->Ok_0;
        let members = members_of(standings, g);
        let ranked = ranking(members)->Ok_0;
        lemma_members(standings, g);
        lemma_ranking_teams(members);
        assert forall|k: int| 0 <= k < ranked.len() implies (#[trigger] ranked[k]).group == g
            && standings.contains(ranked[k]) by {
            assert(members.contains(ranked[k]));
            let m = choose|m: int| 0 <= m < members.len() && members[m] == ranked[k];
            assert(members[m].group == g);
        }
        assert forall|x: GroupID| rest.contains(x) implies groups.contains(x) && x != g by {
            let m = choose|m: int| 0 <= m < rest.len() && rest[m] == x;
            assert(groups[m] == x);
        }
        assert forall|i: int| 0 <= i < after.qualifiers.len() implies standings.contains(
            #[trigger] after.qualifiers[i],
        ) && groups.contains(after.qualifiers[i].group) && (i < before.qualifiers.len()
            ==> after.qualifiers[i] == before.qualifiers[i] && after.qualifiers[i].group != g) && (i
            >= before.qualifiers.len() ==> after.qualifiers[i] == ranked[i
            - before.qualifiers.len()]) by {
            if i < before.qualifiers.len() {
                assert(after.qualifiers[i] == before.qualifiers[i]);
                assert(rest.contains(before.qualifiers[i].group));
            } else {
                assert(after.qualifiers[i] == ranked[i - before.qualifiers.len()]);
            }
        }
        assert forall|j: int| 0 <= j < after.candidates.len() implies standings.contains(
            #[trigger] after.candidates[j],
        ) && groups.contains(after.candidates[j].group) && (j < before.candidates.len()
            ==> after.candidates[j] == before.candidates[j] && after.candidates[j].group != g) && (j
            >= before.candidates.len() ==> after.candidates[j] == ranked[per_group]) by {
            if j < before.candidates.len() {
                assert(after.candidates[j] == before.candidates[j]);
                assert(rest.contains(before.candidates[j].group));
            }
        }
        assert forall|a: int, b: int| 0 <= a < b < after.qualifiers.len() implies (
        #[trigger] after.qualifiers[a]).team != (#[trigger] after.qualifiers[b]).team by {
            if after.qualifiers[a].team == after.qualifiers[b].team {
                lemma_same_team(standings, after.qualifiers[a], after.qualifiers[b]);
                if b < before.qualifiers.len() {
                    assert(before.qualifiers[a].team != before.qualifiers[b].team);
                } else if a >= before.qualifiers.len() {
                    assert(ranked[a - before.qualifiers.len()].team != ranked[b
                        - before.qualifiers.len()].team);
                }
            }
        }
        assert forall|a: int, b: int| 0 <= a < b < after.candidates.len() implies (
        #[trigger] after.candidates[a]).team != (#[trigger] after.candidates[b]).team by {
            if after.candidates[a].team == after.candidates[b].team {
                lemma_same_team(standings, after.candidates[a], after.candidates[b]);
                if b < before.candidates.len() {
                    assert(before.candidates[a].team != before.candidates[b].team);
                }
            }
        }
        assert forall|i: int, j: int|
            0 <= i < after.qualifiers.len() && 0 <= j < after.candidates.len() implies (
        #[trigger] after.qualifiers[i]).team != (#[trigger] after.candidates[j]).team by {
            if after.qualifiers[i].team == after.candidates[j].team {
                lemma_same_team(standings, after.qualifiers[i], after.candidates[j]);
                if i < before.qualifiers.len() && j < before.candidates.len() {
                    assert(before.qualifiers[i].team != before.candidates[j].team);
                } else if i >= before.qualifiers.len() && j >= before.candidates.len() {
                    assert(ranked[i - before.qualifiers.len()].team != ranked[per_group].team);
                }
            }
        }
    }
}

/// The teams that reach the playoffs are standings of the group stage, no
/// team twice.
pub proof fn lemma_qualifiers_sound(
    standings: Seq<GroupTeam>,
    groups: Seq<GroupID>,
    playoff_teams: u8,
)
    requires
        standings_distinct(standings),
        groups_differ(groups),
        qualified(standings, groups, playoff_teams) is Ok,
    ensures
        standings_distinct(qualified(standings, groups, playoff_teams)->Ok_0),
        all_among(qualified(standings, groups, playoff_teams)->Ok_0, standings),
{
    let n = groups.len() as int;
    let per_group = playoff_teams as int / n;
    let wildcards = playoff_teams as int % n;
    lemma_qualified(standings, groups, playoff_teams);
    assert(per_group >= 0) by (nonlinear_arith)
        requires
            per_group == playoff_teams as int / n,
            n > 0,
            playoff_teams >= 0,
    ;
    let sel = selected(standings, groups, per_group)->Ok_0;
    lemma_selected_sound(standings, groups, per_group);
    lemma_ranking_teams(sel.candidates);
    let ranked = ranking(sel.candidates)->Ok_0;
    let q = qualified(standings, groups, playoff_teams)->Ok_0;
    assert forall|k: int| 0 <= k < ranked.len() implies sel.candidates.contains(
        #[trigger] ranked[k],
    ) && standings.contains(ranked[k]) by {
        let m = choose|m: int| 0 <= m < sel.candidates.len() && sel.candidates[m] == ranked[k];
        assert(standings.contains(sel.candidates[m]));
    }
    assert forall|i: int| 0 <= i < q.len() implies standings.contains(#[trigger] q[i]) by {
        if i < sel.qualifiers.len() {
            assert(q[i] == sel.qualifiers[i]);
        } else {
            assert(q[i] == ranked[i - sel.qualifiers.len()]);
        }
    }
    assert forall|a: int, b: int| 0 <= a < b < q.len() implies (#[trigger] q[a]).team != (
    #[trigger] q[b]).team by {
        if b < sel.qualifiers.len() {
            assert(q[a] == sel.qualifiers[a]);
            assert(q[b] == sel.qualifiers[b]);
        } else if a >= sel.qualifiers.len() {
            assert(q[a] == ranked[a - sel.qualifiers.len()]);
            assert(q[b] == ranked[b - sel.qualifiers.len()]);
        } else {
            assert(q[a] == sel.qualifiers[a]);
            assert(q[b] == ranked[b - sel.qualifiers.len()]);
            let m = choose|m: int|
                0 <= m < sel.candidates.len() && sel.candidates[m] == ranked[b
                    - sel.qualifiers.len()];
            assert(sel.qualifiers[a].team != sel.candidates[m].team);
        }
    }
}

/// None of the standings that are left out is among the chosen.
pub proof fn lemma_eliminated_are_not_chosen(standings: Seq<GroupTeam>, chosen: Seq<GroupTeam>)
    ensures
        forall|i: int|
            0 <= i < eliminated_of(standings, chosen).len() ==> !chosen.contains(
                #[trigger] eliminated_of(standings, chosen)[i],
            ),
    decreases standings.len(),
{
    if standings.len() > 0 {
        lemma_eliminated_are_not_chosen(standings.drop_last(), chosen);
        let before = eliminated_of(standings.drop_last(), chosen);
        let after = eliminated_of(standings, chosen);
        assert forall|i: int| 0 <= i < after.len() implies !chosen.contains(#[trigger] after[i]) by {
            if i < before.len() {
                assert(after[i] == before[i]);
            }
        }
    }
}

/// The group fixtures give no team a rank.
pub proof fn lemma_groups_give_no_rank(fixtures: Seq<Fixture>, tournament_name: Seq<char>)
    requires
        groups_played(fixtures, tournament_name) is Ok,
    ensures
        forall|k: int|
            0 <= k < groups_played(fixtures, tournament_name)->Ok_0.table.len() ==> (
            #[trigger] groups_played(fixtures, tournament_name)->Ok_0.table[k]).placement is None,
    decreases fixtures.len(),
{
    if fixtures.len() > 0 {
        lemma_groups_give_no_rank(fixtures.drop_last(), tournament_name);
        let before = groups_played(fixtures.drop_last(), tournament_name)->Ok_0.table;
        let after = groups_played(fixtures, tournament_name)->Ok_0.table;
        lemma_updated_shape(before, fixtures.last(), tournament_name);
        assert(after == updated(before, fixtures.last(), tournament_name));
        assert forall|k: int| 0 <= k < after.len() implies (#[trigger] after[k]).placement
            is None by {
            if k < before.len() {
                assert(before[k].placement is None);
            }
        }
    }
}

/// What the group stage leaves: one standing for a team and an entry in
/// the table for each; as many teams for the playoffs as there are places,
/// each with a standing and no team twice; and all other teams eliminated,
/// each of them once.
pub proof fn lemma_group_stage(t: Tournament)
    requires
        group_stage(t) is Ok,
    ensures
        standings_distinct(final_standings(t)),
        all_entered(
            groups_played(t.brackets.groups->Some_0@, t.tournament_name@)->Ok_0.table,
            final_standings(t),
        ),
        group_stage(t)->Ok_0.qualifiers.len() == t.playoff_teams,
        standings_distinct(group_stage(t)->Ok_0.qualifiers),
        all_among(group_stage(t)->Ok_0.qualifiers, final_standings(t)),
        standings_distinct(ranked_out(t)),
        all_among(ranked_out(t), final_standings(t)),
        forall|i: int|
            0 <= i < ranked_out(t).len() ==> !group_stage(t)->Ok_0.qualifiers.contains(
                #[trigger] ranked_out(t)[i],
            ),
        ranked_out(t).len() + t.playoff_teams == final_standings(t).len(),
{
    let fixtures = t.brackets.groups->Some_0@;
    let tally = groups_played(fixtures, t.tournament_name@)->Ok_0;
    let standings = final_standings(t);
    let qualifiers = group_stage(t)->Ok_0.qualifiers;
    let left = eliminated_of(standings, qualifiers);
    let out = ranked_out(t);
    lemma_groups_tally(fixtures, t.tournament_name@);
    lemma_groups_differ(fixtures, t.tournament_name@);
    lemma_decided(tally.standings, deciders_of(t));
    assert forall|a: int, b: int| 0 <= a < b < standings.len() implies (
    #[trigger] standings[a]).team != (#[trigger] standings[b]).team by {
        assert(standings[a].team == tally.standings[a].team);
        assert(standings[b].team == tally.standings[b].team);
    }
    assert forall|i: int| 0 <= i < standings.len() implies has_entry(
        tally.table,
        (#[trigger] standings[i]).team,
    ) by {
        assert(standings[i].team == tally.standings[i].team);
        assert(has_entry(tally.table, tally.standings[i].team));
    }
    lemma_qualified(standings, tally.groups, t.playoff_teams);
    lemma_qualifiers_sound(standings, tally.groups, t.playoff_teams);
    lemma_eliminated(standings, qualifiers);
    lemma_eliminated_are_not_chosen(standings, qualifiers);
    lemma_eliminated_count(standings, qualifiers);
    lemma_count_chosen(standings, qualifiers);
    lemma_ranking_teams(left);
    lemma_ranking(left);
    assert forall|i: int| 0 <= i < out.len() implies standings.contains(#[trigger] out[i])
        && !qualifiers.contains(out[i]) by {
        assert(left.contains(out[i]));
        let k = choose|k: int| 0 <= k < left.len() && left[k] == out[i];
        assert(standings.contains(left[k]));
        assert(!qualifiers.contains(left[k]));
    }
}

/// The ranks of the teams that the group stage eliminates: they follow the
/// places of the playoffs, the best of the eliminated first, so that the
/// worst of them holds the number of the teams of the group stage.
pub proof fn lemma_eliminated_ranks(t: Tournament, j: int)
    requires
        group_stage(t) is Ok,
        0 <= j < ranked_out(t).len(),
    ensures
        has_entry(group_stage(t)->Ok_0.table, ranked_out(t)[j].team),
        rank_of(group_stage(t)->Ok_0.table, ranked_out(t)[j].team) == Some(
            (t.playoff_teams + 1 + j) as u8,
        ),
        t.playoff_teams + ranked_out(t).len() == final_standings(t).len(),
{
    let fixtures = t.brackets.groups->Some_0@;
    let tally = groups_played(fixtures, t.tournament_name@)->Ok_0;
    let standings = final_standings(t);
    let out = ranked_out(t);
    lemma_group_stage(t);
    assert forall|i: int| 0 <= i < out.len() implies has_entry(
        tally.table,
        (#[trigger] out[i]).team,
    ) by {
        let m = choose|m: int| 0 <= m < standings.len() && standings[m] == out[i];
        assert(has_entry(tally.table, standings[m].team));
    }
    lemma_eliminations_rank(tally.table, out, standings.len() as int, j);
    lemma_eliminations_entries(tally.table, out, standings.len() as int, out[j].team);
}

/// The teams that reach the playoffs have an entry in the table that the
/// group stage leaves, and no rank yet.
pub proof fn lemma_qualifiers_hold_no_rank(t: Tournament, i: int)
    requires
        group_stage(t) is Ok,
        0 <= i < group_stage(t)->Ok_0.qualifiers.len(),
    ensures
        has_entry(group_stage(t)->Ok_0.table, group_stage(t)->Ok_0.qualifiers[i].team),
        rank_of(group_stage(t)->Ok_0.table, group_stage(t)->Ok_0.qualifiers[i].team) is None,
{
    let fixtures = t.brackets.groups->Some_0@;
    let tally = groups_played(fixtures, t.tournament_name@)->Ok_0;
    let standings = final_standings(t);
    let qualifiers = group_stage(t)->Ok_0.qualifiers;
    let out = ranked_out(t);
    let team = qualifiers[i].team;
    lemma_group_stage(t);
    lemma_groups_give_no_rank(fixtures, t.tournament_name@);
    let m = choose|m: int| 0 <= m < standings.len() && standings[m] == qualifiers[i];
    assert(has_entry(tally.table, standings[m].team));
    assert(is_entry_of(tally.table, team, entry_of(tally.table, team)));
    assert(tally.table[entry_of(tally.table, team)].placement is None);
    assert forall|k: int| 0 <= k < out.len() implies (#[trigger] out[k]).team != team by {
        if out[k].team == team {
            lemma_same_team(standings, out[k], qualifiers[i]);
        }
    }
    lemma_eliminations_keep(tally.table, out, standings.len() as int, team);
    lemma_eliminations_entries(tally.table, out, standings.len() as int, team);
}

/// Whether no two of the standings are level.
pub open spec fn none_level(list: Seq<GroupTeam>) -> bool {
    forall|i: int, j: int|
        0 <= i < j < list.len() ==> (#[trigger] list[i]).versus(#[trigger] list[j])
            != Verdict::Level
}

/// Standings picked from a list in which no two are level can be ranked.
pub proof fn lemma_part_is_ranked(list: Seq<GroupTeam>, part: Seq<GroupTeam>)
    requires
        none_level(list),
        standings_distinct(part),
        all_among(part, list),
    ensures
        ranking(part) is Ok,
{
    lemma_ranking_fault(part);
    if ranking(part) is Err {
        let (i, j) = choose|i: int, j: int|
            0 <= i < j < part.len() && (#[trigger] part[i]).versus(#[trigger] part[j])
                == Verdict::Level;
        assert(list.contains(part[i]));
        assert(list.contains(part[j]));
        let a = choose|a: int| 0 <= a < list.len() && list[a] == part[i];
        let b = choose|b: int| 0 <= b < list.len() && list[b] == part[j];
        assert(part[i].team != part[j].team);
        if a < b {
            assert(list[a].versus(list[b]) != Verdict::Level);
        } else {
            assert(list[b].versus(list[a]) != Verdict::Level);
        }
    }
}

/// Where no two teams are level and every group has more teams than go
/// through by rank, the selection succeeds and every group has a candidate
/// for a wildcard.
pub proof fn lemma_selected_succeeds(
    standings: Seq<GroupTeam>,
    groups: Seq<GroupID>,
    per_group: int,
)
    requires
        standings_distinct(standings),
        none_level(standings),
        per_group >= 0,
        forall|j: int|
            0 <= j < groups.len() ==> members_of(standings, #[trigger] groups[j]).len()
                > per_group,
    ensures
        selected(standings, groups, per_group) is Ok,
        selected(standings, groups, per_group)->Ok_0.candidates.len() == groups.len(),
    decreases groups.len(),
{
    if groups.len() > 0 {
        let rest = groups.drop_last();
        let g = groups.last();
        assert(groups[groups.len() - 1] == g);
        assert forall|j: int| 0 <= j < rest.len() implies members_of(
            standings,
            #[trigger] rest[j],
        ).len() > per_group by {
            assert(rest[j] == groups[j]);
        }
        lemma_selected_succeeds(standings, rest, per_group);
        let members = members_of(standings, g);
        lemma_members(standings, g);
        lemma_part_is_ranked(standings, members);
        lemma_ranking(members);
    }
}

/// When the group stage succeeds: there are group fixtures, each of them
/// can be entered and names its group, each decider value is for a team
/// with a standing, no two teams are level, and every group has more teams
/// than go through by rank.
pub proof fn lemma_group_stage_succeeds(t: Tournament)
    requires
        t.brackets.groups is Some,
        t.brackets.groups->Some_0@.len() > 0,
        groups_played(t.brackets.groups->Some_0@, t.tournament_name@) is Ok,
        unknown_decider(
            groups_played(t.brackets.groups->Some_0@, t.tournament_name@)->Ok_0.standings,
            deciders_of(t),
        ) is None,
        none_level(final_standings(t)),
        forall|j: int|
            0 <= j < groups_played(
                t.brackets.groups->Some_0@,
                t.tournament_name@,
            )->Ok_0.groups.len() ==> members_of(
                final_standings(t),
                #[trigger] groups_played(
                    t.brackets.groups->Some_0@,
                    t.tournament_name@,
                )->Ok_0.groups[j],
            ).len() > t.playoff_teams as int / groups_played(
                t.brackets.groups->Some_0@,
                t.tournament_name@,
            )->Ok_0.groups.len() as int,
    ensures
        group_stage(t) is Ok,
{
    let fixtures = t.brackets.groups->Some_0@;
    let tally = groups_played(fixtures, t.tournament_name@)->Ok_0;
    let standings = final_standings(t);
    let groups = tally.groups;
    lemma_groups_tally(fixtures, t.tournament_name@);
    lemma_groups_differ(fixtures, t.tournament_name@);
    lemma_decided(tally.standings, deciders_of(t));
    assert forall|a: int, b: int| 0 <= a < b < standings.len() implies (
    #[trigger] standings[a]).team != (#[trigger] standings[b]).team by {
        assert(standings[a].team == tally.standings[a].team);
        assert(standings[b].team == tally.standings[b].team);
    }
    assert(groups.len() > 0) by {
        let before = groups_played(fixtures.drop_last(), t.tournament_name@)->Ok_0.groups;
        let g = fixtures.last().group->Some_0;
        if before.contains(g) {
            let k = choose|k: int| 0 <= k < before.len() && before[k] == g;
            assert(k < before.len());
        }
    }
    let n = groups.len() as int;
    let per_group = t.playoff_teams as int / n;
    let wildcards = t.playoff_teams as int % n;
    assert(per_group >= 0 && 0 <= wildcards < n) by (nonlinear_arith)
        requires
            per_group == t.playoff_teams as int / n,
            wildcards == t.playoff_teams as int % n,
            n > 0,
            t.playoff_teams >= 0,
    ;
    lemma_selected_succeeds(standings, groups, per_group);
    lemma_selected_sound(standings, groups, per_group);
    let sel = selected(standings, groups, per_group)->Ok_0;
    assert(all_among(sel.candidates, standings));
    lemma_part_is_ranked(standings, sel.candidates);
    lemma_ranking(sel.candidates);
    assert(qualified(standings, groups, t.playoff_teams) is Ok);
    let qualifiers = qualified(standings, groups, t.playoff_teams)->Ok_0;
    lemma_eliminated(standings, qualifiers);
    lemma_part_is_ranked(standings, eliminated_of(standings, qualifiers));
}

} // verus!
