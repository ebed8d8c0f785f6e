use vstd::prelude::*;
use crate::ordering::{lemma_order_is_permutation, lemma_order_place, order_of};
use crate::statter::fixture::Fixture;
use crate::statter::groups::{decided, deciders_of, eliminated_of, eliminations, group_stage};
use crate::statter::groups::{groups_played, qualified, ranking, GroupTeam};
use crate::statter::placements::{entry_of, has_entry, is_entry_of, placed, side_updated, updated};
use crate::statter::placements::{lemma_placed, lemma_updated_shape, names_distinct};
use crate::statter::playoffs::{bracket_played, brackets_played, first_in, grand_final_played};
use crate::statter::playoffs::{lemma_table_decided, losers_played, playoffs_played};
use crate::statter::playoffs::{losers_ranks, playoffs_resolved, ranked_pair, rules_of};
use crate::statter::playoffs::{winners_played, winners_ranks};
use crate::statter::team::{TeamName, TeamPlacementView};
use crate::statter::tournament::{Stage, Tournament};

verus! {

/// Whether the table holds `name`.
pub open spec fn occurs(table: Seq<TeamPlacementView>, name: TeamName) -> bool {
    exists|i: int| 0 <= i < table.len() && (#[trigger] table[i]).team.name == name
}

/// Whether `name` is one of the two teams of one of the fixtures.
pub open spec fn plays_in_any(fixtures: Seq<Fixture>, name: TeamName) -> bool {
    exists|i: int|
        0 <= i < fixtures.len() && ((#[trigger] fixtures[i]).team1 == name || fixtures[i].team2
            == name)
}

/// Whether `name` is a team of one of the given fixtures, if there are any.
pub open spec fn plays_in(fixtures: Option<Vec<Fixture>>, name: TeamName) -> bool {
    match fixtures {
        Some(list) => plays_in_any(list@, name),
        None => false,
    }
}

/// Whether `name` is a team of a fixture that the tournament plays: of the
/// group stage, of the winners bracket or, where there is a losers bracket,
/// of that bracket or of the grand final.
pub open spec fn takes_part(t: Tournament, name: TeamName) -> bool {
    ||| plays_in(t.brackets.groups, name)
    ||| plays_in_any(t.brackets.winners@, name)
    ||| t.has_losers && (plays_in(t.brackets.losers, name) || plays_in(t.grand_final, name))
}

proof fn lemma_plays_step(fixtures: Seq<Fixture>, name: TeamName)
    requires
        fixtures.len() > 0,
    ensures
        plays_in_any(fixtures, name) <==> plays_in_any(fixtures.drop_last(), name)
            || fixtures.last().team1 == name || fixtures.last().team2 == name,
{
    let rest = fixtures.drop_last();
    if plays_in_any(fixtures, name) {
        let i = choose|i: int|
            0 <= i < fixtures.len() && ((#[trigger] fixtures[i]).team1 == name || fixtures[i].team2
                == name);
        if i < rest.len() {
            assert(rest[i] == fixtures[i]);
        }
    }
    if plays_in_any(rest, name) {
        let i = choose|i: int|
            0 <= i < rest.len() && ((#[trigger] rest[i]).team1 == name || rest[i].team2 == name);
        assert(fixtures[i] == rest[i]);
    }
    if fixtures.last().team1 == name || fixtures.last().team2 == name {
        assert(fixtures[fixtures.len() - 1] == fixtures.last());
    }
}

proof fn lemma_side_updated_teams(
    table: Seq<TeamPlacementView>,
    f: Fixture,
    first: bool,
    tournament_name: Seq<char>,
    name: TeamName,
)
    ensures
        occurs(side_updated(table, f, first, tournament_name), name) <==> occurs(table, name)
            || name == f.team_of(first),
{
    let team = f.team_of(first);
    let after = side_updated(table, f, first, tournament_name);
    if has_entry(table, team) {
        let i = entry_of(table, team);
        assert(is_entry_of(table, team, i));
        assert(after.len() == table.len());
        assert forall|k: int| 0 <= k < table.len() implies (#[trigger] after[k]).team.name
            == table[k].team.name by {}
        if occurs(table, name) {
            let k = choose|k: int| 0 <= k < table.len() && (#[trigger] table[k]).team.name == name;
            assert(after[k].team.name == name);
        }
        if name == team {
            assert(after[i].team.name == name);
        }
        if occurs(after, name) {
            let k = choose|k: int| 0 <= k < after.len() && (#[trigger] after[k]).team.name == name;
            assert(table[k].team.name == name);
        }
    } else {
        assert(after.len() == table.len() + 1);
        if occurs(table, name) {
            let k = choose|k: int| 0 <= k < table.len() && (#[trigger] table[k]).team.name == name;
            assert(after[k] == table[k]);
        }
        if name == team {
            assert(after[table.len() as int].team.name == name);
        }
        if occurs(after, name) {
            let k = choose|k: int| 0 <= k < after.len() && (#[trigger] after[k]).team.name == name;
            if k < table.len() {
                assert(table[k] == after[k]);
            }
        }
    }
}

proof fn lemma_updated_teams(
    table: Seq<TeamPlacementView>,
    f: Fixture,
    tournament_name: Seq<char>,
    name: TeamName,
)
    ensures
        occurs(updated(table, f, tournament_name), name) <==> occurs(table, name) || name == f.team1
            || name == f.team2,
{
    lemma_side_updated_teams(table, f, true, tournament_name, name);
    lemma_side_updated_teams(
        side_updated(table, f, true, tournament_name),
        f,
        false,
        tournament_name,
        name,
    );
}

proof fn lemma_placed_teams(
    table: Seq<TeamPlacementView>,
    team: TeamName,
    placement: u8,
    name: TeamName,
)
    ensures
        occurs(placed(table, team, placement), name) <==> occurs(table, name),
{
    let after = placed(table, team, placement);
    lemma_placed(table, team, placement);
    if occurs(table, name) {
        let k = choose|k: int| 0 <= k < table.len() && (#[trigger] table[k]).team.name == name;
        assert(after[k].team == table[k].team);
    }
    if occurs(after, name) {
        let k = choose|k: int| 0 <= k < after.len() && (#[trigger] after[k]).team.name == name;
        assert(after[k].team == table[k].team);
    }
}

proof fn lemma_ranked_pair_teams(
    table: Seq<TeamPlacementView>,
    f: Fixture,
    loser_rank: u8,
    winner_rank: u8,
    name: TeamName,
)
    ensures
        occurs(ranked_pair(table, f, loser_rank, winner_rank), name) <==> occurs(table, name),
{
    match f.decided_winner() {
        Some(w) => {
            let l = if w == f.team1 {
                f.team2
            } else {
                f.team1
            };
            lemma_placed_teams(table, l, loser_rank, name);
            lemma_placed_teams(placed(table, l, loser_rank), w, winner_rank, name);
        },
        None => {},
    }
}

/// A stage of the playoffs adds the teams of its fixtures to the table, and
/// no others.
pub proof fn lemma_bracket_teams(
    table: Seq<TeamPlacementView>,
    fixtures: Seq<Fixture>,
    loser_ranks: Seq<u8>,
    winner_ranks: Seq<u8>,
    stage: Stage,
    tournament_name: Seq<char>,
    name: TeamName,
)
    requires
        bracket_played(table, fixtures, loser_ranks, winner_ranks, stage, tournament_name) is Ok,
    ensures
        occurs(
            bracket_played(table, fixtures, loser_ranks, winner_ranks, stage, tournament_name)->Ok_0,
            name,
        ) <==> occurs(table, name) || plays_in_any(fixtures, name),
    decreases fixtures.len(),
{
    if fixtures.len() > 0 {
        let rest = fixtures.drop_last();
        let f = fixtures.last();
        lemma_bracket_teams(table, rest, loser_ranks, winner_ranks, stage, tournament_name, name);
        let t = bracket_played(table, rest, loser_ranks, winner_ranks, stage, tournament_name)->Ok_0;
        lemma_updated_teams(t, f, tournament_name, name);
        lemma_ranked_pair_teams(
            updated(t, f, tournament_name),
            f,
            loser_ranks[fixtures.len() - 1],
            winner_ranks[fixtures.len() - 1],
            name,
        );
        lemma_plays_step(fixtures, name);
    }
}

/// The brackets of the playoffs add the teams of their fixtures to the
/// table, and no others.
pub proof fn lemma_brackets_teams(table: Seq<TeamPlacementView>, t: Tournament, name: TeamName)
    requires
        brackets_played(table, t) is Ok,
    ensures
        occurs(brackets_played(table, t)->Ok_0, name) <==> occurs(table, name) || plays_in_any(
            t.brackets.winners@,
            name,
        ) || t.has_losers && (plays_in(t.brackets.losers, name) || plays_in(t.grand_final, name)),
{
    let ranks = winners_ranks(t.playoff_teams);
    let winners = t.brackets.winners@;
    lemma_bracket_teams(table, winners, ranks, ranks, Stage::WinnersBracket, t.tournament_name@, name);
    let played = bracket_played(
        table,
        winners,
        ranks,
        ranks,
        Stage::WinnersBracket,
        t.tournament_name@,
    )->Ok_0;
    let after_winners = winners_played(table, t)->Ok_0;
    if t.grand_final is None {
        let last = winners.last();
        match last.decided_winner() {
            Some(w) => {
                let l = if w == last.team1 {
                    last.team2
                } else {
                    last.team1
                };
                lemma_placed_teams(played, w, 1, name);
                lemma_placed_teams(placed(played, w, 1), l, 2, name);
            },
            None => {},
        }
    }
    assert(occurs(after_winners, name) <==> occurs(table, name) || plays_in_any(winners, name));
    if t.has_losers {
        let losers = t.brackets.losers->Some_0@;
        let lranks = losers_ranks(t.playoff_teams);
        lemma_bracket_teams(
            after_winners,
            losers,
            lranks,
            lranks,
            Stage::LosersBracket,
            t.tournament_name@,
            name,
        );
        let after_losers = losers_played(after_winners, t)->Ok_0;
        lemma_bracket_teams(
            after_losers,
            t.grand_final->Some_0@,
            seq![2u8, 2u8],
            seq![1u8, 1u8],
            Stage::GrandFinal,
            t.tournament_name@,
            name,
        );
        assert(grand_final_played(after_losers, t) is Ok);
    }
}

/// The group fixtures put their teams into the table, and no others.
pub proof fn lemma_groups_teams(fixtures: Seq<Fixture>, tournament_name: Seq<char>, name: TeamName)
    requires
        groups_played(fixtures, tournament_name) is Ok,
    ensures
        occurs(groups_played(fixtures, tournament_name)->Ok_0.table, name) <==> plays_in_any(
            fixtures,
            name,
        ),
    decreases fixtures.len(),
{
    if fixtures.len() > 0 {
        lemma_groups_teams(fixtures.drop_last(), tournament_name, name);
        let tally = groups_played(fixtures.drop_last(), tournament_name)->Ok_0;
        lemma_updated_teams(tally.table, fixtures.last(), tournament_name, name);
        lemma_plays_step(fixtures, name);
    }
}

proof fn lemma_eliminations_teams(
    table: Seq<TeamPlacementView>,
    ranked: Seq<GroupTeam>,
    count: int,
    name: TeamName,
)
    ensures
        occurs(eliminations(table, ranked, count), name) <==> occurs(table, name),
    decreases ranked.len(),
{
    if ranked.len() > 0 {
        lemma_placed_teams(table, ranked.last().team, count as u8, name);
        lemma_eliminations_teams(
            placed(table, ranked.last().team, count as u8),
            ranked.drop_last(),
            count - 1,
            name,
        );
    }
}

/// The playoffs hand back the teams of the table they start from and the
/// teams of their fixtures, and no others.
pub proof fn lemma_playoffs_teams(
    table: Seq<TeamPlacementView>,
    t: Tournament,
    qualifiers: Option<Seq<GroupTeam>>,
    name: TeamName,
)
    requires
        playoffs_resolved(table, t, qualifiers) is Ok,
    ensures
        occurs(playoffs_resolved(table, t, qualifiers)->Ok_0, name) <==> occurs(table, name)
            || plays_in_any(t.brackets.winners@, name) || t.has_losers && (plays_in(
            t.brackets.losers,
            name,
        ) || plays_in(t.grand_final, name)),
{
    lemma_brackets_teams(table, t, name);
    let after = brackets_played(table, t)->Ok_0;
    lemma_table_decided(after, deciders_of(t));
    let decided = playoffs_played(table, t)->Ok_0;
    assert(occurs(decided, name) <==> occurs(after, name)) by {
        if occurs(after, name) {
            let k = choose|k: int| 0 <= k < after.len() && (#[trigger] after[k]).team.name == name;
            assert(decided[k].team.name == after[k].team.name);
        }
        if occurs(decided, name) {
            let k = choose|k: int|
                0 <= k < decided.len() && (#[trigger] decided[k]).team.name == name;
            assert(decided[k].team.name == after[k].team.name);
        }
    }
    let rules = rules_of(t, qualifiers);
    let order = order_of(decided.len(), first_in(decided, rules));
    let v = playoffs_resolved(table, t, qualifiers)->Ok_0;
    lemma_order_is_permutation(decided.len(), first_in(decided, rules));
    if occurs(decided, name) {
        let i = choose|i: int| 0 <= i < decided.len() && (#[trigger] decided[i]).team.name == name;
        let k = lemma_order_place(decided.len(), first_in(decided, rules), i);
        assert(v[k].team.name == name);
    }
    if occurs(v, name) {
        let k = choose|k: int| 0 <= k < v.len() && (#[trigger] v[k]).team.name == name;
        assert(decided[order[k]].team.name == name);
    }
}

/// The standings of a tournament hold the teams of the fixtures that it
/// plays, and no others.
pub proof fn lemma_standings_hold_who_played(t: Tournament, name: TeamName)
    requires
        t.resolved() is Ok,
    ensures
        occurs(t.resolved()->Ok_0, name) <==> takes_part(t, name),
{
    match t.brackets.groups {
        Some(fixtures) => {
            let outcome = group_stage(t)->Ok_0;
            lemma_playoffs_teams(outcome.table, t, Some(outcome.qualifiers), name);
            lemma_groups_teams(fixtures@, t.tournament_name@, name);
            let tally = groups_played(fixtures@, t.tournament_name@)->Ok_0;
            let standings = decided(tally.standings, deciders_of(t))->Ok_0;
            let qualifiers = qualified(standings, tally.groups, t.playoff_teams)->Ok_0;
            let out = ranking(eliminated_of(standings, qualifiers))->Ok_0;
            lemma_eliminations_teams(tally.table, out, standings.len() as int, name);
        },
        None => {
            lemma_playoffs_teams(Seq::empty(), t, None, name);
        },
    }
}

/// The names of the teams of a table, in its order.
pub open spec fn names_of(table: Seq<TeamPlacementView>) -> Seq<TeamName> {
    Seq::new(table.len(), |i: int| table[i].team.name)
}

/// Entering a fixture gives no team a second entry.
pub proof fn lemma_updated_distinct(
    table: Seq<TeamPlacementView>,
    f: Fixture,
    tournament_name: Seq<char>,
)
    requires
        names_distinct(table),
    ensures
        names_distinct(updated(table, f, tournament_name)),
{
    let after = updated(table, f, tournament_name);
    lemma_updated_shape(table, f, tournament_name);
    assert(is_entry_of(after, f.team1, entry_of(after, f.team1)));
    assert(is_entry_of(after, f.team2, entry_of(after, f.team2)));
    assert forall|x: int, y: int| 0 <= x < y < after.len() implies (#[trigger] after[x]).team.name != (
    #[trigger] after[y]).team.name by {
        if y < table.len() {
            assert(after[x].team.name == table[x].team.name);
            assert(after[y].team.name == table[y].team.name);
        }
    }
}

/// A stage of the playoffs gives no team a second entry.
pub proof fn lemma_bracket_distinct(
    table: Seq<TeamPlacementView>,
    fixtures: Seq<Fixture>,
    loser_ranks: Seq<u8>,
    winner_ranks: Seq<u8>,
    stage: Stage,
    tournament_name: Seq<char>,
)
    requires
        names_distinct(table),
        bracket_played(table, fixtures, loser_ranks, winner_ranks, stage, tournament_name) is Ok,
    ensures
        names_distinct(
            bracket_played(table, fixtures, loser_ranks, winner_ranks, stage, tournament_name)->Ok_0,
        ),
    decreases fixtures.len(),
{
    if fixtures.len() > 0 {
        let rest = fixtures.drop_last();
        let f = fixtures.last();
        lemma_bracket_distinct(table, rest, loser_ranks, winner_ranks, stage, tournament_name);
        let t = bracket_played(table, rest, loser_ranks, winner_ranks, stage, tournament_name)->Ok_0;
        lemma_updated_distinct(t, f, tournament_name);
        let entered = updated(t, f, tournament_name);
        match f.decided_winner() {
            Some(w) => {
                let l = if w == f.team1 {
                    f.team2
                } else {
                    f.team1
                };
                lemma_placed(entered, l, loser_ranks[fixtures.len() - 1]);
                lemma_placed(
                    placed(entered, l, loser_ranks[fixtures.len() - 1]),
                    w,
                    winner_ranks[fixtures.len() - 1],
                );
            },
            None => {},
        }
    }
}

/// A table with one entry for a team has as many entries as there are
/// teams in a list without repetitions that holds just the teams of the
/// table.
pub proof fn lemma_as_many_as_teams(table: Seq<TeamPlacementView>, teams: Seq<TeamName>)
    requires
        names_distinct(table),
        teams.no_duplicates(),
        forall|name: TeamName| teams.contains(name) <==> occurs(table, name),
    ensures
        table.len() == teams.len(),
{
    let names = names_of(table);
    assert(names.no_duplicates()) by {
        assert forall|i: int, j: int|
            0 <= i < names.len() && 0 <= j < names.len() && i != j implies names[i]
            != names[j] by {
            if i < j {
                assert(table[i].team.name != table[j].team.name);
            } else {
                assert(table[j].team.name != table[i].team.name);
            }
        }
    }
    assert forall|name: TeamName| names.contains(name) <==> occurs(table, name) by {
        if names.contains(name) {
            let i = choose|i: int| 0 <= i < names.len() && names[i] == name;
            assert(table[i].team.name == name);
        }
        if occurs(table, name) {
            let i = choose|i: int| 0 <= i < table.len() && (#[trigger] table[i]).team.name == name;
            assert(names[i] == name);
        }
    }
    assert(names.to_set() =~= teams.to_set());
    names.unique_seq_to_set();
    teams.unique_seq_to_set();
}

} // verus!
