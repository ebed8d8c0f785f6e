use vstd::prelude::*;
use crate::ordering::{lemma_order_place, order_of};
use crate::statter::fixture::Fixture;
use crate::statter::groups::deciders_of;
use crate::statter::participants::{lemma_as_many_as_teams, lemma_bracket_distinct};
use crate::statter::participants::{lemma_brackets_teams, occurs, plays_in_any};
use crate::statter::placements::{entry_of, has_entry, is_entry_of, names_distinct, placed};
use crate::statter::placements::{lemma_placed, lemma_placed_shape, lemma_updated_shape};
use crate::statter::placements::{update_fault, updated};
use crate::statter::playoffs::brackets_played;
use crate::statter::playoffs::{bracket_fault, bracket_played, differ_in_standing, final_order};
use crate::statter::playoffs::{first_in, goes_first, rank_key, ranked_pair, rules_of};
use crate::statter::playoffs::{lemma_bracket_fault, lemma_bracket_ok_decided};
use crate::statter::playoffs::{lemma_distinct_standings_have_an_order, lemma_final_order_is_sorted};
use crate::statter::playoffs::{winners_played, winners_ranks};
use crate::statter::stages::lemma_winners_rank_bounds;
use crate::statter::team::{TeamName, TeamPlacementView};
use crate::statter::tournament::{Stage, Tournament, TournamentError};

verus! {

/// When a single elimination is owed its standings: the teams of the
/// winners bracket are as many as there are playoff teams, the bracket has
/// one fixture less, each fixture has a winner, no grand final follows, and
/// any two teams that the bracket leaves on the same rank differ in goal
/// difference or in goals scored. Then the tournament is resolved, and each
/// playoff team has one of the ranks 1, 2, 3 and so on.
pub proof fn lemma_single_elimination_is_resolved(t: Tournament, teams: Seq<TeamName>)
    requires
        t.brackets.groups is None,
        !t.has_losers,
        t.grand_final is None,
        t.head_to_head is None,
        t.playoff_teams >= 2,
        teams.no_duplicates(),
        teams.len() == t.playoff_teams,
        forall|name: TeamName| teams.contains(name) <==> plays_in_any(t.brackets.winners@, name),
        t.brackets.winners@.len() == t.playoff_teams - 1,
        bracket_fault(t.brackets.winners@, Stage::WinnersBracket) is None,
        winners_played(Seq::empty(), t) is Ok ==> {
            let table = winners_played(Seq::empty(), t)->Ok_0;
            forall|i: int, j: int|
                0 <= i < j < table.len() ==> differ_in_standing(
                    #[trigger] table[i],
                    #[trigger] table[j],
                )
        },
    ensures
        t.resolved() is Ok,
        t.resolved()->Ok_0.len() == t.playoff_teams,
        forall|k: int|
            0 <= k < t.playoff_teams ==> (#[trigger] t.resolved()->Ok_0[k]).placement == Some(
                (k + 1) as u8,
            ),
{
    let ranks = winners_ranks(t.playoff_teams);
    let winners = t.brackets.winners@;
    let empty = Seq::<TeamPlacementView>::empty();
    lemma_bracket_fault(empty, winners, ranks, ranks, Stage::WinnersBracket, t.tournament_name@);
    let played = bracket_played(
        empty,
        winners,
        ranks,
        ranks,
        Stage::WinnersBracket,
        t.tournament_name@,
    )->Ok_0;
    lemma_bracket_distinct(empty, winners, ranks, ranks, Stage::WinnersBracket, t.tournament_name@);
    let table = winners_played(empty, t)->Ok_0;
    assert(brackets_played(empty, t) == Ok::<Seq<TeamPlacementView>, TournamentError>(table));
    match winners.last().decided_winner() {
        Some(w) => {
            let l = if w == winners.last().team1 {
                winners.last().team2
            } else {
                winners.last().team1
            };
            lemma_placed(played, w, 1);
            lemma_placed(placed(played, w, 1), l, 2);
        },
        None => {},
    }
    assert(names_distinct(table));
    assert forall|name: TeamName| teams.contains(name) <==> occurs(table, name) by {
        lemma_brackets_teams(empty, t, name);
    }
    lemma_as_many_as_teams(table, teams);
    let rules = rules_of(t, None);
    lemma_distinct_standings_have_an_order(table, rules);
    lemma_final_order_is_sorted(table, rules);
    assert(deciders_of(t) =~= Seq::empty());
}

/// Whether every entry holds a rank of at least `lo`.
pub open spec fn ranked_from(table: Seq<TeamPlacementView>, lo: int) -> bool {
    forall|k: int| 0 <= k < table.len() ==> rank_key((#[trigger] table[k]).placement) >= lo
}

/// The team of a fixture that is not `team`.
pub open spec fn other_team(f: Fixture, team: TeamName) -> TeamName {
    if team == f.team1 {
        f.team2
    } else {
        f.team1
    }
}

/// What a decided fixture between two different teams does to the table:
/// the first entry of its winner and that of its loser hold the ranks
/// given, and every other entry was there before and keeps its rank.
pub proof fn lemma_fixture_ranked(
    table: Seq<TeamPlacementView>,
    f: Fixture,
    tournament_name: Seq<char>,
    loser_rank: u8,
    winner_rank: u8,
)
    requires
        update_fault(f, false) is None,
        f.team1 != f.team2,
    ensures
        f.decided_winner() is Some,
        ({
            let w = f.decided_winner()->Some_0;
            let l = other_team(f, w);
            let after = ranked_pair(updated(table, f, tournament_name), f, loser_rank, winner_rank);
            &&& after.len() >= table.len()
            &&& has_entry(after, w)
            &&& has_entry(after, l)
            &&& w != l
            &&& after[entry_of(after, w)].placement == Some(winner_rank)
            &&& after[entry_of(after, l)].placement == Some(loser_rank)
            &&& forall|k: int|
                0 <= k < after.len() && k != entry_of(after, w) && k != entry_of(after, l) ==> k
                    < table.len() && (#[trigger] after[k]).placement == table[k].placement
        }),
{
    let w = f.decided_winner()->Some_0;
    let l = other_team(f, w);
    let entered = updated(table, f, tournament_name);
    lemma_updated_shape(table, f, tournament_name);
    let first = placed(entered, l, loser_rank);
    lemma_placed_shape(entered, l, loser_rank);
    let after = placed(first, w, winner_rank);
    lemma_placed_shape(first, w, winner_rank);
    assert(after == ranked_pair(entered, f, loser_rank, winner_rank));
    let ew = entry_of(entered, w);
    let el = entry_of(entered, l);
    assert(is_entry_of(entered, w, ew));
    assert(is_entry_of(entered, l, el));
    assert(entry_of(first, w) == ew);
    assert(entry_of(first, l) == el);
    assert(entry_of(after, w) == ew);
    assert(entry_of(after, l) == el);
    assert(ew != el);
    assert(after[el].placement == first[el].placement);
    assert forall|k: int|
        0 <= k < after.len() && k != entry_of(after, w) && k != entry_of(after, l) implies k
        < table.len() && (#[trigger] after[k]).placement == table[k].placement by {
        assert(after[k].placement == first[k].placement);
        assert(first[k].placement == entered[k].placement);
    }
}

/// A stage of the playoffs in which no team plays itself and every rank
/// given is at least `lo` leaves every entry on a rank of at least `lo`, if
/// it found the table so.
pub proof fn lemma_bracket_ranked(
    table: Seq<TeamPlacementView>,
    fixtures: Seq<Fixture>,
    loser_ranks: Seq<u8>,
    winner_ranks: Seq<u8>,
    stage: Stage,
    tournament_name: Seq<char>,
    lo: int,
)
    requires
        ranked_from(table, lo),
        bracket_played(table, fixtures, loser_ranks, winner_ranks, stage, tournament_name) is Ok,
        forall|i: int|
            0 <= i < fixtures.len() ==> (#[trigger] fixtures[i]).team1 != fixtures[i].team2,
        forall|i: int| 0 <= i < fixtures.len() ==> #[trigger] loser_ranks[i] >= lo,
        forall|i: int| 0 <= i < fixtures.len() ==> #[trigger] winner_ranks[i] >= lo,
    ensures
        ranked_from(
            bracket_played(table, fixtures, loser_ranks, winner_ranks, stage, tournament_name)->Ok_0,
            lo,
        ),
    decreases fixtures.len(),
{
    if fixtures.len() > 0 {
        let rest = fixtures.drop_last();
        let f = fixtures.last();
        let last = fixtures.len() - 1;
        assert forall|i: int| 0 <= i < rest.len() implies (#[trigger] rest[i]).team1
            != rest[i].team2 by {
            assert(rest[i] == fixtures[i]);
        }
        lemma_bracket_ranked(table, rest, loser_ranks, winner_ranks, stage, tournament_name, lo);
        let before = bracket_played(
            table,
            rest,
            loser_ranks,
            winner_ranks,
            stage,
            tournament_name,
        )->Ok_0;
        assert(fixtures[last] == f);
        lemma_fixture_ranked(before, f, tournament_name, loser_ranks[last], winner_ranks[last]);
        let after = bracket_played(
            table,
            fixtures,
            loser_ranks,
            winner_ranks,
            stage,
            tournament_name,
        )->Ok_0;
        let w = f.decided_winner()->Some_0;
        let l = other_team(f, w);
        assert forall|k: int| 0 <= k < after.len() implies rank_key((#[trigger] after[k]).placement)
            >= lo by {
            if k != entry_of(after, w) && k != entry_of(after, l) {
                assert(rank_key(before[k].placement) >= lo);
            }
        }
    }
}

/// In a single elimination in which no team plays itself, the winner of the
/// final is first in the standings and its loser is second.
pub proof fn lemma_final_decides_the_top(t: Tournament)
    requires
        t.brackets.groups is None,
        !t.has_losers,
        t.grand_final is None,
        t.head_to_head is None,
        forall|i: int|
            0 <= i < t.brackets.winners@.len() ==> (#[trigger] t.brackets.winners@[i]).team1
                != t.brackets.winners@[i].team2,
        t.resolved() is Ok,
    ensures
        t.brackets.winners@.len() >= 1,
        t.resolved()->Ok_0.len() >= 2,
        t.brackets.winners@.last().decided_winner() is Some,
        t.resolved()->Ok_0[0].team.name == t.brackets.winners@.last().decided_winner()->Some_0,
        t.resolved()->Ok_0[1].team.name == other_team(
            t.brackets.winners@.last(),
            t.brackets.winners@.last().decided_winner()->Some_0,
        ),
{
    let fixtures = t.brackets.winners@;
    let n = t.playoff_teams as int;
    let ranks = winners_ranks(t.playoff_teams);
    let name = t.tournament_name@;
    let empty = Seq::<TeamPlacementView>::empty();
    assert(winners_played(empty, t) is Ok);
    assert(fixtures.len() == n - 1 && n >= 2);
    let rest = fixtures.drop_last();
    let f = fixtures.last();
    let last = n - 2;
    assert(fixtures[last] == f);
    assert forall|i: int| 0 <= i < fixtures.len() implies 2 <= #[trigger] ranks[i] && (i < last
        ==> 3 <= ranks[i]) by {
        lemma_winners_rank_bounds(n, i);
    }
    assert forall|i: int| 0 <= i < rest.len() implies (#[trigger] rest[i]).team1
        != rest[i].team2 by {
        assert(rest[i] == fixtures[i]);
    }
    lemma_bracket_ok_decided(empty, fixtures, ranks, ranks, Stage::WinnersBracket, name, last);
    lemma_bracket_ranked(empty, rest, ranks, ranks, Stage::WinnersBracket, name, 3);
    let before = bracket_played(empty, rest, ranks, ranks, Stage::WinnersBracket, name)->Ok_0;
    lemma_fixture_ranked(before, f, name, ranks[last], ranks[last]);
    let played = bracket_played(empty, fixtures, ranks, ranks, Stage::WinnersBracket, name)->Ok_0;
    let w = f.decided_winner()->Some_0;
    let l = other_team(f, w);
    let ew = entry_of(played, w);
    let el = entry_of(played, l);
    assert(is_entry_of(played, w, ew));
    assert(is_entry_of(played, l, el));
    let crowned = placed(played, w, 1);
    lemma_placed_shape(played, w, 1);
    let table = placed(crowned, l, 2);
    lemma_placed_shape(crowned, l, 2);
    assert(entry_of(crowned, l) == el);
    assert(table == winners_played(empty, t)->Ok_0);
    assert(table[ew].placement == Some(1u8)) by {
        assert(table[ew].placement == crowned[ew].placement);
    }
    assert(table[el].placement == Some(2u8));
    assert forall|k: int| 0 <= k < table.len() && k != ew && k != el implies rank_key(
        (#[trigger] table[k]).placement,
    ) >= 3 by {
        assert(table[k].placement == crowned[k].placement);
        assert(crowned[k].placement == played[k].placement);
        assert(rank_key(before[k].placement) >= 3);
    }
    assert(deciders_of(t) =~= Seq::empty());
    let rules = rules_of(t, None);
    lemma_final_order_is_sorted(table, rules);
    let order = final_order(table, rules)->Ok_0;
    assert(order == order_of(table.len(), first_in(table, rules)));
    let standings = t.resolved()->Ok_0;
    assert(standings.len() == table.len());
    let p = lemma_order_place(table.len(), first_in(table, rules), ew);
    if p != 0 {
        assert(goes_first(table[order[0]], table[order[p]], rules) == Ok::<bool, TournamentError>(
            true,
        ));
        assert(order[0] != order[p]);
        if order[0] != el {
            assert(rank_key(table[order[0]].placement) >= 3);
        }
    }
    let q = lemma_order_place(table.len(), first_in(table, rules), el);
    assert(q != 0);
    if q != 1 {
        assert(goes_first(table[order[1]], table[order[q]], rules) == Ok::<bool, TournamentError>(
            true,
        ));
        assert(order[1] != order[q]);
        assert(order[1] != order[0]);
        assert(rank_key(table[order[1]].placement) >= 3);
    }
    assert(standings[0].team.name == table[ew].team.name);
    assert(standings[1].team.name == table[el].team.name);
    assert(table[ew].team == played[ew].team) by {
        assert(table[ew].team == crowned[ew].team);
    }
    assert(table[el].team == played[el].team) by {
        assert(table[el].team == crowned[el].team);
    }
}

} // verus!
