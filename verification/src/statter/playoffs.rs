use vstd::prelude::*;
use crate::statter::fixture::Fixture;
use crate::statter::groups::{GroupStage, GroupTeam, GroupTeams, Verdict, MAX_GROUP_FIXTURES};
use crate::statter::groups::{deciders_of, find_standing, has_standing, standing_of};
use crate::ordering::{first_fault, indices, is_permutation, order_of, row_fault, slot};
use crate::ordering::{lemma_order_is_permutation, permuted};
use crate::ordering::{is_strict_order, lemma_first_fault, lemma_order_strictly_in_order};
use crate::ordering::lemma_fault_found;
use crate::statter::placements::with_decider;
use crate::statter::placements::{TournamentPlacements, UpdateError, COUNTER_LIMIT};
use crate::statter::placements::{entry_of, has_entry, names_distinct, placed, placement_views};
use crate::statter::placements::{table_bounded, update_fault, updated};
use crate::statter::placements::{lemma_placed, lemma_table_bounded_mono, lemma_updated};
use crate::statter::stages::{losers_rank, losers_stage_ranks, winners_rank, winners_stage_ranks};
use crate::statter::team::{TeamName, TeamPlacement, TeamPlacementView, TEAM_COUNT};
use crate::statter::team::lemma_distinct_names_are_few;
use crate::statter::tournament::{HeadToHead, Stage, Tournament, TournamentError};
use crate::statter::tournament::TournamentFailure;

verus! {

/// The table after a decided fixture gave its loser and its winner their
/// ranks.
pub open spec fn ranked_pair(
    table: Seq<TeamPlacementView>,
    f: Fixture,
    loser_rank: u8,
    winner_rank: u8,
) -> Seq<TeamPlacementView> {
    match f.decided_winner() {
        Some(w) => {
            let l = if w == f.team1 {
                f.team2
            } else {
                f.team1
            };
            placed(placed(table, l, loser_rank), w, winner_rank)
        },
        None => table,
    }
}

/// The table after the fixtures of a stage of the playoffs: each fixture is
/// entered, then its loser and its winner get the ranks that the lists hold
/// for the fixture. A fixture that cannot be entered, a draw too, stops it.
pub open spec fn bracket_played(
    table: Seq<TeamPlacementView>,
    fixtures: Seq<Fixture>,
    loser_ranks: Seq<u8>,
    winner_ranks: Seq<u8>,
    stage: Stage,
    tournament_name: Seq<char>,
) -> Result<Seq<TeamPlacementView>, TournamentError>
    decreases fixtures.len(),
{
    if fixtures.len() == 0 {
        Ok(table)
    } else {
        match bracket_played(
            table,
            fixtures.drop_last(),
            loser_ranks,
            winner_ranks,
            stage,
            tournament_name,
        ) {
            Err(e) => Err(e),
            Ok(t) => {
                let f = fixtures.last();
                match update_fault(f, false) {
                    Some(e) => Err(TournamentError::Update(stage, e)),
                    None => Ok(
                        ranked_pair(
                            updated(t, f, tournament_name),
                            f,
                            loser_ranks[fixtures.len() - 1],
                            winner_ranks[fixtures.len() - 1],
                        ),
                    ),
                }
            },
        }
    }
}

/// The first fault among the fixtures of a stage of the playoffs: a fixture
/// that cannot be entered, a draw too.
pub open spec fn bracket_fault(fixtures: Seq<Fixture>, stage: Stage) -> Option<TournamentError>
    decreases fixtures.len(),
{
    if fixtures.len() == 0 {
        None
    } else {
        match bracket_fault(fixtures.drop_last(), stage) {
            Some(e) => Some(e),
            None => match update_fault(fixtures.last(), false) {
                Some(e) => Some(TournamentError::Update(stage, e)),
                None => None,
            },
        }
    }
}

/// A stage of the playoffs fails just when one of its fixtures has a fault,
/// and then with the first such fault: whether it fails does not depend on
/// the table.
pub proof fn lemma_bracket_fault(
    table: Seq<TeamPlacementView>,
    fixtures: Seq<Fixture>,
    loser_ranks: Seq<u8>,
    winner_ranks: Seq<u8>,
    stage: Stage,
    tournament_name: Seq<char>,
)
    ensures
        match bracket_fault(fixtures, stage) {
            Some(e) => bracket_played(
                table,
                fixtures,
                loser_ranks,
                winner_ranks,
                stage,
                tournament_name,
            ) == Err::<Seq<TeamPlacementView>, TournamentError>(e),
            None => bracket_played(
                table,
                fixtures,
                loser_ranks,
                winner_ranks,
                stage,
                tournament_name,
            ) is Ok,
        },
    decreases fixtures.len(),
{
    if fixtures.len() > 0 {
        lemma_bracket_fault(
            table,
            fixtures.drop_last(),
            loser_ranks,
            winner_ranks,
            stage,
            tournament_name,
        );
    }
}

/// A fault among the first `n` fixtures is the first fault of all of them.
pub proof fn lemma_bracket_fault_prefix(fixtures: Seq<Fixture>, stage: Stage, n: int)
    requires
        0 <= n <= fixtures.len(),
        bracket_fault(fixtures.take(n), stage) is Some,
    ensures
        bracket_fault(fixtures, stage) == bracket_fault(fixtures.take(n), stage),
    decreases fixtures.len(),
{
    if n == fixtures.len() {
        assert(fixtures.take(n) =~= fixtures);
    } else {
        assert(fixtures.drop_last().take(n) =~= fixtures.take(n));
        lemma_bracket_fault_prefix(fixtures.drop_last(), stage, n);
    }
}

/// A fault in the first `n` fixtures of a stage is the fault of all of them.
pub proof fn lemma_bracket_prefix_err(
    table: Seq<TeamPlacementView>,
    fixtures: Seq<Fixture>,
    loser_ranks: Seq<u8>,
    winner_ranks: Seq<u8>,
    stage: Stage,
    tournament_name: Seq<char>,
    n: int,
)
    requires
        0 <= n <= fixtures.len(),
        bracket_played(table, fixtures.take(n), loser_ranks, winner_ranks, stage, tournament_name) is Err,
    ensures
        bracket_played(table, fixtures, loser_ranks, winner_ranks, stage, tournament_name)
            == bracket_played(
            table,
            fixtures.take(n),
            loser_ranks,
            winner_ranks,
            stage,
            tournament_name,
        ),
    decreases fixtures.len(),
{
    if n == fixtures.len() {
        assert(fixtures.take(n) =~= fixtures);
    } else {
        assert(fixtures.drop_last().take(n) =~= fixtures.take(n));
        lemma_bracket_prefix_err(
            table,
            fixtures.drop_last(),
            loser_ranks,
            winner_ranks,
            stage,
            tournament_name,
            n,
        );
    }
}

/// Where the fixtures of a stage could all be entered, each of them has a
/// winner.
pub proof fn lemma_bracket_ok_decided(
    table: Seq<TeamPlacementView>,
    fixtures: Seq<Fixture>,
    loser_ranks: Seq<u8>,
    winner_ranks: Seq<u8>,
    stage: Stage,
    tournament_name: Seq<char>,
    k: int,
)
    requires
        0 <= k < fixtures.len(),
        bracket_played(table, fixtures, loser_ranks, winner_ranks, stage, tournament_name) is Ok,
    ensures
        update_fault(fixtures[k], false) is None,
        fixtures[k].penalty_fault() is None,
        fixtures[k].decided_winner() is Some,
    decreases fixtures.len(),
{
    if k < fixtures.len() - 1 {
        lemma_bracket_ok_decided(
            table,
            fixtures.drop_last(),
            loser_ranks,
            winner_ranks,
            stage,
            tournament_name,
            k,
        );
    }
}

/// The ranks that the fixtures of a winners bracket of `teams` teams give.
pub open spec fn winners_ranks(teams: u8) -> Seq<u8> {
    Seq::new((teams - 1) as nat, |i: int| winners_rank(teams as int, i) as u8)
}

/// The ranks that the fixtures of a losers bracket of `teams` teams give.
pub open spec fn losers_ranks(teams: u8) -> Seq<u8> {
    Seq::new((teams - 2) as nat, |i: int| losers_rank(teams as int, i) as u8)
}

/// The table after the winners bracket: it must have one fixture less than
/// there are playoff teams; each fixture gives both of its teams the rank of
/// its stage; and where no grand final follows, the last fixture gives its
/// winner rank 1 and its loser rank 2.
pub open spec fn winners_played(table: Seq<TeamPlacementView>, t: Tournament) -> Result<
    Seq<TeamPlacementView>,
    TournamentError,
> {
    let winners = t.brackets.winners@;
    if t.playoff_teams == 0 {
        Err(TournamentError::TooFewPlayoffTeams(0))
    } else if winners.len() != t.playoff_teams - 1 {
        Err(
            TournamentError::WrongWinnersFixtureCount {
                expected: (t.playoff_teams - 1) as usize,
                found: winners.len() as usize,
            },
        )
    } else {
        let ranks = winners_ranks(t.playoff_teams);
        match bracket_played(
            table,
            winners,
            ranks,
            ranks,
            Stage::WinnersBracket,
            t.tournament_name@,
        ) {
            Err(e) => Err(e),
            Ok(after) => if t.grand_final is Some {
                Ok(after)
            } else if winners.len() == 0 {
                Err(TournamentError::MissingFinal)
            } else {
                let last = winners.last();
                match last.decided_winner() {
                    Some(w) => {
                        let l = if w == last.team1 {
                            last.team2
                        } else {
                            last.team1
                        };
                        Ok(placed(placed(after, w, 1), l, 2))
                    },
                    None => Ok(after),
                }
            },
        }
    }
}

/// The table after the losers bracket: it must have two fixtures less than
/// there are playoff teams, and each fixture gives both of its teams the
/// rank of its stage.
pub open spec fn losers_played(table: Seq<TeamPlacementView>, t: Tournament) -> Result<
    Seq<TeamPlacementView>,
    TournamentError,
> {
    match t.brackets.losers {
        None => Err(TournamentError::MissingLosersBracket),
        Some(losers) => if t.playoff_teams < 2 {
            Err(TournamentError::TooFewPlayoffTeams(t.playoff_teams))
        } else if losers@.len() != t.playoff_teams - 2 {
            Err(
                TournamentError::WrongLosersFixtureCount {
                    expected: (t.playoff_teams - 2) as usize,
                    found: losers@.len() as usize,
                },
            )
        } else {
            let ranks = losers_ranks(t.playoff_teams);
            bracket_played(table, losers@, ranks, ranks, Stage::LosersBracket, t.tournament_name@)
        },
    }
}

/// The rank that `team` holds in the table, if it has an entry with one.
pub open spec fn rank_of(table: Seq<TeamPlacementView>, team: TeamName) -> Option<u8> {
    if has_entry(table, team) {
        table[entry_of(table, team)].placement
    } else {
        None
    }
}

/// The team of the grand final's first fixture that came from the losers
/// bracket: the first team if it holds rank 3, else the second.
pub open spec fn team_from_losers(table: Seq<TeamPlacementView>, first: Fixture) -> TeamName {
    if rank_of(table, first.team1) == Some(3u8) {
        first.team1
    } else {
        first.team2
    }
}

/// What is wrong with the grand final before its fixtures are entered, if
/// anything is: the number of its fixtures, a team that did not come out of
/// the brackets, a first fixture that cannot be read, a team from the losers
/// bracket that won the only fixture, or a second fixture after the team
/// from the winners bracket won the first.
pub open spec fn grand_final_fault(table: Seq<TeamPlacementView>, fixtures: Seq<Fixture>) -> Option<
    TournamentError,
> {
    if fixtures.len() == 0 || fixtures.len() > 2 {
        Some(TournamentError::WrongGrandFinalFixtureCount(fixtures.len() as usize))
    } else {
        let first = fixtures[0];
        if rank_of(table, first.team1) is None {
            Some(TournamentError::UnknownFinalist(first.team1))
        } else if !has_entry(table, first.team2) {
            Some(TournamentError::UnknownFinalist(first.team2))
        } else {
            match first.penalty_fault() {
                Some(e) => Some(
                    TournamentError::Update(Stage::GrandFinal, UpdateError::Fixture(e)),
                ),
                None => match first.decided_winner() {
                    Some(w) => if fixtures.len() == 1 && w == team_from_losers(table, first) {
                        Some(TournamentError::MissingDecider(w))
                    } else if fixtures.len() == 2 && w != team_from_losers(table, first) {
                        Some(TournamentError::NeedlessDecider(w))
                    } else {
                        None
                    },
                    None => None,
                },
            }
        }
    }
}

/// The table after the grand final: each of its fixtures gives its loser
/// rank 2 and its winner rank 1.
pub open spec fn grand_final_played(table: Seq<TeamPlacementView>, t: Tournament) -> Result<
    Seq<TeamPlacementView>,
    TournamentError,
> {
    match t.grand_final {
        None => Err(TournamentError::MissingGrandFinal),
        Some(fixtures) => match grand_final_fault(table, fixtures@) {
            Some(e) => Err(e),
            None => bracket_played(
                table,
                fixtures@,
                seq![2u8, 2u8],
                seq![1u8, 1u8],
                Stage::GrandFinal,
                t.tournament_name@,
            ),
        },
    }
}

/// The table after all brackets of the playoffs.
pub open spec fn brackets_played(table: Seq<TeamPlacementView>, t: Tournament) -> Result<
    Seq<TeamPlacementView>,
    TournamentError,
> {
    match winners_played(table, t) {
        Err(e) => Err(e),
        Ok(after_winners) => if !t.has_losers {
            Ok(after_winners)
        } else {
            match losers_played(after_winners, t) {
                Err(e) => Err(e),
                Ok(after_losers) => grand_final_played(after_losers, t),
            }
        },
    }
}

/// The number of entries without a rank.
pub open spec fn unranked(table: Seq<TeamPlacementView>) -> nat
    decreases table.len(),
{
    if table.len() == 0 {
        0
    } else {
        unranked(table.drop_last()) + if table.last().placement is None {
            1nat
        } else {
            0nat
        }
    }
}

/// The table with the decider values filled in, or the first team with a
/// decider value and no entry.
pub open spec fn table_decided(table: Seq<TeamPlacementView>, deciders: Seq<HeadToHead>) -> Result<
    Seq<TeamPlacementView>,
    TournamentError,
>
    decreases deciders.len(),
{
    if deciders.len() == 0 {
        Ok(table)
    } else {
        match table_decided(table, deciders.drop_last()) {
            Err(e) => Err(e),
            Ok(t) => {
                let d = deciders.last();
                if has_entry(t, d.team) {
                    Ok(with_decider(t, d.team, d.decider_points))
                } else {
                    Err(TournamentError::UnknownHeadToHeadTeam(d.team))
                }
            },
        }
    }
}

/// Whether two tables hold the same teams at the same places.
pub open spec fn same_names(a: Seq<TeamPlacementView>, b: Seq<TeamPlacementView>) -> bool {
    &&& a.len() == b.len()
    &&& forall|i: int| 0 <= i < a.len() ==> (#[trigger] a[i]).team.name == b[i].team.name
}

/// The first team with a decider value and no entry in the table.
pub open spec fn unknown_in_table(table: Seq<TeamPlacementView>, deciders: Seq<HeadToHead>) -> Option<
    TeamName,
>
    decreases deciders.len(),
{
    if deciders.len() == 0 {
        None
    } else {
        match unknown_in_table(table, deciders.drop_last()) {
            Some(team) => Some(team),
            None => if has_entry(table, deciders.last().team) {
                None
            } else {
                Some(deciders.last().team)
            },
        }
    }
}

/// Tables that hold the same teams at the same places have entries of the
/// same teams.
pub proof fn lemma_same_names(a: Seq<TeamPlacementView>, b: Seq<TeamPlacementView>, team: TeamName)
    requires
        same_names(a, b),
    ensures
        has_entry(a, team) == has_entry(b, team),
{
    if has_entry(a, team) {
        let i = entry_of(a, team);
        assert(crate::statter::placements::is_entry_of(b, team, i)) by {
            assert(a[i].team.name == b[i].team.name);
            assert forall|j: int| 0 <= j < i implies b[j].team.name != team by {
                assert(a[j].team.name == b[j].team.name);
            }
        }
    }
    if has_entry(b, team) {
        let i = entry_of(b, team);
        assert(crate::statter::placements::is_entry_of(a, team, i)) by {
            assert(a[i].team.name == b[i].team.name);
            assert forall|j: int| 0 <= j < i implies a[j].team.name != team by {
                assert(a[j].team.name == b[j].team.name);
            }
        }
    }
}

/// The decider values can be filled into the table just when each of them
/// is for a team with an entry; the fault is the first team without one; and
/// filling them in moves no team.
pub proof fn lemma_table_decided(table: Seq<TeamPlacementView>, deciders: Seq<HeadToHead>)
    ensures
        match unknown_in_table(table, deciders) {
            Some(team) => table_decided(table, deciders) == Err::<
                Seq<TeamPlacementView>,
                TournamentError,
            >(TournamentError::UnknownHeadToHeadTeam(team)),
            None => table_decided(table, deciders) is Ok && same_names(
                table_decided(table, deciders)->Ok_0,
                table,
            ),
        },
    decreases deciders.len(),
{
    if deciders.len() > 0 {
        lemma_table_decided(table, deciders.drop_last());
        if unknown_in_table(table, deciders.drop_last()) is None {
            let t = table_decided(table, deciders.drop_last())->Ok_0;
            let d = deciders.last();
            lemma_same_names(t, table, d.team);
            if has_entry(t, d.team) {
                let after = table_decided(table, deciders)->Ok_0;
                assert forall|k: int| 0 <= k < after.len() implies (#[trigger] after[k]).team.name
                    == table[k].team.name by {
                    assert(t[k].team.name == table[k].team.name);
                }
            }
        }
    }
}

/// An unknown team among the first `n` decider values is the first unknown
/// team of the whole list.
pub proof fn lemma_unknown_in_table_prefix(
    table: Seq<TeamPlacementView>,
    deciders: Seq<HeadToHead>,
    n: int,
)
    requires
        0 <= n <= deciders.len(),
        unknown_in_table(table, deciders.take(n)) is Some,
    ensures
        unknown_in_table(table, deciders) == unknown_in_table(table, deciders.take(n)),
    decreases deciders.len(),
{
    if n == deciders.len() {
        assert(deciders.take(n) =~= deciders);
    } else {
        assert(deciders.drop_last().take(n) =~= deciders.take(n));
        lemma_unknown_in_table_prefix(table, deciders.drop_last(), n);
    }
}

/// The first team with a decider value and no entry in the table.
fn find_unknown_in_table(table: &TournamentPlacements, deciders: &Vec<HeadToHead>) -> (r: Option<
    TeamName,
>)
    ensures
        r == unknown_in_table(table@, deciders@),
{
    let mut i: usize = 0;
    while i < deciders.len()
        invariant
            i <= deciders.len(),
            unknown_in_table(table@, deciders@.take(i as int)) is None,
        decreases deciders.len() - i,
    {
        assert(deciders@.take(i + 1).drop_last() =~= deciders@.take(i as int));
        let d = deciders[i];
        if table.position(d.team).is_none() {
            proof {
                lemma_unknown_in_table_prefix(table@, deciders@, i + 1);
            }
            return Some(d.team);
        }
        i += 1;
    }
    assert(deciders@.take(i as int) =~= deciders@);
    None
}

/// A fault in the first `n` decider values is the fault of the whole list.
pub proof fn lemma_table_decided_prefix_err(
    table: Seq<TeamPlacementView>,
    deciders: Seq<HeadToHead>,
    n: int,
)
    requires
        0 <= n <= deciders.len(),
        table_decided(table, deciders.take(n)) is Err,
    ensures
        table_decided(table, deciders) == table_decided(table, deciders.take(n)),
    decreases deciders.len(),
{
    if n == deciders.len() {
        assert(deciders.take(n) =~= deciders);
    } else {
        assert(deciders.drop_last().take(n) =~= deciders.take(n));
        lemma_table_decided_prefix_err(table, deciders.drop_last(), n);
    }
}

/// The table of the playoffs before the teams are put in order: the group
/// stage must have left as many teams without a rank as there are playoff
/// teams; the brackets are played; without a group stage as many teams must
/// have played as there are playoff teams; the decider values are filled in.
pub open spec fn playoffs_played(table: Seq<TeamPlacementView>, t: Tournament) -> Result<
    Seq<TeamPlacementView>,
    TournamentError,
> {
    if t.brackets.groups is Some && unranked(table) != t.playoff_teams {
        Err(
            TournamentError::WrongQualifierCount {
                playoff_teams: t.playoff_teams,
                found: unranked(table) as usize,
            },
        )
    } else {
        match brackets_played(table, t) {
            Err(e) => Err(e),
            Ok(after) => if t.brackets.groups is None && after.len() != t.playoff_teams {
                Err(
                    TournamentError::WrongTeamCount {
                        playoff_teams: t.playoff_teams,
                        found: after.len() as usize,
                    },
                )
            } else {
                table_decided(after, deciders_of(t))
            },
        }
    }
}

/// What the order of two teams depends on besides their own records.
pub struct Rules {
    /// Whether the tournament has a losers bracket.
    pub has_losers: bool,
    /// The fixtures of the winners bracket.
    pub winners: Seq<Fixture>,
    /// Whether the tournament has a group stage.
    pub has_groups: bool,
    /// The standings of the teams that came through the group stage.
    pub qualifiers: Option<Seq<GroupTeam>>,
}

/// The standings of the teams that came through the group stage.
pub open spec fn qualifiers_view(q: Option<GroupTeams>) -> Option<Seq<GroupTeam>> {
    match q {
        Some(list) => Some(list@),
        None => None,
    }
}

pub open spec fn rules_of(t: Tournament, qualifiers: Option<Seq<GroupTeam>>) -> Rules {
    Rules {
        has_losers: t.has_losers,
        winners: t.brackets.winners@,
        has_groups: t.brackets.groups is Some,
        qualifiers,
    }
}

/// Whether the fixture is between the teams `a` and `b`.
pub open spec fn meets(f: Fixture, a: TeamName, b: TeamName) -> bool {
    (f.team1 == a && f.team2 == b) || (f.team1 == b && f.team2 == a)
}

/// Whether `i` is the place of the first fixture between `a` and `b`.
pub open spec fn is_meeting(fixtures: Seq<Fixture>, a: TeamName, b: TeamName, i: int) -> bool {
    &&& 0 <= i < fixtures.len()
    &&& meets(fixtures[i], a, b)
    &&& forall|j: int| 0 <= j < i ==> !meets(#[trigger] fixtures[j], a, b)
}

/// Whether `a` and `b` played each other in `fixtures`.
pub open spec fn have_met(fixtures: Seq<Fixture>, a: TeamName, b: TeamName) -> bool {
    exists|i: int| is_meeting(fixtures, a, b, i)
}

/// The place of the first fixture between `a` and `b`, where there is one.
pub open spec fn meeting_of(fixtures: Seq<Fixture>, a: TeamName, b: TeamName) -> int {
    choose|i: int| is_meeting(fixtures, a, b, i)
}

/// A number that orders ranks, no rank before any rank.
pub open spec fn rank_key(placement: Option<u8>) -> int {
    match placement {
        None => -1,
        Some(rank) => rank as int,
    }
}

/// Whether `a` goes in front of `b`: by the rank held, the lower first;
/// then by goal difference and by goals scored, the higher first; then by
/// the rules for teams that are level on all of these.
pub open spec fn goes_first(a: TeamPlacementView, b: TeamPlacementView, rules: Rules) -> Result<
    bool,
    TournamentError,
> {
    if rank_key(a.placement) != rank_key(b.placement) {
        Ok(rank_key(a.placement) < rank_key(b.placement))
    } else if a.team.goal_difference() != b.team.goal_difference() {
        Ok(a.team.goal_difference() > b.team.goal_difference())
    } else if a.team.goals_for != b.team.goals_for {
        Ok(a.team.goals_for > b.team.goals_for)
    } else {
        level_by_meeting(a, b, rules)
    }
}

/// The order of two level teams in a tournament with a losers bracket, if
/// they played each other in the winners bracket: the winner of their first
/// fixture there goes first.
pub open spec fn level_by_meeting(a: TeamPlacementView, b: TeamPlacementView, rules: Rules) -> Result<
    bool,
    TournamentError,
> {
    if rules.has_losers && have_met(rules.winners, a.team.name, b.team.name) {
        let f = rules.winners[meeting_of(rules.winners, a.team.name, b.team.name)];
        match f.penalty_fault() {
            Some(e) => Err(TournamentError::Update(Stage::WinnersBracket, UpdateError::Fixture(e))),
            None => Ok(f.decided_winner() == Some(a.team.name)),
        }
    } else {
        level_by_group(a, b, rules)
    }
}

/// The order of two teams that their fixtures leave level, in a tournament
/// with a group stage: the team that stood better in its group goes first.
pub open spec fn level_by_group(a: TeamPlacementView, b: TeamPlacementView, rules: Rules) -> Result<
    bool,
    TournamentError,
> {
    if rules.has_groups {
        match rules.qualifiers {
            None => Err(TournamentError::MissingGroupPerformance(a.team.name, b.team.name)),
            Some(q) => if !has_standing(q, a.team.name) || !has_standing(q, b.team.name) {
                Err(TournamentError::MissingGroupPerformance(a.team.name, b.team.name))
            } else {
                match q[standing_of(q, a.team.name)].versus(q[standing_of(q, b.team.name)]) {
                    Verdict::Ahead => Ok(true),
                    Verdict::Behind => Ok(false),
                    Verdict::Level => level_by_decider(a, b),
                }
            },
        }
    } else {
        level_by_decider(a, b)
    }
}

/// The order of two teams that everything else leaves level: the team with
/// the lower decider value goes first. Both need one, and the two must
/// differ.
pub open spec fn level_by_decider(a: TeamPlacementView, b: TeamPlacementView) -> Result<
    bool,
    TournamentError,
> {
    match (a.team.head_to_head, b.team.head_to_head) {
        (Some(x), Some(y)) => if x != y {
            Ok(x < y)
        } else {
            Err(TournamentError::UnresolvedOrder(a.team.name, b.team.name))
        },
        _ => Err(TournamentError::MissingHeadToHead(a.team.name, b.team.name)),
    }
}

/// Whether the entry at `i` goes in front of the entry at `j`.
pub open spec fn first_in(table: Seq<TeamPlacementView>, rules: Rules) -> spec_fn(int, int) -> bool {
    |i: int, j: int| goes_first(table[i], table[j], rules) == Ok::<bool, TournamentError>(true)
}

/// The fault of the pair at the places `k` and `l` of an order: that the
/// rules cannot tell which of the two goes first, or do not put the earlier
/// one first.
pub open spec fn order_fault(table: Seq<TeamPlacementView>, order: Seq<int>, rules: Rules) -> spec_fn(
    int,
    int,
) -> Option<TournamentError> {
    |k: int, l: int|
        match goes_first(table[order[k]], table[order[l]], rules) {
            Err(e) => Some(e),
            Ok(first) => if first {
                None
            } else {
                Some(
                    TournamentError::InconsistentOrder(
                        table[order[k]].team.name,
                        table[order[l]].team.name,
                    ),
                )
            },
        }
}

/// The order of the entries of the table, as places in it: each entry in
/// turn is put in front of the run of entries at the end that it goes in
/// front of; then every entry must go in front of every later one.
pub open spec fn final_order(table: Seq<TeamPlacementView>, rules: Rules) -> Result<
    Seq<int>,
    TournamentError,
> {
    let order = order_of(table.len(), first_in(table, rules));
    match first_fault(table.len(), order_fault(table, order, rules)) {
        Some(e) => Err(e),
        None => Ok(order),
    }
}

/// What the final order is: it holds each entry of the table once, and each
/// entry in it goes in front of every later one.
pub proof fn lemma_final_order_is_sorted(table: Seq<TeamPlacementView>, rules: Rules)
    requires
        final_order(table, rules) is Ok,
    ensures
        is_permutation(final_order(table, rules)->Ok_0, table.len()),
        forall|k: int, l: int|
            0 <= k < l < table.len() ==> goes_first(
                table[#[trigger] final_order(table, rules)->Ok_0[k]],
                table[#[trigger] final_order(table, rules)->Ok_0[l]],
                rules,
            ) == Ok::<bool, TournamentError>(true),
{
    let n = table.len();
    let order = order_of(n, first_in(table, rules));
    lemma_order_is_permutation(n, first_in(table, rules));
    lemma_first_fault(n, order_fault(table, order, rules));
    assert forall|k: int, l: int| 0 <= k < l < n implies goes_first(
        table[#[trigger] order[k]],
        table[#[trigger] order[l]],
        rules,
    ) == Ok::<bool, TournamentError>(true) by {
        assert(order_fault(table, order, rules)(k, l) is None);
    }
}

/// When there is a final order: whenever the rules rank the entries of the
/// table without ties, so that of two entries exactly one goes in front of
/// the other and "in front of" carries over a middle entry.
pub proof fn lemma_final_order_exists(table: Seq<TeamPlacementView>, rules: Rules)
    requires
        is_strict_order(table.len(), first_in(table, rules)),
    ensures
        final_order(table, rules) is Ok,
{
    let n = table.len();
    let before = first_in(table, rules);
    let order = order_of(n, before);
    lemma_order_is_permutation(n, before);
    lemma_order_strictly_in_order(n, before);
    lemma_first_fault(n, order_fault(table, order, rules));
    assert forall|k: int, l: int| 0 <= k < l < n implies #[trigger] order_fault(
        table,
        order,
        rules,
    )(k, l) is None by {
        assert(before(order[k], order[l]));
    }
}

/// Whether two entries differ in the rank they hold, in goal difference or
/// in goals scored.
pub open spec fn differ_in_standing(a: TeamPlacementView, b: TeamPlacementView) -> bool {
    ||| rank_key(a.placement) != rank_key(b.placement)
    ||| a.team.goal_difference() != b.team.goal_difference()
    ||| a.team.goals_for != b.team.goals_for
}

/// Without a losers bracket, a table of which any two entries differ in
/// rank, goal difference or goals scored has a final order: no decider
/// value and no standing in a group is asked for.
pub proof fn lemma_distinct_standings_have_an_order(table: Seq<TeamPlacementView>, rules: Rules)
    requires
        !rules.has_losers,
        forall|i: int, j: int|
            0 <= i < j < table.len() ==> differ_in_standing(
                #[trigger] table[i],
                #[trigger] table[j],
            ),
    ensures
        is_strict_order(table.len(), first_in(table, rules)),
        final_order(table, rules) is Ok,
{
    let n = table.len();
    let before = first_in(table, rules);
    assert forall|a: int, b: int| 0 <= a < n && 0 <= b < n && #[trigger] before(a, b) implies !before(
        b,
        a,
    ) by {
        if a < b {
            assert(differ_in_standing(table[a], table[b]));
        } else if b < a {
            assert(differ_in_standing(table[b], table[a]));
        }
    }
    assert forall|a: int, b: int| 0 <= a < n && 0 <= b < n && a != b implies #[trigger] before(a, b)
        || before(b, a) by {
        if a < b {
            assert(differ_in_standing(table[a], table[b]));
        } else {
            assert(differ_in_standing(table[b], table[a]));
        }
    }
    assert forall|a: int, b: int, c: int|
        0 <= a < n && 0 <= b < n && 0 <= c < n && #[trigger] before(a, b) && #[trigger] before(
            b,
            c,
        ) implies before(a, c) by {
        if a < b {
            assert(differ_in_standing(table[a], table[b]));
        } else if b < a {
            assert(differ_in_standing(table[b], table[a]));
        }
        if b < c {
            assert(differ_in_standing(table[b], table[c]));
        } else if c < b {
            assert(differ_in_standing(table[c], table[b]));
        }
        if a < c {
            assert(differ_in_standing(table[a], table[c]));
        } else if c < a {
            assert(differ_in_standing(table[c], table[a]));
        }
    }
    lemma_final_order_exists(table, rules);
}

/// The teams in their final order, with the ranks 1, 2, 3 and so on.
pub open spec fn standings_in(table: Seq<TeamPlacementView>, order: Seq<int>) -> Seq<
    TeamPlacementView,
> {
    Seq::new(
        order.len(),
        |k: int| TeamPlacementView { team: table[order[k]].team, placement: Some((k + 1) as u8) },
    )
}

/// The final standings of the playoffs that start from `table`.
pub open spec fn playoffs_resolved(
    table: Seq<TeamPlacementView>,
    t: Tournament,
    qualifiers: Option<Seq<GroupTeam>>,
) -> Result<Seq<TeamPlacementView>, TournamentError> {
    match playoffs_played(table, t) {
        Err(e) => Err(e),
        Ok(after) => match final_order(after, rules_of(t, qualifiers)) {
            Err(e) => Err(e),
            Ok(order) => Ok(standings_in(after, order)),
        },
    }
}

/// Whether `a` goes in front of `b`.
#[verifier::loop_isolation(false)]
pub fn goes_before(
    a: &TeamPlacement,
    b: &TeamPlacement,
    tournament: &Tournament,
    qualifiers: &Option<GroupTeams>,
) -> (r: Result<bool, TournamentError>)
    ensures
        r == goes_first(a@, b@, rules_of(*tournament, qualifiers_view(*qualifiers))),
{
    let ka: i16 = match a.placement {
        Some(rank) => rank as i16,
        None => -1,
    };
    let kb: i16 = match b.placement {
        Some(rank) => rank as i16,
        None => -1,
    };
    if ka != kb {
        return Ok(ka < kb);
    }
    let da: i64 = a.team.goals_for as i64 - a.team.goals_against as i64;
    let db: i64 = b.team.goals_for as i64 - b.team.goals_against as i64;
    if da != db {
        return Ok(da > db);
    }
    if a.team.goals_for != b.team.goals_for {
        return Ok(a.team.goals_for > b.team.goals_for);
    }
    let ghost rules = rules_of(*tournament, qualifiers_view(*qualifiers));
    if tournament.has_losers {
        let winners = &tournament.brackets.winners;
        let mut i: usize = 0;
        while i < winners.len()
            invariant
                i <= winners.len(),
                forall|j: int| 0 <= j < i ==> !meets(#[trigger] winners@[j], a.team.name, b.team.name),
            decreases winners.len() - i,
        {
            let f = &winners[i];
            if (f.team1 == a.team.name && f.team2 == b.team.name) || (f.team1 == b.team.name
                && f.team2 == a.team.name) {
                assert(is_meeting(winners@, a.team.name, b.team.name, i as int));
                return match f.winner() {
                    Err(e) => Err(
                        TournamentError::Update(Stage::WinnersBracket, UpdateError::Fixture(e)),
                    ),
                    Ok(Some(w)) => Ok(w == a.team.name),
                    Ok(None) => Ok(false),
                };
            }
            i += 1;
        }
    }
    assert(level_by_meeting(a@, b@, rules) == level_by_group(a@, b@, rules));
    if tournament.brackets.groups.is_some() {
        match qualifiers {
            None => {
                return Err(TournamentError::MissingGroupPerformance(a.team.name, b.team.name));
            },
            Some(q) => {
                let sa = find_standing(&q.teams, a.team.name);
                let sb = find_standing(&q.teams, b.team.name);
                match (sa, sb) {
                    (Some(ia), Some(ib)) => {
                        match q.teams[ia].compare(&q.teams[ib]) {
                            Verdict::Ahead => {
                                return Ok(true);
                            },
                            Verdict::Behind => {
                                return Ok(false);
                            },
                            Verdict::Level => {},
                        }
                    },
                    _ => {
                        return Err(
                            TournamentError::MissingGroupPerformance(a.team.name, b.team.name),
                        );
                    },
                }
            },
        }
    }
    match (a.team.head_to_head, b.team.head_to_head) {
        (Some(x), Some(y)) => {
            if x != y {
                Ok(x < y)
            } else {
                Err(TournamentError::UnresolvedOrder(a.team.name, b.team.name))
            }
        },
        _ => Err(TournamentError::MissingHeadToHead(a.team.name, b.team.name)),
    }
}

/// Arranges the places of the table: each entry in turn goes in front of the
/// run of entries at the end that it goes in front of.
fn arrange_placements(
    table: &TournamentPlacements,
    tournament: &Tournament,
    qualifiers: &Option<GroupTeams>,
) -> (order: Vec<usize>)
    ensures
        indices(order@) == order_of(
            table@.len(),
            first_in(table@, rules_of(*tournament, qualifiers_view(*qualifiers))),
        ),
        is_permutation(indices(order@), table@.len()),
{
    let ghost rules = rules_of(*tournament, qualifiers_view(*qualifiers));
    let ghost before = first_in(table@, rules);
    let n = table.placements.len();
    let mut order: Vec<usize> = Vec::new();
    let mut i: usize = 0;
    while i < n
        invariant
            i <= n,
            n == table.placements@.len(),
            rules == rules_of(*tournament, qualifiers_view(*qualifiers)),
            before == first_in(table@, rules),
            is_permutation(indices(order@), i as nat),
            indices(order@) == order_of(i as nat, before),
        decreases n - i,
    {
        let mut p: usize = order.len();
        let ghost r = indices(order@);
        assert(r.take(p as int) =~= r);
        let mut moving = true;
        while p > 0 && moving
            invariant
                p <= order.len(),
                i < n,
                n == table.placements@.len(),
                r == indices(order@),
                rules == rules_of(*tournament, qualifiers_view(*qualifiers)),
                before == first_in(table@, rules),
                is_permutation(r, i as nat),
                moving ==> slot(r, i as int, before) == slot(r.take(p as int), i as int, before),
                !moving ==> slot(r, i as int, before) == p,
            decreases p + if moving {
                1int
            } else {
                0int
            },
        {
            assert(r[p - 1] == order@[p - 1]);
            assert(r.take(p as int).last() == r[p - 1]);
            let verdict = goes_before(
                &table.placements[i],
                &table.placements[order[p - 1]],
                tournament,
                qualifiers,
            );
            let first = match verdict {
                Ok(first) => first,
                Err(_) => false,
            };
            assert(first == before(i as int, r[p - 1]));
            if first {
                assert(r.take(p as int).drop_last() =~= r.take(p - 1));
                p = p - 1;
            } else {
                moving = false;
            }
        }
        order.insert(p, i);
        proof {
            assert(indices(order@) =~= r.insert(p as int, i as int));
            lemma_order_is_permutation((i + 1) as nat, before);
        }
        i += 1;
    }
    order
}

/// The first pair of the order of which the earlier entry does not go in
/// front of the later one.
fn check_order(
    table: &TournamentPlacements,
    order: &Vec<usize>,
    tournament: &Tournament,
    qualifiers: &Option<GroupTeams>,
) -> (r: Option<TournamentError>)
    requires
        is_permutation(indices(order@), table@.len()),
    ensures
        r == first_fault(
            table@.len(),
            order_fault(
                table@,
                indices(order@),
                rules_of(*tournament, qualifiers_view(*qualifiers)),
            ),
        ),
{
    let ghost rules = rules_of(*tournament, qualifiers_view(*qualifiers));
    let ghost sorted = indices(order@);
    let ghost fault = order_fault(table@, sorted, rules);
    let n = table.placements.len();
    let mut l: usize = 0;
    while l < n
        invariant
            l <= n,
            n == table.placements@.len(),
            order@.len() == n,
            sorted == indices(order@),
            is_permutation(sorted, n as nat),
            rules == rules_of(*tournament, qualifiers_view(*qualifiers)),
            fault == order_fault(table@, sorted, rules),
            first_fault(l as nat, fault) is None,
        decreases n - l,
    {
        let mut k: usize = 0;
        while k < l
            invariant
                k <= l,
                l < n,
                n == table.placements@.len(),
                order@.len() == n,
                sorted == indices(order@),
                is_permutation(sorted, n as nat),
                rules == rules_of(*tournament, qualifiers_view(*qualifiers)),
                fault == order_fault(table@, sorted, rules),
                first_fault(l as nat, fault) is None,
                row_fault(l as int, k as nat, fault) is None,
            decreases l - k,
        {
            assert(sorted[k as int] == order@[k as int]);
            assert(sorted[l as int] == order@[l as int]);
            let a = &table.placements[order[k]];
            let b = &table.placements[order[l]];
            let found = match goes_before(a, b, tournament, qualifiers) {
                Err(e) => Some(e),
                Ok(true) => None,
                Ok(false) => Some(TournamentError::InconsistentOrder(a.team.name, b.team.name)),
            };
            assert(found == fault(k as int, l as int));
            match found {
                Some(e) => {
                    proof {
                        lemma_fault_found(n as nat, fault, l as int, k as int);
                    }
                    return Some(e);
                },
                None => {},
            }
            k += 1;
        }
        l += 1;
    }
    None
}

/// Puts the entries of the table in their final order.
pub fn order_placements(
    table: &TournamentPlacements,
    tournament: &Tournament,
    qualifiers: &Option<GroupTeams>,
) -> (r: Result<Vec<usize>, TournamentError>)
    ensures
        match final_order(table@, rules_of(*tournament, qualifiers_view(*qualifiers))) {
            Ok(order) => r is Ok && indices(r->Ok_0@) == order && is_permutation(
                order,
                table@.len(),
            ),
            Err(e) => r == Err::<Vec<usize>, TournamentError>(e),
        },
{
    let order = arrange_placements(table, tournament, qualifiers);
    match check_order(table, &order, tournament, qualifiers) {
        Some(e) => Err(e),
        None => Ok(order),
    }
}

/// The playoffs of a tournament while they are resolved.
#[derive(Debug)]
pub struct PlayoffStage<'a> {
    pub placements: TournamentPlacements,
    pub tournament: &'a Tournament,
    /// The teams that came through the group stage, if there was one.
    pub qualifying_teams: Option<GroupTeams>,
}

/// The first fault among the fixtures of a stage of the playoffs.
fn find_bracket_fault(fixtures: &Vec<Fixture>, stage: Stage) -> (r: Option<TournamentError>)
    ensures
        r == bracket_fault(fixtures@, stage),
{
    let mut i: usize = 0;
    while i < fixtures.len()
        invariant
            i <= fixtures.len(),
            bracket_fault(fixtures@.take(i as int), stage) is None,
        decreases fixtures.len() - i,
    {
        let f = &fixtures[i];
        proof {
            assert(fixtures@.take(i + 1).drop_last() =~= fixtures@.take(i as int));
            assert(fixtures@.take(i + 1).last() == *f);
        }
        let fault = match f.winner() {
            Err(e) => Some(UpdateError::Fixture(e)),
            Ok(None) => Some(UpdateError::IllegalDraw(f.team1, f.team2)),
            Ok(Some(_)) => None,
        };
        match fault {
            Some(e) => {
                proof {
                    lemma_bracket_fault_prefix(fixtures@, stage, i + 1);
                }
                return Some(TournamentError::Update(stage, e));
            },
            None => {},
        }
        i += 1;
    }
    assert(fixtures@.take(i as int) =~= fixtures@);
    None
}

/// Plays the fixtures of one stage of the playoffs. Where one of them has a
/// fault, none is entered, and the table stays as it is.
fn play_bracket(
    table: &mut TournamentPlacements,
    fixtures: &Vec<Fixture>,
    loser_ranks: &Vec<u8>,
    winner_ranks: &Vec<u8>,
    stage: Stage,
    tournament_name: &str,
    Ghost(bound): Ghost<int>,
) -> (r: Result<(), TournamentError>)
    requires
        fixtures@.len() <= loser_ranks@.len(),
        fixtures@.len() <= winner_ranks@.len(),
        names_distinct(old(table)@),
        table_bounded(old(table)@, bound),
        0 <= bound,
        bound + 510 * fixtures@.len() <= COUNTER_LIMIT + 510,
    ensures
        match bracket_played(
            old(table)@,
            fixtures@,
            loser_ranks@,
            winner_ranks@,
            stage,
            tournament_name@,
        ) {
            Ok(after) => r is Ok && final(table)@ == after && names_distinct(after)
                && table_bounded(after, bound + 510 * fixtures@.len()) && after.len() >= old(
                table,
            )@.len(),
            Err(e) => r == Err::<(), TournamentError>(e) && final(table)@ == old(table)@,
        },
{
    proof {
        lemma_bracket_fault(
            table@,
            fixtures@,
            loser_ranks@,
            winner_ranks@,
            stage,
            tournament_name@,
        );
    }
    match find_bracket_fault(fixtures, stage) {
        Some(e) => {
            return Err(e);
        },
        None => {},
    }
    let mut i: usize = 0;
    while i < fixtures.len()
        invariant
            i <= fixtures.len(),
            fixtures@.len() <= loser_ranks@.len(),
            fixtures@.len() <= winner_ranks@.len(),
            0 <= bound,
            bound + 510 * fixtures@.len() <= COUNTER_LIMIT + 510,
            bracket_played(
                old(table)@,
                fixtures@,
                loser_ranks@,
                winner_ranks@,
                stage,
                tournament_name@,
            ) is Ok,
            bracket_played(
                old(table)@,
                fixtures@.take(i as int),
                loser_ranks@,
                winner_ranks@,
                stage,
                tournament_name@,
            ) == Ok::<Seq<TeamPlacementView>, TournamentError>(table@),
            names_distinct(table@),
            table_bounded(table@, bound + 510 * i),
            table@.len() >= old(table)@.len(),
        decreases fixtures.len() - i,
    {
        let f = &fixtures[i];
        proof {
            assert(fixtures@.take(i + 1).drop_last() =~= fixtures@.take(i as int));
            lemma_updated(table@, *f, tournament_name@, bound + 510 * i);
            lemma_table_bounded_mono(table@, bound + 510 * i, COUNTER_LIMIT as int);
        }
        match table.update_teams(f, false, tournament_name) {
            Err(e) => {
                proof {
                    lemma_bracket_prefix_err(
                        old(table)@,
                        fixtures@,
                        loser_ranks@,
                        winner_ranks@,
                        stage,
                        tournament_name@,
                        i + 1,
                    );
                    assert(false);
                }
                return Err(TournamentError::Update(stage, e));
            },
            Ok(()) => {},
        }
        match f.winner() {
            Ok(Some(w)) => {
                let l = if w == f.team1 {
                    f.team2
                } else {
                    f.team1
                };
                proof {
                    lemma_placed(table@, l, loser_ranks@[i as int]);
                    lemma_placed(placed(table@, l, loser_ranks@[i as int]), w, winner_ranks@[i as int]);
                }
                table.set_placement(l, loser_ranks[i]);
                table.set_placement(w, winner_ranks[i]);
            },
            _ => {},
        }
        i += 1;
    }
    assert(fixtures@.take(i as int) =~= fixtures@);
    Ok(())
}

impl<'a> PlayoffStage<'a> {
    /// Whether the playoffs can start: no team has two entries, and the
    /// teams' numbers are what at most `MAX_GROUP_FIXTURES` fixtures leave.
    pub open spec fn wf(self) -> bool {
        &&& names_distinct(self.placements@)
        &&& table_bounded(self.placements@, 510 * self.tournament.group_count())
        &&& self.tournament.group_count() <= MAX_GROUP_FIXTURES
    }

    /// Plays the winners bracket. A fault leaves the placements as they were.
    fn winners_bracket(&mut self) -> (r: Result<(), TournamentError>)
        requires
            old(self).wf(),
        ensures
            final(self).tournament == old(self).tournament,
            final(self).qualifying_teams == old(self).qualifying_teams,
            match winners_played(old(self).placements@, *old(self).tournament) {
                Ok(after) => r is Ok && final(self).placements@ == after && names_distinct(after)
                    && table_bounded(
                    after,
                    510 * (old(self).tournament.group_count()
                        + old(self).tournament.brackets.winners@.len()),
                ) && old(self).tournament.brackets.winners@.len() <= 254,
                Err(e) => r == Err::<(), TournamentError>(e) && final(self).placements@
                    == old(self).placements@,
            },
    {
        let teams = self.tournament.playoff_teams;
        if teams == 0 {
            return Err(TournamentError::TooFewPlayoffTeams(0));
        }
        let expected = (teams - 1) as usize;
        let found = self.tournament.brackets.winners.len();
        if expected != found {
            return Err(TournamentError::WrongWinnersFixtureCount { expected, found });
        }
        let ranks = winners_stage_ranks(teams);
        assert(ranks@ =~= winners_ranks(teams));
        match play_bracket(
            &mut self.placements,
            &self.tournament.brackets.winners,
            &ranks,
            &ranks,
            Stage::WinnersBracket,
            self.tournament.tournament_name.as_str(),
            Ghost(510 * self.tournament.group_count() as int),
        ) {
            Err(e) => {
                return Err(e);
            },
            Ok(()) => {},
        }
        if self.tournament.grand_final.is_none() {
            if found == 0 {
                return Err(TournamentError::MissingFinal);
            }
            let last = &self.tournament.brackets.winners[found - 1];
            match last.winner() {
                Ok(Some(w)) => {
                    let l = if w == last.team1 {
                        last.team2
                    } else {
                        last.team1
                    };
                    proof {
                        lemma_placed(self.placements@, w, 1);
                        lemma_placed(placed(self.placements@, w, 1), l, 2);
                    }
                    self.placements.set_placement(w, 1);
                    self.placements.set_placement(l, 2);
                },
                _ => {
                    proof {
                        lemma_bracket_ok_decided(
                            old(self).placements@,
                            self.tournament.brackets.winners@,
                            ranks@,
                            ranks@,
                            Stage::WinnersBracket,
                            self.tournament.tournament_name@,
                            found - 1,
                        );
                    }
                },
            }
        }
        Ok(())
    }

    /// Plays the losers bracket. A fault leaves the placements as they were.
    fn losers_bracket(&mut self) -> (r: Result<(), TournamentError>)
        requires
            names_distinct(old(self).placements@),
            table_bounded(
                old(self).placements@,
                510 * (old(self).tournament.group_count()
                    + old(self).tournament.brackets.winners@.len()),
            ),
            old(self).tournament.group_count() <= MAX_GROUP_FIXTURES,
            old(self).tournament.brackets.winners@.len() <= 254,
        ensures
            final(self).tournament == old(self).tournament,
            final(self).qualifying_teams == old(self).qualifying_teams,
            match losers_played(old(self).placements@, *old(self).tournament) {
                Ok(after) => r is Ok && final(self).placements@ == after && names_distinct(after)
                    && table_bounded(
                    after,
                    510 * (old(self).tournament.group_count()
                        + old(self).tournament.brackets.winners@.len()
                        + old(self).tournament.losers_count()),
                ) && old(self).tournament.losers_count() <= 253,
                Err(e) => r == Err::<(), TournamentError>(e) && final(self).placements@
                    == old(self).placements@,
            },
    {
        let teams = self.tournament.playoff_teams;
        let fixtures = match &self.tournament.brackets.losers {
            Some(f) => f,
            None => {
                return Err(TournamentError::MissingLosersBracket);
            },
        };
        if teams < 2 {
            return Err(TournamentError::TooFewPlayoffTeams(teams));
        }
        let expected = (teams - 2) as usize;
        let found = fixtures.len();
        if expected != found {
            return Err(TournamentError::WrongLosersFixtureCount { expected, found });
        }
        let ranks = losers_stage_ranks(teams);
        assert(ranks@ =~= losers_ranks(teams));
        match play_bracket(
            &mut self.placements,
            fixtures,
            &ranks,
            &ranks,
            Stage::LosersBracket,
            self.tournament.tournament_name.as_str(),
            Ghost(
                510 * (self.tournament.group_count() + self.tournament.brackets.winners@.len()),
            ),
        ) {
            Err(e) => {
                return Err(e);
            },
            Ok(()) => {},
        }
        Ok(())
    }

    /// Plays the grand final. A fault leaves the placements as they were.
    fn grand_final(&mut self) -> (r: Result<(), TournamentError>)
        requires
            names_distinct(old(self).placements@),
            table_bounded(
                old(self).placements@,
                510 * (old(self).tournament.group_count()
                    + old(self).tournament.brackets.winners@.len()
                    + old(self).tournament.losers_count()),
            ),
            old(self).tournament.group_count() <= MAX_GROUP_FIXTURES,
            old(self).tournament.brackets.winners@.len() <= 254,
            old(self).tournament.losers_count() <= 253,
        ensures
            final(self).tournament == old(self).tournament,
            final(self).qualifying_teams == old(self).qualifying_teams,
            match grand_final_played(old(self).placements@, *old(self).tournament) {
                Ok(after) => r is Ok && final(self).placements@ == after && names_distinct(after)
                    && table_bounded(after, 510 * old(self).tournament.fixture_count()),
                Err(e) => r == Err::<(), TournamentError>(e) && final(self).placements@
                    == old(self).placements@,
            },
    {
        let fixtures = match &self.tournament.grand_final {
            Some(f) => f,
            None => {
                return Err(TournamentError::MissingGrandFinal);
            },
        };
        let found = fixtures.len();
        if found == 0 || found > 2 {
            return Err(TournamentError::WrongGrandFinalFixtureCount(found));
        }
        let first = &fixtures[0];
        let rank1 = match self.placements.position(first.team1) {
            Some(i) => self.placements.placements[i].placement,
            None => None,
        };
        let rank1 = match rank1 {
            Some(rank) => rank,
            None => {
                return Err(TournamentError::UnknownFinalist(first.team1));
            },
        };
        if self.placements.position(first.team2).is_none() {
            return Err(TournamentError::UnknownFinalist(first.team2));
        }
        let from_losers = if rank1 == 3 {
            first.team1
        } else {
            first.team2
        };
        match first.winner() {
            Err(e) => {
                return Err(TournamentError::Update(Stage::GrandFinal, UpdateError::Fixture(e)));
            },
            Ok(Some(w)) => {
                if found == 1 && w == from_losers {
                    return Err(TournamentError::MissingDecider(w));
                }
                if found == 2 && w != from_losers {
                    return Err(TournamentError::NeedlessDecider(w));
                }
            },
            Ok(None) => {},
        }
        let mut loser_ranks: Vec<u8> = Vec::new();
        loser_ranks.push(2);
        loser_ranks.push(2);
        let mut winner_ranks: Vec<u8> = Vec::new();
        winner_ranks.push(1);
        winner_ranks.push(1);
        assert(loser_ranks@ =~= seq![2u8, 2u8]);
        assert(winner_ranks@ =~= seq![1u8, 1u8]);
        match play_bracket(
            &mut self.placements,
            fixtures,
            &loser_ranks,
            &winner_ranks,
            Stage::GrandFinal,
            self.tournament.tournament_name.as_str(),
            Ghost(
                510 * (self.tournament.group_count() + self.tournament.brackets.winners@.len()
                    + self.tournament.losers_count()),
            ),
        ) {
            Err(e) => {
                return Err(e);
            },
            Ok(()) => {},
        }
        Ok(())
    }

    /// The number of entries without a rank.
    fn count_unranked(&self) -> (n: usize)
        ensures
            n == unranked(self.placements@),
    {
        let mut n: usize = 0;
        let mut i: usize = 0;
        while i < self.placements.placements.len()
            invariant
                i <= self.placements.placements@.len(),
                n <= i,
                n == unranked(self.placements@.take(i as int)),
            decreases self.placements.placements.len() - i,
        {
            assert(self.placements@.take(i + 1).drop_last() =~= self.placements@.take(i as int));
            assert(self.placements@.take(i + 1).last() == self.placements.placements@[i as int]@);
            if self.placements.placements[i].placement.is_none() {
                n = n + 1;
            }
            i += 1;
        }
        assert(self.placements@.take(i as int) =~= self.placements@);
        n
    }

    /// Fills the decider values into the placements. Where one of them is
    /// for a team without an entry, none is filled in.
    fn apply_deciders(&mut self) -> (r: Result<(), TournamentError>)
        requires
            names_distinct(old(self).placements@),
        ensures
            final(self).tournament == old(self).tournament,
            final(self).qualifying_teams == old(self).qualifying_teams,
            match table_decided(old(self).placements@, deciders_of(*old(self).tournament)) {
                Ok(after) => r is Ok && final(self).placements@ == after && names_distinct(after)
                    && after.len() == old(self).placements@.len() && (forall|b: int|
                    table_bounded(old(self).placements@, b) ==> table_bounded(after, b)),
                Err(e) => r == Err::<(), TournamentError>(e) && final(self).placements@
                    == old(self).placements@,
            },
    {
        match &self.tournament.head_to_head {
            None => {},
            Some(deciders) => {
                proof {
                    lemma_table_decided(self.placements@, deciders@);
                }
                match find_unknown_in_table(&self.placements, deciders) {
                    Some(team) => {
                        return Err(TournamentError::UnknownHeadToHeadTeam(team));
                    },
                    None => {},
                }
                let mut i: usize = 0;
                while i < deciders.len()
                    invariant
                        i <= deciders.len(),
                        table_decided(old(self).placements@, deciders@) is Ok,
                        self.tournament == old(self).tournament,
                        self.qualifying_teams == old(self).qualifying_teams,
                        self.tournament.head_to_head == Some(*deciders),
                        table_decided(old(self).placements@, deciders@.take(i as int)) == Ok::<
                            Seq<TeamPlacementView>,
                            TournamentError,
                        >(self.placements@),
                        names_distinct(self.placements@),
                        self.placements@.len() == old(self).placements@.len(),
                        forall|b: int|
                            table_bounded(old(self).placements@, b) ==> table_bounded(
                                self.placements@,
                                b,
                            ),
                    decreases deciders.len() - i,
                {
                    assert(deciders@.take(i + 1).drop_last() =~= deciders@.take(i as int));
                    let d = deciders[i];
                    if !self.placements.set_decider(d.team, d.decider_points) {
                        proof {
                            lemma_table_decided_prefix_err(
                                old(self).placements@,
                                deciders@,
                                i + 1,
                            );
                            assert(false);
                        }
                        return Err(TournamentError::UnknownHeadToHeadTeam(d.team));
                    }
                    i += 1;
                }
                assert(deciders@.take(i as int) =~= deciders@);
            },
        }
        Ok(())
    }

    /// Plays the brackets and fills in the decider values.
    fn play(&mut self) -> (r: Result<(), TournamentError>)
        requires
            old(self).wf(),
        ensures
            final(self).tournament == old(self).tournament,
            final(self).qualifying_teams == old(self).qualifying_teams,
            match playoffs_played(old(self).placements@, *old(self).tournament) {
                Ok(after) => {
                    &&& r is Ok
                    &&& final(self).placements@ == after
                    &&& names_distinct(after)
                    &&& table_bounded(after, 510 * old(self).tournament.fixture_count())
                    &&& old(self).tournament.brackets.groups is None ==> after.len() == old(
                        self,
                    ).tournament.playoff_teams
                },
                Err(e) => r == Err::<(), TournamentError>(e),
            },
    {
        let teams = self.tournament.playoff_teams;
        if self.tournament.brackets.groups.is_some() {
            let found = self.count_unranked();
            if found != teams as usize {
                return Err(TournamentError::WrongQualifierCount { playoff_teams: teams, found });
            }
        }
        match self.winners_bracket() {
            Err(e) => {
                return Err(e);
            },
            Ok(()) => {},
        }
        if self.tournament.has_losers {
            match self.losers_bracket() {
                Err(e) => {
                    return Err(e);
                },
                Ok(()) => {},
            }
            match self.grand_final() {
                Err(e) => {
                    return Err(e);
                },
                Ok(()) => {},
            }
        } else {
            proof {
                lemma_table_bounded_mono(
                    self.placements@,
                    510 * (self.tournament.group_count()
                        + self.tournament.brackets.winners@.len()),
                    510 * self.tournament.fixture_count(),
                );
            }
        }
        if self.tournament.brackets.groups.is_none() {
            let found = self.placements.placements.len();
            if found != teams as usize {
                return Err(TournamentError::WrongTeamCount { playoff_teams: teams, found });
            }
        }
        assert(table_bounded(self.placements@, 510 * self.tournament.fixture_count()));
        self.apply_deciders()
    }

    /// Resolves the playoffs: plays the brackets, puts the teams in their
    /// final order and gives them the ranks 1, 2, 3 and so on. A fault comes
    /// back with the name of the tournament.
    pub fn run(self) -> (r: Result<Vec<TeamPlacement>, TournamentFailure>)
        requires
            self.wf(),
        ensures
            match playoffs_resolved(
                self.placements@,
                *self.tournament,
                qualifiers_view(self.qualifying_teams),
            ) {
                Ok(standings) => r is Ok && placement_views(r->Ok_0@) == standings
                    && standings.len() <= TEAM_COUNT,
                Err(e) => r is Err && r->Err_0.error == e && r->Err_0.tournament_name@
                    == self.tournament.tournament_name@,
            },
            r is Ok && self.tournament.brackets.groups is None ==> r->Ok_0@.len()
                == self.tournament.playoff_teams,
            r is Ok ==> crate::statter::tournament::is_standings(placement_views(r->Ok_0@)),
            r is Ok ==> table_bounded(
                placement_views(r->Ok_0@),
                510 * self.tournament.fixture_count(),
            ),
    {
        let tournament = self.tournament;
        match self.resolve() {
            Ok(standings) => Ok(standings),
            Err(e) => Err(tournament.failure(e)),
        }
    }

    /// Resolves the playoffs: plays the brackets, puts the teams in their
    /// final order and gives them the ranks 1, 2, 3 and so on.
    fn resolve(self) -> (r: Result<Vec<TeamPlacement>, TournamentError>)
        requires
            self.wf(),
        ensures
            match playoffs_resolved(
                self.placements@,
                *self.tournament,
                qualifiers_view(self.qualifying_teams),
            ) {
                Ok(standings) => r is Ok && placement_views(r->Ok_0@) == standings
                    && standings.len() <= TEAM_COUNT,
                Err(e) => r is Err && r->Err_0 == e,
            },
            r is Ok && self.tournament.brackets.groups is None ==> r->Ok_0@.len()
                == self.tournament.playoff_teams,
            r is Ok ==> crate::statter::tournament::is_standings(placement_views(r->Ok_0@)),
            r is Ok ==> table_bounded(
                placement_views(r->Ok_0@),
                510 * self.tournament.fixture_count(),
            ),
    {
        let mut stage = self;
        match stage.play() {
            Err(e) => {
                return Err(e);
            },
            Ok(()) => {},
        }
        let order = match order_placements(
            &stage.placements,
            stage.tournament,
            &stage.qualifying_teams,
        ) {
            Err(e) => {
                return Err(e);
            },
            Ok(order) => order,
        };
        let ghost table = stage.placements@;
        let ghost bound = 510 * self.tournament.fixture_count();
        proof {
            let names = Seq::new(table.len(), |k: int| table[k].team.name);
            lemma_distinct_names_are_few(names);
        }
        let PlayoffStage { placements, tournament: _, qualifying_teams: _ } = stage;
        let mut ranked = permuted(placements.placements, &order);
        let ghost sorted = indices(order@);
        let ghost goal = standings_in(table, sorted);
        let mut k: usize = 0;
        while k < ranked.len()
            invariant
                k <= ranked@.len(),
                ranked@.len() == table.len(),
                table.len() <= TEAM_COUNT,
                sorted.len() == table.len(),
                goal == standings_in(table, sorted),
                forall|j: int| 0 <= j < k ==> (#[trigger] ranked@[j])@ == goal[j],
                forall|j: int|
                    k <= j < ranked@.len() ==> (#[trigger] ranked@[j])@.team == goal[j].team,
            decreases ranked.len() - k,
        {
            let entry = &mut ranked[k];
            entry.placement = Some((k + 1) as u8);
            k += 1;
        }
        assert(placement_views(ranked@) =~= goal);
        proof {
            assert forall|x: int| 0 <= x < goal.len() implies (#[trigger] goal[x]).team.bounded_by(
                bound,
            ) by {
                assert(table[sorted[x]].team.bounded_by(bound));
            }
            assert forall|x: int, y: int| 0 <= x < y < goal.len() implies (#[trigger] goal[x]).team.name
                != (#[trigger] goal[y]).team.name by {
                assert(sorted[x] != sorted[y]);
                if sorted[x] < sorted[y] {
                    assert(table[sorted[x]].team.name != table[sorted[y]].team.name);
                } else {
                    assert(table[sorted[y]].team.name != table[sorted[x]].team.name);
                }
            }
        }
        Ok(ranked)
    }

    /// The playoffs of a tournament without a group stage.
    pub fn from(tournament: &'a Tournament) -> (s: Self)
        ensures
            s.placements@ == Seq::<TeamPlacementView>::empty(),
            s.tournament == tournament,
            s.qualifying_teams is None,
    {
        PlayoffStage { placements: TournamentPlacements::new(), tournament, qualifying_teams: None }
    }

    /// The playoffs that follow a group stage.
    pub fn from_groups(groups: GroupStage<'a>, qualifying_teams: GroupTeams) -> (s: Self)
        ensures
            s.placements == groups.placements,
            s.tournament == groups.tournament,
            s.qualifying_teams == Some(qualifying_teams),
    {
        PlayoffStage {
            placements: groups.placements,
            tournament: groups.tournament,
            qualifying_teams: Some(qualifying_teams),
        }
    }
}

} // verus!
