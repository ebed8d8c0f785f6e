use vstd::prelude::*;
use crate::statter::date::Datetime;
use crate::statter::fixture::Fixture;
use crate::statter::groups::{group_stage, GroupStage, MAX_GROUP_FIXTURES};
use crate::statter::placements::{placement_views, UpdateError};
use crate::statter::rankings::{RankedTeam, RankedTeamView};
use crate::statter::participants::{lemma_standings_hold_who_played, occurs, takes_part};
use crate::statter::playoffs::{playoffs_resolved, rank_key, PlayoffStage};
use crate::statter::team::{TeamName, TeamPlacement, TeamPlacementView, TEAM_COUNT};

verus! {

/// The group a group-stage fixture belongs to.
#[derive(Debug, Clone, Copy, PartialEq, Eq, Hash, Structural)]
pub enum GroupID {
    A,
    B,
    C,
    D,
}

/// A part of a tournament.
#[derive(Debug, Clone, Copy, PartialEq, Eq)]
pub enum Stage {
    Groups,
    WinnersBracket,
    LosersBracket,
    GrandFinal,
}

/// Why a tournament cannot be resolved.
#[derive(Debug, Clone, Copy, PartialEq, Eq)]
pub enum TournamentError {
    /// A fixture of the stage cannot be entered.
    Update(Stage, UpdateError),
    /// The group stage was asked for, and the tournament has no group
    /// fixtures.
    MissingGroupStage,
    /// A group fixture between these teams names no group.
    MissingGroupID(TeamName, TeamName),
    /// The list of group fixtures is empty.
    NoGroups,
    /// A decider value is given for a team that did not play.
    UnknownHeadToHeadTeam(TeamName),
    /// The group results leave the order of these two teams open.
    UnresolvedGroupOrder(TeamName, TeamName),
    /// The group has fewer teams than go through from each group by rank.
    GroupTooSmall(GroupID),
    /// More places are left for wildcards than there are groups with a team
    /// that could take one.
    MissingWildcardCandidate { expected: usize, found: usize },
    /// The group stage left another number of teams for the playoffs than the
    /// tournament has playoff teams.
    WrongQualifierCount { playoff_teams: u8, found: usize },
    /// The tournament has too few playoff teams for its brackets.
    TooFewPlayoffTeams(u8),
    /// The winners bracket has another number of fixtures than one less than
    /// the number of playoff teams.
    WrongWinnersFixtureCount { expected: usize, found: usize },
    /// No grand final follows, and the winners bracket has no last fixture to
    /// tell the first two ranks from.
    MissingFinal,
    /// The tournament has a losers bracket, but no fixtures for it.
    MissingLosersBracket,
    /// The losers bracket has another number of fixtures than two less than
    /// the number of playoff teams.
    WrongLosersFixtureCount { expected: usize, found: usize },
    /// The tournament has a losers bracket, but no grand final.
    MissingGrandFinal,
    /// The grand final has neither one nor two fixtures.
    WrongGrandFinalFixtureCount(usize),
    /// A team of the grand final did not come out of the brackets.
    UnknownFinalist(TeamName),
    /// The team from the losers bracket won the only fixture of the grand
    /// final: a second fixture has to decide.
    MissingDecider(TeamName),
    /// The team from the winners bracket won the first fixture of the grand
    /// final, yet there is a second one.
    NeedlessDecider(TeamName),
    /// Another number of teams played than the tournament has playoff teams.
    WrongTeamCount { playoff_teams: u8, found: usize },
    /// The two teams are level, and one of them did not come through the
    /// group stage.
    MissingGroupPerformance(TeamName, TeamName),
    /// The two teams are level, and one of them has no decider value.
    MissingHeadToHead(TeamName, TeamName),
    /// The two teams are level on everything, their decider values too.
    UnresolvedOrder(TeamName, TeamName),
    /// The rules put the first team in front of a team that they put in
    /// front of the first.
    InconsistentOrder(TeamName, TeamName),
}

/// A tournament that cannot be resolved: its name, and why.
#[derive(Debug, PartialEq, Eq)]
pub struct TournamentFailure {
    pub tournament_name: String,
    pub error: TournamentError,
}

/// The fixture lists of a tournament.
#[derive(Debug)]
pub struct Brackets {
    pub winners: Vec<Fixture>,
    pub losers: Option<Vec<Fixture>>,
    pub groups: Option<Vec<Fixture>>,
}

/// A decider value given to a team from outside, to break a tie that the
/// results leave open.
#[derive(Debug, Clone, Copy)]
pub struct HeadToHead {
    pub team: TeamName,
    pub decider_points: u8,
}

/// A tournament as it is played: what it is, and its fixtures.
#[derive(Debug)]
pub struct Tournament {
    pub tournament_name: String,
    pub season_num: u8,
    pub date: Datetime,
    pub has_losers: bool,
    pub playoff_teams: u8,
    pub brackets: Brackets,
    pub grand_final: Option<Vec<Fixture>>,
    pub head_to_head: Option<Vec<HeadToHead>>,
}

/// The ranks of a list of placements as numbers, -1 for none.
pub open spec fn ranks_of(standings: Seq<TeamPlacementView>) -> Seq<int> {
    Seq::new(standings.len(), |k: int| rank_key(standings[k].placement))
}

impl Tournament {
    /// The fault `error` of this tournament.
    pub fn failure(&self, error: TournamentError) -> (r: TournamentFailure)
        ensures
            r.error == error,
            r.tournament_name@ == self.tournament_name@,
    {
        TournamentFailure { tournament_name: self.tournament_name.clone(), error }
    }

    /// The number of group fixtures.
    pub open spec fn group_count(self) -> int {
        match self.brackets.groups {
            Some(fixtures) => fixtures@.len() as int,
            None => 0,
        }
    }

    /// The number of fixtures in the losers bracket.
    pub open spec fn losers_count(self) -> int {
        match self.brackets.losers {
            Some(fixtures) => fixtures@.len() as int,
            None => 0,
        }
    }

    /// The number of fixtures in the grand final.
    pub open spec fn final_count(self) -> int {
        match self.grand_final {
            Some(fixtures) => fixtures@.len() as int,
            None => 0,
        }
    }

    /// The number of all fixtures.
    pub open spec fn fixture_count(self) -> int {
        self.group_count() + self.brackets.winners@.len() + self.losers_count()
            + self.final_count()
    }

    /// The number of all fixtures.
    pub fn count_fixtures(&self) -> (n: u128)
        ensures
            n == self.fixture_count(),
    {
        let groups = match &self.brackets.groups {
            Some(fixtures) => fixtures.len(),
            None => 0,
        };
        let losers = match &self.brackets.losers {
            Some(fixtures) => fixtures.len(),
            None => 0,
        };
        let last = match &self.grand_final {
            Some(fixtures) => fixtures.len(),
            None => 0,
        };
        groups as u128 + self.brackets.winners.len() as u128 + losers as u128 + last as u128
    }

    /// The final standings of the tournament, the best team first: the
    /// outcome of its playoffs, which a group stage precedes where the
    /// tournament has group fixtures.
    pub open spec fn resolved(self) -> Result<Seq<TeamPlacementView>, TournamentError> {
        match self.brackets.groups {
            Some(_) => match group_stage(self) {
                Err(e) => Err(e),
                Ok(outcome) => playoffs_resolved(outcome.table, self, Some(outcome.qualifiers)),
            },
            None => playoffs_resolved(Seq::empty(), self, None),
        }
    }

    /// Resolves the tournament. The standings that come back hold each team
    /// of the fixtures played once, and no other team, and carry the ranks
    /// 1, 2, 3 and so on: taken as a multiset, the ranks of `n` teams are
    /// the numbers from 1 to `n`.
    /// Without a group stage, the winners bracket has one fixture less than
    /// there are playoff teams, and each playoff team has its rank.
    pub fn run(&self) -> (r: Result<Vec<TeamPlacement>, TournamentFailure>)
        requires
            self.brackets.groups matches Some(fixtures) ==> fixtures@.len() <= MAX_GROUP_FIXTURES,
        ensures
            match self.resolved() {
                Ok(standings) => r is Ok && placement_views(r->Ok_0@) == standings,
                Err(e) => r is Err && r->Err_0.error == e && r->Err_0.tournament_name@
                    == self.tournament_name@,
            },
            r is Ok ==> r->Ok_0@.len() <= TEAM_COUNT && ranks_of(placement_views(r->Ok_0@))
                =~= Seq::new(r->Ok_0@.len(), |k: int| k + 1),
            r is Ok ==> is_standings(placement_views(r->Ok_0@)),
            r is Ok ==> forall|name: TeamName|
                occurs(placement_views(r->Ok_0@), name) <==> #[trigger] takes_part(*self, name),
            r is Ok && self.brackets.groups is None ==> self.brackets.winners@.len()
                == self.playoff_teams - 1 && r->Ok_0@.len() == self.playoff_teams,
            r is Ok ==> crate::statter::placements::table_bounded(
                placement_views(r->Ok_0@),
                510 * self.fixture_count(),
            ),
    {
        let playoffs = match self.brackets.groups {
            Some(_) => match GroupStage::from(self).run() {
                Err(e) => {
                    return Err(e);
                },
                Ok(playoffs) => playoffs,
            },
            None => PlayoffStage::from(self),
        };
        let r = playoffs.run();
        proof {
            if r is Ok {
                assert forall|name: TeamName|
                    occurs(placement_views(r->Ok_0@), name) <==> #[trigger] takes_part(
                        *self,
                        name,
                    ) by {
                    lemma_standings_hold_who_played(*self, name);
                }
            }
        }
        r
    }
}

/// The ranking points for each rank from the first on; every later rank
/// earns what the last entry says.
pub open spec fn points_table() -> Seq<u32> {
    seq![
        1500u32,
        1100u32,
        900u32,
        750u32,
        600u32,
        500u32,
        400u32,
        300u32,
        200u32,
        100u32,
        50u32,
        25u32,
        12u32,
        6u32,
        3u32,
        1u32,
        0u32,
    ]
}

/// The ranking points that a rank earns; ranks count from 1.
pub open spec fn points_for(rank: u8) -> u32 {
    if 1 <= rank <= 16 {
        points_table()[rank - 1]
    } else {
        points_table()[16]
    }
}

/// The most ranking points that one tournament gives.
pub const MAX_POINTS: u32 = 1500;

/// The ranking points that a rank from 1 on earns.
pub fn ranking_points_of(rank: u8) -> (points: u32)
    requires
        rank >= 1,
    ensures
        points == points_for(rank),
        points <= MAX_POINTS,
{
    match rank {
        1 => 1500,
        2 => 1100,
        3 => 900,
        4 => 750,
        5 => 600,
        6 => 500,
        7 => 400,
        8 => 300,
        9 => 200,
        10 => 100,
        11 => 50,
        12 => 25,
        13 => 12,
        14 => 6,
        15 => 3,
        16 => 1,
        _ => 0,
    }
}

/// The outcome of a tournament: what it was, and its teams from the first
/// rank to the last.
#[derive(Debug)]
pub struct TournamentResult {
    pub tournament_name: String,
    pub season_num: u8,
    pub date: Datetime,
    pub team_placements: Vec<TeamPlacement>,
}

pub struct TournamentResultView {
    pub tournament_name: Seq<char>,
    pub season_num: u8,
    pub date: Datetime,
    pub team_placements: Seq<TeamPlacementView>,
}

impl View for TournamentResult {
    type V = TournamentResultView;

    open spec fn view(&self) -> TournamentResultView {
        TournamentResultView {
            tournament_name: self.tournament_name@,
            season_num: self.season_num,
            date: self.date,
            team_placements: placement_views(self.team_placements@),
        }
    }
}

/// Whether the list is the standings of a tournament: no team is in it
/// twice, and the teams carry the ranks 1, 2, 3 and so on.
pub open spec fn is_standings(standings: Seq<TeamPlacementView>) -> bool {
    &&& crate::statter::placements::names_distinct(standings)
    &&& forall|k: int|
        0 <= k < standings.len() ==> (#[trigger] standings[k]).placement == Some((k + 1) as u8)
}

/// Standings hold at most as many teams as there are, and each has a rank
/// from 1 on.
pub proof fn lemma_standings_are_few(standings: Seq<TeamPlacementView>)
    requires
        is_standings(standings),
    ensures
        standings.len() <= TEAM_COUNT,
        all_ranked(standings),
{
    let names = Seq::new(standings.len(), |k: int| standings[k].team.name);
    crate::statter::team::lemma_distinct_names_are_few(names);
}

/// The ranks of standings of `n` teams, taken as a multiset, are the
/// numbers from 1 to `n`.
pub proof fn lemma_standings_ranks(standings: Seq<TeamPlacementView>)
    requires
        is_standings(standings),
    ensures
        ranks_of(standings) =~= Seq::new(standings.len(), |k: int| k + 1),
        ranks_of(standings).to_multiset() == Seq::new(standings.len(), |k: int| k + 1).to_multiset(),
{
    lemma_standings_are_few(standings);
    assert(ranks_of(standings) =~= Seq::new(standings.len(), |k: int| k + 1));
}

/// Whether every team has a rank from 1 on.
pub open spec fn all_ranked(standings: Seq<TeamPlacementView>) -> bool {
    forall|k: int|
        0 <= k < standings.len() ==> (#[trigger] standings[k]).placement is Some
            && standings[k].placement->0 >= 1
}

/// What a team takes into the season's ranking from one tournament: the
/// ranking points of its rank.
pub open spec fn ranked_entry(p: TeamPlacementView) -> RankedTeamView {
    RankedTeamView {
        name: p.team.name,
        ranking_points: seq![points_for(p.placement->0)],
        ranks: Seq::empty(),
    }
}

impl TournamentResult {
    pub fn from(team_placements: Vec<TeamPlacement>, tourny: Tournament) -> (r: Self)
        ensures
            r@ == (TournamentResultView {
                tournament_name: tourny.tournament_name@,
                season_num: tourny.season_num,
                date: tourny.date,
                team_placements: placement_views(team_placements@),
            }),
    {
        TournamentResult {
            tournament_name: tourny.tournament_name,
            season_num: tourny.season_num,
            date: tourny.date,
            team_placements,
        }
    }

    /// The teams with the ranking points of their ranks, in the order of
    /// the ranks.
    pub fn get_teams_ranked(&self) -> (r: Vec<RankedTeam>)
        requires
            all_ranked(self@.team_placements),
        ensures
            r@.len() == self@.team_placements.len(),
            forall|k: int|
                0 <= k < r@.len() ==> (#[trigger] r@[k])@ == ranked_entry(
                    self@.team_placements[k],
                ),
    {
        let mut r: Vec<RankedTeam> = Vec::new();
        let mut i: usize = 0;
        while i < self.team_placements.len()
            invariant
                i <= self.team_placements@.len(),
                all_ranked(self@.team_placements),
                r@.len() == i,
                forall|k: int|
                    0 <= k < i ==> (#[trigger] r@[k])@ == ranked_entry(self@.team_placements[k]),
            decreases self.team_placements.len() - i,
        {
            let tp = &self.team_placements[i];
            assert(self@.team_placements[i as int] == tp@);
            let rank = match tp.placement {
                Some(rank) => rank,
                None => 1,
            };
            let mut ranking_points: Vec<u32> = Vec::new();
            ranking_points.push(ranking_points_of(rank));
            let entry = RankedTeam { name: tp.team.name, ranking_points, ranks: Vec::new() };
            assert(entry@.ranking_points =~= seq![points_for(rank)]);
            assert(entry@.ranks =~= Seq::<u8>::empty());
            r.push(entry);
            i += 1;
        }
        r
    }
}

/// One tournament a team took part in, and where it finished.
#[derive(Debug)]
pub struct Participation {
    pub tournament_name: String,
    pub date: Datetime,
    pub placement: u8,
}

pub struct ParticipationView {
    pub tournament_name: Seq<char>,
    pub date: Datetime,
    pub placement: u8,
}

impl View for Participation {
    type V = ParticipationView;

    open spec fn view(&self) -> ParticipationView {
        ParticipationView {
            tournament_name: self.tournament_name@,
            date: self.date,
            placement: self.placement,
        }
    }
}

impl Participation {
    pub fn new(tournament_name: String, placement: u8, date: Datetime) -> (p: Self)
        ensures
            p@ == (ParticipationView { tournament_name: tournament_name@, date, placement }),
    {
        Participation { tournament_name, date, placement }
    }
}

} // verus!
