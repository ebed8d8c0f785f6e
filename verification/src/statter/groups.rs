use vstd::prelude::*;
use crate::ordering::{arranged, first_fault, indices, is_permutation, order_of, row_fault, slot};
use crate::ordering::is_strict_order;
use crate::ordering::{lemma_first_fault, lemma_order_is_permutation, lemma_order_strictly_in_order};
use crate::ordering::lemma_fault_found;
use crate::statter::fixture::Fixture;
use crate::statter::placements::{TournamentPlacements, placed, updated, table_bounded, names_distinct};
use crate::statter::placements::{lemma_placed, lemma_updated, lemma_table_bounded_mono, COUNTER_LIMIT};
use crate::statter::playoffs::PlayoffStage;
use crate::statter::team::{TeamName, TeamPlacementView, TEAM_COUNT, lemma_distinct_names_are_few};
use crate::statter::tournament::{GroupID, HeadToHead, Stage, Tournament, TournamentError};
use crate::statter::tournament::TournamentFailure;

verus! {

/// How one team stands to another.
#[derive(Debug, Clone, Copy, PartialEq, Eq, Structural)]
pub enum Verdict {
    Ahead,
    Level,
    Behind,
}

/// What a team has gathered in its group.
#[derive(Debug, Clone, Copy, PartialEq, Eq, Structural)]
pub struct GroupTeam {
    pub group: GroupID,
    pub team: TeamName,
    pub points: u32,
    pub goals_for: u32,
    pub goals_against: u32,
    pub head_to_head: Option<u8>,
}

impl GroupTeam {
    /// The points for a result: 3 for a win, 1 for a draw, 0 for a loss.
    pub open spec fn result_points(goals_for: u8, goals_against: u8) -> u8 {
        if goals_for > goals_against {
            3
        } else if goals_for == goals_against {
            1
        } else {
            0
        }
    }

    /// The standing after a team's first result.
    pub open spec fn first_result(
        group: GroupID,
        team: TeamName,
        goals_for: u8,
        goals_against: u8,
    ) -> GroupTeam {
        GroupTeam {
            group,
            team,
            points: Self::result_points(goals_for, goals_against) as u32,
            goals_for: goals_for as u32,
            goals_against: goals_against as u32,
            head_to_head: None,
        }
    }

    /// The standing with one more result counted.
    pub open spec fn with_result(self, goals_for: u8, goals_against: u8) -> GroupTeam {
        GroupTeam {
            points: (self.points + Self::result_points(goals_for, goals_against)) as u32,
            goals_for: (self.goals_for + goals_for) as u32,
            goals_against: (self.goals_against + goals_against) as u32,
            ..self
        }
    }

    /// Whether none of the standing's numbers exceeds `bound`.
    pub open spec fn bounded_by(self, bound: int) -> bool {
        self.points <= bound && self.goals_for <= bound && self.goals_against <= bound
    }

    /// Goals scored less goals conceded.
    pub open spec fn goal_difference(self) -> int {
        self.goals_for - self.goals_against
    }

    /// How `self` stands to `other`: by points, then goal difference, then
    /// goals scored, then, where both have one, the decider value.
    pub open spec fn versus(self, other: GroupTeam) -> Verdict {
        if self.points != other.points {
            if self.points > other.points {
                Verdict::Ahead
            } else {
                Verdict::Behind
            }
        } else if self.goal_difference() != other.goal_difference() {
            if self.goal_difference() > other.goal_difference() {
                Verdict::Ahead
            } else {
                Verdict::Behind
            }
        } else if self.goals_for != other.goals_for {
            if self.goals_for > other.goals_for {
                Verdict::Ahead
            } else {
                Verdict::Behind
            }
        } else {
            match (self.head_to_head, other.head_to_head) {
                (Some(a), Some(b)) => if a > b {
                    Verdict::Ahead
                } else if a < b {
                    Verdict::Behind
                } else {
                    Verdict::Level
                },
                _ => Verdict::Level,
            }
        }
    }

    pub fn from_fixture_result(group: GroupID, team: TeamName, goals_for: u8, goals_against: u8) -> (r:
        Self)
        ensures
            r == Self::first_result(group, team, goals_for, goals_against),
    {
        GroupTeam {
            group,
            team,
            points: Self::points_from_fixture_result(goals_for, goals_against) as u32,
            goals_for: goals_for as u32,
            goals_against: goals_against as u32,
            head_to_head: None,
        }
    }

    pub fn points_from_fixture_result(goals_for: u8, goals_against: u8) -> (p: u8)
        ensures
            p == Self::result_points(goals_for, goals_against),
    {
        if goals_for > goals_against {
            3
        } else if goals_for == goals_against {
            1
        } else {
            0
        }
    }

    pub fn add_from_fixture_result(&mut self, goals_for: u8, goals_against: u8)
        requires
            old(self).bounded_by(u32::MAX - 255),
        ensures
            *final(self) == old(self).with_result(goals_for, goals_against),
    {
        self.points = self.points + Self::points_from_fixture_result(goals_for, goals_against) as u32;
        self.goals_for = self.goals_for + goals_for as u32;
        self.goals_against = self.goals_against + goals_against as u32;
    }

    /// How `self` stands to `other`.
    pub fn compare(&self, other: &GroupTeam) -> (v: Verdict)
        ensures
            v == self.versus(*other),
    {
        if self.points != other.points {
            return if self.points > other.points {
                Verdict::Ahead
            } else {
                Verdict::Behind
            };
        }
        let mine: i64 = self.goals_for as i64 - self.goals_against as i64;
        let theirs: i64 = other.goals_for as i64 - other.goals_against as i64;
        if mine != theirs {
            return if mine > theirs {
                Verdict::Ahead
            } else {
                Verdict::Behind
            };
        }
        if self.goals_for != other.goals_for {
            return if self.goals_for > other.goals_for {
                Verdict::Ahead
            } else {
                Verdict::Behind
            };
        }
        match (self.head_to_head, other.head_to_head) {
            (Some(a), Some(b)) => {
                if a > b {
                    Verdict::Ahead
                } else if a < b {
                    Verdict::Behind
                } else {
                    Verdict::Level
                }
            },
            _ => Verdict::Level,
        }
    }
}

/// The fault of the pair `(i, j)` of `teams`: that the two are level.
pub open spec fn tie_fault(teams: Seq<GroupTeam>) -> spec_fn(int, int) -> Option<TournamentError> {
    |i: int, j: int|
        if teams[i].versus(teams[j]) == Verdict::Level {
            Some(TournamentError::UnresolvedGroupOrder(teams[i].team, teams[j].team))
        } else {
            None
        }
}

/// Whether the team at `i` is ahead of the team at `j`.
pub open spec fn ahead_in(teams: Seq<GroupTeam>) -> spec_fn(int, int) -> bool {
    |i: int, j: int| teams[i].versus(teams[j]) == Verdict::Ahead
}

/// The teams from the best to the worst, or the two teams that are level,
/// if any two are.
pub open spec fn ranking(teams: Seq<GroupTeam>) -> Result<Seq<GroupTeam>, TournamentError> {
    match first_fault(teams.len(), tie_fault(teams)) {
        Some(e) => Err(e),
        None => Ok(arranged(teams, order_of(teams.len(), ahead_in(teams)))),
    }
}

/// A ranking holds each of the teams once, and each team in it is ahead of
/// all that follow.
pub proof fn lemma_ranking(teams: Seq<GroupTeam>)
    requires
        ranking(teams) is Ok,
    ensures
        is_permutation(order_of(teams.len(), ahead_in(teams)), teams.len()),
        ranking(teams)->Ok_0.len() == teams.len(),
        forall|k: int, l: int|
            0 <= k < l < teams.len() ==> (#[trigger] ranking(teams)->Ok_0[k]).versus(
                #[trigger] ranking(teams)->Ok_0[l],
            ) == Verdict::Ahead,
{
    let n = teams.len();
    let before = ahead_in(teams);
    lemma_first_fault(n, tie_fault(teams));
    assert forall|a: int, b: int| 0 <= a < n && 0 <= b < n && a != b implies #[trigger] before(a, b)
        || before(b, a) by {
        if a < b {
            assert(tie_fault(teams)(a, b) is None);
        } else {
            assert(tie_fault(teams)(b, a) is None);
        }
    }
    assert(is_strict_order(n, before));
    lemma_order_strictly_in_order(n, before);
    lemma_order_is_permutation(n, before);
    let order = order_of(n, before);
    let r = ranking(teams)->Ok_0;
    assert forall|k: int, l: int| 0 <= k < l < n implies (#[trigger] r[k]).versus(#[trigger] r[l])
        == Verdict::Ahead by {
        assert(before(order[k], order[l]));
    }
}

/// Teams cannot be ranked just when two of them are level, and the fault
/// names two such teams.
pub proof fn lemma_ranking_fault(teams: Seq<GroupTeam>)
    ensures
        ranking(teams) is Err <==> exists|i: int, j: int|
            0 <= i < j < teams.len() && (#[trigger] teams[i]).versus(#[trigger] teams[j])
                == Verdict::Level,
        ranking(teams) is Err ==> exists|i: int, j: int|
            0 <= i < j < teams.len() && (#[trigger] teams[i]).versus(#[trigger] teams[j])
                == Verdict::Level && ranking(teams)->Err_0
                == TournamentError::UnresolvedGroupOrder(teams[i].team, teams[j].team),
{
    let fault = tie_fault(teams);
    lemma_first_fault(teams.len(), fault);
    if ranking(teams) is Err {
        let (i, j) = choose|i: int, j: int|
            0 <= i < j < teams.len() && #[trigger] fault(i, j) == first_fault(teams.len(), fault);
        assert(teams[i].versus(teams[j]) == Verdict::Level);
    } else {
        assert forall|i: int, j: int| 0 <= i < j < teams.len() implies (#[trigger] teams[i]).versus(
            #[trigger] teams[j],
        ) != Verdict::Level by {
            assert(fault(i, j) is None);
        }
    }
    if exists|i: int, j: int|
        0 <= i < j < teams.len() && (#[trigger] teams[i]).versus(#[trigger] teams[j])
            == Verdict::Level {
        let (i, j) = choose|i: int, j: int|
            0 <= i < j < teams.len() && (#[trigger] teams[i]).versus(#[trigger] teams[j])
                == Verdict::Level;
        assert(fault(i, j) is Some);
    }
}

/// The teams of one group, or the candidates for the wildcards.
#[derive(Debug)]
pub struct GroupTeams {
    pub teams: Vec<GroupTeam>,
}

impl View for GroupTeams {
    type V = Seq<GroupTeam>;

    open spec fn view(&self) -> Seq<GroupTeam> {
        self.teams@
    }
}

impl GroupTeams {
    pub fn from(teams: Vec<GroupTeam>) -> (r: Self)
        ensures
            r@ == teams@,
    {
        GroupTeams { teams }
    }

    /// The first two teams that are level, if any two are.
    fn find_tie(&self) -> (r: Option<TournamentError>)
        ensures
            r == first_fault(self@.len(), tie_fault(self@)),
    {
        let mut j: usize = 0;
        while j < self.teams.len()
            invariant
                j <= self.teams.len(),
                first_fault(j as nat, tie_fault(self@)) is None,
            decreases self.teams.len() - j,
        {
            let mut i: usize = 0;
            while i < j
                invariant
                    i <= j,
                    j < self.teams.len(),
                    first_fault(j as nat, tie_fault(self@)) is None,
                    row_fault(j as int, i as nat, tie_fault(self@)) is None,
                decreases j - i,
            {
                match self.teams[i].compare(&self.teams[j]) {
                    Verdict::Level => {
                        let e = TournamentError::UnresolvedGroupOrder(
                            self.teams[i].team,
                            self.teams[j].team,
                        );
                        proof {
                            assert(tie_fault(self@)(i as int, j as int) == Some(e));
                            assert(row_fault(j as int, (i + 1) as nat, tie_fault(self@)) == Some(e));
                            lemma_fault_found(self@.len(), tie_fault(self@), j as int, i as int);
                        }
                        return Some(e);
                    },
                    _ => {},
                }
                i += 1;
            }
            j += 1;
        }
        None
    }

    /// Puts the teams in order, the best first. Where two teams are level,
    /// the teams stay as they are.
    pub fn sort_teams(&mut self) -> (r: Result<(), TournamentError>)
        ensures
            match ranking(old(self)@) {
                Ok(ranked) => r is Ok && final(self)@ == ranked,
                Err(e) => r == Err::<(), TournamentError>(e) && final(self)@ == old(self)@,
            },
    {
        match self.find_tie() {
            Some(e) => {
                return Err(e);
            },
            None => {},
        }
        let ghost before = ahead_in(self@);
        let mut order: Vec<usize> = Vec::new();
        let mut i: usize = 0;
        while i < self.teams.len()
            invariant
                i <= self.teams.len(),
                before == ahead_in(self@),
                is_permutation(indices(order@), i as nat),
                indices(order@) == order_of(i as nat, before),
            decreases self.teams.len() - i,
        {
            let mut p: usize = order.len();
            let ghost r = indices(order@);
            assert(r.take(p as int) =~= r);
            while p > 0 && self.teams[i].compare(&self.teams[order[p - 1]]) == Verdict::Ahead
                invariant
                    p <= order.len(),
                    i < self.teams.len(),
                    r == indices(order@),
                    before == ahead_in(self@),
                    is_permutation(r, i as nat),
                    slot(r, i as int, before) == slot(r.take(p as int), i as int, before),
                decreases p,
            {
                assert(r.take(p as int).drop_last() =~= r.take(p - 1));
                assert(r[p - 1] == order@[p - 1]);
                p = p - 1;
            }
            proof {
                if p > 0 {
                    assert(r[p - 1] == order@[p - 1]);
                    assert(r.take(p as int).last() == r[p - 1]);
                }
            }
            order.insert(p, i);
            proof {
                assert(indices(order@) =~= r.insert(p as int, i as int));
                lemma_order_is_permutation((i + 1) as nat, before);
            }
            i += 1;
        }
        let mut ranked: Vec<GroupTeam> = Vec::new();
        let mut k: usize = 0;
        while k < order.len()
            invariant
                k <= order.len(),
                order@.len() == self.teams@.len(),
                is_permutation(indices(order@), self.teams@.len() as nat),
                ranked@ == arranged(self@, indices(order@)).take(k as int),
            decreases order.len() - k,
        {
            assert(indices(order@)[k as int] == order@[k as int]);
            ranked.push(self.teams[order[k]]);
            assert(ranked@ =~= arranged(self@, indices(order@)).take(k + 1));
            k += 1;
        }
        assert(ranked@ =~= arranged(self@, indices(order@)));
        self.teams = ranked;
        Ok(())
    }
}

/// The most group fixtures a tournament may have: with more, a team's
/// numbers could outgrow their fields.
pub const MAX_GROUP_FIXTURES: usize = 8_000_000;

/// Whether `i` is the place of the first standing of `team` in `list`.
pub open spec fn is_standing_of(list: Seq<GroupTeam>, team: TeamName, i: int) -> bool {
    &&& 0 <= i < list.len()
    &&& list[i].team == team
    &&& forall|j: int| 0 <= j < i ==> list[j].team != team
}

/// Whether `list` has a standing of `team`.
pub open spec fn has_standing(list: Seq<GroupTeam>, team: TeamName) -> bool {
    exists|i: int| is_standing_of(list, team, i)
}

/// The place of the first standing of `team` in a list that has one.
pub open spec fn standing_of(list: Seq<GroupTeam>, team: TeamName) -> int {
    choose|i: int| is_standing_of(list, team, i)
}

/// Whether no team has two standings.
pub open spec fn standings_distinct(list: Seq<GroupTeam>) -> bool {
    forall|i: int, j: int| 0 <= i < j < list.len() ==> (#[trigger] list[i]).team != (
    #[trigger] list[j]).team
}

/// Whether no number in any standing exceeds `bound`.
pub open spec fn standings_bounded(list: Seq<GroupTeam>, bound: int) -> bool {
    forall|i: int| 0 <= i < list.len() ==> (#[trigger] list[i]).bounded_by(bound)
}

/// The standings with a result of `team` counted: in its standing, or in a
/// new one in `group` at the end.
pub open spec fn entered(
    list: Seq<GroupTeam>,
    group: GroupID,
    team: TeamName,
    goals_for: u8,
    goals_against: u8,
) -> Seq<GroupTeam> {
    if has_standing(list, team) {
        let i = standing_of(list, team);
        list.update(i, list[i].with_result(goals_for, goals_against))
    } else {
        list.push(GroupTeam::first_result(group, team, goals_for, goals_against))
    }
}

/// What the group fixtures have come to: the placements, the standings and
/// the groups, each in the order of first appearance.
pub struct GroupTally {
    pub table: Seq<TeamPlacementView>,
    pub standings: Seq<GroupTeam>,
    pub groups: Seq<GroupID>,
}

/// The tally with one more fixture of group `g`.
pub open spec fn tallied(tally: GroupTally, f: Fixture, g: GroupID, tournament_name: Seq<char>) -> GroupTally {
    GroupTally {
        table: updated(tally.table, f, tournament_name),
        standings: entered(
            entered(tally.standings, g, f.team1, f.score1, f.score2),
            g,
            f.team2,
            f.score2,
            f.score1,
        ),
        groups: if tally.groups.contains(g) {
            tally.groups
        } else {
            tally.groups.push(g)
        },
    }
}

/// The tally of the group fixtures, or the first thing wrong with one: that
/// it cannot be entered, or that it names no group.
pub open spec fn groups_played(fixtures: Seq<Fixture>, tournament_name: Seq<char>) -> Result<
    GroupTally,
    TournamentError,
>
    decreases fixtures.len(),
{
    if fixtures.len() == 0 {
        Ok(GroupTally { table: Seq::empty(), standings: Seq::empty(), groups: Seq::empty() })
    } else {
        match groups_played(fixtures.drop_last(), tournament_name) {
            Err(e) => Err(e),
            Ok(tally) => {
                let f = fixtures.last();
                match crate::statter::placements::update_fault(f, true) {
                    Some(e) => Err(TournamentError::Update(Stage::Groups, e)),
                    None => match f.group {
                        None => Err(TournamentError::MissingGroupID(f.team1, f.team2)),
                        Some(g) => Ok(tallied(tally, f, g, tournament_name)),
                    },
                }
            },
        }
    }
}

/// The standings with the decider values filled in, or the first team with
/// a decider value and no standing.
pub open spec fn decided(standings: Seq<GroupTeam>, deciders: Seq<HeadToHead>) -> Result<
    Seq<GroupTeam>,
    TournamentError,
>
    decreases deciders.len(),
{
    if deciders.len() == 0 {
        Ok(standings)
    } else {
        match decided(standings, deciders.drop_last()) {
            Err(e) => Err(e),
            Ok(list) => {
                let d = deciders.last();
                if has_standing(list, d.team) {
                    let i = standing_of(list, d.team);
                    Ok(list.update(i, GroupTeam { head_to_head: Some(d.decider_points), ..list[i] }))
                } else {
                    Err(TournamentError::UnknownHeadToHeadTeam(d.team))
                }
            },
        }
    }
}

/// The standings of the teams of group `g`, in the order of `standings`.
pub open spec fn members_of(standings: Seq<GroupTeam>, g: GroupID) -> Seq<GroupTeam>
    decreases standings.len(),
{
    if standings.len() == 0 {
        Seq::empty()
    } else {
        let rest = members_of(standings.drop_last(), g);
        if standings.last().group == g {
            rest.push(standings.last())
        } else {
            rest
        }
    }
}

/// The teams that go through by their rank in the group, and the best team
/// of each group that does not: the candidates for the wildcards.
pub struct Selection {
    pub qualifiers: Seq<GroupTeam>,
    pub candidates: Seq<GroupTeam>,
}

/// From each group its `per_group` best teams, and the next one, where the
/// group has one, as a candidate; or the first group that cannot be ranked
/// or has fewer than `per_group` teams.
pub open spec fn selected(standings: Seq<GroupTeam>, groups: Seq<GroupID>, per_group: int) -> Result<
    Selection,
    TournamentError,
>
    decreases groups.len(),
{
    if groups.len() == 0 {
        Ok(Selection { qualifiers: Seq::empty(), candidates: Seq::empty() })
    } else {
        match selected(standings, groups.drop_last(), per_group) {
            Err(e) => Err(e),
            Ok(sel) => match ranking(members_of(standings, groups.last())) {
                Err(e) => Err(e),
                Ok(ranked) => if per_group > ranked.len() {
                    Err(TournamentError::GroupTooSmall(groups.last()))
                } else {
                    Ok(
                        Selection {
                            qualifiers: sel.qualifiers + ranked.take(per_group),
                            candidates: if per_group < ranked.len() {
                                sel.candidates.push(ranked[per_group])
                            } else {
                                sel.candidates
                            },
                        },
                    )
                },
            },
        }
    }
}

/// The teams that reach the playoffs: of `playoff_teams` places each group
/// fills the same number by rank, and the places left over go to the best
/// of the candidates. There must be a candidate for each place left over.
pub open spec fn qualified(standings: Seq<GroupTeam>, groups: Seq<GroupID>, playoff_teams: u8) -> Result<
    Seq<GroupTeam>,
    TournamentError,
> {
    if groups.len() == 0 {
        Err(TournamentError::NoGroups)
    } else {
        let per_group = playoff_teams as int / groups.len() as int;
        let wildcards = playoff_teams as int % groups.len() as int;
        match selected(standings, groups, per_group) {
            Err(e) => Err(e),
            Ok(sel) => match ranking(sel.candidates) {
                Err(e) => Err(e),
                Ok(ranked) => if wildcards > ranked.len() {
                    Err(
                        TournamentError::MissingWildcardCandidate {
                            expected: wildcards as usize,
                            found: ranked.len() as usize,
                        },
                    )
                } else {
                    Ok(sel.qualifiers + ranked.take(wildcards))
                },
            },
        }
    }
}

/// The standings that are not among `qualifiers`, in the order of
/// `standings`.
pub open spec fn eliminated_of(standings: Seq<GroupTeam>, qualifiers: Seq<GroupTeam>) -> Seq<
    GroupTeam,
>
    decreases standings.len(),
{
    if standings.len() == 0 {
        Seq::empty()
    } else {
        let rest = eliminated_of(standings.drop_last(), qualifiers);
        if qualifiers.contains(standings.last()) {
            rest
        } else {
            rest.push(standings.last())
        }
    }
}

/// The table with the teams of `ranked` placed from the last rank, `count`,
/// upwards: the last team of `ranked` gets `count`, the one before it one
/// less, and so on.
pub open spec fn eliminations(table: Seq<TeamPlacementView>, ranked: Seq<GroupTeam>, count: int) -> Seq<
    TeamPlacementView,
>
    decreases ranked.len(),
{
    if ranked.len() == 0 {
        table
    } else {
        eliminations(placed(table, ranked.last().team, count as u8), ranked.drop_last(), count - 1)
    }
}

/// The decider values of a tournament.
pub open spec fn deciders_of(t: Tournament) -> Seq<HeadToHead> {
    match t.head_to_head {
        Some(list) => list@,
        None => Seq::empty(),
    }
}

/// What the group stage hands to the playoffs.
pub struct GroupOutcome {
    pub table: Seq<TeamPlacementView>,
    pub qualifiers: Seq<GroupTeam>,
}

/// The outcome of a tournament's group stage: every group fixture entered,
/// the teams that reach the playoffs picked, and all others placed behind
/// them, the worst last.
pub open spec fn group_stage(t: Tournament) -> Result<GroupOutcome, TournamentError> {
    match t.brackets.groups {
        None => Err(TournamentError::MissingGroupStage),
        Some(fixtures) => match groups_played(fixtures@, t.tournament_name@) {
            Err(e) => Err(e),
            Ok(tally) => match decided(tally.standings, deciders_of(t)) {
                Err(e) => Err(e),
                Ok(standings) => match qualified(standings, tally.groups, t.playoff_teams) {
                    Err(e) => Err(e),
                    Ok(qualifiers) => match ranking(eliminated_of(standings, qualifiers)) {
                        Err(e) => Err(e),
                        Ok(out) => Ok(
                            GroupOutcome {
                                table: eliminations(tally.table, out, standings.len() as int),
                                qualifiers,
                            },
                        ),
                    },
                },
            },
        },
    }
}

/// The standings that are left out are no more than there are standings.
pub proof fn lemma_eliminated_len(standings: Seq<GroupTeam>, qualifiers: Seq<GroupTeam>)
    ensures
        eliminated_of(standings, qualifiers).len() <= standings.len(),
    decreases standings.len(),
{
    if standings.len() > 0 {
        lemma_eliminated_len(standings.drop_last(), qualifiers);
    }
}

/// The group stage of a tournament before it is resolved.
#[derive(Debug)]
pub struct GroupStage<'a> {
    pub placements: TournamentPlacements,
    pub tournament: &'a Tournament,
}

impl<'a> GroupStage<'a> {
    /// Whether the stage is as `from` made it: nothing is entered yet.
    pub open spec fn wf(self) -> bool {
        self.placements@.len() == 0
    }

    pub fn from(tournament: &'a Tournament) -> (s: Self)
        ensures
            s.wf(),
            s.tournament == tournament,
    {
        GroupStage { placements: TournamentPlacements::new(), tournament }
    }

    /// Resolves the group stage and hands over to the playoffs: as many
    /// teams as there are playoff places go on. A fault comes back with the
    /// name of the tournament.
    pub fn run(self) -> (r: Result<PlayoffStage<'a>, TournamentFailure>)
        requires
            self.wf(),
            self.tournament.brackets.groups matches Some(fixtures) ==> fixtures@.len()
                <= MAX_GROUP_FIXTURES,
        ensures
            match group_stage(*self.tournament) {
                Ok(outcome) => {
                    &&& r is Ok
                    &&& r->Ok_0.placements@ == outcome.table
                    &&& r->Ok_0.tournament == self.tournament
                    &&& r->Ok_0.qualifying_teams is Some
                    &&& r->Ok_0.qualifying_teams->0@ == outcome.qualifiers
                    &&& outcome.qualifiers.len() == self.tournament.playoff_teams
                    &&& names_distinct(outcome.table)
                    &&& table_bounded(
                        outcome.table,
                        510 * self.tournament.brackets.groups->0@.len() as int,
                    )
                },
                Err(e) => r is Err && r->Err_0.error == e && r->Err_0.tournament_name@
                    == self.tournament.tournament_name@,
            },
    {
        let tournament = self.tournament;
        proof {
            if group_stage(*tournament) is Ok {
                crate::statter::qualification::lemma_group_stage(*tournament);
            }
        }
        match self.resolve() {
            Ok(playoffs) => Ok(playoffs),
            Err(e) => Err(tournament.failure(e)),
        }
    }

    /// Resolves the group stage and hands over to the playoffs.
    #[verifier::loop_isolation(false)]
    fn resolve(self) -> (r: Result<PlayoffStage<'a>, TournamentError>)
        requires
            self.wf(),
            self.tournament.brackets.groups matches Some(fixtures) ==> fixtures@.len()
                <= MAX_GROUP_FIXTURES,
        ensures
            match group_stage(*self.tournament) {
                Ok(outcome) => {
                    &&& r is Ok
                    &&& r->Ok_0.placements@ == outcome.table
                    &&& r->Ok_0.tournament == self.tournament
                    &&& r->Ok_0.qualifying_teams is Some
                    &&& r->Ok_0.qualifying_teams->0@ == outcome.qualifiers
                    &&& names_distinct(outcome.table)
                    &&& table_bounded(
                        outcome.table,
                        510 * self.tournament.brackets.groups->0@.len() as int,
                    )
                },
                Err(e) => r is Err && r->Err_0 == e,
            },
    {
        let GroupStage { placements, tournament } = self;
        let mut table = placements;
        assert(table@ =~= Seq::<TeamPlacementView>::empty());
        let fixtures = match &tournament.brackets.groups {
            Some(f) => f,
            None => {
                return Err(TournamentError::MissingGroupStage);
            },
        };
        let name = tournament.tournament_name.as_str();
        let mut standings: Vec<GroupTeam> = Vec::new();
        let mut groups: Vec<GroupID> = Vec::new();
        let mut i: usize = 0;
        while i < fixtures.len()
            invariant
                i <= fixtures.len() <= MAX_GROUP_FIXTURES,
                groups_played(fixtures@.take(i as int), name@) == Ok::<GroupTally, TournamentError>(
                    GroupTally { table: table@, standings: standings@, groups: groups@ },
                ),
                table_bounded(table@, 510 * i),
                names_distinct(table@),
                standings_bounded(standings@, 510 * i),
                standings_distinct(standings@),
            decreases fixtures.len() - i,
        {
            let f = &fixtures[i];
            proof {
                assert(fixtures@.take(i + 1).drop_last() =~= fixtures@.take(i as int));
                lemma_updated(table@, *f, name@, 510 * i);
                lemma_table_bounded_mono(table@, 510 * i, COUNTER_LIMIT as int);
            }
            match table.update_teams(f, true, name) {
                Err(e) => {
                    proof {
                        lemma_groups_played_prefix_err(fixtures@, name@, i + 1);
                    }
                    return Err(TournamentError::Update(Stage::Groups, e));
                },
                Ok(()) => {},
            }
            let g = match f.group {
                Some(g) => g,
                None => {
                    proof {
                        lemma_groups_played_prefix_err(fixtures@, name@, i + 1);
                    }
                    return Err(TournamentError::MissingGroupID(f.team1, f.team2));
                },
            };
            if !has_group(&groups, g) {
                groups.push(g);
            }
            enter_result(&mut standings, g, f.team1, f.score1, f.score2, Ghost(510 * i));
            enter_result(&mut standings, g, f.team2, f.score2, f.score1, Ghost(510 * i + 255));
            i += 1;
        }
        assert(fixtures@.take(i as int) =~= fixtures@);
        let ghost tally = GroupTally { table: table@, standings: standings@, groups: groups@ };
        match &tournament.head_to_head {
            Some(deciders) => {
                match apply_deciders(&mut standings, deciders) {
                    Err(e) => {
                        return Err(e);
                    },
                    Ok(()) => {},
                }
            },
            None => {},
        }
        proof {
            let names = Seq::new(standings@.len(), |k: int| standings@[k].team);
            lemma_distinct_names_are_few(names);
        }
        let team_count = standings.len();
        if groups.len() == 0 {
            return Err(TournamentError::NoGroups);
        }
        let per_group = tournament.playoff_teams as usize / groups.len();
        let wildcards = tournament.playoff_teams as usize % groups.len();
        let mut qualifiers: Vec<GroupTeam> = Vec::new();
        let mut candidates: Vec<GroupTeam> = Vec::new();
        let mut gi: usize = 0;
        while gi < groups.len()
            invariant
                gi <= groups.len(),
                candidates@.len() <= gi,
                selected(standings@, groups@.take(gi as int), per_group as int) == Ok::<
                    Selection,
                    TournamentError,
                >(Selection { qualifiers: qualifiers@, candidates: candidates@ }),
            decreases groups.len() - gi,
        {
            proof {
                assert(groups@.take(gi + 1).drop_last() =~= groups@.take(gi as int));
            }
            let mut members = GroupTeams::from(group_members(&standings, groups[gi]));
            match members.sort_teams() {
                Err(e) => {
                    proof {
                        lemma_selected_prefix_err(standings@, groups@, per_group as int, gi + 1);
                    }
                    return Err(e);
                },
                Ok(()) => {},
            }
            if per_group > members.teams.len() {
                proof {
                    lemma_selected_prefix_err(standings@, groups@, per_group as int, gi + 1);
                }
                return Err(TournamentError::GroupTooSmall(groups[gi]));
            }
            push_first(&mut qualifiers, &members.teams, per_group);
            if per_group < members.teams.len() {
                candidates.push(members.teams[per_group]);
            }
            gi += 1;
        }
        assert(groups@.take(gi as int) =~= groups@);
        let ghost picked = candidates@;
        let mut best = GroupTeams::from(candidates);
        match best.sort_teams() {
            Err(e) => {
                return Err(e);
            },
            Ok(()) => {},
        }
        proof {
            lemma_ranking(picked);
        }
        if wildcards > best.teams.len() {
            return Err(
                TournamentError::MissingWildcardCandidate {
                    expected: wildcards,
                    found: best.teams.len(),
                },
            );
        }
        push_first(&mut qualifiers, &best.teams, wildcards);
        let ghost left_out = eliminated_of(standings@, qualifiers@);
        let mut out = GroupTeams::from(eliminated_teams(&standings, &qualifiers));
        match out.sort_teams() {
            Err(e) => {
                return Err(e);
            },
            Ok(()) => {},
        }
        proof {
            lemma_ranking(left_out);
            lemma_eliminated_len(standings@, qualifiers@);
        }
        let ghost before = table@;
        let mut m: usize = out.teams.len();
        let mut count: usize = team_count;
        assert(out@.take(m as int) =~= out@);
        while m > 0
            invariant
                m <= out@.len() <= team_count <= TEAM_COUNT,
                count == team_count - (out@.len() - m),
                eliminations(before, out@, team_count as int) == eliminations(
                    table@,
                    out@.take(m as int),
                    count as int,
                ),
                names_distinct(table@),
                table_bounded(table@, 510 * fixtures@.len() as int),
            decreases m,
        {
            proof {
                assert(out@.take(m as int).drop_last() =~= out@.take(m - 1));
                lemma_placed(table@, out@[m - 1].team, count as u8);
            }
            m = m - 1;
            table.set_placement(out.teams[m].team, count as u8);
            count = count - 1;
        }
        Ok(
            PlayoffStage::from_groups(
                GroupStage { placements: table, tournament },
                GroupTeams::from(qualifiers),
            ),
        )
    }
}

/// The place of the standing of `team`.
pub fn find_standing(list: &Vec<GroupTeam>, team: TeamName) -> (r: Option<usize>)
    ensures
        match r {
            Some(i) => is_standing_of(list@, team, i as int) && standing_of(list@, team) == i,
            None => !has_standing(list@, team),
        },
        r is Some <==> has_standing(list@, team),
{
    let mut i: usize = 0;
    while i < list.len()
        invariant
            i <= list.len(),
            forall|j: int| 0 <= j < i ==> list@[j].team != team,
        decreases list.len() - i,
    {
        if list[i].team == team {
            assert(is_standing_of(list@, team, i as int));
            return Some(i);
        }
        i += 1;
    }
    None
}

/// Counts a result of `team` in the standings.
fn enter_result(
    list: &mut Vec<GroupTeam>,
    group: GroupID,
    team: TeamName,
    goals_for: u8,
    goals_against: u8,
    Ghost(bound): Ghost<int>,
)
    requires
        standings_bounded(old(list)@, bound),
        0 <= bound <= u32::MAX - 255,
        standings_distinct(old(list)@),
    ensures
        final(list)@ == entered(old(list)@, group, team, goals_for, goals_against),
        standings_bounded(final(list)@, bound + 255),
        standings_distinct(final(list)@),
{
    match find_standing(list, team) {
        Some(i) => {
            assert(list@[i as int].bounded_by(bound));
            let mut standing = list[i];
            standing.add_from_fixture_result(goals_for, goals_against);
            list[i] = standing;
            proof {
                let after = list@;
                assert forall|k: int| 0 <= k < after.len() implies (#[trigger] after[k]).bounded_by(
                    bound + 255,
                ) by {
                    if k != i {
                        assert(old(list)@[k].bounded_by(bound));
                    }
                }
                assert forall|x: int, y: int| 0 <= x < y < after.len() implies (#[trigger] after[x]).team
                    != (#[trigger] after[y]).team by {
                    assert(after[x].team == old(list)@[x].team);
                    assert(after[y].team == old(list)@[y].team);
                }
            }
        },
        None => {
            list.push(GroupTeam::from_fixture_result(group, team, goals_for, goals_against));
            proof {
                let after = list@;
                assert forall|k: int| 0 <= k < after.len() implies (#[trigger] after[k]).bounded_by(
                    bound + 255,
                ) by {
                    if k < old(list)@.len() {
                        assert(old(list)@[k].bounded_by(bound));
                    }
                }
                assert forall|x: int, y: int| 0 <= x < y < after.len() implies (#[trigger] after[x]).team
                    != (#[trigger] after[y]).team by {
                    assert(after[x].team == old(list)@[x].team);
                    if y == old(list)@.len() {
                        if old(list)@[x].team == team {
                            lemma_standing_exists(old(list)@, team, x);
                        }
                    } else {
                        assert(after[y].team == old(list)@[y].team);
                    }
                }
            }
        },
    }
}

/// A list that holds a standing of `team` at place `k` has a first one.
pub proof fn lemma_standing_exists(list: Seq<GroupTeam>, team: TeamName, k: int)
    requires
        0 <= k < list.len(),
        list[k].team == team,
    ensures
        has_standing(list, team),
    decreases k,
{
    if forall|j: int| 0 <= j < k ==> list[j].team != team {
        assert(is_standing_of(list, team, k));
    } else {
        let j = choose|j: int| 0 <= j < k && list[j].team == team;
        lemma_standing_exists(list, team, j);
    }
}

/// Whether `list` holds `g`.
pub fn has_group(list: &Vec<GroupID>, g: GroupID) -> (r: bool)
    ensures
        r == list@.contains(g),
{
    let mut i: usize = 0;
    while i < list.len()
        invariant
            i <= list.len(),
            forall|j: int| 0 <= j < i ==> list@[j] != g,
        decreases list.len() - i,
    {
        if list[i] == g {
            return true;
        }
        i += 1;
    }
    false
}

/// Whether `list` holds `t`.
pub fn has_standing_like(list: &Vec<GroupTeam>, t: &GroupTeam) -> (r: bool)
    ensures
        r == list@.contains(*t),
{
    let mut i: usize = 0;
    while i < list.len()
        invariant
            i <= list.len(),
            forall|j: int| 0 <= j < i ==> list@[j] != *t,
        decreases list.len() - i,
    {
        if list[i] == *t {
            return true;
        }
        i += 1;
    }
    false
}

/// The standings of the teams of group `g`.
pub fn group_members(standings: &Vec<GroupTeam>, g: GroupID) -> (r: Vec<GroupTeam>)
    ensures
        r@ == members_of(standings@, g),
{
    let mut r: Vec<GroupTeam> = Vec::new();
    let mut i: usize = 0;
    while i < standings.len()
        invariant
            i <= standings.len(),
            r@ == members_of(standings@.take(i as int), g),
        decreases standings.len() - i,
    {
        assert(standings@.take(i + 1).drop_last() =~= standings@.take(i as int));
        if standings[i].group == g {
            r.push(standings[i]);
        }
        i += 1;
    }
    assert(standings@.take(i as int) =~= standings@);
    r
}

/// The standings that are not among `qualifiers`.
pub fn eliminated_teams(standings: &Vec<GroupTeam>, qualifiers: &Vec<GroupTeam>) -> (r: Vec<
    GroupTeam,
>)
    ensures
        r@ == eliminated_of(standings@, qualifiers@),
{
    let mut r: Vec<GroupTeam> = Vec::new();
    let mut i: usize = 0;
    while i < standings.len()
        invariant
            i <= standings.len(),
            r@ == eliminated_of(standings@.take(i as int), qualifiers@),
        decreases standings.len() - i,
    {
        assert(standings@.take(i + 1).drop_last() =~= standings@.take(i as int));
        if !has_standing_like(qualifiers, &standings[i]) {
            r.push(standings[i]);
        }
        i += 1;
    }
    assert(standings@.take(i as int) =~= standings@);
    r
}

/// Puts the first `n` of `from` behind `onto`.
pub fn push_first(onto: &mut Vec<GroupTeam>, from: &Vec<GroupTeam>, n: usize)
    requires
        n <= from@.len(),
    ensures
        final(onto)@ == old(onto)@ + from@.take(n as int),
{
    let mut k: usize = 0;
    while k < n
        invariant
            k <= n <= from@.len(),
            onto@ == old(onto)@ + from@.take(k as int),
        decreases n - k,
    {
        onto.push(from[k]);
        assert(onto@ =~= old(onto)@ + from@.take(k + 1));
        k += 1;
    }
}

/// Whether two lists of standings hold the same teams at the same places.
pub open spec fn same_teams(a: Seq<GroupTeam>, b: Seq<GroupTeam>) -> bool {
    &&& a.len() == b.len()
    &&& forall|i: int| 0 <= i < a.len() ==> (#[trigger] a[i]).team == b[i].team
}

/// The first team with a decider value and no standing.
pub open spec fn unknown_decider(standings: Seq<GroupTeam>, deciders: Seq<HeadToHead>) -> Option<
    TeamName,
>
    decreases deciders.len(),
{
    if deciders.len() == 0 {
        None
    } else {
        match unknown_decider(standings, deciders.drop_last()) {
            Some(team) => Some(team),
            None => if has_standing(standings, deciders.last().team) {
                None
            } else {
                Some(deciders.last().team)
            },
        }
    }
}

/// Lists that hold the same teams at the same places have standings of the
/// same teams.
pub proof fn lemma_same_teams(a: Seq<GroupTeam>, b: Seq<GroupTeam>, team: TeamName)
    requires
        same_teams(a, b),
    ensures
        has_standing(a, team) == has_standing(b, team),
{
    if has_standing(a, team) {
        let i = standing_of(a, team);
        assert(is_standing_of(b, team, i)) by {
            assert(a[i].team == b[i].team);
            assert forall|j: int| 0 <= j < i implies b[j].team != team by {
                assert(a[j].team == b[j].team);
            }
        }
    }
    if has_standing(b, team) {
        let i = standing_of(b, team);
        assert(is_standing_of(a, team, i)) by {
            assert(a[i].team == b[i].team);
            assert forall|j: int| 0 <= j < i implies a[j].team != team by {
                assert(a[j].team == b[j].team);
            }
        }
    }
}

/// The decider values can be filled in just when each of them is for a team
/// with a standing; the fault is the first team without one; and filling
/// them in moves no team.
pub proof fn lemma_decided(standings: Seq<GroupTeam>, deciders: Seq<HeadToHead>)
    ensures
        match unknown_decider(standings, deciders) {
            Some(team) => decided(standings, deciders) == Err::<Seq<GroupTeam>, TournamentError>(
                TournamentError::UnknownHeadToHeadTeam(team),
            ),
            None => decided(standings, deciders) is Ok && same_teams(
                decided(standings, deciders)->Ok_0,
                standings,
            ),
        },
    decreases deciders.len(),
{
    if deciders.len() > 0 {
        lemma_decided(standings, deciders.drop_last());
        if unknown_decider(standings, deciders.drop_last()) is None {
            let list = decided(standings, deciders.drop_last())->Ok_0;
            let d = deciders.last();
            lemma_same_teams(list, standings, d.team);
            if has_standing(list, d.team) {
                let i = standing_of(list, d.team);
                let after = decided(standings, deciders)->Ok_0;
                assert forall|k: int| 0 <= k < after.len() implies (#[trigger] after[k]).team
                    == standings[k].team by {
                    assert(list[k].team == standings[k].team);
                }
            }
        }
    }
}

/// An unknown team among the first `n` decider values is the first unknown
/// team of the whole list.
pub proof fn lemma_unknown_decider_prefix(
    standings: Seq<GroupTeam>,
    deciders: Seq<HeadToHead>,
    n: int,
)
    requires
        0 <= n <= deciders.len(),
        unknown_decider(standings, deciders.take(n)) is Some,
    ensures
        unknown_decider(standings, deciders) == unknown_decider(standings, deciders.take(n)),
    decreases deciders.len(),
{
    if n == deciders.len() {
        assert(deciders.take(n) =~= deciders);
    } else {
        assert(deciders.drop_last().take(n) =~= deciders.take(n));
        lemma_unknown_decider_prefix(standings, deciders.drop_last(), n);
    }
}

/// The first team with a decider value and no standing.
fn find_unknown_decider(standings: &Vec<GroupTeam>, deciders: &Vec<HeadToHead>) -> (r: Option<
    TeamName,
>)
    ensures
        r == unknown_decider(standings@, deciders@),
{
    let mut i: usize = 0;
    while i < deciders.len()
        invariant
            i <= deciders.len(),
            unknown_decider(standings@, deciders@.take(i as int)) is None,
        decreases deciders.len() - i,
    {
        assert(deciders@.take(i + 1).drop_last() =~= deciders@.take(i as int));
        let d = deciders[i];
        if find_standing(standings, d.team).is_none() {
            proof {
                lemma_unknown_decider_prefix(standings@, deciders@, i + 1);
            }
            return Some(d.team);
        }
        i += 1;
    }
    assert(deciders@.take(i as int) =~= deciders@);
    None
}

/// Fills the decider values into the standings. Where one of them is for a
/// team without a standing, none is filled in.
pub fn apply_deciders(standings: &mut Vec<GroupTeam>, deciders: &Vec<HeadToHead>) -> (r: Result<
    (),
    TournamentError,
>)
    requires
        standings_distinct(old(standings)@),
    ensures
        match decided(old(standings)@, deciders@) {
            Ok(list) => r is Ok && final(standings)@ == list && standings_distinct(list)
                && list.len() == old(standings)@.len(),
            Err(e) => r == Err::<(), TournamentError>(e) && final(standings)@ == old(standings)@,
        },
{
    proof {
        lemma_decided(standings@, deciders@);
    }
    match find_unknown_decider(standings, deciders) {
        Some(team) => {
            return Err(TournamentError::UnknownHeadToHeadTeam(team));
        },
        None => {},
    }
    let mut i: usize = 0;
    while i < deciders.len()
        invariant
            i <= deciders.len(),
            decided(old(standings)@, deciders@) is Ok,
            decided(old(standings)@, deciders@.take(i as int)) == Ok::<
                Seq<GroupTeam>,
                TournamentError,
            >(standings@),
            standings_distinct(standings@),
            standings@.len() == old(standings)@.len(),
        decreases deciders.len() - i,
    {
        assert(deciders@.take(i + 1).drop_last() =~= deciders@.take(i as int));
        let d = deciders[i];
        let ghost before = standings@;
        match find_standing(standings, d.team) {
            Some(k) => {
                let mut standing = standings[k];
                standing.head_to_head = Some(d.decider_points);
                standings[k] = standing;
                proof {
                    let after = standings@;
                    assert forall|x: int, y: int| 0 <= x < y < after.len() implies (
                    #[trigger] after[x]).team != (#[trigger] after[y]).team by {
                        assert(after[x].team == before[x].team);
                        assert(after[y].team == before[y].team);
                    }
                }
            },
            None => {
                proof {
                    lemma_decided_prefix_err(old(standings)@, deciders@, i + 1);
                    assert(false);
                }
                return Err(TournamentError::UnknownHeadToHeadTeam(d.team));
            },
        }
        i += 1;
    }
    assert(deciders@.take(i as int) =~= deciders@);
    Ok(())
}

/// A fault in the first `n` decider values is the fault of the whole list.
pub proof fn lemma_decided_prefix_err(standings: Seq<GroupTeam>, deciders: Seq<HeadToHead>, n: int)
    requires
        0 <= n <= deciders.len(),
        decided(standings, deciders.take(n)) is Err,
    ensures
        decided(standings, deciders) == decided(standings, deciders.take(n)),
    decreases deciders.len(),
{
    if n == deciders.len() {
        assert(deciders.take(n) =~= deciders);
    } else {
        assert(deciders.drop_last().take(n) =~= deciders.take(n));
        lemma_decided_prefix_err(standings, deciders.drop_last(), n);
    }
}

/// A fault in the first `n` group fixtures is the fault of the whole list.
pub proof fn lemma_groups_played_prefix_err(fixtures: Seq<Fixture>, tournament_name: Seq<char>, n: int)
    requires
        0 <= n <= fixtures.len(),
        groups_played(fixtures.take(n), tournament_name) is Err,
    ensures
        groups_played(fixtures, tournament_name) == groups_played(
            fixtures.take(n),
            tournament_name,
        ),
    decreases fixtures.len(),
{
    if n == fixtures.len() {
        assert(fixtures.take(n) =~= fixtures);
    } else {
        assert(fixtures.drop_last().take(n) =~= fixtures.take(n));
        lemma_groups_played_prefix_err(fixtures.drop_last(), tournament_name, n);
    }
}

/// A fault in the first `n` groups is the fault of the whole list.
pub proof fn lemma_selected_prefix_err(
    standings: Seq<GroupTeam>,
    groups: Seq<GroupID>,
    per_group: int,
    n: int,
)
    requires
        0 <= n <= groups.len(),
        selected(standings, groups.take(n), per_group) is Err,
    ensures
        selected(standings, groups, per_group) == selected(standings, groups.take(n), per_group),
    decreases groups.len(),
{
    if n == groups.len() {
        assert(groups.take(n) =~= groups);
    } else {
        assert(groups.drop_last().take(n) =~= groups.take(n));
        lemma_selected_prefix_err(standings, groups.drop_last(), per_group, n);
    }
}

} // verus!
