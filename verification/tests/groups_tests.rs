use multitool::statter::date::{Date, Datetime};
use multitool::statter::fixture::Fixture;
use multitool::statter::groups::{apply_deciders, GroupStage, GroupTeam, GroupTeams, Verdict};
use multitool::statter::team::TeamName;
use multitool::statter::tournament::{Brackets, GroupID, HeadToHead, Tournament, TournamentError};

const A1: TeamName = TeamName::Moai;
const A2: TeamName = TeamName::Vidya;
const A3: TeamName = TeamName::Gambit;
const A4: TeamName = TeamName::Disney;
const B1: TeamName = TeamName::Autoism;
const B2: TeamName = TeamName::BigFunky;
const B3: TeamName = TeamName::BoneZone;
const B4: TeamName = TeamName::CartoonsFC;

fn game(group: GroupID, team1: TeamName, team2: TeamName, score1: u8, score2: u8) -> Fixture {
    Fixture { team1, team2, score1, score2, pen1: None, pen2: None, group: Some(group) }
}

fn playoff(team1: TeamName, team2: TeamName, score1: u8, score2: u8) -> Fixture {
    Fixture { team1, team2, score1, score2, pen1: None, pen2: None, group: None }
}

fn two_groups_of_four() -> Vec<Fixture> {
    vec![
        game(GroupID::A, A1, A2, 3, 0),
        game(GroupID::A, A1, A3, 2, 0),
        game(GroupID::A, A1, A4, 1, 0),
        game(GroupID::A, A2, A3, 2, 0),
        game(GroupID::A, A2, A4, 1, 0),
        game(GroupID::A, A3, A4, 1, 0),
        game(GroupID::B, B1, B2, 3, 0),
        game(GroupID::B, B1, B3, 2, 0),
        game(GroupID::B, B1, B4, 2, 0),
        game(GroupID::B, B2, B3, 2, 0),
        game(GroupID::B, B2, B4, 1, 0),
        game(GroupID::B, B3, B4, 3, 0),
    ]
}

fn tournament(groups: Vec<Fixture>, playoff_teams: u8, winners: Vec<Fixture>) -> Tournament {
    Tournament {
        tournament_name: String::from("Group Cup"),
        season_num: 2,
        date: Datetime { date: Some(Date { year: 2025, month: 1, day: 5 }), time: None, offset: None },
        has_losers: false,
        playoff_teams,
        brackets: Brackets { winners, losers: None, groups: Some(groups) },
        grand_final: None,
        head_to_head: None,
    }
}

fn standing(points: u32, goals_for: u32, goals_against: u32, head_to_head: Option<u8>) -> GroupTeam {
    GroupTeam { group: GroupID::A, team: A1, points, goals_for, goals_against, head_to_head }
}

#[test]
fn points_for_a_result() {
    assert_eq!(GroupTeam::points_from_fixture_result(2, 1), 3);
    assert_eq!(GroupTeam::points_from_fixture_result(1, 1), 1);
    assert_eq!(GroupTeam::points_from_fixture_result(0, 1), 0);
}

#[test]
fn standing_counts_results() {
    let mut s = GroupTeam::from_fixture_result(GroupID::C, A2, 2, 2);
    assert_eq!(
        s,
        GroupTeam {
            group: GroupID::C,
            team: A2,
            points: 1,
            goals_for: 2,
            goals_against: 2,
            head_to_head: None
        }
    );
    s.add_from_fixture_result(200, 100);
    s.add_from_fixture_result(100, 200);
    assert_eq!((s.points, s.goals_for, s.goals_against), (4, 302, 302));
}

#[test]
fn standings_compare_by_points_goals_and_decider() {
    assert_eq!(standing(6, 1, 5, None).compare(&standing(3, 9, 0, None)), Verdict::Ahead);
    assert_eq!(standing(3, 4, 2, None).compare(&standing(3, 5, 4, None)), Verdict::Ahead);
    assert_eq!(standing(3, 5, 4, None).compare(&standing(3, 4, 3, None)), Verdict::Ahead);
    assert_eq!(standing(3, 4, 3, None).compare(&standing(3, 5, 4, None)), Verdict::Behind);
    assert_eq!(standing(3, 4, 3, None).compare(&standing(3, 4, 3, None)), Verdict::Level);
    assert_eq!(standing(3, 4, 3, Some(1)).compare(&standing(3, 4, 3, None)), Verdict::Level);
    assert_eq!(standing(3, 4, 3, Some(2)).compare(&standing(3, 4, 3, Some(1))), Verdict::Ahead);
    assert_eq!(standing(3, 4, 3, Some(1)).compare(&standing(3, 4, 3, Some(2))), Verdict::Behind);
}

#[test]
fn teams_are_sorted_from_the_best() {
    let mut teams = GroupTeams::from(vec![
        standing(3, 4, 3, None),
        standing(9, 4, 3, None),
        standing(3, 5, 3, None),
        standing(0, 0, 9, None),
        standing(3, 6, 5, None),
    ]);
    assert_eq!(teams.sort_teams(), Ok(()));
    let keys: Vec<(u32, u32, u32)> =
        teams.teams.iter().map(|t| (t.points, t.goals_for, t.goals_against)).collect();
    assert_eq!(keys, vec![(9, 4, 3), (3, 5, 3), (3, 6, 5), (3, 4, 3), (0, 0, 9)]);
}

#[test]
fn level_teams_cannot_be_sorted() {
    let mut first = standing(3, 4, 3, None);
    first.team = A2;
    let mut second = standing(3, 4, 3, Some(1));
    second.team = A3;
    let mut teams = GroupTeams::from(vec![standing(9, 1, 0, None), first, second]);
    assert_eq!(teams.sort_teams(), Err(TournamentError::UnresolvedGroupOrder(A2, A3)));
    assert_eq!(teams.teams[1].team, A2);
}

#[test]
fn two_groups_five_places_one_wildcard() {
    let t = tournament(two_groups_of_four(), 5, vec![]);
    let playoffs = GroupStage::from(&t).run().unwrap();
    let mut through: Vec<TeamName> =
        playoffs.qualifying_teams.as_ref().unwrap().teams.iter().map(|t| t.team).collect();
    assert_eq!(through.len(), 5);
    assert_eq!(&through[0..4], &[A1, A2, B1, B2]);
    through.sort_by_key(|t| t.as_str());
    assert_eq!(through, vec![B1, B2, B3, A1, A2]);
    let placed: Vec<(TeamName, Option<u8>)> =
        playoffs.placements.placements.iter().map(|tp| (tp.team.name, tp.placement)).collect();
    assert_eq!(
        placed,
        vec![
            (A1, None),
            (A2, None),
            (A3, Some(6)),
            (A4, Some(7)),
            (B1, None),
            (B2, None),
            (B3, None),
            (B4, Some(8)),
        ]
    );
}

#[test]
fn group_standings_are_kept_for_the_playoffs() {
    let t = tournament(two_groups_of_four(), 5, vec![]);
    let playoffs = GroupStage::from(&t).run().unwrap();
    let through = &playoffs.qualifying_teams.as_ref().unwrap().teams;
    assert_eq!(
        through[0],
        GroupTeam {
            group: GroupID::A,
            team: A1,
            points: 9,
            goals_for: 6,
            goals_against: 0,
            head_to_head: None
        }
    );
    assert_eq!(
        through[4],
        GroupTeam {
            group: GroupID::B,
            team: B3,
            points: 3,
            goals_for: 3,
            goals_against: 4,
            head_to_head: None
        }
    );
}

#[test]
fn four_places_and_no_wildcard() {
    let t = tournament(two_groups_of_four(), 4, vec![]);
    let playoffs = GroupStage::from(&t).run().unwrap();
    let through: Vec<TeamName> =
        playoffs.qualifying_teams.as_ref().unwrap().teams.iter().map(|t| t.team).collect();
    assert_eq!(through, vec![A1, A2, B1, B2]);
    let out: Vec<(TeamName, Option<u8>)> = playoffs
        .placements
        .placements
        .iter()
        .filter(|tp| tp.placement.is_some())
        .map(|tp| (tp.team.name, tp.placement))
        .collect();
    assert_eq!(out, vec![(A3, Some(6)), (A4, Some(7)), (B3, Some(5)), (B4, Some(8))]);
}

#[test]
fn group_fixture_without_a_group() {
    let mut fixtures = two_groups_of_four();
    fixtures[3].group = None;
    let t = tournament(fixtures, 5, vec![]);
    assert_eq!(GroupStage::from(&t).run().unwrap_err().error, TournamentError::MissingGroupID(A2, A3));
}

#[test]
fn group_stage_without_fixtures() {
    let mut t = tournament(vec![], 5, vec![]);
    assert_eq!(GroupStage::from(&t).run().unwrap_err().error, TournamentError::NoGroups);
    t.brackets.groups = None;
    assert_eq!(GroupStage::from(&t).run().unwrap_err().error, TournamentError::MissingGroupStage);
}

#[test]
fn level_teams_in_a_group_stop_the_group_stage() {
    let fixtures = vec![
        game(GroupID::A, A1, A2, 1, 1),
        game(GroupID::A, A3, A4, 2, 0),
    ];
    let t = tournament(fixtures, 1, vec![]);
    assert_eq!(
        GroupStage::from(&t).run().unwrap_err().error,
        TournamentError::UnresolvedGroupOrder(A1, A2)
    );
}

#[test]
fn decider_value_orders_level_teams_in_a_group() {
    let fixtures = vec![
        game(GroupID::A, A1, A2, 1, 1),
        game(GroupID::A, A3, A4, 2, 0),
    ];
    let mut t = tournament(fixtures, 2, vec![]);
    t.head_to_head = Some(vec![
        HeadToHead { team: A1, decider_points: 1 },
        HeadToHead { team: A2, decider_points: 3 },
    ]);
    let playoffs = GroupStage::from(&t).run().unwrap();
    let through: Vec<TeamName> =
        playoffs.qualifying_teams.as_ref().unwrap().teams.iter().map(|t| t.team).collect();
    assert_eq!(through, vec![A3, A2]);
}

#[test]
fn whole_group_goes_through_where_no_wildcard_is_needed() {
    let fixtures = vec![game(GroupID::A, A1, A2, 1, 0)];
    let t = tournament(fixtures, 2, vec![]);
    let playoffs = GroupStage::from(&t).run().unwrap();
    let through: Vec<TeamName> =
        playoffs.qualifying_teams.as_ref().unwrap().teams.iter().map(|t| t.team).collect();
    assert_eq!(through, vec![A1, A2]);
    assert!(playoffs.placements.placements.iter().all(|tp| tp.placement.is_none()));
}

#[test]
fn group_smaller_than_its_share() {
    let fixtures = vec![game(GroupID::A, A1, A2, 1, 0)];
    let t = tournament(fixtures, 3, vec![]);
    assert_eq!(
        GroupStage::from(&t).run().unwrap_err().error,
        TournamentError::GroupTooSmall(GroupID::A)
    );
}

#[test]
fn no_candidate_for_a_wildcard() {
    let fixtures = vec![game(GroupID::A, A1, A2, 1, 0), game(GroupID::B, B1, B2, 2, 0)];
    let t = tournament(fixtures, 5, vec![]);
    assert_eq!(
        GroupStage::from(&t).run().unwrap_err().error,
        TournamentError::MissingWildcardCandidate { expected: 1, found: 0 }
    );
}

#[test]
fn wildcard_from_the_only_group_with_a_candidate() {
    let fixtures = vec![
        game(GroupID::A, A1, A2, 2, 0),
        game(GroupID::A, A1, A3, 1, 0),
        game(GroupID::A, A2, A3, 1, 0),
        game(GroupID::B, B1, B2, 1, 0),
    ];
    let t = tournament(fixtures, 5, vec![]);
    let playoffs = GroupStage::from(&t).run().unwrap();
    let through: Vec<TeamName> =
        playoffs.qualifying_teams.as_ref().unwrap().teams.iter().map(|t| t.team).collect();
    assert_eq!(through, vec![A1, A2, B1, B2, A3]);
}

#[test]
fn drawn_group_fixture_counts_for_both() {
    let fixtures = vec![
        game(GroupID::A, A1, A2, 1, 1),
        game(GroupID::A, A1, A3, 2, 0),
        game(GroupID::A, A2, A3, 1, 0),
    ];
    let t = tournament(fixtures, 1, vec![]);
    let playoffs = GroupStage::from(&t).run().unwrap();
    let first = &playoffs.placements.placements[0];
    assert_eq!(first.team.name, A1);
    assert_eq!((first.team.wins, first.team.draws, first.team.losses), (1, 1, 0));
}

#[test]
fn tournament_with_groups_and_playoffs() {
    let winners = vec![
        playoff(B2, B3, 2, 1),
        playoff(A1, B2, 3, 0),
        playoff(B1, A2, 2, 1),
        playoff(A1, B1, 1, 0),
    ];
    let t = tournament(two_groups_of_four(), 5, winners);
    let standings = t.run().unwrap();
    let order: Vec<(TeamName, Option<u8>)> =
        standings.iter().map(|tp| (tp.team.name, tp.placement)).collect();
    assert_eq!(
        order,
        vec![
            (A1, Some(1)),
            (B1, Some(2)),
            (A2, Some(3)),
            (B2, Some(4)),
            (B3, Some(5)),
            (A3, Some(6)),
            (A4, Some(7)),
            (B4, Some(8)),
        ]
    );
}

#[test]
fn level_wildcard_candidates_stop_the_tournament() {
    let winners = vec![playoff(A1, A2, 2, 1), playoff(A1, B1, 1, 0)];
    let t = tournament(two_groups_of_four(), 3, winners);
    assert_eq!(t.run().unwrap_err().error, TournamentError::UnresolvedGroupOrder(A2, B2));
}

#[test]
fn qualifier_count_must_match_the_playoff_teams() {
    let fixtures = vec![
        game(GroupID::A, A1, A2, 1, 0),
        game(GroupID::A, A1, A3, 2, 0),
        game(GroupID::A, A2, A3, 1, 0),
    ];
    let mut t = tournament(fixtures, 1, vec![]);
    t.grand_final = Some(vec![]);
    let standings = t.run().unwrap();
    let order: Vec<(TeamName, Option<u8>)> =
        standings.iter().map(|tp| (tp.team.name, tp.placement)).collect();
    assert_eq!(order, vec![(A1, Some(1)), (A2, Some(2)), (A3, Some(3))]);
}

#[test]
fn decider_for_an_unknown_team_fills_in_none() {
    let mut standings = vec![GroupTeam::from_fixture_result(GroupID::A, A1, 1, 0)];
    let deciders = vec![
        HeadToHead { team: A1, decider_points: 4 },
        HeadToHead { team: A2, decider_points: 2 },
    ];
    assert_eq!(
        apply_deciders(&mut standings, &deciders),
        Err(TournamentError::UnknownHeadToHeadTeam(A2))
    );
    assert_eq!(standings[0].head_to_head, None);
    assert_eq!(apply_deciders(&mut standings, &deciders[..1].to_vec()), Ok(()));
    assert_eq!(standings[0].head_to_head, Some(4));
}
