use multitool::ordering::{order_by_key, permuted};
use multitool::statter::date::{Date, Datetime};
use multitool::statter::fixture::{Fixture, FixtureError, GreatestFixture};
use multitool::statter::groups::{GroupTeam, GroupTeams};
use multitool::statter::placements::{TournamentPlacements, UpdateError};
use multitool::statter::playoffs::{goes_before, order_placements, PlayoffStage};
use multitool::statter::team::{MergeError, Team, TeamName, TeamPlacement};
use multitool::statter::tournament::{Brackets, GroupID, Stage, Tournament, TournamentError};

const A: TeamName = TeamName::Moai;
const B: TeamName = TeamName::Vidya;
const C: TeamName = TeamName::Gambit;

fn game(team1: TeamName, team2: TeamName, score1: u8, score2: u8) -> Fixture {
    Fixture { team1, team2, score1, score2, pen1: None, pen2: None, group: None }
}

fn tournament(winners: Vec<Fixture>, has_losers: bool, groups: Option<Vec<Fixture>>) -> Tournament {
    Tournament {
        tournament_name: String::from("Cup"),
        season_num: 1,
        date: Datetime { date: Some(Date { year: 2024, month: 1, day: 1 }), time: None, offset: None },
        has_losers,
        playoff_teams: 3,
        brackets: Brackets { winners, losers: None, groups },
        grand_final: None,
        head_to_head: None,
    }
}

fn placed(name: TeamName, rank: Option<u8>, goals_for: u32, goals_against: u32) -> TeamPlacement {
    let mut team = Team::from(name);
    team.goals_for = goals_for;
    team.goals_against = goals_against;
    TeamPlacement::from(rank, team)
}

fn standing(team: TeamName, points: u32) -> GroupTeam {
    GroupTeam { group: GroupID::A, team, points, goals_for: 0, goals_against: 0, head_to_head: None }
}

#[test]
fn keys_are_put_in_order() {
    assert_eq!(order_by_key(&vec![3, 1, 2, 1, 0]), vec![4, 1, 3, 2, 0]);
    assert_eq!(order_by_key(&vec![]), Vec::<usize>::new());
    assert_eq!(order_by_key(&vec![5, 5, 5]), vec![0, 1, 2]);
}

#[test]
fn items_are_picked_in_order() {
    let items = vec![String::from("a"), String::from("b"), String::from("c")];
    assert_eq!(permuted(items, &vec![2, 0, 1]), vec!["c", "a", "b"]);
}

#[test]
fn rank_then_goals_put_a_team_in_front() {
    let t = tournament(vec![], false, None);
    let first = placed(A, Some(1), 0, 9);
    let second = placed(B, Some(2), 9, 0);
    assert_eq!(goes_before(&first, &second, &t, &None), Ok(true));
    assert_eq!(goes_before(&second, &first, &t, &None), Ok(false));
    let unranked = placed(C, None, 0, 0);
    assert_eq!(goes_before(&unranked, &first, &t, &None), Ok(true));
    let better = placed(A, Some(4), 3, 1);
    let worse = placed(B, Some(4), 5, 4);
    assert_eq!(goes_before(&better, &worse, &t, &None), Ok(true));
    let more = placed(A, Some(4), 5, 4);
    let fewer = placed(B, Some(4), 2, 1);
    assert_eq!(goes_before(&more, &fewer, &t, &None), Ok(true));
    assert_eq!(goes_before(&fewer, &more, &t, &None), Ok(false));
}

#[test]
fn meeting_counts_only_with_a_losers_bracket() {
    let a = placed(A, Some(4), 1, 1);
    let b = placed(B, Some(4), 1, 1);
    let with = tournament(vec![game(C, A, 1, 0), game(B, A, 0, 1), game(A, B, 0, 1)], true, None);
    assert_eq!(goes_before(&a, &b, &with, &None), Ok(true));
    assert_eq!(goes_before(&b, &a, &with, &None), Ok(false));
    let without = tournament(vec![game(B, A, 0, 1)], false, None);
    assert_eq!(
        goes_before(&a, &b, &without, &None),
        Err(TournamentError::MissingHeadToHead(A, B))
    );
    let mut broken = game(B, A, 1, 1);
    broken.pen2 = Some(3);
    let with = tournament(vec![broken], true, None);
    assert_eq!(
        goes_before(&a, &b, &with, &None),
        Err(TournamentError::Update(
            Stage::WinnersBracket,
            UpdateError::Fixture(FixtureError::MissingPenalties1(B, A, 3))
        ))
    );
}

#[test]
fn group_standing_counts_only_with_a_group_stage() {
    let a = placed(A, Some(4), 1, 1);
    let b = placed(B, Some(4), 1, 1);
    let t = tournament(vec![], false, Some(vec![]));
    let through = Some(GroupTeams::from(vec![standing(A, 3), standing(B, 6)]));
    assert_eq!(goes_before(&a, &b, &t, &through), Ok(false));
    assert_eq!(goes_before(&b, &a, &t, &through), Ok(true));
    let only_one = Some(GroupTeams::from(vec![standing(A, 3)]));
    assert_eq!(
        goes_before(&a, &b, &t, &only_one),
        Err(TournamentError::MissingGroupPerformance(A, B))
    );
    assert_eq!(goes_before(&a, &b, &t, &None), Err(TournamentError::MissingGroupPerformance(A, B)));
    let level = Some(GroupTeams::from(vec![standing(A, 3), standing(B, 3)]));
    assert_eq!(goes_before(&a, &b, &t, &level), Err(TournamentError::MissingHeadToHead(A, B)));
}

#[test]
fn decider_value_puts_the_lower_in_front() {
    let t = tournament(vec![], false, None);
    let mut a = placed(A, Some(4), 1, 1);
    let mut b = placed(B, Some(4), 1, 1);
    a.team.head_to_head = Some(2);
    assert_eq!(goes_before(&a, &b, &t, &None), Err(TournamentError::MissingHeadToHead(A, B)));
    b.team.head_to_head = Some(1);
    assert_eq!(goes_before(&a, &b, &t, &None), Ok(false));
    assert_eq!(goes_before(&b, &a, &t, &None), Ok(true));
    b.team.head_to_head = Some(2);
    assert_eq!(goes_before(&a, &b, &t, &None), Err(TournamentError::UnresolvedOrder(A, B)));
}

#[test]
fn teams_that_beat_each_other_in_a_circle_have_no_order() {
    let t = tournament(vec![game(A, B, 1, 0), game(B, C, 1, 0), game(C, A, 1, 0)], true, None);
    let table = TournamentPlacements {
        placements: vec![placed(A, Some(4), 1, 1), placed(B, Some(4), 1, 1), placed(C, Some(4), 1, 1)],
    };
    let r = order_placements(&table, &t, &None);
    assert!(matches!(r, Err(TournamentError::InconsistentOrder(_, _))));
    let t = tournament(vec![game(A, B, 1, 0), game(B, C, 1, 0), game(A, C, 1, 0)], true, None);
    assert_eq!(order_placements(&table, &t, &None), Ok(vec![0, 1, 2]));
    let t = tournament(vec![game(B, A, 1, 0), game(C, B, 1, 0), game(C, A, 1, 0)], true, None);
    assert_eq!(order_placements(&table, &t, &None), Ok(vec![2, 1, 0]));
}

#[test]
fn playoffs_miss_a_qualifier() {
    let t = tournament(vec![game(A, B, 1, 0), game(A, C, 1, 0)], false, Some(vec![]));
    let stage = PlayoffStage {
        placements: TournamentPlacements {
            placements: vec![placed(A, None, 1, 0), placed(B, None, 0, 0), placed(C, Some(3), 0, 1)],
        },
        tournament: &t,
        qualifying_teams: Some(GroupTeams::from(vec![])),
    };
    assert_eq!(
        stage.run().unwrap_err().error,
        TournamentError::WrongQualifierCount { playoff_teams: 3, found: 2 }
    );
}

#[test]
fn one_team_is_too_few_for_a_losers_bracket() {
    let mut t = tournament(vec![], true, None);
    t.playoff_teams = 1;
    t.brackets.losers = Some(vec![]);
    t.grand_final = Some(vec![]);
    assert_eq!(t.run().unwrap_err().error, TournamentError::TooFewPlayoffTeams(1));
}

#[test]
fn decider_value_for_a_team_outside_the_groups() {
    let mut first = game(A, B, 1, 0);
    first.group = Some(GroupID::A);
    let mut t = tournament(vec![], false, Some(vec![first]));
    t.head_to_head = Some(vec![multitool::statter::tournament::HeadToHead {
        team: C,
        decider_points: 1,
    }]);
    assert_eq!(t.run().unwrap_err().error, TournamentError::UnknownHeadToHeadTeam(C));
}

#[test]
fn broken_greatest_fixture_stops_a_merge() {
    let mut total = Team::from(A);
    total.goals_for = 4;
    let mut other = Team::from(A);
    other.goals_for = 2;
    let mut broken = game(A, B, 1, 1);
    broken.pen1 = Some(2);
    broken.pen2 = Some(2);
    other.greatest_win = Some(GreatestFixture::from(&broken, "Cup"));
    assert_eq!(
        total.add(&mut other),
        Err(MergeError::Fixture(FixtureError::InvalidPenalties(A, B)))
    );
    assert_eq!(total.goals_for, 4);
    assert_eq!(total.check_merge(&other), Some(MergeError::Fixture(FixtureError::InvalidPenalties(A, B))));
    other.greatest_win = Some(GreatestFixture::from(&game(A, B, 2, 0), "Cup"));
    assert_eq!(total.check_merge(&other), None);
    assert_eq!(total.add(&mut other), Ok(()));
    assert_eq!(total.goals_for, 6);
    assert_eq!(total.get_greatest_win().unwrap().fixture.score1, 2);
}
