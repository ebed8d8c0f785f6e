use multitool::statter::fixture::{Fixture, FixtureError, GreatestFixture};
use multitool::statter::team::{add_matchup, MatchupHistory, MergeError, Team, TeamName, TeamPlacement};

fn fixture(
    team1: TeamName,
    team2: TeamName,
    score1: u8,
    score2: u8,
    pen1: Option<u8>,
    pen2: Option<u8>,
) -> Fixture {
    Fixture { team1, team2, score1, score2, pen1, pen2, group: None }
}

fn greatest(f: Fixture, name: &str) -> GreatestFixture {
    GreatestFixture::from(&f, name)
}

#[test]
fn team_names_are_written_out() {
    assert_eq!(TeamName::AlphaSpaceBros.as_str(), "Alpha Space Bros");
    assert_eq!(TeamName::HmXGaming.as_str(), "HmX Gaming");
    assert_eq!(TeamName::Vidya.as_str(), "Vidya");
}

#[test]
fn matchup_records_add_up() {
    let mut a = MatchupHistory::from(TeamName::Moai, 1, 2, 3, 4, 5, 6, 7, 8);
    let b = MatchupHistory::from(TeamName::Moai, 10, 20, 30, 40, 50, 60, 70, 80);
    assert_eq!(a.add(&b), Ok(()));
    assert_eq!(a, MatchupHistory::from(TeamName::Moai, 11, 22, 33, 44, 55, 66, 77, 88));
}

#[test]
fn matchup_records_of_different_opponents_do_not_add() {
    let mut a = MatchupHistory::from(TeamName::Moai, 1, 2, 3, 4, 5, 6, 7, 8);
    let b = MatchupHistory::from(TeamName::Vidya, 1, 1, 1, 1, 1, 1, 1, 1);
    assert_eq!(a.add(&b), Err(MergeError::DifferentOpponents));
    assert_eq!(a, MatchupHistory::from(TeamName::Moai, 1, 2, 3, 4, 5, 6, 7, 8));
}

#[test]
fn matchup_goes_to_the_record_of_its_opponent() {
    let mut list = vec![
        MatchupHistory::from(TeamName::Moai, 1, 0, 0, 0, 0, 0, 0, 1),
        MatchupHistory::from(TeamName::Vidya, 0, 2, 0, 0, 0, 1, 0, 0),
    ];
    add_matchup(&mut list, MatchupHistory::from(TeamName::Vidya, 1, 1, 1, 4, 5, 1, 0, 0));
    add_matchup(&mut list, MatchupHistory::from(TeamName::Gambit, 3, 0, 0, 0, 0, 0, 0, 1));
    assert_eq!(
        list,
        vec![
            MatchupHistory::from(TeamName::Moai, 1, 0, 0, 0, 0, 0, 0, 1),
            MatchupHistory::from(TeamName::Vidya, 1, 3, 1, 4, 5, 2, 0, 0),
            MatchupHistory::from(TeamName::Gambit, 3, 0, 0, 0, 0, 0, 0, 1),
        ]
    );
}

#[test]
fn greater_result_by_margin_then_goals_then_shootout() {
    let a = TeamName::Moai;
    let b = TeamName::Vidya;
    assert!(fixture(a, b, 3, 0, None, None).is_greater_than(&fixture(a, b, 4, 2, None, None)));
    assert!(!fixture(a, b, 4, 2, None, None).is_greater_than(&fixture(a, b, 3, 0, None, None)));
    assert!(fixture(a, b, 4, 2, None, None).is_greater_than(&fixture(a, b, 2, 0, None, None)));
    assert!(!fixture(a, b, 2, 0, None, None).is_greater_than(&fixture(a, b, 2, 0, None, None)));
    assert!(fixture(a, b, 1, 1, Some(5), Some(3))
        .is_greater_than(&fixture(a, b, 1, 1, Some(4), Some(3))));
    assert!(fixture(a, b, 1, 1, Some(6), Some(5))
        .is_greater_than(&fixture(a, b, 1, 1, Some(4), Some(3))));
    assert!(!fixture(a, b, 1, 1, Some(4), Some(3))
        .is_greater_than(&fixture(a, b, 1, 1, Some(4), Some(3))));
    // The shootout only counts between results that are level on goals.
    assert!(!fixture(a, b, 1, 1, Some(9), Some(0))
        .is_greater_than(&fixture(a, b, 2, 2, Some(4), Some(3))));
    // Large scores do not wrap around.
    assert!(fixture(a, b, 200, 200, None, None).is_greater_than(&fixture(a, b, 1, 1, None, None)));
}

#[test]
fn first_win_is_the_greatest_until_beaten() {
    let me = TeamName::Moai;
    let mut team = Team::from(me);
    let small = greatest(fixture(me, TeamName::Vidya, 1, 0, None, None), "Cup 1");
    let big = greatest(fixture(TeamName::Gambit, me, 0, 4, None, None), "Cup 2");
    let middle = greatest(fixture(me, TeamName::Disney, 2, 0, None, None), "Cup 3");
    assert_eq!(team.try_add_greatest_win(&small), Ok(true));
    assert_eq!(team.get_greatest_win().unwrap().tournament_name, "Cup 1");
    assert_eq!(team.try_add_greatest_win(&big), Ok(true));
    assert_eq!(team.get_greatest_win().unwrap().tournament_name, "Cup 2");
    assert_eq!(team.try_add_greatest_win(&middle), Ok(false));
    assert_eq!(team.get_greatest_win().unwrap().tournament_name, "Cup 2");
    assert!(team.get_greatest_loss().is_none());
}

#[test]
fn only_a_win_can_be_the_greatest_win() {
    let me = TeamName::Moai;
    let mut team = Team::from(me);
    let loss = greatest(fixture(me, TeamName::Vidya, 0, 5, None, None), "Cup");
    let draw = greatest(fixture(me, TeamName::Vidya, 2, 2, None, None), "Cup");
    let others = greatest(fixture(TeamName::Gambit, TeamName::Vidya, 9, 0, None, None), "Cup");
    assert_eq!(team.try_add_greatest_win(&loss), Ok(false));
    assert_eq!(team.try_add_greatest_win(&draw), Ok(false));
    assert_eq!(team.try_add_greatest_win(&others), Ok(false));
    assert!(team.get_greatest_win().is_none());
    assert_eq!(team.try_add_greatest_loss(&draw), Ok(false));
    assert_eq!(team.try_add_greatest_loss(&others), Ok(false));
    assert_eq!(team.try_add_greatest_loss(&loss), Ok(true));
    assert_eq!(team.get_greatest_loss().unwrap().fixture.score2, 5);
}

#[test]
fn broken_fixture_is_not_offered() {
    let me = TeamName::Moai;
    let mut team = Team::from(me);
    let broken = greatest(fixture(me, TeamName::Vidya, 1, 1, Some(3), Some(3)), "Cup");
    assert_eq!(
        team.try_add_greatest_win(&broken),
        Err(FixtureError::InvalidPenalties(me, TeamName::Vidya))
    );
    let elsewhere =
        greatest(fixture(TeamName::Gambit, TeamName::Vidya, 1, 1, Some(3), Some(3)), "Cup");
    assert_eq!(team.try_add_greatest_win(&elsewhere), Ok(false));
}

fn played(me: TeamName, fixtures: &[(Fixture, bool)], tournament: &str) -> Team {
    let mut team = Team::from(me);
    for (f, first) in fixtures {
        team.record_fixture(f, *first, tournament);
    }
    team
}

#[test]
fn fixture_is_entered_into_a_record() {
    let me = TeamName::Moai;
    let team = played(
        me,
        &[
            (fixture(me, TeamName::Vidya, 3, 1, None, None), true),
            (fixture(TeamName::Gambit, me, 2, 2, Some(5), Some(4)), false),
            (fixture(me, TeamName::Vidya, 0, 0, None, None), true),
        ],
        "Cup",
    );
    assert_eq!(team.goals_for, 5);
    assert_eq!(team.goals_against, 3);
    assert_eq!(team.penalties_played, 1);
    assert_eq!(team.penalties_goals_for, 4);
    assert_eq!(team.penalties_goals_against, 5);
    assert_eq!((team.wins, team.draws, team.losses), (1, 1, 1));
    assert_eq!(team.get_greatest_win().unwrap().fixture.score1, 3);
    assert_eq!(team.get_greatest_loss().unwrap().fixture.team1, TeamName::Gambit);
    assert_eq!(
        team.matchups,
        Some(vec![
            MatchupHistory::from(TeamName::Vidya, 1, 3, 0, 0, 0, 1, 1, 0),
            MatchupHistory::from(TeamName::Gambit, 2, 2, 1, 5, 4, 0, 0, 1),
        ])
    );
}

#[test]
fn records_of_two_tournaments_merge() {
    let me = TeamName::Moai;
    let mut first = played(me, &[(fixture(me, TeamName::Vidya, 3, 1, None, None), true)], "Cup 1");
    let mut second = played(
        me,
        &[
            (fixture(me, TeamName::Vidya, 5, 0, None, None), true),
            (fixture(me, TeamName::Gambit, 0, 2, None, None), true),
        ],
        "Cup 2",
    );
    assert_eq!(first.add(&mut second), Ok(()));
    assert_eq!(first.goals_for, 8);
    assert_eq!(first.goals_against, 3);
    assert_eq!((first.wins, first.draws, first.losses), (2, 0, 1));
    assert_eq!(first.get_greatest_win().unwrap().tournament_name, "Cup 2");
    assert_eq!(first.get_greatest_loss().unwrap().tournament_name, "Cup 2");
    assert_eq!(
        first.matchups,
        Some(vec![
            MatchupHistory::from(TeamName::Vidya, 1, 8, 0, 0, 0, 2, 0, 0),
            MatchupHistory::from(TeamName::Gambit, 2, 0, 0, 0, 0, 0, 0, 1),
        ])
    );
}

#[test]
fn records_of_different_teams_do_not_merge() {
    let mut a = Team::from(TeamName::Moai);
    let mut b = Team::from(TeamName::Vidya);
    b.goals_for = 3;
    assert_eq!(a.add(&mut b), Err(MergeError::DifferentTeams));
    assert_eq!(a.goals_for, 0);
}

#[test]
fn merging_with_itself_keeps_the_greatest() {
    let me = TeamName::Moai;
    let mut team = played(
        me,
        &[
            (fixture(me, TeamName::Vidya, 3, 1, None, None), true),
            (fixture(me, TeamName::Gambit, 1, 1, Some(2), Some(4)), true),
            (fixture(TeamName::Disney, me, 0, 6, None, None), false),
        ],
        "Cup",
    );
    let mut copy = played(
        me,
        &[
            (fixture(me, TeamName::Vidya, 3, 1, None, None), true),
            (fixture(me, TeamName::Gambit, 1, 1, Some(2), Some(4)), true),
            (fixture(TeamName::Disney, me, 0, 6, None, None), false),
        ],
        "Cup",
    );
    team.reset_greatest();
    assert!(team.get_greatest_win().is_none());
    assert!(team.get_greatest_loss().is_none());
    assert_eq!(team.add(&mut copy), Ok(()));
    assert_eq!(team.get_greatest_win().unwrap().fixture.score2, 6);
    assert_eq!(team.get_greatest_loss().unwrap().fixture.team2, TeamName::Gambit);
    assert_eq!(team.get_greatest_win().unwrap().fixture.score2,
        copy.get_greatest_win().unwrap().fixture.score2);
    assert_eq!(team.goals_for, 20);
}

#[test]
fn placement_is_made_of_its_parts() {
    let tp = TeamPlacement::from(Some(3), Team::from(TeamName::Gambit));
    assert_eq!(tp.placement, Some(3));
    assert_eq!(tp.team.name, TeamName::Gambit);
}

#[test]
fn file_name_of_a_team() {
    assert_eq!(Team::from(TeamName::AlphaSpaceBros).filename(), "alpha-space-bros.toml");
    assert_eq!(Team::from(TeamName::HmXGaming).filename(), "hmx-gaming.toml");
    assert_eq!(Team::from(TeamName::CartoonsFC).filename(), "cartoons-fc.toml");
    assert_eq!(Team::from(TeamName::Moai).filename(), "moai.toml");
}
