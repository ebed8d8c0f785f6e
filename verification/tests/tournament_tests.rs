use multitool::statter::date::{Date, Datetime};
use multitool::statter::fixture::{Fixture, FixtureError};
use multitool::statter::placements::UpdateError;
use multitool::statter::team::{TeamName, TeamPlacement};
use multitool::statter::tournament::{Brackets, HeadToHead, Stage, Tournament, TournamentError};
use multitool::statter::tournament::TournamentFailure;

const A: TeamName = TeamName::Moai;
const B: TeamName = TeamName::Vidya;
const C: TeamName = TeamName::Gambit;
const D: TeamName = TeamName::Disney;
const E: TeamName = TeamName::Autoism;
const F: TeamName = TeamName::BigFunky;
const G: TeamName = TeamName::BoneZone;
const H: TeamName = TeamName::CartoonsFC;

fn game(team1: TeamName, team2: TeamName, score1: u8, score2: u8) -> Fixture {
    Fixture { team1, team2, score1, score2, pen1: None, pen2: None, group: None }
}

fn day(year: u16, month: u8, day: u8) -> Datetime {
    Datetime { date: Some(Date { year, month, day }), time: None, offset: None }
}

fn single(winners: Vec<Fixture>, playoff_teams: u8) -> Tournament {
    Tournament {
        tournament_name: String::from("Spring Cup"),
        season_num: 1,
        date: day(2024, 3, 1),
        has_losers: false,
        playoff_teams,
        brackets: Brackets { winners, losers: None, groups: None },
        grand_final: None,
        head_to_head: None,
    }
}

fn double(winners: Vec<Fixture>, losers: Vec<Fixture>, last: Vec<Fixture>) -> Tournament {
    Tournament {
        tournament_name: String::from("Autumn Cup"),
        season_num: 1,
        date: day(2024, 9, 1),
        has_losers: true,
        playoff_teams: 4,
        brackets: Brackets { winners, losers: Some(losers), groups: None },
        grand_final: Some(last),
        head_to_head: None,
    }
}

trait Outcome {
    fn unwrap_err_or_names(self) -> Result<Vec<TeamName>, TournamentError>;
}

impl Outcome for Result<Vec<TeamPlacement>, TournamentFailure> {
    fn unwrap_err_or_names(self) -> Result<Vec<TeamName>, TournamentError> {
        match self {
            Ok(standings) => Ok(standings.iter().map(|tp| tp.team.name).collect()),
            Err(failure) => {
                assert_eq!(failure.tournament_name, "Autumn Cup");
                Err(failure.error)
            }
        }
    }
}

fn order(standings: &[TeamPlacement]) -> Vec<(TeamName, Option<u8>)> {
    standings.iter().map(|tp| (tp.team.name, tp.placement)).collect()
}

fn four_team_winners() -> Vec<Fixture> {
    vec![game(A, B, 2, 0), game(C, D, 1, 0), game(A, C, 3, 1)]
}

#[test]
fn four_teams_three_fixtures_four_ranks() {
    let standings = single(four_team_winners(), 4).run().unwrap();
    assert_eq!(
        order(&standings),
        vec![(A, Some(1)), (C, Some(2)), (D, Some(3)), (B, Some(4))]
    );
    assert_eq!(standings[0].team.goals_for, 5);
    assert_eq!(standings[0].team.goals_against, 1);
    assert_eq!(standings[0].team.wins, 2);
    assert_eq!(standings[1].team.losses, 1);
    assert_eq!(standings[0].team.get_greatest_win().unwrap().tournament_name, "Spring Cup");
}

#[test]
fn eight_teams_seven_fixtures_eight_ranks() {
    let winners = vec![
        game(A, B, 1, 0),
        game(C, D, 2, 0),
        game(E, F, 3, 0),
        game(G, H, 4, 0),
        game(A, C, 2, 1),
        game(E, G, 3, 1),
        game(A, E, 1, 0),
    ];
    let standings = single(winners, 8).run().unwrap();
    let ranks: Vec<u8> = standings.iter().map(|tp| tp.placement.unwrap()).collect();
    assert_eq!(ranks, vec![1, 2, 3, 4, 5, 6, 7, 8]);
    let names: Vec<TeamName> = standings.iter().map(|tp| tp.team.name).collect();
    assert_eq!(names, vec![A, E, G, C, B, D, F, H]);
}

#[test]
fn wrong_number_of_winners_fixtures() {
    let r = single(vec![game(A, B, 2, 0), game(C, D, 1, 0)], 4).run();
    assert_eq!(
        r.unwrap_err().error,
        TournamentError::WrongWinnersFixtureCount { expected: 3, found: 2 }
    );
}

#[test]
fn no_playoff_teams() {
    assert_eq!(single(vec![], 0).run().unwrap_err().error, TournamentError::TooFewPlayoffTeams(0));
    assert_eq!(single(vec![], 1).run().unwrap_err().error, TournamentError::MissingFinal);
}

#[test]
fn wrong_number_of_teams() {
    let r = single(vec![game(A, B, 2, 0), game(A, B, 1, 0), game(A, B, 3, 1)], 4).run();
    assert_eq!(r.unwrap_err().error, TournamentError::WrongTeamCount { playoff_teams: 4, found: 2 });
}

#[test]
fn draw_in_the_playoffs() {
    let r = single(vec![game(A, B, 2, 2), game(C, D, 1, 0), game(A, C, 3, 1)], 4).run();
    assert_eq!(
        r.unwrap_err().error,
        TournamentError::Update(Stage::WinnersBracket, UpdateError::IllegalDraw(A, B))
    );
}

#[test]
fn broken_fixture_in_the_playoffs() {
    let mut first = game(A, B, 2, 2);
    first.pen1 = Some(4);
    let r = single(vec![first, game(C, D, 1, 0), game(A, C, 3, 1)], 4).run();
    assert_eq!(
        r.unwrap_err().error,
        TournamentError::Update(
            Stage::WinnersBracket,
            UpdateError::Fixture(FixtureError::MissingPenalties2(A, B, 4))
        )
    );
}

#[test]
fn level_teams_need_a_decider() {
    let winners = vec![game(A, B, 1, 0), game(C, D, 1, 0), game(A, C, 3, 1)];
    let r = single(winners, 4).run();
    assert_eq!(r.unwrap_err().error, TournamentError::MissingHeadToHead(B, D));
}

#[test]
fn decider_values_order_level_teams() {
    let winners = vec![game(A, B, 1, 0), game(C, D, 1, 0), game(A, C, 3, 1)];
    let mut t = single(winners, 4);
    t.head_to_head = Some(vec![
        HeadToHead { team: B, decider_points: 2 },
        HeadToHead { team: D, decider_points: 1 },
    ]);
    let standings = t.run().unwrap();
    assert_eq!(
        order(&standings),
        vec![(A, Some(1)), (C, Some(2)), (D, Some(3)), (B, Some(4))]
    );
    assert_eq!(standings[2].team.head_to_head, Some(1));
}

#[test]
fn equal_decider_values_decide_nothing() {
    let winners = vec![game(A, B, 1, 0), game(C, D, 1, 0), game(A, C, 3, 1)];
    let mut t = single(winners, 4);
    t.head_to_head = Some(vec![
        HeadToHead { team: B, decider_points: 1 },
        HeadToHead { team: D, decider_points: 1 },
    ]);
    assert_eq!(t.run().unwrap_err().error, TournamentError::UnresolvedOrder(B, D));
}

#[test]
fn decider_value_for_a_team_that_did_not_play() {
    let mut t = single(four_team_winners(), 4);
    t.head_to_head = Some(vec![HeadToHead { team: TeamName::Autoism, decider_points: 1 }]);
    assert_eq!(
        t.run().unwrap_err().error,
        TournamentError::UnknownHeadToHeadTeam(TeamName::Autoism)
    );
}

fn four_team_losers() -> Vec<Fixture> {
    vec![game(B, D, 2, 1), game(C, B, 2, 0)]
}

#[test]
fn double_elimination_with_one_final() {
    let t = double(four_team_winners(), four_team_losers(), vec![game(A, C, 1, 0)]);
    let standings = t.run().unwrap();
    assert_eq!(
        order(&standings),
        vec![(A, Some(1)), (C, Some(2)), (B, Some(3)), (D, Some(4))]
    );
    assert_eq!(standings[1].team.wins, 2);
    assert_eq!(standings[1].team.losses, 2);
}

#[test]
fn double_elimination_with_a_decider() {
    let t = double(
        four_team_winners(),
        four_team_losers(),
        vec![game(A, C, 0, 1), game(A, C, 0, 2)],
    );
    let standings = t.run().unwrap();
    assert_eq!(
        order(&standings),
        vec![(C, Some(1)), (A, Some(2)), (B, Some(3)), (D, Some(4))]
    );
}

#[test]
fn team_from_the_losers_bracket_is_found_on_either_side() {
    let t = double(
        four_team_winners(),
        four_team_losers(),
        vec![game(C, A, 1, 0), game(C, A, 0, 2)],
    );
    let standings = t.run().unwrap();
    assert_eq!(
        order(&standings),
        vec![(A, Some(1)), (C, Some(2)), (B, Some(3)), (D, Some(4))]
    );
}

#[test]
fn losers_side_win_in_a_single_final_needs_a_decider() {
    let t = double(four_team_winners(), four_team_losers(), vec![game(A, C, 0, 1)]);
    assert_eq!(t.run().unwrap_err().error, TournamentError::MissingDecider(C));
}

#[test]
fn winners_side_win_leaves_no_room_for_a_decider() {
    let t = double(
        four_team_winners(),
        four_team_losers(),
        vec![game(A, C, 1, 0), game(A, C, 1, 0)],
    );
    assert_eq!(t.run().unwrap_err().error, TournamentError::NeedlessDecider(A));
}

#[test]
fn grand_final_has_one_or_two_fixtures() {
    let t = double(four_team_winners(), four_team_losers(), vec![]);
    assert_eq!(t.run().unwrap_err().error, TournamentError::WrongGrandFinalFixtureCount(0));
    let t = double(
        four_team_winners(),
        four_team_losers(),
        vec![game(A, C, 0, 1), game(A, C, 0, 1), game(A, C, 0, 1)],
    );
    assert_eq!(t.run().unwrap_err().error, TournamentError::WrongGrandFinalFixtureCount(3));
}

#[test]
fn drawn_grand_final() {
    let t = double(four_team_winners(), four_team_losers(), vec![game(A, C, 1, 1)]);
    assert_eq!(
        t.run().unwrap_err().error,
        TournamentError::Update(Stage::GrandFinal, UpdateError::IllegalDraw(A, C))
    );
}

#[test]
fn finalist_from_outside_the_brackets() {
    let t = double(
        four_team_winners(),
        four_team_losers(),
        vec![game(TeamName::Autoism, C, 1, 0)],
    );
    assert_eq!(t.run().unwrap_err().error, TournamentError::UnknownFinalist(TeamName::Autoism));
}

#[test]
fn losers_bracket_and_grand_final_must_be_there() {
    let mut t = double(four_team_winners(), four_team_losers(), vec![game(A, C, 1, 0)]);
    t.brackets.losers = None;
    assert_eq!(t.run().unwrap_err().error, TournamentError::MissingLosersBracket);
    let mut t = double(four_team_winners(), four_team_losers(), vec![game(A, C, 1, 0)]);
    t.grand_final = None;
    assert_eq!(t.run().unwrap_err().error, TournamentError::MissingGrandFinal);
}

#[test]
fn wrong_number_of_losers_fixtures() {
    let t = double(four_team_winners(), vec![game(B, D, 2, 1)], vec![game(A, C, 1, 0)]);
    assert_eq!(
        t.run().unwrap_err().error,
        TournamentError::WrongLosersFixtureCount { expected: 2, found: 1 }
    );
}

#[test]
fn earlier_meeting_orders_level_teams_of_a_double_elimination() {
    // B and D both finish on rank 4 of the losers bracket, level on goals.
    let winners = vec![game(A, B, 2, 0), game(C, D, 2, 0), game(A, C, 3, 1)];
    let losers = vec![game(B, D, 1, 1), game(C, B, 2, 0)];
    let mut t = double(winners, losers, vec![game(A, C, 1, 0)]);
    t.brackets.losers.as_mut().unwrap()[0].pen1 = Some(5);
    t.brackets.losers.as_mut().unwrap()[0].pen2 = Some(4);
    let standings = t.run().unwrap();
    assert_eq!(
        order(&standings),
        vec![(A, Some(1)), (C, Some(2)), (B, Some(3)), (D, Some(4))]
    );
    assert_eq!(standings[2].team.penalties_played, 1);
    assert_eq!(standings[2].team.penalties_goals_for, 5);
}

#[test]
fn fixtures_are_counted() {
    let t = double(four_team_winners(), four_team_losers(), vec![game(A, C, 1, 0)]);
    assert_eq!(t.count_fixtures(), 6);
}

#[test]
fn three_teams_two_fixtures_three_ranks() {
    let standings = single(vec![game(B, C, 2, 1), game(A, B, 0, 1)], 3).run().unwrap();
    assert_eq!(order(&standings), vec![(B, Some(1)), (A, Some(2)), (C, Some(3))]);
}

#[test]
fn two_teams_one_fixture() {
    let standings = single(vec![game(A, B, 0, 0)], 2).run();
    assert_eq!(
        standings.unwrap_err().error,
        TournamentError::Update(Stage::WinnersBracket, UpdateError::IllegalDraw(A, B))
    );
    let mut level = game(A, B, 0, 0);
    level.pen1 = Some(2);
    level.pen2 = Some(3);
    let standings = single(vec![level], 2).run().unwrap();
    assert_eq!(order(&standings), vec![(B, Some(1)), (A, Some(2))]);
    assert_eq!(standings[0].team.penalties_goals_for, 3);
    assert_eq!(standings[0].team.wins, 1);
}

#[test]
fn double_elimination_of_eight() {
    let winners = vec![
        game(A, B, 1, 0),
        game(C, D, 1, 0),
        game(E, F, 1, 0),
        game(G, H, 1, 0),
        game(A, C, 1, 0),
        game(E, G, 1, 0),
        game(A, E, 1, 0),
    ];
    let losers = vec![
        game(B, D, 2, 0),
        game(F, H, 1, 0),
        game(C, B, 1, 0),
        game(G, F, 1, 0),
        game(C, G, 1, 0),
        game(E, C, 1, 0),
    ];
    let mut t = double(winners, losers, vec![game(A, E, 1, 0)]);
    t.playoff_teams = 8;
    let standings = t.run().unwrap();
    let names: Vec<TeamName> = standings.iter().map(|tp| tp.team.name).collect();
    assert_eq!(names, vec![A, E, C, G, B, F, H, D]);
    let ranks: Vec<u8> = standings.iter().map(|tp| tp.placement.unwrap()).collect();
    assert_eq!(ranks, vec![1, 2, 3, 4, 5, 6, 7, 8]);
    assert_eq!(t.count_fixtures(), 14);
}

#[test]
fn meeting_in_the_winners_bracket_decides_between_level_teams() {
    // A and B both go out on rank 6 with the same goals; A beat B in the
    // winners bracket. D and H go out level on rank 8 and never met.
    let winners = vec![
        game(A, B, 1, 0),
        game(C, D, 1, 0),
        game(E, F, 1, 0),
        game(G, H, 1, 0),
        game(C, A, 1, 0),
        game(E, G, 1, 0),
        game(C, E, 1, 0),
    ];
    let losers = vec![
        game(B, D, 1, 0),
        game(F, H, 1, 0),
        game(F, B, 1, 0),
        game(G, A, 1, 0),
        game(G, F, 1, 0),
        game(E, G, 1, 0),
    ];
    let mut t = double(winners, losers, vec![game(C, E, 1, 0)]);
    t.playoff_teams = 8;
    assert_eq!(t.run().unwrap_err_or_names(), Err(TournamentError::MissingHeadToHead(D, H)));
    t.head_to_head = Some(vec![
        HeadToHead { team: H, decider_points: 2 },
        HeadToHead { team: D, decider_points: 1 },
    ]);
    assert_eq!(t.run().unwrap_err_or_names(), Ok(vec![C, E, G, F, A, B, D, H]));
}

#[test]
fn failure_names_the_tournament() {
    let failure = single(vec![game(A, B, 2, 0)], 4).run().unwrap_err();
    assert_eq!(failure.tournament_name, "Spring Cup");
    assert_eq!(failure.error, TournamentError::WrongWinnersFixtureCount { expected: 3, found: 1 });
    let t = single(vec![], 4);
    assert_eq!(t.failure(TournamentError::NoGroups).tournament_name, "Spring Cup");
}

fn teams_of(fixtures: &[Fixture]) -> Vec<TeamName> {
    let mut teams: Vec<TeamName> = Vec::new();
    for f in fixtures {
        for name in [f.team1, f.team2] {
            if !teams.contains(&name) {
                teams.push(name);
            }
        }
    }
    teams
}

#[test]
fn standings_hold_the_teams_of_the_fixtures_and_no_others() {
    let mut played = four_team_winners();
    played.extend(four_team_losers());
    played.push(game(A, C, 1, 0));
    let t = double(four_team_winners(), four_team_losers(), vec![game(A, C, 1, 0)]);
    let standings = t.run().unwrap();
    let teams = teams_of(&played);
    assert_eq!(standings.len(), teams.len());
    for name in &teams {
        assert_eq!(standings.iter().filter(|tp| tp.team.name == *name).count(), 1);
    }
}

#[test]
fn grand_final_of_a_single_elimination_is_not_played() {
    let mut t = single(four_team_winners(), 4);
    t.grand_final = Some(vec![game(E, F, 1, 0)]);
    let standings = t.run().unwrap();
    assert_eq!(standings.len(), 4);
    assert!(standings.iter().all(|tp| tp.team.name != E && tp.team.name != F));
}

#[test]
fn winner_of_the_final_is_first_and_its_loser_second() {
    let brackets = vec![
        (vec![game(A, B, 0, 1)], 2),
        (vec![game(A, B, 1, 0), game(C, B, 0, 2)], 3),
        (vec![game(D, C, 1, 3), game(B, A, 2, 0), game(B, C, 0, 4)], 4),
    ];
    for (winners, teams) in brackets {
        let last = *winners.last().unwrap();
        let standings = single(winners, teams).run().unwrap();
        assert_eq!(Some(standings[0].team.name), last.winner().unwrap());
        assert_eq!(Some(standings[1].team.name), last.loser().unwrap());
        assert_eq!(standings[0].placement, Some(1));
        assert_eq!(standings[1].placement, Some(2));
    }
}
