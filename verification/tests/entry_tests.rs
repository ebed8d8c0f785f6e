use multitool::statter::date::{Date, Datetime};
use multitool::statter::entry::{order_by_date, sort_by_date, sort_participations, RunError, TotalStats};
use multitool::statter::fixture::Fixture;
use multitool::statter::team::{MatchupHistory, Team, TeamName};
use multitool::statter::tournament::{Brackets, Participation, Tournament, TournamentError, TournamentResult};

const A: TeamName = TeamName::Moai;
const B: TeamName = TeamName::Vidya;
const C: TeamName = TeamName::Gambit;
const D: TeamName = TeamName::Disney;

fn game(team1: TeamName, team2: TeamName, score1: u8, score2: u8) -> Fixture {
    Fixture { team1, team2, score1, score2, pen1: None, pen2: None, group: None }
}

fn day(year: u16, month: u8, day: u8) -> Datetime {
    Datetime { date: Some(Date { year, month, day }), time: None, offset: None }
}

fn cup(name: &str, date: Datetime, winners: Vec<Fixture>, playoff_teams: u8) -> Tournament {
    Tournament {
        tournament_name: String::from(name),
        season_num: 1,
        date,
        has_losers: false,
        playoff_teams,
        brackets: Brackets { winners, losers: None, groups: None },
        grand_final: None,
        head_to_head: None,
    }
}

fn first_cup() -> Tournament {
    cup("Cup 1", day(2024, 5, 1), vec![game(A, B, 2, 0), game(C, D, 1, 0), game(A, C, 3, 1)], 4)
}

fn second_cup() -> Tournament {
    cup("Cup 2", day(2024, 3, 1), vec![game(B, A, 4, 1)], 2)
}

#[test]
fn tournament_goes_into_the_records() {
    let mut totals = TotalStats::new();
    let result = totals.absorb_tournament(first_cup()).unwrap();
    assert_eq!(result.tournament_name, "Cup 1");
    assert_eq!(result.season_num, 1);
    assert_eq!(result.date, day(2024, 5, 1));
    let names: Vec<TeamName> = result.team_placements.iter().map(|tp| tp.team.name).collect();
    assert_eq!(names, vec![A, C, D, B]);
    assert_eq!(totals.fixtures, 3);
    let names: Vec<TeamName> = totals.teams.iter().map(|t| t.name).collect();
    assert_eq!(names, vec![A, C, D, B]);
    let a = &totals.teams[0];
    assert_eq!((a.goals_for, a.goals_against, a.wins, a.losses), (5, 1, 2, 0));
    let p = a.participations.as_ref().unwrap();
    assert_eq!(p.len(), 1);
    assert_eq!(p[0].tournament_name, "Cup 1");
    assert_eq!(p[0].placement, 1);
    assert_eq!(p[0].date, day(2024, 5, 1));
    // The participations have moved over to the records.
    assert_eq!(result.team_placements[0].team.participations.as_ref().unwrap().len(), 0);
}

#[test]
fn records_grow_with_each_tournament() {
    let mut totals = TotalStats::new();
    totals.absorb_tournament(first_cup()).unwrap();
    totals.absorb_tournament(second_cup()).unwrap();
    assert_eq!(totals.fixtures, 4);
    assert_eq!(totals.teams.len(), 4);
    let a = &totals.teams[0];
    assert_eq!(a.name, A);
    assert_eq!((a.goals_for, a.goals_against, a.wins, a.losses), (6, 5, 2, 1));
    assert_eq!(a.get_greatest_loss().unwrap().tournament_name, "Cup 2");
    assert_eq!(a.get_greatest_win().unwrap().fixture.team2, C);
    assert_eq!(
        a.matchups,
        Some(vec![
            MatchupHistory::from(B, 4, 3, 0, 0, 0, 1, 0, 1),
            MatchupHistory::from(C, 1, 3, 0, 0, 0, 1, 0, 0),
        ])
    );
    let placements: Vec<u8> = a.participations.as_ref().unwrap().iter().map(|p| p.placement).collect();
    assert_eq!(placements, vec![1, 2]);
}

#[test]
fn participations_are_sorted_by_date() {
    let mut totals = TotalStats::new();
    totals.absorb_tournament(first_cup()).unwrap();
    totals.absorb_tournament(second_cup()).unwrap();
    let a = &mut totals.teams[0];
    a.sort_participations_by_date();
    let names: Vec<&str> =
        a.participations.as_ref().unwrap().iter().map(|p| p.tournament_name.as_str()).collect();
    assert_eq!(names, vec!["Cup 2", "Cup 1"]);
    let mut none = Team::from(A);
    none.sort_participations_by_date();
    assert!(none.participations.is_none());
}

#[test]
fn tournament_that_cannot_be_resolved_leaves_the_records() {
    let mut totals = TotalStats::new();
    totals.absorb_tournament(first_cup()).unwrap();
    let broken = cup("Cup 3", day(2024, 6, 1), vec![game(A, B, 1, 1)], 2);
    let e = totals.absorb_tournament(broken).unwrap_err();
    assert_eq!(e.tournament_name, "Cup 3");
    assert!(matches!(e.error, RunError::Tournament(TournamentError::Update(_, _))));
    assert_eq!(totals.fixtures, 3);
    assert_eq!(totals.teams[0].goals_for, 5);
    assert_eq!(totals.teams[0].participations.as_ref().unwrap().len(), 1);
}

#[test]
fn too_many_fixtures_are_turned_away() {
    let mut totals = TotalStats::new();
    totals.fixtures = 8_421_504;
    let e = totals.absorb_tournament(second_cup()).unwrap_err();
    assert_eq!(e.tournament_name, "Cup 2");
    assert_eq!(e.error, RunError::TooManyFixtures);
    totals.fixtures = 8_421_503;
    assert!(totals.absorb_tournament(second_cup()).is_ok());
    assert_eq!(totals.fixtures, 8_421_504);
}

#[test]
fn dates_are_put_in_order() {
    let dates = vec![day(2024, 3, 1), day(2024, 1, 1), day(2024, 3, 1), day(2023, 1, 1)];
    assert_eq!(order_by_date(&dates), vec![3, 1, 0, 2]);
    assert_eq!(order_by_date(&vec![]), Vec::<usize>::new());
}

#[test]
fn results_are_sorted_by_date() {
    let mut totals = TotalStats::new();
    let results = vec![
        totals.absorb_tournament(first_cup()).unwrap(),
        totals.absorb_tournament(second_cup()).unwrap(),
        totals.absorb_tournament(cup("Cup 3", day(2024, 3, 1), vec![game(C, D, 1, 0)], 2)).unwrap(),
    ];
    let sorted = sort_by_date(results);
    let names: Vec<&str> = sorted.iter().map(|r| r.tournament_name.as_str()).collect();
    assert_eq!(names, vec!["Cup 2", "Cup 3", "Cup 1"]);
}

#[test]
fn participations_of_the_same_date_keep_their_order() {
    let list = vec![
        Participation::new(String::from("c"), 1, day(2024, 2, 1)),
        Participation::new(String::from("a"), 2, day(2024, 1, 1)),
        Participation::new(String::from("b"), 3, day(2024, 1, 1)),
    ];
    let sorted = sort_participations(list);
    let names: Vec<&str> = sorted.iter().map(|p| p.tournament_name.as_str()).collect();
    assert_eq!(names, vec!["a", "b", "c"]);
}

#[test]
fn stripped_result_keeps_only_the_tournament_numbers() {
    let mut totals = TotalStats::new();
    let mut t = first_cup();
    t.head_to_head = Some(vec![multitool::statter::tournament::HeadToHead { team: A, decider_points: 1 }]);
    let mut result: TournamentResult = totals.absorb_tournament(t).unwrap();
    assert!(result.team_placements[0].team.matchups.is_some());
    assert_eq!(result.team_placements[0].team.head_to_head, Some(1));
    result.strip();
    for tp in &result.team_placements {
        assert!(tp.team.matchups.is_none());
        assert!(tp.team.participations.is_none());
        assert!(tp.team.head_to_head.is_none());
        assert!(tp.team.get_greatest_win().is_none());
        assert!(tp.team.get_greatest_loss().is_none());
    }
    assert_eq!(result.team_placements[0].team.goals_for, 5);
    assert_eq!(result.team_placements[0].placement, Some(1));
    assert_eq!(result.team_placements[3].team.name, B);
}

#[test]
fn name_of_a_result_file() {
    let mut totals = TotalStats::new();
    let mut t = second_cup();
    t.tournament_name = String::from("Big Funny Cup 3: Ünited KINGDOM");
    let result = totals.absorb_tournament(t).unwrap();
    assert_eq!(result.filename(), "big-funny-cup-3-nited-kingdom-results.toml");
}

#[test]
fn tournament_files_are_told_by_their_names() {
    assert!(multitool::statter::entry::is_cup_file("bigfunnycup3.toml", "toml"));
    assert!(multitool::statter::entry::is_cup_file("the-bigfunnycup", "toml"));
    assert!(!multitool::statter::entry::is_cup_file("bigfunnycup3.toml", "TOML"));
    assert!(!multitool::statter::entry::is_cup_file("BigFunnyCup3.toml", "toml"));
    assert!(!multitool::statter::entry::is_cup_file("rankings.toml", "toml"));
}
