use multitool::statter::date::{Date, Datetime};
use multitool::statter::rankings::{is_chronological, RankedTeam, Seasons};
use multitool::statter::team::{Team, TeamName, TeamPlacement};
use multitool::statter::tournament::{ranking_points_of, TournamentResult};

const A: TeamName = TeamName::Moai;
const B: TeamName = TeamName::Vidya;
const C: TeamName = TeamName::Gambit;

fn day(year: u16, month: u8, day: u8) -> Datetime {
    Datetime { date: Some(Date { year, month, day }), time: None, offset: None }
}

fn result(name: &str, season_num: u8, date: Datetime, teams: &[TeamName]) -> TournamentResult {
    TournamentResult {
        tournament_name: String::from(name),
        season_num,
        date,
        team_placements: teams
            .iter()
            .enumerate()
            .map(|(i, t)| TeamPlacement::from(Some(i as u8 + 1), Team::from(*t)))
            .collect(),
    }
}

fn rows(list: &[RankedTeam]) -> Vec<(TeamName, Vec<u32>, Vec<u8>)> {
    list.iter().map(|t| (t.name, t.ranking_points.clone(), t.ranks.clone())).collect()
}

#[test]
fn ranking_points_by_rank() {
    let expected = [1500, 1100, 900, 750, 600, 500, 400, 300, 200, 100, 50, 25, 12, 6, 3, 1, 0];
    for (i, points) in expected.iter().enumerate() {
        assert_eq!(ranking_points_of(i as u8 + 1), *points);
    }
    assert_eq!(ranking_points_of(18), 0);
    assert_eq!(ranking_points_of(255), 0);
}

#[test]
fn teams_of_a_result_with_their_points() {
    let r = result("Cup", 1, day(2024, 1, 1), &[A, B, C]);
    assert_eq!(
        rows(&r.get_teams_ranked()),
        vec![(A, vec![1500], vec![]), (B, vec![1100], vec![]), (C, vec![900], vec![])]
    );
}

#[test]
fn one_tournament_makes_a_season() {
    let seasons = Seasons::from(vec![result("Cup", 3, day(2024, 1, 1), &[A, B])]);
    assert_eq!(seasons.seasons.len(), 1);
    let season = &seasons.seasons[0];
    assert_eq!(season.season_num, 3);
    assert_eq!(season.date, day(2024, 1, 1));
    assert_eq!(season.tournaments, vec![String::from("Cup")]);
    assert_eq!(rows(&season.rankings), vec![(A, vec![1500], vec![1]), (B, vec![1100], vec![2])]);
}

#[test]
fn points_add_up_over_a_season() {
    let seasons = Seasons::from(vec![
        result("Cup 1", 1, day(2024, 1, 1), &[A, B]),
        result("Cup 2", 1, day(2024, 2, 1), &[B, C, A]),
    ]);
    let season = &seasons.seasons[0];
    assert_eq!(season.date, day(2024, 1, 1));
    assert_eq!(season.tournaments, vec![String::from("Cup 1"), String::from("Cup 2")]);
    assert_eq!(
        rows(&season.rankings),
        vec![
            (B, vec![1100, 2600], vec![2, 1]),
            (A, vec![1500, 2400], vec![1, 2]),
            (C, vec![0, 1100], vec![0, 3]),
        ]
    );
}

#[test]
fn order_of_teams_in_a_result_does_not_change_points() {
    let one = Seasons::from(vec![
        result("Cup 1", 1, day(2024, 1, 1), &[A, B, C]),
        result("Cup 2", 1, day(2024, 2, 1), &[C, B, A]),
    ]);
    let mut second = result("Cup 2", 1, day(2024, 2, 1), &[C, B, A]);
    second.team_placements.reverse();
    let other = Seasons::from(vec![result("Cup 1", 1, day(2024, 1, 1), &[A, B, C]), second]);
    let total = |s: &Seasons, name: TeamName| {
        *s.seasons[0].rankings.iter().find(|t| t.name == name).unwrap().ranking_points.last().unwrap()
    };
    for name in [A, B, C] {
        assert_eq!(total(&one, name), total(&other, name));
    }
    assert_eq!(total(&one, A), 2400);
    assert_eq!(total(&one, B), 2200);
}

#[test]
fn teams_level_on_points_keep_their_order() {
    let seasons = Seasons::from(vec![
        result("Cup 1", 1, day(2024, 1, 1), &[A, B]),
        result("Cup 2", 1, day(2024, 2, 1), &[B, A]),
    ]);
    assert_eq!(
        rows(&seasons.seasons[0].rankings),
        vec![(A, vec![1500, 2600], vec![1, 1]), (B, vec![1100, 2600], vec![2, 2])]
    );
}

#[test]
fn team_that_sits_out_keeps_its_points() {
    let seasons = Seasons::from(vec![
        result("Cup 1", 1, day(2024, 1, 1), &[A, B]),
        result("Cup 2", 1, day(2024, 2, 1), &[B]),
    ]);
    assert_eq!(
        rows(&seasons.seasons[0].rankings),
        vec![(B, vec![1100, 2600], vec![2, 1]), (A, vec![1500, 1500], vec![1, 2])]
    );
}

#[test]
fn every_team_has_a_total_and_a_rank_for_each_tournament() {
    let seasons = Seasons::from(vec![
        result("Cup 1", 1, day(2024, 1, 1), &[A, B]),
        result("Cup 2", 1, day(2024, 2, 1), &[C]),
        result("Cup 3", 1, day(2024, 3, 1), &[B, C]),
        result("Cup 3", 1, day(2024, 4, 1), &[A]),
    ]);
    let season = &seasons.seasons[0];
    assert_eq!(season.tournaments, vec!["Cup 1", "Cup 2", "Cup 3", "Cup 3"]);
    for team in &season.rankings {
        assert_eq!(team.ranking_points.len(), 4);
        assert_eq!(team.ranks.len(), 4);
    }
    assert_eq!(
        rows(&season.rankings),
        vec![
            (A, vec![1500, 1500, 1500, 3000], vec![1, 1, 3, 1]),
            (C, vec![0, 1500, 2600, 2600], vec![0, 2, 1, 2]),
            (B, vec![1100, 1100, 2600, 2600], vec![2, 3, 2, 3]),
        ]
    );
}

#[test]
fn each_season_has_its_own_ranking() {
    let mut seasons = Seasons::from(vec![
        result("Cup 1", 2, day(2024, 1, 1), &[A, B]),
        result("Cup 2", 1, day(2024, 2, 1), &[B, A]),
        result("Cup 3", 2, day(2024, 3, 1), &[B, A]),
    ]);
    assert_eq!(seasons.seasons.len(), 2);
    assert_eq!(seasons.seasons[0].season_num, 2);
    assert_eq!(seasons.seasons[0].tournaments.len(), 2);
    assert_eq!(seasons.seasons[1].season_num, 1);
    assert_eq!(seasons.seasons[1].date, day(2024, 2, 1));
    seasons.sort_by_number();
    assert_eq!(seasons.seasons[0].season_num, 1);
    assert_eq!(seasons.seasons[1].season_num, 2);
    assert_eq!(
        rows(&seasons.seasons[1].rankings),
        vec![(A, vec![1500, 2600], vec![1, 1]), (B, vec![1100, 2600], vec![2, 2])]
    );
}

#[test]
fn tournaments_in_the_order_of_their_dates_are_taken() {
    let results = vec![
        result("Cup 1", 1, day(2024, 1, 1), &[A, B]),
        result("Cup 2", 1, day(2024, 1, 1), &[B, A]),
        result("Cup 3", 1, day(2024, 2, 1), &[B, A]),
    ];
    assert!(is_chronological(&results));
    let seasons = Seasons::checked_from(results).unwrap();
    assert_eq!(seasons.seasons[0].tournaments.len(), 3);
}

#[test]
fn tournaments_out_of_the_order_of_their_dates_are_rejected() {
    let results = vec![
        result("Cup 2", 1, day(2024, 2, 1), &[B, A]),
        result("Cup 1", 1, day(2024, 1, 1), &[A, B]),
    ];
    assert!(!is_chronological(&results));
    assert!(Seasons::checked_from(results).is_none());
}

#[test]
fn unsound_standings_are_rejected() {
    let mut twice = result("Cup", 1, day(2024, 1, 1), &[A, A]);
    assert!(!twice.has_sound_standings());
    twice.team_placements[1].team.name = B;
    assert!(twice.has_sound_standings());
    twice.team_placements[1].placement = Some(3);
    assert!(!twice.has_sound_standings());
    twice.team_placements[1].placement = None;
    assert!(!twice.has_sound_standings());
    assert!(Seasons::checked_from(vec![twice]).is_none());
    assert!(result("Cup", 1, day(2024, 1, 1), &[]).has_sound_standings());
}

#[test]
fn tournaments_of_a_season_are_sorted_by_name() {
    let mut seasons = Seasons::from(vec![
        result("b cup", 1, day(2024, 1, 1), &[A]),
        result("Cup", 1, day(2024, 2, 1), &[A]),
        result("a cup", 1, day(2024, 3, 1), &[A]),
        result("a", 1, day(2024, 4, 1), &[A]),
    ]);
    seasons.seasons[0].sort_tournaments();
    assert_eq!(seasons.seasons[0].tournaments, vec!["Cup", "a", "a cup", "b cup"]);
}
