use multitool::statter::fixture::{Fixture, FixtureError};
use multitool::statter::team::TeamName;

fn fixture(score1: u8, score2: u8, pen1: Option<u8>, pen2: Option<u8>) -> Fixture {
    Fixture {
        team1: TeamName::Moai,
        team2: TeamName::Vidya,
        score1,
        score2,
        pen1,
        pen2,
        group: None,
    }
}

#[test]
fn higher_score_wins() {
    assert_eq!(fixture(3, 1, None, None).winner(), Ok(Some(TeamName::Moai)));
    assert_eq!(fixture(3, 1, None, None).loser(), Ok(Some(TeamName::Vidya)));
}

#[test]
fn shootout_decides_level_scores() {
    assert_eq!(fixture(2, 2, Some(5), Some(4)).winner(), Ok(Some(TeamName::Moai)));
    assert_eq!(fixture(2, 2, Some(4), Some(5)).winner(), Ok(Some(TeamName::Vidya)));
}

#[test]
fn missing_penalty_score_is_an_error() {
    assert_eq!(
        fixture(2, 2, None, Some(4)).winner(),
        Err(FixtureError::MissingPenalties1(TeamName::Moai, TeamName::Vidya, 4))
    );
    assert_eq!(
        fixture(2, 2, Some(4), None).winner(),
        Err(FixtureError::MissingPenalties2(TeamName::Moai, TeamName::Vidya, 4))
    );
}
