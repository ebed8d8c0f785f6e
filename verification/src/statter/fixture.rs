use vstd::prelude::*;
use crate::statter::team::TeamName;
use crate::statter::tournament::GroupID;

verus! {

/// One match between two teams with its result.
#[derive(Debug, Clone, Copy)]
pub struct Fixture {
    pub team1: TeamName,
    pub team2: TeamName,
    pub score1: u8,
    pub score2: u8,
    pub pen1: Option<u8>,
    pub pen2: Option<u8>,
    pub group: Option<GroupID>,
}

/// Why a fixture's result cannot be read.
#[derive(Debug, Clone, Copy, PartialEq, Eq)]
pub enum FixtureError {
    /// Both penalty scores are given and they are equal.
    InvalidPenalties(TeamName, TeamName),
    /// Only the second team's penalty score is given.
    MissingPenalties1(TeamName, TeamName, u8),
    /// Only the first team's penalty score is given.
    MissingPenalties2(TeamName, TeamName, u8),
}

impl Fixture {
    /// Whether both penalty scores are present.
    pub open spec fn has_shootout(self) -> bool {
        self.pen1 is Some && self.pen2 is Some
    }

    /// The fault in the penalty scores, if there is one.
    pub open spec fn penalty_fault(self) -> Option<FixtureError> {
        match (self.pen1, self.pen2) {
            (None, Some(p)) => Some(FixtureError::MissingPenalties1(self.team1, self.team2, p)),
            (Some(p), None) => Some(FixtureError::MissingPenalties2(self.team1, self.team2, p)),
            (Some(home), Some(away)) => if home == away {
                Some(FixtureError::InvalidPenalties(self.team1, self.team2))
            } else {
                None
            },
            (None, None) => None,
        }
    }

    /// The winner of a fixture whose penalty scores are sound: the higher
    /// scorer; on level scores outside a group, the better side of the
    /// shootout; otherwise nobody.
    pub open spec fn decided_winner(self) -> Option<TeamName> {
        if self.score1 > self.score2 {
            Some(self.team1)
        } else if self.score2 > self.score1 {
            Some(self.team2)
        } else if self.has_shootout() && self.group is None {
            if self.pen1->0 > self.pen2->0 {
                Some(self.team1)
            } else {
                Some(self.team2)
            }
        } else {
            None
        }
    }

    pub open spec fn winner_spec(self) -> Result<Option<TeamName>, FixtureError> {
        match self.penalty_fault() {
            Some(e) => Err(e),
            None => Ok(self.decided_winner()),
        }
    }

    pub open spec fn loser_spec(self) -> Result<Option<TeamName>, FixtureError> {
        match self.winner_spec() {
            Ok(Some(t)) => if t == self.team1 {
                Ok(Some(self.team2))
            } else {
                Ok(Some(self.team1))
            },
            r => r,
        }
    }

    /// Whether `team` is one of the two sides.
    pub open spec fn involves(self, team: TeamName) -> bool {
        self.team1 == team || self.team2 == team
    }

    /// The first (`first`) or the second team.
    pub open spec fn team_of(self, first: bool) -> TeamName {
        if first {
            self.team1
        } else {
            self.team2
        }
    }

    /// The goals of the first (`first`) or the second team.
    pub open spec fn goals_of(self, first: bool) -> u8 {
        if first {
            self.score1
        } else {
            self.score2
        }
    }

    /// The shootout goals of the first (`first`) or the second team, 0
    /// without a shootout.
    pub open spec fn shootout_goals_of(self, first: bool) -> u8 {
        match (self.pen1, self.pen2) {
            (Some(home), Some(away)) => if first {
                home
            } else {
                away
            },
            _ => 0,
        }
    }

    /// Whether `team` is one of the two sides.
    pub fn has_team(&self, team: TeamName) -> (r: bool)
        ensures
            r == self.involves(team),
    {
        self.team1 == team || self.team2 == team
    }

    /// Whether the fixture is a win (`win`) or a loss (`!win`) of `team`.
    pub open spec fn counts_as(self, team: TeamName, win: bool) -> bool {
        match self.decided_winner() {
            Some(w) => self.involves(team) && (win <==> w == team),
            None => false,
        }
    }

    /// The absolute goal difference.
    pub open spec fn margin(self) -> int {
        if self.score1 >= self.score2 {
            self.score1 - self.score2
        } else {
            self.score2 - self.score1
        }
    }

    /// All goals scored.
    pub open spec fn total(self) -> int {
        self.score1 + self.score2
    }

    /// The absolute difference of the shootout, 0 without one.
    pub open spec fn shootout_margin(self) -> int {
        match (self.pen1, self.pen2) {
            (Some(home), Some(away)) => if home >= away {
                home - away
            } else {
                away - home
            },
            _ => 0,
        }
    }

    /// All goals of the shootout, 0 without one.
    pub open spec fn shootout_total(self) -> int {
        match (self.pen1, self.pen2) {
            (Some(home), Some(away)) => home + away,
            _ => 0,
        }
    }

    /// Whether `self` is the greater result: by goal difference, then by all
    /// goals, then, where both went to a shootout, by the shootout's
    /// difference and its goals.
    pub open spec fn outranks(self, other: Fixture) -> bool {
        ||| self.margin() > other.margin()
        ||| self.margin() == other.margin() && self.total() > other.total()
        ||| self.margin() == other.margin() && self.total() == other.total()
            && self.has_shootout() && other.has_shootout() && (self.shootout_margin()
            > other.shootout_margin() || (self.shootout_margin() == other.shootout_margin()
            && self.shootout_total() > other.shootout_total()))
    }

    /// Whether `self` is the greater result of the two.
    pub fn is_greater_than(&self, other: &Fixture) -> (r: bool)
        ensures
            r == self.outranks(*other),
    {
        let m1: u8 = if self.score1 >= self.score2 {
            self.score1 - self.score2
        } else {
            self.score2 - self.score1
        };
        let m2: u8 = if other.score1 >= other.score2 {
            other.score1 - other.score2
        } else {
            other.score2 - other.score1
        };
        if m1 != m2 {
            return m1 > m2;
        }
        let t1: u16 = self.score1 as u16 + self.score2 as u16;
        let t2: u16 = other.score1 as u16 + other.score2 as u16;
        if t1 != t2 {
            return t1 > t2;
        }
        match (self.pen1, self.pen2, other.pen1, other.pen2) {
            (Some(a1), Some(a2), Some(b1), Some(b2)) => {
                let pm1: u8 = if a1 >= a2 {
                    a1 - a2
                } else {
                    a2 - a1
                };
                let pm2: u8 = if b1 >= b2 {
                    b1 - b2
                } else {
                    b2 - b1
                };
                let pt1: u16 = a1 as u16 + a2 as u16;
                let pt2: u16 = b1 as u16 + b2 as u16;
                pm1 > pm2 || (pm1 == pm2 && pt1 > pt2)
            },
            _ => false,
        }
    }

    /// The team that won, `None` for a draw.
    pub fn winner(&self) -> (r: Result<Option<TeamName>, FixtureError>)
        ensures
            r == self.winner_spec(),
    {
        match (self.pen1, self.pen2) {
            (None, Some(p)) => {
                return Err(FixtureError::MissingPenalties1(self.team1, self.team2, p));
            },
            (Some(p), None) => {
                return Err(FixtureError::MissingPenalties2(self.team1, self.team2, p));
            },
            (Some(home), Some(away)) => {
                if home == away {
                    return Err(FixtureError::InvalidPenalties(self.team1, self.team2));
                }
            },
            (None, None) => {},
        }
        if self.score1 > self.score2 {
            Ok(Some(self.team1))
        } else if self.score2 > self.score1 {
            Ok(Some(self.team2))
        } else {
            match (self.pen1, self.pen2, self.group) {
                (Some(home), Some(away), None) => {
                    if home > away {
                        Ok(Some(self.team1))
                    } else {
                        Ok(Some(self.team2))
                    }
                },
                _ => Ok(None),
            }
        }
    }

    /// The team that lost, `None` for a draw.
    pub fn loser(&self) -> (r: Result<Option<TeamName>, FixtureError>)
        ensures
            r == self.loser_spec(),
    {
        match self.winner() {
            Ok(Some(t)) => {
                if t == self.team1 {
                    Ok(Some(self.team2))
                } else {
                    Ok(Some(self.team1))
                }
            },
            r => r,
        }
    }
}

/// A fixture kept as a team's greatest win or loss, with the tournament it
/// was played in.
#[derive(Debug)]
pub struct GreatestFixture {
    pub fixture: Fixture,
    pub tournament_name: String,
}

pub struct GreatestFixtureView {
    pub fixture: Fixture,
    pub tournament_name: Seq<char>,
}

impl View for GreatestFixture {
    type V = GreatestFixtureView;

    open spec fn view(&self) -> GreatestFixtureView {
        GreatestFixtureView { fixture: self.fixture, tournament_name: self.tournament_name@ }
    }
}

impl Clone for GreatestFixture {
    fn clone(&self) -> (g: Self)
        ensures
            g == *self,
    {
        GreatestFixture { fixture: self.fixture, tournament_name: self.tournament_name.clone() }
    }
}

impl GreatestFixture {
    pub fn from(fixture: &Fixture, tournament_name: &str) -> (g: Self)
        ensures
            g@ == (GreatestFixtureView { fixture: *fixture, tournament_name: tournament_name@ }),
    {
        GreatestFixture { fixture: *fixture, tournament_name: tournament_name.to_owned() }
    }
}

} // verus!
