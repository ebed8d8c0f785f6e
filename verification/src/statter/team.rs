use vstd::prelude::*;
use crate::statter::fixture::{Fixture, FixtureError, GreatestFixture, GreatestFixtureView};
use crate::statter::tournament::{Participation, ParticipationView};
use crate::text::{chars_of, hyphenated, lower, lowered, push_char, to_lower};

verus! {

/// The teams of the league.
#[derive(Debug, Clone, Copy, PartialEq, Eq, Hash, Structural)]
pub enum TeamName {
    Unknown,
    AlphaSpaceBros,
    Autoism,
    BigFunky,
    BoneZone,
    CartoonsFC,
    Disney,
    Gambit,
    HmXGaming,
    Moai,
    Nintendont,
    TheDump,
    Vidya,
}

impl TeamName {
    /// The team's name as it is written out.
    pub open spec fn label(self) -> Seq<char> {
        match self {
            TeamName::Unknown => "Unknown"@,
            TeamName::AlphaSpaceBros => "Alpha Space Bros"@,
            TeamName::Autoism => "Autoism"@,
            TeamName::BigFunky => "Big Funky"@,
            TeamName::BoneZone => "Bone Zone"@,
            TeamName::CartoonsFC => "Cartoons FC"@,
            TeamName::Disney => "Disney"@,
            TeamName::Gambit => "Gambit"@,
            TeamName::HmXGaming => "HmX Gaming"@,
            TeamName::Moai => "Moai"@,
            TeamName::Nintendont => "Nintendont"@,
            TeamName::TheDump => "The Dump"@,
            TeamName::Vidya => "Vidya"@,
        }
    }

    /// The team's number in the list of teams.
    pub open spec fn ordinal(self) -> int {
        match self {
            TeamName::Unknown => 0,
            TeamName::AlphaSpaceBros => 1,
            TeamName::Autoism => 2,
            TeamName::BigFunky => 3,
            TeamName::BoneZone => 4,
            TeamName::CartoonsFC => 5,
            TeamName::Disney => 6,
            TeamName::Gambit => 7,
            TeamName::HmXGaming => 8,
            TeamName::Moai => 9,
            TeamName::Nintendont => 10,
            TeamName::TheDump => 11,
            TeamName::Vidya => 12,
        }
    }

    /// The name of the file that holds the team's record: the team's name
    /// in lower case with hyphens for spaces, and the ending `.toml`.
    pub open spec fn file_name(self) -> Seq<char> {
        hyphenated(lowered(self.label())) + ".toml"@
    }

    /// The team's name as it is written out.
    pub fn as_str(&self) -> (s: &'static str)
        ensures
            s@ == self.label(),
    {
        match self {
            TeamName::Unknown => "Unknown",
            TeamName::AlphaSpaceBros => "Alpha Space Bros",
            TeamName::Autoism => "Autoism",
            TeamName::BigFunky => "Big Funky",
            TeamName::BoneZone => "Bone Zone",
            TeamName::CartoonsFC => "Cartoons FC",
            TeamName::Disney => "Disney",
            TeamName::Gambit => "Gambit",
            TeamName::HmXGaming => "HmX Gaming",
            TeamName::Moai => "Moai",
            TeamName::Nintendont => "Nintendont",
            TeamName::TheDump => "The Dump",
            TeamName::Vidya => "Vidya",
        }
    }
}

/// The number of teams there are.
pub const TEAM_COUNT: usize = 13;

/// A list that holds no team twice holds at most as many as there are.
pub proof fn lemma_distinct_names_are_few(names: Seq<TeamName>)
    requires
        forall|i: int, j: int| 0 <= i < j < names.len() ==> names[i] != names[j],
    ensures
        names.len() <= TEAM_COUNT,
{
    let ords = Seq::new(names.len(), |i: int| names[i].ordinal());
    assert(ords.no_duplicates()) by {
        assert forall|i: int, j: int| 0 <= i < ords.len() && 0 <= j < ords.len() && i != j implies ords[i]
            != ords[j] by {
            if i < j {
                assert(names[i] != names[j]);
            } else {
                assert(names[j] != names[i]);
            }
        }
    }
    ords.unique_seq_to_set();
    vstd::set_lib::lemma_int_range(0, 13);
    assert(ords.to_set().subset_of(vstd::set_lib::set_int_range(0, 13))) by {
        assert forall|x: int| ords.to_set().contains(x) implies vstd::set_lib::set_int_range(
            0,
            13,
        ).contains(x) by {
            let i = choose|i: int| 0 <= i < ords.len() && ords[i] == x;
            assert(ords[i] == names[i].ordinal());
        }
    }
    vstd::set_lib::lemma_len_subset(ords.to_set(), vstd::set_lib::set_int_range(0, 13));
}

/// Why two records cannot be merged.
#[derive(Debug, Clone, Copy, PartialEq, Eq)]
pub enum MergeError {
    /// The two matchup records are about different opponents.
    DifferentOpponents,
    /// The two team records are about different teams.
    DifferentTeams,
    /// A greatest win or loss of the other record cannot be read.
    Fixture(FixtureError),
}

/// What a team has done against one opponent.
#[derive(Debug, Clone, Copy, PartialEq, Eq)]
pub struct MatchupHistory {
    pub opponent_name: TeamName,
    pub goals_against: u32,
    pub goals_for: u32,
    pub penalties_played: u32,
    pub penalties_goals_against: u32,
    pub penalties_goals_for: u32,
    pub wins: u32,
    pub draws: u32,
    pub losses: u32,
}

impl MatchupHistory {
    /// Whether each sum of the two records' numbers fits its field.
    pub open spec fn fits(self, other: MatchupHistory) -> bool {
        &&& self.goals_against + other.goals_against <= u32::MAX
        &&& self.goals_for + other.goals_for <= u32::MAX
        &&& self.penalties_played + other.penalties_played <= u32::MAX
        &&& self.penalties_goals_against + other.penalties_goals_against <= u32::MAX
        &&& self.penalties_goals_for + other.penalties_goals_for <= u32::MAX
        &&& self.wins + other.wins <= u32::MAX
        &&& self.draws + other.draws <= u32::MAX
        &&& self.losses + other.losses <= u32::MAX
    }

    /// The record with the other's numbers added to its own.
    pub open spec fn plus(self, other: MatchupHistory) -> MatchupHistory {
        MatchupHistory {
            opponent_name: self.opponent_name,
            goals_against: (self.goals_against + other.goals_against) as u32,
            goals_for: (self.goals_for + other.goals_for) as u32,
            penalties_played: (self.penalties_played + other.penalties_played) as u32,
            penalties_goals_against: (self.penalties_goals_against
                + other.penalties_goals_against) as u32,
            penalties_goals_for: (self.penalties_goals_for + other.penalties_goals_for) as u32,
            wins: (self.wins + other.wins) as u32,
            draws: (self.draws + other.draws) as u32,
            losses: (self.losses + other.losses) as u32,
        }
    }

    /// Whether none of the record's numbers exceeds `bound`.
    pub open spec fn bounded_by(self, bound: int) -> bool {
        &&& self.goals_against <= bound
        &&& self.goals_for <= bound
        &&& self.penalties_played <= bound
        &&& self.penalties_goals_against <= bound
        &&& self.penalties_goals_for <= bound
        &&& self.wins <= bound
        &&& self.draws <= bound
        &&& self.losses <= bound
    }

    pub fn from(
        opponent_name: TeamName,
        goals_against: u32,
        goals_for: u32,
        penalties_played: u32,
        penalties_goals_against: u32,
        penalties_goals_for: u32,
        wins: u32,
        draws: u32,
        losses: u32,
    ) -> (m: Self)
        ensures
            m == (MatchupHistory {
                opponent_name,
                goals_against,
                goals_for,
                penalties_played,
                penalties_goals_against,
                penalties_goals_for,
                wins,
                draws,
                losses,
            }),
    {
        MatchupHistory {
            opponent_name,
            goals_against,
            goals_for,
            penalties_played,
            penalties_goals_against,
            penalties_goals_for,
            wins,
            draws,
            losses,
        }
    }

    /// Adds the other record's numbers, if it is about the same opponent.
    pub fn add(&mut self, other: &Self) -> (r: Result<(), MergeError>)
        requires
            old(self).opponent_name == other.opponent_name ==> old(self).fits(*other),
        ensures
            old(self).opponent_name != other.opponent_name ==> r == Err::<(), MergeError>(
                MergeError::DifferentOpponents,
            ) && *final(self) == *old(self),
            old(self).opponent_name == other.opponent_name ==> r == Ok::<(), MergeError>(())
                && *final(self) == old(self).plus(*other),
    {
        if self.opponent_name != other.opponent_name {
            return Err(MergeError::DifferentOpponents);
        }
        self.goals_against = self.goals_against + other.goals_against;
        self.goals_for = self.goals_for + other.goals_for;
        self.penalties_played = self.penalties_played + other.penalties_played;
        self.penalties_goals_against = self.penalties_goals_against
            + other.penalties_goals_against;
        self.penalties_goals_for = self.penalties_goals_for + other.penalties_goals_for;
        self.wins = self.wins + other.wins;
        self.draws = self.draws + other.draws;
        self.losses = self.losses + other.losses;
        Ok(())
    }
}

/// Whether `i` is the place of the first record about `name` in `list`.
pub open spec fn is_first_match(list: Seq<MatchupHistory>, name: TeamName, i: int) -> bool {
    &&& 0 <= i < list.len()
    &&& list[i].opponent_name == name
    &&& forall|j: int| 0 <= j < i ==> list[j].opponent_name != name
}

/// Whether `list` holds a record about `name`.
pub open spec fn has_opponent(list: Seq<MatchupHistory>, name: TeamName) -> bool {
    exists|i: int| is_first_match(list, name, i)
}

/// The place of the first record about `name` in a list that holds one.
pub open spec fn first_match(list: Seq<MatchupHistory>, name: TeamName) -> int {
    choose|i: int| is_first_match(list, name, i)
}

/// Whether `m` can be taken into `list` without a number outgrowing its field.
pub open spec fn absorb_fits(list: Seq<MatchupHistory>, m: MatchupHistory) -> bool {
    has_opponent(list, m.opponent_name) ==> list[first_match(list, m.opponent_name)].fits(m)
}

/// `list` with `m` taken in: added to the first record about the same
/// opponent, or put at the end where there is none.
pub open spec fn absorb(list: Seq<MatchupHistory>, m: MatchupHistory) -> Seq<MatchupHistory> {
    if has_opponent(list, m.opponent_name) {
        let i = first_match(list, m.opponent_name);
        list.update(i, list[i].plus(m))
    } else {
        list.push(m)
    }
}

/// `list` with the records of `more` taken in one after the other.
pub open spec fn absorb_all(list: Seq<MatchupHistory>, more: Seq<MatchupHistory>) -> Seq<
    MatchupHistory,
>
    decreases more.len(),
{
    if more.len() == 0 {
        list
    } else {
        absorb(absorb_all(list, more.drop_last()), more.last())
    }
}

/// Whether the records of `more` can be taken into `list` one after the
/// other without a number outgrowing its field.
pub open spec fn absorb_all_fits(list: Seq<MatchupHistory>, more: Seq<MatchupHistory>) -> bool
    decreases more.len(),
{
    if more.len() == 0 {
        true
    } else {
        absorb_all_fits(list, more.drop_last()) && absorb_fits(
            absorb_all(list, more.drop_last()),
            more.last(),
        )
    }
}

/// Whether no two records of `list` are about the same opponent.
pub open spec fn opponents_distinct(list: Seq<MatchupHistory>) -> bool {
    forall|i: int, j: int|
        0 <= i < j < list.len() ==> (#[trigger] list[i]).opponent_name != (
        #[trigger] list[j]).opponent_name
}

/// Whether `list` is sound, with no two records about the same opponent,
/// and no number in any record exceeds `bound`.
pub open spec fn matchups_bounded(list: Seq<MatchupHistory>, bound: int) -> bool {
    &&& forall|i: int| 0 <= i < list.len() ==> (#[trigger] list[i]).bounded_by(bound)
    &&& opponents_distinct(list)
}

/// A list that holds a record about `name` at place `k` has a first one.
pub proof fn lemma_opponent_exists(list: Seq<MatchupHistory>, name: TeamName, k: int)
    requires
        0 <= k < list.len(),
        list[k].opponent_name == name,
    ensures
        has_opponent(list, name),
    decreases k,
{
    if forall|j: int| 0 <= j < k ==> list[j].opponent_name != name {
        assert(is_first_match(list, name, k));
    } else {
        let j = choose|j: int| 0 <= j < k && list[j].opponent_name == name;
        lemma_opponent_exists(list, name, j);
    }
}

proof fn lemma_fits_prefix(list: Seq<MatchupHistory>, more: Seq<MatchupHistory>, n: int)
    requires
        absorb_all_fits(list, more),
        0 <= n <= more.len(),
    ensures
        absorb_all_fits(list, more.take(n)),
    decreases more.len(),
{
    if n == more.len() {
        assert(more.take(n) =~= more);
    } else {
        assert(more.drop_last().take(n) =~= more.take(n));
        lemma_fits_prefix(list, more.drop_last(), n);
    }
}

/// Taking a record in keeps bounds: under `a` before and `b` in the record,
/// under `a + b` after.
pub proof fn lemma_absorb_bounded(list: Seq<MatchupHistory>, m: MatchupHistory, a: int, b: int)
    requires
        matchups_bounded(list, a),
        m.bounded_by(b),
        0 <= a,
        0 <= b,
        a + b <= u32::MAX,
    ensures
        absorb_fits(list, m),
        matchups_bounded(absorb(list, m), a + b),
{
    let after = absorb(list, m);
    if has_opponent(list, m.opponent_name) {
        let i = first_match(list, m.opponent_name);
        assert(list[i].bounded_by(a));
        assert forall|k: int| 0 <= k < after.len() implies (#[trigger] after[k]).bounded_by(
            a + b,
        ) by {
            if k != i {
                assert(list[k].bounded_by(a));
            }
        }
        assert forall|x: int, y: int| 0 <= x < y < after.len() implies (
        #[trigger] after[x]).opponent_name != (#[trigger] after[y]).opponent_name by {
            assert(after[x].opponent_name == list[x].opponent_name);
            assert(after[y].opponent_name == list[y].opponent_name);
        }
    } else {
        assert forall|k: int| 0 <= k < after.len() implies (#[trigger] after[k]).bounded_by(
            a + b,
        ) by {
            if k < list.len() {
                assert(list[k].bounded_by(a));
            }
        }
        assert forall|x: int, y: int| 0 <= x < y < after.len() implies (
        #[trigger] after[x]).opponent_name != (#[trigger] after[y]).opponent_name by {
            assert(after[x] == list[x]);
            if y < list.len() {
                assert(after[y] == list[y]);
            } else {
                if list[x].opponent_name == m.opponent_name {
                    lemma_opponent_exists(list, m.opponent_name, x);
                }
            }
        }
    }
}

/// Whether the records of `list` are within `b` of what they were in
/// `start`, and those about opponents not among `seen` are under `a`.
spec fn absorbing(
    list: Seq<MatchupHistory>,
    seen: Seq<MatchupHistory>,
    a: int,
    b: int,
) -> bool {
    &&& matchups_bounded(list, a + b)
    &&& forall|i: int|
        0 <= i < list.len() && !has_opponent(seen, (#[trigger] list[i]).opponent_name)
            ==> list[i].bounded_by(a)
}

/// Taking the records of one sound list into another keeps bounds: under
/// `a` before and `b` in the records, under `a + b` after.
pub proof fn lemma_absorb_all_bounded(
    list: Seq<MatchupHistory>,
    more: Seq<MatchupHistory>,
    a: int,
    b: int,
)
    requires
        matchups_bounded(list, a),
        matchups_bounded(more, b),
        0 <= a,
        0 <= b,
        a + b <= u32::MAX,
    ensures
        absorb_all_fits(list, more),
        matchups_bounded(absorb_all(list, more), a + b),
{
    lemma_absorbing(list, more, a, b, more.len() as int);
    assert(more.take(more.len() as int) =~= more);
}

proof fn lemma_absorbing(
    list: Seq<MatchupHistory>,
    more: Seq<MatchupHistory>,
    a: int,
    b: int,
    n: int,
)
    requires
        matchups_bounded(list, a),
        matchups_bounded(more, b),
        0 <= a,
        0 <= b,
        a + b <= u32::MAX,
        0 <= n <= more.len(),
    ensures
        absorb_all_fits(list, more.take(n)),
        absorbing(absorb_all(list, more.take(n)), more.take(n), a, b),
    decreases n,
{
    let seen = more.take(n);
    if n == 0 {
        let cur = absorb_all(list, seen);
        assert(cur == list);
        assert forall|i: int| 0 <= i < cur.len() implies (#[trigger] cur[i]).bounded_by(a + b) by {
            assert(list[i].bounded_by(a));
        }
    } else {
        lemma_absorbing(list, more, a, b, n - 1);
        let earlier = more.take(n - 1);
        assert(seen.drop_last() =~= earlier);
        let m = more[n - 1];
        assert(seen.last() == m);
        assert(seen =~= earlier.push(m));
        assert(m.bounded_by(b));
        assert(!has_opponent(earlier, m.opponent_name)) by {
            if has_opponent(earlier, m.opponent_name) {
                let j = first_match(earlier, m.opponent_name);
                assert(more[j].opponent_name != more[n - 1].opponent_name);
            }
        }
        lemma_absorbing_step(absorb_all(list, earlier), earlier, m, a, b);
    }
}

/// A record about an opponent that `seen` knows is known to `seen` with one
/// more record too, and so is the opponent of that record.
proof fn lemma_seen_grows(seen: Seq<MatchupHistory>, m: MatchupHistory, name: TeamName)
    requires
        has_opponent(seen, name) || name == m.opponent_name,
    ensures
        has_opponent(seen.push(m), name),
{
    if has_opponent(seen, name) {
        let j = first_match(seen, name);
        assert(seen.push(m)[j].opponent_name == name);
        lemma_opponent_exists(seen.push(m), name, j);
    } else {
        assert(seen.push(m)[seen.len() as int].opponent_name == name);
        lemma_opponent_exists(seen.push(m), name, seen.len() as int);
    }
}

#[verifier::spinoff_prover]
proof fn lemma_absorbing_step(
    prev: Seq<MatchupHistory>,
    earlier: Seq<MatchupHistory>,
    m: MatchupHistory,
    a: int,
    b: int,
)
    requires
        absorbing(prev, earlier, a, b),
        m.bounded_by(b),
        !has_opponent(earlier, m.opponent_name),
        0 <= a,
        0 <= b,
        a + b <= u32::MAX,
    ensures
        absorb_fits(prev, m),
        absorbing(absorb(prev, m), earlier.push(m), a, b),
{
    let cur = absorb(prev, m);
    let seen = earlier.push(m);
    if has_opponent(prev, m.opponent_name) {
        let i = first_match(prev, m.opponent_name);
        assert(prev[i].bounded_by(a));
        assert(cur[i].bounded_by(a + b));
        assert forall|k: int| 0 <= k < cur.len() implies (#[trigger] cur[k]).bounded_by(a + b) by {
            if k != i {
                assert(cur[k] == prev[k]);
                assert(prev[k].bounded_by(a + b));
            }
        }
        assert forall|x: int, y: int| 0 <= x < y < cur.len() implies (
        #[trigger] cur[x]).opponent_name != (#[trigger] cur[y]).opponent_name by {
            assert(cur[x].opponent_name == prev[x].opponent_name);
            assert(cur[y].opponent_name == prev[y].opponent_name);
        }
        assert forall|k: int|
            0 <= k < cur.len() && !has_opponent(seen, (#[trigger] cur[k]).opponent_name) implies cur[k].bounded_by(
            a,
        ) by {
            assert(cur[k].opponent_name == prev[k].opponent_name);
            if k == i || has_opponent(earlier, prev[k].opponent_name) {
                lemma_seen_grows(earlier, m, prev[k].opponent_name);
            } else {
                assert(cur[k] == prev[k]);
            }
        }
    } else {
        assert forall|k: int| 0 <= k < cur.len() implies (#[trigger] cur[k]).bounded_by(a + b) by {
            if k < prev.len() {
                assert(cur[k] == prev[k]);
                assert(prev[k].bounded_by(a + b));
            } else {
                assert(cur[k] == m);
            }
        }
        assert forall|x: int, y: int| 0 <= x < y < cur.len() implies (
        #[trigger] cur[x]).opponent_name != (#[trigger] cur[y]).opponent_name by {
            assert(cur[x] == prev[x]);
            if y < prev.len() {
                assert(cur[y] == prev[y]);
            } else {
                if prev[x].opponent_name == m.opponent_name {
                    lemma_opponent_exists(prev, m.opponent_name, x);
                }
            }
        }
        assert forall|k: int|
            0 <= k < cur.len() && !has_opponent(seen, (#[trigger] cur[k]).opponent_name) implies cur[k].bounded_by(
            a,
        ) by {
            if k == prev.len() {
                lemma_seen_grows(earlier, m, m.opponent_name);
            } else {
                assert(cur[k] == prev[k]);
                if has_opponent(earlier, prev[k].opponent_name) {
                    lemma_seen_grows(earlier, m, prev[k].opponent_name);
                }
            }
        }
    }
}

/// Takes `m` into `list`.
pub fn add_matchup(list: &mut Vec<MatchupHistory>, m: MatchupHistory)
    requires
        absorb_fits(old(list)@, m),
    ensures
        final(list)@ == absorb(old(list)@, m),
{
    let mut i: usize = 0;
    while i < list.len()
        invariant
            i <= list.len(),
            list@ == old(list)@,
            absorb_fits(old(list)@, m),
            forall|j: int| 0 <= j < i ==> list@[j].opponent_name != m.opponent_name,
        decreases list.len() - i,
    {
        if list[i].opponent_name == m.opponent_name {
            assert(is_first_match(list@, m.opponent_name, i as int));
            assert(first_match(list@, m.opponent_name) == i);
            let mut entry = list[i];
            let _ = entry.add(&m);
            list[i] = entry;
            return ;
        }
        i += 1;
    }
    list.push(m);
}

/// Takes the records of `more` into `list`, one after the other.
pub fn add_matchups(list: &mut Vec<MatchupHistory>, more: &Vec<MatchupHistory>)
    requires
        absorb_all_fits(old(list)@, more@),
    ensures
        final(list)@ == absorb_all(old(list)@, more@),
{
    let mut i: usize = 0;
    while i < more.len()
        invariant
            i <= more.len(),
            absorb_all_fits(old(list)@, more@),
            list@ == absorb_all(old(list)@, more@.take(i as int)),
        decreases more.len() - i,
    {
        proof {
            lemma_fits_prefix(old(list)@, more@, i + 1);
            assert(more@.take(i + 1).drop_last() =~= more@.take(i as int));
        }
        add_matchup(list, more[i]);
        i += 1;
    }
    assert(more@.take(i as int) =~= more@);
}

/// A copy of a list of matchup records.
pub fn copy_matchups(list: &Vec<MatchupHistory>) -> (r: Vec<MatchupHistory>)
    ensures
        r@ == list@,
{
    let mut r: Vec<MatchupHistory> = Vec::new();
    let mut i: usize = 0;
    while i < list.len()
        invariant
            i <= list.len(),
            r@ == list@.take(i as int),
        decreases list.len() - i,
    {
        r.push(list[i]);
        assert(list@.take(i + 1) =~= list@.take(i as int).push(list@[i as int]));
        i += 1;
    }
    assert(list@.take(i as int) =~= list@);
    r
}

/// What one fixture adds to the matchup record of its first (`first`) or its
/// second team against the other, for a fixture with sound penalty scores.
pub open spec fn fixture_matchup(f: Fixture, first: bool) -> MatchupHistory {
    MatchupHistory {
        opponent_name: f.team_of(!first),
        goals_against: f.goals_of(!first) as u32,
        goals_for: f.goals_of(first) as u32,
        penalties_played: if f.has_shootout() {
            1
        } else {
            0
        },
        penalties_goals_against: f.shootout_goals_of(!first) as u32,
        penalties_goals_for: f.shootout_goals_of(first) as u32,
        wins: if f.decided_winner() == Some(f.team_of(first)) {
            1
        } else {
            0
        },
        draws: if f.decided_winner() is None {
            1
        } else {
            0
        },
        losses: if f.decided_winner() is Some && f.decided_winner() != Some(f.team_of(first)) {
            1
        } else {
            0
        },
    }
}

/// The matchup record that a fixture with sound penalty scores adds for its
/// first (`first`) or its second team.
pub fn matchup_of(f: &Fixture, first: bool) -> (m: MatchupHistory)
    requires
        f.penalty_fault() is None,
    ensures
        m == fixture_matchup(*f, first),
{
    let (team, opponent, goals_for, goals_against, pen_for, pen_against) = if first {
        (f.team1, f.team2, f.score1, f.score2, f.pen1, f.pen2)
    } else {
        (f.team2, f.team1, f.score2, f.score1, f.pen2, f.pen1)
    };
    let (played, shootout_against, shootout_for): (u32, u32, u32) = match (pen_for, pen_against) {
        (Some(pf), Some(pa)) => (1, pa as u32, pf as u32),
        _ => (0, 0, 0),
    };
    let winner = match f.winner() {
        Ok(w) => w,
        Err(_) => None,
    };
    let (wins, draws, losses): (u32, u32, u32) = match winner {
        Some(w) => if w == team {
            (1, 0, 0)
        } else {
            (0, 0, 1)
        },
        None => (0, 1, 0),
    };
    MatchupHistory {
        opponent_name: opponent,
        goals_against: goals_against as u32,
        goals_for: goals_for as u32,
        penalties_played: played,
        penalties_goals_against: shootout_against,
        penalties_goals_for: shootout_for,
        wins,
        draws,
        losses,
    }
}

/// The views of a list of participations.
pub open spec fn participation_views(list: Seq<Participation>) -> Seq<ParticipationView> {
    Seq::new(list.len(), |i: int| list[i]@)
}

/// A team's record: of one tournament while it is resolved, or of all
/// tournaments once they are merged.
#[derive(Debug)]
pub struct Team {
    pub name: TeamName,
    pub goals_against: u32,
    pub goals_for: u32,
    pub penalties_played: u32,
    pub penalties_goals_against: u32,
    pub penalties_goals_for: u32,
    pub wins: u32,
    pub draws: u32,
    pub losses: u32,
    pub greatest_win: Option<GreatestFixture>,
    pub greatest_loss: Option<GreatestFixture>,
    pub matchups: Option<Vec<MatchupHistory>>,
    pub participations: Option<Vec<Participation>>,
    pub head_to_head: Option<u8>,
}

pub struct TeamView {
    pub name: TeamName,
    pub goals_against: u32,
    pub goals_for: u32,
    pub penalties_played: u32,
    pub penalties_goals_against: u32,
    pub penalties_goals_for: u32,
    pub wins: u32,
    pub draws: u32,
    pub losses: u32,
    pub greatest_win: Option<GreatestFixtureView>,
    pub greatest_loss: Option<GreatestFixtureView>,
    pub matchups: Option<Seq<MatchupHistory>>,
    pub participations: Option<Seq<ParticipationView>>,
    pub head_to_head: Option<u8>,
}

impl View for Team {
    type V = TeamView;

    open spec fn view(&self) -> TeamView {
        TeamView {
            name: self.name,
            goals_against: self.goals_against,
            goals_for: self.goals_for,
            penalties_played: self.penalties_played,
            penalties_goals_against: self.penalties_goals_against,
            penalties_goals_for: self.penalties_goals_for,
            wins: self.wins,
            draws: self.draws,
            losses: self.losses,
            greatest_win: match self.greatest_win {
                Some(g) => Some(g@),
                None => None,
            },
            greatest_loss: match self.greatest_loss {
                Some(g) => Some(g@),
                None => None,
            },
            matchups: match self.matchups {
                Some(list) => Some(list@),
                None => None,
            },
            participations: match self.participations {
                Some(list) => Some(participation_views(list@)),
                None => None,
            },
            head_to_head: self.head_to_head,
        }
    }
}

impl TeamView {
    /// Goals scored less goals conceded.
    pub open spec fn goal_difference(self) -> int {
        self.goals_for - self.goals_against
    }

    /// The record of a team that has not played.
    pub open spec fn fresh(name: TeamName) -> TeamView {
        TeamView {
            name,
            goals_against: 0,
            goals_for: 0,
            penalties_played: 0,
            penalties_goals_against: 0,
            penalties_goals_for: 0,
            wins: 0,
            draws: 0,
            losses: 0,
            greatest_win: None,
            greatest_loss: None,
            matchups: None,
            participations: None,
            head_to_head: None,
        }
    }

    /// The greatest win (`win`) or the greatest loss (`!win`).
    pub open spec fn greatest(self, win: bool) -> Option<GreatestFixtureView> {
        if win {
            self.greatest_win
        } else {
            self.greatest_loss
        }
    }

    pub open spec fn with_greatest(self, win: bool, g: Option<GreatestFixtureView>) -> TeamView {
        if win {
            TeamView { greatest_win: g, ..self }
        } else {
            TeamView { greatest_loss: g, ..self }
        }
    }

    /// The record with the greatest win and loss forgotten.
    pub open spec fn without_greatest(self) -> TeamView {
        TeamView { greatest_win: None, greatest_loss: None, ..self }
    }

    /// Whether the greatest win is a win of this team and the greatest loss
    /// a loss of it, both with sound penalty scores.
    pub open spec fn greatest_valid(self) -> bool {
        &&& self.greatest_win matches Some(g) ==> g.fixture.penalty_fault() is None
            && g.fixture.counts_as(self.name, true)
        &&& self.greatest_loss matches Some(g) ==> g.fixture.penalty_fault() is None
            && g.fixture.counts_as(self.name, false)
    }

    /// The fault that stops `f` from being considered: that of its penalty
    /// scores, if the team played in it.
    pub open spec fn offer_fault(self, f: Fixture) -> Option<FixtureError> {
        if f.involves(self.name) {
            f.penalty_fault()
        } else {
            None
        }
    }

    /// Whether `f`, with sound penalty scores, becomes the greatest win
    /// (`win`) or loss (`!win`): the team won (lost) it, and it is the first
    /// such or greater than the one held.
    pub open spec fn accepts(self, f: Fixture, win: bool) -> bool {
        f.counts_as(self.name, win) && match self.greatest(win) {
            None => true,
            Some(held) => f.outranks(held.fixture),
        }
    }

    /// The record after `g` was offered as greatest win (`win`) or loss.
    pub open spec fn offered(self, g: GreatestFixtureView, win: bool) -> TeamView {
        if self.accepts(g.fixture, win) {
            self.with_greatest(win, Some(g))
        } else {
            self
        }
    }

    /// The record after `g`, if there is one, was offered.
    pub open spec fn offered_opt(self, g: Option<GreatestFixtureView>, win: bool) -> TeamView {
        match g {
            Some(g) => self.offered(g, win),
            None => self,
        }
    }

    pub open spec fn offer_fault_opt(self, g: Option<GreatestFixtureView>) -> Option<
        FixtureError,
    > {
        match g {
            Some(g) => self.offer_fault(g.fixture),
            None => None,
        }
    }

    /// Whether each sum of the two records' own numbers fits its field.
    pub open spec fn counters_fit(self, other: TeamView) -> bool {
        &&& self.goals_against + other.goals_against <= u32::MAX
        &&& self.goals_for + other.goals_for <= u32::MAX
        &&& self.penalties_played + other.penalties_played <= u32::MAX
        &&& self.penalties_goals_against + other.penalties_goals_against <= u32::MAX
        &&& self.penalties_goals_for + other.penalties_goals_for <= u32::MAX
        &&& self.wins + other.wins <= u32::MAX
        &&& self.draws + other.draws <= u32::MAX
        &&& self.losses + other.losses <= u32::MAX
    }

    /// Whether `other` can be merged into `self` without a number outgrowing
    /// its field.
    pub open spec fn merge_fits(self, other: TeamView) -> bool {
        &&& self.counters_fit(other)
        &&& match (self.matchups, other.matchups) {
            (Some(mine), Some(theirs)) => absorb_all_fits(mine, theirs),
            _ => true,
        }
    }

    /// Why `other` cannot be merged into `self`, if it cannot.
    pub open spec fn merge_fault(self, other: TeamView) -> Option<MergeError> {
        if self.name != other.name {
            Some(MergeError::DifferentTeams)
        } else if self.offer_fault_opt(other.greatest_loss) is Some {
            Some(MergeError::Fixture(self.offer_fault_opt(other.greatest_loss)->0))
        } else if self.offer_fault_opt(other.greatest_win) is Some {
            Some(MergeError::Fixture(self.offer_fault_opt(other.greatest_win)->0))
        } else {
            None
        }
    }

    /// The matchup records after a merge.
    pub open spec fn merged_matchups(self, other: TeamView) -> Option<Seq<MatchupHistory>> {
        match (self.matchups, other.matchups) {
            (None, theirs) => theirs,
            (Some(mine), None) => Some(mine),
            (Some(mine), Some(theirs)) => Some(absorb_all(mine, theirs)),
        }
    }

    /// The participations after a merge: the other's behind one's own.
    pub open spec fn merged_participations(self, other: TeamView) -> Option<
        Seq<ParticipationView>,
    > {
        match other.participations {
            None => self.participations,
            Some(theirs) => match self.participations {
                None => Some(theirs),
                Some(mine) => Some(mine + theirs),
            },
        }
    }

    /// `self` with `other` merged into it: the numbers added, the other's
    /// greatest loss and win offered, its matchup records taken in and its
    /// participations put behind.
    pub open spec fn merged(self, other: TeamView) -> TeamView {
        let offered = self.offered_opt(other.greatest_loss, false).offered_opt(
            other.greatest_win,
            true,
        );
        TeamView {
            name: self.name,
            goals_against: (self.goals_against + other.goals_against) as u32,
            goals_for: (self.goals_for + other.goals_for) as u32,
            penalties_played: (self.penalties_played + other.penalties_played) as u32,
            penalties_goals_against: (self.penalties_goals_against
                + other.penalties_goals_against) as u32,
            penalties_goals_for: (self.penalties_goals_for + other.penalties_goals_for) as u32,
            wins: (self.wins + other.wins) as u32,
            draws: (self.draws + other.draws) as u32,
            losses: (self.losses + other.losses) as u32,
            greatest_win: offered.greatest_win,
            greatest_loss: offered.greatest_loss,
            matchups: self.merged_matchups(other),
            participations: self.merged_participations(other),
            head_to_head: self.head_to_head,
        }
    }

    /// The record that was merged into another: its participations have
    /// moved over.
    pub open spec fn drained(self) -> TeamView {
        match self.participations {
            Some(_) => TeamView { participations: Some(Seq::empty()), ..self },
            None => self,
        }
    }

    /// Whether the fixture can be entered for its first (`first`) or second
    /// team without a number outgrowing its field.
    pub open spec fn play_fits(self, f: Fixture, first: bool) -> bool {
        let m = fixture_matchup(f, first);
        &&& self.goals_against + m.goals_against <= u32::MAX
        &&& self.goals_for + m.goals_for <= u32::MAX
        &&& self.penalties_played + m.penalties_played <= u32::MAX
        &&& self.penalties_goals_against + m.penalties_goals_against <= u32::MAX
        &&& self.penalties_goals_for + m.penalties_goals_for <= u32::MAX
        &&& self.wins + m.wins <= u32::MAX
        &&& self.draws + m.draws <= u32::MAX
        &&& self.losses + m.losses <= u32::MAX
        &&& self.matchups matches Some(list) ==> absorb_fits(list, m)
    }

    /// The record after a fixture with sound penalty scores was entered for
    /// its first (`first`) or second team: goals, shootout and result
    /// counted, the fixture offered as greatest win and as greatest loss, and
    /// the matchup with the opponent taken in.
    pub open spec fn played(self, f: Fixture, first: bool, tournament_name: Seq<char>) -> TeamView {
        let m = fixture_matchup(f, first);
        let g = GreatestFixtureView { fixture: f, tournament_name };
        let offered = self.offered(g, true).offered(g, false);
        TeamView {
            name: self.name,
            goals_against: (self.goals_against + m.goals_against) as u32,
            goals_for: (self.goals_for + m.goals_for) as u32,
            penalties_played: (self.penalties_played + m.penalties_played) as u32,
            penalties_goals_against: (self.penalties_goals_against
                + m.penalties_goals_against) as u32,
            penalties_goals_for: (self.penalties_goals_for + m.penalties_goals_for) as u32,
            wins: (self.wins + m.wins) as u32,
            draws: (self.draws + m.draws) as u32,
            losses: (self.losses + m.losses) as u32,
            greatest_win: offered.greatest_win,
            greatest_loss: offered.greatest_loss,
            matchups: Some(
                match self.matchups {
                    Some(list) => absorb(list, m),
                    None => seq![m],
                },
            ),
            participations: self.participations,
            head_to_head: self.head_to_head,
        }
    }

    /// Whether none of the record's numbers, nor any in its matchup records,
    /// exceeds `bound`.
    pub open spec fn bounded_by(self, bound: int) -> bool {
        &&& self.goals_against <= bound
        &&& self.goals_for <= bound
        &&& self.penalties_played <= bound
        &&& self.penalties_goals_against <= bound
        &&& self.penalties_goals_for <= bound
        &&& self.wins <= bound
        &&& self.draws <= bound
        &&& self.losses <= bound
        &&& self.matchups matches Some(list) ==> matchups_bounded(list, bound)
    }
}

impl Team {
    pub fn from(name: TeamName) -> (t: Team)
        ensures
            t@ == TeamView::fresh(name),
    {
        Team {
            name,
            goals_against: 0,
            goals_for: 0,
            penalties_played: 0,
            penalties_goals_against: 0,
            penalties_goals_for: 0,
            wins: 0,
            draws: 0,
            losses: 0,
            greatest_win: None,
            greatest_loss: None,
            matchups: None,
            participations: None,
            head_to_head: None,
        }
    }

    /// Why `other` cannot be merged into this record, if it cannot.
    pub fn check_merge(&self, other: &Team) -> (r: Option<MergeError>)
        ensures
            r == self@.merge_fault(other@),
    {
        if self.name != other.name {
            return Some(MergeError::DifferentTeams);
        }
        match &other.greatest_loss {
            Some(g) => {
                if g.fixture.has_team(self.name) {
                    match g.fixture.winner() {
                        Err(e) => {
                            return Some(MergeError::Fixture(e));
                        },
                        Ok(_) => {},
                    }
                }
            },
            None => {},
        }
        match &other.greatest_win {
            Some(g) => {
                if g.fixture.has_team(self.name) {
                    match g.fixture.winner() {
                        Err(e) => {
                            return Some(MergeError::Fixture(e));
                        },
                        Ok(_) => {},
                    }
                }
            },
            None => {},
        }
        None
    }

    /// Merges the record of the same team from another tournament into this
    /// one. The other record's participations move over.
    pub fn add(&mut self, other: &mut Self) -> (r: Result<(), MergeError>)
        requires
            old(self).name == old(other).name ==> old(self)@.merge_fits(old(other)@),
        ensures
            match old(self)@.merge_fault(old(other)@) {
                Some(e) => r == Err::<(), MergeError>(e) && final(self)@ == old(self)@
                    && final(other)@ == old(other)@,
                None => r == Ok::<(), MergeError>(()) && final(self)@ == old(self)@.merged(
                    old(other)@,
                ) && final(other)@ == old(other)@.drained(),
            },
    {
        match self.check_merge(other) {
            Some(e) => {
                return Err(e);
            },
            None => {},
        }
        self.goals_against = self.goals_against + other.goals_against;
        self.goals_for = self.goals_for + other.goals_for;
        self.penalties_played = self.penalties_played + other.penalties_played;
        self.penalties_goals_against = self.penalties_goals_against
            + other.penalties_goals_against;
        self.penalties_goals_for = self.penalties_goals_for + other.penalties_goals_for;
        self.wins = self.wins + other.wins;
        self.draws = self.draws + other.draws;
        self.losses = self.losses + other.losses;
        match &other.greatest_loss {
            Some(g) => {
                let _ = self.try_add_greatest(g, false);
            },
            None => {},
        }
        match &other.greatest_win {
            Some(g) => {
                let _ = self.try_add_greatest(g, true);
            },
            None => {},
        }
        let mine = self.matchups.take();
        match mine {
            None => {
                match &other.matchups {
                    Some(theirs) => {
                        self.matchups = Some(copy_matchups(theirs));
                    },
                    None => {},
                }
            },
            Some(mut list) => {
                match &other.matchups {
                    Some(theirs) => {
                        add_matchups(&mut list, theirs);
                    },
                    None => {},
                }
                self.matchups = Some(list);
            },
        }
        let theirs = other.participations.take();
        match theirs {
            Some(mut moved) => {
                let mine = self.participations.take();
                match mine {
                    Some(mut list) => {
                        proof {
                            assert(participation_views(list@ + moved@) =~= participation_views(
                                list@,
                            ) + participation_views(moved@));
                        }
                        list.append(&mut moved);
                        self.participations = Some(list);
                    },
                    None => {
                        self.participations = Some(moved);
                        moved = Vec::new();
                    },
                }
                other.participations = Some(moved);
                proof {
                    assert(participation_views(Seq::<Participation>::empty()) =~= Seq::<
                        ParticipationView,
                    >::empty());
                }
            },
            None => {},
        }
        Ok(())
    }

    /// Enters a fixture with sound penalty scores for its first (`first`) or
    /// second team.
    pub fn record_fixture(&mut self, fixture: &Fixture, first: bool, tournament_name: &str)
        requires
            fixture.penalty_fault() is None,
            old(self)@.play_fits(*fixture, first),
        ensures
            final(self)@ == old(self)@.played(*fixture, first, tournament_name@),
    {
        let m = matchup_of(fixture, first);
        self.goals_against = self.goals_against + m.goals_against;
        self.goals_for = self.goals_for + m.goals_for;
        self.penalties_played = self.penalties_played + m.penalties_played;
        self.penalties_goals_against = self.penalties_goals_against + m.penalties_goals_against;
        self.penalties_goals_for = self.penalties_goals_for + m.penalties_goals_for;
        self.wins = self.wins + m.wins;
        self.draws = self.draws + m.draws;
        self.losses = self.losses + m.losses;
        let candidate = GreatestFixture::from(fixture, tournament_name);
        let _ = self.try_add_greatest(&candidate, true);
        let _ = self.try_add_greatest(&candidate, false);
        let held = self.matchups.take();
        match held {
            Some(mut list) => {
                add_matchup(&mut list, m);
                self.matchups = Some(list);
            },
            None => {
                let mut list: Vec<MatchupHistory> = Vec::new();
                list.push(m);
                self.matchups = Some(list);
            },
        }
    }

    /// The name of the file that holds the team's record.
    pub fn filename(&self) -> (r: String)
        ensures
            r@ == self.name.file_name(),
    {
        let name = chars_of(self.name.as_str());
        let mut r = String::new();
        let mut i: usize = 0;
        while i < name.len()
            invariant
                i <= name.len(),
                name@ == self.name.label(),
                r@ == hyphenated(lowered(name@)).take(i as int),
            decreases name.len() - i,
        {
            let c = to_lower(name[i]);
            push_char(
                &mut r,
                if c == ' ' {
                    '-'
                } else {
                    c
                },
            );
            assert(r@ =~= hyphenated(lowered(name@)).take(i + 1));
            i += 1;
        }
        assert(hyphenated(lowered(name@)).take(i as int) =~= hyphenated(lowered(name@)));
        r.append(".toml");
        r
    }

    pub fn get_greatest_loss(&self) -> (r: Option<&GreatestFixture>)
        ensures
            r is Some <==> self.greatest_loss is Some,
            r is Some ==> *r->0 == self.greatest_loss->0,
    {
        self.greatest_loss.as_ref()
    }

    pub fn get_greatest_win(&self) -> (r: Option<&GreatestFixture>)
        ensures
            r is Some <==> self.greatest_win is Some,
            r is Some ==> *r->0 == self.greatest_win->0,
    {
        self.greatest_win.as_ref()
    }

    /// Forgets the greatest win and the greatest loss.
    pub fn reset_greatest(&mut self)
        ensures
            final(self)@ == old(self)@.without_greatest(),
    {
        self.greatest_win = None;
        self.greatest_loss = None;
    }

    fn try_add_greatest(&mut self, g_fixture: &GreatestFixture, win: bool) -> (r: Result<
        bool,
        FixtureError,
    >)
        ensures
            match old(self)@.offer_fault(g_fixture.fixture) {
                Some(e) => r == Err::<bool, FixtureError>(e) && final(self)@ == old(self)@,
                None => r == Ok::<bool, FixtureError>(
                    old(self)@.accepts(g_fixture.fixture, win),
                ) && final(self)@ == old(self)@.offered(g_fixture@, win),
            },
    {
        let f = g_fixture.fixture;
        if !f.has_team(self.name) {
            return Ok(false);
        }
        let winner = match f.winner() {
            Ok(w) => w,
            Err(e) => {
                return Err(e);
            },
        };
        let qualifies = match winner {
            Some(w) => if win {
                w == self.name
            } else {
                w != self.name
            },
            None => false,
        };
        if !qualifies {
            return Ok(false);
        }
        let greater = if win {
            match &self.greatest_win {
                Some(held) => f.is_greater_than(&held.fixture),
                None => true,
            }
        } else {
            match &self.greatest_loss {
                Some(held) => f.is_greater_than(&held.fixture),
                None => true,
            }
        };
        if greater {
            if win {
                self.greatest_win = Some(g_fixture.clone());
            } else {
                self.greatest_loss = Some(g_fixture.clone());
            }
        }
        Ok(greater)
    }

    /// Offers a fixture as the team's greatest loss; tells whether it was
    /// taken.
    pub fn try_add_greatest_loss(&mut self, other: &GreatestFixture) -> (r: Result<
        bool,
        FixtureError,
    >)
        ensures
            match old(self)@.offer_fault(other.fixture) {
                Some(e) => r == Err::<bool, FixtureError>(e) && final(self)@ == old(self)@,
                None => r == Ok::<bool, FixtureError>(old(self)@.accepts(other.fixture, false))
                    && final(self)@ == old(self)@.offered(other@, false),
            },
    {
        self.try_add_greatest(other, false)
    }

    /// Offers a fixture as the team's greatest win; tells whether it was
    /// taken.
    pub fn try_add_greatest_win(&mut self, other: &GreatestFixture) -> (r: Result<
        bool,
        FixtureError,
    >)
        ensures
            match old(self)@.offer_fault(other.fixture) {
                Some(e) => r == Err::<bool, FixtureError>(e) && final(self)@ == old(self)@,
                None => r == Ok::<bool, FixtureError>(old(self)@.accepts(other.fixture, true))
                    && final(self)@ == old(self)@.offered(other@, true),
            },
    {
        self.try_add_greatest(other, true)
    }
}

/// Entering a fixture keeps bounds: under `b` before, under `b + 255` after.
pub proof fn lemma_played_bounded(
    team: TeamView,
    f: Fixture,
    first: bool,
    tournament_name: Seq<char>,
    b: int,
)
    requires
        team.bounded_by(b),
        0 <= b,
        b + 255 <= u32::MAX,
    ensures
        team.play_fits(f, first),
        team.played(f, first, tournament_name).bounded_by(b + 255),
{
    let m = fixture_matchup(f, first);
    assert(m.bounded_by(255));
    match team.matchups {
        Some(list) => {
            lemma_absorb_bounded(list, m, b, 255);
        },
        None => {
            assert(matchups_bounded(seq![m], b + 255));
        },
    }
}

/// Merging a record with itself leaves its greatest win and loss as they
/// are, and so does merging it into a copy of itself that has forgotten
/// them: selecting the greatest win and loss again reproduces them.
pub proof fn lemma_remerge_keeps_greatest(team: TeamView)
    requires
        team.greatest_valid(),
    ensures
        team.merge_fault(team) is None,
        team.merged(team).greatest_win == team.greatest_win,
        team.merged(team).greatest_loss == team.greatest_loss,
        team.without_greatest().merge_fault(team) is None,
        team.without_greatest().merged(team).greatest_win == team.greatest_win,
        team.without_greatest().merged(team).greatest_loss == team.greatest_loss,
{
}

/// The numbers of two merged records add up the same whichever record is
/// merged into the other.
pub proof fn lemma_merged_totals_commute(a: TeamView, b: TeamView)
    ensures
        a.merged(b).goals_against == b.merged(a).goals_against,
        a.merged(b).goals_for == b.merged(a).goals_for,
        a.merged(b).penalties_played == b.merged(a).penalties_played,
        a.merged(b).penalties_goals_against == b.merged(a).penalties_goals_against,
        a.merged(b).penalties_goals_for == b.merged(a).penalties_goals_for,
        a.merged(b).wins == b.merged(a).wins,
        a.merged(b).draws == b.merged(a).draws,
        a.merged(b).losses == b.merged(a).losses,
{
}

/// The greatest win and loss stay sound when a fixture is entered and when
/// a record is merged in.
pub proof fn lemma_greatest_stays_valid(
    team: TeamView,
    f: Fixture,
    first: bool,
    tournament_name: Seq<char>,
    other: TeamView,
)
    requires
        team.greatest_valid(),
    ensures
        TeamView::fresh(team.name).greatest_valid(),
        team.without_greatest().greatest_valid(),
        f.penalty_fault() is None ==> team.played(f, first, tournament_name).greatest_valid(),
        team.merge_fault(other) is None ==> team.merged(other).greatest_valid(),
{
}

/// A record bounded by a number is bounded by every larger one.
pub proof fn lemma_team_bounded_mono(team: TeamView, b: int, c: int)
    requires
        team.bounded_by(b),
        b <= c,
    ensures
        team.bounded_by(c),
{
    match team.matchups {
        Some(list) => {
            assert forall|k: int| 0 <= k < list.len() implies (#[trigger] list[k]).bounded_by(c) by {
                assert(list[k].bounded_by(b));
            }
        },
        None => {},
    }
}

/// Merging keeps bounds: with one record under `a` and the other under `b`,
/// the other can be merged into the one, and what comes of it is under
/// `a + b`.
pub proof fn lemma_merged_bounded(team: TeamView, other: TeamView, a: int, b: int)
    requires
        team.bounded_by(a),
        other.bounded_by(b),
        0 <= a,
        0 <= b,
        a + b <= u32::MAX,
    ensures
        team.merge_fits(other),
        team.merged(other).bounded_by(a + b),
{
    match (team.matchups, other.matchups) {
        (Some(mine), Some(theirs)) => {
            lemma_absorb_all_bounded(mine, theirs, a, b);
        },
        (Some(mine), None) => {
            assert forall|i: int| 0 <= i < mine.len() implies (#[trigger] mine[i]).bounded_by(
                a + b,
            ) by {
                assert(mine[i].bounded_by(a));
            }
        },
        (None, Some(theirs)) => {
            assert forall|i: int| 0 <= i < theirs.len() implies (#[trigger] theirs[i]).bounded_by(
                a + b,
            ) by {
                assert(theirs[i].bounded_by(b));
            }
        },
        (None, None) => {},
    }
}

/// A team's record of one tournament with the rank it finished on, once that
/// is known.
#[derive(Debug)]
pub struct TeamPlacement {
    pub team: Team,
    pub placement: Option<u8>,
}

pub struct TeamPlacementView {
    pub team: TeamView,
    pub placement: Option<u8>,
}

impl View for TeamPlacement {
    type V = TeamPlacementView;

    open spec fn view(&self) -> TeamPlacementView {
        TeamPlacementView { team: self.team@, placement: self.placement }
    }
}

impl TeamPlacement {
    pub fn from(placement: Option<u8>, team: Team) -> (tp: Self)
        ensures
            tp@ == (TeamPlacementView { team: team@, placement }),
    {
        TeamPlacement { placement, team }
    }
}

} // verus!
