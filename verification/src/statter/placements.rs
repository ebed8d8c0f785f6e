use vstd::prelude::*;
use crate::statter::fixture::{Fixture, FixtureError};
use crate::statter::team::{Team, TeamName, TeamPlacement, TeamPlacementView, TeamView};
use crate::statter::team::lemma_played_bounded;

verus! {

/// Why a fixture cannot be entered into the placements of a tournament.
#[derive(Debug, Clone, Copy, PartialEq, Eq)]
pub enum UpdateError {
    /// The fixture's result cannot be read.
    Fixture(FixtureError),
    /// The fixture was drawn outside the group stage.
    IllegalDraw(TeamName, TeamName),
}

/// The largest number a team's record may hold before a fixture is entered.
pub const COUNTER_LIMIT: u32 = 0xffff_fe01;

/// The placements of a tournament while it is resolved: one entry for each
/// team that has played, in the order in which the teams first appeared.
#[derive(Debug)]
pub struct TournamentPlacements {
    pub placements: Vec<TeamPlacement>,
}

/// The views of a list of placements.
pub open spec fn placement_views(list: Seq<TeamPlacement>) -> Seq<TeamPlacementView> {
    Seq::new(list.len(), |i: int| list[i]@)
}

impl View for TournamentPlacements {
    type V = Seq<TeamPlacementView>;

    open spec fn view(&self) -> Seq<TeamPlacementView> {
        placement_views(self.placements@)
    }
}

/// Whether `i` is the place of the first entry of `team` in `table`.
pub open spec fn is_entry_of(table: Seq<TeamPlacementView>, team: TeamName, i: int) -> bool {
    &&& 0 <= i < table.len()
    &&& table[i].team.name == team
    &&& forall|j: int| 0 <= j < i ==> table[j].team.name != team
}

/// Whether `table` has an entry of `team`.
pub open spec fn has_entry(table: Seq<TeamPlacementView>, team: TeamName) -> bool {
    exists|i: int| is_entry_of(table, team, i)
}

/// The place of the first entry of `team` in a table that has one.
pub open spec fn entry_of(table: Seq<TeamPlacementView>, team: TeamName) -> int {
    choose|i: int| is_entry_of(table, team, i)
}

/// Whether no team has two entries.
pub open spec fn names_distinct(table: Seq<TeamPlacementView>) -> bool {
    forall|i: int, j: int|
        0 <= i < j < table.len() ==> (#[trigger] table[i]).team.name != (
        #[trigger] table[j]).team.name
}

/// Whether no number in any team's record exceeds `bound`.
pub open spec fn table_bounded(table: Seq<TeamPlacementView>, bound: int) -> bool {
    forall|i: int| 0 <= i < table.len() ==> (#[trigger] table[i]).team.bounded_by(bound)
}

/// Why the fixture cannot be entered, if it cannot: its result cannot be
/// read, or it is a draw outside the group stage.
pub open spec fn update_fault(f: Fixture, is_groups: bool) -> Option<UpdateError> {
    match f.penalty_fault() {
        Some(e) => Some(UpdateError::Fixture(e)),
        None => if f.decided_winner() is None && !is_groups {
            Some(UpdateError::IllegalDraw(f.team1, f.team2))
        } else {
            None
        },
    }
}

/// The table after the fixture was entered for its first (`first`) or second
/// team: into the team's entry, or into a new entry without a rank at the end.
pub open spec fn side_updated(
    table: Seq<TeamPlacementView>,
    f: Fixture,
    first: bool,
    tournament_name: Seq<char>,
) -> Seq<TeamPlacementView> {
    let team = f.team_of(first);
    if has_entry(table, team) {
        let i = entry_of(table, team);
        table.update(
            i,
            TeamPlacementView {
                team: table[i].team.played(f, first, tournament_name),
                placement: table[i].placement,
            },
        )
    } else {
        table.push(
            TeamPlacementView {
                team: TeamView::fresh(team).played(f, first, tournament_name),
                placement: None,
            },
        )
    }
}

/// The table after the fixture was entered for both teams.
pub open spec fn updated(table: Seq<TeamPlacementView>, f: Fixture, tournament_name: Seq<char>) -> Seq<
    TeamPlacementView,
> {
    side_updated(side_updated(table, f, true, tournament_name), f, false, tournament_name)
}

/// The table with the rank of `team` set, where it has an entry.
pub open spec fn placed(table: Seq<TeamPlacementView>, team: TeamName, placement: u8) -> Seq<
    TeamPlacementView,
> {
    if has_entry(table, team) {
        let i = entry_of(table, team);
        table.update(i, TeamPlacementView { team: table[i].team, placement: Some(placement) })
    } else {
        table
    }
}

/// The table with the decider value of `team` set, where it has an entry.
pub open spec fn with_decider(table: Seq<TeamPlacementView>, team: TeamName, points: u8) -> Seq<
    TeamPlacementView,
> {
    if has_entry(table, team) {
        let i = entry_of(table, team);
        table.update(
            i,
            TeamPlacementView {
                team: TeamView { head_to_head: Some(points), ..table[i].team },
                placement: table[i].placement,
            },
        )
    } else {
        table
    }
}

/// Entering a fixture for one team keeps the teams' entries apart and the
/// records bounded: under `b` before, under `b + 255` after.
pub proof fn lemma_side_updated(
    table: Seq<TeamPlacementView>,
    f: Fixture,
    first: bool,
    tournament_name: Seq<char>,
    b: int,
)
    requires
        table_bounded(table, b),
        0 <= b,
        b + 255 <= u32::MAX,
    ensures
        table_bounded(side_updated(table, f, first, tournament_name), b + 255),
        names_distinct(table) ==> names_distinct(side_updated(table, f, first, tournament_name)),
        side_updated(table, f, first, tournament_name).len() >= table.len(),
        forall|i: int|
            0 <= i < table.len() ==> (#[trigger] side_updated(
                table,
                f,
                first,
                tournament_name,
            )[i]).team.name == table[i].team.name,
{
    let team = f.team_of(first);
    let after = side_updated(table, f, first, tournament_name);
    if has_entry(table, team) {
        let i = entry_of(table, team);
        lemma_played_bounded(table[i].team, f, first, tournament_name, b);
        assert forall|k: int| 0 <= k < after.len() implies (#[trigger] after[k]).team.bounded_by(
            b + 255,
        ) by {
            if k != i {
                assert(table[k].team.bounded_by(b));
            }
        }
        if names_distinct(table) {
            assert forall|x: int, y: int| 0 <= x < y < after.len() implies (#[trigger] after[x]).team.name
                != (#[trigger] after[y]).team.name by {
                assert(after[x].team.name == table[x].team.name);
                assert(after[y].team.name == table[y].team.name);
            }
        }
    } else {
        lemma_played_bounded(TeamView::fresh(team), f, first, tournament_name, b);
        assert forall|k: int| 0 <= k < after.len() implies (#[trigger] after[k]).team.bounded_by(
            b + 255,
        ) by {
            if k < table.len() {
                assert(table[k].team.bounded_by(b));
            }
        }
        if names_distinct(table) {
            assert forall|x: int, y: int| 0 <= x < y < after.len() implies (#[trigger] after[x]).team.name
                != (#[trigger] after[y]).team.name by {
                if y == table.len() {
                    assert(after[x].team.name == table[x].team.name);
                    if table[x].team.name == team {
                        lemma_entry_exists(table, team, x);
                    }
                } else {
                    assert(after[x].team.name == table[x].team.name);
                    assert(after[y].team.name == table[y].team.name);
                }
            }
        }
    }
}

/// Entering a fixture for both teams keeps the teams' entries apart and the
/// records bounded: under `b` before, under `b + 510` after.
pub proof fn lemma_updated(
    table: Seq<TeamPlacementView>,
    f: Fixture,
    tournament_name: Seq<char>,
    b: int,
)
    requires
        table_bounded(table, b),
        0 <= b,
        b + 510 <= u32::MAX,
    ensures
        table_bounded(updated(table, f, tournament_name), b + 510),
        names_distinct(table) ==> names_distinct(updated(table, f, tournament_name)),
        updated(table, f, tournament_name).len() >= table.len(),
{
    lemma_side_updated(table, f, true, tournament_name, b);
    lemma_side_updated(side_updated(table, f, true, tournament_name), f, false, tournament_name, b + 255);
}

/// Setting a rank changes no team's record.
pub proof fn lemma_placed(table: Seq<TeamPlacementView>, team: TeamName, placement: u8)
    ensures
        placed(table, team, placement).len() == table.len(),
        forall|i: int|
            0 <= i < table.len() ==> (#[trigger] placed(table, team, placement)[i]).team
                == table[i].team,
        forall|b: int| table_bounded(table, b) ==> table_bounded(placed(table, team, placement), b),
        names_distinct(table) ==> names_distinct(placed(table, team, placement)),
{
    let after = placed(table, team, placement);
    assert forall|b: int| table_bounded(table, b) implies table_bounded(after, b) by {
        assert forall|i: int| 0 <= i < after.len() implies (#[trigger] after[i]).team.bounded_by(
            b,
        ) by {
            assert(table[i].team.bounded_by(b));
        }
    }
    if names_distinct(table) {
        assert forall|x: int, y: int| 0 <= x < y < after.len() implies (#[trigger] after[x]).team.name
            != (#[trigger] after[y]).team.name by {
            assert(after[x].team.name == table[x].team.name);
            assert(after[y].team.name == table[y].team.name);
        }
    }
}

/// A table bounded by a number is bounded by every larger one.
pub proof fn lemma_table_bounded_mono(table: Seq<TeamPlacementView>, b: int, c: int)
    requires
        table_bounded(table, b),
        b <= c,
    ensures
        table_bounded(table, c),
{
    assert forall|i: int| 0 <= i < table.len() implies (#[trigger] table[i]).team.bounded_by(c) by {
        let t = table[i].team;
        assert(t.bounded_by(b));
        match t.matchups {
            Some(list) => {
                assert forall|k: int| 0 <= k < list.len() implies (#[trigger] list[k]).bounded_by(
                    c,
                ) by {
                    assert(list[k].bounded_by(b));
                }
                assert(crate::statter::team::matchups_bounded(list, c));
            },
            None => {},
        }
    }
}

/// A table that holds `team` at place `k` has a first entry of it.
pub proof fn lemma_entry_exists(table: Seq<TeamPlacementView>, team: TeamName, k: int)
    requires
        0 <= k < table.len(),
        table[k].team.name == team,
    ensures
        has_entry(table, team),
        0 <= entry_of(table, team) <= k,
        is_entry_of(table, team, entry_of(table, team)),
    decreases k,
{
    if forall|j: int| 0 <= j < k ==> table[j].team.name != team {
        assert(is_entry_of(table, team, k));
    } else {
        let j = choose|j: int| 0 <= j < k && table[j].team.name == team;
        lemma_entry_exists(table, team, j);
    }
}

/// The first entry of a team is where no earlier entry is of that team.
pub proof fn lemma_first_entry(table: Seq<TeamPlacementView>, team: TeamName, i: int)
    requires
        is_entry_of(table, team, i),
    ensures
        has_entry(table, team),
        entry_of(table, team) == i,
{
    let e = entry_of(table, team);
    assert(is_entry_of(table, team, e));
    if e < i {
        assert(table[e].team.name == team);
    }
    if i < e {
        assert(table[i].team.name == team);
    }
}

/// A table that keeps the names at their places keeps the first entry of
/// each team.
pub proof fn lemma_entry_kept(a: Seq<TeamPlacementView>, b: Seq<TeamPlacementView>, team: TeamName)
    requires
        has_entry(a, team),
        b.len() >= a.len(),
        forall|k: int| 0 <= k < a.len() ==> (#[trigger] b[k]).team.name == a[k].team.name,
    ensures
        has_entry(b, team),
        entry_of(b, team) == entry_of(a, team),
{
    let e = entry_of(a, team);
    assert(is_entry_of(a, team, e));
    assert(is_entry_of(b, team, e)) by {
        assert(b[e].team.name == a[e].team.name);
        assert forall|j: int| 0 <= j < e implies b[j].team.name != team by {
            assert(b[j].team.name == a[j].team.name);
        }
    }
    lemma_first_entry(b, team, e);
}

/// Entering a fixture for one team keeps the entries that were there, with
/// their ranks, and adds at most the first entry of that team.
pub proof fn lemma_side_updated_shape(
    table: Seq<TeamPlacementView>,
    f: Fixture,
    first: bool,
    tournament_name: Seq<char>,
)
    ensures
        has_entry(side_updated(table, f, first, tournament_name), f.team_of(first)),
        side_updated(table, f, first, tournament_name).len() >= table.len(),
        forall|k: int|
            0 <= k < table.len() ==> (#[trigger] side_updated(
                table,
                f,
                first,
                tournament_name,
            )[k]).team.name == table[k].team.name && side_updated(
                table,
                f,
                first,
                tournament_name,
            )[k].placement == table[k].placement,
        forall|k: int|
            table.len() <= k < side_updated(table, f, first, tournament_name).len() ==> (
            #[trigger] side_updated(table, f, first, tournament_name)[k]).team.name == f.team_of(
                first,
            ) && side_updated(table, f, first, tournament_name)[k].placement is None && k
                == entry_of(side_updated(table, f, first, tournament_name), f.team_of(first)),
{
    let team = f.team_of(first);
    let after = side_updated(table, f, first, tournament_name);
    if has_entry(table, team) {
        let i = entry_of(table, team);
        assert(is_entry_of(table, team, i));
        assert(after.len() == table.len());
        assert forall|k: int| 0 <= k < table.len() implies (#[trigger] after[k]).team.name
            == table[k].team.name && after[k].placement == table[k].placement by {}
        lemma_entry_kept(table, after, team);
    } else {
        let n = table.len() as int;
        assert(after.len() == n + 1);
        assert forall|k: int| 0 <= k < n implies (#[trigger] after[k]).team.name
            == table[k].team.name && after[k].placement == table[k].placement by {
            assert(after[k] == table[k]);
        }
        assert(is_entry_of(after, team, n)) by {
            assert(after[n].team.name == team);
            assert forall|j: int| 0 <= j < n implies after[j].team.name != team by {
                assert(after[j] == table[j]);
                if table[j].team.name == team {
                    lemma_entry_exists(table, team, j);
                }
            }
        }
        lemma_first_entry(after, team, n);
    }
}

/// Entering a fixture keeps the entries that were there, with their ranks,
/// and adds at most the first entries of its two teams.
pub proof fn lemma_updated_shape(table: Seq<TeamPlacementView>, f: Fixture, tournament_name: Seq<char>)
    ensures
        has_entry(updated(table, f, tournament_name), f.team1),
        has_entry(updated(table, f, tournament_name), f.team2),
        updated(table, f, tournament_name).len() >= table.len(),
        forall|k: int|
            0 <= k < table.len() ==> (#[trigger] updated(table, f, tournament_name)[k]).team.name
                == table[k].team.name && updated(table, f, tournament_name)[k].placement
                == table[k].placement,
        forall|k: int|
            table.len() <= k < updated(table, f, tournament_name).len() ==> f.involves(
                (#[trigger] updated(table, f, tournament_name)[k]).team.name,
            ) && updated(table, f, tournament_name)[k].placement is None && (k == entry_of(
                updated(table, f, tournament_name),
                f.team1,
            ) || k == entry_of(updated(table, f, tournament_name), f.team2)),
{
    let half = side_updated(table, f, true, tournament_name);
    let after = updated(table, f, tournament_name);
    lemma_side_updated_shape(table, f, true, tournament_name);
    lemma_side_updated_shape(half, f, false, tournament_name);
    lemma_entry_kept(half, after, f.team1);
    assert forall|k: int| 0 <= k < table.len() implies (#[trigger] after[k]).team.name
        == table[k].team.name && after[k].placement == table[k].placement by {
        assert(half[k].team.name == table[k].team.name);
    }
}

/// Setting the rank of a team with an entry changes the rank of its first
/// entry and nothing else.
pub proof fn lemma_placed_shape(table: Seq<TeamPlacementView>, team: TeamName, placement: u8)
    requires
        has_entry(table, team),
    ensures
        placed(table, team, placement).len() == table.len(),
        forall|k: int|
            0 <= k < table.len() ==> (#[trigger] placed(table, team, placement)[k]).team
                == table[k].team,
        placed(table, team, placement)[entry_of(table, team)].placement == Some(placement),
        forall|k: int|
            0 <= k < table.len() && k != entry_of(table, team) ==> (#[trigger] placed(
                table,
                team,
                placement,
            )[k]).placement == table[k].placement,
        forall|other: TeamName|
            has_entry(table, other) ==> has_entry(placed(table, team, placement), other)
                && entry_of(placed(table, team, placement), other) == entry_of(table, other),
{
    let after = placed(table, team, placement);
    let e = entry_of(table, team);
    assert(is_entry_of(table, team, e));
    assert forall|other: TeamName| has_entry(table, other) implies has_entry(after, other)
        && entry_of(after, other) == entry_of(table, other) by {
        lemma_entry_kept(table, after, other);
    }
}

impl TournamentPlacements {
    pub fn new() -> (t: Self)
        ensures
            t@ == Seq::<TeamPlacementView>::empty(),
    {
        let t = TournamentPlacements { placements: Vec::new() };
        assert(t@ =~= Seq::<TeamPlacementView>::empty());
        t
    }

    /// The place of the entry of `team`.
    pub fn position(&self, team: TeamName) -> (r: Option<usize>)
        ensures
            match r {
                Some(i) => is_entry_of(self@, team, i as int) && entry_of(self@, team) == i,
                None => !has_entry(self@, team),
            },
            r is Some <==> has_entry(self@, team),
    {
        let mut i: usize = 0;
        while i < self.placements.len()
            invariant
                i <= self.placements.len(),
                forall|j: int| 0 <= j < i ==> self@[j].team.name != team,
            decreases self.placements.len() - i,
        {
            if self.placements[i].team.name == team {
                assert(self@[i as int].team.name == team);
                assert(is_entry_of(self@, team, i as int));
                return Some(i);
            }
            i += 1;
        }
        None
    }

    fn update_team(&mut self, fixture: &Fixture, is_team1: bool, tournament_name: &str)
        requires
            fixture.penalty_fault() is None,
            table_bounded(old(self)@, COUNTER_LIMIT as int + 255),
        ensures
            final(self)@ == side_updated(old(self)@, *fixture, is_team1, tournament_name@),
    {
        let team = if is_team1 {
            fixture.team1
        } else {
            fixture.team2
        };
        match self.position(team) {
            Some(i) => {
                proof {
                    assert(self@[i as int].team.bounded_by(COUNTER_LIMIT as int + 255));
                    lemma_played_bounded(
                        self@[i as int].team,
                        *fixture,
                        is_team1,
                        tournament_name@,
                        COUNTER_LIMIT as int + 255,
                    );
                }
                let entry = &mut self.placements[i];
                entry.team.record_fixture(fixture, is_team1, tournament_name);
                assert(self@ =~= side_updated(
                    old(self)@,
                    *fixture,
                    is_team1,
                    tournament_name@,
                ));
            },
            None => {
                let mut fresh = Team::from(team);
                proof {
                    lemma_played_bounded(
                        fresh@,
                        *fixture,
                        is_team1,
                        tournament_name@,
                        COUNTER_LIMIT as int + 255,
                    );
                }
                fresh.record_fixture(fixture, is_team1, tournament_name);
                self.placements.push(TeamPlacement::from(None, fresh));
                assert(self@ =~= side_updated(
                    old(self)@,
                    *fixture,
                    is_team1,
                    tournament_name@,
                ));
            },
        }
    }

    /// Enters a fixture for both of its teams. A fixture whose result cannot
    /// be read, or a draw outside the group stage, leaves the table as it is.
    pub fn update_teams(&mut self, fixture: &Fixture, is_groups: bool, tournament_name: &str) -> (r:
        Result<(), UpdateError>)
        requires
            table_bounded(old(self)@, COUNTER_LIMIT as int),
        ensures
            match update_fault(*fixture, is_groups) {
                Some(e) => r == Err::<(), UpdateError>(e) && final(self)@ == old(self)@,
                None => r == Ok::<(), UpdateError>(()) && final(self)@ == updated(
                    old(self)@,
                    *fixture,
                    tournament_name@,
                ),
            },
    {
        match fixture.winner() {
            Err(e) => {
                return Err(UpdateError::Fixture(e));
            },
            Ok(None) => {
                if !is_groups {
                    return Err(UpdateError::IllegalDraw(fixture.team1, fixture.team2));
                }
            },
            Ok(Some(_)) => {},
        }
        proof {
            lemma_side_updated(self@, *fixture, true, tournament_name@, COUNTER_LIMIT as int);
        }
        self.update_team(fixture, true, tournament_name);
        self.update_team(fixture, false, tournament_name);
        Ok(())
    }

    /// Sets the decider value of `team`, if it has an entry; tells whether it
    /// has one.
    pub fn set_decider(&mut self, team: TeamName, points: u8) -> (found: bool)
        ensures
            found == has_entry(old(self)@, team),
            final(self)@ == with_decider(old(self)@, team, points),
            final(self)@.len() == old(self)@.len(),
            names_distinct(old(self)@) ==> names_distinct(final(self)@),
            forall|b: int| table_bounded(old(self)@, b) ==> table_bounded(final(self)@, b),
    {
        match self.position(team) {
            Some(i) => {
                let entry = &mut self.placements[i];
                entry.team.head_to_head = Some(points);
                assert(self@ =~= with_decider(old(self)@, team, points));
                proof {
                    let after = self@;
                    assert forall|b: int| table_bounded(old(self)@, b) implies table_bounded(
                        after,
                        b,
                    ) by {
                        assert forall|k: int| 0 <= k < after.len() implies (
                        #[trigger] after[k]).team.bounded_by(b) by {
                            assert(old(self)@[k].team.bounded_by(b));
                        }
                    }
                    if names_distinct(old(self)@) {
                        assert forall|x: int, y: int| 0 <= x < y < after.len() implies (
                        #[trigger] after[x]).team.name != (#[trigger] after[y]).team.name by {
                            assert(after[x].team.name == old(self)@[x].team.name);
                            assert(after[y].team.name == old(self)@[y].team.name);
                        }
                    }
                }
                true
            },
            None => false,
        }
    }

    /// Sets the rank of `team`, if it has an entry.
    pub fn set_placement(&mut self, team: TeamName, placement: u8)
        ensures
            final(self)@ == placed(old(self)@, team, placement),
    {
        match self.position(team) {
            Some(i) => {
                let entry = &mut self.placements[i];
                entry.placement = Some(placement);
                assert(self@ =~= placed(old(self)@, team, placement));
            },
            None => {},
        }
    }
}

} // verus!
