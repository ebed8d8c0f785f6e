use vstd::prelude::*;
use crate::lineupper::player::{Player, PlayerState, PlayerView, Position};
use crate::lineupper::roster::{player_views, Roster, RosterView};
use crate::ordering::{arranged, indices, order_by_key, order_of};
use crate::ordering::{lemma_order_agrees, permuted, smaller_key};

verus! {

/// The medal of a player as the editor offers it.
#[derive(Debug, Clone, Copy, PartialEq, Eq, PartialOrd, Ord, Structural)]
pub enum Medal {
    NoMedal,
    Silver,
    Gold,
}

impl Default for Medal {
    fn default() -> (m: Medal)
        ensures
            m == Medal::NoMedal,
    {
        Medal::NoMedal
    }
}

impl Medal {
    /// The medal as a roster holds it.
    pub open spec fn in_roster(self) -> Option<crate::lineupper::player::Medal> {
        match self {
            Medal::Silver => Some(crate::lineupper::player::Medal::Silver),
            Medal::Gold => Some(crate::lineupper::player::Medal::Gold),
            Medal::NoMedal => None,
        }
    }

    /// The medal as the editor offers it.
    pub open spec fn in_editor(medal: Option<crate::lineupper::player::Medal>) -> Medal {
        match medal {
            Some(crate::lineupper::player::Medal::Silver) => Medal::Silver,
            Some(crate::lineupper::player::Medal::Gold) => Medal::Gold,
            None => Medal::NoMedal,
        }
    }

    pub fn to_lineupper(&self) -> (r: Option<crate::lineupper::player::Medal>)
        ensures
            r == self.in_roster(),
    {
        match self {
            Medal::Silver => Some(crate::lineupper::player::Medal::Silver),
            Medal::Gold => Some(crate::lineupper::player::Medal::Gold),
            Medal::NoMedal => None,
        }
    }

    pub fn from_lineupper(medal: Option<crate::lineupper::player::Medal>) -> (r: Medal)
        ensures
            r == Medal::in_editor(medal),
    {
        match medal {
            Some(crate::lineupper::player::Medal::Silver) => Medal::Silver,
            Some(crate::lineupper::player::Medal::Gold) => Medal::Gold,
            None => Medal::NoMedal,
        }
    }

    /// The medal as the editor names it.
    pub fn label(&self) -> (s: &'static str)
        ensures
            s@ == (match self {
                Medal::NoMedal => "No medal"@,
                Medal::Silver => "Silver"@,
                Medal::Gold => "Gold"@,
            }),
    {
        match self {
            Medal::NoMedal => "No medal",
            Medal::Silver => "Silver",
            Medal::Gold => "Gold",
        }
    }
}

/// The two ways between the medals of the roster and of the editor undo
/// each other.
pub proof fn lemma_medal_round_trip(medal: Medal, other: Option<crate::lineupper::player::Medal>)
    ensures
        Medal::in_editor(medal.in_roster()) == medal,
        Medal::in_editor(other).in_roster() == other,
{
}

/// A player as a row of the editor.
#[derive(Debug, PartialEq, Eq)]
pub struct RosterRow {
    pub id: u8,
    pub name: String,
    pub position: Position,
    pub medal: Medal,
    pub captain: bool,
    pub active: bool,
}

pub struct RosterRowView {
    pub id: u8,
    pub name: Seq<char>,
    pub position: Position,
    pub medal: Medal,
    pub captain: bool,
    pub active: bool,
}

impl View for RosterRow {
    type V = RosterRowView;

    open spec fn view(&self) -> RosterRowView {
        RosterRowView {
            id: self.id,
            name: self.name@,
            position: self.position,
            medal: self.medal,
            captain: self.captain,
            active: self.active,
        }
    }
}

/// The views of a list of rows.
pub open spec fn row_views(rows: Seq<RosterRow>) -> Seq<RosterRowView> {
    Seq::new(rows.len(), |i: int| rows[i]@)
}

/// The row of a player.
pub open spec fn row_of(p: PlayerView, active: bool) -> RosterRowView {
    RosterRowView {
        id: p.id,
        name: p.name,
        position: p.position,
        medal: Medal::in_editor(p.medal),
        captain: p.captain == Some(true),
        active,
    }
}

/// The player of a row.
pub open spec fn player_of(row: RosterRowView) -> PlayerView {
    PlayerView {
        captain: if row.captain {
            Some(true)
        } else {
            None
        },
        id: row.id,
        medal: row.medal.in_roster(),
        name: row.name,
        portrait_name: None,
        position: row.position,
    }
}

/// The rows of the players of a roster, those of the line-up first.
pub open spec fn rows_of(roster: RosterView) -> Seq<RosterRowView> {
    Seq::new(roster.active.len(), |i: int| row_of(roster.active[i], true)) + Seq::new(
        roster.reserve.len(),
        |i: int| row_of(roster.reserve[i], false),
    )
}

/// Whether the row at `i` has a lower number than the row at `j`.
pub open spec fn lower_row(rows: Seq<RosterRowView>) -> spec_fn(int, int) -> bool {
    |i: int, j: int| rows[i].id < rows[j].id
}

/// The rows by their numbers; rows of the same number keep their order.
pub open spec fn sorted_rows(rows: Seq<RosterRowView>) -> Seq<RosterRowView> {
    arranged(rows, order_of(rows.len(), lower_row(rows)))
}

/// The players of the rows that are in the line-up (`active`) or in reserve,
/// in the order of the rows.
pub open spec fn players_of(rows: Seq<RosterRowView>, active: bool) -> Seq<PlayerView>
    decreases rows.len(),
{
    if rows.len() == 0 {
        Seq::empty()
    } else if rows.last().active == active {
        players_of(rows.drop_last(), active).push(player_of(rows.last()))
    } else {
        players_of(rows.drop_last(), active)
    }
}

/// The number of rows of the editor.
pub const ROW_COUNT: usize = 23;

impl RosterRow {
    pub fn from_player(player: Player, active: bool) -> (r: RosterRow)
        ensures
            r@ == row_of(player@, active),
    {
        RosterRow {
            id: player.id,
            name: player.name,
            position: player.position,
            medal: Medal::from_lineupper(player.medal),
            captain: match player.captain {
                Some(b) => b,
                None => false,
            },
            active,
        }
    }

    /// The rows of the players of a roster, by their numbers. The editor has
    /// `ROW_COUNT` rows: for a roster of another number of players, that
    /// number comes back.
    pub fn from_roster(roster: Roster) -> (r: Result<Vec<RosterRow>, usize>)
        ensures
            match r {
                Ok(rows) => rows@.len() == ROW_COUNT && row_views(rows@) == sorted_rows(
                    rows_of(roster@),
                ),
                Err(count) => count == rows_of(roster@).len() && count != ROW_COUNT,
            },
    {
        let ghost all = rows_of(roster@);
        let Roster { active, reserve } = roster;
        let ghost line_up = active@;
        let ghost bench = reserve@;
        let ghost first = player_views(line_up);
        let ghost second = player_views(bench);
        let mut rows: Vec<RosterRow> = Vec::new();
        for p in it: active
            invariant
                rows@.len() == it.index(),
                it.seq() == line_up,
                first == player_views(line_up),
                forall|k: int| 0 <= k < rows@.len() ==> (#[trigger] rows@[k])@ == row_of(first[k], true),
        {
            rows.push(RosterRow::from_player(p, true));
        }
        let ghost half = rows@.len();
        for p in it: reserve
            invariant
                half == first.len(),
                rows@.len() == half + it.index(),
                it.seq() == bench,
                second == player_views(bench),
                forall|k: int| 0 <= k < half ==> (#[trigger] rows@[k])@ == row_of(first[k], true),
                forall|k: int|
                    0 <= k < it.index() ==> (#[trigger] rows@[half + k])@ == row_of(
                        second[k],
                        false,
                    ),
        {
            rows.push(RosterRow::from_player(p, false));
        }
        assert(row_views(rows@) =~= all) by {
            assert(all.len() == first.len() + second.len());
            assert forall|k: int| 0 <= k < all.len() implies row_views(rows@)[k] == all[k] by {
                if k >= half {
                    assert(rows@[half + (k - half)]@ == row_of(second[k - half], false));
                }
            }
        }
        let mut keys: Vec<u128> = Vec::new();
        let mut i: usize = 0;
        while i < rows.len()
            invariant
                i <= rows.len(),
                keys@.len() == i,
                forall|k: int| 0 <= k < i ==> keys@[k] == rows@[k].id,
            decreases rows.len() - i,
        {
            keys.push(rows[i].id as u128);
            i += 1;
        }
        let order = order_by_key(&keys);
        proof {
            lemma_order_agrees(all.len(), smaller_key(keys@), lower_row(all));
        }
        let sorted = permuted(rows, &order);
        assert(row_views(sorted@) =~= arranged(all, indices(order@)));
        if sorted.len() == ROW_COUNT {
            Ok(sorted)
        } else {
            Err(sorted.len())
        }
    }

    /// The roster of the players of the rows.
    pub fn to_roster(rows: &Vec<RosterRow>) -> (r: Roster)
        ensures
            r@ == (RosterView {
                active: players_of(row_views(rows@), true),
                reserve: players_of(row_views(rows@), false),
            }),
    {
        let ghost all = row_views(rows@);
        let mut active: Vec<Player> = Vec::new();
        let mut reserve: Vec<Player> = Vec::new();
        let mut i: usize = 0;
        assert(player_views(active@) =~= Seq::<PlayerView>::empty());
        assert(player_views(reserve@) =~= Seq::<PlayerView>::empty());
        while i < rows.len()
            invariant
                i <= rows.len(),
                all == row_views(rows@),
                player_views(active@) == players_of(all.take(i as int), true),
                player_views(reserve@) == players_of(all.take(i as int), false),
            decreases rows.len() - i,
        {
            let row = &rows[i];
            proof {
                assert(all.take(i + 1).drop_last() =~= all.take(i as int));
                assert(all.take(i + 1).last() == row@);
            }
            let ghost was_active = player_views(active@);
            let ghost was_reserve = player_views(reserve@);
            match PlayerState::from(
                row.captain,
                row.id,
                row.medal.to_lineupper(),
                row.name.clone(),
                row.position,
                row.active,
            ) {
                PlayerState::Active(p) => {
                    assert(p@ == player_of(row@));
                    active.push(p);
                    assert(player_views(active@) =~= was_active.push(p@));
                },
                PlayerState::Reserve(p) => {
                    assert(p@ == player_of(row@));
                    reserve.push(p);
                    assert(player_views(reserve@) =~= was_reserve.push(p@));
                },
            }
            i += 1;
        }
        assert(all.take(i as int) =~= all);
        Roster::from_players(active, reserve)
    }
}

/// What the roster editor works on: the rows of the players and the name of
/// the team.
#[derive(Debug)]
pub struct RosterEditor {
    pub rows: Vec<RosterRow>,
    pub team: String,
}

impl Default for RosterEditor {
    /// An editor with empty rows that carry the numbers from 1 on.
    fn default() -> (r: RosterEditor)
        ensures
            r.rows@.len() == ROW_COUNT,
            r.team@ == Seq::<char>::empty(),
            forall|i: int|
                0 <= i < ROW_COUNT ==> (#[trigger] r.rows@[i])@ == (RosterRowView {
                    id: (i + 1) as u8,
                    name: Seq::empty(),
                    position: Position::CB,
                    medal: Medal::NoMedal,
                    captain: false,
                    active: false,
                }),
    {
        let mut rows: Vec<RosterRow> = Vec::new();
        let mut x: u8 = 1;
        while x <= 23
            invariant
                1 <= x <= 24,
                rows@.len() == x - 1,
                forall|i: int|
                    0 <= i < rows@.len() ==> (#[trigger] rows@[i])@ == (RosterRowView {
                        id: (i + 1) as u8,
                        name: Seq::empty(),
                        position: Position::CB,
                        medal: Medal::NoMedal,
                        captain: false,
                        active: false,
                    }),
            decreases 24 - x,
        {
            rows.push(
                RosterRow {
                    id: x,
                    name: String::new(),
                    position: Position::CB,
                    medal: Medal::NoMedal,
                    captain: false,
                    active: false,
                },
            );
            x += 1;
        }
        RosterEditor { rows, team: String::new() }
    }
}

} // verus!
