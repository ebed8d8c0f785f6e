use vstd::prelude::*;
use crate::lineupper::player::{line_read, roster_line, Player, PlayerError};
use crate::lineupper::player::{lower_chars, PlayerErrorView, PlayerState, PlayerStateView};
use crate::lineupper::player::PlayerView;
use crate::ordering::{arranged, indices, is_permutation, order_by_key, order_of};
use crate::ordering::{lemma_order_agrees, lemma_order_is_permutation, permuted};
use crate::ordering::{slot, smaller_key};
use crate::text::{chars_of, comes_before, ends_with, is_less, lowered, matches_at, push_chars};
use crate::text::{push_str, remove_all, same_chars, starts_with, string_of, trim, trimmed};
use crate::text::without;

verus! {

/// A path in the file system, as the standard library has it. What it holds
/// stays out of sight here.
#[verifier::external_type_specification]
#[verifier::external_body]
pub struct ExPathBuf(std::path::PathBuf);

/// The players of a team: those in the line-up and those in reserve.
#[derive(Debug)]
pub struct Roster {
    pub active: Vec<Player>,
    pub reserve: Vec<Player>,
}

pub struct RosterView {
    pub active: Seq<PlayerView>,
    pub reserve: Seq<PlayerView>,
}

/// The views of a list of players.
pub open spec fn player_views(list: Seq<Player>) -> Seq<PlayerView> {
    Seq::new(list.len(), |i: int| list[i]@)
}

/// The views of a list of lines.
pub open spec fn line_views(list: Seq<String>) -> Seq<Seq<char>> {
    Seq::new(list.len(), |i: int| list[i]@)
}

impl View for Roster {
    type V = RosterView;

    open spec fn view(&self) -> RosterView {
        RosterView { active: player_views(self.active@), reserve: player_views(self.reserve@) }
    }
}

/// Why a file is no roster file.
#[derive(Debug, Clone, Copy, PartialEq, Eq)]
pub enum RosterFileError {
    /// The file does not end in `.msrf`.
    NotARosterFile,
    /// The first line of the file does not name the team between `---` and
    /// `---`.
    MissingHeader,
    /// The ending of the file's name cannot be read.
    InvalidExtension,
}

/// A roster file: where it is, and the team it is about.
#[derive(Debug)]
pub struct RosterFile {
    pub path: std::path::PathBuf,
    pub team: String,
}

/// The roster with one more line of the roster file read: a player goes
/// into the line-up or into reserve, a line that is no player is passed
/// over, and any other fault of the line is the fault of the file.
pub open spec fn roster_read(lines: Seq<Seq<char>>) -> Result<RosterView, PlayerErrorView>
    decreases lines.len(),
{
    if lines.len() == 0 {
        Ok(RosterView { active: Seq::empty(), reserve: Seq::empty() })
    } else {
        match roster_read(lines.drop_last()) {
            Err(e) => Err(e),
            Ok(roster) => match line_read(lines.last()) {
                Ok(PlayerStateView::Active(p)) => Ok(
                    RosterView { active: roster.active.push(p), reserve: roster.reserve },
                ),
                Ok(PlayerStateView::Reserve(p)) => Ok(
                    RosterView { active: roster.active, reserve: roster.reserve.push(p) },
                ),
                Err(PlayerErrorView::NotAPlayer) => Ok(roster),
                Err(e) => Err(e),
            },
        }
    }
}

/// A fault in the first `n` lines is the fault of all lines.
pub proof fn lemma_roster_read_prefix_err(lines: Seq<Seq<char>>, n: int)
    requires
        0 <= n <= lines.len(),
        roster_read(lines.take(n)) is Err,
    ensures
        roster_read(lines) == roster_read(lines.take(n)),
    decreases lines.len(),
{
    if n == lines.len() {
        assert(lines.take(n) =~= lines);
    } else {
        assert(lines.drop_last().take(n) =~= lines.take(n));
        lemma_roster_read_prefix_err(lines.drop_last(), n);
    }
}

/// Whether the player at `i` comes before the player at `j`: by position,
/// then by name.
pub open spec fn player_before(list: Seq<PlayerView>) -> spec_fn(int, int) -> bool {
    |i: int, j: int|
        list[i].position.ordinal() < list[j].position.ordinal() || (list[i].position.ordinal()
            == list[j].position.ordinal() && comes_before(list[i].name, list[j].name))
}

/// The players by position and, within a position, by name; players of the
/// same position and name keep their order.
pub open spec fn sorted_players(list: Seq<PlayerView>) -> Seq<PlayerView> {
    arranged(list, order_of(list.len(), player_before(list)))
}

/// The player as a roster file lists it: without a portrait name.
pub open spec fn listed(p: PlayerView) -> PlayerView {
    PlayerView {
        captain: if p.captain == Some(true) {
            Some(true)
        } else {
            None
        },
        id: p.id,
        medal: p.medal,
        name: p.name,
        portrait_name: None,
        position: p.position,
    }
}

/// A line of a roster file with the number of its player.
pub struct NumberedLine {
    pub line: Seq<char>,
    pub id: u8,
}

/// The lines of the players, those of the line-up first.
pub open spec fn roster_lines(roster: RosterView) -> Seq<NumberedLine> {
    Seq::new(
        roster.active.len(),
        |i: int|
            NumberedLine {
                line: roster_line(listed(roster.active[i]), true),
                id: roster.active[i].id,
            },
    ) + Seq::new(
        roster.reserve.len(),
        |i: int|
            NumberedLine {
                line: roster_line(listed(roster.reserve[i]), false),
                id: roster.reserve[i].id,
            },
    )
}

/// Whether the line at `i` has a lower number than the line at `j`.
pub open spec fn lower_id(lines: Seq<NumberedLine>) -> spec_fn(int, int) -> bool {
    |i: int, j: int| lines[i].id < lines[j].id
}

/// The lines one after the other, with a line break between them.
pub open spec fn joined(lines: Seq<NumberedLine>) -> Seq<char>
    decreases lines.len(),
{
    if lines.len() == 0 {
        Seq::empty()
    } else if lines.len() == 1 {
        lines[0].line
    } else {
        joined(lines.drop_last()) + seq!['\n'] + lines.last().line
    }
}

/// The roster file of a team: the head with the team's name, and the lines
/// of the players by their numbers.
pub open spec fn roster_text(team: Seq<char>, roster: RosterView) -> Seq<char> {
    let lines = roster_lines(roster);
    "---"@ + team + "---\n\nCURRENT LINE-UP:\n\n"@ + joined(
        arranged(lines, order_of(lines.len(), lower_id(lines))),
    )
}

/// The team that the first line of a roster file names: the line, without
/// white space at its ends, starts and ends with `---`, and without its
/// hyphens and the white space around the rest, something is left.
pub open spec fn header_team(header: Seq<char>) -> Option<Seq<char>> {
    let head = trimmed(header);
    let team = trimmed(without(head, "-"@));
    if starts_with(head, "---"@) && ends_with(head, "---"@) && team.len() > 0 {
        Some(team)
    } else {
        None
    }
}

/// Whether the ending of a file's name is that of a roster file.
pub fn is_roster_extension(extension: &str) -> (r: bool)
    ensures
        r == (lowered(extension@) == "msrf"@),
{
    let low = lower_chars(&chars_of(extension));
    same_chars(&low, &chars_of("msrf"))
}

impl RosterFile {
    /// The roster file at `path` whose first line is `header`.
    pub fn from_header(path: std::path::PathBuf, header: &str) -> (r: Result<
        RosterFile,
        RosterFileError,
    >)
        ensures
            match header_team(header@) {
                Some(team) => r is Ok && r->Ok_0.team@ == team && r->Ok_0.path == path,
                None => r is Err && r->Err_0 == RosterFileError::MissingHeader,
            },
    {
        proof {
            reveal_strlit("-");
            reveal_strlit("---");
        }
        let head = trim(&chars_of(header));
        let team = trim(&remove_all(&head, &chars_of("-")));
        let dashes = chars_of("---");
        if head.len() < 3 {
            return Err(RosterFileError::MissingHeader);
        }
        if !matches_at(&head, &dashes, 0) || !matches_at(&head, &dashes, head.len() - 3)
            || team.len() == 0 {
            return Err(RosterFileError::MissingHeader);
        }
        Ok(RosterFile { path, team: string_of(&team) })
    }
}

/// The places of the players by position, then by name.
fn order_players(list: &Vec<Player>) -> (order: Vec<usize>)
    ensures
        indices(order@) == order_of(list@.len(), player_before(player_views(list@))),
        is_permutation(indices(order@), list@.len()),
{
    let ghost views = player_views(list@);
    let ghost before = player_before(views);
    let mut names: Vec<Vec<char>> = Vec::new();
    let mut n: usize = 0;
    while n < list.len()
        invariant
            n <= list.len(),
            names@.len() == n,
            views == player_views(list@),
            forall|k: int| 0 <= k < n ==> (#[trigger] names@[k])@ == views[k].name,
        decreases list.len() - n,
    {
        names.push(chars_of(list[n].name.as_str()));
        n += 1;
    }
    let mut order: Vec<usize> = Vec::new();
    let mut i: usize = 0;
    while i < list.len()
        invariant
            i <= list.len(),
            names@.len() == list@.len(),
            views == player_views(list@),
            forall|k: int| 0 <= k < names@.len() ==> (#[trigger] names@[k])@ == views[k].name,
            before == player_before(views),
            is_permutation(indices(order@), i as nat),
            indices(order@) == order_of(i as nat, before),
        decreases list.len() - i,
    {
        let mut p: usize = order.len();
        let ghost r = indices(order@);
        assert(r.take(p as int) =~= r);
        let mut moving = true;
        while p > 0 && moving
            invariant
                p <= order.len(),
                i < list.len(),
                names@.len() == list@.len(),
                views == player_views(list@),
                forall|k: int| 0 <= k < names@.len() ==> (#[trigger] names@[k])@ == views[k].name,
                r == indices(order@),
                before == player_before(views),
                is_permutation(r, i as nat),
                moving ==> slot(r, i as int, before) == slot(r.take(p as int), i as int, before),
                !moving ==> slot(r, i as int, before) == p,
            decreases p + if moving {
                1int
            } else {
                0int
            },
        {
            assert(r[p - 1] == order@[p - 1]);
            assert(r.take(p as int).last() == r[p - 1]);
            let other = order[p - 1];
            let mine = list[i].position.rank();
            let theirs = list[other].position.rank();
            assert(views[i as int].position == list@[i as int].position);
            assert(views[other as int].position == list@[other as int].position);
            let first = mine < theirs || (mine == theirs && is_less(&names[i], &names[other]));
            assert(first == before(i as int, r[p - 1]));
            if first {
                assert(r.take(p as int).drop_last() =~= r.take(p - 1));
                p = p - 1;
            } else {
                moving = false;
            }
        }
        order.insert(p, i);
        proof {
            assert(indices(order@) =~= r.insert(p as int, i as int));
            lemma_order_is_permutation((i + 1) as nat, before);
        }
        i += 1;
    }
    order
}

/// The players by position, then by name.
pub fn sort_players(list: Vec<Player>) -> (r: Vec<Player>)
    ensures
        player_views(r@) == sorted_players(player_views(list@)),
{
    let order = order_players(&list);
    let r = permuted(list, &order);
    assert(player_views(r@) =~= arranged(player_views(list@), indices(order@)));
    r
}

/// Puts the lines of the players at the end of `lines`.
fn push_lines(lines: &mut Vec<Vec<char>>, ids: &mut Vec<u128>, players: &Vec<Player>, active: bool, Ghost(
    done,
): Ghost<Seq<NumberedLine>>)
    requires
        old(lines)@.len() == done.len(),
        old(ids)@.len() == done.len(),
        forall|k: int| 0 <= k < done.len() ==> (#[trigger] old(lines)@[k])@ == done[k].line,
        forall|k: int| 0 <= k < done.len() ==> #[trigger] old(ids)@[k] == done[k].id,
    ensures
        final(lines)@.len() == done.len() + players@.len(),
        final(ids)@.len() == done.len() + players@.len(),
        forall|k: int|
            0 <= k < final(lines)@.len() ==> (#[trigger] final(lines)@[k])@ == (done + Seq::new(
                players@.len(),
                |i: int|
                    NumberedLine {
                        line: roster_line(listed(players@[i]@), active),
                        id: players@[i].id,
                    },
            ))[k].line,
        forall|k: int|
            0 <= k < final(ids)@.len() ==> #[trigger] final(ids)@[k] == (done + Seq::new(
                players@.len(),
                |i: int|
                    NumberedLine {
                        line: roster_line(listed(players@[i]@), active),
                        id: players@[i].id,
                    },
            ))[k].id,
{
    let ghost goal = done + Seq::new(
        players@.len(),
        |i: int|
            NumberedLine { line: roster_line(listed(players@[i]@), active), id: players@[i].id },
    );
    let mut i: usize = 0;
    while i < players.len()
        invariant
            i <= players@.len(),
            lines@.len() == done.len() + i,
            ids@.len() == done.len() + i,
            goal == done + Seq::new(
                players@.len(),
                |i: int|
                    NumberedLine {
                        line: roster_line(listed(players@[i]@), active),
                        id: players@[i].id,
                    },
            ),
            forall|k: int| 0 <= k < lines@.len() ==> (#[trigger] lines@[k])@ == goal[k].line,
            forall|k: int| 0 <= k < ids@.len() ==> #[trigger] ids@[k] == goal[k].id,
        decreases players.len() - i,
    {
        let p = &players[i];
        let captain = match p.captain {
            Some(true) => true,
            _ => false,
        };
        let state = PlayerState::from(captain, p.id, p.medal, p.name.clone(), p.position, active);
        let line = state.to_msrf_string();
        assert(line@ == roster_line(listed(p@), active));
        lines.push(chars_of(line.as_str()));
        ids.push(p.id as u128);
        i += 1;
    }
}

impl Roster {
    pub fn from_players(active: Vec<Player>, reserve: Vec<Player>) -> (r: Self)
        ensures
            r.active == active,
            r.reserve == reserve,
    {
        Roster { active, reserve }
    }

    /// The roster that the lines of a roster file give.
    pub fn from_lines(lines: &Vec<String>) -> (r: Result<Roster, PlayerError>)
        ensures
            match roster_read(line_views(lines@)) {
                Ok(roster) => r is Ok && r->Ok_0@ == roster,
                Err(e) => r is Err && r->Err_0@ == e,
            },
    {
        let ghost all = line_views(lines@);
        let mut active: Vec<Player> = Vec::new();
        let mut reserve: Vec<Player> = Vec::new();
        let mut i: usize = 0;
        assert(player_views(active@) =~= Seq::<PlayerView>::empty());
        assert(player_views(reserve@) =~= Seq::<PlayerView>::empty());
        while i < lines.len()
            invariant
                i <= lines.len(),
                all == line_views(lines@),
                roster_read(all.take(i as int)) == Ok::<RosterView, PlayerErrorView>(
                    RosterView {
                        active: player_views(active@),
                        reserve: player_views(reserve@),
                    },
                ),
            decreases lines.len() - i,
        {
            proof {
                assert(all.take(i + 1).drop_last() =~= all.take(i as int));
                assert(all.take(i + 1).last() == lines@[i as int]@);
            }
            let ghost so_far = RosterView {
                active: player_views(active@),
                reserve: player_views(reserve@),
            };
            let read = PlayerState::from_string(lines[i].clone());
            assert(read is Ok ==> line_read(all[i as int]) == Ok::<
                PlayerStateView,
                PlayerErrorView,
            >(read->Ok_0@));
            assert(read is Err ==> line_read(all[i as int]) == Err::<
                PlayerStateView,
                PlayerErrorView,
            >(read->Err_0@));
            match read {
                Ok(PlayerState::Active(p)) => {
                    active.push(p);
                    assert(player_views(active@) =~= so_far.active.push(p@));
                },
                Ok(PlayerState::Reserve(p)) => {
                    reserve.push(p);
                    assert(player_views(reserve@) =~= so_far.reserve.push(p@));
                },
                Err(PlayerError::NotAPlayer) => {},
                Err(e) => {
                    proof {
                        lemma_roster_read_prefix_err(all, i + 1);
                    }
                    return Err(e);
                },
            }
            i += 1;
        }
        assert(all.take(i as int) =~= all);
        Ok(Roster { active, reserve })
    }

    /// The number of players.
    pub fn player_count(&self) -> (n: usize)
        requires
            self.active@.len() + self.reserve@.len() <= usize::MAX,
        ensures
            n == self.active@.len() + self.reserve@.len(),
    {
        self.active.len() + self.reserve.len()
    }

    /// The players, those of the line-up first.
    pub fn players(&self) -> (r: Vec<&Player>)
        ensures
            r@.len() == self.active@.len() + self.reserve@.len(),
            forall|i: int| 0 <= i < self.active@.len() ==> *#[trigger] r@[i] == self.active@[i],
            forall|i: int|
                0 <= i < self.reserve@.len() ==> *#[trigger] r@[self.active@.len() + i]
                    == self.reserve@[i],
    {
        let mut r: Vec<&Player> = Vec::new();
        let mut i: usize = 0;
        while i < self.active.len()
            invariant
                i <= self.active@.len(),
                r@.len() == i,
                forall|k: int| 0 <= k < i ==> *#[trigger] r@[k] == self.active@[k],
            decreases self.active.len() - i,
        {
            r.push(&self.active[i]);
            i += 1;
        }
        let mut j: usize = 0;
        while j < self.reserve.len()
            invariant
                j <= self.reserve@.len(),
                r@.len() == self.active@.len() + j,
                forall|k: int| 0 <= k < self.active@.len() ==> *#[trigger] r@[k] == self.active@[k],
                forall|k: int|
                    0 <= k < j ==> *#[trigger] r@[self.active@.len() + k] == self.reserve@[k],
            decreases self.reserve.len() - j,
        {
            r.push(&self.reserve[j]);
            j += 1;
        }
        r
    }

    /// Puts the line-up and the reserve in order: by position, then by name.
    pub fn sort(&mut self)
        ensures
            final(self)@ == (RosterView {
                active: sorted_players(old(self)@.active),
                reserve: sorted_players(old(self)@.reserve),
            }),
    {
        let mut active: Vec<Player> = Vec::new();
        core::mem::swap(&mut active, &mut self.active);
        self.active = sort_players(active);
        let mut reserve: Vec<Player> = Vec::new();
        core::mem::swap(&mut reserve, &mut self.reserve);
        self.reserve = sort_players(reserve);
    }

    /// The roster file of the team.
    pub fn to_msrf_string(team: &str, roster: &Roster) -> (r: String)
        ensures
            r@ == roster_text(team@, roster@),
    {
        let ghost all = roster_lines(roster@);
        let mut lines: Vec<Vec<char>> = Vec::new();
        let mut ids: Vec<u128> = Vec::new();
        push_lines(&mut lines, &mut ids, &roster.active, true, Ghost(Seq::empty()));
        let ghost first = Seq::new(
            roster.active@.len(),
            |i: int|
                NumberedLine {
                    line: roster_line(listed(roster.active@[i]@), true),
                    id: roster.active@[i].id,
                },
        );
        assert(Seq::<NumberedLine>::empty() + first =~= first);
        push_lines(&mut lines, &mut ids, &roster.reserve, false, Ghost(first));
        proof {
            assert(first =~= Seq::new(
                roster@.active.len(),
                |i: int|
                    NumberedLine {
                        line: roster_line(listed(roster@.active[i]), true),
                        id: roster@.active[i].id,
                    },
            ));
            let second = Seq::new(
                roster.reserve@.len(),
                |i: int|
                    NumberedLine {
                        line: roster_line(listed(roster.reserve@[i]@), false),
                        id: roster.reserve@[i].id,
                    },
            );
            assert(second =~= Seq::new(
                roster@.reserve.len(),
                |i: int|
                    NumberedLine {
                        line: roster_line(listed(roster@.reserve[i]), false),
                        id: roster@.reserve[i].id,
                    },
            ));
            assert(first + second == all);
        }
        let order = order_by_key(&ids);
        proof {
            lemma_order_agrees(all.len(), smaller_key(ids@), lower_id(all));
        }
        let ghost sorted = arranged(all, indices(order@));
        let mut text: Vec<char> = Vec::new();
        push_str(&mut text, "---");
        push_str(&mut text, team);
        push_str(&mut text, "---\n\nCURRENT LINE-UP:\n\n");
        let ghost head = text@;
        let mut k: usize = 0;
        while k < order.len()
            invariant
                k <= order@.len(),
                order@.len() == all.len(),
                lines@.len() == all.len(),
                is_permutation(indices(order@), all.len()),
                forall|j: int| 0 <= j < lines@.len() ==> (#[trigger] lines@[j])@ == all[j].line,
                sorted == arranged(all, indices(order@)),
                text@ == head + joined(sorted.take(k as int)),
            decreases order.len() - k,
        {
            proof {
                assert(indices(order@)[k as int] == order@[k as int]);
                assert(sorted.take(k + 1).drop_last() =~= sorted.take(k as int));
                assert(sorted.take(k + 1).last().line == lines@[order@[k as int] as int]@);
            }
            let ghost before = text@;
            if k > 0 {
                text.push('\n');
            }
            push_chars(&mut text, &lines[order[k]]);
            proof {
                if k == 0 {
                    assert(sorted.take(0).len() == 0);
                    assert(text@ =~= head + joined(sorted.take(1)));
                } else {
                    assert(text@ =~= head + (joined(sorted.take(k as int)) + seq!['\n']
                        + sorted.take(k + 1).last().line));
                }
            }
            k += 1;
        }
        assert(sorted.take(k as int) =~= sorted);
        string_of(&text)
    }
}

} // verus!
