use vstd::prelude::*;
use crate::statter::date::Datetime;
use crate::statter::groups::MAX_GROUP_FIXTURES;
use crate::statter::placements::{placement_views, table_bounded};
use crate::statter::team::{MergeError, Team, TeamName, TeamPlacement, TeamPlacementView, TeamView};
use crate::statter::team::{lemma_merged_bounded, lemma_team_bounded_mono, participation_views};
use crate::statter::tournament::{is_standings, Participation, ParticipationView, Tournament};
use crate::statter::tournament::{TournamentError, TournamentResult, TournamentResultView};
use crate::ordering::{arranged, in_order, indices, is_permutation, order_by_key, order_of};
use crate::ordering::{permuted, smaller_key, lemma_order_agrees};
use crate::statter::date::lemma_order_key;
use crate::statter::rankings::{chronological, result_views};
use crate::text::{chars_of, find, has_pattern, hyphenated, lowercase, same_chars};
use crate::text::{string_of, to_lowercase};

verus! {

/// Why a tournament cannot be taken into the records.
#[derive(Debug, Clone, Copy, PartialEq, Eq)]
pub enum RunError {
    /// The tournament cannot be resolved.
    Tournament(TournamentError),
    /// A team's record of the tournament cannot be merged into its record so
    /// far.
    Merge(MergeError),
    /// The tournament has more group fixtures than `MAX_GROUP_FIXTURES`, or
    /// with it the records would cover more fixtures than
    /// `MAX_LIFETIME_FIXTURES`.
    TooManyFixtures,
}

/// A tournament that could not be taken into the records: its name, and
/// why.
#[derive(Debug, PartialEq, Eq)]
pub struct Failure {
    pub tournament_name: String,
    pub error: RunError,
}

/// The most fixtures that the records of all tournaments may cover: with
/// more, a team's numbers could outgrow their fields.
pub const MAX_LIFETIME_FIXTURES: usize = 8_421_504;

/// The records of all teams over all tournaments taken in so far, in the
/// order in which the teams first appeared.
#[derive(Debug)]
pub struct TotalStats {
    pub teams: Vec<Team>,
    /// The number of fixtures of the tournaments taken in.
    pub fixtures: usize,
}

/// The views of a list of team records.
pub open spec fn team_views(list: Seq<Team>) -> Seq<TeamView> {
    Seq::new(list.len(), |i: int| list[i]@)
}

impl View for TotalStats {
    type V = Seq<TeamView>;

    open spec fn view(&self) -> Seq<TeamView> {
        team_views(self.teams@)
    }
}

/// Whether `i` is the place of the first record of `name` in `totals`.
pub open spec fn is_total_at(totals: Seq<TeamView>, name: TeamName, i: int) -> bool {
    &&& 0 <= i < totals.len()
    &&& totals[i].name == name
    &&& forall|j: int| 0 <= j < i ==> totals[j].name != name
}

/// Whether `totals` has a record of `name`.
pub open spec fn has_total(totals: Seq<TeamView>, name: TeamName) -> bool {
    exists|i: int| is_total_at(totals, name, i)
}

/// The place of the first record of `name` in a list that has one.
pub open spec fn total_at(totals: Seq<TeamView>, name: TeamName) -> int {
    choose|i: int| is_total_at(totals, name, i)
}

/// Whether no team has two records.
pub open spec fn totals_distinct(totals: Seq<TeamView>) -> bool {
    forall|i: int, j: int|
        0 <= i < j < totals.len() ==> (#[trigger] totals[i]).name != (#[trigger] totals[j]).name
}

/// Whether no number in any record exceeds `bound`.
pub open spec fn totals_bounded(totals: Seq<TeamView>, bound: int) -> bool {
    forall|i: int| 0 <= i < totals.len() ==> (#[trigger] totals[i]).bounded_by(bound)
}

/// The record with one more participation at the end of its list.
pub open spec fn with_participation(team: TeamView, p: ParticipationView) -> TeamView {
    TeamView {
        participations: Some(
            match team.participations {
                Some(list) => list.push(p),
                None => seq![p],
            },
        ),
        ..team
    }
}

/// The record of `name` so far: the one in `totals`, or that of a team that
/// has not played.
pub open spec fn so_far(totals: Seq<TeamView>, name: TeamName) -> TeamView {
    if has_total(totals, name) {
        totals[total_at(totals, name)]
    } else {
        TeamView::fresh(name)
    }
}

/// The records with a team's record of one tournament merged into its
/// record so far.
pub open spec fn merged_into(totals: Seq<TeamView>, team: TeamView) -> Seq<TeamView> {
    if has_total(totals, team.name) {
        let i = total_at(totals, team.name);
        totals.update(i, totals[i].merged(team))
    } else {
        totals.push(TeamView::fresh(team.name).merged(team))
    }
}

/// What a team's record of a tournament says of its taking part.
pub open spec fn participation_of(name: Seq<char>, date: Datetime, p: TeamPlacementView) -> ParticipationView {
    ParticipationView { tournament_name: name, date, placement: p.placement->0 }
}

/// A team's record of a tournament as it is merged into the records: with
/// its participation noted.
pub open spec fn noted(name: Seq<char>, date: Datetime, p: TeamPlacementView) -> TeamView {
    with_participation(p.team, participation_of(name, date, p))
}

/// The first team of the standings whose record cannot be merged, with the
/// reason.
pub open spec fn first_merge_fault(standings: Seq<TeamPlacementView>) -> Option<MergeError>
    decreases standings.len(),
{
    if standings.len() == 0 {
        None
    } else {
        match first_merge_fault(standings.drop_last()) {
            Some(e) => Some(e),
            None => TeamView::fresh(standings.last().team.name).merge_fault(
                standings.last().team,
            ),
        }
    }
}

/// The records with the teams' records of one tournament merged in, one
/// after the other, each with its participation noted.
pub open spec fn absorbed(
    totals: Seq<TeamView>,
    standings: Seq<TeamPlacementView>,
    name: Seq<char>,
    date: Datetime,
) -> Seq<TeamView>
    decreases standings.len(),
{
    if standings.len() == 0 {
        totals
    } else {
        merged_into(
            absorbed(totals, standings.drop_last(), name, date),
            noted(name, date, standings.last()),
        )
    }
}

/// The standings as they are left when the teams' records have been merged
/// into the records of all tournaments: the participations have moved over.
pub open spec fn handed_over(standings: Seq<TeamPlacementView>, name: Seq<char>, date: Datetime) -> Seq<
    TeamPlacementView,
> {
    Seq::new(
        standings.len(),
        |k: int|
            TeamPlacementView {
                team: noted(name, date, standings[k]).drained(),
                placement: standings[k].placement,
            },
    )
}

/// The names of the teams of the standings.
pub open spec fn names_of(standings: Seq<TeamPlacementView>) -> Seq<TeamName> {
    Seq::new(standings.len(), |k: int| standings[k].team.name)
}

/// Whether the records are sound while records under `b` are merged into
/// records that were under `a`: no team has two, all are under `a + b`, and
/// those of teams not among `seen` are still under `a`.
pub open spec fn totals_absorbing(totals: Seq<TeamView>, seen: Seq<TeamName>, a: int, b: int) -> bool {
    &&& totals_distinct(totals)
    &&& totals_bounded(totals, a + b)
    &&& forall|i: int|
        0 <= i < totals.len() && !seen.contains((#[trigger] totals[i]).name) ==> totals[i].bounded_by(
            a,
        )
}

/// A fault among the first `n` teams is the fault of the whole standings.
pub proof fn lemma_merge_fault_prefix(standings: Seq<TeamPlacementView>, n: int)
    requires
        0 <= n <= standings.len(),
        first_merge_fault(standings.take(n)) is Some,
    ensures
        first_merge_fault(standings) == first_merge_fault(standings.take(n)),
    decreases standings.len(),
{
    if n == standings.len() {
        assert(standings.take(n) =~= standings);
    } else {
        assert(standings.drop_last().take(n) =~= standings.take(n));
        lemma_merge_fault_prefix(standings.drop_last(), n);
    }
}

/// Standings without a fault have no team whose record cannot be merged.
pub proof fn lemma_no_merge_fault(standings: Seq<TeamPlacementView>, k: int)
    requires
        0 <= k < standings.len(),
        first_merge_fault(standings) is None,
    ensures
        TeamView::fresh(standings[k].team.name).merge_fault(standings[k].team) is None,
    decreases standings.len(),
{
    if k < standings.len() - 1 {
        lemma_no_merge_fault(standings.drop_last(), k);
    }
}

/// A list that holds a record of `name` at place `k` has a first one.
pub proof fn lemma_total_exists(totals: Seq<TeamView>, name: TeamName, k: int)
    requires
        0 <= k < totals.len(),
        totals[k].name == name,
    ensures
        has_total(totals, name),
    decreases k,
{
    if forall|j: int| 0 <= j < k ==> totals[j].name != name {
        assert(is_total_at(totals, name, k));
    } else {
        let j = choose|j: int| 0 <= j < k && totals[j].name == name;
        lemma_total_exists(totals, name, j);
    }
}

/// Whether a char stays in the name of a result file: one of the first 128,
/// and no colon.
pub open spec fn is_file_char(c: char) -> bool {
    (c as u32) < 128 && c != ':'
}

/// The chars that stay in the name of a result file, in their order.
pub open spec fn file_chars(s: Seq<char>) -> Seq<char>
    decreases s.len(),
{
    if s.len() == 0 {
        s
    } else if is_file_char(s.last()) {
        file_chars(s.drop_last()).push(s.last())
    } else {
        file_chars(s.drop_last())
    }
}

/// The name of the file that holds a tournament's result: the tournament's
/// name in lower case, with hyphens for spaces and without colons and chars
/// beyond the first 128, and the ending `-results.toml`.
pub open spec fn result_file_name(name: Seq<char>) -> Seq<char> {
    file_chars(hyphenated(lowercase(name))) + "-results.toml"@
}

/// Whether a file is a tournament file: its name holds `bigfunnycup`, and
/// the ending of the name is `toml`.
pub fn is_cup_file(file_name: &str, extension: &str) -> (r: bool)
    ensures
        r == (has_pattern(file_name@, "bigfunnycup"@) && extension@ == "toml"@),
{
    let name = chars_of(file_name);
    let found = find(&name, &chars_of("bigfunnycup"), 0);
    found.is_some() && same_chars(&chars_of(extension), &chars_of("toml"))
}

/// Whether the tournament is too large to be taken into records that cover
/// `fixtures` fixtures so far.
pub open spec fn too_many(fixtures: int, t: Tournament) -> bool {
    t.group_count() > MAX_GROUP_FIXTURES || fixtures + t.fixture_count() > MAX_LIFETIME_FIXTURES
}

/// A team's record as it is written out with a tournament: without what
/// belongs to the team's record over all tournaments.
pub open spec fn stripped(team: TeamView) -> TeamView {
    TeamView {
        greatest_win: None,
        greatest_loss: None,
        matchups: None,
        participations: None,
        head_to_head: None,
        ..team
    }
}

/// Whether the date at `i` is earlier than the date at `j`.
pub open spec fn earlier_in(dates: Seq<Datetime>) -> spec_fn(int, int) -> bool {
    |i: int, j: int| dates[i].earlier(dates[j])
}

/// The dates of a list of tournament results.
pub open spec fn result_dates(results: Seq<TournamentResultView>) -> Seq<Datetime> {
    Seq::new(results.len(), |i: int| results[i].date)
}

/// The dates of a list of participations.
pub open spec fn participation_dates(list: Seq<ParticipationView>) -> Seq<Datetime> {
    Seq::new(list.len(), |i: int| list[i].date)
}

/// The places of the dates from the earliest to the latest, equal dates in
/// the order they have.
pub fn order_by_date(dates: &Vec<Datetime>) -> (order: Vec<usize>)
    ensures
        indices(order@) == order_of(dates@.len(), earlier_in(dates@)),
        is_permutation(indices(order@), dates@.len()),
        in_order(indices(order@), earlier_in(dates@)),
{
    let mut keys: Vec<u128> = Vec::new();
    let mut i: usize = 0;
    while i < dates.len()
        invariant
            i <= dates.len(),
            keys@.len() == i,
            forall|k: int| 0 <= k < i ==> keys@[k] == dates@[k].order_key(),
        decreases dates.len() - i,
    {
        keys.push(dates[i].sort_key());
        i += 1;
    }
    let order = order_by_key(&keys);
    proof {
        let f = smaller_key(keys@);
        let g = earlier_in(dates@);
        assert forall|a: int, b: int| 0 <= a < dates@.len() && 0 <= b < dates@.len() implies #[trigger] f(
            a,
            b,
        ) == g(a, b) by {
            lemma_order_key(dates@[a], dates@[b]);
        }
        lemma_order_agrees(dates@.len(), f, g);
        let r = indices(order@);
        assert forall|k: int, l: int| 0 <= k < l < r.len() implies !g(
            #[trigger] r[l],
            #[trigger] r[k],
        ) by {
            assert(!f(r[l], r[k]));
            assert(f(r[l], r[k]) == g(r[l], r[k]));
        }
    }
    order
}

/// Puts the tournaments in the order of their dates, from the earliest;
/// tournaments of the same date keep their order.
pub fn sort_by_date(results: Vec<TournamentResult>) -> (r: Vec<TournamentResult>)
    ensures
        result_views(r@) == arranged(
            result_views(results@),
            order_of(results@.len(), earlier_in(result_dates(result_views(results@)))),
        ),
        r@.len() == results@.len(),
        chronological(result_views(r@)),
{
    let ghost views = result_views(results@);
    let mut dates: Vec<Datetime> = Vec::new();
    let mut i: usize = 0;
    while i < results.len()
        invariant
            i <= results.len(),
            views == result_views(results@),
            dates@ == result_dates(views).take(i as int),
        decreases results.len() - i,
    {
        dates.push(results[i].date);
        assert(dates@ =~= result_dates(views).take(i + 1));
        i += 1;
    }
    assert(dates@ =~= result_dates(views));
    let order = order_by_date(&dates);
    let r = permuted(results, &order);
    proof {
        let sorted = indices(order@);
        let after = result_views(r@);
        assert(after =~= arranged(views, sorted));
        assert forall|x: int, y: int| 0 <= x < y < after.len() implies (#[trigger] after[x]).date.not_after(
            (#[trigger] after[y]).date,
        ) by {
            assert(!earlier_in(dates@)(sorted[y], sorted[x]));
        }
    }
    r
}

/// Puts the participations in the order of their dates, from the earliest;
/// participations of the same date keep their order.
pub fn sort_participations(list: Vec<Participation>) -> (r: Vec<Participation>)
    ensures
        participation_views(r@) == arranged(
            participation_views(list@),
            order_of(list@.len(), earlier_in(participation_dates(participation_views(list@)))),
        ),
        forall|x: int, y: int|
            0 <= x < y < r@.len() ==> (#[trigger] r@[x]).date.not_after((#[trigger] r@[y]).date),
{
    let ghost views = participation_views(list@);
    let mut dates: Vec<Datetime> = Vec::new();
    let mut i: usize = 0;
    while i < list.len()
        invariant
            i <= list.len(),
            views == participation_views(list@),
            dates@ == participation_dates(views).take(i as int),
        decreases list.len() - i,
    {
        dates.push(list[i].date);
        assert(dates@ =~= participation_dates(views).take(i + 1));
        i += 1;
    }
    assert(dates@ =~= participation_dates(views));
    let order = order_by_date(&dates);
    let r = permuted(list, &order);
    proof {
        let sorted = indices(order@);
        assert(participation_views(r@) =~= arranged(views, sorted));
        assert forall|x: int, y: int| 0 <= x < y < r@.len() implies (#[trigger] r@[x]).date.not_after(
            (#[trigger] r@[y]).date,
        ) by {
            assert(!earlier_in(dates@)(sorted[y], sorted[x]));
            assert(r@[x].date == participation_views(r@)[x].date);
            assert(r@[y].date == participation_views(r@)[y].date);
        }
    }
    r
}

impl Team {
    /// Puts the team's participations in the order of their dates.
    pub fn sort_participations_by_date(&mut self)
        ensures
            final(self)@ == (TeamView {
                participations: match old(self)@.participations {
                    Some(list) => Some(
                        arranged(list, order_of(list.len(), earlier_in(participation_dates(list)))),
                    ),
                    None => None,
                },
                ..old(self)@
            }),
    {
        let held = self.participations.take();
        match held {
            Some(list) => {
                self.participations = Some(sort_participations(list));
            },
            None => {},
        }
    }
}

impl TournamentResult {
    /// The name of the file that holds the result.
    pub fn filename(&self) -> (r: String)
        ensures
            r@ == result_file_name(self.tournament_name@),
    {
        let low = to_lowercase(self.tournament_name.as_str());
        let chars = chars_of(low.as_str());
        let ghost dashed = hyphenated(chars@);
        let mut kept: Vec<char> = Vec::new();
        let mut k: usize = 0;
        while k < chars.len()
            invariant
                k <= chars.len(),
                dashed == hyphenated(chars@),
                kept@ == file_chars(dashed.take(k as int)),
            decreases chars.len() - k,
        {
            let c = if chars[k] == ' ' {
                '-'
            } else {
                chars[k]
            };
            assert(dashed.take(k + 1).drop_last() =~= dashed.take(k as int));
            assert(dashed.take(k + 1).last() == c);
            if (c as u32) < 128 && c != ':' {
                kept.push(c);
            }
            k += 1;
        }
        assert(dashed.take(k as int) =~= dashed);
        let mut r = string_of(&kept);
        r.append("-results.toml");
        r
    }

    /// Takes out of the teams' records what belongs to their records over
    /// all tournaments: matchups, participations, greatest win and loss, and
    /// the decider value.
    pub fn strip(&mut self)
        ensures
            final(self)@ == (TournamentResultView {
                team_placements: Seq::new(
                    old(self)@.team_placements.len(),
                    |k: int|
                        TeamPlacementView {
                            team: stripped(old(self)@.team_placements[k].team),
                            placement: old(self)@.team_placements[k].placement,
                        },
                ),
                ..old(self)@
            }),
    {
        let ghost before = self@.team_placements;
        let mut k: usize = 0;
        while k < self.team_placements.len()
            invariant
                k <= self.team_placements@.len(),
                self.team_placements@.len() == before.len(),
                self.tournament_name == old(self).tournament_name,
                self.season_num == old(self).season_num,
                self.date == old(self).date,
                before == old(self)@.team_placements,
                forall|j: int|
                    0 <= j < k ==> (#[trigger] self@.team_placements[j]) == (TeamPlacementView {
                        team: stripped(before[j].team),
                        placement: before[j].placement,
                    }),
                forall|j: int|
                    k <= j < before.len() ==> (#[trigger] self@.team_placements[j]) == before[j],
            decreases self.team_placements.len() - k,
        {
            let ghost previous = self@.team_placements;
            let entry = &mut self.team_placements[k];
            entry.team.matchups = None;
            entry.team.participations = None;
            entry.team.head_to_head = None;
            entry.team.reset_greatest();
            proof {
                let now = self@.team_placements;
                assert forall|j: int| 0 <= j < k + 1 implies (#[trigger] now[j]) == (
                TeamPlacementView {
                    team: stripped(before[j].team),
                    placement: before[j].placement,
                }) by {
                    if j < k {
                        assert(now[j] == previous[j]);
                    } else {
                        assert(previous[j] == before[j]);
                    }
                }
                assert forall|j: int| k + 1 <= j < before.len() implies (#[trigger] now[j])
                    == before[j] by {
                    assert(now[j] == previous[j]);
                }
            }
            k += 1;
        }
        assert(self@.team_placements =~= Seq::new(
            before.len(),
            |k: int|
                TeamPlacementView {
                    team: stripped(before[k].team),
                    placement: before[k].placement,
                },
        ));
    }
}

/// Notes a participation at the end of the team's list.
fn note_participation(team: &mut Team, p: Participation)
    ensures
        final(team)@ == with_participation(old(team)@, p@),
{
    let held = team.participations.take();
    match held {
        Some(mut list) => {
            list.push(p);
            assert(participation_views(list@) =~= participation_views(
                old(team).participations->0@,
            ).push(p@));
            team.participations = Some(list);
        },
        None => {
            let mut list: Vec<Participation> = Vec::new();
            list.push(p);
            assert(participation_views(list@) =~= seq![p@]);
            team.participations = Some(list);
        },
    }
}

/// The first team of the standings whose record cannot be merged into its
/// record so far, with the reason.
fn find_merge_fault(results: &Vec<TeamPlacement>) -> (r: Option<MergeError>)
    ensures
        r == first_merge_fault(placement_views(results@)),
{
    let ghost standings = placement_views(results@);
    let mut k: usize = 0;
    while k < results.len()
        invariant
            k <= results@.len(),
            standings == placement_views(results@),
            first_merge_fault(standings.take(k as int)) is None,
        decreases results.len() - k,
    {
        proof {
            assert(standings.take(k + 1).drop_last() =~= standings.take(k as int));
            assert(standings.take(k + 1).last() == results@[k as int]@);
        }
        let target = Team::from(results[k].team.name);
        match target.check_merge(&results[k].team) {
            Some(e) => {
                proof {
                    lemma_merge_fault_prefix(standings, k + 1);
                }
                return Some(e);
            },
            None => {},
        }
        k += 1;
    }
    assert(standings.take(k as int) =~= standings);
    None
}

impl TotalStats {
    /// Whether the records are sound: no team has two, and no number
    /// exceeds what the fixtures counted can have brought.
    pub open spec fn wf(self) -> bool {
        &&& totals_distinct(self@)
        &&& totals_bounded(self@, 510 * self.fixtures)
        &&& self.fixtures <= MAX_LIFETIME_FIXTURES
    }

    pub fn new() -> (s: Self)
        ensures
            s@ == Seq::<TeamView>::empty(),
            s.fixtures == 0,
            s.wf(),
    {
        let s = TotalStats { teams: Vec::new(), fixtures: 0 };
        assert(s@ =~= Seq::<TeamView>::empty());
        s
    }

    /// The place of the record of `name`.
    pub fn position(&self, name: TeamName) -> (r: Option<usize>)
        ensures
            match r {
                Some(i) => is_total_at(self@, name, i as int) && total_at(self@, name) == i,
                None => !has_total(self@, name),
            },
    {
        let mut i: usize = 0;
        while i < self.teams.len()
            invariant
                i <= self.teams@.len(),
                forall|j: int| 0 <= j < i ==> self@[j].name != name,
            decreases self.teams.len() - i,
        {
            if self.teams[i].name == name {
                assert(self@[i as int].name == name);
                assert(is_total_at(self@, name, i as int));
                return Some(i);
            }
            i += 1;
        }
        None
    }

    /// Resolves a tournament and takes it into the records: each team's
    /// record of the tournament, with its participation noted, is merged
    /// into the team's record so far. What comes back is the outcome of the
    /// tournament. Where the tournament is too large, cannot be resolved, or
    /// a team's record cannot be merged, the records stay as they are.
    pub fn absorb_tournament(&mut self, tournament: Tournament) -> (r: Result<
        TournamentResult,
        Failure,
    >)
        requires
            old(self).wf(),
        ensures
            final(self).wf(),
            r is Err ==> final(self)@ == old(self)@ && final(self).fixtures == old(self).fixtures
                && r->Err_0.tournament_name@ == tournament.tournament_name@,
            too_many(old(self).fixtures as int, tournament) ==> r is Err && r->Err_0.error
                == RunError::TooManyFixtures,
            !too_many(old(self).fixtures as int, tournament) ==> match tournament.resolved() {
                Err(e) => r is Err && r->Err_0.error == RunError::Tournament(e),
                Ok(standings) => match first_merge_fault(standings) {
                    Some(e) => r is Err && r->Err_0.error == RunError::Merge(e),
                    None => {
                        &&& r is Ok
                        &&& final(self)@ == absorbed(
                            old(self)@,
                            standings,
                            tournament.tournament_name@,
                            tournament.date,
                        )
                        &&& final(self).fixtures == old(self).fixtures + tournament.fixture_count()
                        &&& r->Ok_0@ == (TournamentResultView {
                            tournament_name: tournament.tournament_name@,
                            season_num: tournament.season_num,
                            date: tournament.date,
                            team_placements: handed_over(
                                standings,
                                tournament.tournament_name@,
                                tournament.date,
                            ),
                        })
                        &&& is_standings(r->Ok_0@.team_placements)
                    },
                },
            },
    {
        let group_fixtures = match &tournament.brackets.groups {
            Some(fixtures) => fixtures.len(),
            None => 0,
        };
        if group_fixtures > MAX_GROUP_FIXTURES {
            return Err(
                Failure {
                    tournament_name: tournament.tournament_name,
                    error: RunError::TooManyFixtures,
                },
            );
        }
        let count = tournament.count_fixtures();
        if count > MAX_LIFETIME_FIXTURES as u128 {
            return Err(
                Failure {
                    tournament_name: tournament.tournament_name,
                    error: RunError::TooManyFixtures,
                },
            );
        }
        if self.fixtures as u128 + count > MAX_LIFETIME_FIXTURES as u128 {
            return Err(
                Failure {
                    tournament_name: tournament.tournament_name,
                    error: RunError::TooManyFixtures,
                },
            );
        }
        let mut results = match tournament.run() {
            Err(e) => {
                return Err(
                    Failure {
                        tournament_name: e.tournament_name,
                        error: RunError::Tournament(e.error),
                    },
                );
            },
            Ok(results) => results,
        };
        let ghost standings = placement_views(results@);
        match find_merge_fault(&results) {
            Some(e) => {
                return Err(
                    Failure { tournament_name: tournament.tournament_name, error: RunError::Merge(e) },
                );
            },
            None => {},
        }
        self.absorb_standings(&mut results, &tournament);
        self.fixtures = self.fixtures + count as usize;
        Ok(TournamentResult::from(results, tournament))
    }

    /// Merges the teams' records of a tournament into the records.
    fn absorb_standings(&mut self, results: &mut Vec<TeamPlacement>, tournament: &Tournament)
        requires
            old(self).wf(),
            old(self).fixtures + tournament.fixture_count() <= MAX_LIFETIME_FIXTURES,
            is_standings(placement_views(old(results)@)),
            table_bounded(placement_views(old(results)@), 510 * tournament.fixture_count()),
            first_merge_fault(placement_views(old(results)@)) is None,
        ensures
            final(self).fixtures == old(self).fixtures,
            final(self)@ == absorbed(
                old(self)@,
                placement_views(old(results)@),
                tournament.tournament_name@,
                tournament.date,
            ),
            placement_views(final(results)@) == handed_over(
                placement_views(old(results)@),
                tournament.tournament_name@,
                tournament.date,
            ),
            totals_distinct(final(self)@),
            totals_bounded(final(self)@, 510 * (old(self).fixtures + tournament.fixture_count())),
            is_standings(placement_views(final(results)@)),
    {
        let ghost standings = placement_views(results@);
        let ghost before = self@;
        let ghost name = tournament.tournament_name@;
        let ghost date = tournament.date;
        let ghost a = 510 * self.fixtures as int;
        let ghost b = 510 * tournament.fixture_count();
        let ghost goal = handed_over(standings, name, date);
        proof {
            assert forall|i: int| 0 <= i < before.len() implies (#[trigger] before[i]).bounded_by(
                a + b,
            ) by {
                lemma_team_bounded_mono(before[i], a, a + b);
            }
        }
        let mut k: usize = 0;
        while k < results.len()
            invariant
                k <= results@.len(),
                results@.len() == standings.len(),
                self.fixtures == old(self).fixtures,
                standings == placement_views(old(results)@),
                is_standings(standings),
                table_bounded(standings, b),
                first_merge_fault(standings) is None,
                name == tournament.tournament_name@,
                date == tournament.date,
                0 <= a,
                0 <= b,
                a + b <= u32::MAX,
                goal == handed_over(standings, name, date),
                self@ == absorbed(before, standings.take(k as int), name, date),
                totals_absorbing(self@, names_of(standings).take(k as int), a, b),
                forall|j: int| 0 <= j < k ==> (#[trigger] results@[j])@ == goal[j],
                forall|j: int| k <= j < results@.len() ==> (#[trigger] results@[j])@ == standings[j],
            decreases results.len() - k,
        {
            let ghost seen = names_of(standings).take(k as int);
            proof {
                assert(standings.take(k + 1).drop_last() =~= standings.take(k as int));
                assert(results@[k as int]@ == standings[k as int]);
                lemma_no_merge_fault(standings, k as int);
                assert(standings[k as int].team.bounded_by(b));
                assert(!seen.contains(standings[k as int].team.name)) by {
                    if seen.contains(standings[k as int].team.name) {
                        let w = choose|w: int|
                            0 <= w < seen.len() && seen[w] == standings[k as int].team.name;
                        assert(standings[w].team.name != standings[k as int].team.name);
                    }
                }
            }
            let entry = &mut results[k];
            let rank = match entry.placement {
                Some(rank) => rank,
                None => 0,
            };
            let p = Participation::new(tournament.tournament_name.clone(), rank, tournament.date);
            note_participation(&mut entry.team, p);
            self.merge_team(&mut entry.team, Ghost(seen), Ghost(a), Ghost(b));
            proof {
                assert(seen.push(standings[k as int].team.name) =~= names_of(standings).take(
                    k + 1,
                ));
            }
            k += 1;
        }
        proof {
            assert(standings.take(k as int) =~= standings);
            assert(placement_views(results@) =~= goal);
            assert forall|x: int, y: int| 0 <= x < y < goal.len() implies (#[trigger] goal[x]).team.name
                != (#[trigger] goal[y]).team.name by {
                assert(standings[x].team.name != standings[y].team.name);
            }
        }
    }

    /// Merges a team's record of one tournament into the records.
    fn merge_team(
        &mut self,
        other: &mut Team,
        Ghost(seen): Ghost<Seq<TeamName>>,
        Ghost(a): Ghost<int>,
        Ghost(b): Ghost<int>,
    )
        requires
            totals_absorbing(old(self)@, seen, a, b),
            !seen.contains(old(other).name),
            old(other)@.bounded_by(b),
            0 <= a,
            0 <= b,
            a + b <= u32::MAX,
            TeamView::fresh(old(other).name).merge_fault(old(other)@) is None,
        ensures
            final(self)@ == merged_into(old(self)@, old(other)@),
            final(self).fixtures == old(self).fixtures,
            final(other)@ == old(other)@.drained(),
            totals_absorbing(final(self)@, seen.push(old(other).name), a, b),
    {
        let ghost before = self@;
        let ghost name = other.name;
        let ghost after_seen = seen.push(name);
        assert(after_seen.contains(name)) by {
            assert(after_seen[seen.len() as int] == name);
        }
        match self.position(other.name) {
            Some(i) => {
                proof {
                    assert(before[i as int].bounded_by(a));
                    lemma_merged_bounded(before[i as int], other@, a, b);
                }
                let total = &mut self.teams[i];
                let _ = total.add(other);
                proof {
                    let after = self@;
                    assert(after =~= merged_into(before, old(other)@));
                    assert forall|x: int, y: int| 0 <= x < y < after.len() implies (
                    #[trigger] after[x]).name != (#[trigger] after[y]).name by {
                        assert(after[x].name == before[x].name);
                        assert(after[y].name == before[y].name);
                    }
                    assert forall|k: int| 0 <= k < after.len() implies (#[trigger] after[k]).bounded_by(
                        a + b,
                    ) by {
                        if k != i {
                            assert(before[k].bounded_by(a + b));
                        }
                    }
                    assert forall|k: int|
                        0 <= k < after.len() && !after_seen.contains(
                            (#[trigger] after[k]).name,
                        ) implies after[k].bounded_by(a) by {
                        if k != i {
                            assert(after[k] == before[k]);
                            if seen.contains(before[k].name) {
                                let w = choose|w: int|
                                    0 <= w < seen.len() && seen[w] == before[k].name;
                                assert(after_seen[w] == before[k].name);
                            }
                        }
                    }
                }
            },
            None => {
                let mut fresh = Team::from(other.name);
                proof {
                    lemma_merged_bounded(fresh@, other@, a, b);
                }
                let _ = fresh.add(other);
                self.teams.push(fresh);
                proof {
                    let after = self@;
                    assert(after =~= merged_into(before, old(other)@));
                    assert forall|x: int, y: int| 0 <= x < y < after.len() implies (
                    #[trigger] after[x]).name != (#[trigger] after[y]).name by {
                        assert(after[x] == before[x]);
                        if y < before.len() {
                            assert(after[y] == before[y]);
                        } else {
                            if before[x].name == name {
                                lemma_total_exists(before, name, x);
                            }
                        }
                    }
                    assert forall|k: int| 0 <= k < after.len() implies (#[trigger] after[k]).bounded_by(
                        a + b,
                    ) by {
                        if k < before.len() {
                            assert(before[k].bounded_by(a + b));
                        }
                    }
                    assert forall|k: int|
                        0 <= k < after.len() && !after_seen.contains(
                            (#[trigger] after[k]).name,
                        ) implies after[k].bounded_by(a) by {
                        if k < before.len() {
                            assert(after[k] == before[k]);
                            if seen.contains(before[k].name) {
                                let w = choose|w: int|
                                    0 <= w < seen.len() && seen[w] == before[k].name;
                                assert(after_seen[w] == before[k].name);
                            }
                        }
                    }
                }
            },
        }
    }
}

} // verus!
