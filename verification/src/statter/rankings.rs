use vstd::prelude::*;
use crate::statter::date::Datetime;
use crate::ordering::{arranged, indices, is_permutation, order_of, permuted, slot};
use crate::ordering::{lemma_order_agrees, lemma_order_is_permutation, order_by_key, smaller_key};
use crate::statter::date::lemma_earlier_is_strict_order;
use crate::statter::placements::names_distinct;
use crate::text::{chars_of, comes_before, is_less};
use crate::statter::team::{TeamName, TeamPlacementView, TEAM_COUNT};
use crate::statter::team::lemma_distinct_names_are_few;
use crate::statter::tournament::{all_ranked, is_standings, points_for, ranking_points_of, MAX_POINTS};
use crate::statter::tournament::lemma_standings_are_few;
use crate::statter::tournament::{TournamentResult, TournamentResultView};

verus! {

/// A team in a season's ranking: its ranking points and its rank after each
/// tournament of the season.
#[derive(Debug)]
pub struct RankedTeam {
    pub name: TeamName,
    pub ranking_points: Vec<u32>,
    pub ranks: Vec<u8>,
}

pub struct RankedTeamView {
    pub name: TeamName,
    pub ranking_points: Seq<u32>,
    pub ranks: Seq<u8>,
}

impl View for RankedTeam {
    type V = RankedTeamView;

    open spec fn view(&self) -> RankedTeamView {
        RankedTeamView { name: self.name, ranking_points: self.ranking_points@, ranks: self.ranks@ }
    }
}

/// The views of a list of ranked teams.
pub open spec fn ranked_views(list: Seq<RankedTeam>) -> Seq<RankedTeamView> {
    Seq::new(list.len(), |i: int| list[i]@)
}

/// The views of a list of names.
pub open spec fn name_views(list: Seq<String>) -> Seq<Seq<char>> {
    Seq::new(list.len(), |i: int| list[i]@)
}

/// The ranking of one season.
#[derive(Debug)]
pub struct SeasonRankings {
    pub date: Datetime,
    pub season_num: u8,
    pub rankings: Vec<RankedTeam>,
    pub tournaments: Vec<String>,
}

pub struct SeasonRankingsView {
    pub date: Datetime,
    pub season_num: u8,
    pub rankings: Seq<RankedTeamView>,
    pub tournaments: Seq<Seq<char>>,
}

impl View for SeasonRankings {
    type V = SeasonRankingsView;

    open spec fn view(&self) -> SeasonRankingsView {
        SeasonRankingsView {
            date: self.date,
            season_num: self.season_num,
            rankings: ranked_views(self.rankings@),
            tournaments: name_views(self.tournaments@),
        }
    }
}

/// The rankings of all seasons.
#[derive(Debug)]
pub struct Seasons {
    pub seasons: Vec<SeasonRankings>,
}

impl View for Seasons {
    type V = Seq<SeasonRankingsView>;

    open spec fn view(&self) -> Seq<SeasonRankingsView> {
        Seq::new(self.seasons@.len(), |i: int| self.seasons@[i]@)
    }
}

/// The ranking points a team has come to, 0 before it has any.
pub open spec fn total_of(t: RankedTeamView) -> int {
    if t.ranking_points.len() > 0 {
        t.ranking_points.last() as int
    } else {
        0
    }
}

/// Whether `i` is the place of the first entry of `name` in `list`.
pub open spec fn is_ranked_at(list: Seq<RankedTeamView>, name: TeamName, i: int) -> bool {
    &&& 0 <= i < list.len()
    &&& list[i].name == name
    &&& forall|j: int| 0 <= j < i ==> list[j].name != name
}

/// Whether `list` has an entry of `name`.
pub open spec fn is_ranked(list: Seq<RankedTeamView>, name: TeamName) -> bool {
    exists|i: int| is_ranked_at(list, name, i)
}

/// The place of the first entry of `name` in a list that has one.
pub open spec fn ranked_at(list: Seq<RankedTeamView>, name: TeamName) -> int {
    choose|i: int| is_ranked_at(list, name, i)
}

/// `n` zeros.
pub open spec fn zeros<T>(n: nat, zero: T) -> Seq<T> {
    Seq::new(n, |i: int| zero)
}

/// The ranking with `points` given to `name`: added to what the team had,
/// as its next entry; or, for a team new to the ranking, entered behind a
/// zero for each of the `played` tournaments before.
pub open spec fn awarded(list: Seq<RankedTeamView>, name: TeamName, points: u32, played: nat) -> Seq<
    RankedTeamView,
> {
    if is_ranked(list, name) {
        let i = ranked_at(list, name);
        list.update(
            i,
            RankedTeamView {
                ranking_points: list[i].ranking_points.push((total_of(list[i]) + points) as u32),
                ..list[i]
            },
        )
    } else {
        list.push(
            RankedTeamView {
                name,
                ranking_points: zeros(played, 0u32).push(points),
                ranks: zeros(played, 0u8),
            },
        )
    }
}

/// The ranking with the points of a tournament given to its teams, one
/// after the other.
pub open spec fn awarded_all(list: Seq<RankedTeamView>, standings: Seq<TeamPlacementView>, played: nat) -> Seq<
    RankedTeamView,
>
    decreases standings.len(),
{
    if standings.len() == 0 {
        list
    } else {
        awarded(
            awarded_all(list, standings.drop_last(), played),
            standings.last().team.name,
            points_for(standings.last().placement->0),
            played,
        )
    }
}

/// Whether the team at `i` has more ranking points than the team at `j`.
pub open spec fn more_points(list: Seq<RankedTeamView>) -> spec_fn(int, int) -> bool {
    |i: int, j: int| total_of(list[i]) > total_of(list[j])
}

/// The teams each with its place in the list, counted from 1, as its next
/// rank.
pub open spec fn with_ranks(list: Seq<RankedTeamView>) -> Seq<RankedTeamView> {
    Seq::new(
        list.len(),
        |k: int| RankedTeamView { ranks: list[k].ranks.push((k + 1) as u8), ..list[k] },
    )
}

/// The ranking from the most ranking points to the fewest, teams with the
/// same points in the order they had, each with its new rank.
pub open spec fn reranked(list: Seq<RankedTeamView>) -> Seq<RankedTeamView> {
    with_ranks(arranged(list, order_of(list.len(), more_points(list))))
}

/// Whether `name` is one of the teams of the standings.
pub open spec fn plays_in(standings: Seq<TeamPlacementView>, name: TeamName) -> bool {
    exists|k: int| 0 <= k < standings.len() && (#[trigger] standings[k]).team.name == name
}

/// The ranking with the total of each team that is not in the standings
/// carried forward: such a team gets the total it had once more.
pub open spec fn carried(list: Seq<RankedTeamView>, standings: Seq<TeamPlacementView>) -> Seq<
    RankedTeamView,
> {
    Seq::new(
        list.len(),
        |i: int|
            if plays_in(standings, list[i].name) {
                list[i]
            } else {
                RankedTeamView {
                    ranking_points: list[i].ranking_points.push(total_of(list[i]) as u32),
                    ..list[i]
                }
            },
    )
}

/// Whether each team of the ranking has `n` totals and `n` ranks: one of
/// each for each tournament of the season.
pub open spec fn aligned(list: Seq<RankedTeamView>, n: nat) -> bool {
    forall|i: int|
        0 <= i < list.len() ==> (#[trigger] list[i]).ranking_points.len() == n
            && list[i].ranks.len() == n
}

/// The season's ranking after one more tournament: its name is put at the
/// end of the season's tournaments; its teams get the ranking points of
/// their ranks, added to what they had; every other team of the season
/// gets the total it had once more; and the teams are ranked anew by what
/// they have come to. So each team has one total and one rank for each
/// tournament of the season, in the order of the tournaments; a team that
/// joins late has zeros for the tournaments before.
pub open spec fn season_pushed(s: SeasonRankingsView, r: TournamentResultView) -> SeasonRankingsView {
    SeasonRankingsView {
        date: s.date,
        season_num: s.season_num,
        rankings: reranked(
            carried(
                awarded_all(s.rankings, r.team_placements, s.tournaments.len()),
                r.team_placements,
            ),
        ),
        tournaments: s.tournaments.push(r.tournament_name),
    }
}

/// Whether `i` is the place of the first season with the number `num`.
pub open spec fn is_season_at(seasons: Seq<SeasonRankingsView>, num: u8, i: int) -> bool {
    &&& 0 <= i < seasons.len()
    &&& seasons[i].season_num == num
    &&& forall|j: int| 0 <= j < i ==> seasons[j].season_num != num
}

/// Whether there is a season with the number `num`.
pub open spec fn has_season(seasons: Seq<SeasonRankingsView>, num: u8) -> bool {
    exists|i: int| is_season_at(seasons, num, i)
}

/// The place of the first season with the number `num`, where there is one.
pub open spec fn season_at(seasons: Seq<SeasonRankingsView>, num: u8) -> int {
    choose|i: int| is_season_at(seasons, num, i)
}

/// A season that begins with the tournament of `r`.
pub open spec fn new_season(r: TournamentResultView) -> SeasonRankingsView {
    SeasonRankingsView {
        date: r.date,
        season_num: r.season_num,
        rankings: Seq::empty(),
        tournaments: Seq::empty(),
    }
}

/// The seasons after one more tournament: it goes into its season's
/// ranking, or into a new season that takes its date.
pub open spec fn pushed(seasons: Seq<SeasonRankingsView>, r: TournamentResultView) -> Seq<
    SeasonRankingsView,
> {
    if has_season(seasons, r.season_num) {
        let i = season_at(seasons, r.season_num);
        seasons.update(i, season_pushed(seasons[i], r))
    } else {
        seasons.push(season_pushed(new_season(r), r))
    }
}

/// The views of a list of tournament results.
pub open spec fn result_views(list: Seq<TournamentResult>) -> Seq<TournamentResultView> {
    Seq::new(list.len(), |i: int| list[i]@)
}

/// The seasons after the tournaments of `results`, one after the other.
pub open spec fn pushed_all(results: Seq<TournamentResultView>) -> Seq<SeasonRankingsView>
    decreases results.len(),
{
    if results.len() == 0 {
        Seq::empty()
    } else {
        pushed(pushed_all(results.drop_last()), results.last())
    }
}

/// Whether no tournament comes before an earlier one of the list.
pub open spec fn chronological(results: Seq<TournamentResultView>) -> bool {
    forall|i: int, j: int|
        0 <= i < j < results.len() ==> (#[trigger] results[i]).date.not_after(
            (#[trigger] results[j]).date,
        )
}

/// Whether the ranking is sound: no team is in it twice, and each team has
/// ranking points.
pub open spec fn ranking_wf(list: Seq<RankedTeamView>) -> bool {
    &&& forall|i: int, j: int|
        0 <= i < j < list.len() ==> (#[trigger] list[i]).name != (#[trigger] list[j]).name
    &&& forall|i: int| 0 <= i < list.len() ==> (#[trigger] list[i]).ranking_points.len() > 0
}

/// Whether no team of the ranking has come to more than `bound` points.
pub open spec fn ranking_bounded(list: Seq<RankedTeamView>, bound: int) -> bool {
    forall|i: int| 0 <= i < list.len() ==> total_of(#[trigger] list[i]) <= bound
}

/// Whether the season is sound: its ranking is, and each team has one total
/// and one rank for each tournament of the season.
pub open spec fn season_wf(s: SeasonRankingsView) -> bool {
    &&& ranking_wf(s.rankings)
    &&& aligned(s.rankings, s.tournaments.len())
}

/// Whether all seasons are sound.
pub open spec fn seasons_wf(seasons: Seq<SeasonRankingsView>) -> bool {
    forall|i: int| 0 <= i < seasons.len() ==> season_wf(#[trigger] seasons[i])
}

/// Whether no team of any season has come to more than `bound` points.
pub open spec fn seasons_bounded(seasons: Seq<SeasonRankingsView>, bound: int) -> bool {
    forall|i: int|
        0 <= i < seasons.len() ==> ranking_bounded((#[trigger] seasons[i]).rankings, bound)
}

/// A list that holds an entry of `name` at place `k` has a first one.
pub proof fn lemma_ranked_exists(list: Seq<RankedTeamView>, name: TeamName, k: int)
    requires
        0 <= k < list.len(),
        list[k].name == name,
    ensures
        is_ranked(list, name),
    decreases k,
{
    if forall|j: int| 0 <= j < k ==> list[j].name != name {
        assert(is_ranked_at(list, name, k));
    } else {
        let j = choose|j: int| 0 <= j < k && list[j].name == name;
        lemma_ranked_exists(list, name, j);
    }
}

/// Gives `points` to `name` in the ranking.
#[verifier::loop_isolation(false)]
fn award(list: &mut Vec<RankedTeam>, name: TeamName, points: u32, played: usize, Ghost(bound): Ghost<int>)
    requires
        ranking_wf(ranked_views(old(list)@)),
        ranking_bounded(ranked_views(old(list)@), bound),
        0 <= bound,
        bound + MAX_POINTS <= u32::MAX,
        points <= MAX_POINTS,
    ensures
        ranked_views(final(list)@) == awarded(ranked_views(old(list)@), name, points, played as nat),
        ranking_wf(ranked_views(final(list)@)),
        ranking_bounded(ranked_views(final(list)@), bound + MAX_POINTS),
{
    let ghost before = ranked_views(list@);
    let mut i: usize = 0;
    while i < list.len()
        invariant
            i <= list.len(),
            list@ == old(list)@,
            before == ranked_views(list@),
            forall|j: int| 0 <= j < i ==> before[j].name != name,
        decreases list.len() - i,
    {
        if list[i].name == name {
            assert(before[i as int].name == name);
            assert(is_ranked_at(before, name, i as int));
            assert(ranked_at(before, name) == i);
            assert(before[i as int].ranking_points.len() > 0);
            assert(total_of(before[i as int]) <= bound);
            let entry = &mut list[i];
            let total = entry.ranking_points[entry.ranking_points.len() - 1];
            entry.ranking_points.push(total + points);
            proof {
                let after = ranked_views(list@);
                assert(after =~= awarded(before, name, points, played as nat));
                assert forall|x: int, y: int| 0 <= x < y < after.len() implies (#[trigger] after[x]).name
                    != (#[trigger] after[y]).name by {
                    assert(after[x].name == before[x].name);
                    assert(after[y].name == before[y].name);
                }
                assert forall|k: int| 0 <= k < after.len() implies (
                #[trigger] after[k]).ranking_points.len() > 0 by {
                    if k != i {
                        assert(after[k] == before[k]);
                    }
                }
                assert forall|k: int| 0 <= k < after.len() implies total_of(#[trigger] after[k])
                    <= bound + MAX_POINTS by {
                    if k != i {
                        assert(after[k] == before[k]);
                        assert(total_of(before[k]) <= bound);
                    }
                }
            }
            return ;
        }
        i += 1;
    }
    let mut ranking_points: Vec<u32> = Vec::new();
    let mut ranks: Vec<u8> = Vec::new();
    let mut n: usize = 0;
    while n < played
        invariant
            n <= played,
            ranking_points@ == zeros(n as nat, 0u32),
            ranks@ == zeros(n as nat, 0u8),
        decreases played - n,
    {
        ranking_points.push(0);
        ranks.push(0);
        n += 1;
        assert(ranking_points@ =~= zeros(n as nat, 0u32));
        assert(ranks@ =~= zeros(n as nat, 0u8));
    }
    ranking_points.push(points);
    list.push(RankedTeam { name, ranking_points, ranks });
    proof {
        let after = ranked_views(list@);
        assert(!is_ranked(before, name));
        assert(after =~= awarded(before, name, points, played as nat));
        assert forall|x: int, y: int| 0 <= x < y < after.len() implies (#[trigger] after[x]).name
            != (#[trigger] after[y]).name by {
            assert(after[x] == before[x]);
            if y < before.len() {
                assert(after[y] == before[y]);
            } else {
                if before[x].name == name {
                    lemma_ranked_exists(before, name, x);
                }
            }
        }
        assert forall|k: int| 0 <= k < after.len() implies (
        #[trigger] after[k]).ranking_points.len() > 0 by {
            if k < before.len() {
                assert(after[k] == before[k]);
            }
        }
        assert forall|k: int| 0 <= k < after.len() implies total_of(#[trigger] after[k]) <= bound
            + MAX_POINTS by {
            if k < before.len() {
                assert(after[k] == before[k]);
                assert(total_of(before[k]) <= bound);
            }
        }
    }
}

/// The ranking points that `name` has come to in the ranking, 0 for a team
/// that is not in it.
pub open spec fn total_in(list: Seq<RankedTeamView>, name: TeamName) -> int {
    if is_ranked(list, name) {
        total_of(list[ranked_at(list, name)])
    } else {
        0
    }
}

/// The ranking points that the standings give to `name`: the sum over its
/// entries, so 0 for a team that did not take part.
pub open spec fn points_in(standings: Seq<TeamPlacementView>, name: TeamName) -> int
    decreases standings.len(),
{
    if standings.len() == 0 {
        0
    } else {
        points_in(standings.drop_last(), name) + if standings.last().team.name == name {
            points_for(standings.last().placement->0) as int
        } else {
            0
        }
    }
}

/// No rank earns more than the first.
pub proof fn lemma_points_are_bounded(rank: u8)
    ensures
        points_for(rank) <= MAX_POINTS,
{
    let table = crate::statter::tournament::points_table();
    assert(table[0] <= MAX_POINTS && table[1] <= MAX_POINTS && table[2] <= MAX_POINTS && table[3]
        <= MAX_POINTS);
    assert(table[4] <= MAX_POINTS && table[5] <= MAX_POINTS && table[6] <= MAX_POINTS && table[7]
        <= MAX_POINTS);
    assert(table[8] <= MAX_POINTS && table[9] <= MAX_POINTS && table[10] <= MAX_POINTS
        && table[11] <= MAX_POINTS);
    assert(table[12] <= MAX_POINTS && table[13] <= MAX_POINTS && table[14] <= MAX_POINTS
        && table[15] <= MAX_POINTS && table[16] <= MAX_POINTS);
}

/// Giving points to one team adds them to what the team had and leaves all
/// other teams what they had.
pub proof fn lemma_awarded_total(
    list: Seq<RankedTeamView>,
    team: TeamName,
    points: u32,
    played: nat,
    bound: int,
    name: TeamName,
)
    requires
        ranking_wf(list),
        ranking_bounded(list, bound),
        0 <= bound,
        bound + points <= u32::MAX,
    ensures
        ranking_wf(awarded(list, team, points, played)),
        ranking_bounded(awarded(list, team, points, played), bound + points),
        total_in(awarded(list, team, points, played), name) == total_in(list, name) + if name
            == team {
            points as int
        } else {
            0
        },
{
    let after = awarded(list, team, points, played);
    if is_ranked(list, team) {
        let i = ranked_at(list, team);
        assert(total_of(list[i]) <= bound);
        assert(list[i].ranking_points.len() > 0);
        assert(after[i].ranking_points.last() == (total_of(list[i]) + points) as u32);
        assert forall|x: int, y: int| 0 <= x < y < after.len() implies (#[trigger] after[x]).name != (
        #[trigger] after[y]).name by {
            assert(after[x].name == list[x].name);
            assert(after[y].name == list[y].name);
        }
        assert forall|k: int| 0 <= k < after.len() implies (
        #[trigger] after[k]).ranking_points.len() > 0 by {
            if k != i {
                assert(after[k] == list[k]);
            }
        }
        assert forall|k: int| 0 <= k < after.len() implies total_of(#[trigger] after[k]) <= bound
            + points by {
            if k != i {
                assert(after[k] == list[k]);
                assert(total_of(list[k]) <= bound);
            }
        }
        if is_ranked(list, name) {
            let j = ranked_at(list, name);
            assert(is_ranked_at(after, name, j)) by {
                assert(after[j].name == list[j].name);
                assert forall|w: int| 0 <= w < j implies after[w].name != name by {
                    assert(after[w].name == list[w].name);
                }
            }
            if name != team {
                assert(after[j] == list[j]);
            }
        } else {
            if is_ranked(after, name) {
                let j = ranked_at(after, name);
                assert(list[j].name == after[j].name);
                lemma_ranked_exists(list, name, j);
            }
        }
    } else {
        assert(after[list.len() as int].ranking_points.last() == points);
        assert forall|x: int, y: int| 0 <= x < y < after.len() implies (#[trigger] after[x]).name != (
        #[trigger] after[y]).name by {
            assert(after[x] == list[x]);
            if y < list.len() {
                assert(after[y] == list[y]);
            } else {
                if list[x].name == team {
                    lemma_ranked_exists(list, team, x);
                }
            }
        }
        assert forall|k: int| 0 <= k < after.len() implies (
        #[trigger] after[k]).ranking_points.len() > 0 by {
            if k < list.len() {
                assert(after[k] == list[k]);
            }
        }
        assert forall|k: int| 0 <= k < after.len() implies total_of(#[trigger] after[k]) <= bound
            + points by {
            if k < list.len() {
                assert(after[k] == list[k]);
                assert(total_of(list[k]) <= bound);
            }
        }
        if is_ranked(list, name) {
            let j = ranked_at(list, name);
            assert(is_ranked_at(after, name, j)) by {
                assert(after[j] == list[j]);
                assert forall|w: int| 0 <= w < j implies after[w].name != name by {
                    assert(after[w] == list[w]);
                }
            }
        } else if name == team {
            assert(is_ranked_at(after, name, list.len() as int)) by {
                assert forall|w: int| 0 <= w < list.len() implies after[w].name != name by {
                    assert(after[w] == list[w]);
                    if list[w].name == name {
                        lemma_ranked_exists(list, name, w);
                    }
                }
            }
        } else {
            if is_ranked(after, name) {
                let j = ranked_at(after, name);
                assert(j < list.len());
                assert(after[j] == list[j]);
                lemma_ranked_exists(list, name, j);
            }
        }
    }
}

/// Giving the teams of a tournament their points adds to each team's
/// points what the standings give it.
pub proof fn lemma_awarded_all_total(
    list: Seq<RankedTeamView>,
    standings: Seq<TeamPlacementView>,
    played: nat,
    bound: int,
    name: TeamName,
)
    requires
        ranking_wf(list),
        ranking_bounded(list, bound),
        0 <= bound,
        bound + MAX_POINTS * standings.len() <= u32::MAX,
    ensures
        ranking_wf(awarded_all(list, standings, played)),
        ranking_bounded(awarded_all(list, standings, played), bound + MAX_POINTS * standings.len()),
        total_in(awarded_all(list, standings, played), name) == total_in(list, name) + points_in(
            standings,
            name,
        ),
    decreases standings.len(),
{
    if standings.len() > 0 {
        let rest = standings.drop_last();
        let last = standings.last();
        lemma_awarded_all_total(list, rest, played, bound, name);
        let prev = awarded_all(list, rest, played);
        let points = points_for(last.placement->0);
        lemma_points_are_bounded(last.placement->0);
        let reached = bound + MAX_POINTS * rest.len();
        lemma_awarded_total(prev, last.team.name, points, played, reached, name);
        let after = awarded(prev, last.team.name, points, played);
        assert forall|k: int| 0 <= k < after.len() implies total_of(#[trigger] after[k]) <= bound
            + MAX_POINTS * standings.len() by {
            assert(total_of(after[k]) <= reached + points);
        }
    }
}

/// Ranking the teams anew leaves each team the points it has.
pub proof fn lemma_reranked_total(list: Seq<RankedTeamView>, name: TeamName)
    requires
        ranking_wf(list),
    ensures
        total_in(reranked(list), name) == total_in(list, name),
{
    let before = more_points(list);
    let order = order_of(list.len(), before);
    lemma_order_is_permutation(list.len(), before);
    let after = reranked(list);
    assert forall|k: int| 0 <= k < after.len() implies (#[trigger] after[k]).name == list[order[k]].name
        && total_of(after[k]) == total_of(list[order[k]]) by {}
    if is_ranked(list, name) {
        let i = ranked_at(list, name);
        let k = crate::ordering::lemma_order_place(list.len(), before, i);
        assert(after[k].name == name);
        lemma_ranked_exists(after, name, k);
        let found = ranked_at(after, name);
        assert(list[order[found]].name == name);
        if order[found] < i {
            assert(list[order[found]].name != list[i].name);
        } else if i < order[found] {
            assert(list[i].name != list[order[found]].name);
        }
    } else {
        if is_ranked(after, name) {
            let found = ranked_at(after, name);
            lemma_ranked_exists(list, name, order[found]);
        }
    }
}

/// Carrying totals forward changes no team's name or total.
pub proof fn lemma_carried_total(
    list: Seq<RankedTeamView>,
    standings: Seq<TeamPlacementView>,
    name: TeamName,
)
    requires
        ranking_wf(list),
    ensures
        ranking_wf(carried(list, standings)),
        forall|b: int| ranking_bounded(list, b) ==> ranking_bounded(carried(list, standings), b),
        total_in(carried(list, standings), name) == total_in(list, name),
{
    let after = carried(list, standings);
    assert forall|i: int| 0 <= i < after.len() implies (#[trigger] after[i]).name == list[i].name
        && total_of(after[i]) == total_of(list[i]) && after[i].ranking_points.len() > 0 by {
        assert(list[i].ranking_points.len() > 0);
    }
    assert forall|x: int, y: int| 0 <= x < y < after.len() implies (#[trigger] after[x]).name != (
    #[trigger] after[y]).name by {
        assert(list[x].name != list[y].name);
    }
    assert forall|b: int| ranking_bounded(list, b) implies ranking_bounded(after, b) by {
        assert forall|i: int| 0 <= i < after.len() implies total_of(#[trigger] after[i]) <= b by {
            assert(total_of(list[i]) <= b);
        }
    }
    if is_ranked(list, name) {
        let i = ranked_at(list, name);
        assert(is_ranked_at(after, name, i)) by {
            assert forall|j: int| 0 <= j < i implies after[j].name != name by {
                assert(list[j].name != name);
            }
        }
    } else {
        if is_ranked(after, name) {
            let i = ranked_at(after, name);
            lemma_ranked_exists(list, name, i);
        }
    }
}

/// Season points are additive: a tournament adds to the points of each
/// team in the season's ranking what its standings give the team, and
/// nothing else. So the points a team comes to do not depend on the order
/// in which the standings list the teams.
pub proof fn lemma_season_points_add_up(
    season: SeasonRankingsView,
    result: TournamentResultView,
    bound: int,
    name: TeamName,
)
    requires
        ranking_wf(season.rankings),
        ranking_bounded(season.rankings, bound),
        0 <= bound,
        bound + MAX_POINTS * result.team_placements.len() <= u32::MAX,
    ensures
        total_in(season_pushed(season, result).rankings, name) == total_in(
            season.rankings,
            name,
        ) + points_in(result.team_placements, name),
{
    let played = season.tournaments.len();
    lemma_awarded_all_total(season.rankings, result.team_placements, played, bound, name);
    let given = awarded_all(season.rankings, result.team_placements, played);
    lemma_carried_total(given, result.team_placements, name);
    lemma_reranked_total(carried(given, result.team_placements), name);
}

/// A team of the season that sits a tournament out keeps the total it had.
pub proof fn lemma_sitting_out_keeps_total(
    season: SeasonRankingsView,
    result: TournamentResultView,
    bound: int,
    name: TeamName,
)
    requires
        ranking_wf(season.rankings),
        ranking_bounded(season.rankings, bound),
        0 <= bound,
        bound + MAX_POINTS * result.team_placements.len() <= u32::MAX,
        !plays_in(result.team_placements, name),
    ensures
        total_in(season_pushed(season, result).rankings, name) == total_in(season.rankings, name),
{
    lemma_season_points_add_up(season, result, bound, name);
    lemma_absent_team_gets_nothing(result.team_placements, name);
}

/// Whether each team of the ranking has `n` ranks, and `n` totals and one
/// more if it is among the standings.
pub open spec fn half_aligned(
    list: Seq<RankedTeamView>,
    standings: Seq<TeamPlacementView>,
    n: nat,
) -> bool {
    forall|i: int|
        0 <= i < list.len() ==> (#[trigger] list[i]).ranks.len() == n
            && list[i].ranking_points.len() == if plays_in(standings, list[i].name) {
            n + 1
        } else {
            n
        }
}

/// A team that is not among the standings gets no points from them.
pub proof fn lemma_absent_team_gets_nothing(standings: Seq<TeamPlacementView>, name: TeamName)
    requires
        !plays_in(standings, name),
    ensures
        points_in(standings, name) == 0,
    decreases standings.len(),
{
    if standings.len() > 0 {
        assert(standings[standings.len() - 1].team.name != name);
        assert(!plays_in(standings.drop_last(), name)) by {
            if plays_in(standings.drop_last(), name) {
                let k = choose|k: int|
                    0 <= k < standings.drop_last().len() && (#[trigger] standings.drop_last()[k]).team.name
                        == name;
                assert(standings[k].team.name == name);
            }
        }
        lemma_absent_team_gets_nothing(standings.drop_last(), name);
    }
}

/// Giving the teams of standings their points gives each of them one more
/// total, and no other team.
pub proof fn lemma_awarded_all_aligned(
    list: Seq<RankedTeamView>,
    standings: Seq<TeamPlacementView>,
    played: nat,
    bound: int,
)
    requires
        ranking_wf(list),
        aligned(list, played),
        names_distinct(standings),
        ranking_bounded(list, bound),
        0 <= bound,
        bound + MAX_POINTS * standings.len() <= u32::MAX,
    ensures
        half_aligned(awarded_all(list, standings, played), standings, played),
    decreases standings.len(),
{
    let after = awarded_all(list, standings, played);
    if standings.len() == 0 {
        assert forall|i: int| 0 <= i < after.len() implies (#[trigger] after[i]).ranks.len()
            == played && after[i].ranking_points.len() == if plays_in(standings, after[i].name) {
            played + 1
        } else {
            played
        } by {}
    } else {
        let rest = standings.drop_last();
        let last = standings.last();
        let team = last.team.name;
        assert(names_distinct(rest)) by {
            assert forall|x: int, y: int| 0 <= x < y < rest.len() implies (#[trigger] rest[x]).team.name
                != (#[trigger] rest[y]).team.name by {
                assert(standings[x].team.name != standings[y].team.name);
            }
        }
        lemma_awarded_all_aligned(list, rest, played, bound);
        lemma_awarded_all_total(list, rest, played, bound, team);
        let prev = awarded_all(list, rest, played);
        assert(!plays_in(rest, team)) by {
            if plays_in(rest, team) {
                let k = choose|k: int| 0 <= k < rest.len() && (#[trigger] rest[k]).team.name == team;
                assert(standings[k].team.name != standings[standings.len() - 1].team.name);
            }
        }
        assert(plays_in(standings, team)) by {
            assert(standings[standings.len() - 1].team.name == team);
        }
        assert forall|i: int| 0 <= i < after.len() implies (#[trigger] after[i]).ranks.len()
            == played && after[i].ranking_points.len() == if plays_in(standings, after[i].name) {
            played + 1
        } else {
            played
        } by {
            let hit = is_ranked(prev, team) && i == ranked_at(prev, team);
            if i < prev.len() {
                assert(after[i].name == prev[i].name);
                assert(after[i].ranks == prev[i].ranks);
                if hit {
                    assert(!plays_in(rest, prev[i].name));
                } else {
                    assert(after[i] == prev[i]);
                    if prev[i].name == team {
                        lemma_ranked_exists(prev, team, i);
                        let j = ranked_at(prev, team);
                        if j < i {
                            assert(prev[j].name != prev[i].name);
                        } else if i < j {
                            assert(prev[i].name != prev[j].name);
                        }
                    }
                    assert(plays_in(standings, prev[i].name) == plays_in(rest, prev[i].name)) by {
                        if plays_in(standings, prev[i].name) {
                            let k = choose|k: int|
                                0 <= k < standings.len() && (#[trigger] standings[k]).team.name
                                    == prev[i].name;
                            assert(k < rest.len());
                            assert(rest[k].team.name == prev[i].name);
                        }
                        if plays_in(rest, prev[i].name) {
                            let k = choose|k: int|
                                0 <= k < rest.len() && (#[trigger] rest[k]).team.name == prev[i].name;
                            assert(standings[k].team.name == prev[i].name);
                        }
                    }
                }
            } else {
                assert(!is_ranked(prev, team));
                assert(after[i].name == team);
            }
        }
    }
}

/// Each push keeps a season sound: afterwards every team of the season, the
/// teams that sat out too, has one total and one rank for each tournament
/// of the season.
pub proof fn lemma_season_stays_aligned(
    season: SeasonRankingsView,
    result: TournamentResultView,
    bound: int,
)
    requires
        season_wf(season),
        names_distinct(result.team_placements),
        ranking_bounded(season.rankings, bound),
        0 <= bound,
        bound + MAX_POINTS * result.team_placements.len() <= u32::MAX,
    ensures
        season_wf(season_pushed(season, result)),
        season_pushed(season, result).tournaments.len() == season.tournaments.len() + 1,
{
    let played = season.tournaments.len();
    let standings = result.team_placements;
    let given = awarded_all(season.rankings, standings, played);
    lemma_awarded_all_total(season.rankings, standings, played, bound, TeamName::Unknown);
    lemma_awarded_all_aligned(season.rankings, standings, played, bound);
    let kept = carried(given, standings);
    lemma_carried_total(given, standings, TeamName::Unknown);
    let before = more_points(kept);
    let order = order_of(kept.len(), before);
    lemma_order_is_permutation(kept.len(), before);
    let after = reranked(kept);
    assert forall|i: int| 0 <= i < after.len() implies (#[trigger] after[i]).ranking_points.len()
        == played + 1 && after[i].ranks.len() == played + 1 && after[i].name == kept[order[i]].name by {
        let k = order[i];
        assert(0 <= k < kept.len());
        assert(given[k].ranks.len() == played);
    }
    assert forall|x: int, y: int| 0 <= x < y < after.len() implies (#[trigger] after[x]).name != (
    #[trigger] after[y]).name by {
        assert(order[x] != order[y]);
        if order[x] < order[y] {
            assert(kept[order[x]].name != kept[order[y]].name);
        } else {
            assert(kept[order[y]].name != kept[order[x]].name);
        }
    }
}

/// Two outcomes of a tournament that give every team the same points bring
/// every team of the season to the same points, whatever the order of the
/// teams in them.
pub proof fn lemma_team_order_is_irrelevant(
    season: SeasonRankingsView,
    one: TournamentResultView,
    other: TournamentResultView,
    bound: int,
)
    requires
        ranking_wf(season.rankings),
        ranking_bounded(season.rankings, bound),
        0 <= bound,
        bound + MAX_POINTS * one.team_placements.len() <= u32::MAX,
        bound + MAX_POINTS * other.team_placements.len() <= u32::MAX,
        forall|name: TeamName|
            points_in(one.team_placements, name) == points_in(other.team_placements, name),
    ensures
        forall|name: TeamName| #[trigger]
            total_in(season_pushed(season, one).rankings, name) == total_in(
                season_pushed(season, other).rankings,
                name,
            ),
{
    assert forall|name: TeamName| #[trigger]
        total_in(season_pushed(season, one).rankings, name) == total_in(
            season_pushed(season, other).rankings,
            name,
        ) by {
        lemma_season_points_add_up(season, one, bound, name);
        lemma_season_points_add_up(season, other, bound, name);
    }
}

/// Whether the season at `i` has a lower number than the season at `j`.
pub open spec fn lower_number(seasons: Seq<SeasonRankingsView>) -> spec_fn(int, int) -> bool {
    |i: int, j: int| seasons[i].season_num < seasons[j].season_num
}

/// Whether no tournament comes before an earlier one of the list.
pub fn is_chronological(results: &Vec<TournamentResult>) -> (r: bool)
    ensures
        r == chronological(result_views(results@)),
{
    let ghost views = result_views(results@);
    if results.len() == 0 {
        return true;
    }
    let mut i: usize = 0;
    while i + 1 < results.len()
        invariant
            i < results@.len(),
            views == result_views(results@),
            forall|x: int, y: int|
                0 <= x < y <= i ==> (#[trigger] views[x]).date.not_after((#[trigger] views[y]).date),
        decreases results.len() - i,
    {
        assert(views[i as int].date == results@[i as int].date);
        assert(views[i + 1].date == results@[i + 1].date);
        if results[i + 1].date.is_before(&results[i].date) {
            assert(!views[i as int].date.not_after(views[i + 1].date));
            return false;
        }
        proof {
            assert forall|x: int, y: int| 0 <= x < y <= i + 1 implies (#[trigger] views[x]).date.not_after(
                (#[trigger] views[y]).date,
            ) by {
                if y == i + 1 && x < i {
                    assert(views[x].date.not_after(views[i as int].date));
                    lemma_earlier_is_strict_order(
                        views[x].date,
                        views[i as int].date,
                        views[i + 1].date,
                    );
                }
            }
        }
        i += 1;
    }
    true
}

impl TournamentResult {
    /// Whether the teams are the standings of a tournament: no team is
    /// there twice, and the teams carry the ranks 1, 2, 3 and so on.
    pub fn has_sound_standings(&self) -> (r: bool)
        ensures
            r == is_standings(self@.team_placements),
    {
        let ghost standings = self@.team_placements;
        let n = self.team_placements.len();
        let mut j: usize = 0;
        while j < n
            invariant
                j <= n,
                n == self.team_placements@.len(),
                standings == self@.team_placements,
                forall|x: int, y: int|
                    0 <= x < y < j ==> (#[trigger] standings[x]).team.name != (
                    #[trigger] standings[y]).team.name,
            decreases n - j,
        {
            let mut i: usize = 0;
            while i < j
                invariant
                    i <= j,
                    j < n,
                    n == self.team_placements@.len(),
                    standings == self@.team_placements,
                    forall|x: int| 0 <= x < i ==> (#[trigger] standings[x]).team.name != standings[j as int].team.name,
                decreases j - i,
            {
                assert(standings[i as int] == self.team_placements@[i as int]@);
                assert(standings[j as int] == self.team_placements@[j as int]@);
                if self.team_placements[i].team.name == self.team_placements[j].team.name {
                    return false;
                }
                i += 1;
            }
            j += 1;
        }
        assert(names_distinct(standings));
        proof {
            let names = Seq::new(standings.len(), |k: int| standings[k].team.name);
            lemma_distinct_names_are_few(names);
        }
        let mut k: usize = 0;
        while k < n
            invariant
                k <= n,
                n == self.team_placements@.len(),
                n <= TEAM_COUNT,
                standings == self@.team_placements,
                names_distinct(standings),
                forall|x: int|
                    0 <= x < k ==> (#[trigger] standings[x]).placement == Some((x + 1) as u8),
            decreases n - k,
        {
            assert(standings[k as int] == self.team_placements@[k as int]@);
            match self.team_placements[k].placement {
                Some(rank) => {
                    if rank != (k + 1) as u8 {
                        return false;
                    }
                },
                None => {
                    return false;
                },
            }
            k += 1;
        }
        true
    }
}

/// Gives the teams of a tournament the ranking points of their ranks.
fn award_standings(
    list: &mut Vec<RankedTeam>,
    result: &TournamentResult,
    played: usize,
    Ghost(bound): Ghost<int>,
)
    requires
        ranking_wf(ranked_views(old(list)@)),
        ranking_bounded(ranked_views(old(list)@), bound),
        0 <= bound,
        bound + MAX_POINTS * result@.team_placements.len() <= u32::MAX,
        all_ranked(result@.team_placements),
    ensures
        ranked_views(final(list)@) == awarded_all(
            ranked_views(old(list)@),
            result@.team_placements,
            played as nat,
        ),
        ranking_wf(ranked_views(final(list)@)),
        ranking_bounded(
            ranked_views(final(list)@),
            bound + MAX_POINTS * result@.team_placements.len(),
        ),
{
    let ghost standings = result@.team_placements;
    let mut i: usize = 0;
    while i < result.team_placements.len()
        invariant
            i <= result.team_placements@.len(),
            standings == result@.team_placements,
            standings.len() == result.team_placements@.len(),
            all_ranked(standings),
            0 <= bound,
            bound + MAX_POINTS * standings.len() <= u32::MAX,
            ranked_views(list@) == awarded_all(
                ranked_views(old(list)@),
                standings.take(i as int),
                played as nat,
            ),
            ranking_wf(ranked_views(list@)),
            ranking_bounded(ranked_views(list@), bound + MAX_POINTS * i),
        decreases result.team_placements.len() - i,
    {
        let tp = &result.team_placements[i];
        proof {
            assert(standings.take(i + 1).drop_last() =~= standings.take(i as int));
            assert(standings[i as int] == tp@);
            assert(MAX_POINTS * (i + 1) <= MAX_POINTS * standings.len()) by (nonlinear_arith)
                requires
                    i + 1 <= standings.len(),
            ;
        }
        let rank = match tp.placement {
            Some(rank) => rank,
            None => 1,
        };
        award(list, tp.team.name, ranking_points_of(rank), played, Ghost(bound + MAX_POINTS * i));
        i += 1;
    }
    assert(standings.take(i as int) =~= standings);
}

/// The places of the ranking from the most ranking points to the fewest.
fn order_by_points(list: &Vec<RankedTeam>) -> (order: Vec<usize>)
    requires
        ranking_wf(ranked_views(list@)),
    ensures
        indices(order@) == order_of(list@.len(), more_points(ranked_views(list@))),
        is_permutation(indices(order@), list@.len()),
{
    let ghost views = ranked_views(list@);
    let ghost before = more_points(views);
    let mut order: Vec<usize> = Vec::new();
    let mut i: usize = 0;
    while i < list.len()
        invariant
            i <= list.len(),
            views == ranked_views(list@),
            ranking_wf(views),
            before == more_points(views),
            is_permutation(indices(order@), i as nat),
            indices(order@) == order_of(i as nat, before),
        decreases list.len() - i,
    {
        let mut p: usize = order.len();
        let ghost r = indices(order@);
        assert(r.take(p as int) =~= r);
        let mut moving = true;
        while p > 0 && moving
            invariant
                p <= order.len(),
                i < list.len(),
                views == ranked_views(list@),
                ranking_wf(views),
                r == indices(order@),
                before == more_points(views),
                is_permutation(r, i as nat),
                moving ==> slot(r, i as int, before) == slot(r.take(p as int), i as int, before),
                !moving ==> slot(r, i as int, before) == p,
            decreases p + if moving {
                1int
            } else {
                0int
            },
        {
            assert(r[p - 1] == order@[p - 1]);
            assert(r.take(p as int).last() == r[p - 1]);
            let mine = &list[i].ranking_points;
            let theirs = &list[order[p - 1]].ranking_points;
            assert(views[i as int].ranking_points.len() > 0);
            assert(views[r[p - 1]].ranking_points.len() > 0);
            let first = mine[mine.len() - 1] > theirs[theirs.len() - 1];
            assert(first == before(i as int, r[p - 1]));
            if first {
                assert(r.take(p as int).drop_last() =~= r.take(p - 1));
                p = p - 1;
            } else {
                moving = false;
            }
        }
        order.insert(p, i);
        proof {
            assert(indices(order@) =~= r.insert(p as int, i as int));
            lemma_order_is_permutation((i + 1) as nat, before);
        }
        i += 1;
    }
    order
}

/// Puts the ranking in order and gives each team its new rank.
fn rerank(list: Vec<RankedTeam>, Ghost(bound): Ghost<int>) -> (r: Vec<RankedTeam>)
    requires
        ranking_wf(ranked_views(list@)),
        ranking_bounded(ranked_views(list@), bound),
    ensures
        ranked_views(r@) == reranked(ranked_views(list@)),
        ranking_wf(ranked_views(r@)),
        ranking_bounded(ranked_views(r@), bound),
{
    let ghost views = ranked_views(list@);
    proof {
        let names = Seq::new(views.len(), |k: int| views[k].name);
        lemma_distinct_names_are_few(names);
    }
    let order = order_by_points(&list);
    let ghost sorted = indices(order@);
    let ghost goal = reranked(views);
    let mut r = permuted(list, &order);
    let mut k: usize = 0;
    while k < r.len()
        invariant
            k <= r@.len(),
            r@.len() == views.len(),
            views.len() <= TEAM_COUNT,
            sorted == order_of(views.len(), more_points(views)),
            is_permutation(sorted, views.len()),
            goal == reranked(views),
            forall|j: int| 0 <= j < k ==> (#[trigger] r@[j])@ == goal[j],
            forall|j: int| k <= j < r@.len() ==> (#[trigger] r@[j])@ == views[sorted[j]],
        decreases r.len() - k,
    {
        let entry = &mut r[k];
        entry.ranks.push((k + 1) as u8);
        k += 1;
    }
    proof {
        let after = ranked_views(r@);
        assert(after =~= goal);
        assert forall|x: int, y: int| 0 <= x < y < after.len() implies (#[trigger] after[x]).name != (
        #[trigger] after[y]).name by {
            assert(sorted[x] != sorted[y]);
            if sorted[x] < sorted[y] {
                assert(views[sorted[x]].name != views[sorted[y]].name);
            } else {
                assert(views[sorted[y]].name != views[sorted[x]].name);
            }
        }
        assert forall|i: int| 0 <= i < after.len() implies (
        #[trigger] after[i]).ranking_points.len() > 0 by {
            assert(views[sorted[i]].ranking_points.len() > 0);
        }
        assert forall|i: int| 0 <= i < after.len() implies total_of(#[trigger] after[i])
            <= bound by {
            assert(total_of(views[sorted[i]]) <= bound);
        }
    }
    r
}

/// Whether `name` is one of the teams of the result.
fn plays(result: &TournamentResult, name: TeamName) -> (r: bool)
    ensures
        r == plays_in(result@.team_placements, name),
{
    let ghost standings = result@.team_placements;
    let mut k: usize = 0;
    while k < result.team_placements.len()
        invariant
            k <= result.team_placements@.len(),
            standings == result@.team_placements,
            forall|j: int| 0 <= j < k ==> (#[trigger] standings[j]).team.name != name,
        decreases result.team_placements.len() - k,
    {
        assert(standings[k as int] == result.team_placements@[k as int]@);
        if result.team_placements[k].team.name == name {
            return true;
        }
        k += 1;
    }
    false
}

/// Gives each team that is not in the result the total it had once more.
fn carry_forward(list: &mut Vec<RankedTeam>, result: &TournamentResult)
    requires
        ranking_wf(ranked_views(old(list)@)),
    ensures
        ranked_views(final(list)@) == carried(ranked_views(old(list)@), result@.team_placements),
{
    let ghost before = ranked_views(list@);
    let ghost goal = carried(before, result@.team_placements);
    let mut i: usize = 0;
    while i < list.len()
        invariant
            i <= list@.len(),
            list@.len() == before.len(),
            ranking_wf(before),
            goal == carried(before, result@.team_placements),
            forall|j: int| 0 <= j < i ==> (#[trigger] list@[j])@ == goal[j],
            forall|j: int| i <= j < list@.len() ==> (#[trigger] list@[j])@ == before[j],
        decreases list.len() - i,
    {
        assert(list@[i as int]@ == before[i as int]);
        assert(before[i as int].ranking_points.len() > 0);
        if !plays(result, list[i].name) {
            let entry = &mut list[i];
            let total = entry.ranking_points[entry.ranking_points.len() - 1];
            entry.ranking_points.push(total);
        }
        i += 1;
    }
    assert(ranked_views(list@) =~= goal);
}

/// Whether the name at `i` comes before the name at `j` in the order of the
/// dictionary.
pub open spec fn name_before(names: Seq<Seq<char>>) -> spec_fn(int, int) -> bool {
    |i: int, j: int| comes_before(names[i], names[j])
}

/// The places of the names in the order of the dictionary.
fn order_names(names: &Vec<String>) -> (order: Vec<usize>)
    ensures
        indices(order@) == order_of(names@.len(), name_before(name_views(names@))),
        is_permutation(indices(order@), names@.len()),
{
    let ghost views = name_views(names@);
    let ghost before = name_before(views);
    let mut chars: Vec<Vec<char>> = Vec::new();
    let mut n: usize = 0;
    while n < names.len()
        invariant
            n <= names.len(),
            chars@.len() == n,
            views == name_views(names@),
            forall|k: int| 0 <= k < n ==> (#[trigger] chars@[k])@ == views[k],
        decreases names.len() - n,
    {
        chars.push(chars_of(names[n].as_str()));
        n += 1;
    }
    let mut order: Vec<usize> = Vec::new();
    let mut i: usize = 0;
    while i < names.len()
        invariant
            i <= names.len(),
            chars@.len() == names@.len(),
            views == name_views(names@),
            forall|k: int| 0 <= k < chars@.len() ==> (#[trigger] chars@[k])@ == views[k],
            before == name_before(views),
            is_permutation(indices(order@), i as nat),
            indices(order@) == order_of(i as nat, before),
        decreases names.len() - i,
    {
        let mut p: usize = order.len();
        let ghost r = indices(order@);
        assert(r.take(p as int) =~= r);
        let mut moving = true;
        while p > 0 && moving
            invariant
                p <= order.len(),
                i < names.len(),
                chars@.len() == names@.len(),
                views == name_views(names@),
                forall|k: int| 0 <= k < chars@.len() ==> (#[trigger] chars@[k])@ == views[k],
                r == indices(order@),
                before == name_before(views),
                is_permutation(r, i as nat),
                moving ==> slot(r, i as int, before) == slot(r.take(p as int), i as int, before),
                !moving ==> slot(r, i as int, before) == p,
            decreases p + if moving {
                1int
            } else {
                0int
            },
        {
            assert(r[p - 1] == order@[p - 1]);
            assert(r.take(p as int).last() == r[p - 1]);
            let first = is_less(&chars[i], &chars[order[p - 1]]);
            assert(first == before(i as int, r[p - 1]));
            if first {
                assert(r.take(p as int).drop_last() =~= r.take(p - 1));
                p = p - 1;
            } else {
                moving = false;
            }
        }
        order.insert(p, i);
        proof {
            assert(indices(order@) =~= r.insert(p as int, i as int));
            lemma_order_is_permutation((i + 1) as nat, before);
        }
        i += 1;
    }
    order
}

impl SeasonRankings {
    /// Puts the names of the season's tournaments in the order of the
    /// dictionary.
    pub fn sort_tournaments(&mut self)
        ensures
            final(self)@ == (SeasonRankingsView {
                tournaments: arranged(
                    old(self)@.tournaments,
                    order_of(
                        old(self)@.tournaments.len(),
                        name_before(old(self)@.tournaments),
                    ),
                ),
                ..old(self)@
            }),
    {
        let order = order_names(&self.tournaments);
        let mut names: Vec<String> = Vec::new();
        core::mem::swap(&mut names, &mut self.tournaments);
        self.tournaments = permuted(names, &order);
        assert(name_views(self.tournaments@) =~= arranged(
            old(self)@.tournaments,
            indices(order@),
        ));
    }

    /// Takes one more tournament into the season's ranking.
    fn add_result(&mut self, result: &TournamentResult, Ghost(bound): Ghost<int>)
        requires
            season_wf(old(self)@),
            ranking_bounded(old(self)@.rankings, bound),
            0 <= bound,
            bound + MAX_POINTS * result@.team_placements.len() <= u32::MAX,
            is_standings(result@.team_placements),
        ensures
            final(self)@ == season_pushed(old(self)@, result@),
            season_wf(final(self)@),
            ranking_bounded(
                final(self)@.rankings,
                bound + MAX_POINTS * result@.team_placements.len(),
            ),
    {
        proof {
            lemma_standings_are_few(result@.team_placements);
            lemma_season_stays_aligned(old(self)@, result@, bound);
        }
        let played = self.tournaments.len();
        self.tournaments.push(result.tournament_name.clone());
        assert(name_views(self.tournaments@) =~= name_views(old(self).tournaments@).push(
            result.tournament_name@,
        ));
        let mut list: Vec<RankedTeam> = Vec::new();
        core::mem::swap(&mut list, &mut self.rankings);
        award_standings(&mut list, result, played, Ghost(bound));
        proof {
            lemma_carried_total(ranked_views(list@), result@.team_placements, TeamName::Unknown);
        }
        carry_forward(&mut list, result);
        self.rankings = rerank(
            list,
            Ghost(bound + MAX_POINTS * result@.team_placements.len()),
        );
    }
}

impl Seasons {
    /// The most tournaments that can go into the rankings: with more, a
    /// team's ranking points could outgrow their field.
    pub const MAX_RESULTS: usize = 220_000;

    fn new() -> (s: Self)
        ensures
            s@ == Seq::<SeasonRankingsView>::empty(),
    {
        let s = Seasons { seasons: Vec::new() };
        assert(s@ =~= Seq::<SeasonRankingsView>::empty());
        s
    }

    /// The place of the season with the number `num`.
    fn find_season(&self, num: u8) -> (r: Option<usize>)
        ensures
            match r {
                Some(i) => is_season_at(self@, num, i as int) && season_at(self@, num) == i,
                None => !has_season(self@, num),
            },
    {
        let mut i: usize = 0;
        while i < self.seasons.len()
            invariant
                i <= self.seasons@.len(),
                forall|j: int| 0 <= j < i ==> self@[j].season_num != num,
            decreases self.seasons.len() - i,
        {
            if self.seasons[i].season_num == num {
                assert(self@[i as int].season_num == num);
                assert(is_season_at(self@, num, i as int));
                return Some(i);
            }
            i += 1;
        }
        None
    }

    /// Takes one more tournament into the rankings.
    fn push(&mut self, result: &TournamentResult, Ghost(bound): Ghost<int>)
        requires
            seasons_wf(old(self)@),
            seasons_bounded(old(self)@, bound),
            0 <= bound,
            bound + MAX_POINTS * result@.team_placements.len() <= u32::MAX,
            is_standings(result@.team_placements),
        ensures
            final(self)@ == pushed(old(self)@, result@),
            seasons_wf(final(self)@),
            seasons_bounded(final(self)@, bound + MAX_POINTS * result@.team_placements.len()),
    {
        let ghost before = self@;
        let place = match self.find_season(result.season_num) {
            Some(i) => i,
            None => {
                self.seasons.push(
                    SeasonRankings {
                        date: result.date,
                        season_num: result.season_num,
                        rankings: Vec::new(),
                        tournaments: Vec::new(),
                    },
                );
                proof {
                    let added = self.seasons@[self.seasons@.len() - 1]@;
                    assert(added.rankings =~= Seq::<RankedTeamView>::empty());
                    assert(added.tournaments =~= Seq::<Seq<char>>::empty());
                    assert(added == new_season(result@));
                    assert(self@ =~= before.push(new_season(result@)));
                }
                self.seasons.len() - 1
            },
        };
        let ghost middle = self@;
        assert(season_wf(middle[place as int]));
        assert(ranking_bounded(middle[place as int].rankings, bound));
        let season = &mut self.seasons[place];
        season.add_result(result, Ghost(bound));
        proof {
            let after = self@;
            assert(after =~= middle.update(place as int, season_pushed(middle[place as int], result@)));
            assert(after =~= pushed(before, result@));
            assert forall|i: int| 0 <= i < after.len() implies season_wf(#[trigger] after[i]) by {
                if i != place {
                    assert(after[i] == middle[i]);
                    assert(season_wf(before[i]));
                }
            }
            assert forall|i: int| 0 <= i < after.len() implies ranking_bounded(
                (#[trigger] after[i]).rankings,
                bound + MAX_POINTS * result@.team_placements.len(),
            ) by {
                if i != place {
                    assert(after[i] == middle[i]);
                    assert(ranking_bounded(before[i].rankings, bound));
                    assert forall|k: int| 0 <= k < after[i].rankings.len() implies total_of(
                        #[trigger] after[i].rankings[k],
                    ) <= bound + MAX_POINTS * result@.team_placements.len() by {
                        assert(total_of(before[i].rankings[k]) <= bound);
                    }
                }
            }
        }
    }

    /// Whether the rankings can be made from these tournaments: they are no
    /// more than `MAX_RESULTS`, in the order of their dates, and each has
    /// sound standings.
    pub open spec fn accepts(results: Seq<TournamentResultView>) -> bool {
        &&& results.len() <= Self::MAX_RESULTS
        &&& chronological(results)
        &&& forall|i: int| 0 <= i < results.len() ==> is_standings(
            (#[trigger] results[i]).team_placements,
        )
    }

    /// The rankings of all seasons after the given tournaments, if the
    /// rankings can be made from them: not from tournaments out of the order
    /// of their dates.
    pub fn checked_from(tourny_results: Vec<TournamentResult>) -> (r: Option<Seasons>)
        ensures
            r is Some <==> Self::accepts(result_views(tourny_results@)),
            r is Some ==> r->0@ == pushed_all(result_views(tourny_results@)) && seasons_wf(r->0@),
    {
        let ghost results = result_views(tourny_results@);
        if tourny_results.len() > Self::MAX_RESULTS {
            return None;
        }
        if !is_chronological(&tourny_results) {
            return None;
        }
        let mut i: usize = 0;
        while i < tourny_results.len()
            invariant
                i <= tourny_results@.len(),
                results == result_views(tourny_results@),
                forall|k: int| 0 <= k < i ==> is_standings((#[trigger] results[k]).team_placements),
            decreases tourny_results.len() - i,
        {
            assert(results[i as int] == tourny_results@[i as int]@);
            if !tourny_results[i].has_sound_standings() {
                return None;
            }
            i += 1;
        }
        Some(Seasons::from(tourny_results))
    }

    /// Puts the seasons in the order of their numbers; seasons of the same
    /// number keep their order.
    pub fn sort_by_number(&mut self)
        ensures
            final(self)@ == arranged(
                old(self)@,
                order_of(old(self)@.len(), lower_number(old(self)@)),
            ),
    {
        let ghost before = self@;
        let mut keys: Vec<u128> = Vec::new();
        let mut i: usize = 0;
        while i < self.seasons.len()
            invariant
                i <= self.seasons@.len(),
                before == self@,
                self.seasons == old(self).seasons,
                keys@.len() == i,
                forall|k: int| 0 <= k < i ==> keys@[k] == before[k].season_num,
            decreases self.seasons.len() - i,
        {
            assert(before[i as int] == self.seasons@[i as int]@);
            keys.push(self.seasons[i].season_num as u128);
            i += 1;
        }
        let order = order_by_key(&keys);
        proof {
            lemma_order_agrees(before.len(), smaller_key(keys@), lower_number(before));
        }
        let mut list: Vec<SeasonRankings> = Vec::new();
        core::mem::swap(&mut list, &mut self.seasons);
        self.seasons = permuted(list, &order);
        assert(self@ =~= arranged(before, indices(order@)));
    }

    /// The rankings of all seasons after the given tournaments, which come
    /// in the order of their dates.
    pub fn from(tourny_results: Vec<TournamentResult>) -> (s: Seasons)
        requires
            Self::accepts(result_views(tourny_results@)),
        ensures
            s@ == pushed_all(result_views(tourny_results@)),
            seasons_wf(s@),
    {
        let ghost results = result_views(tourny_results@);
        let mut seasons = Seasons::new();
        let mut i: usize = 0;
        while i < tourny_results.len()
            invariant
                i <= tourny_results@.len(),
                results == result_views(tourny_results@),
                Self::accepts(results),
                seasons@ == pushed_all(results.take(i as int)),
                seasons_wf(seasons@),
                seasons_bounded(seasons@, MAX_POINTS * TEAM_COUNT * i),
            decreases tourny_results.len() - i,
        {
            let result = &tourny_results[i];
            proof {
                assert(results.take(i + 1).drop_last() =~= results.take(i as int));
                assert(results[i as int] == result@);
                lemma_standings_are_few(result@.team_placements);
                assert(MAX_POINTS * TEAM_COUNT * i + MAX_POINTS * result@.team_placements.len()
                    <= MAX_POINTS * TEAM_COUNT * (i + 1)) by (nonlinear_arith)
                    requires
                        result@.team_placements.len() <= TEAM_COUNT,
                        MAX_POINTS == 1500,
                        TEAM_COUNT == 13,
                ;
                assert(MAX_POINTS * TEAM_COUNT * (i + 1) <= u32::MAX) by (nonlinear_arith)
                    requires
                        i + 1 <= 220_000,
                        MAX_POINTS == 1500,
                        TEAM_COUNT == 13,
                ;
            }
            seasons.push(result, Ghost(MAX_POINTS * TEAM_COUNT * i));
            proof {
                let after = seasons@;
                assert forall|s: int| 0 <= s < after.len() implies ranking_bounded(
                    (#[trigger] after[s]).rankings,
                    MAX_POINTS * TEAM_COUNT * (i + 1),
                ) by {
                    assert(ranking_bounded(
                        after[s].rankings,
                        MAX_POINTS * TEAM_COUNT * i + MAX_POINTS * result@.team_placements.len(),
                    ));
                    assert forall|k: int| 0 <= k < after[s].rankings.len() implies total_of(
                        #[trigger] after[s].rankings[k],
                    ) <= MAX_POINTS * TEAM_COUNT * (i + 1) by {
                        assert(total_of(after[s].rankings[k]) <= MAX_POINTS * TEAM_COUNT * i
                            + MAX_POINTS * result@.team_placements.len());
                    }
                }
            }
            i += 1;
        }
        assert(results.take(i as int) =~= results);
        seasons
    }
}

} // verus!
