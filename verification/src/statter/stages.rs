use vstd::prelude::*;

verus! {

/// The largest power of two that is not above `t`, for `t` of at least 1.
pub open spec fn pow2_floor(t: int) -> int
    decreases t,
{
    if t <= 1 {
        1
    } else {
        2 * pow2_floor(t / 2)
    }
}

/// The number of fixtures in the first stage of a winners bracket of `t`
/// teams: what `t` has above the largest power of two below it, or half of
/// `t` where `t` is itself a power of two.
pub open spec fn first_stage_size(t: int) -> int {
    if t - pow2_floor(t) == 0 {
        t / 2
    } else {
        t - pow2_floor(t)
    }
}

/// The rank given by fixture `j`, counted from the start of a stage that
/// gives the rank `label` and still has `quota` fixtures. The stage after
/// it starts with `next` teams, half of which go out in it.
pub open spec fn stage_rank(label: int, next: int, quota: int, j: int) -> int
    decreases j,
{
    if quota <= 0 || j < quota {
        label
    } else {
        stage_rank(next, next - next / 2, next / 2, j - quota)
    }
}

/// The rank that fixture `i` of a winners bracket of `t` teams gives to both
/// of its teams: the number of teams that the fixture's stage started with.
pub open spec fn winners_rank(t: int, i: int) -> int {
    stage_rank(t, t - first_stage_size(t), first_stage_size(t), i)
}

/// The largest power of two that is not above `t` lies between 1 and `t`.
pub proof fn lemma_pow2_floor_bounds(t: int)
    requires
        t >= 1,
    ensures
        1 <= pow2_floor(t) <= t,
    decreases t,
{
    if t > 1 {
        lemma_pow2_floor_bounds(t / 2);
    }
}

/// In a run of stages that starts with `label` teams and ends with a final,
/// every fixture gives a rank from 2 to `label`, and every fixture before
/// the last a rank of at least 3.
pub proof fn lemma_stage_rank_bounds(label: int, quota: int, j: int)
    requires
        0 <= j <= label - 2,
        0 <= quota <= label,
    ensures
        2 <= stage_rank(label, label - quota, quota, j) <= label,
        j < label - 2 ==> 3 <= stage_rank(label, label - quota, quota, j),
    decreases j,
{
    if !(quota <= 0 || j < quota) {
        let next = label - quota;
        lemma_stage_rank_bounds(next, next / 2, j - quota);
    }
}

/// Every fixture of a winners bracket of `t` teams gives a rank from 2 to
/// `t`, and every fixture before the final a rank of at least 3.
pub proof fn lemma_winners_rank_bounds(t: int, i: int)
    requires
        t >= 2,
        0 <= i <= t - 2,
    ensures
        2 <= winners_rank(t, i) <= t,
        i < t - 2 ==> 3 <= winners_rank(t, i),
{
    lemma_pow2_floor_bounds(t);
    lemma_stage_rank_bounds(t, first_stage_size(t), i);
}

/// The step of the losers bracket's progression after `step`: twice as
/// large (from nothing, 1) if `doubling`, else the same.
pub open spec fn grown_step(step: int, doubling: bool) -> int {
    if !doubling {
        step
    } else if 2 * step > 1 {
        2 * step
    } else {
        1
    }
}

/// How far `c` is below `n`, 0 if it is not.
pub open spec fn gap(c: int, n: int) -> int {
    if c < n {
        n - c
    } else {
        0
    }
}

/// Whether `n` is met by the numbers that start at `c` and grow by a step
/// that starts at `step` and doubles before every other addition, the next
/// one if `doubling`.
pub open spec fn in_progression(c: int, step: int, doubling: bool, n: int) -> bool
    decreases gap(c, n),
{
    if c >= n {
        c == n
    } else if grown_step(step, doubling) <= 0 {
        false
    } else {
        in_progression(c + grown_step(step, doubling), grown_step(step, doubling), !doubling, n)
    }
}

/// Whether a stage of the losers bracket ends with `n` teams left: these
/// numbers are 2, 3, 4, 6, 8, 12, 16, 24 and so on.
pub open spec fn is_losers_cutoff(n: int) -> bool {
    in_progression(2, 0, true, n)
}

/// The smallest number from `n` up at which a stage of the losers bracket of
/// `t` teams ends, `t` itself included.
pub open spec fn stage_ceiling(t: int, n: int) -> int
    decreases t - n,
{
    if n >= t {
        t
    } else if is_losers_cutoff(n) {
        n
    } else {
        stage_ceiling(t, n + 1)
    }
}

/// The rank that fixture `i` of a losers bracket of `t` teams gives to both
/// of its teams. Each fixture puts one team out; the rank is the number of
/// teams that the fixture's stage started with.
pub open spec fn losers_rank(t: int, i: int) -> int {
    stage_ceiling(t, t - i)
}

fn largest_power_below(t: u8) -> (p: u8)
    requires
        t >= 1,
    ensures
        p == pow2_floor(t as int),
        1 <= p <= t,
    decreases t,
{
    if t <= 1 {
        1
    } else {
        2 * largest_power_below(t / 2)
    }
}

/// The ranks that the fixtures of a winners bracket of `teams` teams give,
/// in the order of the fixtures: one for each of its `teams - 1` fixtures.
pub fn winners_stage_ranks(teams: u8) -> (ranks: Vec<u8>)
    ensures
        ranks@.len() == if teams >= 1 {
            teams - 1
        } else {
            0
        },
        forall|i: int| 0 <= i < ranks@.len() ==> ranks@[i] == winners_rank(teams as int, i),
{
    let mut ranks: Vec<u8> = Vec::new();
    if teams == 0 {
        return ranks;
    }
    let power = largest_power_below(teams);
    let mut quota: u8 = teams - power;
    if quota == 0 {
        quota = teams / 2;
    }
    let mut label: u8 = teams;
    let mut next: u8 = teams - quota;
    let mut i: u8 = 0;
    while i < teams - 1
        invariant
            teams >= 1,
            i <= teams - 1,
            ranks@.len() == i,
            next <= label,
            forall|k: int| 0 <= k < i ==> ranks@[k] == winners_rank(teams as int, k),
            forall|j: int|
                0 <= j ==> #[trigger] winners_rank(teams as int, i + j) == stage_rank(
                    label as int,
                    next as int,
                    quota as int,
                    j,
                ),
        decreases teams - 1 - i,
    {
        assert(winners_rank(teams as int, i + 0) == stage_rank(
            label as int,
            next as int,
            quota as int,
            0,
        ));
        ranks.push(label);
        let ghost old_label = label as int;
        let ghost old_next = next as int;
        let ghost old_quota = quota as int;
        if quota > 0 {
            quota = quota - 1;
            if quota == 0 {
                label = next;
                quota = next / 2;
                next = next - quota;
            }
        }
        assert forall|j: int| 0 <= j implies #[trigger] winners_rank(teams as int, i + 1 + j)
            == stage_rank(label as int, next as int, quota as int, j) by {
            assert(winners_rank(teams as int, i + (j + 1)) == stage_rank(
                old_label,
                old_next,
                old_quota,
                j + 1,
            ));
        }
        i = i + 1;
    }
    ranks
}

/// Whether a stage of the losers bracket ends with `n` teams left.
pub fn ends_losers_stage(n: u8) -> (r: bool)
    ensures
        r == is_losers_cutoff(n as int),
{
    let mut c: u16 = 2;
    let mut step: u16 = 0;
    let mut doubling = true;
    while c < n as u16
        invariant
            2 <= c <= 510,
            doubling ==> 2 * step <= c,
            !doubling ==> 1 <= step <= c,
            in_progression(c as int, step as int, doubling, n as int) == is_losers_cutoff(
                n as int,
            ),
        decreases gap(c as int, n as int),
    {
        if doubling {
            step = if 2 * step > 1 {
                2 * step
            } else {
                1
            };
        }
        c = c + step;
        doubling = !doubling;
    }
    c == n as u16
}

/// The ranks that the fixtures of a losers bracket of `teams` teams give, in
/// the order of the fixtures: one for each of its `teams - 2` fixtures.
pub fn losers_stage_ranks(teams: u8) -> (ranks: Vec<u8>)
    ensures
        ranks@.len() == if teams >= 2 {
            teams - 2
        } else {
            0
        },
        forall|i: int| 0 <= i < ranks@.len() ==> ranks@[i] == losers_rank(teams as int, i),
{
    let mut ranks: Vec<u8> = Vec::new();
    if teams < 2 {
        return ranks;
    }
    let mut label: u8 = teams;
    let mut i: u8 = 0;
    while i < teams - 2
        invariant
            teams >= 2,
            i <= teams - 2,
            ranks@.len() == i,
            forall|k: int| 0 <= k < i ==> ranks@[k] == losers_rank(teams as int, k),
            label == stage_ceiling(teams as int, teams - i),
        decreases teams - 2 - i,
    {
        ranks.push(label);
        i = i + 1;
        let left: u8 = teams - i;
        if ends_losers_stage(left) {
            label = left;
        }
    }
    ranks
}

} // verus!
