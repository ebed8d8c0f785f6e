use multitool::statter::stages::{ends_losers_stage, losers_stage_ranks, winners_stage_ranks};

#[test]
fn winners_ranks_of_a_power_of_two() {
    assert_eq!(winners_stage_ranks(2), vec![2]);
    assert_eq!(winners_stage_ranks(4), vec![4, 4, 2]);
    assert_eq!(winners_stage_ranks(8), vec![8, 8, 8, 8, 4, 4, 2]);
    let sixteen = winners_stage_ranks(16);
    assert_eq!(sixteen.len(), 15);
    assert_eq!(&sixteen[0..8], &[16u8; 8]);
    assert_eq!(&sixteen[8..], &[8, 8, 8, 8, 4, 4, 2]);
}

#[test]
fn winners_ranks_with_a_short_first_stage() {
    assert_eq!(winners_stage_ranks(3), vec![3, 2]);
    assert_eq!(winners_stage_ranks(5), vec![5, 4, 4, 2]);
    assert_eq!(winners_stage_ranks(6), vec![6, 6, 4, 4, 2]);
    assert_eq!(winners_stage_ranks(7), vec![7, 7, 7, 4, 4, 2]);
    assert_eq!(winners_stage_ranks(13), vec![13, 13, 13, 13, 13, 8, 8, 8, 8, 4, 4, 2]);
}

#[test]
fn winners_ranks_of_too_few_teams() {
    assert_eq!(winners_stage_ranks(0), Vec::<u8>::new());
    assert_eq!(winners_stage_ranks(1), Vec::<u8>::new());
}

#[test]
fn winners_ranks_are_one_less_than_teams() {
    for teams in 1..=255u8 {
        let ranks = winners_stage_ranks(teams);
        assert_eq!(ranks.len(), teams as usize - 1);
        if teams >= 2 {
            assert_eq!(ranks[0], teams);
            assert_eq!(ranks[ranks.len() - 1], 2);
        }
    }
}

#[test]
fn losers_stages_end_at_the_progression() {
    let cutoffs = [2u8, 3, 4, 6, 8, 12, 16, 24, 32, 48, 64, 96, 128, 192];
    for n in 0..=255u8 {
        assert_eq!(ends_losers_stage(n), cutoffs.contains(&n), "{}", n);
    }
}

#[test]
fn losers_ranks_of_small_brackets() {
    assert_eq!(losers_stage_ranks(2), Vec::<u8>::new());
    assert_eq!(losers_stage_ranks(3), vec![3]);
    assert_eq!(losers_stage_ranks(4), vec![4, 3]);
    assert_eq!(losers_stage_ranks(5), vec![5, 4, 3]);
    assert_eq!(losers_stage_ranks(8), vec![8, 8, 6, 6, 4, 3]);
    assert_eq!(losers_stage_ranks(13), vec![13, 12, 12, 12, 12, 8, 8, 6, 6, 4, 3]);
}

#[test]
fn losers_ranks_of_too_few_teams() {
    assert_eq!(losers_stage_ranks(0), Vec::<u8>::new());
    assert_eq!(losers_stage_ranks(1), Vec::<u8>::new());
}

#[test]
fn losers_ranks_of_the_largest_bracket() {
    let ranks = losers_stage_ranks(255);
    assert_eq!(ranks.len(), 253);
    assert_eq!(ranks[0], 255);
    assert_eq!(ranks[62], 255);
    assert_eq!(ranks[63], 192);
    assert_eq!(ranks[252], 3);
}
