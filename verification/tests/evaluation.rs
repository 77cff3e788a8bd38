use evaluator::evaluation::{evaluate, FIRST_EMPTY_RANK, MAX_AWARD};

#[test]
fn first_place_on_a_full_board_earns_the_maximum() {
    assert_eq!(evaluate(1, 20), 1000);
    assert_eq!(evaluate(1, 20), MAX_AWARD);
}

#[test]
fn a_span_of_ranks_thirds_the_award() {
    assert_eq!(evaluate(26, 20), 333);
    assert_eq!(evaluate(51, 20), 111);
    assert_eq!(evaluate(76, 20), 37);
}

#[test]
fn first_place_on_a_half_board_earns_half() {
    assert_eq!(evaluate(1, 10), 500);
}

#[test]
fn the_second_and_third_ranks_decay_by_the_root() {
    // 1000 * 3^(-1/25) = 957.007..., 1000 * 3^(-2/25) = 915.86...
    assert_eq!(evaluate(2, 20), 957);
    assert_eq!(evaluate(3, 20), 915);
    assert_eq!(evaluate(2, 3), 143);
    assert_eq!(evaluate(3, 3), 137);
}

#[test]
fn boards_beyond_full_earn_no_more() {
    assert_eq!(evaluate(1, 21), 1000);
    assert_eq!(evaluate(1, u64::MAX), 1000);
    assert_eq!(evaluate(26, 1_000_000), 333);
}

#[test]
fn an_empty_board_earns_nothing() {
    assert_eq!(evaluate(1, 0), 0);
    assert_eq!(evaluate(7, 0), 0);
}

#[test]
fn the_award_never_rises_with_the_rank() {
    let mut previous = evaluate(1, 20);
    for rank in 2..400u64 {
        let award = evaluate(rank, 20);
        assert!(award <= previous);
        previous = award;
    }
}

#[test]
fn the_award_vanishes_at_the_first_empty_rank() {
    assert_eq!(evaluate(FIRST_EMPTY_RANK - 1, 20), 1);
    assert_eq!(evaluate(FIRST_EMPTY_RANK, 20), 0);
    assert_eq!(evaluate(u64::MAX, 20), 0);
}

#[test]
fn small_boards_scale_the_award() {
    for total in 0..=20u64 {
        assert_eq!(evaluate(1, total), 50 * total as u32);
    }
}
