use icm_equity::exact::{next_subproblem, open_subproblem, Subproblem};
use icm_equity::players::{active_players, child_position, full_mask, without_player};
use icm_equity::stacks::{chip_total, stack_vector};
use icm_equity::strategy::{cache_key, orient, select_strategy, Strategy};

#[test]
fn full_mask_sets_low_bits() {
    assert_eq!(full_mask(1), 1);
    assert_eq!(full_mask(3), 0b111);
    assert_eq!(full_mask(10), 0x3ff);
    assert_eq!(full_mask(64), u64::MAX);
}

#[test]
fn without_player_clears_one_bit() {
    assert_eq!(without_player(0b1011, 1), 0b1001);
    assert_eq!(without_player(0b1011, 2), 0b1011);
    assert_eq!(without_player(u64::MAX, 63), u64::MAX >> 1);
}

#[test]
fn active_players_lists_seats_and_chips() {
    let stacks = vec![5, 0, 7, 2];
    let (seats, total) = active_players(&stacks, 0b1101);
    assert_eq!(seats, vec![0, 2, 3]);
    assert_eq!(total, 14);
    let (seats, total) = active_players(&stacks, 0);
    assert!(seats.is_empty());
    assert_eq!(total, 0);
    // bits past the last player are not seats
    let (seats, _) = active_players(&stacks, 0b11_0010);
    assert_eq!(seats, vec![1]);
}

#[test]
fn remaining_players_keep_their_order() {
    let stacks = vec![4, 8, 1, 3, 9];
    let mask = 0b11011;
    let (seats, _) = active_players(&stacks, mask);
    assert_eq!(seats, vec![0, 1, 3, 4]);
    for winner in 0..seats.len() {
        let (rest, _) = active_players(&stacks, without_player(mask, seats[winner]));
        let mut expected = seats.clone();
        expected.remove(winner);
        assert_eq!(rest, expected);
        for j in 0..seats.len() {
            if j != winner {
                assert_eq!(rest[child_position(winner, j)], seats[j]);
            }
        }
    }
}

#[test]
fn child_position_skips_winner() {
    assert_eq!(child_position(2, 0), 0);
    assert_eq!(child_position(2, 1), 1);
    assert_eq!(child_position(2, 3), 2);
    assert_eq!(child_position(0, 5), 4);
}

#[test]
fn subproblem_settles_without_places_players_or_chips() {
    let stacks = vec![3, 0, 0, 6];
    assert!(matches!(open_subproblem(&stacks, 0b1111, 3, 3), Subproblem::Settled { players: 4 }));
    assert!(matches!(open_subproblem(&stacks, 0, 0, 3), Subproblem::Settled { players: 0 }));
    assert!(matches!(open_subproblem(&stacks, 0b0110, 0, 3), Subproblem::Settled { players: 2 }));
    match open_subproblem(&stacks, 0b1011, 1, 3) {
        Subproblem::Open { seats, total } => {
            assert_eq!(seats, vec![0, 1, 3]);
            assert_eq!(total, 9);
        }
        Subproblem::Settled { .. } => panic!("expected an open subproblem"),
    }
}

#[test]
fn next_subproblem_needs_a_place_and_a_player() {
    assert_eq!(next_subproblem(0b111, 1, 0, 3), Some(0b101));
    assert_eq!(next_subproblem(0b111, 1, 2, 3), None);
    assert_eq!(next_subproblem(0b100, 2, 0, 3), None);
}

#[test]
fn strategy_follows_thresholds() {
    assert!(matches!(select_strategy(0, 10), Strategy::NoPayouts));
    assert!(matches!(select_strategy(17, 10), Strategy::Estimate));
    assert!(matches!(select_strategy(3, 65), Strategy::Estimate));
    assert!(matches!(select_strategy(29, 102), Strategy::Estimate));
    assert!(matches!(select_strategy(16, 64), Strategy::Exact { mask: u64::MAX }));
    assert!(matches!(select_strategy(3, 10), Strategy::Exact { mask: 0x3ff }));
    assert!(matches!(select_strategy(3, 16), Strategy::Exact { mask: 0xffff }));
}

#[test]
fn stack_vector_puts_a_and_b_first() {
    let others: Vec<i32> = (1..9).collect();
    let all = stack_vector(9, 10, &others);
    assert_eq!(all, vec![9, 10, 1, 2, 3, 4, 5, 6, 7, 8]);
    assert_eq!(stack_vector(800, 1200, &vec![]), vec![800, 1200]);
}

#[test]
fn chip_total_sums_all_stacks() {
    assert_eq!(chip_total(&vec![]), 0);
    assert_eq!(chip_total(&vec![1000; 16]), 16000);
    assert_eq!(chip_total(&vec![i32::MAX, i32::MAX, i32::MIN]), i32::MAX as i128 - 1);
}

#[test]
fn cache_key_is_smaller_stack() {
    assert_eq!(cache_key(2000, 500), 500);
    assert_eq!(cache_key(500, 2000), 500);
    assert_eq!(cache_key(7, 7), 7);
}

#[test]
fn orient_swaps_when_a_is_deeper() {
    assert_eq!(orient(9, 10, 1.5, 2.5), (1.5, 2.5));
    assert_eq!(orient(10, 9, 1.5, 2.5), (2.5, 1.5));
    assert_eq!(orient(9, 9, 1.5, 2.5), (1.5, 2.5));
    let canonical = orient(2000, 500, 8.0, 3.0);
    assert_eq!(orient(2000, 500, canonical.0, canonical.1), (8.0, 3.0));
    assert_eq!(orient(500, 2000, canonical.0, canonical.1), (3.0, 8.0));
}
