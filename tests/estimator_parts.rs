use icm_equity::cache::EquityCache;
use icm_equity::ranking::{finishing_order, PayoutTally, MAX_ROUNDS};
use icm_equity::workers::{plan_work, split_work, ESTIMATE_ROUNDS};

#[test]
fn finishing_order_ranks_by_draw() {
    let keys = vec![5, 9, 2, 7];
    let stacks = vec![1, 1, 1, 1];
    assert_eq!(finishing_order(&keys, &stacks, 2), vec![1, 3]);
    assert_eq!(finishing_order(&keys, &stacks, 4), vec![1, 3, 0, 2]);
    assert_eq!(finishing_order(&keys, &stacks, 0), Vec::<usize>::new());
}

#[test]
fn finishing_order_breaks_ties_by_seat() {
    let keys = vec![3, 8, 8, 3, 8];
    let stacks = vec![1; 5];
    assert_eq!(finishing_order(&keys, &stacks, 5), vec![1, 2, 4, 0, 3]);
    assert_eq!(finishing_order(&keys, &stacks, 2), vec![1, 2]);
}

#[test]
fn finishing_order_skips_players_without_chips() {
    let keys = vec![100, 1, 50, 2];
    let stacks = vec![0, 10, 10, -3];
    assert_eq!(finishing_order(&keys, &stacks, 3), vec![2, 1]);
    assert_eq!(finishing_order(&keys, &vec![0; 4], 3), Vec::<usize>::new());
}

#[test]
fn finishing_order_with_more_places_than_players() {
    let keys = vec![4, 6];
    let stacks = vec![1, 1];
    assert_eq!(finishing_order(&keys, &stacks, 9), vec![1, 0]);
}

#[test]
fn tally_pays_places_in_order() {
    let payouts = vec![50, 30, 20];
    let stacks = vec![1, 1, 1, 1];
    let mut tally = PayoutTally::new(4);
    assert_eq!(tally.totals(), &vec![0, 0, 0, 0]);
    assert_eq!(tally.rounds(), 0);
    let order = tally.record(&vec![10, 40, 30, 20], &stacks, &payouts);
    assert_eq!(order, vec![1, 2, 3]);
    assert_eq!(tally.totals(), &vec![0, 50, 30, 20]);
    tally.record(&vec![40, 10, 20, 30], &stacks, &payouts);
    assert_eq!(tally.totals(), &vec![50, 50, 50, 50]);
    assert_eq!(tally.rounds(), 2);
    assert!(tally.has_room());
}

#[test]
fn tally_with_fewer_players_than_places() {
    let payouts = vec![50, 30, 20];
    let mut tally = PayoutTally::new(2);
    tally.record(&vec![1, 2], &vec![5, 5], &payouts);
    assert_eq!(tally.totals(), &vec![30, 50]);
    assert_eq!(MAX_ROUNDS, u32::MAX as u64);
}

#[test]
fn work_is_split_evenly_plus_one() {
    let split = split_work(ESTIMATE_ROUNDS, 102, 8);
    assert_eq!(split.workers, 8);
    assert_eq!(split.rounds_per_worker, 80000 * 102 / 8 + 1);
    assert_eq!(split_work(10, 3, 4).rounds_per_worker, 8);
    let planned = plan_work(10, 3);
    assert!(planned.workers >= 1);
    assert_eq!(planned.rounds_per_worker, 30 / planned.workers + 1);
}

#[test]
fn cache_returns_pairs_in_query_order() {
    let cache: EquityCache<f64> = EquityCache::new();
    assert_eq!(cache.lookup(800, 1200), None);
    cache.store(800, 1200, 4.5, 7.25);
    assert_eq!(cache.lookup(800, 1200), Some((4.5, 7.25)));
    assert_eq!(cache.lookup(1200, 800), Some((7.25, 4.5)));
    cache.store(2000, 500, 9.0, 2.0);
    assert_eq!(cache.lookup(500, 2000), Some((2.0, 9.0)));
    assert_eq!(cache.lookup(2000, 500), Some((9.0, 2.0)));
    assert_eq!(cache.lookup(600, 700), None);
}

#[test]
fn cache_ties_keep_a_first() {
    let cache: EquityCache<f64> = EquityCache::new();
    cache.store(1000, 1000, 6.0, 6.5);
    assert_eq!(cache.lookup(1000, 1000), Some((6.0, 6.5)));
}

#[test]
fn tally_hands_out_every_place_once() {
    let payouts = vec![200, 100, 80, 50];
    let stacks = vec![3; 6];
    let mut tally = PayoutTally::new(6);
    tally.record(&vec![7, 3, 9, 1, 5, 8], &stacks, &payouts);
    tally.record(&vec![2, 2, 2, 2, 2, 2], &stacks, &payouts);
    let handed_out: i64 = tally.totals().iter().sum();
    assert_eq!(handed_out, 2 * 430);
    assert_eq!(tally.totals(), &vec![280, 100, 280, 50, 50, 100]);
}
