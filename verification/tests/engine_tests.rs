use lottery::classify::count_matches;
use lottery::draw::draw_numbers;
use lottery::engine::{Error, LotteryContract, LotteryState};
use lottery::prize::{calculate_prizes, disbursements};
use lottery::rng::RandomNumberGenerator;

fn draw(max_range: u32, n: u32, seed: u64) -> Vec<u32> {
    draw_numbers::<RandomNumberGenerator>(max_range, n, seed)
}

/// A seed whose draw over [1,10] with three slots is exactly the target.
fn seed_for(target: &[u32], max_range: u32, n: u32) -> u64 {
    for seed in 0u64..1_000_000 {
        if draw(max_range, n, seed) == target {
            return seed;
        }
    }
    panic!("no seed found for the target draw");
}

fn standard_contract() -> LotteryContract {
    let mut l = LotteryContract::new();
    let r = l.init(1, 7, 10, 3, 10, vec![(3, 50)], 1);
    assert_eq!(r, Ok(1));
    l
}

#[test]
fn init_creates_the_first_active_round() {
    let l = standard_contract();
    assert_eq!(l.state, Some(LotteryState::Active));
    assert_eq!(l.lottery_number, 1);
    assert_eq!(l.admin, 1);
    assert_eq!(l.token, 7);
}

#[test]
fn init_twice_is_refused() {
    let mut l = standard_contract();
    assert_eq!(l.init(1, 7, 10, 3, 10, vec![(3, 50)], 1), Err(Error::AlreadyInitialized));
}

#[test]
fn init_stores_nothing_on_a_bad_config() {
    let mut l = LotteryContract::new();
    assert_eq!(l.init(1, 7, 10, 1, 10, vec![(1, 50)], 1), Err(Error::NumberOfNumbersTooLow));
    assert_eq!(l.state, None);
    // a later valid initialization still passes
    assert_eq!(l.init(1, 7, 10, 3, 10, vec![(3, 50)], 1), Ok(1));
}

#[test]
fn create_before_init_is_refused() {
    let mut l = LotteryContract::new();
    assert_eq!(l.create_lottery(10, 3, 10, vec![(3, 50)], 1), Err(Error::NotInitialized));
}

#[test]
fn create_while_active_is_refused() {
    let mut l = standard_contract();
    assert_eq!(l.create_lottery(10, 3, 10, vec![(3, 50)], 1), Err(Error::AlreadyActive));
}

#[test]
fn create_validates_in_order() {
    let mut l = LotteryContract::new();
    assert_eq!(l.init(1, 7, 10, 3, 10, vec![(3, 50)], 0), Ok(1));
    assert!(l.play_lottery(0, 0).is_ok());
    // the round is finished now, so new configurations are validated
    assert_eq!(l.create_lottery(10, 5, 4, vec![(3, 50)], 1), Err(Error::MaxRangeTooLow));
    assert_eq!(l.create_lottery(10, 1, 10, vec![(1, 50)], 1), Err(Error::NumberOfNumbersTooLow));
    assert_eq!(l.create_lottery(10, 3, 10, vec![], 1), Err(Error::NumberOfThresholdsTooLow));
    assert_eq!(l.create_lottery(0, 3, 10, vec![(3, 50)], 1), Err(Error::InvalidTicketPrice));
    assert_eq!(l.create_lottery(-5, 3, 10, vec![(3, 50)], 1), Err(Error::InvalidTicketPrice));
    assert_eq!(l.create_lottery(10, 3, 10, vec![(3, 0)], 1), Err(Error::InvalidThresholds));
    assert_eq!(l.create_lottery(10, 3, 10, vec![(2, 60), (3, 60)], 1), Err(Error::InvalidThresholds));
    assert_eq!(l.create_lottery(10, 3, 10, vec![(0, 50)], 1), Err(Error::InvalidThresholds));
    assert_eq!(l.create_lottery(10, 3, 10, vec![(4, 50)], 1), Err(Error::InvalidThresholds));
    assert_eq!(l.create_lottery(10, 3, 10, vec![(3, 50)], 1), Ok(2));
}

#[test]
fn draw_without_tickets_is_refused_under_a_minimum() {
    // for all valid configs with a positive minimum, a draw right after
    // creation fails for want of participants
    for min in [1u32, 2, 5] {
        let mut l = LotteryContract::new();
        assert_eq!(l.init(1, 7, 10, 3, 10, vec![(3, 50)], min), Ok(1));
        assert_eq!(l.play_lottery(12345, 100), Err(Error::MinParticipantsNotSatisfied));
        assert_eq!(l.state, Some(LotteryState::Active));
    }
}

#[test]
fn draws_are_sized_ranged_and_distinct() {
    for (max_range, n) in [(10u32, 3u32), (49, 6), (5, 5), (2, 2)] {
        for seed in [0u64, 1, 42, u64::MAX - 1, u64::MAX] {
            let d = draw(max_range, n, seed);
            assert_eq!(d.len(), n as usize);
            for &v in &d {
                assert!(1 <= v && v <= max_range);
            }
            for i in 0..d.len() {
                for j in 0..d.len() {
                    if i != j {
                        assert_ne!(d[i], d[j]);
                    }
                }
            }
        }
    }
}

#[test]
fn draws_are_deterministic_in_the_seed() {
    assert_eq!(draw(49, 6, 777), draw(49, 6, 777));
    assert_eq!(draw(10, 3, 0), draw(10, 3, 0));
}

#[test]
fn wrong_length_tickets_are_always_rejected() {
    let mut l = standard_contract();
    for ticket in [vec![], vec![1], vec![1, 2], vec![1, 2, 3, 4], vec![0, 0, 0, 0, 0]] {
        assert_eq!(l.buy_ticket(100, ticket, 1000), Err(Error::NotEnoughOrTooManyNumbers));
    }
}

#[test]
fn out_of_range_numbers_are_rejected() {
    let mut l = standard_contract();
    assert_eq!(l.buy_ticket(100, vec![0, 2, 3], 1000), Err(Error::InvalidNumbers));
    assert_eq!(l.buy_ticket(100, vec![1, 2, 11], 1000), Err(Error::InvalidNumbers));
}

#[test]
fn a_balance_equal_to_the_price_is_not_enough() {
    let mut l = standard_contract();
    assert_eq!(l.buy_ticket(100, vec![1, 2, 3], 10), Err(Error::InsufficientFunds));
    assert_eq!(l.buy_ticket(100, vec![1, 2, 3], 9), Err(Error::InsufficientFunds));
    assert_eq!(l.buy_ticket(100, vec![1, 2, 3], 11), Ok(1));
}

#[test]
fn ticket_counts_are_per_participant() {
    let mut l = standard_contract();
    assert_eq!(l.buy_ticket(100, vec![1, 2, 3], 1000), Ok(1));
    assert_eq!(l.buy_ticket(100, vec![4, 5, 6], 1000), Ok(2));
    assert_eq!(l.buy_ticket(200, vec![7, 8, 9], 1000), Ok(1));
    assert_eq!(l.buy_ticket(100, vec![1, 1, 1], 1000), Ok(3));
}

#[test]
fn buying_needs_an_active_round() {
    let mut l = LotteryContract::new();
    assert_eq!(l.buy_ticket(100, vec![1, 2, 3], 1000), Err(Error::NotInitialized));
    assert_eq!(l.init(1, 7, 10, 3, 10, vec![(3, 50)], 0), Ok(1));
    assert!(l.play_lottery(5, 0).is_ok());
    assert_eq!(l.state, Some(LotteryState::Finished));
    assert_eq!(l.buy_ticket(100, vec![1, 2, 3], 1000), Err(Error::NotActive));
    assert_eq!(l.play_lottery(5, 0), Err(Error::NotActive));
}

#[test]
fn matches_count_by_membership_not_by_duplicates() {
    assert_eq!(count_matches(&vec![1, 2, 3], &vec![2, 2, 2]), 1);
    assert_eq!(count_matches(&vec![1, 2, 3], &vec![1, 2, 3]), 3);
    assert_eq!(count_matches(&vec![1, 2, 3], &vec![4, 5, 6]), 0);
    assert_eq!(count_matches(&vec![1, 2, 3], &vec![3, 1, 4]), 2);
}

#[test]
fn one_winner_takes_half_the_pool() {
    // config {price 10, three numbers of [1,10], tier 3 pays 50%, one player}
    let seed = seed_for(&[1, 2, 3], 10, 3);
    let mut l = standard_contract();
    assert_eq!(l.buy_ticket(100, vec![1, 2, 3], 25), Ok(1));
    let pool = 10i128; // one escrowed ticket
    let prizes = l.play_lottery(seed, pool).unwrap();
    assert_eq!(prizes, vec![(100, 5)]); // pool * 50 / 100
    assert_eq!(l.state, Some(LotteryState::Finished));
    assert_eq!(l.check_lottery_results(1), Ok(vec![1, 2, 3]));
}

#[test]
fn two_winners_in_one_tier_take_the_whole_pool() {
    // weighted total 50 x 2 = 100, no rescale; each takes half the pool
    let seed = seed_for(&[1, 2, 3], 10, 3);
    let mut l = standard_contract();
    assert_eq!(l.buy_ticket(100, vec![1, 2, 3], 25), Ok(1));
    assert_eq!(l.buy_ticket(200, vec![1, 2, 3], 25), Ok(1));
    let pool = 20i128;
    let prizes = l.play_lottery(seed, pool).unwrap();
    assert_eq!(prizes.len(), 2);
    let total: i128 = prizes.iter().map(|p| p.1).sum();
    assert!(prizes.contains(&(100, 10)));
    assert!(prizes.contains(&(200, 10)));
    assert_eq!(total, pool);
}

#[test]
fn an_overcommitted_pool_is_renormalized() {
    // tiers {2: 60, 3: 60}, one winner each: weighted 120 > 100, both
    // rescaled to 50; the whole pool is paid out
    let seed = seed_for(&[1, 2, 3], 10, 3);
    let mut l = LotteryContract::new();
    assert_eq!(l.init(1, 7, 10, 3, 10, vec![(2, 60), (3, 30)], 0), Ok(1));
    assert!(l.play_lottery(0, 0).is_ok());
    assert_eq!(l.create_lottery(10, 3, 10, vec![(2, 50), (3, 50)], 1), Ok(2));
    assert_eq!(l.buy_ticket(100, vec![1, 2, 4], 25), Ok(1)); // matches 2
    assert_eq!(l.buy_ticket(200, vec![1, 2, 3], 25), Ok(1)); // matches 3
    let pool = 20i128;
    let prizes = l.play_lottery(seed, pool).unwrap();
    // weighted = 50 + 50 = 100, untouched; now the overcommitted variant:
    assert!(prizes.contains(&(100, 10)));
    assert!(prizes.contains(&(200, 10)));

    let mut thresholds = vec![(2u32, 60u32), (3u32, 60u32)];
    let winners = vec![(2u32, vec![100u64]), (3u32, vec![200u64])];
    let prizes2 = calculate_prizes(&winners, &mut thresholds, 20);
    // tier 2 becomes floor(1*60*100/120)/1 = 50, tier 3 likewise
    assert_eq!(thresholds, vec![(2, 50), (3, 50)]);
    let total: i128 = prizes2.iter().map(|p| p.1).sum();
    assert_eq!(total, 20);
    assert!(prizes2.contains(&(100, 10)));
    assert!(prizes2.contains(&(200, 10)));
}

#[test]
fn allocation_under_the_cap_keeps_percentages() {
    // weighted 50 x 2 = 100 <= 100: thresholds untouched, total within pool
    let mut thresholds = vec![(3u32, 50u32)];
    let winners = vec![(3u32, vec![100u64, 200u64])];
    let prizes = calculate_prizes(&winners, &mut thresholds, 1001);
    assert_eq!(thresholds, vec![(3, 50)]);
    assert_eq!(prizes, vec![(100, 500), (200, 500)]);
    let total: i128 = prizes.iter().map(|p| p.1).sum();
    assert!(total <= 1001);
}

#[test]
fn allocation_over_the_cap_never_overcommits() {
    // three winners of one tier at 50%: weighted 150 > 100; each percentage
    // becomes floor(3*50*100/150)/3 = 33, prizes 330 each of a 1000 pool
    let mut thresholds = vec![(2u32, 50u32)];
    let winners = vec![(2u32, vec![1u64, 2u64, 3u64])];
    let prizes = calculate_prizes(&winners, &mut thresholds, 1000);
    assert_eq!(thresholds, vec![(2, 33)]);
    assert_eq!(prizes, vec![(1, 330), (2, 330), (3, 330)]);
    let total: i128 = prizes.iter().map(|p| p.1).sum();
    assert!(total <= 1000);
}

#[test]
fn tiers_without_winners_are_dropped_when_rescaling() {
    let mut thresholds = vec![(1u32, 40u32), (2u32, 60u32)];
    let winners = vec![(2u32, vec![5u64, 6u64])];
    // weighted = 60 x 2 = 120 > 100: tier 1 is dropped, tier 2 rescaled
    let prizes = calculate_prizes(&winners, &mut thresholds, 100);
    assert_eq!(thresholds, vec![(2, 50)]);
    assert_eq!(prizes, vec![(5, 50), (6, 50)]);
}

#[test]
fn one_participant_accumulates_over_tickets_and_tiers() {
    let mut thresholds = vec![(2u32, 20u32), (3u32, 30u32)];
    let winners = vec![(2u32, vec![9u64, 9u64]), (3u32, vec![9u64])];
    // weighted = 20x2 + 30x1 = 70 <= 100
    let prizes = calculate_prizes(&winners, &mut thresholds, 100);
    assert_eq!(prizes, vec![(9, 70)]); // 20 + 20 + 30
}

#[test]
fn round_numbers_increase_and_results_stay_keyed() {
    let mut l = LotteryContract::new();
    assert_eq!(l.init(1, 7, 10, 3, 10, vec![(3, 50)], 0), Ok(1));
    assert!(l.play_lottery(11, 0).is_ok());
    let first = l.check_lottery_results(1).unwrap();
    assert_eq!(l.create_lottery(10, 3, 10, vec![(3, 50)], 0), Ok(2));
    assert!(l.play_lottery(22, 0).is_ok());
    let second = l.check_lottery_results(2).unwrap();
    assert_eq!(l.check_lottery_results(1).unwrap(), first);
    assert_eq!(first, draw(10, 3, 11));
    assert_eq!(second, draw(10, 3, 22));
    assert_eq!(l.check_lottery_results(3), Err(Error::WrongLotteryNumber));
    assert_eq!(l.check_lottery_results(0), Err(Error::WrongLotteryNumber));
}

#[test]
fn results_are_unavailable_before_any_draw() {
    let l = standard_contract();
    assert_eq!(l.check_lottery_results(1), Err(Error::NoLotteryResultsAvailable));
}

#[test]
fn losing_tickets_win_nothing() {
    let seed = seed_for(&[1, 2, 3], 10, 3);
    let mut l = standard_contract();
    // one match only: not a configured tier
    assert_eq!(l.buy_ticket(100, vec![1, 9, 10], 25), Ok(1));
    let prizes = l.play_lottery(seed, 10).unwrap();
    assert_eq!(prizes, vec![]);
    assert_eq!(l.check_lottery_results(1), Ok(vec![1, 2, 3]));
}

#[test]
fn only_positive_amounts_are_disbursed() {
    let prizes = vec![(1u64, 0i128), (2, 7), (3, 0), (4, 1)];
    assert_eq!(disbursements(&prizes), vec![(2, 7), (4, 1)]);
    assert_eq!(disbursements(&vec![]), vec![]);
}

#[test]
fn a_tiny_pool_can_owe_zero() {
    // pool 1 at 50%: floor gives 0; the winner is recorded but nothing is paid
    let mut thresholds = vec![(3u32, 50u32)];
    let winners = vec![(3u32, vec![100u64])];
    let prizes = calculate_prizes(&winners, &mut thresholds, 1);
    assert_eq!(prizes, vec![(100, 0)]);
    assert_eq!(disbursements(&prizes), vec![]);
}

#[test]
fn the_minimum_counts_participants_not_tickets() {
    let mut l = LotteryContract::new();
    assert_eq!(l.init(1, 7, 10, 3, 10, vec![(3, 50)], 2), Ok(1));
    assert_eq!(l.buy_ticket(100, vec![1, 2, 3], 1000), Ok(1));
    assert_eq!(l.buy_ticket(100, vec![4, 5, 6], 1000), Ok(2));
    // two tickets, one participant: still below the minimum of two
    assert_eq!(l.play_lottery(3, 20), Err(Error::MinParticipantsNotSatisfied));
    assert_eq!(l.buy_ticket(200, vec![7, 8, 9], 1000), Ok(1));
    assert!(l.play_lottery(3, 30).is_ok());
}

#[test]
fn tickets_may_repeat_numbers_and_match_once() {
    let seed = seed_for(&[1, 2, 3], 10, 3);
    let mut l = standard_contract();
    // a repeated number is accepted and earns no extra matches: two distinct
    // drawn values are present, below the only configured tier
    assert_eq!(l.buy_ticket(100, vec![2, 2, 3], 1000), Ok(1));
    let prizes = l.play_lottery(seed, 10).unwrap();
    assert_eq!(prizes, vec![]);
}
