//! End-to-end flows under the participant-target configuration, with a
//! simulated token ledger standing in for the payment service and chosen
//! values standing in for the oracle's answers, as the host would supply
//! them.
use raffle::lifecycle::LuckyLedgersRaffle;
use raffle::types::{Address, State};

fn addr(id: u64) -> Address {
    Address { id }
}

/// The contract's own account in the simulated token ledger.
const CONTRACT: u64 = 1000;

/// A minimal fungible-token ledger: the collaborator the raffle host
/// calls for payments.
struct TokenSim {
    balances: Vec<(u64, i128)>,
}

impl TokenSim {
    fn new() -> TokenSim {
        TokenSim { balances: Vec::new() }
    }

    fn mint(&mut self, who: Address, amount: i128) {
        for entry in self.balances.iter_mut() {
            if entry.0 == who.id {
                entry.1 += amount;
                return;
            }
        }
        self.balances.push((who.id, amount));
    }

    fn balance(&self, who: Address) -> i128 {
        for entry in self.balances.iter() {
            if entry.0 == who.id {
                return entry.1;
            }
        }
        0
    }

    fn transfer(&mut self, from: Address, to: Address, amount: i128) {
        assert!(self.balance(from) >= amount, "transfer without funds");
        self.mint(from, -amount);
        self.mint(to, amount);
    }
}

/// Raffle with ticket price 0.1 token and a 3-participant draw target,
/// plus the simulated token ledger.
fn setup_integration_test() -> (LuckyLedgersRaffle, TokenSim, Address, Address) {
    let admin = addr(1);
    let token_id = addr(2);
    let vrf_id = addr(3);

    let ticket_price = 1_000_000i128;
    let target_participants = 3u32;

    let raffle = LuckyLedgersRaffle::construct(
        admin,
        vrf_id,
        token_id,
        ticket_price,
        target_participants,
        0,
        None,
    );
    (raffle, TokenSim::new(), vrf_id, token_id)
}

/// What the host does for `enter`: apply the purchase, then collect the
/// payment the receipt names.
fn enter_paying(raffle: &mut LuckyLedgersRaffle, token: &mut TokenSim, who: Address, n: u32) -> u32 {
    let receipt = raffle.enter(who, n).unwrap();
    token.transfer(who, addr(CONTRACT), receipt.amount);
    receipt.user_total
}

#[test]
fn test_full_raffle_flow() {
    let (mut raffle, mut token, vrf_id, _) = setup_integration_test();

    // Create 3 users
    let alice = addr(10);
    let bob = addr(11);
    let charlie = addr(12);

    // Mint tokens to users
    token.mint(alice, 100_000_000i128);
    token.mint(bob, 100_000_000i128);
    token.mint(charlie, 100_000_000i128);

    // Users enter raffle (round 1)
    enter_paying(&mut raffle, &mut token, alice, 2);
    enter_paying(&mut raffle, &mut token, bob, 1);
    enter_paying(&mut raffle, &mut token, charlie, 1);

    // Verify round 1 stats
    let stats = raffle.get_round_stats(1).unwrap();
    assert_eq!(stats.total_participants, 3);
    assert_eq!(stats.total_tickets, 4);
    assert_eq!(stats.prize_pool, 4_000_000i128);

    // Should be ready to draw
    assert!(raffle.is_ready_to_draw().unwrap());

    // Request draw - transitions to DRAWING; the oracle's request id is
    // what the oracle answered the host.
    let _request_id = raffle.request_draw(42).unwrap();

    // Simulate the oracle calling back with a random value.
    let random_value = 7u64;
    raffle.fulfill_random(vrf_id, random_value).unwrap();

    // Verify round 1 is now COMPLETED
    let round1_info = raffle.get_round_info(1).unwrap();
    assert_eq!(round1_info.state, State::COMPLETED);

    // Verify a winner was selected
    let winner_record = raffle.get_winner(1).unwrap();
    assert_eq!(winner_record.round, 1);
    assert_eq!(winner_record.amount, 4_000_000i128);
    assert!(!winner_record.claimed);

    // Verify auto-restart: round 2 should be created
    let current_round = raffle.get_current_round_number();
    assert_eq!(current_round, 2);

    // Verify round 2 is OPEN
    let round2_info = raffle.get_round_info(2).unwrap();
    assert_eq!(round2_info.state, State::OPEN);
}

#[test]
fn test_claim_prize() {
    let (mut raffle, mut token, vrf_id, _) = setup_integration_test();

    // Create users
    let alice = addr(10);
    let bob = addr(11);
    let charlie = addr(12);

    // Mint tokens
    token.mint(alice, 100_000_000i128);
    token.mint(bob, 100_000_000i128);
    token.mint(charlie, 100_000_000i128);

    // Enter raffle
    enter_paying(&mut raffle, &mut token, alice, 10); // Alice has 10 tickets
    enter_paying(&mut raffle, &mut token, bob, 1);
    enter_paying(&mut raffle, &mut token, charlie, 1);

    // Request draw and manually fulfill
    let _request_id = raffle.request_draw(42).unwrap();
    let random_value = 5u64;
    raffle.fulfill_random(vrf_id, random_value).unwrap();

    // Get winner
    let winner_record = raffle.get_winner(1).unwrap();
    let winner = winner_record.winner;
    let prize_amount = winner_record.amount;

    // Get winner's balance before claim
    let balance_before = token.balance(winner);

    // Winner claims prize; the host pays out afterwards.
    let claimed_amount = raffle.claim_prize(winner, 1).unwrap();
    assert_eq!(claimed_amount, prize_amount);
    token.transfer(addr(CONTRACT), winner, claimed_amount);

    // Verify balance increased
    let balance_after = token.balance(winner);
    assert_eq!(balance_after, balance_before + prize_amount);

    // Verify winner record is marked as claimed
    let winner_record_after = raffle.get_winner(1).unwrap();
    assert!(winner_record_after.claimed);

    // Try to claim again - should fail
    let result = raffle.claim_prize(winner, 1);
    assert!(result.is_err());
}

#[test]
fn test_multiple_rounds() {
    let (mut raffle, mut token, vrf_id, _) = setup_integration_test();

    let alice = addr(10);
    let bob = addr(11);
    let charlie = addr(12);

    token.mint(alice, 1_000_000_000i128);
    token.mint(bob, 1_000_000_000i128);
    token.mint(charlie, 1_000_000_000i128);

    // Run 3 rounds
    for round in 1..=3u32 {
        // Enter raffle
        enter_paying(&mut raffle, &mut token, alice, 1);
        enter_paying(&mut raffle, &mut token, bob, 1);
        enter_paying(&mut raffle, &mut token, charlie, 1);

        // Request draw and manually fulfill
        let _request_id = raffle.request_draw(42).unwrap();
        let random_value = 1_000_000_007u64.wrapping_mul(round as u64);
        raffle.fulfill_random(vrf_id, random_value).unwrap();

        // Verify round completed
        let round_info = raffle.get_round_info(round).unwrap();
        assert_eq!(round_info.state, State::COMPLETED);

        // Verify winner exists
        assert!(raffle.get_winner(round).is_some());
    }

    // Verify we're on round 4 now
    assert_eq!(raffle.get_current_round_number(), 4);
}

#[test]
fn test_claim_all_prizes() {
    let (mut raffle, mut token, vrf_id, _) = setup_integration_test();

    // Only Alice buys in bulk - she'll win every round
    let alice = addr(10);
    let bob = addr(11);
    let charlie = addr(12);

    token.mint(alice, 1_000_000_000i128);
    token.mint(bob, 1_000_000_000i128);
    token.mint(charlie, 1_000_000_000i128);

    // Run 3 rounds where Alice dominates
    for _ in 1..=3 {
        enter_paying(&mut raffle, &mut token, alice, 100);
        enter_paying(&mut raffle, &mut token, bob, 1);
        enter_paying(&mut raffle, &mut token, charlie, 1);
        let _request_id = raffle.request_draw(42).unwrap();
        // 50 mod 102 = 50 falls in Alice's range [0, 100)
        let random_value = 50u64;
        raffle.fulfill_random(vrf_id, random_value).unwrap();
    }

    // Check how many rounds Alice won
    let alice_winning_rounds = raffle.get_user_winning_rounds(alice);
    assert_eq!(alice_winning_rounds, vec![1, 2, 3]);

    // Get Alice's unclaimed prizes
    let unclaimed_prizes = raffle.get_unclaimed_prizes(alice);
    let num_unclaimed = unclaimed_prizes.len();
    assert_eq!(num_unclaimed, 3);

    // Claim all prizes at once; the host pays out the total afterwards.
    let balance_before = token.balance(alice);
    let total_claimed = raffle.claim_all_prizes(alice).unwrap();
    token.transfer(addr(CONTRACT), alice, total_claimed);
    let balance_after = token.balance(alice);

    assert_eq!(total_claimed, 3 * 102_000_000i128);
    assert_eq!(balance_after, balance_before + total_claimed);

    // Verify all prizes are now claimed
    let unclaimed_after = raffle.get_unclaimed_prizes(alice);
    assert_eq!(unclaimed_after.len(), 0);
}

#[test]
fn test_winner_selection_fairness() {
    let (mut raffle, mut token, vrf_id, _) = setup_integration_test();

    let alice = addr(10);
    let bob = addr(11);
    let charlie = addr(12);

    token.mint(alice, 100_000_000i128);
    token.mint(bob, 100_000_000i128);
    token.mint(charlie, 100_000_000i128);

    // Alice gets 10 tickets, Bob gets 1, Charlie gets 1
    // Alice has 10/12 = 83% chance of winning
    enter_paying(&mut raffle, &mut token, alice, 10);
    enter_paying(&mut raffle, &mut token, bob, 1);
    enter_paying(&mut raffle, &mut token, charlie, 1);

    let _request_id = raffle.request_draw(42).unwrap();
    let random_value = 9_007_199_254_740_993u64;
    raffle.fulfill_random(vrf_id, random_value).unwrap();

    let winner = raffle.get_winner(1).unwrap().winner;

    // Verify winner is one of the participants
    assert!(winner == alice || winner == bob || winner == charlie);
}

#[test]
fn test_cannot_draw_before_target_met() {
    let (mut raffle, mut token, _, _) = setup_integration_test();

    let alice = addr(10);
    let bob = addr(11);

    token.mint(alice, 100_000_000i128);
    token.mint(bob, 100_000_000i128);

    // Only 2 participants (target is 3)
    enter_paying(&mut raffle, &mut token, alice, 5);
    enter_paying(&mut raffle, &mut token, bob, 3);

    // Should not be ready
    assert!(!raffle.is_ready_to_draw().unwrap());

    // Try to request draw - should fail
    let result = raffle.request_draw(42);
    assert!(result.is_err());
}

#[test]
fn test_round_state_transitions() {
    let (mut raffle, mut token, vrf_id, _) = setup_integration_test();

    let alice = addr(10);
    let bob = addr(11);
    let charlie = addr(12);

    token.mint(alice, 100_000_000i128);
    token.mint(bob, 100_000_000i128);
    token.mint(charlie, 100_000_000i128);

    // Initial state: OPEN
    let round_info = raffle.get_round_info(1).unwrap();
    assert_eq!(round_info.state, State::OPEN);

    // Enter raffle
    enter_paying(&mut raffle, &mut token, alice, 1);
    enter_paying(&mut raffle, &mut token, bob, 1);
    enter_paying(&mut raffle, &mut token, charlie, 1);

    // Still OPEN
    let round_info = raffle.get_round_info(1).unwrap();
    assert_eq!(round_info.state, State::OPEN);

    // Request draw - state goes OPEN -> DRAWING
    let _request_id = raffle.request_draw(42).unwrap();

    // Verify state is DRAWING
    let round_info = raffle.get_round_info(1).unwrap();
    assert_eq!(round_info.state, State::DRAWING);

    // Manually fulfill - state goes DRAWING -> COMPLETED
    let random_value = 2u64;
    raffle.fulfill_random(vrf_id, random_value).unwrap();

    // After the oracle callback completes, state is COMPLETED
    let round_info = raffle.get_round_info(1).unwrap();
    assert_eq!(round_info.state, State::COMPLETED);
}

#[test]
fn test_bucket_pattern_many_participants() {
    let (mut raffle, mut token, _, _) = setup_integration_test();

    // Create 10 participants (bucket size is 100, so this tests single bucket)
    for i in 0..10u64 {
        let user = addr(100 + i);
        token.mint(user, 100_000_000i128);
        enter_paying(&mut raffle, &mut token, user, 1);
    }

    let stats = raffle.get_round_stats(1).unwrap();
    assert_eq!(stats.total_participants, 10);
    assert_eq!(stats.total_tickets, 10);

    let participants = raffle.get_participants(1);
    assert_eq!(participants.len(), 10);
}
