//! Unit tests for the raffle under the ticket-target configuration with a
//! per-participant cap.
use raffle::error::Error;
use raffle::lifecycle::LuckyLedgersRaffle;
use raffle::types::{Address, State};

fn addr(id: u64) -> Address {
    Address { id }
}

/// Raffle with ticket price 0.1 token (7 decimals), a 25-ticket draw
/// target and a cap of 10 tickets per wallet.
fn setup_raffle() -> (LuckyLedgersRaffle, Address, Address, Address) {
    let admin = addr(1);
    let (token_id, vrf_id) = (addr(2), addr(3));

    let ticket_price = 1_000_000i128;
    let target_tickets = 25u32;
    let max_tickets_per_participant = 10u32;

    let raffle = LuckyLedgersRaffle::construct(
        admin,
        vrf_id,
        token_id,
        ticket_price,
        0,
        target_tickets,
        Some(max_tickets_per_participant),
    );
    (raffle, admin, vrf_id, token_id)
}

#[test]
fn test_constructor_initializes_correctly() {
    let (raffle, _admin, _vrf, token_id) = setup_raffle();

    // Verify admin is set
    let _admin = raffle.admin().unwrap();

    // Verify config is set
    let config = raffle.get_config().unwrap();
    assert_eq!(config.underlying_token, token_id);
    assert_eq!(config.ticket_price, 1_000_000i128);
    assert_eq!(config.target_tickets, 25);
    assert_eq!(config.max_tickets_per_participant, Some(10));

    // Verify initial round is created
    let current_round = raffle.get_current_round_number();
    assert_eq!(current_round, 1);

    // Verify round is in OPEN state
    let round_info = raffle.get_round_info(1).unwrap();
    assert_eq!(round_info.state, State::OPEN);
}

#[test]
fn test_enter_raffle_single_ticket() {
    let (mut raffle, _, _, _) = setup_raffle();
    let alice = addr(10);

    // Enter with 1 ticket
    let result = raffle.enter(alice, 1).unwrap();
    assert_eq!(result.user_total, 1);

    // Verify ticket count
    let tickets = raffle.get_user_tickets(1, alice);
    assert_eq!(tickets, 1);

    // Verify round stats
    let stats = raffle.get_round_stats(1).unwrap();
    assert_eq!(stats.total_tickets, 1);
    assert_eq!(stats.total_participants, 1);
    assert_eq!(stats.prize_pool, 1_000_000i128);
}

#[test]
fn test_enter_raffle_multiple_tickets() {
    let (mut raffle, _, _, _) = setup_raffle();
    let alice = addr(10);

    // Enter with 5 tickets
    let result = raffle.enter(alice, 5).unwrap();
    assert_eq!(result.user_total, 5);

    // Verify stats
    let stats = raffle.get_round_stats(1).unwrap();
    assert_eq!(stats.total_tickets, 5);
    assert_eq!(stats.prize_pool, 5_000_000i128);
}

#[test]
fn test_enter_raffle_multiple_users() {
    let (mut raffle, _, _, _) = setup_raffle();
    let alice = addr(10);
    let bob = addr(11);
    let charlie = addr(12);

    raffle.enter(alice, 2).unwrap();
    raffle.enter(bob, 3).unwrap();
    raffle.enter(charlie, 1).unwrap();

    // Verify individual tickets
    assert_eq!(raffle.get_user_tickets(1, alice), 2);
    assert_eq!(raffle.get_user_tickets(1, bob), 3);
    assert_eq!(raffle.get_user_tickets(1, charlie), 1);

    // Verify stats
    let stats = raffle.get_round_stats(1).unwrap();
    assert_eq!(stats.total_participants, 3);
    assert_eq!(stats.total_tickets, 6);
    assert_eq!(stats.prize_pool, 6_000_000i128);
}

#[test]
fn test_enter_twice_same_user() {
    let (mut raffle, _, _, _) = setup_raffle();
    let alice = addr(10);

    raffle.enter(alice, 2).unwrap();
    raffle.enter(alice, 3).unwrap();

    // Should accumulate tickets
    assert_eq!(raffle.get_user_tickets(1, alice), 5);

    // Should only count as one participant
    let stats = raffle.get_round_stats(1).unwrap();
    assert_eq!(stats.total_participants, 1);
    assert_eq!(stats.total_tickets, 5);
}

#[test]
fn test_is_ready_to_draw() {
    let (mut raffle, _, _, _) = setup_raffle();

    // Not ready with 0 tickets
    assert_eq!(raffle.is_ready_to_draw().unwrap(), false);

    // Add 24 tickets (target is 25)
    // User 1 buys 10 tickets (max)
    let user1 = addr(21);
    raffle.enter(user1, 10).unwrap();

    // User 2 buys 10 tickets (max)
    let user2 = addr(22);
    raffle.enter(user2, 10).unwrap();

    // User 3 buys 4 tickets (total now 24)
    let user3 = addr(23);
    raffle.enter(user3, 4).unwrap();

    // Still not ready (24 < 25)
    assert_eq!(raffle.is_ready_to_draw().unwrap(), false);

    // User 4 buys 1 ticket (total now 25, reaches target)
    let user4 = addr(24);
    raffle.enter(user4, 1).unwrap();

    // Now ready
    assert_eq!(raffle.is_ready_to_draw().unwrap(), true);
}

#[test]
fn test_get_participants() {
    let (mut raffle, _, _, _) = setup_raffle();
    let alice = addr(10);
    let bob = addr(11);

    raffle.enter(alice, 2).unwrap();
    raffle.enter(bob, 3).unwrap();

    let participants = raffle.get_participants(1);
    assert_eq!(participants.len(), 2);
}

#[test]
fn test_admin_functions() {
    let (mut raffle, _, _, _) = setup_raffle();
    let new_admin = addr(99);

    // Set new admin
    raffle.set_new_admin(new_admin);

    // Verify admin changed
    assert_eq!(raffle.admin().unwrap(), new_admin);
}

#[test]
fn test_enter_raffle_not_open() {
    let (mut raffle, _, _, _) = setup_raffle();
    let alice = addr(10);

    // Fill the round to its target and move it out of OPEN by
    // requesting a draw (the round is then DRAWING).
    raffle.enter(addr(31), 10).unwrap();
    raffle.enter(addr(32), 10).unwrap();
    raffle.enter(addr(33), 5).unwrap();
    raffle.request_draw(42).unwrap();

    // Try to enter - should fail
    let result = raffle.enter(alice, 1);
    assert!(result.is_err());
}

#[test]
fn test_ticket_cap_enforcement() {
    let (mut raffle, _, _, _) = setup_raffle();
    let alice = addr(10);

    // Buy 8 tickets (under max of 10)
    let result = raffle.enter(alice, 8).unwrap();
    assert_eq!(result.user_total, 8);

    // Try to buy 5 more tickets (would exceed max of 10)
    // Should auto-cap to only 2 tickets (remaining allowance)
    let result = raffle.enter(alice, 5).unwrap();
    assert_eq!(result.user_total, 10); // Total should be capped at 10

    // Verify user has exactly 10 tickets
    let tickets = raffle.get_user_tickets(1, alice);
    assert_eq!(tickets, 10);

    // Verify stats show correct totals
    let stats = raffle.get_round_stats(1).unwrap();
    assert_eq!(stats.total_tickets, 10);
    assert_eq!(stats.prize_pool, 10_000_000i128);

    // Try to buy more - should return current total without buying
    let result = raffle.enter(alice, 1).unwrap();
    assert_eq!(result.user_total, 10); // Still at cap

    // Verify no additional tickets or payment
    let stats = raffle.get_round_stats(1).unwrap();
    assert_eq!(stats.total_tickets, 10); // Unchanged
    assert_eq!(stats.prize_pool, 10_000_000i128); // Unchanged
}

#[test]
fn test_enter_zero_tickets_rejected() {
    let (mut raffle, _, _, _) = setup_raffle();
    let alice = addr(10);

    assert_eq!(raffle.enter(alice, 0), Err(Error::InsufficientTickets));

    // Nothing was recorded
    let stats = raffle.get_round_stats(1).unwrap();
    assert_eq!(stats.total_tickets, 0);
    assert_eq!(stats.total_participants, 0);
}
