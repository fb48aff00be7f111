//! Core data model: addresses, configuration, round state and statistics,
//! ticket-ledger entries, participant buckets and winner records.
use vstd::prelude::*;

verus! {

/// Number of participants a registry bucket holds. A round's participant
/// list is paginated into buckets of this capacity so that any single
/// read or write touches a bounded amount of data.
pub const BUCKET_SIZE: u32 = 100;

/// An account identity. The ledger that hosts the raffle hands out opaque
/// addresses; the core only ever stores and compares them, so they are
/// modelled by their numeric identity.
#[derive(Clone, Copy, Debug, PartialEq, Eq, Structural)]
pub struct Address {
    pub id: u64,
}

/// Lifecycle state of one round. The only transitions are
/// OPEN -> DRAWING (a draw was requested) and DRAWING -> COMPLETED
/// (the oracle delivered a random value and a winner was recorded).
#[allow(non_camel_case_types)]
#[derive(Clone, Copy, Debug, PartialEq, Eq, Structural)]
pub enum State {
    OPEN,
    DRAWING,
    COMPLETED,
}

/// Raffle configuration, fixed at construction. A draw may be requested
/// once the current round has at least `target_participants` participants
/// and at least `target_tickets` tickets sold (and at least one ticket);
/// a target of zero imposes nothing.
/// If `max_tickets_per_participant` is set, `enter` silently truncates a
/// purchase to the buyer's remaining allowance.
#[derive(Clone, Copy, Debug)]
pub struct Config {
    pub vrf_contract: Address,
    pub underlying_token: Address,
    pub ticket_price: i128,
    pub target_participants: u32,
    pub target_tickets: u32,
    pub max_tickets_per_participant: Option<u32>,
}

/// One round of the raffle: its sequential number (starting at 1), its
/// lifecycle state, and the pending oracle request identifier while a
/// draw is in flight.
#[derive(Clone, Copy, Debug)]
pub struct Round {
    pub round: u32,
    pub state: State,
    pub vrf_request_id: Option<u64>,
}

/// Aggregate statistics of one round, mutated only while the round is
/// open: tickets sold, distinct participants, and the prize pool
/// collected (always `total_tickets * ticket_price`).
#[derive(Clone, Copy, Debug)]
pub struct RoundStats {
    pub total_tickets: u32,
    pub total_participants: u32,
    pub prize_pool: i128,
}

/// The ticket ledger's entry for one participant of one round. Entries
/// are kept in registration order; a count is positive and, under a
/// per-participant cap, never above it.
#[derive(Clone, Copy, Debug)]
pub struct LedgerEntry {
    pub user: Address,
    pub tickets: u32,
}

/// One fixed-capacity page of a round's participant registry.
#[derive(Clone, Debug)]
pub struct ParticipantBucket {
    pub participants: Vec<Address>,
}

/// The durable record of who won a round, for how much, and whether the
/// prize was paid out. Created exactly once when a round completes;
/// `claimed` flips false -> true exactly once and is never reversed.
#[derive(Clone, Copy, Debug)]
pub struct WinnerRecord {
    pub winner: Address,
    pub round: u32,
    pub amount: i128,
    pub claimed: bool,
}

/// What a successful `enter` hands back: the caller's new ticket total
/// for the round and the payment the host must collect for it.
#[derive(Clone, Copy, Debug, PartialEq, Eq, Structural)]
pub struct EnterReceipt {
    pub user_total: u32,
    pub amount: i128,
}

} // verus!
