//! Observability events. Every state-changing operation appends the events
//! it would publish to the raffle's event log; they are a side channel and
//! carry no authority over the consistency model.
use vstd::prelude::*;
use crate::types::Address;

verus! {

/// A player bought tickets in a round.
#[derive(Clone, Copy, Debug, PartialEq, Eq, Structural)]
pub struct PlayerEntered {
    pub round: u32,
    pub player: Address,
    pub num_tickets: u32,
    pub total_tickets: u32,
}

/// The current round crossed its participation target and a draw may be
/// requested.
#[derive(Clone, Copy, Debug, PartialEq, Eq, Structural)]
pub struct ReadyToDraw {
    pub round: u32,
    pub total_participants: u32,
}

/// A draw was requested from the randomness oracle.
#[derive(Clone, Copy, Debug, PartialEq, Eq, Structural)]
pub struct DrawRequested {
    pub round: u32,
    pub vrf_request_id: u64,
}

/// The oracle answered and a winner was recorded.
#[derive(Clone, Copy, Debug, PartialEq, Eq, Structural)]
pub struct WinnerSelected {
    pub round: u32,
    pub winner: Address,
    pub prize_amount: i128,
}

/// A fresh round was opened.
#[derive(Clone, Copy, Debug, PartialEq, Eq, Structural)]
pub struct RoundStarted {
    pub round: u32,
}

/// A winner was paid out.
#[derive(Clone, Copy, Debug, PartialEq, Eq, Structural)]
pub struct PrizeClaimed {
    pub round: u32,
    pub winner: Address,
    pub amount: i128,
}

/// One entry of the raffle's event log.
#[derive(Clone, Copy, Debug, PartialEq, Eq, Structural)]
pub enum Event {
    PlayerEntered(PlayerEntered),
    ReadyToDraw(ReadyToDraw),
    DrawRequested(DrawRequested),
    WinnerSelected(WinnerSelected),
    RoundStarted(RoundStarted),
    PrizeClaimed(PrizeClaimed),
}

} // verus!
