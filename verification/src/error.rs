//! Typed failures reported by every fallible operation of the raffle.
use vstd::prelude::*;

verus! {

/// Every failure a raffle operation can report. Failures are grouped in
/// families: storage lookups that found nothing, operations attempted in the
/// wrong round state, prize/winner conditions, oracle authorization, and
/// payment-transfer conditions (the transfer variants are reported by the
/// host glue that performs the actual token movement). `Overflow` is the
/// fail-closed outcome of checked arithmetic on ticket and pool totals.
#[derive(Clone, Copy, Debug, PartialEq, Eq, Structural)]
pub enum Error {
    AdminNotFound,
    ConfigNotFound,
    RoundNotFound,
    RoundStatsNotFound,
    WinnerNotFound,
    RoundNotOpen,
    InvalidState,
    TargetNotMet,
    AlreadyClaimed,
    NotWinner,
    InsufficientTickets,
    UnauthorizedVRF,
    VRFRequestFailed,
    FailedToTransferToWinner,
    FailedToTransferFromUser,
    NoBalanceToTransfer,
    Overflow,
}

} // verus!
