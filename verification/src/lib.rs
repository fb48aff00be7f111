//! A recurring ticket-based raffle, verified.
//!
//! Participants pay into a shared pool by buying tickets; once the current
//! round meets its participation target anyone may request a draw; an
//! external randomness oracle answers through an authenticated callback; a
//! ticket-weighted winner is recorded and may later claim the pool. The
//! whole persistent state lives in one [`lifecycle::LuckyLedgersRaffle`]
//! value; the host that embeds it performs the actual token transfers and
//! oracle calls and feeds their outcomes back in as plain values.

pub mod error;
pub mod types;
pub mod events;
pub mod ledger;
pub mod winner;
pub mod lifecycle;
pub mod enter;
pub mod draw;
pub mod claims;
