//! Entering the current round: payment-backed ticket purchase, first-entry
//! registration into the bucketed participant registry, and the aggregate
//! statistics update — all in one atomic step.
use vstd::prelude::*;
use crate::claims::claims_monotone;
use crate::error::Error;
use crate::events::{Event, PlayerEntered, ReadyToDraw};
use crate::ledger::{buckets_match, counts_capped, counts_positive, distinct_users, find_user,
    lemma_ledger_push, lemma_ticket_sum_ge_len, lemma_ticket_sum_update, lemma_tickets_of_absent,
    lemma_tickets_of_at, lemma_tickets_of_le_sum, lemma_tickets_of_update, round_wf, ticket_sum,
    tickets_of, RoundData};
use crate::lifecycle::{target_met, win_entry_ok, LuckyLedgersRaffle};
use crate::types::{Address, Config, EnterReceipt, LedgerEntry, ParticipantBucket, RoundStats,
    State, BUCKET_SIZE};

verus! {

/// How many tickets a request for `requested` grants a user already
/// holding `prev`: everything requested, or — under a per-participant
/// cap — at most the remaining allowance.
pub open spec fn granted_of(cfg: Config, prev: int, requested: int) -> int {
    match cfg.max_tickets_per_participant {
        Some(c) => if requested <= c - prev {
            requested
        } else {
            c - prev
        },
        None => requested,
    }
}

/// The purchase would overflow a counter: the round's ticket total no
/// longer fits in 32 bits, or the grown prize pool no longer fits in 128
/// bits. `enter` fails closed on these instead of wrapping.
pub open spec fn enter_overflows(stats: RoundStats, granted: int, price: int) -> bool {
    ||| stats.total_tickets + granted > u32::MAX
    ||| (stats.total_tickets + granted) * price > i128::MAX
}

/// How a successful purchase of `g` tickets by `caller` rewrites one
/// round's storage: the caller's ledger holding grows by `g` (an entry is
/// appended on first entry, in registration order), nobody else's holding
/// changes, and the statistics grow accordingly — tickets, pool and (for
/// a first entry) the participant count together.
pub open spec fn enter_updates_round(
    pre: RoundData,
    post: RoundData,
    caller: Address,
    g: int,
    cfg: Config,
) -> bool {
    let prev = tickets_of(pre.tickets@, caller);
    &&& post.round == pre.round
    &&& post.winner == pre.winner
    &&& post.stats.total_tickets == pre.stats.total_tickets + g
    &&& post.stats.prize_pool == pre.stats.prize_pool + g * cfg.ticket_price
    &&& post.stats.total_participants == pre.stats.total_participants + if prev == 0 {
        1int
    } else {
        0int
    }
    &&& tickets_of(post.tickets@, caller) == prev + g
    &&& forall|u: Address| u != caller
            ==> #[trigger] tickets_of(post.tickets@, u) == tickets_of(pre.tickets@, u)
    &&& if prev == 0 {
        &&& post.tickets@.len() == pre.tickets@.len() + 1
        &&& post.tickets@.last().user == caller
        &&& forall|i: int| 0 <= i < pre.tickets@.len()
                ==> #[trigger] post.tickets@[i] == pre.tickets@[i]
    } else {
        &&& post.tickets@.len() == pre.tickets@.len()
        &&& forall|i: int| 0 <= i < pre.tickets@.len()
                ==> (#[trigger] post.tickets@[i]).user == pre.tickets@[i].user
    }
}

/// The events a successful purchase publishes: the entry itself, and a
/// ready-to-draw notice whenever the round (now) meets its target.
pub open spec fn enter_events(
    round_num: u32,
    caller: Address,
    g: u32,
    new_stats: RoundStats,
    cfg: Config,
) -> Seq<Event> {
    let pe = Event::PlayerEntered(PlayerEntered {
        round: round_num,
        player: caller,
        num_tickets: g,
        total_tickets: new_stats.total_tickets,
    });
    if target_met(cfg, new_stats) {
        seq![
            pe,
            Event::ReadyToDraw(ReadyToDraw {
                round: round_num,
                total_participants: new_stats.total_participants,
            }),
        ]
    } else {
        seq![pe]
    }
}

impl LuckyLedgersRaffle {
    /// Buys tickets in the current round for `caller`.
    ///
    /// Requires the round to be OPEN (`RoundNotOpen` otherwise) and a
    /// positive request (`InsufficientTickets` otherwise). Under a
    /// per-participant cap the request is silently truncated to the
    /// remaining allowance; a fully capped participant gets their
    /// unchanged total back and pays nothing. Arithmetic that would
    /// overflow a counter fails closed with `Overflow`. On success the
    /// receipt carries the caller's new ticket total and the payment the
    /// host must collect; a first entry also registers the caller in the
    /// participant registry. A second or later entry by the same user
    /// never changes the participant count. Every failure leaves the
    /// state exactly as it was.
    pub fn enter(&mut self, caller: Address, num_tickets: u32) -> (r: Result<EnterReceipt, Error>)
        requires
            old(self).wf(),
        ensures
            final(self).wf(),
            claims_monotone(old(self).rounds@, final(self).rounds@),
            ({
                let pre = *old(self);
                let rd = pre.cur();
                let prev = tickets_of(rd.tickets@, caller);
                let g = granted_of(pre.config, prev, num_tickets as int);
                if !(rd.round.state is OPEN) {
                    &&& r == Err::<EnterReceipt, Error>(Error::RoundNotOpen)
                    &&& *final(self) == pre
                } else if num_tickets == 0 {
                    &&& r == Err::<EnterReceipt, Error>(Error::InsufficientTickets)
                    &&& *final(self) == pre
                } else if g == 0 {
                    &&& r matches Ok(rc) && rc.user_total == prev && rc.amount == 0
                    &&& *final(self) == pre
                } else if enter_overflows(rd.stats, g, pre.config.ticket_price as int) {
                    &&& r == Err::<EnterReceipt, Error>(Error::Overflow)
                    &&& *final(self) == pre
                } else {
                    &&& r matches Ok(rc) && rc.user_total == prev + g && rc.amount == g
                        * pre.config.ticket_price
                    &&& Self::same_frame(pre, *final(self))
                    &&& final(self).rounds@.len() == pre.rounds@.len()
                    &&& forall|i: int| 0 <= i < pre.rounds@.len() && i != pre.cur_idx()
                            ==> #[trigger] final(self).rounds@[i] == pre.rounds@[i]
                    &&& enter_updates_round(rd, final(self).cur(), caller, g, pre.config)
                    &&& final(self).events@ == pre.events@ + enter_events(
                        rd.round.round,
                        caller,
                        g as u32,
                        final(self).cur().stats,
                        pre.config,
                    )
                }
            }),
    {
        let idx = (self.current_round - 1) as usize;
        if self.rounds[idx].round.state != State::OPEN {
            return Err(Error::RoundNotOpen);
        }
        if num_tickets == 0 {
            return Err(Error::InsufficientTickets);
        }
        let ghost pt = self.rounds@[idx as int].tickets@;
        let found = find_user(&self.rounds[idx].tickets, caller);
        let prev: u32 = match found {
            Some(i) => self.rounds[idx].tickets[i].tickets,
            None => 0,
        };
        proof {
            match found {
                Some(i) => lemma_tickets_of_at(pt, i as int),
                None => lemma_tickets_of_absent(pt, caller),
            }
            assert(prev as int == tickets_of(pt, caller));
        }
        let granted: u32 = match self.config.max_tickets_per_participant {
            Some(c) => {
                proof {
                    match found {
                        Some(i) => {
                            assert(pt[i as int].tickets <= c);
                        },
                        None => {},
                    }
                }
                let allowance = c - prev;
                if num_tickets < allowance {
                    num_tickets
                } else {
                    allowance
                }
            },
            None => num_tickets,
        };
        if granted == 0 {
            return Ok(EnterReceipt { user_total: prev, amount: 0 });
        }
        let stats = self.rounds[idx].stats;
        let price = self.config.ticket_price;
        let ghost total = stats.total_tickets as int;
        let ghost gi = granted as int;
        proof {
            assert((total + gi) * price == total * price + gi * price) by (nonlinear_arith);
            assert(gi * price >= 1) by (nonlinear_arith)
                requires
                    gi >= 1,
                    price >= 1,
            ;
            assert(gi * price <= (total + gi) * price) by (nonlinear_arith)
                requires
                    total >= 0,
                    gi >= 0,
                    price >= 0,
            ;
        }
        let new_total = match stats.total_tickets.checked_add(granted) {
            Some(t) => t,
            None => {
                return Err(Error::Overflow);
            },
        };
        let amount = match (granted as i128).checked_mul(price) {
            Some(a) => a,
            None => {
                return Err(Error::Overflow);
            },
        };
        let new_pool = match stats.prize_pool.checked_add(amount) {
            Some(p) => p,
            None => {
                return Err(Error::Overflow);
            },
        };
        proof {
            lemma_tickets_of_le_sum(pt, caller);
        }
        let user_total = prev + granted;
        let num = self.rounds[idx].round.round;
        match found {
            Some(i) => {
                self.rounds[idx].tickets[i] = LedgerEntry { user: caller, tickets: user_total };
                self.rounds[idx].stats = RoundStats {
                    total_tickets: new_total,
                    total_participants: stats.total_participants,
                    prize_pool: new_pool,
                };
                proof {
                    let e = LedgerEntry { user: caller, tickets: user_total };
                    let qt = self.rounds@[idx as int].tickets@;
                    assert(qt == pt.update(i as int, e));
                    lemma_ticket_sum_update(pt, i as int, e);
                    assert forall|u: Address| #[trigger] tickets_of(qt, u) == if u == caller {
                        prev + gi
                    } else {
                        tickets_of(pt, u)
                    } by {
                        lemma_tickets_of_update(pt, i as int, e, u);
                    }
                    assert(distinct_users(qt));
                    assert(counts_positive(qt));
                }
            },
            None => {
                self.rounds[idx].tickets.push(LedgerEntry { user: caller, tickets: granted });
                let ghost n = pt.len() as int;
                proof {
                    let e = LedgerEntry { user: caller, tickets: granted };
                    let qt = self.rounds@[idx as int].tickets@;
                    assert(qt == pt.push(e));
                    assert forall|u: Address| #[trigger] tickets_of(qt, u) == if u == caller {
                        gi
                    } else {
                        tickets_of(pt, u)
                    } by {
                        lemma_ledger_push(pt, e, u);
                    }
                    lemma_ledger_push(pt, e, caller);
                    assert(distinct_users(qt));
                    assert(counts_positive(qt));
                    lemma_ticket_sum_ge_len(pt);
                }
                let parts = self.rounds[idx].stats.total_participants;
                if parts % BUCKET_SIZE == 0 {
                    let mut fresh: Vec<Address> = Vec::new();
                    fresh.push(caller);
                    self.rounds[idx].buckets.push(ParticipantBucket { participants: fresh });
                } else {
                    let lb = self.rounds[idx].buckets.len() - 1;
                    self.rounds[idx].buckets[lb].participants.push(caller);
                }
                self.rounds[idx].stats = RoundStats {
                    total_tickets: new_total,
                    total_participants: parts + 1,
                    prize_pool: new_pool,
                };
                proof {
                    let qt = self.rounds@[idx as int].tickets@;
                    let qb = self.rounds@[idx as int].buckets@;
                    let pb = old(self).rounds@[idx as int].buckets@;
                    let bs = BUCKET_SIZE as int;
                    assert(buckets_match(pt, pb));
                    assert(qt.len() == n + 1);
                    assert forall|b: int, j: int|
                        0 <= b < qb.len() && 0 <= j < qb[b].participants@.len() implies (
                    #[trigger] qb[b].participants@[j]) == qt[b * bs + j].user by {
                        if b < pb.len() && j < pb[b].participants@.len() {
                            assert(pb[b].participants@[j] == pt[b * bs + j].user);
                            assert(qt[b * bs + j] == pt[b * bs + j]);
                        } else {
                            assert(b * bs + j == n);
                        }
                    }
                    assert(buckets_match(qt, qb));
                }
            },
        }
        self.events.push(Event::PlayerEntered(PlayerEntered {
            round: num,
            player: caller,
            num_tickets: granted,
            total_tickets: new_total,
        }));
        let st = self.rounds[idx].stats;
        if st.total_participants >= self.config.target_participants
            && st.total_tickets >= self.config.target_tickets && st.total_tickets >= 1 {
            self.events.push(Event::ReadyToDraw(ReadyToDraw {
                round: num,
                total_participants: st.total_participants,
            }));
        }
        proof {
            let pre = old(self).rounds@;
            let post = self.rounds@;
            let c = old(self).cur_idx();
            let cfg = self.config;
            assert forall|i: int| 0 <= i < post.len() implies round_wf(
                #[trigger] post[i],
                i + 1,
                cfg,
            ) by {
                if i != c {
                    assert(post[i] == pre[i]);
                    assert(round_wf(pre[i], i + 1, cfg));
                }
            }
            let ws = self.wins@;
            assert forall|i: int, k: int|
                0 <= i < ws.len() && 0 <= k < ws[i].rounds@.len() implies #[trigger] win_entry_ok(
                ws,
                post,
                i,
                k,
            ) by {
                assert(win_entry_ok(ws, pre, i, k));
                let r = ws[i].rounds@[k] as int;
                assert(pre[c].winner is None);
                assert(post[r - 1] == pre[r - 1]);
            }
            assert(self.events@ == old(self).events@ + enter_events(
                num,
                caller,
                granted,
                post[c].stats,
                cfg,
            ));
        }
        Ok(EnterReceipt { user_total, amount })
    }
}

} // verus!
