//! The claim flow: reentrancy-safe prize disbursement. The `claimed` flag
//! is persisted before the host performs the outbound payment, so a
//! re-entering payment callback observes `claimed == true` and is
//! rejected — at most one successful claim per round is ever possible.
use vstd::prelude::*;
use crate::error::Error;
use crate::events::{Event, PrizeClaimed};
use crate::ledger::{round_wf, RoundData};
use crate::lifecycle::{lemma_wins_of_at, lemma_wins_of_absent, win_entry_ok, wins_of,
    LuckyLedgersRaffle};
use crate::types::{Address, WinnerRecord};

verus! {

/// A claimed winner record is never altered again: no operation resets
/// the flag or rewrites who won or how much.
pub open spec fn claims_monotone(pre: Seq<RoundData>, post: Seq<RoundData>) -> bool {
    forall|j: int|
        0 <= j < pre.len() && (pre[j].winner matches Some(w) && w.claimed)
            ==> j < post.len() && (#[trigger] post[j]).winner == pre[j].winner
}

/// Sum of the still-unclaimed prize amounts among the rounds in `list`.
pub open spec fn unclaimed_total(rounds: Seq<RoundData>, list: Seq<u32>) -> int
    decreases list.len(),
{
    if list.len() == 0 {
        0
    } else {
        let rest = unclaimed_total(rounds, list.drop_last());
        let r = list.last() as int;
        if 1 <= r <= rounds.len() && rounds[r - 1].winner is Some && !rounds[r
            - 1].winner->Some_0.claimed {
            rest + rounds[r - 1].winner->Some_0.amount
        } else {
            rest
        }
    }
}

/// The still-unclaimed winner records among the rounds in `list`, in
/// list order.
pub open spec fn unclaimed_records(rounds: Seq<RoundData>, list: Seq<u32>) -> Seq<WinnerRecord>
    decreases list.len(),
{
    if list.len() == 0 {
        Seq::empty()
    } else {
        let rest = unclaimed_records(rounds, list.drop_last());
        let r = list.last() as int;
        if 1 <= r <= rounds.len() && rounds[r - 1].winner is Some && !rounds[r
            - 1].winner->Some_0.claimed {
            rest.push(rounds[r - 1].winner->Some_0)
        } else {
            rest
        }
    }
}

/// The payout events a batched claim publishes: one per newly claimed
/// round, in list order.
pub open spec fn claim_events(rounds: Seq<RoundData>, list: Seq<u32>, claimer: Address) -> Seq<
    Event,
>
    decreases list.len(),
{
    if list.len() == 0 {
        Seq::empty()
    } else {
        let rest = claim_events(rounds, list.drop_last(), claimer);
        let r = list.last() as int;
        if 1 <= r <= rounds.len() && rounds[r - 1].winner is Some && !rounds[r
            - 1].winner->Some_0.claimed {
            rest.push(Event::PrizeClaimed(PrizeClaimed {
                round: list.last(),
                winner: claimer,
                amount: rounds[r - 1].winner->Some_0.amount,
            }))
        } else {
            rest
        }
    }
}

/// Every stored winner record carries a non-negative amount.
pub open spec fn amounts_nonneg(rounds: Seq<RoundData>) -> bool {
    forall|j: int|
        0 <= j < rounds.len() && (#[trigger] rounds[j]).winner is Some
            ==> rounds[j].winner->Some_0.amount >= 0
}

/// Extending a claim list by one round adds that round's unclaimed
/// amount (or nothing) to the total.
proof fn lemma_unclaimed_take_step(rounds: Seq<RoundData>, list: Seq<u32>, k: int)
    requires
        0 <= k < list.len(),
    ensures
        unclaimed_total(rounds, list.take(k + 1)) == unclaimed_total(rounds, list.take(k)) + ({
            let r = list[k] as int;
            if 1 <= r <= rounds.len() && rounds[r - 1].winner is Some && !rounds[r
                - 1].winner->Some_0.claimed {
                rounds[r - 1].winner->Some_0.amount
            } else {
                0
            }
        }),
{
    assert(list.take(k + 1).drop_last() =~= list.take(k));
    assert(list.take(k + 1).last() == list[k]);
}

/// Claim totals grow with the list (amounts are non-negative).
proof fn lemma_unclaimed_take_mono(rounds: Seq<RoundData>, list: Seq<u32>, a: int, b: int)
    requires
        amounts_nonneg(rounds),
        0 <= a <= b <= list.len(),
    ensures
        unclaimed_total(rounds, list.take(a)) <= unclaimed_total(rounds, list.take(b)),
    decreases b - a,
{
    if a < b {
        lemma_unclaimed_take_mono(rounds, list, a, b - 1);
        lemma_unclaimed_take_step(rounds, list, b - 1);
    }
}

/// The whole list is its own full prefix.
proof fn lemma_unclaimed_take_all(rounds: Seq<RoundData>, list: Seq<u32>)
    ensures
        unclaimed_total(rounds, list.take(list.len() as int)) == unclaimed_total(rounds, list),
        unclaimed_records(rounds, list.take(list.len() as int)) == unclaimed_records(rounds, list),
        forall|claimer: Address|
            #[trigger] claim_events(rounds, list.take(list.len() as int), claimer) == claim_events(
                rounds,
                list,
                claimer,
            ),
{
    assert(list.take(list.len() as int) =~= list);
}

impl LuckyLedgersRaffle {
    /// Rounds won by `user`, in the order they were won.
    pub fn get_user_winning_rounds(&self, user: Address) -> (r: Vec<u32>)
        requires
            self.wf(),
        ensures
            r@ == self.user_wins(user),
    {
        let mut i: usize = 0;
        while i < self.wins.len()
            invariant
                self.wf(),
                i <= self.wins@.len(),
                forall|j: int| 0 <= j < i ==> (#[trigger] self.wins@[j]).user != user,
            decreases self.wins@.len() - i,
        {
            if self.wins[i].user == user {
                proof {
                    lemma_wins_of_at(self.wins@, i as int);
                }
                return self.wins[i].rounds.clone();
            }
            i = i + 1;
        }
        proof {
            lemma_wins_of_absent(self.wins@, user);
        }
        Vec::new()
    }

    /// Pays out one round's prize to its winner, check-effects order:
    /// after validating the record (`WinnerNotFound` for a round that was
    /// never completed, `NotWinner` for anyone but the recorded winner,
    /// `AlreadyClaimed` for a second attempt) the `claimed` flag is
    /// persisted first; the host performs the outbound transfer of the
    /// returned amount afterwards. Every failure pays nothing and leaves
    /// the state exactly as it was.
    pub fn claim_prize(&mut self, claimer: Address, round: u32) -> (r: Result<i128, Error>)
        requires
            old(self).wf(),
        ensures
            final(self).wf(),
            claims_monotone(old(self).rounds@, final(self).rounds@),
            ({
                let pre = *old(self);
                if !(1 <= round <= pre.rounds@.len()) || pre.rounds@[round - 1].winner is None {
                    &&& r == Err::<i128, Error>(Error::WinnerNotFound)
                    &&& *final(self) == pre
                } else {
                    let w = pre.rounds@[round - 1].winner->Some_0;
                    if claimer != w.winner {
                        &&& r == Err::<i128, Error>(Error::NotWinner)
                        &&& *final(self) == pre
                    } else if w.claimed {
                        &&& r == Err::<i128, Error>(Error::AlreadyClaimed)
                        &&& *final(self) == pre
                    } else {
                        &&& r == Ok::<i128, Error>(w.amount)
                        &&& Self::same_frame(pre, *final(self))
                        &&& final(self).rounds@ == pre.rounds@.update(
                            round - 1,
                            (RoundData {
                                winner: Some(
                                    (WinnerRecord { claimed: true, ..w }),
                                ),
                                ..pre.rounds@[round - 1]
                            }),
                        )
                        &&& final(self).events@ == pre.events@.push(Event::PrizeClaimed(
                            PrizeClaimed { round, winner: claimer, amount: w.amount },
                        ))
                    }
                }
            }),
    {
        if !(round >= 1 && (round as usize) <= self.rounds.len()) {
            return Err(Error::WinnerNotFound);
        }
        let idx = (round - 1) as usize;
        let w = match self.rounds[idx].winner {
            Some(w) => w,
            None => {
                return Err(Error::WinnerNotFound);
            },
        };
        if claimer != w.winner {
            return Err(Error::NotWinner);
        }
        if w.claimed {
            return Err(Error::AlreadyClaimed);
        }
        self.rounds[idx].winner = Some(WinnerRecord {
            winner: w.winner,
            round: w.round,
            amount: w.amount,
            claimed: true,
        });
        self.events.push(Event::PrizeClaimed(PrizeClaimed {
            round,
            winner: claimer,
            amount: w.amount,
        }));
        proof {
            let pre = old(self).rounds@;
            let post = self.rounds@;
            let c = old(self).cur_idx();
            let cfg = self.config;
            assert(round_wf(pre[c], c + 1, cfg));
            assert(pre[c].winner is None);
            assert(round - 1 != c);
            assert forall|i: int| 0 <= i < post.len() implies round_wf(
                #[trigger] post[i],
                i + 1,
                cfg,
            ) by {
                if i != round - 1 {
                    assert(post[i] == pre[i]);
                    assert(round_wf(pre[i], i + 1, cfg));
                } else {
                    assert(round_wf(pre[i], i + 1, cfg));
                    assert(post[i].tickets == pre[i].tickets);
                    assert(post[i].stats == pre[i].stats);
                    assert(post[i].buckets == pre[i].buckets);
                    assert(post[i].round == pre[i].round);
                }
            }
            let ws = self.wins@;
            assert forall|i: int, k: int|
                0 <= i < ws.len() && 0 <= k < ws[i].rounds@.len() implies #[trigger] win_entry_ok(
                ws,
                post,
                i,
                k,
            ) by {
                assert(win_entry_ok(ws, pre, i, k));
                let rr = ws[i].rounds@[k] as int;
                if rr - 1 != round - 1 {
                    assert(post[rr - 1] == pre[rr - 1]);
                }
            }
        }
        Ok(w.amount)
    }

    /// Pays out every still-unclaimed prize of `claimer` across all
    /// rounds they won, in order, returning the accumulated amount (0
    /// when nothing is owed). Already-claimed rounds are skipped. Were
    /// the accumulated amount to overflow, the whole batch fails closed
    /// with `Overflow` before any round is claimed — the operation
    /// commits fully or not at all.
    pub fn claim_all_prizes(&mut self, claimer: Address) -> (r: Result<i128, Error>)
        requires
            old(self).wf(),
        ensures
            final(self).wf(),
            claims_monotone(old(self).rounds@, final(self).rounds@),
            ({
                let pre = *old(self);
                let list = pre.user_wins(claimer);
                if unclaimed_total(pre.rounds@, list) > i128::MAX {
                    &&& r == Err::<i128, Error>(Error::Overflow)
                    &&& *final(self) == pre
                } else {
                    &&& r == Ok::<i128, Error>(unclaimed_total(pre.rounds@, list) as i128)
                    &&& Self::same_frame(pre, *final(self))
                    &&& final(self).rounds@.len() == pre.rounds@.len()
                    &&& forall|j: int|
                        0 <= j < pre.rounds@.len() && !list.contains((j + 1) as u32)
                            ==> #[trigger] final(self).rounds@[j] == pre.rounds@[j]
                    &&& forall|j: int|
                        0 <= j < pre.rounds@.len() && list.contains((j + 1) as u32)
                            ==> #[trigger] final(self).rounds@[j] == (RoundData {
                            winner: Some(
                                (WinnerRecord {
                                    claimed: true,
                                    ..pre.rounds@[j].winner->Some_0
                                }),
                            ),
                            ..pre.rounds@[j]
                        })
                    &&& final(self).events@ == pre.events@ + claim_events(
                        pre.rounds@,
                        list,
                        claimer,
                    )
                }
            }),
    {
        let ghost pre = *old(self);
        let ghost list = pre.user_wins(claimer);
        let lv = self.get_user_winning_rounds(claimer);
        proof {
            assert(amounts_nonneg(pre.rounds@)) by {
                assert forall|j: int|
                    0 <= j < pre.rounds@.len() && (#[trigger] pre.rounds@[j]).winner
                        is Some implies pre.rounds@[j].winner->Some_0.amount >= 0 by {
                    assert(round_wf(pre.rounds@[j], j + 1, pre.config));
                }
            }
            assert(list_entries_won(pre, list, claimer)) by {
                assert forall|k: int| 0 <= k < list.len() implies ({
                    let rr = #[trigger] list[k] as int;
                    &&& 1 <= rr <= pre.rounds@.len()
                    &&& pre.rounds@[rr - 1].winner is Some
                    &&& pre.rounds@[rr - 1].winner->Some_0.winner == claimer
                }) by {
                    lemma_listed_round_won(pre, claimer, k);
                }
            }
            assert forall|k1: int, k2: int| 0 <= k1 < k2 < list.len() implies list[k1]
                < list[k2] by {
                lemma_listed_rounds_increase(pre, claimer, k1, k2);
            }
        }
        // First pass: decide, without touching anything, whether the
        // accumulated payout fits — a failed batch must change nothing.
        let mut total: i128 = 0;
        let mut k: usize = 0;
        while k < lv.len()
            invariant
                *self == pre,
                pre.wf(),
                lv@ == list,
                list == pre.user_wins(claimer),
                amounts_nonneg(pre.rounds@),
                list_entries_won(pre, list, claimer),
                k <= list.len(),
                total as int == unclaimed_total(pre.rounds@, list.take(k as int)),
                total >= 0,
            decreases list.len() - k,
        {
            let r = lv[k];
            let idx = (r - 1) as usize;
            let w = match self.rounds[idx].winner {
                Some(w) => w,
                None => {
                    proof {
                        assert(false);
                    }
                    return Err(Error::WinnerNotFound);
                },
            };
            proof {
                lemma_unclaimed_take_step(pre.rounds@, list, k as int);
            }
            if !w.claimed {
                total = match total.checked_add(w.amount) {
                    Some(t) => t,
                    None => {
                        proof {
                            lemma_unclaimed_take_mono(
                                pre.rounds@,
                                list,
                                k as int + 1,
                                list.len() as int,
                            );
                            lemma_unclaimed_take_all(pre.rounds@, list);
                        }
                        return Err(Error::Overflow);
                    },
                };
            }
            k = k + 1;
        }
        proof {
            lemma_unclaimed_take_all(pre.rounds@, list);
        }
        // Second pass: claim each still-unclaimed round, in order.
        let mut total_claimed: i128 = 0;
        let mut k2: usize = 0;
        while k2 < lv.len()
            invariant
                self.wf(),
                pre.wf(),
                lv@ == list,
                list == pre.user_wins(claimer),
                amounts_nonneg(pre.rounds@),
                list_entries_won(pre, list, claimer),
                forall|a: int, b: int| 0 <= a < b < list.len() ==> list[a] < list[b],
                unclaimed_total(pre.rounds@, list) <= i128::MAX,
                k2 <= list.len(),
                total_claimed as int == unclaimed_total(pre.rounds@, list.take(k2 as int)),
                total_claimed >= 0,
                LuckyLedgersRaffle::same_frame(pre, *self),
                self.rounds@.len() == pre.rounds@.len(),
                forall|j: int|
                    0 <= j < pre.rounds@.len() && !list.take(k2 as int).contains((j + 1) as u32)
                        ==> #[trigger] self.rounds@[j] == pre.rounds@[j],
                forall|j: int|
                    0 <= j < pre.rounds@.len() && list.take(k2 as int).contains((j + 1) as u32)
                        ==> #[trigger] self.rounds@[j] == (RoundData {
                        winner: Some(
                            (WinnerRecord { claimed: true, ..pre.rounds@[j].winner->Some_0 }),
                        ),
                        ..pre.rounds@[j]
                    }),
                self.events@ == pre.events@ + claim_events(
                    pre.rounds@,
                    list.take(k2 as int),
                    claimer,
                ),
            decreases list.len() - k2,
        {
            let r = lv[k2];
            let idx = (r - 1) as usize;
            proof {
                assert(!list.take(k2 as int).contains(r)) by {
                    if list.take(k2 as int).contains(r) {
                        let j = choose|j: int|
                            0 <= j < k2 && list.take(k2 as int)[j] == r;
                        assert(list[j] < list[k2 as int]);
                    }
                }
                assert(self.rounds@[r - 1] == pre.rounds@[r - 1]);
                lemma_unclaimed_take_step(pre.rounds@, list, k2 as int);
                assert(claim_events(pre.rounds@, list.take(k2 as int + 1), claimer)
                    == if pre.rounds@[r - 1].winner->Some_0.claimed {
                    claim_events(pre.rounds@, list.take(k2 as int), claimer)
                } else {
                    claim_events(pre.rounds@, list.take(k2 as int), claimer).push(
                        Event::PrizeClaimed(PrizeClaimed {
                            round: r,
                            winner: claimer,
                            amount: pre.rounds@[r - 1].winner->Some_0.amount,
                        }),
                    )
                }) by {
                    assert(list.take(k2 as int + 1).drop_last() =~= list.take(k2 as int));
                    assert(list.take(k2 as int + 1).last() == list[k2 as int]);
                }
            }
            let wopt = self.rounds[idx].winner;
            if let Some(record) = wopt {
                if !record.claimed {
                    let ghost before = *self;
                    let amount = match self.claim_prize(claimer, r) {
                        Ok(a) => a,
                        Err(e) => {
                            proof {
                                assert(false);
                            }
                            return Err(e);
                        },
                    };
                    proof {
                        lemma_unclaimed_take_mono(
                            pre.rounds@,
                            list,
                            k2 as int + 1,
                            list.len() as int,
                        );
                        lemma_unclaimed_take_all(pre.rounds@, list);
                        lemma_claim_all_state_step(pre, before, *self, list, claimer, k2 as int, r);
                    }
                    total_claimed = match total_claimed.checked_add(amount) {
                        Some(t) => t,
                        None => {
                            proof {
                                assert(false);
                            }
                            return Err(Error::Overflow);
                        },
                    };
                } else {
                    proof {
                        lemma_claim_all_skip_step(pre, *self, list, claimer, k2 as int, r);
                    }
                }
            } else {
                proof {
                    assert(false);
                }
            }
            k2 = k2 + 1;
        }
        proof {
            assert(list.take(list.len() as int) =~= list);
            assert forall|j: int|
                0 <= j < pre.rounds@.len() && (pre.rounds@[j].winner matches Some(w)
                    && w.claimed) implies j < self.rounds@.len() && (
            #[trigger] self.rounds@[j]).winner == pre.rounds@[j].winner by {
                if list.contains((j + 1) as u32) {
                }
            }
        }
        Ok(total_claimed)
    }

    /// The still-unclaimed winner records of `user`, in the order the
    /// rounds were won.
    pub fn get_unclaimed_prizes(&self, user: Address) -> (r: Vec<WinnerRecord>)
        requires
            self.wf(),
        ensures
            r@ == unclaimed_records(self.rounds@, self.user_wins(user)),
    {
        let lv = self.get_user_winning_rounds(user);
        let ghost list = self.user_wins(user);
        proof {
            assert forall|k: int| 0 <= k < list.len() implies ({
                let rr = #[trigger] list[k] as int;
                &&& 1 <= rr <= self.rounds@.len()
                &&& self.rounds@[rr - 1].winner is Some
            }) by {
                lemma_listed_round_won(*self, user, k);
            }
        }
        let mut out: Vec<WinnerRecord> = Vec::new();
        let mut k: usize = 0;
        while k < lv.len()
            invariant
                lv@ == list,
                k <= list.len(),
                forall|kk: int| 0 <= kk < list.len() ==> ({
                    let rr = #[trigger] list[kk] as int;
                    &&& 1 <= rr <= self.rounds@.len()
                    &&& self.rounds@[rr - 1].winner is Some
                }),
                out@ == unclaimed_records(self.rounds@, list.take(k as int)),
            decreases list.len() - k,
        {
            let r = lv[k];
            let idx = (r - 1) as usize;
            proof {
                assert(list.take(k as int + 1).drop_last() =~= list.take(k as int));
                assert(list.take(k as int + 1).last() == list[k as int]);
            }
            if let Some(record) = self.rounds[idx].winner {
                if !record.claimed {
                    out.push(record);
                }
            }
            k = k + 1;
        }
        proof {
            assert(list.take(list.len() as int) =~= list);
        }
        out
    }
}

/// Every round in a user's winning list exists, is completed, and names
/// that user as its winner.
pub open spec fn list_entries_won(
    state: LuckyLedgersRaffle,
    list: Seq<u32>,
    claimer: Address,
) -> bool {
    forall|k: int| 0 <= k < list.len() ==> ({
        let rr = #[trigger] list[k] as int;
        &&& 1 <= rr <= state.rounds@.len()
        &&& state.rounds@[rr - 1].winner is Some
        &&& state.rounds@[rr - 1].winner->Some_0.winner == claimer
    })
}

/// A round listed in a user's winning-round index was really won by them:
/// follows from the index invariant.
proof fn lemma_listed_round_won(state: LuckyLedgersRaffle, user: Address, k: int)
    requires
        state.wf(),
        0 <= k < state.user_wins(user).len(),
    ensures
        ({
            let rr = state.user_wins(user)[k] as int;
            &&& 1 <= rr <= state.rounds@.len()
            &&& state.rounds@[rr - 1].winner is Some
            &&& state.rounds@[rr - 1].winner->Some_0.winner == user
        }),
{
    let ws = state.wins@;
    if exists|i: int| 0 <= i < ws.len() && ws[i].user == user {
        let i = choose|i: int| 0 <= i < ws.len() && (#[trigger] ws[i]).user == user;
        lemma_wins_of_at(ws, i);
        assert(win_entry_ok(ws, state.rounds@, i, k));
    } else {
        lemma_wins_of_absent(ws, user);
    }
}

/// A user's winning-round list is strictly increasing: follows from the
/// index invariant.
proof fn lemma_listed_rounds_increase(
    state: LuckyLedgersRaffle,
    user: Address,
    k1: int,
    k2: int,
)
    requires
        state.wf(),
        0 <= k1 < k2 < state.user_wins(user).len(),
    ensures
        state.user_wins(user)[k1] < state.user_wins(user)[k2],
{
    let ws = state.wins@;
    if exists|i: int| 0 <= i < ws.len() && ws[i].user == user {
        let i = choose|i: int| 0 <= i < ws.len() && (#[trigger] ws[i]).user == user;
        lemma_wins_of_at(ws, i);
    } else {
        lemma_wins_of_absent(ws, user);
    }
}

/// One claiming step of the batched claim rewrites exactly the round it
/// claimed, leaving the rest of the partial picture intact.
proof fn lemma_claim_all_state_step(
    pre: LuckyLedgersRaffle,
    before: LuckyLedgersRaffle,
    after: LuckyLedgersRaffle,
    list: Seq<u32>,
    claimer: Address,
    k: int,
    r: u32,
)
    requires
        0 <= k < list.len(),
        r == list[k],
        pre.rounds@.len() <= u32::MAX,
        forall|a: int, b: int| 0 <= a < b < list.len() ==> list[a] < list[b],
        list_entries_won(pre, list, claimer),
        before.rounds@.len() == pre.rounds@.len(),
        after.rounds@.len() == before.rounds@.len(),
        forall|j: int|
            0 <= j < pre.rounds@.len() && !list.take(k).contains((j + 1) as u32)
                ==> #[trigger] before.rounds@[j] == pre.rounds@[j],
        forall|j: int|
            0 <= j < pre.rounds@.len() && list.take(k).contains((j + 1) as u32)
                ==> #[trigger] before.rounds@[j] == (RoundData {
                winner: Some(
                    (WinnerRecord { claimed: true, ..pre.rounds@[j].winner->Some_0 }),
                ),
                ..pre.rounds@[j]
            }),
        before.rounds@[r - 1] == pre.rounds@[r - 1],
        after.rounds@ == before.rounds@.update(
            r - 1,
            (RoundData {
                winner: Some(
                    (WinnerRecord {
                        claimed: true,
                        ..before.rounds@[r - 1].winner->Some_0
                    }),
                ),
                ..before.rounds@[r - 1]
            }),
        ),
    ensures
        forall|j: int|
            0 <= j < pre.rounds@.len() && !list.take(k + 1).contains((j + 1) as u32)
                ==> #[trigger] after.rounds@[j] == pre.rounds@[j],
        forall|j: int|
            0 <= j < pre.rounds@.len() && list.take(k + 1).contains((j + 1) as u32)
                ==> #[trigger] after.rounds@[j] == (RoundData {
                winner: Some(
                    (WinnerRecord { claimed: true, ..pre.rounds@[j].winner->Some_0 }),
                ),
                ..pre.rounds@[j]
            }),
{
    assert(list.take(k + 1).drop_last() =~= list.take(k));
    assert forall|j: int|
        0 <= j < pre.rounds@.len() && !list.take(k + 1).contains(
            (j + 1) as u32,
        ) implies #[trigger] after.rounds@[j] == pre.rounds@[j] by {
        assert(!list.take(k).contains((j + 1) as u32)) by {
            if list.take(k).contains((j + 1) as u32) {
                let a = choose|a: int| 0 <= a < k && list.take(k)[a] == (j + 1) as u32;
                assert(list.take(k + 1)[a] == (j + 1) as u32);
            }
        }
        assert(j + 1 != r) by {
            if j + 1 == r {
                assert(list.take(k + 1)[k] == r);
            }
        }
    }
    assert forall|j: int|
        0 <= j < pre.rounds@.len() && list.take(k + 1).contains(
            (j + 1) as u32,
        ) implies #[trigger] after.rounds@[j] == (RoundData {
        winner: Some((WinnerRecord { claimed: true, ..pre.rounds@[j].winner->Some_0 })),
        ..pre.rounds@[j]
    }) by {
        let a = choose|a: int| 0 <= a <= k && #[trigger] list.take(k + 1)[a] == (j + 1) as u32;
        if a < k {
            assert(list.take(k)[a] == (j + 1) as u32);
            assert(list.take(k).contains((j + 1) as u32));
            assert(j + 1 != r) by {
                if j + 1 == r {
                    assert(list[a] < list[k]);
                }
            }
            assert(after.rounds@[j] == before.rounds@[j]);
        } else {
            assert(j + 1 == r);
        }
    }
}

/// One skipping step of the batched claim (round already claimed) leaves
/// the partial picture intact.
proof fn lemma_claim_all_skip_step(
    pre: LuckyLedgersRaffle,
    cur: LuckyLedgersRaffle,
    list: Seq<u32>,
    claimer: Address,
    k: int,
    r: u32,
)
    requires
        0 <= k < list.len(),
        r == list[k],
        pre.rounds@.len() <= u32::MAX,
        list_entries_won(pre, list, claimer),
        cur.rounds@.len() == pre.rounds@.len(),
        forall|j: int|
            0 <= j < pre.rounds@.len() && !list.take(k).contains((j + 1) as u32)
                ==> #[trigger] cur.rounds@[j] == pre.rounds@[j],
        forall|j: int|
            0 <= j < pre.rounds@.len() && list.take(k).contains((j + 1) as u32)
                ==> #[trigger] cur.rounds@[j] == (RoundData {
                winner: Some(
                    (WinnerRecord { claimed: true, ..pre.rounds@[j].winner->Some_0 }),
                ),
                ..pre.rounds@[j]
            }),
        cur.rounds@[r - 1] == pre.rounds@[r - 1],
        pre.rounds@[r - 1].winner->Some_0.claimed,
    ensures
        forall|j: int|
            0 <= j < pre.rounds@.len() && !list.take(k + 1).contains((j + 1) as u32)
                ==> #[trigger] cur.rounds@[j] == pre.rounds@[j],
        forall|j: int|
            0 <= j < pre.rounds@.len() && list.take(k + 1).contains((j + 1) as u32)
                ==> #[trigger] cur.rounds@[j] == (RoundData {
                winner: Some(
                    (WinnerRecord { claimed: true, ..pre.rounds@[j].winner->Some_0 }),
                ),
                ..pre.rounds@[j]
            }),
{
    assert(list.take(k + 1).drop_last() =~= list.take(k));
    assert forall|j: int|
        0 <= j < pre.rounds@.len() && !list.take(k + 1).contains(
            (j + 1) as u32,
        ) implies #[trigger] cur.rounds@[j] == pre.rounds@[j] by {
        assert(!list.take(k).contains((j + 1) as u32)) by {
            if list.take(k).contains((j + 1) as u32) {
                let a = choose|a: int| 0 <= a < k && list.take(k)[a] == (j + 1) as u32;
                assert(list.take(k + 1)[a] == (j + 1) as u32);
            }
        }
    }
    assert forall|j: int|
        0 <= j < pre.rounds@.len() && list.take(k + 1).contains(
            (j + 1) as u32,
        ) implies #[trigger] cur.rounds@[j] == (RoundData {
        winner: Some((WinnerRecord { claimed: true, ..pre.rounds@[j].winner->Some_0 })),
        ..pre.rounds@[j]
    }) by {
        let a = choose|a: int| 0 <= a <= k && #[trigger] list.take(k + 1)[a] == (j + 1) as u32;
        if a < k {
            assert(list.take(k)[a] == (j + 1) as u32);
            assert(list.take(k).contains((j + 1) as u32));
        } else {
            assert(j + 1 == r);
            assert(cur.rounds@[j] == pre.rounds@[j]);
            assert(pre.rounds@[j].winner == Some(
                (WinnerRecord { claimed: true, ..pre.rounds@[j].winner->Some_0 }),
            ));
        }
    }
}

} // verus!
