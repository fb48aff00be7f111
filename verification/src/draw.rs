//! The oracle callback: authenticates the caller as the configured
//! oracle, selects the ticket-weighted winner of the drawing round,
//! persists the winner record, completes the round and immediately opens
//! the next one.
use vstd::prelude::*;
use crate::error::Error;
use crate::events::{Event, RoundStarted, WinnerSelected};
use crate::ledger::{counts_positive, distinct_users, lemma_ticket_sum_take_all,
    lemma_ticket_sum_take_mono, lemma_ticket_sum_take_step, lemma_tickets_of_at,
    lookup_user_tickets, round_wf, ticket_sum, tickets_of, RoundData};
use crate::lifecycle::{lemma_wins_of_absent, lemma_wins_of_at, lemma_wins_of_push,
    lemma_wins_of_update, win_entry_ok,
    wins_of, LuckyLedgersRaffle, UserWins};
use crate::types::{Address, Round, State, WinnerRecord};
use crate::winner::{is_winner_at, lemma_winner_in_range, lemma_winner_unique, winner_index};

verus! {

impl LuckyLedgersRaffle {
    /// Walks the participants of `round` in registration order, keeping a
    /// running ticket offset, and returns the participant whose half-open
    /// ticket range contains `winning_ticket`. Under the storage
    /// invariant such a participant always exists, so the
    /// stats-divergence outcome `WinnerNotFound` is proven unreachable.
    pub fn find_winner_by_ticket(&self, round: u32, winning_ticket: u32) -> (r: Result<
        Address,
        Error,
    >)
        requires
            self.wf(),
            1 <= round <= self.rounds@.len(),
            winning_ticket < self.rounds@[round - 1].stats.total_tickets,
        ensures
            ({
                let s = self.rounds@[round - 1].tickets@;
                r == Ok::<Address, Error>(s[winner_index(s, winning_ticket as int)].user)
            }),
    {
        let idx = (round - 1) as usize;
        let rd = &self.rounds[idx];
        let ghost s = rd.tickets@;
        proof {
            assert(round_wf(self.rounds@[round - 1], round as int, self.config));
            lemma_ticket_sum_take_all(s);
        }
        let participants = rd.get_all_participants();
        let mut ticket_counter: u32 = 0;
        let mut m: usize = 0;
        while m < participants.len()
            invariant
                1 <= round <= self.rounds@.len(),
                s == self.rounds@[round - 1].tickets@,
                s == rd.tickets@,
                distinct_users(s),
                counts_positive(s),
                participants@.len() == s.len(),
                forall|i: int| 0 <= i < s.len() ==> participants@[i] == s[i].user,
                m <= s.len(),
                ticket_counter as int == ticket_sum(s.take(m as int)),
                winning_ticket as int >= ticket_sum(s.take(m as int)),
                (winning_ticket as int) < ticket_sum(s),
                ticket_sum(s) <= u32::MAX,
            decreases s.len() - m,
        {
            let user_tickets = lookup_user_tickets(&rd.tickets, participants[m]);
            proof {
                lemma_tickets_of_at(s, m as int);
                lemma_ticket_sum_take_step(s, m as int);
                lemma_ticket_sum_take_mono(s, m as int + 1, s.len() as int);
                lemma_ticket_sum_take_all(s);
            }
            let ticket_range_end = ticket_counter + user_tickets;
            if winning_ticket >= ticket_counter && winning_ticket < ticket_range_end {
                proof {
                    let t = winning_ticket as int;
                    assert(is_winner_at(s, t, m as int));
                    lemma_winner_in_range(s, t);
                    lemma_winner_unique(s, t, m as int, winner_index(s, t));
                }
                return Ok(participants[m]);
            }
            ticket_counter = ticket_range_end;
            m = m + 1;
        }
        proof {
            lemma_ticket_sum_take_all(s);
            assert(false);
        }
        Err(Error::WinnerNotFound)
    }

    /// Appends `round` to `user`'s winning-round index entry, creating
    /// the entry on their first win.
    fn add_winning_round(&mut self, user: Address, round: u32)
        requires
            forall|a: int, b: int|
                0 <= a < b < old(self).wins@.len()
                    ==> old(self).wins@[a].user != old(self).wins@[b].user,
        ensures
            final(self).admin == old(self).admin,
            final(self).config == old(self).config,
            final(self).total_rounds == old(self).total_rounds,
            final(self).current_round == old(self).current_round,
            final(self).rounds@ == old(self).rounds@,
            final(self).events@ == old(self).events@,
            forall|a: int, b: int|
                0 <= a < b < final(self).wins@.len()
                    ==> final(self).wins@[a].user != final(self).wins@[b].user,
            wins_of(final(self).wins@, user) == wins_of(old(self).wins@, user).push(round),
            forall|u: Address| u != user
                ==> #[trigger] wins_of(final(self).wins@, u) == wins_of(old(self).wins@, u),
            ({
                let ws = old(self).wins@;
                let ws2 = final(self).wins@;
                ||| (exists|i: int|
                    0 <= i < ws.len() && ws[i].user == user && ws2.len() == ws.len()
                        && ws2[i].user == user && ws2[i].rounds@ == ws[i].rounds@.push(round)
                        && (forall|j: int| 0 <= j < ws.len() && j != i ==> ws2[j] == ws[j]))
                ||| ((forall|i: int| 0 <= i < ws.len() ==> (#[trigger] ws[i]).user != user)
                    && ws2.len() == ws.len() + 1 && ws2.last().user == user
                    && ws2.last().rounds@ =~= seq![round] && (forall|j: int|
                    0 <= j < ws.len() ==> ws2[j] == ws[j]))
            }),
    {
        let ghost ws = self.wins@;
        let mut i: usize = 0;
        while i < self.wins.len()
            invariant
                *self == *old(self),
                ws == self.wins@,
                i <= ws.len(),
                forall|a: int, b: int| 0 <= a < b < ws.len() ==> ws[a].user != ws[b].user,
                forall|j: int| 0 <= j < i ==> (#[trigger] ws[j]).user != user,
            decreases ws.len() - i,
        {
            if self.wins[i].user == user {
                self.wins[i].rounds.push(round);
                proof {
                    assert(self.wins@ == ws.update(
                        i as int,
                        UserWins { user, rounds: self.wins@[i as int].rounds },
                    ));
                    lemma_wins_of_at(ws, i as int);
                    assert forall|u: Address| #[trigger] wins_of(self.wins@, u) == if u == user {
                        wins_of(ws, u).push(round)
                    } else {
                        wins_of(ws, u)
                    } by {
                        lemma_wins_of_update(ws, i as int, self.wins@[i as int], u);
                    }
                }
                return ;
            }
            i = i + 1;
        }
        let mut rounds: Vec<u32> = Vec::new();
        rounds.push(round);
        self.wins.push(UserWins { user, rounds });
        proof {
            lemma_wins_of_absent(ws, user);
            assert forall|u: Address| u != user implies #[trigger] wins_of(self.wins@, u)
                == wins_of(ws, u) by {
                lemma_wins_of_push(ws, self.wins@.last(), u);
            }
            lemma_wins_of_push(ws, self.wins@.last(), user);
            assert(self.wins@.last().rounds@ =~= seq![round]);
            assert(wins_of(self.wins@, user) =~= wins_of(ws, user).push(round));
        }
    }

    /// The oracle's callback delivering `random_value` for the round in
    /// DRAWING.
    ///
    /// Only the configured oracle address is accepted (`UnauthorizedVRF`
    /// otherwise — the sole authentication boundary against forged
    /// draws); replay or out-of-order delivery fails with `InvalidState`.
    /// On success the winning ticket is `random_value` modulo the round's
    /// ticket total, the covering participant is recorded as winner of
    /// the full prize pool (unclaimed), the round completes, the winner's
    /// index gains the round, and the next round opens. Every failure
    /// leaves the state exactly as it was.
    pub fn fulfill_random(&mut self, vrf: Address, random_value: u64) -> (r: Result<(), Error>)
        requires
            old(self).wf(),
        ensures
            final(self).wf(),
            crate::claims::claims_monotone(old(self).rounds@, final(self).rounds@),
            vrf != old(self).config.vrf_contract ==> {
                &&& r == Err::<(), Error>(Error::UnauthorizedVRF)
                &&& *final(self) == *old(self)
            },
            vrf == old(self).config.vrf_contract && !(old(self).cur().round.state is DRAWING)
                ==> {
                &&& r == Err::<(), Error>(Error::InvalidState)
                &&& *final(self) == *old(self)
            },
            vrf == old(self).config.vrf_contract && old(self).cur().round.state is DRAWING
                && old(self).total_rounds == u32::MAX ==> {
                &&& r == Err::<(), Error>(Error::Overflow)
                &&& *final(self) == *old(self)
            },
            vrf == old(self).config.vrf_contract && old(self).cur().round.state is DRAWING
                && old(self).total_rounds < u32::MAX ==> ({
                let pre = *old(self);
                let rd = pre.cur();
                let num = rd.round.round;
                let t = (random_value as int) % (rd.stats.total_tickets as int);
                let w = rd.tickets@[winner_index(rd.tickets@, t)].user;
                let record = WinnerRecord {
                    winner: w,
                    round: num,
                    amount: rd.stats.prize_pool,
                    claimed: false,
                };
                &&& r == Ok::<(), Error>(())
                &&& final(self).admin == pre.admin
                &&& final(self).config == pre.config
                &&& final(self).total_rounds == pre.total_rounds + 1
                &&& final(self).current_round == pre.total_rounds + 1
                &&& final(self).rounds@.len() == pre.rounds@.len() + 1
                &&& forall|i: int| 0 <= i < pre.cur_idx()
                        ==> #[trigger] final(self).rounds@[i] == pre.rounds@[i]
                &&& final(self).rounds@[pre.cur_idx()] == (RoundData {
                    round: Round {
                        round: num,
                        state: State::COMPLETED,
                        vrf_request_id: rd.round.vrf_request_id,
                    },
                    winner: Some(record),
                    ..rd
                })
                &&& final(self).cur().round == (Round {
                    round: (num + 1) as u32,
                    state: State::OPEN,
                    vrf_request_id: None,
                })
                &&& final(self).cur().stats.total_tickets == 0
                &&& final(self).cur().stats.total_participants == 0
                &&& final(self).cur().stats.prize_pool == 0
                &&& final(self).cur().tickets@.len() == 0
                &&& final(self).cur().winner is None
                &&& final(self).user_wins(w) == pre.user_wins(w).push(num)
                &&& forall|u: Address| u != w
                        ==> #[trigger] final(self).user_wins(u) == pre.user_wins(u)
                &&& final(self).events@ == pre.events@ + seq![
                    Event::WinnerSelected(WinnerSelected {
                        round: num,
                        winner: w,
                        prize_amount: rd.stats.prize_pool,
                    }),
                    Event::RoundStarted(RoundStarted { round: (num + 1) as u32 }),
                ]
            }),
    {
        if vrf != self.config.vrf_contract {
            return Err(Error::UnauthorizedVRF);
        }
        let idx = (self.current_round - 1) as usize;
        if self.rounds[idx].round.state != State::DRAWING {
            return Err(Error::InvalidState);
        }
        if self.total_rounds == u32::MAX {
            return Err(Error::Overflow);
        }
        let ghost pre = *old(self);
        let ghost c = pre.cur_idx();
        let stats = self.rounds[idx].stats;
        let winning_ticket = (random_value % (stats.total_tickets as u64)) as u32;
        let winner = match self.find_winner_by_ticket(self.current_round, winning_ticket) {
            Ok(w) => w,
            Err(e) => {
                return Err(e);
            },
        };
        let num = self.rounds[idx].round.round;
        let rid = self.rounds[idx].round.vrf_request_id;
        let record = WinnerRecord { winner, round: num, amount: stats.prize_pool, claimed: false };
        self.rounds[idx].winner = Some(record);
        self.rounds[idx].round = Round {
            round: num,
            state: State::COMPLETED,
            vrf_request_id: rid,
        };
        proof {
            let s = pre.cur().tickets@;
            let t = winning_ticket as int;
            lemma_winner_in_range(s, t);
            lemma_tickets_of_at(s, winner_index(s, t));
            assert(tickets_of(s, winner) >= 1);
            assert forall|i: int| 0 <= i < self.rounds@.len() implies round_wf(
                #[trigger] self.rounds@[i],
                i + 1,
                self.config,
            ) by {
                if i != c {
                    assert(self.rounds@[i] == pre.rounds@[i]);
                    assert(round_wf(pre.rounds@[i], i + 1, self.config));
                } else {
                    assert(self.rounds@[c].tickets == pre.rounds@[c].tickets);
                    assert(self.rounds@[c].buckets == pre.rounds@[c].buckets);
                    assert(self.rounds@[c].stats == pre.rounds@[c].stats);
                    assert(round_wf(pre.rounds@[c], c + 1, self.config));
                }
            }
        }
        self.add_winning_round(winner, num);
        proof {
            let ws = pre.wins@;
            let ws2 = self.wins@;
            let post = self.rounds@;
            assert forall|i: int, k: int|
                0 <= i < ws2.len() && 0 <= k < ws2[i].rounds@.len() implies #[trigger] win_entry_ok(
                ws2,
                post,
                i,
                k,
            ) by {
                lemma_fulfill_win_entry(pre, *self, ws, ws2, post, c, num, winner, record, i, k);
            }
            assert forall|i: int, k1: int, k2: int|
                0 <= i < ws2.len() && 0 <= k1 < k2 < ws2[i].rounds@.len() implies ws2[i].rounds@[k1]
                < ws2[i].rounds@[k2] by {
                lemma_fulfill_win_order(pre, ws, ws2, post, c, num, winner, i, k1, k2);
            }
        }
        self.events.push(Event::WinnerSelected(WinnerSelected {
            round: num,
            winner,
            prize_amount: stats.prize_pool,
        }));
        let ghost mid = self.rounds@;
        self.create_new_round();
        self.events.push(Event::RoundStarted(RoundStarted { round: self.current_round }));
        proof {
            let post = self.rounds@;
            let cfg = self.config;
            assert forall|i: int| 0 <= i < post.len() implies round_wf(
                #[trigger] post[i],
                i + 1,
                cfg,
            ) by {
                if i < mid.len() {
                    assert(post[i] == mid[i]);
                    assert(round_wf(mid[i], i + 1, cfg));
                }
            }
            let ws2 = self.wins@;
            assert forall|i: int, k: int|
                0 <= i < ws2.len() && 0 <= k < ws2[i].rounds@.len() implies #[trigger] win_entry_ok(
                ws2,
                post,
                i,
                k,
            ) by {
                assert(win_entry_ok(ws2, mid, i, k));
                let rr = ws2[i].rounds@[k] as int;
                assert(post[rr - 1] == mid[rr - 1]);
            }
            assert(self.events@ =~= pre.events@ + seq![
                Event::WinnerSelected(WinnerSelected {
                    round: num,
                    winner,
                    prize_amount: stats.prize_pool,
                }),
                Event::RoundStarted(RoundStarted { round: (num + 1) as u32 }),
            ]);
        }
        Ok(())
    }
}

/// After completing round `num` the winning-round index stays sound:
/// old entries still point at their untouched rounds, and the entry just
/// added for the winner points at the freshly completed round.
proof fn lemma_fulfill_win_entry(
    pre: LuckyLedgersRaffle,
    post_state: LuckyLedgersRaffle,
    ws: Seq<UserWins>,
    ws2: Seq<UserWins>,
    post: Seq<RoundData>,
    c: int,
    num: u32,
    winner: Address,
    record: WinnerRecord,
    i: int,
    k: int,
)
    requires
        pre.wf(),
        ws == pre.wins@,
        post.len() == pre.rounds@.len(),
        c == pre.cur_idx(),
        num == pre.cur().round.round,
        pre.cur().winner is None,
        forall|j: int| 0 <= j < c ==> #[trigger] post[j] == pre.rounds@[j],
        post[c].winner == Some(record),
        record.winner == winner,
        record.round == num,
        ({
            ||| (exists|a: int|
                0 <= a < ws.len() && ws[a].user == winner && ws2.len() == ws.len()
                    && ws2[a].user == winner && ws2[a].rounds@ == ws[a].rounds@.push(num)
                    && (forall|j: int| 0 <= j < ws.len() && j != a ==> ws2[j] == ws[j]))
            ||| ((forall|a: int| 0 <= a < ws.len() ==> (#[trigger] ws[a]).user != winner)
                && ws2.len() == ws.len() + 1 && ws2.last().user == winner && ws2.last().rounds@
                =~= seq![num] && (forall|j: int| 0 <= j < ws.len() ==> ws2[j] == ws[j]))
        }),
        0 <= i < ws2.len(),
        0 <= k < ws2[i].rounds@.len(),
    ensures
        win_entry_ok(ws2, post, i, k),
{
    assert(num == c + 1);
    if exists|a: int|
        0 <= a < ws.len() && ws[a].user == winner && ws2.len() == ws.len() && ws2[a].user == winner
            && ws2[a].rounds@ == ws[a].rounds@.push(num) && (forall|j: int|
            0 <= j < ws.len() && j != a ==> ws2[j] == ws[j]) {
        let a = choose|a: int|
            0 <= a < ws.len() && ws[a].user == winner && ws2.len() == ws.len() && ws2[a].user
                == winner && ws2[a].rounds@ == ws[a].rounds@.push(num) && (forall|j: int|
                0 <= j < ws.len() && j != a ==> ws2[j] == ws[j]);
        if i == a {
            if k < ws[a].rounds@.len() {
                assert(win_entry_ok(ws, pre.rounds@, a, k));
                let r = ws[a].rounds@[k] as int;
                assert(pre.rounds@[r - 1].winner is Some);
                assert(r - 1 != c);
                assert(post[r - 1] == pre.rounds@[r - 1]);
            } else {
                assert(ws2[i].rounds@[k] == num);
            }
        } else {
            assert(ws2[i] == ws[i]);
            assert(win_entry_ok(ws, pre.rounds@, i, k));
            let r = ws[i].rounds@[k] as int;
            assert(pre.rounds@[r - 1].winner is Some);
            assert(r - 1 != c);
            assert(post[r - 1] == pre.rounds@[r - 1]);
        }
    } else {
        if i < ws.len() {
            assert(ws2[i] == ws[i]);
            assert(win_entry_ok(ws, pre.rounds@, i, k));
            let r = ws[i].rounds@[k] as int;
            assert(pre.rounds@[r - 1].winner is Some);
            assert(r - 1 != c);
            assert(post[r - 1] == pre.rounds@[r - 1]);
        } else {
            assert(i == ws2.len() - 1);
            assert(ws2[i].rounds@[k] == num);
        }
    }
}

/// After completing round `num` each user's winning list stays strictly
/// increasing: every previously listed round is older than `num`.
proof fn lemma_fulfill_win_order(
    pre: LuckyLedgersRaffle,
    ws: Seq<UserWins>,
    ws2: Seq<UserWins>,
    post: Seq<RoundData>,
    c: int,
    num: u32,
    winner: Address,
    i: int,
    k1: int,
    k2: int,
)
    requires
        pre.wf(),
        ws == pre.wins@,
        c == pre.cur_idx(),
        num == pre.cur().round.round,
        pre.cur().winner is None,
        ({
            ||| (exists|a: int|
                0 <= a < ws.len() && ws[a].user == winner && ws2.len() == ws.len()
                    && ws2[a].user == winner && ws2[a].rounds@ == ws[a].rounds@.push(num)
                    && (forall|j: int| 0 <= j < ws.len() && j != a ==> ws2[j] == ws[j]))
            ||| ((forall|a: int| 0 <= a < ws.len() ==> (#[trigger] ws[a]).user != winner)
                && ws2.len() == ws.len() + 1 && ws2.last().user == winner && ws2.last().rounds@
                =~= seq![num] && (forall|j: int| 0 <= j < ws.len() ==> ws2[j] == ws[j]))
        }),
        0 <= i < ws2.len(),
        0 <= k1 < k2 < ws2[i].rounds@.len(),
    ensures
        ws2[i].rounds@[k1] < ws2[i].rounds@[k2],
{
    assert(num == c + 1);
    if exists|a: int|
        0 <= a < ws.len() && ws[a].user == winner && ws2.len() == ws.len() && ws2[a].user == winner
            && ws2[a].rounds@ == ws[a].rounds@.push(num) && (forall|j: int|
            0 <= j < ws.len() && j != a ==> ws2[j] == ws[j]) {
        let a = choose|a: int|
            0 <= a < ws.len() && ws[a].user == winner && ws2.len() == ws.len() && ws2[a].user
                == winner && ws2[a].rounds@ == ws[a].rounds@.push(num) && (forall|j: int|
                0 <= j < ws.len() && j != a ==> ws2[j] == ws[j]);
        if i == a {
            if k2 < ws[a].rounds@.len() {
            } else {
                assert(ws2[i].rounds@[k2] == num);
                assert(win_entry_ok(ws, pre.rounds@, a, k1));
                let r = ws[a].rounds@[k1] as int;
                assert(pre.rounds@[r - 1].winner is Some);
                assert(r - 1 != c);
                assert(r < num);
            }
        } else {
            assert(ws2[i] == ws[i]);
        }
    } else {
        if i < ws.len() {
            assert(ws2[i] == ws[i]);
        } else {
            assert(ws2[i].rounds@.len() == 1);
        }
    }
}

} // verus!
