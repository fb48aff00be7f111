//! The raffle itself: one state object holding the configuration, the
//! round history, the per-user winning-round index and the event log,
//! together with the round lifecycle operations. Exactly one round is ever
//! OPEN or DRAWING (the current round); all earlier rounds are COMPLETED.
use vstd::prelude::*;
use crate::error::Error;
use crate::events::{DrawRequested, Event};
use crate::ledger::{round_wf, ticket_sum, tickets_of, RoundData};
use crate::types::{Address, Config, ParticipantBucket, Round, RoundStats, State, WinnerRecord};

verus! {

/// The ordered list of rounds one user has won, the unit of the
/// user -> winning-rounds index.
pub struct UserWins {
    pub user: Address,
    pub rounds: Vec<u32>,
}

/// Rounds won by `u` according to the index (empty without an entry).
pub open spec fn wins_of(ws: Seq<UserWins>, u: Address) -> Seq<u32>
    decreases ws.len(),
{
    if ws.len() == 0 {
        Seq::empty()
    } else if ws.last().user == u {
        ws.last().rounds@
    } else {
        wins_of(ws.drop_last(), u)
    }
}

/// An index entry's list is what `wins_of` reports for its user, provided
/// users are distinct.
pub proof fn lemma_wins_of_at(ws: Seq<UserWins>, i: int)
    requires
        forall|a: int, b: int| 0 <= a < b < ws.len() ==> ws[a].user != ws[b].user,
        0 <= i < ws.len(),
    ensures
        wins_of(ws, ws[i].user) == ws[i].rounds@,
    decreases ws.len(),
{
    if i < ws.len() - 1 {
        assert(ws.drop_last()[i] == ws[i]);
        lemma_wins_of_at(ws.drop_last(), i);
    }
}

/// A user with no index entry has won no rounds.
pub proof fn lemma_wins_of_absent(ws: Seq<UserWins>, u: Address)
    requires
        forall|i: int| 0 <= i < ws.len() ==> (#[trigger] ws[i]).user != u,
    ensures
        wins_of(ws, u) == Seq::<u32>::empty(),
    decreases ws.len(),
{
    if ws.len() > 0 {
        lemma_wins_of_absent(ws.drop_last(), u);
    }
}

/// Replacing a user's index entry by one of the same user changes only
/// that user's reported list.
pub proof fn lemma_wins_of_update(ws: Seq<UserWins>, i: int, e: UserWins, u: Address)
    requires
        forall|a: int, b: int| 0 <= a < b < ws.len() ==> ws[a].user != ws[b].user,
        0 <= i < ws.len(),
        ws[i].user == e.user,
    ensures
        wins_of(ws.update(i, e), u) == if u == e.user {
            e.rounds@
        } else {
            wins_of(ws, u)
        },
    decreases ws.len(),
{
    if i == ws.len() - 1 {
        assert(ws.update(i, e).drop_last() =~= ws.drop_last());
        assert(ws.update(i, e).last() == e);
    } else {
        assert(ws.update(i, e).drop_last() =~= ws.drop_last().update(i, e));
        assert(ws.update(i, e).last() == ws.last());
        lemma_wins_of_update(ws.drop_last(), i, e, u);
    }
}

/// Appending an index entry: the new user's list is the appended one,
/// everyone else's is unchanged.
pub proof fn lemma_wins_of_push(ws: Seq<UserWins>, e: UserWins, u: Address)
    requires
        forall|i: int| 0 <= i < ws.len() ==> (#[trigger] ws[i]).user != e.user,
    ensures
        wins_of(ws.push(e), u) == if u == e.user {
            e.rounds@
        } else {
            wins_of(ws, u)
        },
{
    assert(ws.push(e).drop_last() =~= ws);
    assert(ws.push(e).last() == e);
}

/// In every well-formed raffle state, every round's statistics agree
/// with its ledger: the recorded ticket total is the sum of all per-user
/// ledger entries, the participant count is the number of entries, and
/// the prize pool is exactly the ticket total times the ticket price.
pub proof fn lemma_stats_match_ledger(s: LuckyLedgersRaffle, i: int)
    requires
        s.wf(),
        0 <= i < s.rounds@.len(),
    ensures
        s.rounds@[i].stats.total_tickets == ticket_sum(s.rounds@[i].tickets@),
        s.rounds@[i].stats.total_participants == s.rounds@[i].tickets@.len(),
        s.rounds@[i].stats.prize_pool == s.rounds@[i].stats.total_tickets
            * s.config.ticket_price,
{
    assert(round_wf(s.rounds@[i], i + 1, s.config));
}

/// The draw gate: a draw may be requested once the current round has
/// reached both configured targets and at least one ticket was sold (so
/// the winning-ticket computation is defined).
pub open spec fn target_met(cfg: Config, stats: RoundStats) -> bool {
    &&& stats.total_participants >= cfg.target_participants
    &&& stats.total_tickets >= cfg.target_tickets
    &&& stats.total_tickets >= 1
}

/// The raffle's whole persistent state. The host that embeds it performs
/// payments and oracle calls; every operation here is one atomic step
/// that either fully commits or fails with no state change.
pub struct LuckyLedgersRaffle {
    pub admin: Address,
    pub config: Config,
    pub total_rounds: u32,
    pub current_round: u32,
    pub rounds: Vec<RoundData>,
    pub wins: Vec<UserWins>,
    pub events: Vec<Event>,
}

/// One entry of the winning-round index is sound: it names an existing
/// round whose recorded winner is that entry's user.
pub open spec fn win_entry_ok(ws: Seq<UserWins>, rounds: Seq<RoundData>, i: int, k: int) -> bool {
    let r = ws[i].rounds@[k] as int;
    &&& 1 <= r <= rounds.len()
    &&& rounds[r - 1].winner matches Some(w) && w.winner == ws[i].user
}

/// Round storage is well formed: round `i` carries number `i + 1` and
/// satisfies its per-round invariant, all rounds but the last are
/// COMPLETED, and the current (last) round is OPEN or DRAWING.
pub open spec fn rounds_ok(rounds: Seq<RoundData>, cfg: Config) -> bool {
    &&& forall|i: int| 0 <= i < rounds.len() ==> round_wf(#[trigger] rounds[i], i + 1, cfg)
    &&& forall|i: int| 0 <= i < rounds.len() - 1
            ==> (#[trigger] rounds[i]).round.state is COMPLETED
    &&& rounds.len() >= 1 ==> !(rounds.last().round.state is COMPLETED)
}

/// The winning-round index is well formed: one entry per user, every
/// listed round was really won by that user, and each user's list is
/// strictly increasing (each round appears at most once).
pub open spec fn wins_ok(ws: Seq<UserWins>, rounds: Seq<RoundData>) -> bool {
    &&& forall|a: int, b: int| 0 <= a < b < ws.len() ==> ws[a].user != ws[b].user
    &&& forall|i: int, k: int|
            0 <= i < ws.len() && 0 <= k < ws[i].rounds@.len()
            ==> #[trigger] win_entry_ok(ws, rounds, i, k)
    &&& forall|i: int, k1: int, k2: int|
            0 <= i < ws.len() && 0 <= k1 < k2 < ws[i].rounds@.len()
            ==> ws[i].rounds@[k1] < ws[i].rounds@[k2]
}

impl LuckyLedgersRaffle {
    /// Index of the current round in `rounds`.
    pub open spec fn cur_idx(self) -> int {
        self.rounds@.len() - 1
    }

    /// The current round's stored data.
    pub open spec fn cur(self) -> RoundData {
        self.rounds@.last()
    }

    /// Rounds won by `u`, in the order they were won.
    pub open spec fn user_wins(self, u: Address) -> Seq<u32> {
        wins_of(self.wins@, u)
    }

    /// Well-formedness of the whole raffle state: established by
    /// `construct` and preserved by every operation.
    pub open spec fn wf(self) -> bool {
        &&& self.config.ticket_price >= 1
        &&& self.total_rounds >= 1
        &&& self.current_round == self.total_rounds
        &&& self.rounds@.len() == self.total_rounds
        &&& rounds_ok(self.rounds@, self.config)
        &&& wins_ok(self.wins@, self.rounds@)
    }

    /// Everything except rounds and the event log is unchanged.
    pub open spec fn same_frame(pre: Self, post: Self) -> bool {
        &&& post.admin == pre.admin
        &&& post.config == pre.config
        &&& post.total_rounds == pre.total_rounds
        &&& post.current_round == pre.current_round
        &&& post.wins@ == pre.wins@
    }

    /// Creates the raffle: stores the administrator and the configuration
    /// and opens round 1 with zeroed statistics.
    pub fn construct(
        admin: Address,
        vrf_contract: Address,
        underlying_token: Address,
        ticket_price: i128,
        target_participants: u32,
        target_tickets: u32,
        max_tickets_per_participant: Option<u32>,
    ) -> (s: LuckyLedgersRaffle)
        requires
            ticket_price >= 1,
        ensures
            s.wf(),
            s.admin == admin,
            s.config == (Config {
                vrf_contract,
                underlying_token,
                ticket_price,
                target_participants,
                target_tickets,
                max_tickets_per_participant,
            }),
            s.total_rounds == 1,
            s.current_round == 1,
            s.rounds@.len() == 1,
            s.cur().round == (Round { round: 1, state: State::OPEN, vrf_request_id: None }),
            s.cur().stats == (RoundStats { total_tickets: 0, total_participants: 0, prize_pool: 0 }),
            s.cur().tickets@.len() == 0,
            s.cur().winner is None,
            s.wins@.len() == 0,
            s.events@.len() == 0,
    {
        let config = Config {
            vrf_contract,
            underlying_token,
            ticket_price,
            target_participants,
            target_tickets,
            max_tickets_per_participant,
        };
        let mut rounds: Vec<RoundData> = Vec::new();
        rounds.push(RoundData::new_open(1));
        LuckyLedgersRaffle {
            admin,
            config,
            total_rounds: 1,
            current_round: 1,
            rounds,
            wins: Vec::new(),
            events: Vec::new(),
        }
    }

    /// Opens the next round: appends a fresh OPEN round with zeroed
    /// statistics under the next sequential number and makes it current.
    /// Round numbers are never reused or skipped.
    pub(crate) fn create_new_round(&mut self)
        requires
            old(self).total_rounds < u32::MAX,
            old(self).rounds@.len() == old(self).total_rounds,
            old(self).current_round == old(self).total_rounds,
        ensures
            final(self).admin == old(self).admin,
            final(self).config == old(self).config,
            final(self).wins@ == old(self).wins@,
            final(self).events@ == old(self).events@,
            final(self).total_rounds == old(self).total_rounds + 1,
            final(self).current_round == final(self).total_rounds,
            final(self).rounds@.len() == old(self).rounds@.len() + 1,
            final(self).rounds@ == old(self).rounds@.push(final(self).cur()),
            final(self).cur().round == (Round {
                round: (old(self).total_rounds + 1) as u32,
                state: State::OPEN,
                vrf_request_id: None,
            }),
            final(self).cur().stats == (RoundStats {
                total_tickets: 0,
                total_participants: 0,
                prize_pool: 0,
            }),
            final(self).cur().tickets@.len() == 0,
            final(self).cur().buckets@.len() == 0,
            final(self).cur().winner is None,
    {
        let num = self.total_rounds + 1;
        self.rounds.push(RoundData::new_open(num));
        self.total_rounds = num;
        self.current_round = num;
    }

    /// The administrator on record.
    pub fn admin(&self) -> (r: Result<Address, Error>)
        ensures
            r == Ok::<Address, Error>(self.admin),
    {
        Ok(self.admin)
    }

    /// Replaces the administrator. The host must authenticate the caller
    /// as the current administrator before invoking this.
    pub fn set_new_admin(&mut self, admin: Address)
        ensures
            final(self).admin == admin,
            final(self).config == old(self).config,
            final(self).total_rounds == old(self).total_rounds,
            final(self).current_round == old(self).current_round,
            final(self).rounds@ == old(self).rounds@,
            final(self).wins@ == old(self).wins@,
            final(self).events@ == old(self).events@,
            old(self).wf() ==> final(self).wf(),
    {
        self.admin = admin;
    }

    /// Number of the current round.
    pub fn get_current_round_number(&self) -> (r: u32)
        ensures
            r == self.current_round,
    {
        self.current_round
    }

    /// Lifecycle data of a round, or `RoundNotFound` for a number that was
    /// never created.
    pub fn get_round_info(&self, round: u32) -> (r: Result<Round, Error>)
        ensures
            1 <= round <= self.rounds@.len()
                ==> r == Ok::<Round, Error>(self.rounds@[round - 1].round),
            !(1 <= round <= self.rounds@.len())
                ==> r == Err::<Round, Error>(Error::RoundNotFound),
    {
        if round >= 1 && (round as usize) <= self.rounds.len() {
            Ok(self.rounds[(round - 1) as usize].round)
        } else {
            Err(Error::RoundNotFound)
        }
    }

    /// Statistics of a round, or `RoundStatsNotFound` for a number that
    /// was never created.
    pub fn get_round_stats(&self, round: u32) -> (r: Result<RoundStats, Error>)
        ensures
            1 <= round <= self.rounds@.len()
                ==> r == Ok::<RoundStats, Error>(self.rounds@[round - 1].stats),
            !(1 <= round <= self.rounds@.len())
                ==> r == Err::<RoundStats, Error>(Error::RoundStatsNotFound),
    {
        if round >= 1 && (round as usize) <= self.rounds.len() {
            Ok(self.rounds[(round - 1) as usize].stats)
        } else {
            Err(Error::RoundStatsNotFound)
        }
    }

    /// Tickets held by `user` in `round` (0 without an entry or for a
    /// round that was never created).
    pub fn get_user_tickets(&self, round: u32, user: Address) -> (r: u32)
        requires
            self.wf(),
        ensures
            1 <= round <= self.rounds@.len()
                ==> r as int == tickets_of(self.rounds@[round - 1].tickets@, user),
            !(1 <= round <= self.rounds@.len()) ==> r == 0,
    {
        if round >= 1 && (round as usize) <= self.rounds.len() {
            crate::ledger::lookup_user_tickets(&self.rounds[(round - 1) as usize].tickets, user)
        } else {
            0
        }
    }

    /// All participants of a round in registration order.
    pub fn get_participants(&self, round: u32) -> (r: Vec<Address>)
        requires
            self.wf(),
            1 <= round <= self.rounds@.len(),
        ensures
            r@.len() == self.rounds@[round - 1].tickets@.len(),
            forall|i: int| 0 <= i < r@.len()
                ==> r@[i] == self.rounds@[round - 1].tickets@[i].user,
    {
        self.rounds[(round - 1) as usize].get_all_participants()
    }

    /// One page of a round's participant registry (empty for a round or
    /// bucket index that was never written).
    pub fn get_participant_bucket(&self, round: u32, bucket_idx: u32) -> (r: ParticipantBucket)
        ensures
            1 <= round <= self.rounds@.len() && bucket_idx < self.rounds@[round
                - 1].buckets@.len() ==> r.participants@ == self.rounds@[round
                - 1].buckets@[bucket_idx as int].participants@,
            !(1 <= round <= self.rounds@.len() && bucket_idx < self.rounds@[round
                - 1].buckets@.len()) ==> r.participants@.len() == 0,
    {
        if round >= 1 && (round as usize) <= self.rounds.len() {
            let idx = (round - 1) as usize;
            if (bucket_idx as usize) < self.rounds[idx].buckets.len() {
                let participants = self.rounds[idx].buckets[bucket_idx as usize].participants.clone();
                proof {
                    assert(participants@ =~= self.rounds@[round
                        - 1].buckets@[bucket_idx as int].participants@);
                }
                return ParticipantBucket { participants };
            }
        }
        ParticipantBucket { participants: Vec::new() }
    }

    /// The winner record of a round, if the round exists and completed.
    pub fn get_winner(&self, round: u32) -> (r: Option<WinnerRecord>)
        ensures
            r == if 1 <= round <= self.rounds@.len() {
                self.rounds@[round - 1].winner
            } else {
                None::<WinnerRecord>
            },
    {
        if round >= 1 && (round as usize) <= self.rounds.len() {
            self.rounds[(round - 1) as usize].winner
        } else {
            None
        }
    }

    /// The raffle configuration.
    pub fn get_config(&self) -> (r: Result<Config, Error>)
        ensures
            r == Ok::<Config, Error>(self.config),
    {
        Ok(self.config)
    }

    /// Whether a draw may be requested right now: the current round is
    /// OPEN and the participation target is met.
    pub fn is_ready_to_draw(&self) -> (r: Result<bool, Error>)
        requires
            self.wf(),
        ensures
            r == Ok::<bool, Error>(
                self.cur().round.state is OPEN && target_met(self.config, self.cur().stats),
            ),
    {
        let idx = (self.current_round - 1) as usize;
        let rd = &self.rounds[idx];
        let ready = rd.round.state == State::OPEN
            && rd.stats.total_participants >= self.config.target_participants
            && rd.stats.total_tickets >= self.config.target_tickets
            && rd.stats.total_tickets >= 1;
        Ok(ready)
    }

    /// Requests a draw for the current round. Valid only while the round
    /// is OPEN (`InvalidState` otherwise) and once the participation
    /// target is met (`TargetNotMet` otherwise); on success the round
    /// moves to DRAWING and records the oracle request identifier that the
    /// host obtained from the oracle. A failure changes nothing.
    pub fn request_draw(&mut self, request_id: u64) -> (r: Result<u64, Error>)
        requires
            old(self).wf(),
        ensures
            final(self).wf(),
            crate::claims::claims_monotone(old(self).rounds@, final(self).rounds@),
            !(old(self).cur().round.state is OPEN) ==> {
                &&& r == Err::<u64, Error>(Error::InvalidState)
                &&& *final(self) == *old(self)
            },
            old(self).cur().round.state is OPEN
                && !target_met(old(self).config, old(self).cur().stats) ==> {
                &&& r == Err::<u64, Error>(Error::TargetNotMet)
                &&& *final(self) == *old(self)
            },
            old(self).cur().round.state is OPEN
                && target_met(old(self).config, old(self).cur().stats) ==> {
                &&& r == Ok::<u64, Error>(request_id)
                &&& Self::same_frame(*old(self), *final(self))
                &&& final(self).rounds@ == old(self).rounds@.update(
                    old(self).cur_idx(),
                    (RoundData {
                        round: Round {
                            round: old(self).cur().round.round,
                            state: State::DRAWING,
                            vrf_request_id: Some(request_id),
                        },
                        ..old(self).cur()
                    }),
                )
                &&& final(self).events@ == old(self).events@.push(Event::DrawRequested(
                    DrawRequested {
                        round: old(self).cur().round.round,
                        vrf_request_id: request_id,
                    },
                ))
            },
    {
        let idx = (self.current_round - 1) as usize;
        if self.rounds[idx].round.state != State::OPEN {
            return Err(Error::InvalidState);
        }
        let stats = self.rounds[idx].stats;
        if !(stats.total_participants >= self.config.target_participants
            && stats.total_tickets >= self.config.target_tickets
            && stats.total_tickets >= 1)
        {
            return Err(Error::TargetNotMet);
        }
        let num = self.rounds[idx].round.round;
        self.rounds[idx].round = Round {
            round: num,
            state: State::DRAWING,
            vrf_request_id: Some(request_id),
        };
        self.events.push(Event::DrawRequested(DrawRequested {
            round: num,
            vrf_request_id: request_id,
        }));
        proof {
            let pre = old(self).rounds@;
            let post = self.rounds@;
            let c = old(self).cur_idx();
            let cfg = self.config;
            assert(post == pre.update(c, post[c]));
            assert forall|i: int| 0 <= i < post.len() implies round_wf(
                #[trigger] post[i],
                i + 1,
                cfg,
            ) by {
                if i != c {
                    assert(post[i] == pre[i]);
                    assert(round_wf(pre[i], i + 1, cfg));
                } else {
                    assert(round_wf(pre[c], c + 1, cfg));
                    assert(post[c].stats == pre[c].stats);
                    assert(post[c].tickets == pre[c].tickets);
                    assert(post[c].buckets == pre[c].buckets);
                    assert(post[c].winner == pre[c].winner);
                }
            }
            let ws = self.wins@;
            assert forall|i: int, k: int|
                0 <= i < ws.len() && 0 <= k < ws[i].rounds@.len() implies #[trigger] win_entry_ok(
                ws,
                post,
                i,
                k,
            ) by {
                assert(win_entry_ok(ws, pre, i, k));
                let r = ws[i].rounds@[k] as int;
                assert(pre[c].winner is None);
                assert(post[r - 1] == pre[r - 1]);
            }
        }
        Ok(request_id)
    }
}

} // verus!
