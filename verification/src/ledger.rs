//! Per-round storage: the ticket ledger (registration-ordered entries) and
//! the bucketed participant registry, with the spec functions and lemmas
//! that the contracts of the raffle operations are stated over.
use vstd::prelude::*;
use crate::types::{Address, Config, LedgerEntry, ParticipantBucket, Round, RoundStats, State,
    WinnerRecord, BUCKET_SIZE};

verus! {

/// Total tickets held across a sequence of ledger entries.
pub open spec fn ticket_sum(s: Seq<LedgerEntry>) -> int
    decreases s.len(),
{
    if s.len() == 0 {
        0
    } else {
        ticket_sum(s.drop_last()) + s.last().tickets
    }
}

/// Tickets held by `u` according to the ledger (0 if `u` has no entry).
pub open spec fn tickets_of(s: Seq<LedgerEntry>, u: Address) -> int
    decreases s.len(),
{
    if s.len() == 0 {
        0
    } else if s.last().user == u {
        s.last().tickets as int
    } else {
        tickets_of(s.drop_last(), u)
    }
}

/// Each participant has at most one ledger entry.
pub open spec fn distinct_users(s: Seq<LedgerEntry>) -> bool {
    forall|i: int, j: int| 0 <= i < j < s.len() ==> s[i].user != s[j].user
}

/// Every ledger entry records at least one ticket.
pub open spec fn counts_positive(s: Seq<LedgerEntry>) -> bool {
    forall|i: int| 0 <= i < s.len() ==> #[trigger] s[i].tickets >= 1
}

/// Under a per-participant cap, no entry exceeds it.
pub open spec fn counts_capped(s: Seq<LedgerEntry>, cap: Option<u32>) -> bool {
    cap matches Some(c) ==> forall|i: int| 0 <= i < s.len() ==> #[trigger] s[i].tickets <= c
}

/// Length of registry bucket `b` when `n` participants are registered:
/// buckets fill to capacity in order, so bucket `b` holds the participants
/// with registration indices `b * BUCKET_SIZE ..`, at most `BUCKET_SIZE`.
pub open spec fn bucket_len(n: int, b: int) -> int {
    if n - b * (BUCKET_SIZE as int) >= BUCKET_SIZE as int {
        BUCKET_SIZE as int
    } else {
        n - b * (BUCKET_SIZE as int)
    }
}

/// The bucketed registry is exactly the ledger's users in registration
/// order, paginated into fixed-capacity pages: participant `i` sits at
/// position `i % BUCKET_SIZE` of bucket `i / BUCKET_SIZE`.
pub open spec fn buckets_match(tickets: Seq<LedgerEntry>, buckets: Seq<ParticipantBucket>) -> bool {
    let n = tickets.len() as int;
    let bs = BUCKET_SIZE as int;
    &&& buckets.len() == (n + bs - 1) / bs
    &&& forall|b: int| 0 <= b < buckets.len()
            ==> (#[trigger] buckets[b]).participants@.len() == bucket_len(n, b)
    &&& forall|b: int, j: int|
            0 <= b < buckets.len() && 0 <= j < buckets[b].participants@.len()
            ==> (#[trigger] buckets[b].participants@[j]) == tickets[b * bs + j].user
}

/// Everything stored for one round: its lifecycle data, aggregate
/// statistics, ticket ledger, participant registry, and (once completed)
/// its winner record.
pub struct RoundData {
    pub round: Round,
    pub stats: RoundStats,
    pub tickets: Vec<LedgerEntry>,
    pub buckets: Vec<ParticipantBucket>,
    pub winner: Option<WinnerRecord>,
}

/// Well-formedness of one round's storage under the raffle configuration:
/// the stats agree with the ledger, the pool is fully backed by ticket
/// payments, the registry paginates the ledger, and the winner record
/// exists exactly for completed rounds.
pub open spec fn round_wf(rd: RoundData, num: int, cfg: Config) -> bool {
    &&& rd.round.round == num
    &&& rd.stats.total_participants == rd.tickets@.len()
    &&& rd.stats.total_tickets == ticket_sum(rd.tickets@)
    &&& rd.stats.prize_pool == rd.stats.total_tickets * cfg.ticket_price
    &&& rd.stats.prize_pool >= 0
    &&& distinct_users(rd.tickets@)
    &&& counts_positive(rd.tickets@)
    &&& counts_capped(rd.tickets@, cfg.max_tickets_per_participant)
    &&& buckets_match(rd.tickets@, rd.buckets@)
    &&& (rd.round.state is OPEN ==> rd.round.vrf_request_id is None)
    &&& (rd.round.state is DRAWING ==> rd.round.vrf_request_id is Some)
    &&& (rd.round.state is DRAWING || rd.round.state is COMPLETED ==> rd.stats.total_tickets >= 1)
    &&& (rd.round.state is COMPLETED <==> rd.winner is Some)
    &&& (rd.winner matches Some(w)
            ==> w.round == num && w.amount == rd.stats.prize_pool
                && tickets_of(rd.tickets@, w.winner) >= 1)
}

/// A ledger entry's count is what `tickets_of` reports for its user,
/// provided users are distinct.
pub proof fn lemma_tickets_of_at(s: Seq<LedgerEntry>, i: int)
    requires
        distinct_users(s),
        0 <= i < s.len(),
    ensures
        tickets_of(s, s[i].user) == s[i].tickets,
    decreases s.len(),
{
    if i == s.len() - 1 {
    } else {
        assert(s.last().user != s[i].user);
        assert(s.drop_last()[i] == s[i]);
        lemma_tickets_of_at(s.drop_last(), i);
    }
}

/// A user with no ledger entry holds no tickets.
pub proof fn lemma_tickets_of_absent(s: Seq<LedgerEntry>, u: Address)
    requires
        forall|i: int| 0 <= i < s.len() ==> (#[trigger] s[i]).user != u,
    ensures
        tickets_of(s, u) == 0,
    decreases s.len(),
{
    if s.len() > 0 {
        lemma_tickets_of_absent(s.drop_last(), u);
    }
}

/// The ticket total is at least the number of entries (counts are
/// positive), in particular non-negative.
pub proof fn lemma_ticket_sum_ge_len(s: Seq<LedgerEntry>)
    requires
        counts_positive(s),
    ensures
        ticket_sum(s) >= s.len(),
    decreases s.len(),
{
    if s.len() > 0 {
        assert(counts_positive(s.drop_last()));
        lemma_ticket_sum_ge_len(s.drop_last());
    }
}

/// No single participant holds more tickets than the round total.
pub proof fn lemma_tickets_of_le_sum(s: Seq<LedgerEntry>, u: Address)
    requires
        counts_positive(s),
    ensures
        0 <= tickets_of(s, u) <= ticket_sum(s),
    decreases s.len(),
{
    if s.len() > 0 {
        assert(counts_positive(s.drop_last()));
        lemma_tickets_of_le_sum(s.drop_last(), u);
        lemma_ticket_sum_ge_len(s.drop_last());
    }
}

/// Extending a prefix by one entry adds that entry's count to its total.
pub proof fn lemma_ticket_sum_take_step(s: Seq<LedgerEntry>, m: int)
    requires
        0 <= m < s.len(),
    ensures
        ticket_sum(s.take(m + 1)) == ticket_sum(s.take(m)) + s[m].tickets,
{
    assert(s.take(m + 1).drop_last() =~= s.take(m));
    assert(s.take(m + 1).last() == s[m]);
}

/// The whole sequence is its own full prefix.
pub proof fn lemma_ticket_sum_take_all(s: Seq<LedgerEntry>)
    ensures
        ticket_sum(s.take(s.len() as int)) == ticket_sum(s),
{
    assert(s.take(s.len() as int) =~= s);
}

/// Prefix totals grow with the prefix.
pub proof fn lemma_ticket_sum_take_mono(s: Seq<LedgerEntry>, a: int, b: int)
    requires
        0 <= a <= b <= s.len(),
    ensures
        ticket_sum(s.take(a)) <= ticket_sum(s.take(b)),
    decreases b - a,
{
    if a < b {
        lemma_ticket_sum_take_mono(s, a, b - 1);
        lemma_ticket_sum_take_step(s, b - 1);
        assert(s[b - 1].tickets >= 0);
    }
}

/// Replacing one entry shifts the total by the difference of the counts.
pub proof fn lemma_ticket_sum_update(s: Seq<LedgerEntry>, i: int, e: LedgerEntry)
    requires
        0 <= i < s.len(),
    ensures
        ticket_sum(s.update(i, e)) == ticket_sum(s) - s[i].tickets + e.tickets,
    decreases s.len(),
{
    if i == s.len() - 1 {
        assert(s.update(i, e).drop_last() =~= s.drop_last());
        assert(s.update(i, e).last() == e);
    } else {
        assert(s.update(i, e).drop_last() =~= s.drop_last().update(i, e));
        assert(s.update(i, e).last() == s.last());
        lemma_ticket_sum_update(s.drop_last(), i, e);
    }
}

/// Replacing a user's entry by one of the same user changes only that
/// user's reported tickets.
pub proof fn lemma_tickets_of_update(s: Seq<LedgerEntry>, i: int, e: LedgerEntry, u: Address)
    requires
        distinct_users(s),
        0 <= i < s.len(),
        s[i].user == e.user,
    ensures
        tickets_of(s.update(i, e), u) == if u == e.user {
            e.tickets as int
        } else {
            tickets_of(s, u)
        },
    decreases s.len(),
{
    if i == s.len() - 1 {
        assert(s.update(i, e).drop_last() =~= s.drop_last());
        assert(s.update(i, e).last() == e);
    } else {
        assert(s.update(i, e).drop_last() =~= s.drop_last().update(i, e));
        assert(s.update(i, e).last() == s.last());
        assert(distinct_users(s.drop_last()));
        assert(s.last().user != e.user);
        lemma_tickets_of_update(s.drop_last(), i, e, u);
    }
}

/// Appending an entry: the new user's holding is the new count, everyone
/// else's is unchanged, and the total grows by the new count.
pub proof fn lemma_ledger_push(s: Seq<LedgerEntry>, e: LedgerEntry, u: Address)
    ensures
        ticket_sum(s.push(e)) == ticket_sum(s) + e.tickets,
        tickets_of(s.push(e), u) == if u == e.user {
            e.tickets as int
        } else {
            tickets_of(s, u)
        },
{
    assert(s.push(e).drop_last() =~= s);
    assert(s.push(e).last() == e);
}

/// Finds the ledger entry of `user`, if any.
pub fn find_user(entries: &Vec<LedgerEntry>, user: Address) -> (r: Option<usize>)
    ensures
        match r {
            Some(i) => i < entries@.len() && entries@[i as int].user == user,
            None => forall|j: int| 0 <= j < entries@.len() ==> (#[trigger] entries@[j]).user != user,
        },
{
    let mut i: usize = 0;
    while i < entries.len()
        invariant
            i <= entries@.len(),
            forall|j: int| 0 <= j < i ==> (#[trigger] entries@[j]).user != user,
        decreases entries@.len() - i,
    {
        if entries[i].user == user {
            return Some(i);
        }
        i = i + 1;
    }
    None
}

/// Tickets held by `user` in this ledger (0 without an entry).
pub fn lookup_user_tickets(entries: &Vec<LedgerEntry>, user: Address) -> (r: u32)
    requires
        distinct_users(entries@),
    ensures
        r as int == tickets_of(entries@, user),
{
    match find_user(entries, user) {
        Some(i) => {
            proof {
                lemma_tickets_of_at(entries@, i as int);
            }
            entries[i].tickets
        },
        None => {
            proof {
                lemma_tickets_of_absent(entries@, user);
            }
            0
        },
    }
}

impl RoundData {
    /// A freshly opened round with the given number: no tickets, no
    /// participants, no pending oracle request, no winner.
    pub fn new_open(num: u32) -> (rd: RoundData)
        ensures
            rd.round == (Round { round: num, state: State::OPEN, vrf_request_id: None }),
            rd.stats == (RoundStats { total_tickets: 0, total_participants: 0, prize_pool: 0 }),
            rd.tickets@.len() == 0,
            rd.buckets@.len() == 0,
            rd.winner is None,
            forall|cfg: Config| #[trigger] round_wf(rd, num as int, cfg),
    {
        RoundData {
            round: Round { round: num, state: State::OPEN, vrf_request_id: None },
            stats: RoundStats { total_tickets: 0, total_participants: 0, prize_pool: 0 },
            tickets: Vec::new(),
            buckets: Vec::new(),
            winner: None,
        }
    }

    /// All participants of this round in registration order, assembled
    /// bucket by bucket.
    pub fn get_all_participants(&self) -> (r: Vec<Address>)
        requires
            buckets_match(self.tickets@, self.buckets@),
        ensures
            r@.len() == self.tickets@.len(),
            forall|i: int| 0 <= i < r@.len() ==> r@[i] == self.tickets@[i].user,
    {
        let ghost n = self.tickets@.len() as int;
        let ghost bs = BUCKET_SIZE as int;
        let mut r: Vec<Address> = Vec::new();
        let mut b: usize = 0;
        while b < self.buckets.len()
            invariant
                buckets_match(self.tickets@, self.buckets@),
                b <= self.buckets@.len(),
                r@.len() == if n <= b * bs { n } else { b * bs },
                forall|i: int| 0 <= i < r@.len() ==> r@[i] == self.tickets@[i].user,
                n == self.tickets@.len(),
                bs == BUCKET_SIZE as int,
            decreases self.buckets@.len() - b,
        {
            let bucket = &self.buckets[b];
            let mut j: usize = 0;
            while j < bucket.participants.len()
                invariant
                    buckets_match(self.tickets@, self.buckets@),
                    b < self.buckets@.len(),
                    bucket == self.buckets@[b as int],
                    j <= bucket.participants@.len(),
                    bucket.participants@.len() == bucket_len(n, b as int),
                    r@.len() == b * bs + j,
                    forall|i: int| 0 <= i < r@.len() ==> r@[i] == self.tickets@[i].user,
                    n == self.tickets@.len(),
                    bs == BUCKET_SIZE as int,
                decreases bucket.participants@.len() - j,
            {
                r.push(bucket.participants[j]);
                j = j + 1;
            }
            b = b + 1;
        }
        proof {
            if n > 0 {
                assert(self.buckets@.len() == (n + bs - 1) / bs);
            }
        }
        r
    }
}

} // verus!
