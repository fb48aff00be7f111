//! Ticket-weighted winner selection: the winning ticket index is looked up
//! in the conceptual concatenation of all participants' ticket ranges in
//! registration order, so a participant's chance is proportional to the
//! tickets they hold.
use vstd::prelude::*;
use crate::types::LedgerEntry;
use crate::ledger::{ticket_sum, lemma_ticket_sum_take_step, lemma_ticket_sum_take_all,
    lemma_ticket_sum_take_mono};

verus! {

/// Participant `k` owns the half-open ticket range
/// `[ticket_sum(prefix k), ticket_sum(prefix k) + tickets)`; the winner of
/// ticket `t` is the participant whose range contains `t`.
pub open spec fn is_winner_at(s: Seq<LedgerEntry>, t: int, k: int) -> bool {
    &&& 0 <= k < s.len()
    &&& ticket_sum(s.take(k)) <= t
    &&& t < ticket_sum(s.take(k)) + s[k].tickets
}

/// The registration index of the participant whose ticket range contains
/// `t`. Well defined for `0 <= t < ticket_sum(s)`: such an index exists
/// ([`lemma_winner_exists`]) and is unique ([`lemma_winner_unique`]).
pub open spec fn winner_index(s: Seq<LedgerEntry>, t: int) -> int {
    choose|k: int| is_winner_at(s, t, k)
}

/// Every ticket index below the round total falls in some participant's
/// range.
pub proof fn lemma_winner_exists(s: Seq<LedgerEntry>, t: int)
    requires
        0 <= t < ticket_sum(s),
    ensures
        exists|k: int| is_winner_at(s, t, k),
    decreases s.len(),
{
    lemma_ticket_sum_take_all(s);
    if t < ticket_sum(s.take(s.len() - 1)) {
        lemma_winner_exists(s.drop_last(), t);
        let k = choose|k: int| is_winner_at(s.drop_last(), t, k);
        assert(s.take(s.len() - 1) =~= s.drop_last());
        assert(s.drop_last().take(k) =~= s.take(k));
        assert(is_winner_at(s, t, k));
    } else {
        lemma_ticket_sum_take_step(s, s.len() - 1);
        assert(is_winner_at(s, t, s.len() - 1));
    }
}

/// At most one participant's range contains a given ticket index:
/// selection is deterministic.
pub proof fn lemma_winner_unique(s: Seq<LedgerEntry>, t: int, k1: int, k2: int)
    requires
        is_winner_at(s, t, k1),
        is_winner_at(s, t, k2),
    ensures
        k1 == k2,
{
    if k1 < k2 {
        lemma_ticket_sum_take_step(s, k1);
        lemma_ticket_sum_take_mono(s, k1 + 1, k2);
    }
    if k2 < k1 {
        lemma_ticket_sum_take_step(s, k2);
        lemma_ticket_sum_take_mono(s, k2 + 1, k1);
    }
}

/// The recorded winner's ticket range contains the winning ticket index:
/// `winner_index` really does name the range that covers `t`.
pub proof fn lemma_winner_in_range(s: Seq<LedgerEntry>, t: int)
    requires
        0 <= t < ticket_sum(s),
    ensures
        is_winner_at(s, t, winner_index(s, t)),
        ticket_sum(s.take(winner_index(s, t))) <= t,
        t < ticket_sum(s.take(winner_index(s, t))) + s[winner_index(s, t)].tickets,
{
    lemma_winner_exists(s, t);
}

} // verus!
