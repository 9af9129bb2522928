//! Facts about the scheduler that hold across its transitions.
use crate::pool::{entry_wallets, PoolEntry};
use crate::state::{
    funded_addresses, inflight_wallets, owned, submission_wallets, transfer_amount, State,
    Submission,
};
use crate::types::{Address, Wallet};
use vstd::prelude::*;

verus! {

broadcast use vstd::multiset::group_multiset_axioms;

/// Whenever no submission is under way, every wallet created at bootstrap is
/// held in exactly one place, once: idle in the pool, sending a transfer in
/// flight, or waiting for its funding. No other wallet is held anywhere.
pub proof fn lemma_wallet_held_once(s: State, w: Wallet)
    requires
        s.wf(),
        s.submitting is None,
    ensures
        owned(s.addresses@, w) ==> entry_wallets(s.clients@).count(w) + inflight_wallets(
            s.inflight@,
        ).count(w) + s.clients_being_funded@.to_multiset().count(w) == 1,
        !owned(s.addresses@, w) ==> entry_wallets(s.clients@).count(w) == 0 && inflight_wallets(
            s.inflight@,
        ).count(w) == 0 && s.clients_being_funded@.to_multiset().count(w) == 0,
{
    assert(submission_wallets(s.submitting).count(w) == 0);
    assert(s.holders().count(w) == (if owned(s.addresses@, w) {
        1nat
    } else {
        0nat
    }));
}

/// No two wallets waiting for funding share an address, and neither do two
/// idle wallets.
pub proof fn lemma_distinct_addresses(s: State, i: int, j: int)
    requires
        s.wf(),
    ensures
        0 <= i < s.clients_being_funded@.len() && 0 <= j < s.clients_being_funded@.len() && i
            != j ==> s.clients_being_funded@[i].address != s.clients_being_funded@[j].address,
        0 <= i < s.clients@.len() && 0 <= j < s.clients@.len() && i != j
            ==> s.clients@[i].wallet.address != s.clients@[j].wallet.address,
{
    broadcast use vstd::seq_lib::group_to_multiset_ensures;

    let f = s.clients_being_funded@;
    if 0 <= i < f.len() && 0 <= j < f.len() && i != j && f[i].address == f[j].address {
        let u = f[i];
        let v = f[j];
        assert(f.contains(u) && f.contains(v));
        assert(s.holders().count(u) > 0 && s.holders().count(v) > 0);
        assert(s.holders().count(u) == (if owned(s.addresses@, u) {
            1nat
        } else {
            0nat
        }));
        assert(s.holders().count(v) == (if owned(s.addresses@, v) {
            1nat
        } else {
            0nat
        }));
        assert(s.addresses@[u.id as int] == s.addresses@[v.id as int]);
        assert(u.id == v.id);
        assert(u == v);
        assert(f.remove(j).to_multiset() == f.to_multiset().remove(u));
        let r = f.remove(j);
        if i < j {
            assert(r[i] == u);
        } else {
            assert(r[i - 1] == u);
        }
        assert(r.contains(u));
        assert(r.to_multiset().count(u) > 0);
        assert(f.to_multiset().remove(u).count(u) > 0);
        assert(f.to_multiset().count(u) >= 2);
        assert(s.holders().count(u) >= f.to_multiset().count(u));
    }
    if 0 <= i < s.clients@.len() && 0 <= j < s.clients@.len() && i != j {
        if i < j {
            assert(s.clients@[i].wallet.address != s.clients@[j].wallet.address);
        } else {
            assert(s.clients@[j].wallet.address != s.clients@[i].wallet.address);
        }
    }
}

/// Whenever no submission is under way, the idle wallets, the transfers in
/// flight and the wallets waiting for funding add up to the number of wallets.
pub proof fn lemma_wallet_total(s: State)
    requires
        s.wf(),
        s.submitting is None,
    ensures
        s.clients@.len() + s.inflight@.len() + s.clients_being_funded@.len() == s.num_clients,
{
}

/// Wallets waiting for funding and funding requests match: for every address,
/// as many wallets with it wait for funding as there are funding requests to
/// it queued, under way or in flight. Since waiting wallets have distinct
/// addresses (`lemma_distinct_addresses`), each has exactly one funding
/// request, and no address two.
pub proof fn lemma_funding_matched(s: State, a: Address)
    requires
        s.wf(),
    ensures
        s.pending_fundings().count(Some(a)) == funded_addresses(s.clients_being_funded@).count(
            Some(a),
        ),
{
}

/// A checkout followed by a refused submission puts the request back at the
/// end of the queue and the wallet back in the pool with the balance it had;
/// nothing else changes.
pub proof fn lemma_refused_submission_requeues(old: State, mid: State, new: State, i: int)
    requires
        old.transfer_queue@.len() > 0,
        mid.submitting matches Some(sub) && sub.request == old.transfer_queue@[0] && 0 <= i
            < old.clients@.len() && old.clients@[i] == (PoolEntry {
            balance: sub.balance,
            wallet: sub.sender,
        }),
        mid.clients@ == old.clients@.remove(i),
        mid.transfer_queue@ == old.transfer_queue@.drop_first(),
        mid.inflight == old.inflight,
        new.clients@ == mid.clients@.push(
            PoolEntry { balance: mid.submitting->Some_0.balance, wallet: mid.submitting->Some_0.sender },
        ),
        new.transfer_queue@ == mid.transfer_queue@.push(mid.submitting->Some_0.request),
        new.inflight == mid.inflight,
    ensures
        new.transfer_queue@ == old.transfer_queue@.drop_first().push(old.transfer_queue@[0]),
        new.clients@ == old.clients@.remove(i).push(old.clients@[i]),
        new.inflight == old.inflight,
{
}

/// A funding transfer checked out by the dispatcher sends at least half of
/// its target balance (rounded down): the sender holds the target and gives
/// half of what it holds.
pub proof fn lemma_funding_sends_half_target(sub: Submission)
    requires
        sub.request is Funding,
        sub.amount.value() == transfer_amount(sub.request, sub.balance),
        sub.balance.value() >= sub.request.required(),
    ensures
        sub.amount.value() >= sub.request.required() / 2,
{
    let b = sub.balance.value();
    let t = sub.request.required();
    assert(b / 2 >= t / 2) by (nonlinear_arith)
        requires
            b >= t,
    ;
}

/// A transfer that timed out comes back as the same request: where the queue
/// was empty, it is the front request, the next to be dispatched.
pub proof fn lemma_timed_out_request_is_next(old: State, new: State, i: int)
    requires
        0 <= i < old.inflight@.len(),
        old.transfer_queue@.len() == 0,
        new.transfer_queue@ == old.transfer_queue@.push(old.inflight@[i].transfer.request),
    ensures
        new.transfer_queue@.len() == 1,
        new.transfer_queue@[0] == old.inflight@[i].transfer.request,
{
}

} // verus!
