//! The scheduler's shared state and every transition of it.
//!
//! Each method is one critical section: the caller reads what it needs, does
//! its network calls with no lock held, and comes back with the results.
use crate::amount::{
    amount_bound, amount_checked_add, amount_checked_mul, amount_div, amount_lt,
    lemma_value_bound, Amount,
};
use crate::pool::{
    entry_wallet, entry_wallets, is_max_balance, pool_has_address, ClientPool, PoolEntry,
};
use crate::types::{Address, Transfer, TransferError, TransferRequest, TxHash, Wallet};
use std::collections::VecDeque;
use vstd::multiset::Multiset;
use vstd::prelude::*;
use vstd::seq_lib::group_to_multiset_ensures;

verus! {

broadcast use group_to_multiset_ensures, vstd::multiset::group_multiset_axioms;

/// A submitted transfer, keyed by its transaction hash.
#[derive(Clone, Copy, Debug, PartialEq, Eq, Structural)]
pub struct InflightEntry {
    pub tx_hash: TxHash,
    pub transfer: Transfer,
}

pub open spec fn inflight_wallet(e: InflightEntry) -> Wallet {
    e.transfer.sender
}

/// The senders of the transfers in flight, with multiplicity.
pub open spec fn inflight_wallets(s: Seq<InflightEntry>) -> Multiset<Wallet> {
    s.map_values(|e: InflightEntry| inflight_wallet(e)).to_multiset()
}

proof fn lemma_inflight_wallets_push(s: Seq<InflightEntry>, e: InflightEntry)
    ensures
        inflight_wallets(s.push(e)) == inflight_wallets(s).insert(e.transfer.sender),
{
    assert(s.push(e).map_values(|e: InflightEntry| inflight_wallet(e)) =~= s.map_values(
        |e: InflightEntry| inflight_wallet(e),
    ).push(e.transfer.sender));
}

proof fn lemma_inflight_wallets_remove(s: Seq<InflightEntry>, i: int)
    requires
        0 <= i < s.len(),
    ensures
        inflight_wallets(s.remove(i)) == inflight_wallets(s).remove(s[i].transfer.sender),
        inflight_wallets(s).count(s[i].transfer.sender) > 0,
{
    let m = s.map_values(|e: InflightEntry| inflight_wallet(e));
    assert(s.remove(i).map_values(|e: InflightEntry| inflight_wallet(e)) =~= m.remove(i));
    assert(m[i] == s[i].transfer.sender);
    assert(m.contains(s[i].transfer.sender));
}

/// `w` is the wallet created at bootstrap with index `w.id`.
pub open spec fn owned(addresses: Seq<Address>, w: Wallet) -> bool {
    w.id < addresses.len() && w.address == addresses[w.id as int]
}

/// No address is listed twice.
pub open spec fn distinct_addresses(addresses: Seq<Address>) -> bool {
    forall|i: int, j: int|
        0 <= i < addresses.len() && 0 <= j < addresses.len() && i != j ==> #[trigger] addresses[i]
            != #[trigger] addresses[j]
}

/// No two transfers in flight share a hash.
pub open spec fn distinct_hashes(s: Seq<InflightEntry>) -> bool {
    forall|i: int, j: int|
        0 <= i < j < s.len() ==> #[trigger] s[i].tx_hash != #[trigger] s[j].tx_hash
}

proof fn lemma_distinct_hashes_remove(s: Seq<InflightEntry>, i: int)
    requires
        0 <= i < s.len(),
        distinct_hashes(s),
    ensures
        distinct_hashes(s.remove(i)),
        !has_hash(s.remove(i), s[i].tx_hash),
{
    let r = s.remove(i);
    assert forall|a: int, b: int| 0 <= a < b < r.len() implies #[trigger] r[a].tx_hash
        != #[trigger] r[b].tx_hash by {
        let oa = if a < i { a } else { a + 1 };
        let ob = if b < i { b } else { b + 1 };
        assert(r[a] == s[oa] && r[b] == s[ob]);
    }
    assert forall|a: int| 0 <= a < r.len() implies #[trigger] r[a].tx_hash != s[i].tx_hash by {
        if a < i {
            assert(r[a] == s[a]);
        } else {
            assert(r[a] == s[a + 1]);
        }
    }
}

/// Where every pool entry and `w` were created at bootstrap and no pool entry
/// is `w`, no pool entry has the address of `w`: the pool appends it.
proof fn lemma_address_free(pool: Seq<PoolEntry>, addresses: Seq<Address>, w: Wallet)
    requires
        distinct_addresses(addresses),
        owned(addresses, w),
        forall|j: int| 0 <= j < pool.len() ==> owned(addresses, #[trigger] pool[j].wallet),
        forall|j: int| 0 <= j < pool.len() ==> #[trigger] pool[j].wallet != w,
    ensures
        !pool_has_address(pool, w.address),
{
    assert forall|j: int| 0 <= j < pool.len() implies #[trigger] pool[j].wallet.address
        != w.address by {
        let v = pool[j].wallet;
        assert(owned(addresses, v));
        if v.address == w.address {
            assert(addresses[v.id as int] == addresses[w.id as int]);
            assert(v.id == w.id);
            assert(v == w);
        }
    }
}

/// Where the pool and `rest` together hold each wallet at most once, and only
/// wallets created at bootstrap, a wallet held in `rest` is not in the pool
/// and every pool entry was created at bootstrap.
proof fn lemma_held_elsewhere(
    pool: Seq<PoolEntry>,
    rest: Multiset<Wallet>,
    addresses: Seq<Address>,
    w: Wallet,
)
    requires
        forall|v: Wallet| #[trigger]
            entry_wallets(pool).add(rest).count(v) == (if owned(addresses, v) {
                1nat
            } else {
                0nat
            }),
        rest.count(w) > 0,
    ensures
        owned(addresses, w),
        forall|j: int| 0 <= j < pool.len() ==> owned(addresses, #[trigger] pool[j].wallet),
        forall|j: int| 0 <= j < pool.len() ==> #[trigger] pool[j].wallet != w,
{
    assert(entry_wallets(pool).add(rest).count(w) > 0);
    assert forall|j: int| 0 <= j < pool.len() implies owned(addresses, #[trigger] pool[j].wallet)
        && pool[j].wallet != w by {
        let m = pool.map_values(|e: PoolEntry| entry_wallet(e));
        assert(m[j] == pool[j].wallet);
        assert(m.contains(pool[j].wallet));
        assert(entry_wallets(pool).count(pool[j].wallet) > 0);
        assert(entry_wallets(pool).add(rest).count(pool[j].wallet) > 0);
    }
}

/// A transfer taken from the queue, with the wallet checked out to send it,
/// that wallet's balance when it was checked out, and what is to be sent.
#[derive(Clone, Copy, Debug, PartialEq, Eq, Structural)]
pub struct Submission {
    pub sender: Wallet,
    pub balance: Amount,
    pub request: TransferRequest,
    pub to: Address,
    pub amount: Amount,
}

pub open spec fn submission_wallets(s: Option<Submission>) -> Multiset<Wallet> {
    match s {
        Some(x) => Multiset::singleton(x.sender),
        None => Multiset::empty(),
    }
}

pub open spec fn submission_count(s: Option<Submission>) -> nat {
    if s is Some {
        1
    } else {
        0
    }
}

/// The recipient of a funding request; nothing for a grant.
pub open spec fn funding_of(r: TransferRequest) -> Option<Address> {
    match r {
        TransferRequest::Funding { to, .. } => Some(to),
        TransferRequest::Faucet { .. } => None,
    }
}

/// The recipients of the funding requests in a queue, with multiplicity.
pub open spec fn queue_fundings(s: Seq<TransferRequest>) -> Multiset<Option<Address>> {
    s.map_values(|r: TransferRequest| funding_of(r)).to_multiset()
}

proof fn lemma_queue_fundings_push(s: Seq<TransferRequest>, r: TransferRequest)
    ensures
        queue_fundings(s.push(r)) == queue_fundings(s).insert(funding_of(r)),
{
    assert(s.push(r).map_values(|r: TransferRequest| funding_of(r)) =~= s.map_values(
        |r: TransferRequest| funding_of(r),
    ).push(funding_of(r)));
}

proof fn lemma_queue_fundings_remove(s: Seq<TransferRequest>, i: int)
    requires
        0 <= i < s.len(),
    ensures
        queue_fundings(s.remove(i)) == queue_fundings(s).remove(funding_of(s[i])),
        queue_fundings(s).count(funding_of(s[i])) > 0,
{
    let m = s.map_values(|r: TransferRequest| funding_of(r));
    assert(s.remove(i).map_values(|r: TransferRequest| funding_of(r)) =~= m.remove(i));
    assert(m[i] == funding_of(s[i]));
    assert(m.contains(funding_of(s[i])));
}

/// The recipients of the funding transfers in flight, with multiplicity.
pub open spec fn inflight_fundings(s: Seq<InflightEntry>) -> Multiset<Option<Address>> {
    s.map_values(|e: InflightEntry| funding_of(e.transfer.request)).to_multiset()
}

proof fn lemma_inflight_fundings_push(s: Seq<InflightEntry>, e: InflightEntry)
    ensures
        inflight_fundings(s.push(e)) == inflight_fundings(s).insert(funding_of(e.transfer.request)),
{
    assert(s.push(e).map_values(|e: InflightEntry| funding_of(e.transfer.request)) =~= s.map_values(
        |e: InflightEntry| funding_of(e.transfer.request),
    ).push(funding_of(e.transfer.request)));
}

proof fn lemma_inflight_fundings_remove(s: Seq<InflightEntry>, i: int)
    requires
        0 <= i < s.len(),
    ensures
        inflight_fundings(s.remove(i)) == inflight_fundings(s).remove(
            funding_of(s[i].transfer.request),
        ),
        inflight_fundings(s).count(funding_of(s[i].transfer.request)) > 0,
{
    let m = s.map_values(|e: InflightEntry| funding_of(e.transfer.request));
    assert(s.remove(i).map_values(|e: InflightEntry| funding_of(e.transfer.request)) =~= m.remove(
        i,
    ));
    assert(m[i] == funding_of(s[i].transfer.request));
    assert(m.contains(funding_of(s[i].transfer.request)));
}

/// The addresses of the wallets waiting for funding, with multiplicity.
pub open spec fn funded_addresses(s: Seq<Wallet>) -> Multiset<Option<Address>> {
    s.map_values(|w: Wallet| Some(w.address)).to_multiset()
}

proof fn lemma_funded_addresses_push(s: Seq<Wallet>, w: Wallet)
    ensures
        funded_addresses(s.push(w)) == funded_addresses(s).insert(Some(w.address)),
{
    assert(s.push(w).map_values(|w: Wallet| Some(w.address)) =~= s.map_values(
        |w: Wallet| Some(w.address),
    ).push(Some(w.address)));
}

proof fn lemma_funded_addresses_remove(s: Seq<Wallet>, i: int)
    requires
        0 <= i < s.len(),
    ensures
        funded_addresses(s.remove(i)) == funded_addresses(s).remove(Some(s[i].address)),
{
    let m = s.map_values(|w: Wallet| Some(w.address));
    assert(s.remove(i).map_values(|w: Wallet| Some(w.address)) =~= m.remove(i));
    assert(m[i] == Some(s[i].address));
}

proof fn lemma_funded_addresses_has(s: Seq<Wallet>, a: Address)
    requires
        funded_addresses(s).count(Some(a)) > 0,
    ensures
        has_address(s, a),
{
    let m = s.map_values(|w: Wallet| Some(w.address));
    assert(m.contains(Some(a)));
    let k = choose|k: int| 0 <= k < m.len() && m[k] == Some(a);
    assert(s[k].address == a);
}

pub open spec fn submission_fundings(s: Option<Submission>) -> Multiset<Option<Address>> {
    match s {
        Some(x) => Multiset::singleton(funding_of(x.request)),
        None => Multiset::empty(),
    }
}

/// What is sent for a request by a wallet of the given balance: the grant,
/// or half of the sender's balance for a funding.
pub open spec fn transfer_amount(request: TransferRequest, balance: Amount) -> nat {
    match request {
        TransferRequest::Faucet { amount, .. } => amount.value(),
        TransferRequest::Funding { .. } => balance.value() / 2,
    }
}

/// Some entry of the pool holds what the request requires.
pub open spec fn can_serve(pool: Seq<PoolEntry>, request: TransferRequest) -> bool {
    exists|i: int| 0 <= i < pool.len() && #[trigger] pool[i].balance.value() >= request.required()
}

/// Some transfer in flight has this hash.
pub open spec fn has_hash(s: Seq<InflightEntry>, h: TxHash) -> bool {
    exists|i: int| 0 <= i < s.len() && #[trigger] s[i].tx_hash == h
}

/// `i` is the first transfer in flight with this hash.
pub open spec fn first_with_hash(s: Seq<InflightEntry>, h: TxHash, i: int) -> bool {
    &&& 0 <= i < s.len()
    &&& s[i].tx_hash == h
    &&& forall|j: int| 0 <= j < i ==> #[trigger] s[j].tx_hash != h
}

/// Some wallet being funded has this address.
pub open spec fn has_address(s: Seq<Wallet>, a: Address) -> bool {
    exists|k: int| 0 <= k < s.len() && #[trigger] s[k].address == a
}

/// `k` is the first wallet being funded with this address.
pub open spec fn first_with_address(s: Seq<Wallet>, a: Address, k: int) -> bool {
    &&& 0 <= k < s.len()
    &&& s[k].address == a
    &&& forall|j: int| 0 <= j < k ==> #[trigger] s[j].address != a
}

/// The transfer has waited longer than the timeout at time `now`.
pub open spec fn expired(t: Transfer, now: u64, timeout: u64) -> bool {
    now > t.timestamp && now - t.timestamp > timeout
}

/// Whether a transfer in flight has waited longer than the timeout at `now`.
pub open spec fn expired_at(now: u64, timeout: u64) -> spec_fn(InflightEntry) -> bool {
    |e: InflightEntry| expired(e.transfer, now, timeout)
}

/// The sum of the first `k` balances.
pub open spec fn sum_balances(b: Seq<Amount>, k: int) -> nat
    decreases k,
{
    if k <= 0 {
        0
    } else {
        sum_balances(b, k - 1) + b[k - 1].value()
    }
}

/// Eight times the mean balance, the mean rounded down.
pub open spec fn mean_times_eight(b: Seq<Amount>) -> nat {
    (sum_balances(b, b.len() as int) / b.len()) * 8
}

/// Eighty percent of the mean balance: the balance a wallet should have.
pub open spec fn desired_balance(b: Seq<Amount>) -> nat {
    mean_times_eight(b) / 10
}

/// The bootstrap arithmetic stays within 256 bits.
pub open spec fn bootstrap_fits(b: Seq<Amount>) -> bool {
    &&& sum_balances(b, b.len() as int) < amount_bound()
    &&& mean_times_eight(b) < amount_bound()
}

pub open spec fn underfunded(enable_funding: bool, balance: Amount, desired: nat) -> bool {
    enable_funding && balance.value() < desired
}

/// The pool after bootstrap has looked at the first `k` wallets.
pub open spec fn seeded_pool(
    addresses: Seq<Address>,
    balances: Seq<Amount>,
    enable_funding: bool,
    desired: nat,
    k: int,
) -> Seq<PoolEntry>
    decreases k,
{
    if k <= 0 {
        Seq::empty()
    } else {
        let prev = seeded_pool(addresses, balances, enable_funding, desired, k - 1);
        if underfunded(enable_funding, balances[k - 1], desired) {
            prev
        } else {
            prev.push(
                PoolEntry {
                    balance: balances[k - 1],
                    wallet: Wallet { id: (k - 1) as usize, address: addresses[k - 1] },
                },
            )
        }
    }
}

/// The wallets waiting for funding after bootstrap has looked at the first
/// `k` wallets.
pub open spec fn seeded_funding(
    addresses: Seq<Address>,
    balances: Seq<Amount>,
    enable_funding: bool,
    desired: nat,
    k: int,
) -> Seq<Wallet>
    decreases k,
{
    if k <= 0 {
        Seq::empty()
    } else {
        let prev = seeded_funding(addresses, balances, enable_funding, desired, k - 1);
        if underfunded(enable_funding, balances[k - 1], desired) {
            prev.push(Wallet { id: (k - 1) as usize, address: addresses[k - 1] })
        } else {
            prev
        }
    }
}

proof fn lemma_sum_monotone(b: Seq<Amount>, j: int, k: int)
    requires
        0 <= j <= k,
    ensures
        sum_balances(b, j) <= sum_balances(b, k),
    decreases k - j,
{
    if j < k {
        lemma_sum_monotone(b, j, k - 1);
    }
}

/// The scheduler's state: idle wallets, pending requests, transfers in
/// flight, wallets waiting for their funding, and the transfer being
/// submitted.
pub struct State {
    pub clients: ClientPool,
    pub inflight: Vec<InflightEntry>,
    pub clients_being_funded: Vec<Wallet>,
    /// Pending requests, served from the front.
    pub transfer_queue: VecDeque<TransferRequest>,
    /// Set once the block subscription has been established.
    pub monitoring_started: bool,
    /// The transfer that the dispatcher has checked out and not yet settled.
    pub submitting: Option<Submission>,
    pub num_clients: usize,
    /// The address of each wallet, by index.
    pub addresses: Ghost<Seq<Address>>,
    /// Milliseconds after which a transfer in flight is taken back.
    pub transaction_timeout: u64,
}

impl State {
    /// The wallets held outside the pool, with multiplicity.
    pub open spec fn busy(&self) -> Multiset<Wallet> {
        inflight_wallets(self.inflight@).add(self.clients_being_funded@.to_multiset()).add(
            submission_wallets(self.submitting),
        )
    }

    /// Every wallet held anywhere, with multiplicity.
    pub open spec fn holders(&self) -> Multiset<Wallet> {
        self.clients.wallets().add(self.busy())
    }

    /// The recipients of the funding requests queued, under way or in
    /// flight, with multiplicity.
    pub open spec fn pending_fundings(&self) -> Multiset<Option<Address>> {
        queue_fundings(self.transfer_queue@).add(inflight_fundings(self.inflight@)).add(
            submission_fundings(self.submitting),
        )
    }

    /// A wallet held outside the pool is not in it, and pushing it appends.
    proof fn lemma_busy_not_in_pool(&self, w: Wallet)
        requires
            self.wf(),
            self.busy().count(w) > 0,
        ensures
            !pool_has_address(self.clients@, w.address),
            self.clients.wallets().count(w) == 0,
    {
        assert forall|v: Wallet| #[trigger]
            entry_wallets(self.clients@).add(self.busy()).count(v) == (if owned(
                self.addresses@,
                v,
            ) {
                1nat
            } else {
                0nat
            }) by {
            assert(self.holders().count(v) == (if owned(self.addresses@, v) {
                1nat
            } else {
                0nat
            }));
        }
        lemma_held_elsewhere(self.clients@, self.busy(), self.addresses@, w);
        lemma_address_free(self.clients@, self.addresses@, w);
        assert(self.holders().count(w) == 1);
    }

    pub open spec fn wf(&self) -> bool {
        &&& forall|a: Address| #[trigger]
            self.pending_fundings().count(Some(a)) == funded_addresses(
                self.clients_being_funded@,
            ).count(Some(a))
        &&& self.addresses@.len() == self.num_clients
        &&& distinct_addresses(self.addresses@)
        &&& forall|w: Wallet| #[trigger]
            self.holders().count(w) == (if owned(self.addresses@, w) {
                1nat
            } else {
                0nat
            })
        &&& self.clients.wf()
        &&& distinct_hashes(self.inflight@)
        &&& self.clients@.len() + self.inflight@.len() + self.clients_being_funded@.len()
            + submission_count(self.submitting) == self.num_clients
        &&& forall|i: int|
            0 <= i < self.transfer_queue@.len() ==> (#[trigger] self.transfer_queue@[i]).wf()
        &&& forall|i: int|
            0 <= i < self.inflight@.len() ==> (#[trigger] self.inflight@[i]).transfer.request.wf()
        &&& (self.submitting matches Some(s) ==> s.request.wf())
        &&& (self.inflight@.len() > 0 || self.submitting is Some) ==> self.monitoring_started
    }

    /// The wallets with their balances and the timeout are set up: wallets
    /// short of eighty percent of the mean balance (when funding is enabled)
    /// wait for a funding transfer queued for them; the others are idle.
    /// `None` where the sum of the balances, or eight times their mean,
    /// overflows 256 bits.
    pub fn bootstrap(
        addresses: &Vec<Address>,
        balances: &Vec<Amount>,
        enable_funding: bool,
        transaction_timeout: u64,
    ) -> (r: Option<State>)
        requires
            addresses.len() == balances.len(),
            balances.len() > 0,
            distinct_addresses(addresses@),
        ensures
            r is Some <==> bootstrap_fits(balances@),
            r matches Some(s) ==> {
                &&& s.wf()
                &&& s.num_clients == balances.len()
                &&& s.addresses@ == addresses@
                &&& s.transaction_timeout == transaction_timeout
                &&& !s.monitoring_started
                &&& s.submitting is None
                &&& s.inflight@.len() == 0
                &&& s.clients@ == seeded_pool(
                    addresses@,
                    balances@,
                    enable_funding,
                    desired_balance(balances@),
                    balances.len() as int,
                )
                &&& s.clients_being_funded@ == seeded_funding(
                    addresses@,
                    balances@,
                    enable_funding,
                    desired_balance(balances@),
                    balances.len() as int,
                )
                &&& s.transfer_queue@.len() == s.clients_being_funded@.len()
                &&& forall|j: int|
                    0 <= j < s.transfer_queue@.len() ==> (#[trigger] s.transfer_queue@[j] matches TransferRequest::Funding { to, average_wallet_balance }
                        && to == s.clients_being_funded@[j].address
                        && average_wallet_balance.value() == desired_balance(balances@))
            },
    {
        let n = balances.len();
        let mut total = Amount::zero();
        let mut i: usize = 0;
        while i < n
            invariant
                i <= n,
                n == balances.len(),
                total.value() == sum_balances(balances@, i as int),
            decreases n - i,
        {
            match amount_checked_add(total, balances[i]) {
                Some(t) => {
                    total = t;
                },
                None => {
                    proof {
                        lemma_sum_monotone(balances@, i + 1, n as int);
                    }
                    return None;
                },
            }
            i = i + 1;
        }
        let mean = amount_div(total, n as u64);
        let eight = match amount_checked_mul(mean, 8) {
            Some(e) => e,
            None => {
                return None;
            },
        };
        let desired = amount_div(eight, 10);
        proof {
            lemma_value_bound(desired);
        }
        let ghost d = desired.value();
        let mut st = State {
            clients: ClientPool::new(),
            inflight: Vec::new(),
            clients_being_funded: Vec::new(),
            transfer_queue: VecDeque::new(),
            monitoring_started: false,
            submitting: None,
            num_clients: n,
            addresses: Ghost(addresses@),
            transaction_timeout,
        };
        proof {
            assert(st.clients@.map_values(|e: PoolEntry| entry_wallet(e)) =~= Seq::<
                Wallet,
            >::empty());
            assert(st.inflight@.map_values(|e: InflightEntry| inflight_wallet(e)) =~= Seq::<
                Wallet,
            >::empty());
            assert(st.transfer_queue@.map_values(|r: TransferRequest| funding_of(r)) =~= Seq::<
                Option<Address>,
            >::empty());
            assert(st.inflight@.map_values(|e: InflightEntry| funding_of(e.transfer.request))
                =~= Seq::<Option<Address>>::empty());
            assert(st.clients_being_funded@.map_values(|w: Wallet| Some(w.address)) =~= Seq::<
                Option<Address>,
            >::empty());
        }
        let mut k: usize = 0;
        while k < n
            invariant
                k <= n,
                n == balances.len(),
                n == addresses.len(),
                d == desired.value(),
                d == desired_balance(balances@),
                st.num_clients == n,
                st.transaction_timeout == transaction_timeout,
                !st.monitoring_started,
                st.submitting is None,
                st.inflight@.len() == 0,
                st.addresses@ == addresses@,
                distinct_addresses(addresses@),
                st.clients.wf(),
                forall|j: int|
                    0 <= j < st.clients@.len() ==> owned(addresses@, #[trigger] st.clients@[j].wallet)
                        && st.clients@[j].wallet.id < k,
                inflight_wallets(st.inflight@) =~= Multiset::<Wallet>::empty(),
                inflight_fundings(st.inflight@) =~= Multiset::<Option<Address>>::empty(),
                forall|a: Address| #[trigger]
                    st.pending_fundings().count(Some(a)) == funded_addresses(
                        st.clients_being_funded@,
                    ).count(Some(a)),
                st.clients@ == seeded_pool(addresses@, balances@, enable_funding, d, k as int),
                st.clients_being_funded@ == seeded_funding(
                    addresses@,
                    balances@,
                    enable_funding,
                    d,
                    k as int,
                ),
                st.clients@.len() + st.clients_being_funded@.len() == k,
                st.transfer_queue@.len() == st.clients_being_funded@.len(),
                forall|j: int|
                    0 <= j < st.transfer_queue@.len() ==> #[trigger] st.transfer_queue@[j] == (
                    TransferRequest::Funding {
                        to: st.clients_being_funded@[j].address,
                        average_wallet_balance: desired,
                    }),
                forall|v: Wallet| #[trigger]
                    st.holders().count(v) == (if owned(addresses@, v) && v.id < k {
                        1nat
                    } else {
                        0nat
                    }),
            decreases n - k,
        {
            let bal = balances[k];
            let w = Wallet { id: k, address: addresses[k] };
            let ghost old_st_holders = st.holders();
            let ghost old_pending = st.pending_fundings();
            if enable_funding && amount_lt(bal, desired) {
                let req = TransferRequest::funding(w.address, desired);
                proof {
                    lemma_queue_fundings_push(st.transfer_queue@, req);
                }
                st.transfer_queue.push_back(req);
                proof {
                    lemma_funded_addresses_push(st.clients_being_funded@, w);
                }
                st.clients_being_funded.push(w);
                assert(st.holders() =~= old_st_holders.insert(w));
                assert(st.pending_fundings() =~= old_pending.insert(Some(w.address)));
            } else {
                proof {
                    lemma_address_free(st.clients@, addresses@, w);
                }
                st.clients.push(bal, w);
                assert(st.holders() =~= old_st_holders.insert(w));
                assert(st.pending_fundings() =~= old_pending);
            }
            k = k + 1;
        }
        proof {
            assert forall|j: int| 0 <= j < st.transfer_queue@.len() implies (#[trigger] st.transfer_queue@[j]).wf() by {
                assert(st.transfer_queue@[j] == (TransferRequest::Funding {
                        to: st.clients_being_funded@[j].address,
                        average_wallet_balance: desired,
                    }));
            }
        }
        Some(st)
    }

    /// Whether no address is listed twice, as `bootstrap` requires.
    pub fn addresses_distinct(addresses: &Vec<Address>) -> (r: bool)
        ensures
            r == distinct_addresses(addresses@),
    {
        let n = addresses.len();
        let mut i: usize = 0;
        while i < n
            invariant
                i <= n,
                n == addresses@.len(),
                forall|a: int, b: int|
                    0 <= a < i && 0 <= b < n && a != b ==> #[trigger] addresses@[a]
                        != #[trigger] addresses@[b],
            decreases n - i,
        {
            let mut j: usize = 0;
            while j < n
                invariant
                    i < n,
                    j <= n,
                    n == addresses@.len(),
                    forall|a: int, b: int|
                        0 <= a < i && 0 <= b < n && a != b ==> #[trigger] addresses@[a]
                            != #[trigger] addresses@[b],
                    forall|b: int| 0 <= b < j && b != i ==> addresses@[i as int] != #[trigger] addresses@[b],
                decreases n - j,
            {
                if j != i && addresses[i] == addresses[j] {
                    return false;
                }
                j = j + 1;
            }
            i = i + 1;
        }
        true
    }

    /// Appends a request at the back of the queue.
    pub fn request_transfer(&mut self, transfer: TransferRequest)
        requires
            old(self).wf(),
            transfer is Faucet,
            transfer.wf(),
        ensures
            final(self).wf(),
            final(self).transfer_queue@ == old(self).transfer_queue@.push(transfer),
            final(self).clients == old(self).clients,
            final(self).inflight == old(self).inflight,
            final(self).clients_being_funded == old(self).clients_being_funded,
            final(self).submitting == old(self).submitting,
            final(self).monitoring_started == old(self).monitoring_started,
            final(self).num_clients == old(self).num_clients,
            final(self).transaction_timeout == old(self).transaction_timeout,
    {
        proof {
            lemma_queue_fundings_push(self.transfer_queue@, transfer);
        }
        self.transfer_queue.push_back(transfer);
        assert(self.holders() =~= old(self).holders());
        assert(self.pending_fundings() =~= old(self).pending_fundings().insert(None));
    }

    /// Records that the block subscription is live. It stays set when the
    /// subscription is later lost and re-established.
    pub fn start_monitoring(&mut self)
        requires
            old(self).wf(),
        ensures
            final(self).wf(),
            final(self).monitoring_started,
            final(self).transfer_queue == old(self).transfer_queue,
            final(self).clients == old(self).clients,
            final(self).inflight == old(self).inflight,
            final(self).clients_being_funded == old(self).clients_being_funded,
            final(self).submitting == old(self).submitting,
            final(self).num_clients == old(self).num_clients,
            final(self).transaction_timeout == old(self).transaction_timeout,
    {
        self.monitoring_started = true;
        assert(self.holders() =~= old(self).holders());
        assert(self.pending_fundings() =~= old(self).pending_fundings());
    }
    /// The dispatcher's checkout. With an empty queue: `NoRequests`. Where no
    /// idle wallet holds what the front request requires: `NoClient`, and the
    /// request stays at the front. Both leave the state as it was. Otherwise
    /// the front request and the richest wallet are taken out and recorded as
    /// the submission under way.
    pub fn execute_transfer(&mut self) -> (r: Result<Submission, TransferError>)
        requires
            old(self).wf(),
            old(self).monitoring_started,
            old(self).submitting is None,
        ensures
            final(self).wf(),
            old(self).transfer_queue@.len() == 0 ==> (r matches Err(TransferError::NoRequests))
                && *final(self) == *old(self),
            old(self).transfer_queue@.len() > 0 && !can_serve(
                old(self).clients@,
                old(self).transfer_queue@[0],
            ) ==> (r matches Err(TransferError::NoClient)) && *final(self) == *old(self),
            old(self).transfer_queue@.len() > 0 && can_serve(
                old(self).clients@,
                old(self).transfer_queue@[0],
            ) ==> (r matches Ok(sub) && final(self).submitting == Some(sub) && sub.request
                == old(self).transfer_queue@[0] && sub.to == sub.request.recipient()
                && sub.amount.value() == transfer_amount(sub.request, sub.balance)
                && sub.balance.value() >= sub.request.required() && is_max_balance(
                old(self).clients@,
                sub.balance.value(),
            ) && (exists|i: int|
                0 <= i < old(self).clients@.len() && old(self).clients@[i] == (PoolEntry {
                    balance: sub.balance,
                    wallet: sub.sender,
                }) && final(self).clients@ == old(self).clients@.remove(i))
                && final(self).transfer_queue@ == old(self).transfer_queue@.drop_first()
                && final(self).inflight == old(self).inflight
                && final(self).clients_being_funded == old(self).clients_being_funded
                && final(self).monitoring_started == old(self).monitoring_started
                && final(self).num_clients == old(self).num_clients
                && final(self).transaction_timeout == old(self).transaction_timeout),
    {
        if self.transfer_queue.len() == 0 {
            return Err(TransferError::NoRequests);
        }
        let front = self.transfer_queue[0];
        if !self.clients.has_client_for(front) {
            return Err(TransferError::NoClient);
        }
        let ghost old_holders = self.holders();
        // Neither `None` arm is reached: the pool and the queue are non-empty.
        let (balance, sender) = match self.clients.pop() {
            Some(p) => p,
            None => {
                return Err(TransferError::NoClient);
            },
        };
        let request = match self.transfer_queue.pop_front() {
            Some(t) => t,
            None => {
                return Err(TransferError::NoRequests);
            },
        };
        let amount = match request {
            TransferRequest::Faucet { amount, .. } => amount,
            TransferRequest::Funding { .. } => amount_div(balance, 2),
        };
        let sub = Submission { sender, balance, request, to: request.to(), amount };
        self.submitting = Some(sub);
        proof {
            assert(self.holders() =~= old_holders);
            assert(self.transfer_queue@ =~= old(self).transfer_queue@.remove(0));
            lemma_queue_fundings_remove(old(self).transfer_queue@, 0);
            assert(self.pending_fundings() =~= old(self).pending_fundings());
            assert forall|j: int| 0 <= j < self.transfer_queue@.len() implies (
            #[trigger] self.transfer_queue@[j]).wf() by {
                assert(self.transfer_queue@[j] == old(self).transfer_queue@[j + 1]);
            }
        }
        Ok(sub)
    }

    /// The node accepted the submission under way: it is now in flight under
    /// `tx_hash`, sent at time `now`.
    pub fn submission_succeeded(&mut self, tx_hash: TxHash, now: u64)
        requires
            old(self).wf(),
            old(self).submitting is Some,
            !has_hash(old(self).inflight@, tx_hash),
        ensures
            final(self).wf(),
            final(self).inflight@ == old(self).inflight@.push(
                InflightEntry {
                    tx_hash,
                    transfer: Transfer {
                        sender: old(self).submitting->Some_0.sender,
                        request: old(self).submitting->Some_0.request,
                        timestamp: now,
                    },
                },
            ),
            final(self).submitting is None,
            final(self).clients == old(self).clients,
            final(self).transfer_queue == old(self).transfer_queue,
            final(self).clients_being_funded == old(self).clients_being_funded,
            final(self).monitoring_started == old(self).monitoring_started,
            final(self).num_clients == old(self).num_clients,
            final(self).transaction_timeout == old(self).transaction_timeout,
    {
        // The precondition excludes `None`.
        let sub = match self.submitting {
            Some(s) => s,
            None => {
                return ;
            },
        };
        let ghost old_holders = self.holders();
        let entry = InflightEntry {
            tx_hash,
            transfer: Transfer::new(sub.sender, sub.request, now),
        };
        proof {
            lemma_inflight_wallets_push(self.inflight@, entry);
            lemma_inflight_fundings_push(self.inflight@, entry);
        }
        self.inflight.push(entry);
        self.submitting = None;
        proof {
            assert(self.holders() =~= old_holders);
            assert forall|a: int, b: int| 0 <= a < b < self.inflight@.len() implies #[trigger] self.inflight@[a].tx_hash
                != #[trigger] self.inflight@[b].tx_hash by {
                if b < old(self).inflight@.len() {
                    assert(old(self).inflight@[a].tx_hash != old(self).inflight@[b].tx_hash);
                } else {
                    assert(self.inflight@[a] == old(self).inflight@[a]);
                }
            }
            assert(self.pending_fundings() =~= old(self).pending_fundings());
        }
    }

    /// The node refused the submission under way: the wallet goes back to
    /// the pool with the balance it had, the request to the back of the queue.
    pub fn submission_failed(&mut self, msg: String) -> (e: TransferError)
        requires
            old(self).wf(),
            old(self).submitting is Some,
        ensures
            final(self).wf(),
            final(self).clients@ == old(self).clients@.push(
                PoolEntry {
                    balance: old(self).submitting->Some_0.balance,
                    wallet: old(self).submitting->Some_0.sender,
                },
            ),
            final(self).transfer_queue@ == old(self).transfer_queue@.push(
                old(self).submitting->Some_0.request,
            ),
            final(self).submitting is None,
            final(self).inflight == old(self).inflight,
            final(self).clients_being_funded == old(self).clients_being_funded,
            final(self).monitoring_started == old(self).monitoring_started,
            final(self).num_clients == old(self).num_clients,
            final(self).transaction_timeout == old(self).transaction_timeout,
            e matches TransferError::RpcSubmitError { transfer, sender, msg: m } && transfer
                == old(self).submitting->Some_0.request && sender == old(
                self,
            ).submitting->Some_0.sender.address && m@ == msg@,
    {
        // The precondition excludes `None`.
        let sub = match self.submitting {
            Some(s) => s,
            None => {
                return TransferError::NoClient;
            },
        };
        let ghost old_holders = self.holders();
        proof {
            self.lemma_busy_not_in_pool(sub.sender);
        }
        self.clients.push(sub.balance, sub.sender);
        proof {
            lemma_queue_fundings_push(self.transfer_queue@, sub.request);
        }
        self.transfer_queue.push_back(sub.request);
        self.submitting = None;
        proof {
            assert(self.holders() =~= old_holders);
            assert(self.pending_fundings() =~= old(self).pending_fundings());
        }
        TransferError::RpcSubmitError { transfer: sub.request, sender: sub.sender.address, msg }
    }
    /// The index of the first transfer in flight with this hash.
    fn find_inflight(&self, tx_hash: TxHash) -> (r: Option<usize>)
        ensures
            r is None <==> !has_hash(self.inflight@, tx_hash),
            r matches Some(i) ==> first_with_hash(self.inflight@, tx_hash, i as int),
    {
        let mut i: usize = 0;
        while i < self.inflight.len()
            invariant
                i <= self.inflight@.len(),
                forall|j: int| 0 <= j < i ==> #[trigger] self.inflight@[j].tx_hash != tx_hash,
            decreases self.inflight@.len() - i,
        {
            if self.inflight[i].tx_hash == tx_hash {
                return Some(i);
            }
            i = i + 1;
        }
        None
    }

    /// The index of the first wallet being funded with this address.
    fn find_funded(&self, address: Address) -> (r: Option<usize>)
        ensures
            r is None <==> !has_address(self.clients_being_funded@, address),
            r matches Some(k) ==> first_with_address(self.clients_being_funded@, address, k as int),
    {
        let mut k: usize = 0;
        while k < self.clients_being_funded.len()
            invariant
                k <= self.clients_being_funded@.len(),
                forall|j: int| 0 <= j < k ==> #[trigger] self.clients_being_funded@[j].address != address,
            decreases self.clients_being_funded@.len() - k,
        {
            if self.clients_being_funded[k].address == address {
                return Some(k);
            }
            k = k + 1;
        }
        None
    }

    /// The transfer in flight under this hash, if it is one of ours.
    pub fn lookup_inflight(&self, tx_hash: TxHash) -> (r: Option<Transfer>)
        ensures
            r is None <==> !has_hash(self.inflight@, tx_hash),
            r matches Some(t) ==> exists|i: int|
                first_with_hash(self.inflight@, tx_hash, i) && self.inflight@[i].transfer == t,
    {
        match self.find_inflight(tx_hash) {
            Some(i) => Some(self.inflight[i].transfer),
            None => None,
        }
    }

    /// `new` is `old` after the receipt of the `i`-th transfer in flight was
    /// applied.
    pub open spec fn receipt_applied(
        old: State,
        new: State,
        i: int,
        succeeded: bool,
        sender_balance: Amount,
        receiver_balance: Option<Amount>,
    ) -> bool {
        let t = old.inflight@[i].transfer;
        let to = t.request.recipient();
        let pool = old.clients@.push(PoolEntry { balance: sender_balance, wallet: t.sender });
        &&& new.inflight@ == old.inflight@.remove(i)
        &&& new.transfer_queue@ == if succeeded {
            old.transfer_queue@
        } else {
            old.transfer_queue@.push(t.request)
        }
        &&& if succeeded && t.request is Funding && receiver_balance is Some && has_address(
            old.clients_being_funded@,
            to,
        ) {
            exists|k: int|
                first_with_address(old.clients_being_funded@, to, k)
                    && new.clients_being_funded@ == old.clients_being_funded@.remove(k)
                    && new.clients@ == pool.push(
                    PoolEntry {
                        balance: receiver_balance->Some_0,
                        wallet: old.clients_being_funded@[k],
                    },
                )
        } else {
            new.clients_being_funded@ == old.clients_being_funded@ && new.clients@ == pool
        }
        &&& new.submitting == old.submitting
        &&& new.monitoring_started == old.monitoring_started
        &&& new.num_clients == old.num_clients
        &&& new.transaction_timeout == old.transaction_timeout
    }

    /// Applies the receipt of a transfer in flight: the sender returns to the
    /// pool with `sender_balance`; after a funding that succeeded, the funded
    /// wallet joins it with `receiver_balance`; a failed transfer goes to the
    /// back of the queue; the entry leaves the table. A hash that is not in
    /// flight (any more) changes nothing, and the result says whether it was.
    pub fn handle_receipt(
        &mut self,
        tx_hash: TxHash,
        succeeded: bool,
        sender_balance: Amount,
        receiver_balance: Option<Amount>,
    ) -> (r: bool)
        requires
            old(self).wf(),
            forall|i: int|
                first_with_hash(old(self).inflight@, tx_hash, i) && succeeded && (#[trigger] old(
                    self,
                ).inflight@[i]).transfer.request is Funding ==> receiver_balance is Some,
        ensures
            final(self).wf(),
            r == has_hash(old(self).inflight@, tx_hash),
            !has_hash(final(self).inflight@, tx_hash),
            !r ==> *final(self) == *old(self),
            r ==> exists|i: int|
                first_with_hash(old(self).inflight@, tx_hash, i) && State::receipt_applied(
                    *old(self),
                    *final(self),
                    i,
                    succeeded,
                    sender_balance,
                    receiver_balance,
                ),
    {
        let i = match self.find_inflight(tx_hash) {
            Some(i) => i,
            None => {
                return false;
            },
        };
        let ghost old_holders = self.holders();
        let t = self.inflight[i].transfer;
        proof {
            lemma_inflight_wallets_remove(self.inflight@, i as int);
            self.lemma_busy_not_in_pool(t.sender);
        }
        self.clients.push(sender_balance, t.sender);
        let ghost mid_pool = self.clients@;
        let ghost mid_funded = self.clients_being_funded@;
        if succeeded {
            match (t.request, receiver_balance) {
                (TransferRequest::Funding { to, .. }, Some(rb)) => {
                    match self.find_funded(to) {
                        Some(k) => {
                            proof {
                                lemma_funded_addresses_remove(self.clients_being_funded@, k as int);
                                let fw = self.clients_being_funded@[k as int];
                                let rest = inflight_wallets(old(self).inflight@).remove(
                                    t.sender,
                                ).add(self.clients_being_funded@.to_multiset()).add(
                                    submission_wallets(self.submitting),
                                );
                                assert(self.clients_being_funded@.contains(fw));
                                assert(entry_wallets(self.clients@).add(rest) =~= old_holders);
                                assert forall|v: Wallet| #[trigger]
                                    entry_wallets(self.clients@).add(rest).count(v) == (if owned(
                                        self.addresses@,
                                        v,
                                    ) {
                                        1nat
                                    } else {
                                        0nat
                                    }) by {
                                    assert(old(self).holders().count(v) == (if owned(
                                        old(self).addresses@,
                                        v,
                                    ) {
                                        1nat
                                    } else {
                                        0nat
                                    }));
                                }
                                lemma_held_elsewhere(self.clients@, rest, self.addresses@, fw);
                                lemma_address_free(self.clients@, self.addresses@, fw);
                            }
                            let w = self.clients_being_funded.remove(k);
                            self.clients.push(rb, w);
                        },
                        None => {
                            proof {
                                lemma_inflight_fundings_remove(self.inflight@, i as int);
                                assert(funding_of(self.inflight@[i as int].transfer.request) == Some(
                                    to,
                                ));
                                assert(old(self).pending_fundings().count(Some(to)) > 0);
                                lemma_funded_addresses_has(self.clients_being_funded@, to);
                            }
                        },
                    }
                },
                _ => {},
            }
        } else {
            proof {
                lemma_queue_fundings_push(self.transfer_queue@, t.request);
            }
            self.transfer_queue.push_back(t.request);
        }
        proof {
            lemma_inflight_fundings_remove(self.inflight@, i as int);
            lemma_distinct_hashes_remove(self.inflight@, i as int);
        }
        self.inflight.remove(i);
        proof {
            assert(self.holders() =~= old_holders);
            assert forall|j: int| 0 <= j < self.inflight@.len() implies (
            #[trigger] self.inflight@[j]).transfer.request.wf() by {
                if j < i {
                    assert(self.inflight@[j] == old(self).inflight@[j]);
                } else {
                    assert(self.inflight@[j] == old(self).inflight@[j + 1]);
                }
            }
            assert(old(self).inflight@[i as int].transfer.request.wf());
            assert forall|a: Address| #[trigger]
                self.pending_fundings().count(Some(a)) == funded_addresses(
                    self.clients_being_funded@,
                ).count(Some(a)) by {
                assert(old(self).pending_fundings().count(Some(a)) == funded_addresses(
                    old(self).clients_being_funded@,
                ).count(Some(a)));
            }
        }
        true
    }

    /// The transfers in flight that have waited longer than the timeout at
    /// time `now`, in the order they were submitted.
    pub fn timed_out(&self, now: u64) -> (r: Vec<InflightEntry>)
        ensures
            r@ == self.inflight@.filter(expired_at(now, self.transaction_timeout)),
    {
        let mut r: Vec<InflightEntry> = Vec::new();
        let mut i: usize = 0;
        while i < self.inflight.len()
            invariant
                i <= self.inflight@.len(),
                r@ == self.inflight@.subrange(0, i as int).filter(
                    expired_at(now, self.transaction_timeout),
                ),
            decreases self.inflight@.len() - i,
        {
            let e = self.inflight[i];
            proof {
                assert(self.inflight@.subrange(0, i + 1) =~= self.inflight@.subrange(
                    0,
                    i as int,
                ).push(e));
                self.inflight@.subrange(0, i as int).lemma_filter_push(
                    e,
                    expired_at(now, self.transaction_timeout),
                );
            }
            if now > e.transfer.timestamp && now - e.transfer.timestamp > self.transaction_timeout {
                r.push(e);
            }
            i = i + 1;
        }
        proof {
            assert(self.inflight@.subrange(0, self.inflight@.len() as int) =~= self.inflight@);
        }
        r
    }

    /// Takes back a transfer that timed out: its request goes to the back of
    /// the queue, unchanged, and its sender to the pool with `balance`. A hash
    /// that is not in flight (any more) changes nothing, and the result says
    /// whether it was.
    pub fn requeue_timed_out(&mut self, tx_hash: TxHash, balance: Amount) -> (r: bool)
        requires
            old(self).wf(),
        ensures
            final(self).wf(),
            r == has_hash(old(self).inflight@, tx_hash),
            !has_hash(final(self).inflight@, tx_hash),
            !r ==> *final(self) == *old(self),
            r ==> exists|i: int|
                first_with_hash(old(self).inflight@, tx_hash, i)
                    && final(self).inflight@ == old(self).inflight@.remove(i)
                    && final(self).transfer_queue@ == old(self).transfer_queue@.push(
                    old(self).inflight@[i].transfer.request,
                ) && final(self).clients@ == old(self).clients@.push(
                    PoolEntry { balance, wallet: old(self).inflight@[i].transfer.sender },
                ),
            final(self).clients_being_funded == old(self).clients_being_funded,
            final(self).submitting == old(self).submitting,
            final(self).monitoring_started == old(self).monitoring_started,
            final(self).num_clients == old(self).num_clients,
            final(self).transaction_timeout == old(self).transaction_timeout,
    {
        let i = match self.find_inflight(tx_hash) {
            Some(i) => i,
            None => {
                return false;
            },
        };
        let ghost old_holders = self.holders();
        let t = self.inflight[i].transfer;
        proof {
            lemma_inflight_wallets_remove(self.inflight@, i as int);
            self.lemma_busy_not_in_pool(t.sender);
        }
        self.clients.push(balance, t.sender);
        proof {
            lemma_queue_fundings_push(self.transfer_queue@, t.request);
        }
        self.transfer_queue.push_back(t.request);
        proof {
            lemma_inflight_fundings_remove(self.inflight@, i as int);
            lemma_distinct_hashes_remove(self.inflight@, i as int);
        }
        self.inflight.remove(i);
        proof {
            assert(self.holders() =~= old_holders);
            assert(self.pending_fundings() =~= old(self).pending_fundings());
            assert forall|j: int| 0 <= j < self.inflight@.len() implies (
            #[trigger] self.inflight@[j]).transfer.request.wf() by {
                if j < i {
                    assert(self.inflight@[j] == old(self).inflight@[j]);
                } else {
                    assert(self.inflight@[j] == old(self).inflight@[j + 1]);
                }
            }
            assert(old(self).inflight@[i as int].transfer.request.wf());
        }
        true
    }
}

} // verus!
