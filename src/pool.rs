//! The pool of idle sender wallets, served richest first.
use crate::amount::{amount_lt, Amount};
use crate::types::{Address, TransferRequest, Wallet};
use vstd::multiset::Multiset;
use vstd::prelude::*;
use vstd::seq_lib::group_to_multiset_ensures;

verus! {

/// An idle wallet with its last known balance.
#[derive(Clone, Copy, Debug, PartialEq, Eq, Structural)]
pub struct PoolEntry {
    pub balance: Amount,
    pub wallet: Wallet,
}

pub open spec fn entry_wallet(e: PoolEntry) -> Wallet {
    e.wallet
}

/// The wallets of a sequence of pool entries, with multiplicity.
pub open spec fn entry_wallets(s: Seq<PoolEntry>) -> Multiset<Wallet> {
    s.map_values(|e: PoolEntry| entry_wallet(e)).to_multiset()
}

pub proof fn lemma_entry_wallets_push(s: Seq<PoolEntry>, e: PoolEntry)
    ensures
        entry_wallets(s.push(e)) == entry_wallets(s).insert(e.wallet),
{
    broadcast use group_to_multiset_ensures;

    assert(s.push(e).map_values(|e: PoolEntry| entry_wallet(e)) =~= s.map_values(
        |e: PoolEntry| entry_wallet(e),
    ).push(e.wallet));
}

pub proof fn lemma_entry_wallets_remove(s: Seq<PoolEntry>, i: int)
    requires
        0 <= i < s.len(),
    ensures
        entry_wallets(s.remove(i)) == entry_wallets(s).remove(s[i].wallet),
        entry_wallets(s).count(s[i].wallet) > 0,
{
    broadcast use group_to_multiset_ensures;

    let m = s.map_values(|e: PoolEntry| entry_wallet(e));
    assert(s.remove(i).map_values(|e: PoolEntry| entry_wallet(e)) =~= m.remove(i));
    assert(m[i] == s[i].wallet);
    assert(m.contains(s[i].wallet));
}

/// Some entry holds a wallet with this address.
pub open spec fn pool_has_address(s: Seq<PoolEntry>, a: Address) -> bool {
    exists|k: int| 0 <= k < s.len() && #[trigger] s[k].wallet.address == a
}

/// Idle wallets, each with its balance, at most one entry per address. The
/// richest is handed out first; of equal balances, the one that came in first.
#[derive(Clone, Debug)]
pub struct ClientPool {
    pub entries: Vec<PoolEntry>,
}

impl View for ClientPool {
    type V = Seq<PoolEntry>;

    open spec fn view(&self) -> Seq<PoolEntry> {
        self.entries@
    }
}

/// `b` is at least every balance in `s`.
pub open spec fn is_max_balance(s: Seq<PoolEntry>, b: nat) -> bool {
    forall|j: int| 0 <= j < s.len() ==> #[trigger] s[j].balance.value() <= b
}

impl ClientPool {
    pub open spec fn wallets(&self) -> Multiset<Wallet> {
        entry_wallets(self@)
    }

    /// No address appears twice.
    pub open spec fn wf(&self) -> bool {
        forall|i: int, j: int|
            0 <= i < j < self@.len() ==> #[trigger] self@[i].wallet.address
                != #[trigger] self@[j].wallet.address
    }

    pub fn new() -> (r: ClientPool)
        ensures
            r@ == Seq::<PoolEntry>::empty(),
            r.wf(),
    {
        ClientPool { entries: Vec::new() }
    }

    pub fn len(&self) -> (r: usize)
        ensures
            r == self@.len(),
    {
        self.entries.len()
    }

    /// The index of the first entry with the largest balance.
    fn max_index(&self) -> (r: usize)
        requires
            self@.len() > 0,
        ensures
            r < self@.len(),
            is_max_balance(self@, self@[r as int].balance.value()),
            forall|j: int| 0 <= j < r ==> #[trigger] self@[j].balance.value() < self@[r as int].balance.value(),
    {
        let mut best: usize = 0;
        let mut i: usize = 1;
        while i < self.entries.len()
            invariant
                1 <= i <= self@.len(),
                best < i,
                forall|j: int| 0 <= j < i ==> #[trigger] self@[j].balance.value() <= self@[best as int].balance.value(),
                forall|j: int| 0 <= j < best ==> #[trigger] self@[j].balance.value() < self@[best as int].balance.value(),
            decreases self@.len() - i,
        {
            if amount_lt(self.entries[best].balance, self.entries[i].balance) {
                best = i;
            }
            i = i + 1;
        }
        best
    }

    /// Takes out the wallet with the largest balance.
    pub fn pop(&mut self) -> (r: Option<(Amount, Wallet)>)
        requires
            old(self).wf(),
        ensures
            final(self).wf(),
            r is None <==> old(self)@.len() == 0,
            r is None ==> final(self)@ == old(self)@,
            r matches Some((b, w)) ==> exists|i: int|
                0 <= i < old(self)@.len() && old(self)@[i] == (PoolEntry { balance: b, wallet: w })
                    && final(self)@ == old(self)@.remove(i),
            r matches Some((b, w)) ==> is_max_balance(old(self)@, b.value()),
            r matches Some((b, w)) ==> final(self).wallets() == old(self).wallets().remove(w),
            r matches Some((b, w)) ==> old(self).wallets().count(w) > 0,
    {
        if self.entries.len() == 0 {
            return None;
        }
        let i = self.max_index();
        let e = self.entries.remove(i);
        proof {
            lemma_entry_wallets_remove(old(self)@, i as int);
            assert forall|a: int, b: int| 0 <= a < b < self@.len() implies #[trigger] self@[a].wallet.address
                != #[trigger] self@[b].wallet.address by {
                let oa = if a < i { a } else { a + 1 };
                let ob = if b < i { b } else { b + 1 };
                assert(self@[a] == old(self)@[oa] && self@[b] == old(self)@[ob]);
            }
        }
        Some((e.balance, e.wallet))
    }

    /// The index of the entry with this address.
    fn find_address(&self, address: Address) -> (r: Option<usize>)
        ensures
            r is None <==> !pool_has_address(self@, address),
            r matches Some(k) ==> k < self@.len() && self@[k as int].wallet.address == address,
    {
        let mut k: usize = 0;
        while k < self.entries.len()
            invariant
                k <= self@.len(),
                forall|j: int| 0 <= j < k ==> #[trigger] self@[j].wallet.address != address,
            decreases self@.len() - k,
        {
            if self.entries[k].wallet.address == address {
                return Some(k);
            }
            k = k + 1;
        }
        None
    }

    /// Makes a wallet available with the given balance. A wallet with the
    /// same address already in the pool is replaced, in its place; otherwise
    /// the wallet is added at the end.
    pub fn push(&mut self, balance: Amount, client: Wallet)
        requires
            old(self).wf(),
        ensures
            final(self).wf(),
            pool_has_address(old(self)@, client.address) ==> exists|k: int|
                0 <= k < old(self)@.len() && old(self)@[k].wallet.address == client.address
                    && final(self)@ == old(self)@.update(k, PoolEntry { balance, wallet: client }),
            !pool_has_address(old(self)@, client.address) ==> final(self)@ == old(self)@.push(
                PoolEntry { balance, wallet: client },
            ),
            !pool_has_address(old(self)@, client.address) ==> final(self).wallets() == old(
                self,
            ).wallets().insert(client),
    {
        let entry = PoolEntry { balance, wallet: client };
        if let Some(k) = self.find_address(client.address) {
            self.entries.set(k, entry);
            proof {
                assert forall|a: int| 0 <= a < self@.len() implies #[trigger] self@[a].wallet.address
                    == old(self)@[a].wallet.address by {
                    if a == k {
                        assert(self@[a] == entry);
                    } else {
                        assert(self@[a] == old(self)@[a]);
                    }
                }
                assert forall|a: int, b: int| 0 <= a < b < self@.len() implies #[trigger] self@[a].wallet.address
                    != #[trigger] self@[b].wallet.address by {
                    assert(old(self)@[a].wallet.address != old(self)@[b].wallet.address);
                }
            }
            return;
        }
        self.entries.push(entry);
        proof {
            lemma_entry_wallets_push(old(self)@, entry);
            assert forall|a: int, b: int| 0 <= a < b < self@.len() implies #[trigger] self@[a].wallet.address
                != #[trigger] self@[b].wallet.address by {
                if b < old(self)@.len() {
                    assert(old(self)@[a].wallet.address != old(self)@[b].wallet.address);
                } else {
                    assert(self@[a] == old(self)@[a]);
                }
            }
        }
    }

    /// The largest balance in the pool.
    pub fn peek_max_balance(&self) -> (r: Option<Amount>)
        ensures
            r is None <==> self@.len() == 0,
            r matches Some(b) ==> is_max_balance(self@, b.value()) && exists|i: int|
                0 <= i < self@.len() && #[trigger] self@[i].balance == b,
    {
        if self.entries.len() == 0 {
            None
        } else {
            let i = self.max_index();
            Some(self.entries[i].balance)
        }
    }

    /// Whether some idle wallet holds the funds that the transfer requires.
    pub fn has_client_for(&self, transfer: TransferRequest) -> (r: bool)
        requires
            transfer.wf(),
        ensures
            r == exists|i: int|
                0 <= i < self@.len() && #[trigger] self@[i].balance.value() >= transfer.required(),
    {
        match self.peek_max_balance() {
            None => false,
            Some(b) => {
                let need = transfer.required_funds();
                !amount_lt(b, need)
            },
        }
    }
}

} // verus!
