use faucet::{
    Address, Amount, ClientPool, Options, State, TransferError, TransferRequest, TxHash, Wallet,
};

const ETHER: u128 = 1_000_000_000_000_000_000;

fn addr(n: u64) -> Address {
    Address { high: 0, mid: 0, low: n }
}

fn amt(v: u128) -> Amount {
    Amount::from_u128(v)
}

fn val(a: Amount) -> u128 {
    assert!(a.w2 == 0 && a.w3 == 0);
    (a.w0 as u128) | ((a.w1 as u128) << 64)
}

fn wallet_addr(i: usize) -> Address {
    addr(1000 + i as u64)
}

/// A toy chain without gas: transfers are applied when a block is mined.
struct Chain {
    balances: Vec<(Address, u128)>,
    next_hash: u64,
    pending: Vec<(TxHash, Address, Address, u128)>,
}

impl Chain {
    fn new() -> Chain {
        Chain { balances: Vec::new(), next_hash: 1, pending: Vec::new() }
    }

    fn balance(&self, a: Address) -> u128 {
        self.balances.iter().find(|(x, _)| *x == a).map(|(_, b)| *b).unwrap_or(0)
    }

    fn set(&mut self, a: Address, v: u128) {
        match self.balances.iter_mut().find(|(x, _)| *x == a) {
            Some(e) => e.1 = v,
            None => self.balances.push((a, v)),
        }
    }

    fn send(&mut self, from: Address, to: Address, amount: u128) -> TxHash {
        let h = TxHash { w0: self.next_hash, w1: 7, w2: 0, w3: 0 };
        self.next_hash += 1;
        self.pending.push((h, from, to, amount));
        h
    }

    fn mine(&mut self) -> Vec<TxHash> {
        let txs: Vec<_> = self.pending.drain(..).collect();
        let mut hashes = Vec::new();
        for (h, from, to, amount) in txs {
            let fb = self.balance(from);
            assert!(fb >= amount);
            self.set(from, fb - amount);
            let tb = self.balance(to);
            self.set(to, tb + amount);
            hashes.push(h);
        }
        hashes
    }
}

fn boot(chain: &Chain, n: usize, enable_funding: bool, timeout: u64) -> State {
    let addresses: Vec<Address> = (0..n).map(wallet_addr).collect();
    let balances: Vec<Amount> = addresses.iter().map(|a| amt(chain.balance(*a))).collect();
    State::bootstrap(&addresses, &balances, enable_funding, timeout).unwrap()
}

fn dispatch(state: &mut State, chain: &mut Chain, now: u64) -> Result<TxHash, TransferError> {
    let sub = state.execute_transfer()?;
    let h = chain.send(sub.sender.address, sub.to, val(sub.amount));
    state.submission_succeeded(h, now);
    Ok(h)
}

fn settle(state: &mut State, chain: &Chain, h: TxHash) -> bool {
    let t = match state.lookup_inflight(h) {
        Some(t) => t,
        None => return state.handle_receipt(h, true, amt(0), None),
    };
    let sender_balance = amt(chain.balance(t.sender.address));
    let receiver = t.request.funded_recipient(true).map(|a| amt(chain.balance(a)));
    state.handle_receipt(h, true, sender_balance, receiver)
}

fn held(state: &State) -> usize {
    state.clients.len() + state.inflight.len() + state.clients_being_funded.len()
}

/// Serves `requests` grants to `recipient`, dispatching and mining until the
/// queue and the table of transfers in flight are empty.
fn serve_all(state: &mut State, chain: &mut Chain, now: &mut u64) {
    for _ in 0..1000 {
        while dispatch(state, chain, *now).is_ok() {}
        let mined = chain.mine();
        for h in mined {
            settle(state, chain, h);
        }
        *now += 1;
        if state.transfer_queue.is_empty() && state.inflight.is_empty() {
            return;
        }
    }
    panic!("the queue was not drained");
}

#[test]
fn test_faucet_inflight_timeouts() {
    let mut chain = Chain::new();
    chain.set(wallet_addr(0), 10_000 * ETHER);
    let options = Options::default();
    let mut state = boot(&chain, 1, options.enable_funding, 0);
    state.start_monitoring();

    let transfer = TransferRequest::faucet(addr(0), options.faucet_grant_amount);
    state.request_transfer(transfer);
    let sub = state.execute_transfer().unwrap();
    let h = chain.send(sub.sender.address, sub.to, val(sub.amount));
    state.submission_succeeded(h, 5);
    assert!(!state.inflight.is_empty());

    // Sweep: the block never came.
    let expired = state.timed_out(6);
    assert_eq!(expired.len(), 1);
    for e in expired {
        let balance = amt(chain.balance(e.transfer.sender.address));
        assert!(state.requeue_timed_out(e.tx_hash, balance));
    }
    assert!(state.inflight.is_empty());
    assert_eq!(state.clients.len(), 1);
    assert!(state.clients.pop().is_some());
    assert_eq!(chain.balance(addr(0)), 0);
}

#[test]
fn timed_out_request_is_requeued_unchanged() {
    let mut chain = Chain::new();
    chain.set(wallet_addr(0), 10 * ETHER);
    let mut state = boot(&chain, 1, false, 0);
    state.start_monitoring();
    let transfer = TransferRequest::faucet(addr(9), amt(ETHER));
    state.request_transfer(transfer);
    let h = dispatch(&mut state, &mut chain, 1).unwrap();
    let e = state.timed_out(2);
    assert_eq!(e.len(), 1);
    assert_eq!(e[0].tx_hash, h);
    assert_eq!(e[0].transfer.request, transfer);
    assert!(state.requeue_timed_out(h, amt(10 * ETHER)));
    assert_eq!(state.transfer_queue.len(), 1);
    assert_eq!(state.transfer_queue[0], transfer);
    // It can be dispatched again, with the same payload.
    let sub = state.execute_transfer().unwrap();
    assert_eq!(sub.request, transfer);
    assert_eq!(val(sub.amount), ETHER);
    // A second sweep finds nothing to take back for the old hash.
    assert!(!state.requeue_timed_out(h, amt(1)));
}

#[test]
fn timeout_is_strict() {
    let mut chain = Chain::new();
    chain.set(wallet_addr(0), 10 * ETHER);
    let mut state = boot(&chain, 1, false, 5);
    state.start_monitoring();
    state.request_transfer(TransferRequest::faucet(addr(9), amt(1)));
    dispatch(&mut state, &mut chain, 10).unwrap();
    assert_eq!(state.timed_out(10).len(), 0);
    assert_eq!(state.timed_out(15).len(), 0);
    assert_eq!(state.timed_out(16).len(), 1);
}

#[test]
fn test_faucet_funding() {
    let mut chain = Chain::new();
    for i in 0..10 {
        chain.set(wallet_addr(i), 10_000 * ETHER);
    }
    let mut state = boot(&chain, 11, true, 300_000);
    assert_eq!(state.clients_being_funded.len(), 1);
    assert_eq!(state.clients_being_funded[0].address, wallet_addr(10));
    state.start_monitoring();

    let h = dispatch(&mut state, &mut chain, 1).unwrap();
    chain.mine();
    assert!(settle(&mut state, &chain, h));

    assert_eq!(state.clients_being_funded.len(), 0);
    assert_eq!(state.clients.len(), 11);
    // The funded wallet holds at least half of eighty percent of the mean.
    let desired = (100_000 * ETHER / 11) * 8 / 10;
    assert!(chain.balance(wallet_addr(10)) >= desired / 2);
    while let Some((balance, _)) = state.clients.pop() {
        assert!(val(balance) > 0);
    }
}

#[test]
fn bootstrap_computes_eighty_percent_of_the_mean() {
    let addresses = vec![addr(1), addr(2), addr(3)];
    let balances = vec![amt(100), amt(100), amt(0)];
    let state = State::bootstrap(&addresses, &balances, true, 7).unwrap();
    // (200 / 3) * 8 / 10 = 66 * 8 / 10 = 52
    assert_eq!(state.transfer_queue.len(), 1);
    assert_eq!(state.transfer_queue[0], TransferRequest::funding(addr(3), amt(52)));
    assert_eq!(val(state.transfer_queue[0].required_funds()), 52);
    assert_eq!(state.clients.len(), 2);
    assert_eq!(state.transaction_timeout, 7);
    assert!(!state.monitoring_started);
}

#[test]
fn bootstrap_without_funding_pools_every_wallet() {
    let addresses = vec![addr(1), addr(2), addr(3)];
    let balances = vec![amt(100), amt(100), amt(0)];
    let state = State::bootstrap(&addresses, &balances, false, 7).unwrap();
    assert_eq!(state.transfer_queue.len(), 0);
    assert_eq!(state.clients_being_funded.len(), 0);
    assert_eq!(state.clients.len(), 3);
    assert_eq!(held(&state), 3);
}

#[test]
fn bootstrap_rejects_overflowing_balances() {
    let max = Amount { w0: u64::MAX, w1: u64::MAX, w2: u64::MAX, w3: u64::MAX };
    let addresses = vec![addr(1), addr(2)];
    assert!(State::bootstrap(&addresses, &vec![max, amt(1)], true, 0).is_none());
    // The sum fits but eight times the mean does not.
    assert!(State::bootstrap(&addresses[..1].to_vec(), &vec![max], true, 0).is_none());
    let big = Amount { w0: 0, w1: 0, w2: 0, w3: 1 << 60 };
    assert!(State::bootstrap(&addresses[..1].to_vec(), &vec![big], true, 0).is_some());
}

#[test]
fn funding_sends_half_of_the_sender_balance() {
    let addresses = vec![addr(1), addr(2)];
    let balances = vec![amt(101), amt(0)];
    let mut state = State::bootstrap(&addresses, &balances, true, 0).unwrap();
    // (101 / 2) * 8 / 10 = 40
    state.start_monitoring();
    let sub = state.execute_transfer().unwrap();
    assert_eq!(sub.to, addr(2));
    assert_eq!(val(sub.balance), 101);
    assert_eq!(val(sub.amount), 50);
}

#[test]
fn test_faucet_anvil() {
    let mut chain = Chain::new();
    for i in 0..10 {
        chain.set(wallet_addr(i), 10_000 * ETHER);
    }
    let mut state = boot(&chain, 12, true, 300_000);
    assert_eq!(state.clients_being_funded.len(), 2);
    state.start_monitoring();
    let recipient = addr(77);
    for _ in 0..30 {
        state.request_transfer(TransferRequest::faucet(recipient, amt(ETHER)));
    }
    let mut now = 0;
    serve_all(&mut state, &mut chain, &mut now);
    assert_eq!(chain.balance(recipient), 30 * ETHER);
    assert_eq!(state.clients.len(), 12);
    assert_eq!(held(&state), 12);
}

#[test]
fn test_node_restart() {
    let mut chain = Chain::new();
    for i in 0..10 {
        chain.set(wallet_addr(i), 10_000 * ETHER);
    }
    let mut state = boot(&chain, 12, true, 300_000);
    state.start_monitoring();
    let recipient = addr(78);
    let mut now = 0;
    for _ in 0..3 {
        state.request_transfer(TransferRequest::faucet(recipient, amt(ETHER)));
    }
    serve_all(&mut state, &mut chain, &mut now);
    assert_eq!(chain.balance(recipient), 3 * ETHER);

    // The subscription is re-established; readiness stays set.
    state.start_monitoring();
    assert!(state.monitoring_started);
    for _ in 0..3 {
        state.request_transfer(TransferRequest::faucet(recipient, amt(ETHER)));
    }
    serve_all(&mut state, &mut chain, &mut now);
    assert_eq!(chain.balance(recipient), 6 * ETHER);
}

#[test]
fn single_wallet_serves_requests_one_at_a_time() {
    let mut chain = Chain::new();
    chain.set(wallet_addr(0), 100 * ETHER);
    let mut state = boot(&chain, 1, false, 300_000);
    state.start_monitoring();
    let recipient = addr(5);
    for _ in 0..3 {
        state.request_transfer(TransferRequest::faucet(recipient, amt(ETHER)));
    }
    for round in 1..=3u128 {
        let h = dispatch(&mut state, &mut chain, 1).unwrap();
        // The only wallet is busy; once the queue is empty that comes first.
        if round < 3 {
            assert!(matches!(state.execute_transfer(), Err(TransferError::NoClient)));
        } else {
            assert!(matches!(state.execute_transfer(), Err(TransferError::NoRequests)));
        }
        chain.mine();
        assert!(settle(&mut state, &chain, h));
        assert_eq!(chain.balance(recipient), round * ETHER);
    }
    assert!(matches!(state.execute_transfer(), Err(TransferError::NoRequests)));
}

#[test]
fn submit_error_requeues_at_the_back() {
    let mut chain = Chain::new();
    chain.set(wallet_addr(0), 100 * ETHER);
    let mut state = boot(&chain, 1, false, 300_000);
    state.start_monitoring();
    let first = TransferRequest::faucet(addr(5), amt(ETHER));
    let second = TransferRequest::faucet(addr(6), amt(2 * ETHER));
    state.request_transfer(first);
    state.request_transfer(second);

    let sub = state.execute_transfer().unwrap();
    assert_eq!(sub.request, first);
    let err = state.submission_failed("nonce too low".to_string());
    match err {
        TransferError::RpcSubmitError { transfer, sender, msg } => {
            assert_eq!(transfer, first);
            assert_eq!(sender, wallet_addr(0));
            assert_eq!(msg, "nonce too low");
        }
        _ => panic!("expected a submission error"),
    }
    assert_eq!(state.transfer_queue.len(), 2);
    assert_eq!(state.transfer_queue[0], second);
    assert_eq!(state.transfer_queue[1], first);
    assert_eq!(state.clients.len(), 1);
    assert_eq!(state.clients.peek_max_balance().map(val), Some(100 * ETHER));

    let mut now = 0;
    serve_all(&mut state, &mut chain, &mut now);
    assert_eq!(chain.balance(addr(5)), ETHER);
    assert_eq!(chain.balance(addr(6)), 2 * ETHER);
}

#[test]
fn unaffordable_front_request_is_kept_and_waits() {
    let mut chain = Chain::new();
    chain.set(wallet_addr(0), 10 * ETHER);
    chain.set(wallet_addr(1), 20 * ETHER);
    let mut state = boot(&chain, 2, false, 300_000);
    state.start_monitoring();
    // Requires 22 ether; the richest wallet has 20.
    let big = TransferRequest::faucet(addr(5), amt(11 * ETHER));
    let small = TransferRequest::faucet(addr(6), amt(ETHER));
    state.request_transfer(big);
    state.request_transfer(small);
    for _ in 0..3 {
        assert!(matches!(state.execute_transfer(), Err(TransferError::NoClient)));
        assert_eq!(state.transfer_queue.len(), 2);
        assert_eq!(state.transfer_queue[0], big);
        assert_eq!(state.transfer_queue[1], small);
        assert_eq!(state.clients.len(), 2);
        assert!(state.submitting.is_none());
    }
    // Exactly enough is enough.
    let exact = TransferRequest::faucet(addr(5), amt(10 * ETHER));
    assert!(state.clients.has_client_for(exact));
    assert!(!state.clients.has_client_for(big));
}

#[test]
fn failed_receipt_requeues_and_returns_the_sender() {
    let mut chain = Chain::new();
    chain.set(wallet_addr(0), 10 * ETHER);
    let mut state = boot(&chain, 1, false, 300_000);
    state.start_monitoring();
    let req = TransferRequest::faucet(addr(5), amt(ETHER));
    state.request_transfer(req);
    let h = dispatch(&mut state, &mut chain, 1).unwrap();
    assert!(state.transfer_queue.is_empty());
    assert!(state.handle_receipt(h, false, amt(9 * ETHER), None));
    assert!(state.inflight.is_empty());
    assert_eq!(state.transfer_queue.len(), 1);
    assert_eq!(state.transfer_queue[0], req);
    assert_eq!(state.clients.peek_max_balance().map(val), Some(9 * ETHER));
}

#[test]
fn unknown_receipt_changes_nothing() {
    let mut chain = Chain::new();
    chain.set(wallet_addr(0), 10 * ETHER);
    let mut state = boot(&chain, 1, false, 300_000);
    state.start_monitoring();
    state.request_transfer(TransferRequest::faucet(addr(5), amt(ETHER)));
    dispatch(&mut state, &mut chain, 1).unwrap();
    let other = TxHash { w0: 999, w1: 0, w2: 0, w3: 0 };
    assert!(state.lookup_inflight(other).is_none());
    assert!(!state.handle_receipt(other, true, amt(1), None));
    assert_eq!(state.inflight.len(), 1);
    assert_eq!(state.clients.len(), 0);
}

#[test]
fn receipt_after_timeout_does_not_duplicate_the_wallet() {
    let mut chain = Chain::new();
    chain.set(wallet_addr(0), 10 * ETHER);
    let mut state = boot(&chain, 1, false, 0);
    state.start_monitoring();
    state.request_transfer(TransferRequest::faucet(addr(5), amt(ETHER)));
    let h = dispatch(&mut state, &mut chain, 1).unwrap();
    assert!(state.requeue_timed_out(h, amt(10 * ETHER)));
    assert!(!state.handle_receipt(h, true, amt(9 * ETHER), None));
    assert_eq!(state.clients.len(), 1);
    assert_eq!(held(&state), 1);
}

#[test]
fn wallets_are_accounted_for_at_every_step() {
    let mut chain = Chain::new();
    for i in 0..3 {
        chain.set(wallet_addr(i), 10 * ETHER);
    }
    let mut state = boot(&chain, 5, true, 0);
    assert_eq!(held(&state), 5);
    state.start_monitoring();
    for k in 0..4 {
        state.request_transfer(TransferRequest::faucet(addr(50 + k), amt(ETHER / 10)));
    }
    let h = dispatch(&mut state, &mut chain, 1).unwrap();
    assert_eq!(held(&state), 5);
    let sub = state.execute_transfer().unwrap();
    assert_eq!(held(&state), 4);
    state.submission_failed("boom".to_string());
    assert_eq!(held(&state), 5);
    chain.mine();
    settle(&mut state, &chain, h);
    assert_eq!(held(&state), 5);
    let _ = sub;
}

#[test]
fn funded_recipient_only_after_successful_funding() {
    let f = TransferRequest::funding(addr(3), amt(10));
    let g = TransferRequest::faucet(addr(4), amt(10));
    assert_eq!(f.funded_recipient(true), Some(addr(3)));
    assert_eq!(f.funded_recipient(false), None);
    assert_eq!(g.funded_recipient(true), None);
    assert_eq!(f.to(), addr(3));
    assert_eq!(g.to(), addr(4));
}

#[test]
fn required_funds_doubles_a_grant() {
    let g = TransferRequest::faucet(addr(4), amt(21));
    assert_eq!(val(g.required_funds()), 42);
    let big = Amount { w0: 5, w1: 0, w2: 0, w3: 1 << 62 };
    let r = TransferRequest::faucet(addr(4), big).required_funds();
    assert_eq!(r, Amount { w0: 10, w1: 0, w2: 0, w3: 1 << 63 });
    let f = TransferRequest::funding(addr(4), amt(21));
    assert_eq!(val(f.required_funds()), 21);
}

#[test]
fn oversized_grant_is_not_well_formed() {
    let half = Amount { w0: 0, w1: 0, w2: 0, w3: 1 << 63 };
    assert!(!TransferRequest::faucet(addr(1), half).is_well_formed());
    let below = Amount { w0: u64::MAX, w1: u64::MAX, w2: u64::MAX, w3: (1 << 63) - 1 };
    assert!(TransferRequest::faucet(addr(1), below).is_well_formed());
    let max = Amount { w0: u64::MAX, w1: u64::MAX, w2: u64::MAX, w3: u64::MAX };
    assert!(TransferRequest::funding(addr(1), max).is_well_formed());
}

#[test]
fn pool_serves_the_richest_first_and_the_earliest_of_equals() {
    let mut pool = ClientPool::new();
    assert_eq!(pool.peek_max_balance(), None);
    assert!(pool.pop().is_none());
    let w = |i: usize| Wallet { id: i, address: wallet_addr(i) };
    pool.push(amt(5), w(0));
    pool.push(amt(9), w(1));
    pool.push(amt(9), w(2));
    pool.push(Amount { w0: 0, w1: 1, w2: 0, w3: 0 }, w(3));
    assert_eq!(pool.peek_max_balance().map(val), Some(1u128 << 64));
    assert_eq!(pool.pop().map(|(_, x)| x.id), Some(3));
    assert_eq!(pool.pop().map(|(b, x)| (val(b), x.id)), Some((9, 1)));
    assert_eq!(pool.pop().map(|(_, x)| x.id), Some(2));
    assert_eq!(pool.pop().map(|(_, x)| x.id), Some(0));
    assert_eq!(pool.len(), 0);
}

#[test]
fn amounts_hold_large_values() {
    let a = Amount::from_u128(u128::MAX);
    assert_eq!(a, Amount { w0: u64::MAX, w1: u64::MAX, w2: 0, w3: 0 });
    assert_eq!(val(Amount::from_u128(100 * ETHER)), 100 * ETHER);
    assert_eq!(val(Amount::zero()), 0);
}

#[test]
fn default_options() {
    let o = Options::default();
    assert_eq!(o.num_clients, 10);
    assert_eq!(o.port, 8111);
    assert_eq!(val(o.faucet_grant_amount), 100 * ETHER);
    assert_eq!(o.transaction_timeout, 300_000);
    assert!(o.enable_funding);
    assert!(o.discord_token.is_none());
    assert_eq!(o.mnemonic, "test test test test test test test test test test test junk");
    assert_eq!(o.provider_url_ws, "ws://localhost:8545");
}

#[test]
fn failed_funding_keeps_the_wallet_waiting() {
    let mut chain = Chain::new();
    chain.set(wallet_addr(0), 100 * ETHER);
    let mut state = boot(&chain, 2, true, 300_000);
    assert_eq!(state.clients_being_funded.len(), 1);
    state.start_monitoring();
    let h = dispatch(&mut state, &mut chain, 1).unwrap();
    let request = state.lookup_inflight(h).unwrap().request;
    assert_eq!(request.funded_recipient(false), None);
    // The transaction reverted: nothing moved.
    chain.pending.clear();
    assert!(state.handle_receipt(h, false, amt(100 * ETHER), None));
    assert_eq!(state.clients_being_funded.len(), 1);
    assert_eq!(state.transfer_queue.len(), 1);
    assert_eq!(state.transfer_queue[0], request);
    assert_eq!(state.clients.len(), 1);
    // The next attempt funds it.
    let h = dispatch(&mut state, &mut chain, 2).unwrap();
    chain.mine();
    assert!(settle(&mut state, &chain, h));
    assert_eq!(state.clients_being_funded.len(), 0);
    assert_eq!(state.clients.len(), 2);
    assert_eq!(chain.balance(wallet_addr(1)), 50 * ETHER);
}

#[test]
fn pool_push_replaces_a_wallet_already_there() {
    let mut pool = ClientPool::new();
    let w = |i: usize| Wallet { id: i, address: wallet_addr(i) };
    pool.push(amt(5), w(0));
    pool.push(amt(9), w(1));
    pool.push(amt(3), w(0));
    assert_eq!(pool.len(), 2);
    assert_eq!(pool.entries[0].wallet, w(0));
    assert_eq!(val(pool.entries[0].balance), 3);
    assert_eq!(pool.pop().map(|(b, x)| (val(b), x.id)), Some((9, 1)));
    assert_eq!(pool.pop().map(|(b, x)| (val(b), x.id)), Some((3, 0)));
    assert!(pool.pop().is_none());
}

#[test]
fn addresses_distinct_detects_repeats() {
    assert!(State::addresses_distinct(&vec![addr(1), addr(2), addr(3)]));
    assert!(!State::addresses_distinct(&vec![addr(1), addr(2), addr(1)]));
    assert!(State::addresses_distinct(&vec![addr(1)]));
}

#[test]
fn timed_out_lists_expired_transfers_in_submission_order() {
    let mut chain = Chain::new();
    for i in 0..3 {
        chain.set(wallet_addr(i), 10 * ETHER);
    }
    let mut state = boot(&chain, 3, false, 5);
    state.start_monitoring();
    for k in 0..3 {
        state.request_transfer(TransferRequest::faucet(addr(60 + k), amt(1)));
    }
    let h0 = dispatch(&mut state, &mut chain, 10).unwrap();
    let _h1 = dispatch(&mut state, &mut chain, 20).unwrap();
    let h2 = dispatch(&mut state, &mut chain, 12).unwrap();
    let e = state.timed_out(25);
    let hashes: Vec<TxHash> = e.iter().map(|x| x.tx_hash).collect();
    assert_eq!(hashes, vec![h0, h2]);
}
