//! Addresses, transaction hashes, wallets and transfer requests.
use crate::amount::{amount_bound, amount_checked_mul, Amount};
use vstd::prelude::*;

verus! {

/// A 20-byte account identifier, as one 32-bit and two 64-bit words,
/// most significant first.
#[derive(Clone, Copy, Debug, PartialEq, Eq, Structural)]
pub struct Address {
    pub high: u32,
    pub mid: u64,
    pub low: u64,
}

/// A 32-byte transaction identifier, as four 64-bit words.
#[derive(Clone, Copy, Debug, PartialEq, Eq, Structural)]
pub struct TxHash {
    pub w0: u64,
    pub w1: u64,
    pub w2: u64,
    pub w3: u64,
}

/// A sender wallet: its index among the wallets created at bootstrap (which
/// selects the signing key) and its address.
#[derive(Clone, Copy, Debug, PartialEq, Eq, Structural)]
pub struct Wallet {
    pub id: usize,
    pub address: Address,
}

/// A transfer waiting to be sent, or in flight.
#[derive(Clone, Copy, Debug, PartialEq, Eq, Structural)]
pub enum TransferRequest {
    /// A grant that somebody asked for.
    Faucet { to: Address, amount: Amount },
    /// A bootstrap transfer that lifts an under-funded wallet towards
    /// `average_wallet_balance`.
    Funding { to: Address, average_wallet_balance: Amount },
}

impl TransferRequest {
    /// Where the transfer goes.
    pub open spec fn recipient(self) -> Address {
        match self {
            TransferRequest::Faucet { to, .. } => to,
            TransferRequest::Funding { to, .. } => to,
        }
    }

    /// The smallest sender balance with which the transfer is attempted: twice
    /// the grant, as a cushion for gas, or the target balance of a funding.
    pub open spec fn required(self) -> nat {
        match self {
            TransferRequest::Faucet { amount, .. } => 2 * amount.value(),
            TransferRequest::Funding { average_wallet_balance, .. } => average_wallet_balance.value(),
        }
    }

    /// The required funds fit in 256 bits.
    pub open spec fn wf(self) -> bool {
        self.required() < amount_bound()
    }

    pub fn faucet(to: Address, amount: Amount) -> (r: TransferRequest)
        ensures
            r == (TransferRequest::Faucet { to, amount }),
    {
        TransferRequest::Faucet { to, amount }
    }

    pub fn funding(to: Address, average_wallet_balance: Amount) -> (r: TransferRequest)
        ensures
            r == (TransferRequest::Funding { to, average_wallet_balance }),
    {
        TransferRequest::Funding { to, average_wallet_balance }
    }

    pub fn to(&self) -> (r: Address)
        ensures
            r == self.recipient(),
    {
        match self {
            TransferRequest::Faucet { to, .. } => *to,
            TransferRequest::Funding { to, .. } => *to,
        }
    }

    pub fn required_funds(&self) -> (r: Amount)
        requires
            self.wf(),
        ensures
            r.value() == self.required(),
    {
        match self {
            TransferRequest::Faucet { amount, .. } => {
                match amount_checked_mul(*amount, 2) {
                    Some(r) => r,
                    None => Amount::zero(),  // excluded by the precondition
                }
            },
            TransferRequest::Funding { average_wallet_balance, .. } => *average_wallet_balance,
        }
    }

    /// Whether the required funds of this request can be stated at all: a
    /// grant of more than half the largest amount cannot be served.
    pub fn is_well_formed(&self) -> (r: bool)
        ensures
            r == self.wf(),
    {
        match self {
            TransferRequest::Faucet { amount, .. } => amount_checked_mul(*amount, 2).is_some(),
            TransferRequest::Funding { average_wallet_balance, .. } => {
                proof {
                    crate::amount::lemma_value_bound(*average_wallet_balance);
                }
                true
            },
        }
    }

    /// The recipient whose balance must be read back after the receipt: that of
    /// a funding transfer that succeeded.
    pub fn funded_recipient(&self, succeeded: bool) -> (r: Option<Address>)
        ensures
            r == (if succeeded && self is Funding {
                Some(self.recipient())
            } else {
                None
            }),
    {
        match self {
            TransferRequest::Funding { to, .. } => {
                if succeeded {
                    Some(*to)
                } else {
                    None
                }
            },
            TransferRequest::Faucet { .. } => None,
        }
    }
}

/// A submitted transfer, with the wallet that sent it and when (in
/// milliseconds on the caller's monotonic clock).
#[derive(Clone, Copy, Debug, PartialEq, Eq, Structural)]
pub struct Transfer {
    pub sender: Wallet,
    pub request: TransferRequest,
    pub timestamp: u64,
}

impl Transfer {
    pub fn new(sender: Wallet, request: TransferRequest, timestamp: u64) -> (r: Transfer)
        ensures
            r == (Transfer { sender, request, timestamp }),
    {
        Transfer { sender, request, timestamp }
    }
}

/// Why no transfer was submitted.
#[derive(Clone, Debug)]
pub enum TransferError {
    /// The node refused the transaction; the wallet and the request are back.
    RpcSubmitError { transfer: TransferRequest, sender: Address, msg: String },
    /// No idle wallet holds the funds that the front request requires.
    NoClient,
    /// The queue is empty.
    NoRequests,
}

} // verus!

verus! {

/// The faucet's configuration.
#[derive(Clone, Debug)]
pub struct Options {
    /// Number of sender wallets, that is, of transfers that can be in flight
    /// at once.
    pub num_clients: usize,
    /// The mnemonic from which the wallets are derived.
    pub mnemonic: String,
    /// Port of the request endpoint.
    pub port: u16,
    /// The amount of each grant, in the smallest unit.
    pub faucet_grant_amount: Amount,
    /// Milliseconds after which a transfer in flight is taken back and resent.
    pub transaction_timeout: u64,
    /// WebSocket endpoint of the node, for the block subscription.
    pub provider_url_ws: String,
    /// HTTP endpoint of the node, for everything else.
    pub provider_url_http: String,
    /// Token of the chat front-end, where there is one.
    pub discord_token: Option<String>,
    /// Whether under-funded wallets are funded from their peers at startup.
    pub enable_funding: bool,
}

impl Default for Options {
    fn default() -> (r: Options)
        ensures
            r.num_clients == 10,
            r.port == 8111,
            r.faucet_grant_amount.value() == 100_000_000_000_000_000_000nat,
            r.transaction_timeout == 300_000,
            r.discord_token is None,
            r.enable_funding,
            r.mnemonic@ == "test test test test test test test test test test test junk"@,
            r.provider_url_ws@ == "ws://localhost:8545"@,
            r.provider_url_http@ == "http://localhost:8545"@,
    {
        broadcast use vstd::string::to_string_from_display_ensures_for_str;

        Options {
            num_clients: 10,
            mnemonic: "test test test test test test test test test test test junk".to_string(),
            port: 8111,
            faucet_grant_amount: Amount::from_u128(100_000_000_000_000_000_000u128),
            transaction_timeout: 300_000,
            provider_url_ws: "ws://localhost:8545".to_string(),
            provider_url_http: "http://localhost:8545".to_string(),
            discord_token: None,
            enable_funding: true,
        }
    }
}

} // verus!
