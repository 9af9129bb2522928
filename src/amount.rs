//! 256-bit amounts of the chain's native currency.
//!
//! The words are plain values that the scheduler can reason about; the
//! arithmetic itself is done by ethers' `U256`.
use ethers::types::U256;
use vstd::prelude::*;

verus! {

/// The base of one 64-bit word.
pub open spec fn word_base() -> nat {
    18446744073709551616
}

/// One more than the largest value an `Amount` can hold (two to the 256th).
pub open spec fn amount_bound() -> nat {
    word_base() * (word_base() * (word_base() * word_base()))
}

/// A non-negative 256-bit integer, as four 64-bit words, least significant first.
#[derive(Clone, Copy, Debug, PartialEq, Eq, Structural)]
pub struct Amount {
    pub w0: u64,
    pub w1: u64,
    pub w2: u64,
    pub w3: u64,
}

impl Amount {
    /// The number this amount stands for.
    pub open spec fn value(self) -> nat {
        self.w0 as nat + word_base() * (self.w1 as nat + word_base() * (self.w2 as nat
            + word_base() * self.w3 as nat))
    }

    pub fn zero() -> (r: Amount)
        ensures
            r.value() == 0,
    {
        Amount { w0: 0, w1: 0, w2: 0, w3: 0 }
    }

    pub fn from_u128(v: u128) -> (r: Amount)
        ensures
            r.value() == v as nat,
    {
        let lo: u64 = (v % 0x1_0000_0000_0000_0000u128) as u64;
        let hi: u64 = (v / 0x1_0000_0000_0000_0000u128) as u64;
        proof {
            vstd::arithmetic::div_mod::lemma_fundamental_div_mod(
                v as int,
                word_base() as int,
            );
        }
        Amount { w0: lo, w1: hi, w2: 0, w3: 0 }
    }
}

/// Relies on the `Ord` of ethers' `U256`, which compares the words from the
/// most significant down: numeric order.
#[verifier::external_body]
pub(crate) fn amount_lt(a: Amount, b: Amount) -> (r: bool)
    ensures
        r == (a.value() < b.value()),
{
    U256([a.w0, a.w1, a.w2, a.w3]) < U256([b.w0, b.w1, b.w2, b.w3])
}

/// Relies on `U256::checked_add`: the sum, or `None` where it overflows 256 bits.
#[verifier::external_body]
pub(crate) fn amount_checked_add(a: Amount, b: Amount) -> (r: Option<Amount>)
    ensures
        r is Some <==> a.value() + b.value() < amount_bound(),
        r matches Some(s) ==> s.value() == a.value() + b.value(),
{
    let x = U256([a.w0, a.w1, a.w2, a.w3]);
    let y = U256([b.w0, b.w1, b.w2, b.w3]);
    match x.checked_add(y) {
        Some(s) => Some(Amount { w0: s.0[0], w1: s.0[1], w2: s.0[2], w3: s.0[3] }),
        None => None,
    }
}

/// Relies on `U256::checked_mul` (with `U256::from(u64)` for the factor): the
/// product, or `None` where it overflows 256 bits.
#[verifier::external_body]
pub(crate) fn amount_checked_mul(a: Amount, k: u64) -> (r: Option<Amount>)
    ensures
        r is Some <==> a.value() * k < amount_bound(),
        r matches Some(p) ==> p.value() == a.value() * k,
{
    let x = U256([a.w0, a.w1, a.w2, a.w3]);
    match x.checked_mul(U256::from(k)) {
        Some(p) => Some(Amount { w0: p.0[0], w1: p.0[1], w2: p.0[2], w3: p.0[3] }),
        None => None,
    }
}

/// Relies on `U256`'s `Div` (with `U256::from(u64)` for the divisor): the
/// quotient rounded down. It panics on a zero divisor, which is excluded.
#[verifier::external_body]
pub(crate) fn amount_div(a: Amount, d: u64) -> (r: Amount)
    requires
        d > 0,
    ensures
        r.value() == a.value() / (d as nat),
{
    let q = U256([a.w0, a.w1, a.w2, a.w3]) / U256::from(d);
    Amount { w0: q.0[0], w1: q.0[1], w2: q.0[2], w3: q.0[3] }
}

} // verus!

verus! {

proof fn lemma_word_step(a: nat, x: nat, p: nat)
    requires
        a < word_base(),
        x < p,
    ensures
        a + word_base() * x < word_base() * p,
{
    let b = word_base();
    assert(a + b * x < b * p) by (nonlinear_arith)
        requires
            a < b,
            x < p,
    ;
}

/// Every amount lies below two to the 256th.
pub proof fn lemma_value_bound(a: Amount)
    ensures
        a.value() < amount_bound(),
{
    let b = word_base();
    lemma_word_step(a.w2 as nat, a.w3 as nat, b);
    lemma_word_step(a.w1 as nat, a.w2 as nat + b * a.w3 as nat, b * b);
    lemma_word_step(
        a.w0 as nat,
        a.w1 as nat + b * (a.w2 as nat + b * a.w3 as nat),
        b * (b * b),
    );
}

} // verus!
