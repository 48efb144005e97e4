//! Stand-ins for the parts of a runtime that surround the arena, for tests
//! and benchmarks: each does the least that its part can do.

use crate::address::AccountId;
use vstd::prelude::*;

verus! {

/// A clock that always shows block 0.
pub struct MockBlockNumberProvider;

impl MockBlockNumberProvider {
    /// The number of the current block: always 0.
    pub fn current_block_number() -> (number: u32)
        ensures
            number == 0,
    {
        0
    }
}

/// The conversion of gas to weight at one for one.
pub struct GasToWeight;

impl GasToWeight {
    /// The weight of `a` units of gas: `a`.
    pub fn convert(a: u64) -> (weight: u64)
        ensures
            weight == a,
    {
        a
    }
}

/// The author of every block: the account whose 32 bytes are all 1.
pub struct AuthorGiven;

impl AuthorGiven {
    /// The author of the block with the digests `digests`, each the id of a
    /// consensus engine and its data: always the same account, whatever the
    /// digests.
    pub fn find_author(digests: &Vec<([u8; 4], Vec<u8>)>) -> (author: Option<AccountId>)
        ensures
            author matches Some(account) && account.bytes@ == Seq::new(32, |i: int| 1u8),
    {
        let account = AccountId { bytes: [1u8; 32] };
        assert(account.bytes@ =~= Seq::new(32, |i: int| 1u8));
        Some(account)
    }
}

/// Why a fee cannot be paid. The payment scheme of this module never says
/// so.
#[derive(Clone, Copy, Debug, PartialEq, Eq, Structural)]
pub enum PaymentError {
    /// The account cannot pay the fee.
    Payment,
}

/// Whether a call pays a fee.
#[derive(Clone, Copy, Debug, PartialEq, Eq, Structural)]
pub enum Pays {
    Yes,
    No,
}

/// The class of a call.
#[derive(Clone, Copy, Debug, PartialEq, Eq, Structural)]
pub enum DispatchClass {
    Normal,
    Operational,
    Mandatory,
}

/// A payment scheme in which nothing costs anything.
pub struct DefaultTransactionPayment;

impl DefaultTransactionPayment {
    /// Reserves the fee for `weight` from `who`: always a fee of zero.
    pub fn reserve_fee(who: &AccountId, weight: u64) -> (fee: Result<u128, PaymentError>)
        ensures
            fee == Ok::<u128, PaymentError>(0),
    {
        Ok(0)
    }

    /// Releases a reserved fee: there is nothing to release.
    pub fn unreserve_fee(who: &AccountId, fee: u128) {
    }

    /// Releases what was reserved from `who` and charges the fee for
    /// `weight`: always a fee of zero that leaves nothing owed.
    pub fn unreserve_and_charge_fee(who: &AccountId, weight: u64) -> (charged: Result<
        (u128, u128),
        PaymentError,
    >)
        ensures
            charged == Ok::<(u128, u128), PaymentError>((0, 0)),
    {
        Ok((0, 0))
    }

    /// Refunds to `who` what `payed` exceeds the fee for `weight` by: always
    /// done.
    pub fn refund_fee(who: &AccountId, weight: u64, payed: u128) -> (refund: Result<
        (),
        PaymentError,
    >)
        ensures
            refund is Ok,
    {
        Ok(())
    }

    /// Charges `who` the fee of a call: always done, at no cost.
    pub fn charge_fee(
        who: &AccountId,
        len: u32,
        weight: u64,
        tip: u128,
        pays_fee: Pays,
        class: DispatchClass,
    ) -> (charge: Result<(), PaymentError>)
        ensures
            charge is Ok,
    {
        Ok(())
    }
}

} // verus!
