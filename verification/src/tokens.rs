//! Value containers.
//!
//! All staked value in the engine lives in a [`Vault`] and moves between
//! vaults as a [`Tokens`] quantity.  `Tokens` is not cloneable and has no
//! public field, so inside the library value is never duplicated: the only
//! way value crosses a container boundary is `deposit`, `withdraw` or
//! `take_all`, each of which mutates exactly one container.

use vstd::prelude::*;

verus! {

/// A quantity of the staked asset, held by value.
///
/// Callers obtain fresh `Tokens` from [`Tokens::new`] (the asset itself comes
/// from outside this library) and move them into the engine when placing a
/// bet or depositing into the house vault; the engine hands `Tokens` back on
/// claims and withdrawals.  The view of a `Tokens` value is its amount, in
/// subunits (see [`crate::amount`]).
pub struct Tokens {
    amount: u128,
}

impl View for Tokens {
    type V = int;

    closed spec fn view(&self) -> int {
        self.amount as int
    }
}

impl Tokens {
    /// Mint a quantity of the asset.  This stands for value arriving from
    /// outside the engine; within the engine value only moves.
    pub fn new(amount: u128) -> (t: Tokens)
        ensures
            t@ == amount as int,
    {
        Tokens { amount }
    }

    /// The amount this quantity holds, in subunits.
    pub fn amount(&self) -> (a: u128)
        ensures
            a as int == self@,
    {
        self.amount
    }
}

/// A token quantity is never negative.
pub broadcast proof fn lemma_tokens_nonneg(t: &Tokens)
    ensures
        #[trigger] t@ >= 0,
{
}

/// A value container with a single balance.
///
/// One vault backs each escrow pool, the house pool, the admin pool and every
/// bettor's claimable pool.  Its view is its balance, in subunits.
pub struct Vault {
    balance: u128,
}

impl View for Vault {
    type V = int;

    closed spec fn view(&self) -> int {
        self.balance as int
    }
}

/// A vault balance is never negative.
pub broadcast proof fn lemma_vault_nonneg(v: &Vault)
    ensures
        #[trigger] v@ >= 0,
{
}

impl Vault {
    /// A container holding nothing.
    pub fn new_empty() -> (v: Vault)
        ensures
            v@ == 0,
    {
        Vault { balance: 0 }
    }

    /// The balance held, in subunits.
    pub fn balance(&self) -> (b: u128)
        ensures
            b as int == self@,
    {
        self.balance
    }

    /// Move a quantity into this container.
    pub fn deposit(&mut self, t: Tokens)
        requires
            old(self)@ + t@ <= u128::MAX,
        ensures
            final(self)@ == old(self)@ + t@,
    {
        self.balance = self.balance + t.amount;
    }

    /// Move `amount` subunits out of this container; the balance must
    /// suffice.
    pub fn withdraw(&mut self, amount: u128) -> (t: Tokens)
        requires
            amount as int <= old(self)@,
        ensures
            final(self)@ == old(self)@ - amount as int,
            t@ == amount as int,
    {
        self.balance = self.balance - amount;
        Tokens { amount }
    }

    /// Drain the container completely.
    pub fn take_all(&mut self) -> (t: Tokens)
        ensures
            final(self)@ == 0,
            t@ == old(self)@,
    {
        let amount = self.balance;
        self.balance = 0;
        Tokens { amount }
    }
}

} // verus!
