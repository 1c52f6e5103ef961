//! The engine's model of the funds ledger.
//!
//! Each account carries an available (`free`) and a held (`reserved`)
//! balance.  Escrow moves funds between the two; a plain transfer moves
//! available funds between accounts.  An account that is absent from the
//! table reads as all-zero.

use vstd::prelude::*;

use crate::kv::{distinct_keys, kv_find, kv_map, lemma_kv_contains, lemma_kv_get, lemma_kv_push,
    lemma_kv_update};
use crate::types::{AccountId, Balance, Error};

verus! {

/// The smaller of two balances.
pub open spec fn min_bal(a: Balance, b: Balance) -> Balance {
    if a <= b {
        a
    } else {
        b
    }
}

/// One account's balances.
#[derive(Clone, Copy, PartialEq, Eq, Debug)]
pub struct AccountData {
    /// Funds the account may spend or escrow.
    pub free: Balance,
    /// Funds held in escrow.
    pub reserved: Balance,
}

/// The funds ledger: per-account balances with pairwise distinct accounts.
#[derive(PartialEq, Eq, Debug)]
pub struct Balances {
    /// The account table.
    pub accounts: Vec<(AccountId, AccountData)>,
}

impl Balances {
    /// The ledger as a finite map from account to balances.
    pub open spec fn m(self) -> Map<AccountId, AccountData> {
        kv_map(self.accounts@)
    }

    /// Well-formed: accounts are distinct and no account's total overflows.
    pub open spec fn wf(self) -> bool {
        &&& distinct_keys(self.accounts@)
        &&& forall|i: int| 0 <= i < self.accounts@.len()
            ==> (#[trigger] self.accounts@[i]).1.free + self.accounts@[i].1.reserved <= u128::MAX
    }

    /// The balances of `who`; an absent account reads as all-zero.
    pub open spec fn acct(self, who: AccountId) -> AccountData {
        if self.m().contains_key(who) {
            self.m()[who]
        } else {
            AccountData { free: 0, reserved: 0 }
        }
    }

    /// Available balance of `who`.
    pub open spec fn spec_free(self, who: AccountId) -> Balance {
        self.acct(who).free
    }

    /// Held balance of `who`.
    pub open spec fn spec_reserved(self, who: AccountId) -> Balance {
        self.acct(who).reserved
    }

    /// How an account looks after a full refund of `amount`: the amount is
    /// returned to the available balance (minted where the held balance fell
    /// short), and whatever was held toward it is released.
    pub open spec fn refund_ok_acct(a: AccountData, amount: Balance) -> AccountData {
        AccountData {
            free: (a.free + amount) as u128,
            reserved: (a.reserved - min_bal(amount, a.reserved)) as u128,
        }
    }

    /// How an account looks after escrowing `amount`.
    pub open spec fn reserve_ok_acct(a: AccountData, amount: Balance) -> AccountData {
        AccountData {
            free: (a.free - amount) as u128,
            reserved: (a.reserved + amount) as u128,
        }
    }

    /// Whether unreserving `amount` for `who` hits an overdraft that the
    /// ledger cannot compensate by minting: the held balance falls short and
    /// either the account is absent or its total would overflow.
    pub open spec fn refund_minting_fails(self, who: AccountId, amount: Balance) -> bool {
        amount > self.spec_reserved(who) && (!self.m().contains_key(who) || self.spec_free(who)
            + amount > u128::MAX)
    }

    /// All accounts other than `who` hold the same balances in both ledgers.
    pub open spec fn others_same(self, post: Balances, who: AccountId) -> bool {
        forall|a: AccountId| a != who ==> #[trigger] post.acct(a) == self.acct(a)
    }

    /// In a well-formed ledger no account's total exceeds the balance width.
    pub proof fn lemma_acct_total(self, who: AccountId)
        requires
            self.wf(),
        ensures
            self.spec_free(who) + self.spec_reserved(who) <= u128::MAX,
    {
        if self.m().contains_key(who) {
            lemma_kv_contains(self.accounts@, who);
            let i = choose|i: int| 0 <= i < self.accounts@.len() && self.accounts@[i].0 == who;
            lemma_kv_get(self.accounts@, i);
        }
    }

    /// An empty ledger.
    pub fn new() -> (r: Balances)
        ensures
            r.wf(),
            r.accounts@.len() == 0,
            forall|a: AccountId| #[trigger] r.acct(a) == (AccountData { free: 0, reserved: 0 }),
    {
        let r = Balances { accounts: Vec::new() };
        proof {
            assert forall|a: AccountId| #[trigger] r.acct(a) == (AccountData { free: 0, reserved: 0 }) by {
                lemma_kv_contains(r.accounts@, a);
            }
        }
        r
    }

    /// Endow a fresh account with an opening available balance.
    pub fn endow(&mut self, who: AccountId, amount: Balance)
        requires
            old(self).wf(),
            !old(self).m().contains_key(who),
        ensures
            final(self).wf(),
            final(self).m() == old(self).m().insert(who, AccountData { free: amount, reserved: 0 }),
            final(self).acct(who) == (AccountData { free: amount, reserved: 0 }),
            old(self).others_same(*final(self), who),
    {
        proof {
            lemma_kv_contains(self.accounts@, who);
            lemma_kv_push(self.accounts@, who, AccountData { free: amount, reserved: 0 });
        }
        self.accounts.push((who, AccountData { free: amount, reserved: 0 }));
    }

    /// Available balance of `who`.
    pub fn free_balance(&self, who: AccountId) -> (r: Balance)
        requires
            self.wf(),
        ensures
            r == self.spec_free(who),
    {
        match kv_find(&self.accounts, who) {
            Some(i) => {
                proof {
                    lemma_kv_get(self.accounts@, i as int);
                }
                self.accounts[i].1.free
            },
            None => {
                proof {
                    lemma_kv_contains(self.accounts@, who);
                }
                0
            },
        }
    }

    /// Held balance of `who`.
    pub fn reserved_balance(&self, who: AccountId) -> (r: Balance)
        requires
            self.wf(),
        ensures
            r == self.spec_reserved(who),
    {
        match kv_find(&self.accounts, who) {
            Some(i) => {
                proof {
                    lemma_kv_get(self.accounts@, i as int);
                }
                self.accounts[i].1.reserved
            },
            None => {
                proof {
                    lemma_kv_contains(self.accounts@, who);
                }
                0
            },
        }
    }

    /// Whether `amount` could be moved from available to held for `who`.
    pub fn can_reserve(&self, who: AccountId, amount: Balance) -> (r: bool)
        requires
            self.wf(),
        ensures
            r == (amount <= self.spec_free(who)),
    {
        amount <= self.free_balance(who)
    }

    /// Move `amount` from `who`'s available balance into escrow; fails, and
    /// changes nothing, exactly when the available balance does not cover it.
    pub fn reserve(&mut self, who: AccountId, amount: Balance) -> (r: Result<(), Error>)
        requires
            old(self).wf(),
        ensures
            final(self).wf(),
            amount > old(self).spec_free(who)
                ==> r == Err::<(), Error>(Error::EscrowReserveFailed)
                    && *final(self) == *old(self),
            amount <= old(self).spec_free(who) ==> {
                &&& r == Ok::<(), Error>(())
                &&& final(self).acct(who) == (AccountData {
                    free: (old(self).spec_free(who) - amount) as u128,
                    reserved: (old(self).spec_reserved(who) + amount) as u128,
                })
                &&& old(self).others_same(*final(self), who)
            },
    {
        match kv_find(&self.accounts, who) {
            Some(i) => {
                proof {
                    lemma_kv_get(self.accounts@, i as int);
                }
                let entry = self.accounts[i].1;
                if amount > entry.free {
                    Err(Error::EscrowReserveFailed)
                } else {
                    let updated = AccountData {
                        free: entry.free - amount,
                        reserved: entry.reserved + amount,
                    };
                    proof {
                        lemma_kv_update(self.accounts@, i as int, updated);
                    }
                    self.accounts[i].1 = updated;
                    proof {
                        assert(self.m() =~= old(self).m().insert(who, updated));
                    }
                    Ok(())
                }
            },
            None => {
                proof {
                    lemma_kv_contains(self.accounts@, who);
                }
                if amount > 0 {
                    Err(Error::EscrowReserveFailed)
                } else {
                    Ok(())
                }
            },
        }
    }

    /// Move up to `amount` back from escrow to `who`'s available balance,
    /// returning the shortfall (the part of `amount` that was not held).
    pub fn unreserve(&mut self, who: AccountId, amount: Balance) -> (overdraft: Balance)
        requires
            old(self).wf(),
        ensures
            final(self).wf(),
            final(self).m().contains_key(who) == old(self).m().contains_key(who),
            overdraft == if amount > old(self).spec_reserved(who) {
                amount - old(self).spec_reserved(who)
            } else {
                0
            },
            final(self).acct(who) == (AccountData {
                free: (old(self).spec_free(who) + (amount - overdraft)) as u128,
                reserved: (old(self).spec_reserved(who) - (amount - overdraft)) as u128,
            }),
            old(self).others_same(*final(self), who),
    {
        match kv_find(&self.accounts, who) {
            Some(i) => {
                proof {
                    lemma_kv_get(self.accounts@, i as int);
                }
                let entry = self.accounts[i].1;
                let moved = if amount > entry.reserved { entry.reserved } else { amount };
                let updated = AccountData {
                    free: entry.free + moved,
                    reserved: entry.reserved - moved,
                };
                proof {
                    lemma_kv_update(self.accounts@, i as int, updated);
                }
                self.accounts[i].1 = updated;
                proof {
                    assert(self.m() =~= old(self).m().insert(who, updated));
                }
                amount - moved
            },
            None => {
                proof {
                    lemma_kv_contains(self.accounts@, who);
                    assert(self.acct(who) == old(self).acct(who));
                }
                amount
            },
        }
    }

    /// Mint `amount` into an existing account's available balance; fails, and
    /// changes nothing, when the account is absent or its total would
    /// overflow the ledger's width.
    pub fn deposit(&mut self, who: AccountId, amount: Balance) -> (r: Result<(), Error>)
        requires
            old(self).wf(),
        ensures
            final(self).wf(),
            r is Ok <==> old(self).m().contains_key(who)
                && old(self).spec_free(who) + old(self).spec_reserved(who) + amount <= u128::MAX,
            r is Err ==> r == Err::<(), Error>(Error::MintingFailed) && *final(self) == *old(self),
            r is Ok ==> {
                &&& final(self).acct(who) == (AccountData {
                    free: (old(self).spec_free(who) + amount) as u128,
                    reserved: old(self).spec_reserved(who),
                })
                &&& old(self).others_same(*final(self), who)
            },
    {
        match kv_find(&self.accounts, who) {
            Some(i) => {
                proof {
                    lemma_kv_get(self.accounts@, i as int);
                }
                let entry = self.accounts[i].1;
                if amount <= u128::MAX - entry.free - entry.reserved {
                    let updated = AccountData { free: entry.free + amount, reserved: entry.reserved };
                    proof {
                        lemma_kv_update(self.accounts@, i as int, updated);
                    }
                    self.accounts[i].1 = updated;
                    proof {
                        assert(self.m() =~= old(self).m().insert(who, updated));
                    }
                    Ok(())
                } else {
                    Err(Error::MintingFailed)
                }
            },
            None => {
                proof {
                    lemma_kv_contains(self.accounts@, who);
                }
                Err(Error::MintingFailed)
            },
        }
    }

    /// Whether a transfer of `amount` from `from` to `to` can complete: the
    /// sender's available balance covers it and the receiver's total stays
    /// within the ledger's width.
    pub open spec fn can_transfer(self, from: AccountId, to: AccountId, amount: Balance) -> bool {
        &&& amount <= self.spec_free(from)
        &&& (from != to
            ==> self.spec_free(to) + self.spec_reserved(to) + amount <= u128::MAX)
    }

    /// Transfer `amount` of available balance from `from` to `to`, creating
    /// `to` if absent; fails, and changes nothing, exactly when
    /// `can_transfer` does not hold.
    pub fn transfer(&mut self, from: AccountId, to: AccountId, amount: Balance) -> (r: Result<
        (),
        Error,
    >)
        requires
            old(self).wf(),
        ensures
            final(self).wf(),
            r is Ok <==> old(self).can_transfer(from, to, amount),
            r is Err ==> r == Err::<(), Error>(Error::TransferFailed) && *final(self) == *old(self),
            r is Ok && from != to ==> {
                &&& final(self).acct(from) == (AccountData {
                    free: (old(self).spec_free(from) - amount) as u128,
                    reserved: old(self).spec_reserved(from),
                })
                &&& final(self).acct(to) == (AccountData {
                    free: (old(self).spec_free(to) + amount) as u128,
                    reserved: old(self).spec_reserved(to),
                })
                &&& forall|a: AccountId| a != from && a != to
                    ==> #[trigger] final(self).acct(a) == old(self).acct(a)
            },
            r is Ok && from == to ==> *final(self) == *old(self),
    {
        if amount > self.free_balance(from) {
            return Err(Error::TransferFailed);
        }
        if from == to {
            return Ok(());
        }
        match kv_find(&self.accounts, to) {
            Some(j) => {
                proof {
                    lemma_kv_get(self.accounts@, j as int);
                }
                let to_entry = self.accounts[j].1;
                if amount > u128::MAX - to_entry.free - to_entry.reserved {
                    return Err(Error::TransferFailed);
                }
                self.debit_free(from, amount);
                let ghost mid = *self;
                match kv_find(&self.accounts, to) {
                    Some(j2) => {
                        proof {
                            lemma_kv_get(self.accounts@, j2 as int);
                            assert(mid.acct(to) == old(self).acct(to));
                            assert(self.accounts@[j2 as int].1 == old(self).acct(to));
                        }
                        let entry = self.accounts[j2].1;
                        let updated = AccountData {
                            free: entry.free + amount,
                            reserved: entry.reserved,
                        };
                        proof {
                            lemma_kv_update(self.accounts@, j2 as int, updated);
                        }
                        self.accounts[j2].1 = updated;
                        proof {
                            assert(self.m() =~= mid.m().insert(to, updated));
                            assert(self.acct(to) == updated);
                            assert(self.acct(from) == mid.acct(from));
                            assert forall|a: AccountId| a != from && a != to implies
                                self.acct(a) == old(self).acct(a) by {
                                assert(mid.acct(a) == old(self).acct(a));
                                assert(self.acct(a) == mid.acct(a));
                            }
                        }
                        Ok(())
                    },
                    None => {
                        proof {
                            lemma_kv_contains(self.accounts@, to);
                            assert(false);
                        }
                        Err(Error::TransferFailed)
                    },
                }
            },
            None => {
                proof {
                    lemma_kv_contains(self.accounts@, to);
                    assert(old(self).acct(to) == (AccountData { free: 0, reserved: 0 }));
                }
                self.debit_free(from, amount);
                let ghost mid = *self;
                proof {
                    assert(!mid.m().contains_key(to));
                    lemma_kv_contains(self.accounts@, to);
                    lemma_kv_push(self.accounts@, to, AccountData { free: amount, reserved: 0 });
                }
                self.accounts.push((to, AccountData { free: amount, reserved: 0 }));
                proof {
                    assert(self.m() == mid.m().insert(to, AccountData { free: amount, reserved: 0 }));
                    assert(self.acct(to) == (AccountData { free: amount, reserved: 0 }));
                    assert(self.acct(from) == mid.acct(from));
                    assert forall|a: AccountId| a != from && a != to implies
                        self.acct(a) == old(self).acct(a) by {
                        assert(mid.acct(a) == old(self).acct(a));
                        assert(self.acct(a) == mid.acct(a));
                    }
                }
                Ok(())
            },
        }
    }

    /// Take `amount` out of `from`'s available balance.
    fn debit_free(&mut self, from: AccountId, amount: Balance)
        requires
            old(self).wf(),
            amount <= old(self).spec_free(from),
        ensures
            final(self).wf(),
            final(self).acct(from) == (AccountData {
                free: (old(self).spec_free(from) - amount) as u128,
                reserved: old(self).spec_reserved(from),
            }),
            old(self).others_same(*final(self), from),
            final(self).m().dom() == old(self).m().dom().insert(from),
    {
        match kv_find(&self.accounts, from) {
            Some(i) => {
                proof {
                    lemma_kv_get(self.accounts@, i as int);
                }
                let entry = self.accounts[i].1;
                let updated = AccountData { free: entry.free - amount, reserved: entry.reserved };
                proof {
                    lemma_kv_update(self.accounts@, i as int, updated);
                }
                self.accounts[i].1 = updated;
                proof {
                    assert(self.m() =~= old(self).m().insert(from, updated));
                    assert(self.m().dom() =~= old(self).m().dom().insert(from));
                }
            },
            None => {
                proof {
                    lemma_kv_contains(self.accounts@, from);
                }
                let updated = AccountData { free: 0, reserved: 0 };
                proof {
                    lemma_kv_push(self.accounts@, from, updated);
                }
                self.accounts.push((from, updated));
                proof {
                    assert(self.m().dom() =~= old(self).m().dom().insert(from));
                }
            },
        }
    }
}

} // verus!
